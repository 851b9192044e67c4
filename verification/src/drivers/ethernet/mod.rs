//! Network interface controllers.
pub mod e1000;
