//! Text output: PSF fonts and the framebuffer they are drawn on.
pub mod framebuffer;
pub mod psf;
