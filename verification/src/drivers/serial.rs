use vstd::prelude::*;

verus! {

/// A serial port, by its first I/O port.
pub struct Serial {
    pub port: u16,
}

/// Why a serial port could not be used.
#[derive(Debug, Clone, Copy, PartialEq, Eq, Structural)]
pub enum SerialError {
    Faulty,
}

/// First I/O port of the first serial port.
pub const COM0: u16 = 0x3F8;

/// The register writes that set up a port, in order, ending with the test
/// byte sent in loopback mode.
pub open spec fn init_writes_spec(port: u16) -> Seq<(u16, u8)> {
    seq![
        ((port + 1) as u16, 0x00u8),
        ((port + 3) as u16, 0x80u8),
        (port, 0x03u8),
        ((port + 1) as u16, 0x00u8),
        ((port + 3) as u16, 0x03u8),
        ((port + 2) as u16, 0xC7u8),
        ((port + 4) as u16, 0x0Bu8),
        ((port + 4) as u16, 0x1Eu8),
        (port, 0xAEu8),
    ]
}

impl Serial {
    /// A port used as it is, without setting it up.
    pub fn new_uninit(port: u16) -> (r: Self)
        ensures
            r.port == port,
    {
        Self { port }
    }

    /// The register writes that set up `port`: interrupts off, 38400 baud,
    /// 8 bits without parity with one stop bit, FIFOs on, then loopback mode
    /// and the test byte 0xAE.
    pub fn init_writes(port: u16) -> (r: Vec<(u16, u8)>)
        requires
            port <= 0xFFFB,
        ensures
            r@ == init_writes_spec(port),
    {
        let mut v = Vec::new();
        v.push((port + 1, 0x00));
        v.push((port + 3, 0x80));
        v.push((port, 0x03));
        v.push((port + 1, 0x00));
        v.push((port + 3, 0x03));
        v.push((port + 2, 0xC7));
        v.push((port + 4, 0x0B));
        v.push((port + 4, 0x1E));
        v.push((port, 0xAE));
        assert(v@ =~= init_writes_spec(port));
        v
    }

    /// Decides the loopback test: the port works when it echoed the test byte,
    /// and is then put in normal mode by the returned register write.
    pub fn initialize_port(port: u16, echoed: u8) -> (r: Result<(u16, u8), SerialError>)
        requires
            port <= 0xFFFB,
        ensures
            echoed != 0xAE ==> r == Err::<(u16, u8), SerialError>(SerialError::Faulty),
            echoed == 0xAE ==> r == Ok::<(u16, u8), SerialError>(((port + 4) as u16, 0x0fu8)),
    {
        if echoed != 0xAE {
            Err(SerialError::Faulty)
        } else {
            Ok((port + 4, 0x0f))
        }
    }

    /// The port, once setting it up gave `init`.
    pub fn new(port: u16, init: Result<(), SerialError>) -> (r: Result<Self, SerialError>)
        ensures
            init is Ok ==> (r matches Ok(s) && s.port == port),
            init matches Err(e) ==> r == Err::<Self, SerialError>(e),
    {
        match init {
            Ok(_) => Ok(Self { port }),
            Err(x) => Err(x),
        }
    }

    /// Whether a byte has arrived, from the line status register.
    pub fn data_ready(line_status: u8) -> (r: bool)
        ensures
            r == (line_status & 1 != 0),
    {
        line_status & 1 != 0
    }

    /// Whether the transmitter can take a byte, from the line status register.
    pub fn tx_empty(line_status: u8) -> (r: bool)
        ensures
            r == (line_status & 0x20 != 0),
    {
        line_status & 0x20 != 0
    }
}

} // verus!
