//! COM1 serial port: the register programming that initializes it and the bytes that go on
//! the wire for a string. The port I/O itself is done by the caller.
use vstd::prelude::*;

verus! {

/// Port address for COM1.
pub const COM1: u16 = 0x3f8;

/// Serial port driver.
pub struct SerialPort {
    /// IO address for this serial port.
    port: u16,
}

/// The bytes sent for `s`: every line feed is preceded by a carriage return.
pub open spec fn crlf(s: Seq<u8>) -> Seq<u8>
    decreases s.len(),
{
    if s.len() == 0 {
        Seq::empty()
    } else if s.last() == 10 {
        crlf(s.drop_last()) + seq![13u8, 10u8]
    } else {
        crlf(s.drop_last()).push(s.last())
    }
}

/// Every line feed sent is preceded by a carriage return.
pub proof fn lemma_crlf_line_endings(s: Seq<u8>)
    ensures
        forall|i: int|
            0 <= i < crlf(s).len() && #[trigger] crlf(s)[i] == 10 ==> i > 0 && crlf(s)[i - 1] == 13,
    decreases s.len(),
{
    if s.len() > 0 {
        lemma_crlf_line_endings(s.drop_last());
        let prev = crlf(s.drop_last());
        assert forall|i: int|
            0 <= i < crlf(s).len() && #[trigger] crlf(s)[i] == 10 implies i > 0 && crlf(s)[i - 1]
                == 13 by {
            if i < prev.len() {
                assert(crlf(s)[i] == prev[i]);
                if i > 0 {
                    assert(crlf(s)[i - 1] == prev[i - 1]);
                }
            }
        }
    }
}

impl SerialPort {
    /// IO address of this serial port.
    pub closed spec fn port_spec(&self) -> u16 {
        self.port
    }

    /// The COM1 serial port. It must be initialized by writing `init_sequence` to its
    /// registers before use.
    pub fn new() -> (r: Self)
        ensures
            r.port_spec() == COM1,
    {
        Self { port: COM1 }
    }

    /// IO address of this serial port.
    pub fn port(&self) -> (r: u16)
        ensures
            r == self.port_spec(),
    {
        self.port
    }

    /// Register writes, in order, that initialize the port: interrupts off, 115200 baud,
    /// 8 bits with 1 stop bit and no parity, RTS/DSR set.
    pub fn init_sequence(&self) -> (r: Vec<(u16, u8)>)
        requires
            self.port_spec() <= 0xfff0,
        ensures
            r@ == seq![
                ((self.port_spec() + 1) as u16, 0x00u8),
                ((self.port_spec() + 3) as u16, 0x80u8),
                (self.port_spec(), 0x01u8),
                ((self.port_spec() + 1) as u16, 0x00u8),
                ((self.port_spec() + 3) as u16, 0x03u8),
                ((self.port_spec() + 4) as u16, 0x03u8),
            ],
    {
        let port = self.port;
        let mut r = Vec::new();
        r.push((port + 1, 0x00));  // Disable all interrupts.
        r.push((port + 3, 0x80));  // Enable DLAB.
        r.push((port, 0x01));  // Low byte divisor (115200 baud).
        r.push((port + 1, 0x00));  // High byte divisor.
        r.push((port + 3, 0x03));  // 8 bits, 1 stop bit, no parity.
        r.push((port + 4, 0x03));  // RTS/DSR set.
        assert(r@ =~= seq![
            ((port + 1) as u16, 0x00u8),
            ((port + 3) as u16, 0x80u8),
            (port, 0x01u8),
            ((port + 1) as u16, 0x00u8),
            ((port + 3) as u16, 0x03u8),
            ((port + 4) as u16, 0x03u8),
        ]);
        r
    }

    /// Port to poll before each byte: a byte may be sent once bit 5 (transmitter empty) of
    /// its value is set.
    pub fn line_status_port(&self) -> (r: u16)
        requires
            self.port_spec() <= 0xfff0,
        ensures
            r == self.port_spec() + 5,
    {
        self.port + 5
    }

    /// Bytes to transmit for `string`, forcing CRLF line endings.
    pub fn encode(&self, string: &[u8]) -> (r: Vec<u8>)
        ensures
            r@ == crlf(string@),
    {
        let mut out: Vec<u8> = Vec::new();
        let mut i: usize = 0;
        while i < string.len()
            invariant
                i <= string@.len(),
                out@ == crlf(string@.subrange(0, i as int)),
            decreases string@.len() - i,
        {
            let byte = string[i];
            proof {
                let prefix = string@.subrange(0, i as int + 1);
                assert(prefix.drop_last() =~= string@.subrange(0, i as int));
                assert(prefix.last() == byte);
            }
            // Force CRLF.
            if byte == 10 {
                out.push(13);
            }
            out.push(byte);
            i += 1;
        }
        assert(string@.subrange(0, string@.len() as int) =~= string@);
        out
    }
}

} // verus!
