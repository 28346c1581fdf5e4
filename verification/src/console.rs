//! Console byte I/O over a serial-port model: the line discipline
//! (every line feed is preceded by a carriage return on the wire) and
//! the console character device node.
//!
//! [`SerialPort`] models the UART from this layer's point of view:
//! `tx` is the byte stream handed to the transmitter so far, `rx` the
//! input bytes the receiver holds. The platform layer owns the real
//! device registers.

use vstd::prelude::*;
use vstd::slice::slice_to_vec;

use crate::types::{DEFAULT_FILE_PERM, FsError, NodeAttr, NodeType};

verus! {

/// The carriage-return byte.
pub const CR: u8 = 13;

/// The line-feed byte.
pub const LF: u8 = 10;

/// The model of the UART: what went out, and what waits to be read.
pub struct SerialPort {
    pub tx: Vec<u8>,
    pub rx: Vec<u8>,
}

/// What the transmitter receives for a byte sequence: a carriage
/// return is inserted before every line feed.
pub open spec fn crlf_encode(s: Seq<u8>) -> Seq<u8>
    decreases s.len(),
{
    if s.len() == 0 {
        Seq::empty()
    } else {
        crlf_encode(s.drop_last()) + (if s.last() == LF {
            seq![CR, LF]
        } else {
            seq![s.last()]
        })
    }
}

impl SerialPort {
    /// A quiet port: nothing sent, nothing pending.
    pub fn new() -> (r: SerialPort)
        ensures
            r.tx@ =~= Seq::<u8>::empty(),
            r.rx@ =~= Seq::<u8>::empty(),
    {
        SerialPort { tx: Vec::new(), rx: Vec::new() }
    }
}

/// Writes bytes to the console: every line feed goes out as a
/// carriage return followed by a line feed.
pub fn write_bytes(port: &mut SerialPort, bytes: &[u8])
    ensures
        final(port).tx@ == old(port).tx@ + crlf_encode(bytes@),
        final(port).rx@ == old(port).rx@,
{
    let mut i: usize = 0;
    proof {
        assert(bytes@.take(0) =~= Seq::<u8>::empty());
        assert(old(port).tx@ + crlf_encode(bytes@.take(0)) =~= old(port).tx@);
    }
    while i < bytes.len()
        invariant
            i <= bytes@.len(),
            port.tx@ == old(port).tx@ + crlf_encode(bytes@.take(i as int)),
            port.rx@ == old(port).rx@,
        decreases bytes@.len() - i,
    {
        let ghost before = port.tx@;
        let c = bytes[i];
        if c == LF {
            port.tx.push(CR);
        }
        port.tx.push(c);
        proof {
            assert(bytes@.take(i + 1).drop_last() =~= bytes@.take(i as int));
            assert(bytes@.take(i + 1).last() == c);
            if c == LF {
                assert(port.tx@ =~= before + seq![CR, LF]);
            } else {
                assert(port.tx@ =~= before + seq![c]);
            }
            assert(port.tx@ =~= old(port).tx@ + crlf_encode(bytes@.take(i + 1)));
        }
        i = i + 1;
    }
    proof {
        assert(bytes@.take(bytes@.len() as int) =~= bytes@);
    }
}

/// Reads pending console input into `buf`, overwriting its prefix:
/// stops when the buffer is full or nothing is pending, and returns
/// the number of bytes read.
pub fn read_bytes(port: &mut SerialPort, buf: &mut Vec<u8>) -> (n: usize)
    ensures
        n == if old(buf)@.len() <= old(port).rx@.len() {
            old(buf)@.len()
        } else {
            old(port).rx@.len()
        },
        final(buf)@ == old(port).rx@.take(n as int) + old(buf)@.skip(n as int),
        final(port).rx@ == old(port).rx@.skip(n as int),
        final(port).tx@ == old(port).tx@,
{
    let n: usize = if buf.len() <= port.rx.len() {
        buf.len()
    } else {
        port.rx.len()
    };
    let mut i: usize = 0;
    while i < n
        invariant
            i <= n,
            n <= buf@.len(),
            n <= port.rx@.len(),
            buf@.len() == old(buf)@.len(),
            port.rx@ == old(port).rx@,
            port.tx@ == old(port).tx@,
            forall|j: int| 0 <= j < i ==> buf@[j] == old(port).rx@[j],
            forall|j: int| i <= j < buf@.len() ==> buf@[j] == old(buf)@[j],
        decreases n - i,
    {
        let b = port.rx[i];
        buf[i] = b;
        i = i + 1;
    }
    let rest = slice_to_vec(&port.rx.as_slice()[n..port.rx.len()]);
    port.rx = rest;
    proof {
        assert(port.rx@ =~= old(port).rx@.skip(n as int));
        assert(buf@ =~= old(port).rx@.take(n as int) + old(buf)@.skip(n as int));
    }
    n
}

/// The console character device node (`/dev/tty`): reads and writes
/// go to the serial port; sizes and offsets are meaningless.
pub struct TtyDev;

impl TtyDev {
    /// A character device with the default file permission.
    pub fn get_attr(&self) -> (r: Result<NodeAttr, FsError>)
        ensures
            r == Ok::<NodeAttr, FsError>(
                NodeAttr { perm: DEFAULT_FILE_PERM, ty: NodeType::CharDevice, size: 0 },
            ),
    {
        Ok(NodeAttr { perm: DEFAULT_FILE_PERM, ty: NodeType::CharDevice, size: 0 })
    }

    /// Reads pending console input; the offset is ignored.
    pub fn read_at(&self, port: &mut SerialPort, _offset: u64, buf: &mut Vec<u8>) -> (r: Result<
        usize,
        FsError,
    >)
        ensures
            match r {
                Ok(n) => {
                    &&& n == if old(buf)@.len() <= old(port).rx@.len() {
                        old(buf)@.len()
                    } else {
                        old(port).rx@.len()
                    }
                    &&& final(buf)@ == old(port).rx@.take(n as int) + old(buf)@.skip(n as int)
                    &&& final(port).rx@ == old(port).rx@.skip(n as int)
                    &&& final(port).tx@ == old(port).tx@
                },
                Err(_) => false,
            },
    {
        Ok(read_bytes(port, buf))
    }

    /// Writes to the console; the offset is ignored and the whole
    /// buffer is accepted.
    pub fn write_at(&self, port: &mut SerialPort, _offset: u64, buf: &[u8]) -> (r: Result<
        usize,
        FsError,
    >)
        ensures
            match r {
                Ok(n) => n == buf@.len() && final(port).tx@ == old(port).tx@ + crlf_encode(buf@)
                    && final(port).rx@ == old(port).rx@,
                Err(_) => false,
            },
    {
        write_bytes(port, buf);
        Ok(buf.len())
    }

    /// Truncation is accepted and meaningless.
    pub fn truncate(&self, _size: u64) -> (r: Result<(), FsError>)
        ensures
            r == Ok::<(), FsError>(()),
    {
        Ok(())
    }
}

} // verus!
