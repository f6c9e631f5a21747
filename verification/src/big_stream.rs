//! A growable byte buffer with a cursor, read and written in big-endian units.

use vstd::prelude::*;
use crate::zpf::{be16, be32};

verus! {

/// Why a buffer access failed.
#[derive(Debug, Clone, Copy, PartialEq, Eq, Structural)]
pub enum StreamError {
    /// Attempted to read past the end of the stream.
    ReadPastEnd,
    /// Attempted to write past the end of the stream.
    WritePastEnd,
    /// The value does not fit into 24 bits.
    ValueTooLarge,
    /// Attempted to read past the end of a buffer view.
    ViewReadPastEnd,
    /// Assigning to a slice with a step other than 1 is not implemented.
    StepNotImplemented,
    /// Attempted to splice a slice whose start lies after its stop.
    NegativeLengthSlice,
    /// Attempted to write past the end of a buffer view.
    ViewWritePastEnd,
}

/// Big-endian bytes of a 24-bit value.
pub open spec fn be24(x: int) -> Seq<u8> {
    seq![((x / 0x1_0000) % 0x100) as u8, ((x / 0x100) % 0x100) as u8, (x % 0x100) as u8]
}

/// The value of big-endian bytes.
pub open spec fn be_value(s: Seq<u8>) -> int
    decreases s.len(),
{
    if s.len() == 0 {
        0
    } else {
        be_value(s.drop_last()) * 0x100 + s.last()
    }
}

/// `buf` with `bytes` written at `addr`.
pub open spec fn write_at(buf: Seq<u8>, addr: int, bytes: Seq<u8>) -> Seq<u8> {
    Seq::new(buf.len(), |i: int| if addr <= i < addr + bytes.len() { bytes[i - addr] } else { buf[i] })
}

/// The `n` bytes of `buf` at `addr`, if they are all there.
pub open spec fn read_at(buf: Seq<u8>, addr: int, n: int) -> Option<Seq<u8>> {
    if 0 <= addr && addr + n <= buf.len() {
        Some(buf.subrange(addr, addr + n))
    } else {
        None
    }
}

/// Every `step`-th byte of `s`, from the first.
pub open spec fn stride(s: Seq<u8>, step: int) -> Seq<u8>
    decreases s.len(),
{
    if s.len() == 0 || step <= 0 {
        Seq::empty()
    } else if step >= s.len() {
        seq![s[0]]
    } else {
        seq![s[0]] + stride(s.skip(step), step)
    }
}

proof fn lemma_be_value_2(s: Seq<u8>)
    requires
        s.len() == 2,
    ensures
        be_value(s) == s[0] * 0x100 + s[1],
{
    assert(s.drop_last().drop_last() =~= Seq::<u8>::empty());
    assert(be_value(s.drop_last().drop_last()) == 0);
    assert(be_value(s.drop_last()) == s[0]);
}

proof fn lemma_be_value_3(s: Seq<u8>)
    requires
        s.len() == 3,
    ensures
        be_value(s) == s[0] * 0x1_0000 + s[1] * 0x100 + s[2],
{
    lemma_be_value_2(s.drop_last());
}

proof fn lemma_be_value_4(s: Seq<u8>)
    requires
        s.len() == 4,
    ensures
        be_value(s) == s[0] * 0x100_0000 + s[1] * 0x1_0000 + s[2] * 0x100 + s[3],
{
    lemma_be_value_3(s.drop_last());
}

/// Reading back big-endian bytes gives the value that was written.
pub proof fn lemma_be_roundtrip(x: u32)
    ensures
        x < 0x1_0000 ==> be_value(be16(x as int)) == x,
        x < 0x100_0000 ==> be_value(be24(x as int)) == x,
        be_value(be32(x as int)) == x,
{
    lemma_be_value_2(be16(x as int));
    lemma_be_value_3(be24(x as int));
    lemma_be_value_4(be32(x as int));
}

/// A byte buffer with a cursor (`last_address`) that reads and writes move past what they touch.
pub struct BigStream {
    last_address: usize,
    buffer: Vec<u8>,
}

impl BigStream {
    /// The bytes of the buffer.
    pub closed spec fn bytes(&self) -> Seq<u8> {
        self.buffer@
    }

    /// The cursor.
    pub closed spec fn cursor(&self) -> usize {
        self.last_address
    }

    /// The address an access starts at: the given one, or the cursor.
    pub open spec fn target(&self, address: Option<usize>) -> int {
        match address {
            Some(a) => a as int,
            None => self.cursor() as int,
        }
    }

    /// The cursor.
    pub fn last_address(&self) -> (r: usize)
        ensures
            r == self.cursor(),
    {
        self.last_address
    }

    /// Moves the cursor to `address`.
    pub fn set_last_address(&mut self, address: usize)
        ensures
            final(self).cursor() == address,
            final(self).bytes() == old(self).bytes(),
    {
        self.last_address = address;
    }

    /// A stream over `buffer`, with the cursor at 0.
    pub fn new(buffer: Vec<u8>) -> (s: Self)
        ensures
            s.bytes() == buffer@,
            s.cursor() == 0,
    {
        BigStream { last_address: 0, buffer }
    }

    /// The buffer.
    pub fn buffer(&self) -> (b: &Vec<u8>)
        ensures
            b@ == self.bytes(),
    {
        &self.buffer
    }

    /// Replaces the buffer.
    pub fn set_buffer(&mut self, buffer: Vec<u8>)
        ensures
            final(self).bytes() == buffer@,
            final(self).cursor() == old(self).cursor(),
    {
        self.buffer = buffer;
    }

    /// Moves the cursor: to `address` if given, then by `delta` if given, wrapping around.
    pub fn seek_address(&mut self, address: Option<usize>, delta: Option<isize>)
        ensures
            final(self).bytes() == old(self).bytes(),
            final(self).cursor() == match delta {
                None => old(self).target(address),
                Some(d) => {
                    let t = old(self).target(address) + d;
                    if t > usize::MAX {
                        t - (usize::MAX + 1)
                    } else if t < 0 {
                        t + (usize::MAX + 1)
                    } else {
                        t
                    }
                },
            },
    {
        if let Some(address) = address {
            self.last_address = address;
        }
        if let Some(delta) = delta {
            self.last_address = self.last_address.wrapping_add_signed(delta);
        }
    }

    /// The cursor is at or past the end of the buffer.
    pub fn eof(&self) -> (r: bool)
        ensures
            r == (self.cursor() >= self.bytes().len()),
    {
        self.last_address >= self.buffer.len()
    }

    /// Reads the byte at `address` (or the cursor); the cursor moves past it whether or not the
    /// read succeeds.
    pub fn read_byte(&mut self, address: Option<usize>) -> (r: Result<u8, StreamError>)
        requires
            old(self).target(address) + 1 <= usize::MAX,
        ensures
            final(self).bytes() == old(self).bytes(),
            final(self).cursor() == old(self).target(address) + 1,
            r == match read_at(old(self).bytes(), old(self).target(address), 1) {
                Some(b) => Ok::<u8, StreamError>(b[0]),
                None => Err(StreamError::ReadPastEnd),
            },
    {
        let address = match address {
            Some(a) => a,
            None => self.last_address,
        };
        self.last_address = address + 1;
        if address < self.buffer.len() {
            Ok(self.buffer[address])
        } else {
            Err(StreamError::ReadPastEnd)
        }
    }

    /// Reads `length` bytes at `address` (or the cursor); the cursor moves past them whether or
    /// not the read succeeds.
    pub fn read_bytes(&mut self, address: Option<usize>, length: usize) -> (r: Result<Vec<u8>, StreamError>)
        requires
            old(self).target(address) + length <= usize::MAX,
        ensures
            final(self).bytes() == old(self).bytes(),
            final(self).cursor() == old(self).target(address) + length,
            match read_at(old(self).bytes(), old(self).target(address), length as int) {
                Some(b) => r matches Ok(v) && v@ == b,
                None => r == Err::<Vec<u8>, StreamError>(StreamError::ReadPastEnd),
            },
    {
        let address = match address {
            Some(a) => a,
            None => self.last_address,
        };
        self.last_address = address + length;
        if address + length <= self.buffer.len() {
            Ok(vstd::slice::slice_to_vec(&self.buffer.as_slice()[address..address + length]))
        } else {
            Err(StreamError::ReadPastEnd)
        }
    }

    /// Reads a big-endian 16-bit value at `address` (or the cursor); the cursor moves past it
    /// whether or not the read succeeds.
    pub fn read_int16(&mut self, address: Option<usize>) -> (r: Result<u16, StreamError>)
        requires
            old(self).target(address) + 2 <= usize::MAX,
        ensures
            final(self).bytes() == old(self).bytes(),
            final(self).cursor() == old(self).target(address) + 2,
            r == match read_at(old(self).bytes(), old(self).target(address), 2) {
                Some(b) => Ok::<u16, StreamError>(be_value(b) as u16),
                None => Err(StreamError::ReadPastEnd),
            },
    {
        let address = match address {
            Some(a) => a,
            None => self.last_address,
        };
        self.last_address = address + 2;
        if self.buffer.len() >= address + 2 {
            let v = (self.buffer[address] as u16) * 0x100 + (self.buffer[address + 1] as u16);
            proof {
                lemma_be_value_2(self.buffer@.subrange(address as int, address + 2));
            }
            Ok(v)
        } else {
            Err(StreamError::ReadPastEnd)
        }
    }

    /// Reads a big-endian 24-bit value at `address` (or the cursor); the cursor moves past it
    /// whether or not the read succeeds.
    pub fn read_int24(&mut self, address: Option<usize>) -> (r: Result<u32, StreamError>)
        requires
            old(self).target(address) + 3 <= usize::MAX,
        ensures
            final(self).bytes() == old(self).bytes(),
            final(self).cursor() == old(self).target(address) + 3,
            r == match read_at(old(self).bytes(), old(self).target(address), 3) {
                Some(b) => Ok::<u32, StreamError>(be_value(b) as u32),
                None => Err(StreamError::ReadPastEnd),
            },
    {
        let address = match address {
            Some(a) => a,
            None => self.last_address,
        };
        self.last_address = address + 3;
        if self.buffer.len() >= address + 3 {
            let v = (self.buffer[address] as u32) * 0x1_0000 + (self.buffer[address + 1] as u32) * 0x100
                + (self.buffer[address + 2] as u32);
            proof {
                lemma_be_value_3(self.buffer@.subrange(address as int, address + 3));
            }
            Ok(v)
        } else {
            Err(StreamError::ReadPastEnd)
        }
    }

    /// Reads a big-endian 32-bit value at `address` (or the cursor); the cursor moves past it
    /// whether or not the read succeeds.
    pub fn read_int32(&mut self, address: Option<usize>) -> (r: Result<u32, StreamError>)
        requires
            old(self).target(address) + 4 <= usize::MAX,
        ensures
            final(self).bytes() == old(self).bytes(),
            final(self).cursor() == old(self).target(address) + 4,
            r == match read_at(old(self).bytes(), old(self).target(address), 4) {
                Some(b) => Ok::<u32, StreamError>(be_value(b) as u32),
                None => Err(StreamError::ReadPastEnd),
            },
    {
        let address = match address {
            Some(a) => a,
            None => self.last_address,
        };
        self.last_address = address + 4;
        if self.buffer.len() >= address + 4 {
            let v = (self.buffer[address] as u32) * 0x100_0000 + (self.buffer[address + 1] as u32)
                * 0x1_0000 + (self.buffer[address + 2] as u32) * 0x100 + (self.buffer[address + 3] as u32);
            proof {
                lemma_be_value_4(self.buffer@.subrange(address as int, address + 4));
            }
            Ok(v)
        } else {
            Err(StreamError::ReadPastEnd)
        }
    }
}

/// Big-endian bytes of a run of 16-bit values.
pub open spec fn be16s(values: Seq<u16>) -> Seq<u8>
    decreases values.len(),
{
    if values.len() == 0 {
        Seq::empty()
    } else {
        be16s(values.drop_last()) + be16(values.last() as int)
    }
}

/// Big-endian bytes of a run of 32-bit values.
pub open spec fn be32s(values: Seq<u32>) -> Seq<u8>
    decreases values.len(),
{
    if values.len() == 0 {
        Seq::empty()
    } else {
        be32s(values.drop_last()) + be32(values.last() as int)
    }
}

proof fn lemma_be16s_len(values: Seq<u16>)
    ensures
        be16s(values).len() == 2 * values.len(),
    decreases values.len(),
{
    if values.len() > 0 {
        lemma_be16s_len(values.drop_last());
    }
}

proof fn lemma_be32s_len(values: Seq<u32>)
    ensures
        be32s(values).len() == 4 * values.len(),
    decreases values.len(),
{
    if values.len() > 0 {
        lemma_be32s_len(values.drop_last());
    }
}

/// Writes `bytes` into `buf` at `addr`.
fn write_slice_at(buf: &mut Vec<u8>, addr: usize, bytes: &[u8])
    requires
        addr + bytes@.len() <= old(buf)@.len(),
    ensures
        final(buf)@ == write_at(old(buf)@, addr as int, bytes@),
{
    let n = bytes.len();
    let blen = buf.len();
    let mut i: usize = 0;
    while i < n
        invariant
            n == bytes@.len(),
            blen == buf@.len(),
            addr + n <= blen,
            0 <= i <= n,
            buf@ == write_at(old(buf)@, addr as int, bytes@.subrange(0, i as int)),
        decreases n - i,
    {
        buf.set(addr + i, bytes[i]);
        proof {
            assert(buf@ =~= write_at(old(buf)@, addr as int, bytes@.subrange(0, i + 1)));
        }
        i = i + 1;
    }
    proof {
        assert(bytes@.subrange(0, n as int) =~= bytes@);
    }
}

fn be16_bytes(x: u16) -> (r: Vec<u8>)
    ensures
        r@ == be16(x as int),
{
    let mut v: Vec<u8> = Vec::new();
    v.push((x / 0x100) as u8);
    v.push((x % 0x100) as u8);
    proof {
        assert(v@ =~= be16(x as int));
    }
    v
}

fn be24_bytes(x: u32) -> (r: Vec<u8>)
    requires
        x < 0x100_0000,
    ensures
        r@ == be24(x as int),
{
    let mut v: Vec<u8> = Vec::new();
    v.push((x / 0x1_0000) as u8);
    v.push(((x / 0x100) % 0x100) as u8);
    v.push((x % 0x100) as u8);
    proof {
        assert(v@ =~= be24(x as int));
    }
    v
}

fn be32_bytes(x: u32) -> (r: Vec<u8>)
    ensures
        r@ == be32(x as int),
{
    let mut v: Vec<u8> = Vec::new();
    v.push((x / 0x100_0000) as u8);
    v.push(((x / 0x1_0000) % 0x100) as u8);
    v.push(((x / 0x100) % 0x100) as u8);
    v.push((x % 0x100) as u8);
    proof {
        assert(v@ =~= be32(x as int));
    }
    v
}

fn be16s_bytes(values: &[u16]) -> (r: Vec<u8>)
    ensures
        r@ == be16s(values@),
{
    let mut v: Vec<u8> = Vec::new();
    let mut i: usize = 0;
    while i < values.len()
        invariant
            0 <= i <= values@.len(),
            v@ == be16s(values@.subrange(0, i as int)),
        decreases values@.len() - i,
    {
        let b = be16_bytes(values[i]);
        v.extend_from_slice(b.as_slice());
        proof {
            assert(values@.subrange(0, i + 1).drop_last() =~= values@.subrange(0, i as int));
            assert(v@ =~= be16s(values@.subrange(0, i + 1)));
        }
        i = i + 1;
    }
    proof {
        assert(values@.subrange(0, values@.len() as int) =~= values@);
    }
    v
}

fn be32s_bytes(values: &[u32]) -> (r: Vec<u8>)
    ensures
        r@ == be32s(values@),
{
    let mut v: Vec<u8> = Vec::new();
    let mut i: usize = 0;
    while i < values.len()
        invariant
            0 <= i <= values@.len(),
            v@ == be32s(values@.subrange(0, i as int)),
        decreases values@.len() - i,
    {
        let b = be32_bytes(values[i]);
        v.extend_from_slice(b.as_slice());
        proof {
            assert(values@.subrange(0, i + 1).drop_last() =~= values@.subrange(0, i as int));
            assert(v@ =~= be32s(values@.subrange(0, i + 1)));
        }
        i = i + 1;
    }
    proof {
        assert(values@.subrange(0, values@.len() as int) =~= values@);
    }
    v
}

impl BigStream {
    /// Writes `value` at `address` (or the cursor) and moves the cursor past it; fails, changing
    /// nothing, past the end of the buffer.
    pub fn write_byte(&mut self, address: Option<usize>, value: u8) -> (r: Result<(), StreamError>)
        ensures
            old(self).target(address) < old(self).bytes().len() ==> {
                &&& r is Ok
                &&& final(self).bytes() == write_at(old(self).bytes(), old(self).target(address), seq![value])
                &&& final(self).cursor() == old(self).target(address) + 1
            },
            old(self).target(address) >= old(self).bytes().len() ==> {
                &&& r == Err::<(), StreamError>(StreamError::WritePastEnd)
                &&& final(self).bytes() == old(self).bytes()
                &&& final(self).cursor() == old(self).cursor()
            },
    {
        let address = match address {
            Some(a) => a,
            None => self.last_address,
        };
        if address < self.buffer.len() {
            self.buffer.set(address, value);
            proof {
                assert(self.buffer@ =~= write_at(old(self).bytes(), address as int, seq![value]));
            }
            self.last_address = address + 1;
            Ok(())
        } else {
            Err(StreamError::WritePastEnd)
        }
    }

    /// Writes the two's complement byte of `value` at `address` (or the cursor), as `write_byte`.
    pub fn write_sbyte(&mut self, address: Option<usize>, value: i8) -> (r: Result<(), StreamError>)
        ensures
            old(self).target(address) < old(self).bytes().len() ==> {
                &&& r is Ok
                &&& final(self).bytes() == write_at(old(self).bytes(), old(self).target(address), seq![value as u8])
                &&& final(self).cursor() == old(self).target(address) + 1
            },
            old(self).target(address) >= old(self).bytes().len() ==> {
                &&& r == Err::<(), StreamError>(StreamError::WritePastEnd)
                &&& final(self).bytes() == old(self).bytes()
                &&& final(self).cursor() == old(self).cursor()
            },
    {
        self.write_byte(address, value as u8)
    }

    /// Writes `bytes` at `addr` if they fit, then moves the cursor past them.
    fn write_fitting(&mut self, addr: usize, bytes: &[u8]) -> (r: Result<(), StreamError>)
        requires
            addr + bytes@.len() <= usize::MAX,
        ensures
            addr + bytes@.len() <= old(self).bytes().len() ==> {
                &&& r is Ok
                &&& final(self).bytes() == write_at(old(self).bytes(), addr as int, bytes@)
                &&& final(self).cursor() == addr + bytes@.len()
            },
            addr + bytes@.len() > old(self).bytes().len() ==> {
                &&& r == Err::<(), StreamError>(StreamError::WritePastEnd)
                &&& *final(self) == *old(self)
            },
    {
        if self.buffer.len() >= addr + bytes.len() {
            write_slice_at(&mut self.buffer, addr, bytes);
            self.last_address = addr + bytes.len();
            Ok(())
        } else {
            Err(StreamError::WritePastEnd)
        }
    }

    /// Writes `value` big-endian at `address` (or the cursor) and moves the cursor past it;
    /// fails, changing nothing, past the end of the buffer.
    pub fn write_int16(&mut self, address: Option<usize>, value: u16) -> (r: Result<(), StreamError>)
        requires
            old(self).target(address) + 2 <= usize::MAX,
        ensures
            old(self).target(address) + 2 <= old(self).bytes().len() ==> {
                &&& r is Ok
                &&& final(self).bytes() == write_at(old(self).bytes(), old(self).target(address), be16(value as int))
                &&& final(self).cursor() == old(self).target(address) + 2
            },
            old(self).target(address) + 2 > old(self).bytes().len() ==> {
                &&& r == Err::<(), StreamError>(StreamError::WritePastEnd)
                &&& *final(self) == *old(self)
            },
    {
        let address = match address {
            Some(a) => a,
            None => self.last_address,
        };
        let b = be16_bytes(value);
        self.write_fitting(address, b.as_slice())
    }

    /// Writes the low 24 bits of `value` big-endian at `address` (or the cursor) and moves the
    /// cursor past them; fails, changing nothing, past the end of the buffer, or else when
    /// `value` does not fit into 24 bits.
    pub fn write_int24(&mut self, address: Option<usize>, value: u32) -> (r: Result<(), StreamError>)
        requires
            old(self).target(address) + 3 <= usize::MAX,
        ensures
            old(self).target(address) + 3 <= old(self).bytes().len() && value < 0x100_0000 ==> {
                &&& r is Ok
                &&& final(self).bytes() == write_at(old(self).bytes(), old(self).target(address), be24(value as int))
                &&& final(self).cursor() == old(self).target(address) + 3
            },
            old(self).target(address) + 3 <= old(self).bytes().len() && value >= 0x100_0000 ==> {
                &&& r == Err::<(), StreamError>(StreamError::ValueTooLarge)
                &&& *final(self) == *old(self)
            },
            old(self).target(address) + 3 > old(self).bytes().len() ==> {
                &&& r == Err::<(), StreamError>(StreamError::WritePastEnd)
                &&& *final(self) == *old(self)
            },
    {
        let address = match address {
            Some(a) => a,
            None => self.last_address,
        };
        if self.buffer.len() >= address + 3 {
            if value >= 0x100_0000 {
                return Err(StreamError::ValueTooLarge);
            }
            let b = be24_bytes(value);
            self.write_fitting(address, b.as_slice())
        } else {
            Err(StreamError::WritePastEnd)
        }
    }

    /// Writes `value` big-endian at `address` (or the cursor) and moves the cursor past it;
    /// fails, changing nothing, past the end of the buffer.
    pub fn write_int32(&mut self, address: Option<usize>, value: u32) -> (r: Result<(), StreamError>)
        requires
            old(self).target(address) + 4 <= usize::MAX,
        ensures
            old(self).target(address) + 4 <= old(self).bytes().len() ==> {
                &&& r is Ok
                &&& final(self).bytes() == write_at(old(self).bytes(), old(self).target(address), be32(value as int))
                &&& final(self).cursor() == old(self).target(address) + 4
            },
            old(self).target(address) + 4 > old(self).bytes().len() ==> {
                &&& r == Err::<(), StreamError>(StreamError::WritePastEnd)
                &&& *final(self) == *old(self)
            },
    {
        let address = match address {
            Some(a) => a,
            None => self.last_address,
        };
        let b = be32_bytes(value);
        self.write_fitting(address, b.as_slice())
    }

    /// Writes `values` at `address` (or the cursor). The cursor moves past them whether or not
    /// they fit; if they do not, the buffer is unchanged.
    pub fn write_bytes(&mut self, address: Option<usize>, values: &[u8]) -> (r: Result<(), StreamError>)
        requires
            old(self).target(address) + values@.len() <= usize::MAX,
        ensures
            final(self).cursor() == old(self).target(address) + values@.len(),
            old(self).target(address) + values@.len() <= old(self).bytes().len() ==> {
                &&& r is Ok
                &&& final(self).bytes() == write_at(old(self).bytes(), old(self).target(address), values@)
            },
            old(self).target(address) + values@.len() > old(self).bytes().len() ==> {
                &&& r == Err::<(), StreamError>(StreamError::WritePastEnd)
                &&& final(self).bytes() == old(self).bytes()
            },
    {
        let address = match address {
            Some(a) => a,
            None => self.last_address,
        };
        self.last_address = address + values.len();
        if address + values.len() <= self.buffer.len() {
            write_slice_at(&mut self.buffer, address, values);
            Ok(())
        } else {
            Err(StreamError::WritePastEnd)
        }
    }

    /// Writes `values` big-endian at `address` (or the cursor) and moves the cursor past them;
    /// fails, changing nothing, past the end of the buffer.
    pub fn write_int16s(&mut self, address: Option<usize>, values: &[u16]) -> (r: Result<(), StreamError>)
        requires
            old(self).target(address) + 2 * values@.len() <= usize::MAX,
        ensures
            old(self).target(address) + 2 * values@.len() <= old(self).bytes().len() ==> {
                &&& r is Ok
                &&& final(self).bytes() == write_at(old(self).bytes(), old(self).target(address), be16s(values@))
                &&& final(self).cursor() == old(self).target(address) + 2 * values@.len()
            },
            old(self).target(address) + 2 * values@.len() > old(self).bytes().len() ==> {
                &&& r == Err::<(), StreamError>(StreamError::WritePastEnd)
                &&& *final(self) == *old(self)
            },
    {
        let address = match address {
            Some(a) => a,
            None => self.last_address,
        };
        let b = be16s_bytes(values);
        proof {
            lemma_be16s_len(values@);
        }
        self.write_fitting(address, b.as_slice())
    }

    /// Writes `values` big-endian at `address` (or the cursor) and moves the cursor past them;
    /// fails, changing nothing, past the end of the buffer.
    pub fn write_int32s(&mut self, address: Option<usize>, values: &[u32]) -> (r: Result<(), StreamError>)
        requires
            old(self).target(address) + 4 * values@.len() <= usize::MAX,
        ensures
            old(self).target(address) + 4 * values@.len() <= old(self).bytes().len() ==> {
                &&& r is Ok
                &&& final(self).bytes() == write_at(old(self).bytes(), old(self).target(address), be32s(values@))
                &&& final(self).cursor() == old(self).target(address) + 4 * values@.len()
            },
            old(self).target(address) + 4 * values@.len() > old(self).bytes().len() ==> {
                &&& r == Err::<(), StreamError>(StreamError::WritePastEnd)
                &&& *final(self) == *old(self)
            },
    {
        let address = match address {
            Some(a) => a,
            None => self.last_address,
        };
        let b = be32s_bytes(values);
        proof {
            lemma_be32s_len(values@);
        }
        self.write_fitting(address, b.as_slice())
    }

    /// Appends `value` to the buffer.
    pub fn append_byte(&mut self, value: u8)
        ensures
            final(self).bytes() == old(self).bytes().push(value),
            final(self).cursor() == old(self).cursor(),
    {
        self.buffer.push(value);
    }

    /// Appends `value` big-endian to the buffer.
    pub fn append_int16(&mut self, value: u16)
        ensures
            final(self).bytes() == old(self).bytes() + be16(value as int),
            final(self).cursor() == old(self).cursor(),
    {
        let b = be16_bytes(value);
        self.buffer.extend_from_slice(b.as_slice());
        proof {
            assert(self.buffer@ =~= old(self).bytes() + be16(value as int));
        }
    }

    /// Appends the low 24 bits of `value` big-endian to the buffer; fails, changing nothing, when
    /// `value` does not fit into 24 bits.
    pub fn append_int24(&mut self, value: u32) -> (r: Result<(), StreamError>)
        ensures
            value < 0x100_0000 ==> r is Ok && final(self).bytes() == old(self).bytes() + be24(value as int),
            value >= 0x100_0000 ==> r == Err::<(), StreamError>(StreamError::ValueTooLarge) && final(self).bytes()
                == old(self).bytes(),
            final(self).cursor() == old(self).cursor(),
    {
        if value >= 0x100_0000 {
            return Err(StreamError::ValueTooLarge);
        }
        let b = be24_bytes(value);
        self.buffer.extend_from_slice(b.as_slice());
        proof {
            assert(self.buffer@ =~= old(self).bytes() + be24(value as int));
        }
        Ok(())
    }

    /// Appends `value` big-endian to the buffer.
    pub fn append_int32(&mut self, value: u32)
        ensures
            final(self).bytes() == old(self).bytes() + be32(value as int),
            final(self).cursor() == old(self).cursor(),
    {
        let b = be32_bytes(value);
        self.buffer.extend_from_slice(b.as_slice());
        proof {
            assert(self.buffer@ =~= old(self).bytes() + be32(value as int));
        }
    }

    /// Appends `values` to the buffer.
    pub fn append_bytes(&mut self, values: &[u8])
        ensures
            final(self).bytes() == old(self).bytes() + values@,
            final(self).cursor() == old(self).cursor(),
    {
        self.buffer.extend_from_slice(values);
        proof {
            assert(self.buffer@ =~= old(self).bytes() + values@);
        }
    }
}

/// Reading a slice `start .. stop` (bounds cast to `usize`) with `step` from a buffer view:
/// every `step`-th byte, backwards from the last one for a negative step.
pub open spec fn view_slice(buf: Seq<u8>, start: isize, stop: isize, step: isize) -> Result<Seq<u8>, StreamError> {
    let s = start as usize as int;
    let e = stop as usize as int;
    if !(s <= e && e <= buf.len()) {
        Err(StreamError::ViewReadPastEnd)
    } else {
        let base = buf.subrange(s, e);
        if step == 1 {
            Ok(base)
        } else if step <= 0 {
            Ok(stride(base.reverse(), -step))
        } else {
            Ok(stride(base, step as int))
        }
    }
}

/// Every `step`-th byte of `s`, from the first.
fn stride_exec(s: &[u8], step: usize) -> (r: Vec<u8>)
    requires
        step > 0,
    ensures
        r@ == stride(s@, step as int),
{
    let n = s.len();
    let mut v: Vec<u8> = Vec::new();
    let mut j: usize = 0;
    let mut done = n == 0;
    proof {
        assert(s@.skip(0) =~= s@);
        assert(v@ + stride(s@.skip(0), step as int) =~= stride(s@, step as int));
    }
    while !done
        invariant
            n == s@.len(),
            step > 0,
            j <= n,
            !done ==> j < n,
            done ==> v@ == stride(s@, step as int),
            !done ==> v@ + stride(s@.skip(j as int), step as int) == stride(s@, step as int),
        decreases n - j, (if done { 0int } else { 1int }),
    {
        proof {
            let t = s@.skip(j as int);
            if step < t.len() {
                assert(t.skip(step as int) =~= s@.skip(j + step));
            }
        }
        v.push(s[j]);
        if n - j <= step {
            proof {
                assert(v@ =~= stride(s@, step as int));
            }
            done = true;
        } else {
            proof {
                assert(v@ + stride(s@.skip(j + step), step as int) =~= stride(s@, step as int));
            }
            j = j + step;
        }
    }
    proof {
        if n == 0 {
            assert(v@ =~= stride(s@, step as int));
        }
    }
    v
}

/// Reads a slice `start .. stop` with `step` from a buffer view.
pub fn view_get_slice(buffer: &Vec<u8>, start: isize, stop: isize, step: isize) -> (r: Result<Vec<u8>, StreamError>)
    requires
        step != 0,
        step != isize::MIN,
    ensures
        match view_slice(buffer@, start, stop, step) {
            Ok(b) => r matches Ok(v) && v@ == b,
            Err(e) => r == Err::<Vec<u8>, StreamError>(e),
        },
{
    let s = start as usize;
    let e = stop as usize;
    if !(s <= e && e <= buffer.len()) {
        return Err(StreamError::ViewReadPastEnd);
    }
    let base = &buffer.as_slice()[s..e];
    if step == 1 {
        Ok(vstd::slice::slice_to_vec(base))
    } else if step < 0 {
        let mut rev: Vec<u8> = Vec::new();
        let mut k: usize = base.len();
        while k > 0
            invariant
                k <= base@.len(),
                rev@ == base@.reverse().subrange(0, base@.len() - k),
            decreases k,
        {
            rev.push(base[k - 1]);
            k = k - 1;
            proof {
                assert(rev@ =~= base@.reverse().subrange(0, base@.len() - k));
            }
        }
        proof {
            assert(rev@ =~= base@.reverse());
        }
        Ok(stride_exec(rev.as_slice(), (-step) as usize))
    } else {
        Ok(stride_exec(base, step as usize))
    }
}

/// Reads the byte at `idx` of a buffer view.
pub fn view_get_index(buffer: &Vec<u8>, idx: usize) -> (r: Result<u8, StreamError>)
    ensures
        idx < buffer@.len() ==> r == Ok::<u8, StreamError>(buffer@[idx as int]),
        idx >= buffer@.len() ==> r == Err::<u8, StreamError>(StreamError::ViewReadPastEnd),
{
    if idx < buffer.len() {
        Ok(buffer[idx])
    } else {
        Err(StreamError::ViewReadPastEnd)
    }
}

/// Assigning `value` to the slice `start .. stop` (bounds cast to `usize`) with `step` of a buffer
/// view: the slice is replaced by `value`, which may have another length.
pub open spec fn view_assign(buf: Seq<u8>, start: isize, stop: isize, step: isize, value: Seq<u8>) -> Result<Seq<u8>, StreamError> {
    let s = start as usize as int;
    let e = stop as usize as int;
    if step != 1 {
        Err(StreamError::StepNotImplemented)
    } else if start > stop {
        Err(StreamError::NegativeLengthSlice)
    } else if e > buf.len() {
        Err(StreamError::ViewWritePastEnd)
    } else {
        Ok(buf.subrange(0, s) + value + buf.subrange(e, buf.len() as int))
    }
}

/// Assigns `value` to the slice `start .. stop` with `step` of a buffer view; the buffer is
/// unchanged when this fails.
pub fn view_set_slice(buffer: &mut Vec<u8>, start: isize, stop: isize, step: isize, value: &[u8]) -> (r: Result<(), StreamError>)
    requires
        step == 1 && start <= stop && stop as usize <= old(buffer)@.len() ==> start as usize <= stop as usize,
    ensures
        match view_assign(old(buffer)@, start, stop, step, value@) {
            Ok(b) => r is Ok && final(buffer)@ == b,
            Err(e) => r == Err::<(), StreamError>(e) && final(buffer)@ == old(buffer)@,
        },
{
    if step != 1 {
        return Err(StreamError::StepNotImplemented);
    }
    if start > stop {
        return Err(StreamError::NegativeLengthSlice);
    }
    let s = start as usize;
    let e = stop as usize;
    if e > buffer.len() {
        return Err(StreamError::ViewWritePastEnd);
    }
    if value.len() == e - s {
        write_slice_at(buffer, s, value);
        proof {
            assert(buffer@ =~= old(buffer)@.subrange(0, s as int) + value@ + old(buffer)@.subrange(
                e as int,
                old(buffer)@.len() as int,
            ));
        }
    } else {
        let len = buffer.len();
        let mut out: Vec<u8> = vstd::slice::slice_to_vec(&buffer.as_slice()[0..s]);
        out.extend_from_slice(value);
        out.extend_from_slice(&buffer.as_slice()[e..len]);
        proof {
            assert(out@ =~= old(buffer)@.subrange(0, s as int) + value@ + old(buffer)@.subrange(
                e as int,
                old(buffer)@.len() as int,
            ));
        }
        *buffer = out;
    }
    Ok(())
}

/// The bytes of a buffer view followed by `other`.
pub fn view_concat(buffer: &Vec<u8>, other: &[u8]) -> (r: Vec<u8>)
    ensures
        r@ == buffer@ + other@,
{
    let mut v = buffer.clone();
    v.extend_from_slice(other);
    proof {
        assert(v@ =~= buffer@ + other@);
    }
    v
}

/// Reading back the bytes a write put at an address gives those bytes, and the buffer keeps
/// its length.
pub proof fn law_read_after_write(buf: Seq<u8>, addr: int, bytes: Seq<u8>)
    requires
        0 <= addr,
        addr + bytes.len() <= buf.len(),
    ensures
        write_at(buf, addr, bytes).len() == buf.len(),
        read_at(write_at(buf, addr, bytes), addr, bytes.len() as int) == Some(bytes),
{
    assert(write_at(buf, addr, bytes).subrange(addr, addr + bytes.len()) =~= bytes);
}

/// A write leaves every byte outside the range it writes unchanged.
pub proof fn law_write_elsewhere(buf: Seq<u8>, addr: int, bytes: Seq<u8>, addr2: int, n2: int)
    requires
        0 <= addr,
        addr + bytes.len() <= buf.len(),
        0 <= n2,
        addr2 + n2 <= addr || addr + bytes.len() <= addr2,
    ensures
        read_at(write_at(buf, addr, bytes), addr2, n2) == read_at(buf, addr2, n2),
{
    if 0 <= addr2 && addr2 + n2 <= buf.len() {
        assert(write_at(buf, addr, bytes).subrange(addr2, addr2 + n2) =~= buf.subrange(addr2, addr2 + n2));
    }
}

/// Reading at the old end of a buffer after appending gives the appended bytes.
pub proof fn law_read_after_append(buf: Seq<u8>, bytes: Seq<u8>)
    ensures
        read_at(buf + bytes, buf.len() as int, bytes.len() as int) == Some(bytes),
{
    assert((buf + bytes).subrange(buf.len() as int, (buf.len() + bytes.len()) as int) =~= bytes);
}

/// A 16-bit value written at an address in the buffer reads back unchanged.
pub proof fn law_int16_roundtrip(buf: Seq<u8>, addr: int, value: u16)
    requires
        0 <= addr,
        addr + 2 <= buf.len(),
    ensures
        read_at(write_at(buf, addr, be16(value as int)), addr, 2) matches Some(b) && be_value(b) == value,
{
    law_read_after_write(buf, addr, be16(value as int));
    lemma_be_roundtrip(value as u32);
}

/// A 24-bit value written at an address in the buffer reads back unchanged.
pub proof fn law_int24_roundtrip(buf: Seq<u8>, addr: int, value: u32)
    requires
        0 <= addr,
        addr + 3 <= buf.len(),
        value < 0x100_0000,
    ensures
        read_at(write_at(buf, addr, be24(value as int)), addr, 3) matches Some(b) && be_value(b) == value,
{
    law_read_after_write(buf, addr, be24(value as int));
    lemma_be_roundtrip(value);
}

/// A 32-bit value written at an address in the buffer reads back unchanged.
pub proof fn law_int32_roundtrip(buf: Seq<u8>, addr: int, value: u32)
    requires
        0 <= addr,
        addr + 4 <= buf.len(),
    ensures
        read_at(write_at(buf, addr, be32(value as int)), addr, 4) matches Some(b) && be_value(b) == value,
{
    law_read_after_write(buf, addr, be32(value as int));
    lemma_be_roundtrip(value);
}

/// Assigning a value of the slice's own length to a slice of a buffer view and reading the slice
/// back gives the value.
pub proof fn law_view_assign_then_read(buf: Seq<u8>, start: isize, stop: isize, value: Seq<u8>)
    requires
        0 <= start <= stop,
        stop <= buf.len(),
        value.len() == stop - start,
    ensures
        view_assign(buf, start, stop, 1, value) matches Ok(b) && view_slice(b, start, stop, 1) == Ok::<
            Seq<u8>,
            StreamError,
        >(value),
{
    let b = buf.subrange(0, start as int) + value + buf.subrange(stop as int, buf.len() as int);
    assert(b.subrange(start as int, stop as int) =~= value);
}

} // verus!
