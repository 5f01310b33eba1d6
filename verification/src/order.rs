//! The byte order in which the kernel lays out the integers of its records.

use vstd::prelude::*;

use crate::bytes;

verus! {

/// The order of the bytes of an integer in memory.
#[derive(Clone, Copy, Debug, PartialEq, Eq, Structural)]
pub enum ByteOrder {
    /// Least significant byte first.
    Little,
    /// Most significant byte first.
    Big,
}

/// The byte order of the executing hardware, whichever that is.
pub open spec fn native_order() -> ByteOrder {
    match vstd::endian::endianness() {
        vstd::endian::Endian::Little => ByteOrder::Little,
        vstd::endian::Endian::Big => ByteOrder::Big,
    }
}

/// `u16::from_ne_bytes`: the two bytes as an integer in the byte order of
/// the executing hardware.  Which of the two orders that is depends on the
/// target and is left open.
#[verifier::external_body]
fn native_u16(b: [u8; 2]) -> (v: u16)
    ensures
        v == match native_order() {
            ByteOrder::Little => b[0] + 256 * b[1],
            ByteOrder::Big => b[1] + 256 * b[0],
        },
{
    u16::from_ne_bytes(b)
}

impl ByteOrder {
    /// The integer at `off` of `s`; bytes outside `s` count as 0.
    pub open spec fn u16_at(self, s: Seq<u8>, off: int) -> u16 {
        match self {
            ByteOrder::Little => (bytes::at(s, off) + 0x100 * bytes::at(s, off + 1)) as u16,
            ByteOrder::Big => (bytes::at(s, off + 1) + 0x100 * bytes::at(s, off)) as u16,
        }
    }

    pub open spec fn u32_at(self, s: Seq<u8>, off: int) -> u32 {
        match self {
            ByteOrder::Little => (bytes::at(s, off) + 0x100 * bytes::at(s, off + 1) + 0x1_0000 * bytes::at(s, off + 2)
                + 0x100_0000 * bytes::at(s, off + 3)) as u32,
            ByteOrder::Big => (bytes::at(s, off + 3) + 0x100 * bytes::at(s, off + 2) + 0x1_0000 * bytes::at(s, off + 1)
                + 0x100_0000 * bytes::at(s, off)) as u32,
        }
    }

    /// The low half of the 64-bit integer at `off`.
    pub open spec fn low_u32_at(self, s: Seq<u8>, off: int) -> u32 {
        match self {
            ByteOrder::Little => self.u32_at(s, off),
            ByteOrder::Big => self.u32_at(s, off + 4),
        }
    }

    pub open spec fn u16_bytes(self, v: u16) -> Seq<u8> {
        match self {
            ByteOrder::Little => seq![(v % 0x100) as u8, (v / 0x100) as u8],
            ByteOrder::Big => seq![(v / 0x100) as u8, (v % 0x100) as u8],
        }
    }

    pub open spec fn u32_bytes(self, v: u32) -> Seq<u8> {
        let b0 = (v % 0x100) as u8;
        let b1 = (v / 0x100 % 0x100) as u8;
        let b2 = (v / 0x1_0000 % 0x100) as u8;
        let b3 = (v / 0x100_0000) as u8;
        match self {
            ByteOrder::Little => seq![b0, b1, b2, b3],
            ByteOrder::Big => seq![b3, b2, b1, b0],
        }
    }

    /// The byte order in which the bytes 1, 0 make up `reading`.
    pub fn from_reading(reading: u16) -> (order: Option<ByteOrder>)
        ensures
            order == if reading == 1 {
                Some(ByteOrder::Little)
            } else if reading == 256 {
                Some(ByteOrder::Big)
            } else {
                None
            },
    {
        if reading == 1 {
            Some(ByteOrder::Little)
        } else if reading == 256 {
            Some(ByteOrder::Big)
        } else {
            None
        }
    }

    /// The byte order of this machine: what [`ByteOrder::from_reading`] makes
    /// of the bytes 1, 0.  Which one it is depends on the target.
    pub fn native() -> (order: ByteOrder)
        ensures
            order == native_order(),
    {
        let reading = native_u16([1, 0]);
        match ByteOrder::from_reading(reading) {
            Some(order) => order,
            None => vstd::pervasive::unreached(),
        }
    }

    pub fn read_u16(self, s: &[u8], off: usize) -> (v: u16)
        requires
            off < usize::MAX,
        ensures
            v == self.u16_at(s@, off as int),
    {
        let b0: u16 = bytes::get(s, off) as u16;
        let b1: u16 = bytes::get(s, off + 1) as u16;
        match self {
            ByteOrder::Little => b0 + 0x100 * b1,
            ByteOrder::Big => b1 + 0x100 * b0,
        }
    }

    pub fn read_u32(self, s: &[u8], off: usize) -> (v: u32)
        requires
            off + 3 <= usize::MAX,
        ensures
            v == self.u32_at(s@, off as int),
    {
        let b0: u32 = bytes::get(s, off) as u32;
        let b1: u32 = bytes::get(s, off + 1) as u32;
        let b2: u32 = bytes::get(s, off + 2) as u32;
        let b3: u32 = bytes::get(s, off + 3) as u32;
        match self {
            ByteOrder::Little => b0 + 0x100 * b1 + 0x1_0000 * b2 + 0x100_0000 * b3,
            ByteOrder::Big => b3 + 0x100 * b2 + 0x1_0000 * b1 + 0x100_0000 * b0,
        }
    }

    /// The low half of the 64-bit integer at `off`.
    pub fn read_low_u32(self, s: &[u8], off: usize) -> (v: u32)
        requires
            off + 7 <= usize::MAX,
        ensures
            v == self.low_u32_at(s@, off as int),
    {
        match self {
            ByteOrder::Little => self.read_u32(s, off),
            ByteOrder::Big => self.read_u32(s, off + 4),
        }
    }

    pub fn write_u16(self, s: &mut [u8], off: usize, v: u16)
        requires
            off + 2 <= old(s)@.len(),
        ensures
            final(s)@ == overwrite(old(s)@, off as int, self.u16_bytes(v)),
    {
        let low: u8 = (v % 0x100) as u8;
        let high: u8 = (v / 0x100) as u8;
        match self {
            ByteOrder::Little => {
                s[off] = low;
                s[off + 1] = high;
            },
            ByteOrder::Big => {
                s[off] = high;
                s[off + 1] = low;
            },
        }
        assert(s@ =~= overwrite(old(s)@, off as int, self.u16_bytes(v)));
    }

    pub fn write_u32(self, s: &mut [u8], off: usize, v: u32)
        requires
            off + 4 <= old(s)@.len(),
        ensures
            final(s)@ == overwrite(old(s)@, off as int, self.u32_bytes(v)),
    {
        let b0: u8 = (v % 0x100) as u8;
        let b1: u8 = (v / 0x100 % 0x100) as u8;
        let b2: u8 = (v / 0x1_0000 % 0x100) as u8;
        let b3: u8 = (v / 0x100_0000) as u8;
        match self {
            ByteOrder::Little => {
                s[off] = b0;
                s[off + 1] = b1;
                s[off + 2] = b2;
                s[off + 3] = b3;
            },
            ByteOrder::Big => {
                s[off] = b3;
                s[off + 1] = b2;
                s[off + 2] = b1;
                s[off + 3] = b0;
            },
        }
        assert(s@ =~= overwrite(old(s)@, off as int, self.u32_bytes(v)));
    }
}

/// `s` with `patch` written over it from `off` on.
pub open spec fn overwrite(s: Seq<u8>, off: int, patch: Seq<u8>) -> Seq<u8> {
    Seq::new(
        s.len(),
        |i: int|
            if off <= i < off + patch.len() {
                patch[i - off]
            } else {
                s[i]
            },
    )
}

/// Reading what was written gives it back.
pub proof fn law_u16_is_read_back(order: ByteOrder, s: Seq<u8>, off: int, v: u16)
    requires
        0 <= off <= s.len() - 2,
    ensures
        order.u16_at(overwrite(s, off, order.u16_bytes(v)), off) == v,
{
}

/// Reading what was written gives it back.
pub proof fn law_u32_is_read_back(order: ByteOrder, s: Seq<u8>, off: int, v: u32)
    requires
        0 <= off <= s.len() - 4,
    ensures
        order.u32_at(overwrite(s, off, order.u32_bytes(v)), off) == v,
{
}

/// The bytes of a number are read as that number.
pub proof fn lemma_u32_read(order: ByteOrder, s: Seq<u8>, off: int, v: u32)
    requires
        0 <= off <= s.len() - 4,
        s.subrange(off, off + 4) == order.u32_bytes(v),
    ensures
        order.u32_at(s, off) == v,
{
    let b = s.subrange(off, off + 4);
    assert(b[0] == s[off] && b[1] == s[off + 1] && b[2] == s[off + 2] && b[3] == s[off + 3]);
}

/// A number and what comes before and after it, inside a longer text.
pub proof fn lemma_u32_in(order: ByteOrder, buf: Seq<u8>, off: int, a: Seq<u8>, v: u32, b: Seq<u8>)
    requires
        0 <= off,
        off + a.len() + 4 + b.len() <= buf.len(),
        buf.subrange(off, off + a.len() + 4 + b.len()) == a + order.u32_bytes(v) + b,
    ensures
        order.u32_at(buf, off + a.len()) == v,
{
    let all = a + order.u32_bytes(v) + b;
    let at = off + a.len();
    assert(buf.subrange(at, at + 4) =~= order.u32_bytes(v)) by {
        assert forall|i: int| 0 <= i < 4 implies buf.subrange(at, at + 4)[i] == order.u32_bytes(
            v,
        )[i] by {
            assert(buf.subrange(off, off + a.len() + 4 + b.len())[a.len() + i] == all[a.len() + i]);
        }
    }
    lemma_u32_read(order, buf, at, v);
}

/// Least significant first means that the first byte counts ones, and most
/// significant first that the last one does.
pub proof fn law_bytes_have_their_weight(s: Seq<u8>)
    requires
        s.len() >= 8,
    ensures
        ByteOrder::Little.u16_at(s, 0) == s[0] + 0x100 * s[1],
        ByteOrder::Big.u16_at(s, 0) == 0x100 * s[0] + s[1],
        ByteOrder::Little.u32_at(s, 0) == s[0] + 0x100 * s[1] + 0x1_0000 * s[2] + 0x100_0000 * s[3],
        ByteOrder::Big.u32_at(s, 0) == 0x100_0000 * s[0] + 0x1_0000 * s[1] + 0x100 * s[2] + s[3],
        ByteOrder::Little.low_u32_at(s, 0) == ByteOrder::Little.u32_at(s, 0),
        ByteOrder::Big.low_u32_at(s, 0) == ByteOrder::Big.u32_at(s, 4),
{
}

proof fn lemma_weights(a: u8, b: u8, c: u8, d: u8)
    ensures
        ({
            let v = a + 0x100 * b + 0x1_0000 * c + 0x100_0000 * d;
            &&& 0 <= v <= u32::MAX
            &&& v % 0x100 == a
            &&& v / 0x100 % 0x100 == b
            &&& v / 0x1_0000 % 0x100 == c
            &&& v / 0x100_0000 == d
        }),
{
}

/// Writing what was read gives the bytes back.
pub proof fn lemma_u32_bytes(order: ByteOrder, s: Seq<u8>, off: int)
    requires
        0 <= off,
        off + 4 <= s.len(),
    ensures
        order.u32_bytes(order.u32_at(s, off)) == s.subrange(off, off + 4),
{
    let t = s.subrange(off, off + 4);
    assert(t[0] == s[off] && t[1] == s[off + 1] && t[2] == s[off + 2] && t[3] == s[off + 3]);
    match order {
        ByteOrder::Little => lemma_weights(t[0], t[1], t[2], t[3]),
        ByteOrder::Big => lemma_weights(t[3], t[2], t[1], t[0]),
    }
    assert(order.u32_bytes(order.u32_at(s, off)) =~= t);
}

} // verus!
