//! Zero-copy windows over runs of packed big-endian integers embedded in
//! the input buffer, converted to native values lazily per element or
//! eagerly into an owned vector.

use crate::wire::be_u32;
use crate::wire::be_u64;
use crate::wire::i32_of;
use crate::wire::i64_of;
use crate::wire::read_u32_be;
use crate::wire::read_u64_be;
use crate::Error;
use vstd::prelude::*;
use vstd::slice::slice_subrange;

verus! {

/// The 32-bit integers stored back to back, big-endian, in the bytes.
pub open spec fn ints_of(b: Seq<u8>) -> Seq<i32> {
    Seq::new((b.len() / 4) as nat, |i: int| i32_of(be_u32(b[4 * i], b[4 * i + 1], b[4 * i + 2], b[4 * i + 3])))
}

/// The 64-bit integers stored back to back, big-endian, in the bytes.
pub open spec fn longs_of(b: Seq<u8>) -> Seq<i64> {
    Seq::new(
        (b.len() / 8) as nat,
        |i: int|
            i64_of(
                be_u64(
                    b[8 * i],
                    b[8 * i + 1],
                    b[8 * i + 2],
                    b[8 * i + 3],
                    b[8 * i + 4],
                    b[8 * i + 5],
                    b[8 * i + 6],
                    b[8 * i + 7],
                ),
            ),
    )
}

/// A borrowed run of 32-bit big-endian integers; its view is the raw bytes,
/// which always hold a whole number of elements.
#[derive(Debug, PartialEq)]
pub struct RawIntArray<'a> {
    bytes: &'a [u8],
}

/// A borrowed run of 64-bit big-endian integers; its view is the raw bytes,
/// which always hold a whole number of elements.
#[derive(Debug, PartialEq)]
pub struct RawLongArray<'a> {
    bytes: &'a [u8],
}

impl<'a> View for RawIntArray<'a> {
    type V = Seq<u8>;

    closed spec fn view(&self) -> Seq<u8> {
        self.bytes@
    }
}

impl<'a> View for RawLongArray<'a> {
    type V = Seq<u8>;

    closed spec fn view(&self) -> Seq<u8> {
        self.bytes@
    }
}

impl<'a> RawIntArray<'a> {
    /// The bytes hold a whole number of elements, countable in the signed
    /// 32-bit field they were declared with.
    pub open spec fn wf(self) -> bool {
        self@.len() % 4 == 0 && self@.len() / 4 <= 0x7FFF_FFFF
    }

    /// Builds the view over `count` elements at the front of `data`; fails
    /// when the buffer cannot hold that many.
    pub fn new(data: &'a [u8], count: usize) -> (r: Result<RawIntArray<'a>, Error>)
        requires
            count <= 0x7FFF_FFFF,
        ensures
            match r {
                Ok(a) => data@.len() / 4 >= count && a@ == data@.subrange(0, 4 * count as int)
                    && a.wf(),
                Err(e) => data@.len() / 4 < count && e == Error::UnexpectedEof,
            },
    {
        if data.len() / 4 < count {
            Err(Error::UnexpectedEof)
        } else {
            Ok(RawIntArray { bytes: slice_subrange(data, 0, 4 * count) })
        }
    }

    /// Wraps bytes already known to hold whole elements.
    pub(crate) fn from_bytes(bytes: &'a [u8]) -> (r: RawIntArray<'a>)
        requires
            bytes@.len() % 4 == 0,
            bytes@.len() / 4 <= 0x7FFF_FFFF,
        ensures
            r@ == bytes@,
            r.wf(),
    {
        RawIntArray { bytes }
    }

    /// The element count.
    pub fn len(&self) -> (r: usize)
        ensures
            r == self@.len() / 4,
    {
        self.bytes.len() / 4
    }

    /// The raw big-endian bytes of the elements.
    pub fn as_bytes(&self) -> (r: &'a [u8])
        ensures
            r@ == self@,
    {
        self.bytes
    }

    /// The `i`-th element, converted from big-endian; out-of-range indexes
    /// yield an absent result, never an out-of-bounds access.
    pub fn get(&self, i: usize) -> (r: Option<i32>)
        ensures
            match r {
                Some(v) => i < self@.len() / 4 && v == ints_of(self@)[i as int],
                None => i >= self@.len() / 4,
            },
    {
        let blen = self.bytes.len();
        if i < blen / 4 {
            assert(self@.len() <= usize::MAX);
            assert(4 * (i as int) + 4 <= self@.len());
            let v = read_u32_be(self.bytes, 4 * i);
            Some(crate::wire::to_i32(v))
        } else {
            None
        }
    }

    /// Converts every element to native representation in an owned vector.
    pub fn to_vec(&self) -> (r: Vec<i32>)
        ensures
            r@ == ints_of(self@),
    {
        let blen = self.bytes.len();
        let n = blen / 4;
        let mut out: Vec<i32> = Vec::new();
        let mut i: usize = 0;
        while i < n
            invariant
                i <= n,
                n == self@.len() / 4,
                self@.len() <= usize::MAX,
                out@ =~= ints_of(self@).take(i as int),
            decreases n - i,
        {
            assert(self@.len() <= usize::MAX);
            assert(4 * (i as int) + 4 <= self@.len());
            let v = read_u32_be(self.bytes, 4 * i);
            out.push(crate::wire::to_i32(v));
            assert(out@ =~= ints_of(self@).take(i as int + 1));
            i += 1;
        }
        assert(ints_of(self@).take(n as int) =~= ints_of(self@));
        out
    }
}

impl<'a> RawLongArray<'a> {
    /// The bytes hold a whole number of elements, countable in the signed
    /// 32-bit field they were declared with.
    pub open spec fn wf(self) -> bool {
        self@.len() % 8 == 0 && self@.len() / 8 <= 0x7FFF_FFFF
    }

    /// Builds the view over `count` elements at the front of `data`; fails
    /// when the buffer cannot hold that many.
    pub fn new(data: &'a [u8], count: usize) -> (r: Result<RawLongArray<'a>, Error>)
        requires
            count <= 0x7FFF_FFFF,
        ensures
            match r {
                Ok(a) => data@.len() / 8 >= count && a@ == data@.subrange(0, 8 * count as int)
                    && a.wf(),
                Err(e) => data@.len() / 8 < count && e == Error::UnexpectedEof,
            },
    {
        if data.len() / 8 < count {
            Err(Error::UnexpectedEof)
        } else {
            Ok(RawLongArray { bytes: slice_subrange(data, 0, 8 * count) })
        }
    }

    /// Wraps bytes already known to hold whole elements.
    pub(crate) fn from_bytes(bytes: &'a [u8]) -> (r: RawLongArray<'a>)
        requires
            bytes@.len() % 8 == 0,
            bytes@.len() / 8 <= 0x7FFF_FFFF,
        ensures
            r@ == bytes@,
            r.wf(),
    {
        RawLongArray { bytes }
    }

    /// The element count.
    pub fn len(&self) -> (r: usize)
        ensures
            r == self@.len() / 8,
    {
        self.bytes.len() / 8
    }

    /// The raw big-endian bytes of the elements.
    pub fn as_bytes(&self) -> (r: &'a [u8])
        ensures
            r@ == self@,
    {
        self.bytes
    }

    /// The `i`-th element, converted from big-endian; out-of-range indexes
    /// yield an absent result, never an out-of-bounds access.
    pub fn get(&self, i: usize) -> (r: Option<i64>)
        ensures
            match r {
                Some(v) => i < self@.len() / 8 && v == longs_of(self@)[i as int],
                None => i >= self@.len() / 8,
            },
    {
        let blen = self.bytes.len();
        if i < blen / 8 {
            assert(self@.len() <= usize::MAX);
            assert(8 * (i as int) + 8 <= self@.len());
            let v = read_u64_be(self.bytes, 8 * i);
            Some(crate::wire::to_i64(v))
        } else {
            None
        }
    }

    /// Converts every element to native representation in an owned vector.
    pub fn to_vec(&self) -> (r: Vec<i64>)
        ensures
            r@ == longs_of(self@),
    {
        let blen = self.bytes.len();
        let n = blen / 8;
        let mut out: Vec<i64> = Vec::new();
        let mut i: usize = 0;
        while i < n
            invariant
                i <= n,
                n == self@.len() / 8,
                self@.len() <= usize::MAX,
                out@ =~= longs_of(self@).take(i as int),
            decreases n - i,
        {
            assert(self@.len() <= usize::MAX);
            assert(8 * (i as int) + 8 <= self@.len());
            let v = read_u64_be(self.bytes, 8 * i);
            out.push(crate::wire::to_i64(v));
            assert(out@ =~= longs_of(self@).take(i as int + 1));
            i += 1;
        }
        assert(longs_of(self@).take(n as int) =~= longs_of(self@));
        out
    }
}

} // verus!
