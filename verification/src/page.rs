//! Fixed-size raw page storage with offset-validated accessors.
//!
//! A `Page` is a `PAGE_SIZE` byte buffer, the sole unit of storage I/O.
//! Multi-byte integers are big-endian so the on-disk representation is
//! deterministic and platform independent.

use vstd::prelude::*;

use crate::error::Error;

verus! {

/// Size of one page, the unit of storage I/O.
pub const PAGE_SIZE: usize = 4096;

/// Width in bytes of an on-disk child/page offset.
pub const PTR_SIZE: usize = 8;

/// Byte offset of the node-type tag within a page.
pub const NODE_TYPE_OFFSET: usize = 0;

/// Byte offset of the root flag within a page.
pub const IS_ROOT_OFFSET: usize = 1;

/// Byte offset of the parent offset field within a page.
pub const PARENT_POINTER_OFFSET: usize = 2;

/// Width in bytes of the parent offset field.
pub const PARENT_POINTER_SIZE: usize = 8;

/// Byte offset of the child-count field of an internal node.
pub const INTERNAL_NODE_NUM_CHILDREN_OFFSET: usize = 10;

/// Width in bytes of the child-count field of an internal node.
pub const INTERNAL_NODE_NUM_CHILDREN_SIZE: usize = 8;

/// Total header size of an internal node's page.
pub const INTERNAL_NODE_HEADER_SIZE: usize = 18;

/// Byte offset of the pair-count field of a leaf node.
pub const LEAF_NODE_NUM_PAIRS_OFFSET: usize = 10;

/// Width in bytes of the pair-count field of a leaf node.
pub const LEAF_NODE_NUM_PAIRS_SIZE: usize = 8;

/// Total header size of a leaf node's page.
pub const LEAF_NODE_HEADER_SIZE: usize = 18;

/// Fixed width of one key slot; longer keys are rejected, never truncated.
pub const KEY_SIZE: usize = 16;

/// Fixed width of one value slot; longer values are rejected, never truncated.
pub const VALUE_SIZE: usize = 16;

/// `256^w`: the number of distinct values a `w`-byte field can hold.
pub open spec fn pow256(w: int) -> int
    decreases w,
{
    if w <= 0 {
        1
    } else {
        256 * pow256(w - 1)
    }
}

/// The unsigned integer stored big-endian in `s[off .. off + width]`.
pub open spec fn be_value(s: Seq<u8>, off: int, width: int) -> int
    decreases width,
{
    if width <= 0 {
        0
    } else {
        be_value(s, off, width - 1) * 256 + s[off + width - 1]
    }
}

pub proof fn lemma_pow256_vals()
    ensures
        pow256(0) == 1,
        pow256(1) == 0x100,
        pow256(2) == 0x1_0000,
        pow256(3) == 0x100_0000,
        pow256(4) == 0x1_0000_0000,
        pow256(5) == 0x100_0000_0000,
        pow256(6) == 0x1_0000_0000_0000,
        pow256(7) == 0x100_0000_0000_0000,
        pow256(8) == 0x1_0000_0000_0000_0000,
{
    reveal_with_fuel(pow256, 10);
}

pub proof fn lemma_pow256_mono(a: int, b: int)
    requires
        a <= b,
    ensures
        pow256(a) <= pow256(b),
    decreases b - a,
{
    if a < b {
        lemma_pow256_mono(a, b - 1);
        lemma_pow256_pos(b - 1);
    }
}

pub proof fn lemma_pow256_pos(w: int)
    ensures
        pow256(w) >= 1,
    decreases w,
{
    if w > 0 {
        lemma_pow256_pos(w - 1);
    }
}

/// A big-endian field of `width` bytes holds a value below `pow256(width)`.
pub proof fn lemma_be_value_bound(s: Seq<u8>, off: int, width: int)
    ensures
        0 <= be_value(s, off, width) < pow256(width),
    decreases width,
{
    if width > 0 {
        lemma_be_value_bound(s, off, width - 1);
    }
}

/// Unfolding `be_value` at its most significant byte.
pub proof fn lemma_be_value_left(s: Seq<u8>, off: int, width: int)
    requires
        width >= 1,
    ensures
        be_value(s, off, width) == s[off] * pow256(width - 1) + be_value(s, off + 1, width - 1),
    decreases width,
{
    if width == 1 {
        assert(be_value(s, off, 1) == be_value(s, off, 0) * 256 + s[off]);
        assert(pow256(0) == 1);
        assert(be_value(s, off + 1, 0) == 0);
    } else {
        lemma_be_value_left(s, off, width - 1);
        let a = s[off] as int;
        let p2 = pow256(width - 2);
        let p1 = pow256(width - 1);
        let rest = be_value(s, off + 1, width - 2);
        let last = s[off + width - 1] as int;
        assert(be_value(s, off, width) == be_value(s, off, width - 1) * 256 + last);
        assert(be_value(s, off, width - 1) == a * p2 + rest);
        assert(be_value(s, off + 1, width - 1) == rest * 256 + last);
        assert(p1 == 256 * p2);
        assert((a * p2 + rest) * 256 + last == a * p1 + (rest * 256 + last)) by (nonlinear_arith)
            requires
                p1 == 256 * p2,
        ;
        assert(be_value(s, off, width) == (a * p2 + rest) * 256 + last);
    }
}

/// `be_value` reads only `s[off .. off + width]`.
pub proof fn lemma_be_value_agree(s1: Seq<u8>, s2: Seq<u8>, off: int, width: int)
    requires
        forall|i: int| off <= i < off + width ==> s1[i] == s2[i],
    ensures
        be_value(s1, off, width) == be_value(s2, off, width),
    decreases width,
{
    if width > 0 {
        lemma_be_value_agree(s1, s2, off, width - 1);
    }
}

/// A fixed-size raw byte buffer with typed accessors; it knows nothing of
/// tree semantics.
#[derive(Debug)]
pub struct Page {
    data: Vec<u8>,
}

impl View for Page {
    type V = Seq<u8>;

    closed spec fn view(&self) -> Seq<u8> {
        self.data@
    }
}

impl Page {
    /// A page holds exactly `PAGE_SIZE` bytes.
    pub open spec fn wf(&self) -> bool {
        self@.len() == PAGE_SIZE
    }

    /// A fresh page, zero-initialized so unused space is deterministically
    /// zero.
    pub fn new() -> (p: Page)
        ensures
            p.wf(),
            forall|i: int| 0 <= i < PAGE_SIZE ==> p@[i] == 0u8,
    {
        let mut data: Vec<u8> = Vec::new();
        while data.len() < PAGE_SIZE
            invariant
                data@.len() <= PAGE_SIZE,
                forall|i: int| 0 <= i < data@.len() ==> data@[i] == 0u8,
            decreases PAGE_SIZE - data@.len(),
        {
            data.push(0u8);
        }
        Page { data }
    }

    /// The byte at `offset`.
    pub fn get_byte(&self, offset: usize) -> (b: u8)
        requires
            self.wf(),
            offset < PAGE_SIZE,
        ensures
            b == self@[offset as int],
    {
        self.data[offset]
    }

    /// Overwrites the byte at `offset`.
    pub fn set_byte(&mut self, offset: usize, b: u8)
        requires
            old(self).wf(),
            offset < PAGE_SIZE,
        ensures
            final(self).wf(),
            final(self)@ == old(self)@.update(offset as int, b),
    {
        self.data[offset] = b;
    }

    /// Reads a big-endian unsigned integer of `width` bytes starting at
    /// `offset`; `OutOfBounds` exactly when the field overruns the page.
    pub fn get_value_from_offset(&self, offset: usize, width: usize) -> (r: Result<u64, Error>)
        requires
            self.wf(),
            1 <= width <= 8,
        ensures
            offset + width <= PAGE_SIZE ==> (r matches Ok(v) && v as int == be_value(
                self@,
                offset as int,
                width as int,
            )),
            offset + width > PAGE_SIZE ==> r == Err::<u64, Error>(Error::OutOfBounds),
    {
        if offset > PAGE_SIZE - width {
            return Err(Error::OutOfBounds);
        }
        proof {
            lemma_pow256_vals();
        }
        let mut acc: u64 = 0;
        let mut i: usize = 0;
        while i < width
            invariant
                self.wf(),
                1 <= width <= 8,
                offset + width <= PAGE_SIZE,
                i <= width,
                acc as int == be_value(self@, offset as int, i as int),
            decreases width - i,
        {
            proof {
                lemma_be_value_bound(self@, offset as int, i as int);
                lemma_pow256_mono(i as int, 7);
                lemma_pow256_vals();
            }
            let b = self.data[offset + i];
            acc = acc * 256 + b as u64;
            i = i + 1;
        }
        Ok(acc)
    }

    /// Writes `value` big-endian into the `width`-byte field at `offset`;
    /// `OutOfBounds` exactly when the field overruns the page,
    /// `ValueTooLarge` exactly when the field cannot hold `value`. On error
    /// the page is unchanged.
    pub fn set_value_at_offset(&mut self, offset: usize, width: usize, value: u64) -> (r: Result<
        (),
        Error,
    >)
        requires
            old(self).wf(),
            1 <= width <= 8,
        ensures
            final(self).wf(),
            offset + width > PAGE_SIZE ==> r == Err::<(), Error>(Error::OutOfBounds) && final(self)@
                == old(self)@,
            offset + width <= PAGE_SIZE && value as int >= pow256(width as int) ==> r == Err::<
                (),
                Error,
            >(Error::ValueTooLarge) && final(self)@ == old(self)@,
            offset + width <= PAGE_SIZE && (value as int) < pow256(width as int) ==> r == Ok::<
                (),
                Error,
            >(()) && final(self)@.len() == PAGE_SIZE && be_value(
                final(self)@,
                offset as int,
                width as int,
            ) == value as int && forall|j: int|
                0 <= j < PAGE_SIZE && !(offset <= j < offset + width) ==> final(self)@[j] == old(self)@[j],
    {
        proof {
            lemma_pow256_vals();
        }
        if offset > PAGE_SIZE - width {
            return Err(Error::OutOfBounds);
        }
        if width < 8 {
            let mut limit: u64 = 1;
            let mut w: usize = 0;
            while w < width
                invariant
                    w <= width < 8,
                    limit as int == pow256(w as int),
                decreases width - w,
            {
                proof {
                    lemma_pow256_mono(w as int, 6);
                    lemma_pow256_vals();
                }
                limit = limit * 256;
                w = w + 1;
            }
            if value >= limit {
                return Err(Error::ValueTooLarge);
            }
        }
        let ghost orig = self@;
        let mut v: u64 = value;
        let mut i: usize = width;
        while i > 0
            invariant
                self.wf(),
                1 <= width <= 8,
                offset + width <= PAGE_SIZE,
                i <= width,
                (value as int) < pow256(width as int),
                be_value(self@, offset + i as int, width - i as int) + v as int * pow256(
                    width - i as int,
                ) == value as int,
                (v as int) < pow256(i as int),
                forall|j: int|
                    0 <= j < PAGE_SIZE && !(offset + i <= j < offset + width) ==> self@[j]
                        == orig[j],
            decreases i,
        {
            let ghost prev = self@;
            i = i - 1;
            let b: u8 = (v % 256) as u8;
            self.data[offset + i] = b;
            proof {
                lemma_be_value_agree(prev, self@, offset + i as int + 1, width - i as int - 1);
                lemma_be_value_left(self@, offset + i as int, width - i as int);
                assert(b as int == v as int % 256);
                assert((v / 256) as int == v as int / 256);
                assert(v as int % 256 + 256 * (v as int / 256) == v as int) by (nonlinear_arith);
                assert(b as int * pow256(width - i as int - 1) + (v as int / 256) * pow256(
                    width - i as int,
                ) == v as int * pow256(width - i as int - 1)) by (nonlinear_arith)
                    requires
                        pow256(width - i as int) == 256 * pow256(width - i as int - 1),
                        v as int % 256 + 256 * (v as int / 256) == v as int,
                        b as int == v as int % 256,
                ;
                assert(v as int / 256 < pow256(i as int)) by (nonlinear_arith)
                    requires
                        (v as int) < pow256(i as int + 1),
                        pow256(i as int + 1) == 256 * pow256(i as int),
                ;
            }
            v = v / 256;
        }
        proof {
            lemma_pow256_pos(0);
        }
        Ok(())
    }

    /// Returns a copy of the `length` bytes starting at `offset`;
    /// `OutOfBounds` exactly when the range overruns the page.
    pub fn get_ptr_from_offset(&self, offset: usize, length: usize) -> (r: Result<Vec<u8>, Error>)
        requires
            self.wf(),
        ensures
            offset + length <= PAGE_SIZE ==> (r matches Ok(v) && v@ == self@.subrange(
                offset as int,
                offset + length,
            )),
            offset + length > PAGE_SIZE ==> r == Err::<Vec<u8>, Error>(Error::OutOfBounds),
    {
        if length > PAGE_SIZE || offset > PAGE_SIZE - length {
            return Err(Error::OutOfBounds);
        }
        let mut out: Vec<u8> = Vec::new();
        let mut i: usize = 0;
        while i < length
            invariant
                self.wf(),
                offset + length <= PAGE_SIZE,
                i <= length,
                out@ == self@.subrange(offset as int, offset + i),
            decreases length - i,
        {
            out.push(self.data[offset + i]);
            proof {
                assert(out@ =~= self@.subrange(offset as int, offset + i + 1));
            }
            i = i + 1;
        }
        Ok(out)
    }

    /// Writes `bytes` at `offset`, replacing exactly that range;
    /// `OutOfBounds` exactly when the range overruns the page. On error the
    /// page is unchanged.
    pub fn set_range(&mut self, offset: usize, bytes: &Vec<u8>) -> (r: Result<(), Error>)
        requires
            old(self).wf(),
        ensures
            final(self).wf(),
            offset + bytes@.len() > PAGE_SIZE ==> r == Err::<(), Error>(Error::OutOfBounds) && final(self)@ == old(self)@,
            offset + bytes@.len() <= PAGE_SIZE ==> r == Ok::<(), Error>(()) && final(self)@.len()
                == PAGE_SIZE && (forall|j: int|
                0 <= j < bytes@.len() ==> final(self)@[offset + j] == bytes@[j]) && (forall|j: int|
                0 <= j < PAGE_SIZE && !(offset <= j < offset + bytes@.len()) ==> final(self)@[j]
                    == old(self)@[j]),
    {
        let len = bytes.len();
        if len > PAGE_SIZE || offset > PAGE_SIZE - len {
            return Err(Error::OutOfBounds);
        }
        let ghost orig = self@;
        let mut i: usize = 0;
        while i < len
            invariant
                self.wf(),
                offset + len <= PAGE_SIZE,
                len == bytes@.len(),
                i <= len,
                forall|j: int| 0 <= j < i ==> self@[offset + j] == bytes@[j],
                forall|j: int|
                    0 <= j < PAGE_SIZE && !(offset <= j < offset + i) ==> self@[j] == orig[j],
            decreases len - i,
        {
            self.data[offset + i] = bytes[i];
            i = i + 1;
        }
        Ok(())
    }
}

} // verus!
