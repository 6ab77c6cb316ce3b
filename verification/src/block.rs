//! Free blocks and the shape of a well-formed free list.
//!
//! A real bare-metal allocator writes each free block's record (size and a
//! link to the next free block) into the first bytes of the free run itself.
//! Here the same information is held as plain values: a block is an address
//! and a size, and the free list is a sequence of blocks in ascending address
//! order. The spec functions in this module say what such a sequence means.

use vstd::prelude::*;

verus! {

/// A free region of the managed heap: `size` bytes starting at `addr`.
#[derive(Clone, Copy, PartialEq, Eq, Structural, Debug)]
pub struct Block {
    pub addr: usize,
    pub size: usize,
}

impl Block {
    /// One past the last byte of the block.
    pub open spec fn end(self) -> int {
        self.addr + self.size
    }

    /// Whether byte address `b` lies inside the block.
    pub open spec fn contains(self, b: int) -> bool {
        self.addr <= b < self.end()
    }
}

/// Bytes that must be skipped to round `addr` up to a multiple of `align`.
pub open spec fn pad_for(addr: int, align: int) -> int {
    if addr % align == 0 {
        0
    } else {
        align - addr % align
    }
}

/// The lowest `align`-aligned address inside block `b`.
pub open spec fn placement(b: Block, align: int) -> int {
    b.addr + pad_for(b.addr as int, align)
}

/// Whether a request for `size` bytes at alignment `align` fits in block `b`:
/// after rounding the block's address up to `align`, `size` bytes remain.
pub open spec fn req_fits(b: Block, size: int, align: int) -> bool {
    pad_for(b.addr as int, align) + size <= b.size
}

/// `align` is a power of two.
pub open spec fn is_power_of_two(align: int) -> bool
    decreases align,
{
    if align <= 0 {
        false
    } else if align == 1 {
        true
    } else {
        align % 2 == 0 && is_power_of_two(align / 2)
    }
}

/// Every block is non-empty, blocks sit at ascending addresses, and no two
/// neighbours touch: touching neighbours would have been coalesced.
pub open spec fn well_formed(s: Seq<Block>) -> bool {
    &&& forall|i: int| 0 <= i < s.len() ==> (#[trigger] s[i]).size > 0
    &&& forall|i: int| 0 <= i < s.len() - 1 ==> (#[trigger] s[i]).end() < s[i + 1].addr
}

/// All blocks of `s` lie inside the region `[start, end)`.
pub open spec fn in_region(s: Seq<Block>, start: int, end: int) -> bool {
    forall|i: int| 0 <= i < s.len() ==> start <= (#[trigger] s[i]).addr && s[i].end() <= end
}

/// Whether some block of `s` covers byte address `b`.
pub open spec fn covers(s: Seq<Block>, b: int) -> bool {
    exists|i: int| 0 <= i < s.len() && (#[trigger] s[i]).contains(b)
}

/// Total bytes held by the blocks of `s`.
pub open spec fn total_bytes(s: Seq<Block>) -> int
    decreases s.len(),
{
    if s.len() == 0 {
        0
    } else {
        total_bytes(s.drop_last()) + s.last().size
    }
}

/// Blocks of a well-formed list are ordered pairwise: an earlier block ends
/// strictly before a later block begins.
pub proof fn lemma_order(s: Seq<Block>, i: int, j: int)
    requires
        well_formed(s),
        0 <= i < j < s.len(),
    ensures
        s[i].end() < s[j].addr,
    decreases j - i,
{
    if j > i + 1 {
        lemma_order(s, i, j - 1);
    }
}

/// Decides at run time whether `x` is a power of two.
pub fn check_power_of_two(x: usize) -> (b: bool)
    ensures
        b == is_power_of_two(x as int),
{
    if x == 0 {
        return false;
    }
    let mut v = x;
    while v % 2 == 0
        invariant
            v >= 1,
            is_power_of_two(x as int) == is_power_of_two(v as int),
        decreases v,
    {
        v = v / 2;
    }
    v == 1
}

/// A power of two is at least one.
pub proof fn lemma_pow2_pos(align: int)
    requires
        is_power_of_two(align),
    ensures
        align >= 1,
    decreases align,
{
    if align > 1 {
        lemma_pow2_pos(align / 2);
    }
}

/// Rounding up to a positive alignment skips fewer than `align` bytes and
/// lands on a multiple of `align`.
pub proof fn lemma_pad_for(addr: int, align: int)
    requires
        align >= 1,
        addr >= 0,
    ensures
        0 <= pad_for(addr, align) < align,
        (addr + pad_for(addr, align)) % align == 0,
{
    vstd::arithmetic::div_mod::lemma_mod_pos_bound(addr, align);
    let r = addr % align;
    if r != 0 {
        let q = addr / align;
        vstd::arithmetic::div_mod::lemma_fundamental_div_mod(addr, align);
        assert(addr + (align - r) == (q + 1) * align) by (nonlinear_arith)
            requires
                addr == q * align + r,
        ;
        vstd::arithmetic::div_mod::lemma_mod_multiples_basic(q + 1, align);
    }
}

/// A single block holds exactly its own bytes.
pub proof fn lemma_total_bytes_singleton(b: Block)
    ensures
        total_bytes(seq![b]) == b.size,
{
    reveal_with_fuel(total_bytes, 2);
    assert(seq![b].drop_last() =~= Seq::<Block>::empty());
    assert(total_bytes(seq![b]) == total_bytes(seq![b].drop_last()) + b.size);
    assert(total_bytes(Seq::<Block>::empty()) == 0);
}

/// `total_bytes` distributes over concatenation.
pub proof fn lemma_total_bytes_concat(a: Seq<Block>, b: Seq<Block>)
    ensures
        total_bytes(a + b) == total_bytes(a) + total_bytes(b),
    decreases b.len(),
{
    if b.len() == 0 {
        assert(a + b =~= a);
    } else {
        lemma_total_bytes_concat(a, b.drop_last());
        assert((a + b).drop_last() =~= a + b.drop_last());
        assert((a + b).last() == b.last());
    }
}

/// The bytes of a well-formed free list confined to `[start, end)` never
/// exceed the region's size.
pub proof fn lemma_total_bytes_bounded(s: Seq<Block>, start: int, end: int)
    requires
        well_formed(s),
        in_region(s, start, end),
        start <= end,
    ensures
        0 <= total_bytes(s) <= end - start,
    decreases s.len(),
{
    if s.len() > 0 {
        let t = s.drop_last();
        let last = s.last();
        assert(well_formed(t));
        assert forall|i: int| 0 <= i < t.len() implies start <= (#[trigger] t[i]).addr
            && t[i].end() <= last.addr by {
            lemma_order(s, i, s.len() - 1);
        }
        lemma_total_bytes_bounded(t, start, last.addr as int);
    }
}

} // verus!
