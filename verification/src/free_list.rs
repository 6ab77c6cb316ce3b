//! The free-list heap: first-fit allocation with block splitting, and
//! deallocation with coalescing of adjacent free blocks.
//!
//! The heap owns a fixed byte region `[start, end)` and a list of free
//! blocks in ascending address order. It assumes exclusive access during
//! each call; the surrounding program provides mutual exclusion (on the
//! target, by running each call with interrupts disabled).

use vstd::prelude::*;

use crate::block::Block;
use crate::block::covers;
use crate::block::in_region;
use crate::block::is_power_of_two;
use crate::block::lemma_order;
use crate::block::lemma_pad_for;
use crate::block::lemma_pow2_pos;
use crate::block::lemma_total_bytes_bounded;
use crate::block::lemma_total_bytes_singleton;
use crate::block::lemma_total_bytes_concat;
use crate::block::pad_for;
use crate::block::placement;
use crate::block::req_fits;
use crate::block::total_bytes;
use crate::block::well_formed;

verus! {

/// The one failure an allocation request can report: no free block can
/// serve the requested size and alignment.
#[derive(Clone, Copy, PartialEq, Eq, Structural, Debug)]
pub enum AllocError {
    OutOfMemory,
}

/// A heap over one fixed byte region, tracking its free blocks.
pub struct FreeListHeap {
    start: usize,
    end: usize,
    free: Vec<Block>,
}

/// Some block of `s` can serve a request for `size` bytes at `align`.
pub open spec fn has_fit(s: Seq<Block>, size: int, align: int) -> bool {
    exists|i: int| 0 <= i < s.len() && req_fits(#[trigger] s[i], size, align)
}

/// Block `i` is the first-fit choice for the request: it fits, and no
/// earlier block does.
pub open spec fn is_first_fit(s: Seq<Block>, size: int, align: int, i: int) -> bool {
    &&& 0 <= i < s.len()
    &&& req_fits(s[i], size, align)
    &&& forall|j: int| 0 <= j < i ==> !req_fits(#[trigger] s[j], size, align)
}

/// What `allocate` guarantees: the relation between the heap before the
/// call (`pre`), the heap after it (`post`), the request, and the result.
///
/// A zero-size request is served with a sentinel (the alignment itself,
/// which is aligned and non-null) and leaves the heap untouched. Otherwise
/// the call succeeds if and only if some free block fits the request; on
/// success the returned address is the aligned placement inside the
/// first-fit block, exactly `size` bytes leave the free set, and the rest
/// of the free list is unchanged. On failure the heap is untouched.
pub open spec fn allocate_post(
    pre: FreeListHeap,
    post: FreeListHeap,
    size: usize,
    align: usize,
    r: Result<usize, AllocError>,
) -> bool {
    &&& post.wf()
    &&& post.region_start() == pre.region_start()
    &&& post.region_end() == pre.region_end()
    &&& (size == 0 ==> post.blocks() == pre.blocks() && r == Result::<usize, AllocError>::Ok(
        align,
    ))
    &&& (size > 0 ==> match r {
        Result::Ok(p) => {
            &&& exists|i: int|
                #[trigger] is_first_fit(pre.blocks(), size as int, align as int, i) && p
                    == placement(pre.blocks()[i], align as int)
            &&& p as int % align as int == 0
            &&& pre.region_start() <= p && p + size <= pre.region_end()
            &&& forall|b: int| p <= b < p + size ==> pre.free_set().contains(b)
            &&& forall|b: int|
                post.free_set().contains(b) <==> (pre.free_set().contains(b) && !(p <= b < p
                    + size))
            &&& post.free_bytes() == pre.free_bytes() - size
        },
        Result::Err(e) => {
            &&& e == AllocError::OutOfMemory
            &&& post.blocks() == pre.blocks()
            &&& !has_fit(pre.blocks(), size as int, align as int)
        },
    })
    &&& (size > 0 && has_fit(pre.blocks(), size as int, align as int) ==> r is Ok)
}

/// How the elements of a spliced list relate to the old list and the
/// inserted pieces, index by index.
proof fn lemma_splice_index(os: Seq<Block>, wl: int, wr: int, pieces: Seq<Block>, ns: Seq<Block>)
    requires
        0 <= wl <= wr <= os.len(),
        ns == os.subrange(0, wl) + pieces + os.subrange(wr, os.len() as int),
    ensures
        ns.len() == wl + pieces.len() + os.len() - wr,
        forall|k: int| 0 <= k < wl ==> #[trigger] ns[k] == os[k],
        forall|k: int| wl <= k < wl + pieces.len() ==> #[trigger] ns[k] == pieces[k - wl],
        forall|k: int|
            wl + pieces.len() <= k < ns.len() ==> #[trigger] ns[k] == os[k - wl - pieces.len()
                + wr],
{
}

/// Splicing a well-formed free list: when the pieces that replace the
/// window `[wl, wr)` stay strictly between the neighbouring blocks, the
/// result is well formed and confined to the region.
#[verifier::rlimit(100)]
proof fn lemma_splice_wf(
    os: Seq<Block>,
    wl: int,
    wr: int,
    pieces: Seq<Block>,
    ns: Seq<Block>,
    start: int,
    end: int,
)
    requires
        well_formed(os),
        in_region(os, start, end),
        0 <= wl <= wr <= os.len(),
        ns == os.subrange(0, wl) + pieces + os.subrange(wr, os.len() as int),
        well_formed(pieces),
        in_region(pieces, start, end),
        wl > 0 ==> forall|q: int|
            0 <= q < pieces.len() ==> os[wl - 1].end() < (#[trigger] pieces[q]).addr,
        wr < os.len() ==> forall|q: int|
            0 <= q < pieces.len() ==> (#[trigger] pieces[q]).end() < os[wr].addr,
    ensures
        well_formed(ns),
        in_region(ns, start, end),
{
    lemma_splice_index(os, wl, wr, pieces, ns);
    let pl = pieces.len() as int;
    let nslen = ns.len() as int;
    assert forall|k: int| 0 <= k < nslen implies (#[trigger] ns[k]).size > 0 && start
        <= ns[k].addr && ns[k].end() <= end by {
        if k < wl {
        } else if k < wl + pl {
            assert(ns[k] == pieces[k - wl]);
        } else {
            assert(ns[k] == os[k - wl - pl + wr]);
        }
    }
    assert forall|k: int| 0 <= k < nslen - 1 implies (#[trigger] ns[k]).end() < ns[k + 1].addr by {
        if k + 1 < wl {
        } else if k + 1 == wl {
            // the last kept prefix block meets the first piece or the suffix
            if pl == 0 && wr < os.len() && wl > 0 {
                lemma_order(os, wl - 1, wr);
            }
        } else if k + 1 < wl + pl {
            // inside the pieces
        } else if k + 1 == wl + pl {
            // the last piece, or the prefix, meets the first suffix block
            if pl == 0 && wl > 0 && wr < os.len() {
                lemma_order(os, wl - 1, wr);
            }
        } else {
            // inside the suffix
        }
    }
}

/// Splicing a well-formed free list: the result covers a byte exactly when
/// one of the pieces covers it or a block outside the window does.
#[verifier::rlimit(100)]
proof fn lemma_splice_covers(
    os: Seq<Block>,
    wl: int,
    wr: int,
    pieces: Seq<Block>,
    ns: Seq<Block>,
)
    requires
        0 <= wl <= wr <= os.len(),
        ns == os.subrange(0, wl) + pieces + os.subrange(wr, os.len() as int),
    ensures
        forall|b: int|
            covers(ns, b) <==> covers(pieces, b) || exists|k: int|
                (0 <= k < wl || wr <= k < os.len()) && (#[trigger] os[k]).contains(b),
{
    lemma_splice_index(os, wl, wr, pieces, ns);
    let pl = pieces.len() as int;
    assert forall|b: int|
        covers(ns, b) <==> covers(pieces, b) || exists|k: int|
            (0 <= k < wl || wr <= k < os.len()) && (#[trigger] os[k]).contains(b) by {
        if covers(ns, b) {
            let k = choose|k: int| 0 <= k < ns.len() && (#[trigger] ns[k]).contains(b);
            if k < wl {
                assert(os[k].contains(b));
            } else if k < wl + pl {
                assert(pieces[k - wl].contains(b));
                assert(covers(pieces, b));
            } else {
                assert(os[k - wl - pl + wr].contains(b));
            }
        }
        if covers(pieces, b) {
            let q = choose|q: int| 0 <= q < pieces.len() && (#[trigger] pieces[q]).contains(b);
            assert(ns[wl + q].contains(b));
            assert(covers(ns, b));
        }
        if exists|k: int| (0 <= k < wl || wr <= k < os.len()) && (#[trigger] os[k]).contains(b) {
            let k = choose|k: int|
                (0 <= k < wl || wr <= k < os.len()) && (#[trigger] os[k]).contains(b);
            if k < wl {
                assert(ns[k].contains(b));
            } else {
                assert(ns[k - wr + wl + pl].contains(b));
            }
            assert(covers(ns, b));
        }
    }
}

/// The remainders of block `b` after granting `[p, p + size)` out of it:
/// the bytes before the aligned payload and the bytes after it, each kept
/// as a free block of its own when non-empty.
pub open spec fn alloc_pieces(b: Block, p: int, size: int, pad: int, tail_size: int) -> Seq<
    Block,
> {
    let front = Block { addr: b.addr, size: pad as usize };
    let tail = Block { addr: (p + size) as usize, size: tail_size as usize };
    if pad > 0 && tail_size > 0 {
        seq![front, tail]
    } else if pad > 0 {
        seq![front]
    } else if tail_size > 0 {
        seq![tail]
    } else {
        Seq::empty()
    }
}

/// The effect of granting `[p, p + size)` out of block `ii` of a
/// well-formed free list: the block's remainders re-enter the list in its
/// place, the rest of the list is unchanged, exactly the granted bytes
/// leave the free set, and the free total drops by `size`.
#[verifier::rlimit(100)]
proof fn lemma_alloc_update(
    os: Seq<Block>,
    ns: Seq<Block>,
    ii: int,
    p: int,
    size: int,
    pad: int,
    tail_size: int,
    start: int,
    end: int,
)
    requires
        well_formed(os),
        in_region(os, start, end),
        0 <= start <= end <= usize::MAX,
        0 <= ii < os.len(),
        size > 0,
        pad >= 0,
        tail_size >= 0,
        p == os[ii].addr + pad,
        os[ii].size == pad + size + tail_size,
        ns == os.subrange(0, ii) + alloc_pieces(os[ii], p, size, pad, tail_size) + os.subrange(
            ii + 1,
            os.len() as int,
        ),
    ensures
        well_formed(ns),
        in_region(ns, start, end),
        forall|b: int| covers(ns, b) <==> (covers(os, b) && !(p <= b < p + size)),
        total_bytes(ns) == total_bytes(os) - size,
        forall|b: int| p <= b < p + size ==> covers(os, b),
{
    let bi = os[ii];
    let front = Block { addr: bi.addr, size: pad as usize };
    let tail = Block { addr: (p + size) as usize, size: tail_size as usize };
    let pieces = alloc_pieces(bi, p, size, pad, tail_size);
    assert(start <= bi.addr && bi.end() <= end);
    assert(pad <= bi.size && tail_size <= bi.size);
    assert(front.size == pad && front.end() == bi.addr + pad);
    assert(tail.addr == p + size && tail.size == tail_size && tail.end() == bi.end());
    if pad > 0 && tail_size > 0 {
        assert(pieces.len() == 2 && pieces[0] == front && pieces[1] == tail);
    } else if pad > 0 {
        assert(pieces.len() == 1 && pieces[0] == front);
    } else if tail_size > 0 {
        assert(pieces.len() == 1 && pieces[0] == tail);
    } else {
        assert(pieces.len() == 0);
    }
    assert(well_formed(pieces));
    assert(in_region(pieces, start, end));
    if ii > 0 {
        assert forall|q: int| 0 <= q < pieces.len() implies os[ii - 1].end()
            < (#[trigger] pieces[q]).addr by {
            lemma_order(os, ii - 1, ii);
        }
    }
    if ii + 1 < os.len() {
        assert forall|q: int| 0 <= q < pieces.len() implies (#[trigger] pieces[q]).end() < os[ii
            + 1].addr by {
            lemma_order(os, ii, ii + 1);
        }
    }
    lemma_splice_wf(os, ii, ii + 1, pieces, ns, start, end);
    lemma_splice_covers(os, ii, ii + 1, pieces, ns);
    // a piece covers exactly the chosen block's bytes outside the granted range
    assert forall|b0: int|
        covers(pieces, b0) <==> (bi.contains(b0) && !(p <= b0 < p + size)) by {
        if bi.contains(b0) && !(p <= b0 < p + size) {
            if b0 < p {
                assert(pieces[0].contains(b0));
            } else {
                assert(pieces[pieces.len() - 1].contains(b0));
            }
            assert(covers(pieces, b0));
        }
        if covers(pieces, b0) {
            let q = choose|q: int| 0 <= q < pieces.len() && (#[trigger] pieces[q]).contains(b0);
            assert(bi.contains(b0) && !(p <= b0 < p + size));
        }
    }
    // the new list covers the old free bytes outside the granted range
    assert forall|b0: int| covers(ns, b0) <==> (covers(os, b0) && !(p <= b0 < p + size)) by {
        if covers(ns, b0) {
            if !covers(pieces, b0) {
                let k = choose|k: int|
                    (0 <= k < ii || ii + 1 <= k < os.len()) && (#[trigger] os[k]).contains(b0);
                if k < ii {
                    lemma_order(os, k, ii);
                } else {
                    lemma_order(os, ii, k);
                }
            }
        }
        if covers(os, b0) && !(p <= b0 < p + size) {
            let k = choose|k: int| 0 <= k < os.len() && (#[trigger] os[k]).contains(b0);
            if k != ii {
                assert(covers(ns, b0));
            }
        }
    }
    // bookkeeping of the total free bytes
    let pre_part = os.subrange(0, ii);
    let post_part = os.subrange(ii + 1, os.len() as int);
    lemma_total_bytes_concat(pre_part + pieces, post_part);
    lemma_total_bytes_concat(pre_part, pieces);
    assert(os =~= pre_part + seq![bi] + post_part);
    lemma_total_bytes_concat(pre_part + seq![bi], post_part);
    lemma_total_bytes_concat(pre_part, seq![bi]);
    lemma_total_bytes_singleton(bi);
    if pad > 0 && tail_size > 0 {
        assert(pieces =~= seq![front] + seq![tail]);
        lemma_total_bytes_concat(seq![front], seq![tail]);
        lemma_total_bytes_singleton(front);
        lemma_total_bytes_singleton(tail);
    } else if pad > 0 {
        lemma_total_bytes_singleton(front);
    } else if tail_size > 0 {
        lemma_total_bytes_singleton(tail);
    }
    assert(total_bytes(ns) == total_bytes(os) - size);
    assert forall|b0: int| p <= b0 < p + size implies covers(os, b0) by {
        assert(os[ii].contains(b0));
    }
}

/// What callers must guarantee of a deallocation, and what every region
/// granted by a matching `allocate` call satisfies until it is freed: the
/// address carries the request's alignment, and the region lies inside the
/// managed range and holds no currently-free byte. Handing back anything
/// else is out of contract.
pub open spec fn valid_free(pre: FreeListHeap, addr: usize, size: usize, align: usize) -> bool {
    &&& is_power_of_two(align as int)
    &&& addr as int % align as int == 0
    &&& size > 0 ==> {
        &&& pre.region_start() <= addr
        &&& addr + size <= pre.region_end()
        &&& forall|b: int| addr <= b < addr + size ==> !pre.free_set().contains(b)
    }
}

/// What `deallocate` guarantees: the freed bytes join the free set, every
/// other byte keeps its state, the free total grows by exactly `size`, and
/// the list stays well formed — coalesced with any touching neighbour. A
/// zero-size call is a no-op.
pub open spec fn deallocate_post(
    pre: FreeListHeap,
    post: FreeListHeap,
    addr: usize,
    size: usize,
) -> bool {
    &&& post.wf()
    &&& post.region_start() == pre.region_start()
    &&& post.region_end() == pre.region_end()
    &&& (size == 0 ==> post.blocks() == pre.blocks())
    &&& (size > 0 ==> {
        &&& forall|b: int|
            post.free_set().contains(b) <==> (pre.free_set().contains(b) || (addr <= b < addr
                + size))
        &&& post.free_bytes() == pre.free_bytes() + size
    })
}

/// Start of the window of blocks that a deallocation at position `i`
/// replaces: it reaches one block left when the predecessor is merged.
pub open spec fn dealloc_wl(i: int, merge_prev: bool) -> int {
    if merge_prev {
        i - 1
    } else {
        i
    }
}

/// End of the replaced window: it reaches one block right when the
/// successor is merged.
pub open spec fn dealloc_wr(i: int, merge_next: bool) -> int {
    if merge_next {
        i + 1
    } else {
        i
    }
}

/// The coalesced block that re-enters the list: the freed range, extended
/// over the merged neighbours.
pub open spec fn dealloc_piece(
    os: Seq<Block>,
    i: int,
    merge_prev: bool,
    merge_next: bool,
    addr: int,
    size: int,
) -> Block {
    let a = if merge_prev {
        os[i - 1].addr as int
    } else {
        addr
    };
    let e = if merge_next {
        os[i].end()
    } else {
        addr + size
    };
    Block { addr: a as usize, size: (e - a) as usize }
}

/// The effect of freeing `[addr, addr + size)` into a well-formed free
/// list at its sorted position `i`: the freed range and any touching
/// neighbours become one block, every other block is unchanged, exactly
/// the freed bytes join the free set, and the free total grows by `size`.
#[verifier::rlimit(100)]
proof fn lemma_dealloc_update(
    os: Seq<Block>,
    ns: Seq<Block>,
    i: int,
    merge_prev: bool,
    merge_next: bool,
    addr: int,
    size: int,
    start: int,
    end: int,
)
    requires
        well_formed(os),
        in_region(os, start, end),
        0 <= start <= end <= usize::MAX,
        0 <= i <= os.len(),
        size > 0,
        start <= addr,
        addr + size <= end,
        forall|k: int|
            0 <= k < os.len() ==> ((#[trigger] os[k]).end() <= addr || addr + size <= os[k].addr),
        forall|k: int| 0 <= k < i ==> (#[trigger] os[k]).end() <= addr,
        i < os.len() ==> addr + size <= os[i].addr,
        merge_prev <==> i > 0 && os[i - 1].end() == addr,
        merge_next <==> i < os.len() && addr + size == os[i].addr,
        ns == os.subrange(0, dealloc_wl(i, merge_prev)) + seq![
            dealloc_piece(os, i, merge_prev, merge_next, addr, size),
        ] + os.subrange(dealloc_wr(i, merge_next), os.len() as int),
    ensures
        well_formed(ns),
        in_region(ns, start, end),
        forall|b: int| covers(ns, b) <==> (covers(os, b) || (addr <= b < addr + size)),
        total_bytes(ns) == total_bytes(os) + size,
{
    let wl = dealloc_wl(i, merge_prev);
    let wr = dealloc_wr(i, merge_next);
    let piece = dealloc_piece(os, i, merge_prev, merge_next, addr, size);
    let a = if merge_prev {
        os[i - 1].addr as int
    } else {
        addr
    };
    let e = if merge_next {
        os[i].end()
    } else {
        addr + size
    };
    assert(a <= addr && addr + size <= e);
    assert(piece.addr == a && piece.size == e - a && piece.end() == e);
    assert(start <= a && e <= end);
    assert(well_formed(seq![piece]));
    assert(in_region(seq![piece], start, end));
    // the kept neighbours stay strictly apart from the coalesced block
    if wl > 0 {
        assert forall|q: int| 0 <= q < 1 implies os[wl - 1].end() < (#[trigger] seq![piece][q]).addr by {
            if merge_prev {
                lemma_order(os, i - 2, i - 1);
            }
        }
    }
    if wr < os.len() {
        assert forall|q: int| 0 <= q < 1 implies (#[trigger] seq![piece][q]).end() < os[wr].addr by {
            if merge_next {
                lemma_order(os, i, i + 1);
            }
        }
    }
    lemma_splice_wf(os, wl, wr, seq![piece], ns, start, end);
    lemma_splice_covers(os, wl, wr, seq![piece], ns);
    // the coalesced block covers exactly the freed range and the merged neighbours
    assert forall|b: int|
        piece.contains(b) <==> ((addr <= b < addr + size) || exists|k: int|
            wl <= k < wr && (#[trigger] os[k]).contains(b)) by {
        if piece.contains(b) {
            if b < addr {
                assert(os[i - 1].contains(b));
            } else if b >= addr + size {
                assert(os[i].contains(b));
            }
        }
        if exists|k: int| wl <= k < wr && (#[trigger] os[k]).contains(b) {
            let k = choose|k: int| wl <= k < wr && (#[trigger] os[k]).contains(b);
            assert(piece.contains(b));
        }
    }
    assert forall|b: int| covers(ns, b) <==> (covers(os, b) || (addr <= b < addr + size)) by {
        if covers(ns, b) && !covers(seq![piece], b) {
            let k = choose|k: int|
                (0 <= k < wl || wr <= k < os.len()) && (#[trigger] os[k]).contains(b);
            assert(covers(os, b));
        }
        if covers(seq![piece], b) {
            assert(piece.contains(b));
        }
        if covers(os, b) {
            let k = choose|k: int| 0 <= k < os.len() && (#[trigger] os[k]).contains(b);
            if wl <= k < wr {
                assert(piece.contains(b));
                assert(seq![piece][0].contains(b));
                assert(covers(seq![piece], b));
            }
        }
        if addr <= b < addr + size {
            assert(piece.contains(b));
            assert(seq![piece][0].contains(b));
            assert(covers(seq![piece], b));
        }
    }
    lemma_dealloc_totals(os, ns, i, merge_prev, merge_next, addr, size);
}

/// The free total after a deallocation: the coalesced block brings back
/// the merged neighbours' bytes plus exactly the freed `size`.
#[verifier::rlimit(100)]
proof fn lemma_dealloc_totals(
    os: Seq<Block>,
    ns: Seq<Block>,
    i: int,
    merge_prev: bool,
    merge_next: bool,
    addr: int,
    size: int,
)
    requires
        0 <= i <= os.len(),
        size > 0,
        merge_prev ==> i > 0 && os[i - 1].end() == addr,
        merge_next ==> i < os.len() && addr + size == os[i].addr,
        ns == os.subrange(0, dealloc_wl(i, merge_prev)) + seq![
            dealloc_piece(os, i, merge_prev, merge_next, addr, size),
        ] + os.subrange(dealloc_wr(i, merge_next), os.len() as int),
        0 <= dealloc_piece(os, i, merge_prev, merge_next, addr, size).addr,
        dealloc_piece(os, i, merge_prev, merge_next, addr, size).size == (if merge_next {
            os[i].end()
        } else {
            addr + size
        }) - (if merge_prev {
            os[i - 1].addr as int
        } else {
            addr
        }),
    ensures
        total_bytes(ns) == total_bytes(os) + size,
{
    let wl = dealloc_wl(i, merge_prev);
    let wr = dealloc_wr(i, merge_next);
    let piece = dealloc_piece(os, i, merge_prev, merge_next, addr, size);
    let pre_part = os.subrange(0, wl);
    let post_part = os.subrange(wr, os.len() as int);
    let window = os.subrange(wl, wr);
    lemma_total_bytes_concat(pre_part + seq![piece], post_part);
    lemma_total_bytes_concat(pre_part, seq![piece]);
    lemma_total_bytes_singleton(piece);
    assert(os =~= pre_part + window + post_part);
    lemma_total_bytes_concat(pre_part + window, post_part);
    lemma_total_bytes_concat(pre_part, window);
    if merge_prev && merge_next {
        assert(window =~= seq![os[i - 1]] + seq![os[i]]);
        lemma_total_bytes_concat(seq![os[i - 1]], seq![os[i]]);
        lemma_total_bytes_singleton(os[i - 1]);
        lemma_total_bytes_singleton(os[i]);
    } else if merge_prev {
        assert(window =~= seq![os[i - 1]]);
        lemma_total_bytes_singleton(os[i - 1]);
    } else if merge_next {
        assert(window =~= seq![os[i]]);
        lemma_total_bytes_singleton(os[i]);
    } else {
        assert(window =~= Seq::<Block>::empty());
    }
    assert(total_bytes(ns) == total_bytes(os) + size);
}

impl FreeListHeap {
    /// The free blocks, in ascending address order.
    pub closed spec fn blocks(&self) -> Seq<Block> {
        self.free@
    }

    /// First address of the managed region.
    pub closed spec fn region_start(&self) -> int {
        self.start as int
    }

    /// One past the last address of the managed region.
    pub closed spec fn region_end(&self) -> int {
        self.end as int
    }

    /// Size of the managed region in bytes.
    pub open spec fn region_size(&self) -> int {
        self.region_end() - self.region_start()
    }

    /// A region has been established: `init` ran.
    pub open spec fn is_initialized(&self) -> bool {
        self.region_start() < self.region_end()
    }

    /// The free list is well formed and confined to the region.
    pub open spec fn wf(&self) -> bool {
        &&& self.region_start() <= self.region_end()
        &&& well_formed(self.blocks())
        &&& in_region(self.blocks(), self.region_start(), self.region_end())
    }

    /// The set of byte addresses that are currently free.
    pub open spec fn free_set(&self) -> Set<int> {
        Set::new(|b: int| covers(self.blocks(), b))
    }

    /// Total free bytes.
    pub open spec fn free_bytes(&self) -> int {
        total_bytes(self.blocks())
    }

    /// A heap with no backing region and an empty free list. It must be
    /// initialized with `init` before any allocation call.
    pub fn empty() -> (r: FreeListHeap)
        ensures
            r.wf(),
            !r.is_initialized(),
            r.blocks().len() == 0,
            r.free_bytes() == 0,
    {
        FreeListHeap { start: 0, end: 0, free: Vec::new() }
    }

    /// Establishes `[start, start + size)` as the managed region, wholly
    /// free as one block. To be called exactly once, on a heap that has
    /// never been initialized, before any allocation call; the callers own
    /// the region and guarantee it overlaps nothing else.
    pub fn init(&mut self, start: usize, size: usize)
        requires
            !old(self).is_initialized(),
            old(self).blocks().len() == 0,
            size > 0,
            start + size <= usize::MAX,
        ensures
            final(self).wf(),
            final(self).is_initialized(),
            final(self).region_start() == start,
            final(self).region_end() == start + size,
            final(self).blocks() =~= seq![Block { addr: start, size: size }],
            final(self).free_bytes() == size,
            forall|b: int| final(self).free_set().contains(b) <==> start <= b < start + size,
    {
        self.start = start;
        self.end = start + size;
        self.free = Vec::new();
        self.free.push(Block { addr: start, size: size });
        proof {
            let s = self.blocks();
            assert(s =~= seq![Block { addr: start, size: size }]);
            assert(total_bytes(s.drop_last()) == 0);
            assert forall|b: int| self.free_set().contains(b) <==> start <= b < start + size by {
                if start <= b < start + size {
                    assert(s[0].contains(b));
                }
            }
        }
    }

    /// Whether `init` has established a region.
    pub fn initialized(&self) -> (b: bool)
        ensures
            b == self.is_initialized(),
    {
        self.start < self.end
    }

    /// Decides at run time whether `(addr, size, align)` may be handed to
    /// `deallocate`: the deallocation contract, checked against the
    /// current free list.
    pub fn can_free(&self, addr: usize, size: usize, align: usize) -> (b: bool)
        requires
            self.wf(),
        ensures
            b == valid_free(*self, addr, size, align),
    {
        if !crate::block::check_power_of_two(align) {
            return false;
        }
        proof {
            lemma_pow2_pos(align as int);
        }
        if addr % align != 0 {
            return false;
        }
        if size == 0 {
            return true;
        }
        if addr < self.start {
            return false;
        }
        if size > usize::MAX - addr {
            return false;
        }
        if addr + size > self.end {
            return false;
        }
        let len = self.free.len();
        let mut i: usize = 0;
        while i < len
            invariant
                i <= len,
                len == self.blocks().len(),
                self.wf(),
                size > 0,
                addr + size <= usize::MAX,
                forall|j: int|
                    0 <= j < i ==> ((#[trigger] self.blocks()[j]).end() <= addr || addr + size
                        <= self.blocks()[j].addr),
            decreases len - i,
        {
            let b = self.free[i];
            proof {
                assert(b == self.blocks()[i as int]);
                assert(b.end() <= self.region_end());
            }
            if !(b.addr + b.size <= addr || addr + size <= b.addr) {
                proof {
                    let w: int = if addr >= b.addr {
                        addr as int
                    } else {
                        b.addr as int
                    };
                    assert(b.contains(w));
                    assert(covers(self.blocks(), w));
                    assert(addr <= w < addr + size);
                    assert(self.free_set().contains(w));
                }
                return false;
            }
            i = i + 1;
        }
        proof {
            assert forall|b0: int| addr <= b0 < addr + size implies !self.free_set().contains(
                b0,
            ) by {
                if covers(self.blocks(), b0) {
                    let k = choose|k: int|
                        0 <= k < self.blocks().len() && (#[trigger] self.blocks()[k]).contains(b0);
                }
            }
        }
        true
    }

    /// Number of free blocks.
    pub fn block_count(&self) -> (n: usize)
        ensures
            n == self.blocks().len(),
    {
        self.free.len()
    }

    /// The free block at position `i` of the list (ascending addresses).
    pub fn block_at(&self, i: usize) -> (b: Block)
        requires
            i < self.blocks().len(),
        ensures
            b == self.blocks()[i as int],
    {
        self.free[i]
    }

    /// Total free bytes, counted over the free list.
    pub fn free_byte_count(&self) -> (n: usize)
        requires
            self.wf(),
        ensures
            n == self.free_bytes(),
    {
        proof {
            lemma_total_bytes_bounded(self.blocks(), self.region_start(), self.region_end());
        }
        let mut n: usize = 0;
        let mut i: usize = 0;
        let len = self.free.len();
        while i < len
            invariant
                i <= len,
                len == self.blocks().len(),
                self.wf(),
                n == total_bytes(self.blocks().subrange(0, i as int)),
                n <= self.region_size(),
            decreases len - i,
        {
            proof {
                let pre = self.blocks().subrange(0, i as int);
                let cur = self.blocks().subrange(0, i + 1 as int);
                assert(cur.drop_last() =~= pre);
                lemma_total_bytes_bounded(cur, self.region_start(), self.region_end());
                assert forall|k: int| 0 <= k < cur.len() implies self.region_start()
                    <= (#[trigger] cur[k]).addr && cur[k].end() <= self.region_end() by {}
                assert(well_formed(cur));
            }
            n = n + self.free[i].size;
            i = i + 1;
        }
        proof {
            assert(self.blocks().subrange(0, len as int) =~= self.blocks());
        }
        n
    }

    /// First-fit allocation: returns the lowest aligned address inside the
    /// first free block (in ascending address order) that can hold `size`
    /// bytes at alignment `align`, splitting the block around the granted
    /// bytes, or `OutOfMemory` when no block fits. A zero-size request is
    /// served with an aligned sentinel and touches no free block. Callers
    /// provide exclusive access for the duration of the call (on the
    /// target: a critical section).
    pub fn allocate(&mut self, size: usize, align: usize) -> (r: Result<usize, AllocError>)
        requires
            old(self).wf(),
            old(self).is_initialized(),
            is_power_of_two(align as int),
        ensures
            allocate_post(*old(self), *final(self), size, align, r),
    {
        proof {
            lemma_pow2_pos(align as int);
        }
        if size == 0 {
            return Ok(align);
        }
        let ghost os = old(self).blocks();
        let len = self.free.len();
        let mut i: usize = 0;
        while i < len
            invariant
                *self == *old(self),
                old(self).wf(),
                os == old(self).blocks(),
                len == os.len(),
                i <= len,
                align >= 1,
                is_power_of_two(align as int),
                size > 0,
                forall|j: int|
                    0 <= j < i ==> !req_fits(#[trigger] os[j], size as int, align as int),
            decreases len - i,
        {
            let b = self.free[i];
            proof {
                assert(b == os[i as int]);
                assert(os[i as int].size > 0);
                assert(self.region_start() <= os[i as int].addr && os[i as int].end()
                    <= self.region_end());
                lemma_pad_for(b.addr as int, align as int);
            }
            let rem = b.addr % align;
            let pad = if rem == 0 {
                0
            } else {
                align - rem
            };
            proof {
                assert(pad == pad_for(b.addr as int, align as int));
            }
            if pad <= b.size && size <= b.size - pad {
                let p = b.addr + pad;
                let tail_size = b.size - pad - size;
                let tail_addr = p + size;
                self.free.remove(i);
                if pad > 0 {
                    self.free.insert(i, Block { addr: b.addr, size: pad });
                }
                if tail_size > 0 {
                    if pad > 0 {
                        self.free.insert(i + 1, Block { addr: tail_addr, size: tail_size });
                    } else {
                        self.free.insert(i, Block { addr: tail_addr, size: tail_size });
                    }
                }
                proof {
                    let ii = i as int;
                    let bi = os[ii];
                    let ns = self.blocks();
                    assert(ns =~= os.subrange(0, ii) + alloc_pieces(
                        bi,
                        p as int,
                        size as int,
                        pad as int,
                        tail_size as int,
                    ) + os.subrange(ii + 1, os.len() as int));
                    lemma_alloc_update(
                        os,
                        ns,
                        ii,
                        p as int,
                        size as int,
                        pad as int,
                        tail_size as int,
                        self.region_start(),
                        self.region_end(),
                    );
                    assert(is_first_fit(os, size as int, align as int, ii));
                    assert(p == placement(os[ii], align as int));
                }
                return Ok(p);
            }
            i = i + 1;
        }
        proof {
            assert(!has_fit(os, size as int, align as int));
        }
        Err(AllocError::OutOfMemory)
    }

    /// Returns a region granted by a matching `allocate` call to the free
    /// list: the block enters at its address-sorted position and is merged
    /// with the preceding block when they touch, with the following block
    /// when they touch, or with both. A zero-size call is a no-op. Callers
    /// provide exclusive access for the duration of the call.
    #[verifier::rlimit(100)]
    pub fn deallocate(&mut self, addr: usize, size: usize, align: usize)
        requires
            old(self).wf(),
            old(self).is_initialized(),
            valid_free(*old(self), addr, size, align),
        ensures
            deallocate_post(*old(self), *final(self), addr, size),
    {
        if size == 0 {
            return ;
        }
        let ghost os = old(self).blocks();
        let len = self.free.len();
        let mut i: usize = 0;
        while i < len && self.free[i].addr < addr
            invariant
                *self == *old(self),
                old(self).wf(),
                os == old(self).blocks(),
                len == os.len(),
                i <= len,
                forall|j: int| 0 <= j < i ==> (#[trigger] os[j]).addr < addr,
            decreases len - i,
        {
            i = i + 1;
        }
        proof {
            // every free block lies wholly on one side of the freed range
            assert forall|k: int| 0 <= k < os.len() implies (#[trigger] os[k]).end() <= addr
                || addr + size <= os[k].addr by {
                if !(os[k].end() <= addr || addr + size <= os[k].addr) {
                    let w: int = if addr >= os[k].addr {
                        addr as int
                    } else {
                        os[k].addr as int
                    };
                    assert(os[k].contains(w));
                    assert(covers(os, w));
                    assert(addr <= w < addr + size);
                    assert(old(self).free_set().contains(w));
                }
            }
            // blocks before the insertion point end at or before the range
            assert forall|j: int| 0 <= j < i implies (#[trigger] os[j]).end() <= addr by {}
            // the block at the insertion point starts at or after its end
            if i < len {
                assert(os[i as int].addr >= addr);
                assert(addr + size <= os[i as int].addr);
            }
        }
        let merge_prev = if i > 0 {
            proof {
                assert(os[i - 1].end() <= self.region_end());
            }
            self.free[i - 1].addr + self.free[i - 1].size == addr
        } else {
            false
        };
        let merge_next = if i < len {
            addr + size == self.free[i].addr
        } else {
            false
        };
        let mut new_addr = addr;
        let mut new_size = size;
        if merge_prev {
            proof {
                assert(os[i - 1].addr + os[i - 1].size == addr);
            }
            new_addr = self.free[i - 1].addr;
            new_size = new_size + self.free[i - 1].size;
        }
        if merge_next {
            proof {
                assert(os[i as int].end() <= self.region_end());
            }
            new_size = new_size + self.free[i].size;
        }
        if merge_next {
            self.free.remove(i);
        }
        if merge_prev {
            self.free.remove(i - 1);
        }
        let wl = if merge_prev {
            i - 1
        } else {
            i
        };
        self.free.insert(wl, Block { addr: new_addr, size: new_size });
        proof {
            let ii = i as int;
            let ns = self.blocks();
            let piece = dealloc_piece(os, ii, merge_prev, merge_next, addr as int, size as int);
            assert(piece == Block { addr: new_addr, size: new_size });
            assert(ns =~= os.subrange(0, dealloc_wl(ii, merge_prev)) + seq![piece] + os.subrange(
                dealloc_wr(ii, merge_next),
                os.len() as int,
            ));
            lemma_dealloc_update(
                os,
                ns,
                ii,
                merge_prev,
                merge_next,
                addr as int,
                size as int,
                self.region_start(),
                self.region_end(),
            );
        }
    }
}

} // verus!
