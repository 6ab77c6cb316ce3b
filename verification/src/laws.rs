//! The allocator's laws: properties that hold of every heap state and of
//! every pair of calls, proved once and for all from the contracts of
//! `allocate` and `deallocate`.

use vstd::prelude::*;

use crate::block::covers;
use crate::block::lemma_order;
use crate::block::lemma_pad_for;
use crate::block::lemma_total_bytes_bounded;
use crate::block::req_fits;
use crate::block::well_formed;
use crate::block::Block;
use crate::free_list::allocate_post;
use crate::free_list::deallocate_post;
use crate::free_list::has_fit;
use crate::free_list::is_first_fit;
use crate::free_list::AllocError;
use crate::free_list::FreeListHeap;

verus! {

/// First-fit determinism: one free-list state and one request single out
/// exactly one block, so an identical state and an identical request
/// always choose the same block — and hence, by `allocate`'s contract,
/// return the same address.
pub proof fn lemma_first_fit_unique(s: Seq<Block>, size: int, align: int, i: int, j: int)
    requires
        is_first_fit(s, size, align, i),
        is_first_fit(s, size, align, j),
    ensures
        i == j,
{
    if i < j {
        assert(!req_fits(s[i], size, align));
    }
    if j < i {
        assert(!req_fits(s[j], size, align));
    }
}

/// Exhaustion: a request strictly larger than every free block fits
/// nowhere, whatever its alignment.
pub proof fn lemma_oversized_request_fails(s: Seq<Block>, size: int, align: int)
    requires
        align >= 1,
        forall|i: int| 0 <= i < s.len() ==> (#[trigger] s[i]).size < size,
    ensures
        !has_fit(s, size, align),
{
    assert forall|i: int| 0 <= i < s.len() implies !req_fits(#[trigger] s[i], size, align) by {
        lemma_pad_for(s[i].addr as int, align);
    }
}

/// Exhaustion at the call: when a request exceeds every free block, the
/// allocator reports `OutOfMemory` and leaves the free list untouched —
/// so a later request that does fit still succeeds.
pub proof fn lemma_exhaustion(
    pre: FreeListHeap,
    post: FreeListHeap,
    size: usize,
    align: usize,
    r: Result<usize, AllocError>,
)
    requires
        size > 0,
        align >= 1,
        allocate_post(pre, post, size, align, r),
        forall|i: int| 0 <= i < pre.blocks().len() ==> (#[trigger] pre.blocks()[i]).size < size,
    ensures
        r == Result::<usize, AllocError>::Err(AllocError::OutOfMemory),
        post.blocks() == pre.blocks(),
{
    lemma_oversized_request_fails(pre.blocks(), size as int, align as int);
    match r {
        Result::Ok(p) => {
            let i = choose|i: int|
                #[trigger] is_first_fit(pre.blocks(), size as int, align as int, i) && p
                    == crate::block::placement(pre.blocks()[i], align as int);
            assert(req_fits(pre.blocks()[i], size as int, align as int));
            assert(false);
        },
        Result::Err(e) => {
        },
    }
}

/// A contiguous run of free bytes always lies inside a single free
/// block: a well-formed list keeps no two touching blocks apart.
pub proof fn lemma_covered_run_in_single_block(s: Seq<Block>, lo: int, hi: int)
    requires
        well_formed(s),
        lo < hi,
        forall|b: int| lo <= b < hi ==> covers(s, b),
    ensures
        exists|i: int|
            0 <= i < s.len() && (#[trigger] s[i]).addr <= lo && hi <= s[i].end(),
{
    assert(covers(s, lo));
    let i = choose|i: int| 0 <= i < s.len() && (#[trigger] s[i]).contains(lo);
    if s[i].end() < hi {
        let e = s[i].end();
        assert(lo <= e < hi);
        assert(covers(s, e));
        let j = choose|j: int| 0 <= j < s.len() && (#[trigger] s[j]).contains(e);
        if j < i {
            lemma_order(s, j, i);
        }
        if j > i {
            lemma_order(s, i, j);
        }
        assert(false);
    }
    assert(s[i].addr <= lo && hi <= s[i].end());
}

/// Dropping the first block of a well-formed list leaves a well-formed
/// list that covers exactly the bytes at or past the first block's end.
proof fn lemma_tail_covers(s: Seq<Block>)
    requires
        well_formed(s),
        s.len() > 0,
    ensures
        well_formed(s.subrange(1, s.len() as int)),
        forall|b: int|
            covers(s.subrange(1, s.len() as int), b) == (covers(s, b) && s[0].end() <= b),
{
    let t = s.subrange(1, s.len() as int);
    assert forall|b: int| covers(t, b) == (covers(s, b) && s[0].end() <= b) by {
        if covers(t, b) {
            let k = choose|k: int| 0 <= k < t.len() && (#[trigger] t[k]).contains(b);
            assert(t[k] == s[k + 1]);
            assert(s[k + 1].contains(b));
            assert(covers(s, b));
            lemma_order(s, 0, k + 1);
        }
        if covers(s, b) && s[0].end() <= b {
            let k = choose|k: int| 0 <= k < s.len() && (#[trigger] s[k]).contains(b);
            assert(k > 0);
            assert(t[k - 1].contains(b));
            assert(covers(t, b));
        }
    }
}

/// Canonical layout: two well-formed free lists that cover the same bytes
/// are the same list, block for block. A heap state is thus determined by
/// its free byte set alone.
#[verifier::rlimit(100)]
pub proof fn lemma_layout_canonical(s1: Seq<Block>, s2: Seq<Block>)
    requires
        well_formed(s1),
        well_formed(s2),
        forall|b: int| covers(s1, b) == covers(s2, b),
    ensures
        s1 == s2,
    decreases s1.len(),
{
    if s1.len() == 0 {
        if s2.len() > 0 {
            let b0 = s2[0].addr as int;
            assert(s2[0].contains(b0));
            assert(covers(s2, b0));
            assert(covers(s1, b0));
            let k = choose|k: int| 0 <= k < s1.len() && (#[trigger] s1[k]).contains(b0);
            assert(false);
        }
        assert(s1 =~= s2);
    } else if s2.len() == 0 {
        let b0 = s1[0].addr as int;
        assert(s1[0].contains(b0));
        assert(covers(s1, b0));
        assert(covers(s2, b0));
        let k = choose|k: int| 0 <= k < s2.len() && (#[trigger] s2[k]).contains(b0);
        assert(false);
    } else {
        let a1 = s1[0].addr as int;
        let a2 = s2[0].addr as int;
        let e1 = s1[0].end();
        let e2 = s2[0].end();
        // every covered byte sits at or past the first block's address
        assert forall|b: int| covers(s1, b) implies a1 <= b by {
            let k = choose|k: int| 0 <= k < s1.len() && (#[trigger] s1[k]).contains(b);
            if k > 0 {
                lemma_order(s1, 0, k);
            }
        }
        assert forall|b: int| covers(s2, b) implies a2 <= b by {
            let k = choose|k: int| 0 <= k < s2.len() && (#[trigger] s2[k]).contains(b);
            if k > 0 {
                lemma_order(s2, 0, k);
            }
        }
        assert(s1[0].contains(a1));
        assert(covers(s1, a1));
        assert(s2[0].contains(a2));
        assert(covers(s2, a2));
        assert(a1 == a2);
        // the byte at the first block's end is not covered
        assert(!covers(s1, e1)) by {
            if covers(s1, e1) {
                let k = choose|k: int| 0 <= k < s1.len() && (#[trigger] s1[k]).contains(e1);
                if k > 0 {
                    lemma_order(s1, 0, k);
                }
                assert(false);
            }
        }
        assert(!covers(s2, e2)) by {
            if covers(s2, e2) {
                let k = choose|k: int| 0 <= k < s2.len() && (#[trigger] s2[k]).contains(e2);
                if k > 0 {
                    lemma_order(s2, 0, k);
                }
                assert(false);
            }
        }
        // so the first blocks end together
        if e1 < e2 {
            assert(s2[0].contains(e1));
            assert(covers(s2, e1));
            assert(false);
        }
        if e2 < e1 {
            assert(s1[0].contains(e2));
            assert(covers(s1, e2));
            assert(false);
        }
        assert(s1[0] == s2[0]);
        // the tails cover the same bytes: recurse
        let t1 = s1.subrange(1, s1.len() as int);
        let t2 = s2.subrange(1, s2.len() as int);
        lemma_tail_covers(s1);
        lemma_tail_covers(s2);
        assert forall|b: int| covers(t1, b) == covers(t2, b) by {
            assert(covers(t1, b) == (covers(s1, b) && s1[0].end() <= b));
            assert(covers(t2, b) == (covers(s2, b) && s2[0].end() <= b));
        }
        lemma_layout_canonical(t1, t2);
        assert forall|i: int| 0 <= i < s1.len() implies s1[i] == s2[i] by {
            if i > 0 {
                assert(s1[i] == t1[i - 1]);
                assert(s2[i] == t2[i - 1]);
            }
        }
        assert(s1 =~= s2);
    }
}

/// Round trip: allocating a block and then freeing it with the matching
/// address and size returns the heap to exactly the state before the
/// allocation — the same free bytes, the same free total, and (by the
/// canonical layout) the same block list.
pub proof fn lemma_round_trip(
    pre: FreeListHeap,
    mid: FreeListHeap,
    post: FreeListHeap,
    size: usize,
    align: usize,
    p: usize,
)
    requires
        pre.wf(),
        size > 0,
        allocate_post(pre, mid, size, align, Result::Ok(p)),
        deallocate_post(mid, post, p, size),
    ensures
        post.free_bytes() == pre.free_bytes(),
        forall|b: int| post.free_set().contains(b) == pre.free_set().contains(b),
        post.blocks() == pre.blocks(),
{
    assert forall|b: int| covers(post.blocks(), b) == covers(pre.blocks(), b) by {
        assert(post.free_set().contains(b) == covers(post.blocks(), b));
        assert(mid.free_set().contains(b) == covers(mid.blocks(), b));
        assert(pre.free_set().contains(b) == covers(pre.blocks(), b));
    }
    lemma_layout_canonical(post.blocks(), pre.blocks());
}

/// Idempotent coalescing, order independence: freeing two blocks leaves
/// the same free bytes — and so, by the canonical layout, the very same
/// free list — whichever of the two is freed first.
pub proof fn lemma_free_order_independent(
    pre: FreeListHeap,
    mid_a: FreeListHeap,
    post_ab: FreeListHeap,
    mid_b: FreeListHeap,
    post_ba: FreeListHeap,
    a_addr: usize,
    a_size: usize,
    b_addr: usize,
    b_size: usize,
)
    requires
        a_size > 0,
        b_size > 0,
        deallocate_post(pre, mid_a, a_addr, a_size),
        deallocate_post(mid_a, post_ab, b_addr, b_size),
        deallocate_post(pre, mid_b, b_addr, b_size),
        deallocate_post(mid_b, post_ba, a_addr, a_size),
    ensures
        forall|b: int| post_ab.free_set().contains(b) == post_ba.free_set().contains(b),
        post_ab.blocks() == post_ba.blocks(),
{
    assert forall|b: int| covers(post_ab.blocks(), b) == covers(post_ba.blocks(), b) by {
        assert(post_ab.free_set().contains(b) == covers(post_ab.blocks(), b));
        assert(mid_a.free_set().contains(b) == covers(mid_a.blocks(), b));
        assert(mid_b.free_set().contains(b) == covers(mid_b.blocks(), b));
        assert(post_ba.free_set().contains(b) == covers(post_ba.blocks(), b));
        assert(pre.free_set().contains(b) == covers(pre.blocks(), b));
    }
    lemma_layout_canonical(post_ab.blocks(), post_ba.blocks());
}

/// Idempotent coalescing, merged result: once two adjacent regions are
/// both free, they lie inside one single free block — the list never
/// keeps them apart.
pub proof fn lemma_adjacent_frees_merge(
    post: FreeListHeap,
    addr: usize,
    a_size: usize,
    b_size: usize,
)
    requires
        post.wf(),
        a_size > 0,
        b_size > 0,
        addr + a_size + b_size <= usize::MAX,
        forall|b: int| addr <= b < addr + a_size + b_size ==> post.free_set().contains(b),
    ensures
        exists|i: int|
            0 <= i < post.blocks().len() && (#[trigger] post.blocks()[i]).addr <= addr && addr
                + a_size + b_size <= post.blocks()[i].end(),
{
    assert forall|b: int| addr <= b < addr + a_size + b_size implies covers(
        post.blocks(),
        b,
    ) by {
        assert(post.free_set().contains(b));
    }
    lemma_covered_run_in_single_block(post.blocks(), addr as int, addr + a_size + b_size);
}

/// Conservation under allocation: a successful call moves exactly the
/// granted bytes from free to live, so `free + live == region size` is
/// kept when the live count grows by the granted size. Together with its
/// deallocation counterpart, and since `init` starts the heap with the
/// whole region free and nothing live, the identity holds after every
/// sequence of valid calls — no byte is ever lost to alignment slack.
pub proof fn lemma_conservation_allocate(
    pre: FreeListHeap,
    post: FreeListHeap,
    size: usize,
    align: usize,
    r: Result<usize, AllocError>,
    live: int,
)
    requires
        allocate_post(pre, post, size, align, r),
        pre.free_bytes() + live == pre.region_size(),
    ensures
        r is Ok && size > 0 ==> post.free_bytes() + live + size == post.region_size(),
        !(r is Ok && size > 0) ==> post.free_bytes() + live == post.region_size(),
{
}

/// Conservation under deallocation: freeing a region moves exactly its
/// bytes from live back to free, keeping `free + live == region size`.
pub proof fn lemma_conservation_deallocate(
    pre: FreeListHeap,
    post: FreeListHeap,
    addr: usize,
    size: usize,
    live: int,
)
    requires
        deallocate_post(pre, post, addr, size),
        pre.free_bytes() + live == pre.region_size(),
    ensures
        post.free_bytes() + (live - size) == post.region_size(),
{
}

/// First-fit determinism at the call: two `allocate` calls on the same
/// heap state with the same request return the same result and leave the
/// same free list.
pub proof fn lemma_allocate_deterministic(
    pre: FreeListHeap,
    post1: FreeListHeap,
    post2: FreeListHeap,
    size: usize,
    align: usize,
    r1: Result<usize, AllocError>,
    r2: Result<usize, AllocError>,
)
    requires
        pre.wf(),
        allocate_post(pre, post1, size, align, r1),
        allocate_post(pre, post2, size, align, r2),
    ensures
        r1 == r2,
        post1.blocks() == post2.blocks(),
{
    if size > 0 {
        match (r1, r2) {
            (Result::Ok(p1), Result::Ok(p2)) => {
                let i1 = choose|i: int|
                    #[trigger] is_first_fit(pre.blocks(), size as int, align as int, i) && p1
                        == crate::block::placement(pre.blocks()[i], align as int);
                let i2 = choose|i: int|
                    #[trigger] is_first_fit(pre.blocks(), size as int, align as int, i) && p2
                        == crate::block::placement(pre.blocks()[i], align as int);
                lemma_first_fit_unique(pre.blocks(), size as int, align as int, i1, i2);
            },
            (Result::Ok(p1), Result::Err(_)) => {
                let i1 = choose|i: int|
                    #[trigger] is_first_fit(pre.blocks(), size as int, align as int, i) && p1
                        == crate::block::placement(pre.blocks()[i], align as int);
                assert(req_fits(pre.blocks()[i1], size as int, align as int));
                assert(false);
            },
            (Result::Err(_), Result::Ok(p2)) => {
                let i2 = choose|i: int|
                    #[trigger] is_first_fit(pre.blocks(), size as int, align as int, i) && p2
                        == crate::block::placement(pre.blocks()[i], align as int);
                assert(req_fits(pre.blocks()[i2], size as int, align as int));
                assert(false);
            },
            (Result::Err(_), Result::Err(_)) => {
            },
        }
    }
    assert forall|b: int| covers(post1.blocks(), b) == covers(post2.blocks(), b) by {
        assert(post1.free_set().contains(b) == covers(post1.blocks(), b));
        assert(post2.free_set().contains(b) == covers(post2.blocks(), b));
        assert(pre.free_set().contains(b) == covers(pre.blocks(), b));
    }
    lemma_layout_canonical(post1.blocks(), post2.blocks());
}

/// One allocator call linking two consecutive heap states, with the
/// live-byte count before and after it: a successful allocation moves its
/// size from free to live, a deallocation moves it back, and a failed or
/// zero-size call moves nothing.
pub open spec fn call_step(
    pre: FreeListHeap,
    post: FreeListHeap,
    live_pre: int,
    live_post: int,
) -> bool {
    ||| exists|size: usize, align: usize, r: Result<usize, AllocError>|
        #[trigger] allocate_post(pre, post, size, align, r) && live_post == live_pre + (
        if r is Ok && size > 0 {
            size as int
        } else {
            0
        })
    ||| exists|addr: usize, size: usize|
        #[trigger] deallocate_post(pre, post, addr, size) && live_post == live_pre - size
}

/// Conservation over whole histories: `init` starts a heap whose free
/// bytes equal the region size with nothing live, and every sequence of
/// allocate and deallocate calls with valid matching pairs keeps
/// `free bytes + live bytes == region size` in every state it reaches —
/// no byte is ever lost, not even to alignment slack.
pub proof fn lemma_conservation_history(states: Seq<FreeListHeap>, live: Seq<int>, k: int)
    requires
        states.len() == live.len(),
        states.len() > 0,
        states[0].free_bytes() == states[0].region_size(),
        live[0] == 0,
        forall|j: int|
            0 <= j < states.len() - 1 ==> #[trigger] call_step(
                states[j],
                states[j + 1],
                live[j],
                live[j + 1],
            ),
        0 <= k < states.len(),
    ensures
        states[k].free_bytes() + live[k] == states[k].region_size(),
    decreases k,
{
    if k > 0 {
        lemma_conservation_history(states, live, k - 1);
        let j = k - 1;
        assert(call_step(states[j], states[j + 1], live[j], live[j + 1]));
        let s = states[k - 1];
        let t = states[k];
        assert(call_step(s, t, live[k - 1], live[k]));
        if exists|size: usize, align: usize, r: Result<usize, AllocError>|
            #[trigger] allocate_post(s, t, size, align, r) && live[k] == live[k - 1] + (
            if r is Ok && size > 0 {
                size as int
            } else {
                0
            }) {
            let (size, align, r) = choose|size: usize, align: usize, r: Result<usize, AllocError>|
                #[trigger] allocate_post(s, t, size, align, r) && live[k] == live[k - 1] + (
                if r is Ok && size > 0 {
                    size as int
                } else {
                    0
                });
            lemma_conservation_allocate(s, t, size, align, r, live[k - 1]);
        } else {
            let (addr, size) = choose|addr: usize, size: usize|
                #[trigger] deallocate_post(s, t, addr, size) && live[k] == live[k - 1] - size;
            lemma_conservation_deallocate(s, t, addr, size, live[k - 1]);
        }
    }
}

/// The free total of a well-formed heap never exceeds the region size:
/// the live bytes of the conservation identity are never negative.
pub proof fn lemma_free_bytes_bounded(h: FreeListHeap)
    requires
        h.wf(),
    ensures
        0 <= h.free_bytes() <= h.region_size(),
{
    lemma_total_bytes_bounded(h.blocks(), h.region_start(), h.region_end());
}

} // verus!
