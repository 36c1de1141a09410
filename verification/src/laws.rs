//! Laws of the allocator, stated over the same spec functions and step
//! predicates that the operation contracts use.

use vstd::prelude::*;

use crate::align::{lemma_padding_aligns, padding_of};
use crate::block::{
    adjacent, block_end, blocks_disjoint, data_addr_of, lemma_free_block_bound, lemma_sum_bounds,
    no_adjacent_free, payload_contains, total_of, used_sum, Block,
};
use crate::byte_alloc::{
    alloc_blocks_at, alloc_ok_step, block_fits, charged_of, consumed_block, dealloc_step,
    is_best_fit, should_split, LabByteAllocator,
};
use crate::coalesce::{coalesce_spec, lemma_coalesce_id};

verus! {

/// Conservation: in every well-formed state the allocated bytes never
/// exceed the total, so `available_bytes` (total minus used) and
/// `used_bytes` partition `total_bytes`; and the used count is exactly the
/// sum, over the currently live allocations, of the requested size plus the
/// alignment padding recorded when each was served.
pub proof fn lemma_conservation(a: &LabByteAllocator)
    requires
        a.wf(),
    ensures
        a.used_bytes <= a.memory_size,
        a.used_bytes + (a.memory_size - a.used_bytes) == a.memory_size,
        a.used_bytes == used_sum(a.blocks@),
        a.memory_size == total_of(a.blocks@),
{
    lemma_sum_bounds(a.blocks@);
}

/// Non-overlap: the payload ranges of two distinct blocks are disjoint.
/// Each live allocation holds its own allocated block and stays inside that
/// block's payload, so two concurrently live allocations never overlap.
pub proof fn lemma_payloads_disjoint(a: &LabByteAllocator, i: int, j: int)
    requires
        a.wf(),
        0 <= i < a.blocks@.len(),
        0 <= j < a.blocks@.len(),
        i != j,
    ensures
        data_addr_of(a.blocks@[i]) + a.blocks@[i].size <= data_addr_of(a.blocks@[j])
            || data_addr_of(a.blocks@[j]) + a.blocks@[j].size <= data_addr_of(a.blocks@[i]),
{
    assert(blocks_disjoint(a.blocks@[i], a.blocks@[j]));
}

/// Non-overlap, at the granularity of live allocations: each allocation's
/// returned range `[addr, addr + size)` lies inside its own block's charged
/// range `[data_addr, data_addr + charge)` (the containment clauses of
/// `alloc_ok_step`), and the charged ranges of two distinct blocks are
/// disjoint — so two concurrently live allocations never overlap.
pub proof fn lemma_charged_ranges_disjoint(a: &LabByteAllocator, i: int, j: int)
    requires
        a.wf(),
        0 <= i < a.blocks@.len(),
        0 <= j < a.blocks@.len(),
        i != j,
        !a.blocks@[i].is_free,
        !a.blocks@[j].is_free,
    ensures
        data_addr_of(a.blocks@[i]) + a.blocks@[i].charge <= data_addr_of(a.blocks@[j])
            || data_addr_of(a.blocks@[j]) + a.blocks@[j].charge <= data_addr_of(a.blocks@[i]),
{
    assert(blocks_disjoint(a.blocks@[i], a.blocks@[j]));
    assert(a.blocks@[i].charge <= a.blocks@[i].size);
    assert(a.blocks@[j].charge <= a.blocks@[j].size);
}

/// Exhaustion: a request larger than the available bytes fits no free
/// block, whatever the alignment, so `allocate` reports the no-memory
/// failure — and by its contract leaves the allocator unchanged.
pub proof fn lemma_exhaustion(a: &LabByteAllocator, size: usize, align: usize)
    requires
        a.wf(),
        size > a.memory_size - a.used_bytes,
    ensures
        forall|i: int|
            0 <= i < a.blocks@.len() ==> !block_fits(#[trigger] a.blocks@[i], size, align),
        !exists|i: int| is_best_fit(a.blocks@, size, align, i),
{
    let bs = a.blocks@;
    lemma_sum_bounds(bs);
    assert forall|i: int| 0 <= i < bs.len() implies !block_fits(
        #[trigger] bs[i],
        size,
        align,
    ) by {
        if block_fits(bs[i], size, align) {
            lemma_free_block_bound(bs, i);
            lemma_padding_aligns(data_addr_of(bs[i]), crate::align::eff_align(align));
            assert(padding_of(bs[i], align) >= 0);
            assert(size <= bs[i].size);
            assert(false);
        }
    }
    if exists|i: int| is_best_fit(bs, size, align, i) {
        let i: int = choose|i: int| is_best_fit(bs, size, align, i);
        assert(block_fits(bs[i], size, align));
        assert(false);
    }
}

/// Coalescing correctness: a run of directory-consecutive free blocks, each
/// starting exactly where its predecessor ends, collapses in one pass into
/// a single free block spanning the reunited range — the headers between
/// them are reclaimed and no residual fragmentation remains.
pub proof fn lemma_coalesce_run(bs: Seq<Block>)
    requires
        bs.len() >= 1,
        crate::block::blocks_fit(bs),
        forall|i: int| 0 <= i < bs.len() ==> (#[trigger] bs[i]).is_free,
        forall|i: int, j: int|
            #![trigger bs[i], bs[j]]
            0 <= i && j == i + 1 && j < bs.len() ==> adjacent(bs[i], bs[j]),
    ensures
        coalesce_spec(bs).len() == 1,
        coalesce_spec(bs)[0].is_free,
        coalesce_spec(bs)[0].start == bs[0].start,
        block_end(coalesce_spec(bs)[0]) == block_end(bs[bs.len() - 1]),
    decreases bs.len(),
{
    if bs.len() == 1 {
    } else {
        assert(bs[0].is_free && bs[1].is_free && adjacent(bs[0], bs[1]));
        let m = crate::coalesce::merge2(bs[0], bs[1]);
        let merged = seq![m] + bs.skip(2);
        assert(block_end(bs[1]) <= usize::MAX);
        assert(block_end(m) == block_end(bs[1]));
        assert(crate::block::blocks_fit(merged)) by {
            assert forall|k: int| 0 <= k < merged.len() implies #[trigger] block_end(merged[k])
                <= usize::MAX by {
                if k != 0 {
                    assert(merged[k] == bs[k + 1]);
                }
            }
        }
        assert forall|k: int| 0 <= k < merged.len() implies (#[trigger] merged[k]).is_free by {
            if k != 0 {
                assert(merged[k] == bs[k + 1]);
            }
        }
        assert forall|k: int, l: int|
            0 <= k && l == k + 1 && l < merged.len() implies adjacent(
            #[trigger] merged[k],
            #[trigger] merged[l],
        ) by {
            if k == 0 {
                assert(merged[1] == bs[2]);
                assert(adjacent(bs[1], bs[2]));
            } else {
                assert(merged[k] == bs[k + 1] && merged[l] == bs[l + 1]);
            }
        }
        lemma_coalesce_run(merged);
        assert(coalesce_spec(bs) == coalesce_spec(merged));
        if bs.len() == 2 {
            assert(merged.len() == 1);
            assert(block_end(merged[0]) == block_end(bs[1]));
        } else {
            assert(merged[merged.len() - 1] == bs[bs.len() - 1]);
        }
    }
}

/// Round trip: on any state, an allocation that did not split its winner,
/// released at once through `dealloc` of the returned address, restores the
/// used and therefore the available bytes exactly. The hypotheses are the
/// operation contracts of `allocate` and `dealloc` themselves.
pub proof fn lemma_round_trip(
    pre: LabByteAllocator,
    mid: LabByteAllocator,
    post: LabByteAllocator,
    size: usize,
    align: usize,
    i: int,
    addr: int,
)
    requires
        pre.wf(),
        size >= 1,
        alloc_ok_step(pre, mid, size, align, i, addr),
        !should_split(pre.blocks@[i], size, align),
        forall|k: int|
            0 <= k < mid.blocks@.len() && payload_contains(#[trigger] mid.blocks@[k], addr)
                ==> dealloc_step(mid, post, k),
    ensures
        post.used_bytes == pre.used_bytes,
        post.memory_size == pre.memory_size,
        post.memory_size - post.used_bytes == pre.memory_size - pre.used_bytes,
{
    let bs = pre.blocks@;
    let cb = consumed_block(bs[i], size, align);
    let t = alloc_blocks_at(bs, i, size, align);
    assert(t == bs.update(i, cb));
    assert(cb.size == bs[i].size);
    // Marking a block allocated creates no new free adjacency, so the
    // trailing coalescing pass of the allocation was the identity.
    assert(no_adjacent_free(t)) by {
        assert forall|k: int, l: int|
            0 <= k && l == k + 1 && l < t.len() implies !(#[trigger] t[k].is_free
            && #[trigger] t[l].is_free && adjacent(t[k], t[l])) by {
            assert(t[k].is_free ==> t[k] == bs[k]);
            assert(t[l].is_free ==> t[l] == bs[l]);
            assert(t[k].start == bs[k].start && t[k].size == bs[k].size);
            assert(t[l].start == bs[l].start && t[l].size == bs[l].size);
            assert(!(bs[k].is_free && bs[l].is_free && adjacent(bs[k], bs[l])));
        }
    }
    lemma_coalesce_id(t);
    assert(mid.blocks@ == t);
    // The returned address lies in the consumed block's payload.
    lemma_padding_aligns(data_addr_of(bs[i]), crate::align::eff_align(align));
    assert(block_fits(bs[i], size, align));
    assert(payload_contains(t[i], addr));
    assert(dealloc_step(mid, post, i));
    assert(mid.used_bytes == pre.used_bytes + charged_of(bs[i], size, align));
    assert(post.used_bytes == mid.used_bytes - t[i].charge);
    assert(t[i].charge == size + padding_of(bs[i], align));
}

} // verus!
