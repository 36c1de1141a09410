//! Coalescing: the canonical result of merging directory-consecutive,
//! physically adjacent free blocks, and what that pass preserves.

use vstd::prelude::*;

use crate::block::{
    adjacent, block_end, blocks_disjoint, blocks_wf, charge_wf, lemma_sums_concat,
    lemma_sums_singleton, no_adjacent_free, total_of, used_sum, Block, HEADER_SIZE,
};

verus! {

/// The block left after absorbing `b` into `a`; `b`'s header capacity is
/// reclaimed as payload of the merged block.
pub open spec fn merge2(a: Block, b: Block) -> Block {
    Block {
        start: a.start,
        size: (a.size + HEADER_SIZE + b.size) as usize,
        is_free: true,
        charge: 0,
    }
}

/// The directory after one completed coalescing pass: walk from the front,
/// absorbing the successor of a free block whenever it is free and starts
/// exactly at the block's end, without advancing past a fresh merge.
pub open spec fn coalesce_spec(bs: Seq<Block>) -> Seq<Block>
    decreases bs.len(),
{
    if bs.len() <= 1 {
        bs
    } else if bs[0].is_free && bs[1].is_free && adjacent(bs[0], bs[1]) {
        coalesce_spec(seq![merge2(bs[0], bs[1])] + bs.skip(2))
    } else {
        seq![bs[0]] + coalesce_spec(bs.skip(1))
    }
}

/// Whether `p` is an address inside the whole range of `b`.
pub open spec fn point_in(b: Block, p: int) -> bool {
    b.start <= p < block_end(b)
}

/// Every address covered by a block of `cs` is covered by a block of `bs`.
pub open spec fn covered_by(cs: Seq<Block>, bs: Seq<Block>) -> bool {
    forall|k: int, p: int|
        0 <= k < cs.len() && #[trigger] point_in(cs[k], p) ==> exists|i: int|
            0 <= i < bs.len() && point_in(#[trigger] bs[i], p)
}

/// Two overlapping blocks share an address.
pub proof fn lemma_overlap_point(a: Block, b: Block)
    requires
        !blocks_disjoint(a, b),
    ensures
        exists|p: int| point_in(a, p) && #[trigger] point_in(b, p),
{
    let p: int = if a.start >= b.start {
        a.start as int
    } else {
        b.start as int
    };
    assert(point_in(a, p) && point_in(b, p));
}

/// Coalescing keeps the head block's base address and state.
pub proof fn lemma_coalesce_head(bs: Seq<Block>)
    requires
        bs.len() > 0,
    ensures
        coalesce_spec(bs).len() > 0,
        coalesce_spec(bs)[0].start == bs[0].start,
        coalesce_spec(bs)[0].is_free == bs[0].is_free,
    decreases bs.len(),
{
    if bs.len() <= 1 {
    } else if bs[0].is_free && bs[1].is_free && adjacent(bs[0], bs[1]) {
        lemma_coalesce_head(seq![merge2(bs[0], bs[1])] + bs.skip(2));
    } else {
        lemma_coalesce_head(bs.skip(1));
    }
}

/// An already fully coalesced directory is a fixed point of the pass.
pub proof fn lemma_coalesce_id(bs: Seq<Block>)
    requires
        no_adjacent_free(bs),
    ensures
        coalesce_spec(bs) == bs,
    decreases bs.len(),
{
    if bs.len() <= 1 {
    } else {
        assert(!(bs[0].is_free && bs[1].is_free && adjacent(bs[0], bs[1])));
        let tail = bs.skip(1);
        assert(no_adjacent_free(tail)) by {
            assert forall|i: int, j: int|
                0 <= i && j == i + 1 && j < tail.len() implies !(#[trigger] tail[i].is_free
                && #[trigger] tail[j].is_free && adjacent(tail[i], tail[j])) by {
                assert(tail[i] == bs[i + 1]);
                assert(tail[j] == bs[j + 1]);
            }
        }
        lemma_coalesce_id(tail);
        assert(seq![bs[0]] + tail =~= bs);
    }
}

/// One coalescing pass preserves well-formedness and both capacity sums,
/// stays within the addresses the directory already covered, and leaves no
/// two consecutive physically adjacent free blocks.
pub proof fn lemma_coalesce_props(bs: Seq<Block>)
    requires
        blocks_wf(bs),
    ensures
        blocks_wf(coalesce_spec(bs)),
        no_adjacent_free(coalesce_spec(bs)),
        total_of(coalesce_spec(bs)) == total_of(bs),
        used_sum(coalesce_spec(bs)) == used_sum(bs),
        covered_by(coalesce_spec(bs), bs),
        charge_wf(bs) ==> charge_wf(coalesce_spec(bs)),
    decreases bs.len(),
{
    if bs.len() <= 1 {
        assert(covered_by(coalesce_spec(bs), bs));
    } else if bs[0].is_free && bs[1].is_free && adjacent(bs[0], bs[1]) {
        let m = merge2(bs[0], bs[1]);
        let merged = seq![m] + bs.skip(2);
        assert(block_end(bs[1]) <= usize::MAX);
        assert(block_end(m) == block_end(bs[1]));
        // The merged directory is well-formed: `m` covers exactly the union
        // of the two contiguous ranges it replaces.
        assert(blocks_wf(merged)) by {
            assert forall|i: int, j: int|
                0 <= i < merged.len() && 0 <= j < merged.len() && i != j implies blocks_disjoint(
                merged[i],
                merged[j],
            ) by {
                if i != 0 && j != 0 {
                    assert(merged[i] == bs[i + 1] && merged[j] == bs[j + 1]);
                } else {
                    let k: int = if i == 0 {
                        j
                    } else {
                        i
                    };
                    assert(merged[k] == bs[k + 1]);
                    assert(blocks_disjoint(bs[0], bs[k + 1]));
                    assert(blocks_disjoint(bs[1], bs[k + 1]));
                }
            }
            assert forall|i: int| 0 <= i < merged.len() implies #[trigger] block_end(merged[i])
                <= usize::MAX by {
                if i != 0 {
                    assert(merged[i] == bs[i + 1]);
                }
            }
        }
        if charge_wf(bs) {
            assert(charge_wf(merged)) by {
                assert forall|k: int| 0 <= k < merged.len() implies if (#[trigger] merged[k]).is_free {
                    merged[k].charge == 0
                } else {
                    merged[k].charge <= merged[k].size
                } by {
                    if k != 0 {
                        assert(merged[k] == bs[k + 1]);
                    }
                }
            }
        }
        lemma_coalesce_props(merged);
        // The sums are unchanged by the merge itself.
        assert(total_of(merged) == total_of(bs) && used_sum(merged) == used_sum(bs)) by {
            lemma_sums_concat(seq![m], bs.skip(2));
            lemma_sums_singleton(m);
            assert(bs =~= seq![bs[0]] + seq![bs[1]] + bs.skip(2));
            lemma_sums_concat(seq![bs[0]] + seq![bs[1]], bs.skip(2));
            lemma_sums_concat(seq![bs[0]], seq![bs[1]]);
            lemma_sums_singleton(bs[0]);
            lemma_sums_singleton(bs[1]);
        }
        // Coverage composes through the merge.
        assert(covered_by(coalesce_spec(bs), bs)) by {
            assert forall|k: int, p: int|
                0 <= k < coalesce_spec(bs).len() && #[trigger] point_in(
                    coalesce_spec(bs)[k],
                    p,
                ) implies exists|i: int| 0 <= i < bs.len() && point_in(#[trigger] bs[i], p) by {
                assert(coalesce_spec(bs) == coalesce_spec(merged));
                let i0: int = choose|i0: int|
                    0 <= i0 < merged.len() && point_in(#[trigger] merged[i0], p);
                assert(point_in(merged[i0], p));
                if i0 == 0 {
                    if p < block_end(bs[0]) {
                        assert(point_in(bs[0], p));
                    } else {
                        assert(point_in(bs[1], p));
                    }
                } else {
                    assert(merged[i0] == bs[i0 + 1]);
                    assert(point_in(bs[i0 + 1], p));
                }
            }
        }
    } else {
        let tail = bs.skip(1);
        assert(blocks_wf(tail)) by {
            assert forall|i: int, j: int|
                0 <= i < tail.len() && 0 <= j < tail.len() && i != j implies blocks_disjoint(
                tail[i],
                tail[j],
            ) by {
                assert(tail[i] == bs[i + 1] && tail[j] == bs[j + 1]);
            }
            assert forall|i: int| 0 <= i < tail.len() implies #[trigger] block_end(tail[i])
                <= usize::MAX by {
                assert(tail[i] == bs[i + 1]);
            }
        }
        if charge_wf(bs) {
            assert(charge_wf(tail)) by {
                assert forall|k: int| 0 <= k < tail.len() implies if (#[trigger] tail[k]).is_free {
                    tail[k].charge == 0
                } else {
                    tail[k].charge <= tail[k].size
                } by {
                    assert(tail[k] == bs[k + 1]);
                }
            }
        }
        lemma_coalesce_props(tail);
        let c = coalesce_spec(tail);
        let res = seq![bs[0]] + c;
        assert(coalesce_spec(bs) == res);
        if charge_wf(bs) {
            assert(charge_wf(res)) by {
                assert forall|k: int| 0 <= k < res.len() implies if (#[trigger] res[k]).is_free {
                    res[k].charge == 0
                } else {
                    res[k].charge <= res[k].size
                } by {
                    if k == 0 {
                        assert(res[0] == bs[0]);
                    } else {
                        assert(res[k] == c[k - 1]);
                    }
                }
            }
        }
        // Every block of the coalesced tail stays inside addresses the tail
        // covered, so the head cannot overlap any of them.
        assert(blocks_wf(res)) by {
            assert forall|i: int, j: int|
                0 <= i < res.len() && 0 <= j < res.len() && i != j implies blocks_disjoint(
                res[i],
                res[j],
            ) by {
                if i != 0 && j != 0 {
                    assert(res[i] == c[i - 1] && res[j] == c[j - 1]);
                } else {
                    let k: int = if i == 0 {
                        j
                    } else {
                        i
                    };
                    assert(res[k] == c[k - 1]);
                    if !blocks_disjoint(bs[0], c[k - 1]) {
                        lemma_overlap_point(bs[0], c[k - 1]);
                        let p: int = choose|p: int|
                            point_in(bs[0], p) && #[trigger] point_in(c[k - 1], p);
                        assert(point_in(c[k - 1], p));
                        let t: int = choose|t: int|
                            0 <= t < tail.len() && point_in(#[trigger] tail[t], p);
                        assert(tail[t] == bs[t + 1]);
                        lemma_overlap_point(bs[0], bs[t + 1]);
                        assert(blocks_disjoint(bs[0], bs[t + 1]));
                        assert(false);
                    }
                }
            }
            assert forall|i: int| 0 <= i < res.len() implies #[trigger] block_end(res[i])
                <= usize::MAX by {
                if i != 0 {
                    assert(res[i] == c[i - 1]);
                }
            }
        }
        // No adjacent free pair: the head of the coalesced tail keeps the
        // base address and state of the old second block.
        assert(no_adjacent_free(res)) by {
            if tail.len() > 0 {
                lemma_coalesce_head(tail);
            }
            assert forall|i: int, j: int|
                0 <= i && j == i + 1 && j < res.len() implies !(#[trigger] res[i].is_free
                && #[trigger] res[j].is_free && adjacent(res[i], res[j])) by {
                if i == 0 {
                    assert(res[0] == bs[0]);
                    assert(res[1] == c[0]);
                    assert(tail[0] == bs[1]);
                    assert(c[0].start == bs[1].start && c[0].is_free == bs[1].is_free);
                } else {
                    assert(res[i] == c[i - 1] && res[j] == c[j - 1]);
                }
            }
        }
        assert(total_of(res) == total_of(bs) && used_sum(res) == used_sum(bs)) by {
            lemma_sums_concat(seq![bs[0]], c);
            lemma_sums_singleton(bs[0]);
            assert(bs =~= seq![bs[0]] + tail);
            lemma_sums_concat(seq![bs[0]], tail);
        }
        assert(covered_by(res, bs)) by {
            assert forall|k: int, p: int|
                0 <= k < res.len() && #[trigger] point_in(res[k], p) implies exists|i: int|
                0 <= i < bs.len() && point_in(#[trigger] bs[i], p) by {
                if k == 0 {
                    assert(point_in(bs[0], p));
                } else {
                    assert(res[k] == c[k - 1]);
                    let t: int = choose|t: int|
                        0 <= t < tail.len() && point_in(#[trigger] tail[t], p);
                    assert(tail[t] == bs[t + 1]);
                    assert(point_in(bs[t + 1], p));
                }
            }
        }
    }
}

} // verus!
