//! The block model: headers, address ranges, directory well-formedness, and
//! the capacity sums that the accounting fields mirror.

use vstd::prelude::*;

verus! {

/// Size in bytes of a block header: five machine words on a 64-bit target
/// (base address, payload size, a padded state byte, and two neighbor links).
pub const HEADER_SIZE: usize = 40;

/// One block of managed memory: a header at `start`, then `size` bytes of
/// payload. Neighbors in the directory are implicit in the directory order.
#[derive(Clone, Copy)]
pub struct Block {
    /// Base address of the block (the header sits here).
    pub start: usize,
    /// Usable payload bytes after the header.
    pub size: usize,
    /// Whether the payload is currently unallocated.
    pub is_free: bool,
    /// Bytes charged to the live allocation holding this block: the
    /// requested size plus the alignment padding. Zero while free. A block
    /// consumed whole keeps capacity beyond its charge; that slack returns
    /// to the available count only on release.
    pub charge: usize,
}

/// The charges are consistent: a free block charges nothing, and a charge
/// never exceeds the block's capacity.
pub open spec fn charge_wf(bs: Seq<Block>) -> bool {
    forall|i: int|
        0 <= i < bs.len() ==> if (#[trigger] bs[i]).is_free {
            bs[i].charge == 0
        } else {
            bs[i].charge <= bs[i].size
        }
}

/// First payload address of a block.
pub open spec fn data_addr_of(b: Block) -> int {
    b.start + HEADER_SIZE
}

/// One-past-the-end address of a block (header plus payload).
pub open spec fn block_end(b: Block) -> int {
    b.start + HEADER_SIZE + b.size
}

/// Whether `addr` lies in the payload range of `b`.
pub open spec fn payload_contains(b: Block, addr: int) -> bool {
    data_addr_of(b) <= addr < data_addr_of(b) + b.size
}

/// Whether the whole ranges of two blocks are disjoint.
pub open spec fn blocks_disjoint(a: Block, b: Block) -> bool {
    block_end(a) <= b.start || block_end(b) <= a.start
}

/// Whether `b` starts exactly where `a` ends.
pub open spec fn adjacent(a: Block, b: Block) -> bool {
    b.start == block_end(a)
}

/// Every block of the directory fits in the address space.
pub open spec fn blocks_fit(bs: Seq<Block>) -> bool {
    forall|i: int| 0 <= i < bs.len() ==> #[trigger] block_end(bs[i]) <= usize::MAX
}

/// A well-formed directory: every block fits in the address space and no two
/// blocks overlap.
pub open spec fn blocks_wf(bs: Seq<Block>) -> bool {
    &&& blocks_fit(bs)
    &&& forall|i: int, j: int|
        0 <= i < bs.len() && 0 <= j < bs.len() && i != j ==> blocks_disjoint(bs[i], bs[j])
}

/// No two directory-consecutive blocks are both free and physically adjacent;
/// this is what a completed coalescing pass guarantees.
pub open spec fn no_adjacent_free(bs: Seq<Block>) -> bool {
    forall|i: int, j: int|
        #![trigger bs[i], bs[j]]
        0 <= i && j == i + 1 && j < bs.len() ==> !(bs[i].is_free && bs[j].is_free && adjacent(
            bs[i],
            bs[j],
        ))
}

/// Total bytes a directory accounts for: header plus payload of every block.
pub open spec fn total_of(bs: Seq<Block>) -> int
    decreases bs.len(),
{
    if bs.len() == 0 {
        0
    } else {
        total_of(bs.drop_last()) + HEADER_SIZE + bs.last().size
    }
}

/// Bytes charged to live allocations: the sum, over allocated blocks, of
/// the requested size plus padding recorded at allocation time.
pub open spec fn used_sum(bs: Seq<Block>) -> int
    decreases bs.len(),
{
    if bs.len() == 0 {
        0
    } else {
        used_sum(bs.drop_last()) + if bs.last().is_free {
            0
        } else {
            bs.last().charge as int
        }
    }
}

pub proof fn lemma_sums_concat(a: Seq<Block>, b: Seq<Block>)
    ensures
        total_of(a + b) == total_of(a) + total_of(b),
        used_sum(a + b) == used_sum(a) + used_sum(b),
    decreases b.len(),
{
    if b.len() == 0 {
        assert(a + b =~= a);
    } else {
        assert((a + b).drop_last() =~= a + b.drop_last());
        assert((a + b).last() == b.last());
        lemma_sums_concat(a, b.drop_last());
    }
}

pub proof fn lemma_sums_singleton(b: Block)
    ensures
        total_of(seq![b]) == HEADER_SIZE + b.size,
        used_sum(seq![b]) == if b.is_free {
            0int
        } else {
            b.charge as int
        },
{
    let s = seq![b];
    assert(s.drop_last() =~= Seq::<Block>::empty());
    assert(total_of(Seq::<Block>::empty()) == 0);
    assert(used_sum(Seq::<Block>::empty()) == 0);
    assert(s.last() == b);
}

/// No charge is negative, so the used sum never is.
pub proof fn lemma_used_nonneg(bs: Seq<Block>)
    ensures
        0 <= used_sum(bs),
    decreases bs.len(),
{
    if bs.len() > 0 {
        lemma_used_nonneg(bs.drop_last());
    }
}

pub proof fn lemma_sum_bounds(bs: Seq<Block>)
    requires
        charge_wf(bs),
    ensures
        0 <= used_sum(bs),
        used_sum(bs) <= total_of(bs),
    decreases bs.len(),
{
    if bs.len() > 0 {
        let head = bs.drop_last();
        assert(charge_wf(head)) by {
            assert forall|i: int| 0 <= i < head.len() implies if (#[trigger] head[i]).is_free {
                head[i].charge == 0
            } else {
                head[i].charge <= head[i].size
            } by {
                assert(head[i] == bs[i]);
            }
        }
        lemma_sum_bounds(head);
        assert(bs[bs.len() - 1] == bs.last());
    }
}

/// A directory splits, around position `i`, into prefix, singleton, suffix.
pub proof fn lemma_sums_split(bs: Seq<Block>, i: int)
    requires
        0 <= i < bs.len(),
    ensures
        total_of(bs) == total_of(bs.take(i)) + HEADER_SIZE + bs[i].size + total_of(
            bs.skip(i + 1),
        ),
        used_sum(bs) == used_sum(bs.take(i)) + (if bs[i].is_free {
            0int
        } else {
            bs[i].charge as int
        }) + used_sum(bs.skip(i + 1)),
{
    assert(bs =~= bs.take(i) + seq![bs[i]] + bs.skip(i + 1));
    lemma_sums_concat(bs.take(i) + seq![bs[i]], bs.skip(i + 1));
    lemma_sums_concat(bs.take(i), seq![bs[i]]);
    lemma_sums_singleton(bs[i]);
}

/// Replacing the block at `i` shifts the sums by the difference at `i` alone.
pub proof fn lemma_sums_update(bs: Seq<Block>, i: int, b: Block)
    requires
        0 <= i < bs.len(),
    ensures
        total_of(bs.update(i, b)) == total_of(bs) - bs[i].size + b.size,
        used_sum(bs.update(i, b)) == used_sum(bs) - (if bs[i].is_free {
            0int
        } else {
            bs[i].charge as int
        }) + (if b.is_free {
            0int
        } else {
            b.charge as int
        }),
{
    lemma_sums_split(bs, i);
    lemma_sums_split(bs.update(i, b), i);
    assert(bs.update(i, b).take(i) =~= bs.take(i));
    assert(bs.update(i, b).skip(i + 1) =~= bs.skip(i + 1));
}

/// Inserting a block at `i` adds its contribution to the sums.
pub proof fn lemma_sums_insert(bs: Seq<Block>, i: int, b: Block)
    requires
        0 <= i <= bs.len(),
    ensures
        total_of(bs.insert(i, b)) == total_of(bs) + HEADER_SIZE + b.size,
        used_sum(bs.insert(i, b)) == used_sum(bs) + (if b.is_free {
            0int
        } else {
            b.charge as int
        }),
{
    let ins = bs.insert(i, b);
    assert(ins =~= bs.take(i) + seq![b] + bs.skip(i));
    lemma_sums_concat(bs.take(i) + seq![b], bs.skip(i));
    lemma_sums_concat(bs.take(i), seq![b]);
    lemma_sums_singleton(b);
    assert(bs =~= bs.take(i) + bs.skip(i));
    lemma_sums_concat(bs.take(i), bs.skip(i));
}

/// Removing the block at `i` drops its contribution from the sums.
pub proof fn lemma_sums_remove(bs: Seq<Block>, i: int)
    requires
        0 <= i < bs.len(),
    ensures
        total_of(bs.remove(i)) == total_of(bs) - HEADER_SIZE - bs[i].size,
        used_sum(bs.remove(i)) == used_sum(bs) - (if bs[i].is_free {
            0int
        } else {
            bs[i].charge as int
        }),
{
    let rem = bs.remove(i);
    assert(rem =~= bs.take(i) + bs.skip(i + 1));
    lemma_sums_concat(bs.take(i), bs.skip(i + 1));
    lemma_sums_split(bs, i);
}

/// A free block's payload never exceeds what is not yet allocated.
pub proof fn lemma_free_block_bound(bs: Seq<Block>, i: int)
    requires
        charge_wf(bs),
        0 <= i < bs.len(),
        bs[i].is_free,
    ensures
        used_sum(bs) + bs[i].size <= total_of(bs),
{
    lemma_sums_split(bs, i);
    lemma_charge_wf_parts(bs, i);
    lemma_sum_bounds(bs.take(i));
    lemma_sum_bounds(bs.skip(i + 1));
}

/// An allocated block's charge is part of the used sum.
pub proof fn lemma_used_block_bound(bs: Seq<Block>, i: int)
    requires
        0 <= i < bs.len(),
        !bs[i].is_free,
    ensures
        bs[i].charge <= used_sum(bs),
{
    lemma_sums_split(bs, i);
    lemma_used_nonneg(bs.take(i));
    lemma_used_nonneg(bs.skip(i + 1));
}

/// Charge consistency restricts to the parts around one position.
proof fn lemma_charge_wf_parts(bs: Seq<Block>, i: int)
    requires
        charge_wf(bs),
        0 <= i < bs.len(),
    ensures
        charge_wf(bs.take(i)),
        charge_wf(bs.skip(i + 1)),
{
    let a = bs.take(i);
    let b = bs.skip(i + 1);
    assert forall|k: int| 0 <= k < a.len() implies if (#[trigger] a[k]).is_free {
        a[k].charge == 0
    } else {
        a[k].charge <= a[k].size
    } by {
        assert(a[k] == bs[k]);
    }
    assert forall|k: int| 0 <= k < b.len() implies if (#[trigger] b[k]).is_free {
        b[k].charge == 0
    } else {
        b[k].charge <= b[k].size
    } by {
        assert(b[k] == bs[k + i + 1]);
    }
}

} // verus!
