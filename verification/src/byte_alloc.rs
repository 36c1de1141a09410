//! The byte allocator: directory, best-fit strategy, split and coalesce, and
//! the accounting the host observes.

use vstd::prelude::*;

use crate::align::{aligned_addr_of, eff_align, is_pow2, padding_of};
use crate::block::{
    blocks_fit, blocks_wf, charge_wf, data_addr_of, lemma_sum_bounds, lemma_sums_singleton,
    no_adjacent_free, payload_contains, total_of, used_sum, Block, HEADER_SIZE,
};
use crate::coalesce::coalesce_spec;

verus! {

/// Whether free block `b` can hold `size` bytes at alignment `align` once
/// its payload start is padded up to the applied alignment.
pub open spec fn block_fits(b: Block, size: usize, align: usize) -> bool {
    b.is_free && padding_of(b, align) + size <= b.size
}

/// Unused bytes `b` would keep if chosen and not split: the padding plus the
/// slack after the request, which is the capacity minus the request.
pub open spec fn waste_of(b: Block, size: usize) -> int {
    b.size - size
}

/// Index `i` is the block best-fit chooses among the first `n`: it fits, no
/// earlier block fits with waste as small, no later one with waste smaller.
pub open spec fn best_in_prefix(bs: Seq<Block>, size: usize, align: usize, i: int, n: int) -> bool {
    &&& 0 <= i < n <= bs.len()
    &&& block_fits(bs[i], size, align)
    &&& forall|j: int|
        0 <= j < i ==> !block_fits(#[trigger] bs[j], size, align) || waste_of(bs[j], size)
            > waste_of(bs[i], size)
    &&& forall|j: int|
        i < j < n ==> !block_fits(#[trigger] bs[j], size, align) || waste_of(bs[j], size)
            >= waste_of(bs[i], size)
}

/// Index `i` is the block best-fit chooses from the whole directory.
pub open spec fn is_best_fit(bs: Seq<Block>, size: usize, align: usize, i: int) -> bool {
    best_in_prefix(bs, size, align, i, bs.len() as int)
}

/// Best-fit with the first-on-ties rule picks one block: an earlier equally
/// wasteful candidate would have beaten a later one, and strictly smaller
/// waste beats both ways.
pub proof fn lemma_best_fit_unique(bs: Seq<Block>, size: usize, align: usize, i: int, j: int)
    requires
        is_best_fit(bs, size, align, i),
        is_best_fit(bs, size, align, j),
    ensures
        i == j,
{
    if i < j {
        assert(block_fits(bs[i], size, align));
        assert(block_fits(bs[j], size, align));
        assert(waste_of(bs[i], size) > waste_of(bs[j], size));
        assert(waste_of(bs[i], size) <= waste_of(bs[j], size));
    } else if j < i {
        assert(block_fits(bs[i], size, align));
        assert(block_fits(bs[j], size, align));
        assert(waste_of(bs[j], size) > waste_of(bs[i], size));
        assert(waste_of(bs[j], size) <= waste_of(bs[i], size));
    }
}

/// The single failure of the allocation service: no free block can satisfy
/// the padded request.
#[derive(Clone, Copy, Debug, PartialEq, Eq, Structural)]
pub enum AllocError {
    NoMemory,
}

/// A byte-granularity allocator over host-registered spans.
///
/// The directory is owned by the allocator instead of being written into the
/// managed memory, so the allocator never dereferences the addresses it
/// manages; the accounting is identical to keeping one header per block at
/// the start of its span.
pub struct LabByteAllocator {
    /// Base address of the first registered span (informational).
    pub memory_start: usize,
    /// Total bytes over all registered spans, headers included.
    pub memory_size: usize,
    /// The block directory in chain order: ascending address order inside one
    /// registered span; later spans are appended at the tail.
    pub blocks: Vec<Block>,
    /// Bytes charged to live allocations: for each, its requested size plus
    /// its alignment padding.
    pub used_bytes: usize,
}

impl LabByteAllocator {
    /// The allocator's invariant: the directory is well formed and fully
    /// coalesced, and the two accounting fields mirror the directory sums.
    pub open spec fn wf(self) -> bool {
        &&& blocks_wf(self.blocks@)
        &&& charge_wf(self.blocks@)
        &&& no_adjacent_free(self.blocks@)
        &&& self.memory_size == total_of(self.blocks@)
        &&& self.used_bytes == used_sum(self.blocks@)
    }

    /// A fresh allocator that owns no memory yet.
    pub fn new() -> (r: Self)
        ensures
            r.wf(),
            r.memory_start == 0,
            r.memory_size == 0,
            r.used_bytes == 0,
            r.blocks@.len() == 0,
    {
        let r = LabByteAllocator {
            memory_start: 0,
            memory_size: 0,
            blocks: Vec::new(),
            used_bytes: 0,
        };
        r
    }

    /// Total bytes over all registered spans.
    pub fn total_bytes(&self) -> (r: usize)
        ensures
            r == self.memory_size,
    {
        self.memory_size
    }

    /// Payload bytes currently allocated.
    pub fn used_bytes(&self) -> (r: usize)
        ensures
            r == self.used_bytes,
    {
        self.used_bytes
    }

    /// Bytes not charged to any allocation. Headers, and the slack of a
    /// block consumed whole, count as available here: neither is billed to
    /// a holder, though neither is servable until the blocks holding them
    /// are free.
    pub fn available_bytes(&self) -> (r: usize)
        requires
            self.wf(),
        ensures
            r == self.memory_size - self.used_bytes,
            self.used_bytes <= self.memory_size,
    {
        proof {
            lemma_sum_bounds(self.blocks@);
        }
        self.memory_size - self.used_bytes
    }

    /// Establish the first span: any previously registered memory is
    /// forgotten and the span becomes one free block.
    pub fn init(&mut self, start: usize, size: usize)
        requires
            size >= HEADER_SIZE,
            start + size <= usize::MAX,
        ensures
            final(self).wf(),
            final(self).memory_start == start,
            final(self).memory_size == size,
            final(self).used_bytes == 0,
            final(self).blocks@ == seq![
                Block { start, size: (size - HEADER_SIZE) as usize, is_free: true, charge: 0 },
            ],
    {
        self.memory_start = start;
        self.memory_size = size;
        self.used_bytes = 0;
        let b = Block { start, size: size - HEADER_SIZE, is_free: true, charge: 0 };
        self.blocks = Vec::new();
        self.blocks.push(b);
        proof {
            assert(self.blocks@ =~= seq![b]);
            lemma_sums_singleton(b);
        }
    }

    /// Best-fit scan over the whole directory: the free block wasting the
    /// fewest bytes, the earliest on ties. `allocate` consumes the block
    /// this scan chooses.
    pub fn find_free_block(&self, size: usize, align: usize) -> (r: Option<usize>)
        requires
            self.wf(),
            is_pow2(align as int),
        ensures
            match r {
                Some(i) => is_best_fit(self.blocks@, size, align, i as int),
                None => forall|j: int|
                    0 <= j < self.blocks@.len() ==> !block_fits(
                        #[trigger] self.blocks@[j],
                        size,
                        align,
                    ),
            },
    {
        let al: usize = if align < 8 {
            8
        } else {
            align
        };
        proof {
            crate::align::lemma_eff_align_pow2(align);
        }
        let mut best: Option<usize> = None;
        let mut best_waste: usize = 0;
        let mut idx: usize = 0;
        while idx < self.blocks.len()
            invariant
                self.wf(),
                al as int == eff_align(align),
                idx <= self.blocks.len(),
                match best {
                    Some(i) => i < idx && best_in_prefix(
                        self.blocks@,
                        size,
                        align,
                        i as int,
                        idx as int,
                    ) && best_waste == waste_of(self.blocks@[i as int], size),
                    None => forall|j: int|
                        0 <= j < idx ==> !block_fits(#[trigger] self.blocks@[j], size, align),
                },
            decreases self.blocks.len() - idx,
        {
            let b = self.blocks[idx];
            if b.is_free {
                proof {
                    assert(crate::block::block_end(self.blocks@[idx as int]) <= usize::MAX);
                }
                let data_addr = b.start + HEADER_SIZE;
                let rem = data_addr % al;
                let padding = if rem == 0 {
                    0
                } else {
                    al - rem
                };
                if padding <= b.size && size <= b.size - padding {
                    let waste = b.size - size;
                    let better = match best {
                        None => true,
                        Some(_) => waste < best_waste,
                    };
                    if better {
                        best = Some(idx);
                        best_waste = waste;
                    }
                }
            }
            idx += 1;
        }
        best
    }

    /// Capacity of the largest free block; a fragmentation diagnostic, not
    /// part of any allocation decision.
    pub fn largest_free_block(&self) -> (r: usize)
        ensures
            r == max_free(self.blocks@),
    {
        let mut largest: usize = 0;
        let mut idx: usize = 0;
        while idx < self.blocks.len()
            invariant
                idx <= self.blocks.len(),
                largest == max_free(self.blocks@.take(idx as int)),
            decreases self.blocks.len() - idx,
        {
            let b = self.blocks[idx];
            if b.is_free && b.size > largest {
                largest = b.size;
            }
            proof {
                assert(self.blocks@.take(idx + 1 as int).drop_last() =~= self.blocks@.take(
                    idx as int,
                ));
                assert(self.blocks@.take(idx + 1 as int).last() == self.blocks@[idx as int]);
            }
            idx += 1;
        }
        proof {
            assert(self.blocks@.take(self.blocks@.len() as int) =~= self.blocks@);
        }
        largest
    }

    /// One full coalescing pass over the directory, merging every run of
    /// directory-consecutive, physically adjacent free blocks.
    fn coalesce_blocks(&mut self)
        requires
            blocks_fit(old(self).blocks@),
        ensures
            final(self).blocks@ == coalesce_spec(old(self).blocks@),
            final(self).memory_start == old(self).memory_start,
            final(self).memory_size == old(self).memory_size,
            final(self).used_bytes == old(self).used_bytes,
    {
        let ghost orig: Seq<Block> = self.blocks@;
        let ghost ms: usize = self.memory_size;
        let ghost mst: usize = self.memory_start;
        let ghost ub: usize = self.used_bytes;
        let mut i: usize = 0;
        proof {
            assert(orig.take(0) =~= Seq::<Block>::empty());
            assert(orig.skip(0) =~= orig);
            assert(Seq::<Block>::empty() + coalesce_spec(orig) =~= coalesce_spec(orig));
        }
        while i < self.blocks.len()
            invariant
                blocks_fit(self.blocks@),
                i <= self.blocks.len(),
                coalesce_spec(orig) == self.blocks@.take(i as int) + coalesce_spec(
                    self.blocks@.skip(i as int),
                ),
                self.memory_size == ms,
                self.memory_start == mst,
                self.used_bytes == ub,
            decreases self.blocks.len() - i,
        {
            let ghost pre: Seq<Block> = self.blocks@;
            let ghost sfx: Seq<Block> = pre.skip(i as int);
            let b = self.blocks[i];
            proof {
                assert(crate::block::block_end(pre[i as int]) <= usize::MAX);
            }
            let mergeable: bool = if !b.is_free {
                false
            } else if i + 1 < self.blocks.len() {
                let nb = self.blocks[i + 1];
                nb.is_free && nb.start == b.start + HEADER_SIZE + b.size
            } else {
                false
            };
            if mergeable {
                let nb = self.blocks[i + 1];
                proof {
                    assert(crate::block::block_end(pre[i + 1 as int]) <= usize::MAX);
                    assert(crate::block::adjacent(pre[i as int], pre[i + 1 as int]));
                }
                let merged = Block {
                    start: b.start,
                    size: b.size + HEADER_SIZE + nb.size,
                    is_free: true,
                    charge: 0,
                };
                self.blocks[i] = merged;
                self.blocks.remove(i + 1);
                proof {
                    assert(sfx[0] == b && sfx[1] == nb);
                    assert(merged == crate::coalesce::merge2(sfx[0], sfx[1]));
                    assert(self.blocks@.take(i as int) =~= pre.take(i as int));
                    assert(self.blocks@.skip(i as int) =~= seq![merged] + sfx.skip(2));
                    assert(coalesce_spec(sfx) == coalesce_spec(seq![merged] + sfx.skip(2)));
                    assert forall|k: int| 0 <= k < self.blocks@.len() implies #[trigger] crate::block::block_end(
                        self.blocks@[k],
                    ) <= usize::MAX by {
                        if k < i {
                            assert(self.blocks@[k] == pre[k]);
                        } else if k == i {
                            assert(crate::block::block_end(merged) == crate::block::block_end(
                                pre[i + 1 as int],
                            ));
                        } else {
                            assert(self.blocks@[k] == pre[k + 1]);
                        }
                    }
                }
            } else {
                proof {
                    if i + 1 < pre.len() {
                        assert(sfx[0] == b && sfx[1] == pre[i + 1 as int]);
                        assert(!(sfx[0].is_free && sfx[1].is_free && crate::block::adjacent(
                            sfx[0],
                            sfx[1],
                        )));
                        assert(coalesce_spec(sfx) == seq![sfx[0]] + coalesce_spec(sfx.skip(1)));
                    } else {
                        assert(sfx.len() == 1);
                        assert(coalesce_spec(sfx) == sfx);
                        assert(coalesce_spec(sfx.skip(1)) =~= Seq::<Block>::empty());
                        assert(sfx =~= seq![sfx[0]] + coalesce_spec(sfx.skip(1)));
                    }
                    assert(pre.take(i + 1 as int) =~= pre.take(i as int) + seq![sfx[0]]);
                    assert(pre.skip(i + 1 as int) =~= sfx.skip(1));
                    assert((pre.take(i as int) + seq![sfx[0]]) + coalesce_spec(sfx.skip(1))
                        =~= pre.take(i as int) + (seq![sfx[0]] + coalesce_spec(sfx.skip(1))));
                }
                i += 1;
            }
        }
        proof {
            assert(self.blocks@.skip(i as int) =~= Seq::<Block>::empty());
            assert(self.blocks@.take(i as int) =~= self.blocks@);
            assert(self.blocks@ + Seq::<Block>::empty() =~= self.blocks@);
        }
    }

    /// Register an additional span as one free block appended at the chain
    /// tail, then coalesce (the pass merges it only when the span is the
    /// literal continuation of the previous tail block). Always succeeds on
    /// a valid disjoint span.
    pub fn add_memory(&mut self, start: usize, size: usize) -> (r: Result<(), AllocError>)
        requires
            old(self).wf(),
            size >= HEADER_SIZE,
            start + size <= usize::MAX,
            old(self).memory_size + size <= usize::MAX,
            span_disjoint(old(self).blocks@, start, size),
        ensures
            final(self).wf(),
            r is Ok,
            final(self).memory_size == old(self).memory_size + size,
            final(self).used_bytes == old(self).used_bytes,
            final(self).memory_start == old(self).memory_start,
            final(self).blocks@ == coalesce_spec(old(self).blocks@.push(span_block(start, size))),
    {
        let b = Block { start, size: size - HEADER_SIZE, is_free: true, charge: 0 };
        let ghost pre: Seq<Block> = self.blocks@;
        self.blocks.push(b);
        self.memory_size = self.memory_size + size;
        proof {
            let pushed = pre.push(b);
            assert(self.blocks@ == pushed);
            assert(pushed =~= pre.insert(pre.len() as int, b));
            crate::block::lemma_sums_insert(pre, pre.len() as int, b);
            assert(charge_wf(pushed)) by {
                assert forall|k: int| 0 <= k < pushed.len() implies if (#[trigger] pushed[k]).is_free {
                    pushed[k].charge == 0
                } else {
                    pushed[k].charge <= pushed[k].size
                } by {
                    if k < pre.len() {
                        assert(pushed[k] == pre[k]);
                    }
                }
            }
            assert(blocks_wf(pushed)) by {
                assert forall|k: int| 0 <= k < pushed.len() implies #[trigger] crate::block::block_end(
                    pushed[k],
                ) <= usize::MAX by {
                    if k < pre.len() {
                        assert(pushed[k] == pre[k]);
                    }
                }
                assert forall|k: int, l: int|
                    0 <= k < pushed.len() && 0 <= l < pushed.len() && k != l implies crate::block::blocks_disjoint(
                    pushed[k],
                    pushed[l],
                ) by {
                    if k < pre.len() && l < pre.len() {
                        assert(pushed[k] == pre[k] && pushed[l] == pre[l]);
                    } else {
                        let m: int = if k < pre.len() {
                            k
                        } else {
                            l
                        };
                        assert(pushed[m] == pre[m]);
                        assert(start + size <= pre[m].start || crate::block::block_end(pre[m])
                            <= start);
                    }
                }
            }
        }
        self.coalesce_blocks();
        proof {
            crate::coalesce::lemma_coalesce_props(pre.push(b));
        }
        Ok(())
    }

    /// Serve an allocation of `size` bytes at alignment `align` (a power of
    /// two; values below 8 are applied as 8). Best fit wins, earliest on
    /// ties; the winner is split when the leftover still holds a header
    /// plus the applied alignment of slack; a coalescing pass follows, so a
    /// fresh split remainder merges with a free neighbor at once. Fails
    /// exactly when no free block fits the padded request, and then changes
    /// nothing.
    #[verifier::rlimit(100)]
    pub fn allocate(&mut self, size: usize, align: usize) -> (r: Result<usize, AllocError>)
        requires
            old(self).wf(),
            is_pow2(align as int),
        ensures
            final(self).wf(),
            (r is Ok) <==> exists|i: int| is_best_fit(old(self).blocks@, size, align, i),
            forall|i: int|
                is_best_fit(old(self).blocks@, size, align, i) ==> r is Ok && alloc_ok_step(
                    *old(self),
                    *final(self),
                    size,
                    align,
                    i,
                    r->Ok_0 as int,
                ),
            r is Err ==> *final(self) == *old(self),
            r is Ok ==> (r->Ok_0 as int) % (align as int) == 0,
    {
        let ghost pre: Seq<Block> = self.blocks@;
        match self.find_free_block(size, align) {
            None => {
                proof {
                    if exists|i: int| is_best_fit(pre, size, align, i) {
                        let i: int = choose|i: int| is_best_fit(pre, size, align, i);
                        assert(block_fits(pre[i], size, align));
                        assert(false);
                    }
                }
                Err(AllocError::NoMemory)
            },
            Some(i) => {
                let b = self.blocks[i];
                let al: usize = if align < 8 {
                    8
                } else {
                    align
                };
                proof {
                    crate::align::lemma_eff_align_pow2(align);
                    assert(crate::block::block_end(pre[i as int]) <= usize::MAX);
                    assert(block_fits(b, size, align));
                }
                let data_addr = b.start + HEADER_SIZE;
                proof {
                    crate::align::lemma_padding_aligns(data_addr as int, al as int);
                }
                let rem = data_addr % al;
                let padding = if rem == 0 {
                    0
                } else {
                    al - rem
                };
                proof {
                    assert(padding == padding_of(b, align));
                    assert(padding + size <= b.size);
                }
                let aligned_addr = data_addr + padding;
                let room = (b.size - padding) - size;
                let ghost charged: int = charged_of(b, size, align);
                if room >= HEADER_SIZE && room - HEADER_SIZE >= al {
                    proof {
                        assert(should_split(b, size, align));
                    }
                    let new_start = aligned_addr + size;
                    let new_block = Block {
                        start: new_start,
                        size: room - HEADER_SIZE,
                        is_free: true,
                        charge: 0,
                    };
                    let consumed = Block {
                        start: b.start,
                        size: size + padding,
                        is_free: false,
                        charge: size + padding,
                    };
                    proof {
                        assert(i < self.blocks@.len());
                    }
                    self.blocks[i] = consumed;
                    let n = self.blocks.len();
                    proof {
                        assert(i < n);
                    }
                    self.blocks.insert(i + 1, new_block);
                    proof {
                        assert(consumed == consumed_block(b, size, align));
                        assert(new_block == remainder_block(b, size, align));
                        let upd = pre.update(i as int, consumed);
                        let ins = upd.insert(i + 1 as int, new_block);
                        assert(self.blocks@ == ins);
                        assert(ins == alloc_blocks_at(pre, i as int, size, align));
                        crate::block::lemma_sums_update(pre, i as int, consumed);
                        crate::block::lemma_sums_insert(upd, i + 1 as int, new_block);
                        assert(crate::block::block_end(consumed) == new_block.start);
                        assert(crate::block::block_end(new_block) == crate::block::block_end(b));
                        assert(blocks_wf(ins)) by {
                            assert forall|k: int| 0 <= k < ins.len() implies #[trigger] crate::block::block_end(
                                ins[k],
                            ) <= usize::MAX by {
                                if k < i {
                                    assert(ins[k] == pre[k]);
                                } else if k > i + 1 {
                                    assert(ins[k] == pre[k - 1]);
                                }
                            }
                            assert forall|k: int, l: int|
                                0 <= k < ins.len() && 0 <= l < ins.len() && k != l implies crate::block::blocks_disjoint(
                                ins[k],
                                ins[l],
                            ) by {
                                if k >= i + 2 {
                                    assert(ins[k] == pre[k - 1]);
                                }
                                if l >= i + 2 {
                                    assert(ins[l] == pre[l - 1]);
                                }
                                if k < i {
                                    assert(ins[k] == pre[k]);
                                }
                                if l < i {
                                    assert(ins[l] == pre[l]);
                                }
                                let ko: int = if k <= i {
                                    k
                                } else {
                                    k - 1
                                };
                                let lo: int = if l <= i {
                                    l
                                } else {
                                    l - 1
                                };
                                if ko != lo {
                                    assert(crate::block::blocks_disjoint(pre[ko], pre[lo]));
                                }
                            }
                        }
                    }
                } else {
                    proof {
                        assert(!should_split(b, size, align));
                    }
                    let consumed = Block {
                        start: b.start,
                        size: b.size,
                        is_free: false,
                        charge: size + padding,
                    };
                    self.blocks[i] = consumed;
                    proof {
                        assert(consumed == consumed_block(b, size, align));
                        let upd = pre.update(i as int, consumed);
                        assert(self.blocks@ == upd);
                        assert(upd == alloc_blocks_at(pre, i as int, size, align));
                        crate::block::lemma_sums_update(pre, i as int, consumed);
                        assert(blocks_wf(upd)) by {
                            assert forall|k: int| 0 <= k < upd.len() implies #[trigger] crate::block::block_end(
                                upd[k],
                            ) <= usize::MAX by {
                                if k != i {
                                    assert(upd[k] == pre[k]);
                                } else {
                                    assert(crate::block::block_end(upd[k])
                                        == crate::block::block_end(pre[k]));
                                }
                            }
                            assert forall|k: int, l: int|
                                0 <= k < upd.len() && 0 <= l < upd.len() && k != l implies crate::block::blocks_disjoint(
                                upd[k],
                                upd[l],
                            ) by {
                                assert(crate::block::blocks_disjoint(pre[k], pre[l]));
                            }
                        }
                    }
                }
                proof {
                    let t = alloc_blocks_at(pre, i as int, size, align);
                    assert(self.blocks@ == t);
                    let cb = consumed_block(b, size, align);
                    assert(cb.charge <= cb.size);
                    assert(charge_wf(t)) by {
                        if should_split(b, size, align) {
                            let upd = pre.update(i as int, cb);
                            let ins = upd.insert(
                                i + 1 as int,
                                remainder_block(b, size, align),
                            );
                            assert(t == ins);
                            assert forall|k: int| 0 <= k < ins.len() implies if (#[trigger] ins[k]).is_free {
                                ins[k].charge == 0
                            } else {
                                ins[k].charge <= ins[k].size
                            } by {
                                if k < i {
                                    assert(ins[k] == pre[k]);
                                } else if k > i + 1 {
                                    assert(ins[k] == pre[k - 1]);
                                }
                            }
                        } else {
                            let upd = pre.update(i as int, cb);
                            assert(t == upd);
                            assert forall|k: int| 0 <= k < upd.len() implies if (#[trigger] upd[k]).is_free {
                                upd[k].charge == 0
                            } else {
                                upd[k].charge <= upd[k].size
                            } by {
                                if k != i {
                                    assert(upd[k] == pre[k]);
                                }
                            }
                        }
                    }
                    crate::block::lemma_sum_bounds(t);
                    assert(used_sum(t) == used_sum(pre) + charged);
                    assert(total_of(t) == total_of(pre));
                    assert(charged == size + padding);
                }
                self.used_bytes = self.used_bytes + (size + padding);
                self.coalesce_blocks();
                proof {
                    let t = alloc_blocks_at(pre, i as int, size, align);
                    crate::coalesce::lemma_coalesce_props(t);
                    // The returned address is aligned to the request.
                    crate::align::lemma_pow2_divides(align as int, al as int);
                    crate::align::lemma_aligned_divides(
                        aligned_addr as int,
                        al as int,
                        align as int,
                    );
                    // Best fit is unique, so the step holds of every witness.
                    assert forall|k: int| is_best_fit(pre, size, align, k) implies k == i as int by {
                        lemma_best_fit_unique(pre, size, align, k, i as int);
                    }
                    assert(alloc_ok_step(
                        *old(self),
                        *final(self),
                        size,
                        align,
                        i as int,
                        aligned_addr as int,
                    ));
                }
                Ok(aligned_addr)
            },
        }
    }

    /// Whether the span `[start, start + size)` overlaps no block the
    /// allocator already owns; `add_memory` asks this of every new span.
    pub fn span_available(&self, start: usize, size: usize) -> (r: bool)
        requires
            self.wf(),
            start + size <= usize::MAX,
        ensures
            r == span_disjoint(self.blocks@, start, size),
    {
        let mut idx: usize = 0;
        let mut ok: bool = true;
        while idx < self.blocks.len()
            invariant
                self.wf(),
                start + size <= usize::MAX,
                idx <= self.blocks.len(),
                ok == forall|i: int|
                    0 <= i < idx ==> start + size <= (#[trigger] self.blocks@[i]).start
                        || crate::block::block_end(self.blocks@[i]) <= start,
            decreases self.blocks.len() - idx,
        {
            let b = self.blocks[idx];
            proof {
                assert(crate::block::block_end(self.blocks@[idx as int]) <= usize::MAX);
            }
            if !(start + size <= b.start || b.start + HEADER_SIZE + b.size <= start) {
                ok = false;
            }
            idx += 1;
        }
        ok
    }

    /// Whether a `dealloc` at `pos` is permitted now: `pos` lies in no
    /// block's payload (then the call is a silent no-op), or in the payload
    /// of an allocated block. Releasing an address inside a block that is
    /// already free is the caller's discipline violation and is excluded.
    pub fn dealloc_permitted(&self, pos: usize) -> (r: bool)
        requires
            self.wf(),
        ensures
            r == forall|i: int|
                0 <= i < self.blocks@.len() && payload_contains(
                    #[trigger] self.blocks@[i],
                    pos as int,
                ) ==> !self.blocks@[i].is_free,
    {
        let mut idx: usize = 0;
        let mut ok: bool = true;
        while idx < self.blocks.len()
            invariant
                self.wf(),
                idx <= self.blocks.len(),
                ok == forall|i: int|
                    0 <= i < idx && payload_contains(#[trigger] self.blocks@[i], pos as int)
                        ==> !self.blocks@[i].is_free,
            decreases self.blocks.len() - idx,
        {
            let b = self.blocks[idx];
            proof {
                assert(crate::block::block_end(self.blocks@[idx as int]) <= usize::MAX);
            }
            let data_addr = b.start + HEADER_SIZE;
            if pos >= data_addr && pos - data_addr < b.size && b.is_free {
                ok = false;
            }
            idx += 1;
        }
        ok
    }

    /// Release the allocation at `pos`. The owning block is the one whose
    /// payload range contains `pos`; it is freed and the charge recorded at
    /// allocation time — the requested size plus padding — leaves the used
    /// count. An address inside no known payload range is silently ignored,
    /// never reported as an error. `size` and `align` describe the original
    /// request and are not used to re-derive the block or the charge.
    #[allow(unused_variables)]
    pub fn dealloc(&mut self, pos: usize, size: usize, align: usize)
        requires
            old(self).wf(),
            forall|i: int|
                0 <= i < old(self).blocks@.len() && payload_contains(
                    #[trigger] old(self).blocks@[i],
                    pos as int,
                ) ==> !old(self).blocks@[i].is_free,
        ensures
            final(self).wf(),
            forall|i: int|
                0 <= i < old(self).blocks@.len() && payload_contains(
                    #[trigger] old(self).blocks@[i],
                    pos as int,
                ) ==> dealloc_step(*old(self), *final(self), i),
            (forall|i: int|
                0 <= i < old(self).blocks@.len() ==> !payload_contains(
                    #[trigger] old(self).blocks@[i],
                    pos as int,
                )) ==> *final(self) == *old(self),
    {
        let ghost pre: Seq<Block> = self.blocks@;
        let n = self.blocks.len();
        let mut idx: usize = 0;
        let mut found: Option<usize> = None;
        while idx < n
            invariant
                self.wf(),
                n == self.blocks.len(),
                idx <= n,
                match found {
                    Some(k) => k < idx && payload_contains(self.blocks@[k as int], pos as int),
                    None => forall|j: int|
                        0 <= j < idx ==> !payload_contains(#[trigger] self.blocks@[j], pos as int),
                },
            decreases n - idx,
        {
            if found.is_none() {
                let b = self.blocks[idx];
                proof {
                    assert(crate::block::block_end(self.blocks@[idx as int]) <= usize::MAX);
                }
                let data_addr = b.start + HEADER_SIZE;
                if pos >= data_addr && pos - data_addr < b.size {
                    found = Some(idx);
                }
            }
            idx += 1;
        }
        match found {
            None => {
            },
            Some(i) => {
                let b = self.blocks[i];
                proof {
                    crate::block::lemma_used_block_bound(pre, i as int);
                }
                self.used_bytes = self.used_bytes - b.charge;
                let freed = Block { start: b.start, size: b.size, is_free: true, charge: 0 };
                self.blocks[i] = freed;
                proof {
                    let upd = pre.update(i as int, freed);
                    assert(self.blocks@ == upd);
                    crate::block::lemma_sums_update(pre, i as int, freed);
                    assert(charge_wf(upd)) by {
                        assert forall|k: int| 0 <= k < upd.len() implies if (#[trigger] upd[k]).is_free {
                            upd[k].charge == 0
                        } else {
                            upd[k].charge <= upd[k].size
                        } by {
                            if k != i {
                                assert(upd[k] == pre[k]);
                            }
                        }
                    }
                    assert(blocks_wf(upd)) by {
                        assert forall|k: int| 0 <= k < upd.len() implies #[trigger] crate::block::block_end(
                            upd[k],
                        ) <= usize::MAX by {
                            if k != i {
                                assert(upd[k] == pre[k]);
                            } else {
                                assert(crate::block::block_end(upd[k]) == crate::block::block_end(
                                    pre[k],
                                ));
                            }
                        }
                        assert forall|k: int, l: int|
                            0 <= k < upd.len() && 0 <= l < upd.len() && k != l implies crate::block::blocks_disjoint(
                            upd[k],
                            upd[l],
                        ) by {
                            assert(crate::block::blocks_disjoint(pre[k], pre[l]));
                        }
                    }
                }
                self.coalesce_blocks();
                proof {
                    let upd = pre.update(
                        i as int,
                        Block {
                            start: pre[i as int].start,
                            size: pre[i as int].size,
                            is_free: true,
                            charge: 0,
                        },
                    );
                    crate::coalesce::lemma_coalesce_props(upd);
                    // The owning block is unique: payload ranges are disjoint.
                    assert forall|k: int|
                        0 <= k < pre.len() && payload_contains(
                            #[trigger] pre[k],
                            pos as int,
                        ) implies dealloc_step(*old(self), *final(self), k) by {
                        if k != i {
                            assert(crate::block::blocks_disjoint(pre[k], pre[i as int]));
                            assert(false);
                        }
                    }
                }
            },
        }
    }
}

/// Whether the winner keeps enough room beyond the padded request for a
/// whole header plus at least the applied alignment of slack; only then is
/// it split.
pub open spec fn should_split(b: Block, size: usize, align: usize) -> bool {
    b.size >= size + padding_of(b, align) + HEADER_SIZE + eff_align(align)
}

/// What the winning block becomes: shrunk to the padded request if split,
/// consumed whole otherwise; allocated either way and charged the padded
/// request exactly.
pub open spec fn consumed_block(b: Block, size: usize, align: usize) -> Block {
    Block {
        start: b.start,
        size: if should_split(b, size, align) {
            (size + padding_of(b, align)) as usize
        } else {
            b.size
        },
        is_free: false,
        charge: (size + padding_of(b, align)) as usize,
    }
}

/// The free remainder block a split carves out of the winner's tail.
pub open spec fn remainder_block(b: Block, size: usize, align: usize) -> Block {
    Block {
        start: (b.start + HEADER_SIZE + size + padding_of(b, align)) as usize,
        size: (b.size - size - padding_of(b, align) - HEADER_SIZE) as usize,
        is_free: true,
        charge: 0,
    }
}

/// The directory right after the winner at `i` is consumed, before the
/// trailing coalescing pass.
pub open spec fn alloc_blocks_at(bs: Seq<Block>, i: int, size: usize, align: usize) -> Seq<Block> {
    if should_split(bs[i], size, align) {
        bs.update(i, consumed_block(bs[i], size, align)).insert(
            i + 1,
            remainder_block(bs[i], size, align),
        )
    } else {
        bs.update(i, consumed_block(bs[i], size, align))
    }
}

/// Bytes a successful allocation charges: the requested size plus the
/// alignment padding, split or not. A block consumed whole keeps capacity
/// beyond this charge; that slack stays out of the free pool until release
/// but is never billed as used.
pub open spec fn charged_of(b: Block, size: usize, align: usize) -> int {
    size + padding_of(b, align)
}

/// Relation between the states across a successful `alloc`: the best-fit
/// winner at `i` is consumed (split when worthwhile), the charge is the
/// requested size plus padding, a coalescing pass runs, and the returned
/// address is the winner's padded payload start, whose first `size` bytes
/// stay inside the consumed block's payload.
pub open spec fn alloc_ok_step(
    pre: LabByteAllocator,
    post: LabByteAllocator,
    size: usize,
    align: usize,
    i: int,
    addr: int,
) -> bool {
    &&& is_best_fit(pre.blocks@, size, align, i)
    &&& post.blocks@ == coalesce_spec(alloc_blocks_at(pre.blocks@, i, size, align))
    &&& post.used_bytes == pre.used_bytes + charged_of(pre.blocks@[i], size, align)
    &&& post.memory_size == pre.memory_size
    &&& post.memory_start == pre.memory_start
    &&& addr == aligned_addr_of(pre.blocks@[i], align)
    &&& data_addr_of(pre.blocks@[i]) <= addr
    &&& addr + size <= data_addr_of(pre.blocks@[i]) + charged_of(pre.blocks@[i], size, align)
}

/// The free block a newly registered span `[start, start + size)` becomes.
pub open spec fn span_block(start: usize, size: usize) -> Block {
    Block { start, size: (size - HEADER_SIZE) as usize, is_free: true, charge: 0 }
}

/// Whether the span `[start, start + size)` overlaps no block of `bs`.
pub open spec fn span_disjoint(bs: Seq<Block>, start: usize, size: usize) -> bool {
    forall|i: int|
        0 <= i < bs.len() ==> start + size <= (#[trigger] bs[i]).start || crate::block::block_end(
            bs[i],
        ) <= start
}

/// Relation between the states before and after a `dealloc` that found the
/// owning block at index `i`: the block is freed, the charge recorded for
/// its allocation (requested size plus padding) leaves the used count, and
/// a coalescing pass runs.
pub open spec fn dealloc_step(pre: LabByteAllocator, post: LabByteAllocator, i: int) -> bool {
    &&& post.blocks@ == coalesce_spec(
        pre.blocks@.update(
            i,
            Block {
                start: pre.blocks@[i].start,
                size: pre.blocks@[i].size,
                is_free: true,
                charge: 0,
            },
        ),
    )
    &&& post.used_bytes == pre.used_bytes - pre.blocks@[i].charge
    &&& post.memory_size == pre.memory_size
    &&& post.memory_start == pre.memory_start
}

/// The capacity of the largest free block of a directory.
pub open spec fn max_free(bs: Seq<Block>) -> int
    decreases bs.len(),
{
    if bs.len() == 0 {
        0
    } else {
        let m = max_free(bs.drop_last());
        if bs.last().is_free && bs.last().size > m {
            bs.last().size as int
        } else {
            m
        }
    }
}

} // verus!
