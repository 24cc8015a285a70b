use vstd::prelude::*;
use crate::alias_tree::{AliasTree, aliased_level, is_next_match, join_range, lemma_span_monotone, span};
use crate::lattice::NonZero;

verus! {

/// Set on every chunk until the current pass has visited it.
pub const FLAG_UNPROCESSED: u8 = 2;

/// Set on a chunk that needs writing.
pub const FLAG_DIRTY: u8 = 1;

/// Per-chunk dirty flags over one device, searchable for the next chunk
/// that still needs work.
pub struct ChunkTracker {
    chunk_count: usize,
    chunks: AliasTree<u8>,
}

impl ChunkTracker {
    /// The flags of each chunk.
    pub closed spec fn view(&self) -> Seq<u8> {
        self.chunks@
    }

    pub closed spec fn wf(&self) -> bool {
        &&& self.chunks.wf()
        &&& self.chunks@.len() == self.chunk_count
    }

    /// The aliased cell at height `height` that covers chunk `index`.
    pub open spec fn cell(&self, index: nat, height: nat) -> u8 {
        let lv = aliased_level(self@.len(), index, height);
        let first = ((index / span(lv)) * span(lv)) as int;
        join_range(self@, first, first + span(lv))
    }

    /// When every chunk has the same flags, so has every cell.
    pub proof fn lemma_uniform_cells(&self, v: u8, index: nat, height: nat)
        requires
            self.wf(),
            index < self@.len(),
            forall|i: int| 0 <= i < self@.len() ==> self@[i] == v,
        ensures
            self.cell(index, height) == v,
    {
        let n = self@.len();
        let lv = crate::alias_tree::aliased_level(n, index, height);
        let sp = span(lv);
        crate::alias_tree::lemma_span_positive(lv);
        crate::alias_tree::lemma_aliased_level_fits(n, index, height);
        let first = ((index / sp) * sp) as int;
        assert(0 <= (index / sp) * sp) by (nonlinear_arith)
            requires
                sp >= 1,
        ;
        let q = index / sp;
        assert((q + 1) * sp == q * sp + sp) by (nonlinear_arith);
        crate::alias_tree::lemma_join_range_constant(self@, first, first + sp, v);
    }

    /// A tracker of `chunk_count` chunks, none of them processed yet.
    pub fn new(chunk_count: usize) -> (r: Self)
        ensures
            r.wf(),
            r@ == Seq::new(chunk_count as nat, |i: int| FLAG_UNPROCESSED),
    {
        let chunks: AliasTree<u8> = AliasTree::new(chunk_count, FLAG_UNPROCESSED);
        ChunkTracker { chunk_count, chunks }
    }

    pub fn get_chunk_count(&self) -> (r: usize)
        requires
            self.wf(),
        ensures
            r == self@.len(),
    {
        self.chunk_count
    }

    /// The flags of chunk `index`.
    pub fn get_flags(&self, index: usize) -> (r: u8)
        requires
            self.wf(),
            index < self@.len(),
        ensures
            r == self@[index as int],
    {
        *self.chunks.get(index)
    }

    /// Mark chunk `index` as processed and clean.
    pub fn clear_chunk(&mut self, index: usize)
        requires
            old(self).wf(),
            index < old(self)@.len(),
        ensures
            final(self).wf(),
            final(self)@ == old(self)@.update(index as int, 0),
    {
        self.chunks.set(index, 0);
    }

    /// Mark chunk `index` as dirty, keeping its other flags.
    pub fn mark_chunk(&mut self, index: usize)
        requires
            old(self).wf(),
            index < old(self)@.len(),
        ensures
            final(self).wf(),
            final(self)@ == old(self)@.update(index as int, old(self)@[index as int] | FLAG_DIRTY),
    {
        self.chunks.or_mask(index, FLAG_DIRTY);
    }

    /// Mark chunks `start..end` as dirty; the part of the range past the
    /// last chunk is ignored.
    pub fn mark_chunks(&mut self, start: usize, end: usize)
        requires
            old(self).wf(),
        ensures
            final(self).wf(),
            final(self)@.len() == old(self)@.len(),
            forall|i: int| 0 <= i < old(self)@.len() ==> #[trigger] final(self)@[i] == if start <= i < end {
                old(self)@[i] | FLAG_DIRTY
            } else {
                old(self)@[i]
            },
    {
        let end = if end < self.chunk_count {
            end
        } else {
            self.chunk_count
        };
        let mut i: usize = start;
        while i < end
            invariant
                self.wf(),
                self@.len() == old(self)@.len(),
                end <= self@.len(),
                start <= i,
                forall|j: int| 0 <= j < old(self)@.len() ==> #[trigger] self@[j] == if start <= j < i && j < end {
                    old(self)@[j] | FLAG_DIRTY
                } else {
                    old(self)@[j]
                },
            decreases end - i,
        {
            let ghost before = self@;
            self.chunks.or_mask(i, FLAG_DIRTY);
            proof {
                assert forall|j: int| 0 <= j < old(self)@.len() implies #[trigger] self@[j] == if start <= j < i + 1 && j < end {
                    old(self)@[j] | FLAG_DIRTY
                } else {
                    old(self)@[j]
                } by {
                    if j != i {
                        assert(self@[j] == before[j]);
                    } else {
                        assert(before[j] == old(self)@[j]);
                    }
                }
            }
            i = i + 1;
        }
    }

    /// The first chunk at or after `start` with any flag set.
    pub fn find_next(&self, start: usize) -> (r: Option<usize>)
        requires
            self.wf(),
        ensures
            is_next_match(NonZero, self@, start as int, r),
            match r {
                Some(i) => start <= i < self@.len() && self@[i as int] != 0
                    && forall|j: int| start <= j < i ==> self@[j] == 0,
                None => forall|j: int| start <= j < self@.len() ==> self@[j] == 0,
            },
    {
        self.chunks.find_next(NonZero, start)
    }

    /// One aliased cell per aligned block of `2^height` chunks, in order.
    pub fn snapshot_level(&self, height: usize) -> (r: Vec<u8>)
        requires
            self.wf(),
        ensures
            self@.len() == 0 ==> r@.len() == 0,
            self@.len() > 0 ==> r@.len() * span(height as nat) >= self@.len()
                && (r@.len() - 1) * span(height as nat) < self@.len(),
            forall|i: int| 0 <= i < r@.len() ==> #[trigger] r@[i] == self.cell((i * span(height as nat)) as nat, height as nat),
    {
        let mut cells: Vec<u8> = Vec::new();
        let n = self.chunk_count;
        if n == 0 {
            return cells;
        }
        let factor = block_factor(height, n);
        let ghost f = span(height as nat);
        proof {
            crate::alias_tree::lemma_span_positive(height as nat);
        }
        let mut index: usize = 0;
        let mut first: usize = 0;
        while first < n
            invariant
                self.wf(),
                n == self@.len(),
                n > 0,
                f >= 1,
                f == span(height as nat),
                factor == if f <= n { f } else { n as nat },
                first < n ==> first == index * factor,
                index * factor >= first,
                index <= first,
                index == 0 || (index - 1) * f < n,
                first <= n,
                cells@.len() == index,
                forall|i: int| 0 <= i < index ==> #[trigger] cells@[i] == self.cell((i * f) as nat, height as nat),
            decreases n - first,
        {
            proof {
                assert(factor >= 1);
                if f > n {
                    assert(index == 0) by (nonlinear_arith)
                        requires
                            first == index * factor,
                            factor == n,
                            first < n,
                            index >= 0,
                    ;
                }
                assert(first == index * f);
            }
            let ghost old_cells = cells@;
            let v = *self.chunks.get_aliased(first, height);
            assert(v == self.cell(first as nat, height as nat));
            cells.push(v);
            proof {
                assert forall|i: int| 0 <= i < index + 1 implies #[trigger] cells@[i] == self.cell((i * f) as nat, height as nat) by {
                    if i < index {
                        assert(cells@[i] == old_cells[i]);
                    } else {
                        assert(i * f == first);
                    }
                }
            }
            if factor >= n - first {
                proof {
                    assert((index + 1) * factor == first + factor) by (nonlinear_arith)
                        requires
                            first == index * factor,
                    ;
                }
                first = n;
            } else {
                proof {
                    assert((index + 1) * factor == first + factor) by (nonlinear_arith)
                        requires
                            first == index * factor,
                    ;
                }
                first = first + factor;
            }
            index = index + 1;
        }
        proof {
            if f <= n {
                assert(index * f >= n);
            } else {
                assert(index * f >= n) by (nonlinear_arith)
                    requires
                        f > n,
                        index >= 1,
                ;
            }
        }
        cells
    }
}

/// The least height at which `chunk_count` chunks fit in `limit` cells,
/// each cell covering `2^height` chunks; `usize::MAX` when `limit` is zero
/// and there are chunks to show.
pub fn calculate_display_detail(chunk_count: usize, limit: usize) -> (r: usize)
    ensures
        limit == 0 && chunk_count > 0 ==> r == usize::MAX,
        limit > 0 || chunk_count == 0 ==> chunk_count <= limit * span(r as nat)
            && (r == 0 || chunk_count > limit * span((r - 1) as nat)),
{
    if chunk_count <= limit {
        proof {
            assert(span(0) == 1);
            assert(limit * 1 == limit) by (nonlinear_arith);
        }
        return 0;
    }
    if limit == 0 {
        return usize::MAX;
    }
    let mut height: usize = 0;
    let mut capacity: usize = limit;
    proof {
        assert(span(0) == 1);
        assert(limit * 1 == limit) by (nonlinear_arith);
    }
    while capacity < chunk_count
        invariant
            limit > 0,
            chunk_count > limit,
            capacity == limit * span(height as nat),
            height == 0 || chunk_count > limit * span((height - 1) as nat),
            height <= capacity,
        decreases chunk_count - capacity,
    {
        proof {
            crate::alias_tree::lemma_span_positive(height as nat);
            assert(capacity >= 1) by (nonlinear_arith)
                requires
                    capacity == limit * span(height as nat),
                    limit >= 1,
                    span(height as nat) >= 1,
            ;
            assert(span((height + 1) as nat) == 2 * span(height as nat));
            assert(limit * (2 * span(height as nat)) == 2 * (limit * span(height as nat))) by (nonlinear_arith);
        }
        if capacity > chunk_count / 2 {
            proof {
                assert(limit * span((height + 1) as nat) >= chunk_count);
            }
            return height + 1;
        }
        capacity = capacity * 2;
        height = height + 1;
    }
    height
}

/// How a progress cell is drawn, from its aliased flags.
#[derive(Clone, Copy, PartialEq, Eq, Structural, Debug)]
pub enum CellState {
    /// Processed and clean.
    Done,
    /// Dirty only.
    Dirty,
    /// Not yet processed only.
    Unprocessed,
    /// Both dirty and not yet processed.
    Both,
}

pub open spec fn cell_state_of(flags: u8) -> CellState {
    let f = flags & 3;
    if f == 0 {
        CellState::Done
    } else if f == FLAG_DIRTY {
        CellState::Dirty
    } else if f == FLAG_UNPROCESSED {
        CellState::Unprocessed
    } else {
        CellState::Both
    }
}

/// The class of a progress cell: done, dirty, unprocessed, or both.
pub fn classify(flags: u8) -> (r: CellState)
    ensures
        r == cell_state_of(flags),
{
    let f = flags & 3;
    if f == 0 {
        CellState::Done
    } else if f == FLAG_DIRTY {
        CellState::Dirty
    } else if f == FLAG_UNPROCESSED {
        CellState::Unprocessed
    } else {
        CellState::Both
    }
}

/// `2^height`, or `n` where that is larger.
pub fn block_factor(height: usize, n: usize) -> (r: usize)
    requires
        n > 0,
    ensures
        r == if span(height as nat) <= n { span(height as nat) } else { n as nat },
{
    let mut factor: usize = 1;
    let mut i: usize = 0;
    proof {
        assert(span(0) == 1);
    }
    while i < height && factor < n
        invariant
            i <= height,
            n > 0,
            (factor == span(i as nat) && span(i as nat) <= n) || (factor == n && span(i as nat) >= n),
        decreases height - i,
    {
        proof {
            assert(span((i + 1) as nat) == 2 * span(i as nat));
        }
        if factor > n / 2 {
            factor = n;
        } else {
            factor = factor * 2;
        }
        i = i + 1;
    }
    proof {
        lemma_span_monotone(i as nat, height as nat);
    }
    factor
}

} // verus!
