use vstd::prelude::*;
use vstd::arithmetic::div_mod::*;
use crate::lattice::{Condition, Semilattice};

verus! {

/// Number of nodes at height `l` over `n` leaves: each level halves the one
/// below, rounding down.
pub open spec fn level_size(n: nat, l: nat) -> nat
    decreases l,
{
    if l == 0 {
        n
    } else {
        level_size(n, (l - 1) as nat) / 2
    }
}

/// Number of leaves under a node at height `l`.
pub open spec fn span(l: nat) -> nat
    decreases l,
{
    if l == 0 {
        1
    } else {
        2 * span((l - 1) as nat)
    }
}

/// The join of `s[lo..hi]`, folded from the left (`hi > lo`).
pub open spec fn join_range<T: Semilattice>(s: Seq<T>, lo: int, hi: int) -> T
    decreases hi - lo,
{
    if hi - lo <= 1 {
        s[lo]
    } else {
        join_range(s, lo, hi - 1).spec_join(s[hi - 1])
    }
}

/// No element of `s[lo..hi]` is accepted by `c`.
pub open spec fn none_in<T: Semilattice, C: Condition<T>>(c: C, s: Seq<T>, lo: int, hi: int) -> bool {
    forall|j: int| lo <= j < hi ==> !c.accepts(#[trigger] s[j])
}

/// `r` is the first index at or after `start` whose element `c` accepts,
/// or `None` when there is no such index.
pub open spec fn is_next_match<T: Semilattice, C: Condition<T>>(c: C, s: Seq<T>, start: int, r: Option<usize>) -> bool {
    match r {
        Some(i) => start <= i < s.len() && c.accepts(s[i as int]) && none_in(c, s, start, i as int),
        None => none_in(c, s, start, s.len() as int),
    }
}

/// The aligned block of `span(l)` leaves that holds leaf `k` lies inside `n` leaves.
pub open spec fn block_fits(n: nat, k: nat, l: nat) -> bool {
    (k / span(l) + 1) * span(l) <= n
}

pub proof fn lemma_span_positive(l: nat)
    ensures
        span(l) >= 1,
    decreases l,
{
    if l > 0 {
        lemma_span_positive((l - 1) as nat);
    }
}

pub proof fn lemma_span_monotone(a: nat, b: nat)
    requires
        a <= b,
    ensures
        span(a) <= span(b),
    decreases b - a,
{
    if a < b {
        lemma_span_monotone(a, (b - 1) as nat);
        lemma_span_positive((b - 1) as nat);
    }
}

proof fn lemma_level_size_zero(n: nat, h: nat, l: nat)
    requires
        level_size(n, h) == 0,
        l >= h,
    ensures
        level_size(n, l) == 0,
    decreases l - h,
{
    if l > h {
        lemma_level_size_zero(n, h, (l - 1) as nat);
    }
}

proof fn lemma_level_size_div(n: nat, l: nat)
    ensures
        level_size(n, l) == n / span(l),
        span(l) >= 1,
    decreases l,
{
    lemma_span_positive(l);
    if l > 0 {
        lemma_level_size_div(n, (l - 1) as nat);
        lemma_span_positive((l - 1) as nat);
        let p = span((l - 1) as nat) as int;
        lemma_div_denominator(n as int, p, 2);
        assert(p * 2 == span(l));
        assert(level_size(n, l) == (n as int / p) / 2);
        assert((n as int / p) / 2 == n as int / (p * 2));
        assert(n as int / (p * 2) == n as int / (span(l) as int));
    } else {
        assert(n as int / 1 == n as int) by (nonlinear_arith);
    }
}

proof fn lemma_block_in_range(n: nat, l: nat, k: nat)
    requires
        k < level_size(n, l),
    ensures
        (k + 1) * span(l) <= n,
{
    lemma_level_size_div(n, l);
    let s = span(l) as int;
    lemma_fundamental_div_mod(n as int, s);
    lemma_mod_pos_bound(n as int, s);
    assert((k + 1) * s <= (n as int / s) * s) by (nonlinear_arith)
        requires
            k + 1 <= n as int / s,
            s >= 1,
    ;
}

proof fn lemma_mul_double(a: int, s: int)
    ensures
        a * (2 * s) == (2 * a) * s,
        (a + 1) * (2 * s) == (2 * a + 2) * s,
{
    assert(a * (2 * s) == (2 * a) * s) by (nonlinear_arith);
    assert((a + 1) * (2 * s) == (2 * a + 2) * s) by (nonlinear_arith);
}

/// The node at height `l + 1` above leaf `k` is the parent of the one at height `l`.
proof fn lemma_index_up(k: nat, l: nat)
    ensures
        (k / span(l)) / 2 == k / span(l + 1),
        span(l + 1) == 2 * span(l),
        span(l) >= 1,
{
    lemma_span_positive(l);
    assert(span(l + 1) == 2 * span(l));
    lemma_div_denominator(k as int, span(l) as int, 2);
    assert(span(l) as int * 2 == span(l + 1) as int);
}

/// A node exists at height `l` above leaf `k` exactly when its block fits.
proof fn lemma_fits_iff(n: nat, k: nat, l: nat)
    ensures
        (k / span(l) < level_size(n, l)) == block_fits(n, k, l),
{
    lemma_level_size_div(n, l);
    let s = span(l) as int;
    let x = k as int / s;
    if x < level_size(n, l) {
        lemma_block_in_range(n, l, x as nat);
    }
    if block_fits(n, k, l) {
        lemma_div_is_ordered((x + 1) * s, n as int, s);
        lemma_div_multiples_vanish(x + 1, s);
    }
}

proof fn lemma_fits_monotone(n: nat, k: nat, a: nat, b: nat)
    requires
        a <= b,
        block_fits(n, k, b),
    ensures
        block_fits(n, k, a),
    decreases b - a,
{
    if a < b {
        let l = (b - 1) as nat;
        lemma_index_up(k, l);
        let s = span(l) as int;
        let x = k as int / s;
        let q = x / 2;
        assert(q == k as int / span(b) as int);
        assert(x <= 2 * q + 1);
        lemma_mul_double(q, s);
        assert((x + 1) * s <= (2 * q + 2) * s) by (nonlinear_arith)
            requires
                x + 1 <= 2 * q + 2,
                s >= 1,
        ;
        lemma_fits_monotone(n, k, a, l);
    }
}

/// The largest height `l <= h` whose block above leaf `k` fits in `n` leaves.
pub open spec fn aliased_level(n: nat, k: nat, h: nat) -> nat
    decreases h,
{
    if h == 0 || block_fits(n, k, h) {
        h
    } else {
        aliased_level(n, k, (h - 1) as nat)
    }
}

/// The aliased block of a leaf always fits.
pub proof fn lemma_aliased_level_fits(n: nat, k: nat, h: nat)
    requires
        k < n,
    ensures
        block_fits(n, k, aliased_level(n, k, h)),
        aliased_level(n, k, h) <= h,
    decreases h,
{
    if h == 0 {
        assert(span(0) == 1);
        assert(k / 1 == k) by (nonlinear_arith);
        assert((k + 1) * 1 == k + 1) by (nonlinear_arith);
    } else if !block_fits(n, k, h) {
        lemma_aliased_level_fits(n, k, (h - 1) as nat);
    }
}

proof fn lemma_aliased_level(n: nat, k: nat, h: nat, lv: nat)
    requires
        lv <= h,
        block_fits(n, k, lv),
        lv == h || !block_fits(n, k, lv + 1),
    ensures
        aliased_level(n, k, h) == lv,
    decreases h,
{
    if h > lv {
        if block_fits(n, k, h) {
            lemma_fits_monotone(n, k, lv + 1, h);
        }
        lemma_aliased_level(n, k, (h - 1) as nat, lv);
    }
}

proof fn lemma_join_range_split<T: Semilattice>(s: Seq<T>, lo: int, mid: int, hi: int)
    requires
        lo < mid < hi,
    ensures
        join_range(s, lo, mid).spec_join(join_range(s, mid, hi)) == join_range(s, lo, hi),
    decreases hi - mid,
{
    if hi - mid > 1 {
        lemma_join_range_split(s, lo, mid, hi - 1);
        T::lemma_join_associative(join_range(s, lo, mid), join_range(s, mid, hi - 1), s[hi - 1]);
    }
}

/// The join of a run of equal values is that value.
pub proof fn lemma_join_range_constant<T: Semilattice>(s: Seq<T>, lo: int, hi: int, v: T)
    requires
        0 <= lo < hi <= s.len(),
        forall|i: int| lo <= i < hi ==> s[i] == v,
    ensures
        join_range(s, lo, hi) == v,
    decreases hi - lo,
{
    if hi - lo > 1 {
        lemma_join_range_constant(s, lo, hi - 1, v);
        T::lemma_join_idempotent(v);
    }
}

/// A hierarchical bitmap: level 0 holds the leaves, and each node above is
/// the join of the two nodes beneath it. A level of odd length leaves its
/// last node without a parent (a spill).
pub struct AliasTree<T> {
    levels: Vec<Vec<T>>,
}

impl<T: Semilattice> AliasTree<T> {
    /// The leaves.
    pub closed spec fn view(&self) -> Seq<T> {
        if self.levels.len() == 0 {
            Seq::empty()
        } else {
            self.levels[0]@
        }
    }

    pub closed spec fn node(&self, l: int, k: int) -> T {
        self.levels[l]@[k]
    }

    pub closed spec fn height(&self) -> nat {
        self.levels.len() as nat
    }

    /// A tree without leaves has no levels at all.
    pub proof fn lemma_empty_tree_has_no_levels(&self)
        requires
            self.wf(),
            self@.len() == 0,
        ensures
            self.height() == 0,
    {
        if self.height() > 0 {
            assert(self.levels[0]@.len() == level_size(0, 0));
        }
    }

    /// In a tree of one leaf, a search from that leaf finds it exactly when
    /// the condition accepts it.
    pub proof fn lemma_single_leaf_search<C: Condition<T>>(&self, c: C, r: Option<usize>)
        requires
            self.wf(),
            self@.len() == 1,
            is_next_match(c, self@, 0, r),
        ensures
            (r == Some(0usize)) == c.accepts(self@[0]),
    {
    }

    /// Every node is the join of the leaves of its aligned block.
    pub proof fn lemma_node_is_join_of_block(&self, l: int, k: int)
        requires
            self.wf(),
            0 <= l < self.height(),
            0 <= k < level_size(self@.len(), l as nat),
        ensures
            (k + 1) * span(l as nat) <= self@.len(),
            self.node(l, k) == join_range(self@, k * span(l as nat), (k + 1) * span(l as nat)),
        decreases l,
    {
        lemma_block_in_range(self@.len(), l as nat, k as nat);
        lemma_span_positive(l as nat);
        if l > 0 {
            let s = span((l - 1) as nat) as int;
            assert(span(l as nat) == 2 * s);
            lemma_mul_double(k, s);
            assert(self.node(l, k) == self.node(l - 1, 2 * k).spec_join(self.node(l - 1, 2 * k + 1)));
            self.lemma_node_is_join_of_block(l - 1, 2 * k);
            self.lemma_node_is_join_of_block(l - 1, 2 * k + 1);
            assert((2 * k + 1) * s == 2 * k * s + s) by (nonlinear_arith);
            assert((2 * k + 2) * s == 2 * k * s + 2 * s) by (nonlinear_arith);
            assert(k * span(l as nat) == 2 * k * s);
            assert((k + 1) * span(l as nat) == (2 * k + 2) * s);
            lemma_join_range_split(self@, 2 * k * s, (2 * k + 1) * s, (2 * k + 2) * s);
        } else {
            assert(span(0) == 1);
            assert(k * 1 == k && (k + 1) * 1 == k + 1) by (nonlinear_arith);
            assert(self.node(0, k) == self@[k]);
        }
    }

    /// A node that `c` rejects has no accepted leaf in its block.
    proof fn lemma_rejected_block<C: Condition<T>>(&self, c: C, l: int, k: int)
        requires
            self.wf(),
            0 <= l < self.height(),
            0 <= k < level_size(self@.len(), l as nat),
            !c.accepts(self.node(l, k)),
        ensures
            (k + 1) * span(l as nat) <= self@.len(),
            none_in(c, self@, k * span(l as nat), (k + 1) * span(l as nat)),
        decreases l,
    {
        lemma_block_in_range(self@.len(), l as nat, k as nat);
        if l > 0 {
            let s = span((l - 1) as nat) as int;
            assert(span(l as nat) == 2 * s);
            lemma_mul_double(k, s);
            assert(self.node(l, k) == self.node(l - 1, 2 * k).spec_join(self.node(l - 1, 2 * k + 1)));
            c.lemma_accepts_join(self.node(l - 1, 2 * k), self.node(l - 1, 2 * k + 1));
            self.lemma_rejected_block(c, l - 1, 2 * k);
            self.lemma_rejected_block(c, l - 1, 2 * k + 1);
            assert((2 * k + 1) * s == 2 * k * s + s) by (nonlinear_arith);
            assert(k * span(l as nat) == 2 * k * s);
            assert((k + 1) * span(l as nat) == (2 * k + 2) * s);
        } else {
            assert(span(0) == 1);
            assert(k * 1 == k && (k + 1) * 1 == k + 1) by (nonlinear_arith);
            assert(self.node(0, k) == self@[k]);
        }
    }

    /// The node at height `height` above leaf `index`, or the highest node
    /// below it whose block fits when that one would reach past the end.
    fn to_level_and_index(&self, index: usize, height: usize) -> (r: (usize, usize))
        requires
            self.wf(),
            index < self@.len(),
        ensures
            r.0 == aliased_level(self@.len(), index as nat, height as nat),
            r.0 < self.height(),
            r.1 == index as nat / span(r.0 as nat),
            r.1 < level_size(self@.len(), r.0 as nat),
    {
        let ghost n = self@.len();
        let mut index_now = index;
        let mut accepted_level: usize = 0;
        proof {
            assert(span(0) == 1);
            assert(index as int / 1 == index as int) by (nonlinear_arith);
            lemma_fits_iff(n, index as nat, 0);
        }
        while accepted_level < height
            invariant
                self.wf(),
                n == self@.len(),
                accepted_level <= height,
                accepted_level < self.height(),
                index < n,
                index_now == index as nat / span(accepted_level as nat),
                index_now < level_size(n, accepted_level as nat),
                block_fits(n, index as nat, accepted_level as nat),
            ensures
                accepted_level == height || !block_fits(n, index as nat, (accepted_level + 1) as nat),
            decreases height - accepted_level,
        {
            let l = accepted_level + 1;
            let coarse_index = index_now / 2;
            proof {
                lemma_index_up(index as nat, accepted_level as nat);
                lemma_fits_iff(n, index as nat, l as nat);
                if l >= self.height() {
                    lemma_level_size_zero(n, self.height(), l as nat);
                }
            }
            if l >= self.levels.len() || coarse_index >= self.levels[l].len() {
                break;
            }
            accepted_level = l;
            index_now = coarse_index;
        }
        proof {
            lemma_aliased_level(n, index as nat, height as nat, accepted_level as nat);
        }
        (accepted_level, index_now)
    }

    /// The join of the leaves in the aligned block of `2^height` leaves that
    /// holds `index`; where that block reaches past the last leaf, the
    /// largest aligned block that fits is taken instead.
    pub fn get_aliased(&self, index: usize, height: usize) -> (r: &T)
        requires
            self.wf(),
            index < self@.len(),
        ensures
            ({
                let lv = aliased_level(self@.len(), index as nat, height as nat);
                let first = ((index as nat / span(lv)) * span(lv)) as int;
                &&& first + span(lv) <= self@.len()
                &&& *r == join_range(self@, first, first + span(lv))
            }),
    {
        let (level, coarse_index) = self.to_level_and_index(index, height);
        proof {
            self.lemma_node_is_join_of_block(level as int, coarse_index as int);
            assert((coarse_index + 1) * span(level as nat) == coarse_index * span(level as nat) + span(level as nat)) by (nonlinear_arith);
        }
        &self.levels[level][coarse_index]
    }

    /// The smallest index `i >= start` whose leaf `condition` accepts.
    pub fn find_next<C: Condition<T>>(&self, condition: C, start: usize) -> (r: Option<usize>)
        requires
            self.wf(),
        ensures
            is_next_match(condition, self@, start as int, r),
    {
        let ghost n = self@.len();
        if start >= self.len() {
            return None;
        }
        let mut level: usize = 0;
        let mut index: usize = start;
        if condition.test(&self.levels[0][index]) {
            return Some(index);
        }
        proof {
            assert(span(0) == 1);
            assert((start + 1) * 1 == start + 1) by (nonlinear_arith);
        }
        // Climb until a node to the right of everything seen so far matches.
        loop
            invariant_except_break
                level < self.height(),
                index < level_size(n, level as nat),
                start < (index + 1) * span(level as nat),
                none_in(condition, self@, start as int, (index + 1) * span(level as nat)),
            invariant
                self.wf(),
                n == self@.len(),
            ensures
                level < self.height(),
                index < level_size(n, level as nat),
                condition.accepts(self.node(level as int, index as int)),
                start <= index * span(level as nat),
                none_in(condition, self@, start as int, index * span(level as nat)),
            decreases self.height() - level,
        {
            proof {
                lemma_span_positive(level as nat);
            }
            if index == self.levels[level].len() - 1 {
                // Nothing is left in this tree: try the spill trees, from
                // the highest down.
                index = index + 1;
                loop
                    invariant_except_break
                        level < self.height(),
                        index == level_size(n, level as nat),
                        start < index * span(level as nat),
                        none_in(condition, self@, start as int, index * span(level as nat)),
                    invariant
                        self.wf(),
                        n == self@.len(),
                    ensures
                        level < self.height(),
                        index < level_size(n, level as nat),
                        condition.accepts(self.node(level as int, index as int)),
                        start <= index * span(level as nat),
                        none_in(condition, self@, start as int, index * span(level as nat)),
                    decreases level,
                {
                    if level == 0 {
                        proof {
                            assert(span(0) == 1);
                            assert(index * 1 == index) by (nonlinear_arith);
                        }
                        return None;
                    }
                    proof {
                        lemma_index_up(0, (level - 1) as nat);
                        lemma_mul_double(index as int, span((level - 1) as nat) as int);
                        assert(span(level as nat) == 2 * span((level - 1) as nat));
                        assert(level_size(n, level as nat) == level_size(n, (level - 1) as nat) / 2);
                        assert(self.levels[level - 1]@.len() == level_size(n, (level - 1) as nat));
                    }
                    level = level - 1;
                    let lower_len = self.levels[level].len();
                    index = index * 2;
                    if index < lower_len {
                        if condition.test(&self.levels[level][index]) {
                            break;
                        }
                        proof {
                            self.lemma_rejected_block(condition, level as int, index as int);
                            let sp = span(level as nat) as int;
                            assert((index + 1) * sp == index * sp + sp) by (nonlinear_arith);
                        }
                        index = index + 1;
                    }
                }
                break;
            } else if index % 2 == 0 {
                if condition.test(&self.levels[level][index + 1]) {
                    index = index + 1;
                    break;
                }
                proof {
                    self.lemma_rejected_block(condition, level as int, index as int + 1);
                    lemma_index_up(0, level as nat);
                    let sp = span(level as nat) as int;
                    let h = index as int / 2;
                    lemma_mul_double(h, sp);
                    assert(index == 2 * h);
                    assert((index + 2) * sp == (index + 1) * sp + sp) by (nonlinear_arith);
                    assert(level_size(n, (level + 1) as nat) == level_size(n, level as nat) / 2);
                    if level + 1 >= self.height() {
                        lemma_level_size_zero(n, self.height(), (level + 1) as nat);
                    }
                }
                index = index / 2;
                level = level + 1;
            } else {
                proof {
                    lemma_index_up(0, level as nat);
                    let sp = span(level as nat) as int;
                    let h = index as int / 2;
                    lemma_mul_double(h, sp);
                    assert(index == 2 * h + 1);
                    assert(level_size(n, (level + 1) as nat) == level_size(n, level as nat) / 2);
                    if level + 1 >= self.height() {
                        lemma_level_size_zero(n, self.height(), (level + 1) as nat);
                    }
                }
                index = index / 2;
                level = level + 1;
            }
        }
        // Descend to the leftmost matching leaf.
        while level > 0
            invariant
                self.wf(),
                n == self@.len(),
                level < self.height(),
                index < level_size(n, level as nat),
                condition.accepts(self.node(level as int, index as int)),
                start <= index * span(level as nat),
                none_in(condition, self@, start as int, index * span(level as nat)),
            decreases level,
        {
            proof {
                lemma_index_up(0, (level - 1) as nat);
                lemma_mul_double(index as int, span((level - 1) as nat) as int);
                assert(span(level as nat) == 2 * span((level - 1) as nat));
                assert(level_size(n, level as nat) == level_size(n, (level - 1) as nat) / 2);
                assert(self.levels[level - 1]@.len() == level_size(n, (level - 1) as nat));
                assert(self.node(level as int, index as int) == self.node(level - 1, 2 * index).spec_join(
                    self.node(level - 1, 2 * index + 1)));
                condition.lemma_accepts_join(self.node(level - 1, 2 * index), self.node(level - 1, 2 * index + 1));
            }
            level = level - 1;
            let lower_len = self.levels[level].len();
            index = index * 2;
            if !condition.test(&self.levels[level][index]) {
                proof {
                    self.lemma_rejected_block(condition, level as int, index as int);
                    let sp = span(level as nat) as int;
                    assert((index + 1) * sp == index * sp + sp) by (nonlinear_arith);
                }
                index = index + 1;
            }
        }
        proof {
            assert(span(0) == 1);
            assert(index * 1 == index) by (nonlinear_arith);
            assert(self.node(0, index as int) == self@[index as int]);
        }
        Some(index)
    }

    /// Node `(l, k)` may disagree with its children; every other node is
    /// the join of its two children.
    closed spec fn wf_except(&self, bl: int, bk: int) -> bool {
        let n = self@.len();
        &&& level_size(n, self.height()) == 0
        &&& forall|l: int| 0 <= l < self.height() ==> #[trigger] self.levels[l]@.len() == level_size(n, l as nat)
            && level_size(n, l as nat) > 0
        &&& forall|l: int, k: int|
            1 <= l < self.height() && 0 <= k < self.levels[l]@.len() && !(l == bl && k == bk)
                ==> #[trigger] self.node(l, k)
                == self.node(l - 1, 2 * k).spec_join(self.node(l - 1, 2 * k + 1))
    }

    /// A tree of `size` leaves, all equal to `init`.
    pub fn new(size: usize, init: T) -> (r: Self)
        ensures
            r.wf(),
            r@ == Seq::new(size as nat, |i: int| init),
            forall|l: nat| (l < r.height()) == (#[trigger] level_size(size as nat, l) > 0),
    {
        let mut levels: Vec<Vec<T>> = Vec::new();
        let mut level_size_now: usize = size;
        let mut level_init = init;
        proof {
            T::lemma_join_idempotent(init);
        }
        while level_size_now > 0
            invariant
                level_init == init,
                init.spec_join(init) == init,
                level_size_now == level_size(size as nat, levels.len() as nat),
                forall|l: int| 0 <= l < levels.len() ==> #[trigger] levels[l]@.len() == level_size(size as nat, l as nat)
                    && level_size(size as nat, l as nat) > 0,
                forall|l: int, k: int| 0 <= l < levels.len() && 0 <= k < levels[l]@.len() ==> #[trigger] levels[l]@[k] == init,
            decreases level_size_now,
        {
            let mut level: Vec<T> = Vec::with_capacity(level_size_now);
            let mut i: usize = 0;
            while i < level_size_now
                invariant
                    i <= level_size_now,
                    level@.len() == i,
                    forall|k: int| 0 <= k < i ==> #[trigger] level@[k] == level_init,
                decreases level_size_now - i,
            {
                level.push(level_init);
                i = i + 1;
            }
            levels.push(level);
            level_init = level_init.join(&level_init);
            level_size_now = level_size_now / 2;
        }
        let r = AliasTree { levels };
        proof {
            if r.height() > 0 {
                assert(r.levels[0]@.len() == size);
            }
            assert(r@ =~= Seq::new(size as nat, |i: int| init));
            assert forall|l: nat| (l < r.height()) == (#[trigger] level_size(size as nat, l) > 0) by {
                if l >= r.height() {
                    lemma_level_size_zero(size as nat, r.height(), l);
                } else {
                    assert(r.levels[l as int]@.len() == level_size(size as nat, l));
                }
            }
        }
        r
    }

    /// Number of levels, leaves included.
    pub fn level_count(&self) -> (r: usize)
        ensures
            r == self.height(),
    {
        self.levels.len()
    }

    /// Number of nodes at height `level`.
    pub fn level_len(&self, level: usize) -> (r: usize)
        requires
            self.wf(),
            level < self.height(),
        ensures
            r == level_size(self@.len(), level as nat),
    {
        self.levels[level].len()
    }

    /// Number of leaves.
    pub fn len(&self) -> (r: usize)
        requires
            self.wf(),
        ensures
            r == self@.len(),
    {
        if self.levels.len() == 0 {
            0
        } else {
            self.levels[0].len()
        }
    }

    fn merge_up(&mut self, index: usize)
        requires
            old(self).height() > 0,
            index < old(self)@.len(),
            old(self).wf_except(1, index as int / 2),
        ensures
            final(self).wf(),
            final(self)@ == old(self)@,
    {
        let mut index = index;
        let mut l: usize = 1;
        while l < self.levels.len()
            invariant
                1 <= l <= self.height(),
                self.height() == old(self).height(),
                self@ == old(self)@,
                index < self.levels[l - 1]@.len(),
                self.wf_except(l as int, index as int / 2),
            decreases self.height() - l,
        {
            let coarse_index = index / 2;
            if coarse_index >= self.levels[l].len() {
                return;
            }
            let sibling = if index % 2 == 0 { index + 1 } else { index - 1 };
            let merged = self.levels[l - 1][index].join(&self.levels[l - 1][sibling]);
            proof {
                T::lemma_join_commutative(self.node(l - 1, index as int), self.node(l - 1, sibling as int));
            }
            if merged.same(&self.levels[l][coarse_index]) {
                return;
            }
            let ghost before = *self;
            self.levels[l][coarse_index] = merged;
            proof {
                assert forall|ll: int| 0 <= ll < self.height() implies #[trigger] self.levels[ll]@.len() == before.levels[ll]@.len() by {}
                assert(self.levels[0]@ == before.levels[0]@);
                assert forall|ll: int, k: int|
                    1 <= ll < self.height() && 0 <= k < self.levels[ll]@.len() && !(ll == l + 1 && k == coarse_index / 2)
                    implies #[trigger] self.node(ll, k)
                    == self.node(ll - 1, 2 * k).spec_join(self.node(ll - 1, 2 * k + 1)) by {
                    assert(before.node(ll, k) == before.node(ll - 1, 2 * k).spec_join(before.node(ll - 1, 2 * k + 1)) || (ll == l && k == coarse_index));
                }
                if l == 1 {
                    assert(self@ =~= before@);
                }
            }
            index = coarse_index;
            l = l + 1;
        }
    }

    /// The leaf at `index`.
    pub fn get(&self, index: usize) -> (r: &T)
        requires
            self.wf(),
            index < self@.len(),
        ensures
            *r == self@[index as int],
    {
        &self.levels[0][index]
    }

    /// Replace the leaf at `index` with `value`.
    pub fn set(&mut self, index: usize, value: T)
        requires
            old(self).wf(),
            index < old(self)@.len(),
        ensures
            final(self).wf(),
            final(self)@ == old(self)@.update(index as int, value),
    {
        self.set_leaf(index, value);
    }

    /// Join `value` into the leaf at `index`; returns the new leaf.
    pub fn or_mask(&mut self, index: usize, value: T) -> (r: T)
        requires
            old(self).wf(),
            index < old(self)@.len(),
        ensures
            final(self).wf(),
            r == old(self)@[index as int].spec_join(value),
            final(self)@ == old(self)@.update(index as int, r),
    {
        let v = self.levels[0][index].join(&value);
        self.set_leaf(index, v);
        v
    }

    /// Intersect the leaf at `index` with `value`; returns the new leaf.
    pub fn and_mask(&mut self, index: usize, value: T) -> (r: T)
        requires
            old(self).wf(),
            index < old(self)@.len(),
        ensures
            final(self).wf(),
            r == old(self)@[index as int].spec_meet(value),
            final(self)@ == old(self)@.update(index as int, r),
    {
        let v = self.levels[0][index].meet(&value);
        self.set_leaf(index, v);
        v
    }

    fn set_leaf(&mut self, index: usize, value: T)
        requires
            old(self).wf(),
            index < old(self)@.len(),
        ensures
            final(self).wf(),
            final(self)@ == old(self)@.update(index as int, value),
    {
        let ghost before = *self;
        self.levels[0][index] = value;
        proof {
            assert(self@ =~= before@.update(index as int, value));
            assert forall|ll: int, k: int|
                1 <= ll < self.height() && 0 <= k < self.levels[ll]@.len() && !(ll == 1 && k == index as int / 2)
                implies #[trigger] self.node(ll, k)
                == self.node(ll - 1, 2 * k).spec_join(self.node(ll - 1, 2 * k + 1)) by {
                assert(before.node(ll, k) == before.node(ll - 1, 2 * k).spec_join(before.node(ll - 1, 2 * k + 1)));
            }
        }
        self.merge_up(index);
    }

    pub closed spec fn wf(&self) -> bool {
        let n = self@.len();
        &&& level_size(n, self.height()) == 0
        &&& forall|l: int| 0 <= l < self.height() ==> #[trigger] self.levels[l]@.len() == level_size(n, l as nat)
            && level_size(n, l as nat) > 0
        &&& forall|l: int, k: int|
            1 <= l < self.height() && 0 <= k < self.levels[l]@.len() ==> #[trigger] self.node(l, k)
                == self.node(l - 1, 2 * k).spec_join(self.node(l - 1, 2 * k + 1))
    }
}

} // verus!
