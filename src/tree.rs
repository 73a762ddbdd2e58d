use vstd::prelude::*;

use crate::sums::{lemma_fit_subrange, lemma_sum_concat, lemma_sum_zeros, lemma_zeros_fit, seq_sum, sums_fit_i32, zeros};

verus! {

/// Why a call on a segment tree was refused.
#[derive(Debug, Clone, Copy, PartialEq, Eq)]
pub enum SegTreeError {
    /// A tree was asked for over an empty or inverted interval.
    InvalidRange,
    /// An update named an index outside the tree's interval.
    IndexOutOfRange,
    /// A query named an empty or inverted range, or one that leaves the tree's interval.
    InvalidQueryRange,
}

/// A node of a segment tree over the half-open index interval `range`.
///
/// A leaf covers one index and holds its value; an internal node splits its
/// interval at `mid` between its two children and holds the sum of their values.
pub struct SegTree {
    val: i32,
    range: (usize, usize),
    mid: usize,
    l_node: Option<Box<SegTree>>,
    r_node: Option<Box<SegTree>>,
}

impl View for SegTree {
    type V = Seq<int>;

    /// The values of the covered indices, in index order: entry `k` is the
    /// value of index `lo + k`.
    closed spec fn view(&self) -> Seq<int> {
        self.leaves()
    }
}

impl SegTree {
    /// First index covered.
    pub closed spec fn lo(&self) -> int {
        self.range.0 as int
    }

    /// One past the last index covered.
    pub closed spec fn hi(&self) -> int {
        self.range.1 as int
    }

    /// The values held in the leaves below this node, left to right.
    closed spec fn leaves(&self) -> Seq<int>
        decreases self,
    {
        if self.l_node is Some && self.r_node is Some {
            self.l_node->0.leaves() + self.r_node->0.leaves()
        } else {
            seq![self.val as int]
        }
    }

    /// The shape fixed at construction, and the sum rule: a node of width one
    /// is a leaf; every wider node splits at the midpoint (rounded down) into
    /// two children that cover its two halves, and its value is the sum of
    /// their values.
    pub closed spec fn consistent(&self) -> bool
        decreases self,
    {
        &&& self.range.0 < self.range.1
        &&& if self.range.1 - self.range.0 == 1 {
            self.l_node is None && self.r_node is None
        } else {
            &&& self.mid == self.range.0 + (self.range.1 - self.range.0) / 2
            &&& self.l_node is Some
            &&& self.r_node is Some
            &&& self.l_node->0.range == (self.range.0, self.mid)
            &&& self.r_node->0.range == (self.mid, self.range.1)
            &&& self.val == self.l_node->0.val + self.r_node->0.val
            &&& self.l_node->0.consistent()
            &&& self.r_node->0.consistent()
        }
    }

    /// A usable tree: consistent, and every range sum of its values fits in
    /// an `i32`, so that every query has an answer of that type.
    pub closed spec fn wf(&self) -> bool {
        self.consistent() && sums_fit_i32(self@)
    }

    /// A consistent node covers `hi - lo` values and holds their sum.
    proof fn lemma_node_facts(&self)
        requires
            self.consistent(),
        ensures
            self@.len() == self.hi() - self.lo(),
            self.val == seq_sum(self@),
        decreases self,
    {
        if self.range.1 - self.range.0 == 1 {
            assert(self@.drop_last() =~= Seq::<int>::empty());
            assert(seq_sum(Seq::<int>::empty()) == 0);
        } else {
            let l = *self.l_node->0;
            let r = *self.r_node->0;
            l.lemma_node_facts();
            r.lemma_node_facts();
            lemma_sum_concat(l@, r@);
        }
    }

    /// A usable tree has one value for each index it covers.
    pub proof fn lemma_view_len(&self)
        requires
            self.wf(),
        ensures
            self@.len() == self.hi() - self.lo(),
            self.lo() < self.hi(),
    {
        self.lemma_node_facts();
    }

    /// An internal node's values are its children's values side by side, and
    /// both children are usable.
    proof fn lemma_split(&self)
        requires
            self.wf(),
            self.range.1 - self.range.0 > 1,
        ensures
            self.l_node is Some,
            self.r_node is Some,
            self.l_node->0.wf(),
            self.r_node->0.wf(),
            self@ == self.l_node->0@ + self.r_node->0@,
            self.l_node->0@ == self@.subrange(0, self.mid - self.lo()),
            self.r_node->0@ == self@.subrange(self.mid - self.lo(), self@.len() as int),
            self.l_node->0@.len() == self.mid - self.lo(),
            self.lo() < self.mid < self.hi(),
    {
        let l = *self.l_node->0;
        let r = *self.r_node->0;
        l.lemma_node_facts();
        r.lemma_node_facts();
        assert(self@ == l@ + r@);
        assert(l@ =~= self@.subrange(0, self.mid - self.lo()));
        assert(r@ =~= self@.subrange(self.mid - self.lo(), self@.len() as int));
        lemma_fit_subrange(self@, 0, self.mid - self.lo());
        lemma_fit_subrange(self@, self.mid - self.lo(), self@.len() as int);
    }

    /// Builds the node over `[l_bound, r_bound)` with every value 0.
    fn build(l_bound: usize, r_bound: usize) -> (t: SegTree)
        requires
            l_bound < r_bound,
        ensures
            t.consistent(),
            t.range == (l_bound, r_bound),
            t@ == zeros((r_bound - l_bound) as nat),
        decreases r_bound - l_bound,
    {
        if r_bound - l_bound == 1 {
            let t = SegTree { val: 0, range: (l_bound, r_bound), mid: l_bound, l_node: None, r_node: None };
            assert(t@ =~= zeros(1));
            return t;
        }
        let m: usize = l_bound + (r_bound - l_bound) / 2;
        let left = SegTree::build(l_bound, m);
        let right = SegTree::build(m, r_bound);
        proof {
            lemma_sum_zeros((m - l_bound) as nat);
            lemma_sum_zeros((r_bound - m) as nat);
            left.lemma_node_facts();
            right.lemma_node_facts();
        }
        let t = SegTree {
            val: 0,
            range: (l_bound, r_bound),
            mid: m,
            l_node: Some(Box::new(left)),
            r_node: Some(Box::new(right)),
        };
        assert(t@ =~= zeros((r_bound - l_bound) as nat));
        t
    }

    /// Creates a tree over `[l, r)` with every value 0, or fails with
    /// `InvalidRange` when the interval is empty or inverted.
    pub fn new(l: usize, r: usize) -> (res: Result<SegTree, SegTreeError>)
        ensures
            l < r ==> (res matches Ok(t) && t.wf() && t.lo() == l && t.hi() == r && t@ == zeros(
                (r - l) as nat,
            )),
            l >= r ==> res == Err::<SegTree, SegTreeError>(SegTreeError::InvalidRange),
    {
        if l >= r {
            return Err(SegTreeError::InvalidRange);
        }
        let t = SegTree::build(l, r);
        proof {
            lemma_zeros_fit((r - l) as nat);
        }
        Ok(t)
    }

    /// Sets the value of index `target_pos` to `value` and re-sums every node
    /// on the way back up; fails with `IndexOutOfRange`, changing nothing,
    /// when the index lies outside `[lo, hi)`.
    ///
    /// The new values must keep every range sum within `i32`
    /// (`lemma_bounded_values_fit` shows this for values of small magnitude).
    /// Afterwards every internal node again holds the sum of its children.
    pub fn revise(&mut self, target_pos: usize, value: i32) -> (res: Result<(), SegTreeError>)
        requires
            old(self).wf(),
            old(self).lo() <= target_pos < old(self).hi() ==> sums_fit_i32(
                old(self)@.update(target_pos - old(self).lo(), value as int),
            ),
        ensures
            final(self).wf(),
            final(self).consistent(),
            final(self).lo() == old(self).lo(),
            final(self).hi() == old(self).hi(),
            old(self).lo() <= target_pos < old(self).hi() ==> res == Ok::<(), SegTreeError>(())
                && final(self)@ == old(self)@.update(target_pos - old(self).lo(), value as int),
            !(old(self).lo() <= target_pos < old(self).hi()) ==> res == Err::<(), SegTreeError>(
                SegTreeError::IndexOutOfRange,
            ) && *final(self) == *old(self),
        decreases *old(self),
    {
        if target_pos < self.range.0 || target_pos >= self.range.1 {
            return Err(SegTreeError::IndexOutOfRange);
        }
        let ghost k = target_pos - self.lo();
        let ghost updated = self@.update(k, value as int);
        proof {
            self.lemma_node_facts();
        }
        if target_pos == self.range.0 && target_pos + 1 == self.range.1 {
            self.val = value;
            assert(self@ =~= updated);
            return Ok(());
        }
        proof {
            self.lemma_split();
            let m = self.mid - self.lo();
            lemma_fit_subrange(updated, 0, m);
            lemma_fit_subrange(updated, m, updated.len() as int);
            if k < m {
                assert(self.l_node->0@.update(k, value as int) =~= updated.subrange(0, m));
            } else {
                assert(self.r_node->0@.update(k - m, value as int) =~= updated.subrange(
                    m,
                    updated.len() as int,
                ));
            }
        }
        if target_pos < self.mid {
            match &mut self.l_node {
                Some(left) => {
                    let _ = left.revise(target_pos, value);
                },
                None => {},
            }
        } else {
            match &mut self.r_node {
                Some(right) => {
                    let _ = right.revise(target_pos, value);
                },
                None => {},
            }
        }
        let lv: i32 = match &self.l_node {
            Some(left) => left.val,
            None => 0,
        };
        let rv: i32 = match &self.r_node {
            Some(right) => right.val,
            None => 0,
        };
        proof {
            let l = *self.l_node->0;
            let r = *self.r_node->0;
            l.lemma_node_facts();
            r.lemma_node_facts();
            lemma_sum_concat(l@, r@);
            assert(l@ + r@ =~= updated);
            assert(updated.subrange(0, updated.len() as int) =~= updated);
        }
        self.val = SegTree::comb(lv, rv);
        Ok(())
    }

    /// The sum of the values of the indices in `[l, r)`; fails with
    /// `InvalidQueryRange` when `l >= r` or the range leaves `[lo, hi)`.
    pub fn ask(&self, l: usize, r: usize) -> (res: Result<i32, SegTreeError>)
        requires
            self.wf(),
        ensures
            l < r && self.lo() <= l && r <= self.hi() ==> (res matches Ok(v) && v as int == seq_sum(
                self@.subrange(l - self.lo(), r - self.lo()),
            )),
            !(l < r && self.lo() <= l && r <= self.hi()) ==> res == Err::<i32, SegTreeError>(
                SegTreeError::InvalidQueryRange,
            ),
        decreases self,
    {
        if l >= r || l < self.range.0 || r > self.range.1 {
            return Err(SegTreeError::InvalidQueryRange);
        }
        proof {
            self.lemma_node_facts();
        }
        if l == self.range.0 && r == self.range.1 {
            assert(self@.subrange(0, self@.len() as int) =~= self@);
            return Ok(self.val);
        }
        proof {
            self.lemma_split();
        }
        let ghost a = l - self.lo();
        let ghost b = r - self.lo();
        let ghost m = self.mid - self.lo();
        let left = match &self.l_node {
            Some(left) => left,
            None => {
                return Err(SegTreeError::InvalidQueryRange);
            },
        };
        let right = match &self.r_node {
            Some(right) => right,
            None => {
                return Err(SegTreeError::InvalidQueryRange);
            },
        };
        if r <= self.mid {
            assert(left@.subrange(a, b) =~= self@.subrange(a, b));
            left.ask(l, r)
        } else if l >= self.mid {
            assert(right@.subrange(a - m, b - m) =~= self@.subrange(a, b));
            right.ask(l, r)
        } else {
            let left_val = match left.ask(l, self.mid) {
                Ok(v) => v,
                Err(e) => {
                    return Err(e);
                },
            };
            let right_val = match right.ask(self.mid, r) {
                Ok(v) => v,
                Err(e) => {
                    return Err(e);
                },
            };
            proof {
                assert(left@.subrange(a, m) =~= self@.subrange(a, m));
                assert(right@.subrange(0, b - m) =~= self@.subrange(m, b));
                lemma_sum_concat(self@.subrange(a, m), self@.subrange(m, b));
                assert(self@.subrange(a, m) + self@.subrange(m, b) =~= self@.subrange(a, b));
            }
            Ok(SegTree::comb(left_val, right_val))
        }
    }

    /// The value held at this node: the sum of all the values it covers.
    pub fn get_val(&self) -> (v: i32)
        requires
            self.wf(),
        ensures
            v as int == seq_sum(self@),
    {
        proof {
            self.lemma_node_facts();
        }
        self.val
    }

    /// The interval `[lo, hi)` this node covers.
    pub fn get_range(&self) -> (range: (usize, usize))
        ensures
            range.0 == self.lo(),
            range.1 == self.hi(),
    {
        self.range
    }

    /// Combines two partial results: their sum.
    fn comb(a: i32, b: i32) -> (c: i32)
        requires
            i32::MIN <= a + b <= i32::MAX,
        ensures
            c == a + b,
    {
        a + b
    }
}

} // verus!
