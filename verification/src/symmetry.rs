//! Symmetry-breaking conditions.
//!
//! A [`Condition`] is a pair of trie positions `(u, v)` with `u < v`, asserting
//! that the host vertex assigned to position `u` must carry a strictly smaller
//! index than the host vertex assigned to position `v`.  An insertion-ordered
//! sequence of such pairs forms a [`Conditions`] value; enforcing them during
//! the census eliminates automorphic duplicates of a match.

use vstd::prelude::*;

verus! {

/// One position-pair constraint `u < v` over trie positions.
#[derive(Copy, Clone, Debug, PartialEq, Eq, Hash, Structural)]
pub struct Condition {
    pub u: usize,
    pub v: usize,
}

impl Condition {
    /// Holds exactly when the pair of depths `(d1, d2)` is the pair this
    /// condition constrains and the assigned host vertices are in order.
    pub open spec fn spec_respected(self, d1: int, d2: int, a: int, b: int) -> bool {
        (d1 == self.u && d2 == self.v) ==> a < b
    }

    pub fn new(u: usize, v: usize) -> (r: Condition)
        requires
            u < v,
        ensures
            r == (Condition { u, v }),
    {
        Condition { u, v }
    }

    /// Returns true unless `(d1, d2)` is exactly the constrained pair of
    /// positions and the host vertices `a`, `b` assigned there are out of
    /// order.
    pub fn is_respected(&self, d1: usize, d2: usize, a: usize, b: usize) -> (r: bool)
        ensures
            r == self.spec_respected(d1 as int, d2 as int, a as int, b as int),
    {
        if d1 == self.u && d2 == self.v {
            a < b
        } else {
            true
        }
    }

    pub fn max(&self) -> (r: usize)
        ensures
            r == self.v,
    {
        self.v
    }

    pub fn min(&self) -> (r: usize)
        ensures
            r == self.u,
    {
        self.u
    }
}

/// An insertion-ordered sequence of [`Condition`] values.
#[derive(Debug)]
pub struct Conditions {
    pub conditions: Vec<Condition>,
}

impl View for Conditions {
    type V = Seq<Condition>;

    open spec fn view(&self) -> Seq<Condition> {
        self.conditions@
    }
}

impl Clone for Conditions {
    fn clone(&self) -> (r: Self)
        ensures
            r@ == self@,
    {
        let mut copy: Vec<Condition> = Vec::new();
        let mut i: usize = 0;
        while i < self.conditions.len()
            invariant
                i <= self.conditions.len(),
                copy@ == self.conditions@.subrange(0, i as int),
            decreases self.conditions.len() - i,
        {
            copy.push(self.conditions[i]);
            proof {
                assert(copy@ =~= self.conditions@.subrange(0, i + 1));
            }
            i += 1;
        }
        proof {
            assert(copy@ =~= self.conditions@);
        }
        Conditions { conditions: copy }
    }
}

impl Conditions {
    /// All conditions in the sequence are respected for the depth pair
    /// `(d1, d2)` and the host vertices `(a, b)` assigned at those depths.
    pub open spec fn spec_respects_all(self, d1: int, d2: int, a: int, b: int) -> bool {
        forall|k: int| 0 <= k < self@.len() ==> #[trigger] self@[k].spec_respected(d1, d2, a, b)
    }

    /// Some condition in the sequence is respected for the depth pair
    /// `(d1, d2)` and the host vertices `(a, b)` assigned at those depths.
    pub open spec fn spec_respects_any(self, d1: int, d2: int, a: int, b: int) -> bool {
        exists|k: int| 0 <= k < self@.len() && #[trigger] self@[k].spec_respected(d1, d2, a, b)
    }

    pub fn from_vec(conditions: Vec<Condition>) -> (r: Conditions)
        ensures
            r@ == conditions@,
    {
        Conditions { conditions }
    }

    /// Read access to the underlying sequence of conditions.
    pub fn iter(&self) -> (r: &Vec<Condition>)
        ensures
            r@ == self@,
    {
        &self.conditions
    }

    /// The number of stored conditions.
    pub fn len(&self) -> (r: usize)
        ensures
            r == self@.len(),
    {
        self.conditions.len()
    }

    /// The condition at index `i`.
    pub fn index(&self, i: usize) -> (r: Condition)
        requires
            i < self@.len(),
        ensures
            r == self@[i as int],
    {
        self.conditions[i]
    }

    pub fn contains(&self, c: &Condition) -> (r: bool)
        ensures
            r == self@.contains(*c),
    {
        let mut i: usize = 0;
        while i < self.conditions.len()
            invariant
                i <= self.conditions.len(),
                forall|k: int| 0 <= k < i ==> self.conditions@[k] != *c,
            decreases self.conditions.len() - i,
        {
            if self.conditions[i].u == c.u && self.conditions[i].v == c.v {
                return true;
            }
            i += 1;
        }
        false
    }

    pub fn is_empty(&self) -> (r: bool)
        ensures
            r == (self@.len() == 0),
    {
        self.conditions.len() == 0
    }

    /// Keeps exactly the conditions that are also present in `other`,
    /// preserving their order: retention specialised to the intersection
    /// test, the one predicate the trie merge needs.
    pub fn retain(&mut self, other: &Conditions)
        ensures
            final(self)@ == old(self)@.filter(|c: Condition| other@.contains(c)),
    {
        let mut kept: Vec<Condition> = Vec::new();
        let mut i: usize = 0;
        while i < self.conditions.len()
            invariant
                i <= self.conditions.len(),
                kept@ == self.conditions@.subrange(0, i as int).filter(
                    |c: Condition| other@.contains(c),
                ),
            decreases self.conditions.len() - i,
        {
            let c = self.conditions[i];
            proof {
                reveal(Seq::filter);
                let post = self.conditions@.subrange(0, i + 1);
                assert(post.drop_last() =~= self.conditions@.subrange(0, i as int));
                assert(post.last() == c);
            }
            if other.contains(&c) {
                kept.push(c);
            }
            i += 1;
        }
        proof {
            assert(self.conditions@.subrange(0, self.conditions@.len() as int)
                =~= self.conditions@);
        }
        self.conditions = kept;
    }

    /// Whether every condition is respected by the pair of host vertices
    /// `(a, b)` assigned to the depth pair `(d1, d2)`.
    pub fn respects_all(&self, d1: usize, d2: usize, a: usize, b: usize) -> (r: bool)
        requires
            d1 <= d2,
        ensures
            r == self.spec_respects_all(d1 as int, d2 as int, a as int, b as int),
    {
        let mut i: usize = 0;
        while i < self.conditions.len()
            invariant
                i <= self.conditions.len(),
                forall|k: int| 0 <= k < i ==> #[trigger] self.conditions@[k].spec_respected(
                    d1 as int, d2 as int, a as int, b as int,
                ),
            decreases self.conditions.len() - i,
        {
            if !self.conditions[i].is_respected(d1, d2, a, b) {
                proof {
                    assert(!self@[i as int].spec_respected(d1 as int, d2 as int, a as int, b as int));
                }
                return false;
            }
            i += 1;
        }
        true
    }

    /// Whether some condition is respected by the pair of host vertices
    /// `(a, b)` assigned to the depth pair `(d1, d2)`.
    pub fn respects_any(&self, d1: usize, d2: usize, a: usize, b: usize) -> (r: bool)
        requires
            d1 <= d2,
        ensures
            r == self.spec_respects_any(d1 as int, d2 as int, a as int, b as int),
    {
        let mut i: usize = 0;
        while i < self.conditions.len()
            invariant
                i <= self.conditions.len(),
                forall|k: int| 0 <= k < i ==> !#[trigger] self.conditions@[k].spec_respected(
                    d1 as int, d2 as int, a as int, b as int,
                ),
            decreases self.conditions.len() - i,
        {
            if self.conditions[i].is_respected(d1, d2, a, b) {
                proof {
                    assert(self@[i as int].spec_respected(d1 as int, d2 as int, a as int, b as int));
                }
                return true;
            }
            i += 1;
        }
        false
    }
}


/// Pointwise-equal tests filter alike.
pub proof fn lemma_filter_same<A>(s: Seq<A>, p: spec_fn(A) -> bool, q: spec_fn(A) -> bool)
    requires
        forall|x: A| #[trigger] p(x) == q(x),
    ensures
        s.filter(p) == s.filter(q),
    decreases s.len(),
{
    reveal(Seq::filter);
    if s.len() > 0 {
        lemma_filter_same(s.drop_last(), p, q);
    }
}

/// A filtered sequence only holds elements of the original.
pub proof fn lemma_filter_subset<A>(s: Seq<A>, pred: spec_fn(A) -> bool)
    ensures
        forall|x: A| #[trigger] s.filter(pred).contains(x) ==> s.contains(x),
    decreases s.len(),
{
    reveal(Seq::filter);
    if s.len() > 0 {
        lemma_filter_subset(s.drop_last(), pred);
        assert forall|x: A| #[trigger] s.filter(pred).contains(x) implies s.contains(x) by {
            if s.drop_last().filter(pred).contains(x) {
                assert(s.drop_last().contains(x));
                let i = choose|i: int| 0 <= i < s.drop_last().len() && s.drop_last()[i] == x;
                assert(s[i] == x);
            } else {
                assert(x == s.last());
            }
        }
    }
}

} // verus!
