//! Presorted vectors: a permuted vector together with the inverse of its
//! permutation and a flag recording whether the permuted order is known to
//! be sorted. Push and set keep the flag current with O(1) neighbour
//! checks; a full sort runs only when an edit has actually broken order.

use vstd::prelude::*;
use crate::order::{
    sorted,
    between_neighbors,
    lemma_push_sorted_iff,
    lemma_update_sorted_iff,
};
use crate::permuted_vec::{PermutedVec, PermutedIter};

verus! {

/// The type of presorted vectors.
pub struct PresortedVec {
    // The contents of the vector, with their permutation.
    contents: PermutedVec,
    // The inverse permutation: the permuted position of each contents
    // position.
    inverse: Vec<usize>,
    // Is the permuted order known to be sorted?
    is_sorted: bool,
}

/// The type of presorted iterators over a presorted vector.
pub struct PresortedIter {
    // The underlying iterator.
    contents: PermutedIter,
}

impl PresortedIter {
    pub closed spec fn wf(self) -> bool {
        self.contents.wf()
    }

    /// The values the iterator has not yet produced.
    pub closed spec fn remaining(self) -> Seq<usize> {
        self.contents.remaining()
    }

    pub fn next(&mut self) -> (r: Option<usize>)
        requires
            old(self).wf(),
        ensures
            final(self).wf(),
            old(self).remaining().len() == 0 ==> r.is_none() && final(self).remaining()
                == old(self).remaining(),
            old(self).remaining().len() > 0 ==> r == Some(old(self).remaining()[0])
                && final(self).remaining() == old(self).remaining().drop_first(),
    {
        self.contents.next()
    }

    /// The values the iterator would still produce, as a vector.
    pub fn to_vec(&self) -> (r: Vec<usize>)
        requires
            self.wf(),
        ensures
            r@ == self.remaining(),
    {
        self.contents.to_vec()
    }
}

impl View for PresortedVec {
    type V = Seq<usize>;

    closed spec fn view(&self) -> Seq<usize> {
        self.contents@
    }
}

impl PresortedVec {
    /// The underlying permuted vector.
    pub closed spec fn inner(self) -> PermutedVec {
        self.contents
    }

    /// The stored inverse permutation.
    pub closed spec fn inv_seq(self) -> Seq<usize> {
        self.inverse@
    }

    /// Is the vector flagged as sorted?
    pub closed spec fn sorted_flag(self) -> bool {
        self.is_sorted
    }

    /// The contents read in permuted order.
    pub open spec fn sorted_view(self) -> Seq<usize> {
        self.inner().permuted_view()
    }

    /// The permuted position holding a given contents position.
    pub open spec fn sorted_pos(self, index: int) -> int {
        self.inv_seq()[index] as int
    }

    /// The permutation and its inverse agree, and the sorted flag is only
    /// set when the permuted order really is sorted.
    pub open spec fn wf(self) -> bool {
        &&& self.inner().wf()
        &&& self.inner()@ == self@
        &&& self.inv_seq().len() == self@.len()
        &&& forall|i: int|
            0 <= i < self@.len() ==> (#[trigger] self.inv_seq()[i]) < self@.len()
                && self.inner().perm()[self.inv_seq()[i] as int] == i
        &&& (self.sorted_flag() ==> sorted(self.sorted_view()))
    }

    /// Create a new, empty presorted vector.
    pub fn new() -> (r: PresortedVec)
        ensures
            r.wf(),
            r@ == Seq::<usize>::empty(),
            r.sorted_view() == Seq::<usize>::empty(),
            r.sorted_flag(),
    {
        PresortedVec { contents: PermutedVec::new(), inverse: Vec::new(), is_sorted: true }
    }

    /// Build a presorted vector over the given contents, not yet sorted.
    pub fn from_vec(vec: Vec<usize>) -> (r: PresortedVec)
        ensures
            r.wf(),
            r@ == vec@,
            r.sorted_view() == vec@,
            !r.sorted_flag(),
    {
        let n = vec.len();
        let contents = PermutedVec::from_vec(vec);
        let mut inverse: Vec<usize> = Vec::new();
        let mut i: usize = 0;
        while i < n
            invariant
                i <= n,
                inverse@.len() == i,
                forall|k: int| 0 <= k < i ==> (#[trigger] inverse@[k]) == k,
            decreases n - i,
        {
            inverse.push(i);
            i = i + 1;
        }
        PresortedVec { contents, inverse, is_sorted: false }
    }

    /// An iterator over the permuted order of the vector.
    pub fn presorted_iter(&self) -> (r: PresortedIter)
        requires
            self.wf(),
        ensures
            r.wf(),
            r.remaining() == self.sorted_view(),
    {
        PresortedIter { contents: self.contents.permuted_iter() }
    }

    /// Is the permuted order sorted? O(1) when the flag is set, else a
    /// full check.
    pub fn is_sorted(&self) -> (r: bool)
        requires
            self.wf(),
        ensures
            r == sorted(self.sorted_view()),
    {
        if self.is_sorted {
            true
        } else {
            self.contents.is_sorted()
        }
    }

    /// Sort the permutation over the contents and rebuild the inverse;
    /// O(1) when the vector is already flagged sorted.
    pub fn sort(&mut self)
        requires
            old(self).wf(),
        ensures
            final(self).wf(),
            final(self)@ == old(self)@,
            sorted(final(self).sorted_view()),
            final(self).sorted_flag(),
            final(self).sorted_view().to_multiset() == old(self)@.to_multiset(),
    {
        if !self.is_sorted {
            self.contents.sort();
            let perm = self.contents.permutation_iter();
            let n = perm.len();
            let mut i: usize = 0;
            while i < n
                invariant
                    self.inner().wf(),
                    self.inner()@ == old(self)@,
                    perm@ == self.inner().perm(),
                    n == self.inner().perm().len(),
                    i <= n,
                    self.inv_seq().len() == n,
                    forall|k: int| 0 <= k < n ==> (#[trigger] self.inv_seq()[k]) < n,
                    forall|k: int|
                        0 <= k < i ==> self.inv_seq()[(#[trigger] perm@[k]) as int] == k,
                decreases n - i,
            {
                let p = perm[i];
                self.inverse[p] = i;
                i = i + 1;
            }
            self.is_sorted = true;
            proof {
                assert forall|k: int|
                    0 <= k < self@.len() implies (#[trigger] self.inv_seq()[k]) < self@.len()
                        && self.inner().perm()[self.inv_seq()[k] as int] == k by {
                    assert(self.inner().perm_has(k));
                    let j = choose|j: int|
                        0 <= j < self.inner().perm().len() && self.inner().perm()[j] == k;
                    assert(self.inv_seq()[(perm@[j]) as int] == j);
                }
            }
        }
        proof {
            self.inner().lemma_permuted_view_multiset();
        }
    }

    /// A sorted iterator over the vector.
    pub fn sorted_iter(&mut self) -> (r: PresortedIter)
        requires
            old(self).wf(),
        ensures
            final(self).wf(),
            final(self)@ == old(self)@,
            sorted(final(self).sorted_view()),
            final(self).sorted_flag(),
            final(self).sorted_view().to_multiset() == old(self)@.to_multiset(),
            r.wf(),
            r.remaining() == final(self).sorted_view(),
    {
        self.sort();
        self.presorted_iter()
    }

    /// Get the element at a position of the contents, or `None` past the
    /// end.
    pub fn get(&self, index: usize) -> (r: Option<usize>)
        ensures
            index < self@.len() ==> r == Some(self@[index as int]),
            index >= self@.len() ==> r.is_none(),
    {
        self.contents.get(index)
    }

    /// Get the element at a position of the permuted order, or `None` past
    /// the end.
    pub fn get_permuted(&self, permuted: usize) -> (r: Option<usize>)
        requires
            self.wf(),
        ensures
            permuted < self.sorted_view().len() ==> r == Some(self.sorted_view()[permuted as int]),
            permuted >= self.sorted_view().len() ==> r.is_none(),
    {
        self.contents.get_permuted(permuted)
    }

    /// Set the element at a position of the contents. The sorted flag
    /// survives exactly when the new element lies between the sorted
    /// neighbours of that position.
    pub fn set(&mut self, index: usize, value: usize)
        requires
            old(self).wf(),
            index < old(self)@.len(),
        ensures
            final(self).wf(),
            final(self)@ == old(self)@.update(index as int, value),
            final(self).sorted_view() == old(self).sorted_view().update(
                old(self).sorted_pos(index as int),
                value,
            ),
            final(self).sorted_flag() == (old(self).sorted_flag() && between_neighbors(
                old(self).sorted_view(),
                old(self).sorted_pos(index as int),
                value,
            )),
    {
        // a vector's length fits in usize, which bounds the neighbour
        // position computed below
        let _len = self.contents.len();
        let permuted = self.inverse[index];
        proof {
            assert(old(self).inv_seq()[index as int] < old(self)@.len());
        }
        let mut still_sorted = self.is_sorted;
        if still_sorted {
            if permuted > 0 {
                match self.contents.get_permuted(permuted - 1) {
                    Some(before) => {
                        if before > value {
                            still_sorted = false;
                        }
                    },
                    None => {},
                }
            }
            match self.contents.get_permuted(permuted + 1) {
                Some(after) => {
                    if value > after {
                        still_sorted = false;
                    }
                },
                None => {},
            }
        }
        self.is_sorted = still_sorted;
        self.contents.set(index, value);
        proof {
            PermutedVec::lemma_permuted_view_update(
                old(self).inner(),
                self.inner(),
                permuted as int,
                value,
            );
            if still_sorted {
                lemma_update_sorted_iff(old(self).sorted_view(), permuted as int, value);
            }
            assert forall|i: int|
                0 <= i < self@.len() implies (#[trigger] self.inv_seq()[i]) < self@.len()
                    && self.inner().perm()[self.inv_seq()[i] as int] == i by {
                assert(old(self).inv_seq()[i] < old(self)@.len());
            }
        }
    }

    /// Append an element to the end of the vector; it also takes the last
    /// position of the permuted order. The sorted flag survives exactly
    /// when the new element is at least the current maximum.
    pub fn push(&mut self, value: usize)
        requires
            old(self).wf(),
            old(self)@.len() < usize::MAX,
        ensures
            final(self).wf(),
            final(self)@ == old(self)@.push(value),
            final(self).sorted_view() == old(self).sorted_view().push(value),
            final(self).sorted_flag() == (old(self).sorted_flag() && (old(self)@.len() == 0
                || old(self).sorted_view().last() <= value)),
    {
        let permuted = self.contents.len();
        let mut still_sorted = self.is_sorted;
        if still_sorted && permuted > 0 {
            match self.contents.get_permuted(permuted - 1) {
                Some(before) => {
                    if before > value {
                        still_sorted = false;
                    }
                },
                None => {},
            }
        }
        self.is_sorted = still_sorted;
        self.contents.push(value);
        self.inverse.push(permuted);
        proof {
            if still_sorted {
                lemma_push_sorted_iff(old(self).sorted_view(), value);
            }
            assert forall|i: int|
                0 <= i < self@.len() implies (#[trigger] self.inv_seq()[i]) < self@.len()
                    && self.inner().perm()[self.inv_seq()[i] as int] == i by {
                let n = old(self)@.len() as int;
                if i < n {
                    assert(old(self).inv_seq()[i] < n);
                    assert(self.inner().perm()[self.inv_seq()[i] as int] == old(
                        self,
                    ).inner().perm()[old(self).inv_seq()[i] as int]);
                } else {
                    assert(self.inv_seq()[i] == n);
                    assert(self.inner().perm()[n] == n);
                }
            }
        }
    }

    /// Truncate this vector; if anything was dropped the permutation is
    /// reset to the identity and the sorted flag cleared.
    pub fn truncate(&mut self, len: usize)
        requires
            old(self).wf(),
        ensures
            final(self).wf(),
            len >= old(self)@.len() ==> *final(self) == *old(self),
            len < old(self)@.len() ==> final(self)@ == old(self)@.take(len as int)
                && final(self).sorted_view() == final(self)@ && !final(self).sorted_flag(),
    {
        if len < self.contents.len() {
            self.contents.truncate(len);
            self.inverse.clear();
            let mut i: usize = 0;
            while i < len
                invariant
                    i <= len,
                    self.inv_seq().len() == i,
                    forall|k: int| 0 <= k < i ==> (#[trigger] self.inv_seq()[k]) == k,
                    self.inner().wf(),
                    self.inner()@ == old(self)@.take(len as int),
                    self.inner().perm() == crate::order::identity_perm(len as nat),
                    self.inner().permuted_view() == self.inner()@,
                    len == self.inner()@.len(),
                decreases len - i,
            {
                self.inverse.push(i);
                i = i + 1;
            }
            self.is_sorted = false;
        }
    }

    /// The length of the vector.
    pub fn len(&self) -> (r: usize)
        ensures
            r == self@.len(),
    {
        self.contents.len()
    }
}

} // verus!
