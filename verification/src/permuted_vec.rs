//! Permuted vectors: the contents of a vector together with a permutation
//! of its positions. Sorting rearranges the permutation, never the
//! contents, so a run of edits that keeps the data in relative order makes
//! the next sort cheap.

use vstd::prelude::*;
use crate::order::{
    sorted,
    lemma_adjacent_sorted,
    apply_perm,
    is_perm_on,
    perm_covers,
    identity_perm,
    lemma_apply_perm_multiset,
};

verus! {

/// The type of permuted vectors.
pub struct PermutedVec {
    // The contents of the vector.
    contents: Vec<usize>,
    // The permutation: position j of the permuted order reads
    // contents[permutation[j]].
    permutation: Vec<usize>,
}

/// The type of iterators over the permuted order of a permuted vector.
pub struct PermutedIter {
    // The values of the permuted order, in order.
    vals: Vec<usize>,
    // How far the iterator has advanced.
    pos: usize,
}

impl PermutedIter {
    pub closed spec fn wf(self) -> bool {
        self.pos <= self.vals@.len()
    }

    /// The values the iterator has not yet produced.
    pub closed spec fn remaining(self) -> Seq<usize> {
        self.vals@.skip(self.pos as int)
    }

    pub fn next(&mut self) -> (r: Option<usize>)
        requires
            old(self).wf(),
        ensures
            final(self).wf(),
            old(self).remaining().len() == 0 ==> r.is_none() && final(self).remaining()
                == old(self).remaining(),
            old(self).remaining().len() > 0 ==> r == Some(old(self).remaining()[0])
                && final(self).remaining() == old(self).remaining().drop_first(),
    {
        if self.pos < self.vals.len() {
            let v = self.vals[self.pos];
            self.pos = self.pos + 1;
            proof {
                assert(self.vals@.skip(self.pos as int) =~= old(self).vals@.skip(
                    old(self).pos as int,
                ).drop_first());
            }
            Some(v)
        } else {
            None
        }
    }

    /// The values the iterator would still produce, as a vector.
    pub fn to_vec(&self) -> (r: Vec<usize>)
        requires
            self.wf(),
        ensures
            r@ == self.remaining(),
    {
        let mut r: Vec<usize> = Vec::new();
        let mut i: usize = self.pos;
        while i < self.vals.len()
            invariant
                self.pos <= i <= self.vals@.len(),
                r@ == self.vals@.subrange(self.pos as int, i as int),
            decreases self.vals@.len() - i,
        {
            let v = self.vals[i];
            i = i + 1;
            r.push(v);
            proof {
                assert(r@ =~= self.vals@.subrange(self.pos as int, i as int));
            }
        }
        proof {
            assert(r@ =~= self.remaining());
        }
        r
    }
}

impl View for PermutedVec {
    type V = Seq<usize>;

    closed spec fn view(&self) -> Seq<usize> {
        self.contents@
    }
}

impl PermutedVec {
    /// The stored permutation of positions.
    pub closed spec fn perm(self) -> Seq<usize> {
        self.permutation@
    }

    /// Some position of the permutation holds `k`.
    pub open spec fn perm_has(self, k: int) -> bool {
        crate::order::perm_covers(self.perm(), k)
    }

    /// The permutation lists every position of the contents exactly once.
    pub open spec fn wf(self) -> bool {
        &&& self.perm().len() == self@.len()
        &&& forall|i: int| 0 <= i < self.perm().len() ==> (#[trigger] self.perm()[i]) < self@.len()
        &&& forall|i: int, j: int|
            0 <= i < j < self.perm().len() ==> self.perm()[i] != self.perm()[j]
        &&& forall|k: int| 0 <= k < self@.len() ==> #[trigger] self.perm_has(k)
    }

    /// The contents read in permuted order.
    pub open spec fn permuted_view(self) -> Seq<usize> {
        Seq::new(self.perm().len(), |j: int| self@[self.perm()[j] as int])
    }

    /// The permuted order holds exactly the elements of the contents.
    pub proof fn lemma_permuted_view_multiset(self)
        requires
            self.wf(),
        ensures
            self.permuted_view().to_multiset() == self@.to_multiset(),
    {
        assert(self.permuted_view() =~= apply_perm(self@, self.perm()));
        assert forall|k: int| 0 <= k < self@.len() implies #[trigger] perm_covers(
            self.perm(),
            k,
        ) by {
            assert(self.perm_has(k));
        }
        assert(is_perm_on(self.perm(), self@.len()));
        lemma_apply_perm_multiset(self@, self.perm());
    }

    /// Create a new, empty permuted vector.
    pub fn new() -> (r: PermutedVec)
        ensures
            r.wf(),
            r@ == Seq::<usize>::empty(),
            r.permuted_view() == Seq::<usize>::empty(),
    {
        let r = PermutedVec { contents: Vec::new(), permutation: Vec::new() };
        proof {
            assert(r@ =~= Seq::<usize>::empty());
            assert(r.permuted_view() =~= Seq::<usize>::empty());
        }
        r
    }

    /// Build a permuted vector over the given contents, with the identity
    /// permutation.
    pub fn from_vec(vec: Vec<usize>) -> (r: PermutedVec)
        ensures
            r.wf(),
            r@ == vec@,
            r.perm() == identity_perm(vec@.len()),
            r.permuted_view() == vec@,
    {
        let n = vec.len();
        let mut permutation: Vec<usize> = Vec::new();
        let mut i: usize = 0;
        while i < n
            invariant
                i <= n,
                permutation@.len() == i,
                forall|k: int| 0 <= k < i ==> (#[trigger] permutation@[k]) == k,
            decreases n - i,
        {
            permutation.push(i);
            i = i + 1;
        }
        let r = PermutedVec { contents: vec, permutation };
        proof {
            assert forall|k: int| 0 <= k < r@.len() implies #[trigger] r.perm_has(k) by {
                assert(r.perm()[k] == k);
            }
            assert(r.perm() =~= identity_perm(vec@.len()));
            assert(r.permuted_view() =~= vec@);
        }
        r
    }

    /// The length of the vector.
    pub fn len(&self) -> (r: usize)
        ensures
            r == self@.len(),
    {
        self.contents.len()
    }

    /// Append an element to the end of the vector. The new element also
    /// takes the last position of the permuted order.
    pub fn push(&mut self, value: usize)
        requires
            old(self).wf(),
            old(self)@.len() < usize::MAX,
        ensures
            final(self).wf(),
            final(self)@ == old(self)@.push(value),
            final(self).perm() == old(self).perm().push(old(self)@.len() as usize),
            final(self).permuted_view() == old(self).permuted_view().push(value),
    {
        let index = self.contents.len();
        self.contents.push(value);
        self.permutation.push(index);
        proof {
            let n = old(self)@.len() as int;
            assert forall|k: int| 0 <= k < self@.len() implies #[trigger] self.perm_has(k) by {
                if k < n {
                    assert(old(self).perm_has(k));
                    let i = choose|i: int|
                        0 <= i < old(self).perm().len() && old(self).perm()[i] == k;
                    assert(self.perm()[i] == k);
                } else {
                    assert(self.perm()[n] == k);
                }
            }
            assert forall|i: int, j: int| 0 <= i < j < self.perm().len() implies self.perm()[i]
                != self.perm()[j] by {
                if j < n {
                    assert(old(self).perm()[i] != old(self).perm()[j]);
                } else {
                    assert(old(self).perm()[i] < n);
                    assert(self.perm()[j] == n);
                }
            }
            assert(self.permuted_view() =~= old(self).permuted_view().push(value));
        }
    }

    /// Set the element at a position of the contents. The permutation is
    /// untouched.
    pub fn set(&mut self, index: usize, value: usize)
        requires
            old(self).wf(),
            index < old(self)@.len(),
        ensures
            final(self).wf(),
            final(self)@ == old(self)@.update(index as int, value),
            final(self).perm() == old(self).perm(),
    {
        self.contents[index] = value;
        proof {
            assert forall|k: int| 0 <= k < self@.len() implies #[trigger] self.perm_has(k) by {
                assert(old(self).perm_has(k));
            }
        }
    }

    /// Replacing the contents under one position of the permuted order
    /// replaces exactly that position of the permuted order.
    pub proof fn lemma_permuted_view_update(a: PermutedVec, b: PermutedVec, p: int, value: usize)
        requires
            a.wf(),
            0 <= p < a.perm().len(),
            b.perm() == a.perm(),
            b@ == a@.update(a.perm()[p] as int, value),
        ensures
            b.permuted_view() == a.permuted_view().update(p, value),
    {
        assert forall|j: int| 0 <= j < b.permuted_view().len() implies b.permuted_view()[j]
            == a.permuted_view().update(p, value)[j] by {
            if j != p {
                assert(a.perm()[j] != a.perm()[p]);
            }
        }
        assert(b.permuted_view() =~= a.permuted_view().update(p, value));
    }

    /// Truncate this vector and reset the permutation to the identity if
    /// anything was dropped.
    pub fn truncate(&mut self, len: usize)
        requires
            old(self).wf(),
        ensures
            final(self).wf(),
            len >= old(self)@.len() ==> *final(self) == *old(self),
            len < old(self)@.len() ==> final(self)@ == old(self)@.take(len as int)
                && final(self).perm() == identity_perm(len as nat) && final(self).permuted_view()
                == final(self)@,
    {
        if len < self.contents.len() {
            self.contents.truncate(len);
            self.permutation.clear();
            let mut i: usize = 0;
            while i < len
                invariant
                    i <= len,
                    len == self@.len(),
                    self@ == old(self)@.take(len as int),
                    self.perm().len() == i,
                    forall|k: int| 0 <= k < i ==> (#[trigger] self.perm()[k]) == k,
                decreases len - i,
            {
                self.permutation.push(i);
                i = i + 1;
            }
            proof {
                assert forall|k: int| 0 <= k < self@.len() implies #[trigger] self.perm_has(k) by {
                    assert(self.perm()[k] == k);
                }
                assert(self.perm() =~= identity_perm(len as nat));
                assert(self.permuted_view() =~= self@);
            }
        }
    }

    /// Is the permuted order already sorted?
    pub fn is_sorted(&self) -> (r: bool)
        requires
            self.wf(),
        ensures
            r == sorted(self.permuted_view()),
    {
        let n = self.permutation.len();
        if n <= 1 {
            return true;
        }
        let mut j: usize = 1;
        while j < n
            invariant
                self.wf(),
                n == self.perm().len(),
                1 <= j <= n,
                forall|k: int|
                    0 <= k < j - 1 ==> #[trigger] self.permuted_view()[k] <= self.permuted_view()[k
                        + 1],
            decreases n - j,
        {
            let a = self.contents[self.permutation[j - 1]];
            let b = self.contents[self.permutation[j]];
            if a > b {
                proof {
                    assert(self.permuted_view()[j - 1] > self.permuted_view()[j as int]);
                }
                return false;
            }
            j = j + 1;
        }
        proof {
            lemma_adjacent_sorted(self.permuted_view());
        }
        true
    }

    /// Sort the permutation over the contents; the contents stay in place.
    /// Skips the work when the permuted order is already sorted.
    pub fn sort(&mut self)
        requires
            old(self).wf(),
        ensures
            final(self).wf(),
            final(self)@ == old(self)@,
            sorted(final(self).permuted_view()),
            final(self).permuted_view().to_multiset() == old(self)@.to_multiset(),
    {
        if self.is_sorted() {
            proof {
                self.lemma_permuted_view_multiset();
            }
            return ;
        }
        let n = self.permutation.len();
        let mut i: usize = 1;
        while i < n
            invariant
                self.wf(),
                self@ == old(self)@,
                n == self.perm().len(),
                1 <= i <= n,
                sorted(self.permuted_view().take(i as int)),
            decreases n - i,
        {
            let mut j: usize = i;
            proof {
                let v = self.permuted_view();
                assert forall|a: int, b: int| 0 <= a <= b < i implies #[trigger] v[a]
                    <= #[trigger] v[b] by {
                    assert(v.take(i as int)[a] == v[a]);
                    assert(v.take(i as int)[b] == v[b]);
                    assert(v.take(i as int)[a] <= v.take(i as int)[b]);
                }
            }
            while j > 0 && self.contents[self.permutation[j - 1]]
                > self.contents[self.permutation[j]]
                invariant
                    self.wf(),
                    self@ == old(self)@,
                    n == self.perm().len(),
                    0 <= j <= i < n,
                    forall|a: int, b: int|
                        0 <= a <= b <= i && a != j && b != j ==> #[trigger] self.permuted_view()[a]
                            <= #[trigger] self.permuted_view()[b],
                    forall|a: int|
                        j < a <= i ==> self.permuted_view()[j as int]
                            <= #[trigger] self.permuted_view()[a],
                decreases j,
            {
                let ghost prev = *self;
                let pa = self.permutation[j - 1];
                let pb = self.permutation[j];
                self.permutation[j - 1] = pb;
                self.permutation[j] = pa;
                proof {
                    lemma_swap_adjacent_wf(prev, *self, j as int);
                    let v0 = prev.permuted_view();
                    let v1 = self.permuted_view();
                    assert(v1 =~= v0.update(j - 1, v0[j as int]).update(j as int, v0[j - 1]));
                    assert forall|a: int, b: int|
                        0 <= a <= b <= i && a != j - 1 && b != j - 1 implies #[trigger] v1[a]
                        <= #[trigger] v1[b] by {
                        if a == j {
                            assert(v1[a] == v0[j - 1]);
                            if b != j {
                                assert(v0[j - 1] <= v0[b]);
                            }
                        } else if b == j {
                            assert(v1[b] == v0[j - 1]);
                            assert(v0[a] <= v0[j - 1]);
                        } else {
                            assert(v1[a] == v0[a] && v1[b] == v0[b]);
                        }
                    }
                    assert forall|a: int| j - 1 < a <= i implies v1[j - 1] <= #[trigger] v1[a] by {
                        assert(v1[j - 1] == v0[j as int]);
                        if a == j {
                            assert(v1[a] == v0[j - 1]);
                        } else {
                            assert(v0[j as int] <= v0[a]);
                        }
                    }
                }
                j = j - 1;
            }
            proof {
                let v = self.permuted_view();
                assert forall|k: int| 0 <= k < i + 1 - 1 implies #[trigger] v.take(i + 1)[k]
                    <= v.take(i + 1)[k + 1] by {
                    if k + 1 < j {
                        assert(v[k] <= v[k + 1]);
                    } else if k + 1 == j {
                        assert(v[j - 1] <= v[j as int]);
                    } else if k == j {
                        assert(v[j as int] <= v[k + 1]);
                    } else {
                        assert(v[k] <= v[k + 1]);
                    }
                }
                lemma_adjacent_sorted(v.take(i + 1));
            }
            i = i + 1;
        }
        proof {
            assert(self.permuted_view().take(n as int) =~= self.permuted_view());
            self.lemma_permuted_view_multiset();
        }
    }

    /// A sorted iterator over the vector.
    pub fn sorted_iter(&mut self) -> (r: PermutedIter)
        requires
            old(self).wf(),
        ensures
            final(self).wf(),
            final(self)@ == old(self)@,
            sorted(final(self).permuted_view()),
            final(self).permuted_view().to_multiset() == old(self)@.to_multiset(),
            r.wf(),
            r.remaining() == final(self).permuted_view(),
    {
        self.sort();
        self.permuted_iter()
    }

    /// The positions of the permutation, in permuted order.
    pub fn permutation_iter(&self) -> (r: Vec<usize>)
        ensures
            r@ == self.perm(),
    {
        let mut r: Vec<usize> = Vec::new();
        let mut i: usize = 0;
        while i < self.permutation.len()
            invariant
                i <= self.perm().len(),
                r@ == self.perm().take(i as int),
            decreases self.perm().len() - i,
        {
            r.push(self.permutation[i]);
            i = i + 1;
            proof {
                assert(r@ =~= self.perm().take(i as int));
            }
        }
        proof {
            assert(r@ =~= self.perm());
        }
        r
    }

    /// An iterator over the permuted order of the vector.
    pub fn permuted_iter(&self) -> (r: PermutedIter)
        requires
            self.wf(),
        ensures
            r.wf(),
            r.remaining() == self.permuted_view(),
    {
        let mut vals: Vec<usize> = Vec::new();
        let mut j: usize = 0;
        while j < self.permutation.len()
            invariant
                self.wf(),
                j <= self.perm().len(),
                vals@ == self.permuted_view().take(j as int),
            decreases self.perm().len() - j,
        {
            vals.push(self.contents[self.permutation[j]]);
            j = j + 1;
            proof {
                assert(vals@ =~= self.permuted_view().take(j as int));
            }
        }
        proof {
            assert(vals@ =~= self.permuted_view());
        }
        let r = PermutedIter { vals, pos: 0 };
        proof {
            assert(r.remaining() =~= r.vals@);
        }
        r
    }

    /// Get the element at a position of the contents, or `None` past the end.
    pub fn get(&self, index: usize) -> (r: Option<usize>)
        ensures
            index < self@.len() ==> r == Some(self@[index as int]),
            index >= self@.len() ==> r.is_none(),
    {
        if index < self.contents.len() {
            Some(self.contents[index])
        } else {
            None
        }
    }

    /// Get the element at a position of the permuted order, or `None` past
    /// the end.
    pub fn get_permuted(&self, permuted: usize) -> (r: Option<usize>)
        requires
            self.wf(),
        ensures
            permuted < self.permuted_view().len() ==> r == Some(
                self.permuted_view()[permuted as int],
            ),
            permuted >= self.permuted_view().len() ==> r.is_none(),
    {
        if permuted < self.permutation.len() {
            Some(self.contents[self.permutation[permuted]])
        } else {
            None
        }
    }
}

/// Exchanging two adjacent positions of the permutation keeps it a
/// permutation of the contents' positions.
proof fn lemma_swap_adjacent_wf(a: PermutedVec, b: PermutedVec, j: int)
    requires
        a.wf(),
        1 <= j < a.perm().len(),
        b@ == a@,
        b.perm() == a.perm().update(j - 1, a.perm()[j]).update(j, a.perm()[j - 1]),
    ensures
        b.wf(),
{
    assert forall|i1: int, i2: int| 0 <= i1 < i2 < b.perm().len() implies b.perm()[i1]
        != b.perm()[i2] by {
        let m1: int = if i1 == j - 1 {
            j
        } else if i1 == j {
            j - 1
        } else {
            i1
        };
        let m2: int = if i2 == j - 1 {
            j
        } else if i2 == j {
            j - 1
        } else {
            i2
        };
        assert(b.perm()[i1] == a.perm()[m1]);
        assert(b.perm()[i2] == a.perm()[m2]);
    }
    assert forall|k: int| 0 <= k < b@.len() implies #[trigger] b.perm_has(k) by {
        assert(a.perm_has(k));
        let i = choose|i: int| 0 <= i < a.perm().len() && a.perm()[i] == k;
        if i == j - 1 {
            assert(b.perm()[j] == k);
        } else if i == j {
            assert(b.perm()[j - 1] == k);
        } else {
            assert(b.perm()[i] == k);
        }
    }
}

} // verus!
