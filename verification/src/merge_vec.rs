//! Merge vectors: a lazily-sorted vector that partitions its positions
//! into a run already in sorted order and a set of recently touched,
//! pending positions. Push and set decide in O(1) on which side a
//! position lands; a sort orders only the pending positions and merges
//! the two sorted sequences.

use vstd::prelude::*;
use crate::order::{
    sorted,
    apply_perm,
    is_perm_on,
    perm_covers,
    lemma_apply_perm_multiset,
};

verus! {

/// Where a slot of the sorted order takes its element from.
#[derive(Clone, Copy, Debug)]
enum SortTarget {
    // The content position is in place in the sorted order.
    Content(usize),
    // The content position was pushed or replaced out of order and waits
    // in the pending store at this position.
    Unsorted(usize),
}

/// The type of merge vectors.
pub struct MergeVec {
    // The contents of the vector, changed only by the caller.
    content: Vec<usize>,
    // For each content position, its slot in the sorted order.
    sort_index: Vec<usize>,
    // The sorted order: one slot per content position.
    sorted: Vec<SortTarget>,
    // The pending store; entries are cleared when a position rejoins the
    // sorted run, and the whole store empties on a sort.
    unsorted: Vec<Option<usize>>,
}

/// The type of iterators over the sorted order of a merge vector.
pub struct MergeVecIter {
    // The values of the sorted order, in order.
    vals: Vec<usize>,
    // How far the iterator has advanced.
    pos: usize,
}

impl MergeVecIter {
    pub closed spec fn wf(self) -> bool {
        self.pos <= self.vals@.len()
    }

    /// The values the iterator has not yet produced.
    pub closed spec fn remaining(self) -> Seq<usize> {
        self.vals@.skip(self.pos as int)
    }

    pub fn next(&mut self) -> (r: Option<usize>)
        requires
            old(self).wf(),
        ensures
            final(self).wf(),
            old(self).remaining().len() == 0 ==> r.is_none() && final(self).remaining()
                == old(self).remaining(),
            old(self).remaining().len() > 0 ==> r == Some(old(self).remaining()[0])
                && final(self).remaining() == old(self).remaining().drop_first(),
    {
        if self.pos < self.vals.len() {
            let v = self.vals[self.pos];
            self.pos = self.pos + 1;
            proof {
                assert(self.vals@.skip(self.pos as int) =~= old(self).vals@.skip(
                    old(self).pos as int,
                ).drop_first());
            }
            Some(v)
        } else {
            None
        }
    }

    /// The values the iterator would still produce, as a vector.
    pub fn to_vec(&self) -> (r: Vec<usize>)
        requires
            self.wf(),
        ensures
            r@ == self.remaining(),
    {
        let mut r: Vec<usize> = Vec::new();
        let mut i: usize = self.pos;
        while i < self.vals.len()
            invariant
                self.pos <= i <= self.vals@.len(),
                r@ == self.vals@.subrange(self.pos as int, i as int),
            decreases self.vals@.len() - i,
        {
            let v = self.vals[i];
            i = i + 1;
            r.push(v);
            proof {
                assert(r@ =~= self.vals@.subrange(self.pos as int, i as int));
            }
        }
        proof {
            assert(r@ =~= self.remaining());
        }
        r
    }
}

impl View for MergeVec {
    type V = Seq<usize>;

    closed spec fn view(&self) -> Seq<usize> {
        self.content@
    }
}

impl MergeVec {
    spec fn sindex(self) -> Seq<usize> {
        self.sort_index@
    }

    spec fn slots(self) -> Seq<SortTarget> {
        self.sorted@
    }

    spec fn uns(self) -> Seq<Option<usize>> {
        self.unsorted@
    }

    /// The content position's slot points back at it, through the pending
    /// store when the position is pending.
    spec fn live_ok(self, i: int) -> bool {
        &&& (self.sindex()[i] as int) < self.slots().len()
        &&& match self.slots()[self.sindex()[i] as int] {
            SortTarget::Content(c) => c as int == i,
            SortTarget::Unsorted(u) => (u as int) < self.uns().len() && self.uns()[u as int]
                == Some(i as usize),
        }
    }

    /// The slot's reference leads back to a content position whose slot
    /// record is this slot.
    spec fn slot_ok(self, s: int) -> bool {
        match self.slots()[s] {
            SortTarget::Content(c) => (c as int) < self@.len() && self.sindex()[c as int] as int
                == s,
            SortTarget::Unsorted(u) => (u as int) < self.uns().len() && match self.uns()[u as int] {
                Some(i) => (i as int) < self@.len() && self.sindex()[i as int] as int == s,
                None => false,
            },
        }
    }

    /// A pending entry's content position records a slot that points at
    /// this entry.
    spec fn uns_ok(self, u: int) -> bool {
        match self.uns()[u] {
            Some(i) => (i as int) < self@.len() && (self.sindex()[i as int] as int)
                < self.slots().len() && match self.slots()[self.sindex()[i as int] as int] {
                SortTarget::Unsorted(u2) => u2 as int == u,
                SortTarget::Content(_) => false,
            },
            None => true,
        }
    }

    /// The in-place slots of the sorted order hold non-decreasing values.
    spec fn slots_sorted(self) -> bool {
        forall|s1: int, s2: int|
            0 <= s1 < s2 < self.slots().len() ==> match (#[trigger] self.slots()[s1], #[trigger]
            self.slots()[s2]) {
                (SortTarget::Content(c1), SortTarget::Content(c2)) => self@[c1 as int] <= self@[c2
                    as int],
                _ => true,
            }
    }

    /// One slot per content position, all references mutually consistent,
    /// and the in-place part of the sorted order really sorted.
    pub closed spec fn wf(self) -> bool {
        &&& self@.len() <= usize::MAX
        &&& self.sindex().len() == self@.len()
        &&& self.slots().len() == self@.len()
        &&& forall|i: int| 0 <= i < self@.len() ==> #[trigger] self.live_ok(i)
        &&& forall|s: int| 0 <= s < self.slots().len() ==> #[trigger] self.slot_ok(s)
        &&& forall|u: int| 0 <= u < self.uns().len() ==> #[trigger] self.uns_ok(u)
        &&& self.slots_sorted()
    }

    /// Nothing is pending: every slot holds its element in place.
    pub closed spec fn fully_merged(self) -> bool {
        forall|s: int|
            0 <= s < self.slots().len() ==> (#[trigger] self.slots()[s]) matches
                SortTarget::Content(_)
    }

    /// The values of the sorted order, slot by slot.
    pub closed spec fn merged_view(self) -> Seq<usize> {
        Seq::new(
            self.slots().len(),
            |s: int|
                match self.slots()[s] {
                    SortTarget::Content(c) => self@[c as int],
                    SortTarget::Unsorted(_) => 0,
                },
        )
    }

    /// No two content positions share a slot.
    proof fn lemma_sindex_injective(self, i1: int, i2: int)
        requires
            self.wf(),
            0 <= i1 < self@.len(),
            0 <= i2 < self@.len(),
            i1 != i2,
        ensures
            self.sindex()[i1] != self.sindex()[i2],
    {
        assert(self.live_ok(i1));
        assert(self.live_ok(i2));
        if self.sindex()[i1] == self.sindex()[i2] {
            let s = self.sindex()[i1] as int;
            match self.slots()[s] {
                SortTarget::Content(c) => {
                    assert(c as int == i1 && c as int == i2);
                },
                SortTarget::Unsorted(u) => {
                    assert(self.uns()[u as int] == Some(i1 as usize));
                    assert(self.uns()[u as int] == Some(i2 as usize));
                },
            }
        }
    }

    /// Create a new, empty vector.
    pub fn new() -> (r: MergeVec)
        ensures
            r.wf(),
            r@ == Seq::<usize>::empty(),
    {
        let r = MergeVec {
            content: Vec::new(),
            sort_index: Vec::new(),
            sorted: Vec::new(),
            unsorted: Vec::new(),
        };
        proof {
            assert(r@ =~= Seq::<usize>::empty());
        }
        r
    }

    /// Build a merge vector over the given contents, with every position
    /// pending.
    pub fn from_vec(vec: Vec<usize>) -> (r: MergeVec)
        ensures
            r.wf(),
            r@ == vec@,
    {
        let n = vec.len();
        let mut sort_index: Vec<usize> = Vec::new();
        let mut sorted: Vec<SortTarget> = Vec::new();
        let mut unsorted: Vec<Option<usize>> = Vec::new();
        let mut i: usize = 0;
        while i < n
            invariant
                i <= n,
                sort_index@.len() == i,
                sorted@.len() == i,
                unsorted@.len() == i,
                forall|k: int| 0 <= k < i ==> (#[trigger] sort_index@[k]) == k,
                forall|k: int| 0 <= k < i ==> (#[trigger] sorted@[k]) == SortTarget::Unsorted(
                    k as usize,
                ),
                forall|k: int| 0 <= k < i ==> (#[trigger] unsorted@[k]) == Some(k as usize),
            decreases n - i,
        {
            sort_index.push(i);
            sorted.push(SortTarget::Unsorted(i));
            unsorted.push(Some(i));
            i = i + 1;
        }
        let r = MergeVec { content: vec, sort_index, sorted, unsorted };
        proof {
            assert forall|k: int| 0 <= k < r@.len() implies #[trigger] r.live_ok(k) by {}
            assert forall|s: int| 0 <= s < r.slots().len() implies #[trigger] r.slot_ok(s) by {}
            assert forall|u: int| 0 <= u < r.uns().len() implies #[trigger] r.uns_ok(u) by {}
        }
        r
    }

    /// The length of the vector.
    pub fn len(&self) -> (r: usize)
        ensures
            r == self@.len(),
    {
        self.content.len()
    }

    /// Get the element at a position of the contents, or `None` past the
    /// end.
    pub fn get(&self, index: usize) -> (r: Option<usize>)
        ensures
            index < self@.len() ==> r == Some(self@[index as int]),
            index >= self@.len() ==> r.is_none(),
    {
        if index < self.content.len() {
            Some(self.content[index])
        } else {
            None
        }
    }

    /// Would a slot hold its order if it held this value? Conservative:
    /// a pending neighbour counts as out of order.
    fn would_be_sorted(&self, sort_index: usize, value: usize) -> (r: bool)
        requires
            self.wf(),
            sort_index < self.slots().len(),
        ensures
            r == self.would_spec(sort_index as int, value),
    {
        let mut ok = true;
        if sort_index > 0 {
            match self.sorted[sort_index - 1] {
                SortTarget::Content(c) => {
                    proof {
                        assert(self.slot_ok(sort_index - 1));
                    }
                    if self.content[c] > value {
                        ok = false;
                    }
                },
                SortTarget::Unsorted(_) => {
                    ok = false;
                },
            }
        }
        if ok && sort_index < self.sorted.len() - 1 {
            match self.sorted[sort_index + 1] {
                SortTarget::Content(c) => {
                    proof {
                        assert(self.slot_ok(sort_index + 1));
                    }
                    if self.content[c] < value {
                        ok = false;
                    }
                },
                SortTarget::Unsorted(_) => {
                    ok = false;
                },
            }
        }
        ok
    }

    /// The value fits at the slot: each neighbouring slot holds an
    /// in-place element on the right side of it, or does not exist.
    spec fn would_spec(self, j: int, value: usize) -> bool {
        &&& (j == 0 || match self.slots()[j - 1] {
            SortTarget::Content(c) => self@[c as int] <= value,
            SortTarget::Unsorted(_) => false,
        })
        &&& (j + 1 >= self.slots().len() || match self.slots()[j + 1] {
            SortTarget::Content(c) => value <= self@[c as int],
            SortTarget::Unsorted(_) => false,
        })
    }

    /// Append an element to the end of the vector. It joins the sorted
    /// run when it is at least the value of the last in-place slot, and
    /// the pending store otherwise.
    pub fn push(&mut self, value: usize)
        requires
            old(self).wf(),
            old(self)@.len() < usize::MAX,
        ensures
            final(self).wf(),
            final(self)@ == old(self)@.push(value),
    {
        let content_index = self.content.len();
        let in_order: bool = if self.sorted.len() == 0 {
            true
        } else {
            match self.sorted[self.sorted.len() - 1] {
                SortTarget::Content(c) => {
                    proof {
                        assert(self.slot_ok(self.slots().len() - 1));
                    }
                    self.content[c] <= value
                },
                SortTarget::Unsorted(_) => false,
            }
        };
        let slot = self.sorted.len();
        self.sort_index.push(slot);
        if in_order {
            self.sorted.push(SortTarget::Content(content_index));
        } else {
            let u = self.unsorted.len();
            self.sorted.push(SortTarget::Unsorted(u));
            self.unsorted.push(Some(content_index));
        }
        self.content.push(value);
        proof {
            let n = old(self)@.len() as int;
            assert forall|i: int| 0 <= i < self@.len() implies #[trigger] self.live_ok(i) by {
                if i < n {
                    assert(old(self).live_ok(i));
                }
            }
            assert forall|s: int| 0 <= s < self.slots().len() implies #[trigger] self.slot_ok(
                s,
            ) by {
                if s < n {
                    assert(old(self).slot_ok(s));
                }
            }
            assert forall|u: int| 0 <= u < self.uns().len() implies #[trigger] self.uns_ok(u) by {
                if u < old(self).uns().len() {
                    assert(old(self).uns_ok(u));
                }
            }
            assert forall|s1: int, s2: int| 0 <= s1 < s2 < self.slots().len() implies match (
            #[trigger] self.slots()[s1],
            #[trigger] self.slots()[s2],
            ) {
                (SortTarget::Content(c1), SortTarget::Content(c2)) => self@[c1 as int] <= self@[c2
                    as int],
                _ => true,
            } by {
                if s2 < n {
                    assert(old(self).slot_ok(s1));
                    assert(old(self).slot_ok(s2));
                } else if in_order && s1 < n {
                    assert(old(self).slot_ok(s1));
                    if s1 < n - 1 {
                        assert(old(self).slot_ok(n - 1));
                    }
                }
            }
        }
    }

    /// Set the element at a position of the contents. The position stays
    /// on, rejoins, or leaves the sorted run according to whether the new
    /// value fits at its slot.
    pub fn set(&mut self, index: usize, value: usize)
        requires
            old(self).wf(),
            index < old(self)@.len(),
        ensures
            final(self).wf(),
            final(self)@ == old(self)@.update(index as int, value),
    {
        proof {
            assert(old(self).live_ok(index as int));
        }
        let sort_index = self.sort_index[index];
        let fits = self.would_be_sorted(sort_index, value);
        let old_loc = self.sorted[sort_index];
        match old_loc {
            SortTarget::Content(_) => {
                if !fits {
                    let new_index = self.unsorted.len();
                    self.sorted[sort_index] = SortTarget::Unsorted(new_index);
                    self.unsorted.push(Some(index));
                }
            },
            SortTarget::Unsorted(unsort_index) => {
                proof {
                    assert(old(self).live_ok(index as int));
                }
                if fits {
                    self.unsorted[unsort_index] = None;
                    self.sorted[sort_index] = SortTarget::Content(index);
                }
            },
        }
        self.content[index] = value;
        proof {
            let a = *old(self);
            let n = a@.len() as int;
            let j = a.sindex()[index as int] as int;
            assert(a.live_ok(index as int));
            assert forall|i: int| 0 <= i < self@.len() implies #[trigger] self.live_ok(i) by {
                assert(a.live_ok(i));
                if i != index as int {
                    a.lemma_sindex_injective(i, index as int);
                    assert(self.slots()[self.sindex()[i] as int] == a.slots()[a.sindex()[i]
                        as int]);
                    match a.slots()[a.sindex()[i] as int] {
                        SortTarget::Content(_) => {},
                        SortTarget::Unsorted(u2) => {
                            assert(a.uns()[u2 as int] == Some(i as usize));
                            assert(self.uns()[u2 as int] == Some(i as usize));
                        },
                    }
                }
            }
            assert forall|s: int| 0 <= s < self.slots().len() implies #[trigger] self.slot_ok(
                s,
            ) by {
                assert(a.slot_ok(s));
                if s != j {
                    assert(self.slots()[s] == a.slots()[s]);
                    match a.slots()[s] {
                        SortTarget::Content(_) => {},
                        SortTarget::Unsorted(u2) => {
                            match a.uns()[u2 as int] {
                                Some(i) => {
                                    if i as int == index as int {
                                        assert(a.sindex()[i as int] as int == s);
                                        assert(false);
                                    }
                                },
                                None => {},
                            }
                            assert(self.uns()[u2 as int] == a.uns()[u2 as int]);
                        },
                    }
                }
            }
            assert forall|u: int| 0 <= u < self.uns().len() implies #[trigger] self.uns_ok(u) by {
                if u < a.uns().len() {
                    assert(a.uns_ok(u));
                    match a.uns()[u] {
                        Some(i) => {
                            if i as int != index as int {
                                a.lemma_sindex_injective(i as int, index as int);
                                assert(a.sindex()[i as int] as int != j);
                            }
                        },
                        None => {},
                    }
                }
            }
            assert forall|s1: int, s2: int| 0 <= s1 < s2 < self.slots().len() implies match (
            #[trigger] self.slots()[s1],
            #[trigger] self.slots()[s2],
            ) {
                (SortTarget::Content(c1), SortTarget::Content(c2)) => self@[c1 as int] <= self@[c2
                    as int],
                _ => true,
            } by {
                lemma_set_slots_sorted(a, *self, j, index as int, value, s1, s2);
            }
            assert(self@ =~= a@.update(index as int, value));
        }
    }

    /// Truncate this vector; every surviving position becomes pending, so
    /// the next sort rebuilds the order from scratch.
    pub fn truncate(&mut self, len: usize)
        requires
            old(self).wf(),
        ensures
            final(self).wf(),
            len >= old(self)@.len() ==> final(self)@ == old(self)@,
            len < old(self)@.len() ==> final(self)@ == old(self)@.take(len as int),
    {
        if len >= self.content.len() {
            return ;
        }
        self.content.truncate(len);
        self.sort_index.truncate(len);
        self.sorted.truncate(len);
        self.unsorted.clear();
        let mut i: usize = 0;
        while i < len
            invariant
                i <= len,
                len == self@.len(),
                self.sindex().len() == len,
                self.slots().len() == len,
                self.uns().len() == i,
                self@ == old(self)@.take(len as int),
                forall|k: int| 0 <= k < i ==> (#[trigger] self.sindex()[k]) == k,
                forall|k: int| 0 <= k < i ==> (#[trigger] self.slots()[k]) == SortTarget::Unsorted(
                    k as usize,
                ),
                forall|k: int| 0 <= k < i ==> (#[trigger] self.uns()[k]) == Some(k as usize),
            decreases len - i,
        {
            self.sort_index[i] = i;
            self.sorted[i] = SortTarget::Unsorted(i);
            self.unsorted.push(Some(i));
            i = i + 1;
        }
        proof {
            assert forall|k: int| 0 <= k < self@.len() implies #[trigger] self.live_ok(k) by {}
            assert forall|s: int| 0 <= s < self.slots().len() implies #[trigger] self.slot_ok(
                s,
            ) by {}
            assert forall|u: int| 0 <= u < self.uns().len() implies #[trigger] self.uns_ok(u) by {}
        }
    }
}

/// `x` is a live content position waiting in the pending store, at an
/// entry below `ubound`.
spec fn pending_pos(a: MergeVec, x: usize, ubound: int) -> bool {
    &&& (x as int) < a@.len()
    &&& (a.sindex()[x as int] as int) < a.slots().len()
    &&& match a.slots()[a.sindex()[x as int] as int] {
        SortTarget::Unsorted(u2) => (u2 as int) < ubound && (u2 as int) < a.uns().len()
            && a.uns()[u2 as int] == Some(x),
        SortTarget::Content(_) => false,
    }
}

/// `x` is a live content position sitting in place at a slot below
/// `sbound`.
spec fn run_pos(a: MergeVec, x: usize, sbound: int) -> bool {
    &&& (x as int) < a@.len()
    &&& (a.sindex()[x as int] as int) < sbound
    &&& (a.sindex()[x as int] as int) < a.slots().len()
    &&& a.slots()[a.sindex()[x as int] as int] == SortTarget::Content(x)
}

impl MergeVec {
    /// Consolidate the pending positions: order them by value and merge
    /// them with the already-sorted run, so that every slot holds its
    /// element in place.
    pub fn sort(&mut self)
        requires
            old(self).wf(),
        ensures
            final(self).wf(),
            final(self)@ == old(self)@,
            final(self).fully_merged(),
            sorted(final(self).merged_view()),
            final(self).merged_view().to_multiset() == old(self)@.to_multiset(),
    {
        let n = self.content.len();
        let ulen = self.unsorted.len();
        let mut pend: Vec<usize> = Vec::new();
        let mut u: usize = 0;
        while u < ulen
            invariant
                *self == *old(self),
                self.wf(),
                n == self@.len(),
                ulen == self.uns().len(),
                u <= ulen,
                forall|k: int|
                    0 <= k < pend@.len() ==> pending_pos(*self, #[trigger] pend@[k], u as int),
                forall|k1: int, k2: int| 0 <= k1 < k2 < pend@.len() ==> pend@[k1] != pend@[k2],
                forall|uu: int|
                    0 <= uu < u ==> match #[trigger] self.uns()[uu] {
                        Some(i) => pend@.contains(i),
                        None => true,
                    },
            decreases ulen - u,
        {
            proof {
                assert(self.uns_ok(u as int));
            }
            let ghost pend0 = pend@;
            match self.unsorted[u] {
                Some(i) => {
                    pend.push(i);
                    proof {
                        assert forall|k: int|
                            0 <= k < pend@.len() implies pending_pos(
                            *self,
                            #[trigger] pend@[k],
                            u as int + 1,
                        ) by {
                            if k < pend0.len() {
                                assert(pending_pos(*self, pend0[k], u as int));
                            }
                        }
                        assert forall|k1: int, k2: int|
                            0 <= k1 < k2 < pend@.len() implies pend@[k1] != pend@[k2] by {
                            if k2 == pend0.len() {
                                assert(pending_pos(*self, pend0[k1], u as int));
                            }
                        }
                        assert forall|uu: int|
                            0 <= uu < u + 1 implies match #[trigger] self.uns()[uu] {
                            Some(i2) => pend@.contains(i2),
                            None => true,
                        } by {
                            match self.uns()[uu] {
                                Some(i2) => {
                                    if uu < u {
                                        let k = choose|k: int|
                                            0 <= k < pend0.len() && pend0[k] == i2;
                                        assert(pend@[k] == i2);
                                    } else {
                                        assert(pend@[pend0.len() as int] == i2);
                                    }
                                },
                                None => {},
                            }
                        }
                    }
                },
                None => {},
            }
            u = u + 1;
        }
        let m = pend.len();
        if m > 1 {
            let mut i1: usize = 1;
            while i1 < m
                invariant
                    *self == *old(self),
                    self.wf(),
                    n == self@.len(),
                    ulen == self.uns().len(),
                    m == pend@.len(),
                    1 <= i1 <= m,
                    forall|k: int|
                        0 <= k < m ==> pending_pos(*self, #[trigger] pend@[k], ulen as int),
                    forall|k1: int, k2: int| 0 <= k1 < k2 < m ==> pend@[k1] != pend@[k2],
                    forall|uu: int|
                        0 <= uu < ulen ==> match #[trigger] self.uns()[uu] {
                            Some(i) => pend@.contains(i),
                            None => true,
                        },
                    forall|a1: int, b1: int|
                        0 <= a1 <= b1 < i1 ==> self@[(#[trigger] pend@[a1]) as int] <= self@[(
                        #[trigger] pend@[b1]) as int],
                decreases m - i1,
            {
                let mut j1: usize = i1;
                proof {
                    assert forall|a1: int, b1: int|
                        0 <= a1 <= b1 <= i1 && a1 != j1 && b1 != j1 implies self@[(
                    #[trigger] pend@[a1]) as int] <= self@[(#[trigger] pend@[b1]) as int] by {}
                }
                while j1 > 0 && self.content[pend[j1 - 1]] > self.content[pend[j1]]
                    invariant
                        *self == *old(self),
                        self.wf(),
                        n == self@.len(),
                        ulen == self.uns().len(),
                        m == pend@.len(),
                        0 <= j1 <= i1 < m,
                        forall|k: int|
                            0 <= k < m ==> pending_pos(*self, #[trigger] pend@[k], ulen as int),
                        forall|k1: int, k2: int| 0 <= k1 < k2 < m ==> pend@[k1] != pend@[k2],
                        forall|uu: int|
                            0 <= uu < ulen ==> match #[trigger] self.uns()[uu] {
                                Some(i) => pend@.contains(i),
                                None => true,
                            },
                        forall|a1: int, b1: int|
                            0 <= a1 <= b1 <= i1 && a1 != j1 && b1 != j1 ==> self@[(
                            #[trigger] pend@[a1]) as int] <= self@[(#[trigger] pend@[b1]) as int],
                        forall|a1: int|
                            j1 < a1 <= i1 ==> self@[pend@[j1 as int] as int] <= self@[(
                            #[trigger] pend@[a1]) as int],
                    decreases j1,
                {
                    let ghost pend0 = pend@;
                    let pa = pend[j1 - 1];
                    let pb = pend[j1];
                    pend[j1 - 1] = pb;
                    pend[j1] = pa;
                    proof {
                        assert(pend@ =~= pend0.update(j1 - 1, pend0[j1 as int]).update(
                            j1 as int,
                            pend0[j1 - 1],
                        ));
                        assert forall|k: int|
                            0 <= k < m implies pending_pos(
                            *self,
                            #[trigger] pend@[k],
                            ulen as int,
                        ) by {
                            if k == j1 - 1 || k == j1 {
                                assert(pending_pos(*self, pend0[j1 as int], ulen as int));
                                assert(pending_pos(*self, pend0[j1 - 1], ulen as int));
                            } else {
                                assert(pending_pos(*self, pend0[k], ulen as int));
                            }
                        }
                        assert forall|k1: int, k2: int|
                            0 <= k1 < k2 < m implies pend@[k1] != pend@[k2] by {
                            let m1: int = if k1 == j1 - 1 {
                                j1 as int
                            } else if k1 == j1 {
                                j1 - 1
                            } else {
                                k1
                            };
                            let m2: int = if k2 == j1 - 1 {
                                j1 as int
                            } else if k2 == j1 {
                                j1 - 1
                            } else {
                                k2
                            };
                            assert(pend@[k1] == pend0[m1]);
                            assert(pend@[k2] == pend0[m2]);
                        }
                        assert forall|uu: int|
                            0 <= uu < ulen implies match #[trigger] self.uns()[uu] {
                            Some(i) => pend@.contains(i),
                            None => true,
                        } by {
                            match self.uns()[uu] {
                                Some(i) => {
                                    let k = choose|k: int| 0 <= k < m && pend0[k] == i;
                                    if k == j1 - 1 {
                                        assert(pend@[j1 as int] == i);
                                    } else if k == j1 {
                                        assert(pend@[j1 - 1] == i);
                                    } else {
                                        assert(pend@[k] == i);
                                    }
                                },
                                None => {},
                            }
                        }
                        let v0 = Seq::new(m as nat, |k: int| self@[pend0[k] as int]);
                        let v1 = Seq::new(m as nat, |k: int| self@[pend@[k] as int]);
                        assert forall|a1: int, b1: int|
                            0 <= a1 <= b1 <= i1 && a1 != j1 - 1 && b1 != j1 - 1 implies self@[(
                        #[trigger] pend@[a1]) as int] <= self@[(#[trigger] pend@[b1]) as int] by {
                            if a1 == j1 {
                                if b1 != j1 {
                                    assert(self@[pend0[j1 - 1] as int] <= self@[pend0[b1] as int]);
                                }
                            } else if b1 == j1 {
                                assert(self@[pend0[a1] as int] <= self@[pend0[j1 - 1] as int]);
                            } else {
                                assert(self@[pend0[a1] as int] <= self@[pend0[b1] as int]);
                            }
                        }
                        assert forall|a1: int|
                            j1 - 1 < a1 <= i1 implies self@[pend@[j1 - 1] as int] <= self@[(
                        #[trigger] pend@[a1]) as int] by {
                            if a1 == j1 {
                            } else {
                                assert(self@[pend0[j1 as int] as int] <= self@[pend0[a1] as int]);
                            }
                        }
                    }
                    j1 = j1 - 1;
                }
                proof {
                    assert forall|a1: int, b1: int|
                        0 <= a1 <= b1 < i1 + 1 implies self@[(#[trigger] pend@[a1]) as int]
                        <= self@[(#[trigger] pend@[b1]) as int] by {
                        if a1 != j1 && b1 != j1 {
                        } else if a1 == j1 && b1 == j1 {
                        } else if a1 == j1 {
                            assert(self@[pend@[j1 as int] as int] <= self@[pend@[b1] as int]);
                        } else {
                            assert(j1 > 0);
                            assert(self@[pend@[j1 - 1] as int] <= self@[pend@[j1 as int] as int]);
                            if a1 == j1 - 1 {
                            } else {
                                assert(self@[pend@[a1] as int] <= self@[pend@[j1 - 1] as int]);
                            }
                        }
                    }
                }
                i1 = i1 + 1;
            }
        }
        let mut runv: Vec<usize> = Vec::new();
        let mut s: usize = 0;
        while s < self.sorted.len()
            invariant
                *self == *old(self),
                self.wf(),
                n == self@.len(),
                ulen == self.uns().len(),
                s <= self.slots().len(),
                forall|k: int|
                    0 <= k < runv@.len() ==> run_pos(*self, #[trigger] runv@[k], s as int),
                forall|k1: int, k2: int| 0 <= k1 < k2 < runv@.len() ==> runv@[k1] != runv@[k2],
                forall|k1: int, k2: int|
                    0 <= k1 <= k2 < runv@.len() ==> self@[(#[trigger] runv@[k1]) as int] <= self@[(
                    #[trigger] runv@[k2]) as int],
                forall|ss: int|
                    0 <= ss < s ==> match #[trigger] self.slots()[ss] {
                        SortTarget::Content(c) => runv@.contains(c),
                        SortTarget::Unsorted(_) => true,
                    },
            decreases self.slots().len() - s,
        {
            proof {
                assert(self.slot_ok(s as int));
            }
            let ghost runv0 = runv@;
            match self.sorted[s] {
                SortTarget::Content(c) => {
                    runv.push(c);
                    proof {
                        assert forall|k: int|
                            0 <= k < runv@.len() implies run_pos(
                            *self,
                            #[trigger] runv@[k],
                            s as int + 1,
                        ) by {
                            if k < runv0.len() {
                                assert(run_pos(*self, runv0[k], s as int));
                            }
                        }
                        assert forall|k1: int, k2: int|
                            0 <= k1 < k2 < runv@.len() implies runv@[k1] != runv@[k2] by {
                            if k2 == runv0.len() {
                                assert(run_pos(*self, runv0[k1], s as int));
                            }
                        }
                        assert forall|k1: int, k2: int|
                            0 <= k1 <= k2 < runv@.len() implies self@[(#[trigger] runv@[k1]) as int]
                            <= self@[(#[trigger] runv@[k2]) as int] by {
                            if k2 == runv0.len() && k1 < k2 {
                                assert(run_pos(*self, runv0[k1], s as int));
                                let s1 = self.sindex()[runv0[k1] as int] as int;
                                assert(match (self.slots()[s1], self.slots()[s as int]) {
                                    (SortTarget::Content(c1), SortTarget::Content(c2)) => self@[c1
                                        as int] <= self@[c2 as int],
                                    _ => true,
                                });
                            }
                        }
                        assert forall|ss: int|
                            0 <= ss < s + 1 implies match #[trigger] self.slots()[ss] {
                            SortTarget::Content(c2) => runv@.contains(c2),
                            SortTarget::Unsorted(_) => true,
                        } by {
                            match self.slots()[ss] {
                                SortTarget::Content(c2) => {
                                    if ss < s {
                                        let k = choose|k: int|
                                            0 <= k < runv0.len() && runv0[k] == c2;
                                        assert(runv@[k] == c2);
                                    } else {
                                        assert(runv@[runv0.len() as int] == c2);
                                    }
                                },
                                SortTarget::Unsorted(_) => {},
                            }
                        }
                    }
                },
                SortTarget::Unsorted(_) => {},
            }
            s = s + 1;
        }
        proof {
            assert forall|ka: int, kb: int|
                0 <= ka < runv@.len() && 0 <= kb < pend@.len() implies runv@[ka] != pend@[kb] by {
                assert(run_pos(*self, runv@[ka], self.slots().len() as int));
                assert(pending_pos(*self, pend@[kb], ulen as int));
            }
        }
        let mut merged: Vec<usize> = Vec::new();
        let mut a1: usize = 0;
        let mut b1: usize = 0;
        while a1 < runv.len() || b1 < pend.len()
            invariant
                *self == *old(self),
                self.wf(),
                n == self@.len(),
                ulen == self.uns().len(),
                a1 <= runv@.len(),
                b1 <= pend@.len(),
                merged@.len() == a1 + b1,
                forall|k: int| 0 <= k < runv@.len() ==> (#[trigger] runv@[k] as int) < n,
                forall|k: int| 0 <= k < pend@.len() ==> (#[trigger] pend@[k] as int) < n,
                forall|k1: int, k2: int|
                    0 <= k1 <= k2 < runv@.len() ==> self@[(#[trigger] runv@[k1]) as int] <= self@[(
                    #[trigger] runv@[k2]) as int],
                forall|k1: int, k2: int|
                    0 <= k1 <= k2 < pend@.len() ==> self@[(#[trigger] pend@[k1]) as int] <= self@[(
                    #[trigger] pend@[k2]) as int],
                forall|k1: int, k2: int| 0 <= k1 < k2 < runv@.len() ==> runv@[k1] != runv@[k2],
                forall|k1: int, k2: int| 0 <= k1 < k2 < pend@.len() ==> pend@[k1] != pend@[k2],
                forall|ka: int, kb: int|
                    0 <= ka < runv@.len() && 0 <= kb < pend@.len() ==> runv@[ka] != pend@[kb],
                forall|x: int| 0 <= x < merged@.len() ==> (#[trigger] merged@[x] as int) < n,
                forall|x: int, y: int|
                    0 <= x <= y < merged@.len() ==> self@[(#[trigger] merged@[x]) as int] <= self@[(
                    #[trigger] merged@[y]) as int],
                forall|x: int, k: int|
                    0 <= x < merged@.len() && a1 <= k < runv@.len() ==> self@[(
                    #[trigger] merged@[x]) as int] <= self@[(#[trigger] runv@[k]) as int],
                forall|x: int, k: int|
                    0 <= x < merged@.len() && b1 <= k < pend@.len() ==> self@[(
                    #[trigger] merged@[x]) as int] <= self@[(#[trigger] pend@[k]) as int],
                forall|x: int, y: int| 0 <= x < y < merged@.len() ==> merged@[x] != merged@[y],
                forall|x: int, k: int|
                    0 <= x < merged@.len() && a1 <= k < runv@.len() ==> (#[trigger] merged@[x]) != (
                    #[trigger] runv@[k]),
                forall|x: int, k: int|
                    0 <= x < merged@.len() && b1 <= k < pend@.len() ==> (#[trigger] merged@[x]) != (
                    #[trigger] pend@[k]),
                forall|k: int| 0 <= k < a1 ==> merged@.contains(#[trigger] runv@[k]),
                forall|k: int| 0 <= k < b1 ==> merged@.contains(#[trigger] pend@[k]),
            decreases runv@.len() + pend@.len() - a1 - b1,
        {
            let ghost merged0 = merged@;
            let take_run: bool = if a1 < runv.len() {
                if b1 < pend.len() {
                    self.content[runv[a1]] <= self.content[pend[b1]]
                } else {
                    true
                }
            } else {
                false
            };
            if take_run {
                merged.push(runv[a1]);
                a1 = a1 + 1;
            } else {
                merged.push(pend[b1]);
                b1 = b1 + 1;
            }
            proof {
                assert forall|k: int|
                    0 <= k < a1 implies merged@.contains(#[trigger] runv@[k]) by {
                    if k + 1 < a1 || take_run {
                    }
                    if take_run && k == a1 - 1 {
                        assert(merged@[merged0.len() as int] == runv@[k]);
                    } else {
                        let x = choose|x: int| 0 <= x < merged0.len() && merged0[x] == runv@[k];
                        assert(merged@[x] == runv@[k]);
                    }
                }
                assert forall|k: int|
                    0 <= k < b1 implies merged@.contains(#[trigger] pend@[k]) by {
                    if !take_run && k == b1 - 1 {
                        assert(merged@[merged0.len() as int] == pend@[k]);
                    } else {
                        let x = choose|x: int| 0 <= x < merged0.len() && merged0[x] == pend@[k];
                        assert(merged@[x] == pend@[k]);
                    }
                }
            }
        }
        proof {
            assert forall|i: int| 0 <= i < n implies perm_covers(merged@, i) by {
                assert(self.live_ok(i));
                let j = self.sindex()[i] as int;
                match self.slots()[j] {
                    SortTarget::Content(c) => {
                        assert(runv@.contains(c));
                        let k = choose|k: int| 0 <= k < runv@.len() && runv@[k] == c;
                        assert(merged@.contains(runv@[k]));
                        let x = choose|x: int| 0 <= x < merged@.len() && merged@[x] == runv@[k];
                        assert(merged@[x] as int == i);
                    },
                    SortTarget::Unsorted(u2) => {
                        assert(self.uns_ok(u2 as int));
                        assert(pend@.contains(i as usize));
                        let k = choose|k: int| 0 <= k < pend@.len() && pend@[k] == i as usize;
                        assert(merged@.contains(pend@[k]));
                        let x = choose|x: int| 0 <= x < merged@.len() && merged@[x] == pend@[k];
                        assert(merged@[x] as int == i);
                    },
                }
            }
            crate::order::lemma_perm_covering_len(merged@, n as nat);
        }
        self.unsorted = Vec::new();
        let ghost contents0 = self@;
        let ghost mseq = merged@;
        let mut k2: usize = 0;
        while k2 < merged.len()
            invariant
                merged@ == mseq,
                self@ == contents0,
                n == self@.len(),
                mseq.len() == n,
                is_perm_on(mseq, n as nat),
                forall|x: int, y: int|
                    0 <= x <= y < mseq.len() ==> self@[(#[trigger] mseq[x]) as int] <= self@[(
                    #[trigger] mseq[y]) as int],
                n <= usize::MAX,
                k2 <= n,
                self.sindex().len() == n,
                self.slots().len() == n,
                self.uns().len() == 0,
                forall|kk: int|
                    0 <= kk < k2 ==> (#[trigger] self.slots()[kk]) == SortTarget::Content(
                        mseq[kk],
                    ),
                forall|kk: int|
                    0 <= kk < k2 ==> (#[trigger] self.sindex()[mseq[kk] as int]) == kk as usize,
            decreases n - k2,
        {
            let c = merged[k2];
            self.sorted[k2] = SortTarget::Content(c);
            self.sort_index[c] = k2;
            proof {
                assert forall|kk: int|
                    0 <= kk < k2 + 1 implies (#[trigger] self.sindex()[mseq[kk] as int]) == kk
                        as usize by {
                    if kk < k2 {
                        assert(mseq[kk] != mseq[k2 as int]);
                    }
                }
            }
            k2 = k2 + 1;
        }
        proof {
            assert forall|i: int| 0 <= i < self@.len() implies #[trigger] self.live_ok(i) by {
                assert(perm_covers(mseq, i));
                let kk = choose|kk: int| 0 <= kk < mseq.len() && mseq[kk] == i;
                assert(self.sindex()[mseq[kk] as int] == kk as usize);
                assert(self.slots()[kk] == SortTarget::Content(mseq[kk]));
            }
            assert forall|ss: int| 0 <= ss < self.slots().len() implies #[trigger] self.slot_ok(
                ss,
            ) by {
                assert(self.slots()[ss] == SortTarget::Content(mseq[ss]));
                assert(self.sindex()[mseq[ss] as int] == ss as usize);
            }
            assert forall|uu: int| 0 <= uu < self.uns().len() implies #[trigger] self.uns_ok(
                uu,
            ) by {}
            assert forall|s1: int, s2: int| 0 <= s1 < s2 < self.slots().len() implies match (
            #[trigger] self.slots()[s1],
            #[trigger] self.slots()[s2],
            ) {
                (SortTarget::Content(c1), SortTarget::Content(c2)) => self@[c1 as int] <= self@[c2
                    as int],
                _ => true,
            } by {
                assert(self@[mseq[s1] as int] <= self@[mseq[s2] as int]);
            }
            assert(self.merged_view() =~= apply_perm(self@, mseq));
            lemma_apply_perm_multiset(self@, mseq);
            assert forall|x: int, y: int|
                0 <= x <= y < self.merged_view().len() implies self.merged_view()[x]
                <= self.merged_view()[y] by {
                assert(self@[mseq[x] as int] <= self@[mseq[y] as int]);
            }
        }
    }

    /// Sort, then iterate the sorted order.
    pub fn sorted_iter(&mut self) -> (r: MergeVecIter)
        requires
            old(self).wf(),
        ensures
            final(self).wf(),
            final(self)@ == old(self)@,
            final(self).fully_merged(),
            sorted(final(self).merged_view()),
            final(self).merged_view().to_multiset() == old(self)@.to_multiset(),
            r.wf(),
            r.remaining() == final(self).merged_view(),
    {
        self.sort();
        let ghost snap = *self;
        let mut vals: Vec<usize> = Vec::new();
        let mut s: usize = 0;
        while s < self.sorted.len()
            invariant
                *self == snap,
                self.wf(),
                self.fully_merged(),
                s <= self.slots().len(),
                vals@ == self.merged_view().take(s as int),
            decreases self.slots().len() - s,
        {
            proof {
                assert(self.slot_ok(s as int));
                assert(self.slots()[s as int] matches SortTarget::Content(_));
            }
            match self.sorted[s] {
                SortTarget::Content(c) => {
                    vals.push(self.content[c]);
                },
                SortTarget::Unsorted(_) => {
                    proof {
                        assert(false);
                    }
                },
            }
            s = s + 1;
            proof {
                assert(vals@ =~= self.merged_view().take(s as int));
            }
        }
        proof {
            assert(vals@ =~= self.merged_view());
        }
        let r = MergeVecIter { vals, pos: 0 };
        proof {
            assert(r.remaining() =~= r.vals@);
        }
        r
    }
}

/// After a set, the in-place slots still hold non-decreasing values: the
/// touched slot either kept a value that fits between its in-place
/// neighbours or left the run.
proof fn lemma_set_slots_sorted(
    a: MergeVec,
    b: MergeVec,
    j: int,
    index: int,
    value: usize,
    s1: int,
    s2: int,
)
    requires
        a.wf(),
        0 <= index < a@.len(),
        j == a.sindex()[index] as int,
        b@ == a@.update(index, value),
        b.slots().len() == a.slots().len(),
        0 <= s1 < s2 < b.slots().len(),
        forall|s: int| 0 <= s < a.slots().len() && s != j ==> b.slots()[s] == a.slots()[s],
        (b.slots()[j] matches SortTarget::Content(c) && c as int == index) ==> a.would_spec(
            j,
            value,
        ),
        b.slots()[j] matches SortTarget::Content(c) ==> c as int == index,
    ensures
        match (b.slots()[s1], b.slots()[s2]) {
            (SortTarget::Content(c1), SortTarget::Content(c2)) => b@[c1 as int] <= b@[c2 as int],
            _ => true,
        },
{
    assert forall|i1: int, i2: int|
        0 <= i1 < a@.len() && 0 <= i2 < a@.len() && i1 != i2 implies a.sindex()[i1]
        != a.sindex()[i2] by {
        a.lemma_sindex_injective(i1, i2);
    }
    assert(a.slot_ok(s1));
    assert(a.slot_ok(s2));
    if s1 != j && s2 != j {
        match (a.slots()[s1], a.slots()[s2]) {
            (SortTarget::Content(c1), SortTarget::Content(c2)) => {
                assert(c1 as int != index && c2 as int != index) by {
                    assert(a.live_ok(index));
                }
                assert(b@[c1 as int] == a@[c1 as int]);
                assert(b@[c2 as int] == a@[c2 as int]);
            },
            _ => {},
        }
    } else if s1 == j {
        match (b.slots()[j], b.slots()[s2]) {
            (SortTarget::Content(c1), SortTarget::Content(c2)) => {
                assert(c1 as int == index);
                assert(a.would_spec(j, value));
                assert(c2 as int != index) by {
                    assert(a.slot_ok(s2));
                }
                assert(b@[c2 as int] == a@[c2 as int]);
                if s2 == j + 1 {
                } else {
                    assert(j + 1 < a.slots().len());
                    assert(a.slots()[j + 1] matches SortTarget::Content(c)
                        && value <= a@[c as int]);
                    assert(match (a.slots()[j + 1], a.slots()[s2]) {
                        (SortTarget::Content(cc1), SortTarget::Content(cc2)) => a@[cc1 as int]
                            <= a@[cc2 as int],
                        _ => true,
                    });
                }
            },
            _ => {},
        }
    } else {
        match (b.slots()[s1], b.slots()[j]) {
            (SortTarget::Content(c1), SortTarget::Content(c2)) => {
                assert(c2 as int == index);
                assert(a.would_spec(j, value));
                assert(c1 as int != index) by {
                    assert(a.slot_ok(s1));
                }
                assert(b@[c1 as int] == a@[c1 as int]);
                if s1 == j - 1 {
                } else {
                    assert(j - 1 >= 0);
                    assert(a.slots()[j - 1] matches SortTarget::Content(c) && a@[c as int]
                        <= value);
                    assert(match (a.slots()[s1], a.slots()[j - 1]) {
                        (SortTarget::Content(cc1), SortTarget::Content(cc2)) => a@[cc1 as int]
                            <= a@[cc2 as int],
                        _ => true,
                    });
                }
            },
            _ => {},
        }
    }
}

} // verus!
