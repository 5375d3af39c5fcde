//! Ordering facts shared by the container types: what it means for a
//! sequence to be sorted, and the laws about pushing, in-place replacement
//! and uniqueness of sorted rearrangements.

use vstd::prelude::*;
use vstd::relations::{sorted_by, total_ordering};
use vstd::seq_lib::lemma_sorted_unique;

verus! {

/// A sequence is sorted when it is non-decreasing.
pub open spec fn sorted(s: Seq<usize>) -> bool {
    forall|i: int, j: int| 0 <= i <= j < s.len() ==> s[i] <= s[j]
}

/// The ordering relation on elements, in the form the vstd lemmas expect.
spec fn usize_le() -> spec_fn(usize, usize) -> bool {
    |x: usize, y: usize| x <= y
}

proof fn lemma_usize_le_total_ordering()
    ensures
        total_ordering(usize_le()),
{
}

proof fn lemma_sorted_is_sorted_by(s: Seq<usize>)
    ensures
        sorted(s) <==> sorted_by(s, usize_le()),
{
    if sorted(s) {
        assert forall|i: int, j: int| 0 <= i < j < s.len() implies #[trigger] usize_le()(
            s[i],
            s[j],
        ) by {
            assert(s[i] <= s[j]);
        }
    }
    if sorted_by(s, usize_le()) {
        assert forall|i: int, j: int| 0 <= i <= j < s.len() implies s[i] <= s[j] by {
            if i < j {
                assert(usize_le()(s[i], s[j]));
            }
        }
    }
}

/// A chain of adjacent comparisons carries through to any pair of positions.
pub proof fn lemma_adjacent_le(s: Seq<usize>, i: int, j: int)
    requires
        forall|k: int| 0 <= k < s.len() - 1 ==> #[trigger] s[k] <= s[k + 1],
        0 <= i <= j < s.len(),
    ensures
        s[i] <= s[j],
    decreases j - i,
{
    if i < j {
        lemma_adjacent_le(s, i, j - 1);
        assert(s[j - 1] <= s[j]);
    }
}

/// A sequence whose every adjacent pair is in order is sorted.
pub proof fn lemma_adjacent_sorted(s: Seq<usize>)
    requires
        forall|k: int| 0 <= k < s.len() - 1 ==> #[trigger] s[k] <= s[k + 1],
    ensures
        sorted(s),
{
    assert forall|i: int, j: int| 0 <= i <= j < s.len() implies s[i] <= s[j] by {
        lemma_adjacent_le(s, i, j);
    }
}

/// Appending to a sorted sequence keeps it sorted exactly when the new
/// element is at least the current maximum (vacuously, when it is empty).
pub proof fn lemma_push_sorted_iff(s: Seq<usize>, v: usize)
    requires
        sorted(s),
    ensures
        sorted(s.push(v)) <==> (s.len() == 0 || s.last() <= v),
{
    if s.len() == 0 || s.last() <= v {
        assert forall|i: int, j: int| 0 <= i <= j < s.push(v).len() implies s.push(v)[i]
            <= s.push(v)[j] by {
            if j < s.len() {
            } else if i < s.len() {
                assert(s[i] <= s[s.len() - 1]);
            }
        }
    } else {
        assert(s.push(v)[s.len() - 1] > s.push(v)[s.len() as int]);
    }
}

/// Replacing one element of a sorted sequence keeps it sorted exactly when
/// the new element lies between its neighbours, each bound vacuous at the
/// respective end of the sequence.
pub proof fn lemma_update_sorted_iff(s: Seq<usize>, p: int, v: usize)
    requires
        sorted(s),
        0 <= p < s.len(),
    ensures
        sorted(s.update(p, v)) <==> between_neighbors(s, p, v),
{
    let t = s.update(p, v);
    if (p == 0 || s[p - 1] <= v) && (p == s.len() - 1 || v <= s[p + 1]) {
        assert forall|k: int| 0 <= k < t.len() - 1 implies #[trigger] t[k] <= t[k + 1] by {
            if k == p - 1 || k == p {
            } else {
                assert(t[k] == s[k] && t[k + 1] == s[k + 1]);
            }
        }
        lemma_adjacent_sorted(t);
    } else {
        if p != 0 && s[p - 1] > v {
            assert(t[p - 1] == s[p - 1]);
            assert(!sorted(t)) by {
                assert(t[p - 1] > t[p]);
            }
        } else {
            assert(p != s.len() - 1 && v > s[p + 1]);
            assert(t[p + 1] == s[p + 1]);
            assert(!sorted(t)) by {
                assert(t[p] > t[p + 1]);
            }
        }
    }
}

/// Two sorted sequences holding the same elements, with multiplicity, are
/// the same sequence.
pub proof fn lemma_sorted_same_multiset_equal(a: Seq<usize>, b: Seq<usize>)
    requires
        sorted(a),
        sorted(b),
        a.to_multiset() == b.to_multiset(),
    ensures
        a == b,
{
    lemma_usize_le_total_ordering();
    lemma_sorted_is_sorted_by(a);
    lemma_sorted_is_sorted_by(b);
    lemma_sorted_unique(a, b, usize_le());
}

/// The new element lies between the neighbours of position `p`, each bound
/// vacuous at the respective end of the sequence.
pub open spec fn between_neighbors(s: Seq<usize>, p: int, v: usize) -> bool {
    &&& (p == 0 || s[p - 1] <= v)
    &&& (p == s.len() - 1 || v <= s[p + 1])
}

/// The identity mapping on positions below `n`.
pub open spec fn identity_perm(n: nat) -> Seq<usize> {
    Seq::new(n, |i: int| i as usize)
}

/// The sequence read off by following a position mapping through the contents.
pub open spec fn apply_perm(c: Seq<usize>, p: Seq<usize>) -> Seq<usize> {
    Seq::new(p.len(), |j: int| c[p[j] as int])
}

/// Some position of `p` holds `k`.
pub open spec fn perm_covers(p: Seq<usize>, k: int) -> bool {
    exists|i: int| 0 <= i < p.len() && (#[trigger] p[i]) == k
}

/// `p` lists every position below `n` exactly once.
pub open spec fn is_perm_on(p: Seq<usize>, n: nat) -> bool {
    &&& p.len() == n
    &&& forall|i: int| 0 <= i < p.len() ==> (#[trigger] p[i]) < n
    &&& forall|i: int, j: int| 0 <= i < j < p.len() ==> p[i] != p[j]
    &&& forall|k: int| 0 <= k < n ==> #[trigger] perm_covers(p, k)
}

/// A repetition-free sequence of positions below `n` that reaches every
/// such position must list each exactly once.
pub proof fn lemma_perm_covering_len(p: Seq<usize>, n: nat)
    requires
        forall|k: int| 0 <= k < p.len() ==> (#[trigger] p[k]) < n,
        forall|k1: int, k2: int| 0 <= k1 < k2 < p.len() ==> p[k1] != p[k2],
        forall|i: int| 0 <= i < n ==> #[trigger] perm_covers(p, i),
    ensures
        p.len() == n,
        is_perm_on(p, n),
    decreases n,
{
    if n == 0 {
        assert(p.len() == 0) by {
            if p.len() > 0 {
                assert(p[0] < 0);
            }
        }
    } else {
        assert(perm_covers(p, n - 1));
        let k0 = choose|k: int| 0 <= k < p.len() && p[k] == n - 1;
        let p2 = p.remove(k0);
        assert forall|k: int| 0 <= k < p2.len() implies (#[trigger] p2[k]) < n - 1 by {
            if k < k0 {
                assert(p2[k] == p[k]);
                assert(p[k] != p[k0]);
            } else {
                assert(p2[k] == p[k + 1]);
                assert(p[k + 1] != p[k0]);
            }
        }
        assert forall|k1: int, k2: int| 0 <= k1 < k2 < p2.len() implies p2[k1] != p2[k2] by {
            if k2 < k0 {
                assert(p2[k1] == p[k1] && p2[k2] == p[k2]);
            } else if k1 < k0 {
                assert(p2[k1] == p[k1] && p2[k2] == p[k2 + 1]);
            } else {
                assert(p2[k1] == p[k1 + 1] && p2[k2] == p[k2 + 1]);
            }
        }
        assert forall|i: int| 0 <= i < n - 1 implies #[trigger] perm_covers(p2, i) by {
            assert(perm_covers(p, i));
            let k = choose|k: int| 0 <= k < p.len() && p[k] == i;
            if k < k0 {
                assert(p2[k] == i);
            } else {
                assert(p2[k - 1] == i);
            }
        }
        lemma_perm_covering_len(p2, (n - 1) as nat);
    }
}

/// Reading the contents through a permutation of its positions yields the
/// same elements, with the same multiplicities.
pub proof fn lemma_apply_perm_multiset(c: Seq<usize>, p: Seq<usize>)
    requires
        is_perm_on(p, c.len()),
    ensures
        apply_perm(c, p).to_multiset() == c.to_multiset(),
    decreases c.len(),
{
    broadcast use vstd::seq_lib::group_to_multiset_ensures;
    broadcast use vstd::multiset::group_multiset_axioms;

    let n = c.len() as int;
    if n == 0 {
        assert(apply_perm(c, p) =~= c);
    } else {
        let s = apply_perm(c, p);
        assert(perm_covers(p, n - 1));
        let j = choose|j: int| 0 <= j < p.len() && p[j] == n - 1;
        let p2 = p.remove(j);
        let c2 = c.drop_last();
        assert forall|a: int| 0 <= a < p2.len() implies (#[trigger] p2[a]) < n - 1 by {
            if a < j {
                assert(p2[a] == p[a]);
                assert(p[a] != p[j]);
            } else {
                assert(p2[a] == p[a + 1]);
                assert(p[a + 1] != p[j]);
            }
        }
        assert forall|a: int, b: int| 0 <= a < b < p2.len() implies p2[a] != p2[b] by {
            if b < j {
                assert(p2[a] == p[a] && p2[b] == p[b]);
            } else if a < j {
                assert(p2[a] == p[a] && p2[b] == p[b + 1]);
            } else {
                assert(p2[a] == p[a + 1] && p2[b] == p[b + 1]);
            }
        }
        assert forall|k: int| 0 <= k < n - 1 implies #[trigger] perm_covers(p2, k) by {
            assert(perm_covers(p, k));
            let i = choose|i: int| 0 <= i < p.len() && p[i] == k;
            if i < j {
                assert(p2[i] == k);
            } else {
                assert(p2[i - 1] == k);
            }
        }
        assert(is_perm_on(p2, c2.len()));
        assert(s.remove(j) =~= apply_perm(c2, p2)) by {
            assert forall|k: int| 0 <= k < s.remove(j).len() implies s.remove(j)[k] == apply_perm(
                c2,
                p2,
            )[k] by {
                if k < j {
                    assert(s.remove(j)[k] == s[k]);
                    assert(p2[k] == p[k]);
                } else {
                    assert(s.remove(j)[k] == s[k + 1]);
                    assert(p2[k] == p[k + 1]);
                }
            }
        }
        lemma_apply_perm_multiset(c2, p2);
        assert(s.remove(j).to_multiset() =~= s.to_multiset().remove(s[j]));
        assert(s[j] == c[n - 1]);
        assert(c =~= c2.push(c.last()));
        assert(c.to_multiset() =~= c2.to_multiset().insert(c.last()));
        assert(s.contains(s[j]));
        assert(s.to_multiset().count(s[j]) > 0);
        assert(s.to_multiset() =~= s.to_multiset().remove(s[j]).insert(s[j]));
        assert(s.to_multiset() =~= c.to_multiset());
    }
}

} // verus!
