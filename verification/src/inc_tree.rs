//! An incremental tree of values with dirty-flag and subtree-size
//! bookkeeping, and the dump/update pair that serializes it into a
//! presorted vector. Dump writes the whole tree; update revisits only the
//! regions whose bookkeeping says they may have changed.
//!
//! Nodes own their children, and a node inside the tree is addressed by
//! the path of child positions that leads to it from the root, the empty
//! path naming the root itself. A mutation through a path marks every node
//! along it as needing an update, which is what lets `update` skip
//! untouched subtrees.

use vstd::prelude::*;
use crate::order::{sorted, lemma_sorted_same_multiset_equal};
use crate::presorted_vec::PresortedVec;

verus! {

/// One node of an incremental tree, owning its children.
pub struct TreeNode {
    // Has this node's own value changed since it was last written out?
    dirty_val: bool,
    // Has this node, or some descendant, changed since this subtree was
    // last written out?
    needs_update: bool,
    // The size of this subtree as recorded by the last dump or update
    // that reached this node; zero when that record was invalidated.
    old_size: usize,
    // This node's data.
    data: usize,
    // The children, in order.
    children: Vec<TreeNode>,
}

impl TreeNode {
    /// The number of nodes in this subtree.
    pub closed spec fn size(self) -> nat
        decreases self,
    {
        1 + Self::size_seq(self.kids())
    }

    /// The total number of nodes under a sequence of subtrees.
    pub closed spec fn size_seq(cs: Seq<TreeNode>) -> nat
        decreases cs,
    {
        if cs.len() == 0 {
            0
        } else {
            Self::size_seq(cs.drop_last()) + cs.last().size()
        }
    }

    /// The values of this subtree in serialization order: a node before
    /// its children, children in stored order.
    pub closed spec fn traversal(self) -> Seq<usize>
        decreases self,
    {
        seq![self.data] + Self::trav_seq(self.kids())
    }

    /// The concatenated traversals of a sequence of subtrees.
    pub closed spec fn trav_seq(cs: Seq<TreeNode>) -> Seq<usize>
        decreases cs,
    {
        if cs.len() == 0 {
            Seq::<usize>::empty()
        } else {
            Self::trav_seq(cs.drop_last()) + cs.last().traversal()
        }
    }

    /// This node's own value.
    pub closed spec fn spec_data(self) -> usize {
        self.data
    }

    /// The children of this node, as subtrees.
    pub closed spec fn kids(self) -> Seq<TreeNode> {
        self.children@
    }

    /// The recorded size of this subtree.
    pub closed spec fn spec_old_size(self) -> nat {
        self.old_size as nat
    }

    /// Does the bookkeeping say this node's own value changed?
    pub closed spec fn spec_dirty_val(self) -> bool {
        self.dirty_val
    }

    /// Does the bookkeeping say this subtree changed?
    pub closed spec fn spec_needs_update(self) -> bool {
        self.needs_update
    }

    /// Every flag in this subtree is clear and every recorded size is
    /// current: the subtree is fully synchronized.
    pub closed spec fn is_clean(self) -> bool
        decreases self,
    {
        &&& !self.dirty_val
        &&& !self.needs_update
        &&& self.old_size == self.size()
        &&& forall|i: int|
            0 <= i < self.kids().len() ==> (#[trigger] self.kids()[i]).is_clean()
    }

    /// Every recorded size in this subtree is current: no structural
    /// change has happened since the last synchronization that reached it.
    pub closed spec fn stable(self) -> bool
        decreases self,
    {
        &&& self.old_size == self.size()
        &&& forall|i: int|
            0 <= i < self.kids().len() ==> (#[trigger] self.kids()[i]).stable()
    }

    /// The flags can be trusted: wherever `needs_update` is clear, the
    /// subtree below really is synchronized.
    pub closed spec fn wf(self) -> bool
        decreases self,
    {
        &&& (!self.needs_update ==> !self.dirty_val && self.old_size == self.size())
        &&& (!self.needs_update ==> forall|i: int|
            0 <= i < self.kids().len() ==> !(#[trigger] self.kids()[i]).needs_update)
        &&& forall|i: int| 0 <= i < self.kids().len() ==> (#[trigger] self.kids()[i]).wf()
    }

    /// Every node of this subtree is flagged changed and has no recorded
    /// size: the next synchronization will write it in full.
    pub closed spec fn all_dirty(self) -> bool
        decreases self,
    {
        &&& self.dirty_val
        &&& self.needs_update
        &&& self.old_size == 0
        &&& forall|i: int|
            0 <= i < self.kids().len() ==> (#[trigger] self.kids()[i]).all_dirty()
    }

    /// The container agrees with this subtree's bookkeeping at the given
    /// position: wherever the flags claim a value or a whole region is
    /// still synchronized, the container really holds it.
    pub closed spec fn vec_rel(self, v: Seq<usize>, start: int) -> bool
        decreases self,
    {
        &&& (!self.dirty_val && 0 <= start < v.len() ==> v[start] == self.data)
        &&& (!self.needs_update && 0 <= start && start + self.old_size <= v.len() ==> v.subrange(
            start,
            start + self.old_size,
        ) == self.traversal())
        &&& Self::kids_rel(self.kids(), v, start + 1)
    }

    /// The container agrees with each subtree in turn; after a subtree
    /// whose recorded size is stale nothing is claimed for its later
    /// siblings, since synchronizing it will rewrite everything after it.
    pub closed spec fn kids_rel(cs: Seq<TreeNode>, v: Seq<usize>, q: int) -> bool
        decreases cs,
    {
        cs.len() == 0 || {
            &&& cs[0].vec_rel(v, q)
            &&& (cs[0].stable() ==> Self::kids_rel(cs.drop_first(), v, q + cs[0].old_size))
        }
    }

    /// The path names a node of this subtree: each step picks a child.
    pub closed spec fn valid_path(self, p: Seq<usize>) -> bool
        decreases p.len(),
    {
        p.len() == 0 || ((p[0] as int) < self.kids().len() && self.kids()[p[0] as int].valid_path(
            p.drop_first(),
        ))
    }

    /// The node of this subtree that the path names.
    pub closed spec fn node_at(self, p: Seq<usize>) -> TreeNode
        decreases p.len(),
    {
        if p.len() == 0 || p[0] as int >= self.kids().len() {
            self
        } else {
            self.kids()[p[0] as int].node_at(p.drop_first())
        }
    }

    /// The position of the named node's value in the traversal of this
    /// subtree.
    pub closed spec fn pre_index_of(self, p: Seq<usize>) -> int
        decreases p.len(),
    {
        if p.len() == 0 || p[0] as int >= self.kids().len() {
            0
        } else {
            1 + Self::size_seq(self.kids().take(p[0] as int)) + self.kids()[p[0] as int].pre_index_of(
                p.drop_first(),
            )
        }
    }
}

/// Taking one more subtree extends the counted sizes by that subtree's.
proof fn lemma_size_seq_take(cs: Seq<TreeNode>, k: int)
    requires
        0 <= k < cs.len(),
    ensures
        TreeNode::size_seq(cs.take(k + 1)) == TreeNode::size_seq(cs.take(k)) + cs[k].size(),
{
    assert(cs.take(k + 1).drop_last() =~= cs.take(k));
    assert(cs.take(k + 1).last() == cs[k]);
}

/// The counted sizes of a prefix, plus the next subtree, never exceed the
/// whole.
proof fn lemma_size_seq_take_bound(cs: Seq<TreeNode>, k: int)
    requires
        0 <= k < cs.len(),
    ensures
        TreeNode::size_seq(cs.take(k)) + cs[k].size() <= TreeNode::size_seq(cs),
    decreases cs.len() - k,
{
    lemma_size_seq_take(cs, k);
    if k + 1 == cs.len() {
        assert(cs.take(k + 1) =~= cs);
    } else {
        lemma_size_seq_take_bound(cs, k + 1);
        lemma_size_seq_take(cs, k + 1);
    }
}

/// Taking one more subtree extends the concatenated traversals by that
/// subtree's.
proof fn lemma_trav_seq_take(cs: Seq<TreeNode>, k: int)
    requires
        0 <= k < cs.len(),
    ensures
        TreeNode::trav_seq(cs.take(k + 1)) == TreeNode::trav_seq(cs.take(k)) + cs[k].traversal(),
{
    assert(cs.take(k + 1).drop_last() =~= cs.take(k));
    assert(cs.take(k + 1).last() == cs[k]);
}

/// The counted sizes split at the first subtree.
proof fn lemma_size_seq_first(cs: Seq<TreeNode>)
    requires
        cs.len() > 0,
    ensures
        TreeNode::size_seq(cs) == cs[0].size() + TreeNode::size_seq(cs.drop_first()),
    decreases cs,
{
    if cs.len() == 1 {
        assert(cs.drop_last() =~= Seq::<TreeNode>::empty());
        assert(cs.drop_first() =~= Seq::<TreeNode>::empty());
    } else {
        lemma_size_seq_first(cs.drop_last());
        assert(cs.drop_last().drop_first() =~= cs.drop_first().drop_last());
        assert(cs.drop_last()[0] == cs[0]);
        assert(cs.drop_first().last() == cs.last());
    }
}

/// The concatenated traversals split at the first subtree.
proof fn lemma_trav_seq_first(cs: Seq<TreeNode>)
    requires
        cs.len() > 0,
    ensures
        TreeNode::trav_seq(cs) == cs[0].traversal() + TreeNode::trav_seq(cs.drop_first()),
    decreases cs,
{
    if cs.len() == 1 {
        assert(cs.drop_last() =~= Seq::<TreeNode>::empty());
        assert(cs.drop_first() =~= Seq::<TreeNode>::empty());
        assert(cs[0].traversal() + TreeNode::trav_seq(cs.drop_first()) =~= cs[0].traversal());
        assert(TreeNode::trav_seq(cs.drop_last()) + cs.last().traversal() =~= cs[0].traversal());
    } else {
        lemma_trav_seq_first(cs.drop_last());
        assert(cs.drop_last().drop_first() =~= cs.drop_first().drop_last());
        assert(cs.drop_last()[0] == cs[0]);
        assert(cs.drop_first().last() == cs.last());
        assert(TreeNode::trav_seq(cs) == (cs[0].traversal() + TreeNode::trav_seq(
            cs.drop_first().drop_last(),
        )) + cs.last().traversal());
        assert((cs[0].traversal() + TreeNode::trav_seq(cs.drop_first().drop_last()))
            + cs.last().traversal() =~= cs[0].traversal() + (TreeNode::trav_seq(
            cs.drop_first().drop_last(),
        ) + cs.drop_first().last().traversal()));
    }
}

/// A subtree's traversal lists exactly as many values as the subtree has
/// nodes.
pub proof fn lemma_traversal_len(n: TreeNode)
    ensures
        n.traversal().len() == n.size(),
    decreases n,
{
    lemma_trav_seq_len(n.kids());
}

/// The concatenated traversals list exactly as many values as the
/// subtrees have nodes.
proof fn lemma_trav_seq_len(cs: Seq<TreeNode>)
    ensures
        TreeNode::trav_seq(cs).len() == TreeNode::size_seq(cs),
    decreases cs,
{
    if cs.len() > 0 {
        lemma_trav_seq_len(cs.drop_last());
        lemma_traversal_len(cs.last());
    }
}

/// A fully synchronized subtree has trustworthy flags and current sizes.
pub proof fn lemma_clean_wf_stable(n: TreeNode)
    requires
        n.is_clean(),
    ensures
        n.wf(),
        n.stable(),
    decreases n,
{
    assert forall|i: int| 0 <= i < n.kids().len() implies (#[trigger] n.kids()[i]).wf()
        && n.kids()[i].stable() && !n.kids()[i].needs_update by {
        assert(n.kids()[i].is_clean());
        lemma_clean_wf_stable(n.kids()[i]);
    }
}

/// A subtree flagged changed throughout has trustworthy flags.
proof fn lemma_all_dirty_wf(n: TreeNode)
    requires
        n.all_dirty(),
    ensures
        n.wf(),
    decreases n,
{
    assert forall|i: int| 0 <= i < n.kids().len() implies (#[trigger] n.kids()[i]).wf() by {
        lemma_all_dirty_wf(n.kids()[i]);
    }
}

/// Under trustworthy flags, a subtree whose update flag is clear is fully
/// synchronized.
proof fn lemma_wf_not_needs_update_clean(n: TreeNode)
    requires
        n.wf(),
        !n.spec_needs_update(),
    ensures
        n.is_clean(),
    decreases n,
{
    assert forall|i: int| 0 <= i < n.kids().len() implies (#[trigger] n.kids()[i]).is_clean() by {
        lemma_wf_not_needs_update_clean(n.kids()[i]);
    }
}

/// Every subtree has at least one node.
pub proof fn lemma_size_pos(n: TreeNode)
    ensures
        n.size() >= 1,
{
}

/// At or past the end of the container the agreement relation asks
/// nothing of a subtree with trustworthy flags.
proof fn lemma_vec_rel_frontier(n: TreeNode, v: Seq<usize>, q: int)
    requires
        n.wf(),
        q >= v.len(),
    ensures
        n.vec_rel(v, q),
    decreases n,
{
    if !n.spec_needs_update() {
        assert(n.spec_old_size() == n.size());
        lemma_size_pos(n);
    }
    assert forall|i: int| 0 <= i < n.kids().len() implies (#[trigger] n.kids()[i]).wf() by {}
    lemma_kids_rel_frontier(n.kids(), v, q + 1);
}

/// At or past the end of the container the agreement relation asks
/// nothing of subtrees with trustworthy flags.
proof fn lemma_kids_rel_frontier(cs: Seq<TreeNode>, v: Seq<usize>, q: int)
    requires
        forall|i: int| 0 <= i < cs.len() ==> (#[trigger] cs[i]).wf(),
        q >= v.len(),
    ensures
        TreeNode::kids_rel(cs, v, q),
    decreases cs,
{
    if cs.len() > 0 {
        lemma_vec_rel_frontier(cs[0], v, q);
        assert forall|i: int| 0 <= i < cs.drop_first().len() implies (#[trigger] cs.drop_first()[i]).wf() by {
            assert(cs.drop_first()[i] == cs[i + 1]);
        }
        lemma_kids_rel_frontier(cs.drop_first(), v, q + cs[0].spec_old_size());
    }
}

/// The agreement relation at a position reads the container only at that
/// position and after it.
proof fn lemma_vec_rel_depends(n: TreeNode, v1: Seq<usize>, v2: Seq<usize>, base: int, q: int)
    requires
        0 <= base <= v1.len(),
        v2.len() == v1.len(),
        v1.subrange(base, v1.len() as int) == v2.subrange(base, v2.len() as int),
        q >= base,
    ensures
        n.vec_rel(v1, q) == n.vec_rel(v2, q),
    decreases n,
{
    assert forall|t: int| base <= t < v1.len() implies v1[t] == v2[t] by {
        assert(v1.subrange(base, v1.len() as int)[t - base] == v2.subrange(
            base,
            v2.len() as int,
        )[t - base]);
    }
    if 0 <= q && q + n.spec_old_size() <= v1.len() {
        assert(v1.subrange(q, q + n.spec_old_size()) =~= v2.subrange(q, q + n.spec_old_size()));
    }
    lemma_kids_rel_depends(n.kids(), v1, v2, base, q + 1);
}

/// The agreement relation for siblings reads the container only at their
/// first position and after it.
proof fn lemma_kids_rel_depends(
    cs: Seq<TreeNode>,
    v1: Seq<usize>,
    v2: Seq<usize>,
    base: int,
    q: int,
)
    requires
        0 <= base <= v1.len(),
        v2.len() == v1.len(),
        v1.subrange(base, v1.len() as int) == v2.subrange(base, v2.len() as int),
        q >= base,
    ensures
        TreeNode::kids_rel(cs, v1, q) == TreeNode::kids_rel(cs, v2, q),
    decreases cs,
{
    if cs.len() > 0 {
        lemma_vec_rel_depends(cs[0], v1, v2, base, q);
        lemma_kids_rel_depends(cs.drop_first(), v1, v2, base, q + cs[0].spec_old_size());
    }
}

/// A subtree that is flagged changed throughout agrees with any container
/// at any position: the relation claims nothing of it.
proof fn lemma_all_dirty_vec_rel(n: TreeNode, v: Seq<usize>, q: int)
    requires
        n.all_dirty(),
    ensures
        n.vec_rel(v, q),
    decreases n,
{
    lemma_all_dirty_kids_rel(n.kids(), v, q + 1);
}

/// Subtrees flagged changed throughout agree with any container.
proof fn lemma_all_dirty_kids_rel(cs: Seq<TreeNode>, v: Seq<usize>, q: int)
    requires
        forall|i: int| 0 <= i < cs.len() ==> (#[trigger] cs[i]).all_dirty(),
    ensures
        TreeNode::kids_rel(cs, v, q),
    decreases cs,
{
    if cs.len() > 0 {
        lemma_all_dirty_vec_rel(cs[0], v, q);
        lemma_size_pos(cs[0]);
        assert(!cs[0].stable());
    }
}

/// A fully synchronized subtree whose traversal sits in the container at
/// its position satisfies the agreement relation there.
pub proof fn lemma_clean_vec_rel(n: TreeNode, v: Seq<usize>, start: int)
    requires
        n.is_clean(),
        0 <= start,
        start + n.size() <= v.len(),
        v.subrange(start, start + n.size() as int) == n.traversal(),
    ensures
        n.vec_rel(v, start),
    decreases n,
{
    lemma_traversal_len(n);
    lemma_trav_seq_len(n.kids());
    assert(v[start] == n.traversal()[0]);
    assert(n.traversal()[0] == n.spec_data());
    assert(v.subrange(start + 1, start + n.size() as int) =~= n.traversal().subrange(
        1,
        n.size() as int,
    ));
    assert(n.traversal().subrange(1, n.size() as int) =~= TreeNode::trav_seq(n.kids()));
    lemma_clean_kids_rel(n.kids(), v, start + 1);
}

/// Fully synchronized siblings whose concatenated traversals sit in the
/// container at their position satisfy the agreement relation there.
proof fn lemma_clean_kids_rel(cs: Seq<TreeNode>, v: Seq<usize>, q: int)
    requires
        forall|i: int| 0 <= i < cs.len() ==> (#[trigger] cs[i]).is_clean(),
        0 <= q,
        q + TreeNode::size_seq(cs) <= v.len(),
        v.subrange(q, q + TreeNode::size_seq(cs) as int) == TreeNode::trav_seq(cs),
    ensures
        TreeNode::kids_rel(cs, v, q),
    decreases cs,
{
    if cs.len() > 0 {
        let s0 = cs[0].size() as int;
        lemma_size_seq_first(cs);
        lemma_trav_seq_first(cs);
        lemma_trav_seq_len(cs);
        lemma_trav_seq_len(cs.drop_first());
        lemma_traversal_len(cs[0]);
        assert(v.subrange(q, q + s0) =~= cs[0].traversal()) by {
            assert forall|t: int| 0 <= t < s0 implies v.subrange(q, q + s0)[t]
                == cs[0].traversal()[t] by {
                assert(v.subrange(q, q + TreeNode::size_seq(cs) as int)[t] == TreeNode::trav_seq(
                    cs,
                )[t]);
            }
        }
        lemma_clean_vec_rel(cs[0], v, q);
        assert forall|i: int| 0 <= i < cs.drop_first().len() implies (#[trigger] cs.drop_first()[i]).is_clean() by {
            assert(cs.drop_first()[i] == cs[i + 1]);
        }
        assert(v.subrange(q + s0, q + TreeNode::size_seq(cs) as int) =~= TreeNode::trav_seq(
            cs.drop_first(),
        )) by {
            assert forall|t: int|
                0 <= t < TreeNode::size_seq(cs.drop_first()) implies v.subrange(
                q + s0,
                q + TreeNode::size_seq(cs) as int,
            )[t] == TreeNode::trav_seq(cs.drop_first())[t] by {
                assert(v.subrange(q, q + TreeNode::size_seq(cs) as int)[t + s0]
                    == TreeNode::trav_seq(cs)[t + s0]);
            }
        }
        lemma_clean_kids_rel(cs.drop_first(), v, q + s0);
        lemma_clean_wf_stable(cs[0]);
        assert(cs[0].spec_old_size() == s0);
    }
}

impl TreeNode {
    /// Construct a node with the given value, no children, and bookkeeping
    /// that makes the next synchronization write it in full.
    pub fn new_node(data: usize) -> (r: TreeNode)
        ensures
            r.all_dirty(),
            r.wf(),
            r.size() == 1,
            r.traversal() == seq![data],
            r.kids().len() == 0,
            r.spec_data() == data,
    {
        let r = TreeNode {
            dirty_val: true,
            needs_update: true,
            old_size: 0,
            data,
            children: Vec::new(),
        };
        proof {
            assert(r.traversal() =~= seq![data]);
        }
        r
    }

    /// A borrow of a child of this node.
    pub fn get_child(&self, child_num: usize) -> (r: &TreeNode)
        requires
            child_num < self.kids().len(),
        ensures
            *r == self.kids()[child_num as int],
    {
        &self.children[child_num]
    }

    /// How many children this node has.
    pub fn num_children(&self) -> (r: usize)
        ensures
            r == self.kids().len(),
    {
        self.children.len()
    }

    /// A borrow of the node that the path names.
    pub fn node_ref(&self, path: &[usize]) -> (r: &TreeNode)
        requires
            self.valid_path(path@),
        ensures
            *r == self.node_at(path@),
        decreases path@.len(),
    {
        if path.len() == 0 {
            self
        } else {
            proof {
                assert(path@.subrange(1, path@.len() as int) =~= path@.drop_first());
            }
            self.children[path[0]].node_ref(&path[1..path.len()])
        }
    }

    /// The value of the node that the path names.
    pub fn get_data(&self, path: &[usize]) -> (r: usize)
        requires
            self.valid_path(path@),
        ensures
            r == self.node_at(path@).spec_data(),
    {
        self.node_ref(path).data
    }

    /// Set the value of the node that the path names. A no-op when the
    /// value is already there; otherwise the node is flagged changed and
    /// every node along the path flagged as needing an update.
    pub fn set_data(&mut self, path: &[usize], data: usize)
        requires
            old(self).wf(),
            old(self).valid_path(path@),
        ensures
            final(self).wf(),
            old(self).node_at(path@).spec_data() == data ==> *final(self) == *old(self),
            final(self).size() == old(self).size(),
            final(self).kids().len() == old(self).kids().len(),
            final(self).stable() == old(self).stable(),
            final(self).spec_old_size() == old(self).spec_old_size(),
            final(self).traversal() == old(self).traversal().update(
                old(self).pre_index_of(path@),
                data,
            ),
            final(self).node_at(path@).spec_data() == data,
            final(self).node_at(path@).kids() == old(self).node_at(path@).kids(),
            path@.len() > 0 ==> (forall|j: int|
                0 <= j < old(self).kids().len() && j != path@[0]
                    ==> final(self).kids()[j] == old(self).kids()[j]),
            final(self).valid_path(path@),
            forall|v: Seq<usize>, p: int|
                old(self).vec_rel(v, p) ==> #[trigger] final(self).vec_rel(v, p),
    {
        proof {
            lemma_pre_index(*old(self), path@);
            lemma_traversal_len(*old(self));
        }
        let current = self.get_data(path);
        if current != data {
            self.set_data_changed(path, data);
            proof {
                let w = old(self).pre_index_of(path@);
                assert(old(self).traversal().update(w, data) =~= old(self).traversal().subrange(
                    0,
                    w,
                ) + seq![data] + old(self).traversal().skip(w + 1));
            }
        } else {
            proof {
                let w = old(self).pre_index_of(path@);
                assert(old(self).traversal().update(w, data) =~= old(self).traversal());
            }
        }
    }

    /// As `set_data`, for a value known to differ from the present one.
    #[verifier::rlimit(60)]
    fn set_data_changed(&mut self, path: &[usize], data: usize)
        requires
            old(self).wf(),
            old(self).valid_path(path@),
            old(self).node_at(path@).spec_data() != data,
        ensures
            final(self).wf(),
            final(self).spec_needs_update(),
            final(self).size() == old(self).size(),
            final(self).kids().len() == old(self).kids().len(),
            final(self).stable() == old(self).stable(),
            final(self).spec_old_size() == old(self).spec_old_size(),
            final(self).spec_data() == (if path@.len() == 0 {
                data
            } else {
                old(self).spec_data()
            }),
            final(self).spec_dirty_val() == (path@.len() == 0 || old(self).spec_dirty_val()),
            final(self).traversal() == old(self).traversal().subrange(
                0,
                old(self).pre_index_of(path@),
            ) + seq![data] + old(self).traversal().skip(old(self).pre_index_of(path@) + 1),
            final(self).node_at(path@).spec_data() == data,
            final(self).node_at(path@).kids() == old(self).node_at(path@).kids(),
            path@.len() > 0 ==> (forall|j: int|
                0 <= j < old(self).kids().len() && j != path@[0]
                    ==> final(self).kids()[j] == old(self).kids()[j]),
            final(self).valid_path(path@),
            forall|v: Seq<usize>, p: int|
                old(self).vec_rel(v, p) ==> #[trigger] final(self).vec_rel(v, p),
        decreases path@.len(),
    {
        proof {
            lemma_pre_index(*old(self), path@);
            lemma_traversal_len(*old(self));
        }
        if path.len() == 0 {
            self.data = data;
            self.dirty_val = true;
            self.needs_update = true;
            proof {
                assert(self.size() == old(self).size());
                assert(self.traversal() =~= old(self).traversal().subrange(0, 0) + seq![data]
                    + old(self).traversal().skip(1)) by {
                    assert(old(self).traversal().skip(1) =~= TreeNode::trav_seq(
                        old(self).kids(),
                    ));
                    assert(self.traversal() =~= seq![data] + TreeNode::trav_seq(self.kids()));
                }
                assert(self.stable() == old(self).stable());
                assert forall|v: Seq<usize>, p: int|
                    old(self).vec_rel(v, p) implies #[trigger] self.vec_rel(v, p) by {}
            }
        } else {
            let c = path[0];
            proof {
                assert(path@.subrange(1, path@.len() as int) =~= path@.drop_first());
                assert(old(self).kids()[c as int].wf());
            }
            self.children[c].set_data_changed(&path[1..path.len()], data);
            self.needs_update = true;
            proof {
                let cs0 = old(self).kids();
                let cs1 = self.kids();
                let rest = path@.drop_first();
                let e = cs0[c as int].pre_index_of(rest);
                let w = TreeNode::size_seq(cs0.take(c as int)) as int + e;
                lemma_pre_index(cs0[c as int], rest);
                lemma_traversal_len(cs0[c as int]);
                assert forall|j: int|
                    0 <= j < cs0.len() implies (#[trigger] cs1[j]).size() == cs0[j].size() by {}
                lemma_size_seq_eq(cs0, cs1);
                assert(self.size() == old(self).size());
                lemma_trav_seq_splice(cs0, cs1, c as int, e, e + 1, seq![data]);
                lemma_trav_seq_len(cs0);
                lemma_trav_seq_len(cs0.take(c as int));
                lemma_size_seq_take_bound(cs0, c as int);
                assert(self.traversal() =~= old(self).traversal().subrange(0, 1 + w) + seq![data]
                    + old(self).traversal().skip(1 + w + 1)) by {
                    assert(self.traversal() == seq![old(self).spec_data()] + TreeNode::trav_seq(
                        cs1,
                    ));
                    assert(old(self).traversal() == seq![old(self).spec_data()]
                        + TreeNode::trav_seq(cs0));
                }
                assert(old(self).pre_index_of(path@) == 1 + w);
                assert(self.stable() == old(self).stable()) by {
                    if old(self).stable() {
                        assert forall|j: int|
                            0 <= j < cs1.len() implies (#[trigger] cs1[j]).stable() by {
                            assert(cs0[j].stable());
                        }
                    }
                    if self.stable() {
                        assert forall|j: int|
                            0 <= j < cs0.len() implies (#[trigger] cs0[j]).stable() by {
                            assert(cs1[j].stable());
                        }
                    }
                }
                assert forall|j: int| 0 <= j < cs1.len() implies (#[trigger] cs1[j]).wf() by {
                    if j != c as int {
                        assert(cs1[j] == cs0[j]);
                        assert(cs0[j].wf());
                    }
                }
                assert forall|v: Seq<usize>, p: int|
                    old(self).vec_rel(v, p) implies #[trigger] self.vec_rel(v, p) by {
                    lemma_kids_rel_replace_at(cs0, cs1, v, p + 1, c as int);
                }
            }
        }
    }

    /// The position just after the named node's subtree in the traversal
    /// of this subtree.
    pub open spec fn subtree_end(self, p: Seq<usize>) -> int {
        self.pre_index_of(p) + self.node_at(p).size()
    }

    /// The position of the named node's `child_num`-th child's subtree in
    /// the traversal of this subtree.
    pub open spec fn child_start(self, p: Seq<usize>, child_num: int) -> int {
        self.pre_index_of(p) + 1 + Self::size_seq(self.node_at(p).kids().take(child_num))
    }

    /// Append a child under the node that the path names. The attached
    /// subtree is flagged changed throughout, and every node along the
    /// path is flagged as needing an update with its size record dropped.
    pub fn push_child(&mut self, path: &[usize], child: TreeNode)
        requires
            old(self).wf(),
            old(self).valid_path(path@),
        ensures
            final(self).wf(),
            final(self).spec_needs_update(),
            final(self).spec_old_size() == 0,
            final(self).size() == old(self).size() + child.size(),
            final(self).traversal() == old(self).traversal().subrange(
                0,
                old(self).subtree_end(path@),
            ) + child.traversal() + old(self).traversal().skip(old(self).subtree_end(path@)),
            final(self).node_at(path@).kids().len() == old(self).node_at(path@).kids().len() + 1,
            final(self).node_at(path@).kids().drop_last() == old(self).node_at(path@).kids(),
            final(self).node_at(path@).kids().last().traversal() == child.traversal(),
            final(self).node_at(path@).kids().last().size() == child.size(),
            final(self).node_at(path@).kids().last().all_dirty(),
            path@.len() > 0 ==> (forall|j: int|
                0 <= j < old(self).kids().len() && j != path@[0]
                    ==> final(self).kids()[j] == old(self).kids()[j]),
            final(self).valid_path(path@),
            forall|v: Seq<usize>, p: int|
                old(self).vec_rel(v, p) ==> #[trigger] final(self).vec_rel(v, p),
        decreases path@.len(),
    {
        proof {
            lemma_pre_index(*old(self), path@);
            lemma_traversal_len(*old(self));
            lemma_traversal_len(child);
        }
        if path.len() == 0 {
            let mut child = child;
            child.flag_as_new();
            let ghost z = child;
            self.children.push(child);
            self.needs_update = true;
            self.old_size = 0;
            proof {
                assert(self.kids() == old(self).kids().push(z));
                assert(self.kids().drop_last() =~= old(self).kids());
                assert(self.kids().last() == z);
                lemma_size_pos(z);
                assert(self.traversal() =~= old(self).traversal().subrange(
                    0,
                    old(self).size() as int,
                ) + z.traversal() + old(self).traversal().skip(old(self).size() as int)) by {
                    assert(old(self).traversal().subrange(0, old(self).size() as int)
                        =~= old(self).traversal());
                    assert(old(self).traversal().skip(old(self).size() as int) =~= Seq::<
                        usize,
                    >::empty());
                    assert(self.traversal() == seq![old(self).spec_data()] + TreeNode::trav_seq(
                        self.kids(),
                    ));
                    assert(TreeNode::trav_seq(self.kids()) == TreeNode::trav_seq(
                        old(self).kids(),
                    ) + z.traversal());
                    assert(seq![old(self).spec_data()] + (TreeNode::trav_seq(old(self).kids())
                        + z.traversal()) =~= (seq![old(self).spec_data()] + TreeNode::trav_seq(
                        old(self).kids(),
                    )) + z.traversal() + Seq::<usize>::empty());
                }
                lemma_traversal_len(*self);
                assert forall|j: int| 0 <= j < self.kids().len() implies (#[trigger] self.kids()[j]).wf() by {
                    if j < old(self).kids().len() {
                        assert(old(self).kids()[j].wf());
                    } else {
                        lemma_all_dirty_wf(z);
                    }
                }
                assert forall|v: Seq<usize>, p: int|
                    old(self).vec_rel(v, p) implies #[trigger] self.vec_rel(v, p) by {
                    lemma_kids_rel_push(old(self).kids(), z, v, p + 1);
                }
            }
        } else {
            let c = path[0];
            proof {
                assert(path@.subrange(1, path@.len() as int) =~= path@.drop_first());
                assert(old(self).kids()[c as int].wf());
            }
            self.children[c].push_child(&path[1..path.len()], child);
            self.needs_update = true;
            self.old_size = 0;
            proof {
                let cs0 = old(self).kids();
                let cs1 = self.kids();
                let rest = path@.drop_first();
                let e = cs0[c as int].subtree_end(rest);
                lemma_pre_index(cs0[c as int], rest);
                lemma_traversal_len(cs0[c as int]);
                assert(cs1[c as int].traversal() == cs0[c as int].traversal().subrange(0, e)
                    + child.traversal() + cs0[c as int].traversal().skip(e));
                lemma_trav_seq_splice(cs0, cs1, c as int, e, e, child.traversal());
                lemma_trav_seq_len(cs0);
                lemma_trav_seq_len(cs0.take(c as int));
                lemma_size_seq_take_bound(cs0, c as int);
                let w = TreeNode::size_seq(cs0.take(c as int)) as int + e;
                assert(self.traversal() =~= old(self).traversal().subrange(0, 1 + w)
                    + child.traversal() + old(self).traversal().skip(1 + w)) by {
                    assert(self.traversal() == seq![old(self).spec_data()] + TreeNode::trav_seq(
                        cs1,
                    ));
                    assert(old(self).traversal() == seq![old(self).spec_data()]
                        + TreeNode::trav_seq(cs0));
                }
                assert(old(self).subtree_end(path@) == 1 + w);
                lemma_traversal_len(*self);
                lemma_traversal_len(child);
                lemma_size_pos(cs1[c as int]);
                assert(!cs1[c as int].stable());
                assert forall|j: int| 0 <= j < cs1.len() implies (#[trigger] cs1[j]).wf() by {
                    if j != c as int {
                        assert(cs1[j] == cs0[j]);
                        assert(cs0[j].wf());
                    }
                }
                assert forall|v: Seq<usize>, p: int|
                    old(self).vec_rel(v, p) implies #[trigger] self.vec_rel(v, p) by {
                    lemma_kids_rel_replace_at(cs0, cs1, v, p + 1, c as int);
                }
            }
        }
    }

    /// Remove and return the last child of the node that the path names,
    /// or `None`, leaving the tree untouched, if it has no children. On a
    /// removal the named node is flagged changed and every node along the
    /// path flagged as needing an update with its size record dropped.
    pub fn pop_child(&mut self, path: &[usize]) -> (r: Option<TreeNode>)
        requires
            old(self).wf(),
            old(self).valid_path(path@),
        ensures
            final(self).wf(),
            old(self).node_at(path@).kids().len() == 0 ==> r.is_none()
                && *final(self) == *old(self),
            old(self).node_at(path@).kids().len() > 0 ==> {
                &&& r == Some(old(self).node_at(path@).kids().last())
                &&& final(self).spec_needs_update()
                &&& final(self).spec_old_size() == 0
                &&& final(self).size() + old(self).node_at(path@).kids().last().size()
                    == old(self).size()
                &&& final(self).traversal() == old(self).traversal().subrange(
                    0,
                    old(self).subtree_end(path@) - old(self).node_at(path@).kids().last().size(),
                ) + old(self).traversal().skip(old(self).subtree_end(path@))
                &&& final(self).node_at(path@).kids() == old(self).node_at(
                    path@,
                ).kids().drop_last()
                &&& path@.len() > 0 ==> (forall|j: int|
                    0 <= j < old(self).kids().len() && j != path@[0]
                        ==> final(self).kids()[j] == old(self).kids()[j])
                &&& final(self).valid_path(path@)
            },
            forall|v: Seq<usize>, p: int|
                old(self).vec_rel(v, p) ==> #[trigger] final(self).vec_rel(v, p),
    {
        let has_children = self.node_ref(path).children.len() > 0;
        if !has_children {
            None
        } else {
            Some(self.pop_child_inner(path))
        }
    }

    /// As `pop_child`, for a node known to have a child.
    fn pop_child_inner(&mut self, path: &[usize]) -> (r: TreeNode)
        requires
            old(self).wf(),
            old(self).valid_path(path@),
            old(self).node_at(path@).kids().len() > 0,
        ensures
            final(self).wf(),
            final(self).spec_needs_update(),
            final(self).spec_old_size() == 0,
            r == old(self).node_at(path@).kids().last(),
            final(self).size() + r.size() == old(self).size(),
            final(self).traversal() == old(self).traversal().subrange(
                0,
                old(self).subtree_end(path@) - r.size(),
            ) + old(self).traversal().skip(old(self).subtree_end(path@)),
            final(self).node_at(path@).kids() == old(self).node_at(path@).kids().drop_last(),
            path@.len() > 0 ==> (forall|j: int|
                0 <= j < old(self).kids().len() && j != path@[0]
                    ==> final(self).kids()[j] == old(self).kids()[j]),
            final(self).valid_path(path@),
            forall|v: Seq<usize>, p: int|
                old(self).vec_rel(v, p) ==> #[trigger] final(self).vec_rel(v, p),
        decreases path@.len(),
    {
        proof {
            lemma_pre_index(*old(self), path@);
            lemma_traversal_len(*old(self));
        }
        if path.len() == 0 {
            let kid = match self.children.pop() {
                Some(kid) => kid,
                None => {
                    proof {
                        assert(false);
                    }
                    TreeNode::new_node(0)
                },
            };
            self.dirty_val = true;
            self.needs_update = true;
            self.old_size = 0;
            proof {
                assert(kid == old(self).kids().last());
                lemma_traversal_len(kid);
                lemma_trav_seq_len(old(self).kids());
                lemma_trav_seq_len(self.kids());
                assert(TreeNode::trav_seq(old(self).kids()) == TreeNode::trav_seq(self.kids())
                    + kid.traversal());
                assert(self.traversal() =~= old(self).traversal().subrange(
                    0,
                    old(self).size() - kid.size(),
                ) + old(self).traversal().skip(old(self).size() as int)) by {
                    assert(old(self).traversal().skip(old(self).size() as int) =~= Seq::<
                        usize,
                    >::empty());
                    assert(self.traversal() == seq![old(self).spec_data()] + TreeNode::trav_seq(
                        self.kids(),
                    ));
                    assert(old(self).traversal() == (seq![old(self).spec_data()]
                        + TreeNode::trav_seq(self.kids())) + kid.traversal());
                    assert(old(self).traversal().subrange(0, old(self).size() - kid.size()) =~= (
                    seq![old(self).spec_data()] + TreeNode::trav_seq(self.kids())) + Seq::<
                        usize,
                    >::empty());
                }
                assert forall|j: int| 0 <= j < self.kids().len() implies (#[trigger] self.kids()[j]).wf() by {
                    assert(self.kids()[j] == old(self).kids()[j]);
                    assert(old(self).kids()[j].wf());
                }
                assert forall|v: Seq<usize>, p: int|
                    old(self).vec_rel(v, p) implies #[trigger] self.vec_rel(v, p) by {
                    lemma_kids_rel_drop_last(old(self).kids(), v, p + 1);
                }
            }
            kid
        } else {
            let c = path[0];
            proof {
                assert(path@.subrange(1, path@.len() as int) =~= path@.drop_first());
                assert(old(self).kids()[c as int].wf());
            }
            let kid = self.children[c].pop_child_inner(&path[1..path.len()]);
            self.needs_update = true;
            self.old_size = 0;
            proof {
                let cs0 = old(self).kids();
                let cs1 = self.kids();
                let rest = path@.drop_first();
                let e2 = cs0[c as int].subtree_end(rest);
                let e1 = e2 - kid.size();
                lemma_pre_index(cs0[c as int], rest);
                lemma_traversal_len(cs0[c as int]);
                lemma_traversal_len(kid);
                lemma_traversal_len(cs1[c as int]);
                assert(cs1[c as int].traversal() == cs0[c as int].traversal().subrange(0, e1)
                    + cs0[c as int].traversal().skip(e2));
                assert(cs1[c as int].traversal() == cs0[c as int].traversal().subrange(0, e1)
                    + Seq::<usize>::empty() + cs0[c as int].traversal().skip(e2)) by {
                    assert(cs0[c as int].traversal().subrange(0, e1) + Seq::<usize>::empty()
                        + cs0[c as int].traversal().skip(e2) =~= cs0[c as int].traversal().subrange(
                        0,
                        e1,
                    ) + cs0[c as int].traversal().skip(e2));
                }
                lemma_trav_seq_splice(cs0, cs1, c as int, e1, e2, Seq::<usize>::empty());
                lemma_trav_seq_len(cs0);
                lemma_trav_seq_len(cs0.take(c as int));
                lemma_size_seq_take_bound(cs0, c as int);
                let w1 = TreeNode::size_seq(cs0.take(c as int)) as int + e1;
                let w2 = TreeNode::size_seq(cs0.take(c as int)) as int + e2;
                assert(self.traversal() =~= old(self).traversal().subrange(0, 1 + w1) + old(
                    self,
                ).traversal().skip(1 + w2)) by {
                    assert(self.traversal() == seq![old(self).spec_data()] + TreeNode::trav_seq(
                        cs1,
                    ));
                    assert(old(self).traversal() == seq![old(self).spec_data()]
                        + TreeNode::trav_seq(cs0));
                    assert(seq![old(self).spec_data()] + (TreeNode::trav_seq(cs0).subrange(0, w1)
                        + Seq::<usize>::empty() + TreeNode::trav_seq(cs0).skip(w2)) =~= old(
                        self,
                    ).traversal().subrange(0, 1 + w1) + old(self).traversal().skip(1 + w2));
                }
                assert(old(self).subtree_end(path@) == 1 + w2);
                lemma_traversal_len(*self);
                lemma_size_pos(cs1[c as int]);
                assert(!cs1[c as int].stable());
                assert forall|j: int| 0 <= j < cs1.len() implies (#[trigger] cs1[j]).wf() by {
                    if j != c as int {
                        assert(cs1[j] == cs0[j]);
                        assert(cs0[j].wf());
                    }
                }
                assert forall|v: Seq<usize>, p: int|
                    old(self).vec_rel(v, p) implies #[trigger] self.vec_rel(v, p) by {
                    lemma_kids_rel_replace_at(cs0, cs1, v, p + 1, c as int);
                }
            }
            kid
        }
    }

    /// Replace the `child_num`-th child of the node that the path names,
    /// returning the subtree that was there. The attached subtree is
    /// flagged changed throughout, and every node along the path is
    /// flagged as needing an update with its size record dropped.
    #[verifier::rlimit(60)]
    pub fn set_child(&mut self, path: &[usize], child_num: usize, child: TreeNode) -> (r: TreeNode)
        requires
            old(self).wf(),
            old(self).valid_path(path@),
            child_num < old(self).node_at(path@).kids().len(),
        ensures
            final(self).wf(),
            final(self).spec_needs_update(),
            final(self).spec_old_size() == 0,
            r == old(self).node_at(path@).kids()[child_num as int],
            final(self).size() + r.size() == old(self).size() + child.size(),
            final(self).traversal() == old(self).traversal().subrange(
                0,
                old(self).child_start(path@, child_num as int),
            ) + child.traversal() + old(self).traversal().skip(
                old(self).child_start(path@, child_num as int) + r.size(),
            ),
            final(self).node_at(path@).kids().len() == old(self).node_at(path@).kids().len(),
            forall|j: int|
                0 <= j < old(self).node_at(path@).kids().len() && j != child_num
                    ==> final(self).node_at(path@).kids()[j] == old(self).node_at(path@).kids()[j],
            final(self).node_at(path@).kids()[child_num as int].traversal() == child.traversal(),
            final(self).node_at(path@).kids()[child_num as int].size() == child.size(),
            final(self).node_at(path@).kids()[child_num as int].all_dirty(),
            path@.len() > 0 ==> (forall|j: int|
                0 <= j < old(self).kids().len() && j != path@[0]
                    ==> final(self).kids()[j] == old(self).kids()[j]),
            final(self).valid_path(path@),
            forall|v: Seq<usize>, p: int|
                old(self).vec_rel(v, p) ==> #[trigger] final(self).vec_rel(v, p),
        decreases path@.len(),
    {
        proof {
            lemma_pre_index(*old(self), path@);
            lemma_traversal_len(*old(self));
            lemma_traversal_len(child);
        }
        if path.len() == 0 {
            let mut child = child;
            child.flag_as_new();
            let ghost z = child;
            core::mem::swap(&mut self.children[child_num], &mut child);
            self.needs_update = true;
            self.old_size = 0;
            let ghost cs0 = old(self).kids();
            let ghost cs1 = self.kids();
            let ghost c = child_num as int;
            proof {
                assert(cs1 =~= cs0.update(c, z));
                assert(child == cs0[c]);
                let e2 = cs0[c].traversal().len() as int;
                lemma_traversal_len(cs0[c]);
                lemma_traversal_len(z);
                assert(cs1[c].traversal() == cs0[c].traversal().subrange(0, 0) + z.traversal()
                    + cs0[c].traversal().skip(e2)) by {
                    assert(cs0[c].traversal().subrange(0, 0) + z.traversal()
                        + cs0[c].traversal().skip(e2) =~= z.traversal());
                }
                lemma_trav_seq_splice(cs0, cs1, c, 0, e2, z.traversal());
                lemma_trav_seq_len(cs0);
                lemma_trav_seq_len(cs0.take(c));
                lemma_size_seq_take_bound(cs0, c);
                let w = TreeNode::size_seq(cs0.take(c)) as int;
                assert(self.traversal() =~= old(self).traversal().subrange(0, 1 + w)
                    + z.traversal() + old(self).traversal().skip(1 + w + e2)) by {
                    assert(self.traversal() == seq![old(self).spec_data()] + TreeNode::trav_seq(
                        cs1,
                    ));
                    assert(old(self).traversal() == seq![old(self).spec_data()]
                        + TreeNode::trav_seq(cs0));
                }
                assert(old(self).child_start(path@, c) == 1 + w) by {
                    assert(old(self).node_at(path@) == *old(self));
                }
                lemma_traversal_len(*self);
                lemma_size_pos(z);
                assert forall|j: int| 0 <= j < cs1.len() implies (#[trigger] cs1[j]).wf() by {
                    if j != c {
                        assert(cs1[j] == cs0[j]);
                        assert(cs0[j].wf());
                    } else {
                        lemma_all_dirty_wf(z);
                    }
                }
                assert forall|v: Seq<usize>, p: int|
                    old(self).vec_rel(v, p) implies #[trigger] self.vec_rel(v, p) by {
                    assert forall|pp: int| cs0[c].vec_rel(v, pp) implies #[trigger] cs1[c].vec_rel(
                        v,
                        pp,
                    ) by {
                        lemma_all_dirty_vec_rel(z, v, pp);
                    }
                    assert(!cs1[c].stable());
                    lemma_kids_rel_replace_at(cs0, cs1, v, p + 1, c);
                }
            }
            child
        } else {
            let c = path[0];
            proof {
                assert(path@.subrange(1, path@.len() as int) =~= path@.drop_first());
                assert(old(self).kids()[c as int].wf());
            }
            let kid = self.children[c].set_child(&path[1..path.len()], child_num, child);
            self.needs_update = true;
            self.old_size = 0;
            proof {
                let cs0 = old(self).kids();
                let cs1 = self.kids();
                let rest = path@.drop_first();
                let e1 = cs0[c as int].child_start(rest, child_num as int);
                let e2 = e1 + kid.size();
                lemma_pre_index(cs0[c as int], rest);
                lemma_traversal_len(cs0[c as int]);
                lemma_traversal_len(cs1[c as int]);
                lemma_traversal_len(kid);
                lemma_traversal_len(child);
                assert(cs1[c as int].traversal() == cs0[c as int].traversal().subrange(0, e1)
                    + child.traversal() + cs0[c as int].traversal().skip(e2));
                assert(0 <= e1 && e2 <= cs0[c as int].traversal().len()) by {
                    let nd = cs0[c as int].node_at(rest);
                    lemma_size_seq_take_bound(nd.kids(), child_num as int);
                    assert(kid == nd.kids()[child_num as int]);
                }
                lemma_trav_seq_splice(cs0, cs1, c as int, e1, e2, child.traversal());
                lemma_trav_seq_len(cs0);
                lemma_trav_seq_len(cs0.take(c as int));
                lemma_size_seq_take_bound(cs0, c as int);
                let w1 = TreeNode::size_seq(cs0.take(c as int)) as int + e1;
                let w2 = TreeNode::size_seq(cs0.take(c as int)) as int + e2;
                assert(self.traversal() =~= old(self).traversal().subrange(0, 1 + w1)
                    + child.traversal() + old(self).traversal().skip(1 + w2)) by {
                    assert(self.traversal() == seq![old(self).spec_data()] + TreeNode::trav_seq(
                        cs1,
                    ));
                    assert(old(self).traversal() == seq![old(self).spec_data()]
                        + TreeNode::trav_seq(cs0));
                }
                assert(old(self).child_start(path@, child_num as int) == 1 + w1);
                lemma_traversal_len(*self);
                lemma_size_pos(cs1[c as int]);
                assert(!cs1[c as int].stable());
                assert forall|j: int| 0 <= j < cs1.len() implies (#[trigger] cs1[j]).wf() by {
                    if j != c as int {
                        assert(cs1[j] == cs0[j]);
                        assert(cs0[j].wf());
                    }
                }
                assert forall|v: Seq<usize>, p: int|
                    old(self).vec_rel(v, p) implies #[trigger] self.vec_rel(v, p) by {
                    lemma_kids_rel_replace_at(cs0, cs1, v, p + 1, c as int);
                }
            }
            kid
        }
    }

    /// Flag every node along the path, the named node included, as
    /// needing an update, without touching any value or size record.
    pub fn flag_as_updated(&mut self, path: &[usize])
        requires
            old(self).wf(),
            old(self).valid_path(path@),
        ensures
            final(self).wf(),
            final(self).spec_needs_update(),
            final(self).node_at(path@).spec_needs_update(),
            final(self).traversal() == old(self).traversal(),
            final(self).size() == old(self).size(),
            final(self).stable() == old(self).stable(),
            final(self).spec_old_size() == old(self).spec_old_size(),
            final(self).spec_data() == old(self).spec_data(),
            final(self).spec_dirty_val() == old(self).spec_dirty_val(),
            path@.len() > 0 ==> (forall|j: int|
                0 <= j < old(self).kids().len() && j != path@[0]
                    ==> final(self).kids()[j] == old(self).kids()[j]),
            final(self).valid_path(path@),
            forall|v: Seq<usize>, p: int|
                old(self).vec_rel(v, p) ==> #[trigger] final(self).vec_rel(v, p),
        decreases path@.len(),
    {
        self.needs_update = true;
        if path.len() > 0 {
            let c = path[0];
            proof {
                assert(path@.subrange(1, path@.len() as int) =~= path@.drop_first());
                assert(old(self).kids()[c as int].wf());
            }
            self.children[c].flag_as_updated(&path[1..path.len()]);
            proof {
                let cs0 = old(self).kids();
                let cs1 = self.kids();
                assert forall|j: int|
                    0 <= j < cs0.len() implies (#[trigger] cs1[j]).size() == cs0[j].size()
                        && cs1[j].traversal() == cs0[j].traversal() by {}
                lemma_seqs_eq_by_parts(cs0, cs1);
                assert(self.traversal() == old(self).traversal());
                assert(self.size() == old(self).size());
                assert(self.stable() == old(self).stable()) by {
                    if old(self).stable() {
                        assert forall|j: int|
                            0 <= j < cs1.len() implies (#[trigger] cs1[j]).stable() by {
                            assert(cs0[j].stable());
                        }
                    }
                    if self.stable() {
                        assert forall|j: int|
                            0 <= j < cs0.len() implies (#[trigger] cs0[j]).stable() by {
                            assert(cs1[j].stable());
                        }
                    }
                }
                assert forall|j: int| 0 <= j < cs1.len() implies (#[trigger] cs1[j]).wf() by {
                    if j != c as int {
                        assert(cs1[j] == cs0[j]);
                        assert(cs0[j].wf());
                    }
                }
                assert forall|v: Seq<usize>, p: int|
                    old(self).vec_rel(v, p) implies #[trigger] self.vec_rel(v, p) by {
                    lemma_kids_rel_replace_at(cs0, cs1, v, p + 1, c as int);
                }
            }
        } else {
            proof {
                assert forall|v: Seq<usize>, p: int|
                    old(self).vec_rel(v, p) implies #[trigger] self.vec_rel(v, p) by {}
            }
        }
    }

    /// Count the nodes of this subtree.
    pub fn total_nodes(&self) -> (r: usize)
        requires
            self.size() <= usize::MAX,
        ensures
            r == self.size(),
        decreases *self,
    {
        let mut total: usize = 1;
        let mut i: usize = 0;
        while i < self.children.len()
            invariant
                i <= self.kids().len(),
                self.size() <= usize::MAX,
                total == 1 + Self::size_seq(self.kids().take(i as int)),
            decreases self.kids().len() - i,
        {
            proof {
                lemma_size_seq_take(self.kids(), i as int);
                lemma_size_seq_take_bound(self.kids(), i as int);
            }
            let c = self.children[i].total_nodes();
            total = total + c;
            i = i + 1;
        }
        proof {
            assert(self.kids().take(self.kids().len() as int) =~= self.kids());
        }
        total
    }

    /// Flag this whole subtree as changed and drop its recorded sizes: the
    /// next synchronization will write it in full.
    pub fn flag_as_new(&mut self)
        ensures
            final(self).all_dirty(),
            final(self).wf(),
            final(self).traversal() == old(self).traversal(),
            final(self).size() == old(self).size(),
            final(self).spec_data() == old(self).spec_data(),
            final(self).kids().len() == old(self).kids().len(),
        decreases *old(self),
    {
        self.dirty_val = true;
        self.needs_update = true;
        self.old_size = 0;
        let mut i: usize = 0;
        while i < self.children.len()
            invariant
                i <= self.kids().len(),
                self.dirty_val,
                self.needs_update,
                self.old_size == 0,
                self.spec_data() == old(self).spec_data(),
                self.kids().len() == old(self).kids().len(),
                forall|j: int| i <= j < self.kids().len() ==> self.kids()[j] == old(self).kids()[j],
                forall|j: int|
                    0 <= j < i ==> (#[trigger] self.kids()[j]).all_dirty() && self.kids()[j].traversal()
                        == old(self).kids()[j].traversal() && self.kids()[j].size() == old(
                        self,
                    ).kids()[j].size(),
            decreases self.kids().len() - i,
        {
            proof {
                assert(self.kids()[i as int] == old(self).kids()[i as int]);
                assert(decreases_to!(*old(self) => old(self).children));
                assert(decreases_to!(old(self).children => old(self).children@));
                assert(decreases_to!(old(self).children@ => old(self).children@[i as int]));
            }
            self.children[i].flag_as_new();
            i = i + 1;
        }
        proof {
            lemma_seqs_eq_by_parts(old(self).kids(), self.kids());
            lemma_all_dirty_wf(*self);
        }
    }
}

/// Serialize a whole subtree into the container, appending at its end,
/// and leave the subtree fully synchronized. Returns the number of nodes
/// written.
pub fn dump(tree: &mut TreeNode, vec: &mut PresortedVec) -> (size: usize)
    requires
        old(vec).wf(),
        old(vec)@.len() + old(tree).size() <= usize::MAX,
    ensures
        size == old(tree).size(),
        final(tree).is_clean(),
        final(tree).traversal() == old(tree).traversal(),
        final(tree).size() == old(tree).size(),
        final(tree).spec_data() == old(tree).spec_data(),
        final(tree).kids().len() == old(tree).kids().len(),
        final(vec).wf(),
        final(vec)@ == old(vec)@ + old(tree).traversal(),
    decreases *old(tree),
{
    proof {
        lemma_size_pos(*old(tree));
    }
    vec.push(tree.data);
    tree.dirty_val = false;
    let mut size: usize = 1;
    let ghost cs0 = old(tree).kids();
    let mut i: usize = 0;
    while i < tree.children.len()
        invariant
            cs0 == old(tree).kids(),
            i <= cs0.len(),
            vec.wf(),
            tree.spec_data() == old(tree).spec_data(),
            !tree.spec_dirty_val(),
            tree.kids().len() == cs0.len(),
            forall|j: int| i <= j < cs0.len() ==> tree.kids()[j] == cs0[j],
            forall|j: int|
                0 <= j < i ==> (#[trigger] tree.kids()[j]).is_clean() && tree.kids()[j].traversal()
                    == cs0[j].traversal() && tree.kids()[j].size() == cs0[j].size(),
            size == 1 + TreeNode::size_seq(cs0.take(i as int)),
            vec@ == old(vec)@ + seq![old(tree).spec_data()] + TreeNode::trav_seq(
                cs0.take(i as int),
            ),
            old(vec)@.len() + old(tree).size() <= usize::MAX,
        decreases cs0.len() - i,
    {
        proof {
            lemma_size_seq_take(cs0, i as int);
            lemma_size_seq_take_bound(cs0, i as int);
            lemma_trav_seq_take(cs0, i as int);
            lemma_trav_seq_len(cs0.take(i as int));
            lemma_traversal_len(cs0[i as int]);
            assert(tree.kids()[i as int] == cs0[i as int]);
            assert(decreases_to!(*old(tree) => old(tree).children));
            assert(decreases_to!(old(tree).children => old(tree).children@));
            assert(decreases_to!(old(tree).children@ => old(tree).children@[i as int]));
        }
        let s = dump(&mut tree.children[i], vec);
        proof {
            assert(vec@ =~= old(vec)@ + seq![old(tree).spec_data()] + TreeNode::trav_seq(
                cs0.take(i + 1),
            ));
        }
        size = size + s;
        i = i + 1;
    }
    tree.needs_update = false;
    tree.old_size = size;
    proof {
        assert(cs0.take(cs0.len() as int) =~= cs0);
        lemma_seqs_eq_by_parts(cs0, tree.kids());
        assert(vec@ =~= old(vec)@ + old(tree).traversal());
        assert(tree.traversal() == old(tree).traversal());
    }
    size
}

/// The loop state of `update` while no region has moved: the container
/// still has its old length, everything from the write position on is
/// untouched, the subtrees synchronized so far had current sizes, and the
/// remaining subtrees still agree with the container where it stands.
spec fn in_place_mode(v: Seq<usize>, v0: Seq<usize>, cs0: Seq<TreeNode>, i: int, q: int) -> bool {
    &&& v.len() == v0.len()
    &&& 0 <= q <= v.len()
    &&& v.subrange(q, v.len() as int) == v0.subrange(q, v0.len() as int)
    &&& forall|j: int| 0 <= j < i ==> (#[trigger] cs0[j]).stable()
    &&& TreeNode::kids_rel(cs0.skip(i), v, q)
}

/// Re-synchronize the container with a subtree after mutations, visiting
/// only regions whose bookkeeping says they may have changed, and leave
/// the subtree fully synchronized. Returns the subtree's node count.
///
/// When nothing below moved and the container covers the subtree's old
/// region, the container keeps its length and everything outside the
/// region; otherwise it is cut to end exactly at the rewritten region.
#[verifier::rlimit(100)]
#[verifier::spinoff_prover]
pub fn update(tree: &mut TreeNode, start_index: usize, vec: &mut PresortedVec) -> (size: usize)
    requires
        old(tree).wf(),
        old(vec).wf(),
        old(tree).vec_rel(old(vec)@, start_index as int),
        start_index <= old(vec)@.len(),
        start_index + old(tree).size() <= usize::MAX,
    ensures
        size == old(tree).size(),
        final(tree).is_clean(),
        final(tree).traversal() == old(tree).traversal(),
        final(tree).size() == old(tree).size(),
        final(tree).spec_data() == old(tree).spec_data(),
        final(tree).kids().len() == old(tree).kids().len(),
        final(vec).wf(),
        final(vec)@.len() >= start_index + size,
        final(vec)@.subrange(0, start_index as int) == old(vec)@.subrange(
            0,
            start_index as int,
        ),
        final(vec)@.subrange(start_index as int, start_index + size) == old(tree).traversal(),
        if old(tree).stable() && old(vec)@.len() >= start_index + old(tree).size() {
            final(vec)@.len() == old(vec)@.len() && final(vec)@.subrange(
                start_index + size,
                final(vec)@.len() as int,
            ) == old(vec)@.subrange(start_index + size, old(vec)@.len() as int)
        } else {
            final(vec)@.len() == start_index + size
        },
    decreases *old(tree),
{
    proof {
        lemma_size_pos(*old(tree));
        lemma_traversal_len(*old(tree));
    }
    let mut size: usize = tree.old_size;
    let vlen = vec.len();
    // compared by subtraction: a stale recorded size need not fit beside
    // start_index, and vlen is never below start_index
    if tree.needs_update || vlen - start_index < size {
        let ghost v0 = old(vec)@;
        let ghost cs0 = old(tree).kids();
        let ghost st = start_index as int;
        if vlen <= start_index {
            vec.push(tree.data);
        } else if tree.dirty_val {
            vec.set(start_index, tree.data);
        }
        tree.dirty_val = false;
        size = 1;
        proof {
            assert(cs0.take(0) =~= Seq::<TreeNode>::empty());
            assert(vec@.subrange(st, st + 1) =~= seq![old(tree).spec_data()] + TreeNode::trav_seq(
                cs0.take(0),
            ));
            assert(vec@.subrange(0, st) =~= v0.subrange(0, st));
            if vlen > start_index {
                assert(vec@.len() == v0.len());
                assert(vec@.subrange(st + 1, vec@.len() as int) =~= v0.subrange(
                    st + 1,
                    v0.len() as int,
                ));
                lemma_kids_rel_depends(cs0, v0, vec@, st + 1, st + 1);
                assert(cs0.skip(0) =~= cs0);
                assert(in_place_mode(vec@, v0, cs0, 0, st + 1));
            } else {
                assert(vec@.len() == st + 1);
            }
        }
        let mut i: usize = 0;
        while i < tree.children.len()
            invariant
                v0 == old(vec)@,
                cs0 == old(tree).kids(),
                st == start_index as int,
                old(tree).wf(),
                st >= 0,
                st <= v0.len(),
                st + old(tree).size() <= usize::MAX,
                i <= cs0.len(),
                vec.wf(),
                tree.spec_data() == old(tree).spec_data(),
                !tree.spec_dirty_val(),
                tree.spec_needs_update() == old(tree).spec_needs_update(),
                tree.spec_old_size() == old(tree).spec_old_size(),
                tree.kids().len() == cs0.len(),
                forall|j: int| i <= j < cs0.len() ==> tree.kids()[j] == cs0[j],
                forall|j: int|
                    0 <= j < i ==> (#[trigger] tree.kids()[j]).is_clean()
                        && tree.kids()[j].traversal() == cs0[j].traversal()
                        && tree.kids()[j].size() == cs0[j].size(),
                size == 1 + TreeNode::size_seq(cs0.take(i as int)),
                size >= 1,
                vec@.len() >= st + size,
                vec@.subrange(0, st) == v0.subrange(0, st),
                vec@.subrange(st, st + size) == seq![old(tree).spec_data()]
                    + TreeNode::trav_seq(cs0.take(i as int)),
                in_place_mode(vec@, v0, cs0, i as int, st + size) || vec@.len() == st + size,
                (old(tree).stable() && v0.len() >= st + old(tree).size()) ==> in_place_mode(
                    vec@,
                    v0,
                    cs0,
                    i as int,
                    st + size,
                ),
            decreases cs0.len() - i,
        {
            let ghost vpre = vec@;
            let ghost q = st + size;
            proof {
                lemma_size_seq_take(cs0, i as int);
                lemma_size_seq_take_bound(cs0, i as int);
                lemma_trav_seq_take(cs0, i as int);
                lemma_trav_seq_len(cs0.take(i as int));
                lemma_traversal_len(cs0[i as int]);
                assert(old(tree).kids()[i as int].wf());
                assert(cs0[i as int].wf());
                if in_place_mode(vec@, v0, cs0, i as int, q) {
                    assert(cs0.skip(i as int)[0] == cs0[i as int]);
                    assert(cs0[i as int].vec_rel(vec@, q));
                } else {
                    lemma_vec_rel_frontier(cs0[i as int], vec@, q);
                }
                assert(tree.kids()[i as int] == cs0[i as int]);
                assert(decreases_to!(*old(tree) => old(tree).children));
                assert(decreases_to!(old(tree).children => old(tree).children@));
                assert(decreases_to!(old(tree).children@ => old(tree).children@[i as int]));
            }
            let s = update(&mut tree.children[i], start_index + size, vec);
            proof {
                let snew = size + s;
                assert(vec@.subrange(0, q) =~= vpre.subrange(0, q)) by {
                    assert(vec@.subrange(0, q) =~= vec@.subrange(0, st).add(
                        vec@.subrange(st, q),
                    ));
                    assert(vpre.subrange(0, q) =~= vpre.subrange(0, st).add(
                        vpre.subrange(st, q),
                    ));
                    assert(vec@.subrange(0, st) =~= vpre.subrange(0, st)) by {
                        assert forall|t: int| 0 <= t < st implies vec@[t] == vpre[t] by {
                            assert(vec@.subrange(0, q)[t] == vpre.subrange(0, q)[t]);
                        }
                    }
                }
                assert(vec@.subrange(0, st) =~= v0.subrange(0, st)) by {
                    assert forall|t: int| 0 <= t < st implies vec@[t] == v0[t] by {
                        assert(vec@.subrange(0, q)[t] == vpre.subrange(0, q)[t]);
                        assert(vpre.subrange(0, st)[t] == v0.subrange(0, st)[t]);
                    }
                }
                assert(vec@.subrange(st, st + snew) =~= seq![old(tree).spec_data()]
                    + TreeNode::trav_seq(cs0.take(i + 1))) by {
                    assert forall|t: int| st <= t < st + snew implies vec@[t] == (seq![
                        old(tree).spec_data(),
                    ] + TreeNode::trav_seq(cs0.take(i + 1)))[t - st] by {
                        if t < q {
                            assert(vec@.subrange(0, q)[t] == vpre.subrange(0, q)[t]);
                            assert(vpre.subrange(st, q)[t - st] == (seq![old(tree).spec_data()]
                                + TreeNode::trav_seq(cs0.take(i as int)))[t - st]);
                        } else {
                            assert(vec@.subrange(q, q + s)[t - q] == cs0[i as int].traversal()[t
                                - q]);
                        }
                    }
                }
                if cs0[i as int].stable() && vpre.len() >= q + cs0[i as int].size() {
                    assert(vec@.len() == vpre.len());
                    if in_place_mode(vpre, v0, cs0, i as int, q) {
                        assert(in_place_mode(vec@, v0, cs0, i + 1, st + snew)) by {
                            assert(vec@.subrange(st + snew, vec@.len() as int) =~= v0.subrange(
                                st + snew,
                                v0.len() as int,
                            )) by {
                                assert forall|t: int| st + snew <= t < vec@.len() implies vec@[t]
                                    == v0[t] by {
                                    assert(vec@.subrange(q + s, vec@.len() as int)[t - q - s]
                                        == vpre.subrange(q + s, vpre.len() as int)[t - q - s]);
                                    assert(vpre.subrange(q, vpre.len() as int)[t - q]
                                        == v0.subrange(q, v0.len() as int)[t - q]);
                                }
                            }
                            assert forall|j: int| 0 <= j < i + 1 implies (#[trigger] cs0[j]).stable() by {}
                            assert(TreeNode::kids_rel(cs0.skip(i as int), vpre, q));
                            assert(cs0.skip(i as int)[0] == cs0[i as int]);
                            assert(TreeNode::kids_rel(
                                cs0.skip(i as int).drop_first(),
                                vpre,
                                q + cs0[i as int].spec_old_size(),
                            ));
                            assert(cs0.skip(i as int).drop_first() =~= cs0.skip(i + 1));
                            assert(cs0[i as int].spec_old_size() == cs0[i as int].size());
                            lemma_kids_rel_depends(
                                cs0.skip(i + 1),
                                vpre,
                                vec@,
                                q + s,
                                q + s,
                            );
                        }
                    } else {
                        assert(vpre.len() == q);
                        assert(false);
                    }
                } else {
                    assert(vec@.len() == st + snew);
                }
                if old(tree).stable() && v0.len() >= st + old(tree).size() {
                    assert(old(tree).kids()[i as int].stable());
                    assert(vpre.len() >= q + cs0[i as int].size());
                }
            }
            size = size + s;
            i = i + 1;
        }
        tree.needs_update = false;
        proof {
            assert(cs0.take(cs0.len() as int) =~= cs0);
            lemma_seqs_eq_by_parts(cs0, tree.kids());
            assert(size == old(tree).size());
            assert(vec@.subrange(st, st + size) =~= old(tree).traversal());
        }
        if tree.old_size != size {
            let ghost vbefore = vec@;
            vec.truncate(start_index + size);
            tree.old_size = size;
            proof {
                if start_index + size < vbefore.len() {
                    assert(vec@ == vbefore.take(st + size));
                    assert(vec@.subrange(0, st) =~= vbefore.subrange(0, st));
                    assert(vec@.subrange(st, st + size) =~= vbefore.subrange(st, st + size));
                } else {
                    assert(vec@ == vbefore);
                }
                assert(!old(tree).stable());
            }
        } else {
            proof {
                if old(tree).stable() && v0.len() >= st + old(tree).size() {
                    assert(in_place_mode(vec@, v0, cs0, cs0.len() as int, st + size));
                } else {
                    if in_place_mode(vec@, v0, cs0, cs0.len() as int, st + size) {
                        assert forall|j: int|
                            0 <= j < cs0.len() implies (#[trigger] old(tree).kids()[j]).stable() by {
                            assert(cs0[j].stable());
                        }
                        assert(old(tree).stable());
                        assert(v0.len() < st + old(tree).size());
                        assert(vec@.len() >= st + size);
                        assert(false);
                    }
                    assert(vec@.len() == st + size);
                }
            }
        }
    } else {
        proof {
            lemma_wf_not_needs_update_clean(*old(tree));
            lemma_clean_wf_stable(*old(tree));
            assert(old(tree).spec_old_size() == old(tree).size());
            assert(old(vec)@.subrange(
                start_index as int,
                start_index + old(tree).spec_old_size(),
            ) == old(tree).traversal());
        }
    }
    size
}

/// Two subtree sequences whose members have equal traversals and sizes
/// have equal concatenated traversals and counted sizes.
proof fn lemma_seqs_eq_by_parts(cs0: Seq<TreeNode>, cs1: Seq<TreeNode>)
    requires
        cs0.len() == cs1.len(),
        forall|j: int|
            0 <= j < cs0.len() ==> (#[trigger] cs1[j]).traversal() == cs0[j].traversal()
                && cs1[j].size() == cs0[j].size(),
    ensures
        TreeNode::trav_seq(cs1) == TreeNode::trav_seq(cs0),
        TreeNode::size_seq(cs1) == TreeNode::size_seq(cs0),
    decreases cs0,
{
    if cs0.len() > 0 {
        assert forall|j: int|
            0 <= j < cs0.drop_last().len() implies (#[trigger] cs1.drop_last()[j]).traversal()
            == cs0.drop_last()[j].traversal() && cs1.drop_last()[j].size()
            == cs0.drop_last()[j].size() by {
            assert(cs0.drop_last()[j] == cs0[j]);
            assert(cs1.drop_last()[j] == cs1[j]);
        }
        lemma_seqs_eq_by_parts(cs0.drop_last(), cs1.drop_last());
        assert(cs0.last() == cs0[cs0.len() - 1]);
        assert(cs1.last() == cs1[cs0.len() - 1]);
    }
}

/// Incremental synchronization agrees with a full rebuild: two presorted
/// containers holding the same contents — one kept current by `update`
/// after any run of tree mutations, one freshly filled by `dump` from an
/// equal tree — have the very same sorted view once each is sorted.
pub proof fn lemma_incremental_matches_rebuild(c1: PresortedVec, c2: PresortedVec)
    requires
        c1.wf(),
        c2.wf(),
        c1@ == c2@,
        sorted(c1.sorted_view()),
        sorted(c2.sorted_view()),
    ensures
        c1.sorted_view() == c2.sorted_view(),
{
    c1.inner().lemma_permuted_view_multiset();
    c2.inner().lemma_permuted_view_multiset();
    lemma_sorted_same_multiset_equal(c1.sorted_view(), c2.sorted_view());
}

/// The concatenated traversals split at any point into the traversals of
/// the prefix and of the rest.
proof fn lemma_trav_seq_cat(cs: Seq<TreeNode>, k: int)
    requires
        0 <= k <= cs.len(),
    ensures
        TreeNode::trav_seq(cs) == TreeNode::trav_seq(cs.take(k)) + TreeNode::trav_seq(cs.skip(k)),
        TreeNode::size_seq(cs) == TreeNode::size_seq(cs.take(k)) + TreeNode::size_seq(cs.skip(k)),
    decreases cs.len() - k,
{
    if k == cs.len() {
        assert(cs.take(k) =~= cs);
        assert(cs.skip(k) =~= Seq::<TreeNode>::empty());
        assert(TreeNode::trav_seq(cs) + TreeNode::trav_seq(cs.skip(k)) =~= TreeNode::trav_seq(cs));
    } else {
        lemma_trav_seq_cat(cs, k + 1);
        lemma_trav_seq_take(cs, k);
        lemma_size_seq_take(cs, k);
        lemma_trav_seq_first(cs.skip(k));
        lemma_size_seq_first(cs.skip(k));
        assert(cs.skip(k)[0] == cs[k]);
        assert(cs.skip(k).drop_first() =~= cs.skip(k + 1));
        assert(TreeNode::trav_seq(cs.take(k)) + (cs[k].traversal() + TreeNode::trav_seq(
            cs.skip(k + 1),
        )) =~= (TreeNode::trav_seq(cs.take(k)) + cs[k].traversal()) + TreeNode::trav_seq(
            cs.skip(k + 1),
        ));
    }
}

/// Replacing the subtree at one position rewrites the corresponding
/// window of the concatenated traversals and leaves the rest in place.
proof fn lemma_trav_seq_splice(
    cs0: Seq<TreeNode>,
    cs1: Seq<TreeNode>,
    c: int,
    e1: int,
    e2: int,
    seg: Seq<usize>,
)
    requires
        cs1.len() == cs0.len(),
        0 <= c < cs0.len(),
        forall|j: int| 0 <= j < cs0.len() && j != c ==> cs1[j] == cs0[j],
        0 <= e1 <= e2 <= cs0[c].traversal().len(),
        cs1[c].traversal() == cs0[c].traversal().subrange(0, e1) + seg + cs0[c].traversal().skip(
            e2,
        ),
    ensures
        TreeNode::trav_seq(cs1) == TreeNode::trav_seq(cs0).subrange(
            0,
            TreeNode::size_seq(cs0.take(c)) + e1,
        ) + seg + TreeNode::trav_seq(cs0).skip(TreeNode::size_seq(cs0.take(c)) + e2),
{
    lemma_trav_seq_cat(cs0, c);
    lemma_trav_seq_cat(cs1, c);
    lemma_trav_seq_first(cs0.skip(c));
    lemma_trav_seq_first(cs1.skip(c));
    assert(cs0.skip(c)[0] == cs0[c]);
    assert(cs1.skip(c)[0] == cs1[c]);
    assert(cs1.take(c) =~= cs0.take(c));
    assert(cs1.skip(c).drop_first() =~= cs0.skip(c).drop_first());
    lemma_trav_seq_len(cs0.take(c));
    lemma_trav_seq_len(cs0);
    lemma_traversal_len(cs0[c]);
    let a = TreeNode::trav_seq(cs0.take(c));
    let m0 = cs0[c].traversal();
    let b = TreeNode::trav_seq(cs0.skip(c).drop_first());
    let w = TreeNode::size_seq(cs0.take(c)) as int;
    assert(TreeNode::trav_seq(cs0) == a + (m0 + b));
    assert(TreeNode::trav_seq(cs1) == a + ((m0.subrange(0, e1) + seg + m0.skip(e2)) + b));
    assert((a + (m0 + b)).subrange(0, w + e1) =~= a + m0.subrange(0, e1));
    assert((a + (m0 + b)).skip(w + e2) =~= m0.skip(e2) + b);
    assert(a + ((m0.subrange(0, e1) + seg + m0.skip(e2)) + b) =~= (a + m0.subrange(0, e1)) + seg
        + (m0.skip(e2) + b));
}

/// The named node's value sits at its computed place in the traversal,
/// and that place is inside the traversal.
pub proof fn lemma_pre_index(n: TreeNode, p: Seq<usize>)
    requires
        n.valid_path(p),
    ensures
        0 <= n.pre_index_of(p),
        n.pre_index_of(p) + n.node_at(p).size() <= n.size(),
        n.traversal()[n.pre_index_of(p)] == n.node_at(p).spec_data(),
        n.traversal().subrange(
            n.pre_index_of(p),
            n.pre_index_of(p) + n.node_at(p).size() as int,
        ) == n.node_at(p).traversal(),
    decreases p.len(),
{
    lemma_traversal_len(n);
    if p.len() == 0 {
        assert(n.traversal().subrange(0, n.size() as int) =~= n.traversal());
        assert(n.traversal()[0] == n.spec_data());
    } else {
        let c = p[0] as int;
        let rest = p.drop_first();
        let kid = n.kids()[c];
        lemma_pre_index(kid, rest);
        lemma_size_seq_take(n.kids(), c);
        lemma_size_seq_take_bound(n.kids(), c);
        lemma_trav_seq_cat(n.kids(), c);
        lemma_trav_seq_first(n.kids().skip(c));
        assert(n.kids().skip(c)[0] == kid);
        lemma_trav_seq_len(n.kids().take(c));
        lemma_trav_seq_len(n.kids());
        lemma_traversal_len(kid);
        let w = 1 + TreeNode::size_seq(n.kids().take(c)) as int;
        let e = kid.pre_index_of(rest);
        let inner = kid.node_at(rest);
        lemma_traversal_len(inner);
        assert(n.pre_index_of(p) == w + e);
        assert(n.node_at(p) == inner);
        assert(n.traversal() == seq![n.spec_data()] + (TreeNode::trav_seq(n.kids().take(c)) + (
        kid.traversal() + TreeNode::trav_seq(n.kids().skip(c).drop_first()))));
        assert forall|t: int| 0 <= t < kid.traversal().len() implies n.traversal()[w + t]
            == kid.traversal()[t] by {}
        assert(n.traversal()[w + e] == kid.traversal()[e]);
        assert(n.traversal().subrange(w + e, w + e + inner.size() as int)
            =~= kid.traversal().subrange(e, e + inner.size() as int));
    }
}

/// If the subtree at one position is replaced by one that claims no more
/// of the container, the sibling relation survives.
proof fn lemma_kids_rel_replace_at(
    cs0: Seq<TreeNode>,
    cs1: Seq<TreeNode>,
    v: Seq<usize>,
    q: int,
    idx: int,
)
    requires
        TreeNode::kids_rel(cs0, v, q),
        cs1.len() == cs0.len(),
        0 <= idx < cs0.len(),
        forall|j: int| 0 <= j < cs0.len() && j != idx ==> cs1[j] == cs0[j],
        cs1[idx].stable() ==> cs0[idx].stable() && cs1[idx].spec_old_size()
            == cs0[idx].spec_old_size(),
        forall|p: int| cs0[idx].vec_rel(v, p) ==> #[trigger] cs1[idx].vec_rel(v, p),
    ensures
        TreeNode::kids_rel(cs1, v, q),
    decreases cs0,
{
    if idx == 0 {
        assert(cs0[0].vec_rel(v, q));
        assert(cs1[0].vec_rel(v, q));
        if cs1[0].stable() {
            assert(cs1.drop_first() =~= cs0.drop_first());
        }
    } else {
        assert(cs1[0] == cs0[0]);
        if cs0[0].stable() {
            assert forall|j: int|
                0 <= j < cs0.drop_first().len() && j != idx - 1 implies cs1.drop_first()[j]
                == cs0.drop_first()[j] by {
                assert(cs0.drop_first()[j] == cs0[j + 1]);
                assert(cs1.drop_first()[j] == cs1[j + 1]);
            }
            assert(cs0.drop_first()[idx - 1] == cs0[idx]);
            assert(cs1.drop_first()[idx - 1] == cs1[idx]);
            lemma_kids_rel_replace_at(
                cs0.drop_first(),
                cs1.drop_first(),
                v,
                q + cs0[0].spec_old_size(),
                idx - 1,
            );
        }
    }
}

/// Appending a subtree that claims nothing of the container keeps the
/// sibling relation.
proof fn lemma_kids_rel_push(cs: Seq<TreeNode>, z: TreeNode, v: Seq<usize>, q: int)
    requires
        TreeNode::kids_rel(cs, v, q),
        z.all_dirty(),
    ensures
        TreeNode::kids_rel(cs.push(z), v, q),
    decreases cs,
{
    lemma_size_pos(z);
    if cs.len() == 0 {
        lemma_all_dirty_vec_rel(z, v, q);
        assert(cs.push(z)[0] == z);
        assert(!z.stable());
    } else {
        assert(cs.push(z)[0] == cs[0]);
        if cs[0].stable() {
            lemma_kids_rel_push(cs.drop_first(), z, v, q + cs[0].spec_old_size());
            assert(cs.push(z).drop_first() =~= cs.drop_first().push(z));
        }
    }
}

/// Two subtree sequences whose members have equal sizes have equal
/// counted sizes.
proof fn lemma_size_seq_eq(cs0: Seq<TreeNode>, cs1: Seq<TreeNode>)
    requires
        cs0.len() == cs1.len(),
        forall|j: int| 0 <= j < cs0.len() ==> (#[trigger] cs1[j]).size() == cs0[j].size(),
    ensures
        TreeNode::size_seq(cs1) == TreeNode::size_seq(cs0),
    decreases cs0,
{
    if cs0.len() > 0 {
        assert forall|j: int|
            0 <= j < cs0.drop_last().len() implies (#[trigger] cs1.drop_last()[j]).size()
            == cs0.drop_last()[j].size() by {
            assert(cs0.drop_last()[j] == cs0[j]);
            assert(cs1.drop_last()[j] == cs1[j]);
        }
        lemma_size_seq_eq(cs0.drop_last(), cs1.drop_last());
        assert(cs0.last() == cs0[cs0.len() - 1]);
        assert(cs1.last() == cs1[cs0.len() - 1]);
    }
}

/// Dropping the last subtree keeps the sibling relation.
proof fn lemma_kids_rel_drop_last(cs: Seq<TreeNode>, v: Seq<usize>, q: int)
    requires
        TreeNode::kids_rel(cs, v, q),
        cs.len() > 0,
    ensures
        TreeNode::kids_rel(cs.drop_last(), v, q),
    decreases cs,
{
    if cs.len() == 1 {
        assert(cs.drop_last() =~= Seq::<TreeNode>::empty());
    } else {
        assert(cs.drop_last()[0] == cs[0]);
        if cs[0].stable() {
            lemma_kids_rel_drop_last(cs.drop_first(), v, q + cs[0].spec_old_size());
            assert(cs.drop_last().drop_first() =~= cs.drop_first().drop_last());
        }
    }
}

} // verus!
