//! The mathematical model of the size-annotated tree.
//!
//! `NodeModel` is the spec-level image of one tree node; the executable
//! `Node` views into it. All contracts of the tree operations are stated
//! over this model, and the laws of the tree — sizes aggregate bottom-up,
//! children stay sorted, lookup by path is exact and unique, marking a
//! subtree marks every descendant and is idempotent, the removal plan names
//! exactly the topmost marked entries — are proved here.

use vstd::prelude::*;
use crate::fspath::{path_le, is_child_path};

verus! {

/// Spec-level image of one filesystem entry in the tree.
#[verifier::ext_equal]
pub struct NodeModel {
    /// Aggregate byte size: a file's own length, or the sum of the direct
    /// children's sizes for a directory.
    pub size: u64,
    /// Absolute path, the node's identifier within the tree.
    pub path: Seq<Seq<u8>>,
    /// Ordered children; empty for files.
    pub children: Seq<NodeModel>,
    pub is_directory: bool,
    pub is_marked: bool,
}

/// Spec-level image of one pending filesystem removal.
#[verifier::ext_equal]
pub struct RemoveActionModel {
    pub path: Seq<Seq<u8>>,
    pub is_directory: bool,
}

pub open spec fn sum_sizes(cs: Seq<NodeModel>) -> int
    decreases cs.len(),
{
    if cs.len() == 0 {
        0
    } else {
        cs[0].size + sum_sizes(cs.drop_first())
    }
}

/// The sibling order: directories before files, then by path.
pub open spec fn node_le(a: NodeModel, b: NodeModel) -> bool {
    if a.is_directory != b.is_directory {
        a.is_directory
    } else {
        path_le(a.path, b.path)
    }
}

/// The sibling order is total.
pub proof fn lemma_node_le_total(a: NodeModel, b: NodeModel)
    ensures
        node_le(a, b) || node_le(b, a),
{
    if a.is_directory == b.is_directory {
        crate::fspath::lemma_path_le_total(a.path, b.path);
    }
}

/// The sibling order is transitive.
pub proof fn lemma_node_le_trans(a: NodeModel, b: NodeModel, c: NodeModel)
    requires
        node_le(a, b),
        node_le(b, c),
    ensures
        node_le(a, c),
{
    if a.is_directory == b.is_directory && b.is_directory == c.is_directory {
        crate::fspath::lemma_path_le_trans(a.path, b.path, c.path);
    }
}

pub open spec fn children_sorted(cs: Seq<NodeModel>) -> bool {
    forall|i: int, j: int| 0 <= i < j < cs.len() ==> node_le(#[trigger] cs[i], #[trigger] cs[j])
}

impl NodeModel {
    /// Well-formedness of a tree: files are leaves, a directory's size is
    /// the sum of its children's sizes, each child's path extends the
    /// parent's by one component, sibling paths are distinct, and siblings
    /// are sorted directories-first then by path.
    pub open spec fn wf(self) -> bool
        decreases self,
    {
        &&& (!self.is_directory ==> self.children.len() == 0)
        &&& (self.is_directory ==> self.size as int == sum_sizes(self.children))
        &&& (forall|i: int|
            0 <= i < self.children.len() ==> is_child_path(
                (#[trigger] self.children[i]).path,
                self.path,
            ))
        &&& (forall|i: int, j: int|
            0 <= i < j < self.children.len() ==> (#[trigger] self.children[i]).path != (
            #[trigger] self.children[j]).path)
        &&& children_sorted(self.children)
        &&& (forall|i: int| 0 <= i < self.children.len() ==> (#[trigger] self.children[i]).wf())
    }
}

/// `m` is a node of the tree rooted at `root` (the root included).
pub open spec fn in_tree(root: NodeModel, m: NodeModel) -> bool
    decreases root,
{
    m == root || in_children(root.children, m)
}

pub open spec fn in_children(cs: Seq<NodeModel>, m: NodeModel) -> bool
    decreases cs,
{
    cs.len() > 0 && (in_tree(cs[0], m) || in_children(cs.drop_first(), m))
}

/// Some node of the tree rooted at `root` has path `p`.
pub open spec fn contains_path(root: NodeModel, p: Seq<Seq<u8>>) -> bool
    decreases root,
{
    root.path == p || children_contain_path(root.children, p)
}

pub open spec fn children_contain_path(cs: Seq<NodeModel>, p: Seq<Seq<u8>>) -> bool
    decreases cs,
{
    cs.len() > 0 && (contains_path(cs[0], p) || children_contain_path(cs.drop_first(), p))
}

/// The node that descent by path prefix reaches: the root if its path is
/// `p`, else the lookup in the first child whose path is a prefix of `p`.
pub open spec fn found_at(root: NodeModel, p: Seq<Seq<u8>>) -> Option<NodeModel>
    decreases root,
{
    if root.path == p {
        Some(root)
    } else {
        found_in_children(root.children, p)
    }
}

pub open spec fn found_in_children(cs: Seq<NodeModel>, p: Seq<Seq<u8>>) -> Option<NodeModel>
    decreases cs,
{
    if cs.len() == 0 {
        None
    } else if cs[0].path.is_prefix_of(p) {
        found_at(cs[0], p)
    } else {
        found_in_children(cs.drop_first(), p)
    }
}

/// The tree with `v` written into the marks of `n` and every descendant.
pub open spec fn set_marked(n: NodeModel, v: bool) -> NodeModel
    decreases n,
{
    NodeModel { is_marked: v, children: set_marked_all(n.children, v), ..n }
}

pub open spec fn set_marked_all(cs: Seq<NodeModel>, v: bool) -> Seq<NodeModel>
    decreases cs,
{
    if cs.len() == 0 {
        Seq::empty()
    } else {
        seq![set_marked(cs[0], v)] + set_marked_all(cs.drop_first(), v)
    }
}

/// The tree with `v` written into the marks of the node at path `p` and of
/// its whole subtree; unchanged when no descent reaches `p`.
pub open spec fn marked_at(root: NodeModel, p: Seq<Seq<u8>>, v: bool) -> NodeModel
    decreases root,
{
    if root.path == p {
        set_marked(root, v)
    } else {
        NodeModel { children: marked_at_children(root.children, p, v), ..root }
    }
}

pub open spec fn marked_at_children(cs: Seq<NodeModel>, p: Seq<Seq<u8>>, v: bool) -> Seq<
    NodeModel,
>
    decreases cs,
{
    if cs.len() == 0 {
        cs
    } else if cs[0].path.is_prefix_of(p) {
        seq![marked_at(cs[0], p, v)] + cs.drop_first()
    } else {
        seq![cs[0]] + marked_at_children(cs.drop_first(), p, v)
    }
}

/// The tree with the node at path `p` replaced by `m`; unchanged when no
/// descent reaches `p`.
pub open spec fn replaced_at(root: NodeModel, p: Seq<Seq<u8>>, m: NodeModel) -> NodeModel
    decreases root,
{
    if root.path == p {
        m
    } else {
        NodeModel { children: replaced_at_children(root.children, p, m), ..root }
    }
}

pub open spec fn replaced_at_children(cs: Seq<NodeModel>, p: Seq<Seq<u8>>, m: NodeModel) -> Seq<
    NodeModel,
>
    decreases cs,
{
    if cs.len() == 0 {
        cs
    } else if cs[0].path.is_prefix_of(p) {
        seq![replaced_at(cs[0], p, m)] + cs.drop_first()
    } else {
        seq![cs[0]] + replaced_at_children(cs.drop_first(), p, m)
    }
}

pub open spec fn action_of(n: NodeModel) -> RemoveActionModel {
    RemoveActionModel { path: n.path, is_directory: n.is_directory }
}

/// The removal plan of a tree: for each child in order, the child itself
/// if it is marked, else the plan of its subtree.
pub open spec fn plan_of(n: NodeModel) -> Seq<RemoveActionModel>
    decreases n,
{
    plan_of_children(n.children)
}

pub open spec fn plan_of_children(cs: Seq<NodeModel>) -> Seq<RemoveActionModel>
    decreases cs,
{
    if cs.len() == 0 {
        Seq::empty()
    } else {
        (if cs[0].is_marked {
            seq![action_of(cs[0])]
        } else {
            plan_of(cs[0])
        }) + plan_of_children(cs.drop_first())
    }
}

/// `m` is a topmost marked node strictly below `root`: it is marked, and
/// every node on the descent from `root` to its parent is unmarked.
pub open spec fn plan_target(root: NodeModel, m: NodeModel) -> bool
    decreases root,
{
    plan_target_children(root.children, m)
}

pub open spec fn plan_target_children(cs: Seq<NodeModel>, m: NodeModel) -> bool
    decreases cs,
{
    cs.len() > 0 && ({
        if cs[0].is_marked {
            m == cs[0]
        } else {
            plan_target(cs[0], m)
        }
    } || plan_target_children(cs.drop_first(), m))
}

// ---------------------------------------------------------------------
// Bridging lemmas between the list recursions and indexed quantifiers.
// ---------------------------------------------------------------------

/// When none of the first `i` siblings lies on the way to `p`, lookup and
/// replacement both pass them by unchanged.
pub proof fn lemma_descent_from(cs: Seq<NodeModel>, p: Seq<Seq<u8>>, i: int)
    requires
        0 <= i <= cs.len(),
        forall|j: int| 0 <= j < i ==> !(#[trigger] cs[j]).path.is_prefix_of(p),
    ensures
        found_in_children(cs, p) == found_in_children(cs.skip(i), p),
        forall|m: NodeModel| #[trigger] replaced_at_children(cs, p, m) == cs.take(i)
            + replaced_at_children(cs.skip(i), p, m),
    decreases i,
{
    if i == 0 {
        assert(cs.skip(0) =~= cs);
        assert forall|m: NodeModel| #[trigger] replaced_at_children(cs, p, m) == cs.take(0)
            + replaced_at_children(cs.skip(0), p, m) by {
            assert(cs.take(0) + replaced_at_children(cs, p, m) =~= replaced_at_children(
                cs,
                p,
                m,
            ));
        }
    } else {
        lemma_descent_from(cs, p, i - 1);
        assert(cs.skip(i - 1)[0] == cs[i - 1]);
        assert(cs.skip(i - 1).drop_first() =~= cs.skip(i));
        assert forall|m: NodeModel| #[trigger] replaced_at_children(cs, p, m) == cs.take(i)
            + replaced_at_children(cs.skip(i), p, m) by {
            assert(replaced_at_children(cs.skip(i - 1), p, m) == seq![cs[i - 1]]
                + replaced_at_children(cs.skip(i), p, m));
            assert(cs.take(i - 1) + (seq![cs[i - 1]] + replaced_at_children(cs.skip(i), p, m))
                =~= cs.take(i) + replaced_at_children(cs.skip(i), p, m));
        }
    }
}

pub proof fn lemma_in_children_index(cs: Seq<NodeModel>, m: NodeModel)
    ensures
        in_children(cs, m) <==> exists|i: int|
            0 <= i < cs.len() && in_tree(#[trigger] cs[i], m),
    decreases cs.len(),
{
    if cs.len() > 0 {
        lemma_in_children_index(cs.drop_first(), m);
        if in_children(cs, m) {
            if in_tree(cs[0], m) {
                assert(in_tree(cs[0], m));
            } else {
                let i = choose|i: int|
                    0 <= i < cs.drop_first().len() && in_tree(#[trigger] cs.drop_first()[i], m);
                assert(cs.drop_first()[i] == cs[i + 1]);
                assert(in_tree(cs[i + 1], m));
            }
        }
        if exists|i: int| 0 <= i < cs.len() && in_tree(#[trigger] cs[i], m) {
            let i = choose|i: int| 0 <= i < cs.len() && in_tree(#[trigger] cs[i], m);
            if i > 0 {
                assert(cs.drop_first()[i - 1] == cs[i]);
            }
        }
    }
}

pub proof fn lemma_children_contain_path_index(cs: Seq<NodeModel>, p: Seq<Seq<u8>>)
    ensures
        children_contain_path(cs, p) <==> exists|i: int|
            0 <= i < cs.len() && contains_path(#[trigger] cs[i], p),
    decreases cs.len(),
{
    if cs.len() > 0 {
        lemma_children_contain_path_index(cs.drop_first(), p);
        if children_contain_path(cs, p) {
            if !contains_path(cs[0], p) {
                let i = choose|i: int|
                    0 <= i < cs.drop_first().len() && contains_path(
                        #[trigger] cs.drop_first()[i],
                        p,
                    );
                assert(cs.drop_first()[i] == cs[i + 1]);
                assert(contains_path(cs[i + 1], p));
            }
        }
        if exists|i: int| 0 <= i < cs.len() && contains_path(#[trigger] cs[i], p) {
            let i = choose|i: int| 0 <= i < cs.len() && contains_path(#[trigger] cs[i], p);
            if i > 0 {
                assert(cs.drop_first()[i - 1] == cs[i]);
            }
        }
    }
}

pub proof fn lemma_set_marked_all_index(cs: Seq<NodeModel>, v: bool)
    ensures
        set_marked_all(cs, v).len() == cs.len(),
        forall|i: int|
            0 <= i < cs.len() ==> #[trigger] set_marked_all(cs, v)[i] == set_marked(cs[i], v),
    decreases cs.len(),
{
    if cs.len() > 0 {
        lemma_set_marked_all_index(cs.drop_first(), v);
        assert forall|i: int| 0 <= i < cs.len() implies #[trigger] set_marked_all(cs, v)[i]
            == set_marked(cs[i], v) by {
            if i > 0 {
                assert(set_marked_all(cs, v)[i] == set_marked_all(cs.drop_first(), v)[i - 1]);
                assert(cs.drop_first()[i - 1] == cs[i]);
            }
        }
    }
}

// ---------------------------------------------------------------------
// Laws of marking.
// ---------------------------------------------------------------------

/// Marking rewrites only the marks: path, size, kind and the shape of the
/// tree stay as they were.
pub proof fn lemma_set_marked_shape(n: NodeModel, v: bool)
    ensures
        set_marked(n, v).path == n.path,
        set_marked(n, v).size == n.size,
        set_marked(n, v).is_directory == n.is_directory,
        set_marked(n, v).is_marked == v,
        set_marked(n, v).children.len() == n.children.len(),
{
    lemma_set_marked_all_index(n.children, v);
}

/// After `set_marked(n, v)`, every node of the subtree carries mark `v`,
/// whatever the marks were before.
pub proof fn lemma_set_marked_marks(n: NodeModel, v: bool, m: NodeModel)
    requires
        in_tree(set_marked(n, v), m),
    ensures
        m.is_marked == v,
    decreases n,
{
    if m == set_marked(n, v) {
    } else {
        lemma_in_children_index(set_marked(n, v).children, m);
        let i = choose|i: int|
            0 <= i < set_marked(n, v).children.len() && in_tree(
                #[trigger] set_marked(n, v).children[i],
                m,
            );
        lemma_set_marked_all_index(n.children, v);
        assert(set_marked(n, v).children[i] == set_marked(n.children[i], v));
        lemma_set_marked_marks(n.children[i], v, m);
    }
}

/// Marking is idempotent: writing the same mark twice is one write.
pub proof fn lemma_set_marked_idempotent(n: NodeModel, v: bool)
    ensures
        set_marked(set_marked(n, v), v) == set_marked(n, v),
    decreases n,
{
    let once = set_marked(n, v);
    lemma_set_marked_all_index(n.children, v);
    lemma_set_marked_all_index(once.children, v);
    assert forall|i: int| 0 <= i < n.children.len() implies #[trigger] set_marked_all(
        once.children,
        v,
    )[i] == once.children[i] by {
        lemma_set_marked_idempotent(n.children[i], v);
    }
    assert(set_marked_all(once.children, v) =~= once.children);
}

/// Marking keeps the tree well-formed.
pub proof fn lemma_set_marked_wf(n: NodeModel, v: bool)
    requires
        n.wf(),
    ensures
        set_marked(n, v).wf(),
    decreases n,
{
    lemma_set_marked_all_index(n.children, v);
    let r = set_marked(n, v);
    assert forall|i: int| 0 <= i < r.children.len() implies (#[trigger] r.children[i]).wf() by {
        lemma_set_marked_wf(n.children[i], v);
    }
    assert forall|i: int| 0 <= i < r.children.len() implies is_child_path(
        (#[trigger] r.children[i]).path,
        r.path,
    ) by {
        lemma_set_marked_shape(n.children[i], v);
    }
    assert forall|i: int, j: int| 0 <= i < j < r.children.len() implies (
    #[trigger] r.children[i]).path != (#[trigger] r.children[j]).path by {
        lemma_set_marked_shape(n.children[i], v);
        lemma_set_marked_shape(n.children[j], v);
    }
    assert forall|i: int, j: int| 0 <= i < j < r.children.len() implies node_le(
        #[trigger] r.children[i],
        #[trigger] r.children[j],
    ) by {
        lemma_set_marked_shape(n.children[i], v);
        lemma_set_marked_shape(n.children[j], v);
        assert(node_le(n.children[i], n.children[j]));
    }
    if r.is_directory {
        lemma_set_marked_sum(n.children, v);
    }
}

proof fn lemma_set_marked_sum(cs: Seq<NodeModel>, v: bool)
    ensures
        sum_sizes(set_marked_all(cs, v)) == sum_sizes(cs),
    decreases cs.len(),
{
    if cs.len() > 0 {
        lemma_set_marked_sum(cs.drop_first(), v);
        lemma_set_marked_all_index(cs, v);
        assert(set_marked_all(cs, v).drop_first() =~= set_marked_all(cs.drop_first(), v)) by {
            lemma_set_marked_all_index(cs.drop_first(), v);
            assert forall|i: int| 0 <= i < cs.len() - 1 implies set_marked_all(
                cs,
                v,
            ).drop_first()[i] == set_marked_all(cs.drop_first(), v)[i] by {
                assert(set_marked_all(cs, v)[i + 1] == set_marked(cs[i + 1], v));
                assert(cs.drop_first()[i] == cs[i + 1]);
            }
        }
    }
}

// ---------------------------------------------------------------------
// Laws of lookup by path.
// ---------------------------------------------------------------------

/// Every node of a well-formed tree lies below the root's path.
pub proof fn lemma_in_tree_prefix(root: NodeModel, m: NodeModel)
    requires
        root.wf(),
        in_tree(root, m),
    ensures
        root.path.is_prefix_of(m.path),
        m.path.len() >= root.path.len(),
        m != root ==> m.path.len() > root.path.len(),
        m.wf(),
    decreases root,
{
    if m == root {
        assert(root.path =~= m.path.subrange(0, root.path.len() as int));
    } else {
        lemma_in_children_index(root.children, m);
        let i = choose|i: int|
            0 <= i < root.children.len() && in_tree(#[trigger] root.children[i], m);
        lemma_in_tree_prefix(root.children[i], m);
        let c = root.children[i];
        assert(is_child_path(c.path, root.path));
        assert forall|k: int| 0 <= k < root.path.len() implies root.path[k] == m.path[k] by {
            assert(c.path[k] == root.path[k]);
            assert(c.path[k] == m.path[k]);
        }
        assert(root.path =~= m.path.subrange(0, root.path.len() as int));
    }
}

/// Sizes aggregate bottom-up: in a well-formed tree, every directory's
/// size is the sum of its direct children's sizes.
pub proof fn lemma_sizes_aggregate(root: NodeModel, d: NodeModel)
    requires
        root.wf(),
        in_tree(root, d),
        d.is_directory,
    ensures
        d.size as int == sum_sizes(d.children),
{
    lemma_in_tree_prefix(root, d);
}

/// Every node of a well-formed tree keeps its children sorted: directories
/// before files, each group in ascending path order.
pub proof fn lemma_children_stay_sorted(root: NodeModel, d: NodeModel)
    requires
        root.wf(),
        in_tree(root, d),
    ensures
        children_sorted(d.children),
{
    lemma_in_tree_prefix(root, d);
}

/// A path is found in a well-formed tree exactly when a node carries it,
/// and the node found carries the path it was looked up by.
pub proof fn lemma_found_correct(root: NodeModel, p: Seq<Seq<u8>>)
    requires
        root.wf(),
    ensures
        match found_at(root, p) {
            Some(m) => in_tree(root, m) && m.path == p && m.wf(),
            None => !contains_path(root, p),
        },
    decreases root,
{
    if root.path == p {
    } else {
        assert(root.children =~= root.children.subrange(0, root.children.len() as int));
        lemma_found_in_children_correct(root, root.children, 0, p);
        if found_at(root, p) is None {
            lemma_children_contain_path_index(root.children, p);
        }
    }
}

proof fn lemma_found_in_children_correct(
    root: NodeModel,
    cs: Seq<NodeModel>,
    off: int,
    p: Seq<Seq<u8>>,
)
    requires
        root.wf(),
        root.path != p,
        0 <= off <= root.children.len(),
        cs == root.children.subrange(off, root.children.len() as int),
    ensures
        match found_in_children(cs, p) {
            Some(m) => in_children(cs, m) && m.path == p && m.wf(),
            None => !children_contain_path(cs, p),
        },
    decreases cs,
{
    if cs.len() > 0 {
        assert(cs[0] == root.children[off]);
        assert(cs.drop_first() =~= root.children.subrange(off + 1, root.children.len() as int));
        lemma_found_in_children_correct(root, cs.drop_first(), off + 1, p);
        let c = cs[0];
        assert(c.wf());
        if c.path.is_prefix_of(p) {
            lemma_found_correct(c, p);
            match found_at(c, p) {
                Some(m) => {
                    assert(in_tree(c, m));
                    assert(in_children(cs, m));
                },
                None => {
                    // nothing below c carries p, and no later sibling can:
                    // a later sibling containing p would also have its path
                    // as a prefix of p, of the same length as c's, hence
                    // equal to c's, against sibling distinctness.
                    assert(!contains_path(c, p));
                    if children_contain_path(cs.drop_first(), p) {
                        lemma_children_contain_path_index(cs.drop_first(), p);
                        let j = choose|j: int|
                            0 <= j < cs.drop_first().len() && contains_path(
                                #[trigger] cs.drop_first()[j],
                                p,
                            );
                        let d = cs.drop_first()[j];
                        assert(d == root.children[off + 1 + j]);
                        lemma_contains_node(d, p);
                        let m = choose|m: NodeModel| in_tree(d, m) && m.path == p;
                        lemma_in_tree_prefix(d, m);
                        assert(is_child_path(c.path, root.path));
                        assert(is_child_path(d.path, root.path));
                        assert(c.path =~= p.subrange(0, c.path.len() as int));
                        assert(d.path =~= p.subrange(0, d.path.len() as int));
                        assert(c.path == d.path);
                    }
                },
            }
        } else {
            if contains_path(c, p) {
                lemma_contains_node(c, p);
                let m = choose|m: NodeModel| in_tree(c, m) && m.path == p;
                lemma_in_tree_prefix(c, m);
            }
        }
    }
}

/// A tree contains a path exactly when one of its nodes carries it.
pub proof fn lemma_contains_node(root: NodeModel, p: Seq<Seq<u8>>)
    requires
        contains_path(root, p),
    ensures
        exists|m: NodeModel| in_tree(root, m) && m.path == p,
    decreases root,
{
    if root.path == p {
        assert(in_tree(root, root) && root.path == p);
    } else {
        lemma_children_contain_path_index(root.children, p);
        let i = choose|i: int|
            0 <= i < root.children.len() && contains_path(#[trigger] root.children[i], p);
        lemma_contains_node(root.children[i], p);
        let m = choose|m: NodeModel| in_tree(root.children[i], m) && m.path == p;
        lemma_in_children_index(root.children, m);
        assert(in_tree(root, m));
    }
}

/// Lookup is unique: in a well-formed tree, descent by path prefix reaches
/// exactly the one node whose path equals the one looked up.
pub proof fn lemma_found_unique(root: NodeModel, m: NodeModel)
    requires
        root.wf(),
        in_tree(root, m),
    ensures
        found_at(root, m.path) == Some(m),
    decreases root,
{
    if m == root {
    } else {
        lemma_in_children_index(root.children, m);
        let i = choose|i: int|
            0 <= i < root.children.len() && in_tree(#[trigger] root.children[i], m);
        let c = root.children[i];
        lemma_in_tree_prefix(c, m);
        if root.path == m.path {
            assert(is_child_path(c.path, root.path));
            assert(m.path.len() >= c.path.len());
            assert(false);
        }
        lemma_found_unique(c, m);
        assert(root.children =~= root.children.subrange(0, root.children.len() as int));
        lemma_found_in_children_picks(root, root.children, 0, i, m);
    }
}

proof fn lemma_found_in_children_picks(
    root: NodeModel,
    cs: Seq<NodeModel>,
    off: int,
    i: int,
    m: NodeModel,
)
    requires
        root.wf(),
        0 <= off <= root.children.len(),
        cs == root.children.subrange(off, root.children.len() as int),
        off <= i < root.children.len(),
        in_tree(root.children[i], m),
        found_at(root.children[i], m.path) == Some(m),
    ensures
        found_in_children(cs, m.path) == Some(m),
    decreases cs.len(),
{
    let p = m.path;
    let c = root.children[i];
    lemma_in_tree_prefix(c, m);
    assert(c.path =~= p.subrange(0, c.path.len() as int));
    assert(cs.len() > 0) by {
        assert(cs.len() == root.children.len() - off);
    }
    assert(cs[0] == root.children[off]);
    if off == i {
        assert(cs[0].path.is_prefix_of(p));
    } else {
        // the first sibling inspected is not a prefix of p, or it would
        // share c's path against distinctness
        if cs[0].path.is_prefix_of(p) {
            assert(is_child_path(cs[0].path, root.path));
            assert(is_child_path(c.path, root.path));
            assert(cs[0].path =~= p.subrange(0, cs[0].path.len() as int));
            assert(cs[0].path == c.path);
            assert(false);
        }
        assert(cs.drop_first() =~= root.children.subrange(off + 1, root.children.len() as int));
        lemma_found_in_children_picks(root, cs.drop_first(), off + 1, i, m);
    }
}

// ---------------------------------------------------------------------
// Laws of the removal plan.
// ---------------------------------------------------------------------

/// The removal plan names exactly the topmost marked entries below the
/// node: every planned action comes from such an entry, and every such
/// entry is planned. Unmarked entries are never planned.
pub proof fn lemma_plan_exact(n: NodeModel, a: RemoveActionModel)
    ensures
        plan_of(n).contains(a) <==> exists|m: NodeModel| plan_target(n, m) && a == action_of(m),
    decreases n,
{
    lemma_plan_children_exact(n.children, a);
}

proof fn lemma_plan_children_exact(cs: Seq<NodeModel>, a: RemoveActionModel)
    ensures
        plan_of_children(cs).contains(a) <==> exists|m: NodeModel|
            plan_target_children(cs, m) && a == action_of(m),
    decreases cs,
{
    if cs.len() > 0 {
        lemma_plan_children_exact(cs.drop_first(), a);
        let head = if cs[0].is_marked {
            seq![action_of(cs[0])]
        } else {
            plan_of(cs[0])
        };
        let tail = plan_of_children(cs.drop_first());
        assert(plan_of_children(cs) == head + tail);
        if !cs[0].is_marked {
            lemma_plan_exact(cs[0], a);
        }
        if plan_of_children(cs).contains(a) {
            let k = choose|k: int| 0 <= k < (head + tail).len() && (head + tail)[k] == a;
            if k < head.len() {
                assert(head[k] == a);
                if cs[0].is_marked {
                    assert(plan_target_children(cs, cs[0]) && a == action_of(cs[0]));
                } else {
                    assert(head.contains(a));
                    let m = choose|m: NodeModel| plan_target(cs[0], m) && a == action_of(m);
                    assert(plan_target_children(cs, m));
                }
            } else {
                assert(tail[k - head.len()] == a);
                assert(tail.contains(a));
                let m = choose|m: NodeModel|
                    plan_target_children(cs.drop_first(), m) && a == action_of(m);
                assert(plan_target_children(cs, m));
            }
        }
        if exists|m: NodeModel| plan_target_children(cs, m) && a == action_of(m) {
            let m = choose|m: NodeModel| plan_target_children(cs, m) && a == action_of(m);
            if cs[0].is_marked && m == cs[0] {
                assert((head + tail)[0] == a);
                assert(plan_of_children(cs).contains(a));
            } else if !cs[0].is_marked && plan_target(cs[0], m) {
                assert(head.contains(a));
                let k = choose|k: int| 0 <= k < head.len() && head[k] == a;
                assert((head + tail)[k] == a);
                assert(plan_of_children(cs).contains(a));
            } else {
                assert(plan_target_children(cs.drop_first(), m));
                assert(tail.contains(a));
                let k = choose|k: int| 0 <= k < tail.len() && tail[k] == a;
                assert((head + tail)[head.len() + k] == a);
                assert(plan_of_children(cs).contains(a));
            }
        }
    }
}

/// A planned entry is marked; an unmarked node is never planned.
pub proof fn lemma_plan_targets_marked(n: NodeModel, m: NodeModel)
    requires
        plan_target(n, m),
    ensures
        m.is_marked,
    decreases n,
{
    lemma_plan_targets_children_marked(n.children, m);
}

proof fn lemma_plan_targets_children_marked(cs: Seq<NodeModel>, m: NodeModel)
    requires
        plan_target_children(cs, m),
    ensures
        m.is_marked,
    decreases cs,
{
    if cs[0].is_marked && m == cs[0] {
    } else if !cs[0].is_marked && plan_target(cs[0], m) {
        lemma_plan_targets_marked(cs[0], m);
    } else {
        lemma_plan_targets_children_marked(cs.drop_first(), m);
    }
}

} // verus!
