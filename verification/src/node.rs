//! The executable tree: nodes with aggregate sizes, marking, path lookup,
//! and the removal plan for the marked entries.

use vstd::prelude::*;
use crate::fspath::FsPath;
use crate::model::{
    NodeModel, RemoveActionModel, set_marked, set_marked_all, marked_at, marked_at_children,
    replaced_at, replaced_at_children, found_at, found_in_children, plan_of, plan_of_children,
    action_of, lemma_set_marked_all_index, lemma_descent_from,
};

verus! {

/// A byte count.
#[derive(Clone, Copy, PartialEq, Eq, Structural)]
pub struct FileSize {
    pub bytes: u64,
}

/// The scale a byte count is shown at: the count shifted down to its unit,
/// and the unit's letter, a space when the count is small enough to show
/// as it is.
pub open spec fn spec_scaled(v: u64) -> (u64, char) {
    if v > (1u64 << 50) {
        ((v >> 50) as u64, 'E')
    } else if v > (1u64 << 40) {
        ((v >> 40) as u64, 'T')
    } else if v > (1u64 << 30) {
        ((v >> 30) as u64, 'G')
    } else if v > (1u64 << 20) {
        ((v >> 20) as u64, 'M')
    } else if v > (1u64 << 10) {
        ((v >> 10) as u64, 'K')
    } else {
        (v, ' ')
    }
}

impl FileSize {
    /// The value and unit letter a human-readable rendering shows.
    pub fn scaled(&self) -> (r: (u64, char))
        ensures
            r == spec_scaled(self.bytes),
    {
        if self.bytes > (1u64 << 50) {
            (self.bytes >> 50, 'E')
        } else if self.bytes > (1u64 << 40) {
            (self.bytes >> 40, 'T')
        } else if self.bytes > (1u64 << 30) {
            (self.bytes >> 30, 'G')
        } else if self.bytes > (1u64 << 20) {
            (self.bytes >> 20, 'M')
        } else if self.bytes > (1u64 << 10) {
            (self.bytes >> 10, 'K')
        } else {
            (self.bytes, ' ')
        }
    }
}

/// One filesystem entry in the in-memory tree.
pub struct Node {
    /// Aggregate size: a file's own length, the children's total for a
    /// directory.
    pub size: FileSize,
    /// Absolute path; the node's identifier within the tree.
    pub path: FsPath,
    /// Ordered children, directories first, each group sorted by path.
    pub children: Vec<Node>,
    pub is_directory: bool,
    /// Staged for deletion.
    pub is_marked: bool,
}

/// One pending filesystem removal, as the surrounding program performs it:
/// a recursive directory removal or a single file removal.
pub struct RemoveAction {
    pub path: FsPath,
    pub is_directory: bool,
}

impl View for RemoveAction {
    type V = RemoveActionModel;

    open spec fn view(&self) -> RemoveActionModel {
        RemoveActionModel { path: self.path@, is_directory: self.is_directory }
    }
}

pub open spec fn node_model(n: Node) -> NodeModel
    decreases n,
{
    NodeModel {
        size: n.size.bytes,
        path: n.path@,
        children: children_model(n.children@),
        is_directory: n.is_directory,
        is_marked: n.is_marked,
    }
}

pub open spec fn children_model(s: Seq<Node>) -> Seq<NodeModel>
    decreases s,
{
    if s.len() == 0 {
        Seq::empty()
    } else {
        seq![node_model(s[0])] + children_model(s.drop_first())
    }
}

impl View for Node {
    type V = NodeModel;

    open spec fn view(&self) -> NodeModel {
        node_model(*self)
    }
}

pub proof fn lemma_children_model(s: Seq<Node>)
    ensures
        children_model(s).len() == s.len(),
        forall|i: int| 0 <= i < s.len() ==> #[trigger] children_model(s)[i] == node_model(s[i]),
    decreases s.len(),
{
    if s.len() > 0 {
        lemma_children_model(s.drop_first());
        assert forall|i: int| 0 <= i < s.len() implies #[trigger] children_model(s)[i]
            == node_model(s[i]) by {
            if i > 0 {
                assert(children_model(s)[i] == children_model(s.drop_first())[i - 1]);
                assert(s.drop_first()[i - 1] == s[i]);
            }
        }
    }
}

pub broadcast proof fn lemma_children_model_len(s: Seq<Node>)
    ensures
        #[trigger] children_model(s).len() == s.len(),
    decreases s.len(),
{
    if s.len() > 0 {
        lemma_children_model_len(s.drop_first());
    }
}

pub broadcast proof fn lemma_children_model_index(s: Seq<Node>, i: int)
    requires
        0 <= i < s.len(),
    ensures
        #[trigger] children_model(s)[i] == node_model(s[i]),
    decreases s.len(),
{
    if i > 0 {
        lemma_children_model_len(s.drop_first());
        lemma_children_model_index(s.drop_first(), i - 1);
        assert(children_model(s)[i] == children_model(s.drop_first())[i - 1]);
        assert(s.drop_first()[i - 1] == s[i]);
    }
}

pub open spec fn actions_model(s: Seq<RemoveAction>) -> Seq<RemoveActionModel> {
    Seq::new(s.len(), |i: int| s[i]@)
}

fn vec_index_mut(v: &mut Vec<Node>, i: usize) -> (element: &mut Node)
    requires
        i < old(v).len(),
    ensures
        *element == old(v)@[i as int],
        final(v)@ == old(v)@.update(i as int, *final(element)),
{
    &mut v[i]
}

impl Node {
    /// A fresh leaf or empty directory: the given size, path and kind, no
    /// children, not marked.
    pub fn new(size: FileSize, path: FsPath, is_directory: bool) -> (n: Node)
        ensures
            n@ == (NodeModel {
                size: size.bytes,
                path: path@,
                children: Seq::<NodeModel>::empty(),
                is_directory,
                is_marked: false,
            }),
    {
        let n = Node { size, path, children: Vec::new(), is_directory, is_marked: false };
        proof {
            assert(n.children@.len() == 0);
        }
        n
    }

    /// Writes `value` into the mark of this node and of every descendant,
    /// whatever the marks were before.
    pub fn mark(&mut self, value: bool)
        ensures
            final(self)@ == set_marked(old(self)@, value),
        decreases *old(self),
    {
        self.is_marked = value;
        let n = self.children.len();
        let mut i: usize = 0;
        while i < n
            invariant
                0 <= i <= n,
                n == self.children.len(),
                self.children@.len() == old(self).children@.len(),
                self.size == old(self).size,
                self.path == old(self).path,
                self.is_directory == old(self).is_directory,
                self.is_marked == value,
                forall|j: int| i <= j < n ==> self.children@[j] == old(self).children@[j],
                forall|j: int|
                    0 <= j < i ==> node_model(#[trigger] self.children@[j]) == set_marked(
                        node_model(old(self).children@[j]),
                        value,
                    ),
            decreases n - i,
        {
            let ghost prev = self.children@;
            let mut c = self.children.remove(i);
            proof {
                assert(c == old(self).children@[i as int]);
                assert(decreases_to!(*old(self) => old(self).children));
                assert(decreases_to!(old(self).children => old(self).children@));
                assert(decreases_to!(old(self).children@ => old(self).children@[i as int]));
            }
            c.mark(value);
            self.children.insert(i, c);
            proof {
                assert forall|j: int| 0 <= j < n && j != i implies self.children@[j] == prev[j] by {
                    if j < i {
                        assert(self.children@[j] == prev.remove(i as int)[j]);
                    } else {
                        assert(self.children@[j] == prev.remove(i as int)[j - 1]);
                    }
                }
            }
            i += 1;
        }
        proof {
            lemma_children_model(self.children@);
            lemma_children_model(old(self).children@);
            lemma_set_marked_all_index(children_model(old(self).children@), value);
            assert(children_model(self.children@) =~= set_marked_all(
                children_model(old(self).children@),
                value,
            ));
            assert(node_model(*self) =~= set_marked(node_model(*old(self)), value));
        }
    }

    /// Looks the node with path `path` up, descending into the child whose
    /// path lies on the way. The node returned is exactly the one the
    /// model-level descent names.
    pub fn find_node<'a>(&'a self, path: &FsPath) -> (r: Option<&'a Node>)
        ensures
            match r {
                Some(node) => found_at(self@, path@) == Some(node@),
                None => found_at(self@, path@) is None,
            },
        decreases *self,
    {
        if self.path.path_eq(path) {
            return Some(self);
        }
        let ghost cm = children_model(self.children@);
        proof {
            lemma_children_model(self.children@);
            assert(cm.skip(0) =~= cm);
        }
        let n = self.children.len();
        let mut i: usize = 0;
        while i < n
            invariant
                0 <= i <= n,
                n == self.children.len(),
                cm == children_model(self.children@),
                cm.len() == n,
                self@.path != path@,
                found_in_children(cm, path@) == found_in_children(cm.skip(i as int), path@),
                forall|j: int| 0 <= j < n ==> #[trigger] cm[j] == node_model(self.children@[j]),
            decreases n - i,
        {
            let c = &self.children[i];
            proof {
                assert(cm.skip(i as int)[0] == cm[i as int]);
            }
            if path.starts_with(&c.path) {
                proof {
                    assert(decreases_to!(*self => self.children));
                    assert(decreases_to!(self.children => self.children@));
                    assert(decreases_to!(self.children@ => self.children@[i as int]));
                }
                let r = c.find_node(path);
                proof {
                    assert(found_in_children(cm.skip(i as int), path@) == found_at(
                        cm[i as int],
                        path@,
                    ));
                }
                return r;
            }
            proof {
                assert(cm.skip(i as int).drop_first() =~= cm.skip(i + 1));
            }
            i += 1;
        }
        proof {
            assert(cm.skip(n as int).len() == 0);
        }
        None
    }

    /// Looks the node with path `path` up for writing. The node handed
    /// back is exactly the one the model-level descent names, and once the
    /// caller is done with it the tree is the old tree with that one node
    /// replaced by whatever the caller left.
    pub fn find_node_mut<'a>(&'a mut self, path: &FsPath) -> (r: Option<&'a mut Node>)
        ensures
            match r {
                Some(m) => {
                    &&& found_at(old(self)@, path@) == Some((*m)@)
                    &&& (*final(self))@ =~~= replaced_at(old(self)@, path@, (*final(m))@)
                },
                None => {
                    &&& found_at(old(self)@, path@) is None
                    &&& (*final(self))@ =~~= old(self)@
                },
            },
        decreases *old(self), 1int, 0int,
    {
        broadcast use lemma_children_model_len, lemma_children_model_index;

        if self.path.path_eq(path) {
            return Some(self);
        }
        self.find_in_children_mut(path, 0)
    }

    fn find_in_children_mut<'a>(&'a mut self, path: &FsPath, i: usize) -> (r: Option<
        &'a mut Node,
    >)
        requires
            old(self)@.path != path@,
            i <= old(self).children@.len(),
            forall|j: int|
                0 <= j < i ==> !(#[trigger] children_model(old(self).children@)[j]).path.is_prefix_of(
                    path@,
                ),
        ensures
            match r {
                Some(m) => {
                    &&& found_at(old(self)@, path@) == Some((*m)@)
                    &&& children_model((*final(self)).children@) == replaced_at_children(
                        children_model(old(self).children@),
                        path@,
                        (*final(m))@,
                    )
                },
                None => {
                    &&& found_at(old(self)@, path@) is None
                    &&& children_model((*final(self)).children@) == children_model(
                        old(self).children@,
                    )
                },
            },
            (*final(self)).path == old(self).path,
            (*final(self)).size == old(self).size,
            (*final(self)).is_directory == old(self).is_directory,
            (*final(self)).is_marked == old(self).is_marked,
        decreases *old(self), 0int, old(self).children@.len() - i,
    {
        broadcast use lemma_children_model_len, lemma_children_model_index;

        let ghost cm = children_model(old(self).children@);
        proof {
            lemma_descent_from(cm, path@, i as int);
        }
        let n = self.children.len();
        if i == n {
            proof {
                assert(cm.skip(n as int).len() == 0);
            }
            return None;
        }
        let hit = path.starts_with(&self.children[i].path);
        if hit {
            proof {
                assert(cm.skip(i as int)[0] == cm[i as int]);
                assert(found_in_children(cm.skip(i as int), path@) == found_at(
                    cm[i as int],
                    path@,
                ));
                assert(decreases_to!(*old(self) => old(self).children));
                assert(decreases_to!(old(self).children => old(self).children@));
                assert(decreases_to!(old(self).children@ => old(self).children@[i as int]));
                assert forall|xc: Node, fm: NodeModel|
                    #![trigger children_model(old(self).children@.update(i as int, xc)), replaced_at(cm[i as int], path@, fm)]
                    node_model(xc) == replaced_at(cm[i as int], path@, fm) implies children_model(
                    old(self).children@.update(i as int, xc),
                ) == replaced_at_children(cm, path@, fm) by {
                    assert(replaced_at_children(cm.skip(i as int), path@, fm) == seq![
                        replaced_at(cm[i as int], path@, fm),
                    ] + cm.skip(i + 1));
                    assert(replaced_at_children(cm, path@, fm) == cm.take(i as int) + (seq![
                        replaced_at(cm[i as int], path@, fm),
                    ] + cm.skip(i + 1)));
                    let upd = old(self).children@.update(i as int, xc);
                    assert forall|q: int| 0 <= q < cm.len() implies children_model(upd)[q]
                        == replaced_at_children(cm, path@, fm)[q] by {
                        assert(children_model(upd)[q] == node_model(upd[q]));
                        if q < i {
                            assert(upd[q] == old(self).children@[q]);
                            assert(replaced_at_children(cm, path@, fm)[q] == cm.take(
                                i as int,
                            )[q]);
                        } else if q > i {
                            assert(upd[q] == old(self).children@[q]);
                            assert(replaced_at_children(cm, path@, fm)[q] == cm.skip(i + 1)[q - i
                                - 1]);
                        }
                    }
                    assert(children_model(upd) =~= replaced_at_children(cm, path@, fm));
                }
                assert forall|xc: Node|
                    #![trigger children_model(old(self).children@.update(i as int, xc))]
                    node_model(xc) == cm[i as int] implies children_model(
                    old(self).children@.update(i as int, xc),
                ) == cm by {
                    let upd = old(self).children@.update(i as int, xc);
                    assert forall|q: int| 0 <= q < cm.len() implies children_model(upd)[q]
                        == cm[q] by {
                        assert(children_model(upd)[q] == node_model(upd[q]));
                        if q != i {
                            assert(upd[q] == old(self).children@[q]);
                        }
                    }
                    assert(children_model(upd) =~= cm);
                }
            }
            let c = vec_index_mut(&mut self.children, i);
            c.find_node_mut(path)
        } else {
            proof {
                assert(cm.skip(i as int)[0] == cm[i as int]);
                assert(!cm[i as int].path.is_prefix_of(path@));
            }
            self.find_in_children_mut(path, i + 1)
        }
    }

    /// Writes `value` into the mark of the node at `path` and of its whole
    /// subtree, and reports whether such a node was found; the tree is
    /// unchanged when it was not.
    pub fn mark_at(&mut self, path: &FsPath, value: bool) -> (r: bool)
        ensures
            final(self)@ == marked_at(old(self)@, path@, value),
            r == (found_at(old(self)@, path@) is Some),
        decreases *old(self),
    {
        if self.path.path_eq(path) {
            self.mark(value);
            return true;
        }
        let ghost cm = children_model(old(self).children@);
        proof {
            lemma_children_model(old(self).children@);
            assert(cm.skip(0) =~= cm);
            assert(cm.take(0) =~= Seq::<NodeModel>::empty());
        }
        let n = self.children.len();
        let mut i: usize = 0;
        while i < n
            invariant
                0 <= i <= n,
                n == self.children.len(),
                *self == *old(self),
                cm == children_model(self.children@),
                cm.len() == n,
                self@.path != path@,
                found_in_children(cm, path@) == found_in_children(cm.skip(i as int), path@),
                marked_at_children(cm, path@, value) == cm.take(i as int) + marked_at_children(
                    cm.skip(i as int),
                    path@,
                    value,
                ),
                forall|j: int| 0 <= j < n ==> #[trigger] cm[j] == node_model(self.children@[j]),
            decreases n - i,
        {
            proof {
                assert(cm.skip(i as int)[0] == cm[i as int]);
            }
            let hit = path.starts_with(&self.children[i].path);
            if hit {
                let ghost prev = self.children@;
                let mut c = self.children.remove(i);
                proof {
                    assert(c == old(self).children@[i as int]);
                    assert(decreases_to!(*old(self) => old(self).children));
                    assert(decreases_to!(old(self).children => old(self).children@));
                    assert(decreases_to!(old(self).children@ => old(self).children@[i as int]));
                }
                let found = c.mark_at(path, value);
                self.children.insert(i, c);
                proof {
                    assert forall|j: int| 0 <= j < n && j != i implies self.children@[j]
                        == prev[j] by {
                        if j < i {
                            assert(self.children@[j] == prev.remove(i as int)[j]);
                        } else {
                            assert(self.children@[j] == prev.remove(i as int)[j - 1]);
                        }
                    }
                    lemma_children_model(self.children@);
                    assert(node_model(self.children@[i as int]) == marked_at(
                        cm[i as int],
                        path@,
                        value,
                    ));
                    assert(marked_at_children(cm.skip(i as int), path@, value) == seq![
                        marked_at(cm[i as int], path@, value),
                    ] + cm.skip(i + 1));
                    assert(children_model(self.children@) =~= cm.take(i as int) + (seq![
                        marked_at(cm[i as int], path@, value),
                    ] + cm.skip(i + 1)));
                    assert(children_model(self.children@) == marked_at_children(
                        cm,
                        path@,
                        value,
                    ));
                    assert(node_model(*self) =~= marked_at(node_model(*old(self)), path@, value));
                    assert(found_in_children(cm.skip(i as int), path@) == found_at(
                        cm[i as int],
                        path@,
                    ));
                }
                return found;
            }
            proof {
                assert(cm.skip(i as int).drop_first() =~= cm.skip(i + 1));
                assert(marked_at_children(cm.skip(i as int), path@, value) == seq![cm[i as int]]
                    + marked_at_children(cm.skip(i + 1), path@, value));
                assert(cm.take(i as int) + (seq![cm[i as int]] + marked_at_children(
                    cm.skip(i + 1),
                    path@,
                    value,
                )) =~= cm.take(i + 1) + marked_at_children(cm.skip(i + 1), path@, value));
            }
            i += 1;
        }
        proof {
            assert(cm.skip(n as int).len() == 0);
            assert(marked_at_children(cm, path@, value) =~= cm.take(n as int));
            assert(cm.take(n as int) =~= cm);
            assert(node_model(*self) =~= marked_at(node_model(*old(self)), path@, value));
        }
        false
    }

    /// The batch of filesystem removals that committing the marks calls
    /// for: for each child in order, the child itself when it is marked —
    /// a recursive directory removal or a single file removal — else the
    /// plan of its subtree. The caller performs the removals; a failed one
    /// is reported there and must not stop the rest, and the tree is not
    /// re-synchronized afterwards.
    pub fn delete_marked(&self) -> (plan: Vec<RemoveAction>)
        ensures
            actions_model(plan@) == plan_of(self@),
    {
        let mut plan: Vec<RemoveAction> = Vec::new();
        proof {
            assert(actions_model(plan@) =~= Seq::<RemoveActionModel>::empty());
        }
        self.append_plan(&mut plan);
        proof {
            assert(Seq::<RemoveActionModel>::empty() + plan_of(self@) =~= plan_of(self@));
        }
        plan
    }

    fn append_plan(&self, plan: &mut Vec<RemoveAction>)
        ensures
            actions_model(final(plan)@) == actions_model(old(plan)@) + plan_of(self@),
        decreases *self,
    {
        let ghost cm = children_model(self.children@);
        let ghost base = actions_model(plan@);
        proof {
            lemma_children_model(self.children@);
            assert(cm.skip(0) =~= cm);
            assert(base + plan_of_children(cm) =~= base + plan_of(self@));
        }
        let n = self.children.len();
        let mut i: usize = 0;
        while i < n
            invariant
                0 <= i <= n,
                n == self.children.len(),
                cm == children_model(self.children@),
                cm.len() == n,
                base == actions_model(old(plan)@),
                actions_model(plan@) + plan_of_children(cm.skip(i as int)) == base
                    + plan_of_children(cm),
                forall|j: int| 0 <= j < n ==> #[trigger] cm[j] == node_model(self.children@[j]),
            decreases n - i,
        {
            let c = &self.children[i];
            proof {
                assert(cm.skip(i as int)[0] == cm[i as int]);
                assert(cm.skip(i as int).drop_first() =~= cm.skip(i + 1));
            }
            let ghost before = actions_model(plan@);
            if c.is_marked {
                let action = RemoveAction { path: c.path.clone(), is_directory: c.is_directory };
                proof {
                    assert(action@ == action_of(cm[i as int]));
                }
                plan.push(action);
                proof {
                    assert(actions_model(plan@) =~= before.push(action_of(cm[i as int])));
                    assert(plan_of_children(cm.skip(i as int)) == seq![action_of(cm[i as int])]
                        + plan_of_children(cm.skip(i + 1)));
                    assert(before.push(action_of(cm[i as int])) + plan_of_children(cm.skip(i + 1))
                        =~= before + plan_of_children(cm.skip(i as int)));
                }
            } else {
                proof {
                    assert(decreases_to!(*self => self.children));
                    assert(decreases_to!(self.children => self.children@));
                    assert(decreases_to!(self.children@ => self.children@[i as int]));
                }
                c.append_plan(plan);
                proof {
                    assert(plan_of_children(cm.skip(i as int)) == plan_of(cm[i as int])
                        + plan_of_children(cm.skip(i + 1)));
                    assert((before + plan_of(cm[i as int])) + plan_of_children(cm.skip(i + 1))
                        =~= before + plan_of_children(cm.skip(i as int)));
                }
            }
            i += 1;
        }
        proof {
            assert(cm.skip(n as int).len() == 0);
            assert(actions_model(plan@) + plan_of_children(cm.skip(n as int)) =~= actions_model(
                plan@,
            ));
        }
    }
}

} // verus!
