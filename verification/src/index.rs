//! Building one directory node from the outcomes of a directory scan.
//!
//! The surrounding program walks the filesystem; for every directory it
//! lists, it hands this module the per-entry outcomes in the order they
//! came — a file with its length, a fully indexed subdirectory, an entry
//! whose metadata was unreadable, a child directory whose scan failed, or
//! the failure of the listing itself. `build_dir_node` turns them into a
//! directory node: failed entries are skipped and contribute nothing, a
//! listing failure keeps the entries read so far, the children end up
//! sorted directories-first then by path, and the directory's size is
//! exactly the sum of its children's sizes.

use vstd::prelude::*;
use vstd::multiset::Multiset;
use crate::fspath::{FsPath, is_child_path, is_special_path};
use crate::model::{
    NodeModel, node_le, children_sorted, sum_sizes, lemma_node_le_total, lemma_node_le_trans,
};
use crate::node::{Node, FileSize, node_model, children_model, lemma_children_model};

verus! {

broadcast use vstd::seq_lib::group_to_multiset_ensures;

/// What the walk observed for one directory entry, in listing order.
pub enum ScanEntry {
    /// A regular file, with its path and byte length.
    File { path: FsPath, size: u64 },
    /// A subdirectory whose subtree was indexed.
    Subdir { node: Node },
    /// An entry whose metadata could not be read; it is skipped.
    MetaFailure,
    /// A child directory whose scan failed; its whole subtree is omitted.
    SubtreeFailure,
    /// The directory listing itself failed here; no later entries exist.
    EnumFailure,
}

/// Spec-level image of one scan outcome.
pub enum ScanEntryModel {
    File { path: Seq<Seq<u8>>, size: u64 },
    Subdir { node: NodeModel },
    MetaFailure,
    SubtreeFailure,
    EnumFailure,
}

pub open spec fn entry_model(e: ScanEntry) -> ScanEntryModel {
    match e {
        ScanEntry::File { path, size } => ScanEntryModel::File { path: path@, size },
        ScanEntry::Subdir { node } => ScanEntryModel::Subdir { node: node_model(node) },
        ScanEntry::MetaFailure => ScanEntryModel::MetaFailure,
        ScanEntry::SubtreeFailure => ScanEntryModel::SubtreeFailure,
        ScanEntry::EnumFailure => ScanEntryModel::EnumFailure,
    }
}

impl View for ScanEntry {
    type V = ScanEntryModel;

    open spec fn view(&self) -> ScanEntryModel {
        entry_model(*self)
    }
}

pub open spec fn entries_models(s: Seq<ScanEntry>) -> Seq<ScanEntryModel> {
    Seq::new(s.len(), |i: int| entry_model(s[i]))
}

/// The node a file entry becomes.
pub open spec fn leaf_model(path: Seq<Seq<u8>>, size: u64) -> NodeModel {
    NodeModel { size, path, children: Seq::empty(), is_directory: false, is_marked: false }
}

/// The children that a run of scan outcomes keeps: files and indexed
/// subdirectories up to the first listing failure; failed entries are
/// dropped.
pub open spec fn kept_nodes(es: Seq<ScanEntryModel>) -> Seq<NodeModel>
    decreases es.len(),
{
    if es.len() == 0 {
        Seq::empty()
    } else {
        match es[0] {
            ScanEntryModel::File { path, size } => seq![leaf_model(path, size)] + kept_nodes(
                es.drop_first(),
            ),
            ScanEntryModel::Subdir { node } => seq![node] + kept_nodes(es.drop_first()),
            ScanEntryModel::MetaFailure => kept_nodes(es.drop_first()),
            ScanEntryModel::SubtreeFailure => kept_nodes(es.drop_first()),
            ScanEntryModel::EnumFailure => Seq::empty(),
        }
    }
}

/// The scan outcomes describe real children of the directory at `p`: each
/// kept node is a well-formed tree, lies one component below `p`, and no
/// two share a path.
pub open spec fn nodes_ok(p: Seq<Seq<u8>>, ns: Seq<NodeModel>) -> bool {
    &&& (forall|i: int| 0 <= i < ns.len() ==> (#[trigger] ns[i]).wf())
    &&& (forall|i: int| 0 <= i < ns.len() ==> is_child_path((#[trigger] ns[i]).path, p))
    &&& (forall|i: int, j: int|
        0 <= i < j < ns.len() ==> (#[trigger] ns[i]).path != (#[trigger] ns[j]).path)
}

proof fn lemma_sum_nonneg(cs: Seq<NodeModel>)
    ensures
        sum_sizes(cs) >= 0,
    decreases cs.len(),
{
    if cs.len() > 0 {
        lemma_sum_nonneg(cs.drop_first());
    }
}

proof fn lemma_sum_insert(s: Seq<NodeModel>, j: int, x: NodeModel)
    requires
        0 <= j <= s.len(),
    ensures
        sum_sizes(s.insert(j, x)) == sum_sizes(s) + x.size,
    decreases s.len(),
{
    if j == 0 {
        assert(s.insert(0, x)[0] == x);
        assert(s.insert(0, x).drop_first() =~= s);
    } else {
        assert(s.insert(j, x)[0] == s[0]);
        assert(s.insert(j, x).drop_first() =~= s.drop_first().insert(j - 1, x));
        lemma_sum_insert(s.drop_first(), j - 1, x);
    }
}

proof fn lemma_cons_multiset(x: NodeModel, rest: Seq<NodeModel>)
    ensures
        (seq![x] + rest).to_multiset() == rest.to_multiset().insert(x),
{
    vstd::seq_lib::lemma_multiset_commutative(seq![x], rest);
    assert(seq![x] =~= Seq::<NodeModel>::empty().push(x));
    assert(Seq::<NodeModel>::empty().to_multiset().len() == 0);
    assert(Seq::<NodeModel>::empty().to_multiset() =~= Multiset::empty());
    assert((seq![x] + rest).to_multiset() =~= rest.to_multiset().insert(x));
}

proof fn lemma_insert_multiset(s: Seq<NodeModel>, j: int, x: NodeModel)
    requires
        0 <= j <= s.len(),
    ensures
        s.insert(j, x).to_multiset() == s.to_multiset().insert(x),
{
    broadcast use vstd::seq_lib::group_to_multiset_ensures;

    let t = s.insert(j, x);
    assert(t[j] == x);
    assert(t.remove(j) =~= s);
    assert(t.remove(j).to_multiset() == t.to_multiset().remove(x));
    assert(t.contains(x));
    assert(t.to_multiset().count(x) > 0);
    assert(t.to_multiset() =~= s.to_multiset().insert(x));
}

fn node_le_exec(a: &Node, b: &Node) -> (r: bool)
    ensures
        r == node_le(a@, b@),
{
    if a.is_directory != b.is_directory {
        a.is_directory
    } else if a.path.path_eq(&b.path) {
        true
    } else {
        a.path.path_less(&b.path)
    }
}

fn insert_pos(v: &Vec<Node>, x: &Node) -> (j: usize)
    requires
        children_sorted(children_model(v@)),
    ensures
        0 <= j <= v@.len(),
        forall|k: int| 0 <= k < j ==> node_le(#[trigger] children_model(v@)[k], x@),
        forall|k: int| j <= k < v@.len() ==> node_le(x@, #[trigger] children_model(v@)[k]),
{
    let ghost cm = children_model(v@);
    proof {
        lemma_children_model(v@);
    }
    let n = v.len();
    let mut j: usize = 0;
    while j < n
        invariant
            0 <= j <= n,
            n == v@.len(),
            cm == children_model(v@),
            cm.len() == n,
            children_sorted(cm),
            forall|i: int| 0 <= i < n ==> #[trigger] cm[i] == node_model(v@[i]),
            forall|k: int| 0 <= k < j ==> node_le(#[trigger] cm[k], x@),
        decreases n - j,
    {
        if !node_le_exec(&v[j], x) {
            proof {
                lemma_node_le_total(cm[j as int], x@);
                assert forall|k: int| j <= k < n implies node_le(x@, #[trigger] cm[k]) by {
                    if k > j {
                        lemma_node_le_trans(x@, cm[j as int], cm[k]);
                    }
                }
            }
            return j;
        }
        j += 1;
    }
    n
}

/// Inserts a node among sorted siblings, keeping them sorted.
fn insert_sorted(v: &mut Vec<Node>, x: Node)
    requires
        children_sorted(children_model(old(v)@)),
    ensures
        final(v)@.len() == old(v)@.len() + 1,
        children_sorted(children_model(final(v)@)),
        children_model(final(v)@).to_multiset() == children_model(old(v)@).to_multiset().insert(
            node_model(x),
        ),
        sum_sizes(children_model(final(v)@)) == sum_sizes(children_model(old(v)@))
            + node_model(x).size,
{
    let ghost cm = children_model(old(v)@);
    let ghost xm = node_model(x);
    let j = insert_pos(v, &x);
    v.insert(j, x);
    proof {
        lemma_children_model(old(v)@);
        lemma_children_model(v@);
        assert forall|i: int| 0 <= i < v@.len() implies children_model(v@)[i] == cm.insert(
            j as int,
            xm,
        )[i] by {
            if i < j {
                assert(v@[i] == old(v)@[i]);
                assert(cm.insert(j as int, xm)[i] == cm[i]);
            } else if i == j {
                assert(v@[i] == x);
            } else {
                assert(v@[i] == old(v)@[i - 1]);
                assert(cm.insert(j as int, xm)[i] == cm[i - 1]);
            }
        }
        assert(children_model(v@) =~= cm.insert(j as int, xm));
        let t = cm.insert(j as int, xm);
        assert forall|i1: int, i2: int| 0 <= i1 < i2 < t.len() implies node_le(
            #[trigger] t[i1],
            #[trigger] t[i2],
        ) by {
            if i1 < j && i2 < j {
                assert(node_le(cm[i1], cm[i2]));
            } else if i1 < j && i2 == j {
                assert(node_le(cm[i1], xm));
            } else if i1 < j && i2 > j {
                assert(node_le(cm[i1], cm[i2 - 1]));
            } else if i1 == j {
                assert(node_le(xm, cm[i2 - 1]));
            } else {
                assert(node_le(cm[i1 - 1], cm[i2 - 1]));
            }
        }
        lemma_insert_multiset(cm, j as int, xm);
        lemma_sum_insert(cm, j as int, xm);
    }
}

proof fn lemma_build_wf(p: Seq<Seq<u8>>, children: Seq<NodeModel>, kept: Seq<NodeModel>, total: u64)
    requires
        children.to_multiset() == kept.to_multiset(),
        children_sorted(children),
        sum_sizes(children) == total as int,
        nodes_ok(p, kept),
    ensures
        (NodeModel {
            size: total,
            path: p,
            children,
            is_directory: true,
            is_marked: false,
        }).wf(),
{
    broadcast use vstd::seq_lib::group_to_multiset_ensures;

    assert forall|i: int| 0 <= i < children.len() implies (#[trigger] children[i]).wf()
        && is_child_path(children[i].path, p) by {
        assert(children.contains(children[i]));
        assert(children.to_multiset().count(children[i]) > 0);
        assert(kept.contains(children[i]));
        let k = choose|k: int| 0 <= k < kept.len() && kept[k] == children[i];
        assert(kept[k].wf());
    }
    assert(kept.no_duplicates()) by {
        assert forall|i: int, j: int|
            0 <= i < kept.len() && 0 <= j < kept.len() && i != j implies kept[i] != kept[j] by {
            if i < j {
                assert(kept[i].path != kept[j].path);
            } else {
                assert(kept[j].path != kept[i].path);
            }
        }
    }
    kept.lemma_multiset_has_no_duplicates();
    children.lemma_multiset_has_no_duplicates_conv();
    assert forall|i: int, j: int| 0 <= i < j < children.len() implies (
    #[trigger] children[i]).path != (#[trigger] children[j]).path by {
        if children[i] == children[j] {
            assert(false);
        } else {
            assert(children.contains(children[i]));
            assert(children.contains(children[j]));
            assert(children.to_multiset().count(children[i]) > 0);
            assert(children.to_multiset().count(children[j]) > 0);
            assert(kept.to_multiset().count(children[i]) > 0);
            assert(kept.to_multiset().count(children[j]) > 0);
            assert(kept.contains(children[i]));
            assert(kept.contains(children[j]));
            let k1 = choose|k: int| 0 <= k < kept.len() && kept[k] == children[i];
            let k2 = choose|k: int| 0 <= k < kept.len() && kept[k] == children[j];
            assert(k1 != k2);
            if k1 < k2 {
                assert(kept[k1].path != kept[k2].path);
            } else {
                assert(kept[k2].path != kept[k1].path);
            }
        }
    }
}

/// Builds the node of one scanned directory from its entry outcomes.
///
/// The node keeps, as children, the files and indexed subdirectories up to
/// the first listing failure; entries whose metadata failed and subtrees
/// whose scan failed are absent and contribute nothing. The children come
/// out sorted directories-first then by path, and the directory's size is
/// exactly the sum of its children's sizes. A path under a never-traversed
/// pseudo-filesystem prefix yields an empty directory of size zero,
/// whatever the entries say. The one refusal, answered with `None`, is a
/// children total beyond what a byte counter holds.
#[verifier::loop_isolation(false)]
pub fn build_dir_node(path: FsPath, entries: Vec<ScanEntry>) -> (r: Option<Node>)
    ensures
        match r {
            Some(node) => {
                &&& node@.path == path@
                &&& node@.is_directory
                &&& !node@.is_marked
                &&& is_special_path(path@) ==> node@.size == 0 && node@.children.len() == 0
                &&& !is_special_path(path@) ==> {
                    &&& node@.children.to_multiset() == kept_nodes(
                        entries_models(entries@),
                    ).to_multiset()
                    &&& node@.size as int == sum_sizes(kept_nodes(entries_models(entries@)))
                    &&& children_sorted(node@.children)
                }
                &&& (is_special_path(path@) || nodes_ok(
                    path@,
                    kept_nodes(entries_models(entries@)),
                )) ==> node@.wf()
            },
            None => !is_special_path(path@) && sum_sizes(kept_nodes(entries_models(entries@)))
                > u64::MAX,
        },
{
    if path.is_special() {
        let node = Node::new(FileSize { bytes: 0 }, path, true);
        return Some(node);
    }
    let ghost em = entries_models(entries@);
    let mut entries = entries;
    let mut children: Vec<Node> = Vec::new();
    let mut total: u64 = 0;
    let ghost mut k: int = 0;
    proof {
        assert(em.skip(0) =~= em);
        assert(children_model(children@) =~= Seq::<NodeModel>::empty());
        assert(children_model(children@).to_multiset().add(kept_nodes(em).to_multiset())
            =~= kept_nodes(em).to_multiset());
    }
    while entries.len() > 0
        invariant
            0 <= k <= em.len(),
            entries_models(entries@) == em.skip(k),
            children_sorted(children_model(children@)),
            children_model(children@).to_multiset().add(kept_nodes(em.skip(k)).to_multiset())
                == kept_nodes(em).to_multiset(),
            total as int + sum_sizes(kept_nodes(em.skip(k))) == sum_sizes(kept_nodes(em)),
            sum_sizes(children_model(children@)) == total as int,
        decreases entries@.len(),
    {
        let ghost pre = entries@;
        let e = entries.remove(0);
        proof {
            assert(entry_model(e) == entries_models(pre)[0]);
            assert(entries_models(pre)[0] == em[k]);
            assert(em.skip(k)[0] == em[k]);
            assert(entries_models(entries@) =~= em.skip(k + 1)) by {
                assert forall|i: int| 0 <= i < entries@.len() implies entries_models(entries@)[i]
                    == em.skip(k + 1)[i] by {
                    assert(entries@[i] == pre.remove(0)[i]);
                    assert(pre.remove(0)[i] == pre[i + 1]);
                    assert(entries_models(pre)[i + 1] == em.skip(k)[i + 1]);
                }
            }
            assert(em.skip(k).drop_first() =~= em.skip(k + 1));
        }
        match e {
            ScanEntry::File { path: fpath, size } => {
                proof {
                    assert(kept_nodes(em.skip(k)) == seq![leaf_model(fpath@, size)] + kept_nodes(
                        em.skip(k + 1),
                    ));
                    assert((seq![leaf_model(fpath@, size)] + kept_nodes(em.skip(k + 1)))[0]
                        == leaf_model(fpath@, size));
                    assert((seq![leaf_model(fpath@, size)] + kept_nodes(
                        em.skip(k + 1),
                    )).drop_first() =~= kept_nodes(em.skip(k + 1)));
                    lemma_sum_nonneg(kept_nodes(em.skip(k + 1)));
                }
                match total.checked_add(size) {
                    Some(t) => {
                        total = t;
                    },
                    None => {
                        proof {
                            assert(sum_sizes(kept_nodes(em.skip(k))) == leaf_model(fpath@, size).size
                                + sum_sizes(kept_nodes(em.skip(k + 1))));
                            assert(sum_sizes(kept_nodes(em)) > u64::MAX);
                        }
                        return None;
                    },
                }
                let node = Node::new(FileSize { bytes: size }, fpath, false);
                proof {
                    assert(node@ == leaf_model(node@.path, size));
                }
                insert_sorted(&mut children, node);
                proof {
                    k = k + 1;
                    lemma_cons_multiset(leaf_model(node@.path, size), kept_nodes(em.skip(k)));
                    assert(children_model(children@).to_multiset().add(
                        kept_nodes(em.skip(k)).to_multiset(),
                    ) =~= kept_nodes(em).to_multiset());
                }
            },
            ScanEntry::Subdir { node } => {
                let ghost nm = node_model(node);
                proof {
                    assert(kept_nodes(em.skip(k)) == seq![nm] + kept_nodes(em.skip(k + 1)));
                    assert((seq![nm] + kept_nodes(em.skip(k + 1)))[0] == nm);
                    assert((seq![nm] + kept_nodes(em.skip(k + 1))).drop_first() =~= kept_nodes(
                        em.skip(k + 1),
                    ));
                    lemma_sum_nonneg(kept_nodes(em.skip(k + 1)));
                }
                let size = node.size.bytes;
                match total.checked_add(size) {
                    Some(t) => {
                        total = t;
                    },
                    None => {
                        proof {
                            assert(sum_sizes(kept_nodes(em.skip(k))) == nm.size + sum_sizes(
                                kept_nodes(em.skip(k + 1)),
                            ));
                            assert(sum_sizes(kept_nodes(em)) > u64::MAX);
                        }
                        return None;
                    },
                }
                insert_sorted(&mut children, node);
                proof {
                    k = k + 1;
                    lemma_cons_multiset(nm, kept_nodes(em.skip(k)));
                    assert(children_model(children@).to_multiset().add(
                        kept_nodes(em.skip(k)).to_multiset(),
                    ) =~= kept_nodes(em).to_multiset());
                }
            },
            ScanEntry::MetaFailure => {
                proof {
                    assert(kept_nodes(em.skip(k)) == kept_nodes(em.skip(k + 1)));
                    k = k + 1;
                }
            },
            ScanEntry::SubtreeFailure => {
                proof {
                    assert(kept_nodes(em.skip(k)) == kept_nodes(em.skip(k + 1)));
                    k = k + 1;
                }
            },
            ScanEntry::EnumFailure => {
                proof {
                    assert(kept_nodes(em.skip(k)) =~= Seq::<NodeModel>::empty());
                    assert(children_model(children@).to_multiset().add(
                        Seq::<NodeModel>::empty().to_multiset(),
                    ) =~= children_model(children@).to_multiset());
                    lemma_sum_nonneg(kept_nodes(em));
                }
                let node = Node {
                    size: FileSize { bytes: total },
                    path,
                    children,
                    is_directory: true,
                    is_marked: false,
                };
                proof {
                    if nodes_ok(node@.path, kept_nodes(em)) {
                        lemma_build_wf(
                            node@.path,
                            children_model(node.children@),
                            kept_nodes(em),
                            total,
                        );
                    }
                }
                return Some(node);
            },
        }
    }
    proof {
        assert(k == em.len());
        assert(em.skip(k).len() == 0);
        assert(kept_nodes(em.skip(k)) =~= Seq::<NodeModel>::empty());
        assert(children_model(children@).to_multiset().add(
            Seq::<NodeModel>::empty().to_multiset(),
        ) =~= children_model(children@).to_multiset());
    }
    let node = Node {
        size: FileSize { bytes: total },
        path,
        children,
        is_directory: true,
        is_marked: false,
    };
    proof {
        if nodes_ok(node@.path, kept_nodes(em)) {
            lemma_build_wf(node@.path, children_model(node.children@), kept_nodes(em), total);
        }
    }
    Some(node)
}

} // verus!
