use space_index::application::{App, Mode};
use space_index::fspath::FsPath;
use space_index::index::{build_dir_node, ScanEntry};
use space_index::node::{FileSize, Node};

fn p(parts: &[&str]) -> FsPath {
    FsPath { parts: parts.iter().map(|s| s.as_bytes().to_vec()).collect() }
}

fn file_entry(parts: &[&str], size: u64) -> ScanEntry {
    ScanEntry::File { path: p(parts), size }
}

/// The tree of the worked example: `root` holding file `a` (10 bytes) and
/// subdirectory `b` holding file `c` (5 bytes).
fn example_tree() -> Node {
    let b = build_dir_node(p(&["/", "root", "b"]), vec![file_entry(&["/", "root", "b", "c"], 5)])
        .unwrap();
    build_dir_node(
        p(&["/", "root"]),
        vec![file_entry(&["/", "root", "a"], 10), ScanEntry::Subdir { node: b }],
    )
    .unwrap()
}

#[test]
fn example_sizes_and_order() {
    let root = example_tree();
    assert_eq!(root.size.bytes, 15);
    assert!(root.is_directory);
    assert_eq!(root.children.len(), 2);
    // directories come first
    assert!(root.children[0].is_directory);
    assert_eq!(root.children[0].path.parts, p(&["/", "root", "b"]).parts);
    assert_eq!(root.children[0].size.bytes, 5);
    assert!(!root.children[1].is_directory);
    assert_eq!(root.children[1].path.parts, p(&["/", "root", "a"]).parts);
    assert_eq!(root.children[1].size.bytes, 10);
    // the subdirectory's own child
    assert_eq!(root.children[0].children.len(), 1);
    assert_eq!(root.children[0].children[0].size.bytes, 5);
}

#[test]
fn directory_size_is_sum_of_children() {
    let root = build_dir_node(
        p(&["/", "d"]),
        vec![
            file_entry(&["/", "d", "x"], 7),
            file_entry(&["/", "d", "y"], 11),
            file_entry(&["/", "d", "z"], 0),
        ],
    )
    .unwrap();
    assert_eq!(root.size.bytes, 18);
    assert_eq!(root.children.len(), 3);
}

#[test]
fn children_sorted_directories_first_then_by_path() {
    let d2 = build_dir_node(p(&["/", "d", "zz"]), vec![]).unwrap();
    let d1 = build_dir_node(p(&["/", "d", "mm"]), vec![]).unwrap();
    let root = build_dir_node(
        p(&["/", "d"]),
        vec![
            file_entry(&["/", "d", "bb"], 1),
            ScanEntry::Subdir { node: d2 },
            file_entry(&["/", "d", "aa"], 2),
            ScanEntry::Subdir { node: d1 },
        ],
    )
    .unwrap();
    let names: Vec<&[u8]> = root.children.iter().map(|c| c.path.parts.last().unwrap().as_slice()).collect();
    assert_eq!(names, vec![b"mm".as_slice(), b"zz", b"aa", b"bb"]);
    assert!(root.children[0].is_directory);
    assert!(root.children[1].is_directory);
    assert!(!root.children[2].is_directory);
    assert!(!root.children[3].is_directory);
}

#[test]
fn failed_subtree_is_absent_and_contributes_nothing() {
    let root = build_dir_node(
        p(&["/", "d"]),
        vec![
            file_entry(&["/", "d", "a"], 10),
            ScanEntry::SubtreeFailure,
            file_entry(&["/", "d", "b"], 3),
        ],
    )
    .unwrap();
    assert_eq!(root.children.len(), 2);
    assert_eq!(root.size.bytes, 13);
}

#[test]
fn failed_metadata_entry_is_skipped() {
    let root = build_dir_node(
        p(&["/", "d"]),
        vec![ScanEntry::MetaFailure, file_entry(&["/", "d", "a"], 4)],
    )
    .unwrap();
    assert_eq!(root.children.len(), 1);
    assert_eq!(root.size.bytes, 4);
}

#[test]
fn listing_failure_keeps_entries_read_so_far() {
    let root = build_dir_node(
        p(&["/", "d"]),
        vec![
            file_entry(&["/", "d", "a"], 4),
            ScanEntry::EnumFailure,
            file_entry(&["/", "d", "b"], 100),
        ],
    )
    .unwrap();
    assert_eq!(root.children.len(), 1);
    assert_eq!(root.size.bytes, 4);
}

#[test]
fn special_path_yields_empty_directory() {
    for special in [&["/", "proc"][..], &["/", "dev", "sda"], &["/", "mnt", "disk"]] {
        let root = build_dir_node(p(special), vec![file_entry(&["/", "x"], 9)]).unwrap();
        assert!(root.is_directory);
        assert_eq!(root.size.bytes, 0);
        assert_eq!(root.children.len(), 0);
    }
    // a relative "proc" is an ordinary name
    let root = build_dir_node(p(&["proc"]), vec![file_entry(&["proc", "a"], 9)]).unwrap();
    assert_eq!(root.size.bytes, 9);
}

#[test]
fn oversized_total_is_refused() {
    let r = build_dir_node(
        p(&["/", "d"]),
        vec![file_entry(&["/", "d", "a"], u64::MAX), file_entry(&["/", "d", "b"], 1)],
    );
    assert!(r.is_none());
}

#[test]
fn find_node_reaches_every_node_and_only_them() {
    let root = example_tree();
    let a = root.find_node(&p(&["/", "root", "a"])).unwrap();
    assert_eq!(a.size.bytes, 10);
    let b = root.find_node(&p(&["/", "root", "b"])).unwrap();
    assert!(b.is_directory);
    let c = root.find_node(&p(&["/", "root", "b", "c"])).unwrap();
    assert_eq!(c.size.bytes, 5);
    let me = root.find_node(&p(&["/", "root"])).unwrap();
    assert_eq!(me.size.bytes, 15);
    assert!(root.find_node(&p(&["/", "root", "q"])).is_none());
    assert!(root.find_node(&p(&["/", "other"])).is_none());
    assert!(root.find_node(&p(&["/", "root", "b", "c", "deeper"])).is_none());
}

#[test]
fn marking_marks_every_descendant_and_unmarking_reverses_it() {
    let mut root = example_tree();
    root.mark(true);
    assert!(root.is_marked);
    assert!(root.children[0].is_marked);
    assert!(root.children[0].children[0].is_marked);
    assert!(root.children[1].is_marked);
    root.mark(false);
    assert!(!root.is_marked);
    assert!(!root.children[0].is_marked);
    assert!(!root.children[0].children[0].is_marked);
    assert!(!root.children[1].is_marked);
}

fn marks(n: &Node, out: &mut Vec<bool>) {
    out.push(n.is_marked);
    for c in n.children.iter() {
        marks(c, out);
    }
}

#[test]
fn marking_twice_is_marking_once() {
    let mut once = example_tree();
    once.mark(true);
    let mut snapshot = Vec::new();
    marks(&once, &mut snapshot);
    once.mark(true);
    let mut again = Vec::new();
    marks(&once, &mut again);
    assert_eq!(snapshot, again);
}

#[test]
fn mark_at_flips_one_subtree_only() {
    let mut root = example_tree();
    let found = root.mark_at(&p(&["/", "root", "b"]), true);
    assert!(found);
    assert!(!root.is_marked);
    assert!(root.children[0].is_marked);
    assert!(root.children[0].children[0].is_marked);
    assert!(!root.children[1].is_marked);
    let missing = root.mark_at(&p(&["/", "root", "nope"]), true);
    assert!(!missing);
}

#[test]
fn delete_plan_after_marking_root_names_b_then_a() {
    let mut root = example_tree();
    root.mark(true);
    let plan = root.delete_marked();
    // the root itself is never planned; its marked children are, in order
    assert_eq!(plan.len(), 2);
    assert_eq!(plan[0].path.parts, p(&["/", "root", "b"]).parts);
    assert!(plan[0].is_directory);
    assert_eq!(plan[1].path.parts, p(&["/", "root", "a"]).parts);
    assert!(!plan[1].is_directory);
}

#[test]
fn delete_plan_names_exactly_the_topmost_marked_entries() {
    let mut root = example_tree();
    assert_eq!(root.delete_marked().len(), 0);
    // mark only the file deep inside b
    root.mark_at(&p(&["/", "root", "b", "c"]), true);
    let plan = root.delete_marked();
    assert_eq!(plan.len(), 1);
    assert_eq!(plan[0].path.parts, p(&["/", "root", "b", "c"]).parts);
    assert!(!plan[0].is_directory);
    // marking b afterwards makes b the topmost entry; c is inside it
    root.mark_at(&p(&["/", "root", "b"]), true);
    let plan = root.delete_marked();
    assert_eq!(plan.len(), 1);
    assert_eq!(plan[0].path.parts, p(&["/", "root", "b"]).parts);
    assert!(plan[0].is_directory);
}

#[test]
fn scaled_sizes() {
    assert_eq!(FileSize { bytes: 0 }.scaled(), (0, ' '));
    assert_eq!(FileSize { bytes: 1024 }.scaled(), (1024, ' '));
    assert_eq!(FileSize { bytes: 2048 }.scaled(), (2, 'K'));
    assert_eq!(FileSize { bytes: 3 * 1024 * 1024 }.scaled(), (3, 'M'));
    assert_eq!(FileSize { bytes: 5 * 1024 * 1024 * 1024 }.scaled(), (5, 'G'));
    assert_eq!(FileSize { bytes: 7 * (1u64 << 40) }.scaled(), (7, 'T'));
    assert_eq!(FileSize { bytes: 9 * (1u64 << 50) }.scaled(), (9, 'E'));
}

#[test]
fn path_comparisons() {
    assert!(p(&["/", "a"]).path_eq(&p(&["/", "a"])));
    assert!(!p(&["/", "a"]).path_eq(&p(&["/", "a", "b"])));
    assert!(p(&["/", "a", "b"]).starts_with(&p(&["/", "a"])));
    assert!(!p(&["/", "ab"]).starts_with(&p(&["/", "a"])));
    assert!(p(&["/", "a"]).path_less(&p(&["/", "b"])));
    assert!(p(&["/", "a"]).path_less(&p(&["/", "a", "b"])));
    assert!(!p(&["/", "b"]).path_less(&p(&["/", "a"])));
    assert!(!p(&["/", "a"]).path_less(&p(&["/", "a"])));
}

#[test]
fn parent_drops_the_last_component() {
    let q = p(&["/", "a", "b"]).parent().unwrap();
    assert_eq!(q.parts, p(&["/", "a"]).parts);
    assert!(p(&[]).parent().is_none());
}

#[test]
fn special_prefixes() {
    assert!(p(&["/", "proc", "42"]).is_special());
    assert!(p(&["/", "dev"]).is_special());
    assert!(p(&["/", "mnt", "x", "y"]).is_special());
    assert!(!p(&["/", "home", "proc"]).is_special());
    assert!(!p(&["proc", "x"]).is_special());
    assert!(!p(&["/"]).is_special());
}

#[test]
fn app_starts_at_the_root() {
    let root = example_tree();
    let app = App::new(root);
    assert!(app.mode == Mode::Normal);
    assert_eq!(app.current.parts, p(&["/", "root"]).parts);
    assert_eq!(app.selected, 0);
    assert_eq!(app.number_of_files, 2);
}

#[test]
fn selection_stays_within_the_listing() {
    let mut app = App::new(example_tree());
    app.select_prev();
    assert_eq!(app.selected, 0);
    app.select_next();
    assert_eq!(app.selected, 1);
    app.select_next();
    assert_eq!(app.selected, 1);
    app.select_prev();
    assert_eq!(app.selected, 0);
}

#[test]
fn entering_and_leaving_a_directory() {
    let mut app = App::new(example_tree());
    // the selected entry is the directory b
    app.enter();
    assert_eq!(app.current.parts, p(&["/", "root", "b"]).parts);
    assert_eq!(app.number_of_files, 1);
    assert_eq!(app.selected, 0);
    app.go_parent();
    assert_eq!(app.current.parts, p(&["/", "root"]).parts);
    assert_eq!(app.number_of_files, 2);
    // entering a file changes nothing
    app.select_next();
    app.enter();
    assert_eq!(app.current.parts, p(&["/", "root"]).parts);
    assert_eq!(app.selected, 1);
}

#[test]
fn toggling_the_selected_entry() {
    let mut app = App::new(example_tree());
    app.toggle_mark_selected();
    assert!(app.listing.children[0].is_marked);
    assert!(app.listing.children[0].children[0].is_marked);
    assert!(!app.listing.children[1].is_marked);
    app.toggle_mark_selected();
    assert!(!app.listing.children[0].is_marked);
    assert!(!app.listing.children[0].children[0].is_marked);
}

#[test]
fn remove_question_modes() {
    let mut app = App::new(example_tree());
    app.begin_remove();
    assert!(app.mode == Mode::AskRemove);
    app.cancel_remove();
    assert!(app.mode == Mode::Normal);
}

#[test]
fn file_root_is_a_leaf() {
    let n = Node::new(FileSize { bytes: 33 }, p(&["/", "f"]), false);
    assert!(!n.is_directory);
    assert!(!n.is_marked);
    assert_eq!(n.children.len(), 0);
    assert_eq!(n.size.bytes, 33);
}

#[test]
fn find_node_mut_hands_out_the_node_for_writing() {
    let mut root = example_tree();
    {
        let b = root.find_node_mut(&p(&["/", "root", "b"])).unwrap();
        assert_eq!(b.size.bytes, 5);
        b.mark(true);
    }
    assert!(root.children[0].is_marked);
    assert!(root.children[0].children[0].is_marked);
    assert!(!root.is_marked);
    assert!(!root.children[1].is_marked);
    assert!(root.find_node_mut(&p(&["/", "nowhere"])).is_none());
}
