use rusty_tree::counts::Counts;
use rusty_tree::tree::{Entry, Node};
use rusty_tree::walker::{print_tree, tree_dir, LineItem};

fn file(name: &str) -> Entry {
    Entry { name: String::from(name), node: Node::File }
}

fn dir(name: &str, children: Vec<Entry>) -> Entry {
    Entry { name: String::from(name), node: Node::Dir(children) }
}

fn names(items: &[LineItem]) -> Vec<String> {
    items.iter().map(|it| it.name.clone()).collect()
}

#[test]
fn scenario_two_files_one_empty_subdir() {
    let root = Node::Dir(vec![file("b.txt"), file("a.txt"), dir("sub", vec![])]);
    let (items, counts) = print_tree(&root, "root", 64);
    assert_eq!(names(&items), vec!["a.txt", "b.txt", "sub"]);
    assert_eq!(counts, Counts { dirs: 1, files: 2 });
    assert_eq!(items[0].prefix, "");
    assert!(!items[0].last);
    assert!(!items[1].last);
    assert!(items[2].last);
    assert_eq!(items[0].path, "root/a.txt");
    assert_eq!(items[1].path, "root/b.txt");
    assert_eq!(items[2].path, "root/sub");
}

#[test]
fn scenario_only_hidden_file() {
    let root = Node::Dir(vec![file(".env")]);
    let (items, counts) = print_tree(&root, ".", 64);
    assert_eq!(items.len(), 0);
    assert_eq!(counts, Counts { dirs: 0, files: 0 });
}

#[test]
fn depth_zero_prints_nothing() {
    let root = Node::Dir(vec![file("a"), dir("d", vec![file("x")])]);
    let (items, counts) = print_tree(&root, ".", 0);
    assert_eq!(items.len(), 0);
    assert_eq!(counts, Counts { dirs: 0, files: 0 });
}

#[test]
fn depth_one_lists_only_immediate_children() {
    let root = Node::Dir(vec![dir("d", vec![file("x"), dir("e", vec![file("y")])]), file("a")]);
    let (items, counts) = print_tree(&root, ".", 1);
    assert_eq!(names(&items), vec!["a", "d"]);
    assert!(items.iter().all(|it| it.prefix.is_empty()));
    assert_eq!(counts, Counts { dirs: 1, files: 1 });
}

#[test]
fn nested_prefixes_continue_for_earlier_siblings() {
    let root = Node::Dir(vec![dir("dir_a", vec![file("y.txt"), file("x.txt")]), file("z.txt")]);
    let (items, counts) = print_tree(&root, ".", 64);
    assert_eq!(names(&items), vec!["dir_a", "x.txt", "y.txt", "z.txt"]);
    assert_eq!(items[0].prefix, "");
    assert_eq!(items[1].prefix, "\u{2502}   ");
    assert_eq!(items[2].prefix, "\u{2502}   ");
    assert_eq!(items[3].prefix, "");
    assert!(!items[0].last);
    assert!(!items[1].last);
    assert!(items[2].last);
    assert!(items[3].last);
    assert_eq!(counts, Counts { dirs: 1, files: 3 });
}

#[test]
fn nested_prefix_blank_under_last_directory() {
    let root = Node::Dir(vec![dir("z", vec![file("a")])]);
    let (items, _) = print_tree(&root, ".", 64);
    assert_eq!(names(&items), vec!["z", "a"]);
    assert!(items[0].last);
    assert_eq!(items[1].prefix, "    ");
    assert_eq!(items[1].path, "./z/a");
}

#[test]
fn hidden_directory_not_entered_or_counted() {
    let root = Node::Dir(vec![dir(".git", vec![file("config")]), file("a")]);
    let (items, counts) = print_tree(&root, ".", 64);
    assert_eq!(names(&items), vec!["a"]);
    assert_eq!(counts, Counts { dirs: 0, files: 1 });
}

#[test]
fn hidden_last_entry_does_not_affect_connectors() {
    // the filter runs before connectors are chosen, so the last visible
    // entry gets the corner even when a hidden name sorts after it
    let root = Node::Dir(vec![file("a"), file(".z")]);
    let (items, counts) = print_tree(&root, ".", 64);
    assert_eq!(names(&items), vec!["a"]);
    assert!(items[0].last);
    assert_eq!(counts, Counts { dirs: 0, files: 1 });
}

#[test]
fn counts_sum_over_deep_tree() {
    let root = Node::Dir(vec![
        dir("d1", vec![file("f1"), dir("d2", vec![file("f2"), file("f3")])]),
        file("f0"),
    ]);
    let (items, counts) = print_tree(&root, ".", 64);
    assert_eq!(counts, Counts { dirs: 2, files: 4 });
    assert_eq!(items.len(), 6);
}

#[test]
fn depth_limit_cuts_counts_below() {
    let root = Node::Dir(vec![dir("d1", vec![file("f1"), dir("d2", vec![file("f2")])])]);
    let (_, counts) = print_tree(&root, ".", 2);
    assert_eq!(counts, Counts { dirs: 2, files: 1 });
}

#[test]
fn tree_dir_restores_vert_stack() {
    let root = Node::Dir(vec![file("a"), dir("d", vec![file("x")])]);
    let mut verts = vec![true, false];
    let mut out: Vec<LineItem> = Vec::new();
    let counts = tree_dir(&root, "base", 0, &mut verts, 64, &mut out);
    assert_eq!(verts, vec![true, false]);
    assert_eq!(counts, Counts { dirs: 1, files: 2 });
    assert_eq!(out[0].prefix, "\u{2502}       ");
    assert_eq!(out[0].name, "a");
}

#[test]
fn sibling_order_is_lexicographic_and_case_sensitive() {
    let root = Node::Dir(vec![file("b"), file("B"), file("a"), file("A0")]);
    let (items, _) = print_tree(&root, ".", 64);
    assert_eq!(names(&items), vec!["A0", "B", "a", "b"]);
}

#[test]
fn aggregation_over_two_roots_matches_separate_runs() {
    let root_a = Node::Dir(vec![file("a"), dir("d", vec![file("x")])]);
    let root_b = Node::Dir(vec![file("b")]);
    let (_, ca) = print_tree(&root_a, "A", 64);
    let (_, cb) = print_tree(&root_b, "B", 64);
    let joint = rusty_tree::counts::aggregate(&vec![ca, cb]);
    let swapped = rusty_tree::counts::aggregate(&vec![cb, ca]);
    assert_eq!(joint, ca.add(cb));
    assert_eq!(joint, swapped);
    assert_eq!(joint, Counts { dirs: 1, files: 3 });
}
