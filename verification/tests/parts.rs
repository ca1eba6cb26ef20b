use std::cmp::Ordering;

use rusty_tree::counts::{aggregate, summary_line, usize_to_string, Counts};
use rusty_tree::lister::{list_visible_sorted, visible_sorted_indices};
use rusty_tree::order::{name_lt, pathbuf_sort_fn};
use rusty_tree::prefix::build_prefix;
use rusty_tree::render::render_line;
use rusty_tree::tree::{name_is_hidden, Entry, Node};
use rusty_tree::version::version;

fn file(name: &str) -> Entry {
    Entry { name: String::from(name), node: Node::File }
}

#[test]
fn name_lt_orders_by_code_point() {
    assert!(name_lt("a", "b"));
    assert!(!name_lt("b", "a"));
    assert!(name_lt("a", "ab"));
    assert!(!name_lt("ab", "a"));
    assert!(name_lt("", "a"));
    assert!(!name_lt("a", "a"));
    assert!(name_lt("B.txt", "a.txt"));
}

#[test]
fn pathbuf_sort_fn_reports_all_three_orderings() {
    assert_eq!(pathbuf_sort_fn(&file("a"), &file("b")), Ordering::Less);
    assert_eq!(pathbuf_sort_fn(&file("b"), &file("a")), Ordering::Greater);
    assert_eq!(pathbuf_sort_fn(&file("same"), &file("same")), Ordering::Equal);
}

#[test]
fn name_is_hidden_checks_leading_dot() {
    assert!(name_is_hidden(".env"));
    assert!(name_is_hidden("."));
    assert!(!name_is_hidden("env"));
    assert!(!name_is_hidden(""));
    assert!(!name_is_hidden("a.env"));
}

#[test]
fn list_visible_sorted_filters_and_sorts() {
    let entries = vec![file("c"), file(".hidden"), file("a"), file("b")];
    let listed = list_visible_sorted(entries);
    let names: Vec<String> = listed.iter().map(|e| e.name.clone()).collect();
    assert_eq!(names, vec!["a", "b", "c"]);
}

#[test]
fn list_visible_sorted_keeps_equal_names_adjacent() {
    let entries = vec![file("b"), file("a"), file("b")];
    let listed = list_visible_sorted(entries);
    let names: Vec<String> = listed.iter().map(|e| e.name.clone()).collect();
    assert_eq!(names, vec!["a", "b", "b"]);
}

#[test]
fn build_prefix_draws_bars_for_open_levels() {
    assert_eq!(build_prefix(&vec![]), "");
    assert_eq!(build_prefix(&vec![true]), "\u{2502}   ");
    assert_eq!(build_prefix(&vec![false]), "    ");
    assert_eq!(
        build_prefix(&vec![true, false, true]),
        "\u{2502}       \u{2502}   "
    );
}

#[test]
fn render_line_joins_prefix_connector_and_name() {
    assert_eq!(render_line("", false, "name"), "\u{251c}\u{2500}\u{2500} name");
    assert_eq!(render_line("", true, "name"), "\u{2514}\u{2500}\u{2500} name");
    assert_eq!(
        render_line("\u{2502}   ", true, "x"),
        "\u{2502}   \u{2514}\u{2500}\u{2500} x"
    );
}

#[test]
fn version_formats_components_or_fallback() {
    assert_eq!(version(Some("1"), Some("2"), Some("3")), "rusty_tree v1.2.3");
    assert_eq!(version(None, Some("2"), Some("3")), "rusty_tree vUnknown");
    assert_eq!(version(None, None, None), "rusty_tree vUnknown");
}

#[test]
fn usize_to_string_writes_decimal() {
    assert_eq!(usize_to_string(0), "0");
    assert_eq!(usize_to_string(7), "7");
    assert_eq!(usize_to_string(10), "10");
    assert_eq!(usize_to_string(907), "907");
    assert_eq!(usize_to_string(100000), "100000");
}

#[test]
fn summary_line_formats_both_counts() {
    assert_eq!(summary_line(Counts { dirs: 1, files: 2 }), "\n1 directories, 2 files");
    assert_eq!(summary_line(Counts { dirs: 0, files: 0 }), "\n0 directories, 0 files");
}

#[test]
fn aggregate_sums_fieldwise() {
    let totals = aggregate(&vec![
        Counts { dirs: 1, files: 2 },
        Counts { dirs: 0, files: 0 },
        Counts { dirs: 3, files: 4 },
    ]);
    assert_eq!(totals, Counts { dirs: 4, files: 6 });
    assert_eq!(aggregate(&vec![]), Counts { dirs: 0, files: 0 });
}

#[test]
fn counts_add_is_commutative() {
    let a = Counts { dirs: 1, files: 2 };
    let b = Counts { dirs: 3, files: 5 };
    assert_eq!(a.add(b), b.add(a));
    assert_eq!(a.add(b), Counts { dirs: 4, files: 7 });
}

#[test]
fn visible_sorted_indices_points_at_sorted_visible_entries() {
    let entries = vec![file("c"), file(".h"), file("a")];
    let idxs = visible_sorted_indices(&entries);
    assert_eq!(idxs, vec![2, 0]);
}

#[test]
fn name_lt_orders_multibyte_names_by_code_point() {
    assert!(name_lt("z", "\u{e9}clair"));
    assert!(!name_lt("\u{e9}clair", "z"));
}
