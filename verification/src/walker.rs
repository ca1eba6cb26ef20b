use vstd::prelude::*;

use crate::counts::Counts;
use crate::lister::{
    lemma_sort_entries_len, lemma_sort_entries_members, lemma_sort_entries_size,
    lemma_visible_not_hidden, lemma_visible_push_hidden, lemma_visible_size, list_model, picked,
    visible, visible_sorted_indices,
};
use crate::prefix::{build_prefix, lemma_prefix_model_len, prefix_model};
use crate::tree::{children_size, is_hidden, lemma_subtree_size_pos, subtree_size, Entry, Node};

verus! {

broadcast use vstd::std_specs::vec::group_vec_axioms, vstd::seq::axiom_seq_index_decreases;

/// One line of the diagram, still unstyled: where the line sits (prefix and
/// sibling position), the base name it shows, and the full path of the
/// entry, kept for the caller's styling lookup.
pub struct LineItem {
    pub prefix: String,
    pub last: bool,
    pub name: String,
    pub path: String,
}

/// Mathematical model of one line.
pub struct ItemModel {
    pub prefix: Seq<char>,
    pub last: bool,
    pub name: Seq<char>,
    pub path: Seq<char>,
}

impl View for LineItem {
    type V = ItemModel;

    open spec fn view(&self) -> ItemModel {
        ItemModel { prefix: self.prefix@, last: self.last, name: self.name@, path: self.path@ }
    }
}

/// The models of a vector of lines.
pub open spec fn items_view(s: Seq<LineItem>) -> Seq<ItemModel> {
    s.map_values(|li: LineItem| li@)
}

/// The path of a child entry: the directory's path, a separator, then the
/// child's base name.
pub open spec fn child_path(dir: Seq<char>, name: Seq<char>) -> Seq<char> {
    dir + "/"@ + name
}

/// What a traversal produces: the emitted lines in order, and the counts
/// of directories and files among them.
#[verifier::ext_equal]
pub struct WalkOut {
    pub items: Seq<ItemModel>,
    pub dirs: nat,
    pub files: nat,
}

/// The result of a traversal that emits nothing.
pub open spec fn walk_empty() -> WalkOut {
    WalkOut { items: Seq::empty(), dirs: 0, files: 0 }
}

/// The traversal of one directory, given its raw children `cs`, the
/// directory's path, the stack of ancestor sibling flags, the current depth
/// and the depth limit: nothing at or past the limit, otherwise the visible
/// children, sorted by name, walked in order.
pub open spec fn walk_node(
    cs: Seq<Entry>,
    path: Seq<char>,
    verts: Seq<bool>,
    dist: nat,
    limit: nat,
) -> WalkOut
    decreases children_size(cs), 1int,
{
    if dist >= limit {
        walk_empty()
    } else {
        proof {
            lemma_sort_entries_size(visible(cs));
            lemma_visible_size(cs);
        }
        walk_siblings(list_model(cs), path, verts, dist, limit)
    }
}

/// Walks the sorted visible siblings `es` that remain to be rendered in one
/// directory: each contributes one line; a directory also contributes its
/// subtree, walked one level deeper with its sibling flag pushed, and the
/// flag is popped again before the next sibling.
pub open spec fn walk_siblings(
    es: Seq<Entry>,
    path: Seq<char>,
    verts: Seq<bool>,
    dist: nat,
    limit: nat,
) -> WalkOut
    decreases children_size(es), 0int,
{
    if es.len() == 0 {
        walk_empty()
    } else {
        proof {
            lemma_subtree_size_pos(es[0].node);
        }
        let e = es[0];
        let is_last = es.len() == 1;
        let item = ItemModel {
            prefix: prefix_model(verts),
            last: is_last,
            name: e.name@,
            path: child_path(path, e.name@),
        };
        let rest = walk_siblings(es.drop_first(), path, verts, dist, limit);
        match e.node {
            Node::File => WalkOut {
                items: seq![item] + rest.items,
                dirs: rest.dirs,
                files: rest.files + 1,
            },
            Node::Dir(cs0) => {
                let sub = walk_node(
                    cs0@,
                    child_path(path, e.name@),
                    verts.push(!is_last),
                    dist + 1,
                    limit,
                );
                WalkOut {
                    items: seq![item] + sub.items + rest.items,
                    dirs: rest.dirs + sub.dirs + 1,
                    files: rest.files + sub.files,
                }
            },
        }
    }
}

/// Each emitted line is either a directory or a file, so the two counts sum
/// to the number of lines.
pub proof fn lemma_walk_node_counts(
    cs: Seq<Entry>,
    path: Seq<char>,
    verts: Seq<bool>,
    dist: nat,
    limit: nat,
)
    ensures
        ({
            let w = walk_node(cs, path, verts, dist, limit);
            w.dirs + w.files == w.items.len()
        }),
    decreases children_size(cs), 1int,
{
    if dist < limit {
        lemma_sort_entries_size(visible(cs));
        lemma_visible_size(cs);
        lemma_walk_siblings_counts(list_model(cs), path, verts, dist, limit);
    }
}

pub proof fn lemma_walk_siblings_counts(
    es: Seq<Entry>,
    path: Seq<char>,
    verts: Seq<bool>,
    dist: nat,
    limit: nat,
)
    ensures
        ({
            let w = walk_siblings(es, path, verts, dist, limit);
            w.dirs + w.files == w.items.len()
        }),
    decreases children_size(es), 0int,
{
    if es.len() > 0 {
        lemma_subtree_size_pos(es[0].node);
        lemma_walk_siblings_counts(es.drop_first(), path, verts, dist, limit);
        let is_last = es.len() == 1;
        match es[0].node {
            Node::File => {},
            Node::Dir(cs0) => {
                lemma_walk_node_counts(
                    cs0@,
                    child_path(path, es[0].name@),
                    verts.push(!is_last),
                    dist + 1,
                    limit,
                );
            },
        }
    }
}

proof fn lemma_items_view_concat(a: Seq<LineItem>, b: Seq<LineItem>)
    ensures
        items_view(a + b) == items_view(a) + items_view(b),
{
    assert(items_view(a + b) =~= items_view(a) + items_view(b));
}

proof fn lemma_items_view_skip(s: Seq<LineItem>, i: int)
    requires
        0 <= i <= s.len(),
    ensures
        items_view(s.skip(i)) == items_view(s).skip(i),
{
    assert(items_view(s.skip(i)) =~= items_view(s).skip(i));
}

/// Renders the subtree of the directory `dir` (whose own label the caller
/// prints): appends one line per visible entry to `out`, in sorted
/// pre-order, and returns the counts of directories and files among them.
/// The stack of ancestor flags is restored to its state before the call.
pub fn tree_dir(
    dir: &Node,
    path: &str,
    dist: usize,
    verts: &mut Vec<bool>,
    depth_limit: usize,
    out: &mut Vec<LineItem>,
) -> (counts: Counts)
    requires
        *dir is Dir,
    ensures
        ({
            let w = walk_node(dir->Dir_0@, path@, old(verts)@, dist as nat, depth_limit as nat);
            &&& items_view(final(out)@) == items_view(old(out)@) + w.items
            &&& counts.dirs == w.dirs
            &&& counts.files == w.files
        }),
        final(out)@.len() >= old(out)@.len(),
        final(out)@.take(old(out)@.len() as int) == old(out)@,
        final(verts)@ == old(verts)@,
    decreases subtree_size(*dir),
{
    let ghost w = walk_node(dir->Dir_0@, path@, verts@, dist as nat, depth_limit as nat);
    if dist >= depth_limit {
        proof {
            assert(items_view(out@) + w.items =~= items_view(out@));
            assert(out@.take(out@.len() as int) =~= out@);
        }
        return Counts { dirs: 0, files: 0 };
    }
    let cs = match dir {
        Node::Dir(cs) => cs,
        Node::File => vstd::pervasive::unreached(),
    };
    let ghost out0 = out@;
    let ghost verts0 = verts@;
    let ghost start: int = out@.len() as int;
    let idxs = visible_sorted_indices(cs);
    let prefix = build_prefix(verts);
    let ghost sorted0 = list_model(cs@);
    let ghost w0 = walk_siblings(sorted0, path@, verts0, dist as nat, depth_limit as nat);
    let mut dc: usize = 0;
    let mut fc: usize = 0;
    let mut t: usize = 0;
    let n_idx = idxs.len();
    proof {
        assert(*dir == Node::Dir(*cs));
        assert(w == w0);
        assert(sorted0.len() == idxs@.len());
        assert(sorted0.skip(0) =~= sorted0);
        assert(out@.skip(start) =~= Seq::<LineItem>::empty());
        assert(items_view(Seq::<LineItem>::empty()) =~= Seq::<ItemModel>::empty());
        assert(Seq::<ItemModel>::empty() + w0.items =~= w0.items);
        assert(out@.take(start) =~= out0);
    }
    while t < n_idx
        invariant
            t <= n_idx,
            n_idx == idxs@.len(),
            dist < depth_limit,
            *dir is Dir,
            *dir == Node::Dir(*cs),
            picked(cs@, idxs@) == sorted0,
            forall|k: int| 0 <= k < idxs@.len() ==> idxs@[k] < cs@.len(),
            sorted0 == list_model(cs@),
            sorted0.len() == n_idx,
            verts@ == verts0,
            prefix@ == prefix_model(verts0),
            start == out0.len(),
            start <= out@.len(),
            out@.take(start) == out0,
            dc + fc == out@.len() - start,
            ({
                let rem = walk_siblings(
                    sorted0.skip(t as int),
                    path@,
                    verts0,
                    dist as nat,
                    depth_limit as nat,
                );
                &&& w0.items == items_view(out@.skip(start)) + rem.items
                &&& w0.dirs == dc + rem.dirs
                &&& w0.files == fc + rem.files
            }),
        decreases n_idx - t,
    {
        let ghost out_pre = out@;
        let ghost rest_pre = sorted0.skip(t as int);
        let ghost rem_pre = walk_siblings(rest_pre, path@, verts0, dist as nat, depth_limit as nat);
        let j = idxs[t];
        let is_last = t == n_idx - 1;
        let ghost e = cs@[j as int];
        proof {
            assert(rest_pre.len() == sorted0.len() - t);
            assert(rest_pre[0] == sorted0[t as int]);
            assert(sorted0[t as int] == e);
            assert(rest_pre.drop_first() =~= sorted0.skip(t + 1));
            assert((rest_pre.len() == 1) == is_last);
            lemma_subtree_size_pos(e.node);
        }
        let ghost rest_rem = walk_siblings(
            sorted0.skip(t + 1),
            path@,
            verts0,
            dist as nat,
            depth_limit as nat,
        );
        let ghost item0 = ItemModel {
            prefix: prefix_model(verts0),
            last: is_last,
            name: e.name@,
            path: child_path(path@, e.name@),
        };
        let entry = &cs[j];
        let name = entry.name.clone();
        let mut cpath = path.to_owned();
        cpath.append("/");
        cpath.append(name.as_str());
        proof {
            assert(name@ == e.name@);
            assert(cpath@ == child_path(path@, e.name@));
        }
        match &entry.node {
            Node::File => {
                out.push(
                    LineItem { prefix: prefix.clone(), last: is_last, name, path: cpath },
                );
                let n = out.len();
                proof {
                    assert(out@.last()@ == item0);
                    assert(out@.take(start) =~= out_pre.take(start));
                    assert(items_view(out@.skip(start)) =~= items_view(out_pre.skip(start)).push(
                        item0,
                    ));
                    assert(rem_pre.items == seq![item0] + rest_rem.items);
                    assert(rem_pre.files == rest_rem.files + 1);
                    assert(rem_pre.dirs == rest_rem.dirs);
                    assert(items_view(out_pre.skip(start)).push(item0) =~= items_view(
                        out_pre.skip(start),
                    ) + seq![item0]);
                    assert(w0.items =~= items_view(out@.skip(start)) + rest_rem.items);
                    assert(dc + fc + 1 == n - start);
                }
                fc = fc + 1;
            },
            Node::Dir(_) => {
                out.push(
                    LineItem {
                        prefix: prefix.clone(),
                        last: is_last,
                        name: name.clone(),
                        path: cpath.clone(),
                    },
                );
                let ghost out_mid = out@;
                verts.push(!is_last);
                proof {
                    assert(out_mid.last()@ == item0);
                    assert(verts@ == verts0.push(!is_last));
                    crate::tree::lemma_child_size(cs@, j as int);
                    assert(subtree_size(e.node) <= children_size(cs@));
                    assert(subtree_size(*dir) == 1 + children_size(cs@));
                    assert(subtree_size(entry.node) < subtree_size(*dir));
                }
                let sub = tree_dir(&entry.node, cpath.as_str(), dist + 1, verts, depth_limit, out);
                verts.pop();
                let n = out.len();
                proof {
                    let sub0 = walk_node(
                        entry.node->Dir_0@,
                        child_path(path@, e.name@),
                        verts0.push(!is_last),
                        (dist + 1) as nat,
                        depth_limit as nat,
                    );
                    assert(entry.node == e.node);
                    assert(verts0.push(!is_last).drop_last() =~= verts0);
                    assert(rem_pre.items == seq![item0] + sub0.items + rest_rem.items);
                    assert(rem_pre.dirs == rest_rem.dirs + sub0.dirs + 1);
                    assert(rem_pre.files == rest_rem.files + sub0.files);
                    lemma_walk_node_counts(
                        entry.node->Dir_0@,
                        child_path(path@, e.name@),
                        verts0.push(!is_last),
                        (dist + 1) as nat,
                        depth_limit as nat,
                    );
                    // the lines now in out: the old ones, the entry's own
                    // line, then the subtree's lines
                    assert(out@.take(out_mid.len() as int) == out_mid);
                    assert(out@.take(start) =~= out_mid.take(start));
                    assert(out_mid.take(start) =~= out_pre.take(start));
                    assert(items_view(out@) == items_view(out_mid) + sub0.items);
                    lemma_items_view_skip(out@, start);
                    lemma_items_view_skip(out_mid, start);
                    lemma_items_view_skip(out_pre, start);
                    assert(items_view(out_mid) =~= items_view(out_pre).push(item0));
                    assert(items_view(out@).skip(start) =~= items_view(out_pre).skip(start)
                        + seq![item0] + sub0.items);
                    assert(items_view(out@.skip(start)) =~= items_view(out_pre.skip(start))
                        + seq![item0] + sub0.items);
                    assert(w0.items =~= items_view(out@.skip(start)) + rest_rem.items);
                    assert(dc + fc + 1 + sub0.dirs + sub0.files == n - start);
                    assert(sub.dirs == sub0.dirs && sub.files == sub0.files);
                }
                dc = dc + 1;
                dc = dc + sub.dirs;
                fc = fc + sub.files;
            },
        }
        t = t + 1;
    }
    proof {
        assert(sorted0.skip(n_idx as int) =~= Seq::<Entry>::empty());
        let rem = walk_siblings(Seq::<Entry>::empty(), path@, verts0, dist as nat, depth_limit as nat);
        assert(rem == walk_empty());
        assert(w0.items == items_view(out@.skip(start)));
        assert(out@ =~= out@.take(start) + out@.skip(start));
        lemma_items_view_concat(out@.take(start), out@.skip(start));
        assert(items_view(out@) == items_view(out0) + w0.items);
    }
    Counts { dirs: dc, files: fc }
}

/// Walks one root directory: returns the lines below the root, in emission
/// order, and the counts for its subtree. The root's own label line is not
/// among them; the caller prints it first.
pub fn print_tree(dir: &Node, path: &str, depth_limit: usize) -> (r: (Vec<LineItem>, Counts))
    requires
        *dir is Dir,
    ensures
        ({
            let w = walk_node(dir->Dir_0@, path@, Seq::empty(), 0, depth_limit as nat);
            &&& items_view(r.0@) == w.items
            &&& r.1.dirs == w.dirs
            &&& r.1.files == w.files
        }),
{
    let mut verts: Vec<bool> = Vec::new();
    let mut out: Vec<LineItem> = Vec::new();
    let c = tree_dir(dir, path, 0, &mut verts, depth_limit, &mut out);
    proof {
        let w = walk_node(dir->Dir_0@, path@, Seq::empty(), 0, depth_limit as nat);
        assert(items_view(Seq::<LineItem>::empty()) =~= Seq::<ItemModel>::empty());
        assert(Seq::<ItemModel>::empty() + w.items =~= w.items);
    }
    (out, c)
}


/// Whether a line sits directly at the level whose prefix is `d` columns
/// deep.
pub open spec fn at_depth(d: nat) -> spec_fn(ItemModel) -> bool {
    |it: ItemModel| it.prefix.len() == 4 * d
}

/// How many lines sit directly at depth `d`.
pub open spec fn lines_at_depth(items: Seq<ItemModel>, d: nat) -> nat {
    items.filter(at_depth(d)).len()
}

/// A line's prefix width lies within `levels` levels below depth `d`.
pub open spec fn depth_in_range(it: ItemModel, d: nat, levels: int) -> bool {
    4 * d <= it.prefix.len() < 4 * d + 4 * levels
}

proof fn lemma_filter_none(s: Seq<ItemModel>, p: spec_fn(ItemModel) -> bool)
    requires
        forall|k: int| 0 <= k < s.len() ==> !p(s[k]),
    ensures
        s.filter(p).len() == 0,
    decreases s.len(),
{
    reveal_with_fuel(Seq::filter, 2);
    if s.len() > 0 {
        lemma_filter_none(s.drop_last(), p);
    }
}

proof fn lemma_filter_single(x: ItemModel, p: spec_fn(ItemModel) -> bool)
    requires
        p(x),
    ensures
        seq![x].filter(p) == seq![x],
{
    reveal_with_fuel(Seq::filter, 2);
    assert(seq![x].drop_last() =~= Seq::<ItemModel>::empty());
    assert(seq![x].filter(p) =~= seq![x]);
}

/// The traversal never renders below the depth limit: every emitted line
/// sits at most `limit - dist - 1` levels below the current one.
pub proof fn lemma_walk_node_depth_bounds(
    cs: Seq<Entry>,
    path: Seq<char>,
    verts: Seq<bool>,
    dist: nat,
    limit: nat,
)
    ensures
        ({
            let w = walk_node(cs, path, verts, dist, limit);
            forall|k: int|
                0 <= k < w.items.len() ==> depth_in_range(
                    #[trigger] w.items[k],
                    verts.len(),
                    limit - dist,
                )
        }),
    decreases children_size(cs), 1int,
{
    if dist < limit {
        lemma_sort_entries_size(visible(cs));
        lemma_visible_size(cs);
        lemma_walk_siblings_depth_bounds(list_model(cs), path, verts, dist, limit);
        assert(walk_node(cs, path, verts, dist, limit) == walk_siblings(
            list_model(cs),
            path,
            verts,
            dist,
            limit,
        ));
    }
}

pub proof fn lemma_walk_siblings_depth_bounds(
    es: Seq<Entry>,
    path: Seq<char>,
    verts: Seq<bool>,
    dist: nat,
    limit: nat,
)
    requires
        dist < limit,
    ensures
        ({
            let w = walk_siblings(es, path, verts, dist, limit);
            forall|k: int|
                0 <= k < w.items.len() ==> depth_in_range(
                    #[trigger] w.items[k],
                    verts.len(),
                    limit - dist,
                )
        }),
    decreases children_size(es), 0int,
{
    if es.len() > 0 {
        let w = walk_siblings(es, path, verts, dist, limit);
        let is_last = es.len() == 1;
        lemma_subtree_size_pos(es[0].node);
        lemma_walk_siblings_depth_bounds(es.drop_first(), path, verts, dist, limit);
        lemma_prefix_model_len(verts);
        let rest = walk_siblings(es.drop_first(), path, verts, dist, limit);
        match es[0].node {
            Node::File => {
                assert forall|k: int| 0 <= k < w.items.len() implies depth_in_range(
                    #[trigger] w.items[k],
                    verts.len(),
                    limit - dist,
                ) by {
                    if k > 0 {
                        assert(w.items[k] == rest.items[k - 1]);
                    }
                }
            },
            Node::Dir(cs0) => {
                let cp = child_path(path, es[0].name@);
                lemma_walk_node_depth_bounds(cs0@, cp, verts.push(!is_last), dist + 1, limit);
                let sub = walk_node(cs0@, cp, verts.push(!is_last), dist + 1, limit);
                assert forall|k: int| 0 <= k < w.items.len() implies depth_in_range(
                    #[trigger] w.items[k],
                    verts.len(),
                    limit - dist,
                ) by {
                    if 0 < k < 1 + sub.items.len() {
                        assert(w.items[k] == sub.items[k - 1]);
                        assert(depth_in_range(sub.items[k - 1], verts.push(!is_last).len(), limit - dist - 1));
                    } else if k >= 1 + sub.items.len() {
                        assert(w.items[k] == rest.items[k - 1 - sub.items.len()]);
                    }
                }
            },
        }
    }
}

/// Directly under one directory there is exactly one line per visible
/// immediate child, whatever deeper levels add.
pub proof fn lemma_walk_level_count(
    cs: Seq<Entry>,
    path: Seq<char>,
    verts: Seq<bool>,
    dist: nat,
    limit: nat,
)
    requires
        dist < limit,
    ensures
        lines_at_depth(walk_node(cs, path, verts, dist, limit).items, verts.len()) == visible(
            cs,
        ).len(),
{
    lemma_sort_entries_size(visible(cs));
    lemma_visible_size(cs);
    lemma_sort_entries_len(visible(cs));
    lemma_walk_siblings_level_count(list_model(cs), path, verts, dist, limit);
}

pub proof fn lemma_walk_siblings_level_count(
    es: Seq<Entry>,
    path: Seq<char>,
    verts: Seq<bool>,
    dist: nat,
    limit: nat,
)
    requires
        dist < limit,
    ensures
        lines_at_depth(walk_siblings(es, path, verts, dist, limit).items, verts.len()) == es.len(),
    decreases children_size(es), 0int,
{
    let d = verts.len();
    let p = at_depth(d);
    if es.len() == 0 {
        lemma_filter_none(walk_empty().items, p);
    } else {
        let w = walk_siblings(es, path, verts, dist, limit);
        let is_last = es.len() == 1;
        lemma_subtree_size_pos(es[0].node);
        lemma_walk_siblings_level_count(es.drop_first(), path, verts, dist, limit);
        lemma_prefix_model_len(verts);
        let rest = walk_siblings(es.drop_first(), path, verts, dist, limit);
        let item0 = ItemModel {
            prefix: prefix_model(verts),
            last: is_last,
            name: es[0].name@,
            path: child_path(path, es[0].name@),
        };
        lemma_filter_single(item0, p);
        match es[0].node {
            Node::File => {
                Seq::filter_distributes_over_add(seq![item0], rest.items, p);
            },
            Node::Dir(cs0) => {
                let cp = child_path(path, es[0].name@);
                lemma_walk_node_depth_bounds(cs0@, cp, verts.push(!is_last), dist + 1, limit);
                let sub = walk_node(cs0@, cp, verts.push(!is_last), dist + 1, limit);
                assert forall|k: int| 0 <= k < sub.items.len() implies !p(sub.items[k]) by {
                    assert(depth_in_range(sub.items[k], d + 1, limit - dist - 1));
                }
                lemma_filter_none(sub.items, p);
                Seq::filter_distributes_over_add(seq![item0] + sub.items, rest.items, p);
                Seq::filter_distributes_over_add(seq![item0], sub.items, p);
                assert(w.items == (seq![item0] + sub.items) + rest.items);
            },
        }
    }
}

/// At or past the depth limit nothing is listed and nothing is counted.
pub proof fn lemma_walk_depth_exhausted(
    cs: Seq<Entry>,
    path: Seq<char>,
    verts: Seq<bool>,
    dist: nat,
    limit: nat,
)
    requires
        dist >= limit,
    ensures
        walk_node(cs, path, verts, dist, limit) == walk_empty(),
{
}

/// With exactly one level left, the visible immediate children are listed,
/// one line each at the current level, and nothing of theirs.
pub proof fn lemma_walk_one_level(
    cs: Seq<Entry>,
    path: Seq<char>,
    verts: Seq<bool>,
    dist: nat,
    limit: nat,
)
    requires
        dist + 1 == limit,
    ensures
        ({
            let w = walk_node(cs, path, verts, dist, limit);
            &&& w.items.len() == visible(cs).len()
            &&& forall|k: int|
                0 <= k < w.items.len() ==> (#[trigger] w.items[k]).prefix == prefix_model(verts)
        }),
{
    lemma_sort_entries_size(visible(cs));
    lemma_visible_size(cs);
    lemma_sort_entries_len(visible(cs));
    lemma_walk_siblings_one_level(list_model(cs), path, verts, dist, limit);
}

pub proof fn lemma_walk_siblings_one_level(
    es: Seq<Entry>,
    path: Seq<char>,
    verts: Seq<bool>,
    dist: nat,
    limit: nat,
)
    requires
        dist + 1 == limit,
    ensures
        ({
            let w = walk_siblings(es, path, verts, dist, limit);
            &&& w.items.len() == es.len()
            &&& forall|k: int|
                0 <= k < w.items.len() ==> (#[trigger] w.items[k]).prefix == prefix_model(verts)
        }),
    decreases children_size(es), 0int,
{
    if es.len() > 0 {
        let w = walk_siblings(es, path, verts, dist, limit);
        let is_last = es.len() == 1;
        lemma_subtree_size_pos(es[0].node);
        lemma_walk_siblings_one_level(es.drop_first(), path, verts, dist, limit);
        let rest = walk_siblings(es.drop_first(), path, verts, dist, limit);
        match es[0].node {
            Node::File => {
                assert forall|k: int| 0 <= k < w.items.len() implies (
                #[trigger] w.items[k]).prefix == prefix_model(verts) by {
                    if k > 0 {
                        assert(w.items[k] == rest.items[k - 1]);
                    }
                }
            },
            Node::Dir(cs0) => {
                let cp = child_path(path, es[0].name@);
                lemma_walk_depth_exhausted(cs0@, cp, verts.push(!is_last), dist + 1, limit);
                let sub = walk_node(cs0@, cp, verts.push(!is_last), dist + 1, limit);
                assert(sub.items.len() == 0);
                assert forall|k: int| 0 <= k < w.items.len() implies (
                #[trigger] w.items[k]).prefix == prefix_model(verts) by {
                    if k > 0 {
                        assert(w.items[k] == rest.items[k - 1]);
                    }
                }
            },
        }
    }
}

/// A hidden entry contributes nothing: adding one to a directory's children
/// changes neither the emitted lines nor the counts.
pub proof fn lemma_hidden_entry_excluded(
    cs: Seq<Entry>,
    h: Entry,
    path: Seq<char>,
    verts: Seq<bool>,
    dist: nat,
    limit: nat,
)
    requires
        is_hidden(h.name@),
    ensures
        walk_node(cs.push(h), path, verts, dist, limit) == walk_node(cs, path, verts, dist, limit),
{
    lemma_visible_push_hidden(cs, h);
    assert(list_model(cs.push(h)) == list_model(cs));
    if dist >= limit {
        assert(walk_node(cs.push(h), path, verts, dist, limit) == walk_empty());
        assert(walk_node(cs, path, verts, dist, limit) == walk_empty());
    } else {
        assert(walk_node(cs.push(h), path, verts, dist, limit) == walk_siblings(
            list_model(cs),
            path,
            verts,
            dist,
            limit,
        ));
        assert(walk_node(cs, path, verts, dist, limit) == walk_siblings(
            list_model(cs),
            path,
            verts,
            dist,
            limit,
        ));
    }
}

/// No emitted line shows a hidden name.
pub proof fn lemma_walk_node_no_hidden(
    cs: Seq<Entry>,
    path: Seq<char>,
    verts: Seq<bool>,
    dist: nat,
    limit: nat,
)
    ensures
        ({
            let w = walk_node(cs, path, verts, dist, limit);
            forall|k: int|
                0 <= k < w.items.len() ==> !is_hidden((#[trigger] w.items[k]).name)
        }),
    decreases children_size(cs), 1int,
{
    if dist < limit {
        lemma_sort_entries_size(visible(cs));
        lemma_visible_size(cs);
        let es = list_model(cs);
        assert forall|k: int| 0 <= k < es.len() implies !is_hidden(es[k].name@) by {
            lemma_sort_entries_members(visible(cs), k);
            let k2 = choose|k2: int|
                0 <= k2 < visible(cs).len() && visible(cs)[k2] == es[k];
            lemma_visible_not_hidden(cs, k2);
        }
        lemma_walk_siblings_no_hidden(es, path, verts, dist, limit);
        assert(walk_node(cs, path, verts, dist, limit) == walk_siblings(es, path, verts, dist, limit));
    }
}

pub proof fn lemma_walk_siblings_no_hidden(
    es: Seq<Entry>,
    path: Seq<char>,
    verts: Seq<bool>,
    dist: nat,
    limit: nat,
)
    requires
        forall|k: int| 0 <= k < es.len() ==> !is_hidden((#[trigger] es[k]).name@),
    ensures
        ({
            let w = walk_siblings(es, path, verts, dist, limit);
            forall|k: int|
                0 <= k < w.items.len() ==> !is_hidden((#[trigger] w.items[k]).name)
        }),
    decreases children_size(es), 0int,
{
    if es.len() > 0 {
        let w = walk_siblings(es, path, verts, dist, limit);
        let is_last = es.len() == 1;
        lemma_subtree_size_pos(es[0].node);
        assert(forall|k: int|
            0 <= k < es.drop_first().len() ==> !is_hidden((#[trigger] es.drop_first()[k]).name@));
        lemma_walk_siblings_no_hidden(es.drop_first(), path, verts, dist, limit);
        let rest = walk_siblings(es.drop_first(), path, verts, dist, limit);
        match es[0].node {
            Node::File => {
                assert forall|k: int| 0 <= k < w.items.len() implies !is_hidden(
                    (#[trigger] w.items[k]).name,
                ) by {
                    if k > 0 {
                        assert(w.items[k] == rest.items[k - 1]);
                    }
                }
            },
            Node::Dir(cs0) => {
                let cp = child_path(path, es[0].name@);
                lemma_walk_node_no_hidden(cs0@, cp, verts.push(!is_last), dist + 1, limit);
                let sub = walk_node(cs0@, cp, verts.push(!is_last), dist + 1, limit);
                assert forall|k: int| 0 <= k < w.items.len() implies !is_hidden(
                    (#[trigger] w.items[k]).name,
                ) by {
                    if 0 < k < 1 + sub.items.len() {
                        assert(w.items[k] == sub.items[k - 1]);
                    } else if k >= 1 + sub.items.len() {
                        assert(w.items[k] == rest.items[k - 1 - sub.items.len()]);
                    }
                }
            },
        }
    }
}

} // verus!
