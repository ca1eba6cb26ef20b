use vstd::prelude::*;

use vstd::multiset::Multiset;
use crate::order::{lemma_lex_connex, lemma_lex_lt_asym, lemma_lex_lt_trans, lex_lt, name_lt};
use crate::tree::{children_size, is_hidden, lemma_children_size_push, subtree_size, Entry};

verus! {

broadcast use vstd::std_specs::vec::group_vec_axioms, vstd::seq::axiom_seq_index_decreases;

/// The visible entries of a listing: those whose base name is not hidden,
/// in their original order.
pub open spec fn visible(cs: Seq<Entry>) -> Seq<Entry> {
    cs.filter(|e: Entry| !is_hidden(e.name@))
}

/// Inserts an entry into a name-sorted sequence, after every entry whose
/// name does not come strictly after the new one.
pub open spec fn insert_sorted(e: Entry, s: Seq<Entry>) -> Seq<Entry>
    decreases s.len(),
{
    if s.len() == 0 {
        seq![e]
    } else if lex_lt(e.name@, s[0].name@) {
        seq![e] + s
    } else {
        seq![s[0]] + insert_sorted(e, s.drop_first())
    }
}

/// Sorts a sequence of entries by base name, stably: entries are taken in
/// order and each is placed after the ones already placed that do not come
/// strictly after it.
pub open spec fn sort_entries(s: Seq<Entry>) -> Seq<Entry>
    decreases s.len(),
{
    if s.len() == 0 {
        Seq::empty()
    } else {
        insert_sorted(s.last(), sort_entries(s.drop_last()))
    }
}

/// What listing one directory produces: its visible entries, sorted by name.
pub open spec fn list_model(cs: Seq<Entry>) -> Seq<Entry> {
    sort_entries(visible(cs))
}

/// A sequence of entries is sorted when no entry comes strictly before an
/// earlier one.
pub open spec fn sorted_by_name(s: Seq<Entry>) -> bool {
    forall|i: int, j: int| 0 <= i < j < s.len() ==> !lex_lt(s[j].name@, s[i].name@)
}

pub proof fn lemma_insert_sorted_len(e: Entry, s: Seq<Entry>)
    ensures
        insert_sorted(e, s).len() == s.len() + 1,
    decreases s.len(),
{
    if s.len() > 0 && !lex_lt(e.name@, s[0].name@) {
        lemma_insert_sorted_len(e, s.drop_first());
    }
}

pub proof fn lemma_sort_entries_len(s: Seq<Entry>)
    ensures
        sort_entries(s).len() == s.len(),
    decreases s.len(),
{
    if s.len() > 0 {
        lemma_sort_entries_len(s.drop_last());
        lemma_insert_sorted_len(s.last(), sort_entries(s.drop_last()));
    }
}

/// Every element of the inserted sequence is the new entry or an element of
/// the old one.
pub proof fn lemma_insert_sorted_members(e: Entry, s: Seq<Entry>, i: int)
    requires
        0 <= i < insert_sorted(e, s).len(),
    ensures
        insert_sorted(e, s)[i] == e || exists|k: int| 0 <= k < s.len() && s[k] == insert_sorted(e, s)[i],
    decreases s.len(),
{
    lemma_insert_sorted_len(e, s);
    if s.len() == 0 {
    } else if lex_lt(e.name@, s[0].name@) {
        if i > 0 {
            assert(s[i - 1] == insert_sorted(e, s)[i]);
        }
    } else {
        if i == 0 {
            assert(s[0] == insert_sorted(e, s)[0]);
        } else {
            lemma_insert_sorted_members(e, s.drop_first(), i - 1);
            let t = insert_sorted(e, s.drop_first());
            if t[i - 1] != e {
                let k = choose|k: int| 0 <= k < s.drop_first().len() && s.drop_first()[k] == t[i - 1];
                assert(s[k + 1] == insert_sorted(e, s)[i]);
            }
        }
    }
}

/// Every element of a sorted sequence is an element of the original.
pub proof fn lemma_sort_entries_members(s: Seq<Entry>, i: int)
    requires
        0 <= i < sort_entries(s).len(),
    ensures
        exists|k: int| 0 <= k < s.len() && s[k] == sort_entries(s)[i],
    decreases s.len(),
{
    if s.len() > 0 {
        let rest = sort_entries(s.drop_last());
        lemma_insert_sorted_members(s.last(), rest, i);
        if insert_sorted(s.last(), rest)[i] == s.last() {
            assert(s[s.len() - 1] == sort_entries(s)[i]);
        } else {
            let k = choose|k: int| 0 <= k < rest.len() && rest[k] == sort_entries(s)[i];
            lemma_sort_entries_members(s.drop_last(), k);
            let k2 = choose|k2: int|
                0 <= k2 < s.drop_last().len() && s.drop_last()[k2] == rest[k];
            assert(s[k2] == sort_entries(s)[i]);
        }
    }
}

/// Inserting into a sorted sequence keeps it sorted.
pub proof fn lemma_insert_sorted_sorted(e: Entry, s: Seq<Entry>)
    requires
        sorted_by_name(s),
    ensures
        sorted_by_name(insert_sorted(e, s)),
    decreases s.len(),
{
    let t = insert_sorted(e, s);
    lemma_insert_sorted_len(e, s);
    if s.len() == 0 {
    } else if lex_lt(e.name@, s[0].name@) {
        assert forall|i: int, j: int| 0 <= i < j < t.len() implies !lex_lt(
            t[j].name@,
            t[i].name@,
        ) by {
            if i == 0 {
                // t[j] is s[j-1]; e comes before s[0], which comes no later
                // than s[j-1].
                if j > 1 {
                    assert(!lex_lt(s[j - 1].name@, s[0].name@));
                }
                lemma_lex_lt_asym(e.name@, s[j - 1].name@);
                lemma_lex_lt_trans(s[j - 1].name@, e.name@, s[0].name@);
            }
        }
    } else {
        assert(sorted_by_name(s.drop_first())) by {
            assert(forall|i: int, j: int|
                0 <= i < j < s.drop_first().len() ==> !lex_lt(
                    s.drop_first()[j].name@,
                    s.drop_first()[i].name@,
                ));
        }
        lemma_insert_sorted_sorted(e, s.drop_first());
        let t1 = insert_sorted(e, s.drop_first());
        lemma_insert_sorted_len(e, s.drop_first());
        assert forall|i: int, j: int| 0 <= i < j < t.len() implies !lex_lt(
            t[j].name@,
            t[i].name@,
        ) by {
            if i == 0 {
                // every element of t1 is e or some s[k], and neither comes
                // strictly before s[0].
                lemma_insert_sorted_members(e, s.drop_first(), j - 1);
                if t1[j - 1] == e {
                    lemma_lex_lt_asym(e.name@, s[0].name@);
                } else {
                    let k = choose|k: int|
                        0 <= k < s.drop_first().len() && s.drop_first()[k] == t1[j - 1];
                    assert(s[k + 1] == t1[j - 1]);
                    assert(!lex_lt(s[k + 1].name@, s[0].name@));
                }
            } else {
                assert(t[i] == t1[i - 1] && t[j] == t1[j - 1]);
            }
        }
    }
}

/// The sort produces a sorted sequence.
pub proof fn lemma_sort_entries_sorted(s: Seq<Entry>)
    ensures
        sorted_by_name(sort_entries(s)),
    decreases s.len(),
{
    if s.len() > 0 {
        lemma_sort_entries_sorted(s.drop_last());
        lemma_insert_sorted_sorted(s.last(), sort_entries(s.drop_last()));
    }
}

/// The sort only rearranges: the multiset of entries is unchanged.
pub proof fn lemma_insert_sorted_multiset(e: Entry, s: Seq<Entry>)
    ensures
        insert_sorted(e, s).to_multiset() == s.to_multiset().insert(e),
    decreases s.len(),
{
    broadcast use vstd::seq_lib::group_to_multiset_ensures;

    if s.len() == 0 {
        assert(seq![e] =~= Seq::empty().push(e));
        assert(Seq::<Entry>::empty().to_multiset() =~= Multiset::empty());
    } else if lex_lt(e.name@, s[0].name@) {
        vstd::seq_lib::lemma_multiset_commutative(seq![e], s);
        assert(seq![e].to_multiset() =~= Multiset::empty().insert(e)) by {
            assert(seq![e] =~= Seq::empty().push(e));
            assert(Seq::<Entry>::empty().to_multiset() =~= Multiset::empty());
        }
        assert((seq![e] + s).to_multiset() =~= s.to_multiset().insert(e));
    } else {
        lemma_insert_sorted_multiset(e, s.drop_first());
        vstd::seq_lib::lemma_multiset_commutative(seq![s[0]], insert_sorted(e, s.drop_first()));
        vstd::seq_lib::lemma_multiset_commutative(seq![s[0]], s.drop_first());
        assert(s =~= seq![s[0]] + s.drop_first());
        assert(insert_sorted(e, s).to_multiset() =~= s.to_multiset().insert(e));
    }
}

pub proof fn lemma_sort_entries_multiset(s: Seq<Entry>)
    ensures
        sort_entries(s).to_multiset() == s.to_multiset(),
    decreases s.len(),
{
    broadcast use vstd::seq_lib::group_to_multiset_ensures;

    if s.len() > 0 {
        lemma_sort_entries_multiset(s.drop_last());
        lemma_insert_sorted_multiset(s.last(), sort_entries(s.drop_last()));
        assert(s =~= s.drop_last().push(s.last()));
        assert(sort_entries(s).to_multiset() =~= s.to_multiset());
    }
}

/// Inserting preserves the summed subtree size.
pub proof fn lemma_insert_sorted_size(e: Entry, s: Seq<Entry>)
    ensures
        children_size(insert_sorted(e, s)) == subtree_size(e.node) + children_size(s),
    decreases s.len(),
{
    if s.len() == 0 {
        assert(seq![e][0] == e);
        assert(seq![e].drop_first() =~= Seq::<Entry>::empty());
        assert(children_size(insert_sorted(e, s)) == subtree_size(e.node) + children_size(
            Seq::<Entry>::empty(),
        ));
    } else if lex_lt(e.name@, s[0].name@) {
        assert((seq![e] + s)[0] == e);
        assert((seq![e] + s).drop_first() =~= s);
        assert(children_size(seq![e] + s) == subtree_size(e.node) + children_size(s));
    } else {
        lemma_insert_sorted_size(e, s.drop_first());
        let t = seq![s[0]] + insert_sorted(e, s.drop_first());
        assert(t[0] == s[0]);
        assert(t.drop_first() =~= insert_sorted(e, s.drop_first()));
        assert(children_size(t) == subtree_size(s[0].node) + children_size(
            insert_sorted(e, s.drop_first()),
        ));
    }
}

/// Sorting preserves the summed subtree size.
pub proof fn lemma_sort_entries_size(s: Seq<Entry>)
    ensures
        children_size(sort_entries(s)) == children_size(s),
    decreases s.len(),
{
    if s.len() > 0 {
        lemma_sort_entries_size(s.drop_last());
        lemma_insert_sorted_size(s.last(), sort_entries(s.drop_last()));
        lemma_children_size_push(s.drop_last(), s.last());
        assert(s =~= s.drop_last().push(s.last()));
    }
}

/// Dropping hidden entries never increases the summed subtree size.
pub proof fn lemma_visible_size(s: Seq<Entry>)
    ensures
        children_size(visible(s)) <= children_size(s),
    decreases s.len(),
{
    reveal_with_fuel(Seq::filter, 2);
    if s.len() > 0 {
        lemma_visible_size(s.drop_last());
        lemma_children_size_push(s.drop_last(), s.last());
        if !is_hidden(s.last().name@) {
            lemma_children_size_push(visible(s.drop_last()), s.last());
        }
        assert(s =~= s.drop_last().push(s.last()));
    } else {
        assert(visible(s) =~= s);
    }
}

/// Appending a hidden entry leaves the visible listing unchanged.
pub proof fn lemma_visible_push_hidden(s: Seq<Entry>, h: Entry)
    requires
        is_hidden(h.name@),
    ensures
        visible(s.push(h)) == visible(s),
{
    reveal_with_fuel(Seq::filter, 2);
    assert(s.push(h).drop_last() =~= s);
    assert(visible(s.push(h)) =~= visible(s));
}

/// Appending a visible entry appends it to the visible listing.
pub proof fn lemma_visible_push_shown(s: Seq<Entry>, e: Entry)
    requires
        !is_hidden(e.name@),
    ensures
        visible(s.push(e)) == visible(s).push(e),
{
    reveal_with_fuel(Seq::filter, 2);
    assert(s.push(e).drop_last() =~= s);
    assert(visible(s.push(e)) =~= visible(s).push(e));
}

/// Inserts an entry into a vector kept sorted by base name, exactly as the
/// specification `insert_sorted` places it.
fn insert_by_name(out: &mut Vec<Entry>, e: Entry)
    ensures
        final(out)@ == insert_sorted(e, old(out)@),
{
    let mut j: usize = 0;
    loop
        invariant
            j <= out@.len(),
            out@ == old(out)@,
            forall|k: int| 0 <= k < j ==> !lex_lt(e.name@, out@[k].name@),
        ensures
            out@ == old(out)@,
            j <= out@.len(),
            forall|k: int| 0 <= k < j ==> !lex_lt(e.name@, out@[k].name@),
            j == out@.len() || lex_lt(e.name@, out@[j as int].name@),
        decreases out@.len() - j,
    {
        if j == out.len() {
            break;
        }
        if name_lt(e.name.as_str(), out[j].name.as_str()) {
            break;
        }
        j = j + 1;
    }
    let ghost pre = out@;
    out.insert(j, e);
    proof {
        lemma_insert_position(e, pre, j as int);
    }
}

/// When the first `j` entries do not come after `e` and the `j`-th does,
/// the specification insert puts `e` exactly at position `j`.
proof fn lemma_insert_position(e: Entry, s: Seq<Entry>, j: int)
    requires
        0 <= j <= s.len(),
        forall|k: int| 0 <= k < j ==> !lex_lt(e.name@, s[k].name@),
        j == s.len() || lex_lt(e.name@, s[j].name@),
    ensures
        insert_sorted(e, s) == s.insert(j, e),
    decreases s.len(),
{
    if s.len() == 0 {
        assert(insert_sorted(e, s) =~= s.insert(0, e));
    } else if j == 0 {
        assert(insert_sorted(e, s) =~= s.insert(0, e));
    } else {
        lemma_insert_position(e, s.drop_first(), j - 1);
        assert(insert_sorted(e, s) =~= s.insert(j, e)) by {
            assert(insert_sorted(e, s) == seq![s[0]] + insert_sorted(e, s.drop_first()));
        }
    }
}

/// Every entry of the visible listing is itself visible: no hidden name
/// survives the filter.
pub proof fn lemma_visible_not_hidden(s: Seq<Entry>, k: int)
    requires
        0 <= k < visible(s).len(),
    ensures
        !is_hidden(visible(s)[k].name@),
    decreases s.len(),
{
    if s.len() > 0 {
        assert(s =~= s.drop_last().push(s.last()));
        if is_hidden(s.last().name@) {
            lemma_visible_push_hidden(s.drop_last(), s.last());
            lemma_visible_not_hidden(s.drop_last(), k);
        } else {
            lemma_visible_push_shown(s.drop_last(), s.last());
            if k < visible(s.drop_last()).len() {
                lemma_visible_not_hidden(s.drop_last(), k);
            }
        }
    } else {
        reveal_with_fuel(Seq::filter, 2);
    }
}

/// Among visible siblings with distinct names, one is listed before the
/// other exactly when its name comes first in the lexicographic order.
pub proof fn lemma_list_order_iff(cs: Seq<Entry>, i: int, j: int)
    requires
        0 <= i < list_model(cs).len(),
        0 <= j < list_model(cs).len(),
        list_model(cs)[i].name@ != list_model(cs)[j].name@,
    ensures
        i < j <==> lex_lt(list_model(cs)[i].name@, list_model(cs)[j].name@),
{
    lemma_sort_entries_sorted(visible(cs));
    let r = list_model(cs);
    if i < j {
        if !lex_lt(r[i].name@, r[j].name@) {
            lemma_lex_connex(r[i].name@, r[j].name@);
        }
    } else if j < i {
        lemma_lex_lt_asym(r[i].name@, r[j].name@);
    }
}

/// The entries of `cs` that a sequence of indices picks out, in order.
pub open spec fn picked(cs: Seq<Entry>, idxs: Seq<usize>) -> Seq<Entry> {
    idxs.map_values(|j: usize| cs[j as int])
}

/// Inserts the index `i` into `out`, which is kept sorted by the names of
/// the entries it points at, exactly where the specification insert places
/// the entry itself.
fn insert_index(out: &mut Vec<usize>, cs: &Vec<Entry>, i: usize)
    requires
        i < cs@.len(),
        forall|k: int| 0 <= k < old(out)@.len() ==> old(out)@[k] < cs@.len(),
    ensures
        picked(cs@, final(out)@) == insert_sorted(cs@[i as int], picked(cs@, old(out)@)),
        forall|k: int| 0 <= k < final(out)@.len() ==> final(out)@[k] < cs@.len(),
{
    let mut p: usize = 0;
    loop
        invariant
            p <= out@.len(),
            out@ == old(out)@,
            i < cs@.len(),
            forall|k: int| 0 <= k < out@.len() ==> out@[k] < cs@.len(),
            forall|k: int| 0 <= k < p ==> !lex_lt(cs@[i as int].name@, cs@[out@[k] as int].name@),
        ensures
            out@ == old(out)@,
            p <= out@.len(),
            forall|k: int| 0 <= k < p ==> !lex_lt(cs@[i as int].name@, cs@[out@[k] as int].name@),
            p == out@.len() || lex_lt(cs@[i as int].name@, cs@[out@[p as int] as int].name@),
        decreases out@.len() - p,
    {
        if p == out.len() {
            break;
        }
        let j = out[p];
        if name_lt(cs[i].name.as_str(), cs[j].name.as_str()) {
            break;
        }
        p = p + 1;
    }
    let ghost pre = out@;
    let ghost m0 = picked(cs@, pre);
    out.insert(p, i);
    proof {
        assert(picked(cs@, out@) =~= m0.insert(p as int, cs@[i as int]));
        assert(forall|k: int| 0 <= k < p ==> m0[k] == cs@[pre[k] as int]);
        if p < pre.len() {
            assert(m0[p as int] == cs@[pre[p as int] as int]);
        }
        lemma_insert_position(cs@[i as int], m0, p as int);
    }
}

/// Lists one directory by indices into its raw children: the result picks
/// out the visible entries, sorted by base name, ascending.
pub fn visible_sorted_indices(cs: &Vec<Entry>) -> (r: Vec<usize>)
    ensures
        picked(cs@, r@) == list_model(cs@),
        forall|k: int| 0 <= k < r@.len() ==> r@[k] < cs@.len(),
{
    let mut out: Vec<usize> = Vec::new();
    let mut i: usize = 0;
    proof {
        assert(cs@.take(0) =~= Seq::empty());
        assert(visible(Seq::<Entry>::empty()) =~= Seq::<Entry>::empty());
        assert(picked(cs@, Seq::<usize>::empty()) =~= Seq::<Entry>::empty());
    }
    while i < cs.len()
        invariant
            i <= cs@.len(),
            picked(cs@, out@) == list_model(cs@.take(i as int)),
            forall|k: int| 0 <= k < out@.len() ==> out@[k] < cs@.len(),
        decreases cs@.len() - i,
    {
        let hidden = crate::tree::name_is_hidden(cs[i].name.as_str());
        proof {
            assert(cs@.take(i + 1).drop_last() =~= cs@.take(i as int));
            assert(cs@.take(i + 1).last() == cs@[i as int]);
            assert(cs@.take(i + 1) =~= cs@.take(i as int).push(cs@[i as int]));
        }
        if hidden {
            proof {
                lemma_visible_push_hidden(cs@.take(i as int), cs@[i as int]);
            }
        } else {
            proof {
                lemma_visible_push_shown(cs@.take(i as int), cs@[i as int]);
            }
            let ghost vis_pre = visible(cs@.take(i as int));
            insert_index(&mut out, cs, i);
            proof {
                assert(visible(cs@.take(i + 1)) == vis_pre.push(cs@[i as int]));
                assert(vis_pre.push(cs@[i as int]).drop_last() =~= vis_pre);
                assert(vis_pre.push(cs@[i as int]).last() == cs@[i as int]);
                assert(sort_entries(vis_pre.push(cs@[i as int])) == insert_sorted(
                    cs@[i as int],
                    sort_entries(vis_pre),
                ));
            }
        }
        i = i + 1;
    }
    proof {
        assert(cs@.take(cs@.len() as int) =~= cs@);
    }
    out
}

/// Lists one directory: drops hidden entries and sorts the rest by base
/// name, ascending.
pub fn list_visible_sorted(cs: Vec<Entry>) -> (r: Vec<Entry>)
    ensures
        r@ == list_model(cs@),
{
    let ghost orig = cs@;
    let mut rest = cs;
    let mut out: Vec<Entry> = Vec::new();
    proof {
        assert(orig.take(0) =~= Seq::empty());
        assert(visible(Seq::empty()) =~= Seq::<Entry>::empty());
    }
    while rest.len() > 0
        invariant
            rest@.len() <= orig.len(),
            rest@ == orig.skip(orig.len() - rest@.len()),
            out@ == list_model(orig.take(orig.len() - rest@.len())),
        decreases rest@.len(),
    {
        let ghost i = orig.len() - rest@.len();
        let ghost rest_pre = rest@;
        let e = rest.remove(0);
        proof {
            assert(rest_pre == orig.skip(i));
            assert(rest@ == rest_pre.remove(0));
            assert(rest_pre.remove(0) =~= rest_pre.drop_first());
            assert(orig.skip(i).drop_first() =~= orig.skip(i + 1));
            assert(e == rest_pre[0]);
            assert(e == orig[i]);
            assert(orig.take(i + 1).drop_last() =~= orig.take(i));
            assert(orig.take(i + 1) =~= orig.take(i).push(orig[i]));
        }
        let hidden = crate::tree::name_is_hidden(e.name.as_str());
        if hidden {
            proof {
                lemma_visible_push_hidden(orig.take(i), e);
            }
        } else {
            proof {
                lemma_visible_push_shown(orig.take(i), e);
            }
            let ghost vis_pre = visible(orig.take(i));
            insert_by_name(&mut out, e);
            proof {
                assert(visible(orig.take(i + 1)) == vis_pre.push(e));
                assert(vis_pre.push(e).drop_last() =~= vis_pre);
                assert(vis_pre.push(e).last() == e);
                assert(sort_entries(vis_pre.push(e)) == insert_sorted(e, sort_entries(vis_pre)));
            }
        }
    }
    proof {
        assert(orig.take(orig.len() as int) =~= orig);
    }
    out
}

} // verus!
