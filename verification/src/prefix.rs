use vstd::prelude::*;

verus! {

/// One prefix column: a continuation bar with padding when the ancestor at
/// that level still has siblings to render, blank padding otherwise.
pub open spec fn column_model(has_more: bool) -> Seq<char> {
    if has_more {
        "\u{2502}   "@
    } else {
        "    "@
    }
}

/// The prefix drawn before a line: one column per ancestor level, outermost
/// level first.
pub open spec fn prefix_model(verts: Seq<bool>) -> Seq<char>
    decreases verts.len(),
{
    if verts.len() == 0 {
        Seq::empty()
    } else {
        prefix_model(verts.drop_last()) + column_model(verts.last())
    }
}

/// Every column is four characters wide, so columns align across depths.
pub proof fn lemma_prefix_model_len(verts: Seq<bool>)
    ensures
        prefix_model(verts).len() == 4 * verts.len(),
    decreases verts.len(),
{
    reveal_strlit("\u{2502}   ");
    reveal_strlit("    ");
    if verts.len() > 0 {
        lemma_prefix_model_len(verts.drop_last());
    }
}

/// Builds the prefix of continuation bars and spaces for the current stack
/// of ancestor levels.
pub fn build_prefix(verts: &Vec<bool>) -> (r: String)
    ensures
        r@ == prefix_model(verts@),
{
    let mut r = String::new();
    let mut i: usize = 0;
    proof {
        assert(verts@.take(0) =~= Seq::empty());
    }
    while i < verts.len()
        invariant
            i <= verts@.len(),
            r@ == prefix_model(verts@.take(i as int)),
        decreases verts@.len() - i,
    {
        if verts[i] {
            r.append("\u{2502}   ");
        } else {
            r.append("    ");
        }
        proof {
            assert(verts@.take(i + 1).drop_last() =~= verts@.take(i as int));
            assert(verts@.take(i + 1).last() == verts@[i as int]);
        }
        i = i + 1;
    }
    proof {
        assert(verts@.take(verts@.len() as int) =~= verts@);
    }
    r
}

} // verus!
