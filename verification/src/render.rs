use vstd::prelude::*;

verus! {

/// The connector drawn before an entry's name: a corner for the last
/// visible sibling, a tee for the others, then two horizontal dashes and a
/// space.
pub open spec fn connector_model(last: bool) -> Seq<char> {
    if last {
        "\u{2514}\u{2500}\u{2500} "@
    } else {
        "\u{251c}\u{2500}\u{2500} "@
    }
}

/// A rendered line: prefix, connector for the entry's sibling position,
/// then the displayed name. Styling only decorates the name; it is handed
/// in already applied and never affects ordering, filtering or counting.
pub open spec fn line_model(prefix: Seq<char>, last: bool, name: Seq<char>) -> Seq<char> {
    prefix + connector_model(last) + name
}

/// Formats one output line from its parts.
pub fn render_line(prefix: &str, last: bool, styled_name: &str) -> (r: String)
    ensures
        r@ == line_model(prefix@, last, styled_name@),
{
    let mut r = prefix.to_owned();
    if last {
        r.append("\u{2514}\u{2500}\u{2500} ");
    } else {
        r.append("\u{251c}\u{2500}\u{2500} ");
    }
    r.append(styled_name);
    r
}

} // verus!
