use vstd::prelude::*;

verus! {

broadcast use vstd::std_specs::vec::group_vec_axioms, vstd::seq::axiom_seq_index_decreases;

/// One directory entry: the base name of a child and what that child is.
pub struct Entry {
    pub name: String,
    pub node: Node,
}

/// A node of an in-memory directory tree: a plain file, or a directory
/// holding its immediate children in the order they were listed.
pub enum Node {
    File,
    Dir(Vec<Entry>),
}

impl Node {
    /// The immediate children of a directory node.
    pub open spec fn children(self) -> Seq<Entry> {
        self->Dir_0@
    }
}

/// An entry is hidden when its base name starts with the hidden marker `.`;
/// hidden entries are excluded from listing, rendering and counting.
pub open spec fn is_hidden(name: Seq<char>) -> bool {
    name.len() > 0 && name[0] == '.'
}

/// Decides whether a base name is hidden.
pub fn name_is_hidden(name: &str) -> (b: bool)
    ensures
        b == is_hidden(name@),
{
    if name.unicode_len() == 0 {
        false
    } else {
        name.get_char(0) == '.'
    }
}

/// The number of nodes in a subtree; it serves as the termination measure of
/// the traversal.
pub open spec fn subtree_size(n: Node) -> nat
    decreases n,
{
    match n {
        Node::File => 1,
        Node::Dir(cs) => 1 + children_size(cs@),
    }
}

/// The summed subtree sizes of a sequence of entries.
pub open spec fn children_size(cs: Seq<Entry>) -> nat
    decreases cs,
{
    if cs.len() == 0 {
        0
    } else {
        subtree_size(cs[0].node) + children_size(cs.drop_first())
    }
}

/// Every subtree holds at least its own node.
pub proof fn lemma_subtree_size_pos(n: Node)
    ensures
        subtree_size(n) >= 1,
{
}

/// A member's subtree weighs no more than the whole list it sits in.
pub proof fn lemma_child_size(cs: Seq<Entry>, i: int)
    requires
        0 <= i < cs.len(),
    ensures
        subtree_size(cs[i].node) <= children_size(cs),
    decreases cs,
{
    if i > 0 {
        lemma_child_size(cs.drop_first(), i - 1);
    }
}

/// Appending an entry adds exactly its subtree size.
pub proof fn lemma_children_size_push(cs: Seq<Entry>, e: Entry)
    ensures
        children_size(cs.push(e)) == children_size(cs) + subtree_size(e.node),
    decreases cs,
{
    if cs.len() == 0 {
        assert(cs.push(e)[0] == e);
        assert(cs.push(e).drop_first() =~= cs);
    } else {
        assert(cs.push(e)[0] == cs[0]);
        assert(cs.push(e).drop_first() =~= cs.drop_first().push(e));
        lemma_children_size_push(cs.drop_first(), e);
    }
}

} // verus!
