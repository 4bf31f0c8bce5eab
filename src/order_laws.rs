//! Order of the nodes that the drawing parser builds.
use vstd::prelude::*;
use crate::ascii::{drawing_tree, entries_upto, node_at, siblings, span_end, EntryModel};
use crate::tree::Tree;

verus! {

/// The names of a tree, depth first, each directory before its children.
pub open spec fn flat(t: Tree) -> Seq<Seq<char>>
    decreases t,
{
    seq![t.name] + flat_all(t.children)
}

/// The names of the trees of `cs`, depth first, in order.
pub open spec fn flat_all(cs: Seq<Tree>) -> Seq<Seq<char>>
    decreases cs,
{
    if cs.len() == 0 {
        Seq::empty()
    } else {
        flat(cs[0]) + flat_all(cs.subrange(1, cs.len() as int))
    }
}

pub open spec fn entry_names(es: Seq<EntryModel>) -> Seq<Seq<char>> {
    es.map_values(|e: EntryModel| e.name)
}

proof fn lemma_flat_node(es: Seq<EntryModel>, p: int, to: int)
    requires
        0 <= p < to <= es.len(),
    ensures
        flat(node_at(es, p, to)) == entry_names(es).subrange(
            p,
            if es[p].is_dir { span_end(es, p, to) } else { p + 1 },
        ),
    decreases to - p, 0nat,
{
    let n = node_at(es, p, to);
    let names = entry_names(es);
    if es[p].is_dir {
        let e = span_end(es, p, to);
        lemma_flat_siblings(es, p + 1, e);
        assert(seq![es[p].name] + names.subrange(p + 1, e) =~= names.subrange(p, e));
    } else {
        assert(flat_all(n.children) =~= Seq::<Seq<char>>::empty());
        assert(seq![es[p].name] + Seq::<Seq<char>>::empty() =~= names.subrange(p, p + 1));
    }
}

proof fn lemma_flat_siblings(es: Seq<EntryModel>, from: int, to: int)
    requires
        0 <= from <= to <= es.len(),
    ensures
        flat_all(siblings(es, from, to)) == entry_names(es).subrange(from, to),
    decreases to - from, 1nat,
{
    let names = entry_names(es);
    if from < to {
        let next = if es[from].is_dir { span_end(es, from, to) } else { from + 1 };
        lemma_flat_node(es, from, to);
        lemma_flat_siblings(es, next, to);
        let s = siblings(es, from, to);
        assert(s[0] == node_at(es, from, to));
        assert(s.subrange(1, s.len() as int) =~= siblings(es, next, to));
        assert(names.subrange(from, next) + names.subrange(next, to) =~= names.subrange(from, to));
    } else {
        assert(names.subrange(from, to) =~= Seq::<Seq<char>>::empty());
    }
}

/// The drawing parser keeps the order of the input: read depth first, the
/// tree that it builds names the declared entries exactly in the order of
/// their lines, so siblings stand in the order in which they were written.
pub proof fn lemma_drawing_keeps_order(ls: Seq<Seq<char>>)
    ensures
        drawing_tree(ls) matches Ok(root) ==> flat_all(root.children) == entry_names(
            entries_upto(ls, ls.len() as int),
        ),
{
    let es = entries_upto(ls, ls.len() as int);
    lemma_flat_siblings(es, 0, es.len() as int);
    assert(entry_names(es).subrange(0, es.len() as int) =~= entry_names(es));
}

} // verus!
