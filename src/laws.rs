//! Properties of the store that relate several operations, stated over
//! the abstract content that the operations' contracts speak of.
use vstd::prelude::*;

use crate::error::TreeError;
use crate::forest::{ancestor, lemma_ancestors_end};
use crate::named_lu_tree::{lemma_add_to_parent_grows, NamedLuTreeView};
use crate::search_buffer::Discipline;
use crate::walk::{descendants, lemma_walk_orders, lemma_walk_total, precedes, walk};

verus! {

/// Adding the same child name twice: the second attempt, under any
/// registered parent, fails with `DuplicateNode` and leaves the store as it was.
pub proof fn law_second_insertion_is_duplicate(
    v: NamedLuTreeView,
    child: Seq<char>,
    first_parent: Seq<char>,
    second_parent: Seq<char>,
)
    requires
        v.wf(),
        v.len() < usize::MAX,
        v.has(first_parent),
        v.has(second_parent),
    ensures
        v.add_to_parent(child, first_parent).add_to_parent_outcome(child, second_parent) == Err::<
            usize,
            TreeError,
        >(TreeError::DuplicateNode),
        v.add_to_parent(child, first_parent).add_to_parent(child, second_parent) == v.add_to_parent(
            child,
            first_parent,
        ),
        v.add_to_parent(child, first_parent).names_unique(),
{
    let w = v.add_to_parent(child, first_parent);
    lemma_add_to_parent_grows(v, child, first_parent);
    if !v.has(child) {
        assert(w.names[v.len() as int] == child);
    }
    assert(w.has(child));
    let k = choose|k: int| 0 <= k < v.names.len() && v.names[k] == second_parent;
    assert(w.names[k] == second_parent);
    assert(w.has(second_parent));
}

/// Registering the same root name twice gives the same handle both times and
/// adds exactly one node when the name was new.
pub proof fn law_root_insertion_idempotent(v: NamedLuTreeView, name: Seq<char>)
    requires
        v.wf(),
    ensures
        v.with_root(name).with_root(name) == v.with_root(name),
        v.with_root(name).with_root(name).handle(name) == v.with_root(name).handle(name),
        v.with_root(name).has(name),
        !v.has(name) ==> v.with_root(name).len() == v.len() + 1,
        v.has(name) ==> v.with_root(name) == v,
{
    if !v.has(name) {
        assert(v.with_root(name).names[v.len() as int] == name);
    }
}

/// In a well-formed store, following parent links from any handle reaches
/// a root: after as many steps as the handle's value plus one nothing is left.
pub proof fn law_ancestor_chains_end(v: NamedLuTreeView, h: usize)
    requires
        v.wf(),
        (h as int) < v.len(),
    ensures
        ancestor(v.parents, Some(h), (h + 1) as nat) is None,
{
    lemma_ancestors_end(v.parents, v.children, h, (h + 1) as nat);
}

/// A traversal from a registered name, with either discipline, outputs the
/// name of every node at or below the start exactly once and nothing else.
pub proof fn law_traversal_total(v: NamedLuTreeView, start: Seq<char>, d: Discipline)
    requires
        v.wf(),
        v.has(start),
    ensures
        v.traversal(start, d).no_duplicates(),
        v.traversal(start, d).len() == descendants(v.parents, v.handle(start) as usize).len(),
        forall|y: usize| #[trigger] descendants(v.parents, v.handle(start) as usize).contains(y) ==> v.traversal(
            start,
            d,
        ).contains(v.names[y as int]),
        forall|i: int|
            0 <= i < v.traversal(start, d).len() ==> {
                let y = walk(v.children, d, v.handle(start) as usize).out[i];
                &&& descendants(v.parents, v.handle(start) as usize).contains(y)
                &&& #[trigger] v.traversal(start, d)[i] == v.names[y as int]
            },
{
    let h = v.handle(start);
    assert(0 <= h < v.len() && v.names[h] == start);
    let hs = h as usize;
    lemma_walk_total(v.parents, v.children, d, hs);
    let out = walk(v.children, d, hs).out;
    let t = v.traversal(start, d);
    assert(t == out.map_values(|x: usize| v.names[x as int]));
    assert forall|i: int| 0 <= i < out.len() implies (out[i] as int) < v.len() by {
        assert(out.contains(out[i]));
    }
    assert forall|i: int, j: int| 0 <= i < t.len() && 0 <= j < t.len() && i != j implies t[i] != t[j] by {
        assert(out[i] != out[j]);
        assert(v.names[out[i] as int] != v.names[out[j] as int]);
    }
    assert forall|y: usize| #[trigger] descendants(v.parents, hs).contains(y) implies t.contains(v.names[y as int]) by {
        assert(out.contains(y));
        let i = choose|i: int| 0 <= i < out.len() && out[i] == y;
        assert(t[i] == v.names[y as int]);
    }
    assert forall|i: int| 0 <= i < t.len() implies descendants(v.parents, hs).contains(out[i]) by {
        assert(out.contains(out[i]));
    }
}

/// The two disciplines differ on siblings. Both start with the start name.
/// Breadth-first, the start's children follow in the order they were added.
/// Depth-first, its last-added child follows, and of any two children the
/// later-added one comes first.
pub proof fn law_strategy_divergence(v: NamedLuTreeView, start: Seq<char>)
    requires
        v.wf(),
        v.len() <= usize::MAX,
        v.has(start),
    ensures
        ({
            let cs = v.children[v.handle(start)].map_values(|c: usize| v.names[c as int]);
            v.traversal(start, Discipline::Fifo).take((cs.len() + 1) as int) == seq![start] + cs
        }),
        v.traversal(start, Discipline::Lifo)[0] == start,
        v.children[v.handle(start)].len() > 0 ==> v.traversal(start, Discipline::Lifo)[1]
            == v.names[v.children[v.handle(start)].last() as int],
        forall|i: int, j: int|
            0 <= i < j < v.children[v.handle(start)].len() ==> precedes(
                v.traversal(start, Discipline::Lifo),
                v.names[#[trigger] v.children[v.handle(start)][j] as int],
                v.names[#[trigger] v.children[v.handle(start)][i] as int],
            ),
{
    let h = v.handle(start);
    assert(0 <= h < v.len() && v.names[h] == start);
    let hs = h as usize;
    let cs = v.children[h];
    lemma_walk_orders(v.parents, v.children, hs);
    lemma_walk_total(v.parents, v.children, Discipline::Lifo, hs);
    lemma_walk_total(v.parents, v.children, Discipline::Fifo, hs);
    let fo = walk(v.children, Discipline::Fifo, hs).out;
    let lo = walk(v.children, Discipline::Lifo, hs).out;
    // both outputs hold the start, so they are not empty
    assert(descendants(v.parents, hs).contains(hs));
    assert(lo.contains(hs));
    assert(fo.contains(hs));
    let names_of = |c: usize| v.names[c as int];
    assert(fo.take((cs.len() + 1) as int) == seq![hs] + cs);
    assert(v.traversal(start, Discipline::Fifo).take((cs.len() + 1) as int) =~= (seq![hs] + cs).map_values(
        names_of,
    ));
    assert((seq![hs] + cs).map_values(names_of) =~= seq![start] + cs.map_values(names_of));
    assert(lo.take(1)[0] == hs);
    if cs.len() > 0 {
        assert(cs.contains(cs.last()));
        assert(cs[cs.len() - 1] == cs.last());
        assert(precedes(lo, cs.last(), cs.last()) || lo.len() >= 2) by {
            if cs.len() >= 2 {
                assert(precedes(lo, cs[cs.len() - 1], cs[0]));
            } else {
                let c = cs[0];
                assert(v.parents[c as int] == Some(hs));
                assert(descendants(v.parents, hs).contains(c));
                assert(lo.contains(c));
                let p = choose|p: int| 0 <= p < lo.len() && lo[p] == c;
                assert(p != 0);
            }
        }
    }
    assert forall|i: int, j: int| 0 <= i < j < cs.len() implies precedes(
        v.traversal(start, Discipline::Lifo),
        v.names[#[trigger] cs[j] as int],
        v.names[#[trigger] cs[i] as int],
    ) by {
        assert(precedes(lo, cs[j], cs[i]));
        let (p, q) = choose|p: int, q: int| 0 <= p < q < lo.len() && lo[p] == cs[j] && lo[q] == cs[i];
        assert(v.traversal(start, Discipline::Lifo)[p] == v.names[cs[j] as int]);
        assert(v.traversal(start, Discipline::Lifo)[q] == v.names[cs[i] as int]);
    }
}

} // verus!
