//! The traversal as a state machine over handles: what a walk from one
//! handle yields with a given buffer discipline, and why it is total.
use vstd::prelude::*;

use crate::forest::is_forest;
use crate::search_buffer::{next_index, Discipline};

verus! {

/// The state of a walk: the buffer's pending handles (in order of enlisting),
/// the handles already visited, and the handles output so far.
pub struct WalkState {
    pub pending: Seq<usize>,
    pub visited: Set<usize>,
    pub out: Seq<usize>,
}

/// The entries of `cs`, in order, that are not in `visited`.
pub open spec fn unvisited(cs: Seq<usize>, visited: Set<usize>) -> Seq<usize>
    decreases cs.len(),
{
    if cs.len() == 0 {
        Seq::empty()
    } else if visited.contains(cs.last()) {
        unvisited(cs.drop_last(), visited)
    } else {
        unvisited(cs.drop_last(), visited).push(cs.last())
    }
}

/// One round of the walk: take the next pending handle, enlist its
/// children that are not visited yet, output it and mark it visited.
pub open spec fn step(children: Seq<Seq<usize>>, d: Discipline, s: WalkState) -> WalkState {
    let k = next_index(d, s.pending.len());
    let x = s.pending[k];
    WalkState {
        pending: s.pending.remove(k) + unvisited(children[x as int], s.visited),
        visited: s.visited.insert(x),
        out: s.out.push(x),
    }
}

/// At most `fuel` rounds of the walk, stopping when nothing is pending.
pub open spec fn run(children: Seq<Seq<usize>>, d: Discipline, s: WalkState, fuel: nat) -> WalkState
    decreases fuel,
{
    if fuel == 0 || s.pending.len() == 0 {
        s
    } else {
        run(children, d, step(children, d, s), (fuel - 1) as nat)
    }
}

/// The state before the first round of a walk from `h`.
pub open spec fn start_state(h: usize) -> WalkState {
    WalkState { pending: seq![h], visited: Set::empty(), out: Seq::empty() }
}

/// The complete walk from `h` over a forest of `children.len()` nodes
/// (each round visits a new handle, so that many rounds suffice).
pub open spec fn walk(children: Seq<Seq<usize>>, d: Discipline, h: usize) -> WalkState {
    run(children, d, start_state(h), children.len())
}

/// `y` is `h` or lies below `h`, following parent links.
pub open spec fn is_descendant(parents: Seq<Option<usize>>, y: int, h: int) -> bool
    decreases y,
{
    if y == h {
        true
    } else if 0 <= y < parents.len() && parents[y] is Some && (parents[y]->0 as int) < y {
        is_descendant(parents, parents[y]->0 as int, h)
    } else {
        false
    }
}

/// What holds of every state of a walk from `h` over a forest.
#[verifier::opaque]
pub open spec fn walk_inv(
    parents: Seq<Option<usize>>,
    children: Seq<Seq<usize>>,
    h: usize,
    s: WalkState,
) -> bool {
    let n = parents.len();
    &&& is_forest(parents, children)
    &&& (h as int) < n
    &&& s.pending.no_duplicates()
    &&& forall|i: int|
        0 <= i < s.pending.len() ==> {
            &&& (#[trigger] s.pending[i] as int) < n
            &&& h <= s.pending[i]
            &&& !s.visited.contains(s.pending[i])
        }
    &&& forall|y: usize| #[trigger] s.visited.contains(y) ==> (y as int) < n && h <= y
    &&& forall|y: usize|
        #![trigger s.pending.contains(y)]
        #![trigger s.visited.contains(y)]
        (s.pending.contains(y) || s.visited.contains(y)) ==> y == h || {
            &&& parents[y as int] is Some
            &&& s.visited.contains(parents[y as int]->0)
        }
    &&& s.pending.contains(h) || s.visited.contains(h)
    &&& s.out.no_duplicates()
    &&& forall|y: usize| #[trigger] s.out.contains(y) <==> s.visited.contains(y)
    &&& forall|v: usize, i: int|
        s.visited.contains(v) && 0 <= i < children[v as int].len() ==> s.pending.contains(
            #[trigger] children[v as int][i],
        ) || s.visited.contains(children[v as int][i])
}

/// The entries of `unvisited(cs, visited)` are the entries of `cs` outside
/// `visited`, and they keep the increasing order of `cs`.
pub proof fn lemma_unvisited(cs: Seq<usize>, visited: Set<usize>)
    ensures
        forall|c: usize| #[trigger] unvisited(cs, visited).contains(c) <==> cs.contains(c) && !visited.contains(c),
        (forall|i: int, j: int| 0 <= i < j < cs.len() ==> #[trigger] cs[i] < #[trigger] cs[j]) ==> forall|
            i: int,
            j: int,
        |
            0 <= i < j < unvisited(cs, visited).len() ==> #[trigger] unvisited(cs, visited)[i]
                < #[trigger] unvisited(cs, visited)[j],
    decreases cs.len(),
{
    if cs.len() > 0 {
        let init = cs.drop_last();
        lemma_unvisited(init, visited);
        let u = unvisited(cs, visited);
        let ui = unvisited(init, visited);
        assert forall|c: usize| #[trigger] u.contains(c) <==> cs.contains(c) && !visited.contains(c) by {
            if cs.contains(c) && c != cs.last() {
                let k = choose|k: int| 0 <= k < cs.len() && cs[k] == c;
                assert(init[k] == c);
            }
            if init.contains(c) {
                let k = choose|k: int| 0 <= k < init.len() && init[k] == c;
                assert(cs[k] == c);
            }
            if !visited.contains(cs.last()) {
                assert(u == ui.push(cs.last()));
                assert(u[ui.len() as int] == cs.last());
                if ui.contains(c) {
                    let k = choose|k: int| 0 <= k < ui.len() && ui[k] == c;
                    assert(u[k] == c);
                }
                if u.contains(c) && c != cs.last() {
                    let k = choose|k: int| 0 <= k < u.len() && u[k] == c;
                    assert(ui[k] == c);
                }
            }
        }
        if forall|i: int, j: int| 0 <= i < j < cs.len() ==> #[trigger] cs[i] < #[trigger] cs[j] {
            assert forall|i: int, j: int| 0 <= i < j < init.len() implies #[trigger] init[i]
                < #[trigger] init[j] by {
                assert(cs[i] < cs[j]);
            }
            if !visited.contains(cs.last()) {
                assert forall|i: int, j: int| 0 <= i < j < u.len() implies #[trigger] u[i]
                    < #[trigger] u[j] by {
                    if j == ui.len() {
                        assert(ui.contains(u[i]));
                        let k = choose|k: int| 0 <= k < init.len() && init[k] == u[i];
                        assert(cs[k] < cs[cs.len() - 1]);
                    } else {
                        assert(ui[i] < ui[j]);
                    }
                }
            }
        }
    }
}

/// Membership in a concatenation.
pub proof fn lemma_concat_contains(a: Seq<usize>, b: Seq<usize>)
    ensures
        forall|y: usize| #[trigger] (a + b).contains(y) <==> a.contains(y) || b.contains(y),
{
    assert forall|y: usize| #[trigger] (a + b).contains(y) <==> a.contains(y) || b.contains(y) by {
        if a.contains(y) {
            let k = choose|k: int| 0 <= k < a.len() && a[k] == y;
            assert((a + b)[k] == y);
        }
        if b.contains(y) {
            let k = choose|k: int| 0 <= k < b.len() && b[k] == y;
            assert((a + b)[a.len() + k] == y);
        }
        if (a + b).contains(y) {
            let k = choose|k: int| 0 <= k < (a + b).len() && (a + b)[k] == y;
            if k < a.len() {
                assert(a[k] == y);
            } else {
                assert(b[k - a.len()] == y);
            }
        }
    }
}

/// Removing one entry from a sequence without duplicates.
pub proof fn lemma_remove_distinct(s: Seq<usize>, k: int)
    requires
        s.no_duplicates(),
        0 <= k < s.len(),
    ensures
        s.remove(k).no_duplicates(),
        forall|y: usize| #[trigger] s.remove(k).contains(y) <==> s.contains(y) && y != s[k],
{
    let r = s.remove(k);
    assert forall|i: int, j: int| 0 <= i < r.len() && 0 <= j < r.len() && i != j implies r[i] != r[j] by {
        let si = if i < k { i } else { i + 1 };
        let sj = if j < k { j } else { j + 1 };
        assert(r[i] == s[si] && r[j] == s[sj]);
    }
    assert forall|y: usize| #[trigger] r.contains(y) <==> s.contains(y) && y != s[k] by {
        if r.contains(y) {
            let i = choose|i: int| 0 <= i < r.len() && r[i] == y;
            let si = if i < k { i } else { i + 1 };
            assert(s[si] == y);
        }
        if s.contains(y) && y != s[k] {
            let i = choose|i: int| 0 <= i < s.len() && s[i] == y;
            if i < k {
                assert(r[i] == y);
            } else {
                assert(r[i - 1] == y);
            }
        }
    }
}

/// A round of the walk keeps the invariant and visits a handle not visited before.
#[verifier::rlimit(60)]
pub proof fn lemma_step_inv(
    parents: Seq<Option<usize>>,
    children: Seq<Seq<usize>>,
    h: usize,
    d: Discipline,
    s: WalkState,
)
    requires
        walk_inv(parents, children, h, s),
        s.pending.len() > 0,
    ensures
        walk_inv(parents, children, h, step(children, d, s)),
        !s.visited.contains(s.pending[next_index(d, s.pending.len())]),
        (s.pending[next_index(d, s.pending.len())] as int) < parents.len(),
        step(children, d, s).visited == s.visited.insert(s.pending[next_index(d, s.pending.len())]),
        step(children, d, s).out == s.out.push(s.pending[next_index(d, s.pending.len())]),
{
    reveal(walk_inv);
    let n = parents.len();
    let k = next_index(d, s.pending.len());
    let x = s.pending[k];
    let rest = s.pending.remove(k);
    let cs = children[x as int];
    let u = unvisited(cs, s.visited);
    let t = step(children, d, s);
    assert(s.pending[k] == x);
    assert(t.pending == rest + u);
    lemma_unvisited(cs, s.visited);
    lemma_remove_distinct(s.pending, k);
    lemma_concat_contains(rest, u);
    assert forall|i: int, j: int| 0 <= i < cs.len() && 0 <= j < cs.len() && i < j implies #[trigger] cs[i]
        < #[trigger] cs[j] by {
        assert(children[x as int][i] < children[x as int][j]);
    }
    // each entry of `u` is a child of `x`, so lies above `x` and has `x` as parent
    assert forall|c: usize| #[trigger] u.contains(c) implies {
        &&& (c as int) < n
        &&& x < c
        &&& parents[c as int] == Some(x)
        &&& !s.visited.contains(c)
    } by {
        let i = choose|i: int| 0 <= i < cs.len() && cs[i] == c;
        assert(children[x as int][i] == c);
    }
    assert forall|c: usize| #[trigger] u.contains(c) implies !rest.contains(c) by {
        if rest.contains(c) {
            assert(s.pending.contains(c));
            assert(c != h);
        }
    }
    assert forall|i: int, j: int| 0 <= i < t.pending.len() && 0 <= j < t.pending.len() && i != j implies t.pending[i]
        != t.pending[j] by {
        if i < rest.len() && j >= rest.len() {
            assert(rest.contains(t.pending[i]));
            assert(u.contains(t.pending[j]));
        } else if i >= rest.len() && j < rest.len() {
            assert(rest.contains(t.pending[j]));
            assert(u.contains(t.pending[i]));
        } else if i >= rest.len() {
            if i < j {
                assert(u[i - rest.len()] < u[j - rest.len()]);
            } else {
                assert(u[j - rest.len()] < u[i - rest.len()]);
            }
        }
    }
    assert forall|i: int| 0 <= i < t.pending.len() implies {
        &&& (#[trigger] t.pending[i] as int) < n
        &&& h <= t.pending[i]
        &&& !t.visited.contains(t.pending[i])
    } by {
        if i < rest.len() {
            assert(rest.contains(t.pending[i]));
            assert(s.pending.contains(t.pending[i]));
            let j = choose|j: int| 0 <= j < s.pending.len() && s.pending[j] == t.pending[i];
        } else {
            assert(u.contains(t.pending[i]));
        }
    }
    assert forall|y: usize|
        #![trigger t.pending.contains(y)]
        #![trigger t.visited.contains(y)]
        (t.pending.contains(y) || t.visited.contains(y)) implies y == h || {
        &&& parents[y as int] is Some
        &&& t.visited.contains(parents[y as int]->0)
    } by {
        if u.contains(y) {
        } else {
            assert(s.pending.contains(y) || s.visited.contains(y));
        }
    }
    assert(t.pending.contains(h) || t.visited.contains(h));
    assert(!s.out.contains(x));
    assert forall|y: usize| #[trigger] t.out.contains(y) <==> t.visited.contains(y) by {
        if t.out.contains(y) && y != x {
            let i = choose|i: int| 0 <= i < t.out.len() && t.out[i] == y;
            assert(s.out[i] == y);
        }
        if s.out.contains(y) {
            let i = choose|i: int| 0 <= i < s.out.len() && s.out[i] == y;
            assert(t.out[i] == y);
        }
        assert(t.out[s.out.len() as int] == x);
    }
    assert forall|i: int, j: int| 0 <= i < t.out.len() && 0 <= j < t.out.len() && i != j implies t.out[i]
        != t.out[j] by {
        if i == s.out.len() {
            assert(s.out.contains(t.out[j]));
        } else if j == s.out.len() {
            assert(s.out.contains(t.out[i]));
        }
    }
    assert forall|v: usize, i: int|
        t.visited.contains(v) && 0 <= i < children[v as int].len() implies t.pending.contains(
        #[trigger] children[v as int][i],
    ) || t.visited.contains(children[v as int][i]) by {
        let c = children[v as int][i];
        if v == x {
            assert(cs[i] == c);
            assert(cs.contains(c));
        } else {
            assert(s.pending.contains(c) || s.visited.contains(c));
        }
    }
    assert(t.pending.no_duplicates());
    assert(t.out.no_duplicates());
    assert(forall|y: usize| #[trigger] t.visited.contains(y) ==> (y as int) < n && h <= y);
}

/// A set of handles below `n` is finite and has at most `n` members.
pub proof fn lemma_bounded_set(s: Set<usize>, n: nat)
    requires
        forall|y: usize| #[trigger] s.contains(y) ==> (y as int) < n,
    ensures
        s.finite(),
        s.len() <= n,
    decreases n,
{
    if n > usize::MAX + 1 {
        lemma_bounded_set(s, (usize::MAX + 1) as nat);
    } else if n == 0 {
        assert(s =~= Set::empty());
    } else {
        let top = (n - 1) as usize;
        let t = s.remove(top);
        lemma_bounded_set(t, (n - 1) as nat);
        if s.contains(top) {
            assert(s =~= t.insert(top));
        } else {
            assert(s =~= t);
        }
    }
}

/// The invariant holds of every state that a run reaches, and a run with
/// fuel for every handle not yet visited empties the buffer.
pub proof fn lemma_run_inv(
    parents: Seq<Option<usize>>,
    children: Seq<Seq<usize>>,
    h: usize,
    d: Discipline,
    s: WalkState,
    fuel: nat,
)
    requires
        walk_inv(parents, children, h, s),
    ensures
        walk_inv(parents, children, h, run(children, d, s, fuel)),
        s.visited.finite(),
        s.visited.len() <= parents.len(),
        s.visited.len() + fuel >= parents.len() ==> run(children, d, s, fuel).pending.len() == 0,
    decreases fuel,
{
    reveal(walk_inv);
    lemma_bounded_set(s.visited, parents.len());
    if fuel > 0 && s.pending.len() > 0 {
        lemma_step_inv(parents, children, h, d, s);
        let t = step(children, d, s);
        lemma_run_inv(parents, children, h, d, t, (fuel - 1) as nat);
        let x = s.pending[next_index(d, s.pending.len())];
        assert(t.visited.len() == s.visited.len() + 1);
    } else if s.pending.len() > 0 {
        // no fuel left although a handle is pending: the visited set is not full
        let x = s.pending[0];
        lemma_bounded_set(s.visited.insert(x), parents.len());
        assert(s.visited.insert(x).len() == s.visited.len() + 1);
    }
}

/// The start state of a walk from an allocated handle satisfies the invariant.
pub proof fn lemma_start_inv(parents: Seq<Option<usize>>, children: Seq<Seq<usize>>, h: usize)
    requires
        is_forest(parents, children),
        (h as int) < parents.len(),
    ensures
        walk_inv(parents, children, h, start_state(h)),
{
    reveal(walk_inv);
    let s = start_state(h);
    assert(s.pending[0] == h);
    assert forall|y: usize| #[trigger] s.pending.contains(y) implies y == h by {}
    assert(s.pending.contains(h));
}

/// The handles that lie below `h` (or are `h`) among the first `n` handles.
pub open spec fn descendants(parents: Seq<Option<usize>>, h: usize) -> Set<usize> {
    Set::new(|y: usize| (y as int) < parents.len() && is_descendant(parents, y as int, h as int))
}

/// A finished walk has visited exactly the descendants of its start.
proof fn lemma_finished_walk_visits_descendants(
    parents: Seq<Option<usize>>,
    children: Seq<Seq<usize>>,
    h: usize,
    s: WalkState,
    y: usize,
)
    requires
        walk_inv(parents, children, h, s),
        s.pending.len() == 0,
    ensures
        s.visited.contains(y) <==> descendants(parents, h).contains(y),
    decreases y,
{
    reveal(walk_inv);
    if s.visited.contains(y) && y != h {
        let p = parents[y as int]->0;
        assert(s.visited.contains(p));
        lemma_finished_walk_visits_descendants(parents, children, h, s, p);
    }
    if (y as int) < parents.len() && is_descendant(parents, y as int, h as int) && y != h {
        let p = parents[y as int]->0;
        lemma_finished_walk_visits_descendants(parents, children, h, s, p);
        assert(children[p as int].contains(y));
        let i = choose|i: int| 0 <= i < children[p as int].len() && children[p as int][i] == y;
        assert(s.pending.contains(children[p as int][i]) || s.visited.contains(children[p as int][i]));
    }
    if y == h {
        assert(s.pending.contains(h) || s.visited.contains(h));
    }
}

/// A walk from `h` outputs every handle below `h` exactly once, and nothing
/// else: its output has no repeats, holds exactly the descendants of `h`,
/// and is as long as there are such descendants.
pub proof fn lemma_walk_total(
    parents: Seq<Option<usize>>,
    children: Seq<Seq<usize>>,
    d: Discipline,
    h: usize,
)
    requires
        is_forest(parents, children),
        (h as int) < parents.len(),
    ensures
        walk(children, d, h).out.no_duplicates(),
        forall|y: usize| #[trigger] walk(children, d, h).out.contains(y) <==> descendants(parents, h).contains(y),
        walk(children, d, h).out.len() == descendants(parents, h).len(),
{
    let s0 = start_state(h);
    lemma_start_inv(parents, children, h);
    lemma_run_inv(parents, children, h, d, s0, children.len());
    let s = walk(children, d, h);
    lemma_run_inv(parents, children, h, d, s, 0);
    reveal(walk_inv);
    assert forall|y: usize| #[trigger] s.out.contains(y) <==> descendants(parents, h).contains(y) by {
        lemma_finished_walk_visits_descendants(parents, children, h, s, y);
    }
    assert(s.out.to_set() =~= descendants(parents, h));
    s.out.unique_seq_to_set();
}

/// `a` is output before `b` in `out`.
pub open spec fn precedes<A>(out: Seq<A>, a: A, b: A) -> bool {
    exists|p: int, q: int| 0 <= p < q < out.len() && out[p] == a && out[q] == b
}

/// With nothing visited, every child is enlisted.
pub proof fn lemma_unvisited_none(cs: Seq<usize>)
    ensures
        unvisited(cs, Set::empty()) == cs,
    decreases cs.len(),
{
    if cs.len() > 0 {
        lemma_unvisited_none(cs.drop_last());
        assert(cs.drop_last().push(cs.last()) =~= cs);
    }
}

/// A run only appends to the output.
pub proof fn lemma_run_out_prefix(children: Seq<Seq<usize>>, d: Discipline, s: WalkState, fuel: nat)
    ensures
        s.out.len() <= run(children, d, s, fuel).out.len(),
        run(children, d, s, fuel).out.take(s.out.len() as int) == s.out,
    decreases fuel,
{
    if fuel > 0 && s.pending.len() > 0 {
        let t = step(children, d, s);
        lemma_run_out_prefix(children, d, t, (fuel - 1) as nat);
        let r = run(children, d, s, fuel);
        assert(r.out.take(s.out.len() as int) =~= r.out.take(t.out.len() as int).take(s.out.len() as int));
        assert(t.out.take(s.out.len() as int) =~= s.out);
    } else {
        assert(s.out.take(s.out.len() as int) =~= s.out);
    }
}

/// With fuel for every unvisited handle, a run with something pending takes a round.
pub proof fn lemma_run_unfold(
    parents: Seq<Option<usize>>,
    children: Seq<Seq<usize>>,
    h: usize,
    d: Discipline,
    s: WalkState,
    fuel: nat,
)
    requires
        walk_inv(parents, children, h, s),
        s.pending.len() > 0,
        s.visited.len() + fuel >= parents.len(),
    ensures
        fuel > 0,
        run(children, d, s, fuel) == run(children, d, step(children, d, s), (fuel - 1) as nat),
        walk_inv(parents, children, h, step(children, d, s)),
        step(children, d, s).visited.len() + (fuel - 1) >= parents.len(),
{
    lemma_step_inv(parents, children, h, d, s);
    lemma_run_inv(parents, children, h, d, s, 0);
    let t = step(children, d, s);
    lemma_run_inv(parents, children, h, d, t, 0);
    assert(t.visited.len() == s.visited.len() + 1);
}

/// Every pending handle is output later in the run.
pub proof fn lemma_pending_output(
    parents: Seq<Option<usize>>,
    children: Seq<Seq<usize>>,
    h: usize,
    d: Discipline,
    s: WalkState,
    fuel: nat,
    a: usize,
)
    requires
        walk_inv(parents, children, h, s),
        s.visited.len() + fuel >= parents.len(),
        s.pending.contains(a),
    ensures
        exists|q: int| s.out.len() <= q < run(children, d, s, fuel).out.len() && run(children, d, s, fuel).out[q] == a,
    decreases fuel,
{
    lemma_run_unfold(parents, children, h, d, s, fuel);
    let k = next_index(d, s.pending.len());
    let t = step(children, d, s);
    let r = run(children, d, s, fuel);
    lemma_run_out_prefix(children, d, t, (fuel - 1) as nat);
    if s.pending[k] == a {
        assert(r.out.take(t.out.len() as int)[s.out.len() as int] == a);
        assert(r.out[s.out.len() as int] == a);
    } else {
        let i = choose|i: int| 0 <= i < s.pending.len() && s.pending[i] == a;
        let j = if i < k { i } else { i - 1 };
        assert(t.pending[j] == a);
        lemma_pending_output(parents, children, h, d, t, (fuel - 1) as nat, a);
    }
}

/// With a stack, of two pending handles the upper one is output first.
pub proof fn lemma_lifo_order(
    parents: Seq<Option<usize>>,
    children: Seq<Seq<usize>>,
    h: usize,
    s: WalkState,
    fuel: nat,
    ia: int,
    ib: int,
)
    requires
        walk_inv(parents, children, h, s),
        s.visited.len() + fuel >= parents.len(),
        0 <= ia < ib < s.pending.len(),
    ensures
        precedes(run(children, Discipline::Lifo, s, fuel).out, s.pending[ib], s.pending[ia]),
    decreases fuel,
{
    let d = Discipline::Lifo;
    lemma_run_unfold(parents, children, h, d, s, fuel);
    let top = s.pending.len() - 1;
    let t = step(children, d, s);
    let r = run(children, d, s, fuel);
    let a = s.pending[ia];
    let b = s.pending[ib];
    assert(t.pending[ia] == a);
    if ib == top {
        lemma_run_out_prefix(children, d, t, (fuel - 1) as nat);
        assert(r.out.take(t.out.len() as int)[s.out.len() as int] == b);
        assert(t.pending.contains(a));
        lemma_pending_output(parents, children, h, d, t, (fuel - 1) as nat, a);
        let q = choose|q: int| t.out.len() <= q < r.out.len() && r.out[q] == a;
        assert(r.out[s.out.len() as int] == b);
    } else {
        assert(t.pending[ib] == b);
        lemma_lifo_order(parents, children, h, t, (fuel - 1) as nat, ia, ib);
    }
}

/// With a queue, the pending handles are output next, in order.
pub proof fn lemma_fifo_prefix(
    parents: Seq<Option<usize>>,
    children: Seq<Seq<usize>>,
    h: usize,
    s: WalkState,
    fuel: nat,
    front: Seq<usize>,
)
    requires
        walk_inv(parents, children, h, s),
        s.visited.len() + fuel >= parents.len(),
        front.len() <= s.pending.len(),
        s.pending.take(front.len() as int) == front,
    ensures
        run(children, Discipline::Fifo, s, fuel).out.len() >= s.out.len() + front.len(),
        run(children, Discipline::Fifo, s, fuel).out.take((s.out.len() + front.len()) as int) == s.out + front,
    decreases front.len(),
{
    let d = Discipline::Fifo;
    let r = run(children, d, s, fuel);
    if front.len() == 0 {
        lemma_run_out_prefix(children, d, s, fuel);
        assert(s.out + front =~= s.out);
    } else {
        lemma_run_unfold(parents, children, h, d, s, fuel);
        let t = step(children, d, s);
        let rest = front.subrange(1, front.len() as int);
        assert(s.pending[0] == front[0]);
        assert(t.pending.take(rest.len() as int) =~= rest);
        lemma_fifo_prefix(parents, children, h, t, (fuel - 1) as nat, rest);
        assert(t.out + rest =~= s.out + front);
    }
}

/// A walk starts with its start handle. With a queue, the start's children
/// follow next, in the order they were added; with a stack, the last-added
/// child follows next, and of any two children the later-added one comes first.
pub proof fn lemma_walk_orders(parents: Seq<Option<usize>>, children: Seq<Seq<usize>>, h: usize)
    requires
        is_forest(parents, children),
        (h as int) < parents.len(),
    ensures
        walk(children, Discipline::Fifo, h).out.len() > children[h as int].len(),
        walk(children, Discipline::Fifo, h).out.take((children[h as int].len() + 1) as int) == seq![h]
            + children[h as int],
        walk(children, Discipline::Lifo, h).out[0] == h,
        children[h as int].len() > 0 ==> walk(children, Discipline::Lifo, h).out[1]
            == children[h as int].last(),
        forall|i: int, j: int|
            0 <= i < j < children[h as int].len() ==> precedes(
                walk(children, Discipline::Lifo, h).out,
                #[trigger] children[h as int][j],
                #[trigger] children[h as int][i],
            ),
{
    let n = parents.len();
    let cs = children[h as int];
    let s0 = start_state(h);
    lemma_start_inv(parents, children, h);
    assert(s0.visited.len() == 0);
    lemma_unvisited_none(cs);
    // the queue
    lemma_run_unfold(parents, children, h, Discipline::Fifo, s0, n);
    let f1 = step(children, Discipline::Fifo, s0);
    assert(s0.pending.remove(0) =~= Seq::<usize>::empty());
    assert(f1.pending =~= cs);
    assert(f1.out =~= seq![h]);
    assert(f1.pending.take(cs.len() as int) =~= cs);
    lemma_fifo_prefix(parents, children, h, f1, (n - 1) as nat, cs);
    // the stack
    lemma_run_unfold(parents, children, h, Discipline::Lifo, s0, n);
    let l1 = step(children, Discipline::Lifo, s0);
    assert(s0.pending.remove(0) =~= Seq::<usize>::empty());
    assert(l1.pending =~= cs);
    assert(l1.out =~= seq![h]);
    lemma_run_out_prefix(children, Discipline::Lifo, l1, (n - 1) as nat);
    let lw = walk(children, Discipline::Lifo, h);
    assert(lw.out.take(1)[0] == h);
    if cs.len() > 0 {
        lemma_run_unfold(parents, children, h, Discipline::Lifo, l1, (n - 1) as nat);
        let l2 = step(children, Discipline::Lifo, l1);
        assert(l2.out =~= seq![h, cs.last()]);
        lemma_run_out_prefix(children, Discipline::Lifo, l2, (n - 2) as nat);
        assert(lw.out.take(2)[1] == cs.last());
    }
    assert forall|i: int, j: int| 0 <= i < j < cs.len() implies precedes(
        lw.out,
        #[trigger] cs[j],
        #[trigger] cs[i],
    ) by {
        lemma_lifo_order(parents, children, h, l1, (n - 1) as nat, i, j);
    }
}

} // verus!
