//! The shape shared by both trees: parent links and child lists over the
//! handles `0..n`, where a parent always has a smaller handle than its child.
use vstd::prelude::*;

verus! {

/// `parents` and `children` describe a forest over the handles `0..parents.len()`:
/// a parent is allocated before its children, and each child list holds,
/// in increasing order, exactly the handles whose parent is that node.
pub open spec fn is_forest(parents: Seq<Option<usize>>, children: Seq<Seq<usize>>) -> bool {
    &&& parents.len() == children.len()
    &&& forall|h: int|
        0 <= h < parents.len() && (#[trigger] parents[h]) is Some ==> (parents[h]->0 as int) < h
    &&& forall|p: int, i: int|
        0 <= p < children.len() && 0 <= i < children[p].len() ==> {
            &&& (#[trigger] children[p][i] as int) < parents.len()
            &&& parents[children[p][i] as int] == Some(p as usize)
        }
    &&& forall|p: int, i: int, j: int|
        0 <= p < children.len() && 0 <= i < j < children[p].len() ==> #[trigger] children[p][i]
            < #[trigger] children[p][j]
    &&& forall|h: int|
        0 <= h < parents.len() && (#[trigger] parents[h]) is Some ==> children[parents[h]->0 as int].contains(
            h as usize,
        )
}

/// Adding a root keeps the forest shape.
pub proof fn lemma_push_root(parents: Seq<Option<usize>>, children: Seq<Seq<usize>>)
    requires
        is_forest(parents, children),
    ensures
        is_forest(parents.push(None), children.push(Seq::empty())),
{
    let n = parents.len();
    let ps = parents.push(None);
    let cs = children.push(Seq::empty());
    assert forall|h: int| 0 <= h < ps.len() && (#[trigger] ps[h]) is Some implies cs[ps[h]->0 as int].contains(
        h as usize,
    ) by {
        assert(parents[h] is Some);
        assert(children[parents[h]->0 as int].contains(h as usize));
    }
}

/// Adding a node under an existing parent `p` keeps the forest shape.
pub proof fn lemma_push_child(parents: Seq<Option<usize>>, children: Seq<Seq<usize>>, p: usize)
    requires
        is_forest(parents, children),
        (p as int) < parents.len(),
        parents.len() < usize::MAX,
    ensures
        is_forest(
            parents.push(Some(p)),
            children.push(Seq::empty()).update(p as int, children[p as int].push(parents.len() as usize)),
        ),
{
    let n = parents.len();
    let ps = parents.push(Some(p));
    let cs = children.push(Seq::empty()).update(p as int, children[p as int].push(n as usize));
    assert forall|q: int, i: int| 0 <= q < cs.len() && 0 <= i < cs[q].len() implies {
        &&& (#[trigger] cs[q][i] as int) < ps.len()
        &&& ps[cs[q][i] as int] == Some(q as usize)
    } by {
        if q != p && q < n {
            assert(cs[q] == children[q]);
        }
    }
    assert forall|q: int, i: int, j: int| 0 <= q < cs.len() && 0 <= i < j < cs[q].len() implies #[trigger] cs[q][i]
        < #[trigger] cs[q][j] by {
        if q == p && j == cs[q].len() - 1 {
            assert(children[q][i] < n);
        } else if q < n {
            assert(cs[q][i] == children[q][i]);
        }
    }
    assert forall|h: int| 0 <= h < ps.len() && (#[trigger] ps[h]) is Some implies cs[ps[h]->0 as int].contains(
        h as usize,
    ) by {
        if h == n {
            assert(cs[p as int][children[p as int].len() as int] == n);
        } else {
            let q = parents[h]->0 as int;
            let k = choose|k: int| 0 <= k < children[q].len() && children[q][k] == h as usize;
            assert(cs[q][k] == h as usize);
        }
    }
}

/// The handle reached from `h` by following `k` parent links (`None` once a
/// root has been passed).
pub open spec fn ancestor(parents: Seq<Option<usize>>, h: Option<usize>, k: nat) -> Option<usize>
    decreases k,
{
    if k == 0 {
        h
    } else {
        match h {
            None => None,
            Some(x) => ancestor(parents, parents[x as int], (k - 1) as nat),
        }
    }
}

/// In a forest, more than `h` parent steps from `h` lead past a root.
pub proof fn lemma_ancestors_end(parents: Seq<Option<usize>>, children: Seq<Seq<usize>>, h: usize, k: nat)
    requires
        is_forest(parents, children),
        (h as int) < parents.len(),
        k > h,
    ensures
        ancestor(parents, Some(h), k) is None,
    decreases h,
{
    match parents[h as int] {
        None => {
            lemma_ancestor_of_none(parents, (k - 1) as nat);
        },
        Some(p) => {
            lemma_ancestors_end(parents, children, p, (k - 1) as nat);
        },
    }
}

/// Past a root nothing is reached.
pub proof fn lemma_ancestor_of_none(parents: Seq<Option<usize>>, k: nat)
    ensures
        ancestor(parents, None, k) is None,
{
}

} // verus!
