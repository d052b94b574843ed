//! The name index: a look-up tree whose nodes are identified by unique names.
use vstd::prelude::*;

use crate::error::TreeError;
use crate::forest::{is_forest, lemma_push_child, lemma_push_root};
use crate::search_buffer::{Discipline, SearchBuffer};
use crate::walk::{
    lemma_run_inv, lemma_start_inv, lemma_step_inv, run, start_state, step, unvisited, walk, walk_inv,
};

use std::collections::{HashSet, VecDeque};

verus! {

/// A look-up tree whose nodes are named by unique strings.
#[derive(Debug)]
pub struct NamedLuTree {
    names: Vec<String>,
    parents: Vec<Option<usize>>,
    children: Vec<Vec<usize>>,
}

/// The abstract content of a [`NamedLuTree`]: three sequences indexed by handle.
pub struct NamedLuTreeView {
    pub names: Seq<Seq<char>>,
    pub parents: Seq<Option<usize>>,
    pub children: Seq<Seq<usize>>,
}

impl NamedLuTreeView {
    /// The number of allocated handles.
    pub open spec fn len(self) -> nat {
        self.names.len()
    }

    /// No two distinct handles carry the same name.
    pub open spec fn names_unique(self) -> bool {
        forall|i: int, j: int|
            0 <= i < self.names.len() && 0 <= j < self.names.len() && i != j ==> #[trigger] self.names[i]
                != #[trigger] self.names[j]
    }

    /// The sequences agree in length, form a forest, and names are unique.
    pub open spec fn wf(self) -> bool {
        &&& is_forest(self.parents, self.children)
        &&& self.names.len() == self.parents.len()
        &&& self.names_unique()
    }

    /// `name` is registered.
    pub open spec fn has(self, name: Seq<char>) -> bool {
        self.names.contains(name)
    }

    /// The handle registered under `name` (meaningful when `has(name)`).
    pub open spec fn handle(self, name: Seq<char>) -> int {
        choose|i: int| 0 <= i < self.names.len() && self.names[i] == name
    }

    /// The names, in order, that a traversal from the node named `start`
    /// outputs with buffer discipline `d`.
    pub open spec fn traversal(self, start: Seq<char>, d: Discipline) -> Seq<Seq<char>> {
        walk(self.children, d, self.handle(start) as usize).out.map_values(|h: usize| self.names[h as int])
    }

    /// The store after registering `name` as a new root, unless it is known already.
    pub open spec fn with_root(self, name: Seq<char>) -> NamedLuTreeView {
        if self.has(name) {
            self
        } else {
            NamedLuTreeView {
                names: self.names.push(name),
                parents: self.parents.push(None),
                children: self.children.push(Seq::empty()),
            }
        }
    }

    /// The store after registering `name` as a new last child of the handle `p`.
    pub open spec fn with_child(self, name: Seq<char>, p: int) -> NamedLuTreeView {
        NamedLuTreeView {
            names: self.names.push(name),
            parents: self.parents.push(Some(p as usize)),
            children: self.children.push(Seq::empty()).update(
                p,
                self.children[p].push(self.len() as usize),
            ),
        }
    }

    /// The store after `add_to_parent(child, parent)`: unchanged when the parent
    /// is unknown or the child is already registered.
    pub open spec fn add_to_parent(self, child: Seq<char>, parent: Seq<char>) -> NamedLuTreeView {
        if !self.has(parent) || self.has(child) {
            self
        } else {
            self.with_child(child, self.handle(parent))
        }
    }

    /// What `add_to_parent(child, parent)` returns on this store.
    pub open spec fn add_to_parent_outcome(self, child: Seq<char>, parent: Seq<char>) -> Result<
        usize,
        TreeError,
    > {
        if !self.has(parent) {
            Err(TreeError::UnknownParent)
        } else if self.has(child) {
            Err(TreeError::DuplicateNode)
        } else {
            Ok(self.len() as usize)
        }
    }

    /// The store after adding each of `kids`, in order, under `parent`.
    pub open spec fn add_all(self, parent: Seq<char>, kids: Seq<Seq<char>>) -> NamedLuTreeView
        decreases kids.len(),
    {
        if kids.len() == 0 {
            self
        } else {
            self.add_all(parent, kids.drop_last()).add_to_parent(kids.last(), parent)
        }
    }
}

impl View for NamedLuTree {
    type V = NamedLuTreeView;

    closed spec fn view(&self) -> NamedLuTreeView {
        NamedLuTreeView {
            names: self.names@.map_values(|s: String| s@),
            parents: self.parents@,
            children: self.children@.map_values(|c: Vec<usize>| c@),
        }
    }
}

/// Registering a name under a known handle keeps the store well formed.
pub proof fn lemma_with_child_wf(v: NamedLuTreeView, name: Seq<char>, p: int)
    requires
        v.wf(),
        0 <= p < v.len(),
        v.len() < usize::MAX,
        !v.has(name),
    ensures
        v.with_child(name, p).wf(),
{
    lemma_push_child(v.parents, v.children, p as usize);
    let w = v.with_child(name, p);
    assert forall|i: int, j: int|
        0 <= i < w.names.len() && 0 <= j < w.names.len() && i != j implies #[trigger] w.names[i]
        != #[trigger] w.names[j] by {
        if i == v.len() {
            assert(v.names[j] == w.names[j]);
        } else if j == v.len() {
            assert(v.names[i] == w.names[i]);
        }
    }
}

/// Registering a new root keeps the store well formed.
pub proof fn lemma_with_root_wf(v: NamedLuTreeView, name: Seq<char>)
    requires
        v.wf(),
    ensures
        v.with_root(name).wf(),
{
    if !v.has(name) {
        lemma_push_root(v.parents, v.children);
        let w = v.with_root(name);
        assert forall|i: int, j: int|
            0 <= i < w.names.len() && 0 <= j < w.names.len() && i != j implies #[trigger] w.names[i]
            != #[trigger] w.names[j] by {
            if i == v.len() {
                assert(v.names[j] == w.names[j]);
            } else if j == v.len() {
                assert(v.names[i] == w.names[i]);
            }
        }
    }
}

/// In a well-formed store, the handle of the name at index `i` is `i`.
pub proof fn lemma_handle_of_index(v: NamedLuTreeView, i: int)
    requires
        v.wf(),
        0 <= i < v.len(),
    ensures
        v.has(v.names[i]),
        v.handle(v.names[i]) == i,
{
    assert(v.names[i] == v.names[i]);
    let k = v.handle(v.names[i]);
    if k != i {
        assert(v.names[k] != v.names[i]);
    }
}

/// Adding a node under an existing name keeps the store well formed and
/// leaves the names already registered at their handles.
pub proof fn lemma_add_to_parent_grows(v: NamedLuTreeView, child: Seq<char>, parent: Seq<char>)
    requires
        v.wf(),
        v.len() < usize::MAX,
    ensures
        v.add_to_parent(child, parent).wf(),
        v.len() <= v.add_to_parent(child, parent).len() <= v.len() + 1,
        forall|i: int| 0 <= i < v.len() ==> #[trigger] v.add_to_parent(child, parent).names[i] == v.names[i],
{
    if v.has(parent) && !v.has(child) {
        let p = v.handle(parent);
        assert(0 <= p < v.len() && v.names[p] == parent);
        lemma_with_child_wf(v, child, p);
    }
}

/// Adding several nodes under one name keeps the store well formed and
/// leaves the names already registered at their handles.
pub proof fn lemma_add_all_grows(v: NamedLuTreeView, parent: Seq<char>, kids: Seq<Seq<char>>)
    requires
        v.wf(),
        v.len() + kids.len() <= usize::MAX,
    ensures
        v.add_all(parent, kids).wf(),
        v.len() <= v.add_all(parent, kids).len() <= v.len() + kids.len(),
        forall|i: int| 0 <= i < v.len() ==> #[trigger] v.add_all(parent, kids).names[i] == v.names[i],
    decreases kids.len(),
{
    if kids.len() > 0 {
        lemma_add_all_grows(v, parent, kids.drop_last());
        lemma_add_to_parent_grows(v.add_all(parent, kids.drop_last()), kids.last(), parent);
    }
}

impl NamedLuTree {
    /// Well-formedness of the store.
    pub open spec fn wf(&self) -> bool {
        self@.wf()
    }

    /// The content of an empty store.
    pub open spec fn new_view() -> NamedLuTreeView {
        NamedLuTreeView { names: Seq::empty(), parents: Seq::empty(), children: Seq::empty() }
    }

    /// An empty look-up tree.
    pub fn new() -> (r: NamedLuTree)
        ensures
            r.wf(),
            r@ == NamedLuTree::new_view(),
    {
        let r = NamedLuTree { names: Vec::new(), parents: Vec::new(), children: Vec::new() };
        assert(r@.names =~= Seq::<Seq<char>>::empty());
        assert(r@.children =~= Seq::<Seq<usize>>::empty());
        assert(r@.parents =~= Seq::<Option<usize>>::empty());
        r
    }

    /// The number of nodes in the store.
    pub fn len(&self) -> (r: usize)
        requires
            self.wf(),
        ensures
            r == self@.len(),
    {
        self.names.len()
    }

    /// The handle registered under `name`, if any.
    pub fn lookup(&self, name: &String) -> (r: Option<usize>)
        requires
            self.wf(),
        ensures
            match r {
                Some(h) => self@.has(name@) && h == self@.handle(name@),
                None => !self@.has(name@),
            },
    {
        let ghost v = self@;
        let mut i: usize = 0;
        while i < self.names.len()
            invariant
                v == self@,
                v.wf(),
                i <= self.names.len(),
                forall|j: int| 0 <= j < i ==> v.names[j] != name@,
            decreases self.names.len() - i,
        {
            if self.names[i] == *name {
                proof {
                    assert(v.names[i as int] == name@);
                    assert(v.names.contains(name@));
                    let h = v.handle(name@);
                    assert(0 <= h < v.names.len() && v.names[h] == name@);
                    if h != i as int {
                        assert(v.names[h] != v.names[i as int]);
                    }
                }
                return Some(i);
            }
            i = i + 1;
        }
        proof {
            if v.has(name@) {
                let k = choose|k: int| 0 <= k < v.names.len() && v.names[k] == name@;
                assert(v.names[k] == name@);
            }
        }
        None
    }
    /// Appends a node named `name` under the handle `p` (or as a root); no checks.
    fn push_node(&mut self, name: String, parent: Option<usize>)
        requires
            old(self).wf(),
            old(self)@.len() < usize::MAX,
            !old(self)@.has(name@),
            match parent {
                Some(p) => p < old(self)@.len(),
                None => true,
            },
        ensures
            final(self).wf(),
            final(self)@ == match parent {
                Some(p) => old(self)@.with_child(name@, p as int),
                None => old(self)@.with_root(name@),
            },
    {
        let ghost v = self@;
        let ghost nm = name@;
        let node_idx = self.names.len();
        self.names.push(name);
        self.parents.push(parent);
        self.children.push(Vec::new());
        match parent {
            Some(p) => {
                self.children[p].push(node_idx);
                proof {
                    lemma_with_child_wf(v, nm, p as int);
                    assert(self@.names =~= v.with_child(nm, p as int).names);
                    assert(self@.children =~= v.with_child(nm, p as int).children);
                }
            },
            None => {
                proof {
                    lemma_with_root_wf(v, nm);
                    assert(self@.names =~= v.with_root(nm).names);
                    assert(self@.children =~= v.with_root(nm).children);
                }
            },
        }
    }

    /// Registers `name` as a new root unless it is known already; returns its handle.
    pub fn insert_root_if_absent(&mut self, name: String) -> (r: usize)
        requires
            old(self).wf(),
            old(self)@.len() < usize::MAX,
        ensures
            final(self).wf(),
            final(self)@ == old(self)@.with_root(name@),
            final(self)@.has(name@),
            r == final(self)@.handle(name@),
            old(self)@.has(name@) ==> r == old(self)@.handle(name@),
            !old(self)@.has(name@) ==> r == old(self)@.len(),
    {
        match self.lookup(&name) {
            Some(h) => h,
            None => {
                let h = self.names.len();
                let ghost nm = name@;
                self.push_node(name, None);
                proof {
                    let w = self@;
                    assert(w.names[h as int] == nm);
                    assert(w.has(nm));
                    let k = w.handle(nm);
                    if k != h as int {
                        assert(w.names[k] != w.names[h as int]);
                    }
                }
                h
            },
        }
    }

    /// Registers `child` as the last child of the node named `parent`.
    /// Fails with `UnknownParent` if `parent` is not registered, and with
    /// `DuplicateNode` if `child` is registered already; the store is then unchanged.
    pub fn add_to_parent(&mut self, child: String, parent: String) -> (r: Result<usize, TreeError>)
        requires
            old(self).wf(),
            old(self)@.len() < usize::MAX,
        ensures
            final(self).wf(),
            final(self)@ == old(self)@.add_to_parent(child@, parent@),
            r == old(self)@.add_to_parent_outcome(child@, parent@),
            !old(self)@.has(parent@) ==> r == Err::<usize, TreeError>(TreeError::UnknownParent),
            old(self)@.has(parent@) && old(self)@.has(child@) ==> r == Err::<usize, TreeError>(
                TreeError::DuplicateNode,
            ),
            old(self)@.has(parent@) && !old(self)@.has(child@) ==> {
                &&& r == Ok::<usize, TreeError>(old(self)@.len() as usize)
                &&& final(self)@ == old(self)@.with_child(child@, old(self)@.handle(parent@))
            },
    {
        let p_idx = match self.lookup(&parent) {
            Some(p) => p,
            None => return Err(TreeError::UnknownParent),
        };
        if self.lookup(&child).is_some() {
            return Err(TreeError::DuplicateNode);
        }
        let node_idx = self.names.len();
        self.push_node(child, Some(p_idx));
        Ok(node_idx)
    }
    /// Ensures `name` exists (as a new root if it was unknown), then adds each of
    /// `children` under it in order. A child that cannot be added (its name is
    /// registered already) is skipped. Returns the handle of `name`.
    pub fn add_with_children(&mut self, name: String, children: Vec<String>) -> (r: usize)
        requires
            old(self).wf(),
            old(self)@.len() + children.len() < usize::MAX,
        ensures
            final(self).wf(),
            final(self)@ == old(self)@.with_root(name@).add_all(
                name@,
                children@.map_values(|c: String| c@),
            ),
            final(self)@.has(name@),
            r == final(self)@.handle(name@),
            r == old(self)@.with_root(name@).handle(name@),
    {
        let r = self.insert_root_if_absent(name.clone());
        let ghost v0 = self@;
        let ghost kids = children@.map_values(|c: String| c@);
        let mut i: usize = 0;
        while i < children.len()
            invariant
                self.wf(),
                v0.wf(),
                v0.len() <= old(self)@.len() + 1,
                old(self)@.len() + children.len() < usize::MAX,
                v0.names[r as int] == name@,
                (r as int) < v0.len(),
                kids == children@.map_values(|c: String| c@),
                i <= children.len(),
                self@ == v0.add_all(name@, kids.take(i as int)),
            decreases children.len() - i,
        {
            let ghost before = self@;
            proof {
                lemma_add_all_grows(v0, name@, kids.take(i as int));
            }
            let _ = self.add_to_parent(children[i].clone(), name.clone());
            proof {
                assert(kids.take(i + 1).drop_last() =~= kids.take(i as int));
                assert(kids.take(i + 1).last() == children@[i as int]@);
            }
            i = i + 1;
        }
        proof {
            assert(kids.take(children.len() as int) =~= kids);
            lemma_add_all_grows(v0, name@, kids);
            lemma_handle_of_index(self@, r as int);
            lemma_handle_of_index(v0, r as int);
        }
        r
    }

    /// [`NamedLuTree::add_with_children`] on string slices.
    pub fn add_with_children_r(&mut self, name: &str, children: Vec<&str>) -> (r: usize)
        requires
            old(self).wf(),
            old(self)@.len() + children.len() < usize::MAX,
        ensures
            final(self).wf(),
            final(self)@ == old(self)@.with_root(name@).add_all(
                name@,
                children@.map_values(|c: &str| c@),
            ),
            final(self)@.has(name@),
            r == final(self)@.handle(name@),
    {
        let mut owned: Vec<String> = Vec::new();
        let mut i: usize = 0;
        while i < children.len()
            invariant
                i <= children.len(),
                owned@.len() == i,
                forall|j: int| 0 <= j < i ==> #[trigger] owned@[j]@ == children@[j]@,
            decreases children.len() - i,
        {
            owned.push(String::from_str(children[i]));
            i = i + 1;
        }
        proof {
            assert(owned@.map_values(|c: String| c@) =~= children@.map_values(|c: &str| c@));
        }
        self.add_with_children(String::from_str(name), owned)
    }
    /// Walks the tree from the node named `start`, taking pending nodes from
    /// `buffer`: a stack yields depth-first order, a queue breadth-first order.
    /// Fails with `StartNotFound` if `start` is not registered.
    pub fn traverse<B: SearchBuffer<usize>>(&self, start: String, buffer: &mut B) -> (r: Result<
        Vec<String>,
        TreeError,
    >)
        requires
            self.wf(),
            old(buffer).pending().len() == 0,
        ensures
            final(buffer).discipline() == old(buffer).discipline(),
            match r {
                Ok(v) => self@.has(start@) && v@.map_values(|s: String| s@) == self@.traversal(
                    start@,
                    old(buffer).discipline(),
                ),
                Err(e) => !self@.has(start@) && e == TreeError::StartNotFound,
            },
    {
        broadcast use vstd::std_specs::hash::group_hash_axioms;

        let ghost v = self@;
        let ghost d = buffer.discipline();
        let mut visited: HashSet<usize> = HashSet::new();
        let mut traversal: Vec<String> = Vec::new();
        let start_idx = match self.lookup(&start) {
            Some(i) => i,
            None => return Err(TreeError::StartNotFound),
        };
        let n = self.names.len();
        buffer.enlist(start_idx);
        let ghost mut s = start_state(start_idx);
        proof {
            assert(buffer.pending() =~= s.pending);
            assert(visited@ =~= s.visited);
            assert(traversal@.map_values(|t: String| t@) =~= s.out.map_values(|h: usize| v.names[h as int]));
            lemma_start_inv(v.parents, v.children, start_idx);
            lemma_run_inv(v.parents, v.children, start_idx, d, s, v.len());
        }
        while !buffer.is_empty()
            invariant
                v == self@,
                v.wf(),
                v.has(start@),
                n == v.len(),
                start_idx == v.handle(start@),
                buffer.discipline() == d,
                walk_inv(v.parents, v.children, start_idx, s),
                buffer.pending() == s.pending,
                visited@ == s.visited,
                traversal@.map_values(|t: String| t@) == s.out.map_values(|h: usize| v.names[h as int]),
                s.visited.finite(),
                s.visited.len() <= v.len(),
                run(v.children, d, s, (v.len() - s.visited.len()) as nat) == walk(v.children, d, start_idx),
            decreases v.len() - s.visited.len(),
        {
            proof {
                lemma_step_inv(v.parents, v.children, start_idx, d, s);
            }
            let node_idx = buffer.get_next().unwrap();
            let ghost rest = buffer.pending();
            let ghost cs = v.children[node_idx as int];
            let mut j: usize = 0;
            while j < self.children[node_idx].len()
                invariant
                    v == self@,
                    v.wf(),
                    (node_idx as int) < v.len(),
                    cs == v.children[node_idx as int],
                    buffer.discipline() == d,
                    visited@ == s.visited,
                    j <= cs.len(),
                    buffer.pending() == rest + unvisited(cs.take(j as int), s.visited),
                decreases cs.len() - j,
            {
                let c = self.children[node_idx][j];
                proof {
                    assert(cs.take(j + 1).drop_last() =~= cs.take(j as int));
                    assert(cs.take(j + 1).last() == c);
                }
                if !visited.contains(&c) {
                    buffer.enlist(c);
                    proof {
                        assert(buffer.pending() =~= rest + unvisited(cs.take(j + 1), s.visited));
                    }
                }
                j = j + 1;
            }
            proof {
                assert(cs.take(cs.len() as int) =~= cs);
            }
            let ghost prev = traversal@;
            let name = self.names[node_idx].clone();
            traversal.push(name);
            visited.insert(node_idx);
            proof {
                let t = step(v.children, d, s);
                lemma_run_inv(v.parents, v.children, start_idx, d, t, 0);
                assert(s.pending.len() > 0);
                assert(t.visited.len() == s.visited.len() + 1);
                assert(run(v.children, d, s, (v.len() - s.visited.len()) as nat) == run(
                    v.children,
                    d,
                    t,
                    (v.len() - t.visited.len()) as nat,
                ));
                assert(t.out == s.out.push(node_idx));
                assert(prev.map_values(|t: String| t@).len() == prev.len());
                assert(s.out.map_values(|h: usize| v.names[h as int]).len() == s.out.len());
                assert(prev.len() == s.out.len());
                assert(name@ == v.names[node_idx as int]);
                assert forall|i: int| 0 <= i < traversal@.len() implies #[trigger] traversal@[i]@ == v.names[t.out[i] as int] by {
                    if i < prev.len() {
                        assert(prev.map_values(|t: String| t@)[i] == s.out.map_values(|h: usize| v.names[h as int])[i]);
                    }
                }
                assert(traversal@.map_values(|t: String| t@) =~= t.out.map_values(|h: usize| v.names[h as int]));
                s = t;
            }
        }
        proof {
            assert(run(v.children, d, s, (v.len() - s.visited.len()) as nat) == s);
        }
        Ok(traversal)
    }

    /// Depth-first traversal from the node named `start` (children are taken
    /// last-added first).
    pub fn dfs(&self, start: String) -> (r: Result<Vec<String>, TreeError>)
        requires
            self.wf(),
        ensures
            match r {
                Ok(v) => self@.has(start@) && v@.map_values(|s: String| s@) == self@.traversal(
                    start@,
                    Discipline::Lifo,
                ),
                Err(e) => !self@.has(start@) && e == TreeError::StartNotFound,
            },
    {
        let mut stack: Vec<usize> = Vec::new();
        self.traverse(start, &mut stack)
    }

    /// Breadth-first traversal from the node named `start`.
    pub fn bfs(&self, start: String) -> (r: Result<Vec<String>, TreeError>)
        requires
            self.wf(),
        ensures
            match r {
                Ok(v) => self@.has(start@) && v@.map_values(|s: String| s@) == self@.traversal(
                    start@,
                    Discipline::Fifo,
                ),
                Err(e) => !self@.has(start@) && e == TreeError::StartNotFound,
            },
    {
        let mut queue: VecDeque<usize> = VecDeque::new();
        self.traverse(start, &mut queue)
    }
    /// The children of the node with handle `node`, in the order they were added.
    pub fn children(&self, node: usize) -> (r: Result<Vec<usize>, TreeError>)
        requires
            self.wf(),
        ensures
            match r {
                Ok(c) => node < self@.len() && c@ == self@.children[node as int],
                Err(e) => node >= self@.len() && e == TreeError::OutOfBounds,
            },
    {
        if node < self.children.len() {
            Ok(self.children[node].clone())
        } else {
            Err(TreeError::OutOfBounds)
        }
    }

    /// The parent of the node with handle `node`; `NoParent` for a root.
    pub fn parent(&self, node: usize) -> (r: Result<usize, TreeError>)
        requires
            self.wf(),
        ensures
            node >= self@.len() ==> r == Err::<usize, TreeError>(TreeError::OutOfBounds),
            node < self@.len() ==> r == match self@.parents[node as int] {
                Some(p) => Ok::<usize, TreeError>(p),
                None => Err(TreeError::NoParent),
            },
    {
        if node < self.parents.len() {
            match self.parents[node] {
                Some(p) => Ok(p),
                None => Err(TreeError::NoParent),
            }
        } else {
            Err(TreeError::OutOfBounds)
        }
    }
}

} // verus!
