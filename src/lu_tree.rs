//! The arena store: payloads, parent links and child lists in parallel
//! vectors, addressed by dense integer handles.
use vstd::prelude::*;

use crate::error::TreeError;
use crate::forest::{is_forest, lemma_push_child, lemma_push_root};

verus! {

/// A look-up tree whose nodes carry a payload of type `T`.
pub struct LuTree<T> {
    parents: Vec<Option<usize>>,
    children: Vec<Vec<usize>>,
    data: Vec<T>,
}

/// The abstract content of a [`LuTree`].
pub struct LuTreeView<T> {
    pub parents: Seq<Option<usize>>,
    pub children: Seq<Seq<usize>>,
    pub data: Seq<T>,
}

impl<T> LuTreeView<T> {
    /// The number of allocated handles.
    pub open spec fn len(self) -> nat {
        self.parents.len()
    }

    /// The parallel sequences agree in length and form a forest.
    pub open spec fn wf(self) -> bool {
        &&& is_forest(self.parents, self.children)
        &&& self.data.len() == self.parents.len()
    }
}

impl<T> View for LuTree<T> {
    type V = LuTreeView<T>;

    closed spec fn view(&self) -> LuTreeView<T> {
        LuTreeView {
            parents: self.parents@,
            children: self.children@.map_values(|c: Vec<usize>| c@),
            data: self.data@,
        }
    }
}

impl<T: Clone> LuTree<T> {
    /// Well-formedness of the store.
    pub open spec fn wf(&self) -> bool {
        self@.wf()
    }

    /// An empty store.
    pub fn new() -> (r: LuTree<T>)
        ensures
            r.wf(),
            r@.len() == 0,
    {
        let r = LuTree::<T> { parents: Vec::new(), children: Vec::new(), data: Vec::new() };
        assert(r@.children =~= Seq::<Seq<usize>>::empty());
        r
    }

    /// Appends a node with payload `data`; with `Some(p)` the new node
    /// becomes the last child of `p`. Fails if `p` is not an allocated handle.
    pub fn add_node(&mut self, parent: Option<usize>, data: T) -> (r: Result<usize, TreeError>)
        requires
            old(self).wf(),
            old(self)@.len() < usize::MAX,
        ensures
            final(self).wf(),
            match parent {
                Some(p) if p >= old(self)@.len() => {
                    &&& r == Err::<usize, TreeError>(TreeError::OutOfBounds)
                    &&& final(self)@ == old(self)@
                },
                Some(p) => {
                    &&& r == Ok::<usize, TreeError>(old(self)@.len() as usize)
                    &&& final(self)@.parents == old(self)@.parents.push(Some(p))
                    &&& final(self)@.children == old(self)@.children.push(Seq::empty()).update(
                        p as int,
                        old(self)@.children[p as int].push(old(self)@.len() as usize),
                    )
                    &&& final(self)@.data == old(self)@.data.push(data)
                },
                None => {
                    &&& r == Ok::<usize, TreeError>(old(self)@.len() as usize)
                    &&& final(self)@.parents == old(self)@.parents.push(None)
                    &&& final(self)@.children == old(self)@.children.push(Seq::empty())
                    &&& final(self)@.data == old(self)@.data.push(data)
                },
            },
    {
        let node_id = self.parents.len();
        proof {
            assert(self.children@.map_values(|c: Vec<usize>| c@).len() == self.children@.len());
        }
        match parent {
            Some(p) => {
                if p >= node_id {
                    return Err(TreeError::OutOfBounds);
                }
                proof {
                    lemma_push_child(self@.parents, self@.children, p);
                }
                self.parents.push(Some(p));
                self.children.push(Vec::new());
                self.children[p].push(node_id);
                proof {
                    assert(self@.children =~= old(self)@.children.push(Seq::empty()).update(
                        p as int,
                        old(self)@.children[p as int].push(node_id),
                    ));
                }
            },
            None => {
                proof {
                    lemma_push_root(self@.parents, self@.children);
                }
                self.parents.push(None);
                self.children.push(Vec::new());
                proof {
                    assert(self@.children =~= old(self)@.children.push(Seq::empty()));
                }
            },
        }
        self.data.push(data);
        Ok(node_id)
    }
    /// Replaces the payload of `node`.
    pub fn set(&mut self, node: usize, data: T) -> (r: Result<(), TreeError>)
        requires
            old(self).wf(),
        ensures
            final(self).wf(),
            final(self)@.parents == old(self)@.parents,
            final(self)@.children == old(self)@.children,
            node < old(self)@.len() ==> {
                &&& r == Ok::<(), TreeError>(())
                &&& final(self)@.data == old(self)@.data.update(node as int, data)
            },
            node >= old(self)@.len() ==> {
                &&& r == Err::<(), TreeError>(TreeError::OutOfBounds)
                &&& final(self)@.data == old(self)@.data
            },
    {
        if node < self.data.len() {
            self.data.set(node, data);
            Ok(())
        } else {
            Err(TreeError::OutOfBounds)
        }
    }

    /// A clone of the payload of `node`.
    pub fn get(&self, node: usize) -> (r: Result<T, TreeError>)
        requires
            self.wf(),
        ensures
            match r {
                Ok(v) => node < self@.len() && cloned(self@.data[node as int], v),
                Err(e) => node >= self@.len() && e == TreeError::OutOfBounds,
            },
    {
        if node < self.data.len() {
            Ok(self.data[node].clone())
        } else {
            Err(TreeError::OutOfBounds)
        }
    }

    /// The parent of `node`; `NoParent` for a root.
    pub fn parent(&self, node: usize) -> (r: Result<usize, TreeError>)
        requires
            self.wf(),
        ensures
            node >= self@.len() ==> r == Err::<usize, TreeError>(TreeError::OutOfBounds),
            node < self@.len() ==> r == match self@.parents[node as int] {
                Some(p) => Ok::<usize, TreeError>(p),
                None => Err(TreeError::NoParent),
            },
    {
        if node < self.parents.len() {
            match self.parents[node] {
                Some(p) => Ok(p),
                None => Err(TreeError::NoParent),
            }
        } else {
            Err(TreeError::OutOfBounds)
        }
    }

    /// The children of `node`, in the order they were added.
    pub fn children(&self, node: usize) -> (r: Result<Vec<usize>, TreeError>)
        requires
            self.wf(),
        ensures
            match r {
                Ok(c) => node < self@.len() && c@ == self@.children[node as int],
                Err(e) => node >= self@.len() && e == TreeError::OutOfBounds,
            },
    {
        if node < self.children.len() {
            Ok(self.children[node].clone())
        } else {
            Err(TreeError::OutOfBounds)
        }
    }
}

} // verus!
