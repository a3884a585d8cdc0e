//! The node store: the capability a backend offers the resolver, and the
//! in-memory adjacency-list store that is the reference backend.

use vstd::prelude::*;
use crate::node::{Node, NodeKind, NodeView};
use crate::ROOT_ID;

verus! {

/// What a backend must offer: a child lookup by `(parent, key)` and a listing
/// of all children of a parent. Both are described by the backend's own spec
/// functions `child_of` and `kids_of`, so one resolver serves every backend.
pub trait NodeStore {
    /// The backend's well-formedness: what its constructors establish and its
    /// lookups rely on.
    spec fn wf(&self) -> bool;

    /// The child of `parent` addressed by segment `key`, if any.
    spec fn child_of(&self, parent: u64, key: Seq<char>) -> Option<NodeView>;

    /// All children of `parent`, in the backend's enumeration order; empty
    /// when the parent has no children or is no folder.
    spec fn kids_of(&self, parent: u64) -> Seq<NodeView>;

    /// Looks the child up; absence of a match is a normal outcome, not an
    /// error.
    fn child_by_key(&self, parent: u64, key: &String) -> (r: Option<Node>)
        requires
            self.wf(),
        ensures
            (match r {
                Some(n) => self.child_of(parent, key@) == Some(n@),
                None => self.child_of(parent, key@) is None,
            }),
    ;

    /// Lists all children of `parent`.
    fn children_of(&self, parent: u64) -> (r: Vec<Node>)
        requires
            self.wf(),
        ensures
            r.deep_view() == self.kids_of(parent),
    ;
}

/// Some node of `ns` already carries this id.
pub open spec fn id_taken(ns: Seq<NodeView>, id: u64) -> bool {
    exists|j: int| 0 <= j < ns.len() && (#[trigger] ns[j]).id == id
}

/// Some node of `ns` already sits under `parent` with segment `key`.
pub open spec fn slot_taken(ns: Seq<NodeView>, parent: u64, key: Seq<char>) -> bool {
    exists|j: int| 0 <= j < ns.len() && (#[trigger] ns[j]).parent_id == parent && ns[j].key == key
}

/// Some node of `ns` is a folder with this id.
pub open spec fn folder_exists(ns: Seq<NodeView>, id: u64) -> bool {
    exists|j: int| 0 <= j < ns.len() && (#[trigger] ns[j]).id == id && ns[j].kind is Folder
}

/// The in-memory store's invariant: ids are real (never the root sentinel)
/// and unique, sibling keys are unique, and every parent is either the root
/// sentinel or an existing folder.
pub open spec fn store_wf(ns: Seq<NodeView>) -> bool {
    &&& (forall|i: int| 0 <= i < ns.len() ==> (#[trigger] ns[i]).id != ROOT_ID)
    &&& (forall|i: int, j: int|
        0 <= i < ns.len() && 0 <= j < ns.len() && i != j ==> (#[trigger] ns[i]).id != (
        #[trigger] ns[j]).id)
    &&& (forall|i: int, j: int|
        0 <= i < ns.len() && 0 <= j < ns.len() && i != j && (#[trigger] ns[i]).parent_id == (
        #[trigger] ns[j]).parent_id ==> ns[i].key != ns[j].key)
    &&& (forall|i: int|
        0 <= i < ns.len() ==> (#[trigger] ns[i]).parent_id == ROOT_ID || folder_exists(
            ns,
            ns[i].parent_id,
        ))
}

/// A fresh node may enter the store when its id is real and unused, its
/// `(parent, key)` slot is free, and its parent is the root sentinel or an
/// existing folder.
pub open spec fn can_insert(ns: Seq<NodeView>, n: NodeView) -> bool {
    &&& n.id != ROOT_ID
    &&& !id_taken(ns, n.id)
    &&& !slot_taken(ns, n.parent_id, n.key)
    &&& (n.parent_id == ROOT_ID || folder_exists(ns, n.parent_id))
}

/// The first node of `ns` under `parent` with segment `key`; under
/// `store_wf` there is at most one.
pub open spec fn first_match(ns: Seq<NodeView>, parent: u64, key: Seq<char>) -> Option<NodeView>
    decreases ns.len(),
{
    if ns.len() == 0 {
        None
    } else if ns[0].parent_id == parent && ns[0].key == key {
        Some(ns[0])
    } else {
        first_match(ns.skip(1), parent, key)
    }
}

/// All nodes of `ns` under `parent`, in store order.
pub open spec fn children_in(ns: Seq<NodeView>, parent: u64) -> Seq<NodeView>
    decreases ns.len(),
{
    if ns.len() == 0 {
        Seq::empty()
    } else if ns.last().parent_id == parent {
        children_in(ns.drop_last(), parent).push(ns.last())
    } else {
        children_in(ns.drop_last(), parent)
    }
}

/// Every node `children_in` lists sits in `ns`, under the given parent.
proof fn lemma_children_in_membership(ns: Seq<NodeView>, parent: u64)
    ensures
        forall|j: int|
            0 <= j < children_in(ns, parent).len() ==> ns.contains(
                #[trigger] children_in(ns, parent)[j],
            ) && children_in(ns, parent)[j].parent_id == parent,
    decreases ns.len(),
{
    if ns.len() == 0 {
    } else {
        let c = children_in(ns, parent);
        let cd = children_in(ns.drop_last(), parent);
        lemma_children_in_membership(ns.drop_last(), parent);
        assert forall|j: int|
            0 <= j < c.len() implies ns.contains(#[trigger] c[j]) && c[j].parent_id == parent by {
            if j < cd.len() {
                assert(c[j] == cd[j]);
                let k = choose|k: int| 0 <= k < ns.drop_last().len() && ns.drop_last()[k] == cd[j];
                assert(ns[k] == cd[j]);
            } else {
                assert(c[j] == ns.last());
                assert(ns[ns.len() - 1] == ns.last());
            }
        }
    }
}

/// Law: a leaf holds no children — `kids_of` on a well-formed store, at a
/// leaf's id, is the empty sequence, so browsing a leaf yields an empty
/// children listing, never an error.
pub proof fn lemma_leaf_no_children(ns: Seq<NodeView>, i: int)
    requires
        store_wf(ns),
        0 <= i < ns.len(),
        ns[i].kind is Leaf,
    ensures
        children_in(ns, ns[i].id) == Seq::<NodeView>::empty(),
{
    let c = children_in(ns, ns[i].id);
    if c.len() > 0 {
        lemma_children_in_membership(ns, ns[i].id);
        let x = c[0];
        assert(ns.contains(x) && x.parent_id == ns[i].id);
        let k = choose|k: int| 0 <= k < ns.len() && ns[k] == x;
        assert(ns[i].id != ROOT_ID);
        assert(folder_exists(ns, ns[k].parent_id));
        let j = choose|j: int|
            0 <= j < ns.len() && (#[trigger] ns[j]).id == x.parent_id && ns[j].kind is Folder;
        assert(j == i);
        assert(false);
    }
    assert(c =~= Seq::<NodeView>::empty());
}

/// The reference backend: a read-only adjacency list built once, node by
/// node, before resolution starts.
pub struct MemStore {
    nodes: Vec<Node>,
}

impl View for MemStore {
    type V = Seq<NodeView>;

    closed spec fn view(&self) -> Seq<NodeView> {
        self.nodes.deep_view()
    }
}

impl MemStore {
    /// The empty store.
    pub fn new() -> (s: MemStore)
        ensures
            s@ == Seq::<NodeView>::empty(),
            s.wf(),
    {
        let s = MemStore { nodes: Vec::new() };
        proof {
            assert(s@ =~= Seq::<NodeView>::empty());
        }
        s
    }

    /// Adds one node. The node enters the store exactly when `can_insert`
    /// admits it; a refused node leaves the store unchanged. Either way the
    /// invariant is kept.
    pub fn insert(&mut self, node: Node) -> (ok: bool)
        requires
            old(self).wf(),
        ensures
            final(self).wf(),
            ok == can_insert(old(self)@, node@),
            ok ==> final(self)@ == old(self)@.push(node@),
            !ok ==> final(self)@ == old(self)@,
    {
        let ghost ns = self@;
        if node.id == ROOT_ID {
            return false;
        }
        let mut parent_ok: bool = node.parent_id == ROOT_ID;
        let mut i: usize = 0;
        while i < self.nodes.len()
            invariant
                i <= self.nodes.len(),
                self.nodes == old(self).nodes,
                ns == self@,
                ns == old(self)@,
                store_wf(ns),
                self@ == self.nodes.deep_view(),
                ns.len() == self.nodes@.len(),
                forall|j: int| 0 <= j < i ==> (#[trigger] ns[j]).id != node@.id,
                forall|j: int|
                    0 <= j < i ==> !((#[trigger] ns[j]).parent_id == node@.parent_id && ns[j].key
                        == node@.key),
                parent_ok == (node@.parent_id == ROOT_ID || exists|j: int|
                    0 <= j < i && (#[trigger] ns[j]).id == node@.parent_id && ns[j].kind
                        is Folder),
            decreases self.nodes.len() - i,
        {
            proof {
                assert(ns[i as int] == self.nodes@[i as int]@);
            }
            if self.nodes[i].id == node.id {
                proof {
                    assert(id_taken(ns, node@.id));
                }
                return false;
            }
            let same_parent = self.nodes[i].parent_id == node.parent_id;
            if same_parent && self.nodes[i].key == node.key {
                proof {
                    assert(slot_taken(ns, node@.parent_id, node@.key));
                }
                return false;
            }
            if self.nodes[i].id == node.parent_id {
                match self.nodes[i].kind {
                    NodeKind::Folder => {
                        parent_ok = true;
                    },
                    NodeKind::Leaf => {},
                }
            }
            i += 1;
        }
        if !parent_ok {
            proof {
                assert(!folder_exists(ns, node@.parent_id)) by {
                    if folder_exists(ns, node@.parent_id) {
                        let j = choose|j: int|
                            0 <= j < ns.len() && (#[trigger] ns[j]).id == node@.parent_id
                                && ns[j].kind is Folder;
                        assert(0 <= j < i && ns[j].id == node@.parent_id && ns[j].kind is Folder);
                    }
                }
            }
            return false;
        }
        proof {
            assert(!id_taken(ns, node@.id)) by {
                if id_taken(ns, node@.id) {
                    let j = choose|j: int| 0 <= j < ns.len() && (#[trigger] ns[j]).id == node@.id;
                    assert(ns[j].id != node@.id);
                }
            }
            assert(!slot_taken(ns, node@.parent_id, node@.key)) by {
                if slot_taken(ns, node@.parent_id, node@.key) {
                    let j = choose|j: int|
                        0 <= j < ns.len() && (#[trigger] ns[j]).parent_id == node@.parent_id
                            && ns[j].key == node@.key;
                    assert(!(ns[j].parent_id == node@.parent_id && ns[j].key == node@.key));
                }
            }
            if node@.parent_id != ROOT_ID {
                let j = choose|j: int|
                    0 <= j < i && (#[trigger] ns[j]).id == node@.parent_id && ns[j].kind is Folder;
                assert(folder_exists(ns, node@.parent_id));
            }
            assert(can_insert(ns, node@));
        }
        let ghost nv = node@;
        self.nodes.push(node);
        proof {
            assert(self@ =~= ns.push(nv));
            Self::lemma_insert_wf(ns, nv);
        }
        true
    }

    /// A node admitted by `can_insert` keeps the store invariant.
    proof fn lemma_insert_wf(ns: Seq<NodeView>, n: NodeView)
        requires
            store_wf(ns),
            can_insert(ns, n),
        ensures
            store_wf(ns.push(n)),
    {
        let ps = ns.push(n);
        assert forall|i: int| 0 <= i < ps.len() implies (#[trigger] ps[i]).id != ROOT_ID by {
            if i < ns.len() {
                assert(ps[i] == ns[i]);
            }
        }
        assert forall|i: int, j: int|
            0 <= i < ps.len() && 0 <= j < ps.len() && i != j implies (#[trigger] ps[i]).id != (
        #[trigger] ps[j]).id by {
            if i < ns.len() && j < ns.len() {
                assert(ps[i] == ns[i] && ps[j] == ns[j]);
            } else if i < ns.len() {
                assert(ps[j] == n && ps[i] == ns[i]);
                assert(!id_taken(ns, n.id));
                assert(ns[i].id != n.id);
            } else {
                assert(ps[i] == n && ps[j] == ns[j]);
                assert(!id_taken(ns, n.id));
                assert(ns[j].id != n.id);
            }
        }
        assert forall|i: int, j: int|
            0 <= i < ps.len() && 0 <= j < ps.len() && i != j && (#[trigger] ps[i]).parent_id == (
        #[trigger] ps[j]).parent_id implies ps[i].key != ps[j].key by {
            if i < ns.len() && j < ns.len() {
                assert(ps[i] == ns[i] && ps[j] == ns[j]);
            } else if i < ns.len() {
                assert(ps[j] == n && ps[i] == ns[i]);
                assert(!slot_taken(ns, n.parent_id, n.key));
                assert(!(ns[i].parent_id == n.parent_id && ns[i].key == n.key));
            } else {
                assert(ps[i] == n && ps[j] == ns[j]);
                assert(!slot_taken(ns, n.parent_id, n.key));
                assert(!(ns[j].parent_id == n.parent_id && ns[j].key == n.key));
            }
        }
        assert forall|i: int|
            0 <= i < ps.len() implies (#[trigger] ps[i]).parent_id == ROOT_ID || folder_exists(
            ps,
            ps[i].parent_id,
        ) by {
            let p = ps[i].parent_id;
            if p != ROOT_ID {
                if i < ns.len() {
                    assert(ps[i] == ns[i]);
                    assert(folder_exists(ns, p));
                } else {
                    assert(ps[i] == n);
                    assert(folder_exists(ns, p));
                }
                let j = choose|j: int|
                    0 <= j < ns.len() && (#[trigger] ns[j]).id == p && ns[j].kind is Folder;
                assert(ps[j] == ns[j]);
                assert(folder_exists(ps, p));
            }
        }
    }
}

impl NodeStore for MemStore {
    open spec fn wf(&self) -> bool {
        store_wf(self@)
    }

    open spec fn child_of(&self, parent: u64, key: Seq<char>) -> Option<NodeView> {
        first_match(self@, parent, key)
    }

    open spec fn kids_of(&self, parent: u64) -> Seq<NodeView> {
        children_in(self@, parent)
    }

    fn child_by_key(&self, parent: u64, key: &String) -> (r: Option<Node>) {
        let ghost ns = self@;
        let mut i: usize = 0;
        proof {
            assert(ns.skip(0) =~= ns);
        }
        while i < self.nodes.len()
            invariant
                i <= self.nodes.len(),
                ns == self@,
                self@ == self.nodes.deep_view(),
                ns.len() == self.nodes@.len(),
                first_match(ns, parent, key@) == first_match(ns.skip(i as int), parent, key@),
            decreases self.nodes.len() - i,
        {
            proof {
                assert(ns[i as int] == self.nodes@[i as int]@);
                assert(ns.skip(i as int)[0] == ns[i as int]);
            }
            let same_parent = self.nodes[i].parent_id == parent;
            if same_parent && self.nodes[i].key == *key {
                let n = self.nodes[i].dup();
                return Some(n);
            }
            proof {
                assert(ns.skip(i as int).skip(1) =~= ns.skip(i as int + 1));
            }
            i += 1;
        }
        proof {
            assert(ns.skip(ns.len() as int) =~= Seq::<NodeView>::empty());
        }
        None
    }

    fn children_of(&self, parent: u64) -> (r: Vec<Node>) {
        let ghost ns = self@;
        let mut out: Vec<Node> = Vec::new();
        let mut i: usize = 0;
        while i < self.nodes.len()
            invariant
                i <= self.nodes.len(),
                ns == self@,
                self@ == self.nodes.deep_view(),
                ns.len() == self.nodes@.len(),
                out.deep_view() == children_in(ns.take(i as int), parent),
            decreases self.nodes.len() - i,
        {
            proof {
                assert(ns[i as int] == self.nodes@[i as int]@);
                assert(ns.take(i as int + 1).drop_last() =~= ns.take(i as int));
                assert(ns.take(i as int + 1).last() == ns[i as int]);
            }
            if self.nodes[i].parent_id == parent {
                out.push(self.nodes[i].dup());
                proof {
                    assert(out.deep_view() =~= children_in(ns.take(i as int + 1), parent));
                }
            } else {
                proof {
                    assert(out.deep_view() =~= children_in(ns.take(i as int + 1), parent));
                }
            }
            i += 1;
        }
        proof {
            assert(ns.take(ns.len() as int) =~= ns);
        }
        out
    }
}

} // verus!
