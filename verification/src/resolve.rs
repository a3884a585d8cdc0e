//! The path resolver: walks a segment sequence through a node store, one
//! `child_by_key` call per segment, and yields the resolved node with its
//! breadcrumb labels, the virtual root, or NotFound at the first miss.

use vstd::prelude::*;
use crate::node::{Node, NodeKind, NodeView};
use crate::store::NodeStore;
use crate::ROOT_ID;

verus! {

/// The outcome of resolving a segment sequence: all-or-nothing. `Root` for
/// the empty sequence; `Resolved` carries the final node and the labels of
/// every matched node in root-to-leaf order; `NotFound` reports the first
/// unmatched segment, with no partial breadcrumbs.
pub enum Resolution {
    Root,
    Resolved { node: Node, crumbs: Vec<String> },
    NotFound,
}

/// The mathematical image of a `Resolution`.
pub enum ResolutionView {
    Root,
    Resolved { node: NodeView, crumbs: Seq<Seq<char>> },
    NotFound,
}

impl View for Resolution {
    type V = ResolutionView;

    open spec fn view(&self) -> ResolutionView {
        match self {
            Resolution::Root => ResolutionView::Root,
            Resolution::Resolved { node, crumbs } => ResolutionView::Resolved {
                node: node@,
                crumbs: crumbs.deep_view(),
            },
            Resolution::NotFound => ResolutionView::NotFound,
        }
    }
}

/// The chain of nodes matched while walking `segs` from `parent`: one node
/// per segment, each the child of the one before it by that segment's key.
/// `None` as soon as a segment has no match under the current parent, or a
/// matched node is a leaf while segments remain.
pub open spec fn node_chain<S: NodeStore>(s: &S, parent: u64, segs: Seq<Seq<char>>) -> Option<
    Seq<NodeView>,
>
    decreases segs.len(),
{
    if segs.len() == 0 {
        Some(Seq::empty())
    } else {
        match s.child_of(parent, segs[0]) {
            None => None,
            Some(n) => {
                if segs.len() > 1 && n.kind is Leaf {
                    None
                } else {
                    match node_chain(s, n.id, segs.skip(1)) {
                        None => None,
                        Some(rest) => Some(seq![n] + rest),
                    }
                }
            },
        }
    }
}

/// What resolving `segs` against store `s` yields.
pub open spec fn resolve_spec<S: NodeStore>(s: &S, segs: Seq<Seq<char>>) -> ResolutionView {
    if segs.len() == 0 {
        ResolutionView::Root
    } else {
        match node_chain(s, ROOT_ID, segs) {
            None => ResolutionView::NotFound,
            Some(ch) => ResolutionView::Resolved {
                node: ch.last(),
                crumbs: ch.map_values(|n: NodeView| n.label),
            },
        }
    }
}

/// The node a successful resolution names, if any.
pub open spec fn resolved_node(r: ResolutionView) -> Option<NodeView> {
    match r {
        ResolutionView::Resolved { node, .. } => Some(node),
        _ => None,
    }
}

/// The breadcrumb labels a successful resolution carries, if any.
pub open spec fn resolved_crumbs(r: ResolutionView) -> Option<Seq<Seq<char>>> {
    match r {
        ResolutionView::Resolved { crumbs, .. } => Some(crumbs),
        _ => None,
    }
}

/// The parent identifier whose children a browse of this outcome lists: the
/// resolved node's id, or the root sentinel for the virtual root.
pub open spec fn resolved_target(r: ResolutionView) -> u64 {
    match r {
        ResolutionView::Resolved { node, .. } => node.id,
        _ => ROOT_ID,
    }
}

/// Resolves `segments` against the store: a bounded walk of one store call
/// per segment, never a full-tree scan.
pub fn resolve_path<S: NodeStore>(store: &S, segments: &Vec<String>) -> (r: Resolution)
    requires
        store.wf(),
    ensures
        r@ == resolve_spec(store, segments.deep_view()),
{
    let ghost segs: Seq<Seq<char>> = segments.deep_view();
    if segments.len() == 0 {
        return Resolution::Root;
    }
    let mut parent: u64 = ROOT_ID;
    let mut crumbs: Vec<String> = Vec::new();
    let mut last: Option<Node> = None;
    let ghost mut chain: Seq<NodeView> = Seq::empty();
    let mut i: usize = 0;
    proof {
        assert(segs.skip(0) =~= segs);
        assert(crumbs.deep_view() =~= chain.map_values(|n: NodeView| n.label));
    }
    while i < segments.len()
        invariant
            store.wf(),
            segs == segments.deep_view(),
            segs.len() == segments@.len(),
            0 < segs.len(),
            i <= segments.len(),
            chain.len() == i as int,
            crumbs.deep_view() == chain.map_values(|n: NodeView| n.label),
            i == 0 ==> parent == ROOT_ID && last is None,
            i > 0 ==> (match last {
                Some(n) => n@ == chain.last() && parent == chain.last().id,
                None => false,
            }),
            node_chain(store, ROOT_ID, segs) == (match node_chain(
                store,
                parent,
                segs.skip(i as int),
            ) {
                None => None::<Seq<NodeView>>,
                Some(rest) => Some(chain + rest),
            }),
        decreases segments.len() - i,
    {
        proof {
            assert(segs.skip(i as int)[0] == segs[i as int]);
            assert(segs[i as int] == segments@[i as int]@);
        }
        let found = store.child_by_key(parent, &segments[i]);
        match found {
            None => {
                return Resolution::NotFound;
            },
            Some(n) => {
                if i + 1 < segments.len() {
                    match n.kind {
                        NodeKind::Leaf => {
                            return Resolution::NotFound;
                        },
                        NodeKind::Folder => {},
                    }
                }
                let ghost pre_deep = crumbs.deep_view();
                let ghost pre_len = crumbs@.len();
                crumbs.push(n.label.clone());
                parent = n.id;
                proof {
                    let old_chain = chain;
                    chain = chain.push(n@);
                    assert(chain.last() == n@);
                    assert(crumbs@.len() == pre_len + 1);
                    assert(pre_deep.len() == pre_len);
                    assert(pre_len == old_chain.len());
                    assert(chain.len() == pre_len + 1);
                    assert forall|j: int| 0 <= j < chain.len() implies crumbs.deep_view()[j]
                        == chain.map_values(|m: NodeView| m.label)[j] by {
                        assert(0 <= j < crumbs@.len());
                        assert(crumbs.deep_view().len() == crumbs@.len());
                        assert(crumbs@[j].deep_view() == crumbs@[j]@);
                        assert(crumbs.deep_view()[j] == crumbs@[j]@);
                        if j < pre_len {
                            assert(crumbs@[j] == crumbs@.drop_last()[j]);
                            assert(pre_deep[j] == old_chain.map_values(|m: NodeView| m.label)[j]);
                        } else {
                            assert(crumbs@[j]@ == n@.label);
                        }
                    }
                    assert(crumbs.deep_view() =~= chain.map_values(|m: NodeView| m.label));
                    assert(segs.skip(i as int).skip(1) =~= segs.skip(i as int + 1));
                    match node_chain(store, n@.id, segs.skip(i as int + 1)) {
                        None => {},
                        Some(rest) => {
                            assert(old_chain + (seq![n@] + rest) =~= chain + rest);
                        },
                    }
                }
                last = Some(n);
                i += 1;
            },
        }
    }
    proof {
        assert(segs.skip(segs.len() as int) =~= Seq::<Seq<char>>::empty());
        assert(node_chain(store, ROOT_ID, segs) == Some(chain));
    }
    match last {
        Some(node) => Resolution::Resolved { node, crumbs },
        None => {
            proof {
                assert(false);
            }
            Resolution::NotFound
        },
    }
}

/// Law: the chain of a successful walk holds exactly one node per segment.
pub proof fn lemma_chain_len<S: NodeStore>(s: &S, parent: u64, segs: Seq<Seq<char>>)
    ensures
        (node_chain(s, parent, segs) matches Some(ch) ==> ch.len() == segs.len()),
    decreases segs.len(),
{
    if segs.len() == 0 {
    } else {
        match s.child_of(parent, segs[0]) {
            None => {},
            Some(n) => {
                lemma_chain_len(s, n.id, segs.skip(1));
            },
        }
    }
}

/// Law: a successful walk restricted to its first `k` segments succeeds too,
/// and matches the first `k` nodes of the full chain.
pub proof fn lemma_chain_prefix<S: NodeStore>(s: &S, parent: u64, segs: Seq<Seq<char>>, k: int)
    requires
        0 <= k <= segs.len(),
        node_chain(s, parent, segs) is Some,
    ensures
        node_chain(s, parent, segs.take(k)) == Some(node_chain(s, parent, segs).unwrap().take(k)),
    decreases segs.len(),
{
    let ch = node_chain(s, parent, segs).unwrap();
    lemma_chain_len(s, parent, segs);
    if k == 0 {
        assert(segs.take(0) =~= Seq::<Seq<char>>::empty());
        assert(ch.take(0) =~= Seq::<NodeView>::empty());
    } else {
        let n = s.child_of(parent, segs[0]).unwrap();
        let rest = node_chain(s, n.id, segs.skip(1)).unwrap();
        assert(ch == seq![n] + rest);
        assert(segs.take(k)[0] == segs[0]);
        assert(segs.take(k).skip(1) =~= segs.skip(1).take(k - 1));
        lemma_chain_prefix(s, n.id, segs.skip(1), k - 1);
        lemma_chain_len(s, n.id, segs.skip(1));
        let rest_take = node_chain(s, n.id, segs.skip(1).take(k - 1)).unwrap();
        assert(rest_take == rest.take(k - 1));
        assert(node_chain(s, parent, segs.take(k)) == Some(seq![n] + rest.take(k - 1)));
        assert(ch.take(k) =~= seq![n] + rest.take(k - 1));
    }
}

/// Law: once a prefix of the segments fails to resolve, the full sequence
/// resolves to NotFound — no children of a shorter match are ever returned.
pub proof fn lemma_prefix_not_found<S: NodeStore>(s: &S, segs: Seq<Seq<char>>, k: int)
    requires
        1 <= k <= segs.len(),
        resolve_spec(s, segs.take(k)) is NotFound,
    ensures
        resolve_spec(s, segs) is NotFound,
{
    if node_chain(s, ROOT_ID, segs) is Some {
        lemma_chain_prefix(s, ROOT_ID, segs, k);
    }
}

/// Law: a leaf matched while segments remain makes the whole walk fail.
proof fn lemma_chain_leaf_blocks<S: NodeStore>(s: &S, parent: u64, segs: Seq<Seq<char>>, k: int)
    requires
        1 <= k < segs.len(),
        node_chain(s, parent, segs.take(k)) is Some,
        node_chain(s, parent, segs.take(k)).unwrap().last().kind is Leaf,
    ensures
        node_chain(s, parent, segs) is None,
    decreases segs.len(),
{
    let ch = node_chain(s, parent, segs.take(k)).unwrap();
    lemma_chain_len(s, parent, segs.take(k));
    assert(segs.take(k)[0] == segs[0]);
    let n = s.child_of(parent, segs.take(k)[0]).unwrap();
    let rest = node_chain(s, n.id, segs.take(k).skip(1)).unwrap();
    assert(ch == seq![n] + rest);
    if k == 1 {
        assert(segs.take(1).skip(1) =~= Seq::<Seq<char>>::empty());
        assert(rest =~= Seq::<NodeView>::empty());
        assert(ch.last() == n);
        assert(n.kind is Leaf);
        assert(segs.len() > 1);
    } else {
        assert(segs.take(k).skip(1) =~= segs.skip(1).take(k - 1));
        assert(ch.last() == rest.last());
        lemma_chain_leaf_blocks(s, n.id, segs.skip(1), k - 1);
    }
}

/// Law: resolving through a terminal leaf — a `k`-segment prefix resolves to
/// a leaf node while more segments remain — yields NotFound for the full
/// sequence.
pub proof fn lemma_leaf_blocks<S: NodeStore>(s: &S, segs: Seq<Seq<char>>, k: int)
    requires
        1 <= k < segs.len(),
        resolved_node(resolve_spec(s, segs.take(k))) matches Some(n) && n.kind is Leaf,
    ensures
        resolve_spec(s, segs) is NotFound,
{
    lemma_chain_len(s, ROOT_ID, segs.take(k));
    lemma_chain_leaf_blocks(s, ROOT_ID, segs, k);
}

/// Law: a full resolution yields one crumb per segment, in root-to-leaf
/// order — the `k`-th crumb is the label of the node that the first `k`
/// segments resolve to, and the first `k` crumbs are that prefix's crumbs.
pub proof fn lemma_crumbs_per_segment<S: NodeStore>(s: &S, segs: Seq<Seq<char>>, k: int)
    requires
        1 <= k <= segs.len(),
        resolve_spec(s, segs) is Resolved,
    ensures
        resolved_crumbs(resolve_spec(s, segs)).unwrap().len() == segs.len(),
        resolve_spec(s, segs.take(k)) is Resolved,
        resolved_crumbs(resolve_spec(s, segs.take(k))).unwrap() == resolved_crumbs(
            resolve_spec(s, segs),
        ).unwrap().take(k),
        resolved_crumbs(resolve_spec(s, segs)).unwrap()[k - 1] == resolved_node(
            resolve_spec(s, segs.take(k)),
        ).unwrap().label,
{
    let ch = node_chain(s, ROOT_ID, segs).unwrap();
    lemma_chain_len(s, ROOT_ID, segs);
    lemma_chain_prefix(s, ROOT_ID, segs, k);
    let chk = ch.take(k);
    assert(chk.last() == ch[k - 1]);
    assert(chk.map_values(|n: NodeView| n.label) =~= ch.map_values(|n: NodeView| n.label).take(k));
}

/// Law: resolution is deterministic — two outcomes of resolving the same
/// segments against the same unmutated store are identical.
pub proof fn lemma_resolve_idempotent<S: NodeStore>(
    s: &S,
    segs: Seq<Seq<char>>,
    r1: ResolutionView,
    r2: ResolutionView,
)
    requires
        r1 == resolve_spec(s, segs),
        r2 == resolve_spec(s, segs),
    ensures
        r1 == r2,
{
}

/// Law: the empty segment sequence resolves to the Root outcome — no entry,
/// no crumbs — whatever the store holds.
pub proof fn lemma_empty_is_root<S: NodeStore>(s: &S)
    ensures
        resolve_spec(s, Seq::<Seq<char>>::empty()) == ResolutionView::Root,
{
}

} // verus!
