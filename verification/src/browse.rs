//! The browse projection: a resolved outcome becomes a response payload —
//! the node (absent for the virtual root), its breadcrumbs and its children
//! as media entries — and a NotFound outcome stays an explicit error,
//! distinct from an empty folder.

use vstd::prelude::*;
use vstd::string::StrSliceExecFns;
use vstd::string::StringExecFns;
use crate::node::{
    check_segments, child_rel_path, join_segments, rel_path, segments_ok, Node, NodeKind, NodeView,
};
use crate::resolve::{
    lemma_chain_len, node_chain, resolve_path, resolve_spec, resolved_target, Resolution,
    ResolutionView,
};
use crate::store::NodeStore;
use crate::ROOT_ID;

verus! {

/// One breadcrumb: the absolute slash-joined path of a matched prefix of the
/// request, and the matched node's display label.
pub struct Crumb {
    pub path: String,
    pub label: String,
}

/// The mathematical image of a `Crumb`.
pub struct CrumbView {
    pub path: Seq<char>,
    pub label: Seq<char>,
}

impl View for Crumb {
    type V = CrumbView;

    open spec fn view(&self) -> CrumbView {
        CrumbView { path: self.path@, label: self.label@ }
    }
}

impl DeepView for Crumb {
    type V = CrumbView;

    open spec fn deep_view(&self) -> CrumbView {
        self.view()
    }
}

/// The absolute path a crumb carries: a leading slash, then the segments.
pub open spec fn crumb_path(segs: Seq<Seq<char>>) -> Seq<char> {
    seq!['/'] + rel_path(segs)
}

impl Crumb {
    /// One crumb per segment of a fully matched path: the `k`-th crumb's
    /// `path` is the absolute path of the first `k + 1` segments, its
    /// `label` the `k`-th matched node's label.
    pub fn from_path(segments: &Vec<String>, labels: &Vec<String>) -> (crumbs: Vec<Crumb>)
        requires
            labels@.len() == segments@.len(),
        ensures
            crumbs@.len() == segments@.len(),
            forall|k: int|
                0 <= k < crumbs@.len() ==> ((#[trigger] crumbs@[k])@.path == crumb_path(
                    segments.deep_view().take(k + 1),
                ) && crumbs@[k]@.label == labels.deep_view()[k]),
    {
        let ghost segs = segments.deep_view();
        let mut crumbs: Vec<Crumb> = Vec::new();
        let mut cur: String = String::new();
        let mut i: usize = 0;
        while i < segments.len()
            invariant
                labels@.len() == segments@.len(),
                i <= segments.len(),
                segs == segments.deep_view(),
                segs.len() == segments@.len(),
                cur@ == rel_path(segs.take(i as int)),
                crumbs@.len() == i,
                forall|k: int|
                    0 <= k < i ==> ((#[trigger] crumbs@[k])@.path == crumb_path(segs.take(k + 1))
                        && crumbs@[k]@.label == labels.deep_view()[k]),
            decreases segments.len() - i,
        {
            if i > 0 {
                cur.append("/");
            }
            cur.append(segments[i].as_str());
            proof {
                reveal_strlit("/");
                assert(("/")@ =~= seq!['/']);
                assert(segs[i as int] == segments@[i as int]@);
                assert(segs.take(i as int + 1).drop_last() =~= segs.take(i as int));
                assert(segs.take(i as int + 1).last() == segs[i as int]);
                if i == 0 {
                    assert(cur@ =~= rel_path(segs.take(1)));
                }
            }
            let mut p = String::from_str("/");
            p.append(cur.as_str());
            proof {
                assert(p@ =~= crumb_path(segs.take(i as int + 1)));
                assert(labels.deep_view()[i as int] == labels@[i as int]@);
            }
            crumbs.push(Crumb { path: p, label: labels[i].clone() });
            i += 1;
        }
        crumbs
    }
}

/// A child as the response lists it: whether it is a folder, its relative
/// path from the root, and its file name (the addressing segment).
pub struct MediaEntry {
    pub folder: bool,
    pub path: String,
    pub filename: String,
}

/// The mathematical image of a `MediaEntry`.
pub struct MediaEntryView {
    pub folder: bool,
    pub path: Seq<char>,
    pub filename: Seq<char>,
}

impl View for MediaEntry {
    type V = MediaEntryView;

    open spec fn view(&self) -> MediaEntryView {
        MediaEntryView { folder: self.folder, path: self.path@, filename: self.filename@ }
    }
}

impl DeepView for MediaEntry {
    type V = MediaEntryView;

    open spec fn deep_view(&self) -> MediaEntryView {
        self.view()
    }
}

/// How a node under the directory with relative path `dir` is listed.
pub open spec fn entry_view(n: NodeView, dir: Seq<char>) -> MediaEntryView {
    MediaEntryView {
        folder: n.kind is Folder,
        path: child_rel_path(dir, n.key),
        filename: n.key,
    }
}

impl MediaEntry {
    /// Projects one node into the entry listed under the directory whose
    /// relative path is `dir`.
    pub fn from_node(node: &Node, dir: &String) -> (e: MediaEntry)
        ensures
            e@ == entry_view(node@, dir@),
    {
        let folder = match node.kind {
            NodeKind::Folder => true,
            NodeKind::Leaf => false,
        };
        let path = if dir.as_str().unicode_len() == 0 {
            node.key.clone()
        } else {
            let mut p = dir.clone();
            p.append("/");
            p.append(node.key.as_str());
            proof {
                reveal_strlit("/");
                assert(("/")@ =~= seq!['/']);
            }
            p
        };
        MediaEntry { folder, path, filename: node.key.clone() }
    }

    /// Resolves `segments` and lists the resolved node's children (the
    /// root's, for the empty sequence); `None` exactly when the path does
    /// not resolve. A node with no children yields `Some` of an empty
    /// listing, never an error.
    pub fn list_dir<S: NodeStore>(store: &S, segments: &Vec<String>) -> (r: Option<
        Vec<MediaEntry>,
    >)
        requires
            store.wf(),
        ensures
            (r is None) <==> (resolve_spec(store, segments.deep_view()) is NotFound),
            (r matches Some(v) ==> v.deep_view() == store.kids_of(
                resolved_target(resolve_spec(store, segments.deep_view())),
            ).map_values(|n: NodeView| entry_view(n, rel_path(segments.deep_view())))),
    {
        let ghost segs = segments.deep_view();
        match resolve_path(store, segments) {
            Resolution::NotFound => None,
            Resolution::Root => {
                let dir = join_segments(segments);
                Some(child_entries(store, ROOT_ID, &dir))
            },
            Resolution::Resolved { node, .. } => {
                let dir = join_segments(segments);
                Some(child_entries(store, node.id, &dir))
            },
        }
    }
}

/// Lists the children of `parent`, each projected as an entry under `dir`.
fn child_entries<S: NodeStore>(store: &S, parent: u64, dir: &String) -> (r: Vec<MediaEntry>)
    requires
        store.wf(),
    ensures
        r.deep_view() == store.kids_of(parent).map_values(
            |n: NodeView| entry_view(n, dir@),
        ),
{
    let ghost kids_dv = store.kids_of(parent);
    let kids = store.children_of(parent);
    let mut out: Vec<MediaEntry> = Vec::new();
    let mut i: usize = 0;
    while i < kids.len()
        invariant
            kids.deep_view() == kids_dv,
            kids_dv.len() == kids@.len(),
            i <= kids.len(),
            out@.len() == i,
            out.deep_view() == kids_dv.take(i as int).map_values(
                |n: NodeView| entry_view(n, dir@),
            ),
        decreases kids.len() - i,
    {
        let ghost pre_len = out@.len();
        let ghost pre_deep = out.deep_view();
        let e = MediaEntry::from_node(&kids[i], dir);
        proof {
            assert(kids_dv[i as int] == kids@[i as int]@);
        }
        out.push(e);
        proof {
            let target = kids_dv.take(i as int + 1).map_values(|n: NodeView| entry_view(n, dir@));
            assert(target.len() == pre_len + 1);
            assert(pre_deep.len() == pre_len);
            assert(out@.len() == pre_len + 1);
            assert forall|j: int| 0 <= j < out@.len() implies out.deep_view()[j] == target[j] by {
                assert(0 <= j < out@.len());
                assert(out.deep_view()[j] == out@[j]@);
                assert(kids_dv.take(i as int + 1)[j] == kids_dv[j]);
                if j < pre_len {
                    assert(out@[j] == out@.drop_last()[j]);
                    assert(pre_deep[j] == kids_dv.take(i as int).map_values(
                        |n: NodeView| entry_view(n, dir@),
                    )[j]);
                    assert(kids_dv.take(i as int)[j] == kids_dv[j]);
                } else {
                    assert(out@[j]@ == entry_view(kids_dv[i as int], dir@));
                }
            }
            assert(out.deep_view() =~= target);
        }
        i += 1;
    }
    proof {
        assert(kids_dv.take(kids_dv.len() as int) =~= kids_dv);
    }
    out
}

/// The response payload: the resolved node (absent when the virtual root
/// itself is browsed), the breadcrumbs, and the children.
pub struct BrowseResponse {
    pub entry: Option<Node>,
    pub crumbs: Vec<Crumb>,
    pub children: Vec<MediaEntry>,
}

/// Why a browse failed: the request was malformed, or no node matched.
#[derive(Debug, PartialEq, Eq, Structural)]
pub enum BrowseError {
    MalformedInput,
    NotFound,
}

/// What a successful browse response must hold, given the resolution of its
/// segment sequence.
pub open spec fn response_matches<S: NodeStore>(
    s: &S,
    segs: Seq<Seq<char>>,
    r: BrowseResponse,
) -> bool {
    match resolve_spec(s, segs) {
        ResolutionView::Root => {
            &&& r.entry is None
            &&& r.crumbs@.len() == 0
            &&& r.children.deep_view() == s.kids_of(ROOT_ID).map_values(
                |n: NodeView| entry_view(n, Seq::<char>::empty()),
            )
        },
        ResolutionView::Resolved { node, crumbs } => {
            &&& r.entry.deep_view() == Some(node)
            &&& r.crumbs@.len() == segs.len()
            &&& crumbs.len() == segs.len()
            &&& (forall|k: int|
                0 <= k < segs.len() ==> ((#[trigger] r.crumbs@[k])@.path == crumb_path(
                    segs.take(k + 1),
                ) && r.crumbs@[k]@.label == crumbs[k]))
            &&& r.children.deep_view() == s.kids_of(node.id).map_values(
                |n: NodeView| entry_view(n, rel_path(segs)),
            )
        },
        ResolutionView::NotFound => false,
    }
}

/// Browses the virtual root: no entry, no crumbs, the top-level children.
pub fn browse_root<S: NodeStore>(store: &S) -> (r: BrowseResponse)
    requires
        store.wf(),
    ensures
        r.entry is None,
        r.crumbs@.len() == 0,
        r.children.deep_view() == store.kids_of(ROOT_ID).map_values(
            |n: NodeView| entry_view(n, Seq::<char>::empty()),
        ),
{
    let empty_dir = String::new();
    let children = child_entries(store, ROOT_ID, &empty_dir);
    BrowseResponse { entry: None, crumbs: Vec::new(), children }
}

/// Browses a path: rejects malformed segments before any store lookup,
/// reports NotFound as an explicit error, and otherwise assembles the
/// response for the resolved node or the virtual root.
pub fn browse_path<S: NodeStore>(store: &S, segments: &Vec<String>) -> (r: Result<
    BrowseResponse,
    BrowseError,
>)
    requires
        store.wf(),
    ensures
        (r matches Err(e) && e is MalformedInput) <==> !segments_ok(segments.deep_view()),
        segments_ok(segments.deep_view()) ==> ((r matches Err(e) && e is NotFound) <==> resolve_spec(
            store,
            segments.deep_view(),
        ) is NotFound),
        (r matches Ok(resp) ==> response_matches(store, segments.deep_view(), resp)),
{
    let ghost segs = segments.deep_view();
    if !check_segments(segments) {
        return Err(BrowseError::MalformedInput);
    }
    match resolve_path(store, segments) {
        Resolution::NotFound => Err(BrowseError::NotFound),
        Resolution::Root => {
            let empty_dir = String::new();
            let children = child_entries(store, ROOT_ID, &empty_dir);
            Ok(BrowseResponse { entry: None, crumbs: Vec::new(), children })
        },
        Resolution::Resolved { node, crumbs } => {
            proof {
                lemma_chain_len(store, ROOT_ID, segs);
                let ch = node_chain(store, ROOT_ID, segs).unwrap();
                assert(crumbs.deep_view() == ch.map_values(|n: NodeView| n.label));
                assert(crumbs@.len() == crumbs.deep_view().len());
            }
            let cr = Crumb::from_path(segments, &crumbs);
            let dir = join_segments(segments);
            let children = child_entries(store, node.id, &dir);
            Ok(BrowseResponse { entry: Some(node), crumbs: cr, children })
        },
    }
}

} // verus!
