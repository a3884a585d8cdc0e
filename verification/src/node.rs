//! The unit of the hierarchy: a node is a folder or a leaf, addressed under
//! its parent by a `key` (one path segment) and displayed by a `label`.

use vstd::prelude::*;
use vstd::string::StringExecFns;
use vstd::string::StrSliceExecFns;

verus! {

/// What a node is: a folder can hold children, a leaf is terminal.
#[derive(Clone, Copy, PartialEq, Eq, Structural, Debug)]
pub enum NodeKind {
    Folder,
    Leaf,
}

/// One element of the browsed hierarchy.
///
/// `id` is unique within a store and never the root sentinel; `parent_id`
/// names the owning node (or the root sentinel for top-level nodes); `key` is
/// the path segment that addresses the node under its parent, unique among
/// siblings; `label` is the display name; `url` and `extra` are opaque
/// payloads handed through to clients verbatim.
pub struct Node {
    pub id: u64,
    pub parent_id: u64,
    pub kind: NodeKind,
    pub key: String,
    pub label: String,
    pub url: Option<String>,
    pub extra: Option<String>,
}

/// The mathematical image of a `Node`: strings become character sequences.
pub struct NodeView {
    pub id: u64,
    pub parent_id: u64,
    pub kind: NodeKind,
    pub key: Seq<char>,
    pub label: Seq<char>,
    pub url: Option<Seq<char>>,
    pub extra: Option<Seq<char>>,
}

impl View for Node {
    type V = NodeView;

    open spec fn view(&self) -> NodeView {
        NodeView {
            id: self.id,
            parent_id: self.parent_id,
            kind: self.kind,
            key: self.key@,
            label: self.label@,
            url: match self.url {
                Some(u) => Some(u@),
                None => None,
            },
            extra: match self.extra {
                Some(e) => Some(e@),
                None => None,
            },
        }
    }
}

impl DeepView for Node {
    type V = NodeView;

    open spec fn deep_view(&self) -> NodeView {
        self.view()
    }
}

impl Node {
    /// An explicit deep copy whose view equals the original's.
    pub fn dup(&self) -> (n: Node)
        ensures
            n@ == self@,
    {
        Node {
            id: self.id,
            parent_id: self.parent_id,
            kind: self.kind,
            key: self.key.clone(),
            label: self.label.clone(),
            url: match &self.url {
                Some(u) => Some(u.clone()),
                None => None,
            },
            extra: match &self.extra {
                Some(e) => Some(e.clone()),
                None => None,
            },
        }
    }
}

/// A segment may address a child only if it is non-empty and not one of the
/// relative-path escapes `.` and `..`.
pub open spec fn valid_segment(seg: Seq<char>) -> bool {
    seg.len() > 0 && seg != "."@ && seg != ".."@
}

/// Every segment of the sequence is a valid literal segment.
pub open spec fn segments_ok(segs: Seq<Seq<char>>) -> bool {
    forall|i: int| 0 <= i < segs.len() ==> valid_segment(#[trigger] segs[i])
}

/// Decides `valid_segment` for one segment.
pub fn check_segment(seg: &String) -> (b: bool)
    ensures
        b == valid_segment(seg@),
{
    let dot: String = String::from_str(".");
    let dotdot: String = String::from_str("..");
    seg.as_str().unicode_len() != 0 && !(*seg == dot) && !(*seg == dotdot)
}

/// Decides `segments_ok` for a whole sequence of segments.
pub fn check_segments(segments: &Vec<String>) -> (b: bool)
    ensures
        b == segments_ok(segments.deep_view()),
{
    let ghost segs = segments.deep_view();
    let mut i: usize = 0;
    while i < segments.len()
        invariant
            i <= segments.len(),
            segs == segments.deep_view(),
            segs.len() == segments@.len(),
            forall|j: int| 0 <= j < i ==> valid_segment(#[trigger] segs[j]),
        decreases segments.len() - i,
    {
        if !check_segment(&segments[i]) {
            proof {
                assert(segs[i as int] == segments@[i as int]@);
                assert(!valid_segment(segs[i as int]));
            }
            return false;
        }
        proof {
            assert(segs[i as int] == segments@[i as int]@);
        }
        i += 1;
    }
    true
}

/// The slash-joined relative path of a segment sequence: empty for no
/// segments, otherwise the segments separated by `/` with no leading slash.
pub open spec fn rel_path(segs: Seq<Seq<char>>) -> Seq<char>
    decreases segs.len(),
{
    if segs.len() == 0 {
        Seq::empty()
    } else if segs.len() == 1 {
        segs[0]
    } else {
        rel_path(segs.drop_last()) + seq!['/'] + segs.last()
    }
}

/// The relative path of a child with segment `key` under the directory whose
/// relative path is `dir`.
pub open spec fn child_rel_path(dir: Seq<char>, key: Seq<char>) -> Seq<char> {
    if dir.len() == 0 {
        key
    } else {
        dir + seq!['/'] + key
    }
}

/// Joins segments with `/`, yielding `rel_path` of the sequence.
pub fn join_segments(segments: &Vec<String>) -> (s: String)
    ensures
        s@ == rel_path(segments.deep_view()),
{
    let ghost segs = segments.deep_view();
    let mut s = String::new();
    let mut i: usize = 0;
    while i < segments.len()
        invariant
            i <= segments.len(),
            segs == segments.deep_view(),
            segs.len() == segments@.len(),
            s@ == rel_path(segs.take(i as int)),
        decreases segments.len() - i,
    {
        if i > 0 {
            s.append("/");
        }
        s.append(segments[i].as_str());
        proof {
            reveal_strlit("/");
            assert(("/")@ =~= seq!['/']);
            assert(segs[i as int] == segments@[i as int]@);
            assert(segs.take(i as int + 1).drop_last() =~= segs.take(i as int));
            assert(segs.take(i as int + 1).last() == segs[i as int]);
            if i == 0 {
                assert(s@ =~= rel_path(segs.take(1)));
            }
        }
        i += 1;
    }
    proof {
        assert(segs.take(segments@.len() as int) =~= segs);
    }
    s
}

} // verus!
