use media_browser::browse::{browse_path, browse_root, BrowseError, Crumb, MediaEntry};
use media_browser::node::{check_segment, check_segments, join_segments, Node, NodeKind};
use media_browser::resolve::{resolve_path, Resolution};
use media_browser::store::{MemStore, NodeStore};
use media_browser::ROOT_ID;

fn mk_node(
    id: u64,
    parent: u64,
    kind: NodeKind,
    key: &str,
    label: &str,
    url: Option<&str>,
) -> Node {
    Node {
        id,
        parent_id: parent,
        kind,
        key: key.to_string(),
        label: label.to_string(),
        url: url.map(|u| u.to_string()),
        extra: None,
    }
}

fn demo_store() -> MemStore {
    let mut s = MemStore::new();
    assert!(s.insert(mk_node(1, ROOT_ID, NodeKind::Folder, "anime", "Anime", None)));
    assert!(s.insert(mk_node(
        2,
        1,
        NodeKind::Folder,
        "yakusoku-no-neverland",
        "Yakusoku no Neverland",
        None
    )));
    assert!(s.insert(mk_node(
        3,
        2,
        NodeKind::Leaf,
        "episode-01",
        "Episode 1",
        Some("http://media.example/episode-01.mkv")
    )));
    assert!(s.insert(mk_node(4, ROOT_ID, NodeKind::Folder, "specials", "Specials", None)));
    s
}

fn segs(parts: &[&str]) -> Vec<String> {
    parts.iter().map(|p| p.to_string()).collect()
}

fn crumb_labels(crumbs: &[Crumb]) -> Vec<String> {
    crumbs.iter().map(|c| c.label.clone()).collect()
}

fn crumb_paths(crumbs: &[Crumb]) -> Vec<String> {
    crumbs.iter().map(|c| c.path.clone()).collect()
}

fn entries_eq(a: &MediaEntry, b: &MediaEntry) -> bool {
    a.folder == b.folder && a.path == b.path && a.filename == b.filename
}

#[test]
fn empty_sequence_is_root_outcome() {
    let s = demo_store();
    match resolve_path(&s, &segs(&[])) {
        Resolution::Root => {}
        _ => panic!("empty segment sequence must resolve to the Root outcome"),
    }
    let resp = browse_path(&s, &segs(&[])).expect("browsing the root must succeed");
    assert!(resp.entry.is_none());
    assert_eq!(resp.crumbs.len(), 0);
    let names: Vec<String> = resp.children.iter().map(|c| c.filename.clone()).collect();
    assert_eq!(names, vec!["anime".to_string(), "specials".to_string()]);
}

#[test]
fn single_segment_resolves_with_one_crumb() {
    let s = demo_store();
    let resp = browse_path(&s, &segs(&["anime"])).expect("anime must resolve");
    assert_eq!(crumb_labels(&resp.crumbs), vec!["Anime".to_string()]);
    assert_eq!(crumb_paths(&resp.crumbs), vec!["/anime".to_string()]);
    let entry = resp.entry.expect("a resolved node must be present");
    assert_eq!(entry.id, 1);
    assert_eq!(entry.label, "Anime");
    assert_eq!(resp.children.len(), 1);
    assert!(resp.children[0].folder);
    assert_eq!(resp.children[0].filename, "yakusoku-no-neverland");
    assert_eq!(resp.children[0].path, "anime/yakusoku-no-neverland");
}

#[test]
fn full_path_resolves_to_leaf_with_all_crumbs() {
    let s = demo_store();
    let path = segs(&["anime", "yakusoku-no-neverland", "episode-01"]);
    let resp = browse_path(&s, &path).expect("the episode must resolve");
    assert_eq!(
        crumb_labels(&resp.crumbs),
        vec![
            "Anime".to_string(),
            "Yakusoku no Neverland".to_string(),
            "Episode 1".to_string()
        ]
    );
    assert_eq!(
        crumb_paths(&resp.crumbs),
        vec![
            "/anime".to_string(),
            "/anime/yakusoku-no-neverland".to_string(),
            "/anime/yakusoku-no-neverland/episode-01".to_string()
        ]
    );
    assert_eq!(resp.crumbs.len(), path.len());
    let entry = resp.entry.expect("a resolved node must be present");
    assert_eq!(entry.id, 3);
    assert_eq!(
        entry.url,
        Some("http://media.example/episode-01.mkv".to_string())
    );
    assert_eq!(resp.children.len(), 0);
}

#[test]
fn missing_segment_is_not_found() {
    let s = demo_store();
    match browse_path(&s, &segs(&["anime", "missing"])) {
        Err(BrowseError::NotFound) => {}
        _ => panic!("a missing child must be NotFound"),
    }
    match resolve_path(&s, &segs(&["nope"])) {
        Resolution::NotFound => {}
        _ => panic!("a missing top-level key must be NotFound"),
    }
}

#[test]
fn failed_prefix_fails_whole_sequence() {
    let s = demo_store();
    // "anime/yakusoku-no-neverland" exists, "anime/yakusoku-no-neverland/x"
    // does not: the full sequence must not hand back the prefix's children.
    match browse_path(&s, &segs(&["anime", "yakusoku-no-neverland", "x"])) {
        Err(BrowseError::NotFound) => {}
        _ => panic!("a failed tail must make the whole path NotFound"),
    }
    assert!(MediaEntry::list_dir(&s, &segs(&["anime", "yakusoku-no-neverland", "x"])).is_none());
}

#[test]
fn leaf_with_remaining_segments_is_not_found() {
    let s = demo_store();
    let path = segs(&["anime", "yakusoku-no-neverland", "episode-01", "deeper"]);
    match resolve_path(&s, &path) {
        Resolution::NotFound => {}
        _ => panic!("resolving through a leaf must be NotFound"),
    }
}

#[test]
fn childless_folder_lists_empty_children() {
    let s = demo_store();
    let resp = browse_path(&s, &segs(&["specials"])).expect("specials must resolve");
    assert_eq!(resp.children.len(), 0);
    assert_eq!(s.children_of(4).len(), 0);
    let listed = MediaEntry::list_dir(&s, &segs(&["specials"])).expect("listing must succeed");
    assert_eq!(listed.len(), 0);
}

#[test]
fn leaf_children_are_empty_not_an_error() {
    let s = demo_store();
    let listed = MediaEntry::list_dir(&s, &segs(&["anime", "yakusoku-no-neverland", "episode-01"]))
        .expect("a leaf still lists, with no children");
    assert_eq!(listed.len(), 0);
    assert_eq!(s.children_of(3).len(), 0);
}

#[test]
fn resolving_twice_yields_identical_results() {
    let s = demo_store();
    let path = segs(&["anime", "yakusoku-no-neverland"]);
    let first = browse_path(&s, &path).expect("must resolve");
    let second = browse_path(&s, &path).expect("must resolve");
    assert_eq!(crumb_labels(&first.crumbs), crumb_labels(&second.crumbs));
    assert_eq!(crumb_paths(&first.crumbs), crumb_paths(&second.crumbs));
    let (e1, e2) = (first.entry.unwrap(), second.entry.unwrap());
    assert_eq!(e1.id, e2.id);
    assert_eq!(e1.key, e2.key);
    assert_eq!(e1.label, e2.label);
    assert_eq!(first.children.len(), second.children.len());
    for (a, b) in first.children.iter().zip(second.children.iter()) {
        assert!(entries_eq(a, b));
    }
}

#[test]
fn malformed_segments_are_rejected() {
    let s = demo_store();
    for bad in [&["..", "anime"][..], &["."][..], &[""][..], &["anime", ".."][..]] {
        match browse_path(&s, &segs(bad)) {
            Err(BrowseError::MalformedInput) => {}
            _ => panic!("unsafe segments must be rejected before any lookup"),
        }
    }
    assert!(!check_segment(&".".to_string()));
    assert!(!check_segment(&"..".to_string()));
    assert!(!check_segment(&"".to_string()));
    assert!(check_segment(&"episode-01".to_string()));
    assert!(check_segments(&segs(&["a", "b"])));
    assert!(!check_segments(&segs(&["a", ""])));
}

#[test]
fn insert_refuses_invalid_nodes() {
    let mut s = demo_store();
    // the root sentinel is never a real id
    assert!(!s.insert(mk_node(0, ROOT_ID, NodeKind::Folder, "zero", "Zero", None)));
    // ids are unique
    assert!(!s.insert(mk_node(1, ROOT_ID, NodeKind::Folder, "again", "Again", None)));
    // sibling keys are unique
    assert!(!s.insert(mk_node(9, ROOT_ID, NodeKind::Folder, "anime", "Anime Two", None)));
    // a parent must exist ...
    assert!(!s.insert(mk_node(10, 77, NodeKind::Leaf, "orphan", "Orphan", None)));
    // ... and be a folder, not a leaf
    assert!(!s.insert(mk_node(11, 3, NodeKind::Leaf, "under-leaf", "Under Leaf", None)));
    // a fresh node under a folder is accepted
    assert!(s.insert(mk_node(12, 4, NodeKind::Leaf, "extra", "Extra", None)));
}

#[test]
fn from_node_builds_paths_relative_to_root() {
    let n = mk_node(7, 1, NodeKind::Leaf, "clip", "Clip", None);
    let top = MediaEntry::from_node(&n, &"".to_string());
    assert!(!top.folder);
    assert_eq!(top.path, "clip");
    assert_eq!(top.filename, "clip");
    let nested = MediaEntry::from_node(&n, &"anime/season-1".to_string());
    assert_eq!(nested.path, "anime/season-1/clip");
}

#[test]
fn crumbs_pair_prefix_paths_with_labels() {
    let segments = segs(&["anime", "show"]);
    let labels = segs(&["Anime", "Show"]);
    let crumbs = Crumb::from_path(&segments, &labels);
    assert_eq!(crumbs.len(), 2);
    assert_eq!(crumbs[0].path, "/anime");
    assert_eq!(crumbs[0].label, "Anime");
    assert_eq!(crumbs[1].path, "/anime/show");
    assert_eq!(crumbs[1].label, "Show");
}

#[test]
fn join_segments_builds_relative_paths() {
    assert_eq!(join_segments(&segs(&[])), "");
    assert_eq!(join_segments(&segs(&["a"])), "a");
    assert_eq!(join_segments(&segs(&["a", "b", "c"])), "a/b/c");
}

#[test]
fn browse_root_lists_top_level() {
    let s = demo_store();
    let resp = browse_root(&s);
    assert!(resp.entry.is_none());
    assert_eq!(resp.crumbs.len(), 0);
    assert_eq!(resp.children.len(), 2);
    assert_eq!(resp.children[0].path, "anime");
    assert!(resp.children[0].folder);
}

#[test]
fn list_dir_at_root_lists_top_level() {
    let s = demo_store();
    let listed = MediaEntry::list_dir(&s, &segs(&[])).expect("the root always lists");
    assert_eq!(listed.len(), 2);
    assert_eq!(listed[0].filename, "anime");
    assert_eq!(listed[1].filename, "specials");
}

#[test]
fn child_by_key_finds_only_real_children() {
    let s = demo_store();
    let hit = s.child_by_key(ROOT_ID, &"anime".to_string());
    assert_eq!(hit.expect("anime exists").id, 1);
    assert!(s.child_by_key(ROOT_ID, &"episode-01".to_string()).is_none());
    assert!(s.child_by_key(2, &"episode-01".to_string()).is_some());
}

#[test]
fn dup_copies_every_field() {
    let mut n = mk_node(5, 1, NodeKind::Leaf, "clip", "Clip", Some("http://media.example/c"));
    n.extra = Some("{\"lang\":\"ja\"}".to_string());
    let d = n.dup();
    assert_eq!(d.id, 5);
    assert_eq!(d.parent_id, 1);
    assert!(matches!(d.kind, NodeKind::Leaf));
    assert_eq!(d.key, "clip");
    assert_eq!(d.label, "Clip");
    assert_eq!(d.url, Some("http://media.example/c".to_string()));
    assert_eq!(d.extra, Some("{\"lang\":\"ja\"}".to_string()));
}

#[test]
fn extra_payload_survives_resolution() {
    let mut s = MemStore::new();
    let mut n = mk_node(1, ROOT_ID, NodeKind::Leaf, "one", "One", None);
    n.extra = Some("{\"rating\":7}".to_string());
    assert!(s.insert(n));
    let resp = browse_path(&s, &segs(&["one"])).expect("one must resolve");
    let entry = resp.entry.expect("a resolved node must be present");
    assert_eq!(entry.extra, Some("{\"rating\":7}".to_string()));
}
