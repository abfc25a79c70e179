use spacescout::nav::{AppState, NavError, compute_breadcrumbs};
use spacescout::scanner::{DirListing, FsEntry, ScanConfig};
use spacescout::tree::NodeId;
use spacescout::{COORD_SCALE, scan_path};

/// root `A` → file `f1` (300), dir `B` → file `f2` (700)
fn example_state() -> AppState {
    let listing = DirListing::Entries(vec![
        FsEntry::File { name: "f1".to_string(), path: "/A/f1".to_string(), size: 300 },
        FsEntry::Dir {
            name: "B".to_string(),
            path: "/A/B".to_string(),
            listing: DirListing::Entries(vec![FsEntry::File {
                name: "f2".to_string(),
                path: "/A/B/f2".to_string(),
                size: 700,
            }]),
        },
    ]);
    let config = ScanConfig { min_file_size_bytes: 0, follow_symlinks: false };
    let (tree, _) = scan_path("/A".to_string(), &listing, &config);
    let mut state = AppState::default();
    state.install_tree(tree);
    state
}

#[test]
fn breadcrumbs_at_root_are_a_single_element() {
    let state = example_state();
    let resp = state.get_breadcrumbs().unwrap();
    assert_eq!(resp.items.len(), 1);
    assert_eq!(resp.items[0].id, 0);
    assert_eq!(resp.items[0].name, "A");
}

#[test]
fn breadcrumbs_at_leaf_read_root_to_leaf() {
    let mut state = example_state();
    // f2 is node 3, two levels below the root
    state.set_zoom(3).unwrap();
    let resp = state.get_breadcrumbs().unwrap();
    let pairs: Vec<(u32, &str)> =
        resp.items.iter().map(|b| (b.id, b.name.as_str())).collect();
    assert_eq!(pairs, vec![(0, "A"), (2, "B"), (3, "f2")]);
}

#[test]
fn compute_breadcrumbs_walks_parent_links() {
    let state = example_state();
    let tree = state.tree.as_ref().unwrap();
    let items = compute_breadcrumbs(tree, NodeId(1));
    assert_eq!(items.len(), 2);
    assert_eq!(items[0].id, 0);
    assert_eq!(items[1].id, 1);
    assert_eq!(items[1].name, "f1");
}

#[test]
fn set_zoom_rejects_out_of_range_ids() {
    let mut state = example_state();
    let before = state.zoom;
    let r = state.set_zoom(4); // arena holds ids 0..=3
    assert_eq!(r, Err(NavError::InvalidNodeId));
    assert_eq!(state.zoom, before);
    assert_eq!(r.unwrap_err().message(), "invalid node id");
}

#[test]
fn set_zoom_without_tree_fails() {
    let mut state = AppState::default();
    let r = state.set_zoom(0);
    assert_eq!(r, Err(NavError::NoTreeLoaded));
    assert!(state.tree.is_none());
    assert_eq!(r.unwrap_err().message(), "no tree loaded");
}

#[test]
fn queries_without_tree_fail() {
    let state = AppState::default();
    assert!(matches!(state.get_breadcrumbs(), Err(NavError::NoTreeLoaded)));
    assert!(matches!(state.current_treemap(0), Err(NavError::NoTreeLoaded)));
}

#[test]
fn set_zoom_accepts_valid_ids() {
    let mut state = example_state();
    assert_eq!(state.set_zoom(2), Ok(()));
    assert_eq!(state.zoom, NodeId(2));
}

#[test]
fn install_tree_resets_zoom_to_root() {
    let mut state = example_state();
    state.set_zoom(3).unwrap();
    let listing = DirListing::Entries(vec![]);
    let config = ScanConfig { min_file_size_bytes: 0, follow_symlinks: false };
    let (tree, _) = scan_path("/other".to_string(), &listing, &config);
    state.install_tree(tree);
    assert_eq!(state.zoom, NodeId(0));
    assert_eq!(state.tree.as_ref().unwrap().nodes.len(), 1);
}

#[test]
fn zooming_relayouts_the_subtree() {
    let mut state = example_state();
    state.set_zoom(2).unwrap(); // B
    let update = state.current_treemap(0).unwrap();
    // B holds only f2, which fills the whole square
    assert_eq!(update.rects.len(), 1);
    assert_eq!(update.rects[0].id, NodeId(3));
    assert_eq!(update.rects[0].x, 0);
    assert_eq!(update.rects[0].y, 0);
    assert_eq!(update.rects[0].w, COORD_SCALE);
    assert_eq!(update.rects[0].h, COORD_SCALE);
}

#[test]
fn zooming_to_a_file_yields_no_rects() {
    let mut state = example_state();
    state.set_zoom(1).unwrap(); // f1, a leaf with no children
    let update = state.current_treemap(0).unwrap();
    assert!(update.rects.is_empty());
}
