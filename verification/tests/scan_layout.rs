use spacescout::scanner::{DirListing, FsEntry, ScanConfig};
use spacescout::tree::{NodeId, Tree};
use spacescout::treemap::{COORD_SCALE, layout_treemap};
use spacescout::{measure_listing, scan_input_ok, scan_path};

fn file(name: &str, path: &str, size: u64) -> FsEntry {
    FsEntry::File { name: name.to_string(), path: path.to_string(), size }
}

fn dir(name: &str, path: &str, entries: Vec<FsEntry>) -> FsEntry {
    FsEntry::Dir {
        name: name.to_string(),
        path: path.to_string(),
        listing: DirListing::Entries(entries),
    }
}

/// The tree of the worked example: root `A` holds file `f1` (300 bytes) and
/// subdirectory `B` holding file `f2` (700 bytes).
fn example_listing() -> DirListing {
    DirListing::Entries(vec![
        file("f1", "/A/f1", 300),
        dir("B", "/A/B", vec![file("f2", "/A/B/f2", 700)]),
    ])
}

fn config(min: u64) -> ScanConfig {
    ScanConfig { min_file_size_bytes: min, follow_symlinks: false }
}

#[test]
fn scan_aggregates_sizes_bottom_up() {
    let listing = example_listing();
    let (tree, stats) = scan_path("/A".to_string(), &listing, &config(0));
    assert_eq!(tree.nodes.len(), 4);
    assert_eq!(tree.node(NodeId(0)).size, 1000);
    assert_eq!(tree.node(NodeId(0)).name, "A");
    assert_eq!(tree.node(NodeId(1)).size, 300);
    assert_eq!(tree.node(NodeId(2)).size, 700);
    assert!(tree.node(NodeId(2)).is_dir);
    assert_eq!(tree.node(NodeId(2)).name, "B");
    assert_eq!(tree.node(NodeId(3)).size, 700);
    assert_eq!(tree.node(NodeId(0)).path, "/A");
    assert_eq!(tree.node(NodeId(1)).path, "/A/f1");
    assert_eq!(tree.node(NodeId(3)).path, "/A/B/f2");
    assert_eq!(tree.node(NodeId(3)).name, "f2");
    assert_eq!(stats.files, 2);
    assert_eq!(stats.dirs, 2);
    assert_eq!(stats.errors, 0);
}

#[test]
fn directory_sizes_sum_children() {
    let listing = example_listing();
    let (tree, _) = scan_path("/A".to_string(), &listing, &config(0));
    for node in &tree.nodes {
        if node.is_dir {
            let sum: u64 = node.children.iter().map(|c| tree.node(*c).size).sum();
            assert_eq!(node.size, sum);
        }
    }
}

#[test]
fn layout_proportions_match_example() {
    let listing = example_listing();
    let (tree, _) = scan_path("/A".to_string(), &listing, &config(0));
    let rects = layout_treemap(&tree, NodeId(0), 0, 0, COORD_SCALE, COORD_SCALE, 0);
    // f1, B, then B's contents: parent before descendants.
    assert_eq!(rects.len(), 3);
    // a square splits horizontally: widths proportional to 0.3 and 0.7
    assert_eq!(rects[0].id, NodeId(1));
    assert_eq!(rects[0].x, 0);
    assert_eq!(rects[0].w, 300_000);
    assert_eq!(rects[0].h, COORD_SCALE);
    assert_eq!(rects[1].id, NodeId(2));
    assert_eq!(rects[1].x, 300_000);
    assert_eq!(rects[1].w, 700_000);
    // f2 fills B's box entirely
    assert_eq!(rects[2].id, NodeId(3));
    assert_eq!(rects[2].x, 300_000);
    assert_eq!(rects[2].w, 700_000);
    assert_eq!(rects[2].h, COORD_SCALE);
    assert_eq!(rects[2].name, "f2");
    assert!(!rects[2].is_dir);
}

#[test]
fn layout_emits_one_rect_per_positive_node() {
    let listing = example_listing();
    let (tree, _) = scan_path("/A".to_string(), &listing, &config(0));
    let rects = layout_treemap(&tree, NodeId(0), 0, 0, COORD_SCALE, COORD_SCALE, 0);
    let mut ids: Vec<u32> = rects.iter().map(|r| r.id.0).collect();
    ids.sort();
    assert_eq!(ids, vec![1, 2, 3]);
}

#[test]
fn threshold_excludes_small_files_entirely() {
    let listing = example_listing();
    let (tree, stats) = scan_path("/A".to_string(), &listing, &config(500_000));
    // f1 and f2 both fall below the threshold: no file nodes, B stays at 0
    assert_eq!(tree.nodes.len(), 2);
    assert_eq!(tree.node(NodeId(0)).size, 0);
    assert_eq!(tree.node(NodeId(1)).size, 0);
    assert!(tree.node(NodeId(1)).is_dir);
    assert_eq!(stats.files, 0);
    assert_eq!(stats.dirs, 2);
    // a zero-size root yields no rectangles at all
    let rects = layout_treemap(&tree, NodeId(0), 0, 0, COORD_SCALE, COORD_SCALE, 0);
    assert!(rects.is_empty());
}

#[test]
fn threshold_keeps_large_files() {
    let listing = example_listing();
    let (tree, stats) = scan_path("/A".to_string(), &listing, &config(500));
    // only f2 survives
    assert_eq!(tree.nodes.len(), 3);
    assert_eq!(tree.node(NodeId(0)).size, 700);
    assert_eq!(tree.node(NodeId(1)).size, 700); // B
    assert_eq!(tree.node(NodeId(2)).size, 700); // f2
    assert_eq!(stats.files, 1);
}

#[test]
fn min_area_omits_child_and_descendants() {
    // root of size 1000 with a 200-byte and an 800-byte child
    let mut tree = Tree::new_root("/A".to_string());
    tree.add_child(NodeId(0), "small".to_string(), "/A/small".to_string(), false, 200);
    tree.add_child(NodeId(0), "big".to_string(), "/A/big".to_string(), false, 800);
    tree.node_mut(NodeId(0)).size = 1000;
    // an area of 0.2 of the square falls under a threshold of 0.5
    let half_square = COORD_SCALE * COORD_SCALE / 2;
    let rects = layout_treemap(&tree, NodeId(0), 0, 0, COORD_SCALE, COORD_SCALE, half_square);
    assert_eq!(rects.len(), 1);
    assert_eq!(rects[0].id, NodeId(2));
    // the skipped child consumed no space
    assert_eq!(rects[0].x, 0);
    assert_eq!(rects[0].w, 800_000);
    // without a threshold both appear, in tree order
    let all = layout_treemap(&tree, NodeId(0), 0, 0, COORD_SCALE, COORD_SCALE, 0);
    assert_eq!(all.len(), 2);
    assert_eq!(all[0].id, NodeId(1));
    assert_eq!(all[0].w, 200_000);
    assert_eq!(all[1].x, 200_000);
    assert_eq!(all[1].w, 800_000);
}

#[test]
fn scan_tolerates_partial_failures() {
    let listing = DirListing::Entries(vec![
        FsEntry::Unknown,
        file("kept", "/r/kept", 100),
        FsEntry::Dir {
            name: "denied".to_string(),
            path: "/r/denied".to_string(),
            listing: DirListing::Failed,
        },
        FsEntry::FileNoMeta,
        FsEntry::Special,
    ]);
    let (tree, stats) = scan_path("/r".to_string(), &listing, &config(0));
    assert_eq!(stats.errors, 3);
    assert_eq!(stats.files, 1);
    assert_eq!(stats.dirs, 2);
    // no error drops a successfully enumerated entry
    assert_eq!(tree.nodes.len(), 3);
    assert_eq!(tree.node(NodeId(0)).size, 100);
    assert_eq!(tree.node(NodeId(2)).size, 0); // the unreadable directory
    assert!(tree.node(NodeId(2)).is_dir);
}

#[test]
fn empty_directory_scans_to_size_zero() {
    let listing = DirListing::Entries(vec![]);
    let (tree, stats) = scan_path("/empty".to_string(), &listing, &config(0));
    assert_eq!(tree.nodes.len(), 1);
    assert_eq!(tree.node(NodeId(0)).size, 0);
    assert_eq!(stats.files, 0);
    assert_eq!(stats.dirs, 1);
    assert_eq!(stats.errors, 0);
    assert!(layout_treemap(&tree, NodeId(0), 0, 0, COORD_SCALE, COORD_SCALE, 0).is_empty());
}

#[test]
fn measure_listing_counts_exactly() {
    let listing = example_listing();
    let totals = measure_listing(&listing, &config(0)).unwrap();
    assert_eq!(totals.total, 1000);
    assert_eq!(totals.errors, 0);
    assert_eq!(totals.files, 2);
    assert_eq!(totals.dirs, 1);
    assert_eq!(totals.nodes, 3);
    assert!(scan_input_ok(&listing, &config(0)));
}

#[test]
fn measure_listing_reports_overflow() {
    let listing = DirListing::Entries(vec![
        file("a", "/r/a", u64::MAX),
        file("b", "/r/b", u64::MAX),
    ]);
    assert!(measure_listing(&listing, &config(0)).is_none());
    assert!(!scan_input_ok(&listing, &config(0)));
}

#[test]
fn default_config_has_no_threshold() {
    let c = ScanConfig::default();
    assert_eq!(c.min_file_size_bytes, 0);
    assert!(!c.follow_symlinks);
}

#[test]
fn root_names_follow_path_components() {
    assert_eq!(Tree::new_root("/home/user/stuff".to_string()).node(NodeId(0)).name, "stuff");
    assert_eq!(Tree::new_root("/home/user/stuff/".to_string()).node(NodeId(0)).name, "stuff");
    assert_eq!(Tree::new_root("/".to_string()).node(NodeId(0)).name, "/");
    assert_eq!(Tree::new_root("".to_string()).node(NodeId(0)).name, "");
    assert_eq!(Tree::new_root("plain".to_string()).node(NodeId(0)).name, "plain");
}

#[test]
fn arena_assigns_sequential_ids() {
    let mut tree = Tree::new_root("/r".to_string());
    let a = tree.add_child(NodeId(0), "a".to_string(), "/r/a".to_string(), true, 0);
    let b = tree.add_child(NodeId(0), "b".to_string(), "/r/b".to_string(), false, 5);
    let c = tree.add_child(a, "c".to_string(), "/r/a/c".to_string(), false, 7);
    assert_eq!(a, NodeId(1));
    assert_eq!(b, NodeId(2));
    assert_eq!(c, NodeId(3));
    assert_eq!(tree.children_of(NodeId(0)), vec![a, b]);
    assert_eq!(tree.children_of(a), vec![c]);
    assert_eq!(tree.node(c).parent, Some(a));
    assert_eq!(tree.node(NodeId(0)).parent, None);
}
