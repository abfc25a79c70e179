//! Disk-usage treemap core: a handle-based node arena for one scanned
//! directory subtree, a scanner that aggregates sizes bottom-up while
//! tolerating partial filesystem failures, a slice-and-dice treemap layout
//! engine over fixed-point unit-square coordinates, and the zoom/breadcrumb
//! navigation state built on top of the tree.

pub mod nav;
pub mod scanner;
pub mod treemap;
pub mod tree;

pub use nav::{AppState, BreadcrumbItem, BreadcrumbsResponse, NavError, TreemapUpdate,
    compute_breadcrumbs};
pub use scanner::{DirListing, FsEntry, ScanConfig, ScanStats, ScanTotals, measure_listing,
    scan_input_ok, scan_path};
pub use tree::{Node, NodeId, Tree};
pub use treemap::{COORD_SCALE, Rect, layout_treemap};
