//! Navigation state: the active tree, the zoom handle, and the derived
//! presentation payloads (treemap rectangles and breadcrumbs).
//!
//! Invalid requests — an unknown node id, or no tree loaded yet — fail fast
//! with an explicit error and leave the state untouched.

use vstd::prelude::*;

use crate::tree::{NodeId, Tree};
use crate::treemap::{COORD_SCALE, Rect, layout_treemap, rects_from};

verus! {

/// Why a navigation request was refused.
#[derive(Debug, Clone, Copy, PartialEq, Eq, Structural)]
pub enum NavError {
    InvalidNodeId,
    NoTreeLoaded,
}

impl NavError {
    /// The text under which the condition is reported.
    pub fn message(&self) -> (m: String)
        ensures
            *self == NavError::InvalidNodeId ==> m@ == "invalid node id"@,
            *self == NavError::NoTreeLoaded ==> m@ == "no tree loaded"@,
    {
        match self {
            NavError::InvalidNodeId => "invalid node id".to_owned(),
            NavError::NoTreeLoaded => "no tree loaded".to_owned(),
        }
    }
}

/// Payload of a treemap update: the ordered rectangles of the current view.
#[derive(Debug, Clone)]
pub struct TreemapUpdate {
    pub rects: Vec<Rect>,
}

/// One entry of the breadcrumb path.
#[derive(Debug, Clone)]
pub struct BreadcrumbItem {
    pub id: u32,
    pub name: String,
}

/// Payload of a breadcrumbs update: the path from the root to the zoom.
#[derive(Debug, Clone)]
pub struct BreadcrumbsResponse {
    pub items: Vec<BreadcrumbItem>,
}

/// Number of parent links between node `n` and the root.
pub open spec fn depth(t: Tree, n: int) -> int
    decreases n,
        when t.wf() && 0 <= n < t.n()
{
    match t.nodes[n].parent {
        None => 0,
        Some(p) => 1 + depth(t, p.0 as int),
    }
}

/// The ids on the path from the root down to node `n`, both included.
pub open spec fn breadcrumb_ids(t: Tree, n: int) -> Seq<int>
    decreases n,
        when t.wf() && 0 <= n < t.n()
{
    match t.nodes[n].parent {
        None => seq![n],
        Some(p) => breadcrumb_ids(t, p.0 as int).push(n),
    }
}

/// `items` is exactly the breadcrumb path of node `zoom`: the ids on the
/// path from the root, each with the name of its node.
pub open spec fn breadcrumbs_match(t: Tree, zoom: int, items: Seq<BreadcrumbItem>) -> bool {
    &&& items.len() == breadcrumb_ids(t, zoom).len()
    &&& forall|j: int|
        0 <= j < items.len() ==> (#[trigger] items[j]).id as int == breadcrumb_ids(t, zoom)[j]
    &&& forall|j: int|
        0 <= j < items.len() ==> (#[trigger] items[j]).name == t.nodes[breadcrumb_ids(
            t,
            zoom,
        )[j]].name
}

/// Walk the parent chain from `zoom_id` up to the root and return the path
/// read root → zoom, as `(id, name)` pairs.
pub fn compute_breadcrumbs(tree: &Tree, zoom_id: NodeId) -> (r: Vec<BreadcrumbItem>)
    requires
        tree.wf(),
        (zoom_id.0 as int) < tree.nodes.len(),
    ensures
        breadcrumbs_match(*tree, zoom_id.0 as int, r@),
    decreases zoom_id.0,
{
    let node = tree.node(zoom_id);
    match node.parent {
        Some(p) => {
            proof {
                assert(tree.nodes[zoom_id.0 as int].parent is Some);
                assert(tree.parent_of(zoom_id.0 as int) < zoom_id.0 as int);
            }
            let mut r = compute_breadcrumbs(tree, p);
            r.push(BreadcrumbItem { id: zoom_id.0, name: node.name.clone() });
            proof {
                assert(breadcrumb_ids(*tree, zoom_id.0 as int) == breadcrumb_ids(
                    *tree,
                    p.0 as int,
                ).push(zoom_id.0 as int));
            }
            r
        },
        None => {
            let mut r: Vec<BreadcrumbItem> = Vec::new();
            r.push(BreadcrumbItem { id: zoom_id.0, name: node.name.clone() });
            r
        },
    }
}

/// Breadcrumbs at the root are a single element: the root itself.
pub proof fn lemma_breadcrumbs_at_root(t: Tree)
    requires
        t.wf(),
    ensures
        breadcrumb_ids(t, 0).len() == 1,
        breadcrumb_ids(t, 0)[0] == 0,
{
}

/// The breadcrumb path of any node has `depth + 1` entries and reads
/// root → node: it starts at the root, ends at the node, every entry is a
/// valid id, and each entry is the parent of the next.
pub proof fn lemma_breadcrumbs_shape(t: Tree, n: int)
    requires
        t.wf(),
        0 <= n < t.n(),
    ensures
        breadcrumb_ids(t, n).len() == depth(t, n) + 1,
        breadcrumb_ids(t, n)[0] == 0,
        breadcrumb_ids(t, n).last() == n,
        forall|j: int|
            0 <= j < breadcrumb_ids(t, n).len() ==> 0 <= #[trigger] breadcrumb_ids(t, n)[j]
                < t.n(),
        forall|j: int|
            0 < j < breadcrumb_ids(t, n).len() ==> t.parent_of(
                #[trigger] breadcrumb_ids(t, n)[j],
            ) == breadcrumb_ids(t, n)[j - 1],
    decreases n,
{
    match t.nodes[n].parent {
        None => {
            assert(n == 0);
        },
        Some(p) => {
            assert(0 <= t.parent_of(n) < n);
            lemma_breadcrumbs_shape(t, p.0 as int);
            let prev = breadcrumb_ids(t, p.0 as int);
            let cur = breadcrumb_ids(t, n);
            assert(cur == prev.push(n));
            assert forall|j: int|
                0 < j < cur.len() implies t.parent_of(#[trigger] cur[j]) == cur[j - 1] by {
                if j < prev.len() {
                    assert(cur[j] == prev[j]);
                    assert(cur[j - 1] == prev[j - 1]);
                } else {
                    assert(cur[j] == n);
                    assert(cur[j - 1] == prev.last());
                }
            }
        },
    }
}

/// Shared navigation state: the active tree, if one has been installed, and
/// the node the view is zoomed to.
pub struct AppState {
    pub tree: Option<Tree>,
    pub zoom: NodeId,
}

impl AppState {
    /// The invariant every operation preserves: whatever tree is installed
    /// is a finished scan result, and the zoom handle points into it.
    pub open spec fn inv(self) -> bool {
        match self.tree {
            Some(t) => {
                &&& t.wf()
                &&& t.completed()
                &&& t.files_are_leaves()
                &&& (self.zoom.0 as int) < t.nodes.len()
            },
            None => true,
        }
    }

    /// Arena length of the installed tree; 0 without one.
    pub open spec fn tree_len(self) -> int {
        match self.tree {
            Some(t) => t.nodes.len() as int,
            None => 0,
        }
    }

    /// Install a freshly scanned tree, wholesale-replacing any previous one,
    /// and reset the zoom to its root.
    pub fn install_tree(&mut self, tree: Tree)
        requires
            tree.wf(),
            tree.completed(),
            tree.files_are_leaves(),
        ensures
            final(self).tree == Some(tree),
            final(self).zoom == tree.root,
            final(self).inv(),
    {
        self.zoom = tree.root;
        self.tree = Some(tree);
    }

    /// Zoom to the given node. Fails with `NoTreeLoaded` when no tree is
    /// installed and with `InvalidNodeId` when the id is outside the arena;
    /// in both cases the state is left unchanged.
    pub fn set_zoom(&mut self, node_id: u32) -> (r: Result<(), NavError>)
        ensures
            old(self).tree is None ==> r == Err::<(), NavError>(NavError::NoTreeLoaded)
                && *final(self) == *old(self),
            old(self).tree is Some && node_id as int >= old(self).tree_len()
                ==> r == Err::<(), NavError>(NavError::InvalidNodeId)
                && *final(self) == *old(self),
            old(self).tree is Some && (node_id as int) < old(self).tree_len()
                ==> r == Ok::<(), NavError>(()) && final(self).zoom == NodeId(node_id)
                && final(self).tree == old(self).tree,
            old(self).inv() ==> final(self).inv(),
    {
        let len: usize = match &self.tree {
            Some(t) => t.nodes.len(),
            None => {
                return Err(NavError::NoTreeLoaded);
            },
        };
        if (node_id as usize) < len {
            self.zoom = NodeId(node_id);
            Ok(())
        } else {
            Err(NavError::InvalidNodeId)
        }
    }

    /// The breadcrumb path of the current zoom, or `NoTreeLoaded`.
    pub fn get_breadcrumbs(&self) -> (r: Result<BreadcrumbsResponse, NavError>)
        requires
            self.inv(),
        ensures
            self.tree is None ==> r == Err::<BreadcrumbsResponse, NavError>(NavError::NoTreeLoaded),
            self.tree matches Some(t) ==> (r matches Ok(resp) && breadcrumbs_match(
                t,
                self.zoom.0 as int,
                resp.items@,
            )),
    {
        match &self.tree {
            Some(t) => {
                let items = compute_breadcrumbs(t, self.zoom);
                Ok(BreadcrumbsResponse { items })
            },
            None => Err(NavError::NoTreeLoaded),
        }
    }

    /// The treemap of the current zoom over the whole unit square, or
    /// `NoTreeLoaded`. `min_area` is in layout area units, that is
    /// `COORD_SCALE * COORD_SCALE` for the full square.
    pub fn current_treemap(&self, min_area: u64) -> (r: Result<TreemapUpdate, NavError>)
        requires
            self.inv(),
        ensures
            self.tree is None ==> r == Err::<TreemapUpdate, NavError>(NavError::NoTreeLoaded),
            self.tree matches Some(t) ==> (r matches Ok(u) && {
                let z = self.zoom.0 as int;
                &&& t.nodes[z].size == 0 ==> u.rects@ == Seq::<Rect>::empty()
                &&& t.nodes[z].size > 0 ==> u.rects@ == rects_from(
                    t,
                    z,
                    0,
                    0,
                    0,
                    0,
                    COORD_SCALE as int,
                    COORD_SCALE as int,
                    t.nodes[z].size as int,
                    min_area as int,
                )
            }),
    {
        match &self.tree {
            Some(t) => {
                let rects = layout_treemap(t, self.zoom, 0, 0, COORD_SCALE, COORD_SCALE, min_area);
                Ok(TreemapUpdate { rects })
            },
            None => Err(NavError::NoTreeLoaded),
        }
    }
}

impl Default for AppState {
    /// No tree loaded; the zoom handle rests at the root id.
    fn default() -> (s: Self)
        ensures
            s.tree is None,
            s.zoom == NodeId(0),
            s.inv(),
    {
        AppState { tree: None, zoom: NodeId(0) }
    }
}

} // verus!
