//! Node arena and tree structure.
//!
//! All nodes of one scanned subtree live in a densely indexed arena; a
//! `NodeId` is a stable integer handle into it. The structure is append-only:
//! a node is only ever created as a new child of an already existing parent,
//! which keeps the parent/child graph a single acyclic tree by construction.

use vstd::prelude::*;

verus! {

/// Opaque handle of one node inside a `Tree`'s arena. Ids are assigned in
/// creation order; the root always has id 0.
#[derive(Copy, Clone, Debug, PartialEq, Eq, Structural, Hash)]
pub struct NodeId(pub u32);

/// One filesystem node: a directory, or a regular file that survived the
/// configured size threshold.
#[derive(Debug, Clone)]
pub struct Node {
    pub id: NodeId,
    pub name: String,
    pub path: String,
    pub size: u64,
    pub is_dir: bool,
    pub parent: Option<NodeId>,
    pub children: Vec<NodeId>,
}

/// Append-only arena of nodes; slot `i` always holds the node whose id is `i`.
#[derive(Debug)]
pub struct Tree {
    pub root: NodeId,
    pub nodes: Vec<Node>,
}

impl Tree {
    /// Number of nodes in the arena.
    pub open spec fn n(self) -> int {
        self.nodes.len() as int
    }

    /// Index of the parent of node `i` (meaningful for non-root nodes of a
    /// well-formed tree).
    pub open spec fn parent_of(self, i: int) -> int {
        match self.nodes[i].parent {
            Some(p) => p.0 as int,
            None => -1,
        }
    }

    /// Index of the `k`-th child of node `i`.
    pub open spec fn child(self, i: int, k: int) -> int {
        self.nodes[i].children[k].0 as int
    }

    /// Number of children of node `i`.
    pub open spec fn nchild(self, i: int) -> int {
        self.nodes[i].children.len() as int
    }

    /// Well-formedness: slot `i` holds the node with id `i`; node 0 is the
    /// root and the only node without a parent; every parent link points to
    /// an earlier slot and every child link to a later one (so the graph is
    /// acyclic); child lists are strictly increasing and agree with the
    /// parent links in both directions.
    pub open spec fn wf(self) -> bool {
        &&& 1 <= self.nodes.len()
        &&& self.nodes.len() <= u32::MAX
        &&& self.root == NodeId(0)
        &&& forall|i: int| 0 <= i < self.n() ==> (#[trigger] self.nodes[i].id).0 == i
        &&& self.nodes[0].parent is None
        &&& forall|i: int|
            1 <= i < self.n() ==> (#[trigger] self.nodes[i].parent) is Some && 0
                <= self.parent_of(i) < i
        &&& forall|i: int, k: int|
            0 <= i < self.n() && 0 <= k < self.nchild(i) ==> i < #[trigger] self.child(i, k)
                < self.n()
        &&& forall|i: int, k: int|
            0 <= i < self.n() && 0 <= k < self.nchild(i) ==> self.parent_of(
                #[trigger] self.child(i, k),
            ) == i
        &&& forall|i: int, k1: int, k2: int|
            #![trigger self.child(i, k1), self.child(i, k2)]
            0 <= i < self.n() && 0 <= k1 < k2 < self.nchild(i) ==> self.child(i, k1)
                < self.child(i, k2)
        &&& forall|i: int|
            1 <= i < self.n() ==> self.nodes[self.parent_of(i)].children@.contains(
                (#[trigger] self.nodes[i]).id,
            )
    }

    /// Create a tree that holds only a root node for `path`: size 0, a
    /// directory, no parent, no children.
    pub fn new_root(path: String) -> (t: Tree)
        ensures
            t.wf(),
            t.nodes.len() == 1,
            t.nodes[0].id == NodeId(0),
            t.nodes[0].name@ == base_name_spec(path@),
            t.nodes[0].path == path,
            t.nodes[0].size == 0,
            t.nodes[0].is_dir,
            t.nodes[0].parent is None,
            t.nodes[0].children.len() == 0,
    {
        let name = base_name(path.as_str());
        let root = Node {
            id: NodeId(0),
            name,
            path,
            size: 0,
            is_dir: true,
            parent: None,
            children: Vec::new(),
        };
        let mut nodes: Vec<Node> = Vec::new();
        nodes.push(root);
        Tree { root: NodeId(0), nodes }
    }

    /// Append a new node with the next sequential id as a child of `parent`,
    /// and record it in `parent`'s child list. Everything else in the arena
    /// is left untouched.
    pub fn add_child(
        &mut self,
        parent: NodeId,
        name: String,
        path: String,
        is_dir: bool,
        size: u64,
    ) -> (id: NodeId)
        requires
            old(self).wf(),
            (parent.0 as int) < old(self).nodes.len(),
            old(self).nodes.len() < u32::MAX,
        ensures
            final(self).wf(),
            id.0 as int == old(self).nodes.len(),
            final(self).nodes.len() == old(self).nodes.len() + 1,
            final(self).root == old(self).root,
            final(self).nodes[id.0 as int].id == id,
            final(self).nodes[id.0 as int].name == name,
            final(self).nodes[id.0 as int].path == path,
            final(self).nodes[id.0 as int].size == size,
            final(self).nodes[id.0 as int].is_dir == is_dir,
            final(self).nodes[id.0 as int].parent == Some(parent),
            final(self).nodes[id.0 as int].children.len() == 0,
            forall|i: int|
                0 <= i < old(self).nodes.len() && i != parent.0 as int ==> final(self).nodes[i]
                    == old(self).nodes[i],
            final(self).nodes[parent.0 as int].children@ == old(
                self,
            ).nodes[parent.0 as int].children@.push(id),
            final(self).nodes[parent.0 as int].id == old(self).nodes[parent.0 as int].id,
            final(self).nodes[parent.0 as int].name == old(self).nodes[parent.0 as int].name,
            final(self).nodes[parent.0 as int].path == old(self).nodes[parent.0 as int].path,
            final(self).nodes[parent.0 as int].size == old(self).nodes[parent.0 as int].size,
            final(self).nodes[parent.0 as int].is_dir == old(self).nodes[parent.0 as int].is_dir,
            final(self).nodes[parent.0 as int].parent == old(self).nodes[parent.0 as int].parent,
    {
        let id = NodeId(self.nodes.len() as u32);
        let node = Node {
            id,
            name,
            path,
            size,
            is_dir,
            parent: Some(parent),
            children: Vec::new(),
        };
        self.nodes.push(node);
        let pnode = &mut self.nodes[parent.0 as usize];
        pnode.children.push(id);
        proof {
            let post = *self;
            let pre = *old(self);
            let p = parent.0 as int;
            let nid = id.0 as int;
            assert(forall|i: int|
                0 <= i < pre.n() && i != p ==> post.nodes[i] == pre.nodes[i]);
            assert(post.nodes[p].children@ == pre.nodes[p].children@.push(id));
            assert forall|i: int| 0 <= i < post.n() implies (#[trigger] post.nodes[i].id).0
                == i by {
                if i < pre.n() {
                    assert(pre.nodes[i].id.0 == i);
                }
            }
            assert forall|i: int| 1 <= i < post.n() implies (#[trigger] post.nodes[i].parent)
                is Some && 0 <= post.parent_of(i) < i by {
                if i < pre.n() {
                    assert(pre.nodes[i].parent is Some && 0 <= pre.parent_of(i) < i);
                }
            }
            assert forall|i: int, k: int|
                0 <= i < post.n() && 0 <= k < post.nchild(i) implies i < #[trigger] post.child(
                i,
                k,
            ) < post.n() by {
                if i == p && k == pre.nchild(p) {
                    assert(post.child(i, k) == nid);
                } else {
                    assert(post.child(i, k) == pre.child(i, k));
                    assert(i < pre.child(i, k) < pre.n());
                }
            }
            assert forall|i: int, k: int|
                0 <= i < post.n() && 0 <= k < post.nchild(i) implies post.parent_of(
                #[trigger] post.child(i, k),
            ) == i by {
                if i == p && k == pre.nchild(p) {
                    assert(post.child(i, k) == nid);
                } else {
                    assert(post.child(i, k) == pre.child(i, k));
                    assert(pre.parent_of(pre.child(i, k)) == i);
                    assert(pre.child(i, k) != nid);
                }
            }
            assert forall|i: int, k1: int, k2: int|
                #![trigger post.child(i, k1), post.child(i, k2)]
                0 <= i < post.n() && 0 <= k1 < k2 < post.nchild(i) implies post.child(i, k1)
                    < post.child(i, k2) by {
                if i == p && k2 == pre.nchild(p) {
                    assert(post.child(i, k1) == pre.child(i, k1));
                    assert(pre.child(i, k1) < pre.n());
                    assert(post.child(i, k2) == nid);
                } else {
                    assert(post.child(i, k1) == pre.child(i, k1));
                    assert(post.child(i, k2) == pre.child(i, k2));
                    assert(pre.child(i, k1) < pre.child(i, k2));
                }
            }
            assert forall|i: int| 1 <= i < post.n() implies post.nodes[post.parent_of(
                i,
            )].children@.contains((#[trigger] post.nodes[i]).id) by {
                if i == nid {
                    assert(post.nodes[p].children@.last() == id);
                    assert(post.nodes[p].children@.contains(id));
                } else {
                    let q = pre.parent_of(i);
                    assert(pre.nodes[q].children@.contains(pre.nodes[i].id));
                    let j = choose|j: int|
                        0 <= j < pre.nodes[q].children@.len() && pre.nodes[q].children@[j]
                            == pre.nodes[i].id;
                    assert(post.nodes[q].children@[j] == pre.nodes[i].id);
                    assert(post.nodes[q].children@.contains(post.nodes[i].id));
                }
            }
        }
        id
    }

    /// Read access to the node with the given id.
    pub fn node(&self, id: NodeId) -> (n: &Node)
        requires
            (id.0 as int) < self.nodes.len(),
        ensures
            *n == self.nodes[id.0 as int],
    {
        &self.nodes[id.0 as usize]
    }

    /// Mutable access to the node with the given id.
    pub fn node_mut(&mut self, id: NodeId) -> (n: &mut Node)
        requires
            (id.0 as int) < old(self).nodes.len(),
        ensures
            *n == old(self).nodes[id.0 as int],
            final(self).nodes@ == old(self).nodes@.update(id.0 as int, *final(n)),
            final(self).root == old(self).root,
    {
        &mut self.nodes[id.0 as usize]
    }

    /// The ids of the children of the given node, in insertion order.
    pub fn children_of(&self, id: NodeId) -> (c: Vec<NodeId>)
        requires
            (id.0 as int) < self.nodes.len(),
        ensures
            c@ == self.nodes[id.0 as int].children@,
    {
        let list = &self.nodes[id.0 as usize].children;
        let mut out: Vec<NodeId> = Vec::new();
        let mut j: usize = 0;
        while j < list.len()
            invariant
                j <= list.len(),
                out@ == list@.subrange(0, j as int),
            decreases list.len() - j,
        {
            out.push(list[j]);
            j = j + 1;
        }
        proof {
            assert(out@ =~= list@);
        }
        out
    }
}

/// Sum of the sizes of the listed nodes, as an unbounded integer.
pub open spec fn sum_sizes(t: Tree, ids: Seq<NodeId>) -> int
    decreases ids.len(),
{
    if ids.len() == 0 {
        0
    } else {
        t.nodes[ids[0].0 as int].size + sum_sizes(t, ids.drop_first())
    }
}

impl Tree {
    /// Only directories carry children; every file node is a leaf.
    pub open spec fn files_are_leaves(self) -> bool {
        forall|i: int|
            0 <= i < self.n() && !(#[trigger] self.nodes[i]).is_dir ==> self.nodes[i].children.len()
                == 0
    }

    /// A finished tree: every directory's size is exactly the sum of its
    /// direct children's sizes.
    pub open spec fn completed(self) -> bool {
        forall|i: int|
            0 <= i < self.n() && (#[trigger] self.nodes[i]).is_dir ==> self.nodes[i].size as int
                == sum_sizes(self, self.nodes[i].children@)
    }
}

/// Appending an id at the end adds that node's size to the sum.
pub proof fn lemma_sum_sizes_push(t: Tree, ids: Seq<NodeId>, x: NodeId)
    ensures
        sum_sizes(t, ids.push(x)) == sum_sizes(t, ids) + t.nodes[x.0 as int].size,
    decreases ids.len(),
{
    let w = ids.push(x);
    assert(w.len() == ids.len() + 1);
    if ids.len() == 0 {
        assert(w[0] == x);
        assert(w.drop_first() =~= Seq::<NodeId>::empty());
        assert(sum_sizes(t, w.drop_first()) == 0);
        assert(sum_sizes(t, w) == t.nodes[x.0 as int].size + 0);
    } else {
        assert(w[0] == ids[0]);
        assert(w.drop_first() =~= ids.drop_first().push(x));
        lemma_sum_sizes_push(t, ids.drop_first(), x);
        assert(sum_sizes(t, w) == t.nodes[ids[0].0 as int].size + sum_sizes(t, w.drop_first()));
        assert(sum_sizes(t, ids) == t.nodes[ids[0].0 as int].size + sum_sizes(t, ids.drop_first()));
    }
}

/// The sum only depends on the sizes of the listed nodes.
pub proof fn lemma_sum_sizes_frame(t1: Tree, t2: Tree, ids: Seq<NodeId>)
    requires
        forall|j: int|
            0 <= j < ids.len() ==> t1.nodes[(#[trigger] ids[j]).0 as int].size == t2.nodes[ids[j].0
                as int].size,
    ensures
        sum_sizes(t1, ids) == sum_sizes(t2, ids),
    decreases ids.len(),
{
    if ids.len() > 0 {
        assert(t1.nodes[(ids[0]).0 as int].size == t2.nodes[ids[0].0 as int].size);
        lemma_sum_sizes_frame(t1, t2, ids.drop_first());
    }
}

/// Every listed node's size is at most the sum (sizes are non-negative).
pub proof fn lemma_sum_sizes_bounds(t: Tree, ids: Seq<NodeId>)
    ensures
        sum_sizes(t, ids) >= 0,
        forall|j: int|
            0 <= j < ids.len() ==> t.nodes[(#[trigger] ids[j]).0 as int].size <= sum_sizes(t, ids),
    decreases ids.len(),
{
    if ids.len() > 0 {
        lemma_sum_sizes_bounds(t, ids.drop_first());
        assert forall|j: int|
            0 <= j < ids.len() implies t.nodes[(#[trigger] ids[j]).0 as int].size <= sum_sizes(
            t,
            ids,
        ) by {
            if j > 0 {
                assert(ids.drop_first()[j - 1] == ids[j]);
            }
        }
    }
}

/// The sum splits at any cut point.
pub proof fn lemma_sum_sizes_split(t: Tree, ids: Seq<NodeId>, k: int)
    requires
        0 <= k <= ids.len(),
    ensures
        sum_sizes(t, ids) == sum_sizes(t, ids.subrange(0, k)) + sum_sizes(
            t,
            ids.subrange(k, ids.len() as int),
        ),
    decreases k,
{
    if k == 0 {
        assert(ids.subrange(0, 0) =~= Seq::<NodeId>::empty());
        assert(ids.subrange(0, ids.len() as int) =~= ids);
    } else {
        lemma_sum_sizes_split(t, ids, k - 1);
        let tailprev = ids.subrange(k - 1, ids.len() as int);
        assert(tailprev[0] == ids[k - 1]);
        assert(tailprev.drop_first() =~= ids.subrange(k, ids.len() as int));
        assert(ids.subrange(0, k) =~= ids.subrange(0, k - 1).push(ids[k - 1]));
        lemma_sum_sizes_push(t, ids.subrange(0, k - 1), ids[k - 1]);
    }
}

/// Length that remains of the first `e` characters of `s` once trailing `'/'`
/// separators are dropped.
pub open spec fn trim_at(s: Seq<char>, e: int) -> int
    decreases e,
{
    if e > 0 && s[e - 1] == '/' {
        trim_at(s, e - 1)
    } else {
        e
    }
}

/// Start of the path component of `s` that ends just before `e`.
pub open spec fn comp_start(s: Seq<char>, e: int) -> int
    decreases e,
{
    if e > 0 && s[e - 1] != '/' {
        comp_start(s, e - 1)
    } else {
        e
    }
}

/// The final path component of `s`: trailing separators are dropped and the
/// text after the last remaining separator is taken; if nothing remains, the
/// whole string stands in (root fallback).
pub open spec fn base_name_spec(s: Seq<char>) -> Seq<char> {
    let e = trim_at(s, s.len() as int);
    let b = comp_start(s, e);
    if e <= 0 {
        s
    } else {
        s.subrange(b, e)
    }
}

proof fn lemma_comp_start_bounds(s: Seq<char>, e: int)
    requires
        0 <= e,
    ensures
        0 <= comp_start(s, e) <= e,
    decreases e,
{
    if e > 0 && s[e - 1] != '/' {
        lemma_comp_start_bounds(s, e - 1);
    }
}

/// The final path component of `path`, or `path` itself where no component
/// remains once trailing separators are dropped.
pub fn base_name(path: &str) -> (r: String)
    ensures
        r@ == base_name_spec(path@),
{
    let n: usize = path.unicode_len();
    let mut e: usize = n;
    while e > 0 && path.get_char(e - 1) == '/'
        invariant
            e <= n,
            n == path@.len(),
            trim_at(path@, n as int) == trim_at(path@, e as int),
        decreases e,
    {
        e = e - 1;
    }
    assert(trim_at(path@, n as int) == e as int);
    if e == 0 {
        return path.to_owned();
    }
    let mut b: usize = e;
    while b > 0 && path.get_char(b - 1) != '/'
        invariant
            b <= e,
            e <= n,
            n == path@.len(),
            comp_start(path@, e as int) == comp_start(path@, b as int),
        decreases b,
    {
        b = b - 1;
    }
    assert(comp_start(path@, e as int) == b as int);
    proof {
        lemma_comp_start_bounds(path@, e as int);
    }
    let part = path.substring_char(b, e);
    part.to_owned()
}

} // verus!
