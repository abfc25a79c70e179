//! Slice-and-dice treemap layout engine.
//!
//! A pure function over a finished `Tree`: given a subtree root and a
//! bounding box it produces the flat, ordered list of rectangles to draw.
//! Coordinates are fixed-point fractions of the unit square — a length of
//! `COORD_SCALE` spans the whole square — so the geometry here is exact
//! integer arithmetic; a renderer divides by `COORD_SCALE` on its way out.

use vstd::arithmetic::div_mod::{
    lemma_div_is_ordered, lemma_div_multiples_vanish, lemma_div_pos_is_pos, lemma_remainder_lower,
};
use vstd::arithmetic::mul::{lemma_mul_inequality, lemma_mul_upper_bound};
use vstd::prelude::*;

use crate::tree::{
    NodeId, Tree, lemma_sum_sizes_bounds, lemma_sum_sizes_push, lemma_sum_sizes_split, sum_sizes,
};

verus! {

/// Coordinate units per side of the unit square.
pub const COORD_SCALE: u64 = 1_000_000;

/// One rectangle of a computed layout: a transient, per-render artifact,
/// always recomputed from the tree, the zoom node, the bounding box and the
/// area threshold. `x`, `y`, `w`, `h` are in units of 1/`COORD_SCALE` of the
/// unit square.
#[derive(Debug, Clone)]
pub struct Rect {
    pub id: NodeId,
    pub x: u64,
    pub y: u64,
    pub w: u64,
    pub h: u64,
    pub name: String,
    pub size: u64,
    pub is_dir: bool,
}

/// The rectangles that the walk emits for the children of `p` from child
/// index `k` on, with `off` already consumed along the split axis of the box
/// `(x, y, w, h)`. The split axis is horizontal exactly when `w >= h`,
/// re-evaluated at every level. A child of size 0 is dropped entirely; a
/// child whose area falls below `min_area` is dropped with all its
/// descendants and consumes no space; any other child takes its share of the
/// split axis, and a directory with children is then walked recursively,
/// parent before descendants.
pub open spec fn rects_from(
    t: Tree,
    p: int,
    k: int,
    off: int,
    x: int,
    y: int,
    w: int,
    h: int,
    psize: int,
    min_area: int,
) -> Seq<Rect>
    decreases t.n() - p, t.nchild(p) - k,
        when t.wf() && 0 <= p < t.n() && 0 <= k
{
    if k >= t.nchild(p) {
        Seq::empty()
    } else {
        let c = t.child(p, k);
        let node = t.nodes[c];
        if node.size == 0 {
            rects_from(t, p, k + 1, off, x, y, w, h, psize, min_area)
        } else {
            let horizontal = w >= h;
            let flen = if horizontal {
                node.size * w / psize
            } else {
                node.size * h / psize
            };
            let area = if horizontal {
                flen * h
            } else {
                flen * w
            };
            if area < min_area {
                rects_from(t, p, k + 1, off, x, y, w, h, psize, min_area)
            } else {
                let cx = if horizontal {
                    x + off
                } else {
                    x
                };
                let cy = if horizontal {
                    y
                } else {
                    y + off
                };
                let cw = if horizontal {
                    flen
                } else {
                    w
                };
                let chh = if horizontal {
                    h
                } else {
                    flen
                };
                let rect = Rect {
                    id: node.id,
                    x: cx as u64,
                    y: cy as u64,
                    w: cw as u64,
                    h: chh as u64,
                    name: node.name,
                    size: node.size,
                    is_dir: node.is_dir,
                };
                let sub = if node.is_dir && node.children.len() > 0 {
                    rects_from(t, c, 0, 0, cx, cy, cw, chh, node.size as int, min_area)
                } else {
                    Seq::empty()
                };
                seq![rect] + sub + rects_from(
                    t,
                    p,
                    k + 1,
                    off + flen,
                    x,
                    y,
                    w,
                    h,
                    psize,
                    min_area,
                )
            }
        }
    }
}

/// A child's share of the split axis is between 0 and the axis itself, and
/// costs at most its proportional share of the parent's weight.
proof fn lemma_frac_bounds(s: int, alen: int, ps: int)
    requires
        0 <= s <= ps,
        0 < ps,
        0 <= alen,
    ensures
        0 <= s * alen / ps <= alen,
        (s * alen / ps) * ps <= s * alen,
{
    lemma_mul_inequality(s, ps, alen);
    lemma_div_is_ordered(s * alen, ps * alen, ps);
    lemma_div_multiples_vanish(alen, ps);
    lemma_div_pos_is_pos(s * alen, ps);
    lemma_remainder_lower(s * alen, ps);
}

/// Advancing the offset by one child's share keeps the consumed extent
/// within the weighted prefix bound, and so within the axis.
proof fn lemma_offset_step(off: int, flen: int, s: int, prefix: int, alen: int, ps: int)
    requires
        0 < ps,
        0 <= alen,
        0 <= s,
        0 <= prefix,
        0 <= off,
        0 <= flen,
        off * ps <= prefix * alen,
        flen * ps <= s * alen,
        prefix + s <= ps,
    ensures
        (off + flen) * ps <= (prefix + s) * alen,
        off + flen <= alen,
{
    assert((off + flen) * ps == off * ps + flen * ps) by (nonlinear_arith);
    assert((prefix + s) * alen == prefix * alen + s * alen) by (nonlinear_arith);
    assert((prefix + s) * alen <= ps * alen) by (nonlinear_arith)
        requires
            prefix + s <= ps,
            0 <= alen,
    ;
    assert(off + flen <= alen) by (nonlinear_arith)
        requires
            (off + flen) * ps <= ps * alen,
            0 < ps,
    ;
}

/// The ids of the rectangles, in emission order.
pub open spec fn rect_ids(rs: Seq<Rect>) -> Seq<int> {
    rs.map_values(|r: Rect| r.id.0 as int)
}

/// The nodes a threshold-free layout renders below `p`, from child index
/// `k` on, in output order: children with positive size in tree order, each
/// directory followed by its own visible descendants.
pub open spec fn visible_from(t: Tree, p: int, k: int) -> Seq<int>
    decreases t.n() - p, t.nchild(p) - k,
        when t.wf() && 0 <= p < t.n() && 0 <= k
{
    if k >= t.nchild(p) {
        Seq::empty()
    } else {
        let c = t.child(p, k);
        let node = t.nodes[c];
        let rest = visible_from(t, p, k + 1);
        if node.size == 0 {
            rest
        } else {
            let sub = if node.is_dir && node.children.len() > 0 {
                visible_from(t, c, 0)
            } else {
                Seq::empty()
            };
            seq![c] + sub + rest
        }
    }
}

/// Node `a` lies strictly above `n`, on `n`'s parent chain.
pub open spec fn in_chain(t: Tree, a: int, n: int) -> bool
    decreases n,
        when t.wf() && 0 <= n < t.n()
{
    match t.nodes[n].parent {
        None => false,
        Some(p) => p.0 as int == a || in_chain(t, a, p.0 as int),
    }
}

/// Node `i` is reachable from `root` through positive sizes: a strict
/// descendant whose size, and the size of everything on the way down, is
/// positive, with every intermediate node a directory.
pub open spec fn node_visible(t: Tree, root: int, i: int) -> bool
    decreases i,
        when t.wf() && 0 <= i < t.n()
{
    &&& t.nodes[i].size > 0
    &&& match t.nodes[i].parent {
        None => false,
        Some(p) => p.0 as int == root || (node_visible(t, root, p.0 as int) && t.nodes[p.0
            as int].is_dir),
    }
}

proof fn lemma_chain_below(t: Tree, a: int, n: int)
    requires
        t.wf(),
        0 <= n < t.n(),
        in_chain(t, a, n),
    ensures
        0 <= a < n,
    decreases n,
{
    match t.nodes[n].parent {
        None => {},
        Some(p) => {
            assert(0 <= t.parent_of(n) < n);
            if p.0 as int != a {
                lemma_chain_below(t, a, p.0 as int);
            }
        },
    }
}

proof fn lemma_chain_trans(t: Tree, a: int, b: int, n: int)
    requires
        t.wf(),
        0 <= n < t.n(),
        in_chain(t, b, n),
        0 <= b < t.n(),
        in_chain(t, a, b),
    ensures
        in_chain(t, a, n),
    decreases n,
{
    match t.nodes[n].parent {
        None => {},
        Some(p) => {
            assert(0 <= t.parent_of(n) < n);
            if p.0 as int == b {
            } else {
                lemma_chain_trans(t, a, b, p.0 as int);
            }
        },
    }
}

proof fn lemma_chain_linear(t: Tree, a: int, b: int, n: int)
    requires
        t.wf(),
        0 <= n < t.n(),
        in_chain(t, a, n),
        in_chain(t, b, n),
        a != b,
    ensures
        in_chain(t, a, b) || in_chain(t, b, a),
    decreases n,
{
    match t.nodes[n].parent {
        None => {},
        Some(pn) => {
            let q = pn.0 as int;
            assert(0 <= t.parent_of(n) < n);
            if q == a {
                assert(in_chain(t, b, q));
            } else if q == b {
                assert(in_chain(t, a, q));
            } else {
                lemma_chain_linear(t, a, b, q);
            }
        },
    }
}

proof fn lemma_concat_contains(a: Seq<int>, b: Seq<int>, x: int)
    ensures
        (a + b).contains(x) <==> a.contains(x) || b.contains(x),
{
    if a.contains(x) {
        let i = choose|i: int| 0 <= i < a.len() && a[i] == x;
        assert((a + b)[i] == x);
    }
    if b.contains(x) {
        let i = choose|i: int| 0 <= i < b.len() && b[i] == x;
        assert((a + b)[a.len() + i] == x);
    }
    if (a + b).contains(x) {
        let i = choose|i: int| 0 <= i < (a + b).len() && (a + b)[i] == x;
        if i < a.len() {
            assert(a[i] == x);
        } else {
            assert(b[i - a.len()] == x);
        }
    }
}

proof fn lemma_no_dup_concat(a: Seq<int>, b: Seq<int>)
    requires
        a.no_duplicates(),
        b.no_duplicates(),
        forall|x: int| a.contains(x) ==> !b.contains(x),
    ensures
        (a + b).no_duplicates(),
{
    assert forall|i: int, j: int|
        0 <= i < (a + b).len() && 0 <= j < (a + b).len() && i != j implies (a + b)[i] != (
    a + b)[j] by {
        if i < a.len() && j < a.len() {
            assert((a + b)[i] == a[i] && (a + b)[j] == a[j]);
        } else if i >= a.len() && j >= a.len() {
            assert((a + b)[i] == b[i - a.len()] && (a + b)[j] == b[j - a.len()]);
        } else if i < a.len() && j >= a.len() {
            assert(a.contains(a[i]));
            if (a + b)[i] == (a + b)[j] {
                assert(b[j - a.len()] == a[i]);
                assert(b.contains(a[i]));
            }
        } else {
            assert(a.contains(a[j]));
            if (a + b)[i] == (a + b)[j] {
                assert(b[i - a.len()] == a[j]);
                assert(b.contains(a[j]));
            }
        }
    }
}

/// Every rendered node below `(p, k)` is one of the children from `k` on,
/// or sits below such a child; in particular it is a strict descendant of
/// `p` with a valid id.
proof fn lemma_visible_elems(t: Tree, p: int, k: int)
    requires
        t.wf(),
        0 <= p < t.n(),
        0 <= k,
    ensures
        forall|x: int|
            #[trigger] visible_from(t, p, k).contains(x) ==> p < x < t.n() && in_chain(t, p, x)
                && exists|j: int|
                k <= j < t.nchild(p) && t.nodes[t.child(p, j)].size > 0 && (x == t.child(p, j)
                    || in_chain(t, t.child(p, j), x)),
    decreases t.n() - p, t.nchild(p) - k,
{
    if k >= t.nchild(p) {
    } else {
        let c = t.child(p, k);
        let node = t.nodes[c];
        let rest = visible_from(t, p, k + 1);
        assert(p < c < t.n());
        assert(t.parent_of(c) == p);
        lemma_visible_elems(t, p, k + 1);
        if node.size == 0 {
            assert forall|x: int| #[trigger] visible_from(t, p, k).contains(x) implies p < x
                < t.n() && in_chain(t, p, x) && exists|j: int|
                k <= j < t.nchild(p) && t.nodes[t.child(p, j)].size > 0 && (x == t.child(p, j)
                    || in_chain(t, t.child(p, j), x)) by {
                assert(rest.contains(x));
                let j = choose|j: int|
                    k + 1 <= j < t.nchild(p) && t.nodes[t.child(p, j)].size > 0 && (x == t.child(
                        p,
                        j,
                    ) || in_chain(t, t.child(p, j), x));
                assert(k <= j < t.nchild(p) && t.nodes[t.child(p, j)].size > 0 && (x == t.child(
                    p,
                    j,
                ) || in_chain(t, t.child(p, j), x)));
            }
        } else {
            let sub = if node.is_dir && node.children.len() > 0 {
                visible_from(t, c, 0)
            } else {
                Seq::<int>::empty()
            };
            if node.is_dir && node.children.len() > 0 {
                lemma_visible_elems(t, c, 0);
            }
            assert forall|x: int| #[trigger] visible_from(t, p, k).contains(x) implies p < x
                < t.n() && in_chain(t, p, x) && exists|j: int|
                k <= j < t.nchild(p) && t.nodes[t.child(p, j)].size > 0 && (x == t.child(p, j)
                    || in_chain(t, t.child(p, j), x)) by {
                lemma_concat_contains(seq![c] + sub, rest, x);
                lemma_concat_contains(seq![c], sub, x);
                if (seq![c]).contains(x) {
                    assert(x == c);
                    assert(in_chain(t, p, c));
                    assert(t.nodes[t.child(p, k)].size > 0 && x == t.child(p, k));
                } else if sub.contains(x) {
                    assert(c < x < t.n() && in_chain(t, c, x));
                    lemma_chain_trans(t, p, c, x);
                    assert(t.nodes[t.child(p, k)].size > 0 && in_chain(t, t.child(p, k), x));
                } else {
                    assert(rest.contains(x));
                    let j = choose|j: int|
                        k + 1 <= j < t.nchild(p) && t.nodes[t.child(p, j)].size > 0 && (x
                            == t.child(p, j) || in_chain(t, t.child(p, j), x));
                    assert(k <= j < t.nchild(p) && t.nodes[t.child(p, j)].size > 0 && (x
                        == t.child(p, j) || in_chain(t, t.child(p, j), x)));
                }
            }
        }
    }
}

/// No node is rendered twice: sibling subtrees are disjoint because every
/// node has a single parent chain.
proof fn lemma_visible_no_dup(t: Tree, p: int, k: int)
    requires
        t.wf(),
        0 <= p < t.n(),
        0 <= k,
    ensures
        visible_from(t, p, k).no_duplicates(),
    decreases t.n() - p, t.nchild(p) - k,
{
    if k >= t.nchild(p) {
    } else {
        let c = t.child(p, k);
        let node = t.nodes[c];
        let rest = visible_from(t, p, k + 1);
        assert(p < c < t.n());
        assert(t.parent_of(c) == p);
        lemma_visible_no_dup(t, p, k + 1);
        lemma_visible_elems(t, p, k + 1);
        if node.size == 0 {
        } else {
            let sub = if node.is_dir && node.children.len() > 0 {
                visible_from(t, c, 0)
            } else {
                Seq::<int>::empty()
            };
            if node.is_dir && node.children.len() > 0 {
                lemma_visible_no_dup(t, c, 0);
                lemma_visible_elems(t, c, 0);
            }
            // c itself is above everything in `sub`
            assert(!sub.contains(c)) by {
                if sub.contains(c) {
                    assert(in_chain(t, c, c));
                    lemma_chain_below(t, c, c);
                }
            }
            assert((seq![c]).no_duplicates());
            assert forall|x: int| (seq![c]).contains(x) implies !sub.contains(x) by {
                assert(x == c);
            }
            lemma_no_dup_concat(seq![c], sub);
            // nothing in the `c` block reappears among later siblings
            assert forall|x: int| (seq![c] + sub).contains(x) implies !rest.contains(x) by {
                lemma_concat_contains(seq![c], sub, x);
                if rest.contains(x) {
                    let j = choose|j: int|
                        k + 1 <= j < t.nchild(p) && t.nodes[t.child(p, j)].size > 0 && (x
                            == t.child(p, j) || in_chain(t, t.child(p, j), x));
                    let d = t.child(p, j);
                    assert(p < d < t.n());
                    assert(t.parent_of(d) == p);
                    assert(c < d);
                    if x == c {
                        if x == d {
                            assert(false);
                        } else {
                            // d above c: contradicts d > c
                            lemma_chain_below(t, d, c);
                        }
                    } else {
                        assert(sub.contains(x));
                        assert(in_chain(t, c, x));
                        if x == d {
                            // c above d: c's chain position vs parent(d) == p
                            assert(in_chain(t, c, d));
                            if !(c == p) {
                                lemma_chain_below(t, c, p);
                            }
                        } else {
                            assert(in_chain(t, d, x));
                            assert(0 <= x < t.n());
                            lemma_chain_linear(t, c, d, x);
                            if in_chain(t, c, d) {
                                if !(c == p) {
                                    lemma_chain_below(t, c, p);
                                }
                            } else {
                                assert(in_chain(t, d, c));
                                if !(d == p) {
                                    lemma_chain_below(t, d, p);
                                }
                            }
                        }
                    }
                }
            }
            lemma_no_dup_concat(seq![c] + sub, rest);
        }
    }
}

/// A positive-size child of `p` from index `k` on is rendered.
proof fn lemma_visible_member_child(t: Tree, p: int, k: int, j: int)
    requires
        t.wf(),
        0 <= p < t.n(),
        0 <= k <= j < t.nchild(p),
        t.nodes[t.child(p, j)].size > 0,
    ensures
        visible_from(t, p, k).contains(t.child(p, j)),
    decreases j - k,
{
    let c = t.child(p, k);
    let node = t.nodes[c];
    assert(p < c < t.n());
    let rest = visible_from(t, p, k + 1);
    if k == j {
        let sub = if node.is_dir && node.children.len() > 0 {
            visible_from(t, c, 0)
        } else {
            Seq::<int>::empty()
        };
        assert(visible_from(t, p, k)[0] == c);
    } else {
        lemma_visible_member_child(t, p, k + 1, j);
        if node.size == 0 {
        } else {
            let sub = if node.is_dir && node.children.len() > 0 {
                visible_from(t, c, 0)
            } else {
                Seq::<int>::empty()
            };
            lemma_concat_contains(seq![c] + sub, rest, t.child(p, j));
        }
    }
}

/// A rendered directory's positive-size children are rendered too.
proof fn lemma_visible_member_lift(t: Tree, p: int, k: int, x: int, i: int)
    requires
        t.wf(),
        0 <= p < t.n(),
        0 <= k,
        visible_from(t, p, k).contains(x),
        0 <= x < t.n(),
        t.nodes[x].is_dir,
        0 <= i < t.n(),
        t.parent_of(i) == x,
        t.nodes[i].parent is Some,
        t.nodes[i].size > 0,
    ensures
        visible_from(t, p, k).contains(i),
    decreases t.n() - p, t.nchild(p) - k,
{
    assert(k < t.nchild(p));
    let c = t.child(p, k);
    let node = t.nodes[c];
    assert(p < c < t.n());
    let rest = visible_from(t, p, k + 1);
    // x has a child, so its child list is not empty
    assert(t.nodes[x].children@.contains(t.nodes[i].id));
    let ki = choose|ki: int|
        0 <= ki < t.nodes[x].children@.len() && t.nodes[x].children@[ki] == t.nodes[i].id;
    assert(t.child(x, ki) == i);
    if node.size == 0 {
        lemma_visible_member_lift(t, p, k + 1, x, i);
    } else {
        let sub = if node.is_dir && node.children.len() > 0 {
            visible_from(t, c, 0)
        } else {
            Seq::<int>::empty()
        };
        lemma_concat_contains(seq![c] + sub, rest, x);
        lemma_concat_contains(seq![c], sub, x);
        if (seq![c]).contains(x) {
            assert(x == c);
            assert(t.nodes[c].children.len() > 0);
            lemma_visible_member_child(t, x, 0, ki);
            lemma_concat_contains(seq![c], sub, i);
            lemma_concat_contains(seq![c] + sub, rest, i);
        } else if sub.contains(x) {
            lemma_visible_member_lift(t, c, 0, x, i);
            lemma_concat_contains(seq![c], sub, i);
            lemma_concat_contains(seq![c] + sub, rest, i);
        } else {
            lemma_visible_member_lift(t, p, k + 1, x, i);
            lemma_concat_contains(seq![c] + sub, rest, i);
        }
    }
}

/// A node is rendered below `root` exactly when it is reachable from
/// `root` through positive sizes.
pub proof fn lemma_visible_iff(t: Tree, root: int, i: int)
    requires
        t.wf(),
        0 <= root < t.n(),
    ensures
        visible_from(t, root, 0).contains(i) <==> (0 <= i < t.n() && node_visible(t, root, i)),
    decreases i,
{
    lemma_visible_elems(t, root, 0);
    if visible_from(t, root, 0).contains(i) {
        // forward: the walk only renders reachable nodes
        let j = choose|j: int|
            0 <= j < t.nchild(root) && t.nodes[t.child(root, j)].size > 0 && (i == t.child(root, j)
                || in_chain(t, t.child(root, j), i));
        lemma_visible_forward(t, root, 0, i);
    }
    if 0 <= i < t.n() && node_visible(t, root, i) {
        match t.nodes[i].parent {
            None => {},
            Some(pn) => {
                let q = pn.0 as int;
                assert(0 <= t.parent_of(i) < i);
                if q == root {
                    assert(t.nodes[root].children@.contains(t.nodes[i].id));
                    let ki = choose|ki: int|
                        0 <= ki < t.nodes[root].children@.len() && t.nodes[root].children@[ki]
                            == t.nodes[i].id;
                    assert(t.child(root, ki) == i);
                    lemma_visible_member_child(t, root, 0, ki);
                } else {
                    lemma_visible_iff(t, root, q);
                    lemma_visible_member_lift(t, root, 0, q, i);
                }
            },
        }
    }
}

/// Forward direction of `lemma_visible_iff`, by induction over the walk.
proof fn lemma_visible_forward(t: Tree, p: int, k: int, i: int)
    requires
        t.wf(),
        0 <= p < t.n(),
        0 <= k,
        visible_from(t, p, k).contains(i),
    ensures
        0 <= i < t.n() && node_visible(t, p, i),
    decreases t.n() - p, t.nchild(p) - k,
{
    lemma_visible_elems(t, p, k);
    assert(k < t.nchild(p));
    let c = t.child(p, k);
    let node = t.nodes[c];
    assert(p < c < t.n());
    assert(t.parent_of(c) == p);
    let rest = visible_from(t, p, k + 1);
    if node.size == 0 {
        lemma_visible_forward(t, p, k + 1, i);
    } else {
        let sub = if node.is_dir && node.children.len() > 0 {
            visible_from(t, c, 0)
        } else {
            Seq::<int>::empty()
        };
        lemma_concat_contains(seq![c] + sub, rest, i);
        lemma_concat_contains(seq![c], sub, i);
        if (seq![c]).contains(i) {
            assert(i == c);
            assert(node_visible(t, p, c));
        } else if sub.contains(i) {
            lemma_visible_forward(t, c, 0, i);
            lemma_visible_lift_root(t, p, c, i);
        } else {
            lemma_visible_forward(t, p, k + 1, i);
        }
    }
}

/// Reachability below a visible directory child extends to its parent.
proof fn lemma_visible_lift_root(t: Tree, p: int, c: int, i: int)
    requires
        t.wf(),
        0 <= p < t.n(),
        0 <= c < t.n(),
        t.parent_of(c) == p,
        t.nodes[c].parent is Some,
        t.nodes[c].size > 0,
        t.nodes[c].is_dir,
        0 <= i < t.n(),
        node_visible(t, c, i),
    ensures
        node_visible(t, p, i),
    decreases i,
{
    match t.nodes[i].parent {
        None => {},
        Some(pn) => {
            let q = pn.0 as int;
            assert(0 <= t.parent_of(i) < i);
            if q == c {
                assert(node_visible(t, p, c));
            } else {
                lemma_visible_lift_root(t, p, c, q);
            }
        },
    }
}

/// With no area threshold, the layout renders exactly one rectangle per
/// node reachable from `root` through positive sizes (the root itself
/// excluded), parent before descendants, siblings in tree order.
pub proof fn lemma_layout_exactly_visible(t: Tree, p: int, k: int, off: int, x: int, y: int, w: int, h: int, psize: int)
    requires
        t.wf(),
        0 <= p < t.n(),
        0 <= k,
        psize > 0,
        0 <= w,
        0 <= h,
    ensures
        rect_ids(rects_from(t, p, k, off, x, y, w, h, psize, 0)) == visible_from(t, p, k),
        visible_from(t, p, k).no_duplicates(),
    decreases t.n() - p, t.nchild(p) - k,
{
    lemma_visible_no_dup(t, p, k);
    if k >= t.nchild(p) {
        assert(rect_ids(Seq::<Rect>::empty()) =~= Seq::<int>::empty());
    } else {
        let c = t.child(p, k);
        let node = t.nodes[c];
        assert(p < c < t.n());
        if node.size == 0 {
            lemma_layout_exactly_visible(t, p, k + 1, off, x, y, w, h, psize);
        } else {
            let horizontal = w >= h;
            let alen: int = if horizontal {
                w
            } else {
                h
            };
            let other: int = if horizontal {
                h
            } else {
                w
            };
            let flen = node.size * alen / psize;
            let s = node.size as int;
            assert(s * alen >= 0) by (nonlinear_arith)
                requires
                    s >= 0,
                    alen >= 0,
            ;
            lemma_div_pos_is_pos(s * alen, psize);
            assert(flen >= 0);
            assert(flen * other >= 0) by (nonlinear_arith)
                requires
                    flen >= 0,
                    other >= 0,
            ;
            let area = flen * other;
            let cx = if horizontal {
                x + off
            } else {
                x
            };
            let cy = if horizontal {
                y
            } else {
                y + off
            };
            let cw = if horizontal {
                flen
            } else {
                w
            };
            let chh = if horizontal {
                h
            } else {
                flen
            };
            let rect = rects_from(t, p, k, off, x, y, w, h, psize, 0)[0];
            let subr = if node.is_dir && node.children.len() > 0 {
                rects_from(t, c, 0, 0, cx, cy, cw, chh, node.size as int, 0)
            } else {
                Seq::<Rect>::empty()
            };
            let restr = rects_from(t, p, k + 1, off + flen, x, y, w, h, psize, 0);
            let subv = if node.is_dir && node.children.len() > 0 {
                visible_from(t, c, 0)
            } else {
                Seq::<int>::empty()
            };
            if node.is_dir && node.children.len() > 0 {
                lemma_layout_exactly_visible(t, c, 0, 0, cx, cy, cw, chh, node.size as int);
            } else {
                assert(rect_ids(Seq::<Rect>::empty()) =~= Seq::<int>::empty());
            }
            lemma_layout_exactly_visible(t, p, k + 1, off + flen, x, y, w, h, psize);
            assert(rect_ids(seq![rect] + subr + restr) =~= seq![c] + rect_ids(subr) + rect_ids(
                restr,
            ));
            assert(rect_ids(subr) == subv);
            assert(rect_ids(restr) == visible_from(t, p, k + 1));
            assert(rects_from(t, p, k, off, x, y, w, h, psize, 0) == seq![rect] + subr + restr);
            assert(visible_from(t, p, k) == seq![c] + subv + visible_from(t, p, k + 1));
            assert(seq![c] + rect_ids(subr) + rect_ids(restr) =~= seq![c] + subv + visible_from(
                t,
                p,
                k + 1,
            ));
        }
    }
}

/// Extent consumed along the split axis by the walk from child `k` on.
pub open spec fn consumed_from(t: Tree, p: int, k: int, w: int, h: int, psize: int, min_area: int) -> int
    decreases t.nchild(p) - k,
        when t.wf() && 0 <= p < t.n() && 0 <= k
{
    if k >= t.nchild(p) {
        0
    } else {
        let c = t.child(p, k);
        let node = t.nodes[c];
        let rest = consumed_from(t, p, k + 1, w, h, psize, min_area);
        if node.size == 0 {
            rest
        } else {
            let horizontal = w >= h;
            let flen = if horizontal {
                node.size * w / psize
            } else {
                node.size * h / psize
            };
            let area = if horizontal {
                flen * h
            } else {
                flen * w
            };
            if area < min_area {
                rest
            } else {
                flen + rest
            }
        }
    }
}

#[verifier::rlimit(60)]
proof fn lemma_consumed_bound(t: Tree, p: int, k: int, w: int, h: int, psize: int, min_area: int)
    requires
        t.wf(),
        0 <= p < t.n(),
        0 <= k <= t.nchild(p),
        psize > 0,
        0 <= w,
        0 <= h,
    ensures
        consumed_from(t, p, k, w, h, psize, min_area) * psize <= sum_sizes(
            t,
            t.nodes[p].children@.subrange(k, t.nchild(p)),
        ) * (if w >= h {
            w
        } else {
            h
        }),
        consumed_from(t, p, k, w, h, psize, min_area) >= 0,
    decreases t.nchild(p) - k,
{
    let ch = t.nodes[p].children@;
    let alen: int = if w >= h {
        w
    } else {
        h
    };
    let con = consumed_from(t, p, k, w, h, psize, min_area);
    if k >= t.nchild(p) {
        assert(ch.subrange(k, t.nchild(p)).len() == 0);
        assert(con == 0);
    } else {
        let c = t.child(p, k);
        let node = t.nodes[c];
        assert(p < c < t.n());
        let s = node.size as int;
        lemma_consumed_bound(t, p, k + 1, w, h, psize, min_area);
        let rest = consumed_from(t, p, k + 1, w, h, psize, min_area);
        let tailsum = sum_sizes(t, ch.subrange(k + 1, t.nchild(p)));
        assert(ch.subrange(k, t.nchild(p))[0] == ch[k]);
        assert(ch.subrange(k, t.nchild(p)).drop_first() =~= ch.subrange(k + 1, t.nchild(p)));
        assert(sum_sizes(t, ch.subrange(k, t.nchild(p))) == s + tailsum);
        assert(s * alen >= 0) by (nonlinear_arith)
            requires
                s >= 0,
                alen >= 0,
        ;
        assert((s + tailsum) * alen == s * alen + tailsum * alen) by (nonlinear_arith);
        let flen = if w >= h {
            node.size * w / psize
        } else {
            node.size * h / psize
        };
        lemma_div_pos_is_pos(s * alen, psize);
        lemma_remainder_lower(s * alen, psize);
        assert(flen * psize <= s * alen);
        assert(flen >= 0);
        if node.size == 0 {
            assert(con == rest);
            assert(con * psize <= tailsum * alen);
            assert(con * psize <= (s + tailsum) * alen);
        } else {
            let horizontal = w >= h;
            let area = if horizontal {
                flen * h
            } else {
                flen * w
            };
            if area < min_area {
                assert(con == rest);
                assert(con * psize <= tailsum * alen);
                assert(con * psize <= (s + tailsum) * alen);
            } else {
                assert(con == flen + rest);
                assert((flen + rest) * psize == flen * psize + rest * psize) by (nonlinear_arith);
                assert(con * psize <= s * alen + tailsum * alen);
                assert(con * psize <= (s + tailsum) * alen);
            }
        }
    }
}

/// The extent the children consume along the split axis never exceeds the
/// parent's own extent on that axis, whatever the area threshold.
pub proof fn lemma_consumed_within_extent(t: Tree, p: int, w: int, h: int, min_area: int)
    requires
        t.wf(),
        t.completed(),
        t.files_are_leaves(),
        0 <= p < t.n(),
        t.nodes[p].size > 0,
        0 <= w,
        0 <= h,
    ensures
        0 <= consumed_from(t, p, 0, w, h, t.nodes[p].size as int, min_area) <= (if w >= h {
            w
        } else {
            h
        }),
{
    let psize = t.nodes[p].size as int;
    let alen: int = if w >= h {
        w
    } else {
        h
    };
    let ch = t.nodes[p].children@;
    lemma_consumed_bound(t, p, 0, w, h, psize, min_area);
    assert(ch.subrange(0, t.nchild(p)) =~= ch);
    if t.nodes[p].is_dir {
        assert(sum_sizes(t, ch) == psize);
    } else {
        assert(ch.len() == 0);
        assert(sum_sizes(t, ch) == 0);
    }
    assert(sum_sizes(t, ch) <= psize);
    lemma_sum_sizes_bounds(t, ch);
    let con = consumed_from(t, p, 0, w, h, psize, min_area);
    lemma_mul_inequality(sum_sizes(t, ch), psize, alen);
    assert(con * psize <= psize * alen);
    assert(con <= alen) by (nonlinear_arith)
        requires
            con * psize <= psize * alen,
            psize > 0,
    ;
}

/// Compute the treemap layout for the subtree rooted at `root` inside the
/// box `(x, y, w, h)`. A root of size 0 yields no rectangles at all;
/// otherwise the result is exactly the depth-first walk `rects_from`,
/// starting at the root's children.
pub fn layout_treemap(
    tree: &Tree,
    root: NodeId,
    x: u64,
    y: u64,
    w: u64,
    h: u64,
    min_area: u64,
) -> (out: Vec<Rect>)
    requires
        tree.wf(),
        tree.completed(),
        tree.files_are_leaves(),
        (root.0 as int) < tree.nodes.len(),
        x + w <= COORD_SCALE,
        y + h <= COORD_SCALE,
    ensures
        tree.nodes[root.0 as int].size == 0 ==> out@ == Seq::<Rect>::empty(),
        tree.nodes[root.0 as int].size > 0 ==> out@ == rects_from(
            *tree,
            root.0 as int,
            0,
            0,
            x as int,
            y as int,
            w as int,
            h as int,
            tree.nodes[root.0 as int].size as int,
            min_area as int,
        ),
{
    let root_node = tree.node(root);
    let total = root_node.size;
    if total == 0 {
        let out: Vec<Rect> = Vec::new();
        return out;
    }
    let mut rects: Vec<Rect> = Vec::new();
    layout_children(tree, root, x, y, w, h, total, &mut rects, min_area);
    proof {
        assert(Seq::<Rect>::empty() + rects_from(
            *tree,
            root.0 as int,
            0,
            0,
            x as int,
            y as int,
            w as int,
            h as int,
            total as int,
            min_area as int,
        ) =~= rects_from(
            *tree,
            root.0 as int,
            0,
            0,
            x as int,
            y as int,
            w as int,
            h as int,
            total as int,
            min_area as int,
        ));
    }
    rects
}

/// Walk the children of `parent` inside `(x, y, w, h)` and append their
/// rectangles to `out`, exactly as `rects_from` describes.
#[verifier::rlimit(100)]
fn layout_children(
    tree: &Tree,
    parent: NodeId,
    x: u64,
    y: u64,
    w: u64,
    h: u64,
    parent_size: u64,
    out: &mut Vec<Rect>,
    min_area: u64,
)
    requires
        tree.wf(),
        tree.completed(),
        tree.files_are_leaves(),
        (parent.0 as int) < tree.nodes.len(),
        parent_size == tree.nodes[parent.0 as int].size,
        parent_size > 0,
        x + w <= COORD_SCALE,
        y + h <= COORD_SCALE,
    ensures
        final(out)@ == old(out)@ + rects_from(
            *tree,
            parent.0 as int,
            0,
            0,
            x as int,
            y as int,
            w as int,
            h as int,
            parent_size as int,
            min_area as int,
        ),
    decreases tree.nodes.len() - parent.0,
{
    let ghost t = *tree;
    let ghost p = parent.0 as int;
    let ghost ch = tree.nodes@[p].children@;
    let ghost ps = parent_size as int;
    let ghost ma = min_area as int;
    let children = tree.children_of(parent);
    let horizontal = w >= h;
    let ghost alen: int = if horizontal {
        w as int
    } else {
        h as int
    };
    let mut offset: u64 = 0;
    let mut k: usize = 0;
    proof {
        assert(ch.subrange(0, 0) =~= Seq::<NodeId>::empty());
        if t.nodes[p].is_dir {
            assert(sum_sizes(t, ch) == ps);
        } else {
            assert(t.nodes[p].children.len() == 0);
        }
    }
    while k < children.len()
        invariant
            t == *tree,
            p == parent.0 as int,
            ch == tree.nodes@[p].children@,
            ps == parent_size as int,
            ma == min_area as int,
            tree.wf(),
            tree.completed(),
            tree.files_are_leaves(),
            0 <= p < tree.nodes.len(),
            parent_size == tree.nodes[p].size,
            parent_size > 0,
            x + w <= COORD_SCALE,
            y + h <= COORD_SCALE,
            horizontal == (w >= h),
            alen == (if horizontal {
                w as int
            } else {
                h as int
            }),
            children@ == ch,
            k <= children.len(),
            sum_sizes(t, ch.subrange(0, k as int)) <= ps,
            (offset as int) * ps <= sum_sizes(t, ch.subrange(0, k as int)) * alen,
            offset as int <= alen,
            old(out)@ + rects_from(t, p, 0, 0, x as int, y as int, w as int, h as int, ps, ma)
                == out@ + rects_from(
                t,
                p,
                k as int,
                offset as int,
                x as int,
                y as int,
                w as int,
                h as int,
                ps,
                ma,
            ),
        decreases children.len() - k,
    {
        let cid = children[k];
        let ghost c = cid.0 as int;
        let ghost off0 = offset as int;
        proof {
            assert(c == t.child(p, k as int));
            assert(p < c < t.n());
            assert(ch.subrange(0, k as int + 1) =~= ch.subrange(0, k as int).push(ch[k as int]));
            lemma_sum_sizes_push(t, ch.subrange(0, k as int), ch[k as int]);
            if t.nodes[p].is_dir {
                lemma_sum_sizes_split(t, ch, k as int + 1);
                lemma_sum_sizes_bounds(t, ch.subrange(k as int + 1, ch.len() as int));
            }
            lemma_sum_sizes_bounds(t, ch.subrange(0, k as int));
            lemma_mul_inequality(
                sum_sizes(t, ch.subrange(0, k as int)),
                sum_sizes(t, ch.subrange(0, k as int + 1)),
                alen,
            );
        }
        let cnode = tree.node(cid);
        let ghost s = cnode.size as int;
        if cnode.size > 0 {
            proof {
                assert(s <= ps);
                lemma_frac_bounds(s, alen, ps);
                lemma_mul_upper_bound(s, u64::MAX as int, w as int, COORD_SCALE as int);
                lemma_mul_upper_bound(s, u64::MAX as int, h as int, COORD_SCALE as int);
            }
            let flen128: u128 = if horizontal {
                (cnode.size as u128) * (w as u128) / (parent_size as u128)
            } else {
                (cnode.size as u128) * (h as u128) / (parent_size as u128)
            };
            proof {
                assert(flen128 as int == s * alen / ps);
            }
            let flen = flen128 as u64;
            proof {
                assert(flen as int * (if horizontal {
                    h as int
                } else {
                    w as int
                }) <= 1_000_000_000_000) by (nonlinear_arith)
                    requires
                        0 <= flen as int <= 1_000_000,
                        (if horizontal {
                            h as int
                        } else {
                            w as int
                        }) <= 1_000_000,
                        0 <= (if horizontal {
                            h as int
                        } else {
                            w as int
                        }),
                ;
            }
            let area = if horizontal {
                flen * h
            } else {
                flen * w
            };
            if area >= min_area {
                let cx: u64;
                let cy: u64;
                let cw: u64;
                let chh: u64;
                if horizontal {
                    cx = x + offset;
                    cy = y;
                    cw = flen;
                    chh = h;
                } else {
                    cx = x;
                    cy = y + offset;
                    cw = w;
                    chh = flen;
                }
                let rect = Rect {
                    id: cid,
                    x: cx,
                    y: cy,
                    w: cw,
                    h: chh,
                    name: cnode.name.clone(),
                    size: cnode.size,
                    is_dir: cnode.is_dir,
                };
                proof {
                    assert(t.nodes[c].id == cid);
                }
                let ghost out_before = out@;
                out.push(rect);
                proof {
                    lemma_offset_step(
                        off0,
                        flen as int,
                        s,
                        sum_sizes(t, ch.subrange(0, k as int)),
                        alen,
                        ps,
                    );
                }
                offset = offset + flen;
                if cnode.is_dir && cnode.children.len() > 0 {
                    layout_children(tree, cid, cx, cy, cw, chh, cnode.size, out, min_area);
                }
                proof {
                    let subspec = if t.nodes[c].is_dir && t.nodes[c].children.len() > 0 {
                        rects_from(
                            t,
                            c,
                            0,
                            0,
                            cx as int,
                            cy as int,
                            cw as int,
                            chh as int,
                            t.nodes[c].size as int,
                            ma,
                        )
                    } else {
                        Seq::<Rect>::empty()
                    };
                    assert(out@ =~= out_before.push(rect) + subspec);
                    assert(out_before.push(rect) =~= out_before + seq![rect]);
                    assert(rects_from(
                        t,
                        p,
                        k as int,
                        off0,
                        x as int,
                        y as int,
                        w as int,
                        h as int,
                        ps,
                        ma,
                    ) == seq![rect] + subspec + rects_from(
                        t,
                        p,
                        k as int + 1,
                        off0 + flen as int,
                        x as int,
                        y as int,
                        w as int,
                        h as int,
                        ps,
                        ma,
                    ));
                    assert(out_before + seq![rect] + subspec + rects_from(
                        t,
                        p,
                        k as int + 1,
                        off0 + flen as int,
                        x as int,
                        y as int,
                        w as int,
                        h as int,
                        ps,
                        ma,
                    ) =~= out_before + (seq![rect] + subspec + rects_from(
                        t,
                        p,
                        k as int + 1,
                        off0 + flen as int,
                        x as int,
                        y as int,
                        w as int,
                        h as int,
                        ps,
                        ma,
                    )));
                }
            } else {
                proof {
                    assert(rects_from(
                        t,
                        p,
                        k as int,
                        off0,
                        x as int,
                        y as int,
                        w as int,
                        h as int,
                        ps,
                        ma,
                    ) == rects_from(
                        t,
                        p,
                        k as int + 1,
                        off0,
                        x as int,
                        y as int,
                        w as int,
                        h as int,
                        ps,
                        ma,
                    ));
                }
            }
        } else {
            proof {
                assert(rects_from(
                    t,
                    p,
                    k as int,
                    off0,
                    x as int,
                    y as int,
                    w as int,
                    h as int,
                    ps,
                    ma,
                ) == rects_from(
                    t,
                    p,
                    k as int + 1,
                    off0,
                    x as int,
                    y as int,
                    w as int,
                    h as int,
                    ps,
                    ma,
                ));
            }
        }
        k = k + 1;
    }
    proof {
        assert(rects_from(
            t,
            p,
            k as int,
            offset as int,
            x as int,
            y as int,
            w as int,
            h as int,
            ps,
            ma,
        ) == Seq::<Rect>::empty());
        assert(out@ + Seq::<Rect>::empty() =~= out@);
    }
}

} // verus!
