//! Scanner: builds a `Tree` from a recorded directory enumeration.
//!
//! Walking the filesystem is blocking I/O and lives outside this crate; what
//! reaches the scanner is a `DirListing`, the faithful record of what the
//! enumeration yielded, failures included. The scanner replays it depth
//! first — nodes are created in pre-order, directory sizes are aggregated in
//! post-order — while every failure mode degrades to an error count and a
//! locally reduced (possibly zero) size contribution.

use vstd::prelude::*;

use crate::tree::{NodeId, Tree, base_name_spec, lemma_sum_sizes_frame, lemma_sum_sizes_push,
    sum_sizes};

verus! {

/// Scan configuration. Files strictly below `min_file_size_bytes` are left
/// out of the tree entirely; `follow_symlinks` is reserved and currently
/// inert.
#[derive(Debug, Clone)]
pub struct ScanConfig {
    pub min_file_size_bytes: u64,
    pub follow_symlinks: bool,
}

impl Default for ScanConfig {
    /// No size threshold, symlinks not followed.
    fn default() -> (c: Self)
        ensures
            c.min_file_size_bytes == 0,
            !c.follow_symlinks,
    {
        ScanConfig { min_file_size_bytes: 0, follow_symlinks: false }
    }
}

/// Counters accumulated over one scan; immutable once the scan returns.
#[derive(Debug, Clone)]
pub struct ScanStats {
    pub files: u64,
    pub dirs: u64,
    pub errors: u64,
}

/// What enumerating one directory yielded: nothing, because opening or
/// reading it failed, or the recorded sequence of its entries.
#[derive(Debug)]
pub enum DirListing {
    Failed,
    Entries(Vec<FsEntry>),
}

/// One enumerated directory entry, as the filesystem reported it.
#[derive(Debug)]
pub enum FsEntry {
    /// A subdirectory, with the record of its own enumeration.
    Dir { name: String, path: String, listing: DirListing },
    /// A regular file with readable metadata.
    File { name: String, path: String, size: u64 },
    /// A regular file whose metadata could not be read.
    FileNoMeta,
    /// An entry whose type could not be determined.
    Unknown,
    /// A symlink, device, socket or other special entry: always skipped.
    Special,
}

/// What one (sub)listing contributes to a scan: total bytes, error, file and
/// directory counts, and the number of tree nodes it creates.
pub struct Tally {
    pub total: nat,
    pub errors: nat,
    pub files: nat,
    pub dirs: nat,
    pub nodes: nat,
}

pub open spec fn tally_zero() -> Tally {
    Tally { total: 0, errors: 0, files: 0, dirs: 0, nodes: 0 }
}

pub open spec fn tally_add(a: Tally, b: Tally) -> Tally {
    Tally {
        total: a.total + b.total,
        errors: a.errors + b.errors,
        files: a.files + b.files,
        dirs: a.dirs + b.dirs,
        nodes: a.nodes + b.nodes,
    }
}

/// Contribution of a whole directory listing: a failed enumeration is one
/// error and nothing else; otherwise the entries contribute in order.
pub open spec fn listing_tally(l: DirListing, min: u64) -> Tally
    decreases l,
{
    match l {
        DirListing::Failed => Tally { total: 0, errors: 1, files: 0, dirs: 0, nodes: 0 },
        DirListing::Entries(es) => entries_tally(es@, min),
    }
}

pub open spec fn entries_tally(es: Seq<FsEntry>, min: u64) -> Tally
    decreases es,
{
    if es.len() == 0 {
        tally_zero()
    } else {
        tally_add(entry_tally(es[0], min), entries_tally(es.subrange(1, es.len() as int), min))
    }
}

/// Contribution of a single entry. A subdirectory is one directory and one
/// node plus whatever its own listing contributes; a readable file at or
/// above the threshold is one file, one node and its size; a file below the
/// threshold contributes nothing at all; an unreadable entry or unreadable
/// metadata is one error; special entries contribute nothing.
pub open spec fn entry_tally(e: FsEntry, min: u64) -> Tally
    decreases e,
{
    match e {
        FsEntry::Dir { listing, .. } => {
            let sub = listing_tally(listing, min);
            Tally {
                total: sub.total,
                errors: sub.errors,
                files: sub.files,
                dirs: sub.dirs + 1,
                nodes: sub.nodes + 1,
            }
        },
        FsEntry::File { size, .. } => {
            if size >= min {
                Tally { total: size as nat, errors: 0, files: 1, dirs: 0, nodes: 1 }
            } else {
                tally_zero()
            }
        },
        FsEntry::FileNoMeta => Tally { total: 0, errors: 1, files: 0, dirs: 0, nodes: 0 },
        FsEntry::Unknown => Tally { total: 0, errors: 1, files: 0, dirs: 0, nodes: 0 },
        FsEntry::Special => tally_zero(),
    }
}

/// The listing can be scanned on this machine: every counter fits its
/// integer type, with room for the root's own directory count and node.
pub open spec fn scan_ok(l: DirListing, config: ScanConfig) -> bool {
    let t = listing_tally(l, config.min_file_size_bytes);
    &&& t.total <= u64::MAX
    &&& t.errors <= u64::MAX
    &&& t.files <= u64::MAX
    &&& t.dirs < u64::MAX
    &&& t.nodes < u32::MAX
}

/// The children of node `i` are exactly what scanning listing `l` below it
/// creates: one node per kept entry, in enumeration order, with that
/// entry's name, path, kind and size. A failed enumeration leaves `i`
/// childless.
pub open spec fn listing_matches(t: Tree, i: int, l: DirListing, min: u64) -> bool
    decreases l, 0int,
{
    match l {
        DirListing::Failed => t.nchild(i) == 0,
        DirListing::Entries(es) => matches_from(t, i, es@, 0, 0, min),
    }
}

/// Whether entry `e` creates a node at all: a subdirectory always does, a
/// readable file only at or above the threshold, nothing else ever.
pub open spec fn entry_kept(e: FsEntry, min: u64) -> bool {
    match e {
        FsEntry::Dir { .. } => true,
        FsEntry::File { size, .. } => size >= min,
        FsEntry::FileNoMeta => false,
        FsEntry::Unknown => false,
        FsEntry::Special => false,
    }
}

/// Node `c` is the node that scanning kept entry `e` creates: the entry's
/// name, path and kind, a file's own size or a directory's aggregated
/// total, and below a directory again exactly its own listing.
pub open spec fn kept_entry_matches(t: Tree, c: int, e: FsEntry, min: u64) -> bool
    decreases e, 1int,
{
    match e {
        FsEntry::Dir { name, path, listing } => {
            &&& t.nodes[c].name == name
            &&& t.nodes[c].path == path
            &&& t.nodes[c].is_dir
            &&& t.nodes[c].size as int == listing_tally(listing, min).total
            &&& listing_matches(t, c, listing, min)
        },
        FsEntry::File { name, path, size } => {
            &&& t.nodes[c].name == name
            &&& t.nodes[c].path == path
            &&& !t.nodes[c].is_dir
            &&& t.nodes[c].size == size
        },
        _ => false,
    }
}

/// The entries of `es` from `ei` on are matched, one kept entry each, by
/// the children of `i` from child index `ki` on.
pub open spec fn matches_from(t: Tree, i: int, es: Seq<FsEntry>, ei: int, ki: int, min: u64) -> bool
    decreases es, es.len() - ei,
{
    if ei < 0 || ei >= es.len() {
        ki == t.nchild(i)
    } else {
        if entry_kept(es[ei], min) {
            &&& ki < t.nchild(i)
            &&& kept_entry_matches(t, t.child(i, ki), es[ei], min)
            &&& matches_from(t, i, es, ei + 1, ki + 1, min)
        } else {
            matches_from(t, i, es, ei + 1, ki, min)
        }
    }
}

/// The entries of `es` before `ei` are matched, one kept entry each, by the
/// children of `i` before child index `ki`.
pub open spec fn matches_upto(t: Tree, i: int, es: Seq<FsEntry>, ei: int, ki: int, min: u64) -> bool
    decreases ei,
{
    if ei <= 0 {
        ki == 0
    } else if ei > es.len() {
        false
    } else {
        if entry_kept(es[ei - 1], min) {
            &&& ki > 0
            &&& kept_entry_matches(t, t.child(i, ki - 1), es[ei - 1], min)
            &&& matches_upto(t, i, es, ei - 1, ki - 1, min)
        } else {
            matches_upto(t, i, es, ei - 1, ki, min)
        }
    }
}

/// The correspondence only reads node `i`'s child list and the nodes
/// strictly between `i` and `bound`, so it survives any change outside.
proof fn lemma_listing_matches_frame(t1: Tree, t2: Tree, i: int, l: DirListing, min: u64)
    requires
        t1.wf(),
        0 <= i < t1.nodes.len(),
        listing_matches(t1, i, l, min),
        t2.nodes.len() >= t1.nodes.len(),
        forall|j: int| i < j < t1.nodes.len() ==> t2.nodes[j] == t1.nodes[j],
        t2.nodes[i].children@ == t1.nodes[i].children@,
    ensures
        listing_matches(t2, i, l, min),
    decreases l, 0int,
{
    match l {
        DirListing::Failed => {},
        DirListing::Entries(es) => {
            lemma_matches_from_frame(t1, t2, i, es@, 0, 0, min);
        },
    }
}

proof fn lemma_matches_from_frame(
    t1: Tree,
    t2: Tree,
    i: int,
    es: Seq<FsEntry>,
    ei: int,
    ki: int,
    min: u64,
)
    requires
        t1.wf(),
        0 <= i < t1.nodes.len(),
        0 <= ki,
        matches_from(t1, i, es, ei, ki, min),
        t2.nodes.len() >= t1.nodes.len(),
        forall|j: int| i < j < t1.nodes.len() ==> t2.nodes[j] == t1.nodes[j],
        t2.nodes[i].children@ == t1.nodes[i].children@,
    ensures
        matches_from(t2, i, es, ei, ki, min),
    decreases es, es.len() - ei,
{
    if 0 <= ei < es.len() {
        if entry_kept(es[ei], min) {
            let c = t1.child(i, ki);
            assert(0 <= ki < t1.nchild(i));
            assert(i < c < t1.n());
            assert(t2.nodes[c] == t1.nodes[c]);
            assert(t2.child(i, ki) == c);
            lemma_kept_entry_frame(t1, t2, c, es[ei], min);
            lemma_matches_from_frame(t1, t2, i, es, ei + 1, ki + 1, min);
        } else {
            lemma_matches_from_frame(t1, t2, i, es, ei + 1, ki, min);
        }
    }
}

/// As `lemma_listing_matches_frame`, for a single kept entry's node.
proof fn lemma_kept_entry_frame(t1: Tree, t2: Tree, c: int, e: FsEntry, min: u64)
    requires
        t1.wf(),
        0 <= c < t1.nodes.len(),
        kept_entry_matches(t1, c, e, min),
        t2.nodes.len() >= t1.nodes.len(),
        forall|j: int| c <= j < t1.nodes.len() ==> t2.nodes[j] == t1.nodes[j],
    ensures
        kept_entry_matches(t2, c, e, min),
    decreases e,
{
    match e {
        FsEntry::Dir { name, path, listing } => {
            assert(t2.nodes[c] == t1.nodes[c]);
            lemma_listing_matches_frame(t1, t2, c, listing, min);
        },
        FsEntry::File { .. } => {
            assert(t2.nodes[c] == t1.nodes[c]);
        },
        _ => {},
    }
}

/// The prefix correspondence survives any change that keeps the already
/// matched children (and everything below the parent) intact; the child
/// list may grow at the end.
proof fn lemma_matches_upto_frame(
    t1: Tree,
    t2: Tree,
    i: int,
    es: Seq<FsEntry>,
    ei: int,
    ki: int,
    min: u64,
)
    requires
        t1.wf(),
        0 <= i < t1.nodes.len(),
        0 <= ki <= t1.nchild(i),
        matches_upto(t1, i, es, ei, ki, min),
        t2.nodes.len() >= t1.nodes.len(),
        forall|j: int| i < j < t1.nodes.len() ==> t2.nodes[j] == t1.nodes[j],
        ki <= t2.nchild(i),
        forall|j: int|
            0 <= j < ki ==> t2.nodes[i].children@[j] == t1.nodes[i].children@[j],
    ensures
        matches_upto(t2, i, es, ei, ki, min),
    decreases ei,
{
    if 0 < ei <= es.len() {
        if entry_kept(es[ei - 1], min) {
            let c = t1.child(i, ki - 1);
            assert(0 <= ki - 1 < t1.nchild(i));
            assert(i < c < t1.n());
            assert(t2.child(i, ki - 1) == c);
            lemma_kept_entry_frame(t1, t2, c, es[ei - 1], min);
            lemma_matches_upto_frame(t1, t2, i, es, ei - 1, ki - 1, min);
        } else {
            lemma_matches_upto_frame(t1, t2, i, es, ei - 1, ki, min);
        }
    }
}

proof fn lemma_matches_from_ki_bound(t: Tree, i: int, es: Seq<FsEntry>, ei: int, ki: int, min: u64)
    requires
        matches_from(t, i, es, ei, ki, min),
    ensures
        ki <= t.nchild(i),
    decreases es.len() - ei,
{
    if 0 <= ei < es.len() {
        if entry_kept(es[ei], min) {
            lemma_matches_from_ki_bound(t, i, es, ei + 1, ki + 1, min);
        } else {
            lemma_matches_from_ki_bound(t, i, es, ei + 1, ki, min);
        }
    }
}

/// Once the walk has consumed every entry against every child, the prefix
/// correspondence is the whole correspondence.
proof fn lemma_upto_bridge(t: Tree, i: int, es: Seq<FsEntry>, ei: int, ki: int, min: u64)
    requires
        0 <= ei <= es.len(),
        0 <= ki,
        matches_upto(t, i, es, ei, ki, min),
        matches_from(t, i, es, ei, ki, min),
    ensures
        matches_from(t, i, es, 0, 0, min),
    decreases ei,
{
    if ei > 0 {
        if entry_kept(es[ei - 1], min) {
            lemma_matches_from_ki_bound(t, i, es, ei, ki, min);
            assert(matches_from(t, i, es, ei - 1, ki - 1, min));
            lemma_upto_bridge(t, i, es, ei - 1, ki - 1, min);
        } else {
            assert(matches_from(t, i, es, ei - 1, ki, min));
            lemma_upto_bridge(t, i, es, ei - 1, ki, min);
        }
    }
}

/// A node the scan has finished with: a directory holds the sum of its
/// children's sizes, a file holds its own size (at or above the threshold)
/// and has no children.
pub open spec fn node_done(t: Tree, i: int, min: u64) -> bool {
    &&& t.nodes[i].is_dir ==> t.nodes[i].size as int == sum_sizes(t, t.nodes[i].children@)
    &&& !t.nodes[i].is_dir ==> t.nodes[i].size >= min && t.nodes[i].children.len() == 0
}

proof fn lemma_entries_tally_step(es: Seq<FsEntry>, k: int, min: u64)
    requires
        0 <= k < es.len(),
    ensures
        entries_tally(es.subrange(k, es.len() as int), min) == tally_add(
            entry_tally(es[k], min),
            entries_tally(es.subrange(k + 1, es.len() as int), min),
        ),
{
    let suf = es.subrange(k, es.len() as int);
    assert(suf.len() == es.len() - k);
    assert(suf[0] == es[k]);
    assert(suf.subrange(1, suf.len() as int) =~= es.subrange(k + 1, es.len() as int));
}

/// Well-formedness is untouched by rewriting one node's size (or any change
/// that keeps id, parent and children of every node).
proof fn lemma_wf_set_size(t1: Tree, t2: Tree, c: int)
    requires
        t1.wf(),
        0 <= c < t1.nodes.len(),
        t2.root == t1.root,
        t2.nodes.len() == t1.nodes.len(),
        forall|i: int| 0 <= i < t1.nodes.len() && i != c ==> t2.nodes[i] == t1.nodes[i],
        t2.nodes[c].id == t1.nodes[c].id,
        t2.nodes[c].parent == t1.nodes[c].parent,
        t2.nodes[c].children@ == t1.nodes[c].children@,
    ensures
        t2.wf(),
{
    assert forall|i: int| 0 <= i < t2.n() implies (#[trigger] t2.nodes[i].id).0 == i by {
        assert(t1.nodes[i].id.0 == i);
        assert(t2.nodes[i].id == t1.nodes[i].id);
    }
    assert forall|i: int| 1 <= i < t2.n() implies (#[trigger] t2.nodes[i].parent) is Some && 0
        <= t2.parent_of(i) < i by {
        assert(t2.nodes[i].parent == t1.nodes[i].parent);
        assert(t1.nodes[i].parent is Some && 0 <= t1.parent_of(i) < i);
    }
    assert forall|i: int, k: int|
        0 <= i < t2.n() && 0 <= k < t2.nchild(i) implies i < #[trigger] t2.child(i, k)
        < t2.n() by {
        assert(t2.nodes[i].children@ == t1.nodes[i].children@);
        assert(i < t1.child(i, k) < t1.n());
        assert(t2.child(i, k) == t1.child(i, k));
    }
    assert forall|i: int, k: int|
        0 <= i < t2.n() && 0 <= k < t2.nchild(i) implies t2.parent_of(#[trigger] t2.child(i, k))
        == i by {
        assert(t2.nodes[i].children@ == t1.nodes[i].children@);
        assert(t2.child(i, k) == t1.child(i, k));
        assert(t1.parent_of(t1.child(i, k)) == i);
        assert(t2.nodes[t1.child(i, k)].parent == t1.nodes[t1.child(i, k)].parent);
    }
    assert forall|i: int, k1: int, k2: int|
        #![trigger t2.child(i, k1), t2.child(i, k2)]
        0 <= i < t2.n() && 0 <= k1 < k2 < t2.nchild(i) implies t2.child(i, k1) < t2.child(
        i,
        k2,
    ) by {
        assert(t2.nodes[i].children@ == t1.nodes[i].children@);
        assert(t1.child(i, k1) < t1.child(i, k2));
    }
    assert forall|i: int| 1 <= i < t2.n() implies t2.nodes[t2.parent_of(i)].children@.contains(
        (#[trigger] t2.nodes[i]).id,
    ) by {
        assert(t2.nodes[i].parent == t1.nodes[i].parent);
        assert(t2.nodes[i].id == t1.nodes[i].id);
        assert(t1.nodes[t1.parent_of(i)].children@.contains(t1.nodes[i].id));
        assert(t2.nodes[t1.parent_of(i)].children@ == t1.nodes[t1.parent_of(i)].children@);
    }
}

/// A finished node stays finished while its own fields and its children's
/// sizes are untouched.
proof fn lemma_node_done_frame(t1: Tree, t2: Tree, i: int, min: u64)
    requires
        node_done(t1, i, min),
        t2.nodes[i].size == t1.nodes[i].size,
        t2.nodes[i].is_dir == t1.nodes[i].is_dir,
        t2.nodes[i].children@ == t1.nodes[i].children@,
        forall|j: int|
            0 <= j < t1.nodes[i].children@.len()
                ==> t2.nodes[(#[trigger] t1.nodes[i].children@[j]).0 as int].size
                == t1.nodes[t1.nodes[i].children@[j].0 as int].size,
    ensures
        node_done(t2, i, min),
{
    lemma_sum_sizes_frame(t2, t1, t1.nodes[i].children@);
}

/// Replay one directory's listing below `parent` (a freshly created, still
/// childless directory node): create child nodes in pre-order, aggregate
/// directory sizes in post-order, and accumulate the statistics. Returns the
/// total size of everything kept below `parent`.
fn scan_dir_recursive(
    listing: &DirListing,
    parent: NodeId,
    tree: &mut Tree,
    stats: &mut ScanStats,
    config: &ScanConfig,
) -> (total: u64)
    requires
        old(tree).wf(),
        (parent.0 as int) < old(tree).nodes.len(),
        old(tree).nodes[parent.0 as int].is_dir,
        old(tree).nodes[parent.0 as int].children.len() == 0,
        old(tree).nodes.len() + listing_tally(*listing, config.min_file_size_bytes).nodes
            <= u32::MAX,
        old(stats).errors + listing_tally(*listing, config.min_file_size_bytes).errors
            <= u64::MAX,
        old(stats).files + listing_tally(*listing, config.min_file_size_bytes).files <= u64::MAX,
        old(stats).dirs + listing_tally(*listing, config.min_file_size_bytes).dirs <= u64::MAX,
        listing_tally(*listing, config.min_file_size_bytes).total <= u64::MAX,
    ensures
        final(tree).wf(),
        final(tree).root == old(tree).root,
        final(tree).nodes.len() == old(tree).nodes.len() + listing_tally(
            *listing,
            config.min_file_size_bytes,
        ).nodes,
        final(stats).errors == old(stats).errors + listing_tally(
            *listing,
            config.min_file_size_bytes,
        ).errors,
        final(stats).files == old(stats).files + listing_tally(
            *listing,
            config.min_file_size_bytes,
        ).files,
        final(stats).dirs == old(stats).dirs + listing_tally(
            *listing,
            config.min_file_size_bytes,
        ).dirs,
        total as int == listing_tally(*listing, config.min_file_size_bytes).total,
        forall|i: int|
            0 <= i < old(tree).nodes.len() && i != parent.0 as int ==> final(tree).nodes[i] == old(
                tree,
            ).nodes[i],
        final(tree).nodes[parent.0 as int].id == old(tree).nodes[parent.0 as int].id,
        final(tree).nodes[parent.0 as int].name == old(tree).nodes[parent.0 as int].name,
        final(tree).nodes[parent.0 as int].path == old(tree).nodes[parent.0 as int].path,
        final(tree).nodes[parent.0 as int].size == old(tree).nodes[parent.0 as int].size,
        final(tree).nodes[parent.0 as int].is_dir == old(tree).nodes[parent.0 as int].is_dir,
        final(tree).nodes[parent.0 as int].parent == old(tree).nodes[parent.0 as int].parent,
        sum_sizes(*final(tree), final(tree).nodes[parent.0 as int].children@) == total as int,
        listing_matches(*final(tree), parent.0 as int, *listing, config.min_file_size_bytes),
        forall|i: int|
            old(tree).nodes.len() <= i < final(tree).nodes.len() ==> node_done(
                *final(tree),
                i,
                config.min_file_size_bytes,
            ),
    decreases *listing,
{
    let ghost min = config.min_file_size_bytes;
    let ghost pre = *tree;
    let ghost stats0 = *stats;
    let ghost whole = listing_tally(*listing, min);
    let ghost p = parent.0 as int;
    match listing {
        DirListing::Failed => {
            stats.errors = stats.errors + 1;
            proof {
                assert(tree.nodes[p].children@.len() == 0);
                assert(sum_sizes(*tree, tree.nodes[p].children@) == 0);
                assert(listing_matches(*tree, p, *listing, min));
            }
            0
        },
        DirListing::Entries(es) => {
            let mut total: u64 = 0;
            let mut idx: usize = 0;
            let n_entries = es.len();
            proof {
                assert(whole == entries_tally(es@, min));
                assert(es@.subrange(0, es@.len() as int) =~= es@);
                assert(sum_sizes(*tree, tree.nodes[p].children@) == 0);
            }
            while idx < n_entries
                invariant
                    idx <= n_entries,
                    n_entries == es@.len(),
                    *listing == DirListing::Entries(*es),
                    whole == entries_tally(es@, min),
                    min == config.min_file_size_bytes,
                    p == parent.0 as int,
                    pre.wf(),
                    0 <= p < pre.nodes.len(),
                    pre.nodes[p].is_dir,
                    pre.nodes[p].children.len() == 0,
                    pre.nodes.len() + whole.nodes <= u32::MAX,
                    stats0.errors + whole.errors <= u64::MAX,
                    stats0.files + whole.files <= u64::MAX,
                    stats0.dirs + whole.dirs <= u64::MAX,
                    whole.total <= u64::MAX,
                    tree.wf(),
                    tree.root == pre.root,
                    pre.nodes.len() <= tree.nodes.len(),
                    tree.nodes.len() + entries_tally(
                        es@.subrange(idx as int, es@.len() as int),
                        min,
                    ).nodes == pre.nodes.len() + whole.nodes,
                    stats.errors + entries_tally(
                        es@.subrange(idx as int, es@.len() as int),
                        min,
                    ).errors == stats0.errors + whole.errors,
                    stats.files + entries_tally(
                        es@.subrange(idx as int, es@.len() as int),
                        min,
                    ).files == stats0.files + whole.files,
                    stats.dirs + entries_tally(
                        es@.subrange(idx as int, es@.len() as int),
                        min,
                    ).dirs == stats0.dirs + whole.dirs,
                    total + entries_tally(es@.subrange(idx as int, es@.len() as int), min).total
                        == whole.total,
                    forall|i: int|
                        0 <= i < pre.nodes.len() && i != p ==> tree.nodes[i] == pre.nodes[i],
                    tree.nodes[p].id == pre.nodes[p].id,
                    tree.nodes[p].name == pre.nodes[p].name,
                    tree.nodes[p].path == pre.nodes[p].path,
                    tree.nodes[p].size == pre.nodes[p].size,
                    tree.nodes[p].is_dir == pre.nodes[p].is_dir,
                    tree.nodes[p].parent == pre.nodes[p].parent,
                    forall|k: int|
                        0 <= k < tree.nodes[p].children@.len() ==> pre.nodes.len() <= (
                        #[trigger] tree.nodes[p].children@[k]).0 as int,
                    sum_sizes(*tree, tree.nodes[p].children@) == total as int,
                    matches_upto(*tree, p, es@, idx as int, tree.nchild(p), min),
                    forall|i: int|
                        pre.nodes.len() <= i < tree.nodes.len() ==> node_done(*tree, i, min),
                decreases n_entries - idx,
            {
                proof {
                    lemma_entries_tally_step(es@, idx as int, min);
                }
                let ghost suffix_rest = entries_tally(
                    es@.subrange(idx as int + 1, es@.len() as int),
                    min,
                );
                let ghost etally = entry_tally(es@[idx as int], min);
                let entry = &es[idx];
                match entry {
                    FsEntry::Dir { name, path, listing: sub } => {
                        let ghost sub_t = listing_tally(*sub, min);
                        let ghost t0 = *tree;
                        let child_id = tree.add_child(parent, name.clone(), path.clone(), true, 0);
                        let ghost t1 = *tree;
                        let ghost c = child_id.0 as int;
                        stats.dirs = stats.dirs + 1;
                        proof {
                            assert(*listing == DirListing::Entries(*es));
                            assert(es@[idx as int] == FsEntry::Dir {
                                name: *name,
                                path: *path,
                                listing: *sub,
                            });
                            assert((*listing)->Entries_0 == *es);
                            assert(decreases_to!(*listing => (*listing)->Entries_0));
                            assert(decreases_to!(*es => es@));
                            assert(decreases_to!(es@ => es@[idx as int]));
                            assert(decreases_to!(es@[idx as int] => *sub));
                        }
                        let dir_size = scan_dir_recursive(sub, child_id, tree, stats, config);
                        let ghost t2 = *tree;
                        let cnode = tree.node_mut(child_id);
                        cnode.size = dir_size;
                        total = total + dir_size;
                        proof {
                            let t3 = *tree;
                            lemma_wf_set_size(t2, t3, c);
                            // the parent's child list gained exactly `child_id`
                            assert(t3.nodes[p].children@ == t0.nodes[p].children@.push(child_id));
                            // earlier children kept their sizes throughout
                            assert forall|j: int|
                                0 <= j < t0.nodes[p].children@.len() implies t3.nodes[(
                            #[trigger] t0.nodes[p].children@[j]).0 as int].size == t0.nodes[t0.nodes[p].children@[j].0 as int].size by {
                                let ch = t0.nodes[p].children@[j].0 as int;
                                assert(ch == t0.child(p, j));
                                assert(p < t0.child(p, j) < t0.n());
                                assert(ch != c);
                                assert(t1.nodes[ch] == t0.nodes[ch]);
                                assert(t2.nodes[ch] == t1.nodes[ch]);
                            }
                            lemma_sum_sizes_frame(t3, t0, t0.nodes[p].children@);
                            lemma_sum_sizes_push(t3, t0.nodes[p].children@, child_id);
                            assert(sum_sizes(t3, t3.nodes[p].children@) == total as int);
                            // every new node is done
                            let ki0 = t0.nchild(p);
                            assert(listing_matches(t2, c, *sub, min));
                            lemma_listing_matches_frame(t2, t3, c, *sub, min);
                            assert(kept_entry_matches(t3, c, es@[idx as int], min));
                            assert forall|j: int|
                                p < j < t0.nodes.len() implies t3.nodes[j] == t0.nodes[j] by {
                                assert(t1.nodes[j] == t0.nodes[j]);
                                assert(t2.nodes[j] == t1.nodes[j]);
                            }
                            lemma_matches_upto_frame(t0, t3, p, es@, idx as int, ki0, min);
                            assert(t3.child(p, ki0) == c);
                            assert(matches_upto(t3, p, es@, idx as int + 1, ki0 + 1, min));
                            assert forall|i: int|
                                pre.nodes.len() <= i < t3.nodes.len() implies node_done(
                                t3,
                                i,
                                min,
                            ) by {
                                if i == c {
                                    assert(sum_sizes(t2, t2.nodes[c].children@) == dir_size as int);
                                    assert forall|j: int|
                                        0 <= j < t2.nodes[c].children@.len() implies t3.nodes[(
                                    #[trigger] t2.nodes[c].children@[j]).0 as int].size == t2.nodes[t2.nodes[c].children@[j].0 as int].size by {
                                        assert(c < t2.child(c, j) < t2.n());
                                    }
                                    lemma_sum_sizes_frame(t3, t2, t2.nodes[c].children@);
                                    assert(t3.nodes[c].size == dir_size);
                                } else if i < c {
                                    // done before this entry was processed, untouched since
                                    assert(node_done(t0, i, min));
                                    assert(t1.nodes[i] == t0.nodes[i]);
                                    assert(t2.nodes[i] == t1.nodes[i]);
                                    assert(t3.nodes[i] == t2.nodes[i]);
                                    assert forall|j: int|
                                        0 <= j < t0.nodes[i].children@.len() implies t3.nodes[(
                                    #[trigger] t0.nodes[i].children@[j]).0 as int].size == t0.nodes[t0.nodes[i].children@[j].0 as int].size by {
                                        let ch = t0.child(i, j);
                                        assert(i < ch < t0.n());
                                        assert(ch != c);
                                        assert(ch != p);
                                        assert(t1.nodes[ch] == t0.nodes[ch]);
                                        assert(t2.nodes[ch] == t1.nodes[ch]);
                                        assert(t3.nodes[ch] == t2.nodes[ch]);
                                    }
                                    lemma_node_done_frame(t0, t3, i, min);
                                } else {
                                    // created by the recursive call, done there
                                    assert(node_done(t2, i, min));
                                    assert(t3.nodes[i] == t2.nodes[i]);
                                    assert forall|j: int|
                                        0 <= j < t2.nodes[i].children@.len() implies t3.nodes[(
                                    #[trigger] t2.nodes[i].children@[j]).0 as int].size == t2.nodes[t2.nodes[i].children@[j].0 as int].size by {
                                        let ch = t2.child(i, j);
                                        assert(i < ch < t2.n());
                                        assert(ch != c);
                                    }
                                    lemma_node_done_frame(t2, t3, i, min);
                                }
                            }
                        }
                    },
                    FsEntry::File { name, path, size } => {
                        if *size >= config.min_file_size_bytes {
                            let ghost t0 = *tree;
                            let child_id = tree.add_child(
                                parent,
                                name.clone(),
                                path.clone(),
                                false,
                                *size,
                            );
                            total = total + *size;
                            stats.files = stats.files + 1;
                            proof {
                                let t1 = *tree;
                                let c = child_id.0 as int;
                                assert forall|j: int|
                                    0 <= j < t0.nodes[p].children@.len() implies t1.nodes[(
                                #[trigger] t0.nodes[p].children@[j]).0 as int].size == t0.nodes[t0.nodes[p].children@[j].0 as int].size by {
                                    let ch = t0.nodes[p].children@[j].0 as int;
                                    assert(ch == t0.child(p, j));
                                    assert(p < t0.child(p, j) < t0.n());
                                }
                                lemma_sum_sizes_frame(t1, t0, t0.nodes[p].children@);
                                lemma_sum_sizes_push(t1, t0.nodes[p].children@, child_id);
                                assert(sum_sizes(t1, t1.nodes[p].children@) == total as int);
                                let ki0 = t0.nchild(p);
                                lemma_matches_upto_frame(t0, t1, p, es@, idx as int, ki0, min);
                                assert(t1.child(p, ki0) == c);
                                assert(kept_entry_matches(t1, c, es@[idx as int], min));
                                assert(matches_upto(t1, p, es@, idx as int + 1, ki0 + 1, min));
                                assert forall|i: int|
                                    pre.nodes.len() <= i < t1.nodes.len() implies node_done(
                                    t1,
                                    i,
                                    min,
                                ) by {
                                    if i == c {
                                        assert(!t1.nodes[c].is_dir);
                                        assert(t1.nodes[c].size >= min);
                                    } else {
                                        assert(node_done(t0, i, min));
                                        assert(t1.nodes[i] == t0.nodes[i]);
                                        assert forall|j: int|
                                            0 <= j < t0.nodes[i].children@.len() implies t1.nodes[(
                                        #[trigger] t0.nodes[i].children@[j]).0 as int].size == t0.nodes[t0.nodes[i].children@[j].0 as int].size by {
                                            let ch = t0.child(i, j);
                                            assert(i < ch < t0.n());
                                        }
                                        lemma_node_done_frame(t0, t1, i, min);
                                    }
                                }
                            }
                        }
                    },
                    FsEntry::FileNoMeta => {
                        stats.errors = stats.errors + 1;
                    },
                    FsEntry::Unknown => {
                        stats.errors = stats.errors + 1;
                    },
                    FsEntry::Special => {},
                }
                idx = idx + 1;
            }
            proof {
                assert(es@.subrange(idx as int, es@.len() as int).len() == 0);
                assert(entries_tally(es@.subrange(idx as int, es@.len() as int), min)
                    == tally_zero());
                assert(matches_from(*tree, p, es@, es@.len() as int, tree.nchild(p), min));
                lemma_upto_bridge(*tree, p, es@, es@.len() as int, tree.nchild(p), min);
                assert(listing_matches(*tree, p, *listing, min));
            }
            total
        },
    }
}

/// Scan one recorded directory enumeration into a fresh tree.
///
/// The returned tree is complete — every directory's size is the exact sum
/// of its direct children's sizes — and holds one node per kept entry:
/// files below the threshold, unreadable entries and special entries are
/// absent. The statistics count exactly what the listing records, with the
/// root itself as one directory; no recorded failure ever drops an entry
/// that was enumerated successfully.
pub fn scan_path(root_path: String, listing: &DirListing, config: &ScanConfig) -> (r: (
    Tree,
    ScanStats,
))
    requires
        scan_ok(*listing, *config),
    ensures
        r.0.wf(),
        r.0.completed(),
        r.0.nodes.len() == 1 + listing_tally(*listing, config.min_file_size_bytes).nodes,
        r.0.nodes[0].name@ == base_name_spec(root_path@),
        r.0.nodes[0].path == root_path,
        r.0.nodes[0].is_dir,
        r.0.nodes[0].parent is None,
        r.0.nodes[0].size as int == listing_tally(*listing, config.min_file_size_bytes).total,
        r.1.files as int == listing_tally(*listing, config.min_file_size_bytes).files,
        r.1.dirs as int == 1 + listing_tally(*listing, config.min_file_size_bytes).dirs,
        r.1.errors as int == listing_tally(*listing, config.min_file_size_bytes).errors,
        listing_matches(r.0, 0, *listing, config.min_file_size_bytes),
        r.0.files_are_leaves(),
        forall|i: int|
            0 <= i < r.0.nodes.len() && !(#[trigger] r.0.nodes[i]).is_dir ==> r.0.nodes[i].size
                >= config.min_file_size_bytes,
{
    let ghost min = config.min_file_size_bytes;
    let mut tree = Tree::new_root(root_path);
    let mut stats = ScanStats { files: 0, dirs: 1, errors: 0 };
    let root_id = tree.root;
    let total = scan_dir_recursive(listing, root_id, &mut tree, &mut stats, config);
    let ghost t2 = tree;
    let rnode = tree.node_mut(root_id);
    rnode.size = total;
    proof {
        let t3 = tree;
        lemma_wf_set_size(t2, t3, 0);
        lemma_listing_matches_frame(t2, t3, 0, *listing, min);
        assert forall|j: int|
            0 <= j < t2.nodes[0].children@.len() implies t3.nodes[(
        #[trigger] t2.nodes[0].children@[j]).0 as int].size == t2.nodes[t2.nodes[0].children@[j].0 as int].size by {
            assert(t2.nodes[0].children@[j].0 as int == t2.child(0, j));
            assert(0 < t2.child(0, j) < t2.n());
        }
        lemma_sum_sizes_frame(t3, t2, t2.nodes[0].children@);
        assert forall|i: int|
            0 <= i < t3.nodes.len() && (#[trigger] t3.nodes[i]).is_dir implies t3.nodes[i].size
            as int == sum_sizes(t3, t3.nodes[i].children@) by {
            if i == 0 {
                assert(t3.nodes[0].size == total);
            } else {
                assert(node_done(t2, i, min));
                assert(t3.nodes[i] == t2.nodes[i]);
                assert forall|j: int|
                    0 <= j < t2.nodes[i].children@.len() implies t3.nodes[(
                #[trigger] t2.nodes[i].children@[j]).0 as int].size == t2.nodes[t2.nodes[i].children@[j].0 as int].size by {
                    assert(t2.nodes[i].children@[j].0 as int == t2.child(i, j));
                    assert(i < t2.child(i, j) < t2.n());
                }
                lemma_node_done_frame(t2, t3, i, min);
            }
        }
        assert forall|i: int|
            0 <= i < t3.nodes.len() && !(#[trigger] t3.nodes[i]).is_dir implies t3.nodes[i].size
            >= min && t3.nodes[i].children.len() == 0 by {
            assert(i != 0);
            assert(node_done(t2, i, min));
            assert(t3.nodes[i] == t2.nodes[i]);
        }
    }
    (tree, stats)
}

/// Totals of one listing, as a scan would accumulate them.
#[derive(Clone, Copy, Debug, PartialEq, Eq, Structural)]
pub struct ScanTotals {
    pub total: u64,
    pub errors: u64,
    pub files: u64,
    pub dirs: u64,
    pub nodes: u64,
}

/// Every counter of the tally fits 64 bits.
pub open spec fn tally_fits(t: Tally) -> bool {
    &&& t.total <= u64::MAX
    &&& t.errors <= u64::MAX
    &&& t.files <= u64::MAX
    &&& t.dirs <= u64::MAX
    &&& t.nodes <= u64::MAX
}

/// Compute the listing's tally in 64-bit arithmetic; `None` exactly where
/// some counter would overflow.
pub fn measure_listing(listing: &DirListing, config: &ScanConfig) -> (r: Option<ScanTotals>)
    ensures
        match r {
            Some(t) => {
                let tl = listing_tally(*listing, config.min_file_size_bytes);
                &&& tally_fits(tl)
                &&& t.total as int == tl.total
                &&& t.errors as int == tl.errors
                &&& t.files as int == tl.files
                &&& t.dirs as int == tl.dirs
                &&& t.nodes as int == tl.nodes
            },
            None => !tally_fits(listing_tally(*listing, config.min_file_size_bytes)),
        },
    decreases *listing,
{
    let ghost min = config.min_file_size_bytes;
    match listing {
        DirListing::Failed => Some(
            ScanTotals { total: 0, errors: 1, files: 0, dirs: 0, nodes: 0 },
        ),
        DirListing::Entries(es) => {
            let ghost whole = entries_tally(es@, min);
            let mut acc = ScanTotals { total: 0, errors: 0, files: 0, dirs: 0, nodes: 0 };
            let mut idx: usize = 0;
            let n_entries = es.len();
            proof {
                assert(es@.subrange(0, es@.len() as int) =~= es@);
            }
            while idx < n_entries
                invariant
                    idx <= n_entries,
                    n_entries == es@.len(),
                    *listing == DirListing::Entries(*es),
                    min == config.min_file_size_bytes,
                    whole == entries_tally(es@, min),
                    acc.total + entries_tally(es@.subrange(idx as int, es@.len() as int), min).total
                        == whole.total,
                    acc.errors + entries_tally(
                        es@.subrange(idx as int, es@.len() as int),
                        min,
                    ).errors == whole.errors,
                    acc.files + entries_tally(es@.subrange(idx as int, es@.len() as int), min).files
                        == whole.files,
                    acc.dirs + entries_tally(es@.subrange(idx as int, es@.len() as int), min).dirs
                        == whole.dirs,
                    acc.nodes + entries_tally(es@.subrange(idx as int, es@.len() as int), min).nodes
                        == whole.nodes,
                decreases n_entries - idx,
            {
                proof {
                    lemma_entries_tally_step(es@, idx as int, min);
                }
                let entry = &es[idx];
                match entry {
                    FsEntry::Dir { listing: sub, .. } => {
                        proof {
                            assert((*listing)->Entries_0 == *es);
                            assert(decreases_to!(*listing => (*listing)->Entries_0));
                            assert(decreases_to!(*es => es@));
                            assert(decreases_to!(es@ => es@[idx as int]));
                            assert(es@[idx as int] == *entry);
                            assert(decreases_to!(es@[idx as int] => *sub));
                        }
                        let s = match measure_listing(sub, config) {
                            Some(s) => s,
                            None => {
                                return None;
                            },
                        };
                        if s.dirs == u64::MAX || s.nodes == u64::MAX {
                            return None;
                        }
                        if acc.total > u64::MAX - s.total || acc.errors > u64::MAX - s.errors
                            || acc.files > u64::MAX - s.files || acc.dirs > u64::MAX - (s.dirs + 1)
                            || acc.nodes > u64::MAX - (s.nodes + 1) {
                            return None;
                        }
                        acc.total = acc.total + s.total;
                        acc.errors = acc.errors + s.errors;
                        acc.files = acc.files + s.files;
                        acc.dirs = acc.dirs + s.dirs + 1;
                        acc.nodes = acc.nodes + s.nodes + 1;
                    },
                    FsEntry::File { size, .. } => {
                        if *size >= config.min_file_size_bytes {
                            if acc.total > u64::MAX - *size || acc.files == u64::MAX || acc.nodes
                                == u64::MAX {
                                return None;
                            }
                            acc.total = acc.total + *size;
                            acc.files = acc.files + 1;
                            acc.nodes = acc.nodes + 1;
                        }
                    },
                    FsEntry::FileNoMeta => {
                        if acc.errors == u64::MAX {
                            return None;
                        }
                        acc.errors = acc.errors + 1;
                    },
                    FsEntry::Unknown => {
                        if acc.errors == u64::MAX {
                            return None;
                        }
                        acc.errors = acc.errors + 1;
                    },
                    FsEntry::Special => {},
                }
                idx = idx + 1;
            }
            proof {
                assert(es@.subrange(idx as int, es@.len() as int).len() == 0);
            }
            Some(acc)
        },
    }
}

/// Whether `scan_path` accepts this listing on this machine: all counters
/// fit, with room for the root's own directory count and node id.
pub fn scan_input_ok(listing: &DirListing, config: &ScanConfig) -> (ok: bool)
    ensures
        ok == scan_ok(*listing, *config),
{
    match measure_listing(listing, config) {
        Some(t) => t.dirs < u64::MAX && t.nodes < 0xFFFF_FFFF,
        None => false,
    }
}

} // verus!

