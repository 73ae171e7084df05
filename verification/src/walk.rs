//! The tree walker.
//!
//! `walk_path` lists a directory, classifies every child, emits each file
//! child and walks each directory child, splicing the sub-walks' records
//! into its own output.  The first error anywhere below ends the walk: the
//! outcome carries whatever had been delivered up to that point and the
//! terminal error.  Against a snapshot (`model::FsNode`) the walk is proved
//! complete: an error-free walk delivers every reachable file exactly once,
//! and the sizes it delivers add up to the snapshot's total byte size.

use vstd::multiset::Multiset;
use vstd::prelude::*;

use crate::entry::{classify_entry, entry_path, entry_views, Entry, FileEntry, ScanError};
use crate::model::{
    child_files, child_size, child_weight, files_of, files_upto, lemma_files_upto_mono, readable,
    size_upto, tree_size, weight, weight_upto, FsChild, FsNode,
};
use crate::scanner::{listed_dirs, listed_files, pending_paths, ChildMeta, Scanner};

verus! {

/// What one scan delivered: every record that reached the consumer before
/// the scan ended, and the terminal error if it failed rather than
/// completed.
pub struct ScanOutcome {
    pub entries: Vec<FileEntry>,
    pub error: Option<ScanError>,
}

/// The total of the sizes in a sequence of records.
pub open spec fn size_sum(s: Seq<(Seq<char>, u64)>) -> int
    decreases s.len(),
{
    if s.len() == 0 {
        0
    } else {
        size_sum(s.drop_last()) + s.last().1
    }
}

/// A scan of the tree `t`, rooted at `path`, that completed: no error, the
/// records delivered are exactly the reachable files, each exactly once, and
/// their sizes add up to the tree's total byte size.
pub open spec fn complete_scan(path: Seq<char>, t: FsNode, r: ScanOutcome) -> bool {
    &&& r.error is None
    &&& entry_views(r.entries@).to_multiset() == files_of(path, t)
    &&& size_sum(entry_views(r.entries@)) == tree_size(t)
}

/// A scan of the tree `t` that hit a denied directory: the terminal error is
/// a permission error, and what was delivered before it is a part of the
/// reachable files — no record twice, and none from below a denied
/// directory.
pub open spec fn denied_scan(path: Seq<char>, t: FsNode, r: ScanOutcome) -> bool {
    &&& r.error == Some(ScanError::PermissionDenied)
    &&& entry_views(r.entries@).to_multiset().subset_of(files_of(path, t))
}

/// Whether `e` is what classification reports for a child whose subtree is
/// `t`: files carry the reported size, directories — readable or not — are
/// directory entries.
pub open spec fn entry_matches(e: Entry, t: FsNode) -> bool {
    match t {
        FsNode::File { size } => e matches Entry::File(f) && f.size == size,
        FsNode::Dir { .. } => e is Dir,
        FsNode::Denied => e is Dir,
    }
}

/// An empty record sequence holds the empty multiset and a zero total.
proof fn lemma_records_empty(s: Seq<(Seq<char>, u64)>)
    requires
        s.len() == 0,
    ensures
        s.to_multiset() == Multiset::<(Seq<char>, u64)>::empty(),
        size_sum(s) == 0,
{
    broadcast use vstd::seq_lib::group_to_multiset_ensures;
    broadcast use vstd::multiset::group_multiset_axioms;

    vstd::multiset::lemma_multiset_empty_len(s.to_multiset());
    assert(s.to_multiset() =~= Multiset::empty());
}

/// Mapping entries to their records distributes over concatenation.
proof fn lemma_entry_views_concat(a: Seq<FileEntry>, b: Seq<FileEntry>)
    ensures
        entry_views(a + b) == entry_views(a) + entry_views(b),
{
    assert(entry_views(a + b) =~= entry_views(a) + entry_views(b));
}

/// Size totals add over concatenation.
proof fn lemma_size_sum_concat(a: Seq<(Seq<char>, u64)>, b: Seq<(Seq<char>, u64)>)
    ensures
        size_sum(a + b) == size_sum(a) + size_sum(b),
    decreases b.len(),
{
    if b.len() == 0 {
        assert(a + b =~= a);
    } else {
        lemma_size_sum_concat(a, b.drop_last());
        assert((a + b).drop_last() =~= a + b.drop_last());
    }
}

/// Adding the same multiset on both sides preserves inclusion.
proof fn lemma_subset_add(
    m: Multiset<(Seq<char>, u64)>,
    a: Multiset<(Seq<char>, u64)>,
    b: Multiset<(Seq<char>, u64)>,
)
    requires
        a.subset_of(b),
    ensures
        m.add(a).subset_of(m.add(b)),
{
    broadcast use vstd::multiset::group_multiset_axioms;

}

/// Inclusion of multisets is transitive.
proof fn lemma_subset_trans(
    a: Multiset<(Seq<char>, u64)>,
    b: Multiset<(Seq<char>, u64)>,
    c: Multiset<(Seq<char>, u64)>,
)
    requires
        a.subset_of(b),
        b.subset_of(c),
    ensures
        a.subset_of(c),
{
}

/// Walks one classified entry, as an independent unit of work: a file entry
/// is delivered as is; a directory entry is walked as a directory.
pub fn walk_entry(e: Entry, node: &FsNode) -> (r: ScanOutcome)
    requires
        entry_matches(e, *node),
    ensures
        readable(*node) ==> complete_scan(entry_path(e), *node, r),
        !readable(*node) ==> denied_scan(entry_path(e), *node, r),
    decreases *node, 1int,
{
    match e {
        Entry::File(f) => {
            let ghost rec = f@;
            let r = ScanOutcome { entries: vec![f], error: None };
            proof {
                broadcast use vstd::seq_lib::group_to_multiset_ensures;
                broadcast use vstd::multiset::group_multiset_axioms;

                lemma_records_empty(Seq::<(Seq<char>, u64)>::empty());
                assert(entry_views(r.entries@) =~= Seq::<(Seq<char>, u64)>::empty().push(rec));
                assert(entry_views(r.entries@).to_multiset() =~= Multiset::empty().insert(rec));
                assert(size_sum(entry_views(r.entries@)) == rec.1) by {
                    assert(entry_views(r.entries@).drop_last() =~= Seq::<(Seq<char>, u64)>::empty());
                }
            }
            r
        },
        Entry::Dir(d) => walk_path(d.path, node),
    }
}

/// Walks the directory at `path` whose subtree is `node`: lists it,
/// classifies every child, delivers file children at once and splices in the
/// full output of every directory child's own walk.  The first error below
/// ends the walk and becomes its terminal error; everything delivered before
/// it stays delivered.
#[verifier::loop_isolation(false)]
pub fn walk_path(path: String, node: &FsNode) -> (r: ScanOutcome)
    ensures
        *node is File ==> r.error == Some(ScanError::NotADirectory) && r.entries@.len() == 0,
        *node is Dir && readable(*node) ==> complete_scan(path@, *node, r),
        !readable(*node) ==> denied_scan(path@, *node, r),
    decreases *node, 0int,
{
    match node {
        FsNode::File { .. } => ScanOutcome { entries: Vec::new(), error: Some(ScanError::NotADirectory) },
        FsNode::Denied => {
            let r = ScanOutcome { entries: Vec::new(), error: Some(ScanError::PermissionDenied) };
            proof {
                broadcast use vstd::multiset::group_multiset_axioms;

                assert(entry_views(r.entries@) =~= Seq::<(Seq<char>, u64)>::empty());
                lemma_records_empty(entry_views(r.entries@));
            }
            r
        },
        FsNode::Dir { children } => {
            let ghost cs = children@;
            let mut out: Vec<FileEntry> = Vec::new();
            let mut i: usize = 0;
            proof {
                assert(entry_views(out@) =~= Seq::<(Seq<char>, u64)>::empty());
                lemma_records_empty(entry_views(out@));
            }
            while i < children.len()
                invariant
                    i <= cs.len(),
                    entry_views(out@).to_multiset() == files_upto(cs, i as int),
                    size_sum(entry_views(out@)) == size_upto(cs, i as int),
                    forall|j: int| 0 <= j < i ==> readable(#[trigger] cs[j].node),
                decreases cs.len() - i,
            {
                let ghost k = i as int;
                let child = &children[i];
                let e = classify_entry(child.path.clone(), child.node.is_dir(), child.node.size());
                let mut sub = walk_entry(e, &child.node);
                let ghost out0 = out@;
                let ghost sub0 = sub.entries@;
                out.append(&mut sub.entries);
                proof {
                    lemma_entry_views_concat(out0, sub0);
                    vstd::seq_lib::lemma_multiset_commutative(entry_views(out0), entry_views(sub0));
                    lemma_size_sum_concat(entry_views(out0), entry_views(sub0));
                    assert(entry_path(e) == cs[k].path@);
                    assert(child_files(cs[k]) == files_of(cs[k].path@, cs[k].node));
                    assert(child_size(cs[k]) == tree_size(cs[k].node));
                    assert(files_upto(cs, k + 1) == files_upto(cs, k).add(child_files(cs[k])));
                    assert(size_upto(cs, k + 1) == size_upto(cs, k) + child_size(cs[k]));
                }
                if sub.error.is_some() {
                    proof {
                        // The sub-walk failed, so its subtree holds a denied
                        // directory and its partial output sits inside that
                        // child's reachable files.
                        assert(!readable(cs[k].node));
                        assert(!readable(*node));
                        lemma_subset_add(files_upto(cs, k), entry_views(sub0).to_multiset(), child_files(cs[k]));
                        lemma_files_upto_mono(cs, k + 1, cs.len() as int);
                        lemma_subset_trans(
                            entry_views(out@).to_multiset(),
                            files_upto(cs, k + 1),
                            files_upto(cs, cs.len() as int),
                        );
                    }
                    return ScanOutcome { entries: out, error: sub.error };
                }
                proof {
                    assert(readable(cs[k].node));
                }
                i = i + 1;
            }
            proof {
                assert(readable(*node));
            }
            ScanOutcome { entries: out, error: None }
        },
    }
}

/// Scans the tree rooted at `path`: the outcome carries one record per
/// reachable regular file.  A root that is not a directory fails with a
/// listing error and delivers nothing; a denied directory anywhere below
/// fails the whole scan with a permission error and delivers no record from
/// any denied subtree; otherwise the scan completes and delivers every
/// reachable file exactly once.
pub fn analyze_disk_usage(path: String, node: &FsNode) -> (r: ScanOutcome)
    ensures
        *node is File ==> r.error == Some(ScanError::NotADirectory) && r.entries@.len() == 0,
        *node is Dir && readable(*node) ==> complete_scan(path@, *node, r),
        !readable(*node) ==> denied_scan(path@, *node, r),
{
    walk_path(path, node)
}

/// Folding the sizes is insensitive to emission order: `size_sum` equals a
/// right fold with a commutative step.
proof fn lemma_size_sum_as_fold(s: Seq<(Seq<char>, u64)>, v: int)
    ensures
        s.fold_right(|e: (Seq<char>, u64), acc: int| acc + e.1, v) == size_sum(s) + v,
    decreases s.len(),
{
    if s.len() > 0 {
        lemma_size_sum_as_fold(s.drop_last(), v + s.last().1 as int);
    }
}

/// Order independence: two scans of the same unmutated tree that both
/// delivered exactly the reachable files — in whatever relative orders their
/// interleavings produced — delivered the same records, the same number of
/// them, and the same total of sizes.
pub proof fn lemma_order_independence(
    path: Seq<char>,
    t: FsNode,
    s1: Seq<(Seq<char>, u64)>,
    s2: Seq<(Seq<char>, u64)>,
)
    requires
        s1.to_multiset() == files_of(path, t),
        s2.to_multiset() == files_of(path, t),
    ensures
        s1.to_multiset() == s2.to_multiset(),
        s1.len() == s2.len(),
        size_sum(s1) == size_sum(s2),
{
    broadcast use vstd::seq_lib::group_to_multiset_ensures;

    assert(s1.len() == s1.to_multiset().len());
    assert(s2.len() == s2.to_multiset().len());
    let f = |e: (Seq<char>, u64), acc: int| acc + e.1;
    assert(vstd::seq_lib::commutative_foldr(f));
    vstd::seq_lib::lemma_fold_right_permutation(s1, s2, f, 0);
    lemma_size_sum_as_fold(s1, 0);
    lemma_size_sum_as_fold(s2, 0);
}

/// The records reachable through the first `i` queued walks, pairing the
/// path a scanner holds pending with the subtree behind it.
spec fn work_files(paths: Seq<Seq<char>>, work: Seq<&FsNode>, i: int) -> Multiset<
    (Seq<char>, u64),
>
    decreases i,
{
    if i <= 0 || i > paths.len() || i > work.len() {
        Multiset::empty()
    } else {
        work_files(paths, work, i - 1).add(files_of(paths[i - 1], *work[i - 1]))
    }
}

/// The total byte size reachable through the first `i` queued walks.
spec fn work_sizes(work: Seq<&FsNode>, i: int) -> int
    decreases i,
{
    if i <= 0 || i > work.len() {
        0
    } else {
        work_sizes(work, i - 1) + tree_size(*work[i - 1])
    }
}

/// The number of objects reachable through the first `i` queued walks.
spec fn work_weight(work: Seq<&FsNode>, i: int) -> nat
    decreases i,
{
    if i <= 0 || i > work.len() {
        0
    } else {
        work_weight(work, i - 1) + weight(*work[i - 1])
    }
}

/// Queues that agree pairwise on their first `i` walks account alike.
proof fn lemma_work_agree(
    p1: Seq<Seq<char>>,
    w1: Seq<&FsNode>,
    p2: Seq<Seq<char>>,
    w2: Seq<&FsNode>,
    i: int,
)
    requires
        i <= p1.len() && i <= w1.len() && i <= p2.len() && i <= w2.len(),
        forall|q: int| 0 <= q < i ==> p1[q] == p2[q] && w1[q] == w2[q],
    ensures
        work_files(p1, w1, i) == work_files(p2, w2, i),
        work_sizes(w1, i) == work_sizes(w2, i),
        work_weight(w1, i) == work_weight(w2, i),
    decreases i,
{
    if i > 0 {
        lemma_work_agree(p1, w1, p2, w2, i - 1);
    }
}

/// Concatenated queues account part by part.
proof fn lemma_work_concat(
    p1: Seq<Seq<char>>,
    w1: Seq<&FsNode>,
    p2: Seq<Seq<char>>,
    w2: Seq<&FsNode>,
)
    requires
        p1.len() == w1.len(),
        p2.len() == w2.len(),
    ensures
        work_files(p1 + p2, w1 + w2, (p1.len() + p2.len()) as int) == work_files(
            p1,
            w1,
            p1.len() as int,
        ).add(work_files(p2, w2, p2.len() as int)),
        work_sizes(w1 + w2, (w1.len() + w2.len()) as int) == work_sizes(w1, w1.len() as int)
            + work_sizes(w2, w2.len() as int),
        work_weight(w1 + w2, (w1.len() + w2.len()) as int) == work_weight(w1, w1.len() as int)
            + work_weight(w2, w2.len() as int),
    decreases p2.len(),
{
    broadcast use vstd::multiset::group_multiset_axioms;

    if p2.len() == 0 {
        assert(p1 + p2 =~= p1);
        assert(w1 + w2 =~= w1);
        assert(work_files(p2, w2, 0) == Multiset::<(Seq<char>, u64)>::empty());
        assert(work_files(p1, w1, p1.len() as int).add(Multiset::empty()) =~= work_files(
            p1,
            w1,
            p1.len() as int,
        ));
    } else {
        lemma_work_concat(p1, w1, p2.drop_last(), w2.drop_last());
        let pc = p1 + p2;
        let wc = w1 + w2;
        let n = (p1.len() + p2.len()) as int;
        assert(work_files(pc, wc, n) == work_files(pc, wc, n - 1).add(
            files_of(pc[n - 1], *wc[n - 1]),
        ));
        lemma_work_agree(pc, wc, p1 + p2.drop_last(), w1 + w2.drop_last(), n - 1);
        assert(pc[n - 1] == p2.last());
        assert(wc[n - 1] == w2.last());
        assert(work_files(p2, w2, p2.len() as int) == work_files(p2, w2, p2.len() - 1).add(
            files_of(p2[p2.len() - 1], *w2[p2.len() - 1]),
        ));
        lemma_work_agree(p2, w2, p2.drop_last(), w2.drop_last(), p2.len() - 1);
        assert(work_files(pc, wc, n) =~= work_files(p1, w1, p1.len() as int).add(
            work_files(p2, w2, p2.len() as int),
        ));
    }
}

/// Scans a snapshot through the incremental engine: the `Scanner` decides,
/// and this driver performs the listings it asks for by reading the
/// snapshot, one pending directory at a time.  It delivers exactly what
/// `analyze_disk_usage` promises: the incremental engine loses, duplicates
/// and invents nothing, however its work happens to be ordered.
#[verifier::loop_isolation(false)]
pub fn scan_snapshot(path: String, node: &FsNode) -> (r: ScanOutcome)
    ensures
        *node is File ==> r.error == Some(ScanError::NotADirectory) && r.entries@.len() == 0,
        *node is Dir && readable(*node) ==> complete_scan(path@, *node, r),
        !readable(*node) ==> denied_scan(path@, *node, r),
{
    broadcast use vstd::multiset::group_multiset_axioms;
    broadcast use vstd::seq_lib::group_to_multiset_ensures;

    let ghost path0 = path@;
    if let FsNode::File { .. } = node {
        return ScanOutcome { entries: Vec::new(), error: Some(ScanError::NotADirectory) };
    }
    let mut s = Scanner::new(path);
    let mut work: Vec<&FsNode> = Vec::new();
    work.push(node);
    let mut delivered: Vec<FileEntry> = Vec::new();
    proof {
        assert(entry_views(delivered@) =~= Seq::<(Seq<char>, u64)>::empty());
        lemma_records_empty(entry_views(delivered@));
        assert(work@[0] == node);
        assert(work_files(pending_paths(s.pending@), work@, 1) == work_files(
            pending_paths(s.pending@),
            work@,
            0,
        ).add(files_of(path0, *node)));
        assert(entry_views(delivered@).to_multiset().add(
            work_files(pending_paths(s.pending@), work@, 1),
        ) =~= files_of(path0, *node));
        assert(work_sizes(work@, 1) == work_sizes(work@, 0) + tree_size(*node));
    }
    while s.pending.len() > 0
        invariant
            s.error is None,
            s.in_flight == 0,
            work@.len() == s.pending@.len(),
            forall|q: int| 0 <= q < work@.len() ==> !(*(#[trigger] work@[q]) is File),
            entry_views(delivered@).to_multiset().add(
                work_files(pending_paths(s.pending@), work@, work@.len() as int),
            ) == files_of(path0, *node),
            size_sum(entry_views(delivered@)) + work_sizes(work@, work@.len() as int) == tree_size(
                *node,
            ),
            readable(*node) <==> (forall|q: int|
                0 <= q < work@.len() ==> readable(*(#[trigger] work@[q]))),
        decreases work_weight(work@, work@.len() as int),
    {
        let ghost paths_pre = pending_paths(s.pending@);
        let ghost work_pre = work@;
        let ghost n = work@.len() as int;
        let d = match s.take_work() {
            Some(d) => d,
            None => {
                proof {
                    assert(false);
                }
                return ScanOutcome { entries: delivered, error: None };
            },
        };
        let t = match work.pop() {
            Some(t) => t,
            None => {
                proof {
                    assert(false);
                }
                return ScanOutcome { entries: delivered, error: None };
            },
        };
        proof {
            assert(pending_paths(s.pending@) =~= paths_pre.drop_last());
            assert(work@ =~= work_pre.drop_last());
            assert(d@ == paths_pre.last());
            assert(work_files(paths_pre, work_pre, n) == work_files(paths_pre, work_pre, n - 1).add(
                files_of(paths_pre[n - 1], *work_pre[n - 1]),
            ));
            lemma_work_agree(paths_pre, work_pre, paths_pre.drop_last(), work_pre.drop_last(), n - 1);
        }
        match t {
            FsNode::File { .. } => {
                // Only directories are ever queued.
                proof {
                    assert(*work_pre[n - 1] is File);
                    assert(false);
                }
                s.on_error(ScanError::Other);
            },
            FsNode::Denied => {
                // The listing is denied: report it and end the scan with
                // whatever was delivered first.
                s.on_error(ScanError::PermissionDenied);
                proof {
                    assert(!readable(*work_pre[n - 1]));
                    assert(!readable(*node));
                    assert forall|x: (Seq<char>, u64)|
                        entry_views(delivered@).to_multiset().count(x) <= files_of(
                            path0,
                            *node,
                        ).count(x) by {}
                }
                return ScanOutcome { entries: delivered, error: Some(ScanError::PermissionDenied) };
            },
            FsNode::Dir { children } => {
                let ghost cs = children@;
                // Perform the listing the scanner asked for: read the
                // directory's children and their metadata off the snapshot.
                let mut metas: Vec<ChildMeta> = Vec::new();
                let mut new_work: Vec<&FsNode> = Vec::new();
                let mut j: usize = 0;
                proof {
                    assert(listed_files(metas@) =~= Seq::<(Seq<char>, u64)>::empty());
                    assert(listed_dirs(metas@) =~= Seq::<Seq<char>>::empty());
                    lemma_records_empty(listed_files(metas@));
                }
                while j < children.len()
                    invariant
                        j <= cs.len(),
                        children@ == cs,
                        listed_dirs(metas@).len() == new_work@.len(),
                        listed_files(metas@).to_multiset().add(
                            work_files(listed_dirs(metas@), new_work@, new_work@.len() as int),
                        ) == files_upto(cs, j as int),
                        size_sum(listed_files(metas@)) + work_sizes(
                            new_work@,
                            new_work@.len() as int,
                        ) == size_upto(cs, j as int),
                        work_weight(new_work@, new_work@.len() as int) <= weight_upto(cs, j as int),
                        forall|q: int|
                            0 <= q < new_work@.len() ==> !(*(#[trigger] new_work@[q]) is File),
                        (forall|q: int|
                            0 <= q < new_work@.len() ==> readable(*(#[trigger] new_work@[q])))
                            <==> (forall|q2: int| 0 <= q2 < j ==> readable(cs[q2].node)),
                    decreases cs.len() - j,
                {
                    let ghost k = j as int;
                    let ghost metas0 = metas@;
                    let ghost new_work0 = new_work@;
                    let child = &children[j];
                    let child_is_dir = child.node.is_dir();
                    let child_size_now = child.node.size();
                    metas.push(
                        ChildMeta {
                            path: child.path.clone(),
                            is_dir: child_is_dir,
                            size: child_size_now,
                        },
                    );
                    if child_is_dir {
                        new_work.push(&child.node);
                    }
                    proof {
                        assert(metas@.drop_last() =~= metas0);
                        assert(metas@.last().path@ == cs[k].path@);
                        assert(files_upto(cs, k + 1) == files_upto(cs, k).add(child_files(cs[k])));
                        assert(size_upto(cs, k + 1) == size_upto(cs, k) + child_size(cs[k]));
                        assert(weight_upto(cs, k + 1) == weight_upto(cs, k) + child_weight(cs[k]));
                        assert(child_files(cs[k]) == files_of(cs[k].path@, cs[k].node));
                        assert(child_size(cs[k]) == tree_size(cs[k].node));
                        assert(child_weight(cs[k]) == weight(cs[k].node));
                        if child_is_dir {
                            assert(listed_files(metas@) =~= listed_files(metas0));
                            assert(listed_dirs(metas@) =~= listed_dirs(metas0).push(cs[k].path@));
                            assert(new_work@ =~= new_work0.push(new_work@.last()));
                            let nn = new_work@.len() as int;
                            assert(work_files(listed_dirs(metas@), new_work@, nn) == work_files(
                                listed_dirs(metas@),
                                new_work@,
                                nn - 1,
                            ).add(files_of(cs[k].path@, cs[k].node)));
                            lemma_work_agree(
                                listed_dirs(metas@),
                                new_work@,
                                listed_dirs(metas0),
                                new_work0,
                                nn - 1,
                            );
                            assert(listed_files(metas@).to_multiset().add(
                                work_files(listed_dirs(metas@), new_work@, nn),
                            ) =~= files_upto(cs, k + 1));
                            assert(*new_work@[nn - 1] == cs[k].node);
                            assert(work_sizes(new_work@, nn) == work_sizes(new_work@, nn - 1)
                                + tree_size(cs[k].node));
                            assert(work_weight(new_work@, nn) == work_weight(new_work@, nn - 1)
                                + weight(cs[k].node));
                            assert((forall|q: int|
                                0 <= q < new_work@.len() ==> readable(*(#[trigger] new_work@[q])))
                                <==> (forall|q2: int|
                                0 <= q2 < k + 1 ==> readable(cs[q2].node))) by {
                                if forall|q: int| 0 <= q < new_work@.len() ==> readable(
                                    *(#[trigger] new_work@[q]),
                                ) {
                                    assert forall|q: int|
                                        0 <= q < new_work0.len() implies readable(
                                        *(#[trigger] new_work0[q]),
                                    ) by {
                                        assert(new_work@[q] == new_work0[q]);
                                    }
                                    assert(readable(*new_work@[nn - 1]));
                                    assert forall|q2: int| 0 <= q2 < k + 1 implies readable(
                                        cs[q2].node,
                                    ) by {}
                                }
                                if forall|q2: int| 0 <= q2 < k + 1 ==> readable(cs[q2].node) {
                                    assert(forall|q2: int|
                                        0 <= q2 < k ==> readable(cs[q2].node));
                                    assert forall|q: int|
                                        0 <= q < new_work@.len() implies readable(
                                        *(#[trigger] new_work@[q]),
                                    ) by {
                                        if q < nn - 1 {
                                            assert(new_work@[q] == new_work0[q]);
                                        } else {
                                            assert(*new_work@[q] == cs[k].node);
                                        }
                                    }
                                }
                            }
                        } else {
                            assert(cs[k].node is File);
                            assert(listed_files(metas@) =~= listed_files(metas0).push(
                                (cs[k].path@, child_size_now),
                            ));
                            assert(listed_dirs(metas@) =~= listed_dirs(metas0));
                            lemma_size_sum_concat(
                                listed_files(metas0),
                                seq![(cs[k].path@, child_size_now)],
                            );
                            assert(listed_files(metas0).push((cs[k].path@, child_size_now))
                                =~= listed_files(metas0) + seq![(cs[k].path@, child_size_now)]);
                            assert(size_sum(seq![(cs[k].path@, child_size_now)])
                                == child_size_now as int) by {
                                assert(seq![(cs[k].path@, child_size_now)].drop_last()
                                    =~= Seq::<(Seq<char>, u64)>::empty());
                            }
                            assert(child_files(cs[k]) == Multiset::empty().insert(
                                (cs[k].path@, child_size_now),
                            ));
                            assert(listed_files(metas@).to_multiset().add(
                                work_files(listed_dirs(metas@), new_work@, new_work@.len() as int),
                            ) =~= files_upto(cs, k + 1));
                            assert(readable(cs[k].node));
                            assert((forall|q: int|
                                0 <= q < new_work@.len() ==> readable(*(#[trigger] new_work@[q])))
                                <==> (forall|q2: int|
                                0 <= q2 < k + 1 ==> readable(cs[q2].node))) by {
                                if forall|q2: int| 0 <= q2 < k ==> readable(cs[q2].node) {
                                    assert forall|q2: int| 0 <= q2 < k + 1 implies readable(
                                        cs[q2].node,
                                    ) by {}
                                }
                            }
                        }
                    }
                    j = j + 1;
                }
                proof {
                    assert(files_upto(cs, cs.len() as int) == files_of(d@, *work_pre[n - 1]));
                    assert(size_upto(cs, cs.len() as int) == tree_size(*work_pre[n - 1]));
                    assert(readable(*work_pre[n - 1]) <==> (forall|q2: int|
                        0 <= q2 < cs.len() ==> readable(cs[q2].node)));
                }
                let ghost paths_mid = pending_paths(s.pending@);
                let ghost work_mid = work@;
                let ghost files_new = listed_files(metas@);
                let ghost dirs_new = listed_dirs(metas@);
                let ghost work_new = new_work@;
                let mut out = s.on_listing(metas);
                let ghost delivered0 = delivered@;
                let ghost out0 = out@;
                delivered.append(&mut out);
                // The new walks join the queue exactly as the scanner
                // queued their paths.
                let mut jj: usize = 0;
                while jj < new_work.len()
                    invariant
                        jj <= new_work@.len(),
                        new_work@ == work_new,
                        work@ =~= work_mid + work_new.take(jj as int),
                    decreases new_work@.len() - jj,
                {
                    work.push(new_work[jj]);
                    proof {
                        assert(work@ =~= work_mid + work_new.take(jj as int + 1));
                    }
                    jj = jj + 1;
                }
                proof {
                    assert(work@ =~= work_mid + work_new);
                    assert(pending_paths(s.pending@) =~= paths_mid + dirs_new);
                    assert(entry_views(out0) == files_new);
                    lemma_entry_views_concat(delivered0, out0);
                    vstd::seq_lib::lemma_multiset_commutative(
                        entry_views(delivered0),
                        entry_views(out0),
                    );
                    lemma_size_sum_concat(entry_views(delivered0), entry_views(out0));
                    lemma_work_concat(paths_mid, work_mid, dirs_new, work_new);
                    assert(entry_views(delivered@).to_multiset().add(
                        work_files(pending_paths(s.pending@), work@, work@.len() as int),
                    ) =~= files_of(path0, *node));
                    assert(size_sum(entry_views(delivered@)) + work_sizes(
                        work@,
                        work@.len() as int,
                    ) == tree_size(*node));
                    // The taken directory outweighs the walks it queued, so
                    // the queue's total weight strictly falls.
                    assert(weight(*work_pre[n - 1]) == 1 + weight_upto(cs, cs.len() as int));
                    lemma_work_concat(paths_pre.drop_last(), work_pre.drop_last(), dirs_new, work_new);
                    lemma_work_agree(
                        paths_pre,
                        work_pre,
                        paths_pre.drop_last(),
                        work_pre.drop_last(),
                        n - 1,
                    );
                    assert(work_weight(work_pre, n) == work_weight(work_pre, n - 1) + weight(
                        *work_pre[n - 1],
                    ));
                    assert(work_weight(work@, work@.len() as int) < work_weight(work_pre, n));
                    assert forall|q: int| 0 <= q < work@.len() implies !(*(
                    #[trigger] work@[q]) is File) by {
                        if q < work_mid.len() {
                            assert(work@[q] == work_pre[q]);
                        } else {
                            assert(work@[q] == work_new[q - work_mid.len()]);
                        }
                    }
                    // Readability of the whole tree keeps tracking the queue.
                    assert(readable(*node) <==> (forall|q: int|
                        0 <= q < work@.len() ==> readable(*(#[trigger] work@[q])))) by {
                        if forall|q: int| 0 <= q < work_pre.len() ==> readable(
                            *(#[trigger] work_pre[q]),
                        ) {
                            assert(readable(*work_pre[n - 1]));
                            assert forall|q: int| 0 <= q < work@.len() implies readable(
                                *(#[trigger] work@[q]),
                            ) by {
                                if q < work_mid.len() {
                                    assert(work@[q] == work_pre[q]);
                                } else {
                                    assert(work@[q] == work_new[q - work_mid.len()]);
                                }
                            }
                        }
                        if forall|q: int| 0 <= q < work@.len() ==> readable(
                            *(#[trigger] work@[q]),
                        ) {
                            assert forall|q: int| 0 <= q < work_new.len() implies readable(
                                *(#[trigger] work_new[q]),
                            ) by {
                                assert(work@[work_mid.len() + q] == work_new[q]);
                            }
                            assert(forall|q2: int| 0 <= q2 < cs.len() ==> readable(cs[q2].node));
                            assert(readable(*work_pre[n - 1]));
                            assert forall|q: int| 0 <= q < work_pre.len() implies readable(
                                *(#[trigger] work_pre[q]),
                            ) by {
                                if q < n - 1 {
                                    assert(work_pre[q] == work@[q]);
                                }
                            }
                        }
                    }
                }
            },
        }
    }
    proof {
        assert(work@.len() == 0);
        assert(readable(*node));
        assert(work_files(pending_paths(s.pending@), work@, 0) == Multiset::<(Seq<char>,
            u64)>::empty());
        assert(entry_views(delivered@).to_multiset().add(Multiset::empty()) =~= entry_views(
            delivered@,
        ).to_multiset());
    }
    ScanOutcome { entries: delivered, error: None }
}

} // verus!
