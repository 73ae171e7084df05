//! Aggregation of scan records into a path-prefix tree.
//!
//! A consumer that displays results folds the emitted records into a forest:
//! an inner `Node` per directory prefix, a `Leaf` per file, each leaf placed
//! under its chain of prefixes.  A path is kept as its components, outermost
//! first.  The governing invariant, proved of every insertion, is that the
//! multiset of `(path, size)` records held by the leaves grows by exactly
//! the record inserted: the forest never loses, duplicates or alters a
//! record, so every total a display sums from it matches what the scan
//! delivered.

use vstd::multiset::Multiset;
use vstd::prelude::*;

verus! {

/// A file in the display forest: its display name (the last path
/// component), its full component path, and its size.
pub struct Leaf {
    pub name: String,
    pub path: Vec<String>,
    pub size: u64,
}

/// A directory in the display forest, with the subtrees under it.
pub struct Node {
    pub name: String,
    pub path: Vec<String>,
    pub children: Vec<Tree>,
}

/// One tree of the display forest.
pub enum Tree {
    Node(Node),
    Leaf(Leaf),
}

// A display component is the same component when it stands at the same
// path; names and sizes follow from the path, and children are compared by
// walking, not by `==`.
impl PartialEq for Node {
    fn eq(&self, other: &Self) -> bool {
        path_eq(&self.path, &other.path)
    }
}

impl vstd::std_specs::cmp::PartialEqSpecImpl for Node {
    open spec fn obeys_eq_spec() -> bool {
        true
    }

    open spec fn eq_spec(&self, other: &Self) -> bool {
        self.path.deep_view() == other.path.deep_view()
    }
}

impl PartialEq for Leaf {
    fn eq(&self, other: &Self) -> bool {
        path_eq(&self.path, &other.path)
    }
}

impl vstd::std_specs::cmp::PartialEqSpecImpl for Leaf {
    open spec fn obeys_eq_spec() -> bool {
        true
    }

    open spec fn eq_spec(&self, other: &Self) -> bool {
        self.path.deep_view() == other.path.deep_view()
    }
}

impl PartialEq for Tree {
    fn eq(&self, other: &Self) -> bool {
        match (self, other) {
            (Tree::Node(n1), Tree::Node(n2)) => n1 == n2,
            (Tree::Leaf(l1), Tree::Leaf(l2)) => l1 == l2,
            _ => false,
        }
    }
}

impl vstd::std_specs::cmp::PartialEqSpecImpl for Tree {
    open spec fn obeys_eq_spec() -> bool {
        true
    }

    open spec fn eq_spec(&self, other: &Self) -> bool {
        match (self, other) {
            (Tree::Node(n1), Tree::Node(n2)) => n1.path.deep_view() == n2.path.deep_view(),
            (Tree::Leaf(l1), Tree::Leaf(l2)) => l1.path.deep_view() == l2.path.deep_view(),
            _ => false,
        }
    }
}

/// The records held by the leaves of one tree.
pub open spec fn tree_records(t: Tree) -> Multiset<(Seq<Seq<char>>, u64)>
    decreases t, 0int,
{
    match t {
        Tree::Leaf(l) => Multiset::empty().insert((l.path.deep_view(), l.size)),
        Tree::Node(n) => forest_upto(n.children@, n.children@.len() as int),
    }
}

/// The records held by the first `i` trees of a forest.
pub open spec fn forest_upto(f: Seq<Tree>, i: int) -> Multiset<(Seq<Seq<char>>, u64)>
    decreases f, i,
{
    if i <= 0 || i > f.len() {
        Multiset::empty()
    } else {
        forest_upto(f, i - 1).add(tree_records(f[i - 1]))
    }
}

/// The records held by the leaves of a forest.
pub open spec fn forest_records(f: Seq<Tree>) -> Multiset<(Seq<Seq<char>>, u64)> {
    forest_upto(f, f.len() as int)
}

/// Whether a tree is a directory node standing at path `p`.
pub open spec fn is_node_at(t: Tree, p: Seq<Seq<char>>) -> bool {
    t matches Tree::Node(n) && n.path.deep_view() == p
}

/// Whether some tree of the forest is a directory node standing at `p`.
pub open spec fn has_node_at(f: Seq<Tree>, p: Seq<Seq<char>>) -> bool {
    exists|q: int| 0 <= q < f.len() && is_node_at(#[trigger] f[q], p)
}

/// Two forests that agree on their first `i` trees hold the same records
/// there.
proof fn lemma_forest_upto_agree(f1: Seq<Tree>, f2: Seq<Tree>, i: int)
    requires
        i <= f1.len(),
        i <= f2.len(),
        forall|q: int| 0 <= q < i ==> f1[q] == f2[q],
    ensures
        forest_upto(f1, i) == forest_upto(f2, i),
    decreases i,
{
    if i > 0 {
        lemma_forest_upto_agree(f1, f2, i - 1);
    }
}

/// Appending a tree to a forest adds exactly that tree's records.
proof fn lemma_forest_push(f: Seq<Tree>, t: Tree)
    ensures
        forest_records(f.push(t)) == forest_records(f).add(tree_records(t)),
{
    lemma_forest_upto_agree(f.push(t), f, f.len() as int);
}

/// Taking the tree at `j` out of a forest takes exactly its records out.
proof fn lemma_forest_remove(f: Seq<Tree>, j: int)
    requires
        0 <= j < f.len(),
    ensures
        forest_records(f) == forest_records(f.remove(j)).add(tree_records(f[j])),
    decreases f.len() - j,
{
    broadcast use vstd::multiset::group_multiset_axioms;

    if j == f.len() - 1 {
        assert(f.remove(j) =~= f.drop_last());
        assert(forest_upto(f, f.len() as int) == forest_upto(f, f.len() - 1).add(
            tree_records(f[f.len() - 1]),
        ));
        lemma_forest_upto_agree(f, f.drop_last(), f.len() - 1);
    } else {
        let g = f.remove(j);
        lemma_forest_remove(f.drop_last(), j);
        assert(g =~= f.drop_last().remove(j).push(f.last()));
        lemma_forest_push(f.drop_last().remove(j), f.last());
        assert(forest_upto(f, f.len() as int) == forest_upto(f, f.len() - 1).add(
            tree_records(f[f.len() - 1]),
        ));
        lemma_forest_upto_agree(f, f.drop_last(), f.len() - 1);
        assert(forest_records(g) =~= forest_records(f.remove(j)));
        assert(forest_records(f) =~= forest_records(f.remove(j)).add(tree_records(f[j])));
    }
}

/// Putting a tree back at `j` puts exactly its records back.
proof fn lemma_forest_insert(f: Seq<Tree>, j: int, t: Tree)
    requires
        0 <= j <= f.len(),
    ensures
        forest_records(f.insert(j, t)) == forest_records(f).add(tree_records(t)),
{
    let g = f.insert(j, t);
    assert(g.remove(j) =~= f);
    assert(g[j] == t);
    lemma_forest_remove(g, j);
}

/// The first directory node of the forest standing at path `p`, if any:
/// the index of the tree an insertion descends into.
fn find_node(tree: &Vec<Tree>, p: &Vec<String>) -> (r: Option<usize>)
    ensures
        r matches Some(j) ==> j < tree@.len() && is_node_at(tree@[j as int], p.deep_view())
            && forall|q: int| 0 <= q < j ==> !is_node_at(tree@[q], p.deep_view()),
        r is None ==> forall|q: int| 0 <= q < tree@.len() ==> !is_node_at(tree@[q], p.deep_view()),
{
    let mut j: usize = 0;
    while j < tree.len()
        invariant
            j <= tree@.len(),
            forall|q: int| 0 <= q < j ==> !is_node_at(tree@[q], p.deep_view()),
        decreases tree@.len() - j,
    {
        let matched = match &tree[j] {
            Tree::Node(node) => path_eq(&node.path, p),
            Tree::Leaf(_) => false,
        };
        if matched {
            return Some(j);
        }
        j = j + 1;
    }
    None
}

/// Whether two component paths are the same path.
fn path_eq(a: &Vec<String>, b: &Vec<String>) -> (r: bool)
    ensures
        r == (a.deep_view() == b.deep_view()),
{
    if a.len() != b.len() {
        assert(a.deep_view().len() != b.deep_view().len());
        return false;
    }
    let mut i: usize = 0;
    while i < a.len()
        invariant
            i <= a@.len(),
            a@.len() == b@.len(),
            forall|q: int| 0 <= q < i ==> a.deep_view()[q] == b.deep_view()[q],
        decreases a@.len() - i,
    {
        if a[i] != b[i] {
            assert(a.deep_view()[i as int] != b.deep_view()[i as int]);
            return false;
        }
        i = i + 1;
    }
    proof {
        assert(a.deep_view() =~= b.deep_view());
    }
    true
}

/// The display name of a component path: its last component.
fn last_name(p: &Vec<String>) -> (s: String)
    ensures
        p@.len() > 0 ==> s@ == p.deep_view().last(),
        p@.len() == 0 ==> s@ == Seq::<char>::empty(),
{
    if p.len() > 0 {
        p[p.len() - 1].clone()
    } else {
        String::new()
    }
}

/// Merges one leaf into the forest, descending along `ancestors` — the
/// leaf's directory prefixes, innermost first, outermost last.  Each step
/// takes the outermost remaining prefix: the first node already standing at
/// it is descended into; where none stands, the whole remaining chain is
/// built afresh around the leaf and planted.  The forest's records grow by
/// exactly the leaf's record.
pub fn merge_tree(tree: &mut Vec<Tree>, ancestors: Vec<Vec<String>>, leaf: Leaf)
    ensures
        forest_records(final(tree)@) == forest_records(old(tree)@).insert(
            (leaf.path.deep_view(), leaf.size),
        ),
        ancestors@.len() == 0 ==> final(tree)@ == old(tree)@.push(Tree::Leaf(leaf)),
        ancestors@.len() > 0 && has_node_at(old(tree)@, ancestors.deep_view().last())
            ==> final(tree)@.len() == old(tree)@.len(),
        ancestors@.len() > 0 && !has_node_at(old(tree)@, ancestors.deep_view().last())
            ==> final(tree)@.len() == old(tree)@.len() + 1,
    decreases ancestors@.len(),
{
    broadcast use vstd::multiset::group_multiset_axioms;

    let ghost lrec = (leaf.path.deep_view(), leaf.size);
    let mut anc = ancestors;
    let popped = anc.pop();
    match popped {
        None => {
            tree.push(Tree::Leaf(leaf));
            proof {
                lemma_forest_push(old(tree)@, final(tree)@.last());
                assert(forest_records(final(tree)@) =~= forest_records(old(tree)@).insert(lrec));
            }
        },
        Some(outermost) => {
            let found = find_node(tree, &outermost);
            match found {
                Some(j) => {
                    let sub = tree.remove(j);
                    proof {
                        lemma_forest_remove(old(tree)@, j as int);
                    }
                    match sub {
                        Tree::Node(node) => {
                            let mut node = node;
                            let ghost mid = tree@;
                            let ghost children0 = node.children@;
                            merge_tree(&mut node.children, anc, leaf);
                            proof {
                                assert(tree_records(Tree::Node(node)) == forest_records(
                                    node.children@,
                                ));
                            }
                            let ghost sub_rec = tree_records(Tree::Node(node));
                            tree.insert(j, Tree::Node(node));
                            proof {
                                lemma_forest_insert(mid, j as int, final(tree)@[j as int]);
                                assert(forest_records(final(tree)@) =~= forest_records(
                                    old(tree)@,
                                ).insert(lrec));
                            }
                        },
                        Tree::Leaf(l) => {
                            proof {
                                assert(false);
                            }
                            tree.insert(j, Tree::Leaf(l));
                        },
                    }
                },
                None => {
                    // No node stands at the outermost prefix: build the
                    // remaining chain around the leaf, innermost out.
                    let mut acc = Tree::Leaf(leaf);
                    proof {
                        assert(tree_records(acc) == Multiset::empty().insert(lrec));
                    }
                    while anc.len() > 0
                        invariant
                            tree_records(acc) == Multiset::<(Seq<Seq<char>>, u64)>::empty().insert(
                                lrec,
                            ),
                        decreases anc@.len(),
                    {
                        let p = anc.remove(0);
                        let name = last_name(&p);
                        let ghost acc0 = acc;
                        acc = Tree::Node(Node { name, path: p, children: vec![acc] });
                        proof {
                            assert(acc->Node_0.children@ =~= seq![acc0]);
                            assert(tree_records(acc) == forest_upto(seq![acc0], 1));
                            assert(forest_upto(seq![acc0], 1) == forest_upto(seq![acc0], 0).add(
                                tree_records(acc0),
                            ));
                            assert(tree_records(acc) =~= Multiset::<(Seq<Seq<char>>,
                                u64)>::empty().insert(lrec));
                        }
                    }
                    let name = last_name(&outermost);
                    let ghost acc1 = acc;
                    let planted = Tree::Node(Node { name, path: outermost, children: vec![acc] });
                    proof {
                        assert(planted->Node_0.children@ =~= seq![acc1]);
                        assert(tree_records(planted) == forest_upto(seq![acc1], 1));
                        assert(forest_upto(seq![acc1], 1) == forest_upto(seq![acc1], 0).add(
                            tree_records(acc1),
                        ));
                    }
                    tree.push(planted);
                    proof {
                        lemma_forest_push(old(tree)@, final(tree)@.last());
                        assert(forest_records(final(tree)@) =~= forest_records(
                            old(tree)@,
                        ).insert(lrec));
                    }
                },
            }
        },
    }
}

/// The records of a batch of `(path, size)` pairs.
pub open spec fn rec_views(s: Seq<(Vec<String>, u64)>) -> Seq<(Seq<Seq<char>>, u64)> {
    s.map_values(|e: (Vec<String>, u64)| (e.0.deep_view(), e.1))
}

/// The records a batch adds when folded in order into a forest that has
/// already absorbed the paths in `seen`: each record whose path is new at
/// its turn counts once; later duplicates count nothing.
pub open spec fn folded_records(
    entries: Seq<(Seq<Seq<char>>, u64)>,
    seen: Seq<Seq<Seq<char>>>,
) -> Multiset<(Seq<Seq<char>>, u64)>
    decreases entries.len(),
{
    if entries.len() == 0 {
        Multiset::empty()
    } else if seen.contains(entries.first().0) {
        folded_records(entries.drop_first(), seen)
    } else {
        folded_records(entries.drop_first(), seen.push(entries.first().0)).insert(entries.first())
    }
}

/// The absorbed paths after folding a batch in order into `seen`.
pub open spec fn folded_seen(
    entries: Seq<(Seq<Seq<char>>, u64)>,
    seen: Seq<Seq<Seq<char>>>,
) -> Seq<Seq<Seq<char>>>
    decreases entries.len(),
{
    if entries.len() == 0 {
        seen
    } else if seen.contains(entries.first().0) {
        folded_seen(entries.drop_first(), seen)
    } else {
        folded_seen(entries.drop_first(), seen.push(entries.first().0))
    }
}

/// Whether a path was already absorbed.
fn seen_contains(seen: &Vec<Vec<String>>, p: &Vec<String>) -> (r: bool)
    ensures
        r == seen.deep_view().contains(p.deep_view()),
{
    let mut j: usize = 0;
    while j < seen.len()
        invariant
            j <= seen@.len(),
            forall|q: int| 0 <= q < j ==> seen.deep_view()[q] != p.deep_view(),
        decreases seen@.len() - j,
    {
        if path_eq(&seen[j], p) {
            assert(seen.deep_view()[j as int] == p.deep_view());
            return true;
        }
        j = j + 1;
    }
    assert(!seen.deep_view().contains(p.deep_view()));
    false
}

/// Folds a batch of scan records into the display forest, skipping every
/// path absorbed before — by an earlier batch or earlier in this one — so
/// that a record delivered once is counted once: the forest's records grow
/// by exactly the batch's fresh records, and `seen` absorbs their paths.
pub fn add_file_entries(
    forest: &mut Vec<Tree>,
    seen: &mut Vec<Vec<String>>,
    entries: Vec<(Vec<String>, u64)>,
)
    ensures
        forest_records(final(forest)@) == forest_records(old(forest)@).add(
            folded_records(rec_views(entries@), old(seen).deep_view()),
        ),
        final(seen).deep_view() == folded_seen(rec_views(entries@), old(seen).deep_view()),
{
    broadcast use vstd::multiset::group_multiset_axioms;

    let ghost f0 = forest@;
    let ghost s0 = seen.deep_view();
    let ghost all = rec_views(entries@);
    let mut i: usize = 0;
    proof {
        assert(entries@.skip(0) =~= entries@);
    }
    while i < entries.len()
        invariant
            i <= entries@.len(),
            forest_records(forest@).add(
                folded_records(rec_views(entries@.skip(i as int)), seen.deep_view()),
            ) == forest_records(f0).add(folded_records(all, s0)),
            folded_seen(rec_views(entries@.skip(i as int)), seen.deep_view()) == folded_seen(
                all,
                s0,
            ),
        decreases entries@.len() - i,
    {
        let ghost k = i as int;
        let ghost rem = rec_views(entries@.skip(k));
        let ghost rem_next = rec_views(entries@.skip(k + 1));
        proof {
            assert(rem.drop_first() =~= rem_next);
            assert(rem.first() == (entries@[k].0.deep_view(), entries@[k].1));
        }
        let p = &entries[i].0;
        let size = entries[i].1;
        if !seen_contains(seen, p) {
            let ghost fr = forest@;
            let ghost sr = seen.deep_view();
            let to_insert = path_prefix(p, p.len());
            let to_remember = path_prefix(p, p.len());
            proof {
                assert(to_insert@ =~= p@);
                assert(to_remember@ =~= p@);
            }
            insert_to_tree(forest, to_insert, size);
            seen.push(to_remember);
            proof {
                assert(seen.deep_view() =~= sr.push(p.deep_view()));
                assert(folded_records(rem, sr) == folded_records(rem_next, sr.push(
                    rem.first().0,
                )).insert(rem.first()));
                assert(forest_records(forest@).add(folded_records(rem_next, seen.deep_view()))
                    =~= forest_records(fr).add(folded_records(rem, sr)));
            }
        }
        i = i + 1;
    }
    proof {
        assert(rec_views(entries@.skip(entries@.len() as int)) =~= Seq::<(Seq<Seq<char>>,
            u64)>::empty());
        assert(forest_records(forest@).add(Multiset::empty()) =~= forest_records(forest@));
    }
}

/// A prefix of a component path, as its own path.
fn path_prefix(p: &Vec<String>, l: usize) -> (r: Vec<String>)
    requires
        l <= p@.len(),
    ensures
        r@ == p@.take(l as int),
{
    let mut r: Vec<String> = Vec::new();
    let mut q: usize = 0;
    while q < l
        invariant
            q <= l <= p@.len(),
            r@ =~= p@.take(q as int),
        decreases l - q,
    {
        r.push(p[q].clone());
        proof {
            assert(r@ =~= p@.take(q as int + 1));
        }
        q = q + 1;
    }
    r
}

/// Folds one scan record into the display forest: the leaf goes under its
/// chain of directory prefixes, reusing the nodes already standing and
/// building the missing ones.  The forest's records grow by exactly this
/// record.
pub fn insert_to_tree(tree: &mut Vec<Tree>, path: Vec<String>, size: u64)
    ensures
        forest_records(final(tree)@) == forest_records(old(tree)@).insert(
            (path.deep_view(), size),
        ),
{
    let mut ancestors: Vec<Vec<String>> = Vec::new();
    let mut m: usize = 1;
    while m < path.len()
        invariant
            1 <= m,
        decreases path@.len() - m,
    {
        ancestors.push(path_prefix(&path, path.len() - m));
        m = m + 1;
    }
    let name = last_name(&path);
    let leaf = Leaf { name, path, size };
    merge_tree(tree, ancestors, leaf);
}

} // verus!
