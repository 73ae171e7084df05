//! A directory tree as a value.
//!
//! A scan reads the filesystem through listings and metadata; to state what a
//! whole scan delivers, that filesystem is described as a snapshot value: a
//! tree of nodes, each child carrying the full path that a listing would
//! report for it.  A node is a regular file with a size, a readable directory
//! with its children, or a directory whose listing is denied.
//!
//! The spec functions below give the quantities a scan is measured against:
//! the multiset of `(path, size)` records of every reachable regular file,
//! their total byte size, and whether every reachable directory is readable.
//! A file below a denied directory is not reachable: no listing can ever
//! surface it.

use vstd::multiset::Multiset;
use vstd::prelude::*;

verus! {

/// One child of a directory: the full path a listing reports for it, and the
/// subtree behind that path.
pub struct FsChild {
    pub path: String,
    pub node: FsNode,
}

/// A snapshot of one filesystem object.
pub enum FsNode {
    /// A regular-file-like object and its reported byte length.
    File { size: u64 },
    /// A directory whose listing succeeds, with the children it reports.
    Dir { children: Vec<FsChild> },
    /// A directory whose listing is denied (permission error).
    Denied,
}

impl FsNode {
    /// What the object's metadata reports as `is_dir`: true for a directory,
    /// readable or not, false for a file.
    pub fn is_dir(&self) -> (b: bool)
        ensures
            b == (*self is Dir || *self is Denied),
    {
        match self {
            FsNode::File { .. } => false,
            FsNode::Dir { .. } => true,
            FsNode::Denied => true,
        }
    }

    /// What the object's metadata reports as its byte length: a file's size;
    /// for a directory the value is representation-defined, here zero.
    pub fn size(&self) -> (n: u64)
        ensures
            *self matches FsNode::File { size } ==> n == size,
            !(*self is File) ==> n == 0,
    {
        match self {
            FsNode::File { size } => *size,
            FsNode::Dir { .. } => 0,
            FsNode::Denied => 0,
        }
    }
}

/// The multiset of `(path, size)` records of every regular file reachable
/// from a node that stands at `path`.  Nothing below a denied directory is
/// reachable.
pub open spec fn files_of(path: Seq<char>, t: FsNode) -> Multiset<(Seq<char>, u64)>
    decreases t, 0int,
{
    match t {
        FsNode::File { size } => Multiset::empty().insert((path, size)),
        FsNode::Dir { children } => files_upto(children@, children@.len() as int),
        FsNode::Denied => Multiset::empty(),
    }
}

/// The records reachable through the first `i` children of a listing.
pub open spec fn files_upto(cs: Seq<FsChild>, i: int) -> Multiset<(Seq<char>, u64)>
    decreases cs, i,
{
    if i <= 0 || i > cs.len() {
        Multiset::empty()
    } else {
        files_upto(cs, i - 1).add(child_files(cs[i - 1]))
    }
}

/// The records reachable through one child.
pub open spec fn child_files(c: FsChild) -> Multiset<(Seq<char>, u64)>
    decreases c, 0int,
{
    files_of(c.path@, c.node)
}

/// The total byte size of every regular file reachable from a node.
pub open spec fn tree_size(t: FsNode) -> int
    decreases t, 0int,
{
    match t {
        FsNode::File { size } => size as int,
        FsNode::Dir { children } => size_upto(children@, children@.len() as int),
        FsNode::Denied => 0,
    }
}

/// The total byte size reachable through the first `i` children of a listing.
pub open spec fn size_upto(cs: Seq<FsChild>, i: int) -> int
    decreases cs, i,
{
    if i <= 0 || i > cs.len() {
        0
    } else {
        size_upto(cs, i - 1) + child_size(cs[i - 1])
    }
}

/// The total byte size reachable through one child.
pub open spec fn child_size(c: FsChild) -> int
    decreases c, 0int,
{
    tree_size(c.node)
}

/// The number of filesystem objects in a snapshot: the measure by which a
/// worklist of subtrees still to be walked shrinks as a scan proceeds.
pub open spec fn weight(t: FsNode) -> nat
    decreases t, 0int,
{
    match t {
        FsNode::File { .. } => 1,
        FsNode::Dir { children } => 1 + weight_upto(children@, children@.len() as int),
        FsNode::Denied => 1,
    }
}

/// The number of objects reachable through the first `i` children of a
/// listing.
pub open spec fn weight_upto(cs: Seq<FsChild>, i: int) -> nat
    decreases cs, i,
{
    if i <= 0 || i > cs.len() {
        0
    } else {
        weight_upto(cs, i - 1) + child_weight(cs[i - 1])
    }
}

/// The number of objects reachable through one child.
pub open spec fn child_weight(c: FsChild) -> nat
    decreases c, 0int,
{
    weight(c.node)
}

/// Whether every directory reachable from the node can be listed.  A scan of
/// a readable tree completes without error; one that reaches a denied
/// directory fails.
pub open spec fn readable(t: FsNode) -> bool
    decreases t,
{
    match t {
        FsNode::File { .. } => true,
        FsNode::Dir { children } => forall|j: int|
            0 <= j < children@.len() ==> readable(#[trigger] children@[j].node),
        FsNode::Denied => false,
    }
}

/// Records reachable through a prefix of a listing are among those reachable
/// through a longer prefix.
pub proof fn lemma_files_upto_mono(cs: Seq<FsChild>, i: int, j: int)
    requires
        0 <= i <= j <= cs.len(),
    ensures
        files_upto(cs, i).subset_of(files_upto(cs, j)),
        size_upto(cs, i) <= size_upto(cs, j),
    decreases j - i,
{
    broadcast use vstd::multiset::group_multiset_axioms;

    if i < j {
        lemma_files_upto_mono(cs, i, j - 1);
        lemma_tree_size_nonneg(cs[j - 1].node);
        assert(child_size(cs[j - 1]) == tree_size(cs[j - 1].node));
        assert(size_upto(cs, j) == size_upto(cs, j - 1) + child_size(cs[j - 1]));
        assert forall|x: (Seq<char>, u64)|
            files_upto(cs, i).count(x) <= files_upto(cs, j).count(x) by {
            assert(files_upto(cs, i).count(x) <= files_upto(cs, j - 1).count(x));
        }
    }
}

/// The total byte size of a tree is never negative.
pub proof fn lemma_tree_size_nonneg(t: FsNode)
    ensures
        tree_size(t) >= 0,
    decreases t, 0int,
{
    match t {
        FsNode::Dir { children } => {
            lemma_size_upto_nonneg(children@, children@.len() as int);
        },
        _ => {},
    }
}

/// The byte size reachable through any prefix of a listing is never negative.
pub proof fn lemma_size_upto_nonneg(cs: Seq<FsChild>, i: int)
    requires
        i <= cs.len(),
    ensures
        size_upto(cs, i) >= 0,
    decreases cs, i,
{
    if i > 0 {
        lemma_size_upto_nonneg(cs, i - 1);
        lemma_tree_size_nonneg(cs[i - 1].node);
        assert(child_size(cs[i - 1]) == tree_size(cs[i - 1].node));
        assert(size_upto(cs, i) == size_upto(cs, i - 1) + child_size(cs[i - 1]));
    }
}

} // verus!
