//! The incremental scan state machine.
//!
//! A host program drives a `Scanner` against a real filesystem: it asks for a
//! directory to list (`take_work`), performs the listing and the metadata
//! reads — concurrently for as many directories as it likes — and hands each
//! result back (`on_listing`, `on_error`).  The scanner is the merge point:
//! it classifies the listed children, returns the file records to deliver,
//! queues the subdirectories for their own walks, and holds the first error,
//! after which it hands out no further work and emits nothing more.

use vstd::prelude::*;

use crate::entry::{classify_entry, entry_views, DirEntry, Entry, FileEntry, ScanError};

verus! {

/// One listed child as the host reports it: the full path the listing gave,
/// and the metadata read for it.
pub struct ChildMeta {
    pub path: String,
    pub is_dir: bool,
    pub size: u64,
}

/// The paths of a sequence of directory entries.
pub open spec fn pending_paths(s: Seq<DirEntry>) -> Seq<Seq<char>> {
    s.map_values(|d: DirEntry| d@)
}

/// The records of the file children of a listing, in listing order.
pub open spec fn listed_files(cs: Seq<ChildMeta>) -> Seq<(Seq<char>, u64)>
    decreases cs.len(),
{
    if cs.len() == 0 {
        Seq::empty()
    } else {
        listed_files(cs.drop_last()) + if cs.last().is_dir {
            Seq::empty()
        } else {
            seq![(cs.last().path@, cs.last().size)]
        }
    }
}

/// The paths of the directory children of a listing, in listing order.
pub open spec fn listed_dirs(cs: Seq<ChildMeta>) -> Seq<Seq<char>>
    decreases cs.len(),
{
    if cs.len() == 0 {
        Seq::empty()
    } else {
        listed_dirs(cs.drop_last()) + if cs.last().is_dir {
            seq![cs.last().path@]
        } else {
            Seq::empty()
        }
    }
}

/// The state of one scan.
///
/// `pending` holds every directory discovered but not yet handed out;
/// `in_flight` counts the listings handed out whose result has not come
/// back; `error` holds the first error reported, which is terminal.  The
/// scan is over once an error holds or both `pending` and `in_flight` are
/// exhausted.
pub struct Scanner {
    pub pending: Vec<DirEntry>,
    pub in_flight: usize,
    pub error: Option<ScanError>,
}

impl Scanner {
    /// Starts a scan of `root`: one directory to list, nothing in flight,
    /// no error.
    pub fn new(root: String) -> (s: Scanner)
        ensures
            pending_paths(s.pending@) == seq![root@],
            s.in_flight == 0,
            s.error is None,
    {
        let mut pending: Vec<DirEntry> = Vec::new();
        pending.push(DirEntry { path: root });
        let s = Scanner { pending, in_flight: 0, error: None };
        proof {
            assert(pending_paths(s.pending@) =~= seq![s.pending@[0]@]);
        }
        s
    }

    /// Hands out one directory to list, if any is pending and the scan has
    /// not failed; the caller owes the scanner exactly one `on_listing` or
    /// `on_error` for it.  After a failure nothing more is handed out.
    pub fn take_work(&mut self) -> (w: Option<DirEntry>)
        requires
            old(self).in_flight < usize::MAX,
        ensures
            old(self).error is Some || old(self).pending@.len() == 0 ==> {
                &&& w is None
                &&& final(self).pending@ == old(self).pending@
                &&& final(self).in_flight == old(self).in_flight
                &&& final(self).error == old(self).error
            },
            old(self).error is None && old(self).pending@.len() > 0 ==> {
                &&& w == Some(old(self).pending@.last())
                &&& final(self).pending@ == old(self).pending@.drop_last()
                &&& final(self).in_flight == old(self).in_flight + 1
                &&& final(self).error == old(self).error
            },
    {
        if self.error.is_some() {
            return None;
        }
        let w = self.pending.pop();
        if w.is_some() {
            self.in_flight = self.in_flight + 1;
        }
        w
    }

    /// Takes the result of one successful listing.  While no error holds,
    /// the file children become the records to deliver, in listing order,
    /// and the directory children join the pending queue; after a failure
    /// the result is discarded — nothing is delivered and nothing queued.
    pub fn on_listing(&mut self, listing: Vec<ChildMeta>) -> (out: Vec<FileEntry>)
        requires
            old(self).in_flight >= 1,
        ensures
            final(self).in_flight == old(self).in_flight - 1,
            final(self).error == old(self).error,
            old(self).error is Some ==> out@.len() == 0 && final(self).pending@ == old(
                self,
            ).pending@,
            old(self).error is None ==> {
                &&& entry_views(out@) == listed_files(listing@)
                &&& pending_paths(final(self).pending@) == pending_paths(old(self).pending@)
                    + listed_dirs(listing@)
            },
    {
        self.in_flight = self.in_flight - 1;
        let mut out: Vec<FileEntry> = Vec::new();
        if self.error.is_some() {
            return out;
        }
        let ghost pending0 = pending_paths(self.pending@);
        let mut i: usize = 0;
        proof {
            assert(entry_views(out@) =~= listed_files(listing@.subrange(0, 0)));
            assert(pending_paths(self.pending@) =~= pending0 + listed_dirs(
                listing@.subrange(0, 0),
            ));
        }
        while i < listing.len()
            invariant
                i <= listing@.len(),
                self.in_flight == old(self).in_flight - 1,
                self.error == old(self).error,
                entry_views(out@) == listed_files(listing@.subrange(0, i as int)),
                pending_paths(self.pending@) == pending0 + listed_dirs(
                    listing@.subrange(0, i as int),
                ),
            decreases listing@.len() - i,
        {
            let ghost k = i as int;
            let child = &listing[i];
            let e = classify_entry(child.path.clone(), child.is_dir, child.size);
            let ghost out0 = out@;
            let ghost q0 = self.pending@;
            match e {
                Entry::File(f) => out.push(f),
                Entry::Dir(d) => self.pending.push(d),
            }
            proof {
                let pre = listing@.subrange(0, k);
                let post = listing@.subrange(0, k + 1);
                assert(post.drop_last() =~= pre);
                assert(post.last() == listing@[k]);
                if listing@[k].is_dir {
                    assert(entry_views(out@) =~= listed_files(post));
                    assert(pending_paths(self.pending@) =~= pending_paths(q0).push(
                        listing@[k].path@,
                    ));
                    assert(pending_paths(self.pending@) =~= pending0 + listed_dirs(post));
                } else {
                    assert(entry_views(out@) =~= entry_views(out0).push(
                        (listing@[k].path@, listing@[k].size),
                    ));
                    assert(entry_views(out@) =~= listed_files(post));
                    assert(pending_paths(self.pending@) =~= pending0 + listed_dirs(post));
                }
            }
            i = i + 1;
        }
        proof {
            assert(listing@.subrange(0, listing@.len() as int) =~= listing@);
        }
        out
    }

    /// Takes the failure of one listing or metadata read.  The first error
    /// reported becomes the scan's terminal error; later ones are discarded.
    pub fn on_error(&mut self, e: ScanError)
        requires
            old(self).in_flight >= 1,
        ensures
            final(self).in_flight == old(self).in_flight - 1,
            final(self).pending@ == old(self).pending@,
            old(self).error is None ==> final(self).error == Some(e),
            old(self).error is Some ==> final(self).error == old(self).error,
    {
        self.in_flight = self.in_flight - 1;
        if self.error.is_none() {
            self.error = Some(e);
        }
    }

    /// Whether the scan is over: an error holds, or every discovered
    /// directory has been listed and every result handed back.
    pub fn finished(&self) -> (b: bool)
        ensures
            b == (self.error is Some || (self.pending@.len() == 0 && self.in_flight == 0)),
    {
        self.error.is_some() || (self.pending.len() == 0 && self.in_flight == 0)
    }
}

} // verus!
