//! The walk of a volume, folder by folder.
//!
//! The program lists folders, on as many threads as it likes, and hands each listing
//! over. Sizes are not rolled up here: only the parent, the size and the date of each
//! entry are kept. A folder gets its number before its children do, so a parent's
//! number is always smaller than its child's.

use crate::aggregate;
use crate::laws;
use crate::path;
use crate::records;
use crate::records::{DirRec, FileRec, Unreadable};
use crate::snapshot::Snapshot;
use vstd::prelude::*;

verus! {

/// Attribute of junctions, symbolic links and mount points. They are neither counted
/// nor followed: that would count twice, and could go round in circles.
pub const REPARSE_POINT: u32 = 0x400;

/// From this depth on, folders are walked one after the other.
pub const PAR_DEPTH: u32 = 16;

/// How many unreadable folders are kept by name.
pub const MAX_UNREADABLE: usize = 500;

/// The system's code for a lack of rights.
pub const ACCESS_DENIED: i32 = 5;

/// How far a walk is.
#[derive(Clone, Copy, Debug)]
pub struct Progress {
    pub dirs: u64,
    pub files: u64,
    pub errors: u64,
    pub cancel: bool,
}

impl Progress {
    pub fn new() -> (p: Progress)
        ensures
            p == (Progress { dirs: 0, files: 0, errors: 0, cancel: false }),
    {
        Progress { dirs: 0, files: 0, errors: 0, cancel: false }
    }
}

/// What was seen of one entry of a folder.
#[derive(Clone, Debug)]
pub enum Seen {
    /// The entry, or what the system says of it, could not be read.
    Lost,
    Entry { name: String, attributes: u32, is_dir: bool, size: u64, mtime: i64 },
}

/// What came of listing a folder.
#[derive(Clone, Debug)]
pub enum Listing {
    /// The folder could not be listed; the system's code, where there is one.
    Refused(Option<i32>),
    Entries(Vec<Seen>),
}

impl Listing {
    /// How many entries came.
    pub open spec fn size(self) -> nat {
        match self {
            Listing::Refused(_) => 0,
            Listing::Entries(es) => es@.len(),
        }
    }
}

/// The entry is a folder to walk.
pub open spec fn is_folder(e: Seen) -> bool {
    e matches Seen::Entry { attributes, is_dir, .. } && attributes & REPARSE_POINT == 0 && is_dir
}

/// The entry is a file to count.
pub open spec fn is_file(e: Seen) -> bool {
    e matches Seen::Entry { attributes, is_dir, .. } && attributes & REPARSE_POINT == 0 && !is_dir
}

/// The folders, once the first `k` entries of folder `id` are taken in: each new one
/// gets the next number.
pub open spec fn dirs_with(dirs: Seq<DirRec>, id: u32, es: Seq<Seen>, k: int) -> Seq<DirRec>
    decreases k,
{
    if k <= 0 {
        dirs
    } else {
        let before = dirs_with(dirs, id, es, k - 1);
        match es[k - 1] {
            Seen::Entry { name, attributes, is_dir, size, mtime } => if is_folder(es[k - 1]) {
                before.push(
                    DirRec { id: before.len() as u32, parent: id, name, own_mtime: mtime },
                )
            } else {
                before
            },
            Seen::Lost => before,
        }
    }
}

/// The files, once the first `k` entries of folder `id` are taken in.
pub open spec fn files_with(files: Seq<FileRec>, id: u32, es: Seq<Seen>, k: int) -> Seq<FileRec>
    decreases k,
{
    if k <= 0 {
        files
    } else {
        let before = files_with(files, id, es, k - 1);
        match es[k - 1] {
            Seen::Entry { name, attributes, is_dir, size, mtime } => if is_file(es[k - 1]) {
                before.push(FileRec { parent: id, name, size, mtime })
            } else {
                before
            },
            Seen::Lost => before,
        }
    }
}

/// How many of the first `k` entries are lost.
pub open spec fn lost(es: Seq<Seen>, k: int) -> nat
    decreases k,
{
    if k <= 0 {
        0
    } else {
        lost(es, k - 1) + if es[k - 1] is Lost {
            1nat
        } else {
            0
        }
    }
}

/// The folders to walk next among the first `k` entries: their numbers, the first one
/// being `n`, and their places among the entries.
pub open spec fn next_dirs(n: int, es: Seq<Seen>, k: int) -> Seq<(u32, usize)>
    decreases k,
{
    if k <= 0 {
        Seq::empty()
    } else {
        let before = next_dirs(n, es, k - 1);
        if is_folder(es[k - 1]) {
            before.push(((n + before.len()) as u32, (k - 1) as usize))
        } else {
            before
        }
    }
}

proof fn lemma_with_lens(
    dirs: Seq<DirRec>,
    files: Seq<FileRec>,
    id: u32,
    es: Seq<Seen>,
    k: int,
)
    requires
        0 <= k,
    ensures
        dirs.len() <= dirs_with(dirs, id, es, k).len() <= dirs.len() + k,
        files.len() <= files_with(files, id, es, k).len() <= files.len() + k,
        next_dirs(dirs.len() as int, es, k).len() == dirs_with(dirs, id, es, k).len() - dirs.len(),
        lost(es, k) <= k,
    decreases k,
{
    if k > 0 {
        lemma_with_lens(dirs, files, id, es, k - 1);
    }
}

/// What a walk has recorded so far.
pub struct ScanState {
    pub dirs: Vec<DirRec>,
    pub files: Vec<FileRec>,
    pub prog: Progress,
    pub unreadable: Vec<Unreadable>,
    pub unreadable_total: u64,
    pub unreadable_droits: u64,
    pub skipped: u64,
}

impl ScanState {
    /// Every folder stands at the place of its number; the root comes first and is its
    /// own parent; any other folder comes after its parent; every file lies in a known
    /// folder; the counts of what could not be read agree.
    pub open spec fn wf(self) -> bool {
        &&& 1 <= self.dirs@.len() <= u32::MAX
        &&& self.files@.len() <= u32::MAX
        &&& self.dirs@[0].parent == 0
        &&& forall|i: int| 0 <= i < self.dirs@.len() ==> (#[trigger] self.dirs@[i]).id == i
        &&& forall|i: int| 0 < i < self.dirs@.len() ==> (#[trigger] self.dirs@[i]).parent < i
        &&& forall|j: int|
            0 <= j < self.files@.len() ==> (#[trigger] self.files@[j]).parent < self.dirs@.len()
        &&& self.prog.errors == self.unreadable_total + self.skipped
        &&& self.unreadable_droits <= self.unreadable_total
        &&& self.unreadable@.len() == if self.unreadable_total <= MAX_UNREADABLE {
            self.unreadable_total as nat
        } else {
            MAX_UNREADABLE as nat
        }
    }

    /// A listing of `n` entries can be taken in: numbers have four bytes, counters eight.
    pub open spec fn room(self, n: nat) -> bool {
        &&& self.dirs@.len() + n <= u32::MAX
        &&& self.files@.len() + n <= u32::MAX
        &&& self.prog.errors + n < u64::MAX
        &&& self.prog.files + n <= u64::MAX
        &&& self.prog.dirs < u64::MAX
    }

    pub fn has_room(&self, n: usize) -> (r: bool)
        ensures
            r == self.room(n as nat),
    {
        self.dirs.len() as u128 + n as u128 <= u32::MAX as u128 && self.files.len() as u128
            + n as u128 <= u32::MAX as u128 && (self.prog.errors as u128 + n as u128)
            < u64::MAX as u128 && self.prog.files as u128 + n as u128 <= u64::MAX as u128
            && self.prog.dirs < u64::MAX
    }

    /// The start of a walk: the root alone.
    pub fn new(display_root: String, root_mtime: i64) -> (s: ScanState)
        ensures
            s.wf(),
            s.dirs@ == seq![
                DirRec { id: 0, parent: 0, name: display_root, own_mtime: root_mtime },
            ],
            s.files@.len() == 0,
            s.prog == (Progress { dirs: 0, files: 0, errors: 0, cancel: false }),
            s.unreadable@.len() == 0,
            s.unreadable_total == 0,
            s.unreadable_droits == 0,
            s.skipped == 0,
    {
        let mut dirs: Vec<DirRec> = Vec::new();
        dirs.push(DirRec { id: 0, parent: 0, name: display_root, own_mtime: root_mtime });
        ScanState {
            dirs,
            files: Vec::new(),
            prog: Progress::new(),
            unreadable: Vec::new(),
            unreadable_total: 0,
            unreadable_droits: 0,
            skipped: 0,
        }
    }

    /// Tells the walk to stop: nothing is recorded any more.
    pub fn cancel(&mut self)
        ensures
            final(self).prog == (Progress { cancel: true, ..old(self).prog }),
            final(self).dirs@ == old(self).dirs@,
            final(self).files@ == old(self).files@,
            final(self).unreadable@ == old(self).unreadable@,
            final(self).unreadable_total == old(self).unreadable_total,
            final(self).unreadable_droits == old(self).unreadable_droits,
            final(self).skipped == old(self).skipped,
            old(self).wf() ==> final(self).wf(),
    {
        self.prog.cancel = true;
    }

    /// Takes in the listing of folder `id`, and says which folders to walk next: their
    /// numbers, and their places among the entries. A walk that was told to stop takes
    /// nothing in and goes nowhere.
    pub fn walk(&mut self, id: u32, listing: &Listing) -> (r: Vec<(u32, usize)>)
        requires
            old(self).wf(),
            old(self).prog.cancel || old(self).room(listing.size()),
            id < old(self).dirs@.len(),
        ensures
            final(self).wf(),
            final(self).prog.cancel == old(self).prog.cancel,
            old(self).prog.cancel ==> r@.len() == 0 && *final(self) == *old(self),
            !old(self).prog.cancel ==> match *listing {
                Listing::Refused(code) => {
                    let droits = code == Some(ACCESS_DENIED);
                    &&& r@.len() == 0
                    &&& final(self).dirs@ == old(self).dirs@
                    &&& final(self).files@ == old(self).files@
                    &&& final(self).prog.dirs == old(self).prog.dirs
                    &&& final(self).prog.files == old(self).prog.files
                    &&& final(self).prog.errors == old(self).prog.errors + 1
                    &&& final(self).skipped == old(self).skipped
                    &&& final(self).unreadable_total == old(self).unreadable_total + 1
                    &&& final(self).unreadable_droits == old(self).unreadable_droits + if droits {
                        1int
                    } else {
                        0
                    }
                    &&& old(self).unreadable@.len() >= MAX_UNREADABLE ==> final(self).unreadable@
                        == old(self).unreadable@
                    &&& old(self).unreadable@.len() < MAX_UNREADABLE ==> {
                        &&& final(self).unreadable@.len() == old(self).unreadable@.len() + 1
                        &&& final(self).unreadable@.drop_last() == old(self).unreadable@
                        &&& final(self).unreadable@.last().path@ == path::path_of(
                            old(self).dirs@,
                            id,
                        )
                        &&& final(self).unreadable@.last().droits == droits
                    }
                },
                Listing::Entries(es) => {
                    let n = es@.len() as int;
                    &&& r@ == next_dirs(old(self).dirs@.len() as int, es@, n)
                    &&& final(self).dirs@ == dirs_with(old(self).dirs@, id, es@, n)
                    &&& final(self).files@ == files_with(old(self).files@, id, es@, n)
                    &&& final(self).prog.dirs == old(self).prog.dirs + 1
                    &&& final(self).prog.files == old(self).prog.files + final(self).files@.len()
                        - old(self).files@.len()
                    &&& final(self).prog.errors == old(self).prog.errors + lost(es@, n)
                    &&& final(self).skipped == old(self).skipped + lost(es@, n)
                    &&& final(self).unreadable_total == old(self).unreadable_total
                    &&& final(self).unreadable_droits == old(self).unreadable_droits
                    &&& final(self).unreadable@ == old(self).unreadable@
                },
            },
    {
        if self.prog.cancel {
            return Vec::new();
        }
        match listing {
            Listing::Refused(code) => {
                let droits = match code {
                    Some(c) => *c == ACCESS_DENIED,
                    None => false,
                };
                if self.unreadable.len() < MAX_UNREADABLE {
                    let path = path::folder_path(&self.dirs, id);
                    let ghost before = self.unreadable@;
                    self.unreadable.push(Unreadable { path, droits });
                    assert(self.unreadable@.drop_last() =~= before);
                }
                self.prog.errors = self.prog.errors + 1;
                self.unreadable_total = self.unreadable_total + 1;
                if droits {
                    self.unreadable_droits = self.unreadable_droits + 1;
                }
                Vec::new()
            },
            Listing::Entries(es) => self.take_entries(id, es),
        }
    }

    fn take_entries(&mut self, id: u32, es: &Vec<Seen>) -> (r: Vec<(u32, usize)>)
        requires
            old(self).wf(),
            old(self).room(es@.len()),
            id < old(self).dirs@.len(),
        ensures
            final(self).wf(),
            final(self).prog.cancel == old(self).prog.cancel,
            r@ == next_dirs(old(self).dirs@.len() as int, es@, es@.len() as int),
            final(self).dirs@ == dirs_with(old(self).dirs@, id, es@, es@.len() as int),
            final(self).files@ == files_with(old(self).files@, id, es@, es@.len() as int),
            final(self).prog.dirs == old(self).prog.dirs + 1,
            final(self).prog.files == old(self).prog.files + final(self).files@.len() - old(
                self,
            ).files@.len(),
            final(self).prog.errors == old(self).prog.errors + lost(es@, es@.len() as int),
            final(self).skipped == old(self).skipped + lost(es@, es@.len() as int),
            final(self).unreadable_total == old(self).unreadable_total,
            final(self).unreadable_droits == old(self).unreadable_droits,
            final(self).unreadable@ == old(self).unreadable@,
    {
        let ghost s0 = *self;
        let mut out: Vec<(u32, usize)> = Vec::new();
        let mut k: usize = 0;
        while k < es.len()
            invariant
                k <= es@.len(),
                s0 == *old(self),
                s0.wf(),
                s0.room(es@.len()),
                id < s0.dirs@.len(),
                self.wf(),
                self.dirs@.len() >= s0.dirs@.len(),
                self.dirs@ == dirs_with(s0.dirs@, id, es@, k as int),
                self.files@ == files_with(s0.files@, id, es@, k as int),
                out@ == next_dirs(s0.dirs@.len() as int, es@, k as int),
                self.prog.cancel == s0.prog.cancel,
                self.prog.dirs == s0.prog.dirs,
                self.prog.files == s0.prog.files + self.files@.len() - s0.files@.len(),
                self.prog.errors == s0.prog.errors + lost(es@, k as int),
                self.skipped == s0.skipped + lost(es@, k as int),
                self.unreadable_total == s0.unreadable_total,
                self.unreadable_droits == s0.unreadable_droits,
                self.unreadable@ == s0.unreadable@,
            decreases es@.len() - k,
        {
            proof {
                lemma_with_lens(s0.dirs@, s0.files@, id, es@, k as int);
            }
            match &es[k] {
                Seen::Lost => {
                    self.prog.errors = self.prog.errors + 1;
                    self.skipped = self.skipped + 1;
                },
                Seen::Entry { name, attributes, is_dir, size, mtime } => {
                    if *attributes & REPARSE_POINT == 0 {
                        if *is_dir {
                            let nid = self.dirs.len() as u32;
                            self.dirs.push(
                                DirRec {
                                    id: nid,
                                    parent: id,
                                    name: name.clone(),
                                    own_mtime: *mtime,
                                },
                            );
                            out.push((nid, k));
                        } else {
                            self.files.push(
                                FileRec {
                                    parent: id,
                                    name: name.clone(),
                                    size: *size,
                                    mtime: *mtime,
                                },
                            );
                            self.prog.files = self.prog.files + 1;
                        }
                    }
                },
            }
            k = k + 1;
        }
        self.prog.dirs = self.prog.dirs + 1;
        out
    }

    /// The end of a walk: the index of what it recorded.
    pub fn scan(self, display_root: String, elapsed_ms: u64, finished_ms: i64) -> (s: Snapshot)
        requires
            self.wf(),
        ensures
            s.wf(),
            s.all_placed(),
            s.root@ == display_root@,
            s.dirs@ == self.dirs@,
            s.files@ == self.files@,
            s.elapsed_ms == elapsed_ms,
            s.finished_ms == finished_ms,
            s.errors == self.prog.errors,
            s.unreadable@ == self.unreadable@,
            s.unreadable_total == self.unreadable_total,
            s.unreadable_droits == self.unreadable_droits,
            s.skipped == self.skipped,
            forall|i: int| 0 < i < s.dirs@.len() ==> (#[trigger] s.dirs@[i]).parent < i,
            s.count@[0] == s.files@.len(),
            s.size@[0] == aggregate::wrapped(laws::all_bytes(s.files@)),
            s.errors == s.unreadable_total + s.skipped,
            s.unreadable_droits <= s.unreadable_total,
    {
        proof {
            laws::law_root_holds_all(self);
        }
        let ghost ds = self.dirs@;
        let mut s = Snapshot::new(
            display_root,
            self.dirs,
            self.files,
            elapsed_ms,
            self.prog.errors,
            finished_ms,
        );
        assert(s.dirs@ =~= ds) by {
            assert forall|i: int| 0 <= i < ds.len() implies s.dirs@[i] == ds[i] by {
                assert(s.dirs@[ds[i].id as int] == ds[i]);
            }
        }
        s.unreadable = self.unreadable;
        s.unreadable_total = self.unreadable_total;
        s.unreadable_droits = self.unreadable_droits;
        s.skipped = self.skipped;
        assert(s.wf());
        assert(s.size@[0] == aggregate::wrapped(records::subtree_size(s.dirs@, s.files@, 0)));
        assert(s.count@[0] as int == records::subtree_count(s.dirs@, s.files@, 0));
        s
    }
}

/// One job per subfolder, or all of them one after the other: below a certain depth,
/// or for a single folder, a job would cost more than it brings.
pub fn forks(depth: u32, subdirs: usize) -> (r: bool)
    ensures
        r == (depth < 16 && subdirs >= 2),
{
    depth < PAR_DEPTH && subdirs >= 2
}

} // verus!
