//! The binary form of an index, kept on disk between two launches.
//!
//! A file holds, in this order: four bytes of mark, a version, the root, three
//! numbers about the walk, the counts of folders and of files, one record of sixteen
//! bytes per folder, one of twenty-four per file, then all the names. Numbers are
//! little-endian and every text is preceded, in its record, by its length in bytes.

use crate::le;
use crate::records::{DirRec, FileRec};
use crate::snapshot::Snapshot;
use crate::text;
use vstd::prelude::*;
use vstd::utf8;

verus! {

/// Why bytes are not an index.
#[derive(Clone, Copy, Debug, PartialEq, Eq, Structural)]
pub enum LoadError {
    /// The bytes end too soon.
    Eof,
    /// The mark at the start is missing.
    Magic,
    /// Another version of the format.
    Version,
}

impl LoadError {
    /// The message of an error.
    pub fn message(&self) -> (r: &'static str)
        ensures
            r@ == match *self {
                LoadError::Eof => "fin de fichier"@,
                LoadError::Magic => "magic"@,
                LoadError::Version => "version"@,
            },
    {
        match self {
            LoadError::Eof => "fin de fichier",
            LoadError::Magic => "magic",
            LoadError::Version => "version",
        }
    }
}

// ---------------------------- reading: where everything stands ----------------------------

pub open spec fn slice(b: Seq<u8>, at: int, n: int) -> Seq<u8> {
    b.subrange(at, at + n)
}

pub open spec fn u32_at(b: Seq<u8>, at: int) -> u32 {
    le::u32_of(slice(b, at, 4))
}

pub open spec fn u64_at(b: Seq<u8>, at: int) -> u64 {
    le::u64_of(slice(b, at, 8))
}

pub open spec fn i64_at(b: Seq<u8>, at: int) -> i64 {
    le::i64_of(slice(b, at, 8))
}

/// The mark at the start of a file: `DSKM`.
pub open spec fn mark() -> Seq<u8> {
    seq![68u8, 83u8, 75u8, 77u8]
}

pub open spec fn root_len(b: Seq<u8>) -> int {
    u32_at(b, 8) as int
}

/// Where the numbers about the walk start: right behind the root.
pub open spec fn walk_at(b: Seq<u8>) -> int {
    12 + root_len(b)
}

pub open spec fn dir_count(b: Seq<u8>) -> int {
    u32_at(b, walk_at(b) + 24) as int
}

pub open spec fn file_count(b: Seq<u8>) -> int {
    u32_at(b, walk_at(b) + 28) as int
}

/// Where the record of folder `i` starts.
pub open spec fn dir_at(b: Seq<u8>, i: int) -> int {
    walk_at(b) + 32 + 16 * i
}

/// Where the record of file `j` starts.
pub open spec fn file_at(b: Seq<u8>, j: int) -> int {
    dir_at(b, dir_count(b)) + 24 * j
}

pub open spec fn dir_name_len(b: Seq<u8>, i: int) -> int {
    u32_at(b, dir_at(b, i) + 12) as int
}

pub open spec fn file_name_len(b: Seq<u8>, j: int) -> int {
    u32_at(b, file_at(b, j) + 20) as int
}

/// Where the name of folder `i` starts: names follow each other behind the records.
pub open spec fn dir_name_at(b: Seq<u8>, i: int) -> int
    decreases i,
{
    if i <= 0 {
        file_at(b, file_count(b))
    } else {
        dir_name_at(b, i - 1) + dir_name_len(b, i - 1)
    }
}

/// Where the name of file `j` starts: behind the names of the folders.
pub open spec fn file_name_at(b: Seq<u8>, j: int) -> int
    decreases j,
{
    if j <= 0 {
        dir_name_at(b, dir_count(b))
    } else {
        file_name_at(b, j - 1) + file_name_len(b, j - 1)
    }
}

/// Everything that the counts and lengths announce is there. What may follow is
/// not looked at.
pub open spec fn complete(b: Seq<u8>) -> bool {
    &&& b.len() >= 12
    &&& b.len() >= walk_at(b) + 32
    &&& b.len() >= file_at(b, file_count(b))
    &&& b.len() >= file_name_at(b, file_count(b))
}

/// What is wrong with the bytes of a file, if anything is.
pub open spec fn defect(b: Seq<u8>) -> Option<LoadError> {
    if b.len() < 4 {
        Some(LoadError::Eof)
    } else if b.take(4) != mark() {
        Some(LoadError::Magic)
    } else if b.len() < 8 {
        Some(LoadError::Eof)
    } else if u32_at(b, 4) != 1 {
        Some(LoadError::Version)
    } else if !complete(b) {
        Some(LoadError::Eof)
    } else {
        None
    }
}

/// Folder `i` of a file.
pub open spec fn reads_dir(b: Seq<u8>, i: int, d: DirRec) -> bool {
    &&& d.id == i
    &&& d.parent == u32_at(b, dir_at(b, i))
    &&& d.own_mtime == i64_at(b, dir_at(b, i) + 4)
    &&& d.name@ == text::lossy_text(slice(b, dir_name_at(b, i), dir_name_len(b, i)))
}

/// File `j` of a file.
pub open spec fn reads_file(b: Seq<u8>, j: int, f: FileRec) -> bool {
    &&& f.parent == u32_at(b, file_at(b, j))
    &&& f.size == u64_at(b, file_at(b, j) + 4)
    &&& f.mtime == i64_at(b, file_at(b, j) + 12)
    &&& f.name@ == text::lossy_text(slice(b, file_name_at(b, j), file_name_len(b, j)))
}

/// The index that the bytes of a file hold.
pub open spec fn reads(b: Seq<u8>, s: Snapshot) -> bool {
    &&& s.root@ == text::lossy_text(slice(b, 12, root_len(b)))
    &&& s.finished_ms == i64_at(b, walk_at(b))
    &&& s.elapsed_ms == u64_at(b, walk_at(b) + 8)
    &&& s.errors == u64_at(b, walk_at(b) + 16)
    &&& s.dirs@.len() == dir_count(b)
    &&& s.files@.len() == file_count(b)
    &&& forall|i: int| 0 <= i < s.dirs@.len() ==> reads_dir(b, i, #[trigger] s.dirs@[i])
    &&& forall|j: int| 0 <= j < s.files@.len() ==> reads_file(b, j, #[trigger] s.files@[j])
}

/// A place in a sequence of bytes, moving forward.
pub struct Reader<'a> {
    pub b: &'a [u8],
    pub p: usize,
}

impl<'a> Reader<'a> {
    pub open spec fn wf(self) -> bool {
        self.p <= self.b@.len()
    }

    /// The next `n` bytes.
    pub fn take(&mut self, n: usize) -> (r: Result<&'a [u8], LoadError>)
        requires
            old(self).wf(),
        ensures
            final(self).wf(),
            final(self).b@ == old(self).b@,
            match r {
                Ok(s) => old(self).p + n <= old(self).b@.len() && final(self).p == old(self).p + n
                    && s@ == slice(old(self).b@, old(self).p as int, n as int),
                Err(e) => e == LoadError::Eof && old(self).p + n > old(self).b@.len()
                    && final(self).p == old(self).p,
            },
    {
        if n > self.b.len() - self.p {
            return Err(LoadError::Eof);
        }
        let s = vstd::slice::slice_subrange(self.b, self.p, self.p + n);
        self.p = self.p + n;
        Ok(s)
    }

    pub fn u32(&mut self) -> (r: Result<u32, LoadError>)
        requires
            old(self).wf(),
        ensures
            final(self).wf(),
            final(self).b@ == old(self).b@,
            match r {
                Ok(v) => old(self).p + 4 <= old(self).b@.len() && final(self).p == old(self).p + 4
                    && v == u32_at(old(self).b@, old(self).p as int),
                Err(e) => e == LoadError::Eof && old(self).p + 4 > old(self).b@.len()
                    && final(self).p == old(self).p,
            },
    {
        match self.take(4) {
            Ok(s) => {
                proof {
                    le::lemma_value_bound(s@);
                    le::lemma_powers();
                }
                Ok(le::get(s) as u32)
            },
            Err(e) => Err(e),
        }
    }

    pub fn u64(&mut self) -> (r: Result<u64, LoadError>)
        requires
            old(self).wf(),
        ensures
            final(self).wf(),
            final(self).b@ == old(self).b@,
            match r {
                Ok(v) => old(self).p + 8 <= old(self).b@.len() && final(self).p == old(self).p + 8
                    && v == u64_at(old(self).b@, old(self).p as int),
                Err(e) => e == LoadError::Eof && old(self).p + 8 > old(self).b@.len()
                    && final(self).p == old(self).p,
            },
    {
        match self.take(8) {
            Ok(s) => Ok(le::get(s)),
            Err(e) => Err(e),
        }
    }

    pub fn i64(&mut self) -> (r: Result<i64, LoadError>)
        requires
            old(self).wf(),
        ensures
            final(self).wf(),
            final(self).b@ == old(self).b@,
            match r {
                Ok(v) => old(self).p + 8 <= old(self).b@.len() && final(self).p == old(self).p + 8
                    && v == i64_at(old(self).b@, old(self).p as int),
                Err(e) => e == LoadError::Eof && old(self).p + 8 > old(self).b@.len()
                    && final(self).p == old(self).p,
            },
    {
        match self.take(8) {
            Ok(s) => Ok(le::to_signed(le::get(s))),
            Err(e) => Err(e),
        }
    }
}

/// The record of a folder, before its name is read.
struct DirHead {
    parent: u32,
    own: i64,
    len: usize,
}

/// The record of a file, before its name is read.
struct FileHead {
    parent: u32,
    size: u64,
    mtime: i64,
    len: usize,
}

spec fn head_of_dir(b: Seq<u8>, i: int, h: DirHead) -> bool {
    &&& h.parent == u32_at(b, dir_at(b, i))
    &&& h.own == i64_at(b, dir_at(b, i) + 4)
    &&& h.len == dir_name_len(b, i)
}

spec fn head_of_file(b: Seq<u8>, j: int, h: FileHead) -> bool {
    &&& h.parent == u32_at(b, file_at(b, j))
    &&& h.size == u64_at(b, file_at(b, j) + 4)
    &&& h.mtime == i64_at(b, file_at(b, j) + 12)
    &&& h.len == file_name_len(b, j)
}

proof fn lemma_dir_names_grow(b: Seq<u8>, i: int, k: int)
    requires
        i <= k,
    ensures
        dir_name_at(b, i) <= dir_name_at(b, k),
    decreases k - i,
{
    if i < k {
        lemma_dir_names_grow(b, i, k - 1);
    }
}

proof fn lemma_file_names_grow(b: Seq<u8>, j: int, k: int)
    requires
        j <= k,
    ensures
        file_name_at(b, j) <= file_name_at(b, k),
    decreases k - j,
{
    if j < k {
        lemma_file_names_grow(b, j, k - 1);
    }
}

/// The records of the folders.
fn read_dir_heads(r: &mut Reader, n: u32) -> (h: Result<Vec<DirHead>, LoadError>)
    requires
        old(r).wf(),
        old(r).p == dir_at(old(r).b@, 0),
        n == dir_count(old(r).b@),
    ensures
        final(r).wf(),
        final(r).b@ == old(r).b@,
        match h {
            Ok(v) => final(r).p == dir_at(old(r).b@, n as int) && v@.len() == n && (forall|i: int|
                0 <= i < n ==> head_of_dir(old(r).b@, i, #[trigger] v@[i])),
            Err(e) => e == LoadError::Eof && dir_at(old(r).b@, n as int) > old(r).b@.len(),
        },
{
    let ghost b = r.b@;
    let mut out: Vec<DirHead> = Vec::new();
    let mut i: u32 = 0;
    while i < n
        invariant
            i <= n,
            r.wf(),
            r.b@ == b,
            b == old(r).b@,
            r.p == dir_at(b, i as int),
            out@.len() == i,
            forall|k: int| 0 <= k < i ==> head_of_dir(b, k, #[trigger] out@[k]),
        decreases n - i,
    {
        let parent = match r.u32() {
            Ok(v) => v,
            Err(e) => { return Err(e); },
        };
        let own = match r.i64() {
            Ok(v) => v,
            Err(e) => { return Err(e); },
        };
        let len = match r.u32() {
            Ok(v) => v as usize,
            Err(e) => { return Err(e); },
        };
        out.push(DirHead { parent, own, len });
        i = i + 1;
    }
    Ok(out)
}

/// The records of the files.
fn read_file_heads(r: &mut Reader, n: u32) -> (h: Result<Vec<FileHead>, LoadError>)
    requires
        old(r).wf(),
        old(r).p == file_at(old(r).b@, 0),
        n == file_count(old(r).b@),
    ensures
        final(r).wf(),
        final(r).b@ == old(r).b@,
        match h {
            Ok(v) => final(r).p == file_at(old(r).b@, n as int) && v@.len() == n && (forall|j: int|
                0 <= j < n ==> head_of_file(old(r).b@, j, #[trigger] v@[j])),
            Err(e) => e == LoadError::Eof && file_at(old(r).b@, n as int) > old(r).b@.len(),
        },
{
    let ghost b = r.b@;
    let mut out: Vec<FileHead> = Vec::new();
    let mut j: u32 = 0;
    while j < n
        invariant
            j <= n,
            r.wf(),
            r.b@ == b,
            b == old(r).b@,
            r.p == file_at(b, j as int),
            out@.len() == j,
            forall|k: int| 0 <= k < j ==> head_of_file(b, k, #[trigger] out@[k]),
        decreases n - j,
    {
        let parent = match r.u32() {
            Ok(v) => v,
            Err(e) => { return Err(e); },
        };
        let size = match r.u64() {
            Ok(v) => v,
            Err(e) => { return Err(e); },
        };
        let mtime = match r.i64() {
            Ok(v) => v,
            Err(e) => { return Err(e); },
        };
        let len = match r.u32() {
            Ok(v) => v as usize,
            Err(e) => { return Err(e); },
        };
        out.push(FileHead { parent, size, mtime, len });
        j = j + 1;
    }
    Ok(out)
}

/// The folders, once their records are known.
fn read_dirs(r: &mut Reader, heads: &Vec<DirHead>) -> (d: Result<Vec<DirRec>, LoadError>)
    requires
        old(r).wf(),
        old(r).p == dir_name_at(old(r).b@, 0),
        heads@.len() == dir_count(old(r).b@),
        forall|i: int| 0 <= i < heads@.len() ==> head_of_dir(old(r).b@, i, #[trigger] heads@[i]),
    ensures
        final(r).wf(),
        final(r).b@ == old(r).b@,
        match d {
            Ok(v) => final(r).p == file_name_at(old(r).b@, 0) && v@.len() == heads@.len() && (forall|
                i: int,
            |
                0 <= i < v@.len() ==> reads_dir(old(r).b@, i, #[trigger] v@[i])),
            Err(e) => e == LoadError::Eof && file_name_at(old(r).b@, 0) > old(r).b@.len(),
        },
{
    let ghost b = r.b@;
    let mut out: Vec<DirRec> = Vec::new();
    let mut i: usize = 0;
    while i < heads.len()
        invariant
            i <= heads@.len(),
            r.wf(),
            r.b@ == b,
            b == old(r).b@,
            heads@.len() == dir_count(b),
            forall|k: int| 0 <= k < heads@.len() ==> head_of_dir(b, k, #[trigger] heads@[k]),
            r.p == dir_name_at(b, i as int),
            out@.len() == i,
            forall|k: int| 0 <= k < i ==> reads_dir(b, k, #[trigger] out@[k]),
        decreases heads@.len() - i,
    {
        let h = &heads[i];
        proof {
            assert(head_of_dir(b, i as int, heads@[i as int]));
            lemma_dir_names_grow(b, i + 1, heads@.len() as int);
        }
        let name = match r.take(h.len) {
            Ok(s) => text::from_utf8_lossy(s),
            Err(e) => { return Err(e); },
        };
        out.push(DirRec { id: i as u32, parent: h.parent, name, own_mtime: h.own });
        i = i + 1;
    }
    Ok(out)
}

/// The files, once their records are known.
fn read_files(r: &mut Reader, heads: &Vec<FileHead>) -> (f: Result<Vec<FileRec>, LoadError>)
    requires
        old(r).wf(),
        old(r).p == file_name_at(old(r).b@, 0),
        heads@.len() == file_count(old(r).b@),
        forall|j: int| 0 <= j < heads@.len() ==> head_of_file(old(r).b@, j, #[trigger] heads@[j]),
    ensures
        final(r).wf(),
        final(r).b@ == old(r).b@,
        match f {
            Ok(v) => file_name_at(old(r).b@, heads@.len() as int) <= old(r).b@.len() && v@.len()
                == heads@.len() && (forall|j: int|
                0 <= j < v@.len() ==> reads_file(old(r).b@, j, #[trigger] v@[j])),
            Err(e) => e == LoadError::Eof && file_name_at(old(r).b@, heads@.len() as int) > old(
                r,
            ).b@.len(),
        },
{
    let ghost b = r.b@;
    let mut out: Vec<FileRec> = Vec::new();
    let mut j: usize = 0;
    while j < heads.len()
        invariant
            j <= heads@.len(),
            r.wf(),
            r.b@ == b,
            b == old(r).b@,
            heads@.len() == file_count(b),
            forall|k: int| 0 <= k < heads@.len() ==> head_of_file(b, k, #[trigger] heads@[k]),
            r.p == file_name_at(b, j as int),
            out@.len() == j,
            forall|k: int| 0 <= k < j ==> reads_file(b, k, #[trigger] out@[k]),
        decreases heads@.len() - j,
    {
        let h = &heads[j];
        proof {
            assert(head_of_file(b, j as int, heads@[j as int]));
            lemma_file_names_grow(b, j + 1, heads@.len() as int);
        }
        let name = match r.take(h.len) {
            Ok(s) => text::from_utf8_lossy(s),
            Err(e) => { return Err(e); },
        };
        out.push(FileRec { parent: h.parent, name, size: h.size, mtime: h.mtime });
        j = j + 1;
    }
    Ok(out)
}

fn has_mark(s: &[u8]) -> (r: bool)
    requires
        s@.len() == 4,
    ensures
        r == (s@ == mark()),
{
    let r = s[0] == 68 && s[1] == 83 && s[2] == 75 && s[3] == 77;
    assert(r ==> s@ =~= mark());
    r
}

impl Snapshot {
    /// Reads an index from the bytes of a file.
    #[verifier::rlimit(60)]
    #[verifier::spinoff_prover]
    pub fn load(bytes: &[u8]) -> (r: Result<Snapshot, LoadError>)
        ensures
            match r {
                Ok(s) => {
                    &&& defect(bytes@) is None
                    &&& s.wf()
                    &&& reads(bytes@, s)
                    &&& s.unreadable@.len() == 0
                    &&& s.unreadable_total == 0
                    &&& s.unreadable_droits == 0
                    &&& s.skipped == 0
                },
                Err(e) => defect(bytes@) == Some(e),
            },
    {
        let ghost b = bytes@;
        let mut r = Reader { b: bytes, p: 0 };
        let m = match r.take(4) {
            Ok(s) => s,
            Err(e) => { return Err(e); },
        };
        assert(b.take(4) =~= slice(b, 0, 4));
        if !has_mark(m) {
            return Err(LoadError::Magic);
        }
        let ver = match r.u32() {
            Ok(v) => v,
            Err(e) => { return Err(e); },
        };
        if ver != 1 {
            return Err(LoadError::Version);
        }
        proof {
            if complete(b) {
                lemma_file_names_grow(b, 0, file_count(b));
                lemma_dir_names_grow(b, 0, dir_count(b));
            }
        }
        let len = match r.u32() {
            Ok(v) => v as usize,
            Err(e) => { return Err(e); },
        };
        let root = match r.take(len) {
            Ok(s) => text::from_utf8_lossy(s),
            Err(e) => { return Err(e); },
        };
        let finished_ms = match r.i64() {
            Ok(v) => v,
            Err(e) => { return Err(e); },
        };
        let elapsed_ms = match r.u64() {
            Ok(v) => v,
            Err(e) => { return Err(e); },
        };
        let errors = match r.u64() {
            Ok(v) => v,
            Err(e) => { return Err(e); },
        };
        let n_dirs = match r.u32() {
            Ok(v) => v,
            Err(e) => { return Err(e); },
        };
        let n_files = match r.u32() {
            Ok(v) => v,
            Err(e) => { return Err(e); },
        };
        let dheads = match read_dir_heads(&mut r, n_dirs) {
            Ok(v) => v,
            Err(e) => { return Err(e); },
        };
        let fheads = match read_file_heads(&mut r, n_files) {
            Ok(v) => v,
            Err(e) => { return Err(e); },
        };
        let dirs = match read_dirs(&mut r, &dheads) {
            Ok(v) => v,
            Err(e) => { return Err(e); },
        };
        let files = match read_files(&mut r, &fheads) {
            Ok(v) => v,
            Err(e) => { return Err(e); },
        };
        let ghost ds = dirs@;
        assert forall|i: int| 0 <= i < ds.len() implies (#[trigger] ds[i]).id == i by {
            assert(reads_dir(b, i, ds[i]));
        }
        let s = Snapshot::new(root, dirs, files, elapsed_ms, errors, finished_ms);
        assert forall|i: int| 0 <= i < s.dirs@.len() implies reads_dir(b, i, #[trigger] s.dirs@[i]) by {
            assert(s.dirs@[ds[i].id as int] == ds[i]);
        }
        Ok(s)
    }
}

// ---------------------------- writing ----------------------------

/// The record of a folder.
pub open spec fn dir_record(d: DirRec) -> Seq<u8> {
    le::bytes(d.parent as nat, 4) + le::bytes(le::unsigned(d.own_mtime), 8) + le::bytes(
        utf8::encode_utf8(d.name@).len(),
        4,
    )
}

/// The record of a file.
pub open spec fn file_record(f: FileRec) -> Seq<u8> {
    le::bytes(f.parent as nat, 4) + le::bytes(f.size as nat, 8) + le::bytes(
        le::unsigned(f.mtime),
        8,
    ) + le::bytes(utf8::encode_utf8(f.name@).len(), 4)
}

/// The records of the first `k` folders.
pub open spec fn dir_records(dirs: Seq<DirRec>, k: int) -> Seq<u8>
    decreases k,
{
    if k <= 0 {
        Seq::empty()
    } else {
        dir_records(dirs, k - 1) + dir_record(dirs[k - 1])
    }
}

/// The records of the first `k` files.
pub open spec fn file_records(files: Seq<FileRec>, k: int) -> Seq<u8>
    decreases k,
{
    if k <= 0 {
        Seq::empty()
    } else {
        file_records(files, k - 1) + file_record(files[k - 1])
    }
}

/// The names of the first `k` folders.
pub open spec fn dir_names(dirs: Seq<DirRec>, k: int) -> Seq<u8>
    decreases k,
{
    if k <= 0 {
        Seq::empty()
    } else {
        dir_names(dirs, k - 1) + utf8::encode_utf8(dirs[k - 1].name@)
    }
}

/// The names of the first `k` files.
pub open spec fn file_names(files: Seq<FileRec>, k: int) -> Seq<u8>
    decreases k,
{
    if k <= 0 {
        Seq::empty()
    } else {
        file_names(files, k - 1) + utf8::encode_utf8(files[k - 1].name@)
    }
}

/// What stands in front of the records.
pub open spec fn header(s: Snapshot) -> Seq<u8> {
    mark() + le::bytes(1, 4) + le::bytes(utf8::encode_utf8(s.root@).len(), 4) + utf8::encode_utf8(
        s.root@,
    ) + le::bytes(le::unsigned(s.finished_ms), 8) + le::bytes(s.elapsed_ms as nat, 8) + le::bytes(
        s.errors as nat,
        8,
    ) + le::bytes(s.dirs@.len(), 4) + le::bytes(s.files@.len(), 4)
}

/// The bytes of an index.
pub open spec fn image(s: Snapshot) -> Seq<u8> {
    header(s) + dir_records(s.dirs@, s.dirs@.len() as int) + file_records(
        s.files@,
        s.files@.len() as int,
    ) + dir_names(s.dirs@, s.dirs@.len() as int) + file_names(s.files@, s.files@.len() as int)
}

fn put_all(buf: &mut Vec<u8>, s: &[u8])
    ensures
        final(buf)@ == old(buf)@ + s@,
{
    let ghost before = buf@;
    buf.extend_from_slice(s);
    assert(buf@ =~= before + s@);
}

impl Snapshot {
    /// The bytes to keep on disk. Lengths are cut to four bytes.
    pub fn save(&self) -> (r: Vec<u8>)
        ensures
            r@ == image(*self),
    {
        let mut buf: Vec<u8> = Vec::new();
        buf.push(68);
        buf.push(83);
        buf.push(75);
        buf.push(77);
        assert(buf@ =~= mark());
        le::put(&mut buf, 1, 4);
        let root = self.root.as_str().as_bytes();
        le::put(&mut buf, root.len() as u64, 4);
        put_all(&mut buf, root);
        le::put(&mut buf, le::to_unsigned(self.finished_ms), 8);
        le::put(&mut buf, self.elapsed_ms, 8);
        le::put(&mut buf, self.errors, 8);
        le::put(&mut buf, self.dirs.len() as u64, 4);
        le::put(&mut buf, self.files.len() as u64, 4);
        let ghost h = header(*self);
        assert(buf@ == h);
        assert(buf@ =~= h + dir_records(self.dirs@, 0));
        let mut i: usize = 0;
        while i < self.dirs.len()
            invariant
                i <= self.dirs@.len(),
                buf@ == h + dir_records(self.dirs@, i as int),
            decreases self.dirs@.len() - i,
        {
            let d = &self.dirs[i];
            let ghost b0 = buf@;
            le::put(&mut buf, d.parent as u64, 4);
            le::put(&mut buf, le::to_unsigned(d.own_mtime), 8);
            le::put(&mut buf, d.name.as_str().as_bytes().len() as u64, 4);
            assert(buf@ =~= b0 + dir_record(*d));
            i = i + 1;
            assert(buf@ =~= h + dir_records(self.dirs@, i as int));
        }
        let ghost h2 = buf@;
        assert(buf@ =~= h2 + file_records(self.files@, 0));
        let mut j: usize = 0;
        while j < self.files.len()
            invariant
                j <= self.files@.len(),
                buf@ == h2 + file_records(self.files@, j as int),
            decreases self.files@.len() - j,
        {
            let f = &self.files[j];
            let ghost b0 = buf@;
            le::put(&mut buf, f.parent as u64, 4);
            le::put(&mut buf, f.size, 8);
            le::put(&mut buf, le::to_unsigned(f.mtime), 8);
            le::put(&mut buf, f.name.as_str().as_bytes().len() as u64, 4);
            assert(buf@ =~= b0 + file_record(*f));
            j = j + 1;
            assert(buf@ =~= h2 + file_records(self.files@, j as int));
        }
        let ghost h3 = buf@;
        assert(buf@ =~= h3 + dir_names(self.dirs@, 0));
        let mut i: usize = 0;
        while i < self.dirs.len()
            invariant
                i <= self.dirs@.len(),
                buf@ == h3 + dir_names(self.dirs@, i as int),
            decreases self.dirs@.len() - i,
        {
            let ghost b0 = buf@;
            put_all(&mut buf, self.dirs[i].name.as_str().as_bytes());
            i = i + 1;
            assert(buf@ =~= h3 + dir_names(self.dirs@, i as int));
        }
        let ghost h4 = buf@;
        assert(buf@ =~= h4 + file_names(self.files@, 0));
        let mut j: usize = 0;
        while j < self.files.len()
            invariant
                j <= self.files@.len(),
                buf@ == h4 + file_names(self.files@, j as int),
            decreases self.files@.len() - j,
        {
            let ghost b0 = buf@;
            put_all(&mut buf, self.files[j].name.as_str().as_bytes());
            j = j + 1;
            assert(buf@ =~= h4 + file_names(self.files@, j as int));
        }
        buf
    }
}

// ---------------------------- what is written is what is read ----------------------------

/// The counts and the lengths in bytes fit in four bytes.
pub open spec fn fits(s: Snapshot) -> bool {
    &&& s.dirs@.len() <= u32::MAX
    &&& s.files@.len() <= u32::MAX
    &&& utf8::encode_utf8(s.root@).len() <= u32::MAX
    &&& forall|i: int|
        0 <= i < s.dirs@.len() ==> utf8::encode_utf8((#[trigger] s.dirs@[i]).name@).len()
            <= u32::MAX
    &&& forall|j: int|
        0 <= j < s.files@.len() ==> utf8::encode_utf8((#[trigger] s.files@[j]).name@).len()
            <= u32::MAX
}

/// Two indexes hold the same: what a file keeps of one it keeps of the other.
pub open spec fn same_index(s: Snapshot, r: Snapshot) -> bool {
    &&& r.root@ == s.root@
    &&& r.finished_ms == s.finished_ms
    &&& r.elapsed_ms == s.elapsed_ms
    &&& r.errors == s.errors
    &&& r.dirs@.len() == s.dirs@.len()
    &&& r.files@.len() == s.files@.len()
    &&& forall|i: int|
        0 <= i < s.dirs@.len() ==> {
            &&& (#[trigger] r.dirs@[i]).id == s.dirs@[i].id
            &&& r.dirs@[i].parent == s.dirs@[i].parent
            &&& r.dirs@[i].name@ == s.dirs@[i].name@
            &&& r.dirs@[i].own_mtime == s.dirs@[i].own_mtime
        }
    &&& forall|j: int|
        0 <= j < s.files@.len() ==> {
            &&& (#[trigger] r.files@[j]).parent == s.files@[j].parent
            &&& r.files@[j].name@ == s.files@[j].name@
            &&& r.files@[j].size == s.files@[j].size
            &&& r.files@[j].mtime == s.files@[j].mtime
        }
}

proof fn lemma_numbers(v: nat)
    ensures
        le::bytes(v, 4).len() == 4,
        le::bytes(v, 8).len() == 8,
        v <= u32::MAX ==> le::u32_of(le::bytes(v, 4)) == v,
        v <= u64::MAX ==> le::u64_of(le::bytes(v, 8)) == v,
        v <= u64::MAX ==> le::value(le::bytes(v, 8)) == v,
{
    le::lemma_bytes_len(v, 4);
    le::lemma_bytes_len(v, 8);
    le::lemma_powers();
    if v <= u32::MAX {
        le::lemma_value_bytes(v, 4);
    }
    if v <= u64::MAX {
        le::lemma_value_bytes(v, 8);
    }
}

proof fn lemma_signed(v: i64)
    ensures
        le::i64_of(le::bytes(le::unsigned(v), 8)) == v,
{
    lemma_numbers(le::unsigned(v));
}

proof fn lemma_dir_record(d: DirRec)
    ensures
        dir_record(d).len() == 16,
        u32_at(dir_record(d), 0) == d.parent,
        i64_at(dir_record(d), 4) == d.own_mtime,
        utf8::encode_utf8(d.name@).len() <= u32::MAX ==> u32_at(dir_record(d), 12)
            == utf8::encode_utf8(d.name@).len(),
{
    lemma_numbers(d.parent as nat);
    lemma_numbers(le::unsigned(d.own_mtime));
    lemma_signed(d.own_mtime);
    lemma_numbers(utf8::encode_utf8(d.name@).len());
    let r = dir_record(d);
    assert(slice(r, 0, 4) =~= le::bytes(d.parent as nat, 4));
    assert(slice(r, 4, 8) =~= le::bytes(le::unsigned(d.own_mtime), 8));
    assert(slice(r, 12, 4) =~= le::bytes(utf8::encode_utf8(d.name@).len(), 4));
}

proof fn lemma_file_record(f: FileRec)
    ensures
        file_record(f).len() == 24,
        u32_at(file_record(f), 0) == f.parent,
        u64_at(file_record(f), 4) == f.size,
        i64_at(file_record(f), 12) == f.mtime,
        utf8::encode_utf8(f.name@).len() <= u32::MAX ==> u32_at(file_record(f), 20)
            == utf8::encode_utf8(f.name@).len(),
{
    lemma_numbers(f.parent as nat);
    lemma_numbers(f.size as nat);
    lemma_numbers(le::unsigned(f.mtime));
    lemma_signed(f.mtime);
    lemma_numbers(utf8::encode_utf8(f.name@).len());
    let r = file_record(f);
    assert(slice(r, 0, 4) =~= le::bytes(f.parent as nat, 4));
    assert(slice(r, 4, 8) =~= le::bytes(f.size as nat, 8));
    assert(slice(r, 12, 8) =~= le::bytes(le::unsigned(f.mtime), 8));
    assert(slice(r, 20, 4) =~= le::bytes(utf8::encode_utf8(f.name@).len(), 4));
}

proof fn lemma_dir_records(dirs: Seq<DirRec>, k: int)
    requires
        0 <= k,
    ensures
        dir_records(dirs, k).len() == 16 * k,
        forall|i: int|
            0 <= i < k ==> slice(dir_records(dirs, k), 16 * i, 16) == dir_record(
                #[trigger] dirs[i],
            ),
    decreases k,
{
    if k > 0 {
        lemma_dir_records(dirs, k - 1);
        lemma_dir_record(dirs[k - 1]);
        let a = dir_records(dirs, k - 1);
        let b = dir_records(dirs, k);
        assert forall|i: int| 0 <= i < k implies slice(b, 16 * i, 16) == dir_record(
            #[trigger] dirs[i],
        ) by {
            if i < k - 1 {
                assert(slice(b, 16 * i, 16) =~= slice(a, 16 * i, 16));
            } else {
                assert(slice(b, 16 * i, 16) =~= dir_record(dirs[i]));
            }
        }
    }
}

proof fn lemma_file_records(files: Seq<FileRec>, k: int)
    requires
        0 <= k,
    ensures
        file_records(files, k).len() == 24 * k,
        forall|j: int|
            0 <= j < k ==> slice(file_records(files, k), 24 * j, 24) == file_record(
                #[trigger] files[j],
            ),
    decreases k,
{
    if k > 0 {
        lemma_file_records(files, k - 1);
        lemma_file_record(files[k - 1]);
        let a = file_records(files, k - 1);
        let b = file_records(files, k);
        assert forall|j: int| 0 <= j < k implies slice(b, 24 * j, 24) == file_record(
            #[trigger] files[j],
        ) by {
            if j < k - 1 {
                assert(slice(b, 24 * j, 24) =~= slice(a, 24 * j, 24));
            } else {
                assert(slice(b, 24 * j, 24) =~= file_record(files[j]));
            }
        }
    }
}

proof fn lemma_dir_names(dirs: Seq<DirRec>, i: int, k: int)
    requires
        0 <= i < k,
    ensures
        dir_names(dirs, i + 1).len() == dir_names(dirs, i).len() + utf8::encode_utf8(
            dirs[i].name@,
        ).len(),
        dir_names(dirs, i + 1).len() <= dir_names(dirs, k).len(),
        slice(
            dir_names(dirs, k),
            dir_names(dirs, i).len() as int,
            utf8::encode_utf8(dirs[i].name@).len() as int,
        ) == utf8::encode_utf8(dirs[i].name@),
    decreases k,
{
    let at = dir_names(dirs, i).len() as int;
    let n = utf8::encode_utf8(dirs[i].name@).len() as int;
    if i < k - 1 {
        lemma_dir_names(dirs, i, k - 1);
        assert(slice(dir_names(dirs, k), at, n) =~= slice(dir_names(dirs, k - 1), at, n));
    } else {
        assert(slice(dir_names(dirs, k), at, n) =~= utf8::encode_utf8(dirs[i].name@));
    }
}

proof fn lemma_file_names(files: Seq<FileRec>, j: int, k: int)
    requires
        0 <= j < k,
    ensures
        file_names(files, j + 1).len() == file_names(files, j).len() + utf8::encode_utf8(
            files[j].name@,
        ).len(),
        file_names(files, j + 1).len() <= file_names(files, k).len(),
        slice(
            file_names(files, k),
            file_names(files, j).len() as int,
            utf8::encode_utf8(files[j].name@).len() as int,
        ) == utf8::encode_utf8(files[j].name@),
    decreases k,
{
    let at = file_names(files, j).len() as int;
    let n = utf8::encode_utf8(files[j].name@).len() as int;
    if j < k - 1 {
        lemma_file_names(files, j, k - 1);
        assert(slice(file_names(files, k), at, n) =~= slice(file_names(files, k - 1), at, n));
    } else {
        assert(slice(file_names(files, k), at, n) =~= utf8::encode_utf8(files[j].name@));
    }
}

/// What the header of a written index says.
pub proof fn lemma_header(s: Snapshot)
    requires
        fits(s),
    ensures
        header(s).len() == 44 + utf8::encode_utf8(s.root@).len(),
        image(s).len() >= header(s).len(),
        image(s).take(4) == mark(),
        u32_at(image(s), 4) == 1,
        root_len(image(s)) == utf8::encode_utf8(s.root@).len(),
        slice(image(s), 12, root_len(image(s))) == utf8::encode_utf8(s.root@),
        i64_at(image(s), walk_at(image(s))) == s.finished_ms,
        u64_at(image(s), walk_at(image(s)) + 8) == s.elapsed_ms,
        u64_at(image(s), walk_at(image(s)) + 16) == s.errors,
        dir_count(image(s)) == s.dirs@.len(),
        file_count(image(s)) == s.files@.len(),
{
    let b = image(s);
    let root = utf8::encode_utf8(s.root@);
    let n = root.len();
    lemma_numbers(1);
    lemma_numbers(n);
    lemma_numbers(le::unsigned(s.finished_ms));
    lemma_signed(s.finished_ms);
    lemma_numbers(s.elapsed_ms as nat);
    lemma_numbers(s.errors as nat);
    lemma_numbers(s.dirs@.len());
    lemma_numbers(s.files@.len());
    let h = header(s);
    assert(b.len() >= h.len() && forall|i: int| 0 <= i < h.len() ==> b[i] == h[i]);
    assert(b.take(4) =~= mark());
    assert(slice(b, 4, 4) =~= le::bytes(1, 4));
    assert(slice(b, 8, 4) =~= le::bytes(n, 4));
    assert(slice(b, 12, n as int) =~= root);
    assert(slice(b, 12int + n, 8) =~= le::bytes(le::unsigned(s.finished_ms), 8));
    assert(slice(b, 20int + n, 8) =~= le::bytes(s.elapsed_ms as nat, 8));
    assert(slice(b, 28int + n, 8) =~= le::bytes(s.errors as nat, 8));
    assert(slice(b, 36int + n, 4) =~= le::bytes(s.dirs@.len(), 4));
    assert(slice(b, 40int + n, 4) =~= le::bytes(s.files@.len(), 4));
}

/// Where the four parts behind the header of a written index stand.
pub proof fn lemma_parts(s: Snapshot)
    requires
        fits(s),
    ensures
        ({
            let b = image(s);
            let nd = s.dirs@.len() as int;
            let nf = s.files@.len() as int;
            let h = header(s).len() as int;
            &&& dir_at(b, 0) == h
            &&& file_at(b, 0) == h + 16 * nd
            &&& file_at(b, nf) == h + 16 * nd + 24 * nf
            &&& b.len() == h + 16 * nd + 24 * nf + dir_names(s.dirs@, nd).len() + file_names(
                s.files@,
                nf,
            ).len()
            &&& slice(b, h, 16 * nd) == dir_records(s.dirs@, nd)
            &&& slice(b, h + 16 * nd, 24 * nf) == file_records(s.files@, nf)
            &&& slice(b, h + 16 * nd + 24 * nf, dir_names(s.dirs@, nd).len() as int) == dir_names(
                s.dirs@,
                nd,
            )
            &&& slice(
                b,
                h + 16 * nd + 24 * nf + dir_names(s.dirs@, nd).len(),
                file_names(s.files@, nf).len() as int,
            ) == file_names(s.files@, nf)
        }),
{
    let b = image(s);
    let nd = s.dirs@.len() as int;
    let nf = s.files@.len() as int;
    let h = header(s).len() as int;
    lemma_header(s);
    lemma_dir_records(s.dirs@, nd);
    lemma_file_records(s.files@, nf);
    assert(slice(b, h, 16 * nd) =~= dir_records(s.dirs@, nd));
    assert(slice(b, h + 16 * nd, 24 * nf) =~= file_records(s.files@, nf));
    assert(slice(b, h + 16 * nd + 24 * nf, dir_names(s.dirs@, nd).len() as int) =~= dir_names(
        s.dirs@,
        nd,
    ));
    assert(slice(
        b,
        h + 16 * nd + 24 * nf + dir_names(s.dirs@, nd).len(),
        file_names(s.files@, nf).len() as int,
    ) =~= file_names(s.files@, nf));
}

/// A slice of a slice is a slice.
proof fn lemma_nested(b: Seq<u8>, x: int, n: int, at: int, m: int)
    requires
        0 <= x,
        x + n <= b.len(),
        0 <= at,
        0 <= m,
        at + m <= n,
    ensures
        slice(slice(b, x, n), at, m) == slice(b, x + at, m),
{
    assert(slice(slice(b, x, n), at, m) =~= slice(b, x + at, m));
}

pub proof fn lemma_read_dir(s: Snapshot, i: int)
    requires
        fits(s),
        0 <= i < s.dirs@.len(),
    ensures
        u32_at(image(s), dir_at(image(s), i)) == s.dirs@[i].parent,
        i64_at(image(s), dir_at(image(s), i) + 4) == s.dirs@[i].own_mtime,
        dir_name_len(image(s), i) == utf8::encode_utf8(s.dirs@[i].name@).len(),
{
    let b = image(s);
    let nd = s.dirs@.len() as int;
    let h = header(s).len() as int;
    lemma_parts(s);
    lemma_dir_records(s.dirs@, nd);
    lemma_dir_record(s.dirs@[i]);
    let rec = dir_record(s.dirs@[i]);
    let d = dir_records(s.dirs@, nd);
    assert(slice(d, 16 * i, 16) == rec);
    lemma_nested(b, h, 16 * nd, 16 * i, 16);
    lemma_nested(b, h + 16 * i, 16, 0, 4);
    lemma_nested(b, h + 16 * i, 16, 4, 8);
    lemma_nested(b, h + 16 * i, 16, 12, 4);
}

pub proof fn lemma_read_file(s: Snapshot, j: int)
    requires
        fits(s),
        0 <= j < s.files@.len(),
    ensures
        u32_at(image(s), file_at(image(s), j)) == s.files@[j].parent,
        u64_at(image(s), file_at(image(s), j) + 4) == s.files@[j].size,
        i64_at(image(s), file_at(image(s), j) + 12) == s.files@[j].mtime,
        file_name_len(image(s), j) == utf8::encode_utf8(s.files@[j].name@).len(),
{
    let b = image(s);
    let nd = s.dirs@.len() as int;
    let nf = s.files@.len() as int;
    let h = header(s).len() as int + 16 * nd;
    lemma_parts(s);
    lemma_file_records(s.files@, nf);
    lemma_file_record(s.files@[j]);
    let rec = file_record(s.files@[j]);
    let d = file_records(s.files@, nf);
    assert(slice(d, 24 * j, 24) == rec);
    lemma_nested(b, h, 24 * nf, 24 * j, 24);
    lemma_nested(b, h + 24 * j, 24, 0, 4);
    lemma_nested(b, h + 24 * j, 24, 4, 8);
    lemma_nested(b, h + 24 * j, 24, 12, 8);
    lemma_nested(b, h + 24 * j, 24, 20, 4);
}

proof fn lemma_dir_name_at(s: Snapshot, i: int)
    requires
        fits(s),
        0 <= i <= s.dirs@.len(),
    ensures
        dir_name_at(image(s), i) == header(s).len() + 16 * s.dirs@.len() + 24 * s.files@.len()
            + dir_names(s.dirs@, i).len(),
    decreases i,
{
    lemma_header(s);
    lemma_parts(s);
    if i > 0 {
        lemma_dir_name_at(s, i - 1);
        lemma_read_dir(s, i - 1);
        lemma_dir_names(s.dirs@, i - 1, i);
    }
}

proof fn lemma_file_name_at(s: Snapshot, j: int)
    requires
        fits(s),
        0 <= j <= s.files@.len(),
    ensures
        file_name_at(image(s), j) == header(s).len() + 16 * s.dirs@.len() + 24 * s.files@.len()
            + dir_names(s.dirs@, s.dirs@.len() as int).len() + file_names(s.files@, j).len(),
    decreases j,
{
    lemma_header(s);
    lemma_parts(s);
    if j == 0 {
        lemma_dir_name_at(s, s.dirs@.len() as int);
    } else {
        lemma_file_name_at(s, j - 1);
        lemma_read_file(s, j - 1);
        lemma_file_names(s.files@, j - 1, j);
    }
}

proof fn lemma_utf8_back(t: Seq<char>)
    ensures
        text::lossy_text(utf8::encode_utf8(t)) == t,
{
    utf8::encode_utf8_valid_utf8(t);
    utf8::encode_utf8_decode_utf8(t);
}

proof fn lemma_dir_name(s: Snapshot, i: int)
    requires
        fits(s),
        0 <= i < s.dirs@.len(),
    ensures
        text::lossy_text(slice(image(s), dir_name_at(image(s), i), dir_name_len(image(s), i)))
            == s.dirs@[i].name@,
{
    let b = image(s);
    let nd = s.dirs@.len() as int;
    let base = header(s).len() as int + 16 * nd + 24 * s.files@.len();
    let name = utf8::encode_utf8(s.dirs@[i].name@);
    let all = dir_names(s.dirs@, nd);
    let at = dir_names(s.dirs@, i).len() as int;
    lemma_parts(s);
    lemma_dir_name_at(s, i);
    lemma_read_dir(s, i);
    lemma_dir_names(s.dirs@, i, nd);
    lemma_nested(b, base, all.len() as int, at, name.len() as int);
    lemma_utf8_back(s.dirs@[i].name@);
}

proof fn lemma_file_name(s: Snapshot, j: int)
    requires
        fits(s),
        0 <= j < s.files@.len(),
    ensures
        text::lossy_text(slice(image(s), file_name_at(image(s), j), file_name_len(image(s), j)))
            == s.files@[j].name@,
{
    let b = image(s);
    let nd = s.dirs@.len() as int;
    let nf = s.files@.len() as int;
    let base = header(s).len() as int + 16 * nd + 24 * nf + dir_names(s.dirs@, nd).len();
    let name = utf8::encode_utf8(s.files@[j].name@);
    let all = file_names(s.files@, nf);
    let at = file_names(s.files@, j).len() as int;
    lemma_parts(s);
    lemma_file_name_at(s, j);
    lemma_read_file(s, j);
    lemma_file_names(s.files@, j, nf);
    lemma_nested(b, base, all.len() as int, at, name.len() as int);
    lemma_utf8_back(s.files@[j].name@);
}

/// Law: the bytes of an index are always readable, as long as its counts and lengths
/// fit in four bytes each.
pub proof fn law_saved_is_readable(s: Snapshot)
    requires
        fits(s),
    ensures
        defect(image(s)) is None,
{
    lemma_header(s);
    lemma_parts(s);
    lemma_file_name_at(s, s.files@.len() as int);
}

proof fn lemma_cut_number(b: Seq<u8>, k: int, at: int)
    requires
        0 <= at,
        at + 4 <= k <= b.len(),
    ensures
        u32_at(b.take(k), at) == u32_at(b, at),
{
    assert(slice(b.take(k), at, 4) =~= slice(b, at, 4));
}

/// What is complete keeps its layout when more follows: counts, and places of records.
proof fn lemma_cut_header(b: Seq<u8>, k: int)
    requires
        0 <= k <= b.len(),
        complete(b.take(k)),
    ensures
        walk_at(b.take(k)) == walk_at(b),
        dir_count(b.take(k)) == dir_count(b),
        file_count(b.take(k)) == file_count(b),
        forall|i: int| #[trigger] dir_at(b.take(k), i) == dir_at(b, i),
        forall|j: int| #[trigger] file_at(b.take(k), j) == file_at(b, j),
        file_at(b, file_count(b)) <= k,
{
    lemma_cut_number(b, k, 8);
    lemma_cut_number(b, k, walk_at(b) + 24);
    lemma_cut_number(b, k, walk_at(b) + 28);
}

proof fn lemma_cut_dir_names(b: Seq<u8>, k: int, i: int)
    requires
        0 <= k <= b.len(),
        complete(b.take(k)),
        0 <= i <= dir_count(b),
    ensures
        dir_name_at(b.take(k), i) == dir_name_at(b, i),
    decreases i,
{
    lemma_cut_header(b, k);
    assert(file_at(b.take(k), file_count(b)) == file_at(b, file_count(b)));
    if i > 0 {
        lemma_cut_dir_names(b, k, i - 1);
        assert(dir_at(b.take(k), i - 1) == dir_at(b, i - 1));
        lemma_cut_number(b, k, dir_at(b, i - 1) + 12);
    }
}

proof fn lemma_cut_file_names(b: Seq<u8>, k: int, j: int)
    requires
        0 <= k <= b.len(),
        complete(b.take(k)),
        0 <= j <= file_count(b),
    ensures
        file_name_at(b.take(k), j) == file_name_at(b, j),
    decreases j,
{
    lemma_cut_header(b, k);
    if j > 0 {
        lemma_cut_file_names(b, k, j - 1);
        assert(file_at(b.take(k), j - 1) == file_at(b, j - 1));
        lemma_cut_number(b, k, file_at(b, j - 1) + 20);
    } else {
        lemma_cut_dir_names(b, k, dir_count(b));
    }
}

/// Law: the bytes of an index that end too soon, wherever it is, are refused as such.
pub proof fn law_cut_file_is_refused(s: Snapshot, k: int)
    requires
        fits(s),
        0 <= k < image(s).len(),
    ensures
        defect(image(s).take(k)) == Some(LoadError::Eof),
{
    let b = image(s);
    let p = b.take(k);
    lemma_header(s);
    lemma_parts(s);
    lemma_file_name_at(s, s.files@.len() as int);
    if k >= 4 {
        assert(p.take(4) =~= b.take(4));
    }
    if k >= 8 {
        lemma_cut_number(b, k, 4);
    }
    if complete(p) {
        lemma_cut_header(b, k);
        lemma_cut_file_names(b, k, file_count(b));
    }
}

/// Law: reading the bytes of an index gives that index back: `r` is what `load` gives
/// on the bytes that `save` made of `s`.
pub proof fn law_load_gives_back_save(s: Snapshot, r: Snapshot)
    requires
        s.wf(),
        fits(s),
        reads(image(s), r),
    ensures
        same_index(s, r),
{
    lemma_header(s);
    lemma_utf8_back(s.root@);
    assert forall|i: int| 0 <= i < s.dirs@.len() implies {
        &&& (#[trigger] r.dirs@[i]).id == s.dirs@[i].id
        &&& r.dirs@[i].parent == s.dirs@[i].parent
        &&& r.dirs@[i].name@ == s.dirs@[i].name@
        &&& r.dirs@[i].own_mtime == s.dirs@[i].own_mtime
    } by {
        assert(reads_dir(image(s), i, r.dirs@[i]));
        lemma_read_dir(s, i);
        lemma_dir_name(s, i);
    }
    assert forall|j: int| 0 <= j < s.files@.len() implies {
        &&& (#[trigger] r.files@[j]).parent == s.files@[j].parent
        &&& r.files@[j].name@ == s.files@[j].name@
        &&& r.files@[j].size == s.files@[j].size
        &&& r.files@[j].mtime == s.files@[j].mtime
    } by {
        assert(reads_file(image(s), j, r.files@[j]));
        lemma_read_file(s, j);
        lemma_file_name(s, j);
    }
}

/// What is complete is read as it stands when more follows.
pub proof fn lemma_more_follows(b: Seq<u8>, k: int, t: Snapshot)
    requires
        0 <= k <= b.len(),
        complete(b.take(k)),
        reads(b, t),
    ensures
        reads(b.take(k), t),
{
    let p = b.take(k);
    lemma_cut_header(b, k);
    lemma_cut_number(b, k, 8);
    let w = walk_at(b);
    assert(slice(p, 12, root_len(b)) =~= slice(b, 12, root_len(b)));
    assert(slice(p, w, 8) =~= slice(b, w, 8));
    assert(slice(p, w + 8, 8) =~= slice(b, w + 8, 8));
    assert(slice(p, w + 16, 8) =~= slice(b, w + 16, 8));
    lemma_cut_file_names(b, k, file_count(b));
    lemma_file_names_grow(b, 0, file_count(b));
    assert forall|i: int| 0 <= i < t.dirs@.len() implies reads_dir(p, i, #[trigger] t.dirs@[i]) by {
        let at = dir_at(b, i);
        assert(dir_at(p, i) == at);
        assert(reads_dir(b, i, t.dirs@[i]));
        lemma_cut_number(b, k, at);
        lemma_cut_number(b, k, at + 12);
        assert(slice(p, at + 4, 8) =~= slice(b, at + 4, 8));
        lemma_cut_dir_names(b, k, i);
        lemma_dir_names_grow(b, 0, i);
        lemma_dir_names_grow(b, i + 1, dir_count(b));
        assert(slice(p, dir_name_at(b, i), dir_name_len(b, i)) =~= slice(
            b,
            dir_name_at(b, i),
            dir_name_len(b, i),
        ));
    }
    assert forall|j: int| 0 <= j < t.files@.len() implies reads_file(
        p,
        j,
        #[trigger] t.files@[j],
    ) by {
        let at = file_at(b, j);
        assert(file_at(p, j) == at);
        assert(reads_file(b, j, t.files@[j]));
        lemma_cut_number(b, k, at);
        lemma_cut_number(b, k, at + 20);
        assert(slice(p, at + 4, 8) =~= slice(b, at + 4, 8));
        assert(slice(p, at + 12, 8) =~= slice(b, at + 12, 8));
        lemma_cut_file_names(b, k, j);
        lemma_file_names_grow(b, j + 1, file_count(b));
        lemma_file_names_grow(b, 0, j);
        lemma_dir_names_grow(b, 0, dir_count(b));
        assert(slice(p, file_name_at(b, j), file_name_len(b, j)) =~= slice(
            b,
            file_name_at(b, j),
            file_name_len(b, j),
        ));
    }
}

/// More bytes behind complete ones make nothing wrong.
pub proof fn lemma_still_complete(b: Seq<u8>, k: int)
    requires
        0 <= k <= b.len(),
        defect(b.take(k)) is None,
    ensures
        defect(b) is None,
{
    lemma_cut_header(b, k);
    lemma_cut_number(b, k, 4);
    lemma_cut_file_names(b, k, file_count(b));
    assert(file_at(b.take(k), file_count(b)) == file_at(b, file_count(b)));
    assert(b.take(k).take(4) =~= b.take(4));
}

} // verus!
