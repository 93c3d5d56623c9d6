//! What a file keeps of an index, told by the bytes of the file.
//!
//! A law of this file takes what a function was given and what it gave, bound by the
//! contract of that function, and says how the one follows from the other.

use crate::cache;
use crate::cache::LoadError;
use crate::laws;
use crate::le;
use crate::records::{DirRec, FileRec};
use crate::snapshot::Snapshot;
use vstd::prelude::*;
use vstd::utf8::encode_utf8;

verus! {

/// The counts of the index and the lengths of its names fit in four bytes.
pub open spec fn fits_in_a_file(s: Snapshot) -> bool {
    &&& s.dirs@.len() <= u32::MAX
    &&& s.files@.len() <= u32::MAX
    &&& encode_utf8(s.root@).len() <= u32::MAX
    &&& forall|i: int|
        0 <= i < s.dirs@.len() ==> encode_utf8((#[trigger] s.dirs@[i]).name@).len() <= u32::MAX
    &&& forall|j: int|
        0 <= j < s.files@.len() ==> encode_utf8((#[trigger] s.files@[j]).name@).len() <= u32::MAX
}

/// Law: an index that goes to a file comes back from it: its root, its dates and counts,
/// every folder and every file with all that is known of them, and the same totals.
pub proof fn law_index_comes_back(
    s: &Snapshot,
    b: Vec<u8>,
    bytes: &[u8],
    r: Result<Snapshot, LoadError>,
)
    requires
        s.wf(),
        fits_in_a_file(*s),
        call_ensures(Snapshot::save, (s,), b),
        bytes@ == b@,
        call_ensures(Snapshot::load, (bytes,), r),
    ensures
        r is Ok,
        ({
            let t = r->Ok_0;
            &&& t.root@ == s.root@
            &&& t.finished_ms == s.finished_ms
            &&& t.elapsed_ms == s.elapsed_ms
            &&& t.errors == s.errors
            &&& t.dirs@.len() == s.dirs@.len()
            &&& t.files@.len() == s.files@.len()
            &&& forall|i: int|
                #![trigger t.dirs@[i]]
                0 <= i < s.dirs@.len() ==> t.dirs@[i].id == s.dirs@[i].id && t.dirs@[i].parent
                    == s.dirs@[i].parent && t.dirs@[i].name@ == s.dirs@[i].name@
                    && t.dirs@[i].own_mtime == s.dirs@[i].own_mtime
            &&& forall|j: int|
                #![trigger t.files@[j]]
                0 <= j < s.files@.len() ==> t.files@[j].parent == s.files@[j].parent
                    && t.files@[j].name@ == s.files@[j].name@ && t.files@[j].size
                    == s.files@[j].size && t.files@[j].mtime == s.files@[j].mtime
            &&& t.size@ == s.size@
            &&& t.count@ == s.count@
            &&& t.mtime@ == s.mtime@
        }),
{
    cache::law_saved_is_readable(*s);
    let t = r->Ok_0;
    cache::law_load_gives_back_save(*s, t);
    laws::law_totals_survive_the_file(*s, t);
}

/// Law: what stands behind the last name of a file does not matter.
pub proof fn law_more_bytes(
    s: &Snapshot,
    b: Vec<u8>,
    junk: Seq<u8>,
    bytes: &[u8],
    r: Result<Snapshot, LoadError>,
)
    requires
        s.wf(),
        fits_in_a_file(*s),
        call_ensures(Snapshot::save, (s,), b),
        bytes@ == b@ + junk,
        call_ensures(Snapshot::load, (bytes,), r),
    ensures
        r is Ok,
        ({
            let t = r->Ok_0;
            &&& t.root@ == s.root@
            &&& t.finished_ms == s.finished_ms
            &&& t.elapsed_ms == s.elapsed_ms
            &&& t.errors == s.errors
            &&& t.dirs@.len() == s.dirs@.len()
            &&& t.files@.len() == s.files@.len()
            &&& t.size@ == s.size@
            &&& t.count@ == s.count@
            &&& t.mtime@ == s.mtime@
            &&& forall|i: int|
                #![trigger t.dirs@[i]]
                0 <= i < s.dirs@.len() ==> t.dirs@[i].name@ == s.dirs@[i].name@
            &&& forall|j: int|
                #![trigger t.files@[j]]
                0 <= j < s.files@.len() ==> t.files@[j].name@ == s.files@[j].name@
        }),
{
    let k = b@.len() as int;
    assert(bytes@.take(k) =~= b@);
    cache::law_saved_is_readable(*s);
    cache::lemma_still_complete(bytes@, k);
    let t = r->Ok_0;
    cache::lemma_more_follows(bytes@, k, t);
    cache::law_load_gives_back_save(*s, t);
    laws::law_totals_survive_the_file(*s, t);
}

/// Law: a file that ends too soon is refused, wherever it ends.
pub proof fn law_cut_file(
    s: &Snapshot,
    b: Vec<u8>,
    k: int,
    bytes: &[u8],
    r: Result<Snapshot, LoadError>,
)
    requires
        fits_in_a_file(*s),
        call_ensures(Snapshot::save, (s,), b),
        0 <= k < b@.len(),
        bytes@ == b@.take(k),
        call_ensures(Snapshot::load, (bytes,), r),
    ensures
        r matches Err(e) && e is Eof,
{
    cache::law_cut_file_is_refused(*s, k);
}

/// The number of four bytes from place `at` on, the lowest byte first.
#[verifier::opaque]
pub open spec fn num4(b: Seq<u8>, at: int) -> int {
    b[at] + 0x100 * b[at + 1] + 0x1_0000 * b[at + 2] + 0x100_0000 * b[at + 3]
}

/// The number of eight bytes from place `at` on, the lowest byte first.
#[verifier::opaque]
pub open spec fn num8(b: Seq<u8>, at: int) -> int {
    num4(b, at) + 0x1_0000_0000 * num4(b, at + 4)
}

/// The signed number of eight bytes from place `at` on, in two's complement.
#[verifier::opaque]
pub open spec fn int8(b: Seq<u8>, at: int) -> int {
    if num8(b, at) < 0x8000_0000_0000_0000 {
        num8(b, at)
    } else {
        num8(b, at) - 0x1_0000_0000_0000_0000
    }
}

proof fn lemma_value4(s: Seq<u8>)
    requires
        s.len() == 4,
    ensures
        le::value(s) == s[0] + 0x100 * s[1] + 0x1_0000 * s[2] + 0x100_0000 * s[3],
{
    let a = s.drop_first();
    let b = a.drop_first();
    let c = b.drop_first();
    let d = c.drop_first();
    assert(a[0] == s[1] && b[0] == s[2] && c[0] == s[3]);
    assert(le::value(d) == 0);
    assert(le::value(c) == s[3]);
    assert(le::value(b) == s[2] + 256 * le::value(c));
    assert(le::value(a) == s[1] + 256 * le::value(b));
    assert(le::value(s) == s[0] + 256 * le::value(a));
}

pub proof fn lemma_num4(b: Seq<u8>, at: int)
    requires
        0 <= at,
        at + 4 <= b.len(),
    ensures
        le::value(b.subrange(at, at + 4)) == num4(b, at),
        cache::u32_at(b, at) == num4(b, at),
{
    reveal(num4);
    lemma_value4(b.subrange(at, at + 4));
}

proof fn lemma_value8(s: Seq<u8>)
    requires
        s.len() == 8,
    ensures
        le::value(s) == le::value(s.take(4)) + 0x1_0000_0000 * le::value(s.skip(4)),
{
    let a = s.drop_first();
    let b = a.drop_first();
    let c = b.drop_first();
    let d = c.drop_first();
    assert(d =~= s.skip(4));
    assert(a[0] == s[1] && b[0] == s[2] && c[0] == s[3]);
    assert(le::value(c) == s[3] + 256 * le::value(d));
    assert(le::value(b) == s[2] + 256 * le::value(c));
    assert(le::value(a) == s[1] + 256 * le::value(b));
    assert(le::value(s) == s[0] + 256 * le::value(a));
    lemma_value4(s.take(4));
}

pub proof fn lemma_num8(b: Seq<u8>, at: int)
    requires
        0 <= at,
        at + 8 <= b.len(),
    ensures
        cache::u64_at(b, at) == num8(b, at),
        cache::i64_at(b, at) == int8(b, at),
{
    reveal(num8);
    reveal(int8);
    let s = b.subrange(at, at + 8);
    lemma_value8(s);
    assert(s.take(4) =~= b.subrange(at, at + 4));
    assert(s.skip(4) =~= b.subrange(at + 4, at + 8));
    lemma_num4(b, at);
    lemma_num4(b, at + 4);
    le::lemma_value_bound(s);
    le::lemma_powers();
}

/// Where the records start in the file of an index.
pub open spec fn records_at(s: Snapshot) -> int {
    44 + encode_utf8(s.root@).len() as int
}

proof fn lemma_records_at(s: Snapshot)
    requires
        fits_in_a_file(s),
    ensures
        ({
            let b = cache::image(s);
            &&& cache::dir_at(b, 0) == records_at(s)
            &&& forall|i: int| #[trigger] cache::dir_at(b, i) == records_at(s) + 16 * i
            &&& forall|j: int| #[trigger]
                cache::file_at(b, j) == records_at(s) + 16 * s.dirs@.len() + 24 * j
            &&& b.len() >= records_at(s) + 16 * s.dirs@.len() + 24 * s.files@.len()
        }),
{
    cache::lemma_header(s);
    cache::lemma_parts(s);
}

/// Law: a file starts with its mark and version; then come the length and the bytes of the
/// root, the end of the walk, how long it took, its errors, and how many folders and files
/// follow.
pub proof fn law_head_of_a_file(s: &Snapshot, b: Vec<u8>)
    requires
        fits_in_a_file(*s),
        call_ensures(Snapshot::save, (s,), b),
    ensures
        ({
            let root = encode_utf8(s.root@);
            let w = 12 + root.len() as int;
            &&& b@.take(4) == seq![68u8, 83u8, 75u8, 77u8]
            &&& num4(b@, 4) == 1
            &&& num4(b@, 8) == root.len()
            &&& b@.subrange(12, w) == root
            &&& int8(b@, w) == s.finished_ms
            &&& num8(b@, w + 8) == s.elapsed_ms
            &&& num8(b@, w + 16) == s.errors
            &&& num4(b@, w + 24) == s.dirs@.len()
            &&& num4(b@, w + 28) == s.files@.len()
        }),
{
    cache::lemma_header(*s);
    let w = 12 + encode_utf8(s.root@).len() as int;
    let v = b@;
    assert(num4(v, 4) == 1) by {
        lemma_num4(v, 4);
    }
    assert(num4(v, 8) == encode_utf8(s.root@).len()) by {
        lemma_num4(v, 8);
    }
    assert(int8(v, w) == s.finished_ms) by {
        lemma_num8(v, w);
    }
    assert(num8(v, w + 8) == s.elapsed_ms) by {
        lemma_num8(v, w + 8);
    }
    assert(num8(v, w + 16) == s.errors) by {
        lemma_num8(v, w + 16);
    }
    assert(num4(v, w + 24) == s.dirs@.len()) by {
        lemma_num4(v, w + 24);
    }
    assert(num4(v, w + 28) == s.files@.len()) by {
        lemma_num4(v, w + 28);
    }
}

/// Law: behind the head of a file stands a record of sixteen bytes for each folder, in
/// order: its parent, its date, the length of its name.
pub proof fn law_folder_in_a_file(s: &Snapshot, b: Vec<u8>, i: int)
    requires
        fits_in_a_file(*s),
        call_ensures(Snapshot::save, (s,), b),
        0 <= i < s.dirs@.len(),
    ensures
        num4(b@, records_at(*s) + 16 * i) == s.dirs@[i].parent,
        int8(b@, records_at(*s) + 16 * i + 4) == s.dirs@[i].own_mtime,
        num4(b@, records_at(*s) + 16 * i + 12) == encode_utf8(s.dirs@[i].name@).len(),
{
    lemma_records_at(*s);
    cache::lemma_read_dir(*s, i);
    let d = cache::dir_at(b@, i);
    lemma_num4(b@, d);
    lemma_num8(b@, d + 4);
    lemma_num4(b@, d + 12);
}

/// Law: then comes a record of twenty-four bytes for each file, in order: its folder, its
/// size, its date, the length of its name.
pub proof fn law_file_in_a_file(s: &Snapshot, b: Vec<u8>, j: int)
    requires
        fits_in_a_file(*s),
        call_ensures(Snapshot::save, (s,), b),
        0 <= j < s.files@.len(),
    ensures
        ({
            let f = records_at(*s) + 16 * s.dirs@.len() + 24 * j;
            &&& num4(b@, f) == s.files@[j].parent
            &&& num8(b@, f + 4) == s.files@[j].size
            &&& int8(b@, f + 12) == s.files@[j].mtime
            &&& num4(b@, f + 20) == encode_utf8(s.files@[j].name@).len()
        }),
{
    lemma_records_at(*s);
    cache::lemma_read_file(*s, j);
    let f = cache::file_at(b@, j);
    lemma_num4(b@, f);
    lemma_num8(b@, f + 4);
    lemma_num8(b@, f + 12);
    lemma_num4(b@, f + 20);
}

/// Law: a file ends with the names: those of the folders, then those of the files, in order
/// and with nothing between them.
pub proof fn law_names_in_a_file(s: &Snapshot, b: Vec<u8>)
    requires
        fits_in_a_file(*s),
        call_ensures(Snapshot::save, (s,), b),
    ensures
        b@.skip(records_at(*s) + 16 * s.dirs@.len() + 24 * s.files@.len()) == s.dirs@.map_values(
            |x: DirRec| encode_utf8(x.name@),
        ).flatten_alt() + s.files@.map_values(|x: FileRec| encode_utf8(x.name@)).flatten_alt(),
{
    let nd = s.dirs@.len() as int;
    let nf = s.files@.len() as int;
    cache::lemma_header(*s);
    cache::lemma_parts(*s);
    lemma_dir_names(s.dirs@, nd);
    lemma_file_names(s.files@, nf);
    assert(s.dirs@.take(nd) =~= s.dirs@);
    assert(s.files@.take(nf) =~= s.files@);
    let at = records_at(*s) + 16 * nd + 24 * nf;
    let dn = cache::dir_names(s.dirs@, nd);
    let fl = cache::file_names(s.files@, nf);
    assert(b@.skip(at) =~= cache::slice(b@, at, dn.len() as int) + cache::slice(
        b@,
        at + dn.len(),
        fl.len() as int,
    ));
}

proof fn lemma_dir_names(dirs: Seq<DirRec>, k: int)
    requires
        0 <= k <= dirs.len(),
    ensures
        cache::dir_names(dirs, k) == dirs.take(k).map_values(
            |x: DirRec| encode_utf8(x.name@),
        ).flatten_alt(),
    decreases k,
{
    let f = |x: DirRec| encode_utf8(x.name@);
    let m = dirs.take(k).map_values(f);
    if k > 0 {
        lemma_dir_names(dirs, k - 1);
        assert(m.drop_last() =~= dirs.take(k - 1).map_values(f));
    }
}

proof fn lemma_file_names(files: Seq<FileRec>, k: int)
    requires
        0 <= k <= files.len(),
    ensures
        cache::file_names(files, k) == files.take(k).map_values(
            |x: FileRec| encode_utf8(x.name@),
        ).flatten_alt(),
    decreases k,
{
    let f = |x: FileRec| encode_utf8(x.name@);
    let m = files.take(k).map_values(f);
    if k > 0 {
        lemma_file_names(files, k - 1);
        assert(m.drop_last() =~= files.take(k - 1).map_values(f));
    }
}

/// Law: bytes without the mark, or of another version, are no index; nor are those that end
/// in front of them. What is read of a file was never seen by the walk that made it as
/// unreadable: a file keeps none of that.
pub proof fn law_foreign_file(bytes: &[u8], r: Result<Snapshot, LoadError>)
    requires
        call_ensures(Snapshot::load, (bytes,), r),
    ensures
        ({
            let b = bytes@;
            let marked = b.len() >= 4 && b[0] == 'D' as u8 && b[1] == 'S' as u8 && b[2]
                == 'K' as u8 && b[3] == 'M' as u8;
            &&& b.len() < 4 ==> r == Err::<Snapshot, LoadError>(LoadError::Eof)
            &&& b.len() >= 4 && !marked ==> r == Err::<Snapshot, LoadError>(LoadError::Magic)
            &&& marked && b.len() < 8 ==> r == Err::<Snapshot, LoadError>(LoadError::Eof)
            &&& marked && b.len() >= 8 && num4(b, 4) != 1 ==> r == Err::<Snapshot, LoadError>(
                LoadError::Version,
            )
            &&& r matches Ok(s) ==> s.unreadable@.len() == 0 && s.unreadable_total == 0
                && s.unreadable_droits == 0 && s.skipped == 0
        }),
{
    let b = bytes@;
    if b.len() >= 4 {
        let marked = b[0] == 'D' as u8 && b[1] == 'S' as u8 && b[2] == 'K' as u8 && b[3]
            == 'M' as u8;
        if marked {
            assert(b.take(4) =~= cache::mark());
        }
        if b.take(4) == cache::mark() {
            assert(b.take(4)[0] == 68 && b.take(4)[1] == 83 && b.take(4)[2] == 75 && b.take(4)[3]
                == 77);
        }
    }
    if b.len() >= 8 {
        lemma_num4(b, 4);
    }
}

} // verus!
