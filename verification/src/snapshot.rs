//! The index of a volume: its folders and files, and the totals of every subtree.

use crate::aggregate;
use crate::links;
use crate::links::Links;
use crate::path;
use crate::records;
use crate::records::{DirRec, FileRec, Row, RowView, Unreadable};
use crate::split;
use crate::text;
use vstd::prelude::*;

verus! {

/// The index of a volume.
pub struct Snapshot {
    /// The volume as it is shown, such as `C:\`.
    pub root: String,
    /// In the order of their numbers: the number of a folder is its place here.
    pub dirs: Vec<DirRec>,
    pub files: Vec<FileRec>,
    /// Bytes of the subtree of each folder.
    pub size: Vec<u64>,
    /// Number of files of the subtree of each folder.
    pub count: Vec<u64>,
    /// Last write in the subtree of each folder.
    pub mtime: Vec<i64>,
    /// The folders that each folder holds.
    pub dir_links: Links,
    /// The files that each folder holds.
    pub file_links: Links,
    pub elapsed_ms: u64,
    pub finished_ms: i64,
    /// Everything the walk could not read, folders and entries together.
    pub errors: u64,
    /// The first folders that could not be read.
    pub unreadable: Vec<Unreadable>,
    /// How many folders could not be read.
    pub unreadable_total: u64,
    /// How many of them for lack of rights.
    pub unreadable_droits: u64,
    /// Entries left out, each at the cost of that entry alone.
    pub skipped: u64,
}

/// The numbers of the folders are `0`, `1`, ... in some order.
pub open spec fn numbered(dirs: Seq<DirRec>) -> bool {
    &&& forall|i: int| 0 <= i < dirs.len() ==> (#[trigger] dirs[i]).id < dirs.len()
    &&& forall|i: int, j: int|
        0 <= i < j < dirs.len() ==> (#[trigger] dirs[i]).id != (#[trigger] dirs[j]).id
}

/// The folders below number `k` whose parent is `id`, the last one first. The root,
/// which is its own parent, is nobody's child.
pub open spec fn child_dir_list(dirs: Seq<DirRec>, k: int, id: u32) -> Seq<u32>
    decreases k,
{
    if k <= 0 {
        Seq::empty()
    } else if id < dirs.len() && dirs[k - 1].parent == id && id != k - 1 {
        seq![(k - 1) as u32] + child_dir_list(dirs, k - 1, id)
    } else {
        child_dir_list(dirs, k - 1, id)
    }
}

/// The files below number `k` that folder `id` holds, the last one first.
pub open spec fn child_file_list(dirs: Seq<DirRec>, files: Seq<FileRec>, k: int, id: u32) -> Seq<
    u32,
>
    decreases k,
{
    if k <= 0 {
        Seq::empty()
    } else if id < dirs.len() && files[k - 1].parent == id {
        seq![(k - 1) as u32] + child_file_list(dirs, files, k - 1, id)
    } else {
        child_file_list(dirs, files, k - 1, id)
    }
}

/// The bytes of `needle` stand at place `i`.
pub open spec fn occurs_at(h: Seq<u8>, needle: Seq<u8>, i: int) -> bool {
    0 <= i && i + needle.len() <= h.len() && h.subrange(i, i + needle.len()) == needle
}

/// The bytes of `needle` occur in a text. No text holds an empty needle.
pub open spec fn holds_bytes(t: Seq<char>, needle: Seq<u8>) -> bool {
    let h = vstd::utf8::encode_utf8(t);
    needle.len() > 0 && exists|i: int| #[trigger] occurs_at(h, needle, i)
}

/// The lower case of an ASCII letter; any other byte as it is.
pub open spec fn low_byte(b: u8) -> u8 {
    if 0x41 <= b <= 0x5A {
        (b + 32) as u8
    } else {
        b
    }
}

/// Bytes with their ASCII letters in lower case.
pub open spec fn low_bytes(h: Seq<u8>) -> Seq<u8> {
    h.map_values(|b: u8| low_byte(b))
}

/// The bytes of `needle` occur in the text, once its ASCII letters are in lower case.
pub open spec fn contains_ascii(hay: Seq<char>, needle: Seq<u8>) -> bool {
    let h = low_bytes(vstd::utf8::encode_utf8(hay));
    needle.len() > 0 && exists|i: int| #[trigger] occurs_at(h, needle, i)
}

/// A search finds a name, which is `low` in lower case: the needle occurs in it once its
/// ASCII letters are in lower case, or once all of it is.
pub open spec fn is_found(name: Seq<char>, low: Seq<char>, needle: Seq<u8>) -> bool {
    contains_ascii(name, needle) || holds_bytes(low, needle)
}

/// A search finds a name.
pub open spec fn finds(name: Seq<char>, needle: Seq<u8>) -> bool {
    is_found(name, text::lower_text(name), needle)
}

/// The parent of each folder; nobody for the root and for a parent that is not there.
pub open spec fn dir_owners(dirs: Seq<DirRec>) -> Seq<u32> {
    Seq::new(
        dirs.len(),
        |k: int|
            if dirs[k].parent < dirs.len() && dirs[k].parent != k {
                dirs[k].parent
            } else {
                links::NONE
            },
    )
}

/// The folder that holds each file.
pub open spec fn file_owners(files: Seq<FileRec>) -> Seq<u32> {
    Seq::new(files.len(), |k: int| files[k].parent)
}

proof fn lemma_dir_owned(dirs: Seq<DirRec>, k: int, id: u32)
    requires
        id < dirs.len() <= links::NONE,
        0 <= k <= dirs.len(),
    ensures
        links::owned(dir_owners(dirs), k, id) == child_dir_list(dirs, k, id),
    decreases k,
{
    if k > 0 {
        lemma_dir_owned(dirs, k - 1, id);
    }
}

proof fn lemma_file_owned(dirs: Seq<DirRec>, files: Seq<FileRec>, k: int, id: u32)
    requires
        id < dirs.len(),
        0 <= k <= files.len(),
    ensures
        links::owned(file_owners(files), k, id) == child_file_list(dirs, files, k, id),
    decreases k,
{
    if k > 0 {
        lemma_file_owned(dirs, files, k - 1, id);
    }
}

proof fn lemma_no_child(dirs: Seq<DirRec>, files: Seq<FileRec>, k: int, id: u32)
    requires
        id >= dirs.len(),
    ensures
        child_dir_list(dirs, k, id) == Seq::<u32>::empty(),
        child_file_list(dirs, files, k, id) == Seq::<u32>::empty(),
    decreases k,
{
    if k > 0 {
        lemma_no_child(dirs, files, k - 1, id);
    }
}

/// Law: the lists of a folder hold exactly the folders and the files that lie directly
/// in it, each once.
pub proof fn law_children(dirs: Seq<DirRec>, files: Seq<FileRec>, id: u32)
    requires
        id < dirs.len() <= u32::MAX,
        files.len() <= u32::MAX,
    ensures
        forall|c: u32|
            #![trigger child_dir_list(dirs, dirs.len() as int, id).contains(c)]
            child_dir_list(dirs, dirs.len() as int, id).contains(c) <==> c < dirs.len()
                && dirs[c as int].parent == id && c != id,
        forall|c: u32|
            #![trigger child_file_list(dirs, files, files.len() as int, id).contains(c)]
            child_file_list(dirs, files, files.len() as int, id).contains(c) <==> c < files.len()
                && files[c as int].parent == id,
        child_dir_list(dirs, dirs.len() as int, id).no_duplicates(),
        child_file_list(dirs, files, files.len() as int, id).no_duplicates(),
{
    lemma_children(dirs, files, dirs.len() as int, files.len() as int, id);
}

pub proof fn lemma_children(dirs: Seq<DirRec>, files: Seq<FileRec>, m: int, n: int, id: u32)
    requires
        0 <= m <= dirs.len() <= u32::MAX,
        0 <= n <= files.len() <= u32::MAX,
    ensures
        forall|x: int|
            0 <= x < child_dir_list(dirs, m, id).len() ==> (#[trigger] child_dir_list(
                dirs,
                m,
                id,
            )[x]) < m,
        forall|x: int|
            0 <= x < child_file_list(dirs, files, n, id).len() ==> (#[trigger] child_file_list(
                dirs,
                files,
                n,
                id,
            )[x]) < n,
        id < dirs.len() ==> forall|c: u32| #[trigger]
            child_dir_list(dirs, m, id).contains(c) <==> c < m && dirs[c as int].parent == id && c
                != id,
        id < dirs.len() ==> forall|c: u32| #[trigger]
            child_file_list(dirs, files, n, id).contains(c) <==> c < n && files[c as int].parent
                == id,
        child_dir_list(dirs, m, id).no_duplicates(),
        child_file_list(dirs, files, n, id).no_duplicates(),
    decreases m + n,
{
    if m > 0 {
        lemma_children(dirs, files, m - 1, n, id);
        lemma_put_first(child_dir_list(dirs, m - 1, id), (m - 1) as u32);
    } else if n > 0 {
        lemma_children(dirs, files, m, n - 1, id);
        lemma_put_first(child_file_list(dirs, files, n - 1, id), (n - 1) as u32);
    }
}

proof fn lemma_put_first(s: Seq<u32>, v: u32)
    ensures
        forall|c: u32| #[trigger] (seq![v] + s).contains(c) <==> c == v || s.contains(c),
{
    let t = seq![v] + s;
    assert forall|c: u32| #[trigger] t.contains(c) <==> c == v || s.contains(c) by {
        if s.contains(c) {
            let x = choose|x: int| 0 <= x < s.len() && s[x] == c;
            assert(t[x + 1] == c);
        }
        if c == v {
            assert(t[0] == c);
        }
        if t.contains(c) && c != v {
            let x = choose|x: int| 0 <= x < t.len() && t[x] == c;
            assert(s[x - 1] == c);
        }
    }
}

impl Snapshot {
    /// The totals are those of the subtrees.
    pub open spec fn totals_right(self) -> bool {
        &&& self.size@.len() == self.dirs@.len()
        &&& self.count@.len() == self.dirs@.len()
        &&& self.mtime@.len() == self.dirs@.len()
        &&& forall|a: int|
            0 <= a < self.dirs@.len() ==> #[trigger] self.size@[a] == aggregate::wrapped(
                records::subtree_size(self.dirs@, self.files@, a),
            )
        &&& forall|a: int|
            0 <= a < self.dirs@.len() ==> #[trigger] self.count@[a] as int
                == records::subtree_count(self.dirs@, self.files@, a)
        &&& forall|a: int|
            0 <= a < self.dirs@.len() ==> records::last_write(
                self.dirs@,
                self.files@,
                a,
                #[trigger] self.mtime@[a],
            )
    }

    /// The chained lists are those of the folders and of the files.
    pub open spec fn linked(self) -> bool {
        &&& self.dir_links.chains(self.dirs@.len() as int, dir_owners(self.dirs@))
        &&& self.file_links.chains(self.dirs@.len() as int, file_owners(self.files@))
    }

    /// Every folder stands at the place of its number, the totals are right, and so
    /// are the lists of children.
    pub open spec fn wf(self) -> bool {
        &&& self.dirs@.len() <= u32::MAX
        &&& self.files@.len() <= u32::MAX
        &&& forall|i: int| 0 <= i < self.dirs@.len() ==> (#[trigger] self.dirs@[i]).id == i
        &&& self.totals_right()
        &&& self.linked()
    }

    /// Every file lies in a folder of the index.
    pub open spec fn all_placed(self) -> bool {
        forall|i: int|
            0 <= i < self.files@.len() ==> (#[trigger] self.files@[i]).parent < self.dirs@.len()
    }

    /// The path of a file: its name, taken from the path of its folder.
    pub open spec fn path_of_file(self, idx: int) -> Seq<char> {
        path::joined(
            path::path_of(self.dirs@, self.files@[idx].parent),
            self.files@[idx].name@,
        )
    }

    /// What a search shows of folder `i`.
    pub open spec fn dir_row(self, i: int) -> RowView {
        RowView {
            id: i as u32,
            name: self.dirs@[i].name@,
            size: self.size@[i],
            count: self.count@[i],
            mtime: self.mtime@[i],
            is_dir: true,
            path: path::path_of(self.dirs@, i as u32),
        }
    }

    /// What a search shows of file `i`.
    pub open spec fn file_row(self, i: int) -> RowView {
        RowView {
            id: i as u32,
            name: self.files@[i].name@,
            size: self.files@[i].size,
            count: 1,
            mtime: self.files@[i].mtime,
            is_dir: false,
            path: self.path_of_file(i),
        }
    }

    /// The names of the folders, in lower case.
    pub open spec fn low_dirs(self) -> Seq<Seq<char>> {
        Seq::new(self.dirs@.len(), |i: int| text::lower_text(self.dirs@[i].name@))
    }

    /// The names of the files, in lower case.
    pub open spec fn low_files(self) -> Seq<Seq<char>> {
        Seq::new(self.files@.len(), |i: int| text::lower_text(self.files@[i].name@))
    }

    /// The folders below number `k` whose name a search finds. `nd` holds the names of
    /// the folders in lower case.
    pub open spec fn dir_hits(self, nd: Seq<Seq<char>>, needle: Seq<u8>, k: int) -> Seq<RowView>
        decreases k,
    {
        if k <= 0 {
            Seq::empty()
        } else if is_found(self.dirs@[k - 1].name@, nd[k - 1], needle) {
            self.dir_hits(nd, needle, k - 1).push(self.dir_row(k - 1))
        } else {
            self.dir_hits(nd, needle, k - 1)
        }
    }

    /// The files below number `k` whose name a search finds. `nf` holds the names of the
    /// files in lower case.
    pub open spec fn file_hits(self, nf: Seq<Seq<char>>, needle: Seq<u8>, k: int) -> Seq<RowView>
        decreases k,
    {
        if k <= 0 {
            Seq::empty()
        } else if is_found(self.files@[k - 1].name@, nf[k - 1], needle) {
            self.file_hits(nf, needle, k - 1).push(self.file_row(k - 1))
        } else {
            self.file_hits(nf, needle, k - 1)
        }
    }

    /// The folders that a search finds: `limit` of them at most. A limit of zero still
    /// lets one through.
    pub open spec fn dirs_found(self, nd: Seq<Seq<char>>, needle: Seq<u8>, limit: nat) -> Seq<
        RowView,
    > {
        first(
            self.dir_hits(nd, needle, self.dirs@.len() as int),
            if limit == 0 {
                1
            } else {
                limit
            },
        )
    }

    /// What a search finds among names in lower case: folders first, then files, `limit`
    /// of them at most.
    pub open spec fn found_in(
        self,
        nd: Seq<Seq<char>>,
        nf: Seq<Seq<char>>,
        needle: Seq<u8>,
        limit: nat,
    ) -> Seq<RowView> {
        let d = self.dirs_found(nd, needle, limit);
        if d.len() < limit {
            d + first(
                self.file_hits(nf, needle, self.files@.len() as int),
                (limit - d.len()) as nat,
            )
        } else {
            d
        }
    }

    /// What a search finds.
    pub open spec fn found(self, needle: Seq<u8>, limit: nat) -> Seq<RowView> {
        self.found_in(self.low_dirs(), self.low_files(), needle, limit)
    }

    /// A search comes to show file `i`.
    pub open spec fn shows(
        self,
        nd: Seq<Seq<char>>,
        nf: Seq<Seq<char>>,
        needle: Seq<u8>,
        limit: nat,
        i: int,
    ) -> bool {
        &&& is_found(self.files@[i].name@, nf[i], needle)
        &&& self.dirs_found(nd, needle, limit).len() + self.file_hits(nf, needle, i).len() < limit
    }

    /// Every file that a search comes to show lies in a folder of the index.
    pub open spec fn shows_placed_in(
        self,
        nd: Seq<Seq<char>>,
        nf: Seq<Seq<char>>,
        needle: Seq<u8>,
        limit: nat,
    ) -> bool {
        forall|i: int|
            0 <= i < self.files@.len() && #[trigger] self.shows(nd, nf, needle, limit, i)
                ==> self.files@[i].parent < self.dirs@.len()
    }

    /// Every file that a search comes to show lies in a folder of the index.
    pub open spec fn shows_placed(self, needle: Seq<u8>, limit: nat) -> bool {
        self.shows_placed_in(self.low_dirs(), self.low_files(), needle, limit)
    }

    proof fn lemma_dir_hits(self, nd: Seq<Seq<char>>, needle: Seq<u8>, j: int, k: int)
        requires
            0 <= j <= k,
        ensures
            self.dir_hits(nd, needle, j).len() <= self.dir_hits(nd, needle, k).len(),
            self.dir_hits(nd, needle, j) =~= self.dir_hits(nd, needle, k).take(
                self.dir_hits(nd, needle, j).len() as int,
            ),
        decreases k,
    {
        if j < k {
            self.lemma_dir_hits(nd, needle, j, k - 1);
        }
    }

    proof fn lemma_file_hits(self, nf: Seq<Seq<char>>, needle: Seq<u8>, j: int, k: int)
        requires
            0 <= j <= k,
        ensures
            self.file_hits(nf, needle, j).len() <= self.file_hits(nf, needle, k).len(),
            self.file_hits(nf, needle, j) =~= self.file_hits(nf, needle, k).take(
                self.file_hits(nf, needle, j).len() as int,
            ),
        decreases k,
    {
        if j < k {
            self.lemma_file_hits(nf, needle, j, k - 1);
        }
    }
}

/// Law: a search does not look at case, neither in the names nor in what is searched for:
/// a name whose lower case holds the text is found however it is spelt, and texts that are
/// the same in lower case find the same.
pub proof fn law_search_any_case(
    s: Snapshot,
    a: Seq<char>,
    b: Seq<char>,
    needle: Seq<u8>,
    limit: nat,
)
    requires
        text::lower_text(a) == text::lower_text(b),
    ensures
        holds_bytes(text::lower_text(a), needle) ==> finds(a, needle) && finds(b, needle),
        s.found(vstd::utf8::encode_utf8(text::lower_text(a)), limit) == s.found(
            vstd::utf8::encode_utf8(text::lower_text(b)),
            limit,
        ),
{
}

proof fn lemma_whole(h: Seq<u8>)
    requires
        h.len() > 0,
    ensures
        occurs_at(h, h, 0),
{
    assert(h.subrange(0, h.len() as int) =~= h);
}

/// Law: a name is found by its own spelling, in any script.
pub proof fn law_found_by_own_spelling(name: Seq<char>)
    requires
        text::lower_text(name).len() > 0,
    ensures
        finds(name, vstd::utf8::encode_utf8(text::lower_text(name))),
{
    let h = vstd::utf8::encode_utf8(text::lower_text(name));
    assert(h.len() > 0) by {
        let t = text::lower_text(name);
        assert(h == vstd::utf8::encode_scalar(t[0] as u32) + vstd::utf8::encode_utf8(
            t.drop_first(),
        ));
    }
    lemma_whole(h);
}

proof fn lemma_low_char(a: char, b: char)
    requires
        text::lower_char(a) == text::lower_char(b),
    ensures
        low_bytes(vstd::utf8::encode_scalar(a as u32)) == low_bytes(
            vstd::utf8::encode_scalar(b as u32),
        ),
{
    text::lemma_scalar_bytes(a);
    text::lemma_scalar_bytes(b);
    if a != b {
        assert(low_bytes(seq![a as u8]) =~= seq![low_byte(a as u8)]);
        assert(low_bytes(seq![b as u8]) =~= seq![low_byte(b as u8)]);
    }
}

proof fn lemma_low_bytes(a: Seq<char>, b: Seq<char>)
    requires
        text::same_but_case(a, b),
    ensures
        low_bytes(vstd::utf8::encode_utf8(a)) == low_bytes(vstd::utf8::encode_utf8(b)),
    decreases a.len(),
{
    let f = |c: char| text::lower_char(c);
    let la = a.map_values(f);
    let lb = b.map_values(f);
    assert(la.len() == a.len() && lb.len() == b.len());
    if a.len() > 0 {
        let x = a.drop_first();
        let y = b.drop_first();
        assert(x.map_values(f) =~= la.drop_first());
        assert(y.map_values(f) =~= lb.drop_first());
        lemma_low_bytes(x, y);
        assert(la[0] == text::lower_char(a[0]) && lb[0] == text::lower_char(b[0]));
        lemma_low_char(a[0], b[0]);
        let ha = vstd::utf8::encode_scalar(a[0] as u32);
        let hb = vstd::utf8::encode_scalar(b[0] as u32);
        let ta = vstd::utf8::encode_utf8(x);
        let tb = vstd::utf8::encode_utf8(y);
        assert(low_bytes(ha + ta) =~= low_bytes(ha) + low_bytes(ta));
        assert(low_bytes(hb + tb) =~= low_bytes(hb) + low_bytes(tb));
    }
}

/// Law: names that differ in the case of their ASCII letters alone hold the same texts as
/// `contains_ci` sees them, whatever else they hold; where they are made of ASCII
/// characters, they are the same in lower case, and a search finds both or none.
pub proof fn law_ascii_case(a: Seq<char>, b: Seq<char>, needle: Seq<u8>)
    requires
        text::same_but_case(a, b),
    ensures
        contains_ascii(a, needle) == contains_ascii(b, needle),
        vstd::utf8::is_ascii_chars(a) ==> {
            &&& text::lower_text(a) == text::lower_text(b)
            &&& finds(a, needle) == finds(b, needle)
        },
{
    lemma_low_bytes(a, b);
    if vstd::utf8::is_ascii_chars(a) {
        let f = |c: char| text::lower_char(c);
        let la = a.map_values(f);
        let lb = b.map_values(f);
        assert(la.len() == a.len() && lb.len() == b.len());
        assert forall|i: int| 0 <= i < b.len() implies '\0' <= #[trigger] b[i] <= '\u{7f}' by {
            assert(la[i] == lb[i]);
            assert('\0' <= a[i] <= '\u{7f}');
            lemma_ascii_back(a[i], b[i]);
        }
    }
}

proof fn lemma_ascii_back(a: char, b: char)
    requires
        a <= '\u{7f}',
        text::lower_char(a) == text::lower_char(b),
    ensures
        b <= '\u{7f}',
{
}

/// Law: with room enough, a search shows every folder and every file whose name it finds,
/// each with its totals and its path, and nothing else.
pub proof fn law_search_finds_all(s: Snapshot, needle: Seq<u8>, limit: nat)
    requires
        limit >= 1,
        s.dirs@.len() + s.files@.len() <= limit,
    ensures
        forall|i: int|
            #![trigger s.dirs@[i]]
            0 <= i < s.dirs@.len() && finds(s.dirs@[i].name@, needle) ==> s.found(
                needle,
                limit,
            ).contains(s.dir_row(i)),
        forall|i: int|
            #![trigger s.files@[i]]
            0 <= i < s.files@.len() && finds(s.files@[i].name@, needle) ==> s.found(
                needle,
                limit,
            ).contains(s.file_row(i)),
        forall|x: int|
            0 <= x < s.found(needle, limit).len() ==> is_hit(
                s,
                needle,
                #[trigger] s.found(needle, limit)[x],
            ),
{
    let nd = s.low_dirs();
    let nf = s.low_files();
    let dh = s.dir_hits(nd, needle, s.dirs@.len() as int);
    let fh = s.file_hits(nf, needle, s.files@.len() as int);
    lemma_hits(s, needle, s.dirs@.len() as int, s.files@.len() as int);
    let all = s.found(needle, limit);
    assert(all =~= dh + fh);
    assert forall|i: int|
        #![trigger s.dirs@[i]]
        0 <= i < s.dirs@.len() && finds(s.dirs@[i].name@, needle) implies all.contains(
        s.dir_row(i),
    ) by {
        assert(dh.contains(s.dir_row(i)));
        let x = choose|x: int| 0 <= x < dh.len() && dh[x] == s.dir_row(i);
        assert(all[x] == dh[x]);
    }
    assert forall|i: int|
        #![trigger s.files@[i]]
        0 <= i < s.files@.len() && finds(s.files@[i].name@, needle) implies all.contains(
        s.file_row(i),
    ) by {
        assert(fh.contains(s.file_row(i)));
        let x = choose|x: int| 0 <= x < fh.len() && fh[x] == s.file_row(i);
        assert(all[dh.len() + x] == fh[x]);
    }
    assert forall|x: int| 0 <= x < all.len() implies is_hit(s, needle, #[trigger] all[x]) by {
        if x < dh.len() {
            assert(all[x] == dh[x]);
        } else {
            assert(all[x] == fh[x - dh.len()]);
        }
    }
}

/// The row is that of a folder, or of a file, whose name a search finds.
pub open spec fn is_hit(s: Snapshot, needle: Seq<u8>, row: RowView) -> bool {
    ||| exists|i: int|
        #![trigger s.dir_row(i)]
        0 <= i < s.dirs@.len() && finds(s.dirs@[i].name@, needle) && row == s.dir_row(i)
    ||| exists|i: int|
        #![trigger s.file_row(i)]
        0 <= i < s.files@.len() && finds(s.files@[i].name@, needle) && row == s.file_row(i)
}

proof fn lemma_hits(s: Snapshot, needle: Seq<u8>, m: int, n: int)
    requires
        0 <= m <= s.dirs@.len(),
        0 <= n <= s.files@.len(),
    ensures
        s.dir_hits(s.low_dirs(), needle, m).len() <= m,
        s.file_hits(s.low_files(), needle, n).len() <= n,
        forall|i: int|
            #![trigger s.dirs@[i]]
            0 <= i < m && finds(s.dirs@[i].name@, needle) ==> s.dir_hits(
                s.low_dirs(),
                needle,
                m,
            ).contains(s.dir_row(i)),
        forall|i: int|
            #![trigger s.files@[i]]
            0 <= i < n && finds(s.files@[i].name@, needle) ==> s.file_hits(
                s.low_files(),
                needle,
                n,
            ).contains(s.file_row(i)),
        forall|x: int|
            0 <= x < s.dir_hits(s.low_dirs(), needle, m).len() ==> is_hit(
                s,
                needle,
                #[trigger] s.dir_hits(s.low_dirs(), needle, m)[x],
            ),
        forall|x: int|
            0 <= x < s.file_hits(s.low_files(), needle, n).len() ==> is_hit(
                s,
                needle,
                #[trigger] s.file_hits(s.low_files(), needle, n)[x],
            ),
    decreases m + n,
{
    let nd = s.low_dirs();
    let nf = s.low_files();
    if m > 0 {
        lemma_hits(s, needle, m - 1, n);
        let before = s.dir_hits(nd, needle, m - 1);
        let after = s.dir_hits(nd, needle, m);
        assert(nd[m - 1] == text::lower_text(s.dirs@[m - 1].name@));
        assert forall|i: int|
            #![trigger s.dirs@[i]]
            0 <= i < m && finds(s.dirs@[i].name@, needle) implies after.contains(
            s.dir_row(i),
        ) by {
            if i == m - 1 {
                assert(after[before.len() as int] == s.dir_row(i));
            } else {
                let x = choose|x: int| 0 <= x < before.len() && before[x] == s.dir_row(i);
                assert(after[x] == before[x]);
            }
        }
    } else if n > 0 {
        lemma_hits(s, needle, m, n - 1);
        let before = s.file_hits(nf, needle, n - 1);
        let after = s.file_hits(nf, needle, n);
        assert(nf[n - 1] == text::lower_text(s.files@[n - 1].name@));
        assert forall|i: int|
            #![trigger s.files@[i]]
            0 <= i < n && finds(s.files@[i].name@, needle) implies after.contains(
            s.file_row(i),
        ) by {
            if i == n - 1 {
                assert(after[before.len() as int] == s.file_row(i));
            } else {
                let x = choose|x: int| 0 <= x < before.len() && before[x] == s.file_row(i);
                assert(after[x] == before[x]);
            }
        }
    }
}

/// The first `n` items, or all of them where there are fewer.
pub open spec fn first<A>(s: Seq<A>, n: nat) -> Seq<A> {
    if s.len() <= n {
        s
    } else {
        s.take(n as int)
    }
}

/// Puts every folder at the place of its number.
fn by_number(dirs: Vec<DirRec>) -> (r: Vec<DirRec>)
    requires
        numbered(dirs@),
    ensures
        r@.len() == dirs@.len(),
        forall|i: int|
            0 <= i < dirs@.len() ==> r@[(#[trigger] dirs@[i]).id as int] == dirs@[i],
        forall|i: int| 0 <= i < r@.len() ==> (#[trigger] r@[i]).id == i,
{
    let ghost all = dirs@;
    let n = dirs.len();
    let mut rest = dirs;
    let mut slots: Vec<Option<DirRec>> = Vec::new();
    let mut i: usize = 0;
    while i < n
        invariant
            i <= n,
            slots@.len() == i,
            forall|j: int| 0 <= j < i ==> #[trigger] slots@[j] is None,
        decreases n - i,
    {
        slots.push(None);
        i = i + 1;
    }
    // Slots are filled backwards, so that popping them gives the order of the numbers.
    while rest.len() > 0
        invariant
            numbered(all),
            all.len() == n,
            slots@.len() == n,
            rest@.len() <= n,
            rest@ == all.take(rest@.len() as int),
            forall|j: int|
                rest@.len() <= j < n ==> slots@[n - 1 - (#[trigger] all[j]).id] == Some(all[j]),
        decreases rest@.len(),
    {
        let ghost k = rest@.len() - 1;
        let d = rest.pop().unwrap();
        assert(d == all[k]);
        let at = n - 1 - d.id as usize;
        slots.set(at, Some(d));
        assert(rest@ =~= all.take(k));
        proof {
            assert forall|j: int| rest@.len() <= j < n implies slots@[n - 1 - (#[trigger] all[j]).id]
                == Some(all[j]) by {
                if j != k {
                    assert(all[k].id != all[j].id);
                }
            }
        }
    }
    proof {
        lemma_all_numbers(all);
    }
    let ghost full = slots@;
    let mut out: Vec<DirRec> = Vec::new();
    while slots.len() > 0
        invariant
            all.len() == n,
            numbered(all),
            full.len() == n,
            forall|j: int| 0 <= j < n ==> full[n - 1 - (#[trigger] all[j]).id] == Some(all[j]),
            forall|v: int| 0 <= v < n ==> #[trigger] has_number(all, v),
            slots@.len() + out@.len() == n,
            slots@ == full.take(slots@.len() as int),
            forall|v: int| 0 <= v < out@.len() ==> full[n - 1 - v] == Some(#[trigger] out@[v]),
            forall|v: int| 0 <= v < out@.len() ==> (#[trigger] out@[v]).id == v,
        decreases slots@.len(),
    {
        let ghost v = out@.len() as int;
        let ghost m = slots@.len() as int;
        proof {
            assert(has_number(all, v));
            let j = choose|j: int| 0 <= j < all.len() && (#[trigger] all[j]).id == v;
            assert(full[n - 1 - all[j].id] == Some(all[j]));
            assert(slots@[m - 1] == full[m - 1]);
        }
        let d = slots.pop().unwrap().unwrap();
        assert(slots@ =~= full.take(m - 1));
        out.push(d);
    }
    proof {
        assert forall|j: int| 0 <= j < n implies out@[(#[trigger] all[j]).id as int] == all[j] by {
            let v = all[j].id as int;
            assert(full[n - 1 - v] == Some(out@[v]));
        }
    }
    out
}

/// Some folder has number `v`.
pub open spec fn has_number(dirs: Seq<DirRec>, v: int) -> bool {
    exists|j: int| 0 <= j < dirs.len() && (#[trigger] dirs[j]).id == v
}

/// As many numbers as folders, all below their count and all different: every number
/// is there.
pub proof fn lemma_all_numbers(dirs: Seq<DirRec>)
    requires
        numbered(dirs),
    ensures
        forall|v: int| 0 <= v < dirs.len() ==> #[trigger] has_number(dirs, v),
{
    let ids = dirs.map_values(|d: DirRec| d.id as int);
    assert(ids.no_duplicates()) by {
        assert forall|i: int, j: int| 0 <= i < ids.len() && 0 <= j < ids.len() && i != j implies
            ids[i] != ids[j] by {
            if i < j {
                assert(dirs[i].id != dirs[j].id);
            } else {
                assert(dirs[j].id != dirs[i].id);
            }
        }
    }
    let all = vstd::set_lib::set_int_range(0, dirs.len() as int);
    vstd::set_lib::lemma_int_range(0, dirs.len() as int);
    ids.unique_seq_to_set();
    assert(ids.to_set().subset_of(all)) by {
        assert forall|v: int| ids.to_set().contains(v) implies all.contains(v) by {
            let i = choose|i: int| 0 <= i < ids.len() && ids[i] == v;
            assert(dirs[i].id < dirs.len());
        }
    }
    vstd::set_lib::lemma_subset_equality(ids.to_set(), all);
    assert forall|v: int| 0 <= v < dirs.len() implies #[trigger] has_number(dirs, v) by {
        assert(ids.to_set().contains(v));
        let j = choose|j: int| 0 <= j < ids.len() && ids[j] == v;
        assert(dirs[j].id == v);
    }
}

/// The text holds the bytes of the needle.
pub fn holds(t: &str, needle: &[u8]) -> (r: bool)
    ensures
        r == holds_bytes(t@, needle@),
{
    let h = t.as_bytes();
    if needle.len() == 0 || h.len() < needle.len() {
        return false;
    }
    let last = h.len() - needle.len();
    let mut i: usize = 0;
    while i <= last
        invariant
            needle@.len() > 0,
            last + needle@.len() == h@.len() <= usize::MAX,
            h@ == vstd::utf8::encode_utf8(t@),
            i <= last + 1,
            forall|k: int| 0 <= k < i ==> !(#[trigger] occurs_at(h@, needle@, k)),
        decreases last + 1 - i,
    {
        let mut j: usize = 0;
        while j < needle.len() && h[i + j] == needle[j]
            invariant
                i + needle@.len() <= h@.len() <= usize::MAX,
                j <= needle@.len(),
                forall|k: int| 0 <= k < j ==> h@[i + k] == #[trigger] needle@[k],
            decreases needle@.len() - j,
        {
            j = j + 1;
        }
        let ghost here = h@.subrange(i as int, i + needle@.len());
        if j == needle.len() {
            assert(here =~= needle@);
            assert(occurs_at(h@, needle@, i as int));
            return true;
        }
        assert(here[j as int] != needle@[j as int]);
        assert(!occurs_at(h@, needle@, i as int));
        i = i + 1;
    }
    false
}

fn to_low_byte(b: u8) -> (r: u8)
    ensures
        r == low_byte(b),
{
    if b >= 0x41 && b <= 0x5A {
        b + 32
    } else {
        b
    }
}

/// The text, with its ASCII letters in lower case, holds the bytes of the needle. Other
/// letters are compared as they are.
pub fn contains_ci(hay: &str, needle: &[u8]) -> (r: bool)
    ensures
        r == contains_ascii(hay@, needle@),
{
    let h = hay.as_bytes();
    let ghost low = low_bytes(vstd::utf8::encode_utf8(hay@));
    if needle.len() == 0 || h.len() < needle.len() {
        return false;
    }
    let last = h.len() - needle.len();
    let mut i: usize = 0;
    while i <= last
        invariant
            needle@.len() > 0,
            last + needle@.len() == h@.len() <= usize::MAX,
            h@ == vstd::utf8::encode_utf8(hay@),
            low == low_bytes(h@),
            i <= last + 1,
            forall|k: int| 0 <= k < i ==> !(#[trigger] occurs_at(low, needle@, k)),
        decreases last + 1 - i,
    {
        let mut j: usize = 0;
        while j < needle.len() && to_low_byte(h[i + j]) == needle[j]
            invariant
                i + needle@.len() <= h@.len() <= usize::MAX,
                low == low_bytes(h@),
                j <= needle@.len(),
                forall|k: int| 0 <= k < j ==> low[i + k] == #[trigger] needle@[k],
            decreases needle@.len() - j,
        {
            j = j + 1;
        }
        let ghost here = low.subrange(i as int, i + needle@.len());
        if j == needle.len() {
            assert(here =~= needle@);
            assert(occurs_at(low, needle@, i as int));
            return true;
        }
        assert(here[j as int] != needle@[j as int]);
        assert(!occurs_at(low, needle@, i as int));
        i = i + 1;
    }
    false
}

impl Snapshot {
    /// Builds the index of what a walk recorded. Folders may come in any order.
    pub fn new(
        root: String,
        dirs: Vec<DirRec>,
        files: Vec<FileRec>,
        elapsed_ms: u64,
        errors: u64,
        finished_ms: i64,
    ) -> (s: Snapshot)
        requires
            dirs@.len() <= u32::MAX,
            files@.len() <= u32::MAX,
            numbered(dirs@),
        ensures
            s.wf(),
            s.root@ == root@,
            s.dirs@.len() == dirs@.len(),
            forall|i: int|
                0 <= i < dirs@.len() ==> s.dirs@[(#[trigger] dirs@[i]).id as int] == dirs@[i],
            s.files@ == files@,
            s.elapsed_ms == elapsed_ms,
            s.finished_ms == finished_ms,
            s.errors == errors,
            s.unreadable@.len() == 0,
            s.unreadable_total == 0,
            s.unreadable_droits == 0,
            s.skipped == 0,
    {
        let dirs = by_number(dirs);
        let t = aggregate::totals(&dirs, &files);
        let n = dirs.len();
        let mut owners: Vec<u32> = Vec::new();
        let mut i: usize = 0;
        while i < n
            invariant
                i <= n == dirs@.len() <= u32::MAX,
                owners@ == dir_owners(dirs@).take(i as int),
            decreases n - i,
        {
            let p = dirs[i].parent;
            let owner: u32 = if (p as usize) < n && p as usize != i {
                p
            } else {
                links::NONE
            };
            owners.push(owner);
            assert(dir_owners(dirs@).take(i + 1) =~= dir_owners(dirs@).take(i as int).push(owner));
            i = i + 1;
        }
        assert(owners@ =~= dir_owners(dirs@));
        let dir_links = Links::build(n, &owners);
        let mut fowners: Vec<u32> = Vec::new();
        let mut k: usize = 0;
        while k < files.len()
            invariant
                k <= files@.len() <= u32::MAX,
                fowners@ == file_owners(files@).take(k as int),
            decreases files@.len() - k,
        {
            let p = files[k].parent;
            fowners.push(p);
            assert(file_owners(files@).take(k + 1) =~= file_owners(files@).take(k as int).push(p));
            k = k + 1;
        }
        assert(fowners@ =~= file_owners(files@));
        let file_links = Links::build(n, &fowners);
        Snapshot {
            root,
            dirs,
            files,
            size: t.size,
            count: t.count,
            mtime: t.mtime,
            dir_links,
            file_links,
            elapsed_ms,
            finished_ms,
            errors,
            unreadable: Vec::new(),
            unreadable_total: 0,
            unreadable_droits: 0,
            skipped: 0,
        }
    }

    pub fn n_dirs(&self) -> (r: usize)
        ensures
            r == self.dirs@.len(),
    {
        self.dirs.len()
    }

    pub fn n_files(&self) -> (r: usize)
        ensures
            r == self.files@.len(),
    {
        self.files.len()
    }

    /// The folders that lie directly in folder `id`; none where there is no such folder.
    pub fn child_dirs(&self, id: u32) -> (r: Vec<u32>)
        requires
            self.wf(),
        ensures
            r@ == child_dir_list(self.dirs@, self.dirs@.len() as int, id),
    {
        proof {
            if id < self.dirs@.len() {
                lemma_dir_owned(self.dirs@, self.dirs@.len() as int, id);
            } else {
                lemma_no_child(self.dirs@, self.files@, self.dirs@.len() as int, id);
            }
        }
        self.dir_links.list(id, Ghost(self.dirs@.len() as int), Ghost(dir_owners(self.dirs@)))
    }

    /// The files that lie directly in folder `id`; none where there is no such folder.
    pub fn child_files(&self, id: u32) -> (r: Vec<u32>)
        requires
            self.wf(),
        ensures
            r@ == child_file_list(self.dirs@, self.files@, self.files@.len() as int, id),
    {
        proof {
            if id < self.dirs@.len() {
                lemma_file_owned(self.dirs@, self.files@, self.files@.len() as int, id);
            } else {
                lemma_no_child(self.dirs@, self.files@, self.files@.len() as int, id);
            }
        }
        self.file_links.list(id, Ghost(self.dirs@.len() as int), Ghost(file_owners(self.files@)))
    }

    /// The path of a folder, as it is shown: without the verbatim prefix.
    pub fn dir_path(&self, id: u32) -> (r: String)
        requires
            id < self.dirs@.len(),
        ensures
            r@ == path::path_of(self.dirs@, id),
    {
        path::folder_path(&self.dirs, id)
    }

    /// The path of a file.
    pub fn file_path(&self, idx: u32) -> (r: String)
        requires
            idx < self.files@.len(),
            self.files@[idx as int].parent < self.dirs@.len(),
        ensures
            r@ == self.path_of_file(idx as int),
    {
        let f = &self.files[idx as usize];
        let p = self.dir_path(f.parent);
        path::join(p.as_str(), f.name.as_str())
    }

    /// Looks for a text in the names: folders first, then files. The text comes in lower
    /// case, as `str::to_lowercase` gives it. A capital that it holds all the same finds
    /// that capital alone, and an ASCII one finds nothing.
    pub fn search(&self, needle_lower: &str, limit: usize) -> (r: Vec<Row>)
        requires
            self.wf(),
            self.shows_placed(vstd::utf8::encode_utf8(needle_lower@), limit as nat),
        ensures
            records::shown(r@) == self.found(
                vstd::utf8::encode_utf8(needle_lower@),
                limit as nat,
            ),
    {
        let (nd, nf) = self.folded();
        self.search_in(&nd, &nf, needle_lower, limit).unwrap()
    }

    /// Looks for a text as `search` does; gives nothing where a file to show lies in no
    /// folder of the index, and so has no path.
    pub fn find(&self, needle_lower: &str, limit: usize) -> (r: Option<Vec<Row>>)
        requires
            self.wf(),
        ensures
            r is Some <==> self.shows_placed(
                vstd::utf8::encode_utf8(needle_lower@),
                limit as nat,
            ),
            r matches Some(rows) ==> records::shown(rows@) == self.found(
                vstd::utf8::encode_utf8(needle_lower@),
                limit as nat,
            ),
    {
        if self.placed() {
            return Some(self.search(needle_lower, limit));
        }
        let (nd, nf) = self.folded();
        self.search_in(&nd, &nf, needle_lower, limit)
    }

    /// Every file lies in a folder of the index, as after any walk.
    fn placed(&self) -> (r: bool)
        ensures
            r == self.all_placed(),
    {
        let mut i: usize = 0;
        while i < self.files.len()
            invariant
                i <= self.files@.len(),
                forall|k: int|
                    0 <= k < i ==> (#[trigger] self.files@[k]).parent < self.dirs@.len(),
            decreases self.files@.len() - i,
        {
            if self.files[i].parent as usize >= self.dirs.len() {
                assert(!(self.files@[i as int].parent < self.dirs@.len()));
                return false;
            }
            i = i + 1;
        }
        true
    }

    /// The names of the folders and of the files, in lower case.
    fn folded(&self) -> (r: (Vec<String>, Vec<String>))
        ensures
            r.0@.len() == self.dirs@.len(),
            r.1@.len() == self.files@.len(),
            split::texts(r.0@) == self.low_dirs(),
            split::texts(r.1@) == self.low_files(),
    {
        let mut nd: Vec<String> = Vec::new();
        let mut i: usize = 0;
        while i < self.dirs.len()
            invariant
                i <= self.dirs@.len(),
                nd@.len() == i,
                forall|k: int| 0 <= k < i ==> (#[trigger] nd@[k])@ == self.low_dirs()[k],
            decreases self.dirs@.len() - i,
        {
            let low = text::to_lowercase(self.dirs[i].name.as_str());
            nd.push(low);
            i = i + 1;
        }
        let mut nf: Vec<String> = Vec::new();
        let mut j: usize = 0;
        while j < self.files.len()
            invariant
                j <= self.files@.len(),
                nf@.len() == j,
                forall|k: int| 0 <= k < j ==> (#[trigger] nf@[k])@ == self.low_files()[k],
            decreases self.files@.len() - j,
        {
            let low = text::to_lowercase(self.files[j].name.as_str());
            nf.push(low);
            j = j + 1;
        }
        assert(split::texts(nd@) =~= self.low_dirs());
        assert(split::texts(nf@) =~= self.low_files());
        (nd, nf)
    }

    /// Looks for a text, given in lower case, in names that come in lower case: `nd` those
    /// of the folders, `nf` those of the files. Gives nothing where a file to show lies in
    /// no folder of the index.
    pub fn search_in(
        &self,
        nd: &Vec<String>,
        nf: &Vec<String>,
        needle_lower: &str,
        limit: usize,
    ) -> (r: Option<Vec<Row>>)
        requires
            self.wf(),
            nd@.len() == self.dirs@.len(),
            nf@.len() == self.files@.len(),
        ensures
            r is Some <==> self.shows_placed_in(
                split::texts(nd@),
                split::texts(nf@),
                vstd::utf8::encode_utf8(needle_lower@),
                limit as nat,
            ),
            r matches Some(rows) ==> records::shown(rows@) == self.found_in(
                split::texts(nd@),
                split::texts(nf@),
                vstd::utf8::encode_utf8(needle_lower@),
                limit as nat,
            ),
    {
        let needle = needle_lower.as_bytes();
        let ghost dn = split::texts(nd@);
        let ghost low = split::texts(nf@);
        let ghost most = if limit == 0 {
            1nat
        } else {
            limit as nat
        };
        let mut out: Vec<Row> = Vec::new();
        assert(records::shown(out@) =~= self.dir_hits(dn, needle@, 0));
        let mut i: usize = 0;
        let mut full = false;
        while i < self.dirs.len() && !full
            invariant
                self.wf(),
                nd@.len() == self.dirs@.len(),
                dn == split::texts(nd@),
                i <= self.dirs@.len(),
                most == (if limit == 0 {
                    1nat
                } else {
                    limit as nat
                }),
                records::shown(out@) == self.dir_hits(dn, needle@, i as int),
                full ==> out@.len() == most,
                !full ==> out@.len() < most,
            decreases self.dirs@.len() - i,
        {
            assert(dn[i as int] == nd@[i as int]@);
            if contains_ci(self.dirs[i].name.as_str(), needle) || holds(nd[i].as_str(), needle) {
                let ghost before = out@;
                let row = Row {
                    id: i as u32,
                    name: self.dirs[i].name.clone(),
                    size: self.size[i],
                    count: self.count[i],
                    mtime: self.mtime[i],
                    is_dir: true,
                    path: self.dir_path(i as u32),
                };
                assert(row@ == self.dir_row(i as int));
                out.push(row);
                assert(records::shown(out@) =~= records::shown(before).push(row@));
                if out.len() >= limit {
                    full = true;
                }
            }
            i = i + 1;
        }
        let ghost d = self.dirs_found(dn, needle@, limit as nat);
        proof {
            self.lemma_dir_hits(dn, needle@, i as int, self.dirs@.len() as int);
            assert(records::shown(out@).len() == out@.len());
            assert(records::shown(out@) =~= d);
        }
        if out.len() < limit {
            let mut k: usize = 0;
            let mut done = false;
            assert(records::shown(out@) =~= d + self.file_hits(low, needle@, 0));
            while k < self.files.len() && !done
                invariant
                    self.wf(),
                    nf@.len() == self.files@.len(),
                    low == split::texts(nf@),
                    k <= self.files@.len(),
                    d == self.dirs_found(dn, needle@, limit as nat),
                    dn == split::texts(nd@),
                    needle@ == vstd::utf8::encode_utf8(needle_lower@),
                    forall|i: int|
                        0 <= i < k && #[trigger] self.shows(dn, low, needle@, limit as nat, i)
                            ==> self.files@[i].parent < self.dirs@.len(),
                    records::shown(out@) == d + self.file_hits(low, needle@, k as int),
                    done ==> out@.len() == limit,
                    !done ==> out@.len() < limit,
                decreases self.files@.len() - k,
            {
                assert(low[k as int] == nf@[k as int]@);
                if contains_ci(self.files[k].name.as_str(), needle) || holds(nf[k].as_str(), needle) {
                    let ghost before = out@;
                    assert(records::shown(out@).len() == out@.len());
                    assert(self.shows(dn, low, needle@, limit as nat, k as int));
                    if self.files[k].parent as usize >= self.dirs.len() {
                        return None;
                    }
                    let row = Row {
                        id: k as u32,
                        name: self.files[k].name.clone(),
                        size: self.files[k].size,
                        count: 1,
                        mtime: self.files[k].mtime,
                        is_dir: false,
                        path: self.file_path(k as u32),
                    };
                    assert(row@ == self.file_row(k as int));
                    out.push(row);
                    assert(records::shown(out@) =~= records::shown(before).push(row@));
                    if out.len() >= limit {
                        done = true;
                    }
                }
                k = k + 1;
            }
            proof {
                let h = self.file_hits(low, needle@, k as int);
                self.lemma_file_hits(low, needle@, k as int, self.files@.len() as int);
                assert(records::shown(out@).len() == out@.len());
                assert(h.len() == out@.len() - d.len());
                assert(h =~= first(
                    self.file_hits(low, needle@, self.files@.len() as int),
                    (limit - d.len()) as nat,
                ));
                assert forall|i: int|
                    0 <= i < self.files@.len() && #[trigger] self.shows(
                        dn,
                        low,
                        needle@,
                        limit as nat,
                        i,
                    ) implies self.files@[i].parent < self.dirs@.len() by {
                    if i >= k {
                        self.lemma_file_hits(low, needle@, k as int, i);
                    }
                }
            }
        }
        Some(out)
    }
}

} // verus!
