//! What is shown of a volume: the content of a folder, the result of a search, the
//! folders that could not be read.

use crate::http::Query;
use crate::order;
use crate::order::Sort;
use crate::path;
use crate::records;
use crate::records::{Row, RowView, Unreadable};
use crate::refusal::Refusal;
use crate::snapshot;
use crate::snapshot::Snapshot;
use crate::text;
use vstd::prelude::*;

verus! {

// ---------------------------- parameters ----------------------------

/// The number that a parameter gives, up to `max`; `default` where there is none.
pub open spec fn number_or(v: Option<Seq<char>>, max: nat, default: nat) -> nat {
    match v {
        Some(s) => match text::number(s, max) {
            Some(n) => n,
            None => default,
        },
        None => default,
    }
}

/// The smaller of two numbers.
pub open spec fn at_most(n: nat, cap: nat) -> nat {
    if n <= cap {
        n
    } else {
        cap
    }
}

fn number_param(q: &Query, key: &str, max: u64, default: u64) -> (r: u64)
    requires
        q.wf(),
        default <= max,
    ensures
        r == number_or(q.value(key@), max as nat, default as nat),
        r <= max,
{
    match q.get(key) {
        Some(v) => match text::parse_number(v, max) {
            Some(n) => n,
            None => default,
        },
        None => default,
    }
}

fn size_param(q: &Query, key: &str, default: usize, cap: usize) -> (r: usize)
    requires
        q.wf(),
    ensures
        r == at_most(number_or(q.value(key@), usize::MAX as nat, default as nat), cap as nat),
{
    let n = number_param(q, key, usize::MAX as u64, default as u64) as usize;
    if n <= cap {
        n
    } else {
        cap
    }
}

fn is_param(q: &Query, key: &str, word: &str) -> (r: bool)
    requires
        q.wf(),
    ensures
        r == (q.value(key@) == Some(word@)),
{
    match q.get(key) {
        Some(v) => text::str_eq(v, word),
        None => false,
    }
}

/// What a listing is sorted by: the size, unless the parameter says otherwise.
pub open spec fn sort_in(v: Option<Seq<char>>) -> Sort {
    if v == Some("name"@) {
        Sort::Name
    } else if v == Some("mtime"@) {
        Sort::Mtime
    } else if v == Some("count"@) {
        Sort::Count
    } else {
        Sort::Size
    }
}

fn sort_param(q: &Query) -> (r: Sort)
    requires
        q.wf(),
    ensures
        r == sort_in(q.value("sort"@)),
{
    if is_param(q, "sort", "name") {
        Sort::Name
    } else if is_param(q, "sort", "mtime") {
        Sort::Mtime
    } else if is_param(q, "sort", "count") {
        Sort::Count
    } else {
        Sort::Size
    }
}

// ---------------------------- the content of a folder ----------------------------

/// A folder on the way to the one that is shown.
#[derive(Debug)]
pub struct Crumb {
    pub name: String,
    pub id: u32,
}

/// The content of a folder, or a page of it.
#[derive(Debug)]
pub struct TreeJson {
    pub rows: Vec<Row>,
    /// The way from the root to the folder, which is included.
    pub path: Vec<Crumb>,
    /// How many rows the folder has, on all its pages.
    pub total_size: u64,
    /// Bytes of the subtree of the folder.
    pub parent_size: u64,
    /// There are rows behind this page.
    pub truncated: bool,
}

/// What a listing shows of folder `c`.
pub open spec fn dir_line(s: Snapshot, c: u32) -> RowView {
    RowView {
        id: c,
        name: s.dirs@[c as int].name@,
        size: s.size@[c as int],
        count: s.count@[c as int],
        mtime: s.mtime@[c as int],
        is_dir: true,
        path: Seq::empty(),
    }
}

/// What a listing shows of file `c`.
pub open spec fn file_line(s: Snapshot, c: u32) -> RowView {
    RowView {
        id: c,
        name: s.files@[c as int].name@,
        size: s.files@[c as int].size,
        count: 1,
        mtime: s.files@[c as int].mtime,
        is_dir: false,
        path: Seq::empty(),
    }
}

/// The lines of a folder: its folders, then its files.
pub open spec fn lines(s: Snapshot, id: u32) -> Seq<RowView> {
    let ds = snapshot::child_dir_list(s.dirs@, s.dirs@.len() as int, id);
    let fs = snapshot::child_file_list(s.dirs@, s.files@, s.files@.len() as int, id);
    ds.map_values(|c: u32| dir_line(s, c)) + fs.map_values(|c: u32| file_line(s, c))
}

/// The way from the root to folder `id`.
pub open spec fn is_way(s: Snapshot, id: u32, way: Seq<Crumb>) -> bool {
    let c = path::chain(s.dirs@, id);
    &&& way.len() == c.len()
    &&& forall|k: int|
        0 <= k < way.len() ==> (#[trigger] way[k]).id == c[k] && way[k].name@
            == s.dirs@[c[k] as int].name@
}

/// Rows sorted, and the page that starts at `offset`.
pub open spec fn sorted_page(
    shown: Seq<RowView>,
    all: Seq<RowView>,
    by: Sort,
    asc: bool,
    offset: nat,
    limit: nat,
) -> bool {
    exists|p: Seq<usize>| #[trigger]
        order::ordered(p, all, order::lower_names(all), by, asc) && shown == order::page(
            order::taken(all, p),
            offset,
            limit,
        )
}

fn rows_of(s: &Snapshot, id: u32) -> (r: Vec<Row>)
    requires
        s.wf(),
    ensures
        records::shown(r@) == lines(*s, id),
{
    let ds = s.child_dirs(id);
    let fs = s.child_files(id);
    proof {
        snapshot::lemma_children(s.dirs@, s.files@, s.dirs@.len() as int, s.files@.len() as int, id);
    }
    let ghost dl = ds@.map_values(|c: u32| dir_line(*s, c));
    let ghost fl = fs@.map_values(|c: u32| file_line(*s, c));
    let mut rows: Vec<Row> = Vec::new();
    assert(records::shown(rows@) =~= dl.take(0));
    let mut i: usize = 0;
    while i < ds.len()
        invariant
            s.wf(),
            i <= ds@.len(),
            dl == ds@.map_values(|c: u32| dir_line(*s, c)),
            forall|k: int| 0 <= k < ds@.len() ==> (#[trigger] ds@[k]) < s.dirs@.len(),
            records::shown(rows@) == dl.take(i as int),
        decreases ds@.len() - i,
    {
        let ghost before = rows@;
        let c = ds[i];
        let row = Row {
            id: c,
            name: s.dirs[c as usize].name.clone(),
            size: s.size[c as usize],
            count: s.count[c as usize],
            mtime: s.mtime[c as usize],
            is_dir: true,
            path: String::new(),
        };
        assert(row@.path =~= Seq::empty());
        rows.push(row);
        assert(records::shown(rows@) =~= records::shown(before).push(row@));
        assert(dl.take(i + 1) =~= dl.take(i as int).push(dl[i as int]));
        i = i + 1;
    }
    assert(records::shown(rows@) =~= dl + fl.take(0));
    let mut j: usize = 0;
    while j < fs.len()
        invariant
            s.wf(),
            j <= fs@.len(),
            fl == fs@.map_values(|c: u32| file_line(*s, c)),
            forall|k: int| 0 <= k < fs@.len() ==> (#[trigger] fs@[k]) < s.files@.len(),
            records::shown(rows@) == dl + fl.take(j as int),
        decreases fs@.len() - j,
    {
        let ghost before = rows@;
        let c = fs[j];
        let row = Row {
            id: c,
            name: s.files[c as usize].name.clone(),
            size: s.files[c as usize].size,
            count: 1,
            mtime: s.files[c as usize].mtime,
            is_dir: false,
            path: String::new(),
        };
        assert(row@.path =~= Seq::empty());
        rows.push(row);
        assert(records::shown(rows@) =~= records::shown(before).push(row@));
        assert(fl.take(j + 1) =~= fl.take(j as int).push(fl[j as int]));
        assert(records::shown(rows@) =~= dl + fl.take(j + 1));
        j = j + 1;
    }
    assert(fl.take(j as int) =~= fl);
    rows
}

fn way_to(s: &Snapshot, id: u32) -> (r: Vec<Crumb>)
    requires
        id < s.dirs@.len(),
    ensures
        is_way(*s, id, r@),
{
    let way = path::lineage(&s.dirs, id);
    proof {
        path::lemma_chain(s.dirs@, id);
    }
    let mut out: Vec<Crumb> = Vec::new();
    let mut k: usize = 0;
    while k < way.len()
        invariant
            k <= way@.len(),
            forall|x: int| 0 <= x < way@.len() ==> (#[trigger] way@[x]) < s.dirs@.len(),
            out@.len() == k,
            forall|x: int|
                0 <= x < k ==> (#[trigger] out@[x]).id == way@[x] && out@[x].name@
                    == s.dirs@[way@[x] as int].name@,
        decreases way@.len() - k,
    {
        let c = way[k];
        out.push(Crumb { name: s.dirs[c as usize].name.clone(), id: c });
        k = k + 1;
    }
    out
}

/// The content of a folder, as the parameters ask for it: `id` (the root), `sort`
/// (`size`), `order` (`desc`), `offset` and `limit`.
pub fn tree(s: &Snapshot, q: &Query) -> (r: Result<TreeJson, Refusal>)
    requires
        s.wf(),
        q.wf(),
    ensures
        ({
            let id = number_or(q.value("id"@), u32::MAX as nat, 0) as u32;
            let limit = at_most(number_or(q.value("limit"@), usize::MAX as nat, 3000), 50_000);
            let offset = number_or(q.value("offset"@), usize::MAX as nat, 0);
            match r {
                Ok(t) => {
                    &&& id < s.dirs@.len()
                    &&& sorted_page(
                        records::shown(t.rows@),
                        lines(*s, id),
                        sort_in(q.value("sort"@)),
                        q.value("order"@) == Some("asc"@),
                        offset,
                        limit,
                    )
                    &&& is_way(*s, id, t.path@)
                    &&& t.total_size == lines(*s, id).len()
                    &&& t.parent_size == s.size@[id as int]
                    &&& t.truncated == (lines(*s, id).len() > offset + limit)
                },
                Err(e) => e is DirOutOfRange && id >= s.dirs@.len(),
            }
        }),
{
    let id = number_param(q, "id", u32::MAX as u64, 0) as u32;
    let by = sort_param(q);
    let asc = is_param(q, "order", "asc");
    let limit = size_param(q, "limit", 3000, 50_000);
    let offset = size_param(q, "offset", 0, usize::MAX);
    if id as usize >= s.n_dirs() {
        return Err(Refusal::DirOutOfRange);
    }
    let rows = rows_of(s, id);
    let ghost all = lines(*s, id);
    assert(records::shown(rows@).len() == rows@.len());
    let p = order::sort_rows(&rows, by, asc);
    let shown = order::pick(&rows, &p, offset, limit);
    let total = rows.len();
    assert(order::ordered(p@, all, order::lower_names(all), by, asc));
    Ok(
        TreeJson {
            rows: shown,
            path: way_to(s, id),
            total_size: total as u64,
            parent_size: s.size[id as usize],
            truncated: total > offset && total - offset > limit,
        },
    )
}

// ---------------------------- search ----------------------------

/// What a search found.
#[derive(Debug)]
pub struct SearchJson {
    pub rows: Vec<Row>,
    /// The limit was reached: there may be more.
    pub truncated: bool,
}

/// Looks for a text that comes in lower case, and shows what it found with the largest
/// first. Gives nothing where a file to show lies in no folder of the index.
pub fn search_for(s: &Snapshot, needle: &str, limit: usize) -> (r: Option<SearchJson>)
    requires
        s.wf(),
    ensures
        ({
            let n = vstd::utf8::encode_utf8(needle@);
            let found = s.found(n, limit as nat);
            &&& r is Some <==> s.shows_placed(n, limit as nat)
            &&& r matches Some(j) ==> {
                &&& sorted_page(
                    records::shown(j.rows@),
                    found,
                    Sort::Size,
                    false,
                    0,
                    found.len(),
                )
                &&& j.truncated == (found.len() >= limit)
            }
        }),
{
    let rows = match s.find(needle, limit) {
        Some(rows) => rows,
        None => { return None; },
    };
    let ghost found = s.found(vstd::utf8::encode_utf8(needle@), limit as nat);
    assert(records::shown(rows@).len() == rows@.len());
    let p = order::sort_rows(&rows, Sort::Size, false);
    let shown = order::pick(&rows, &p, 0, rows.len());
    assert(order::ordered(p@, found, order::lower_names(found), Sort::Size, false));
    Some(SearchJson { truncated: rows.len() >= limit, rows: shown })
}

/// Looks for the text of parameter `q`, whatever its case.
pub fn search(s: &Snapshot, q: &Query) -> (r: Option<SearchJson>)
    requires
        s.wf(),
        q.wf(),
    ensures
        ({
            let term = match q.value("q"@) {
                Some(t) => t,
                None => Seq::empty(),
            };
            let limit = at_most(number_or(q.value("limit"@), usize::MAX as nat, 500), 20_000);
            let n = vstd::utf8::encode_utf8(text::lower_text(term));
            let found = s.found(n, limit);
            &&& r is Some <==> s.shows_placed(n, limit)
            &&& r matches Some(j) ==> {
                &&& sorted_page(
                    records::shown(j.rows@),
                    found,
                    Sort::Size,
                    false,
                    0,
                    found.len(),
                )
                &&& j.truncated == (found.len() >= limit)
            }
        }),
{
    let limit = size_param(q, "limit", 500, 20_000);
    let needle = match q.get("q") {
        Some(t) => text::to_lowercase(t),
        None => {
            let none = String::new();
            assert(none@ =~= Seq::empty());
            text::to_lowercase(none.as_str())
        },
    };
    search_for(s, needle.as_str(), limit)
}

// ---------------------------- unreadable folders ----------------------------

/// The folders that could not be read.
#[derive(Debug)]
pub struct UnreadableJson {
    pub items: Vec<Unreadable>,
    pub total: u64,
    pub droits: u64,
    pub skipped: u64,
    /// There are more of them than are listed.
    pub tronque: bool,
}

pub fn unreadable(s: &Snapshot) -> (r: UnreadableJson)
    ensures
        r.items@.len() == s.unreadable@.len(),
        forall|i: int|
            0 <= i < r.items@.len() ==> (#[trigger] r.items@[i]).path@ == s.unreadable@[i].path@
                && r.items@[i].droits == s.unreadable@[i].droits,
        r.total == s.unreadable_total,
        r.droits == s.unreadable_droits,
        r.skipped == s.skipped,
        r.tronque == (s.unreadable@.len() < s.unreadable_total),
{
    let mut items: Vec<Unreadable> = Vec::new();
    let mut i: usize = 0;
    while i < s.unreadable.len()
        invariant
            i <= s.unreadable@.len(),
            items@.len() == i,
            forall|k: int|
                0 <= k < i ==> (#[trigger] items@[k]).path@ == s.unreadable@[k].path@
                    && items@[k].droits == s.unreadable@[k].droits,
        decreases s.unreadable@.len() - i,
    {
        items.push(
            Unreadable { path: s.unreadable[i].path.clone(), droits: s.unreadable[i].droits },
        );
        i = i + 1;
    }
    let tronque = (items.len() as u64) < s.unreadable_total;
    UnreadableJson {
        items,
        total: s.unreadable_total,
        droits: s.unreadable_droits,
        skipped: s.skipped,
        tronque,
    }
}

// ---------------------------- the system's own explorer ----------------------------

/// Folder or file `id` is in the index.
pub fn in_bounds(s: &Snapshot, id: u32, file: bool) -> (r: Result<(), Refusal>)
    ensures
        match r {
            Ok(_) => if file {
                id < s.files@.len()
            } else {
                id < s.dirs@.len()
            },
            Err(e) => if file {
                id >= s.files@.len() && e is FileOutOfRange
            } else {
                id >= s.dirs@.len() && e is DirOutOfRange
            },
        },
{
    if file {
        if id as usize >= s.n_files() {
            return Err(Refusal::FileOutOfRange);
        }
    } else {
        if id as usize >= s.n_dirs() {
            return Err(Refusal::DirOutOfRange);
        }
    }
    Ok(())
}

/// What to hand to the explorer: the path of a folder to open, or that of a file to
/// highlight where it lies.
pub fn open_arg(s: &Snapshot, id: u32, file: bool) -> (r: String)
    requires
        file ==> id < s.files@.len() && s.files@[id as int].parent < s.dirs@.len(),
        !file ==> id < s.dirs@.len(),
    ensures
        r@ == if file {
            "/select,"@ + s.path_of_file(id as int)
        } else {
            path::path_of(s.dirs@, id)
        },
{
    if file {
        let mut arg = "/select,".to_string();
        let p = s.file_path(id);
        arg.append(p.as_str());
        arg
    } else {
        s.dir_path(id)
    }
}

/// A folder of the list could not be read at this path.
pub open spec fn is_unreadable(s: Snapshot, p: Seq<char>) -> bool {
    exists|i: int| 0 <= i < s.unreadable@.len() && (#[trigger] s.unreadable@[i]).path@ == p
}

/// What to hand to the explorer to show where an unreadable folder lies. The path must be
/// one of the list: no other one is opened on demand. It goes between quotes, for a comma
/// would end it.
pub fn reveal_arg(s: &Snapshot, path: &str) -> (r: Result<String, Refusal>)
    ensures
        match r {
            Ok(arg) => is_unreadable(*s, path@) && arg@ == "/select,\""@ + path@ + "\""@,
            Err(e) => !is_unreadable(*s, path@) && e is NotUnreadable,
        },
{
    let mut i: usize = 0;
    while i < s.unreadable.len()
        invariant
            i <= s.unreadable@.len(),
            forall|k: int| 0 <= k < i ==> (#[trigger] s.unreadable@[k]).path@ != path@,
        decreases s.unreadable@.len() - i,
    {
        if text::str_eq(s.unreadable[i].path.as_str(), path) {
            let mut arg = "/select,\"".to_string();
            arg.append(path);
            arg.append("\"");
            return Ok(arg);
        }
        i = i + 1;
    }
    Err(Refusal::NotUnreadable)
}

} // verus!
