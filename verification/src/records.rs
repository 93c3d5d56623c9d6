//! What a walk of a volume records, and what a folder's subtree is.

use vstd::prelude::*;

verus! {

/// One folder. The root is its own parent.
#[derive(Clone, Debug)]
pub struct DirRec {
    pub id: u32,
    pub parent: u32,
    pub name: String,
    /// Date of the last change of the folder itself, not of its content.
    pub own_mtime: i64,
}

/// One file, with the number of the folder that holds it.
#[derive(Clone, Debug)]
pub struct FileRec {
    pub parent: u32,
    pub name: String,
    pub size: u64,
    pub mtime: i64,
}

/// One line of a listing or of a search result.
#[derive(Clone, Debug)]
pub struct Row {
    pub id: u32,
    pub name: String,
    pub size: u64,
    pub count: u64,
    pub mtime: i64,
    pub is_dir: bool,
    pub path: String,
}

/// What a row shows.
pub struct RowView {
    pub id: u32,
    pub name: Seq<char>,
    pub size: u64,
    pub count: u64,
    pub mtime: i64,
    pub is_dir: bool,
    pub path: Seq<char>,
}

impl View for Row {
    type V = RowView;

    open spec fn view(&self) -> RowView {
        RowView {
            id: self.id,
            name: self.name@,
            size: self.size,
            count: self.count,
            mtime: self.mtime,
            is_dir: self.is_dir,
            path: self.path@,
        }
    }
}

/// What a list of rows shows.
pub open spec fn shown(rows: Seq<Row>) -> Seq<RowView> {
    Seq::new(rows.len(), |i: int| rows[i]@)
}

/// A folder whose content could not be read: everything below it is missing.
#[derive(Clone, Debug)]
pub struct Unreadable {
    pub path: String,
    /// Access was denied: running with administrator rights would help.
    pub droits: bool,
}

/// Folder `d` is folder `a`, or lies somewhere below it. A folder hangs below its
/// parent where the parent's number is the smaller one.
pub open spec fn under(dirs: Seq<DirRec>, a: int, d: int) -> bool
    decreases d,
{
    a == d || (0 <= d < dirs.len() && dirs[d].parent < d && under(dirs, a, dirs[d].parent as int))
}

/// File `f` lies in folder `a` or somewhere below it.
pub open spec fn holds(dirs: Seq<DirRec>, a: int, f: FileRec) -> bool {
    f.parent < dirs.len() && under(dirs, a, f.parent as int)
}

/// The bytes of all the files in a folder and below it.
pub open spec fn subtree_size(dirs: Seq<DirRec>, files: Seq<FileRec>, a: int) -> nat
    decreases files.len(),
{
    if files.len() == 0 {
        0
    } else {
        subtree_size(dirs, files.drop_last(), a) + if holds(dirs, a, files.last()) {
            files.last().size as nat
        } else {
            0
        }
    }
}

/// The number of files in a folder and below it.
pub open spec fn subtree_count(dirs: Seq<DirRec>, files: Seq<FileRec>, a: int) -> nat
    decreases files.len(),
{
    if files.len() == 0 {
        0
    } else {
        subtree_count(dirs, files.drop_last(), a) + if holds(dirs, a, files.last()) {
            1nat
        } else {
            0
        }
    }
}

/// Something in folder `a` or below it, a folder or a file, was written at `t`.
pub open spec fn written_at(dirs: Seq<DirRec>, files: Seq<FileRec>, a: int, t: i64) -> bool {
    ||| exists|d: int|
        0 <= d < dirs.len() && #[trigger] under(dirs, a, d) && dirs[d].own_mtime == t
    ||| exists|k: int|
        0 <= k < files.len() && holds(dirs, a, #[trigger] files[k]) && files[k].mtime == t
}

/// `t` is the date of the most recent write in folder `a` or anywhere below it.
pub open spec fn last_write(dirs: Seq<DirRec>, files: Seq<FileRec>, a: int, t: i64) -> bool {
    &&& written_at(dirs, files, a, t)
    &&& forall|u: i64| #[trigger] written_at(dirs, files, a, u) ==> u <= t
}

} // verus!
