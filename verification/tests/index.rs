use diskmap::cache::LoadError;
use diskmap::records::{DirRec, FileRec, Row};
use diskmap::snapshot::{contains_ci, holds, Snapshot};

fn dir(id: u32, parent: u32, name: &str, own_mtime: i64) -> DirRec {
    DirRec { id, parent, name: name.to_string(), own_mtime }
}

fn file(parent: u32, name: &str, size: u64, mtime: i64) -> FileRec {
    FileRec { parent, name: name.to_string(), size, mtime }
}

/// C:\ (0) > Users (1) > bob (3) ; C:\ > src (2)
fn sample() -> Snapshot {
    let dirs = vec![
        dir(2, 0, "src", 30),
        dir(0, 0, "C:\\", 10),
        dir(3, 1, "bob", 5),
        dir(1, 0, "Users", 20),
    ];
    let files = vec![
        file(0, "pagefile.sys", 100, 40),
        file(3, "Photo.JPG", 7, 99),
        file(2, "main.rs", 3, 31),
        file(3, "notes.txt", 5, 6),
    ];
    Snapshot::new("C:\\".to_string(), dirs, files, 12, 3, 1000)
}

fn names(rows: &[Row]) -> Vec<String> {
    rows.iter().map(|r| r.name.clone()).collect()
}

#[test]
fn folders_are_put_in_the_order_of_their_numbers() {
    let s = sample();
    let ids: Vec<u32> = s.dirs.iter().map(|d| d.id).collect();
    assert_eq!(ids, vec![0, 1, 2, 3]);
    assert_eq!(s.dirs[1].name, "Users");
    assert_eq!(s.n_dirs(), 4);
    assert_eq!(s.n_files(), 4);
}

#[test]
fn a_folder_holds_everything_under_it() {
    let s = sample();
    assert_eq!(s.size, vec![115, 12, 3, 12]);
    assert_eq!(s.count, vec![4, 2, 1, 2]);
}

#[test]
fn last_activity_is_the_most_recent_write_in_the_subtree() {
    let s = sample();
    assert_eq!(s.mtime, vec![99, 99, 31, 99]);
}

#[test]
fn sizes_wrap_around() {
    let dirs = vec![dir(0, 0, "C:\\", 0)];
    let files = vec![file(0, "a", u64::MAX, 0), file(0, "b", 3, 0)];
    let s = Snapshot::new("C:\\".to_string(), dirs, files, 0, 0, 0);
    assert_eq!(s.size[0], 2);
    assert_eq!(s.count[0], 2);
}

#[test]
fn a_file_without_a_folder_counts_nowhere() {
    let dirs = vec![dir(0, 0, "C:\\", 0)];
    let files = vec![file(9, "lost", 50, 77), file(0, "here", 1, 2)];
    let s = Snapshot::new("C:\\".to_string(), dirs, files, 0, 0, 0);
    assert_eq!(s.size[0], 1);
    assert_eq!(s.mtime[0], 2);
    assert!(s.find("lost", 10).is_none());
    assert_eq!(s.find("here", 10).unwrap().len(), 1);
}

#[test]
fn children_come_last_first_and_the_root_is_nobodys_child() {
    let s = sample();
    assert_eq!(s.child_dirs(0), vec![2, 1]);
    assert_eq!(s.child_dirs(1), vec![3]);
    assert_eq!(s.child_dirs(3), Vec::<u32>::new());
    assert_eq!(s.child_dirs(77), Vec::<u32>::new());
    assert_eq!(s.child_files(3), vec![3, 1]);
    assert_eq!(s.child_files(77), Vec::<u32>::new());
}

#[test]
fn paths_go_from_the_root_down() {
    let s = sample();
    assert_eq!(s.dir_path(0), "C:\\");
    assert_eq!(s.dir_path(3), "C:\\Users\\bob");
    assert_eq!(s.file_path(1), "C:\\Users\\bob\\Photo.JPG");
    assert_eq!(s.file_path(0), "C:\\pagefile.sys");
}

#[test]
fn search_ignores_the_case_and_shows_folders_first() {
    let s = sample();
    let rows = s.search("s", 100);
    assert_eq!(names(&rows), vec!["Users", "src", "pagefile.sys", "main.rs", "notes.txt"]);
    assert_eq!(rows[0].path, "C:\\Users");
    assert_eq!(rows[0].size, 12);
    assert_eq!(rows[0].count, 2);
    assert!(rows[0].is_dir);
    assert_eq!(rows[2].path, "C:\\pagefile.sys");
    assert_eq!(rows[2].count, 1);
    let rows = s.search("photo.jpg", 100);
    assert_eq!(names(&rows), vec!["Photo.JPG"]);
    assert_eq!(rows[0].id, 1);
}

#[test]
fn search_stops_at_the_limit() {
    let s = sample();
    assert_eq!(names(&s.search("s", 2)), vec!["Users", "src"]);
    assert_eq!(names(&s.search("s", 3)), vec!["Users", "src", "pagefile.sys"]);
    assert_eq!(s.search("", 100).len(), 0);
    assert_eq!(s.search("zzz", 100).len(), 0);
    // A limit of zero still lets one folder through, and no file.
    assert_eq!(names(&s.search("s", 0)), vec!["Users"]);
    assert_eq!(s.search("photo", 0).len(), 0);
}

#[test]
fn contains_ci_folds_ascii_letters() {
    assert!(contains_ci("Program Files", b"gram f"));
    assert!(contains_ci("NODE_MODULES", b"node_modules"));
    assert!(!contains_ci("node", b"NODE"));
    assert!(!contains_ci("ab", b"abc"));
    assert!(!contains_ci("ab", b""));
    assert!(contains_ci("\u{e9}t\u{e9}", "\u{e9}t\u{e9}".as_bytes()));
    assert!(contains_ci("\u{c9}T\u{c9}", "\u{c9}t\u{c9}".as_bytes()));
    assert!(!contains_ci("\u{c9}T\u{c9}", "\u{e9}t\u{e9}".as_bytes()));
    assert!(holds("abcab", b"cab"));
    assert!(!holds("ABC", b"abc"));
    assert!(!holds("abc", b""));
    assert!(holds("abc", b"abc"));
}

#[test]
fn a_name_in_capitals_with_accents_is_found_by_its_own_spelling() {
    let s = Snapshot::new(
        "C:\\".to_string(),
        vec![dir(0, 0, "C:\\", 0)],
        vec![file(0, "\u{c9}T\u{c9}.TXT", 1, 1)],
        0,
        0,
        0,
    );
    let rows = s.search("\u{e9}t\u{e9}", 500);
    assert_eq!(names(&rows), vec!["\u{c9}T\u{c9}.TXT"]);
    assert_eq!((rows[0].id, rows[0].size, rows[0].count, rows[0].is_dir), (0, 1, 1, false));
    // Capitals with accents are found as they stand.
    assert_eq!(names(&s.search("\u{c9}", 500)), vec!["\u{c9}T\u{c9}.TXT"]);
    assert_eq!(names(&s.search("\u{c9}t\u{c9}.txt", 500)), vec!["\u{c9}T\u{c9}.TXT"]);
    assert!(s.search("T", 500).is_empty());
}

#[test]
fn names_in_lower_case_may_be_given() {
    let s = sample();
    let nd: Vec<String> = vec!["x".to_string(), "y".to_string(), "x2".to_string(), "z".to_string()];
    let nf: Vec<String> = vec!["q".to_string(), "ax".to_string(), "q".to_string(), "q".to_string()];
    let rows = s.search_in(&nd, &nf, "x", 10).unwrap();
    assert_eq!(names(&rows), vec!["C:\\", "src", "Photo.JPG", "notes.txt"]);
    assert_eq!(names(&s.search_in(&nd, &nf, "y", 10).unwrap()), vec!["Users", "pagefile.sys"]);
}

#[test]
fn the_order_of_arrival_does_not_matter() {
    let s = sample();
    let mut dirs = s.dirs.clone();
    dirs.reverse();
    let mut files = s.files.clone();
    files.rotate_left(2);
    let r = Snapshot::new("C:\\".to_string(), dirs, files, 12, 3, 1000);
    assert_eq!(r.size, s.size);
    assert_eq!(r.count, s.count);
    assert_eq!(r.mtime, s.mtime);
    let ids: Vec<u32> = r.dirs.iter().map(|d| d.id).collect();
    assert_eq!(ids, vec![0, 1, 2, 3]);
}

#[test]
fn what_is_saved_is_loaded() {
    let s = sample();
    let bytes = s.save();
    let r = Snapshot::load(&bytes).unwrap();
    assert_eq!(r.root, "C:\\");
    assert_eq!(r.finished_ms, 1000);
    assert_eq!(r.elapsed_ms, 12);
    assert_eq!(r.errors, 3);
    assert_eq!(r.size, s.size);
    assert_eq!(r.count, s.count);
    assert_eq!(r.mtime, s.mtime);
    assert_eq!(r.dirs[3].name, "bob");
    assert_eq!(r.files[1].name, "Photo.JPG");
    assert_eq!(r.files[1].mtime, 99);
    assert_eq!(r.dir_path(3), s.dir_path(3));
    assert_eq!(r.save(), bytes);
}

#[test]
fn the_bytes_of_a_small_index() {
    let s = Snapshot::new(
        "C:\\".to_string(),
        vec![dir(0, 0, "C:\\", -1)],
        vec![file(0, "a", 258, 2)],
        5,
        6,
        7,
    );
    let mut want: Vec<u8> = Vec::new();
    want.extend_from_slice(b"DSKM");
    want.extend_from_slice(&1u32.to_le_bytes());
    want.extend_from_slice(&3u32.to_le_bytes());
    want.extend_from_slice(b"C:\\");
    want.extend_from_slice(&7i64.to_le_bytes());
    want.extend_from_slice(&5u64.to_le_bytes());
    want.extend_from_slice(&6u64.to_le_bytes());
    want.extend_from_slice(&1u32.to_le_bytes());
    want.extend_from_slice(&1u32.to_le_bytes());
    want.extend_from_slice(&0u32.to_le_bytes());
    want.extend_from_slice(&(-1i64).to_le_bytes());
    want.extend_from_slice(&3u32.to_le_bytes());
    want.extend_from_slice(&0u32.to_le_bytes());
    want.extend_from_slice(&258u64.to_le_bytes());
    want.extend_from_slice(&2i64.to_le_bytes());
    want.extend_from_slice(&1u32.to_le_bytes());
    want.extend_from_slice(b"C:\\");
    want.extend_from_slice(b"a");
    assert_eq!(s.save(), want);
}

#[test]
fn bad_files_are_refused() {
    let bytes = sample().save();
    let mut magic = bytes.clone();
    magic[0] = b'X';
    assert!(matches!(Snapshot::load(&magic), Err(LoadError::Magic)));
    let mut version = bytes.clone();
    version[4] = 2;
    assert!(matches!(Snapshot::load(&version), Err(LoadError::Version)));
    for n in 0..bytes.len() {
        assert!(matches!(Snapshot::load(&bytes[..n]), Err(LoadError::Eof)));
    }
    assert_eq!(LoadError::Eof.message(), "fin de fichier");
    assert_eq!(LoadError::Magic.message(), "magic");
    assert_eq!(LoadError::Version.message(), "version");
}

#[test]
fn names_that_are_not_utf8_are_read_with_replacements() {
    let s = Snapshot::new(
        "C:\\".to_string(),
        vec![dir(0, 0, "C:\\", 0)],
        vec![file(0, "a", 1, 1)],
        0,
        0,
        0,
    );
    let mut bytes = s.save();
    let last = bytes.len() - 1;
    bytes[last] = 0xFF;
    let r = Snapshot::load(&bytes).unwrap();
    assert_eq!(r.files[0].name, "\u{fffd}");
}

#[test]
fn an_empty_file_of_folders_is_an_index_without_a_root() {
    let s = Snapshot::new("C:\\".to_string(), Vec::new(), Vec::new(), 0, 0, 0);
    let r = Snapshot::load(&s.save()).unwrap();
    assert_eq!(r.n_dirs(), 0);
    assert_eq!(r.child_dirs(0), Vec::<u32>::new());
}
