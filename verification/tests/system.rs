use diskmap::clock::{now_ms, ts};
use diskmap::launch::{display_root, launch, ports, verbatim_root, Launch};
use diskmap::text::{eq_ignore_case, parse_number, push_decimal, push_decimal_int};
use diskmap::win32::{
    alea_u64, delete_path, drives, fiche_i, fiche_recente, fiche_utile, from_wide, letters,
    recycle_root, removed, to_wide, Corbeille, DRIVE_CDROM, DRIVE_FIXED, DRIVE_NO_ROOT_DIR,
    DRIVE_RAMDISK, DRIVE_REMOTE, DRIVE_REMOVABLE, DRIVE_UNKNOWN, EPOQUE_FILETIME,
};

#[test]
fn dates() {
    assert_eq!(now_ms(Some(1234)), 1234);
    assert_eq!(now_ms(None), 0);
    assert_eq!(now_ms(Some(u64::MAX as u128)), -1);
    assert_eq!(now_ms(Some((1u128 << 64) + 5)), 5);
    assert_eq!(ts(Some(99)), 99);
    assert_eq!(ts(None), 0);
    assert_eq!(ts(Some(u64::MAX)), -1);
}

#[test]
fn letters_of_a_mask() {
    assert_eq!(letters(0b1101), vec!['A', 'C', 'D']);
    assert_eq!(letters(1 << 25), vec!['Z']);
    assert_eq!(letters(1 << 26), Vec::<char>::new());
    assert_eq!(letters(u32::MAX).len(), 26);
}

#[test]
fn only_usable_drives_are_kept() {
    let kinds = [
        DRIVE_UNKNOWN,
        DRIVE_NO_ROOT_DIR,
        DRIVE_REMOVABLE,
        DRIVE_FIXED,
        DRIVE_REMOTE,
        DRIVE_CDROM,
        DRIVE_RAMDISK,
    ];
    let ds = drives(0x7f, &kinds);
    let got: Vec<(char, u32)> = ds.iter().map(|d| (d.letter, d.kind)).collect();
    assert_eq!(got, vec![('C', 2), ('D', 3), ('E', 4), ('G', 6)]);
    assert_eq!(ds[0].label, "");
    assert_eq!(ds[0].total, 0);
}

#[test]
fn drives_are_filled_in() {
    let mut d = drives(4, &[DRIVE_FIXED]).pop().unwrap();
    let label = to_wide("Syst\u{e8}me");
    let fs = to_wide("NTFS");
    d.fill(Some((100, 40)), Some((&label, &fs)));
    assert_eq!((d.letter, d.total, d.free), ('C', 100, 40));
    assert_eq!((d.label.as_str(), d.fs.as_str()), ("Syst\u{e8}me", "NTFS"));
    d.fill(None, None);
    assert_eq!((d.total, d.free, d.label.as_str(), d.fs.as_str()), (0, 0, "", ""));
}

#[test]
fn wide_strings() {
    assert_eq!(to_wide("A\u{e9}"), vec![65, 0xe9, 0]);
    assert_eq!(to_wide("\u{1f600}"), vec![0xd83d, 0xde00, 0]);
    assert_eq!(from_wide(&to_wide("\u{1f600} ok")), "\u{1f600} ok");
    assert_eq!(from_wide(&[72, 105, 0, 88]), "Hi");
    assert_eq!(from_wide(&[72, 105]), "Hi");
    assert_eq!(from_wide(&[72, 0xd800, 65]), "");
    assert_eq!(from_wide(&[]), "");
}

#[test]
fn chance() {
    assert_eq!(alea_u64(0, &[1, 2, 0, 0, 0, 0, 0, 0], 9, 9, 9), 513);
    let nanos: u64 = 0x1234;
    let address: u64 = 0xffff_0000_1234_5678;
    assert_eq!(
        alea_u64(-1, &[0; 8], nanos, address, 77),
        nanos ^ address.rotate_left(17) ^ (77u64 << 32)
    );
}

#[test]
fn deletions_are_prepared() {
    let op = delete_path("C:\\a", true).unwrap();
    assert_eq!(op.from, vec![67, 58, 92, 97, 0, 0]);
    assert_eq!(op.flags, 0x0004 | 0x0010 | 0x0400 | 0x0040);
    assert_eq!(delete_path("C:\\a", false).unwrap().flags, 0x0004 | 0x0010 | 0x0400);
    assert_eq!(
        delete_path("\\\\?\\C:\\a", true).err(),
        Some("chemin verbatim interdit pour une suppression".to_string())
    );
}

#[test]
fn the_disk_is_the_judge() {
    assert_eq!(removed(false, false, 0), Ok(()));
    assert_eq!(removed(false, false, 2), Ok(()));
    assert_eq!(removed(true, false, 0), Err("op\u{e9}ration abandonn\u{e9}e par le syst\u{e8}me".to_string()));
    assert_eq!(removed(false, true, -7), Err("SHFileOperationW a renvoy\u{e9} -7".to_string()));
    assert_eq!(
        removed(false, true, 0),
        Err("le chemin existe toujours apr\u{e8}s l'op\u{e9}ration".to_string())
    );
}

fn card(version: u32, date: u64, len: u32, units: &[u16]) -> Vec<u8> {
    let mut b: Vec<u8> = Vec::new();
    b.extend_from_slice(&version.to_le_bytes());
    b.extend_from_slice(&[0; 4]);
    b.extend_from_slice(&123u64.to_le_bytes());
    b.extend_from_slice(&date.to_le_bytes());
    b.extend_from_slice(&len.to_le_bytes());
    for u in units {
        b.extend_from_slice(&u.to_le_bytes());
    }
    b
}

#[test]
fn cards_of_the_recycle_bin() {
    let path = to_wide("G:\\\u{e9}t\u{e9}\\\u{1f600}.txt");
    let b = card(2, 77, path.len() as u32, &path);
    assert_eq!(fiche_i(&b), Some(("G:\\\u{e9}t\u{e9}\\\u{1f600}.txt".to_string(), 77)));
    assert_eq!(fiche_i(&card(1, 77, path.len() as u32, &path)), None);
    assert_eq!(fiche_i(&card(2, 77, 0, &path)), None);
    assert_eq!(fiche_i(&b[..31]), None);
    // The length is a bound only.
    assert_eq!(fiche_i(&card(2, 1, 2, &path)), Some(("G:".to_string(), 1)));
    assert_eq!(fiche_i(&card(2, 1, u32::MAX, &path)).unwrap().0, "G:\\\u{e9}t\u{e9}\\\u{1f600}.txt");
    // A surrogate without its other half is replaced, each one.
    assert_eq!(
        fiche_i(&card(2, 1, 6, &[0xdc00, 0xd800, 0xd83d, 0xde00, 0xd800, 65])).unwrap().0,
        "\u{fffd}\u{fffd}\u{1f600}\u{fffd}A"
    );
    assert_eq!(fiche_i(&card(2, 1, 2, &[65, 0xdbff])).unwrap().0, "A\u{fffd}");
    assert_eq!(fiche_i(&card(2, 1, 3, &[65, 0xd800, 66])).unwrap().0, "A\u{fffd}B");
}

#[test]
fn recent_cards_only() {
    assert!(fiche_recente(None, 1000));
    assert!(fiche_recente(Some(1000), 1000));
    assert!(!fiche_recente(Some(999), 1000));
    assert!(fiche_utile("$IABC.txt", Some(3000), 5000));
    assert!(!fiche_utile("$IABC.txt", Some(2999), 5000));
    assert!(!fiche_utile("$RABC.txt", Some(5000), 5000));
    assert!(fiche_utile("$I", None, 5000));
    assert!(fiche_utile("$I", Some(0), 1999));
}

#[test]
fn an_older_card_proves_nothing() {
    let since: u64 = 10_000;
    let floor = 8_000 * 10_000 + EPOQUE_FILETIME;
    let path = to_wide("G:\\x");
    let new = card(2, floor, path.len() as u32, &path);
    let old = card(2, floor - 1, path.len() as u32, &path);
    let bin = Corbeille::lire(&vec![old.clone(), vec![1, 2, 3]]);
    assert_eq!(bin.fiches.len(), 1);
    assert!(!bin.contient("G:\\x", since));
    let bin = Corbeille::lire(&vec![old, new]);
    assert!(bin.contient("g:\\X", since));
    assert!(!bin.contient("g:\\y", since));
    assert!(!Corbeille::lire(&Vec::new()).contient("G:\\x", 0));
    assert_eq!(recycle_root('E'), "E:\\$RECYCLE.BIN");
}

fn args(list: &[&str]) -> Vec<String> {
    list.iter().map(|s| s.to_string()).collect()
}

#[test]
fn command_lines() {
    assert!(matches!(launch(&args(&["diskmap"])), Launch::Serve { port: 8756, open_browser: true }));
    assert!(matches!(
        launch(&args(&["diskmap", "--port", "9000", "--no-browser"])),
        Launch::Serve { port: 9000, open_browser: false }
    ));
    assert!(matches!(launch(&args(&["d", "--port", "70000"])), Launch::Serve { port: 8756, .. }));
    assert!(matches!(launch(&args(&["d", "--port"])), Launch::Serve { port: 8756, .. }));
    assert!(matches!(launch(&args(&["d", "bench", "c"])), Launch::Bench(Some('C'))));
    assert!(matches!(launch(&args(&["d", "bench"])), Launch::Bench(None)));
    assert!(matches!(launch(&args(&["d", "bench", ""])), Launch::Bench(None)));
    assert!(matches!(launch(&args(&["d", "x", "bench"])), Launch::Serve { .. }));
}

#[test]
fn ports_to_try() {
    assert_eq!(ports(8756), (8756..8766).collect::<Vec<u16>>());
    assert_eq!(ports(65526), (65526..=65535).collect::<Vec<u16>>());
    assert_eq!(ports(65530), (65530..=65535).collect::<Vec<u16>>());
    assert_eq!(ports(65535), vec![65535]);
}

#[test]
fn roots() {
    assert_eq!(display_root('C'), "C:\\");
    assert_eq!(verbatim_root('C'), "\\\\?\\C:\\");
}

#[test]
fn numbers_as_text() {
    assert_eq!(parse_number("42", 100), Some(42));
    assert_eq!(parse_number("+42", 100), Some(42));
    assert_eq!(parse_number("0042", 100), Some(42));
    assert_eq!(parse_number("101", 100), None);
    assert_eq!(parse_number("", 100), None);
    assert_eq!(parse_number("+", 100), None);
    assert_eq!(parse_number("-1", 100), None);
    assert_eq!(parse_number("4 2", 100), None);
    assert_eq!(parse_number("18446744073709551615", u64::MAX), Some(u64::MAX));
    assert_eq!(parse_number("18446744073709551616", u64::MAX), None);
    let mut s = String::new();
    push_decimal(&mut s, 0);
    push_decimal(&mut s, 1_000_203);
    push_decimal_int(&mut s, i64::MIN);
    assert_eq!(s, "01000203-9223372036854775808");
}

#[test]
fn case_of_ascii_letters() {
    assert!(eq_ignore_case("C:\\Temp", "c:\\tEMP"));
    assert!(!eq_ignore_case("\u{c9}", "\u{e9}"));
    assert!(!eq_ignore_case("a", "ab"));
}
