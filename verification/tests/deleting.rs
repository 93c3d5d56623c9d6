use diskmap::delete::{
    dry, index_size, mode, resolve, targets, token, Deletion, DeleteItem, Fate, Mode, Pending,
    PendingDel, Target,
};
use diskmap::protect::{blocked_reason, blocked_upper, can_slice, try_blocked_reason, Block};
use diskmap::records::{DirRec, FileRec};
use diskmap::refusal::Refusal;
use diskmap::snapshot::Snapshot;
use diskmap::win32::Corbeille;

fn dir(id: u32, parent: u32, name: &str) -> DirRec {
    DirRec { id, parent, name: name.to_string(), own_mtime: 0 }
}

fn file(parent: u32, name: &str, size: u64) -> FileRec {
    FileRec { parent, name: name.to_string(), size, mtime: 0 }
}

/// D:\ (0) > Windows (1), tmp (2) ; files: D:\tmp\a (10), D:\Windows\b (20), D:\big (30 GB)
fn sample() -> Snapshot {
    Snapshot::new(
        "D:\\".to_string(),
        vec![dir(0, 0, "D:\\"), dir(1, 0, "Windows"), dir(2, 0, "tmp")],
        vec![file(2, "a", 10), file(1, "b", 20), file(0, "big", 30 << 30)],
        0,
        0,
        0,
    )
}

fn d(id: u32) -> DeleteItem {
    DeleteItem { id, is_dir: true }
}

fn f(id: u32) -> DeleteItem {
    DeleteItem { id, is_dir: false }
}

#[test]
fn protected_paths() {
    assert_eq!(blocked_reason("C:"), Some(Block::TooShort));
    assert_eq!(blocked_reason(""), Some(Block::TooShort));
    assert_eq!(blocked_reason("C:\\"), Some(Block::Root));
    assert_eq!(blocked_reason("C:\\\\\\"), Some(Block::Root));
    for name in [
        "Windows",
        "PROGRAM files",
        "Program Files (x86)",
        "ProgramData",
        "System Volume Information",
        "$Recycle.Bin",
        "recovery",
    ] {
        assert_eq!(blocked_reason(&format!("C:\\{}", name)), Some(Block::System));
        assert_eq!(blocked_reason(&format!("d:\\{}\\below\\it", name)), Some(Block::System));
    }
    assert_eq!(blocked_reason("C:\\Users"), Some(Block::Profile));
    assert_eq!(blocked_reason("C:\\users\\bob"), Some(Block::Profile));
    assert_eq!(blocked_reason("C:\\Users\\\\bob\\"), Some(Block::Profile));
    assert_eq!(blocked_reason("C:\\Users\\bob\\Downloads"), None);
    assert_eq!(blocked_reason("C:\\Windows.old"), None);
    assert_eq!(blocked_reason("C:\\x\\Windows"), None);
    // Whatever lies below a folder of the system, in any script.
    assert_eq!(blocked_reason("C:\\Windows\\\u{e9}t\u{e9}.txt"), Some(Block::System));
    assert_eq!(blocked_reason("c:\\wINDOWS\\\u{df}\\\u{1f600}"), Some(Block::System));
    assert_eq!(blocked_reason("C:\\Users\\L\u{e9}a"), Some(Block::Profile));
    assert_eq!(blocked_reason("C:\\Users\\L\u{e9}a\\Images"), None);
    // The dotless i is a capital I in upper case, and the long s a capital S.
    assert_eq!(blocked_reason("C:\\W\u{131}ndows"), Some(Block::System));
    assert_eq!(blocked_reason("C:\\U\u{17f}ers"), Some(Block::Profile));
}

#[test]
fn reasons_in_words() {
    assert_eq!(Block::TooShort.text(), "chemin trop court");
    assert_eq!(Block::Root.text(), "racine du volume");
    assert_eq!(Block::System.text(), "r\u{e9}pertoire syst\u{e8}me prot\u{e9}g\u{e9}");
    assert_eq!(Block::Profile.text(), "profil utilisateur prot\u{e9}g\u{e9}");
}

#[test]
fn a_character_across_the_third_byte() {
    assert!(can_slice("C:\\"));
    assert!(can_slice("\u{e9}X"));
    assert!(!can_slice("AB\u{e9}"));
    assert!(!can_slice("\u{1f600}"));
    assert_eq!(try_blocked_reason("ab\u{e9}x"), None);
    assert_eq!(try_blocked_reason("C:\\tmp"), Some(None));
    assert_eq!(try_blocked_reason("C:\\windows"), Some(Some(Block::System)));
    assert_eq!(blocked_upper("C:\\WINDOWS"), Some(Block::System));
    assert_eq!(blocked_upper("C:\\windows"), None);
    // The sharp s takes two letters in upper case.
    assert_eq!(try_blocked_reason("\u{df}:\\"), Some(Some(Block::Root)));
}

#[test]
fn items_are_resolved_in_the_index() {
    let s = sample();
    assert_eq!(resolve(&s, &d(2)), Some("D:\\tmp".to_string()));
    assert_eq!(resolve(&s, &f(0)), Some("D:\\tmp\\a".to_string()));
    assert_eq!(resolve(&s, &d(3)), None);
    assert_eq!(resolve(&s, &f(3)), None);
    assert_eq!(index_size(&s, &d(2)), (10, 1));
    assert_eq!(index_size(&s, &f(1)), (20, 1));
    assert_eq!(index_size(&s, &d(9)), (0, 0));
    assert_eq!(index_size(&s, &f(9)), (0, 0));
}

#[test]
fn a_dry_run_lists_what_will_disappear() {
    let s = sample();
    let ts = targets(&s, &vec![d(2), d(1), f(0), d(77), d(0)]).unwrap();
    assert_eq!(ts.len(), 4);
    let p = dry(&ts, &vec![true, true, false, true], "t".to_string(), false);
    assert_eq!(p.token, "t");
    assert_eq!(p.deletable, 1);
    assert_eq!(p.blocked, 3);
    assert_eq!(p.total_size, 10);
    assert!(!p.corbeille);
    assert!(!p.volumineux);
    assert_eq!(p.items[0].path, "D:\\tmp");
    assert!(!p.items[0].blocked);
    assert_eq!(p.items[0].reason, "");
    assert!(p.items[1].blocked);
    assert_eq!(p.items[1].reason, Block::System.text());
    assert!(p.items[2].blocked);
    assert!(!p.items[2].exists);
    assert_eq!(p.items[2].reason, "introuvable sur le disque");
    assert_eq!(p.items[3].reason, Block::Root.text());
}

#[test]
fn a_dry_run_warns_above_twenty_gigabytes() {
    let s = sample();
    let ts = targets(&s, &vec![f(2)]).unwrap();
    let p = dry(&ts, &vec![true], "t".to_string(), true);
    assert!(p.volumineux);
    assert!(p.corbeille);
    let p = dry(&ts, &vec![false], "t".to_string(), true);
    assert!(!p.volumineux);
}

#[test]
fn items_whose_path_cannot_be_told() {
    let s = Snapshot::new(
        "D:\\".to_string(),
        vec![dir(0, 0, "D:\\"), dir(1, 1, "ab\u{e9}")],
        vec![file(9, "lost", 1), file(0, "ok", 1)],
        0,
        0,
        0,
    );
    assert!(targets(&s, &vec![f(0)]).is_none());
    assert!(targets(&s, &vec![d(1)]).is_none());
    assert_eq!(targets(&s, &vec![f(1), f(8)]).unwrap().len(), 1);
}

#[test]
fn tokens_as_text() {
    assert_eq!(token(1700000000000, 42), "1700000000000-42");
    assert_eq!(token(-5, u64::MAX), "-5-18446744073709551615");
}

#[test]
fn two_dry_runs_of_one_date_keep_their_lists() {
    let (ta, tb) = (token(5, 1), token(5, 2));
    assert_ne!(ta, tb);
    assert_ne!(token(1, 11), token(11, 1));
    assert_ne!(token(-1, 1), token(1, 1));
    let s = sample();
    let mut p = Pending::new();
    p.keep(ta.clone(), 'D', targets(&s, &vec![d(2)]).unwrap(), 5);
    p.keep(tb.clone(), 'D', targets(&s, &vec![f(0), f(1)]).unwrap(), 5);
    assert_eq!(p.consume(&ta).unwrap().targets[0].path, "D:\\tmp");
    assert_eq!(p.consume(&tb).unwrap().targets.len(), 2);
}

fn pending() -> Pending {
    let mut p = Pending::new();
    let ts = targets(&sample(), &vec![d(2)]).unwrap();
    p.keep("tok".to_string(), 'D', ts, 1000);
    p
}

#[test]
fn a_token_serves_once() {
    let mut p = pending();
    assert!(p.check("tok", 'D', true, "", 2000).is_ok());
    let del = p.consume("tok").unwrap();
    assert_eq!(del.drive, 'D');
    assert_eq!(del.targets[0].path, "D:\\tmp");
    assert!(matches!(p.consume("tok"), Err(Refusal::TokenUsed)));
    assert!(matches!(p.check("tok", 'D', true, "", 2000), Err(Refusal::NoToken)));
}

#[test]
fn a_token_expires_after_ten_minutes() {
    let mut p = pending();
    assert!(p.check("tok", 'D', true, "", 1000 + 599_999).is_ok());
    assert!(matches!(p.check("tok", 'D', true, "", 1000 + 600_000), Err(Refusal::NoToken)));
    // It is gone for good.
    assert!(matches!(p.check("tok", 'D', true, "", 1000), Err(Refusal::NoToken)));
}

#[test]
fn a_refused_request_costs_no_token() {
    let mut p = pending();
    assert!(matches!(p.check("other", 'D', true, "", 2000), Err(Refusal::NoToken)));
    assert!(matches!(p.check("tok", 'C', true, "", 2000), Err(Refusal::TokenOfAnotherDrive)));
    assert!(matches!(p.check("tok", 'D', false, "", 2000), Err(Refusal::ConfirmationMissing)));
    assert!(matches!(p.check("tok", 'D', false, "effacer", 2000), Err(Refusal::ConfirmationMissing)));
    assert!(p.check("tok", 'D', false, "EFFACER", 2000).is_ok());
    assert!(p.consume("tok").is_ok());
}

#[test]
fn old_tokens_are_forgotten_and_fresh_ones_kept() {
    let mut p = Pending::new();
    p.keep("a".to_string(), 'C', Vec::new(), 0);
    p.keep("b".to_string(), 'C', Vec::new(), 500_000);
    p.keep("c".to_string(), 'C', Vec::new(), 10);
    p.prune(600_005);
    assert!(p.consume("a").is_err());
    assert!(p.consume("b").is_ok());
    assert!(p.consume("c").is_ok());
    let mut p = Pending::new();
    p.keep("a".to_string(), 'C', Vec::new(), 0);
    p.keep("a".to_string(), 'D', Vec::new(), 1);
    assert_eq!(p.consume("a").unwrap().drive, 'D');
}

#[test]
fn modes() {
    assert!(matches!(mode("dry"), Ok(Mode::Dry)));
    assert!(matches!(mode("recycle"), Ok(Mode::Recycle)));
    assert!(matches!(mode("permanent"), Ok(Mode::Permanent)));
    assert!(matches!(mode("DRY"), Err(Refusal::UnknownMode)));
}

fn target(path: &str, size: u64, block: Option<Block>) -> Target {
    Target { path: path.to_string(), size, count: 1, is_dir: false, block }
}

fn start(ts: Vec<Target>, to_trash: bool) -> Deletion {
    Deletion::start(PendingDel { drive: 'D', targets: ts, at_ms: 0 }, to_trash)
}

#[test]
fn a_deletion_from_start_to_end() {
    let ts = vec![
        target("D:\\gone", 5, None),
        target("D:\\Windows", 6, Some(Block::System)),
        target("D:\\missing", 7, None),
        target("D:\\stuck", 8, None),
        target("D:\\lost", 9, None),
    ];
    let mut del = start(ts, true);
    assert_eq!(del.next_path(), Some("D:\\gone"));
    let op = del.judge(true).unwrap();
    assert_eq!(op.flags, 0x454);
    del.report(false, false, 2, 111);
    assert_eq!(del.next_path(), Some("D:\\Windows"));
    assert!(del.judge(true).is_none());
    assert!(del.judge(false).is_none());
    assert!(del.judge(true).is_some());
    del.report(false, true, 32, 112);
    assert!(del.judge(true).is_some());
    del.report(false, false, 0, 113);
    assert_eq!(del.next_path(), None);
    // The bin took the first one, after the start of the operation.
    let bin = Corbeille { fiches: vec![("d:\\GONE".to_string(), u64::MAX)] };
    let (o, journal) = del.finish(&bin, 5_000);
    assert_eq!((o.done, o.failed, o.freed), (2, 3, 14));
    assert!(o.rescan);
    assert!(o.to_trash);
    assert_eq!(o.detruits, vec!["D:\\lost".to_string()]);
    assert_eq!(
        journal,
        vec![
            "111\tcorbeille\t5\t1\tD:\\gone".to_string(),
            "113\tcorbeille-refusee\t9\t1\tD:\\lost".to_string(),
        ]
    );
    assert!(!o.results[0].blocked);
    assert_eq!(o.results[1].reason, Block::System.text());
    assert!(!o.results[2].exists);
    assert_eq!(o.results[2].reason, "introuvable sur le disque");
    assert_eq!(o.results[3].reason, "SHFileOperationW a renvoy\u{e9} 32");
    assert!(o.results[3].exists);
}

#[test]
fn without_a_bin_everything_is_reported_as_destroyed() {
    let mut del = start(vec![target("E:\\a", 1, None), target("E:\\b", 2, None)], true);
    while del.next_path().is_some() {
        assert!(del.judge(true).is_some());
        del.report(false, false, 0, 7);
    }
    let (o, journal) = del.finish(&Corbeille::lire(&Vec::new()), 0);
    assert_eq!(o.detruits, vec!["E:\\a".to_string(), "E:\\b".to_string()]);
    assert_eq!(journal.len(), 2);
    assert_eq!(journal[1], "7\tcorbeille-refusee\t2\t1\tE:\\b");
}

#[test]
fn permanent_deletion_is_logged_as_such() {
    let mut del = start(vec![target("D:\\x", 5, None)], false);
    let op = del.judge(true).unwrap();
    assert_eq!(op.flags, 0x414);
    assert_eq!(op.from, vec![68, 58, 92, 120, 0, 0]);
    del.report(false, false, 0, 9);
    let (o, journal) = del.finish(&Corbeille { fiches: Vec::new() }, 0);
    assert!(o.detruits.is_empty());
    assert!(!o.to_trash);
    assert_eq!(journal, vec!["9\tdefinitif\t5\t1\tD:\\x".to_string()]);
}

#[test]
fn without_a_deletion_there_is_no_rescan() {
    let mut del = start(vec![target("D:\\x", 5, None)], true);
    assert!(del.judge(true).is_some());
    del.report(true, false, 0, 9);
    let (o, journal) = del.finish(&Corbeille { fiches: Vec::new() }, 0);
    assert_eq!((o.done, o.failed, o.freed), (0, 1, 0));
    assert!(!o.rescan);
    assert!(journal.is_empty());
    assert_eq!(o.results[0].reason, "op\u{e9}ration abandonn\u{e9}e par le syst\u{e8}me");
}

#[test]
fn a_verbatim_path_is_never_deleted() {
    let mut del = start(vec![target("\\\\?\\D:\\x", 5, None)], true);
    assert!(del.judge(true).is_none());
    match &del.fates[0] {
        Fate::Failed { error, still } => {
            assert_eq!(error, "chemin verbatim interdit pour une suppression");
            assert!(*still);
        }
        _ => panic!(),
    }
}

#[test]
fn what_is_deleted_is_what_was_shown() {
    let s = sample();
    let items = vec![d(2), f(2)];
    let ts = targets(&s, &items).unwrap();
    let shown = dry(&ts, &vec![true, true], "t".to_string(), true);
    let mut p = Pending::new();
    p.keep("t".to_string(), 'D', ts, 0);
    let mut del = Deletion::start(p.consume("t").unwrap(), true);
    let mut i = 0;
    while let Some(path) = del.next_path() {
        assert_eq!(path, shown.items[i].path);
        del.judge(true);
        del.report(false, false, 0, 1);
        i += 1;
    }
    assert_eq!(i, 2);
}
