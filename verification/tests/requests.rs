use diskmap::http::{
    accept, already_running, answer_head, hex, parse_query, parse_target, pct_bytes, pct_decode,
    request_line, route, Content, Head, Query, Route,
    state_body,
};
use diskmap::refusal::Refusal;

#[test]
fn hexadecimal_digits() {
    assert_eq!(hex(b'0'), Some(0));
    assert_eq!(hex(b'9'), Some(9));
    assert_eq!(hex(b'a'), Some(10));
    assert_eq!(hex(b'F'), Some(15));
    assert_eq!(hex(b'g'), None);
    assert_eq!(hex(b'G'), None);
    assert_eq!(hex(b'/'), None);
}

#[test]
fn escapes_are_decoded() {
    assert_eq!(pct_decode("a%20b+c"), "a b c");
    assert_eq!(pct_decode("%C3%A9"), "\u{e9}");
    assert_eq!(pct_decode("100%"), "100%");
    assert_eq!(pct_decode("%2"), "%2");
    assert_eq!(pct_decode("%zz"), "%zz");
    assert_eq!(pct_decode("%41"), "A");
    assert_eq!(pct_decode("%FF"), "\u{fffd}");
    assert_eq!(pct_bytes(b"%ff%00x"), vec![255, 0, b'x']);
}

#[test]
fn plain_text_is_decoded_to_itself() {
    assert_eq!(pct_decode("node_modules"), "node_modules");
    assert_eq!(pct_decode("\u{e9}t\u{e9}"), "\u{e9}t\u{e9}");
    assert_eq!(pct_decode(""), "");
}

#[test]
fn every_byte_can_be_escaped() {
    let mut escaped = String::new();
    let mut want: Vec<u8> = Vec::new();
    for b in 0..=255u8 {
        escaped.push_str(&format!("%{:02X}", b));
        want.push(b);
    }
    assert_eq!(pct_bytes(escaped.as_bytes()), want);
    assert_eq!(pct_bytes(escaped.to_lowercase().as_bytes()), want);
}

#[test]
fn queries_keep_the_last_value() {
    let q = parse_query("drive=c&q=a%3Db&drive=D&alone&=x&empty=");
    assert_eq!(q.get("drive"), Some("D"));
    assert_eq!(q.get("q"), Some("a=b"));
    assert_eq!(q.get("alone"), None);
    assert_eq!(q.get(""), Some("x"));
    assert_eq!(q.get("empty"), Some(""));
    assert_eq!(q.get("none"), None);
    let mut q = Query::new();
    q.set("k".to_string(), "1".to_string());
    q.set("k".to_string(), "2".to_string());
    assert_eq!(q.get("k"), Some("2"));
}

#[test]
fn targets_are_cut_at_the_first_question_mark() {
    let (p, q) = parse_target("/api/tree?id=3&x=a?b");
    assert_eq!(p, "/api/tree");
    assert_eq!(q.get("id"), Some("3"));
    assert_eq!(q.get("x"), Some("a?b"));
    let (p, q) = parse_target("/api/state");
    assert_eq!(p, "/api/state");
    assert_eq!(q.get("id"), None);
}

#[test]
fn the_first_line_of_a_request() {
    let (m, t) = request_line("GET /api/state HTTP/1.1\r\n");
    assert_eq!((m.as_str(), t.as_str()), ("GET", "/api/state"));
    let (m, t) = request_line("  POST\t/x");
    assert_eq!((m.as_str(), t.as_str()), ("POST", "/x"));
    let (m, t) = request_line("GET\r\n");
    assert_eq!((m.as_str(), t.as_str()), ("GET", "/"));
    let (m, t) = request_line("\r\n");
    assert_eq!((m.as_str(), t.as_str()), ("", "/"));
}

#[test]
fn headers_are_read_in_any_case() {
    let mut h = Head::new();
    assert!(h.line("Host: LocalHost:8756\r\n"));
    assert!(h.line("Content-LENGTH:  12 \r\n"));
    assert!(h.line("X-Diskmap: 1\r\n"));
    assert!(h.line("Accept: */*\r\n"));
    assert!(!h.line("\r\n"));
    assert_eq!(h.host.as_deref(), Some("localhost:8756"));
    assert_eq!(h.content_len, 12);
    assert!(h.marked);
    assert!(h.line("content-length: many\r\n"));
    assert_eq!(h.content_len, 0);
    assert!(h.line("x-diskmap: 0\r\n"));
    assert!(!h.marked);
}

fn head(host: Option<&str>, marked: bool) -> Head {
    Head { content_len: 0, host: host.map(|h| h.to_string()), marked }
}

#[test]
fn only_this_machine_is_served() {
    for h in ["127.0.0.1", "127.0.0.1:8756", "localhost", "localhost:1", "::1", "[::1]", "[::1]:80"] {
        assert!(matches!(accept("GET", "/", &head(Some(h), false)), Ok(Route::Index)));
    }
    for h in ["evil.example", "127.0.0.1.evil.example", "localhost:80x", "127.0.0.10", "", "[::1]x"] {
        assert!(matches!(accept("GET", "/", &head(Some(h), true)), Err(Refusal::ForeignHost)));
        assert!(matches!(accept("GET", "/x", &head(Some(h), true)), Err(Refusal::ForeignHost)));
    }
    assert!(matches!(accept("GET", "/", &head(None, true)), Err(Refusal::ForeignHost)));
}

#[test]
fn every_change_needs_the_mark() {
    let bare = head(Some("localhost"), false);
    let marked = head(Some("localhost"), true);
    assert!(matches!(accept("POST", "/api/quit", &bare), Err(Refusal::Unmarked)));
    assert!(matches!(accept("POST", "/api/quit", &marked), Ok(Route::Quit)));
    assert!(matches!(accept("GET", "/api/state", &bare), Ok(Route::State)));
    assert!(matches!(
        accept("POST", "/api/quit", &head(Some("other"), false)),
        Err(Refusal::ForeignHost)
    ));
}

#[test]
fn an_unknown_route_is_unknown_whatever_the_mark() {
    let bare = head(Some("localhost"), false);
    let marked = head(Some("localhost"), true);
    assert!(matches!(accept("POST", "/api/none", &bare), Err(Refusal::UnknownRoute)));
    assert!(matches!(accept("POST", "/api/none", &marked), Err(Refusal::UnknownRoute)));
    assert!(matches!(accept("GET", "/api/quit", &bare), Err(Refusal::UnknownRoute)));
}

#[test]
fn routes() {
    assert_eq!(route("GET", "/"), Route::Index);
    assert_eq!(route("GET", "/index.html"), Route::Index);
    assert_eq!(route("GET", "/api/state"), Route::State);
    assert_eq!(route("GET", "/api/tree"), Route::Tree);
    assert_eq!(route("GET", "/api/search"), Route::Search);
    assert_eq!(route("GET", "/api/unreadable"), Route::Unreadable);
    assert_eq!(route("POST", "/api/scan/C"), Route::Scan);
    assert_eq!(route("POST", "/api/scan/"), Route::Scan);
    assert_eq!(route("POST", "/api/scan"), Route::Unknown);
    assert_eq!(route("POST", "/api/reveal"), Route::Reveal);
    assert_eq!(route("POST", "/api/quit"), Route::Quit);
    assert_eq!(route("POST", "/api/delete"), Route::Delete);
    assert_eq!(route("POST", "/api/open"), Route::Open);
    assert_eq!(route("GET", "/api/delete"), Route::Unknown);
    assert_eq!(route("GET", "/api/scan/C"), Route::Unknown);
    assert_eq!(route("PUT", "/"), Route::Unknown);
}

#[test]
fn answers() {
    assert_eq!(
        answer_head("200 OK", Content::Json, 11),
        "HTTP/1.1 200 OK\r\nContent-Type: application/json; charset=utf-8\r\nContent-Length: 11\r\nConnection: close\r\nCache-Control: no-store\r\n\r\n"
    );
    assert!(answer_head("x", Content::Html, 0).contains("text/html; charset=utf-8\r\nContent-Length: 0\r\n"));
    assert!(answer_head("x", Content::Plain, 0).contains("text/plain; charset=utf-8"));
}

fn answered(body: &str) -> Vec<u8> {
    let mut a = answer_head("200 OK", Content::Json, body.len()).into_bytes();
    a.extend_from_slice(body.as_bytes());
    a
}

#[test]
fn an_instance_is_known_by_the_state_it_sends() {
    for body in [
        "{\"drives\":[],\"scanning\":null,\"eleve\":true}",
        "{\"drives\":[],\"scanning\":null,\"eleve\":false}",
        "{\"drives\":[{\"letter\":\"C\"}],\"scanning\":\"C\",\"eleve\":true}",
        "{\"drives\":[{\"letter\":\"Z\"}],\"scanning\":\"Z\",\"eleve\":false}",
    ] {
        assert!(state_body(body.as_bytes()));
        assert!(already_running(&answered(body)));
    }
}

#[test]
fn another_program_on_the_port_is_not_taken_for_this_one() {
    let ours = "{\"drives\":[],\"scanning\":null,\"eleve\":true}";
    assert!(!already_running(b"HTTP/1.1 200 OK"));
    assert!(!already_running(b"HTTP/1.1 200"));
    assert!(!already_running(b"HTTP/1.1 20"));
    assert!(!already_running(b""));
    assert!(!already_running(b"SSH-2.0-OpenSSH"));
    assert!(!already_running(b"HTTP/1.1 200 OK\r\n\r\n"));
    assert!(!already_running(b"HTTP/1.1 200 OK\r\n\r\n<html>hello</html>"));
    assert!(!already_running(&answered("{\"ok\":true}")));
    assert!(!already_running(&answered("{\"drives\":[]}")));
    assert!(!already_running(&answered("{\"drives\":[],\"scanning\":\"c\",\"eleve\":true}")));
    assert!(!already_running(&answered("{\"drives\":[],\"scanning\":true,\"eleve\":true}")));
    assert!(!already_running(ours.as_bytes()));
    let refused = [answer_head("403 Forbidden", Content::Plain, ours.len()).as_bytes(), ours.as_bytes()].concat();
    assert!(!already_running(&refused));
    // An answer that was cut short.
    let whole = answered(ours);
    assert!(!already_running(&whole[..whole.len() - 1]));
}

#[test]
fn refusals_have_a_status_and_words() {
    let all = vec![
        (Refusal::ForeignHost, "403 Forbidden", "h\u{f4}te refus\u{e9}"),
        (Refusal::Unmarked, "403 Forbidden", "en-t\u{ea}te X-Diskmap absent"),
        (Refusal::UnknownRoute, "404 Not Found", "route inconnue"),
        (Refusal::DriveMissing, "400 Bad Request", "drive manquant"),
        (Refusal::LetterMissing, "400 Bad Request", "lettre manquante"),
        (Refusal::UnknownDrive, "404 Not Found", "volume inconnu"),
        (Refusal::NotScanned, "409 Conflict", "volume pas encore analys\u{e9}"),
        (Refusal::Stopping, "409 Conflict", "arr\u{ea}t en cours"),
        (Refusal::BadId, "400 Bad Request", "id invalide"),
        (Refusal::DirOutOfRange, "400 Bad Request", "dossier hors bornes"),
        (Refusal::FileOutOfRange, "400 Bad Request", "fichier hors bornes"),
        (Refusal::UnknownMode, "400 Bad Request", "mode inconnu"),
        (
            Refusal::NoToken,
            "409 Conflict",
            "jeton absent ou expir\u{e9} : relance une simulation avant de supprimer",
        ),
        (Refusal::TokenOfAnotherDrive, "400 Bad Request", "jeton d'un autre volume"),
        (
            Refusal::ConfirmationMissing,
            "400 Bad Request",
            "confirmation \u{ab} EFFACER \u{bb} absente",
        ),
        (
            Refusal::TokenUsed,
            "409 Conflict",
            "jeton consomm\u{e9} entre-temps : relance une simulation",
        ),
        (Refusal::NotUnreadable, "400 Bad Request", "chemin hors de la liste des illisibles"),
        (
            Refusal::Busy { letter: 'C', dirs: 10, files: 200 },
            "409 Conflict",
            "C: analyse en cours (10 dossiers, 200 fichiers parcourus)",
        ),
        (Refusal::BadBody("EOF".to_string()), "400 Bad Request", "corps illisible : EOF"),
    ];
    for (e, status, message) in all {
        assert_eq!(e.status(), status);
        assert_eq!(e.message(), message);
    }
}
