//! What the command line asks for.

use crate::split;
use crate::text;
use vstd::prelude::*;

verus! {

/// The port of the server, unless another one is asked for.
pub const DEFAULT_PORT: u16 = 8756;

/// What to do.
#[derive(Debug)]
pub enum Launch {
    /// Time the walk of one volume; nothing where its letter is missing.
    Bench(Option<char>),
    /// Serve the interface.
    Serve { port: u16, open_browser: bool },
}

/// The first place where a word stands among the arguments; their number where it does
/// not.
pub open spec fn place_of_word(args: Seq<Seq<char>>, word: Seq<char>, i: int) -> int
    decreases args.len() - i,
{
    if i >= args.len() {
        args.len() as int
    } else if args[i] == word {
        i
    } else {
        place_of_word(args, word, i + 1)
    }
}

/// The port that the arguments ask for: the number behind the first `--port`.
pub open spec fn port_in(args: Seq<Seq<char>>) -> u16 {
    let k = place_of_word(args, "--port"@, 0);
    if k + 1 < args.len() {
        match text::number(args[k + 1], u16::MAX as nat) {
            Some(n) => n as u16,
            None => DEFAULT_PORT,
        }
    } else {
        DEFAULT_PORT
    }
}

fn find_word(args: &Vec<String>, word: &str) -> (r: usize)
    ensures
        r == place_of_word(split::texts(args@), word@, 0),
        r <= args@.len(),
{
    let ghost all = split::texts(args@);
    let mut k: usize = 0;
    while k < args.len()
        invariant
            k <= args@.len(),
            all == split::texts(args@),
            place_of_word(all, word@, 0) == place_of_word(all, word@, k as int),
        decreases args@.len() - k,
    {
        assert(all[k as int] == args@[k as int]@);
        if text::str_eq(args[k].as_str(), word) {
            return k;
        }
        k = k + 1;
    }
    k
}

/// Reads the command line. The first argument is the name of the program.
pub fn launch(args: &Vec<String>) -> (r: Launch)
    ensures
        ({
            let all = split::texts(args@);
            if all.len() > 1 && all[1] == "bench"@ {
                r == Launch::Bench(
                    if all.len() > 2 {
                        split::letter_in(all[2])
                    } else {
                        None
                    },
                )
            } else {
                r == (Launch::Serve {
                    port: port_in(all),
                    open_browser: place_of_word(all, "--no-browser"@, 0) == all.len(),
                })
            }
        }),
{
    let ghost all = split::texts(args@);
    assert(all.len() == args@.len());
    if args.len() > 1 && text::str_eq(args[1].as_str(), "bench") {
        if args.len() > 2 {
            return Launch::Bench(split::letter(args[2].as_str()));
        }
        return Launch::Bench(None);
    }
    let k = find_word(args, "--port");
    let mut port: u16 = DEFAULT_PORT;
    if k < args.len() && k + 1 < args.len() {
        match text::parse_number(args[k + 1].as_str(), u16::MAX as u64) {
            Some(n) => {
                port = n as u16;
            },
            None => {},
        }
    }
    let open_browser = find_word(args, "--no-browser") == args.len();
    Launch::Serve { port, open_browser }
}

/// How many ports are tried: ten, or those that are left up to the last one.
pub open spec fn tries(port: u16) -> nat {
    if port <= u16::MAX - 9 {
        10
    } else {
        (u16::MAX - port + 1) as nat
    }
}

/// The ports to try, one after the other: the one that was asked for, then the nine that
/// follow, as far as there are any.
pub fn ports(port: u16) -> (r: Vec<u16>)
    ensures
        r@ == Seq::new(tries(port), |i: int| (port + i) as u16),
{
    let mut out: Vec<u16> = Vec::new();
    let n: u16 = if port <= u16::MAX - 9 {
        10
    } else {
        u16::MAX - port + 1
    };
    let mut i: u16 = 0;
    while i < n
        invariant
            i <= n == tries(port),
            port + n <= u16::MAX + 1,
            out@.len() == i,
            forall|k: int| 0 <= k < i ==> #[trigger] out@[k] == port + k,
        decreases n - i,
    {
        out.push(port + i);
        i = i + 1;
    }
    assert(out@ =~= Seq::new(tries(port), |i: int| (port + i) as u16));
    out
}

/// The root of a volume, as it is shown.
pub fn display_root(letter: char) -> (r: String)
    ensures
        r@ == seq![letter] + ":\\"@,
{
    let mut s = String::new();
    s.push(letter);
    assert(s@ =~= seq![letter]);
    s.append(":\\");
    s
}

/// The root of a volume, as it is walked: in the verbatim form, which lifts the limit on
/// the length of paths.
pub fn verbatim_root(letter: char) -> (r: String)
    ensures
        r@ == "\\\\?\\"@ + seq![letter] + ":\\"@,
{
    let mut s = "\\\\?\\".to_string();
    let root = display_root(letter);
    s.append(root.as_str());
    assert(s@ =~= "\\\\?\\"@ + seq![letter] + ":\\"@);
    s
}

} // verus!
