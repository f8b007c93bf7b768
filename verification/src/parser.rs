//! The command line parser: a line is split into arguments at spaces, a
//! part between single quotes is one argument, and a last argument `&`
//! asks for a background job.

use vstd::prelude::*;
use vstd::string::{StrSliceExecFns, StringExecFns};
use crate::jobs::JobState;
use crate::text::{find, find_char, is_whitespace, lemma_find_char, lemma_trimmed, trim, trimmed};

verus! {

/// The result of parsing a command line: how the job is to run, and its
/// arguments.
#[derive(Clone, Debug, PartialEq)]
pub struct ParseResult(pub JobState, pub Vec<String>);

/// Why a command line, or a number in it, was not accepted.
#[derive(Clone, Debug, PartialEq)]
pub enum ParseFailReason {
    EmptyArg,
    EmptyLine,
    Unmatched(char),
    Invalid(char),
    Other(String),
}

/// What stands at the front of a piece of a command line.
pub ghost enum Chomp {
    /// Nothing but white space.
    Empty,
    /// An opening quote without the closing one.
    Unmatched,
    /// An argument, and what follows it.
    Token { tok: Seq<char>, rest: Seq<char> },
}

/// The first argument of a piece of a command line and what follows it.
/// An argument that begins with a quote ends before the next quote; any
/// other ends before the next space, or with the piece.
pub open spec fn chomp(s: Seq<char>) -> Chomp {
    let t = trimmed(s);
    if t.len() == 0 {
        Chomp::Empty
    } else if t[0] == '\'' {
        let u = t.skip(1);
        match find_char(u, '\'') {
            Some(i) => Chomp::Token { tok: u.take(i), rest: u.skip(i + 1) },
            None => Chomp::Unmatched,
        }
    } else {
        match find_char(t, ' ') {
            Some(i) => Chomp::Token { tok: t.take(i), rest: t.skip(i) },
            None => Chomp::Token { tok: t, rest: Seq::empty() },
        }
    }
}

/// What follows an argument is shorter than the piece it was taken from.
pub proof fn lemma_chomp_shrinks(s: Seq<char>)
    ensures
        chomp(s) is Token ==> chomp(s)->rest.len() < s.len(),
{
    let t = trimmed(s);
    lemma_trimmed(s);
    if t.len() > 0 {
        if t[0] == '\'' {
            lemma_find_char(t.skip(1), '\'');
        } else {
            lemma_find_char(t, ' ');
            assert(is_whitespace(' '));
        }
    }
}

/// The arguments of a command line in order, or `None` where a quote is
/// not closed.
pub open spec fn tokens(s: Seq<char>) -> Option<Seq<Seq<char>>>
    decreases s.len(),
    via tokens_decreases
{
    match chomp(s) {
        Chomp::Empty => Some(Seq::empty()),
        Chomp::Unmatched => None,
        Chomp::Token { tok, rest } => match tokens(rest) {
            Some(ts) => Some(seq![tok] + ts),
            None => None,
        },
    }
}

#[via_fn]
proof fn tokens_decreases(s: Seq<char>) {
    lemma_chomp_shrinks(s);
}

/// Takes the first argument off a piece of a command line and returns it
/// with what follows it.
pub fn chomp_tok(buf: &str) -> (r: Result<(&str, &str), ParseFailReason>)
    ensures
        match chomp(buf@) {
            Chomp::Empty => r == Err::<(&str, &str), ParseFailReason>(ParseFailReason::EmptyArg),
            Chomp::Unmatched => r == Err::<(&str, &str), ParseFailReason>(
                ParseFailReason::Unmatched('\''),
            ),
            Chomp::Token { tok, rest } => r is Ok && r->Ok_0.0@ == tok && r->Ok_0.1@ == rest,
        },
{
    let nows = trim(buf);
    let n = nows.unicode_len();
    if n == 0 {
        return Err(ParseFailReason::EmptyArg);
    }
    if nows.get_char(0) == '\'' {
        let newbuf = nows.substring_char(1, n);
        assert(newbuf@ == nows@.skip(1));
        match find(newbuf, '\'') {
            Some(i) => {
                proof {
                    lemma_find_char(newbuf@, '\'');
                }
                Ok((newbuf.substring_char(0, i), newbuf.substring_char(i + 1, n - 1)))
            },
            None => Err(ParseFailReason::Unmatched('\'')),
        }
    } else {
        match find(nows, ' ') {
            Some(i) => {
                proof {
                    lemma_find_char(nows@, ' ');
                }
                Ok((nows.substring_char(0, i), nows.substring_char(i, n)))
            },
            None => {
                let rest = nows.substring_char(n, n);
                assert(rest@ =~= Seq::<char>::empty());
                Ok((nows, rest))
            },
        }
    }
}

/// What a command line parses to: an error, or how the job is to run and
/// its arguments.
pub open spec fn parsed(s: Seq<char>) -> Result<(JobState, Seq<Seq<char>>), ParseFailReason> {
    match tokens(s) {
        None => Err(ParseFailReason::Unmatched('\'')),
        Some(ts) => if ts.len() == 0 {
            Err(ParseFailReason::EmptyLine)
        } else if ts.last() == seq!['&'] {
            Ok((JobState::BG, ts.drop_last()))
        } else {
            Ok((JobState::FG, ts))
        },
    }
}

/// Parses a command line into its arguments. A last argument `&` is taken
/// off and makes the job a background job.
pub fn parseline(buf: &str) -> (r: Result<ParseResult, ParseFailReason>)
    ensures
        match parsed(buf@) {
            Ok((state, args)) => r is Ok && r->Ok_0.0 == state && r->Ok_0.1.deep_view() == args,
            Err(e) => r == Err::<ParseResult, ParseFailReason>(e),
        },
{
    let mut argv: Vec<String> = Vec::new();
    let mut remainder = buf;
    let mut more = true;
    assert(argv.deep_view() =~= Seq::<Seq<char>>::empty());
    while more
        invariant
            match tokens(remainder@) {
                Some(ts) => tokens(buf@) == Some(argv.deep_view() + ts),
                None => tokens(buf@) is None,
            },
            !more ==> chomp(remainder@) is Empty,
        decreases remainder@.len(), (if more { 1int } else { 0int }),
    {
        let ghost before = argv.deep_view();
        proof {
            lemma_chomp_shrinks(remainder@);
        }
        match chomp_tok(remainder) {
            Ok((tok, rem)) => {
                argv.push(tok.to_owned());
                assert(argv.deep_view() =~= before.push(tok@));
                proof {
                    match tokens(rem@) {
                        Some(ts) => {
                            assert(before.push(tok@) + ts =~= before + (seq![tok@] + ts));
                        },
                        None => {},
                    }
                }
                remainder = rem;
            },
            Err(ParseFailReason::EmptyArg) => {
                more = false;
            },
            Err(x) => {
                return Err(x);
            },
        }
    }
    assert(tokens(buf@) == Some(argv.deep_view())) by {
        assert(argv.deep_view() + Seq::<Seq<char>>::empty() =~= argv.deep_view());
    }
    if argv.len() == 0 {
        return Err(ParseFailReason::EmptyLine);
    }
    let ghost all = argv.deep_view();
    let background = is_ampersand(argv[argv.len() - 1].as_str());
    if background {
        argv.pop();
        assert(argv.deep_view() =~= all.drop_last());
        Ok(ParseResult(JobState::BG, argv))
    } else {
        Ok(ParseResult(JobState::FG, argv))
    }
}

/// Whether an argument is the background marker.
fn is_ampersand(arg: &str) -> (r: bool)
    ensures
        r == (arg@ == seq!['&']),
{
    if arg.unicode_len() == 1 {
        let r = arg.get_char(0) == '&';
        assert(r ==> arg@ =~= seq!['&']);
        r
    } else {
        false
    }
}

/// Whether a byte is an ASCII decimal digit.
pub open spec fn is_digit(b: u8) -> bool {
    48 <= b <= 57
}

/// The index of the first byte that is no decimal digit.
pub open spec fn first_non_digit(s: Seq<u8>) -> Option<int>
    decreases s.len(),
{
    if s.len() == 0 {
        None
    } else {
        match first_non_digit(s.drop_last()) {
            Some(i) => Some(i),
            None => if is_digit(s.last()) {
                None
            } else {
                Some(s.len() - 1)
            },
        }
    }
}

/// The number that a sequence of decimal digits denotes; 0 for the empty
/// sequence.
pub open spec fn decimal_value(s: Seq<u8>) -> int
    decreases s.len(),
{
    if s.len() == 0 {
        0
    } else {
        decimal_value(s.drop_last()) * 10 + (s.last() - 48)
    }
}

/// What `parse_numerical` says of a number that an `i32` cannot hold.
pub open spec fn out_of_range_text() -> Seq<char> {
    "number out of range"@
}

/// `first_non_digit` names the lowest index that holds no digit.
pub proof fn lemma_first_non_digit(s: Seq<u8>)
    ensures
        match first_non_digit(s) {
            Some(i) => 0 <= i < s.len() && !is_digit(s[i]) && forall|k: int|
                0 <= k < i ==> is_digit(s[k]),
            None => forall|k: int| 0 <= k < s.len() ==> is_digit(s[k]),
        },
    decreases s.len(),
{
    if s.len() > 0 {
        let t = s.drop_last();
        lemma_first_non_digit(t);
        assert forall|k: int| 0 <= k < t.len() implies t[k] == s[k] by {}
        match first_non_digit(t) {
            Some(i) => {
                assert(t[i] == s[i]);
                assert forall|k: int| 0 <= k < i implies is_digit(s[k]) by {
                    assert(t[k] == s[k]);
                }
            },
            None => {
                assert forall|k: int| 0 <= k < s.len() - 1 implies is_digit(s[k]) by {
                    assert(t[k] == s[k]);
                }
            },
        }
    }
}

/// Reads a sequence of ASCII decimal digits as a number. The first byte
/// that is no digit is reported; so is a number too large for an `i32`.
/// The empty sequence reads as 0.
pub fn parse_numerical(inp: &[u8]) -> (r: Result<i32, ParseFailReason>)
    ensures
        match first_non_digit(inp@) {
            Some(i) => r == Err::<i32, ParseFailReason>(
                ParseFailReason::Invalid(inp@[i] as char),
            ),
            None => if decimal_value(inp@) <= i32::MAX {
                r == Ok::<i32, ParseFailReason>(decimal_value(inp@) as i32)
            } else {
                r matches Err(ParseFailReason::Other(m)) && m@ == out_of_range_text()
            },
        },
{
    let mut res: i32 = 0;
    let mut fits = true;
    let mut i: usize = 0;
    while i < inp.len()
        invariant
            i <= inp@.len(),
            forall|k: int| 0 <= k < i ==> is_digit(inp@[k]),
            fits ==> res == decimal_value(inp@.take(i as int)),
            !fits ==> decimal_value(inp@.take(i as int)) > i32::MAX,
            0 <= res,
        decreases inp@.len() - i,
    {
        let b = inp[i];
        if b < 48 || b > 57 {
            proof {
                lemma_first_non_digit(inp@);
            }
            return Err(ParseFailReason::Invalid(b as char));
        }
        proof {
            assert(inp@.take(i + 1).drop_last() =~= inp@.take(i as int));
        }
        if fits {
            let wide: i64 = res as i64 * 10 + (b - 48) as i64;
            if wide > i32::MAX as i64 {
                fits = false;
            } else {
                res = wide as i32;
            }
        }
        i += 1;
    }
    proof {
        lemma_first_non_digit(inp@);
        assert(inp@.take(i as int) =~= inp@);
    }
    if fits {
        Ok(res)
    } else {
        Err(ParseFailReason::Other(String::from_str("number out of range")))
    }
}

} // verus!
