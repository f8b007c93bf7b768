//! Text helpers on sequences of characters: white space, trimming, the
//! first occurrence of a character, and equality of two strings.

use vstd::prelude::*;
use vstd::string::{StrSliceExecFns, StringExecFns};
use crate::sigsafe::{decimal, lemma_digits, render_decimal, MINUS, NUMBUF_LEN};

verus! {

/// Whether a character has the Unicode property White_Space.
pub open spec fn is_whitespace(c: char) -> bool {
    let u = c as u32;
    ||| 0x09 <= u <= 0x0d
    ||| u == 0x20
    ||| u == 0x85
    ||| u == 0xa0
    ||| u == 0x1680
    ||| 0x2000 <= u <= 0x200a
    ||| u == 0x2028
    ||| u == 0x2029
    ||| u == 0x202f
    ||| u == 0x205f
    ||| u == 0x3000
}

/// The sequence without its leading white space.
pub open spec fn trim_start(s: Seq<char>) -> Seq<char>
    decreases s.len(),
{
    if s.len() > 0 && is_whitespace(s[0]) {
        trim_start(s.drop_first())
    } else {
        s
    }
}

/// The sequence without its trailing white space.
pub open spec fn trim_end(s: Seq<char>) -> Seq<char>
    decreases s.len(),
{
    if s.len() > 0 && is_whitespace(s.last()) {
        trim_end(s.drop_last())
    } else {
        s
    }
}

/// The sequence without leading and trailing white space.
pub open spec fn trimmed(s: Seq<char>) -> Seq<char> {
    trim_end(trim_start(s))
}

/// The index of the first occurrence of `c` in `s`.
pub open spec fn find_char(s: Seq<char>, c: char) -> Option<int>
    decreases s.len(),
{
    if s.len() == 0 {
        None
    } else if s[0] == c {
        Some(0)
    } else {
        match find_char(s.drop_first(), c) {
            Some(i) => Some(i + 1),
            None => None,
        }
    }
}

/// `find_char` names the lowest index that holds the character.
pub proof fn lemma_find_char(s: Seq<char>, c: char)
    ensures
        match find_char(s, c) {
            Some(i) => 0 <= i < s.len() && s[i] == c && forall|k: int| 0 <= k < i ==> s[k] != c,
            None => forall|k: int| 0 <= k < s.len() ==> s[k] != c,
        },
    decreases s.len(),
{
    if s.len() > 0 && s[0] != c {
        let t = s.drop_first();
        lemma_find_char(t, c);
        match find_char(t, c) {
            Some(i) => {
                assert forall|k: int| 0 <= k < i + 1 implies s[k] != c by {
                    if k > 0 {
                        assert(s[k] == t[k - 1]);
                    }
                }
            },
            None => {
                assert forall|k: int| 0 <= k < s.len() implies s[k] != c by {
                    if k > 0 {
                        assert(s[k] == t[k - 1]);
                    }
                }
            },
        }
    }
}

/// What is left of a sequence after its leading white space was taken
/// away starts at the first character that is no white space.
pub proof fn lemma_trim_start_skip(s: Seq<char>, a: int)
    requires
        0 <= a <= s.len(),
        forall|k: int| 0 <= k < a ==> is_whitespace(s[k]),
        a == s.len() || !is_whitespace(s[a]),
    ensures
        trim_start(s) == s.skip(a),
    decreases a,
{
    if a == 0 {
        assert(s.skip(0) =~= s);
    } else {
        let t = s.drop_first();
        assert forall|k: int| 0 <= k < a - 1 implies is_whitespace(t[k]) by {
            assert(t[k] == s[k + 1]);
        }
        lemma_trim_start_skip(t, a - 1);
        assert(t.skip(a - 1) =~= s.skip(a));
    }
}

/// What is left of a sequence after its trailing white space was taken
/// away ends behind the last character that is no white space.
pub proof fn lemma_trim_end_take(s: Seq<char>, b: int)
    requires
        0 <= b <= s.len(),
        forall|k: int| b <= k < s.len() ==> is_whitespace(s[k]),
        b == 0 || !is_whitespace(s[b - 1]),
    ensures
        trim_end(s) == s.take(b),
    decreases s.len() - b,
{
    if b == s.len() {
        assert(s.take(b) =~= s);
    } else {
        let t = s.drop_last();
        lemma_trim_end_take(t, b);
        assert(t.take(b) =~= s.take(b));
    }
}

/// A trimmed sequence is empty or begins and ends with a character that
/// is no white space, and it is no longer than the sequence it came from.
pub proof fn lemma_trimmed(s: Seq<char>)
    ensures
        trimmed(s).len() <= s.len(),
        trimmed(s).len() > 0 ==> !is_whitespace(trimmed(s)[0]) && !is_whitespace(
            trimmed(s).last(),
        ),
        trimmed(trimmed(s)) == trimmed(s),
{
    let a = leading(s, 0);
    lemma_leading(s, 0);
    lemma_trim_start_skip(s, a);
    let u = s.skip(a);
    let b = trailing(u, u.len() as int);
    lemma_trailing(u, u.len() as int);
    lemma_trim_end_take(u, b);
    let t = u.take(b);
    assert(trimmed(s) == t);
    if t.len() > 0 {
        assert(t.last() == u[b - 1]);
        assert(t[0] == u[0]);
        assert(u[0] == s[a]);
        lemma_trim_start_skip(t, 0);
        assert(t.skip(0) =~= t);
        lemma_trim_end_take(t, t.len() as int);
        assert(t.take(t.len() as int) =~= t);
    }
}

/// The first index from `a` on that holds no white space, or the length.
spec fn leading(s: Seq<char>, a: int) -> int
    decreases s.len() - a,
{
    if 0 <= a < s.len() && is_whitespace(s[a]) {
        leading(s, a + 1)
    } else {
        a
    }
}

/// The index behind the last character before `b` that is no white space,
/// or 0.
spec fn trailing(s: Seq<char>, b: int) -> int
    decreases b,
{
    if 0 < b <= s.len() && is_whitespace(s[b - 1]) {
        trailing(s, b - 1)
    } else {
        b
    }
}

proof fn lemma_leading(s: Seq<char>, a: int)
    requires
        0 <= a <= s.len(),
    ensures
        a <= leading(s, a) <= s.len(),
        forall|k: int| a <= k < leading(s, a) ==> is_whitespace(s[k]),
        leading(s, a) == s.len() || !is_whitespace(s[leading(s, a)]),
    decreases s.len() - a,
{
    if a < s.len() && is_whitespace(s[a]) {
        lemma_leading(s, a + 1);
    }
}

proof fn lemma_trailing(s: Seq<char>, b: int)
    requires
        0 <= b <= s.len(),
    ensures
        0 <= trailing(s, b) <= b,
        forall|k: int| trailing(s, b) <= k < b ==> is_whitespace(s[k]),
        trailing(s, b) == 0 || !is_whitespace(s[trailing(s, b) - 1]),
    decreases b,
{
    if 0 < b && is_whitespace(s[b - 1]) {
        lemma_trailing(s, b - 1);
    }
}

/// Whether a character is white space.
pub fn is_space(c: char) -> (r: bool)
    ensures
        r == is_whitespace(c),
{
    let u = c as u32;
    (0x09 <= u && u <= 0x0d) || u == 0x20 || u == 0x85 || u == 0xa0 || u == 0x1680 || (0x2000 <= u
        && u <= 0x200a) || u == 0x2028 || u == 0x2029 || u == 0x202f || u == 0x205f || u == 0x3000
}

/// The part of a string between its leading and its trailing white space.
pub fn trim(s: &str) -> (r: &str)
    ensures
        r@ == trimmed(s@),
{
    let n = s.unicode_len();
    let mut a: usize = 0;
    while a < n && is_space(s.get_char(a))
        invariant
            a <= n,
            n == s@.len(),
            forall|k: int| 0 <= k < a ==> is_whitespace(s@[k]),
        decreases n - a,
    {
        a += 1;
    }
    let mut b: usize = n;
    while b > a && is_space(s.get_char(b - 1))
        invariant
            a <= b <= n,
            n == s@.len(),
            forall|k: int| b <= k < n ==> is_whitespace(s@[k]),
        decreases b,
    {
        b -= 1;
    }
    proof {
        lemma_trim_start_skip(s@, a as int);
        let u = s@.skip(a as int);
        assert forall|k: int| b - a <= k < u.len() implies is_whitespace(u[k]) by {
            assert(u[k] == s@[k + a]);
        }
        if b > a {
            assert(u[b - a - 1] == s@[b - 1]);
        }
        lemma_trim_end_take(u, b - a);
        assert(u.take(b - a) =~= s@.subrange(a as int, b as int));
    }
    s.substring_char(a, b)
}

/// The index of the first occurrence of a character in a string.
pub fn find(s: &str, c: char) -> (r: Option<usize>)
    ensures
        match r {
            Some(i) => find_char(s@, c) == Some(i as int),
            None => find_char(s@, c) is None,
        },
{
    let n = s.unicode_len();
    let mut i: usize = 0;
    while i < n
        invariant
            i <= n,
            n == s@.len(),
            forall|k: int| 0 <= k < i ==> s@[k] != c,
        decreases n - i,
    {
        if s.get_char(i) == c {
            proof {
                lemma_find_char(s@, c);
            }
            return Some(i);
        }
        i += 1;
    }
    proof {
        lemma_find_char(s@, c);
    }
    None
}

/// Whether two strings hold the same characters.
pub fn same_text(a: &str, b: &str) -> (r: bool)
    ensures
        r == (a@ == b@),
{
    let n = a.unicode_len();
    if b.unicode_len() != n {
        return false;
    }
    let mut i: usize = 0;
    while i < n
        invariant
            i <= n,
            n == a@.len(),
            n == b@.len(),
            forall|k: int| 0 <= k < i ==> a@[k] == b@[k],
        decreases n - i,
    {
        if a.get_char(i) != b.get_char(i) {
            return false;
        }
        i += 1;
    }
    assert(a@ =~= b@);
    true
}

/// A number written in base 10, as characters.
pub open spec fn decimal_text(n: int) -> Seq<char> {
    decimal(n).map_values(|b: u8| b as char)
}

/// The text of one digit or of the minus sign.
fn glyph(b: u8) -> (r: &'static str)
    requires
        48 <= b <= 57 || b == MINUS,
    ensures
        r@ == seq![b as char],
{
    proof {
        reveal_strlit("0");
        reveal_strlit("1");
        reveal_strlit("2");
        reveal_strlit("3");
        reveal_strlit("4");
        reveal_strlit("5");
        reveal_strlit("6");
        reveal_strlit("7");
        reveal_strlit("8");
        reveal_strlit("9");
        reveal_strlit("-");
    }
    let r = if b == 48 {
        "0"
    } else if b == 49 {
        "1"
    } else if b == 50 {
        "2"
    } else if b == 51 {
        "3"
    } else if b == 52 {
        "4"
    } else if b == 53 {
        "5"
    } else if b == 54 {
        "6"
    } else if b == 55 {
        "7"
    } else if b == 56 {
        "8"
    } else if b == 57 {
        "9"
    } else {
        "-"
    };
    assert(r@ =~= seq![b as char]);
    r
}

/// A number written in base 10.
pub fn decimal_string(x: i32) -> (r: String)
    ensures
        r@ == decimal_text(x as int),
{
    let (numbuf, offset) = render_decimal(x);
    let ghost text = decimal(x as int);
    proof {
        if x < 0 {
            lemma_digits((-x) as nat);
        } else {
            lemma_digits(x as nat);
        }
    }
    let mut out = String::new();
    let mut i: usize = offset;
    while i < NUMBUF_LEN
        invariant
            offset <= i <= NUMBUF_LEN,
            text == numbuf@.skip(offset as int),
            forall|k: int| 0 <= k < text.len() ==> 48 <= #[trigger] text[k] <= 57 || text[k] == MINUS,
            out@ == text.take(i - offset).map_values(|b: u8| b as char),
        decreases NUMBUF_LEN - i,
    {
        let b = numbuf[i];
        assert(b == text[i - offset]);
        out.append(glyph(b));
        assert(out@ =~= text.take(i + 1 - offset).map_values(|b: u8| b as char));
        i += 1;
    }
    assert(text.take(i - offset) =~= text);
    out
}

} // verus!
