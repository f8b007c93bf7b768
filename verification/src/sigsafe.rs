//! Message formatting for signal handlers: a template with a placeholder
//! is expanded into a buffer of fixed size, without allocating.

use vstd::prelude::*;
use vstd::slice::slice_subrange;

verus! {

/// Size of a message buffer.
pub const MSGBUF_LEN: usize = 256;

/// Length of the buffer in which a number is written out.
pub const NUMBUF_LEN: usize = 16;

/// The byte `%`, with which a placeholder begins.
pub const PERCENT: u8 = 37;

/// The byte `-`.
pub const MINUS: u8 = 45;

/// The letter `d`: the kind of the placeholder for a number.
pub const KIND_INT: u8 = 100;

/// The letter `s`: the kind of the placeholder for a text.
pub const KIND_STR: u8 = 115;

/// Whether a placeholder of this kind (`%` followed by the kind's letter)
/// stands at index `i` of the template.
pub open spec fn placeholder_at(t: Seq<u8>, kind: u8, i: int) -> bool {
    0 <= i && i + 1 < t.len() && t[i] == PERCENT && t[i + 1] == kind
}

/// The lowest index from `i` on at which a placeholder of this kind stands.
pub open spec fn placeholder_from(t: Seq<u8>, kind: u8, i: int) -> Option<int>
    decreases t.len() - i,
{
    if i < 0 || i + 1 >= t.len() {
        None
    } else if t[i] == PERCENT && t[i + 1] == kind {
        Some(i)
    } else {
        placeholder_from(t, kind, i + 1)
    }
}

/// The index of the first placeholder of this kind in the template.
pub open spec fn first_placeholder(t: Seq<u8>, kind: u8) -> Option<int> {
    placeholder_from(t, kind, 0)
}

/// The template with its first placeholder of this kind replaced by `x`;
/// the template itself where it has none.
pub open spec fn substituted(t: Seq<u8>, kind: u8, x: Seq<u8>) -> Seq<u8> {
    match first_placeholder(t, kind) {
        Some(i) => t.take(i) + x + t.skip(i + 2),
        None => t,
    }
}

/// The first `MSGBUF_LEN` bytes of a text, followed by zeros where the
/// text is shorter.
pub open spec fn padded(s: Seq<u8>) -> Seq<u8> {
    Seq::new(
        MSGBUF_LEN as nat,
        |k: int|
            if k < s.len() {
                s[k]
            } else {
                0u8
            },
    )
}

/// The first `MSGBUF_LEN` bytes of a template.
pub open spec fn truncated(t: Seq<u8>) -> Seq<u8> {
    if t.len() > MSGBUF_LEN {
        t.take(MSGBUF_LEN as int)
    } else {
        t
    }
}

/// The decimal digits of a natural number, most significant first.
pub open spec fn digits(n: nat) -> Seq<u8>
    decreases n,
{
    if n < 10 {
        seq![(48 + n) as u8]
    } else {
        digits(n / 10).push((48 + n % 10) as u8)
    }
}

/// A number written in base 10, with a minus sign before a negative one.
pub open spec fn decimal(n: int) -> Seq<u8> {
    if n < 0 {
        seq![MINUS] + digits((-n) as nat)
    } else {
        digits(n as nat)
    }
}

/// A template with its first `%s` replaced by a text, as a message
/// buffer holds it.
pub open spec fn with_text(template: Seq<u8>, x: Seq<u8>) -> Seq<u8> {
    padded(substituted(template, KIND_STR, x))
}

/// The first `MSGBUF_LEN` bytes of a template with their first `%d`
/// replaced by a number, as a message buffer holds it.
pub open spec fn with_int(template: Seq<u8>, x: int) -> Seq<u8> {
    padded(substituted(truncated(template), KIND_INT, decimal(x)))
}

/// Ten to the power `k`.
pub open spec fn pow10(k: nat) -> nat
    decreases k,
{
    if k == 0 {
        1
    } else {
        10 * pow10((k - 1) as nat)
    }
}

/// `placeholder_from` names the lowest index from `i` on at which a
/// placeholder stands.
pub proof fn lemma_placeholder_from(t: Seq<u8>, kind: u8, i: int)
    requires
        0 <= i,
    ensures
        match placeholder_from(t, kind, i) {
            Some(p) => i <= p && placeholder_at(t, kind, p) && forall|k: int|
                i <= k < p ==> !placeholder_at(t, kind, k),
            None => forall|k: int| i <= k ==> !placeholder_at(t, kind, k),
        },
    decreases t.len() - i,
{
    if i + 1 < t.len() && !(t[i] == PERCENT && t[i + 1] == kind) {
        lemma_placeholder_from(t, kind, i + 1);
    }
}

/// A number has at least one digit, and each is an ASCII digit.
pub proof fn lemma_digits(n: nat)
    ensures
        digits(n).len() >= 1,
        forall|k: int| 0 <= k < digits(n).len() ==> 48 <= #[trigger] digits(n)[k] <= 57,
    decreases n,
{
    if n >= 10 {
        lemma_digits(n / 10);
    }
}

/// A number below ten to the power `k` has at most `k` digits, for `k` of
/// at least 1.
pub proof fn lemma_digits_len(n: nat, k: nat)
    requires
        k >= 1,
        n < pow10(k),
    ensures
        digits(n).len() <= k,
    decreases k,
{
    if n >= 10 {
        if k == 1 {
            assert(pow10(1) == 10) by {
                reveal_with_fuel(pow10, 2);
            }
        } else {
            lemma_digits_len(n / 10, (k - 1) as nat);
        }
    }
}

/// The first placeholder of a template is the lowest index at which one
/// stands.
pub proof fn lemma_first_placeholder_is(t: Seq<u8>, kind: u8, p: int)
    requires
        placeholder_at(t, kind, p),
        forall|k: int| 0 <= k < p ==> !placeholder_at(t, kind, k),
    ensures
        first_placeholder(t, kind) == Some(p),
{
    lemma_placeholder_from(t, kind, 0);
    if first_placeholder(t, kind) is Some {
        let q = first_placeholder(t, kind)->0;
        assert(placeholder_at(t, kind, q));
    }
}

/// A template without a placeholder has no first one.
pub proof fn lemma_first_placeholder_none(t: Seq<u8>, kind: u8)
    requires
        forall|k: int| 0 <= k ==> !placeholder_at(t, kind, k),
    ensures
        first_placeholder(t, kind) is None,
{
    lemma_placeholder_from(t, kind, 0);
    if first_placeholder(t, kind) is Some {
        assert(placeholder_at(t, kind, first_placeholder(t, kind)->0));
    }
}

/// Where no `%` stands before a placeholder, that placeholder is the one
/// that is replaced.
pub proof fn lemma_substituted_at(pre: Seq<u8>, kind: u8, x: Seq<u8>, post: Seq<u8>)
    requires
        forall|k: int| 0 <= k < pre.len() ==> pre[k] != PERCENT,
    ensures
        substituted(pre + seq![PERCENT, kind] + post, kind, x) == pre + x + post,
{
    let t = pre + seq![PERCENT, kind] + post;
    let p = pre.len() as int;
    assert(t[p] == PERCENT && t[p + 1] == kind);
    assert forall|k: int| 0 <= k < p implies !placeholder_at(t, kind, k) by {
        assert(t[k] == pre[k]);
    }
    lemma_first_placeholder_is(t, kind, p);
    assert(t.take(p) =~= pre);
    assert(t.skip(p + 2) =~= post);
}

/// Chaining: a message buffer can serve as the template of the next
/// replacement. Replacing a placeholder in what the buffer holds of a
/// text gives what it would hold of the text with the placeholder
/// replaced.
pub proof fn lemma_padded_substituted(s: Seq<u8>, kind: u8, x: Seq<u8>)
    requires
        s.len() <= MSGBUF_LEN,
        kind != 0,
    ensures
        padded(substituted(padded(s), kind, x)) == padded(substituted(s, kind, x)),
{
    let b = padded(s);
    lemma_placeholder_from(s, kind, 0);
    lemma_placeholder_from(b, kind, 0);
    assert forall|k: int| placeholder_at(b, kind, k) <==> placeholder_at(s, kind, k) by {
        if placeholder_at(b, kind, k) {
            assert(b[k + 1] == kind);
            assert(k + 1 < s.len());
        }
        if placeholder_at(s, kind, k) {
            assert(b[k] == s[k] && b[k + 1] == s[k + 1]);
        }
    }
    match first_placeholder(s, kind) {
        Some(i) => {
            assert(placeholder_at(b, kind, i));
            lemma_first_placeholder_is(b, kind, i);
            assert(padded(b.take(i) + x + b.skip(i + 2)) =~= padded(s.take(i) + x + s.skip(i + 2)));
        },
        None => {
            lemma_first_placeholder_none(b, kind);
            assert(padded(b) =~= padded(s));
        },
    }
}

/// Chaining for `%s`: see `lemma_padded_substituted`.
pub proof fn lemma_with_text_chained(s: Seq<u8>, x: Seq<u8>)
    requires
        s.len() <= MSGBUF_LEN,
    ensures
        with_text(padded(s), x) == with_text(s, x),
{
    lemma_padded_substituted(s, KIND_STR, x);
}

/// Chaining for `%d`: see `lemma_padded_substituted`.
pub proof fn lemma_with_int_chained(s: Seq<u8>, x: int)
    requires
        s.len() <= MSGBUF_LEN,
    ensures
        with_int(padded(s), x) == with_int(s, x),
{
    lemma_padded_substituted(s, KIND_INT, decimal(x));
}

/// A number that an `i32` holds is written with at most 11 bytes, none of
/// which is `%`.
pub proof fn lemma_decimal(x: i32)
    ensures
        1 <= decimal(x as int).len() <= 11,
        forall|k: int| 0 <= k < decimal(x as int).len() ==> decimal(x as int)[k] != PERCENT,
{
    assert(pow10(10) == 10_000_000_000nat) by {
        reveal_with_fuel(pow10, 11);
    }
    if x < 0 {
        lemma_digits((-x) as nat);
        lemma_digits_len((-x) as nat, 10);
    } else {
        lemma_digits(x as nat);
        lemma_digits_len(x as nat, 10);
    }
}

/// Writes a number in base 10 at the end of a buffer and returns the
/// buffer with the index at which the text begins.
pub fn render_decimal(x: i32) -> (r: ([u8; NUMBUF_LEN], usize))
    ensures
        r.1 < NUMBUF_LEN,
        r.0@.skip(r.1 as int) == decimal(x as int),
{
    let mut numbuf = [0u8; NUMBUF_LEN];
    let negative = x < 0;
    let magnitude: i64 = if negative {
        -(x as i64)
    } else {
        x as i64
    };
    let mut m: i64 = magnitude / 10;
    let mut j: usize = NUMBUF_LEN - 1;
    numbuf[j] = (48 + magnitude % 10) as u8;
    assert(pow10(10) == 10_000_000_000nat) by {
        reveal_with_fuel(pow10, 11);
    }
    assert(numbuf@.skip(j as int) =~= seq![(48 + magnitude % 10) as u8]);
    while m > 0
        invariant
            0 <= m,
            5 <= j < NUMBUF_LEN,
            m < pow10((j - 5) as nat),
            0 <= magnitude,
            digits(magnitude as nat) == if m > 0 {
                digits(m as nat) + numbuf@.skip(j as int)
            } else {
                numbuf@.skip(j as int)
            },
        decreases m,
    {
        let ghost before = numbuf@.skip(j as int);
        assert(j > 5) by {
            if j == 5 {
                assert(pow10(0) == 1);
            }
        }
        assert(pow10((j - 5) as nat) == 10 * pow10((j - 6) as nat));
        j -= 1;
        numbuf[j] = (48 + m % 10) as u8;
        assert(numbuf@.skip(j as int) =~= seq![(48 + m % 10) as u8] + before);
        proof {
            if m >= 10 {
                assert(digits(m as nat) == digits((m / 10) as nat).push((48 + m % 10) as u8));
                assert(digits((m / 10) as nat).push((48 + m % 10) as u8) + before =~= digits(
                    (m / 10) as nat,
                ) + numbuf@.skip(j as int));
            } else {
                assert(digits(m as nat) + before =~= numbuf@.skip(j as int));
            }
        }
        m = m / 10;
    }
    if negative {
        let ghost before = numbuf@.skip(j as int);
        j -= 1;
        numbuf[j] = MINUS;
        assert(numbuf@.skip(j as int) =~= seq![MINUS] + before);
    }
    (numbuf, j)
}

/// Copies a template into a message buffer, with its first placeholder
/// of the given kind replaced by `x`. What does not fit is left out.
pub fn expand(template: &[u8], kind: u8, x: &[u8]) -> (r: [u8; MSGBUF_LEN])
    ensures
        r@ == padded(substituted(template@, kind, x@)),
{
    let mut out = [0u8; MSGBUF_LEN];
    let mut done = false;
    let mut from: usize = 0;
    let mut to: usize = 0;
    let n = template.len();
    let ghost t = template@;
    let ghost text = substituted(t, kind, x@);
    proof {
        lemma_placeholder_from(t, kind, 0);
    }
    while from < n && to < MSGBUF_LEN
        invariant
            n == t.len(),
            t == template@,
            text == substituted(t, kind, x@),
            from <= n,
            to <= MSGBUF_LEN,
            forall|k: int| 0 <= k < to ==> out@[k] == text[k],
            forall|k: int| to <= k < MSGBUF_LEN ==> out@[k] == 0,
            to <= text.len(),
            !done ==> to == from && forall|k: int| 0 <= k < from ==> !placeholder_at(t, kind, k),
            done ==> first_placeholder(t, kind) is Some && first_placeholder(t, kind)->0 + 2
                <= from && (to == MSGBUF_LEN || to == from - 2 + x@.len()),
        decreases n - from,
    {
        proof {
            lemma_placeholder_from(t, kind, 0);
        }
        if !done && from + 1 < n && template[from] == PERCENT && template[from + 1] == kind {
            assert(placeholder_at(t, kind, from as int));
            assert(first_placeholder(t, kind) == Some(from as int)) by {
                if first_placeholder(t, kind) is Some {
                    let p = first_placeholder(t, kind)->0;
                    assert(placeholder_at(t, kind, p));
                }
            }
            let mut j: usize = 0;
            while j < x.len() && to < MSGBUF_LEN
                invariant
                    n == t.len(),
                    text == substituted(t, kind, x@),
                    first_placeholder(t, kind) == Some(from as int),
                    from + 1 < n,
                    j <= x@.len(),
                    to == from + j,
                    to <= MSGBUF_LEN,
                    forall|k: int| 0 <= k < to ==> out@[k] == text[k],
                    forall|k: int| to <= k < MSGBUF_LEN ==> out@[k] == 0,
                decreases x@.len() - j,
            {
                out[to] = x[j];
                to += 1;
                j += 1;
            }
            from += 2;
            done = true;
        } else {
            assert(text[to as int] == t[from as int]);
            out[to] = template[from];
            to += 1;
            from += 1;
        }
    }
    proof {
        lemma_placeholder_from(t, kind, 0);
        assert(out@ =~= padded(text));
    }
    out
}

/// Replaces the first `%s` of a template by a text. The result is cut off
/// at the size of a message buffer and filled up with zeros.
pub fn format_string_str(buf: &[u8], x: &[u8]) -> (r: [u8; MSGBUF_LEN])
    ensures
        r@ == with_text(buf@, x@),
{
    expand(buf, KIND_STR, x)
}

/// Replaces the first `%d` in the first `MSGBUF_LEN` bytes of a template
/// by a number written in base 10. The result is cut off at the size of a
/// message buffer and filled up with zeros.
pub fn format_string_int(buf: &[u8], x: i32) -> (r: [u8; MSGBUF_LEN])
    ensures
        r@ == with_int(buf@, x as int),
{
    let (numbuf, offset) = render_decimal(x);
    let head = if buf.len() > MSGBUF_LEN {
        slice_subrange(buf, 0, MSGBUF_LEN)
    } else {
        buf
    };
    expand(head, KIND_INT, slice_subrange(numbuf.as_slice(), offset, NUMBUF_LEN))
}

} // verus!
