//! Flashcards written in notes: list items marked `#card`, `#card-reverse`
//! or `#cloze`, with the indented lines below them as the answer.

use vstd::prelude::*;
use vstd::utf8::encode_utf8;
use crate::blocks::{blocks_and_lines, blocks_of, line_block_from, line_block_in, opt_int};
use crate::hashing::{digest_hex, sha256_digest};
use crate::links::opt_view;
use crate::text::{
    blen, blen_capped, chars_of, dec, ends_with, extend_range, extend_str, find_char, hex_lower,
    is_blank, is_blank_range, lead_ws, push_dec, skip_ws, back_ws, string_of,
    string_of_range, trim, trim_end, trim_range, trim_start, utf8_width, split_char, split_ranges,
    ranges_cut, byte_offsets, lemma_blen_append, is_lower_hex,
};

verus! {

// ---------------------------------------------------------------------------
// Cloze deletions: `{{c1::text}}` or `{{c1::text::hint}}`
// ---------------------------------------------------------------------------

/// A Unicode decimal digit (general category Nd, Unicode 16.0).
pub open spec fn is_decimal_digit(c: char) -> bool {
    let u = c as u32;
        (0x30 <= u && u <= 0x39) || (0x660 <= u && u <= 0x669) || (0x6f0 <= u && u <= 0x6f9) ||
        (0x7c0 <= u && u <= 0x7c9) || (0x966 <= u && u <= 0x96f) || (0x9e6 <= u && u <= 0x9ef) ||
        (0xa66 <= u && u <= 0xa6f) || (0xae6 <= u && u <= 0xaef) || (0xb66 <= u && u <= 0xb6f) ||
        (0xbe6 <= u && u <= 0xbef) || (0xc66 <= u && u <= 0xc6f) || (0xce6 <= u && u <= 0xcef) ||
        (0xd66 <= u && u <= 0xd6f) || (0xde6 <= u && u <= 0xdef) || (0xe50 <= u && u <= 0xe59) ||
        (0xed0 <= u && u <= 0xed9) || (0xf20 <= u && u <= 0xf29) ||
        (0x1040 <= u && u <= 0x1049) || (0x1090 <= u && u <= 0x1099) ||
        (0x17e0 <= u && u <= 0x17e9) || (0x1810 <= u && u <= 0x1819) ||
        (0x1946 <= u && u <= 0x194f) || (0x19d0 <= u && u <= 0x19d9) ||
        (0x1a80 <= u && u <= 0x1a89) || (0x1a90 <= u && u <= 0x1a99) ||
        (0x1b50 <= u && u <= 0x1b59) || (0x1bb0 <= u && u <= 0x1bb9) ||
        (0x1c40 <= u && u <= 0x1c49) || (0x1c50 <= u && u <= 0x1c59) ||
        (0xa620 <= u && u <= 0xa629) || (0xa8d0 <= u && u <= 0xa8d9) ||
        (0xa900 <= u && u <= 0xa909) || (0xa9d0 <= u && u <= 0xa9d9) ||
        (0xa9f0 <= u && u <= 0xa9f9) || (0xaa50 <= u && u <= 0xaa59) ||
        (0xabf0 <= u && u <= 0xabf9) || (0xff10 <= u && u <= 0xff19) ||
        (0x104a0 <= u && u <= 0x104a9) || (0x10d30 <= u && u <= 0x10d39) ||
        (0x10d40 <= u && u <= 0x10d49) || (0x11066 <= u && u <= 0x1106f) ||
        (0x110f0 <= u && u <= 0x110f9) || (0x11136 <= u && u <= 0x1113f) ||
        (0x111d0 <= u && u <= 0x111d9) || (0x112f0 <= u && u <= 0x112f9) ||
        (0x11450 <= u && u <= 0x11459) || (0x114d0 <= u && u <= 0x114d9) ||
        (0x11650 <= u && u <= 0x11659) || (0x116c0 <= u && u <= 0x116c9) ||
        (0x116d0 <= u && u <= 0x116e3) || (0x11730 <= u && u <= 0x11739) ||
        (0x118e0 <= u && u <= 0x118e9) || (0x11950 <= u && u <= 0x11959) ||
        (0x11bf0 <= u && u <= 0x11bf9) || (0x11c50 <= u && u <= 0x11c59) ||
        (0x11d50 <= u && u <= 0x11d59) || (0x11da0 <= u && u <= 0x11da9) ||
        (0x11f50 <= u && u <= 0x11f59) || (0x16130 <= u && u <= 0x16139) ||
        (0x16a60 <= u && u <= 0x16a69) || (0x16ac0 <= u && u <= 0x16ac9) ||
        (0x16b50 <= u && u <= 0x16b59) || (0x16d70 <= u && u <= 0x16d79) ||
        (0x1ccf0 <= u && u <= 0x1ccf9) || (0x1d7ce <= u && u <= 0x1d7ff) ||
        (0x1e140 <= u && u <= 0x1e149) || (0x1e2f0 <= u && u <= 0x1e2f9) ||
        (0x1e4f0 <= u && u <= 0x1e4f9) || (0x1e5f1 <= u && u <= 0x1e5fa) ||
        (0x1e950 <= u && u <= 0x1e959) || (0x1fbf0 <= u && u <= 0x1fbf9)
}

/// Whether `c` is a Unicode decimal digit.
pub fn decimal_digit(c: char) -> (b: bool)
    ensures
        b == is_decimal_digit(c),
{
    let u = c as u32;
        (0x30 <= u && u <= 0x39) || (0x660 <= u && u <= 0x669) || (0x6f0 <= u && u <= 0x6f9) ||
        (0x7c0 <= u && u <= 0x7c9) || (0x966 <= u && u <= 0x96f) || (0x9e6 <= u && u <= 0x9ef) ||
        (0xa66 <= u && u <= 0xa6f) || (0xae6 <= u && u <= 0xaef) || (0xb66 <= u && u <= 0xb6f) ||
        (0xbe6 <= u && u <= 0xbef) || (0xc66 <= u && u <= 0xc6f) || (0xce6 <= u && u <= 0xcef) ||
        (0xd66 <= u && u <= 0xd6f) || (0xde6 <= u && u <= 0xdef) || (0xe50 <= u && u <= 0xe59) ||
        (0xed0 <= u && u <= 0xed9) || (0xf20 <= u && u <= 0xf29) ||
        (0x1040 <= u && u <= 0x1049) || (0x1090 <= u && u <= 0x1099) ||
        (0x17e0 <= u && u <= 0x17e9) || (0x1810 <= u && u <= 0x1819) ||
        (0x1946 <= u && u <= 0x194f) || (0x19d0 <= u && u <= 0x19d9) ||
        (0x1a80 <= u && u <= 0x1a89) || (0x1a90 <= u && u <= 0x1a99) ||
        (0x1b50 <= u && u <= 0x1b59) || (0x1bb0 <= u && u <= 0x1bb9) ||
        (0x1c40 <= u && u <= 0x1c49) || (0x1c50 <= u && u <= 0x1c59) ||
        (0xa620 <= u && u <= 0xa629) || (0xa8d0 <= u && u <= 0xa8d9) ||
        (0xa900 <= u && u <= 0xa909) || (0xa9d0 <= u && u <= 0xa9d9) ||
        (0xa9f0 <= u && u <= 0xa9f9) || (0xaa50 <= u && u <= 0xaa59) ||
        (0xabf0 <= u && u <= 0xabf9) || (0xff10 <= u && u <= 0xff19) ||
        (0x104a0 <= u && u <= 0x104a9) || (0x10d30 <= u && u <= 0x10d39) ||
        (0x10d40 <= u && u <= 0x10d49) || (0x11066 <= u && u <= 0x1106f) ||
        (0x110f0 <= u && u <= 0x110f9) || (0x11136 <= u && u <= 0x1113f) ||
        (0x111d0 <= u && u <= 0x111d9) || (0x112f0 <= u && u <= 0x112f9) ||
        (0x11450 <= u && u <= 0x11459) || (0x114d0 <= u && u <= 0x114d9) ||
        (0x11650 <= u && u <= 0x11659) || (0x116c0 <= u && u <= 0x116c9) ||
        (0x116d0 <= u && u <= 0x116e3) || (0x11730 <= u && u <= 0x11739) ||
        (0x118e0 <= u && u <= 0x118e9) || (0x11950 <= u && u <= 0x11959) ||
        (0x11bf0 <= u && u <= 0x11bf9) || (0x11c50 <= u && u <= 0x11c59) ||
        (0x11d50 <= u && u <= 0x11d59) || (0x11da0 <= u && u <= 0x11da9) ||
        (0x11f50 <= u && u <= 0x11f59) || (0x16130 <= u && u <= 0x16139) ||
        (0x16a60 <= u && u <= 0x16a69) || (0x16ac0 <= u && u <= 0x16ac9) ||
        (0x16b50 <= u && u <= 0x16b59) || (0x16d70 <= u && u <= 0x16d79) ||
        (0x1ccf0 <= u && u <= 0x1ccf9) || (0x1d7ce <= u && u <= 0x1d7ff) ||
        (0x1e140 <= u && u <= 0x1e149) || (0x1e2f0 <= u && u <= 0x1e2f9) ||
        (0x1e4f0 <= u && u <= 0x1e4f9) || (0x1e5f1 <= u && u <= 0x1e5fa) ||
        (0x1e950 <= u && u <= 0x1e959) || (0x1fbf0 <= u && u <= 0x1fbf9)
}

/// First index from `i` on that does not hold a decimal digit.
pub open spec fn digits_end(s: Seq<char>, i: int) -> int
    decreases s.len() - i,
{
    if i < 0 || i >= s.len() || !is_decimal_digit(s[i]) {
        i
    } else {
        digits_end(s, i + 1)
    }
}

/// First index from `i` on that holds `}`, or the length of `s`.
pub open spec fn close_brace_from(s: Seq<char>, i: int) -> int
    decreases s.len() - i,
{
    if i < 0 || i >= s.len() || s[i] == '}' {
        i
    } else {
        close_brace_from(s, i + 1)
    }
}

/// The text of a deletion runs from `a` to the first `q >= a` where either
/// `::hint}}` (a hint without `}`) or `}}` follows; the text has no `}`.
/// Gives the text's end and the end of the match.
pub open spec fn cloze_tail(s: Seq<char>, q: int) -> Option<(int, int)>
    decreases s.len() - q,
{
    if q < 0 || q + 1 >= s.len() {
        None
    } else if s[q] == ':' && s[q + 1] == ':' && close_brace_from(s, q + 2) + 1 < s.len()
        && s[close_brace_from(s, q + 2) + 1] == '}' {
        Some((q, close_brace_from(s, q + 2) + 2))
    } else if s[q] == '}' && s[q + 1] == '}' {
        Some((q, q + 2))
    } else if s[q] == '}' {
        None
    } else {
        cloze_tail(s, q + 1)
    }
}

/// A deletion `{{c<digits>::text...}}` starting at `p`: the start and end
/// of its text and the end of the match.
pub open spec fn cloze_at(s: Seq<char>, p: int) -> Option<(int, int, int)> {
    if 0 <= p && p + 3 <= s.len() && s[p] == '{' && s[p + 1] == '{' && s[p + 2] == 'c' {
        let d = digits_end(s, p + 3);
        if d > p + 3 && d + 2 <= s.len() && s[d] == ':' && s[d + 1] == ':' {
            match cloze_tail(s, d + 2) {
                Some((e, m)) => Some((d + 2, e, m)),
                None => None,
            }
        } else {
            None
        }
    } else {
        None
    }
}

/// `s` from `p` on with every deletion replaced by its text in brackets.
pub open spec fn unclozed_from(s: Seq<char>, p: int) -> Seq<char>
    decreases s.len() - p,
{
    if p < 0 || p >= s.len() {
        Seq::empty()
    } else {
        match cloze_at(s, p) {
            Some((a, e, m)) => if m <= p || m > s.len() || a > e {
                Seq::empty()
            } else {
                seq!['['] + s.subrange(a, e) + seq![']'] + unclozed_from(s, m)
            },
            None => seq![s[p]] + unclozed_from(s, p + 1),
        }
    }
}

/// `s` with every deletion replaced by its text in brackets.
pub open spec fn unclozed(s: Seq<char>) -> Seq<char> {
    unclozed_from(s, 0)
}

proof fn lemma_digits_end(s: Seq<char>, i: int)
    requires
        0 <= i <= s.len(),
    ensures
        i <= digits_end(s, i) <= s.len(),
        forall|j: int| i <= j < digits_end(s, i) ==> is_decimal_digit(#[trigger] s[j]),
    decreases s.len() - i,
{
    if i < s.len() && is_decimal_digit(s[i]) {
        lemma_digits_end(s, i + 1);
    }
}

proof fn lemma_close_brace(s: Seq<char>, i: int)
    requires
        0 <= i <= s.len(),
    ensures
        i <= close_brace_from(s, i) <= s.len(),
        close_brace_from(s, i) < s.len() ==> s[close_brace_from(s, i)] == '}',
        forall|j: int| i <= j < close_brace_from(s, i) ==> #[trigger] s[j] != '}',
    decreases s.len() - i,
{
    if i < s.len() && s[i] != '}' {
        lemma_close_brace(s, i + 1);
    }
}

proof fn lemma_cloze_tail(s: Seq<char>, q: int)
    requires
        0 <= q,
    ensures
        match cloze_tail(s, q) {
            Some((e, m)) => q <= e < m <= s.len(),
            None => true,
        },
    decreases s.len() - q,
{
    if q + 1 < s.len() {
        lemma_close_brace(s, q + 2);
        if !(s[q] == ':' && s[q + 1] == ':' && close_brace_from(s, q + 2) + 1 < s.len()
            && s[close_brace_from(s, q + 2) + 1] == '}') && !(s[q] == '}' && s[q + 1] == '}')
            && s[q] != '}' {
            lemma_cloze_tail(s, q + 1);
        }
    }
}

proof fn lemma_cloze_at(s: Seq<char>, p: int)
    requires
        0 <= p,
    ensures
        match cloze_at(s, p) {
            Some((a, e, m)) => p < a <= e < m <= s.len(),
            None => true,
        },
{
    if 0 <= p && p + 3 <= s.len() {
        lemma_digits_end(s, p + 3);
        let d = digits_end(s, p + 3);
        if d + 2 <= s.len() {
            lemma_cloze_tail(s, d + 2);
        }
    }
}

fn digits_end_exec(v: &Vec<char>, i: usize) -> (r: usize)
    requires
        i <= v.len(),
    ensures
        r == digits_end(v@, i as int),
{
    let mut k = i;
    while k < v.len() && decimal_digit(v[k])
        invariant
            i <= k <= v.len(),
            digits_end(v@, i as int) == digits_end(v@, k as int),
        decreases v.len() - k,
    {
        k = k + 1;
    }
    k
}

fn close_brace_exec(v: &Vec<char>, i: usize) -> (r: usize)
    requires
        i <= v.len(),
    ensures
        r == close_brace_from(v@, i as int),
{
    let mut k = i;
    while k < v.len() && v[k] != '}'
        invariant
            i <= k <= v.len(),
            close_brace_from(v@, i as int) == close_brace_from(v@, k as int),
        decreases v.len() - k,
    {
        k = k + 1;
    }
    k
}

fn cloze_tail_exec(v: &Vec<char>, q0: usize) -> (r: Option<(usize, usize)>)
    requires
        q0 <= v.len(),
    ensures
        match r {
            Some((e, m)) => cloze_tail(v@, q0 as int) == Some((e as int, m as int)),
            None => cloze_tail(v@, q0 as int) is None,
        },
{
    let n = v.len();
    let mut q = q0;
    while n - q > 1
        invariant
            q0 <= q <= n == v@.len(),
            cloze_tail(v@, q0 as int) == cloze_tail(v@, q as int),
        decreases n - q,
    {
        if v[q] == ':' && v[q + 1] == ':' {
            let r = close_brace_exec(v, q + 2);
            if r < n && n - r > 1 && v[r + 1] == '}' {
                return Some((q, r + 2));
            }
        }
        if v[q] == '}' && v[q + 1] == '}' {
            return Some((q, q + 2));
        }
        if v[q] == '}' {
            return None;
        }
        q = q + 1;
    }
    None
}

fn cloze_at_exec(v: &Vec<char>, p: usize) -> (r: Option<(usize, usize, usize)>)
    requires
        p <= v.len(),
    ensures
        match r {
            Some((a, e, m)) => cloze_at(v@, p as int) == Some((a as int, e as int, m as int)),
            None => cloze_at(v@, p as int) is None,
        },
{
    let n = v.len();
    if n - p >= 3 && v[p] == '{' && v[p + 1] == '{' && v[p + 2] == 'c' {
        let d = digits_end_exec(v, p + 3);
        proof {
            lemma_digits_end(v@, p + 3);
        }
        if d > p + 3 && n - d >= 2 && v[d] == ':' && v[d + 1] == ':' {
            match cloze_tail_exec(v, d + 2) {
                Some((e, m)) => Some((d + 2, e, m)),
                None => None,
            }
        } else {
            None
        }
    } else {
        None
    }
}

/// `s` with each cloze deletion `{{cN::text}}` or `{{cN::text::hint}}`
/// replaced by `[text]`.
pub fn strip_cloze_markers(s: &str) -> (r: String)
    ensures
        r@ == unclozed(s@),
{
    let v = crate::text::chars_of(s);
    let n = v.len();
    let mut out: Vec<char> = Vec::new();
    let mut p: usize = 0;
    while p < n
        invariant
            p <= n == v@.len(),
            v@ == s@,
            out@ + unclozed_from(v@, p as int) == unclozed(v@),
        decreases n - p,
    {
        proof {
            lemma_cloze_at(v@, p as int);
        }
        match cloze_at_exec(&v, p) {
            Some((a, e, m)) => {
                let ghost before = out@;
                out.push('[');
                crate::text::extend_range(&mut out, &v, a, e);
                out.push(']');
                assert(out@ =~= before + (seq!['['] + v@.subrange(a as int, e as int) + seq![']']));
                assert(unclozed_from(v@, p as int) == seq!['['] + v@.subrange(a as int, e as int)
                    + seq![']'] + unclozed_from(v@, m as int));
                assert(out@ + unclozed_from(v@, m as int) =~= before + unclozed_from(v@, p as int));
                p = m;
            },
            None => {
                let ghost before = out@;
                out.push(v[p]);
                assert(out@ + unclozed_from(v@, p + 1) =~= before + unclozed_from(v@, p as int));
                p = p + 1;
            },
        }
    }
    assert(out@ =~= unclozed(v@));
    crate::text::string_of(&out)
}


// ---------------------------------------------------------------------------
// Card lines
// ---------------------------------------------------------------------------

/// A list item, after leading whitespace: `-`, `*` or `+` alone or followed
/// by a space, or a digit with a `.` within its first four bytes.
pub open spec fn list_item(t: Seq<char>) -> bool {
    if t.len() == 0 {
        false
    } else if t[0] == '-' || t[0] == '*' || t[0] == '+' {
        t.len() == 1 || t[1] == ' '
    } else if '0' <= t[0] && t[0] <= '9' {
        match find_char(t, '.') {
            Some(d) => blen(t.take(d)) <= 3,
            None => false,
        }
    } else {
        false
    }
}

/// `s` (trailing whitespace trimmed) ends with the marker `m`, standing
/// alone or after a space; the text before it.
pub open spec fn strip_marker(s: Seq<char>, m: Seq<char>) -> Option<Seq<char>> {
    let t = trim_end(s);
    let k = t.len() - m.len();
    if ends_with(t, m) && (k == 0 || t[k - 1] == ' ') {
        Some(t.take(k))
    } else {
        None
    }
}

/// The kinds of card.
#[derive(Clone, Copy, Debug, PartialEq, Eq, Structural)]
pub enum CardKind {
    /// `#card`: question and answer
    Basic,
    /// `#card-reverse`: asked both ways
    Reverse,
    /// `#cloze`: deletions in the question
    Cloze,
}

pub open spec fn card_kind_name(k: CardKind) -> Seq<char> {
    match k {
        CardKind::Basic => "basic"@,
        CardKind::Reverse => "reverse"@,
        CardKind::Cloze => "cloze"@,
    }
}

/// The kind of card a list line is marked as, and the text before the mark;
/// `#card-reverse` is looked for first, then `#cloze`, then `#card`.
pub open spec fn card_marker(t: Seq<char>) -> Option<(CardKind, Seq<char>)> {
    match strip_marker(t, "#card-reverse"@) {
        Some(c) => Some((CardKind::Reverse, c)),
        None => match strip_marker(t, "#cloze"@) {
            Some(c) => Some((CardKind::Cloze, c)),
            None => match strip_marker(t, "#card"@) {
                Some(c) => Some((CardKind::Basic, c)),
                None => None,
            },
        },
    }
}

/// The list prefix can be cut off without splitting a character: a bullet
/// is followed by a one-byte character.
pub open spec fn list_prefix_cut_ok(s: Seq<char>) -> bool {
    let t = trim_start(s);
    !(t.len() >= 2 && (t[0] == '-' || t[0] == '*' || t[0] == '+') && utf8_width(t[1]) != 1)
}

/// How many characters the list prefix of `t` takes: a bullet and the
/// character after it (or a bare bullet), or a number whose `.` lies within
/// the first four bytes, with `. `.
pub open spec fn list_prefix_len(t: Seq<char>) -> Option<int> {
    if t.len() == 0 {
        None
    } else if t[0] == '-' || t[0] == '*' || t[0] == '+' {
        if t.len() == 1 {
            Some(1)
        } else {
            Some(2)
        }
    } else {
        match find_char(t, '.') {
            Some(d) => if blen(t.take(d)) <= 3 && d + 1 < t.len() && t[d + 1] == ' ' {
                Some(d + 2)
            } else {
                None
            },
            None => None,
        }
    }
}

/// `s` without its list prefix; `s` itself when it has none.
pub open spec fn strip_list_prefix_of(s: Seq<char>) -> Seq<char> {
    match list_prefix_len(trim_start(s)) {
        Some(k) => trim_start(s).skip(k),
        None => s,
    }
}

/// Index of the first `.` in `v[a..b]` (or `b`), and whether the bytes
/// before it number at most three.
fn dot_within(v: &Vec<char>, a: usize, b: usize) -> (r: (usize, bool))
    requires
        a <= b <= v.len(),
    ensures
        a <= r.0 <= b,
        find_char(v@.subrange(a as int, b as int), '.') == (if r.0 < b {
            Some(r.0 - a)
        } else {
            None::<int>
        }),
        r.0 < b ==> (r.1 == (blen(v@.subrange(a as int, b as int).take(r.0 - a)) <= 3)),
{
    let d = crate::text::find_char_in(v, a, b, '.');
    if d < b {
        let c = blen_capped(v, a, d, 3);
        assert(v@.subrange(a as int, b as int).take(d - a) =~= v@.subrange(a as int, d as int));
        (d, c <= 3)
    } else {
        (d, false)
    }
}

/// Whether `v[a..b]` is a list item.
fn list_item_range(v: &Vec<char>, a: usize, b: usize) -> (r: bool)
    requires
        a <= b <= v.len(),
    ensures
        r == list_item(v@.subrange(a as int, b as int)),
{
    if a == b {
        return false;
    }
    let c = v[a];
    if c == '-' || c == '*' || c == '+' {
        b - a == 1 || v[a + 1] == ' '
    } else if '0' <= c && c <= '9' {
        let (d, ok) = dot_within(v, a, b);
        d < b && ok
    } else {
        false
    }
}

/// Whether `t` is a list item (`t` has no leading whitespace).
pub fn is_list_item(trimmed: &str) -> (r: bool)
    ensures
        r == list_item(trimmed@),
{
    let v = chars_of(trimmed);
    assert(v@.subrange(0, v@.len() as int) =~= v@);
    list_item_range(&v, 0, v.len())
}

/// End of the text before the marker `m` in `v[a..b]`, if `v[a..b]` ends
/// with `m` standing alone or after a space.
fn marker_cut(v: &Vec<char>, a: usize, b: usize, m: &Vec<char>) -> (r: Option<usize>)
    requires
        a <= b <= v.len(),
    ensures
        match r {
            Some(k) => a <= k <= b && strip_marker(v@.subrange(a as int, b as int), m@) == Some(
                v@.subrange(a as int, k as int),
            ),
            None => strip_marker(v@.subrange(a as int, b as int), m@) is None,
        },
{
    let e = back_ws(v, a, b);
    let ghost t = v@.subrange(a as int, e as int);
    assert(trim_end(v@.subrange(a as int, b as int)) == t);
    if e - a < m.len() {
        return None;
    }
    let k = e - m.len();
    let mut i: usize = 0;
    while i < m.len()
        invariant
            i <= m.len(),
            a <= k,
            k + m.len() == e <= v.len(),
            t == v@.subrange(a as int, e as int),
            a <= e <= b <= v.len(),
            trim_end(v@.subrange(a as int, b as int)) == t,
            forall|j: int| 0 <= j < i ==> v@[k + j] == m@[j],
        decreases m.len() - i,
    {
        if v[k + i] != m[i] {
            assert(t.skip(t.len() - m@.len())[i as int] != m@[i as int]);
            assert(!ends_with(t, m@));
            return None;
        }
        i = i + 1;
    }
    assert(t.skip(t.len() - m@.len()) =~= m@);
    if k == a || v[k - 1] == ' ' {
        assert(t.take(k - a) =~= v@.subrange(a as int, k as int));
        Some(k)
    } else {
        None
    }
}

/// `s` without its marker `m` (standing alone or after a space at the end,
/// trailing whitespace aside).
pub fn strip_card_marker(s: &str, marker: &str) -> (r: Option<String>)
    ensures
        opt_view(r) == strip_marker(s@, marker@),
{
    let v = chars_of(s);
    let m = chars_of(marker);
    assert(v@.subrange(0, v@.len() as int) =~= v@);
    match marker_cut(&v, 0, v.len(), &m) {
        Some(k) => Some(string_of_range(&v, 0, k)),
        None => None,
    }
}

/// Where the list prefix of `v[a..b]` ends, if it has one.
fn list_prefix_cut(v: &Vec<char>, a: usize, b: usize) -> (r: Option<usize>)
    requires
        a <= b <= v.len(),
    ensures
        match r {
            Some(c) => a <= c <= b && list_prefix_len(v@.subrange(a as int, b as int)) == Some(
                c - a,
            ),
            None => list_prefix_len(v@.subrange(a as int, b as int)) is None,
        },
{
    if a == b {
        return None;
    }
    let c = v[a];
    if c == '-' || c == '*' || c == '+' {
        if b - a == 1 {
            Some(b)
        } else {
            Some(a + 2)
        }
    } else {
        let (d, ok) = dot_within(v, a, b);
        if d < b && ok && b - d > 1 && v[d + 1] == ' ' {
            Some(d + 2)
        } else {
            None
        }
    }
}

/// `s` without its list prefix (`- `, `* `, `+ ` or `1. `).
pub fn strip_list_prefix(s: &str) -> (r: String)
    requires
        list_prefix_cut_ok(s@),
    ensures
        r@ == strip_list_prefix_of(s@),
{
    let v = chars_of(s);
    let n = v.len();
    let a = skip_ws(&v, 0, n);
    assert(v@.subrange(0, n as int) =~= v@);
    match list_prefix_cut(&v, a, n) {
        Some(c) => {
            assert(trim_start(v@).skip(c - a) =~= v@.subrange(c as int, n as int));
            string_of_range(&v, c, n)
        },
        None => s.to_owned(),
    }
}


// ---------------------------------------------------------------------------
// Cards
// ---------------------------------------------------------------------------

/// A flashcard with its review counters. The scheduler's real-valued memory
/// state (difficulty, stability, interval) is kept beside it by the caller.
#[derive(Clone, Debug)]
pub struct Card {
    pub id: String,
    pub note_path: String,
    pub block_id: Option<String>,
    pub card_type: String,
    pub question: String,
    pub answer: String,
    pub cloze_text: Option<String>,
    pub line_index: i64,
    pub reps: i64,
    pub lapses: i64,
    pub last_review_at: Option<i64>,
    pub next_review_at: i64,
    pub state: String,
    pub created_at: i64,
}

pub struct CardView {
    pub id: Seq<char>,
    pub note_path: Seq<char>,
    pub block_id: Option<Seq<char>>,
    pub card_type: Seq<char>,
    pub question: Seq<char>,
    pub answer: Seq<char>,
    pub cloze_text: Option<Seq<char>>,
    pub line_index: int,
    pub reps: int,
    pub lapses: int,
    pub last_review_at: Option<i64>,
    pub next_review_at: int,
    pub state: Seq<char>,
    pub created_at: int,
}

impl View for Card {
    type V = CardView;

    open spec fn view(&self) -> CardView {
        CardView {
            id: self.id@,
            note_path: self.note_path@,
            block_id: opt_view(self.block_id),
            card_type: self.card_type@,
            question: self.question@,
            answer: self.answer@,
            cloze_text: opt_view(self.cloze_text),
            line_index: self.line_index as int,
            reps: self.reps as int,
            lapses: self.lapses as int,
            last_review_at: self.last_review_at,
            next_review_at: self.next_review_at as int,
            state: self.state@,
            created_at: self.created_at as int,
        }
    }
}

pub open spec fn card_views(cs: Seq<Card>) -> Seq<CardView> {
    cs.map_values(|c: Card| c@)
}

pub open spec fn opt_card_view(c: Option<Card>) -> Option<CardView> {
    match c {
        Some(x) => Some(x@),
        None => None,
    }
}

/// Bytes of leading whitespace of a line.
pub open spec fn indent_bytes(l: Seq<char>) -> int {
    blen(l.take(lead_ws(l) as int)) as int
}

/// The answer lines below a card line: from line `j` on, the trimmed lines
/// indented by more than `base` bytes, blank lines skipped, up to the first
/// line indented by no more.
pub open spec fn answer_from(ls: Seq<Seq<char>>, j: int, base: int) -> Seq<Seq<char>>
    decreases ls.len() - j,
{
    if j < 0 || j >= ls.len() {
        Seq::empty()
    } else if is_blank(ls[j]) {
        answer_from(ls, j + 1, base)
    } else if indent_bytes(ls[j]) <= base {
        Seq::empty()
    } else {
        seq![trim(ls[j])] + answer_from(ls, j + 1, base)
    }
}

/// The parts joined by single spaces.
pub open spec fn join_sp(parts: Seq<Seq<char>>) -> Seq<char>
    decreases parts.len(),
{
    if parts.len() == 0 {
        Seq::empty()
    } else if parts.len() == 1 {
        parts[0]
    } else {
        join_sp(parts.drop_last()) + seq![' '] + parts.last()
    }
}

/// `card_` and the hex of six digest bytes of `type|path|line|question`.
pub open spec fn card_id_of(k: CardKind, path: Seq<char>, i: nat, q: Seq<char>) -> Seq<char> {
    seq!['c', 'a', 'r', 'd', '_'] + hex_lower(
        sha256_digest(
            encode_utf8(
                card_kind_name(k) + seq!['|'] + path + seq!['|'] + dec(i) + seq!['|'] + q,
            ),
        ).take(6),
    )
}

/// The card written on line `i`, if any; new cards are due at `now`.
pub open spec fn card_at(ls: Seq<Seq<char>>, i: int, path: Seq<char>, now: i64) -> Option<
    CardView,
> {
    let line = ls[i];
    let t = trim_start(line);
    if !list_item(t) {
        None
    } else {
        match card_marker(t) {
            None => None,
            Some((k, content)) => if trim(content).len() == 0 {
                None
            } else {
                let q = trim(strip_list_prefix_of(content));
                if q.len() == 0 {
                    None
                } else {
                    let cloze = k == CardKind::Cloze;
                    Some(
                        CardView {
                            id: card_id_of(k, path, i as nat, q),
                            note_path: path,
                            block_id: line_block_in(ls, i),
                            card_type: card_kind_name(k),
                            question: if cloze {
                                unclozed(q)
                            } else {
                                q
                            },
                            answer: if cloze {
                                Seq::empty()
                            } else {
                                trim(join_sp(answer_from(ls, i + 1, indent_bytes(line))))
                            },
                            cloze_text: if cloze {
                                Some(q)
                            } else {
                                None
                            },
                            line_index: i,
                            reps: 0,
                            lapses: 0,
                            last_review_at: None,
                            next_review_at: now as int,
                            state: "new"@,
                            created_at: now as int,
                        },
                    )
                }
            },
        }
    }
}

/// The cards on lines `i` onward, in line order.
pub open spec fn cards_from(ls: Seq<Seq<char>>, i: int, path: Seq<char>, now: i64) -> Seq<
    CardView,
>
    decreases ls.len() - i,
{
    if i < 0 || i >= ls.len() {
        Seq::empty()
    } else {
        match card_at(ls, i, path, now) {
            Some(c) => seq![c] + cards_from(ls, i + 1, path, now),
            None => cards_from(ls, i + 1, path, now),
        }
    }
}

/// The cards of a note body (its lines split at `\n`), new and due at `now`.
pub open spec fn cards_of(body: Seq<char>, path: Seq<char>, now: i64) -> Seq<CardView> {
    cards_from(split_char(body, '\n'), 0, path, now)
}

fn kind_str(k: CardKind) -> (r: &'static str)
    ensures
        r@ == card_kind_name(k),
{
    match k {
        CardKind::Basic => "basic",
        CardKind::Reverse => "reverse",
        CardKind::Cloze => "cloze",
    }
}

/// The form of a card id: `card_` and twelve lower-case hex digits.
pub open spec fn card_id_shaped(id: Seq<char>) -> bool {
    &&& id.len() == 17
    &&& id.take(5) == seq!['c', 'a', 'r', 'd', '_']
    &&& is_lower_hex(id.skip(5))
}

fn card_id(k: CardKind, path: &str, i: usize, q: &String) -> (r: String)
    ensures
        r@ == card_id_of(k, path@, i as nat, q@),
        card_id_shaped(r@),
{
    let mut input: Vec<char> = Vec::new();
    extend_str(&mut input, kind_str(k));
    input.push('|');
    extend_str(&mut input, path);
    input.push('|');
    push_dec(&mut input, i as u64);
    input.push('|');
    extend_str(&mut input, q.as_str());
    let ghost want = card_kind_name(k) + seq!['|'] + path@ + seq!['|'] + dec(i as nat) + seq![
        '|',
    ] + q@;
    assert(input@ =~= want);
    let h = digest_hex(string_of(&input).as_str(), 6);
    let mut out: Vec<char> = Vec::new();
    out.push('c');
    out.push('a');
    out.push('r');
    out.push('d');
    out.push('_');
    extend_str(&mut out, h.as_str());
    assert(out@ =~= seq!['c', 'a', 'r', 'd', '_'] + h@);
    assert(out@.take(5) =~= seq!['c', 'a', 'r', 'd', '_']);
    assert(out@.skip(5) =~= h@);
    string_of(&out)
}

/// Byte offsets of a body's characters and the ranges of its lines.
pub open spec fn lines_ok(v: Seq<char>, offs: Seq<usize>, rs: Seq<(usize, usize)>) -> bool {
    &&& ranges_cut(v, '\n', rs)
    &&& offs.len() == v.len() + 1
    &&& forall|k: int| 0 <= k <= v.len() ==> #[trigger] offs[k] == blen(v.take(k))
}

proof fn lemma_indent(v: Seq<char>, offs: Seq<usize>, lo: int, a: int, hi: int)
    requires
        forall|k: int| 0 <= k <= v.len() ==> #[trigger] offs[k] == blen(v.take(k)),
        offs.len() == v.len() + 1,
        0 <= lo <= a <= hi <= v.len(),
        a == lo + lead_ws(v.subrange(lo, hi)),
    ensures
        offs[a] - offs[lo] == indent_bytes(v.subrange(lo, hi)),
{
    assert(v.take(a) =~= v.take(lo) + v.subrange(lo, a));
    lemma_blen_append(v.take(lo), v.subrange(lo, a));
    assert(v.subrange(lo, hi).take(a - lo) =~= v.subrange(lo, a));
    assert(offs[a] == blen(v.take(a)));
    assert(offs[lo] == blen(v.take(lo)));
}

/// The answer text below line `i`, whose indent is `base` bytes.
fn answer_text(v: &Vec<char>, offs: &Vec<usize>, rs: &Vec<(usize, usize)>, i: usize, base: usize) -> (r: String)
    requires
        lines_ok(v@, offs@, rs@),
        i < rs@.len(),
    ensures
        r@ == trim(join_sp(answer_from(split_char(v@, '\n'), i + 1, base as int))),
{
    let ghost ls = split_char(v@, '\n');
    let ghost all = answer_from(ls, i + 1, base as int);
    let mut parts: Vec<char> = Vec::new();
    let ghost mut acc: Seq<Seq<char>> = Seq::empty();
    let mut any = false;
    assert(i < rs.len());
    let mut j = i + 1;
    while j < rs.len()
        invariant
            i < j <= rs@.len(),
            lines_ok(v@, offs@, rs@),
            ls == split_char(v@, '\n'),
            all == answer_from(ls, i + 1, base as int),
            parts@ == join_sp(acc),
            any == (acc.len() > 0),
            all == acc + answer_from(ls, j as int, base as int),
        decreases rs.len() - j,
    {
        let (lo, hi) = rs[j];
        assert(rs@[j as int].0 <= rs@[j as int].1 <= v@.len());
        assert(ls[j as int] == v@.subrange(lo as int, hi as int));
        if is_blank_range(v, lo, hi) {
            j = j + 1;
        } else {
            let a = skip_ws(v, lo, hi);
            proof {
                lemma_indent(v@, offs@, lo as int, a as int, hi as int);
            }
            if offs[a] - offs[lo] <= base {
                assert(answer_from(ls, j as int, base as int) =~= Seq::<Seq<char>>::empty());
                assert(all =~= acc);
                let (u, w) = trim_range(&parts, 0, parts.len());
                assert(parts@.subrange(0, parts@.len() as int) =~= parts@);
                return string_of_range(&parts, u, w);
            }
            let (t1, t2) = trim_range(v, lo, hi);
            let ghost before = parts@;
            if any {
                parts.push(' ');
            }
            extend_range(&mut parts, v, t1, t2);
            proof {
                let x = v@.subrange(t1 as int, t2 as int);
                assert(acc.push(x).drop_last() =~= acc);
                if acc.len() > 0 {
                    assert(parts@ =~= before + seq![' '] + x);
                } else {
                    assert(parts@ =~= x);
                    assert(acc.push(x) =~= seq![x]);
                }
                assert(parts@ == join_sp(acc.push(x)));
                assert(all =~= acc.push(x) + answer_from(ls, j + 1, base as int));
                acc = acc.push(x);
            }
            any = true;
            j = j + 1;
        }
    }
    assert(answer_from(ls, j as int, base as int) =~= Seq::<Seq<char>>::empty());
    assert(all =~= acc);
    let (u, w) = trim_range(&parts, 0, parts.len());
    assert(parts@.subrange(0, parts@.len() as int) =~= parts@);
    string_of_range(&parts, u, w)
}

/// Card kind and question of the line `v[lo..hi]`, if it is a card line.
fn card_parts(v: &Vec<char>, lo: usize, hi: usize, marks: &(Vec<char>, Vec<char>, Vec<char>)) -> (r: Option<(CardKind, usize, usize)>)
    requires
        lo <= hi <= v@.len(),
        marks.0@ == "#card-reverse"@,
        marks.1@ == "#cloze"@,
        marks.2@ == "#card"@,
    ensures
        match r {
            Some((k, q1, q2)) => lo <= q1 <= q2 <= hi && {
                let t = trim_start(v@.subrange(lo as int, hi as int));
                &&& list_item(t)
                &&& card_marker(t) matches Some((kk, content)) && kk == k && trim(content).len() > 0
                    && trim(strip_list_prefix_of(content)) == v@.subrange(q1 as int, q2 as int)
                    && q1 < q2
            },
            None => {
                let t = trim_start(v@.subrange(lo as int, hi as int));
                !list_item(t) || card_marker(t) is None || (card_marker(t) matches Some((kk, content)) && (trim(content).len() == 0
                    || trim(strip_list_prefix_of(content)).len() == 0))
            },
        },
{
    let a = skip_ws(v, lo, hi);
    if !list_item_range(v, a, hi) {
        return None;
    }
    let (k, kind) = match marker_cut(v, a, hi, &marks.0) {
        Some(k) => (k, CardKind::Reverse),
        None => match marker_cut(v, a, hi, &marks.1) {
            Some(k) => (k, CardKind::Cloze),
            None => match marker_cut(v, a, hi, &marks.2) {
                Some(k) => (k, CardKind::Basic),
                None => {
                    return None;
                },
            },
        },
    };
    let ghost content = v@.subrange(a as int, k as int);
    assert(card_marker(trim_start(v@.subrange(lo as int, hi as int))) == Some((kind, content)));
    let (c1, c2) = trim_range(v, a, k);
    if c1 == c2 {
        return None;
    }
    proof {
        crate::text::lemma_lead_ws(v@.subrange(a as int, hi as int));
        assert(v@.subrange(a as int, hi as int)[0] == v@[a as int]);
        assert(v@.subrange(a as int, k as int)[0] == v@[a as int]);
        assert(trim_start(content) =~= content) by {
            crate::text::lemma_lead_ws(content);
            assert(content.skip(0) =~= content);
        }
    }
    let qs = match list_prefix_cut(v, a, k) {
        Some(c) => {
            assert(strip_list_prefix_of(content) =~= v@.subrange(c as int, k as int));
            c
        },
        None => a,
    };
    let (q1, q2) = trim_range(v, qs, k);
    if q1 == q2 {
        return None;
    }
    Some((kind, q1, q2))
}

/// The card on line `i` of the body, if any.
fn card_on_line(
    v: &Vec<char>,
    offs: &Vec<usize>,
    rs: &Vec<(usize, usize)>,
    i: usize,
    block_id: Option<String>,
    note_path: &str,
    now: i64,
    marks: &(Vec<char>, Vec<char>, Vec<char>),
) -> (r: Option<Card>)
    requires
        lines_ok(v@, offs@, rs@),
        i < rs@.len(),
        rs@.len() <= i64::MAX,
        opt_view(block_id) == line_block_in(split_char(v@, '\n'), i as int),
        marks.0@ == "#card-reverse"@,
        marks.1@ == "#cloze"@,
        marks.2@ == "#card"@,
    ensures
        opt_card_view(r) == card_at(split_char(v@, '\n'), i as int, note_path@, now),
        r matches Some(c) ==> card_id_shaped(c.id@),
{
    let ghost ls = split_char(v@, '\n');
    let (lo, hi) = rs[i];
    assert(rs@[i as int].0 <= rs@[i as int].1 <= v@.len());
    assert(ls[i as int] == v@.subrange(lo as int, hi as int));
    let a = skip_ws(v, lo, hi);
    let (kind, q1, q2) = match card_parts(v, lo, hi, marks) {
        Some(p) => p,
        None => {
            return None;
        },
    };
    let q = string_of_range(v, q1, q2);
    let id = card_id(kind, note_path, i, &q);
    let is_cloze = match kind {
        CardKind::Cloze => true,
        _ => false,
    };
    let (question, answer, cloze_text) = if is_cloze {
        (strip_cloze_markers(q.as_str()), String::new(), Some(q))
    } else {
        proof {
            lemma_indent(v@, offs@, lo as int, a as int, hi as int);
        }
        let base = offs[a] - offs[lo];
        (q.clone(), answer_text(v, offs, rs, i, base), None)
    };
    Some(
        Card {
            id,
            note_path: note_path.to_owned(),
            block_id,
            card_type: kind_str(kind).to_owned(),
            question,
            answer,
            cloze_text,
            line_index: i as i64,
            reps: 0,
            lapses: 0,
            last_review_at: None,
            next_review_at: now,
            state: "new".to_owned(),
            created_at: now,
        },
    )
}

/// The cards of a note body, new and due at `now`, in line order.
#[verifier::rlimit(40)]
pub fn extract_cards_at(body: &str, note_path: &str, now: i64) -> (r: Vec<Card>)
    requires
        body@.len() < i64::MAX,
    ensures
        card_views(r@) == cards_of(body@, note_path@, now),
        forall|k: int| 0 <= k < r@.len() ==> card_id_shaped(#[trigger] r@[k].id@),
{
    let (v, offs) = byte_offsets(body);
    let rs = split_ranges(&v, '\n');
    let ghost ls = split_char(v@, '\n');
    proof {
        crate::text::lemma_split_char_len(v@, '\n');
        lemma_split_len_bound(v@);
    }
    let marks = (chars_of("#card-reverse"), chars_of("#cloze"), chars_of("#card"));
    let (blocks, line_blocks) = blocks_and_lines(body, note_path);
    let mut out: Vec<Card> = Vec::new();
    let mut i: usize = 0;
    while i < rs.len()
        invariant
            i <= rs@.len(),
            v@ == body@,
            ls == split_char(v@, '\n'),
            lines_ok(v@, offs@, rs@),
            rs@.len() <= i64::MAX,
            rs@.len() == ls.len(),
            blocks@.len() == blocks_of(body@, note_path@).len(),
            forall|j: int| 0 <= j < blocks@.len() ==> (#[trigger] blocks@[j])@ == blocks_of(body@, note_path@)[j],
            line_blocks@.len() == ls.len(),
            forall|t: int| 0 <= t < line_blocks@.len() ==> opt_int(#[trigger] line_blocks@[t]) == line_block_from(ls, 0, t),
            forall|t: int| 0 <= t < line_blocks@.len() && (#[trigger] line_blocks@[t]) is Some ==> line_blocks@[t].unwrap() < blocks@.len(),
            marks.0@ == "#card-reverse"@,
            marks.1@ == "#cloze"@,
            marks.2@ == "#card"@,
            card_views(out@) + cards_from(ls, i as int, note_path@, now) == cards_of(
                body@,
                note_path@,
                now,
            ),
            forall|k: int| 0 <= k < out@.len() ==> card_id_shaped(#[trigger] out@[k].id@),
        decreases rs.len() - i,
    {
        let block_id = match line_blocks[i] {
            Some(j) => {
                assert(opt_int(line_blocks@[i as int]) == line_block_from(ls, 0, i as int));
                Some(blocks[j].id.clone())
            },
            None => None,
        };
        let c = card_on_line(&v, &offs, &rs, i, block_id, note_path, now, &marks);
        let ghost before = card_views(out@);
        match c {
            Some(card) => {
                let ghost old_out = out@;
                out.push(card);
                assert(card_views(out@) =~= before.push(card@));
                assert forall|k: int| 0 <= k < out@.len() implies card_id_shaped(#[trigger] out@[k].id@) by {
                    if k < old_out.len() {
                        assert(out@[k] == old_out[k]);
                    }
                }
            },
            None => {},
        }
        assert(card_views(out@) + cards_from(ls, i + 1, note_path@, now) =~= before + cards_from(
            ls,
            i as int,
            note_path@,
            now,
        ));
        i = i + 1;
    }
    assert(card_views(out@) =~= cards_of(body@, note_path@, now));
    out
}

proof fn lemma_split_len_bound(s: Seq<char>)
    ensures
        split_char(s, '\n').len() <= s.len() + 1,
    decreases s.len(),
{
    if s.len() > 0 {
        lemma_split_len_bound(s.drop_last());
        crate::text::lemma_split_char_len(s.drop_last(), '\n');
    }
}


/// The cards of a note body, new and due now.
pub fn extract_cards(body: &str, note_path: &str) -> (r: Vec<Card>)
    requires
        body@.len() < i64::MAX,
    ensures
        exists|now: i64| card_views(r@) == #[trigger] cards_of(body@, note_path@, now),
        forall|k: int| 0 <= k < r@.len() ==> card_id_shaped(#[trigger] r@[k].id@),
{
    let now = crate::clock::now_seconds();
    extract_cards_at(body, note_path, now)
}

// ---------------------------------------------------------------------------
// Keeping review state across edits
// ---------------------------------------------------------------------------

/// The last of `cards` with id `id`.
pub open spec fn last_with_id(cards: Seq<CardView>, id: Seq<char>) -> Option<int>
    decreases cards.len(),
{
    if cards.len() == 0 {
        None
    } else if cards.last().id == id {
        Some(cards.len() - 1)
    } else {
        last_with_id(cards.drop_last(), id)
    }
}

/// A freshly read card, with the review state of the card it replaces, or
/// created at `now` when it is new.
pub open spec fn merged_card(c: CardView, prev: Option<CardView>, now: i64) -> CardView {
    match prev {
        Some(p) => CardView {
            id: c.id,
            note_path: c.note_path,
            block_id: c.block_id,
            card_type: c.card_type,
            question: c.question,
            answer: c.answer,
            cloze_text: c.cloze_text,
            line_index: c.line_index,
            reps: p.reps,
            lapses: p.lapses,
            last_review_at: p.last_review_at,
            next_review_at: p.next_review_at,
            state: p.state,
            created_at: p.created_at,
        },
        None => CardView {
            id: c.id,
            note_path: c.note_path,
            block_id: c.block_id,
            card_type: c.card_type,
            question: c.question,
            answer: c.answer,
            cloze_text: c.cloze_text,
            line_index: c.line_index,
            reps: c.reps,
            lapses: c.lapses,
            last_review_at: c.last_review_at,
            next_review_at: c.next_review_at,
            state: c.state,
            created_at: now as int,
        },
    }
}

proof fn lemma_last_with_id(cards: Seq<CardView>, id: Seq<char>)
    ensures
        match last_with_id(cards, id) {
            Some(k) => 0 <= k < cards.len() && cards[k].id == id && forall|j: int|
                k < j < cards.len() ==> #[trigger] cards[j].id != id,
            None => forall|j: int| 0 <= j < cards.len() ==> #[trigger] cards[j].id != id,
        },
    decreases cards.len(),
{
    if cards.len() > 0 && cards.last().id != id {
        lemma_last_with_id(cards.drop_last(), id);
        assert forall|j: int| 0 <= j < cards.len() - 1 implies cards.drop_last()[j] == cards[j] by {}
    }
}

/// Index of the last card in `cards` with the id `id`.
pub fn previous_card(cards: &Vec<Card>, id: &String) -> (r: Option<usize>)
    ensures
        match r {
            Some(k) => k < cards@.len() && last_with_id(card_views(cards@), id@) == Some(k as int),
            None => last_with_id(card_views(cards@), id@) is None,
        },
{
    let ghost cv = card_views(cards@);
    let mut k = cards.len();
    assert(cv.take(k as int) =~= cv);
    while k > 0
        invariant
            k <= cards.len(),
            cv == card_views(cards@),
            last_with_id(cv, id@) == last_with_id(cv.take(k as int), id@),
        decreases k,
    {
        assert(cv.take(k as int).last() == cards@[k - 1]@);
        if cards[k - 1].id == *id {
            return Some(k - 1);
        }
        assert(cv.take(k as int).drop_last() =~= cv.take(k - 1));
        k = k - 1;
    }
    None
}

/// The cards read from a note, each keeping the review state of the stored
/// card with its id; cards not stored before are created at `now`.
pub fn merge_cards(new_cards: Vec<Card>, existing: &Vec<Card>, now: i64) -> (r: Vec<Card>)
    ensures
        r@.len() == new_cards@.len(),
        forall|k: int| 0 <= k < r@.len() ==> #[trigger] r@[k]@ == merge_result(card_views(new_cards@), card_views(existing@), now, k),
        forall|k: int|
            0 <= k < r@.len() ==> #[trigger] r@[k]@ == merged_card(
                new_cards@[k]@,
                match last_with_id(card_views(existing@), new_cards@[k].id@) {
                    Some(j) => Some(existing@[j]@),
                    None => None,
                },
                now,
            ),
{
    let mut out: Vec<Card> = Vec::new();
    let mut i: usize = 0;
    while i < new_cards.len()
        invariant
            i <= new_cards.len(),
            out@.len() == i,
            forall|k: int|
                0 <= k < i ==> #[trigger] out@[k]@ == merged_card(
                    new_cards@[k]@,
                    match last_with_id(card_views(existing@), new_cards@[k].id@) {
                        Some(j) => Some(existing@[j]@),
                        None => None,
                    },
                    now,
                ),
        decreases new_cards.len() - i,
    {
        let c = &new_cards[i];
        let m = match previous_card(existing, &c.id) {
            Some(j) => {
                let p = &existing[j];
                assert(card_views(existing@)[j as int] == p@);
                Card {
                    id: c.id.clone(),
                    note_path: c.note_path.clone(),
                    block_id: crate::links::clone_opt(&c.block_id),
                    card_type: c.card_type.clone(),
                    question: c.question.clone(),
                    answer: c.answer.clone(),
                    cloze_text: crate::links::clone_opt(&c.cloze_text),
                    line_index: c.line_index,
                    reps: p.reps,
                    lapses: p.lapses,
                    last_review_at: p.last_review_at,
                    next_review_at: p.next_review_at,
                    state: p.state.clone(),
                    created_at: p.created_at,
                }
            },
            None => Card {
                id: c.id.clone(),
                note_path: c.note_path.clone(),
                block_id: crate::links::clone_opt(&c.block_id),
                card_type: c.card_type.clone(),
                question: c.question.clone(),
                answer: c.answer.clone(),
                cloze_text: crate::links::clone_opt(&c.cloze_text),
                line_index: c.line_index,
                reps: c.reps,
                lapses: c.lapses,
                last_review_at: c.last_review_at,
                next_review_at: c.next_review_at,
                state: c.state.clone(),
                created_at: now,
            },
        };
        out.push(m);
        i = i + 1;
    }
    proof {
        assert forall|k: int| 0 <= k < out@.len() implies #[trigger] out@[k]@ == merge_result(
            card_views(new_cards@),
            card_views(existing@),
            now,
            k,
        ) by {
            assert(card_views(new_cards@)[k] == new_cards@[k]@);
            match last_with_id(card_views(existing@), new_cards@[k].id@) {
                Some(j) => {
                    lemma_last_with_id(card_views(existing@), new_cards@[k].id@);
                    assert(card_views(existing@)[j] == existing@[j]@);
                },
                None => {},
            }
        }
    }
    out
}


// ---------------------------------------------------------------------------
// Reviews
// ---------------------------------------------------------------------------

/// A card with the counters, due time and state of a review.
pub fn apply_schedule(card: Card, c: crate::fsrs::ScheduleCounters) -> (r: Card)
    ensures
        r.id@ == card.id@ && r.note_path@ == card.note_path@ && r.question@ == card.question@,
        r.answer@ == card.answer@ && r.card_type@ == card.card_type@,
        opt_view(r.block_id) == opt_view(card.block_id) && opt_view(r.cloze_text) == opt_view(
            card.cloze_text,
        ),
        r.line_index == card.line_index && r.created_at == card.created_at,
        r.reps == c.reps && r.lapses == c.lapses && r.last_review_at == c.last_review_at,
        r.next_review_at == c.next_review_at,
        r.state@ == crate::fsrs::state_name(c.state),
{
    let mut r = card;
    r.reps = c.reps;
    r.lapses = c.lapses;
    r.last_review_at = c.last_review_at;
    r.next_review_at = c.next_review_at;
    r.state = c.state.as_str().to_owned();
    r
}

/// The error of a review of a card that does not exist.
pub fn card_not_found(id: &str) -> (r: crate::vault::VaultError)
    ensures
        r matches crate::vault::VaultError::Other(m) && m@ == "Card not found: "@ + id@,
{
    crate::vault::VaultError::Other(crate::text::concat("Card not found: ", id))
}


// ---------------------------------------------------------------------------
// Laws
// ---------------------------------------------------------------------------

/// The same card at another time: everything but its due and creation times.
pub open spec fn same_card_but_time(a: CardView, b: CardView) -> bool {
    &&& a.id == b.id
    &&& a.note_path == b.note_path
    &&& a.block_id == b.block_id
    &&& a.card_type == b.card_type
    &&& a.question == b.question
    &&& a.answer == b.answer
    &&& a.cloze_text == b.cloze_text
    &&& a.line_index == b.line_index
    &&& a.reps == b.reps && a.lapses == b.lapses && a.last_review_at == b.last_review_at
    &&& a.state == b.state
}

/// Card ids are stable: reading a note at two times gives the same cards,
/// with the same ids, differing only in when they are due and created.
pub proof fn law_card_ids_ignore_time(body: Seq<char>, path: Seq<char>, t1: i64, t2: i64)
    ensures
        cards_of(body, path, t1).len() == cards_of(body, path, t2).len(),
        forall|k: int|
            0 <= k < cards_of(body, path, t1).len() ==> same_card_but_time(
                #[trigger] cards_of(body, path, t1)[k],
                cards_of(body, path, t2)[k],
            ),
{
    lemma_cards_from_time(split_char(body, '\n'), 0, path, t1, t2);
}

proof fn lemma_cards_from_time(ls: Seq<Seq<char>>, i: int, path: Seq<char>, t1: i64, t2: i64)
    ensures
        cards_from(ls, i, path, t1).len() == cards_from(ls, i, path, t2).len(),
        forall|k: int|
            0 <= k < cards_from(ls, i, path, t1).len() ==> same_card_but_time(
                #[trigger] cards_from(ls, i, path, t1)[k],
                cards_from(ls, i, path, t2)[k],
            ),
    decreases ls.len() - i,
{
    if 0 <= i < ls.len() {
        lemma_cards_from_time(ls, i + 1, path, t1, t2);
        let a = cards_from(ls, i, path, t1);
        let b = cards_from(ls, i, path, t2);
        match card_at(ls, i, path, t1) {
            Some(c) => {
                assert(card_at(ls, i, path, t2) is Some);
                assert forall|k: int| 0 <= k < a.len() implies same_card_but_time(
                    #[trigger] a[k],
                    b[k],
                ) by {
                    if k > 0 {
                        assert(a[k] == cards_from(ls, i + 1, path, t1)[k - 1]);
                        assert(b[k] == cards_from(ls, i + 1, path, t2)[k - 1]);
                    }
                }
            },
            None => {
                assert(card_at(ls, i, path, t2) is None);
            },
        }
    }
}

/// A card points at the block it is written in: every card has a block id,
/// the id of the block of `extract_blocks` that holds the card's line.
pub proof fn law_card_block_is_its_source_block(body: Seq<char>, path: Seq<char>, now: i64)
    ensures
        forall|k: int|
            0 <= k < cards_of(body, path, now).len() ==> {
                let c = #[trigger] cards_of(body, path, now)[k];
                c.block_id matches Some(b) && exists|j: int|
                    0 <= j < blocks_of(body, path).len() && blocks_of(body, path)[j].id == b
                        && line_block_from(split_char(body, '\n'), 0, c.line_index) == Some(j)
            },
{
    let ls = split_char(body, '\n');
    lemma_cards_block_ids(ls, 0, path, now);
    assert forall|k: int| 0 <= k < cards_of(body, path, now).len() implies {
        let c = #[trigger] cards_of(body, path, now)[k];
        c.block_id matches Some(b) && exists|j: int|
            0 <= j < blocks_of(body, path).len() && blocks_of(body, path)[j].id == b
                && line_block_from(ls, 0, c.line_index) == Some(j)
    } by {
        let c = cards_of(body, path, now)[k];
        crate::blocks::lemma_line_in_block(ls, 0, c.line_index);
        let j = line_block_from(ls, 0, c.line_index).unwrap();
        assert(blocks_of(body, path)[j].id == c.block_id.unwrap());
    }
}

proof fn lemma_cards_block_ids(ls: Seq<Seq<char>>, i: int, path: Seq<char>, now: i64)
    ensures
        forall|k: int|
            0 <= k < cards_from(ls, i, path, now).len() ==> {
                let c = #[trigger] cards_from(ls, i, path, now)[k];
                &&& c.block_id == line_block_in(ls, c.line_index)
                &&& 0 <= c.line_index < ls.len()
                &&& !is_blank(ls[c.line_index])
            },
    decreases ls.len() - i,
{
    if 0 <= i < ls.len() {
        lemma_cards_block_ids(ls, i + 1, path, now);
        let a = cards_from(ls, i, path, now);
        if let Some(c) = card_at(ls, i, path, now) {
            crate::text::lemma_blank_iff_trim_empty(ls[i]);
            assert forall|k: int| 0 <= k < a.len() implies {
                let c = #[trigger] a[k];
                &&& c.block_id == line_block_in(ls, c.line_index)
                &&& 0 <= c.line_index < ls.len()
                &&& !is_blank(ls[c.line_index])
            } by {
                if k > 0 {
                    assert(a[k] == cards_from(ls, i + 1, path, now)[k - 1]);
                }
            }
        }
    }
}

/// What `merge_cards` makes of the freshly read card `new[k]`.
pub open spec fn merge_result(new: Seq<CardView>, existing: Seq<CardView>, now: i64, k: int) -> CardView {
    merged_card(
        new[k],
        match last_with_id(existing, new[k].id) {
            Some(j) => Some(existing[j]),
            None => None,
        },
        now,
    )
}

/// Saving a note again keeps each card's review state: a card read from the
/// note takes its text from the note and, when a card with its id was stored
/// (the last such one), that card's repetitions, lapses, last review, due
/// time, state and creation time; a card never stored keeps its fresh
/// schedule and is created at `now`.
pub proof fn law_merge_keeps_review_state(new: Seq<CardView>, existing: Seq<CardView>, now: i64)
    ensures
        forall|k: int| 0 <= k < new.len() ==> {
            let c = new[k];
            let m = #[trigger] merge_result(new, existing, now, k);
            &&& m.id == c.id && m.note_path == c.note_path && m.block_id == c.block_id
            &&& m.card_type == c.card_type && m.question == c.question && m.answer == c.answer
            &&& m.cloze_text == c.cloze_text && m.line_index == c.line_index
            &&& forall|j: int|
                0 <= j < existing.len() && existing[j].id == c.id && (forall|j2: int|
                    j < j2 < existing.len() ==> existing[j2].id != c.id) ==> {
                    let p = #[trigger] existing[j];
                    &&& m.reps == p.reps && m.lapses == p.lapses
                    &&& m.last_review_at == p.last_review_at
                    &&& m.next_review_at == p.next_review_at
                    &&& m.state == p.state && m.created_at == p.created_at
                }
            &&& (forall|j: int| 0 <= j < existing.len() ==> existing[j].id != c.id) ==> {
                &&& m.reps == c.reps && m.lapses == c.lapses
                &&& m.last_review_at == c.last_review_at
                &&& m.next_review_at == c.next_review_at
                &&& m.state == c.state && m.created_at == now
            }
        },
{
    assert forall|k: int| 0 <= k < new.len() implies {
        let c = new[k];
        let m = #[trigger] merge_result(new, existing, now, k);
        &&& m.id == c.id && m.note_path == c.note_path && m.block_id == c.block_id
        &&& m.card_type == c.card_type && m.question == c.question && m.answer == c.answer
        &&& m.cloze_text == c.cloze_text && m.line_index == c.line_index
        &&& forall|j: int|
            0 <= j < existing.len() && existing[j].id == c.id && (forall|j2: int|
                j < j2 < existing.len() ==> existing[j2].id != c.id) ==> {
                let p = #[trigger] existing[j];
                &&& m.reps == p.reps && m.lapses == p.lapses
                &&& m.last_review_at == p.last_review_at
                &&& m.next_review_at == p.next_review_at
                &&& m.state == p.state && m.created_at == p.created_at
            }
        &&& (forall|j: int| 0 <= j < existing.len() ==> existing[j].id != c.id) ==> {
            &&& m.reps == c.reps && m.lapses == c.lapses
            &&& m.last_review_at == c.last_review_at
            &&& m.next_review_at == c.next_review_at
            &&& m.state == c.state && m.created_at == now
        }
    } by {
        lemma_last_with_id(existing, new[k].id);
    }
}

/// The lines of `ls` that are not blank, each trimmed, in order.
pub open spec fn kept_lines(ls: Seq<Seq<char>>) -> Seq<Seq<char>>
    decreases ls.len(),
{
    if ls.len() == 0 {
        Seq::empty()
    } else if is_blank(ls[0]) {
        kept_lines(ls.drop_first())
    } else {
        seq![trim(ls[0])] + kept_lines(ls.drop_first())
    }
}

proof fn lemma_answer_end(ls: Seq<Seq<char>>, j: int, base: int) -> (e: int)
    requires
        0 <= j <= ls.len(),
    ensures
        j <= e <= ls.len(),
        forall|k: int| j <= k < e ==> is_blank(ls[k]) || indent_bytes(ls[k]) > base,
        e == ls.len() || (!is_blank(ls[e]) && indent_bytes(ls[e]) <= base),
        answer_from(ls, j, base) == kept_lines(ls.subrange(j, e)),
    decreases ls.len() - j,
{
    if j == ls.len() {
        assert(ls.subrange(j, j) =~= Seq::<Seq<char>>::empty());
        j
    } else if !is_blank(ls[j]) && indent_bytes(ls[j]) <= base {
        assert(ls.subrange(j, j) =~= Seq::<Seq<char>>::empty());
        j
    } else {
        let e = lemma_answer_end(ls, j + 1, base);
        assert(ls.subrange(j, e).drop_first() =~= ls.subrange(j + 1, e));
        assert(ls.subrange(j, e)[0] == ls[j]);
        e
    }
}

/// A card's answer is made of the lines below it that are indented deeper
/// than the card's own line: it runs up to the first non-blank line indented
/// no deeper (or the end of the note), and joins the non-blank lines before
/// that, trimmed, with single spaces. A cloze card has no answer.
pub proof fn law_answer_is_the_deeper_lines_below(ls: Seq<Seq<char>>, i: int, path: Seq<char>, now: i64)
    requires
        0 <= i < ls.len(),
    ensures
        card_at(ls, i, path, now) matches Some(c) ==> (c.cloze_text is Some && c.answer.len() == 0)
            || exists|e: int|
            #![trigger ls.subrange(i + 1, e)]
            i < e <= ls.len() && (forall|j: int|
                i < j < e ==> is_blank(ls[j]) || indent_bytes(ls[j]) > indent_bytes(ls[i])) && (e
                == ls.len() || (!is_blank(ls[e]) && indent_bytes(ls[e]) <= indent_bytes(ls[i])))
                && c.answer == trim(join_sp(kept_lines(ls.subrange(i + 1, e)))),
{
    let e = lemma_answer_end(ls, i + 1, indent_bytes(ls[i]));
    assert(ls.subrange(i + 1, e) == ls.subrange(i + 1, e));
}

} // verus!
