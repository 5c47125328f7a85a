//! The inline syntax of notes: `[[wiki links]]`, `![[transclusions]]`,
//! `((block refs))` and `#tags`, and the positions where they match.
//!
//! Matches are found left to right; a match is never overlapped by the next
//! one, which is looked for from the end of the previous match.

use vstd::prelude::*;
use crate::text::is_ws;

verus! {

pub open spec fn is_ascii_alnum(c: char) -> bool {
    ('a' <= c && c <= 'z') || ('A' <= c && c <= 'Z') || ('0' <= c && c <= '9')
}

/// Characters of a block reference name: `[A-Za-z0-9_-]`.
pub open spec fn is_ref_char(c: char) -> bool {
    is_ascii_alnum(c) || c == '_' || c == '-'
}

/// Characters of a tag: `[A-Za-z0-9_/-]` and the CJK block U+4E00..U+9FFF.
pub open spec fn is_tag_char(c: char) -> bool {
    is_ascii_alnum(c) || c == '_' || c == '-' || c == '/' || (0x4e00 <= (c as u32) && (c as u32)
        <= 0x9fff)
}

/// Characters that end the target of a wiki link: `[`, `]` and `|`.
pub open spec fn is_wiki_stop(c: char) -> bool {
    c == '[' || c == ']' || c == '|'
}

/// What a scan looks for.
pub enum Pattern {
    /// `![[target]]` or `![[target|alias]]`
    Transclusion,
    /// `[[target]]` or `[[target|alias]]`
    Wiki,
    /// `((name)`
    BlockRef,
    /// `#tag` at the start of the text or after whitespace
    Tag,
}

/// First index from `i` on whose character fails the class of `which`
/// (0: wiki stop characters are sought, 1: `]` is sought, 2: reference
/// characters are skipped, 3: tag characters are skipped).
pub open spec fn run_to(s: Seq<char>, i: int, which: int) -> int
    decreases s.len() - i,
{
    if i < 0 || i >= s.len() {
        if i < 0 {
            0
        } else {
            s.len() as int
        }
    } else if (which == 0 && is_wiki_stop(s[i])) || (which == 1 && s[i] == ']') || (which == 2
        && !is_ref_char(s[i])) || (which == 3 && !is_tag_char(s[i])) {
        i
    } else {
        run_to(s, i + 1, which)
    }
}

/// A match: start and end of the captured name, and the end of the match.
pub type Hit = (int, int, int);

/// `[[name]]` or `[[name|alias]]` starting at `p`. The name is the run up to
/// the first `[`, `]` or `|` and is not empty; an alias is not empty and has no `]`.
pub open spec fn wiki_at(s: Seq<char>, p: int) -> Option<Hit> {
    if 0 <= p && p + 1 < s.len() && s[p] == '[' && s[p + 1] == '[' {
        let q = run_to(s, p + 2, 0);
        if q > p + 2 && q < s.len() {
            if s[q] == ']' {
                if q + 1 < s.len() && s[q + 1] == ']' {
                    Some((p + 2, q, q + 2))
                } else {
                    None
                }
            } else if s[q] == '|' {
                let r = run_to(s, q + 1, 1);
                if r > q + 1 && r + 1 < s.len() && s[r + 1] == ']' {
                    Some((p + 2, q, r + 2))
                } else {
                    None
                }
            } else {
                None
            }
        } else {
            None
        }
    } else {
        None
    }
}

/// `((name)` starting at `p`, with a non-empty name of reference characters.
pub open spec fn ref_at(s: Seq<char>, p: int) -> Option<Hit> {
    if 0 <= p && p + 1 < s.len() && s[p] == '(' && s[p + 1] == '(' {
        let q = run_to(s, p + 2, 2);
        if q > p + 2 && q < s.len() && s[q] == ')' {
            Some((p + 2, q, q + 1))
        } else {
            None
        }
    } else {
        None
    }
}

/// `#tag` at the very start (`p == 0`) or whitespace and `#tag` at `p`;
/// the tag is the longest non-empty run of tag characters.
pub open spec fn tag_at(s: Seq<char>, p: int) -> Option<Hit> {
    if p == 0 && s.len() > 0 && s[0] == '#' && run_to(s, 1, 3) > 1 {
        Some((1, run_to(s, 1, 3), run_to(s, 1, 3)))
    } else if 0 <= p && p + 1 < s.len() && is_ws(s[p]) && s[p + 1] == '#' && run_to(s, p + 2, 3)
        > p + 2 {
        Some((p + 2, run_to(s, p + 2, 3), run_to(s, p + 2, 3)))
    } else {
        None
    }
}

pub open spec fn match_at(s: Seq<char>, p: int, pat: Pattern) -> Option<Hit> {
    match pat {
        Pattern::Transclusion => if 0 <= p < s.len() && s[p] == '!' {
            wiki_at(s, p + 1)
        } else {
            None
        },
        Pattern::Wiki => wiki_at(s, p),
        Pattern::BlockRef => ref_at(s, p),
        Pattern::Tag => tag_at(s, p),
    }
}

/// All matches of `pat` in `s` from position `p` on, each with its start.
pub open spec fn scan(s: Seq<char>, p: int, pat: Pattern) -> Seq<(int, Hit)>
    decreases s.len() - p,
{
    if p < 0 || p >= s.len() {
        Seq::empty()
    } else {
        match match_at(s, p, pat) {
            Some(h) => if h.2 <= p || h.2 > s.len() {
                Seq::empty()
            } else {
                seq![(p, h)] + scan(s, h.2, pat)
            },
            None => scan(s, p + 1, pat),
        }
    }
}


pub proof fn lemma_run_to(s: Seq<char>, i: int, which: int)
    requires
        0 <= i <= s.len(),
    ensures
        i <= run_to(s, i, which) <= s.len(),
    decreases s.len() - i,
{
    if i < s.len() && !((which == 0 && is_wiki_stop(s[i])) || (which == 1 && s[i] == ']') || (
    which == 2 && !is_ref_char(s[i])) || (which == 3 && !is_tag_char(s[i]))) {
        lemma_run_to(s, i + 1, which);
    }
}

pub proof fn lemma_match_bounds(s: Seq<char>, p: int, pat: Pattern)
    requires
        0 <= p < s.len(),
    ensures
        match match_at(s, p, pat) {
            Some(h) => p <= h.0 <= h.1 <= h.2 <= s.len() && p < h.2,
            None => true,
        },
{
    lemma_run_to(s, p, 0);
    if p + 2 <= s.len() {
        lemma_run_to(s, p + 2, 0);
        lemma_run_to(s, p + 2, 2);
        lemma_run_to(s, p + 2, 3);
    }
    if p + 3 <= s.len() {
        lemma_run_to(s, p + 3, 0);
    }
    if s.len() >= 1 {
        lemma_run_to(s, 1, 3);
    }
    let q = run_to(s, p + 2, 0);
    if q + 1 <= s.len() && q >= p + 2 {
        lemma_run_to(s, q + 1, 1);
    }
    let q3 = run_to(s, p + 3, 0);
    if q3 + 1 <= s.len() && q3 >= p + 3 {
        lemma_run_to(s, q3 + 1, 1);
    }
}

/// Every match lies within the text and after the previous one.
pub proof fn lemma_scan_bounds(s: Seq<char>, p: int, pat: Pattern)
    requires
        0 <= p,
    ensures
        forall|k: int|
            0 <= k < scan(s, p, pat).len() ==> {
                let m = #[trigger] scan(s, p, pat)[k];
                &&& p <= m.0 <= m.1.0 <= m.1.1 <= m.1.2 <= s.len()
                &&& m.0 < m.1.2
            },
    decreases s.len() - p,
{
    if p < s.len() {
        lemma_match_bounds(s, p, pat);
        match match_at(s, p, pat) {
            Some(h) => {
                if h.2 > p && h.2 <= s.len() {
                    lemma_scan_bounds(s, h.2, pat);
                    let rest = scan(s, h.2, pat);
                    assert(scan(s, p, pat) == seq![(p, h)] + rest);
                    assert forall|k: int| 0 <= k < scan(s, p, pat).len() implies {
                        let m = #[trigger] scan(s, p, pat)[k];
                        &&& p <= m.0 <= m.1.0 <= m.1.1 <= m.1.2 <= s.len()
                        &&& m.0 < m.1.2
                    } by {
                        if k > 0 {
                            assert(scan(s, p, pat)[k] == rest[k - 1]);
                        }
                    }
                }
            },
            None => {
                lemma_scan_bounds(s, p + 1, pat);
                assert(scan(s, p, pat) == scan(s, p + 1, pat));
            },
        }
    }
}

// ---------------------------------------------------------------------------
// Executable scanners
// ---------------------------------------------------------------------------

fn is_ascii_alnum_char(c: char) -> (b: bool)
    ensures
        b == is_ascii_alnum(c),
{
    ('a' <= c && c <= 'z') || ('A' <= c && c <= 'Z') || ('0' <= c && c <= '9')
}

fn stops(c: char, which: u8) -> (b: bool)
    ensures
        b == ((which == 0 && is_wiki_stop(c)) || (which == 1 && c == ']') || (which == 2
            && !is_ref_char(c)) || (which == 3 && !is_tag_char(c))),
{
    if which == 0 {
        c == '[' || c == ']' || c == '|'
    } else if which == 1 {
        c == ']'
    } else if which == 2 {
        !(is_ascii_alnum_char(c) || c == '_' || c == '-')
    } else if which == 3 {
        let u = c as u32;
        !(is_ascii_alnum_char(c) || c == '_' || c == '-' || c == '/' || (0x4e00 <= u && u
            <= 0x9fff))
    } else {
        false
    }
}

fn run_to_exec(v: &Vec<char>, i: usize, which: u8) -> (r: usize)
    requires
        i <= v.len(),
    ensures
        r == run_to(v@, i as int, which as int),
        i <= r <= v.len(),
{
    let mut k = i;
    while k < v.len() && !stops(v[k], which)
        invariant
            i <= k <= v.len(),
            run_to(v@, i as int, which as int) == run_to(v@, k as int, which as int),
        decreases v.len() - k,
    {
        k = k + 1;
    }
    k
}

fn wiki_at_exec(v: &Vec<char>, p: usize) -> (r: Option<(usize, usize, usize)>)
    requires
        p <= v.len(),
    ensures
        match r {
            Some(h) => wiki_at(v@, p as int) == Some((h.0 as int, h.1 as int, h.2 as int)),
            None => wiki_at(v@, p as int) is None,
        },
{
    let n = v.len();
    if n - p >= 2 && v[p] == '[' && v[p + 1] == '[' {
        let q = run_to_exec(v, p + 2, 0);
        if q > p + 2 && q < n {
            if v[q] == ']' {
                if n - q >= 2 && v[q + 1] == ']' {
                    Some((p + 2, q, q + 2))
                } else {
                    None
                }
            } else if v[q] == '|' {
                let r = run_to_exec(v, q + 1, 1);
                if r > q + 1 && n - r >= 2 && v[r + 1] == ']' {
                    Some((p + 2, q, r + 2))
                } else {
                    None
                }
            } else {
                None
            }
        } else {
            None
        }
    } else {
        None
    }
}

fn ref_at_exec(v: &Vec<char>, p: usize) -> (r: Option<(usize, usize, usize)>)
    requires
        p <= v.len(),
    ensures
        match r {
            Some(h) => ref_at(v@, p as int) == Some((h.0 as int, h.1 as int, h.2 as int)),
            None => ref_at(v@, p as int) is None,
        },
{
    let n = v.len();
    if n - p >= 2 && v[p] == '(' && v[p + 1] == '(' {
        let q = run_to_exec(v, p + 2, 2);
        if q > p + 2 && q < n && v[q] == ')' {
            Some((p + 2, q, q + 1))
        } else {
            None
        }
    } else {
        None
    }
}

fn tag_at_exec(v: &Vec<char>, p: usize) -> (r: Option<(usize, usize, usize)>)
    requires
        p <= v.len(),
    ensures
        match r {
            Some(h) => tag_at(v@, p as int) == Some((h.0 as int, h.1 as int, h.2 as int)),
            None => tag_at(v@, p as int) is None,
        },
{
    let n = v.len();
    if p == 0 && n > 0 && v[0] == '#' {
        let e = run_to_exec(v, 1, 3);
        if e > 1 {
            return Some((1, e, e));
        }
    }
    if n - p >= 2 && crate::text::is_ws_char(v[p]) && v[p + 1] == '#' {
        let e = run_to_exec(v, p + 2, 3);
        if e > p + 2 {
            return Some((p + 2, e, e));
        }
    }
    None
}

fn match_at_exec(v: &Vec<char>, p: usize, pat: &Pattern) -> (r: Option<(usize, usize, usize)>)
    requires
        p <= v.len(),
    ensures
        match r {
            Some(h) => match_at(v@, p as int, *pat) == Some((h.0 as int, h.1 as int, h.2 as int)),
            None => match_at(v@, p as int, *pat) is None,
        },
{
    match pat {
        Pattern::Transclusion => {
            if p < v.len() && v[p] == '!' {
                wiki_at_exec(v, p + 1)
            } else {
                None
            }
        },
        Pattern::Wiki => wiki_at_exec(v, p),
        Pattern::BlockRef => ref_at_exec(v, p),
        Pattern::Tag => tag_at_exec(v, p),
    }
}

/// All matches of `pat` in `v`: `(start, name start, name end, end)` for each.
pub fn scan_all(v: &Vec<char>, pat: &Pattern) -> (r: Vec<(usize, usize, usize, usize)>)
    ensures
        r@.len() == scan(v@, 0, *pat).len(),
        forall|k: int|
            0 <= k < r@.len() ==> {
                let h = scan(v@, 0, *pat)[k];
                &&& (#[trigger] r@[k]).0 == h.0
                &&& r@[k].1 == h.1.0
                &&& r@[k].2 == h.1.1
                &&& r@[k].3 == h.1.2
            },
{
    let mut r: Vec<(usize, usize, usize, usize)> = Vec::new();
    let mut p: usize = 0;
    let ghost mut found: Seq<(int, Hit)> = Seq::empty();
    while p < v.len()
        invariant
            p <= v.len(),
            scan(v@, 0, *pat) == found + scan(v@, p as int, *pat),
            r@.len() == found.len(),
            forall|k: int|
                0 <= k < r@.len() ==> {
                    let h = found[k];
                    &&& (#[trigger] r@[k]).0 == h.0
                    &&& r@[k].1 == h.1.0
                    &&& r@[k].2 == h.1.1
                    &&& r@[k].3 == h.1.2
                },
        decreases v.len() - p,
    {
        match match_at_exec(v, p, pat) {
            Some((a, b, e)) => {
                if e <= p || e > v.len() {
                    proof {
                        assert(scan(v@, p as int, *pat) =~= Seq::<(int, Hit)>::empty());
                        assert(scan(v@, 0, *pat) =~= found);
                    }
                    return r;
                }
                let ghost h: Hit = (a as int, b as int, e as int);
                proof {
                    assert(scan(v@, p as int, *pat) == seq![(p as int, h)] + scan(v@, e as int, *pat));
                    assert(found + scan(v@, p as int, *pat) =~= found.push((p as int, h)) + scan(
                        v@,
                        e as int,
                        *pat,
                    ));
                    found = found.push((p as int, h));
                }
                r.push((p, a, b, e));
                p = e;
            },
            None => {
                p = p + 1;
            },
        }
    }
    proof {
        assert(scan(v@, p as int, *pat) =~= Seq::<(int, Hit)>::empty());
        assert(scan(v@, 0, *pat) =~= found);
    }
    r
}

} // verus!
