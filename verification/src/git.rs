//! Git support: reading the output of `git status`, `git log` and friends,
//! and the steps of committing a saved note.

use vstd::prelude::*;
use crate::links::opt_view;
use crate::vault::VaultError;
use crate::text::{
    blen, char_at_byte, chars_of, extend_range, extend_str, is_boundary, is_ws, is_ws_char,
    push_dec, ranges_cut, split_char, split_ranges, str_views, string_of, string_of_range, trim,
    trim_range, utf8_width, dec,
};

verus! {

/// The state of the vault's repository.
#[derive(Clone, Debug)]
pub struct GitStatus {
    pub is_repo: bool,
    pub head: Option<String>,
    pub branch: Option<String>,
    pub modified: Vec<String>,
    pub untracked: Vec<String>,
    pub staged: Vec<String>,
    pub ahead: u32,
    pub behind: u32,
    pub remote_url: Option<String>,
}

/// One commit of the log.
#[derive(Clone, Debug)]
pub struct GitLogEntry {
    pub id: String,
    pub full_id: String,
    pub summary: String,
    pub author: String,
    pub email: String,
    pub timestamp: i64,
    pub files_changed: usize,
}


// ---------------------------------------------------------------------------
// Lines, words and numbers of command output
// ---------------------------------------------------------------------------

/// `l` without one trailing `\r`.
pub open spec fn strip_cr(l: Seq<char>) -> Seq<char> {
    if l.len() > 0 && l.last() == '\r' {
        l.drop_last()
    } else {
        l
    }
}

/// The lines of `s`, as `str::lines`: split at `\n`, a `\r` before a `\n`
/// removed, and no empty last line after a final `\n`.
pub open spec fn lines_of(s: Seq<char>) -> Seq<Seq<char>> {
    let p = split_char(s, '\n');
    let n = p.len() as int;
    if p[n - 1].len() == 0 {
        Seq::new((n - 1) as nat, |k: int| strip_cr(p[k]))
    } else {
        Seq::new(n as nat, |k: int| if k < n - 1 {
            strip_cr(p[k])
        } else {
            p[k]
        })
    }
}

/// The ranges of the lines of `v`.
pub fn line_ranges(v: &Vec<char>) -> (r: Vec<(usize, usize)>)
    ensures
        r@.len() == lines_of(v@).len(),
        forall|k: int|
            0 <= k < r@.len() ==> (#[trigger] r@[k]).0 <= r@[k].1 <= v@.len() && v@.subrange(
                r@[k].0 as int,
                r@[k].1 as int,
            ) == lines_of(v@)[k],
{
    let rs = split_ranges(v, '\n');
    let ghost p = split_char(v@, '\n');
    proof {
        crate::text::lemma_split_char_len(v@, '\n');
    }
    let n = rs.len();
    let count = if rs[n - 1].0 == rs[n - 1].1 {
        n - 1
    } else {
        n
    };
    assert(p[n - 1] == v@.subrange(rs@[n - 1].0 as int, rs@[n - 1].1 as int));
    let mut out: Vec<(usize, usize)> = Vec::new();
    let mut k: usize = 0;
    while k < count
        invariant
            k <= count <= n == rs@.len() == p.len(),
            ranges_cut(v@, '\n', rs@),
            p == split_char(v@, '\n'),
            count == lines_of(v@).len(),
            out@.len() == k,
            forall|j: int|
                0 <= j < k ==> (#[trigger] out@[j]).0 <= out@[j].1 <= v@.len() && v@.subrange(
                    out@[j].0 as int,
                    out@[j].1 as int,
                ) == lines_of(v@)[j],
        decreases count - k,
    {
        let (lo, hi) = rs[k];
        assert(rs@[k as int].0 <= rs@[k as int].1 <= v@.len());
        let e = if k + 1 < n && hi > lo && v[hi - 1] == '\r' {
            hi - 1
        } else {
            hi
        };
        proof {
            let piece = v@.subrange(lo as int, hi as int);
            assert(piece == p[k as int]);
            if k + 1 < n && hi > lo && v@[hi - 1] == '\r' {
                assert(piece.drop_last() =~= v@.subrange(lo as int, e as int));
            }
            assert(v@.subrange(lo as int, e as int) == lines_of(v@)[k as int]);
        }
        out.push((lo, e));
        k = k + 1;
    }
    out
}

/// First index from `i` on that does not hold whitespace.
pub open spec fn skip_space(s: Seq<char>, i: int) -> int
    decreases s.len() - i,
{
    if i < 0 || i >= s.len() || !is_ws(s[i]) {
        i
    } else {
        skip_space(s, i + 1)
    }
}

/// First index from `i` on that holds whitespace.
pub open spec fn word_end(s: Seq<char>, i: int) -> int
    decreases s.len() - i,
{
    if i < 0 || i >= s.len() || is_ws(s[i]) {
        i
    } else {
        word_end(s, i + 1)
    }
}

/// The whitespace-separated words of `s` from `i` on, as `split_whitespace`.
pub open spec fn words_from(s: Seq<char>, i: int) -> Seq<Seq<char>>
    decreases s.len() - i,
{
    let a = skip_space(s, i);
    if i < 0 || a < i || a >= s.len() {
        Seq::empty()
    } else {
        let b = word_end(s, a);
        if b <= a || b > s.len() {
            Seq::empty()
        } else {
            seq![s.subrange(a, b)] + words_from(s, b)
        }
    }
}

proof fn lemma_skip_space(s: Seq<char>, i: int)
    requires
        0 <= i <= s.len(),
    ensures
        i <= skip_space(s, i) <= s.len(),
        skip_space(s, i) < s.len() ==> !is_ws(s[skip_space(s, i)]),
    decreases s.len() - i,
{
    if i < s.len() && is_ws(s[i]) {
        lemma_skip_space(s, i + 1);
    }
}

proof fn lemma_word_end(s: Seq<char>, i: int)
    requires
        0 <= i <= s.len(),
    ensures
        i <= word_end(s, i) <= s.len(),
        i < s.len() && !is_ws(s[i]) ==> word_end(s, i) > i,
    decreases s.len() - i,
{
    if i < s.len() && !is_ws(s[i]) {
        lemma_word_end(s, i + 1);
    }
}

/// The ranges of the words of `v[lo..hi]`.
pub fn word_ranges(v: &Vec<char>, lo: usize, hi: usize) -> (r: Vec<(usize, usize)>)
    requires
        lo <= hi <= v.len(),
    ensures
        r@.len() == words_from(v@.subrange(lo as int, hi as int), 0).len(),
        forall|k: int|
            0 <= k < r@.len() ==> lo <= (#[trigger] r@[k]).0 <= r@[k].1 <= hi && v@.subrange(
                r@[k].0 as int,
                r@[k].1 as int,
            ) == words_from(v@.subrange(lo as int, hi as int), 0)[k],
{
    let ghost s = v@.subrange(lo as int, hi as int);
    let ghost all = words_from(s, 0);
    let ghost mut done: Seq<Seq<char>> = Seq::empty();
    let mut out: Vec<(usize, usize)> = Vec::new();
    let mut i = lo;
    while i < hi
        invariant
            lo <= i <= hi <= v.len(),
            s == v@.subrange(lo as int, hi as int),
            all == words_from(s, 0),
            all == done + words_from(s, i - lo),
            out@.len() == done.len(),
            forall|k: int|
                0 <= k < out@.len() ==> lo <= (#[trigger] out@[k]).0 <= out@[k].1 <= hi
                    && v@.subrange(out@[k].0 as int, out@[k].1 as int) == done[k],
        decreases hi - i,
    {
        let mut a = i;
        while a < hi && is_ws_char(v[a])
            invariant
                lo <= i <= a <= hi <= v.len(),
                s == v@.subrange(lo as int, hi as int),
                skip_space(s, i - lo) == skip_space(s, a - lo),
            decreases hi - a,
        {
            assert(s[a - lo] == v@[a as int]);
            a = a + 1;
        }
        proof {
            lemma_skip_space(s, i - lo);
        }
        if a == hi {
            assert(words_from(s, i - lo) =~= Seq::<Seq<char>>::empty());
            i = hi;
        } else {
            let mut b = a;
            while b < hi && !is_ws_char(v[b])
                invariant
                    lo <= a <= b <= hi <= v.len(),
                    s == v@.subrange(lo as int, hi as int),
                    word_end(s, a - lo) == word_end(s, b - lo),
                decreases hi - b,
            {
                assert(s[b - lo] == v@[b as int]);
                b = b + 1;
            }
            proof {
                lemma_word_end(s, a - lo);
                assert(s.subrange(a - lo, b - lo) =~= v@.subrange(a as int, b as int));
                done = done.push(v@.subrange(a as int, b as int));
            }
            out.push((a, b));
            i = b;
        }
    }
    proof {
        assert(words_from(s, i - lo) =~= Seq::<Seq<char>>::empty());
    }
    out
}

/// The value of a run of ASCII digits.
pub open spec fn digits_value(d: Seq<char>) -> nat
    decreases d.len(),
{
    if d.len() == 0 {
        0
    } else {
        digits_value(d.drop_last()) * 10 + ((d.last() as u32) - 48) as nat
    }
}

pub open spec fn all_digits(d: Seq<char>) -> bool {
    forall|i: int| 0 <= i < d.len() ==> '0' <= #[trigger] d[i] && d[i] <= '9'
}

/// `str::parse::<u32>`: an optional `+`, then ASCII digits of a value that fits.
pub open spec fn parse_u32_of(s: Seq<char>) -> Option<u32> {
    let d = if s.len() > 0 && s[0] == '+' {
        s.drop_first()
    } else {
        s
    };
    if d.len() > 0 && all_digits(d) && digits_value(d) <= u32::MAX {
        Some(digits_value(d) as u32)
    } else {
        None
    }
}

/// `str::parse::<i64>`: an optional sign, then ASCII digits of a value that fits.
pub open spec fn parse_i64_of(s: Seq<char>) -> Option<i64> {
    if s.len() > 0 && s[0] == '-' {
        let d = s.drop_first();
        if d.len() > 0 && all_digits(d) && digits_value(d) <= 0x8000_0000_0000_0000 {
            Some((0 - digits_value(d)) as i64)
        } else {
            None
        }
    } else {
        let d = if s.len() > 0 && s[0] == '+' {
            s.drop_first()
        } else {
            s
        };
        if d.len() > 0 && all_digits(d) && digits_value(d) <= i64::MAX {
            Some(digits_value(d) as i64)
        } else {
            None
        }
    }
}

proof fn lemma_digits_grow(d: Seq<char>, i: int)
    requires
        all_digits(d),
        0 <= i <= d.len(),
    ensures
        digits_value(d.take(i)) <= digits_value(d),
    decreases d.len() - i,
{
    if i < d.len() {
        lemma_digits_grow(d, i + 1);
        assert(d.take(i + 1).drop_last() =~= d.take(i));
        assert('0' <= d[i]);
    } else {
        assert(d.take(i) =~= d);
    }
}

/// The value of the digits `v[lo..hi]` when they are all ASCII digits, there
/// is at least one, and the value is at most `bound`.
fn digits_upto(v: &Vec<char>, lo: usize, hi: usize, bound: u128) -> (r: Option<u128>)
    requires
        lo <= hi <= v.len(),
        bound <= 0x1_0000_0000_0000_0000,
    ensures
        match r {
            Some(x) => {
                let d = v@.subrange(lo as int, hi as int);
                &&& d.len() > 0
                &&& all_digits(d)
                &&& x == digits_value(d)
                &&& x <= bound
            },
            None => {
                let d = v@.subrange(lo as int, hi as int);
                !(d.len() > 0 && all_digits(d) && digits_value(d) <= bound)
            },
        },
{
    let ghost d = v@.subrange(lo as int, hi as int);
    if lo == hi {
        return None;
    }
    let mut acc: u128 = 0;
    let mut i = lo;
    assert(d.take(0) =~= Seq::<char>::empty());
    while i < hi
        invariant
            lo <= i <= hi <= v.len(),
            d == v@.subrange(lo as int, hi as int),
            bound <= 0x1_0000_0000_0000_0000,
            forall|j: int| 0 <= j < i - lo ==> '0' <= #[trigger] d[j] && d[j] <= '9',
            acc == digits_value(d.take(i - lo)),
            acc <= bound,
        decreases hi - i,
    {
        let c = v[i];
        if !('0' <= c && c <= '9') {
            assert(!all_digits(d)) by {
                assert(d[i - lo] == c);
            }
            return None;
        }
        assert(d.take(i - lo + 1).drop_last() =~= d.take(i - lo));
        assert(d.take(i - lo + 1).last() == c);
        let x = (c as u32 - 48) as u128;
        acc = acc * 10 + x;
        i = i + 1;
        if acc > bound {
            proof {
                if all_digits(d) {
                    lemma_digits_grow(d, i - lo);
                }
            }
            return None;
        }
    }
    assert(d.take(hi - lo) =~= d);
    Some(acc)
}

/// `s.parse::<u32>()`, as an option.
pub fn parse_u32(s: &str) -> (r: Option<u32>)
    ensures
        r == parse_u32_of(s@),
{
    let v = chars_of(s);
    let n = v.len();
    let start: usize = if n > 0 && v[0] == '+' {
        1
    } else {
        0
    };
    assert(v@.subrange(start as int, n as int) =~= if s@.len() > 0 && s@[0] == '+' {
        s@.drop_first()
    } else {
        s@
    });
    match digits_upto(&v, start, n, 0xffff_ffff) {
        Some(x) => Some(x as u32),
        None => None,
    }
}

/// `s.parse::<i64>()`, as an option.
pub fn parse_i64(s: &str) -> (r: Option<i64>)
    ensures
        r == parse_i64_of(s@),
{
    let v = chars_of(s);
    let n = v.len();
    if n > 0 && v[0] == '-' {
        assert(v@.subrange(1, n as int) =~= s@.drop_first());
        match digits_upto(&v, 1, n, 0x8000_0000_0000_0000) {
            Some(x) => {
                let r: i128 = 0 - (x as i128);
                Some(r as i64)
            },
            None => None,
        }
    } else {
        let start: usize = if n > 0 && v[0] == '+' {
            1
        } else {
            0
        };
        assert(v@.subrange(start as int, n as int) =~= if s@.len() > 0 && s@[0] == '+' {
            s@.drop_first()
        } else {
            s@
        });
        match digits_upto(&v, start, n, 0x7fff_ffff_ffff_ffff) {
            Some(x) => Some(x as i64),
            None => None,
        }
    }
}


// ---------------------------------------------------------------------------
// Status
// ---------------------------------------------------------------------------

/// Every line of three bytes or more can be cut after its second and third
/// bytes (as it is in `git status --porcelain` output: `XY path`).
pub open spec fn porcelain_ok(out: Seq<char>) -> bool {
    forall|k: int|
        0 <= k < lines_of(out).len() && blen(#[trigger] lines_of(out)[k]) >= 3 ==> is_boundary(
            lines_of(out)[k],
            2,
        ) && is_boundary(lines_of(out)[k], 3)
}

/// The path of a status line: from its fourth byte on.
pub open spec fn porcelain_path(l: Seq<char>) -> Seq<char> {
    l.skip(char_at_byte(l, 3))
}

/// The index column `X` shows a change (not ` ` and not `?`).
pub open spec fn staged_line(l: Seq<char>) -> bool {
    blen(l) >= 3 && l[0] != ' ' && l[0] != '?'
}

/// The work-tree column `Y` (the line's second byte) is `c`.
pub open spec fn worktree_is(l: Seq<char>, c: char) -> bool {
    blen(l) >= 3 && utf8_width(l[0]) == 1 && l[1] == c
}

/// Lines of the class `which`: 0 staged, 1 untracked (`?`), 2 modified or
/// deleted in the work tree (`M` or `D`).
pub open spec fn in_class(l: Seq<char>, which: int) -> bool {
    if which == 0 {
        staged_line(l)
    } else if which == 1 {
        worktree_is(l, '?')
    } else {
        worktree_is(l, 'M') || worktree_is(l, 'D')
    }
}

/// The paths of the lines of a class, in order.
pub open spec fn class_paths(ls: Seq<Seq<char>>, which: int) -> Seq<Seq<char>>
    decreases ls.len(),
{
    if ls.len() == 0 {
        Seq::empty()
    } else {
        let r = class_paths(ls.drop_last(), which);
        if in_class(ls.last(), which) {
            r.push(porcelain_path(ls.last()))
        } else {
            r
        }
    }
}

/// Whether `out` can be read as porcelain status output (see `porcelain_ok`).
pub fn porcelain_cut_ok(out: &str) -> (r: bool)
    ensures
        r == porcelain_ok(out@),
{
    let v = chars_of(out);
    let ls = line_ranges(&v);
    let ghost lv = lines_of(v@);
    let mut k: usize = 0;
    while k < ls.len()
        invariant
            k <= ls@.len() == lv.len(),
            v@ == out@,
            lv == lines_of(v@),
            forall|j: int|
                0 <= j < ls@.len() ==> (#[trigger] ls@[j]).0 <= ls@[j].1 <= v@.len() && v@.subrange(
                    ls@[j].0 as int,
                    ls@[j].1 as int,
                ) == lv[j],
            forall|j: int|
                0 <= j < k && blen(#[trigger] lv[j]) >= 3 ==> is_boundary(lv[j], 2)
                    && is_boundary(lv[j], 3),
        decreases ls.len() - k,
    {
        let (lo, hi) = ls[k];
        let mut line: Vec<char> = Vec::new();
        extend_range(&mut line, &v, lo, hi);
        assert(line@ =~= lv[k as int]);
        assert(line@.subrange(0, line@.len() as int) =~= line@);
        let big = crate::text::blen_capped(&line, 0, line.len(), 2);
        if big > 2 {
            assert(line@.take(0) =~= Seq::<char>::empty());
            if !crate::text::boundary_from(&line, 0, 0, 2) || !crate::text::boundary_from(&line, 0, 0, 3) {
                return false;
            }
        }
        k = k + 1;
    }
    true
}

/// The modified, untracked and staged paths of `git status --porcelain`.
pub fn parse_porcelain(out: &str) -> (r: (Vec<String>, Vec<String>, Vec<String>))
    requires
        porcelain_ok(out@),
    ensures
        str_views(r.0@) == class_paths(lines_of(out@), 2),
        str_views(r.1@) == class_paths(lines_of(out@), 1),
        str_views(r.2@) == class_paths(lines_of(out@), 0),
{
    let v = chars_of(out);
    let ls = line_ranges(&v);
    let ghost lv = lines_of(v@);
    let mut modified: Vec<String> = Vec::new();
    let mut untracked: Vec<String> = Vec::new();
    let mut staged: Vec<String> = Vec::new();
    let mut k: usize = 0;
    while k < ls.len()
        invariant
            k <= ls@.len() == lv.len(),
            v@ == out@,
            lv == lines_of(v@),
            porcelain_ok(v@),
            forall|j: int|
                0 <= j < ls@.len() ==> (#[trigger] ls@[j]).0 <= ls@[j].1 <= v@.len() && v@.subrange(
                    ls@[j].0 as int,
                    ls@[j].1 as int,
                ) == lv[j],
            str_views(modified@) == class_paths(lv.take(k as int), 2),
            str_views(untracked@) == class_paths(lv.take(k as int), 1),
            str_views(staged@) == class_paths(lv.take(k as int), 0),
        decreases ls.len() - k,
    {
        let (lo, hi) = ls[k];
        let mut line: Vec<char> = Vec::new();
        extend_range(&mut line, &v, lo, hi);
        let ghost l = lv[k as int];
        assert(line@ =~= l);
        assert(line@.subrange(0, line@.len() as int) =~= line@);
        assert(lv.take(k + 1).drop_last() =~= lv.take(k as int));
        assert(lv.take(k + 1).last() == l);
        let big = crate::text::blen_capped(&line, 0, line.len(), 2);
        if big > 2 {
            assert(line@.take(0) =~= Seq::<char>::empty());
            let p = crate::text::char_index_at_byte(&line, 0, 0, 3);
            let path = string_of_range(&line, p, line.len());
            assert(path@ =~= porcelain_path(l));
            let x = line[0];
            if x != ' ' && x != '?' {
                let ghost before = str_views(staged@);
                staged.push(path.clone());
                assert(str_views(staged@) =~= before.push(path@));
            }
            if crate::text::utf8_width_of(x) == 1 {
                proof {
                    assert(crate::text::blen(l) == utf8_width(l[0]) + crate::text::blen(l.drop_first()));
                    if l.len() == 1 {
                        assert(l.drop_first().len() == 0);
                    }
                }
                let y = line[1];
                if y == '?' {
                    let ghost before = str_views(untracked@);
                    untracked.push(path);
                    assert(str_views(untracked@) =~= before.push(porcelain_path(l)));
                } else if y == 'M' || y == 'D' {
                    let ghost before = str_views(modified@);
                    modified.push(path);
                    assert(str_views(modified@) =~= before.push(porcelain_path(l)));
                }
            }
        }
        k = k + 1;
    }
    assert(lv.take(ls.len() as int) =~= lv);
    (modified, untracked, staged)
}

/// The numbers of commits ahead of and behind the upstream, from
/// `git rev-list --left-right --count`: the last line of two words gives
/// them (a word that is not a number counts as 0).
pub open spec fn ahead_behind_of(ls: Seq<Seq<char>>) -> (u32, u32)
    decreases ls.len(),
{
    if ls.len() == 0 {
        (0, 0)
    } else {
        let w = words_from(ls.last(), 0);
        if w.len() == 2 {
            (
                match parse_u32_of(w[0]) {
                    Some(x) => x,
                    None => 0,
                },
                match parse_u32_of(w[1]) {
                    Some(x) => x,
                    None => 0,
                },
            )
        } else {
            ahead_behind_of(ls.drop_last())
        }
    }
}

/// Commits ahead and behind, from `rev-list` output.
pub fn parse_ahead_behind(out: &str) -> (r: (u32, u32))
    ensures
        r == ahead_behind_of(lines_of(out@)),
{
    let v = chars_of(out);
    let ls = line_ranges(&v);
    let ghost lv = lines_of(v@);
    let mut k = ls.len();
    assert(lv.take(k as int) =~= lv);
    while k > 0
        invariant
            k <= ls@.len() == lv.len(),
            v@ == out@,
            lv == lines_of(v@),
            forall|j: int|
                0 <= j < ls@.len() ==> (#[trigger] ls@[j]).0 <= ls@[j].1 <= v@.len() && v@.subrange(
                    ls@[j].0 as int,
                    ls@[j].1 as int,
                ) == lv[j],
            ahead_behind_of(lv) == ahead_behind_of(lv.take(k as int)),
        decreases k,
    {
        let (lo, hi) = ls[k - 1];
        let ws = word_ranges(&v, lo, hi);
        assert(lv.take(k as int).last() == lv[k - 1]);
        if ws.len() == 2 {
            let (a0, a1) = ws[0];
            let (b0, b1) = ws[1];
            let x = parse_u32(string_of_range(&v, a0, a1).as_str());
            let y = parse_u32(string_of_range(&v, b0, b1).as_str());
            let ahead = match x {
                Some(n) => n,
                None => 0,
            };
            let behind = match y {
                Some(n) => n,
                None => 0,
            };
            return (ahead, behind);
        }
        assert(lv.take(k as int).drop_last() =~= lv.take(k - 1));
        k = k - 1;
    }
    (0, 0)
}

/// The `rev-list` arguments that count commits ahead of and behind
/// `origin/<branch>`.
pub open spec fn ahead_behind_args_of(branch: Seq<char>) -> Seq<Seq<char>> {
    seq!["rev-list"@, "--left-right"@, "--count"@, branch + "...origin/"@ + branch]
}

/// The `rev-list` call to make, when the branch is known.
pub fn ahead_behind_call(branch: &Option<String>) -> (r: Option<Vec<String>>)
    ensures
        match branch {
            Some(b) => r matches Some(a) && str_views(a@) == ahead_behind_args_of(b@),
            None => r is None,
        },
{
    match branch {
        Some(b) => {
            let mut range: Vec<char> = Vec::new();
            extend_str(&mut range, b.as_str());
            extend_str(&mut range, "...origin/");
            extend_str(&mut range, b.as_str());
            let mut a: Vec<String> = Vec::new();
            a.push("rev-list".to_owned());
            a.push("--left-right".to_owned());
            a.push("--count".to_owned());
            a.push(string_of(&range));
            assert(str_views(a@) =~= ahead_behind_args_of(b@));
            Some(a)
        },
        None => None,
    }
}

/// The text of a successful command.
pub open spec fn ok_text(r: Result<String, String>) -> Option<Seq<char>> {
    match r {
        Ok(t) => Some(t@),
        Err(_) => None,
    }
}

/// The trimmed output, when the command succeeded.
pub open spec fn trimmed_out(r: Option<Seq<char>>) -> Option<Seq<char>> {
    match r {
        Some(t) => Some(trim(t)),
        None => None,
    }
}

/// The trimmed output, when the command succeeded and it is not empty.
pub open spec fn nonempty_out(r: Option<Seq<char>>) -> Option<Seq<char>> {
    match r {
        Some(t) => if trim(t).len() > 0 {
            Some(trim(t))
        } else {
            None
        },
        None => None,
    }
}

fn trimmed(t: &String) -> (r: String)
    ensures
        r@ == trim(t@),
{
    let v = chars_of(t.as_str());
    let (a, b) = trim_range(&v, 0, v.len());
    assert(v@.subrange(0, v@.len() as int) =~= v@);
    string_of_range(&v, a, b)
}

/// The branch, from `git branch --show-current`: trimmed, when not empty.
pub fn branch_of(out: &Result<String, String>) -> (r: Option<String>)
    ensures
        opt_view(r) == nonempty_out(ok_text(*out)),
{
    match out {
        Ok(t) => {
            let x = trimmed(t);
            if x.as_str().is_empty() {
                None
            } else {
                Some(x)
            }
        },
        Err(_) => None,
    }
}

/// The status of a folder that is not a repository.
pub fn not_repo_status() -> (r: GitStatus)
    ensures
        !r.is_repo && r.head is None && r.branch is None && r.remote_url is None,
        r.modified@.len() == 0 && r.untracked@.len() == 0 && r.staged@.len() == 0,
        r.ahead == 0 && r.behind == 0,
{
    GitStatus {
        is_repo: false,
        head: None,
        branch: None,
        modified: Vec::new(),
        untracked: Vec::new(),
        staged: Vec::new(),
        ahead: 0,
        behind: 0,
        remote_url: None,
    }
}

/// The status of a repository, from the outputs of `rev-parse --short HEAD`,
/// `branch --show-current`, `status --porcelain`, `remote get-url origin` and,
/// when the branch is known, `rev-list --left-right --count`.
pub fn assemble_status(
    head_out: &Result<String, String>,
    branch_out: &Result<String, String>,
    status_out: &Result<String, String>,
    remote_out: &Result<String, String>,
    ab_out: &Option<Result<String, String>>,
) -> (r: GitStatus)
    requires
        porcelain_ok(match ok_text(*status_out) {
            Some(t) => t,
            None => Seq::empty(),
        }),
    ensures
        r.is_repo,
        opt_view(r.head) == trimmed_out(ok_text(*head_out)),
        opt_view(r.branch) == nonempty_out(ok_text(*branch_out)),
        opt_view(r.remote_url) == nonempty_out(ok_text(*remote_out)),
        ({
            let st = match ok_text(*status_out) {
                Some(t) => t,
                None => Seq::empty(),
            };
            &&& str_views(r.modified@) == class_paths(lines_of(st), 2)
            &&& str_views(r.untracked@) == class_paths(lines_of(st), 1)
            &&& str_views(r.staged@) == class_paths(lines_of(st), 0)
        }),
        (r.ahead, r.behind) == match ab_out {
            Some(Ok(t)) => ahead_behind_of(lines_of(t@)),
            _ => (0u32, 0u32),
        },
{
    let head = match head_out {
        Ok(t) => Some(trimmed(t)),
        Err(_) => None,
    };
    let branch = branch_of(branch_out);
    let remote_url = branch_of(remote_out);
    let empty = String::new();
    let st: &str = match status_out {
        Ok(t) => t.as_str(),
        Err(_) => empty.as_str(),
    };
    let (modified, untracked, staged) = parse_porcelain(st);
    let (ahead, behind) = match ab_out {
        Some(Ok(t)) => parse_ahead_behind(t.as_str()),
        _ => (0, 0),
    };
    GitStatus { is_repo: true, head, branch, modified, untracked, staged, ahead, behind, remote_url }
}


// ---------------------------------------------------------------------------
// Log
// ---------------------------------------------------------------------------

/// The format of one commit: full hash, short hash, subject, author name,
/// author email and commit time, one per line.
pub const LOG_FORMAT: &'static str = "%H%n%h%n%s%n%an%n%ae%n%ct";

/// A log entry as values.
pub struct LogEntryView {
    pub id: Seq<char>,
    pub full_id: Seq<char>,
    pub summary: Seq<char>,
    pub author: Seq<char>,
    pub email: Seq<char>,
    pub timestamp: i64,
    pub files_changed: nat,
}

impl View for GitLogEntry {
    type V = LogEntryView;

    open spec fn view(&self) -> LogEntryView {
        LogEntryView {
            id: self.id@,
            full_id: self.full_id@,
            summary: self.summary@,
            author: self.author@,
            email: self.email@,
            timestamp: self.timestamp,
            files_changed: self.files_changed as nat,
        }
    }
}

/// The pieces of `s` between the non-overlapping occurrences of `p` (not
/// empty) found from `i` on, as `str::split`.
pub open spec fn split_str_from(s: Seq<char>, p: Seq<char>, i: int) -> Seq<Seq<char>>
    decreases s.len() - i,
{
    if i < 0 || i > s.len() || p.len() == 0 {
        seq![s.skip(i)]
    } else {
        match crate::text::find_sub_from(s, p, i) {
            Some(k) => if k < i || k + p.len() > s.len() {
                seq![s.skip(i)]
            } else {
                seq![s.subrange(i, k)] + split_str_from(s, p, k + p.len())
            },
            None => seq![s.skip(i)],
        }
    }
}

/// The pieces that are not empty.
pub open spec fn nonempty_pieces(ps: Seq<Seq<char>>) -> Seq<Seq<char>>
    decreases ps.len(),
{
    if ps.len() == 0 {
        Seq::empty()
    } else if ps.last().len() == 0 {
        nonempty_pieces(ps.drop_last())
    } else {
        nonempty_pieces(ps.drop_last()).push(ps.last())
    }
}

/// The value of a commit time line (0 when it is not a number).
pub open spec fn time_of(l: Seq<char>) -> i64 {
    match parse_i64_of(l) {
        Some(t) => t,
        None => 0,
    }
}

/// The entries of `git log` output in `LOG_FORMAT`: commits are separated by
/// blank lines, and a commit of fewer than six lines is skipped.
pub open spec fn log_entries(chunks: Seq<Seq<char>>) -> Seq<LogEntryView>
    decreases chunks.len(),
{
    if chunks.len() == 0 {
        Seq::empty()
    } else {
        let rest = log_entries(chunks.drop_last());
        let ls = lines_of(chunks.last());
        if ls.len() < 6 {
            rest
        } else {
            rest.push(
                LogEntryView {
                    id: ls[1],
                    full_id: ls[0],
                    summary: ls[2],
                    author: ls[3],
                    email: ls[4],
                    timestamp: time_of(ls[5]),
                    files_changed: 0,
                },
            )
        }
    }
}

pub open spec fn log_views(es: Seq<GitLogEntry>) -> Seq<LogEntryView> {
    es.map_values(|e: GitLogEntry| e@)
}

/// The `git log` arguments for the last `limit` commits.
pub open spec fn log_args_of(limit: usize) -> Seq<Seq<char>> {
    seq!["log"@, seq!['-'] + dec(limit as nat), "--format="@ + LOG_FORMAT@]
}

/// The arguments of `git log` for the last `limit` commits.
pub fn log_args(limit: usize) -> (r: Vec<String>)
    ensures
        str_views(r@) == log_args_of(limit),
{
    let mut n: Vec<char> = Vec::new();
    n.push('-');
    push_dec(&mut n, limit as u64);
    let mut f: Vec<char> = Vec::new();
    extend_str(&mut f, "--format=");
    extend_str(&mut f, LOG_FORMAT);
    let mut a: Vec<String> = Vec::new();
    a.push("log".to_owned());
    a.push(string_of(&n));
    a.push(string_of(&f));
    assert(n@ =~= seq!['-'] + dec(limit as nat));
    assert(str_views(a@) =~= log_args_of(limit));
    a
}

proof fn lemma_find_sub_from(s: Seq<char>, p: Seq<char>, i: int)
    ensures
        match crate::text::find_sub_from(s, p, i) {
            Some(k) => i <= k && k + p.len() <= s.len(),
            None => true,
        },
    decreases s.len() + 1 - i,
{
    if !(i < 0 || i + p.len() > s.len()) && !crate::text::occurs_at(s, p, i) {
        lemma_find_sub_from(s, p, i + 1);
    }
}

/// The pieces of `v` split at blank-line separators (`\n\n`), as ranges.
fn chunk_ranges(v: &Vec<char>) -> (r: Vec<(usize, usize)>)
    ensures
        r@.len() == split_str_from(v@, seq!['\n', '\n'], 0).len(),
        forall|k: int|
            0 <= k < r@.len() ==> (#[trigger] r@[k]).0 <= r@[k].1 <= v@.len() && v@.subrange(
                r@[k].0 as int,
                r@[k].1 as int,
            ) == split_str_from(v@, seq!['\n', '\n'], 0)[k],
{
    let ghost p = seq!['\n', '\n'];
    let sep: Vec<char> = vec!['\n', '\n'];
    assert(sep@ =~= p);
    let n = v.len();
    let ghost all = split_str_from(v@, p, 0);
    let ghost mut done: Seq<Seq<char>> = Seq::empty();
    let mut out: Vec<(usize, usize)> = Vec::new();
    let mut i: usize = 0;
    assert(v@.subrange(0, n as int) =~= v@);
    loop
        invariant
            i <= n == v@.len(),
            sep@ == p,
            p == seq!['\n', '\n'],
            all == split_str_from(v@, p, 0),
            all == done + split_str_from(v@, p, i as int),
            out@.len() == done.len(),
            forall|k: int|
                0 <= k < out@.len() ==> (#[trigger] out@[k]).0 <= out@[k].1 <= v@.len()
                    && v@.subrange(out@[k].0 as int, out@[k].1 as int) == done[k],
        decreases n - i,
    {
        proof {
            lemma_find_sub_from(v@, p, i as int);
        }
        match crate::text::find_sub_exec(v, n, &sep, i) {
            Some(k) => {
                proof {
                    assert(v@.subrange(0, n as int) =~= v@);
                    done = done.push(v@.subrange(i as int, k as int));
                }
                out.push((i, k));
                i = k + 2;
            },
            None => {
                proof {
                    assert(v@.subrange(0, n as int) =~= v@);
                    assert(v@.skip(i as int) =~= v@.subrange(i as int, n as int));
                    done = done.push(v@.subrange(i as int, n as int));
                }
                out.push((i, n));
                assert(all =~= done);
                return out;
            },
        }
    }
}

/// The commits of `git log` output in `LOG_FORMAT`, newest first.
pub fn parse_log(out: &str) -> (r: Vec<GitLogEntry>)
    ensures
        log_views(r@) == log_entries(nonempty_pieces(split_str_from(out@, seq!['\n', '\n'], 0))),
{
    let v = chars_of(out);
    let cs = chunk_ranges(&v);
    let ghost pieces = split_str_from(v@, seq!['\n', '\n'], 0);
    let ghost mut kept: Seq<Seq<char>> = Seq::empty();
    let mut entries: Vec<GitLogEntry> = Vec::new();
    let mut k: usize = 0;
    while k < cs.len()
        invariant
            k <= cs@.len() == pieces.len(),
            v@ == out@,
            pieces == split_str_from(v@, seq!['\n', '\n'], 0),
            forall|j: int|
                0 <= j < cs@.len() ==> (#[trigger] cs@[j]).0 <= cs@[j].1 <= v@.len() && v@.subrange(
                    cs@[j].0 as int,
                    cs@[j].1 as int,
                ) == pieces[j],
            kept == nonempty_pieces(pieces.take(k as int)),
            log_views(entries@) == log_entries(kept),
        decreases cs.len() - k,
    {
        let (lo, hi) = cs[k];
        assert(pieces.take(k + 1).drop_last() =~= pieces.take(k as int));
        assert(pieces.take(k + 1).last() == pieces[k as int]);
        if lo < hi {
            let mut chunk: Vec<char> = Vec::new();
            extend_range(&mut chunk, &v, lo, hi);
            let ghost c = pieces[k as int];
            assert(chunk@ =~= c);
            let ls = line_ranges(&chunk);
            let ghost lv = lines_of(c);
            proof {
                assert(kept.push(c).drop_last() =~= kept);
                kept = kept.push(c);
            }
            if ls.len() >= 6 {
                let (a0, b0) = ls[0];
                let (a1, b1) = ls[1];
                let (a2, b2) = ls[2];
                let (a3, b3) = ls[3];
                let (a4, b4) = ls[4];
                let (a5, b5) = ls[5];
                let ts = match parse_i64(string_of_range(&chunk, a5, b5).as_str()) {
                    Some(t) => t,
                    None => 0,
                };
                let e = GitLogEntry {
                    id: string_of_range(&chunk, a1, b1),
                    full_id: string_of_range(&chunk, a0, b0),
                    summary: string_of_range(&chunk, a2, b2),
                    author: string_of_range(&chunk, a3, b3),
                    email: string_of_range(&chunk, a4, b4),
                    timestamp: ts,
                    files_changed: 0,
                };
                let ghost before = log_views(entries@);
                entries.push(e);
                assert(log_views(entries@) =~= before.push(e@));
            }
        } else {
            assert(pieces[k as int].len() == 0);
        }
        k = k + 1;
    }
    assert(pieces.take(cs.len() as int) =~= pieces);
    entries
}

// ---------------------------------------------------------------------------
// Steps of commands that take several git calls
// ---------------------------------------------------------------------------

/// What to do next: run git with these arguments, or stop with a result.
pub enum GitAction<T> {
    Run(Vec<String>),
    Done(T),
}

/// The action runs git with the arguments `args`.
pub open spec fn runs<T>(a: GitAction<T>, args: Seq<Seq<char>>) -> bool {
    a matches GitAction::Run(v) && str_views(v@) == args
}

/// The arguments that ask whether the folder is a repository.
pub open spec fn probe_args() -> Seq<Seq<char>> {
    seq!["rev-parse"@, "--git-dir"@]
}

/// The arguments that give the short hash of `HEAD`.
pub open spec fn head_args() -> Seq<Seq<char>> {
    seq!["rev-parse"@, "--short"@, "HEAD"@]
}

fn args2(a: &str, b: &str) -> (r: Vec<String>)
    ensures
        str_views(r@) == seq![a@, b@],
{
    let mut v: Vec<String> = Vec::new();
    v.push(a.to_owned());
    v.push(b.to_owned());
    assert(str_views(v@) =~= seq![a@, b@]);
    v
}

fn args3(a: &str, b: &str, c: &str) -> (r: Vec<String>)
    ensures
        str_views(r@) == seq![a@, b@, c@],
{
    let mut v: Vec<String> = Vec::new();
    v.push(a.to_owned());
    v.push(b.to_owned());
    v.push(c.to_owned());
    assert(str_views(v@) =~= seq![a@, b@, c@]);
    v
}

/// The steps of committing one saved note.
#[derive(Clone, Copy, Debug)]
pub enum AutoCommitStep {
    /// Asking whether the vault is a repository.
    Probe,
    /// Staging the note.
    Stage,
    /// Listing what is staged.
    Staged,
    /// Committing.
    Commit,
    /// Reading the new `HEAD`.
    Head,
}

/// The first call of an automatic commit.
pub fn auto_commit_start() -> (r: (AutoCommitStep, GitAction<Option<String>>))
    ensures
        r.0 is Probe,
        runs(r.1, probe_args()),
{
    (AutoCommitStep::Probe, GitAction::Run(args2("rev-parse", "--git-dir")))
}

/// The next step of an automatic commit of the note at `note_path`, given
/// the reply of the call made at `step`. Nothing is committed outside a
/// repository or when nothing is staged; the result is the new short hash.
pub fn auto_commit_next(step: AutoCommitStep, note_path: &str, reply: &Result<String, String>) -> (r: (
    AutoCommitStep,
    GitAction<Option<String>>,
))
    ensures
        match step {
            AutoCommitStep::Probe => match reply {
                Ok(_) => r.0 is Stage && runs(r.1, seq!["add"@, note_path@]),
                Err(_) => r.1 matches GitAction::Done(x) && x is None,
            },
            AutoCommitStep::Stage => r.0 is Staged && runs(
                r.1,
                seq!["diff"@, "--cached"@, "--name-only"@],
            ),
            AutoCommitStep::Staged => {
                let out = match ok_text(*reply) {
                    Some(t) => t,
                    None => Seq::empty(),
                };
                if trim(out).len() == 0 {
                    r.1 matches GitAction::Done(x) && x is None
                } else {
                    r.0 is Commit && runs(r.1, seq!["commit"@, "-m"@, "Update "@ + note_path@])
                }
            },
            AutoCommitStep::Commit => r.0 is Head && runs(r.1, head_args()),
            AutoCommitStep::Head => r.1 matches GitAction::Done(x) && opt_view(x) == trimmed_out(
                ok_text(*reply),
            ),
        },
{
    match step {
        AutoCommitStep::Probe => match reply {
            Ok(_) => (AutoCommitStep::Stage, GitAction::Run(args2("add", note_path))),
            Err(_) => (AutoCommitStep::Probe, GitAction::Done(None)),
        },
        AutoCommitStep::Stage => (
            AutoCommitStep::Staged,
            GitAction::Run(args3("diff", "--cached", "--name-only")),
        ),
        AutoCommitStep::Staged => {
            let empty = String::new();
            let out: &String = match reply {
                Ok(t) => t,
                Err(_) => &empty,
            };
            let t = trimmed(out);
            if t.as_str().is_empty() {
                (AutoCommitStep::Staged, GitAction::Done(None))
            } else {
                let msg = crate::text::concat("Update ", note_path);
                (AutoCommitStep::Commit, GitAction::Run(args3("commit", "-m", msg.as_str())))
            }
        },
        AutoCommitStep::Commit => (
            AutoCommitStep::Head,
            GitAction::Run(args3("rev-parse", "--short", "HEAD")),
        ),
        AutoCommitStep::Head => match reply {
            Ok(t) => (AutoCommitStep::Head, GitAction::Done(Some(trimmed(t)))),
            Err(_) => (AutoCommitStep::Head, GitAction::Done(None)),
        },
    }
}

/// The steps of committing everything with a message.
#[derive(Clone, Debug)]
pub enum CommitStep {
    Probe,
    StageAll,
    Commit,
    Log,
    /// Counting the files of the commit whose log lines are kept here.
    Files(String),
}

/// The entry of a new commit, from `git log -1` output in `LOG_FORMAT` and
/// the `diff-tree` listing of its files (missing lines read as empty).
pub open spec fn commit_entry_of(log: Seq<char>, files: Option<Seq<char>>) -> LogEntryView {
    let ls = lines_of(log);
    let at = |i: int| if i < ls.len() {
        ls[i]
    } else {
        Seq::<char>::empty()
    };
    LogEntryView {
        id: at(1),
        full_id: at(0),
        summary: at(2),
        author: at(3),
        email: at(4),
        timestamp: if ls.len() > 5 {
            time_of(ls[5])
        } else {
            0
        },
        files_changed: match files {
            Some(f) => lines_of(f).len(),
            None => 0,
        },
    }
}

fn line_or_empty(v: &Vec<char>, ls: &Vec<(usize, usize)>, i: usize) -> (r: String)
    requires
        forall|k: int|
            0 <= k < ls@.len() ==> (#[trigger] ls@[k]).0 <= ls@[k].1 <= v@.len() && v@.subrange(
                ls@[k].0 as int,
                ls@[k].1 as int,
            ) == lines_of(v@)[k],
        ls@.len() == lines_of(v@).len(),
    ensures
        r@ == if i < lines_of(v@).len() {
            lines_of(v@)[i as int]
        } else {
            Seq::<char>::empty()
        },
{
    if i < ls.len() {
        let (a, b) = ls[i];
        string_of_range(v, a, b)
    } else {
        String::new()
    }
}

/// The entry of a commit from its log lines and its file listing.
pub fn commit_entry(log: &str, files: &Result<String, String>) -> (r: GitLogEntry)
    ensures
        r@ == commit_entry_of(log@, ok_text(*files)),
{
    let v = chars_of(log);
    let ls = line_ranges(&v);
    let ts = if ls.len() > 5 {
        let (a, b) = ls[5];
        match parse_i64(string_of_range(&v, a, b).as_str()) {
            Some(t) => t,
            None => 0,
        }
    } else {
        0
    };
    let n = match files {
        Ok(f) => {
            let fv = chars_of(f.as_str());
            line_ranges(&fv).len()
        },
        Err(_) => 0,
    };
    GitLogEntry {
        id: line_or_empty(&v, &ls, 1),
        full_id: line_or_empty(&v, &ls, 0),
        summary: line_or_empty(&v, &ls, 2),
        author: line_or_empty(&v, &ls, 3),
        email: line_or_empty(&v, &ls, 4),
        timestamp: ts,
        files_changed: n,
    }
}

/// The first call of a commit.
pub fn commit_start() -> (r: (CommitStep, GitAction<Result<GitLogEntry, VaultError>>))
    ensures
        r.0 is Probe,
        runs(r.1, probe_args()),
{
    (CommitStep::Probe, GitAction::Run(args2("rev-parse", "--git-dir")))
}

/// The next step of a commit with `message`, given the reply of the call
/// made at `step`: a failing call ends the commit with its error.
pub fn commit_next(step: CommitStep, message: &str, reply: Result<String, String>) -> (r: (
    CommitStep,
    GitAction<Result<GitLogEntry, VaultError>>,
))
    ensures
        match step {
            CommitStep::Probe => match reply {
                Ok(_) => r.0 is StageAll && runs(r.1, seq!["add"@, "-A"@]),
                Err(_) => r.1 matches GitAction::Done(Err(VaultError::Other(m))) && m@
                    == "Not a git repo"@,
            },
            CommitStep::StageAll => match reply {
                Ok(_) => r.0 is Commit && runs(r.1, seq!["commit"@, "-m"@, message@]),
                Err(e) => r.1 matches GitAction::Done(Err(VaultError::Other(m))) && m@ == e@,
            },
            CommitStep::Commit => match reply {
                Ok(_) => r.0 is Log && runs(r.1, seq!["log"@, "-1"@, "--format="@ + LOG_FORMAT@]),
                Err(e) => r.1 matches GitAction::Done(Err(VaultError::Other(m))) && m@ == e@,
            },
            CommitStep::Log => match reply {
                Ok(out) => r.0 matches CommitStep::Files(kept) && kept@ == out@ && runs(
                    r.1,
                    seq![
                        "diff-tree"@,
                        "--no-commit-id"@,
                        "--name-only"@,
                        "-r"@,
                        commit_entry_of(out@, None).full_id,
                    ],
                ),
                Err(e) => r.1 matches GitAction::Done(Err(VaultError::Other(m))) && m@ == e@,
            },
            CommitStep::Files(log) => r.1 matches GitAction::Done(Ok(entry)) && entry@
                == commit_entry_of(log@, ok_text(reply)),
        },
{
    match step {
        CommitStep::Probe => match reply {
            Ok(_) => (CommitStep::StageAll, GitAction::Run(args2("add", "-A"))),
            Err(_) => (
                CommitStep::Probe,
                GitAction::Done(Err(VaultError::Other("Not a git repo".to_owned()))),
            ),
        },
        CommitStep::StageAll => match reply {
            Ok(_) => (CommitStep::Commit, GitAction::Run(args3("commit", "-m", message))),
            Err(e) => (CommitStep::StageAll, GitAction::Done(Err(VaultError::Other(e)))),
        },
        CommitStep::Commit => match reply {
            Ok(_) => {
                let f = crate::text::concat("--format=", LOG_FORMAT);
                (CommitStep::Log, GitAction::Run(args3("log", "-1", f.as_str())))
            },
            Err(e) => (CommitStep::Commit, GitAction::Done(Err(VaultError::Other(e)))),
        },
        CommitStep::Log => match reply {
            Ok(out) => {
                let v = chars_of(out.as_str());
                let ls = line_ranges(&v);
                let full = line_or_empty(&v, &ls, 0);
                let mut a: Vec<String> = Vec::new();
                a.push("diff-tree".to_owned());
                a.push("--no-commit-id".to_owned());
                a.push("--name-only".to_owned());
                a.push("-r".to_owned());
                a.push(full);
                assert(str_views(a@) =~= seq![
                    "diff-tree"@,
                    "--no-commit-id"@,
                    "--name-only"@,
                    "-r"@,
                    commit_entry_of(out@, None).full_id,
                ]);
                (CommitStep::Files(out), GitAction::Run(a))
            },
            Err(e) => (CommitStep::Log, GitAction::Done(Err(VaultError::Other(e)))),
        },
        CommitStep::Files(log) => {
            let entry = commit_entry(log.as_str(), &reply);
            (CommitStep::Files(log), GitAction::Done(Ok(entry)))
        },
    }
}

/// What `git init` sets up: the ignore file written into a new repository.
pub const GITIGNORE: &'static str = ".notevault/\n.config/\n*.tmp\n.DS_Store\nThumbs.db\n";

} // verus!
