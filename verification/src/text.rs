//! Character-sequence utilities shared by the note parsers.
//!
//! Strings are modelled by their views, sequences of `char`. The parsers
//! read a note once into a `Vec<char>` and then work on index ranges of it.

use vstd::prelude::*;
use vstd::utf8::encode_utf8;

verus! {

// ---------------------------------------------------------------------------
// Whitespace and trimming
// ---------------------------------------------------------------------------

/// Unicode `White_Space`: the set of characters that `str::trim` removes.
pub open spec fn is_ws(c: char) -> bool {
    let u = c as u32;
    (9 <= u && u <= 13) || u == 32 || u == 0x85 || u == 0xa0 || u == 0x1680
        || (0x2000 <= u && u <= 0x200a) || u == 0x2028 || u == 0x2029 || u == 0x202f
        || u == 0x205f || u == 0x3000
}

/// Number of whitespace characters at the front of `s`.
pub open spec fn lead_ws(s: Seq<char>) -> nat
    decreases s.len(),
{
    if s.len() > 0 && is_ws(s[0]) {
        1 + lead_ws(s.drop_first())
    } else {
        0
    }
}

/// Number of whitespace characters at the back of `s`.
pub open spec fn trail_ws(s: Seq<char>) -> nat
    decreases s.len(),
{
    if s.len() > 0 && is_ws(s.last()) {
        1 + trail_ws(s.drop_last())
    } else {
        0
    }
}

pub open spec fn trim_start(s: Seq<char>) -> Seq<char> {
    s.skip(lead_ws(s) as int)
}

pub open spec fn trim_end(s: Seq<char>) -> Seq<char> {
    s.take(s.len() - trail_ws(s))
}

pub open spec fn trim(s: Seq<char>) -> Seq<char> {
    trim_end(trim_start(s))
}

/// A line that holds nothing but whitespace.
pub open spec fn is_blank(s: Seq<char>) -> bool {
    forall|i: int| 0 <= i < s.len() ==> is_ws(#[trigger] s[i])
}

pub proof fn lemma_lead_ws(s: Seq<char>)
    ensures
        lead_ws(s) <= s.len(),
        forall|i: int| 0 <= i < lead_ws(s) ==> is_ws(#[trigger] s[i]),
        lead_ws(s) < s.len() ==> !is_ws(s[lead_ws(s) as int]),
    decreases s.len(),
{
    if s.len() > 0 && is_ws(s[0]) {
        lemma_lead_ws(s.drop_first());
        assert forall|i: int| 0 <= i < lead_ws(s) implies is_ws(#[trigger] s[i]) by {
            if i > 0 {
                assert(s[i] == s.drop_first()[i - 1]);
            }
        }
    }
}

pub proof fn lemma_trail_ws(s: Seq<char>)
    ensures
        trail_ws(s) <= s.len(),
        forall|i: int| s.len() - trail_ws(s) <= i < s.len() ==> is_ws(#[trigger] s[i]),
        trail_ws(s) < s.len() ==> !is_ws(s[s.len() - trail_ws(s) - 1]),
    decreases s.len(),
{
    if s.len() > 0 && is_ws(s.last()) {
        lemma_trail_ws(s.drop_last());
        assert forall|i: int| s.len() - trail_ws(s) <= i < s.len() implies is_ws(
            #[trigger] s[i],
        ) by {
            if i < s.len() - 1 {
                assert(s[i] == s.drop_last()[i]);
            }
        }
    }
}

/// A trimmed text is no longer than the text, and trimming it again changes
/// nothing.
pub proof fn lemma_trim_trimmed(s: Seq<char>)
    ensures
        trim(s).len() <= s.len(),
        trim(trim(s)) == trim(s),
{
    lemma_lead_ws(s);
    let u = trim_start(s);
    lemma_trail_ws(u);
    let t = trim(s);
    if t.len() > 0 {
        assert(t[0] == s[lead_ws(s) as int]);
        assert(t.last() == u[u.len() - trail_ws(u) - 1]);
        assert(lead_ws(t) == 0);
        assert(trail_ws(t) == 0);
        assert(trim(t) =~= t);
    } else {
        assert(trim(t) =~= t);
    }
}

/// The whitespace-only lines are exactly those whose trim is empty.
pub proof fn lemma_blank_iff_trim_empty(s: Seq<char>)
    ensures
        is_blank(s) <==> trim(s).len() == 0,
        is_blank(s) <==> lead_ws(s) == s.len(),
{
    lemma_lead_ws(s);
    lemma_trail_ws(trim_start(s));
    if lead_ws(s) < s.len() {
        assert(!is_ws(s[lead_ws(s) as int]));
        assert(trim_start(s)[0] == s[lead_ws(s) as int]);
        if trail_ws(trim_start(s)) == trim_start(s).len() {
            assert(is_ws(trim_start(s)[0]));
        }
    }
}

/// Unicode whitespace test, as `char::is_whitespace`.
pub fn is_ws_char(c: char) -> (b: bool)
    ensures
        b == is_ws(c),
{
    let u = c as u32;
    (9 <= u && u <= 13) || u == 32 || u == 0x85 || u == 0xa0 || u == 0x1680 || (0x2000 <= u
        && u <= 0x200a) || u == 0x2028 || u == 0x2029 || u == 0x202f || u == 0x205f || u
        == 0x3000
}

/// First index in `lo..hi` that does not hold whitespace (or `hi`).
pub fn skip_ws(v: &Vec<char>, lo: usize, hi: usize) -> (t: usize)
    requires
        lo <= hi <= v.len(),
    ensures
        lo <= t <= hi,
        t == lo + lead_ws(v@.subrange(lo as int, hi as int)),
        trim_start(v@.subrange(lo as int, hi as int)) == v@.subrange(t as int, hi as int),
{
    let mut t = lo;
    while t < hi && is_ws_char(v[t])
        invariant
            lo <= t <= hi <= v.len(),
            lead_ws(v@.subrange(lo as int, hi as int)) == (t - lo) + lead_ws(
                v@.subrange(t as int, hi as int),
            ),
        decreases hi - t,
    {
        assert(v@.subrange(t as int, hi as int).drop_first() =~= v@.subrange(
            t + 1,
            hi as int,
        ));
        t = t + 1;
    }
    assert(v@.subrange(lo as int, hi as int).skip(t - lo) =~= v@.subrange(t as int, hi as int));
    t
}

/// One past the last index in `lo..hi` that does not hold whitespace (or `lo`).
pub fn back_ws(v: &Vec<char>, lo: usize, hi: usize) -> (t: usize)
    requires
        lo <= hi <= v.len(),
    ensures
        lo <= t <= hi,
        t == hi - trail_ws(v@.subrange(lo as int, hi as int)),
        trim_end(v@.subrange(lo as int, hi as int)) == v@.subrange(lo as int, t as int),
{
    let mut t = hi;
    while t > lo && is_ws_char(v[t - 1])
        invariant
            lo <= t <= hi <= v.len(),
            trail_ws(v@.subrange(lo as int, hi as int)) == (hi - t) + trail_ws(
                v@.subrange(lo as int, t as int),
            ),
        decreases t - lo,
    {
        assert(v@.subrange(lo as int, t as int).drop_last() =~= v@.subrange(
            lo as int,
            t - 1,
        ));
        t = t - 1;
    }
    assert(v@.subrange(lo as int, hi as int).take(t - lo) =~= v@.subrange(lo as int, t as int));
    t
}

/// The bounds of the trimmed range `lo..hi`.
pub fn trim_range(v: &Vec<char>, lo: usize, hi: usize) -> (r: (usize, usize))
    requires
        lo <= hi <= v.len(),
    ensures
        lo <= r.0 <= r.1 <= hi,
        trim(v@.subrange(lo as int, hi as int)) == v@.subrange(r.0 as int, r.1 as int),
        trim_start(v@.subrange(lo as int, hi as int)) == v@.subrange(r.0 as int, hi as int),
{
    let a = skip_ws(v, lo, hi);
    let b = back_ws(v, a, hi);
    (a, b)
}

/// Whether the range `lo..hi` holds only whitespace.
pub fn is_blank_range(v: &Vec<char>, lo: usize, hi: usize) -> (b: bool)
    requires
        lo <= hi <= v.len(),
    ensures
        b == is_blank(v@.subrange(lo as int, hi as int)),
{
    let t = skip_ws(v, lo, hi);
    proof {
        lemma_blank_iff_trim_empty(v@.subrange(lo as int, hi as int));
    }
    t == hi
}

// ---------------------------------------------------------------------------
// Prefixes and searching
// ---------------------------------------------------------------------------

pub open spec fn starts_with(s: Seq<char>, p: Seq<char>) -> bool {
    p.len() <= s.len() && s.take(p.len() as int) == p
}

pub open spec fn ends_with(s: Seq<char>, p: Seq<char>) -> bool {
    p.len() <= s.len() && s.skip(s.len() - p.len()) == p
}

/// Whether `v[at..hi]` starts with `p`.
pub fn range_starts_with(v: &Vec<char>, at: usize, hi: usize, p: &[char]) -> (b: bool)
    requires
        at <= hi <= v.len(),
    ensures
        b == starts_with(v@.subrange(at as int, hi as int), p@),
{
    if p.len() > hi - at {
        return false;
    }
    let mut k: usize = 0;
    while k < p.len()
        invariant
            k <= p.len(),
            at + p.len() <= hi <= v.len(),
            forall|j: int| 0 <= j < k ==> v@[at + j] == p@[j],
        decreases p.len() - k,
    {
        if v[at + k] != p[k] {
            assert(v@.subrange(at as int, hi as int).take(p.len() as int)[k as int] != p@[k as int]);
            return false;
        }
        k = k + 1;
    }
    assert(v@.subrange(at as int, hi as int).take(p.len() as int) =~= p@);
    true
}

/// First position of `c` in `s`, if any.
pub open spec fn find_char(s: Seq<char>, c: char) -> Option<int>
    decreases s.len(),
{
    if s.len() == 0 {
        None
    } else if s[0] == c {
        Some(0)
    } else {
        match find_char(s.drop_first(), c) {
            Some(i) => Some(i + 1),
            None => None,
        }
    }
}

pub proof fn lemma_find_char(s: Seq<char>, c: char)
    ensures
        match find_char(s, c) {
            Some(i) => 0 <= i < s.len() && s[i] == c && forall|j: int| 0 <= j < i ==> s[j] != c,
            None => forall|j: int| 0 <= j < s.len() ==> s[j] != c,
        },
    decreases s.len(),
{
    if s.len() > 0 && s[0] != c {
        lemma_find_char(s.drop_first(), c);
        match find_char(s.drop_first(), c) {
            Some(i) => {
                assert forall|j: int| 0 <= j < i + 1 implies s[j] != c by {
                    if j > 0 {
                        assert(s[j] == s.drop_first()[j - 1]);
                    }
                }
            },
            None => {
                assert forall|j: int| 0 <= j < s.len() implies s[j] != c by {
                    if j > 0 {
                        assert(s[j] == s.drop_first()[j - 1]);
                    }
                }
            },
        }
    }
}

/// The characterisation of `find_char` by the first occurrence.
pub proof fn lemma_find_char_is(s: Seq<char>, c: char, i: int)
    requires
        0 <= i <= s.len(),
        forall|j: int| 0 <= j < i ==> s[j] != c,
        i < s.len() ==> s[i] == c,
    ensures
        find_char(s, c) == (if i < s.len() { Some(i) } else { None::<int> }),
{
    lemma_find_char(s, c);
}

/// Index of the first `c` in `v[lo..hi]`, or `hi`.
pub fn find_char_in(v: &Vec<char>, lo: usize, hi: usize, c: char) -> (r: usize)
    requires
        lo <= hi <= v.len(),
    ensures
        lo <= r <= hi,
        forall|j: int| lo <= j < r ==> v@[j] != c,
        r < hi ==> v@[r as int] == c,
        find_char(v@.subrange(lo as int, hi as int), c) == (if r < hi {
            Some(r - lo)
        } else {
            None::<int>
        }),
{
    let mut r = lo;
    while r < hi && v[r] != c
        invariant
            lo <= r <= hi <= v.len(),
            forall|j: int| lo <= j < r ==> v@[j] != c,
        decreases hi - r,
    {
        r = r + 1;
    }
    proof {
        lemma_find_char_is(v@.subrange(lo as int, hi as int), c, r - lo);
    }
    r
}


// ---------------------------------------------------------------------------
// Substrings
// ---------------------------------------------------------------------------

/// `p` occurs in `s` at index `i`.
pub open spec fn occurs_at(s: Seq<char>, p: Seq<char>, i: int) -> bool {
    0 <= i && i + p.len() <= s.len() && s.subrange(i, i + p.len()) == p
}

/// First index from `i` on where `p` occurs in `s`.
pub open spec fn find_sub_from(s: Seq<char>, p: Seq<char>, i: int) -> Option<int>
    decreases s.len() + 1 - i,
{
    if i < 0 || i + p.len() > s.len() {
        None
    } else if occurs_at(s, p, i) {
        Some(i)
    } else {
        find_sub_from(s, p, i + 1)
    }
}

/// First index where `p` occurs in `s`, as `str::find`.
pub open spec fn find_sub(s: Seq<char>, p: Seq<char>) -> Option<int> {
    find_sub_from(s, p, 0)
}

/// Last index of `c` in `s`, as `str::rfind`.
pub open spec fn rfind_char(s: Seq<char>, c: char) -> Option<int>
    decreases s.len(),
{
    if s.len() == 0 {
        None
    } else if s.last() == c {
        Some(s.len() - 1)
    } else {
        rfind_char(s.drop_last(), c)
    }
}

/// `s` with every trailing repetition of `p` removed, as `str::trim_end_matches`.
pub open spec fn strip_suffix_all(s: Seq<char>, p: Seq<char>) -> Seq<char>
    decreases s.len(),
{
    if p.len() > 0 && ends_with(s, p) {
        strip_suffix_all(s.take(s.len() - p.len()), p)
    } else {
        s
    }
}

/// `s` with every leading repetition of `c` removed, as `str::trim_start_matches`.
pub open spec fn strip_prefix_char(s: Seq<char>, c: char) -> Seq<char>
    decreases s.len(),
{
    if s.len() > 0 && s[0] == c {
        strip_prefix_char(s.drop_first(), c)
    } else {
        s
    }
}

/// Whether `p` occurs in `v` at `i`, within `v[..hi]`.
pub fn occurs_at_exec(v: &Vec<char>, hi: usize, p: &Vec<char>, i: usize) -> (b: bool)
    requires
        hi <= v.len(),
    ensures
        b == occurs_at(v@.subrange(0, hi as int), p@, i as int),
{
    if i > hi || p.len() > hi - i {
        return false;
    }
    let mut k: usize = 0;
    while k < p.len()
        invariant
            k <= p.len(),
            i + p.len() <= hi <= v.len(),
            forall|j: int| 0 <= j < k ==> v@[i + j] == p@[j],
        decreases p.len() - k,
    {
        if v[i + k] != p[k] {
            assert(v@.subrange(0, hi as int).subrange(i as int, i + p.len())[k as int] != p@[k as int]);
            return false;
        }
        k = k + 1;
    }
    assert(v@.subrange(0, hi as int).subrange(i as int, i + p.len()) =~= p@);
    true
}

/// First index `>= from` where `p` occurs in `v[..hi]`.
pub fn find_sub_exec(v: &Vec<char>, hi: usize, p: &Vec<char>, from: usize) -> (r: Option<usize>)
    requires
        hi <= v.len(),
        from <= hi,
    ensures
        match r {
            Some(i) => find_sub_from(v@.subrange(0, hi as int), p@, from as int) == Some(i as int),
            None => find_sub_from(v@.subrange(0, hi as int), p@, from as int) is None,
        },
{
    let ghost s = v@.subrange(0, hi as int);
    let mut i = from;
    while i <= hi && p.len() <= hi - i
        invariant
            from <= i,
            hi <= v.len(),
            s == v@.subrange(0, hi as int),
            find_sub_from(s, p@, from as int) == find_sub_from(s, p@, i as int),
        decreases hi + 1 - i,
    {
        if occurs_at_exec(v, hi, p, i) {
            return Some(i);
        }
        if i >= hi {
            assert(s.subrange(i as int, i + p@.len()) =~= p@);
            return None;
        }
        i = i + 1;
    }
    None
}

/// Last index of `c` in `v[lo..hi]`, relative to `lo`.
pub fn rfind_char_exec(v: &Vec<char>, lo: usize, hi: usize, c: char) -> (r: Option<usize>)
    requires
        lo <= hi <= v.len(),
    ensures
        match r {
            Some(i) => rfind_char(v@.subrange(lo as int, hi as int), c) == Some(i as int) && i < hi - lo,
            None => rfind_char(v@.subrange(lo as int, hi as int), c) is None,
        },
{
    let mut k = hi;
    while k > lo && v[k - 1] != c
        invariant
            lo <= k <= hi <= v.len(),
            rfind_char(v@.subrange(lo as int, hi as int), c) == rfind_char(v@.subrange(lo as int, k as int), c),
        decreases k - lo,
    {
        assert(v@.subrange(lo as int, k as int).drop_last() =~= v@.subrange(lo as int, k - 1));
        k = k - 1;
    }
    if k == lo {
        None
    } else {
        Some(k - 1 - lo)
    }
}

/// End of `v[lo..hi]` once every trailing repetition of `p` is removed.
pub fn strip_suffix_all_exec(v: &Vec<char>, lo: usize, hi: usize, p: &Vec<char>) -> (r: usize)
    requires
        lo <= hi <= v.len(),
    ensures
        lo <= r <= hi,
        strip_suffix_all(v@.subrange(lo as int, hi as int), p@) == v@.subrange(lo as int, r as int),
{
    let mut e = hi;
    if p.len() == 0 {
        return hi;
    }
    while e - lo >= p.len() && occurs_at_exec(v, e, p, e - p.len()) && e > lo
        invariant
            lo <= e <= hi <= v.len(),
            p@.len() > 0,
            strip_suffix_all(v@.subrange(lo as int, hi as int), p@) == strip_suffix_all(
                v@.subrange(lo as int, e as int),
                p@,
            ),
        decreases e,
    {
        proof {
            let t = v@.subrange(lo as int, e as int);
            assert(t.skip(t.len() - p@.len()) =~= v@.subrange(0, e as int).subrange(
                e - p@.len(),
                e as int,
            ));
            assert(t.take(t.len() - p@.len()) =~= v@.subrange(lo as int, e - p@.len()));
        }
        e = e - p.len();
    }
    proof {
        let t = v@.subrange(lo as int, e as int);
        if e - lo >= p@.len() {
            assert(t.skip(t.len() - p@.len()) =~= v@.subrange(0, e as int).subrange(
                e - p@.len(),
                e as int,
            ));
        }
    }
    e
}

/// Start of `v[lo..hi]` once every leading `c` is removed.
pub fn strip_prefix_char_exec(v: &Vec<char>, lo: usize, hi: usize, c: char) -> (r: usize)
    requires
        lo <= hi <= v.len(),
    ensures
        lo <= r <= hi,
        strip_prefix_char(v@.subrange(lo as int, hi as int), c) == v@.subrange(r as int, hi as int),
{
    let mut k = lo;
    while k < hi && v[k] == c
        invariant
            lo <= k <= hi <= v.len(),
            strip_prefix_char(v@.subrange(lo as int, hi as int), c) == strip_prefix_char(
                v@.subrange(k as int, hi as int),
                c,
            ),
        decreases hi - k,
    {
        assert(v@.subrange(k as int, hi as int).drop_first() =~= v@.subrange(k + 1, hi as int));
        k = k + 1;
    }
    k
}

// ---------------------------------------------------------------------------
// Splitting on a separator character
// ---------------------------------------------------------------------------

/// The pieces of `s` between occurrences of `c`, as `str::split(c)`.
pub open spec fn split_char(s: Seq<char>, c: char) -> Seq<Seq<char>>
    decreases s.len(),
{
    if s.len() == 0 {
        seq![Seq::<char>::empty()]
    } else {
        let prev = split_char(s.drop_last(), c);
        if s.last() == c {
            prev.push(Seq::<char>::empty())
        } else {
            prev.update(prev.len() - 1, prev.last().push(s.last()))
        }
    }
}

pub proof fn lemma_split_char_len(s: Seq<char>, c: char)
    ensures
        split_char(s, c).len() >= 1,
    decreases s.len(),
{
    if s.len() > 0 {
        lemma_split_char_len(s.drop_last(), c);
    }
}

/// Ranges `(start, end)` of a sequence cut at every `c` of `s`.
pub open spec fn ranges_cut(s: Seq<char>, c: char, r: Seq<(usize, usize)>) -> bool {
    &&& r.len() == split_char(s, c).len()
    &&& forall|k: int|
        0 <= k < r.len() ==> {
            &&& (#[trigger] r[k]).0 <= r[k].1 <= s.len()
            &&& s.subrange(r[k].0 as int, r[k].1 as int) == split_char(s, c)[k]
        }
    &&& r[0].0 == 0
    &&& r.last().1 == s.len()
    &&& forall|k: int| 0 <= k < r.len() - 1 ==> #[trigger] r[k].1 + 1 == r[k + 1].0
    &&& forall|k: int| 0 <= k < r.len() - 1 ==> s[#[trigger] r[k].1 as int] == c
}

/// The ranges of the pieces of `v` cut at every `c`, as `str::split(c)`.
pub fn split_ranges(v: &Vec<char>, c: char) -> (r: Vec<(usize, usize)>)
    ensures
        ranges_cut(v@, c, r@),
{
    let mut r: Vec<(usize, usize)> = Vec::new();
    let mut start: usize = 0;
    let mut i: usize = 0;
    proof {
        assert(v@.take(0) =~= Seq::<char>::empty());
    }
    while i < v.len()
        invariant
            i <= v.len(),
            start <= i,
            r@.len() + 1 == split_char(v@.take(i as int), c).len(),
            forall|k: int|
                0 <= k < r@.len() ==> {
                    &&& (#[trigger] r@[k]).0 <= r@[k].1 < i
                    &&& v@.subrange(r@[k].0 as int, r@[k].1 as int) == split_char(
                        v@.take(i as int),
                        c,
                    )[k]
                },
            v@.subrange(start as int, i as int) == split_char(v@.take(i as int), c).last(),
            r@.len() > 0 ==> r@[0].0 == 0,
            r@.len() == 0 ==> start == 0,
            r@.len() > 0 ==> r@.last().1 + 1 == start,
            forall|k: int| 0 <= k < r@.len() - 1 ==> #[trigger] r@[k].1 + 1 == r@[k + 1].0,
            forall|k: int| 0 <= k < r@.len() ==> v@[#[trigger] r@[k].1 as int] == c,
        decreases v.len() - i,
    {
        let ghost old_r = r@;
        proof {
            lemma_split_char_len(v@.take(i as int), c);
            assert(v@.take(i + 1).drop_last() =~= v@.take(i as int));
            assert(v@.take(i + 1).last() == v@[i as int]);
        }
        if v[i] == c {
            r.push((start, i));
            start = i + 1;
            proof {
                assert(v@.subrange(start as int, i + 1) =~= Seq::<char>::empty());
                assert forall|k: int| 0 <= k < r@.len() implies {
                    &&& (#[trigger] r@[k]).0 <= r@[k].1 < i + 1
                    &&& v@.subrange(r@[k].0 as int, r@[k].1 as int) == split_char(
                        v@.take(i + 1),
                        c,
                    )[k]
                } by {
                    if k < old_r.len() {
                        assert(r@[k] == old_r[k]);
                    }
                }
            }
        } else {
            proof {
                assert(v@.subrange(start as int, i + 1) =~= v@.subrange(start as int, i as int).push(
                    v@[i as int],
                ));
                assert forall|k: int| 0 <= k < r@.len() implies {
                    &&& (#[trigger] r@[k]).0 <= r@[k].1 < i + 1
                    &&& v@.subrange(r@[k].0 as int, r@[k].1 as int) == split_char(
                        v@.take(i + 1),
                        c,
                    )[k]
                } by {
                    assert(r@[k] == old_r[k]);
                }
            }
        }
        i = i + 1;
    }
    let n = v.len();
    r.push((start, n));
    proof {
        assert(v@.take(n as int) =~= v@);
        let pieces = split_char(v@, c);
        assert forall|k: int| 0 <= k < r@.len() implies {
            &&& (#[trigger] r@[k]).0 <= r@[k].1 <= v@.len()
            &&& v@.subrange(r@[k].0 as int, r@[k].1 as int) == pieces[k]
        } by {
            if k < r@.len() - 1 {
                assert(r@[k] == r@.drop_last()[k]);
            }
        }
        assert forall|k: int| 0 <= k < r@.len() - 1 implies v@[#[trigger] r@[k].1 as int] == c by {
            assert(r@[k] == r@.drop_last()[k]);
        }
        assert forall|k: int| 0 <= k < r@.len() - 1 implies #[trigger] r@[k].1 + 1 == r@[k
            + 1].0 by {
            assert(r@[k] == r@.drop_last()[k]);
            if k + 1 < r@.len() - 1 {
                assert(r@[k + 1] == r@.drop_last()[k + 1]);
            }
        }
    }
    r
}

// ---------------------------------------------------------------------------
// Building strings
// ---------------------------------------------------------------------------

/// Appends one character to a `String`.
#[verifier::external_body]
pub(crate) fn push_char(s: &mut String, c: char)
    ensures
        final(s)@ == old(s)@.push(c),
{
    s.push(c);
}

/// The characters of `s`, in order.
pub fn chars_of(s: &str) -> (v: Vec<char>)
    ensures
        v@ == s@,
{
    let mut v: Vec<char> = Vec::new();
    for c in it: s.chars()
        invariant
            v@ == it.seq().take(it.index() as int),
    {
        v.push(c);
    }
    v
}

/// A `String` holding `v[lo..hi]`.
pub fn string_of_range(v: &Vec<char>, lo: usize, hi: usize) -> (s: String)
    requires
        lo <= hi <= v.len(),
    ensures
        s@ == v@.subrange(lo as int, hi as int),
{
    let mut s = String::new();
    let mut i: usize = lo;
    while i < hi
        invariant
            lo <= i <= hi <= v.len(),
            s@ == v@.subrange(lo as int, i as int),
        decreases hi - i,
    {
        push_char(&mut s, v[i]);
        assert(v@.subrange(lo as int, i + 1) =~= v@.subrange(lo as int, i as int).push(
            v@[i as int],
        ));
        i = i + 1;
    }
    s
}

/// A `String` holding the characters of `v`.
pub fn string_of(v: &Vec<char>) -> (s: String)
    ensures
        s@ == v@,
{
    let s = string_of_range(v, 0, v.len());
    assert(v@.subrange(0, v.len() as int) =~= v@);
    s
}

/// Appends `v[lo..hi]` to `out`.
pub fn extend_range(out: &mut Vec<char>, v: &Vec<char>, lo: usize, hi: usize)
    requires
        lo <= hi <= v.len(),
    ensures
        final(out)@ == old(out)@ + v@.subrange(lo as int, hi as int),
{
    let mut i = lo;
    while i < hi
        invariant
            lo <= i <= hi <= v.len(),
            out@ == old(out)@ + v@.subrange(lo as int, i as int),
        decreases hi - i,
    {
        out.push(v[i]);
        assert(old(out)@ + v@.subrange(lo as int, i + 1) =~= old(out)@ + v@.subrange(
            lo as int,
            i as int,
        ) + seq![v@[i as int]]);
        i = i + 1;
    }
}

/// Appends all of `s` to `out`.
pub fn extend_str(out: &mut Vec<char>, s: &str)
    ensures
        final(out)@ == old(out)@ + s@,
{
    let v = chars_of(s);
    extend_range(out, &v, 0, v.len());
    assert(v@.subrange(0, v.len() as int) =~= v@);
}


// ---------------------------------------------------------------------------
// UTF-8 lengths
// ---------------------------------------------------------------------------

/// Bytes in the UTF-8 encoding of `c`.
pub open spec fn utf8_width(c: char) -> nat {
    let u = c as u32;
    if u <= 0x7f {
        1
    } else if u <= 0x7ff {
        2
    } else if u <= 0xffff {
        3
    } else {
        4
    }
}

/// Bytes in the UTF-8 encoding of `s`.
pub open spec fn blen(s: Seq<char>) -> nat
    decreases s.len(),
{
    if s.len() == 0 {
        0
    } else {
        utf8_width(s[0]) + blen(s.drop_first())
    }
}

pub proof fn lemma_blen_append(a: Seq<char>, b: Seq<char>)
    ensures
        blen(a + b) == blen(a) + blen(b),
    decreases a.len(),
{
    if a.len() > 0 {
        assert((a + b).drop_first() =~= a.drop_first() + b);
        lemma_blen_append(a.drop_first(), b);
    } else {
        assert(a + b =~= b);
    }
}

/// The byte offset of character `i + 1` is that of `i` plus the width of `s[i]`.
pub proof fn lemma_blen_take_step(s: Seq<char>, i: int)
    requires
        0 <= i < s.len(),
    ensures
        blen(s.take(i + 1)) == blen(s.take(i)) + utf8_width(s[i]),
{
    let one = seq![s[i]];
    assert(s.take(i + 1) =~= s.take(i) + one);
    lemma_blen_append(s.take(i), one);
    assert(one.drop_first() =~= Seq::<char>::empty());
    assert(blen(one) == utf8_width(one[0]) + blen(one.drop_first()));
}

pub proof fn lemma_blen_mono(s: Seq<char>, i: int, j: int)
    requires
        0 <= i <= j <= s.len(),
    ensures
        blen(s.take(i)) + (j - i) <= blen(s.take(j)),
        i < j ==> blen(s.take(i)) < blen(s.take(j)),
    decreases j - i,
{
    if i < j {
        lemma_blen_mono(s, i, j - 1);
        lemma_blen_take_step(s, j - 1);
    }
}

/// The UTF-8 length of a `char` sequence is the length of its encoding.
pub proof fn lemma_blen_encode(s: Seq<char>)
    ensures
        blen(s) == encode_utf8(s).len(),
    decreases s.len(),
{
    if s.len() > 0 {
        lemma_blen_encode(s.drop_first());
        vstd::utf8::char_is_scalar(s[0]);
    }
}

/// Width of `c` in UTF-8.
pub fn utf8_width_of(c: char) -> (w: usize)
    ensures
        w == utf8_width(c),
        1 <= w <= 4,
{
    let u = c as u32;
    if u <= 0x7f {
        1
    } else if u <= 0x7ff {
        2
    } else if u <= 0xffff {
        3
    } else {
        4
    }
}

/// Byte offsets of every character boundary: `r[i]` is the UTF-8 length of `s[..i]`.
pub fn byte_offsets(s: &str) -> (r: (Vec<char>, Vec<usize>))
    ensures
        r.0@ == s@,
        r.1@.len() == s@.len() + 1,
        forall|i: int| 0 <= i <= s@.len() ==> #[trigger] r.1@[i] == blen(s@.take(i)),
        r.1@[s@.len() as int] == encode_utf8(s@).len(),
{
    let v = chars_of(s);
    let total = s.as_bytes().len();
    proof {
        lemma_blen_encode(s@);
        assert(s@.take(s@.len() as int) =~= s@);
    }
    let mut offs: Vec<usize> = Vec::new();
    offs.push(0);
    let mut i: usize = 0;
    let mut acc: usize = 0;
    assert(s@.take(0) =~= Seq::<char>::empty());
    while i < v.len()
        invariant
            v@ == s@,
            i <= v.len(),
            total == blen(s@),
            offs@.len() == i + 1,
            acc == blen(s@.take(i as int)),
            forall|k: int| 0 <= k <= i ==> #[trigger] offs@[k] == blen(s@.take(k)),
        decreases v.len() - i,
    {
        proof {
            lemma_blen_take_step(s@, i as int);
            lemma_blen_mono(s@, i + 1, s@.len() as int);
            assert(s@.take(s@.len() as int) =~= s@);
        }
        acc = acc + utf8_width_of(v[i]);
        offs.push(acc);
        i = i + 1;
    }
    (v, offs)
}


/// Whether two strings are equal, character by character.
pub fn str_eq(a: &str, b: &str) -> (r: bool)
    ensures
        r == (a@ == b@),
{
    let v = chars_of(a);
    let w = chars_of(b);
    if v.len() != w.len() {
        return false;
    }
    let mut i: usize = 0;
    while i < v.len()
        invariant
            v@ == a@,
            w@ == b@,
            v@.len() == w@.len(),
            i <= v@.len(),
            forall|j: int| 0 <= j < i ==> v@[j] == w@[j],
        decreases v@.len() - i,
    {
        if v[i] != w[i] {
            assert(a@[i as int] != b@[i as int]);
            return false;
        }
        i = i + 1;
    }
    assert(v@ =~= w@);
    true
}

/// `a` followed by `b`.
pub fn concat(a: &str, b: &str) -> (r: String)
    ensures
        r@ == a@ + b@,
{
    let mut out: Vec<char> = Vec::new();
    extend_str(&mut out, a);
    extend_str(&mut out, b);
    string_of(&out)
}

// ---------------------------------------------------------------------------
// Numbers and hex digits
// ---------------------------------------------------------------------------

pub open spec fn digit_char(d: int) -> char {
    ((d + 48) as u32) as char
}

/// Decimal rendering of a natural number, as `format!("{}", n)`.
pub open spec fn dec(n: nat) -> Seq<char>
    decreases n,
{
    if n < 10 {
        seq![digit_char(n as int)]
    } else {
        dec(n / 10).push(digit_char((n % 10) as int))
    }
}

pub proof fn lemma_dec_len(n: nat)
    ensures
        dec(n).len() >= 1,
    decreases n,
{
    if n >= 10 {
        lemma_dec_len(n / 10);
    }
}

/// Appends the decimal digits of `n`.
pub fn push_dec(out: &mut Vec<char>, n: u64)
    ensures
        final(out)@ == old(out)@ + dec(n as nat),
    decreases n,
{
    if n < 10 {
        let c = char_from_digit(n);
        out.push(c);
        assert(dec(n as nat) == seq![c]);
    } else {
        push_dec(out, n / 10);
        let c = char_from_digit(n % 10);
        out.push(c);
        assert(dec(n as nat) == dec((n / 10) as nat).push(c));
    }
}

fn char_from_digit(d: u64) -> (c: char)
    requires
        d < 10,
    ensures
        c == digit_char(d as int),
{
    if d == 0 {
        '0'
    } else if d == 1 {
        '1'
    } else if d == 2 {
        '2'
    } else if d == 3 {
        '3'
    } else if d == 4 {
        '4'
    } else if d == 5 {
        '5'
    } else if d == 6 {
        '6'
    } else if d == 7 {
        '7'
    } else if d == 8 {
        '8'
    } else {
        '9'
    }
}

/// Lower-case hexadecimal digit for `d < 16`.
pub open spec fn hex_digit(d: int) -> char {
    if d < 10 {
        ((d + 48) as u32) as char
    } else {
        ((d + 87) as u32) as char
    }
}

/// Two lower-case hex digits per byte, as `format!("{:02x}", b)` for each byte.
pub open spec fn hex_lower(bytes: Seq<u8>) -> Seq<char>
    decreases bytes.len(),
{
    if bytes.len() == 0 {
        Seq::<char>::empty()
    } else {
        hex_lower(bytes.drop_last()) + seq![
            hex_digit((bytes.last() / 16) as int),
            hex_digit((bytes.last() % 16) as int),
        ]
    }
}

pub proof fn lemma_hex_lower_len(bytes: Seq<u8>)
    ensures
        hex_lower(bytes).len() == 2 * bytes.len(),
    decreases bytes.len(),
{
    if bytes.len() > 0 {
        lemma_hex_lower_len(bytes.drop_last());
    }
}

/// A lower-case hex digit: `0`-`9` or `a`-`f`.
pub open spec fn is_hex_char(c: char) -> bool {
    ('0' <= c && c <= '9') || ('a' <= c && c <= 'f')
}

/// Every character of `s` is a lower-case hex digit.
pub open spec fn is_lower_hex(s: Seq<char>) -> bool {
    forall|i: int| 0 <= i < s.len() ==> is_hex_char(#[trigger] s[i])
}

proof fn lemma_hex_digit(d: int)
    requires
        0 <= d < 16,
    ensures
        is_hex_char(hex_digit(d)),
{
    if d < 10 {
        assert(((d + 48) as u32) as char as u32 == d + 48);
    } else {
        assert(((d + 87) as u32) as char as u32 == d + 87);
    }
}

/// The hex of a byte string is two lower-case hex digits per byte.
pub proof fn lemma_hex_lower_hex(bytes: Seq<u8>)
    ensures
        hex_lower(bytes).len() == 2 * bytes.len(),
        is_lower_hex(hex_lower(bytes)),
    decreases bytes.len(),
{
    if bytes.len() > 0 {
        lemma_hex_lower_hex(bytes.drop_last());
        let b = bytes.last();
        lemma_hex_digit((b / 16) as int);
        lemma_hex_digit((b % 16) as int);
        let h = hex_lower(bytes);
        let p = hex_lower(bytes.drop_last());
        assert forall|i: int| 0 <= i < h.len() implies is_hex_char(#[trigger] h[i]) by {
            if i < p.len() {
                assert(h[i] == p[i]);
            }
        }
    }
}

fn hex_char(d: u8) -> (c: char)
    requires
        d < 16,
    ensures
        c == hex_digit(d as int),
{
    let c: char = if d < 10 {
        char_from_digit(d as u64)
    } else if d == 10 {
        'a'
    } else if d == 11 {
        'b'
    } else if d == 12 {
        'c'
    } else if d == 13 {
        'd'
    } else if d == 14 {
        'e'
    } else {
        'f'
    };
    c
}

/// Appends the hex rendering of `bytes[0..n]`.
pub fn push_hex(out: &mut Vec<char>, bytes: &Vec<u8>, n: usize)
    requires
        n <= bytes.len(),
    ensures
        final(out)@ == old(out)@ + hex_lower(bytes@.take(n as int)),
{
    let mut i: usize = 0;
    assert(bytes@.take(0) =~= Seq::<u8>::empty());
    while i < n
        invariant
            i <= n <= bytes.len(),
            out@ == old(out)@ + hex_lower(bytes@.take(i as int)),
        decreases n - i,
    {
        let b = bytes[i];
        let hi = hex_char(b / 16);
        let lo = hex_char(b % 16);
        out.push(hi);
        out.push(lo);
        assert(bytes@.take(i + 1).drop_last() =~= bytes@.take(i as int));
        assert(out@ =~= old(out)@ + hex_lower(bytes@.take(i + 1)));
        i = i + 1;
    }
}

} // verus!

verus! {

// ---------------------------------------------------------------------------
// Byte positions
// ---------------------------------------------------------------------------

/// Byte offset `b` of the UTF-8 encoding of `s` falls between two characters.
pub open spec fn is_boundary(s: Seq<char>, b: int) -> bool {
    exists|k: int| 0 <= k <= s.len() && #[trigger] blen(s.take(k)) == b
}

/// The index of the character that starts at byte `b` of `s`.
pub open spec fn char_at_byte(s: Seq<char>, b: int) -> int {
    choose|k: int| 0 <= k <= s.len() && #[trigger] blen(s.take(k)) == b
}

/// The views of a sequence of strings.
pub open spec fn str_views(v: Seq<String>) -> Seq<Seq<char>> {
    v.map_values(|s: String| s@)
}

/// UTF-8 length of `v[lo..hi]`, exact up to `cap`; anything above `cap` is
/// reported as some value above `cap`.
pub fn blen_capped(v: &Vec<char>, lo: usize, hi: usize, cap: usize) -> (r: usize)
    requires
        lo <= hi <= v.len(),
        cap <= 0x1000_0000,
    ensures
        r <= cap + 4,
        (r > cap) == (blen(v@.subrange(lo as int, hi as int)) > cap),
        r <= cap ==> r == blen(v@.subrange(lo as int, hi as int)),
{
    let ghost s = v@.subrange(lo as int, hi as int);
    let mut i: usize = lo;
    let mut acc: usize = 0;
    assert(s.take(0) =~= Seq::<char>::empty());
    while i < hi
        invariant
            lo <= i <= hi <= v.len(),
            s == v@.subrange(lo as int, hi as int),
            acc == blen(s.take(i - lo)),
            acc <= cap,
            cap <= 0x1000_0000,
        decreases hi - i,
    {
        proof {
            lemma_blen_take_step(s, i - lo);
            assert(s[i - lo] == v@[i as int]);
        }
        acc = acc + utf8_width_of(v[i]);
        i = i + 1;
        if acc > cap {
            proof {
                lemma_blen_mono(s, i - lo, s.len() as int);
                assert(s.take(s.len() as int) =~= s);
            }
            return acc;
        }
    }
    assert(s.take(hi - lo) =~= s);
    acc
}

/// Index of the character that starts at byte `target` of `v`, found by
/// walking on from index `k0`, which starts at byte `b0`.
pub fn char_index_at_byte(v: &Vec<char>, k0: usize, b0: usize, target: usize) -> (k: usize)
    requires
        k0 <= v.len(),
        b0 == blen(v@.take(k0 as int)),
        b0 <= target <= usize::MAX - 4,
        is_boundary(v@, target as int),
    ensures
        k0 <= k <= v.len(),
        blen(v@.take(k as int)) == target,
        k == char_at_byte(v@, target as int),
{
    let mut k = k0;
    let mut b = b0;
    while b < target && k < v.len()
        invariant
            k0 <= k <= v.len(),
            b == blen(v@.take(k as int)),
            b0 <= b,
            target <= usize::MAX - 4,
            k > k0 ==> blen(v@.take(k - 1)) < target,
        decreases v.len() - k,
    {
        proof {
            lemma_blen_take_step(v@, k as int);
        }
        b = b + utf8_width_of(v[k]);
        k = k + 1;
    }
    proof {
        let kk = choose|kk: int| 0 <= kk <= v@.len() && #[trigger] blen(v@.take(kk)) == target;
        assert(0 <= kk <= v@.len() && blen(v@.take(kk)) == target);
        if kk < k {
            if kk < k0 {
                lemma_blen_mono(v@, kk, k0 as int);
            } else {
                lemma_blen_mono(v@, kk, k - 1);
            }
        } else if kk > k {
            lemma_blen_mono(v@, k as int, kk);
        }
        assert(kk == k);
        assert forall|j: int| 0 <= j <= v@.len() && #[trigger] blen(v@.take(j)) == target implies j
            == k by {
            if j < k {
                if j < k0 {
                    lemma_blen_mono(v@, j, k0 as int);
                } else {
                    lemma_blen_mono(v@, j, k - 1);
                }
            } else if j > k {
                lemma_blen_mono(v@, k as int, j);
            }
        }
    }
    k
}

/// The first `n` bytes of `s`, or all of `s` when it is shorter.
pub open spec fn byte_prefix(s: Seq<char>, n: int) -> Seq<char> {
    if blen(s) <= n {
        s
    } else {
        s.take(char_at_byte(s, n))
    }
}

/// The first `n` bytes of `s` (as `&s[..s.len().min(n)]`), which must end
/// between two characters.
pub fn prefix_bytes(s: &str, n: usize) -> (r: String)
    requires
        n <= usize::MAX - 4,
        blen(s@) <= n || is_boundary(s@, n as int),
    ensures
        r@ == byte_prefix(s@, n as int),
{
    let (v, offs) = byte_offsets(s);
    let len = v.len();
    assert(s@.take(len as int) =~= s@);
    if offs[len] <= n {
        return s.to_owned();
    }
    assert(s@.take(0) =~= Seq::<char>::empty());
    let k = char_index_at_byte(&v, 0, 0, n);
    string_of_range(&v, 0, k)
}

/// Whether byte offset `n` falls between two characters of `v` (at or
/// after index `k0`, which starts at byte `b0`).
pub fn boundary_from(v: &Vec<char>, k0: usize, b0: usize, n: usize) -> (r: bool)
    requires
        k0 <= v.len(),
        b0 == blen(v@.take(k0 as int)),
        b0 <= n <= usize::MAX - 4,
    ensures
        r == is_boundary(v@, n as int),
{
    let mut k = k0;
    let mut b = b0;
    assert forall|j: int| 0 <= j < k0 implies #[trigger] blen(v@.take(j)) < n by {
        lemma_blen_mono(v@, j, k0 as int);
    }
    while b < n && k < v.len()
        invariant
            k0 <= k <= v.len(),
            b == blen(v@.take(k as int)),
            b0 <= b,
            n <= usize::MAX - 4,
            forall|j: int| 0 <= j < k ==> #[trigger] blen(v@.take(j)) < n,
        decreases v.len() - k,
    {
        proof {
            lemma_blen_take_step(v@, k as int);
            assert forall|j: int| 0 <= j < k + 1 implies #[trigger] blen(v@.take(j)) < n by {
                if j == k {
                } else {
                }
            }
        }
        b = b + utf8_width_of(v[k]);
        k = k + 1;
    }
    if b == n {
        assert(blen(v@.take(k as int)) == n);
        return true;
    }
    proof {
        assert forall|j: int| 0 <= j <= v@.len() implies #[trigger] blen(v@.take(j)) != n by {
            if j < k {
            } else if j > k {
                lemma_blen_mono(v@, k as int, j);
            }
        }
    }
    false
}

/// Whether `&s[..s.len().min(n)]` would cut `s` between two characters.
pub fn cut_fits(s: &str, n: usize) -> (r: bool)
    requires
        n <= usize::MAX - 4,
    ensures
        r == (blen(s@) <= n || is_boundary(s@, n as int)),
{
    let (v, offs) = byte_offsets(s);
    let len = v.len();
    assert(s@.take(len as int) =~= s@);
    if offs[len] <= n {
        return true;
    }
    assert(s@.take(0) =~= Seq::<char>::empty());
    boundary_from(&v, 0, 0, n)
}

} // verus!
