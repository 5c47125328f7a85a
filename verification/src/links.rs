//! Link extraction: wiki links, transclusions and block references of a note
//! body, each with the block it sits in and a little surrounding text.

use vstd::prelude::*;
use crate::blocks::Block;
use crate::syntax::{scan, scan_all, Hit, Pattern};
use crate::text::{
    blen, byte_offsets, find_char, find_char_in, is_blank, is_blank_range, lemma_blen_mono,
    ranges_cut, split_char, split_ranges, string_of_range, trim, trim_range,
};

verus! {

// ---------------------------------------------------------------------------
// Link model
// ---------------------------------------------------------------------------

/// A link as written in a note, before its target is resolved.
#[derive(Clone, Debug)]
pub struct RawLink {
    pub from_block_id: Option<String>,
    pub to_alias: String,
    /// `wiki`, `block_ref` or `transclusion`.
    pub link_type: String,
    pub context: String,
    pub to_block_id: Option<String>,
}

pub struct LinkView {
    pub from_block_id: Option<Seq<char>>,
    pub to_alias: Seq<char>,
    pub link_type: Seq<char>,
    pub context: Seq<char>,
    pub to_block_id: Option<Seq<char>>,
}

pub open spec fn opt_view(o: Option<String>) -> Option<Seq<char>> {
    match o {
        Some(s) => Some(s@),
        None => None,
    }
}

impl View for RawLink {
    type V = LinkView;

    open spec fn view(&self) -> LinkView {
        LinkView {
            from_block_id: opt_view(self.from_block_id),
            to_alias: self.to_alias@,
            link_type: self.link_type@,
            context: self.context@,
            to_block_id: opt_view(self.to_block_id),
        }
    }
}

pub open spec fn wiki_name() -> Seq<char> {
    seq!['w', 'i', 'k', 'i']
}

pub open spec fn block_ref_name() -> Seq<char> {
    seq!['b', 'l', 'o', 'c', 'k', '_', 'r', 'e', 'f']
}

pub open spec fn transclusion_name() -> Seq<char> {
    seq!['t', 'r', 'a', 'n', 's', 'c', 'l', 'u', 's', 'i', 'o', 'n']
}

// ---------------------------------------------------------------------------
// Wiki link targets
// ---------------------------------------------------------------------------

/// `note#section` or `note#^block` or `note`: the note, the section and the block.
pub open spec fn wikilink_target_of(t: Seq<char>) -> (Seq<char>, Option<Seq<char>>, Option<
    Seq<char>,
>) {
    match find_char(t, '#') {
        None => (t, None, None),
        Some(h) => {
            let note = trim(t.take(h));
            let rest = t.skip(h + 1);
            match find_char(rest, '^') {
                Some(c) => (note, None, Some(trim(rest.skip(c + 1)))),
                None => (note, Some(trim(rest)), None),
            }
        },
    }
}

/// Splits a wiki link target into note name, `#section` and `#^block` parts.
pub fn parse_wikilink_target(target: &str) -> (r: (String, Option<String>, Option<String>))
    ensures
        (r.0@, opt_view(r.1), opt_view(r.2)) == wikilink_target_of(target@),
{
    let v = crate::text::chars_of(target);
    let n = v.len();
    assert(v@.subrange(0, n as int) =~= v@);
    target_parts(&v, 0, n)
}

fn target_parts(v: &Vec<char>, lo: usize, hi: usize) -> (r: (String, Option<String>, Option<String>))
    requires
        lo <= hi <= v.len(),
    ensures
        (r.0@, opt_view(r.1), opt_view(r.2)) == wikilink_target_of(v@.subrange(lo as int, hi as int)),
{
    let ghost t = v@.subrange(lo as int, hi as int);
    let h = find_char_in(v, lo, hi, '#');
    if h == hi {
        return (string_of_range(v, lo, hi), None, None);
    }
    let (na, nb) = trim_range(v, lo, h);
    let note = string_of_range(v, na, nb);
    let c = find_char_in(v, h + 1, hi, '^');
    proof {
        assert(t.take(h - lo) =~= v@.subrange(lo as int, h as int));
        assert(t.skip(h - lo + 1) =~= v@.subrange(h + 1, hi as int));
    }
    if c < hi {
        let (ba, bb) = trim_range(v, c + 1, hi);
        proof {
            assert(t.skip(h - lo + 1).skip(c - h) =~= v@.subrange(c + 1, hi as int));
        }
        (note, None, Some(string_of_range(v, ba, bb)))
    } else {
        let (sa, sb) = trim_range(v, h + 1, hi);
        (note, Some(string_of_range(v, sa, sb)), None)
    }
}

// ---------------------------------------------------------------------------
// Context around a match
// ---------------------------------------------------------------------------

/// Largest index `<= i` whose byte offset is at most `t`.
pub open spec fn boundary_down(s: Seq<char>, i: int, t: int) -> int
    decreases i,
{
    if i <= 0 || blen(s.take(i)) <= t {
        if i < 0 {
            0
        } else {
            i
        }
    } else {
        boundary_down(s, i - 1, t)
    }
}

/// Smallest index `>= i` whose byte offset is at least `t` (or the end).
pub open spec fn boundary_up(s: Seq<char>, i: int, t: int) -> int
    decreases s.len() - i,
{
    if i >= s.len() || blen(s.take(i)) >= t {
        if i > s.len() {
            s.len() as int
        } else {
            i
        }
    } else {
        boundary_up(s, i + 1, t)
    }
}

pub open spec fn newlines_to_spaces(s: Seq<char>) -> Seq<char> {
    s.map_values(|c: char| if c == '\n' {
        ' '
    } else {
        c
    })
}

/// The text within `pad` bytes of `s[start..end]` (widened to whole
/// characters), newlines made spaces, trimmed.
pub open spec fn context_of(s: Seq<char>, start: int, end: int, pad: int) -> Seq<char> {
    let sb = blen(s.take(start)) - pad;
    let lo_b = if sb < 0 {
        0
    } else {
        sb
    };
    let eb = blen(s.take(end)) + pad;
    let hi_b = if eb > blen(s) {
        blen(s) as int
    } else {
        eb
    };
    let lo = boundary_down(s, start, lo_b);
    let hi = boundary_up(s, end, hi_b);
    trim(newlines_to_spaces(s.subrange(lo, hi)))
}

proof fn lemma_boundary_down(s: Seq<char>, i: int, t: int)
    requires
        0 <= i <= s.len(),
    ensures
        0 <= boundary_down(s, i, t) <= i,
    decreases i,
{
    if i > 0 && blen(s.take(i)) > t {
        lemma_boundary_down(s, i - 1, t);
    }
}

proof fn lemma_boundary_up(s: Seq<char>, i: int, t: int)
    requires
        0 <= i <= s.len(),
    ensures
        i <= boundary_up(s, i, t) <= s.len(),
    decreases s.len() - i,
{
    if i < s.len() && blen(s.take(i)) < t {
        lemma_boundary_up(s, i + 1, t);
    }
}

/// The context of a match at `start..end`, with the byte offsets `offs` of `v`.
fn context_around(v: &Vec<char>, offs: &Vec<usize>, start: usize, end: usize, pad: usize) -> (r: String)
    requires
        start <= end <= v.len(),
        offs@.len() == v@.len() + 1,
        forall|i: int| 0 <= i <= v@.len() ==> #[trigger] offs@[i] == blen(v@.take(i)),
        pad <= 1000,
    ensures
        r@ == context_of(v@, start as int, end as int, pad as int),
{
    let n = v.len();
    proof {
        assert(v@.take(n as int) =~= v@);
        lemma_blen_mono(v@, end as int, n as int);
        lemma_boundary_down(v@, start as int, offs@[start as int] - pad);
    }
    let lo_b = if offs[start] >= pad {
        offs[start] - pad
    } else {
        0
    };
    let hi_b = if offs[n] - offs[end] > pad {
        offs[end] + pad
    } else {
        offs[n]
    };
    let mut lo = start;
    while lo > 0 && offs[lo] > lo_b
        invariant
            lo <= start <= end <= n == v.len(),
            offs@.len() == v@.len() + 1,
            forall|i: int| 0 <= i <= v@.len() ==> #[trigger] offs@[i] == blen(v@.take(i)),
            boundary_down(v@, start as int, lo_b as int) == boundary_down(v@, lo as int, lo_b as int),
        decreases lo,
    {
        lo = lo - 1;
    }
    let mut hi = end;
    while hi < n && offs[hi] < hi_b
        invariant
            lo <= start <= end <= hi <= n == v.len(),
            offs@.len() == v@.len() + 1,
            forall|i: int| 0 <= i <= v@.len() ==> #[trigger] offs@[i] == blen(v@.take(i)),
            boundary_up(v@, end as int, hi_b as int) == boundary_up(v@, hi as int, hi_b as int),
        decreases n - hi,
    {
        hi = hi + 1;
    }
    let mut text: Vec<char> = Vec::new();
    let mut k = lo;
    while k < hi
        invariant
            lo <= k <= hi <= n == v.len(),
            text@ == newlines_to_spaces(v@.subrange(lo as int, k as int)),
        decreases hi - k,
    {
        let c = v[k];
        text.push(if c == '\n' {
            ' '
        } else {
            c
        });
        assert(newlines_to_spaces(v@.subrange(lo as int, k + 1)) =~= newlines_to_spaces(
            v@.subrange(lo as int, k as int),
        ).push(text@.last()));
        k = k + 1;
    }
    let (a, b) = trim_range(&text, 0, text.len());
    proof {
        assert(text@.subrange(0, text@.len() as int) =~= text@);
        assert(lo_b as int == (if blen(v@.take(start as int)) - pad < 0 {
            0
        } else {
            blen(v@.take(start as int)) - pad
        }));
    }
    string_of_range(&text, a, b)
}

// ---------------------------------------------------------------------------
// The block a position belongs to
// ---------------------------------------------------------------------------

/// Index of the first character of line `k`.
pub open spec fn line_start(ls: Seq<Seq<char>>, k: int) -> int
    decreases k,
{
    if k <= 0 {
        0
    } else {
        line_start(ls, k - 1) + ls[k - 1].len() + 1
    }
}

/// The line that holds position `p` (its newline included), searching from line `k`.
pub open spec fn line_of_from(ls: Seq<Seq<char>>, p: int, k: int) -> int
    decreases ls.len() - k,
{
    if k < 0 || k + 1 >= ls.len() || p <= line_start(ls, k) + ls[k].len() {
        k
    } else {
        line_of_from(ls, p, k + 1)
    }
}

/// The block that line `k` is counted against: it moves to the next block
/// after each blank line, as long as there is a next block.
pub open spec fn block_idx(ls: Seq<Seq<char>>, nb: int, k: int) -> int
    decreases k,
{
    if k <= 0 {
        0
    } else {
        let prev = block_idx(ls, nb, k - 1);
        if is_blank(ls[k - 1]) && prev + 1 < nb {
            prev + 1
        } else {
            prev
        }
    }
}

/// The id of the block that position `p` of `s` is attributed to.
pub open spec fn block_id_at(s: Seq<char>, ids: Seq<Seq<char>>, p: int) -> Option<Seq<char>> {
    let ls = split_char(s, '\n');
    let k = line_of_from(ls, p, 0);
    let b = block_idx(ls, ids.len() as int, k);
    if 0 <= k < ls.len() && !is_blank(ls[k]) && 0 <= b < ids.len() {
        Some(ids[b])
    } else {
        None
    }
}

proof fn lemma_block_idx_nonneg(ls: Seq<Seq<char>>, nb: int, k: int)
    ensures
        block_idx(ls, nb, k) >= 0,
    decreases k,
{
    if k > 0 {
        lemma_block_idx_nonneg(ls, nb, k - 1);
    }
}

pub open spec fn ids_of(blocks: Seq<Block>) -> Seq<Seq<char>> {
    Seq::new(blocks.len(), |i: int| blocks[i].id@)
}

proof fn lemma_line_start(s: Seq<char>, lr: Seq<(usize, usize)>, k: int)
    requires
        ranges_cut(s, '\n', lr),
        0 <= k < lr.len(),
    ensures
        lr[k].0 == line_start(split_char(s, '\n'), k),
        lr[k].1 == line_start(split_char(s, '\n'), k) + split_char(s, '\n')[k].len(),
    decreases k,
{
    if k > 0 {
        lemma_line_start(s, lr, k - 1);
        assert(lr[k - 1].1 + 1 == lr[k].0);
    }
}

/// The line holding position `p`.
fn line_index(v: &Vec<char>, lr: &Vec<(usize, usize)>, p: usize) -> (k: usize)
    requires
        ranges_cut(v@, '\n', lr@),
    ensures
        k == line_of_from(split_char(v@, '\n'), p as int, 0),
        k < lr@.len(),
{
    let ghost ls = split_char(v@, '\n');
    proof {
        crate::text::lemma_split_char_len(v@, '\n');
    }
    let mut k: usize = 0;
    while k < lr.len() - 1 && lr[k].1 < p
        invariant
            ranges_cut(v@, '\n', lr@),
            ls == split_char(v@, '\n'),
            k < lr@.len(),
            line_of_from(ls, p as int, 0) == line_of_from(ls, p as int, k as int),
        decreases lr@.len() - k,
    {
        proof {
            lemma_line_start(v@, lr@, k as int);
        }
        k = k + 1;
    }
    proof {
        lemma_line_start(v@, lr@, k as int);
    }
    k
}

/// For each line, the index of the block its characters are attributed to.
fn line_blocks(v: &Vec<char>, lr: &Vec<(usize, usize)>, nb: usize) -> (r: Vec<Option<usize>>)
    requires
        ranges_cut(v@, '\n', lr@),
    ensures
        r@.len() == lr@.len(),
        forall|k: int|
            0 <= k < r@.len() ==> #[trigger] r@[k] == (if !is_blank(split_char(v@, '\n')[k])
                && block_idx(split_char(v@, '\n'), nb as int, k) < nb {
                Some(block_idx(split_char(v@, '\n'), nb as int, k) as usize)
            } else {
                None
            }),
{
    let ghost ls = split_char(v@, '\n');
    let mut r: Vec<Option<usize>> = Vec::new();
    let mut idx: usize = 0;
    let mut k: usize = 0;
    while k < lr.len()
        invariant
            ranges_cut(v@, '\n', lr@),
            ls == split_char(v@, '\n'),
            k <= lr@.len(),
            r@.len() == k,
            idx == block_idx(ls, nb as int, k as int),
            idx == 0 || idx < nb,
            forall|j: int|
                0 <= j < k ==> #[trigger] r@[j] == (if !is_blank(ls[j]) && block_idx(
                    ls,
                    nb as int,
                    j,
                ) < nb {
                    Some(block_idx(ls, nb as int, j) as usize)
                } else {
                    None
                }),
        decreases lr@.len() - k,
    {
        let (a, b) = lr[k];
        assert(ls[k as int] == v@.subrange(a as int, b as int));
        let blank = is_blank_range(v, a, b);
        if !blank && idx < nb {
            r.push(Some(idx));
        } else {
            r.push(None);
        }
        if blank && nb > 0 && idx < nb - 1 {
            idx = idx + 1;
        }
        k = k + 1;
    }
    r
}

// ---------------------------------------------------------------------------
// Candidates and first occurrences
// ---------------------------------------------------------------------------

/// A link's identity within a note: source block, target as written, and kind
/// (0 transclusion, 1 wiki, 2 block reference).
pub type LinkKey = (Option<Seq<char>>, Seq<char>, int);

/// The link a match makes, with its key.
pub open spec fn candidate(s: Seq<char>, ids: Seq<Seq<char>>, m: (int, Hit), kind: int) -> (
    LinkKey,
    LinkView,
) {
    let target = trim(s.subrange(m.1.0, m.1.1));
    let bid = block_id_at(s, ids, m.0);
    let ctx = context_of(s, m.0, m.1.2, 40);
    if kind == 0 {
        (
            (bid, target, 0),
            LinkView {
                from_block_id: bid,
                to_alias: target,
                link_type: transclusion_name(),
                context: ctx,
                to_block_id: None,
            },
        )
    } else if kind == 1 {
        let parts = wikilink_target_of(target);
        (
            (bid, target, 1),
            LinkView {
                from_block_id: bid,
                to_alias: parts.0,
                link_type: wiki_name(),
                context: ctx,
                to_block_id: if parts.2 is Some {
                    parts.2
                } else {
                    parts.1
                },
            },
        )
    } else {
        (
            (bid, target, 2),
            LinkView {
                from_block_id: bid,
                to_alias: target,
                link_type: block_ref_name(),
                context: ctx,
                to_block_id: Some(target),
            },
        )
    }
}

/// A wiki-link match directly after `!` belongs to a transclusion.
pub open spec fn after_bang(s: Seq<char>, m: (int, Hit)) -> bool {
    m.0 > 0 && s[m.0 - 1] == '!'
}

/// The candidate links of the first `i` matches of one kind.
pub open spec fn candidates_upto(
    s: Seq<char>,
    ids: Seq<Seq<char>>,
    ms: Seq<(int, Hit)>,
    kind: int,
    i: int,
) -> Seq<(LinkKey, LinkView)>
    decreases i,
{
    if i <= 0 {
        Seq::empty()
    } else {
        let prev = candidates_upto(s, ids, ms, kind, i - 1);
        if kind == 1 && after_bang(s, ms[i - 1]) {
            prev
        } else {
            prev.push(candidate(s, ids, ms[i - 1], kind))
        }
    }
}

/// Transclusions, then wiki links, then block references, in text order.
pub open spec fn link_candidates(s: Seq<char>, ids: Seq<Seq<char>>) -> Seq<(LinkKey, LinkView)> {
    let t = scan(s, 0, Pattern::Transclusion);
    let w = scan(s, 0, Pattern::Wiki);
    let r = scan(s, 0, Pattern::BlockRef);
    candidates_upto(s, ids, t, 0, t.len() as int) + candidates_upto(s, ids, w, 1, w.len() as int)
        + candidates_upto(s, ids, r, 2, r.len() as int)
}

/// The entries whose key has not occurred before.
pub open spec fn first_occurrences<K, L>(c: Seq<(K, L)>) -> Seq<(K, L)>
    decreases c.len(),
{
    if c.len() == 0 {
        Seq::empty()
    } else {
        let prev = first_occurrences(c.drop_last());
        if exists|j: int| 0 <= j < c.len() - 1 && #[trigger] c[j].0 == c.last().0 {
            prev
        } else {
            prev.push(c.last())
        }
    }
}

/// The links of a note body: each distinct (block, target, kind) once, first one kept.
pub open spec fn links_of(s: Seq<char>, ids: Seq<Seq<char>>) -> Seq<LinkView> {
    let fo = first_occurrences(link_candidates(s, ids));
    Seq::new(fo.len(), |i: int| fo[i].1)
}

pub proof fn lemma_first_occurrences_keys<K, L>(c: Seq<(K, L)>, k: K)
    ensures
        (exists|j: int| 0 <= j < c.len() && #[trigger] c[j].0 == k) <==> (exists|j: int|
            0 <= j < first_occurrences(c).len() && #[trigger] first_occurrences(c)[j].0 == k),
    decreases c.len(),
{
    if c.len() > 0 {
        let d = c.drop_last();
        lemma_first_occurrences_keys(d, k);
        let prev = first_occurrences(d);
        if exists|j: int| 0 <= j < c.len() && #[trigger] c[j].0 == k {
            let j = choose|j: int| 0 <= j < c.len() && #[trigger] c[j].0 == k;
            if j < c.len() - 1 {
                assert(d[j].0 == k);
                let j2 = choose|j2: int| 0 <= j2 < prev.len() && #[trigger] prev[j2].0 == k;
                assert(first_occurrences(c)[j2] == prev[j2]);
            } else {
                if exists|i: int| 0 <= i < c.len() - 1 && #[trigger] c[i].0 == c.last().0 {
                    let i = choose|i: int| 0 <= i < c.len() - 1 && #[trigger] c[i].0 == c.last().0;
                    assert(d[i].0 == k);
                    let j2 = choose|j2: int| 0 <= j2 < prev.len() && #[trigger] prev[j2].0 == k;
                    assert(first_occurrences(c)[j2] == prev[j2]);
                } else {
                    assert(first_occurrences(c)[prev.len() as int].0 == k);
                }
            }
        }
        if exists|j: int|
            0 <= j < first_occurrences(c).len() && #[trigger] first_occurrences(c)[j].0 == k {
            let j = choose|j: int|
                0 <= j < first_occurrences(c).len() && #[trigger] first_occurrences(c)[j].0 == k;
            if j < prev.len() {
                assert(first_occurrences(c)[j] == prev[j]);
                let i = choose|i: int| 0 <= i < d.len() && #[trigger] d[i].0 == k;
                assert(c[i].0 == k);
            } else {
                assert(c[c.len() - 1].0 == k);
            }
        }
    }
}



// ---------------------------------------------------------------------------
// Extraction
// ---------------------------------------------------------------------------

type ExecKey = (Option<String>, String, u8);

pub open spec fn key_view(k: (Option<String>, String, u8)) -> LinkKey {
    (opt_view(k.0), k.1@, k.2 as int)
}

pub fn clone_opt(o: &Option<String>) -> (r: Option<String>)
    ensures
        opt_view(r) == opt_view(*o),
{
    match o {
        Some(s) => Some(s.clone()),
        None => None,
    }
}

fn opt_eq(a: &Option<String>, b: &Option<String>) -> (r: bool)
    ensures
        r == (opt_view(*a) == opt_view(*b)),
{
    match (a, b) {
        (Some(x), Some(y)) => *x == *y,
        (None, None) => true,
        _ => false,
    }
}

fn seen_contains(seen: &Vec<ExecKey>, k: &ExecKey) -> (r: bool)
    ensures
        r == exists|j: int| 0 <= j < seen@.len() && #[trigger] key_view(seen@[j]) == key_view(*k),
{
    let mut j: usize = 0;
    while j < seen.len()
        invariant
            j <= seen@.len(),
            forall|i: int| 0 <= i < j ==> #[trigger] key_view(seen@[i]) != key_view(*k),
        decreases seen@.len() - j,
    {
        let e = &seen[j];
        if e.2 == k.2 && e.1 == k.1 && opt_eq(&e.0, &k.0) {
            assert(key_view(seen@[j as int]) == key_view(*k));
            return true;
        }
        j = j + 1;
    }
    false
}

/// The link and key made of the match `m` of the given kind.
fn make_candidate(
    v: &Vec<char>,
    offs: &Vec<usize>,
    lr: &Vec<(usize, usize)>,
    lb: &Vec<Option<usize>>,
    blocks: &[Block],
    m: (usize, usize, usize, usize),
    kind: u8,
) -> (r: (ExecKey, RawLink))
    requires
        ranges_cut(v@, '\n', lr@),
        offs@.len() == v@.len() + 1,
        forall|i: int| 0 <= i <= v@.len() ==> #[trigger] offs@[i] == blen(v@.take(i)),
        lb@.len() == lr@.len(),
        forall|k: int|
            0 <= k < lb@.len() ==> #[trigger] lb@[k] == (if !is_blank(split_char(v@, '\n')[k])
                && block_idx(split_char(v@, '\n'), blocks@.len() as int, k) < blocks@.len() {
                Some(block_idx(split_char(v@, '\n'), blocks@.len() as int, k) as usize)
            } else {
                None
            }),
        m.0 <= m.1 <= m.2 <= m.3 <= v@.len(),
        kind <= 2,
    ensures
        key_view(r.0) == candidate(v@, ids_of(blocks@), (m.0 as int, (m.1 as int, m.2 as int, m.3 as int)), kind as int).0,
        r.1@ == candidate(v@, ids_of(blocks@), (m.0 as int, (m.1 as int, m.2 as int, m.3 as int)), kind as int).1,
{
    let ghost ls = split_char(v@, '\n');
    let k = line_index(v, lr, m.0);
    assert(lb@[k as int] == lb@[k as int]);
    proof {
        lemma_block_idx_nonneg(ls, blocks@.len() as int, k as int);
    }
    let bid: Option<String> = match lb[k] {
        Some(bi) => Some(blocks[bi].id.clone()),
        None => None,
    };
    proof {
        assert(opt_view(bid) == block_id_at(v@, ids_of(blocks@), m.0 as int));
    }
    let (ta, tb) = trim_range(v, m.1, m.2);
    let target = string_of_range(v, ta, tb);
    let ctx = context_around(v, offs, m.0, m.3, 40);
    if kind == 0 {
        proof {
            reveal_strlit("transclusion");
        }
        let link = RawLink {
            from_block_id: clone_opt(&bid),
            to_alias: target.clone(),
            link_type: "transclusion".to_owned(),
            context: ctx,
            to_block_id: None,
        };
        assert(link.link_type@ =~= transclusion_name());
        ((bid, target, 0), link)
    } else if kind == 1 {
        let (note, section, block) = target_parts(v, ta, tb);
        proof {
            reveal_strlit("wiki");
        }
        let to_block = match block {
            Some(b) => Some(b),
            None => section,
        };
        let link = RawLink {
            from_block_id: clone_opt(&bid),
            to_alias: note,
            link_type: "wiki".to_owned(),
            context: ctx,
            to_block_id: to_block,
        };
        assert(link.link_type@ =~= wiki_name());
        ((bid, target, 1), link)
    } else {
        proof {
            reveal_strlit("block_ref");
        }
        let link = RawLink {
            from_block_id: clone_opt(&bid),
            to_alias: target.clone(),
            link_type: "block_ref".to_owned(),
            context: ctx,
            to_block_id: Some(target.clone()),
        };
        assert(link.link_type@ =~= block_ref_name());
        ((bid, target, 2), link)
    }
}

/// `seen` and `out` hold the keys and links of `fo`, in order.
pub open spec fn tracks(seen: Seq<ExecKey>, out: Seq<RawLink>, fo: Seq<(LinkKey, LinkView)>) -> bool {
    &&& seen.len() == fo.len()
    &&& out.len() == fo.len()
    &&& forall|j: int| 0 <= j < fo.len() ==> key_view(#[trigger] seen[j]) == fo[j].0
    &&& forall|j: int| 0 <= j < fo.len() ==> (#[trigger] out[j])@ == fo[j].1
}

/// Adds the links of the matches `ms` of one kind that have a new key.
fn add_links(
    v: &Vec<char>,
    offs: &Vec<usize>,
    lr: &Vec<(usize, usize)>,
    lb: &Vec<Option<usize>>,
    blocks: &[Block],
    ms: &Vec<(usize, usize, usize, usize)>,
    kind: u8,
    seen: &mut Vec<ExecKey>,
    out: &mut Vec<RawLink>,
    Ghost(sc): Ghost<Seq<(int, Hit)>>,
    Ghost(before): Ghost<Seq<(LinkKey, LinkView)>>,
)
    requires
        ranges_cut(v@, '\n', lr@),
        offs@.len() == v@.len() + 1,
        forall|i: int| 0 <= i <= v@.len() ==> #[trigger] offs@[i] == blen(v@.take(i)),
        lb@.len() == lr@.len(),
        forall|k: int|
            0 <= k < lb@.len() ==> #[trigger] lb@[k] == (if !is_blank(split_char(v@, '\n')[k])
                && block_idx(split_char(v@, '\n'), blocks@.len() as int, k) < blocks@.len() {
                Some(block_idx(split_char(v@, '\n'), blocks@.len() as int, k) as usize)
            } else {
                None
            }),
        kind <= 2,
        ms@.len() == sc.len(),
        forall|k: int|
            0 <= k < ms@.len() ==> {
                &&& (#[trigger] ms@[k]).0 == sc[k].0
                &&& ms@[k].1 == sc[k].1.0
                &&& ms@[k].2 == sc[k].1.1
                &&& ms@[k].3 == sc[k].1.2
                &&& sc[k].0 <= sc[k].1.0 <= sc[k].1.1 <= sc[k].1.2 <= v@.len()
            },
        tracks(old(seen)@, old(out)@, first_occurrences(before)),
    ensures
        tracks(
            final(seen)@,
            final(out)@,
            first_occurrences(before + candidates_upto(v@, ids_of(blocks@), sc, kind as int, sc.len() as int)),
        ),
{
    let ghost ids = ids_of(blocks@);
    let mut i: usize = 0;
    assert(before + candidates_upto(v@, ids, sc, kind as int, 0) =~= before);
    while i < ms.len()
        invariant
            ranges_cut(v@, '\n', lr@),
            offs@.len() == v@.len() + 1,
            forall|i: int| 0 <= i <= v@.len() ==> #[trigger] offs@[i] == blen(v@.take(i)),
            lb@.len() == lr@.len(),
            forall|k: int|
                0 <= k < lb@.len() ==> #[trigger] lb@[k] == (if !is_blank(split_char(v@, '\n')[k])
                    && block_idx(split_char(v@, '\n'), blocks@.len() as int, k) < blocks@.len() {
                    Some(block_idx(split_char(v@, '\n'), blocks@.len() as int, k) as usize)
                } else {
                    None
                }),
            kind <= 2,
            ids == ids_of(blocks@),
            ms@.len() == sc.len(),
            forall|k: int|
                0 <= k < ms@.len() ==> {
                    &&& (#[trigger] ms@[k]).0 == sc[k].0
                    &&& ms@[k].1 == sc[k].1.0
                    &&& ms@[k].2 == sc[k].1.1
                    &&& ms@[k].3 == sc[k].1.2
                    &&& sc[k].0 <= sc[k].1.0 <= sc[k].1.1 <= sc[k].1.2 <= v@.len()
                },
            i <= ms@.len(),
            tracks(seen@, out@, first_occurrences(before + candidates_upto(v@, ids, sc, kind as int, i as int))),
        decreases ms@.len() - i,
    {
        let m = ms[i];
        let ghost cur = before + candidates_upto(v@, ids, sc, kind as int, i as int);
        let ghost next = before + candidates_upto(v@, ids, sc, kind as int, i + 1);
        let skip = kind == 1 && m.0 > 0 && v[m.0 - 1] == '!';
        if skip {
            assert(next =~= cur);
        } else {
            let (key, link) = make_candidate(v, offs, lr, lb, blocks, m, kind);
            let ghost c = candidate(v@, ids, sc[i as int], kind as int);
            assert(next =~= cur.push(c));
            assert(next.drop_last() =~= cur);
            proof {
                lemma_first_occurrences_keys(cur, c.0);
            }
            if !seen_contains(seen, &key) {
                proof {
                    let fo = first_occurrences(cur);
                    if exists|j: int| 0 <= j < next.len() - 1 && #[trigger] next[j].0 == next.last().0 {
                        let j = choose|j: int| 0 <= j < next.len() - 1 && #[trigger] next[j].0 == next.last().0;
                        assert(cur[j].0 == c.0);
                        let j2 = choose|j2: int| 0 <= j2 < fo.len() && #[trigger] fo[j2].0 == c.0;
                        assert(key_view(seen@[j2]) == key_view(key));
                    }
                }
                seen.push(key);
                out.push(link);
            } else {
                proof {
                    let j = choose|j: int| 0 <= j < seen@.len() && #[trigger] key_view(seen@[j]) == key_view(key);
                    let fo = first_occurrences(cur);
                    assert(fo[j].0 == c.0);
                    let i2 = choose|i2: int| 0 <= i2 < cur.len() && #[trigger] cur[i2].0 == c.0;
                    assert(next[i2].0 == next.last().0);
                }
            }
        }
        i = i + 1;
    }
}

/// The links of a note body: transclusions `![[t]]`, wiki links `[[t]]` and
/// block references `((id)`, each once per source block and target.
pub fn extract_links(body: &str, blocks: &[Block]) -> (r: Vec<RawLink>)
    ensures
        r@.len() == links_of(body@, ids_of(blocks@)).len(),
        forall|j: int| 0 <= j < r@.len() ==> (#[trigger] r@[j])@ == links_of(body@, ids_of(blocks@))[j],
{
    let (v, offs) = byte_offsets(body);
    let lr = split_ranges(&v, '\n');
    let lb = line_blocks(&v, &lr, blocks.len());
    let mut seen: Vec<ExecKey> = Vec::new();
    let mut out: Vec<RawLink> = Vec::new();
    let ghost ids = ids_of(blocks@);
    let ghost st = scan(v@, 0, Pattern::Transclusion);
    let ghost sw = scan(v@, 0, Pattern::Wiki);
    let ghost sr = scan(v@, 0, Pattern::BlockRef);
    proof {
        crate::syntax::lemma_scan_bounds(v@, 0, Pattern::Transclusion);
        crate::syntax::lemma_scan_bounds(v@, 0, Pattern::Wiki);
        crate::syntax::lemma_scan_bounds(v@, 0, Pattern::BlockRef);
    }
    let t = scan_all(&v, &Pattern::Transclusion);
    let w = scan_all(&v, &Pattern::Wiki);
    let b = scan_all(&v, &Pattern::BlockRef);
    let ghost c0 = Seq::<(LinkKey, LinkView)>::empty();
    add_links(&v, &offs, &lr, &lb, blocks, &t, 0, &mut seen, &mut out, Ghost(st), Ghost(c0));
    let ghost c1 = c0 + candidates_upto(v@, ids, st, 0, st.len() as int);
    add_links(&v, &offs, &lr, &lb, blocks, &w, 1, &mut seen, &mut out, Ghost(sw), Ghost(c1));
    let ghost c2 = c1 + candidates_upto(v@, ids, sw, 1, sw.len() as int);
    add_links(&v, &offs, &lr, &lb, blocks, &b, 2, &mut seen, &mut out, Ghost(sr), Ghost(c2));
    proof {
        assert(c2 + candidates_upto(v@, ids, sr, 2, sr.len() as int) =~= link_candidates(body@, ids));
    }
    out
}

/// A wiki link `[[note]]`, `[[note#section]]` or `[[note#^block]]` (target
/// trimmed) points at the note, trimmed, before the first `#`; after the `#`,
/// the text following the first `^` is the block it points at, or, when there
/// is no `^`, the whole text is the section it points at; without `#` the
/// whole target names the note and no block.
pub proof fn law_wiki_link_target(s: Seq<char>, ids: Seq<Seq<char>>, m: (int, Hit))
    ensures
        ({
            let t = trim(s.subrange(m.1.0, m.1.1));
            let l = candidate(s, ids, m, 1).1;
            &&& l.link_type == wiki_name()
            &&& (forall|i: int| 0 <= i < t.len() ==> t[i] != '#') ==> l.to_alias == t
                && l.to_block_id is None
            &&& forall|h: int|
                0 <= h < t.len() && #[trigger] t[h] == '#' && (forall|i: int| 0 <= i < h ==> t[i] != '#')
                    ==> {
                    &&& l.to_alias == trim(t.take(h))
                    &&& (forall|c: int| h < c < t.len() ==> t[c] != '^') ==> l.to_block_id == Some(
                        trim(t.skip(h + 1)),
                    )
                    &&& forall|c: int|
                        h < c < t.len() && #[trigger] t[c] == '^' && (forall|i: int|
                            h < i < c ==> t[i] != '^') ==> l.to_block_id == Some(trim(t.skip(c + 1)))
                }
        }),
{
    let t = trim(s.subrange(m.1.0, m.1.1));
    crate::text::lemma_find_char(t, '#');
    assert forall|h: int|
        0 <= h < t.len() && #[trigger] t[h] == '#' && (forall|i: int| 0 <= i < h ==> t[i] != '#') implies {
        let l = candidate(s, ids, m, 1).1;
        &&& l.to_alias == trim(t.take(h))
        &&& (forall|c: int| h < c < t.len() ==> t[c] != '^') ==> l.to_block_id == Some(trim(t.skip(h + 1)))
        &&& forall|c: int|
            h < c < t.len() && #[trigger] t[c] == '^' && (forall|i: int| h < i < c ==> t[i] != '^')
                ==> l.to_block_id == Some(trim(t.skip(c + 1)))
    } by {
        crate::text::lemma_find_char_is(t, '#', h);
        let rest = t.skip(h + 1);
        crate::text::lemma_find_char(rest, '^');
        assert forall|c: int|
            h < c < t.len() && #[trigger] t[c] == '^' && (forall|i: int| h < i < c ==> t[i] != '^')
                implies candidate(s, ids, m, 1).1.to_block_id == Some(trim(t.skip(c + 1))) by {
            assert forall|j: int| 0 <= j < c - h - 1 implies rest[j] != '^' by {
                assert(rest[j] == t[h + 1 + j]);
            }
            assert(rest[c - h - 1] == t[c]);
            crate::text::lemma_find_char_is(rest, '^', c - h - 1);
            assert(rest.skip(c - h) =~= t.skip(c + 1));
        }
        if forall|c: int| h < c < t.len() ==> t[c] != '^' {
            assert forall|j: int| 0 <= j < rest.len() implies rest[j] != '^' by {
                assert(rest[j] == t[h + 1 + j]);
            }
            crate::text::lemma_find_char_is(rest, '^', rest.len() as int);
        }
    }
}

} // verus!
