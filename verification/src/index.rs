//! The search and link index: queries, link resolution, synchronisation with
//! the files on disk, and the link graph.

use vstd::prelude::*;
use crate::cards::join_sp;
use crate::git::{skip_space, word_end, words_from};
use crate::links::{opt_view, LinkView, RawLink};
use crate::text::{chars_of, extend_range, extend_str, is_ws, str_views, string_of, strip_suffix_all};

verus! {

/// A link into (or out of) a note, with the note at its other end.
#[derive(Clone, Debug)]
pub struct BacklinkHit {
    pub source_path: String,
    pub source_title: String,
    pub from_block_id: Option<String>,
    pub to_block_id: Option<String>,
    pub context: String,
    pub link_type: String,
}

/// A link whose target note does not exist.
#[derive(Clone, Debug)]
pub struct DanglingLink {
    pub from_note: String,
    pub to_alias: String,
    pub context: String,
}

/// Counts of a block and link reindex.
#[derive(Clone, Copy, Debug)]
pub struct ReindexBlocksResult {
    pub notes_indexed: usize,
    pub blocks_total: usize,
    pub links_total: usize,
}

/// Counts of a card reindex.
#[derive(Clone, Copy, Debug)]
pub struct ReindexCardsResult {
    pub notes_indexed: usize,
    pub cards_total: usize,
}

/// A note of the link graph.
#[derive(Clone, Debug)]
pub struct GraphNodeData {
    pub id: String,
    pub label: String,
    pub kind: String,
    /// The node's degree (in plus out) plus 5.
    pub size: i64,
    pub in_degree: i64,
    pub out_degree: i64,
    pub tags: Vec<String>,
}

/// A resolved link of the link graph.
#[derive(Clone, Debug)]
pub struct GraphEdgeData {
    pub id: String,
    pub source: String,
    pub target: String,
    pub kind: String,
}

/// The link graph of the vault.
#[derive(Clone, Debug)]
pub struct GraphData {
    pub nodes: Vec<GraphNodeData>,
    pub edges: Vec<GraphEdgeData>,
}


// ---------------------------------------------------------------------------
// Full-text queries
// ---------------------------------------------------------------------------

/// CJK ideographs (U+4E00..U+9FFF, U+3400..U+4DBF), hiragana and katakana.
pub open spec fn cjk(c: char) -> bool {
    let u = c as u32;
    (0x4e00 <= u && u <= 0x9fff) || (0x3400 <= u && u <= 0x4dbf) || (0x3040 <= u && u <= 0x309f)
        || (0x30a0 <= u && u <= 0x30ff)
}

/// Whether `c` is a CJK ideograph, hiragana or katakana.
pub fn is_cjk(c: char) -> (b: bool)
    ensures
        b == cjk(c),
{
    let u = c as u32;
    (0x4e00 <= u && u <= 0x9fff) || (0x3400 <= u && u <= 0x4dbf) || (0x3040 <= u && u <= 0x309f)
        || (0x30a0 <= u && u <= 0x30ff)
}

/// What `char::is_alphanumeric` says of `c`.
pub uninterp spec fn alphanumeric(c: char) -> bool;

/// `char::is_alphanumeric`. Trusted: the answer is named by `alphanumeric`.
#[verifier::external_body]
fn is_alphanumeric(c: char) -> (b: bool)
    ensures
        b == alphanumeric(c),
{
    c.is_alphanumeric()
}

/// An ASCII letter or digit (all of which `char::is_alphanumeric` accepts).
pub open spec fn ascii_alnum(c: char) -> bool {
    ('0' <= c && c <= '9') || ('a' <= c && c <= 'z') || ('A' <= c && c <= 'Z')
}

/// Whether `c` is an ASCII letter or digit.
fn is_ascii_alnum(c: char) -> (b: bool)
    ensures
        b == ascii_alnum(c),
{
    let u = c as u32;
    (48 <= u && u <= 57) || (97 <= u && u <= 122) || (65 <= u && u <= 90)
}

/// The characters a query term keeps: letters and digits (ASCII ones, and
/// whatever else `char::is_alphanumeric` accepts), `_`, `-` and CJK.
pub open spec fn term_char(c: char) -> bool {
    ascii_alnum(c) || alphanumeric(c) || c == '_' || c == '-' || cjk(c)
}

/// `w` with only the characters a term keeps.
pub open spec fn term_chars(w: Seq<char>) -> Seq<char>
    decreases w.len(),
{
    if w.len() == 0 {
        Seq::empty()
    } else if term_char(w.last()) {
        term_chars(w.drop_last()).push(w.last())
    } else {
        term_chars(w.drop_last())
    }
}

/// Each word with characters left, quoted and marked as a prefix: `"word"*`.
pub open spec fn query_terms(ws: Seq<Seq<char>>) -> Seq<Seq<char>>
    decreases ws.len(),
{
    if ws.len() == 0 {
        Seq::empty()
    } else {
        let rest = query_terms(ws.drop_last());
        let t = term_chars(ws.last());
        if t.len() == 0 {
            rest
        } else {
            rest.push(seq!['"'] + t + seq!['"', '*'])
        }
    }
}

/// The full-text query for `q`: its words as quoted prefix terms, joined by
/// spaces; empty when no word keeps a character.
pub open spec fn fts_query(q: Seq<char>) -> Seq<char> {
    join_sp(query_terms(words_from(q, 0)))
}

/// A safe full-text prefix query for the search text `q`.
pub fn escape_fts_query(q: &str) -> (r: String)
    ensures
        r@ == fts_query(q@),
{
    let v = chars_of(q);
    let ws = crate::git::word_ranges(&v, 0, v.len());
    assert(v@.subrange(0, v@.len() as int) =~= v@);
    let ghost wv = words_from(v@, 0);
    let ghost mut terms: Seq<Seq<char>> = Seq::empty();
    let mut out: Vec<char> = Vec::new();
    let mut any = false;
    let mut k: usize = 0;
    while k < ws.len()
        invariant
            k <= ws@.len() == wv.len(),
            v@ == q@,
            wv == words_from(v@, 0),
            forall|j: int|
                0 <= j < ws@.len() ==> (#[trigger] ws@[j]).0 <= ws@[j].1 <= v@.len() && v@.subrange(
                    ws@[j].0 as int,
                    ws@[j].1 as int,
                ) == wv[j],
            terms == query_terms(wv.take(k as int)),
            out@ == join_sp(terms),
            any == (terms.len() > 0),
        decreases ws.len() - k,
    {
        let (a, b) = ws[k];
        let ghost w = wv[k as int];
        assert(wv.take(k + 1).drop_last() =~= wv.take(k as int));
        assert(wv.take(k + 1).last() == w);
        let mut t: Vec<char> = Vec::new();
        let mut i = a;
        assert(w.take(0) =~= Seq::<char>::empty());
        while i < b
            invariant
                a <= i <= b <= v.len(),
                w == v@.subrange(a as int, b as int),
                t@ == term_chars(w.take(i - a)),
            decreases b - i,
        {
            let c = v[i];
            assert(w.take(i - a + 1).drop_last() =~= w.take(i - a));
            assert(w.take(i - a + 1).last() == c);
            if is_ascii_alnum(c) || is_alphanumeric(c) || c == '_' || c == '-' || is_cjk(c) {
                t.push(c);
            }
            i = i + 1;
        }
        assert(w.take(b - a) =~= w);
        if t.len() > 0 {
            let ghost before = out@;
            let ghost term = seq!['"'] + t@ + seq!['"', '*'];
            if any {
                out.push(' ');
            }
            out.push('"');
            extend_range(&mut out, &t, 0, t.len());
            out.push('"');
            out.push('*');
            proof {
                assert(t@.subrange(0, t@.len() as int) =~= t@);
                assert(terms.push(term).drop_last() =~= terms);
                if terms.len() > 0 {
                    assert(out@ =~= before + seq![' '] + term);
                } else {
                    assert(out@ =~= term);
                    assert(terms.push(term) =~= seq![term]);
                }
                terms = terms.push(term);
            }
            any = true;
        }
        k = k + 1;
    }
    assert(wv.take(ws.len() as int) =~= wv);
    string_of(&out)
}

// ---------------------------------------------------------------------------
// Keeping the index in step with the files
// ---------------------------------------------------------------------------

/// A note is (re)indexed when its stored hash is missing or differs.
pub fn needs_update(stored_hash: &Option<String>, hash: &str) -> (r: bool)
    ensures
        r == match stored_hash {
            Some(h) => h@ != hash@,
            None => true,
        },
{
    match stored_hash {
        Some(h) => !crate::text::str_eq(h.as_str(), hash),
        None => true,
    }
}

/// The indexed paths that are no longer on disk, each once.
pub fn paths_to_remove(indexed: &Vec<String>, on_disk: &Vec<String>) -> (r: Vec<String>)
    ensures
        forall|p: Seq<char>|
            str_views(r@).contains(p) <==> (str_views(indexed@).contains(p) && !str_views(
                on_disk@,
            ).contains(p)),
        forall|i: int, j: int|
            0 <= i < j < r@.len() ==> (#[trigger] r@[i])@ != (#[trigger] r@[j])@,
{
    let mut out: Vec<String> = Vec::new();
    let mut i: usize = 0;
    while i < indexed.len()
        invariant
            i <= indexed.len(),
            forall|p: Seq<char>|
                str_views(out@).contains(p) <==> (str_views(indexed@).take(i as int).contains(p)
                    && !str_views(on_disk@).contains(p)),
            forall|a: int, b: int|
                0 <= a < b < out@.len() ==> (#[trigger] out@[a])@ != (#[trigger] out@[b])@,
        decreases indexed.len() - i,
    {
        let p = &indexed[i];
        let on = contains_str(on_disk, p);
        let seen = contains_str(&out, p);
        let ghost before = str_views(out@);
        let ghost iv = str_views(indexed@);
        proof {
            assert(iv[i as int] == p@);
            assert forall|x: Seq<char>| iv.take(i + 1).contains(x) <==> (iv.take(i as int).contains(x)
                || x == p@) by {
                crate::notes::lemma_take_next_contains(iv, i as int, x);
            }
        }
        if !on && !seen {
            out.push(p.clone());
            proof {
                assert(str_views(out@) =~= before.push(p@));
                assert forall|x: Seq<char>| str_views(out@).contains(x) <==> (before.contains(x)
                    || x == p@) by {
                    if str_views(out@).contains(x) {
                        let j = choose|j: int| 0 <= j < str_views(out@).len() && #[trigger] str_views(out@)[j] == x;
                        if j < before.len() {
                            assert(before[j] == x);
                        }
                    }
                    if before.contains(x) {
                        let j = choose|j: int| 0 <= j < before.len() && #[trigger] before[j] == x;
                        assert(str_views(out@)[j] == x);
                    }
                    if x == p@ {
                        assert(str_views(out@)[before.len() as int] == x);
                    }
                }
                assert forall|a: int, b: int| 0 <= a < b < out@.len() implies (#[trigger] out@[a])@
                    != (#[trigger] out@[b])@ by {
                    if b == out@.len() - 1 {
                        assert(before[a] == out@[a]@);
                    }
                }
            }
        }
        proof {
            assert forall|x: Seq<char>| str_views(out@).contains(x) <==> (iv.take(i + 1).contains(x)
                && !str_views(on_disk@).contains(x)) by {
                if x == p@ {
                    assert(iv.take(i + 1)[i as int] == x);
                    assert(iv.take(i + 1).contains(x));
                } else {
                    assert(iv.take(i + 1).contains(x) == iv.take(i as int).contains(x));
                    if !on && !seen {
                        assert(str_views(out@).contains(x) == before.contains(x));
                    }
                }
            }
        }
        i = i + 1;
    }
    assert(str_views(indexed@).take(indexed.len() as int) =~= str_views(indexed@));
    out
}

/// Whether some string of `v` equals `p`.
pub fn contains_str(v: &Vec<String>, p: &String) -> (r: bool)
    ensures
        r == str_views(v@).contains(p@),
{
    let mut i: usize = 0;
    while i < v.len()
        invariant
            i <= v.len(),
            forall|j: int| 0 <= j < i ==> (#[trigger] v@[j])@ != p@,
        decreases v.len() - i,
    {
        if v[i] == *p {
            assert(str_views(v@)[i as int] == p@);
            return true;
        }
        i = i + 1;
    }
    proof {
        if str_views(v@).contains(p@) {
            let j = choose|j: int| 0 <= j < str_views(v@).len() && #[trigger] str_views(v@)[j] == p@;
            assert(v@[j]@ == p@);
        }
    }
    false
}

/// Links that resolve to no note, as listed: source note, target as
/// written, and context.
pub fn dangling_links(rows: Vec<(String, String, String)>) -> (r: Vec<DanglingLink>)
    ensures
        r@.len() == rows@.len(),
        forall|k: int| 0 <= k < r@.len() ==> {
            &&& (#[trigger] r@[k]).from_note@ == rows@[k].0@
            &&& r@[k].to_alias@ == rows@[k].1@
            &&& r@[k].context@ == rows@[k].2@
        },
{
    let mut out: Vec<DanglingLink> = Vec::new();
    let mut i: usize = 0;
    while i < rows.len()
        invariant
            i <= rows.len(),
            out@.len() == i,
            forall|k: int| 0 <= k < i ==> {
                &&& (#[trigger] out@[k]).from_note@ == rows@[k].0@
                &&& out@[k].to_alias@ == rows@[k].1@
                &&& out@[k].context@ == rows@[k].2@
            },
        decreases rows.len() - i,
    {
        let (a, b, c) = &rows[i];
        out.push(DanglingLink { from_note: a.clone(), to_alias: b.clone(), context: c.clone() });
        i = i + 1;
    }
    out
}

// ---------------------------------------------------------------------------
// Stable ordering
// ---------------------------------------------------------------------------

/// `r` lists the indices of `keys` once each, by key from high to low, equal
/// keys in their original order.
pub open spec fn stable_desc(keys: Seq<i64>, r: Seq<usize>) -> bool {
    &&& r.len() == keys.len()
    &&& forall|k: int| 0 <= k < r.len() ==> (#[trigger] r[k]) < keys.len()
    &&& forall|a: int, b: int| 0 <= a < b < r.len() ==> (#[trigger] r[a]) != (#[trigger] r[b])
    &&& forall|a: int, b: int|
        0 <= a < b < r.len() ==> keys[#[trigger] r[a] as int] > keys[#[trigger] r[b] as int] || (
        keys[r[a] as int] == keys[r[b] as int] && r[a] < r[b])
}

/// The order of a stable sort of `keys` from high to low.
pub fn stable_order_desc(keys: &Vec<i64>) -> (r: Vec<usize>)
    ensures
        stable_desc(keys@, r@),
{
    let mut out: Vec<usize> = Vec::new();
    let mut i: usize = 0;
    while i < keys.len()
        invariant
            i <= keys.len(),
            out@.len() == i,
            forall|k: int| 0 <= k < out@.len() ==> (#[trigger] out@[k]) < i,
            forall|a: int, b: int| 0 <= a < b < out@.len() ==> (#[trigger] out@[a]) != (#[trigger] out@[b]),
            forall|a: int, b: int|
                0 <= a < b < out@.len() ==> keys@[#[trigger] out@[a] as int] > keys@[#[trigger] out@[b] as int] || (
                keys@[out@[a] as int] == keys@[out@[b] as int] && out@[a] < out@[b]),
        decreases keys.len() - i,
    {
        let ki = keys[i];
        let mut pos: usize = 0;
        while pos < out.len() && keys[out[pos]] >= ki
            invariant
                pos <= out@.len(),
                forall|k: int| 0 <= k < out@.len() ==> (#[trigger] out@[k]) < i,
                i < keys@.len(),
                ki == keys@[i as int],
                forall|k: int| 0 <= k < pos ==> keys@[#[trigger] out@[k] as int] >= ki,
            decreases out@.len() - pos,
        {
            pos = pos + 1;
        }
        let ghost old_out = out@;
        out.insert(pos, i);
        proof {
            assert(out@ =~= old_out.insert(pos as int, i));
            assert forall|k: int| pos < k < out@.len() implies keys@[#[trigger] out@[k] as int] < ki by {
                assert(out@[k] == old_out[k - 1]);
                assert(keys@[old_out[pos as int] as int] < ki);
                if k - 1 > pos {
                }
            }
            assert forall|a: int, b: int| 0 <= a < b < out@.len() implies (#[trigger] out@[a]) != (#[trigger] out@[b]) by {
                if a < pos && b < pos {
                } else if a < pos && b == pos {
                } else if a < pos {
                    assert(out@[b] == old_out[b - 1]);
                } else if a == pos {
                    assert(out@[b] == old_out[b - 1]);
                } else {
                    assert(out@[a] == old_out[a - 1]);
                    assert(out@[b] == old_out[b - 1]);
                }
            }
            assert forall|a: int, b: int| 0 <= a < b < out@.len() implies keys@[#[trigger] out@[a] as int] > keys@[#[trigger] out@[b] as int] || (
                keys@[out@[a] as int] == keys@[out@[b] as int] && out@[a] < out@[b]) by {
                if a < pos && b < pos {
                    assert(out@[a] == old_out[a]);
                    assert(out@[b] == old_out[b]);
                } else if a < pos && b == pos {
                    assert(out@[a] == old_out[a]);
                } else if a < pos {
                    assert(out@[a] == old_out[a]);
                    assert(out@[b] == old_out[b - 1]);
                } else if a == pos {
                    assert(out@[b] == old_out[b - 1]);
                } else {
                    assert(out@[a] == old_out[a - 1]);
                    assert(out@[b] == old_out[b - 1]);
                }
            }
        }
        i = i + 1;
    }
    out
}


// ---------------------------------------------------------------------------
// Resolving links
// ---------------------------------------------------------------------------

/// A link as stored, with the note (and block) it resolves to.
#[derive(Clone, Debug)]
pub struct ResolvedLink {
    pub from_block_id: Option<String>,
    pub to_note_id: Option<String>,
    pub to_block_id: Option<String>,
    pub to_alias: String,
    pub link_type: String,
    pub context: String,
}

pub struct ResolvedView {
    pub from_block_id: Option<Seq<char>>,
    pub to_note_id: Option<Seq<char>>,
    pub to_block_id: Option<Seq<char>>,
    pub to_alias: Seq<char>,
    pub link_type: Seq<char>,
    pub context: Seq<char>,
}

impl View for ResolvedLink {
    type V = ResolvedView;

    open spec fn view(&self) -> ResolvedView {
        ResolvedView {
            from_block_id: opt_view(self.from_block_id),
            to_note_id: opt_view(self.to_note_id),
            to_block_id: opt_view(self.to_block_id),
            to_alias: self.to_alias@,
            link_type: self.link_type@,
            context: self.context@,
        }
    }
}

pub open spec fn pair_views(v: Seq<(String, String)>) -> Seq<(Seq<char>, Seq<char>)> {
    v.map_values(|p: (String, String)| (p.0@, p.1@))
}

/// Each note's path without `.md` (all trailing `.md` removed), mapped to
/// its path.
pub open spec fn stem_pairs(notes: Seq<(Seq<char>, Seq<char>)>) -> Seq<(Seq<char>, Seq<char>)> {
    notes.map_values(|n: (Seq<char>, Seq<char>)| (strip_suffix_all(n.0, ".md"@), n.0))
}

/// Each note's title, mapped to its path.
pub open spec fn title_pairs(notes: Seq<(Seq<char>, Seq<char>)>) -> Seq<(Seq<char>, Seq<char>)> {
    notes.map_values(|n: (Seq<char>, Seq<char>)| (n.1, n.0))
}

/// The value last recorded for `key`.
pub open spec fn last_value(pairs: Seq<(Seq<char>, Seq<char>)>, key: Seq<char>) -> Option<Seq<char>>
    decreases pairs.len(),
{
    if pairs.len() == 0 {
        None
    } else if pairs.last().0 == key {
        Some(pairs.last().1)
    } else {
        last_value(pairs.drop_last(), key)
    }
}

/// The note named `alias`: a note whose path is `alias` with `.md` is found
/// first; failing that, a note titled `alias`. Among several notes that
/// match the same way, the last one read wins.
pub open spec fn note_named(notes: Seq<(Seq<char>, Seq<char>)>, alias: Seq<char>) -> Option<Seq<char>> {
    match last_value(stem_pairs(notes), alias) {
        Some(p) => Some(p),
        None => last_value(title_pairs(notes), alias),
    }
}

/// How a link resolves, given the notes (path, title) and the blocks
/// (id, note path) of the index: a block reference goes to the note holding
/// the block, else to the note of that name; other links go to the note of
/// that name (see `note_named`).
pub open spec fn resolve(
    notes: Seq<(Seq<char>, Seq<char>)>,
    blocks: Seq<(Seq<char>, Seq<char>)>,
    l: LinkView,
) -> ResolvedView {
    let to_note = note_named(notes, l.to_alias);
    let block_ref = l.link_type == "block_ref"@;
    ResolvedView {
        from_block_id: l.from_block_id,
        to_note_id: if block_ref {
            match last_value(blocks, l.to_alias) {
                Some(n) => Some(n),
                None => to_note,
            }
        } else {
            to_note
        },
        to_block_id: if block_ref {
            Some(l.to_alias)
        } else {
            l.to_block_id
        },
        to_alias: l.to_alias,
        link_type: l.link_type,
        context: l.context,
    }
}

/// The value last recorded for `key` in `pairs`.
fn last_lookup(pairs: &Vec<(String, String)>, key: &String) -> (r: Option<String>)
    ensures
        opt_view(r) == last_value(pair_views(pairs@), key@),
{
    let ghost pv = pair_views(pairs@);
    let mut k = pairs.len();
    assert(pv.take(k as int) =~= pv);
    while k > 0
        invariant
            k <= pairs.len(),
            pv == pair_views(pairs@),
            last_value(pv, key@) == last_value(pv.take(k as int), key@),
        decreases k,
    {
        assert(pv.take(k as int).last() == (pairs@[k - 1].0@, pairs@[k - 1].1@));
        if pairs[k - 1].0 == *key {
            return Some(pairs[k - 1].1.clone());
        }
        assert(pv.take(k as int).drop_last() =~= pv.take(k - 1));
        k = k - 1;
    }
    None
}

/// The names notes are found by: each path without `.md`, and each title,
/// in two tables.
fn alias_tables(notes: &Vec<(String, String)>) -> (r: (Vec<(String, String)>, Vec<(String, String)>))
    ensures
        pair_views(r.0@) == stem_pairs(pair_views(notes@)),
        pair_views(r.1@) == title_pairs(pair_views(notes@)),
{
    let ghost nv = pair_views(notes@);
    let md = chars_of(".md");
    let mut stems: Vec<(String, String)> = Vec::new();
    let mut titles: Vec<(String, String)> = Vec::new();
    let mut i: usize = 0;
    while i < notes.len()
        invariant
            i <= notes.len(),
            nv == pair_views(notes@),
            md@ == ".md"@,
            stems@.len() == i,
            titles@.len() == i,
            forall|k: int|
                0 <= k < i ==> (#[trigger] stems@[k]).0@ == strip_suffix_all(notes@[k].0@, ".md"@)
                    && stems@[k].1@ == notes@[k].0@,
            forall|k: int| 0 <= k < i ==> (#[trigger] titles@[k]).0@ == notes@[k].1@ && titles@[k].1@ == notes@[k].0@,
        decreases notes.len() - i,
    {
        let (p, t) = &notes[i];
        let pv = chars_of(p.as_str());
        let e = crate::text::strip_suffix_all_exec(&pv, 0, pv.len(), &md);
        assert(pv@.subrange(0, pv@.len() as int) =~= pv@);
        let stem = crate::text::string_of_range(&pv, 0, e);
        stems.push((stem, p.clone()));
        titles.push((t.clone(), p.clone()));
        i = i + 1;
    }
    assert(pair_views(stems@) =~= stem_pairs(nv)) by {
        assert forall|k: int| 0 <= k < stems@.len() implies #[trigger] pair_views(stems@)[k] == stem_pairs(nv)[k] by {
            assert(stems@[k].0@ == strip_suffix_all(notes@[k].0@, ".md"@));
        }
    }
    assert(pair_views(titles@) =~= title_pairs(nv)) by {
        assert forall|k: int| 0 <= k < titles@.len() implies #[trigger] pair_views(titles@)[k] == title_pairs(nv)[k] by {
            assert(titles@[k].0@ == notes@[k].1@);
        }
    }
    (stems, titles)
}

/// The note named `alias` (see `note_named`), given the two name tables.
fn lookup_note(stems: &Vec<(String, String)>, titles: &Vec<(String, String)>, alias: &String) -> (r: Option<String>)
    ensures
        opt_view(r) == match last_value(pair_views(stems@), alias@) {
            Some(p) => Some(p),
            None => last_value(pair_views(titles@), alias@),
        },
{
    match last_lookup(stems, alias) {
        Some(p) => Some(p),
        None => last_lookup(titles, alias),
    }
}

/// The links of a note as stored, resolved against the notes (path, title)
/// and blocks (id, note path) of the index.
pub fn resolve_links(
    notes: &Vec<(String, String)>,
    blocks: &Vec<(String, String)>,
    links: &[RawLink],
) -> (r: Vec<ResolvedLink>)
    ensures
        r@.len() == links@.len(),
        forall|k: int|
            0 <= k < r@.len() ==> (#[trigger] r@[k])@ == resolve(
                pair_views(notes@),
                pair_views(blocks@),
                links@[k]@,
            ),
{
    let (stems, titles) = alias_tables(notes);
    let mut out: Vec<ResolvedLink> = Vec::new();
    let mut i: usize = 0;
    while i < links.len()
        invariant
            i <= links@.len(),
            pair_views(stems@) == stem_pairs(pair_views(notes@)),
            pair_views(titles@) == title_pairs(pair_views(notes@)),
            out@.len() == i,
            forall|k: int|
                0 <= k < i ==> (#[trigger] out@[k])@ == resolve(
                    pair_views(notes@),
                    pair_views(blocks@),
                    links@[k]@,
                ),
        decreases links@.len() - i,
    {
        let l = &links[i];
        let to_note = lookup_note(&stems, &titles, &l.to_alias);
        let block_ref = crate::text::str_eq(l.link_type.as_str(), "block_ref");
        let (to_note_id, to_block_id) = if block_ref {
            let n = match last_lookup(blocks, &l.to_alias) {
                Some(n) => Some(n),
                None => to_note,
            };
            (n, Some(l.to_alias.clone()))
        } else {
            (to_note, crate::links::clone_opt(&l.to_block_id))
        };
        out.push(
            ResolvedLink {
                from_block_id: crate::links::clone_opt(&l.from_block_id),
                to_note_id,
                to_block_id,
                to_alias: l.to_alias.clone(),
                link_type: l.link_type.clone(),
                context: l.context.clone(),
            },
        );
        i = i + 1;
    }
    out
}


// ---------------------------------------------------------------------------
// The link graph
// ---------------------------------------------------------------------------

/// A resolved link as read from the index: source and target notes, link
/// type, and the blocks at either end.
#[derive(Clone, Debug)]
pub struct LinkRow {
    pub from: String,
    pub to: String,
    pub kind: String,
    pub from_block: Option<String>,
    pub to_block: Option<String>,
}

pub struct LinkRowView {
    pub from: Seq<char>,
    pub to: Seq<char>,
    pub kind: Seq<char>,
    pub from_block: Option<Seq<char>>,
    pub to_block: Option<Seq<char>>,
}

impl View for LinkRow {
    type V = LinkRowView;

    open spec fn view(&self) -> LinkRowView {
        LinkRowView {
            from: self.from@,
            to: self.to@,
            kind: self.kind@,
            from_block: opt_view(self.from_block),
            to_block: opt_view(self.to_block),
        }
    }
}

pub open spec fn row_views(v: Seq<LinkRow>) -> Seq<LinkRowView> {
    v.map_values(|r: LinkRow| r@)
}

/// The links whose target is `p`.
pub open spec fn count_to(links: Seq<LinkRowView>, p: Seq<char>) -> nat
    decreases links.len(),
{
    if links.len() == 0 {
        0
    } else {
        count_to(links.drop_last(), p) + if links.last().to == p {
            1nat
        } else {
            0nat
        }
    }
}

/// The links whose source is `p`.
pub open spec fn count_from(links: Seq<LinkRowView>, p: Seq<char>) -> nat
    decreases links.len(),
{
    if links.len() == 0 {
        0
    } else {
        count_from(links.drop_last(), p) + if links.last().from == p {
            1nat
        } else {
            0nat
        }
    }
}

/// The tags of note `p`, in the order of the rows (path, tag).
pub open spec fn tags_for(tags: Seq<(Seq<char>, Seq<char>)>, p: Seq<char>) -> Seq<Seq<char>>
    decreases tags.len(),
{
    if tags.len() == 0 {
        Seq::empty()
    } else if tags.last().0 == p {
        tags_for(tags.drop_last(), p).push(tags.last().1)
    } else {
        tags_for(tags.drop_last(), p)
    }
}

/// A graph node as values: id, label, kind, size, in-degree, out-degree, tags.
pub struct NodeView {
    pub id: Seq<char>,
    pub label: Seq<char>,
    pub kind: Seq<char>,
    pub size: int,
    pub in_degree: int,
    pub out_degree: int,
    pub tags: Seq<Seq<char>>,
}

impl View for GraphNodeData {
    type V = NodeView;

    open spec fn view(&self) -> NodeView {
        NodeView {
            id: self.id@,
            label: self.label@,
            kind: self.kind@,
            size: self.size as int,
            in_degree: self.in_degree as int,
            out_degree: self.out_degree as int,
            tags: str_views(self.tags@),
        }
    }
}

/// The swapped pairs (path, title) → (path, title) lookup by path.
pub open spec fn note_title(notes: Seq<(Seq<char>, Seq<char>)>, p: Seq<char>) -> Seq<char> {
    match last_value(notes, p) {
        Some(t) => t,
        None => Seq::empty(),
    }
}

/// The node of note `p`: labelled by its (last recorded) title, its size
/// the number of links in and out plus five.
pub open spec fn node_of(
    notes: Seq<(Seq<char>, Seq<char>)>,
    tags: Seq<(Seq<char>, Seq<char>)>,
    links: Seq<LinkRowView>,
    p: Seq<char>,
) -> NodeView {
    NodeView {
        id: p,
        label: note_title(notes, p),
        kind: "note"@,
        size: (count_to(links, p) + count_from(links, p) + 5) as int,
        in_degree: count_to(links, p) as int,
        out_degree: count_from(links, p) as int,
        tags: tags_for(tags, p),
    }
}

pub open spec fn or_dash(o: Option<Seq<char>>) -> Seq<char> {
    match o {
        Some(t) => t,
        None => "-"@,
    }
}

/// An edge as values: id, source, target, kind.
pub open spec fn edge_view(e: GraphEdgeData) -> (Seq<char>, Seq<char>, Seq<char>, Seq<char>) {
    (e.id@, e.source@, e.target@, e.kind@)
}

/// The edge of a link: its id is `from->to/from_block/to_block`, with `-`
/// for a missing block.
pub open spec fn edge_of(l: LinkRowView) -> (Seq<char>, Seq<char>, Seq<char>, Seq<char>) {
    (
        l.from + "->"@ + l.to + "/"@ + or_dash(l.from_block) + "/"@ + or_dash(l.to_block),
        l.from,
        l.to,
        l.kind,
    )
}

/// A path of the notes (path, title).
pub open spec fn is_note_path(notes: Seq<(Seq<char>, Seq<char>)>, p: Seq<char>) -> bool {
    exists|i: int| 0 <= i < notes.len() && (#[trigger] notes[i]).0 == p
}

fn count_links(links: &Vec<LinkRow>, p: &String) -> (r: (i64, i64))
    requires
        links@.len() < 0x1000_0000_0000_0000,
    ensures
        r.0 == count_to(row_views(links@), p@),
        r.1 == count_from(row_views(links@), p@),
        0 <= r.0 <= links@.len(),
        0 <= r.1 <= links@.len(),
{
    let ghost lv = row_views(links@);
    let mut a: i64 = 0;
    let mut b: i64 = 0;
    let mut i: usize = 0;
    while i < links.len()
        invariant
            i <= links@.len() < 0x1000_0000_0000_0000,
            lv == row_views(links@),
            a == count_to(lv.take(i as int), p@),
            b == count_from(lv.take(i as int), p@),
            a <= i && b <= i,
        decreases links.len() - i,
    {
        assert(lv.take(i + 1).drop_last() =~= lv.take(i as int));
        assert(lv.take(i + 1).last() == links@[i as int]@);
        if links[i].to == *p {
            a = a + 1;
        }
        if links[i].from == *p {
            b = b + 1;
        }
        i = i + 1;
    }
    assert(lv.take(links.len() as int) =~= lv);
    (a, b)
}

fn tags_of(tags: &Vec<(String, String)>, p: &String) -> (r: Vec<String>)
    ensures
        str_views(r@) == tags_for(pair_views(tags@), p@),
{
    let ghost tv = pair_views(tags@);
    let mut out: Vec<String> = Vec::new();
    let mut i: usize = 0;
    while i < tags.len()
        invariant
            i <= tags.len(),
            tv == pair_views(tags@),
            str_views(out@) == tags_for(tv.take(i as int), p@),
        decreases tags.len() - i,
    {
        assert(tv.take(i + 1).drop_last() =~= tv.take(i as int));
        assert(tv.take(i + 1).last() == (tags@[i as int].0@, tags@[i as int].1@));
        if tags[i].0 == *p {
            let t = tags[i].1.clone();
            let ghost before = str_views(out@);
            out.push(t);
            assert(str_views(out@) =~= before.push(tags@[i as int].1@));
        }
        i = i + 1;
    }
    assert(tv.take(tags.len() as int) =~= tv);
    out
}

fn edge_for(l: &LinkRow) -> (r: GraphEdgeData)
    ensures
        edge_view(r) == edge_of(l@),
{
    let mut id: Vec<char> = Vec::new();
    extend_str(&mut id, l.from.as_str());
    extend_str(&mut id, "->");
    extend_str(&mut id, l.to.as_str());
    extend_str(&mut id, "/");
    match &l.from_block {
        Some(b) => extend_str(&mut id, b.as_str()),
        None => extend_str(&mut id, "-"),
    }
    extend_str(&mut id, "/");
    match &l.to_block {
        Some(b) => extend_str(&mut id, b.as_str()),
        None => extend_str(&mut id, "-"),
    }
    assert(id@ =~= edge_of(l@).0);
    GraphEdgeData { id: string_of(&id), source: l.from.clone(), target: l.to.clone(), kind: l.kind.clone() }
}

/// The distinct paths of the notes, in the order they first appear.
fn distinct_paths(notes: &Vec<(String, String)>) -> (r: Vec<String>)
    ensures
        forall|a: int, b: int| 0 <= a < b < r@.len() ==> (#[trigger] r@[a])@ != (#[trigger] r@[b])@,
        forall|p: Seq<char>| str_views(r@).contains(p) <==> is_note_path(pair_views(notes@), p),
{
    let ghost nv = pair_views(notes@);
    let mut out: Vec<String> = Vec::new();
    let mut i: usize = 0;
    while i < notes.len()
        invariant
            i <= notes.len(),
            nv == pair_views(notes@),
            forall|a: int, b: int| 0 <= a < b < out@.len() ==> (#[trigger] out@[a])@ != (#[trigger] out@[b])@,
            forall|p: Seq<char>| str_views(out@).contains(p) <==> is_note_path(nv.take(i as int), p),
        decreases notes.len() - i,
    {
        let p = &notes[i].0;
        let seen = contains_str(&out, p);
        let ghost before = str_views(out@);
        if !seen {
            out.push(p.clone());
            proof {
                assert(str_views(out@) =~= before.push(p@));
                assert forall|a: int, b: int| 0 <= a < b < out@.len() implies (#[trigger] out@[a])@
                    != (#[trigger] out@[b])@ by {
                    if b == out@.len() - 1 {
                        assert(before[a] == out@[a]@);
                    }
                }
            }
        }
        proof {
            assert forall|x: Seq<char>| str_views(out@).contains(x) <==> is_note_path(nv.take(i + 1), x) by {
                assert(nv.take(i + 1)[i as int].0 == p@);
                if is_note_path(nv.take(i + 1), x) {
                    let j = choose|j: int| 0 <= j < nv.take(i + 1).len() && (#[trigger] nv.take(i + 1)[j]).0 == x;
                    if j < i {
                        assert(nv.take(i as int)[j] == nv.take(i + 1)[j]);
                        assert(is_note_path(nv.take(i as int), x));
                    }
                }
                if is_note_path(nv.take(i as int), x) {
                    let j = choose|j: int| 0 <= j < nv.take(i as int).len() && (#[trigger] nv.take(i as int)[j]).0 == x;
                    assert(nv.take(i + 1)[j] == nv.take(i as int)[j]);
                }
                if x == p@ {
                    if !seen {
                        assert(str_views(out@)[before.len() as int] == x);
                    }
                }
                if !seen && str_views(out@).contains(x) && x != p@ {
                    let j = choose|j: int| 0 <= j < str_views(out@).len() && #[trigger] str_views(out@)[j] == x;
                    if j < before.len() {
                        assert(before[j] == x);
                    }
                }
                if !seen && before.contains(x) {
                    let j = choose|j: int| 0 <= j < before.len() && #[trigger] before[j] == x;
                    assert(str_views(out@)[j] == x);
                }
            }
        }
        i = i + 1;
    }
    assert(nv.take(notes.len() as int) =~= nv);
    out
}

/// The link graph: a node for each note (by degree, highest first) and an
/// edge for each resolved link, from the notes (path, title), the tags
/// (path, tag) and the resolved links of the index.
pub fn build_graph(notes: &Vec<(String, String)>, tags: &Vec<(String, String)>, links: &Vec<LinkRow>) -> (r: GraphData)
    requires
        links@.len() < 0x1000_0000_0000_0000,
    ensures
        r.edges@.len() == links@.len(),
        forall|k: int| 0 <= k < r.edges@.len() ==> edge_view(#[trigger] r.edges@[k]) == edge_of(links@[k]@),
        forall|k: int|
            0 <= k < r.nodes@.len() ==> (#[trigger] r.nodes@[k])@ == node_of(
                pair_views(notes@),
                pair_views(tags@),
                row_views(links@),
                r.nodes@[k].id@,
            ) && is_note_path(pair_views(notes@), r.nodes@[k].id@),
        forall|p: Seq<char>|
            is_note_path(pair_views(notes@), p) ==> exists|k: int|
                0 <= k < r.nodes@.len() && (#[trigger] r.nodes@[k]).id@ == p,
        forall|a: int, b: int|
            0 <= a < b < r.nodes@.len() ==> (#[trigger] r.nodes@[a]).id@ != (#[trigger] r.nodes@[b]).id@,
        forall|a: int, b: int|
            0 <= a < b < r.nodes@.len() ==> (#[trigger] r.nodes@[a]).in_degree + r.nodes@[a].out_degree
                >= (#[trigger] r.nodes@[b]).in_degree + r.nodes@[b].out_degree,
{
    let mut edges: Vec<GraphEdgeData> = Vec::new();
    let mut i: usize = 0;
    while i < links.len()
        invariant
            i <= links.len(),
            edges@.len() == i,
            forall|k: int| 0 <= k < i ==> edge_view(#[trigger] edges@[k]) == edge_of(links@[k]@),
        decreases links.len() - i,
    {
        edges.push(edge_for(&links[i]));
        i = i + 1;
    }
    let paths = distinct_paths(notes);
    let mut keys: Vec<i64> = Vec::new();
    let mut j: usize = 0;
    while j < paths.len()
        invariant
            j <= paths.len(),
            links@.len() < 0x1000_0000_0000_0000,
            keys@.len() == j,
            forall|k: int| 0 <= k < j ==> #[trigger] keys@[k] == count_to(row_views(links@), paths@[k]@)
                + count_from(row_views(links@), paths@[k]@),
        decreases paths.len() - j,
    {
        let (a, b) = count_links(links, &paths[j]);
        keys.push(a + b);
        j = j + 1;
    }
    let order = stable_order_desc(&keys);
    let ghost nv = pair_views(notes@);
    let mut nodes: Vec<GraphNodeData> = Vec::new();
    let mut k: usize = 0;
    while k < order.len()
        invariant
            k <= order@.len(),
            stable_desc(keys@, order@),
            keys@.len() == paths@.len(),
            links@.len() < 0x1000_0000_0000_0000,
            nv == pair_views(notes@),
            forall|q: int| 0 <= q < paths@.len() ==> #[trigger] keys@[q] == count_to(row_views(links@), paths@[q]@)
                + count_from(row_views(links@), paths@[q]@),
            nodes@.len() == k,
            forall|q: int| 0 <= q < k ==> (#[trigger] nodes@[q]).id@ == paths@[order@[q] as int]@,
            forall|q: int|
                0 <= q < k ==> (#[trigger] nodes@[q])@ == node_of(
                    nv,
                    pair_views(tags@),
                    row_views(links@),
                    nodes@[q].id@,
                ),
        decreases order.len() - k,
    {
        let p = &paths[order[k]];
        let (a, b) = count_links(links, p);
        let title = last_lookup(notes, p);
        let label = match title {
            Some(t) => t,
            None => String::new(),
        };
        let n = GraphNodeData {
            id: p.clone(),
            label,
            kind: "note".to_owned(),
            size: a + b + 5,
            in_degree: a,
            out_degree: b,
            tags: tags_of(tags, p),
        };
        nodes.push(n);
        k = k + 1;
    }
    proof {
        assert forall|q: int| 0 <= q < nodes@.len() implies is_note_path(nv, (#[trigger] nodes@[q]).id@) by {
            assert(str_views(paths@)[order@[q] as int] == nodes@[q].id@);
        }
        assert forall|p: Seq<char>| is_note_path(nv, p) implies exists|q: int|
            0 <= q < nodes@.len() && (#[trigger] nodes@[q]).id@ == p by {
            assert(str_views(paths@).contains(p));
            let j = choose|j: int| 0 <= j < str_views(paths@).len() && #[trigger] str_views(paths@)[j] == p;
            lemma_perm_hits(order@, paths@.len(), j);
            let q = choose|q: int| 0 <= q < order@.len() && order@[q] == j;
            assert(nodes@[q].id@ == p);
            assert(0 <= q < nodes@.len() && nodes@[q].id@ == p);
        }
        assert(forall|p: Seq<char>|
            is_note_path(pair_views(notes@), p) ==> exists|k: int|
                0 <= k < nodes@.len() && (#[trigger] nodes@[k]).id@ == p);
        assert forall|a: int, b: int| 0 <= a < b < nodes@.len() implies (#[trigger] nodes@[a]).id@
            != (#[trigger] nodes@[b]).id@ by {
            assert(order@[a] != order@[b]);
        }
        assert forall|a: int, b: int| 0 <= a < b < nodes@.len() implies (#[trigger] nodes@[a]).in_degree
            + nodes@[a].out_degree >= (#[trigger] nodes@[b]).in_degree + nodes@[b].out_degree by {
            assert(keys@[order@[a] as int] >= keys@[order@[b] as int]);
        }
    }
    let r = GraphData { nodes, edges };
    assert(forall|p: Seq<char>|
        is_note_path(pair_views(notes@), p) ==> exists|k: int|
            0 <= k < r.nodes@.len() && (#[trigger] r.nodes@[k]).id@ == p) by {
        assert(r.nodes@ == nodes@);
        assert forall|p: Seq<char>| is_note_path(pair_views(notes@), p) implies exists|k: int|
            0 <= k < r.nodes@.len() && (#[trigger] r.nodes@[k]).id@ == p by {
            let k = choose|k: int| 0 <= k < nodes@.len() && (#[trigger] nodes@[k]).id@ == p;
            assert(r.nodes@[k].id@ == p);
        }
    }
    r
}

/// A sequence of `n` distinct indices below `n` hits every index below `n`.
proof fn lemma_perm_hits(r: Seq<usize>, n: nat, j: int)
    requires
        r.len() == n,
        forall|k: int| 0 <= k < r.len() ==> (#[trigger] r[k]) < n,
        forall|a: int, b: int| 0 <= a < b < r.len() ==> (#[trigger] r[a]) != (#[trigger] r[b]),
        0 <= j < n,
    ensures
        exists|q: int| 0 <= q < r.len() && r[q] == j,
{
    if !(exists|q: int| 0 <= q < r.len() && r[q] == j) {
        let rs = r.map_values(|x: usize| x as int);
        assert(rs.no_duplicates()) by {
            assert forall|a: int, b: int| 0 <= a < rs.len() && 0 <= b < rs.len() && a != b implies rs[a]
                != rs[b] by {
                if a < b {
                    assert(r[a] != r[b]);
                } else {
                    assert(r[b] != r[a]);
                }
            }
        }
        rs.unique_seq_to_set();
        vstd::set_lib::lemma_int_range(0, n as int);
        let full = vstd::set_lib::set_int_range(0, n as int);
        assert(full.contains(j));
        let small = full.remove(j);
        assert(small.len() == n - 1);
        assert forall|x: int| rs.to_set().contains(x) implies small.contains(x) by {
            assert(rs.contains(x));
            let q = choose|q: int| 0 <= q < rs.len() && rs[q] == x;
            assert(r[q] < n);
            assert(r[q] != j);
        }
        assert(rs.to_set().subset_of(small));
        vstd::set_lib::lemma_len_subset(rs.to_set(), small);
        assert(false);
    }
}


// ---------------------------------------------------------------------------
// Laws
// ---------------------------------------------------------------------------

/// A character a query may hold: term characters, quotes, `*` and spaces.
pub open spec fn query_char(c: char) -> bool {
    term_char(c) || c == '"' || c == '*' || c == ' '
}

pub open spec fn all_query_chars(s: Seq<char>) -> bool {
    forall|i: int| 0 <= i < s.len() ==> query_char(#[trigger] s[i])
}

proof fn lemma_term_chars(w: Seq<char>)
    ensures
        forall|i: int| 0 <= i < term_chars(w).len() ==> term_char(#[trigger] term_chars(w)[i]),
    decreases w.len(),
{
    if w.len() > 0 {
        lemma_term_chars(w.drop_last());
        let p = term_chars(w.drop_last());
        if term_char(w.last()) {
            assert forall|i: int| 0 <= i < term_chars(w).len() implies term_char(
                #[trigger] term_chars(w)[i],
            ) by {
                if i < p.len() {
                    assert(term_chars(w)[i] == p[i]);
                }
            }
        }
    }
}

proof fn lemma_query_terms(ws: Seq<Seq<char>>)
    ensures
        forall|k: int| 0 <= k < query_terms(ws).len() ==> all_query_chars(#[trigger] query_terms(ws)[k]),
    decreases ws.len(),
{
    if ws.len() > 0 {
        lemma_query_terms(ws.drop_last());
        let t = term_chars(ws.last());
        lemma_term_chars(ws.last());
        let rest = query_terms(ws.drop_last());
        if t.len() > 0 {
            let q = seq!['"'] + t + seq!['"', '*'];
            assert forall|i: int| 0 <= i < q.len() implies query_char(#[trigger] q[i]) by {
                if 1 <= i < 1 + t.len() {
                    assert(q[i] == t[i - 1]);
                }
            }
            assert forall|k: int| 0 <= k < query_terms(ws).len() implies all_query_chars(
                #[trigger] query_terms(ws)[k],
            ) by {
                if k < rest.len() {
                    assert(query_terms(ws)[k] == rest[k]);
                } else {
                    assert(query_terms(ws)[k] == q);
                }
            }
        }
    }
}

proof fn lemma_join_query(parts: Seq<Seq<char>>)
    requires
        forall|k: int| 0 <= k < parts.len() ==> all_query_chars(#[trigger] parts[k]),
    ensures
        all_query_chars(join_sp(parts)),
    decreases parts.len(),
{
    if parts.len() > 1 {
        let init = parts.drop_last();
        assert forall|k: int| 0 <= k < init.len() implies all_query_chars(#[trigger] init[k]) by {
            assert(init[k] == parts[k]);
        }
        lemma_join_query(init);
        let j = join_sp(init);
        let l = parts.last();
        assert(all_query_chars(l)) by {
            assert(l == parts[parts.len() - 1]);
        }
        let whole = j + seq![' '] + l;
        assert forall|i: int| 0 <= i < whole.len() implies query_char(#[trigger] whole[i]) by {
            if i < j.len() {
                assert(whole[i] == j[i]);
            } else if i == j.len() {
            } else {
                assert(whole[i] == l[i - j.len() - 1]);
            }
        }
    } else if parts.len() == 1 {
        assert(all_query_chars(parts[0]));
    }
}

/// A full-text query is safe: besides the characters kept from the search
/// text (letters, digits, `_`, `-` and CJK) it holds only the quotes, `*`s
/// and spaces that frame its terms.
pub proof fn law_fts_query_is_safe(q: Seq<char>)
    ensures
        all_query_chars(fts_query(q)),
{
    lemma_query_terms(words_from(q, 0));
    lemma_join_query(query_terms(words_from(q, 0)));
}

proof fn lemma_word_end_all(w: Seq<char>, i: int)
    requires
        0 <= i <= w.len(),
        forall|j: int| 0 <= j < w.len() ==> !is_ws(#[trigger] w[j]),
    ensures
        word_end(w, i) == w.len(),
    decreases w.len() - i,
{
    if i < w.len() {
        lemma_word_end_all(w, i + 1);
    }
}

proof fn lemma_term_chars_all(w: Seq<char>)
    requires
        forall|j: int| 0 <= j < w.len() ==> term_char(#[trigger] w[j]),
    ensures
        term_chars(w) == w,
    decreases w.len(),
{
    if w.len() > 0 {
        assert forall|j: int| 0 <= j < w.len() - 1 implies term_char(#[trigger] w.drop_last()[j]) by {
            assert(w.drop_last()[j] == w[j]);
        }
        lemma_term_chars_all(w.drop_last());
        assert(w.drop_last().push(w.last()) =~= w);
    }
}

/// A search word keeps every term character: a word made only of letters,
/// digits (ASCII ones among them), `_`, `-` and CJK characters becomes the
/// single prefix term `"word"*`.
pub proof fn law_search_word_is_kept_whole(w: Seq<char>)
    requires
        w.len() > 0,
        forall|j: int| 0 <= j < w.len() ==> term_char(#[trigger] w[j]) && !is_ws(w[j]),
    ensures
        fts_query(w) == seq!['"'] + w + seq!['"', '*'],
        forall|c: char| '0' <= c && c <= '9' ==> #[trigger] term_char(c),
{
    assert forall|j: int| 0 <= j < w.len() implies !is_ws(#[trigger] w[j]) by {}
    lemma_word_end_all(w, 0);
    lemma_term_chars_all(w);
    assert(skip_space(w, 0) == 0);
    assert(skip_space(w, w.len() as int) == w.len());
    assert(words_from(w, w.len() as int) =~= Seq::<Seq<char>>::empty());
    assert(w.subrange(0, w.len() as int) =~= w);
    let ws = words_from(w, 0);
    assert(ws =~= seq![w]);
    assert(ws.drop_last() =~= Seq::<Seq<char>>::empty());
    let term = seq!['"'] + w + seq!['"', '*'];
    assert(ws.last() == w);
    assert(query_terms(ws.drop_last()) == Seq::<Seq<char>>::empty());
    assert(term_chars(ws.last()) == w);
    assert(query_terms(ws) == Seq::<Seq<char>>::empty().push(term));
    assert(query_terms(ws) =~= seq![term]);
}

} // verus!
