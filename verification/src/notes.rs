//! Notes: their metadata, titles and tags, and the names of new notes.

use vstd::prelude::*;
use crate::frontmatter::{Frontmatter, FrontmatterView, TagsField, TagsFieldView};
use crate::links::opt_view;
use crate::syntax::{lemma_scan_bounds, scan, scan_all, Pattern};
use crate::text::{
    chars_of, split_char, split_ranges, str_views, string_of_range, strip_prefix_char,
    strip_prefix_char_exec, trim, trim_range,
};

verus! {

/// A note as listed: path relative to the vault, title, tags, modification
/// time (seconds since the epoch) and size in bytes.
#[derive(Clone, Debug)]
pub struct NoteMeta {
    pub path: String,
    pub title: String,
    pub tags: Vec<String>,
    pub modified: i64,
    pub size: u64,
}

/// An entry of the vault's file tree.
#[derive(Debug)]
pub struct TreeNode {
    pub name: String,
    pub path: String,
    pub is_dir: bool,
    pub children: Vec<TreeNode>,
}

/// A note known only by its path.
#[derive(Clone, Debug)]
pub struct NoteLite {
    pub path: String,
}

/// Counts of a full reindex: notes added or changed, removed, and seen.
#[derive(Clone, Copy, Debug)]
pub struct ReindexResult {
    pub added: usize,
    pub removed: usize,
    pub total: usize,
}


// ---------------------------------------------------------------------------
// Tags
// ---------------------------------------------------------------------------

/// The items of a tags list that are strings, in order.
pub open spec fn present_items(items: Seq<Option<Seq<char>>>) -> Seq<Seq<char>>
    decreases items.len(),
{
    if items.len() == 0 {
        Seq::empty()
    } else {
        let r = present_items(items.drop_last());
        match items.last() {
            Some(t) => r.push(t),
            None => r,
        }
    }
}

/// The pieces, trimmed, without those that trim to nothing.
pub open spec fn nonempty_trimmed(pieces: Seq<Seq<char>>) -> Seq<Seq<char>>
    decreases pieces.len(),
{
    if pieces.len() == 0 {
        Seq::empty()
    } else {
        let r = nonempty_trimmed(pieces.drop_last());
        let t = trim(pieces.last());
        if t.len() > 0 {
            r.push(t)
        } else {
            r
        }
    }
}

/// The tags a header gives: the strings of a `tags` list, or the
/// comma-separated pieces of a `tags` string.
pub open spec fn header_tags(fm: FrontmatterView) -> Seq<Seq<char>> {
    match fm.tags {
        TagsFieldView::Absent => Seq::empty(),
        TagsFieldView::List(items) => present_items(items),
        TagsFieldView::Text(t) => nonempty_trimmed(split_char(t, ',')),
    }
}

/// The tags a header gives, in the order written.
pub fn tags_from_frontmatter(fm: &Frontmatter) -> (r: Vec<String>)
    ensures
        str_views(r@) == header_tags(fm@),
{
    let mut out: Vec<String> = Vec::new();
    match &fm.tags {
        TagsField::Absent => {
            assert(str_views(out@) =~= Seq::<Seq<char>>::empty());
        },
        TagsField::List(items) => {
            let ghost iv = items@.map_values(|o: Option<String>| opt_view(o));
            let mut i: usize = 0;
            while i < items.len()
                invariant
                    i <= items.len(),
                    iv == items@.map_values(|o: Option<String>| opt_view(o)),
                    str_views(out@) == present_items(iv.take(i as int)),
                decreases items.len() - i,
            {
                assert(iv.take(i + 1).drop_last() =~= iv.take(i as int));
                assert(iv.take(i + 1).last() == opt_view(items@[i as int]));
                match &items[i] {
                    Some(t) => {
                        out.push(t.clone());
                        assert(str_views(out@) =~= str_views(out@.drop_last()).push(t@));
                    },
                    None => {},
                }
                i = i + 1;
            }
            assert(iv.take(items.len() as int) =~= iv);
        },
        TagsField::Text(t) => {
            let v = chars_of(t.as_str());
            let rs = split_ranges(&v, ',');
            let ghost pieces = split_char(v@, ',');
            let mut k: usize = 0;
            while k < rs.len()
                invariant
                    k <= rs.len(),
                    v@ == t@,
                    pieces == split_char(v@, ','),
                    ranges_cut_of(v@, rs@),
                    str_views(out@) == nonempty_trimmed(pieces.take(k as int)),
                decreases rs.len() - k,
            {
                let (lo, hi) = rs[k];
                assert(rs@[k as int].0 <= rs@[k as int].1 <= v@.len());
                let (a, b) = trim_range(&v, lo, hi);
                assert(pieces.take(k + 1).drop_last() =~= pieces.take(k as int));
                assert(pieces.take(k + 1).last() == v@.subrange(lo as int, hi as int));
                if a < b {
                    let piece = string_of_range(&v, a, b);
                    out.push(piece);
                    assert(str_views(out@) =~= str_views(out@.drop_last()).push(piece@));
                }
                k = k + 1;
            }
            assert(pieces.take(rs.len() as int) =~= pieces);
        },
    }
    out
}

/// `r` cuts `s` at every comma.
pub open spec fn ranges_cut_of(s: Seq<char>, r: Seq<(usize, usize)>) -> bool {
    crate::text::ranges_cut(s, ',', r)
}

/// The `#tags` written in the body, in order: a tag follows whitespace or
/// starts the body.
pub open spec fn inline_tags(body: Seq<char>) -> Seq<Seq<char>> {
    let hits = scan(body, 0, Pattern::Tag);
    Seq::new(hits.len(), |k: int| body.subrange(hits[k].1.0, hits[k].1.1))
}

/// The `#tags` of a body, in order, repeats included.
pub fn extract_inline_tags(body: &str) -> (r: Vec<String>)
    ensures
        str_views(r@) == inline_tags(body@),
{
    let v = chars_of(body);
    let hits = scan_all(&v, &Pattern::Tag);
    proof {
        lemma_scan_bounds(v@, 0, Pattern::Tag);
    }
    let ghost want = inline_tags(body@);
    let mut out: Vec<String> = Vec::new();
    let mut k: usize = 0;
    while k < hits.len()
        invariant
            k <= hits.len(),
            v@ == body@,
            want == inline_tags(body@),
            hits@.len() == scan(v@, 0, Pattern::Tag).len(),
            forall|j: int|
                0 <= j < hits@.len() ==> {
                    let h = scan(v@, 0, Pattern::Tag)[j];
                    &&& (#[trigger] hits@[j]).1 == h.1.0
                    &&& hits@[j].2 == h.1.1
                    &&& 0 <= h.1.0 <= h.1.1 <= v@.len()
                },
            str_views(out@) == want.take(k as int),
        decreases hits.len() - k,
    {
        let (_, a, b, _) = hits[k];
        let t = string_of_range(&v, a, b);
        assert(want[k as int] == v@.subrange(a as int, b as int));
        out.push(t);
        assert(str_views(out@) =~= str_views(out@.drop_last()).push(t@));
        assert(want.len() == hits@.len());
        assert(want.take(k + 1) =~= want.take(k as int).push(want[k as int]));
        assert(str_views(out@) =~= want.take(k + 1));
        k = k + 1;
    }
    assert(want.take(hits.len() as int) =~= want);
    out
}

/// The targets of `[[wiki links]]` in the body (also those of
/// transclusions), trimmed, without empty ones.
pub open spec fn wikilink_names(body: Seq<char>) -> Seq<Seq<char>> {
    let hits = scan(body, 0, Pattern::Wiki);
    nonempty_trimmed(Seq::new(hits.len(), |k: int| body.subrange(hits[k].1.0, hits[k].1.1)))
}

/// The link targets of a body, in order.
pub fn extract_wikilinks(body: &str) -> (r: Vec<String>)
    ensures
        str_views(r@) == wikilink_names(body@),
{
    let v = chars_of(body);
    let hits = scan_all(&v, &Pattern::Wiki);
    proof {
        lemma_scan_bounds(v@, 0, Pattern::Wiki);
    }
    let ghost hs = scan(body@, 0, Pattern::Wiki);
    let ghost names = Seq::new(hs.len(), |k: int| body@.subrange(hs[k].1.0, hs[k].1.1));
    let mut out: Vec<String> = Vec::new();
    let mut k: usize = 0;
    while k < hits.len()
        invariant
            k <= hits.len(),
            v@ == body@,
            hs == scan(v@, 0, Pattern::Wiki),
            names == Seq::new(hs.len(), |k: int| body@.subrange(hs[k].1.0, hs[k].1.1)),
            hits@.len() == hs.len(),
            forall|j: int|
                0 <= j < hits@.len() ==> {
                    &&& (#[trigger] hits@[j]).1 == hs[j].1.0
                    &&& hits@[j].2 == hs[j].1.1
                    &&& 0 <= hs[j].1.0 <= hs[j].1.1 <= v@.len()
                },
            str_views(out@) == nonempty_trimmed(names.take(k as int)),
        decreases hits.len() - k,
    {
        let (_, a, b, _) = hits[k];
        let (c, d) = trim_range(&v, a, b);
        assert(names.take(k + 1).drop_last() =~= names.take(k as int));
        assert(names.take(k + 1).last() == v@.subrange(a as int, b as int));
        if c < d {
            let t = string_of_range(&v, c, d);
            out.push(t);
            assert(str_views(out@) =~= str_views(out@.drop_last()).push(t@));
        }
        k = k + 1;
    }
    assert(names.take(hits.len() as int) =~= names);
    out
}


// ---------------------------------------------------------------------------
// Ordering tags
// ---------------------------------------------------------------------------

/// Lexicographic order by code point (the order of `String`'s `Ord`, since
/// UTF-8 keeps code-point order).
pub open spec fn lex_lt(a: Seq<char>, b: Seq<char>) -> bool
    decreases a.len(),
{
    if a.len() == 0 {
        b.len() > 0
    } else if b.len() == 0 {
        false
    } else if a[0] != b[0] {
        a[0] < b[0]
    } else {
        lex_lt(a.drop_first(), b.drop_first())
    }
}

/// Each element comes before every later one.
pub open spec fn strictly_sorted(s: Seq<Seq<char>>) -> bool {
    forall|i: int, j: int| 0 <= i < j < s.len() ==> lex_lt(#[trigger] s[i], #[trigger] s[j])
}

pub proof fn lemma_lex_irrefl(a: Seq<char>)
    ensures
        !lex_lt(a, a),
    decreases a.len(),
{
    if a.len() > 0 {
        lemma_lex_irrefl(a.drop_first());
    }
}

pub proof fn lemma_lex_trans(a: Seq<char>, b: Seq<char>, c: Seq<char>)
    requires
        lex_lt(a, b),
        lex_lt(b, c),
    ensures
        lex_lt(a, c),
    decreases a.len(),
{
    if a.len() > 0 && b.len() > 0 && c.len() > 0 && a[0] == b[0] && b[0] == c[0] {
        lemma_lex_trans(a.drop_first(), b.drop_first(), c.drop_first());
    }
}

pub proof fn lemma_lex_total(a: Seq<char>, b: Seq<char>)
    ensures
        a == b || lex_lt(a, b) || lex_lt(b, a),
    decreases a.len(),
{
    if a.len() > 0 && b.len() > 0 && a[0] == b[0] {
        lemma_lex_total(a.drop_first(), b.drop_first());
        if a.drop_first() == b.drop_first() {
            assert(a =~= seq![a[0]] + a.drop_first());
            assert(b =~= seq![b[0]] + b.drop_first());
        }
    } else if a.len() == 0 && b.len() == 0 {
        assert(a =~= b);
    }
}

/// Tags in strict order are each listed once: the tags of a note carry no
/// repeats.
pub proof fn law_sorted_tags_distinct(s: Seq<Seq<char>>)
    requires
        strictly_sorted(s),
    ensures
        forall|i: int, j: int| 0 <= i < j < s.len() ==> s[i] != s[j],
{
    assert forall|i: int, j: int| 0 <= i < j < s.len() implies s[i] != s[j] by {
        assert(lex_lt(s[i], s[j]));
        lemma_lex_irrefl(s[i]);
    }
}

/// Whether `a` comes before `b`.
fn lex_less(a: &Vec<char>, b: &Vec<char>) -> (r: bool)
    ensures
        r == lex_lt(a@, b@),
{
    let mut i: usize = 0;
    assert(a@.skip(0) =~= a@);
    assert(b@.skip(0) =~= b@);
    while i < a.len() && i < b.len() && a[i] == b[i]
        invariant
            i <= a.len(),
            i <= b.len(),
            lex_lt(a@, b@) == lex_lt(a@.skip(i as int), b@.skip(i as int)),
        decreases a.len() - i,
    {
        assert(a@.skip(i as int).drop_first() =~= a@.skip(i + 1));
        assert(b@.skip(i as int).drop_first() =~= b@.skip(i + 1));
        i = i + 1;
    }
    if i == a.len() {
        i < b.len()
    } else if i == b.len() {
        false
    } else {
        a[i] < b[i]
    }
}

/// Whether `v[i]` comes before `t`.
fn less_at(v: &Vec<String>, i: usize, t: &Vec<char>) -> (r: bool)
    requires
        i < v.len(),
    ensures
        r == lex_lt(v@[i as int]@, t@),
{
    let cur = chars_of(v[i].as_str());
    lex_less(&cur, t)
}

/// Puts `t` into the sorted `v` unless it is there already.
fn insert_sorted(v: &mut Vec<String>, t: String)
    requires
        strictly_sorted(str_views(old(v)@)),
    ensures
        strictly_sorted(str_views(final(v)@)),
        forall|x: Seq<char>|
            str_views(final(v)@).contains(x) <==> (str_views(old(v)@).contains(x) || x == t@),
{
    let tv = chars_of(t.as_str());
    let mut i: usize = 0;
    while i < v.len() && less_at(v, i, &tv)
        invariant
            i <= v.len(),
            v@ == old(v)@,
            tv@ == t@,
            strictly_sorted(str_views(v@)),
            forall|j: int| 0 <= j < i ==> lex_lt(#[trigger] str_views(v@)[j], t@),
        decreases v.len() - i,
    {
        assert(str_views(v@)[i as int] == v@[i as int]@);
        i = i + 1;
    }
    let ghost old_views = str_views(v@);
    if i < v.len() {
        assert(old_views[i as int] == v@[i as int]@);
        if crate::text::str_eq(v[i].as_str(), t.as_str()) {
            assert(old_views.contains(t@));
            return;
        }
        proof {
            lemma_lex_total(old_views[i as int], t@);
        }
    }
    let ghost n = v.len();
    v.insert(i, t);
    proof {
        let nv = str_views(v@);
        assert(nv =~= old_views.insert(i as int, t@));
        assert forall|p: int, q: int| 0 <= p < q < nv.len() implies lex_lt(
            #[trigger] nv[p],
            #[trigger] nv[q],
        ) by {
            if q < i {
            } else if q == i {
            } else if p < i {
                if q - 1 > i {
                    lemma_lex_trans(old_views[p], t@, old_views[i as int]);
                    lemma_lex_trans(old_views[p], old_views[i as int], old_views[q - 1]);
                } else {
                    lemma_lex_trans(old_views[p], t@, old_views[q - 1]);
                }
            } else if p == i {
                if q - 1 > i {
                    lemma_lex_trans(t@, old_views[i as int], old_views[q - 1]);
                }
            } else {
            }
        }
        assert forall|x: Seq<char>| nv.contains(x) <==> (old_views.contains(x) || x == t@) by {
            if nv.contains(x) {
                let j = choose|j: int| 0 <= j < nv.len() && #[trigger] nv[j] == x;
                if j < i {
                    assert(old_views[j] == x);
                } else if j > i {
                    assert(old_views[j - 1] == x);
                }
            }
            if old_views.contains(x) {
                let j = choose|j: int| 0 <= j < old_views.len() && #[trigger] old_views[j] == x;
                if j < i {
                    assert(nv[j] == x);
                } else {
                    assert(nv[j + 1] == x);
                }
            }
            if x == t@ {
                assert(nv[i as int] == x);
            }
        }
    }
}

pub proof fn lemma_take_next_contains(s: Seq<Seq<char>>, i: int, x: Seq<char>)
    requires
        0 <= i < s.len(),
    ensures
        s.take(i + 1).contains(x) <==> (s.take(i).contains(x) || x == s[i]),
{
    if s.take(i + 1).contains(x) {
        let j = choose|j: int| 0 <= j < i + 1 && #[trigger] s.take(i + 1)[j] == x;
        if j < i {
            assert(s.take(i)[j] == x);
        }
    }
    if s.take(i).contains(x) {
        let j = choose|j: int| 0 <= j < i && #[trigger] s.take(i)[j] == x;
        assert(s.take(i + 1)[j] == x);
    }
    if x == s[i] {
        assert(s.take(i + 1)[i] == x);
    }
}

/// All tags of a note, from its header and its body: each once, in order.
pub fn collect_inline_tags_union(body: &str, fm: &Frontmatter) -> (r: Vec<String>)
    ensures
        strictly_sorted(str_views(r@)),
        forall|x: Seq<char>|
            str_views(r@).contains(x) <==> (header_tags(fm@).contains(x) || inline_tags(
                body@,
            ).contains(x)),
{
    let head = tags_from_frontmatter(fm);
    let inline = extract_inline_tags(body);
    let mut all: Vec<String> = Vec::new();
    let mut i: usize = 0;
    while i < head.len()
        invariant
            i <= head.len(),
            strictly_sorted(str_views(all@)),
            forall|x: Seq<char>|
                str_views(all@).contains(x) <==> str_views(head@).take(i as int).contains(x),
        decreases head.len() - i,
    {
        let h = head[i].clone();
        assert(h@ == str_views(head@)[i as int]);
        insert_sorted(&mut all, h);
        proof {
            let hv = str_views(head@);
            assert forall|x: Seq<char>| hv.take(i + 1).contains(x) <==> (hv.take(
                i as int,
            ).contains(x) || x == hv[i as int]) by {
                lemma_take_next_contains(hv, i as int, x);
            }
        }
        i = i + 1;
    }
    assert(str_views(head@).take(head.len() as int) =~= str_views(head@));
    let mut k: usize = 0;
    while k < inline.len()
        invariant
            k <= inline.len(),
            str_views(head@) == header_tags(fm@),
            str_views(inline@) == inline_tags(body@),
            strictly_sorted(str_views(all@)),
            forall|x: Seq<char>|
                str_views(all@).contains(x) <==> (str_views(head@).contains(x) || str_views(
                    inline@,
                ).take(k as int).contains(x)),
        decreases inline.len() - k,
    {
        let t = inline[k].clone();
        assert(t@ == str_views(inline@)[k as int]);
        insert_sorted(&mut all, t);
        proof {
            let iv = str_views(inline@);
            assert forall|x: Seq<char>| iv.take(k + 1).contains(x) <==> (iv.take(
                k as int,
            ).contains(x) || x == iv[k as int]) by {
                lemma_take_next_contains(iv, k as int, x);
            }
        }
        k = k + 1;
    }
    assert(str_views(inline@).take(inline.len() as int) =~= str_views(inline@));
    all
}


// ---------------------------------------------------------------------------
// Titles
// ---------------------------------------------------------------------------

/// The first line that still has text once leading `#`s and surrounding
/// whitespace are removed; that text.
pub open spec fn first_title_line(lines: Seq<Seq<char>>) -> Option<Seq<char>>
    decreases lines.len(),
{
    if lines.len() == 0 {
        None
    } else {
        let t = trim(strip_prefix_char(lines[0], '#'));
        if t.len() > 0 {
            Some(t)
        } else {
            first_title_line(lines.drop_first())
        }
    }
}

/// The title of a note: a non-empty header `title`, else the first line of
/// the body with text (a `\r` before a line's `\n` is trimmed like other
/// whitespace), else the file stem, else `untitled`.
pub open spec fn title_of(fm: FrontmatterView, body: Seq<char>, stem: Option<Seq<char>>) -> Seq<
    char,
> {
    if fm.title is Some && fm.title->0.len() > 0 {
        fm.title->0
    } else {
        match first_title_line(split_char(body, '\n')) {
            Some(t) => t,
            None => match stem {
                Some(x) => x,
                None => "untitled"@,
            },
        }
    }
}

/// The file stem that `std::path::Path::file_stem` gives for `path`.
pub uninterp spec fn path_file_stem(path: Seq<char>) -> Option<Seq<char>>;

/// `std::path::Path::file_stem`, as text.
/// Trusted: the stem is named by `path_file_stem`, not computed here.
#[verifier::external_body]
fn file_stem_of(path: &str) -> (r: Option<String>)
    ensures
        opt_view(r) == path_file_stem(path@),
{
    std::path::Path::new(path).file_stem().map(|x| x.to_string_lossy().to_string())
}

/// The first line of `body` with text, as the title shows it.
pub fn body_title(body: &str) -> (r: Option<String>)
    ensures
        opt_view(r) == first_title_line(split_char(body@, '\n')),
{
    let v = chars_of(body);
    let rs = split_ranges(&v, '\n');
    let ghost lines = split_char(v@, '\n');
    let mut k: usize = 0;
    assert(lines.skip(0) =~= lines);
    while k < rs.len()
        invariant
            k <= rs.len(),
            v@ == body@,
            lines == split_char(v@, '\n'),
            crate::text::ranges_cut(v@, '\n', rs@),
            first_title_line(lines) == first_title_line(lines.skip(k as int)),
        decreases rs.len() - k,
    {
        let (lo, hi) = rs[k];
        assert(rs@[k as int].0 <= rs@[k as int].1 <= v@.len());
        assert(lines.skip(k as int)[0] == v@.subrange(lo as int, hi as int));
        let h = strip_prefix_char_exec(&v, lo, hi, '#');
        let (a, b) = trim_range(&v, h, hi);
        if a < b {
            return Some(string_of_range(&v, a, b));
        }
        assert(lines.skip(k as int).drop_first() =~= lines.skip(k + 1));
        k = k + 1;
    }
    None
}

/// The title from the header, the body, or else the given file stem.
pub fn title_from(fm: &Frontmatter, body: &str, stem: Option<String>) -> (r: String)
    ensures
        r@ == title_of(fm@, body@, opt_view(stem)),
{
    if let Some(t) = &fm.title {
        if !t.as_str().is_empty() {
            return t.clone();
        }
    }
    match body_title(body) {
        Some(t) => t,
        None => match stem {
            Some(x) => x,
            None => "untitled".to_owned(),
        },
    }
}

/// The title of the note at `path` with the given header and body.
pub fn derive_title(path: &str, fm: &Frontmatter, body: &str) -> (r: String)
    ensures
        r@ == title_of(fm@, body@, path_file_stem(path@)),
{
    if let Some(t) = &fm.title {
        if !t.as_str().is_empty() {
            return t.clone();
        }
    }
    match body_title(body) {
        Some(t) => t,
        None => match file_stem_of(path) {
            Some(x) => x,
            None => "untitled".to_owned(),
        },
    }
}


// ---------------------------------------------------------------------------
// New notes and the files of a vault
// ---------------------------------------------------------------------------

/// A note name as typed, cleaned: trimmed, then trailing `/` and `\\`
/// removed.
pub open spec fn clean_name(name: Seq<char>) -> Seq<char> {
    crate::text::strip_suffix_all(crate::text::strip_suffix_all(trim(name), "/"@), "\\"@)
}

/// The stem of a new note's file: the cleaned name without trailing `.md`.
pub open spec fn note_stem(name: Seq<char>) -> Seq<char> {
    crate::text::strip_suffix_all(clean_name(name), ".md"@)
}

/// The stem and file name of a note created from a typed name, or the error
/// for an empty name.
pub fn note_file_name(name: &str) -> (r: Result<(String, String), crate::vault::VaultError>)
    ensures
        clean_name(name@).len() == 0 ==> (r matches Err(crate::vault::VaultError::Other(m)) && m@
            == "笔记名不能为空"@),
        clean_name(name@).len() > 0 ==> (r matches Ok((stem, file)) && stem@ == note_stem(name@)
            && file@ == note_stem(name@) + ".md"@),
{
    let v = chars_of(name);
    let (a, b) = trim_range(&v, 0, v.len());
    assert(v@.subrange(0, v@.len() as int) =~= v@);
    let slash = chars_of("/");
    let back = chars_of("\\");
    let md = chars_of(".md");
    let e1 = crate::text::strip_suffix_all_exec(&v, a, b, &slash);
    let e2 = crate::text::strip_suffix_all_exec(&v, a, e1, &back);
    if e2 == a {
        return Err(crate::vault::VaultError::Other("笔记名不能为空".to_owned()));
    }
    let e3 = crate::text::strip_suffix_all_exec(&v, a, e2, &md);
    let stem = string_of_range(&v, a, e3);
    let file = crate::text::concat(stem.as_str(), ".md");
    Ok((stem, file))
}

/// The text of a new note with the given title: a heading and a blank line.
pub fn new_note_content(stem: &str) -> (r: String)
    ensures
        r@ == "# "@ + stem@ + "\n\n"@,
{
    let mut v: Vec<char> = Vec::new();
    crate::text::extend_str(&mut v, "# ");
    crate::text::extend_str(&mut v, stem);
    crate::text::extend_str(&mut v, "\n\n");
    crate::text::string_of(&v)
}

/// Whether a directory name marks the inbox (`0-` prefix).
pub fn is_inbox_name(name: &str) -> (r: bool)
    ensures
        r == crate::text::starts_with(name@, "0-"@),
{
    let v = chars_of(name);
    proof {
        reveal_strlit("0-");
    }
    let r = v.len() >= 2 && v[0] == '0' && v[1] == '-';
    proof {
        if crate::text::starts_with(name@, "0-"@) {
            assert(name@.take(2)[0] == '0' && name@.take(2)[1] == '-');
        }
        if r {
            assert(name@.take(2) =~= "0-"@);
        }
    }
    r
}

/// Whether a listing of the vault enters the entry `name`: hidden entries
/// (a leading `.`, at any depth) and `node_modules` are skipped.
pub fn listed_entry(name: &str) -> (r: bool)
    ensures
        r == (!(name@.len() > 0 && name@[0] == '.') && name@ != "node_modules"@),
{
    let v = chars_of(name);
    let hidden = v.len() > 0 && v[0] == '.';
    !hidden && !crate::text::str_eq(name, "node_modules")
}

/// Whether a full reindex enters the entry `name` at `depth`: hidden entries
/// below the root and `node_modules` are skipped.
pub fn reindexed_entry(name: &str, depth: usize) -> (r: bool)
    ensures
        r == (!(depth > 0 && name@.len() > 0 && name@[0] == '.') && name@ != "node_modules"@),
{
    let v = chars_of(name);
    let hidden = v.len() > 0 && v[0] == '.';
    !(depth > 0 && hidden) && !crate::text::str_eq(name, "node_modules")
}


// ---------------------------------------------------------------------------
// The file tree
// ---------------------------------------------------------------------------

/// What `str::to_lowercase` gives for `s`.
pub uninterp spec fn lowercase(s: Seq<char>) -> Seq<char>;

/// `str::to_lowercase`. Trusted: the result is named by `lowercase`.
#[verifier::external_body]
fn to_lower(s: &str) -> (r: String)
    ensures
        r@ == lowercase(s@),
{
    s.to_lowercase()
}

/// Tree entries (is it a directory, its name) in display order: directories
/// first, then by lower-cased name.
pub open spec fn entry_before(a: (bool, Seq<char>), b: (bool, Seq<char>)) -> bool {
    (a.0 && !b.0) || (a.0 == b.0 && lex_lt(lowercase(a.1), lowercase(b.1)))
}

/// The two entries sort alike.
pub open spec fn entry_tie(a: (bool, Seq<char>), b: (bool, Seq<char>)) -> bool {
    a.0 == b.0 && lowercase(a.1) == lowercase(b.1)
}

/// `r` lists the indices of `es` once each, in display order, entries that
/// sort alike in their original order (as a stable sort).
pub open spec fn tree_order_of(es: Seq<(bool, Seq<char>)>, r: Seq<usize>) -> bool {
    &&& r.len() == es.len()
    &&& forall|k: int| 0 <= k < r.len() ==> (#[trigger] r[k]) < es.len()
    &&& forall|a: int, b: int| 0 <= a < b < r.len() ==> (#[trigger] r[a]) != (#[trigger] r[b])
    &&& forall|a: int, b: int|
        0 <= a < b < r.len() ==> entry_before(es[#[trigger] r[a] as int], es[#[trigger] r[b] as int])
            || (entry_tie(es[r[a] as int], es[r[b] as int]) && r[a] < r[b])
}

proof fn lemma_entry_order(x: (bool, Seq<char>), y: (bool, Seq<char>), z: (bool, Seq<char>))
    ensures
        entry_before(x, y) || entry_before(y, x) || entry_tie(x, y),
        entry_before(x, y) && entry_before(y, z) ==> entry_before(x, z),
        entry_before(x, y) && entry_tie(y, z) ==> entry_before(x, z),
        entry_tie(x, y) && entry_before(y, z) ==> entry_before(x, z),
        !(entry_before(x, y) && entry_before(y, x)),
        !(entry_before(x, y) && entry_tie(x, y)),
{
    lemma_lex_total(lowercase(x.1), lowercase(y.1));
    if lex_lt(lowercase(x.1), lowercase(y.1)) && lex_lt(lowercase(y.1), lowercase(z.1)) {
        lemma_lex_trans(lowercase(x.1), lowercase(y.1), lowercase(z.1));
    }
    if lex_lt(lowercase(x.1), lowercase(y.1)) && lex_lt(lowercase(y.1), lowercase(x.1)) {
        lemma_lex_trans(lowercase(x.1), lowercase(y.1), lowercase(x.1));
        lemma_lex_irrefl(lowercase(x.1));
    }
    lemma_lex_irrefl(lowercase(x.1));
}

pub open spec fn entry_views(es: Seq<(bool, String)>) -> Seq<(bool, Seq<char>)> {
    es.map_values(|e: (bool, String)| (e.0, e.1@))
}

/// The display order of tree entries (is it a directory, its name).
pub fn order_tree_entries(entries: &Vec<(bool, String)>) -> (r: Vec<usize>)
    ensures
        tree_order_of(entry_views(entries@), r@),
{
    let ghost es = entry_views(entries@);
    let mut lows: Vec<Vec<char>> = Vec::new();
    let mut q: usize = 0;
    while q < entries.len()
        invariant
            q <= entries.len(),
            es == entry_views(entries@),
            lows@.len() == q,
            forall|k: int| 0 <= k < q ==> (#[trigger] lows@[k])@ == lowercase(es[k].1),
        decreases entries.len() - q,
    {
        let l = to_lower(entries[q].1.as_str());
        lows.push(chars_of(l.as_str()));
        q = q + 1;
    }
    let mut out: Vec<usize> = Vec::new();
    let mut i: usize = 0;
    while i < entries.len()
        invariant
            i <= entries.len(),
            es == entry_views(entries@),
            lows@.len() == entries@.len(),
            forall|k: int| 0 <= k < lows@.len() ==> (#[trigger] lows@[k])@ == lowercase(es[k].1),
            out@.len() == i,
            forall|k: int| 0 <= k < out@.len() ==> (#[trigger] out@[k]) < i,
            forall|a: int, b: int| 0 <= a < b < out@.len() ==> (#[trigger] out@[a]) != (#[trigger] out@[b]),
            forall|a: int, b: int|
                0 <= a < b < out@.len() ==> entry_before(es[#[trigger] out@[a] as int], es[#[trigger] out@[b] as int])
                    || (entry_tie(es[out@[a] as int], es[out@[b] as int]) && out@[a] < out@[b]),
        decreases entries.len() - i,
    {
        let di = entries[i].0;
        let mut pos: usize = 0;
        while pos < out.len() && !before_at(entries, &lows, i, out[pos])
            invariant
                pos <= out@.len(),
                i < entries@.len(),
                es == entry_views(entries@),
                lows@.len() == entries@.len(),
                forall|k: int| 0 <= k < lows@.len() ==> (#[trigger] lows@[k])@ == lowercase(es[k].1),
                forall|k: int| 0 <= k < out@.len() ==> (#[trigger] out@[k]) < i,
                forall|k: int| 0 <= k < pos ==> !entry_before(es[i as int], es[#[trigger] out@[k] as int]),
            decreases out@.len() - pos,
        {
            pos = pos + 1;
        }
        let ghost old_out = out@;
        proof {
            if pos < old_out.len() {
                assert(entry_before(es[i as int], es[old_out[pos as int] as int]));
            }
        }
        out.insert(pos, i);
        proof {
            assert(out@ =~= old_out.insert(pos as int, i));
            let ei = es[i as int];
            assert forall|k: int| pos < k < out@.len() implies entry_before(ei, es[#[trigger] out@[k] as int]) by {
                assert(out@[k] == old_out[k - 1]);
                let first = es[old_out[pos as int] as int];
                if k - 1 > pos {
                    let other = es[old_out[k - 1] as int];
                    lemma_entry_order(ei, first, other);
                    assert(entry_before(first, other) || (entry_tie(first, other) && old_out[pos as int] < old_out[k - 1]));
                }
            }
            assert forall|k: int| 0 <= k < pos implies entry_before(es[#[trigger] out@[k] as int], ei) || entry_tie(es[out@[k] as int], ei) by {
                assert(out@[k] == old_out[k]);
                lemma_entry_order(es[old_out[k] as int], ei, ei);
                assert(!entry_before(ei, es[old_out[k] as int]));
                if entry_tie(ei, es[old_out[k] as int]) {
                    assert(entry_tie(es[old_out[k] as int], ei));
                }
            }
            assert forall|a: int, b: int| 0 <= a < b < out@.len() implies (#[trigger] out@[a]) != (#[trigger] out@[b]) by {
                if a < pos && b < pos {
                } else if a < pos && b == pos {
                } else if a < pos {
                    assert(out@[b] == old_out[b - 1]);
                } else if a == pos {
                    assert(out@[b] == old_out[b - 1]);
                } else {
                    assert(out@[a] == old_out[a - 1]);
                    assert(out@[b] == old_out[b - 1]);
                }
            }
            assert forall|a: int, b: int| 0 <= a < b < out@.len() implies entry_before(es[#[trigger] out@[a] as int], es[#[trigger] out@[b] as int])
                || (entry_tie(es[out@[a] as int], es[out@[b] as int]) && out@[a] < out@[b]) by {
                if a < pos && b < pos {
                    assert(out@[a] == old_out[a]);
                    assert(out@[b] == old_out[b]);
                } else if a < pos && b == pos {
                    assert(out@[a] == old_out[a]);
                } else if a < pos {
                    assert(out@[a] == old_out[a]);
                    assert(out@[b] == old_out[b - 1]);
                    let x = es[old_out[a] as int];
                    let z = es[old_out[b - 1] as int];
                    lemma_entry_order(x, ei, z);
                } else if a == pos {
                    assert(out@[b] == old_out[b - 1]);
                } else {
                    assert(out@[a] == old_out[a - 1]);
                    assert(out@[b] == old_out[b - 1]);
                }
            }
        }
        i = i + 1;
    }
    out
}

/// Whether entry `i` comes strictly before entry `j` in display order.
fn before_at(entries: &Vec<(bool, String)>, lows: &Vec<Vec<char>>, i: usize, j: usize) -> (r: bool)
    requires
        i < entries@.len(),
        j < entries@.len(),
        lows@.len() == entries@.len(),
        forall|k: int| 0 <= k < lows@.len() ==> (#[trigger] lows@[k])@ == lowercase(entry_views(entries@)[k].1),
    ensures
        r == entry_before(entry_views(entries@)[i as int], entry_views(entries@)[j as int]),
{
    let a = entries[i].0;
    let b = entries[j].0;
    assert(entry_views(entries@)[i as int] == (entries@[i as int].0, entries@[i as int].1@));
    assert(entry_views(entries@)[j as int] == (entries@[j as int].0, entries@[j as int].1@));
    if a && !b {
        return true;
    }
    if a != b {
        return false;
    }
    lex_less(&lows[i], &lows[j])
}

} // verus!
