//! YAML frontmatter: the `---` fenced header at the top of a note, the
//! fields read from it (title and tags), and the body that follows it.

use vstd::prelude::*;
use crate::links::opt_view;
use crate::text::{
    blen, blen_capped, char_at_byte, char_index_at_byte, chars_of, extend_range, find_char,
    find_char_in, is_boundary, lemma_blen_append, lemma_find_char, starts_with, string_of_range, trim, trim_range,
};

verus! {

// ---------------------------------------------------------------------------
// The fields a note reads from its header
// ---------------------------------------------------------------------------

/// The `tags` field of a header, as far as notes read it.
#[derive(Clone, Debug)]
pub enum TagsField {
    /// No `tags` key, or one that holds neither a list nor a string.
    Absent,
    /// A list: each item's text where the item is a string.
    List(Vec<Option<String>>),
    /// One string of comma-separated tags.
    Text(String),
}

pub enum TagsFieldView {
    Absent,
    List(Seq<Option<Seq<char>>>),
    Text(Seq<char>),
}

impl View for TagsField {
    type V = TagsFieldView;

    open spec fn view(&self) -> TagsFieldView {
        match self {
            TagsField::Absent => TagsFieldView::Absent,
            TagsField::List(items) => TagsFieldView::List(
                items@.map_values(|o: Option<String>| opt_view(o)),
            ),
            TagsField::Text(s) => TagsFieldView::Text(s@),
        }
    }
}

/// The header fields a note reads: `title` where it is a string, and `tags`.
#[derive(Clone, Debug)]
pub struct Frontmatter {
    pub title: Option<String>,
    pub tags: TagsField,
}

pub struct FrontmatterView {
    pub title: Option<Seq<char>>,
    pub tags: TagsFieldView,
}

impl View for Frontmatter {
    type V = FrontmatterView;

    open spec fn view(&self) -> FrontmatterView {
        FrontmatterView { title: opt_view(self.title), tags: self.tags@ }
    }
}

/// The fields of a note without a header (or whose header is not a mapping).
pub open spec fn no_fields() -> FrontmatterView {
    FrontmatterView { title: None, tags: TagsFieldView::Absent }
}

/// The fields that `serde_yaml` reads from the header text `yaml`.
pub uninterp spec fn yaml_fields(yaml: Seq<char>) -> FrontmatterView;

/// Reads `title` and `tags` from header text with `serde_yaml::from_str` into
/// a `serde_json::Value` (text that does not parse counts as `null`).
/// Trusted: the fields are named by `yaml_fields`, not computed here.
#[verifier::external_body]
fn read_yaml_fields(yaml: &str) -> (r: Frontmatter)
    ensures
        r@ == yaml_fields(yaml@),
{
    let v: serde_json::Value = serde_yaml::from_str(yaml).unwrap_or(serde_json::Value::Null);
    let title = v.get("title").and_then(|t| t.as_str()).map(|t| t.to_string());
    let tags = match v.get("tags") {
        Some(serde_json::Value::Array(a)) => TagsField::List(
            a.iter().map(|x| x.as_str().map(|t| t.to_string())).collect(),
        ),
        Some(serde_json::Value::String(t)) => TagsField::Text(t.clone()),
        _ => TagsField::Absent,
    };
    Frontmatter { title, tags }
}

// ---------------------------------------------------------------------------
// Where the header ends
// ---------------------------------------------------------------------------

pub open spec fn dashes() -> Seq<char> {
    seq!['-', '-', '-']
}

/// One past the `\n` that ends the line starting at `start`, or the end of `s`.
pub open spec fn line_end(s: Seq<char>, start: int) -> int {
    match find_char(s.subrange(start, s.len() as int), '\n') {
        Some(j) => start + j + 1,
        None => s.len() as int,
    }
}

/// Start of the closing line (a line that trims to `---`), looked for line by
/// line from `start`; the search gives up once the lines read pass 4096 bytes.
pub open spec fn close_from(s: Seq<char>, start: int) -> Option<int>
    decreases s.len() - start,
{
    if start < 0 || start >= s.len() {
        None
    } else {
        let e = line_end(s, start);
        if e <= start || e > s.len() {
            None
        } else if trim(s.subrange(start, e)) == dashes() {
            Some(start)
        } else if blen(s.take(e)) > 4096 {
            None
        } else {
            close_from(s, e)
        }
    }
}

/// Length of the opening line `---\n` or `---\r\n`, or 0 when there is none.
pub open spec fn open_len(raw: Seq<char>) -> int {
    if starts_with(raw, seq!['-', '-', '-', '\n']) {
        4
    } else if starts_with(raw, seq!['-', '-', '-', '\r', '\n']) {
        5
    } else {
        0
    }
}

/// The body begins four bytes into the closing line; that offset must fall
/// between two characters and within the text.
pub open spec fn cut_ok(raw: Seq<char>) -> bool {
    let o = open_len(raw);
    let s = raw.skip(o);
    o == 0 || match close_from(s, 0) {
        Some(e) => is_boundary(s, blen(s.take(e)) + 4int),
        None => true,
    }
}

/// `rest` without one leading `\n` or `\r\n`.
pub open spec fn after_newline(rest: Seq<char>) -> Seq<char> {
    if starts_with(rest, seq!['\n']) {
        rest.skip(1)
    } else if starts_with(rest, seq!['\r', '\n']) {
        rest.skip(2)
    } else {
        rest
    }
}

/// The header text and the body of a note that opens with a header.
pub open spec fn frontmatter_parts(raw: Seq<char>) -> Option<(Seq<char>, Seq<char>)> {
    let o = open_len(raw);
    let s = raw.skip(o);
    if o == 0 {
        None
    } else {
        match close_from(s, 0) {
            Some(e) => Some(
                (s.take(e), after_newline(s.skip(char_at_byte(s, blen(s.take(e)) + 4int)))),
            ),
            None => None,
        }
    }
}

proof fn lemma_line_end(s: Seq<char>, start: int)
    requires
        0 <= start < s.len(),
    ensures
        start < line_end(s, start) <= s.len(),
{
    lemma_find_char(s.subrange(start, s.len() as int), '\n');
}

/// Start of the closing line of `w`, with the byte offset of that start.
fn find_close(w: &Vec<char>) -> (r: Option<(usize, usize)>)
    ensures
        match r {
            Some(p) => close_from(w@, 0) == Some(p.0 as int) && p.1 == blen(w@.take(p.0 as int))
                && p.1 <= 4096 && p.0 < w@.len(),
            None => close_from(w@, 0) is None,
        },
{
    let m = w.len();
    let mut start: usize = 0;
    let mut acc: usize = 0;
    assert(w@.take(0) =~= Seq::<char>::empty());
    while start < m
        invariant
            start <= m == w@.len(),
            acc == blen(w@.take(start as int)),
            acc <= 4096,
            close_from(w@, 0) == close_from(w@, start as int),
        decreases m - start,
    {
        let nl = find_char_in(w, start, m, '\n');
        let e = if nl < m {
            nl + 1
        } else {
            m
        };
        proof {
            lemma_line_end(w@, start as int);
        }
        assert(e == line_end(w@, start as int));
        let (a, b) = trim_range(w, start, e);
        if b - a == 3 && w[a] == '-' && w[a + 1] == '-' && w[a + 2] == '-' {
            assert(w@.subrange(a as int, b as int) =~= dashes());
            return Some((start, acc));
        }
        assert(trim(w@.subrange(start as int, e as int)) != dashes()) by {
            if trim(w@.subrange(start as int, e as int)) == dashes() {
                assert(w@.subrange(a as int, b as int).len() == 3);
                assert(w@.subrange(a as int, b as int)[0] == w@[a as int]);
                assert(w@.subrange(a as int, b as int)[1] == w@[a + 1]);
                assert(w@.subrange(a as int, b as int)[2] == w@[a + 2]);
            }
        }
        let lb = blen_capped(w, start, e, 4096);
        proof {
            assert(w@.take(e as int) =~= w@.take(start as int) + w@.subrange(start as int, e as int));
            lemma_blen_append(w@.take(start as int), w@.subrange(start as int, e as int));
        }
        assert(close_from(w@, start as int) == if blen(w@.take(e as int)) > 4096 {
            None
        } else {
            close_from(w@, e as int)
        });
        if acc + lb > 4096 {
            return None;
        }
        acc = acc + lb;
        start = e;
    }
    None
}

/// Length of the opening line of `v`, as `open_len`.
fn open_len_exec(v: &Vec<char>) -> (o: usize)
    ensures
        o == open_len(v@),
        o <= v@.len(),
{
    let n = v.len();
    let o: usize = if n >= 4 && v[0] == '-' && v[1] == '-' && v[2] == '-' && v[3] == '\n' {
        assert(v@.take(4) =~= seq!['-', '-', '-', '\n']);
        4
    } else if n >= 5 && v[0] == '-' && v[1] == '-' && v[2] == '-' && v[3] == '\r' && v[4]
        == '\n' {
        assert(v@.len() < 4 || v@.take(4) != seq!['-', '-', '-', '\n']) by {
            if v@.len() >= 4 {
                assert(v@.take(4)[3] != seq!['-', '-', '-', '\n'][3]);
            }
        }
        assert(v@.take(5) =~= seq!['-', '-', '-', '\r', '\n']);
        5
    } else {
        proof {
            if v@.len() >= 4 && v@.take(4) == seq!['-', '-', '-', '\n'] {
                assert(v@.take(4)[0] == '-' && v@.take(4)[1] == '-');
                assert(v@.take(4)[2] == '-' && v@.take(4)[3] == '\n');
            }
            if v@.len() >= 5 && v@.take(5) == seq!['-', '-', '-', '\r', '\n'] {
                assert(v@.take(5)[0] == '-' && v@.take(5)[1] == '-');
                assert(v@.take(5)[2] == '-' && v@.take(5)[3] == '\r');
                assert(v@.take(5)[4] == '\n');
            }
        }
        0
    };
    o
}

/// Whether the body of `raw` can be cut where its header ends (see `cut_ok`).
pub fn frontmatter_cut_ok(raw: &str) -> (r: bool)
    ensures
        r == cut_ok(raw@),
{
    let v = chars_of(raw);
    let n = v.len();
    let o = open_len_exec(&v);
    if o == 0 {
        return true;
    }
    let mut w: Vec<char> = Vec::new();
    extend_range(&mut w, &v, o, n);
    assert(w@ =~= raw@.skip(o as int));
    match find_close(&w) {
        None => true,
        Some((e, eb)) => crate::text::boundary_from(&w, e, eb, eb + 4),
    }
}

/// The header text and body of `raw`, when it opens with `---` and has a
/// closing `---` line within its first 4096 bytes.
pub fn split_frontmatter(raw: &str) -> (r: Option<(String, String)>)
    requires
        cut_ok(raw@),
    ensures
        match r {
            Some(p) => frontmatter_parts(raw@) == Some((p.0@, p.1@)),
            None => frontmatter_parts(raw@) is None,
        },
{
    let v = chars_of(raw);
    let n = v.len();
    let o = open_len_exec(&v);
    assert(o == open_len(raw@));
    if o == 0 {
        return None;
    }
    let mut w: Vec<char> = Vec::new();
    extend_range(&mut w, &v, o, n);
    assert(w@ =~= raw@.skip(o as int));
    match find_close(&w) {
        None => None,
        Some((e, eb)) => {
            let m = w.len();
            let k = char_index_at_byte(&w, e, eb, eb + 4);
            let k2 = if k < m && w[k] == '\n' {
                assert(w@.skip(k as int).take(1) =~= seq!['\n']);
                k + 1
            } else if k + 1 < m && w[k] == '\r' && w[k + 1] == '\n' {
                assert(w@.skip(k as int).take(1) != seq!['\n']) by {
                    assert(w@.skip(k as int).take(1)[0] != seq!['\n'][0]);
                }
                assert(w@.skip(k as int).take(2) =~= seq!['\r', '\n']);
                k + 2
            } else {
                proof {
                    let rest = w@.skip(k as int);
                    if starts_with(rest, seq!['\n']) {
                        assert(rest.take(1)[0] == '\n');
                    }
                    if starts_with(rest, seq!['\r', '\n']) {
                        assert(rest.take(2)[0] == '\r' && rest.take(2)[1] == '\n');
                    }
                }
                k
            };
            let yaml = string_of_range(&w, 0, e);
            let body = string_of_range(&w, k2, m);
            proof {
                assert(w@.subrange(0, e as int) =~= w@.take(e as int));
                assert(w@.subrange(k2 as int, m as int) =~= after_newline(w@.skip(k as int)));
            }
            Some((yaml, body))
        },
    }
}

/// The header fields and the body of a note. A note without a header has
/// no fields and is all body.
pub fn parse_frontmatter(raw: &str) -> (r: (Frontmatter, String))
    requires
        cut_ok(raw@),
    ensures
        match frontmatter_parts(raw@) {
            Some(p) => r.0@ == yaml_fields(p.0) && r.1@ == p.1,
            None => r.0@ == no_fields() && r.1@ == raw@,
        },
{
    match split_frontmatter(raw) {
        Some((yaml, body)) => (read_yaml_fields(yaml.as_str()), body),
        None => (Frontmatter { title: None, tags: TagsField::Absent }, raw.to_owned()),
    }
}


/// The body of a note with a header is the rest of the note: a suffix of it.
pub proof fn law_body_is_rest_of_note(raw: Seq<char>)
    requires
        cut_ok(raw),
    ensures
        match frontmatter_parts(raw) {
            Some(p) => exists|k: int| 0 <= k <= raw.len() && p.1 == #[trigger] raw.skip(k),
            None => true,
        },
{
    let o = open_len(raw);
    let s = raw.skip(o);
    if o != 0 {
        match close_from(s, 0) {
            Some(e) => {
                let b = blen(s.take(e)) + 4int;
                let k = char_at_byte(s, b);
                assert(0 <= k <= s.len());
                let rest = s.skip(k);
                assert(s.skip(k) =~= raw.skip(o + k));
                if starts_with(rest, seq!['\n']) {
                    assert(rest.skip(1) =~= raw.skip(o + k + 1));
                } else if starts_with(rest, seq!['\r', '\n']) {
                    assert(rest.skip(2) =~= raw.skip(o + k + 2));
                }
            },
            None => {},
        }
    }
}

} // verus!
