//! Block segmentation of a note body: headings, paragraphs, fenced code,
//! block quotes and lists, each with a stable content-derived id.

use vstd::prelude::*;
use crate::hashing::{short_hash, short_hash_of};
use crate::text::{
    dec, extend_range, extend_str, is_blank, is_blank_range, push_dec, ranges_cut,
    skip_ws, split_char, split_ranges, string_of, string_of_range, trim, trim_range, trim_start, chars_of, is_lower_hex,
    };

verus! {

// ---------------------------------------------------------------------------
// Line classes
// ---------------------------------------------------------------------------

pub open spec fn sw1(t: Seq<char>, c1: char) -> bool {
    t.len() >= 1 && t[0] == c1
}

pub open spec fn sw2(t: Seq<char>, c1: char, c2: char) -> bool {
    t.len() >= 2 && t[0] == c1 && t[1] == c2
}

pub open spec fn sw3(t: Seq<char>, c1: char, c2: char, c3: char) -> bool {
    t.len() >= 3 && t[0] == c1 && t[1] == c2 && t[2] == c3
}

pub open spec fn sw4(t: Seq<char>, c1: char, c2: char, c3: char, c4: char) -> bool {
    t.len() >= 4 && t[0] == c1 && t[1] == c2 && t[2] == c3 && t[3] == c4
}

pub open spec fn is_digit(c: char) -> bool {
    '0' <= c && c <= '9'
}

/// `t` contains the two characters `". "` in a row.
pub open spec fn has_dot_space(t: Seq<char>) -> bool {
    exists|i: int| 0 <= i < t.len() - 1 && #[trigger] t[i] == '.' && t[i + 1] == ' '
}

/// A line opening or closing a fenced code block.
pub open spec fn is_fence(l: Seq<char>) -> bool {
    sw3(trim_start(l), '`', '`', '`')
}

pub open spec fn is_quote(l: Seq<char>) -> bool {
    sw1(trim_start(l), '>')
}

/// `- `, `* ` or `+ ` after leading whitespace.
pub open spec fn is_bullet(l: Seq<char>) -> bool {
    let t = trim_start(l);
    sw2(t, '-', ' ') || sw2(t, '*', ' ') || sw2(t, '+', ' ')
}

/// A numbered item: starts with an ASCII digit and contains `". "`.
pub open spec fn is_numbered(l: Seq<char>) -> bool {
    let t = trim_start(l);
    t.len() > 0 && is_digit(t[0]) && has_dot_space(t)
}

/// A line that continues a list block.
pub open spec fn is_list_line(l: Seq<char>) -> bool {
    is_bullet(l) || sw4(trim_start(l), ' ', ' ', '-', ' ') || is_numbered(l)
}

/// A line that opens a list block.
pub open spec fn starts_list(l: Seq<char>) -> bool {
    is_bullet(l) || is_numbered(l)
}

/// Number of `#` characters at the front of `t`.
pub open spec fn hashes(t: Seq<char>) -> nat
    decreases t.len(),
{
    if t.len() > 0 && t[0] == '#' {
        1 + hashes(t.drop_first())
    } else {
        0
    }
}

/// ATX heading level: 1 to 6 `#` after leading whitespace, then a space or the end.
pub open spec fn heading_level_of(l: Seq<char>) -> Option<u8> {
    let t = trim_start(l);
    let n = hashes(t);
    if 1 <= n <= 6 && (n == t.len() || t[n as int] == ' ') {
        Some(n as u8)
    } else {
        None
    }
}

/// The line with its leading `#` characters removed.
pub open spec fn strip_hashes(l: Seq<char>) -> Seq<char> {
    l.skip(hashes(l) as int)
}

/// A line that may continue a paragraph.
pub open spec fn is_para_line(l: Seq<char>) -> bool {
    &&& !is_blank(l)
    &&& !is_fence(l)
    &&& heading_level_of(l) is None
    &&& !is_quote(l)
    &&& !is_bullet(l)
}

pub proof fn lemma_hashes(t: Seq<char>)
    ensures
        hashes(t) <= t.len(),
        forall|i: int| 0 <= i < hashes(t) ==> #[trigger] t[i] == '#',
        hashes(t) < t.len() ==> t[hashes(t) as int] != '#',
    decreases t.len(),
{
    if t.len() > 0 && t[0] == '#' {
        lemma_hashes(t.drop_first());
        assert forall|i: int| 0 <= i < hashes(t) implies #[trigger] t[i] == '#' by {
            if i > 0 {
                assert(t[i] == t.drop_first()[i - 1]);
            }
        }
    }
}

// ---------------------------------------------------------------------------
// Segmentation
// ---------------------------------------------------------------------------

/// The lines of `ls[lo..hi]`, each followed by a newline.
pub open spec fn join_nl(ls: Seq<Seq<char>>) -> Seq<char>
    decreases ls.len(),
{
    if ls.len() == 0 {
        Seq::<char>::empty()
    } else {
        join_nl(ls.drop_last()) + ls.last() + seq!['\n']
    }
}

/// End (exclusive) of a code block body that starts at line `j`: just past the
/// closing fence, or the end of the note when the fence is never closed.
pub open spec fn code_end(ls: Seq<Seq<char>>, j: int) -> int
    decreases ls.len() - j,
{
    if j >= ls.len() {
        ls.len() as int
    } else if is_fence(ls[j]) {
        j + 1
    } else {
        code_end(ls, j + 1)
    }
}

/// End of a quote or list run that starts at line `j`: the run takes the lines
/// of its class and stops after the first blank line.
pub open spec fn run_end(ls: Seq<Seq<char>>, j: int, list: bool) -> int
    decreases ls.len() - j,
{
    if j >= ls.len() {
        ls.len() as int
    } else if is_blank(ls[j]) {
        j + 1
    } else if (if list {
        is_list_line(ls[j])
    } else {
        is_quote(ls[j])
    }) {
        run_end(ls, j + 1, list)
    } else {
        j
    }
}

/// End of a paragraph that starts at line `j`.
pub open spec fn para_end(ls: Seq<Seq<char>>, j: int) -> int
    decreases ls.len() - j,
{
    if j >= ls.len() {
        ls.len() as int
    } else if is_para_line(ls[j]) {
        para_end(ls, j + 1)
    } else {
        j
    }
}

pub proof fn lemma_code_end(ls: Seq<Seq<char>>, j: int)
    requires
        0 <= j <= ls.len(),
    ensures
        j <= code_end(ls, j) <= ls.len(),
    decreases ls.len() - j,
{
    if j < ls.len() && !is_fence(ls[j]) {
        lemma_code_end(ls, j + 1);
    }
}

pub proof fn lemma_run_end(ls: Seq<Seq<char>>, j: int, list: bool)
    requires
        0 <= j <= ls.len(),
    ensures
        j <= run_end(ls, j, list) <= ls.len(),
    decreases ls.len() - j,
{
    if j < ls.len() && !is_blank(ls[j]) {
        if (if list {
            is_list_line(ls[j])
        } else {
            is_quote(ls[j])
        }) {
            lemma_run_end(ls, j + 1, list);
        }
    }
}

pub proof fn lemma_para_end(ls: Seq<Seq<char>>, j: int)
    requires
        0 <= j <= ls.len(),
    ensures
        j <= para_end(ls, j) <= ls.len(),
    decreases ls.len() - j,
{
    if j < ls.len() && is_para_line(ls[j]) {
        lemma_para_end(ls, j + 1);
    }
}

/// The kinds of block a note body is cut into.
#[derive(PartialEq, Eq, Clone, Copy, Debug, Structural)]
pub enum BlockKind {
    Code,
    Heading,
    Blockquote,
    List,
    Paragraph,
}

/// A block before it is given an id: kind, heading level and text.
pub type RawBlock = (BlockKind, Option<u8>, Seq<char>);

/// The blocks of the lines `ls[i..]`, in order.
#[verifier::opaque]
pub open spec fn segment_from(ls: Seq<Seq<char>>, i: int) -> Seq<RawBlock>
    decreases ls.len() - i,
{
    if i < 0 || i >= ls.len() {
        Seq::<RawBlock>::empty()
    } else if is_blank(ls[i]) {
        segment_from(ls, i + 1)
    } else if is_fence(ls[i]) {
        let e = code_end(ls, i + 1);
        if e <= i || e > ls.len() {
            Seq::<RawBlock>::empty()
        } else {
            seq![(BlockKind::Code, None::<u8>, join_nl(ls.subrange(i, e)))] + segment_from(ls, e)
        }
    } else if heading_level_of(ls[i]) is Some {
        seq![(BlockKind::Heading, heading_level_of(ls[i]), trim(strip_hashes(ls[i])))]
            + segment_from(ls, i + 1)
    } else if is_quote(ls[i]) {
        let e = run_end(ls, i, false);
        if e <= i || e > ls.len() {
            Seq::<RawBlock>::empty()
        } else {
            seq![(BlockKind::Blockquote, None::<u8>, join_nl(ls.subrange(i, e)))]
                + segment_from(ls, e)
        }
    } else if starts_list(ls[i]) {
        let e = run_end(ls, i, true);
        if e <= i || e > ls.len() {
            Seq::<RawBlock>::empty()
        } else {
            seq![(BlockKind::List, None::<u8>, join_nl(ls.subrange(i, e)))] + segment_from(ls, e)
        }
    } else {
        let e = para_end(ls, i);
        if e <= i || e > ls.len() {
            Seq::<RawBlock>::empty()
        } else {
            let c = trim(join_nl(ls.subrange(i, e)));
            if c.len() > 0 {
                seq![(BlockKind::Paragraph, None::<u8>, c)] + segment_from(ls, e)
            } else {
                segment_from(ls, e)
            }
        }
    }
}

/// The blocks of a note body, in order.
pub open spec fn segment(body: Seq<char>) -> Seq<RawBlock> {
    segment_from(split_char(body, '\n'), 0)
}

// ---------------------------------------------------------------------------
// Blocks with ids
// ---------------------------------------------------------------------------

/// A block of a note, as stored in the index.
#[derive(Clone, Debug)]
pub struct Block {
    pub id: String,
    pub note_id: String,
    /// `heading`, `paragraph`, `code`, `list` or `blockquote`.
    pub block_type: String,
    pub level: Option<u8>,
    pub content: String,
    pub content_hash: String,
    pub order_index: i64,
}

pub struct BlockView {
    pub id: Seq<char>,
    pub note_id: Seq<char>,
    pub block_type: Seq<char>,
    pub level: Option<u8>,
    pub content: Seq<char>,
    pub content_hash: Seq<char>,
    pub order_index: int,
}

impl View for Block {
    type V = BlockView;

    open spec fn view(&self) -> BlockView {
        BlockView {
            id: self.id@,
            note_id: self.note_id@,
            block_type: self.block_type@,
            level: self.level,
            content: self.content@,
            content_hash: self.content_hash@,
            order_index: self.order_index as int,
        }
    }
}

pub open spec fn kind_name(k: BlockKind) -> Seq<char> {
    match k {
        BlockKind::Code => seq!['c', 'o', 'd', 'e'],
        BlockKind::Heading => seq!['h', 'e', 'a', 'd', 'i', 'n', 'g'],
        BlockKind::Blockquote => seq!['b', 'l', 'o', 'c', 'k', 'q', 'u', 'o', 't', 'e'],
        BlockKind::List => seq!['l', 'i', 's', 't'],
        BlockKind::Paragraph => seq!['p', 'a', 'r', 'a', 'g', 'r', 'a', 'p', 'h'],
    }
}

/// At most the first `n` characters of `s`.
pub open spec fn take_at_most(s: Seq<char>, n: nat) -> Seq<char> {
    if s.len() <= n {
        s
    } else {
        s.take(n as int)
    }
}

/// `blk_` followed by the short hash of `type|order|content`.
pub open spec fn block_id_of(kind: Seq<char>, content: Seq<char>, order: nat) -> Seq<char> {
    seq!['b', 'l', 'k', '_'] + short_hash_of(kind + seq!['|'] + dec(order) + seq!['|'] + content)
}

/// The block made of `raw` at position `order` of note `note_id`.
pub open spec fn block_of(raw: RawBlock, order: nat, note_id: Seq<char>) -> BlockView {
    BlockView {
        id: block_id_of(kind_name(raw.0), raw.2, order),
        note_id: note_id,
        block_type: kind_name(raw.0),
        level: raw.1,
        content: trim(take_at_most(raw.2, 200)),
        content_hash: short_hash_of(raw.2),
        order_index: order as int,
    }
}

/// The blocks of `body`, numbered from 0.
pub open spec fn blocks_of(body: Seq<char>, note_id: Seq<char>) -> Seq<BlockView> {
    let raws = segment(body);
    Seq::new(raws.len(), |j: int| block_of(raws[j], j as nat, note_id))
}

/// The form of a block id: `blk_` and eight lower-case hex digits.
pub open spec fn block_id_shaped(id: Seq<char>) -> bool {
    &&& id.len() == 12
    &&& id.take(4) == seq!['b', 'l', 'k', '_']
    &&& is_lower_hex(id.skip(4))
}

/// What every block looks like: its id has the form above, its content hash
/// is eight lower-case hex digits, and its content is trimmed and at most 200
/// characters long.
pub open spec fn well_formed_block(b: BlockView) -> bool {
    &&& block_id_shaped(b.id)
    &&& b.content_hash.len() == 8
    &&& is_lower_hex(b.content_hash)
    &&& b.content.len() <= 200
    &&& trim(b.content) == b.content
}

/// Where the block that line `i` opens (or the blank line `i`) ends: the
/// lines `i..step_end(ls, i)` are taken together.
pub open spec fn step_end(ls: Seq<Seq<char>>, i: int) -> int {
    if is_blank(ls[i]) {
        i + 1
    } else if is_fence(ls[i]) {
        code_end(ls, i + 1)
    } else if heading_level_of(ls[i]) is Some {
        i + 1
    } else if is_quote(ls[i]) {
        run_end(ls, i, false)
    } else if starts_list(ls[i]) {
        run_end(ls, i, true)
    } else {
        para_end(ls, i)
    }
}

/// Whether the lines taken at line `i` make a block (a blank line, or a
/// paragraph with no text, makes none).
pub open spec fn step_pushes(ls: Seq<Seq<char>>, i: int) -> bool {
    !is_blank(ls[i]) && (is_fence(ls[i]) || heading_level_of(ls[i]) is Some || is_quote(ls[i])
        || starts_list(ls[i]) || trim(join_nl(ls.subrange(i, para_end(ls, i)))).len() > 0)
}

/// `o` moved up by `k`.
pub open spec fn shift(o: Option<int>, k: int) -> Option<int> {
    match o {
        Some(j) => Some(j + k),
        None => None,
    }
}

/// The position, among the blocks of the lines `ls[i..]`, of the block that
/// holds line `t`; `None` when no block holds it (a blank line outside any
/// block, or a line before `i`).
pub open spec fn line_block_from(ls: Seq<Seq<char>>, i: int, t: int) -> Option<int>
    decreases ls.len() - i,
{
    if i < 0 || i >= ls.len() || t < i {
        None
    } else {
        let e = step_end(ls, i);
        if e <= i || e > ls.len() {
            None
        } else if t < e {
            if step_pushes(ls, i) {
                Some(0)
            } else {
                None
            }
        } else {
            shift(line_block_from(ls, e, t), if step_pushes(ls, i) { 1int } else { 0int })
        }
    }
}

/// The id of the block that holds line `t` of the lines `ls`.
pub open spec fn line_block_in(ls: Seq<Seq<char>>, t: int) -> Option<Seq<char>> {
    let raws = segment_from(ls, 0);
    match line_block_from(ls, 0, t) {
        Some(j) => if 0 <= j < raws.len() {
            Some(block_id_of(kind_name(raws[j].0), raws[j].2, j as nat))
        } else {
            None
        },
        None => None,
    }
}

fn kind_str(k: BlockKind) -> (s: &'static str)
    ensures
        s@ == kind_name(k),
{
    match k {
        BlockKind::Code => {
            proof {
                reveal_strlit("code");
            }
            "code"
        },
        BlockKind::Heading => {
            proof {
                reveal_strlit("heading");
            }
            "heading"
        },
        BlockKind::Blockquote => {
            proof {
                reveal_strlit("blockquote");
            }
            "blockquote"
        },
        BlockKind::List => {
            proof {
                reveal_strlit("list");
            }
            "list"
        },
        BlockKind::Paragraph => {
            proof {
                reveal_strlit("paragraph");
            }
            "paragraph"
        },
    }
}

/// Id of a block: `blk_` and the short hash of `type|order|content`.
pub fn compute_block_id(block_type: &str, content: &Vec<char>, order: u64) -> (r: String)
    ensures
        r@ == block_id_of(block_type@, content@, order as nat),
        block_id_shaped(r@),
{
    let mut input: Vec<char> = Vec::new();
    extend_str(&mut input, block_type);
    input.push('|');
    push_dec(&mut input, order);
    input.push('|');
    extend_range(&mut input, content, 0, content.len());
    proof {
        assert(content@.subrange(0, content@.len() as int) =~= content@);
        assert(input@ =~= block_type@ + seq!['|'] + dec(order as nat) + seq!['|'] + content@);
    }
    let hash = short_hash(string_of(&input).as_str());
    let mut out: Vec<char> = Vec::new();
    out.push('b');
    out.push('l');
    out.push('k');
    out.push('_');
    extend_str(&mut out, &hash);
    proof {
        assert(out@ =~= seq!['b', 'l', 'k', '_'] + hash@);
        assert(out@.take(4) =~= seq!['b', 'l', 'k', '_']);
        assert(out@.skip(4) =~= hash@);
    }
    string_of(&out)
}

/// Appends the block made of `content` at position `order`.
fn push_block(
    blocks: &mut Vec<Block>,
    note_id: &str,
    kind: BlockKind,
    level: Option<u8>,
    content: &Vec<char>,
    order: u64,
)
    requires
        order <= i64::MAX,
    ensures
        final(blocks)@.len() == old(blocks)@.len() + 1,
        forall|j: int| 0 <= j < old(blocks)@.len() ==> final(blocks)@[j] == old(blocks)@[j],
        final(blocks)@.last()@ == block_of((kind, level, content@), order as nat, note_id@),
        well_formed_block(final(blocks)@.last()@),
{
    let ks = kind_str(kind);
    let id = compute_block_id(ks, content, order);
    let text = string_of(content);
    let hash = short_hash(text.as_str());
    let n = if content.len() <= 200 {
        content.len()
    } else {
        200
    };
    let (a, b) = trim_range(content, 0, n);
    let snippet = string_of_range(content, a, b);
    proof {
        assert(content@.subrange(0, n as int) == take_at_most(content@, 200));
        crate::text::lemma_trim_trimmed(take_at_most(content@, 200));
    }
    blocks.push(
        Block {
            id,
            note_id: note_id.to_owned(),
            block_type: ks.to_owned(),
            level,
            content: snippet,
            content_hash: hash,
            order_index: order as i64,
        },
    );
}


// ---------------------------------------------------------------------------
// Line classes on index ranges
// ---------------------------------------------------------------------------

/// `lo + hashes(v[lo..hi])`: the index just past the leading `#` characters.
fn skip_hashes(v: &Vec<char>, lo: usize, hi: usize) -> (k: usize)
    requires
        lo <= hi <= v.len(),
    ensures
        lo <= k <= hi,
        k == lo + hashes(v@.subrange(lo as int, hi as int)),
{
    let mut k = lo;
    while k < hi && v[k] == '#'
        invariant
            lo <= k <= hi <= v.len(),
            hashes(v@.subrange(lo as int, hi as int)) == (k - lo) + hashes(
                v@.subrange(k as int, hi as int),
            ),
        decreases hi - k,
    {
        assert(v@.subrange(k as int, hi as int).drop_first() =~= v@.subrange(k + 1, hi as int));
        k = k + 1;
    }
    k
}

fn fence_line(v: &Vec<char>, a: usize, b: usize) -> (r: bool)
    requires
        a <= b <= v.len(),
    ensures
        r == is_fence(v@.subrange(a as int, b as int)),
{
    let t = skip_ws(v, a, b);
    b - t >= 3 && v[t] == '`' && v[t + 1] == '`' && v[t + 2] == '`'
}

fn quote_line(v: &Vec<char>, a: usize, b: usize) -> (r: bool)
    requires
        a <= b <= v.len(),
    ensures
        r == is_quote(v@.subrange(a as int, b as int)),
{
    let t = skip_ws(v, a, b);
    t < b && v[t] == '>'
}

fn bullet_line(v: &Vec<char>, a: usize, b: usize) -> (r: bool)
    requires
        a <= b <= v.len(),
    ensures
        r == is_bullet(v@.subrange(a as int, b as int)),
{
    let t = skip_ws(v, a, b);
    b - t >= 2 && (v[t] == '-' || v[t] == '*' || v[t] == '+') && v[t + 1] == ' '
}

/// Whether `v[lo..hi]` contains `". "`.
fn dot_space_in(v: &Vec<char>, lo: usize, hi: usize) -> (r: bool)
    requires
        lo <= hi <= v.len(),
    ensures
        r == has_dot_space(v@.subrange(lo as int, hi as int)),
{
    let ghost s = v@.subrange(lo as int, hi as int);
    let mut i = lo;
    while hi - i > 1
        invariant
            lo <= i <= hi <= v.len(),
            s == v@.subrange(lo as int, hi as int),
            forall|j: int| 0 <= j < i - lo && j < s.len() - 1 ==> !(#[trigger] s[j] == '.' && s[j + 1] == ' '),
        decreases hi - i,
    {
        if v[i] == '.' && v[i + 1] == ' ' {
            assert(s[i - lo] == '.' && s[i - lo + 1] == ' ');
            return true;
        }
        i = i + 1;
    }
    assert forall|j: int| 0 <= j < s.len() - 1 implies !(#[trigger] s[j] == '.' && s[j + 1] == ' ') by {
        assert(j < i - lo);
    }
    false
}

fn numbered_line(v: &Vec<char>, a: usize, b: usize) -> (r: bool)
    requires
        a <= b <= v.len(),
    ensures
        r == is_numbered(v@.subrange(a as int, b as int)),
{
    let t = skip_ws(v, a, b);
    t < b && '0' <= v[t] && v[t] <= '9' && dot_space_in(v, t, b)
}

fn list_line(v: &Vec<char>, a: usize, b: usize) -> (r: bool)
    requires
        a <= b <= v.len(),
    ensures
        r == is_list_line(v@.subrange(a as int, b as int)),
{
    let t = skip_ws(v, a, b);
    let indented = b - t >= 4 && v[t] == ' ' && v[t + 1] == ' ' && v[t + 2] == '-' && v[t + 3]
        == ' ';
    bullet_line(v, a, b) || indented || numbered_line(v, a, b)
}

fn heading_level_range(v: &Vec<char>, a: usize, b: usize) -> (r: Option<u8>)
    requires
        a <= b <= v.len(),
    ensures
        r == heading_level_of(v@.subrange(a as int, b as int)),
{
    let t = skip_ws(v, a, b);
    let k = skip_hashes(v, t, b);
    let n = k - t;
    if 1 <= n && n <= 6 && (k == b || v[k] == ' ') {
        Some(n as u8)
    } else {
        None
    }
}

fn para_line(v: &Vec<char>, a: usize, b: usize) -> (r: bool)
    requires
        a <= b <= v.len(),
    ensures
        r == is_para_line(v@.subrange(a as int, b as int)),
{
    !is_blank_range(v, a, b) && !fence_line(v, a, b) && heading_level_range(v, a, b).is_none()
        && !quote_line(v, a, b) && !bullet_line(v, a, b)
}

/// Heading level of a line: 1 to 6 `#` after leading whitespace, then a space or the end.
pub fn heading_level(line: &str) -> (r: Option<u8>)
    ensures
        r == heading_level_of(line@),
{
    let v = chars_of(line);
    assert(v@.subrange(0, v@.len() as int) =~= v@);
    heading_level_range(&v, 0, v.len())
}

// ---------------------------------------------------------------------------
// Extraction
// ---------------------------------------------------------------------------

pub proof fn lemma_split_char_bound(s: Seq<char>, c: char)
    ensures
        split_char(s, c).len() <= s.len() + 1,
    decreases s.len(),
{
    if s.len() > 0 {
        lemma_split_char_bound(s.drop_last(), c);
        crate::text::lemma_split_char_len(s.drop_last(), c);
    }
}

proof fn lemma_join_nl_step(ls: Seq<Seq<char>>, i0: int, i: int)
    requires
        0 <= i0 <= i < ls.len(),
    ensures
        join_nl(ls.subrange(i0, i + 1)) == join_nl(ls.subrange(i0, i)) + ls[i] + seq!['\n'],
{
    assert(ls.subrange(i0, i + 1).drop_last() =~= ls.subrange(i0, i));
}


proof fn lemma_seg_end(ls: Seq<Seq<char>>, i: int)
    requires
        i >= ls.len(),
    ensures
        segment_from(ls, i) == Seq::<RawBlock>::empty(),
{
    reveal(segment_from);
}

proof fn lemma_seg_blank(ls: Seq<Seq<char>>, i: int)
    requires
        0 <= i < ls.len(),
        is_blank(ls[i]),
    ensures
        segment_from(ls, i) == segment_from(ls, i + 1),
{
    reveal(segment_from);
}

proof fn lemma_seg_code(ls: Seq<Seq<char>>, i: int, e: int)
    requires
        0 <= i < ls.len(),
        !is_blank(ls[i]),
        is_fence(ls[i]),
        e == code_end(ls, i + 1),
    ensures
        i < e <= ls.len(),
        segment_from(ls, i) == seq![(BlockKind::Code, None::<u8>, join_nl(ls.subrange(i, e)))]
            + segment_from(ls, e),
{
    reveal(segment_from);
    lemma_code_end(ls, i + 1);
}

proof fn lemma_seg_heading(ls: Seq<Seq<char>>, i: int)
    requires
        0 <= i < ls.len(),
        !is_blank(ls[i]),
        !is_fence(ls[i]),
        heading_level_of(ls[i]) is Some,
    ensures
        segment_from(ls, i) == seq![
            (BlockKind::Heading, heading_level_of(ls[i]), trim(strip_hashes(ls[i]))),
        ] + segment_from(ls, i + 1),
{
    reveal(segment_from);
}

proof fn lemma_seg_run(ls: Seq<Seq<char>>, i: int, list: bool)
    requires
        0 <= i < ls.len(),
        !is_blank(ls[i]),
        !is_fence(ls[i]),
        heading_level_of(ls[i]) is None,
        list == !is_quote(ls[i]),
        is_quote(ls[i]) || starts_list(ls[i]),
    ensures
        i < run_end(ls, i, list) <= ls.len(),
        segment_from(ls, i) == seq![
            (if list {
                BlockKind::List
            } else {
                BlockKind::Blockquote
            }, None::<u8>, join_nl(ls.subrange(i, run_end(ls, i, list)))),
        ] + segment_from(ls, run_end(ls, i, list)),
{
    reveal(segment_from);
    lemma_run_end(ls, i + 1, list);
}

proof fn lemma_seg_para(ls: Seq<Seq<char>>, i: int)
    requires
        0 <= i < ls.len(),
        !is_blank(ls[i]),
        !is_fence(ls[i]),
        heading_level_of(ls[i]) is None,
        !is_quote(ls[i]),
        !starts_list(ls[i]),
    ensures
        i < para_end(ls, i) <= ls.len(),
        ({
            let c = trim(join_nl(ls.subrange(i, para_end(ls, i))));
            segment_from(ls, i) == if c.len() > 0 {
                seq![(BlockKind::Paragraph, None::<u8>, c)] + segment_from(ls, para_end(ls, i))
            } else {
                segment_from(ls, para_end(ls, i))
            }
        }),
{
    reveal(segment_from);
    lemma_para_end(ls, i + 1);
}

/// Appends line `i` and a newline to `content`.
fn append_line(content: &mut Vec<char>, v: &Vec<char>, lr: &Vec<(usize, usize)>, i: usize, i0: usize)
    requires
        ranges_cut(v@, '\n', lr@),
        i0 <= i < lr@.len(),
        old(content)@ == join_nl(split_char(v@, '\n').subrange(i0 as int, i as int)),
    ensures
        final(content)@ == join_nl(split_char(v@, '\n').subrange(i0 as int, i + 1)),
{
    let (a, b) = lr[i];
    extend_range(content, v, a, b);
    content.push('\n');
    proof {
        lemma_join_nl_step(split_char(v@, '\n'), i0 as int, i as int);
    }
}

/// A fenced code block opened at line `i0`: its text and the line after it.
fn code_block(v: &Vec<char>, lr: &Vec<(usize, usize)>, i0: usize) -> (r: (Vec<char>, usize))
    requires
        ranges_cut(v@, '\n', lr@),
        i0 < lr@.len(),
    ensures
        r.1 == code_end(split_char(v@, '\n'), i0 + 1),
        r.0@ == join_nl(split_char(v@, '\n').subrange(i0 as int, r.1 as int)),
{
    let ghost ls = split_char(v@, '\n');
    let n = lr.len();
    let mut content: Vec<char> = Vec::new();
    assert(ls.subrange(i0 as int, i0 as int) =~= Seq::<Seq<char>>::empty());
    append_line(&mut content, v, lr, i0, i0);
    let mut i = i0 + 1;
    let mut closed = false;
    while i < n && !closed
        invariant
            ranges_cut(v@, '\n', lr@),
            ls == split_char(v@, '\n'),
            n == lr@.len(),
            i0 < i <= n,
            content@ == join_nl(ls.subrange(i0 as int, i as int)),
            closed ==> code_end(ls, i0 + 1) == i,
            !closed ==> code_end(ls, i0 + 1) == code_end(ls, i as int),
        decreases n - i,
    {
        append_line(&mut content, v, lr, i, i0);
        let (a, b) = lr[i];
        if fence_line(v, a, b) {
            closed = true;
        }
        i = i + 1;
    }
    (content, i)
}

/// A quote run (`list == false`) or list run opened at line `i0`.
fn run_block(v: &Vec<char>, lr: &Vec<(usize, usize)>, i0: usize, list: bool) -> (r: (
    Vec<char>,
    usize,
))
    requires
        ranges_cut(v@, '\n', lr@),
        i0 < lr@.len(),
    ensures
        r.1 == run_end(split_char(v@, '\n'), i0 as int, list),
        r.0@ == join_nl(split_char(v@, '\n').subrange(i0 as int, r.1 as int)),
{
    let ghost ls = split_char(v@, '\n');
    let n = lr.len();
    let mut content: Vec<char> = Vec::new();
    assert(ls.subrange(i0 as int, i0 as int) =~= Seq::<Seq<char>>::empty());
    let mut i = i0;
    let mut stop = false;
    while i < n && !stop
        invariant
            ranges_cut(v@, '\n', lr@),
            ls == split_char(v@, '\n'),
            n == lr@.len(),
            i0 <= i <= n,
            content@ == join_nl(ls.subrange(i0 as int, i as int)),
            stop ==> run_end(ls, i0 as int, list) == i,
            !stop ==> run_end(ls, i0 as int, list) == run_end(ls, i as int, list),
        decreases n - i + (if stop { 0int } else { 1int }),
    {
        let (a, b) = lr[i];
        if is_blank_range(v, a, b) {
            append_line(&mut content, v, lr, i, i0);
            i = i + 1;
            stop = true;
        } else if (if list {
            list_line(v, a, b)
        } else {
            quote_line(v, a, b)
        }) {
            append_line(&mut content, v, lr, i, i0);
            i = i + 1;
        } else {
            stop = true;
        }
    }
    (content, i)
}

/// A paragraph opened at line `i0`: its untrimmed text and the line after it.
fn para_block(v: &Vec<char>, lr: &Vec<(usize, usize)>, i0: usize) -> (r: (Vec<char>, usize))
    requires
        ranges_cut(v@, '\n', lr@),
        i0 < lr@.len(),
    ensures
        r.1 == para_end(split_char(v@, '\n'), i0 as int),
        r.0@ == join_nl(split_char(v@, '\n').subrange(i0 as int, r.1 as int)),
{
    let ghost ls = split_char(v@, '\n');
    let n = lr.len();
    let mut content: Vec<char> = Vec::new();
    assert(ls.subrange(i0 as int, i0 as int) =~= Seq::<Seq<char>>::empty());
    let mut i = i0;
    while i < n && para_line(v, lr[i].0, lr[i].1)
        invariant
            ranges_cut(v@, '\n', lr@),
            ls == split_char(v@, '\n'),
            n == lr@.len(),
            i0 <= i <= n,
            content@ == join_nl(ls.subrange(i0 as int, i as int)),
            para_end(ls, i0 as int) == para_end(ls, i as int),
        decreases n - i,
    {
        append_line(&mut content, v, lr, i, i0);
        i = i + 1;
    }
    (content, i)
}

/// What one step of the extraction did: consumed lines `i..r.0` and, when a
/// block was made of them, pushed it as `block_of(raw, order)`.
pub open spec fn step_done(
    ls: Seq<Seq<char>>,
    i: int,
    e: int,
    pushed: bool,
    raw: Option<RawBlock>,
    before: Seq<Block>,
    after: Seq<Block>,
    order: nat,
    note_id: Seq<char>,
) -> bool {
    &&& i < e <= ls.len()
    &&& e == step_end(ls, i)
    &&& pushed == step_pushes(ls, i)
    &&& pushed == raw is Some
    &&& forall|j: int| 0 <= j < before.len() ==> after[j] == before[j]
    &&& match raw {
        Some(rb) => {
            &&& segment_from(ls, i) == seq![rb] + segment_from(ls, e)
            &&& after.len() == before.len() + 1
            &&& after.last()@ == block_of(rb, order, note_id)
            &&& well_formed_block(after.last()@)
        },
        None => {
            &&& segment_from(ls, i) == segment_from(ls, e)
            &&& after.len() == before.len()
        },
    }
}

fn next_code(
    v: &Vec<char>,
    lr: &Vec<(usize, usize)>,
    i: usize,
    note_id: &str,
    blocks: &mut Vec<Block>,
    order: u64,
) -> (r: (usize, bool, Ghost<Option<RawBlock>>))
    requires
        ranges_cut(v@, '\n', lr@),
        i < lr@.len(),
        order < i64::MAX,
        !is_blank(split_char(v@, '\n')[i as int]),
        is_fence(split_char(v@, '\n')[i as int]),
    ensures
        step_done(split_char(v@, '\n'), i as int, r.0 as int, r.1, r.2@, old(blocks)@, final(blocks)@, order as nat, note_id@),
{
    let (content, e) = code_block(v, lr, i);
    proof {
        lemma_seg_code(split_char(v@, '\n'), i as int, e as int);
    }
    push_block(blocks, note_id, BlockKind::Code, None, &content, order);
    (e, true, Ghost(Some((BlockKind::Code, None, content@))))
}

#[verifier::rlimit(40)]
fn next_heading(
    v: &Vec<char>,
    lr: &Vec<(usize, usize)>,
    i: usize,
    note_id: &str,
    blocks: &mut Vec<Block>,
    order: u64,
    level: u8,
) -> (r: (usize, bool, Ghost<Option<RawBlock>>))
    requires
        ranges_cut(v@, '\n', lr@),
        i < lr@.len(),
        lr@.len() <= v@.len() + 1,
        v@.len() < i64::MAX,
        order < i64::MAX,
        !is_blank(split_char(v@, '\n')[i as int]),
        !is_fence(split_char(v@, '\n')[i as int]),
        heading_level_of(split_char(v@, '\n')[i as int]) == Some(level),
    ensures
        step_done(split_char(v@, '\n'), i as int, r.0 as int, r.1, r.2@, old(blocks)@, final(blocks)@, order as nat, note_id@),
{
    let ghost ls = split_char(v@, '\n');
    let (a, b) = lr[i];
    let ghost li = ls[i as int];
    assert(li == v@.subrange(a as int, b as int));
    let h = skip_hashes(v, a, b);
    let (ta, tb) = trim_range(v, h, b);
    let mut snippet: Vec<char> = Vec::new();
    extend_range(&mut snippet, v, ta, tb);
    proof {
        assert(strip_hashes(li) =~= v@.subrange(h as int, b as int));
        assert(snippet@ =~= trim(strip_hashes(li)));
        lemma_seg_heading(ls, i as int);
    }
    push_block(blocks, note_id, BlockKind::Heading, Some(level), &snippet, order);
    let _n = lr.len();
    (i + 1, true, Ghost(Some((BlockKind::Heading, Some(level), snippet@))))
}

fn next_run(
    v: &Vec<char>,
    lr: &Vec<(usize, usize)>,
    i: usize,
    note_id: &str,
    blocks: &mut Vec<Block>,
    order: u64,
    list: bool,
) -> (r: (usize, bool, Ghost<Option<RawBlock>>))
    requires
        ranges_cut(v@, '\n', lr@),
        i < lr@.len(),
        order < i64::MAX,
        !is_blank(split_char(v@, '\n')[i as int]),
        !is_fence(split_char(v@, '\n')[i as int]),
        heading_level_of(split_char(v@, '\n')[i as int]) is None,
        list == !is_quote(split_char(v@, '\n')[i as int]),
        is_quote(split_char(v@, '\n')[i as int]) || starts_list(split_char(v@, '\n')[i as int]),
    ensures
        step_done(split_char(v@, '\n'), i as int, r.0 as int, r.1, r.2@, old(blocks)@, final(blocks)@, order as nat, note_id@),
{
    let (content, e) = run_block(v, lr, i, list);
    proof {
        lemma_seg_run(split_char(v@, '\n'), i as int, list);
    }
    let kind = if list {
        BlockKind::List
    } else {
        BlockKind::Blockquote
    };
    push_block(blocks, note_id, kind, None, &content, order);
    (e, true, Ghost(Some((kind, None, content@))))
}

fn next_para(
    v: &Vec<char>,
    lr: &Vec<(usize, usize)>,
    i: usize,
    note_id: &str,
    blocks: &mut Vec<Block>,
    order: u64,
) -> (r: (usize, bool, Ghost<Option<RawBlock>>))
    requires
        ranges_cut(v@, '\n', lr@),
        i < lr@.len(),
        order < i64::MAX,
        !is_blank(split_char(v@, '\n')[i as int]),
        !is_fence(split_char(v@, '\n')[i as int]),
        heading_level_of(split_char(v@, '\n')[i as int]) is None,
        !is_quote(split_char(v@, '\n')[i as int]),
        !starts_list(split_char(v@, '\n')[i as int]),
    ensures
        step_done(split_char(v@, '\n'), i as int, r.0 as int, r.1, r.2@, old(blocks)@, final(blocks)@, order as nat, note_id@),
{
    let (content, e) = para_block(v, lr, i);
    proof {
        lemma_seg_para(split_char(v@, '\n'), i as int);
    }
    let (ta, tb) = trim_range(&content, 0, content.len());
    proof {
        assert(content@.subrange(0, content@.len() as int) =~= content@);
    }
    if ta < tb {
        let mut trimmed: Vec<char> = Vec::new();
        extend_range(&mut trimmed, &content, ta, tb);
        proof {
            assert(trimmed@ =~= content@.subrange(ta as int, tb as int));
        }
        push_block(blocks, note_id, BlockKind::Paragraph, None, &trimmed, order);
        (e, true, Ghost(Some((BlockKind::Paragraph, None, trimmed@))))
    } else {
        (e, false, Ghost(None))
    }
}

/// One step of the extraction at line `i`: a blank line is skipped, any other
/// line opens a block that takes it and the lines that belong with it.
fn extract_next(
    v: &Vec<char>,
    lr: &Vec<(usize, usize)>,
    i: usize,
    note_id: &str,
    blocks: &mut Vec<Block>,
    order: u64,
) -> (r: (usize, bool, Ghost<Option<RawBlock>>))
    requires
        ranges_cut(v@, '\n', lr@),
        i < lr@.len(),
        lr@.len() <= v@.len() + 1,
        v@.len() < i64::MAX,
        order < i64::MAX,
    ensures
        step_done(split_char(v@, '\n'), i as int, r.0 as int, r.1, r.2@, old(blocks)@, final(blocks)@, order as nat, note_id@),
{
    let ghost ls = split_char(v@, '\n');
    let (a, b) = lr[i];
    assert(ls[i as int] == v@.subrange(a as int, b as int));
    if is_blank_range(v, a, b) {
        proof {
            lemma_seg_blank(ls, i as int);
        }
        let _n = lr.len();
        return (i + 1, false, Ghost(None));
    }
    if fence_line(v, a, b) {
        next_code(v, lr, i, note_id, blocks, order)
    } else if let Some(level) = heading_level_range(v, a, b) {
        next_heading(v, lr, i, note_id, blocks, order, level)
    } else if quote_line(v, a, b) || bullet_line(v, a, b) || numbered_line(v, a, b) {
        let list = !quote_line(v, a, b);
        next_run(v, lr, i, note_id, blocks, order, list)
    } else {
        next_para(v, lr, i, note_id, blocks, order)
    }
}

/// `o` as an optional integer.
pub open spec fn opt_int(o: Option<usize>) -> Option<int> {
    match o {
        Some(j) => Some(j as int),
        None => None,
    }
}

/// The blocks of a note body, and for each of its lines the position of the
/// block that holds it.
#[verifier::rlimit(40)]
pub(crate) fn blocks_and_lines(body: &str, note_id: &str) -> (r: (Vec<Block>, Vec<Option<usize>>))
    requires
        body@.len() < i64::MAX,
    ensures
        r.0@.len() == blocks_of(body@, note_id@).len(),
        forall|j: int| 0 <= j < r.0@.len() ==> (#[trigger] r.0@[j])@ == blocks_of(body@, note_id@)[j],
        forall|j: int| 0 <= j < r.0@.len() ==> well_formed_block(#[trigger] r.0@[j]@),
        r.1@.len() == split_char(body@, '\n').len(),
        forall|t: int|
            0 <= t < r.1@.len() ==> opt_int(#[trigger] r.1@[t]) == line_block_from(
                split_char(body@, '\n'),
                0,
                t,
            ),
        forall|t: int| 0 <= t < r.1@.len() && (#[trigger] r.1@[t]) is Some ==> r.1@[t].unwrap() < r.0@.len(),
{
    let v = chars_of(body);
    let lr = split_ranges(&v, '\n');
    let ghost ls = split_char(v@, '\n');
    proof {
        lemma_split_char_bound(v@, '\n');
    }
    let n = lr.len();
    let mut blocks: Vec<Block> = Vec::new();
    let mut lines: Vec<Option<usize>> = Vec::new();
    let mut order: u64 = 0;
    let mut i: usize = 0;
    let ghost mut done: Seq<RawBlock> = Seq::empty();
    assert forall|t: int| 0 <= t < ls.len() implies line_block_from(ls, 0, t) == shift(
        line_block_from(ls, 0, t),
        0,
    ) by {}
    while i < n
        invariant
            ranges_cut(v@, '\n', lr@),
            ls == split_char(v@, '\n'),
            v@ == body@,
            n == lr@.len(),
            n == ls.len(),
            n <= body@.len() + 1,
            body@.len() < i64::MAX,
            i <= n,
            order <= i,
            segment_from(ls, 0) == done + segment_from(ls, i as int),
            order == done.len(),
            blocks@.len() == done.len(),
            forall|j: int|
                0 <= j < done.len() ==> (#[trigger] blocks@[j])@ == block_of(
                    done[j],
                    j as nat,
                    note_id@,
                ),
            forall|j: int| 0 <= j < blocks@.len() ==> well_formed_block(#[trigger] blocks@[j]@),
            lines@.len() == i,
            forall|t: int| 0 <= t < i ==> opt_int(#[trigger] lines@[t]) == line_block_from(ls, 0, t),
            forall|t: int| 0 <= t < i && (#[trigger] lines@[t]) is Some ==> lines@[t].unwrap() < blocks@.len(),
            forall|t: int|
                i <= t < n ==> #[trigger] line_block_from(ls, 0, t) == shift(
                    line_block_from(ls, i as int, t),
                    done.len() as int,
                ),
        decreases n - i,
    {
        let ghost old_blocks = blocks@;
        let ghost old_done = done;
        let (e, pushed, raw) = extract_next(&v, &lr, i, note_id, &mut blocks, order);
        proof {
            assert(step_done(ls, i as int, e as int, pushed, raw@, old_blocks, blocks@, order as nat, note_id@));
            if let Some(rb) = raw@ {
                done = done.push(rb);
                assert(done + segment_from(ls, e as int) =~= old_done + (seq![rb] + segment_from(
                    ls,
                    e as int,
                )));
            }
            assert forall|j: int| 0 <= j < done.len() implies (#[trigger] blocks@[j])@ == block_of(
                done[j],
                j as nat,
                note_id@,
            ) by {
                if j < old_blocks.len() {
                    assert(blocks@[j] == old_blocks[j]);
                }
            }
            assert forall|j: int| 0 <= j < blocks@.len() implies well_formed_block(#[trigger] blocks@[j]@) by {
                if j < old_blocks.len() {
                    assert(blocks@[j] == old_blocks[j]);
                }
            }
            assert forall|t: int| i <= t < n implies #[trigger] line_block_from(ls, i as int, t)
                == if t < e {
                if pushed {
                    Some(0int)
                } else {
                    None
                }
            } else {
                shift(line_block_from(ls, e as int, t), if pushed { 1int } else { 0int })
            } by {}
            assert forall|t: int| e <= t < n implies #[trigger] line_block_from(ls, 0, t) == shift(
                line_block_from(ls, e as int, t),
                done.len() as int,
            ) by {
                assert(line_block_from(ls, 0, t) == shift(line_block_from(ls, i as int, t), old_done.len() as int));
            }
        }
        let val: Option<usize> = if pushed {
            Some(order as usize)
        } else {
            None
        };
        let ghost lines_before = lines@;
        let mut k: usize = i;
        while k < e
            invariant
                i <= k <= e,
                e <= n,
                lines@.len() == k,
                forall|t: int| 0 <= t < i ==> lines@[t] == lines_before[t],
                forall|t: int| i <= t < k ==> lines@[t] == val,
            decreases e - k,
        {
            lines.push(val);
            k = k + 1;
        }
        proof {
            assert forall|t: int| 0 <= t < e implies opt_int(#[trigger] lines@[t]) == line_block_from(ls, 0, t) by {
                if t < i {
                    assert(lines@[t] == lines_before[t]);
                } else {
                    assert(lines@[t] == val);
                    assert(line_block_from(ls, 0, t) == shift(line_block_from(ls, i as int, t), old_done.len() as int));
                }
            }
            assert forall|t: int| 0 <= t < e && (#[trigger] lines@[t]) is Some implies lines@[t].unwrap() < blocks@.len() by {
                if t < i {
                    assert(lines@[t] == lines_before[t]);
                } else {
                    assert(lines@[t] == val);
                }
            }
        }
        if pushed {
            order = order + 1;
        }
        i = e;
    }
    proof {
        lemma_seg_end(ls, i as int);
        assert(done =~= segment(body@));
    }
    (blocks, lines)
}

/// Cuts a note body into blocks (code, heading, blockquote, list, paragraph),
/// numbered in order, each with a content-derived id.
pub fn extract_blocks(body: &str, note_id: &str) -> (r: Vec<Block>)
    requires
        body@.len() < i64::MAX,
    ensures
        r@.len() == blocks_of(body@, note_id@).len(),
        forall|j: int| 0 <= j < r@.len() ==> (#[trigger] r@[j])@ == blocks_of(body@, note_id@)[j],
        forall|j: int| 0 <= j < r@.len() ==> well_formed_block(#[trigger] r@[j]@),
{
    let (blocks, _lines) = blocks_and_lines(body, note_id);
    blocks
}

/// Block ids are content hashes: they depend on a block's type, content and
/// position in the body, not on the note that holds it, and read `blk_...`.
pub proof fn law_block_ids_ignore_note(body: Seq<char>, n1: Seq<char>, n2: Seq<char>)
    ensures
        blocks_of(body, n1).len() == blocks_of(body, n2).len(),
        forall|j: int|
            0 <= j < blocks_of(body, n1).len() ==> (#[trigger] blocks_of(body, n1)[j]).id
                == blocks_of(body, n2)[j].id,
        forall|j: int|
            0 <= j < blocks_of(body, n1).len() ==> (#[trigger] blocks_of(body, n1)[j]).id.take(4)
                == seq!['b', 'l', 'k', '_'],
{
    assert forall|j: int| 0 <= j < blocks_of(body, n1).len() implies (#[trigger] blocks_of(
        body,
        n1,
    )[j]).id.take(4) == seq!['b', 'l', 'k', '_'] by {
        let raws = segment(body);
        let id = blocks_of(body, n1)[j].id;
        assert(id == block_id_of(kind_name(raws[j].0), raws[j].2, j as nat));
        assert(id.take(4) =~= seq!['b', 'l', 'k', '_']);
    }
}

// ---------------------------------------------------------------------------
// Ids stay put when later text changes
// ---------------------------------------------------------------------------

/// The number of fence lines among `ls[i..j]`.
pub open spec fn fences(ls: Seq<Seq<char>>, i: int, j: int) -> int
    decreases j - i,
{
    if i >= j {
        0
    } else {
        (if is_fence(ls[i]) { 1int } else { 0int }) + fences(ls, i + 1, j)
    }
}

proof fn lemma_fences_add(ls: Seq<Seq<char>>, i: int, j: int, k: int)
    requires
        i <= j <= k,
    ensures
        fences(ls, i, k) == fences(ls, i, j) + fences(ls, j, k),
        fences(ls, i, j) >= 0,
    decreases j - i,
{
    if i < j {
        lemma_fences_add(ls, i + 1, j, k);
    }
}

proof fn lemma_fences_agree(a: Seq<Seq<char>>, b: Seq<Seq<char>>, i: int, j: int)
    requires
        0 <= i,
        j <= a.len(),
        j <= b.len(),
        forall|t: int| i <= t < j ==> a[t] == b[t],
    ensures
        fences(a, i, j) == fences(b, i, j),
    decreases j - i,
{
    if i < j {
        lemma_fences_agree(a, b, i + 1, j);
    }
}

proof fn lemma_blank_not_fence(l: Seq<char>)
    requires
        is_blank(l),
    ensures
        !is_fence(l),
{
    crate::text::lemma_blank_iff_trim_empty(l);
}

/// Splitting `a`, a separator and `b` gives the pieces of `a`, then those of `b`.
pub proof fn lemma_split_join(a: Seq<char>, b: Seq<char>, c: char)
    ensures
        split_char(a + seq![c] + b, c) == split_char(a, c) + split_char(b, c),
    decreases b.len(),
{
    let s = a + seq![c] + b;
    if b.len() == 0 {
        assert(s.drop_last() =~= a);
        assert(split_char(a, c).push(Seq::<char>::empty()) =~= split_char(a, c) + split_char(b, c));
    } else {
        assert(s.drop_last() =~= a + seq![c] + b.drop_last());
        lemma_split_join(a, b.drop_last(), c);
        crate::text::lemma_split_char_len(b.drop_last(), c);
        let pa = split_char(a, c);
        let pb = split_char(b.drop_last(), c);
        if b.last() == c {
            assert((pa + pb).push(Seq::<char>::empty()) =~= pa + pb.push(Seq::<char>::empty()));
        } else {
            let prev = pa + pb;
            assert(prev.update(prev.len() - 1, prev.last().push(b.last())) =~= pa + pb.update(
                pb.len() - 1,
                pb.last().push(b.last()),
            ));
        }
    }
}

/// A code block opened before line `j` ends just past the first fence at or
/// after `j`, or runs to the end when there is none.
proof fn lemma_code_fences(ls: Seq<Seq<char>>, j: int)
    requires
        0 <= j <= ls.len(),
    ensures
        (j < code_end(ls, j) <= ls.len() && is_fence(ls[code_end(ls, j) - 1]) && fences(
            ls,
            j,
            code_end(ls, j) - 1,
        ) == 0) || (code_end(ls, j) == ls.len() && fences(ls, j, ls.len() as int) == 0),
    decreases ls.len() - j,
{
    if j < ls.len() && !is_fence(ls[j]) {
        lemma_code_fences(ls, j + 1);
    }
}

/// Two line sequences that agree up to line `m`, a blank line, take the
/// same steps there.
proof fn lemma_code_agree(a: Seq<Seq<char>>, b: Seq<Seq<char>>, m: int, j: int)
    requires
        0 <= j <= m,
        m < a.len(),
        m < b.len(),
        forall|t: int| 0 <= t <= m ==> a[t] == b[t],
        code_end(a, j) <= m,
    ensures
        code_end(b, j) == code_end(a, j),
    decreases m - j,
{
    lemma_code_end(a, j + 1);
    if !is_fence(a[j]) {
        lemma_code_agree(a, b, m, j + 1);
    }
}

proof fn lemma_run_agree(a: Seq<Seq<char>>, b: Seq<Seq<char>>, m: int, j: int, list: bool)
    requires
        0 <= j <= m,
        m < a.len(),
        m < b.len(),
        forall|t: int| 0 <= t <= m ==> a[t] == b[t],
        is_blank(a[m]),
    ensures
        run_end(b, j, list) == run_end(a, j, list),
        j <= run_end(a, j, list) <= m + 1,
        fences(a, j, if run_end(a, j, list) <= m { run_end(a, j, list) } else { m }) == 0,
    decreases m - j,
{
    if is_blank(a[j]) {
        lemma_blank_not_fence(a[j]);
        assert(fences(a, j + 1, j + 1) == 0);
    } else if (if list { is_list_line(a[j]) } else { is_quote(a[j]) }) {
        lemma_run_agree(a, b, m, j + 1, list);
        assert(!is_fence(a[j]));
    }
}

proof fn lemma_para_agree(a: Seq<Seq<char>>, b: Seq<Seq<char>>, m: int, j: int)
    requires
        0 <= j <= m,
        m < a.len(),
        m < b.len(),
        forall|t: int| 0 <= t <= m ==> a[t] == b[t],
        is_blank(a[m]),
    ensures
        para_end(b, j) == para_end(a, j),
        j <= para_end(a, j) <= m,
        fences(a, j, para_end(a, j)) == 0,
    decreases m - j,
{
    if is_para_line(a[j]) {
        lemma_para_agree(a, b, m, j + 1);
    }
}

/// Up to the blank line `m`, and when the fences before it pair up, the
/// blocks of `a` and `b` from line `i` are the same blocks `r.0`, after
/// which the blocks go on from line `r.1`, which is `m` or `m + 1`.
proof fn lemma_prefix_blocks(a: Seq<Seq<char>>, b: Seq<Seq<char>>, m: int, i: int) -> (r: (
    Seq<RawBlock>,
    int,
))
    requires
        0 <= i <= m,
        m < a.len(),
        m < b.len(),
        forall|t: int| 0 <= t <= m ==> a[t] == b[t],
        is_blank(a[m]),
        fences(a, i, m) % 2 == 0,
    ensures
        r.1 == m || r.1 == m + 1,
        segment_from(a, i) == r.0 + segment_from(a, r.1),
        segment_from(b, i) == r.0 + segment_from(b, r.1),
    decreases m - i,
{
    if i == m {
        assert(segment_from(a, i) =~= Seq::<RawBlock>::empty() + segment_from(a, i));
        assert(segment_from(b, i) =~= Seq::<RawBlock>::empty() + segment_from(b, i));
        return (Seq::empty(), m);
    }
    let l = a[i];
    assert(b[i] == l);
    if is_blank(l) {
        lemma_seg_blank(a, i);
        lemma_seg_blank(b, i);
        lemma_blank_not_fence(l);
        return lemma_prefix_blocks(a, b, m, i + 1);
    }
    if is_fence(l) {
        lemma_code_fences(a, i + 1);
        lemma_fences_add(a, i + 1, m, a.len() as int);
        let e = code_end(a, i + 1);
        assert(fences(a, i, m) == 1 + fences(a, i + 1, m));
        lemma_fences_add(a, m, a.len() as int, a.len() as int);
        if e == a.len() && fences(a, i + 1, a.len() as int) == 0 {
            assert(false);
        }
        if e - 1 >= m {
            lemma_blank_not_fence(a[m]);
            lemma_fences_add(a, i + 1, m, e - 1);
            lemma_fences_add(a, m, e - 1, e - 1);
            assert(false);
        }
        lemma_code_agree(a, b, m, i + 1);
        lemma_seg_code(a, i, e);
        lemma_seg_code(b, i, e);
        lemma_fences_add(a, i + 1, e - 1, e);
        lemma_fences_add(a, i, e, m);
        assert(fences(a, e - 1, e) == 1) by {
            assert(fences(a, e, e) == 0);
        }
        assert(a.subrange(i, e) =~= b.subrange(i, e));
        let rb = (BlockKind::Code, None::<u8>, join_nl(a.subrange(i, e)));
        let (d, p) = lemma_prefix_blocks(a, b, m, e);
        assert(seq![rb] + (d + segment_from(a, p)) =~= (seq![rb] + d) + segment_from(a, p));
        assert(seq![rb] + (d + segment_from(b, p)) =~= (seq![rb] + d) + segment_from(b, p));
        return (seq![rb] + d, p);
    }
    if heading_level_of(l) is Some {
        lemma_seg_heading(a, i);
        lemma_seg_heading(b, i);
        let rb = (BlockKind::Heading, heading_level_of(l), trim(strip_hashes(l)));
        let (d, p) = lemma_prefix_blocks(a, b, m, i + 1);
        assert(seq![rb] + (d + segment_from(a, p)) =~= (seq![rb] + d) + segment_from(a, p));
        assert(seq![rb] + (d + segment_from(b, p)) =~= (seq![rb] + d) + segment_from(b, p));
        return (seq![rb] + d, p);
    }
    if is_quote(l) || starts_list(l) {
        let list = !is_quote(l);
        lemma_seg_run(a, i, list);
        lemma_seg_run(b, i, list);
        lemma_run_agree(a, b, m, i, list);
        let e = run_end(a, i, list);
        assert(a.subrange(i, e) =~= b.subrange(i, e));
        let rb = (if list {
            BlockKind::List
        } else {
            BlockKind::Blockquote
        }, None::<u8>, join_nl(a.subrange(i, e)));
        if e == m + 1 {
            return (seq![rb], m + 1);
        }
        lemma_fences_add(a, i, e, m);
        let (d, p) = lemma_prefix_blocks(a, b, m, e);
        assert(seq![rb] + (d + segment_from(a, p)) =~= (seq![rb] + d) + segment_from(a, p));
        assert(seq![rb] + (d + segment_from(b, p)) =~= (seq![rb] + d) + segment_from(b, p));
        return (seq![rb] + d, p);
    }
    lemma_seg_para(a, i);
    lemma_seg_para(b, i);
    lemma_para_agree(a, b, m, i);
    let e = para_end(a, i);
    lemma_fences_add(a, i, e, m);
    assert(a.subrange(i, e) =~= b.subrange(i, e));
    let c = trim(join_nl(a.subrange(i, e)));
    let (d, p) = lemma_prefix_blocks(a, b, m, e);
    if c.len() > 0 {
        let rb = (BlockKind::Paragraph, None::<u8>, c);
        assert(seq![rb] + (d + segment_from(a, p)) =~= (seq![rb] + d) + segment_from(a, p));
        assert(seq![rb] + (d + segment_from(b, p)) =~= (seq![rb] + d) + segment_from(b, p));
        (seq![rb] + d, p)
    } else {
        (d, p)
    }
}

/// Block ids are stable under edits further down: when the fence lines of
/// `p` pair up, the blocks of `p` followed by a blank line come first, with
/// the same ids and contents, in `p`, a blank line and any text `q1` or `q2`,
/// whatever the notes.
pub proof fn law_block_ids_survive_later_edits(
    p: Seq<char>,
    q1: Seq<char>,
    q2: Seq<char>,
    n0: Seq<char>,
    n1: Seq<char>,
    n2: Seq<char>,
)
    requires
        fences(split_char(p, '\n'), 0, split_char(p, '\n').len() as int) % 2 == 0,
    ensures
        ({
            let head = blocks_of(p + "\n\n"@, n0);
            let b1 = blocks_of(p + "\n\n"@ + q1, n1);
            let b2 = blocks_of(p + "\n\n"@ + q2, n2);
            &&& head.len() <= b1.len()
            &&& head.len() <= b2.len()
            &&& forall|j: int|
                0 <= j < head.len() ==> same_block_but_note(#[trigger] head[j], b1[j])
                    && same_block_but_note(head[j], b2[j])
        }),
{
    let lp = split_char(p, '\n');
    let m = lp.len() as int;
    reveal_strlit("\n\n");
    let e0: Seq<char> = Seq::empty();
    let a = split_char(p + "\n\n"@, '\n');
    assert(p + "\n\n"@ =~= p + seq!['\n'] + seq!['\n']);
    lemma_split_join(p, seq!['\n'], '\n');
    assert(seq!['\n'] =~= e0 + seq!['\n'] + e0);
    lemma_split_join(e0, e0, '\n');
    assert(a =~= lp + seq![e0, e0]);
    lemma_head_blocks(p, q1, n0, n1, a, lp, m);
    lemma_head_blocks(p, q2, n0, n2, a, lp, m);
}

/// Two blocks alike in all but the note they belong to.
pub open spec fn same_block_but_note(x: BlockView, y: BlockView) -> bool {
    &&& x.id == y.id
    &&& x.block_type == y.block_type
    &&& x.level == y.level
    &&& x.content == y.content
    &&& x.content_hash == y.content_hash
    &&& x.order_index == y.order_index
}

proof fn lemma_head_blocks(
    p: Seq<char>,
    q: Seq<char>,
    n0: Seq<char>,
    n1: Seq<char>,
    a: Seq<Seq<char>>,
    lp: Seq<Seq<char>>,
    m: int,
)
    requires
        lp == split_char(p, '\n'),
        m == lp.len(),
        a == lp + seq![Seq::<char>::empty(), Seq::<char>::empty()],
        a == split_char(p + "\n\n"@, '\n'),
        fences(lp, 0, m) % 2 == 0,
    ensures
        ({
            let head = blocks_of(p + "\n\n"@, n0);
            let b1 = blocks_of(p + "\n\n"@ + q, n1);
            &&& head.len() <= b1.len()
            &&& forall|j: int| 0 <= j < head.len() ==> same_block_but_note(#[trigger] head[j], b1[j])
        }),
{
    reveal_strlit("\n\n");
    let e0: Seq<char> = Seq::empty();
    let b = split_char(p + "\n\n"@ + q, '\n');
    assert(p + "\n\n"@ + q =~= p + seq!['\n'] + (seq!['\n'] + q));
    lemma_split_join(p, seq!['\n'] + q, '\n');
    assert(seq!['\n'] + q =~= e0 + seq!['\n'] + q);
    lemma_split_join(e0, q, '\n');
    assert(b =~= lp + (seq![e0] + split_char(q, '\n')));
    assert(forall|t: int| 0 <= t <= m ==> a[t] == b[t]);
    assert(is_blank(a[m]));
    lemma_fences_agree(lp, a, 0, m);
    let (d, r1) = lemma_prefix_blocks(a, b, m, 0);
    assert(segment_from(a, r1) =~= Seq::<RawBlock>::empty()) by {
        if r1 == m {
            lemma_seg_blank(a, m);
            lemma_seg_blank(a, m + 1);
            lemma_seg_end(a, m + 2);
        } else {
            lemma_seg_blank(a, m + 1);
            lemma_seg_end(a, m + 2);
        }
    }
    let sa = segment(p + "\n\n"@);
    let sb = segment(p + "\n\n"@ + q);
    assert(sa =~= d);
    assert(sb == d + segment_from(b, r1));
    assert forall|j: int| 0 <= j < sa.len() implies same_block_but_note(
        #[trigger] blocks_of(p + "\n\n"@, n0)[j],
        blocks_of(p + "\n\n"@ + q, n1)[j],
    ) by {
        assert(sb[j] == sa[j]);
    }
}

proof fn lemma_join_nl_head(ls: Seq<Seq<char>>)
    requires
        ls.len() >= 1,
    ensures
        join_nl(ls).len() > ls[0].len(),
        forall|k: int| 0 <= k < ls[0].len() ==> #[trigger] join_nl(ls)[k] == ls[0][k],
    decreases ls.len(),
{
    let prev = join_nl(ls.drop_last());
    if ls.len() > 1 {
        lemma_join_nl_head(ls.drop_last());
        assert(ls.drop_last()[0] == ls[0]);
        assert forall|k: int| 0 <= k < ls[0].len() implies #[trigger] join_nl(ls)[k] == ls[0][k] by {
            assert(join_nl(ls) == prev + ls.last() + seq!['\n']);
            assert(join_nl(ls)[k] == prev[k]);
        }
    } else {
        assert(ls.drop_last() =~= Seq::<Seq<char>>::empty());
        assert(prev.len() == 0);
        assert forall|k: int| 0 <= k < ls[0].len() implies #[trigger] join_nl(ls)[k] == ls[0][k] by {
            assert(join_nl(ls) == prev + ls.last() + seq!['\n']);
        }
    }
}

/// Every line that is not blank lies in a block: the position found for it
/// names one of the blocks of the lines from `i`.
pub proof fn lemma_line_in_block(ls: Seq<Seq<char>>, i: int, t: int)
    requires
        0 <= i <= t < ls.len(),
        !is_blank(ls[t]),
    ensures
        line_block_from(ls, i, t) matches Some(j) && 0 <= j < segment_from(ls, i).len(),
    decreases ls.len() - i,
{
    let l = ls[i];
    if is_blank(l) {
        lemma_seg_blank(ls, i);
        lemma_line_in_block(ls, i + 1, t);
    } else if is_fence(l) {
        lemma_seg_code(ls, i, code_end(ls, i + 1));
        let e = code_end(ls, i + 1);
        if t >= e {
            lemma_line_in_block(ls, e, t);
        }
    } else if heading_level_of(l) is Some {
        lemma_seg_heading(ls, i);
        if t >= i + 1 {
            lemma_line_in_block(ls, i + 1, t);
        }
    } else if is_quote(l) || starts_list(l) {
        let list = !is_quote(l);
        lemma_seg_run(ls, i, list);
        let e = run_end(ls, i, list);
        if t >= e {
            lemma_line_in_block(ls, e, t);
        }
    } else {
        lemma_seg_para(ls, i);
        let e = para_end(ls, i);
        let part = ls.subrange(i, e);
        lemma_join_nl_head(part);
        assert(part[0] == l);
        let k = choose|k: int| 0 <= k < l.len() && !crate::text::is_ws(#[trigger] l[k]);
        assert(join_nl(part)[k] == l[k]);
        assert(!is_blank(join_nl(part)));
        crate::text::lemma_blank_iff_trim_empty(join_nl(part));
        if t >= e {
            lemma_line_in_block(ls, e, t);
        }
    }
}

proof fn lemma_run_lines(ls: Seq<Seq<char>>, j: int, list: bool, t: int)
    requires
        0 <= j <= t < run_end(ls, j, list),
        run_end(ls, j, list) <= ls.len(),
    ensures
        is_blank(ls[t]) || (if list { is_list_line(ls[t]) } else { is_quote(ls[t]) }),
    decreases ls.len() - j,
{
    if t > j {
        lemma_run_lines(ls, j + 1, list, t);
    }
}

proof fn lemma_para_lines(ls: Seq<Seq<char>>, j: int, t: int)
    requires
        0 <= j <= t < para_end(ls, j),
        para_end(ls, j) <= ls.len(),
    ensures
        is_para_line(ls[t]),
    decreases ls.len() - j,
{
    if t > j {
        lemma_para_lines(ls, j + 1, t);
    }
}

proof fn lemma_quote_line_block(ls: Seq<Seq<char>>, i: int, t: int)
    requires
        0 <= i <= t < ls.len(),
        is_quote(ls[t]),
    ensures
        line_block_from(ls, i, t) matches Some(j) && 0 <= j < segment_from(ls, i).len() && (
        segment_from(ls, i)[j].0 == BlockKind::Blockquote || segment_from(ls, i)[j].0
            == BlockKind::Code),
    decreases ls.len() - i,
{
    let q = ls[t];
    assert(!is_blank(q)) by {
        crate::text::lemma_blank_iff_trim_empty(q);
    }
    assert(heading_level_of(q) is None);
    let l = ls[i];
    if is_blank(l) {
        lemma_seg_blank(ls, i);
        lemma_quote_line_block(ls, i + 1, t);
    } else if is_fence(l) {
        let e = code_end(ls, i + 1);
        lemma_seg_code(ls, i, e);
        if t >= e {
            lemma_quote_line_block(ls, e, t);
        }
    } else if heading_level_of(l) is Some {
        lemma_seg_heading(ls, i);
        lemma_quote_line_block(ls, i + 1, t);
    } else if is_quote(l) || starts_list(l) {
        let list = !is_quote(l);
        lemma_seg_run(ls, i, list);
        let e = run_end(ls, i, list);
        if t >= e {
            lemma_quote_line_block(ls, e, t);
        } else if list {
            lemma_run_lines(ls, i, list, t);
        }
    } else {
        lemma_seg_para(ls, i);
        let e = para_end(ls, i);
        if t >= e {
            lemma_quote_line_block(ls, e, t);
        } else {
            lemma_para_lines(ls, i, t);
        }
    }
}

/// A quote line never ends up in a paragraph, a heading or a list: every line
/// that starts with `>` (after leading whitespace) lies in a blockquote block,
/// or in a fenced code block.
pub proof fn law_quote_lines_are_quotes(body: Seq<char>, t: int)
    requires
        0 <= t < split_char(body, '\n').len(),
        is_quote(split_char(body, '\n')[t]),
    ensures
        line_block_from(split_char(body, '\n'), 0, t) matches Some(j) && 0 <= j < segment(body).len()
            && (segment(body)[j].0 == BlockKind::Blockquote || segment(body)[j].0 == BlockKind::Code),
{
    lemma_quote_line_block(split_char(body, '\n'), 0, t);
}

} // verus!
