//! Assistant support: request shapes, the cancellation registry, the calls
//! made to an Ollama or OpenAI-compatible endpoint, and reading replies.

use vstd::prelude::*;
use crate::links::opt_view;
use crate::vault::VaultError;
use crate::text::{
    chars_of, concat, ends_with, extend_range, extend_str, find_char, find_char_in, push_dec,
    rfind_char, rfind_char_exec, starts_with, str_eq, string_of, string_of_range, strip_suffix_all,
    strip_suffix_all_exec, trim, trim_end, trim_range, dec,
};

verus! {

// ---------------------------------------------------------------------------
// Request and reply shapes
// ---------------------------------------------------------------------------

/// One message of a chat: `role` is `system`, `user` or `assistant`.
#[derive(Clone, Debug)]
pub struct ChatMessage {
    pub role: String,
    pub content: String,
}

/// Where to list the models of a provider.
#[derive(Clone, Debug)]
pub struct ListModelsRequest {
    pub provider: String,
    pub base_url: String,
    pub api_key: String,
}

/// A request to draft flashcards from one note.
#[derive(Clone, Debug)]
pub struct GenerateCardsRequest {
    pub provider: String,
    pub model: String,
    pub base_url: String,
    pub api_key: String,
    pub note_path: String,
    pub count: u8,
    pub language: String,
}

/// A drafted flashcard: `card_type` is `basic`, `reverse` or `cloze`.
#[derive(Clone, Debug)]
pub struct GeneratedCard {
    pub question: String,
    pub answer: String,
    pub card_type: String,
    pub source: String,
}

/// Drafted cards and the reply they were read from.
#[derive(Clone, Debug)]
pub struct GenerateCardsResult {
    pub cards: Vec<GeneratedCard>,
    pub raw: String,
}

// ---------------------------------------------------------------------------
// Cancellation
// ---------------------------------------------------------------------------

/// The requests whose cancellation was asked for.
pub struct AiCancelRegistry {
    cancelled: Vec<String>,
}

impl View for AiCancelRegistry {
    type V = Set<Seq<char>>;

    closed spec fn view(&self) -> Set<Seq<char>> {
        Set::new(|k: Seq<char>| has_key(self.cancelled@, self.cancelled@.len() as int, k))
    }
}

impl AiCancelRegistry {
    /// An empty registry.
    pub fn new() -> (r: AiCancelRegistry)
        ensures
            r@ == Set::<Seq<char>>::empty(),
    {
        let r = AiCancelRegistry { cancelled: Vec::new() };
        assert(r@ =~= Set::<Seq<char>>::empty());
        r
    }

    fn position(&self, id: &String) -> (r: Option<usize>)
        ensures
            match r {
                Some(i) => i < self.cancelled@.len() && self.cancelled@[i as int]@ == id@,
                None => forall|i: int| 0 <= i < self.cancelled@.len() ==> #[trigger] self.cancelled@[i]@ != id@,
            },
    {
        let mut i: usize = 0;
        while i < self.cancelled.len()
            invariant
                i <= self.cancelled@.len(),
                forall|j: int| 0 <= j < i ==> #[trigger] self.cancelled@[j]@ != id@,
            decreases self.cancelled@.len() - i,
        {
            if self.cancelled[i] == *id {
                return Some(i);
            }
            i = i + 1;
        }
        None
    }

    /// Marks request `id` as cancelled.
    pub fn cancel(&mut self, id: &str)
        ensures
            final(self)@ == old(self)@.insert(id@),
    {
        let key = id.to_owned();
        match self.position(&key) {
            Some(_) => {
                assert(self@ =~= old(self)@.insert(id@));
            },
            None => {
                self.cancelled.push(key);
                assert forall|k: Seq<char>| #[trigger] self@.contains(k) == old(self)@.insert(id@).contains(k) by {
                    if k == id@ {
                        assert(self.cancelled@[self.cancelled@.len() - 1]@ == k);
                    }
                    if old(self)@.contains(k) {
                        let i = choose|i: int| 0 <= i < old(self).cancelled@.len() && #[trigger] old(self).cancelled@[i]@ == k;
                        assert(self.cancelled@[i]@ == k);
                    }
                    if self@.contains(k) {
                        let i = choose|i: int| 0 <= i < self.cancelled@.len() && #[trigger] self.cancelled@[i]@ == k;
                        if i < old(self).cancelled@.len() {
                            assert(old(self).cancelled@[i]@ == k);
                        }
                    }
                }
                assert(self@ =~= old(self)@.insert(id@));
            },
        }
    }

    /// Whether a cancellation of request `id` was asked for.
    pub fn is_cancelled(&self, id: &str) -> (r: bool)
        ensures
            r == self@.contains(id@),
    {
        let key = id.to_owned();
        match self.position(&key) {
            Some(_) => true,
            None => false,
        }
    }

    /// Forgets request `id`.
    pub fn clear(&mut self, id: &str)
        ensures
            final(self)@ == old(self)@.remove(id@),
    {
        let key = id.to_owned();
        let mut kept: Vec<String> = Vec::new();
        let mut i: usize = 0;
        while i < self.cancelled.len()
            invariant
                i <= self.cancelled@.len(),
                self.cancelled@ == old(self).cancelled@,
                key@ == id@,
                forall|k: Seq<char>|
                    #[trigger] has_key(kept@, kept@.len() as int, k) <==> (k != id@ && has_key(
                        self.cancelled@,
                        i as int,
                        k,
                    )),
            decreases self.cancelled@.len() - i,
        {
            let ghost before = kept@;
            if !(self.cancelled[i] == key) {
                let s = self.cancelled[i].clone();
                kept.push(s);
                assert forall|k: Seq<char>|
                    #[trigger] has_key(kept@, kept@.len() as int, k) <==> (k != id@ && has_key(
                        self.cancelled@,
                        i + 1,
                        k,
                    )) by {
                    if has_key(kept@, kept@.len() as int, k) {
                        let j = choose|j: int| 0 <= j < kept@.len() && #[trigger] kept@[j]@ == k;
                        if j < kept@.len() - 1 {
                            assert(before[j]@ == k);
                            assert(has_key(before, before.len() as int, k));
                            let j2 = choose|j2: int| 0 <= j2 < i && #[trigger] self.cancelled@[j2]@ == k;
                            assert(self.cancelled@[j2]@ == k);
                        } else {
                            assert(self.cancelled@[i as int]@ == k);
                        }
                    }
                    if k != id@ && has_key(self.cancelled@, i + 1, k) {
                        let j = choose|j: int| 0 <= j < i + 1 && #[trigger] self.cancelled@[j]@ == k;
                        if j < i {
                            assert(has_key(self.cancelled@, i as int, k));
                            assert(has_key(before, before.len() as int, k));
                            let j2 = choose|j2: int| 0 <= j2 < before.len() && #[trigger] before[j2]@ == k;
                            assert(kept@[j2]@ == k);
                        } else {
                            assert(kept@[kept@.len() - 1]@ == k);
                        }
                    }
                }
            } else {
                assert forall|k: Seq<char>|
                    #[trigger] has_key(kept@, kept@.len() as int, k) <==> (k != id@ && has_key(
                        self.cancelled@,
                        i + 1,
                        k,
                    )) by {
                    if k != id@ && has_key(self.cancelled@, i + 1, k) {
                        let j = choose|j: int| 0 <= j < i + 1 && #[trigger] self.cancelled@[j]@ == k;
                        assert(j < i);
                        assert(has_key(self.cancelled@, i as int, k));
                    }
                    if has_key(kept@, kept@.len() as int, k) {
                        let j2 = choose|j2: int| 0 <= j2 < i && #[trigger] self.cancelled@[j2]@ == k;
                        assert(self.cancelled@[j2]@ == k);
                    }
                }
            }
            i = i + 1;
        }
        self.cancelled = kept;
        assert forall|k: Seq<char>| #[trigger] self@.contains(k) == old(self)@.remove(id@).contains(k) by {
            assert(self@.contains(k) == has_key(self.cancelled@, self.cancelled@.len() as int, k));
            assert(old(self)@.contains(k) == has_key(old(self).cancelled@, old(self).cancelled@.len() as int, k));
        }
        assert(self@ =~= old(self)@.remove(id@));
    }
}

/// Some `v[j]` with `j < n` reads `k`.
pub open spec fn has_key(v: Seq<String>, n: int, k: Seq<char>) -> bool {
    exists|j: int| 0 <= j < n && #[trigger] v[j]@ == k
}

/// The registry the app starts with: nothing is cancelled.
pub fn build_ai_state() -> (r: AiCancelRegistry)
    ensures
        r@ == Set::<Seq<char>>::empty(),
{
    AiCancelRegistry::new()
}

impl Default for AiCancelRegistry {
    fn default() -> (r: AiCancelRegistry)
        ensures
            r@ == Set::<Seq<char>>::empty(),
    {
        AiCancelRegistry::new()
    }
}

/// A cancellation is seen by the request it names and by no other; clearing
/// a request forgets it and leaves the others as they were.
pub proof fn law_cancel_then_read(before: Set<Seq<char>>, id: Seq<char>, other: Seq<char>)
    requires
        other != id,
    ensures
        before.insert(id).contains(id),
        before.insert(id).contains(other) == before.contains(other),
        !before.remove(id).contains(id),
        before.remove(id).contains(other) == before.contains(other),
        before.insert(id).remove(id) == before.remove(id),
{
    assert(before.insert(id).remove(id) =~= before.remove(id));
}


// ---------------------------------------------------------------------------
// Reading drafted cards from a reply
// ---------------------------------------------------------------------------

/// A reply with a surrounding code fence removed, then narrowed to the text
/// from its first `[` to its last `]` when there are both, in that order.
pub open spec fn unfenced(s: Seq<char>) -> Seq<char> {
    let t = trim(s);
    let stripped = if starts_with(t, seq!['`', '`', '`']) {
        let after = match find_char(t, '\n') {
            Some(i) => t.skip(i + 1),
            None => Seq::empty(),
        };
        trim_end(strip_suffix_all(after, seq!['`', '`', '`']))
    } else {
        t
    };
    match (find_char(stripped, '['), rfind_char(stripped, ']')) {
        (Some(a), Some(b)) => if b > a {
            stripped.subrange(a, b + 1)
        } else {
            stripped
        },
        _ => stripped,
    }
}

/// The JSON text in a reply: without a code fence around it, from its first
/// `[` to its last `]`.
pub fn strip_code_fence(s: &str) -> (r: String)
    ensures
        r@ == unfenced(s@),
{
    let v = chars_of(s);
    let n = v.len();
    let (a, b) = trim_range(&v, 0, n);
    assert(v@.subrange(0, n as int) =~= v@);
    let ghost t = v@.subrange(a as int, b as int);
    let mut w: Vec<char> = Vec::new();
    if b - a >= 3 && v[a] == '`' && v[a + 1] == '`' && v[a + 2] == '`' {
        assert(t.take(3) =~= seq!['`', '`', '`']);
        let nl = find_char_in(&v, a, b, '\n');
        let start = if nl < b {
            nl + 1
        } else {
            b
        };
        assert(v@.subrange(start as int, b as int) =~= match find_char(t, '\n') {
            Some(i) => t.skip(i + 1),
            None => Seq::<char>::empty(),
        });
        let fence = chars_of("```");
        proof {
            reveal_strlit("```");
        }
        assert(fence@ =~= seq!['`', '`', '`']);
        let e = strip_suffix_all_exec(&v, start, b, &fence);
        let e3 = crate::text::back_ws(&v, start, e);
        extend_range(&mut w, &v, start, e3);
    } else {
        proof {
            if starts_with(t, seq!['`', '`', '`']) {
                assert(t.take(3)[0] == '`' && t.take(3)[1] == '`' && t.take(3)[2] == '`');
            }
        }
        extend_range(&mut w, &v, a, b);
    }
    let m = w.len();
    let open = find_char_in(&w, 0, m, '[');
    assert(w@.subrange(0, m as int) =~= w@);
    if open < m {
        match rfind_char_exec(&w, 0, m, ']') {
            Some(close) => {
                if close > open {
                    return string_of_range(&w, open, close + 1);
                }
            },
            None => {},
        }
    }
    string_of(&w)
}

/// The fields of one item of a drafted-cards reply: `question` and `answer`
/// where they are strings; `cardType` as present (and a string, or not);
/// `card_type` where it is a string.
#[derive(Clone, Debug)]
pub struct ReplyItem {
    pub question: Option<String>,
    pub answer: Option<String>,
    pub card_type: Option<Option<String>>,
    pub card_type_alt: Option<String>,
}

pub struct ReplyItemView {
    pub question: Option<Seq<char>>,
    pub answer: Option<Seq<char>>,
    pub card_type: Option<Option<Seq<char>>>,
    pub card_type_alt: Option<Seq<char>>,
}

impl View for ReplyItem {
    type V = ReplyItemView;

    open spec fn view(&self) -> ReplyItemView {
        ReplyItemView {
            question: opt_view(self.question),
            answer: opt_view(self.answer),
            card_type: match self.card_type {
                Some(t) => Some(opt_view(t)),
                None => None,
            },
            card_type_alt: opt_view(self.card_type_alt),
        }
    }
}

pub open spec fn reply_items_view(r: Result<Vec<ReplyItem>, String>) -> Result<
    Seq<ReplyItemView>,
    Seq<char>,
> {
    match r {
        Ok(items) => Ok(items@.map_values(|i: ReplyItem| i@)),
        Err(e) => Err(e@),
    }
}

/// What `serde_json` reads from `text` as an array of JSON values: the card
/// fields of each item, or the parse error's message.
pub uninterp spec fn json_card_items(text: Seq<char>) -> Result<Seq<ReplyItemView>, Seq<char>>;

/// `serde_json::from_str::<Vec<serde_json::Value>>`, with the card fields of
/// each item read by `get` and `as_str`; an error becomes its message.
/// Trusted: the result is named by `json_card_items`, not computed here.
#[verifier::external_body]
fn parse_card_items(text: &str) -> (r: Result<Vec<ReplyItem>, String>)
    ensures
        reply_items_view(r) == json_card_items(text@),
{
    match serde_json::from_str::<Vec<serde_json::Value>>(text) {
        Ok(arr) => Ok(arr.iter().map(|it| ReplyItem {
            question: it.get("question").and_then(|v| v.as_str()).map(|t| t.to_string()),
            answer: it.get("answer").and_then(|v| v.as_str()).map(|t| t.to_string()),
            card_type: it.get("cardType").map(|v| v.as_str().map(|t| t.to_string())),
            card_type_alt: it.get("card_type").and_then(|v| v.as_str()).map(|t| t.to_string()),
        }).collect()),
        Err(e) => Err(e.to_string()),
    }
}


/// A drafted card as values: question, answer, type and source.
pub open spec fn drafted_view(c: GeneratedCard) -> (Seq<char>, Seq<char>, Seq<char>, Seq<char>) {
    (c.question@, c.answer@, c.card_type@, c.source@)
}

pub open spec fn drafted_views(cs: Seq<GeneratedCard>) -> Seq<(Seq<char>, Seq<char>, Seq<char>, Seq<char>)> {
    cs.map_values(|c: GeneratedCard| drafted_view(c))
}

pub open spec fn text_or(o: Option<Seq<char>>, d: Seq<char>) -> Seq<char> {
    match o {
        Some(t) => t,
        None => d,
    }
}

/// The type of a drafted card: `cardType` when that key is present (as
/// `basic` when it is not a string), else `card_type`, else `basic`; a type
/// other than `basic`, `reverse` or `cloze` counts as `basic`.
pub open spec fn item_type(it: ReplyItemView) -> Seq<char> {
    let t = match it.card_type {
        Some(x) => text_or(x, "basic"@),
        None => text_or(it.card_type_alt, "basic"@),
    };
    if t == "basic"@ || t == "reverse"@ || t == "cloze"@ {
        t
    } else {
        "basic"@
    }
}

/// The drafted cards of the reply items that have a question and an answer.
pub open spec fn drafted_cards(items: Seq<ReplyItemView>) -> Seq<
    (Seq<char>, Seq<char>, Seq<char>, Seq<char>),
>
    decreases items.len(),
{
    if items.len() == 0 {
        Seq::empty()
    } else {
        let rest = drafted_cards(items.drop_last());
        let it = items.last();
        let q = text_or(it.question, Seq::empty());
        let a = text_or(it.answer, Seq::empty());
        if q.len() == 0 || a.len() == 0 {
            rest
        } else {
            rest.push((q, a, item_type(it), Seq::empty()))
        }
    }
}

/// What becomes of a reply `content` whose JSON text parsed as `parsed`:
/// the drafted cards and the reply, or the message of the failure.
pub open spec fn reply_outcome(
    content: Seq<char>,
    parsed: Result<Seq<ReplyItemView>, Seq<char>>,
) -> Result<Seq<(Seq<char>, Seq<char>, Seq<char>, Seq<char>)>, Seq<char>> {
    match parsed {
        Err(e) => Err(
            "LLM 返回的不是合法 JSON: "@ + e + "\n---\n"@ + crate::text::byte_prefix(content, 800),
        ),
        Ok(items) => if drafted_cards(items).len() == 0 {
            Err("LLM 没返回任何卡片"@)
        } else {
            Ok(drafted_cards(items))
        },
    }
}

/// The result a reply comes to, as a spec of the library's result type.
pub open spec fn generate_result_is(
    r: Result<GenerateCardsResult, VaultError>,
    content: Seq<char>,
    outcome: Result<Seq<(Seq<char>, Seq<char>, Seq<char>, Seq<char>)>, Seq<char>>,
) -> bool {
    match outcome {
        Ok(cards) => r matches Ok(g) && drafted_views(g.cards@) == cards && g.raw@ == content,
        Err(m) => r matches Err(VaultError::Other(x)) && x@ == m,
    }
}

fn item_type_of(it: &ReplyItem) -> (r: String)
    ensures
        r@ == item_type(it@),
{
    let t: String = match &it.card_type {
        Some(x) => match x {
            Some(y) => y.clone(),
            None => "basic".to_owned(),
        },
        None => match &it.card_type_alt {
            Some(y) => y.clone(),
            None => "basic".to_owned(),
        },
    };
    let tv = t.as_str();
    if str_eq(tv, "basic") || str_eq(tv, "reverse") || str_eq(tv, "cloze") {
        t
    } else {
        "basic".to_owned()
    }
}

/// The drafted cards of parsed reply items.
pub fn drafted_from_items(items: &Vec<ReplyItem>) -> (r: Vec<GeneratedCard>)
    ensures
        drafted_views(r@) == drafted_cards(items@.map_values(|i: ReplyItem| i@)),
{
    let ghost iv = items@.map_values(|i: ReplyItem| i@);
    let mut out: Vec<GeneratedCard> = Vec::new();
    let mut k: usize = 0;
    while k < items.len()
        invariant
            k <= items.len(),
            iv == items@.map_values(|i: ReplyItem| i@),
            drafted_views(out@) == drafted_cards(iv.take(k as int)),
        decreases items.len() - k,
    {
        let it = &items[k];
        assert(iv.take(k + 1).drop_last() =~= iv.take(k as int));
        assert(iv.take(k + 1).last() == it@);
        let q: String = match &it.question {
            Some(x) => x.clone(),
            None => String::new(),
        };
        let a: String = match &it.answer {
            Some(x) => x.clone(),
            None => String::new(),
        };
        if !q.as_str().is_empty() && !a.as_str().is_empty() {
            let t = item_type_of(it);
            let c = GeneratedCard { question: q, answer: a, card_type: t, source: String::new() };
            let ghost before = drafted_views(out@);
            out.push(c);
            assert(drafted_views(out@) =~= before.push(drafted_view(c)));
        }
        k = k + 1;
    }
    assert(iv.take(items.len() as int) =~= iv);
    out
}

/// The result of a card-drafting reply `content`, given what its JSON text
/// parsed as.
pub fn cards_from_items(content: &str, parsed: Result<Vec<ReplyItem>, String>) -> (r: Result<
    GenerateCardsResult,
    VaultError,
>)
    requires
        parsed is Err ==> crate::text::blen(content@) <= 800 || crate::text::is_boundary(content@, 800),
    ensures
        generate_result_is(r, content@, reply_outcome(content@, reply_items_view(parsed))),
{
    match parsed {
        Err(e) => {
            let mut m: Vec<char> = Vec::new();
            extend_str(&mut m, "LLM 返回的不是合法 JSON: ");
            extend_str(&mut m, e.as_str());
            extend_str(&mut m, "\n---\n");
            let head = crate::text::prefix_bytes(content, 800);
            extend_str(&mut m, head.as_str());
            assert(m@ =~= "LLM 返回的不是合法 JSON: "@ + e@ + "\n---\n"@ + head@);
            Err(VaultError::Other(string_of(&m)))
        },
        Ok(items) => {
            let cards = drafted_from_items(&items);
            if cards.len() == 0 {
                Err(VaultError::Other("LLM 没返回任何卡片".to_owned()))
            } else {
                Ok(GenerateCardsResult { cards, raw: content.to_owned() })
            }
        },
    }
}

/// The drafted cards of a reply `content`: its JSON text (see
/// `strip_code_fence`) is read as an array of card objects.
pub fn cards_from_reply(content: &str) -> (r: Result<GenerateCardsResult, VaultError>)
    requires
        json_card_items(unfenced(content@)) is Err ==> crate::text::blen(content@) <= 800
            || crate::text::is_boundary(content@, 800),
    ensures
        generate_result_is(r, content@, reply_outcome(content@, json_card_items(unfenced(content@)))),
{
    let text = strip_code_fence(content);
    let parsed = parse_card_items(text.as_str());
    cards_from_items(content, parsed)
}

/// `cards_from_reply`, when a reply that is not a JSON array can be quoted
/// (its first 800 bytes end between two characters); `None` otherwise.
pub fn cards_from_reply_checked(content: &str) -> (r: Option<Result<GenerateCardsResult, VaultError>>)
    ensures
        (json_card_items(unfenced(content@)) is Err && !(crate::text::blen(content@) <= 800
            || crate::text::is_boundary(content@, 800))) <==> r is None,
        r matches Some(x) ==> generate_result_is(
            x,
            content@,
            reply_outcome(content@, json_card_items(unfenced(content@))),
        ),
{
    let text = strip_code_fence(content);
    let parsed = parse_card_items(text.as_str());
    if parsed.is_err() && !crate::text::cut_fits(content, 800) {
        return None;
    }
    Some(cards_from_reply(content))
}


// ---------------------------------------------------------------------------
// Prompts for drafting cards
// ---------------------------------------------------------------------------

/// The number of cards asked for: `count` clamped to `1..=30`.
pub open spec fn clamped_count(count: u8) -> u8 {
    if count < 1 {
        1
    } else if count > 30 {
        30
    } else {
        count
    }
}

/// The instructions for drafting `count` cards in `language`.
pub open spec fn drafting_system_prompt(language: Seq<char>, count: u8) -> Seq<char> {
    PROMPT_HEAD@ + language + PROMPT_COUNT@ + dec(count as nat) + PROMPT_RULES@ + language
        + PROMPT_FORMAT@
}

/// The request for `count` cards from a note's body.
pub open spec fn drafting_user_prompt(body: Seq<char>, count: u8) -> Seq<char> {
    "# 笔记内容\n\n"@ + body + "\n\n请生成 "@ + dec(count as nat) + " 张闪卡。"@
}

/// The body of a note as sent for drafting: its first 6000 characters after
/// the header.
pub open spec fn drafting_body(raw: Seq<char>) -> Seq<char> {
    crate::blocks::take_at_most(
        match crate::frontmatter::frontmatter_parts(raw) {
            Some(p) => p.1,
            None => raw,
        },
        6000,
    )
}

pub const PROMPT_HEAD: &'static str = "你是一个为 ";

pub const PROMPT_COUNT: &'static str = " 学习者生成闪卡的助手。\n阅读用户提供的笔记，提取 ";

pub const PROMPT_RULES: &'static str = " 张高质量的 Q&A 闪卡，遵循：\n- 答案应该**自包含**，脱离笔记也能理解（不要写\"见上文\"）\n- 题目应**具体、可问**，避免太宽泛（如\"什么是 X\"）\n- 优先选**核心概念、易错点、对比、例子**\n- 答案简洁（一般 1-3 句），不复制整段\n- 不要编造笔记里没有的信息\n- 笔记里的 `#card` 标记已经存在，无需重复\n- 使用 ";

pub const PROMPT_FORMAT: &'static str = " 输出\n\n严格按以下 JSON 数组格式返回（不要 markdown 代码块、不要任何解释文字）：\n[\n  {\"question\": \"...\", \"answer\": \"...\", \"cardType\": \"basic\"},\n  {\"question\": \"...\", \"answer\": \"...\", \"cardType\": \"reverse\"}\n]\ncardType 可选: basic（默认）/ reverse（双向卡）/ cloze（填空，仅在确实适合时用）";

/// The system and user messages that ask for cards from the note `raw`.
pub fn card_prompts(raw: &str, language: &str, count: u8) -> (r: (String, String))
    requires
        crate::frontmatter::cut_ok(raw@),
    ensures
        r.0@ == drafting_system_prompt(language@, clamped_count(count)),
        r.1@ == drafting_user_prompt(drafting_body(raw@), clamped_count(count)),
{
    let n: u8 = if count < 1 {
        1
    } else if count > 30 {
        30
    } else {
        count
    };
    let body: String = match crate::frontmatter::split_frontmatter(raw) {
        Some((_, b)) => b,
        None => raw.to_owned(),
    };
    let bv = chars_of(body.as_str());
    let cut = if bv.len() > 6000 {
        6000
    } else {
        bv.len()
    };
    let mut sys: Vec<char> = Vec::new();
    extend_str(&mut sys, PROMPT_HEAD);
    extend_str(&mut sys, language);
    extend_str(&mut sys, PROMPT_COUNT);
    push_dec(&mut sys, n as u64);
    extend_str(&mut sys, PROMPT_RULES);
    extend_str(&mut sys, language);
    extend_str(&mut sys, PROMPT_FORMAT);
    let mut user: Vec<char> = Vec::new();
    extend_str(&mut user, "# 笔记内容\n\n");
    extend_range(&mut user, &bv, 0, cut);
    extend_str(&mut user, "\n\n请生成 ");
    push_dec(&mut user, n as u64);
    extend_str(&mut user, " 张闪卡。");
    proof {
        assert(sys@ =~= drafting_system_prompt(language@, clamped_count(count)));
        assert(bv@.subrange(0, cut as int) =~= drafting_body(raw@));
        assert(user@ =~= drafting_user_prompt(drafting_body(raw@), clamped_count(count)));
    }
    (string_of(&sys), string_of(&user))
}

/// The messages that ask for cards: the system prompt, then the user prompt.
pub fn drafting_messages(system: String, user: String) -> (r: Vec<ChatMessage>)
    ensures
        r@.len() == 2,
        r@[0].role@ == "system"@ && r@[0].content@ == system@,
        r@[1].role@ == "user"@ && r@[1].content@ == user@,
{
    let mut out: Vec<ChatMessage> = Vec::new();
    out.push(ChatMessage { role: "system".to_owned(), content: system });
    out.push(ChatMessage { role: "user".to_owned(), content: user });
    out
}


// ---------------------------------------------------------------------------
// Endpoints and calls
// ---------------------------------------------------------------------------

/// A base URL without its trailing slashes.
pub open spec fn base_of(url: Seq<char>) -> Seq<char> {
    strip_suffix_all(url, "/"@)
}

/// Where chat requests go: `{base}/api/chat` for Ollama, else the base when
/// it already ends in `/chat/completions`, else `{base}/chat/completions`.
pub open spec fn chat_url(provider: Seq<char>, base_url: Seq<char>) -> Seq<char> {
    let base = base_of(base_url);
    if provider == "ollama"@ {
        base + "/api/chat"@
    } else if ends_with(base, "/chat/completions"@) {
        base
    } else {
        base + "/chat/completions"@
    }
}

/// The extra headers of a chat request: none for Ollama, else the JSON
/// content type and, with a key, a bearer authorization.
pub open spec fn chat_headers(provider: Seq<char>, api_key: Seq<char>) -> Seq<Seq<char>> {
    if provider == "ollama"@ {
        Seq::empty()
    } else if api_key.len() > 0 {
        seq!["Content-Type: application/json"@, "Authorization: Bearer "@ + api_key]
    } else {
        seq!["Content-Type: application/json"@]
    }
}

/// Whether `provider` names Ollama.
pub fn is_ollama(provider: &str) -> (r: bool)
    ensures
        r == (provider@ == "ollama"@),
{
    str_eq(provider, "ollama")
}

/// `url` without its trailing slashes.
fn trim_slashes(url: &str) -> (r: Vec<char>)
    ensures
        r@ == base_of(url@),
{
    let v = chars_of(url);
    let slash = chars_of("/");
    let e = strip_suffix_all_exec(&v, 0, v.len(), &slash);
    assert(v@.subrange(0, v@.len() as int) =~= v@);
    let mut out: Vec<char> = Vec::new();
    extend_range(&mut out, &v, 0, e);
    out
}

/// Whether `v` ends with `p`.
fn vec_ends_with(v: &Vec<char>, p: &Vec<char>) -> (r: bool)
    ensures
        r == ends_with(v@, p@),
{
    if p.len() > v.len() {
        return false;
    }
    let k = v.len() - p.len();
    let mut i: usize = 0;
    while i < p.len()
        invariant
            i <= p.len(),
            k + p.len() == v.len(),
            forall|j: int| 0 <= j < i ==> v@[k + j] == p@[j],
        decreases p.len() - i,
    {
        if v[k + i] != p[i] {
            assert(v@.skip(k as int)[i as int] != p@[i as int]);
            return false;
        }
        i = i + 1;
    }
    assert(v@.skip(k as int) =~= p@);
    true
}

/// The URL and extra headers of a chat request.
pub fn chat_target(provider: &str, base_url: &str, api_key: &str) -> (r: (String, Vec<String>))
    ensures
        r.0@ == chat_url(provider@, base_url@),
        crate::text::str_views(r.1@) == chat_headers(provider@, api_key@),
{
    let mut url = trim_slashes(base_url);
    let mut headers: Vec<String> = Vec::new();
    if is_ollama(provider) {
        extend_str(&mut url, "/api/chat");
        assert(crate::text::str_views(headers@) =~= Seq::<Seq<char>>::empty());
        return (string_of(&url), headers);
    }
    let suffix = chars_of("/chat/completions");
    if !vec_ends_with(&url, &suffix) {
        extend_str(&mut url, "/chat/completions");
    }
    headers.push("Content-Type: application/json".to_owned());
    if !api_key.is_empty() {
        headers.push(concat("Authorization: Bearer ", api_key));
    }
    assert(crate::text::str_views(headers@) =~= chat_headers(provider@, api_key@));
    (string_of(&url), headers)
}

/// Pairs `-H`, header for each header.
pub open spec fn header_args(headers: Seq<Seq<char>>) -> Seq<Seq<char>>
    decreases headers.len(),
{
    if headers.len() == 0 {
        Seq::empty()
    } else {
        header_args(headers.drop_last()) + seq!["-H"@, headers.last()]
    }
}

/// The arguments of a `curl` POST: silent with errors shown, the time limit,
/// the headers, the body and the URL.
pub open spec fn post_args(max_time: Seq<char>, headers: Seq<Seq<char>>, body: Seq<char>, url: Seq<char>) -> Seq<Seq<char>> {
    seq!["-sS"@, "-X"@, "POST"@, "--max-time"@, max_time] + header_args(headers) + seq![
        "-d"@,
        body,
        url,
    ]
}

/// The arguments of `curl` for a POST of `body` to `url`.
pub fn curl_post_args(max_time: &str, headers: &Vec<String>, body: String, url: String) -> (r: Vec<String>)
    ensures
        crate::text::str_views(r@) == post_args(max_time@, crate::text::str_views(headers@), body@, url@),
{
    let ghost hv = crate::text::str_views(headers@);
    let mut out: Vec<String> = Vec::new();
    out.push("-sS".to_owned());
    out.push("-X".to_owned());
    out.push("POST".to_owned());
    out.push("--max-time".to_owned());
    out.push(max_time.to_owned());
    let ghost head = seq!["-sS"@, "-X"@, "POST"@, "--max-time"@, max_time@];
    assert(crate::text::str_views(out@) =~= head);
    let mut i: usize = 0;
    while i < headers.len()
        invariant
            i <= headers.len(),
            hv == crate::text::str_views(headers@),
            crate::text::str_views(out@) == head + header_args(hv.take(i as int)),
        decreases headers.len() - i,
    {
        let ghost before = crate::text::str_views(out@);
        out.push("-H".to_owned());
        out.push(headers[i].clone());
        assert(hv.take(i + 1).drop_last() =~= hv.take(i as int));
        assert(hv.take(i + 1).last() == headers@[i as int]@);
        assert(crate::text::str_views(out@) =~= before + seq!["-H"@, headers@[i as int]@]);
        i = i + 1;
    }
    assert(hv.take(headers.len() as int) =~= hv);
    let ghost before = crate::text::str_views(out@);
    let ghost bv = body@;
    let ghost uv = url@;
    out.push("-d".to_owned());
    out.push(body);
    out.push(url);
    assert(crate::text::str_views(out@) =~= before + seq!["-d"@, bv, uv]);
    out
}

// ---------------------------------------------------------------------------
// Replies
// ---------------------------------------------------------------------------

/// Where the reply text lies in a chat response.
pub open spec fn content_pointer(provider: Seq<char>) -> Seq<char> {
    if provider == "ollama"@ {
        "/message/content"@
    } else {
        "/choices/0/message/content"@
    }
}

pub open spec fn opt_opt_view(o: Option<Option<String>>) -> Option<Option<Seq<char>>> {
    match o {
        Some(x) => Some(opt_view(x)),
        None => None,
    }
}

/// What `serde_json` finds in `raw` at the JSON pointer `pointer`: `None`
/// when `raw` is not JSON, else the string there, if there is one.
pub uninterp spec fn json_text_at(raw: Seq<char>, pointer: Seq<char>) -> Option<Option<Seq<char>>>;

/// `serde_json::from_str::<serde_json::Value>` then `Value::pointer` and
/// `as_str`. Trusted: the result is named by `json_text_at`.
#[verifier::external_body]
fn json_text_lookup(raw: &str, pointer: &str) -> (r: Option<Option<String>>)
    ensures
        opt_opt_view(r) == json_text_at(raw@, pointer@),
{
    match serde_json::from_str::<serde_json::Value>(raw) {
        Ok(v) => Some(v.pointer(pointer).and_then(|x| x.as_str()).map(|t| t.to_string())),
        Err(_) => None,
    }
}

/// The reply text: the raw response when it is not JSON, the string found
/// at the pointer, or empty when there is none.
pub open spec fn reply_content(raw: Seq<char>, found: Option<Option<Seq<char>>>) -> Seq<char> {
    match found {
        None => raw,
        Some(None) => Seq::empty(),
        Some(Some(t)) => t,
    }
}

/// The reply text of the response `raw`, given what was found in it.
pub fn content_of(raw: &str, found: Option<Option<String>>) -> (r: String)
    ensures
        r@ == reply_content(raw@, opt_opt_view(found)),
{
    match found {
        None => raw.to_owned(),
        Some(None) => String::new(),
        Some(Some(t)) => t,
    }
}

/// The reply text of a chat response from `provider`.
pub fn extract_content(provider: &str, raw: &str) -> (r: String)
    ensures
        r@ == reply_content(raw@, json_text_at(raw@, content_pointer(provider@))),
{
    let found = if is_ollama(provider) {
        json_text_lookup(raw, "/message/content")
    } else {
        json_text_lookup(raw, "/choices/0/message/content")
    };
    content_of(raw, found)
}

/// The message of a failed chat call.
pub open spec fn chat_failure(stderr: Seq<char>, stdout: Seq<char>) -> Seq<char> {
    "AI call failed: "@ + stderr + " "@ + crate::text::byte_prefix(stdout, 400)
}

fn chat_failure_text(stderr: &str, stdout: &str) -> (r: String)
    requires
        crate::text::blen(stdout@) <= 400 || crate::text::is_boundary(stdout@, 400),
    ensures
        r@ == chat_failure(stderr@, stdout@),
{
    let mut m: Vec<char> = Vec::new();
    extend_str(&mut m, "AI call failed: ");
    extend_str(&mut m, stderr);
    extend_str(&mut m, " ");
    let head = crate::text::prefix_bytes(stdout, 400);
    extend_str(&mut m, head.as_str());
    assert(m@ =~= chat_failure(stderr@, stdout@));
    string_of(&m)
}

/// The reply text of a chat call, or why it failed.
pub fn chat_reply(provider: &str, success: bool, stderr: &str, stdout: &str) -> (r: Result<String, VaultError>)
    requires
        !success ==> crate::text::blen(stdout@) <= 400 || crate::text::is_boundary(stdout@, 400),
    ensures
        success ==> (r matches Ok(c) && c@ == reply_content(stdout@, json_text_at(stdout@, content_pointer(provider@)))),
        !success ==> (r matches Err(VaultError::Other(m)) && m@ == chat_failure(stderr@, stdout@)),
{
    if !success {
        return Err(VaultError::Other(chat_failure_text(stderr, stdout)));
    }
    Ok(extract_content(provider, stdout))
}

/// How a streamed chat call ends.
pub enum StreamOutcome {
    /// The request was cancelled meanwhile: nothing is reported.
    Cancelled,
    /// The call failed: the error is reported.
    Failed(String),
    /// The reply: the chunk to send (when the reply is not empty), then done.
    Done { chunk: Option<String>, content: String },
}

/// What a streamed chat call reports once `curl` has returned.
pub fn stream_reply(
    cancelled: bool,
    provider: &str,
    success: bool,
    stderr: &str,
    stdout: &str,
) -> (r: StreamOutcome)
    requires
        !cancelled && !success ==> crate::text::blen(stdout@) <= 400 || crate::text::is_boundary(
            stdout@,
            400,
        ),
    ensures
        cancelled ==> r is Cancelled,
        !cancelled && !success ==> (r matches StreamOutcome::Failed(m) && m@ == chat_failure(stderr@, stdout@)),
        !cancelled && success ==> (r matches StreamOutcome::Done { chunk, content } && {
            let c = reply_content(stdout@, json_text_at(stdout@, content_pointer(provider@)));
            &&& content@ == c
            &&& opt_view(chunk) == if c.len() > 0 { Some(c) } else { None }
        }),
{
    if cancelled {
        return StreamOutcome::Cancelled;
    }
    if !success {
        return StreamOutcome::Failed(chat_failure_text(stderr, stdout));
    }
    let content = extract_content(provider, stdout);
    let chunk = if content.as_str().is_empty() {
        None
    } else {
        Some(content.clone())
    };
    StreamOutcome::Done { chunk, content }
}

/// The message of a failed drafting call.
pub fn drafting_failure(stderr: &str) -> (r: VaultError)
    ensures
        r matches VaultError::Other(m) && m@ == "LLM 失败: "@ + stderr@,
{
    VaultError::Other(concat("LLM 失败: ", stderr))
}

// ---------------------------------------------------------------------------
// Listing models
// ---------------------------------------------------------------------------

/// The `curl` arguments that list the models of a provider (the URL last).
pub open spec fn list_models_args_of(provider: Seq<char>, base_url: Seq<char>, api_key: Seq<char>) -> Seq<Seq<char>> {
    let base = base_of(base_url);
    let url = if provider == "ollama"@ {
        base + "/api/tags"@
    } else {
        base + "/models"@
    };
    if provider != "ollama"@ && api_key.len() > 0 {
        seq!["-sS"@, "-X"@, "GET"@, "-H"@, "Authorization: Bearer "@ + api_key, url]
    } else {
        seq!["-sS"@, "-X"@, "GET"@, url]
    }
}

/// The `curl` arguments of a model listing.
pub fn list_models_args(req: &ListModelsRequest) -> (r: Vec<String>)
    ensures
        crate::text::str_views(r@) == list_models_args_of(req.provider@, req.base_url@, req.api_key@),
{
    let mut url = trim_slashes(req.base_url.as_str());
    let ollama = is_ollama(req.provider.as_str());
    if ollama {
        extend_str(&mut url, "/api/tags");
    } else {
        extend_str(&mut url, "/models");
    }
    let mut out: Vec<String> = Vec::new();
    out.push("-sS".to_owned());
    out.push("-X".to_owned());
    out.push("GET".to_owned());
    if !ollama && !req.api_key.as_str().is_empty() {
        out.push("-H".to_owned());
        out.push(concat("Authorization: Bearer ", req.api_key.as_str()));
    }
    out.push(string_of(&url));
    assert(crate::text::str_views(out@) =~= list_models_args_of(req.provider@, req.base_url@, req.api_key@));
    out
}

pub open spec fn names_view(r: Result<Option<Vec<Option<String>>>, String>) -> Result<Option<Seq<Option<Seq<char>>>>, Seq<char>> {
    match r {
        Ok(Some(v)) => Ok(Some(v@.map_values(|o: Option<String>| opt_view(o)))),
        Ok(None) => Ok(None),
        Err(e) => Err(e@),
    }
}

/// What `serde_json` reads from `raw`: the parse error's message, or, at the
/// JSON pointer `list`, an array whose items' `key` fields are strings or not.
pub uninterp spec fn json_names_at(raw: Seq<char>, list: Seq<char>, key: Seq<char>) -> Result<Option<Seq<Option<Seq<char>>>>, Seq<char>>;

/// `serde_json::from_str::<serde_json::Value>`, `pointer(list)`, `as_array`,
/// and each item's `get(key)` with `as_str`; an error becomes its message.
/// Trusted: the result is named by `json_names_at`.
#[verifier::external_body]
fn json_names_lookup(raw: &str, list: &str, key: &str) -> (r: Result<Option<Vec<Option<String>>>, String>)
    ensures
        names_view(r) == json_names_at(raw@, list@, key@),
{
    match serde_json::from_str::<serde_json::Value>(raw) {
        Ok(v) => Ok(v.pointer(list).and_then(|x| x.as_array()).map(|a| {
            a.iter().map(|m| m.get(key).and_then(|n| n.as_str()).map(|t| t.to_string())).collect()
        })),
        Err(e) => Err(e.to_string()),
    }
}

/// The model names of a listing `raw`, given what was read from it.
pub open spec fn models_outcome(raw: Seq<char>, found: Result<Option<Seq<Option<Seq<char>>>>, Seq<char>>) -> Result<Seq<Seq<char>>, Seq<char>> {
    match found {
        Err(e) => Err("bad list response: "@ + e + " - "@ + crate::text::byte_prefix(raw, 200)),
        Ok(None) => Ok(Seq::empty()),
        Ok(Some(items)) => Ok(crate::notes::present_items(items)),
    }
}

/// The model names of a listing, given what was read from it.
pub fn models_from(raw: &str, found: Result<Option<Vec<Option<String>>>, String>) -> (r: Result<Vec<String>, VaultError>)
    requires
        found is Err ==> crate::text::blen(raw@) <= 200 || crate::text::is_boundary(raw@, 200),
    ensures
        match models_outcome(raw@, names_view(found)) {
            Ok(names) => r matches Ok(v) && crate::text::str_views(v@) == names,
            Err(m) => r matches Err(VaultError::Other(x)) && x@ == m,
        },
{
    match found {
        Err(e) => {
            let mut m: Vec<char> = Vec::new();
            extend_str(&mut m, "bad list response: ");
            extend_str(&mut m, e.as_str());
            extend_str(&mut m, " - ");
            let head = crate::text::prefix_bytes(raw, 200);
            extend_str(&mut m, head.as_str());
            assert(m@ =~= "bad list response: "@ + e@ + " - "@ + head@);
            Err(VaultError::Other(string_of(&m)))
        },
        Ok(None) => {
            let v: Vec<String> = Vec::new();
            assert(crate::text::str_views(v@) =~= Seq::<Seq<char>>::empty());
            Ok(v)
        },
        Ok(Some(items)) => {
            let ghost iv = items@.map_values(|o: Option<String>| opt_view(o));
            let mut out: Vec<String> = Vec::new();
            let mut i: usize = 0;
            while i < items.len()
                invariant
                    i <= items.len(),
                    iv == items@.map_values(|o: Option<String>| opt_view(o)),
                    crate::text::str_views(out@) == crate::notes::present_items(iv.take(i as int)),
                decreases items.len() - i,
            {
                assert(iv.take(i + 1).drop_last() =~= iv.take(i as int));
                assert(iv.take(i + 1).last() == opt_view(items@[i as int]));
                match &items[i] {
                    Some(t) => {
                        out.push(t.clone());
                        assert(crate::text::str_views(out@) =~= crate::text::str_views(out@.drop_last()).push(t@));
                    },
                    None => {},
                }
                i = i + 1;
            }
            assert(iv.take(items.len() as int) =~= iv);
            Ok(out)
        },
    }
}

/// What is read from a listing of `provider`: the `name`s of `/models` for
/// Ollama, else the `id`s of `/data`.
pub open spec fn listed_names(provider: Seq<char>, raw: Seq<char>) -> Result<Option<Seq<Option<Seq<char>>>>, Seq<char>> {
    if provider == "ollama"@ {
        json_names_at(raw, "/models"@, "name"@)
    } else {
        json_names_at(raw, "/data"@, "id"@)
    }
}

fn names_lookup(provider: &str, raw: &str) -> (r: Result<Option<Vec<Option<String>>>, String>)
    ensures
        names_view(r) == listed_names(provider@, raw@),
{
    if is_ollama(provider) {
        json_names_lookup(raw, "/models", "name")
    } else {
        json_names_lookup(raw, "/data", "id")
    }
}

/// The model names of a listing call, or why it failed.
pub fn list_models_reply(provider: &str, success: bool, stderr: &str, stdout: &str) -> (r: Result<Vec<String>, VaultError>)
    requires
        success && listed_names(provider@, stdout@) is Err ==> crate::text::blen(stdout@) <= 200
            || crate::text::is_boundary(stdout@, 200),
    ensures
        !success ==> (r matches Err(VaultError::Other(m)) && m@ == "list models failed: "@ + stderr@),
        success ==> match models_outcome(stdout@, listed_names(provider@, stdout@)) {
            Ok(names) => r matches Ok(v) && crate::text::str_views(v@) == names,
            Err(m) => r matches Err(VaultError::Other(x)) && x@ == m,
        },
{
    if !success {
        return Err(VaultError::Other(concat("list models failed: ", stderr)));
    }
    let found = names_lookup(provider, stdout);
    models_from(stdout, found)
}

/// `list_models_reply`, when a reply that is not JSON can be quoted (its
/// first 200 bytes end between two characters); `None` otherwise.
pub fn list_models_checked(provider: &str, success: bool, stderr: &str, stdout: &str) -> (r: Option<Result<Vec<String>, VaultError>>)
    ensures
        (success && listed_names(provider@, stdout@) is Err && !(crate::text::blen(stdout@) <= 200
            || crate::text::is_boundary(stdout@, 200))) <==> r is None,
        r matches Some(x) ==> (!success ==> (x matches Err(VaultError::Other(m)) && m@ == "list models failed: "@ + stderr@)),
        r matches Some(x) ==> (success ==> match models_outcome(stdout@, listed_names(provider@, stdout@)) {
            Ok(names) => x matches Ok(v) && crate::text::str_views(v@) == names,
            Err(m) => x matches Err(VaultError::Other(y)) && y@ == m,
        }),
{
    if success {
        let found = names_lookup(provider, stdout);
        if found.is_err() && !crate::text::cut_fits(stdout, 200) {
            return None;
        }
    }
    Some(list_models_reply(provider, success, stderr, stdout))
}


// ---------------------------------------------------------------------------
// Context from the vault
// ---------------------------------------------------------------------------

/// A note retrieved for a question: its title, its path and its file text.
#[derive(Clone, Debug)]
pub struct SourceText {
    pub title: String,
    pub path: String,
    pub text: String,
}

/// Whether a search hit at `path` lies in the scope: any scope when none is
/// given, else one of the given path prefixes.
pub open spec fn in_scope_of(path: Seq<char>, scopes: Seq<Seq<char>>) -> bool {
    scopes.len() == 0 || exists|i: int| 0 <= i < scopes.len() && starts_with(path, #[trigger] scopes[i])
}

/// Whether `path` lies within the given scope prefixes.
pub fn in_scope(path: &str, scopes: &Vec<String>) -> (r: bool)
    ensures
        r == in_scope_of(path@, crate::text::str_views(scopes@)),
{
    if scopes.len() == 0 {
        return true;
    }
    let v = chars_of(path);
    let ghost sv = crate::text::str_views(scopes@);
    let mut i: usize = 0;
    while i < scopes.len()
        invariant
            i <= scopes.len(),
            v@ == path@,
            sv == crate::text::str_views(scopes@),
            forall|j: int| 0 <= j < i ==> !starts_with(path@, #[trigger] sv[j]),
        decreases scopes.len() - i,
    {
        let p = chars_of(scopes[i].as_str());
        assert(v@.subrange(0, v@.len() as int) =~= v@);
        let pv: &[char] = p.as_slice();
        if crate::text::range_starts_with(&v, 0, v.len(), pv) {
            assert(sv[i as int] == p@);
            return true;
        }
        i = i + 1;
    }
    false
}

/// The note text from the first `---` on, past the next line that starts
/// with `---`, without the newlines that follow; the whole text when there
/// are no such marks.
pub open spec fn without_header(body: Seq<char>) -> Seq<char> {
    match crate::text::find_sub(body, "---"@) {
        Some(i) => match crate::text::find_sub(body.skip(i + 3), "\n---"@) {
            Some(e) => crate::text::strip_prefix_char(body.skip(i + 3 + e + 4), '\n'),
            None => body,
        },
        None => body,
    }
}

/// The context entry of one source: a `###` line with its title (or path)
/// and path, then the first 1500 characters of its text.
pub open spec fn context_entry(title: Seq<char>, path: Seq<char>, text: Seq<char>) -> Seq<char> {
    "### "@ + (if title.len() == 0 {
        path
    } else {
        title
    }) + " ["@ + path + "]\n"@ + crate::blocks::take_at_most(without_header(text), 1500) + "\n\n"@
}

pub open spec fn context_of(sources: Seq<(Seq<char>, Seq<char>, Seq<char>)>) -> Seq<char>
    decreases sources.len(),
{
    if sources.len() == 0 {
        Seq::empty()
    } else {
        let s = sources.last();
        context_of(sources.drop_last()) + context_entry(s.0, s.1, s.2)
    }
}

pub open spec fn source_views(sources: Seq<SourceText>) -> Seq<(Seq<char>, Seq<char>, Seq<char>)> {
    sources.map_values(|s: SourceText| (s.title@, s.path@, s.text@))
}

/// The user message of a chat: the retrieved context (or a note that none
/// was found) and the question.
pub open spec fn chat_user_prompt(sources: Seq<(Seq<char>, Seq<char>, Seq<char>)>, question: Seq<char>) -> Seq<char> {
    let ctx = context_of(sources);
    let ctx = if ctx.len() == 0 {
        "(本库中没检索到相关内容)"@
    } else {
        ctx
    };
    "# 笔记上下文（来自本地检索）\n\n"@ + ctx + "\n\n# 用户问题\n\n"@ + question
}

/// `text` past its header, as the context shows it.
fn header_free(text: &str) -> (r: Vec<char>)
    ensures
        r@ == without_header(text@),
{
    let v = chars_of(text);
    let n = v.len();
    let dashes = chars_of("---");
    let mark = chars_of("\n---");
    proof {
        reveal_strlit("---");
        reveal_strlit("\n---");
    }
    assert(dashes@.len() == 3);
    assert(mark@.len() == 4);
    assert(v@.subrange(0, n as int) =~= v@);
    match crate::text::find_sub_exec(&v, n, &dashes, 0) {
        Some(i) => {
            proof {
                assert(crate::text::find_sub_from(v@, dashes@, 0) == Some(i as int));
                lemma_find_sub_bound(v@, dashes@, 0);
            }
            let mut w: Vec<char> = Vec::new();
            extend_range(&mut w, &v, i + 3, n);
            assert(w@ =~= v@.skip(i + 3));
            let m = w.len();
            assert(w@.subrange(0, m as int) =~= w@);
            match crate::text::find_sub_exec(&w, m, &mark, 0) {
                Some(e) => {
                    proof {
                        lemma_find_sub_bound(w@, mark@, 0);
                    }
                    let k = crate::text::strip_prefix_char_exec(&w, e + 4, m, '\n');
                    let mut out: Vec<char> = Vec::new();
                    extend_range(&mut out, &w, k, m);
                    assert(w@.subrange(e + 4, m as int) =~= v@.skip(i + 3 + e + 4));
                    out
                },
                None => v,
            }
        },
        None => v,
    }
}

proof fn lemma_find_sub_bound(s: Seq<char>, p: Seq<char>, i: int)
    ensures
        match crate::text::find_sub_from(s, p, i) {
            Some(k) => i <= k && k + p.len() <= s.len(),
            None => true,
        },
    decreases s.len() + 1 - i,
{
    if !(i < 0 || i + p.len() > s.len()) && !crate::text::occurs_at(s, p, i) {
        lemma_find_sub_bound(s, p, i + 1);
    }
}

/// The user message of a chat from the retrieved sources and the question.
pub fn chat_prompt(sources: &Vec<SourceText>, question: &str) -> (r: String)
    ensures
        r@ == chat_user_prompt(source_views(sources@), question@),
{
    let ghost sv = source_views(sources@);
    let mut ctx: Vec<char> = Vec::new();
    let mut i: usize = 0;
    while i < sources.len()
        invariant
            i <= sources.len(),
            sv == source_views(sources@),
            ctx@ == context_of(sv.take(i as int)),
        decreases sources.len() - i,
    {
        let s = &sources[i];
        let ghost before = ctx@;
        extend_str(&mut ctx, "### ");
        if s.title.as_str().is_empty() {
            extend_str(&mut ctx, s.path.as_str());
        } else {
            extend_str(&mut ctx, s.title.as_str());
        }
        extend_str(&mut ctx, " [");
        extend_str(&mut ctx, s.path.as_str());
        extend_str(&mut ctx, "]\n");
        let body = header_free(s.text.as_str());
        let cut = if body.len() > 1500 {
            1500
        } else {
            body.len()
        };
        extend_range(&mut ctx, &body, 0, cut);
        extend_str(&mut ctx, "\n\n");
        proof {
            assert(sv.take(i + 1).drop_last() =~= sv.take(i as int));
            assert(sv.take(i + 1).last() == (s.title@, s.path@, s.text@));
            assert(body@.subrange(0, cut as int) =~= crate::blocks::take_at_most(without_header(s.text@), 1500));
            assert(ctx@ =~= before + context_entry(s.title@, s.path@, s.text@));
        }
        i = i + 1;
    }
    assert(sv.take(sources.len() as int) =~= sv);
    let mut out: Vec<char> = Vec::new();
    extend_str(&mut out, "# 笔记上下文（来自本地检索）\n\n");
    if ctx.len() == 0 {
        extend_str(&mut out, "(本库中没检索到相关内容)");
    } else {
        extend_range(&mut out, &ctx, 0, ctx.len());
        assert(ctx@.subrange(0, ctx@.len() as int) =~= ctx@);
    }
    extend_str(&mut out, "\n\n# 用户问题\n\n");
    extend_str(&mut out, question);
    assert(out@ =~= chat_user_prompt(sv, question@));
    string_of(&out)
}

/// The messages of a chat: the system prompt, the earlier messages, then
/// the user message with the retrieved context.
pub fn build_messages(
    system_prompt: &str,
    history: &Vec<ChatMessage>,
    sources: &Vec<SourceText>,
    question: &str,
) -> (r: Vec<ChatMessage>)
    ensures
        r@.len() == history@.len() + 2,
        r@[0].role@ == "system"@ && r@[0].content@ == system_prompt@,
        forall|k: int| 0 <= k < history@.len() ==> {
            &&& (#[trigger] r@[k + 1]).role@ == history@[k].role@
            &&& r@[k + 1].content@ == history@[k].content@
        },
        r@[history@.len() + 1int].role@ == "user"@,
        r@[history@.len() + 1int].content@ == chat_user_prompt(source_views(sources@), question@),
{
    let mut out: Vec<ChatMessage> = Vec::new();
    out.push(ChatMessage { role: "system".to_owned(), content: system_prompt.to_owned() });
    let mut i: usize = 0;
    while i < history.len()
        invariant
            i <= history.len(),
            out@.len() == i + 1,
            out@[0].role@ == "system"@ && out@[0].content@ == system_prompt@,
            forall|k: int| 0 <= k < i ==> {
                &&& (#[trigger] out@[k + 1]).role@ == history@[k].role@
                &&& out@[k + 1].content@ == history@[k].content@
            },
        decreases history.len() - i,
    {
        let h = &history[i];
        out.push(ChatMessage { role: h.role.clone(), content: h.content.clone() });
        i = i + 1;
    }
    let user = chat_prompt(sources, question);
    out.push(ChatMessage { role: "user".to_owned(), content: user });
    out
}

} // verus!
