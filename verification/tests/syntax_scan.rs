use notevault::syntax::{scan_all, Pattern};
use notevault::text::is_ws_char;
use regex::Regex;

fn char_index(s: &str, byte: usize) -> usize {
    s[..byte].chars().count()
}

fn regex_hits(re: &Regex, s: &str) -> Vec<(usize, usize, usize, usize)> {
    re.captures_iter(s)
        .map(|c| {
            let m = c.get(0).unwrap();
            let g = c.get(1).unwrap();
            (
                char_index(s, m.start()),
                char_index(s, g.start()),
                char_index(s, g.end()),
                char_index(s, m.end()),
            )
        })
        .collect()
}

fn ours(s: &str, p: Pattern) -> Vec<(usize, usize, usize, usize)> {
    let v: Vec<char> = s.chars().collect();
    scan_all(&v, &p)
}

fn samples() -> Vec<String> {
    let mut out: Vec<String> = vec![
        "see [[Note]] and [[Other|alias]] here".into(),
        "![[Embed]] then [[a#b]] and [[x#^blk_1]]".into(),
        "[[]] [[a]b]] [[a|]] [[a|b]c]] [[[a]]] [[a|b|c]]".into(),
        "ref ((blk_12ab) and (( bad)) and ((ok-1_x) end".into(),
        "#tag at start #second\t#third #中文标签 #a/b #x-y_z##not".into(),
        "no#tag here but\u{3000}#wide and \u{a0}#nbsp".into(),
        "((a)) (((b)) ((c".into(),
        "!![[double]] ![[ spaced | al ]]".into(),
    ];
    // a deterministic pseudo-random alphabet soup
    let alphabet: Vec<char> = "[]|!#()ab_- \n\t/中é".chars().collect();
    let mut x: u64 = 0x2545F4914F6CDD1D;
    for _ in 0..400 {
        let mut s = String::new();
        for _ in 0..24 {
            x ^= x << 13;
            x ^= x >> 7;
            x ^= x << 17;
            s.push(alphabet[(x % alphabet.len() as u64) as usize]);
        }
        out.push(s);
    }
    out
}

#[test]
fn wiki_scan_agrees_with_regex() {
    let re = Regex::new(r"\[\[([^\[\]\|]+?)(?:\|([^\]]+?))?\]\]").unwrap();
    for s in samples() {
        assert_eq!(ours(&s, Pattern::Wiki), regex_hits(&re, &s), "input {:?}", s);
    }
}

#[test]
fn transclusion_scan_agrees_with_regex() {
    let re = Regex::new(r"!\[\[([^\[\]\|]+?)(?:\|([^\]]+?))?\]\]").unwrap();
    for s in samples() {
        assert_eq!(ours(&s, Pattern::Transclusion), regex_hits(&re, &s), "input {:?}", s);
    }
}

#[test]
fn block_ref_scan_agrees_with_regex() {
    let re = Regex::new(r"\(\(([A-Za-z0-9_\-]+)\)").unwrap();
    for s in samples() {
        assert_eq!(ours(&s, Pattern::BlockRef), regex_hits(&re, &s), "input {:?}", s);
    }
}

#[test]
fn tag_scan_agrees_with_regex() {
    let re = Regex::new(r"(?:^|\s)#([A-Za-z0-9_\-/\u{4E00}-\u{9FFF}]+)").unwrap();
    for s in samples() {
        assert_eq!(ours(&s, Pattern::Tag), regex_hits(&re, &s), "input {:?}", s);
    }
}

#[test]
fn whitespace_class_is_unicode_white_space() {
    for u in 0u32..=0x10FFFF {
        if let Some(c) = char::from_u32(u) {
            assert_eq!(is_ws_char(c), c.is_whitespace(), "U+{:04X}", u);
        }
    }
}
