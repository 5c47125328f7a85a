use notevault::blocks::extract_blocks;
use notevault::cards::{
    extract_cards_at, is_list_item, merge_cards, previous_card, strip_card_marker,
    strip_cloze_markers, strip_list_prefix, Card,
};
use notevault::frontmatter::{parse_frontmatter, split_frontmatter, Frontmatter, TagsField};
use notevault::notes::{
    collect_inline_tags_union, derive_title, extract_inline_tags, extract_wikilinks,
    order_tree_entries, tags_from_frontmatter, title_from, TreeNode,
};
use notevault::test_helpers::{extract_cards_pub, parse_test_frontmatter_pub};
use regex::Regex;
use sha2::{Digest, Sha256};

fn hex_n(s: &str, n: usize) -> String {
    Sha256::digest(s.as_bytes()).iter().take(n).map(|b| format!("{:02x}", b)).collect()
}

fn no_header() -> Frontmatter {
    Frontmatter { title: None, tags: TagsField::Absent }
}

#[test]
fn frontmatter_title_tags_and_body() {
    let raw = "---\ntitle: Hello\ntags: [rust, notes]\n---\nBody text\n";
    let (fm, body) = parse_frontmatter(raw);
    assert_eq!(fm.title.as_deref(), Some("Hello"));
    match &fm.tags {
        TagsField::List(items) => {
            assert_eq!(items, &vec![Some("rust".to_string()), Some("notes".to_string())])
        }
        _ => panic!("tags should be a list"),
    }
    assert_eq!(body, "Body text\n");
    assert_eq!(tags_from_frontmatter(&fm), vec!["rust", "notes"]);
}

#[test]
fn frontmatter_with_crlf_and_comma_tags() {
    let raw = "---\r\ntitle: X\r\ntags: a, b ,, c\r\n---\r\nrest";
    let (fm, body) = parse_test_frontmatter_pub(raw);
    assert_eq!(fm.title.as_deref(), Some("X"));
    assert_eq!(body, "rest");
    assert_eq!(tags_from_frontmatter(&fm), vec!["a", "b", "c"]);
}

#[test]
fn frontmatter_absent_or_unclosed() {
    let (fm, body) = parse_frontmatter("# Just a note\n");
    assert!(fm.title.is_none());
    assert_eq!(body, "# Just a note\n");
    let raw = "---\ntitle: never closed\nbody\n";
    assert_eq!(split_frontmatter(raw), None);
    let (_, body) = parse_frontmatter(raw);
    assert_eq!(body, raw);
}

#[test]
fn frontmatter_closing_line_may_be_indented() {
    // The body starts four bytes into the closing line.
    let raw = "---\na: 1\n  ---\nafter";
    assert_eq!(
        split_frontmatter(raw),
        Some(("a: 1\n".to_string(), "-\nafter".to_string()))
    );
}

#[test]
fn frontmatter_search_stops_after_4096_bytes() {
    let long = "x".repeat(5000);
    let raw = format!("---\n{}\n---\nbody", long);
    assert_eq!(split_frontmatter(&raw), None);
    let short = format!("---\n{}\n---\nbody", "y".repeat(100));
    assert_eq!(split_frontmatter(&short).map(|p| p.1), Some("body".to_string()));
}

#[test]
fn frontmatter_list_items_that_are_not_strings_are_skipped() {
    let (fm, _) = parse_frontmatter("---\ntags: [a, 3, b]\n---\n");
    assert_eq!(tags_from_frontmatter(&fm), vec!["a", "b"]);
    let (fm, _) = parse_frontmatter("---\ntags: 7\n---\n");
    assert!(tags_from_frontmatter(&fm).is_empty());
    let (fm, _) = parse_frontmatter("---\n: : [\n---\nb");
    assert!(fm.title.is_none());
}

#[test]
fn inline_tags_and_union() {
    let body = "#start text #rust and#not #中文 #a/b-c\n#rust again";
    assert_eq!(extract_inline_tags(body), vec!["start", "rust", "中文", "a/b-c", "rust"]);
    let fm = Frontmatter {
        title: None,
        tags: TagsField::List(vec![Some("zeta".into()), Some("rust".into())]),
    };
    let all = collect_inline_tags_union(body, &fm);
    assert_eq!(all, vec!["a/b-c", "rust", "start", "zeta", "中文"]);
    let mut sorted = all.clone();
    sorted.sort();
    sorted.dedup();
    assert_eq!(all, sorted);
}

#[test]
fn inline_tags_match_the_pattern() {
    let re = Regex::new(r"(?:^|\s)#([A-Za-z0-9_\-/\u{4E00}-\u{9FFF}]+)").unwrap();
    let samples = [
        "#a #b\t#c\n#d",
        "x#y #z# #_ok #-/- ##double",
        " #lead\u{3000}#wide\u{a0}#nbsp #中文字",
        "",
        "#",
        "# heading",
    ];
    for s in samples {
        let want: Vec<String> =
            re.captures_iter(s).map(|c| c.get(1).unwrap().as_str().to_string()).collect();
        assert_eq!(extract_inline_tags(s), want, "on {:?}", s);
    }
}

#[test]
fn wikilinks_are_trimmed_and_nonempty() {
    let body = "[[ A ]] and [[B|alias]] and ![[C]] and [[ ]] [[D#sec]]";
    assert_eq!(extract_wikilinks(body), vec!["A", "B", "C", "D#sec"]);
}

#[test]
fn titles() {
    let fm = Frontmatter { title: Some("From header".into()), tags: TagsField::Absent };
    assert_eq!(derive_title("notes/x.md", &fm, "# Body title"), "From header");
    let empty_title = Frontmatter { title: Some("".into()), tags: TagsField::Absent };
    assert_eq!(derive_title("notes/x.md", &empty_title, "\n\n## Second  \nmore"), "Second");
    assert_eq!(derive_title("notes/x.md", &no_header(), "###\n  \n"), "x");
    assert_eq!(derive_title("notes/archive.tar.md", &no_header(), ""), "archive.tar");
    assert_eq!(derive_title("", &no_header(), ""), "untitled");
    assert_eq!(title_from(&no_header(), "", None), "untitled");
    assert_eq!(title_from(&no_header(), "", Some("stem".into())), "stem");
}

#[test]
fn list_items_and_markers() {
    assert!(is_list_item("- x"));
    assert!(is_list_item("-"));
    assert!(!is_list_item("-x"));
    assert!(is_list_item("12. item"));
    assert!(is_list_item("123."));
    assert!(!is_list_item("1234. no"));
    assert!(!is_list_item("abc"));
    assert!(!is_list_item(""));
    assert_eq!(strip_card_marker("- Q #card  ", "#card"), Some("- Q ".to_string()));
    assert_eq!(strip_card_marker("#card", "#card"), Some(String::new()));
    assert_eq!(strip_card_marker("- Q#card", "#card"), None);
    assert_eq!(strip_card_marker("- Q #card x", "#card"), None);
    assert_eq!(strip_list_prefix("  - item"), "item");
    assert_eq!(strip_list_prefix("-"), "");
    assert_eq!(strip_list_prefix("3. third"), "third");
    assert_eq!(strip_list_prefix("ab. c"), "c");
    assert_eq!(strip_list_prefix("plain"), "plain");
    assert_eq!(strip_list_prefix("  plain"), "  plain");
}

#[test]
fn cloze_markers() {
    assert_eq!(
        strip_cloze_markers("The {{c1::capital}} of France is {{c2::Paris::city}}."),
        "The [capital] of France is [Paris]."
    );
    assert_eq!(strip_cloze_markers("{{c1::a:b}} {{c::x}} {{c1::a}b}}"), "[a:b] {{c::x}} {{c1::a}b}}");
    assert_eq!(strip_cloze_markers("{{c١٢::arabic digits}}"), "[arabic digits]");
}

#[test]
fn cloze_markers_match_the_pattern() {
    let re = Regex::new(r"\{\{c\d+::([^}]*?)(?:::([^}]*?))?\}\}").unwrap();
    let alphabet: Vec<char> = "{}c1:ab٣ \n".chars().collect();
    let mut seed: u64 = 0x9e3779b97f4a7c15;
    for _ in 0..3000 {
        let mut s = String::new();
        seed = seed.wrapping_mul(6364136223846793005).wrapping_add(1442695040888963407);
        let len = (seed >> 58) as usize;
        for _ in 0..len {
            seed = seed.wrapping_mul(6364136223846793005).wrapping_add(1442695040888963407);
            s.push(alphabet[(seed >> 33) as usize % alphabet.len()]);
        }
        let want = re.replace_all(&s, "[$1]").to_string();
        assert_eq!(strip_cloze_markers(&s), want, "on {:?}", s);
    }
    for s in ["{{c1::::}}", "{{c12::a::b::c}}", "{{c1::x}}}", "{{{c1::x}}", "{{c1::a::}b}}"] {
        assert_eq!(strip_cloze_markers(s), re.replace_all(s, "[$1]").to_string(), "on {:?}", s);
    }
}

const CARDS: &str = "# Deck\n\n- What is Rust? #card\n  A systems language.\n\n  Safe and fast.\n- Next item\n* Capital of France #card-reverse\n    Paris\n1. The {{c1::sun}} is a {{c2::star::type}} #cloze\n- #card\n- Q only #card\nno indent answer\n";

#[test]
fn cards_of_a_note() {
    let cards = extract_cards_at(CARDS, "deck.md", 1000);
    assert_eq!(cards.len(), 4);
    let c = &cards[0];
    assert_eq!(c.card_type, "basic");
    assert_eq!(c.question, "What is Rust?");
    assert_eq!(c.answer, "A systems language. Safe and fast.");
    assert_eq!(c.cloze_text, None);
    assert_eq!(c.line_index, 2);
    assert_eq!(c.id, format!("card_{}", hex_n("basic|deck.md|2|What is Rust?", 6)));
    // the card points at the list block that holds its line
    let blocks = extract_blocks(CARDS, "deck.md");
    assert_eq!(blocks[1].block_type, "list");
    assert_eq!(blocks[1].id, format!("blk_{}", hex_n("list|1|- What is Rust? #card\n", 4)));
    assert_eq!(c.block_id.as_deref(), Some(blocks[1].id.as_str()));
    assert_eq!((c.reps, c.lapses, c.last_review_at), (0, 0, None));
    assert_eq!((c.next_review_at, c.created_at), (1000, 1000));
    assert_eq!(c.state, "new");

    let r = &cards[1];
    assert_eq!(r.card_type, "reverse");
    assert_eq!(r.question, "Capital of France");
    assert_eq!(r.answer, "Paris");
    assert_eq!(r.line_index, 7);
    assert_eq!(blocks[4].content, "- Next item\n* Capital of France #card-reverse");
    assert_eq!(r.block_id.as_deref(), Some(blocks[4].id.as_str()));

    let z = &cards[2];
    assert_eq!(z.card_type, "cloze");
    assert_eq!(z.question, "The [sun] is a [star]");
    assert_eq!(z.cloze_text.as_deref(), Some("The {{c1::sun}} is a {{c2::star::type}}"));
    assert_eq!(z.answer, "");

    let q = &cards[3];
    assert_eq!(q.question, "Q only");
    assert_eq!(q.answer, "");
    assert_eq!(q.line_index, 11);
    for card in &cards {
        let id = card.block_id.as_deref().expect("every card line is in a block");
        assert!(blocks.iter().any(|b| b.id == id));
    }
}

#[test]
fn cards_with_the_clock() {
    let cards = extract_cards_pub(CARDS, "deck.md");
    assert_eq!(cards.len(), 4);
    assert!(cards[0].created_at > 1_600_000_000);
    assert_eq!(cards[0].created_at, cards[0].next_review_at);
}

#[test]
fn review_state_survives_edits() {
    let fresh = extract_cards_at(CARDS, "deck.md", 5000);
    let mut stored: Vec<Card> = extract_cards_at(CARDS, "deck.md", 1000);
    stored[0].reps = 3;
    stored[0].lapses = 1;
    stored[0].last_review_at = Some(1200);
    stored[0].next_review_at = 9000;
    stored[0].state = "review".into();
    stored.remove(1);
    assert_eq!(previous_card(&stored, &fresh[0].id), Some(0));
    assert_eq!(previous_card(&stored, &fresh[1].id), None);
    let merged = merge_cards(fresh.clone(), &stored, 5000);
    assert_eq!(merged.len(), fresh.len());
    assert_eq!(merged[0].reps, 3);
    assert_eq!(merged[0].state, "review");
    assert_eq!(merged[0].created_at, 1000);
    assert_eq!(merged[0].question, fresh[0].question);
    assert_eq!(merged[1].reps, 0);
    assert_eq!(merged[1].created_at, 5000);
}

#[test]
fn card_ids_do_not_depend_on_the_clock() {
    let early = extract_cards_at(CARDS, "deck.md", 1000);
    let late = extract_cards_at(CARDS, "deck.md", 2_000_000_000);
    assert_eq!(early.len(), late.len());
    for (x, y) in early.iter().zip(late.iter()) {
        assert_eq!(x.id, y.id);
        assert_eq!((x.created_at, y.created_at), (1000, 2_000_000_000));
    }
}

#[test]
fn tree_entries_order() {
    let entries: Vec<(bool, String)> = vec![
        (false, "b.md".into()),
        (true, "Zeta".into()),
        (false, "A.md".into()),
        (true, "alpha".into()),
        (false, "a.md".into()),
        (false, "B.md".into()),
    ];
    // directories first, then case-insensitive by name; equal keys keep their order
    assert_eq!(order_tree_entries(&entries), vec![3, 1, 2, 4, 0, 5]);
    assert_eq!(order_tree_entries(&Vec::new()), Vec::<usize>::new());
    let node = TreeNode { name: "n".into(), path: "".into(), is_dir: true, children: vec![] };
    assert!(node.is_dir && node.children.is_empty());
}

fn lower_hex(s: &str) -> bool {
    s.chars().all(|c| c.is_ascii_digit() || ('a'..='f').contains(&c))
}

#[test]
fn card_ids_are_card_and_twelve_hex_digits() {
    let cards = extract_cards_pub("- What is X? #card\n  It is Y", "n.md");
    assert_eq!(cards.len(), 1);
    let c = &cards[0];
    assert_eq!((c.card_type.as_str(), c.question.as_str(), c.answer.as_str(), c.cloze_text.clone(), c.line_index),
        ("basic", "What is X?", "It is Y", None, 0));
    assert_eq!(c.id.chars().count(), 17);
    assert!(c.id.starts_with("card_") && lower_hex(&c.id[5..]));
    for c in extract_cards_at(CARDS, "deck.md", 7) {
        assert!(c.id.len() == 17 && c.id.starts_with("card_") && lower_hex(&c.id[5..]));
    }
}
