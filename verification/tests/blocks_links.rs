use notevault::blocks::extract_blocks;
use notevault::hashing::short_hash;
use notevault::links::{extract_links, parse_wikilink_target};
use notevault::test_helpers::{extract_blocks_pub, extract_links_pub};
use sha2::{Digest, Sha256};

fn hex8(s: &str) -> String {
    Sha256::digest(s.as_bytes()).iter().take(4).map(|b| format!("{:02x}", b)).collect()
}

const NOTE: &str = "# Title\n\nFirst paragraph with [[Other Note]] link.\nSecond line.\n\n```rust\nfn main() {}\n```\n\n> quoted\n> more\n\n- item one\n- item two [[Target#Section]]\n\n1. first\n2. second\n\nTail ((blk_abc123)) and ![[Embedded|alias]].\n";

#[test]
fn short_hash_is_first_four_digest_bytes() {
    assert_eq!(short_hash("hello"), hex8("hello"));
    assert_eq!(short_hash(""), "e3b0c442");
    assert_eq!(short_hash("hello").len(), 8);
}

#[test]
fn blocks_of_a_note() {
    let blocks = extract_blocks(NOTE, "n.md");
    let kinds: Vec<&str> = blocks.iter().map(|b| b.block_type.as_str()).collect();
    assert_eq!(kinds, vec!["heading", "paragraph", "code", "blockquote", "list", "list", "paragraph"]);
    assert_eq!(blocks[0].level, Some(1));
    assert_eq!(blocks[0].content, "Title");
    assert_eq!(blocks[1].content, "First paragraph with [[Other Note]] link.\nSecond line.");
    assert_eq!(blocks[2].content, "```rust\nfn main() {}\n```");
    assert_eq!(blocks[3].content, "> quoted\n> more");
    assert_eq!(blocks[4].content, "- item one\n- item two [[Target#Section]]");
    assert_eq!(blocks[5].content, "1. first\n2. second");
    for (i, b) in blocks.iter().enumerate() {
        assert_eq!(b.order_index, i as i64);
        assert_eq!(b.note_id, "n.md");
        assert!(b.id.starts_with("blk_"));
        assert_eq!(b.id.len(), 12);
    }
    // ids hash "type|order|content" of the untruncated content
    assert_eq!(blocks[0].id, format!("blk_{}", hex8("heading|0|Title")));
    assert_eq!(blocks[0].content_hash, hex8("Title"));
    let code = "```rust\nfn main() {}\n```\n";
    assert_eq!(blocks[2].id, format!("blk_{}", hex8(&format!("code|2|{}", code))));
    assert_eq!(blocks[2].content_hash, hex8(code));
}

#[test]
fn heading_needs_space_and_at_most_six_hashes() {
    let b = extract_blocks("#nospace\n####### seven\n  ## indented", "x");
    assert_eq!(b.len(), 2);
    assert_eq!(b[0].block_type, "paragraph");
    assert_eq!(b[0].content, "#nospace\n####### seven");
    assert_eq!(b[1].block_type, "heading");
    assert_eq!(b[1].level, Some(2));
    assert_eq!(b[1].content, "## indented");
}

#[test]
fn unclosed_fence_runs_to_end() {
    let b = extract_blocks("```\ncode\n\nmore", "x");
    assert_eq!(b.len(), 1);
    assert_eq!(b[0].block_type, "code");
    assert_eq!(b[0].content, "```\ncode\n\nmore");
}

#[test]
fn long_content_is_cut_to_200_chars() {
    let body = "x".repeat(250);
    let b = extract_blocks(&body, "x");
    assert_eq!(b[0].content.chars().count(), 200);
    assert_eq!(b[0].content_hash, hex8(&body));
}

#[test]
fn empty_body_has_no_blocks() {
    assert!(extract_blocks("", "x").is_empty());
    assert!(extract_blocks(" \n\t\n", "x").is_empty());
}

#[test]
fn links_of_a_note() {
    let blocks = extract_blocks_pub(NOTE, "n.md");
    let links = extract_links_pub(NOTE, &blocks);
    let summary: Vec<(&str, &str, Option<&str>)> = links
        .iter()
        .map(|l| (l.link_type.as_str(), l.to_alias.as_str(), l.to_block_id.as_deref()))
        .collect();
    assert_eq!(
        summary,
        vec![
            ("transclusion", "Embedded", None),
            ("wiki", "Other Note", None),
            ("wiki", "Target", Some("Section")),
            ("block_ref", "blk_abc123", Some("blk_abc123")),
        ]
    );
    // the wiki link sits in the first paragraph block
    assert_eq!(links[1].from_block_id.as_deref(), Some(blocks[1].id.as_str()));
    assert_eq!(links[1].context, "# Title  First paragraph with [[Other Note]] link. Second line.  ```rust fn main() {");
}

#[test]
fn repeated_links_in_one_block_are_kept_once() {
    let body = "[[A]] and [[A]] and [[A|other]]\n\n[[A]]";
    let blocks = extract_blocks(body, "n");
    let links = extract_links(body, &blocks);
    assert_eq!(links.len(), 2);
    assert_eq!(links[0].from_block_id.as_deref(), Some(blocks[0].id.as_str()));
    assert_eq!(links[1].from_block_id.as_deref(), Some(blocks[1].id.as_str()));
}

#[test]
fn links_without_blocks_have_no_source_block() {
    let links = extract_links("see [[X]]", &[]);
    assert_eq!(links.len(), 1);
    assert_eq!(links[0].from_block_id, None);
    assert_eq!(links[0].context, "see [[X]]");
}

#[test]
fn context_is_cut_at_char_boundaries() {
    let body = format!("{}[[X]]{}", "é".repeat(30), "中".repeat(30));
    let links = extract_links(&body, &[]);
    // 40 bytes before: 20 two-byte characters; 40 bytes after: 14 three-byte characters (42 bytes)
    assert_eq!(links[0].context, format!("{}[[X]]{}", "é".repeat(20), "中".repeat(14)));
}

#[test]
fn wikilink_target_parts() {
    assert_eq!(parse_wikilink_target("Note"), ("Note".to_string(), None, None));
    assert_eq!(parse_wikilink_target("Note # Sec "), ("Note".to_string(), Some("Sec".to_string()), None));
    assert_eq!(parse_wikilink_target("Note#Sec^blk"), ("Note".to_string(), None, Some("blk".to_string())));
    assert_eq!(parse_wikilink_target("#^b"), ("".to_string(), None, Some("b".to_string())));
}

#[test]
fn block_ids_do_not_depend_on_the_note() {
    let a = extract_blocks(NOTE, "n.md");
    let b = extract_blocks(NOTE, "elsewhere/other.md");
    assert_eq!(a.len(), b.len());
    for (x, y) in a.iter().zip(b.iter()) {
        assert_eq!(x.id, y.id);
        assert_eq!(x.content_hash, y.content_hash);
        assert_ne!(x.note_id, y.note_id);
    }
}

#[test]
fn block_ids_survive_edits_further_down() {
    let p = "# Title\n\nFirst paragraph.\n\n```\ncode\n```\n- a\n- b";
    let head = extract_blocks(&format!("{}\n\n", p), "n.md");
    let one = extract_blocks(&format!("{}\n\nTail one.\n\n> quote", p), "n.md");
    let two = extract_blocks(&format!("{}\n\n- changed list\n```\nopen", p), "other.md");
    assert_eq!(head.len(), 4);
    for (j, h) in head.iter().enumerate() {
        for b in [&one[j], &two[j]] {
            assert_eq!((&h.id, &h.block_type, h.level, &h.content, &h.content_hash, h.order_index),
                (&b.id, &b.block_type, b.level, &b.content, &b.content_hash, b.order_index));
        }
    }
}

#[test]
fn block_ids_and_hashes_have_their_form() {
    let long = format!("{}\n", "word ".repeat(100));
    let body = format!("{}\n\n{}", NOTE, long);
    for b in extract_blocks(&body, "n.md") {
        assert_eq!(b.id.chars().count(), 12);
        assert!(b.id.starts_with("blk_"));
        assert!(b.id[4..].chars().all(|c| c.is_ascii_digit() || ('a'..='f').contains(&c)));
        assert_eq!(b.content_hash.chars().count(), 8);
        assert!(b.content_hash.chars().all(|c| c.is_ascii_digit() || ('a'..='f').contains(&c)));
        assert!(b.content.chars().count() <= 200);
        assert_eq!(b.content, b.content.trim());
    }
}
