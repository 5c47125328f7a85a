//! Entry points for checking the parsers directly, without a vault.

use vstd::prelude::*;
use crate::blocks::{blocks_of, extract_blocks, well_formed_block, Block};
use crate::cards::{card_id_shaped, card_views, cards_of, extract_cards, Card};
use crate::frontmatter::{cut_ok, frontmatter_parts, no_fields, parse_frontmatter, yaml_fields, Frontmatter};
use crate::links::{extract_links, ids_of, links_of, RawLink};

verus! {

/// The blocks of `body`, as `extract_blocks`.
pub fn extract_blocks_pub(body: &str, note_id: &str) -> (r: Vec<Block>)
    requires
        body@.len() < i64::MAX,
    ensures
        r@.len() == blocks_of(body@, note_id@).len(),
        forall|j: int| 0 <= j < r@.len() ==> (#[trigger] r@[j])@ == blocks_of(body@, note_id@)[j],
        forall|j: int| 0 <= j < r@.len() ==> well_formed_block(#[trigger] r@[j]@),
{
    extract_blocks(body, note_id)
}

/// The links of `body`, as `extract_links`.
pub fn extract_links_pub(body: &str, blocks: &[Block]) -> (r: Vec<RawLink>)
    ensures
        r@.len() == links_of(body@, ids_of(blocks@)).len(),
        forall|j: int| 0 <= j < r@.len() ==> (#[trigger] r@[j])@ == links_of(body@, ids_of(blocks@))[j],
{
    extract_links(body, blocks)
}

/// The header fields and body of `s`, as `parse_frontmatter`.
pub fn parse_test_frontmatter_pub(s: &str) -> (r: (Frontmatter, String))
    requires
        cut_ok(s@),
    ensures
        match frontmatter_parts(s@) {
            Some(p) => r.0@ == yaml_fields(p.0) && r.1@ == p.1,
            None => r.0@ == no_fields() && r.1@ == s@,
        },
{
    parse_frontmatter(s)
}

/// The cards of `body`, as `extract_cards`.
pub fn extract_cards_pub(body: &str, note_path: &str) -> (r: Vec<Card>)
    requires
        body@.len() < i64::MAX,
    ensures
        exists|now: i64| card_views(r@) == #[trigger] cards_of(body@, note_path@, now),
        forall|k: int| 0 <= k < r@.len() ==> card_id_shaped(#[trigger] r@[k].id@),
{
    extract_cards(body, note_path)
}

} // verus!
