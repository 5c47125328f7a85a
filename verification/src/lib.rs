//! NoteVault core: markdown note parsing, link and block indexing,
//! flashcard extraction and scheduling bookkeeping.

pub mod text;
pub mod clock;
pub mod hashing;

pub mod blocks;
pub mod syntax;
pub mod links;
pub mod fsrs;
pub mod ai;
pub mod frontmatter;
pub mod notes;
pub mod cards;
pub mod index;
pub mod git;
pub mod publish;
pub mod vault;
pub mod test_helpers;
