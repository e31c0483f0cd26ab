//! The `suggestions` library handles a simple, human-readable markup for
//! tracked edits: insertions, deletions and comments embedded in plain text
//! with bracket tags (`++[ ]++`, `--[ ]--`, `%%[ ]%%`).
//!
//! A document is parsed into a tree of [`Node`] values, which can then be
//! rendered with all edits accepted, all edits rejected, re-serialized
//! literally, colorized for a terminal, or decorated by a caller-supplied
//! policy. A tree can also be built directly from a word-level diff of two
//! document versions.

mod chars;
mod color;
mod diff;
mod laws;
mod node;
mod parser;
mod roundtrip;
mod visit;

pub use color::ColorName;
pub use color::ColorPiece;
pub use node::Chunk;
pub use node::Node;
pub use node::NodeKind;
pub use node::closer;
pub use node::opener;
pub use diff::DiffTag;
pub use diff::make_node_from_diffs;
pub use diff::make_suggestions_from_diff;
pub use parser::ParseError;
pub use parser::make_node_from_string;
pub use parser::make_node_from_string_with_warnings;
pub use visit::DecoratePolicy;
pub use visit::HtmlPolicy;
pub use visit::RenderError;
pub use visit::TexPolicy;
pub use laws::lemma_accept_reject_of_diff_tree;
pub use laws::lemma_comment_invisibility;
pub use laws::lemma_comment_nesting_rejected;
pub use laws::lemma_parse_wf;
pub use roundtrip::lemma_no_newline_strip_free;
pub use roundtrip::lemma_parse_round_trip;
pub use roundtrip::lemma_round_trip;
