//! A citation engine for documentation comments.
//!
//! Source files are split into alternating runs of documentation-comment
//! lines and opaque code lines.  Comment runs may reference bibliography
//! entries through inline markers of the form `[^@key]`; the engine collects
//! those keys, and appends one rendered footnote line per resolvable key at
//! the end of each comment run.  Footnote lines written by an earlier run of
//! the engine are recognized and dropped while parsing, so the whole process
//! is idempotent.

mod bib;
mod block;
mod file;
mod laws;
mod pattern;

pub use laws::lemma_round_trip;
pub use laws::lemma_cite_idempotent;
pub use laws::lemma_batch_union;
pub use laws::cited_lines;
pub use laws::all_lines;
pub use laws::maximal_runs;
pub use laws::resolvable_count;
pub use laws::maximal_runs_from;
pub use laws::lemma_footnote_defs_excluded;
pub use laws::lemma_build_comment_keys;
pub use laws::lemma_key_order_canonical;
pub use laws::lemma_add_keys_props;
pub use laws::lemma_blank_line_policy;
pub use laws::lemma_block_alternation;
pub use laws::lemma_missing_key_omitted;
pub use laws::lemma_cite_footnote_is_generic;
pub use laws::lemma_file_keys_union;

pub use file::File;
pub use file::FileView;
pub use file::parse;
pub use file::file_keys;
pub use file::cite_blocks;
pub use file::blocks_text;
pub use file::join_lines;

pub use block::Block;
pub use block::BlockType;
pub use block::BlockView;
pub use block::Code;
pub use block::CodeView;
pub use block::Comment;
pub use block::CommentView;

pub use bib::CitationMap;
pub use bib::Key;
pub use bib::KeySet;
pub use bib::StyleError;
pub use bib::scan_for_key;
pub use bib::collect_keys;
pub use bib::batch_keys;
pub use bib::add_keys;
pub use bib::sorted_insert;
pub use bib::sorted_strict;

pub use pattern::is_comment_line;
pub use pattern::is_cite_footnote;
pub use pattern::is_generic_footnote;
pub use pattern::comment_prefix;
pub use pattern::scan_keys;
pub use pattern::lex_lt;
pub use pattern::line_is_comment;
pub use pattern::line_is_cite_footnote;
pub use pattern::line_is_generic_footnote;
pub use pattern::comment_prefix_of;
