//! Applying SEARCH/REPLACE edit blocks to source text, with a ladder of
//! matching strategies: exact lines, re-indented lines, elided segments,
//! fuzzy line windows and syntax-tree declarations.
pub mod text;
pub mod lines;
pub mod indent;
pub mod elision;
pub mod blocks;
pub mod fuzzy;
pub mod chunk;
pub mod syntax;
pub mod patch;

pub use blocks::parse_diff_blocks;
pub use chunk::replace_most_similar_chunk;
pub use elision::try_dotdotdots;
pub use fuzzy::{find_closest_match_context, replace_closest_edit_distance};
pub use indent::{match_but_for_leading_whitespace, replace_part_with_missing_leading_whitespace};
pub use lines::{perfect_replace, prep};
pub use syntax::{
    find_declared_entities, find_matching_node, parse_syntax_tree, replace_via_ast_fallback,
    SyntaxNode, SyntaxTree,
};
