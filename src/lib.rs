//! A set of words kept in a character-level prefix tree: insertion, exact
//! lookup, sorted listing (of all words or of those with a given prefix) and
//! counts of the stored words and of the tree's letters.

pub mod level;
pub mod lex;
pub mod listing;
pub mod prefix_tree;
pub mod text;
pub mod words;

pub use level::{Letter, Level};
pub use prefix_tree::{Case, PrefixNotFound, PrefixTree};
