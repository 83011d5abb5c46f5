//! Search for groups of words whose letters are pairwise disjoint.
//!
//! Words are reduced to letter masks, the masks to a sorted set, the set to a
//! graph of disjoint pairs, and the graph is searched exhaustively for chains
//! of pairwise disjoint masks.

pub mod letters;
pub mod maskset;
pub mod graph;
pub mod search;

pub use graph::{build_graph, intersect_sorted};
pub use letters::{convert, encode_word, WORD_LEN};
pub use maskset::reduce;
pub use search::{search, search_from_seed};
