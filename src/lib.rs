use vstd::prelude::*;

pub mod binary_search_tree;
pub mod bitmap;
pub mod diva;
pub mod infix_store;
pub mod utils;
pub mod x_fast_trie;
pub mod y_fast_trie;

pub use binary_search_tree::BinarySearchTreeGroup;
pub use bitmap::{get_bit, rank, select, set_bit};
pub use diva::Diva;
pub use infix_store::InfixStore;
pub use x_fast_trie::{RepNode, XFastLevel, XFastTrie, XFastValue};
pub use y_fast_trie::YFastTrie;

verus! {

/// Keys are fixed-width unsigned integers.
pub type Key = u64;

/// Number of bits in a key.
pub const U64_BITS: usize = 64;

} // verus!
