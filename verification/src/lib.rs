//! Recovery of the key of a repeating-key substitution cipher.
//!
//! Letter frequencies rank, for each position of the key, the letters from
//! the most to the least likely. A key is then a vector of ranks, one per
//! position, and the search tries these vectors in an order that puts the
//! most likely keys first: level by level, where a level holds the vectors
//! that leave the most likely letter at all but a given number of positions.
//!
//! - [`counting`], [`mutation`] and [`enumeration`] say which vectors are
//!   tried and in which order, and prove what holds of that order.
//! - [`attempt_order`] hands the vectors out one at a time.
//! - [`codec`], [`cipher`], [`dictionary`], [`dict_tree`] and [`frequency`]
//!   hold the letters, the cipher and the word lists that a search works on.
//! - [`search`] tries the keys until a decryption starts with a known word.
//! - [`cache`] keeps word lists as JSON text.

pub mod counting;
pub mod mutation;
pub mod enumeration;
pub mod attempt_order;
pub mod codec;
pub mod cipher;
pub mod dict_tree;
pub mod dictionary;
pub mod frequency;
pub mod cache;
pub mod search;
