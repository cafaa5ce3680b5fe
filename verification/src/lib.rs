//! Unicode text processing over tables of character properties: UTF-8
//! validation and repair, canonical normalization, default case
//! operations, grapheme clusters and sort keys.

pub mod canonical;
pub mod case;
pub mod collation;
pub mod cp_iter;
pub mod error;
pub mod fix;
pub mod helpers;
pub mod json;
pub mod normalise;
pub mod order;
pub mod prefix;
pub mod segmentation;
pub mod trie;
pub mod ucd;
pub mod utf8;
pub mod validate;
