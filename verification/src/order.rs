//! Lexicographic order of number sequences.

use vstd::prelude::*;
use std::cmp::Ordering;
use crate::prefix::{
    common_prefix_len, common_prefix_u16, common_prefix_u32, ints_of_u16, ints_of_u32,
    lemma_common_prefix_equal, lemma_common_prefix_same,
};

verus! {

/// Lexicographic order: the first place at which the sequences differ
/// decides; where one ends first, the shorter is less.
pub open spec fn lex_order(a: Seq<int>, b: Seq<int>) -> Ordering {
    let n = common_prefix_len(a, b);
    if n < a.len() && n < b.len() {
        if a[n] < b[n] {
            Ordering::Less
        } else {
            Ordering::Greater
        }
    } else if a.len() < b.len() {
        Ordering::Less
    } else if a.len() == b.len() {
        Ordering::Equal
    } else {
        Ordering::Greater
    }
}

/// Two sequences compare equal exactly when they are the same sequence.
pub proof fn lemma_lex_order_equal(a: Seq<int>, b: Seq<int>)
    ensures
        lex_order(a, b) == Ordering::Equal <==> a == b,
{
    lemma_common_prefix_equal(a, b);
}

/// A sequence compares equal to itself.
pub proof fn lemma_lex_order_reflexive(a: Seq<int>)
    ensures
        lex_order(a, a) == Ordering::Equal,
{
    lemma_common_prefix_same(a);
}

/// Binary comparison of two sort keys.
pub fn compare(a: &Vec<u16>, b: &Vec<u16>) -> (order: Ordering)
    ensures
        order == lex_order(ints_of_u16(a@), ints_of_u16(b@)),
{
    let n = common_prefix_u16(a, b);
    if n < a.len() && n < b.len() {
        if a[n] < b[n] {
            Ordering::Less
        } else {
            Ordering::Greater
        }
    } else if a.len() < b.len() {
        Ordering::Less
    } else if a.len() == b.len() {
        Ordering::Equal
    } else {
        Ordering::Greater
    }
}

/// Lexicographic comparison of two codepoint sequences.
pub fn compare_code_points(a: &Vec<u32>, b: &Vec<u32>) -> (order: Ordering)
    ensures
        order == lex_order(ints_of_u32(a@), ints_of_u32(b@)),
{
    let n = common_prefix_u32(a, b);
    if n < a.len() && n < b.len() {
        if a[n] < b[n] {
            Ordering::Less
        } else {
            Ordering::Greater
        }
    } else if a.len() < b.len() {
        Ordering::Less
    } else if a.len() == b.len() {
        Ordering::Equal
    } else {
        Ordering::Greater
    }
}

} // verus!
