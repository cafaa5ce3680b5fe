//! Well-formedness as this library reads it is validity as `vstd::utf8`
//! defines it.

use vstd::prelude::*;
use vstd::utf8::{
    codepoint_width_2, codepoint_width_3, codepoint_width_4, length_of_first_codepoint,
    pop_first_scalar, valid_first_scalar, valid_utf8,
};
use crate::helpers::{classify, double_value, quad_value, triple_value, CodeUnit};
use crate::validate::{
    first_error, lemma_continuation_run_bounds, lemma_continuation_run_full,
    lemma_scalar_in_bounds, scalar_at, well_formed,
};

verus! {

/// The value of a two-byte character, taken out with masks and shifts, is
/// the value taken out with remainders and products.
proof fn lemma_double_bits(a: u8, b: u8)
    ensures
        codepoint_width_2(a, b) == double_value(a, b),
{
    assert((((a & 0x1F) as u32) << 6) | ((b & 0x3f) as u32) == ((a % 32) as u32) * 64 + ((b
        % 64) as u32)) by (bit_vector);
}

proof fn lemma_single_bits(a: u8)
    requires
        a <= 0x7F,
    ensures
        a & 0x7F == a,
{
    assert(a <= 0x7F ==> a & 0x7F == a) by (bit_vector);
}

proof fn lemma_triple_bits(a: u8, b: u8, c: u8)
    ensures
        codepoint_width_3(a, b, c) == triple_value(a, b, c),
{
    assert((((a & 0x0F) as u32) << 12) | (((b & 0x3f) as u32) << 6) | ((c & 0x3f) as u32) == ((a
        % 16) as u32) * 4096 + ((b % 64) as u32) * 64 + ((c % 64) as u32)) by (bit_vector);
}

proof fn lemma_quad_bits(a: u8, b: u8, c: u8, d: u8)
    ensures
        codepoint_width_4(a, b, c, d) == quad_value(a, b, c, d),
{
    assert((((a & 0x07) as u32) << 18) | (((b & 0x3f) as u32) << 12) | (((c & 0x3f) as u32) << 6)
        | ((d & 0x3f) as u32) == ((a % 8) as u32) * 262144 + ((b % 64) as u32) * 4096 + ((c
        % 64) as u32) * 64 + ((d % 64) as u32)) by (bit_vector);
}

/// A character is well-formed at `pos` exactly when what starts there is a
/// valid first scalar, and then both are of one length.
pub proof fn lemma_scalar_is_valid_first_scalar(bytes: Seq<u8>, pos: int)
    requires
        0 <= pos < bytes.len(),
    ensures
        scalar_at(bytes, pos) is Ok <==> valid_first_scalar(
            bytes.subrange(pos, bytes.len() as int),
        ),
        scalar_at(bytes, pos) is Ok ==> scalar_at(bytes, pos)->Ok_0 == length_of_first_codepoint(
            bytes.subrange(pos, bytes.len() as int),
        ),
{
    let rest = bytes.subrange(pos, bytes.len() as int);
    assert(rest[0] == bytes[pos]);
    assert(forall|k: int| 0 <= k < rest.len() ==> rest[k] == bytes[pos + k]);
    match classify(bytes[pos]) {
        Err(_) => {},
        Ok(unit) => {
            let w = unit.width();
            if unit != CodeUnit::Continuation {
                lemma_continuation_run_bounds(bytes, pos + 1, w - 1);
                lemma_continuation_run_full(bytes, pos + 1, w - 1);
                if w >= 2 && pos + w <= bytes.len() {
                    assert(rest[1] == bytes[pos + 1]);
                }
                if w >= 3 && pos + w <= bytes.len() {
                    assert(rest[2] == bytes[pos + 2]);
                }
                if w >= 4 && pos + w <= bytes.len() {
                    assert(rest[3] == bytes[pos + 3]);
                }
                if pos + w <= bytes.len() {
                    if w == 2 {
                        lemma_double_bits(bytes[pos], bytes[pos + 1]);
                    } else if w == 3 {
                        lemma_triple_bits(bytes[pos], bytes[pos + 1], bytes[pos + 2]);
                    } else if w == 4 {
                        lemma_quad_bits(
                            bytes[pos],
                            bytes[pos + 1],
                            bytes[pos + 2],
                            bytes[pos + 3],
                        );
                    } else {
                        lemma_single_bits(bytes[pos]);
                    }
                }
            }
        },
    }
}

/// From a boundary between characters on, the bytes are well-formed
/// exactly when the rest of the sequence is valid UTF-8.
pub proof fn lemma_well_formed_from(bytes: Seq<u8>, pos: int)
    requires
        0 <= pos <= bytes.len(),
    ensures
        first_error(bytes, pos) is None <==> valid_utf8(bytes.subrange(pos, bytes.len() as int)),
    decreases bytes.len() - pos,
{
    let rest = bytes.subrange(pos, bytes.len() as int);
    if pos < bytes.len() {
        lemma_scalar_is_valid_first_scalar(bytes, pos);
        if scalar_at(bytes, pos) is Ok {
            let n = scalar_at(bytes, pos)->Ok_0;
            lemma_scalar_in_bounds(bytes, pos);
            lemma_well_formed_from(bytes, pos + n);
            assert(pop_first_scalar(rest) =~= bytes.subrange(pos + n, bytes.len() as int));
        }
    }
}

/// A byte sequence is well-formed exactly when it is valid UTF-8.
pub proof fn lemma_well_formed_is_valid_utf8(bytes: Seq<u8>)
    ensures
        well_formed(bytes) <==> valid_utf8(bytes),
{
    lemma_well_formed_from(bytes, 0);
    assert(bytes.subrange(0, bytes.len() as int) =~= bytes);
}

} // verus!
