//! Well-formedness of UTF-8 byte sequences: where the first ill-formed
//! character starts, and what is wrong with it.

use vstd::prelude::*;
use crate::helpers::{
    classify, decode_double, decode_quad, decode_triple, double_value, is_valid_codepoint,
    quad_value, triple_value, valid_codepoint, CodeUnit, DecodeErr,
};

verus! {

/// A byte of the form `10xxxxxx`.
pub open spec fn is_continuation(byte: u8) -> bool {
    0x80 <= byte <= 0xBF
}

/// How many of the bytes at `from`, `from + 1`, ... are continuation bytes,
/// stopping at the first that is not, at the end of `bytes`, or after `limit`.
pub open spec fn continuation_run(bytes: Seq<u8>, from: int, limit: int) -> int
    decreases limit,
{
    if limit <= 0 || from < 0 || from >= bytes.len() || !is_continuation(bytes[from]) {
        0
    } else {
        1 + continuation_run(bytes, from + 1, limit - 1)
    }
}

/// The value packed into the character that `unit` leads at `pos`.
pub open spec fn value_at(bytes: Seq<u8>, pos: int, unit: CodeUnit) -> u32 {
    match unit {
        CodeUnit::SingleByte => bytes[pos] as u32,
        CodeUnit::DoublePrefix => double_value(bytes[pos], bytes[pos + 1]) as u32,
        CodeUnit::TriplePrefix => triple_value(bytes[pos], bytes[pos + 1], bytes[pos + 2]) as u32,
        CodeUnit::QuadPrefix => quad_value(
            bytes[pos],
            bytes[pos + 1],
            bytes[pos + 2],
            bytes[pos + 3],
        ) as u32,
        CodeUnit::Continuation => 0,
    }
}

/// A value is overlong for its leading unit when a shorter form would hold it.
pub open spec fn overlong(code_point: u32, unit: CodeUnit) -> bool {
    match unit {
        CodeUnit::SingleByte => false,
        CodeUnit::DoublePrefix => code_point < 0x0080,
        CodeUnit::TriplePrefix => code_point < 0x0800,
        CodeUnit::QuadPrefix => code_point < 0x10000,
        CodeUnit::Continuation => false,
    }
}

/// The character that starts at `pos`: its length in bytes if it is
/// well-formed, and otherwise what is wrong with it. The checks come in a
/// fixed order: the leading byte, the continuation bytes, the range of the
/// value, the length of its form.
pub open spec fn scalar_at(bytes: Seq<u8>, pos: int) -> Result<int, DecodeErr> {
    match classify(bytes[pos]) {
        Err(e) => Err(e),
        Ok(unit) => if unit == CodeUnit::Continuation {
            Err(DecodeErr::UnexpectedContinuation)
        } else if continuation_run(bytes, pos + 1, unit.width() - 1) < unit.width() - 1 {
            Err(DecodeErr::IncompleteCharacter)
        } else if !valid_codepoint(value_at(bytes, pos, unit)) {
            Err(DecodeErr::InvalidCodePoint)
        } else if overlong(value_at(bytes, pos, unit), unit) {
            Err(DecodeErr::OverlongEncoding)
        } else {
            Ok(unit.width())
        },
    }
}

/// The first ill-formed character at or after `pos`, reading characters one
/// after another from `pos`: its error and the offset of its first byte.
/// `None` when everything from `pos` on is well-formed.
pub open spec fn first_error(bytes: Seq<u8>, pos: int) -> Option<(DecodeErr, int)>
    decreases bytes.len() - pos,
{
    if pos < 0 || pos >= bytes.len() {
        None
    } else {
        match scalar_at(bytes, pos) {
            Err(e) => Some((e, pos)),
            Ok(n) => if n >= 1 && pos + n <= bytes.len() {
                first_error(bytes, pos + n)
            } else {
                None
            },
        }
    }
}

/// A byte sequence is well-formed UTF-8 when it has no first error.
pub open spec fn well_formed(bytes: Seq<u8>) -> bool {
    first_error(bytes, 0) is None
}

/// A run is no longer than its limit and ends inside the sequence.
pub proof fn lemma_continuation_run_bounds(bytes: Seq<u8>, from: int, limit: int)
    ensures
        0 <= continuation_run(bytes, from, limit),
        continuation_run(bytes, from, limit) <= limit || limit < 0,
        from >= 0 ==> from + continuation_run(bytes, from, limit) <= bytes.len() || from
            >= bytes.len(),
    decreases limit,
{
    if limit <= 0 || from < 0 || from >= bytes.len() || !is_continuation(bytes[from]) {
    } else {
        lemma_continuation_run_bounds(bytes, from + 1, limit - 1);
    }
}

/// A full run means that every byte in it is a continuation byte.
pub proof fn lemma_continuation_run_full(bytes: Seq<u8>, from: int, limit: int)
    requires
        0 <= from <= bytes.len(),
        0 <= limit,
    ensures
        continuation_run(bytes, from, limit) == limit <==> (from + limit <= bytes.len()
            && forall|k: int| from <= k < from + limit ==> is_continuation(#[trigger] bytes[k])),
    decreases limit,
{
    if limit == 0 {
    } else if from >= bytes.len() || !is_continuation(bytes[from]) {
        lemma_continuation_run_bounds(bytes, from, limit);
        if from < bytes.len() {
            assert(!is_continuation(bytes[from]));
        }
    } else {
        lemma_continuation_run_full(bytes, from + 1, limit - 1);
        lemma_continuation_run_bounds(bytes, from + 1, limit - 1);
        if continuation_run(bytes, from + 1, limit - 1) == limit - 1 {
            assert forall|k: int| from <= k < from + limit implies is_continuation(
                #[trigger] bytes[k],
            ) by {
                if k > from {
                    assert(is_continuation(bytes[k]));
                }
            }
        }
    }
}

/// A well-formed character lies wholly inside the sequence.
pub proof fn lemma_scalar_in_bounds(bytes: Seq<u8>, pos: int)
    requires
        0 <= pos < bytes.len(),
        scalar_at(bytes, pos) is Ok,
    ensures
        1 <= scalar_at(bytes, pos)->Ok_0 <= 4,
        pos + scalar_at(bytes, pos)->Ok_0 <= bytes.len(),
{
    let unit = classify(bytes[pos])->Ok_0;
    lemma_continuation_run_bounds(bytes, pos + 1, unit.width() - 1);
    lemma_continuation_run_full(bytes, pos + 1, unit.width() - 1);
}

/// Well-formed characters lead from `pos` exactly to `end`.
pub open spec fn chain(bytes: Seq<u8>, pos: int, end: int) -> bool
    decreases end - pos,
{
    if pos >= end {
        pos == end
    } else {
        match scalar_at(bytes, pos) {
            Err(_) => false,
            Ok(n) => n >= 1 && pos + n <= end && chain(bytes, pos + n, end),
        }
    }
}

/// Up to the first error, and up to the end where there is none, the bytes
/// are a chain of well-formed characters; the error is that of the character
/// at its offset.
pub proof fn lemma_first_error_chain(bytes: Seq<u8>, pos: int)
    requires
        0 <= pos <= bytes.len(),
    ensures
        match first_error(bytes, pos) {
            Some((e, p)) => pos <= p < bytes.len() && chain(bytes, pos, p) && scalar_at(bytes, p)
                == Err::<int, DecodeErr>(e),
            None => chain(bytes, pos, bytes.len() as int),
        },
    decreases bytes.len() - pos,
{
    if pos < bytes.len() {
        match scalar_at(bytes, pos) {
            Err(e) => {},
            Ok(n) => {
                lemma_scalar_in_bounds(bytes, pos);
                lemma_first_error_chain(bytes, pos + n);
            },
        }
    }
}

/// A chain that reaches the end of the sequence leaves no error.
pub proof fn lemma_chain_well_formed(bytes: Seq<u8>, pos: int)
    requires
        0 <= pos,
        chain(bytes, pos, bytes.len() as int),
    ensures
        first_error(bytes, pos) is None,
    decreases bytes.len() - pos,
{
    if pos < bytes.len() {
        let n = scalar_at(bytes, pos)->Ok_0;
        lemma_chain_well_formed(bytes, pos + n);
    }
}

/// Whether a character is well-formed depends on its own bytes alone.
pub proof fn lemma_scalar_copy(a: Seq<u8>, pa: int, b: Seq<u8>, pb: int)
    requires
        0 <= pa < a.len(),
        0 <= pb,
        scalar_at(a, pa) is Ok,
        pb + scalar_at(a, pa)->Ok_0 <= b.len(),
        forall|k: int| 0 <= k < scalar_at(a, pa)->Ok_0 ==> #[trigger] b[pb + k] == a[pa + k],
    ensures
        scalar_at(b, pb) == scalar_at(a, pa),
{
    let unit = classify(a[pa])->Ok_0;
    let w = unit.width();
    lemma_scalar_in_bounds(a, pa);
    assert(b[pb + 0] == a[pa + 0]);
    lemma_continuation_run_bounds(a, pa + 1, w - 1);
    lemma_continuation_run_full(a, pa + 1, w - 1);
    lemma_continuation_run_full(b, pb + 1, w - 1);
    assert forall|k: int| pb + 1 <= k < pb + 1 + (w - 1) implies is_continuation(
        #[trigger] b[k],
    ) by {
        assert(b[pb + (k - pb)] == a[pa + (k - pb)]);
        assert(is_continuation(a[pa + (k - pb)]));
    }
    if w >= 2 {
        assert(b[pb + 1] == a[pa + 1]);
    }
    if w >= 3 {
        assert(b[pb + 2] == a[pa + 2]);
    }
    if w >= 4 {
        assert(b[pb + 3] == a[pa + 3]);
    }
}

/// A chain of characters copied into another sequence is a chain there.
pub proof fn lemma_chain_copy(a: Seq<u8>, pa: int, end: int, b: Seq<u8>, pb: int)
    requires
        0 <= pa <= end <= a.len(),
        0 <= pb,
        pb + (end - pa) <= b.len(),
        chain(a, pa, end),
        forall|k: int| 0 <= k < end - pa ==> #[trigger] b[pb + k] == a[pa + k],
    ensures
        chain(b, pb, pb + (end - pa)),
    decreases end - pa,
{
    if pa < end {
        let n = scalar_at(a, pa)->Ok_0;
        assert forall|k: int| 0 <= k < n implies #[trigger] b[pb + k] == a[pa + k] by {}
        lemma_scalar_copy(a, pa, b, pb);
        assert forall|k: int| 0 <= k < end - (pa + n) implies #[trigger] b[pb + n + k] == a[pa + n
            + k] by {
            assert(b[pb + (n + k)] == a[pa + (n + k)]);
        }
        lemma_chain_copy(a, pa + n, end, b, pb + n);
    }
}

/// Two chains, one after the other, are one chain.
pub proof fn lemma_chain_join(bytes: Seq<u8>, pos: int, mid: int, end: int)
    requires
        chain(bytes, pos, mid),
        chain(bytes, mid, end),
    ensures
        chain(bytes, pos, end),
    decreases mid - pos,
{
    if pos < mid {
        let n = scalar_at(bytes, pos)->Ok_0;
        lemma_chain_join(bytes, pos + n, mid, end);
    }
}

/// Appending a chain taken from `a` to a well-formed sequence keeps it
/// well-formed.
pub proof fn lemma_append_chain(front: Seq<u8>, a: Seq<u8>, pa: int, end: int)
    requires
        well_formed(front),
        0 <= pa <= end <= a.len(),
        chain(a, pa, end),
    ensures
        well_formed(front + a.subrange(pa, end)),
{
    let whole = front + a.subrange(pa, end);
    lemma_first_error_chain(front, 0);
    lemma_chain_copy(front, 0, front.len() as int, whole, 0);
    assert forall|k: int| 0 <= k < end - pa implies #[trigger] whole[front.len() + k] == a[pa
        + k] by {}
    lemma_chain_copy(a, pa, end, whole, front.len() as int);
    lemma_chain_join(whole, 0, front.len() as int, whole.len() as int);
    lemma_chain_well_formed(whole, 0);
}

/// Continuation bytes still to come after a leading unit.
fn bytes_remaining(code_unit: &CodeUnit) -> (n: usize)
    requires
        *code_unit != CodeUnit::Continuation,
    ensures
        n == code_unit.width() - 1,
{
    match code_unit {
        CodeUnit::SingleByte => 0,
        CodeUnit::DoublePrefix => 1,
        CodeUnit::TriplePrefix => 2,
        _ => 3,
    }
}

fn is_overlong(code_point: u32, code_unit: &CodeUnit) -> (long: bool)
    ensures
        long == overlong(code_point, *code_unit),
{
    match code_unit {
        CodeUnit::SingleByte => false,
        CodeUnit::DoublePrefix => code_point < 0x0080,
        CodeUnit::TriplePrefix => code_point < 0x0800,
        CodeUnit::QuadPrefix => code_point < 0x10000,
        CodeUnit::Continuation => false,
    }
}

/// Counts the continuation bytes that follow `pos`, up to `limit` of them.
pub(crate) fn continuations_after(input: &[u8], pos: usize, limit: usize) -> (seen: usize)
    requires
        pos < input.len(),
        limit <= 3,
    ensures
        seen == continuation_run(input@, pos + 1, limit as int),
        seen <= limit,
        pos + seen < input.len(),
{
    let mut seen: usize = 0;
    while seen < limit && pos + 1 + seen < input.len() && input[pos + 1 + seen] >= 0x80
        && input[pos + 1 + seen] <= 0xBF
        invariant
            seen <= limit <= 3,
            pos + seen < input.len(),
            continuation_run(input@, pos + 1, limit as int) == seen + continuation_run(
                input@,
                pos + 1 + seen,
                limit - seen,
            ),
        decreases limit - seen,
    {
        seen += 1;
    }
    seen
}

/// Reads the character that starts at `pos`.
pub(crate) fn scalar_len(input: &[u8], pos: usize) -> (result: Result<usize, DecodeErr>)
    requires
        pos < input.len(),
    ensures
        match result {
            Ok(n) => scalar_at(input@, pos as int) == Ok::<int, DecodeErr>(n as int) && 1 <= n
                <= 4 && pos + n <= input.len(),
            Err(e) => scalar_at(input@, pos as int) == Err::<int, DecodeErr>(e),
        },
{
    let code_unit = match CodeUnit::try_from(input[pos]) {
        Ok(unit) => unit,
        Err(e) => {
            return Err(e);
        },
    };
    match code_unit {
        CodeUnit::SingleByte => {
            Ok(1)
        },
        CodeUnit::Continuation => {
            Err(DecodeErr::UnexpectedContinuation)
        },
        _ => {
            let remaining = bytes_remaining(&code_unit);
            let seen = continuations_after(input, pos, remaining);
            if seen < remaining {
                return Err(DecodeErr::IncompleteCharacter);
            }
            let code_point = match code_unit {
                CodeUnit::DoublePrefix => decode_double(input[pos], input[pos + 1]),
                CodeUnit::TriplePrefix => decode_triple(
                    input[pos],
                    input[pos + 1],
                    input[pos + 2],
                ),
                _ => decode_quad(input[pos], input[pos + 1], input[pos + 2], input[pos + 3]),
            };
            if !is_valid_codepoint(code_point) {
                return Err(DecodeErr::InvalidCodePoint);
            }
            if is_overlong(code_point, &code_unit) {
                return Err(DecodeErr::OverlongEncoding);
            }
            Ok(1 + remaining)
        },
    }
}

/// Looks for the first ill-formed character at or after `start`, where
/// `start` is the first byte of a character.
pub fn validate_from(input: &[u8], start: usize) -> (result: Result<(), (DecodeErr, usize)>)
    requires
        start <= input.len(),
    ensures
        match result {
            Ok(_) => first_error(input@, start as int) is None,
            Err((e, p)) => first_error(input@, start as int) == Some((e, p as int)) && start <= p
                < input.len(),
        },
{
    let mut pos = start;
    let len = input.len();
    while pos < len
        invariant
            start <= pos <= len,
            len == input.len(),
            first_error(input@, pos as int) == first_error(input@, start as int),
        decreases len - pos,
    {
        match scalar_len(input, pos) {
            Ok(n) => {
                pos += n;
            },
            Err(e) => {
                return Err((e, pos));
            },
        }
    }
    Ok(())
}

/// Checks that `input` is well-formed UTF-8, which is to say valid UTF-8 as
/// `vstd::utf8` defines it. On failure, names what is wrong with the first
/// ill-formed character and the offset of its first byte.
pub fn validate(input: &[u8]) -> (result: Result<(), (DecodeErr, usize)>)
    ensures
        result is Ok <==> well_formed(input@),
        result is Ok <==> vstd::utf8::valid_utf8(input@),
        match result {
            Ok(_) => first_error(input@, 0) is None,
            Err((e, p)) => first_error(input@, 0) == Some((e, p as int)) && p < input.len(),
        },
{
    proof {
        crate::utf8::lemma_well_formed_is_valid_utf8(input@);
    }
    validate_from(input, 0)
}

} // verus!
