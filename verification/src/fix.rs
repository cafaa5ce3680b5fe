//! Repair of ill-formed UTF-8: every ill-formed character gives way to one
//! U+FFFD, and everything else stays as it is.

use vstd::prelude::*;
use crate::helpers::{classify, CodeUnit, DecodeErr};
use crate::validate::{
    chain, continuation_run, continuations_after, lemma_append_chain,
    lemma_continuation_run_bounds, lemma_first_error_chain, scalar_at, validate, validate_from,
    well_formed,
};

verus! {

/// U+FFFD REPLACEMENT CHARACTER in UTF-8.
pub open spec fn replacement() -> Seq<u8> {
    seq![0xEFu8, 0xBFu8, 0xBDu8]
}

/// How many bytes an ill-formed character at `pos` takes with it: the
/// offending byte alone where it cannot lead a character, the leading byte
/// and the continuation bytes that did follow it where some are missing, and
/// the whole character where its value is out of range or its form overlong.
pub open spec fn resync(bytes: Seq<u8>, pos: int, e: DecodeErr) -> int {
    match e {
        DecodeErr::InvalidCodeUnit => 1,
        DecodeErr::UnexpectedContinuation => 1,
        DecodeErr::IncompleteCharacter => 1 + continuation_run(
            bytes,
            pos + 1,
            classify(bytes[pos])->Ok_0.width() - 1,
        ),
        DecodeErr::InvalidCodePoint => classify(bytes[pos])->Ok_0.width(),
        DecodeErr::OverlongEncoding => classify(bytes[pos])->Ok_0.width(),
    }
}

/// The repaired form of `bytes` from `pos` on: well-formed characters are
/// kept, and each ill-formed one is replaced by U+FFFD.
pub open spec fn repaired(bytes: Seq<u8>, pos: int) -> Seq<u8>
    decreases bytes.len() - pos,
{
    if pos < 0 || pos >= bytes.len() {
        Seq::empty()
    } else {
        match scalar_at(bytes, pos) {
            Ok(n) => if n >= 1 && pos + n <= bytes.len() {
                bytes.subrange(pos, pos + n) + repaired(bytes, pos + n)
            } else {
                Seq::empty()
            },
            Err(e) => if resync(bytes, pos, e) >= 1 && pos + resync(bytes, pos, e) <= bytes.len() {
                replacement() + repaired(bytes, pos + resync(bytes, pos, e))
            } else {
                replacement()
            },
        }
    }
}

/// An ill-formed character takes at least one byte with it, and none from
/// beyond the end.
pub proof fn lemma_resync_bounds(bytes: Seq<u8>, pos: int)
    requires
        0 <= pos < bytes.len(),
        scalar_at(bytes, pos) is Err,
    ensures
        1 <= resync(bytes, pos, scalar_at(bytes, pos)->Err_0) <= 4,
        pos + resync(bytes, pos, scalar_at(bytes, pos)->Err_0) <= bytes.len(),
{
    match classify(bytes[pos]) {
        Err(_) => {},
        Ok(unit) => {
            lemma_continuation_run_bounds(bytes, pos + 1, unit.width() - 1);
            if unit != CodeUnit::Continuation && continuation_run(
                bytes,
                pos + 1,
                unit.width() - 1,
            ) >= unit.width() - 1 {
                crate::validate::lemma_continuation_run_full(bytes, pos + 1, unit.width() - 1);
            }
        },
    }
}

/// Repair leaves a chain of well-formed characters as it is.
pub proof fn lemma_repaired_chain(bytes: Seq<u8>, pos: int, end: int)
    requires
        0 <= pos <= end <= bytes.len(),
        chain(bytes, pos, end),
    ensures
        repaired(bytes, pos) == bytes.subrange(pos, end) + repaired(bytes, end),
    decreases end - pos,
{
    if pos < end {
        let n = scalar_at(bytes, pos)->Ok_0;
        lemma_repaired_chain(bytes, pos + n, end);
        assert(bytes.subrange(pos, pos + n) + bytes.subrange(pos + n, end) =~= bytes.subrange(
            pos,
            end,
        ));
        assert(repaired(bytes, pos) =~= bytes.subrange(pos, end) + repaired(bytes, end));
    } else {
        assert(bytes.subrange(pos, end) + repaired(bytes, end) =~= repaired(bytes, end));
    }
}

/// The replacement character is itself well-formed.
pub proof fn lemma_replacement_chain()
    ensures
        chain(replacement(), 0, 3),
{
    let r = replacement();
    reveal_with_fuel(continuation_run, 3);
    assert(r[0] == 0xEFu8 && r[1] == 0xBFu8 && r[2] == 0xBDu8);
    assert(classify(r[0]) == Ok::<CodeUnit, DecodeErr>(CodeUnit::TriplePrefix));
    assert(continuation_run(r, 1, 2) == 2);
    assert(scalar_at(r, 0) == Ok::<int, DecodeErr>(3));
    assert(chain(r, 3, 3));
}

/// Appends `input[from..to]` to `out`.
fn copy_range(out: &mut Vec<u8>, input: &Vec<u8>, from: usize, to: usize)
    requires
        from <= to <= input.len(),
    ensures
        final(out)@ == old(out)@ + input@.subrange(from as int, to as int),
{
    let mut i = from;
    while i < to
        invariant
            from <= i <= to <= input.len(),
            out@ == old(out)@ + input@.subrange(from as int, i as int),
        decreases to - i,
    {
        out.push(input[i]);
        i += 1;
        assert(out@ =~= old(out)@ + input@.subrange(from as int, i as int));
    }
    assert(out@ =~= old(out)@ + input@.subrange(from as int, to as int));
}

/// Number of bytes to pass over after the error `e` found at `pos`.
fn resync_len(input: &Vec<u8>, pos: usize, e: DecodeErr) -> (skip: usize)
    requires
        pos < input.len(),
        scalar_at(input@, pos as int) == Err::<int, DecodeErr>(e),
    ensures
        skip == resync(input@, pos as int, e),
        1 <= skip,
        pos + skip <= input.len(),
{
    proof {
        lemma_resync_bounds(input@, pos as int);
    }
    match e {
        DecodeErr::InvalidCodeUnit => 1,
        DecodeErr::UnexpectedContinuation => 1,
        DecodeErr::IncompleteCharacter => {
            match CodeUnit::try_from(input[pos]) {
                Ok(code_unit) => 1 + continuations_after(
                    input.as_slice(),
                    pos,
                    code_unit.len() - 1,
                ),
                Err(_) => 1,
            }
        },
        _ => {
            match CodeUnit::try_from(input[pos]) {
                Ok(code_unit) => code_unit.len(),
                Err(_) => 1,
            }
        },
    }
}

/// Makes `input` well-formed UTF-8. Well-formed input comes back unchanged;
/// otherwise each ill-formed character is replaced by one U+FFFD and the
/// characters around it are kept.
pub fn fix(input: Vec<u8>) -> (fixed: Vec<u8>)
    ensures
        fixed@ == repaired(input@, 0),
        well_formed(fixed@),
        well_formed(input@) ==> fixed@ == input@,
{
    proof {
        lemma_first_error_chain(input@, 0);
        if well_formed(input@) {
            lemma_repaired_chain(input@, 0, input@.len() as int);
            assert(input@.subrange(0, input@.len() as int) =~= input@);
        }
    }
    match validate(input.as_slice()) {
        Ok(_) => input,
        Err(_) => {
            let mut fixed: Vec<u8> = Vec::with_capacity(input.len());
            let len = input.len();
            let mut pos: usize = 0;
            assert(fixed@ + repaired(input@, 0) =~= repaired(input@, 0));
            while pos < len
                invariant
                    pos <= len,
                    len == input.len(),
                    fixed@ + repaired(input@, pos as int) == repaired(input@, 0),
                    well_formed(fixed@),
                decreases len - pos,
            {
                proof {
                    lemma_first_error_chain(input@, pos as int);
                }
                match validate_from(input.as_slice(), pos) {
                    Ok(_) => {
                        proof {
                            lemma_repaired_chain(input@, pos as int, len as int);
                            lemma_append_chain(fixed@, input@, pos as int, len as int);
                        }
                        copy_range(&mut fixed, &input, pos, len);
                        pos = len;
                    },
                    Err((decode_err, err_pos)) => {
                        let skip = resync_len(&input, err_pos, decode_err);
                        proof {
                            lemma_repaired_chain(input@, pos as int, err_pos as int);
                            lemma_append_chain(fixed@, input@, pos as int, err_pos as int);
                            lemma_replacement_chain();
                            lemma_append_chain(
                                fixed@ + input@.subrange(pos as int, err_pos as int),
                                replacement(),
                                0,
                                3,
                            );
                            assert(replacement().subrange(0, 3) =~= replacement());
                        }
                        let ghost before = fixed@;
                        copy_range(&mut fixed, &input, pos, err_pos);
                        fixed.push(0xEF);
                        fixed.push(0xBF);
                        fixed.push(0xBD);
                        assert(fixed@ =~= before + input@.subrange(pos as int, err_pos as int)
                            + replacement());
                        pos = err_pos + skip;
                    },
                }
            }
            fixed
        },
    }
}

} // verus!
