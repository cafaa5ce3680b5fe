//! Default case operations: lowercase, uppercase, case folding and
//! canonical caseless comparison. None of them looks at a locale.

use vstd::prelude::*;
use std::cmp::Ordering;
use crate::helpers::{all_valid_codepoints, valid_codepoint};
use crate::normalise::{decompose, decomposed, nfd, to_nfd};
use crate::order::{compare_code_points, lemma_lex_order_equal, lex_order};
use crate::prefix::ints_of_u32;
use crate::ucd::{
    case_folding, case_ignorable, cased, lowercase_mapping, uppercase_mapping, Ucd,
};

verus! {

/// A cased codepoint stands before `at`, with nothing but case-ignorable
/// codepoints between them.
pub open spec fn cased_before(ucd: &Ucd, code_points: Seq<u32>, at: int) -> bool {
    exists|j: int|
        0 <= j < at && at <= code_points.len() && !ucd.is_case_ignorable(
            #[trigger] code_points[j],
        ) && ucd.is_cased(code_points[j]) && forall|k: int|
            j < k < at ==> ucd.is_case_ignorable(#[trigger] code_points[k])
}

/// A cased codepoint stands behind `at`, with nothing but case-ignorable
/// codepoints between them.
pub open spec fn cased_after(ucd: &Ucd, code_points: Seq<u32>, at: int) -> bool {
    exists|j: int|
        0 <= at < j < code_points.len() && !ucd.is_case_ignorable(#[trigger] code_points[j])
            && ucd.is_cased(code_points[j]) && forall|k: int|
            at < k < j ==> ucd.is_case_ignorable(#[trigger] code_points[k])
}

/// The sigma at `at` ends a word: a cased letter comes before it and none
/// after it, case-ignorable codepoints not counted.
pub open spec fn final_sigma(ucd: &Ucd, code_points: Seq<u32>, at: int) -> bool {
    cased_before(ucd, code_points, at) && !cased_after(ucd, code_points, at)
}

/// The lowercase of the codepoint at `at`.
pub open spec fn lower_at(ucd: &Ucd, code_points: Seq<u32>, at: int) -> Seq<u32> {
    let code_point = code_points[at];
    if code_point == 0x0130 {
        seq![0x0069u32, 0x0307u32]
    } else if code_point == 0x03A3 {
        if final_sigma(ucd, code_points, at) {
            seq![0x03C2u32]
        } else {
            seq![0x03C3u32]
        }
    } else {
        match ucd.lower(code_point) {
            Some(lower) => seq![lower],
            None => seq![code_point],
        }
    }
}

/// The lowercase of the first `upto` codepoints of a sequence.
pub open spec fn lowercased_upto(ucd: &Ucd, code_points: Seq<u32>, upto: int) -> Seq<u32>
    decreases upto,
{
    if upto <= 0 {
        Seq::empty()
    } else {
        lowercased_upto(ucd, code_points, upto - 1) + lower_at(ucd, code_points, upto - 1)
    }
}

/// The lowercase of a sequence.
pub open spec fn lowercased(ucd: &Ucd, code_points: Seq<u32>) -> Seq<u32> {
    lowercased_upto(ucd, code_points, code_points.len() as int)
}

/// The uppercase of a codepoint: its mapping, or the codepoint itself.
pub open spec fn upper_of(ucd: &Ucd, code_point: u32) -> Seq<u32> {
    match ucd.upper(code_point) {
        Some(upper) => upper,
        None => seq![code_point],
    }
}

/// The uppercase of a sequence.
pub open spec fn uppercased(ucd: &Ucd, code_points: Seq<u32>) -> Seq<u32>
    decreases code_points.len(),
{
    if code_points.len() == 0 {
        Seq::empty()
    } else {
        uppercased(ucd, code_points.drop_last()) + upper_of(ucd, code_points.last())
    }
}

/// The codepoints whose decomposition holds U+0345 COMBINING GREEK
/// YPOGEGRAMMENI.
pub open spec fn holds_ypogegrammeni(code_point: u32) -> bool {
    ||| 0x1F80 <= code_point <= 0x1FAF
    ||| 0x1FB2 <= code_point <= 0x1FB4
    ||| code_point == 0x1FB7
    ||| code_point == 0x1FBC
    ||| 0x1FC2 <= code_point <= 0x1FC4
    ||| code_point == 0x1FC7
    ||| code_point == 0x1FCC
    ||| 0x1FF2 <= code_point <= 0x1FF4
    ||| code_point == 0x1FF7
    ||| code_point == 0x1FFC
}

/// The folding of a codepoint: its mapping, or the codepoint itself.
pub open spec fn fold_of(ucd: &Ucd, code_point: u32) -> Seq<u32> {
    match ucd.folding(code_point) {
        Some(folded) => folded,
        None => seq![code_point],
    }
}

/// The foldings of the codepoints of a sequence, one after another.
pub open spec fn folded_each(ucd: &Ucd, code_points: Seq<u32>) -> Seq<u32>
    decreases code_points.len(),
{
    if code_points.len() == 0 {
        Seq::empty()
    } else {
        folded_each(ucd, code_points.drop_last()) + fold_of(ucd, code_points.last())
    }
}

/// The case folding of a sequence: each codepoint folded, those that hold
/// an ypogegrammeni decomposed first.
pub open spec fn case_folded(ucd: &Ucd, code_points: Seq<u32>) -> Seq<u32>
    decreases code_points.len(),
{
    if code_points.len() == 0 {
        Seq::empty()
    } else {
        case_folded(ucd, code_points.drop_last()) + if holds_ypogegrammeni(code_points.last()) {
            folded_each(ucd, decomposed(ucd, code_points.last()))
        } else {
            fold_of(ucd, code_points.last())
        }
    }
}

/// What canonical caseless matching compares.
pub open spec fn caseless_key(ucd: &Ucd, code_points: Seq<u32>) -> Seq<u32> {
    nfd(ucd, case_folded(ucd, nfd(ucd, code_points)))
}

/// Two sequences match canonically and caselessly exactly when their keys
/// are the same.
pub proof fn lemma_caseless_match_equal(ucd: &Ucd, x: Seq<u32>, y: Seq<u32>)
    ensures
        lex_order(ints_of_u32(caseless_key(ucd, x)), ints_of_u32(caseless_key(ucd, y)))
            == Ordering::Equal <==> caseless_key(ucd, x) == caseless_key(ucd, y),
{
    let a = caseless_key(ucd, x);
    let b = caseless_key(ucd, y);
    lemma_lex_order_equal(ints_of_u32(a), ints_of_u32(b));
    if ints_of_u32(a) == ints_of_u32(b) {
        assert(a.len() == ints_of_u32(a).len());
        assert(b.len() == ints_of_u32(b).len());
        assert forall|i: int| 0 <= i < a.len() implies a[i] == b[i] by {
            assert(ints_of_u32(a)[i] == ints_of_u32(b)[i]);
        }
        assert(a =~= b);
    }
}

/// Canonical caseless matching does not tell a sequence from its composed
/// form.
pub proof fn lemma_caseless_key_of_composed(ucd: &Ucd, code_points: Seq<u32>)
    requires
        ucd.wf(),
    ensures
        caseless_key(ucd, crate::normalise::nfc(ucd, code_points)) == caseless_key(
            ucd,
            code_points,
        ),
{
    crate::canonical::lemma_nfd_of_nfc(ucd, code_points);
}

/// Whether the sigma at `sigma_pos` ends a word.
fn is_final_sigma(ucd: &Ucd, code_points: &Vec<u32>, sigma_pos: usize) -> (is: bool)
    requires
        sigma_pos < code_points.len(),
    ensures
        is == final_sigma(ucd, code_points@, sigma_pos as int),
{
    let mut before: usize = sigma_pos;
    while before > 0 && case_ignorable(ucd, code_points[before - 1])
        invariant
            before <= sigma_pos < code_points@.len(),
            forall|k: int| before <= k < sigma_pos ==> ucd.is_case_ignorable(
                #[trigger] code_points@[k],
            ),
        decreases before,
    {
        before -= 1;
    }
    let prev_char_cased = before > 0 && cased(ucd, code_points[before - 1]);
    proof {
        if prev_char_cased {
            assert(!ucd.is_case_ignorable(code_points@[before - 1]));
        } else {
            assert forall|j: int|
                !(0 <= j < sigma_pos && !ucd.is_case_ignorable(#[trigger] code_points@[j])
                    && ucd.is_cased(code_points@[j]) && forall|k: int|
                    j < k < sigma_pos ==> ucd.is_case_ignorable(#[trigger] code_points@[k])) by {
                if 0 <= j < sigma_pos && !ucd.is_case_ignorable(code_points@[j]) {
                    if j < before - 1 {
                        assert(!ucd.is_case_ignorable(code_points@[before - 1]));
                    }
                }
            }
        }
    }
    if !prev_char_cased {
        return false;
    }
    let mut after: usize = sigma_pos + 1;
    while after < code_points.len() && case_ignorable(ucd, code_points[after])
        invariant
            sigma_pos < after <= code_points@.len(),
            forall|k: int| sigma_pos < k < after ==> ucd.is_case_ignorable(
                #[trigger] code_points@[k],
            ),
        decreases code_points.len() - after,
    {
        after += 1;
    }
    let next_char_cased = after < code_points.len() && cased(ucd, code_points[after]);
    proof {
        if next_char_cased {
            assert(!ucd.is_case_ignorable(code_points@[after as int]));
        } else {
            assert forall|j: int|
                !(sigma_pos < j < code_points@.len() && !ucd.is_case_ignorable(
                    #[trigger] code_points@[j],
                ) && ucd.is_cased(code_points@[j]) && forall|k: int|
                    sigma_pos < k < j ==> ucd.is_case_ignorable(#[trigger] code_points@[k])) by {
                if sigma_pos < j < code_points@.len() && !ucd.is_case_ignorable(code_points@[j]) {
                    if j > after {
                        assert(!ucd.is_case_ignorable(code_points@[after as int]));
                    }
                }
            }
        }
    }
    !next_char_cased
}

/// The lowercase of a sequence. A capital sigma becomes a final sigma
/// where it ends a word, and a capital I with dot above becomes an i and a
/// combining dot.
pub fn to_lowercase(ucd: &Ucd, code_points: Vec<u32>) -> (out: Vec<u32>)
    ensures
        out@ == lowercased(ucd, code_points@),
        all_valid_codepoints(code_points@) ==> all_valid_codepoints(out@),
{
    let mut pos: usize = 0;
    let len = code_points.len();
    let mut out: Vec<u32> = Vec::with_capacity(len);
    while pos < len
        invariant
            pos <= len,
            len == code_points.len(),
            out@ == lowercased_upto(ucd, code_points@, pos as int),
            all_valid_codepoints(code_points@) ==> all_valid_codepoints(out@),
        decreases len - pos,
    {
        let code_point = code_points[pos];
        proof {
            use_type_invariant(ucd);
            ucd.lemma_case_valid(code_point);
        }
        if code_point == 0x0130 {
            out.push(0x0069);
            out.push(0x0307);
        } else if code_point == 0x03A3 {
            out.push(
                if is_final_sigma(ucd, &code_points, pos) {
                    0x03C2
                } else {
                    0x03C3
                },
            );
        } else {
            out.push(
                match lowercase_mapping(ucd, code_point) {
                    Some(lower) => lower,
                    None => code_point,
                },
            );
        }
        pos += 1;
        assert(out@ =~= lowercased_upto(ucd, code_points@, pos - 1) + lower_at(
            ucd,
            code_points@,
            pos - 1,
        ));
    }
    out
}

/// The uppercase of a sequence.
pub fn to_uppercase(ucd: &Ucd, code_points: Vec<u32>) -> (out: Vec<u32>)
    ensures
        out@ == uppercased(ucd, code_points@),
        all_valid_codepoints(code_points@) ==> all_valid_codepoints(out@),
{
    let mut out: Vec<u32> = Vec::with_capacity(code_points.len());
    let mut i: usize = 0;
    while i < code_points.len()
        invariant
            i <= code_points@.len(),
            out@ == uppercased(ucd, code_points@.take(i as int)),
            all_valid_codepoints(code_points@) ==> all_valid_codepoints(out@),
        decreases code_points.len() - i,
    {
        let code_point = code_points[i];
        proof {
            use_type_invariant(ucd);
            ucd.lemma_case_valid(code_point);
            assert(code_points@.take(i + 1).drop_last() =~= code_points@.take(i as int));
            assert(code_points@.take(i + 1).last() == code_point);
        }
        match uppercase_mapping(ucd, code_point) {
            Some(mut mapping) => {
                out.append(&mut mapping);
            },
            None => {
                out.push(code_point);
                assert(out@ =~= uppercased(ucd, code_points@.take(i as int)) + seq![code_point]);
            },
        }
        i += 1;
    }
    assert(code_points@.take(i as int) =~= code_points@);
    out
}

/// Appends the folding of one codepoint to `out`.
fn fold_into(ucd: &Ucd, out: &mut Vec<u32>, code_point: u32)
    ensures
        final(out)@ == old(out)@ + fold_of(ucd, code_point),
        all_valid_codepoints(old(out)@) && valid_codepoint(code_point) ==> all_valid_codepoints(
            final(out)@,
        ),
{
    proof {
        use_type_invariant(ucd);
        ucd.lemma_case_valid(code_point);
    }
    match case_folding(ucd, code_point) {
        Some(mut mapping) => {
            out.append(&mut mapping);
        },
        None => {
            out.push(code_point);
            assert(out@ =~= old(out)@ + seq![code_point]);
        },
    }
}

fn has_ypogegrammeni(code_point: u32) -> (has: bool)
    ensures
        has == holds_ypogegrammeni(code_point),
{
    (0x1F80 <= code_point && code_point <= 0x1FAF) || (0x1FB2 <= code_point && code_point
        <= 0x1FB4) || code_point == 0x1FB7 || code_point == 0x1FBC || (0x1FC2 <= code_point
        && code_point <= 0x1FC4) || code_point == 0x1FC7 || code_point == 0x1FCC || (0x1FF2
        <= code_point && code_point <= 0x1FF4) || code_point == 0x1FF7 || code_point == 0x1FFC
}

/// The case folding of a sequence, for comparing without regard to case.
/// The result is not normalized.
pub fn case_fold(ucd: &Ucd, code_points: &Vec<u32>) -> (out: Vec<u32>)
    ensures
        out@ == case_folded(ucd, code_points@),
        all_valid_codepoints(code_points@) ==> all_valid_codepoints(out@),
{
    let mut out: Vec<u32> = Vec::with_capacity(code_points.len());
    let mut i: usize = 0;
    while i < code_points.len()
        invariant
            i <= code_points@.len(),
            out@ == case_folded(ucd, code_points@.take(i as int)),
            all_valid_codepoints(code_points@) ==> all_valid_codepoints(out@),
        decreases code_points.len() - i,
    {
        let code_point = code_points[i];
        proof {
            assert(code_points@.take(i + 1).drop_last() =~= code_points@.take(i as int));
            assert(code_points@.take(i + 1).last() == code_point);
        }
        if has_ypogegrammeni(code_point) {
            let parts = decompose(ucd, code_point);
            let ghost before = out@;
            let mut j: usize = 0;
            while j < parts.len()
                invariant
                    j <= parts@.len(),
                    out@ == before + folded_each(ucd, parts@.take(j as int)),
                    all_valid_codepoints(code_points@) ==> all_valid_codepoints(out@)
                        && all_valid_codepoints(parts@),
                decreases parts.len() - j,
            {
                proof {
                    assert(parts@.take(j + 1).drop_last() =~= parts@.take(j as int));
                    assert(parts@.take(j + 1).last() == parts@[j as int]);
                }
                fold_into(ucd, &mut out, parts[j]);
                j += 1;
                assert(out@ =~= before + folded_each(ucd, parts@.take(j as int)));
            }
            assert(parts@.take(j as int) =~= parts@);
        } else {
            fold_into(ucd, &mut out, code_point);
        }
        i += 1;
    }
    assert(code_points@.take(i as int) =~= code_points@);
    out
}

/// Compares two sequences without regard to case or to canonically
/// equivalent spellings.
pub fn canonical_caseless_match(ucd: &Ucd, x: Vec<u32>, y: Vec<u32>) -> (order: Ordering)
    ensures
        order == lex_order(
            ints_of_u32(caseless_key(ucd, x@)),
            ints_of_u32(caseless_key(ucd, y@)),
        ),
{
    let left = to_nfd(ucd, &case_fold(ucd, &to_nfd(ucd, &x)));
    let right = to_nfd(ucd, &case_fold(ucd, &to_nfd(ucd, &y)));
    compare_code_points(&left, &right)
}

} // verus!
