//! Canonical normalization: decomposition, canonical ordering and
//! composition.

use vstd::prelude::*;
use crate::cp_iter::{decode, decoded, encode_utf8, encoded_all};
use crate::helpers::{all_valid_codepoints, valid_codepoint};
use crate::validate::well_formed;
use crate::ucd::{
    combining_class, decomposition_mapping, is_allowed, primary_composite,
    QuickCheckVal, Ucd,
};

verus! {

/// What a quick check can tell of a codepoint sequence.
#[derive(Debug, PartialEq, Eq, Structural, Clone, Copy)]
pub enum IsNormalised {
    Yes,
    No,
    Maybe,
}

/// A normalization form.
#[derive(Debug, PartialEq, Eq, Structural, Clone, Copy)]
pub enum Normalisation {
    NFC,
    NFD,
}

/// A mark stands before one of lower class, out of canonical order.
pub open spec fn misordered_at(ucd: &Ucd, code_points: Seq<u32>, i: int) -> bool {
    0 < i < code_points.len() && ucd.ccc(code_points[i]) != 0 && ucd.ccc(code_points[i - 1])
        > ucd.ccc(code_points[i])
}

/// The codepoint at `i` rules the form out: it is a mark out of order, or
/// the form does not allow it.
pub open spec fn offends_at(
    ucd: &Ucd,
    code_points: Seq<u32>,
    normalisation: Normalisation,
    i: int,
) -> bool {
    misordered_at(ucd, code_points, i) || ucd.quick_check_flag(code_points[i], normalisation)
        == QuickCheckVal::No
}

/// Something in the sequence rules the form out.
pub open spec fn ruled_out(ucd: &Ucd, code_points: Seq<u32>, normalisation: Normalisation) -> bool {
    exists|i: int|
        0 <= i < code_points.len() && #[trigger] offends_at(ucd, code_points, normalisation, i)
}

/// Some codepoint of the sequence may or may not occur in the form.
pub open spec fn in_doubt(ucd: &Ucd, code_points: Seq<u32>, normalisation: Normalisation) -> bool {
    exists|i: int|
        0 <= i < code_points.len() && #[trigger] ucd.quick_check_flag(
            code_points[i],
            normalisation,
        ) == QuickCheckVal::Maybe
}

/// What a quick check answers: `No` where something rules the form out,
/// else `Maybe` where something is in doubt, else `Yes`.
pub open spec fn quick_checked(
    ucd: &Ucd,
    code_points: Seq<u32>,
    normalisation: Normalisation,
) -> IsNormalised {
    if ruled_out(ucd, code_points, normalisation) {
        IsNormalised::No
    } else if in_doubt(ucd, code_points, normalisation) {
        IsNormalised::Maybe
    } else {
        IsNormalised::Yes
    }
}

/// Tells in one pass whether a sequence is in a normalization form, as far
/// as the properties of its codepoints alone can tell.
pub fn quick_check(ucd: &Ucd, code_points: &Vec<u32>, normalisation: Normalisation) -> (result:
    IsNormalised)
    ensures
        result == quick_checked(ucd, code_points@, normalisation),
{
    let mut last_canonical_class: u8 = 0;
    let mut result: IsNormalised = IsNormalised::Yes;
    let mut i: usize = 0;
    while i < code_points.len()
        invariant
            i <= code_points@.len(),
            i > 0 ==> last_canonical_class == ucd.ccc(code_points@[i - 1]),
            forall|j: int|
                0 <= j < i ==> !#[trigger] offends_at(ucd, code_points@, normalisation, j),
            result == IsNormalised::Maybe <==> exists|j: int|
                0 <= j < i && #[trigger] ucd.quick_check_flag(code_points@[j], normalisation)
                    == QuickCheckVal::Maybe,
            result != IsNormalised::No,
        decreases code_points.len() - i,
    {
        let code_point = code_points[i];
        let ccc = combining_class(ucd, code_point);
        if i > 0 && last_canonical_class > ccc && ccc != 0 {
            assert(offends_at(ucd, code_points@, normalisation, i as int));
            return IsNormalised::No;
        }
        match is_allowed(ucd, code_point, &normalisation) {
            QuickCheckVal::Yes => {},
            QuickCheckVal::No => {
                assert(offends_at(ucd, code_points@, normalisation, i as int));
                return IsNormalised::No;
            },
            QuickCheckVal::Maybe => {
                result = IsNormalised::Maybe;
            },
        }
        last_canonical_class = ccc;
        i += 1;
    }
    result
}

/// The full canonical decomposition of a codepoint: its mapping, with each
/// part decomposed in turn, or the codepoint itself where it has no mapping.
pub open spec fn decomposed(ucd: &Ucd, code_point: u32) -> Seq<u32>
    decreases ucd.depth(code_point) + 1, 0nat,
{
    match ucd.mapping(code_point) {
        None => seq![code_point],
        Some(parts) => decomposed_parts(ucd, parts, ucd.depth(code_point)),
    }
}

/// The full decompositions of the parts of a mapping, one after another.
/// `bound` is the number of steps that the whole can take; every part can
/// take fewer.
pub open spec fn decomposed_parts(ucd: &Ucd, parts: Seq<u32>, bound: nat) -> Seq<u32>
    decreases bound, parts.len(),
{
    if parts.len() == 0 {
        Seq::empty()
    } else {
        decomposed_parts(ucd, parts.drop_last(), bound) + if ucd.depth(parts.last()) < bound {
            decomposed(ucd, parts.last())
        } else {
            seq![parts.last()]
        }
    }
}

/// The full decompositions of the codepoints of a sequence, one after
/// another.
pub open spec fn decomposed_all(ucd: &Ucd, code_points: Seq<u32>) -> Seq<u32>
    decreases code_points.len(),
{
    if code_points.len() == 0 {
        Seq::empty()
    } else {
        decomposed_all(ucd, code_points.drop_last()) + decomposed(ucd, code_points.last())
    }
}

/// The decomposition of a mapping is that of its parts.
pub proof fn lemma_decomposed_parts(ucd: &Ucd, code_point: u32, upto: int)
    requires
        ucd.wf(),
        ucd.mapping(code_point) is Some,
        0 <= upto <= ucd.mapping(code_point)->Some_0.len(),
    ensures
        decomposed_parts(
            ucd,
            ucd.mapping(code_point)->Some_0.take(upto),
            ucd.depth(code_point),
        ) == decomposed_all(ucd, ucd.mapping(code_point)->Some_0.take(upto)),
    decreases upto,
{
    let parts = ucd.mapping(code_point)->Some_0;
    if upto > 0 {
        lemma_decomposed_parts(ucd, code_point, upto - 1);
        ucd.lemma_mapping_depth(code_point, upto - 1);
        assert(parts.take(upto).drop_last() =~= parts.take(upto - 1));
        assert(parts.take(upto).last() == parts[upto - 1]);
    }
}

/// Decomposes a codepoint fully.
pub fn decompose(ucd: &Ucd, cp: u32) -> (parts: Vec<u32>)
    ensures
        parts@ == decomposed(ucd, cp),
        valid_codepoint(cp) ==> all_valid_codepoints(parts@),
    decreases ucd.depth(cp),
{
    match decomposition_mapping(ucd, cp) {
        None => {
            let mut parts: Vec<u32> = Vec::with_capacity(1);
            parts.push(cp);
            assert(parts@ =~= seq![cp]);
            parts
        },
        Some(dm) => {
            let mut parts: Vec<u32> = Vec::new();
            let mut i: usize = 0;
            while i < dm.len()
                invariant
                    i <= dm@.len(),
                    ucd.mapping(cp) == Some(dm@),
                    parts@ == decomposed_parts(ucd, dm@.take(i as int), ucd.depth(cp)),
                    all_valid_codepoints(parts@),
                decreases dm.len() - i,
            {
                proof {
                    use_type_invariant(ucd);
                    ucd.lemma_mapping_depth(cp, i as int);
                    ucd.lemma_mapping_valid(cp);
                    assert(valid_codepoint(dm@[i as int]));
                    assert(dm@.take(i + 1).drop_last() =~= dm@.take(i as int));
                    assert(dm@.take(i + 1).last() == dm@[i as int]);
                }
                let mut piece = decompose(ucd, dm[i]);
                parts.append(&mut piece);
                i += 1;
            }
            assert(dm@.take(i as int) =~= dm@);
            parts
        },
    }
}

/// `code_point` put behind an ordered sequence and then moved forward past
/// every mark of higher class that stands at its end. A starter moves past
/// nothing, and nothing moves past a starter.
pub open spec fn placed(ucd: &Ucd, ordered: Seq<u32>, code_point: u32) -> Seq<u32>
    decreases ordered.len(),
{
    if ordered.len() > 0 && ucd.ccc(code_point) != 0 && ucd.ccc(ordered.last()) > ucd.ccc(
        code_point,
    ) {
        placed(ucd, ordered.drop_last(), code_point).push(ordered.last())
    } else {
        ordered.push(code_point)
    }
}

/// The sequence in canonical order: every run of marks sorted by class,
/// marks of one class in the order in which they came.
pub open spec fn reordered(ucd: &Ucd, code_points: Seq<u32>) -> Seq<u32>
    decreases code_points.len(),
{
    if code_points.len() == 0 {
        Seq::empty()
    } else {
        placed(ucd, reordered(ucd, code_points.drop_last()), code_points.last())
    }
}

/// Normalization form D of a sequence.
pub open spec fn nfd(ucd: &Ucd, code_points: Seq<u32>) -> Seq<u32> {
    reordered(ucd, decomposed_all(ucd, code_points))
}

/// No mark stands directly behind one of higher class.
pub open spec fn canonically_ordered(ucd: &Ucd, code_points: Seq<u32>) -> bool {
    forall|i: int| 0 < i < code_points.len() ==> !#[trigger] misordered_at(ucd, code_points, i)
}

/// Where a codepoint goes: `at` is behind everything that it does not move
/// past.
pub proof fn lemma_placed_at(ucd: &Ucd, ordered: Seq<u32>, code_point: u32, at: int)
    requires
        0 <= at <= ordered.len(),
        at < ordered.len() ==> ucd.ccc(code_point) != 0,
        forall|j: int| at <= j < ordered.len() ==> ucd.ccc(#[trigger] ordered[j]) > ucd.ccc(code_point),
        at > 0 ==> ucd.ccc(code_point) == 0 || ucd.ccc(ordered[at - 1]) <= ucd.ccc(code_point),
    ensures
        placed(ucd, ordered, code_point) == ordered.insert(at, code_point),
    decreases ordered.len() - at,
{
    if at == ordered.len() {
        assert(ordered.insert(at, code_point) =~= ordered.push(code_point));
    } else {
        let shorter = ordered.drop_last();
        assert(ucd.ccc(ordered[ordered.len() - 1]) > ucd.ccc(code_point));
        assert forall|j: int| at <= j < shorter.len() implies ucd.ccc(#[trigger] shorter[j])
            > ucd.ccc(code_point) by {
            assert(shorter[j] == ordered[j]);
        }
        if at > 0 {
            assert(shorter[at - 1] == ordered[at - 1]);
        }
        lemma_placed_at(ucd, shorter, code_point, at);
        assert(shorter.insert(at, code_point).push(ordered.last()) =~= ordered.insert(
            at,
            code_point,
        ));
    }
}

/// Puts `code_point` behind `ordered` and moves it forward to its place.
fn place(ucd: &Ucd, ordered: &mut Vec<u32>, code_point: u32)
    ensures
        final(ordered)@ == placed(ucd, old(ordered)@, code_point),
        all_valid_codepoints(old(ordered)@) && valid_codepoint(code_point)
            ==> all_valid_codepoints(final(ordered)@),
{
    let class = combining_class(ucd, code_point);
    let mut at: usize = ordered.len();
    while at > 0 && class != 0 && combining_class(ucd, ordered[at - 1]) > class
        invariant
            at <= ordered@.len(),
            class == ucd.ccc(code_point),
            ordered@ == old(ordered)@,
            at < ordered@.len() ==> class != 0,
            forall|j: int| at <= j < ordered@.len() ==> ucd.ccc(#[trigger] ordered@[j]) > class,
        decreases at,
    {
        at -= 1;
    }
    proof {
        lemma_placed_at(ucd, ordered@, code_point, at as int);
    }
    ordered.insert(at, code_point);
}

/// Decomposes a sequence fully and puts it in canonical order.
pub fn to_nfd(ucd: &Ucd, code_points: &Vec<u32>) -> (normal: Vec<u32>)
    ensures
        normal@ == nfd(ucd, code_points@),
        canonically_ordered(ucd, normal@),
        all_valid_codepoints(code_points@) ==> all_valid_codepoints(normal@),
{
    proof {
        crate::canonical::lemma_nfd_ordered(ucd, code_points@);
    }
    let mut normal: Vec<u32> = Vec::new();
    let mut i: usize = 0;
    let ghost mut flat: Seq<u32> = Seq::empty();
    while i < code_points.len()
        invariant
            i <= code_points@.len(),
            flat == decomposed_all(ucd, code_points@.take(i as int)),
            normal@ == reordered(ucd, flat),
            all_valid_codepoints(code_points@) ==> all_valid_codepoints(normal@),
        decreases code_points.len() - i,
    {
        let piece = decompose(ucd, code_points[i]);
        let mut j: usize = 0;
        let ghost before = flat;
        while j < piece.len()
            invariant
                j <= piece@.len(),
                flat == before + piece@.take(j as int),
                normal@ == reordered(ucd, flat),
                all_valid_codepoints(code_points@) ==> all_valid_codepoints(normal@)
                    && all_valid_codepoints(piece@),
            decreases piece.len() - j,
        {
            place(ucd, &mut normal, piece[j]);
            proof {
                let longer = before + piece@.take(j + 1);
                assert(longer.drop_last() =~= flat);
                assert(longer.last() == piece@[j as int]);
                flat = longer;
            }
            j += 1;
        }
        proof {
            assert(piece@.take(j as int) =~= piece@);
            assert(code_points@.take(i + 1).drop_last() =~= code_points@.take(i as int));
            assert(code_points@.take(i + 1).last() == code_points@[i as int]);
        }
        i += 1;
    }
    assert(code_points@.take(i as int) =~= code_points@);
    normal
}

/// Something between `pos` and `i` keeps the codepoint at `i` from
/// combining with the one at `pos`: a codepoint of the same or a higher
/// class.
pub open spec fn blocked(ucd: &Ucd, buffer: Seq<u32>, pos: int, i: int) -> bool {
    exists|j: int| pos < j < i && ucd.ccc(#[trigger] buffer[j]) >= ucd.ccc(buffer[i])
}

/// The codepoint at `i` can be combined with the one at `pos`: the pair
/// has a primary composite and nothing blocks it.
pub open spec fn eligible(ucd: &Ucd, buffer: Seq<u32>, pos: int, i: int) -> bool {
    !blocked(ucd, buffer, pos, i) && ucd.composite(buffer[pos], buffer[i]) is Some
}

/// The first codepoint at or behind `from` that can be combined with the
/// one at `pos`, looking no further than the next starter.
pub open spec fn first_eligible(ucd: &Ucd, buffer: Seq<u32>, pos: int, from: int) -> Option<int>
    decreases buffer.len() - from,
{
    if from <= pos || from >= buffer.len() {
        None
    } else if eligible(ucd, buffer, pos, from) {
        Some(from)
    } else if ucd.ccc(buffer[from]) == 0 {
        None
    } else {
        first_eligible(ucd, buffer, pos, from + 1)
    }
}

/// Index of the first starter at or behind `from`; the length of the
/// sequence where there is none.
pub open spec fn next_starter(ucd: &Ucd, buffer: Seq<u32>, from: int) -> int
    decreases buffer.len() - from,
{
    if from < 0 || from >= buffer.len() {
        buffer.len() as int
    } else if ucd.ccc(buffer[from]) == 0 {
        from
    } else {
        next_starter(ucd, buffer, from + 1)
    }
}

/// The buffer with the codepoint at `i` combined into the one at `pos`.
pub open spec fn combined(ucd: &Ucd, buffer: Seq<u32>, pos: int, i: int) -> Seq<u32> {
    buffer.update(pos, ucd.composite(buffer[pos], buffer[i])->Some_0).remove(i)
}

/// Canonical composition from `pos` on: as long as the codepoint at `pos`
/// can be combined with one behind it, it is combined with the first such;
/// then the same is done at the next starter.
pub open spec fn composed(ucd: &Ucd, buffer: Seq<u32>, pos: int) -> Seq<u32>
    decreases buffer.len() - pos,
{
    if pos < 0 || pos >= buffer.len() {
        buffer
    } else {
        match first_eligible(ucd, buffer, pos, pos + 1) {
            Some(i) => if pos < i < buffer.len() {
                composed(ucd, combined(ucd, buffer, pos, i), pos)
            } else {
                buffer
            },
            None => if pos < next_starter(ucd, buffer, pos + 1) <= buffer.len() {
                composed(ucd, buffer, next_starter(ucd, buffer, pos + 1))
            } else {
                buffer
            },
        }
    }
}

/// Normalization form C of a sequence.
pub open spec fn nfc(ucd: &Ucd, code_points: Seq<u32>) -> Seq<u32> {
    composed(ucd, nfd(ucd, code_points), 0)
}

/// The next starter is a starter, and nothing before it is.
pub proof fn lemma_next_starter_bounds(ucd: &Ucd, buffer: Seq<u32>, from: int)
    requires
        0 <= from <= buffer.len(),
    ensures
        from <= next_starter(ucd, buffer, from) <= buffer.len(),
        forall|j: int| from <= j < next_starter(ucd, buffer, from) ==> ucd.ccc(#[trigger] buffer[j]) != 0,
        next_starter(ucd, buffer, from) < buffer.len() ==> ucd.ccc(
            buffer[next_starter(ucd, buffer, from)],
        ) == 0,
    decreases buffer.len() - from,
{
    if from < buffer.len() && ucd.ccc(buffer[from]) != 0 {
        lemma_next_starter_bounds(ucd, buffer, from + 1);
    }
}

/// What the first eligible codepoint is: it is eligible, nothing between
/// `from` and it is, and no starter stands between them.
pub proof fn lemma_first_eligible(ucd: &Ucd, buffer: Seq<u32>, pos: int, from: int)
    requires
        0 <= pos < from <= buffer.len(),
    ensures
        match first_eligible(ucd, buffer, pos, from) {
            Some(i) => from <= i < buffer.len() && eligible(ucd, buffer, pos, i) && forall|j: int|
                from <= j < i ==> !eligible(ucd, buffer, pos, j) && ucd.ccc(#[trigger] buffer[j])
                    != 0,
            None => forall|j: int|
                from <= j < buffer.len() && j <= next_starter(ucd, buffer, from) ==> !eligible(
                    ucd,
                    buffer,
                    pos,
                    j,
                ),
        },
    decreases buffer.len() - from,
{
    if from < buffer.len() && !eligible(ucd, buffer, pos, from) && ucd.ccc(buffer[from]) != 0 {
        lemma_first_eligible(ucd, buffer, pos, from + 1);
        lemma_next_starter_bounds(ucd, buffer, from + 1);
    }
}

/// Looks for the first codepoint behind `pos` that can be combined with the
/// one at `pos`.
fn find_eligible(ucd: &Ucd, buffer: &Vec<u32>, pos: usize) -> (found: Option<(usize, u32)>)
    requires
        pos < buffer.len(),
    ensures
        match found {
            Some((i, whole)) => first_eligible(ucd, buffer@, pos as int, pos + 1) == Some(
                i as int,
            ) && pos < i < buffer@.len() && ucd.composite(buffer@[pos as int], buffer@[i as int])
                == Some(whole),
            None => first_eligible(ucd, buffer@, pos as int, pos + 1) is None,
        },
{
    let mut i: usize = pos + 1;
    let mut highest: u8 = 0;
    let ghost mut witness: int = 0;
    while i < buffer.len()
        invariant
            pos < i <= buffer@.len(),
            first_eligible(ucd, buffer@, pos as int, i as int) == first_eligible(
                ucd,
                buffer@,
                pos as int,
                pos + 1,
            ),
            forall|j: int| pos < j < i ==> ucd.ccc(#[trigger] buffer@[j]) <= highest,
            i > pos + 1 ==> pos < witness < i && ucd.ccc(buffer@[witness]) == highest,
        decreases buffer.len() - i,
    {
        let class = combining_class(ucd, buffer[i]);
        let is_blocked = i > pos + 1 && highest >= class;
        assert(is_blocked == blocked(ucd, buffer@, pos as int, i as int));
        if !is_blocked {
            match primary_composite(ucd, buffer[pos], buffer[i]) {
                Some(whole) => {
                    return Some((i, whole));
                },
                None => {},
            }
        }
        if class == 0 {
            return None;
        }
        if class > highest || i == pos + 1 {
            highest = class;
            proof {
                witness = i as int;
            }
        }
        i += 1;
    }
    None
}

/// Looks for the first starter at or behind `from`.
fn find_starter(ucd: &Ucd, buffer: &Vec<u32>, from: usize) -> (at: usize)
    requires
        from <= buffer.len(),
    ensures
        at == next_starter(ucd, buffer@, from as int),
        from <= at <= buffer@.len(),
{
    let mut at: usize = from;
    while at < buffer.len() && combining_class(ucd, buffer[at]) != 0
        invariant
            from <= at <= buffer@.len(),
            next_starter(ucd, buffer@, at as int) == next_starter(ucd, buffer@, from as int),
        decreases buffer.len() - at,
    {
        at += 1;
    }
    at
}

/// Decomposes a sequence, puts it in canonical order and composes it.
pub fn to_nfc(ucd: &Ucd, code_points: &Vec<u32>) -> (normal: Vec<u32>)
    ensures
        normal@ == nfc(ucd, code_points@),
        all_valid_codepoints(code_points@) ==> all_valid_codepoints(normal@),
{
    let mut buffer = to_nfd(ucd, code_points);
    let mut pos: usize = 0;
    while pos < buffer.len()
        invariant
            composed(ucd, buffer@, pos as int) == nfc(ucd, code_points@),
            all_valid_codepoints(code_points@) ==> all_valid_codepoints(buffer@),
        decreases buffer.len() - pos,
    {
        match find_eligible(ucd, &buffer, pos) {
            Some((i, whole)) => {
                proof {
                    use_type_invariant(ucd);
                    ucd.lemma_composite_mapping(buffer@[pos as int], buffer@[i as int]);
                }
                buffer.set(pos, whole);
                buffer.remove(i);
            },
            None => {
                pos = find_starter(ucd, &buffer, pos + 1);
            },
        }
    }
    buffer
}

/// Normalization form C of a well-formed UTF-8 byte sequence, as UTF-8.
pub fn to_nfc_str(ucd: &Ucd, bytes: Vec<u8>) -> (normal: Vec<u8>)
    requires
        well_formed(bytes@),
    ensures
        normal@ == encoded_all(nfc(ucd, decoded(bytes@, 0))),
        well_formed(normal@),
{
    let cps: Vec<u32> = decode(bytes);
    let composed = to_nfc(ucd, &cps);
    encode_utf8(&composed)
}

} // verus!
