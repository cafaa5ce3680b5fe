//! Sort keys: a codepoint sequence is normalized, cut into the longest
//! sequences that the collation table knows, turned into collation elements
//! and written out level by level.

use vstd::prelude::*;
use crate::error::TextError;
use crate::helpers::{all_valid_codepoints, is_valid_codepoint, valid_codepoint, DecodeErr};
use crate::normalise::{nfd, to_nfd};
use crate::prefix::ints_of_u16;
use crate::order::{lemma_lex_order_reflexive, lex_order};
use crate::trie::TrieMatch;
use crate::ucd::{
    collation_elements, combining_class, is_starter, unified_ideograph,
    weighted, CollationElement, Ucd, Weighted,
};

verus! {

/// How variable collation elements are weighted.
#[derive(Debug, PartialEq, Eq, Structural, Clone, Copy)]
pub enum VariableWeighting {
    /// Variable elements keep their weights.
    NonIgnorable,
    /// Variable elements, and the ignorable elements behind them, lose
    /// their weights.
    Blanked,
    /// Not provided.
    Shifted,
    /// Not provided.
    ShiftTrimmed,
}

impl VariableWeighting {
    /// The modes that are provided.
    pub open spec fn supported(self) -> bool {
        self == VariableWeighting::NonIgnorable || self == VariableWeighting::Blanked
    }
}

/// Length of the longest contiguous match at `pos`, given that `n`
/// codepoints are matched already: the next codepoint is taken in as long
/// as it is a starter and the table knows the longer sequence, or the
/// beginning of one.
pub open spec fn contiguous_len(ucd: &Ucd, buffer: Seq<u32>, pos: int, n: int) -> int
    decreases buffer.len() - pos - n,
{
    if 0 <= pos && 0 <= n && pos + n < buffer.len() && ucd.ccc(buffer[pos + n]) == 0
        && !(ucd.contraction(buffer.subrange(pos, pos + n + 1)) is NoMatch) {
        contiguous_len(ucd, buffer, pos, n + 1)
    } else {
        n
    }
}

/// A key and the buffer it was gathered from.
pub struct Gathered {
    pub key: Seq<u32>,
    pub buffer: Seq<u32>,
}

/// Discontiguous matching from `i` on. Each mark that is not blocked is
/// tried behind the key: where the table knows the longer key, the mark
/// joins the key and leaves the buffer; where it knows only the beginning
/// of one, the mark is passed over; where it knows neither, the search
/// ends. A starter or a blocked mark ends it too. `last` is the class of
/// the codepoint that joined the key last.
pub open spec fn gathered(ucd: &Ucd, key: Seq<u32>, buffer: Seq<u32>, i: int, last: u8) -> Gathered
    decreases buffer.len() - i,
{
    if i < 0 || i >= buffer.len() || ucd.ccc(buffer[i]) == 0 || ucd.ccc(buffer[i]) <= last {
        Gathered { key, buffer }
    } else {
        match ucd.contraction(key.push(buffer[i])) {
            TrieMatch::Match(_) => gathered(
                ucd,
                key.push(buffer[i]),
                buffer.remove(i),
                i,
                ucd.ccc(buffer[i]),
            ),
            TrieMatch::PartialMatch => gathered(ucd, key, buffer, i + 1, last),
            TrieMatch::NoMatch => Gathered { key, buffer },
        }
    }
}

/// The key that is matched at `pos`, and the buffer without the marks that
/// joined it from further behind.
pub open spec fn matched_at(ucd: &Ucd, buffer: Seq<u32>, pos: int) -> Gathered {
    let n = contiguous_len(ucd, buffer, pos, 1);
    let key = buffer.subrange(pos, pos + n);
    if ucd.ccc(buffer[pos + n - 1]) == 0 {
        gathered(ucd, key, buffer, pos + n, 0)
    } else {
        Gathered { key, buffer }
    }
}

/// First weight of the first derived element: a base that depends on the
/// block of the codepoint, and for all but three blocks its upper bits.
pub open spec fn derived_lead(ucd: &Ucd, code_point: u32) -> int {
    if 0x17000 <= code_point <= 0x18AFF || 0x18D00 <= code_point <= 0x18D8F {
        0xFB00
    } else if 0x1B170 <= code_point <= 0x1B2FF {
        0xFB01
    } else if 0x18B00 <= code_point <= 0x18CFF {
        0xFB02
    } else if ucd.is_unified_ideograph(code_point) && (0x4E00 <= code_point <= 0x9FFF || 0xF900
        <= code_point <= 0xFAFF) {
        0xFB40 + code_point / 0x8000
    } else if ucd.is_unified_ideograph(code_point) {
        0xFB80 + code_point / 0x8000
    } else {
        0xFBC0 + code_point / 0x8000
    }
}

/// First weight of the second derived element: the lower fifteen bits of
/// the codepoint, with the sixteenth set.
pub open spec fn derived_trail(code_point: u32) -> int {
    code_point % 0x8000 + 0x8000
}

/// The two elements that stand for a codepoint of which the table knows
/// nothing.
pub open spec fn derived(ucd: &Ucd, code_point: u32) -> Seq<Weighted> {
    seq![
        Weighted {
            weights: seq![derived_lead(ucd, code_point) as u16, 0x0020u16, 0x0002u16],
            variable: false,
        },
        Weighted { weights: seq![derived_trail(code_point) as u16, 0u16, 0u16], variable: false },
    ]
}

/// The elements of a key: those that the table holds for it, or those
/// derived from its first codepoint.
pub open spec fn elements_of(ucd: &Ucd, key: Seq<u32>) -> Seq<Weighted> {
    match ucd.contraction(key) {
        TrieMatch::Match(elements) => elements,
        _ => derived(ucd, key[0]),
    }
}

/// An element without a primary weight.
pub open spec fn primary_ignorable(element: Weighted) -> bool {
    element.weights.len() == 0 || element.weights[0] == 0
}

/// The element with every weight set to zero.
pub open spec fn zeroed(element: Weighted) -> Weighted {
    Weighted {
        weights: Seq::new(element.weights.len(), |i: int| 0u16),
        variable: element.variable,
    }
}

/// Whether the last of the elements is blanked: it is variable, or it is
/// ignorable and the element before it is blanked.
pub open spec fn blanking_after(elements: Seq<Weighted>) -> bool
    decreases elements.len(),
{
    if elements.len() == 0 {
        false
    } else {
        elements.last().variable || (blanking_after(elements.drop_last()) && primary_ignorable(
            elements.last(),
        ))
    }
}

/// The elements with the blanked ones set to zero.
pub open spec fn blanked(elements: Seq<Weighted>) -> Seq<Weighted> {
    Seq::new(
        elements.len(),
        |i: int|
            if blanking_after(elements.take(i + 1)) {
                zeroed(elements[i])
            } else {
                elements[i]
            },
    )
}

/// The elements weighted as a mode asks.
pub open spec fn weighted_by(elements: Seq<Weighted>, weighting: VariableWeighting) -> Seq<
    Weighted,
> {
    match weighting {
        VariableWeighting::Blanked => blanked(elements),
        _ => elements,
    }
}

/// The collation elements of the buffer from `pos` on.
pub open spec fn collation_elements_from(
    ucd: &Ucd,
    buffer: Seq<u32>,
    pos: int,
    weighting: VariableWeighting,
) -> Seq<Weighted>
    decreases buffer.len() - pos,
{
    if pos < 0 || pos >= buffer.len() {
        Seq::empty()
    } else {
        let n = contiguous_len(ucd, buffer, pos, 1);
        let found = matched_at(ucd, buffer, pos);
        if n >= 1 && pos + n <= found.buffer.len() <= buffer.len() {
            weighted_by(elements_of(ucd, found.key), weighting) + collation_elements_from(
                ucd,
                found.buffer,
                pos + n,
                weighting,
            )
        } else {
            Seq::empty()
        }
    }
}

/// The buffer when all keys from `pos` on are matched: without the marks
/// that joined a key from further behind.
pub open spec fn buffer_after(ucd: &Ucd, buffer: Seq<u32>, pos: int) -> Seq<u32>
    decreases buffer.len() - pos,
{
    if pos < 0 || pos >= buffer.len() {
        buffer
    } else {
        let n = contiguous_len(ucd, buffer, pos, 1);
        let found = matched_at(ucd, buffer, pos);
        if n >= 1 && pos + n <= found.buffer.len() <= buffer.len() {
            buffer_after(ucd, found.buffer, pos + n)
        } else {
            buffer
        }
    }
}

/// Number of levels: the most weights that any element has.
pub open spec fn level_count(elements: Seq<Weighted>) -> nat
    decreases elements.len(),
{
    if elements.len() == 0 {
        0
    } else if elements.last().weights.len() > level_count(elements.drop_last()) {
        elements.last().weights.len()
    } else {
        level_count(elements.drop_last())
    }
}

/// The weights of one level that are not zero, in the order of their
/// elements.
pub open spec fn level_weights(elements: Seq<Weighted>, level: int) -> Seq<u16>
    decreases elements.len(),
{
    if elements.len() == 0 {
        Seq::empty()
    } else if 0 <= level < elements.last().weights.len() && elements.last().weights[level] != 0 {
        level_weights(elements.drop_last(), level).push(elements.last().weights[level])
    } else {
        level_weights(elements.drop_last(), level)
    }
}

/// The first `levels` levels, each followed by a zero.
pub open spec fn key_levels(elements: Seq<Weighted>, levels: nat) -> Seq<u16>
    decreases levels,
{
    if levels == 0 {
        Seq::empty()
    } else {
        key_levels(elements, (levels - 1) as nat) + level_weights(elements, levels - 1).push(0u16)
    }
}

/// The sort key of a list of collation elements.
pub open spec fn key_of(elements: Seq<Weighted>) -> Seq<u16> {
    key_levels(elements, level_count(elements))
}

/// The sort key of a codepoint sequence.
pub open spec fn sort_key_of(ucd: &Ucd, code_points: Seq<u32>, weighting: VariableWeighting) -> Seq<
    u16,
> {
    key_of(collation_elements_from(ucd, nfd(ucd, code_points), 0, weighting))
}

/// No weight within a level of a sort key is zero: a zero only ever ends
/// a level.
pub proof fn lemma_level_weights_nonzero(elements: Seq<Weighted>, level: int)
    ensures
        forall|i: int|
            0 <= i < level_weights(elements, level).len() ==> #[trigger] level_weights(
                elements,
                level,
            )[i] != 0,
    decreases elements.len(),
{
    if elements.len() > 0 {
        let front = level_weights(elements.drop_last(), level);
        let all = level_weights(elements, level);
        lemma_level_weights_nonzero(elements.drop_last(), level);
        assert forall|i: int| 0 <= i < all.len() implies #[trigger] all[i] != 0 by {
            if i < front.len() {
                assert(all[i] == front[i]);
            }
        }
    }
}

/// Sequences with one decomposed form have one sort key; so a sequence and
/// its composed form have.
pub proof fn lemma_sort_key_of_equivalent(
    ucd: &Ucd,
    code_points: Seq<u32>,
    weighting: VariableWeighting,
)
    requires
        ucd.wf(),
    ensures
        forall|other: Seq<u32>|
            nfd(ucd, other) == nfd(ucd, code_points) ==> #[trigger] sort_key_of(
                ucd,
                other,
                weighting,
            ) == sort_key_of(ucd, code_points, weighting),
        sort_key_of(ucd, crate::normalise::nfc(ucd, code_points), weighting) == sort_key_of(
            ucd,
            code_points,
            weighting,
        ),
{
    crate::canonical::lemma_nfd_of_nfc(ucd, code_points);
}

/// Binary comparison finds the sort key of a sequence equal to itself.
pub proof fn lemma_sort_key_equal_to_itself(
    ucd: &Ucd,
    code_points: Seq<u32>,
    weighting: VariableWeighting,
)
    ensures
        lex_order(
            ints_of_u16(sort_key_of(ucd, code_points, weighting)),
            ints_of_u16(sort_key_of(ucd, code_points, weighting)),
        ) == std::cmp::Ordering::Equal,
{
    lemma_lex_order_reflexive(ints_of_u16(sort_key_of(ucd, code_points, weighting)));
}

/// A contiguous match holds at least the codepoints matched already and
/// ends inside the buffer.
pub proof fn lemma_contiguous_len_bounds(ucd: &Ucd, buffer: Seq<u32>, pos: int, n: int)
    requires
        0 <= pos,
        1 <= n,
        pos + n <= buffer.len(),
    ensures
        n <= contiguous_len(ucd, buffer, pos, n),
        pos + contiguous_len(ucd, buffer, pos, n) <= buffer.len(),
    decreases buffer.len() - pos - n,
{
    if pos + n < buffer.len() && ucd.ccc(buffer[pos + n]) == 0 && !(ucd.contraction(
        buffer.subrange(pos, pos + n + 1),
    ) is NoMatch) {
        lemma_contiguous_len_bounds(ucd, buffer, pos, n + 1);
    }
}

/// Discontiguous matching takes marks out of the buffer behind `i` and
/// leaves everything before `i` alone.
pub proof fn lemma_gathered_bounds(ucd: &Ucd, key: Seq<u32>, buffer: Seq<u32>, i: int, last: u8)
    requires
        0 <= i <= buffer.len(),
    ensures
        i <= gathered(ucd, key, buffer, i, last).buffer.len() <= buffer.len(),
        gathered(ucd, key, buffer, i, last).buffer.subrange(0, i) == buffer.subrange(0, i),
        all_valid_codepoints(buffer) ==> all_valid_codepoints(
            gathered(ucd, key, buffer, i, last).buffer,
        ),
        key.len() > 0 ==> gathered(ucd, key, buffer, i, last).key.len() > 0 && gathered(
            ucd,
            key,
            buffer,
            i,
            last,
        ).key[0] == key[0],
    decreases buffer.len() - i,
{
    if i < 0 || i >= buffer.len() || ucd.ccc(buffer[i]) == 0 || ucd.ccc(buffer[i]) <= last {
    } else {
        match ucd.contraction(key.push(buffer[i])) {
            TrieMatch::Match(_) => {
                let shorter = buffer.remove(i);
                lemma_gathered_bounds(ucd, key.push(buffer[i]), shorter, i, ucd.ccc(buffer[i]));
                assert(shorter.subrange(0, i) =~= buffer.subrange(0, i));
                assert(all_valid_codepoints(buffer) ==> all_valid_codepoints(shorter)) by {
                    if all_valid_codepoints(buffer) {
                        assert forall|j: int| 0 <= j < shorter.len() implies valid_codepoint(
                            #[trigger] shorter[j],
                        ) by {
                            if j < i {
                                assert(shorter[j] == buffer[j]);
                            } else {
                                assert(shorter[j] == buffer[j + 1]);
                            }
                        }
                    }
                }
            },
            TrieMatch::PartialMatch => {
                lemma_gathered_bounds(ucd, key, buffer, i + 1, last);
                let out = gathered(ucd, key, buffer, i + 1, last).buffer;
                assert(out.subrange(0, i) =~= out.subrange(0, i + 1).subrange(0, i));
                assert(buffer.subrange(0, i) =~= buffer.subrange(0, i + 1).subrange(0, i));
            },
            TrieMatch::NoMatch => {},
        }
    }
}

/// A copy of a list of weights.
fn copy_weights(weights: &Vec<u16>) -> (copy: Vec<u16>)
    ensures
        copy@ == weights@,
{
    let mut copy: Vec<u16> = Vec::with_capacity(weights.len());
    let mut i: usize = 0;
    while i < weights.len()
        invariant
            i <= weights@.len(),
            copy@ == weights@.take(i as int),
        decreases weights.len() - i,
    {
        copy.push(weights[i]);
        i += 1;
        assert(copy@ =~= weights@.take(i as int));
    }
    assert(weights@.take(i as int) =~= weights@);
    copy
}

/// A list of `n` zero weights.
fn zero_weights(n: usize) -> (zeros: Vec<u16>)
    ensures
        zeros@ == Seq::new(n as nat, |i: int| 0u16),
{
    let mut zeros: Vec<u16> = Vec::with_capacity(n);
    let mut i: usize = 0;
    while i < n
        invariant
            i <= n,
            zeros@ == Seq::new(i as nat, |i: int| 0u16),
        decreases n - i,
    {
        zeros.push(0);
        i += 1;
        assert(zeros@ =~= Seq::new(i as nat, |i: int| 0u16));
    }
    zeros
}

/// A copy of a list of collation elements.
fn copy_elements(elements: &Vec<CollationElement>) -> (copy: Vec<CollationElement>)
    ensures
        weighted(copy@) == weighted(elements@),
{
    let mut copy: Vec<CollationElement> = Vec::with_capacity(elements.len());
    let mut i: usize = 0;
    while i < elements.len()
        invariant
            i <= elements@.len(),
            copy@.len() == i,
            weighted(copy@) == weighted(elements@.take(i as int)),
        decreases elements.len() - i,
    {
        let element = &elements[i];
        let ghost before = copy@;
        copy.push(
            CollationElement {
                weights: copy_weights(&element.weights),
                variable: element.variable,
            },
        );
        i += 1;
        proof {
            let upto = elements@.take(i as int);
            assert(copy@.last()@ == element@);
            assert forall|j: int| 0 <= j < i implies weighted(copy@)[j] == weighted(upto)[j] by {
                if j < i - 1 {
                    assert(weighted(before)[j] == weighted(elements@.take(i - 1))[j]);
                }
            }
            assert(weighted(copy@) =~= weighted(upto));
        }
    }
    assert(elements@.take(i as int) =~= elements@);
    copy
}

/// An ignorable collation element is one without a primary weight.
fn ignorable(ce: &CollationElement) -> (is: bool)
    ensures
        is == primary_ignorable(ce@),
{
    ce.weights.len() == 0 || ce.weights[0] == 0
}

/// Derives the collation elements of a key of which the table knows
/// nothing, from its first codepoint.
pub fn derive_collation_elements(ucd: &Ucd, s: Vec<u32>) -> (elements: Vec<CollationElement>)
    requires
        s@.len() > 0,
        s@[0] <= 0x10FFFF,
    ensures
        weighted(elements@) == derived(ucd, s@[0]),
{
    let cp = s[0];
    let aaaa: u32 = if (0x17000 <= cp && cp <= 0x18AFF) || (0x18D00 <= cp && cp <= 0x18D8F) {
        // Tangut, Tangut Components, Tangut Supplement
        0xFB00
    } else if 0x1B170 <= cp && cp <= 0x1B2FF {
        // Nushu
        0xFB01
    } else if 0x18B00 <= cp && cp <= 0x18CFF {
        // Khitan Small Script
        0xFB02
    } else if unified_ideograph(ucd, cp) {
        if (0x4E00 <= cp && cp <= 0x9FFF) || (0xF900 <= cp && cp <= 0xFAFF) {
            0xFB40 + cp / 0x8000
        } else {
            0xFB80 + cp / 0x8000
        }
    } else {
        0xFBC0 + cp / 0x8000
    };
    let bbbb: u32 = cp % 0x8000 + 0x8000;
    // [.AAAA.0020.0002][.BBBB.0000.0000]
    let mut first: Vec<u16> = Vec::with_capacity(3);
    first.push(aaaa as u16);
    first.push(0x0020);
    first.push(0x0002);
    let mut second: Vec<u16> = Vec::with_capacity(3);
    second.push(bbbb as u16);
    second.push(0x0000);
    second.push(0x0000);
    let mut elements: Vec<CollationElement> = Vec::with_capacity(2);
    elements.push(CollationElement { weights: first, variable: false });
    elements.push(CollationElement { weights: second, variable: false });
    proof {
        assert(first@ =~= seq![derived_lead(ucd, cp) as u16, 0x0020u16, 0x0002u16]);
        assert(second@ =~= seq![derived_trail(cp) as u16, 0u16, 0u16]);
        assert(weighted(elements@) =~= derived(ucd, cp));
    }
    elements
}

/// Weights the elements of one key as the mode asks.
pub fn apply_variable_weighting(
    ces: &mut Vec<CollationElement>,
    variable_weighting: &VariableWeighting,
)
    requires
        variable_weighting.supported(),
    ensures
        weighted(final(ces)@) == weighted_by(weighted(old(ces)@), *variable_weighting),
{
    match variable_weighting {
        VariableWeighting::Blanked => {
            let mut blanking = false;
            let mut out: Vec<CollationElement> = Vec::with_capacity(ces.len());
            let mut i: usize = 0;
            let ghost elements = weighted(ces@);
            while i < ces.len()
                invariant
                    i <= ces@.len(),
                    elements == weighted(ces@),
                    blanking == blanking_after(elements.take(i as int)),
                    out@.len() == i,
                    weighted(out@) == blanked(elements).take(i as int),
                decreases ces.len() - i,
            {
                let ce = &ces[i];
                let ghost before = out@;
                proof {
                    assert(elements.take(i + 1).drop_last() =~= elements.take(i as int));
                    assert(elements.take(i + 1).last() == ce@);
                    assert(elements[i as int] == ce@);
                }
                if ce.variable || (blanking && ignorable(ce)) {
                    out.push(
                        CollationElement {
                            weights: zero_weights(ce.weights.len()),
                            variable: ce.variable,
                        },
                    );
                    blanking = true;
                } else {
                    out.push(
                        CollationElement {
                            weights: copy_weights(&ce.weights),
                            variable: ce.variable,
                        },
                    );
                    blanking = false;
                }
                i += 1;
                proof {
                    let upto = blanked(elements).take(i as int);
                    assert(out@.last()@ == blanked(elements)[i - 1]);
                    assert forall|j: int| 0 <= j < i implies weighted(out@)[j] == upto[j] by {
                        if j < i - 1 {
                            assert(weighted(before)[j] == blanked(elements).take(i - 1)[j]);
                        }
                    }
                    assert(weighted(out@) =~= upto);
                }
            }
            assert(blanked(elements).take(i as int) =~= blanked(elements));
            *ces = out;
        },
        _ => {},
    }
}

/// Takes starters into the key as long as the table knows the longer key
/// or the beginning of one.
fn extend_contiguous(ucd: &Ucd, buffer: &Vec<u32>, pos: usize, key: &mut Vec<u32>) -> (n: usize)
    requires
        pos < buffer.len(),
        old(key)@ == buffer@.subrange(pos as int, pos + 1),
    ensures
        n == contiguous_len(ucd, buffer@, pos as int, 1),
        1 <= n,
        pos + n <= buffer.len(),
        final(key)@ == buffer@.subrange(pos as int, pos + n),
{
    let mut n: usize = 1;
    while pos + n < buffer.len() && is_starter(ucd, buffer[pos + n])
        invariant
            1 <= n,
            pos + n <= buffer.len(),
            key@ == buffer@.subrange(pos as int, pos + n),
            contiguous_len(ucd, buffer@, pos as int, n as int) == contiguous_len(
                ucd,
                buffer@,
                pos as int,
                1,
            ),
        decreases buffer.len() - n,
    {
        let ghost before = key@;
        key.push(buffer[pos + n]);
        assert(key@ =~= buffer@.subrange(pos as int, pos + n + 1));
        match collation_elements(ucd, key) {
            TrieMatch::NoMatch => {
                key.pop();
                assert(key@ =~= before);
                return n;
            },
            _ => {
                n += 1;
            },
        }
    }
    n
}

/// Takes marks from behind the key into it, as far as the table knows the
/// longer key.
fn gather_discontiguous(ucd: &Ucd, buffer: &mut Vec<u32>, key: &mut Vec<u32>, from: usize)
    requires
        from <= old(buffer).len(),
    ensures
        gathered(ucd, old(key)@, old(buffer)@, from as int, 0).key == final(key)@,
        gathered(ucd, old(key)@, old(buffer)@, from as int, 0).buffer == final(buffer)@,
{
    let mut i: usize = from;
    let mut last: u8 = 0;
    while i < buffer.len()
        invariant
            i <= buffer.len(),
            gathered(ucd, key@, buffer@, i as int, last) == gathered(
                ucd,
                old(key)@,
                old(buffer)@,
                from as int,
                0,
            ),
        decreases buffer.len() - i,
    {
        let c = buffer[i];
        let class = combining_class(ucd, c);
        if class == 0 || class <= last {
            return ;
        }
        let ghost before = key@;
        key.push(c);
        match collation_elements(ucd, key) {
            TrieMatch::Match(_) => {
                buffer.remove(i);
                last = class;
            },
            TrieMatch::PartialMatch => {
                key.pop();
                assert(key@ =~= before);
                i += 1;
            },
            TrieMatch::NoMatch => {
                key.pop();
                assert(key@ =~= before);
                return ;
            },
        }
    }
}

/// Cuts the buffer into keys and turns each into its collation elements,
/// weighted as the mode asks. Marks that join a key from further behind
/// leave the buffer.
pub fn to_collation_elements(
    ucd: &Ucd,
    nfd: &mut Vec<u32>,
    variable_weighting: &VariableWeighting,
) -> (cea: Vec<CollationElement>)
    requires
        variable_weighting.supported(),
        all_valid_codepoints(old(nfd)@),
    ensures
        weighted(cea@) == collation_elements_from(ucd, old(nfd)@, 0, *variable_weighting),
        final(nfd)@ == buffer_after(ucd, old(nfd)@, 0),
{
    let mut acc_collation_elements: Vec<CollationElement> = Vec::new();
    let mut pos: usize = 0;
    assert(weighted(acc_collation_elements@) + collation_elements_from(
        ucd,
        nfd@,
        0,
        *variable_weighting,
    ) =~= collation_elements_from(ucd, nfd@, 0, *variable_weighting));
    while pos < nfd.len()
        invariant
            variable_weighting.supported(),
            all_valid_codepoints(nfd@),
            weighted(acc_collation_elements@) + collation_elements_from(
                ucd,
                nfd@,
                pos as int,
                *variable_weighting,
            ) == collation_elements_from(ucd, old(nfd)@, 0, *variable_weighting),
            buffer_after(ucd, nfd@, pos as int) == buffer_after(ucd, old(nfd)@, 0),
        decreases nfd.len() - pos,
    {
        let ghost buffer = nfd@;
        let ghost done = weighted(acc_collation_elements@);
        // The longest initial sequence that the table knows.
        let mut s: Vec<u32> = Vec::with_capacity(1);
        s.push(nfd[pos]);
        assert(s@ =~= nfd@.subrange(pos as int, pos + 1));
        let n = extend_contiguous(ucd, nfd, pos, &mut s);
        // Marks behind it that make a longer sequence that the table knows.
        if is_starter(ucd, nfd[pos + n - 1]) {
            proof {
                lemma_gathered_bounds(ucd, s@, nfd@, pos + n, 0);
            }
            gather_discontiguous(ucd, nfd, &mut s, pos + n);
        }
        proof {
            assert(matched_at(ucd, buffer, pos as int).key == s@);
            assert(matched_at(ucd, buffer, pos as int).buffer == nfd@);
            assert(s@.len() > 0 && s@[0] == buffer[pos as int]);
            assert(valid_codepoint(buffer[pos as int]));
        }
        // The elements of the table, or derived ones.
        let mut s_collation_elements = match collation_elements(ucd, &s) {
            TrieMatch::Match(es) => copy_elements(es),
            _ => derive_collation_elements(ucd, s),
        };
        apply_variable_weighting(&mut s_collation_elements, variable_weighting);
        let ghost fresh = weighted(s_collation_elements@);
        acc_collation_elements.append(&mut s_collation_elements);
        proof {
            assert(weighted(acc_collation_elements@) =~= done + fresh);
            assert((done + fresh) + collation_elements_from(
                ucd,
                nfd@,
                pos + n,
                *variable_weighting,
            ) =~= done + (fresh + collation_elements_from(
                ucd,
                nfd@,
                pos + n,
                *variable_weighting,
            )));
        }
        pos += n;
    }
    acc_collation_elements
}

/// Number of levels of a list of elements.
fn count_levels(ces: &Vec<CollationElement>) -> (levels: usize)
    ensures
        levels == level_count(weighted(ces@)),
{
    let mut levels: usize = 0;
    let mut i: usize = 0;
    let ghost elements = weighted(ces@);
    while i < ces.len()
        invariant
            i <= ces@.len(),
            elements == weighted(ces@),
            levels == level_count(elements.take(i as int)),
        decreases ces.len() - i,
    {
        proof {
            assert(elements.take(i + 1).drop_last() =~= elements.take(i as int));
            assert(elements.take(i + 1).last() == ces@[i as int]@);
        }
        if ces[i].weights.len() > levels {
            levels = ces[i].weights.len();
        }
        i += 1;
    }
    assert(elements.take(i as int) =~= elements);
    levels
}

/// Writes the elements out level by level: of each level the weights that
/// are not zero, then a zero.
pub fn to_sort_key(ces: Vec<CollationElement>) -> (sort_key: Vec<u16>)
    ensures
        sort_key@ == key_of(weighted(ces@)),
{
    let weight_count = count_levels(&ces);
    let level_separator: u16 = 0;
    let mut sort_key: Vec<u16> = Vec::new();
    let ghost elements = weighted(ces@);
    let mut level: usize = 0;
    while level < weight_count
        invariant
            level <= weight_count,
            level_separator == 0,
            elements == weighted(ces@),
            sort_key@ == key_levels(elements, level as nat),
        decreases weight_count - level,
    {
        let ghost before = sort_key@;
        let mut i: usize = 0;
        while i < ces.len()
            invariant
                i <= ces@.len(),
                elements == weighted(ces@),
                sort_key@ == before + level_weights(elements.take(i as int), level as int),
            decreases ces.len() - i,
        {
            proof {
                assert(elements.take(i + 1).drop_last() =~= elements.take(i as int));
                assert(elements.take(i + 1).last() == ces@[i as int]@);
            }
            let ce = &ces[i];
            if level < ce.weights.len() {
                let weight = ce.weights[level];
                if weight > 0 {
                    sort_key.push(weight);
                }
            }
            i += 1;
            assert(sort_key@ =~= before + level_weights(elements.take(i as int), level as int));
        }
        let ghost filled = sort_key@;
        sort_key.push(level_separator);
        proof {
            assert(elements.take(i as int) =~= elements);
            let level_part = level_weights(elements, level as int);
            assert(filled == before + level_part);
            assert(sort_key@ == filled.push(0u16));
            assert((before + level_part).push(0u16) =~= before + level_part.push(0u16));
        }
        level += 1;
    }
    sort_key
}

/// Index of the first codepoint that is not valid.
fn first_invalid(code_points: &Vec<u32>) -> (at: Option<usize>)
    ensures
        match at {
            Some(i) => i < code_points@.len() && !valid_codepoint(code_points@[i as int])
                && all_valid_codepoints(code_points@.take(i as int)),
            None => all_valid_codepoints(code_points@),
        },
{
    let mut i: usize = 0;
    while i < code_points.len()
        invariant
            i <= code_points@.len(),
            all_valid_codepoints(code_points@.take(i as int)),
        decreases code_points.len() - i,
    {
        if !is_valid_codepoint(code_points[i]) {
            return Some(i);
        }
        i += 1;
        assert forall|j: int| 0 <= j < i implies valid_codepoint(
            #[trigger] code_points@.take(i as int)[j],
        ) by {
            if j < i - 1 {
                assert(code_points@.take(i - 1)[j] == code_points@[j]);
            }
        }
    }
    assert(code_points@.take(i as int) =~= code_points@);
    None
}

/// The sort key of a codepoint sequence: binary comparison of two keys
/// orders the sequences they were made from. A sequence that holds an
/// invalid codepoint is refused with the index of the first such, and a
/// weighting mode that is not provided is refused by name.
pub fn sort_key(ucd: &Ucd, code_points: &Vec<u32>, variable_weighting: &VariableWeighting) -> (key:
    Result<Vec<u16>, TextError>)
    ensures
        match key {
            Ok(weights) => all_valid_codepoints(code_points@) && variable_weighting.supported()
                && weights@ == sort_key_of(ucd, code_points@, *variable_weighting),
            Err(TextError::Codec(e, at)) => e == DecodeErr::InvalidCodePoint && at < code_points@.len()
                && !valid_codepoint(code_points@[at as int]) && all_valid_codepoints(
                code_points@.take(at as int),
            ),
            Err(TextError::Unsupported(mode)) => all_valid_codepoints(code_points@)
                && !variable_weighting.supported() && mode == *variable_weighting,
            Err(TextError::ResourceUnavailable) => false,
        },
{
    match first_invalid(code_points) {
        Some(at) => {
            return Err(TextError::Codec(DecodeErr::InvalidCodePoint, at));
        },
        None => {},
    }
    match variable_weighting {
        VariableWeighting::Shifted => {
            return Err(TextError::Unsupported(VariableWeighting::Shifted));
        },
        VariableWeighting::ShiftTrimmed => {
            return Err(TextError::Unsupported(VariableWeighting::ShiftTrimmed));
        },
        _ => {},
    }
    let mut nfd = to_nfd(ucd, code_points);
    let collation_elements = to_collation_elements(ucd, &mut nfd, variable_weighting);
    Ok(to_sort_key(collation_elements))
}

} // verus!
