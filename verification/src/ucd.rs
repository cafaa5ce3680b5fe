//! The character properties that the algorithms read: decompositions and
//! composites, combining classes, quick-check flags, case mappings, break
//! classes and collation elements. A store is built once from plain tables
//! and never changes afterwards; a key that a table does not list has the
//! neutral value of its property.

use vstd::prelude::*;
use std::collections::{HashMap, HashSet};
use crate::error::TextError;
use crate::helpers::{all_valid_codepoints, is_valid_codepoint, valid_codepoint};
use crate::normalise::Normalisation;
use crate::trie::{begins_stored_key, pairs_map, Trie, TrieMatch};

verus! {

broadcast use vstd::std_specs::hash::group_hash_axioms;

/// Whether a codepoint may occur in a normalization form.
#[derive(Debug, PartialEq, Eq, Structural, Clone, Copy)]
pub enum QuickCheckVal {
    Yes,
    No,
    Maybe,
}

/// Grapheme_Cluster_Break property values.
#[derive(Copy, Clone, Debug, PartialEq, Eq, Structural)]
pub enum GraphemeClusterBreak {
    /// Control.
    CN,
    /// Carriage return.
    CR,
    /// E_Base.
    EB,
    /// E_Base_GAZ.
    EBG,
    /// E_Modifier.
    EM,
    /// Extend.
    EX,
    /// Glue_After_Zwj.
    GAZ,
    /// Hangul syllable type L.
    L,
    /// Line feed.
    LF,
    /// Hangul syllable type LV.
    LV,
    /// Hangul syllable type LVT.
    LVT,
    /// Prepend.
    PP,
    /// Regional_Indicator.
    RI,
    /// SpacingMark.
    SM,
    /// Hangul syllable type T.
    T,
    /// Hangul syllable type V.
    V,
    /// Any other codepoint.
    XX,
    /// Zero width joiner.
    ZWJ,
}

/// One collation element: a weight for each level, and whether the element
/// is variable.
#[derive(Debug, PartialEq, Eq, Clone)]
pub struct CollationElement {
    pub weights: Vec<u16>,
    pub variable: bool,
}

/// A collation element as a plain value.
pub struct Weighted {
    pub weights: Seq<u16>,
    pub variable: bool,
}

impl View for CollationElement {
    type V = Weighted;

    open spec fn view(&self) -> Weighted {
        Weighted { weights: self.weights@, variable: self.variable }
    }
}

/// The elements of a list as plain values.
pub open spec fn weighted(elements: Seq<CollationElement>) -> Seq<Weighted> {
    elements.map_values(|ce: CollationElement| ce@)
}

pub const S_BASE: u32 = 0xAC00;

pub const L_BASE: u32 = 0x1100;

pub const V_BASE: u32 = 0x1161;

pub const T_BASE: u32 = 0x11A7;

pub const L_COUNT: u32 = 19;

pub const V_COUNT: u32 = 21;

pub const T_COUNT: u32 = 28;

pub const N_COUNT: u32 = 588;

pub const S_COUNT: u32 = 11172;

/// A precomposed Hangul syllable.
pub open spec fn is_hangul_syllable(code_point: u32) -> bool {
    S_BASE <= code_point < S_BASE + S_COUNT
}

/// A syllable without a trailing consonant.
pub open spec fn is_hangul_lv(code_point: u32) -> bool {
    is_hangul_syllable(code_point) && (code_point - S_BASE) % (T_COUNT as int) == 0
}

/// A leading consonant that syllables are made of.
pub open spec fn is_leading_jamo(code_point: u32) -> bool {
    L_BASE <= code_point < L_BASE + L_COUNT
}

/// A vowel that syllables are made of.
pub open spec fn is_vowel_jamo(code_point: u32) -> bool {
    V_BASE <= code_point < V_BASE + V_COUNT
}

/// A trailing consonant that syllables are made of.
pub open spec fn is_trailing_jamo(code_point: u32) -> bool {
    T_BASE < code_point < T_BASE + T_COUNT
}

/// A conjoining jamo that syllables are made of.
pub open spec fn is_jamo(code_point: u32) -> bool {
    is_leading_jamo(code_point) || is_vowel_jamo(code_point) || is_trailing_jamo(code_point)
}

/// The two parts of a Hangul syllable: leading consonant and vowel, or
/// the syllable without its trailing consonant and that consonant.
pub open spec fn hangul_mapping(code_point: u32) -> Seq<u32> {
    let s = code_point - S_BASE;
    if s % (T_COUNT as int) == 0 {
        seq![(L_BASE + s / (N_COUNT as int)) as u32, (V_BASE + (s % (N_COUNT as int)) / (T_COUNT as int)) as u32]
    } else {
        seq![(code_point - s % (T_COUNT as int)) as u32, (T_BASE + s % (T_COUNT as int)) as u32]
    }
}

/// The syllable that two parts make, where they make one.
pub open spec fn hangul_composite(first: u32, second: u32) -> Option<u32> {
    if is_leading_jamo(first) && is_vowel_jamo(second) {
        Some((S_BASE + ((first - L_BASE) * V_COUNT + (second - V_BASE)) * T_COUNT) as u32)
    } else if is_hangul_lv(first) && is_trailing_jamo(second) {
        Some((first + (second - T_BASE)) as u32)
    } else {
        None
    }
}

/// A pair of codepoints as one key.
pub open spec fn pair_key(first: u32, second: u32) -> u64 {
    (first * 0x1_0000_0000 + second) as u64
}

/// How deep the decomposition of a part goes, as far as it is known: not
/// at all for a Hangul syllable, whose parts are computed, and for a
/// codepoint without a mapping.
pub open spec fn stored_depth(
    depths: Map<u32, usize>,
    mappings: Map<u32, Vec<u32>>,
    part: u32,
) -> Option<usize> {
    if is_hangul_syllable(part) || !mappings.contains_key(part) {
        Some(0usize)
    } else if depths.contains_key(part) {
        Some(depths[part])
    } else {
        None
    }
}

/// Every depth is that of a listed mapping, and greater than the depth of
/// each part of the mapping.
pub open spec fn ranked(depths: Map<u32, usize>, mappings: Map<u32, Vec<u32>>) -> bool {
    forall|k: u32| #[trigger]
        depths.contains_key(k) ==> {
            &&& mappings.contains_key(k)
            &&& !is_hangul_syllable(k)
            &&& forall|i: int|
                0 <= i < mappings[k]@.len() ==> {
                    &&& stored_depth(depths, mappings, #[trigger] mappings[k]@[i]) is Some
                    &&& stored_depth(depths, mappings, mappings[k]@[i])->Some_0 < depths[k]
                }
        }
}

/// The property store.
pub struct Ucd {
    decompositions: HashMap<u32, Vec<u32>>,
    depths: HashMap<u32, usize>,
    composites: HashMap<u64, u32>,
    combining_classes: HashMap<u32, u8>,
    nfc_quick_check_no: HashSet<u32>,
    nfc_quick_check_maybe: HashSet<u32>,
    nfd_quick_check_no: HashSet<u32>,
    uppercase_mappings: HashMap<u32, Vec<u32>>,
    lowercase_mappings: HashMap<u32, u32>,
    case_folding: HashMap<u32, Vec<u32>>,
    cased: HashSet<u32>,
    case_ignorable: HashSet<u32>,
    extended_pictorial: HashSet<u32>,
    unified_ideograph: HashSet<u32>,
    grapheme_cluster_breaks: HashMap<u32, GraphemeClusterBreak>,
    collation: Trie<Vec<CollationElement>>,
}

impl Ucd {
    /// The canonical decomposition mapping of a codepoint, one step of it:
    /// computed for Hangul syllables, listed for everything else.
    pub closed spec fn mapping(&self, code_point: u32) -> Option<Seq<u32>> {
        if is_hangul_syllable(code_point) {
            Some(hangul_mapping(code_point))
        } else if self.decompositions@.contains_key(code_point) {
            Some(self.decompositions@[code_point]@)
        } else {
            None
        }
    }

    /// How many steps of decomposition a codepoint can take at most.
    pub closed spec fn depth(&self, code_point: u32) -> nat {
        if is_hangul_syllable(code_point) {
            if is_hangul_lv(code_point) {
                1
            } else {
                2
            }
        } else if self.depths@.contains_key(code_point) {
            (self.depths@[code_point] + 2) as nat
        } else {
            0
        }
    }

    /// The primary composite of a pair, where it has one.
    pub closed spec fn composite(&self, first: u32, second: u32) -> Option<u32> {
        if hangul_composite(first, second) is Some {
            hangul_composite(first, second)
        } else if self.composites@.contains_key(pair_key(first, second)) {
            Some(self.composites@[pair_key(first, second)])
        } else {
            None
        }
    }

    /// Canonical combining class; 0 where none is listed.
    pub closed spec fn ccc(&self, code_point: u32) -> u8 {
        if self.combining_classes@.contains_key(code_point) {
            self.combining_classes@[code_point]
        } else {
            0
        }
    }

    /// Quick-check flag of a codepoint for a form; `Yes` where none is listed.
    pub closed spec fn quick_check_flag(
        &self,
        code_point: u32,
        normalisation: Normalisation,
    ) -> QuickCheckVal {
        match normalisation {
            Normalisation::NFC => {
                if self.nfc_quick_check_maybe@.contains(code_point) {
                    QuickCheckVal::Maybe
                } else if self.nfc_quick_check_no@.contains(code_point) {
                    QuickCheckVal::No
                } else {
                    QuickCheckVal::Yes
                }
            },
            Normalisation::NFD => {
                if self.nfd_quick_check_no@.contains(code_point) {
                    QuickCheckVal::No
                } else {
                    QuickCheckVal::Yes
                }
            },
        }
    }

    /// Simple lowercase mapping, where one is listed.
    pub closed spec fn lower(&self, code_point: u32) -> Option<u32> {
        if self.lowercase_mappings@.contains_key(code_point) {
            Some(self.lowercase_mappings@[code_point])
        } else {
            None
        }
    }

    /// Full uppercase mapping, where one is listed.
    pub closed spec fn upper(&self, code_point: u32) -> Option<Seq<u32>> {
        if self.uppercase_mappings@.contains_key(code_point) {
            Some(self.uppercase_mappings@[code_point]@)
        } else {
            None
        }
    }

    /// Full case folding, where one is listed.
    pub closed spec fn folding(&self, code_point: u32) -> Option<Seq<u32>> {
        if self.case_folding@.contains_key(code_point) {
            Some(self.case_folding@[code_point]@)
        } else {
            None
        }
    }

    /// The codepoint is cased.
    pub closed spec fn is_cased(&self, code_point: u32) -> bool {
        self.cased@.contains(code_point)
    }

    /// The codepoint is case-ignorable.
    pub closed spec fn is_case_ignorable(&self, code_point: u32) -> bool {
        self.case_ignorable@.contains(code_point)
    }

    /// The codepoint is Extended_Pictographic.
    pub closed spec fn is_extended_pictorial(&self, code_point: u32) -> bool {
        self.extended_pictorial@.contains(code_point)
    }

    /// The codepoint is a Unified_Ideograph.
    pub closed spec fn is_unified_ideograph(&self, code_point: u32) -> bool {
        self.unified_ideograph@.contains(code_point)
    }

    /// Grapheme_Cluster_Break of a codepoint; `XX` where none is listed.
    pub closed spec fn break_class(&self, code_point: u32) -> GraphemeClusterBreak {
        if self.grapheme_cluster_breaks@.contains_key(code_point) {
            self.grapheme_cluster_breaks@[code_point]
        } else {
            GraphemeClusterBreak::XX
        }
    }

    /// What the collation table holds for a codepoint sequence.
    pub closed spec fn contraction(&self, key: Seq<u32>) -> TrieMatch<Seq<Weighted>> {
        if self.collation@.contains_key(key) {
            TrieMatch::Match(weighted(self.collation@[key]@))
        } else if begins_stored_key(self.collation@, key) {
            TrieMatch::PartialMatch
        } else {
            TrieMatch::NoMatch
        }
    }

    /// What holds of every store: decomposition ends, the parts of a
    /// composite are its decomposition, classes stay in range, and the
    /// tables hold valid codepoints only.
    #[verifier::type_invariant]
    pub closed spec fn wf(&self) -> bool {
        &&& self.collation.wf()
        &&& forall|k: u32| #[trigger]
            self.decompositions@.contains_key(k) ==> {
                &&& !is_jamo(k)
                &&& all_valid_codepoints(self.decompositions@[k]@)
                &&& !is_hangul_syllable(k) ==> self.depths@.contains_key(k)
            }
        &&& ranked(self.depths@, self.decompositions@)
        &&& forall|first: u32, second: u32| #[trigger]
            self.composites@.contains_key(pair_key(first, second)) ==> {
                let whole = self.composites@[pair_key(first, second)];
                &&& valid_codepoint(whole)
                &&& !is_hangul_syllable(whole)
                &&& self.decompositions@.contains_key(whole)
                &&& self.decompositions@[whole]@ == seq![first, second]
            }
        &&& forall|k: u32| #[trigger]
            self.combining_classes@.contains_key(k) ==> self.combining_classes@[k] <= 254
        &&& forall|k: u32| #[trigger]
            self.lowercase_mappings@.contains_key(k) ==> valid_codepoint(
                self.lowercase_mappings@[k],
            )
        &&& forall|k: u32| #[trigger]
            self.uppercase_mappings@.contains_key(k) ==> all_valid_codepoints(
                self.uppercase_mappings@[k]@,
            )
        &&& forall|k: u32| #[trigger]
            self.case_folding@.contains_key(k) ==> all_valid_codepoints(self.case_folding@[k]@)
    }

    /// Each part of a decomposition mapping can take fewer steps than the
    /// whole.
    pub proof fn lemma_mapping_depth(&self, code_point: u32, i: int)
        requires
            self.wf(),
            self.mapping(code_point) is Some,
            0 <= i < self.mapping(code_point)->Some_0.len(),
        ensures
            self.depth(self.mapping(code_point)->Some_0[i]) < self.depth(code_point),
    {
        if is_hangul_syllable(code_point) {
            lemma_hangul_mapping(code_point);
            let part = hangul_mapping(code_point)[i];
            if is_jamo(part) {
                if self.depths@.contains_key(part) {
                    assert(self.decompositions@.contains_key(part));
                }
            }
        } else {
            assert(self.decompositions@.contains_key(code_point));
            assert(self.depths@.contains_key(code_point));
            let part = self.decompositions@[code_point]@[i];
            assert(stored_depth(self.depths@, self.decompositions@, part) is Some);
            if self.depths@.contains_key(part) {
                assert(self.decompositions@.contains_key(part));
            }
        }
    }

    /// A decomposition mapping of a valid codepoint holds valid codepoints.
    pub proof fn lemma_mapping_valid(&self, code_point: u32)
        requires
            self.wf(),
            self.mapping(code_point) is Some,
        ensures
            all_valid_codepoints(self.mapping(code_point)->Some_0),
    {
        if is_hangul_syllable(code_point) {
            lemma_hangul_mapping(code_point);
        } else {
            assert(self.decompositions@.contains_key(code_point));
        }
    }

    /// A primary composite decomposes into the pair that makes it, and is a
    /// valid codepoint.
    pub proof fn lemma_composite_mapping(&self, first: u32, second: u32)
        requires
            self.wf(),
            self.composite(first, second) is Some,
        ensures
            self.mapping(self.composite(first, second)->Some_0) == Some(seq![first, second]),
            valid_codepoint(self.composite(first, second)->Some_0),
    {
        if hangul_composite(first, second) is Some {
            lemma_hangul_composite(first, second);
        } else {
            assert(self.composites@.contains_key(pair_key(first, second)));
        }
    }

    /// No combining class lies above 254.
    pub proof fn lemma_ccc_range(&self, code_point: u32)
        requires
            self.wf(),
        ensures
            self.ccc(code_point) <= 254,
    {
        if self.combining_classes@.contains_key(code_point) {
        }
    }

    /// Case mappings hold valid codepoints.
    pub proof fn lemma_case_valid(&self, code_point: u32)
        requires
            self.wf(),
        ensures
            self.lower(code_point) matches Some(l) ==> valid_codepoint(l),
            self.upper(code_point) matches Some(u) ==> all_valid_codepoints(u),
            self.folding(code_point) matches Some(f) ==> all_valid_codepoints(f),
    {
        if self.lowercase_mappings@.contains_key(code_point) {
        }
        if self.uppercase_mappings@.contains_key(code_point) {
        }
        if self.case_folding@.contains_key(code_point) {
        }
    }
}

/// The parts of a Hangul syllable are a smaller syllable or jamo, and all
/// valid.
pub proof fn lemma_hangul_mapping(code_point: u32)
    requires
        is_hangul_syllable(code_point),
    ensures
        hangul_mapping(code_point).len() == 2,
        all_valid_codepoints(hangul_mapping(code_point)),
        is_hangul_lv(code_point) ==> is_leading_jamo(hangul_mapping(code_point)[0])
            && is_vowel_jamo(hangul_mapping(code_point)[1]),
        !is_hangul_lv(code_point) ==> is_hangul_lv(hangul_mapping(code_point)[0])
            && is_trailing_jamo(hangul_mapping(code_point)[1]),
        hangul_composite(hangul_mapping(code_point)[0], hangul_mapping(code_point)[1]) == Some(
            code_point,
        ),
{
    let s = (code_point - S_BASE) as int;
    let parts = hangul_mapping(code_point);
    assert(0 <= s < 11172);
    if s % 28 == 0 {
        let l = s / 588;
        let v = (s % 588) / 28;
        assert(0 <= l < 19);
        assert(0 <= v < 21);
        assert(s == l * 588 + (s % 588));
        assert((s % 588) % 28 == 0) by {
            assert(s % 28 == 0);
            assert(588 == 21 * 28);
            assert(s == 588 * l + (s % 588));
        }
        assert(s % 588 == v * 28);
        assert((l * 21 + v) * 28 == s);
    } else {
        let t = s % 28;
        assert(0 < t < 28);
        assert((s - t) % 28 == 0);
    }
}

/// The syllable that two parts make has these parts as its mapping.
pub proof fn lemma_hangul_composite(first: u32, second: u32)
    requires
        hangul_composite(first, second) is Some,
    ensures
        is_hangul_syllable(hangul_composite(first, second)->Some_0),
        hangul_mapping(hangul_composite(first, second)->Some_0) == seq![first, second],
        valid_codepoint(hangul_composite(first, second)->Some_0),
{
    let whole = hangul_composite(first, second)->Some_0;
    if is_leading_jamo(first) && is_vowel_jamo(second) {
        let l = (first - L_BASE) as int;
        let v = (second - V_BASE) as int;
        let s = (l * 21 + v) * 28;
        assert(0 <= l < 19 && 0 <= v < 21);
        assert(0 <= l * 21 + v < 399);
        assert(s == l * 588 + v * 28);
        assert(s % 28 == 0);
        assert(s / 588 == l);
        assert(s % 588 == v * 28);
        assert((s % 588) / 28 == v);
        assert(whole == S_BASE + s);
        assert(hangul_mapping(whole) =~= seq![first, second]);
    } else {
        let s0 = (first - S_BASE) as int;
        let t = (second - T_BASE) as int;
        assert(0 < t < 28);
        assert(s0 % 28 == 0);
        assert(s0 <= 11172 - 28) by {
            assert(s0 < 11172);
            assert(11172 == 399 * 28);
        }
        let s = s0 + t;
        assert(s % 28 == t);
        assert(whole == S_BASE + s);
        assert(hangul_mapping(whole) =~= seq![first, second]);
    }
}

/// A copy of a list of codepoints.
pub fn copy_code_points(code_points: &Vec<u32>) -> (copy: Vec<u32>)
    ensures
        copy@ == code_points@,
{
    let mut copy: Vec<u32> = Vec::with_capacity(code_points.len());
    let mut i: usize = 0;
    while i < code_points.len()
        invariant
            i <= code_points@.len(),
            copy@ == code_points@.take(i as int),
        decreases code_points.len() - i,
    {
        copy.push(code_points[i]);
        i += 1;
        assert(copy@ =~= code_points@.take(i as int));
    }
    assert(code_points@.take(i as int) =~= code_points@);
    copy
}

/// The two parts of a Hangul syllable.
fn hangul_parts(code_point: u32) -> (parts: Vec<u32>)
    requires
        is_hangul_syllable(code_point),
    ensures
        parts@ == hangul_mapping(code_point),
{
    let s = code_point - S_BASE;
    let mut parts: Vec<u32> = Vec::with_capacity(2);
    if s % T_COUNT == 0 {
        parts.push(L_BASE + s / N_COUNT);
        parts.push(V_BASE + (s % N_COUNT) / T_COUNT);
    } else {
        parts.push(code_point - s % T_COUNT);
        parts.push(T_BASE + s % T_COUNT);
    }
    assert(parts@ =~= hangul_mapping(code_point));
    parts
}

/// The canonical decomposition mapping of a codepoint, one step of it.
pub fn decomposition_mapping(ucd: &Ucd, code_point: u32) -> (mapping: Option<Vec<u32>>)
    ensures
        match mapping {
            Some(parts) => ucd.mapping(code_point) == Some(parts@),
            None => ucd.mapping(code_point) is None,
        },
{
    if S_BASE <= code_point && code_point < S_BASE + S_COUNT {
        Some(hangul_parts(code_point))
    } else {
        match ucd.decompositions.get(&code_point) {
            Some(parts) => Some(copy_code_points(parts)),
            None => None,
        }
    }
}

/// The canonical combining class of a codepoint.
pub fn combining_class(ucd: &Ucd, code_point: u32) -> (class: u8)
    ensures
        class == ucd.ccc(code_point),
        class <= 254,
{
    proof {
        use_type_invariant(ucd);
        ucd.lemma_ccc_range(code_point);
    }
    match ucd.combining_classes.get(&code_point) {
        Some(class) => *class,
        None => 0,
    }
}

/// Whether a codepoint is of combining class 0.
pub fn is_starter(ucd: &Ucd, code_point: u32) -> (starter: bool)
    ensures
        starter == (ucd.ccc(code_point) == 0),
{
    combining_class(ucd, code_point) == 0
}

/// The quick-check flag of a codepoint for a normalization form.
pub fn is_allowed(ucd: &Ucd, code_point: u32, normalisation: &Normalisation) -> (flag:
    QuickCheckVal)
    ensures
        flag == ucd.quick_check_flag(code_point, *normalisation),
{
    match normalisation {
        Normalisation::NFC => {
            if ucd.nfc_quick_check_maybe.contains(&code_point) {
                QuickCheckVal::Maybe
            } else if ucd.nfc_quick_check_no.contains(&code_point) {
                QuickCheckVal::No
            } else {
                QuickCheckVal::Yes
            }
        },
        Normalisation::NFD => {
            if ucd.nfd_quick_check_no.contains(&code_point) {
                QuickCheckVal::No
            } else {
                QuickCheckVal::Yes
            }
        },
    }
}

/// The key under which a pair of codepoints is filed.
fn pair_key_of(first: u32, second: u32) -> (key: u64)
    ensures
        key == pair_key(first, second),
{
    (first as u64) * 0x1_0000_0000 + (second as u64)
}

/// The Hangul syllable that two codepoints make, where they make one.
fn compose_hangul(first: u32, second: u32) -> (whole: Option<u32>)
    ensures
        whole == hangul_composite(first, second),
{
    if L_BASE <= first && first < L_BASE + L_COUNT && V_BASE <= second && second < V_BASE
        + V_COUNT {
        Some(S_BASE + ((first - L_BASE) * V_COUNT + (second - V_BASE)) * T_COUNT)
    } else if S_BASE <= first && first < S_BASE + S_COUNT && (first - S_BASE) % T_COUNT == 0
        && T_BASE < second && second < T_BASE + T_COUNT {
        Some(first + (second - T_BASE))
    } else {
        None
    }
}

/// The primary composite of two codepoints, where they have one.
pub fn primary_composite(ucd: &Ucd, l: u32, c: u32) -> (whole: Option<u32>)
    ensures
        whole == ucd.composite(l, c),
{
    match compose_hangul(l, c) {
        Some(syllable) => Some(syllable),
        None => match ucd.composites.get(&pair_key_of(l, c)) {
            Some(whole) => Some(*whole),
            None => None,
        },
    }
}

/// The simple lowercase mapping of a codepoint, where one is listed.
pub fn lowercase_mapping(ucd: &Ucd, code_point: u32) -> (lower: Option<u32>)
    ensures
        lower == ucd.lower(code_point),
{
    match ucd.lowercase_mappings.get(&code_point) {
        Some(lower) => Some(*lower),
        None => None,
    }
}

/// The full uppercase mapping of a codepoint, where one is listed.
pub fn uppercase_mapping(ucd: &Ucd, code_point: u32) -> (upper: Option<Vec<u32>>)
    ensures
        match upper {
            Some(mapping) => ucd.upper(code_point) == Some(mapping@),
            None => ucd.upper(code_point) is None,
        },
{
    match ucd.uppercase_mappings.get(&code_point) {
        Some(mapping) => Some(copy_code_points(mapping)),
        None => None,
    }
}

/// Whether a codepoint is cased.
pub fn cased(ucd: &Ucd, code_point: u32) -> (is: bool)
    ensures
        is == ucd.is_cased(code_point),
{
    ucd.cased.contains(&code_point)
}

/// Whether a codepoint is case-ignorable.
pub fn case_ignorable(ucd: &Ucd, code_point: u32) -> (is: bool)
    ensures
        is == ucd.is_case_ignorable(code_point),
{
    ucd.case_ignorable.contains(&code_point)
}

/// The full case folding of a codepoint, where one is listed.
pub fn case_folding(ucd: &Ucd, code_point: u32) -> (folded: Option<Vec<u32>>)
    ensures
        match folded {
            Some(mapping) => ucd.folding(code_point) == Some(mapping@),
            None => ucd.folding(code_point) is None,
        },
{
    match ucd.case_folding.get(&code_point) {
        Some(mapping) => Some(copy_code_points(mapping)),
        None => None,
    }
}

/// The Grapheme_Cluster_Break class of a codepoint.
pub fn grapheme_cluster_break(ucd: &Ucd, code_point: u32) -> (class: GraphemeClusterBreak)
    ensures
        class == ucd.break_class(code_point),
{
    match ucd.grapheme_cluster_breaks.get(&code_point) {
        Some(class) => *class,
        None => GraphemeClusterBreak::XX,
    }
}

/// Whether a codepoint is Extended_Pictographic.
pub fn extended_pictorial(ucd: &Ucd, code_point: u32) -> (is: bool)
    ensures
        is == ucd.is_extended_pictorial(code_point),
{
    ucd.extended_pictorial.contains(&code_point)
}

/// Whether a codepoint is a Unified_Ideograph.
pub fn unified_ideograph(ucd: &Ucd, code_point: u32) -> (is: bool)
    ensures
        is == ucd.is_unified_ideograph(code_point),
{
    ucd.unified_ideograph.contains(&code_point)
}

/// Looks a codepoint sequence up in the collation table.
pub fn collation_elements<'a>(ucd: &'a Ucd, key: &Vec<u32>) -> (found: TrieMatch<
    &'a Vec<CollationElement>,
>)
    ensures
        match found {
            TrieMatch::Match(elements) => ucd.contraction(key@) == TrieMatch::Match(
                weighted(elements@),
            ),
            TrieMatch::PartialMatch => ucd.contraction(key@) == TrieMatch::<
                Seq<Weighted>,
            >::PartialMatch,
            TrieMatch::NoMatch => ucd.contraction(key@) == TrieMatch::<Seq<Weighted>>::NoMatch,
        },
{
    proof {
        use_type_invariant(ucd);
    }
    ucd.collation.find(key)
}

/// The tables that a store is built from, as plain lists. Where a list
/// names a key twice, the later entry counts.
#[derive(Debug, Clone, PartialEq, Eq)]
pub struct UcdTables {
    /// Codepoint and its canonical decomposition mapping, one step of it.
    pub decomposition_mappings: Vec<(u32, Vec<u32>)>,
    /// First codepoint, second codepoint, and their primary composite.
    pub primary_composites: Vec<(u32, u32, u32)>,
    /// Codepoint and its canonical combining class.
    pub combining_classes: Vec<(u32, u8)>,
    pub nfc_quick_check_no: Vec<u32>,
    pub nfc_quick_check_maybe: Vec<u32>,
    pub nfd_quick_check_no: Vec<u32>,
    /// Codepoint and its full uppercase mapping.
    pub uppercase_mappings: Vec<(u32, Vec<u32>)>,
    /// Codepoint and its simple lowercase mapping.
    pub lowercase_mappings: Vec<(u32, u32)>,
    /// Codepoint and its full case folding.
    pub case_folding: Vec<(u32, Vec<u32>)>,
    pub cased: Vec<u32>,
    pub case_ignorable: Vec<u32>,
    pub extended_pictorial: Vec<u32>,
    pub unified_ideograph: Vec<u32>,
    pub grapheme_cluster_break: Vec<(u32, GraphemeClusterBreak)>,
    /// Codepoint sequence and its collation elements.
    pub collation_elements: Vec<(Vec<u32>, Vec<CollationElement>)>,
}

/// What a list of pairs holds for a key: the value of the last pair with
/// that key.
pub open spec fn entry<V>(pairs: Seq<(u32, V)>, key: u32) -> Option<V>
    decreases pairs.len(),
{
    if pairs.len() == 0 {
        None
    } else if pairs.last().0 == key {
        Some(pairs.last().1)
    } else {
        entry(pairs.drop_last(), key)
    }
}

/// What a list of composites holds for a pair: the composite of the last
/// entry with that pair.
pub open spec fn pair_entry(triples: Seq<(u32, u32, u32)>, first: u32, second: u32) -> Option<u32>
    decreases triples.len(),
{
    if triples.len() == 0 {
        None
    } else if triples.last().0 == first && triples.last().1 == second {
        Some(triples.last().2)
    } else {
        pair_entry(triples.drop_last(), first, second)
    }
}

/// What a list holds for a key stands in the list.
pub proof fn lemma_entry_listed<V>(pairs: Seq<(u32, V)>, key: u32) -> (i: int)
    requires
        entry(pairs, key) is Some,
    ensures
        0 <= i < pairs.len(),
        pairs[i].0 == key,
        pairs[i].1 == entry(pairs, key)->Some_0,
    decreases pairs.len(),
{
    if pairs.last().0 == key {
        pairs.len() - 1
    } else {
        lemma_entry_listed(pairs.drop_last(), key)
    }
}

/// A key that stands in the list has an entry.
pub proof fn lemma_listed_entry<V>(pairs: Seq<(u32, V)>, i: int)
    requires
        0 <= i < pairs.len(),
    ensures
        entry(pairs, pairs[i].0) is Some,
    decreases pairs.len(),
{
    if pairs.last().0 != pairs[i].0 {
        lemma_listed_entry(pairs.drop_last(), i);
    }
}

/// Every listed mapping holds valid codepoints only.
pub open spec fn mappings_valid(pairs: Seq<(u32, Vec<u32>)>) -> bool {
    forall|i: int| 0 <= i < pairs.len() ==> all_valid_codepoints((#[trigger] pairs[i]).1@)
}

/// No conjoining jamo has a mapping.
pub open spec fn keys_without_jamo(pairs: Seq<(u32, Vec<u32>)>) -> bool {
    forall|i: int| 0 <= i < pairs.len() ==> !is_jamo((#[trigger] pairs[i]).0)
}

/// No listed class lies above 254.
pub open spec fn classes_in_range(pairs: Seq<(u32, u8)>) -> bool {
    forall|i: int| 0 <= i < pairs.len() ==> (#[trigger] pairs[i]).1 <= 254
}

/// Every listed value is a valid codepoint.
pub open spec fn values_valid(pairs: Seq<(u32, u32)>) -> bool {
    forall|i: int| 0 <= i < pairs.len() ==> valid_codepoint((#[trigger] pairs[i]).1)
}

/// A listed composite fits: where the pair makes a Hangul syllable, it is
/// that syllable; else it is a valid codepoint outside the Hangul syllables
/// whose decomposition mapping is the pair.
pub open spec fn composite_fits(triple: (u32, u32, u32), mappings: Seq<(u32, Vec<u32>)>) -> bool {
    let (first, second, whole) = triple;
    if hangul_composite(first, second) is Some {
        hangul_composite(first, second) == Some(whole)
    } else {
        &&& valid_codepoint(whole)
        &&& !is_hangul_syllable(whole)
        &&& entry(mappings, whole) is Some
        &&& entry(mappings, whole)->Some_0@ == seq![first, second]
    }
}

/// Every listed composite fits.
pub open spec fn composites_fit(
    triples: Seq<(u32, u32, u32)>,
    mappings: Seq<(u32, Vec<u32>)>,
) -> bool {
    forall|i: int| 0 <= i < triples.len() ==> composite_fits(#[trigger] triples[i], mappings)
}

fn all_valid(code_points: &Vec<u32>) -> (valid: bool)
    ensures
        valid == all_valid_codepoints(code_points@),
{
    let mut i: usize = 0;
    while i < code_points.len()
        invariant
            i <= code_points@.len(),
            forall|j: int| 0 <= j < i ==> valid_codepoint(#[trigger] code_points@[j]),
        decreases code_points.len() - i,
    {
        if !is_valid_codepoint(code_points[i]) {
            return false;
        }
        i += 1;
    }
    true
}

fn check_mappings(pairs: &Vec<(u32, Vec<u32>)>) -> (valid: bool)
    ensures
        valid == mappings_valid(pairs@),
{
    let mut i: usize = 0;
    while i < pairs.len()
        invariant
            i <= pairs@.len(),
            forall|j: int| 0 <= j < i ==> all_valid_codepoints((#[trigger] pairs@[j]).1@),
        decreases pairs.len() - i,
    {
        if !all_valid(&pairs[i].1) {
            return false;
        }
        i += 1;
    }
    true
}

fn is_jamo_code(code_point: u32) -> (jamo: bool)
    ensures
        jamo == is_jamo(code_point),
{
    (L_BASE <= code_point && code_point < L_BASE + L_COUNT) || (V_BASE <= code_point && code_point
        < V_BASE + V_COUNT) || (T_BASE < code_point && code_point < T_BASE + T_COUNT)
}

fn is_syllable(code_point: u32) -> (syllable: bool)
    ensures
        syllable == is_hangul_syllable(code_point),
{
    S_BASE <= code_point && code_point < S_BASE + S_COUNT
}

fn check_keys(pairs: &Vec<(u32, Vec<u32>)>) -> (valid: bool)
    ensures
        valid == keys_without_jamo(pairs@),
{
    let mut i: usize = 0;
    while i < pairs.len()
        invariant
            i <= pairs@.len(),
            forall|j: int| 0 <= j < i ==> !is_jamo((#[trigger] pairs@[j]).0),
        decreases pairs.len() - i,
    {
        if is_jamo_code(pairs[i].0) {
            return false;
        }
        i += 1;
    }
    true
}

fn check_classes(pairs: &Vec<(u32, u8)>) -> (valid: bool)
    ensures
        valid == classes_in_range(pairs@),
{
    let mut i: usize = 0;
    while i < pairs.len()
        invariant
            i <= pairs@.len(),
            forall|j: int| 0 <= j < i ==> (#[trigger] pairs@[j]).1 <= 254,
        decreases pairs.len() - i,
    {
        if pairs[i].1 > 254 {
            return false;
        }
        i += 1;
    }
    true
}

fn check_values(pairs: &Vec<(u32, u32)>) -> (valid: bool)
    ensures
        valid == values_valid(pairs@),
{
    let mut i: usize = 0;
    while i < pairs.len()
        invariant
            i <= pairs@.len(),
            forall|j: int| 0 <= j < i ==> valid_codepoint((#[trigger] pairs@[j]).1),
        decreases pairs.len() - i,
    {
        if !is_valid_codepoint(pairs[i].1) {
            return false;
        }
        i += 1;
    }
    true
}

fn build_set(list: &Vec<u32>) -> (set: HashSet<u32>)
    ensures
        forall|code_point: u32| set@.contains(code_point) <==> list@.contains(code_point),
{
    let mut set: HashSet<u32> = HashSet::new();
    let mut i: usize = 0;
    while i < list.len()
        invariant
            i <= list@.len(),
            forall|code_point: u32|
                set@.contains(code_point) <==> exists|j: int|
                    0 <= j < i && #[trigger] list@[j] == code_point,
        decreases list.len() - i,
    {
        let ghost before = set@;
        set.insert(list[i]);
        proof {
            assert forall|code_point: u32|
                set@.contains(code_point) <==> exists|j: int|
                    0 <= j < i + 1 && #[trigger] list@[j] == code_point by {
                if before.contains(code_point) {
                    let j = choose|j: int| 0 <= j < i && #[trigger] list@[j] == code_point;
                    assert(0 <= j < i + 1 && list@[j] == code_point);
                }
                if code_point == list@[i as int] {
                    assert(0 <= i < i + 1 && list@[i as int] == code_point);
                }
            }
        }
        i += 1;
    }
    set
}

/// What the map holds is what the list holds.
pub open spec fn holds_entries<V>(map: Map<u32, V>, pairs: Seq<(u32, V)>) -> bool {
    forall|key: u32|
        match #[trigger] entry(pairs, key) {
            Some(value) => map.contains_key(key) && map[key] == value,
            None => !map.contains_key(key),
        }
}

/// What the map holds is what the list holds, list for list.
pub open spec fn holds_lists(map: Map<u32, Vec<u32>>, pairs: Seq<(u32, Vec<u32>)>) -> bool {
    forall|key: u32|
        match #[trigger] entry(pairs, key) {
            Some(value) => map.contains_key(key) && map[key]@ == value@,
            None => !map.contains_key(key),
        }
}

fn build_map<V: Copy>(pairs: &Vec<(u32, V)>) -> (map: HashMap<u32, V>)
    ensures
        holds_entries(map@, pairs@),
{
    let mut map: HashMap<u32, V> = HashMap::new();
    let mut i: usize = 0;
    while i < pairs.len()
        invariant
            i <= pairs@.len(),
            holds_entries(map@, pairs@.take(i as int)),
        decreases pairs.len() - i,
    {
        let ghost before = map@;
        let key = pairs[i].0;
        let value = pairs[i].1;
        map.insert(key, value);
        proof {
            let upto = pairs@.take(i + 1);
            assert(upto.drop_last() =~= pairs@.take(i as int));
            assert(upto.last() == pairs@[i as int]);
            assert forall|k: u32|
                match #[trigger] entry(upto, k) {
                    Some(v) => map@.contains_key(k) && map@[k] == v,
                    None => !map@.contains_key(k),
                } by {
                if k != key {
                    assert(entry(upto, k) == entry(pairs@.take(i as int), k));
                }
            }
        }
        i += 1;
    }
    assert(pairs@.take(i as int) =~= pairs@);
    map
}

fn build_list_map(pairs: &Vec<(u32, Vec<u32>)>) -> (map: HashMap<u32, Vec<u32>>)
    ensures
        holds_lists(map@, pairs@),
{
    let mut map: HashMap<u32, Vec<u32>> = HashMap::new();
    let mut i: usize = 0;
    while i < pairs.len()
        invariant
            i <= pairs@.len(),
            holds_lists(map@, pairs@.take(i as int)),
        decreases pairs.len() - i,
    {
        let key = pairs[i].0;
        let value = copy_code_points(&pairs[i].1);
        map.insert(key, value);
        proof {
            let upto = pairs@.take(i + 1);
            assert(upto.drop_last() =~= pairs@.take(i as int));
            assert(upto.last() == pairs@[i as int]);
            assert forall|k: u32|
                match #[trigger] entry(upto, k) {
                    Some(v) => map@.contains_key(k) && map@[k]@ == v@,
                    None => !map@.contains_key(k),
                } by {
                if k != key {
                    assert(entry(upto, k) == entry(pairs@.take(i as int), k));
                }
            }
        }
        i += 1;
    }
    assert(pairs@.take(i as int) =~= pairs@);
    map
}

/// What the map holds is what the list of composites holds for the pairs
/// that make no Hangul syllable.
pub open spec fn holds_composites(map: Map<u64, u32>, triples: Seq<(u32, u32, u32)>) -> bool {
    forall|first: u32, second: u32|
        if hangul_composite(first, second) is Some {
            !map.contains_key(#[trigger] pair_key(first, second))
        } else {
            match pair_entry(triples, first, second) {
                Some(whole) => map.contains_key(#[trigger] pair_key(first, second)) && map[pair_key(
                    first,
                    second,
                )] == whole,
                None => !map.contains_key(#[trigger] pair_key(first, second)),
            }
        }
}

/// Different pairs have different keys.
pub proof fn lemma_pair_key_distinct(a: u32, b: u32, c: u32, d: u32)
    ensures
        pair_key(a, b) == pair_key(c, d) <==> a == c && b == d,
{
    assert(a * 0x1_0000_0000 + b < 0x1_0000_0000_0000_0000);
    assert(c * 0x1_0000_0000 + d < 0x1_0000_0000_0000_0000);
}

/// What a list of composites holds for a pair stands in the list.
pub proof fn lemma_pair_entry_listed(triples: Seq<(u32, u32, u32)>, first: u32, second: u32) -> (i:
    int)
    requires
        pair_entry(triples, first, second) is Some,
    ensures
        0 <= i < triples.len(),
        triples[i] == (first, second, pair_entry(triples, first, second)->Some_0),
    decreases triples.len(),
{
    if triples.last().0 == first && triples.last().1 == second {
        triples.len() - 1
    } else {
        lemma_pair_entry_listed(triples.drop_last(), first, second)
    }
}

/// Files the composites under their pairs, if each of them fits the
/// decomposition mappings.
fn build_composites(
    triples: &Vec<(u32, u32, u32)>,
    mappings: &HashMap<u32, Vec<u32>>,
    Ghost(pairs): Ghost<Seq<(u32, Vec<u32>)>>,
) -> (built: Option<HashMap<u64, u32>>)
    requires
        holds_lists(mappings@, pairs),
    ensures
        match built {
            Some(map) => composites_fit(triples@, pairs) && holds_composites(map@, triples@),
            None => !composites_fit(triples@, pairs),
        },
{
    let mut map: HashMap<u64, u32> = HashMap::new();
    let mut i: usize = 0;
    while i < triples.len()
        invariant
            i <= triples@.len(),
            holds_lists(mappings@, pairs),
            composites_fit(triples@.take(i as int), pairs),
            holds_composites(map@, triples@.take(i as int)),
        decreases triples.len() - i,
    {
        let first = triples[i].0;
        let second = triples[i].1;
        let whole = triples[i].2;
        let ghost upto = triples@.take(i + 1);
        proof {
            assert(entry(pairs, whole) is Some ==> mappings@.contains_key(whole));
            assert(upto.drop_last() =~= triples@.take(i as int));
            assert(upto.last() == triples@[i as int]);
            assert(triples@[i as int] == (first, second, whole));
        }
        match compose_hangul(first, second) {
            Some(syllable) => {
                if syllable != whole {
                    assert(!composite_fits(triples@[i as int], pairs));
                    return None;
                }
                proof {
                    assert forall|a: u32, b: u32|
                        hangul_composite(a, b) is None implies pair_entry(upto, a, b)
                        == pair_entry(triples@.take(i as int), a, b) by {}
                }
            },
            None => {
                let fits = is_valid_codepoint(whole) && !is_syllable(whole) && match mappings.get(
                    &whole,
                ) {
                    Some(parts) => parts.len() == 2 && parts[0] == first && parts[1] == second,
                    None => false,
                };
                if !fits {
                    proof {
                        if entry(pairs, whole) is Some && entry(pairs, whole)->Some_0@ == seq![
                            first,
                            second,
                        ] {
                            assert(mappings@[whole]@ =~= seq![first, second]);
                        }
                        assert(!composite_fits(triples@[i as int], pairs));
                    }
                    return None;
                }
                let ghost before = map@;
                map.insert(pair_key_of(first, second), whole);
                proof {
                    assert(mappings@[whole]@ =~= seq![first, second]);
                    assert forall|a: u32, b: u32|
                        if hangul_composite(a, b) is Some {
                            !map@.contains_key(#[trigger] pair_key(a, b))
                        } else {
                            match pair_entry(upto, a, b) {
                                Some(w) => map@.contains_key(#[trigger] pair_key(a, b))
                                    && map@[pair_key(a, b)] == w,
                                None => !map@.contains_key(#[trigger] pair_key(a, b)),
                            }
                        } by {
                        lemma_pair_key_distinct(a, b, first, second);
                        if !(a == first && b == second) {
                            assert(pair_entry(upto, a, b) == pair_entry(
                                triples@.take(i as int),
                                a,
                                b,
                            ));
                            assert(before.contains_key(pair_key(a, b)) == map@.contains_key(
                                pair_key(a, b),
                            ));
                        }
                    }
                }
            },
        }
        proof {
            assert forall|j: int| 0 <= j < upto.len() implies composite_fits(
                #[trigger] upto[j],
                pairs,
            ) by {
                if j < i {
                    assert(upto[j] == triples@.take(i as int)[j]);
                }
            }
        }
        i += 1;
    }
    assert(triples@.take(i as int) =~= triples@);
    Some(map)
}

/// The greatest depth among the parts of a mapping, if the depth of each
/// part is known.
fn parts_depth(
    depths: &HashMap<u32, usize>,
    mappings: &HashMap<u32, Vec<u32>>,
    parts: &Vec<u32>,
) -> (greatest: Option<usize>)
    ensures
        match greatest {
            Some(depth) => {
                &&& forall|i: int|
                    0 <= i < parts@.len() ==> {
                        &&& stored_depth(depths@, mappings@, #[trigger] parts@[i]) is Some
                        &&& stored_depth(depths@, mappings@, parts@[i])->Some_0 <= depth
                    }
                &&& depth == 0 || exists|k: u32| #[trigger]
                    depths@.contains_key(k) && depths@[k] == depth
            },
            None => exists|i: int|
                0 <= i < parts@.len() && stored_depth(depths@, mappings@, #[trigger] parts@[i])
                    is None,
        },
{
    let mut greatest: usize = 0;
    let mut i: usize = 0;
    while i < parts.len()
        invariant
            i <= parts@.len(),
            forall|j: int|
                0 <= j < i ==> {
                    &&& stored_depth(depths@, mappings@, #[trigger] parts@[j]) is Some
                    &&& stored_depth(depths@, mappings@, parts@[j])->Some_0 <= greatest
                },
            greatest == 0 || exists|k: u32| #[trigger]
                depths@.contains_key(k) && depths@[k] == greatest,
        decreases parts.len() - i,
    {
        let part = parts[i];
        if !is_syllable(part) && mappings.contains_key(&part) {
            match depths.get(&part) {
                Some(depth) => {
                    if *depth > greatest {
                        greatest = *depth;
                        assert(depths@.contains_key(part) && depths@[part] == greatest);
                    }
                },
                None => {
                    assert(stored_depth(depths@, mappings@, parts@[i as int]) is None);
                    return None;
                },
            }
        }
        i += 1;
    }
    Some(greatest)
}

/// A part of the mapping that the list holds for `key`.
pub open spec fn listed_part(pairs: Seq<(u32, Vec<u32>)>, key: u32, i: int) -> u32 {
    entry(pairs, key)->Some_0@[i]
}

/// The rank of a part: none for a Hangul syllable, whose parts are
/// computed, and for a codepoint without a mapping.
pub open spec fn part_rank(pairs: Seq<(u32, Vec<u32>)>, rank: spec_fn(u32) -> nat, part: u32) -> nat {
    if is_hangul_syllable(part) || entry(pairs, part) is None {
        0
    } else {
        rank(part)
    }
}

/// Every part of a listed mapping is of lower rank than the codepoint that
/// the mapping belongs to.
pub open spec fn ranks(pairs: Seq<(u32, Vec<u32>)>, rank: spec_fn(u32) -> nat) -> bool {
    forall|key: u32, i: int|
        entry(pairs, key) is Some && !is_hangul_syllable(key) && 0 <= i < entry(
            pairs,
            key,
        )->Some_0@.len() ==> part_rank(pairs, rank, #[trigger] listed_part(pairs, key, i)) < rank(
            key,
        )
}

/// Decomposition by the listed mappings comes to an end: the codepoints
/// can be ranked so that every mapping leads to lower ranks only.
pub open spec fn decomposition_ends(pairs: Seq<(u32, Vec<u32>)>) -> bool {
    exists|rank: spec_fn(u32) -> nat| ranks(pairs, rank)
}

/// A mapping has no depth yet, and cannot get one as long as one of its
/// parts has none.
pub open spec fn stalled(depths: Map<u32, usize>, mappings: Map<u32, Vec<u32>>, key: u32) -> bool {
    &&& !depths.contains_key(key)
    &&& exists|i: int|
        0 <= i < mappings[key]@.len() && stored_depth(depths, mappings, #[trigger] mappings[key]@[i])
            is None
}

/// Where every mapping without a depth is stalled, every ranked mapping
/// has a depth.
proof fn lemma_stalled_has_no_rank(
    depths: Map<u32, usize>,
    mappings: Map<u32, Vec<u32>>,
    pairs: Seq<(u32, Vec<u32>)>,
    rank: spec_fn(u32) -> nat,
    key: u32,
)
    requires
        holds_lists(mappings, pairs),
        ranks(pairs, rank),
        forall|k: u32| #[trigger]
            mappings.contains_key(k) && !is_hangul_syllable(k) && !depths.contains_key(k)
                ==> stalled(depths, mappings, k),
        mappings.contains_key(key),
        !is_hangul_syllable(key),
    ensures
        depths.contains_key(key),
    decreases rank(key),
{
    if !depths.contains_key(key) {
        assert(stalled(depths, mappings, key));
        let i = choose|i: int|
            0 <= i < mappings[key]@.len() && stored_depth(
                depths,
                mappings,
                #[trigger] mappings[key]@[i],
            ) is None;
        let part = mappings[key]@[i];
        assert(entry(pairs, key) is Some);
        assert(entry(pairs, key)->Some_0@ == mappings[key]@);
        assert(listed_part(pairs, key, i) == part);
        assert(entry(pairs, part) is Some);
        assert(part_rank(pairs, rank, part) == rank(part));
        lemma_stalled_has_no_rank(depths, mappings, pairs, rank, part);
    }
}

/// Depths that fit the mappings rank them.
proof fn lemma_depths_rank(
    depths: Map<u32, usize>,
    mappings: Map<u32, Vec<u32>>,
    pairs: Seq<(u32, Vec<u32>)>,
)
    requires
        holds_lists(mappings, pairs),
        ranked(depths, mappings),
        forall|k: u32| #[trigger]
            mappings.contains_key(k) && !is_hangul_syllable(k) ==> depths.contains_key(k),
    ensures
        decomposition_ends(pairs),
{
    let rank = |k: u32|
        if depths.contains_key(k) {
            depths[k] as nat
        } else {
            0nat
        };
    assert forall|key: u32, i: int|
        entry(pairs, key) is Some && !is_hangul_syllable(key) && 0 <= i < entry(
            pairs,
            key,
        )->Some_0@.len() implies part_rank(pairs, rank, #[trigger] listed_part(pairs, key, i))
        < rank(key) by {
        assert(mappings.contains_key(key));
        assert(depths.contains_key(key));
        let part = mappings[key]@[i];
        assert(listed_part(pairs, key, i) == part);
        assert(stored_depth(depths, mappings, part) is Some);
        if !is_hangul_syllable(part) && entry(pairs, part) is Some {
            assert(mappings.contains_key(part));
        }
    }
    assert(ranks(pairs, rank));
}

/// No depth is greater than the number of depths.
pub open spec fn depths_bounded(depths: Map<u32, usize>) -> bool {
    forall|k: u32| #[trigger] depths.contains_key(k) ==> depths[k] <= depths.dom().len()
}

/// Gives every listed mapping outside the Hangul syllables a depth that is
/// greater than the depth of each of its parts, if that can be done.
fn compute_depths(mappings: &HashMap<u32, Vec<u32>>, pairs: &Vec<(u32, Vec<u32>)>) -> (computed:
    Option<HashMap<u32, usize>>)
    requires
        holds_lists(mappings@, pairs@),
    ensures
        match computed {
            Some(depths) => decomposition_ends(pairs@) && ranked(depths@, mappings@)
                && forall|k: u32| #[trigger]
                mappings@.contains_key(k) && !is_hangul_syllable(k) ==> depths@.contains_key(k),
            None => !decomposition_ends(pairs@),
        },
{
    let mut depths: HashMap<u32, usize> = HashMap::new();
    let mut pending: Vec<u32> = Vec::new();
    let mut i: usize = 0;
    while i < pairs.len()
        invariant
            i <= pairs@.len(),
            holds_lists(mappings@, pairs@),
            forall|j: int|
                0 <= j < pending@.len() ==> mappings@.contains_key(#[trigger] pending@[j])
                    && !is_hangul_syllable(pending@[j]),
            forall|j: int|
                0 <= j < i && !is_hangul_syllable((#[trigger] pairs@[j]).0) ==> pending@.contains(
                    pairs@[j].0,
                ),
        decreases pairs.len() - i,
    {
        let key = pairs[i].0;
        proof {
            lemma_listed_entry(pairs@, i as int);
        }
        if !is_syllable(key) {
            let ghost before = pending@;
            pending.push(key);
            proof {
                assert(pending@[pending@.len() - 1] == key);
                assert forall|j: int|
                    0 <= j < i + 1 && !is_hangul_syllable(
                        (#[trigger] pairs@[j]).0,
                    ) implies pending@.contains(pairs@[j].0) by {
                    if j < i {
                        let at = choose|at: int|
                            0 <= at < before.len() && before[at] == pairs@[j].0;
                        assert(pending@[at] == pairs@[j].0);
                    }
                }
            }
        }
        i += 1;
    }
    proof {
        assert forall|k: u32| #[trigger]
            mappings@.contains_key(k) && !is_hangul_syllable(k) implies depths@.contains_key(k)
            || pending@.contains(k) by {
            assert(entry(pairs@, k) is Some);
            let at = lemma_entry_listed(pairs@, k);
            assert(pending@.contains(pairs@[at].0));
        }
    }
    loop
        invariant
            holds_lists(mappings@, pairs@),
            ranked(depths@, mappings@),
            depths_bounded(depths@),
            forall|j: int|
                0 <= j < pending@.len() ==> mappings@.contains_key(#[trigger] pending@[j])
                    && !is_hangul_syllable(pending@[j]),
            forall|k: u32| #[trigger]
                mappings@.contains_key(k) && !is_hangul_syllable(k) ==> depths@.contains_key(k)
                    || pending@.contains(k),
        decreases pending@.len(),
    {
        let mut still: Vec<u32> = Vec::new();
        let mut j: usize = 0;
        let ghost start = depths@;
        while j < pending.len()
            invariant
                j <= pending@.len(),
                still@.len() <= j,
                still@.len() == j ==> depths@ == start && forall|n: int|
                    0 <= n < j ==> stalled(start, mappings@, #[trigger] pending@[n]),
                ranked(depths@, mappings@),
                depths_bounded(depths@),
                forall|j: int|
                    0 <= j < pending@.len() ==> mappings@.contains_key(#[trigger] pending@[j])
                        && !is_hangul_syllable(pending@[j]),
                forall|n: int|
                    0 <= n < still@.len() ==> mappings@.contains_key(#[trigger] still@[n])
                        && !is_hangul_syllable(still@[n]),
                forall|k: u32| #[trigger]
                    mappings@.contains_key(k) && !is_hangul_syllable(k) ==> depths@.contains_key(k)
                        || still@.contains(k) || exists|n: int|
                        j <= n < pending@.len() && pending@[n] == k,
            decreases pending.len() - j,
        {
            let key = pending[j];
            let ghost old_depths = depths@;
            let ghost old_still = still@;
            if !depths.contains_key(&key) {
                let resolved = match mappings.get(&key) {
                    Some(parts) => parts_depth(&depths, mappings, parts),
                    None => None,
                };
                match resolved {
                    Some(greatest) => {
                        depths.insert(key, 0);
                        let size = depths.len();
                        assert(depths@.dom() =~= old_depths.dom().insert(key));
                        assert(size == old_depths.dom().len() + 1);
                        depths.insert(key, greatest + 1);
                        proof {
                            assert(depths@ =~= old_depths.insert(key, (greatest + 1) as usize));
                            assert(depths@.dom() =~= old_depths.dom().insert(key));
                            assert forall|k: u32| #[trigger] depths@.contains_key(k) implies {
                                &&& mappings@.contains_key(k)
                                &&& !is_hangul_syllable(k)
                                &&& forall|i: int|
                                    0 <= i < mappings@[k]@.len() ==> {
                                        &&& stored_depth(
                                            depths@,
                                            mappings@,
                                            #[trigger] mappings@[k]@[i],
                                        ) is Some
                                        &&& stored_depth(
                                            depths@,
                                            mappings@,
                                            mappings@[k]@[i],
                                        )->Some_0 < depths@[k]
                                    }
                            } by {
                                assert forall|i: int| 0 <= i < mappings@[k]@.len() implies {
                                    &&& stored_depth(
                                        depths@,
                                        mappings@,
                                        #[trigger] mappings@[k]@[i],
                                    ) is Some
                                    &&& stored_depth(depths@, mappings@, mappings@[k]@[i])->Some_0
                                        < depths@[k]
                                } by {
                                    let part = mappings@[k]@[i];
                                    if k != key {
                                        assert(old_depths.contains_key(k));
                                    }
                                    assert(stored_depth(old_depths, mappings@, part) is Some);
                                    assert(stored_depth(depths@, mappings@, part)
                                        == stored_depth(old_depths, mappings@, part));
                                }
                            }
                        }
                    },
                    None => {
                        still.push(key);
                        proof {
                            assert(still@[still@.len() - 1] == key);
                            assert forall|k: u32| old_still.contains(k) implies still@.contains(
                                k,
                            ) by {
                                let at = choose|at: int|
                                    0 <= at < old_still.len() && old_still[at] == k;
                                assert(still@[at] == k);
                            }
                        }
                    },
                }
            }
            proof {
                assert forall|k: u32| #[trigger]
                    mappings@.contains_key(k) && !is_hangul_syllable(k) implies depths@.contains_key(
                    k,
                ) || still@.contains(k) || exists|n: int|
                    j + 1 <= n < pending@.len() && pending@[n] == k by {
                    if !(old_depths.contains_key(k) || old_still.contains(k)) {
                        let n = choose|n: int| j <= n < pending@.len() && pending@[n] == k;
                        if n == j {
                            assert(k == key);
                        } else {
                            assert(j + 1 <= n < pending@.len() && pending@[n] == k);
                        }
                    } else if old_still.contains(k) {
                        let at = choose|at: int| 0 <= at < old_still.len() && old_still[at] == k;
                        assert(still@[at] == k);
                    }
                }
            }
            j += 1;
        }
        if still.len() == 0 {
            proof {
                assert forall|k: u32| #[trigger]
                    mappings@.contains_key(k) && !is_hangul_syllable(k) implies depths@.contains_key(
                    k,
                ) by {
                    if still@.contains(k) {
                    }
                }
            }
            proof {
                lemma_depths_rank(depths@, mappings@, pairs@);
            }
            return Some(depths);
        }
        if still.len() == pending.len() {
            proof {
                assert forall|k: u32| #[trigger]
                    mappings@.contains_key(k) && !is_hangul_syllable(k) && !depths@.contains_key(
                    k,
                ) implies stalled(depths@, mappings@, k) by {
                    let n = choose|n: int| 0 <= n < pending@.len() && pending@[n] == k;
                    assert(stalled(start, mappings@, pending@[n]));
                }
                assert forall|rank: spec_fn(u32) -> nat| !ranks(pairs@, rank) by {
                    if ranks(pairs@, rank) {
                        assert(stalled(start, mappings@, pending@[0]));
                        lemma_stalled_has_no_rank(
                            depths@,
                            mappings@,
                            pairs@,
                            rank,
                            pending@[0],
                        );
                    }
                }
            }
            return None;
        }
        pending = still;
    }
}

/// What the collation table of the lists holds for a key.
pub open spec fn listed_contraction(
    pairs: Seq<(Vec<u32>, Vec<CollationElement>)>,
    key: Seq<u32>,
) -> TrieMatch<Seq<Weighted>> {
    if pairs_map(pairs).contains_key(key) {
        TrieMatch::Match(weighted(pairs_map(pairs)[key]@))
    } else if begins_stored_key(pairs_map(pairs), key) {
        TrieMatch::PartialMatch
    } else {
        TrieMatch::NoMatch
    }
}

/// The lists fit together: they hold valid codepoints only, classes are in
/// range, no jamo has a mapping, decomposition comes to an end, and each
/// composite decomposes into its pair. Hangul syllables may be listed as
/// composites of the pairs that make them.
pub open spec fn consistent(tables: &UcdTables) -> bool {
    &&& mappings_valid(tables.decomposition_mappings@)
    &&& keys_without_jamo(tables.decomposition_mappings@)
    &&& decomposition_ends(tables.decomposition_mappings@)
    &&& composites_fit(tables.primary_composites@, tables.decomposition_mappings@)
    &&& classes_in_range(tables.combining_classes@)
    &&& values_valid(tables.lowercase_mappings@)
    &&& mappings_valid(tables.uppercase_mappings@)
    &&& mappings_valid(tables.case_folding@)
}

impl UcdTables {
    /// Tables without any entry.
    pub fn empty() -> (tables: Self)
        ensures
            tables.decomposition_mappings@.len() == 0,
            tables.primary_composites@.len() == 0,
            tables.combining_classes@.len() == 0,
            tables.nfc_quick_check_no@.len() == 0,
            tables.nfc_quick_check_maybe@.len() == 0,
            tables.nfd_quick_check_no@.len() == 0,
            tables.uppercase_mappings@.len() == 0,
            tables.lowercase_mappings@.len() == 0,
            tables.case_folding@.len() == 0,
            tables.cased@.len() == 0,
            tables.case_ignorable@.len() == 0,
            tables.extended_pictorial@.len() == 0,
            tables.unified_ideograph@.len() == 0,
            tables.grapheme_cluster_break@.len() == 0,
            tables.collation_elements@.len() == 0,
    {
        UcdTables {
            decomposition_mappings: Vec::new(),
            primary_composites: Vec::new(),
            combining_classes: Vec::new(),
            nfc_quick_check_no: Vec::new(),
            nfc_quick_check_maybe: Vec::new(),
            nfd_quick_check_no: Vec::new(),
            uppercase_mappings: Vec::new(),
            lowercase_mappings: Vec::new(),
            case_folding: Vec::new(),
            cased: Vec::new(),
            case_ignorable: Vec::new(),
            extended_pictorial: Vec::new(),
            unified_ideograph: Vec::new(),
            grapheme_cluster_break: Vec::new(),
            collation_elements: Vec::new(),
        }
    }
}

impl Ucd {
    /// The store holds what the lists hold, and for Hangul what is
    /// computed.
    pub open spec fn holds(&self, tables: &UcdTables) -> bool {
        &&& forall|cp: u32|
            #[trigger] self.mapping(cp) == if is_hangul_syllable(cp) {
                Some(hangul_mapping(cp))
            } else {
                match entry(tables.decomposition_mappings@, cp) {
                    Some(parts) => Some(parts@),
                    None => None,
                }
            }
        &&& forall|first: u32, second: u32|
            #[trigger] self.composite(first, second) == if hangul_composite(first, second)
                is Some {
                hangul_composite(first, second)
            } else {
                pair_entry(tables.primary_composites@, first, second)
            }
        &&& forall|cp: u32|
            #[trigger] self.ccc(cp) == match entry(tables.combining_classes@, cp) {
                Some(class) => class,
                None => 0,
            }
        &&& forall|cp: u32|
            #[trigger] self.quick_check_flag(cp, Normalisation::NFC)
                == if tables.nfc_quick_check_maybe@.contains(cp) {
                QuickCheckVal::Maybe
            } else if tables.nfc_quick_check_no@.contains(cp) {
                QuickCheckVal::No
            } else {
                QuickCheckVal::Yes
            }
        &&& forall|cp: u32|
            #[trigger] self.quick_check_flag(cp, Normalisation::NFD)
                == if tables.nfd_quick_check_no@.contains(cp) {
                QuickCheckVal::No
            } else {
                QuickCheckVal::Yes
            }
        &&& forall|cp: u32| #[trigger] self.lower(cp) == entry(tables.lowercase_mappings@, cp)
        &&& forall|cp: u32|
            #[trigger] self.upper(cp) == match entry(tables.uppercase_mappings@, cp) {
                Some(upper) => Some(upper@),
                None => None,
            }
        &&& forall|cp: u32|
            #[trigger] self.folding(cp) == match entry(tables.case_folding@, cp) {
                Some(folded) => Some(folded@),
                None => None,
            }
        &&& forall|cp: u32| #[trigger] self.is_cased(cp) == tables.cased@.contains(cp)
        &&& forall|cp: u32|
            #[trigger] self.is_case_ignorable(cp) == tables.case_ignorable@.contains(cp)
        &&& forall|cp: u32|
            #[trigger] self.is_extended_pictorial(cp) == tables.extended_pictorial@.contains(cp)
        &&& forall|cp: u32|
            #[trigger] self.is_unified_ideograph(cp) == tables.unified_ideograph@.contains(cp)
        &&& forall|cp: u32|
            #[trigger] self.break_class(cp) == match entry(tables.grapheme_cluster_break@, cp) {
                Some(class) => class,
                None => GraphemeClusterBreak::XX,
            }
        &&& forall|key: Seq<u32>|
            #[trigger] self.contraction(key) == listed_contraction(tables.collation_elements@, key)
    }

    /// Builds the store from its tables. Tables that do not fit together
    /// are refused, and no others.
    pub fn new(tables: UcdTables) -> (built: Result<Ucd, TextError>)
        ensures
            match built {
                Ok(ucd) => ucd.wf() && ucd.holds(&tables) && consistent(&tables),
                Err(e) => e == TextError::ResourceUnavailable && !consistent(&tables),
            },
    {
        if !check_mappings(&tables.decomposition_mappings) || !check_keys(
            &tables.decomposition_mappings,
        ) || !check_classes(&tables.combining_classes) || !check_values(&tables.lowercase_mappings)
            || !check_mappings(&tables.uppercase_mappings) || !check_mappings(
            &tables.case_folding,
        ) {
            return Err(TextError::ResourceUnavailable);
        }
        let decompositions = build_list_map(&tables.decomposition_mappings);
        let composites = match build_composites(
            &tables.primary_composites,
            &decompositions,
            Ghost(tables.decomposition_mappings@),
        ) {
            Some(composites) => composites,
            None => {
                return Err(TextError::ResourceUnavailable);
            },
        };
        let depths = match compute_depths(&decompositions, &tables.decomposition_mappings) {
            Some(depths) => depths,
            None => {
                return Err(TextError::ResourceUnavailable);
            },
        };
        let combining_classes = build_map(&tables.combining_classes);
        let lowercase_mappings = build_map(&tables.lowercase_mappings);
        let grapheme_cluster_breaks = build_map(&tables.grapheme_cluster_break);
        let uppercase_mappings = build_list_map(&tables.uppercase_mappings);
        let case_folding = build_list_map(&tables.case_folding);
        let nfc_quick_check_no = build_set(&tables.nfc_quick_check_no);
        let nfc_quick_check_maybe = build_set(&tables.nfc_quick_check_maybe);
        let nfd_quick_check_no = build_set(&tables.nfd_quick_check_no);
        let cased = build_set(&tables.cased);
        let case_ignorable = build_set(&tables.case_ignorable);
        let extended_pictorial = build_set(&tables.extended_pictorial);
        let unified_ideograph = build_set(&tables.unified_ideograph);
        let collation = Trie::from_kvs(tables.collation_elements);
        proof {
            let dm = tables.decomposition_mappings@;
            assert forall|k: u32| #[trigger] decompositions@.contains_key(k) implies !is_jamo(k)
                && all_valid_codepoints(decompositions@[k]@) by {
                assert(entry(dm, k) is Some);
                let at = lemma_entry_listed(dm, k);
                assert(all_valid_codepoints(dm[at].1@));
                assert(!is_jamo(dm[at].0));
            }
            assert forall|first: u32, second: u32| #[trigger]
                composites@.contains_key(pair_key(first, second)) implies {
                let whole = composites@[pair_key(first, second)];
                &&& valid_codepoint(whole)
                &&& !is_hangul_syllable(whole)
                &&& decompositions@.contains_key(whole)
                &&& decompositions@[whole]@ == seq![first, second]
            } by {
                let pc = tables.primary_composites@;
                assert(hangul_composite(first, second) is None);
                assert(pair_entry(pc, first, second) is Some);
                let at = lemma_pair_entry_listed(pc, first, second);
                assert(composite_fits(pc[at], dm));
                let whole = pc[at].2;
                assert(entry(dm, whole) is Some);
            }
            assert forall|k: u32| #[trigger]
                combining_classes@.contains_key(k) implies combining_classes@[k] <= 254 by {
                let cc = tables.combining_classes@;
                assert(entry(cc, k) is Some);
                let at = lemma_entry_listed(cc, k);
                assert(cc[at].1 <= 254);
            }
            assert forall|k: u32| #[trigger]
                lowercase_mappings@.contains_key(k) implies valid_codepoint(
                lowercase_mappings@[k],
            ) by {
                let lc = tables.lowercase_mappings@;
                assert(entry(lc, k) is Some);
                let at = lemma_entry_listed(lc, k);
                assert(valid_codepoint(lc[at].1));
            }
            assert forall|k: u32| #[trigger]
                uppercase_mappings@.contains_key(k) implies all_valid_codepoints(
                uppercase_mappings@[k]@,
            ) by {
                let uc = tables.uppercase_mappings@;
                assert(entry(uc, k) is Some);
                let at = lemma_entry_listed(uc, k);
                assert(all_valid_codepoints(uc[at].1@));
            }
            assert forall|k: u32| #[trigger]
                case_folding@.contains_key(k) implies all_valid_codepoints(case_folding@[k]@) by {
                let cf = tables.case_folding@;
                assert(entry(cf, k) is Some);
                let at = lemma_entry_listed(cf, k);
                assert(all_valid_codepoints(cf[at].1@));
            }
        }
        let ucd = Ucd {
            decompositions,
            depths,
            composites,
            combining_classes,
            nfc_quick_check_no,
            nfc_quick_check_maybe,
            nfd_quick_check_no,
            uppercase_mappings,
            lowercase_mappings,
            case_folding,
            cased,
            case_ignorable,
            extended_pictorial,
            unified_ideograph,
            grapheme_cluster_breaks,
            collation,
        };
        Ok(ucd)
    }
}

} // verus!
