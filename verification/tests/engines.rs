use std::cmp::Ordering;
use unicode_text::case::{canonical_caseless_match, case_fold, to_lowercase, to_uppercase};
use unicode_text::collation::{
    apply_variable_weighting, derive_collation_elements, sort_key, to_collation_elements,
    to_sort_key, VariableWeighting,
};
use unicode_text::error::TextError;
use unicode_text::helpers::DecodeErr;
use unicode_text::normalise::{
    decompose, quick_check, to_nfc, to_nfc_str, to_nfd, IsNormalised, Normalisation,
};
use unicode_text::order::{compare, compare_code_points};
use unicode_text::segmentation::GraphemeIter;
use unicode_text::trie::TrieMatch;
use unicode_text::ucd::{
    case_folding, case_ignorable, cased, collation_elements, combining_class,
    decomposition_mapping, extended_pictorial, grapheme_cluster_break, is_allowed, is_starter,
    lowercase_mapping, primary_composite, unified_ideograph, uppercase_mapping, CollationElement,
    GraphemeClusterBreak, QuickCheckVal, Ucd, UcdTables,
};

fn element(weights: [u16; 3], variable: bool) -> CollationElement {
    CollationElement { weights: weights.to_vec(), variable }
}

fn sample_tables() -> UcdTables {
    let mut tables = UcdTables::empty();
    tables.decomposition_mappings = vec![
        (0x00C5, vec![0x0041, 0x030A]),
        (0x00E5, vec![0x0061, 0x030A]),
        (0x01FA, vec![0x00C5, 0x0301]),
        (0x0344, vec![0x0308, 0x0301]),
        (0x1E0A, vec![0x0044, 0x0307]),
        (0x1E0C, vec![0x0044, 0x0323]),
        (0x1F00, vec![0x03B1, 0x0313]),
        (0x1F80, vec![0x1F00, 0x0345]),
        (0x212B, vec![0x00C5]),
    ];
    tables.primary_composites = vec![
        (0x0041, 0x030A, 0x00C5),
        (0x0061, 0x030A, 0x00E5),
        (0x00C5, 0x0301, 0x01FA),
        (0x0044, 0x0307, 0x1E0A),
        (0x0044, 0x0323, 0x1E0C),
        (0x03B1, 0x0313, 0x1F00),
        (0x1F00, 0x0345, 0x1F80),
    ];
    tables.combining_classes = vec![
        (0x0300, 230),
        (0x0301, 230),
        (0x0302, 230),
        (0x0307, 230),
        (0x0308, 230),
        (0x030A, 230),
        (0x030C, 230),
        (0x0313, 230),
        (0x0323, 220),
        (0x0327, 202),
        (0x0331, 220),
        (0x0345, 240),
        (0x05B0, 10),
    ];
    tables.nfc_quick_check_no = vec![0x0340, 0x0341, 0x0344, 0x212B];
    tables.nfc_quick_check_maybe = vec![
        0x0300, 0x0301, 0x0302, 0x0307, 0x0308, 0x030A, 0x030C, 0x0313, 0x0323, 0x0327, 0x0345,
    ];
    tables.nfd_quick_check_no = vec![
        0x00C5, 0x00E5, 0x01FA, 0x0344, 0x1E0A, 0x1E0C, 0x1F00, 0x1F80, 0x212B,
    ];
    tables.uppercase_mappings = vec![
        (0x0061, vec![0x0041]),
        (0x00DF, vec![0x0053, 0x0053]),
        (0x0149, vec![0x02BC, 0x004E]),
        (0x01F0, vec![0x004A, 0x030C]),
        (0x0390, vec![0x0399, 0x0308, 0x0301]),
        (0x03B0, vec![0x03A5, 0x0308, 0x0301]),
        (0x0587, vec![0x0535, 0x0552]),
        (0x1E96, vec![0x0048, 0x0331]),
        (0xFB04, vec![0x0046, 0x0046, 0x004C]),
    ];
    tables.lowercase_mappings = vec![
        (0x0041, 0x0061),
        (0x0044, 0x0064),
        (0x00C5, 0x00E5),
        (0x011E, 0x011F),
        (0x0391, 0x03B1),
        (0x0392, 0x03B2),
    ];
    tables.case_folding = vec![
        (0x0041, vec![0x0061]),
        (0x0044, vec![0x0064]),
        (0x00C5, vec![0x00E5]),
        (0x00DF, vec![0x0073, 0x0073]),
        (0x0345, vec![0x03B9]),
        (0x0391, vec![0x03B1]),
        (0x03A3, vec![0x03C3]),
        (0x03C2, vec![0x03C3]),
        (0x1F80, vec![0x1F00, 0x03B9]),
        (0x212B, vec![0x00E5]),
    ];
    tables.cased = vec![
        0x0041, 0x0044, 0x0061, 0x0062, 0x0345, 0x0391, 0x0392, 0x03A3, 0x03B1, 0x03B2, 0x03C2,
        0x03C3,
    ];
    tables.case_ignorable = vec![0x0027, 0x002E, 0x0300, 0x0301, 0x0307, 0x0345];
    tables.extended_pictorial = vec![0x00A9, 0x1F600];
    tables.unified_ideograph = vec![0x3400, 0x4E00, 0x9FFF, 0xFA0E, 0x20000];
    tables.grapheme_cluster_break = vec![
        (0x0001, GraphemeClusterBreak::CN),
        (0x000A, GraphemeClusterBreak::LF),
        (0x000D, GraphemeClusterBreak::CR),
        (0x0301, GraphemeClusterBreak::EX),
        (0x0308, GraphemeClusterBreak::EX),
        (0x0600, GraphemeClusterBreak::PP),
        (0x0903, GraphemeClusterBreak::SM),
        (0x1100, GraphemeClusterBreak::L),
        (0x1161, GraphemeClusterBreak::V),
        (0x11A8, GraphemeClusterBreak::T),
        (0x200D, GraphemeClusterBreak::ZWJ),
        (0xAC00, GraphemeClusterBreak::LV),
        (0xAC01, GraphemeClusterBreak::LVT),
        (0x1F1E6, GraphemeClusterBreak::RI),
        (0x1F1E7, GraphemeClusterBreak::RI),
        (0x1F1E8, GraphemeClusterBreak::RI),
        (0x1F1E9, GraphemeClusterBreak::RI),
    ];
    tables.collation_elements = vec![
        (vec![0x0020], vec![element([0x0209, 0x0020, 0x0002], true)]),
        (vec![0x0041], vec![element([0x1CAD, 0x0020, 0x0008], false)]),
        (vec![0x0061], vec![element([0x1CAD, 0x0020, 0x0002], false)]),
        (vec![0x0062], vec![element([0x1CC6, 0x0020, 0x0002], false)]),
        (vec![0x006C], vec![element([0x1D77, 0x0020, 0x0002], false)]),
        (vec![0x00B7], vec![element([0x0288, 0x0020, 0x0002], true)]),
        (vec![0x006C, 0x00B7], vec![element([0x1D78, 0x0020, 0x0002], false)]),
        (vec![0x0301], vec![element([0x0000, 0x0024, 0x0002], false)]),
        (vec![0x0302], vec![element([0x0000, 0x0027, 0x0002], false)]),
        (vec![0x0323], vec![element([0x0000, 0x0042, 0x0002], false)]),
        (vec![0x0061, 0x0301], vec![element([0x1CAE, 0x0020, 0x0002], false)]),
        (vec![0x0061, 0x0323, 0x0302], vec![element([0x1CAF, 0x0020, 0x0002], false)]),
        (
            vec![0x2025],
            vec![
                element([0x0277, 0x0020, 0x0002], true),
                element([0x0000, 0x0024, 0x0002], false),
                element([0x1CAD, 0x0020, 0x0002], false),
                element([0x0000, 0x0024, 0x0002], false),
            ],
        ),
    ];
    tables
}

fn sample_ucd() -> Ucd {
    match Ucd::new(sample_tables()) {
        Ok(ucd) => ucd,
        Err(e) => panic!("the sample tables were refused: {:?}", e),
    }
}

fn graphemes(ucd: &Ucd, code_points: &Vec<u32>) -> Vec<Vec<u32>> {
    let mut iter = GraphemeIter::new(ucd, code_points);
    let mut clusters = Vec::new();
    while let Some(cluster) = iter.next() {
        clusters.push(cluster.to_vec());
    }
    clusters
}

#[test]
fn test_to_lowercase() {
    let ucd = sample_ucd();
    assert_eq!(to_lowercase(&ucd, vec![0x0130]), vec![105, 775]);
    assert_eq!(to_lowercase(&ucd, vec![0x011E]), vec![0x011F]);

    // SIGMA - σ
    assert_eq!(to_lowercase(&ucd, vec![0x03A3]), vec![0x03C3]);
    // YPOGEGRAMMENI (ignorable) SIGMA SPACE - ignorable sigma not-cased - σ
    assert_eq!(
        to_lowercase(&ucd, vec![0x0345, 0x03A3, 0x0020]),
        vec![0x0345, 0x03C3, 0x0020]
    );
    // ALPHA YPOGEGRAMMENI SIGMA FULL-STOP BETA - cased ignorable sigma ignorable cased - σ
    assert_eq!(
        to_lowercase(&ucd, vec![0x0391, 0x0345, 0x03A3, 0x002E, 0x0392]),
        vec![0x03B1, 0x0345, 0x03C3, 0x002E, 0x03B2]
    );
    // ALPHA YPOGEGRAMMENI SIGMA SPACE - cased ignorable sigma not-cased - ς
    assert_eq!(
        to_lowercase(&ucd, vec![0x0391, 0x0345, 0x03A3, 0x0020]),
        vec![0x03B1, 0x0345, 0x03C2, 0x0020]
    );
    // ALPHA YPOGEGRAMMENI SIGMA - cased ignorable sigma - ς
    assert_eq!(
        to_lowercase(&ucd, vec![0x0391, 0x0345, 0x03A3]),
        vec![0x03B1, 0x0345, 0x03C2]
    );
}

#[test]
fn test_to_lowercase_dotted_capital_i() {
    let ucd = sample_ucd();
    assert_eq!(to_lowercase(&ucd, vec![0x0130]), vec![0x0069, 0x0307]);
}

#[test]
fn test_to_lowercase_final_sigma() {
    let ucd = sample_ucd();
    assert_eq!(
        to_lowercase(&ucd, vec![0x0391, 0x0345, 0x03A3, 0x0020]),
        vec![0x03B1, 0x0345, 0x03C2, 0x0020]
    );
}

#[test]
fn test_to_lowercase_sigma_inside_a_word() {
    let ucd = sample_ucd();
    assert_eq!(
        to_lowercase(&ucd, vec![0x0391, 0x0345, 0x03A3, 0x002E, 0x0392]),
        vec![0x03B1, 0x0345, 0x03C3, 0x002E, 0x03B2]
    );
    // a sigma between two cased letters, and one with nothing before it
    assert_eq!(
        to_lowercase(&ucd, vec![0x0391, 0x03A3, 0x0392]),
        vec![0x03B1, 0x03C3, 0x03B2]
    );
    assert_eq!(to_lowercase(&ucd, vec![0x03A3, 0x0392]), vec![0x03C3, 0x03B2]);
    assert_eq!(to_lowercase(&ucd, vec![]), Vec::<u32>::new());
}

#[test]
fn test_to_uppercase() {
    let ucd = sample_ucd();
    // ß -> SS
    assert_eq!(to_uppercase(&ucd, vec![0x00DF]), vec![0x0053, 0x0053]);
    // ŉ -> ʼN
    assert_eq!(to_uppercase(&ucd, vec![0x0149]), vec![0x02BC, 0x004E]);
    // ǰ -> J̌
    assert_eq!(to_uppercase(&ucd, vec![0x01F0]), vec![0x004A, 0x030C]);
    // ΐ -> Ϊ́
    assert_eq!(to_uppercase(&ucd, vec![0x0390]), vec![0x0399, 0x0308, 0x0301]);
    // ΰ -> Ϋ́
    assert_eq!(to_uppercase(&ucd, vec![0x03B0]), vec![0x03A5, 0x0308, 0x0301]);
    // և -> ԵՒ
    assert_eq!(to_uppercase(&ucd, vec![0x0587]), vec![0x0535, 0x0552]);
    // ẖ -> H̱
    assert_eq!(to_uppercase(&ucd, vec![0x1E96]), vec![0x0048, 0x0331]);
    // ﬄ -> FFL
    assert_eq!(to_uppercase(&ucd, vec![0xFB04]), vec![0x0046, 0x0046, 0x004C]);
    // . -> .
    assert_eq!(to_uppercase(&ucd, vec![0x002E]), vec![0x002E]);
}

#[test]
fn test_to_uppercase_sharp_s() {
    let ucd = sample_ucd();
    assert_eq!(to_uppercase(&ucd, vec![0x00DF]), vec![0x0053, 0x0053]);
    assert_eq!(
        to_uppercase(&ucd, vec![0x0061, 0x00DF, 0x002E]),
        vec![0x0041, 0x0053, 0x0053, 0x002E]
    );
}

#[test]
fn test_case_fold() {}

#[test]
fn test_case_fold_mappings() {
    let ucd = sample_ucd();
    assert_eq!(case_fold(&ucd, &vec![0x00DF]), vec![0x0073, 0x0073]);
    assert_eq!(case_fold(&ucd, &vec![0x03A3, 0x03C2]), vec![0x03C3, 0x03C3]);
    assert_eq!(case_fold(&ucd, &vec![0x0041, 0x0062]), vec![0x0061, 0x0062]);
    assert_eq!(case_fold(&ucd, &vec![]), Vec::<u32>::new());
}

#[test]
fn test_case_fold_decomposes_ypogegrammeni() {
    let ucd = sample_ucd();
    // decomposed to 03B1 0313 0345 first, and only then folded
    assert_eq!(case_fold(&ucd, &vec![0x1F80]), vec![0x03B1, 0x0313, 0x03B9]);
    // a codepoint outside that set is folded as it stands
    assert_eq!(case_fold(&ucd, &vec![0x212B]), vec![0x00E5]);
}

#[test]
fn test_canonical_caseless_match() {
    let ucd = sample_ucd();
    assert_eq!(
        canonical_caseless_match(&ucd, vec![0x212B], vec![0x0061, 0x030A]),
        Ordering::Equal
    );
    assert_eq!(
        canonical_caseless_match(&ucd, vec![0x00C5, 0x0301], vec![0x01FA]),
        Ordering::Equal
    );
    assert_eq!(canonical_caseless_match(&ucd, vec![0x0041], vec![0x0062]), Ordering::Less);
    assert_eq!(canonical_caseless_match(&ucd, vec![0x0062], vec![0x0041]), Ordering::Greater);
    assert_eq!(
        canonical_caseless_match(&ucd, vec![0x0061], vec![0x0041, 0x0062]),
        Ordering::Less
    );
    assert_eq!(canonical_caseless_match(&ucd, vec![], vec![]), Ordering::Equal);
}

#[test]
fn test_caseless_match_is_equality_of_keys() {
    let ucd = sample_ucd();
    let words: Vec<Vec<u32>> = vec![
        vec![0x212B],
        vec![0x00E5],
        vec![0x0041, 0x030A],
        vec![0x0041],
        vec![0x00DF],
        vec![0x0073, 0x0073],
    ];
    for x in &words {
        for y in &words {
            let key_x = to_nfd(&ucd, &case_fold(&ucd, &to_nfd(&ucd, x)));
            let key_y = to_nfd(&ucd, &case_fold(&ucd, &to_nfd(&ucd, y)));
            assert_eq!(
                canonical_caseless_match(&ucd, x.clone(), y.clone()) == Ordering::Equal,
                key_x == key_y
            );
        }
    }
}

#[test]
fn test_quick_check() {
    let ucd = sample_ucd();
    // "å"
    assert_eq!(
        quick_check(&ucd, &vec![0x00E5], Normalisation::NFC),
        IsNormalised::Yes
    );
    // "å" decomposed, quick check says maybe, because there are combining marks
    // it's actually not normalised, but those code points could make up a normalised string
    assert_eq!(
        quick_check(&ucd, &vec![0x61, 0x030A], Normalisation::NFC),
        IsNormalised::Maybe
    );
}

#[test]
fn test_quick_check_rules_out() {
    let ucd = sample_ucd();
    assert_eq!(quick_check(&ucd, &vec![0x00E5], Normalisation::NFD), IsNormalised::No);
    assert_eq!(quick_check(&ucd, &vec![0x0061, 0x212B], Normalisation::NFC), IsNormalised::No);
    // a mark of class 230 before one of class 220
    assert_eq!(
        quick_check(&ucd, &vec![0x0061, 0x0301, 0x0323], Normalisation::NFD),
        IsNormalised::No
    );
    assert_eq!(
        quick_check(&ucd, &vec![0x0061, 0x0301, 0x0323], Normalisation::NFC),
        IsNormalised::No
    );
    // one that is ruled out behind one in doubt
    assert_eq!(
        quick_check(&ucd, &vec![0x0301, 0x0344], Normalisation::NFC),
        IsNormalised::No
    );
    assert_eq!(
        quick_check(&ucd, &vec![0x0061, 0x0323, 0x0301], Normalisation::NFD),
        IsNormalised::Yes
    );
    // a starter behind a mark is in order
    assert_eq!(
        quick_check(&ucd, &vec![0x0061, 0x0301, 0x0062], Normalisation::NFD),
        IsNormalised::Yes
    );
    assert_eq!(quick_check(&ucd, &vec![], Normalisation::NFC), IsNormalised::Yes);
}

#[test]
fn test_decompose() {
    let ucd = sample_ucd();
    assert_eq!(decompose(&ucd, 0x0041), vec![0x0041]);
    assert_eq!(decompose(&ucd, 0x212B), vec![0x0041, 0x030A]);
    assert_eq!(decompose(&ucd, 0x01FA), vec![0x0041, 0x030A, 0x0301]);
    assert_eq!(decompose(&ucd, 0x1F80), vec![0x03B1, 0x0313, 0x0345]);
    assert_eq!(decompose(&ucd, 0xAC00), vec![0x1100, 0x1161]);
    assert_eq!(decompose(&ucd, 0xAC01), vec![0x1100, 0x1161, 0x11A8]);
    assert_eq!(decompose(&ucd, 0xD7A3), vec![0x1112, 0x1175, 0x11C2]);
}

#[test]
fn test_to_nfd_orders_marks() {
    let ucd = sample_ucd();
    assert_eq!(to_nfd(&ucd, &vec![0x1E0A, 0x0323]), vec![0x0044, 0x0323, 0x0307]);
    assert_eq!(
        to_nfd(&ucd, &vec![0x0061, 0x0345, 0x0301, 0x0327, 0x0323]),
        vec![0x0061, 0x0327, 0x0323, 0x0301, 0x0345]
    );
    // marks of one class keep their order
    assert_eq!(
        to_nfd(&ucd, &vec![0x0061, 0x0301, 0x0300, 0x0308]),
        vec![0x0061, 0x0301, 0x0300, 0x0308]
    );
    // a starter keeps marks apart
    assert_eq!(
        to_nfd(&ucd, &vec![0x0301, 0x0062, 0x0323]),
        vec![0x0301, 0x0062, 0x0323]
    );
    // marks at the very beginning are ordered too
    assert_eq!(to_nfd(&ucd, &vec![0x0301, 0x0323]), vec![0x0323, 0x0301]);
    assert_eq!(to_nfd(&ucd, &vec![]), Vec::<u32>::new());
}

#[test]
fn test_to_nfd_twice_is_once() {
    let ucd = sample_ucd();
    let inputs: Vec<Vec<u32>> = vec![
        vec![0x01FA, 0x0323],
        vec![0x1F80, 0x0301, 0x0327],
        vec![0xAC01, 0x212B, 0x0344],
        vec![0x0301, 0x0323, 0x0061],
    ];
    for input in inputs {
        let once = to_nfd(&ucd, &input);
        assert_eq!(to_nfd(&ucd, &once), once);
        for i in 1..once.len() {
            let class = combining_class(&ucd, once[i]);
            assert!(class == 0 || combining_class(&ucd, once[i - 1]) <= class);
        }
    }
}

#[test]
fn test_to_nfc_composes_with_reordered_mark() {
    let ucd = sample_ucd();
    assert_eq!(to_nfc(&ucd, &vec![0x1E0A, 0x0323]), vec![0x1E0C, 0x0307]);
}

#[test]
fn test_to_nfc_composes_past_a_lower_mark() {
    let ucd = sample_ucd();
    assert_eq!(to_nfc(&ucd, &vec![0x0044, 0x0307, 0x0323]), vec![0x1E0C, 0x0307]);
}

#[test]
fn test_to_nfc_hangul() {
    let ucd = sample_ucd();
    assert_eq!(to_nfc(&ucd, &vec![0x1100, 0xAC00, 0x11A8]), vec![0x1100, 0xAC01]);
    assert_eq!(to_nfc(&ucd, &vec![0x1100, 0x1161]), vec![0xAC00]);
    assert_eq!(to_nfc(&ucd, &vec![0x1112, 0x1175, 0x11C2]), vec![0xD7A3]);
    // a trailing consonant does not join a syllable that has one
    assert_eq!(to_nfc(&ucd, &vec![0xAC01, 0x11A8]), vec![0xAC01, 0x11A8]);
}

#[test]
fn test_to_nfc_blocking() {
    let ucd = sample_ucd();
    // composes twice in place
    assert_eq!(to_nfc(&ucd, &vec![0x0041, 0x030A, 0x0301]), vec![0x01FA]);
    // a mark of the same class stands between
    assert_eq!(
        to_nfc(&ucd, &vec![0x0041, 0x0301, 0x030A]),
        vec![0x0041, 0x0301, 0x030A]
    );
    // a mark stands between two starters
    assert_eq!(
        to_nfc(&ucd, &vec![0x1100, 0x0301, 0x1161]),
        vec![0x1100, 0x0301, 0x1161]
    );
    // singletons and excluded compositions stay decomposed
    assert_eq!(to_nfc(&ucd, &vec![0x212B]), vec![0x00C5]);
    assert_eq!(to_nfc(&ucd, &vec![0x0344]), vec![0x0308, 0x0301]);
    // composition goes on at the next starter
    assert_eq!(
        to_nfc(&ucd, &vec![0x0062, 0x0061, 0x030A, 0x0044, 0x0323]),
        vec![0x0062, 0x00E5, 0x1E0C]
    );
    assert_eq!(to_nfc(&ucd, &vec![]), Vec::<u32>::new());
}

#[test]
fn test_to_nfc_keeps_the_decomposed_form() {
    let ucd = sample_ucd();
    let inputs: Vec<Vec<u32>> = vec![
        vec![0x1E0A, 0x0323],
        vec![0x0044, 0x0307, 0x0323],
        vec![0x1100, 0xAC00, 0x11A8],
        vec![0x0041, 0x0301, 0x030A, 0x0323],
        vec![0x03B1, 0x0345, 0x0313],
    ];
    for input in inputs {
        let composed = to_nfc(&ucd, &input);
        assert_eq!(to_nfc(&ucd, &composed), composed);
        assert_eq!(to_nfd(&ucd, &composed), to_nfd(&ucd, &input));
    }
}

#[test]
fn test_to_nfc_str() {
    let ucd = sample_ucd();
    assert_eq!(to_nfc_str(&ucd, vec![0x41, 0xCC, 0x8A]), vec![0xC3, 0x85]);
    assert_eq!(to_nfc_str(&ucd, "a\u{212B}b".as_bytes().to_vec()), "a\u{C5}b".as_bytes());
    assert_eq!(to_nfc_str(&ucd, vec![]), Vec::<u8>::new());
}

#[test]
fn test_graphemes() {
    let ucd = sample_ucd();
    assert_eq!(graphemes(&ucd, &vec![]), Vec::<Vec<u32>>::new());
    assert_eq!(graphemes(&ucd, &vec![0x0061]), vec![vec![0x0061]]);
    assert_eq!(graphemes(&ucd, &vec![0x000D, 0x000A]), vec![vec![0x000D, 0x000A]]);
    assert_eq!(
        graphemes(&ucd, &vec![0x000A, 0x000D]),
        vec![vec![0x000A], vec![0x000D]]
    );
    assert_eq!(
        graphemes(&ucd, &vec![0x0061, 0x0308, 0x0062]),
        vec![vec![0x0061, 0x0308], vec![0x0062]]
    );
    assert_eq!(
        graphemes(&ucd, &vec![0x0061, 0x0001, 0x0308]),
        vec![vec![0x0061], vec![0x0001], vec![0x0308]]
    );
    assert_eq!(
        graphemes(&ucd, &vec![0x0061, 0x200D, 0x0062]),
        vec![vec![0x0061, 0x200D], vec![0x0062]]
    );
    assert_eq!(graphemes(&ucd, &vec![0x0061, 0x0903]), vec![vec![0x0061, 0x0903]]);
    assert_eq!(graphemes(&ucd, &vec![0x0600, 0x0061]), vec![vec![0x0600, 0x0061]]);
    assert_eq!(
        graphemes(&ucd, &vec![0x0600, 0x000A]),
        vec![vec![0x0600], vec![0x000A]]
    );
}

#[test]
fn test_graphemes_hangul() {
    let ucd = sample_ucd();
    assert_eq!(
        graphemes(&ucd, &vec![0x1100, 0x1161, 0x11A8]),
        vec![vec![0x1100, 0x1161, 0x11A8]]
    );
    assert_eq!(
        graphemes(&ucd, &vec![0x1100, 0x1100, 0xAC00, 0x11A8, 0x11A8]),
        vec![vec![0x1100, 0x1100, 0xAC00, 0x11A8, 0x11A8]]
    );
    assert_eq!(graphemes(&ucd, &vec![0xAC01, 0x11A8]), vec![vec![0xAC01, 0x11A8]]);
    assert_eq!(
        graphemes(&ucd, &vec![0xAC01, 0x1161]),
        vec![vec![0xAC01], vec![0x1161]]
    );
    assert_eq!(
        graphemes(&ucd, &vec![0x11A8, 0x1100]),
        vec![vec![0x11A8], vec![0x1100]]
    );
}

#[test]
fn test_graphemes_regional_indicators() {
    let ucd = sample_ucd();
    assert_eq!(
        graphemes(&ucd, &vec![0x1F1E6, 0x1F1E7, 0x1F1E8, 0x1F1E9]),
        vec![vec![0x1F1E6, 0x1F1E7], vec![0x1F1E8, 0x1F1E9]]
    );
    assert_eq!(
        graphemes(&ucd, &vec![0x1F1E6, 0x1F1E7, 0x1F1E8]),
        vec![vec![0x1F1E6, 0x1F1E7], vec![0x1F1E8]]
    );
    assert_eq!(
        graphemes(&ucd, &vec![0x0061, 0x1F1E6, 0x1F1E7, 0x1F1E8, 0x0062]),
        vec![vec![0x0061], vec![0x1F1E6, 0x1F1E7], vec![0x1F1E8], vec![0x0062]]
    );
    assert_eq!(
        graphemes(&ucd, &vec![0x1F1E6, 0x0308, 0x1F1E7, 0x1F1E8]),
        vec![vec![0x1F1E6, 0x0308], vec![0x1F1E7, 0x1F1E8]]
    );
}

#[test]
fn test_graphemes_put_together_are_the_sequence() {
    let ucd = sample_ucd();
    let inputs: Vec<Vec<u32>> = vec![
        vec![0x000D, 0x000A, 0x0061, 0x0308, 0x0301, 0x1F1E6, 0x1F1E7, 0x1F1E8],
        vec![0x0308, 0x0001, 0x0600, 0x0600, 0x1100, 0xAC00, 0x11A8],
        vec![0x0061],
    ];
    for input in inputs {
        let clusters = graphemes(&ucd, &input);
        assert!(clusters.iter().all(|cluster| !cluster.is_empty()));
        assert_eq!(clusters.concat(), input);
    }
}

#[test]
fn test_grapheme_iter_ends() {
    let ucd = sample_ucd();
    let code_points = vec![0x0061, 0x0308];
    let mut iter = GraphemeIter::new(&ucd, &code_points);
    assert_eq!(iter.next(), Some(&[0x0061u32, 0x0308][..]));
    assert_eq!(iter.next(), None);
    assert_eq!(iter.next(), None);
}

#[test]
fn test_sort_key_single_elements() {
    let ucd = sample_ucd();
    assert_eq!(
        sort_key(&ucd, &vec![0x0061, 0x0062], &VariableWeighting::NonIgnorable),
        Ok(vec![0x1CAD, 0x1CC6, 0, 0x0020, 0x0020, 0, 0x0002, 0x0002, 0])
    );
    assert_eq!(
        sort_key(&ucd, &vec![0x0041], &VariableWeighting::NonIgnorable),
        Ok(vec![0x1CAD, 0, 0x0020, 0, 0x0008, 0])
    );
    assert_eq!(
        sort_key(&ucd, &vec![0x0301], &VariableWeighting::NonIgnorable),
        Ok(vec![0, 0x0024, 0, 0x0002, 0])
    );
    assert_eq!(sort_key(&ucd, &vec![], &VariableWeighting::NonIgnorable), Ok(vec![]));
}

#[test]
fn test_sort_key_contiguous_contraction() {
    let ucd = sample_ucd();
    assert_eq!(
        sort_key(&ucd, &vec![0x006C, 0x00B7], &VariableWeighting::NonIgnorable),
        Ok(vec![0x1D78, 0, 0x0020, 0, 0x0002, 0])
    );
    assert_eq!(
        sort_key(&ucd, &vec![0x006C, 0x0062], &VariableWeighting::NonIgnorable),
        Ok(vec![0x1D77, 0x1CC6, 0, 0x0020, 0x0020, 0, 0x0002, 0x0002, 0])
    );
    assert_eq!(
        sort_key(&ucd, &vec![0x006C, 0x00B7, 0x00B7], &VariableWeighting::NonIgnorable),
        Ok(vec![0x1D78, 0x0288, 0, 0x0020, 0x0020, 0, 0x0002, 0x0002, 0])
    );
}

#[test]
fn test_sort_key_discontiguous_contraction() {
    let ucd = sample_ucd();
    assert_eq!(
        sort_key(&ucd, &vec![0x0061, 0x0301], &VariableWeighting::NonIgnorable),
        Ok(vec![0x1CAE, 0, 0x0020, 0, 0x0002, 0])
    );
    // the mark of class 220 is passed over, the acute joins the key
    assert_eq!(
        sort_key(&ucd, &vec![0x0061, 0x0323, 0x0301], &VariableWeighting::NonIgnorable),
        Ok(vec![0x1CAE, 0, 0x0020, 0x0042, 0, 0x0002, 0x0002, 0])
    );
    // equivalent spellings have one key
    assert_eq!(
        sort_key(&ucd, &vec![0x0061, 0x0301, 0x0323], &VariableWeighting::NonIgnorable),
        sort_key(&ucd, &vec![0x0061, 0x0323, 0x0301], &VariableWeighting::NonIgnorable)
    );
    // the search ends at a mark with which the table knows nothing
    assert_eq!(
        sort_key(&ucd, &vec![0x0061, 0x0323, 0x0302], &VariableWeighting::NonIgnorable),
        Ok(vec![0x1CAD, 0, 0x0020, 0x0042, 0x0027, 0, 0x0002, 0x0002, 0x0002, 0])
    );
    // a blocked mark ends it too: the second acute is of the class of the first
    assert_eq!(
        sort_key(&ucd, &vec![0x0061, 0x0301, 0x0301], &VariableWeighting::NonIgnorable),
        Ok(vec![0x1CAE, 0, 0x0020, 0x0024, 0, 0x0002, 0x0002, 0])
    );
}

#[test]
fn test_sort_key_derived_elements() {
    let ucd = sample_ucd();
    let key = |cp: u32| sort_key(&ucd, &vec![cp], &VariableWeighting::NonIgnorable);
    assert_eq!(key(0x4E00), Ok(vec![0xFB40, 0xCE00, 0, 0x0020, 0, 0x0002, 0]));
    assert_eq!(key(0xFA0E), Ok(vec![0xFB41, 0xFA0E, 0, 0x0020, 0, 0x0002, 0]));
    assert_eq!(key(0x3400), Ok(vec![0xFB80, 0xB400, 0, 0x0020, 0, 0x0002, 0]));
    assert_eq!(key(0x20000), Ok(vec![0xFB84, 0x8000, 0, 0x0020, 0, 0x0002, 0]));
    assert_eq!(key(0x17000), Ok(vec![0xFB00, 0xF000, 0, 0x0020, 0, 0x0002, 0]));
    assert_eq!(key(0x18D00), Ok(vec![0xFB00, 0x8D00, 0, 0x0020, 0, 0x0002, 0]));
    assert_eq!(key(0x1B170), Ok(vec![0xFB01, 0xB170, 0, 0x0020, 0, 0x0002, 0]));
    assert_eq!(key(0x18B00), Ok(vec![0xFB02, 0x8B00, 0, 0x0020, 0, 0x0002, 0]));
    assert_eq!(key(0x0378), Ok(vec![0xFBC0, 0x8378, 0, 0x0020, 0, 0x0002, 0]));
    assert_eq!(key(0x10FFFF), Ok(vec![0xFBE1, 0xFFFF, 0, 0x0020, 0, 0x0002, 0]));
    // an ideograph range without the property
    assert_eq!(key(0x4E01), Ok(vec![0xFBC0, 0xCE01, 0, 0x0020, 0, 0x0002, 0]));
}

#[test]
fn test_derive_collation_elements() {
    let ucd = sample_ucd();
    assert_eq!(
        derive_collation_elements(&ucd, vec![0x4E00, 0x0061]),
        vec![
            element([0xFB40, 0x0020, 0x0002], false),
            element([0xCE00, 0x0000, 0x0000], false)
        ]
    );
}

#[test]
fn test_sort_key_blanked() {
    let ucd = sample_ucd();
    assert_eq!(
        sort_key(&ucd, &vec![0x0061, 0x0020, 0x0062], &VariableWeighting::NonIgnorable),
        Ok(vec![
            0x1CAD, 0x0209, 0x1CC6, 0, 0x0020, 0x0020, 0x0020, 0, 0x0002, 0x0002, 0x0002, 0
        ])
    );
    assert_eq!(
        sort_key(&ucd, &vec![0x0061, 0x0020, 0x0062], &VariableWeighting::Blanked),
        Ok(vec![0x1CAD, 0x1CC6, 0, 0x0020, 0x0020, 0, 0x0002, 0x0002, 0])
    );
    // within the elements of one key, ignorable elements behind a variable one are blanked
    assert_eq!(
        sort_key(&ucd, &vec![0x2025], &VariableWeighting::NonIgnorable),
        Ok(vec![
            0x0277, 0x1CAD, 0, 0x0020, 0x0024, 0x0020, 0x0024, 0, 0x0002, 0x0002, 0x0002, 0x0002,
            0
        ])
    );
    assert_eq!(
        sort_key(&ucd, &vec![0x2025], &VariableWeighting::Blanked),
        Ok(vec![0x1CAD, 0, 0x0020, 0x0024, 0, 0x0002, 0x0002, 0])
    );
}

#[test]
fn test_apply_variable_weighting() {
    let mut elements = vec![
        element([0x0000, 0x0024, 0x0002], false),
        element([0x0277, 0x0020, 0x0002], true),
        element([0x0000, 0x0024, 0x0002], false),
        element([0x1CAD, 0x0020, 0x0002], false),
    ];
    let unchanged = elements.clone();
    apply_variable_weighting(&mut elements, &VariableWeighting::NonIgnorable);
    assert_eq!(elements, unchanged);
    apply_variable_weighting(&mut elements, &VariableWeighting::Blanked);
    assert_eq!(
        elements,
        vec![
            element([0x0000, 0x0024, 0x0002], false),
            element([0, 0, 0], true),
            element([0, 0, 0], false),
            element([0x1CAD, 0x0020, 0x0002], false),
        ]
    );
}

#[test]
fn test_to_collation_elements() {
    let ucd = sample_ucd();
    let mut buffer = vec![0x0061, 0x0323, 0x0301, 0x0062];
    let elements = to_collation_elements(&ucd, &mut buffer, &VariableWeighting::NonIgnorable);
    assert_eq!(
        elements,
        vec![
            element([0x1CAE, 0x0020, 0x0002], false),
            element([0x0000, 0x0042, 0x0002], false),
            element([0x1CC6, 0x0020, 0x0002], false),
        ]
    );
    assert_eq!(buffer, vec![0x0061, 0x0323, 0x0062]);
}

#[test]
fn test_to_sort_key() {
    assert_eq!(to_sort_key(vec![]), Vec::<u16>::new());
    assert_eq!(
        to_sort_key(vec![
            element([0x1CAD, 0x0020, 0x0002], false),
            CollationElement { weights: vec![0x1CC6, 0x0020, 0x0002, 0x0061], variable: false },
            CollationElement { weights: vec![0x1D77], variable: false },
        ]),
        vec![0x1CAD, 0x1CC6, 0x1D77, 0, 0x0020, 0x0020, 0, 0x0002, 0x0002, 0, 0x0061, 0]
    );
}

#[test]
fn test_sort_key_refusals() {
    let ucd = sample_ucd();
    assert_eq!(
        sort_key(&ucd, &vec![0x0061], &VariableWeighting::Shifted),
        Err(TextError::Unsupported(VariableWeighting::Shifted))
    );
    assert_eq!(
        sort_key(&ucd, &vec![0x0061], &VariableWeighting::ShiftTrimmed),
        Err(TextError::Unsupported(VariableWeighting::ShiftTrimmed))
    );
    assert_eq!(
        sort_key(&ucd, &vec![0x0061, 0xD800], &VariableWeighting::NonIgnorable),
        Err(TextError::Codec(DecodeErr::InvalidCodePoint, 1))
    );
    assert_eq!(
        sort_key(&ucd, &vec![0x110000, 0xD800], &VariableWeighting::Shifted),
        Err(TextError::Codec(DecodeErr::InvalidCodePoint, 0))
    );
}

#[test]
fn test_compare() {
    assert_eq!(compare(&vec![], &vec![]), Ordering::Equal);
    assert_eq!(compare(&vec![1, 2, 3], &vec![1, 2, 3]), Ordering::Equal);
    assert_eq!(compare(&vec![1, 2], &vec![1, 2, 3]), Ordering::Less);
    assert_eq!(compare(&vec![1, 2, 3], &vec![1, 2]), Ordering::Greater);
    assert_eq!(compare(&vec![1, 9], &vec![2, 0]), Ordering::Less);
    assert_eq!(compare(&vec![0xFFFF], &vec![0x0001, 0xFFFF]), Ordering::Greater);
    assert_eq!(compare_code_points(&vec![0x10FFFF], &vec![0xFFFF, 1]), Ordering::Greater);
    assert_eq!(compare_code_points(&vec![5], &vec![5]), Ordering::Equal);
}

#[test]
fn test_sort_key_compares_equal_to_itself() {
    let ucd = sample_ucd();
    let inputs: Vec<Vec<u32>> = vec![
        vec![],
        vec![0x0061, 0x0323, 0x0301],
        vec![0x4E00, 0x006C, 0x00B7],
        vec![0x01FA, 0x0020],
    ];
    for input in inputs {
        let first = sort_key(&ucd, &input, &VariableWeighting::NonIgnorable).unwrap();
        let second = sort_key(&ucd, &input, &VariableWeighting::NonIgnorable).unwrap();
        assert_eq!(compare(&first, &second), Ordering::Equal);
    }
}

#[test]
fn test_sort_keys_order_sequences() {
    let ucd = sample_ucd();
    let key = |cps: Vec<u32>| sort_key(&ucd, &cps, &VariableWeighting::NonIgnorable).unwrap();
    assert_eq!(compare(&key(vec![0x0061]), &key(vec![0x0062])), Ordering::Less);
    assert_eq!(compare(&key(vec![0x0061]), &key(vec![0x0041])), Ordering::Less);
    assert_eq!(
        compare(&key(vec![0x0061, 0x0062]), &key(vec![0x0061])),
        Ordering::Greater
    );
}

#[test]
fn test_lookups() {
    let ucd = sample_ucd();
    assert_eq!(decomposition_mapping(&ucd, 0x01FA), Some(vec![0x00C5, 0x0301]));
    assert_eq!(decomposition_mapping(&ucd, 0x0041), None);
    assert_eq!(decomposition_mapping(&ucd, 0xAC00), Some(vec![0x1100, 0x1161]));
    assert_eq!(decomposition_mapping(&ucd, 0xAC01), Some(vec![0xAC00, 0x11A8]));
    assert_eq!(combining_class(&ucd, 0x0323), 220);
    assert_eq!(combining_class(&ucd, 0x0041), 0);
    assert!(is_starter(&ucd, 0x0041));
    assert!(!is_starter(&ucd, 0x0301));
    assert_eq!(primary_composite(&ucd, 0x0041, 0x030A), Some(0x00C5));
    assert_eq!(primary_composite(&ucd, 0x030A, 0x0041), None);
    assert_eq!(primary_composite(&ucd, 0x1100, 0x1161), Some(0xAC00));
    assert_eq!(primary_composite(&ucd, 0xAC00, 0x11A8), Some(0xAC01));
    assert_eq!(primary_composite(&ucd, 0xAC00, 0x11A7), None);
    assert_eq!(primary_composite(&ucd, 0xAC01, 0x11A8), None);
    assert_eq!(lowercase_mapping(&ucd, 0x011E), Some(0x011F));
    assert_eq!(lowercase_mapping(&ucd, 0x011F), None);
    assert_eq!(uppercase_mapping(&ucd, 0x00DF), Some(vec![0x0053, 0x0053]));
    assert_eq!(uppercase_mapping(&ucd, 0x0053), None);
    assert_eq!(case_folding(&ucd, 0x00DF), Some(vec![0x0073, 0x0073]));
    assert_eq!(case_folding(&ucd, 0x0073), None);
    assert!(cased(&ucd, 0x0391));
    assert!(!cased(&ucd, 0x0020));
    assert!(case_ignorable(&ucd, 0x002E));
    assert!(!case_ignorable(&ucd, 0x0020));
    assert!(extended_pictorial(&ucd, 0x1F600));
    assert!(!extended_pictorial(&ucd, 0x0041));
    assert!(unified_ideograph(&ucd, 0x4E00));
    assert!(!unified_ideograph(&ucd, 0x4E01));
    assert_eq!(grapheme_cluster_break(&ucd, 0x000D), GraphemeClusterBreak::CR);
    assert_eq!(grapheme_cluster_break(&ucd, 0x0041), GraphemeClusterBreak::XX);
}

#[test]
fn test_is_allowed() {
    let ucd = sample_ucd();
    assert_eq!(is_allowed(&ucd, 0x0301, &Normalisation::NFC), QuickCheckVal::Maybe);
    assert_eq!(is_allowed(&ucd, 0x0344, &Normalisation::NFC), QuickCheckVal::No);
    assert_eq!(is_allowed(&ucd, 0x00C5, &Normalisation::NFC), QuickCheckVal::Yes);
    assert_eq!(is_allowed(&ucd, 0x00C5, &Normalisation::NFD), QuickCheckVal::No);
    assert_eq!(is_allowed(&ucd, 0x0301, &Normalisation::NFD), QuickCheckVal::Yes);
}

#[test]
fn test_collation_table_lookup() {
    let ucd = sample_ucd();
    assert_eq!(
        collation_elements(&ucd, &vec![0x0061]),
        TrieMatch::Match(&vec![element([0x1CAD, 0x0020, 0x0002], false)])
    );
    assert_eq!(collation_elements(&ucd, &vec![0x0061, 0x0323]), TrieMatch::PartialMatch);
    assert_eq!(collation_elements(&ucd, &vec![0x0061, 0x0302]), TrieMatch::NoMatch);
}

#[test]
fn test_later_table_entry_counts() {
    let mut tables = UcdTables::empty();
    tables.combining_classes = vec![(0x0301, 1), (0x0301, 230)];
    tables.lowercase_mappings = vec![(0x0041, 0x0062), (0x0041, 0x0061)];
    let ucd = Ucd::new(tables).unwrap_or_else(|e| panic!("refused: {:?}", e));
    assert_eq!(combining_class(&ucd, 0x0301), 230);
    assert_eq!(lowercase_mapping(&ucd, 0x0041), Some(0x0061));
}

#[test]
fn test_tables_refused() {
    let refused = |tables: UcdTables| matches!(Ucd::new(tables), Err(TextError::ResourceUnavailable));
    // a decomposition that never ends
    let mut tables = UcdTables::empty();
    tables.decomposition_mappings = vec![(0x0041, vec![0x0042]), (0x0042, vec![0x0041])];
    assert!(refused(tables));
    let mut tables = UcdTables::empty();
    tables.decomposition_mappings = vec![(0x0041, vec![0x0041, 0x0301])];
    assert!(refused(tables));
    // a value that is no codepoint
    let mut tables = UcdTables::empty();
    tables.decomposition_mappings = vec![(0x0041, vec![0xD800])];
    assert!(refused(tables));
    let mut tables = UcdTables::empty();
    tables.lowercase_mappings = vec![(0x0041, 0x110000)];
    assert!(refused(tables));
    let mut tables = UcdTables::empty();
    tables.uppercase_mappings = vec![(0x0061, vec![0x0041, 0xDFFF])];
    assert!(refused(tables));
    let mut tables = UcdTables::empty();
    tables.case_folding = vec![(0x0041, vec![0x110000])];
    assert!(refused(tables));
    // a class out of range
    let mut tables = UcdTables::empty();
    tables.combining_classes = vec![(0x0301, 255)];
    assert!(refused(tables));
    // a jamo with a mapping
    let mut tables = UcdTables::empty();
    tables.decomposition_mappings = vec![(0x1100, vec![0x0041])];
    assert!(refused(tables));
    // a composite that does not decompose into its pair
    let mut tables = UcdTables::empty();
    tables.primary_composites = vec![(0x0041, 0x030A, 0x00C5)];
    assert!(refused(tables));
    let mut tables = UcdTables::empty();
    tables.decomposition_mappings = vec![(0x00C5, vec![0x0041, 0x030A])];
    tables.primary_composites = vec![(0x0061, 0x030A, 0x00C5)];
    assert!(refused(tables));
}

#[test]
fn test_tables_with_hangul_composites() {
    let refused = |tables: UcdTables| matches!(Ucd::new(tables), Err(TextError::ResourceUnavailable));
    // syllables may be listed as composites of the pairs that make them
    let mut tables = UcdTables::empty();
    tables.primary_composites = vec![(0x1100, 0x1161, 0xAC00), (0xAC00, 0x11A8, 0xAC01)];
    let ucd = Ucd::new(tables).unwrap();
    assert_eq!(primary_composite(&ucd, 0x1100, 0x1161), Some(0xAC00));
    assert_eq!(to_nfc(&ucd, &vec![0x1100, 0x1161, 0x11A8]), vec![0xAC01]);
    // but of no others
    let mut tables = UcdTables::empty();
    tables.primary_composites = vec![(0x1100, 0x1161, 0xAC01)];
    assert!(refused(tables));
    let mut tables = UcdTables::empty();
    tables.decomposition_mappings = vec![(0xAC00, vec![0x0041, 0x0042])];
    tables.primary_composites = vec![(0x0041, 0x0042, 0xAC00)];
    assert!(refused(tables));
}

#[test]
fn test_tables_accepted() {
    assert!(Ucd::new(UcdTables::empty()).is_ok());
    // mappings may stand in any order, and syllables may be listed
    let mut tables = UcdTables::empty();
    tables.decomposition_mappings = vec![
        (0x01FA, vec![0x00C5, 0x0301]),
        (0x212B, vec![0x00C5]),
        (0x00C5, vec![0x0041, 0x030A]),
        (0xAC00, vec![0x1100, 0x1161]),
        (0x3131, vec![0xAC01]),
    ];
    let ucd = Ucd::new(tables).unwrap_or_else(|e| panic!("refused: {:?}", e));
    assert_eq!(decompose(&ucd, 0x01FA), vec![0x0041, 0x030A, 0x0301]);
    assert_eq!(decompose(&ucd, 0x3131), vec![0x1100, 0x1161, 0x11A8]);
}

#[test]
fn test_normalization_invariants() {
    let ucd = sample_ucd();
    // source, composed, decomposed, compatibility composed, compatibility decomposed
    let lines: Vec<[Vec<u32>; 5]> = vec![
        [
            vec![0x1E0A],
            vec![0x1E0A],
            vec![0x0044, 0x0307],
            vec![0x1E0A],
            vec![0x0044, 0x0307],
        ],
        [
            vec![0x1E0C],
            vec![0x1E0C],
            vec![0x0044, 0x0323],
            vec![0x1E0C],
            vec![0x0044, 0x0323],
        ],
        [
            vec![0x1E0A, 0x0323],
            vec![0x1E0C, 0x0307],
            vec![0x0044, 0x0323, 0x0307],
            vec![0x1E0C, 0x0307],
            vec![0x0044, 0x0323, 0x0307],
        ],
        [
            vec![0x1E0C, 0x0307],
            vec![0x1E0C, 0x0307],
            vec![0x0044, 0x0323, 0x0307],
            vec![0x1E0C, 0x0307],
            vec![0x0044, 0x0323, 0x0307],
        ],
        [
            vec![0x0044, 0x0307, 0x0323],
            vec![0x1E0C, 0x0307],
            vec![0x0044, 0x0323, 0x0307],
            vec![0x1E0C, 0x0307],
            vec![0x0044, 0x0323, 0x0307],
        ],
        [
            vec![0x212B],
            vec![0x00C5],
            vec![0x0041, 0x030A],
            vec![0x00C5],
            vec![0x0041, 0x030A],
        ],
        [
            vec![0x0344],
            vec![0x0308, 0x0301],
            vec![0x0308, 0x0301],
            vec![0x0308, 0x0301],
            vec![0x0308, 0x0301],
        ],
        [
            vec![0xAC01],
            vec![0xAC01],
            vec![0x1100, 0x1161, 0x11A8],
            vec![0xAC01],
            vec![0x1100, 0x1161, 0x11A8],
        ],
        [
            vec![0x1100, 0xAC00, 0x11A8],
            vec![0x1100, 0xAC01],
            vec![0x1100, 0x1100, 0x1161, 0x11A8],
            vec![0x1100, 0xAC01],
            vec![0x1100, 0x1100, 0x1161, 0x11A8],
        ],
    ];
    for c in lines {
        assert_eq!(c[1], to_nfc(&ucd, &c[0]));
        assert_eq!(c[1], to_nfc(&ucd, &c[1]));
        assert_eq!(c[1], to_nfc(&ucd, &c[2]));
        assert_eq!(c[3], to_nfc(&ucd, &c[3]));
        assert_eq!(c[3], to_nfc(&ucd, &c[4]));
        assert_eq!(c[2], to_nfd(&ucd, &c[0]));
        assert_eq!(c[2], to_nfd(&ucd, &c[1]));
        assert_eq!(c[2], to_nfd(&ucd, &c[2]));
        assert_eq!(c[4], to_nfd(&ucd, &c[3]));
        assert_eq!(c[4], to_nfd(&ucd, &c[4]));
        assert_ne!(quick_check(&ucd, &c[1], Normalisation::NFC), IsNormalised::No);
        assert_eq!(quick_check(&ucd, &c[2], Normalisation::NFD), IsNormalised::Yes);
    }
}
