use unicode_text::error::TextError;
use unicode_text::json::{
    break_from_code, decode_breaks, decode_classes, decode_collation, decode_lists, decode_pairs,
    decode_set, decode_triples, read_tables, UcdJson,
};
use unicode_text::normalise::to_nfc;
use unicode_text::ucd::{
    combining_class, CollationElement, GraphemeClusterBreak, Ucd, UcdTables,
};

fn empty_texts() -> UcdJson {
    UcdJson {
        decomposition_mappings: String::from("[]"),
        primary_composites: String::from("[]"),
        combining_class: String::from("[]"),
        nfc_quick_check_no: String::from("[]"),
        nfc_quick_check_maybe: String::from("[]"),
        nfd_quick_check_no: String::from("[]"),
        uppercase_mappings: String::from("[]"),
        lowercase_mappings: String::from("[]"),
        case_folding: String::from("[]"),
        cased: String::from("[]"),
        case_ignorable: String::from("[]"),
        extended_pictorial: String::from("[]"),
        unified_ideograph: String::from("[]"),
        grapheme_cluster_break: String::from("[]"),
        collation_elements: String::from("[]"),
    }
}

#[test]
fn test_decode_set() {
    assert_eq!(decode_set(&vec![]), Vec::<u32>::new());
    assert_eq!(decode_set(&vec![vec![1, 2], vec![], vec![3]]), vec![1, 2, 3]);
}

#[test]
fn test_decode_lists() {
    assert_eq!(
        decode_lists(&vec![vec![0xC5, 0x41, 0x30A], vec![0x41]]),
        Some(vec![(0xC5, vec![0x41, 0x30A]), (0x41, vec![])])
    );
    assert_eq!(decode_lists(&vec![vec![0xC5, 0x41], vec![]]), None);
}

#[test]
fn test_decode_pairs() {
    assert_eq!(decode_pairs(&vec![vec![0x41, 0x61]]), Some(vec![(0x41, 0x61)]));
    assert_eq!(decode_pairs(&vec![vec![0x41]]), None);
    assert_eq!(decode_pairs(&vec![vec![0x41, 0x61, 0x62]]), None);
}

#[test]
fn test_decode_classes() {
    assert_eq!(
        decode_classes(&vec![vec![0x301, 230], vec![0x334, 255]]),
        Some(vec![(0x301, 230), (0x334, 255)])
    );
    assert_eq!(decode_classes(&vec![vec![0x301, 256]]), None);
    assert_eq!(decode_classes(&vec![vec![0x301]]), None);
}

#[test]
fn test_decode_triples() {
    assert_eq!(
        decode_triples(&vec![vec![0x41, 0x30A, 0xC5]]),
        Some(vec![(0x41, 0x30A, 0xC5)])
    );
    assert_eq!(decode_triples(&vec![vec![0x41, 0x30A]]), None);
}

#[test]
fn test_decode_breaks() {
    assert_eq!(
        decode_breaks(&vec![vec![0xD, 1], vec![0x301, 5], vec![0x200D, 17]]),
        Some(vec![
            (0xD, GraphemeClusterBreak::CR),
            (0x301, GraphemeClusterBreak::EX),
            (0x200D, GraphemeClusterBreak::ZWJ)
        ])
    );
    assert_eq!(decode_breaks(&vec![vec![0xD, 18]]), None);
    assert_eq!(decode_breaks(&vec![vec![0xD]]), None);
    assert_eq!(break_from_code(0), Some(GraphemeClusterBreak::CN));
    assert_eq!(break_from_code(8), Some(GraphemeClusterBreak::LF));
    assert_eq!(break_from_code(12), Some(GraphemeClusterBreak::RI));
    assert_eq!(break_from_code(16), Some(GraphemeClusterBreak::XX));
}

#[test]
fn test_decode_collation() {
    assert_eq!(
        decode_collation(&vec![
            vec![1, 0x61, 0, 3, 0x1CAD, 0x20, 0x02],
            vec![2, 0x6C, 0xB7, 1, 3, 0x288, 0x20, 0x02, 0, 1, 0xFFFF],
            vec![0],
        ]),
        Some(vec![
            (
                vec![0x61],
                vec![CollationElement { weights: vec![0x1CAD, 0x20, 0x02], variable: false }]
            ),
            (
                vec![0x6C, 0xB7],
                vec![
                    CollationElement { weights: vec![0x288, 0x20, 0x02], variable: true },
                    CollationElement { weights: vec![0xFFFF], variable: false },
                ]
            ),
            (vec![], vec![]),
        ])
    );
    // no length, a key that is cut off, an element that is cut off
    assert_eq!(decode_collation(&vec![vec![]]), None);
    assert_eq!(decode_collation(&vec![vec![2, 0x61]]), None);
    assert_eq!(decode_collation(&vec![vec![1, 0x61, 0]]), None);
    assert_eq!(decode_collation(&vec![vec![1, 0x61, 0, 2, 0x20]]), None);
    // a flag that is neither 0 nor 1, a weight that does not fit
    assert_eq!(decode_collation(&vec![vec![1, 0x61, 2, 1, 0x20]]), None);
    assert_eq!(decode_collation(&vec![vec![1, 0x61, 0, 1, 0x10000]]), None);
}

#[test]
fn test_read_tables() {
    let mut texts = empty_texts();
    texts.decomposition_mappings = String::from("[[197, 65, 778], [8491, 197]]");
    texts.primary_composites = String::from(" [ [65, 778, 197] ] ");
    texts.combining_class = String::from("[[778, 230]]");
    texts.nfc_quick_check_maybe = String::from("[[778, 769]]");
    texts.lowercase_mappings = String::from("[[65, 97]]");
    texts.grapheme_cluster_break = String::from("[[13, 1], [778, 5]]");
    texts.collation_elements = String::from("[[1, 97, 0, 3, 7341, 32, 2]]");
    let tables = read_tables(&texts).unwrap();
    let mut expected = UcdTables::empty();
    expected.decomposition_mappings = vec![(0xC5, vec![0x41, 0x30A]), (0x212B, vec![0xC5])];
    expected.primary_composites = vec![(0x41, 0x30A, 0xC5)];
    expected.combining_classes = vec![(0x30A, 230)];
    expected.nfc_quick_check_maybe = vec![0x30A, 0x301];
    expected.lowercase_mappings = vec![(0x41, 0x61)];
    expected.grapheme_cluster_break =
        vec![(0xD, GraphemeClusterBreak::CR), (0x30A, GraphemeClusterBreak::EX)];
    expected.collation_elements = vec![(
        vec![0x61],
        vec![CollationElement { weights: vec![0x1CAD, 0x20, 0x02], variable: false }],
    )];
    assert_eq!(tables, expected);

    let ucd = Ucd::new(tables).unwrap();
    assert_eq!(combining_class(&ucd, 0x30A), 230);
    assert_eq!(to_nfc(&ucd, &vec![0x212B]), vec![0xC5]);
}

#[test]
fn test_read_tables_refuses() {
    assert_eq!(read_tables(&empty_texts()), Ok(UcdTables::empty()));
    let mut texts = empty_texts();
    texts.cased = String::from("not json");
    assert_eq!(read_tables(&texts), Err(TextError::ResourceUnavailable));
    let mut texts = empty_texts();
    texts.cased = String::from("[1, 2]");
    assert_eq!(read_tables(&texts), Err(TextError::ResourceUnavailable));
    let mut texts = empty_texts();
    texts.cased = String::from("[[4294967296]]");
    assert_eq!(read_tables(&texts), Err(TextError::ResourceUnavailable));
    let mut texts = empty_texts();
    texts.cased = String::from("[[-1]]");
    assert_eq!(read_tables(&texts), Err(TextError::ResourceUnavailable));
    let mut texts = empty_texts();
    texts.cased = String::from("[[1]] [[2]]");
    assert_eq!(read_tables(&texts), Err(TextError::ResourceUnavailable));
    let mut texts = empty_texts();
    texts.combining_class = String::from("[[769, 230, 1]]");
    assert_eq!(read_tables(&texts), Err(TextError::ResourceUnavailable));
    let mut texts = empty_texts();
    texts.collation_elements = String::from("[[1]]");
    assert_eq!(read_tables(&texts), Err(TextError::ResourceUnavailable));
    let mut texts = empty_texts();
    texts.unified_ideograph = String::from("");
    assert_eq!(read_tables(&texts), Err(TextError::ResourceUnavailable));
}
