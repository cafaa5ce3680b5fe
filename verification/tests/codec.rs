use unicode_text::cp_iter::{decode, encode_utf8, CodePointIter};
use unicode_text::fix::fix;
use unicode_text::helpers::{
    decode_double, decode_quad, decode_triple, encode, is_valid_codepoint, CodeUnit, DecodeErr,
};
use unicode_text::validate::validate;

#[test]
fn test_codepoint_from_u8() {
    assert_eq!(CodeUnit::try_from(0), Ok(CodeUnit::SingleByte));
    assert_eq!(CodeUnit::try_from(127), Ok(CodeUnit::SingleByte));

    assert_eq!(CodeUnit::try_from(128), Ok(CodeUnit::Continuation));
    assert_eq!(CodeUnit::try_from(191), Ok(CodeUnit::Continuation));

    assert_eq!(CodeUnit::try_from(192), Ok(CodeUnit::DoublePrefix));
    assert_eq!(CodeUnit::try_from(223), Ok(CodeUnit::DoublePrefix));

    assert_eq!(CodeUnit::try_from(224), Ok(CodeUnit::TriplePrefix));
    assert_eq!(CodeUnit::try_from(239), Ok(CodeUnit::TriplePrefix));

    assert_eq!(CodeUnit::try_from(240), Ok(CodeUnit::QuadPrefix));
    assert_eq!(CodeUnit::try_from(247), Ok(CodeUnit::QuadPrefix));

    assert_eq!(CodeUnit::try_from(248), Err(DecodeErr::InvalidCodeUnit));
}

#[test]
fn test_code_unit_len() {
    assert_eq!(CodeUnit::SingleByte.len(), 1);
    assert_eq!(CodeUnit::DoublePrefix.len(), 2);
    assert_eq!(CodeUnit::TriplePrefix.len(), 3);
    assert_eq!(CodeUnit::QuadPrefix.len(), 4);
}

#[test]
fn test_is_valid_codepoint() {
    assert!(is_valid_codepoint(0x0024));
    assert!(is_valid_codepoint(0x00A3));
    assert!(is_valid_codepoint(0x0939));
    assert!(is_valid_codepoint(0x20AC));
    assert!(is_valid_codepoint(0xD55C));
    assert!(is_valid_codepoint(0x10348));
    assert_eq!(is_valid_codepoint(0x110000), false);
    assert_eq!(is_valid_codepoint(0xD800), false);
    assert_eq!(is_valid_codepoint(0xDABC), false);
    assert_eq!(is_valid_codepoint(0xDFFF), false);
}

#[test]
fn test_valid_codepoint_edges() {
    assert!(is_valid_codepoint(0));
    assert!(is_valid_codepoint(0xD7FF));
    assert!(is_valid_codepoint(0xE000));
    assert!(is_valid_codepoint(0x10FFFF));
}

#[test]
fn test_decode_double() {
    assert_eq!(decode_double(0b11000010, 0b10100011), 0xA3);
}

#[test]
fn test_decode_triple() {
    assert_eq!(decode_triple(0xEF, 0xBF, 0xBD), 0xFFFD);
    assert_eq!(decode_triple(0b11100000, 0b10100100, 0b10111001), 0x939);
    assert_eq!(decode_triple(0b11100010, 0b10000010, 0b10101100), 0x20AC);
    assert_eq!(decode_triple(0b11101101, 0b10010101, 0b10011100), 0xD55C);
}

#[test]
fn test_decode_quad() {
    assert_eq!(decode_quad(0b11110000, 0b10010000, 0b10001101, 0b10001000), 0x10348);
}

#[test]
fn test_encode() {
    assert_eq!(encode(0x24), vec![0x24]);
    assert_eq!(encode(0x7F), vec![0x7F]);
    assert_eq!(encode(0x80), vec![0xC2, 0x80]);
    assert_eq!(encode(0xA3), vec![0xC2, 0xA3]);
    assert_eq!(encode(0x7FF), vec![0xDF, 0xBF]);
    assert_eq!(encode(0x800), vec![0xE0, 0xA0, 0x80]);
    assert_eq!(encode(0x20AC), vec![0xE2, 0x82, 0xAC]);
    assert_eq!(encode(0xFFFD), vec![0xEF, 0xBF, 0xBD]);
    assert_eq!(encode(0xFFFF), vec![0xEF, 0xBF, 0xBF]);
    assert_eq!(encode(0x10000), vec![0xF0, 0x90, 0x80, 0x80]);
    assert_eq!(encode(0x10348), vec![0xF0, 0x90, 0x8D, 0x88]);
    assert_eq!(encode(0x10FFFF), vec![0xF4, 0x8F, 0xBF, 0xBF]);
}

#[test]
fn test_validate() {
    let xs = b"hello";
    assert!(validate(xs).is_ok());
    let xs = "ศไทย中华Việt Nam".as_bytes();
    assert!(validate(xs).is_ok());
    let xs = b"hello\xFF";
    assert!(validate(xs).is_err());

    assert_eq!(
        validate(&[0xF0, 0x80, 0x80, 0x41]),
        Err((DecodeErr::IncompleteCharacter, 0))
    );
    assert_eq!(
        validate(&[0xC2, 0x41, 0x42]),
        Err((DecodeErr::IncompleteCharacter, 0))
    );

    // invalid prefix
    assert!((validate(&[0x80]).is_err()));
    // invalid 2 byte prefix
    assert!((validate(&[0xc0]).is_err()));
    assert!((validate(&[0xc0, 0x10]).is_err()));
    // invalid 3 byte prefix
    assert!((validate(&[0xe0]).is_err()));
    assert!((validate(&[0xe0, 0x10]).is_err()));
    assert!((validate(&[0xe0, 0xff, 0x10]).is_err()));
    // invalid 4 byte prefix
    assert!((validate(&[0xf0]).is_err()));
    assert!((validate(&[0xf0, 0x10]).is_err()));
    assert!((validate(&[0xf0, 0xff, 0x10]).is_err()));
    assert!((validate(&[0xf0, 0xff, 0xff, 0x10]).is_err()));

    // deny overlong encodings
    assert!(validate(&[0xc0, 0x80]).is_err());
    assert!(validate(&[0xc0, 0xae]).is_err());
    assert!(validate(&[0xe0, 0x80, 0x80]).is_err());
    assert!(validate(&[0xe0, 0x80, 0xaf]).is_err());
    assert!(validate(&[0xe0, 0x81, 0x81]).is_err());
    assert!(validate(&[0xf0, 0x82, 0x82, 0xac]).is_err());
    assert!(validate(&[0xf4, 0x90, 0x80, 0x80]).is_err());

    // deny surrogates
    assert!(validate(&[0xED, 0xA0, 0x80]).is_err());
    assert!(validate(&[0xED, 0xBF, 0xBF]).is_err());

    assert!(validate(&[0xC2, 0x80]).is_ok());
    assert!(validate(&[0xDF, 0xBF]).is_ok());
    assert!(validate(&[0xE0, 0xA0, 0x80]).is_ok());
    assert!(validate(&[0xED, 0x9F, 0xBF]).is_ok());
    assert!(validate(&[0xEE, 0x80, 0x80]).is_ok());
    assert!(validate(&[0xEF, 0xBF, 0xBF]).is_ok());
    assert!(validate(&[0xF0, 0x90, 0x80, 0x80]).is_ok());
    assert!(validate(&[0xF4, 0x8F, 0xBF, 0xBF]).is_ok());
}

#[test]
fn test_validate_error_kinds() {
    assert_eq!(validate(&[]), Ok(()));
    assert_eq!(validate(&[0x41, 0xFF]), Err((DecodeErr::InvalidCodeUnit, 1)));
    assert_eq!(validate(&[0x41, 0x42, 0x80]), Err((DecodeErr::UnexpectedContinuation, 2)));
    assert_eq!(validate(&[0xE2, 0x82]), Err((DecodeErr::IncompleteCharacter, 0)));
    assert_eq!(validate(&[0x41, 0xC0, 0x80]), Err((DecodeErr::OverlongEncoding, 1)));
    assert_eq!(validate(&[0xE0, 0x80, 0x80]), Err((DecodeErr::OverlongEncoding, 0)));
    assert_eq!(validate(&[0xF0, 0x82, 0x82, 0xAC]), Err((DecodeErr::OverlongEncoding, 0)));
    assert_eq!(validate(&[0xED, 0xA0, 0x80]), Err((DecodeErr::InvalidCodePoint, 0)));
    assert_eq!(validate(&[0xF4, 0x90, 0x80, 0x80]), Err((DecodeErr::InvalidCodePoint, 0)));
    assert_eq!(validate(&[0xF7, 0xBF, 0xBF, 0xBF]), Err((DecodeErr::InvalidCodePoint, 0)));
    // the first error is the one that is reported
    assert_eq!(validate(&[0xC2, 0xA3, 0xFF, 0x80]), Err((DecodeErr::InvalidCodeUnit, 2)));
}

#[test]
fn test_fix() {
    assert_eq!(fix(vec![0xc0, 0x80]), vec![0xEF, 0xBF, 0xBD]);
    assert_eq!(fix(vec![0xc0, 0xAE]), vec![0xEF, 0xBF, 0xBD]);
    assert_eq!(fix(vec![0xF0, 0x80, 0x80, 0x41]), vec![0xEF, 0xBF, 0xBD, 0x41]);

    let xs = b"hello".to_vec();
    let ys = "hello".as_bytes();
    assert_eq!(fix(xs), ys);

    let xs = "ศไทย中华Việt Nam".as_bytes().to_vec();
    let ys = "ศไทย中华Việt Nam".as_bytes();
    assert_eq!(fix(xs), ys);

    let xs = b"Hello\xC2 There\xFF Goodbye".to_vec();
    let ys = "Hello\u{FFFD} There\u{FFFD} Goodbye".as_bytes();
    assert_eq!(fix(xs), ys);
}

#[test]
fn test_fix_overlong_nul() {
    assert_eq!(fix(vec![0xC0, 0x80]), vec![0xEF, 0xBF, 0xBD]);
}

#[test]
fn test_fix_incomplete_two_byte() {
    assert_eq!(
        fix(vec![b'H', b'i', 0xC2, b' ', b'T']),
        vec![b'H', b'i', 0xEF, 0xBF, 0xBD, b' ', b'T']
    );
}

#[test]
fn test_fix_resynchronisation() {
    // a stray continuation byte and a byte that leads nothing: one byte each
    assert_eq!(fix(vec![0x80, 0x41]), vec![0xEF, 0xBF, 0xBD, 0x41]);
    assert_eq!(fix(vec![0xFF, 0x41]), vec![0xEF, 0xBF, 0xBD, 0x41]);
    assert_eq!(
        fix(vec![0x80, 0x80]),
        vec![0xEF, 0xBF, 0xBD, 0xEF, 0xBF, 0xBD]
    );
    // a truncated character: the leading byte and the continuation bytes seen
    assert_eq!(fix(vec![0xE2, 0x82]), vec![0xEF, 0xBF, 0xBD]);
    assert_eq!(fix(vec![0xE2, 0x82, 0x41]), vec![0xEF, 0xBF, 0xBD, 0x41]);
    assert_eq!(fix(vec![0xF0, 0x90, 0x41]), vec![0xEF, 0xBF, 0xBD, 0x41]);
    // a surrogate and a value out of range: the whole character
    assert_eq!(fix(vec![0xED, 0xA0, 0x80, 0x41]), vec![0xEF, 0xBF, 0xBD, 0x41]);
    assert_eq!(fix(vec![0xF4, 0x90, 0x80, 0x80]), vec![0xEF, 0xBF, 0xBD]);
    assert_eq!(fix(vec![]), Vec::<u8>::new());
}

#[test]
fn test_fix_gives_well_formed_bytes() {
    let inputs: Vec<Vec<u8>> = vec![
        vec![0xC0, 0x80],
        vec![0xFF, 0xFE, 0xFD],
        vec![0xE2, 0x82],
        vec![0x41, 0xF0, 0x90, 0x80],
        vec![0xED, 0xBF, 0xBF, 0xC2],
        b"Hello\xC2 There\xFF Goodbye".to_vec(),
    ];
    for input in inputs {
        assert_eq!(validate(&fix(input)), Ok(()));
    }
}

#[test]
fn test_code_point_iter() {
    let mut iter = CodePointIter::new("a£€𐍈".as_bytes().to_vec());
    assert_eq!(iter.next(), Some(0x61));
    assert_eq!(iter.next(), Some(0xA3));
    assert_eq!(iter.next(), Some(0x20AC));
    assert_eq!(iter.next(), Some(0x10348));
    assert_eq!(iter.next(), None);
    assert_eq!(iter.next(), None);
}

#[test]
fn test_decode() {
    assert_eq!(decode(Vec::new()), Vec::<u32>::new());
    assert_eq!(
        decode("Việt".as_bytes().to_vec()),
        vec![0x56, 0x69, 0x1EC7, 0x74]
    );
}

#[test]
fn test_encode_utf8() {
    assert_eq!(encode_utf8(&vec![]), Vec::<u8>::new());
    assert_eq!(
        encode_utf8(&vec![0x56, 0x69, 0x1EC7, 0x74, 0x10348]),
        "Việt𐍈".as_bytes()
    );
}

#[test]
fn test_decode_then_encode_gives_the_bytes_back() {
    let texts = ["", "hello", "ศไทย中华Việt Nam", "a£€𐍈", "\u{10FFFF}\u{0}\u{7FF}\u{800}"];
    for text in texts {
        let bytes = text.as_bytes().to_vec();
        assert_eq!(validate(&bytes), Ok(()));
        assert_eq!(encode_utf8(&decode(bytes.clone())), bytes);
    }
}
