//! UTF-8 code units: classification of single bytes, and the arithmetic that
//! packs a codepoint into bytes and back.

use vstd::prelude::*;
use vstd::std_specs::convert::TryFromSpecImpl;

verus! {

/// The role a single byte plays in a UTF-8 stream.
#[derive(Debug, PartialEq, Eq, Structural, Clone, Copy)]
pub enum CodeUnit {
    SingleByte,
    DoublePrefix,
    TriplePrefix,
    QuadPrefix,
    Continuation,
}

/// What can be wrong with a byte sequence read as UTF-8.
#[derive(Debug, PartialEq, Eq, Structural, Clone, Copy)]
pub enum DecodeErr {
    /// A leading byte announces more continuation bytes than follow it.
    IncompleteCharacter,
    /// The decoded value is a surrogate or lies above U+10FFFF.
    InvalidCodePoint,
    /// The byte can neither lead nor continue a character (`0xF8..=0xFF`).
    InvalidCodeUnit,
    /// The character was written with more bytes than it needs.
    OverlongEncoding,
    /// A continuation byte stands where a character should begin.
    UnexpectedContinuation,
}

/// The class of a byte, by its leading bits.
pub open spec fn classify(value: u8) -> Result<CodeUnit, DecodeErr> {
    if value <= 0x7F {
        Ok(CodeUnit::SingleByte)
    } else if value <= 0xBF {
        Ok(CodeUnit::Continuation)
    } else if value <= 0xDF {
        Ok(CodeUnit::DoublePrefix)
    } else if value <= 0xEF {
        Ok(CodeUnit::TriplePrefix)
    } else if value <= 0xF7 {
        Ok(CodeUnit::QuadPrefix)
    } else {
        Err(DecodeErr::InvalidCodeUnit)
    }
}

impl CodeUnit {
    /// Number of bytes in the character that this unit leads.
    pub open spec fn width(self) -> int {
        match self {
            CodeUnit::SingleByte => 1,
            CodeUnit::DoublePrefix => 2,
            CodeUnit::TriplePrefix => 3,
            CodeUnit::QuadPrefix => 4,
            CodeUnit::Continuation => 0,
        }
    }

    /// Length in bytes of the character led by this unit. A continuation
    /// byte leads nothing and is not accepted.
    pub fn len(&self) -> (n: usize)
        requires
            *self != CodeUnit::Continuation,
        ensures
            n == self.width(),
            1 <= n <= 4,
    {
        match self {
            CodeUnit::SingleByte => 1,
            CodeUnit::DoublePrefix => 2,
            CodeUnit::TriplePrefix => 3,
            _ => 4,
        }
    }
}

impl TryFrom<u8> for CodeUnit {
    type Error = DecodeErr;

    fn try_from(value: u8) -> (unit: Result<Self, Self::Error>) {
        if value <= 0x7F {
            Ok(CodeUnit::SingleByte)
        } else if value <= 0xBF {
            Ok(CodeUnit::Continuation)
        } else if value <= 0xDF {
            Ok(CodeUnit::DoublePrefix)
        } else if value <= 0xEF {
            Ok(CodeUnit::TriplePrefix)
        } else if value <= 0xF7 {
            Ok(CodeUnit::QuadPrefix)
        } else {
            Err(DecodeErr::InvalidCodeUnit)
        }
    }
}

impl TryFromSpecImpl<u8> for CodeUnit {
    open spec fn obeys_try_from_spec() -> bool {
        true
    }

    open spec fn try_from_spec(value: u8) -> Result<Self, Self::Error> {
        classify(value)
    }
}

/// A codepoint is valid when it lies in the Unicode range and is not half of
/// a UTF-16 surrogate pair.
pub open spec fn valid_codepoint(code_point: u32) -> bool {
    code_point <= 0x10FFFF && !(0xD800 <= code_point <= 0xDFFF)
}

/// Every codepoint of the sequence is valid.
pub open spec fn all_valid_codepoints(code_points: Seq<u32>) -> bool {
    forall|i: int| 0 <= i < code_points.len() ==> valid_codepoint(#[trigger] code_points[i])
}

/// Whether a number is a codepoint that text may hold.
pub fn is_valid_codepoint(code_point: u32) -> (valid: bool)
    ensures
        valid == valid_codepoint(code_point),
{
    code_point <= 0x10FFFF && (code_point < 0xD800 || code_point > 0xDFFF)
}

/// Payload of a two-byte character: five bits of the first byte, six of the
/// second.
pub open spec fn double_value(first: u8, second: u8) -> int {
    (first % 32) * 64 + second % 64
}

/// Payload of a three-byte character: four bits, then six and six.
pub open spec fn triple_value(first: u8, second: u8, third: u8) -> int {
    (first % 16) * 4096 + (second % 64) * 64 + third % 64
}

/// Payload of a four-byte character: three bits, then six, six and six.
pub open spec fn quad_value(first: u8, second: u8, third: u8, fourth: u8) -> int {
    (first % 8) * 262144 + (second % 64) * 4096 + (third % 64) * 64 + fourth % 64
}

/// The value of a two-byte character.
pub fn decode_double(first: u8, second: u8) -> (code_point: u32)
    ensures
        code_point == double_value(first, second),
        code_point <= 0x7FF,
{
    // 110a_aaaa 10bb_bbbb -> 0000_0aaa aabb_bbbb
    let high: u32 = (first % 32) as u32;
    let low: u32 = (second % 64) as u32;
    high * 64 + low
}

/// The value of a three-byte character.
pub fn decode_triple(first: u8, second: u8, third: u8) -> (code_point: u32)
    ensures
        code_point == triple_value(first, second, third),
        code_point <= 0xFFFF,
{
    // 1110_aaaa 10bb_bbbb 10cc_cccc -> aaaa_bbbb bbcc_cccc
    let high: u32 = (first % 16) as u32;
    let middle: u32 = (second % 64) as u32;
    let low: u32 = (third % 64) as u32;
    high * 4096 + middle * 64 + low
}

/// The value of a four-byte character.
pub fn decode_quad(first: u8, second: u8, third: u8, fourth: u8) -> (code_point: u32)
    ensures
        code_point == quad_value(first, second, third, fourth),
        code_point <= 0x1FFFFF,
{
    // 1111_0aaa 10bb_bbbb 10cc_cccc 10dd_dddd -> 000a_aabb bbbb_cccc ccdd_dddd
    let top: u32 = (first % 8) as u32;
    let high: u32 = (second % 64) as u32;
    let middle: u32 = (third % 64) as u32;
    let low: u32 = (fourth % 64) as u32;
    top * 262144 + high * 4096 + middle * 64 + low
}

/// Number of bytes that the shortest UTF-8 form of a codepoint takes.
pub open spec fn encoded_width(code_point: u32) -> int {
    if code_point <= 0x7F {
        1
    } else if code_point <= 0x7FF {
        2
    } else if code_point <= 0xFFFF {
        3
    } else {
        4
    }
}

/// The shortest UTF-8 form of a codepoint up to U+10FFFF.
pub open spec fn encoded(code_point: u32) -> Seq<u8> {
    if code_point <= 0x7F {
        seq![code_point as u8]
    } else if code_point <= 0x7FF {
        seq![(0xC0 + code_point / 64) as u8, (0x80 + code_point % 64) as u8]
    } else if code_point <= 0xFFFF {
        seq![
            (0xE0 + code_point / 4096) as u8,
            (0x80 + (code_point / 64) % 64) as u8,
            (0x80 + code_point % 64) as u8,
        ]
    } else {
        seq![
            (0xF0 + code_point / 262144) as u8,
            (0x80 + (code_point / 4096) % 64) as u8,
            (0x80 + (code_point / 64) % 64) as u8,
            (0x80 + code_point % 64) as u8,
        ]
    }
}

/// Encodes one codepoint in its shortest UTF-8 form.
pub fn encode(code_point: u32) -> (bytes: Vec<u8>)
    requires
        code_point <= 0x10FFFF,
    ensures
        bytes@ == encoded(code_point),
        bytes@.len() == encoded_width(code_point),
{
    let mut bytes: Vec<u8> = Vec::new();
    if code_point <= 0x7F {
        bytes.push(code_point as u8);
    } else if code_point <= 0x7FF {
        // 0000_0aaa aabb_bbbb -> 110a_aaaa 10bb_bbbb
        bytes.push((0xC0 + code_point / 64) as u8);
        bytes.push((0x80 + code_point % 64) as u8);
    } else if code_point <= 0xFFFF {
        // aaaa_bbbb bbcc_cccc -> 1110_aaaa 10bb_bbbb 10cc_cccc
        bytes.push((0xE0 + code_point / 4096) as u8);
        bytes.push((0x80 + (code_point / 64) % 64) as u8);
        bytes.push((0x80 + code_point % 64) as u8);
    } else {
        // 000a_aabb bbbb_cccc ccdd_dddd -> 1111_0aaa 10bb_bbbb 10cc_cccc 10dd_dddd
        bytes.push((0xF0 + code_point / 262144) as u8);
        bytes.push((0x80 + (code_point / 4096) % 64) as u8);
        bytes.push((0x80 + (code_point / 64) % 64) as u8);
        bytes.push((0x80 + code_point % 64) as u8);
    }
    bytes
}

} // verus!
