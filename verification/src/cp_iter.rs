//! Decoding well-formed UTF-8 into codepoints, and encoding codepoints back.

use vstd::prelude::*;
use crate::helpers::{
    all_valid_codepoints, classify, decode_double, decode_quad, decode_triple, double_value, encode, encoded,
    quad_value, triple_value, valid_codepoint, CodeUnit, DecodeErr,
};
use crate::validate::{
    chain, continuation_run, first_error, is_continuation, lemma_append_chain,
    lemma_continuation_run_bounds, lemma_continuation_run_full, lemma_scalar_in_bounds, scalar_at,
    value_at, well_formed,
};

verus! {

/// The codepoint of the character at `pos`.
pub open spec fn codepoint_at(bytes: Seq<u8>, pos: int) -> u32 {
    value_at(bytes, pos, classify(bytes[pos])->Ok_0)
}

/// The codepoints of the characters from `pos` on, as far as they are
/// well-formed.
pub open spec fn decoded(bytes: Seq<u8>, pos: int) -> Seq<u32>
    decreases bytes.len() - pos,
{
    if pos < 0 || pos >= bytes.len() {
        Seq::empty()
    } else {
        match scalar_at(bytes, pos) {
            Ok(n) => if n >= 1 && pos + n <= bytes.len() {
                seq![codepoint_at(bytes, pos)] + decoded(bytes, pos + n)
            } else {
                Seq::empty()
            },
            Err(_) => Seq::empty(),
        }
    }
}

/// The UTF-8 forms of the codepoints, one after another.
pub open spec fn encoded_all(code_points: Seq<u32>) -> Seq<u8>
    decreases code_points.len(),
{
    if code_points.len() == 0 {
        Seq::empty()
    } else {
        encoded_all(code_points.drop_last()) + encoded(code_points.last())
    }
}

/// Encoding goes codepoint by codepoint.
pub proof fn lemma_encoded_all_concat(a: Seq<u32>, b: Seq<u32>)
    ensures
        encoded_all(a + b) == encoded_all(a) + encoded_all(b),
    decreases b.len(),
{
    if b.len() == 0 {
        assert(a + b =~= a);
        assert(encoded_all(a) + encoded_all(b) =~= encoded_all(a));
    } else {
        lemma_encoded_all_concat(a, b.drop_last());
        assert((a + b).drop_last() =~= a + b.drop_last());
        assert((a + b).last() == b.last());
        assert(encoded_all(a + b) =~= encoded_all(a) + encoded_all(b));
    }
}

proof fn lemma_double_round_trip(a: u8, b: u8)
    requires
        0xC0 <= a <= 0xDF,
        is_continuation(b),
        double_value(a, b) >= 0x80,
    ensures
        encoded(double_value(a, b) as u32) == seq![a, b],
{
    let v = double_value(a, b) as u32;
    assert(a % 32 == a - 0xC0);
    assert(b % 64 == b - 0x80);
    assert(v == (a - 0xC0) * 64 + (b - 0x80));
    assert(v / 64 == a - 0xC0);
    assert(v % 64 == b - 0x80);
    assert(encoded(v) =~= seq![a, b]);
}

proof fn lemma_triple_round_trip(a: u8, b: u8, c: u8)
    requires
        0xE0 <= a <= 0xEF,
        is_continuation(b),
        is_continuation(c),
        triple_value(a, b, c) >= 0x800,
    ensures
        encoded(triple_value(a, b, c) as u32) == seq![a, b, c],
{
    let v = triple_value(a, b, c) as u32;
    let x = a - 0xE0;
    let y = b - 0x80;
    let z = c - 0x80;
    assert(a % 16 == x);
    assert(b % 64 == y);
    assert(c % 64 == z);
    assert(v == x * 4096 + y * 64 + z);
    assert(v % 64 == z);
    assert(v / 64 == x * 64 + y);
    assert((v / 64) % 64 == y);
    assert(v / 4096 == x);
    assert(encoded(v) =~= seq![a, b, c]);
}

proof fn lemma_quad_round_trip(a: u8, b: u8, c: u8, d: u8)
    requires
        0xF0 <= a <= 0xF7,
        is_continuation(b),
        is_continuation(c),
        is_continuation(d),
        0x10000 <= quad_value(a, b, c, d) <= 0x10FFFF,
    ensures
        encoded(quad_value(a, b, c, d) as u32) == seq![a, b, c, d],
{
    let v = quad_value(a, b, c, d) as u32;
    let w = a - 0xF0;
    let x = b - 0x80;
    let y = c - 0x80;
    let z = d - 0x80;
    assert(a % 8 == w);
    assert(b % 64 == x);
    assert(c % 64 == y);
    assert(d % 64 == z);
    assert(v == w * 262144 + x * 4096 + y * 64 + z);
    assert(v % 64 == z);
    assert(v / 64 == w * 4096 + x * 64 + y);
    assert((v / 64) % 64 == y);
    assert(v / 4096 == w * 64 + x);
    assert((v / 4096) % 64 == x);
    assert(v / 262144 == w);
    assert(encoded(v) =~= seq![a, b, c, d]);
}

/// The shortest form of a well-formed character's codepoint is the
/// character itself, and the codepoint is valid.
pub proof fn lemma_encoded_codepoint(bytes: Seq<u8>, pos: int)
    requires
        0 <= pos < bytes.len(),
        scalar_at(bytes, pos) is Ok,
    ensures
        valid_codepoint(codepoint_at(bytes, pos)),
        encoded(codepoint_at(bytes, pos)) == bytes.subrange(
            pos,
            pos + scalar_at(bytes, pos)->Ok_0,
        ),
{
    let unit = classify(bytes[pos])->Ok_0;
    let w = unit.width();
    lemma_scalar_in_bounds(bytes, pos);
    lemma_continuation_run_bounds(bytes, pos + 1, w - 1);
    lemma_continuation_run_full(bytes, pos + 1, w - 1);
    let piece = bytes.subrange(pos, pos + w);
    match unit {
        CodeUnit::SingleByte => {
            assert(encoded(codepoint_at(bytes, pos)) =~= piece);
        },
        CodeUnit::DoublePrefix => {
            assert(is_continuation(bytes[pos + 1]));
            lemma_double_round_trip(bytes[pos], bytes[pos + 1]);
            assert(seq![bytes[pos], bytes[pos + 1]] =~= piece);
        },
        CodeUnit::TriplePrefix => {
            assert(is_continuation(bytes[pos + 1]));
            assert(is_continuation(bytes[pos + 2]));
            lemma_triple_round_trip(bytes[pos], bytes[pos + 1], bytes[pos + 2]);
            assert(seq![bytes[pos], bytes[pos + 1], bytes[pos + 2]] =~= piece);
        },
        CodeUnit::QuadPrefix => {
            assert(is_continuation(bytes[pos + 1]));
            assert(is_continuation(bytes[pos + 2]));
            assert(is_continuation(bytes[pos + 3]));
            lemma_quad_round_trip(bytes[pos], bytes[pos + 1], bytes[pos + 2], bytes[pos + 3]);
            assert(seq![bytes[pos], bytes[pos + 1], bytes[pos + 2], bytes[pos + 3]] =~= piece);
        },
        CodeUnit::Continuation => {},
    }
}

/// Decoding well-formed bytes and encoding the codepoints again gives the
/// bytes back.
pub proof fn lemma_decode_encode_from(bytes: Seq<u8>, pos: int)
    requires
        0 <= pos <= bytes.len(),
        first_error(bytes, pos) is None,
    ensures
        encoded_all(decoded(bytes, pos)) == bytes.subrange(pos, bytes.len() as int),
        all_valid_codepoints(decoded(bytes, pos)),
    decreases bytes.len() - pos,
{
    if pos >= bytes.len() {
        assert(bytes.subrange(pos, bytes.len() as int) =~= Seq::<u8>::empty());
    } else {
        let n = scalar_at(bytes, pos)->Ok_0;
        lemma_scalar_in_bounds(bytes, pos);
        lemma_decode_encode_from(bytes, pos + n);
        lemma_encoded_codepoint(bytes, pos);
        let head = seq![codepoint_at(bytes, pos)];
        lemma_encoded_all_concat(head, decoded(bytes, pos + n));
        assert(head.drop_last() =~= Seq::<u32>::empty());
        assert(encoded_all(head.drop_last()) =~= Seq::<u8>::empty());
        assert(head.last() == codepoint_at(bytes, pos));
        assert(encoded_all(head) =~= encoded(codepoint_at(bytes, pos)));
        assert(bytes.subrange(pos, pos + n) + bytes.subrange(pos + n, bytes.len() as int)
            =~= bytes.subrange(pos, bytes.len() as int));
    }
}

/// For every well-formed byte sequence, encoding what it decodes to gives
/// the same bytes.
pub proof fn lemma_decode_encode(bytes: Seq<u8>)
    requires
        well_formed(bytes),
    ensures
        encoded_all(decoded(bytes, 0)) == bytes,
{
    lemma_decode_encode_from(bytes, 0);
    assert(bytes.subrange(0, bytes.len() as int) =~= bytes);
}

/// The shortest form of a valid codepoint is one well-formed character.
pub proof fn lemma_encoded_is_character(code_point: u32)
    requires
        valid_codepoint(code_point),
    ensures
        chain(encoded(code_point), 0, encoded(code_point).len() as int),
{
    let bytes = encoded(code_point);
    reveal_with_fuel(continuation_run, 4);
    if code_point <= 0x7F {
        assert(bytes[0] == code_point);
        assert(scalar_at(bytes, 0) == Ok::<int, DecodeErr>(1));
    } else if code_point <= 0x7FF {
        let first = (0xC0 + code_point / 64) as u8;
        let second = (0x80 + code_point % 64) as u8;
        assert(bytes[0] == first && bytes[1] == second);
        assert(0xC2 <= first <= 0xDF);
        assert(is_continuation(second));
        assert(first % 32 == code_point / 64);
        assert(second % 64 == code_point % 64);
        assert(double_value(first, second) == code_point);
        assert(continuation_run(bytes, 1, 1) == 1);
        assert(scalar_at(bytes, 0) == Ok::<int, DecodeErr>(2));
    } else if code_point <= 0xFFFF {
        let first = (0xE0 + code_point / 4096) as u8;
        let second = (0x80 + (code_point / 64) % 64) as u8;
        let third = (0x80 + code_point % 64) as u8;
        assert(bytes[0] == first && bytes[1] == second && bytes[2] == third);
        assert(0xE0 <= first <= 0xEF);
        assert(is_continuation(second) && is_continuation(third));
        assert(first % 16 == code_point / 4096);
        assert(second % 64 == (code_point / 64) % 64);
        assert(third % 64 == code_point % 64);
        assert(triple_value(first, second, third) == code_point);
        assert(continuation_run(bytes, 1, 2) == 2);
        assert(scalar_at(bytes, 0) == Ok::<int, DecodeErr>(3));
    } else {
        let first = (0xF0 + code_point / 262144) as u8;
        let second = (0x80 + (code_point / 4096) % 64) as u8;
        let third = (0x80 + (code_point / 64) % 64) as u8;
        let fourth = (0x80 + code_point % 64) as u8;
        assert(bytes[0] == first && bytes[1] == second && bytes[2] == third && bytes[3]
            == fourth);
        assert(0xF0 <= first <= 0xF4);
        assert(is_continuation(second) && is_continuation(third) && is_continuation(fourth));
        assert(first % 8 == code_point / 262144);
        assert(second % 64 == (code_point / 4096) % 64);
        assert(third % 64 == (code_point / 64) % 64);
        assert(fourth % 64 == code_point % 64);
        assert(quad_value(first, second, third, fourth) == code_point);
        assert(continuation_run(bytes, 1, 3) == 3);
        assert(scalar_at(bytes, 0) == Ok::<int, DecodeErr>(4));
    }
    assert(chain(bytes, bytes.len() as int, bytes.len() as int));
}

/// Valid codepoints encode to well-formed UTF-8.
pub proof fn lemma_encoded_all_well_formed(code_points: Seq<u32>)
    requires
        all_valid_codepoints(code_points),
    ensures
        well_formed(encoded_all(code_points)),
    decreases code_points.len(),
{
    if code_points.len() > 0 {
        let front = code_points.drop_last();
        assert forall|i: int| 0 <= i < front.len() implies valid_codepoint(
            #[trigger] front[i],
        ) by {
            assert(front[i] == code_points[i]);
        }
        lemma_encoded_all_well_formed(front);
        assert(valid_codepoint(code_points[code_points.len() - 1]));
        let last = encoded(code_points.last());
        lemma_encoded_is_character(code_points.last());
        lemma_append_chain(encoded_all(front), last, 0, last.len() as int);
        assert(last.subrange(0, last.len() as int) =~= last);
    }
}

/// A cursor over the codepoints of a well-formed UTF-8 byte sequence.
pub struct CodePointIter {
    bytes: Vec<u8>,
    pos: usize,
}

impl CodePointIter {
    #[verifier::type_invariant]
    spec fn inv(self) -> bool {
        self.pos <= self.bytes@.len() && first_error(self.bytes@, self.pos as int) is None
    }

    /// The codepoints not yet handed out.
    pub closed spec fn remaining(self) -> Seq<u32> {
        decoded(self.bytes@, self.pos as int)
    }

    /// Starts at the first character of `bytes`, which must be well-formed.
    pub fn new(bytes: Vec<u8>) -> (iter: Self)
        requires
            well_formed(bytes@),
        ensures
            iter.remaining() == decoded(bytes@, 0),
    {
        CodePointIter { bytes, pos: 0 }
    }

    /// Hands out the next codepoint, or `None` at the end.
    pub fn next(&mut self) -> (item: Option<u32>)
        ensures
            match item {
                Some(code_point) => old(self).remaining() == seq![code_point]
                    + final(self).remaining() && valid_codepoint(code_point),
                None => old(self).remaining().len() == 0 && final(self).remaining().len() == 0,
            },
    {
        proof {
            use_type_invariant(&*self);
        }
        if self.pos >= self.bytes.len() {
            None
        } else {
            proof {
                lemma_scalar_in_bounds(self.bytes@, self.pos as int);
                lemma_encoded_codepoint(self.bytes@, self.pos as int);
                let unit = classify(self.bytes@[self.pos as int])->Ok_0;
                lemma_continuation_run_bounds(self.bytes@, self.pos + 1, unit.width() - 1);
                lemma_continuation_run_full(self.bytes@, self.pos + 1, unit.width() - 1);
            }
            let first = self.bytes[self.pos];
            if first <= 0x7F {
                self.pos += 1;
                Some(first as u32)
            } else if first <= 0xDF {
                let code_point = decode_double(first, self.bytes[self.pos + 1]);
                self.pos += 2;
                Some(code_point)
            } else if first <= 0xEF {
                let code_point = decode_triple(
                    first,
                    self.bytes[self.pos + 1],
                    self.bytes[self.pos + 2],
                );
                self.pos += 3;
                Some(code_point)
            } else {
                let code_point = decode_quad(
                    first,
                    self.bytes[self.pos + 1],
                    self.bytes[self.pos + 2],
                    self.bytes[self.pos + 3],
                );
                self.pos += 4;
                Some(code_point)
            }
        }
    }
}

/// Decodes a well-formed UTF-8 byte sequence into its codepoints.
pub fn decode(bytes: Vec<u8>) -> (code_points: Vec<u32>)
    requires
        well_formed(bytes@),
    ensures
        code_points@ == decoded(bytes@, 0),
        all_valid_codepoints(code_points@),
{
    let mut iter = CodePointIter::new(bytes);
    let mut code_points: Vec<u32> = Vec::new();
    assert(code_points@ + iter.remaining() =~= decoded(bytes@, 0));
    loop
        invariant
            code_points@ + iter.remaining() == decoded(bytes@, 0),
            all_valid_codepoints(code_points@),
        ensures
            code_points@ == decoded(bytes@, 0),
            all_valid_codepoints(code_points@),
        decreases iter.remaining().len(),
    {
        match iter.next() {
            Some(code_point) => {
                code_points.push(code_point);
                assert(code_points@ + iter.remaining() =~= decoded(bytes@, 0));
            },
            None => {
                assert(code_points@ + iter.remaining() =~= code_points@);
                break ;
            },
        }
    }
    code_points
}

/// Encodes codepoints as UTF-8, each in its shortest form.
pub fn encode_utf8(code_points: &Vec<u32>) -> (bytes: Vec<u8>)
    requires
        forall|i: int| 0 <= i < code_points@.len() ==> #[trigger] code_points@[i] <= 0x10FFFF,
    ensures
        bytes@ == encoded_all(code_points@),
        all_valid_codepoints(code_points@) ==> well_formed(bytes@),
{
    proof {
        if all_valid_codepoints(code_points@) {
            lemma_encoded_all_well_formed(code_points@);
        }
    }
    let mut bytes: Vec<u8> = Vec::new();
    let mut i: usize = 0;
    while i < code_points.len()
        invariant
            i <= code_points.len(),
            forall|i: int| 0 <= i < code_points@.len() ==> #[trigger] code_points@[i] <= 0x10FFFF,
            bytes@ == encoded_all(code_points@.take(i as int)),
        decreases code_points.len() - i,
    {
        let mut piece = encode(code_points[i]);
        bytes.append(&mut piece);
        i += 1;
        proof {
            let upto = code_points@.take(i as int);
            assert(upto.drop_last() =~= code_points@.take(i - 1));
            assert(upto.last() == code_points@[i - 1]);
        }
    }
    assert(code_points@.take(i as int) =~= code_points@);
    bytes
}

} // verus!
