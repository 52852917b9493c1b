use vstd::prelude::*;

use crate::error::UtfError;
use crate::source::{get_next_byte, ByteSource};

verus! {

/// How many bytes the encoded code point occupies, derived from the lead
/// byte's high bits alone.
#[derive(Copy, Clone, Debug, PartialEq, Eq, Structural)]
pub enum SeqLen {
    One,
    Two,
    Three,
    Four,
}

/// A continuation byte matches the bit pattern `10xxxxxx`.
pub open spec fn is_trail_byte(b: u8) -> bool {
    0x80 <= b < 0xC0
}

/// Values reserved for UTF-16 surrogate pairs, never valid standalone.
pub open spec fn is_surrogate(cp: int) -> bool {
    0xD800 <= cp <= 0xDFFF
}

/// A Unicode scalar value: at most U+10FFFF and not a surrogate.
pub open spec fn is_scalar_value(cp: int) -> bool {
    0 <= cp <= 0x10FFFF && !is_surrogate(cp)
}

/// Classification of a lead byte: the four valid lead shapes, or the
/// offending byte when none matches.
pub open spec fn classify_spec(lead: u8) -> Result<SeqLen, UtfError> {
    if lead < 0x80 {
        Ok(SeqLen::One)
    } else if 0xC0 <= lead < 0xE0 {
        Ok(SeqLen::Two)
    } else if 0xE0 <= lead < 0xF0 {
        Ok(SeqLen::Three)
    } else if 0xF0 <= lead < 0xF8 {
        Ok(SeqLen::Four)
    } else {
        Err(UtfError::InvalidLead(lead))
    }
}

/// The minimal number of bytes that can encode a code point of this
/// magnitude.
pub open spec fn min_seq_len(cp: int) -> int {
    if cp < 0x80 {
        1
    } else if cp < 0x800 {
        2
    } else if cp < 0x10000 {
        3
    } else {
        4
    }
}

/// A decoded value whose magnitude admits a shorter encoding than the
/// sequence that carried it.
pub open spec fn overlong_spec(cp: int, length: SeqLen) -> bool {
    if cp < 0x80 {
        length != SeqLen::One
    } else if cp < 0x800 {
        length != SeqLen::Two
    } else if cp < 0x10000 {
        length != SeqLen::Three
    } else {
        false
    }
}

/// Value assembled from a two-byte sequence: the lead contributes its low
/// five bits, the continuation byte its low six.
pub open spec fn acc2(lead: u8, b1: u8) -> int {
    (lead as int % 0x20) * 0x40 + (b1 as int % 0x40)
}

/// Partial value of a three-byte sequence after the first continuation
/// byte.
pub open spec fn acc3_partial(lead: u8, b1: u8) -> int {
    (lead as int % 0x10) * 0x1000 + (b1 as int % 0x40) * 0x40
}

/// Value assembled from a three-byte sequence.
pub open spec fn acc3(lead: u8, b1: u8, b2: u8) -> int {
    acc3_partial(lead, b1) + (b2 as int % 0x40)
}

/// Partial value of a four-byte sequence after the first continuation
/// byte.
pub open spec fn acc4_partial1(lead: u8, b1: u8) -> int {
    (lead as int % 0x08) * 0x40000 + (b1 as int % 0x40) * 0x1000
}

/// Partial value of a four-byte sequence after the second continuation
/// byte.
pub open spec fn acc4_partial2(lead: u8, b1: u8, b2: u8) -> int {
    acc4_partial1(lead, b1) + (b2 as int % 0x40) * 0x40
}

/// Value assembled from a four-byte sequence.
pub open spec fn acc4(lead: u8, b1: u8, b2: u8, b3: u8) -> int {
    acc4_partial2(lead, b1, b2) + (b3 as int % 0x40)
}

/// Raw extraction of a one-byte sequence: the value and how many bytes it
/// consumes.
pub open spec fn decode1(s: Seq<u8>) -> (Result<u32, UtfError>, int) {
    if s.len() == 0 {
        (Err(UtfError::NotEnoughRoom), 0)
    } else {
        (Ok(s[0] as u32), 1)
    }
}

/// Raw extraction of a two-byte sequence. The failing continuation byte,
/// where there is one, is consumed before decoding stops.
pub open spec fn decode2(s: Seq<u8>) -> (Result<u32, UtfError>, int) {
    if s.len() == 0 {
        (Err(UtfError::NotEnoughRoom), 0)
    } else if s.len() == 1 {
        (Err(UtfError::NotEnoughRoom), 1)
    } else if !is_trail_byte(s[1]) {
        (Err(UtfError::IncompleteSequence(s[0] as u32)), 2)
    } else {
        (Ok(acc2(s[0], s[1]) as u32), 2)
    }
}

/// Raw extraction of a three-byte sequence, failing fast on the first
/// missing or malformed continuation byte.
pub open spec fn decode3(s: Seq<u8>) -> (Result<u32, UtfError>, int) {
    if s.len() == 0 {
        (Err(UtfError::NotEnoughRoom), 0)
    } else if s.len() == 1 {
        (Err(UtfError::NotEnoughRoom), 1)
    } else if !is_trail_byte(s[1]) {
        (Err(UtfError::IncompleteSequence(s[0] as u32)), 2)
    } else if s.len() == 2 {
        (Err(UtfError::NotEnoughRoom), 2)
    } else if !is_trail_byte(s[2]) {
        (Err(UtfError::IncompleteSequence(acc3_partial(s[0], s[1]) as u32)), 3)
    } else {
        (Ok(acc3(s[0], s[1], s[2]) as u32), 3)
    }
}

/// Raw extraction of a four-byte sequence, failing fast on the first
/// missing or malformed continuation byte.
pub open spec fn decode4(s: Seq<u8>) -> (Result<u32, UtfError>, int) {
    if s.len() == 0 {
        (Err(UtfError::NotEnoughRoom), 0)
    } else if s.len() == 1 {
        (Err(UtfError::NotEnoughRoom), 1)
    } else if !is_trail_byte(s[1]) {
        (Err(UtfError::IncompleteSequence(s[0] as u32)), 2)
    } else if s.len() == 2 {
        (Err(UtfError::NotEnoughRoom), 2)
    } else if !is_trail_byte(s[2]) {
        (Err(UtfError::IncompleteSequence(acc4_partial1(s[0], s[1]) as u32)), 3)
    } else if s.len() == 3 {
        (Err(UtfError::NotEnoughRoom), 3)
    } else if !is_trail_byte(s[3]) {
        (Err(UtfError::IncompleteSequence(acc4_partial2(s[0], s[1], s[2]) as u32)), 4)
    } else {
        (Ok(acc4(s[0], s[1], s[2], s[3]) as u32), 4)
    }
}

/// Extraction for an already-classified length.
pub open spec fn extract(length: SeqLen, s: Seq<u8>) -> (Result<u32, UtfError>, int) {
    match length {
        SeqLen::One => decode1(s),
        SeqLen::Two => decode2(s),
        SeqLen::Three => decode3(s),
        SeqLen::Four => decode4(s),
    }
}

/// The checks that run only after a full sequence was extracted: range
/// and surrogate first, then overlong encoding.
pub open spec fn check_code_point(cp: u32, length: SeqLen) -> Result<u32, UtfError> {
    if !is_scalar_value(cp as int) {
        Err(UtfError::InvalidCodePoint(cp))
    } else if overlong_spec(cp as int, length) {
        Err(UtfError::OverlongSequence(cp))
    } else {
        Ok(cp)
    }
}

/// What one validation step returns on a byte sequence, and how many
/// bytes it consumes. On an empty source or an invalid lead nothing is
/// consumed; a failed multi-byte sequence may be consumed partially.
pub open spec fn decode_next(s: Seq<u8>) -> (Result<u32, UtfError>, int) {
    if s.len() == 0 {
        (Err(UtfError::NotEnoughRoom), 0)
    } else {
        match classify_spec(s[0]) {
            Err(e) => (Err(e), 0),
            Ok(length) => {
                let (res, used) = extract(length, s);
                match res {
                    Ok(cp) => (check_code_point(cp, length), used),
                    Err(e) => (Err(e), used),
                }
            },
        }
    }
}

/// The minimal UTF-8 encoding of a code point.
pub open spec fn encode_utf8(cp: int) -> Seq<u8>
    recommends
        is_scalar_value(cp),
{
    if cp < 0x80 {
        seq![cp as u8]
    } else if cp < 0x800 {
        seq![(0xC0 + cp / 0x40) as u8, (0x80 + cp % 0x40) as u8]
    } else if cp < 0x10000 {
        seq![
            (0xE0 + cp / 0x1000) as u8,
            (0x80 + (cp / 0x40) % 0x40) as u8,
            (0x80 + cp % 0x40) as u8,
        ]
    } else {
        seq![
            (0xF0 + cp / 0x40000) as u8,
            (0x80 + (cp / 0x1000) % 0x40) as u8,
            (0x80 + (cp / 0x40) % 0x40) as u8,
            (0x80 + cp % 0x40) as u8,
        ]
    }
}

/// Classify a lead byte by its high bits: how many bytes the sequence it
/// starts should occupy, or the invalid lead itself. Pure; consumes
/// nothing from any source.
pub fn sequence_length(lead_byte: u8) -> (r: Result<SeqLen, UtfError>)
    ensures
        r == classify_spec(lead_byte),
{
    proof {
        assert((lead_byte >> 5) == 0x6 <==> (0xC0 <= lead_byte && lead_byte < 0xE0))
            by (bit_vector);
        assert((lead_byte >> 4) == 0xE <==> (0xE0 <= lead_byte && lead_byte < 0xF0))
            by (bit_vector);
        assert((lead_byte >> 3) == 0x1E <==> (0xF0 <= lead_byte && lead_byte < 0xF8))
            by (bit_vector);
    }
    if lead_byte < 0x80 {
        Ok(SeqLen::One)
    } else if (lead_byte >> 5) == 0x6 {
        Ok(SeqLen::Two)
    } else if (lead_byte >> 4) == 0xE {
        Ok(SeqLen::Three)
    } else if (lead_byte >> 3) == 0x1E {
        Ok(SeqLen::Four)
    } else {
        Err(UtfError::InvalidLead(lead_byte))
    }
}

/// Is this byte a valid continuation byte (`10xxxxxx`)?
pub fn is_trail(byte: u8) -> (r: bool)
    ensures
        r == is_trail_byte(byte),
{
    proof {
        assert((byte >> 6) == 0x2 <==> (0x80 <= byte && byte < 0xC0)) by (bit_vector);
    }
    (byte >> 6) == 0x2
}

/// Is this value a Unicode scalar value (in range and not a surrogate)?
pub fn is_code_point_valid(cp: u32) -> (r: bool)
    ensures
        r == is_scalar_value(cp as int),
{
    cp <= 0x10FFFF && !(cp >= 0xD800 && cp <= 0xDFFF)
}

/// Did the decoded value use more bytes than its magnitude requires?
pub fn is_overlong_sequence(cp: u32, length: SeqLen) -> (r: bool)
    ensures
        r == overlong_spec(cp as int, length),
{
    if cp < 0x80 {
        if length != SeqLen::One {
            return true;
        }
    } else if cp < 0x800 {
        if length != SeqLen::Two {
            return true;
        }
    } else if cp < 0x10000 {
        if length != SeqLen::Three {
            return true;
        }
    }
    false
}

/// Extract a one-byte sequence: the code point is the byte itself.
pub fn get_sequence_1(it: &mut ByteSource<'_>) -> (r: Result<u32, UtfError>)
    ensures
        r == decode1(old(it).remaining()).0,
        final(it).remaining() == old(it).remaining().skip(decode1(old(it).remaining()).1),
{
    proof {
        assert(old(it).remaining().skip(0) =~= old(it).remaining());
    }
    match get_next_byte(it) {
        Ok(b) => Ok(b as u32),
        Err(e) => Err(e),
    }
}

/// Extract a two-byte sequence: consume the lead and one continuation
/// byte, assembling the value from their payload bits.
pub fn get_sequence_2(it: &mut ByteSource<'_>) -> (r: Result<u32, UtfError>)
    ensures
        r == decode2(old(it).remaining()).0,
        final(it).remaining() == old(it).remaining().skip(decode2(old(it).remaining()).1),
{
    let ghost s = old(it).remaining();
    proof {
        assert(s.skip(0) =~= s);
        if s.len() >= 2 {
            assert(s.skip(1).skip(1) =~= s.skip(2));
        }
    }
    let code_point = match get_sequence_1(it) {
        Ok(v) => v,
        Err(e) => {
            return Err(e);
        },
    };
    let b1 = match get_next_byte(it) {
        Ok(v) => v,
        Err(e) => {
            return Err(e);
        },
    };
    if !is_trail(b1) {
        return Err(UtfError::IncompleteSequence(code_point));
    }
    proof {
        assert(((code_point << 6) & 0x7FF) == (code_point % 0x20) * 0x40) by (bit_vector);
        assert(((b1 & 0x3F) as u32) == (b1 as u32) % 0x40) by (bit_vector);
    }
    let code_point = ((code_point << 6) & 0x7FF) + ((b1 & 0x3F) as u32);
    Ok(code_point)
}

/// Extract a three-byte sequence, failing fast on the first missing or
/// malformed continuation byte.
pub fn get_sequence_3(it: &mut ByteSource<'_>) -> (r: Result<u32, UtfError>)
    ensures
        r == decode3(old(it).remaining()).0,
        final(it).remaining() == old(it).remaining().skip(decode3(old(it).remaining()).1),
{
    let ghost s = old(it).remaining();
    proof {
        assert(s.skip(0) =~= s);
        if s.len() >= 2 {
            assert(s.skip(1).skip(1) =~= s.skip(2));
        }
        if s.len() >= 3 {
            assert(s.skip(2).skip(1) =~= s.skip(3));
        }
    }
    let code_point = match get_sequence_1(it) {
        Ok(v) => v,
        Err(e) => {
            return Err(e);
        },
    };
    let b1 = match get_next_byte(it) {
        Ok(v) => v,
        Err(e) => {
            return Err(e);
        },
    };
    if !is_trail(b1) {
        return Err(UtfError::IncompleteSequence(code_point));
    }
    proof {
        assert(((code_point << 12) & 0xFFFF) == (code_point % 0x10) * 0x1000) by (bit_vector);
        assert((((b1 as u32) << 6) & 0xFFF) == ((b1 as u32) % 0x40) * 0x40) by (bit_vector);
    }
    let code_point = ((code_point << 12) & 0xFFFF) + (((b1 as u32) << 6) & 0xFFF);
    let b2 = match get_next_byte(it) {
        Ok(v) => v,
        Err(e) => {
            return Err(e);
        },
    };
    if !is_trail(b2) {
        return Err(UtfError::IncompleteSequence(code_point));
    }
    proof {
        assert(((b2 & 0x3F) as u32) == (b2 as u32) % 0x40) by (bit_vector);
    }
    let code_point = code_point + ((b2 & 0x3F) as u32);
    Ok(code_point)
}

/// Extract a four-byte sequence, failing fast on the first missing or
/// malformed continuation byte.
pub fn get_sequence_4(it: &mut ByteSource<'_>) -> (r: Result<u32, UtfError>)
    ensures
        r == decode4(old(it).remaining()).0,
        final(it).remaining() == old(it).remaining().skip(decode4(old(it).remaining()).1),
{
    let ghost s = old(it).remaining();
    proof {
        assert(s.skip(0) =~= s);
        if s.len() >= 2 {
            assert(s.skip(1).skip(1) =~= s.skip(2));
        }
        if s.len() >= 3 {
            assert(s.skip(2).skip(1) =~= s.skip(3));
        }
        if s.len() >= 4 {
            assert(s.skip(3).skip(1) =~= s.skip(4));
        }
    }
    let code_point = match get_sequence_1(it) {
        Ok(v) => v,
        Err(e) => {
            return Err(e);
        },
    };
    let b1 = match get_next_byte(it) {
        Ok(v) => v,
        Err(e) => {
            return Err(e);
        },
    };
    if !is_trail(b1) {
        return Err(UtfError::IncompleteSequence(code_point));
    }
    proof {
        assert(((code_point << 18) & 0x1FFFFF) == (code_point % 0x08) * 0x40000) by (bit_vector);
        assert((((b1 as u32) << 12) & 0x3FFFF) == ((b1 as u32) % 0x40) * 0x1000) by (bit_vector);
    }
    let code_point = ((code_point << 18) & 0x1FFFFF) + (((b1 as u32) << 12) & 0x3FFFF);
    let b2 = match get_next_byte(it) {
        Ok(v) => v,
        Err(e) => {
            return Err(e);
        },
    };
    if !is_trail(b2) {
        return Err(UtfError::IncompleteSequence(code_point));
    }
    proof {
        assert((((b2 as u32) << 6) & 0xFFF) == ((b2 as u32) % 0x40) * 0x40) by (bit_vector);
    }
    let code_point = code_point + (((b2 as u32) << 6) & 0xFFF);
    let b3 = match get_next_byte(it) {
        Ok(v) => v,
        Err(e) => {
            return Err(e);
        },
    };
    if !is_trail(b3) {
        return Err(UtfError::IncompleteSequence(code_point));
    }
    proof {
        assert(((b3 & 0x3F) as u32) == (b3 as u32) % 0x40) by (bit_vector);
    }
    let code_point = code_point + ((b3 & 0x3F) as u32);
    Ok(code_point)
}

/// Validate the next code point from the source.
///
/// Peeks the lead byte to classify the sequence; only once a valid
/// length is known does consumption begin. The extracted value then
/// passes the range, surrogate and overlong checks. A source that is
/// empty at the first peek reports `NotEnoughRoom`: that is end of
/// input, not malformation, since no lead byte could be classified. On
/// an exhausted source or an invalid lead the cursor does not advance;
/// a failed multi-byte sequence leaves it after the last byte read.
pub fn validate_next(it: &mut ByteSource<'_>) -> (r: Result<u32, UtfError>)
    ensures
        r == decode_next(old(it).remaining()).0,
        final(it).remaining() == old(it).remaining().skip(decode_next(old(it).remaining()).1),
{
    let ghost s = old(it).remaining();
    proof {
        assert(s.skip(0) =~= s);
    }
    let lead = match it.peek() {
        Some(b) => b,
        None => {
            return Err(UtfError::NotEnoughRoom);
        },
    };
    let length = match sequence_length(lead) {
        Ok(l) => l,
        Err(e) => {
            return Err(e);
        },
    };
    let extracted = match length {
        SeqLen::One => get_sequence_1(it),
        SeqLen::Two => get_sequence_2(it),
        SeqLen::Three => get_sequence_3(it),
        SeqLen::Four => get_sequence_4(it),
    };
    let code_point = match extracted {
        Ok(cp) => cp,
        Err(e) => {
            return Err(e);
        },
    };
    if !is_code_point_valid(code_point) {
        return Err(UtfError::InvalidCodePoint(code_point));
    }
    if is_overlong_sequence(code_point, length) {
        return Err(UtfError::OverlongSequence(code_point));
    }
    Ok(code_point)
}

/// Classification is a function of the lead byte alone: any two results
/// that satisfy the classifier's contract on the same byte are equal, so
/// classifying twice without consuming always produces the same length.
pub proof fn lemma_classification_deterministic(
    lead: u8,
    r1: Result<SeqLen, UtfError>,
    r2: Result<SeqLen, UtfError>,
)
    requires
        r1 == classify_spec(lead),
        r2 == classify_spec(lead),
    ensures
        r1 == r2,
{
}

/// A validation step consumes at most four bytes, and never more than
/// the source still holds.
pub proof fn lemma_bounded_consumption(s: Seq<u8>)
    ensures
        0 <= decode_next(s).1 <= 4,
        decode_next(s).1 <= s.len(),
{
}

/// Every three-byte sequence that decodes to a surrogate value is
/// rejected as an invalid code point, carrying that value.
pub proof fn lemma_surrogate_rejected(s: Seq<u8>)
    requires
        s.len() >= 3,
        classify_spec(s[0]) == Ok::<SeqLen, UtfError>(SeqLen::Three),
        is_trail_byte(s[1]),
        is_trail_byte(s[2]),
        is_surrogate(acc3(s[0], s[1], s[2])),
    ensures
        decode_next(s).0 == Err::<u32, UtfError>(
            UtfError::InvalidCodePoint(acc3(s[0], s[1], s[2]) as u32),
        ),
        decode_next(s).1 == 3,
{
    assert(0 <= acc3(s[0], s[1], s[2]) < 0x10000);
}

/// A value the validator accepts is always a Unicode scalar value, and
/// the sequence that carried it was the minimal one for its magnitude.
pub proof fn lemma_success_is_scalar(s: Seq<u8>, cp: u32)
    requires
        decode_next(s).0 == Ok::<u32, UtfError>(cp),
    ensures
        is_scalar_value(cp as int),
        decode_next(s).1 == min_seq_len(cp as int),
{
    match classify_spec(s[0]) {
        Ok(SeqLen::Two) => {
            assert(acc2(s[0], s[1]) < 0x800);
        },
        Ok(SeqLen::Three) => {
            assert(acc3(s[0], s[1], s[2]) < 0x10000);
        },
        Ok(SeqLen::Four) => {
            assert(acc4(s[0], s[1], s[2], s[3]) < 0x200000);
        },
        _ => {},
    }
}

/// Round trip: the minimal encoding of any Unicode scalar value decodes
/// back to the identical value, consuming exactly the encoding's length,
/// whatever bytes follow it in the source.
pub proof fn lemma_round_trip(cp: u32, rest: Seq<u8>)
    requires
        is_scalar_value(cp as int),
    ensures
        encode_utf8(cp as int).len() == min_seq_len(cp as int),
        decode_next(encode_utf8(cp as int) + rest).0 == Ok::<u32, UtfError>(cp),
        decode_next(encode_utf8(cp as int) + rest).1 == encode_utf8(cp as int).len(),
{
    let c: int = cp as int;
    let enc = encode_utf8(c);
    let s = enc + rest;
    if c < 0x80 {
        assert(s[0] == enc[0]);
        assert(s[0] as u32 == cp);
    } else if c < 0x800 {
        assert(2 <= cp / 0x40 && cp / 0x40 < 0x20 && (0xC0 + cp / 0x40) % 0x20 == cp / 0x40
            && (0x80 + cp % 0x40) % 0x40 == cp % 0x40 && (cp / 0x40) * 0x40 + cp % 0x40 == cp)
            by (bit_vector)
            requires
                0x80 <= cp && cp < 0x800,
        ;
        assert(s[0] == enc[0] && s[1] == enc[1]);
        assert(enc[0] as int == 0xC0 + c / 0x40);
        assert(enc[1] as int == 0x80 + c % 0x40);
        assert(acc2(enc[0], enc[1]) == c);
    } else if c < 0x10000 {
        assert(cp / 0x1000 < 0x10 && (0xE0 + cp / 0x1000) % 0x10 == cp / 0x1000 && (0x80 + (cp
            / 0x40) % 0x40) % 0x40 == (cp / 0x40) % 0x40 && (0x80 + cp % 0x40) % 0x40 == cp % 0x40
            && (cp / 0x1000) * 0x1000 + ((cp / 0x40) % 0x40) * 0x40 + cp % 0x40 == cp)
            by (bit_vector)
            requires
                0x800 <= cp && cp < 0x10000,
        ;
        assert(s[0] == enc[0] && s[1] == enc[1] && s[2] == enc[2]);
        assert(enc[0] as int == 0xE0 + c / 0x1000);
        assert(enc[1] as int == 0x80 + (c / 0x40) % 0x40);
        assert(enc[2] as int == 0x80 + c % 0x40);
        assert(acc3(enc[0], enc[1], enc[2]) == c);
    } else {
        assert(cp / 0x40000 < 0x08 && (0xF0 + cp / 0x40000) % 0x08 == cp / 0x40000 && (0x80 + (cp
            / 0x1000) % 0x40) % 0x40 == (cp / 0x1000) % 0x40 && (0x80 + (cp / 0x40) % 0x40) % 0x40
            == (cp / 0x40) % 0x40 && (0x80 + cp % 0x40) % 0x40 == cp % 0x40 && (cp / 0x40000)
            * 0x40000 + ((cp / 0x1000) % 0x40) * 0x1000 + ((cp / 0x40) % 0x40) * 0x40 + cp % 0x40
            == cp) by (bit_vector)
            requires
                0x10000 <= cp && cp <= 0x10FFFF,
        ;
        assert(s[0] == enc[0] && s[1] == enc[1] && s[2] == enc[2] && s[3] == enc[3]);
        assert(enc[0] as int == 0xF0 + c / 0x40000);
        assert(enc[1] as int == 0x80 + (c / 0x1000) % 0x40);
        assert(enc[2] as int == 0x80 + (c / 0x40) % 0x40);
        assert(enc[3] as int == 0x80 + c % 0x40);
        assert(acc4(enc[0], enc[1], enc[2], enc[3]) == c);
    }
}

} // verus!
