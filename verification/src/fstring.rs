//! The length-prefixed string: single-byte text with a positive prefix,
//! UTF-16 text with a negative one.
use vstd::prelude::*;
use vstd::utf8::{decode_utf8, encode_utf8, is_ascii_chars, valid_utf8};
use crate::error::CodecError;
use crate::stream::{
    holds_at, i32_at, i32_le, lemma_holds_at_join, lemma_holds_at_split, lemma_i32_at_holds,
    lemma_i32_at_recode, lemma_i32_le_round_trip, lemma_take_at_holds, lemma_taken_holds,
    push_bytes, push_i32, take_at, Stream,
};

verus! {

/// The one or two UTF-16 code units of a character.
pub open spec fn utf16_of_char(c: char) -> Seq<u16> {
    let v = c as u32;
    if v < 0x1_0000 {
        seq![v as u16]
    } else {
        seq![
            (0xD800 + (v - 0x1_0000) / 0x400) as u16,
            (0xDC00 + (v - 0x1_0000) % 0x400) as u16,
        ]
    }
}

/// The UTF-16 encoding of a text.
pub open spec fn encode_utf16(text: Seq<char>) -> Seq<u16>
    decreases text.len(),
{
    if text.len() == 0 {
        Seq::empty()
    } else {
        utf16_of_char(text[0]) + encode_utf16(text.drop_first())
    }
}

/// Whether a code unit is one half of a surrogate pair.
pub open spec fn is_surrogate(unit: u16) -> bool {
    0xD800 <= unit <= 0xDFFF
}

/// Whether two code units are a surrogate pair: a high half, then a low one.
pub open spec fn is_pair(high: u16, low: u16) -> bool {
    0xD800 <= high <= 0xDBFF && 0xDC00 <= low <= 0xDFFF
}

/// The character that a surrogate pair stands for.
pub open spec fn char_of_pair(high: u16, low: u16) -> char {
    (0x1_0000 + (high - 0xD800) * 0x400 + (low - 0xDC00)) as char
}

/// Whether code units are well-formed UTF-16: every surrogate is one half
/// of a pair.
pub open spec fn utf16_well_formed(units: Seq<u16>) -> bool
    decreases units.len(),
{
    if units.len() == 0 {
        true
    } else if !is_surrogate(units[0]) {
        utf16_well_formed(units.skip(1))
    } else if units.len() >= 2 && is_pair(units[0], units[1]) {
        utf16_well_formed(units.skip(2))
    } else {
        false
    }
}

/// The text that code units stand for, with U+FFFD in place of every
/// surrogate that is not one half of a pair.
pub open spec fn decode_utf16_lossy(units: Seq<u16>) -> Seq<char>
    decreases units.len(),
{
    if units.len() == 0 {
        Seq::empty()
    } else if !is_surrogate(units[0]) {
        seq![units[0] as char] + decode_utf16_lossy(units.skip(1))
    } else if units.len() >= 2 && is_pair(units[0], units[1]) {
        seq![char_of_pair(units[0], units[1])] + decode_utf16_lossy(units.skip(2))
    } else {
        seq!['\u{FFFD}'] + decode_utf16_lossy(units.skip(1))
    }
}

/// What lossy decoding makes of bytes that are not valid UTF-8.
pub uninterp spec fn utf8_repaired(bytes: Seq<u8>) -> Seq<char>;

/// The text read from single-byte payload: the decoded text where the bytes
/// are valid UTF-8, the repaired text otherwise.
pub open spec fn utf8_text(bytes: Seq<u8>) -> Seq<char> {
    if valid_utf8(bytes) {
        decode_utf8(bytes)
    } else {
        utf8_repaired(bytes)
    }
}

/// The bytes of code units, each unit low byte first.
pub open spec fn u16s_le(units: Seq<u16>) -> Seq<u8> {
    Seq::new(
        2 * units.len(),
        |i: int|
            if i % 2 == 0 {
                (units[i / 2] % 0x100) as u8
            } else {
                (units[i / 2] / 0x100) as u8
            },
    )
}

/// The code units that pairs of bytes stand for, low byte first.
pub open spec fn le_u16s(bytes: Seq<u8>) -> Seq<u16> {
    Seq::new(
        bytes.len() / 2,
        |i: int| (bytes[2 * i] as int + bytes[2 * i + 1] as int * 0x100) as u16,
    )
}

/// Whether a text is written as UTF-16: it is, as soon as one character is
/// not ASCII.
pub open spec fn is_unicode(text: Seq<char>) -> bool {
    !is_ascii_chars(text)
}

/// Whether the length of a text can be written in the 32-bit prefix.
pub open spec fn fstring_fits(text: Seq<char>) -> bool {
    if is_unicode(text) {
        encode_utf16(text).len() < i32::MAX
    } else {
        text.len() < i32::MAX
    }
}

/// The wire form of a text. The empty text is the prefix zero alone. ASCII
/// text is its length plus one, its bytes and a zero byte. Any other text is
/// minus its count of UTF-16 units plus one, the units low byte first, and
/// two zero bytes.
pub open spec fn encode_fstring(text: Seq<char>) -> Seq<u8> {
    if text.len() == 0 {
        i32_le(0)
    } else if is_unicode(text) {
        i32_le((-(encode_utf16(text).len() + 1)) as i32) + u16s_le(encode_utf16(text)) + seq![
            0u8,
            0u8,
        ]
    } else {
        i32_le((text.len() + 1) as i32) + encode_utf8(text) + seq![0u8]
    }
}

/// The text that is encoded at `pos`, and the position behind it. A prefix
/// or a body that is cut short gives `Truncated` at its own position. A body
/// that does not end in its terminator, one zero byte for single-byte text
/// and two for UTF-16, gives `BadTerminator` at the terminator's position.
/// Text that is not valid is repaired and never refused.
pub open spec fn fstring_at(buf: Seq<u8>, pos: int) -> Result<(Seq<char>, int), CodecError> {
    match i32_at(buf, pos) {
        Err(e) => Err(e),
        Ok((len, body)) => if len == 0 {
            Ok((Seq::empty(), body))
        } else if len > 0 {
            match take_at(buf, body, len as int) {
                Err(e) => Err(e),
                Ok((b, next)) => if b[len - 1] != 0 {
                    Err(CodecError::BadTerminator { offset: (next - 1) as usize })
                } else {
                    Ok((utf8_text(b.subrange(0, len - 1)), next))
                },
            }
        } else {
            match take_at(buf, body, 2 * -len) {
                Err(e) => Err(e),
                Ok((b, next)) => if b[2 * -len - 2] != 0 || b[2 * -len - 1] != 0 {
                    Err(CodecError::BadTerminator { offset: (next - 2) as usize })
                } else {
                    Ok((decode_utf16_lossy(le_u16s(b.subrange(0, 2 * (-len - 1)))), next))
                },
            }
        },
    }
}

/// A character is ASCII exactly when its code is below 128.
proof fn lemma_ascii_code(c: char)
    ensures
        '\0' <= c <= '\u{7f}' <==> c as u32 <= 0x7f,
{
}

/// A text is written as UTF-16 exactly when its UTF-8 form has more bytes
/// than the text has characters.
pub proof fn lemma_unicode_iff_wider(text: Seq<char>)
    ensures
        encode_utf8(text).len() >= text.len(),
        is_unicode(text) <==> encode_utf8(text).len() != text.len(),
    decreases text.len(),
{
    if text.len() > 0 {
        let c = text[0];
        let v = c as u32;
        let rest = text.drop_first();
        lemma_unicode_iff_wider(rest);
        vstd::utf8::char_is_scalar(c);
        assert(vstd::utf8::encode_scalar(v).len() >= 1);
        assert(vstd::utf8::encode_scalar(v).len() == 1 <==> v <= 0x7f);
        lemma_ascii_code(c);
        if is_ascii_chars(text) {
            assert forall|i: int| 0 <= i < rest.len() implies '\0' <= #[trigger] rest[i]
                <= '\u{7f}' by {
                assert(rest[i] == text[i + 1]);
            }
        }
        if v <= 0x7f && is_ascii_chars(rest) {
            assert forall|i: int| 0 <= i < text.len() implies '\0' <= #[trigger] text[i]
                <= '\u{7f}' by {
                if i > 0 {
                    assert(text[i] == rest[i - 1]);
                }
            }
        }
    }
}

/// The UTF-16 encoding of a text is well formed, and decoding it gives the
/// text back.
pub proof fn lemma_utf16_round_trip(text: Seq<char>)
    ensures
        utf16_well_formed(encode_utf16(text)),
        decode_utf16_lossy(encode_utf16(text)) == text,
    decreases text.len(),
{
    if text.len() > 0 {
        let c = text[0];
        let rest = text.drop_first();
        let units = encode_utf16(text);
        let v = c as u32;
        lemma_utf16_round_trip(rest);
        vstd::utf8::char_is_scalar(c);
        vstd::utf8::char_u32_cast(c, v);
        assert(seq![c] + rest =~= text);
        if v < 0x1_0000 {
            assert(units.skip(1) =~= encode_utf16(rest));
            assert(units[0] == v);
        } else {
            assert(units.skip(2) =~= encode_utf16(rest));
            assert(units[0] == 0xD800 + (v - 0x1_0000) / 0x400);
            assert(units[1] == 0xDC00 + (v - 0x1_0000) % 0x400);
            assert(0x1_0000 + (units[0] - 0xD800) * 0x400 + (units[1] - 0xDC00) == v);
        }
    }
}

/// Reading the bytes of code units gives the units back.
pub proof fn lemma_u16s_le_round_trip(units: Seq<u16>)
    ensures
        u16s_le(units).len() == 2 * units.len(),
        le_u16s(u16s_le(units)) == units,
{
    assert(le_u16s(u16s_le(units)) =~= units);
}

/// The prefix of a wire form is negative exactly for text that is written as
/// UTF-16, and zero exactly for the empty text.
pub proof fn lemma_fstring_prefix(text: Seq<char>)
    requires
        fstring_fits(text),
    ensures
        encode_fstring(text).len() >= 4,
        crate::stream::le_i32(encode_fstring(text).subrange(0, 4)) < 0 <==> is_unicode(text),
        crate::stream::le_i32(encode_fstring(text).subrange(0, 4)) == 0 <==> text.len() == 0,
{
    let wire = encode_fstring(text);
    if text.len() == 0 {
        lemma_i32_le_round_trip(0);
        assert(wire.subrange(0, 4) =~= i32_le(0));
    } else if is_unicode(text) {
        let n = (-(encode_utf16(text).len() + 1)) as i32;
        lemma_i32_le_round_trip(n);
        assert(wire.subrange(0, 4) =~= i32_le(n));
    } else {
        let n = (text.len() + 1) as i32;
        lemma_i32_le_round_trip(n);
        assert(wire.subrange(0, 4) =~= i32_le(n));
    }
}

/// Text that was written as UTF-16 at `pos` is read back there.
proof fn lemma_unicode_at_holds(buf: Seq<u8>, pos: int, text: Seq<char>)
    requires
        text.len() > 0,
        is_unicode(text),
        fstring_fits(text),
        holds_at(buf, pos, encode_fstring(text)),
    ensures
        fstring_at(buf, pos) == Ok::<(Seq<char>, int), CodecError>(
            (text, pos + encode_fstring(text).len()),
        ),
{
    let units = encode_utf16(text);
    let n = (-(units.len() + 1)) as i32;
    let body = u16s_le(units) + seq![0u8, 0u8];
    assert(encode_fstring(text) =~= i32_le(n) + body);
    lemma_i32_le_round_trip(n);
    lemma_u16s_le_round_trip(units);
    lemma_holds_at_split(buf, pos, i32_le(n), body);
    lemma_i32_at_holds(buf, pos, n);
    assert(body.len() == 2 * -n);
    lemma_take_at_holds(buf, pos + 4, body);
    assert(body.subrange(0, 2 * (-n - 1)) =~= u16s_le(units));
    lemma_utf16_round_trip(text);
    assert(take_at(buf, pos + 4, body.len() as int)->Ok_0.0 == body);
    assert(body[2 * -n - 2] == 0 && body[2 * -n - 1] == 0);
    assert(decode_utf16_lossy(le_u16s(u16s_le(units))) == text);
}

/// ASCII text that was written at `pos` is read back there.
proof fn lemma_ascii_at_holds(buf: Seq<u8>, pos: int, text: Seq<char>)
    requires
        text.len() > 0,
        !is_unicode(text),
        fstring_fits(text),
        holds_at(buf, pos, encode_fstring(text)),
    ensures
        fstring_at(buf, pos) == Ok::<(Seq<char>, int), CodecError>(
            (text, pos + encode_fstring(text).len()),
        ),
{
    let n = (text.len() + 1) as i32;
    let body = encode_utf8(text) + seq![0u8];
    vstd::utf8::is_ascii_chars_encode_utf8(text);
    vstd::utf8::encode_utf8_valid_utf8(text);
    vstd::utf8::encode_utf8_decode_utf8(text);
    assert(encode_fstring(text) =~= i32_le(n) + body);
    lemma_i32_le_round_trip(n);
    lemma_holds_at_split(buf, pos, i32_le(n), body);
    lemma_i32_at_holds(buf, pos, n);
    assert(body.len() == n);
    lemma_take_at_holds(buf, pos + 4, body);
    assert(body.subrange(0, n - 1) =~= encode_utf8(text));
    assert(body[n - 1] == 0);
    assert(utf8_text(encode_utf8(text)) == text);
}

/// A text that was written at `pos` is read back there, whole and unchanged,
/// whichever of the three forms it took.
pub proof fn lemma_fstring_at_holds(buf: Seq<u8>, pos: int, text: Seq<char>)
    requires
        fstring_fits(text),
        holds_at(buf, pos, encode_fstring(text)),
    ensures
        fstring_at(buf, pos) == Ok::<(Seq<char>, int), CodecError>(
            (text, pos + encode_fstring(text).len()),
        ),
{
    if text.len() == 0 {
        lemma_i32_le_round_trip(0);
        lemma_i32_at_holds(buf, pos, 0);
        assert(text =~= Seq::<char>::empty());
    } else if is_unicode(text) {
        lemma_unicode_at_holds(buf, pos, text);
    } else {
        lemma_ascii_at_holds(buf, pos, text);
    }
}

/// Every text whose length fits the prefix survives writing and reading.
pub proof fn lemma_fstring_round_trip(text: Seq<char>)
    requires
        fstring_fits(text),
    ensures
        fstring_at(encode_fstring(text), 0) == Ok::<(Seq<char>, int), CodecError>(
            (text, encode_fstring(text).len() as int),
        ),
{
    let wire = encode_fstring(text);
    crate::stream::lemma_holds_at_self(wire);
    lemma_fstring_at_holds(wire, 0, text);
}

/// The empty text is written as four zero bytes and read back as empty.
pub proof fn lemma_empty_fstring()
    ensures
        encode_fstring(Seq::<char>::empty()) == seq![0u8, 0u8, 0u8, 0u8],
        fstring_at(seq![0u8, 0u8, 0u8, 0u8], 0) == Ok::<(Seq<char>, int), CodecError>(
            (Seq::<char>::empty(), 4),
        ),
{
    assert(encode_fstring(Seq::<char>::empty()) =~= seq![0u8, 0u8, 0u8, 0u8]);
    lemma_fstring_round_trip(Seq::<char>::empty());
}

/// The encoding of one character alone.
proof fn lemma_encode_utf16_one(c: char)
    ensures
        encode_utf16(seq![c]) == utf16_of_char(c),
{
    reveal_with_fuel(encode_utf16, 2);
    assert(seq![c].drop_first() =~= Seq::<char>::empty());
    assert(encode_utf16(seq![c]) =~= utf16_of_char(c));
}

/// The code of a character made from a number in the range of characters
/// is that number.
proof fn lemma_code_of_char(v: u32)
    requires
        v < 0xD800 || 0xE000 <= v <= 0x10_FFFF,
    ensures
        (v as char) as u32 == v,
{
}

/// Encoding the text that well-formed code units stand for gives the code
/// units back.
pub proof fn lemma_utf16_recode(units: Seq<u16>)
    requires
        utf16_well_formed(units),
    ensures
        encode_utf16(decode_utf16_lossy(units)) == units,
    decreases units.len(),
{
    if units.len() > 0 {
        if !is_surrogate(units[0]) {
            let c = units[0] as char;
            let rest = decode_utf16_lossy(units.skip(1));
            lemma_utf16_recode(units.skip(1));
            lemma_code_of_char(units[0] as u32);
            lemma_encode_utf16_one(c);
            lemma_encode_utf16_concat(seq![c], rest);
            assert(utf16_of_char(c) =~= seq![units[0]]);
            assert(seq![units[0]] + units.skip(1) =~= units);
        } else {
            let c = char_of_pair(units[0], units[1]);
            let v = (0x1_0000 + (units[0] - 0xD800) * 0x400 + (units[1] - 0xDC00)) as u32;
            let rest = decode_utf16_lossy(units.skip(2));
            lemma_utf16_recode(units.skip(2));
            lemma_code_of_char(v);
            lemma_encode_utf16_one(c);
            lemma_encode_utf16_concat(seq![c], rest);
            assert((v - 0x1_0000) / 0x400 == units[0] - 0xD800);
            assert((v - 0x1_0000) % 0x400 == units[1] - 0xDC00);
            assert(utf16_of_char(c) =~= seq![units[0], units[1]]);
            assert(seq![units[0], units[1]] + units.skip(2) =~= units);
        }
    }
}

/// Writing the code units that pairs of bytes stand for gives the bytes
/// back.
pub proof fn lemma_u16s_le_recode(bytes: Seq<u8>)
    requires
        bytes.len() % 2 == 0,
    ensures
        u16s_le(le_u16s(bytes)) == bytes,
{
    assert(u16s_le(le_u16s(bytes)) =~= bytes);
}

/// Whether the text at `pos` stands there in the form that the writer gives
/// it: the empty text as the prefix zero; ASCII text, and no other, as
/// single bytes; text with a character beyond ASCII as well-formed UTF-16,
/// under a prefix that can be negated.
pub open spec fn fstring_canonical_at(buf: Seq<u8>, pos: int) -> bool {
    match i32_at(buf, pos) {
        Err(_) => false,
        Ok((len, body)) => if len == 0 {
            true
        } else if len > 0 {
            match take_at(buf, body, len as int) {
                Err(_) => false,
                Ok((b, _)) => {
                    let payload = b.subrange(0, len - 1);
                    len >= 2 && valid_utf8(payload) && is_ascii_chars(decode_utf8(payload))
                },
            }
        } else {
            match take_at(buf, body, 2 * -len) {
                Err(_) => false,
                Ok((b, _)) => {
                    let units = le_u16s(b.subrange(0, 2 * (-len - 1)));
                    len > i32::MIN && utf16_well_formed(units) && is_unicode(
                        decode_utf16_lossy(units),
                    )
                },
            }
        },
    }
}

/// ASCII text that is read from its canonical form is written as the bytes
/// it was read from.
proof fn lemma_ascii_recode(buf: Seq<u8>, pos: int, len: i32)
    requires
        0 <= pos,
        len > 0,
        i32_at(buf, pos) == Ok::<(i32, int), CodecError>((len, pos + 4)),
        holds_at(buf, pos, i32_le(len)),
        fstring_canonical_at(buf, pos),
        fstring_at(buf, pos) is Ok,
    ensures
        fstring_at(buf, pos) matches Ok((text, next)) && fstring_fits(text) && holds_at(
            buf,
            pos,
            encode_fstring(text),
        ) && next == pos + encode_fstring(text).len(),
{
    lemma_taken_holds(buf, pos + 4, len as int);
    let b = buf.subrange(pos + 4, pos + 4 + len);
    let payload = b.subrange(0, len - 1);
    let text = decode_utf8(payload);
    vstd::utf8::decode_utf8_encode_utf8(payload);
    vstd::utf8::is_ascii_chars_encode_utf8(text);
    assert(encode_utf8(text) == payload);
    assert(text.len() == len - 1);
    assert(b =~= payload + seq![0u8]);
    lemma_holds_at_join(buf, pos, i32_le(len), b);
    assert(encode_fstring(text) =~= i32_le(len) + b);
}

/// Text that is read from canonical UTF-16 is written as the bytes it was
/// read from.
proof fn lemma_unicode_recode(buf: Seq<u8>, pos: int, len: i32)
    requires
        0 <= pos,
        len < 0,
        i32_at(buf, pos) == Ok::<(i32, int), CodecError>((len, pos + 4)),
        holds_at(buf, pos, i32_le(len)),
        fstring_canonical_at(buf, pos),
        fstring_at(buf, pos) is Ok,
    ensures
        fstring_at(buf, pos) matches Ok((text, next)) && fstring_fits(text) && holds_at(
            buf,
            pos,
            encode_fstring(text),
        ) && next == pos + encode_fstring(text).len(),
{
    lemma_taken_holds(buf, pos + 4, 2 * -len);
    let b = buf.subrange(pos + 4, pos + 4 + 2 * -len);
    let payload = b.subrange(0, 2 * (-len - 1));
    let units = le_u16s(payload);
    let text = decode_utf16_lossy(units);
    lemma_utf16_recode(units);
    lemma_u16s_le_recode(payload);
    assert(units.len() == -len - 1);
    assert(text.len() > 0) by {
        if text.len() == 0 {
            assert(is_ascii_chars(text));
        }
    }
    assert(b =~= payload + seq![0u8, 0u8]);
    lemma_holds_at_join(buf, pos, i32_le(len), b);
    assert((-(encode_utf16(text).len() + 1)) as i32 == len);
    assert(encode_fstring(text) =~= i32_le(len) + b);
}

/// A text that is read from its canonical form is written as the bytes it
/// was read from.
pub proof fn lemma_fstring_recode(buf: Seq<u8>, pos: int)
    requires
        0 <= pos,
        fstring_canonical_at(buf, pos),
        fstring_at(buf, pos) is Ok,
    ensures
        fstring_at(buf, pos) matches Ok((text, next)) && fstring_fits(text) && holds_at(
            buf,
            pos,
            encode_fstring(text),
        ) && next == pos + encode_fstring(text).len(),
{
    lemma_i32_at_recode(buf, pos);
    let len = i32_at(buf, pos)->Ok_0.0;
    if len == 0 {
        assert(fstring_at(buf, pos)->Ok_0.0 =~= Seq::<char>::empty());
    } else if len > 0 {
        lemma_ascii_recode(buf, pos, len);
    } else {
        lemma_unicode_recode(buf, pos, len);
    }
}

/// `String::from_utf8_lossy`: valid UTF-8 gives the text it encodes; other
/// bytes give a text that depends on the bytes alone.
#[verifier::external_body]
fn string_from_utf8_lossy(bytes: &[u8]) -> (text: String)
    ensures
        valid_utf8(bytes@) ==> text@ == decode_utf8(bytes@),
        !valid_utf8(bytes@) ==> text@ == utf8_repaired(bytes@),
{
    String::from_utf8_lossy(bytes).into_owned()
}

/// `String::from_utf16_lossy`: the text that the units stand for, with
/// U+FFFD in place of every surrogate that is not one half of a pair.
#[verifier::external_body]
fn string_from_utf16_lossy(units: &[u16]) -> (text: String)
    ensures
        text@ == decode_utf16_lossy(units@),
{
    String::from_utf16_lossy(units)
}

/// The code units that pairs of bytes stand for, low byte first.
fn units_from_le(bytes: &[u8]) -> (units: Vec<u16>)
    requires
        bytes@.len() % 2 == 0,
    ensures
        units@ == le_u16s(bytes@),
{
    let n: usize = bytes.len() / 2;
    let mut units: Vec<u16> = Vec::with_capacity(n);
    let mut i: usize = 0;
    while i < n
        invariant
            2 * n == bytes@.len(),
            bytes@.len() <= usize::MAX,
            i <= n,
            units@.len() == i,
            forall|k: int| 0 <= k < i ==> units@[k] == le_u16s(bytes@)[k],
        decreases n - i,
    {
        let lo: u16 = bytes[2 * i] as u16;
        let hi: u16 = bytes[2 * i + 1] as u16;
        units.push(lo + hi * 0x100);
        i = i + 1;
    }
    assert(units@ =~= le_u16s(bytes@));
    units
}

/// Reads a length-prefixed text. Bytes that are no valid text are repaired,
/// never refused; the failures are input that ends too early and a body
/// that does not end in its terminator.
pub fn read_fstring(s: &mut Stream) -> (r: Result<String, CodecError>)
    ensures
        final(s).bytes() == old(s).bytes(),
        match fstring_at(old(s).bytes(), old(s).offset()) {
            Ok((text, next)) => r matches Ok(got) && got@ == text && final(s).offset() == next,
            Err(e) => r == Err::<String, CodecError>(e) && final(s).offset() == old(s).offset(),
        },
        r is Ok && fstring_canonical_at(old(s).bytes(), old(s).offset()) ==> (r matches Ok(got)
            && fstring_fits(got@) && encode_fstring(got@) == old(s).bytes().subrange(
            old(s).offset(),
            final(s).offset(),
        )),
{
    let start: usize = s.position();
    proof {
        if fstring_canonical_at(s.bytes(), s.offset()) && fstring_at(s.bytes(), s.offset()) is Ok {
            lemma_fstring_recode(s.bytes(), s.offset());
            lemma_take_at_holds(
                s.bytes(),
                s.offset(),
                encode_fstring(fstring_at(s.bytes(), s.offset())->Ok_0.0),
            );
        }
    }
    let len: i32 = match s.read_i32() {
        Ok(v) => v,
        Err(e) => {
            return Err(e);
        },
    };
    if len == 0 {
        return Ok(String::new());
    }
    let need: u64 = if len > 0 {
        len as u64
    } else {
        2 * ((-(len as i64)) as u64)
    };
    if need > s.remaining() as u64 {
        let at: usize = s.position();
        s.rewind(start);
        return Err(CodecError::Truncated { offset: at });
    }
    match s.take(need as usize) {
        Err(e) => {
            s.rewind(start);
            Err(e)
        },
        Ok(body) => {
            let end: usize = s.position();
            if len > 0 {
                if body[need as usize - 1] != 0 {
                    s.rewind(start);
                    return Err(CodecError::BadTerminator { offset: end - 1 });
                }
                let payload = vstd::slice::slice_subrange(body, 0, need as usize - 1);
                Ok(string_from_utf8_lossy(payload))
            } else {
                if body[need as usize - 2] != 0 || body[need as usize - 1] != 0 {
                    s.rewind(start);
                    return Err(CodecError::BadTerminator { offset: end - 2 });
                }
                let payload = vstd::slice::slice_subrange(body, 0, need as usize - 2);
                let units = units_from_le(payload);
                Ok(string_from_utf16_lossy(units.as_slice()))
            }
        },
    }
}

/// The encoding of a text in two parts is the encoding of the first part
/// followed by that of the second.
pub proof fn lemma_encode_utf16_concat(a: Seq<char>, b: Seq<char>)
    ensures
        encode_utf16(a + b) == encode_utf16(a) + encode_utf16(b),
    decreases a.len(),
{
    if a.len() == 0 {
        assert(a + b =~= b);
        assert(encode_utf16(a) + encode_utf16(b) =~= encode_utf16(b));
    } else {
        lemma_encode_utf16_concat(a.drop_first(), b);
        assert((a + b).drop_first() =~= a.drop_first() + b);
        assert(encode_utf16(a + b) =~= encode_utf16(a) + encode_utf16(b));
    }
}

/// The UTF-16 encoding of a text.
pub fn utf16_units(text: &str) -> (units: Vec<u16>)
    ensures
        units@ == encode_utf16(text@),
{
    broadcast use vstd::string::group_string_axioms;
    broadcast use vstd::utf8::char_is_scalar;

    let mut units: Vec<u16> = Vec::new();
    for c in it: text.chars()
        invariant
            it.seq() == text@,
            units@ == encode_utf16(text@.take(it.index() as int)),
    {
        let ghost done = text@.take(it.index() as int);
        let v: u32 = c as u32;
        proof {
            vstd::utf8::char_is_scalar(c);
        }
        if v < 0x1_0000 {
            units.push(v as u16);
        } else {
            units.push((0xD800 + (v - 0x1_0000) / 0x400) as u16);
            units.push((0xDC00 + (v - 0x1_0000) % 0x400) as u16);
        }
        proof {
            lemma_encode_utf16_concat(done, seq![c]);
            reveal_with_fuel(encode_utf16, 2);
            assert(seq![c].drop_first() =~= Seq::<char>::empty());
            assert(encode_utf16(seq![c]) =~= utf16_of_char(c));
            assert(text@.take(it.index() + 1) =~= done + seq![c]);
        }
    }
    assert(text@.take(text@.len() as int) =~= text@);
    units
}

/// Appends the bytes of code units, each unit low byte first.
fn push_units(out: &mut Vec<u8>, units: &Vec<u16>)
    ensures
        final(out)@ == old(out)@ + u16s_le(units@),
{
    let mut i: usize = 0;
    while i < units.len()
        invariant
            i <= units@.len(),
            out@.len() == old(out)@.len() + 2 * i,
            forall|k: int| 0 <= k < old(out)@.len() ==> out@[k] == old(out)@[k],
            forall|k: int| 0 <= k < 2 * i ==> out@[old(out)@.len() + k] == u16s_le(units@)[k],
        decreases units@.len() - i,
    {
        let u: u16 = units[i];
        out.push((u % 0x100) as u8);
        out.push((u / 0x100) as u8);
        i = i + 1;
    }
    assert(out@ =~= old(out)@ + u16s_le(units@));
}

/// Whether the length of a text can be written in the 32-bit prefix.
pub fn fits_fstring(s: &str) -> (r: bool)
    ensures
        r == fstring_fits(s@),
{
    broadcast use vstd::utf8::is_ascii_chars_encode_utf8;

    if s.is_ascii() {
        s.as_bytes().len() < 0x7fff_ffff
    } else {
        utf16_units(s).len() < 0x7fff_ffff
    }
}

/// The wire form of a text, which reads back as the text.
pub fn write_fstring(s: &str) -> (bytes: Vec<u8>)
    requires
        fstring_fits(s@),
    ensures
        bytes@ == encode_fstring(s@),
        fstring_at(bytes@, 0) == Ok::<(Seq<char>, int), CodecError>((s@, bytes@.len() as int)),
{
    broadcast use vstd::utf8::is_ascii_chars_encode_utf8;

    proof {
        lemma_fstring_round_trip(s@);
    }

    let mut bytes: Vec<u8> = Vec::new();
    if s.is_empty() {
        push_i32(&mut bytes, 0);
    } else if s.is_ascii() {
        let text = s.as_bytes();
        push_i32(&mut bytes, (text.len() + 1) as i32);
        push_bytes(&mut bytes, text);
        bytes.push(0);
        assert(bytes@ =~= encode_fstring(s@));
    } else {
        let units = utf16_units(s);
        push_i32(&mut bytes, -(units.len() as i32) - 1);
        push_units(&mut bytes, &units);
        bytes.push(0);
        bytes.push(0);
        assert(bytes@ =~= encode_fstring(s@));
    }
    bytes
}

} // verus!
