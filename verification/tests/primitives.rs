use palworld_save::error::CodecError;
use palworld_save::fstring::{fits_fstring, read_fstring, utf16_units, write_fstring};
use palworld_save::guid::{read_uuid, write_uuid, Guid};
use palworld_save::stream::{push_bytes, push_i32, push_u32, push_u64, stream, u32_from_le};

fn counting() -> Vec<u8> {
    (0u8..16).collect()
}

#[test]
fn guid_is_read_with_each_group_of_four_reversed() {
    let wire = counting();
    let mut s = stream(&wire);
    let guid = read_uuid(&mut s).unwrap();
    assert_eq!(guid.bytes, [3, 2, 1, 0, 7, 6, 5, 4, 11, 10, 9, 8, 15, 14, 13, 12]);
    assert_eq!(s.position(), 16);
    assert_eq!(s.remaining(), 0);
}

#[test]
fn guid_is_written_with_each_group_of_four_reversed() {
    let guid = Guid { bytes: [3, 2, 1, 0, 7, 6, 5, 4, 11, 10, 9, 8, 15, 14, 13, 12] };
    assert_eq!(write_uuid(&guid), counting());
}

#[test]
fn encoding_a_decoded_guid_gives_the_bytes_back() {
    let wire: Vec<u8> = vec![
        0xde, 0xad, 0xbe, 0xef, 0x01, 0x23, 0x45, 0x67, 0x89, 0xab, 0xcd, 0xef, 0x00, 0xff, 0x10,
        0x20,
    ];
    let mut s = stream(&wire);
    let guid = read_uuid(&mut s).unwrap();
    assert_ne!(guid.bytes.to_vec(), wire);
    assert_eq!(write_uuid(&guid), wire);
}

#[test]
fn decoding_an_encoded_guid_gives_the_guid_back() {
    let guid = Guid { bytes: [9, 8, 7, 6, 5, 4, 3, 2, 1, 0, 255, 254, 253, 252, 251, 250] };
    let wire = write_uuid(&guid);
    let mut s = stream(&wire);
    assert_eq!(read_uuid(&mut s), Ok(guid));
}

#[test]
fn short_guid_is_truncated_and_leaves_the_stream() {
    let wire = vec![0u8; 21];
    let mut s = stream(&wire);
    s.take(6).unwrap();
    assert_eq!(read_uuid(&mut s), Err(CodecError::Truncated { offset: 6 }));
    assert_eq!(s.position(), 6);
}

#[test]
fn integers_are_little_endian() {
    let wire: Vec<u8> = vec![
        0x78, 0x56, 0x34, 0x12, 0xfe, 0xff, 0xff, 0xff, 0x08, 0x07, 0x06, 0x05, 0x04, 0x03, 0x02,
        0x01, 0x2a,
    ];
    let mut s = stream(&wire);
    assert_eq!(s.read_u32(), Ok(0x1234_5678));
    assert_eq!(s.read_i32(), Ok(-2));
    assert_eq!(s.read_u64(), Ok(0x0102_0304_0506_0708));
    assert_eq!(s.read_u8(), Ok(0x2a));
    assert_eq!(s.read_u8(), Err(CodecError::Truncated { offset: 17 }));
    assert_eq!(u32_from_le(&[1, 0, 0, 0x80]), 0x8000_0001);
}

#[test]
fn integers_are_written_little_endian() {
    let mut out = Vec::new();
    push_u32(&mut out, 0x1234_5678);
    push_i32(&mut out, -2);
    push_i32(&mut out, i32::MIN);
    push_u64(&mut out, 0x0102_0304_0506_0708);
    push_bytes(&mut out, &[0xaa, 0xbb]);
    assert_eq!(
        out,
        vec![
            0x78, 0x56, 0x34, 0x12, 0xfe, 0xff, 0xff, 0xff, 0x00, 0x00, 0x00, 0x80, 0x08, 0x07,
            0x06, 0x05, 0x04, 0x03, 0x02, 0x01, 0xaa, 0xbb
        ]
    );
}

#[test]
fn cut_integer_is_truncated_at_its_own_position() {
    let wire = vec![1u8, 2, 3, 4, 5, 6];
    let mut s = stream(&wire);
    assert_eq!(s.read_u32(), Ok(0x0403_0201));
    assert_eq!(s.read_u32(), Err(CodecError::Truncated { offset: 4 }));
    assert_eq!(s.read_u64(), Err(CodecError::Truncated { offset: 4 }));
    assert_eq!(s.position(), 4);
    s.rewind(1);
    assert_eq!(s.read_u8(), Ok(2));
}

#[test]
fn single_byte_string_of_length_two_is_one_letter() {
    let wire = vec![0x02, 0x00, 0x00, 0x00, 0x41, 0x00];
    let mut s = stream(&wire);
    assert_eq!(read_fstring(&mut s), Ok("A".to_string()));
    assert_eq!(s.position(), 6);
}

#[test]
fn unicode_string_of_length_minus_two_is_one_letter() {
    let wire = vec![0xFE, 0xFF, 0xFF, 0xFF, 0x41, 0x00, 0x00, 0x00];
    let mut s = stream(&wire);
    assert_eq!(read_fstring(&mut s), Ok("A".to_string()));
    assert_eq!(s.position(), 8);
}

#[test]
fn empty_string_is_four_zero_bytes() {
    assert_eq!(write_fstring(""), vec![0, 0, 0, 0]);
    let wire = vec![0u8, 0, 0, 0, 0x55];
    let mut s = stream(&wire);
    assert_eq!(read_fstring(&mut s), Ok(String::new()));
    assert_eq!(s.position(), 4);
}

#[test]
fn ascii_string_is_written_single_byte() {
    assert_eq!(write_fstring("A"), vec![0x02, 0x00, 0x00, 0x00, 0x41, 0x00]);
    assert_eq!(
        write_fstring("Guild"),
        vec![0x06, 0x00, 0x00, 0x00, b'G', b'u', b'i', b'l', b'd', 0x00]
    );
}

#[test]
fn string_with_one_wide_character_is_written_as_utf16() {
    assert_eq!(
        write_fstring("A\u{3042}"),
        vec![0xFD, 0xFF, 0xFF, 0xFF, 0x41, 0x00, 0x42, 0x30, 0x00, 0x00]
    );
    assert_eq!(write_fstring("\u{e9}"), vec![0xFE, 0xFF, 0xFF, 0xFF, 0xe9, 0x00, 0x00, 0x00]);
}

#[test]
fn character_beyond_the_basic_plane_takes_a_surrogate_pair() {
    assert_eq!(utf16_units("\u{1F600}"), vec![0xD83D, 0xDE00]);
    assert_eq!(utf16_units("a\u{10000}\u{10FFFF}"), vec![0x61, 0xD800, 0xDC00, 0xDBFF, 0xDFFF]);
    assert_eq!(
        write_fstring("\u{1F600}"),
        vec![0xFD, 0xFF, 0xFF, 0xFF, 0x3D, 0xD8, 0x00, 0xDE, 0x00, 0x00]
    );
}

#[test]
fn utf16_units_are_those_of_the_standard_library() {
    for text in ["", "plain", "\u{3042}\u{3044}", "x\u{1F600}y\u{FFFF}\u{E000}\u{D7FF}"] {
        let expected: Vec<u16> = text.encode_utf16().collect();
        assert_eq!(utf16_units(text), expected);
    }
}

#[test]
fn single_byte_strings_survive_a_round_trip() {
    for text in ["A", "Player One", "with\u{0}nul", "\u{7f}"] {
        let wire = write_fstring(text);
        assert!(wire[3] < 0x80);
        let mut s = stream(&wire);
        assert_eq!(read_fstring(&mut s), Ok(text.to_string()));
        assert_eq!(s.remaining(), 0);
    }
}

#[test]
fn wide_strings_survive_a_round_trip() {
    for text in ["\u{80}", "caf\u{e9}", "\u{30d1}\u{30eb}", "mixed \u{1F600} text", "\u{10FFFF}"] {
        let wire = write_fstring(text);
        assert!(wire[3] >= 0x80);
        let mut s = stream(&wire);
        assert_eq!(read_fstring(&mut s), Ok(text.to_string()));
        assert_eq!(s.remaining(), 0);
    }
}

#[test]
fn invalid_utf8_is_replaced_not_refused() {
    let wire = vec![0x03, 0x00, 0x00, 0x00, 0x41, 0xFF, 0x00];
    let mut s = stream(&wire);
    assert_eq!(read_fstring(&mut s), Ok("A\u{FFFD}".to_string()));
}

#[test]
fn lone_surrogate_is_replaced_not_refused() {
    let wire = vec![0xFD, 0xFF, 0xFF, 0xFF, 0x00, 0xD8, 0x41, 0x00, 0x00, 0x00];
    let mut s = stream(&wire);
    assert_eq!(read_fstring(&mut s), Ok("\u{FFFD}A".to_string()));
}

#[test]
fn terminator_that_is_not_zero_is_refused() {
    let wire = vec![0x02, 0x00, 0x00, 0x00, 0x41, 0x07, 0x99];
    let mut s = stream(&wire);
    assert_eq!(read_fstring(&mut s), Err(CodecError::BadTerminator { offset: 5 }));
    assert_eq!(s.position(), 0);

    let wire = vec![0x01, 0x00, 0x00, 0x00, 0x41];
    let mut s = stream(&wire);
    assert_eq!(read_fstring(&mut s), Err(CodecError::BadTerminator { offset: 4 }));

    for bad in [[0x01u8, 0x00], [0x00, 0x01]] {
        let mut wire = vec![0x55, 0xFE, 0xFF, 0xFF, 0xFF, 0x41, 0x00];
        wire.extend(bad);
        let mut s = stream(&wire);
        s.read_u8().unwrap();
        assert_eq!(read_fstring(&mut s), Err(CodecError::BadTerminator { offset: 7 }));
        assert_eq!(s.position(), 1);
    }
}

#[test]
fn text_of_one_zero_byte_alone_reads_as_empty() {
    let wire = vec![0x01, 0x00, 0x00, 0x00, 0x00];
    let mut s = stream(&wire);
    assert_eq!(read_fstring(&mut s), Ok(String::new()));
    assert_eq!(s.position(), 5);
}

#[test]
fn every_unpaired_surrogate_becomes_one_replacement_character() {
    let cases: [(&[u16], &str); 6] = [
        (&[0xDC00], "\u{FFFD}"),
        (&[0xD800], "\u{FFFD}"),
        (&[0xD800, 0xD800, 0xDC00], "\u{FFFD}\u{10000}"),
        (&[0xDC00, 0xD800], "\u{FFFD}\u{FFFD}"),
        (&[0x41, 0xDBFF, 0x42, 0xDFFF], "A\u{FFFD}B\u{FFFD}"),
        (&[0xD834, 0xDD1E, 0x6d, 0xDD1E, 0xD834], "\u{1D11E}m\u{FFFD}\u{FFFD}"),
    ];
    for (units, text) in cases {
        let mut wire = (-(units.len() as i32) - 1).to_le_bytes().to_vec();
        for u in units {
            wire.extend(u.to_le_bytes());
        }
        wire.extend([0, 0]);
        let mut s = stream(&wire);
        assert_eq!(read_fstring(&mut s), Ok(text.to_string()));
    }
}

#[test]
fn ordinary_texts_fit_their_prefix() {
    assert!(fits_fstring(""));
    assert!(fits_fstring("plain"));
    assert!(fits_fstring("\u{30d1}\u{30eb}\u{1F600}"));
}

#[test]
fn cut_string_prefix_is_truncated() {
    let wire = vec![0x02, 0x00, 0x00];
    let mut s = stream(&wire);
    assert_eq!(read_fstring(&mut s), Err(CodecError::Truncated { offset: 0 }));
    assert_eq!(s.position(), 0);
}

#[test]
fn cut_string_body_is_truncated_behind_the_prefix() {
    let wire = vec![0x09, 0x05, 0x00, 0x00, 0x00, 0x41, 0x42];
    let mut s = stream(&wire);
    s.read_u8().unwrap();
    assert_eq!(read_fstring(&mut s), Err(CodecError::Truncated { offset: 5 }));
    assert_eq!(s.position(), 1);

    let wide = vec![0xFE, 0xFF, 0xFF, 0xFF, 0x41, 0x00, 0x00];
    let mut s = stream(&wide);
    assert_eq!(read_fstring(&mut s), Err(CodecError::Truncated { offset: 4 }));
    assert_eq!(s.position(), 0);
}

#[test]
fn most_negative_prefix_is_truncated_not_a_crash() {
    let wire = vec![0x00, 0x00, 0x00, 0x80, 0x41, 0x00];
    let mut s = stream(&wire);
    assert_eq!(read_fstring(&mut s), Err(CodecError::Truncated { offset: 4 }));
    let wire = vec![0xff, 0xff, 0xff, 0x7f, 0x41, 0x00];
    let mut s = stream(&wire);
    assert_eq!(read_fstring(&mut s), Err(CodecError::Truncated { offset: 4 }));
}
