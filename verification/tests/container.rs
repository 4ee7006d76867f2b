use palworld_save::error::CodecError;
use palworld_save::sav::{
    field_len, frame_container, read_save_file, write_save_file, PalSave, TIER_DEFLATED,
    TIER_DEFLATED_TWICE, TIER_STORED,
};
use std::io::{Read, Write};

fn deflate(data: &[u8]) -> Vec<u8> {
    let mut encoder = flate2::write::ZlibEncoder::new(Vec::new(), flate2::Compression::default());
    encoder.write_all(data).unwrap();
    encoder.finish().unwrap()
}

fn inflate(data: &[u8]) -> Vec<u8> {
    let mut out = Vec::new();
    flate2::read::ZlibDecoder::new(data).read_to_end(&mut out).unwrap();
    out
}

fn header(decompressed: u32, compressed: u32, tier: u8) -> Vec<u8> {
    let mut out = Vec::new();
    out.extend(decompressed.to_le_bytes());
    out.extend(compressed.to_le_bytes());
    out.extend([0x50, 0x6C, 0x5A]);
    out.push(tier);
    out
}

fn sample_inner() -> Vec<u8> {
    let mut inner = b"GVAS".to_vec();
    for i in 0..600u32 {
        inner.push((i % 7) as u8);
        inner.push((i / 3) as u8);
    }
    inner
}

#[test]
fn tiers_are_the_three_ascii_digits() {
    assert_eq!(TIER_STORED, 0x30);
    assert_eq!(TIER_DEFLATED, 0x31);
    assert_eq!(TIER_DEFLATED_TWICE, 0x32);
}

#[test]
fn frame_is_lengths_magic_tier_payload() {
    assert_eq!(
        frame_container(0x0102_0304, 5, 0x31, &[9, 8, 7]),
        vec![4, 3, 2, 1, 5, 0, 0, 0, b'P', b'l', b'Z', 0x31, 9, 8, 7]
    );
}

#[test]
fn tier_31_selects_single_pass_deflate() {
    let inner = sample_inner();
    let payload = deflate(&inner);
    let mut bytes = header(inner.len() as u32, payload.len() as u32, 0x31);
    bytes.extend(&payload);
    let save = read_save_file(&bytes).unwrap();
    assert_eq!(save.compression_type, 0x31);
    assert_eq!(save.save, inner);
}

#[test]
fn tier_30_copies_the_payload_verbatim() {
    let inner = sample_inner();
    let bytes = write_save_file(&PalSave { compression_type: 0x30, save: inner.clone() }).unwrap();
    assert_eq!(&bytes[0..4], &bytes[4..8]);
    assert_eq!(&bytes[0..4], &(inner.len() as u32).to_le_bytes());
    assert_eq!(&bytes[8..12], &[0x50, 0x6C, 0x5A, 0x30]);
    assert_eq!(&bytes[12..], &inner[..]);
    let save = read_save_file(&bytes).unwrap();
    assert_eq!(save, PalSave { compression_type: 0x30, save: inner });
}

#[test]
fn tier_31_is_written_deflated_once() {
    let inner = sample_inner();
    let bytes = write_save_file(&PalSave { compression_type: 0x31, save: inner.clone() }).unwrap();
    let payload = &bytes[12..];
    assert_ne!(payload, &inner[..]);
    assert_eq!(&bytes[0..4], &(inner.len() as u32).to_le_bytes());
    assert_eq!(&bytes[4..8], &(payload.len() as u32).to_le_bytes());
    assert_eq!(&bytes[8..12], &[0x50, 0x6C, 0x5A, 0x31]);
    assert_eq!(inflate(payload), inner);
    assert_eq!(payload, &deflate(&inner)[..]);
}

#[test]
fn tier_32_is_written_deflated_twice() {
    let inner = sample_inner();
    let bytes = write_save_file(&PalSave { compression_type: 0x32, save: inner.clone() }).unwrap();
    let payload = &bytes[12..];
    let between = inflate(payload);
    assert_eq!(&bytes[0..4], &(inner.len() as u32).to_le_bytes());
    assert_eq!(&bytes[4..8], &(payload.len() as u32).to_le_bytes());
    assert_eq!(&bytes[8..12], &[0x50, 0x6C, 0x5A, 0x32]);
    assert_eq!(inflate(&between), inner);
    assert_eq!(between, deflate(&inner));
    assert_eq!(payload, &deflate(&between)[..]);
}

#[test]
fn tier_32_is_read_by_inflating_twice() {
    let inner = sample_inner();
    let between = deflate(&inner);
    let payload = deflate(&between);
    for stated in [payload.len() as u32, between.len().min(payload.len()) as u32, 0] {
        let mut bytes = header(inner.len() as u32, stated, 0x32);
        bytes.extend(&payload);
        let save = read_save_file(&bytes).unwrap();
        assert_eq!(save, PalSave { compression_type: 0x32, save: inner.clone() });
    }
}

#[test]
fn one_pass_is_applied_under_tier_31_whatever_the_lengths_say() {
    let inner = sample_inner();
    let payload = deflate(&inner);
    for (decompressed, stated) in [(0u32, 0u32), (7, 3), (inner.len() as u32, payload.len() as u32)]
    {
        let mut bytes = header(decompressed, stated, 0x31);
        bytes.extend(&payload);
        assert_eq!(
            read_save_file(&bytes),
            Ok(PalSave { compression_type: 0x31, save: inner.clone() })
        );
    }
}

#[test]
fn test_read_write_save_file() {
    for tier in [0x30u8, 0x31, 0x32] {
        let save = write_save_file(&PalSave { compression_type: tier, save: sample_inner() })
            .unwrap();
        let pal_save = read_save_file(&save).unwrap();
        let re_save = write_save_file(&pal_save).unwrap();
        let re_pal_save = read_save_file(&re_save).unwrap();
        assert_eq!(pal_save, re_pal_save);
        assert_eq!(pal_save.compression_type, tier);
        assert_eq!(pal_save.save, sample_inner());
    }
}

#[test]
fn recoding_with_the_same_tier_gives_the_same_bytes() {
    for tier in [0x30u8, 0x31, 0x32] {
        for inner in [Vec::new(), vec![0u8; 3], sample_inner()] {
            let bytes = write_save_file(&PalSave { compression_type: tier, save: inner }).unwrap();
            let decoded = read_save_file(&bytes).unwrap();
            assert_eq!(write_save_file(&decoded).unwrap(), bytes);
        }
    }
}

#[test]
fn container_with_fewer_payload_bytes_than_stated_is_truncated() {
    let inner = sample_inner();
    for tier in [0x30u8, 0x31, 0x32] {
        let bytes = write_save_file(&PalSave { compression_type: tier, save: inner.clone() })
            .unwrap();
        assert_eq!(
            read_save_file(&bytes[..bytes.len() - 1]),
            Err(CodecError::Truncated { offset: 12 })
        );
        assert_eq!(read_save_file(&bytes[..12]), Err(CodecError::Truncated { offset: 12 }));
    }
}

#[test]
fn short_payload_is_truncated_even_where_it_is_no_zlib_stream() {
    for tier in [0x30u8, 0x31, 0x32] {
        let mut bytes = header(3, 4, tier);
        bytes.extend([1, 2, 3]);
        assert_eq!(read_save_file(&bytes), Err(CodecError::Truncated { offset: 12 }));
    }
}

#[test]
fn cut_header_names_the_field_that_is_cut() {
    let bytes = write_save_file(&PalSave { compression_type: 0x30, save: vec![1, 2, 3] }).unwrap();
    assert_eq!(read_save_file(&bytes[..0]), Err(CodecError::Truncated { offset: 0 }));
    assert_eq!(read_save_file(&bytes[..3]), Err(CodecError::Truncated { offset: 0 }));
    assert_eq!(read_save_file(&bytes[..7]), Err(CodecError::Truncated { offset: 4 }));
    assert_eq!(read_save_file(&bytes[..10]), Err(CodecError::Truncated { offset: 8 }));
    assert_eq!(read_save_file(&bytes[..11]), Err(CodecError::Truncated { offset: 11 }));
}

#[test]
fn wrong_magic_is_refused() {
    let mut bytes = header(3, 3, 0x30);
    bytes.extend([1, 2, 3]);
    bytes[10] = b'z';
    assert_eq!(read_save_file(&bytes), Err(CodecError::InvalidMagic));
    bytes[10] = b'Z';
    assert!(read_save_file(&bytes).is_ok());
}

#[test]
fn unknown_tier_is_refused() {
    for tier in [0x00u8, 0x2f, 0x33, 0xff] {
        let mut bytes = header(3, 3, tier);
        bytes.extend([1, 2, 3]);
        assert_eq!(read_save_file(&bytes), Err(CodecError::UnknownCompressionTier));
        assert_eq!(
            write_save_file(&PalSave { compression_type: tier, save: vec![1, 2, 3] }),
            Err(CodecError::UnknownCompressionTier)
        );
    }
}

#[test]
fn payload_that_is_no_zlib_stream_is_refused() {
    let mut bytes = header(3, 3, 0x31);
    bytes.extend([1, 2, 3]);
    assert_eq!(read_save_file(&bytes), Err(CodecError::Compression));
    let mut bytes = header(3, 3, 0x32);
    bytes.extend([1, 2, 3]);
    assert_eq!(read_save_file(&bytes), Err(CodecError::Compression));
    let mut bytes = header(3, 0, 0x32);
    bytes.extend(deflate(&[7u8; 40]));
    assert_eq!(read_save_file(&bytes), Err(CodecError::Compression));
}

#[test]
fn cut_zlib_stream_is_truncated() {
    let payload = deflate(&sample_inner());
    let cut = &payload[..payload.len() - 4];
    let mut bytes = header(0, cut.len() as u32, 0x31);
    bytes.extend(cut);
    assert_eq!(read_save_file(&bytes), Err(CodecError::Truncated { offset: 12 }));
    let mut bytes = header(0, 0, 0x31);
    assert_eq!(read_save_file(&bytes), Err(CodecError::Truncated { offset: 12 }));
    bytes.extend([0x78]);
    assert_eq!(read_save_file(&bytes), Err(CodecError::Truncated { offset: 12 }));
}

#[test]
fn cut_twice_deflated_container_is_truncated() {
    let bytes = write_save_file(&PalSave { compression_type: 0x32, save: sample_inner() })
        .unwrap();
    for len in [12, 13, 20, bytes.len() / 2, bytes.len() - 1] {
        assert_eq!(read_save_file(&bytes[..len]), Err(CodecError::Truncated { offset: 12 }));
    }
    let between = deflate(&sample_inner());
    let payload = deflate(&between[..between.len() - 3]);
    let mut bytes = header(0, payload.len() as u32, 0x32);
    bytes.extend(payload);
    assert_eq!(read_save_file(&bytes), Err(CodecError::Truncated { offset: 12 }));
}

#[test]
fn payload_is_all_that_follows_the_header() {
    let mut bytes = header(3, 3, 0x30);
    bytes.extend([1, 2, 3, 4, 5]);
    assert_eq!(
        read_save_file(&bytes),
        Ok(PalSave { compression_type: 0x30, save: vec![1, 2, 3, 4, 5] })
    );
}

#[test]
fn length_beyond_its_field_is_implausible() {
    assert_eq!(field_len(0), Ok(0));
    assert_eq!(field_len(u32::MAX as usize), Ok(u32::MAX));
    if usize::BITS > 32 {
        assert_eq!(field_len(u32::MAX as usize + 1), Err(CodecError::ImplausibleLength));
        assert_eq!(field_len(usize::MAX), Err(CodecError::ImplausibleLength));
    }
}

#[test]
fn decompressed_length_is_not_checked_on_read() {
    let mut bytes = header(999, 3, 0x30);
    bytes.extend([1, 2, 3]);
    assert_eq!(read_save_file(&bytes), Ok(PalSave { compression_type: 0x30, save: vec![1, 2, 3] }));
}
