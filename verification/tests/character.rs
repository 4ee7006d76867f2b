use palworld_save::character_save_parameter::{
    read_raw_character_save_parameter, write_raw_character_save_parameter, CharacterSaveParameter,
};
use palworld_save::error::CodecError;
use palworld_save::guid::Guid;

fn none_terminator() -> Vec<u8> {
    vec![5, 0, 0, 0, b'N', b'o', b'n', b'e', 0]
}

fn sample() -> CharacterSaveParameter {
    CharacterSaveParameter {
        properties: none_terminator(),
        group_id: Guid { bytes: [3, 2, 1, 0, 7, 6, 5, 4, 11, 10, 9, 8, 15, 14, 13, 12] },
    }
}

#[test]
fn character_is_properties_reserved_zeroes_and_group() {
    let mut expected = none_terminator();
    expected.extend([0, 0, 0, 0]);
    expected.extend(0u8..16);
    assert_eq!(write_raw_character_save_parameter(&sample()), expected);
}

#[test]
fn test_read_write_character_save_parameter() {
    let mut data = none_terminator();
    data.extend([0, 0, 0, 0]);
    data.extend(0u8..16);
    let character_save_parameter = read_raw_character_save_parameter(&data, 9).unwrap();
    assert_eq!(character_save_parameter, sample());
    let data2 = write_raw_character_save_parameter(&character_save_parameter);
    assert_eq!(data, data2.as_slice());
}

#[test]
fn reserved_field_is_read_and_discarded() {
    let mut data = none_terminator();
    data.extend([9, 9, 9, 9]);
    data.extend(0u8..16);
    data.extend([1, 2, 3]);
    assert_eq!(read_raw_character_save_parameter(&data, 9), Ok(sample()));
}

#[test]
fn decoding_an_encoded_character_gives_the_character_back() {
    let record = CharacterSaveParameter {
        properties: vec![1, 2, 3, 4, 5, 6, 7],
        group_id: Guid { bytes: [0xa5; 16] },
    };
    let wire = write_raw_character_save_parameter(&record);
    assert_eq!(read_raw_character_save_parameter(&wire, 7), Ok(record));
    let empty = CharacterSaveParameter { properties: vec![], group_id: Guid { bytes: [1; 16] } };
    let wire = write_raw_character_save_parameter(&empty);
    assert_eq!(wire.len(), 20);
    assert_eq!(read_raw_character_save_parameter(&wire, 0), Ok(empty));
}

#[test]
fn cut_character_names_the_field_that_is_cut() {
    let wire = write_raw_character_save_parameter(&sample());
    assert_eq!(
        read_raw_character_save_parameter(&wire[..28], 9),
        Err(CodecError::Truncated { offset: 13 })
    );
    assert_eq!(
        read_raw_character_save_parameter(&wire[..12], 9),
        Err(CodecError::Truncated { offset: 9 })
    );
    assert_eq!(
        read_raw_character_save_parameter(&wire, 20),
        Err(CodecError::Truncated { offset: 24 })
    );
    assert_eq!(
        read_raw_character_save_parameter(&wire, 26),
        Err(CodecError::Truncated { offset: 26 })
    );
}

#[test]
fn property_list_longer_than_the_record_is_malformed() {
    let wire = write_raw_character_save_parameter(&sample());
    assert_eq!(wire.len(), 29);
    assert_eq!(read_raw_character_save_parameter(&wire, 30), Err(CodecError::MalformedProperty));
    assert_eq!(
        read_raw_character_save_parameter(&wire, 29),
        Err(CodecError::Truncated { offset: 29 })
    );
    assert_eq!(read_raw_character_save_parameter(&[], 1), Err(CodecError::MalformedProperty));
}
