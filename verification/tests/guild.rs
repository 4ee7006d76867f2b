use palworld_save::error::CodecError;
use palworld_save::group_guild::{
    guild_fits, read_fdatetime, read_fpal_guild_player_info, read_fpal_instance_id, read_group_guild_save,
    write_fdatetime, write_fpal_guild_player_info, write_fpal_instance_id, write_group_guild_save,
    FDateTime, FPalGuildPlayerInfo, FPalInstanceId, GroupGuildSave,
};
use palworld_save::guid::{write_uuid, Guid};
use palworld_save::sav::{is_group_type_guild, parse_raw_group_guild_save};
use palworld_save::stream::stream;
use palworld_save::wire::{read_tarray, write_tarray};

fn guid(seed: u8) -> Guid {
    let mut bytes = [0u8; 16];
    for (i, b) in bytes.iter_mut().enumerate() {
        *b = seed.wrapping_mul(16).wrapping_add(i as u8);
    }
    Guid { bytes }
}

fn wire_of(seed: u8) -> Vec<u8> {
    let g = guid(seed).bytes;
    vec![
        g[3], g[2], g[1], g[0], g[7], g[6], g[5], g[4], g[11], g[10], g[9], g[8], g[15], g[14],
        g[13], g[12],
    ]
}

fn sample_guild() -> GroupGuildSave {
    GroupGuildSave {
        UnknownUuid: guid(1),
        MayBeOwner: String::new(),
        InstanceIds: vec![
            FPalInstanceId { PlayerUId: guid(2), InstanceUId: guid(3) },
            FPalInstanceId { PlayerUId: guid(4), InstanceUId: guid(5) },
        ],
        unknown: 7,
        UnknownGuid: vec![guid(6)],
        UnknownGuid2: vec![],
        BaseCampLevel: 0x0102_0304,
        GuildName: "Pals".to_string(),
        AdminPlayerUId: guid(2),
        GuildPlayerInfo: vec![
            FPalGuildPlayerInfo {
                PlayerUId: guid(2),
                LastOnlineRealTime: FDateTime { Ticks: 0x1122_3344_5566_7788 },
                PlayerName: "Ann".to_string(),
            },
            FPalGuildPlayerInfo {
                PlayerUId: guid(4),
                LastOnlineRealTime: FDateTime { Ticks: 1 },
                PlayerName: "\u{30d1}\u{30eb}".to_string(),
            },
        ],
    }
}

fn sample_guild_wire() -> Vec<u8> {
    let mut w = Vec::new();
    w.extend(wire_of(1));
    w.extend([0, 0, 0, 0]);
    w.extend([2, 0, 0, 0]);
    w.extend(wire_of(2));
    w.extend(wire_of(3));
    w.extend(wire_of(4));
    w.extend(wire_of(5));
    w.push(7);
    w.extend([1, 0, 0, 0]);
    w.extend(wire_of(6));
    w.extend([0, 0, 0, 0]);
    w.extend([0x04, 0x03, 0x02, 0x01]);
    w.extend([5, 0, 0, 0, b'P', b'a', b'l', b's', 0]);
    w.extend(wire_of(2));
    w.extend([2, 0, 0, 0]);
    w.extend(wire_of(2));
    w.extend([0x88, 0x77, 0x66, 0x55, 0x44, 0x33, 0x22, 0x11]);
    w.extend([4, 0, 0, 0, b'A', b'n', b'n', 0]);
    w.extend(wire_of(4));
    w.extend([1, 0, 0, 0, 0, 0, 0, 0]);
    w.extend([0xFD, 0xFF, 0xFF, 0xFF, 0xd1, 0x30, 0xeb, 0x30, 0, 0]);
    w
}

#[test]
fn datetime_is_eight_little_endian_bytes() {
    let t = FDateTime { Ticks: 0x0102_0304_0506_0708 };
    let wire = write_fdatetime(&t);
    assert_eq!(wire, vec![8, 7, 6, 5, 4, 3, 2, 1]);
    let mut s = stream(&wire);
    assert_eq!(read_fdatetime(&mut s), Ok(t));
    let mut s = stream(&wire[..7]);
    assert_eq!(read_fdatetime(&mut s), Err(CodecError::Truncated { offset: 0 }));
}

#[test]
fn instance_id_is_player_then_instance() {
    let id = FPalInstanceId { PlayerUId: guid(8), InstanceUId: guid(9) };
    let wire = write_fpal_instance_id(&id);
    let mut expected = wire_of(8);
    expected.extend(wire_of(9));
    assert_eq!(wire, expected);
    let mut s = stream(&wire);
    assert_eq!(read_fpal_instance_id(&mut s), Ok(id));
    assert_eq!(s.position(), 32);
}

#[test]
fn cut_instance_id_names_the_identifier_that_is_cut() {
    let id = FPalInstanceId { PlayerUId: guid(8), InstanceUId: guid(9) };
    let wire = write_fpal_instance_id(&id);
    let mut s = stream(&wire[..31]);
    assert_eq!(read_fpal_instance_id(&mut s), Err(CodecError::Truncated { offset: 16 }));
    assert_eq!(s.position(), 0);
    let mut s = stream(&wire[..15]);
    assert_eq!(read_fpal_instance_id(&mut s), Err(CodecError::Truncated { offset: 0 }));
}

#[test]
fn player_info_is_identifier_ticks_name() {
    let info = FPalGuildPlayerInfo {
        PlayerUId: guid(3),
        LastOnlineRealTime: FDateTime { Ticks: 258 },
        PlayerName: "Bo".to_string(),
    };
    let wire = write_fpal_guild_player_info(&info);
    let mut expected = wire_of(3);
    expected.extend([2, 1, 0, 0, 0, 0, 0, 0]);
    expected.extend([3, 0, 0, 0, b'B', b'o', 0]);
    assert_eq!(wire, expected);
    let mut s = stream(&wire);
    assert_eq!(read_fpal_guild_player_info(&mut s), Ok(info));
    let mut s = stream(&wire[..wire.len() - 1]);
    assert_eq!(read_fpal_guild_player_info(&mut s), Err(CodecError::Truncated { offset: 28 }));
    assert_eq!(s.position(), 0);
}

#[test]
fn array_is_count_then_elements() {
    let items = vec![guid(1), guid(2), guid(3)];
    let wire = write_tarray(&items, write_uuid);
    let mut expected = vec![3, 0, 0, 0];
    expected.extend(wire_of(1));
    expected.extend(wire_of(2));
    expected.extend(wire_of(3));
    assert_eq!(wire, expected);
    let mut s = stream(&wire);
    assert_eq!(read_tarray::<Guid>(&mut s), Ok(items));
    assert_eq!(s.remaining(), 0);
}

#[test]
fn array_writer_takes_any_item_writer() {
    let items: Vec<u8> = vec![5, 6];
    let wire = write_tarray(&items, |b: &u8| vec![*b, *b]);
    assert_eq!(wire, vec![2, 0, 0, 0, 5, 5, 6, 6]);
    let none: Vec<u8> = Vec::new();
    assert_eq!(write_tarray(&none, |b: &u8| vec![*b]), vec![0, 0, 0, 0]);
}

#[test]
fn array_that_ends_early_is_truncated() {
    let items = vec![guid(1), guid(2)];
    let wire = write_tarray(&items, write_uuid);
    let mut s = stream(&wire[..wire.len() - 1]);
    assert_eq!(read_tarray::<Guid>(&mut s), Err(CodecError::Truncated { offset: 20 }));
    assert_eq!(s.position(), 0);
    let mut s = stream(&wire[..2]);
    assert_eq!(read_tarray::<Guid>(&mut s), Err(CodecError::Truncated { offset: 0 }));
}

#[test]
fn array_count_beyond_the_input_is_truncated_before_any_element() {
    let mut wire = vec![0xff, 0xff, 0xff, 0xff];
    wire.extend(wire_of(1));
    let mut s = stream(&wire);
    assert_eq!(read_tarray::<Guid>(&mut s), Err(CodecError::Truncated { offset: 4 }));
    assert_eq!(s.position(), 0);

    let mut wire = vec![17, 0, 0, 0];
    wire.extend(wire_of(1));
    let mut s = stream(&wire);
    assert_eq!(read_tarray::<Guid>(&mut s), Err(CodecError::Truncated { offset: 4 }));

    let mut wire = vec![16, 0, 0, 0];
    wire.extend(wire_of(1));
    let mut s = stream(&wire);
    assert_eq!(read_tarray::<Guid>(&mut s), Err(CodecError::Truncated { offset: 20 }));
}

#[test]
fn guild_is_written_field_by_field() {
    assert_eq!(write_group_guild_save(&sample_guild()), sample_guild_wire());
}

#[test]
fn guild_is_read_field_by_field() {
    let wire = sample_guild_wire();
    let mut s = stream(&wire);
    assert_eq!(read_group_guild_save(&mut s), Ok(sample_guild()));
    assert_eq!(s.remaining(), 0);
}

#[test]
fn test_read_write_group_guild_save() {
    let data = sample_guild_wire();
    let group_guild_save = read_group_guild_save(&mut stream(data.as_ref())).unwrap();
    let data2 = write_group_guild_save(&group_guild_save);
    assert_eq!(data, data2.as_slice());
}

#[test]
fn decoding_an_encoded_guild_gives_the_guild_back() {
    let mut guild = sample_guild();
    guild.MayBeOwner = "owner \u{1F600}".to_string();
    guild.UnknownGuid2 = vec![guid(10), guid(11)];
    guild.BaseCampLevel = 7;
    let wire = write_group_guild_save(&guild);
    let mut s = stream(&wire);
    assert_eq!(read_group_guild_save(&mut s), Ok(guild));
    assert_eq!(s.remaining(), 0);
}

#[test]
fn guild_cut_anywhere_fails_and_leaves_the_stream() {
    let wire = sample_guild_wire();
    for len in 0..wire.len() {
        let mut s = stream(&wire[..len]);
        let r = read_group_guild_save(&mut s);
        assert!(matches!(r, Err(CodecError::Truncated { .. })), "cut at {}", len);
        assert_eq!(s.position(), 0);
    }
}

#[test]
fn cut_guild_names_the_field_that_is_cut() {
    let wire = sample_guild_wire();
    let mut s = stream(&wire[..10]);
    assert_eq!(read_group_guild_save(&mut s), Err(CodecError::Truncated { offset: 0 }));
    let mut s = stream(&wire[..18]);
    assert_eq!(read_group_guild_save(&mut s), Err(CodecError::Truncated { offset: 16 }));
    let mut s = stream(&wire[..wire.len() - 1]);
    assert_eq!(
        read_group_guild_save(&mut s),
        Err(CodecError::Truncated { offset: wire.len() - 6 })
    );
}

#[test]
fn level_stands_behind_both_identifier_arrays() {
    let mut guild = sample_guild();
    guild.InstanceIds = vec![];
    guild.UnknownGuid = vec![];
    guild.UnknownGuid2 = vec![];
    guild.BaseCampLevel = 7;
    let wire = write_group_guild_save(&guild);
    assert_eq!(&wire[16..20], &[0, 0, 0, 0]);
    assert_eq!(&wire[20..24], &[0, 0, 0, 0]);
    assert_eq!(wire[24], 7);
    assert_eq!(&wire[25..29], &[0, 0, 0, 0]);
    assert_eq!(&wire[29..33], &[0, 0, 0, 0]);
    assert_eq!(&wire[33..37], &[7, 0, 0, 0]);
    assert_eq!(parse_raw_group_guild_save(&wire), Ok(guild));
}

#[test]
fn guild_cut_behind_an_array_count_is_truncated() {
    let mut guild = sample_guild();
    guild.InstanceIds = vec![FPalInstanceId { PlayerUId: guid(2), InstanceUId: guid(3) }];
    let wire = write_group_guild_save(&guild);
    let mut s = stream(&wire[..24]);
    assert_eq!(read_group_guild_save(&mut s), Err(CodecError::Truncated { offset: 24 }));
    assert_eq!(s.position(), 0);
}

#[test]
fn ordinary_guild_fits_and_so_does_one_that_was_read() {
    assert!(guild_fits(&sample_guild()));
    let wire = sample_guild_wire();
    let guild = read_group_guild_save(&mut stream(&wire)).unwrap();
    assert!(guild_fits(&guild));
}

#[test]
fn guild_with_a_bad_terminator_in_a_name_is_refused() {
    let mut wire = sample_guild_wire();
    let last = wire.len() - 1;
    wire[last] = 1;
    let mut s = stream(&wire);
    assert_eq!(
        read_group_guild_save(&mut s),
        Err(CodecError::BadTerminator { offset: last - 1 })
    );
    assert_eq!(s.position(), 0);
}

#[test]
fn raw_group_data_holds_a_guild_at_its_start() {
    let mut raw = sample_guild_wire();
    raw.extend([1, 2, 3]);
    assert_eq!(parse_raw_group_guild_save(&raw), Ok(sample_guild()));
    assert_eq!(parse_raw_group_guild_save(&raw[..5]), Err(CodecError::Truncated { offset: 0 }));
}

#[test]
fn only_the_guild_group_type_is_a_guild() {
    assert!(is_group_type_guild("EPalGroupType::Guild"));
    assert!(!is_group_type_guild("EPalGroupType::Organization"));
    assert!(!is_group_type_guild("EPalGroupType::Guild "));
    assert!(!is_group_type_guild(""));
}
