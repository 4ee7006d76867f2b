use palworld_save::group_guild::{FDateTime, FPalGuildPlayerInfo, FPalInstanceId, GroupGuildSave};
use palworld_save::guid::Guid;
use palworld_save::repair::{
    contains_guid, find_guild_of, find_member, players_without_character_save, same_guid,
};

fn id(n: u8) -> Guid {
    Guid { bytes: [n; 16] }
}

fn member(n: u8, name: &str) -> FPalGuildPlayerInfo {
    FPalGuildPlayerInfo {
        PlayerUId: id(n),
        LastOnlineRealTime: FDateTime { Ticks: 0 },
        PlayerName: name.to_string(),
    }
}

fn guild_with(members: Vec<FPalGuildPlayerInfo>) -> GroupGuildSave {
    GroupGuildSave {
        UnknownUuid: id(0),
        MayBeOwner: String::new(),
        InstanceIds: vec![],
        unknown: 0,
        UnknownGuid: vec![],
        BaseCampLevel: 1,
        UnknownGuid2: vec![],
        GuildName: "g".to_string(),
        AdminPlayerUId: id(0),
        GuildPlayerInfo: members,
    }
}

#[test]
fn identifiers_are_the_same_when_all_bytes_are() {
    let mut other = id(4);
    assert!(same_guid(&id(4), &other));
    other.bytes[15] = 5;
    assert!(!same_guid(&id(4), &other));
    other = id(4);
    other.bytes[0] = 5;
    assert!(!same_guid(&id(4), &other));
}

#[test]
fn identifier_is_found_among_others() {
    let ids = vec![id(1), id(2), id(3)];
    assert!(contains_guid(&ids, &id(1)));
    assert!(contains_guid(&ids, &id(3)));
    assert!(!contains_guid(&ids, &id(4)));
    assert!(!contains_guid(&vec![], &id(1)));
}

#[test]
fn players_without_a_record_are_kept_in_order() {
    let players = vec![
        FPalInstanceId { PlayerUId: id(1), InstanceUId: id(11) },
        FPalInstanceId { PlayerUId: id(2), InstanceUId: id(12) },
        FPalInstanceId { PlayerUId: id(3), InstanceUId: id(13) },
        FPalInstanceId { PlayerUId: id(4), InstanceUId: id(14) },
    ];
    let characters = vec![id(12), id(99), id(14)];
    assert_eq!(
        players_without_character_save(&players, &characters),
        vec![players[0], players[2]]
    );
    assert_eq!(players_without_character_save(&players, &vec![]), players);
    assert_eq!(players_without_character_save(&vec![], &characters), vec![]);
    assert_eq!(
        players_without_character_save(&players, &vec![id(11), id(12), id(13), id(14)]),
        vec![]
    );
}

#[test]
fn record_is_matched_by_instance_not_by_player() {
    let players = vec![FPalInstanceId { PlayerUId: id(1), InstanceUId: id(11) }];
    assert_eq!(players_without_character_save(&players, &vec![id(1)]), players);
}

#[test]
fn first_member_with_the_identifier_is_found() {
    let guild = guild_with(vec![member(1, "a"), member(2, "b"), member(2, "c")]);
    assert_eq!(find_member(&guild, &id(1)), Some(0));
    assert_eq!(find_member(&guild, &id(2)), Some(1));
    assert_eq!(find_member(&guild, &id(3)), None);
    assert_eq!(find_member(&guild_with(vec![]), &id(1)), None);
}

#[test]
fn first_guild_with_the_member_is_found() {
    let guilds = vec![
        guild_with(vec![member(1, "a")]),
        guild_with(vec![]),
        guild_with(vec![member(2, "b"), member(3, "c")]),
        guild_with(vec![member(3, "d")]),
    ];
    assert_eq!(find_guild_of(&guilds, &id(1)), Some((0, 0)));
    assert_eq!(find_guild_of(&guilds, &id(3)), Some((2, 1)));
    assert_eq!(find_guild_of(&guilds, &id(4)), None);
    assert_eq!(find_guild_of(&vec![], &id(1)), None);
}
