//! What a world save lacks: the players that have no character record, and
//! the guild that each of them belongs to.
use vstd::prelude::*;
use crate::group_guild::{FPalInstanceId, GroupGuildSave, GuildModel, InstanceIdModel};
use crate::guid::Guid;
use crate::wire::models;

verus! {

/// Whether two identifiers are the same.
pub fn same_guid(a: &Guid, b: &Guid) -> (r: bool)
    ensures
        r == (a@ == b@),
{
    let mut i: usize = 0;
    while i < 16
        invariant
            i <= 16,
            forall|k: int| 0 <= k < i ==> a@[k] == b@[k],
        decreases 16 - i,
    {
        if a.bytes[i] != b.bytes[i] {
            return false;
        }
        i = i + 1;
    }
    assert(a@ =~= b@);
    true
}

/// The players, in their order, whose instance is not among `characters`.
pub open spec fn lacking(
    players: Seq<InstanceIdModel>,
    characters: Seq<Seq<u8>>,
) -> Seq<InstanceIdModel>
    decreases players.len(),
{
    if players.len() == 0 {
        Seq::empty()
    } else if characters.contains(players.last().instance_uid) {
        lacking(players.drop_last(), characters)
    } else {
        lacking(players.drop_last(), characters).push(players.last())
    }
}

/// Whether an identifier is among `ids`.
pub fn contains_guid(ids: &Vec<Guid>, id: &Guid) -> (r: bool)
    ensures
        r == models(ids@).contains(id@),
{
    let mut i: usize = 0;
    while i < ids.len()
        invariant
            i <= ids@.len(),
            forall|k: int| 0 <= k < i ==> models(ids@)[k] != id@,
        decreases ids@.len() - i,
    {
        if same_guid(&ids[i], id) {
            assert(models(ids@)[i as int] == id@);
            return true;
        }
        i = i + 1;
    }
    false
}

/// The players that have no character record: those whose instance is not
/// the instance of any record, in the order in which they were given.
pub fn players_without_character_save(
    players: &Vec<FPalInstanceId>,
    characters: &Vec<Guid>,
) -> (r: Vec<FPalInstanceId>)
    ensures
        models(r@) == lacking(models(players@), models(characters@)),
{
    let mut out: Vec<FPalInstanceId> = Vec::new();
    let mut i: usize = 0;
    assert(models(players@).take(0) =~= Seq::<InstanceIdModel>::empty());
    assert(models(out@) =~= Seq::<InstanceIdModel>::empty());
    while i < players.len()
        invariant
            i <= players@.len(),
            models(out@) == lacking(models(players@).take(i as int), models(characters@)),
        decreases players@.len() - i,
    {
        let ghost before = models(out@);
        let ghost seen = models(players@).take(i as int);
        let player = players[i];
        assert(models(players@).take(i + 1).drop_last() =~= seen);
        assert(models(players@).take(i + 1).last() == player@);
        if !contains_guid(characters, &player.InstanceUId) {
            out.push(player);
            assert(models(out@) =~= before.push(player@));
        }
        i = i + 1;
    }
    assert(models(players@).take(players@.len() as int) =~= models(players@));
    out
}

/// Whether a player is a member of a guild.
pub open spec fn is_member(guild: GuildModel, player: Seq<u8>) -> bool {
    exists|i: int|
        0 <= i < guild.guild_player_info.len() && (#[trigger] guild.guild_player_info[i]).player_uid
            == player
}

/// The place of a player among the members of a guild: the first member
/// with the player's identifier, or `None` where there is none.
pub fn find_member(guild: &GroupGuildSave, player: &Guid) -> (r: Option<usize>)
    ensures
        r is Some <==> is_member(guild@, player@),
        r matches Some(i) ==> {
            &&& i < guild.GuildPlayerInfo@.len()
            &&& guild@.guild_player_info[i as int].player_uid == player@
            &&& forall|k: int|
                0 <= k < i ==> (#[trigger] guild@.guild_player_info[k]).player_uid != player@
        },
{
    let mut i: usize = 0;
    while i < guild.GuildPlayerInfo.len()
        invariant
            i <= guild.GuildPlayerInfo@.len(),
            forall|k: int|
                0 <= k < i ==> (#[trigger] guild@.guild_player_info[k]).player_uid != player@,
        decreases guild.GuildPlayerInfo@.len() - i,
    {
        if same_guid(&guild.GuildPlayerInfo[i].PlayerUId, player) {
            assert(guild@.guild_player_info[i as int].player_uid == player@);
            return Some(i);
        }
        i = i + 1;
    }
    None
}

/// The guild that a player belongs to: the first guild that has the player
/// as a member, with the player's place in it, or `None` where no guild has.
pub fn find_guild_of(guilds: &Vec<GroupGuildSave>, player: &Guid) -> (r: Option<(usize, usize)>)
    ensures
        r is None <==> forall|g: int| 0 <= g < guilds@.len() ==> !is_member(
            (#[trigger] guilds@[g])@,
            player@,
        ),
        r matches Some((g, i)) ==> {
            &&& g < guilds@.len()
            &&& i < guilds@[g as int].GuildPlayerInfo@.len()
            &&& guilds@[g as int]@.guild_player_info[i as int].player_uid == player@
            &&& forall|k: int| 0 <= k < g ==> !is_member((#[trigger] guilds@[k])@, player@)
            &&& forall|k: int|
                0 <= k < i ==> (#[trigger] guilds@[g as int]@.guild_player_info[k]).player_uid
                    != player@
        },
{
    let mut g: usize = 0;
    while g < guilds.len()
        invariant
            g <= guilds@.len(),
            forall|k: int| 0 <= k < g ==> !is_member((#[trigger] guilds@[k])@, player@),
        decreases guilds@.len() - g,
    {
        match find_member(&guilds[g], player) {
            Some(i) => {
                return Some((g, i));
            },
            None => {},
        }
        g = g + 1;
    }
    None
}

} // verus!
