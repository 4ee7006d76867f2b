//! The guild record and the smaller records it is made of.
use vstd::prelude::*;
use crate::error::CodecError;
use crate::fstring::{
    encode_fstring, fits_fstring, fstring_at, fstring_canonical_at, fstring_fits,
    lemma_fstring_at_holds, lemma_fstring_recode, read_fstring, write_fstring,
};
use crate::guid::{guid_at, read_uuid, swizzle, write_uuid, Guid};
use crate::stream::{
    holds_at, lemma_holds_at_join, lemma_holds_at_split, lemma_u32_at_holds, lemma_u32_at_recode,
    lemma_u64_at_holds, lemma_u64_at_recode, lemma_u64_le_round_trip, lemma_u8_at_holds,
    lemma_u8_at_recode, push_bytes, push_u32, push_u64, u32_at, u32_le, u64_at, u64_le, u8_at,
    Stream,
};
use crate::wire::{
    array_at, array_canonical_at, array_valid, array_wire, lemma_array_at_holds,
    lemma_array_canonical, lemma_array_recode, lemma_joined_is_elems_wire, models, read_tarray,
    write_tarray, Wire,
};

verus! {

/// A point in time as a count of ticks; the codec gives the count no meaning.
#[derive(Debug, Clone, Copy, PartialEq, Eq)]
pub struct FDateTime {
    pub Ticks: u64,
}

impl View for FDateTime {
    type V = u64;

    open spec fn view(&self) -> u64 {
        self.Ticks
    }
}

/// Reads a tick count.
pub fn read_fdatetime(s: &mut Stream) -> (r: Result<FDateTime, CodecError>)
    ensures
        0 <= old(s).offset() <= old(s).bytes().len(),
        final(s).bytes() == old(s).bytes(),
        match u64_at(old(s).bytes(), old(s).offset()) {
            Ok((ticks, next)) => r == Ok::<FDateTime, CodecError>(FDateTime { Ticks: ticks })
                && final(s).offset() == next,
            Err(e) => r == Err::<FDateTime, CodecError>(e) && final(s).offset() == old(s).offset(),
        },
{
    match s.read_u64() {
        Ok(ticks) => Ok(FDateTime { Ticks: ticks }),
        Err(e) => Err(e),
    }
}

/// The eight bytes of a tick count.
pub fn write_fdatetime(datetime: &FDateTime) -> (bytes: Vec<u8>)
    ensures
        bytes@ == u64_le(datetime.Ticks),
{
    let mut bytes: Vec<u8> = Vec::new();
    push_u64(&mut bytes, datetime.Ticks);
    bytes
}

/// The pair of identifiers that names one character instance.
#[derive(Debug, Clone, Copy, PartialEq, Eq)]
pub struct FPalInstanceId {
    pub PlayerUId: Guid,
    pub InstanceUId: Guid,
}

/// The model of an instance identifier.
pub struct InstanceIdModel {
    pub player_uid: Seq<u8>,
    pub instance_uid: Seq<u8>,
}

impl View for FPalInstanceId {
    type V = InstanceIdModel;

    open spec fn view(&self) -> InstanceIdModel {
        InstanceIdModel { player_uid: self.PlayerUId@, instance_uid: self.InstanceUId@ }
    }
}

/// The wire form of an instance identifier: the player, then the instance.
pub open spec fn instance_id_wire(m: InstanceIdModel) -> Seq<u8> {
    swizzle(m.player_uid) + swizzle(m.instance_uid)
}

/// The instance identifier that is encoded at `pos`.
pub open spec fn instance_id_at(buf: Seq<u8>, pos: int) -> Result<
    (InstanceIdModel, int),
    CodecError,
> {
    match guid_at(buf, pos) {
        Err(e) => Err(e),
        Ok((player_uid, at1)) => match guid_at(buf, at1) {
            Err(e) => Err(e),
            Ok((instance_uid, at2)) => Ok((InstanceIdModel { player_uid, instance_uid }, at2)),
        },
    }
}

/// Reads an instance identifier.
pub fn read_fpal_instance_id(s: &mut Stream) -> (r: Result<FPalInstanceId, CodecError>)
    ensures
        0 <= old(s).offset() <= old(s).bytes().len(),
        final(s).bytes() == old(s).bytes(),
        match instance_id_at(old(s).bytes(), old(s).offset()) {
            Ok((m, next)) => r matches Ok(got) && got@ == m && final(s).offset() == next,
            Err(e) => r == Err::<FPalInstanceId, CodecError>(e) && final(s).offset() == old(
                s,
            ).offset(),
        },
{
    let start: usize = s.position();
    let player = match read_uuid(s) {
        Ok(v) => v,
        Err(e) => {
            return Err(e);
        },
    };
    let instance = match read_uuid(s) {
        Ok(v) => v,
        Err(e) => {
            s.rewind(start);
            return Err(e);
        },
    };
    Ok(FPalInstanceId { PlayerUId: player, InstanceUId: instance })
}

/// The thirty-two bytes of an instance identifier.
pub fn write_fpal_instance_id(instance_id: &FPalInstanceId) -> (bytes: Vec<u8>)
    ensures
        bytes@ == instance_id_wire(instance_id@),
{
    let mut bytes: Vec<u8> = Vec::new();
    push_bytes(&mut bytes, write_uuid(&instance_id.PlayerUId).as_slice());
    push_bytes(&mut bytes, write_uuid(&instance_id.InstanceUId).as_slice());
    bytes
}

impl Wire for FPalInstanceId {
    open spec fn valid(m: InstanceIdModel) -> bool {
        m.player_uid.len() == 16 && m.instance_uid.len() == 16
    }

    open spec fn wire(m: InstanceIdModel) -> Seq<u8> {
        instance_id_wire(m)
    }

    open spec fn wire_at(buf: Seq<u8>, pos: int) -> Result<(InstanceIdModel, int), CodecError> {
        instance_id_at(buf, pos)
    }

    proof fn lemma_wire_at_holds(buf: Seq<u8>, pos: int, m: InstanceIdModel) {
        lemma_holds_at_split(buf, pos, swizzle(m.player_uid), swizzle(m.instance_uid));
        Guid::lemma_wire_at_holds(buf, pos, m.player_uid);
        Guid::lemma_wire_at_holds(buf, pos + 16, m.instance_uid);
    }

    open spec fn canonical_at(buf: Seq<u8>, pos: int) -> bool {
        true
    }

    proof fn lemma_recode(buf: Seq<u8>, pos: int) {
        Guid::lemma_recode(buf, pos);
        Guid::lemma_recode(buf, pos + 16);
        let m = instance_id_at(buf, pos)->Ok_0.0;
        lemma_holds_at_join(buf, pos, swizzle(m.player_uid), swizzle(m.instance_uid));
    }

    fn read(s: &mut Stream) -> (r: Result<Self, CodecError>) {
        read_fpal_instance_id(s)
    }
}

/// One member of a guild.
#[derive(Debug, Clone, PartialEq, Eq)]
pub struct FPalGuildPlayerInfo {
    pub PlayerUId: Guid,
    pub LastOnlineRealTime: FDateTime,
    pub PlayerName: String,
}

/// The model of a guild member.
pub struct PlayerInfoModel {
    pub player_uid: Seq<u8>,
    pub last_online: u64,
    pub player_name: Seq<char>,
}

impl View for FPalGuildPlayerInfo {
    type V = PlayerInfoModel;

    open spec fn view(&self) -> PlayerInfoModel {
        PlayerInfoModel {
            player_uid: self.PlayerUId@,
            last_online: self.LastOnlineRealTime.Ticks,
            player_name: self.PlayerName@,
        }
    }
}

/// The wire form of a guild member: identifier, tick count, name.
pub open spec fn player_info_wire(m: PlayerInfoModel) -> Seq<u8> {
    swizzle(m.player_uid) + u64_le(m.last_online) + encode_fstring(m.player_name)
}

/// The guild member that is encoded at `pos`.
pub open spec fn player_info_at(buf: Seq<u8>, pos: int) -> Result<
    (PlayerInfoModel, int),
    CodecError,
> {
    match guid_at(buf, pos) {
        Err(e) => Err(e),
        Ok((player_uid, at1)) => match u64_at(buf, at1) {
            Err(e) => Err(e),
            Ok((last_online, at2)) => match fstring_at(buf, at2) {
                Err(e) => Err(e),
                Ok((player_name, at3)) => Ok(
                    (PlayerInfoModel { player_uid, last_online, player_name }, at3),
                ),
            },
        },
    }
}

/// Whether a guild member can be written.
pub open spec fn player_info_valid(m: PlayerInfoModel) -> bool {
    m.player_uid.len() == 16 && fstring_fits(m.player_name)
}

/// Reads a guild member.
pub fn read_fpal_guild_player_info(s: &mut Stream) -> (r: Result<FPalGuildPlayerInfo, CodecError>)
    ensures
        0 <= old(s).offset() <= old(s).bytes().len(),
        final(s).bytes() == old(s).bytes(),
        match player_info_at(old(s).bytes(), old(s).offset()) {
            Ok((m, next)) => r matches Ok(got) && got@ == m && final(s).offset() == next,
            Err(e) => r == Err::<FPalGuildPlayerInfo, CodecError>(e) && final(s).offset() == old(
                s,
            ).offset(),
        },
{
    let start: usize = s.position();
    let player = match read_uuid(s) {
        Ok(v) => v,
        Err(e) => {
            return Err(e);
        },
    };
    let last_online = match read_fdatetime(s) {
        Ok(v) => v,
        Err(e) => {
            s.rewind(start);
            return Err(e);
        },
    };
    let name = match read_fstring(s) {
        Ok(v) => v,
        Err(e) => {
            s.rewind(start);
            return Err(e);
        },
    };
    Ok(FPalGuildPlayerInfo { PlayerUId: player, LastOnlineRealTime: last_online, PlayerName: name })
}

/// The wire form of a guild member.
pub fn write_fpal_guild_player_info(player_info: &FPalGuildPlayerInfo) -> (bytes: Vec<u8>)
    requires
        fstring_fits(player_info.PlayerName@),
    ensures
        bytes@ == player_info_wire(player_info@),
{
    let mut bytes: Vec<u8> = Vec::new();
    push_bytes(&mut bytes, write_uuid(&player_info.PlayerUId).as_slice());
    push_bytes(&mut bytes, write_fdatetime(&player_info.LastOnlineRealTime).as_slice());
    push_bytes(&mut bytes, write_fstring(player_info.PlayerName.as_str()).as_slice());
    bytes
}

impl Wire for FPalGuildPlayerInfo {
    open spec fn valid(m: PlayerInfoModel) -> bool {
        player_info_valid(m)
    }

    open spec fn wire(m: PlayerInfoModel) -> Seq<u8> {
        player_info_wire(m)
    }

    open spec fn wire_at(buf: Seq<u8>, pos: int) -> Result<(PlayerInfoModel, int), CodecError> {
        player_info_at(buf, pos)
    }

    proof fn lemma_wire_at_holds(buf: Seq<u8>, pos: int, m: PlayerInfoModel) {
        let head = swizzle(m.player_uid) + u64_le(m.last_online);
        lemma_u64_le_round_trip(m.last_online);
        lemma_holds_at_split(buf, pos, head, encode_fstring(m.player_name));
        lemma_holds_at_split(buf, pos, swizzle(m.player_uid), u64_le(m.last_online));
        Guid::lemma_wire_at_holds(buf, pos, m.player_uid);
        lemma_u64_at_holds(buf, pos + 16, m.last_online);
        lemma_fstring_at_holds(buf, pos + 24, m.player_name);
    }

    open spec fn canonical_at(buf: Seq<u8>, pos: int) -> bool {
        fstring_canonical_at(buf, pos + 24)
    }

    proof fn lemma_recode(buf: Seq<u8>, pos: int) {
        Guid::lemma_recode(buf, pos);
        lemma_u64_at_recode(buf, pos + 16);
        lemma_fstring_recode(buf, pos + 24);
        let m = player_info_at(buf, pos)->Ok_0.0;
        lemma_holds_at_join(buf, pos, swizzle(m.player_uid), u64_le(m.last_online));
        lemma_holds_at_join(
            buf,
            pos,
            swizzle(m.player_uid) + u64_le(m.last_online),
            encode_fstring(m.player_name),
        );
    }

    fn read(s: &mut Stream) -> (r: Result<Self, CodecError>) {
        read_fpal_guild_player_info(s)
    }
}

/// One guild: who owns and runs it, what it holds, and who belongs to it.
#[derive(Debug, Clone, PartialEq, Eq)]
pub struct GroupGuildSave {
    pub UnknownUuid: Guid,
    pub MayBeOwner: String,
    pub InstanceIds: Vec<FPalInstanceId>,
    pub unknown: u8,
    pub UnknownGuid: Vec<Guid>,
    pub UnknownGuid2: Vec<Guid>,
    pub BaseCampLevel: u32,
    pub GuildName: String,
    pub AdminPlayerUId: Guid,
    pub GuildPlayerInfo: Vec<FPalGuildPlayerInfo>,
}

/// The model of a guild record.
pub struct GuildModel {
    pub unknown_uuid: Seq<u8>,
    pub may_be_owner: Seq<char>,
    pub instance_ids: Seq<InstanceIdModel>,
    pub unknown: u8,
    pub unknown_guid: Seq<Seq<u8>>,
    pub unknown_guid2: Seq<Seq<u8>>,
    pub base_camp_level: u32,
    pub guild_name: Seq<char>,
    pub admin_player_uid: Seq<u8>,
    pub guild_player_info: Seq<PlayerInfoModel>,
}

impl View for GroupGuildSave {
    type V = GuildModel;

    open spec fn view(&self) -> GuildModel {
        GuildModel {
            unknown_uuid: self.UnknownUuid@,
            may_be_owner: self.MayBeOwner@,
            instance_ids: models(self.InstanceIds@),
            unknown: self.unknown,
            unknown_guid: models(self.UnknownGuid@),
            unknown_guid2: models(self.UnknownGuid2@),
            base_camp_level: self.BaseCampLevel,
            guild_name: self.GuildName@,
            admin_player_uid: self.AdminPlayerUId@,
            guild_player_info: models(self.GuildPlayerInfo@),
        }
    }
}

/// Whether a guild record can be written: every identifier has sixteen
/// bytes, every text fits its prefix, and every count fits 32 bits.
#[verifier::opaque]
pub open spec fn guild_valid(m: GuildModel) -> bool {
    &&& m.unknown_uuid.len() == 16
    &&& fstring_fits(m.may_be_owner)
    &&& array_valid::<FPalInstanceId>(m.instance_ids)
    &&& array_valid::<Guid>(m.unknown_guid)
    &&& array_valid::<Guid>(m.unknown_guid2)
    &&& fstring_fits(m.guild_name)
    &&& m.admin_player_uid.len() == 16
    &&& array_valid::<FPalGuildPlayerInfo>(m.guild_player_info)
}

/// The wire form of a guild record, its ten fields in their fixed order:
/// the leading identifier, the owner, the instance identifiers, the
/// reserved byte, the two arrays of identifiers, the base-camp level, the
/// guild name, the admin, the members.
pub open spec fn guild_wire(m: GuildModel) -> Seq<u8> {
    swizzle(m.unknown_uuid) + encode_fstring(m.may_be_owner) + array_wire::<FPalInstanceId>(
        m.instance_ids,
    ) + seq![m.unknown] + array_wire::<Guid>(m.unknown_guid) + array_wire::<Guid>(
        m.unknown_guid2,
    ) + u32_le(m.base_camp_level) + encode_fstring(m.guild_name) + swizzle(m.admin_player_uid)
        + array_wire::<FPalGuildPlayerInfo>(m.guild_player_info)
}

/// The guild record that is encoded at `pos`: the ten fields are read in
/// order, and the first that cannot be read gives its error.
pub open spec fn guild_at(buf: Seq<u8>, pos: int) -> Result<(GuildModel, int), CodecError> {
    match guid_at(buf, pos) {
        Err(e) => Err(e),
        Ok((unknown_uuid, at1)) => match fstring_at(buf, at1) {
            Err(e) => Err(e),
            Ok((may_be_owner, at2)) => match array_at::<FPalInstanceId>(buf, at2) {
                Err(e) => Err(e),
                Ok((instance_ids, at3)) => match u8_at(buf, at3) {
                    Err(e) => Err(e),
                    Ok((unknown, at4)) => match array_at::<Guid>(buf, at4) {
                        Err(e) => Err(e),
                        Ok((unknown_guid, at5)) => match array_at::<Guid>(buf, at5) {
                            Err(e) => Err(e),
                            Ok((unknown_guid2, at6)) => match u32_at(buf, at6) {
                                Err(e) => Err(e),
                                Ok((base_camp_level, at7)) => match fstring_at(buf, at7) {
                                    Err(e) => Err(e),
                                    Ok((guild_name, at8)) => match guid_at(buf, at8) {
                                        Err(e) => Err(e),
                                        Ok((admin_player_uid, at9)) => match array_at::<
                                            FPalGuildPlayerInfo,
                                        >(buf, at9) {
                                            Err(e) => Err(e),
                                            Ok((guild_player_info, at10)) => Ok(
                                                (
                                                    GuildModel {
                                                        unknown_uuid,
                                                        may_be_owner,
                                                        instance_ids,
                                                        unknown,
                                                        unknown_guid,
                                                        base_camp_level,
                                                        unknown_guid2,
                                                        guild_name,
                                                        admin_player_uid,
                                                        guild_player_info,
                                                    },
                                                    at10,
                                                ),
                                            ),
                                        },
                                    },
                                },
                            },
                        },
                    },
                },
            },
        },
    }
}

/// Reads the ten fields; where one fails the stream stays where it got to.
fn read_guild_fields(s: &mut Stream) -> (r: Result<GroupGuildSave, CodecError>)
    ensures
        0 <= old(s).offset() <= old(s).bytes().len(),
        final(s).bytes() == old(s).bytes(),
        match guild_at(old(s).bytes(), old(s).offset()) {
            Ok((m, next)) => r matches Ok(got) && got@ == m && final(s).offset() == next,
            Err(e) => r == Err::<GroupGuildSave, CodecError>(e),
        },
{
    let unknown_uuid = read_uuid(s)?;
    let may_be_owner = read_fstring(s)?;
    let instance_ids = read_tarray::<FPalInstanceId>(s)?;
    let unknown = s.read_u8()?;
    let unknown_guid = read_tarray::<Guid>(s)?;
    let unknown_guid2 = read_tarray::<Guid>(s)?;
    let base_camp_level = s.read_u32()?;
    let guild_name = read_fstring(s)?;
    let admin_player_uid = read_uuid(s)?;
    let guild_player_info = read_tarray::<FPalGuildPlayerInfo>(s)?;
    Ok(
        GroupGuildSave {
            UnknownUuid: unknown_uuid,
            MayBeOwner: may_be_owner,
            InstanceIds: instance_ids,
            unknown,
            UnknownGuid: unknown_guid,
            UnknownGuid2: unknown_guid2,
            BaseCampLevel: base_camp_level,
            GuildName: guild_name,
            AdminPlayerUId: admin_player_uid,
            GuildPlayerInfo: guild_player_info,
        },
    )
}

/// Reads a guild record. Any field that cannot be read in full fails the
/// whole record, and the stream is left where it was. A record that stood
/// in its canonical form can be written, and is then written as the bytes
/// it was read from.
pub fn read_group_guild_save(s: &mut Stream) -> (r: Result<GroupGuildSave, CodecError>)
    ensures
        final(s).bytes() == old(s).bytes(),
        match guild_at(old(s).bytes(), old(s).offset()) {
            Ok((m, next)) => r matches Ok(got) && got@ == m && final(s).offset() == next,
            Err(e) => r == Err::<GroupGuildSave, CodecError>(e) && final(s).offset() == old(
                s,
            ).offset(),
        },
        guild_canonical_at(old(s).bytes(), old(s).offset()) ==> (r matches Ok(got) && guild_valid(
            got@,
        ) && guild_wire(got@) == old(s).bytes().subrange(old(s).offset(), final(s).offset())),
{
    let start: usize = s.position();
    proof {
        if guild_canonical_at(s.bytes(), s.offset()) {
            lemma_guild_recode(s.bytes(), s.offset());
            crate::stream::lemma_take_at_holds(
                s.bytes(),
                s.offset(),
                guild_wire(guild_at(s.bytes(), s.offset())->Ok_0.0),
            );
        }
    }
    match read_guild_fields(s) {
        Ok(guild) => Ok(guild),
        Err(e) => {
            s.rewind(start);
            Err(e)
        },
    }
}

/// Whether every member of a guild can be written.
fn members_fit(members: &Vec<FPalGuildPlayerInfo>) -> (r: bool)
    ensures
        r == array_valid::<FPalGuildPlayerInfo>(models(members@)),
{
    if members.len() > 0xffff_ffff {
        return false;
    }
    let mut i: usize = 0;
    while i < members.len()
        invariant
            i <= members@.len(),
            members@.len() <= u32::MAX,
            forall|k: int| 0 <= k < i ==> player_info_valid(#[trigger] models(members@)[k]),
        decreases members@.len() - i,
    {
        if !fits_fstring(members[i].PlayerName.as_str()) {
            assert(!player_info_valid(models(members@)[i as int]));
            return false;
        }
        assert(player_info_valid(models(members@)[i as int]));
        i = i + 1;
    }
    true
}

/// Whether a guild record can be written: whether it is `guild_valid`.
pub fn guild_fits(group_guild_save: &GroupGuildSave) -> (r: bool)
    ensures
        r == guild_valid(group_guild_save@),
{
    let g = group_guild_save;
    proof {
        reveal(guild_valid);
    }
    assert(forall|i: int|
        0 <= i < g.InstanceIds@.len() ==> <FPalInstanceId as Wire>::valid(
            #[trigger] models(g.InstanceIds@)[i],
        ));
    assert(forall|i: int|
        0 <= i < g.UnknownGuid@.len() ==> <Guid as Wire>::valid(
            #[trigger] models(g.UnknownGuid@)[i],
        ));
    assert(forall|i: int|
        0 <= i < g.UnknownGuid2@.len() ==> <Guid as Wire>::valid(
            #[trigger] models(g.UnknownGuid2@)[i],
        ));
    fits_fstring(g.MayBeOwner.as_str()) && g.InstanceIds.len() <= 0xffff_ffff
        && g.UnknownGuid.len() <= 0xffff_ffff && g.UnknownGuid2.len() <= 0xffff_ffff
        && fits_fstring(g.GuildName.as_str()) && members_fit(&g.GuildPlayerInfo)
}

/// The wire form of an array of identifiers.
fn write_guid_array(items: &Vec<Guid>) -> (bytes: Vec<u8>)
    requires
        items@.len() <= u32::MAX,
    ensures
        bytes@ == array_wire::<Guid>(models(items@)),
{
    let bytes = write_tarray(items.as_slice(), write_uuid);
    proof {
        let parts = choose|parts: Seq<Vec<u8>>|
            {
                &&& parts.len() == items@.len()
                &&& forall|i: int|
                    0 <= i < items@.len() ==> call_ensures(
                        write_uuid,
                        (&items@[i],),
                        #[trigger] parts[i],
                    )
                &&& bytes@ == u32_le(items@.len() as u32) + crate::wire::joined(parts)
            };
        lemma_joined_is_elems_wire::<Guid>(items@, parts);
    }
    bytes
}

/// The wire form of an array of instance identifiers.
fn write_instance_id_array(items: &Vec<FPalInstanceId>) -> (bytes: Vec<u8>)
    requires
        items@.len() <= u32::MAX,
    ensures
        bytes@ == array_wire::<FPalInstanceId>(models(items@)),
{
    let bytes = write_tarray(items.as_slice(), write_fpal_instance_id);
    proof {
        let parts = choose|parts: Seq<Vec<u8>>|
            {
                &&& parts.len() == items@.len()
                &&& forall|i: int|
                    0 <= i < items@.len() ==> call_ensures(
                        write_fpal_instance_id,
                        (&items@[i],),
                        #[trigger] parts[i],
                    )
                &&& bytes@ == u32_le(items@.len() as u32) + crate::wire::joined(parts)
            };
        lemma_joined_is_elems_wire::<FPalInstanceId>(items@, parts);
    }
    bytes
}

/// The wire form of an array of guild members.
fn write_player_info_array(items: &Vec<FPalGuildPlayerInfo>) -> (bytes: Vec<u8>)
    requires
        array_valid::<FPalGuildPlayerInfo>(models(items@)),
    ensures
        bytes@ == array_wire::<FPalGuildPlayerInfo>(models(items@)),
{
    assert forall|i: int| 0 <= i < items@.len() implies call_requires(
        write_fpal_guild_player_info,
        (&#[trigger] items@[i],),
    ) by {
        assert(player_info_valid(models(items@)[i]));
    }
    let bytes = write_tarray(items.as_slice(), write_fpal_guild_player_info);
    proof {
        let parts = choose|parts: Seq<Vec<u8>>|
            {
                &&& parts.len() == items@.len()
                &&& forall|i: int|
                    0 <= i < items@.len() ==> call_ensures(
                        write_fpal_guild_player_info,
                        (&items@[i],),
                        #[trigger] parts[i],
                    )
                &&& bytes@ == u32_le(items@.len() as u32) + crate::wire::joined(parts)
            };
        lemma_joined_is_elems_wire::<FPalGuildPlayerInfo>(items@, parts);
    }
    bytes
}

/// The wire form of a guild record, which reads back as the record.
pub fn write_group_guild_save(group_guild_save: &GroupGuildSave) -> (bytes: Vec<u8>)
    requires
        guild_valid(group_guild_save@),
    ensures
        bytes@ == guild_wire(group_guild_save@),
        guild_at(bytes@, 0) == Ok::<(GuildModel, int), CodecError>(
            (group_guild_save@, bytes@.len() as int),
        ),
{
    proof {
        reveal(guild_valid);
        lemma_guild_round_trip(group_guild_save@);
    }
    let g = group_guild_save;
    let mut bytes: Vec<u8> = Vec::new();
    push_bytes(&mut bytes, write_uuid(&g.UnknownUuid).as_slice());
    push_bytes(&mut bytes, write_fstring(g.MayBeOwner.as_str()).as_slice());
    push_bytes(&mut bytes, write_instance_id_array(&g.InstanceIds).as_slice());
    bytes.push(g.unknown);
    push_bytes(&mut bytes, write_guid_array(&g.UnknownGuid).as_slice());
    push_bytes(&mut bytes, write_guid_array(&g.UnknownGuid2).as_slice());
    push_u32(&mut bytes, g.BaseCampLevel);
    push_bytes(&mut bytes, write_fstring(g.GuildName.as_str()).as_slice());
    push_bytes(&mut bytes, write_uuid(&g.AdminPlayerUId).as_slice());
    push_bytes(&mut bytes, write_player_info_array(&g.GuildPlayerInfo).as_slice());
    assert(bytes@ =~= guild_wire(g@));
    bytes
}

/// Where ten parts stand one behind the other, each stands at its own place.
proof fn lemma_ten_parts_hold(
    buf: Seq<u8>,
    pos: int,
    f1: Seq<u8>,
    f2: Seq<u8>,
    f3: Seq<u8>,
    f4: Seq<u8>,
    f5: Seq<u8>,
    f6: Seq<u8>,
    f7: Seq<u8>,
    f8: Seq<u8>,
    f9: Seq<u8>,
    f10: Seq<u8>,
)
    requires
        holds_at(buf, pos, f1 + f2 + f3 + f4 + f5 + f6 + f7 + f8 + f9 + f10),
    ensures
        holds_at(buf, pos, f1),
        holds_at(buf, pos + f1.len(), f2),
        holds_at(buf, pos + f1.len() + f2.len(), f3),
        holds_at(buf, pos + f1.len() + f2.len() + f3.len(), f4),
        holds_at(buf, pos + f1.len() + f2.len() + f3.len() + f4.len(), f5),
        holds_at(buf, pos + f1.len() + f2.len() + f3.len() + f4.len() + f5.len(), f6),
        holds_at(
            buf,
            pos + f1.len() + f2.len() + f3.len() + f4.len() + f5.len() + f6.len(),
            f7,
        ),
        holds_at(
            buf,
            pos + f1.len() + f2.len() + f3.len() + f4.len() + f5.len() + f6.len() + f7.len(),
            f8,
        ),
        holds_at(
            buf,
            pos + f1.len() + f2.len() + f3.len() + f4.len() + f5.len() + f6.len() + f7.len()
                + f8.len(),
            f9,
        ),
        holds_at(
            buf,
            pos + f1.len() + f2.len() + f3.len() + f4.len() + f5.len() + f6.len() + f7.len()
                + f8.len() + f9.len(),
            f10,
        ),
        (f1 + f2 + f3 + f4 + f5 + f6 + f7 + f8 + f9 + f10).len() == f1.len() + f2.len() + f3.len()
            + f4.len() + f5.len() + f6.len() + f7.len() + f8.len() + f9.len() + f10.len(),
{
    lemma_holds_at_split(buf, pos, f1 + f2 + f3 + f4 + f5 + f6 + f7 + f8 + f9, f10);
    lemma_holds_at_split(buf, pos, f1 + f2 + f3 + f4 + f5 + f6 + f7 + f8, f9);
    lemma_holds_at_split(buf, pos, f1 + f2 + f3 + f4 + f5 + f6 + f7, f8);
    lemma_holds_at_split(buf, pos, f1 + f2 + f3 + f4 + f5 + f6, f7);
    lemma_holds_at_split(buf, pos, f1 + f2 + f3 + f4 + f5, f6);
    lemma_holds_at_split(buf, pos, f1 + f2 + f3 + f4, f5);
    lemma_holds_at_split(buf, pos, f1 + f2 + f3, f4);
    lemma_holds_at_split(buf, pos, f1 + f2, f3);
    lemma_holds_at_split(buf, pos, f1, f2);
}

/// Where the ten fields are read one behind the other, the record is read.
proof fn lemma_guild_from_fields(
    buf: Seq<u8>,
    pos: int,
    m: GuildModel,
    at1: int,
    at2: int,
    at3: int,
    at4: int,
    at5: int,
    at6: int,
    at7: int,
    at8: int,
    at9: int,
    at10: int,
)
    requires
        guid_at(buf, pos) == Ok::<(Seq<u8>, int), CodecError>((m.unknown_uuid, at1)),
        fstring_at(buf, at1) == Ok::<(Seq<char>, int), CodecError>((m.may_be_owner, at2)),
        array_at::<FPalInstanceId>(buf, at2) == Ok::<(Seq<InstanceIdModel>, int), CodecError>(
            (m.instance_ids, at3),
        ),
        u8_at(buf, at3) == Ok::<(u8, int), CodecError>((m.unknown, at4)),
        array_at::<Guid>(buf, at4) == Ok::<(Seq<Seq<u8>>, int), CodecError>((m.unknown_guid, at5)),
        array_at::<Guid>(buf, at5) == Ok::<(Seq<Seq<u8>>, int), CodecError>(
            (m.unknown_guid2, at6),
        ),
        u32_at(buf, at6) == Ok::<(u32, int), CodecError>((m.base_camp_level, at7)),
        fstring_at(buf, at7) == Ok::<(Seq<char>, int), CodecError>((m.guild_name, at8)),
        guid_at(buf, at8) == Ok::<(Seq<u8>, int), CodecError>((m.admin_player_uid, at9)),
        array_at::<FPalGuildPlayerInfo>(buf, at9) == Ok::<(Seq<PlayerInfoModel>, int), CodecError>(
            (m.guild_player_info, at10),
        ),
    ensures
        guild_at(buf, pos) == Ok::<(GuildModel, int), CodecError>((m, at10)),
{
}

/// The first five fields of a valid guild record are read back where they
/// were written.
proof fn lemma_guild_first_fields(
    buf: Seq<u8>,
    pos: int,
    m: GuildModel,
    at1: int,
    at2: int,
    at3: int,
    at4: int,
    at5: int,
)
    requires
        guild_valid(m),
        holds_at(buf, pos, swizzle(m.unknown_uuid)),
        holds_at(buf, at1, encode_fstring(m.may_be_owner)),
        holds_at(buf, at2, array_wire::<FPalInstanceId>(m.instance_ids)),
        holds_at(buf, at3, seq![m.unknown]),
        holds_at(buf, at4, array_wire::<Guid>(m.unknown_guid)),
        at1 == pos + swizzle(m.unknown_uuid).len(),
        at2 == at1 + encode_fstring(m.may_be_owner).len(),
        at3 == at2 + array_wire::<FPalInstanceId>(m.instance_ids).len(),
        at4 == at3 + seq![m.unknown].len(),
        at5 == at4 + array_wire::<Guid>(m.unknown_guid).len(),
    ensures
        guid_at(buf, pos) == Ok::<(Seq<u8>, int), CodecError>((m.unknown_uuid, at1)),
        fstring_at(buf, at1) == Ok::<(Seq<char>, int), CodecError>((m.may_be_owner, at2)),
        array_at::<FPalInstanceId>(buf, at2) == Ok::<(Seq<InstanceIdModel>, int), CodecError>(
            (m.instance_ids, at3),
        ),
        u8_at(buf, at3) == Ok::<(u8, int), CodecError>((m.unknown, at4)),
        array_at::<Guid>(buf, at4) == Ok::<(Seq<Seq<u8>>, int), CodecError>((m.unknown_guid, at5)),
{
    reveal(guild_valid);
    Guid::lemma_wire_at_holds(buf, pos, m.unknown_uuid);
    lemma_fstring_at_holds(buf, at1, m.may_be_owner);
    lemma_array_at_holds::<FPalInstanceId>(buf, at2, m.instance_ids);
    lemma_u8_at_holds(buf, at3, m.unknown);
    lemma_array_at_holds::<Guid>(buf, at4, m.unknown_guid);
}

/// The last five fields of a valid guild record are read back where they
/// were written.
proof fn lemma_guild_last_fields(
    buf: Seq<u8>,
    m: GuildModel,
    at5: int,
    at6: int,
    at7: int,
    at8: int,
    at9: int,
    at10: int,
)
    requires
        guild_valid(m),
        holds_at(buf, at5, array_wire::<Guid>(m.unknown_guid2)),
        holds_at(buf, at6, u32_le(m.base_camp_level)),
        holds_at(buf, at7, encode_fstring(m.guild_name)),
        holds_at(buf, at8, swizzle(m.admin_player_uid)),
        holds_at(buf, at9, array_wire::<FPalGuildPlayerInfo>(m.guild_player_info)),
        at6 == at5 + array_wire::<Guid>(m.unknown_guid2).len(),
        at7 == at6 + u32_le(m.base_camp_level).len(),
        at8 == at7 + encode_fstring(m.guild_name).len(),
        at9 == at8 + swizzle(m.admin_player_uid).len(),
        at10 == at9 + array_wire::<FPalGuildPlayerInfo>(m.guild_player_info).len(),
    ensures
        array_at::<Guid>(buf, at5) == Ok::<(Seq<Seq<u8>>, int), CodecError>(
            (m.unknown_guid2, at6),
        ),
        u32_at(buf, at6) == Ok::<(u32, int), CodecError>((m.base_camp_level, at7)),
        fstring_at(buf, at7) == Ok::<(Seq<char>, int), CodecError>((m.guild_name, at8)),
        guid_at(buf, at8) == Ok::<(Seq<u8>, int), CodecError>((m.admin_player_uid, at9)),
        array_at::<FPalGuildPlayerInfo>(buf, at9) == Ok::<(Seq<PlayerInfoModel>, int), CodecError>(
            (m.guild_player_info, at10),
        ),
{
    reveal(guild_valid);
    lemma_array_at_holds::<Guid>(buf, at5, m.unknown_guid2);
    lemma_u32_at_holds(buf, at6, m.base_camp_level);
    lemma_fstring_at_holds(buf, at7, m.guild_name);
    Guid::lemma_wire_at_holds(buf, at8, m.admin_player_uid);
    lemma_array_at_holds::<FPalGuildPlayerInfo>(buf, at9, m.guild_player_info);
}

/// A valid guild record that was written at `pos` is read back there.
#[verifier::rlimit(40)]
pub proof fn lemma_guild_at_holds(buf: Seq<u8>, pos: int, m: GuildModel)
    requires
        guild_valid(m),
        holds_at(buf, pos, guild_wire(m)),
    ensures
        guild_at(buf, pos) == Ok::<(GuildModel, int), CodecError>((m, pos + guild_wire(m).len())),
{
    let f1 = swizzle(m.unknown_uuid);
    let f2 = encode_fstring(m.may_be_owner);
    let f3 = array_wire::<FPalInstanceId>(m.instance_ids);
    let f4 = seq![m.unknown];
    let f5 = array_wire::<Guid>(m.unknown_guid);
    let f6 = array_wire::<Guid>(m.unknown_guid2);
    let f7 = u32_le(m.base_camp_level);
    let f8 = encode_fstring(m.guild_name);
    let f9 = swizzle(m.admin_player_uid);
    let f10 = array_wire::<FPalGuildPlayerInfo>(m.guild_player_info);
    lemma_ten_parts_hold(buf, pos, f1, f2, f3, f4, f5, f6, f7, f8, f9, f10);
    let at1 = pos + f1.len();
    let at2 = at1 + f2.len();
    let at3 = at2 + f3.len();
    let at4 = at3 + f4.len();
    let at5 = at4 + f5.len();
    let at6 = at5 + f6.len();
    let at7 = at6 + f7.len();
    let at8 = at7 + f8.len();
    let at9 = at8 + f9.len();
    let at10 = at9 + f10.len();
    lemma_guild_first_fields(buf, pos, m, at1, at2, at3, at4, at5);
    lemma_guild_last_fields(buf, m, at5, at6, at7, at8, at9, at10);
    lemma_guild_from_fields(buf, pos, m, at1, at2, at3, at4, at5, at6, at7, at8, at9, at10);
}

/// Where the ten fields of the guild record at `pos` end, one after the
/// other, as far as they can be read.
pub open spec fn guild_cuts(buf: Seq<u8>, pos: int) -> Seq<int> {
    let at1 = guid_at(buf, pos)->Ok_0.1;
    let at2 = fstring_at(buf, at1)->Ok_0.1;
    let at3 = array_at::<FPalInstanceId>(buf, at2)->Ok_0.1;
    let at4 = u8_at(buf, at3)->Ok_0.1;
    let at5 = array_at::<Guid>(buf, at4)->Ok_0.1;
    let at6 = array_at::<Guid>(buf, at5)->Ok_0.1;
    let at7 = u32_at(buf, at6)->Ok_0.1;
    let at8 = fstring_at(buf, at7)->Ok_0.1;
    let at9 = guid_at(buf, at8)->Ok_0.1;
    let at10 = array_at::<FPalGuildPlayerInfo>(buf, at9)->Ok_0.1;
    seq![at1, at2, at3, at4, at5, at6, at7, at8, at9, at10]
}

/// Whether the guild record at `pos` can be read and stands there in the
/// form that the writer gives it: its owner, its name and the names of its
/// members stand in their canonical form. Every other field has one form
/// only.
pub open spec fn guild_canonical_at(buf: Seq<u8>, pos: int) -> bool {
    &&& guild_at(buf, pos) is Ok
    &&& fstring_canonical_at(buf, guild_cuts(buf, pos)[0])
    &&& fstring_canonical_at(buf, guild_cuts(buf, pos)[6])
    &&& array_canonical_at::<FPalGuildPlayerInfo>(buf, guild_cuts(buf, pos)[8])
}

/// Where a guild record is read, its ten fields are read one behind the
/// other.
proof fn lemma_guild_fields_read(buf: Seq<u8>, pos: int)
    requires
        guild_at(buf, pos) is Ok,
    ensures
        ({
            let m = guild_at(buf, pos)->Ok_0.0;
            let c = guild_cuts(buf, pos);
            &&& guid_at(buf, pos) == Ok::<(Seq<u8>, int), CodecError>((m.unknown_uuid, c[0]))
            &&& fstring_at(buf, c[0]) == Ok::<(Seq<char>, int), CodecError>(
                (m.may_be_owner, c[1]),
            )
            &&& array_at::<FPalInstanceId>(buf, c[1]) == Ok::<
                (Seq<InstanceIdModel>, int),
                CodecError,
            >((m.instance_ids, c[2]))
            &&& u8_at(buf, c[2]) == Ok::<(u8, int), CodecError>((m.unknown, c[3]))
            &&& array_at::<Guid>(buf, c[3]) == Ok::<(Seq<Seq<u8>>, int), CodecError>(
                (m.unknown_guid, c[4]),
            )
            &&& array_at::<Guid>(buf, c[4]) == Ok::<(Seq<Seq<u8>>, int), CodecError>(
                (m.unknown_guid2, c[5]),
            )
            &&& u32_at(buf, c[5]) == Ok::<(u32, int), CodecError>((m.base_camp_level, c[6]))
            &&& fstring_at(buf, c[6]) == Ok::<(Seq<char>, int), CodecError>((m.guild_name, c[7]))
            &&& guid_at(buf, c[7]) == Ok::<(Seq<u8>, int), CodecError>(
                (m.admin_player_uid, c[8]),
            )
            &&& array_at::<FPalGuildPlayerInfo>(buf, c[8]) == Ok::<
                (Seq<PlayerInfoModel>, int),
                CodecError,
            >((m.guild_player_info, c[9]))
            &&& guild_at(buf, pos)->Ok_0.1 == c[9]
        }),
{
}

/// The first five fields of a guild record that is read from its canonical
/// form are valid and stand where they were read.
proof fn lemma_guild_first_recode(buf: Seq<u8>, pos: int, m: GuildModel, c: Seq<int>)
    requires
        0 <= pos,
        c.len() == 10,
        fstring_canonical_at(buf, c[0]),
        guid_at(buf, pos) == Ok::<(Seq<u8>, int), CodecError>((m.unknown_uuid, c[0])),
        fstring_at(buf, c[0]) == Ok::<(Seq<char>, int), CodecError>((m.may_be_owner, c[1])),
        array_at::<FPalInstanceId>(buf, c[1]) == Ok::<(Seq<InstanceIdModel>, int), CodecError>(
            (m.instance_ids, c[2]),
        ),
        u8_at(buf, c[2]) == Ok::<(u8, int), CodecError>((m.unknown, c[3])),
        array_at::<Guid>(buf, c[3]) == Ok::<(Seq<Seq<u8>>, int), CodecError>(
            (m.unknown_guid, c[4]),
        ),
    ensures
        m.unknown_uuid.len() == 16,
        fstring_fits(m.may_be_owner),
        array_valid::<FPalInstanceId>(m.instance_ids),
        array_valid::<Guid>(m.unknown_guid),
        holds_at(buf, pos, swizzle(m.unknown_uuid)),
        holds_at(buf, c[0], encode_fstring(m.may_be_owner)),
        holds_at(buf, c[1], array_wire::<FPalInstanceId>(m.instance_ids)),
        holds_at(buf, c[2], seq![m.unknown]),
        holds_at(buf, c[3], array_wire::<Guid>(m.unknown_guid)),
        c[0] == pos + swizzle(m.unknown_uuid).len(),
        c[1] == c[0] + encode_fstring(m.may_be_owner).len(),
        c[2] == c[1] + array_wire::<FPalInstanceId>(m.instance_ids).len(),
        c[3] == c[2] + seq![m.unknown].len(),
        c[4] == c[3] + array_wire::<Guid>(m.unknown_guid).len(),
        0 <= c[4],
{
    Guid::lemma_recode(buf, pos);
    lemma_fstring_recode(buf, c[0]);
    lemma_array_canonical::<FPalInstanceId>(buf, c[1]);
    lemma_array_recode::<FPalInstanceId>(buf, c[1]);
    lemma_u8_at_recode(buf, c[2]);
    lemma_array_canonical::<Guid>(buf, c[3]);
    lemma_array_recode::<Guid>(buf, c[3]);
}

/// The last five fields of a guild record that is read from its canonical
/// form are valid and stand where they were read.
proof fn lemma_guild_last_recode(buf: Seq<u8>, m: GuildModel, c: Seq<int>)
    requires
        c.len() == 10,
        0 <= c[4],
        fstring_canonical_at(buf, c[6]),
        array_canonical_at::<FPalGuildPlayerInfo>(buf, c[8]),
        array_at::<Guid>(buf, c[4]) == Ok::<(Seq<Seq<u8>>, int), CodecError>(
            (m.unknown_guid2, c[5]),
        ),
        u32_at(buf, c[5]) == Ok::<(u32, int), CodecError>((m.base_camp_level, c[6])),
        fstring_at(buf, c[6]) == Ok::<(Seq<char>, int), CodecError>((m.guild_name, c[7])),
        guid_at(buf, c[7]) == Ok::<(Seq<u8>, int), CodecError>((m.admin_player_uid, c[8])),
        array_at::<FPalGuildPlayerInfo>(buf, c[8]) == Ok::<(Seq<PlayerInfoModel>, int), CodecError>(
            (m.guild_player_info, c[9]),
        ),
    ensures
        array_valid::<Guid>(m.unknown_guid2),
        fstring_fits(m.guild_name),
        m.admin_player_uid.len() == 16,
        array_valid::<FPalGuildPlayerInfo>(m.guild_player_info),
        holds_at(buf, c[4], array_wire::<Guid>(m.unknown_guid2)),
        holds_at(buf, c[5], u32_le(m.base_camp_level)),
        holds_at(buf, c[6], encode_fstring(m.guild_name)),
        holds_at(buf, c[7], swizzle(m.admin_player_uid)),
        holds_at(buf, c[8], array_wire::<FPalGuildPlayerInfo>(m.guild_player_info)),
        c[5] == c[4] + array_wire::<Guid>(m.unknown_guid2).len(),
        c[6] == c[5] + u32_le(m.base_camp_level).len(),
        c[7] == c[6] + encode_fstring(m.guild_name).len(),
        c[8] == c[7] + swizzle(m.admin_player_uid).len(),
        c[9] == c[8] + array_wire::<FPalGuildPlayerInfo>(m.guild_player_info).len(),
{
    lemma_array_canonical::<Guid>(buf, c[4]);
    lemma_array_recode::<Guid>(buf, c[4]);
    lemma_u32_at_recode(buf, c[5]);
    lemma_fstring_recode(buf, c[6]);
    Guid::lemma_recode(buf, c[7]);
    lemma_array_recode::<FPalGuildPlayerInfo>(buf, c[8]);
}

/// Where ten parts each stand at their place, one behind the other, the ten
/// stand there as one.
proof fn lemma_ten_parts_join(
    buf: Seq<u8>,
    pos: int,
    f1: Seq<u8>,
    f2: Seq<u8>,
    f3: Seq<u8>,
    f4: Seq<u8>,
    f5: Seq<u8>,
    f6: Seq<u8>,
    f7: Seq<u8>,
    f8: Seq<u8>,
    f9: Seq<u8>,
    f10: Seq<u8>,
)
    requires
        holds_at(buf, pos, f1),
        holds_at(buf, pos + f1.len(), f2),
        holds_at(buf, pos + f1.len() + f2.len(), f3),
        holds_at(buf, pos + f1.len() + f2.len() + f3.len(), f4),
        holds_at(buf, pos + f1.len() + f2.len() + f3.len() + f4.len(), f5),
        holds_at(buf, pos + f1.len() + f2.len() + f3.len() + f4.len() + f5.len(), f6),
        holds_at(
            buf,
            pos + f1.len() + f2.len() + f3.len() + f4.len() + f5.len() + f6.len(),
            f7,
        ),
        holds_at(
            buf,
            pos + f1.len() + f2.len() + f3.len() + f4.len() + f5.len() + f6.len() + f7.len(),
            f8,
        ),
        holds_at(
            buf,
            pos + f1.len() + f2.len() + f3.len() + f4.len() + f5.len() + f6.len() + f7.len()
                + f8.len(),
            f9,
        ),
        holds_at(
            buf,
            pos + f1.len() + f2.len() + f3.len() + f4.len() + f5.len() + f6.len() + f7.len()
                + f8.len() + f9.len(),
            f10,
        ),
    ensures
        holds_at(buf, pos, f1 + f2 + f3 + f4 + f5 + f6 + f7 + f8 + f9 + f10),
        (f1 + f2 + f3 + f4 + f5 + f6 + f7 + f8 + f9 + f10).len() == f1.len() + f2.len() + f3.len()
            + f4.len() + f5.len() + f6.len() + f7.len() + f8.len() + f9.len() + f10.len(),
{
    lemma_holds_at_join(buf, pos, f1, f2);
    lemma_holds_at_join(buf, pos, f1 + f2, f3);
    lemma_holds_at_join(buf, pos, f1 + f2 + f3, f4);
    lemma_holds_at_join(buf, pos, f1 + f2 + f3 + f4, f5);
    lemma_holds_at_join(buf, pos, f1 + f2 + f3 + f4 + f5, f6);
    lemma_holds_at_join(buf, pos, f1 + f2 + f3 + f4 + f5 + f6, f7);
    lemma_holds_at_join(buf, pos, f1 + f2 + f3 + f4 + f5 + f6 + f7, f8);
    lemma_holds_at_join(buf, pos, f1 + f2 + f3 + f4 + f5 + f6 + f7 + f8, f9);
    lemma_holds_at_join(buf, pos, f1 + f2 + f3 + f4 + f5 + f6 + f7 + f8 + f9, f10);
}

/// A guild record that is read from its canonical form is valid, and is
/// written as the bytes it was read from: reading and then writing changes
/// no byte.
pub proof fn lemma_guild_recode(buf: Seq<u8>, pos: int)
    requires
        0 <= pos,
        guild_canonical_at(buf, pos),
    ensures
        guild_at(buf, pos) matches Ok((m, next)) && guild_valid(m) && holds_at(
            buf,
            pos,
            guild_wire(m),
        ) && next == pos + guild_wire(m).len(),
{
    let m = guild_at(buf, pos)->Ok_0.0;
    let c = guild_cuts(buf, pos);
    lemma_guild_fields_read(buf, pos);
    lemma_guild_first_recode(buf, pos, m, c);
    lemma_guild_last_recode(buf, m, c);
    lemma_ten_parts_join(
        buf,
        pos,
        swizzle(m.unknown_uuid),
        encode_fstring(m.may_be_owner),
        array_wire::<FPalInstanceId>(m.instance_ids),
        seq![m.unknown],
        array_wire::<Guid>(m.unknown_guid),
        array_wire::<Guid>(m.unknown_guid2),
        u32_le(m.base_camp_level),
        encode_fstring(m.guild_name),
        swizzle(m.admin_player_uid),
        array_wire::<FPalGuildPlayerInfo>(m.guild_player_info),
    );
    reveal(guild_valid);
}

/// Every valid guild record survives writing and reading: decoding its wire
/// form gives the record back and uses the wire form up.
pub proof fn lemma_guild_round_trip(m: GuildModel)
    requires
        guild_valid(m),
    ensures
        guild_at(guild_wire(m), 0) == Ok::<(GuildModel, int), CodecError>(
            (m, guild_wire(m).len() as int),
        ),
{
    let wire = guild_wire(m);
    crate::stream::lemma_holds_at_self(wire);
    lemma_guild_at_holds(wire, 0, m);
}

} // verus!
