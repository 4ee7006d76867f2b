//! The character record: a property list, four reserved bytes, and the
//! identifier of the group that the character belongs to.
use vstd::prelude::*;
use crate::error::CodecError;
use crate::guid::{guid_at, read_uuid, swizzle, write_uuid, Guid};
use crate::stream::{
    lemma_holds_at_self, lemma_holds_at_split, lemma_take_at_holds, push_bytes, stream,
    take_at,
};
use crate::wire::Wire;

verus! {

/// One character record. The property list is kept in its wire form, up to
/// and with its terminator: what it means is for the property reader to say.
#[derive(Debug, Clone, PartialEq, Eq)]
pub struct CharacterSaveParameter {
    pub properties: Vec<u8>,
    pub group_id: Guid,
}

/// The model of a character record.
pub struct CharacterModel {
    pub properties: Seq<u8>,
    pub group_id: Seq<u8>,
}

impl View for CharacterSaveParameter {
    type V = CharacterModel;

    open spec fn view(&self) -> CharacterModel {
        CharacterModel { properties: self.properties@, group_id: self.group_id@ }
    }
}

/// The four reserved bytes, which are always written as zero.
pub open spec fn reserved() -> Seq<u8> {
    seq![0u8, 0u8, 0u8, 0u8]
}

/// The wire form of a character record: the property list, the reserved
/// bytes, the group identifier.
pub open spec fn character_wire(m: CharacterModel) -> Seq<u8> {
    m.properties + reserved() + swizzle(m.group_id)
}

/// The character record whose property list takes the first
/// `properties_len` bytes of `buf`. A list that is longer than the record is
/// `MalformedProperty`: no reader of these bytes can have found it. The
/// reserved bytes are skipped, whatever they hold; what follows the
/// identifier is not looked at.
pub open spec fn character_at(buf: Seq<u8>, properties_len: int) -> Result<
    CharacterModel,
    CodecError,
> {
    if properties_len > buf.len() {
        Err(CodecError::MalformedProperty)
    } else {
        match take_at(buf, properties_len, 4) {
            Err(e) => Err(e),
            Ok((_, at2)) => match guid_at(buf, at2) {
                Err(e) => Err(e),
                Ok((group_id, _)) => Ok(
                    CharacterModel { properties: buf.subrange(0, properties_len), group_id },
                ),
            },
        }
    }
}

/// Reads a character record, given the length that the property reader found
/// the property list to have.
pub fn read_raw_character_save_parameter(
    bytes: &[u8],
    properties_len: usize,
) -> (r: Result<CharacterSaveParameter, CodecError>)
    ensures
        match character_at(bytes@, properties_len as int) {
            Ok(m) => r matches Ok(got) && got@ == m,
            Err(e) => r == Err::<CharacterSaveParameter, CodecError>(e),
        },
{
    if properties_len > bytes.len() {
        return Err(CodecError::MalformedProperty);
    }
    let mut s = stream(bytes);
    let properties = s.take(properties_len)?;
    let _reserved = s.take(4)?;
    let group_id = read_uuid(&mut s)?;
    Ok(CharacterSaveParameter { properties: vstd::slice::slice_to_vec(properties), group_id })
}

/// The wire form of a character record, which reads back as the record.
pub fn write_raw_character_save_parameter(
    character_save_parameter: &CharacterSaveParameter,
) -> (bytes: Vec<u8>)
    ensures
        bytes@ == character_wire(character_save_parameter@),
        character_at(bytes@, character_save_parameter.properties@.len() as int) == Ok::<
            CharacterModel,
            CodecError,
        >(character_save_parameter@),
{
    proof {
        lemma_character_round_trip(character_save_parameter@);
    }
    let mut bytes: Vec<u8> = Vec::new();
    push_bytes(&mut bytes, character_save_parameter.properties.as_slice());
    bytes.push(0);
    bytes.push(0);
    bytes.push(0);
    bytes.push(0);
    push_bytes(&mut bytes, write_uuid(&character_save_parameter.group_id).as_slice());
    assert(bytes@ =~= character_wire(character_save_parameter@));
    bytes
}

/// Every character record survives writing and reading, given the length of
/// its property list.
pub proof fn lemma_character_round_trip(m: CharacterModel)
    requires
        m.group_id.len() == 16,
    ensures
        character_at(character_wire(m), m.properties.len() as int) == Ok::<
            CharacterModel,
            CodecError,
        >(m),
{
    let wire = character_wire(m);
    lemma_holds_at_self(wire);
    lemma_holds_at_split(wire, 0, m.properties + reserved(), swizzle(m.group_id));
    lemma_holds_at_split(wire, 0, m.properties, reserved());
    lemma_take_at_holds(wire, 0, m.properties);
    lemma_take_at_holds(wire, m.properties.len() as int, reserved());
    Guid::lemma_wire_at_holds(wire, m.properties.len() as int + 4, m.group_id);
}

/// A character record whose reserved bytes are zero is written as the
/// bytes it was read from: reading and then writing changes no byte.
pub proof fn lemma_character_recode(buf: Seq<u8>, properties_len: int)
    requires
        0 <= properties_len,
        character_at(buf, properties_len) is Ok,
        buf.subrange(properties_len, properties_len + 4) == reserved(),
    ensures
        character_at(buf, properties_len) matches Ok(m) && m.group_id.len() == 16
            && character_wire(m) == buf.subrange(0, properties_len + 20),
{
    let m = character_at(buf, properties_len)->Ok_0;
    let wire = buf.subrange(properties_len + 4, properties_len + 20);
    crate::guid::lemma_swizzle_involution(wire);
    assert(character_wire(m) =~= buf.subrange(0, properties_len + 20));
}

} // verus!
