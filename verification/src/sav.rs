//! The container around a save: two lengths, a magic tag, a compression
//! tier, and the payload, stored or deflated once or twice.
use vstd::prelude::*;
use crate::error::CodecError;
use crate::group_guild::{guild_at, read_group_guild_save, GroupGuildSave};
use crate::stream::{
    le_u32, lemma_holds_at_split, lemma_le_u32_round_trip, lemma_take_at_holds,
    lemma_u32_at_holds, lemma_u32_le_round_trip, lemma_u8_at_holds, push_bytes, push_u32, stream,
    take_at, u32_at, u32_le, u8_at,
};

verus! {

/// The tier of a payload that is stored as it is.
pub const TIER_STORED: u8 = 0x30;

/// The tier of a payload that is deflated once.
pub const TIER_DEFLATED: u8 = 0x31;

/// The tier of a payload that is deflated, and the result deflated again.
pub const TIER_DEFLATED_TWICE: u8 = 0x32;

/// A save as the container carries it: the tier it was, or is to be,
/// compressed with, and the property tree in its serialized form.
#[derive(Debug, Clone, PartialEq, Eq)]
pub struct PalSave {
    pub compression_type: u8,
    pub save: Vec<u8>,
}

/// The three bytes that every container carries behind its two lengths.
pub open spec fn magic() -> Seq<u8> {
    seq![0x50u8, 0x6Cu8, 0x5Au8]
}

/// Whether a tier is one of the three that are known.
pub open spec fn tier_known(tier: u8) -> bool {
    tier == TIER_STORED || tier == TIER_DEFLATED || tier == TIER_DEFLATED_TWICE
}

/// Why a zlib stream could not be inflated.
#[derive(Debug, Clone, Copy, PartialEq, Eq, Structural)]
pub enum StreamFault {
    /// The bytes end before the stream does.
    Incomplete,
    /// The bytes are not a zlib stream.
    Corrupt,
}

/// What inflating a zlib stream gives, or why it gives nothing.
pub uninterp spec fn zlib_inflated(data: Seq<u8>) -> Result<Seq<u8>, StreamFault>;

/// The error that a fault in the payload is reported as: a stream that ends
/// early is `Truncated` at the payload, any other fault is `Compression`.
pub open spec fn fault_error(fault: StreamFault) -> CodecError {
    match fault {
        StreamFault::Incomplete => CodecError::Truncated { offset: 12 },
        StreamFault::Corrupt => CodecError::Compression,
    }
}

/// The zlib stream that deflating at the default level makes of `data`;
/// `None` where the compressor reports an error.
pub uninterp spec fn zlib_deflated(data: Seq<u8>) -> Option<Seq<u8>>;

/// The header and the payload, one behind the other.
pub open spec fn framed(
    decompressed_len: u32,
    compressed_len: u32,
    tier: u8,
    payload: Seq<u8>,
) -> Seq<u8> {
    u32_le(decompressed_len) + u32_le(compressed_len) + magic() + seq![tier] + payload
}

/// The payload of a save under a tier: the save itself, the save deflated,
/// or the deflated save deflated again; `None` where the compressor fails.
pub open spec fn payload_of(tier: u8, inner: Seq<u8>) -> Option<Seq<u8>> {
    if tier == TIER_STORED {
        Some(inner)
    } else if tier == TIER_DEFLATED {
        zlib_deflated(inner)
    } else {
        match zlib_deflated(inner) {
            Some(once) => zlib_deflated(once),
            None => None,
        }
    }
}

/// Whether a save can be written under a tier: the tier is known, the
/// compressor gives a payload, and the lengths of the save and of the
/// payload both fit their 32-bit fields.
pub open spec fn container_fits(tier: u8, inner: Seq<u8>) -> bool {
    &&& tier_known(tier)
    &&& inner.len() <= u32::MAX
    &&& payload_of(tier, inner) matches Some(payload) && payload.len() <= u32::MAX
}

/// The container of a save that can be written: the length of the save, the
/// length of the payload, the magic tag, the tier, and the payload.
pub open spec fn container_wire(tier: u8, inner: Seq<u8>) -> Seq<u8>
    recommends
        container_fits(tier, inner),
{
    framed(
        inner.len() as u32,
        payload_of(tier, inner)->0.len() as u32,
        tier,
        payload_of(tier, inner)->0,
    )
}

/// What writing a save gives: the container where the save can be written;
/// `UnknownCompressionTier` for a tier that is not known; then
/// `ImplausibleLength` for a save that is too long for its field; then
/// `Compression` where the compressor fails; then `ImplausibleLength` for a
/// payload that is too long for its field.
pub open spec fn written(tier: u8, inner: Seq<u8>) -> Result<Seq<u8>, CodecError> {
    if !tier_known(tier) {
        Err(CodecError::UnknownCompressionTier)
    } else if inner.len() > u32::MAX {
        Err(CodecError::ImplausibleLength)
    } else {
        match payload_of(tier, inner) {
            None => Err(CodecError::Compression),
            Some(payload) => if payload.len() > u32::MAX {
                Err(CodecError::ImplausibleLength)
            } else {
                Ok(container_wire(tier, inner))
            },
        }
    }
}

/// The serialized save that a payload holds. The payload is all that
/// follows the twelve bytes of the header. Fewer bytes than the header
/// states are `Truncated`, under every tier; beyond that the stated length
/// plays no part. The payload is taken as it is, inflated once, or inflated
/// twice; a stream that cannot be inflated gives the error of its fault.
pub open spec fn payload_at(buf: Seq<u8>, tier: u8, stated: u32) -> Result<Seq<u8>, CodecError> {
    match take_at(buf, 12, stated as int) {
        Err(e) => Err(e),
        Ok(_) => {
            let payload = buf.subrange(12, buf.len() as int);
            if tier == TIER_STORED {
                Ok(payload)
            } else {
                match zlib_inflated(payload) {
                    Err(fault) => Err(fault_error(fault)),
                    Ok(once) => if tier == TIER_DEFLATED {
                        Ok(once)
                    } else {
                        match zlib_inflated(once) {
                            Err(fault) => Err(fault_error(fault)),
                            Ok(inner) => Ok(inner),
                        }
                    },
                }
            }
        },
    }
}

/// The tier and the serialized save that a container holds. The header is
/// checked field by field: a field that is cut short is `Truncated` at its
/// position, a wrong tag is `InvalidMagic`, a tier that is not known is
/// `UnknownCompressionTier`. The decompressed length is read and not
/// checked.
pub open spec fn container_at(buf: Seq<u8>) -> Result<(u8, Seq<u8>), CodecError> {
    match u32_at(buf, 0) {
        Err(e) => Err(e),
        Ok(_) => match u32_at(buf, 4) {
            Err(e) => Err(e),
            Ok((stated, _)) => match take_at(buf, 8, 3) {
                Err(e) => Err(e),
                Ok((tag, _)) => if tag != magic() {
                    Err(CodecError::InvalidMagic)
                } else {
                    match u8_at(buf, 11) {
                        Err(e) => Err(e),
                        Ok((tier, _)) => if !tier_known(tier) {
                            Err(CodecError::UnknownCompressionTier)
                        } else {
                            match payload_at(buf, tier, stated) {
                                Err(e) => Err(e),
                                Ok(inner) => Ok((tier, inner)),
                            }
                        },
                    }
                },
            },
        },
    }
}

/// `flate2::bufread::ZlibDecoder`, read to its end: the inflated bytes, or
/// the fault where the decoder reports an error. The decoder reports the
/// end of the input before the end of the stream as `UnexpectedEof`, which
/// is `Incomplete` here; any other error is `Corrupt`. The result depends
/// on the bytes alone.
#[verifier::external_body]
fn zlib_decode(data: &[u8]) -> (r: Result<Vec<u8>, StreamFault>)
    ensures
        r matches Ok(v) ==> (zlib_inflated(data@) matches Ok(bytes) && bytes == v@),
        r matches Err(fault) ==> (zlib_inflated(data@) matches Err(found) && found == fault),
{
    let mut out = Vec::new();
    match std::io::Read::read_to_end(&mut flate2::bufread::ZlibDecoder::new(data), &mut out) {
        Ok(_) => Ok(out),
        Err(e) if e.kind() == std::io::ErrorKind::UnexpectedEof => Err(StreamFault::Incomplete),
        Err(_) => Err(StreamFault::Corrupt),
    }
}

/// The error that a fault in the payload is reported as.
fn error_of(fault: StreamFault) -> (e: CodecError)
    ensures
        e == fault_error(fault),
{
    match fault {
        StreamFault::Incomplete => CodecError::Truncated { offset: 12 },
        StreamFault::Corrupt => CodecError::Compression,
    }
}

/// `flate2::write::ZlibEncoder` at the default level, written once and
/// finished: a stream that depends on the bytes alone and that inflates to
/// them; `None` where the encoder reports an error, which depends on the
/// bytes alone as well.
#[verifier::external_body]
fn zlib_encode(data: &[u8]) -> (r: Option<Vec<u8>>)
    ensures
        r matches Some(v) ==> (zlib_deflated(data@) matches Some(bytes) && bytes == v@),
        r matches Some(v) ==> (zlib_inflated(v@) matches Ok(bytes) && bytes == data@),
        r is None ==> zlib_deflated(data@) is None,
{
    let mut encoder = flate2::write::ZlibEncoder::new(Vec::new(), flate2::Compression::default());
    match std::io::Write::write_all(&mut encoder, data) {
        Ok(()) => encoder.finish().ok(),
        Err(_) => None,
    }
}

/// Reads a container: checks the header, takes all that follows it as the
/// payload, and undoes the compression that the tier names.
pub fn read_save_file(bytes: &[u8]) -> (r: Result<PalSave, CodecError>)
    ensures
        match container_at(bytes@) {
            Ok((tier, inner)) => r matches Ok(p) && p.compression_type == tier && p.save@ == inner,
            Err(e) => r == Err::<PalSave, CodecError>(e),
        },
{
    let mut s = stream(bytes);
    let _decompressed_len: u32 = s.read_u32()?;
    let stated: u32 = s.read_u32()?;
    let tag = s.take(3)?;
    if tag[0] != 0x50 || tag[1] != 0x6C || tag[2] != 0x5A {
        assert(tag@ != magic());
        return Err(CodecError::InvalidMagic);
    }
    assert(tag@ =~= magic());
    let tier: u8 = s.read_u8()?;
    if tier != TIER_STORED && tier != TIER_DEFLATED && tier != TIER_DEFLATED_TWICE {
        return Err(CodecError::UnknownCompressionTier);
    }
    if s.remaining() < stated as usize {
        return Err(CodecError::Truncated { offset: 12 });
    }
    let payload = s.take(s.remaining())?;
    assert(payload@ =~= bytes@.subrange(12, bytes@.len() as int));
    if tier == TIER_STORED {
        return Ok(PalSave { compression_type: tier, save: vstd::slice::slice_to_vec(payload) });
    }
    let once = match zlib_decode(payload) {
        Ok(v) => v,
        Err(fault) => {
            return Err(error_of(fault));
        },
    };
    if tier == TIER_DEFLATED {
        return Ok(PalSave { compression_type: tier, save: once });
    }
    match zlib_decode(once.as_slice()) {
        Ok(inner) => Ok(PalSave { compression_type: tier, save: inner }),
        Err(fault) => Err(error_of(fault)),
    }
}

/// The header and the payload, one behind the other.
pub fn frame_container(
    decompressed_len: u32,
    compressed_len: u32,
    tier: u8,
    payload: &[u8],
) -> (bytes: Vec<u8>)
    ensures
        bytes@ == framed(decompressed_len, compressed_len, tier, payload@),
{
    let mut bytes: Vec<u8> = Vec::new();
    push_u32(&mut bytes, decompressed_len);
    push_u32(&mut bytes, compressed_len);
    bytes.push(0x50);
    bytes.push(0x6C);
    bytes.push(0x5A);
    bytes.push(tier);
    push_bytes(&mut bytes, payload);
    assert(bytes@ =~= framed(decompressed_len, compressed_len, tier, payload@));
    bytes
}

/// A length as its 32-bit field holds it; `ImplausibleLength` for a length
/// that the field cannot hold.
pub fn field_len(len: usize) -> (r: Result<u32, CodecError>)
    ensures
        match r {
            Ok(n) => n == len,
            Err(e) => len > u32::MAX && e == CodecError::ImplausibleLength,
        },
{
    if len > u32::MAX as usize {
        Err(CodecError::ImplausibleLength)
    } else {
        Ok(len as u32)
    }
}

/// Whether inflating gives back what deflating was given, for each pass
/// that a tier asks for.
pub open spec fn passes_undone(tier: u8, inner: Seq<u8>) -> bool {
    &&& tier != TIER_STORED ==> (zlib_deflated(inner) matches Some(once) && zlib_inflated(once)
        == Ok::<Seq<u8>, StreamFault>(inner))
    &&& tier == TIER_DEFLATED_TWICE ==> (zlib_deflated(inner) matches Some(once) && zlib_deflated(
        once,
    ) matches Some(twice) && zlib_inflated(twice) == Ok::<Seq<u8>, StreamFault>(once))
}

/// A container reads back as the tier and the save it was made of, and
/// writing what was read gives the same bytes again, wherever inflating
/// undoes the deflating that the tier asked for.
pub proof fn lemma_container_round_trip(tier: u8, inner: Seq<u8>)
    requires
        container_fits(tier, inner),
        passes_undone(tier, inner),
    ensures
        container_at(container_wire(tier, inner)) == Ok::<(u8, Seq<u8>), CodecError>(
            (tier, inner),
        ),
        container_at(container_wire(tier, inner)) matches Ok((t, i)) && written(t, i) == Ok::<
            Seq<u8>,
            CodecError,
        >(container_wire(tier, inner)),
{
    let payload = payload_of(tier, inner)->0;
    let d = inner.len() as u32;
    let c = payload.len() as u32;
    let wire = container_wire(tier, inner);
    lemma_u32_le_round_trip(d);
    lemma_u32_le_round_trip(c);
    crate::stream::lemma_holds_at_self(wire);
    lemma_holds_at_split(wire, 0, u32_le(d) + u32_le(c) + magic() + seq![tier], payload);
    lemma_holds_at_split(wire, 0, u32_le(d) + u32_le(c) + magic(), seq![tier]);
    lemma_holds_at_split(wire, 0, u32_le(d) + u32_le(c), magic());
    lemma_holds_at_split(wire, 0, u32_le(d), u32_le(c));
    lemma_u32_at_holds(wire, 0, d);
    lemma_u32_at_holds(wire, 4, c);
    lemma_take_at_holds(wire, 8, magic());
    lemma_u8_at_holds(wire, 11, tier);
    lemma_take_at_holds(wire, 12, payload);
    assert(wire.len() == 12 + payload.len());
    assert(wire.subrange(12, wire.len() as int) =~= payload);
}

/// A stored container gives both lengths as that of the save, carries the
/// save as its payload, and reads back as the save it was made of.
pub proof fn lemma_stored_round_trip(inner: Seq<u8>)
    requires
        inner.len() <= u32::MAX,
    ensures
        written(TIER_STORED, inner) == Ok::<Seq<u8>, CodecError>(
            framed(inner.len() as u32, inner.len() as u32, TIER_STORED, inner),
        ),
        container_at(container_wire(TIER_STORED, inner)) == Ok::<(u8, Seq<u8>), CodecError>(
            (TIER_STORED, inner),
        ),
{
    lemma_container_round_trip(TIER_STORED, inner);
}

/// A stored container whose two lengths are both that of its payload is
/// written again byte for byte from what was read of it.
pub proof fn lemma_stored_recode(buf: Seq<u8>)
    requires
        container_at(buf) matches Ok((tier, inner)) && tier == TIER_STORED && le_u32(
            buf.subrange(0, 4),
        ) == inner.len() && le_u32(buf.subrange(4, 8)) == inner.len(),
    ensures
        container_at(buf) matches Ok((tier, inner)) && written(tier, inner) == Ok::<
            Seq<u8>,
            CodecError,
        >(buf),
{
    let inner = buf.subrange(12, buf.len() as int);
    lemma_le_u32_round_trip(buf.subrange(0, 4));
    lemma_le_u32_round_trip(buf.subrange(4, 8));
    assert(buf.subrange(11, 12)[0] == TIER_STORED);
    assert(container_wire(TIER_STORED, inner) =~= buf);
}

/// Behind a header with the magic tag and a known tier, the tier alone says
/// how often the payload is inflated: not at all, once, or twice. The
/// payload is all that follows the header, and the two lengths play no part
/// as long as the stated count of bytes is there.
pub proof fn lemma_passes_by_tier(buf: Seq<u8>)
    requires
        buf.len() >= 12,
        buf.subrange(8, 11) == magic(),
        tier_known(buf[11]),
        le_u32(buf.subrange(4, 8)) <= buf.len() - 12,
    ensures
        buf[11] == TIER_STORED ==> container_at(buf) == Ok::<(u8, Seq<u8>), CodecError>(
            (TIER_STORED, buf.subrange(12, buf.len() as int)),
        ),
        buf[11] == TIER_DEFLATED ==> container_at(buf) == (match zlib_inflated(
            buf.subrange(12, buf.len() as int),
        ) {
            Ok(once) => Ok::<(u8, Seq<u8>), CodecError>((TIER_DEFLATED, once)),
            Err(fault) => Err::<(u8, Seq<u8>), CodecError>(fault_error(fault)),
        }),
        buf[11] == TIER_DEFLATED_TWICE ==> container_at(buf) == (match zlib_inflated(
            buf.subrange(12, buf.len() as int),
        ) {
            Ok(once) => match zlib_inflated(once) {
                Ok(twice) => Ok::<(u8, Seq<u8>), CodecError>((TIER_DEFLATED_TWICE, twice)),
                Err(fault) => Err::<(u8, Seq<u8>), CodecError>(fault_error(fault)),
            },
            Err(fault) => Err::<(u8, Seq<u8>), CodecError>(fault_error(fault)),
        }),
{
    assert(buf.subrange(11, 12)[0] == buf[11]);
}

/// Writes a container under the tier that the save names: the result is
/// exactly `written`, success and each error alike. What is written reads
/// back as the same save.
pub fn write_save_file(pal_save: &PalSave) -> (r: Result<Vec<u8>, CodecError>)
    ensures
        match written(pal_save.compression_type, pal_save.save@) {
            Ok(wire) => r matches Ok(out) && out@ == wire,
            Err(e) => r == Err::<Vec<u8>, CodecError>(e),
        },
        r is Ok <==> container_fits(pal_save.compression_type, pal_save.save@),
        r matches Ok(out) ==> container_at(out@) == Ok::<(u8, Seq<u8>), CodecError>(
            (pal_save.compression_type, pal_save.save@),
        ),
{
    let tier: u8 = pal_save.compression_type;
    let inner = pal_save.save.as_slice();
    if tier != TIER_STORED && tier != TIER_DEFLATED && tier != TIER_DEFLATED_TWICE {
        return Err(CodecError::UnknownCompressionTier);
    }
    let decompressed_len: u32 = field_len(inner.len())?;
    if tier == TIER_STORED {
        proof {
            lemma_container_round_trip(tier, inner@);
        }
        return Ok(frame_container(decompressed_len, decompressed_len, tier, inner));
    }
    let once = match zlib_encode(inner) {
        Some(v) => v,
        None => {
            return Err(CodecError::Compression);
        },
    };
    if tier == TIER_DEFLATED {
        let compressed_len: u32 = field_len(once.len())?;
        proof {
            lemma_container_round_trip(tier, inner@);
        }
        return Ok(frame_container(decompressed_len, compressed_len, tier, once.as_slice()));
    }
    let twice = match zlib_encode(once.as_slice()) {
        Some(v) => v,
        None => {
            return Err(CodecError::Compression);
        },
    };
    let compressed_len: u32 = field_len(twice.len())?;
    proof {
        lemma_container_round_trip(tier, inner@);
    }
    Ok(frame_container(decompressed_len, compressed_len, tier, twice.as_slice()))
}

/// The name that the group type of a guild is recorded under.
pub open spec fn guild_group_type() -> Seq<char> {
    "EPalGroupType::Guild"@
}

/// Whether the recorded type of a group says that it is a guild.
pub fn is_group_type_guild(group_type: &str) -> (r: bool)
    ensures
        r == (group_type@ == guild_group_type()),
{
    let name: String = group_type.to_owned();
    let guild: String = "EPalGroupType::Guild".to_owned();
    name == guild
}

/// Reads the guild record at the start of the raw data of a group; what
/// follows the record is not looked at.
pub fn parse_raw_group_guild_save(raw_data: &[u8]) -> (r: Result<GroupGuildSave, CodecError>)
    ensures
        match guild_at(raw_data@, 0) {
            Ok((m, _)) => r matches Ok(got) && got@ == m,
            Err(e) => r == Err::<GroupGuildSave, CodecError>(e),
        },
{
    let mut s = stream(raw_data);
    read_group_guild_save(&mut s)
}

} // verus!
