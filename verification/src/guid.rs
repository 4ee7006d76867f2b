//! The 128-bit identifier and its wire form.
use vstd::prelude::*;
use crate::error::CodecError;
use crate::stream::{lemma_take_at_holds, lemma_taken_holds, take_at, Stream};
use crate::wire::Wire;

verus! {

/// A 128-bit identifier, held as its sixteen bytes in canonical order.
#[derive(Debug, Clone, Copy, PartialEq, Eq, Hash)]
pub struct Guid {
    pub bytes: [u8; 16],
}

impl View for Guid {
    type V = Seq<u8>;

    open spec fn view(&self) -> Seq<u8> {
        self.bytes@
    }
}

/// The wire order of sixteen bytes: each group of four is reversed. The same
/// reordering leads from the wire back to the canonical order.
pub open spec fn swizzle(b: Seq<u8>) -> Seq<u8>
    recommends
        b.len() == 16,
{
    seq![
        b[3], b[2], b[1], b[0],
        b[7], b[6], b[5], b[4],
        b[11], b[10], b[9], b[8],
        b[15], b[14], b[13], b[12],
    ]
}

/// The identifier that is encoded at `pos`.
pub open spec fn guid_at(buf: Seq<u8>, pos: int) -> Result<(Seq<u8>, int), CodecError> {
    match take_at(buf, pos, 16) {
        Ok((b, next)) => Ok((swizzle(b), next)),
        Err(e) => Err(e),
    }
}

/// Reordering twice gives the sixteen bytes back: encoding a decoded
/// identifier, or decoding an encoded one, changes nothing.
pub proof fn lemma_swizzle_involution(b: Seq<u8>)
    requires
        b.len() == 16,
    ensures
        swizzle(b).len() == 16,
        swizzle(swizzle(b)) == b,
{
    assert(swizzle(swizzle(b)) =~= b);
}

/// Reads an identifier from its sixteen wire bytes.
pub fn read_uuid(s: &mut Stream) -> (r: Result<Guid, CodecError>)
    ensures
        0 <= old(s).offset() <= old(s).bytes().len(),
        final(s).bytes() == old(s).bytes(),
        match guid_at(old(s).bytes(), old(s).offset()) {
            Ok((g, next)) => r matches Ok(got) && got@ == g && final(s).offset() == next,
            Err(e) => r == Err::<Guid, CodecError>(e) && final(s).offset() == old(s).offset(),
        },
{
    match s.take(16) {
        Ok(b) => {
            let bytes: [u8; 16] = [
                b[3], b[2], b[1], b[0],
                b[7], b[6], b[5], b[4],
                b[11], b[10], b[9], b[8],
                b[15], b[14], b[13], b[12],
            ];
            assert(bytes@ =~= swizzle(b@));
            Ok(Guid { bytes })
        },
        Err(e) => Err(e),
    }
}

/// The sixteen wire bytes of an identifier.
pub fn write_uuid(guid: &Guid) -> (bytes: Vec<u8>)
    ensures
        bytes@ == swizzle(guid@),
{
    let b = &guid.bytes;
    let bytes = vec![
        b[3], b[2], b[1], b[0],
        b[7], b[6], b[5], b[4],
        b[11], b[10], b[9], b[8],
        b[15], b[14], b[13], b[12],
    ];
    assert(bytes@ =~= swizzle(guid@));
    bytes
}

impl Wire for Guid {
    open spec fn valid(m: Seq<u8>) -> bool {
        m.len() == 16
    }

    open spec fn wire(m: Seq<u8>) -> Seq<u8> {
        swizzle(m)
    }

    open spec fn wire_at(buf: Seq<u8>, pos: int) -> Result<(Seq<u8>, int), CodecError> {
        guid_at(buf, pos)
    }

    proof fn lemma_wire_at_holds(buf: Seq<u8>, pos: int, m: Seq<u8>) {
        lemma_swizzle_involution(m);
        lemma_take_at_holds(buf, pos, swizzle(m));
    }

    open spec fn canonical_at(buf: Seq<u8>, pos: int) -> bool {
        true
    }

    proof fn lemma_recode(buf: Seq<u8>, pos: int) {
        lemma_taken_holds(buf, pos, 16);
        lemma_swizzle_involution(buf.subrange(pos, pos + 16));
    }

    fn read(s: &mut Stream) -> (r: Result<Self, CodecError>) {
        read_uuid(s)
    }
}

} // verus!
