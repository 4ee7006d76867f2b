//! What the records have in common: a wire form, a reader, and the law that
//! ties them; and the counted array built from any of them.
use vstd::prelude::*;
use crate::error::CodecError;
use crate::stream::{
    holds_at, lemma_holds_at_join, lemma_holds_at_split, lemma_take_at_holds, lemma_u32_at_holds,
    lemma_u32_at_recode, lemma_u32_le_round_trip, push_bytes, push_u32, u32_at, u32_le, Stream,
};

verus! {

/// A value with a wire form. The contracts speak of the value's model, its
/// view; `valid` says which models the wire form can carry.
pub trait Wire: Sized + View {
    /// Whether the wire form can carry this model.
    spec fn valid(m: Self::V) -> bool;

    /// The wire form of a model.
    spec fn wire(m: Self::V) -> Seq<u8>;

    /// The model that is encoded at `pos`, and the position behind it.
    spec fn wire_at(buf: Seq<u8>, pos: int) -> Result<(Self::V, int), CodecError>;

    /// A valid model that was written at `pos` is read back there, and its
    /// wire form is not empty.
    proof fn lemma_wire_at_holds(buf: Seq<u8>, pos: int, m: Self::V)
        requires
            Self::valid(m),
            holds_at(buf, pos, Self::wire(m)),
        ensures
            Self::wire(m).len() > 0,
            Self::wire_at(buf, pos) == Ok::<(Self::V, int), CodecError>(
                (m, pos + Self::wire(m).len()),
            ),
    ;

    /// Whether the value at `pos` stands there in the form that the writer
    /// gives it.
    spec fn canonical_at(buf: Seq<u8>, pos: int) -> bool;

    /// A value that is read from its canonical form is valid, and is
    /// written as the bytes it was read from.
    proof fn lemma_recode(buf: Seq<u8>, pos: int)
        requires
            0 <= pos,
            Self::canonical_at(buf, pos),
            Self::wire_at(buf, pos) is Ok,
        ensures
            Self::wire_at(buf, pos) matches Ok((m, next)) && Self::valid(m) && holds_at(
                buf,
                pos,
                Self::wire(m),
            ) && next == pos + Self::wire(m).len(),
    ;

    /// Reads one value; a failure leaves the stream where it was.
    fn read(s: &mut Stream) -> (r: Result<Self, CodecError>)
        ensures
            0 <= old(s).offset() <= old(s).bytes().len(),
            final(s).bytes() == old(s).bytes(),
            match Self::wire_at(old(s).bytes(), old(s).offset()) {
                Ok((m, next)) => r matches Ok(got) && got@ == m && final(s).offset() == next,
                Err(e) => r == Err::<Self, CodecError>(e) && final(s).offset() == old(s).offset(),
            },
    ;
}

/// The models of a sequence of values.
pub open spec fn models<T: View>(items: Seq<T>) -> Seq<T::V> {
    items.map_values(|x: T| x@)
}

/// The wire forms of the elements, one behind the other.
pub open spec fn elems_wire<T: Wire>(items: Seq<T::V>) -> Seq<u8>
    decreases items.len(),
{
    if items.len() == 0 {
        Seq::empty()
    } else {
        elems_wire::<T>(items.drop_last()) + T::wire(items.last())
    }
}

/// The wire form of an array: the count as a `u32`, then the elements.
pub open spec fn array_wire<T: Wire>(items: Seq<T::V>) -> Seq<u8> {
    u32_le(items.len() as u32) + elems_wire::<T>(items)
}

/// Whether an array can be written: its count fits 32 bits and every element
/// is valid.
pub open spec fn array_valid<T: Wire>(items: Seq<T::V>) -> bool {
    &&& items.len() <= u32::MAX
    &&& forall|i: int| 0 <= i < items.len() ==> T::valid(#[trigger] items[i])
}

/// The `count` elements that are encoded from `pos` on; the first element
/// that cannot be read gives its error.
pub open spec fn elems_at<T: Wire>(buf: Seq<u8>, pos: int, count: nat) -> Result<
    (Seq<T::V>, int),
    CodecError,
>
    decreases count,
{
    if count == 0 {
        Ok((Seq::empty(), pos))
    } else {
        match T::wire_at(buf, pos) {
            Err(e) => Err(e),
            Ok((first, next)) => match elems_at::<T>(buf, next, (count - 1) as nat) {
                Err(e) => Err(e),
                Ok((rest, end)) => Ok((seq![first] + rest, end)),
            },
        }
    }
}

/// The array that is encoded at `pos`. A count that is larger than the
/// number of bytes behind it is `Truncated` at the position of the
/// elements, before any element is read: no element takes less than a byte,
/// so the input ends before the array does.
pub open spec fn array_at<T: Wire>(buf: Seq<u8>, pos: int) -> Result<(Seq<T::V>, int), CodecError> {
    match u32_at(buf, pos) {
        Err(e) => Err(e),
        Ok((count, body)) => if count > buf.len() - body {
            Err(CodecError::Truncated { offset: body as usize })
        } else {
            elems_at::<T>(buf, body, count as nat)
        },
    }
}

/// Whether each of the `count` elements from `pos` on stands there in the
/// form that the writer gives it.
pub open spec fn elems_canonical_at<T: Wire>(buf: Seq<u8>, pos: int, count: nat) -> bool
    decreases count,
{
    if count == 0 {
        true
    } else {
        T::canonical_at(buf, pos) && match T::wire_at(buf, pos) {
            Ok((_, next)) => elems_canonical_at::<T>(buf, next, (count - 1) as nat),
            Err(_) => false,
        }
    }
}

/// Whether each element of the array at `pos` stands there in the form that
/// the writer gives it.
pub open spec fn array_canonical_at<T: Wire>(buf: Seq<u8>, pos: int) -> bool {
    match u32_at(buf, pos) {
        Ok((count, body)) => elems_canonical_at::<T>(buf, body, count as nat),
        Err(_) => false,
    }
}

/// The views of byte vectors, one behind the other.
pub open spec fn joined(parts: Seq<Vec<u8>>) -> Seq<u8>
    decreases parts.len(),
{
    if parts.len() == 0 {
        Seq::empty()
    } else {
        joined(parts.drop_last()) + parts.last()@
    }
}

/// The wire form of elements starts with that of the first.
pub proof fn lemma_elems_wire_head<T: Wire>(first: T::V, rest: Seq<T::V>)
    ensures
        elems_wire::<T>(seq![first] + rest) == T::wire(first) + elems_wire::<T>(rest),
    decreases rest.len(),
{
    let all = seq![first] + rest;
    if rest.len() == 0 {
        assert(all.drop_last() =~= Seq::<T::V>::empty());
        assert(elems_wire::<T>(all.drop_last()) =~= Seq::<u8>::empty());
        assert(elems_wire::<T>(all) =~= T::wire(first) + elems_wire::<T>(rest));
    } else {
        lemma_elems_wire_head::<T>(first, rest.drop_last());
        assert(all.drop_last() =~= seq![first] + rest.drop_last());
        assert(all.last() == rest.last());
        assert(elems_wire::<T>(all) =~= T::wire(first) + elems_wire::<T>(rest));
    }
}

/// Valid elements take at least a byte each.
pub proof fn lemma_elems_wire_len<T: Wire>(items: Seq<T::V>)
    requires
        forall|i: int| 0 <= i < items.len() ==> T::valid(#[trigger] items[i]),
    ensures
        elems_wire::<T>(items).len() >= items.len(),
    decreases items.len(),
{
    if items.len() > 0 {
        let last = items.last();
        lemma_elems_wire_len::<T>(items.drop_last());
        crate::stream::lemma_holds_at_self(T::wire(last));
        T::lemma_wire_at_holds(T::wire(last), 0, last);
    }
}

/// Valid elements that were written at `pos` are read back there.
pub proof fn lemma_elems_at_holds<T: Wire>(buf: Seq<u8>, pos: int, items: Seq<T::V>)
    requires
        forall|i: int| 0 <= i < items.len() ==> T::valid(#[trigger] items[i]),
        holds_at(buf, pos, elems_wire::<T>(items)),
    ensures
        elems_at::<T>(buf, pos, items.len()) == Ok::<(Seq<T::V>, int), CodecError>(
            (items, pos + elems_wire::<T>(items).len()),
        ),
    decreases items.len(),
{
    if items.len() == 0 {
        assert(items =~= Seq::<T::V>::empty());
    } else {
        let first = items[0];
        let rest = items.drop_first();
        assert(items =~= seq![first] + rest);
        lemma_elems_wire_head::<T>(first, rest);
        lemma_holds_at_split(buf, pos, T::wire(first), elems_wire::<T>(rest));
        T::lemma_wire_at_holds(buf, pos, first);
        assert forall|i: int| 0 <= i < rest.len() implies T::valid(#[trigger] rest[i]) by {
            assert(rest[i] == items[i + 1]);
        }
        lemma_elems_at_holds::<T>(buf, pos + T::wire(first).len(), rest);
    }
}

/// A valid array that was written at `pos` is read back there.
pub proof fn lemma_array_at_holds<T: Wire>(buf: Seq<u8>, pos: int, items: Seq<T::V>)
    requires
        array_valid::<T>(items),
        holds_at(buf, pos, array_wire::<T>(items)),
    ensures
        array_at::<T>(buf, pos) == Ok::<(Seq<T::V>, int), CodecError>(
            (items, pos + array_wire::<T>(items).len()),
        ),
{
    let count = items.len() as u32;
    lemma_u32_le_round_trip(count);
    lemma_holds_at_split(buf, pos, u32_le(count), elems_wire::<T>(items));
    lemma_u32_at_holds(buf, pos, count);
    lemma_elems_wire_len::<T>(items);
    crate::stream::lemma_take_at_holds(buf, pos + 4, elems_wire::<T>(items));
    lemma_elems_at_holds::<T>(buf, pos + 4, items);
}

/// Elements that are read from their canonical form are valid, and are
/// written as the bytes they were read from.
pub proof fn lemma_elems_recode<T: Wire>(buf: Seq<u8>, pos: int, count: nat)
    requires
        0 <= pos <= buf.len(),
        elems_canonical_at::<T>(buf, pos, count),
        elems_at::<T>(buf, pos, count) is Ok,
    ensures
        elems_at::<T>(buf, pos, count) matches Ok((items, end)) && items.len() == count && (forall|
            i: int,
        |
            0 <= i < items.len() ==> T::valid(#[trigger] items[i])) && holds_at(
            buf,
            pos,
            elems_wire::<T>(items),
        ) && end == pos + elems_wire::<T>(items).len(),
    decreases count,
{
    if count == 0 {
        crate::stream::lemma_taken_holds(buf, pos, 0);
        assert(buf.subrange(pos, pos) =~= Seq::<u8>::empty());
        assert(elems_wire::<T>(Seq::<T::V>::empty()) =~= Seq::<u8>::empty());
    } else {
        T::lemma_recode(buf, pos);
        let first = T::wire_at(buf, pos)->Ok_0.0;
        let next = T::wire_at(buf, pos)->Ok_0.1;
        lemma_take_at_holds(buf, pos, T::wire(first));
        lemma_elems_recode::<T>(buf, next, (count - 1) as nat);
        let rest = elems_at::<T>(buf, next, (count - 1) as nat)->Ok_0.0;
        let items = seq![first] + rest;
        lemma_elems_wire_head::<T>(first, rest);
        lemma_holds_at_join(buf, pos, T::wire(first), elems_wire::<T>(rest));
        assert forall|i: int| 0 <= i < items.len() implies T::valid(#[trigger] items[i]) by {
            if i > 0 {
                assert(items[i] == rest[i - 1]);
            }
        }
    }
}

/// Elements of a kind that has one form only stand in their canonical form
/// wherever they can be read.
pub proof fn lemma_elems_canonical<T: Wire>(buf: Seq<u8>, pos: int, count: nat)
    requires
        forall|b: Seq<u8>, p: int| #[trigger] T::canonical_at(b, p),
        elems_at::<T>(buf, pos, count) is Ok,
    ensures
        elems_canonical_at::<T>(buf, pos, count),
    decreases count,
{
    if count > 0 {
        assert(T::canonical_at(buf, pos));
        lemma_elems_canonical::<T>(buf, T::wire_at(buf, pos)->Ok_0.1, (count - 1) as nat);
    }
}

/// An array of a kind that has one form only stands in its canonical form
/// wherever it can be read.
pub proof fn lemma_array_canonical<T: Wire>(buf: Seq<u8>, pos: int)
    requires
        forall|b: Seq<u8>, p: int| #[trigger] T::canonical_at(b, p),
        array_at::<T>(buf, pos) is Ok,
    ensures
        array_canonical_at::<T>(buf, pos),
{
    lemma_elems_canonical::<T>(buf, pos + 4, u32_at(buf, pos)->Ok_0.0 as nat);
}

/// An array that is read from its canonical form is valid, and is written
/// as the bytes it was read from.
pub proof fn lemma_array_recode<T: Wire>(buf: Seq<u8>, pos: int)
    requires
        0 <= pos,
        array_canonical_at::<T>(buf, pos),
        array_at::<T>(buf, pos) is Ok,
    ensures
        array_at::<T>(buf, pos) matches Ok((items, end)) && array_valid::<T>(items) && holds_at(
            buf,
            pos,
            array_wire::<T>(items),
        ) && end == pos + array_wire::<T>(items).len(),
{
    lemma_u32_at_recode(buf, pos);
    let count = u32_at(buf, pos)->Ok_0.0;
    lemma_take_at_holds(buf, pos, u32_le(count));
    lemma_elems_recode::<T>(buf, pos + 4, count as nat);
    let items = elems_at::<T>(buf, pos + 4, count as nat)->Ok_0.0;
    lemma_holds_at_join(buf, pos, u32_le(count), elems_wire::<T>(items));
}

/// Parts that are the wire forms of the items, joined, are the wire form of
/// the elements.
pub proof fn lemma_joined_is_elems_wire<T: Wire>(items: Seq<T>, parts: Seq<Vec<u8>>)
    requires
        parts.len() == items.len(),
        forall|i: int| 0 <= i < items.len() ==> (#[trigger] parts[i])@ == T::wire(items[i]@),
    ensures
        joined(parts) == elems_wire::<T>(models(items)),
    decreases items.len(),
{
    if items.len() > 0 {
        lemma_joined_is_elems_wire::<T>(items.drop_last(), parts.drop_last());
        assert(models(items).drop_last() =~= models(items.drop_last()));
        assert(models(items).last() == items.last()@);
    }
}

/// Reads a counted array.
pub fn read_tarray<T: Wire>(s: &mut Stream) -> (r: Result<Vec<T>, CodecError>)
    ensures
        final(s).bytes() == old(s).bytes(),
        match array_at::<T>(old(s).bytes(), old(s).offset()) {
            Ok((items, next)) => r matches Ok(got) && models(got@) == items && final(s).offset()
                == next,
            Err(e) => r == Err::<Vec<T>, CodecError>(e) && final(s).offset() == old(s).offset(),
        },
{
    let start: usize = s.position();
    let count: u32 = match s.read_u32() {
        Ok(c) => c,
        Err(e) => {
            return Err(e);
        },
    };
    if count as usize > s.remaining() {
        let body: usize = s.position();
        s.rewind(start);
        return Err(CodecError::Truncated { offset: body });
    }
    let ghost buf = s.bytes();
    let ghost body = s.offset();
    let mut items: Vec<T> = Vec::new();
    let mut i: u32 = 0;
    assert(models(items@) =~= Seq::<T::V>::empty());
    while i < count
        invariant
            s.bytes() == buf,
            buf == old(s).bytes(),
            start == old(s).offset(),
            start <= buf.len(),
            i <= count,
            array_at::<T>(buf, start as int) == elems_at::<T>(buf, body, count as nat),
            elems_at::<T>(buf, body, count as nat) == match elems_at::<T>(
                buf,
                s.offset(),
                (count - i) as nat,
            ) {
                Ok((rest, end)) => Ok::<(Seq<T::V>, int), CodecError>(
                    (models(items@) + rest, end),
                ),
                Err(e) => Err::<(Seq<T::V>, int), CodecError>(e),
            },
        decreases count - i,
    {
        let ghost done = models(items@);
        match T::read(s) {
            Err(e) => {
                s.rewind(start);
                return Err(e);
            },
            Ok(item) => {
                let ghost m = item@;
                items.push(item);
                i = i + 1;
                proof {
                    assert(models(items@) =~= done + seq![m]);
                    match elems_at::<T>(buf, s.offset(), (count - i) as nat) {
                        Ok((rest, end)) => {
                            assert(done + (seq![m] + rest) =~= models(items@) + rest);
                        },
                        Err(e) => {},
                    }
                }
            },
        }
    }
    proof {
        assert(models(items@) + Seq::<T::V>::empty() =~= models(items@));
    }
    Ok(items)
}

/// Writes a counted array: the count as a `u32`, then what `write_item`
/// gives for each item, in order.
pub fn write_tarray<T, F>(items: &[T], write_item: F) -> (bytes: Vec<u8>) where
    F: Fn(&T) -> Vec<u8>,

    requires
        items@.len() <= u32::MAX,
        forall|i: int| 0 <= i < items@.len() ==> call_requires(write_item, (&#[trigger] items@[i],)),
    ensures
        exists|parts: Seq<Vec<u8>>|
            {
                &&& parts.len() == items@.len()
                &&& forall|i: int|
                    0 <= i < items@.len() ==> call_ensures(
                        write_item,
                        (&items@[i],),
                        #[trigger] parts[i],
                    )
                &&& bytes@ == u32_le(items@.len() as u32) + joined(parts)
            },
{
    let mut bytes: Vec<u8> = Vec::new();
    push_u32(&mut bytes, items.len() as u32);
    let ghost head = bytes@;
    let ghost mut parts: Seq<Vec<u8>> = Seq::empty();
    let mut i: usize = 0;
    while i < items.len()
        invariant
            i <= items@.len(),
            head == u32_le(items@.len() as u32),
            parts.len() == i,
            forall|k: int|
                0 <= k < items@.len() ==> call_requires(write_item, (&#[trigger] items@[k],)),
            forall|k: int|
                0 <= k < i ==> call_ensures(write_item, (&items@[k],), #[trigger] parts[k]),
            bytes@ == head + joined(parts),
        decreases items@.len() - i,
    {
        let part = write_item(&items[i]);
        push_bytes(&mut bytes, part.as_slice());
        proof {
            let before = parts;
            parts = parts.push(part);
            assert(parts.drop_last() =~= before);
            assert(bytes@ =~= head + joined(parts));
        }
        i = i + 1;
    }
    bytes
}

} // verus!
