//! A cursor over a byte buffer, and the fixed-width little-endian integers
//! that every record is built from.
use vstd::prelude::*;
use crate::error::CodecError;

verus! {

/// The four bytes that stand for `x`, least significant first.
pub open spec fn u32_le(x: u32) -> Seq<u8> {
    seq![
        (x % 0x100) as u8,
        (x / 0x100 % 0x100) as u8,
        (x / 0x1_0000 % 0x100) as u8,
        (x / 0x100_0000) as u8,
    ]
}

/// The number that four little-endian bytes stand for.
pub open spec fn le_u32(b: Seq<u8>) -> u32
    recommends
        b.len() == 4,
{
    (b[0] as int + b[1] as int * 0x100 + b[2] as int * 0x1_0000 + b[3] as int * 0x100_0000) as u32
}

/// The eight bytes that stand for `x`, least significant first.
pub open spec fn u64_le(x: u64) -> Seq<u8> {
    u32_le((x % 0x1_0000_0000) as u32) + u32_le((x / 0x1_0000_0000) as u32)
}

/// The number that eight little-endian bytes stand for.
pub open spec fn le_u64(b: Seq<u8>) -> u64
    recommends
        b.len() == 8,
{
    (le_u32(b.subrange(0, 4)) as int + le_u32(b.subrange(4, 8)) as int * 0x1_0000_0000) as u64
}

/// The four bytes that stand for `x` in two's complement, least significant first.
pub open spec fn i32_le(x: i32) -> Seq<u8> {
    if x >= 0 {
        u32_le(x as u32)
    } else {
        u32_le((x + 0x1_0000_0000) as u32)
    }
}

/// The signed number that four little-endian bytes stand for.
pub open spec fn le_i32(b: Seq<u8>) -> i32
    recommends
        b.len() == 4,
{
    if le_u32(b) < 0x8000_0000 {
        le_u32(b) as i32
    } else {
        (le_u32(b) - 0x1_0000_0000) as i32
    }
}

/// Reading `u32_le(x)` back gives `x`.
pub proof fn lemma_u32_le_round_trip(x: u32)
    ensures
        u32_le(x).len() == 4,
        le_u32(u32_le(x)) == x,
{
}

/// Writing `le_u32(b)` gives `b` back.
pub proof fn lemma_le_u32_round_trip(b: Seq<u8>)
    requires
        b.len() == 4,
    ensures
        u32_le(le_u32(b)) == b,
{
    let v: int = b[0] as int + b[1] as int * 0x100 + b[2] as int * 0x1_0000 + b[3] as int
        * 0x100_0000;
    assert(le_u32(b) == v);
    assert(v % 0x100 == b[0]);
    assert(v / 0x100 == b[1] as int + b[2] as int * 0x100 + b[3] as int * 0x1_0000);
    assert(v / 0x1_0000 == b[2] as int + b[3] as int * 0x100);
    assert(v / 0x100_0000 == b[3]);
    assert(u32_le(le_u32(b)) =~= b);
}

/// Reading `u64_le(x)` back gives `x`.
pub proof fn lemma_u64_le_round_trip(x: u64)
    ensures
        u64_le(x).len() == 8,
        le_u64(u64_le(x)) == x,
{
    let lo = (x % 0x1_0000_0000) as u32;
    let hi = (x / 0x1_0000_0000) as u32;
    lemma_u32_le_round_trip(lo);
    lemma_u32_le_round_trip(hi);
    assert(u64_le(x).subrange(0, 4) =~= u32_le(lo));
    assert(u64_le(x).subrange(4, 8) =~= u32_le(hi));
}

/// Reading `i32_le(x)` back gives `x`.
pub proof fn lemma_i32_le_round_trip(x: i32)
    ensures
        i32_le(x).len() == 4,
        le_i32(i32_le(x)) == x,
{
    if x >= 0 {
        lemma_u32_le_round_trip(x as u32);
    } else {
        lemma_u32_le_round_trip((x + 0x1_0000_0000) as u32);
    }
}

/// What taking `n` bytes at `pos` gives: the bytes and the position behind
/// them, or `Truncated` at `pos` where fewer than `n` bytes are left.
pub open spec fn take_at(buf: Seq<u8>, pos: int, n: int) -> Result<(Seq<u8>, int), CodecError> {
    if pos + n <= buf.len() {
        Ok((buf.subrange(pos, pos + n), pos + n))
    } else {
        Err(CodecError::Truncated { offset: pos as usize })
    }
}

/// The byte at `pos`.
pub open spec fn u8_at(buf: Seq<u8>, pos: int) -> Result<(u8, int), CodecError> {
    match take_at(buf, pos, 1) {
        Ok((b, next)) => Ok((b[0], next)),
        Err(e) => Err(e),
    }
}

/// The little-endian `u32` at `pos`.
pub open spec fn u32_at(buf: Seq<u8>, pos: int) -> Result<(u32, int), CodecError> {
    match take_at(buf, pos, 4) {
        Ok((b, next)) => Ok((le_u32(b), next)),
        Err(e) => Err(e),
    }
}

/// The little-endian `i32` at `pos`.
pub open spec fn i32_at(buf: Seq<u8>, pos: int) -> Result<(i32, int), CodecError> {
    match take_at(buf, pos, 4) {
        Ok((b, next)) => Ok((le_i32(b), next)),
        Err(e) => Err(e),
    }
}

/// The little-endian `u64` at `pos`.
pub open spec fn u64_at(buf: Seq<u8>, pos: int) -> Result<(u64, int), CodecError> {
    match take_at(buf, pos, 8) {
        Ok((b, next)) => Ok((le_u64(b), next)),
        Err(e) => Err(e),
    }
}

/// Whether `part` stands in `buf` at `pos`.
#[verifier::opaque]
pub open spec fn holds_at(buf: Seq<u8>, pos: int, part: Seq<u8>) -> bool {
    &&& 0 <= pos
    &&& pos + part.len() <= buf.len()
    &&& buf.subrange(pos, pos + part.len()) == part
}

/// Where two parts stand one behind the other, each stands at its own place.
pub proof fn lemma_holds_at_split(buf: Seq<u8>, pos: int, a: Seq<u8>, b: Seq<u8>)
    requires
        holds_at(buf, pos, a + b),
    ensures
        holds_at(buf, pos, a),
        holds_at(buf, pos + a.len(), b),
{
    reveal(holds_at);
    let whole = buf.subrange(pos, pos + (a + b).len());
    assert(buf.subrange(pos, pos + a.len()) =~= whole.subrange(0, a.len() as int));
    assert(whole.subrange(0, a.len() as int) =~= a);
    assert(buf.subrange(pos + a.len(), pos + a.len() + b.len()) =~= whole.subrange(
        a.len() as int,
        (a + b).len() as int,
    ));
    assert(whole.subrange(a.len() as int, (a + b).len() as int) =~= b);
}

/// A part that stands at `pos` is what taking its length there gives.
pub proof fn lemma_take_at_holds(buf: Seq<u8>, pos: int, part: Seq<u8>)
    requires
        holds_at(buf, pos, part),
    ensures
        take_at(buf, pos, part.len() as int) == Ok::<(Seq<u8>, int), CodecError>(
            (part, pos + part.len()),
        ),
        0 <= pos,
        pos + part.len() <= buf.len(),
{
    reveal(holds_at);
}

/// A sequence stands at the start of itself.
pub proof fn lemma_holds_at_self(part: Seq<u8>)
    ensures
        holds_at(part, 0, part),
{
    reveal(holds_at);
    assert(part.subrange(0, part.len() as int) =~= part);
}

/// A `u32` that was written at `pos` is read back there.
pub proof fn lemma_u32_at_holds(buf: Seq<u8>, pos: int, x: u32)
    requires
        holds_at(buf, pos, u32_le(x)),
    ensures
        u32_at(buf, pos) == Ok::<(u32, int), CodecError>((x, pos + 4)),
{
    lemma_u32_le_round_trip(x);
    lemma_take_at_holds(buf, pos, u32_le(x));
}

/// An `i32` that was written at `pos` is read back there.
pub proof fn lemma_i32_at_holds(buf: Seq<u8>, pos: int, x: i32)
    requires
        holds_at(buf, pos, i32_le(x)),
    ensures
        i32_at(buf, pos) == Ok::<(i32, int), CodecError>((x, pos + 4)),
{
    lemma_i32_le_round_trip(x);
    lemma_take_at_holds(buf, pos, i32_le(x));
}

/// A `u64` that was written at `pos` is read back there.
pub proof fn lemma_u64_at_holds(buf: Seq<u8>, pos: int, x: u64)
    requires
        holds_at(buf, pos, u64_le(x)),
    ensures
        u64_at(buf, pos) == Ok::<(u64, int), CodecError>((x, pos + 8)),
{
    lemma_u64_le_round_trip(x);
    lemma_take_at_holds(buf, pos, u64_le(x));
}

/// A byte that was written at `pos` is read back there.
pub proof fn lemma_u8_at_holds(buf: Seq<u8>, pos: int, x: u8)
    requires
        holds_at(buf, pos, seq![x]),
    ensures
        u8_at(buf, pos) == Ok::<(u8, int), CodecError>((x, pos + 1)),
{
    lemma_take_at_holds(buf, pos, seq![x]);
}

/// Writing `le_i32(b)` gives `b` back.
pub proof fn lemma_le_i32_round_trip(b: Seq<u8>)
    requires
        b.len() == 4,
    ensures
        i32_le(le_i32(b)) == b,
{
    lemma_le_u32_round_trip(b);
}

/// The two halves of a `u64` are its remainder and its quotient by 2^32.
proof fn lemma_u64_halves(lo: u32, hi: u32)
    ensures
        lo as int + hi as int * 0x1_0000_0000 <= u64::MAX,
        (lo as int + hi as int * 0x1_0000_0000) % 0x1_0000_0000 == lo,
        (lo as int + hi as int * 0x1_0000_0000) / 0x1_0000_0000 == hi,
{
}

/// Writing `le_u64(b)` gives `b` back.
pub proof fn lemma_le_u64_round_trip(b: Seq<u8>)
    requires
        b.len() == 8,
    ensures
        u64_le(le_u64(b)) == b,
{
    let low = b.subrange(0, 4);
    let high = b.subrange(4, 8);
    lemma_u64_halves(le_u32(low), le_u32(high));
    assert(u32_le(le_u32(low)) == low) by {
        lemma_le_u32_round_trip(low);
    }
    assert(u32_le(le_u32(high)) == high) by {
        lemma_le_u32_round_trip(high);
    }
    assert(low + high =~= b);
}

/// Where two parts each stand at their place, one behind the other, the two
/// stand there as one.
pub proof fn lemma_holds_at_join(buf: Seq<u8>, pos: int, a: Seq<u8>, b: Seq<u8>)
    requires
        holds_at(buf, pos, a),
        holds_at(buf, pos + a.len(), b),
    ensures
        holds_at(buf, pos, a + b),
{
    reveal(holds_at);
    assert(buf.subrange(pos, pos + (a + b).len()) =~= a + b) by {
        assert forall|i: int| 0 <= i < (a + b).len() implies buf.subrange(
            pos,
            pos + (a + b).len(),
        )[i] == (a + b)[i] by {
            if i < a.len() {
                assert(buf.subrange(pos, pos + a.len())[i] == a[i]);
            } else {
                assert(buf.subrange(pos + a.len(), pos + a.len() + b.len())[i - a.len()] == b[i
                    - a.len()]);
            }
        }
    }
}

/// What was taken at `pos` stands there.
pub proof fn lemma_taken_holds(buf: Seq<u8>, pos: int, n: int)
    requires
        0 <= pos,
        0 <= n,
        take_at(buf, pos, n) is Ok,
    ensures
        take_at(buf, pos, n) matches Ok((b, next)) && holds_at(buf, pos, b) && b.len() == n && next
            == pos + n,
{
    reveal(holds_at);
}

/// The `u32` that is read at `pos` is the one whose bytes stand there.
pub proof fn lemma_u32_at_recode(buf: Seq<u8>, pos: int)
    requires
        0 <= pos,
        u32_at(buf, pos) is Ok,
    ensures
        u32_at(buf, pos) matches Ok((x, next)) && holds_at(buf, pos, u32_le(x)) && next == pos + 4,
{
    lemma_taken_holds(buf, pos, 4);
    lemma_le_u32_round_trip(buf.subrange(pos, pos + 4));
}

/// The `i32` that is read at `pos` is the one whose bytes stand there.
pub proof fn lemma_i32_at_recode(buf: Seq<u8>, pos: int)
    requires
        0 <= pos,
        i32_at(buf, pos) is Ok,
    ensures
        i32_at(buf, pos) matches Ok((x, next)) && holds_at(buf, pos, i32_le(x)) && next == pos + 4,
{
    lemma_taken_holds(buf, pos, 4);
    lemma_le_i32_round_trip(buf.subrange(pos, pos + 4));
}

/// The `u64` that is read at `pos` is the one whose bytes stand there.
pub proof fn lemma_u64_at_recode(buf: Seq<u8>, pos: int)
    requires
        0 <= pos,
        u64_at(buf, pos) is Ok,
    ensures
        u64_at(buf, pos) matches Ok((x, next)) && holds_at(buf, pos, u64_le(x)) && next == pos + 8,
{
    lemma_taken_holds(buf, pos, 8);
    lemma_le_u64_round_trip(buf.subrange(pos, pos + 8));
}

/// The byte that is read at `pos` is the one that stands there.
pub proof fn lemma_u8_at_recode(buf: Seq<u8>, pos: int)
    requires
        0 <= pos,
        u8_at(buf, pos) is Ok,
    ensures
        u8_at(buf, pos) matches Ok((x, next)) && holds_at(buf, pos, seq![x]) && next == pos + 1,
{
    lemma_taken_holds(buf, pos, 1);
    assert(buf.subrange(pos, pos + 1) =~= seq![buf.subrange(pos, pos + 1)[0]]);
}

/// A read position in a borrowed byte buffer. Reads move the position forward
/// and never past the end; a read that fails leaves it where it was.
pub struct Stream<'i> {
    data: &'i [u8],
    pos: usize,
}

impl<'i> Stream<'i> {
    #[verifier::type_invariant]
    spec fn in_bounds(self) -> bool {
        self.pos <= self.data@.len()
    }

    /// The whole buffer, read or not.
    pub closed spec fn bytes(&self) -> Seq<u8> {
        self.data@
    }

    /// How many bytes have been read.
    pub closed spec fn offset(&self) -> int {
        self.pos as int
    }

    /// How many bytes have been read.
    pub fn position(&self) -> (p: usize)
        ensures
            p == self.offset(),
            p <= self.bytes().len(),
    {
        proof {
            use_type_invariant(self);
        }
        self.pos
    }

    /// How many bytes are left to read.
    pub fn remaining(&self) -> (n: usize)
        ensures
            n == self.bytes().len() - self.offset(),
    {
        proof {
            use_type_invariant(self);
        }
        self.data.len() - self.pos
    }

    /// Moves to a position in the buffer, such as one that was reached before.
    pub fn rewind(&mut self, pos: usize)
        requires
            pos <= old(self).bytes().len(),
        ensures
            final(self).bytes() == old(self).bytes(),
            final(self).offset() == pos,
    {
        proof {
            use_type_invariant(&*self);
        }
        self.pos = pos;
    }

    /// Reads the next `n` bytes.
    pub fn take(&mut self, n: usize) -> (r: Result<&'i [u8], CodecError>)
        ensures
            0 <= old(self).offset() <= old(self).bytes().len(),
            final(self).bytes() == old(self).bytes(),
            match take_at(old(self).bytes(), old(self).offset(), n as int) {
                Ok((b, next)) => r matches Ok(got) && got@ == b && final(self).offset() == next,
                Err(e) => r == Err::<&[u8], CodecError>(e) && final(self).offset() == old(
                    self,
                ).offset(),
            },
    {
        proof {
            use_type_invariant(&*self);
        }
        if n > self.data.len() - self.pos {
            return Err(CodecError::Truncated { offset: self.pos });
        }
        let got = vstd::slice::slice_subrange(self.data, self.pos, self.pos + n);
        self.pos = self.pos + n;
        Ok(got)
    }

    /// Reads one byte.
    pub fn read_u8(&mut self) -> (r: Result<u8, CodecError>)
        ensures
            0 <= old(self).offset() <= old(self).bytes().len(),
            final(self).bytes() == old(self).bytes(),
            match u8_at(old(self).bytes(), old(self).offset()) {
                Ok((v, next)) => r == Ok::<u8, CodecError>(v) && final(self).offset() == next,
                Err(e) => r == Err::<u8, CodecError>(e) && final(self).offset() == old(
                    self,
                ).offset(),
            },
    {
        match self.take(1) {
            Ok(b) => Ok(b[0]),
            Err(e) => Err(e),
        }
    }

    /// Reads a little-endian `u32`.
    pub fn read_u32(&mut self) -> (r: Result<u32, CodecError>)
        ensures
            0 <= old(self).offset() <= old(self).bytes().len(),
            final(self).bytes() == old(self).bytes(),
            match u32_at(old(self).bytes(), old(self).offset()) {
                Ok((v, next)) => r == Ok::<u32, CodecError>(v) && final(self).offset() == next,
                Err(e) => r == Err::<u32, CodecError>(e) && final(self).offset() == old(
                    self,
                ).offset(),
            },
    {
        match self.take(4) {
            Ok(b) => Ok(u32_from_le(b)),
            Err(e) => Err(e),
        }
    }

    /// Reads a little-endian `i32`.
    pub fn read_i32(&mut self) -> (r: Result<i32, CodecError>)
        ensures
            0 <= old(self).offset() <= old(self).bytes().len(),
            final(self).bytes() == old(self).bytes(),
            match i32_at(old(self).bytes(), old(self).offset()) {
                Ok((v, next)) => r == Ok::<i32, CodecError>(v) && final(self).offset() == next,
                Err(e) => r == Err::<i32, CodecError>(e) && final(self).offset() == old(
                    self,
                ).offset(),
            },
    {
        match self.take(4) {
            Ok(b) => {
                let v: u32 = u32_from_le(b);
                if v < 0x8000_0000 {
                    Ok(v as i32)
                } else {
                    Ok((v as i64 - 0x1_0000_0000) as i32)
                }
            },
            Err(e) => Err(e),
        }
    }

    /// Reads a little-endian `u64`.
    pub fn read_u64(&mut self) -> (r: Result<u64, CodecError>)
        ensures
            0 <= old(self).offset() <= old(self).bytes().len(),
            final(self).bytes() == old(self).bytes(),
            match u64_at(old(self).bytes(), old(self).offset()) {
                Ok((v, next)) => r == Ok::<u64, CodecError>(v) && final(self).offset() == next,
                Err(e) => r == Err::<u64, CodecError>(e) && final(self).offset() == old(
                    self,
                ).offset(),
            },
    {
        match self.take(8) {
            Ok(b) => {
                let lo: u32 = u32_from_le(vstd::slice::slice_subrange(b, 0, 4));
                let hi: u32 = u32_from_le(vstd::slice::slice_subrange(b, 4, 8));
                Ok(lo as u64 + hi as u64 * 0x1_0000_0000)
            },
            Err(e) => Err(e),
        }
    }
}

/// A stream at the start of `bytes`.
pub fn stream(bytes: &[u8]) -> (s: Stream<'_>)
    ensures
        s.bytes() == bytes@,
        s.offset() == 0,
{
    Stream { data: bytes, pos: 0 }
}

/// The number that four little-endian bytes stand for.
pub fn u32_from_le(b: &[u8]) -> (x: u32)
    requires
        b@.len() == 4,
    ensures
        x == le_u32(b@),
{
    b[0] as u32 + b[1] as u32 * 0x100 + b[2] as u32 * 0x1_0000 + b[3] as u32 * 0x100_0000
}

/// Appends the four little-endian bytes of `x`.
pub fn push_u32(out: &mut Vec<u8>, x: u32)
    ensures
        final(out)@ == old(out)@ + u32_le(x),
{
    out.push((x % 0x100) as u8);
    out.push((x / 0x100 % 0x100) as u8);
    out.push((x / 0x1_0000 % 0x100) as u8);
    out.push((x / 0x100_0000) as u8);
    assert(out@ =~= old(out)@ + u32_le(x));
}

/// Appends the four little-endian bytes of `x`.
pub fn push_i32(out: &mut Vec<u8>, x: i32)
    ensures
        final(out)@ == old(out)@ + i32_le(x),
{
    if x >= 0 {
        push_u32(out, x as u32);
    } else {
        push_u32(out, (x as i64 + 0x1_0000_0000) as u32);
    }
}

/// Appends the eight little-endian bytes of `x`.
pub fn push_u64(out: &mut Vec<u8>, x: u64)
    ensures
        final(out)@ == old(out)@ + u64_le(x),
{
    push_u32(out, (x % 0x1_0000_0000) as u32);
    push_u32(out, (x / 0x1_0000_0000) as u32);
    assert(out@ =~= old(out)@ + u64_le(x));
}

/// Appends a copy of `bytes`.
pub fn push_bytes(out: &mut Vec<u8>, bytes: &[u8])
    ensures
        final(out)@ == old(out)@ + bytes@,
{
    out.extend_from_slice(bytes);
}

} // verus!
