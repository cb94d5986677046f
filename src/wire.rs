//! The atomic units of the wire format.

use vstd::arithmetic::div_mod::{lemma_fundamental_div_mod, lemma_mod_multiples_vanish, lemma_small_mod};
use vstd::prelude::*;

verus! {

/// Why a buffer could not be decoded.
#[derive(Clone, Copy, Debug, PartialEq, Eq, Structural)]
pub enum DecodeError {
    /// A primitive needed more bytes than remain.
    UnexpectedEnd,
    /// A tag's low three bits name no wire type.
    InvalidWireType,
    /// The whole buffer could not be read as a sequence of fields.
    TrailingBytes,
}

/// The bytes of `b` from `pos` on.
pub open spec fn rest(b: Seq<u8>, pos: int) -> Seq<u8> {
    b.subrange(pos, b.len() as int)
}

/// `x` reduced modulo 2^64.
pub open spec fn wrap64(x: int) -> u64 {
    (x % (u64::MAX as int + 1)) as u64
}

/// The varint at the start of `b`, with the number of bytes it takes.
///
/// The first byte gives the least significant seven bits; a byte with its
/// high bit set is followed by another group. Bits past the 64th are dropped.
pub open spec fn spec_varint(b: Seq<u8>) -> Option<(u64, nat)>
    decreases b.len(),
{
    if b.len() == 0 {
        None
    } else if b[0] < 128 {
        Some((b[0] as u64, 1))
    } else {
        match spec_varint(b.drop_first()) {
            Some((v, n)) => Some((wrap64((b[0] - 128) + 128 * v), n + 1)),
            None => None,
        }
    }
}

/// The LEB128 encoding of `v`: seven bits per byte, least significant first.
pub open spec fn varint_bytes(v: u64) -> Seq<u8>
    decreases v,
{
    if v < 128 {
        seq![v as u8]
    } else {
        seq![(v % 128 + 128) as u8] + varint_bytes(v / 128)
    }
}

/// `(128 * v + g) mod 2^64`, computed without overflow.
fn shift_in(v: u64, g: u8) -> (r: u64)
    requires
        g < 128,
    ensures
        r == wrap64(g + 128 * v),
{
    let low = v % 0x200_0000_0000_0000;
    proof {
        let m: int = 0x200_0000_0000_0000;
        lemma_fundamental_div_mod(v as int, m);
        let q = v as int / m;
        assert(g + 128 * v == (u64::MAX as int + 1) * q + (128 * low + g)) by (nonlinear_arith)
            requires
                v as int == m * q + low,
                m == 0x200_0000_0000_0000,
        ;
        lemma_mod_multiples_vanish(q, 128 * low + g, u64::MAX as int + 1);
        lemma_small_mod((128 * low + g) as nat, (u64::MAX as int + 1) as nat);
    }
    low * 128 + g as u64
}

/// A varint takes at least one byte and no more than there are.
pub proof fn lemma_varint_len(b: Seq<u8>)
    ensures
        spec_varint(b) matches Some((v, k)) ==> 1 <= k <= b.len(),
    decreases b.len(),
{
    if b.len() > 0 {
        lemma_varint_len(b.drop_first());
    }
}

proof fn lemma_unterminated(b: Seq<u8>)
    requires
        forall|j: int| 0 <= j < b.len() ==> b[j] >= 128,
    ensures
        spec_varint(b) is None,
    decreases b.len(),
{
    if b.len() > 0 {
        lemma_unterminated(b.drop_first());
    }
}

/// Reads the varint that starts at `pos`; returns it with the position after it.
pub fn decode_varint(buf: &[u8], pos: usize) -> (r: Result<(u64, usize), DecodeError>)
    requires
        pos <= buf@.len(),
    ensures
        match spec_varint(rest(buf@, pos as int)) {
            Some((v, n)) => r matches Ok((w, q)) && w == v && q == pos + n,
            None => r == Err::<(u64, usize), DecodeError>(DecodeError::UnexpectedEnd),
        },
        r matches Ok((_, q)) ==> pos < q <= buf@.len(),
{
    let len = buf.len();
    let mut end: usize = pos;
    while end < len && buf[end] >= 128
        invariant
            pos <= end <= len,
            len == buf@.len(),
            forall|j: int| pos <= j < end ==> buf@[j] >= 128,
        decreases len - end,
    {
        end = end + 1;
    }
    if end == len {
        proof {
            lemma_unterminated(rest(buf@, pos as int));
        }
        return Err(DecodeError::UnexpectedEnd);
    }
    let mut value: u64 = buf[end] as u64;
    let mut i: usize = end;
    while i > pos
        invariant
            pos <= i <= end < len,
            len == buf@.len(),
            forall|j: int| pos <= j < end ==> buf@[j] >= 128,
            spec_varint(rest(buf@, i as int)) == Some((value, (end + 1 - i) as nat)),
        decreases i,
    {
        i = i - 1;
        assert(rest(buf@, i as int).drop_first() =~= rest(buf@, i + 1));
        value = shift_in(value, buf[i] - 128);
    }
    Ok((value, end + 1))
}


/// The unsigned little-endian value of the first four bytes of `b`.
pub open spec fn spec_fixed32(b: Seq<u8>) -> Option<u32> {
    if b.len() < 4 {
        None
    } else {
        Some((b[0] + 0x100 * b[1] + 0x1_0000 * b[2] + 0x100_0000 * b[3]) as u32)
    }
}

/// The unsigned little-endian value of the first eight bytes of `b`.
pub open spec fn spec_fixed64(b: Seq<u8>) -> Option<u64> {
    if b.len() < 8 {
        None
    } else {
        Some((b[0] + 0x100 * b[1] + 0x1_0000 * b[2] + 0x100_0000 * b[3]
            + 0x1_0000_0000 * b[4] + 0x100_0000_0000 * b[5] + 0x1_0000_0000_0000 * b[6]
            + 0x100_0000_0000_0000 * b[7]) as u64)
    }
}

/// A varint length `n` followed by `n` bytes: the payload and the number of
/// bytes taken in all.
pub open spec fn spec_length_prefixed(b: Seq<u8>) -> Option<(Seq<u8>, nat)> {
    match spec_varint(b) {
        Some((n, k)) => if k + n <= b.len() {
            Some((b.subrange(k as int, k + n), (k + n) as nat))
        } else {
            None
        },
        None => None,
    }
}

/// Reads four little-endian bytes at `pos`.
pub fn decode_fixed32(buf: &[u8], pos: usize) -> (r: Result<(u32, usize), DecodeError>)
    requires
        pos <= buf@.len(),
    ensures
        match spec_fixed32(rest(buf@, pos as int)) {
            Some(v) => r matches Ok((w, q)) && w == v && q == pos + 4,
            None => r == Err::<(u32, usize), DecodeError>(DecodeError::UnexpectedEnd),
        },
{
    if buf.len() - pos < 4 {
        return Err(DecodeError::UnexpectedEnd);
    }
    let v = buf[pos] as u32 + 0x100 * (buf[pos + 1] as u32) + 0x1_0000 * (buf[pos + 2] as u32)
        + 0x100_0000 * (buf[pos + 3] as u32);
    Ok((v, pos + 4))
}

/// Reads eight little-endian bytes at `pos`.
pub fn decode_fixed64(buf: &[u8], pos: usize) -> (r: Result<(u64, usize), DecodeError>)
    requires
        pos <= buf@.len(),
    ensures
        match spec_fixed64(rest(buf@, pos as int)) {
            Some(v) => r matches Ok((w, q)) && w == v && q == pos + 8,
            None => r == Err::<(u64, usize), DecodeError>(DecodeError::UnexpectedEnd),
        },
{
    if buf.len() - pos < 8 {
        return Err(DecodeError::UnexpectedEnd);
    }
    let v = buf[pos] as u64 + 0x100 * (buf[pos + 1] as u64) + 0x1_0000 * (buf[pos + 2] as u64)
        + 0x100_0000 * (buf[pos + 3] as u64) + 0x1_0000_0000 * (buf[pos + 4] as u64)
        + 0x100_0000_0000 * (buf[pos + 5] as u64) + 0x1_0000_0000_0000 * (buf[pos + 6] as u64)
        + 0x100_0000_0000_0000 * (buf[pos + 7] as u64);
    Ok((v, pos + 8))
}

/// Reads a varint length at `pos` and then exactly that many bytes; returns
/// them as a view into `buf` with the position after them.
pub fn decode_length_prefixed<'a>(buf: &'a [u8], pos: usize) -> (r: Result<(&'a [u8], usize), DecodeError>)
    requires
        pos <= buf@.len(),
    ensures
        match spec_length_prefixed(rest(buf@, pos as int)) {
            Some((p, c)) => r matches Ok((s, q)) && s@ == p && q == pos + c,
            None => r == Err::<(&[u8], usize), DecodeError>(DecodeError::UnexpectedEnd),
        },
{
    let (n, start) = match decode_varint(buf, pos) {
        Ok(x) => x,
        Err(e) => return Err(e),
    };
    proof {
        lemma_varint_len(rest(buf@, pos as int));
    }
    if n > (buf.len() - start) as u64 {
        return Err(DecodeError::UnexpectedEnd);
    }
    let end = start + n as usize;
    let payload = vstd::slice::slice_subrange(buf, start, end);
    assert(payload@ =~= rest(buf@, pos as int).subrange(start - pos, end - pos));
    Ok((payload, end))
}

/// The four little-endian bytes of `v`.
pub open spec fn fixed32_bytes(v: u32) -> Seq<u8> {
    seq![(v % 0x100) as u8, (v / 0x100 % 0x100) as u8, (v / 0x1_0000 % 0x100) as u8, (v / 0x100_0000) as u8]
}

/// The eight little-endian bytes of `v`.
pub open spec fn fixed64_bytes(v: u64) -> Seq<u8> {
    fixed32_bytes((v % 0x1_0000_0000) as u32) + fixed32_bytes((v / 0x1_0000_0000) as u32)
}

/// The LEB128 encoding of `v`.
pub fn encode_varint(v: u64) -> (r: Vec<u8>)
    ensures
        r@ == varint_bytes(v),
{
    let mut out: Vec<u8> = Vec::new();
    let mut x: u64 = v;
    while x >= 128
        invariant
            out@ + varint_bytes(x) == varint_bytes(v),
        decreases x,
    {
        let ghost before = out@;
        out.push((x % 128 + 128) as u8);
        assert(before + varint_bytes(x) =~= out@ + varint_bytes(x / 128));
        x = x / 128;
    }
    out.push(x as u8);
    assert(out@ =~= varint_bytes(v));
    out
}

/// The four little-endian bytes of `v`.
pub fn encode_fixed32(v: u32) -> (r: Vec<u8>)
    ensures
        r@ == fixed32_bytes(v),
{
    let mut out: Vec<u8> = Vec::new();
    out.push((v % 0x100) as u8);
    out.push((v / 0x100 % 0x100) as u8);
    out.push((v / 0x1_0000 % 0x100) as u8);
    out.push((v / 0x100_0000) as u8);
    assert(out@ =~= fixed32_bytes(v));
    out
}

/// The eight little-endian bytes of `v`.
pub fn encode_fixed64(v: u64) -> (r: Vec<u8>)
    ensures
        r@ == fixed64_bytes(v),
{
    let mut out = encode_fixed32((v % 0x1_0000_0000) as u32);
    let mut high = encode_fixed32((v / 0x1_0000_0000) as u32);
    out.append(&mut high);
    out
}

/// Decoding the LEB128 encoding of any `u64` gives it back, and reads
/// exactly the encoded bytes whatever follows them.
pub proof fn lemma_varint_round_trip(v: u64, tail: Seq<u8>)
    ensures
        spec_varint(varint_bytes(v) + tail) == Some((v, varint_bytes(v).len())),
    decreases v,
{
    let s = varint_bytes(v) + tail;
    if v >= 128 {
        lemma_varint_round_trip(v / 128, tail);
        assert(s.drop_first() =~= varint_bytes(v / 128) + tail);
        assert(v % 128 + 128 * (v / 128) == v);
        lemma_small_mod(v as nat, u64::MAX as nat + 1);
    }
}

/// Decoding the four little-endian bytes of any `u32` gives it back.
pub proof fn lemma_fixed32_round_trip(v: u32, tail: Seq<u8>)
    ensures
        spec_fixed32(fixed32_bytes(v) + tail) == Some(v),
{
    let s = fixed32_bytes(v) + tail;
    assert(s[0] == v % 0x100 && s[1] == v / 0x100 % 0x100 && s[2] == v / 0x1_0000 % 0x100 && s[3] == v / 0x100_0000);
    assert(v % 0x100 + 0x100 * (v / 0x100 % 0x100) + 0x1_0000 * (v / 0x1_0000 % 0x100) + 0x100_0000 * (v / 0x100_0000) == v);
}

/// Decoding the eight little-endian bytes of any `u64` gives it back.
pub proof fn lemma_fixed64_round_trip(v: u64, tail: Seq<u8>)
    ensures
        spec_fixed64(fixed64_bytes(v) + tail) == Some(v),
{
    let lo = (v % 0x1_0000_0000) as u32;
    let hi = (v / 0x1_0000_0000) as u32;
    let s = fixed64_bytes(v) + tail;
    lemma_fixed32_round_trip(lo, seq![]);
    lemma_fixed32_round_trip(hi, seq![]);
    assert(fixed32_bytes(lo) + seq![] =~= fixed32_bytes(lo));
    assert(fixed32_bytes(hi) + seq![] =~= fixed32_bytes(hi));
    assert(s[4] == fixed32_bytes(hi)[0] && s[5] == fixed32_bytes(hi)[1] && s[6] == fixed32_bytes(hi)[2] && s[7] == fixed32_bytes(hi)[3]);
    assert(s[0] == fixed32_bytes(lo)[0] && s[1] == fixed32_bytes(lo)[1] && s[2] == fixed32_bytes(lo)[2] && s[3] == fixed32_bytes(lo)[3]);
    assert(lo + 0x1_0000_0000 * hi == v);
}

/// A length-prefixed field takes exactly its declared number of bytes after
/// the length: never fewer, never more.
pub proof fn lemma_length_prefix_exact(b: Seq<u8>)
    ensures
        spec_length_prefixed(b) matches Some((p, c)) ==> spec_varint(b) matches Some((n, k)) && p.len() == n
            && c == k + n && p == b.subrange(k as int, c as int),
{
}

} // verus!
