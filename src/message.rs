//! Fields and messages: a tag followed by a value of the tag's wire type.

use crate::wire::{
    decode_fixed32, decode_fixed64, decode_length_prefixed, decode_varint, lemma_varint_len, rest,
    spec_fixed32, spec_fixed64, spec_length_prefixed, spec_varint, DecodeError,
};
use vstd::prelude::*;

verus! {

/// How a field's value is laid out on the wire.
#[derive(Clone, Copy, Debug, PartialEq, Eq, Structural)]
pub enum WireType {
    VarInt,
    Int64,
    LengthPrefixed,
    StartGroup,
    EndGroup,
    Int32,
}

/// A field's tag: its wire type and its field number.
#[derive(Clone, Copy, Debug, PartialEq, Eq, Structural)]
pub struct FieldTag {
    pub wire_type: WireType,
    pub field_number: u64,
}

/// A field's value; a length-prefixed payload is a view into the input.
#[derive(Clone, Copy, Debug, PartialEq, Eq)]
pub enum FieldValue<'a> {
    VarInt(u64),
    Int64(u64),
    LengthPrefixed(&'a [u8]),
    StartGroup,
    EndGroup,
    Int32(u32),
}

/// One decoded field.
#[derive(Clone, Copy, Debug, PartialEq, Eq)]
pub struct Field<'a> {
    pub field_number: u64,
    pub value: FieldValue<'a>,
}

/// The fields of a buffer, in the order they were read.
#[derive(Debug, PartialEq, Eq)]
pub struct Message<'a> {
    pub fields: Vec<Field<'a>>,
}

/// What a field value stands for, with a payload as a sequence of bytes.
pub enum ValueModel {
    VarInt(u64),
    Int64(u64),
    LengthPrefixed(Seq<u8>),
    StartGroup,
    EndGroup,
    Int32(u32),
}

/// What a field stands for.
pub struct FieldModel {
    pub field_number: u64,
    pub value: ValueModel,
}

impl<'a> View for FieldValue<'a> {
    type V = ValueModel;

    open spec fn view(&self) -> ValueModel {
        match *self {
            FieldValue::VarInt(v) => ValueModel::VarInt(v),
            FieldValue::Int64(v) => ValueModel::Int64(v),
            FieldValue::LengthPrefixed(p) => ValueModel::LengthPrefixed(p@),
            FieldValue::StartGroup => ValueModel::StartGroup,
            FieldValue::EndGroup => ValueModel::EndGroup,
            FieldValue::Int32(v) => ValueModel::Int32(v),
        }
    }
}

impl<'a> View for Field<'a> {
    type V = FieldModel;

    open spec fn view(&self) -> FieldModel {
        FieldModel { field_number: self.field_number, value: self.value@ }
    }
}

impl<'a> View for Message<'a> {
    type V = Seq<FieldModel>;

    open spec fn view(&self) -> Seq<FieldModel> {
        self.fields@.map_values(|f: Field<'a>| f@)
    }
}

/// The wire type that a tag's low three bits name, if any.
pub open spec fn wire_type_of(code: u64) -> Option<WireType> {
    if code == 0 {
        Some(WireType::VarInt)
    } else if code == 1 {
        Some(WireType::Int64)
    } else if code == 2 {
        Some(WireType::LengthPrefixed)
    } else if code == 3 {
        Some(WireType::StartGroup)
    } else if code == 4 {
        Some(WireType::EndGroup)
    } else if code == 5 {
        Some(WireType::Int32)
    } else {
        None
    }
}

/// The tag at the start of `b`, with the number of bytes it takes.
pub open spec fn spec_tag(b: Seq<u8>) -> Result<(FieldTag, nat), DecodeError> {
    match spec_varint(b) {
        None => Err(DecodeError::UnexpectedEnd),
        Some((t, k)) => match wire_type_of(t % 8) {
            Some(w) => Ok((FieldTag { wire_type: w, field_number: t / 8 }, k)),
            None => Err(DecodeError::InvalidWireType),
        },
    }
}

/// The value of wire type `w` at the start of `b`, with the bytes it takes.
pub open spec fn spec_value(w: WireType, b: Seq<u8>) -> Option<(ValueModel, nat)> {
    match w {
        WireType::VarInt => match spec_varint(b) {
            Some((v, n)) => Some((ValueModel::VarInt(v), n)),
            None => None,
        },
        WireType::Int64 => match spec_fixed64(b) {
            Some(v) => Some((ValueModel::Int64(v), 8)),
            None => None,
        },
        WireType::LengthPrefixed => match spec_length_prefixed(b) {
            Some((p, n)) => Some((ValueModel::LengthPrefixed(p), n)),
            None => None,
        },
        WireType::StartGroup => Some((ValueModel::StartGroup, 0)),
        WireType::EndGroup => Some((ValueModel::EndGroup, 0)),
        WireType::Int32 => match spec_fixed32(b) {
            Some(v) => Some((ValueModel::Int32(v), 4)),
            None => None,
        },
    }
}

/// The field at the start of `b`, with the number of bytes it takes.
pub open spec fn spec_field(b: Seq<u8>) -> Result<(FieldModel, nat), DecodeError> {
    match spec_tag(b) {
        Err(e) => Err(e),
        Ok((tag, k)) => match spec_value(tag.wire_type, b.subrange(k as int, b.len() as int)) {
            Some((v, n)) => Ok((FieldModel { field_number: tag.field_number, value: v }, k + n)),
            None => Err(DecodeError::UnexpectedEnd),
        },
    }
}

/// A field takes at least one byte and no more than there are.
pub proof fn lemma_field_len(b: Seq<u8>)
    ensures
        spec_field(b) matches Ok((f, n)) ==> 1 <= n <= b.len(),
{
    lemma_varint_len(b);
    if let Ok((tag, k)) = spec_tag(b) {
        lemma_varint_len(b.subrange(k as int, b.len() as int));
    }
}

/// `r` with `pre` put before its fields.
pub open spec fn with_prefix(pre: Seq<FieldModel>, r: Result<Seq<FieldModel>, DecodeError>) -> Result<
    Seq<FieldModel>,
    DecodeError,
> {
    match r {
        Ok(s) => Ok(pre + s),
        Err(e) => Err(e),
    }
}

/// The whole of `b` read as fields, one after another, to its last byte.
///
/// A field that runs out of bytes leaves the rest of the buffer unread, so
/// the buffer fails with `TrailingBytes`; an unknown wire type fails with
/// `InvalidWireType`.
pub open spec fn spec_fields(b: Seq<u8>) -> Result<Seq<FieldModel>, DecodeError>
    decreases b.len() via fields_decreases
{
    if b.len() == 0 {
        Ok(seq![])
    } else {
        match spec_field(b) {
            Ok((f, n)) => with_prefix(seq![f], spec_fields(b.subrange(n as int, b.len() as int))),
            Err(DecodeError::InvalidWireType) => Err(DecodeError::InvalidWireType),
            Err(_) => Err(DecodeError::TrailingBytes),
        }
    }
}

#[via_fn]
proof fn fields_decreases(b: Seq<u8>) {
    lemma_field_len(b);
}

/// The room a field takes: one for its tag, and its payload's length.
pub open spec fn field_size(f: FieldModel) -> nat {
    match f.value {
        ValueModel::LengthPrefixed(p) => p.len() + 1,
        _ => 1,
    }
}

/// The room the fields take, summed.
pub open spec fn fields_size(fs: Seq<FieldModel>) -> nat
    decreases fs.len(),
{
    if fs.len() == 0 {
        0
    } else {
        fields_size(fs.drop_last()) + field_size(fs.last())
    }
}

/// A prefix of fields takes no more room than the whole.
pub proof fn lemma_size_prefix(fs: Seq<FieldModel>, j: int)
    requires
        0 <= j <= fs.len(),
    ensures
        fields_size(fs.take(j)) <= fields_size(fs),
    decreases fs.len() - j,
{
    if j < fs.len() {
        assert(fs.take(j + 1).drop_last() =~= fs.take(j));
        lemma_size_prefix(fs, j + 1);
    } else {
        assert(fs.take(j) =~= fs);
    }
}

/// Room taken by one field in front of others.
pub proof fn lemma_size_cons(f: FieldModel, fs: Seq<FieldModel>)
    ensures
        fields_size(seq![f] + fs) == field_size(f) + fields_size(fs),
    decreases fs.len(),
{
    if fs.len() > 0 {
        lemma_size_cons(f, fs.drop_last());
        assert((seq![f] + fs).drop_last() =~= seq![f] + fs.drop_last());
    } else {
        assert((seq![f] + fs).drop_last() =~= fs);
    }
}

/// A field takes at least the room its model counts.
proof fn lemma_field_size(b: Seq<u8>)
    ensures
        spec_field(b) matches Ok((f, n)) ==> field_size(f) <= n,
{
    lemma_varint_len(b);
    if let Ok((tag, k)) = spec_tag(b) {
        lemma_varint_len(b.subrange(k as int, b.len() as int));
    }
}

/// The fields decoded from a buffer take no more room than the buffer.
pub proof fn lemma_fields_size(b: Seq<u8>)
    ensures
        spec_fields(b) matches Ok(fs) ==> fields_size(fs) <= b.len(),
    decreases b.len(),
{
    if b.len() > 0 {
        lemma_field_len(b);
        lemma_field_size(b);
        if let Ok((f, n)) = spec_field(b) {
            let r = b.subrange(n as int, b.len() as int);
            lemma_fields_size(r);
            if let Ok(s) = spec_fields(r) {
                lemma_size_cons(f, s);
            }
        }
    }
}

/// The view of a decoding result.
pub open spec fn result_view<'a>(r: Result<Message<'a>, DecodeError>) -> Result<Seq<FieldModel>, DecodeError> {
    match r {
        Ok(m) => Ok(m@),
        Err(e) => Err(e),
    }
}

/// Reads the tag at `pos`.
pub fn decode_tag(buf: &[u8], pos: usize) -> (r: Result<(FieldTag, usize), DecodeError>)
    requires
        pos <= buf@.len(),
    ensures
        match spec_tag(rest(buf@, pos as int)) {
            Ok((t, k)) => r matches Ok((u, q)) && u == t && q == pos + k,
            Err(e) => r == Err::<(FieldTag, usize), DecodeError>(e),
        },
        r matches Ok((_, q)) ==> pos < q <= buf@.len(),
{
    let (t, next) = match decode_varint(buf, pos) {
        Ok(x) => x,
        Err(e) => return Err(e),
    };
    let code = t % 8;
    let wire_type = if code == 0 {
        WireType::VarInt
    } else if code == 1 {
        WireType::Int64
    } else if code == 2 {
        WireType::LengthPrefixed
    } else if code == 3 {
        WireType::StartGroup
    } else if code == 4 {
        WireType::EndGroup
    } else if code == 5 {
        WireType::Int32
    } else {
        return Err(DecodeError::InvalidWireType);
    };
    Ok((FieldTag { wire_type, field_number: t / 8 }, next))
}

/// Reads the field at `pos`: its tag, then a value of the tag's wire type.
pub fn decode_field<'a>(buf: &'a [u8], pos: usize) -> (r: Result<(Field<'a>, usize), DecodeError>)
    requires
        pos <= buf@.len(),
    ensures
        match spec_field(rest(buf@, pos as int)) {
            Ok((f, n)) => r matches Ok((g, q)) && g@ == f && q == pos + n,
            Err(e) => r == Err::<(Field, usize), DecodeError>(e),
        },
{
    let ghost b = rest(buf@, pos as int);
    let (tag, next) = match decode_tag(buf, pos) {
        Ok(x) => x,
        Err(e) => return Err(e),
    };
    proof {
        lemma_varint_len(b);
        assert(b.subrange(next - pos, b.len() as int) =~= rest(buf@, next as int));
    }
    let field_number = tag.field_number;
    match tag.wire_type {
        WireType::VarInt => match decode_varint(buf, next) {
            Ok((v, q)) => Ok((Field { field_number, value: FieldValue::VarInt(v) }, q)),
            Err(e) => Err(e),
        },
        WireType::Int64 => match decode_fixed64(buf, next) {
            Ok((v, q)) => Ok((Field { field_number, value: FieldValue::Int64(v) }, q)),
            Err(e) => Err(e),
        },
        WireType::LengthPrefixed => match decode_length_prefixed(buf, next) {
            Ok((p, q)) => Ok((Field { field_number, value: FieldValue::LengthPrefixed(p) }, q)),
            Err(e) => Err(e),
        },
        WireType::StartGroup => Ok((Field { field_number, value: FieldValue::StartGroup }, next)),
        WireType::EndGroup => Ok((Field { field_number, value: FieldValue::EndGroup }, next)),
        WireType::Int32 => match decode_fixed32(buf, next) {
            Ok((v, q)) => Ok((Field { field_number, value: FieldValue::Int32(v) }, q)),
            Err(e) => Err(e),
        },
    }
}

/// Decodes the whole buffer as a message; fails unless every byte belongs to
/// a field.
pub fn decode<'a>(buf: &'a [u8]) -> (r: Result<Message<'a>, DecodeError>)
    ensures
        result_view(r) == spec_fields(buf@),
        r matches Ok(m) ==> fields_size(m@) <= buf@.len(),
{
    let mut fields: Vec<Field<'a>> = Vec::new();
    let mut pos: usize = 0;
    let len = buf.len();
    assert(rest(buf@, 0) =~= buf@);
    assert(fields@.map_values(|f: Field<'a>| f@) + seq![] =~= seq![]);
    while pos < len
        invariant
            pos <= len,
            len == buf@.len(),
            spec_fields(buf@) == with_prefix(fields@.map_values(|f: Field<'a>| f@), spec_fields(rest(buf@, pos as int))),
        decreases len - pos,
    {
        let ghost b = rest(buf@, pos as int);
        let ghost pre = fields@.map_values(|f: Field<'a>| f@);
        proof {
            lemma_field_len(b);
        }
        match decode_field(buf, pos) {
            Ok((f, next)) => {
                proof {
                    assert(b.subrange(next - pos, b.len() as int) =~= rest(buf@, next as int));
                }
                fields.push(f);
                proof {
                    assert(fields@.map_values(|f: Field<'a>| f@) =~= pre + seq![f@]);
                    match spec_fields(rest(buf@, next as int)) {
                        Ok(s) => {
                            assert(pre + (seq![f@] + s) =~= (pre + seq![f@]) + s);
                        },
                        Err(_) => {},
                    }
                }
                pos = next;
            },
            Err(DecodeError::InvalidWireType) => return Err(DecodeError::InvalidWireType),
            Err(_) => return Err(DecodeError::TrailingBytes),
        }
    }
    assert(fields@.map_values(|f: Field<'a>| f@) + seq![] =~= fields@.map_values(|f: Field<'a>| f@));
    proof {
        lemma_fields_size(buf@);
    }
    Ok(Message { fields })
}

proof fn lemma_varint_extend(x: Seq<u8>, t: Seq<u8>)
    ensures
        spec_varint(x) matches Some(r) ==> spec_varint(x + t) == Some(r),
    decreases x.len(),
{
    if x.len() > 0 {
        assert((x + t).drop_first() =~= x.drop_first() + t);
        lemma_varint_extend(x.drop_first(), t);
    }
}

proof fn lemma_value_extend(w: WireType, y: Seq<u8>, t: Seq<u8>)
    ensures
        spec_value(w, y) matches Some(r) ==> spec_value(w, y + t) == Some(r),
{
    lemma_varint_extend(y, t);
    if let Some((n, k)) = spec_varint(y) {
        if k + n <= y.len() {
            assert((y + t).subrange(k as int, k + n) =~= y.subrange(k as int, k + n));
        }
    }
}

/// A field read from `x` reads the same when more bytes follow.
proof fn lemma_field_extend(x: Seq<u8>, t: Seq<u8>)
    ensures
        spec_field(x) matches Ok(r) ==> spec_field(x + t) == Ok::<(FieldModel, nat), DecodeError>(r),
{
    lemma_varint_extend(x, t);
    lemma_varint_len(x);
    if let Ok((tag, k)) = spec_tag(x) {
        let y = x.subrange(k as int, x.len() as int);
        assert((x + t).subrange(k as int, (x + t).len() as int) =~= y + t);
        lemma_value_extend(tag.wire_type, y, t);
    }
}

/// Two field streams written one after the other decode to the first's
/// fields followed by the second's, or fail as the second does.
pub proof fn lemma_fields_concat(s: Seq<u8>, t: Seq<u8>)
    requires
        spec_fields(s) is Ok,
    ensures
        spec_fields(s + t) == with_prefix(spec_fields(s)->Ok_0, spec_fields(t)),
    decreases s.len(),
{
    if s.len() == 0 {
        assert(s + t =~= t);
        if let Ok(ft) = spec_fields(t) {
            assert(seq![] + ft =~= ft);
        }
    } else {
        lemma_field_len(s);
        lemma_field_extend(s, t);
        let (f, n) = spec_field(s)->Ok_0;
        let s1 = s.subrange(n as int, s.len() as int);
        assert((s + t).subrange(n as int, (s + t).len() as int) =~= s1 + t);
        lemma_fields_concat(s1, t);
        if let Ok(ft) = spec_fields(t) {
            assert(seq![f] + (spec_fields(s1)->Ok_0 + ft) =~= (seq![f] + spec_fields(s1)->Ok_0) + ft);
        }
    }
}

/// A buffer that is a whole field stream followed by bytes that start a
/// field but run out before it ends fails with `TrailingBytes`.
pub proof fn lemma_trailing_bytes(s: Seq<u8>, t: Seq<u8>)
    requires
        spec_fields(s) is Ok,
        t.len() > 0,
        spec_field(t) == Err::<(FieldModel, nat), DecodeError>(DecodeError::UnexpectedEnd),
    ensures
        spec_fields(s + t) == Err::<Seq<FieldModel>, DecodeError>(DecodeError::TrailingBytes),
{
    lemma_fields_concat(s, t);
}

} // verus!
