//! Printing a decoded message as an indented tree of lines.
//!
//! Each line starts with two spaces per level of nesting. Integers are
//! printed in decimal, text as it is, other payloads as a bracketed list of
//! two-digit hex bytes, and a nested message between `N: {` and `}`. Group
//! markers print nothing.

use crate::message::{
    fields_size, lemma_fields_size, lemma_size_prefix, FieldModel, FieldValue, Message,
    ValueModel,
};
use crate::resolve::{classify, spec_classify, DecodedNode, NodeModel};
use vstd::prelude::*;
use vstd::string::StringSliceAdditionalSpecFns;

verus! {

/// Two spaces for each of `n` levels.
pub open spec fn indent_bytes(n: nat) -> Seq<u8>
    decreases n,
{
    if n == 0 {
        seq![]
    } else {
        indent_bytes((n - 1) as nat) + seq![32u8, 32u8]
    }
}

/// The decimal digits of `v`, most significant first.
pub open spec fn decimal(v: nat) -> Seq<u8>
    decreases v,
{
    if v < 10 {
        seq![(48 + v) as u8]
    } else {
        decimal(v / 10) + seq![(48 + v % 10) as u8]
    }
}

/// The lower-case hex digit for `d`, which is below 16.
pub open spec fn hex_digit(d: nat) -> u8 {
    if d < 10 {
        (48 + d) as u8
    } else {
        (87 + d) as u8
    }
}

/// Two hex digits for one byte.
pub open spec fn hex_pair(b: u8) -> Seq<u8> {
    seq![hex_digit((b / 16) as nat), hex_digit((b % 16) as nat)]
}

/// The hex pairs of `p`, separated by `, `.
pub open spec fn hex_items(p: Seq<u8>) -> Seq<u8>
    decreases p.len(),
{
    if p.len() == 0 {
        seq![]
    } else if p.len() == 1 {
        hex_pair(p[0])
    } else {
        hex_items(p.drop_last()) + seq![44u8, 32u8] + hex_pair(p.last())
    }
}

/// The hex pairs of `p` between brackets.
pub open spec fn hex_list(p: Seq<u8>) -> Seq<u8> {
    seq![91u8] + hex_items(p) + seq![93u8]
}

/// The start of a field's line: indentation, the field number and `: `.
pub open spec fn line_head(indent: nat, number: u64) -> Seq<u8> {
    indent_bytes(indent) + decimal(number as nat) + seq![58u8, 32u8]
}

/// The lines that print `fs` at nesting level `indent`.
pub open spec fn render_fields(fs: Seq<FieldModel>, indent: nat) -> Seq<Seq<u8>>
    decreases fields_size(fs) via render_decreases
{
    if fs.len() == 0 {
        seq![]
    } else {
        let f = fs.last();
        let head = line_head(indent, f.field_number);
        render_fields(fs.drop_last(), indent) + match f.value {
            ValueModel::VarInt(v) => seq![head + decimal(v as nat)],
            ValueModel::Int64(v) => seq![head + decimal(v as nat)],
            ValueModel::Int32(v) => seq![head + decimal(v as nat)],
            ValueModel::StartGroup => seq![],
            ValueModel::EndGroup => seq![],
            ValueModel::LengthPrefixed(p) => match spec_classify(p) {
                NodeModel::SubMessage(m) => seq![head + seq![123u8]] + render_fields(m, indent + 1)
                    + seq![indent_bytes(indent) + seq![125u8]],
                NodeModel::Text(t) => seq![head + t],
                NodeModel::RawBytes(b) => seq![head + hex_list(b)],
            },
        }
    }
}

#[via_fn]
proof fn render_decreases(fs: Seq<FieldModel>, indent: nat) {
    if fs.len() > 0 {
        if let ValueModel::LengthPrefixed(p) = fs.last().value {
            lemma_fields_size(p);
        }
    }
}

/// The bytes of each line.
pub open spec fn lines_view(v: Seq<Vec<u8>>) -> Seq<Seq<u8>> {
    v.map_values(|l: Vec<u8>| l@)
}

fn push_line(out: &mut Vec<Vec<u8>>, l: Vec<u8>)
    ensures
        lines_view(final(out)@) == lines_view(old(out)@).push(l@),
{
    out.push(l);
    assert(lines_view(out@) =~= lines_view(old(out)@).push(l@));
}

fn push_bytes(out: &mut Vec<u8>, b: &[u8])
    ensures
        final(out)@ == old(out)@ + b@,
{
    let ghost start = out@;
    let mut i: usize = 0;
    while i < b.len()
        invariant
            i <= b@.len(),
            out@ == start + b@.take(i as int),
        decreases b@.len() - i,
    {
        out.push(b[i]);
        assert(start + b@.take(i + 1) =~= (start + b@.take(i as int)).push(b@[i as int]));
        i = i + 1;
    }
    assert(b@.take(i as int) =~= b@);
}

fn push_indent(out: &mut Vec<u8>, n: usize)
    ensures
        final(out)@ == old(out)@ + indent_bytes(n as nat),
{
    let ghost start = out@;
    let mut i: usize = 0;
    assert(start + indent_bytes(0) =~= start);
    while i < n
        invariant
            i <= n,
            out@ == start + indent_bytes(i as nat),
        decreases n - i,
    {
        out.push(32u8);
        out.push(32u8);
        assert(start + indent_bytes((i + 1) as nat) =~= start + indent_bytes(i as nat) + seq![32u8, 32u8]);
        i = i + 1;
    }
}

fn push_decimal(out: &mut Vec<u8>, v: u64)
    ensures
        final(out)@ == old(out)@ + decimal(v as nat),
    decreases v,
{
    let ghost start = out@;
    if v >= 10 {
        push_decimal(out, v / 10);
    }
    out.push((48 + v % 10) as u8);
    assert(out@ =~= start + decimal(v as nat));
}

fn hex_digit_of(d: u8) -> (r: u8)
    requires
        d < 16,
    ensures
        r == hex_digit(d as nat),
{
    if d < 10 {
        48 + d
    } else {
        87 + d
    }
}

fn push_hex_list(out: &mut Vec<u8>, b: &[u8])
    ensures
        final(out)@ == old(out)@ + hex_list(b@),
{
    let ghost start = out@;
    out.push(91u8);
    let mut i: usize = 0;
    assert(b@.take(0) =~= seq![]);
    assert(out@ =~= start + seq![91u8] + hex_items(b@.take(0)));
    while i < b.len()
        invariant
            i <= b@.len(),
            out@ == start + seq![91u8] + hex_items(b@.take(i as int)),
        decreases b@.len() - i,
    {
        let ghost before = out@;
        assert(b@.take(i + 1).drop_last() =~= b@.take(i as int));
        if i > 0 {
            out.push(44u8);
            out.push(32u8);
        }
        out.push(hex_digit_of(b[i] / 16));
        out.push(hex_digit_of(b[i] % 16));
        if i > 0 {
            assert(out@ =~= before + seq![44u8, 32u8] + hex_pair(b@[i as int]));
        } else {
            assert(out@ =~= before + hex_pair(b@[i as int]));
        }
        i = i + 1;
    }
    assert(b@.take(i as int) =~= b@);
    out.push(93u8);
    assert(out@ =~= start + hex_list(b@));
}

fn line_start(indent: usize, number: u64) -> (r: Vec<u8>)
    ensures
        r@ == line_head(indent as nat, number),
{
    let mut l: Vec<u8> = Vec::new();
    push_indent(&mut l, indent);
    push_decimal(&mut l, number);
    l.push(58u8);
    l.push(32u8);
    assert(l@ =~= line_head(indent as nat, number));
    l
}

fn render_into<'a>(m: &Message<'a>, indent: usize, out: &mut Vec<Vec<u8>>)
    requires
        indent + fields_size(m@) <= usize::MAX,
    ensures
        lines_view(final(out)@) == lines_view(old(out)@) + render_fields(m@, indent as nat),
    decreases fields_size(m@),
{
    let ghost start = lines_view(out@);
    let mut i: usize = 0;
    assert(m@.take(0) =~= seq![]);
    assert(start + render_fields(m@.take(0), indent as nat) =~= start);
    while i < m.fields.len()
        invariant
            i <= m@.len(),
            m@.len() == m.fields@.len(),
            indent + fields_size(m@) <= usize::MAX,
            lines_view(out@) == start + render_fields(m@.take(i as int), indent as nat),
        decreases m@.len() - i,
    {
        let f = m.fields[i];
        let ghost fs = m@.take(i + 1);
        let ghost before = lines_view(out@);
        proof {
            assert(fs.drop_last() =~= m@.take(i as int));
            assert(fs.last() == f@);
            lemma_size_prefix(m@, i + 1);
        }
        let mut line = line_start(indent, f.field_number);
        match f.value {
            FieldValue::VarInt(v) => {
                push_decimal(&mut line, v);
                push_line(out, line);
            },
            FieldValue::Int64(v) => {
                push_decimal(&mut line, v);
                push_line(out, line);
            },
            FieldValue::Int32(v) => {
                push_decimal(&mut line, v as u64);
                push_line(out, line);
            },
            FieldValue::StartGroup => {},
            FieldValue::EndGroup => {},
            FieldValue::LengthPrefixed(p) => match classify(p) {
                DecodedNode::SubMessage(sub) => {
                    line.push(123u8);
                    assert(line@ =~= line_head(indent as nat, f.field_number) + seq![123u8]);
                    push_line(out, line);
                    proof {
                        lemma_fields_size(p@);
                    }
                    render_into(&sub, indent + 1, out);
                    let mut close: Vec<u8> = Vec::new();
                    push_indent(&mut close, indent);
                    close.push(125u8);
                    assert(close@ =~= indent_bytes(indent as nat) + seq![125u8]);
                    push_line(out, close);
                    assert(lines_view(out@) =~= before + (seq![line_head(indent as nat, f.field_number) + seq![123u8]]
                        + render_fields(sub@, (indent + 1) as nat) + seq![indent_bytes(indent as nat) + seq![125u8]]));
                },
                DecodedNode::Text(t) => {
                    push_bytes(&mut line, t.as_bytes());
                    push_line(out, line);
                },
                DecodedNode::RawBytes(b) => {
                    push_hex_list(&mut line, b);
                    push_line(out, line);
                },
            },
        }
        assert(lines_view(out@) =~= start + render_fields(fs, indent as nat));
        i = i + 1;
    }
    assert(m@.take(i as int) =~= m@);
}

/// The lines that print a message, outermost fields unindented.
pub fn render<'a>(m: &Message<'a>) -> (r: Vec<Vec<u8>>)
    requires
        fields_size(m@) <= usize::MAX,
    ensures
        lines_view(r@) == render_fields(m@, 0),
{
    let mut out: Vec<Vec<u8>> = Vec::new();
    assert(lines_view(out@) =~= seq![]);
    render_into(m, 0, &mut out);
    assert(seq![] + render_fields(m@, 0) =~= render_fields(m@, 0));
    out
}

} // verus!
