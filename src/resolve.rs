//! Guessing what a length-prefixed payload holds.
//!
//! The wire format does not say whether a payload is a nested message, text
//! or plain bytes. The guesses are tried in that order and the first that
//! fits the whole payload wins; the last always fits.

use crate::message::{decode, spec_fields, FieldModel, Message};
use vstd::prelude::*;
use vstd::string::StringSliceAdditionalSpecFns;
use vstd::utf8::valid_utf8;

verus! {

/// What a payload was taken for.
#[derive(Debug, PartialEq, Eq)]
pub enum DecodedNode<'a> {
    SubMessage(Message<'a>),
    Text(&'a str),
    RawBytes(&'a [u8]),
}

/// What a payload stands for, with text given by its bytes.
pub enum NodeModel {
    SubMessage(Seq<FieldModel>),
    Text(Seq<u8>),
    RawBytes(Seq<u8>),
}

impl<'a> View for DecodedNode<'a> {
    type V = NodeModel;

    open spec fn view(&self) -> NodeModel {
        match self {
            DecodedNode::SubMessage(m) => NodeModel::SubMessage(m@),
            DecodedNode::Text(s) => NodeModel::Text(s.spec_bytes()),
            DecodedNode::RawBytes(b) => NodeModel::RawBytes(b@),
        }
    }
}

/// The first reading of `p` that fits all of it: a message, then UTF-8
/// text, then raw bytes.
pub open spec fn spec_classify(p: Seq<u8>) -> NodeModel {
    match spec_fields(p) {
        Ok(m) => NodeModel::SubMessage(m),
        Err(_) => if valid_utf8(p) {
            NodeModel::Text(p)
        } else {
            NodeModel::RawBytes(p)
        },
    }
}

/// Relies on std::str::from_utf8: it succeeds exactly when the bytes are
/// valid UTF-8, and then gives a string slice over those same bytes.
#[verifier::external_body]
fn utf8_text<'a>(b: &'a [u8]) -> (r: Option<&'a str>)
    ensures
        r is Some <==> valid_utf8(b@),
        r matches Some(s) ==> s.spec_bytes() == b@,
{
    std::str::from_utf8(b).ok()
}

/// Classifies a length-prefixed payload; never fails.
pub fn classify<'a>(payload: &'a [u8]) -> (r: DecodedNode<'a>)
    ensures
        r@ == spec_classify(payload@),
{
    match decode(payload) {
        Ok(m) => DecodedNode::SubMessage(m),
        Err(_) => match utf8_text(payload) {
            Some(s) => DecodedNode::Text(s),
            None => DecodedNode::RawBytes(payload),
        },
    }
}

/// A payload that reads as a whole message is taken for one, even when it is
/// also valid text.
pub proof fn lemma_submessage_first(p: Seq<u8>)
    requires
        spec_fields(p) is Ok,
    ensures
        spec_classify(p) == NodeModel::SubMessage(spec_fields(p)->Ok_0),
        !(spec_classify(p) is Text),
{
}

/// Every payload gets exactly one reading: a message when it decodes, else
/// text when it is UTF-8, else its bytes.
pub proof fn lemma_classify_total(p: Seq<u8>)
    ensures
        spec_classify(p) is SubMessage <==> spec_fields(p) is Ok,
        spec_classify(p) is Text <==> (spec_fields(p) is Err && valid_utf8(p)),
        spec_classify(p) is RawBytes <==> (spec_fields(p) is Err && !valid_utf8(p)),
        spec_classify(p) matches NodeModel::Text(t) ==> t == p,
        spec_classify(p) matches NodeModel::RawBytes(t) ==> t == p,
{
}

} // verus!
