//! The stored value of a message: validated text, or raw bytes.

use vstd::prelude::*;
use vstd::string::*;
use vstd::utf8::*;

verus! {

/// Mathematical model of a stored value.
pub enum LineView {
    Text(Seq<char>),
    Bytes(Seq<u8>),
}

impl LineView {
    /// The value as raw bytes, whatever its variant.
    pub open spec fn bytes(self) -> Seq<u8> {
        match self {
            LineView::Text(t) => encode_utf8(t),
            LineView::Bytes(b) => b,
        }
    }

    /// The value as text, when it is stored as text.
    pub open spec fn text(self) -> Option<Seq<char>> {
        match self {
            LineView::Text(t) => Some(t),
            LineView::Bytes(_) => None,
        }
    }
}

#[derive(Debug, PartialEq)]
pub enum MsgLine {
    String(String),
    Bytes(Vec<u8>),
}

impl View for MsgLine {
    type V = LineView;

    open spec fn view(&self) -> LineView {
        match self {
            MsgLine::String(s) => LineView::Text(s@),
            MsgLine::Bytes(b) => LineView::Bytes(b@),
        }
    }
}

impl MsgLine {
    /// The text of the value, or `None` for a byte-only value.
    pub fn string(&self) -> (r: Option<&str>)
        ensures
            r matches Some(s) ==> self@.text() == Some(s@),
            r is None ==> self@.text() is None,
    {
        match self {
            MsgLine::String(s) => Some(s.as_str()),
            MsgLine::Bytes(_) => None,
        }
    }

    /// The raw bytes of the value (the UTF-8 encoding for text).
    pub fn bytes(&self) -> (r: &[u8])
        ensures
            r@ == self@.bytes(),
    {
        match self {
            MsgLine::String(s) => s.as_str().as_bytes(),
            MsgLine::Bytes(b) => b.as_slice(),
        }
    }
}

} // verus!
