//! The tokens that the parser builds and hands to its event handler.

use vstd::prelude::*;

verus! {

/// How the value of an attribute is written in the document.
#[derive(Clone, Copy, Debug, PartialEq, Eq, Structural)]
pub enum AttrType {
    NoValue,
    JSX,
    NoQuotes,
    SingleQuoted,
    DoubleQuoted,
}

/// A run of text with its place in the document.
///
/// Positions are pairs of a line and a character. `header` is the range of the current chunk
/// in which the bytes of the text stand while they have not been copied to `value`.
#[derive(Debug, PartialEq, Eq)]
pub struct Text {
    pub value: Vec<u8>,
    pub start: [u64; 2],
    pub end: [u64; 2],
    pub header: (usize, usize),
    pub byte_range: (u64, u64),
}

#[derive(Debug, PartialEq, Eq)]
pub struct Attribute {
    pub name: Text,
    pub value: Text,
    pub attr_type: AttrType,
    pub byte_range: (u64, u64),
}

/// A processing instruction.
#[derive(Debug, PartialEq, Eq)]
pub struct ProcInst {
    pub start: [u64; 2],
    pub end: [u64; 2],
    pub target: Text,
    pub content: Text,
    pub byte_range: (u64, u64),
}

/// An element: its tags' places, its attributes and its text.
///
/// `pending_name` tells that the chunk ended inside the name of the opening tag.
#[derive(Debug, PartialEq, Eq)]
pub struct Tag {
    pub name: Vec<u8>,
    pub attributes: Vec<Attribute>,
    pub text_nodes: Vec<Text>,
    pub self_closing: bool,
    pub open_start: [u64; 2],
    pub open_end: [u64; 2],
    pub close_start: [u64; 2],
    pub close_end: [u64; 2],
    pub header: (usize, usize),
    pub byte_range: (u64, u64),
    pub pending_name: bool,
}

/// What a [`Text`] holds.
pub struct TextView {
    pub value: Seq<u8>,
    pub start: (u64, u64),
    pub end: (u64, u64),
    pub header: (usize, usize),
    pub byte_range: (u64, u64),
}

/// What an [`Attribute`] holds.
pub struct AttributeView {
    pub name: TextView,
    pub value: TextView,
    pub attr_type: AttrType,
    pub byte_range: (u64, u64),
}

/// What a [`ProcInst`] holds.
pub struct ProcInstView {
    pub start: (u64, u64),
    pub end: (u64, u64),
    pub target: TextView,
    pub content: TextView,
    pub byte_range: (u64, u64),
}

/// What a [`Tag`] holds.
pub struct TagView {
    pub name: Seq<u8>,
    pub attributes: Seq<AttributeView>,
    pub text_nodes: Seq<TextView>,
    pub self_closing: bool,
    pub open_start: (u64, u64),
    pub open_end: (u64, u64),
    pub close_start: (u64, u64),
    pub close_end: (u64, u64),
    pub header: (usize, usize),
    pub byte_range: (u64, u64),
    pub pending_name: bool,
}

/// The line and the character that a position is made of.
pub open spec fn position(p: [u64; 2]) -> (u64, u64) {
    (p@[0], p@[1])
}

/// What each of the items of a list holds, in the order of the list.
pub open spec fn views<T: View>(items: Seq<T>) -> Seq<T::V> {
    items.map_values(|item: T| item@)
}

/// What an optional token holds, where there is one.
pub open spec fn view_of<T: View>(token: Option<T>) -> Option<T::V> {
    match token {
        Some(token) => Some(token@),
        None => None,
    }
}

impl View for Text {
    type V = TextView;

    open spec fn view(&self) -> TextView {
        TextView {
            value: self.value@,
            start: position(self.start),
            end: position(self.end),
            header: self.header,
            byte_range: self.byte_range,
        }
    }
}

impl View for Attribute {
    type V = AttributeView;

    open spec fn view(&self) -> AttributeView {
        AttributeView {
            name: self.name@,
            value: self.value@,
            attr_type: self.attr_type,
            byte_range: self.byte_range,
        }
    }
}

impl View for ProcInst {
    type V = ProcInstView;

    open spec fn view(&self) -> ProcInstView {
        ProcInstView {
            start: position(self.start),
            end: position(self.end),
            target: self.target@,
            content: self.content@,
            byte_range: self.byte_range,
        }
    }
}

impl View for Tag {
    type V = TagView;

    open spec fn view(&self) -> TagView {
        TagView {
            name: self.name@,
            attributes: views(self.attributes@),
            text_nodes: views(self.text_nodes@),
            self_closing: self.self_closing,
            open_start: position(self.open_start),
            open_end: position(self.open_end),
            close_start: position(self.close_start),
            close_end: position(self.close_end),
            header: self.header,
            byte_range: self.byte_range,
            pending_name: self.pending_name,
        }
    }
}

} // verus!
