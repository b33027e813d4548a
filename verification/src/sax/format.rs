//! The layout of a checkpoint.
//!
//! | bytes     | content                                                       |
//! |-----------|---------------------------------------------------------------|
//! | 0 to 7    | `SAXWCKPT`                                                    |
//! | 8         | the version                                                   |
//! | 9 to 11   | zeros                                                         |
//! | 12 to 15  | the mask of the events                                        |
//! | 16 to 23  | how many bytes of the document have been consumed             |
//! | 24 to 39  | the line and the character                                    |
//! | 40        | the code of the state                                         |
//! | 41 to 44  | the number of open braces                                     |
//! | 45        | the quote that is open                                        |
//! | 46        | whether the start of the opening tag has been reported        |
//! | from 47   | the fragment, then the tokens in the order of [`Tokens`]      |

use vstd::prelude::*;

use super::checkpoint::{CheckpointError, CHECKPOINT_MAGIC, CHECKPOINT_VERSION};
use super::events::{enabled_events, mask_of, EVENT_MASK};
use super::parser::{SAXParserView, State};
use super::record::{u32_at, u64_at, Counted, Decoded, Record};
use super::tag::{AttrType, AttributeView, ProcInstView, TagView, TextView};

verus! {

/// The header of a text that owns its bytes.
pub open spec fn detached_header() -> (usize, usize) {
    (usize::MAX, usize::MAX)
}

/// The header of a tag that owns its name, or the part of its name that has been seen.
pub open spec fn detached_tag_header(pending_name: bool) -> (usize, usize) {
    if pending_name {
        (usize::MAX, 0)
    } else {
        (usize::MAX, usize::MAX)
    }
}

/// The parts of a text: start, end, range and value.
pub type TextParts = ((u64, u64), ((u64, u64), ((u64, u64), Counted)));

pub open spec fn text_parts(text: TextView) -> TextParts {
    (text.start, (text.end, (text.byte_range, Counted(text.value))))
}

pub open spec fn text_of(parts: TextParts) -> TextView {
    let (start, (end, (byte_range, value))) = parts;
    TextView { value: value.0, start, end, header: detached_header(), byte_range }
}

/// The bytes that a text is written as.
#[verifier::opaque]
pub open spec fn text_encoding(text: TextView) -> Seq<u8> {
    (true, text_parts(text)).encoding()
}

/// The bytes that are written of a text.
#[verifier::opaque]
pub open spec fn text_written(text: TextView) -> Seq<u8> {
    (true, text_parts(text)).written()
}

/// The position of a reader that has read a text from `at` on.
#[verifier::opaque]
pub open spec fn text_stop(data: Seq<u8>, at: int) -> int {
    match bool::decoding(data, at) {
        Ok((true, from)) => TextParts::stop(data, from),
        Ok((false, end)) => end,
        Err(_) => bool::stop(data, at),
    }
}

/// What `data` holds from `at` on, read as a text.
#[verifier::opaque]
pub open spec fn text_decoding(data: Seq<u8>, at: int) -> Decoded<TextView> {
    match bool::decoding(data, at) {
        Ok((true, from)) => match TextParts::decoding(data, from) {
            Ok((parts, end)) => Ok((text_of(parts), end)),
            Err(error) => Err(error),
        },
        Ok((false, _)) => Err(CheckpointError::Truncated),
        Err(error) => Err(error),
    }
}

/// A text: a byte that is 1, then its parts.
impl Record for TextView {
    open spec fn fits(self) -> bool {
        self.value.len() <= u32::MAX
    }

    open spec fn countable(self) -> bool {
        true
    }

    open spec fn detached(self) -> TextView {
        TextView { header: detached_header(), ..self }
    }

    open spec fn encoding(self) -> Seq<u8> {
        text_encoding(self)
    }

    open spec fn written(self) -> Seq<u8> {
        text_written(self)
    }

    open spec fn decoding(data: Seq<u8>, at: int) -> Decoded<TextView> {
        text_decoding(data, at)
    }

    open spec fn stop(data: Seq<u8>, at: int) -> int {
        text_stop(data, at)
    }

    open spec fn canonical(data: Seq<u8>, at: int) -> bool {
        true
    }

    proof fn lemma_detached(self) {
        reveal(text_encoding);
        reveal(text_written);
    }

    proof fn lemma_round_trip(self, data: Seq<u8>, at: int) {
        reveal(text_encoding);
        reveal(text_decoding);
        (true, text_parts(self)).lemma_round_trip(data, at);
    }

    proof fn lemma_decoded(data: Seq<u8>, at: int) {
        reveal(text_encoding);
        reveal(text_stop);
        reveal(text_decoding);
        <(bool, TextParts)>::lemma_decoded(data, at);
    }

    proof fn lemma_prefix(data: Seq<u8>, n: int, at: int) {
        reveal(text_encoding);
        reveal(text_decoding);
        <(bool, TextParts)>::lemma_prefix(data, n, at);
    }
}

/// A text that may be absent: the text, or a byte that is 0. Any byte but 1 is read as the mark
/// of an absent text.
impl Record for Option<TextView> {
    open spec fn fits(self) -> bool {
        self matches Some(text) ==> text.fits()
    }

    open spec fn countable(self) -> bool {
        true
    }

    open spec fn detached(self) -> Option<TextView> {
        match self {
            Some(text) => Some(text.detached()),
            None => None,
        }
    }

    open spec fn encoding(self) -> Seq<u8> {
        match self {
            Some(text) => text.encoding(),
            None => false.encoding(),
        }
    }

    open spec fn written(self) -> Seq<u8> {
        match self {
            Some(text) => text.written(),
            None => false.written(),
        }
    }

    open spec fn decoding(data: Seq<u8>, at: int) -> Decoded<Option<TextView>> {
        if at >= data.len() {
            Err(CheckpointError::Truncated)
        } else if data[at] == 1 {
            match TextView::decoding(data, at) {
                Ok((text, end)) => Ok((Some(text), end)),
                Err(error) => Err(error),
            }
        } else {
            Ok((None, at + 1))
        }
    }

    open spec fn stop(data: Seq<u8>, at: int) -> int {
        if at >= data.len() {
            at
        } else if data[at] == 1 {
            TextView::stop(data, at)
        } else {
            at + 1
        }
    }

    open spec fn canonical(data: Seq<u8>, at: int) -> bool {
        0 <= at < data.len() ==> data[at] <= 1
    }

    proof fn lemma_detached(self) {
        if let Some(text) = self {
            text.lemma_detached();
        }
    }

    proof fn lemma_round_trip(self, data: Seq<u8>, at: int) {
        match self {
            Some(text) => {
                reveal(text_decoding);
                text.lemma_round_trip(data, at);
            },
            None => {
                false.lemma_round_trip(data, at);
            },
        }
    }

    proof fn lemma_decoded(data: Seq<u8>, at: int) {
        TextView::lemma_decoded(data, at);
        bool::lemma_decoded(data, at);
    }

    proof fn lemma_prefix(data: Seq<u8>, n: int, at: int) {
        TextView::lemma_prefix(data, n, at);
    }
}

/// The code of the way in which an attribute's value is written.
pub open spec fn attr_code(attr_type: AttrType) -> u8 {
    match attr_type {
        AttrType::NoValue => 0,
        AttrType::JSX => 1,
        AttrType::NoQuotes => 2,
        AttrType::SingleQuoted => 4,
        AttrType::DoubleQuoted => 8,
    }
}

/// The way of writing an attribute's value that has the code `code`.
pub open spec fn attr_type_with(code: u8) -> Option<AttrType> {
    if code == 0 {
        Some(AttrType::NoValue)
    } else if code == 1 {
        Some(AttrType::JSX)
    } else if code == 2 {
        Some(AttrType::NoQuotes)
    } else if code == 4 {
        Some(AttrType::SingleQuoted)
    } else if code == 8 {
        Some(AttrType::DoubleQuoted)
    } else {
        None
    }
}

impl Record for AttrType {
    open spec fn fits(self) -> bool {
        true
    }

    open spec fn countable(self) -> bool {
        true
    }

    open spec fn detached(self) -> AttrType {
        self
    }

    open spec fn encoding(self) -> Seq<u8> {
        attr_code(self).encoding()
    }

    open spec fn written(self) -> Seq<u8> {
        self.encoding()
    }

    open spec fn decoding(data: Seq<u8>, at: int) -> Decoded<AttrType> {
        match u8::decoding(data, at) {
            Ok((code, end)) => match attr_type_with(code) {
                Some(attr_type) => Ok((attr_type, end)),
                None => Err(CheckpointError::InvalidState),
            },
            Err(error) => Err(error),
        }
    }

    open spec fn stop(data: Seq<u8>, at: int) -> int {
        u8::stop(data, at)
    }

    open spec fn canonical(data: Seq<u8>, at: int) -> bool {
        true
    }

    proof fn lemma_detached(self) {
    }

    proof fn lemma_round_trip(self, data: Seq<u8>, at: int) {
        attr_code(self).lemma_round_trip(data, at);
    }

    proof fn lemma_decoded(data: Seq<u8>, at: int) {
        u8::lemma_decoded(data, at);
    }

    proof fn lemma_prefix(data: Seq<u8>, n: int, at: int) {
    }
}

/// The parts of an attribute: name, value, the way in which the value is written, and range.
pub type AttributeParts = (TextView, (TextView, (AttrType, (u64, u64))));

pub open spec fn attribute_parts(attribute: AttributeView) -> AttributeParts {
    (attribute.name, (attribute.value, (attribute.attr_type, attribute.byte_range)))
}

pub open spec fn attribute_of(parts: AttributeParts) -> AttributeView {
    let (name, (value, (attr_type, byte_range))) = parts;
    AttributeView { name, value, attr_type, byte_range }
}

/// The bytes that an attribute is written as.
#[verifier::opaque]
pub open spec fn attribute_encoding(attribute: AttributeView) -> Seq<u8> {
    attribute_parts(attribute).encoding()
}

/// The bytes that are written of an attribute.
#[verifier::opaque]
pub open spec fn attribute_written(attribute: AttributeView) -> Seq<u8> {
    attribute_parts(attribute).written()
}

/// The position of a reader that has read an attribute from `at` on.
#[verifier::opaque]
pub open spec fn attribute_stop(data: Seq<u8>, at: int) -> int {
    AttributeParts::stop(data, at)
}

/// What `data` holds from `at` on, read as an attribute.
#[verifier::opaque]
pub open spec fn attribute_decoding(data: Seq<u8>, at: int) -> Decoded<AttributeView> {
    match AttributeParts::decoding(data, at) {
        Ok((parts, end)) => Ok((attribute_of(parts), end)),
        Err(error) => Err(error),
    }
}

impl Record for AttributeView {
    open spec fn fits(self) -> bool {
        self.name.fits() && self.value.fits()
    }

    open spec fn countable(self) -> bool {
        true
    }

    open spec fn detached(self) -> AttributeView {
        AttributeView { name: self.name.detached(), value: self.value.detached(), ..self }
    }

    open spec fn encoding(self) -> Seq<u8> {
        attribute_encoding(self)
    }

    open spec fn written(self) -> Seq<u8> {
        attribute_written(self)
    }

    open spec fn decoding(data: Seq<u8>, at: int) -> Decoded<AttributeView> {
        attribute_decoding(data, at)
    }

    open spec fn stop(data: Seq<u8>, at: int) -> int {
        attribute_stop(data, at)
    }

    open spec fn canonical(data: Seq<u8>, at: int) -> bool {
        true
    }

    proof fn lemma_detached(self) {
        reveal(attribute_encoding);
        reveal(attribute_written);
        self.name.lemma_detached();
        self.value.lemma_detached();
    }

    proof fn lemma_round_trip(self, data: Seq<u8>, at: int) {
        reveal(attribute_encoding);
        reveal(attribute_decoding);
        attribute_parts(self).lemma_round_trip(data, at);
    }

    proof fn lemma_decoded(data: Seq<u8>, at: int) {
        reveal(attribute_encoding);
        reveal(attribute_stop);
        reveal(attribute_decoding);
        AttributeParts::lemma_decoded(data, at);
    }

    proof fn lemma_prefix(data: Seq<u8>, n: int, at: int) {
        reveal(attribute_encoding);
        reveal(attribute_decoding);
        AttributeParts::lemma_prefix(data, n, at);
    }
}

/// The parts of a processing instruction: start, end, range, target and content.
pub type ProcInstParts = ((u64, u64), ((u64, u64), ((u64, u64), (TextView, TextView))));

pub open spec fn proc_inst_parts(proc_inst: ProcInstView) -> ProcInstParts {
    (
        proc_inst.start,
        (proc_inst.end, (proc_inst.byte_range, (proc_inst.target, proc_inst.content))),
    )
}

pub open spec fn proc_inst_of(parts: ProcInstParts) -> ProcInstView {
    let (start, (end, (byte_range, (target, content)))) = parts;
    ProcInstView { start, end, target, content, byte_range }
}

/// A processing instruction that may be absent: a byte that is 1, then its parts, or a byte that
/// is 0.
impl Record for Option<ProcInstView> {
    open spec fn fits(self) -> bool {
        self matches Some(proc_inst) ==> proc_inst.target.fits() && proc_inst.content.fits()
    }

    open spec fn countable(self) -> bool {
        true
    }

    open spec fn detached(self) -> Option<ProcInstView> {
        match self {
            Some(proc_inst) => Some(
                ProcInstView {
                    target: proc_inst.target.detached(),
                    content: proc_inst.content.detached(),
                    ..proc_inst
                },
            ),
            None => None,
        }
    }

    open spec fn encoding(self) -> Seq<u8> {
        match self {
            Some(proc_inst) => (true, proc_inst_parts(proc_inst)).encoding(),
            None => false.encoding(),
        }
    }

    open spec fn written(self) -> Seq<u8> {
        match self {
            Some(proc_inst) => (true, proc_inst_parts(proc_inst)).written(),
            None => false.written(),
        }
    }

    open spec fn decoding(data: Seq<u8>, at: int) -> Decoded<Option<ProcInstView>> {
        match bool::decoding(data, at) {
            Ok((true, from)) => match ProcInstParts::decoding(data, from) {
                Ok((parts, end)) => Ok((Some(proc_inst_of(parts)), end)),
                Err(error) => Err(error),
            },
            Ok((false, end)) => Ok((None, end)),
            Err(error) => Err(error),
        }
    }

    open spec fn stop(data: Seq<u8>, at: int) -> int {
        match bool::decoding(data, at) {
            Ok((true, from)) => ProcInstParts::stop(data, from),
            Ok((false, end)) => end,
            Err(_) => bool::stop(data, at),
        }
    }

    open spec fn canonical(data: Seq<u8>, at: int) -> bool {
        true
    }

    proof fn lemma_detached(self) {
        if let Some(proc_inst) = self {
            proc_inst.target.lemma_detached();
            proc_inst.content.lemma_detached();
        }
    }

    proof fn lemma_round_trip(self, data: Seq<u8>, at: int) {
        match self {
            Some(proc_inst) => {
                (true, proc_inst_parts(proc_inst)).lemma_round_trip(data, at);
            },
            None => {
                false.lemma_round_trip(data, at);
            },
        }
    }

    proof fn lemma_decoded(data: Seq<u8>, at: int) {
        <(bool, ProcInstParts)>::lemma_decoded(data, at);
        bool::lemma_decoded(data, at);
    }

    proof fn lemma_prefix(data: Seq<u8>, n: int, at: int) {
        <(bool, ProcInstParts)>::lemma_prefix(data, n, at);
        bool::lemma_prefix(data, n, at);
    }
}

/// The parts of a tag: the four positions, whether it closes itself, range, whether its name is
/// pending, name, attributes and texts.
pub type TagParts = (
    ((u64, u64), (u64, u64)),
    (
        ((u64, u64), (u64, u64)),
        (bool, ((u64, u64), (bool, (Counted, (Seq<AttributeView>, Seq<TextView>))))),
    ),
);

pub open spec fn tag_parts(tag: TagView) -> TagParts {
    (
        (tag.open_start, tag.open_end),
        (
            (tag.close_start, tag.close_end),
            (
                tag.self_closing,
                (
                    tag.byte_range,
                    (tag.pending_name, (Counted(tag.name), (tag.attributes, tag.text_nodes))),
                ),
            ),
        ),
    )
}

pub open spec fn tag_of(parts: TagParts) -> TagView {
    let ((open_start, open_end), ((close_start, close_end), rest)) = parts;
    let (self_closing, (byte_range, (pending_name, (name, (attributes, text_nodes))))) = rest;
    TagView {
        name: name.0,
        attributes,
        text_nodes,
        self_closing,
        open_start,
        open_end,
        close_start,
        close_end,
        header: detached_tag_header(pending_name),
        byte_range,
        pending_name,
    }
}

/// The bytes that a tag is written as.
#[verifier::opaque]
pub open spec fn tag_encoding(tag: TagView) -> Seq<u8> {
    tag_parts(tag).encoding()
}

/// The bytes that are written of a tag.
#[verifier::opaque]
pub open spec fn tag_written(tag: TagView) -> Seq<u8> {
    tag_parts(tag).written()
}

/// The position of a reader that has read a tag from `at` on.
#[verifier::opaque]
pub open spec fn tag_stop(data: Seq<u8>, at: int) -> int {
    TagParts::stop(data, at)
}

/// What `data` holds from `at` on, read as a tag.
#[verifier::opaque]
pub open spec fn tag_decoding(data: Seq<u8>, at: int) -> Decoded<TagView> {
    match TagParts::decoding(data, at) {
        Ok((parts, end)) => Ok((tag_of(parts), end)),
        Err(error) => Err(error),
    }
}

impl Record for TagView {
    open spec fn fits(self) -> bool {
        &&& self.name.len() <= u32::MAX
        &&& self.attributes.fits()
        &&& self.text_nodes.fits()
    }

    open spec fn countable(self) -> bool {
        &&& self.attributes.len() <= u32::MAX
        &&& self.text_nodes.len() <= u32::MAX
    }

    open spec fn detached(self) -> TagView {
        TagView {
            attributes: self.attributes.detached(),
            text_nodes: self.text_nodes.detached(),
            header: detached_tag_header(self.pending_name),
            ..self
        }
    }

    open spec fn encoding(self) -> Seq<u8> {
        tag_encoding(self)
    }

    open spec fn written(self) -> Seq<u8> {
        tag_written(self)
    }

    open spec fn decoding(data: Seq<u8>, at: int) -> Decoded<TagView> {
        tag_decoding(data, at)
    }

    open spec fn stop(data: Seq<u8>, at: int) -> int {
        tag_stop(data, at)
    }

    open spec fn canonical(data: Seq<u8>, at: int) -> bool {
        true
    }

    proof fn lemma_detached(self) {
        reveal(tag_encoding);
        reveal(tag_written);
        self.attributes.lemma_detached();
        self.text_nodes.lemma_detached();
    }

    proof fn lemma_round_trip(self, data: Seq<u8>, at: int) {
        reveal(tag_encoding);
        reveal(tag_decoding);
        tag_parts(self).lemma_round_trip(data, at);
    }

    proof fn lemma_decoded(data: Seq<u8>, at: int) {
        reveal(tag_encoding);
        reveal(tag_stop);
        reveal(tag_decoding);
        TagParts::lemma_decoded(data, at);
    }

    proof fn lemma_prefix(data: Seq<u8>, n: int, at: int) {
        reveal(tag_encoding);
        reveal(tag_decoding);
        TagParts::lemma_prefix(data, n, at);
    }
}

/// The tokens of a parser: text, markup declaration, markup entity, closing tag, attribute,
/// processing instruction, tag and open elements.
pub type Tokens = (
    Option<TextView>,
    (
        Option<TextView>,
        (
            Option<TextView>,
            (TextView, (AttributeView, (Option<ProcInstView>, (TagView, Seq<TagView>)))),
        ),
    ),
);

pub open spec fn tokens(parser: SAXParserView) -> Tokens {
    (
        parser.text,
        (
            parser.markup_decl,
            (
                parser.markup_entity,
                (
                    parser.close_tag,
                    (parser.attribute, (parser.proc_inst, (parser.tag, parser.tags))),
                ),
            ),
        ),
    )
}

/// What stands in front of the tokens, behind the version: mask, offset, position, state, braces,
/// quote, whether the start of the opening tag has been reported, and fragment.
pub type Head = (u32, (u64, ((u64, u64), (u8, (u32, (u8, (bool, Counted)))))));

pub open spec fn head(parser: SAXParserView) -> Head {
    (
        mask_of(parser.events),
        (
            parser.consumed_offset,
            (
                parser.end_pos,
                (
                    parser.state.code,
                    (
                        parser.brace_ct,
                        (
                            parser.quote,
                            (parser.open_tag_start_dispatched, Counted(parser.fragment)),
                        ),
                    ),
                ),
            ),
        ),
    )
}

/// The bytes that every checkpoint of this version starts with.
pub open spec fn preamble() -> Seq<u8> {
    CHECKPOINT_MAGIC@ + seq![CHECKPOINT_VERSION, 0, 0, 0]
}

/// The checkpoint of a parser.
pub open spec fn checkpoint_encoding(parser: SAXParserView) -> Seq<u8> {
    preamble() + head(parser).encoding() + tokens(parser).encoding()
}

/// Every string of bytes in the parser is short enough for its length to be written: a checkpoint
/// of it can be made.
pub open spec fn encodable(parser: SAXParserView) -> bool {
    parser.fragment.len() <= u32::MAX && tokens(parser).fits()
}

/// Every list in the parser is short enough for its length to be written in full.
pub open spec fn countable(parser: SAXParserView) -> bool {
    tokens(parser).countable()
}

/// How many bytes a sequence has whose first byte is `first`, going by the range of that byte
/// alone, or 0 where it lies in none of the three ranges.
pub open spec fn sequence_length(first: u8) -> int {
    if 0xC0 <= first <= 0xDF {
        2
    } else if 0xE0 <= first <= 0xEF {
        3
    } else if 0xF0 <= first <= 0xF7 {
        4
    } else {
        0
    }
}

/// The bytes look like the beginning of a character of more than one byte, without its end, or
/// there are none. Only the range of the first byte and that of the others are looked at: overlong
/// sequences, and those beyond the last character, pass too.
pub open spec fn is_utf8_fragment(bytes: Seq<u8>) -> bool {
    bytes.len() > 0 ==> {
        &&& bytes.len() < sequence_length(bytes[0])
        &&& forall|i: int| 1 <= i < bytes.len() ==> 0x80 <= #[trigger] bytes[i] <= 0xBF
    }
}

/// The byte tells of no open quote, of an open double quote or of an open single quote.
pub open spec fn is_quote(quote: u8) -> bool {
    quote == 0 || quote == 0x22 || quote == 0x27
}

/// The parser that data holds in which the parts in front of the fragment are sound.
pub open spec fn restored(data: Seq<u8>, fragment: Seq<u8>, tokens: Tokens) -> SAXParserView {
    let (text, (markup_decl, (markup_entity, (close_tag, rest)))) = tokens;
    let (attribute, (proc_inst, (tag, tags))) = rest;
    SAXParserView {
        events: enabled_events(u32_at(data, 12)),
        consumed_offset: u64_at(data, 16),
        end_pos: (u64_at(data, 24), u64_at(data, 32)),
        state: State { code: data[40] },
        brace_ct: u32_at(data, 41),
        quote: data[45],
        open_tag_start_dispatched: data[46] == 1,
        fragment,
        text,
        markup_decl,
        markup_entity,
        close_tag,
        attribute,
        proc_inst,
        tag,
        tags,
    }
}

/// The parser that `data` is the checkpoint of, or the first reason to refuse it: `events` and
/// `consumed_offset` are what the checkpoint has to agree with, and `states` lists the codes of
/// the states of the tokenizer.
pub open spec fn checkpoint_decoding(
    data: Seq<u8>,
    events: u32,
    consumed_offset: u64,
    states: Seq<u8>,
) -> Result<SAXParserView, CheckpointError> {
    if data.len() < 8 {
        Err(CheckpointError::Truncated)
    } else if data.take(8) != CHECKPOINT_MAGIC@ {
        Err(CheckpointError::InvalidMagic)
    } else if data.len() < 9 {
        Err(CheckpointError::Truncated)
    } else if data[8] != CHECKPOINT_VERSION {
        Err(CheckpointError::UnsupportedVersion)
    } else if data.len() < 16 || data[9] != 0 || data[10] != 0 || data[11] != 0 {
        Err(CheckpointError::Truncated)
    } else if u32_at(data, 12) > EVENT_MASK || u32_at(data, 12) != events {
        Err(CheckpointError::InvalidEvents)
    } else if data.len() < 24 {
        Err(CheckpointError::Truncated)
    } else if u64_at(data, 16) != consumed_offset {
        Err(CheckpointError::InvalidOffset)
    } else if data.len() < 41 {
        Err(CheckpointError::Truncated)
    } else if !states.contains(data[40]) {
        Err(CheckpointError::InvalidState)
    } else if data.len() < 46 {
        Err(CheckpointError::Truncated)
    } else if !is_quote(data[45]) {
        Err(CheckpointError::InvalidQuote)
    } else if data.len() < 47 || data[46] > 1 {
        Err(CheckpointError::Truncated)
    } else {
        match Counted::decoding(data, 47) {
            Ok((fragment, from)) => if !is_utf8_fragment(fragment.0) {
                Err(CheckpointError::InvalidUtf8)
            } else {
                match Tokens::decoding(data, from) {
                    Ok((tokens, end)) => if end == data.len() {
                        Ok(restored(data, fragment.0, tokens))
                    } else {
                        Err(CheckpointError::Truncated)
                    },
                    Err(error) => Err(error),
                }
            },
            Err(error) => Err(error),
        }
    }
}

} // verus!
