//! Saving the state of the parser to a checkpoint, and restoring it.

use vstd::prelude::*;
use vstd::slice::{slice_subrange, slice_to_vec};

use super::events::{events_mask, EVENT_MASK};
use super::format::{
    attr_code, attr_type_with, attribute_decoding, attribute_encoding, attribute_stop,
    attribute_written, checkpoint_decoding, checkpoint_encoding, encodable, head, is_utf8_fragment,
    preamble, tag_decoding, tag_encoding, tag_parts, tag_stop, tag_written, text_decoding,
    text_encoding, text_stop, text_written, tokens,
};
use super::parser::{SAXParser, SAXParserView, State};
use super::record::{
    items_decoding, items_encoding, items_stop, lemma_eight_appended, lemma_item_appended,
    lemma_items_refused, lemma_list_appended, lemma_list_written, lemma_pair_appended,
    lemma_pair_written, u32_bytes, Counted, Decoded, Record,
};
use super::tag::{
    view_of, views, AttrType, Attribute, AttributeView, ProcInst, ProcInstView, Tag, TagView, Text,
    TextView,
};
use super::wire::lemma_fragments;

verus! {

/// The bytes that every checkpoint starts with: `SAXWCKPT`.
pub const CHECKPOINT_MAGIC: [u8; 8] = [83, 65, 88, 87, 67, 75, 80, 84];

/// The version of the layout.
pub const CHECKPOINT_VERSION: u8 = 1;

pub type CheckpointResult<T> = Result<T, CheckpointError>;

/// Why a checkpoint could not be made or was refused.
#[derive(Clone, Copy, Debug, PartialEq, Eq, Structural)]
pub enum CheckpointError {
    InvalidMagic,
    UnsupportedVersion,
    Truncated,
    InvalidLength,
    InvalidEvents,
    InvalidState,
    InvalidQuote,
    InvalidOffset,
    InvalidUtf8,
}

impl CheckpointError {
    /// The number of the error, for callers that take numbers only.
    pub open spec fn number(self) -> u32 {
        match self {
            CheckpointError::InvalidMagic => 1,
            CheckpointError::UnsupportedVersion => 2,
            CheckpointError::Truncated => 3,
            CheckpointError::InvalidLength => 4,
            CheckpointError::InvalidEvents => 5,
            CheckpointError::InvalidState => 6,
            CheckpointError::InvalidQuote => 7,
            CheckpointError::InvalidOffset => 8,
            CheckpointError::InvalidUtf8 => 9,
        }
    }

    /// The number of the error, for callers that take numbers only.
    pub fn code(self) -> (code: u32)
        ensures
            code == self.number(),
    {
        match self {
            CheckpointError::InvalidMagic => 1,
            CheckpointError::UnsupportedVersion => 2,
            CheckpointError::Truncated => 3,
            CheckpointError::InvalidLength => 4,
            CheckpointError::InvalidEvents => 5,
            CheckpointError::InvalidState => 6,
            CheckpointError::InvalidQuote => 7,
            CheckpointError::InvalidOffset => 8,
            CheckpointError::InvalidUtf8 => 9,
        }
    }
}

broadcast group group_writing {
    lemma_pair_appended,
    lemma_pair_written,
}

/// The bytes of a checkpoint that have been written so far.
pub struct Writer {
    pub bytes: Vec<u8>,
}

impl View for Writer {
    type V = Seq<u8>;

    open spec fn view(&self) -> Seq<u8> {
        self.bytes@
    }
}

impl Writer {
    pub fn new() -> (writer: Self)
        ensures
            writer@ == Seq::<u8>::empty(),
    {
        Writer { bytes: Vec::new() }
    }

    pub fn u8(&mut self, value: u8)
        ensures
            final(self)@ == old(self)@ + value.encoding(),
    {
        self.bytes.push(value);
        assert(self@ =~= old(self)@ + value.encoding());
    }

    pub fn u32(&mut self, value: u32)
        ensures
            final(self)@ == old(self)@ + value.encoding(),
    {
        self.bytes.push((value % 0x100) as u8);
        self.bytes.push((value / 0x100 % 0x100) as u8);
        self.bytes.push((value / 0x1_0000 % 0x100) as u8);
        self.bytes.push((value / 0x100_0000) as u8);
        reveal(u32_bytes);
        assert(self@ =~= old(self)@ + value.encoding());
    }

    pub fn u64(&mut self, value: u64)
        ensures
            final(self)@ == old(self)@ + value.encoding(),
    {
        self.u32((value % 0x1_0000_0000) as u32);
        self.u32((value / 0x1_0000_0000) as u32);
        assert(self@ =~= old(self)@ + value.encoding());
    }

    pub fn bool(&mut self, value: bool)
        ensures
            final(self)@ == old(self)@ + value.encoding(),
    {
        self.u8(value as u8);
    }

    fn pair(&mut self, first: u64, second: u64)
        ensures
            final(self)@ == old(self)@ + (first, second).encoding(),
    {
        proof {
            lemma_pair_appended(self@, first, second);
        }
        self.u64(first);
        self.u64(second);
    }

    /// Writes a string of bytes behind its length, or nothing where its length does not fit.
    pub fn bytes(&mut self, value: &[u8]) -> (result: CheckpointResult<()>)
        ensures
            match result {
                Ok(_) => Counted(value@).fits() && final(self)@ == old(self)@ + Counted(
                    value@,
                ).encoding(),
                Err(error) => error == CheckpointError::InvalidLength && !Counted(value@).fits()
                    && final(self)@ == old(self)@,
            },
            result is Ok <==> value@.len() <= 0xFFFF_FFFF,
    {
        if value.len() > u32::MAX as usize {
            return Err(CheckpointError::InvalidLength);
        }
        self.u32(value.len() as u32);
        self.bytes.extend_from_slice(value);
        assert(self@ =~= old(self)@ + Counted(value@).encoding());
        Ok(())
    }
}

pub fn write_text(writer: &mut Writer, text: Option<&Text>) -> (result: CheckpointResult<()>)
    ensures
        match result {
            Ok(_) => view_of(text).fits() && final(writer)@ == old(writer)@ + view_of(
                text,
            ).encoding(),
            Err(error) => error == CheckpointError::InvalidLength && !view_of(text).fits()
                && final(writer)@ == old(writer)@ + view_of(text).written(),
        },
{
    reveal(text_encoding);
    reveal(text_written);
    broadcast use group_writing;

    match text {
        Some(text) => {
            writer.bool(true);
            writer.pair(text.start[0], text.start[1]);
            writer.pair(text.end[0], text.end[1]);
            writer.pair(text.byte_range.0, text.byte_range.1);
            writer.bytes(&text.value)?;
        },
        None => writer.bool(false),
    }
    Ok(())
}

pub fn write_attribute(writer: &mut Writer, attribute: &Attribute) -> (result: CheckpointResult<()>)
    ensures
        match result {
            Ok(_) => attribute@.fits() && final(writer)@ == old(writer)@ + attribute@.encoding(),
            Err(error) => error == CheckpointError::InvalidLength && !attribute@.fits()
                && final(writer)@ == old(writer)@ + attribute@.written(),
        },
{
    reveal(attribute_encoding);
    reveal(attribute_written);
    broadcast use group_writing;

    write_text(writer, Some(&attribute.name))?;
    write_text(writer, Some(&attribute.value))?;
    writer.u8(attr_type_code(attribute.attr_type));
    writer.pair(attribute.byte_range.0, attribute.byte_range.1);
    Ok(())
}

pub fn write_proc_inst(
    writer: &mut Writer,
    proc_inst: Option<&ProcInst>,
) -> (result: CheckpointResult<()>)
    ensures
        match result {
            Ok(_) => view_of(proc_inst).fits() && final(writer)@ == old(writer)@
                + view_of(proc_inst).encoding(),
            Err(error) => error == CheckpointError::InvalidLength && !view_of(proc_inst).fits()
                && final(writer)@ == old(writer)@ + view_of(proc_inst).written(),
        },
{
    broadcast use group_writing;

    match proc_inst {
        Some(proc_inst) => {
            writer.bool(true);
            writer.pair(proc_inst.start[0], proc_inst.start[1]);
            writer.pair(proc_inst.end[0], proc_inst.end[1]);
            writer.pair(proc_inst.byte_range.0, proc_inst.byte_range.1);
            write_text(writer, Some(&proc_inst.target))?;
            write_text(writer, Some(&proc_inst.content))?;
        },
        None => writer.bool(false),
    }
    Ok(())
}

/// Writes the attributes behind their number, of which only the lowest 32 bits are written.
fn write_attributes(
    writer: &mut Writer,
    attributes: &Vec<Attribute>,
) -> (result: CheckpointResult<()>)
    ensures
        match result {
            Ok(_) => views(attributes@).fits() && final(writer)@ == old(writer)@
                + views(attributes@).encoding(),
            Err(error) => error == CheckpointError::InvalidLength && !views(attributes@).fits()
                && final(writer)@ == old(writer)@ + views(attributes@).written(),
        },
{
    let ghost all = views(attributes@);
    proof {
        lemma_list_appended(writer@, all);
    }
    writer.u32(attributes.len() as u32);
    let ghost counted = writer@;
    assert(counted + Seq::<u8>::empty() =~= counted);
    let mut i: usize = 0;
    while i < attributes.len()
        invariant
            i <= attributes@.len(),
            all == views(attributes@),
            counted == old(writer)@ + (all.len() as u32).encoding(),
            writer@ == counted + items_encoding(all.take(i as int)),
            forall|j: int| 0 <= j < i ==> #[trigger] all[j].fits(),
        decreases attributes@.len() - i,
    {
        proof {
            assert(all[i as int] == attributes@[i as int]@);
            lemma_item_appended(counted, all, i as int);
            if !all[i as int].fits() {
                lemma_list_written(old(writer)@, all, i as int);
            }
        }
        write_attribute(writer, &attributes[i])?;
        i = i + 1;
    }
    Ok(())
}

/// Writes the text nodes behind their number, of which only the lowest 32 bits are written.
fn write_text_nodes(writer: &mut Writer, text_nodes: &Vec<Text>) -> (result: CheckpointResult<()>)
    ensures
        match result {
            Ok(_) => views(text_nodes@).fits() && final(writer)@ == old(writer)@
                + views(text_nodes@).encoding(),
            Err(error) => error == CheckpointError::InvalidLength && !views(text_nodes@).fits()
                && final(writer)@ == old(writer)@ + views(text_nodes@).written(),
        },
{
    let ghost all = views(text_nodes@);
    proof {
        lemma_list_appended(writer@, all);
    }
    writer.u32(text_nodes.len() as u32);
    let ghost counted = writer@;
    assert(counted + Seq::<u8>::empty() =~= counted);
    let mut i: usize = 0;
    while i < text_nodes.len()
        invariant
            i <= text_nodes@.len(),
            all == views(text_nodes@),
            counted == old(writer)@ + (all.len() as u32).encoding(),
            writer@ == counted + items_encoding(all.take(i as int)),
            forall|j: int| 0 <= j < i ==> #[trigger] all[j].fits(),
        decreases text_nodes@.len() - i,
    {
        proof {
            assert(all[i as int] == text_nodes@[i as int]@);
            lemma_item_appended(counted, all, i as int);
            if !all[i as int].fits() {
                lemma_list_written(old(writer)@, all, i as int);
            }
        }
        write_text(writer, Some(&text_nodes[i]))?;
        i = i + 1;
    }
    Ok(())
}

pub fn write_tag(writer: &mut Writer, tag: &Tag) -> (result: CheckpointResult<()>)
    ensures
        match result {
            Ok(_) => tag@.fits() && final(writer)@ == old(writer)@ + tag@.encoding(),
            Err(error) => error == CheckpointError::InvalidLength && !tag@.fits()
                && final(writer)@ == old(writer)@ + tag@.written(),
        },
{
    reveal(tag_encoding);
    reveal(tag_written);
    proof {
        let parts = tag_parts(tag@);
        let (opening, (closing, _)) = parts;
        lemma_eight_appended(writer@, parts);
        lemma_pair_appended(writer@, opening.0, opening.1);
        lemma_pair_appended(writer@ + opening.encoding(), closing.0, closing.1);
    }
    writer.pair(tag.open_start[0], tag.open_start[1]);
    writer.pair(tag.open_end[0], tag.open_end[1]);
    writer.pair(tag.close_start[0], tag.close_start[1]);
    writer.pair(tag.close_end[0], tag.close_end[1]);
    writer.bool(tag.self_closing);
    writer.pair(tag.byte_range.0, tag.byte_range.1);
    writer.bool(tag.pending_name);
    writer.bytes(&tag.name)?;
    write_attributes(writer, &tag.attributes)?;
    write_text_nodes(writer, &tag.text_nodes)?;
    Ok(())
}

/// Writes the tags behind their number, of which only the lowest 32 bits are written.
fn write_tags(writer: &mut Writer, tags: &Vec<Tag>) -> (result: CheckpointResult<()>)
    ensures
        match result {
            Ok(_) => views(tags@).fits() && final(writer)@ == old(writer)@
                + views(tags@).encoding(),
            Err(error) => error == CheckpointError::InvalidLength && !views(tags@).fits()
                && final(writer)@ == old(writer)@ + views(tags@).written(),
        },
{
    let ghost all = views(tags@);
    proof {
        lemma_list_appended(writer@, all);
    }
    writer.u32(tags.len() as u32);
    let ghost counted = writer@;
    assert(counted + Seq::<u8>::empty() =~= counted);
    let mut i: usize = 0;
    while i < tags.len()
        invariant
            i <= tags@.len(),
            all == views(tags@),
            counted == old(writer)@ + (all.len() as u32).encoding(),
            writer@ == counted + items_encoding(all.take(i as int)),
            forall|j: int| 0 <= j < i ==> #[trigger] all[j].fits(),
        decreases tags@.len() - i,
    {
        proof {
            assert(all[i as int] == tags@[i as int]@);
            lemma_item_appended(counted, all, i as int);
            if !all[i as int].fits() {
                lemma_list_written(old(writer)@, all, i as int);
            }
        }
        write_tag(writer, &tags[i])?;
        i = i + 1;
    }
    Ok(())
}

/// Writes what stands in front of the tokens, behind the version.
fn write_head(writer: &mut Writer, parser: &SAXParser) -> (result: CheckpointResult<()>)
    ensures
        match result {
            Ok(_) => Counted(parser.fragment@).fits() && final(writer)@ == old(writer)@ + head(
                parser@,
            ).encoding(),
            Err(error) => error == CheckpointError::InvalidLength
                && !Counted(parser.fragment@).fits()
                && final(writer)@ == old(writer)@ + head(parser@).written(),
        },
{
    proof {
        lemma_eight_appended(writer@, head(parser@));
    }
    writer.u32(events_mask(&parser.events));
    writer.u64(parser.consumed_offset);
    writer.pair(parser.end_pos[0], parser.end_pos[1]);
    writer.u8(state_code(parser.state));
    writer.u32(parser.brace_ct);
    writer.u8(parser.quote);
    writer.bool(parser.open_tag_start_dispatched);
    writer.bytes(&parser.fragment)
}

fn write_tokens(writer: &mut Writer, parser: &SAXParser) -> (result: CheckpointResult<()>)
    ensures
        match result {
            Ok(_) => tokens(parser@).fits() && final(writer)@ == old(writer)@
                + tokens(parser@).encoding(),
            Err(error) => error == CheckpointError::InvalidLength && !tokens(parser@).fits()
                && final(writer)@ == old(writer)@ + tokens(parser@).written(),
        },
{
    proof {
        lemma_eight_appended(writer@, tokens(parser@));
    }
    write_text(writer, parser.text.as_ref())?;
    write_text(writer, parser.markup_decl.as_ref())?;
    write_text(writer, parser.markup_entity.as_ref())?;
    write_text(writer, Some(&parser.close_tag))?;
    write_attribute(writer, &parser.attribute)?;
    write_proc_inst(writer, parser.proc_inst.as_ref())?;
    write_tag(writer, &parser.tag)?;
    write_tags(writer, &parser.tags)
}

/// Makes a checkpoint of the parser. That fails only on a string of bytes whose length does not
/// fit into 32 bits.
///
/// The parser is to be one that owns its bytes
/// ([`owns_its_bytes`](super::laws::owns_its_bytes)): the checkpoint holds the bytes that the
/// tokens own, and the tokenizer copies what a token refers to in a chunk of the document into
/// the token before. Of a parser that refers to a chunk, the checkpoint is that of the same parser
/// without the references.
pub fn serialize(parser: &SAXParser) -> (result: CheckpointResult<Vec<u8>>)
    ensures
        match result {
            Ok(data) => encodable(parser@) && data@ == checkpoint_encoding(parser@),
            Err(error) => error == CheckpointError::InvalidLength && !encodable(parser@),
        },
{
    let mut writer = Writer::new();
    writer.bytes.extend_from_slice(&CHECKPOINT_MAGIC);
    writer.u8(CHECKPOINT_VERSION);
    writer.u8(0);
    writer.u8(0);
    writer.u8(0);
    assert(writer@ =~= preamble());
    write_head(&mut writer, parser)?;
    write_tokens(&mut writer, parser)?;
    Ok(writer.bytes)
}

/// A position in the bytes of a checkpoint.
pub struct Reader<'a> {
    pub bytes: &'a [u8],
    pub position: usize,
}

impl<'a> Reader<'a> {
    /// What stands at the position.
    pub open spec fn next<R: Record>(self) -> Decoded<R> {
        R::decoding(self.bytes@, self.position as int)
    }

    /// The reader stands in the bytes of `before`, where the reading of an `R` from there stops.
    pub open spec fn has_read<R: Record>(self, before: Reader<'a>) -> bool {
        &&& self.bytes == before.bytes
        &&& self.position == R::stop(before.bytes@, before.position as int)
    }

    pub fn new(bytes: &'a [u8]) -> (reader: Self)
        ensures
            reader.bytes == bytes,
            reader.position == 0,
    {
        Reader { bytes, position: 0 }
    }

    /// The next `length` bytes. Where there are fewer, the reader stays where it is.
    pub fn take(&mut self, length: usize) -> (result: CheckpointResult<&'a [u8]>)
        ensures
            final(self).bytes == old(self).bytes,
            match result {
                Ok(value) => old(self).position + length <= old(self).bytes@.len() && value@
                    == old(self).bytes@.subrange(
                    old(self).position as int,
                    old(self).position + length,
                ) && final(self).position == old(self).position + length,
                Err(error) => error == CheckpointError::Truncated && old(self).position + length
                    > old(self).bytes@.len() && final(self).position == old(self).position,
            },
    {
        if self.position > self.bytes.len() || length > self.bytes.len() - self.position {
            return Err(CheckpointError::Truncated);
        }
        let end = self.position + length;
        let value = slice_subrange(self.bytes, self.position, end);
        self.position = end;
        Ok(value)
    }

    pub fn u8(&mut self) -> (result: CheckpointResult<u8>)
        ensures
            final(self).has_read::<u8>(*old(self)),
            match result {
                Ok(value) => old(self).next::<u8>() == Ok::<_, CheckpointError>(
                    (value, final(self).position as int),
                ),
                Err(error) => old(self).next::<u8>() == Err::<(u8, int), _>(error),
            },
    {
        let value = self.take(1)?;
        Ok(value[0])
    }

    pub fn u32(&mut self) -> (result: CheckpointResult<u32>)
        ensures
            final(self).has_read::<u32>(*old(self)),
            match result {
                Ok(value) => old(self).next::<u32>() == Ok::<_, CheckpointError>(
                    (value, final(self).position as int),
                ),
                Err(error) => old(self).next::<u32>() == Err::<(u32, int), _>(error),
            },
    {
        let value = self.take(4)?;
        Ok(
            value[0] as u32 + 0x100 * value[1] as u32 + 0x1_0000 * value[2] as u32 + 0x100_0000
                * value[3] as u32,
        )
    }

    pub fn u64(&mut self) -> (result: CheckpointResult<u64>)
        ensures
            final(self).has_read::<u64>(*old(self)),
            match result {
                Ok(value) => old(self).next::<u64>() == Ok::<_, CheckpointError>(
                    (value, final(self).position as int),
                ),
                Err(error) => old(self).next::<u64>() == Err::<(u64, int), _>(error),
            },
    {
        let value = self.take(8)?;
        let low: u32 = value[0] as u32 + 0x100 * value[1] as u32 + 0x1_0000 * value[2] as u32
            + 0x100_0000 * value[3] as u32;
        let high: u32 = value[4] as u32 + 0x100 * value[5] as u32 + 0x1_0000 * value[6] as u32
            + 0x100_0000 * value[7] as u32;
        Ok(low as u64 + 0x1_0000_0000 * high as u64)
    }

    pub fn bool(&mut self) -> (result: CheckpointResult<bool>)
        ensures
            final(self).has_read::<bool>(*old(self)),
            match result {
                Ok(value) => old(self).next::<bool>() == Ok::<_, CheckpointError>(
                    (value, final(self).position as int),
                ),
                Err(error) => old(self).next::<bool>() == Err::<(bool, int), _>(error),
            },
    {
        match self.u8()? {
            0 => Ok(false),
            1 => Ok(true),
            _ => Err(CheckpointError::Truncated),
        }
    }

    fn pair(&mut self) -> (result: CheckpointResult<(u64, u64)>)
        ensures
            final(self).has_read::<(u64, u64)>(*old(self)),
            match result {
                Ok(value) => old(self).next::<(u64, u64)>() == Ok::<_, CheckpointError>(
                    (value, final(self).position as int),
                ),
                Err(error) => old(self).next::<(u64, u64)>() == Err::<((u64, u64), int), _>(error),
            },
    {
        let first = self.u64()?;
        let second = self.u64()?;
        Ok((first, second))
    }

    /// Reads a string of bytes behind its length.
    pub fn bytes(&mut self) -> (result: CheckpointResult<&'a [u8]>)
        ensures
            final(self).has_read::<Counted>(*old(self)),
            match result {
                Ok(value) => old(self).next::<Counted>() == Ok::<_, CheckpointError>(
                    (Counted(value@), final(self).position as int),
                ),
                Err(error) => old(self).next::<Counted>() == Err::<(Counted, int), _>(error),
            },
    {
        let length = self.u32()? as usize;
        self.take(length)
    }
}

pub fn read_text(reader: &mut Reader) -> (result: CheckpointResult<Text>)
    ensures
        final(reader).has_read::<TextView>(*old(reader)),
        match result {
            Ok(text) => old(reader).next::<TextView>() == Ok::<_, CheckpointError>(
                (text@, final(reader).position as int),
            ),
            Err(error) => old(reader).next::<TextView>() == Err::<(TextView, int), _>(error),
        },
        result matches Ok(text) ==> text.header == (usize::MAX, usize::MAX),
{
    reveal(text_decoding);
    reveal(text_stop);
    if !reader.bool()? {
        return Err(CheckpointError::Truncated);
    }
    let start = reader.pair()?;
    let end = reader.pair()?;
    let byte_range = reader.pair()?;
    let value = slice_to_vec(reader.bytes()?);
    Ok(
        Text {
            value,
            start: [start.0, start.1],
            end: [end.0, end.1],
            header: (usize::MAX, usize::MAX),
            byte_range,
        },
    )
}

pub fn optional_text(reader: &mut Reader) -> (result: CheckpointResult<Option<Text>>)
    ensures
        final(reader).has_read::<Option<TextView>>(*old(reader)),
        match result {
            Ok(text) => old(reader).next::<Option<TextView>>() == Ok::<_, CheckpointError>(
                (view_of(text), final(reader).position as int),
            ),
            Err(error) => old(reader).next::<Option<TextView>>()
                == Err::<(Option<TextView>, int), _>(error),
        },
{
    if reader.position < reader.bytes.len() && reader.bytes[reader.position] == 1 {
        let text = read_text(reader)?;
        Ok(Some(text))
    } else {
        reader.u8()?;
        Ok(None)
    }
}

pub fn read_attribute(reader: &mut Reader) -> (result: CheckpointResult<Attribute>)
    ensures
        final(reader).has_read::<AttributeView>(*old(reader)),
        match result {
            Ok(attribute) => old(reader).next::<AttributeView>() == Ok::<_, CheckpointError>(
                (attribute@, final(reader).position as int),
            ),
            Err(error) => old(reader).next::<AttributeView>()
                == Err::<(AttributeView, int), _>(error),
        },
{
    reveal(attribute_decoding);
    reveal(attribute_stop);
    let name = read_text(reader)?;
    let value = read_text(reader)?;
    let attr_type = attr_type_from_code(reader.u8()?)?;
    let byte_range = reader.pair()?;
    Ok(Attribute { name, value, attr_type, byte_range })
}

pub fn read_proc_inst(reader: &mut Reader) -> (result: CheckpointResult<Option<ProcInst>>)
    ensures
        final(reader).has_read::<Option<ProcInstView>>(*old(reader)),
        match result {
            Ok(proc_inst) => old(reader).next::<Option<ProcInstView>>() == Ok::<_, CheckpointError>(
                (view_of(proc_inst), final(reader).position as int),
            ),
            Err(error) => old(reader).next::<Option<ProcInstView>>()
                == Err::<(Option<ProcInstView>, int), _>(error),
        },
{
    if !reader.bool()? {
        return Ok(None);
    }
    let start = reader.pair()?;
    let end = reader.pair()?;
    let byte_range = reader.pair()?;
    let target = read_text(reader)?;
    let content = read_text(reader)?;
    Ok(
        Some(
            ProcInst {
                start: [start.0, start.1],
                end: [end.0, end.1],
                target,
                content,
                byte_range,
            },
        ),
    )
}

/// Reads attributes behind their number.
fn read_attributes(reader: &mut Reader) -> (result: CheckpointResult<Vec<Attribute>>)
    ensures
        final(reader).has_read::<Seq<AttributeView>>(*old(reader)),
        match result {
            Ok(attributes) => old(reader).next::<Seq<AttributeView>>() == Ok::<_, CheckpointError>(
                (views(attributes@), final(reader).position as int),
            ),
            Err(error) => old(reader).next::<Seq<AttributeView>>()
                == Err::<(Seq<AttributeView>, int), _>(error),
        },
{
    let count = reader.u32()? as usize;
    let ghost data = reader.bytes@;
    let ghost from = reader.position as int;
    let mut attributes: Vec<Attribute> = Vec::new();
    assert(views(attributes@) =~= Seq::empty());
    let mut i: usize = 0;
    while i < count
        invariant
            i <= count,
            reader.bytes == old(reader).bytes,
            data == reader.bytes@,
            old(reader).next::<Seq<AttributeView>>()
                == items_decoding::<AttributeView>(data, from, count as nat),
            Seq::<AttributeView>::stop(data, old(reader).position as int)
                == items_stop::<AttributeView>(data, from, count as nat),
            items_stop::<AttributeView>(data, from, i as nat) == reader.position,
            items_decoding::<AttributeView>(data, from, i as nat) == Ok::<_, CheckpointError>(
                (views(attributes@), reader.position as int),
            ),
        decreases count - i,
    {
        proof {
            if items_decoding::<AttributeView>(data, from, (i + 1) as nat) is Err {
                lemma_items_refused::<AttributeView>(data, from, (i + 1) as nat, count as nat);
            }
        }
        let ghost before = attributes@;
        let item = read_attribute(reader)?;
        attributes.push(item);
        assert(views(attributes@) =~= views(before).push(item@));
        i = i + 1;
    }
    Ok(attributes)
}

/// Reads text nodes behind their number.
fn read_text_nodes(reader: &mut Reader) -> (result: CheckpointResult<Vec<Text>>)
    ensures
        final(reader).has_read::<Seq<TextView>>(*old(reader)),
        match result {
            Ok(text_nodes) => old(reader).next::<Seq<TextView>>() == Ok::<_, CheckpointError>(
                (views(text_nodes@), final(reader).position as int),
            ),
            Err(error) => old(reader).next::<Seq<TextView>>()
                == Err::<(Seq<TextView>, int), _>(error),
        },
{
    let count = reader.u32()? as usize;
    let ghost data = reader.bytes@;
    let ghost from = reader.position as int;
    let mut text_nodes: Vec<Text> = Vec::new();
    assert(views(text_nodes@) =~= Seq::empty());
    let mut i: usize = 0;
    while i < count
        invariant
            i <= count,
            reader.bytes == old(reader).bytes,
            data == reader.bytes@,
            old(reader).next::<Seq<TextView>>()
                == items_decoding::<TextView>(data, from, count as nat),
            Seq::<TextView>::stop(data, old(reader).position as int)
                == items_stop::<TextView>(data, from, count as nat),
            items_stop::<TextView>(data, from, i as nat) == reader.position,
            items_decoding::<TextView>(data, from, i as nat) == Ok::<_, CheckpointError>(
                (views(text_nodes@), reader.position as int),
            ),
        decreases count - i,
    {
        proof {
            if items_decoding::<TextView>(data, from, (i + 1) as nat) is Err {
                lemma_items_refused::<TextView>(data, from, (i + 1) as nat, count as nat);
            }
        }
        let ghost before = text_nodes@;
        let item = read_text(reader)?;
        text_nodes.push(item);
        assert(views(text_nodes@) =~= views(before).push(item@));
        i = i + 1;
    }
    Ok(text_nodes)
}

pub fn read_tag(reader: &mut Reader) -> (result: CheckpointResult<Tag>)
    ensures
        final(reader).has_read::<TagView>(*old(reader)),
        match result {
            Ok(tag) => old(reader).next::<TagView>() == Ok::<_, CheckpointError>(
                (tag@, final(reader).position as int),
            ),
            Err(error) => old(reader).next::<TagView>() == Err::<(TagView, int), _>(error),
        },
        result matches Ok(tag) ==> tag.header == (if tag.pending_name {
            (usize::MAX, 0usize)
        } else {
            (usize::MAX, usize::MAX)
        }),
{
    reveal(tag_decoding);
    reveal(tag_stop);
    let open_start = reader.pair()?;
    let open_end = reader.pair()?;
    let close_start = reader.pair()?;
    let close_end = reader.pair()?;
    let self_closing = reader.bool()?;
    let byte_range = reader.pair()?;
    let pending_name = reader.bool()?;
    let name = slice_to_vec(reader.bytes()?);
    let attributes = read_attributes(reader)?;
    let text_nodes = read_text_nodes(reader)?;
    Ok(
        Tag {
            name,
            attributes,
            text_nodes,
            self_closing,
            open_start: [open_start.0, open_start.1],
            open_end: [open_end.0, open_end.1],
            close_start: [close_start.0, close_start.1],
            close_end: [close_end.0, close_end.1],
            header: if pending_name {
                (usize::MAX, 0)
            } else {
                (usize::MAX, usize::MAX)
            },
            byte_range,
            pending_name,
        },
    )
}

/// Reads tags behind their number.
fn read_tags(reader: &mut Reader) -> (result: CheckpointResult<Vec<Tag>>)
    ensures
        final(reader).has_read::<Seq<TagView>>(*old(reader)),
        match result {
            Ok(tags) => old(reader).next::<Seq<TagView>>() == Ok::<_, CheckpointError>(
                (views(tags@), final(reader).position as int),
            ),
            Err(error) => old(reader).next::<Seq<TagView>>()
                == Err::<(Seq<TagView>, int), _>(error),
        },
{
    let count = reader.u32()? as usize;
    let ghost data = reader.bytes@;
    let ghost from = reader.position as int;
    let mut tags: Vec<Tag> = Vec::new();
    assert(views(tags@) =~= Seq::empty());
    let mut i: usize = 0;
    while i < count
        invariant
            i <= count,
            reader.bytes == old(reader).bytes,
            data == reader.bytes@,
            old(reader).next::<Seq<TagView>>()
                == items_decoding::<TagView>(data, from, count as nat),
            Seq::<TagView>::stop(data, old(reader).position as int)
                == items_stop::<TagView>(data, from, count as nat),
            items_stop::<TagView>(data, from, i as nat) == reader.position,
            items_decoding::<TagView>(data, from, i as nat) == Ok::<_, CheckpointError>(
                (views(tags@), reader.position as int),
            ),
        decreases count - i,
    {
        proof {
            if items_decoding::<TagView>(data, from, (i + 1) as nat) is Err {
                lemma_items_refused::<TagView>(data, from, (i + 1) as nat, count as nat);
            }
        }
        let ghost before = tags@;
        let item = read_tag(reader)?;
        tags.push(item);
        assert(views(tags@) =~= views(before).push(item@));
        i = i + 1;
    }
    Ok(tags)
}

/// Whether each byte but the first lies in the range of the bytes that go on with a character.
pub fn continuation_bytes(bytes: &[u8]) -> (all: bool)
    requires
        bytes@.len() > 0,
    ensures
        all == (forall|i: int| 1 <= i < bytes@.len() ==> 0x80 <= #[trigger] bytes@[i] <= 0xBF),
{
    let mut i: usize = 1;
    while i < bytes.len()
        invariant
            1 <= i <= bytes@.len(),
            forall|j: int| 1 <= j < i ==> 0x80 <= #[trigger] bytes@[j] <= 0xBF,
        decreases bytes@.len() - i,
    {
        if bytes[i] < 0x80 || bytes[i] > 0xBF {
            return false;
        }
        i = i + 1;
    }
    true
}

/// Accepts no bytes at all, and what looks like the beginning of a character of more than one
/// byte, without its end.
pub fn validate_utf8_fragment(bytes: &[u8]) -> (result: CheckpointResult<()>)
    ensures
        result == (if is_utf8_fragment(bytes@) {
            Ok(())
        } else {
            Err(CheckpointError::InvalidUtf8)
        }),
        result is Ok <==> bytes@.len() == 0 || (bytes@.len() == 1 && 0xC0 <= bytes@[0] <= 0xF7) || (
        bytes@.len() == 2 && 0xE0 <= bytes@[0] <= 0xF7 && 0x80 <= bytes@[1] <= 0xBF) || (
        bytes@.len() == 3 && 0xF0 <= bytes@[0] <= 0xF7 && 0x80 <= bytes@[1] <= 0xBF && 0x80
            <= bytes@[2] <= 0xBF),
{
    proof {
        lemma_fragments(bytes@);
    }
    if bytes.len() == 0 {
        return Ok(());
    }
    let first = bytes[0];
    let length: usize = if 0xC0 <= first && first <= 0xDF {
        2
    } else if 0xE0 <= first && first <= 0xEF {
        3
    } else if 0xF0 <= first && first <= 0xF7 {
        4
    } else {
        0
    };
    if bytes.len() < length && continuation_bytes(bytes) {
        Ok(())
    } else {
        Err(CheckpointError::InvalidUtf8)
    }
}

/// Whether the bytes are those that every checkpoint starts with.
fn is_magic(bytes: &[u8]) -> (equal: bool)
    requires
        bytes@.len() == 8,
    ensures
        equal == (bytes@ == CHECKPOINT_MAGIC@),
{
    let mut i: usize = 0;
    while i < 8
        invariant
            i <= 8,
            bytes@.len() == 8,
            forall|j: int| 0 <= j < i ==> bytes@[j] == CHECKPOINT_MAGIC@[j],
        decreases 8 - i,
    {
        if bytes[i] != CHECKPOINT_MAGIC[i] {
            return false;
        }
        i = i + 1;
    }
    assert(bytes@ =~= CHECKPOINT_MAGIC@);
    true
}

/// Restores a parser from a checkpoint of it. The checkpoint has to be one of a parser that
/// reports the events of the mask `events` and that has consumed `consumed_offset` bytes.
/// `states` lists the codes of the states of the tokenizer.
pub fn deserialize(data: &[u8], events: u32, consumed_offset: u64, states: &[u8]) -> (result:
    CheckpointResult<SAXParser>)
    ensures
        match result {
            Ok(parser) => checkpoint_decoding(data@, events, consumed_offset, states@) == Ok::<
                _,
                CheckpointError,
            >(parser@),
            Err(error) => checkpoint_decoding(data@, events, consumed_offset, states@) == Err::<
                SAXParserView,
                _,
            >(error),
        },
        result matches Ok(parser) ==> parser.consumed_offset == consumed_offset && states@.contains(
            parser.state.code,
        ) && (parser.quote == 0 || parser.quote == 0x22 || parser.quote == 0x27),
{
    let mut reader = Reader::new(data);
    let magic = reader.take(CHECKPOINT_MAGIC.len())?;
    assert(magic@ =~= data@.take(8));
    if !is_magic(magic) {
        return Err(CheckpointError::InvalidMagic);
    }
    if reader.u8()? != CHECKPOINT_VERSION {
        return Err(CheckpointError::UnsupportedVersion);
    }
    let reserved = reader.take(3)?;
    if reserved[0] != 0 || reserved[1] != 0 || reserved[2] != 0 {
        return Err(CheckpointError::Truncated);
    }
    let checkpoint_events = reader.u32()?;
    if checkpoint_events & !EVENT_MASK != 0 {
        assert(checkpoint_events > 0x3ff) by (bit_vector)
            requires
                checkpoint_events & !0x3ffu32 != 0,
        ;
        return Err(CheckpointError::InvalidEvents);
    }
    assert(checkpoint_events <= 0x3ff) by (bit_vector)
        requires
            checkpoint_events & !0x3ffu32 == 0,
    ;
    if checkpoint_events != events {
        return Err(CheckpointError::InvalidEvents);
    }
    let checkpoint_offset = reader.u64()?;
    if checkpoint_offset != consumed_offset {
        return Err(CheckpointError::InvalidOffset);
    }
    let line = reader.u64()?;
    let character = reader.u64()?;
    let state = state_from_code(reader.u8()?, states)?;
    let brace_ct = reader.u32()?;
    let quote = reader.u8()?;
    if quote != 0 && quote != 0x22 && quote != 0x27 {
        return Err(CheckpointError::InvalidQuote);
    }
    let open_tag_start_dispatched = reader.bool()?;
    let fragment = slice_to_vec(reader.bytes()?);
    validate_utf8_fragment(&fragment)?;
    let text = optional_text(&mut reader)?;
    let markup_decl = optional_text(&mut reader)?;
    let markup_entity = optional_text(&mut reader)?;
    let close_tag = read_text(&mut reader)?;
    let attribute = read_attribute(&mut reader)?;
    let proc_inst = read_proc_inst(&mut reader)?;
    let tag = read_tag(&mut reader)?;
    let tags = read_tags(&mut reader)?;
    if reader.position != data.len() {
        return Err(CheckpointError::Truncated);
    }
    Ok(
        SAXParser::from_checkpoint(
            checkpoint_events,
            checkpoint_offset,
            [line, character],
            state,
            brace_ct,
            quote,
            open_tag_start_dispatched,
            fragment,
            text,
            markup_decl,
            markup_entity,
            close_tag,
            attribute,
            proc_inst,
            tag,
            tags,
        ),
    )
}

/// The code of a state.
pub fn state_code(state: State) -> (code: u8)
    ensures
        code == state.code,
{
    state.code
}

/// The state whose code is `code`, among the states whose codes `states` lists.
pub fn state_from_code(code: u8, states: &[u8]) -> (result: CheckpointResult<State>)
    ensures
        result == (if states@.contains(code) {
            Ok(State { code })
        } else {
            Err(CheckpointError::InvalidState)
        }),
{
    State::from_checkpoint_code(code, states).ok_or(CheckpointError::InvalidState)
}

/// The code of the way in which an attribute's value is written.
pub fn attr_type_code(attr_type: AttrType) -> (code: u8)
    ensures
        code == attr_code(attr_type),
        code == (match attr_type {
            AttrType::NoValue => 0u8,
            AttrType::JSX => 1u8,
            AttrType::NoQuotes => 2u8,
            AttrType::SingleQuoted => 4u8,
            AttrType::DoubleQuoted => 8u8,
        }),
{
    match attr_type {
        AttrType::NoValue => 0,
        AttrType::JSX => 1,
        AttrType::NoQuotes => 2,
        AttrType::SingleQuoted => 4,
        AttrType::DoubleQuoted => 8,
    }
}

/// The way of writing an attribute's value whose code is `code`.
pub fn attr_type_from_code(code: u8) -> (result: CheckpointResult<AttrType>)
    ensures
        result == (match attr_type_with(code) {
            Some(attr_type) => Ok(attr_type),
            None => Err(CheckpointError::InvalidState),
        }),
        result is Ok <==> code == 0 || code == 1 || code == 2 || code == 4 || code == 8,
{
    match code {
        0 => Ok(AttrType::NoValue),
        1 => Ok(AttrType::JSX),
        2 => Ok(AttrType::NoQuotes),
        4 => Ok(AttrType::SingleQuoted),
        8 => Ok(AttrType::DoubleQuoted),
        _ => Err(CheckpointError::InvalidState),
    }
}

} // verus!
