//! What holds of checkpoints: laws of [`serialize`](super::checkpoint::serialize) and
//! [`deserialize`](super::checkpoint::deserialize), over what their contracts say of them.

use vstd::prelude::*;

use super::checkpoint::{CheckpointError, CHECKPOINT_MAGIC, CHECKPOINT_VERSION};
use super::events::{lemma_lookup_of_mask, lemma_mask_of_lookup, mask_of};
use super::format::{
    attr_code, attr_type_with, attribute_encoding, checkpoint_decoding, checkpoint_encoding,
    countable, encodable, head, is_quote, is_utf8_fragment, preamble, restored, text_encoding,
    tokens, Head, Tokens,
};
use super::parser::SAXParserView;
use super::record::{stands_at, u32_at, u32_bytes, u64_at, Counted, Record};
use super::tag::{AttrType, AttributeView, ProcInstView, TagView, TextView};

verus! {

/// The parser is in a condition that a checkpoint may tell of: it has a switch for each event,
/// its state is one of `states`, its quote is a quote, and its fragment looks like the beginning
/// of a character.
pub open spec fn resumable(parser: SAXParserView, states: Seq<u8>) -> bool {
    &&& parser.events.len() == 10
    &&& states.contains(parser.state.code)
    &&& is_quote(parser.quote)
    &&& is_utf8_fragment(parser.fragment)
}

/// The parser with no token in it referring to a chunk of the document.
pub open spec fn detached(parser: SAXParserView) -> SAXParserView {
    SAXParserView {
        text: parser.text.detached(),
        markup_decl: parser.markup_decl.detached(),
        markup_entity: parser.markup_entity.detached(),
        close_tag: parser.close_tag.detached(),
        attribute: parser.attribute.detached(),
        proc_inst: parser.proc_inst.detached(),
        tag: parser.tag.detached(),
        tags: parser.tags.detached(),
        ..parser
    }
}

/// No token of the parser refers to a chunk of the document: each owns its bytes. That is the
/// condition in which a tokenizer hands a parser over to be saved.
pub open spec fn owns_its_bytes(parser: SAXParserView) -> bool {
    detached(parser) == parser
}

/// Every absent text in the checkpoint is marked as it would be written, by 0.
pub open spec fn canonical(data: Seq<u8>) -> bool {
    Counted::decoding(data, 47) matches Ok((_, from)) ==> Tokens::canonical(data, from)
}

/// The position in a checkpoint of the parser from which the tokens stand.
spec fn tokens_from(parser: SAXParserView) -> int {
    12int + head(parser).encoding().len()
}

/// Where three parts stand that follow one another.
proof fn lemma_joined_parts(first: Seq<u8>, second: Seq<u8>, third: Seq<u8>)
    ensures
        ({
            let data = first + second + third;
            &&& data.take(first.len() as int) == first
            &&& stands_at(data, first.len() as int, second)
            &&& stands_at(data, first.len() + second.len() as int, third)
        }),
{
    let data = first + second + third;
    assert(data.take(first.len() as int) =~= first);
    assert(data.subrange(first.len() as int, first.len() + second.len() as int) =~= second);
    assert(data.subrange(first.len() + second.len() as int, data.len() as int) =~= third);
}

/// What stands where, in data that holds the parts in front of the tokens.
proof fn lemma_head(data: Seq<u8>, head: Head, end: int)
    requires
        Head::decoding(data, 12) == Ok::<_, CheckpointError>((head, end)),
    ensures
        ({
            let (mask, (offset, (end_pos, (code, (braces, (quote, (dispatched, fragment))))))) =
                head;
            &&& data.len() >= 51
            &&& u32_at(data, 12) == mask
            &&& u64_at(data, 16) == offset
            &&& (u64_at(data, 24), u64_at(data, 32)) == end_pos
            &&& data[40] == code
            &&& u32_at(data, 41) == braces
            &&& data[45] == quote
            &&& data[46] <= 1
            &&& (data[46] == 1) == dispatched
            &&& Counted::decoding(data, 47) == Ok::<_, CheckpointError>((fragment, end))
        }),
{
}

/// Where the parts of a checkpoint stand.
proof fn lemma_parts(parser: SAXParserView)
    requires
        encodable(parser),
    ensures
        ({
            let data = checkpoint_encoding(parser);
            &&& data.len() >= 51
            &&& data.take(8) == CHECKPOINT_MAGIC@
            &&& data[8] == CHECKPOINT_VERSION
            &&& data[9] == 0
            &&& data[10] == 0
            &&& data[11] == 0
            &&& u32_at(data, 12) == mask_of(parser.events)
            &&& u64_at(data, 16) == parser.consumed_offset
            &&& (u64_at(data, 24), u64_at(data, 32)) == parser.end_pos
            &&& data[40] == parser.state.code
            &&& u32_at(data, 41) == parser.brace_ct
            &&& data[45] == parser.quote
            &&& data[46] <= 1
            &&& (data[46] == 1) == parser.open_tag_start_dispatched
            &&& Counted::decoding(data, 47) == Ok::<_, CheckpointError>(
                (Counted(parser.fragment), tokens_from(parser)),
            )
            &&& stands_at(data, tokens_from(parser), tokens(parser).encoding())
            &&& data.len() == tokens_from(parser) + tokens(parser).encoding().len()
        }),
{
    let data = checkpoint_encoding(parser);
    lemma_joined_parts(preamble(), head(parser).encoding(), tokens(parser).encoding());
    assert(data.take(8) =~= preamble().take(8));
    assert(preamble().take(8) =~= CHECKPOINT_MAGIC@);
    assert(data.take(12) == preamble());
    assert(data.take(12)[8] == data[8] && data.take(12)[9] == data[9] && data.take(12)[10]
        == data[10] && data.take(12)[11] == data[11]);
    head(parser).lemma_round_trip(data, 12);
    lemma_head(data, head(parser), tokens_from(parser));
}

/// A checkpoint starts with the magic bytes and the version.
pub proof fn lemma_starts_with_preamble(parser: SAXParserView)
    requires
        encodable(parser),
    ensures
        checkpoint_encoding(parser).take(8) == CHECKPOINT_MAGIC@,
        checkpoint_encoding(parser)[8] == CHECKPOINT_VERSION,
{
    lemma_parts(parser);
}

/// A parser comes back from its checkpoint, with no token in it referring to a chunk of the
/// document any more.
pub proof fn lemma_round_trip(parser: SAXParserView, states: Seq<u8>)
    requires
        encodable(parser),
        countable(parser),
        resumable(parser, states),
    ensures
        checkpoint_decoding(
            checkpoint_encoding(parser),
            mask_of(parser.events),
            parser.consumed_offset,
            states,
        ) == Ok::<_, CheckpointError>(detached(parser)),
{
    let data = checkpoint_encoding(parser);
    lemma_parts(parser);
    lemma_lookup_of_mask(parser.events);
    tokens(parser).lemma_round_trip(data, tokens_from(parser));
    assert(restored(data, parser.fragment, tokens(parser).detached()) == detached(parser));
}

/// A parser that owns its bytes comes back from its checkpoint exactly as it was.
pub proof fn lemma_owned_round_trip(parser: SAXParserView, states: Seq<u8>)
    requires
        encodable(parser),
        countable(parser),
        resumable(parser, states),
        owns_its_bytes(parser),
    ensures
        checkpoint_decoding(
            checkpoint_encoding(parser),
            mask_of(parser.events),
            parser.consumed_offset,
            states,
        ) == Ok::<_, CheckpointError>(parser),
{
    lemma_round_trip(parser, states);
}

/// A checkpoint is refused where another number of consumed bytes is expected.
pub proof fn lemma_other_offset_refused(parser: SAXParserView, offset: u64, states: Seq<u8>)
    requires
        encodable(parser),
        parser.events.len() == 10,
        offset != parser.consumed_offset,
    ensures
        checkpoint_decoding(checkpoint_encoding(parser), mask_of(parser.events), offset, states)
            == Err::<SAXParserView, _>(CheckpointError::InvalidOffset),
{
    lemma_parts(parser);
    lemma_lookup_of_mask(parser.events);
}

/// A checkpoint is refused where other events are expected, whatever else is expected.
pub proof fn lemma_other_events_refused(
    parser: SAXParserView,
    events: u32,
    offset: u64,
    states: Seq<u8>,
)
    requires
        encodable(parser),
        events != mask_of(parser.events),
    ensures
        checkpoint_decoding(checkpoint_encoding(parser), events, offset, states) == Err::<
            SAXParserView,
            _,
        >(CheckpointError::InvalidEvents),
{
    lemma_parts(parser);
}

proof fn lemma_version_changed(
    data: Seq<u8>,
    version: u8,
    events: u32,
    offset: u64,
    states: Seq<u8>,
)
    requires
        data.len() >= 9,
        data.take(8) == CHECKPOINT_MAGIC@,
        version != CHECKPOINT_VERSION,
    ensures
        checkpoint_decoding(data.update(8, version), events, offset, states) == Err::<
            SAXParserView,
            _,
        >(CheckpointError::UnsupportedVersion),
{
    assert(data.update(8, version).take(8) =~= data.take(8));
}

/// A checkpoint with another version is refused, whatever is expected of it.
pub proof fn lemma_other_version_refused(
    parser: SAXParserView,
    version: u8,
    events: u32,
    offset: u64,
    states: Seq<u8>,
)
    requires
        encodable(parser),
        version != CHECKPOINT_VERSION,
    ensures
        checkpoint_decoding(checkpoint_encoding(parser).update(8, version), events, offset, states)
            == Err::<SAXParserView, _>(CheckpointError::UnsupportedVersion),
{
    lemma_parts(parser);
    lemma_version_changed(checkpoint_encoding(parser), version, events, offset, states);
}

proof fn lemma_magic_changed(
    data: Seq<u8>,
    i: int,
    byte: u8,
    events: u32,
    offset: u64,
    states: Seq<u8>,
)
    requires
        data.len() >= 8,
        0 <= i < 8,
        byte != CHECKPOINT_MAGIC@[i],
    ensures
        checkpoint_decoding(data.update(i, byte), events, offset, states) == Err::<
            SAXParserView,
            _,
        >(CheckpointError::InvalidMagic),
{
    assert(data.update(i, byte).take(8)[i] == byte);
}

/// A checkpoint with another byte in its magic bytes is refused, whatever is expected of it.
pub proof fn lemma_other_magic_refused(
    parser: SAXParserView,
    i: int,
    byte: u8,
    events: u32,
    offset: u64,
    states: Seq<u8>,
)
    requires
        encodable(parser),
        0 <= i < 8,
        byte != CHECKPOINT_MAGIC@[i],
    ensures
        checkpoint_decoding(checkpoint_encoding(parser).update(i, byte), events, offset, states)
            == Err::<SAXParserView, _>(CheckpointError::InvalidMagic),
{
    lemma_parts(parser);
    lemma_magic_changed(checkpoint_encoding(parser), i, byte, events, offset, states);
}

/// Data that holds the parts in front of the tokens, and where each of them stands.
proof fn lemma_head_read(data: Seq<u8>, fragment: Counted, from: int)
    requires
        data.len() >= 47,
        data[46] <= 1,
        Counted::decoding(data, 47) == Ok::<_, CheckpointError>((fragment, from)),
    ensures
        ({
            let head = (
                u32_at(data, 12),
                (
                    u64_at(data, 16),
                    (
                        (u64_at(data, 24), u64_at(data, 32)),
                        (data[40], (u32_at(data, 41), (data[45], (data[46] == 1, fragment)))),
                    ),
                ),
            );
            &&& Head::decoding(data, 12) == Ok::<_, CheckpointError>((head, from))
            &&& head.encoding() == data.subrange(12, from)
        }),
{
    Head::lemma_decoded(data, 12);
    assert(Head::canonical(data, 12));
}

/// What is restored is a parser that can be saved again, and it is what the caller asked for.
proof fn lemma_accepted(data: Seq<u8>, events: u32, offset: u64, states: Seq<u8>)
    requires
        checkpoint_decoding(data, events, offset, states) is Ok,
    ensures
        ({
            let parser = checkpoint_decoding(data, events, offset, states)->Ok_0;
            &&& resumable(parser, states)
            &&& encodable(parser)
            &&& countable(parser)
            &&& owns_its_bytes(parser)
            &&& mask_of(parser.events) == events
            &&& parser.consumed_offset == offset
            &&& Counted::decoding(data, 47) is Ok
            &&& ({
                let from = (Counted::decoding(data, 47)->Ok_0).1;
                &&& 47 <= from <= data.len()
                &&& head(parser).encoding() == data.subrange(12, from)
                &&& tokens(parser).encoding().len() == data.len() - from
                &&& canonical(data) ==> tokens(parser).encoding() == data.subrange(
                    from,
                    data.len() as int,
                )
            })
        }),
{
    let parser = checkpoint_decoding(data, events, offset, states)->Ok_0;
    let (fragment, from) = Counted::decoding(data, 47)->Ok_0;
    Counted::lemma_decoded(data, 47);
    Tokens::lemma_decoded(data, from);
    lemma_mask_of_lookup(events);
    let (parts, end) = Tokens::decoding(data, from)->Ok_0;
    assert(parser == restored(data, fragment.0, parts));
    assert(tokens(parser) == parts);
    assert(tokens(parser).detached() == tokens(parser));
    assert(detached(parser) == parser);
    lemma_head_read(data, fragment, from);
}

/// Data that starts as every checkpoint does.
proof fn lemma_preamble_read(data: Seq<u8>)
    requires
        data.len() >= 12,
        data.take(8) == CHECKPOINT_MAGIC@,
        data[8] == CHECKPOINT_VERSION,
        data[9] == 0,
        data[10] == 0,
        data[11] == 0,
    ensures
        data.take(12) == preamble(),
{
    assert forall|i: int| 0 <= i < 12 implies data.take(12)[i] == preamble()[i] by {
        if i < 8 {
            assert(data.take(8)[i] == CHECKPOINT_MAGIC@[i]);
        }
    }
    assert(data.take(12) =~= preamble());
}

/// The first twelve bytes, those up to some position, and what stands there, put together.
proof fn lemma_put_together(data: Seq<u8>, from: int, rest: Seq<u8>)
    requires
        12 <= from <= data.len(),
        rest.len() == data.len() - from,
    ensures
        (data.take(12) + data.subrange(12, from) + rest).len() == data.len(),
        rest == data.subrange(from, data.len() as int) ==> data.take(12) + data.subrange(12, from)
            + rest == data,
{
    if rest == data.subrange(from, data.len() as int) {
        assert(data.take(12) + data.subrange(12, from) + rest =~= data);
    }
}

/// What is restored is a parser that can be saved again: it owns its bytes, it is what the caller
/// asked for, it comes back from its own checkpoint unchanged, and that checkpoint is as long as
/// the one that it was restored from, and the same where that one marks absent texts by 0.
pub proof fn lemma_restored(data: Seq<u8>, events: u32, offset: u64, states: Seq<u8>)
    requires
        checkpoint_decoding(data, events, offset, states) is Ok,
    ensures
        ({
            let parser = checkpoint_decoding(data, events, offset, states)->Ok_0;
            &&& resumable(parser, states)
            &&& encodable(parser)
            &&& countable(parser)
            &&& owns_its_bytes(parser)
            &&& mask_of(parser.events) == events
            &&& parser.consumed_offset == offset
            &&& checkpoint_decoding(checkpoint_encoding(parser), events, offset, states) == Ok::<
                _,
                CheckpointError,
            >(parser)
            &&& checkpoint_encoding(parser).len() == data.len()
            &&& canonical(data) ==> checkpoint_encoding(parser) == data
        }),
{
    let parser = checkpoint_decoding(data, events, offset, states)->Ok_0;
    lemma_accepted(data, events, offset, states);
    lemma_round_trip(parser, states);
    lemma_preamble_read(data);
    let from = (Counted::decoding(data, 47)->Ok_0).1;
    lemma_put_together(data, from, tokens(parser).encoding());
}

/// What is decoded from a part of data behind which more stands.
proof fn lemma_checkpoint_prefix(data: Seq<u8>, n: int, events: u32, offset: u64, states: Seq<u8>)
    requires
        0 <= n < data.len(),
    ensures
        checkpoint_decoding(data, events, offset, states) is Ok ==> checkpoint_decoding(
            data.take(n),
            events,
            offset,
            states,
        ) == Err::<SAXParserView, _>(CheckpointError::Truncated),
        checkpoint_decoding(data.take(n), events, offset, states) is Ok ==> checkpoint_decoding(
            data,
            events,
            offset,
            states,
        ) == Err::<SAXParserView, _>(CheckpointError::Truncated),
{
    let part = data.take(n);
    if n >= 8 {
        assert(part.take(8) =~= data.take(8));
    }
    if n >= 47 {
        Counted::lemma_prefix(data, n, 47);
        Counted::lemma_decoded(part, 47);
        if let Ok((fragment, from)) = Counted::decoding(part, 47) {
            Tokens::lemma_prefix(data, n, from);
            Tokens::lemma_decoded(part, from);
        }
    }
}

/// A checkpoint that lacks bytes at its end is refused as truncated.
pub proof fn lemma_cut_off_refused(data: Seq<u8>, n: int, events: u32, offset: u64, states: Seq<u8>)
    requires
        0 <= n < data.len(),
        checkpoint_decoding(data, events, offset, states) is Ok,
    ensures
        checkpoint_decoding(data.take(n), events, offset, states) == Err::<SAXParserView, _>(
            CheckpointError::Truncated,
        ),
{
    lemma_checkpoint_prefix(data, n, events, offset, states);
}

/// A checkpoint behind which more bytes stand is refused.
pub proof fn lemma_trailing_bytes_refused(
    data: Seq<u8>,
    more: Seq<u8>,
    events: u32,
    offset: u64,
    states: Seq<u8>,
)
    requires
        more.len() > 0,
        checkpoint_decoding(data, events, offset, states) is Ok,
    ensures
        checkpoint_decoding(data + more, events, offset, states) == Err::<SAXParserView, _>(
            CheckpointError::Truncated,
        ),
{
    assert((data + more).take(data.len() as int) =~= data);
    lemma_checkpoint_prefix(data + more, data.len() as int, events, offset, states);
}

/// Parsers with the same checkpoint are the same, but for what their tokens refer to in a chunk
/// of the document.
pub proof fn lemma_checkpoint_identifies(first: SAXParserView, second: SAXParserView)
    requires
        first.events.len() == 10,
        second.events.len() == 10,
        encodable(first),
        encodable(second),
        countable(first),
        countable(second),
        checkpoint_encoding(first) == checkpoint_encoding(second),
    ensures
        detached(first) == detached(second),
{
    let data = checkpoint_encoding(first);
    lemma_parts(first);
    lemma_parts(second);
    lemma_lookup_of_mask(first.events);
    lemma_lookup_of_mask(second.events);
    tokens(first).lemma_round_trip(data, tokens_from(first));
    tokens(second).lemma_round_trip(data, tokens_from(second));
    assert(tokens(first).detached() == tokens(second).detached());
    assert(restored(data, first.fragment, tokens(first).detached()) == detached(first));
    assert(restored(data, second.fragment, tokens(second).detached()) == detached(second));
}

/// What tokens refer to in a chunk of the document never enters a checkpoint: of parsers that are
/// the same but for that, both can be saved or neither, and their checkpoints are the same.
pub proof fn lemma_references_not_saved(first: SAXParserView, second: SAXParserView)
    requires
        detached(first) == detached(second),
    ensures
        encodable(first) == encodable(second),
        checkpoint_encoding(first) == checkpoint_encoding(second),
{
    tokens(first).lemma_detached();
    tokens(second).lemma_detached();
    assert(tokens(first).detached() == tokens(detached(first)));
    assert(tokens(second).detached() == tokens(detached(second)));
    assert(head(first) == head(detached(first)));
    assert(head(second) == head(detached(second)));
}

/// What a tag and the texts in it refer to in a chunk of the document is never written, neither
/// where the tag can be written nor where the writing is given up.
pub proof fn lemma_tag_references_not_written(first: TagView, second: TagView)
    requires
        first.detached() == second.detached(),
    ensures
        first.fits() == second.fits(),
        first.encoding() == second.encoding(),
        first.written() == second.written(),
{
    first.lemma_detached();
    second.lemma_detached();
}

/// A value is read back where it stands first in some bytes, and refused as truncated where its
/// last bytes are missing.
proof fn lemma_read_back<R: Record>(value: R, rest: Seq<u8>, n: int)
    requires
        value.fits(),
        value.countable(),
        0 <= n < value.encoding().len(),
    ensures
        R::decoding(value.encoding() + rest, 0) == Ok::<_, CheckpointError>(
            (value.detached(), value.encoding().len() as int),
        ),
        R::decoding(value.encoding().take(n), 0) == Err::<(R, int), _>(CheckpointError::Truncated),
        R::stop(value.encoding().take(n), 0) <= n,
{
    let data = value.encoding();
    assert((data + rest).subrange(0, data.len() as int) =~= data);
    value.lemma_round_trip(data + rest, 0);
    assert(data.subrange(0, data.len() as int) =~= data);
    value.lemma_round_trip(data, 0);
    R::lemma_prefix(data, n, 0);
    R::lemma_decoded(data.take(n), 0);
}

/// A string of bytes is read back, whatever stands behind it, and refused as truncated where only
/// its first `n` bytes are there.
pub proof fn lemma_bytes_read_back(value: Seq<u8>, rest: Seq<u8>, n: int)
    requires
        Counted(value).fits(),
        0 <= n < Counted(value).encoding().len(),
    ensures
        Counted(value).encoding().len() == 4 + value.len(),
        Counted::decoding(Counted(value).encoding() + rest, 0) == Ok::<_, CheckpointError>(
            (Counted(value), 4 + value.len() as int),
        ),
        Counted::decoding(Counted(value).encoding().take(n), 0) == Err::<(Counted, int), _>(
            CheckpointError::Truncated,
        ),
{
    reveal(u32_bytes);
    lemma_read_back(Counted(value), rest, n);
}

/// A text is read back, whatever stands behind it, but for what it refers to in a chunk of the
/// document, and refused as truncated where only its first `n` bytes are there.
pub proof fn lemma_text_read_back(text: TextView, rest: Seq<u8>, n: int)
    requires
        text.fits(),
        0 <= n < text.encoding().len(),
    ensures
        text.encoding().len() == 53 + text.value.len(),
        TextView::decoding(text.encoding() + rest, 0) == Ok::<_, CheckpointError>(
            (text.detached(), text.encoding().len() as int),
        ),
        TextView::decoding(text.encoding().take(n), 0) == Err::<(TextView, int), _>(
            CheckpointError::Truncated,
        ),
{
    lemma_text_length(text);
    lemma_read_back(text, rest, n);
}

proof fn lemma_text_length(text: TextView)
    ensures
        text.encoding().len() == 53 + text.value.len(),
{
    reveal(text_encoding);
    reveal(u32_bytes);
}

/// A text that may be absent is read back, whatever stands behind it, but for what it refers to in
/// a chunk of the document, and refused as truncated where only its first `n` bytes are there.
pub proof fn lemma_optional_text_read_back(text: Option<TextView>, rest: Seq<u8>, n: int)
    requires
        text.fits(),
        0 <= n < text.encoding().len(),
    ensures
        Option::<TextView>::decoding(text.encoding() + rest, 0) == Ok::<_, CheckpointError>(
            (text.detached(), text.encoding().len() as int),
        ),
        Option::<TextView>::decoding(text.encoding().take(n), 0) == Err::<
            (Option<TextView>, int),
            _,
        >(CheckpointError::Truncated),
{
    lemma_read_back(text, rest, n);
}

/// An attribute is read back, whatever stands behind it, but for what its texts refer to in a
/// chunk of the document, and refused as truncated where only its first `n` bytes are there.
pub proof fn lemma_attribute_read_back(attribute: AttributeView, rest: Seq<u8>, n: int)
    requires
        attribute.fits(),
        0 <= n < attribute.encoding().len(),
    ensures
        attribute.encoding().len() == 123 + attribute.name.value.len()
            + attribute.value.value.len(),
        AttributeView::decoding(attribute.encoding() + rest, 0) == Ok::<_, CheckpointError>(
            (attribute.detached(), attribute.encoding().len() as int),
        ),
        AttributeView::decoding(attribute.encoding().take(n), 0) == Err::<(AttributeView, int), _>(
            CheckpointError::Truncated,
        ),
{
    reveal(attribute_encoding);
    reveal(u32_bytes);
    lemma_text_length(attribute.name);
    lemma_text_length(attribute.value);
    lemma_read_back(attribute, rest, n);
}

/// A processing instruction that may be absent is read back, whatever stands behind it, but for
/// what its texts refer to in a chunk of the document, and refused as truncated where only its
/// first `n` bytes are there.
pub proof fn lemma_proc_inst_read_back(proc_inst: Option<ProcInstView>, rest: Seq<u8>, n: int)
    requires
        proc_inst.fits(),
        0 <= n < proc_inst.encoding().len(),
    ensures
        Option::<ProcInstView>::decoding(proc_inst.encoding() + rest, 0) == Ok::<
            _,
            CheckpointError,
        >((proc_inst.detached(), proc_inst.encoding().len() as int)),
        Option::<ProcInstView>::decoding(proc_inst.encoding().take(n), 0) == Err::<
            (Option<ProcInstView>, int),
            _,
        >(CheckpointError::Truncated),
{
    lemma_read_back(proc_inst, rest, n);
}

/// A tag is read back, whatever stands behind it, but for what it and its texts refer to in a
/// chunk of the document. Where only its first `n` bytes are there, it is refused as truncated,
/// and the reader stays within them.
pub proof fn lemma_tag_read_back(tag: TagView, rest: Seq<u8>, n: int)
    requires
        tag.fits(),
        tag.countable(),
        0 <= n < tag.encoding().len(),
    ensures
        TagView::decoding(tag.encoding() + rest, 0) == Ok::<_, CheckpointError>(
            (tag.detached(), tag.encoding().len() as int),
        ),
        TagView::decoding(tag.encoding().take(n), 0) == Err::<(TagView, int), _>(
            CheckpointError::Truncated,
        ),
        TagView::stop(tag.encoding().take(n), 0) <= n,
{
    lemma_read_back(tag, rest, n);
}

/// Two errors have two numbers, and no error has the number 0.
pub proof fn lemma_numbers_differ(first: CheckpointError, second: CheckpointError)
    ensures
        1 <= first.number() <= 9,
        first != second ==> first.number() != second.number(),
{
}

/// The way in which an attribute's value is written comes back from its code, and a code from
/// the way that has it.
pub proof fn lemma_attr_codes(attr_type: AttrType, code: u8)
    ensures
        attr_type_with(attr_code(attr_type)) == Some(attr_type),
        attr_type_with(code) matches Some(other) ==> attr_code(other) == code,
{
}

} // verus!
