//! Checkpoints in bytes and numbers: what each part of a checkpoint is written as and read as, and
//! which parsers can be saved and restored, said without the terms of the layout.

use vstd::prelude::*;

use super::checkpoint::{CheckpointError, Reader, Writer, CHECKPOINT_MAGIC, CHECKPOINT_VERSION};
use super::events::{enabled_events, lemma_lookup_of_mask, mask_of, EVENT_MASK};
use super::format::{
    attr_code, attr_type_with, attribute_decoding, attribute_encoding, attribute_stop,
    attribute_written, checkpoint_decoding, checkpoint_encoding, countable, encodable, head,
    is_quote, is_utf8_fragment, preamble, tag_decoding, tag_encoding, tag_parts, tag_stop,
    tag_written, text_decoding, text_encoding, text_stop, text_written, tokens, TagParts, Tokens,
};
use super::laws::{detached, lemma_restored, lemma_round_trip, owns_its_bytes, resumable};
use super::parser::{SAXParser, SAXParserView, State};
use super::record::{
    items_decoding, items_encoding, items_stop, lemma_eight_appended, lemma_list_written,
    lemma_pair_appended, lemma_pair_written, u32_at, u32_bytes, u64_at, Counted, Record,
};
use super::tag::{
    AttrType, Attribute, AttributeView, ProcInst, ProcInstView, Tag, TagView, Text, TextView,
};

verus! {

/// The places of a tag: where it starts and where it ends.
type Places = ((u64, u64), (u64, u64));

/// What of a tag has no fixed length.
type TagLists = (Counted, (Seq<AttributeView>, Seq<TextView>));

/// What of a tag stands behind its places.
type TagRest = (bool, ((u64, u64), (bool, TagLists)));

/// The tokens behind the three texts that may be absent.
type LastTokens = (TextView, (AttributeView, (Option<ProcInstView>, (TagView, Seq<TagView>))));

/// What has been written is the bytes of the writer. A reader stands in the bytes that it stood in
/// before, at the position where its reading stopped.
pub proof fn lemma_writer_and_reader<'a, R: Record>(
    writer: Writer,
    before: Reader<'a>,
    after: Reader<'a>,
)
    ensures
        writer@ == writer.bytes@,
        before.next::<R>() == R::decoding(before.bytes@, before.position as int),
        after.has_read::<R>(before) <==> after.bytes == before.bytes && after.position == R::stop(
            before.bytes@,
            before.position as int,
        ),
{
}

/// A byte is written as itself and read as itself.
pub proof fn lemma_byte(x: u8, data: Seq<u8>, at: int)
    requires
        0 <= at,
    ensures
        x.encoding() == seq![x],
        x.written() == seq![x],
        at < data.len() ==> u8::decoding(data, at) == Ok::<_, CheckpointError>((data[at], at + 1))
            && u8::stop(data, at) == at + 1,
        at >= data.len() ==> u8::decoding(data, at) == Err::<(u8, int), _>(
            CheckpointError::Truncated,
        ) && u8::stop(data, at) == at,
{
}

/// A flag is written as 0 or 1. A byte that is neither is refused, and the reader stands behind it.
pub proof fn lemma_flag(x: bool, data: Seq<u8>, at: int)
    requires
        0 <= at,
    ensures
        x ==> x.encoding() == seq![1u8],
        !x ==> x.encoding() == seq![0u8],
        x.written() == x.encoding(),
        at < data.len() && data[at] == 0 ==> bool::decoding(data, at) == Ok::<_, CheckpointError>(
            (false, at + 1),
        ),
        at < data.len() && data[at] == 1 ==> bool::decoding(data, at) == Ok::<_, CheckpointError>(
            (true, at + 1),
        ),
        at >= data.len() || data[at] > 1 ==> bool::decoding(data, at) == Err::<(bool, int), _>(
            CheckpointError::Truncated,
        ),
        at < data.len() ==> bool::stop(data, at) == at + 1,
        at >= data.len() ==> bool::stop(data, at) == at,
{
}

/// A number of 32 bits is written as the four bytes that make it up, the lowest first.
pub proof fn lemma_u32_written(x: u32)
    ensures
        x.encoding().len() == 4,
        x == x.encoding()[0] + 0x100 * x.encoding()[1] + 0x1_0000 * x.encoding()[2] + 0x100_0000
            * x.encoding()[3],
        x.written() == x.encoding(),
{
    reveal(u32_bytes);
    assert(x / 0x1_0000 == x / 0x100 / 0x100);
    assert(x / 0x100_0000 == x / 0x1_0000 / 0x100);
}

/// Four bytes are read as the number of 32 bits that they make up, the lowest first.
pub proof fn lemma_u32_read(data: Seq<u8>, at: int)
    requires
        0 <= at,
    ensures
        u32_at(data, at) == data[at] + 0x100 * data[at + 1] + 0x1_0000 * data[at + 2] + 0x100_0000
            * data[at + 3],
        at + 4 <= data.len() ==> u32::decoding(data, at) == Ok::<_, CheckpointError>(
            (u32_at(data, at), at + 4),
        ) && u32::stop(data, at) == at + 4,
        at + 4 > data.len() ==> u32::decoding(data, at) == Err::<(u32, int), _>(
            CheckpointError::Truncated,
        ) && u32::stop(data, at) == at,
{
}

/// A number of 64 bits is written as the eight bytes that make it up, the lowest first.
pub proof fn lemma_u64_written(x: u64)
    ensures
        x.encoding().len() == 8,
        x == x.encoding()[0] + 0x100 * x.encoding()[1] + 0x1_0000 * x.encoding()[2] + 0x100_0000
            * x.encoding()[3] + 0x1_0000_0000 * x.encoding()[4] + 0x100_0000_0000
            * x.encoding()[5] + 0x1_0000_0000_0000 * x.encoding()[6] + 0x100_0000_0000_0000
            * x.encoding()[7],
        x.written() == x.encoding(),
{
    let low = (x % 0x1_0000_0000) as u32;
    let high = (x / 0x1_0000_0000) as u32;
    lemma_u32_written(low);
    lemma_u32_written(high);
    assert(x.encoding() == low.encoding() + high.encoding());
    assert(x == low + 0x1_0000_0000 * high);
}

/// Eight bytes are read as the number of 64 bits that they make up, the lowest first.
pub proof fn lemma_u64_read(data: Seq<u8>, at: int)
    requires
        0 <= at,
    ensures
        u64_at(data, at) == data[at] + 0x100 * data[at + 1] + 0x1_0000 * data[at + 2] + 0x100_0000
            * data[at + 3] + 0x1_0000_0000 * data[at + 4] + 0x100_0000_0000 * data[at + 5]
            + 0x1_0000_0000_0000 * data[at + 6] + 0x100_0000_0000_0000 * data[at + 7],
        at + 8 <= data.len() ==> u64::decoding(data, at) == Ok::<_, CheckpointError>(
            (u64_at(data, at), at + 8),
        ) && u64::stop(data, at) == at + 8,
        at + 8 > data.len() ==> u64::decoding(data, at) == Err::<(u64, int), _>(
            CheckpointError::Truncated,
        ) && u64::stop(data, at) == at,
{
    lemma_u32_read(data, at);
    lemma_u32_read(data, at + 4);
}

/// Every string of at most 2^32 - 1 bytes can be written, and no longer one: its length in four
/// bytes, then the string. Of a longer one nothing is written.
pub proof fn lemma_bytes_written(value: Seq<u8>)
    ensures
        Counted(value).fits() <==> value.len() <= 0xFFFF_FFFF,
        value.len() <= 0xFFFF_FFFF ==> ({
            let written = Counted(value).encoding();
            &&& written.len() == 4 + value.len()
            &&& written.skip(4) == value
            &&& value.len() == written[0] + 0x100 * written[1] + 0x1_0000 * written[2]
                + 0x100_0000 * written[3]
            &&& Counted(value).written() == written
        }),
        value.len() > 0xFFFF_FFFF ==> Counted(value).written() == Seq::<u8>::empty(),
        Counted(value).countable(),
        Counted(value).detached() == Counted(value),
{
    lemma_u32_written(value.len() as u32);
    let length = (value.len() as u32).encoding();
    assert((length + value).skip(4) =~= value);
}

/// A string of bytes is read behind its length, whatever that is, and refused as truncated where
/// fewer bytes are there.
pub proof fn lemma_bytes_read(data: Seq<u8>, at: int)
    requires
        0 <= at,
    ensures
        ({
            let length = data[at] + 0x100 * data[at + 1] + 0x1_0000 * data[at + 2] + 0x100_0000
                * data[at + 3];
            if at + 4 > data.len() {
                &&& Counted::decoding(data, at) == Err::<(Counted, int), _>(
                    CheckpointError::Truncated,
                )
                &&& Counted::stop(data, at) == at
            } else if at + 4 + length > data.len() {
                &&& Counted::decoding(data, at) == Err::<(Counted, int), _>(
                    CheckpointError::Truncated,
                )
                &&& Counted::stop(data, at) == at + 4
            } else {
                &&& Counted::decoding(data, at) == Ok::<_, CheckpointError>(
                    (Counted(data.subrange(at + 4, at + 4 + length)), at + 4 + length),
                )
                &&& Counted::stop(data, at) == at + 4 + length
            }
        }),
{
    lemma_u32_read(data, at);
}

/// Two records are read one behind the other, and refused where the first of them is refused.
pub proof fn lemma_pair_read<A: Record, B: Record>(data: Seq<u8>, at: int)
    ensures
        A::decoding(data, at) matches Err(error) ==> <(A, B)>::decoding(data, at) == Err::<
            ((A, B), int),
            _,
        >(error) && <(A, B)>::stop(data, at) == A::stop(data, at),
        A::decoding(data, at) matches Ok((first, middle)) ==> {
            &&& B::decoding(data, middle) matches Err(error) ==> <(A, B)>::decoding(data, at)
                == Err::<((A, B), int), _>(error)
            &&& B::decoding(data, middle) matches Ok((second, end)) ==> <(A, B)>::decoding(data, at)
                == Ok::<_, CheckpointError>(((first, second), end))
            &&& <(A, B)>::stop(data, at) == B::stop(data, middle)
        },
{
}

/// An empty list is written as a length of 0. To add an item to a list is to write its bytes
/// behind those of the list, and a length that is greater by one.
pub proof fn lemma_list_grows<T: Record>(items: Seq<T>, item: T)
    ensures
        Seq::<T>::empty().encoding() == seq![0u8, 0u8, 0u8, 0u8],
        items.encoding().len() >= 4,
        items.push(item).encoding().skip(4) == items.encoding().skip(4) + item.encoding(),
        items.len() <= 0xFFFF_FFFF ==> items.len() == items.encoding()[0] + 0x100
            * items.encoding()[1] + 0x1_0000 * items.encoding()[2] + 0x100_0000
            * items.encoding()[3],
{
    reveal(u32_bytes);
    lemma_u32_written(items.len() as u32);
    assert(Seq::<T>::empty().encoding() =~= seq![0u8, 0u8, 0u8, 0u8]);
    let more = items.push(item);
    assert(more.drop_last() =~= items);
    assert(items.encoding().skip(4) =~= items_encoding(items));
    assert(more.encoding().skip(4) =~= items_encoding(more));
}

/// A list can be written where each of its items can. Its length is written in full where it is at
/// most 2^32 - 1 and the lists in its items are as short.
pub proof fn lemma_list_fits<T: Record>(items: Seq<T>)
    ensures
        items.fits() <==> forall|i: int| 0 <= i < items.len() ==> #[trigger] items[i].fits(),
        items.countable() <==> items.len() <= 0xFFFF_FFFF && forall|i: int|
            0 <= i < items.len() ==> #[trigger] items[i].countable(),
        items.detached().len() == items.len(),
        forall|i: int|
            0 <= i < items.len() ==> #[trigger] items.detached()[i] == items[i].detached(),
{
}

/// Of a list, the items in front of the first that cannot be written are written, and as much of
/// that one as can be.
pub proof fn lemma_list_given_up<T: Record>(items: Seq<T>, i: int)
    requires
        0 <= i < items.len(),
        forall|j: int| 0 <= j < i ==> #[trigger] items[j].fits(),
        !items[i].fits(),
    ensures
        items.written() == items.encoding().take(4) + items.take(i).encoding().skip(4)
            + items[i].written(),
{
    lemma_u32_written(items.len() as u32);
    lemma_u32_written(i as u32);
    lemma_list_written(Seq::empty(), items, i);
    let front = items.take(i);
    assert((front.len() as u32).encoding().len() == 4) by {
        lemma_u32_written(front.len() as u32);
    }
    assert(items.encoding().take(4) =~= (items.len() as u32).encoding());
    assert(front.encoding().skip(4) =~= items_encoding(front));
    let length = (items.len() as u32).encoding();
    assert(Seq::<u8>::empty() + length =~= length);
    assert(Seq::<u8>::empty() + items.written() =~= items.written());
}

/// A list is read as a length and as many items. It is refused where its length is cut off, or
/// as the first of its items is refused.
pub proof fn lemma_list_read<T: Record>(data: Seq<u8>, at: int, n: nat)
    requires
        0 <= at,
    ensures
        at + 4 > data.len() ==> Seq::<T>::decoding(data, at) == Err::<(Seq<T>, int), _>(
            CheckpointError::Truncated,
        ) && Seq::<T>::stop(data, at) == at,
        at + 4 <= data.len() ==> ({
            let length = data[at] + 0x100 * data[at + 1] + 0x1_0000 * data[at + 2] + 0x100_0000
                * data[at + 3];
            &&& Seq::<T>::decoding(data, at) == items_decoding::<T>(data, at + 4, length as nat)
            &&& Seq::<T>::stop(data, at) == items_stop::<T>(data, at + 4, length as nat)
        }),
        items_decoding::<T>(data, at, 0) == Ok::<_, CheckpointError>((Seq::<T>::empty(), at)),
        items_stop::<T>(data, at, 0) == at,
        match items_decoding::<T>(data, at, n) {
            Ok((items, middle)) => {
                &&& items_stop::<T>(data, at, n + 1) == T::stop(data, middle)
                &&& match T::decoding(data, middle) {
                    Ok((item, end)) => items_decoding::<T>(data, at, n + 1) == Ok::<
                        _,
                        CheckpointError,
                    >((items.push(item), end)),
                    Err(error) => items_decoding::<T>(data, at, n + 1) == Err::<(Seq<T>, int), _>(
                        error,
                    ),
                }
            },
            Err(error) => {
                &&& items_decoding::<T>(data, at, n + 1) == Err::<(Seq<T>, int), _>(error)
                &&& items_stop::<T>(data, at, n + 1) == items_stop::<T>(data, at, n)
            },
        },
{
    lemma_u32_read(data, at);
}

/// To write six numbers and a record behind them is to write one after the other.
proof fn lemma_six_numbers_written<R: Record>(
    written: Seq<u8>,
    parts: ((u64, u64), ((u64, u64), ((u64, u64), R))),
)
    ensures
        ({
            let ((a, b), ((c, d), ((e, f), rest))) = parts;
            let front = written + a.encoding() + b.encoding() + c.encoding() + d.encoding()
                + e.encoding() + f.encoding();
            &&& written + parts.encoding() == front + rest.encoding()
            &&& written + parts.written() == front + rest.written()
        }),
{
    broadcast use {lemma_pair_appended, lemma_pair_written};

}

/// A text is written as a byte that is 1, its start, its end and its range, eight bytes each
/// number, and its value behind its length.
pub proof fn lemma_text_written(text: TextView)
    ensures
        text.encoding() == seq![1u8] + text.start.0.encoding() + text.start.1.encoding()
            + text.end.0.encoding() + text.end.1.encoding() + text.byte_range.0.encoding()
            + text.byte_range.1.encoding() + Counted(text.value).encoding(),
        text.fits() <==> text.value.len() <= 0xFFFF_FFFF,
        text.value.len() <= 0xFFFF_FFFF ==> text.written() == text.encoding(),
        text.value.len() > 0xFFFF_FFFF ==> text.written() == text.encoding().take(49),
        text.countable(),
        text.detached() == (TextView { header: (usize::MAX, usize::MAX), ..text }),
{
    reveal(text_encoding);
    reveal(text_written);
    lemma_u64_written(text.start.0);
    lemma_u64_written(text.start.1);
    lemma_u64_written(text.end.0);
    lemma_u64_written(text.end.1);
    lemma_u64_written(text.byte_range.0);
    lemma_u64_written(text.byte_range.1);
    let flat = seq![1u8] + text.start.0.encoding() + text.start.1.encoding()
        + text.end.0.encoding() + text.end.1.encoding() + text.byte_range.0.encoding()
        + text.byte_range.1.encoding();
    assert(text.encoding() =~= flat + Counted(text.value).encoding());
    if text.value.len() > 0xFFFF_FFFF {
        assert(text.written() =~= flat);
        assert(text.encoding().take(49) =~= flat);
    }
}

/// Two numbers and what stands behind them.
proof fn lemma_two_numbers_read<R: Record>(data: Seq<u8>, at: int)
    requires
        0 <= at <= data.len(),
    ensures
        at + 16 > data.len() ==> {
            &&& <((u64, u64), R)>::decoding(data, at) == Err::<(((u64, u64), R), int), _>(
                CheckpointError::Truncated,
            )
            &&& <((u64, u64), R)>::stop(data, at) == at + 8 * ((data.len() - at) / 8)
        },
        at + 16 <= data.len() ==> {
            &&& <((u64, u64), R)>::stop(data, at) == R::stop(data, at + 16)
            &&& match R::decoding(data, at + 16) {
                Ok((rest, end)) => <((u64, u64), R)>::decoding(data, at) == Ok::<
                    _,
                    CheckpointError,
                >((((u64_at(data, at), u64_at(data, at + 8)), rest), end)),
                Err(error) => <((u64, u64), R)>::decoding(data, at) == Err::<
                    (((u64, u64), R), int),
                    _,
                >(error),
            }
        },
{
}

/// Six numbers and what stands behind them.
proof fn lemma_six_numbers_read<R: Record>(data: Seq<u8>, at: int)
    requires
        0 <= at <= data.len(),
    ensures
        at + 48 > data.len() ==> {
            &&& <((u64, u64), ((u64, u64), ((u64, u64), R)))>::decoding(data, at) == Err::<
                (((u64, u64), ((u64, u64), ((u64, u64), R))), int),
                _,
            >(CheckpointError::Truncated)
            &&& <((u64, u64), ((u64, u64), ((u64, u64), R)))>::stop(data, at) == at + 8 * ((
            data.len() - at) / 8)
        },
        at + 48 <= data.len() ==> {
            &&& <((u64, u64), ((u64, u64), ((u64, u64), R)))>::stop(data, at) == R::stop(
                data,
                at + 48,
            )
            &&& match R::decoding(data, at + 48) {
                Ok((rest, end)) => <((u64, u64), ((u64, u64), ((u64, u64), R)))>::decoding(data, at)
                    == Ok::<_, CheckpointError>(
                    (
                        (
                            (u64_at(data, at), u64_at(data, at + 8)),
                            (
                                (u64_at(data, at + 16), u64_at(data, at + 24)),
                                ((u64_at(data, at + 32), u64_at(data, at + 40)), rest),
                            ),
                        ),
                        end,
                    ),
                ),
                Err(error) => <((u64, u64), ((u64, u64), ((u64, u64), R)))>::decoding(data, at)
                    == Err::<(((u64, u64), ((u64, u64), ((u64, u64), R))), int), _>(error),
            }
        },
{
    lemma_two_numbers_read::<((u64, u64), ((u64, u64), R))>(data, at);
    if at + 16 <= data.len() {
        lemma_two_numbers_read::<((u64, u64), R)>(data, at + 16);
        if at + 32 <= data.len() {
            lemma_two_numbers_read::<R>(data, at + 32);
        }
    }
}

/// A text is read from a byte that is 1, six numbers and a string of bytes, and refers to no chunk
/// of the document. It is refused as truncated only. The reader then stands behind what it has
/// read in full.
pub proof fn lemma_text_read(data: Seq<u8>, at: int)
    requires
        0 <= at,
    ensures
        if at + 49 > data.len() || data[at] != 1 {
            TextView::decoding(data, at) == Err::<(TextView, int), _>(CheckpointError::Truncated)
        } else {
            match Counted::decoding(data, at + 49) {
                Ok((value, end)) => TextView::decoding(data, at) == Ok::<_, CheckpointError>(
                    (
                        TextView {
                            value: value.0,
                            start: (u64_at(data, at + 1), u64_at(data, at + 9)),
                            end: (u64_at(data, at + 17), u64_at(data, at + 25)),
                            header: (usize::MAX, usize::MAX),
                            byte_range: (u64_at(data, at + 33), u64_at(data, at + 41)),
                        },
                        end,
                    ),
                ),
                Err(error) => TextView::decoding(data, at) == Err::<(TextView, int), _>(
                    CheckpointError::Truncated,
                ),
            }
        },
        TextView::stop(data, at) == (if at >= data.len() {
            at
        } else if data[at] != 1 {
            at + 1
        } else if at + 49 > data.len() {
            at + 1 + 8 * ((data.len() - at - 1) / 8)
        } else {
            Counted::stop(data, at + 49)
        }),
{
    reveal(text_decoding);
    reveal(text_stop);
    if at < data.len() {
        lemma_six_numbers_read::<Counted>(data, at + 1);
        if at + 49 <= data.len() {
            lemma_bytes_read(data, at + 49);
        }
    }
}

/// An absent text is written as 0, and any byte but 1 is read as an absent text.
pub proof fn lemma_optional_text(text: Option<TextView>, data: Seq<u8>, at: int)
    requires
        0 <= at,
    ensures
        text is None ==> text.encoding() == seq![0u8] && text.written() == seq![0u8] && text.fits()
            && text.detached() is None,
        text matches Some(it) ==> text.encoding() == it.encoding() && text.written()
            == it.written() && text.fits() == it.fits() && text.detached() == Some(it.detached()),
        text.countable(),
        if at >= data.len() {
            &&& Option::<TextView>::decoding(data, at) == Err::<(Option<TextView>, int), _>(
                CheckpointError::Truncated,
            )
            &&& Option::<TextView>::stop(data, at) == at
        } else if data[at] != 1 {
            &&& Option::<TextView>::decoding(data, at) == Ok::<_, CheckpointError>(
                (None::<TextView>, at + 1),
            )
            &&& Option::<TextView>::stop(data, at) == at + 1
        } else {
            &&& match TextView::decoding(data, at) {
                Ok((it, end)) => Option::<TextView>::decoding(data, at) == Ok::<
                    _,
                    CheckpointError,
                >((Some(it), end)),
                Err(error) => Option::<TextView>::decoding(data, at) == Err::<
                    (Option<TextView>, int),
                    _,
                >(error),
            }
            &&& Option::<TextView>::stop(data, at) == TextView::stop(data, at)
        },
{
}

/// The ways of writing an attribute's value have the codes 0, 1, 2, 4 and 8, and no other byte is
/// the code of one.
pub proof fn lemma_attr_types(attr_type: AttrType, code: u8)
    ensures
        attr_code(AttrType::NoValue) == 0,
        attr_code(AttrType::JSX) == 1,
        attr_code(AttrType::NoQuotes) == 2,
        attr_code(AttrType::SingleQuoted) == 4,
        attr_code(AttrType::DoubleQuoted) == 8,
        attr_type_with(attr_code(attr_type)) == Some(attr_type),
        attr_type_with(code) is None <==> code != 0 && code != 1 && code != 2 && code != 4 && code
            != 8,
        attr_type_with(code) matches Some(other) ==> attr_code(other) == code,
{
}

/// An attribute is written as its name, its value, the code of the way in which the value is
/// written, and its range.
pub proof fn lemma_attribute_written(attribute: AttributeView)
    ensures
        attribute.encoding() == attribute.name.encoding() + attribute.value.encoding() + seq![
            match attribute.attr_type {
                AttrType::NoValue => 0u8,
                AttrType::JSX => 1u8,
                AttrType::NoQuotes => 2u8,
                AttrType::SingleQuoted => 4u8,
                AttrType::DoubleQuoted => 8u8,
            },
        ] + attribute.byte_range.0.encoding() + attribute.byte_range.1.encoding(),
        attribute.fits() <==> attribute.name.value.len() <= 0xFFFF_FFFF
            && attribute.value.value.len() <= 0xFFFF_FFFF,
        attribute.written() == (if attribute.name.value.len() > 0xFFFF_FFFF {
            attribute.name.written()
        } else if attribute.value.value.len() > 0xFFFF_FFFF {
            attribute.name.encoding() + attribute.value.written()
        } else {
            attribute.encoding()
        }),
        attribute.countable(),
        attribute.detached() == (AttributeView {
            name: attribute.name.detached(),
            value: attribute.value.detached(),
            ..attribute
        }),
{
    reveal(attribute_encoding);
    reveal(attribute_written);
    assert(attribute.encoding() =~= attribute.name.encoding() + attribute.value.encoding() + seq![
        attr_code(attribute.attr_type),
    ] + attribute.byte_range.0.encoding() + attribute.byte_range.1.encoding());
}

/// An attribute is read from two texts, the code of the way in which the value is written, and two
/// numbers. It is refused as one of its texts is, where the code is none, or where it is cut off.
pub proof fn lemma_attribute_read(data: Seq<u8>, at: int)
    requires
        0 <= at,
    ensures
        match TextView::decoding(data, at) {
            Err(error) => {
                &&& AttributeView::decoding(data, at) == Err::<(AttributeView, int), _>(error)
                &&& AttributeView::stop(data, at) == TextView::stop(data, at)
            },
            Ok((name, p)) => match TextView::decoding(data, p) {
                Err(error) => {
                    &&& AttributeView::decoding(data, at) == Err::<(AttributeView, int), _>(error)
                    &&& AttributeView::stop(data, at) == TextView::stop(data, p)
                },
                Ok((value, q)) => if q >= data.len() {
                    &&& AttributeView::decoding(data, at) == Err::<(AttributeView, int), _>(
                        CheckpointError::Truncated,
                    )
                    &&& AttributeView::stop(data, at) == q
                } else if data[q] != 0 && data[q] != 1 && data[q] != 2 && data[q] != 4 && data[q]
                    != 8 {
                    &&& AttributeView::decoding(data, at) == Err::<(AttributeView, int), _>(
                        CheckpointError::InvalidState,
                    )
                    &&& AttributeView::stop(data, at) == q + 1
                } else if q + 17 > data.len() {
                    &&& AttributeView::decoding(data, at) == Err::<(AttributeView, int), _>(
                        CheckpointError::Truncated,
                    )
                    &&& AttributeView::stop(data, at) == q + 1 + 8 * ((data.len() - q - 1) / 8)
                } else {
                    &&& AttributeView::decoding(data, at) == Ok::<_, CheckpointError>(
                        (
                            AttributeView {
                                name,
                                value,
                                attr_type: if data[q] == 0 {
                                    AttrType::NoValue
                                } else if data[q] == 1 {
                                    AttrType::JSX
                                } else if data[q] == 2 {
                                    AttrType::NoQuotes
                                } else if data[q] == 4 {
                                    AttrType::SingleQuoted
                                } else {
                                    AttrType::DoubleQuoted
                                },
                                byte_range: (u64_at(data, q + 1), u64_at(data, q + 9)),
                            },
                            q + 17,
                        ),
                    )
                    &&& AttributeView::stop(data, at) == q + 17
                },
            },
        },
{
    reveal(attribute_decoding);
    reveal(attribute_stop);
    lemma_text_read(data, at);
    if let Ok((_, p)) = TextView::decoding(data, at) {
        lemma_text_read(data, p);
    }
}

/// An absent processing instruction is written as 0. One that is there is written as 1, its start,
/// its end and its range, its target and its content.
pub proof fn lemma_proc_inst_written(proc_inst: Option<ProcInstView>)
    ensures
        proc_inst is None ==> proc_inst.encoding() == seq![0u8] && proc_inst.written()
            == seq![0u8] && proc_inst.fits() && proc_inst.detached() is None,
        proc_inst matches Some(it) ==> {
            let front = seq![1u8] + it.start.0.encoding() + it.start.1.encoding()
                + it.end.0.encoding() + it.end.1.encoding() + it.byte_range.0.encoding()
                + it.byte_range.1.encoding();
            &&& proc_inst.encoding() == front + it.target.encoding() + it.content.encoding()
            &&& proc_inst.fits() <==> it.target.value.len() <= 0xFFFF_FFFF
                && it.content.value.len() <= 0xFFFF_FFFF
            &&& proc_inst.written() == (if it.target.value.len() > 0xFFFF_FFFF {
                front + it.target.written()
            } else if it.content.value.len() > 0xFFFF_FFFF {
                front + it.target.encoding() + it.content.written()
            } else {
                proc_inst.encoding()
            })
            &&& proc_inst.detached() == Some(
                ProcInstView {
                    target: it.target.detached(),
                    content: it.content.detached(),
                    ..it
                },
            )
        },
        proc_inst.countable(),
{
    if let Some(it) = proc_inst {
        let front = seq![1u8] + it.start.0.encoding() + it.start.1.encoding()
            + it.end.0.encoding() + it.end.1.encoding() + it.byte_range.0.encoding()
            + it.byte_range.1.encoding();
        let texts = (it.target, it.content);
        lemma_six_numbers_written(
            seq![1u8],
            (it.start, (it.end, (it.byte_range, texts))),
        );
        lemma_pair_appended(front, it.target, it.content);
        lemma_pair_written(front, it.target, it.content);
        lemma_text_written(it.target);
        lemma_text_written(it.content);
    }
}

/// A processing instruction that may be absent is read from a byte that is 0, or from one that is
/// 1, six numbers and two texts. It is refused as truncated only.
pub proof fn lemma_proc_inst_read(data: Seq<u8>, at: int)
    requires
        0 <= at,
    ensures
        if at < data.len() && data[at] == 0 {
            &&& Option::<ProcInstView>::decoding(data, at) == Ok::<_, CheckpointError>(
                (None::<ProcInstView>, at + 1),
            )
            &&& Option::<ProcInstView>::stop(data, at) == at + 1
        } else if at + 49 > data.len() || data[at] != 1 {
            &&& Option::<ProcInstView>::decoding(data, at) == Err::<
                (Option<ProcInstView>, int),
                _,
            >(CheckpointError::Truncated)
            &&& Option::<ProcInstView>::stop(data, at) == (if at >= data.len() {
                at
            } else if data[at] != 1 {
                at + 1
            } else {
                at + 1 + 8 * ((data.len() - at - 1) / 8)
            })
        } else {
            match TextView::decoding(data, at + 49) {
                Err(_) => {
                    &&& Option::<ProcInstView>::decoding(data, at) == Err::<
                        (Option<ProcInstView>, int),
                        _,
                    >(CheckpointError::Truncated)
                    &&& Option::<ProcInstView>::stop(data, at) == TextView::stop(data, at + 49)
                },
                Ok((target, p)) => {
                    &&& Option::<ProcInstView>::stop(data, at) == TextView::stop(data, p)
                    &&& match TextView::decoding(data, p) {
                        Err(_) => Option::<ProcInstView>::decoding(data, at) == Err::<
                            (Option<ProcInstView>, int),
                            _,
                        >(CheckpointError::Truncated),
                        Ok((content, end)) => Option::<ProcInstView>::decoding(data, at) == Ok::<
                            _,
                            CheckpointError,
                        >(
                            (
                                Some(
                                    ProcInstView {
                                        start: (u64_at(data, at + 1), u64_at(data, at + 9)),
                                        end: (u64_at(data, at + 17), u64_at(data, at + 25)),
                                        target,
                                        content,
                                        byte_range: (
                                            u64_at(data, at + 33),
                                            u64_at(data, at + 41),
                                        ),
                                    },
                                ),
                                end,
                            ),
                        ),
                    }
                },
            }
        },
{
    if at < data.len() {
        lemma_six_numbers_read::<(TextView, TextView)>(data, at + 1);
    }
    lemma_text_read(data, at + 49);
    if at + 49 <= data.len() {
        TextView::lemma_decoded(data, at + 49);
    }
    if let Ok((_, p)) = TextView::decoding(data, at + 49) {
        lemma_text_read(data, p);
    }
}

/// Which lists of attributes can be written.
proof fn lemma_attributes_fit(items: Seq<AttributeView>)
    ensures
        items.fits() <==> forall|i: int|
            0 <= i < items.len() ==> (#[trigger] items[i]).name.value.len() <= 0xFFFF_FFFF
                && items[i].value.value.len() <= 0xFFFF_FFFF,
{
    if items.fits() {
        assert forall|i: int| 0 <= i < items.len() implies (#[trigger] items[i]).name.value.len()
            <= 0xFFFF_FFFF && items[i].value.value.len() <= 0xFFFF_FFFF by {
            assert(items[i].fits());
        }
    } else {
        let i = choose|i: int| 0 <= i < items.len() && !(#[trigger] items[i].fits());
        assert(items[i].name.value.len() > 0xFFFF_FFFF || items[i].value.value.len()
            > 0xFFFF_FFFF);
    }
}

/// Which lists of texts can be written.
proof fn lemma_texts_fit(items: Seq<TextView>)
    ensures
        items.fits() <==> forall|i: int|
            0 <= i < items.len() ==> (#[trigger] items[i]).value.len() <= 0xFFFF_FFFF,
{
    if items.fits() {
        assert forall|i: int| 0 <= i < items.len() implies (#[trigger] items[i]).value.len()
            <= 0xFFFF_FFFF by {
            assert(items[i].fits());
        }
    } else {
        let i = choose|i: int| 0 <= i < items.len() && !(#[trigger] items[i].fits());
        assert(items[i].value.len() > 0xFFFF_FFFF);
    }
}

/// To write the parts of a tag is to write one after the other.
proof fn lemma_tag_parts_written(written: Seq<u8>, parts: TagParts)
    ensures
        ({
            let (opening, (closing, (self_closing, (range, (pending_name, rest))))) = parts;
            let front = written + opening.0.0.encoding() + opening.0.1.encoding()
                + opening.1.0.encoding() + opening.1.1.encoding() + closing.0.0.encoding()
                + closing.0.1.encoding() + closing.1.0.encoding() + closing.1.1.encoding()
                + self_closing.encoding() + range.0.encoding() + range.1.encoding()
                + pending_name.encoding();
            let (name, (attributes, text_nodes)) = rest;
            let named = front + name.encoding();
            &&& written + parts.encoding() == named + attributes.encoding()
                + text_nodes.encoding()
            &&& written + parts.written() == (if !name.fits() {
                front + name.written()
            } else if !attributes.fits() {
                named + attributes.written()
            } else {
                named + attributes.encoding() + text_nodes.written()
            })
        }),
{
    let (opening, (closing, _)) = parts;
    lemma_eight_appended(written, parts);
    lemma_pair_appended(written, opening.0, opening.1);
    lemma_pair_appended(written, opening.0.0, opening.0.1);
    lemma_pair_appended(written + opening.0.encoding(), opening.1.0, opening.1.1);
    let opened = written + opening.encoding();
    lemma_pair_appended(opened, closing.0, closing.1);
    lemma_pair_appended(opened, closing.0.0, closing.0.1);
    lemma_pair_appended(opened + closing.0.encoding(), closing.1.0, closing.1.1);
    let (_, (_, (self_closing, (range, _)))) = parts;
    lemma_pair_appended(
        opened + closing.encoding() + self_closing.encoding(),
        range.0,
        range.1,
    );
}

/// A tag is written as the places of its opening and of its closing tag, whether it closes itself,
/// its range, whether its name is pending, its name, its attributes and its texts.
pub proof fn lemma_tag_written(tag: TagView)
    ensures
        ({
            let front = tag.open_start.0.encoding() + tag.open_start.1.encoding()
                + tag.open_end.0.encoding() + tag.open_end.1.encoding()
                + tag.close_start.0.encoding() + tag.close_start.1.encoding()
                + tag.close_end.0.encoding() + tag.close_end.1.encoding() + seq![
                if tag.self_closing {
                    1u8
                } else {
                    0u8
                },
            ] + tag.byte_range.0.encoding() + tag.byte_range.1.encoding() + seq![
                if tag.pending_name {
                    1u8
                } else {
                    0u8
                },
            ];
            let named = front + Counted(tag.name).encoding();
            &&& tag.encoding() == named + tag.attributes.encoding() + tag.text_nodes.encoding()
            &&& tag.written() == (if tag.name.len() > 0xFFFF_FFFF {
                front
            } else if !tag.attributes.fits() {
                named + tag.attributes.written()
            } else {
                named + tag.attributes.encoding() + tag.text_nodes.written()
            })
        }),
        tag.fits() <==> tag.name.len() <= 0xFFFF_FFFF && (forall|i: int|
            0 <= i < tag.attributes.len() ==> (#[trigger] tag.attributes[i]).name.value.len()
                <= 0xFFFF_FFFF && tag.attributes[i].value.value.len() <= 0xFFFF_FFFF) && (forall|
            i: int,
        |
            0 <= i < tag.text_nodes.len() ==> (#[trigger] tag.text_nodes[i]).value.len()
                <= 0xFFFF_FFFF),
        tag.countable() <==> tag.attributes.len() <= 0xFFFF_FFFF && tag.text_nodes.len()
            <= 0xFFFF_FFFF,
        tag.detached() == (TagView {
            attributes: tag.attributes.detached(),
            text_nodes: tag.text_nodes.detached(),
            header: if tag.pending_name {
                (usize::MAX, 0)
            } else {
                (usize::MAX, usize::MAX)
            },
            ..tag
        }),
{
    reveal(tag_encoding);
    reveal(tag_written);
    lemma_tag_parts_written(Seq::empty(), tag_parts(tag));
    lemma_bytes_written(tag.name);
    assert(Seq::<u8>::empty() + tag.encoding() =~= tag.encoding());
    assert(Seq::<u8>::empty() + tag.written() =~= tag.written());
    assert(Seq::<u8>::empty() + tag.open_start.0.encoding() =~= tag.open_start.0.encoding());
    if tag.name.len() > 0xFFFF_FFFF {
        let front = tag.open_start.0.encoding() + tag.open_start.1.encoding()
            + tag.open_end.0.encoding() + tag.open_end.1.encoding()
            + tag.close_start.0.encoding() + tag.close_start.1.encoding()
            + tag.close_end.0.encoding() + tag.close_end.1.encoding() + tag.self_closing.encoding()
            + tag.byte_range.0.encoding() + tag.byte_range.1.encoding()
            + tag.pending_name.encoding();
        assert(front + Seq::<u8>::empty() =~= front);
    }
    lemma_attributes_fit(tag.attributes);
    lemma_texts_fit(tag.text_nodes);
}

/// Four numbers and what stands behind them.
proof fn lemma_four_numbers_read<R: Record>(data: Seq<u8>, at: int)
    requires
        0 <= at <= data.len(),
    ensures
        at + 32 > data.len() ==> {
            &&& <(((u64, u64), (u64, u64)), R)>::decoding(data, at) == Err::<
                ((((u64, u64), (u64, u64)), R), int),
                _,
            >(CheckpointError::Truncated)
            &&& <(((u64, u64), (u64, u64)), R)>::stop(data, at) == at + 8 * ((data.len() - at) / 8)
        },
        at + 32 <= data.len() ==> {
            &&& <(((u64, u64), (u64, u64)), R)>::stop(data, at) == R::stop(data, at + 32)
            &&& match R::decoding(data, at + 32) {
                Ok((rest, end)) => <(((u64, u64), (u64, u64)), R)>::decoding(data, at) == Ok::<
                    _,
                    CheckpointError,
                >(
                    (
                        (
                            (
                                (u64_at(data, at), u64_at(data, at + 8)),
                                (u64_at(data, at + 16), u64_at(data, at + 24)),
                            ),
                            rest,
                        ),
                        end,
                    ),
                ),
                Err(error) => <(((u64, u64), (u64, u64)), R)>::decoding(data, at) == Err::<
                    ((((u64, u64), (u64, u64)), R), int),
                    _,
                >(error),
            }
        },
{
    lemma_two_numbers_read::<(u64, u64)>(data, at);
    if at + 16 <= data.len() {
        lemma_two_numbers_read::<R>(data, at + 16);
        lemma_pair_read::<(u64, u64), R>(data, at + 16);
    }
    lemma_pair_read::<((u64, u64), (u64, u64)), R>(data, at);
}

/// The parts of a tag behind the places of its opening and its closing tag.
proof fn lemma_tag_rest_read(data: Seq<u8>, at: int)
    requires
        0 <= at <= data.len(),
    ensures
        if at >= data.len() || data[at] > 1 || at + 17 >= data.len() || data[at + 17] > 1 {
            &&& TagRest::decoding(data, at) == Err::<(TagRest, int), _>(CheckpointError::Truncated)
            &&& TagRest::stop(data, at) == (if at >= data.len() {
                at
            } else if data[at] > 1 {
                at + 1
            } else if at + 17 >= data.len() {
                at + 1 + 8 * ((data.len() - at - 1) / 8)
            } else {
                at + 18
            })
        } else {
            match Counted::decoding(data, at + 18) {
                Err(error) => {
                    &&& TagRest::decoding(data, at) == Err::<(TagRest, int), _>(error)
                    &&& TagRest::stop(data, at) == Counted::stop(data, at + 18)
                },
                Ok((name, p)) => match Seq::<AttributeView>::decoding(data, p) {
                    Err(error) => {
                        &&& TagRest::decoding(data, at) == Err::<(TagRest, int), _>(error)
                        &&& TagRest::stop(data, at) == Seq::<AttributeView>::stop(data, p)
                    },
                    Ok((attributes, q)) => {
                        &&& TagRest::stop(data, at) == Seq::<TextView>::stop(data, q)
                        &&& match Seq::<TextView>::decoding(data, q) {
                            Err(error) => TagRest::decoding(data, at) == Err::<(TagRest, int), _>(
                                error,
                            ),
                            Ok((text_nodes, end)) => TagRest::decoding(data, at) == Ok::<
                                _,
                                CheckpointError,
                            >(
                                (
                                    (
                                        data[at] == 1,
                                        (
                                            (u64_at(data, at + 1), u64_at(data, at + 9)),
                                            (
                                                data[at + 17] == 1,
                                                (name, (attributes, text_nodes)),
                                            ),
                                        ),
                                    ),
                                    end,
                                ),
                            ),
                        }
                    },
                },
            }
        },
{
    lemma_pair_read::<bool, ((u64, u64), (bool, TagLists))>(data, at);
    if at < data.len() && data[at] <= 1 {
        lemma_two_numbers_read::<(bool, TagLists)>(data, at + 1);
        if at + 17 <= data.len() {
            lemma_pair_read::<bool, TagLists>(data, at + 17);
            lemma_pair_read::<Counted, (Seq<AttributeView>, Seq<TextView>)>(data, at + 18);
            if let Ok((_, p)) = Counted::decoding(data, at + 18) {
                lemma_pair_read::<Seq<AttributeView>, Seq<TextView>>(data, p);
            }
        }
    }
}

/// Eight numbers and what stands behind them.
proof fn lemma_eight_numbers_read<R: Record>(data: Seq<u8>, at: int)
    requires
        0 <= at <= data.len(),
    ensures
        at + 64 > data.len() ==> {
            &&& <(Places, (Places, R))>::decoding(data, at) == Err::<
                ((Places, (Places, R)), int),
                _,
            >(CheckpointError::Truncated)
            &&& <(Places, (Places, R))>::stop(data, at) == at + 8 * ((data.len() - at) / 8)
        },
        at + 64 <= data.len() ==> {
            &&& <(Places, (Places, R))>::stop(data, at) == R::stop(data, at + 64)
            &&& match R::decoding(data, at + 64) {
                Ok((rest, end)) => <(Places, (Places, R))>::decoding(data, at) == Ok::<
                    _,
                    CheckpointError,
                >(
                    (
                        (
                            (
                                (u64_at(data, at), u64_at(data, at + 8)),
                                (u64_at(data, at + 16), u64_at(data, at + 24)),
                            ),
                            (
                                (
                                    (u64_at(data, at + 32), u64_at(data, at + 40)),
                                    (u64_at(data, at + 48), u64_at(data, at + 56)),
                                ),
                                rest,
                            ),
                        ),
                        end,
                    ),
                ),
                Err(error) => <(Places, (Places, R))>::decoding(data, at) == Err::<
                    ((Places, (Places, R)), int),
                    _,
                >(error),
            }
        },
{
    lemma_four_numbers_read::<(Places, R)>(data, at);
    if at + 32 <= data.len() {
        lemma_four_numbers_read::<R>(data, at + 32);
    }
}

/// A tag is read from eight numbers, a flag, two numbers, a flag, a string of bytes and two lists.
/// Its header tells that its name is pending where it is, and else that it owns its name, whatever
/// else the tag holds. It is refused where a flag is none, where it is cut off, or as one of its
/// attributes or texts is.
#[verifier::spinoff_prover]
#[verifier::rlimit(60)]
pub proof fn lemma_tag_read(data: Seq<u8>, at: int)
    requires
        0 <= at <= data.len(),
    ensures
        if at + 64 >= data.len() || data[at + 64] > 1 || at + 81 >= data.len() || data[at + 81]
            > 1 {
            &&& TagView::decoding(data, at) == Err::<(TagView, int), _>(CheckpointError::Truncated)
            &&& TagView::stop(data, at) == (if at + 64 >= data.len() {
                at + 8 * ((data.len() - at) / 8)
            } else if data[at + 64] > 1 {
                at + 65
            } else if at + 81 >= data.len() {
                at + 65 + 8 * ((data.len() - at - 65) / 8)
            } else {
                at + 82
            })
        } else {
            match Counted::decoding(data, at + 82) {
                Err(error) => {
                    &&& TagView::decoding(data, at) == Err::<(TagView, int), _>(error)
                    &&& TagView::stop(data, at) == Counted::stop(data, at + 82)
                },
                Ok((name, p)) => match Seq::<AttributeView>::decoding(data, p) {
                    Err(error) => {
                        &&& TagView::decoding(data, at) == Err::<(TagView, int), _>(error)
                        &&& TagView::stop(data, at) == Seq::<AttributeView>::stop(data, p)
                    },
                    Ok((attributes, q)) => {
                        &&& TagView::stop(data, at) == Seq::<TextView>::stop(data, q)
                        &&& match Seq::<TextView>::decoding(data, q) {
                            Err(error) => TagView::decoding(data, at) == Err::<(TagView, int), _>(
                                error,
                            ),
                            Ok((text_nodes, end)) => TagView::decoding(data, at) == Ok::<
                                _,
                                CheckpointError,
                            >(
                                (
                                    TagView {
                                        name: name.0,
                                        attributes,
                                        text_nodes,
                                        self_closing: data[at + 64] == 1,
                                        open_start: (u64_at(data, at), u64_at(data, at + 8)),
                                        open_end: (u64_at(data, at + 16), u64_at(data, at + 24)),
                                        close_start: (
                                            u64_at(data, at + 32),
                                            u64_at(data, at + 40),
                                        ),
                                        close_end: (u64_at(data, at + 48), u64_at(data, at + 56)),
                                        header: if data[at + 81] == 1 {
                                            (usize::MAX, 0)
                                        } else {
                                            (usize::MAX, usize::MAX)
                                        },
                                        byte_range: (
                                            u64_at(data, at + 65),
                                            u64_at(data, at + 73),
                                        ),
                                        pending_name: data[at + 81] == 1,
                                    },
                                    end,
                                ),
                            ),
                        }
                    },
                },
            }
        },
{
    reveal(tag_decoding);
    reveal(tag_stop);
    lemma_eight_numbers_read::<TagRest>(data, at);
    if at + 64 <= data.len() {
        lemma_tag_rest_read(data, at + 64);
    }
}

/// The header of a tag that was read is that of a pending name if and only if the name is pending,
/// whatever else the tag holds, and no text that was read refers to a chunk.
pub proof fn lemma_headers_read(data: Seq<u8>, at: int)
    requires
        0 <= at <= data.len(),
    ensures
        TagView::decoding(data, at) matches Ok((tag, _)) ==> {
            &&& tag.pending_name ==> tag.header == (usize::MAX, 0usize)
            &&& !tag.pending_name ==> tag.header == (usize::MAX, usize::MAX)
        },
        TextView::decoding(data, at) matches Ok((text, _)) ==> text.header == (
            usize::MAX,
            usize::MAX,
        ),
{
    lemma_tag_read(data, at);
    lemma_text_read(data, at);
}

/// Which bytes may be carried over as the beginning of a character: none; one byte from 0xC0 to
/// 0xDF; one from 0xE0 to 0xEF with at most one more behind it; one from 0xF0 to 0xF7 with at most
/// two more behind it; the others from 0x80 to 0xBF.
pub proof fn lemma_fragments(bytes: Seq<u8>)
    ensures
        bytes.len() == 0 ==> is_utf8_fragment(bytes),
        bytes.len() == 1 ==> (is_utf8_fragment(bytes) <==> 0xC0 <= bytes[0] <= 0xF7),
        bytes.len() == 2 ==> (is_utf8_fragment(bytes) <==> 0xE0 <= bytes[0] <= 0xF7 && 0x80
            <= bytes[1] <= 0xBF),
        bytes.len() == 3 ==> (is_utf8_fragment(bytes) <==> 0xF0 <= bytes[0] <= 0xF7 && 0x80
            <= bytes[1] <= 0xBF && 0x80 <= bytes[2] <= 0xBF),
        bytes.len() >= 4 ==> !is_utf8_fragment(bytes),
{
    if bytes.len() == 2 {
        assert(is_utf8_fragment(bytes) ==> 0x80 <= bytes[1] <= 0xBF);
    }
    if bytes.len() == 3 {
        assert(is_utf8_fragment(bytes) ==> 0x80 <= bytes[1] <= 0xBF && 0x80 <= bytes[2] <= 0xBF);
    }
}

/// A character of more than one byte may be cut anywhere: the bytes in front of the cut are carried
/// over. The whole character is not: it is no fragment, nor is a character of one byte.
pub proof fn lemma_characters_cut(scalar: int, bytes: Seq<u8>, n: int)
    requires
        0 <= scalar <= 0x10_FFFF,
        bytes == (if scalar < 0x80 {
            seq![scalar as u8]
        } else if scalar < 0x800 {
            seq![(0xC0 + scalar / 0x40) as u8, (0x80 + scalar % 0x40) as u8]
        } else if scalar < 0x1_0000 {
            seq![
                (0xE0 + scalar / 0x1000) as u8,
                (0x80 + scalar / 0x40 % 0x40) as u8,
                (0x80 + scalar % 0x40) as u8,
            ]
        } else {
            seq![
                (0xF0 + scalar / 0x4_0000) as u8,
                (0x80 + scalar / 0x1000 % 0x40) as u8,
                (0x80 + scalar / 0x40 % 0x40) as u8,
                (0x80 + scalar % 0x40) as u8,
            ]
        }),
        0 <= n < bytes.len(),
    ensures
        is_utf8_fragment(bytes.take(n)),
        !is_utf8_fragment(bytes),
{
    lemma_fragments(bytes.take(n));
    lemma_fragments(bytes);
}

/// The mask of ten switches has the bit of each event that is switched on, and no other.
pub proof fn lemma_masks(events: Seq<bool>, mask: u32)
    ensures
        EVENT_MASK == 1023,
        events.len() == 10 ==> mask_of(events) <= 1023 && forall|i: int|
            0 <= i < 10 ==> #[trigger] events[i] == (mask_of(events) & (1u32 << i as u32) != 0),
        enabled_events(mask).len() == 10,
        forall|i: int|
            0 <= i < 10 ==> #[trigger] enabled_events(mask)[i] == (mask & (1u32 << i as u32) != 0),
{
    if events.len() == 10 {
        lemma_lookup_of_mask(events);
        assert forall|i: int| 0 <= i < 10 implies #[trigger] events[i] == (mask_of(events) & (1u32
            << i as u32) != 0) by {
            assert(enabled_events(mask_of(events))[i] == events[i]);
        }
    }
}

/// A checkpoint is the eight letters `SAXWCKPT`, the version 1, three zeros, the mask of the
/// events, the number of consumed bytes, the line and the character, the state, the number of open
/// braces, the quote, whether the start of the opening tag has been reported, the fragment, and the
/// tokens.
pub proof fn lemma_checkpoint_written(parser: SAXParserView)
    ensures
        CHECKPOINT_MAGIC@ == seq![83u8, 65u8, 88u8, 87u8, 67u8, 75u8, 80u8, 84u8],
        CHECKPOINT_VERSION == 1,
        checkpoint_encoding(parser) == seq![
            83u8,
            65u8,
            88u8,
            87u8,
            67u8,
            75u8,
            80u8,
            84u8,
            1u8,
            0u8,
            0u8,
            0u8,
        ] + mask_of(parser.events).encoding() + parser.consumed_offset.encoding()
            + parser.end_pos.0.encoding() + parser.end_pos.1.encoding() + seq![parser.state.code]
            + parser.brace_ct.encoding() + seq![parser.quote] + seq![
            if parser.open_tag_start_dispatched {
                1u8
            } else {
                0u8
            },
        ] + Counted(parser.fragment).encoding() + parser.text.encoding()
            + parser.markup_decl.encoding() + parser.markup_entity.encoding()
            + parser.close_tag.encoding() + parser.attribute.encoding()
            + parser.proc_inst.encoding() + parser.tag.encoding() + parser.tags.encoding(),
{
    let start = seq![83u8, 65u8, 88u8, 87u8, 67u8, 75u8, 80u8, 84u8, 1u8, 0u8, 0u8, 0u8];
    assert(CHECKPOINT_MAGIC@ =~= seq![83u8, 65u8, 88u8, 87u8, 67u8, 75u8, 80u8, 84u8]);
    assert(preamble() =~= start);
    lemma_eight_appended(start, head(parser));
    lemma_pair_appended(
        start + mask_of(parser.events).encoding() + parser.consumed_offset.encoding(),
        parser.end_pos.0,
        parser.end_pos.1,
    );
    lemma_eight_appended(start + head(parser).encoding(), tokens(parser));
}

/// What bytes are read as a checkpoint: the first of these grounds on which they are refused, and
/// else the parser that they tell of, part by part.
pub proof fn lemma_checkpoint_read(data: Seq<u8>, events: u32, offset: u64, states: Seq<u8>)
    ensures
        ({
            let read = checkpoint_decoding(data, events, offset, states);
            let mask = data[12] + 0x100 * data[13] + 0x1_0000 * data[14] + 0x100_0000 * data[15];
            if data.len() < 8 {
                read == Err::<SAXParserView, _>(CheckpointError::Truncated)
            } else if data[0] != 83 || data[1] != 65 || data[2] != 88 || data[3] != 87 || data[4]
                != 67 || data[5] != 75 || data[6] != 80 || data[7] != 84 {
                read == Err::<SAXParserView, _>(CheckpointError::InvalidMagic)
            } else if data.len() < 9 {
                read == Err::<SAXParserView, _>(CheckpointError::Truncated)
            } else if data[8] != 1 {
                read == Err::<SAXParserView, _>(CheckpointError::UnsupportedVersion)
            } else if data.len() < 16 || data[9] != 0 || data[10] != 0 || data[11] != 0 {
                read == Err::<SAXParserView, _>(CheckpointError::Truncated)
            } else if mask > 1023 || mask != events {
                read == Err::<SAXParserView, _>(CheckpointError::InvalidEvents)
            } else if data.len() < 24 {
                read == Err::<SAXParserView, _>(CheckpointError::Truncated)
            } else if u64_at(data, 16) != offset {
                read == Err::<SAXParserView, _>(CheckpointError::InvalidOffset)
            } else if data.len() < 41 {
                read == Err::<SAXParserView, _>(CheckpointError::Truncated)
            } else if !states.contains(data[40]) {
                read == Err::<SAXParserView, _>(CheckpointError::InvalidState)
            } else if data.len() < 46 {
                read == Err::<SAXParserView, _>(CheckpointError::Truncated)
            } else if data[45] != 0 && data[45] != 0x22 && data[45] != 0x27 {
                read == Err::<SAXParserView, _>(CheckpointError::InvalidQuote)
            } else if data.len() < 47 || data[46] > 1 {
                read == Err::<SAXParserView, _>(CheckpointError::Truncated)
            } else {
                match Counted::decoding(data, 47) {
                    Err(_) => read == Err::<SAXParserView, _>(CheckpointError::Truncated),
                    Ok((fragment, from)) => if !is_utf8_fragment(fragment.0) {
                        read == Err::<SAXParserView, _>(CheckpointError::InvalidUtf8)
                    } else {
                        match Tokens::decoding(data, from) {
                            Err(error) => read == Err::<SAXParserView, _>(error),
                            Ok((tokens, end)) => if end != data.len() {
                                read == Err::<SAXParserView, _>(CheckpointError::Truncated)
                            } else {
                                read == Ok::<_, CheckpointError>(
                                    SAXParserView {
                                        events: enabled_events(events),
                                        consumed_offset: offset,
                                        end_pos: (u64_at(data, 24), u64_at(data, 32)),
                                        state: State { code: data[40] },
                                        brace_ct: u32_at(data, 41),
                                        quote: data[45],
                                        open_tag_start_dispatched: data[46] == 1,
                                        fragment: fragment.0,
                                        text: tokens.0,
                                        markup_decl: tokens.1.0,
                                        markup_entity: tokens.1.1.0,
                                        close_tag: tokens.1.1.1.0,
                                        attribute: tokens.1.1.1.1.0,
                                        proc_inst: tokens.1.1.1.1.1.0,
                                        tag: tokens.1.1.1.1.1.1.0,
                                        tags: tokens.1.1.1.1.1.1.1,
                                    },
                                )
                            },
                        }
                    },
                }
            }
        }),
{
    lemma_magic_read(data);
    lemma_u32_read(data, 12);
    lemma_bytes_read(data, 47);
}

proof fn lemma_magic_read(data: Seq<u8>)
    ensures
        data.len() >= 8 ==> (data.take(8) == CHECKPOINT_MAGIC@ <==> data[0] == 83 && data[1] == 65
            && data[2] == 88 && data[3] == 87 && data[4] == 67 && data[5] == 75 && data[6] == 80
            && data[7] == 84),
{
    if data.len() >= 8 {
        let magic = seq![83u8, 65u8, 88u8, 87u8, 67u8, 75u8, 80u8, 84u8];
        assert(CHECKPOINT_MAGIC@ =~= magic);
        let first = data.take(8);
        if first == magic {
            assert(first[0] == 83 && first[1] == 65 && first[2] == 88 && first[3] == 87 && first[4]
                == 67 && first[5] == 75 && first[6] == 80 && first[7] == 84);
        }
        if data[0] == 83 && data[1] == 65 && data[2] == 88 && data[3] == 87 && data[4] == 67
            && data[5] == 75 && data[6] == 80 && data[7] == 84 {
            assert(first =~= magic);
        }
    }
}

/// The quotes that may be open are the double and the single quote, and 0 stands for none.
pub proof fn lemma_quotes(quote: u8)
    ensures
        is_quote(quote) <==> quote == 0 || quote == 0x22 || quote == 0x27,
{
}

/// Which lists of tags can be written.
proof fn lemma_tags_fit(items: Seq<TagView>)
    ensures
        items.fits() <==> (forall|i: int|
            0 <= i < items.len() ==> (#[trigger] items[i]).name.len() <= 0xFFFF_FFFF) && (forall|
            i: int,
            j: int,
        |
            0 <= i < items.len() && 0 <= j < items[i].attributes.len() ==> (
            #[trigger] items[i].attributes[j]).name.value.len() <= 0xFFFF_FFFF
                && items[i].attributes[j].value.value.len() <= 0xFFFF_FFFF) && (forall|
            i: int,
            j: int,
        |
            0 <= i < items.len() && 0 <= j < items[i].text_nodes.len() ==> (
            #[trigger] items[i].text_nodes[j]).value.len() <= 0xFFFF_FFFF),
{
    assert forall|i: int| 0 <= i < items.len() implies #[trigger] items[i].fits() == (
    items[i].name.len() <= 0xFFFF_FFFF && items[i].attributes.fits() && items[i].text_nodes.fits())
        && (items[i].attributes.fits() <==> forall|j: int|
        0 <= j < items[i].attributes.len() ==> (#[trigger] items[i].attributes[j]).name.value.len()
            <= 0xFFFF_FFFF && items[i].attributes[j].value.value.len() <= 0xFFFF_FFFF) && (
    items[i].text_nodes.fits() <==> forall|j: int|
        0 <= j < items[i].text_nodes.len() ==> (#[trigger] items[i].text_nodes[j]).value.len()
            <= 0xFFFF_FFFF) by {
        lemma_attributes_fit(items[i].attributes);
        lemma_texts_fit(items[i].text_nodes);
    }
    if items.fits() {
        assert forall|i: int| 0 <= i < items.len() implies (#[trigger] items[i]).name.len()
            <= 0xFFFF_FFFF by {
            assert(items[i].fits());
        }
        assert forall|i: int, j: int|
            0 <= i < items.len() && 0 <= j < items[i].attributes.len() implies (
        #[trigger] items[i].attributes[j]).name.value.len() <= 0xFFFF_FFFF
            && items[i].attributes[j].value.value.len() <= 0xFFFF_FFFF by {
            assert(items[i].fits());
        }
        assert forall|i: int, j: int|
            0 <= i < items.len() && 0 <= j < items[i].text_nodes.len() implies (
        #[trigger] items[i].text_nodes[j]).value.len() <= 0xFFFF_FFFF by {
            assert(items[i].fits());
        }
    } else {
        let i = choose|i: int| 0 <= i < items.len() && !(#[trigger] items[i].fits());
        assert(!items[i].fits());
        assert(items[i].name.len() <= 0xFFFF_FFFF ==> !items[i].attributes.fits()
            || !items[i].text_nodes.fits());
    }
}

/// A checkpoint can be made of a parser if and only if no string of bytes in it is longer than
/// 2^32 - 1 bytes.
pub proof fn lemma_encodable_parsers(parser: SAXParserView)
    ensures
        encodable(parser) <==> parser.fragment.len() <= 0xFFFF_FFFF && (
        parser.text matches Some(text) ==> text.value.len() <= 0xFFFF_FFFF) && (
        parser.markup_decl matches Some(text) ==> text.value.len() <= 0xFFFF_FFFF) && (
        parser.markup_entity matches Some(text) ==> text.value.len() <= 0xFFFF_FFFF)
            && parser.close_tag.value.len() <= 0xFFFF_FFFF
            && parser.attribute.name.value.len() <= 0xFFFF_FFFF
            && parser.attribute.value.value.len() <= 0xFFFF_FFFF && (
        parser.proc_inst matches Some(it) ==> it.target.value.len() <= 0xFFFF_FFFF
            && it.content.value.len() <= 0xFFFF_FFFF) && parser.tag.name.len() <= 0xFFFF_FFFF && (
        forall|i: int|
            0 <= i < parser.tag.attributes.len() ==> (
            #[trigger] parser.tag.attributes[i]).name.value.len() <= 0xFFFF_FFFF
                && parser.tag.attributes[i].value.value.len() <= 0xFFFF_FFFF) && (forall|i: int|
            0 <= i < parser.tag.text_nodes.len() ==> (
            #[trigger] parser.tag.text_nodes[i]).value.len() <= 0xFFFF_FFFF) && (forall|i: int|
            0 <= i < parser.tags.len() ==> (#[trigger] parser.tags[i]).name.len()
                <= 0xFFFF_FFFF) && (forall|
            i: int,
            j: int,
        |
            0 <= i < parser.tags.len() && 0 <= j < parser.tags[i].attributes.len() ==> (
            #[trigger] parser.tags[i].attributes[j]).name.value.len() <= 0xFFFF_FFFF
                && parser.tags[i].attributes[j].value.value.len() <= 0xFFFF_FFFF) && (forall|
            i: int,
            j: int,
        |
            0 <= i < parser.tags.len() && 0 <= j < parser.tags[i].text_nodes.len() ==> (
            #[trigger] parser.tags[i].text_nodes[j]).value.len() <= 0xFFFF_FFFF),
{
    lemma_attributes_fit(parser.tag.attributes);
    lemma_texts_fit(parser.tag.text_nodes);
    lemma_tags_fit(parser.tags);
}

/// The lengths of the lists in a parser are written in full if and only if none is greater than
/// 2^32 - 1.
pub proof fn lemma_countable_parsers(parser: SAXParserView)
    ensures
        countable(parser) <==> parser.tag.attributes.len() <= 0xFFFF_FFFF
            && parser.tag.text_nodes.len() <= 0xFFFF_FFFF && parser.tags.len() <= 0xFFFF_FFFF && (
        forall|i: int|
            0 <= i < parser.tags.len() ==> (#[trigger] parser.tags[i]).attributes.len()
                <= 0xFFFF_FFFF && parser.tags[i].text_nodes.len() <= 0xFFFF_FFFF),
{
    let tags = parser.tags;
    if tags.countable() {
        assert forall|i: int| 0 <= i < tags.len() implies (#[trigger] tags[i]).attributes.len()
            <= 0xFFFF_FFFF && tags[i].text_nodes.len() <= 0xFFFF_FFFF by {
            assert(tags[i].countable());
        }
    } else if tags.len() <= 0xFFFF_FFFF {
        let i = choose|i: int| 0 <= i < tags.len() && !(#[trigger] tags[i].countable());
        assert(tags[i].attributes.len() > 0xFFFF_FFFF || tags[i].text_nodes.len() > 0xFFFF_FFFF);
    }
}

/// A checkpoint may tell of a parser that has ten switches, a state of the tokenizer, no open quote
/// or one of the two quotes, and a fragment that is empty or starts a character.
pub proof fn lemma_resumable_parsers(parser: SAXParserView, states: Seq<u8>)
    ensures
        resumable(parser, states) <==> parser.events.len() == 10 && states.contains(
            parser.state.code,
        ) && (parser.quote == 0 || parser.quote == 0x22 || parser.quote == 0x27) && (
        parser.fragment.len() == 0 || (parser.fragment.len() == 1 && 0xC0 <= parser.fragment[0]
            <= 0xF7) || (parser.fragment.len() == 2 && 0xE0 <= parser.fragment[0] <= 0xF7 && 0x80
            <= parser.fragment[1] <= 0xBF) || (parser.fragment.len() == 3 && 0xF0
            <= parser.fragment[0] <= 0xF7 && 0x80 <= parser.fragment[1] <= 0xBF && 0x80
            <= parser.fragment[2] <= 0xBF)),
{
    lemma_fragments(parser.fragment);
}

/// Which lists of attributes own their bytes.
proof fn lemma_attributes_owned(items: Seq<AttributeView>)
    ensures
        items.detached() == items <==> forall|i: int|
            0 <= i < items.len() ==> (#[trigger] items[i]).name.header == (usize::MAX, usize::MAX)
                && items[i].value.header == (usize::MAX, usize::MAX),
{
    if items.detached() == items {
        assert forall|i: int| 0 <= i < items.len() implies (#[trigger] items[i]).name.header == (
        usize::MAX,
        usize::MAX,
        ) && items[i].value.header == (usize::MAX, usize::MAX) by {
            assert(items.detached()[i] == items[i].detached());
        }
    }
    if forall|i: int|
        0 <= i < items.len() ==> (#[trigger] items[i]).name.header == (usize::MAX, usize::MAX)
            && items[i].value.header == (usize::MAX, usize::MAX) {
        assert(items.detached() =~= items);
    }
}

/// Which lists of texts own their bytes.
proof fn lemma_texts_owned(items: Seq<TextView>)
    ensures
        items.detached() == items <==> forall|i: int|
            0 <= i < items.len() ==> (#[trigger] items[i]).header == (usize::MAX, usize::MAX),
{
    if items.detached() == items {
        assert forall|i: int| 0 <= i < items.len() implies (#[trigger] items[i]).header == (
        usize::MAX,
        usize::MAX,
        ) by {
            assert(items.detached()[i] == items[i].detached());
        }
    }
    if forall|i: int|
        0 <= i < items.len() ==> (#[trigger] items[i]).header == (usize::MAX, usize::MAX) {
        assert(items.detached() =~= items);
    }
}

/// Which lists of tags own their bytes.
proof fn lemma_tags_owned(items: Seq<TagView>)
    ensures
        items.detached() == items <==> (forall|i: int|
            0 <= i < items.len() ==> (#[trigger] items[i]).header == (if items[i].pending_name {
                (usize::MAX, 0usize)
            } else {
                (usize::MAX, usize::MAX)
            })) && (forall|i: int, j: int|
            0 <= i < items.len() && 0 <= j < items[i].attributes.len() ==> (
            #[trigger] items[i].attributes[j]).name.header == (usize::MAX, usize::MAX)
                && items[i].attributes[j].value.header == (usize::MAX, usize::MAX)) && (forall|
            i: int,
            j: int,
        |
            0 <= i < items.len() && 0 <= j < items[i].text_nodes.len() ==> (
            #[trigger] items[i].text_nodes[j]).header == (usize::MAX, usize::MAX)),
{
    assert forall|i: int| 0 <= i < items.len() implies #[trigger] items.detached()[i]
        == items[i].detached() by {}
    if items.detached() == items {
        assert forall|i: int| 0 <= i < items.len() implies (#[trigger] items[i]).header == (
        if items[i].pending_name {
            (usize::MAX, 0usize)
        } else {
            (usize::MAX, usize::MAX)
        }) by {
            assert(items.detached()[i] == items[i].detached());
        }
        assert forall|i: int, j: int|
            0 <= i < items.len() && 0 <= j < items[i].attributes.len() implies (
        #[trigger] items[i].attributes[j]).name.header == (usize::MAX, usize::MAX)
            && items[i].attributes[j].value.header == (usize::MAX, usize::MAX) by {
            assert(items.detached()[i] == items[i].detached());
            lemma_attributes_owned(items[i].attributes);
        }
        assert forall|i: int, j: int|
            0 <= i < items.len() && 0 <= j < items[i].text_nodes.len() implies (
        #[trigger] items[i].text_nodes[j]).header == (usize::MAX, usize::MAX) by {
            assert(items.detached()[i] == items[i].detached());
            lemma_texts_owned(items[i].text_nodes);
        }
    }
    if (forall|i: int|
            0 <= i < items.len() ==> (#[trigger] items[i]).header == (if items[i].pending_name {
                (usize::MAX, 0usize)
            } else {
                (usize::MAX, usize::MAX)
            })) && (forall|i: int, j: int|
            0 <= i < items.len() && 0 <= j < items[i].attributes.len() ==> (
            #[trigger] items[i].attributes[j]).name.header == (usize::MAX, usize::MAX)
                && items[i].attributes[j].value.header == (usize::MAX, usize::MAX)) && (forall|
            i: int,
            j: int,
        |
            0 <= i < items.len() && 0 <= j < items[i].text_nodes.len() ==> (
            #[trigger] items[i].text_nodes[j]).header == (usize::MAX, usize::MAX)) {
        assert forall|i: int| 0 <= i < items.len() implies items.detached()[i] == items[i] by {
            assert(items[i].header == (if items[i].pending_name {
                (usize::MAX, 0usize)
            } else {
                (usize::MAX, usize::MAX)
            }));
            lemma_attributes_owned(items[i].attributes);
            lemma_texts_owned(items[i].text_nodes);
        }
        assert(items.detached() =~= items);
    }
}

/// A parser owns its bytes if and only if the header of each text is `(usize::MAX, usize::MAX)`,
/// and that of each tag too, or `(usize::MAX, 0)` where its name is pending.
pub proof fn lemma_owning_parsers(parser: SAXParserView)
    ensures
        owns_its_bytes(parser) <==> (parser.text matches Some(text) ==> text.header == (
        usize::MAX,
        usize::MAX,
        )) && (parser.markup_decl matches Some(text) ==> text.header == (usize::MAX, usize::MAX))
            && (parser.markup_entity matches Some(text) ==> text.header == (
        usize::MAX,
        usize::MAX,
        )) && parser.close_tag.header == (usize::MAX, usize::MAX) && parser.attribute.name.header
            == (usize::MAX, usize::MAX) && parser.attribute.value.header == (
        usize::MAX,
        usize::MAX,
        ) && (parser.proc_inst matches Some(it) ==> it.target.header == (usize::MAX, usize::MAX)
            && it.content.header == (usize::MAX, usize::MAX)) && parser.tag.header == (
        if parser.tag.pending_name {
            (usize::MAX, 0usize)
        } else {
            (usize::MAX, usize::MAX)
        }) && (forall|i: int|
            0 <= i < parser.tag.attributes.len() ==> (
            #[trigger] parser.tag.attributes[i]).name.header == (usize::MAX, usize::MAX)
                && parser.tag.attributes[i].value.header == (usize::MAX, usize::MAX)) && (forall|
            i: int,
        |
            0 <= i < parser.tag.text_nodes.len() ==> (#[trigger] parser.tag.text_nodes[i]).header
                == (usize::MAX, usize::MAX)) && (forall|i: int|
            0 <= i < parser.tags.len() ==> (#[trigger] parser.tags[i]).header == (
            if parser.tags[i].pending_name {
                (usize::MAX, 0usize)
            } else {
                (usize::MAX, usize::MAX)
            })) && (forall|i: int, j: int|
            0 <= i < parser.tags.len() && 0 <= j < parser.tags[i].attributes.len() ==> (
            #[trigger] parser.tags[i].attributes[j]).name.header == (usize::MAX, usize::MAX)
                && parser.tags[i].attributes[j].value.header == (usize::MAX, usize::MAX)) && (
        forall|
            i: int,
            j: int,
        |
            0 <= i < parser.tags.len() && 0 <= j < parser.tags[i].text_nodes.len() ==> (
            #[trigger] parser.tags[i].text_nodes[j]).header == (usize::MAX, usize::MAX)),
{
    lemma_attributes_owned(parser.tag.attributes);
    lemma_texts_owned(parser.tag.text_nodes);
    lemma_tags_owned(parser.tags);
}

/// To detach a parser is to detach each of its tokens, and to keep everything else.
pub proof fn lemma_detached_parser(parser: SAXParserView)
    ensures
        detached(parser) == (SAXParserView {
            events: parser.events,
            consumed_offset: parser.consumed_offset,
            end_pos: parser.end_pos,
            state: parser.state,
            brace_ct: parser.brace_ct,
            quote: parser.quote,
            open_tag_start_dispatched: parser.open_tag_start_dispatched,
            fragment: parser.fragment,
            text: parser.text.detached(),
            markup_decl: parser.markup_decl.detached(),
            markup_entity: parser.markup_entity.detached(),
            close_tag: parser.close_tag.detached(),
            attribute: parser.attribute.detached(),
            proc_inst: parser.proc_inst.detached(),
            tag: parser.tag.detached(),
            tags: parser.tags.detached(),
        }),
{
}

/// Every parser with ten switches, a state of the tokenizer, the quote 0, 0x22 or 0x27, a fragment
/// that is empty or starts a character, and strings and lists of at most 2^32 - 1 bytes and items,
/// can be saved and comes back, with everything in it but what its tokens refer to in a chunk.
pub proof fn lemma_saved_and_restored(parser: SAXParserView, states: Seq<u8>)
    requires
        parser.events.len() == 10 && states.contains(
            parser.state.code,
        ) && (parser.quote == 0 || parser.quote == 0x22 || parser.quote == 0x27) && (
        parser.fragment.len() == 0 || (parser.fragment.len() == 1 && 0xC0 <= parser.fragment[0]
            <= 0xF7) || (parser.fragment.len() == 2 && 0xE0 <= parser.fragment[0] <= 0xF7 && 0x80
            <= parser.fragment[1] <= 0xBF) || (parser.fragment.len() == 3 && 0xF0
            <= parser.fragment[0] <= 0xF7 && 0x80 <= parser.fragment[1] <= 0xBF && 0x80
            <= parser.fragment[2] <= 0xBF)),
        parser.fragment.len() <= 0xFFFF_FFFF && (parser.text matches Some(text)
            ==> text.value.len() <= 0xFFFF_FFFF) && (parser.markup_decl matches Some(text)
            ==> text.value.len() <= 0xFFFF_FFFF) && (parser.markup_entity matches Some(text)
            ==> text.value.len() <= 0xFFFF_FFFF) && parser.close_tag.value.len() <= 0xFFFF_FFFF
            && parser.attribute.name.value.len() <= 0xFFFF_FFFF
            && parser.attribute.value.value.len() <= 0xFFFF_FFFF && (
        parser.proc_inst matches Some(it) ==> it.target.value.len() <= 0xFFFF_FFFF
            && it.content.value.len() <= 0xFFFF_FFFF) && parser.tag.name.len() <= 0xFFFF_FFFF && (
        forall|i: int|
            0 <= i < parser.tag.attributes.len() ==> (
            #[trigger] parser.tag.attributes[i]).name.value.len() <= 0xFFFF_FFFF
                && parser.tag.attributes[i].value.value.len() <= 0xFFFF_FFFF) && (forall|i: int|
            0 <= i < parser.tag.text_nodes.len() ==> (
            #[trigger] parser.tag.text_nodes[i]).value.len() <= 0xFFFF_FFFF) && (forall|i: int|
            0 <= i < parser.tags.len() ==> (#[trigger] parser.tags[i]).name.len()
                <= 0xFFFF_FFFF) && (forall|
            i: int,
            j: int,
        |
            0 <= i < parser.tags.len() && 0 <= j < parser.tags[i].attributes.len() ==> (
            #[trigger] parser.tags[i].attributes[j]).name.value.len() <= 0xFFFF_FFFF
                && parser.tags[i].attributes[j].value.value.len() <= 0xFFFF_FFFF) && (forall|
            i: int,
            j: int,
        |
            0 <= i < parser.tags.len() && 0 <= j < parser.tags[i].text_nodes.len() ==> (
            #[trigger] parser.tags[i].text_nodes[j]).value.len() <= 0xFFFF_FFFF),
        parser.tag.attributes.len() <= 0xFFFF_FFFF
            && parser.tag.text_nodes.len() <= 0xFFFF_FFFF && parser.tags.len() <= 0xFFFF_FFFF && (
        forall|i: int|
            0 <= i < parser.tags.len() ==> (#[trigger] parser.tags[i]).attributes.len()
                <= 0xFFFF_FFFF && parser.tags[i].text_nodes.len() <= 0xFFFF_FFFF),
    ensures
        encodable(parser),
        checkpoint_decoding(
            checkpoint_encoding(parser),
            mask_of(parser.events),
            parser.consumed_offset,
            states,
        ) == Ok::<_, CheckpointError>(detached(parser)),
{
    lemma_resumable_parsers(parser, states);
    lemma_encodable_parsers(parser);
    lemma_countable_parsers(parser);
    lemma_round_trip(parser, states);
}

/// Where the headers are moreover those of tokens that own their bytes, the parser comes back
/// exactly as it was, with a pending name as with a complete one.
pub proof fn lemma_saved_and_restored_exactly(parser: SAXParserView, states: Seq<u8>)
    requires
        parser.events.len() == 10 && states.contains(
            parser.state.code,
        ) && (parser.quote == 0 || parser.quote == 0x22 || parser.quote == 0x27) && (
        parser.fragment.len() == 0 || (parser.fragment.len() == 1 && 0xC0 <= parser.fragment[0]
            <= 0xF7) || (parser.fragment.len() == 2 && 0xE0 <= parser.fragment[0] <= 0xF7 && 0x80
            <= parser.fragment[1] <= 0xBF) || (parser.fragment.len() == 3 && 0xF0
            <= parser.fragment[0] <= 0xF7 && 0x80 <= parser.fragment[1] <= 0xBF && 0x80
            <= parser.fragment[2] <= 0xBF)),
        parser.fragment.len() <= 0xFFFF_FFFF && (parser.text matches Some(text)
            ==> text.value.len() <= 0xFFFF_FFFF) && (parser.markup_decl matches Some(text)
            ==> text.value.len() <= 0xFFFF_FFFF) && (parser.markup_entity matches Some(text)
            ==> text.value.len() <= 0xFFFF_FFFF) && parser.close_tag.value.len() <= 0xFFFF_FFFF
            && parser.attribute.name.value.len() <= 0xFFFF_FFFF
            && parser.attribute.value.value.len() <= 0xFFFF_FFFF && (
        parser.proc_inst matches Some(it) ==> it.target.value.len() <= 0xFFFF_FFFF
            && it.content.value.len() <= 0xFFFF_FFFF) && parser.tag.name.len() <= 0xFFFF_FFFF && (
        forall|i: int|
            0 <= i < parser.tag.attributes.len() ==> (
            #[trigger] parser.tag.attributes[i]).name.value.len() <= 0xFFFF_FFFF
                && parser.tag.attributes[i].value.value.len() <= 0xFFFF_FFFF) && (forall|i: int|
            0 <= i < parser.tag.text_nodes.len() ==> (
            #[trigger] parser.tag.text_nodes[i]).value.len() <= 0xFFFF_FFFF) && (forall|i: int|
            0 <= i < parser.tags.len() ==> (#[trigger] parser.tags[i]).name.len()
                <= 0xFFFF_FFFF) && (forall|
            i: int,
            j: int,
        |
            0 <= i < parser.tags.len() && 0 <= j < parser.tags[i].attributes.len() ==> (
            #[trigger] parser.tags[i].attributes[j]).name.value.len() <= 0xFFFF_FFFF
                && parser.tags[i].attributes[j].value.value.len() <= 0xFFFF_FFFF) && (forall|
            i: int,
            j: int,
        |
            0 <= i < parser.tags.len() && 0 <= j < parser.tags[i].text_nodes.len() ==> (
            #[trigger] parser.tags[i].text_nodes[j]).value.len() <= 0xFFFF_FFFF),
        parser.tag.attributes.len() <= 0xFFFF_FFFF
            && parser.tag.text_nodes.len() <= 0xFFFF_FFFF && parser.tags.len() <= 0xFFFF_FFFF && (
        forall|i: int|
            0 <= i < parser.tags.len() ==> (#[trigger] parser.tags[i]).attributes.len()
                <= 0xFFFF_FFFF && parser.tags[i].text_nodes.len() <= 0xFFFF_FFFF),
        (parser.text matches Some(text) ==> text.header == (
        usize::MAX,
        usize::MAX,
        )) && (parser.markup_decl matches Some(text) ==> text.header == (usize::MAX, usize::MAX))
            && (parser.markup_entity matches Some(text) ==> text.header == (
        usize::MAX,
        usize::MAX,
        )) && parser.close_tag.header == (usize::MAX, usize::MAX) && parser.attribute.name.header
            == (usize::MAX, usize::MAX) && parser.attribute.value.header == (
        usize::MAX,
        usize::MAX,
        ) && (parser.proc_inst matches Some(it) ==> it.target.header == (usize::MAX, usize::MAX)
            && it.content.header == (usize::MAX, usize::MAX)) && parser.tag.header == (
        if parser.tag.pending_name {
            (usize::MAX, 0usize)
        } else {
            (usize::MAX, usize::MAX)
        }) && (forall|i: int|
            0 <= i < parser.tag.attributes.len() ==> (
            #[trigger] parser.tag.attributes[i]).name.header == (usize::MAX, usize::MAX)
                && parser.tag.attributes[i].value.header == (usize::MAX, usize::MAX)) && (forall|
            i: int,
        |
            0 <= i < parser.tag.text_nodes.len() ==> (#[trigger] parser.tag.text_nodes[i]).header
                == (usize::MAX, usize::MAX)) && (forall|i: int|
            0 <= i < parser.tags.len() ==> (#[trigger] parser.tags[i]).header == (
            if parser.tags[i].pending_name {
                (usize::MAX, 0usize)
            } else {
                (usize::MAX, usize::MAX)
            })) && (forall|i: int, j: int|
            0 <= i < parser.tags.len() && 0 <= j < parser.tags[i].attributes.len() ==> (
            #[trigger] parser.tags[i].attributes[j]).name.header == (usize::MAX, usize::MAX)
                && parser.tags[i].attributes[j].value.header == (usize::MAX, usize::MAX)) && (
        forall|
            i: int,
            j: int,
        |
            0 <= i < parser.tags.len() && 0 <= j < parser.tags[i].text_nodes.len() ==> (
            #[trigger] parser.tags[i].text_nodes[j]).header == (usize::MAX, usize::MAX)),
    ensures
        checkpoint_decoding(
            checkpoint_encoding(parser),
            mask_of(parser.events),
            parser.consumed_offset,
            states,
        ) == Ok::<_, CheckpointError>(parser),
{
    lemma_saved_and_restored(parser, states);
    lemma_owning_parsers(parser);
}

/// What a text holds is each of its fields.
pub proof fn lemma_text_view(text: Text)
    ensures
        text@.value == text.value@,
        text@.start == (text.start@[0], text.start@[1]),
        text@.end == (text.end@[0], text.end@[1]),
        text@.header == text.header,
        text@.byte_range == text.byte_range,
{
}

/// What an attribute holds is each of its fields.
pub proof fn lemma_attribute_view(attribute: Attribute)
    ensures
        attribute@.name == attribute.name@,
        attribute@.value == attribute.value@,
        attribute@.attr_type == attribute.attr_type,
        attribute@.byte_range == attribute.byte_range,
{
}

/// What a processing instruction holds is each of its fields.
pub proof fn lemma_proc_inst_view(proc_inst: ProcInst)
    ensures
        proc_inst@.start == (proc_inst.start@[0], proc_inst.start@[1]),
        proc_inst@.end == (proc_inst.end@[0], proc_inst.end@[1]),
        proc_inst@.target == proc_inst.target@,
        proc_inst@.content == proc_inst.content@,
        proc_inst@.byte_range == proc_inst.byte_range,
{
}

/// What a tag holds is each of its fields.
pub proof fn lemma_tag_view(tag: Tag)
    ensures
        tag@.name == tag.name@,
        tag@.attributes.len() == tag.attributes@.len(),
        forall|i: int|
            0 <= i < tag.attributes@.len() ==> #[trigger] tag@.attributes[i] == tag.attributes@[i]@,
        tag@.text_nodes.len() == tag.text_nodes@.len(),
        forall|i: int|
            0 <= i < tag.text_nodes@.len() ==> #[trigger] tag@.text_nodes[i] == tag.text_nodes@[i]@,
        tag@.self_closing == tag.self_closing,
        tag@.open_start == (tag.open_start@[0], tag.open_start@[1]),
        tag@.open_end == (tag.open_end@[0], tag.open_end@[1]),
        tag@.close_start == (tag.close_start@[0], tag.close_start@[1]),
        tag@.close_end == (tag.close_end@[0], tag.close_end@[1]),
        tag@.header == tag.header,
        tag@.byte_range == tag.byte_range,
        tag@.pending_name == tag.pending_name,
{
}

/// What a parser holds is each of its fields.
pub proof fn lemma_parser_view(parser: SAXParser)
    ensures
        parser@.events == parser.events@,
        parser@.consumed_offset == parser.consumed_offset,
        parser@.end_pos == (parser.end_pos@[0], parser.end_pos@[1]),
        parser@.state.code == parser.state.code,
        parser@.brace_ct == parser.brace_ct,
        parser@.quote == parser.quote,
        parser@.open_tag_start_dispatched == parser.open_tag_start_dispatched,
        parser@.fragment == parser.fragment@,
        parser.text is None ==> parser@.text is None,
        parser.text matches Some(text) ==> parser@.text == Some(text@),
        parser.markup_decl is None ==> parser@.markup_decl is None,
        parser.markup_decl matches Some(text) ==> parser@.markup_decl == Some(text@),
        parser.markup_entity is None ==> parser@.markup_entity is None,
        parser.markup_entity matches Some(text) ==> parser@.markup_entity == Some(text@),
        parser@.close_tag == parser.close_tag@,
        parser@.attribute == parser.attribute@,
        parser.proc_inst is None ==> parser@.proc_inst is None,
        parser.proc_inst matches Some(it) ==> parser@.proc_inst == Some(it@),
        parser@.tag == parser.tag@,
        parser@.tags.len() == parser.tags@.len(),
        forall|i: int|
            0 <= i < parser.tags@.len() ==> #[trigger] parser@.tags[i] == parser.tags@[i]@,
{
}

/// What is read of the tokens that have to be there, and of lists of them, is what those bytes are
/// written from. That holds of a text that may be absent too where its first byte is 0 or 1.
pub proof fn lemma_read_was_written(data: Seq<u8>, at: int)
    requires
        0 <= at <= data.len(),
    ensures
        TextView::decoding(data, at) matches Ok((text, end)) ==> at <= end <= data.len()
            && text.encoding() == data.subrange(at, end),
        Option::<TextView>::decoding(data, at) matches Ok((text, end)) ==> at < end <= data.len()
            && (data[at] <= 1 ==> text.encoding() == data.subrange(at, end)),
        AttributeView::decoding(data, at) matches Ok((attribute, end)) ==> at <= end <= data.len()
            && attribute.encoding() == data.subrange(at, end),
        Option::<ProcInstView>::decoding(data, at) matches Ok((proc_inst, end)) ==> at <= end
            <= data.len() && proc_inst.encoding() == data.subrange(at, end),
        TagView::decoding(data, at) matches Ok((tag, end)) ==> at <= end <= data.len()
            && tag.encoding() == data.subrange(at, end),
        Seq::<TagView>::decoding(data, at) matches Ok((tags, end)) ==> at <= end <= data.len()
            && tags.encoding() == data.subrange(at, end),
{
    TextView::lemma_decoded(data, at);
    Option::<TextView>::lemma_decoded(data, at);
    AttributeView::lemma_decoded(data, at);
    Option::<ProcInstView>::lemma_decoded(data, at);
    TagView::lemma_decoded(data, at);
    Seq::<TagView>::lemma_decoded(data, at);
    lemma_optional_text(None, data, at);
    if let Ok((text, end)) = Option::<TextView>::decoding(data, at) {
        if data[at] == 1 {
            lemma_text_read(data, at);
            lemma_bytes_read(data, at + 49);
        }
    }
}

/// Three texts that may be absent, and what stands behind them.
proof fn lemma_three_texts_read<R: Record>(data: Seq<u8>, at: int)
    requires
        0 <= at <= data.len(),
        forall|p: int| #[trigger] R::canonical(data, p),
        <(Option<TextView>, (Option<TextView>, (Option<TextView>, R)))>::decoding(data, at) is Ok,
    ensures
        ({
            let (value, _) = <(
                Option<TextView>,
                (Option<TextView>, (Option<TextView>, R)),
            )>::decoding(data, at)->Ok_0;
            let second = at + value.0.encoding().len() as int;
            let third = second + value.1.0.encoding().len() as int;
            data[at] <= 1 && data[second] <= 1 && data[third] <= 1 ==> <(
                Option<TextView>,
                (Option<TextView>, (Option<TextView>, R)),
            )>::canonical(data, at)
        }),
{
    Option::<TextView>::lemma_decoded(data, at);
    let (_, second) = Option::<TextView>::decoding(data, at)->Ok_0;
    Option::<TextView>::lemma_decoded(data, second);
    let (_, third) = Option::<TextView>::decoding(data, second)->Ok_0;
    Option::<TextView>::lemma_decoded(data, third);
    let (_, end) = Option::<TextView>::decoding(data, third)->Ok_0;
    assert(R::canonical(data, end));
}

/// A checkpoint that was accepted is the checkpoint of the parser that it was read as, byte for
/// byte, where the three texts that may be absent start with 0 or 1.
pub proof fn lemma_accepted_was_written(data: Seq<u8>, events: u32, offset: u64, states: Seq<u8>)
    requires
        checkpoint_decoding(data, events, offset, states) is Ok,
    ensures
        ({
            let parser = checkpoint_decoding(data, events, offset, states)->Ok_0;
            let text = 51 + parser.fragment.len() as int;
            let markup_decl = text + parser.text.encoding().len() as int;
            let markup_entity = markup_decl + parser.markup_decl.encoding().len() as int;
            data[text] <= 1 && data[markup_decl] <= 1 && data[markup_entity] <= 1
                ==> checkpoint_encoding(parser) == data
        }),
{
    lemma_restored(data, events, offset, states);
    lemma_checkpoint_read(data, events, offset, states);
    lemma_bytes_read(data, 47);
    let (_, from) = Counted::decoding(data, 47)->Ok_0;
    lemma_three_texts_read::<LastTokens>(data, from);
}

} // verus!
