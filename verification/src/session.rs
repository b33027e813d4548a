//! The one parser that a host drives, with the replies that the host gets.

use vstd::prelude::*;

use crate::sax::checkpoint::{deserialize, serialize, CheckpointError};
use crate::sax::events::{enabled_events, event_enabled, generate_event_lookup, mask_of};
use crate::sax::format::{checkpoint_decoding, checkpoint_encoding, countable, encodable};
use crate::sax::laws::{detached, lemma_round_trip, resumable};
use crate::sax::parser::{SAXParser, SAXParserView};
use crate::sax::tag::view_of;

verus! {

/// Reports the events of the parser to the host.
#[derive(Clone, Copy, Debug, PartialEq, Eq)]
pub struct SaxEventHandler;

impl SaxEventHandler {
    pub fn new() -> (handler: Self)
        ensures
            handler == SaxEventHandler,
    {
        SaxEventHandler
    }

    /// The mask by which the host is told of event number `event`: the bit of that event, and no
    /// other.
    pub fn event_bit(&self, event: u32) -> (bit: u32)
        requires
            event < 32,
        ensures
            bit == 1u32 << event,
            forall|other: int|
                0 <= other < 32 ==> #[trigger] event_enabled(bit, other) == (other == event),
    {
        let bit: u32 = 1u32 << event;
        assert forall|other: int| 0 <= other < 32 implies #[trigger] event_enabled(bit, other) == (
        other == event) by {
            let index = other as u32;
            assert((bit & (1u32 << index) != 0) == (index == event)) by (bit_vector)
                requires
                    bit == 1u32 << event,
                    event < 32,
                    index < 32,
            ;
        }
        bit
    }
}

/// The number of consumed bytes that a host hands over in two halves.
pub open spec fn offset_of(low: u32, high: u32) -> u64 {
    (low + 0x1_0000_0000 * high) as u64
}

/// Every number of bytes can be handed over in two halves, and in one way only.
pub proof fn lemma_offset_halves(offset: u64, low: u32, high: u32)
    ensures
        offset_of(low, high) == offset <==> low == offset % 0x1_0000_0000 && high == offset
            / 0x1_0000_0000,
{
}

/// What the host is told where a checkpoint could not be made: the error's number, marked by the
/// highest bit, which the address of a checkpoint does not have.
pub open spec fn failure_reply(error: CheckpointError) -> u32 {
    (0x8000_0000 + error.number()) as u32
}

/// What the host is told of an attempt to resume: 0, or the number of the error.
pub open spec fn resume_reply(decoded: Result<SAXParserView, CheckpointError>) -> u32 {
    match decoded {
        Ok(_) => 0,
        Err(error) => error.number(),
    }
}

/// What the host is told, in numbers: the number of an error is 1 to 9, a failure to make a
/// checkpoint adds 2^31 to it, and the reply to a resumption is the number, or 0 where there was no
/// error.
pub proof fn lemma_replies(error: CheckpointError, parser: SAXParserView)
    ensures
        error.number() == (match error {
            CheckpointError::InvalidMagic => 1u32,
            CheckpointError::UnsupportedVersion => 2u32,
            CheckpointError::Truncated => 3u32,
            CheckpointError::InvalidLength => 4u32,
            CheckpointError::InvalidEvents => 5u32,
            CheckpointError::InvalidState => 6u32,
            CheckpointError::InvalidQuote => 7u32,
            CheckpointError::InvalidOffset => 8u32,
            CheckpointError::InvalidUtf8 => 9u32,
        }),
        failure_reply(error) == 0x8000_0000 + error.number(),
        resume_reply(Err(error)) == error.number(),
        resume_reply(Ok(parser)) == 0,
{
}

/// The number of consumed bytes is the first half, and 2^32 times the second.
pub proof fn lemma_offset_joined(low: u32, high: u32)
    ensures
        offset_of(low, high) == low + 0x1_0000_0000 * high,
{
}

/// A checkpoint that a session has made can be resumed in any session whose tokenizer has the
/// state of the parser: the host is told 0, and the parser is there again, with no token in it
/// referring to a chunk of the document.
pub proof fn lemma_checkpoint_resumed(
    parser: SAXParserView,
    low: u32,
    high: u32,
    states: Seq<u8>,
)
    requires
        encodable(parser),
        countable(parser),
        resumable(parser, states),
        offset_of(low, high) == parser.consumed_offset,
    ensures
        ({
            let decoded = checkpoint_decoding(
                checkpoint_encoding(parser),
                mask_of(parser.events),
                offset_of(low, high),
                states,
            );
            &&& resume_reply(decoded) == 0
            &&& decoded == Ok::<_, CheckpointError>(detached(parser))
        }),
{
    lemma_round_trip(parser, states);
}

/// What the host's calls leave behind: the parser, once there is one, and the last checkpoint
/// that was made. `states` lists the codes of the states of the tokenizer.
#[derive(Debug)]
pub struct Session {
    pub sax: Option<SAXParser>,
    pub checkpoint: Option<Vec<u8>>,
    pub states: Vec<u8>,
}

impl Session {
    pub fn new(states: Vec<u8>) -> (session: Self)
        ensures
            session.sax is None,
            session.checkpoint is None,
            session.states == states,
    {
        Session { sax: None, checkpoint: None, states }
    }

    /// Sets the events that are to be reported. The parser `fresh` is taken on where there is
    /// none.
    pub fn parser(&mut self, fresh: SAXParser, events: u32)
        ensures
            view_of(final(self).sax) == Some(
                SAXParserView {
                    events: enabled_events(events),
                    ..(match old(self).sax {
                        Some(parser) => parser@,
                        None => fresh@,
                    })
                },
            ),
            final(self).sax is Some,
            forall|i: int|
                0 <= i < 10 ==> #[trigger] final(self).sax->Some_0.events@[i] == (events & (1u32
                    << i as u32) != 0),
            final(self).checkpoint == old(self).checkpoint,
            final(self).states == old(self).states,
    {
        let mut parser = match self.sax.take() {
            Some(parser) => parser,
            None => fresh,
        };
        parser.events = generate_event_lookup(events);
        self.sax = Some(parser);
    }

    /// How many bytes of the document the parser has consumed.
    pub fn consumed_offset(&self) -> (offset: u64)
        requires
            self.sax is Some,
        ensures
            offset == self.sax->Some_0.consumed_offset,
    {
        match &self.sax {
            Some(parser) => parser.consumed_offset,
            None => 0,
        }
    }

    /// Makes a checkpoint of the parser, whose tokens are to own their bytes, and keeps it. Where
    /// that fails, the last checkpoint stays, and the reply for the host is returned.
    pub fn checkpoint(&mut self) -> (result: Result<(), u32>)
        requires
            old(self).sax is Some,
        ensures
            final(self).sax == old(self).sax,
            final(self).states == old(self).states,
            match result {
                Ok(_) => encodable(old(self).sax->Some_0@) && final(self).checkpoint is Some
                    && final(self).checkpoint->Some_0@ == checkpoint_encoding(
                    old(self).sax->Some_0@,
                ),
                Err(reply) => !encodable(old(self).sax->Some_0@) && reply == failure_reply(
                    CheckpointError::InvalidLength,
                ) && reply == 0x8000_0004 && final(self).checkpoint == old(self).checkpoint,
            },
    {
        let made = match &self.sax {
            Some(parser) => serialize(parser),
            None => Err(CheckpointError::InvalidLength),
        };
        match made {
            Ok(data) => {
                self.checkpoint = Some(data);
                Ok(())
            },
            Err(error) => {
                let code = error.code();
                assert(0x8000_0000u32 | code == 0x8000_0000 + code) by (bit_vector)
                    requires
                        code <= 9,
                ;
                Err(0x8000_0000 | code)
            },
        }
    }

    /// The length of the last checkpoint, of which the lowest 32 bits are handed over, or 0 where
    /// none has been made.
    pub fn checkpoint_length(&self) -> (length: u32)
        ensures
            length == (match self.checkpoint {
                Some(data) => data@.len() % 0x1_0000_0000,
                None => 0,
            }),
    {
        match &self.checkpoint {
            Some(data) => {
                let length: u64 = data.len() as u64;
                (length % 0x1_0000_0000) as u32
            },
            None => 0,
        }
    }

    /// Takes on the parser that `data` is a checkpoint of. Where the checkpoint is refused, the
    /// session stays as it is. The last checkpoint that was made stays in any case.
    pub fn resume(
        &mut self,
        data: &[u8],
        events: u32,
        consumed_offset_lo: u32,
        consumed_offset_hi: u32,
    ) -> (reply: u32)
        ensures
            ({
                let decoded = checkpoint_decoding(
                    data@,
                    events,
                    offset_of(consumed_offset_lo, consumed_offset_hi),
                    old(self).states@,
                );
                &&& reply == resume_reply(decoded)
                &&& reply == 0 <==> decoded is Ok
                &&& match decoded {
                    Ok(parser) => view_of(final(self).sax) == Some(parser),
                    Err(_) => final(self).sax == old(self).sax,
                }
            }),
            final(self).checkpoint == old(self).checkpoint,
            final(self).states == old(self).states,
    {
        let consumed_offset: u64 = consumed_offset_lo as u64 | ((consumed_offset_hi as u64) << 32);
        assert(consumed_offset_lo as u64 | ((consumed_offset_hi as u64) << 32) == consumed_offset_lo
            + 0x1_0000_0000 * consumed_offset_hi) by (bit_vector);
        match deserialize(data, events, consumed_offset, &self.states) {
            Ok(parser) => {
                self.sax = Some(parser);
                0
            },
            Err(error) => error.code(),
        }
    }
}

} // verus!
