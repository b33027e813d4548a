//! The state of the parser between two chunks of a document.

use vstd::prelude::*;

use super::events::{enabled_events, generate_event_lookup};
use super::tag::{
    position, view_of, views, Attribute, AttributeView, ProcInst, ProcInstView, Tag, TagView, Text,
    TextView,
};

verus! {

/// A state of the tokenizer, known by its code.
///
/// The tokenizer owns the list of its states. Code that has to tell a state from a stray byte is
/// given that list, as the codes of the states.
#[derive(Clone, Copy, Debug, PartialEq, Eq, Structural)]
pub struct State {
    pub code: u8,
}

impl State {
    /// The state whose code is `code`, where `states`, the codes of all states, lists it.
    pub fn from_checkpoint_code(code: u8, states: &[u8]) -> (state: Option<State>)
        ensures
            state == (if states@.contains(code) {
                Some(State { code })
            } else {
                None
            }),
    {
        let mut i: usize = 0;
        while i < states.len()
            invariant
                i <= states@.len(),
                forall|j: int| 0 <= j < i ==> states@[j] != code,
            decreases states@.len() - i,
        {
            if states[i] == code {
                return Some(State { code });
            }
            i = i + 1;
        }
        None
    }
}

/// The parser as it stands between two chunks. Before it is saved, what its tokens refer to in a
/// chunk is copied into them, so that each owns its bytes.
#[derive(Debug, PartialEq, Eq)]
pub struct SAXParser {
    /// Which of the ten events are to be reported.
    pub events: [bool; 10],
    /// How many bytes of the document have been consumed.
    pub consumed_offset: u64,
    /// The line and the character that follow what has been consumed.
    pub end_pos: [u64; 2],
    pub state: State,
    pub brace_ct: u32,
    /// The quote that is open, or 0.
    pub quote: u8,
    pub open_tag_start_dispatched: bool,
    /// The first bytes of a character that the last chunk cut in two.
    pub fragment: Vec<u8>,
    pub text: Option<Text>,
    pub markup_decl: Option<Text>,
    pub markup_entity: Option<Text>,
    pub close_tag: Text,
    pub attribute: Attribute,
    pub proc_inst: Option<ProcInst>,
    pub tag: Tag,
    /// The elements that are open, outermost first.
    pub tags: Vec<Tag>,
}

/// What a [`SAXParser`] holds.
pub struct SAXParserView {
    pub events: Seq<bool>,
    pub consumed_offset: u64,
    pub end_pos: (u64, u64),
    pub state: State,
    pub brace_ct: u32,
    pub quote: u8,
    pub open_tag_start_dispatched: bool,
    pub fragment: Seq<u8>,
    pub text: Option<TextView>,
    pub markup_decl: Option<TextView>,
    pub markup_entity: Option<TextView>,
    pub close_tag: TextView,
    pub attribute: AttributeView,
    pub proc_inst: Option<ProcInstView>,
    pub tag: TagView,
    pub tags: Seq<TagView>,
}

impl View for SAXParser {
    type V = SAXParserView;

    open spec fn view(&self) -> SAXParserView {
        SAXParserView {
            events: self.events@,
            consumed_offset: self.consumed_offset,
            end_pos: position(self.end_pos),
            state: self.state,
            brace_ct: self.brace_ct,
            quote: self.quote,
            open_tag_start_dispatched: self.open_tag_start_dispatched,
            fragment: self.fragment@,
            text: view_of(self.text),
            markup_decl: view_of(self.markup_decl),
            markup_entity: view_of(self.markup_entity),
            close_tag: self.close_tag@,
            attribute: self.attribute@,
            proc_inst: view_of(self.proc_inst),
            tag: self.tag@,
            tags: views(self.tags@),
        }
    }
}

impl SAXParser {
    /// The parser that a checkpoint describes. `events` is the mask of the events to report.
    pub fn from_checkpoint(
        events: u32,
        consumed_offset: u64,
        end_pos: [u64; 2],
        state: State,
        brace_ct: u32,
        quote: u8,
        open_tag_start_dispatched: bool,
        fragment: Vec<u8>,
        text: Option<Text>,
        markup_decl: Option<Text>,
        markup_entity: Option<Text>,
        close_tag: Text,
        attribute: Attribute,
        proc_inst: Option<ProcInst>,
        tag: Tag,
        tags: Vec<Tag>,
    ) -> (parser: SAXParser)
        ensures
            parser@ == (SAXParserView {
                events: enabled_events(events),
                consumed_offset,
                end_pos: position(end_pos),
                state,
                brace_ct,
                quote,
                open_tag_start_dispatched,
                fragment: fragment@,
                text: view_of(text),
                markup_decl: view_of(markup_decl),
                markup_entity: view_of(markup_entity),
                close_tag: close_tag@,
                attribute: attribute@,
                proc_inst: view_of(proc_inst),
                tag: tag@,
                tags: views(tags@),
            }),
    {
        SAXParser {
            events: generate_event_lookup(events),
            consumed_offset,
            end_pos,
            state,
            brace_ct,
            quote,
            open_tag_start_dispatched,
            fragment,
            text,
            markup_decl,
            markup_entity,
            close_tag,
            attribute,
            proc_inst,
            tag,
            tags,
        }
    }
}

} // verus!
