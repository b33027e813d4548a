use sax_wasm::sax::events::{events_mask, generate_event_lookup, EVENT_MASK};
use sax_wasm::sax::parser::{SAXParser, State};
use sax_wasm::sax::tag::{AttrType, Attribute, Tag, Text};
use sax_wasm::session::{SaxEventHandler, Session};

fn text() -> Text {
    Text {
        value: Vec::new(),
        start: [0, 0],
        end: [0, 0],
        header: (usize::MAX, usize::MAX),
        byte_range: (0, 0),
    }
}

fn parser(consumed_offset: u64) -> SAXParser {
    SAXParser {
        events: [false; 10],
        consumed_offset,
        end_pos: [0, 0],
        state: State { code: 0 },
        brace_ct: 0,
        quote: 0,
        open_tag_start_dispatched: false,
        fragment: Vec::new(),
        text: None,
        markup_decl: None,
        markup_entity: None,
        close_tag: text(),
        attribute: Attribute {
            name: text(),
            value: text(),
            attr_type: AttrType::NoValue,
            byte_range: (0, 0),
        },
        proc_inst: None,
        tag: Tag {
            name: Vec::new(),
            attributes: Vec::new(),
            text_nodes: Vec::new(),
            self_closing: false,
            open_start: [0, 0],
            open_end: [0, 0],
            close_start: [0, 0],
            close_end: [0, 0],
            header: (usize::MAX, usize::MAX),
            byte_range: (0, 0),
            pending_name: false,
        },
        tags: Vec::new(),
    }
}

#[test]
fn masks_and_switches() {
    assert_eq!(EVENT_MASK, 1023);
    assert_eq!(events_mask(&[false; 10]), 0);
    assert_eq!(events_mask(&[true; 10]), 1023);
    let mut events = [false; 10];
    events[0] = true;
    events[9] = true;
    assert_eq!(events_mask(&events), 513);
    assert_eq!(generate_event_lookup(513), events);
    assert_eq!(generate_event_lookup(u32::MAX), [true; 10]);
    assert_eq!(generate_event_lookup(!EVENT_MASK), [false; 10]);
    for mask in 0..=EVENT_MASK {
        assert_eq!(events_mask(&generate_event_lookup(mask)), mask);
    }
}

#[test]
fn event_bits() {
    let handler = SaxEventHandler::new();
    assert_eq!(handler, SaxEventHandler);
    assert_eq!(handler.event_bit(0), 1);
    assert_eq!(handler.event_bit(9), 512);
    assert_eq!(handler.event_bit(31), 0x8000_0000);
}

#[test]
fn parser_is_taken_on_once() {
    let mut session = Session::new(vec![0]);
    assert!(session.sax.is_none());
    session.parser(parser(5), 3);
    assert_eq!(session.consumed_offset(), 5);
    session.parser(parser(6), 1 << 9);
    assert_eq!(session.consumed_offset(), 5);
    let mut expected = parser(5);
    expected.events[9] = true;
    assert_eq!(session.sax, Some(expected));
}

#[test]
fn checkpoint_is_kept_and_resumed() {
    let mut session = Session::new(vec![0]);
    assert_eq!(session.checkpoint_length(), 0);
    session.parser(parser(0x0000_0002_0000_0007), 1023);
    assert_eq!(session.checkpoint(), Ok(()));
    let data = session.checkpoint.as_ref().unwrap().clone();
    assert_eq!(session.checkpoint_length() as usize, data.len());

    let mut other = Session::new(vec![0]);
    assert_eq!(other.resume(&data, 1023, 7, 2), 0);
    assert_eq!(other.sax, session.sax);
    assert_eq!(other.checkpoint_length(), 0);
}

#[test]
fn refused_resumption_leaves_the_session() {
    let mut session = Session::new(vec![0]);
    session.parser(parser(7), 1023);
    assert_eq!(session.checkpoint(), Ok(()));
    let data = session.checkpoint.as_ref().unwrap().clone();

    let mut other = Session::new(vec![0]);
    other.parser(parser(1), 1);
    assert_eq!(other.resume(&data, 1023, 7, 1), 8);
    assert_eq!(other.resume(&data, 1022, 7, 0), 5);
    assert_eq!(other.resume(&data[..20], 1023, 7, 0), 3);
    assert_eq!(other.resume(b"not a checkpoint", 1023, 7, 0), 1);
    assert_eq!(other.consumed_offset(), 1);

    let mut unfamiliar = Session::new(vec![1, 2]);
    assert_eq!(unfamiliar.resume(&data, 1023, 7, 0), 6);
    assert!(unfamiliar.sax.is_none());
}
