use sax_wasm::sax::checkpoint::{
    attr_type_code, attr_type_from_code, deserialize, optional_text, read_attribute,
    read_proc_inst, read_tag, read_text, serialize, state_code, state_from_code,
    validate_utf8_fragment, write_attribute, write_proc_inst, write_tag, write_text,
    CheckpointError, Reader, Writer, CHECKPOINT_MAGIC, CHECKPOINT_VERSION,
};
use sax_wasm::sax::parser::{SAXParser, State};
use sax_wasm::sax::tag::{AttrType, Attribute, ProcInst, Tag, Text};

const DETACHED: (usize, usize) = (usize::MAX, usize::MAX);

const STATES: [u8; 4] = [0, 2, 7, 20];

fn text(value: &[u8], from: u64) -> Text {
    let to = from + value.len() as u64;
    Text {
        value: value.to_vec(),
        start: [0, from],
        end: [0, to],
        header: DETACHED,
        byte_range: (from, to),
    }
}

fn attribute(name: &[u8], value: &[u8], attr_type: AttrType) -> Attribute {
    Attribute { name: text(name, 3), value: text(value, 8), attr_type, byte_range: (3, 20) }
}

fn tag(name: &[u8]) -> Tag {
    Tag {
        name: name.to_vec(),
        attributes: Vec::new(),
        text_nodes: Vec::new(),
        self_closing: false,
        open_start: [0, 0],
        open_end: [0, 3],
        close_start: [0, 0],
        close_end: [0, 0],
        header: DETACHED,
        byte_range: (0, 3),
        pending_name: false,
    }
}

/// A parser that has consumed `<r>`.
fn parser_after_root() -> SAXParser {
    SAXParser {
        events: [true; 10],
        consumed_offset: b"<r>".len() as u64,
        end_pos: [0, 3],
        state: State { code: 2 },
        brace_ct: 0,
        quote: 0,
        open_tag_start_dispatched: true,
        fragment: Vec::new(),
        text: None,
        markup_decl: None,
        markup_entity: None,
        close_tag: text(b"", 0),
        attribute: attribute(b"", b"", AttrType::NoValue),
        proc_inst: None,
        tag: tag(b"r"),
        tags: vec![tag(b"r")],
    }
}

/// A parser that was stopped in the middle of everything.
fn busy_parser() -> SAXParser {
    let mut inner = tag(b"item");
    inner.attributes = vec![
        attribute(b"id", b"7", AttrType::DoubleQuoted),
        attribute(b"on", b"f", AttrType::JSX),
        attribute(b"a", b"b", AttrType::NoQuotes),
        attribute(b"c", b"d", AttrType::SingleQuoted),
        attribute(b"e", b"", AttrType::NoValue),
    ];
    inner.text_nodes = vec![text(b"one", 30), text(b"two", 40)];
    let mut pending = tag(b"it");
    pending.pending_name = true;
    pending.header = (usize::MAX, 0);
    pending.self_closing = true;
    SAXParser {
        events: [true, false, true, true, false, false, false, false, true, true],
        consumed_offset: 0x0102_0304_0506_0708,
        end_pos: [12, 345],
        state: State { code: 20 },
        brace_ct: 3,
        quote: b'"',
        open_tag_start_dispatched: false,
        fragment: vec![0xE2, 0x82],
        text: Some(text(b"hello", 50)),
        markup_decl: Some(text(b"DOCTYPE", 60)),
        markup_entity: None,
        close_tag: text(b"item", 70),
        attribute: attribute(b"key", b"val", AttrType::SingleQuoted),
        proc_inst: Some(ProcInst {
            start: [1, 2],
            end: [3, 4],
            target: text(b"xml", 80),
            content: text(b"version", 90),
            byte_range: (80, 99),
        }),
        tag: pending,
        tags: vec![tag(b"root"), inner],
    }
}

fn busy_mask() -> u32 {
    1 + 4 + 8 + 256 + 512
}

#[test]
fn deterministic_checkpoint_round_trip_validates_options_and_offset() {
    let parser = parser_after_root();
    let first = serialize(&parser).unwrap();
    let second = serialize(&parser).unwrap();
    assert_eq!(first, second);
    assert_eq!(&first[..8], CHECKPOINT_MAGIC);
    assert_eq!(first[8], CHECKPOINT_VERSION);

    let restored = deserialize(&first, 1023, parser.consumed_offset, &STATES).unwrap();
    assert_eq!(state_code(restored.state), state_code(parser.state));
    assert_eq!(restored.consumed_offset, parser.consumed_offset);

    assert!(matches!(
        deserialize(&first, 1023, parser.consumed_offset + 1, &STATES),
        Err(CheckpointError::InvalidOffset)
    ));
    assert!(matches!(
        deserialize(&first, 1022, parser.consumed_offset, &STATES),
        Err(CheckpointError::InvalidEvents)
    ));
    let mut bad = first.clone();
    bad[8] = 99;
    assert!(matches!(
        deserialize(&bad, 1023, parser.consumed_offset, &STATES),
        Err(CheckpointError::UnsupportedVersion)
    ));
}

#[test]
fn magic_and_version_are_fixed() {
    assert_eq!(&CHECKPOINT_MAGIC, b"SAXWCKPT");
    assert_eq!(CHECKPOINT_VERSION, 1);
}

#[test]
fn parser_comes_back_from_its_checkpoint() {
    let parser = busy_parser();
    let data = serialize(&parser).unwrap();
    let restored = deserialize(&data, busy_mask(), parser.consumed_offset, &STATES).unwrap();
    assert_eq!(restored, parser);
    assert_eq!(serialize(&restored).unwrap(), data);
}

#[test]
fn restored_tokens_refer_to_no_chunk() {
    let mut parser = busy_parser();
    parser.close_tag.header = (4, 9);
    parser.tag.header = (1, 2);
    parser.tags[0].header = (1, 2);
    let data = serialize(&parser).unwrap();
    let restored = deserialize(&data, busy_mask(), parser.consumed_offset, &STATES).unwrap();
    assert_eq!(restored.close_tag.header, DETACHED);
    assert_eq!(restored.tag.header, (usize::MAX, 0));
    assert_eq!(restored.tags[0].header, DETACHED);
    assert_eq!(restored, busy_parser());
}

#[test]
fn layout_of_the_first_bytes() {
    let data = serialize(&busy_parser()).unwrap();
    let mut expected: Vec<u8> = b"SAXWCKPT".to_vec();
    expected.extend([1, 0, 0, 0]);
    expected.extend([0x0D, 0x03, 0, 0]);
    expected.extend([8, 7, 6, 5, 4, 3, 2, 1]);
    expected.extend([12, 0, 0, 0, 0, 0, 0, 0]);
    expected.extend([0x59, 1, 0, 0, 0, 0, 0, 0]);
    expected.push(20);
    expected.extend([3, 0, 0, 0]);
    expected.push(b'"');
    expected.push(0);
    expected.extend([2, 0, 0, 0, 0xE2, 0x82]);
    // The text: its mark, start, end and range, then its value.
    expected.push(1);
    for number in [0u64, 50, 0, 55, 50, 55] {
        expected.extend(number.to_le_bytes());
    }
    expected.extend([5, 0, 0, 0]);
    expected.extend(b"hello");
    assert_eq!(&data[..expected.len()], &expected[..]);
}

#[test]
fn layout_of_a_parser_at_rest() {
    let data = serialize(&parser_after_root()).unwrap();
    let empty_text = 1 + 6 * 8 + 4;
    let root = 8 * 8 + 1 + 2 * 8 + 1 + 4 + 1 + 4 + 4;
    let attribute = 2 * empty_text + 1 + 2 * 8;
    assert_eq!(data.len(), 47 + 4 + 3 + empty_text + attribute + 1 + root + 4 + root);
    // The number of open elements stands in front of the last of them.
    let count = data.len() - root - 4;
    assert_eq!(&data[count..count + 4], &[1, 0, 0, 0]);
    // The name of the element stands in front of its two empty lists.
    assert_eq!(&data[data.len() - 13..], &[1, 0, 0, 0, b'r', 0, 0, 0, 0, 0, 0, 0, 0]);
}

#[test]
fn every_cut_is_truncated() {
    let parser = busy_parser();
    let data = serialize(&parser).unwrap();
    for n in 0..data.len() {
        assert_eq!(
            deserialize(&data[..n], busy_mask(), parser.consumed_offset, &STATES),
            Err(CheckpointError::Truncated)
        );
    }
}

#[test]
fn trailing_bytes_are_refused() {
    let parser = parser_after_root();
    let mut data = serialize(&parser).unwrap();
    data.push(0);
    assert_eq!(deserialize(&data, 1023, 3, &STATES), Err(CheckpointError::Truncated));
}

#[test]
fn other_magic_is_refused() {
    let data = serialize(&parser_after_root()).unwrap();
    for i in 0..8 {
        let mut bad = data.clone();
        bad[i] ^= 1;
        assert_eq!(deserialize(&bad, 1023, 3, &STATES), Err(CheckpointError::InvalidMagic));
    }
}

fn refusal_of(at: usize, byte: u8) -> CheckpointError {
    let mut bad = serialize(&parser_after_root()).unwrap();
    bad[at] = byte;
    deserialize(&bad, 1023, 3, &STATES).unwrap_err()
}

#[test]
fn damaged_bytes_are_refused() {
    assert_eq!(refusal_of(8, 2), CheckpointError::UnsupportedVersion);
    assert_eq!(refusal_of(9, 1), CheckpointError::Truncated);
    assert_eq!(refusal_of(11, 1), CheckpointError::Truncated);
    assert_eq!(refusal_of(13, 7), CheckpointError::InvalidEvents);
    assert_eq!(refusal_of(16, 4), CheckpointError::InvalidOffset);
    assert_eq!(refusal_of(40, 3), CheckpointError::InvalidState);
    assert_eq!(refusal_of(45, b'`'), CheckpointError::InvalidQuote);
    assert_eq!(refusal_of(46, 2), CheckpointError::Truncated);
    assert_eq!(refusal_of(47, 0xFF), CheckpointError::InvalidUtf8);
}

#[test]
fn events_beyond_the_mask_are_refused_even_where_expected() {
    let mut bad = serialize(&parser_after_root()).unwrap();
    bad[13] = 7;
    assert_eq!(deserialize(&bad, 2047, 3, &STATES), Err(CheckpointError::InvalidEvents));
}

#[test]
fn unknown_attribute_type_is_an_invalid_state() {
    let mut data = serialize(&parser_after_root()).unwrap();
    // Three absent texts, the closing tag, the name and the value stand in front of the type.
    let at = 47 + 4 + 3 + 3 * 53;
    assert_eq!(data[at], 0);
    data[at] = 3;
    assert_eq!(deserialize(&data, 1023, 3, &STATES), Err(CheckpointError::InvalidState));
}

#[test]
fn any_mark_but_one_is_an_absent_text() {
    let parser = parser_after_root();
    let data = serialize(&parser).unwrap();
    let mut marked = data.clone();
    marked[51] = 200;
    let restored = deserialize(&marked, 1023, 3, &STATES).unwrap();
    assert_eq!(restored, parser);
    assert_eq!(serialize(&restored).unwrap(), data);
}

#[test]
fn closing_tag_must_be_present() {
    let mut data = serialize(&parser_after_root()).unwrap();
    assert_eq!(data[54], 1);
    data[54] = 0;
    assert_eq!(deserialize(&data, 1023, 3, &STATES), Err(CheckpointError::Truncated));
}

#[test]
fn huge_counts_are_truncated() {
    let parser = parser_after_root();
    let mut data = serialize(&parser).unwrap();
    let end = data.len();
    for byte in &mut data[end - 4..] {
        *byte = 0xFF;
    }
    assert_eq!(deserialize(&data, 1023, 3, &STATES), Err(CheckpointError::Truncated));
}

#[test]
fn different_parsers_have_different_checkpoints() {
    let parser = parser_after_root();
    let mut other = parser_after_root();
    other.tags[0].byte_range.1 = 4;
    assert_ne!(serialize(&parser).unwrap(), serialize(&other).unwrap());
}

#[test]
fn fragments() {
    let accepted: [&[u8]; 9] = [
        &[],
        &[0xC0],
        &[0xDF],
        &[0xE0],
        &[0xEF, 0x80],
        &[0xF0],
        &[0xF0, 0xBF],
        &[0xF7, 0x80, 0xBF],
        &[0xE2, 0x82],
    ];
    for bytes in accepted {
        assert_eq!(validate_utf8_fragment(bytes), Ok(()));
    }
    let refused: [&[u8]; 9] = [
        b"a",
        &[0x80],
        &[0xBF],
        &[0xF8],
        &[0xC3, 0xA9],
        &[0xE2, 0x82, 0xAC],
        &[0xF0, 0x9F, 0x98, 0x80],
        &[0xE2, 0x22],
        &[0xF0, 0x80, 0xC0],
    ];
    for bytes in refused {
        assert_eq!(validate_utf8_fragment(bytes), Err(CheckpointError::InvalidUtf8));
    }
}

#[test]
fn error_codes() {
    let errors = [
        CheckpointError::InvalidMagic,
        CheckpointError::UnsupportedVersion,
        CheckpointError::Truncated,
        CheckpointError::InvalidLength,
        CheckpointError::InvalidEvents,
        CheckpointError::InvalidState,
        CheckpointError::InvalidQuote,
        CheckpointError::InvalidOffset,
        CheckpointError::InvalidUtf8,
    ];
    for (i, error) in errors.into_iter().enumerate() {
        assert_eq!(error.code(), i as u32 + 1);
    }
}

#[test]
fn attribute_type_codes() {
    let codes = [
        (AttrType::NoValue, 0),
        (AttrType::JSX, 1),
        (AttrType::NoQuotes, 2),
        (AttrType::SingleQuoted, 4),
        (AttrType::DoubleQuoted, 8),
    ];
    for (attr_type, code) in codes {
        assert_eq!(attr_type_code(attr_type), code);
        assert_eq!(attr_type_from_code(code), Ok(attr_type));
    }
    for code in [3, 5, 6, 7, 9, 16, 255] {
        assert_eq!(attr_type_from_code(code), Err(CheckpointError::InvalidState));
    }
}

#[test]
fn state_codes() {
    for code in STATES {
        let state = state_from_code(code, &STATES).unwrap();
        assert_eq!(state, State { code });
        assert_eq!(state_code(state), code);
    }
    assert_eq!(state_from_code(1, &STATES), Err(CheckpointError::InvalidState));
    assert_eq!(State::from_checkpoint_code(1, &[]), None);
}

#[test]
fn references_to_a_chunk_never_enter_a_checkpoint() {
    let mut parser = busy_parser();
    parser.close_tag.header = (4, 9);
    parser.attribute.value.header = (0, 3);
    parser.tag.header = (1, 2);
    parser.tags[1].text_nodes[0].header = (7, 8);
    assert_eq!(serialize(&parser).unwrap(), serialize(&busy_parser()).unwrap());
}

#[test]
fn numbers_are_little_endian() {
    let mut writer = Writer::new();
    writer.u8(7);
    writer.u32(0x0102_0304);
    writer.u64(0x1122_3344_5566_7788);
    writer.bool(true);
    assert_eq!(writer.bytes(b"ab"), Ok(()));
    let mut expected = vec![7, 4, 3, 2, 1, 0x88, 0x77, 0x66, 0x55, 0x44, 0x33, 0x22, 0x11, 1];
    expected.extend([2, 0, 0, 0, b'a', b'b']);
    assert_eq!(writer.bytes, expected);

    let mut reader = Reader::new(&expected);
    assert_eq!(reader.u8(), Ok(7));
    assert_eq!(reader.u32(), Ok(0x0102_0304));
    assert_eq!(reader.u64(), Ok(0x1122_3344_5566_7788));
    assert_eq!(reader.bool(), Ok(true));
    assert_eq!(reader.bytes(), Ok(&b"ab"[..]));
    assert_eq!(reader.position, expected.len());
}

#[test]
fn flags_and_where_their_reader_stops() {
    let cases: [(&[u8], Result<bool, CheckpointError>, usize); 4] = [
        (&[0], Ok(false), 1),
        (&[1], Ok(true), 1),
        (&[2], Err(CheckpointError::Truncated), 1),
        (&[], Err(CheckpointError::Truncated), 0),
    ];
    for (data, result, position) in cases {
        let mut reader = Reader::new(data);
        assert_eq!(reader.bool(), result);
        assert_eq!(reader.position, position);
    }
}

#[test]
fn refused_reads_stop_in_front_of_what_is_missing() {
    let mut reader = Reader::new(&[1, 2, 3]);
    assert_eq!(reader.take(4), Err(CheckpointError::Truncated));
    assert_eq!(reader.u32(), Err(CheckpointError::Truncated));
    assert_eq!(reader.u64(), Err(CheckpointError::Truncated));
    assert_eq!(reader.position, 0);
    assert_eq!(reader.take(3), Ok(&[1, 2, 3][..]));
    assert_eq!(reader.u8(), Err(CheckpointError::Truncated));
    assert_eq!(reader.position, 3);

    let mut reader = Reader::new(&[9, 0, 0, 0, 5]);
    assert_eq!(reader.bytes(), Err(CheckpointError::Truncated));
    assert_eq!(reader.position, 4);

    let mut reader = Reader { bytes: &[1], position: 5 };
    assert_eq!(reader.take(0), Err(CheckpointError::Truncated));
    assert_eq!(reader.position, 5);

    // The two texts, the unknown type behind them, and nothing of the range.
    let mut writer = Writer::new();
    let unknown = attribute(b"k", b"v", AttrType::JSX);
    assert_eq!(write_attribute(&mut writer, &unknown), Ok(()));
    writer.bytes[108] = 3;
    let mut reader = Reader::new(&writer.bytes);
    assert_eq!(read_attribute(&mut reader), Err(CheckpointError::InvalidState));
    assert_eq!(reader.position, 109);
}

#[test]
fn tokens_are_read_back_and_refused_where_cut_off() {
    let parser = busy_parser();
    let rest = [1, 2, 3];

    let mut writer = Writer::new();
    assert_eq!(write_text(&mut writer, parser.text.as_ref()), Ok(()));
    let length = writer.bytes.len();
    assert_eq!(length, 53 + 5);
    writer.bytes.extend(rest);
    let mut reader = Reader::new(&writer.bytes);
    assert_eq!(read_text(&mut reader), Ok(text(b"hello", 50)));
    assert_eq!(reader.position, length);
    let mut reader = Reader::new(&writer.bytes);
    assert_eq!(optional_text(&mut reader), Ok(Some(text(b"hello", 50))));
    assert_eq!(reader.position, length);

    let mut writer = Writer::new();
    assert_eq!(write_text(&mut writer, None), Ok(()));
    writer.bytes.extend(rest);
    let mut reader = Reader::new(&writer.bytes);
    assert_eq!(optional_text(&mut reader), Ok(None));
    assert_eq!(reader.position, 1);

    let mut writer = Writer::new();
    assert_eq!(write_attribute(&mut writer, &parser.attribute), Ok(()));
    assert_eq!(writer.bytes.len(), 123 + 3 + 3);
    writer.bytes.extend(rest);
    let mut reader = Reader::new(&writer.bytes);
    assert_eq!(read_attribute(&mut reader), Ok(parser.attribute));
    assert_eq!(reader.position, 123 + 3 + 3);

    let mut writer = Writer::new();
    assert_eq!(write_proc_inst(&mut writer, parser.proc_inst.as_ref()), Ok(()));
    let length = writer.bytes.len();
    writer.bytes.extend(rest);
    let mut reader = Reader::new(&writer.bytes);
    assert_eq!(read_proc_inst(&mut reader), Ok(parser.proc_inst));
    assert_eq!(reader.position, length);

    let mut writer = Writer::new();
    assert_eq!(write_tag(&mut writer, &parser.tags[1]), Ok(()));
    let length = writer.bytes.len();
    for n in 0..length {
        let mut reader = Reader::new(&writer.bytes[..n]);
        assert_eq!(read_tag(&mut reader), Err(CheckpointError::Truncated));
        assert!(reader.position <= n);
    }
    writer.bytes.extend(rest);
    let mut reader = Reader::new(&writer.bytes);
    assert_eq!(read_tag(&mut reader).as_ref(), Ok(&parser.tags[1]));
    assert_eq!(reader.position, length);
}
