use gadget_finder::log_parser::{
    parse_log, parse_size, read_record, read_sized_string, read_until_whitespace, Cursor,
    LogError, LogMessage, PropertySource, SiteLog,
};

fn decoded(input: &[u8]) -> Vec<LogMessage> {
    match parse_log(input) {
        Ok(SiteLog { messages }) => messages,
        Err(e) => panic!("the trace should decode, but: {:?}", e),
    }
}

fn s(text: &str) -> String {
    text.to_string()
}

#[test]
fn empty_input_is_an_empty_trace() {
    assert_eq!(parse_log(b""), Ok(SiteLog { messages: vec![] }));
}

#[test]
fn input_without_record_start_is_an_empty_trace() {
    assert_eq!(
        parse_log(b"no records here, only noise\n12 34 LoadIC::Load_NOT_FOUND] 1 a\n"),
        Ok(SiteLog { messages: vec![] })
    );
}

#[test]
fn load_not_found_is_an_undefined_property_from_the_inline_cache() {
    assert_eq!(
        decoded(b"[LoadIC::Load_NOT_FOUND] 3 foo 9 at x:1:2\n"),
        vec![LogMessage::UndefinedProperty {
            name: s("foo"),
            source: PropertySource::InlineCache,
            stack_trace: s("at x:1:2\n"),
        }]
    );
}

#[test]
fn get_object_property_not_found_is_an_undefined_property_from_the_runtime() {
    assert_eq!(
        decoded(b"[Runtime::GetObjectProperty_NOT_FOUND] 3 bar 5 trace "),
        vec![LogMessage::UndefinedProperty {
            name: s("bar"),
            source: PropertySource::RuntimeObject,
            stack_trace: s("trace"),
        }]
    );
}

#[test]
fn store_is_a_tainted_key_assignment_from_the_inline_cache() {
    assert_eq!(
        decoded(b"[StoreIC::Store] 6 Widget 1 k 1 v 2 st\n"),
        vec![LogMessage::AssignTaintedKey {
            class_name: s("Widget"),
            key: s("k"),
            value: s("v"),
            source: PropertySource::InlineCache,
            stack_trace: s("st"),
        }]
    );
}

#[test]
fn set_object_property_tainted_is_a_tainted_key_assignment_from_the_runtime() {
    assert_eq!(
        decoded(b"[Runtime::SetObjectProperty_TAINTED] 6 Object 3 key 5 value 0  "),
        vec![LogMessage::AssignTaintedKey {
            class_name: s("Object"),
            key: s("key"),
            value: s("value"),
            source: PropertySource::RuntimeObject,
            stack_trace: s(""),
        }]
    );
}

#[test]
fn frame_location_carries_the_url() {
    assert_eq!(
        decoded(b"[LogFrameLocation] 19 https://example.com\n"),
        vec![LogMessage::Location { url: s("https://example.com") }]
    );
}

#[test]
fn set_object_property_prototype_is_a_pollution() {
    assert_eq!(
        decoded(b"[Runtime::SetObjectProperty_PROTOTYPE] 1 k 2 vv 3 sss\n"),
        vec![LogMessage::Polluted { key: s("k"), value: s("vv"), stack_trace: s("sss") }]
    );
}

#[test]
fn from_js_document_load_is_the_document_start() {
    assert_eq!(decoded(b"[From_JS] DOCUMENT_LOAD\n"), vec![LogMessage::DocumentStart]);
}

#[test]
fn from_js_document_load_at_the_end_of_input_is_the_document_start() {
    assert_eq!(decoded(b"[From_JS] DOCUMENT_LOAD"), vec![LogMessage::DocumentStart]);
}

#[test]
fn from_js_prototype_get_carries_three_fields() {
    assert_eq!(
        decoded(b"[From_JS] PROTOTYPE_GET 3 foo 13 0xEFFACED:0:0 5 Error\n"),
        vec![LogMessage::PrototypeGet {
            key: s("foo"),
            value: s("0xEFFACED:0:0"),
            stack_trace: s("Error"),
        }]
    );
}

#[test]
fn from_js_with_an_unknown_kind_is_skipped() {
    assert_eq!(
        decoded(b"[From_JS] SOMETHING_ELSE 3 foo\n[From_JS] DOCUMENT_LOAD\n"),
        vec![LogMessage::DocumentStart]
    );
}

#[test]
fn string_tainted_is_a_sink_with_its_type_as_a_token() {
    assert_eq!(
        decoded(b"[LogIfStringTainted] innerHTML 5 <img> 8 at a:1:1\n"),
        vec![LogMessage::SinkReached {
            sink_type: s("innerHTML"),
            value: s("<img>"),
            stack_trace: s("at a:1:1"),
        }]
    );
}

#[test]
fn fields_keep_whitespace_newlines_and_brackets() {
    assert_eq!(
        decoded(b"[LoadIC::Load_NOT_FOUND] 7 a b\n[c] 14 line 1\n\tline 2\n"),
        vec![LogMessage::UndefinedProperty {
            name: s("a b\n[c]"),
            source: PropertySource::InlineCache,
            stack_trace: s("line 1\n\tline 2"),
        }]
    );
}

#[test]
fn fields_keep_text_beyond_ascii() {
    let input = "[LogFrameLocation] 10 h\u{e9}llo \u{2603}\n".as_bytes();
    assert_eq!(decoded(input), vec![LogMessage::Location { url: s("h\u{e9}llo \u{2603}") }]);
}

#[test]
fn size_prefix_may_carry_a_plus_sign_and_leading_zeros() {
    assert_eq!(
        decoded(b"[LogFrameLocation] +003 abc\n"),
        vec![LogMessage::Location { url: s("abc") }]
    );
}

#[test]
fn records_come_out_in_the_order_of_the_input() {
    assert_eq!(
        decoded(
            b"[LogFrameLocation] 1 a\n[From_JS] DOCUMENT_LOAD\n[LogFrameLocation] 1 b\n[LogFrameLocation] 1 a\n"
        ),
        vec![
            LogMessage::Location { url: s("a") },
            LogMessage::DocumentStart,
            LogMessage::Location { url: s("b") },
            LogMessage::Location { url: s("a") },
        ]
    );
}

#[test]
fn noise_between_records_is_ignored() {
    assert_eq!(
        decoded(b"chatter\n[LogFrameLocation] 1 a\nmore chatter [From_JS] DOCUMENT_LOAD tail"),
        vec![LogMessage::Location { url: s("a") }, LogMessage::DocumentStart]
    );
}

#[test]
fn declared_size_beyond_the_input_is_an_error() {
    assert_eq!(parse_log(b"[LogFrameLocation] 100 abc"), Err(LogError::Truncated));
}

#[test]
fn declared_size_one_beyond_the_input_is_an_error() {
    assert_eq!(parse_log(b"[LogFrameLocation] 4 abc"), Err(LogError::Truncated));
}

#[test]
fn field_that_ends_with_the_input_needs_no_separator() {
    assert_eq!(decoded(b"[LogFrameLocation] 3 abc"), vec![LogMessage::Location { url: s("abc") }]);
}

#[test]
fn truncation_in_a_later_field_fails_the_whole_decode() {
    assert_eq!(
        parse_log(b"[LogFrameLocation] 1 a\n[LoadIC::Load_NOT_FOUND] 3 foo 50 short"),
        Err(LogError::Truncated)
    );
}

#[test]
fn missing_field_at_the_end_of_input_is_an_error() {
    assert_eq!(parse_log(b"[LoadIC::Load_NOT_FOUND] 3 foo "), Err(LogError::IntParse));
}

#[test]
fn non_numeric_size_prefix_is_an_error() {
    assert_eq!(parse_log(b"[LogFrameLocation] abc def\n"), Err(LogError::IntParse));
}

#[test]
fn negative_size_prefix_is_an_error() {
    assert_eq!(parse_log(b"[LogFrameLocation] -1 a\n"), Err(LogError::IntParse));
}

#[test]
fn empty_size_prefix_is_an_error() {
    assert_eq!(parse_log(b"[LogFrameLocation]  3 abc\n"), Err(LogError::IntParse));
}

#[test]
fn size_prefix_beyond_the_machine_word_is_an_error() {
    assert_eq!(
        parse_log(b"[LogFrameLocation] 99999999999999999999999999999999 a\n"),
        Err(LogError::IntParse)
    );
}

#[test]
fn invalid_utf8_in_a_field_is_an_error() {
    assert_eq!(parse_log(b"[LogFrameLocation] 2 \xff\xfe\n"), Err(LogError::Utf8));
}

#[test]
fn invalid_utf8_in_a_size_prefix_is_an_error() {
    assert_eq!(parse_log(b"[LogFrameLocation] \xff 2\n"), Err(LogError::Utf8));
}

#[test]
fn invalid_utf8_in_a_tag_is_an_error() {
    assert_eq!(parse_log(b"[\xc3\x28] 1 a\n"), Err(LogError::Utf8));
}

#[test]
fn field_cut_inside_a_character_is_an_error() {
    let input = "[LogFrameLocation] 1 \u{e9}\n".as_bytes();
    assert_eq!(parse_log(input), Err(LogError::Utf8));
}

#[test]
fn unknown_tag_is_skipped_and_later_records_decode() {
    assert_eq!(
        decoded(b"[Unknown::Thing] 3 foo 5 trace\n[LogFrameLocation] 1 a\n"),
        vec![LogMessage::Location { url: s("a") }]
    );
}

#[test]
fn record_start_inside_a_skipped_record_starts_a_record() {
    assert_eq!(
        decoded(b"[Unknown::Thing] [From_JS] DOCUMENT_LOAD\n"),
        vec![LogMessage::DocumentStart]
    );
}

#[test]
fn tag_without_its_closing_bracket_is_unknown() {
    assert_eq!(decoded(b"[LogFrameLocation 1 a\n"), vec![]);
}

#[test]
fn record_start_at_the_end_of_input_is_skipped() {
    assert_eq!(decoded(b"[LogFrameLocation] 1 a\n["), vec![LogMessage::Location { url: s("a") }]);
}

#[test]
fn token_reader_stops_at_whitespace_and_steps_over_it() {
    let mut cursor = Cursor::new(b"abc def");
    assert_eq!(cursor.offset(), 0);
    assert_eq!(read_until_whitespace(&mut cursor), Ok(s("abc")));
    assert_eq!(cursor.offset(), 4);
    assert_eq!(read_until_whitespace(&mut cursor), Ok(s("def")));
    assert_eq!(cursor.offset(), 7);
    assert_eq!(read_until_whitespace(&mut cursor), Ok(s("")));
    assert_eq!(cursor.offset(), 7);
}

#[test]
fn token_reader_takes_each_kind_of_ascii_whitespace_as_an_end() {
    for end in [b' ', b'\t', b'\n', b'\x0c', b'\r'] {
        let input = [b'a', end, b'b'];
        let mut cursor = Cursor::new(&input);
        assert_eq!(read_until_whitespace(&mut cursor), Ok(s("a")));
        assert_eq!(cursor.offset(), 2);
    }
    let input = [b'a', 0x0b, b'b'];
    let mut cursor = Cursor::new(&input);
    assert_eq!(read_until_whitespace(&mut cursor), Ok(s("a\u{b}b")));
    assert_eq!(cursor.offset(), 3);
}

#[test]
fn token_reader_rejects_invalid_utf8_and_still_moves_on() {
    let mut cursor = Cursor::new(b"\xff rest");
    assert_eq!(read_until_whitespace(&mut cursor), Err(LogError::Utf8));
    assert_eq!(cursor.offset(), 2);
}

#[test]
fn sized_reader_reads_the_bytes_and_drops_the_separator() {
    let mut cursor = Cursor::new(b"5 a b\nc|3 xyz");
    assert_eq!(read_sized_string(&mut cursor), Ok(s("a b\nc")));
    assert_eq!(cursor.offset(), 8);
    assert_eq!(read_sized_string(&mut cursor), Ok(s("xyz")));
    assert_eq!(cursor.offset(), 13);
}

#[test]
fn sized_reader_reads_an_empty_field() {
    let mut cursor = Cursor::new(b"0 |rest");
    assert_eq!(read_sized_string(&mut cursor), Ok(s("")));
    assert_eq!(cursor.offset(), 3);
}

#[test]
fn sized_reader_reports_each_error() {
    assert_eq!(read_sized_string(&mut Cursor::new(b"7 short")), Err(LogError::Truncated));
    assert_eq!(read_sized_string(&mut Cursor::new(b"x7 abc")), Err(LogError::IntParse));
    assert_eq!(read_sized_string(&mut Cursor::new(b"1 \x80 ")), Err(LogError::Utf8));
}

#[test]
fn cursor_finds_the_next_record() {
    let mut cursor = Cursor::new(b"noise [A] more [B");
    assert!(cursor.enter_record());
    assert_eq!(cursor.offset(), 7);
    assert!(cursor.enter_record());
    assert_eq!(cursor.offset(), 16);
    assert!(!cursor.enter_record());
    assert_eq!(cursor.offset(), 17);
    assert!(!cursor.enter_record());
    assert_eq!(cursor.offset(), 17);
}

#[test]
fn record_reader_gives_nothing_for_an_unknown_tag() {
    let mut cursor = Cursor::new(b"Nope] 1 a");
    assert_eq!(read_record(&mut cursor), Ok(None));
    assert_eq!(cursor.offset(), 6);
}

#[test]
fn record_reader_reads_a_known_record() {
    let mut cursor = Cursor::new(b"LogFrameLocation] 1 a\nrest");
    assert_eq!(read_record(&mut cursor), Ok(Some(LogMessage::Location { url: s("a") })));
    assert_eq!(cursor.offset(), 22);
}

#[test]
fn size_prefix_values() {
    assert_eq!(parse_size(b"0"), Some(0));
    assert_eq!(parse_size(b"42"), Some(42));
    assert_eq!(parse_size(b"+42"), Some(42));
    assert_eq!(parse_size(b"007"), Some(7));
    assert_eq!(parse_size(b""), None);
    assert_eq!(parse_size(b"+"), None);
    assert_eq!(parse_size(b"-1"), None);
    assert_eq!(parse_size(b"++1"), None);
    assert_eq!(parse_size(b"1_000"), None);
    assert_eq!(parse_size(b"12a"), None);
    assert_eq!(parse_size(b" 1"), None);
    assert_eq!(parse_size(usize::MAX.to_string().as_bytes()), Some(usize::MAX));
    let mut beyond = usize::MAX.to_string();
    beyond.push('0');
    assert_eq!(parse_size(beyond.as_bytes()), None);
}

#[test]
fn size_prefix_agrees_with_the_standard_parser() {
    let samples: [&str; 12] =
        ["0", "1", "+1", "-1", "", "+", "18446744073709551615", "18446744073709551616", "00012", "1 ", "x", "4294967296"];
    for sample in samples {
        assert_eq!(parse_size(sample.as_bytes()), sample.parse::<usize>().ok(), "{:?}", sample);
    }
}

#[test]
fn each_error_has_its_message() {
    assert_eq!(LogError::Truncated.message(), "the trace ends inside a field");
    assert_eq!(LogError::Utf8.message(), "the trace holds text that is not valid UTF-8");
    assert_eq!(LogError::IntParse.message(), "a size prefix of the trace is not a number");
}

fn field(text: &str) -> String {
    format!("{} {} ", text.len(), text)
}

#[test]
fn trace_with_every_kind_of_record_reads_back() {
    let name = "a name with\nspaces [and] brackets";
    let trace = "multi\nline\n\ttrace [LogFrameLocation] 3 not a record ";
    let mut input = String::new();
    input.push_str(&format!("[LoadIC::Load_NOT_FOUND] {}{}", field(name), field(trace)));
    input.push_str(&format!("[Runtime::GetObjectProperty_NOT_FOUND] {}{}", field(""), field(trace)));
    input.push_str(&format!(
        "[StoreIC::Store] {}{}{}{}",
        field("Cl\u{e4}ss"),
        field("k"),
        field("v v"),
        field(trace)
    ));
    input.push_str(&format!(
        "[Runtime::SetObjectProperty_TAINTED] {}{}{}{}",
        field("Object"),
        field("k"),
        field(""),
        field("")
    ));
    input.push_str(&format!("[LogFrameLocation] {}", field("https://example.com/?q=[1]")));
    input.push_str(&format!(
        "[Runtime::SetObjectProperty_PROTOTYPE] {}{}{}",
        field("k"),
        field("v"),
        field(trace)
    ));
    input.push_str(&format!("[From_JS] PROTOTYPE_GET {}{}{}", field(name), field("m:0:1"), field(trace)));
    input.push_str(&format!("[LogIfStringTainted] eval {}{}", field("alert(1)"), field(trace)));
    input.push_str("[From_JS] DOCUMENT_LOAD ");
    assert_eq!(
        decoded(input.as_bytes()),
        vec![
            LogMessage::UndefinedProperty {
                name: s(name),
                source: PropertySource::InlineCache,
                stack_trace: s(trace),
            },
            LogMessage::UndefinedProperty {
                name: s(""),
                source: PropertySource::RuntimeObject,
                stack_trace: s(trace),
            },
            LogMessage::AssignTaintedKey {
                class_name: s("Cl\u{e4}ss"),
                key: s("k"),
                value: s("v v"),
                source: PropertySource::InlineCache,
                stack_trace: s(trace),
            },
            LogMessage::AssignTaintedKey {
                class_name: s("Object"),
                key: s("k"),
                value: s(""),
                source: PropertySource::RuntimeObject,
                stack_trace: s(""),
            },
            LogMessage::Location { url: s("https://example.com/?q=[1]") },
            LogMessage::Polluted { key: s("k"), value: s("v"), stack_trace: s(trace) },
            LogMessage::PrototypeGet { key: s(name), value: s("m:0:1"), stack_trace: s(trace) },
            LogMessage::SinkReached {
                sink_type: s("eval"),
                value: s("alert(1)"),
                stack_trace: s(trace),
            },
            LogMessage::DocumentStart,
        ]
    );
}
