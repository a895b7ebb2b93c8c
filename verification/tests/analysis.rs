use gadget_finder::analysis::{
    find_document_start, get_all_undefined_properties, is_sink_related_message,
    retain_sink_related_log_entries, Finding,
};
use gadget_finder::location::{normalize_path, resolve_location, SourceLocation};
use gadget_finder::log_parser::{parse_log, LogMessage, PropertySource, SiteLog};
use gadget_finder::text::{bytes_precede, text_precede};

fn undefined(name: &str, stack_trace: &str) -> LogMessage {
    LogMessage::UndefinedProperty {
        name: name.to_string(),
        source: PropertySource::InlineCache,
        stack_trace: stack_trace.to_string(),
    }
}

fn assign(class_name: &str) -> LogMessage {
    LogMessage::AssignTaintedKey {
        class_name: class_name.to_string(),
        key: "k".to_string(),
        value: "v".to_string(),
        source: PropertySource::RuntimeObject,
        stack_trace: "st".to_string(),
    }
}

fn sink(sink_type: &str) -> LogMessage {
    LogMessage::SinkReached {
        sink_type: sink_type.to_string(),
        value: "v".to_string(),
        stack_trace: "st".to_string(),
    }
}

fn finding(name: &str, stack_trace: &str, location: Option<(&str, u32, u32)>) -> Finding {
    Finding {
        name: name.to_string(),
        stack_trace: stack_trace.to_string(),
        location: location.map(|(file, line, column)| SourceLocation {
            file: file.to_string(),
            line,
            column,
        }),
    }
}

#[test]
fn location_with_a_doubled_slash_behind_the_host() {
    assert_eq!(
        resolve_location("at foo (https://a.com//b.js:10:5)"),
        Some(SourceLocation { file: "https://a.com/b.js".to_string(), line: 10, column: 5 })
    );
}

#[test]
fn location_without_parentheses() {
    assert_eq!(
        resolve_location("    at https://a.com/b.js:7:42"),
        Some(SourceLocation { file: "https://a.com/b.js".to_string(), line: 7, column: 42 })
    );
}

#[test]
fn location_without_a_scheme() {
    assert_eq!(
        resolve_location("at f (/srv//app///main.js:1:2)"),
        Some(SourceLocation { file: "/srv/app/main.js".to_string(), line: 1, column: 2 })
    );
}

#[test]
fn location_with_a_port_in_the_host() {
    assert_eq!(
        resolve_location("at f (http://localhost:8080//x.js:3:4)"),
        Some(SourceLocation { file: "http://localhost:8080/x.js".to_string(), line: 3, column: 4 })
    );
}

#[test]
fn location_comes_from_the_first_line_only() {
    assert_eq!(resolve_location("Error\n    at f (https://a.com/b.js:10:5)"), None);
    assert_eq!(
        resolve_location("at f (a.js:1:2)\n    at g (b.js:3:4)"),
        Some(SourceLocation { file: "a.js".to_string(), line: 1, column: 2 })
    );
}

#[test]
fn head_without_the_pattern_has_no_location() {
    assert_eq!(resolve_location(""), None);
    assert_eq!(resolve_location("at foo (native)"), None);
    assert_eq!(resolve_location("at foo (b.js:10)"), None);
    assert_eq!(resolve_location("at foo (b.js:10:)"), None);
    assert_eq!(resolve_location("at foo (:10:5)"), None);
    assert_eq!(resolve_location("10:5"), None);
    assert_eq!(resolve_location("at foo (b.js:x:5)"), None);
    assert_eq!(resolve_location("at foo (b.js:10:5) "), None);
}

#[test]
fn location_numbers_must_fit_32_bits() {
    assert_eq!(
        resolve_location("a.js:4294967295:0"),
        Some(SourceLocation { file: "a.js".to_string(), line: 4294967295, column: 0 })
    );
    assert_eq!(resolve_location("a.js:4294967296:0"), None);
    assert_eq!(resolve_location("a.js:1:99999999999999999999999"), None);
}

#[test]
fn location_keeps_text_beyond_ascii_in_the_path() {
    assert_eq!(
        resolve_location("at f (https://a.com//caf\u{e9}.js:1:2)"),
        Some(SourceLocation { file: "https://a.com/caf\u{e9}.js".to_string(), line: 1, column: 2 })
    );
}

#[test]
fn path_normalization() {
    assert_eq!(normalize_path(b"https://a.com//b.js"), b"https://a.com/b.js".to_vec());
    assert_eq!(normalize_path(b"https://a.com/b.js"), b"https://a.com/b.js".to_vec());
    assert_eq!(normalize_path(b"a//b///c////d"), b"a/b/c/d".to_vec());
    assert_eq!(normalize_path(b"//a"), b"/a".to_vec());
    assert_eq!(normalize_path(b"file:///a//b"), b"file://a/b".to_vec());
    assert_eq!(normalize_path(b"://a"), b":/a".to_vec());
    assert_eq!(normalize_path(b"a b://c"), b"a b:/c".to_vec());
    assert_eq!(normalize_path(b"chrome-extension://id//x"), b"chrome-extension://id/x".to_vec());
    assert_eq!(normalize_path(b""), b"".to_vec());
    assert_eq!(normalize_path(b"/"), b"/".to_vec());
}

#[test]
fn order_of_bytes_is_lexicographic() {
    assert!(bytes_precede(b"", b"a"));
    assert!(!bytes_precede(b"", b""));
    assert!(!bytes_precede(b"a", b""));
    assert!(bytes_precede(b"a", b"b"));
    assert!(bytes_precede(b"a", b"ab"));
    assert!(!bytes_precede(b"ab", b"a"));
    assert!(bytes_precede(b"ab", b"b"));
    assert!(!bytes_precede(b"abc", b"abc"));
    assert!(bytes_precede(b"Z", b"a"));
    assert!(bytes_precede(b"\x7f", b"\x80"));
}

#[test]
fn order_of_texts_agrees_with_the_standard_order() {
    let samples = ["", "a", "ab", "b", "B", "\u{e9}", "z", "a\u{2603}", "a b", "a\n"];
    for a in samples {
        for b in samples {
            assert_eq!(text_precede(a, b), a < b, "{:?} {:?}", a, b);
        }
    }
}

#[test]
fn undefined_properties_before_the_document_start_are_left_out() {
    let log = SiteLog {
        messages: vec![
            undefined("early", "at boot:1:1"),
            LogMessage::DocumentStart,
            undefined("late", "at page.js:2:3"),
        ],
    };
    assert_eq!(
        get_all_undefined_properties(&log),
        vec![finding("late", "at page.js:2:3", Some(("page.js", 2, 3)))]
    );
}

#[test]
fn undefined_properties_without_a_document_start_are_none() {
    let log = SiteLog { messages: vec![undefined("a", "x"), undefined("b", "y")] };
    assert_eq!(get_all_undefined_properties(&log), vec![]);
    assert_eq!(get_all_undefined_properties(&SiteLog { messages: vec![] }), vec![]);
}

#[test]
fn undefined_properties_are_sorted_and_without_duplicates() {
    let log = SiteLog {
        messages: vec![
            LogMessage::DocumentStart,
            undefined("b", "t2"),
            undefined("a", "t9"),
            undefined("b", "t1"),
            undefined("a", "t9"),
            LogMessage::Location { url: "x".to_string() },
            undefined("b", "t2"),
            undefined("a", "t10"),
        ],
    };
    assert_eq!(
        get_all_undefined_properties(&log),
        vec![
            finding("a", "t10", None),
            finding("a", "t9", None),
            finding("b", "t1", None),
            finding("b", "t2", None),
        ]
    );
}

#[test]
fn one_name_with_two_traces_gives_two_findings() {
    let log = SiteLog {
        messages: vec![
            LogMessage::DocumentStart,
            undefined("p", "at f (a.js:1:1)"),
            undefined("p", "at g (a.js:2:2)"),
        ],
    };
    assert_eq!(
        get_all_undefined_properties(&log),
        vec![
            finding("p", "at f (a.js:1:1)", Some(("a.js", 1, 1))),
            finding("p", "at g (a.js:2:2)", Some(("a.js", 2, 2))),
        ]
    );
}

#[test]
fn the_source_of_the_read_does_not_tell_findings_apart() {
    let log = SiteLog {
        messages: vec![
            LogMessage::DocumentStart,
            LogMessage::UndefinedProperty {
                name: "p".to_string(),
                source: PropertySource::InlineCache,
                stack_trace: "t".to_string(),
            },
            LogMessage::UndefinedProperty {
                name: "p".to_string(),
                source: PropertySource::RuntimeObject,
                stack_trace: "t".to_string(),
            },
        ],
    };
    assert_eq!(get_all_undefined_properties(&log), vec![finding("p", "t", None)]);
}

#[test]
fn only_the_first_document_start_parts_the_trace() {
    let log = SiteLog {
        messages: vec![
            undefined("zero", "t"),
            LogMessage::DocumentStart,
            undefined("one", "t"),
            LogMessage::DocumentStart,
            undefined("two", "t"),
        ],
    };
    assert_eq!(find_document_start(&log), 1);
    assert_eq!(
        get_all_undefined_properties(&log),
        vec![finding("one", "t", None), finding("two", "t", None)]
    );
}

#[test]
fn sink_filter_drops_built_in_classes_and_keeps_the_rest_in_order() {
    let log = SiteLog {
        messages: vec![
            LogMessage::DocumentStart,
            assign("Object"),
            sink("innerHTML"),
            assign("CustomThing"),
            assign("Array"),
            undefined("p", "t"),
            assign("Function"),
            sink("eval"),
            LogMessage::Location { url: "u".to_string() },
            sink("innerHTML"),
        ],
    };
    let kept = retain_sink_related_log_entries(&log);
    let expected = vec![sink("innerHTML"), assign("CustomThing"), sink("eval"), sink("innerHTML")];
    assert_eq!(kept, expected.iter().collect::<Vec<&LogMessage>>());
}

#[test]
fn sink_filter_takes_class_names_by_the_letter() {
    assert!(!is_sink_related_message(&assign("Object")));
    assert!(!is_sink_related_message(&assign("Array")));
    assert!(!is_sink_related_message(&assign("Function")));
    assert!(is_sink_related_message(&assign("object")));
    assert!(is_sink_related_message(&assign("Objects")));
    assert!(is_sink_related_message(&assign("")));
    assert!(is_sink_related_message(&assign("CustomThing")));
    assert!(is_sink_related_message(&sink("anything")));
    assert!(!is_sink_related_message(&LogMessage::DocumentStart));
    assert!(!is_sink_related_message(&undefined("p", "t")));
}

#[test]
fn sink_filter_leaves_out_what_stands_before_the_document_start() {
    let log = SiteLog {
        messages: vec![sink("early"), assign("Early"), LogMessage::DocumentStart, sink("late")],
    };
    let expected = vec![sink("late")];
    assert_eq!(
        retain_sink_related_log_entries(&log),
        expected.iter().collect::<Vec<&LogMessage>>()
    );
    let no_marker = SiteLog { messages: vec![sink("a"), assign("B")] };
    assert_eq!(retain_sink_related_log_entries(&no_marker).len(), 0);
}

#[test]
fn trace_file_to_report() {
    let trace = b"[From_JS] DOCUMENT_LOAD\n\
[Runtime::GetObjectProperty_NOT_FOUND] 6 config 33 at foo (https://a.com//b.js:10:5)\n\
[LoadIC::Load_NOT_FOUND] 3 foo 14 at <anonymous>\n";
    let log = parse_log(trace).expect("the fixture decodes");
    assert_eq!(log.messages.len(), 3);
    assert_eq!(
        get_all_undefined_properties(&log),
        vec![
            Finding {
                name: "config".to_string(),
                stack_trace: "at foo (https://a.com//b.js:10:5)".to_string(),
                location: Some(SourceLocation {
                    file: "https://a.com/b.js".to_string(),
                    line: 10,
                    column: 5,
                }),
            },
            Finding {
                name: "foo".to_string(),
                stack_trace: "at <anonymous>".to_string(),
                location: None,
            },
        ]
    );
}

#[test]
fn trace_file_with_early_reads_to_report() {
    let trace = b"[LoadIC::Load_NOT_FOUND] 5 early 30 at boot (chrome://boot.js:1:1)\n\
[From_JS] DOCUMENT_LOAD\n\
[LoadIC::Load_NOT_FOUND] 1 b 12 at b.js:2:20\n\
[Unknown::Thing] 1 x\n\
[LoadIC::Load_NOT_FOUND] 1 a 11 at a.js:1:1\n\
[LoadIC::Load_NOT_FOUND] 1 b 12 at b.js:2:20\n";
    let log = parse_log(trace).expect("the fixture decodes");
    assert_eq!(log.messages.len(), 5);
    assert_eq!(
        get_all_undefined_properties(&log),
        vec![
            finding("a", "at a.js:1:1", Some(("a.js", 1, 1))),
            finding("b", "at b.js:2:20", Some(("b.js", 2, 20))),
        ]
    );
}
