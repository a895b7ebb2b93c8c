use gadget_finder::cli::{is_url_line, is_white_space_char, Commands};
use gadget_finder::script::gen_polluting_script;

#[test]
fn property_without_a_value() {
    assert_eq!(Commands::parse_custom_property("foo"), Ok(("foo".to_string(), None)));
}

#[test]
fn property_with_a_value() {
    assert_eq!(
        Commands::parse_custom_property("foo=bar"),
        Ok(("foo".to_string(), Some("bar".to_string())))
    );
}

#[test]
fn property_is_parted_at_the_first_equals_sign() {
    assert_eq!(
        Commands::parse_custom_property("a=b=c"),
        Ok(("a".to_string(), Some("b=c".to_string())))
    );
}

#[test]
fn property_with_an_empty_name_or_value() {
    assert_eq!(Commands::parse_custom_property(""), Ok(("".to_string(), None)));
    assert_eq!(Commands::parse_custom_property("="), Ok(("".to_string(), Some("".to_string()))));
    assert_eq!(Commands::parse_custom_property("k="), Ok(("k".to_string(), Some("".to_string()))));
    assert_eq!(Commands::parse_custom_property("=v"), Ok(("".to_string(), Some("v".to_string()))));
}

#[test]
fn property_with_text_beyond_ascii() {
    assert_eq!(
        Commands::parse_custom_property("cl\u{e9}=\u{2603}=\u{1f600}"),
        Ok(("cl\u{e9}".to_string(), Some("\u{2603}=\u{1f600}".to_string())))
    );
}

#[test]
fn property_parsing_agrees_with_split_once() {
    for s in ["", "a", "=", "a=", "=b", "a=b", "a==b", "a=b=c", " a = b ", "\u{e9}=\u{e9}"] {
        let expected = match s.split_once('=') {
            Some((k, v)) => (k.to_string(), Some(v.to_string())),
            None => (s.to_string(), None),
        };
        assert_eq!(Commands::parse_custom_property(s), Ok(expected));
    }
}

#[test]
fn undefined_scan_injects_no_script() {
    assert_eq!(Commands::Undefined.on_load_script(), None);
}

#[test]
fn enumerable_scan_pollutes_the_marker_property() {
    assert_eq!(
        Commands::Enumerable.on_load_script(),
        Some(gen_polluting_script(&[("0xEFFACED".to_string(), None)]))
    );
}

#[test]
fn custom_scan_pollutes_its_properties() {
    let properties = vec![("a".to_string(), None), ("b".to_string(), Some("1".to_string()))];
    assert_eq!(
        Commands::Custom { properties: properties.clone() }.on_load_script(),
        Some(gen_polluting_script(&properties))
    );
}

#[test]
fn url_lines() {
    assert!(is_url_line("https://example.com"));
    assert!(is_url_line("  https://example.com  "));
    assert!(is_url_line("example.com # not a comment"));
    assert!(!is_url_line(""));
    assert!(!is_url_line("   "));
    assert!(!is_url_line("\t\r"));
    assert!(!is_url_line("# a comment"));
    assert!(!is_url_line("   # an indented comment"));
    assert!(!is_url_line("#"));
    assert!(!is_url_line("\u{a0}\u{3000}"));
    assert!(!is_url_line("\u{2003}#x"));
    assert!(is_url_line("\u{200b}"));
}

#[test]
fn url_line_rule_agrees_with_trimming() {
    for line in ["", " ", "a", " a", "#", " #", "a#", "\u{85}#", "\u{1680} x", "\u{feff}#", "\n"] {
        let expected = !line.trim().is_empty() && !line.trim_start().starts_with('#');
        assert_eq!(is_url_line(line), expected, "{:?}", line);
    }
}

#[test]
fn white_space_is_what_the_standard_library_takes_for_it() {
    for code in 0u32..0x3100 {
        if let Some(c) = char::from_u32(code) {
            assert_eq!(is_white_space_char(c), c.is_whitespace(), "U+{:04X}", code);
        }
    }
}
