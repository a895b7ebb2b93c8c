use gadget_finder::script::{gen_polluting_script, CustomProperty, POLLUTED_MARKER};
use gadget_finder::session::document_start_hook;

fn property(name: &str, value: Option<&str>) -> CustomProperty {
    (name.to_string(), value.map(|v| v.to_string()))
}

fn settings_of(script: &str) -> (&str, &str) {
    let marker_at = script.find("pollutedMarker: ").expect("the marker is set") + 16;
    let marker_end = script[marker_at..].find(",\n").expect("the marker ends") + marker_at;
    let list_at = script.find("propertiesToPollute: ").expect("the list is set") + 21;
    let list_end = script[list_at..].find(",\n};").expect("the list ends") + list_at;
    (&script[marker_at..marker_end], &script[list_at..list_end])
}

#[test]
fn script_for_one_marker_property() {
    let script = gen_polluting_script(&[property("foo", None)]);
    let expected = "
const __ghunter = {
  pollutedMarker: \"0xEFFACED\",
  propertiesToPollute: [[\"foo\",null]],
};

__ghunter.propertiesToPollute.forEach(([p, v], i) => {
  if (v !== null && v !== undefined) {
    Object.prototype[p] = v;
    return;
  }
  let accessIndex = 0;
  Object.defineProperty(
    Object.prototype,
    p,
    {
      get: function() {
        const returnValue = `${__ghunter.pollutedMarker}:${i}:${accessIndex}`;
        accessIndex += 1;

        try {
          throw new Error();
        } catch (error) {
          const stacktrace = error.stack;
          __ghunter_log(`PROTOTYPE_GET ${p.length} ${p} ${returnValue.length} ${returnValue} ${stacktrace.length} ${stacktrace}`);
        }

        return returnValue;
      },
      set: function(newValue) {
        Object.defineProperty(
          this,
          p,
          {
            value: newValue,
            writable: true,
            enumerable: true,
            configurable: true
          }
        );
      },
      enumerable: true,
      configurable: true
    }
  );
})";
    assert_eq!(script, expected);
}

#[test]
fn script_for_no_property_has_an_empty_list() {
    let script = gen_polluting_script(&[]);
    assert_eq!(settings_of(&script), ("\"0xEFFACED\"", "[]"));
}

#[test]
fn script_lists_values_and_markers() {
    let script =
        gen_polluting_script(&[property("a", Some("1")), property("b", None), property("c", Some(""))]);
    assert_eq!(settings_of(&script).1, "[[\"a\",\"1\"],[\"b\",null],[\"c\",\"\"]]");
}

#[test]
fn script_escapes_names_and_values_as_json() {
    let script = gen_polluting_script(&[property("a\"b\\c", Some("x\ny\t\u{1}\u{1f}\u{7f}\u{e9}"))]);
    assert_eq!(
        settings_of(&script).1,
        "[[\"a\\\"b\\\\c\",\"x\\ny\\t\\u0001\\u001f\u{7f}\u{e9}\"]]"
    );
}

#[test]
fn script_escapes_each_control_character() {
    let script = gen_polluting_script(&[property("\u{8}\u{c}\r\u{0}\u{b}\u{10}", None)]);
    assert_eq!(settings_of(&script).1, "[[\"\\b\\f\\r\\u0000\\u000b\\u0010\",null]]");
}

#[test]
fn script_list_is_what_the_json_library_writes_for_the_list() {
    let lists: Vec<Vec<CustomProperty>> = vec![
        vec![],
        vec![property("foo", None)],
        vec![property("", Some("")), property("x", None)],
        vec![property("quote\"", Some("back\\slash")), property("</script>", Some("`${x}`"))],
        vec![property("\u{0}\u{1}\u{1f} \u{7f}\u{80}\u{2028}", Some("\u{1f600}"))],
    ];
    for list in lists {
        let script = gen_polluting_script(&list);
        let expected = serde_json::to_string(&list).expect("a list of strings serialises");
        assert_eq!(settings_of(&script).1, expected);
        let parsed: Vec<(String, Option<String>)> =
            serde_json::from_str(settings_of(&script).1).expect("the list is JSON");
        assert_eq!(parsed, list);
    }
}

#[test]
fn script_cannot_be_left_through_a_name() {
    let script = gen_polluting_script(&[property("\"]]}; alert(1); //", None)]);
    assert_eq!(settings_of(&script).1, "[[\"\\\"]]}; alert(1); //\",null]]");
}

#[test]
fn marker_is_written_as_json() {
    let script = gen_polluting_script(&[]);
    assert_eq!(settings_of(&script).0, serde_json::to_string(POLLUTED_MARKER).unwrap());
}

#[test]
fn hook_logs_the_document_start() {
    assert_eq!(document_start_hook(), "__ghunter_log('DOCUMENT_LOAD');");
}
