//! The script that is injected into every frame before the page's own
//! scripts run. It pollutes `Object.prototype` with the given properties: a
//! property with a value gets that value; a property without one gets a
//! getter that hands out a fresh taint marker on every read and reports the
//! read, with its stack trace, to the engine's log.

use vstd::prelude::*;
use vstd::string::*;
use vstd::utf8::char_u32_cast;

verus! {

/// The tag that every taint marker starts with.
pub const POLLUTED_MARKER: &'static str = "0xEFFACED";

/// A property to pollute: its name, and its value if it is to have a fixed
/// one.
pub type CustomProperty = (String, Option<String>);

/// A property to pollute, with its text as characters.
pub type CustomPropertyView = (Seq<char>, Option<Seq<char>>);

pub const SCRIPT_HEAD: &'static str = r#"
const __ghunter = {
  pollutedMarker: "#;

pub const SCRIPT_MIDDLE: &'static str = r#",
  propertiesToPollute: "#;

pub const SCRIPT_TAIL: &'static str = r#",
};

__ghunter.propertiesToPollute.forEach(([p, v], i) => {
  if (v !== null && v !== undefined) {
    Object.prototype[p] = v;
    return;
  }
  let accessIndex = 0;
  Object.defineProperty(
    Object.prototype,
    p,
    {
      get: function() {
        const returnValue = `${__ghunter.pollutedMarker}:${i}:${accessIndex}`;
        accessIndex += 1;

        try {
          throw new Error();
        } catch (error) {
          const stacktrace = error.stack;
          __ghunter_log(`PROTOTYPE_GET ${p.length} ${p} ${returnValue.length} ${returnValue} ${stacktrace.length} ${stacktrace}`);
        }

        return returnValue;
      },
      set: function(newValue) {
        Object.defineProperty(
          this,
          p,
          {
            value: newValue,
            writable: true,
            enumerable: true,
            configurable: true
          }
        );
      },
      enumerable: true,
      configurable: true
    }
  );
})"#;

// ----- JSON -----
/// The lower-case hexadecimal digit for a number below sixteen.
pub open spec fn hex_digit(n: u32) -> char {
    if n < 10 {
        (0x30 + n) as char
    } else {
        (0x61 + n - 10) as char
    }
}

/// How one character stands inside a JSON string: the quote, the backslash
/// and the control characters below U+0020 are escaped, the five common
/// controls by their letter and the others as `\u00` and two hexadecimal
/// digits; every other character stands for itself.
pub open spec fn json_escaped(c: char) -> Seq<char> {
    if c == '"' {
        seq!['\\', '"']
    } else if c == '\\' {
        seq!['\\', '\\']
    } else if c == '\u{08}' {
        seq!['\\', 'b']
    } else if c == '\u{0C}' {
        seq!['\\', 'f']
    } else if c == '\n' {
        seq!['\\', 'n']
    } else if c == '\r' {
        seq!['\\', 'r']
    } else if c == '\t' {
        seq!['\\', 't']
    } else if (c as u32) < 0x20 {
        seq!['\\', 'u', '0', '0', hex_digit((c as u32) / 16), hex_digit((c as u32) % 16)]
    } else {
        seq![c]
    }
}

/// The characters of a text as they stand inside a JSON string.
pub open spec fn json_body(text: Seq<char>) -> Seq<char>
    decreases text.len(),
{
    if text.len() == 0 {
        Seq::empty()
    } else {
        json_escaped(text[0]) + json_body(text.drop_first())
    }
}

/// A text as a JSON string: its characters, escaped, between two quotes.
pub open spec fn json_string(text: Seq<char>) -> Seq<char> {
    seq!['"'] + json_body(text) + seq!['"']
}

/// A property as a JSON array of its name and its value, `null` standing
/// for no value.
pub open spec fn json_property(property: CustomPropertyView) -> Seq<char> {
    "["@ + json_string(property.0) + ","@ + match property.1 {
        Some(value) => json_string(value),
        None => "null"@,
    } + "]"@
}

/// The first `count` properties as JSON arrays with commas between them.
pub open spec fn json_items(properties: Seq<CustomPropertyView>, count: int) -> Seq<char>
    decreases count,
{
    if count <= 0 {
        Seq::empty()
    } else if count == 1 {
        json_property(properties[0])
    } else {
        json_items(properties, count - 1) + ","@ + json_property(properties[count - 1])
    }
}

/// The properties as a JSON array of arrays.
pub open spec fn json_properties(properties: Seq<CustomPropertyView>) -> Seq<char> {
    "["@ + json_items(properties, properties.len() as int) + "]"@
}

// ----- reading JSON back -----
/// The number that a lower-case hexadecimal digit stands for.
pub open spec fn hex_value(c: char) -> Option<u32> {
    if '0' <= c <= '9' {
        Some(((c as u32) - 0x30) as u32)
    } else if 'a' <= c <= 'f' {
        Some(((c as u32) - 0x61 + 10) as u32)
    } else {
        None
    }
}

/// The character that a letter behind a backslash stands for.
pub open spec fn json_escape_of(letter: char) -> Option<char> {
    if letter == '"' {
        Some('"')
    } else if letter == '\\' {
        Some('\\')
    } else if letter == 'b' {
        Some('\u{08}')
    } else if letter == 'f' {
        Some('\u{0C}')
    } else if letter == 'n' {
        Some('\n')
    } else if letter == 'r' {
        Some('\r')
    } else if letter == 't' {
        Some('\t')
    } else {
        None
    }
}

/// A character in front of a text that was read, if it was read.
pub open spec fn json_then(first: char, rest: Option<Seq<char>>) -> Option<Seq<char>> {
    match rest {
        Some(text) => Some(seq![first] + text),
        None => None,
    }
}

/// The text that the inside of a JSON string stands for, read the way a
/// JSON reader reads it: a backslash starts an escape, and a quote or a
/// control character that stands bare ends the reading, as does an escape
/// that `json_escaped` does not write.
pub open spec fn json_unescaped(body: Seq<char>) -> Option<Seq<char>>
    decreases body.len(),
{
    if body.len() == 0 {
        Some(Seq::empty())
    } else if body[0] == '"' || (body[0] as u32) < 0x20 {
        None
    } else if body[0] != '\\' {
        json_then(body[0], json_unescaped(body.skip(1)))
    } else if body.len() < 2 {
        None
    } else if json_escape_of(body[1]) is Some {
        json_then(json_escape_of(body[1])->Some_0, json_unescaped(body.skip(2)))
    } else if body[1] == 'u' && body.len() >= 6 && body[2] == '0' && body[3] == '0' && hex_value(
        body[4],
    ) is Some && hex_value(body[5]) is Some {
        json_then(
            ((hex_value(body[4])->Some_0 * 16 + hex_value(body[5])->Some_0) as u32) as char,
            json_unescaped(body.skip(6)),
        )
    } else {
        None
    }
}

/// A hexadecimal digit stands for the number it was written for.
proof fn lemma_hex_digit(n: u32)
    requires
        n < 16,
    ensures
        hex_value(hex_digit(n)) == Some(n),
{
    let c = hex_digit(n);
    if n < 10 {
        assert(c as u32 == 0x30 + n);
    } else {
        assert(c as u32 == 0x61 + n - 10);
    }
}

/// What stands inside a JSON string reads back as the text it was written
/// for: no character of the text ends the string or starts an escape of its
/// own making.
pub proof fn law_json_body_reads_back(text: Seq<char>)
    ensures
        json_unescaped(json_body(text)) == Some(text),
    decreases text.len(),
{
    if text.len() > 0 {
        let c = text[0];
        let rest = text.drop_first();
        let escaped = json_escaped(c);
        let tail = json_body(rest);
        let body = json_body(text);
        law_json_body_reads_back(rest);
        assert(body == escaped + tail);
        assert(body.skip(escaped.len() as int) =~= tail);
        assert(seq![c] + rest =~= text);
        if c == '"' || c == '\\' || c == '\u{08}' || c == '\u{0C}' || c == '\n' || c == '\r'
            || c == '\t' {
            assert(body[0] == '\\' && body[1] == escaped[1]);
            assert(json_escape_of(body[1]) == Some(c));
        } else if (c as u32) < 0x20 {
            let high = (c as u32) / 16;
            let low = (c as u32) % 16;
            lemma_hex_digit(high);
            lemma_hex_digit(low);
            assert(body[0] == '\\' && body[1] == 'u' && body[2] == '0' && body[3] == '0');
            assert(body[4] == hex_digit(high) && body[5] == hex_digit(low));
            assert(high * 16 + low == c as u32);
            char_u32_cast(c, (high * 16 + low) as u32);
        } else {
            assert(body[0] == c);
        }
    }
}

// ----- writing JSON -----
/// `serde_json::to_string` on a string slice gives the slice as a JSON
/// string: between two quotes, with `"`, `\` and the characters below
/// U+0020 escaped as `json_escaped` says and every other character kept.
/// Writing a string into memory has no failing path in serde_json.
#[verifier::external_body]
fn json_of_text(text: &str) -> (json: String)
    ensures
        json@ == json_string(text@),
{
    serde_json::to_string(text).unwrap_or_default()
}

// ----- the script -----
/// The view of a property.
pub open spec fn property_view(property: CustomProperty) -> CustomPropertyView {
    (
        property.0@,
        match property.1 {
            Some(value) => Some(value@),
            None => None,
        },
    )
}

/// The views of the properties.
pub open spec fn property_views(properties: Seq<CustomProperty>) -> Seq<CustomPropertyView> {
    properties.map_values(|p: CustomProperty| property_view(p))
}

/// The text of the script for the given properties: the fixed text, with
/// the marker and the properties put in as JSON, so that no character of a
/// name or a value is read as code.
pub open spec fn polluting_script(properties: Seq<CustomPropertyView>) -> Seq<char> {
    SCRIPT_HEAD@ + json_string(POLLUTED_MARKER@) + SCRIPT_MIDDLE@ + json_properties(properties)
        + SCRIPT_TAIL@
}

/// Writes one property as a JSON array behind `out`.
fn push_property(out: &mut String, property: &CustomProperty)
    ensures
        final(out)@ == old(out)@ + json_property(property_view(*property)),
{
    let ghost before = out@;
    out.append("[");
    let name = json_of_text(property.0.as_str());
    out.append(name.as_str());
    out.append(",");
    match &property.1 {
        Some(value) => {
            let value = json_of_text(value.as_str());
            out.append(value.as_str());
        },
        None => {
            out.append("null");
        },
    }
    out.append("]");
    assert(out@ =~= before + json_property(property_view(*property)));
}

/// Generates the script that pollutes the given properties in the object
/// prototype, to be run at the start of each frame.
pub fn gen_polluting_script(properties_to_pollute: &[CustomProperty]) -> (script: String)
    ensures
        script@ == polluting_script(property_views(properties_to_pollute@)),
{
    let ghost properties = property_views(properties_to_pollute@);
    let mut script = String::from_str(SCRIPT_HEAD);
    let marker = json_of_text(POLLUTED_MARKER);
    script.append(marker.as_str());
    script.append(SCRIPT_MIDDLE);
    script.append("[");
    let ghost before = script@;
    let mut i: usize = 0;
    while i < properties_to_pollute.len()
        invariant
            i <= properties_to_pollute.len(),
            properties == property_views(properties_to_pollute@),
            script@ == before + json_items(properties, i as int),
        decreases properties_to_pollute.len() - i,
    {
        let ghost so_far = script@;
        if i > 0 {
            script.append(",");
        }
        push_property(&mut script, &properties_to_pollute[i]);
        assert(properties[i as int] == property_view(properties_to_pollute@[i as int]));
        assert(script@ =~= before + json_items(properties, i + 1));
        i += 1;
    }
    script.append("]");
    script.append(SCRIPT_TAIL);
    assert(script@ =~= polluting_script(properties));
    script
}

} // verus!
