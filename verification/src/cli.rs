//! What the command line asks for: which scan to run and which properties
//! to pollute.

use crate::script::{
    gen_polluting_script, polluting_script, property_view, property_views, CustomProperty,
    CustomPropertyView, POLLUTED_MARKER,
};
use crate::text::{copy_range, lemma_ascii_absent, lemma_split_at_ascii, text_of};
use vstd::prelude::*;
use vstd::string::*;
use vstd::utf8::*;

verus! {

/// The byte and the character that part a property's name from its value.
pub const EQUALS: u8 = 0x3D;

/// The scans.
#[derive(Debug, Clone, PartialEq, Eq)]
pub enum Commands {
    /// List the properties that the page reads and does not find.
    Undefined,
    /// Pollute the prototype with one property named like the taint marker,
    /// to find code that walks over all properties.
    Enumerable,
    /// Pollute the given properties.
    Custom { properties: Vec<CustomProperty> },
}

/// The index of the first `=` byte at or after `from`, or the length when
/// there is none.
pub open spec fn equals_at(s: Seq<u8>, from: int) -> int
    decreases s.len() - from,
{
    if from < 0 || from >= s.len() || s[from] == EQUALS {
        from
    } else {
        equals_at(s, from + 1)
    }
}

/// A `KEY[=VALUE]` argument parted at its first `=`: the name in front of
/// it and the value behind it, or the whole argument as the name when it
/// holds no `=`.
pub open spec fn parted(s: Seq<char>) -> CustomPropertyView {
    let bytes = encode_utf8(s);
    let at = equals_at(bytes, 0);
    if at < bytes.len() {
        (
            decode_utf8(bytes.subrange(0, at)),
            Some(decode_utf8(bytes.subrange(at + 1, bytes.len() as int))),
        )
    } else {
        (s, None)
    }
}

/// An argument is parted at its first `=`: the name holds none, and name,
/// `=` and value in a row are the argument. Without a `=` the argument is
/// the name.
pub proof fn law_parted_at_first_equals(s: Seq<char>)
    ensures
        match parted(s).1 {
            Some(value) => s == parted(s).0 + seq!['='] + value && !parted(s).0.contains('='),
            None => s == parted(s).0 && !s.contains('='),
        },
{
    let bytes = encode_utf8(s);
    let at = equals_at(bytes, 0);
    encode_utf8_valid_utf8(s);
    encode_utf8_decode_utf8(s);
    lemma_equals_at(bytes, 0);
    if at < bytes.len() {
        lemma_split_at_ascii(bytes, at);
        let name = bytes.subrange(0, at);
        assert forall|i: int| 0 <= i < name.len() implies name[i] != EQUALS by {
            assert(name[i] == bytes[i]);
        }
        lemma_ascii_absent(name, EQUALS);
    } else {
        lemma_ascii_absent(bytes, EQUALS);
    }
}

/// No `=` stands before the first one.
pub proof fn lemma_equals_at(s: Seq<u8>, from: int)
    requires
        0 <= from <= s.len(),
    ensures
        from <= equals_at(s, from) <= s.len(),
        equals_at(s, from) < s.len() ==> s[equals_at(s, from)] == EQUALS,
        forall|i: int| from <= i < equals_at(s, from) ==> #[trigger] s[i] != EQUALS,
    decreases s.len() - from,
{
    if from < s.len() && s[from] != EQUALS {
        lemma_equals_at(s, from + 1);
    }
}

impl Commands {
    /// Reads a `KEY[=VALUE]` argument. Every argument is accepted: without
    /// a `=` it names a property that gets a taint marker.
    pub fn parse_custom_property(s: &str) -> (r: Result<CustomProperty, String>)
        ensures
            r is Ok,
            property_view(r->Ok_0) == parted(s@),
    {
        let bytes = s.as_bytes();
        let mut at: usize = 0;
        while at < bytes.len() && bytes[at] != EQUALS
            invariant
                at <= bytes.len(),
                equals_at(bytes@, 0) == equals_at(bytes@, at as int),
            decreases bytes.len() - at,
        {
            at += 1;
        }
        if at == bytes.len() {
            return Ok((s.to_owned(), None));
        }
        proof {
            encode_utf8_valid_utf8(s@);
            lemma_split_at_ascii(bytes@, at as int);
        }
        let key = text_of(copy_range(bytes, 0, at));
        let value = text_of(copy_range(bytes, at + 1, bytes.len()));
        Ok((key, Some(value)))
    }

    /// The script to inject before the page's scripts run: none for the
    /// listing of undefined properties, which only watches; for the other
    /// scans the script that pollutes their properties.
    pub fn on_load_script(&self) -> (script: Option<String>)
        ensures
            match *self {
                Commands::Undefined => script is None,
                Commands::Enumerable => script is Some && script->Some_0@ == polluting_script(
                    seq![(POLLUTED_MARKER@, None::<Seq<char>>)],
                ),
                Commands::Custom { properties } => script is Some && script->Some_0@
                    == polluting_script(property_views(properties@)),
            },
    {
        match self {
            Commands::Undefined => None,
            Commands::Enumerable => {
                let mut properties: Vec<CustomProperty> = Vec::new();
                properties.push((String::from_str(POLLUTED_MARKER), None));
                assert(property_views(properties@) =~= seq![
                    (POLLUTED_MARKER@, None::<Seq<char>>),
                ]);
                Some(gen_polluting_script(properties.as_slice()))
            },
            Commands::Custom { properties } => Some(gen_polluting_script(properties.as_slice())),
        }
    }
}

// ----- the list of addresses -----
/// White space as Unicode defines it.
pub open spec fn is_white_space(c: char) -> bool {
    ||| '\u{09}' <= c <= '\u{0D}'
    ||| c == ' '
    ||| c == '\u{85}'
    ||| c == '\u{A0}'
    ||| c == '\u{1680}'
    ||| '\u{2000}' <= c <= '\u{200A}'
    ||| c == '\u{2028}'
    ||| c == '\u{2029}'
    ||| c == '\u{202F}'
    ||| c == '\u{205F}'
    ||| c == '\u{3000}'
}

/// The index of the first character at or after `from` that is no white
/// space, or the length when there is none.
pub open spec fn text_start(line: Seq<char>, from: int) -> int
    decreases line.len() - from,
{
    if from < 0 || from >= line.len() || !is_white_space(line[from]) {
        from
    } else {
        text_start(line, from + 1)
    }
}

/// Whether a line of a list of addresses names an address: it holds more
/// than white space, and what it holds does not start with `#`.
pub open spec fn names_url(line: Seq<char>) -> bool {
    let start = text_start(line, 0);
    start < line.len() && line[start] != '#'
}

/// Whether a character is white space.
pub fn is_white_space_char(c: char) -> (r: bool)
    ensures
        r == is_white_space(c),
{
    ('\u{09}' <= c && c <= '\u{0D}') || c == ' ' || c == '\u{85}' || c == '\u{A0}' || c
        == '\u{1680}' || ('\u{2000}' <= c && c <= '\u{200A}') || c == '\u{2028}' || c
        == '\u{2029}' || c == '\u{202F}' || c == '\u{205F}' || c == '\u{3000}'
}

/// Whether a line of a list of addresses names an address to visit. Blank
/// lines and lines that start with `#` name none.
pub fn is_url_line(line: &str) -> (r: bool)
    ensures
        r == names_url(line@),
{
    let count: usize = line.unicode_len();
    let mut i: usize = 0;
    while i < count
        invariant
            i <= count,
            count == line@.len(),
            text_start(line@, 0) == text_start(line@, i as int),
        decreases count - i,
    {
        let c: char = line.get_char(i);
        if !is_white_space_char(c) {
            return c != '#';
        }
        i += 1;
    }
    false
}

} // verus!
