//! How the engine writes a trace, and the proof that the decoder reads back
//! what was written.

use crate::log_format::{
    decode, decode_from, lemma_token_stops_at, next_record,
    record_at, sized_field, sized_fields, text_token, token_at, unsigned_digits, Event, LogError,
    PropertySource,
    RECORD_START, SUBTAG_DOCUMENT_LOAD, SUBTAG_PROTOTYPE_GET, TAG_FRAME_LOCATION, TAG_FROM_JS,
    TAG_GET_NOT_FOUND, TAG_LOAD_NOT_FOUND, TAG_SET_PROTOTYPE, TAG_SET_TAINTED, TAG_STORE,
    TAG_STRING_TAINTED,
};
use crate::text::{all_digits, digits_value, is_digit, is_space, lemma_digits_are_text};
use vstd::prelude::*;
use vstd::utf8::*;

verus! {

/// Whether a text holds no ASCII whitespace, so that it can travel as a
/// token.
pub open spec fn is_plain(text: Seq<char>) -> bool {
    forall|i: int| 0 <= i < encode_utf8(text).len() ==> !is_space(#[trigger] encode_utf8(text)[i])
}

/// A text of ASCII characters none of which is whitespace is plain.
pub proof fn lemma_ascii_is_plain(text: Seq<char>)
    requires
        forall|i: int|
            0 <= i < text.len() ==> '!' <= (#[trigger] text[i]) <= '~',
    ensures
        is_plain(text),
{
    assert(is_ascii_chars(text));
    is_ascii_chars_encode_utf8(text);
    assert forall|i: int| 0 <= i < encode_utf8(text).len() implies !is_space(
        #[trigger] encode_utf8(text)[i],
    ) by {
        assert(text[i] as u8 == encode_utf8(text)[i]);
    }
}

/// The tags and kinds of the format are plain.
pub proof fn lemma_tags_are_plain()
    ensures
        is_plain(TAG_LOAD_NOT_FOUND@),
        is_plain(TAG_GET_NOT_FOUND@),
        is_plain(TAG_STORE@),
        is_plain(TAG_SET_TAINTED@),
        is_plain(TAG_FRAME_LOCATION@),
        is_plain(TAG_SET_PROTOTYPE@),
        is_plain(TAG_FROM_JS@),
        is_plain(TAG_STRING_TAINTED@),
        is_plain(SUBTAG_DOCUMENT_LOAD@),
        is_plain(SUBTAG_PROTOTYPE_GET@),
{
    reveal_strlit("LoadIC::Load_NOT_FOUND]");
    reveal_strlit("Runtime::GetObjectProperty_NOT_FOUND]");
    reveal_strlit("StoreIC::Store]");
    reveal_strlit("Runtime::SetObjectProperty_TAINTED]");
    reveal_strlit("LogFrameLocation]");
    reveal_strlit("Runtime::SetObjectProperty_PROTOTYPE]");
    reveal_strlit("From_JS]");
    reveal_strlit("LogIfStringTainted]");
    reveal_strlit("DOCUMENT_LOAD");
    reveal_strlit("PROTOTYPE_GET");
    lemma_ascii_is_plain(TAG_LOAD_NOT_FOUND@);
    lemma_ascii_is_plain(TAG_GET_NOT_FOUND@);
    lemma_ascii_is_plain(TAG_STORE@);
    lemma_ascii_is_plain(TAG_SET_TAINTED@);
    lemma_ascii_is_plain(TAG_FRAME_LOCATION@);
    lemma_ascii_is_plain(TAG_SET_PROTOTYPE@);
    lemma_ascii_is_plain(TAG_FROM_JS@);
    lemma_ascii_is_plain(TAG_STRING_TAINTED@);
    lemma_ascii_is_plain(SUBTAG_DOCUMENT_LOAD@);
    lemma_ascii_is_plain(SUBTAG_PROTOTYPE_GET@);
}

/// No two tags of the format are alike, and neither are the two kinds.
pub proof fn lemma_tags_differ()
    ensures
        TAG_LOAD_NOT_FOUND@ != TAG_GET_NOT_FOUND@,
        TAG_LOAD_NOT_FOUND@ != TAG_STORE@,
        TAG_LOAD_NOT_FOUND@ != TAG_SET_TAINTED@,
        TAG_LOAD_NOT_FOUND@ != TAG_FRAME_LOCATION@,
        TAG_LOAD_NOT_FOUND@ != TAG_SET_PROTOTYPE@,
        TAG_LOAD_NOT_FOUND@ != TAG_FROM_JS@,
        TAG_LOAD_NOT_FOUND@ != TAG_STRING_TAINTED@,
        TAG_GET_NOT_FOUND@ != TAG_STORE@,
        TAG_GET_NOT_FOUND@ != TAG_SET_TAINTED@,
        TAG_GET_NOT_FOUND@ != TAG_FRAME_LOCATION@,
        TAG_GET_NOT_FOUND@ != TAG_SET_PROTOTYPE@,
        TAG_GET_NOT_FOUND@ != TAG_FROM_JS@,
        TAG_GET_NOT_FOUND@ != TAG_STRING_TAINTED@,
        TAG_STORE@ != TAG_SET_TAINTED@,
        TAG_STORE@ != TAG_FRAME_LOCATION@,
        TAG_STORE@ != TAG_SET_PROTOTYPE@,
        TAG_STORE@ != TAG_FROM_JS@,
        TAG_STORE@ != TAG_STRING_TAINTED@,
        TAG_SET_TAINTED@ != TAG_FRAME_LOCATION@,
        TAG_SET_TAINTED@ != TAG_SET_PROTOTYPE@,
        TAG_SET_TAINTED@ != TAG_FROM_JS@,
        TAG_SET_TAINTED@ != TAG_STRING_TAINTED@,
        TAG_FRAME_LOCATION@ != TAG_SET_PROTOTYPE@,
        TAG_FRAME_LOCATION@ != TAG_FROM_JS@,
        TAG_FRAME_LOCATION@ != TAG_STRING_TAINTED@,
        TAG_SET_PROTOTYPE@ != TAG_FROM_JS@,
        TAG_SET_PROTOTYPE@ != TAG_STRING_TAINTED@,
        TAG_FROM_JS@ != TAG_STRING_TAINTED@,
        SUBTAG_DOCUMENT_LOAD@ != SUBTAG_PROTOTYPE_GET@,
{
    reveal_strlit("LoadIC::Load_NOT_FOUND]");
    reveal_strlit("Runtime::GetObjectProperty_NOT_FOUND]");
    reveal_strlit("StoreIC::Store]");
    reveal_strlit("Runtime::SetObjectProperty_TAINTED]");
    reveal_strlit("LogFrameLocation]");
    reveal_strlit("Runtime::SetObjectProperty_PROTOTYPE]");
    reveal_strlit("From_JS]");
    reveal_strlit("LogIfStringTainted]");
    reveal_strlit("DOCUMENT_LOAD");
    reveal_strlit("PROTOTYPE_GET");
    assert(TAG_LOAD_NOT_FOUND@.len() == 23);
    assert(TAG_GET_NOT_FOUND@.len() == 37);
    assert(TAG_STORE@.len() == 15);
    assert(TAG_SET_TAINTED@.len() == 35);
    assert(TAG_FRAME_LOCATION@.len() == 17);
    assert(TAG_SET_PROTOTYPE@.len() == 37);
    assert(TAG_FROM_JS@.len() == 8);
    assert(TAG_STRING_TAINTED@.len() == 19);
    assert(TAG_GET_NOT_FOUND@[9] != TAG_SET_PROTOTYPE@[9]);
    assert(SUBTAG_DOCUMENT_LOAD@[0] != SUBTAG_PROTOTYPE_GET@[0]);
}

// ----- what is written -----
/// The byte that the writer puts behind a token, a size and a field.
pub const SPACE: u8 = 0x20;

/// A number in decimal digits.
pub open spec fn written_size(n: nat) -> Seq<u8>
    decreases n,
{
    if n < 10 {
        seq![(0x30 + n) as u8]
    } else {
        written_size(n / 10).push((0x30 + n % 10) as u8)
    }
}

/// A text as a token: its bytes and a space.
pub open spec fn written_token(text: Seq<char>) -> Seq<u8> {
    encode_utf8(text) + seq![SPACE]
}

/// A text as a sized field: the number of its bytes, a space, the bytes,
/// and a space.
pub open spec fn written_field(text: Seq<char>) -> Seq<u8> {
    written_size(encode_utf8(text).len()) + seq![SPACE] + encode_utf8(text) + seq![SPACE]
}

/// Texts as sized fields in a row.
pub open spec fn written_fields(texts: Seq<Seq<char>>) -> Seq<u8>
    decreases texts.len(),
{
    if texts.len() == 0 {
        Seq::empty()
    } else {
        written_field(texts[0]) + written_fields(texts.drop_first())
    }
}

/// What follows the `[` of an event's record: the tag, for two kinds of
/// event a second token, and the fields.
pub open spec fn written_body(event: Event) -> Seq<u8> {
    match event {
        Event::UndefinedProperty { name, source, stack_trace } => written_token(
            match source {
                PropertySource::InlineCache => TAG_LOAD_NOT_FOUND@,
                PropertySource::RuntimeObject => TAG_GET_NOT_FOUND@,
            },
        ) + written_fields(seq![name, stack_trace]),
        Event::AssignTaintedKey { class_name, key, value, source, stack_trace } => written_token(
            match source {
                PropertySource::InlineCache => TAG_STORE@,
                PropertySource::RuntimeObject => TAG_SET_TAINTED@,
            },
        ) + written_fields(seq![class_name, key, value, stack_trace]),
        Event::Location { url } => written_token(TAG_FRAME_LOCATION@) + written_fields(seq![url]),
        Event::Polluted { key, value, stack_trace } => written_token(TAG_SET_PROTOTYPE@)
            + written_fields(seq![key, value, stack_trace]),
        Event::PrototypeGet { key, value, stack_trace } => written_token(TAG_FROM_JS@)
            + written_token(SUBTAG_PROTOTYPE_GET@) + written_fields(seq![key, value, stack_trace]),
        Event::SinkReached { sink_type, value, stack_trace } => written_token(TAG_STRING_TAINTED@)
            + written_token(sink_type) + written_fields(seq![value, stack_trace]),
        Event::DocumentStart => written_token(TAG_FROM_JS@) + written_token(
            SUBTAG_DOCUMENT_LOAD@,
        ),
    }
}

/// An event as a record.
pub open spec fn written_event(event: Event) -> Seq<u8> {
    seq![RECORD_START] + written_body(event)
}

/// Events as records in a row.
pub open spec fn written_trace(events: Seq<Event>) -> Seq<u8>
    decreases events.len(),
{
    if events.len() == 0 {
        Seq::empty()
    } else {
        written_event(events[0]) + written_trace(events.drop_first())
    }
}

/// Whether a text is short enough for its size to be read back: the number
/// of its bytes fits the machine word.
pub open spec fn fits(text: Seq<char>) -> bool {
    encode_utf8(text).len() <= usize::MAX
}

/// Whether an event can be written so that it reads back: each text fits,
/// and the type of a sink is plain.
pub open spec fn is_writable(event: Event) -> bool {
    match event {
        Event::UndefinedProperty { name, stack_trace, .. } => fits(name) && fits(stack_trace),
        Event::AssignTaintedKey { class_name, key, value, stack_trace, .. } => fits(class_name)
            && fits(key) && fits(value) && fits(stack_trace),
        Event::Location { url } => fits(url),
        Event::Polluted { key, value, stack_trace } => fits(key) && fits(value) && fits(
            stack_trace,
        ),
        Event::PrototypeGet { key, value, stack_trace } => fits(key) && fits(value) && fits(
            stack_trace,
        ),
        Event::SinkReached { sink_type, value, stack_trace } => is_plain(sink_type) && fits(value)
            && fits(stack_trace),
        Event::DocumentStart => true,
    }
}

// ----- reading it back -----
/// Whether `piece` stands in `input` at index `at`.
pub open spec fn stands_at(input: Seq<u8>, at: int, piece: Seq<u8>) -> bool {
    0 <= at && at + piece.len() <= input.len() && input.subrange(at, at + piece.len()) == piece
}

/// Where two pieces in a row stand, each of them stands.
pub proof fn lemma_stands_at_parts(input: Seq<u8>, at: int, a: Seq<u8>, b: Seq<u8>)
    requires
        stands_at(input, at, a + b),
    ensures
        stands_at(input, at, a),
        stands_at(input, at + a.len(), b),
{
    let whole = input.subrange(at, at + (a + b).len());
    assert(input.subrange(at, at + a.len()) =~= whole.subrange(0, a.len() as int));
    assert(whole.subrange(0, a.len() as int) =~= a);
    assert(input.subrange(at + a.len(), at + a.len() + b.len()) =~= whole.subrange(
        a.len() as int,
        (a + b).len() as int,
    ));
    assert(whole.subrange(a.len() as int, (a + b).len() as int) =~= b);
}

/// The byte of a piece that stands in the input is the byte of the input.
pub proof fn lemma_stands_at_byte(input: Seq<u8>, at: int, piece: Seq<u8>, i: int)
    requires
        stands_at(input, at, piece),
        0 <= i < piece.len(),
    ensures
        input[at + i] == piece[i],
{
    assert(input.subrange(at, at + piece.len())[i] == input[at + i]);
}

/// A written number is one or more digits that write the number.
pub proof fn lemma_written_size(n: nat)
    ensures
        written_size(n).len() > 0,
        all_digits(written_size(n)),
        digits_value(written_size(n)) == n,
    decreases n,
{
    if n < 10 {
        let digits = written_size(n);
        assert(digits.drop_last() =~= Seq::<u8>::empty());
        assert(digits_value(digits.drop_last()) == 0);
    } else {
        lemma_written_size(n / 10);
        let shorter = written_size(n / 10);
        let digits = written_size(n);
        assert(digits.drop_last() =~= shorter);
        assert forall|i: int| 0 <= i < digits.len() implies is_digit(#[trigger] digits[i]) by {
            if i < shorter.len() {
                assert(digits[i] == shorter[i]);
            }
        }
    }
}

/// A plain text that was written as a token reads back as the text.
pub proof fn lemma_token_reads_back(input: Seq<u8>, at: int, text: Seq<char>)
    requires
        stands_at(input, at, written_token(text)),
        is_plain(text),
    ensures
        text_token(input, at) == Ok::<(Seq<char>, int), LogError>(
            (text, at + written_token(text).len()),
        ),
{
    let bytes = encode_utf8(text);
    let stop = at + bytes.len();
    assert forall|i: int| at <= i < stop implies !is_space(#[trigger] input[i]) by {
        lemma_stands_at_byte(input, at, written_token(text), i - at);
        assert(written_token(text)[i - at] == bytes[i - at]);
    }
    lemma_stands_at_byte(input, at, written_token(text), bytes.len() as int);
    lemma_token_stops_at(input, at, stop);
    lemma_stands_at_parts(input, at, bytes, seq![SPACE]);
    assert(token_at(input, at) == bytes);
    encode_utf8_valid_utf8(text);
    encode_utf8_decode_utf8(text);
}

/// A field reads back as the text that was written: digits that write the
/// number of the text's bytes, one whitespace byte, the bytes, and then
/// whatever follows, the first byte of which is dropped as the separator.
pub proof fn law_written_field_reads_back(
    before: Seq<u8>,
    digits: Seq<u8>,
    space: u8,
    text: Seq<char>,
    after: Seq<u8>,
)
    requires
        digits.len() > 0,
        all_digits(digits),
        digits_value(digits) == encode_utf8(text).len(),
        encode_utf8(text).len() <= usize::MAX,
        is_space(space),
    ensures
        ({
            let input = before + digits + seq![space] + encode_utf8(text) + after;
            let end = (before.len() + digits.len() + 1 + encode_utf8(text).len()) as int;
            sized_field(input, before.len() as int) == Ok::<(Seq<char>, int), LogError>(
                (
                    text,
                    if after.len() > 0 {
                        end + 1
                    } else {
                        end
                    },
                ),
            )
        }),
{
    let payload = encode_utf8(text);
    let input = before + digits + seq![space] + payload + after;
    let from = before.len() as int;
    let stop = from + digits.len();
    assert forall|i: int| from <= i < stop implies !is_space(#[trigger] input[i]) by {
        assert(input[i] == digits[i - from]);
        assert(is_digit(digits[i - from]));
    }
    assert(input[stop] == space);
    lemma_token_stops_at(input, from, stop);
    assert(token_at(input, from) =~= digits);
    lemma_digits_are_text(digits);
    assert(unsigned_digits(digits) == digits) by {
        assert(is_digit(digits[0]));
    }
    assert(input.subrange(stop + 1, stop + 1 + payload.len()) =~= payload);
    encode_utf8_valid_utf8(text);
    encode_utf8_decode_utf8(text);
}

/// A text that was written as a sized field reads back as the text,
/// whatever bytes it holds.
pub proof fn lemma_field_reads_back(input: Seq<u8>, at: int, text: Seq<char>)
    requires
        stands_at(input, at, written_field(text)),
        fits(text),
    ensures
        sized_field(input, at) == Ok::<(Seq<char>, int), LogError>(
            (text, at + written_field(text).len()),
        ),
{
    let bytes = encode_utf8(text);
    let digits = written_size(bytes.len());
    lemma_written_size(bytes.len());
    let before = input.subrange(0, at);
    let end = at + written_field(text).len();
    let after = seq![SPACE] + input.subrange(end, input.len() as int);
    assert(input =~= before + digits + seq![SPACE] + bytes + after) by {
        assert(input =~= before + input.subrange(at, end) + input.subrange(end, input.len() as int));
    }
    law_written_field_reads_back(before, digits, SPACE, text, after);
}

/// Texts that were written as sized fields in a row read back as the texts.
pub proof fn lemma_fields_read_back(input: Seq<u8>, at: int, texts: Seq<Seq<char>>)
    requires
        stands_at(input, at, written_fields(texts)),
        forall|i: int| 0 <= i < texts.len() ==> fits(#[trigger] texts[i]),
    ensures
        sized_fields(input, at, texts.len()) == Ok::<(Seq<Seq<char>>, int), LogError>(
            (texts, at + written_fields(texts).len()),
        ),
    decreases texts.len(),
{
    if texts.len() == 0 {
        assert(texts =~= Seq::<Seq<char>>::empty());
    } else {
        let first = written_field(texts[0]);
        let rest = texts.drop_first();
        lemma_stands_at_parts(input, at, first, written_fields(rest));
        lemma_field_reads_back(input, at, texts[0]);
        assert forall|i: int| 0 <= i < rest.len() implies fits(#[trigger] rest[i]) by {
            assert(rest[i] == texts[i + 1]);
        }
        lemma_fields_read_back(input, at + first.len(), rest);
        assert(seq![texts[0]] + rest =~= texts);
    }
}

/// A tag and fields that were written in a row read back as the tag and
/// the fields.
proof fn lemma_tagged_fields_read_back(
    input: Seq<u8>,
    at: int,
    tag: Seq<char>,
    texts: Seq<Seq<char>>,
)
    requires
        stands_at(input, at, written_token(tag) + written_fields(texts)),
        is_plain(tag),
        forall|i: int| 0 <= i < texts.len() ==> fits(#[trigger] texts[i]),
    ensures
        text_token(input, at) == Ok::<(Seq<char>, int), LogError>(
            (tag, at + written_token(tag).len()),
        ),
        sized_fields(input, at + written_token(tag).len(), texts.len()) == Ok::<
            (Seq<Seq<char>>, int),
            LogError,
        >((texts, at + written_token(tag).len() + written_fields(texts).len())),
{
    lemma_stands_at_parts(input, at, written_token(tag), written_fields(texts));
    lemma_token_reads_back(input, at, tag);
    lemma_fields_read_back(input, at + written_token(tag).len(), texts);
}

/// A tag, a second token and fields that were written in a row read back
/// as what they are.
proof fn lemma_two_tokens_and_fields_read_back(
    input: Seq<u8>,
    at: int,
    tag: Seq<char>,
    kind: Seq<char>,
    texts: Seq<Seq<char>>,
)
    requires
        stands_at(input, at, written_token(tag) + written_token(kind) + written_fields(texts)),
        is_plain(tag),
        is_plain(kind),
        forall|i: int| 0 <= i < texts.len() ==> fits(#[trigger] texts[i]),
    ensures
        text_token(input, at) == Ok::<(Seq<char>, int), LogError>(
            (tag, at + written_token(tag).len()),
        ),
        text_token(input, at + written_token(tag).len()) == Ok::<(Seq<char>, int), LogError>(
            (kind, at + written_token(tag).len() + written_token(kind).len()),
        ),
        sized_fields(
            input,
            at + written_token(tag).len() + written_token(kind).len(),
            texts.len(),
        ) == Ok::<(Seq<Seq<char>>, int), LogError>(
            (
                texts,
                at + written_token(tag).len() + written_token(kind).len() + written_fields(
                    texts,
                ).len(),
            ),
        ),
{
    lemma_stands_at_parts(
        input,
        at,
        written_token(tag) + written_token(kind),
        written_fields(texts),
    );
    lemma_stands_at_parts(input, at, written_token(tag), written_token(kind));
    lemma_token_reads_back(input, at, tag);
    lemma_token_reads_back(input, at + written_token(tag).len(), kind);
    lemma_fields_read_back(
        input,
        at + written_token(tag).len() + written_token(kind).len(),
        texts,
    );
}

/// The record of a read of a missing property reads back.
proof fn lemma_undefined_property_reads_back(
    input: Seq<u8>,
    at: int,
    name: Seq<char>,
    source: PropertySource,
    stack_trace: Seq<char>,
)
    requires
        stands_at(
            input,
            at,
            written_body(Event::UndefinedProperty { name, source, stack_trace }),
        ),
        fits(name),
        fits(stack_trace),
    ensures
        record_at(input, at) == Ok::<(Option<Event>, int), LogError>(
            (
                Some(Event::UndefinedProperty { name, source, stack_trace }),
                at + written_body(Event::UndefinedProperty { name, source, stack_trace }).len(),
            ),
        ),
{
    lemma_tags_are_plain();
    lemma_tags_differ();
    let tag = match source {
        PropertySource::InlineCache => TAG_LOAD_NOT_FOUND@,
        PropertySource::RuntimeObject => TAG_GET_NOT_FOUND@,
    };
    lemma_tagged_fields_read_back(input, at, tag, seq![name, stack_trace]);
}

/// The record of an assignment under a tainted key reads back.
proof fn lemma_assign_tainted_key_reads_back(
    input: Seq<u8>,
    at: int,
    class_name: Seq<char>,
    key: Seq<char>,
    value: Seq<char>,
    source: PropertySource,
    stack_trace: Seq<char>,
)
    requires
        stands_at(
            input,
            at,
            written_body(Event::AssignTaintedKey { class_name, key, value, source, stack_trace }),
        ),
        fits(class_name),
        fits(key),
        fits(value),
        fits(stack_trace),
    ensures
        record_at(input, at) == Ok::<(Option<Event>, int), LogError>(
            (
                Some(Event::AssignTaintedKey { class_name, key, value, source, stack_trace }),
                at + written_body(
                    Event::AssignTaintedKey { class_name, key, value, source, stack_trace },
                ).len(),
            ),
        ),
{
    lemma_tags_are_plain();
    lemma_tags_differ();
    let tag = match source {
        PropertySource::InlineCache => TAG_STORE@,
        PropertySource::RuntimeObject => TAG_SET_TAINTED@,
    };
    lemma_tagged_fields_read_back(input, at, tag, seq![class_name, key, value, stack_trace]);
}

/// The record of a frame's address reads back.
proof fn lemma_location_reads_back(input: Seq<u8>, at: int, url: Seq<char>)
    requires
        stands_at(input, at, written_body(Event::Location { url })),
        fits(url),
    ensures
        record_at(input, at) == Ok::<(Option<Event>, int), LogError>(
            (Some(Event::Location { url }), at + written_body(Event::Location { url }).len()),
        ),
{
    lemma_tags_are_plain();
    lemma_tags_differ();
    lemma_tagged_fields_read_back(input, at, TAG_FRAME_LOCATION@, seq![url]);
}

/// The record of a write that reached a prototype reads back.
proof fn lemma_polluted_reads_back(
    input: Seq<u8>,
    at: int,
    key: Seq<char>,
    value: Seq<char>,
    stack_trace: Seq<char>,
)
    requires
        stands_at(input, at, written_body(Event::Polluted { key, value, stack_trace })),
        fits(key),
        fits(value),
        fits(stack_trace),
    ensures
        record_at(input, at) == Ok::<(Option<Event>, int), LogError>(
            (
                Some(Event::Polluted { key, value, stack_trace }),
                at + written_body(Event::Polluted { key, value, stack_trace }).len(),
            ),
        ),
{
    lemma_tags_are_plain();
    lemma_tags_differ();
    lemma_tagged_fields_read_back(input, at, TAG_SET_PROTOTYPE@, seq![key, value, stack_trace]);
}

/// The record of a read through an injected getter reads back.
proof fn lemma_prototype_get_reads_back(
    input: Seq<u8>,
    at: int,
    key: Seq<char>,
    value: Seq<char>,
    stack_trace: Seq<char>,
)
    requires
        stands_at(input, at, written_body(Event::PrototypeGet { key, value, stack_trace })),
        fits(key),
        fits(value),
        fits(stack_trace),
    ensures
        record_at(input, at) == Ok::<(Option<Event>, int), LogError>(
            (
                Some(Event::PrototypeGet { key, value, stack_trace }),
                at + written_body(Event::PrototypeGet { key, value, stack_trace }).len(),
            ),
        ),
{
    lemma_tags_are_plain();
    lemma_tags_differ();
    lemma_two_tokens_and_fields_read_back(
        input,
        at,
        TAG_FROM_JS@,
        SUBTAG_PROTOTYPE_GET@,
        seq![key, value, stack_trace],
    );
}

/// The record of a sink that was reached reads back.
proof fn lemma_sink_reached_reads_back(
    input: Seq<u8>,
    at: int,
    sink_type: Seq<char>,
    value: Seq<char>,
    stack_trace: Seq<char>,
)
    requires
        stands_at(input, at, written_body(Event::SinkReached { sink_type, value, stack_trace })),
        is_plain(sink_type),
        fits(value),
        fits(stack_trace),
    ensures
        record_at(input, at) == Ok::<(Option<Event>, int), LogError>(
            (
                Some(Event::SinkReached { sink_type, value, stack_trace }),
                at + written_body(Event::SinkReached { sink_type, value, stack_trace }).len(),
            ),
        ),
{
    lemma_tags_are_plain();
    lemma_tags_differ();
    lemma_two_tokens_and_fields_read_back(
        input,
        at,
        TAG_STRING_TAINTED@,
        sink_type,
        seq![value, stack_trace],
    );
}

/// The record of a document's start reads back.
proof fn lemma_document_start_reads_back(input: Seq<u8>, at: int)
    requires
        stands_at(input, at, written_body(Event::DocumentStart)),
    ensures
        record_at(input, at) == Ok::<(Option<Event>, int), LogError>(
            (Some(Event::DocumentStart), at + written_body(Event::DocumentStart).len()),
        ),
{
    lemma_tags_are_plain();
    lemma_tags_differ();
    lemma_stands_at_parts(
        input,
        at,
        written_token(TAG_FROM_JS@),
        written_token(SUBTAG_DOCUMENT_LOAD@),
    );
    lemma_token_reads_back(input, at, TAG_FROM_JS@);
    lemma_token_reads_back(input, at + written_token(TAG_FROM_JS@).len(), SUBTAG_DOCUMENT_LOAD@);
}

/// The record of an event reads back as the event, wherever it stands and
/// whatever its texts hold: `at` is the place behind the record's `[`.
pub proof fn law_written_event_reads_back(input: Seq<u8>, at: int, event: Event)
    requires
        stands_at(input, at, written_body(event)),
        is_writable(event),
    ensures
        record_at(input, at) == Ok::<(Option<Event>, int), LogError>(
            (Some(event), at + written_body(event).len()),
        ),
{
    match event {
        Event::UndefinedProperty { name, source, stack_trace } => {
            lemma_undefined_property_reads_back(input, at, name, source, stack_trace);
        },
        Event::AssignTaintedKey { class_name, key, value, source, stack_trace } => {
            lemma_assign_tainted_key_reads_back(
                input,
                at,
                class_name,
                key,
                value,
                source,
                stack_trace,
            );
        },
        Event::Location { url } => {
            lemma_location_reads_back(input, at, url);
        },
        Event::Polluted { key, value, stack_trace } => {
            lemma_polluted_reads_back(input, at, key, value, stack_trace);
        },
        Event::PrototypeGet { key, value, stack_trace } => {
            lemma_prototype_get_reads_back(input, at, key, value, stack_trace);
        },
        Event::SinkReached { sink_type, value, stack_trace } => {
            lemma_sink_reached_reads_back(input, at, sink_type, value, stack_trace);
        },
        Event::DocumentStart => {
            lemma_document_start_reads_back(input, at);
        },
    }
}

/// Records that stand in a row up to the end of the input decode to their
/// events.
proof fn lemma_written_records_read_back(input: Seq<u8>, at: int, events: Seq<Event>)
    requires
        stands_at(input, at, written_trace(events)),
        at + written_trace(events).len() == input.len(),
        forall|i: int| 0 <= i < events.len() ==> is_writable(#[trigger] events[i]),
    ensures
        decode_from(input, at) == Ok::<Seq<Event>, LogError>(events),
    decreases events.len(),
{
    if events.len() == 0 {
        assert(events =~= Seq::<Event>::empty());
    } else {
        let first = events[0];
        let rest = events.drop_first();
        let record = written_event(first);
        lemma_stands_at_parts(input, at, record, written_trace(rest));
        lemma_stands_at_parts(input, at, seq![RECORD_START], written_body(first));
        lemma_stands_at_byte(input, at, seq![RECORD_START], 0);
        assert(next_record(input, at) == at);
        law_written_event_reads_back(input, at + 1, first);
        assert forall|i: int| 0 <= i < rest.len() implies is_writable(#[trigger] rest[i]) by {
            assert(rest[i] == events[i + 1]);
        }
        lemma_written_records_read_back(input, at + record.len(), rest);
        assert(seq![first] + rest =~= events);
    }
}

/// A trace that was written reads back as the events that were written:
/// each event of each kind, with every text as it was, whitespace, line
/// feeds and `[` among its bytes or not.
pub proof fn law_written_trace_reads_back(events: Seq<Event>)
    requires
        forall|i: int| 0 <= i < events.len() ==> is_writable(#[trigger] events[i]),
    ensures
        decode(written_trace(events)) == Ok::<Seq<Event>, LogError>(events),
{
    let input = written_trace(events);
    assert(input.subrange(0, input.len() as int) =~= input);
    lemma_written_records_read_back(input, 0, events);
}

} // verus!
