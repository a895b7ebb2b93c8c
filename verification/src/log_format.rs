//! The trace format, as a mathematical function from bytes to events.
//!
//! A trace is a stream of records. A record starts at a `[` byte; the bytes
//! up to the next whitespace are its tag, and the tag fixes which fields
//! follow. Everything outside a record is ignored. Text travels either as a
//! token (bytes up to the next whitespace) or as a sized field (a decimal
//! length, one whitespace byte, that many raw bytes, one separator byte).

use crate::text::{all_digits, digits_value, is_space};
use vstd::prelude::*;
use vstd::string::*;
use vstd::utf8::*;

verus! {

/// Where the engine noticed a property access.
#[derive(Debug, Clone, Copy, PartialEq, Eq, Structural)]
pub enum PropertySource {
    InlineCache,
    RuntimeObject,
}

/// Why a trace could not be decoded.
#[derive(Debug, Clone, Copy, PartialEq, Eq, Structural)]
pub enum LogError {
    /// The stream ended inside a field whose size prefix promised more bytes.
    Truncated,
    /// A tag, a token or a field is not well-formed UTF-8.
    Utf8,
    /// A size prefix is not a decimal number that fits the machine word.
    IntParse,
}

impl LogError {
    /// What the error says in words.
    pub open spec fn spec_message(self) -> Seq<char> {
        match self {
            LogError::Truncated => "the trace ends inside a field"@,
            LogError::Utf8 => "the trace holds text that is not valid UTF-8"@,
            LogError::IntParse => "a size prefix of the trace is not a number"@,
        }
    }

    /// Says in words why the trace could not be decoded.
    pub fn message(&self) -> (text: String)
        ensures
            text@ == self.spec_message(),
    {
        match self {
            LogError::Truncated => String::from_str("the trace ends inside a field"),
            LogError::Utf8 => String::from_str("the trace holds text that is not valid UTF-8"),
            LogError::IntParse => String::from_str("a size prefix of the trace is not a number"),
        }
    }
}

/// One record of a trace, with its text as sequences of characters.
pub enum Event {
    UndefinedProperty { name: Seq<char>, source: PropertySource, stack_trace: Seq<char> },
    AssignTaintedKey {
        class_name: Seq<char>,
        key: Seq<char>,
        value: Seq<char>,
        source: PropertySource,
        stack_trace: Seq<char>,
    },
    Location { url: Seq<char> },
    Polluted { key: Seq<char>, value: Seq<char>, stack_trace: Seq<char> },
    PrototypeGet { key: Seq<char>, value: Seq<char>, stack_trace: Seq<char> },
    SinkReached { sink_type: Seq<char>, value: Seq<char>, stack_trace: Seq<char> },
    DocumentStart,
}

/// What reading one item at a position yields: the item and the position
/// after it, or the reason the trace is unusable.
pub type Parsed<T> = Result<(T, int), LogError>;

pub const TAG_LOAD_NOT_FOUND: &'static str = "LoadIC::Load_NOT_FOUND]";

pub const TAG_GET_NOT_FOUND: &'static str = "Runtime::GetObjectProperty_NOT_FOUND]";

pub const TAG_STORE: &'static str = "StoreIC::Store]";

pub const TAG_SET_TAINTED: &'static str = "Runtime::SetObjectProperty_TAINTED]";

pub const TAG_FRAME_LOCATION: &'static str = "LogFrameLocation]";

pub const TAG_SET_PROTOTYPE: &'static str = "Runtime::SetObjectProperty_PROTOTYPE]";

pub const TAG_FROM_JS: &'static str = "From_JS]";

pub const TAG_STRING_TAINTED: &'static str = "LogIfStringTainted]";

pub const SUBTAG_DOCUMENT_LOAD: &'static str = "DOCUMENT_LOAD";

pub const SUBTAG_PROTOTYPE_GET: &'static str = "PROTOTYPE_GET";

/// The byte that opens a record.
pub const RECORD_START: u8 = 0x5B;

// ----- tokens -----
/// The index of the first whitespace byte at or after `from`, or the end of
/// the input when there is none.
pub open spec fn token_end(input: Seq<u8>, from: int) -> int
    decreases input.len() - from,
{
    if from < 0 || from >= input.len() || is_space(input[from]) {
        from
    } else {
        token_end(input, from + 1)
    }
}

/// The bytes of the token that starts at `from`.
pub open spec fn token_at(input: Seq<u8>, from: int) -> Seq<u8> {
    input.subrange(from, token_end(input, from))
}

/// The position after the token at `from` and the one whitespace byte that
/// ends it, if the input goes that far.
pub open spec fn after_token(input: Seq<u8>, from: int) -> int {
    let end = token_end(input, from);
    if end < input.len() {
        end + 1
    } else {
        end
    }
}

/// The token at `from`, read as text.
pub open spec fn text_token(input: Seq<u8>, from: int) -> Parsed<Seq<char>> {
    let token = token_at(input, from);
    if valid_utf8(token) {
        Ok((decode_utf8(token), after_token(input, from)))
    } else {
        Err(LogError::Utf8)
    }
}

// ----- size prefixes -----
/// The digits of a size prefix: the token without its optional leading `+`.
pub open spec fn unsigned_digits(token: Seq<u8>) -> Seq<u8> {
    if token.len() > 0 && token[0] == 0x2B {
        token.drop_first()
    } else {
        token
    }
}

/// The number a size prefix writes: an optional `+`, then one or more
/// decimal digits and nothing else.
pub open spec fn decimal_value(token: Seq<u8>) -> Option<nat> {
    let digits = unsigned_digits(token);
    if digits.len() > 0 && all_digits(digits) {
        Some(digits_value(digits))
    } else {
        None
    }
}

// ----- sized fields -----
/// The sized field at `from`: a size prefix token, then exactly that many
/// bytes of text, then one separator byte that is dropped whatever it is.
pub open spec fn sized_field(input: Seq<u8>, from: int) -> Parsed<Seq<char>> {
    let prefix = token_at(input, from);
    let start = after_token(input, from);
    if !valid_utf8(prefix) {
        Err(LogError::Utf8)
    } else {
        match decimal_value(prefix) {
            None => Err(LogError::IntParse),
            Some(size) => {
                if size > usize::MAX {
                    Err(LogError::IntParse)
                } else if start + size > input.len() {
                    Err(LogError::Truncated)
                } else if !valid_utf8(input.subrange(start, start + size)) {
                    Err(LogError::Utf8)
                } else {
                    Ok(
                        (
                            decode_utf8(input.subrange(start, start + size)),
                            if start + size < input.len() {
                                start + size + 1
                            } else {
                                start + size
                            },
                        ),
                    )
                }
            },
        }
    }
}

/// `count` sized fields in a row, starting at `from`.
pub open spec fn sized_fields(input: Seq<u8>, from: int, count: nat) -> Parsed<Seq<Seq<char>>>
    decreases count,
{
    if count == 0 {
        Ok((Seq::empty(), from))
    } else {
        match sized_field(input, from) {
            Err(e) => Err(e),
            Ok((first, next)) => match sized_fields(input, next, (count - 1) as nat) {
                Err(e) => Err(e),
                Ok((rest, end)) => Ok((seq![first] + rest, end)),
            },
        }
    }
}

// ----- records -----
/// A record of two fields: the property that was read and found missing.
pub open spec fn undefined_property_record(
    input: Seq<u8>,
    from: int,
    source: PropertySource,
) -> Parsed<Option<Event>> {
    match sized_fields(input, from, 2) {
        Err(e) => Err(e),
        Ok((f, next)) => Ok(
            (Some(Event::UndefinedProperty { name: f[0], source, stack_trace: f[1] }), next),
        ),
    }
}

/// A record of four fields: an assignment under a tainted key.
pub open spec fn assign_tainted_key_record(
    input: Seq<u8>,
    from: int,
    source: PropertySource,
) -> Parsed<Option<Event>> {
    match sized_fields(input, from, 4) {
        Err(e) => Err(e),
        Ok((f, next)) => Ok(
            (
                Some(
                    Event::AssignTaintedKey {
                        class_name: f[0],
                        key: f[1],
                        value: f[2],
                        source,
                        stack_trace: f[3],
                    },
                ),
                next,
            ),
        ),
    }
}

/// A record of one field: the address of the frame.
pub open spec fn location_record(input: Seq<u8>, from: int) -> Parsed<Option<Event>> {
    match sized_fields(input, from, 1) {
        Err(e) => Err(e),
        Ok((f, next)) => Ok((Some(Event::Location { url: f[0] }), next)),
    }
}

/// A record of three fields: a write that reached a prototype.
pub open spec fn polluted_record(input: Seq<u8>, from: int) -> Parsed<Option<Event>> {
    match sized_fields(input, from, 3) {
        Err(e) => Err(e),
        Ok((f, next)) => Ok(
            (Some(Event::Polluted { key: f[0], value: f[1], stack_trace: f[2] }), next),
        ),
    }
}

/// A record of three fields: a read through an injected getter.
pub open spec fn prototype_get_record(input: Seq<u8>, from: int) -> Parsed<Option<Event>> {
    match sized_fields(input, from, 3) {
        Err(e) => Err(e),
        Ok((f, next)) => Ok(
            (Some(Event::PrototypeGet { key: f[0], value: f[1], stack_trace: f[2] }), next),
        ),
    }
}

/// A record that a page script wrote: a second token says which kind, and a
/// kind that is not known ends the record right after that token.
pub open spec fn from_js_record(input: Seq<u8>, from: int) -> Parsed<Option<Event>> {
    match text_token(input, from) {
        Err(e) => Err(e),
        Ok((kind, next)) => {
            if kind == SUBTAG_DOCUMENT_LOAD@ {
                Ok((Some(Event::DocumentStart), next))
            } else if kind == SUBTAG_PROTOTYPE_GET@ {
                prototype_get_record(input, next)
            } else {
                Ok((None, next))
            }
        },
    }
}

/// A record of a token and two fields: a tainted string that reached a sink.
pub open spec fn sink_reached_record(input: Seq<u8>, from: int) -> Parsed<Option<Event>> {
    match text_token(input, from) {
        Err(e) => Err(e),
        Ok((sink_type, next)) => match sized_fields(input, next, 2) {
            Err(e) => Err(e),
            Ok((f, end)) => Ok(
                (Some(Event::SinkReached { sink_type, value: f[0], stack_trace: f[1] }), end),
            ),
        },
    }
}

/// Whether a tag is one of those that the format defines.
pub open spec fn is_known_tag(tag: Seq<char>) -> bool {
    ||| tag == TAG_LOAD_NOT_FOUND@
    ||| tag == TAG_GET_NOT_FOUND@
    ||| tag == TAG_STORE@
    ||| tag == TAG_SET_TAINTED@
    ||| tag == TAG_FRAME_LOCATION@
    ||| tag == TAG_SET_PROTOTYPE@
    ||| tag == TAG_FROM_JS@
    ||| tag == TAG_STRING_TAINTED@
}

/// The record whose tag starts at `from`, the position just after its `[`.
/// A tag that the format does not define yields no event and ends the record
/// right after the tag.
pub open spec fn record_at(input: Seq<u8>, from: int) -> Parsed<Option<Event>> {
    match text_token(input, from) {
        Err(e) => Err(e),
        Ok((tag, next)) => {
            if tag == TAG_LOAD_NOT_FOUND@ {
                undefined_property_record(input, next, PropertySource::InlineCache)
            } else if tag == TAG_GET_NOT_FOUND@ {
                undefined_property_record(input, next, PropertySource::RuntimeObject)
            } else if tag == TAG_STORE@ {
                assign_tainted_key_record(input, next, PropertySource::InlineCache)
            } else if tag == TAG_SET_TAINTED@ {
                assign_tainted_key_record(input, next, PropertySource::RuntimeObject)
            } else if tag == TAG_FRAME_LOCATION@ {
                location_record(input, next)
            } else if tag == TAG_SET_PROTOTYPE@ {
                polluted_record(input, next)
            } else if tag == TAG_FROM_JS@ {
                from_js_record(input, next)
            } else if tag == TAG_STRING_TAINTED@ {
                sink_reached_record(input, next)
            } else {
                Ok((None, next))
            }
        },
    }
}

// ----- the whole trace -----
/// The index of the first `[` at or after `from`, or the end of the input
/// when there is none.
pub open spec fn next_record(input: Seq<u8>, from: int) -> int
    decreases input.len() - from,
{
    if from < 0 || from >= input.len() || input[from] == RECORD_START {
        from
    } else {
        next_record(input, from + 1)
    }
}

/// The events found so far, followed by what the rest of the trace yields.
pub open spec fn followed_by(head: Seq<Event>, tail: Result<Seq<Event>, LogError>) -> Result<
    Seq<Event>,
    LogError,
> {
    match tail {
        Ok(events) => Ok(head + events),
        Err(e) => Err(e),
    }
}

/// No event or one, as a sequence.
pub open spec fn events_of(event: Option<Event>) -> Seq<Event> {
    match event {
        Some(e) => seq![e],
        None => Seq::empty(),
    }
}

/// The events of the records that start at or after `from`, in the order in
/// which they stand, or the first error met on the way.
pub open spec fn decode_from(input: Seq<u8>, from: int) -> Result<Seq<Event>, LogError>
    decreases input.len() - from,
{
    let open = next_record(input, from);
    if from < 0 || open >= input.len() {
        Ok(Seq::empty())
    } else {
        match record_at(input, open + 1) {
            Err(e) => Err(e),
            Ok((event, next)) => {
                proof {
                    lemma_next_record_bounds(input, from);
                    lemma_record_advances(input, open + 1);
                }
                followed_by(events_of(event), decode_from(input, next))
            },
        }
    }
}

/// What a trace decodes to.
pub open spec fn decode(input: Seq<u8>) -> Result<Seq<Event>, LogError> {
    decode_from(input, 0)
}

// ----- facts about positions -----
/// A token ends inside the input, holds no whitespace, and stops at the
/// first whitespace byte if there is one.
pub proof fn lemma_token_end(input: Seq<u8>, from: int)
    requires
        0 <= from <= input.len(),
    ensures
        from <= token_end(input, from) <= input.len(),
        token_end(input, from) < input.len() ==> is_space(input[token_end(input, from)]),
        forall|i: int| from <= i < token_end(input, from) ==> !is_space(#[trigger] input[i]),
        from <= after_token(input, from) <= input.len(),
    decreases input.len() - from,
{
    if from < input.len() && !is_space(input[from]) {
        lemma_token_end(input, from + 1);
    }
}

/// The next record start lies inside the input or at its end, and no `[`
/// stands before it.
pub proof fn lemma_next_record_bounds(input: Seq<u8>, from: int)
    requires
        0 <= from,
    ensures
        from <= next_record(input, from),
        from <= input.len() ==> next_record(input, from) <= input.len(),
        next_record(input, from) < input.len() ==> input[next_record(input, from)]
            == RECORD_START,
        forall|i: int| from <= i < next_record(input, from) ==> #[trigger] input[i] != RECORD_START,
    decreases input.len() - from,
{
    if from < input.len() && input[from] != RECORD_START {
        lemma_next_record_bounds(input, from + 1);
    }
}

/// A sized field that reads well ends inside the input, after its start.
pub proof fn lemma_sized_field_advances(input: Seq<u8>, from: int)
    requires
        0 <= from <= input.len(),
    ensures
        sized_field(input, from) matches Ok((_, next)) ==> from <= next <= input.len(),
{
    lemma_token_end(input, from);
}

/// Sized fields that read well end inside the input, after their start.
pub proof fn lemma_sized_fields_advance(input: Seq<u8>, from: int, count: nat)
    requires
        0 <= from <= input.len(),
    ensures
        sized_fields(input, from, count) matches Ok((fields, next)) ==> from <= next <= input.len()
            && fields.len() == count,
    decreases count,
{
    if count > 0 {
        lemma_sized_field_advances(input, from);
        if let Ok((_, next)) = sized_field(input, from) {
            lemma_sized_fields_advance(input, next, (count - 1) as nat);
        }
    }
}

/// A record that reads well ends inside the input, at or after its start.
pub proof fn lemma_record_advances(input: Seq<u8>, from: int)
    requires
        0 <= from <= input.len(),
    ensures
        record_at(input, from) matches Ok((_, next)) ==> from <= next <= input.len(),
{
    lemma_token_end(input, from);
    let next = after_token(input, from);
    lemma_token_end(input, next);
    let after_kind = after_token(input, next);
    lemma_sized_fields_advance(input, next, 1);
    lemma_sized_fields_advance(input, next, 2);
    lemma_sized_fields_advance(input, next, 3);
    lemma_sized_fields_advance(input, next, 4);
    lemma_sized_fields_advance(input, after_kind, 2);
    lemma_sized_fields_advance(input, after_kind, 3);
}

// ----- what holds of every trace -----
/// A trace that holds no `[` has no records: it decodes, and to no events.
pub proof fn law_no_record_start_decodes_empty(input: Seq<u8>)
    requires
        forall|i: int| 0 <= i < input.len() ==> #[trigger] input[i] != RECORD_START,
    ensures
        decode(input) == Ok::<Seq<Event>, LogError>(Seq::empty()),
{
    lemma_next_record_bounds(input, 0);
}

/// A size prefix that promises more bytes than the input still holds fails
/// the field as truncated, however the bytes that are there read.
pub proof fn law_oversized_field_is_truncated(input: Seq<u8>, from: int, size: nat)
    requires
        0 <= from <= input.len(),
        valid_utf8(token_at(input, from)),
        decimal_value(token_at(input, from)) == Some(size),
        size <= usize::MAX,
        after_token(input, from) + size > input.len(),
    ensures
        sized_field(input, from) == Err::<(Seq<char>, int), LogError>(LogError::Truncated),
{
}

/// A size prefix that writes no number fails the field: as no number where
/// the prefix is text, and as no text where it is not even that.
pub proof fn law_malformed_size_prefix_fails(input: Seq<u8>, from: int)
    requires
        0 <= from <= input.len(),
        decimal_value(token_at(input, from)) is None,
    ensures
        sized_field(input, from) == Err::<(Seq<char>, int), LogError>(
            if valid_utf8(token_at(input, from)) {
                LogError::IntParse
            } else {
                LogError::Utf8
            },
        ),
{
}

/// A field that fails makes the fields it belongs to fail with the same
/// error, when the fields before it read well.
pub proof fn law_failed_field_fails_fields(
    input: Seq<u8>,
    from: int,
    before: nat,
    count: nat,
    error: LogError,
)
    requires
        before < count,
        sized_fields(input, from, before) matches Ok((_, next)) && sized_field(input, next) == Err::<
            (Seq<char>, int),
            LogError,
        >(error),
    ensures
        sized_fields(input, from, count) == Err::<(Seq<Seq<char>>, int), LogError>(error),
    decreases before,
{
    if before > 0 {
        let next = sized_field(input, from)->Ok_0.1;
        law_failed_field_fails_fields(
            input,
            next,
            (before - 1) as nat,
            (count - 1) as nat,
            error,
        );
    }
}

/// A record that fails makes the decode fail with the same error: the
/// events of the records after it are not looked for.
pub proof fn law_failed_record_fails_decode(input: Seq<u8>, from: int, error: LogError)
    requires
        0 <= from,
        next_record(input, from) < input.len(),
        record_at(input, next_record(input, from) + 1) == Err::<(Option<Event>, int), LogError>(
            error,
        ),
    ensures
        decode_from(input, from) == Err::<Seq<Event>, LogError>(error),
{
}

/// A failure behind a record that reads well is the failure of the decode
/// from that record on: no events come back in its place.
pub proof fn law_later_failure_fails_decode(input: Seq<u8>, from: int, error: LogError)
    requires
        0 <= from,
        next_record(input, from) < input.len(),
        record_at(input, next_record(input, from) + 1) matches Ok((_, next)) && decode_from(
            input,
            next,
        ) == Err::<Seq<Event>, LogError>(error),
    ensures
        decode_from(input, from) == Err::<Seq<Event>, LogError>(error),
{
}

/// A record whose tag the format does not define is passed over: the trace
/// decodes as what follows the tag decodes.
pub proof fn law_unknown_tag_is_skipped(input: Seq<u8>, from: int)
    requires
        0 <= from,
        next_record(input, from) < input.len(),
        valid_utf8(token_at(input, next_record(input, from) + 1)),
        !is_known_tag(decode_utf8(token_at(input, next_record(input, from) + 1))),
    ensures
        decode_from(input, from) == decode_from(
            input,
            after_token(input, next_record(input, from) + 1),
        ),
{
    let next = after_token(input, next_record(input, from) + 1);
    match decode_from(input, next) {
        Ok(events) => {
            assert(Seq::<Event>::empty() + events =~= events);
        },
        Err(_) => {},
    }
}

/// The text of a field is the bytes behind its size prefix, byte for byte:
/// whitespace and `[` among them are text like any other byte.
pub proof fn law_field_text_is_verbatim(input: Seq<u8>, from: int)
    requires
        0 <= from <= input.len(),
        sized_field(input, from) is Ok,
    ensures
        ({
            let size = decimal_value(token_at(input, from))->Some_0;
            let start = after_token(input, from);
            let (text, next) = sized_field(input, from)->Ok_0;
            &&& encode_utf8(text) == input.subrange(start, start + size)
            &&& next == if start + size < input.len() {
                start + size + 1
            } else {
                start + size
            }
        }),
{
    let size = decimal_value(token_at(input, from))->Some_0;
    let start = after_token(input, from);
    decode_utf8_encode_utf8(input.subrange(start, start + size));
}

/// A token stops at the first whitespace byte behind bytes that are none.
pub proof fn lemma_token_stops_at(input: Seq<u8>, from: int, stop: int)
    requires
        0 <= from <= stop < input.len(),
        forall|i: int| from <= i < stop ==> !is_space(#[trigger] input[i]),
        is_space(input[stop]),
    ensures
        token_end(input, from) == stop,
    decreases stop - from,
{
    if from < stop {
        lemma_token_stops_at(input, from + 1, stop);
    }
}

} // verus!
