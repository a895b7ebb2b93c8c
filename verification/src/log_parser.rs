//! The decoder: from the bytes of a trace to its messages.

use crate::log_format::{
    after_token, assign_tainted_key_record, decimal_value, decode, decode_from, followed_by,
    from_js_record, lemma_next_record_bounds, lemma_record_advances,
    lemma_token_end, location_record, next_record, polluted_record, prototype_get_record,
    record_at, sink_reached_record, sized_field, sized_fields, text_token, token_at, token_end,
    undefined_property_record, unsigned_digits, Event, Parsed,
    RECORD_START, SUBTAG_DOCUMENT_LOAD, SUBTAG_PROTOTYPE_GET, TAG_FRAME_LOCATION, TAG_FROM_JS,
    TAG_GET_NOT_FOUND, TAG_LOAD_NOT_FOUND, TAG_SET_PROTOTYPE, TAG_SET_TAINTED, TAG_STORE,
    TAG_STRING_TAINTED,
};
use crate::text::{copy_range, is_space_byte, number_in, text_eq, text_from_bytes};
pub use crate::log_format::{LogError, PropertySource};
use vstd::prelude::*;
use vstd::string::*;
use vstd::utf8::*;

verus! {

/// One record of a trace.
#[derive(Debug, Clone, PartialEq, Eq)]
pub enum LogMessage {
    /// A property was read and not found.
    UndefinedProperty { name: String, source: PropertySource, stack_trace: String },
    /// A value was stored under a key that carries taint.
    AssignTaintedKey {
        class_name: String,
        key: String,
        value: String,
        source: PropertySource,
        stack_trace: String,
    },
    /// The address of the frame that the following records belong to.
    Location { url: String },
    /// A write reached a prototype.
    Polluted { key: String, value: String, stack_trace: String },
    /// A property was read through an injected getter.
    PrototypeGet { key: String, value: String, stack_trace: String },
    /// A tainted string reached a sink.
    SinkReached { sink_type: String, value: String, stack_trace: String },
    /// The page's own scripts start here.
    DocumentStart,
}

impl View for LogMessage {
    type V = Event;

    open spec fn view(&self) -> Event {
        match *self {
            LogMessage::UndefinedProperty { name, source, stack_trace } => Event::UndefinedProperty {
                name: name@,
                source,
                stack_trace: stack_trace@,
            },
            LogMessage::AssignTaintedKey {
                class_name,
                key,
                value,
                source,
                stack_trace,
            } => Event::AssignTaintedKey {
                class_name: class_name@,
                key: key@,
                value: value@,
                source,
                stack_trace: stack_trace@,
            },
            LogMessage::Location { url } => Event::Location { url: url@ },
            LogMessage::Polluted { key, value, stack_trace } => Event::Polluted {
                key: key@,
                value: value@,
                stack_trace: stack_trace@,
            },
            LogMessage::PrototypeGet { key, value, stack_trace } => Event::PrototypeGet {
                key: key@,
                value: value@,
                stack_trace: stack_trace@,
            },
            LogMessage::SinkReached { sink_type, value, stack_trace } => Event::SinkReached {
                sink_type: sink_type@,
                value: value@,
                stack_trace: stack_trace@,
            },
            LogMessage::DocumentStart => Event::DocumentStart,
        }
    }
}

/// The messages of one page visit, in the order in which the engine wrote
/// them.
#[derive(Debug, Clone, PartialEq, Eq)]
pub struct SiteLog {
    pub messages: Vec<LogMessage>,
}

/// The events that a sequence of messages stands for.
pub open spec fn events(messages: Seq<LogMessage>) -> Seq<Event> {
    messages.map_values(|m: LogMessage| m@)
}

impl View for SiteLog {
    type V = Seq<Event>;

    open spec fn view(&self) -> Seq<Event> {
        events(self.messages@)
    }
}

/// A place in a trace: the bytes of the trace and how many of them have
/// been read.
pub struct Cursor<'a> {
    input: &'a [u8],
    pos: usize,
}

impl<'a> Cursor<'a> {
    #[verifier::type_invariant]
    spec fn within(self) -> bool {
        self.pos <= self.input@.len()
    }

    /// The bytes of the trace.
    pub closed spec fn input(self) -> Seq<u8> {
        self.input@
    }

    /// The number of bytes that have been read.
    pub closed spec fn position(self) -> int {
        self.pos as int
    }

    /// A cursor at the start of a trace.
    pub fn new(input: &'a [u8]) -> (cursor: Self)
        ensures
            cursor.input() == input@,
            cursor.position() == 0,
    {
        Cursor { input, pos: 0 }
    }

    /// The number of bytes that have been read: never more than there are.
    pub fn offset(&self) -> (offset: usize)
        ensures
            offset == self.position(),
            offset <= self.input().len(),
    {
        proof {
            use_type_invariant(self);
        }
        self.pos
    }

    /// Moves to the next `[` and past it. Gives `false`, at the end of the
    /// trace, when there is none.
    pub fn enter_record(&mut self) -> (found: bool)
        ensures
            final(self).input() == old(self).input(),
            found == (next_record(old(self).input(), old(self).position()) < old(
                self,
            ).input().len()),
            final(self).position() == if found {
                next_record(old(self).input(), old(self).position()) + 1
            } else {
                old(self).input().len() as int
            },
    {
        proof {
            use_type_invariant(&*self);
        }
        let ghost from = self.pos as int;
        let mut at: usize = self.pos;
        while at < self.input.len() && self.input[at] != RECORD_START
            invariant
                from == self.pos,
                from <= at <= self.input.len(),
                next_record(self.input@, from) == next_record(self.input@, at as int),
            decreases self.input.len() - at,
        {
            at += 1;
        }
        if at < self.input.len() {
            self.pos = at + 1;
            true
        } else {
            self.pos = at;
            false
        }
    }
}

/// What a reader of text hands back, and where it stops, for what the
/// format says stands at a position.
pub open spec fn reads_text(
    r: Result<String, LogError>,
    end: int,
    expected: Parsed<Seq<char>>,
) -> bool {
    match expected {
        Ok((text, next)) => r is Ok && r->Ok_0@ == text && end == next,
        Err(e) => r == Err::<String, LogError>(e),
    }
}

/// Reads the token at the cursor as text and moves the cursor past the
/// token and the whitespace byte that ends it.
pub fn read_until_whitespace(iter: &mut Cursor) -> (r: Result<String, LogError>)
    ensures
        final(iter).input() == old(iter).input(),
        final(iter).position() == after_token(old(iter).input(), old(iter).position()),
        reads_text(r, final(iter).position(), text_token(old(iter).input(), old(iter).position())),
{
    proof {
        use_type_invariant(&*iter);
    }
    let input = iter.input;
    let start: usize = iter.pos;
    let mut end: usize = start;
    while end < input.len() && !is_space_byte(input[end])
        invariant
            start <= end <= input.len(),
            token_end(input@, start as int) == token_end(input@, end as int),
        decreases input.len() - end,
    {
        end += 1;
    }
    let token = copy_range(input, start, end);
    iter.pos = if end < input.len() {
        end + 1
    } else {
        end
    };
    match text_from_bytes(token) {
        Some(text) => Ok(text),
        None => Err(LogError::Utf8),
    }
}

/// Reads a size prefix: the number it writes, if it writes one that fits
/// `usize`.
pub fn parse_size(token: &[u8]) -> (r: Option<usize>)
    ensures
        r == match decimal_value(token@) {
            Some(size) => if size <= usize::MAX {
                Some(size as usize)
            } else {
                None
            },
            None => None,
        },
{
    let first: usize = if token.len() > 0 && token[0] == 0x2B {
        1
    } else {
        0
    };
    assert(unsigned_digits(token@) =~= token@.subrange(first as int, token@.len() as int));
    match number_in(token, first, token.len(), usize::MAX as u64) {
        Some(size) => Some(size as usize),
        None => None,
    }
}

/// Reads the sized field at the cursor and moves the cursor past it and
/// its separator byte.
pub fn read_sized_string(iter: &mut Cursor) -> (r: Result<String, LogError>)
    ensures
        final(iter).input() == old(iter).input(),
        reads_text(r, final(iter).position(), sized_field(old(iter).input(), old(iter).position())),
{
    proof {
        use_type_invariant(&*iter);
    }
    let input = iter.input;
    let ghost from = iter.pos as int;
    proof {
        lemma_token_end(input@, from);
    }
    let prefix = match read_until_whitespace(iter) {
        Ok(prefix) => prefix,
        Err(e) => {
            return Err(e);
        },
    };
    proof {
        decode_utf8_encode_utf8(token_at(input@, from));
    }
    let size: usize = match parse_size(prefix.as_str().as_bytes()) {
        Some(size) => size,
        None => {
            return Err(LogError::IntParse);
        },
    };
    let start: usize = iter.pos;
    if size > input.len() - start {
        return Err(LogError::Truncated);
    }
    let field = copy_range(input, start, start + size);
    iter.pos = if start + size < input.len() {
        start + size + 1
    } else {
        start + size
    };
    match text_from_bytes(field) {
        Some(text) => Ok(text),
        None => Err(LogError::Utf8),
    }
}

/// The event that a message stands for, if there is a message.
pub open spec fn event_of(message: Option<LogMessage>) -> Option<Event> {
    match message {
        Some(m) => Some(m@),
        None => None,
    }
}

/// What a reader of records hands back, and where it stops, for what the
/// format says stands at a position.
pub open spec fn reads_as(
    r: Result<Option<LogMessage>, LogError>,
    end: int,
    expected: Parsed<Option<Event>>,
) -> bool {
    match expected {
        Ok((event, next)) => r is Ok && event_of(r->Ok_0) == event && end == next,
        Err(e) => r == Err::<Option<LogMessage>, LogError>(e),
    }
}

fn read_undefined_property(iter: &mut Cursor, source: PropertySource) -> (r: Result<
    Option<LogMessage>,
    LogError,
>)
    ensures
        final(iter).input() == old(iter).input(),
        reads_as(
            r,
            final(iter).position(),
            undefined_property_record(old(iter).input(), old(iter).position(), source),
        ),
{
    proof {
        reveal_with_fuel(sized_fields, 3);
    }
    let name = match read_sized_string(iter) {
        Ok(text) => text,
        Err(e) => {
            return Err(e);
        },
    };
    let stack_trace = match read_sized_string(iter) {
        Ok(text) => text,
        Err(e) => {
            return Err(e);
        },
    };
    Ok(Some(LogMessage::UndefinedProperty { name, source, stack_trace }))
}

fn read_assign_tainted_key(iter: &mut Cursor, source: PropertySource) -> (r: Result<
    Option<LogMessage>,
    LogError,
>)
    ensures
        final(iter).input() == old(iter).input(),
        reads_as(
            r,
            final(iter).position(),
            assign_tainted_key_record(old(iter).input(), old(iter).position(), source),
        ),
{
    proof {
        reveal_with_fuel(sized_fields, 5);
    }
    let class_name = match read_sized_string(iter) {
        Ok(text) => text,
        Err(e) => {
            return Err(e);
        },
    };
    let key = match read_sized_string(iter) {
        Ok(text) => text,
        Err(e) => {
            return Err(e);
        },
    };
    let value = match read_sized_string(iter) {
        Ok(text) => text,
        Err(e) => {
            return Err(e);
        },
    };
    let stack_trace = match read_sized_string(iter) {
        Ok(text) => text,
        Err(e) => {
            return Err(e);
        },
    };
    Ok(Some(LogMessage::AssignTaintedKey { class_name, key, value, source, stack_trace }))
}

fn read_location(iter: &mut Cursor) -> (r: Result<Option<LogMessage>, LogError>)
    ensures
        final(iter).input() == old(iter).input(),
        reads_as(
            r,
            final(iter).position(),
            location_record(old(iter).input(), old(iter).position()),
        ),
{
    proof {
        reveal_with_fuel(sized_fields, 2);
    }
    let url = match read_sized_string(iter) {
        Ok(text) => text,
        Err(e) => {
            return Err(e);
        },
    };
    Ok(Some(LogMessage::Location { url }))
}

/// Reads the three fields that a prototype write and a getter read share.
fn read_key_value_trace(iter: &mut Cursor) -> (r: Result<(String, String, String), LogError>)
    ensures
        final(iter).input() == old(iter).input(),
        match sized_fields(old(iter).input(), old(iter).position(), 3) {
            Ok((f, next)) => r is Ok && r->Ok_0.0@ == f[0] && r->Ok_0.1@ == f[1] && r->Ok_0.2@
                == f[2] && final(iter).position() == next,
            Err(e) => r == Err::<(String, String, String), LogError>(e),
        },
{
    proof {
        reveal_with_fuel(sized_fields, 4);
    }
    let key = match read_sized_string(iter) {
        Ok(text) => text,
        Err(e) => {
            return Err(e);
        },
    };
    let value = match read_sized_string(iter) {
        Ok(text) => text,
        Err(e) => {
            return Err(e);
        },
    };
    let stack_trace = match read_sized_string(iter) {
        Ok(text) => text,
        Err(e) => {
            return Err(e);
        },
    };
    Ok((key, value, stack_trace))
}

fn read_polluted(iter: &mut Cursor) -> (r: Result<Option<LogMessage>, LogError>)
    ensures
        final(iter).input() == old(iter).input(),
        reads_as(
            r,
            final(iter).position(),
            polluted_record(old(iter).input(), old(iter).position()),
        ),
{
    match read_key_value_trace(iter) {
        Ok((key, value, stack_trace)) => Ok(
            Some(LogMessage::Polluted { key, value, stack_trace }),
        ),
        Err(e) => Err(e),
    }
}

fn read_prototype_get(iter: &mut Cursor) -> (r: Result<Option<LogMessage>, LogError>)
    ensures
        final(iter).input() == old(iter).input(),
        reads_as(
            r,
            final(iter).position(),
            prototype_get_record(old(iter).input(), old(iter).position()),
        ),
{
    match read_key_value_trace(iter) {
        Ok((key, value, stack_trace)) => Ok(
            Some(LogMessage::PrototypeGet { key, value, stack_trace }),
        ),
        Err(e) => Err(e),
    }
}

fn read_from_js(iter: &mut Cursor) -> (r: Result<Option<LogMessage>, LogError>)
    ensures
        final(iter).input() == old(iter).input(),
        reads_as(
            r,
            final(iter).position(),
            from_js_record(old(iter).input(), old(iter).position()),
        ),
{
    let kind = match read_until_whitespace(iter) {
        Ok(text) => text,
        Err(e) => {
            return Err(e);
        },
    };
    if text_eq(kind.as_str(), SUBTAG_DOCUMENT_LOAD) {
        Ok(Some(LogMessage::DocumentStart))
    } else if text_eq(kind.as_str(), SUBTAG_PROTOTYPE_GET) {
        read_prototype_get(iter)
    } else {
        Ok(None)
    }
}

fn read_sink_reached(iter: &mut Cursor) -> (r: Result<Option<LogMessage>, LogError>)
    ensures
        final(iter).input() == old(iter).input(),
        reads_as(
            r,
            final(iter).position(),
            sink_reached_record(old(iter).input(), old(iter).position()),
        ),
{
    proof {
        reveal_with_fuel(sized_fields, 3);
    }
    let sink_type = match read_until_whitespace(iter) {
        Ok(text) => text,
        Err(e) => {
            return Err(e);
        },
    };
    let value = match read_sized_string(iter) {
        Ok(text) => text,
        Err(e) => {
            return Err(e);
        },
    };
    let stack_trace = match read_sized_string(iter) {
        Ok(text) => text,
        Err(e) => {
            return Err(e);
        },
    };
    Ok(Some(LogMessage::SinkReached { sink_type, value, stack_trace }))
}

/// Reads the record whose tag starts at the cursor and moves the cursor
/// past the record. A tag that the format does not define gives no message.
pub fn read_record(iter: &mut Cursor) -> (r: Result<Option<LogMessage>, LogError>)
    ensures
        final(iter).input() == old(iter).input(),
        reads_as(r, final(iter).position(), record_at(old(iter).input(), old(iter).position())),
{
    let tag = match read_until_whitespace(iter) {
        Ok(text) => text,
        Err(e) => {
            return Err(e);
        },
    };
    let tag = tag.as_str();
    if text_eq(tag, TAG_LOAD_NOT_FOUND) {
        read_undefined_property(iter, PropertySource::InlineCache)
    } else if text_eq(tag, TAG_GET_NOT_FOUND) {
        read_undefined_property(iter, PropertySource::RuntimeObject)
    } else if text_eq(tag, TAG_STORE) {
        read_assign_tainted_key(iter, PropertySource::InlineCache)
    } else if text_eq(tag, TAG_SET_TAINTED) {
        read_assign_tainted_key(iter, PropertySource::RuntimeObject)
    } else if text_eq(tag, TAG_FRAME_LOCATION) {
        read_location(iter)
    } else if text_eq(tag, TAG_SET_PROTOTYPE) {
        read_polluted(iter)
    } else if text_eq(tag, TAG_FROM_JS) {
        read_from_js(iter)
    } else if text_eq(tag, TAG_STRING_TAINTED) {
        read_sink_reached(iter)
    } else {
        Ok(None)
    }
}

/// Decodes a trace. The messages come in the order of their records; what
/// is not a record is skipped, and so is a record whose tag is not known.
/// A size prefix that is no number, a field that the stream ends in, and
/// text that is not UTF-8 each fail the whole decode.
pub fn parse_log(input: &[u8]) -> (r: Result<SiteLog, LogError>)
    ensures
        match decode(input@) {
            Ok(events) => r is Ok && r->Ok_0@ == events,
            Err(e) => r == Err::<SiteLog, LogError>(e),
        },
{
    let mut messages: Vec<LogMessage> = Vec::new();
    let mut iter = Cursor::new(input);
    loop
        invariant
            iter.input() == input@,
            iter.position() <= input@.len(),
            decode(input@) == followed_by(events(messages@), decode_from(input@, iter.position())),
        decreases input@.len() - iter.position(),
    {
        let ghost from = iter.position();
        let ghost before = events(messages@);
        proof {
            lemma_next_record_bounds(input@, from);
        }
        if !iter.enter_record() {
            assert(before + Seq::<Event>::empty() =~= before);
            return Ok(SiteLog { messages });
        }
        proof {
            lemma_record_advances(input@, iter.position());
        }
        match read_record(&mut iter) {
            Err(e) => {
                return Err(e);
            },
            Ok(Some(message)) => {
                messages.push(message);
                assert(events(messages@) =~= before + seq![message@]);
                assert forall|rest: Seq<Event>| (before + seq![message@]) + rest == before + (
                seq![message@] + rest) by {
                    assert((before + seq![message@]) + rest =~= before + (seq![message@] + rest));
                }
            },
            Ok(None) => {
                assert forall|rest: Seq<Event>| before + rest == before + (Seq::<Event>::empty()
                    + rest) by {
                    assert(before + rest =~= before + (Seq::<Event>::empty() + rest));
                }
            },
        }
    }
}

} // verus!
