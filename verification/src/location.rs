//! Where a stack trace points: the file, line and column that its first
//! line names.
//!
//! The first line of a trace is expected to end in `path:line:column`, with
//! or without a closing parenthesis behind it. The path is the longest run
//! of bytes in front of `:line` that holds no whitespace and no parenthesis;
//! it may start with a scheme, as in `https://host/file.js`.

use crate::text::{
    all_digits, copy_range, digits_value, is_digit, is_digit_byte, is_space, is_space_byte,
    lemma_split_at_ascii, number_in, text_of,
};
use vstd::prelude::*;
use vstd::string::*;
use vstd::utf8::*;

verus! {

pub const LINE_FEED: u8 = 0x0A;

pub const OPEN_PAREN: u8 = 0x28;

pub const CLOSE_PAREN: u8 = 0x29;

pub const COLON: u8 = 0x3A;

pub const SLASH: u8 = 0x2F;

/// A place in a source file.
#[derive(Debug, Clone, PartialEq, Eq)]
pub struct SourceLocation {
    pub file: String,
    pub line: u32,
    pub column: u32,
}

/// A place in a source file, with the file's name as characters.
pub struct Place {
    pub file: Seq<char>,
    pub line: u32,
    pub column: u32,
}

impl View for SourceLocation {
    type V = Place;

    open spec fn view(&self) -> Place {
        Place { file: self.file@, line: self.line, column: self.column }
    }
}

/// The place that a location stands for, if there is a location.
pub open spec fn place_of(location: Option<SourceLocation>) -> Option<Place> {
    match location {
        Some(l) => Some(l@),
        None => None,
    }
}

// ----- the pattern -----
/// The index of the first line feed, or the length when there is none: the
/// end of the first line.
pub open spec fn line_end(s: Seq<u8>, from: int) -> int
    decreases s.len() - from,
{
    if from < 0 || from >= s.len() || s[from] == LINE_FEED {
        from
    } else {
        line_end(s, from + 1)
    }
}

/// The start of the longest run of decimal digits that ends before `end`.
pub open spec fn digits_start(s: Seq<u8>, end: int) -> int
    decreases end,
{
    if end <= 0 || end > s.len() || !is_digit(s[end - 1]) {
        end
    } else {
        digits_start(s, end - 1)
    }
}

/// A byte that can stand in a path: no whitespace and no parenthesis.
pub open spec fn is_path_byte(b: u8) -> bool {
    !is_space(b) && b != OPEN_PAREN && b != CLOSE_PAREN
}

/// The start of the longest run of path bytes that ends before `end`.
pub open spec fn path_start(s: Seq<u8>, end: int) -> int
    decreases end,
{
    if end <= 0 || end > s.len() || !is_path_byte(s[end - 1]) {
        end
    } else {
        path_start(s, end - 1)
    }
}

/// Where the parts of `path:line:column` stand in a first line.
pub struct Span {
    pub path_from: int,
    pub path_to: int,
    pub line_from: int,
    pub line_to: int,
    pub column_from: int,
    pub column_to: int,
}

/// The parts of the first line of `s`, read from its end: an optional `)`,
/// the digits of the column, the digits of the line, the path.
pub open spec fn span_of(s: Seq<u8>) -> Span {
    let end = line_end(s, 0);
    let column_to = if end > 0 && s[end - 1] == CLOSE_PAREN {
        end - 1
    } else {
        end
    };
    let column_from = digits_start(s, column_to);
    let line_to = column_from - 1;
    let line_from = digits_start(s, line_to);
    let path_to = line_from - 1;
    let path_from = path_start(s, path_to);
    Span { path_from, path_to, line_from, line_to, column_from, column_to }
}

/// Whether the first line of `s` has the shape `path:line:column`: none of
/// the three parts is empty, a colon stands in front of each number, and
/// each number fits 32 bits.
pub open spec fn has_location(s: Seq<u8>) -> bool {
    let span = span_of(s);
    &&& span.column_from < span.column_to
    &&& span.column_from >= 1 && s[span.column_from - 1] == COLON
    &&& span.line_from < span.line_to
    &&& span.line_from >= 1 && s[span.line_from - 1] == COLON
    &&& span.path_from < span.path_to
    &&& digits_value(s.subrange(span.line_from, span.line_to)) <= u32::MAX
    &&& digits_value(s.subrange(span.column_from, span.column_to)) <= u32::MAX
}

// ----- the path -----
/// A byte that can stand in the scheme of a URL: a letter, a digit, `+`,
/// `-` or `.`.
pub open spec fn is_scheme_byte(b: u8) -> bool {
    (0x30 <= b <= 0x39) || (0x41 <= b <= 0x5A) || (0x61 <= b <= 0x7A) || b == 0x2B || b == 0x2D
        || b == 0x2E
}

/// The end of the run of scheme bytes that starts at `from`.
pub open spec fn scheme_end(path: Seq<u8>, from: int) -> int
    decreases path.len() - from,
{
    if from < 0 || from >= path.len() || !is_scheme_byte(path[from]) {
        from
    } else {
        scheme_end(path, from + 1)
    }
}

/// Whether the path starts with a scheme and `://`.
pub open spec fn has_scheme(path: Seq<u8>) -> bool {
    let colon = scheme_end(path, 0);
    &&& colon >= 1
    &&& colon + 2 < path.len()
    &&& path[colon] == COLON
    &&& path[colon + 1] == SLASH
    &&& path[colon + 2] == SLASH
}

/// Whether the byte at `i` is a slash that repeats the slash before it. The
/// second slash of the `://` behind a scheme does not count as a repeat.
pub open spec fn is_repeated_slash(path: Seq<u8>, i: int) -> bool {
    &&& 1 <= i < path.len()
    &&& path[i] == SLASH
    &&& path[i - 1] == SLASH
    &&& !(has_scheme(path) && i == scheme_end(path, 0) + 2)
}

/// The bytes of the path from index `from` on, without the slashes that
/// repeat one.
pub open spec fn normalized_from(path: Seq<u8>, from: int) -> Seq<u8>
    decreases path.len() - from,
{
    if from < 0 || from >= path.len() {
        Seq::empty()
    } else if is_repeated_slash(path, from) {
        normalized_from(path, from + 1)
    } else {
        seq![path[from]] + normalized_from(path, from + 1)
    }
}

/// The path with every run of slashes collapsed to one slash, but for the
/// `//` that follows the colon of a scheme.
pub open spec fn normalized(path: Seq<u8>) -> Seq<u8> {
    normalized_from(path, 0)
}

// ----- the location of a trace -----
/// The place that the bytes of a stack trace name, if its first line has
/// the shape `path:line:column`: the normalized path, and the two numbers.
pub open spec fn located(s: Seq<u8>) -> Option<Place> {
    let span = span_of(s);
    if has_location(s) {
        Some(
            Place {
                file: decode_utf8(normalized(s.subrange(span.path_from, span.path_to))),
                line: digits_value(s.subrange(span.line_from, span.line_to)) as u32,
                column: digits_value(s.subrange(span.column_from, span.column_to)) as u32,
            },
        )
    } else {
        None
    }
}

/// The place that a stack trace names.
pub open spec fn location_of(stack_trace: Seq<char>) -> Option<Place> {
    located(encode_utf8(stack_trace))
}

/// In front of a run of path bytes stands the start of the input or a byte
/// that is none: whitespace or a parenthesis.
pub proof fn lemma_path_start(s: Seq<u8>, end: int)
    requires
        0 <= end <= s.len(),
    ensures
        0 <= path_start(s, end) <= end,
        path_start(s, end) > 0 ==> !is_path_byte(s[path_start(s, end) - 1]),
        forall|i: int| path_start(s, end) <= i < end ==> is_path_byte(#[trigger] s[i]),
    decreases end,
{
    if end > 0 && is_path_byte(s[end - 1]) {
        lemma_path_start(s, end - 1);
    }
}

/// A path stays text when its repeated slashes are dropped: a slash is a
/// character of its own, never a part of another.
pub proof fn lemma_normalized_is_text(path: Seq<u8>, from: int)
    requires
        0 <= from <= path.len(),
        valid_utf8(path.subrange(from, path.len() as int)),
    ensures
        valid_utf8(normalized_from(path, from)),
    decreases path.len() - from,
{
    if from < path.len() {
        let tail = path.subrange(from, path.len() as int);
        let width = length_of_first_scalar(tail);
        assert(valid_first_scalar(tail));
        assert(1 <= width <= 4 && width <= tail.len());
        assert(pop_first_scalar(tail) =~= path.subrange(from + width, path.len() as int));
        lemma_normalized_is_text(path, from + width);
        let rest = normalized_from(path, from + width);
        let first = tail.subrange(0, width);
        assert(valid_utf8(first)) by {
            reveal_with_fuel(valid_utf8, 2);
            assert(pop_first_scalar(first) =~= Seq::<u8>::empty());
            assert(first[0] == tail[0]);
            if width >= 2 {
                assert(first[1] == tail[1]);
            }
            if width >= 3 {
                assert(first[2] == tail[2]);
            }
            if width >= 4 {
                assert(first[3] == tail[3]);
            }
        }
        if width == 1 {
            if is_repeated_slash(path, from) {
                assert(normalized_from(path, from) == rest);
            } else {
                assert(first =~= seq![path[from]]);
                valid_utf8_concat(first, rest);
            }
        } else {
            assert forall|i: int| from <= i < from + width implies !is_repeated_slash(path, i) by {
                assert(path[i] == tail[i - from]);
                assert(path[i] >= 0x80);
            }
            reveal_with_fuel(normalized_from, 5);
            assert(normalized_from(path, from) =~= first + rest);
            valid_utf8_concat(first, rest);
        }
    }
}

/// The file of a located trace is text: the path is cut out between bytes
/// that are characters of their own, and stays text when normalized.
pub proof fn lemma_located_file_is_text(s: Seq<u8>)
    requires
        valid_utf8(s),
        has_location(s),
    ensures
        valid_utf8(normalized(s.subrange(span_of(s).path_from, span_of(s).path_to))),
{
    let span = span_of(s);
    lemma_line_end(s, 0);
    lemma_digits_start(s, span.column_to);
    lemma_digits_start(s, span.line_to);
    lemma_path_start(s, span.path_to);
    lemma_split_at_ascii(s, span.path_to);
    let front = s.subrange(0, span.path_to);
    let path = s.subrange(span.path_from, span.path_to);
    if span.path_from > 0 {
        assert(front[span.path_from - 1] == s[span.path_from - 1]);
        lemma_split_at_ascii(front, span.path_from - 1);
        assert(front.subrange(span.path_from, front.len() as int) =~= path);
    } else {
        assert(front =~= path);
    }
    assert(path.subrange(0, path.len() as int) =~= path);
    lemma_normalized_is_text(path, 0);
}

/// Whether two slashes stand side by side somewhere in the bytes.
pub open spec fn has_double_slash(s: Seq<u8>) -> bool {
    exists|i: int| 0 <= i < s.len() - 1 && #[trigger] s[i] == SLASH && s[i + 1] == SLASH
}

/// What is left of a path behind a slash does not start with a slash.
proof fn lemma_no_slash_behind_slash(path: Seq<u8>, from: int)
    requires
        !has_scheme(path),
        1 <= from <= path.len(),
        path[from - 1] == SLASH,
    ensures
        normalized_from(path, from).len() > 0 ==> normalized_from(path, from)[0] != SLASH,
    decreases path.len() - from,
{
    if from < path.len() && is_repeated_slash(path, from) {
        lemma_no_slash_behind_slash(path, from + 1);
    }
}

proof fn lemma_no_double_slash_from(path: Seq<u8>, from: int)
    requires
        !has_scheme(path),
        0 <= from <= path.len(),
    ensures
        !has_double_slash(normalized_from(path, from)),
    decreases path.len() - from,
{
    if from < path.len() {
        lemma_no_double_slash_from(path, from + 1);
        let rest = normalized_from(path, from + 1);
        let all = normalized_from(path, from);
        if !is_repeated_slash(path, from) {
            assert(all =~= seq![path[from]] + rest);
            if path[from] == SLASH {
                lemma_no_slash_behind_slash(path, from + 1);
            }
            assert forall|i: int| 0 <= i < all.len() - 1 implies !(#[trigger] all[i] == SLASH
                && all[i + 1] == SLASH) by {
                if i > 0 {
                    assert(all[i] == rest[i - 1] && all[i + 1] == rest[i]);
                    assert(!(rest[i - 1] == SLASH && rest[i - 1 + 1] == SLASH));
                }
            }
        }
    }
}

/// A normalized path without a scheme holds no two slashes side by side.
pub proof fn law_normalized_has_single_slashes(path: Seq<u8>)
    requires
        !has_scheme(path),
    ensures
        !has_double_slash(normalized(path)),
{
    lemma_no_double_slash_from(path, 0);
}

/// The bytes of a scheme are no slashes and so is the colon behind them:
/// up to `upto`, which is at most the place behind the `://`, every byte of
/// the path is kept.
proof fn lemma_scheme_is_kept(path: Seq<u8>, upto: int)
    requires
        has_scheme(path),
        0 <= upto <= scheme_end(path, 0) + 3,
    ensures
        normalized(path) == path.subrange(0, upto) + normalized_from(path, upto),
    decreases upto,
{
    if upto == 0 {
        assert(path.subrange(0, 0) + normalized_from(path, 0) =~= normalized_from(path, 0));
    } else {
        lemma_scheme_is_kept(path, upto - 1);
        let at = upto - 1;
        let colon = scheme_end(path, 0);
        if 1 <= at <= colon {
            lemma_scheme_bytes(path, 0, at - 1);
        }
        assert(!is_repeated_slash(path, at));
        assert(path.subrange(0, at) + (seq![path[at]] + normalized_from(path, upto))
            =~= path.subrange(0, upto) + normalized_from(path, upto));
    }
}

/// Every byte in front of the end of the scheme is a scheme byte.
proof fn lemma_scheme_bytes(path: Seq<u8>, from: int, i: int)
    requires
        0 <= from <= i < scheme_end(path, from),
    ensures
        i < path.len(),
        is_scheme_byte(path[i]),
    decreases path.len() - from,
{
    if from < path.len() && is_scheme_byte(path[from]) && from < i {
        lemma_scheme_bytes(path, from + 1, i);
    }
}

/// A normalized path with a scheme starts with the scheme and its `://`,
/// as the path does.
pub proof fn law_normalized_keeps_scheme(path: Seq<u8>)
    requires
        has_scheme(path),
    ensures
        normalized(path).len() >= scheme_end(path, 0) + 3,
        normalized(path).subrange(0, scheme_end(path, 0) + 3) == path.subrange(
            0,
            scheme_end(path, 0) + 3,
        ),
{
    let upto = scheme_end(path, 0) + 3;
    lemma_scheme_is_kept(path, upto);
    assert((path.subrange(0, upto) + normalized_from(path, upto)).subrange(0, upto)
        =~= path.subrange(0, upto));
}

/// The first line ends inside the input or at its end.
pub proof fn lemma_line_end(s: Seq<u8>, from: int)
    requires
        0 <= from <= s.len(),
    ensures
        from <= line_end(s, from) <= s.len(),
    decreases s.len() - from,
{
    if from < s.len() && s[from] != LINE_FEED {
        lemma_line_end(s, from + 1);
    }
}

/// A run of digits starts at or before its end, inside the input.
pub proof fn lemma_digits_start(s: Seq<u8>, end: int)
    requires
        end <= s.len(),
    ensures
        end >= 0 ==> 0 <= digits_start(s, end) <= end,
        end < 0 ==> digits_start(s, end) == end,
    decreases end,
{
    if end > 0 && is_digit(s[end - 1]) {
        lemma_digits_start(s, end - 1);
    }
}

// ----- reading it -----
/// The end of the first line of `s`.
fn find_line_end(s: &[u8]) -> (end: usize)
    ensures
        end == line_end(s@, 0),
        end <= s.len(),
{
    let mut end: usize = 0;
    while end < s.len() && s[end] != LINE_FEED
        invariant
            end <= s.len(),
            line_end(s@, 0) == line_end(s@, end as int),
        decreases s.len() - end,
    {
        end += 1;
    }
    end
}

/// The start of the run of digits that ends before `end`.
fn find_digits_start(s: &[u8], end: usize) -> (start: usize)
    requires
        end <= s.len(),
    ensures
        start == digits_start(s@, end as int),
        start <= end,
        all_digits(s@.subrange(start as int, end as int)),
{
    let mut start: usize = end;
    while start > 0 && is_digit_byte(s[start - 1])
        invariant
            start <= end <= s.len(),
            digits_start(s@, end as int) == digits_start(s@, start as int),
            all_digits(s@.subrange(start as int, end as int)),
        decreases start,
    {
        start -= 1;
        assert forall|i: int| 0 <= i < end - start implies is_digit(
            #[trigger] s@.subrange(start as int, end as int)[i],
        ) by {
            if i > 0 {
                assert(s@.subrange(start as int, end as int)[i] == s@.subrange(
                    start + 1,
                    end as int,
                )[i - 1]);
            }
        }
    }
    start
}

/// Whether a byte can stand in a path.
fn is_path(b: u8) -> (r: bool)
    ensures
        r == is_path_byte(b),
{
    !is_space_byte(b) && b != OPEN_PAREN && b != CLOSE_PAREN
}

/// The start of the run of path bytes that ends before `end`.
fn find_path_start(s: &[u8], end: usize) -> (start: usize)
    requires
        end <= s.len(),
    ensures
        start == path_start(s@, end as int),
        start <= end,
{
    let mut start: usize = end;
    while start > 0 && is_path(s[start - 1])
        invariant
            start <= end <= s.len(),
            path_start(s@, end as int) == path_start(s@, start as int),
        decreases start,
    {
        start -= 1;
    }
    start
}

/// Whether a byte can stand in the scheme of a URL.
fn is_scheme(b: u8) -> (r: bool)
    ensures
        r == is_scheme_byte(b),
{
    (0x30 <= b && b <= 0x39) || (0x41 <= b && b <= 0x5A) || (0x61 <= b && b <= 0x7A) || b == 0x2B
        || b == 0x2D || b == 0x2E
}

/// Collapses the runs of slashes in a path, but for the `//` behind a
/// scheme.
pub fn normalize_path(path: &[u8]) -> (r: Vec<u8>)
    ensures
        r@ == normalized(path@),
{
    let mut colon: usize = 0;
    while colon < path.len() && is_scheme(path[colon])
        invariant
            colon <= path.len(),
            scheme_end(path@, 0) == scheme_end(path@, colon as int),
        decreases path.len() - colon,
    {
        colon += 1;
    }
    let with_scheme: bool = colon >= 1 && path.len() - colon > 2 && path[colon] == COLON && path[colon
        + 1] == SLASH && path[colon + 2] == SLASH;
    let mut out: Vec<u8> = Vec::new();
    let mut i: usize = 0;
    while i < path.len()
        invariant
            i <= path.len(),
            colon == scheme_end(path@, 0),
            with_scheme == has_scheme(path@),
            with_scheme ==> colon + 2 < path.len(),
            normalized(path@) == out@ + normalized_from(path@, i as int),
        decreases path.len() - i,
    {
        let repeated: bool = i >= 1 && path[i] == SLASH && path[i - 1] == SLASH && !(with_scheme
            && i == colon + 2);
        let ghost before = out@;
        let ghost rest = normalized_from(path@, i + 1);
        if !repeated {
            out.push(path[i]);
            assert(before.push(path@[i as int]) + rest =~= before + (seq![path@[i as int]] + rest));
        }
        i += 1;
    }
    assert(out@ + Seq::<u8>::empty() =~= out@);
    out
}

/// Finds the place that a stack trace names: the file, line and column at
/// the end of its first line. A trace whose first line does not end in
/// `path:line:column` names no place.
pub fn resolve_location(stack_trace: &str) -> (r: Option<SourceLocation>)
    ensures
        place_of(r) == location_of(stack_trace@),
{
    let s = stack_trace.as_bytes();
    let end: usize = find_line_end(s);
    let column_to: usize = if end > 0 && s[end - 1] == CLOSE_PAREN {
        end - 1
    } else {
        end
    };
    let column_from: usize = find_digits_start(s, column_to);
    if column_from == column_to || column_from == 0 || s[column_from - 1] != COLON {
        return None;
    }
    let line_to: usize = column_from - 1;
    let line_from: usize = find_digits_start(s, line_to);
    if line_from == line_to || line_from == 0 || s[line_from - 1] != COLON {
        return None;
    }
    let path_to: usize = line_from - 1;
    let path_from: usize = find_path_start(s, path_to);
    if path_from == path_to {
        return None;
    }
    let line: u32 = match number_in(s, line_from, line_to, u32::MAX as u64) {
        Some(n) => n as u32,
        None => {
            return None;
        },
    };
    let column: u32 = match number_in(s, column_from, column_to, u32::MAX as u64) {
        Some(n) => n as u32,
        None => {
            return None;
        },
    };
    let path = copy_range(s, path_from, path_to);
    let file = normalize_path(path.as_slice());
    proof {
        encode_utf8_valid_utf8(stack_trace@);
        lemma_located_file_is_text(s@);
    }
    Some(SourceLocation { file: text_of(file), line, column })
}

} // verus!
