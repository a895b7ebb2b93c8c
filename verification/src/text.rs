//! Bytes and text: the bridge between raw input and `String` values.

use vstd::prelude::*;
use vstd::string::*;
use vstd::utf8::*;

verus! {

/// The error that `String::from_utf8` hands back with the rejected bytes.
#[verifier::external_type_specification]
#[verifier::external_body]
pub struct ExFromUtf8Error(std::string::FromUtf8Error);

/// `String::from_utf8` accepts exactly the byte vectors that are well-formed
/// UTF-8, and the accepted string holds the characters those bytes encode.
pub assume_specification[ String::from_utf8 ](vec: Vec<u8>) -> (r: Result<
    String,
    std::string::FromUtf8Error,
>)
    ensures
        r is Ok <==> valid_utf8(vec@),
        r is Ok ==> r->Ok_0@ == decode_utf8(vec@),
;

/// The bytes that a piece of text occupies.
pub open spec fn bytes_of(s: Seq<char>) -> Seq<u8> {
    encode_utf8(s)
}

/// Two texts are the same exactly when their bytes are the same.
pub proof fn lemma_bytes_of_injective(a: Seq<char>, b: Seq<char>)
    ensures
        (bytes_of(a) == bytes_of(b)) <==> a == b,
{
    encode_utf8_decode_utf8(a);
    encode_utf8_decode_utf8(b);
}

/// Turns bytes into text when they are well-formed UTF-8.
pub fn text_from_bytes(bytes: Vec<u8>) -> (r: Option<String>)
    ensures
        r is Some <==> valid_utf8(bytes@),
        r is Some ==> r->Some_0@ == decode_utf8(bytes@) && bytes_of(r->Some_0@) == bytes@,
{
    let ghost b = bytes@;
    match String::from_utf8(bytes) {
        Ok(s) => {
            proof {
                decode_utf8_encode_utf8(b);
            }
            Some(s)
        },
        Err(_) => None,
    }
}

/// Turns bytes that are known to be well-formed UTF-8 into text.
pub(crate) fn text_of(bytes: Vec<u8>) -> (text: String)
    requires
        valid_utf8(bytes@),
    ensures
        text@ == decode_utf8(bytes@),
        bytes_of(text@) == bytes@,
{
    match text_from_bytes(bytes) {
        Some(text) => text,
        None => {
            assert(false);
            String::new()
        },
    }
}

/// Copies the bytes `input[from..to]` into a fresh vector.
pub(crate) fn copy_range(input: &[u8], from: usize, to: usize) -> (r: Vec<u8>)
    requires
        from <= to <= input.len(),
    ensures
        r@ == input@.subrange(from as int, to as int),
{
    let mut out: Vec<u8> = Vec::new();
    let mut i: usize = from;
    while i < to
        invariant
            from <= i <= to <= input.len(),
            out@ == input@.subrange(from as int, i as int),
        decreases to - i,
    {
        out.push(input[i]);
        i += 1;
    }
    out
}

/// Whether two byte slices hold the same bytes.
pub fn bytes_eq(a: &[u8], b: &[u8]) -> (r: bool)
    ensures
        r == (a@ == b@),
{
    if a.len() != b.len() {
        return false;
    }
    let mut i: usize = 0;
    while i < a.len()
        invariant
            a.len() == b.len(),
            i <= a.len(),
            forall|j: int| 0 <= j < i ==> a@[j] == b@[j],
        decreases a.len() - i,
    {
        if a[i] != b[i] {
            return false;
        }
        i += 1;
    }
    assert(a@ =~= b@);
    true
}

/// Whether two texts hold the same characters.
pub fn text_eq(a: &str, b: &str) -> (r: bool)
    ensures
        r == (a@ == b@),
{
    proof {
        lemma_bytes_of_injective(a@, b@);
    }
    bytes_eq(a.as_bytes(), b.as_bytes())
}

/// Text can be cut in front of and behind an ASCII byte: what stands before
/// the byte is text, and so is what stands behind it.
pub proof fn lemma_split_at_ascii(bytes: Seq<u8>, at: int)
    requires
        valid_utf8(bytes),
        0 <= at < bytes.len(),
        bytes[at] < 0x80,
    ensures
        valid_utf8(bytes.subrange(0, at)),
        valid_utf8(bytes.subrange(at, bytes.len() as int)),
        valid_utf8(bytes.subrange(at + 1, bytes.len() as int)),
        decode_utf8(bytes) == decode_utf8(bytes.subrange(0, at)) + seq![bytes[at] as char]
            + decode_utf8(bytes.subrange(at + 1, bytes.len() as int)),
{
    is_char_boundary_iff_not_is_continuation_byte(bytes, at);
    valid_utf8_split(bytes, at);
    decode_utf8_split(bytes, at);
    let tail = bytes.subrange(at, bytes.len() as int);
    assert(tail[0] == bytes[at]);
    assert(is_leading_byte_width_1(tail[0]));
    assert(pop_first_scalar(tail) =~= bytes.subrange(at + 1, bytes.len() as int));
    let b = tail[0];
    assert(b & 0x7F == b) by (bit_vector)
        requires
            b < 0x80,
    ;
    assert(decode_first_scalar(tail) == b as u32);
    assert((b as u32) as char == b as char);
}

/// The bytes of a text that holds an ASCII character hold its byte.
pub proof fn lemma_ascii_present(chars: Seq<char>, c: char)
    requires
        (c as u32) < 0x80,
        chars.contains(c),
    ensures
        encode_utf8(chars).contains(c as u8),
    decreases chars.len(),
{
    let bytes = encode_utf8(chars);
    let head = encode_scalar(chars[0] as u32);
    let tail = encode_utf8(chars.drop_first());
    assert(bytes == head + tail);
    if chars[0] == c {
        let scalar = c as u32;
        assert(scalar & 0x7F == scalar) by (bit_vector)
            requires
                scalar < 0x80,
        ;
        assert(head[0] == c as u8);
        assert(bytes[0] == c as u8);
    } else {
        let i = choose|i: int| 0 <= i < chars.len() && chars[i] == c;
        assert(chars.drop_first()[i - 1] == c);
        lemma_ascii_present(chars.drop_first(), c);
        let j = choose|j: int| 0 <= j < tail.len() && tail[j] == c as u8;
        assert(bytes[head.len() + j] == c as u8);
    }
}

/// Text whose bytes do not hold a given ASCII byte does not hold the
/// character of that byte.
pub proof fn lemma_ascii_absent(bytes: Seq<u8>, b: u8)
    requires
        valid_utf8(bytes),
        b < 0x80,
        !bytes.contains(b),
    ensures
        !decode_utf8(bytes).contains(b as char),
{
    let chars = decode_utf8(bytes);
    decode_utf8_encode_utf8(bytes);
    if chars.contains(b as char) {
        lemma_ascii_present(chars, b as char);
    }
}

// ----- bytes with a meaning -----
/// ASCII whitespace: space, tab, line feed, form feed, carriage return.
pub open spec fn is_space(b: u8) -> bool {
    b == 0x20 || b == 0x09 || b == 0x0A || b == 0x0C || b == 0x0D
}

/// An ASCII decimal digit.
pub open spec fn is_digit(b: u8) -> bool {
    0x30 <= b <= 0x39
}

/// The number that a run of decimal digits writes.
pub open spec fn digits_value(digits: Seq<u8>) -> nat
    decreases digits.len(),
{
    if digits.len() == 0 {
        0
    } else {
        digits_value(digits.drop_last()) * 10 + (digits.last() - 0x30) as nat
    }
}

/// Whether every byte is a decimal digit.
pub open spec fn all_digits(digits: Seq<u8>) -> bool {
    forall|i: int| 0 <= i < digits.len() ==> is_digit(#[trigger] digits[i])
}

/// Decimal digits are well-formed UTF-8.
pub proof fn lemma_digits_are_text(digits: Seq<u8>)
    requires
        all_digits(digits),
    ensures
        valid_utf8(digits),
{
    assert(digits.subrange(0, 0) =~= Seq::<u8>::empty());
    assert(partial_valid_utf8(digits, 0));
    assert forall|i: int| 0 <= i < digits.len() implies #[trigger] is_leading_byte_width_1(
        digits[i],
    ) by {
        assert(is_digit(digits[i]));
    }
    partial_valid_utf8_extend_ascii_block(digits, 0, digits.len() as int);
    assert(digits.subrange(0, digits.len() as int) =~= digits);
}

/// The number of a run of digits never falls when the run grows.
pub proof fn lemma_digits_value_grows(digits: Seq<u8>, shorter: int)
    requires
        0 <= shorter <= digits.len(),
    ensures
        digits_value(digits.take(shorter)) <= digits_value(digits),
    decreases digits.len(),
{
    if shorter < digits.len() {
        lemma_digits_value_grows(digits.drop_last(), shorter);
        assert(digits.drop_last().take(shorter) =~= digits.take(shorter));
    } else {
        assert(digits.take(shorter) =~= digits);
    }
}

/// Whether a byte is ASCII whitespace.
pub fn is_space_byte(b: u8) -> (r: bool)
    ensures
        r == is_space(b),
{
    b == 0x20 || b == 0x09 || b == 0x0A || b == 0x0C || b == 0x0D
}

/// Whether a byte is an ASCII decimal digit.
pub fn is_digit_byte(b: u8) -> (r: bool)
    ensures
        r == is_digit(b),
{
    0x30 <= b && b <= 0x39
}

/// Reads `input[from..to]` as a decimal number: the number that the bytes
/// write, if they are one or more digits and the number is at most `limit`.
pub(crate) fn number_in(input: &[u8], from: usize, to: usize, limit: u64) -> (r: Option<u64>)
    requires
        from <= to <= input.len(),
    ensures
        r == ({
            let digits = input@.subrange(from as int, to as int);
            if digits.len() > 0 && all_digits(digits) && digits_value(digits) <= limit {
                Some(digits_value(digits) as u64)
            } else {
                None
            }
        }),
{
    let ghost digits = input@.subrange(from as int, to as int);
    if from == to {
        return None;
    }
    let mut value: u64 = 0;
    let mut i: usize = from;
    while i < to
        invariant
            from <= i <= to <= input.len(),
            digits == input@.subrange(from as int, to as int),
            all_digits(digits.take(i - from)),
            value == digits_value(digits.take(i - from)),
            value <= limit,
        decreases to - i,
    {
        let b: u8 = input[i];
        assert(b == digits[i - from]);
        if !is_digit_byte(b) {
            return None;
        }
        let ghost longer = digits.take(i - from + 1);
        proof {
            assert(longer.drop_last() =~= digits.take(i - from));
            assert(longer.last() == b);
            lemma_digits_value_grows(digits, i - from + 1);
        }
        let d: u64 = (b - 0x30) as u64;
        if limit < d || value > (limit - d) / 10 {
            assert(digits_value(longer) > limit) by (nonlinear_arith)
                requires
                    digits_value(longer) == value * 10 + d,
                    limit < d || value > (limit - d) / 10,
                    0 <= d <= 9,
                    0 <= value,
            ;
            return None;
        }
        assert(value * 10 + d <= limit) by (nonlinear_arith)
            requires
                value <= (limit - d) / 10,
                d <= limit,
        ;
        value = value * 10 + d;
        i += 1;
    }
    assert(digits.take(i - from) =~= digits);
    Some(value)
}

// ----- the order of texts -----
/// Whether `a` stands before `b` in the lexicographic order of their bytes,
/// given that the two agree before index `i`.
pub open spec fn precedes_from(a: Seq<u8>, b: Seq<u8>, i: int) -> bool
    decreases a.len() - i,
{
    if i < 0 || i >= b.len() {
        false
    } else if i >= a.len() {
        true
    } else if a[i] != b[i] {
        a[i] < b[i]
    } else {
        precedes_from(a, b, i + 1)
    }
}

/// Whether `a` stands strictly before `b` in the lexicographic order of
/// bytes: at the first index where they differ `a` holds the smaller byte,
/// or `a` ends there and `b` goes on.
pub open spec fn precedes(a: Seq<u8>, b: Seq<u8>) -> bool {
    precedes_from(a, b, 0)
}

/// The order of two texts is the order of their bytes.
pub open spec fn text_precedes(a: Seq<char>, b: Seq<char>) -> bool {
    precedes(bytes_of(a), bytes_of(b))
}

proof fn lemma_precedes_from_total(a: Seq<u8>, b: Seq<u8>, i: int)
    requires
        0 <= i <= a.len(),
        i <= b.len(),
        forall|j: int| 0 <= j < i ==> a[j] == b[j],
    ensures
        precedes_from(a, b, i) || precedes_from(b, a, i) || a == b,
        !(precedes_from(a, b, i) && precedes_from(b, a, i)),
        a == b ==> !precedes_from(a, b, i),
    decreases a.len() - i,
{
    if i >= a.len() || i >= b.len() {
        if a.len() == b.len() {
            assert(a =~= b);
        }
    } else if a[i] == b[i] {
        lemma_precedes_from_total(a, b, i + 1);
    }
}

proof fn lemma_precedes_from_transitive(a: Seq<u8>, b: Seq<u8>, c: Seq<u8>, i: int)
    requires
        0 <= i,
        precedes_from(a, b, i),
        precedes_from(b, c, i),
        forall|j: int| 0 <= j < i && j < a.len() && j < b.len() ==> a[j] == b[j],
    ensures
        precedes_from(a, c, i),
    decreases a.len() - i,
{
    if i < a.len() && a[i] == b[i] && b[i] == c[i] {
        lemma_precedes_from_transitive(a, b, c, i + 1);
    }
}

/// Of two byte strings one stands before the other, or they are the same;
/// never two of these at once.
pub proof fn lemma_precedes_total(a: Seq<u8>, b: Seq<u8>)
    ensures
        precedes(a, b) || precedes(b, a) || a == b,
        !(precedes(a, b) && precedes(b, a)),
        a == b ==> !precedes(a, b),
{
    lemma_precedes_from_total(a, b, 0);
}

/// What stands before something that stands before a third stands before
/// the third.
pub proof fn lemma_precedes_transitive(a: Seq<u8>, b: Seq<u8>, c: Seq<u8>)
    requires
        precedes(a, b),
        precedes(b, c),
    ensures
        precedes(a, c),
{
    lemma_precedes_from_transitive(a, b, c, 0);
}

/// Whether `a` and `b` agree on their first `k` bytes and part there in
/// favour of `a`: `a` ends at `k` and `b` goes on, or `a` holds the smaller
/// byte at `k`.
pub open spec fn parts_at(a: Seq<u8>, b: Seq<u8>, k: int) -> bool {
    &&& 0 <= k <= a.len()
    &&& k <= b.len()
    &&& forall|j: int| 0 <= j < k ==> a[j] == b[j]
    &&& if k == a.len() {
        k < b.len()
    } else {
        k < b.len() && a[k] < b[k]
    }
}

proof fn lemma_precedes_from_parts(a: Seq<u8>, b: Seq<u8>, i: int)
    requires
        0 <= i <= a.len(),
        i <= b.len(),
        forall|j: int| 0 <= j < i ==> a[j] == b[j],
    ensures
        precedes_from(a, b, i) <==> exists|k: int| i <= k && #[trigger] parts_at(a, b, k),
    decreases a.len() - i,
{
    if i >= b.len() {
        assert forall|k: int| i <= k implies !#[trigger] parts_at(a, b, k) by {}
    } else if i >= a.len() {
        assert(parts_at(a, b, i));
    } else if a[i] != b[i] {
        if a[i] < b[i] {
            assert(parts_at(a, b, i));
        } else {
            assert forall|k: int| i <= k implies !#[trigger] parts_at(a, b, k) by {}
        }
    } else {
        lemma_precedes_from_parts(a, b, i + 1);
        if precedes_from(a, b, i + 1) {
            let k = choose|k: int| i + 1 <= k && #[trigger] parts_at(a, b, k);
            assert(i <= k && parts_at(a, b, k));
        }
        assert forall|k: int| i <= k && #[trigger] parts_at(a, b, k) implies i + 1 <= k by {}
    }
}

/// The order is the lexicographic one: `a` stands before `b` exactly when
/// the two agree up to a place where `a` ends and `b` goes on, or where `a`
/// holds the smaller byte.
pub proof fn law_precedes_is_lexicographic(a: Seq<u8>, b: Seq<u8>)
    ensures
        precedes(a, b) <==> exists|k: int| #[trigger] parts_at(a, b, k),
{
    lemma_precedes_from_parts(a, b, 0);
    if exists|k: int| #[trigger] parts_at(a, b, k) {
        let k = choose|k: int| #[trigger] parts_at(a, b, k);
        assert(0 <= k && parts_at(a, b, k));
    }
}

/// Whether `a` stands strictly before `b` in the lexicographic order of
/// bytes.
pub fn bytes_precede(a: &[u8], b: &[u8]) -> (r: bool)
    ensures
        r == precedes(a@, b@),
{
    let mut i: usize = 0;
    while i < a.len() && i < b.len()
        invariant
            i <= a.len(),
            i <= b.len(),
            precedes(a@, b@) == precedes_from(a@, b@, i as int),
        decreases a.len() - i,
    {
        if a[i] != b[i] {
            return a[i] < b[i];
        }
        i += 1;
    }
    i < b.len()
}

/// Whether text `a` stands strictly before text `b`.
pub fn text_precede(a: &str, b: &str) -> (r: bool)
    ensures
        r == text_precedes(a@, b@),
{
    bytes_precede(a.as_bytes(), b.as_bytes())
}

} // verus!
