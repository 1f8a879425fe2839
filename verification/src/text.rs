//! Text values: conversion between option bytes and strings, and comparison
//! of strings.

use std::string::FromUtf8Error;
use vstd::prelude::*;
use vstd::utf8::*;

verus! {

#[verifier::external_type_specification]
#[verifier::external_body]
pub struct ExFromUtf8Error(FromUtf8Error);

/// `String::from_utf8` succeeds exactly on valid UTF-8, and the string it
/// returns is made of the bytes it was given.
pub assume_specification[ String::from_utf8 ](vec: Vec<u8>) -> (text: Result<
    String,
    FromUtf8Error,
>)
    ensures
        text is Ok <==> valid_utf8(vec@),
        text matches Ok(s) ==> encode_utf8(s@) == vec@,
;

/// The text that `bytes` encode, if they are valid UTF-8.
pub open spec fn text_of(bytes: Seq<u8>) -> Option<Seq<char>> {
    if valid_utf8(bytes) {
        Some(decode_utf8(bytes))
    } else {
        None
    }
}

/// Reading back the bytes of a text gives the text.
pub proof fn lemma_text_of_bytes(text: Seq<char>)
    ensures
        text_of(encode_utf8(text)) == Some(text),
{
    encode_utf8_valid_utf8(text);
    encode_utf8_decode_utf8(text);
}

/// Decodes an option value as UTF-8 text.
pub fn decode_text(bytes: Vec<u8>) -> (text: Option<String>)
    ensures
        text is Some <==> valid_utf8(bytes@),
        text matches Some(s) ==> Some(s@) == text_of(bytes@),
{
    match String::from_utf8(bytes) {
        Ok(s) => {
            proof {
                encode_utf8_decode_utf8(s@);
            }
            Some(s)
        },
        Err(_) => None,
    }
}

/// The bytes of a text, as they are stored in an option value.
pub fn encode_text(text: &str) -> (bytes: Vec<u8>)
    ensures
        bytes@ == encode_utf8(text@),
{
    text.as_bytes_vec()
}

/// Whether two strings hold the same text.
pub fn same_text(a: &str, b: &str) -> (same: bool)
    ensures
        same == (a@ == b@),
{
    let x = a.as_bytes();
    let y = b.as_bytes();
    proof {
        encode_utf8_decode_utf8(a@);
        encode_utf8_decode_utf8(b@);
    }
    if x.len() != y.len() {
        return false;
    }
    let mut i: usize = 0;
    while i < x.len()
        invariant
            i <= x@.len(),
            x@.len() == y@.len(),
            x@ == encode_utf8(a@),
            y@ == encode_utf8(b@),
            x@.subrange(0, i as int) == y@.subrange(0, i as int),
        decreases x@.len() - i,
    {
        if x[i] != y[i] {
            return false;
        }
        proof {
            assert(x@.subrange(0, i + 1) == x@.subrange(0, i as int).push(x@[i as int]));
            assert(y@.subrange(0, i + 1) == y@.subrange(0, i as int).push(y@[i as int]));
        }
        i += 1;
    }
    proof {
        assert(x@ == x@.subrange(0, i as int));
        assert(y@ == y@.subrange(0, i as int));
    }
    true
}

/// Whether `bytes` begin with `prefix`.
pub open spec fn begins_with(bytes: Seq<u8>, prefix: Seq<u8>) -> bool {
    prefix.len() <= bytes.len() && bytes.subrange(0, prefix.len() as int) == prefix
}

/// The encoding of a text that has at least one character is the encoding of
/// the first character followed by the encoding of the rest.
proof fn lemma_encode_first(text: Seq<char>)
    requires
        text.len() > 0,
    ensures
        encode_utf8(text) == encode_scalar(text[0] as u32) + encode_utf8(text.drop_first()),
        encode_scalar(text[0] as u32).len() == length_of_first_scalar(encode_utf8(text)),
        1 <= encode_scalar(text[0] as u32).len() <= 4,
        decode_first_scalar(encode_utf8(text)) == text[0] as u32,
{
    encode_utf8_first_scalar(text);
}

/// A text begins with a prefix exactly if its bytes begin with the bytes of
/// the prefix.
pub proof fn lemma_prefix_by_bytes(text: Seq<char>, prefix: Seq<char>)
    ensures
        begins_with(encode_utf8(text), encode_utf8(prefix)) <==> prefix.is_prefix_of(text),
    decreases prefix.len(),
{
    let s = encode_utf8(text);
    let q = encode_utf8(prefix);
    if prefix.len() == 0 {
        assert(s.subrange(0, 0) =~= q);
    } else if text.len() == 0 {
        lemma_encode_first(prefix);
    } else {
        let rest_text = text.drop_first();
        let rest_prefix = prefix.drop_first();
        lemma_encode_first(prefix);
        lemma_encode_first(text);
        lemma_prefix_by_bytes(rest_text, rest_prefix);
        let head_text = encode_scalar(text[0] as u32);
        let head_prefix = encode_scalar(prefix[0] as u32);
        let k = head_prefix.len() as int;
        if begins_with(s, q) {
            assert forall|i: int| 0 <= i < q.len() implies s[i] == q[i] by {
                assert(s.subrange(0, q.len() as int)[i] == q[i]);
            }
            assert(s[0] == q[0]);
            assert(length_of_first_scalar(s) == length_of_first_scalar(q));
            assert(decode_first_scalar(s) == decode_first_scalar(q)) by {
                if k >= 2 {
                    assert(s[1] == q[1]);
                }
                if k >= 3 {
                    assert(s[2] == q[2]);
                }
                if k >= 4 {
                    assert(s[3] == q[3]);
                }
            }
            char_u32_cast(text[0], text[0] as u32);
            char_u32_cast(prefix[0], prefix[0] as u32);
            assert(text[0] == prefix[0]);
            assert(encode_utf8(rest_text) =~= s.subrange(k, s.len() as int));
            assert(encode_utf8(rest_prefix) =~= q.subrange(k, q.len() as int));
            assert(begins_with(encode_utf8(rest_text), encode_utf8(rest_prefix))) by {
                assert(encode_utf8(rest_text).subrange(0, encode_utf8(rest_prefix).len() as int)
                    =~= encode_utf8(rest_prefix));
            }
            assert(rest_prefix.is_prefix_of(rest_text));
            assert(prefix =~= text.subrange(0, prefix.len() as int)) by {
                assert forall|i: int| 0 <= i < prefix.len() implies prefix[i] == text[i] by {
                    if i > 0 {
                        assert(rest_prefix[i - 1] == rest_text.subrange(
                            0,
                            rest_prefix.len() as int,
                        )[i - 1]);
                    }
                }
            }
        }
        if prefix.is_prefix_of(text) {
            assert(text[0] == text.subrange(0, prefix.len() as int)[0]);
            assert(rest_prefix =~= rest_text.subrange(0, rest_prefix.len() as int));
            assert(begins_with(encode_utf8(rest_text), encode_utf8(rest_prefix)));
            assert(s.subrange(0, q.len() as int) =~= q) by {
                assert forall|i: int| 0 <= i < q.len() implies s[i] == q[i] by {
                    if i >= k {
                        assert(encode_utf8(rest_text).subrange(
                            0,
                            encode_utf8(rest_prefix).len() as int,
                        )[i - k] == encode_utf8(rest_prefix)[i - k]);
                    }
                }
            }
        }
    }
}

/// Whether `text` begins with `prefix`.
pub fn has_prefix(text: &str, prefix: &str) -> (found: bool)
    ensures
        found == prefix@.is_prefix_of(text@),
{
    let x = text.as_bytes();
    let y = prefix.as_bytes();
    proof {
        lemma_prefix_by_bytes(text@, prefix@);
    }
    if y.len() > x.len() {
        return false;
    }
    let mut i: usize = 0;
    while i < y.len()
        invariant
            i <= y@.len() <= x@.len(),
            x@ == encode_utf8(text@),
            y@ == encode_utf8(prefix@),
            begins_with(x@, y@) <==> prefix@.is_prefix_of(text@),
            x@.subrange(0, i as int) == y@.subrange(0, i as int),
        decreases y@.len() - i,
    {
        if x[i] != y[i] {
            assert(x@.subrange(0, y@.len() as int)[i as int] != y@[i as int]);
            return false;
        }
        proof {
            assert(x@.subrange(0, i + 1) == x@.subrange(0, i as int).push(x@[i as int]));
            assert(y@.subrange(0, i + 1) == y@.subrange(0, i as int).push(y@[i as int]));
        }
        i += 1;
    }
    proof {
        assert(y@ == y@.subrange(0, i as int));
    }
    true
}

/// The byte that separates the segments of a path: `/`.
pub const PATH_SEPARATOR: u8 = 0x2f;

/// The segments joined into one byte string, with a separator between each
/// two neighbours.
pub open spec fn join_path(segments: Seq<Seq<u8>>) -> Seq<u8>
    decreases segments.len(),
{
    if segments.len() == 0 {
        Seq::empty()
    } else if segments.len() == 1 {
        segments[0]
    } else {
        join_path(segments.drop_last()) + seq![PATH_SEPARATOR] + segments.last()
    }
}

/// The pieces between the separators of `bytes`, in order.  There is always
/// at least one piece, and a piece may be empty.
pub open spec fn split_path(bytes: Seq<u8>) -> Seq<Seq<u8>>
    decreases bytes.len(),
{
    if bytes.len() == 0 {
        seq![Seq::empty()]
    } else {
        let before = split_path(bytes.drop_last());
        if bytes.last() == PATH_SEPARATOR {
            before.push(Seq::empty())
        } else {
            before.update(before.len() - 1, before.last().push(bytes.last()))
        }
    }
}

/// Splitting gives at least one piece.
pub proof fn lemma_split_path_nonempty(bytes: Seq<u8>)
    ensures
        split_path(bytes).len() >= 1,
    decreases bytes.len(),
{
    if bytes.len() > 0 {
        lemma_split_path_nonempty(bytes.drop_last());
    }
}

/// Joining the pieces of a byte string gives the byte string back.
pub proof fn lemma_join_split_path(bytes: Seq<u8>)
    ensures
        join_path(split_path(bytes)) == bytes,
    decreases bytes.len(),
{
    if bytes.len() == 0 {
        assert(join_path(split_path(bytes)) =~= bytes);
    } else {
        let before = split_path(bytes.drop_last());
        lemma_split_path_nonempty(bytes.drop_last());
        lemma_join_split_path(bytes.drop_last());
        if bytes.last() == PATH_SEPARATOR {
            let pieces = before.push(Seq::empty());
            assert(pieces.drop_last() =~= before);
            assert(join_path(pieces) =~= bytes);
        } else {
            let grown = before.last().push(bytes.last());
            let pieces = before.update(before.len() - 1, grown);
            if before.len() == 1 {
                assert(join_path(pieces) =~= bytes);
            } else {
                assert(pieces.drop_last() =~= before.drop_last());
                assert(join_path(pieces) =~= join_path(before).push(bytes.last()));
                assert(join_path(pieces) =~= bytes);
            }
        }
    }
}

/// The texts joined into one, with a `/` between each two neighbours.
pub open spec fn join_texts(texts: Seq<Seq<char>>) -> Seq<char>
    decreases texts.len(),
{
    if texts.len() == 0 {
        Seq::empty()
    } else if texts.len() == 1 {
        texts[0]
    } else {
        join_texts(texts.drop_last()) + seq!['/'] + texts.last()
    }
}

/// Two byte strings with a separator between them are text exactly if both
/// are, and then the whole is the text of the first, a `/`, and the text of
/// the second.
proof fn lemma_separated_text(a: Seq<u8>, b: Seq<u8>)
    ensures
        valid_utf8(a + seq![PATH_SEPARATOR] + b) <==> valid_utf8(a) && valid_utf8(b),
        valid_utf8(a) && valid_utf8(b) ==> decode_utf8(a + seq![PATH_SEPARATOR] + b)
            == decode_utf8(a) + seq!['/'] + decode_utf8(b),
{
    let separator = seq![PATH_SEPARATOR];
    let slash = seq!['/'];
    assert(is_ascii_chars(slash));
    is_ascii_chars_encode_utf8(slash);
    assert(encode_utf8(slash) =~= separator);
    encode_utf8_valid_utf8(slash);
    encode_utf8_decode_utf8(slash);
    let whole = a + separator + b;
    let tail = separator + b;
    let index = a.len() as int;
    assert(whole.subrange(0, index) =~= a);
    assert(whole.subrange(index, whole.len() as int) =~= tail);
    assert(tail.subrange(0, 1) =~= separator);
    assert(tail.subrange(1, tail.len() as int) =~= b);
    if valid_utf8(a) && valid_utf8(b) {
        valid_utf8_concat(a, separator);
        valid_utf8_concat(a + separator, b);
    }
    if valid_utf8(whole) {
        assert(whole[index] == PATH_SEPARATOR);
        is_char_boundary_iff_not_is_continuation_byte(whole, index);
        valid_utf8_split(whole, index);
        assert(length_of_first_scalar(tail) == 1);
        assert(pop_first_scalar(tail) =~= b);
        assert(valid_utf8(b));
        assert(is_char_boundary(tail, 1)) by {
            reveal_with_fuel(is_char_boundary, 2);
        }
        decode_utf8_split(whole, index);
        decode_utf8_split(tail, 1);
    }
}

/// The texts of a list of byte strings that are valid UTF-8.
pub open spec fn segment_texts(segments: Seq<Seq<u8>>) -> Seq<Seq<char>> {
    segments.map_values(|s: Seq<u8>| decode_utf8(s))
}

/// The joined segments of a path are text exactly if every segment is, and
/// then their text is the texts of the segments with a `/` between each two
/// neighbours.
pub proof fn lemma_path_text(segments: Seq<Seq<u8>>)
    ensures
        valid_utf8(join_path(segments)) <==> forall|i: int|
            0 <= i < segments.len() ==> valid_utf8(#[trigger] segments[i]),
        valid_utf8(join_path(segments)) ==> decode_utf8(join_path(segments)) == join_texts(
            segment_texts(segments),
        ),
    decreases segments.len(),
{
    if segments.len() == 0 {
        assert(join_texts(segment_texts(segments)) =~= Seq::<char>::empty());
    } else if segments.len() == 1 {
        assert(join_texts(segment_texts(segments)) =~= decode_utf8(segments[0]));
    } else {
        let head = segments.drop_last();
        lemma_path_text(head);
        lemma_separated_text(join_path(head), segments.last());
        assert(segment_texts(segments).drop_last() =~= segment_texts(head));
        if valid_utf8(join_path(segments)) {
            assert forall|i: int| 0 <= i < segments.len() implies valid_utf8(
                #[trigger] segments[i],
            ) by {
                if i < head.len() {
                    assert(head[i] == segments[i]);
                }
            }
        }
        if forall|i: int| 0 <= i < segments.len() ==> valid_utf8(#[trigger] segments[i]) {
            assert forall|i: int| 0 <= i < head.len() implies valid_utf8(#[trigger] head[i]) by {
                assert(head[i] == segments[i]);
            }
            assert(valid_utf8(segments.last()));
        }
    }
}

/// The pieces of the bytes of a text are text themselves, and their texts
/// with a `/` between each two neighbours are the text.
pub proof fn lemma_split_text(text: Seq<char>)
    ensures
        forall|i: int|
            0 <= i < split_path(encode_utf8(text)).len() ==> valid_utf8(
                #[trigger] split_path(encode_utf8(text))[i],
            ),
        join_texts(segment_texts(split_path(encode_utf8(text)))) == text,
{
    lemma_join_split_path(encode_utf8(text));
    lemma_text_of_bytes(text);
    lemma_path_text(split_path(encode_utf8(text)));
}

/// The values of a list of byte vectors.
pub open spec fn segments_view(segments: Seq<Vec<u8>>) -> Seq<Seq<u8>> {
    segments.map_values(|v: Vec<u8>| v@)
}

/// Joins the segments of a path, with a separator between each two
/// neighbours.
pub fn join_segments(segments: &Vec<Vec<u8>>) -> (joined: Vec<u8>)
    ensures
        joined@ == join_path(segments_view(segments@)),
{
    let mut joined: Vec<u8> = Vec::new();
    let mut i: usize = 0;
    while i < segments.len()
        invariant
            i <= segments@.len(),
            joined@ == join_path(segments_view(segments@).take(i as int)),
        decreases segments@.len() - i,
    {
        let ghost before = segments_view(segments@).take(i as int);
        let ghost now = segments_view(segments@).take(i + 1);
        if i > 0 {
            joined.push(PATH_SEPARATOR);
        }
        let segment = &segments[i];
        let mut k: usize = 0;
        while k < segment.len()
            invariant
                k <= segment@.len(),
                i < segments@.len(),
                segment@ == segments@[i as int]@,
                before == segments_view(segments@).take(i as int),
                joined@ == (if i > 0 {
                    join_path(before) + seq![PATH_SEPARATOR]
                } else {
                    Seq::<u8>::empty()
                }) + segment@.take(k as int),
            decreases segment@.len() - k,
        {
            joined.push(segment[k]);
            proof {
                assert(segment@.take(k + 1) == segment@.take(k as int).push(segment@[k as int]));
            }
            k += 1;
        }
        proof {
            assert(segment@.take(k as int) == segment@);
            assert(now.drop_last() =~= before);
            assert(now.last() == segment@);
            assert(joined@ =~= join_path(now));
        }
        i += 1;
    }
    proof {
        assert(segments_view(segments@).take(i as int) =~= segments_view(segments@));
    }
    joined
}

/// Splits a path at its separators.
pub fn split_segments(bytes: &[u8]) -> (segments: Vec<Vec<u8>>)
    ensures
        segments_view(segments@) == split_path(bytes@),
{
    let mut segments: Vec<Vec<u8>> = Vec::new();
    let mut current: Vec<u8> = Vec::new();
    let mut i: usize = 0;
    proof {
        assert(segments_view(segments@).push(current@) =~= split_path(bytes@.take(0)));
    }
    while i < bytes.len()
        invariant
            i <= bytes@.len(),
            segments_view(segments@).push(current@) == split_path(bytes@.take(i as int)),
        decreases bytes@.len() - i,
    {
        let ghost before = split_path(bytes@.take(i as int));
        proof {
            assert(bytes@.take(i + 1).drop_last() =~= bytes@.take(i as int));
            assert(bytes@.take(i + 1).last() == bytes@[i as int]);
        }
        if bytes[i] == PATH_SEPARATOR {
            segments.push(current);
            current = Vec::new();
            proof {
                assert(segments_view(segments@).push(current@) =~= before.push(Seq::empty()));
            }
        } else {
            current.push(bytes[i]);
            proof {
                assert(segments_view(segments@).push(current@) =~= before.update(
                    before.len() - 1,
                    before.last().push(bytes@[i as int]),
                ));
            }
        }
        i += 1;
    }
    proof {
        assert(bytes@.take(i as int) =~= bytes@);
    }
    segments.push(current);
    proof {
        assert(segments_view(segments@) =~= split_path(bytes@));
    }
    segments
}

/// The character that stands for the digit `d`, which is 0 to 9.
pub open spec fn digit_char(d: int) -> char {
    (48 + d) as char
}

/// Whether `c` is one of the ten decimal digits.
pub open spec fn is_digit(c: char) -> bool {
    '0' <= c <= '9'
}

/// A number written in decimal digits, without a sign and without leading
/// zeros.
pub open spec fn decimal_text(n: nat) -> Seq<char>
    decreases n,
{
    if n < 10 {
        seq![digit_char(n as int)]
    } else {
        decimal_text(n / 10).push(digit_char((n % 10) as int))
    }
}

/// Whether `text` is made of decimal digits only.
pub open spec fn all_digits(text: Seq<char>) -> bool {
    forall|i: int| 0 <= i < text.len() ==> is_digit(#[trigger] text[i])
}

/// The digit that `c` stands for; 0 if it stands for none.
pub open spec fn digit_value(c: char) -> nat {
    if is_digit(c) {
        (c as int - 48) as nat
    } else {
        0
    }
}

/// The number that a string of decimal digits stands for.
pub open spec fn digits_value(text: Seq<char>) -> nat
    decreases text.len(),
{
    if text.len() == 0 {
        0
    } else {
        digits_value(text.drop_last()) * 10 + digit_value(text.last())
    }
}

/// The digits of a number's name: the name itself, or what follows a plus
/// sign at its head.
pub open spec fn number_digits(name: Seq<char>) -> Seq<char> {
    if name.len() > 0 && name[0] == '+' {
        name.drop_first()
    } else {
        name
    }
}

/// The option number that `name` stands for: one or more decimal digits,
/// after an optional plus sign, whose value is a 16-bit number.  Leading zeros
/// are accepted.  Every other name stands for none.
pub open spec fn option_number_named(name: Seq<char>) -> Option<u16> {
    let digits = number_digits(name);
    if digits.len() > 0 && all_digits(digits) && digits_value(digits) <= u16::MAX {
        Some(digits_value(digits) as u16)
    } else {
        None
    }
}

/// The decimal text of a number is made of digits and stands for the number.
pub proof fn lemma_decimal_text(n: nat)
    ensures
        decimal_text(n).len() > 0,
        all_digits(decimal_text(n)),
        digits_value(decimal_text(n)) == n,
    decreases n,
{
    if n < 10 {
        let text = decimal_text(n);
        assert(text.drop_last() =~= Seq::<char>::empty());
        assert(digits_value(text.drop_last()) == 0);
    } else {
        lemma_decimal_text(n / 10);
        let text = decimal_text(n);
        assert(text.drop_last() =~= decimal_text(n / 10));
    }
}

/// An option number is found again by its decimal text.
pub proof fn lemma_option_number_named(number: u16)
    ensures
        option_number_named(decimal_text(number as nat)) == Some(number),
{
    lemma_decimal_text(number as nat);
    let text = decimal_text(number as nat);
    assert(is_digit(text[0]));
}

/// A string of digits is worth at least as much as any of its heads.
proof fn lemma_digits_value_grows(text: Seq<char>, k: int)
    requires
        0 <= k <= text.len(),
    ensures
        digits_value(text.take(k)) <= digits_value(text),
    decreases text.len() - k,
{
    if k < text.len() {
        lemma_digits_value_grows(text, k + 1);
        assert(text.take(k + 1).drop_last() =~= text.take(k));
        assert(digits_value(text.take(k)) * 10 >= digits_value(text.take(k))) by (nonlinear_arith);
    } else {
        assert(text.take(k) =~= text);
    }
}

/// The bytes of a text whose characters all fit in one byte.
pub open spec fn ascii_bytes(text: Seq<char>) -> Seq<u8> {
    text.map_values(|c: char| c as u8)
}

/// Decimal digits are ASCII, so their bytes are their UTF-8 encoding.
proof fn lemma_decimal_text_bytes(n: nat)
    ensures
        encode_utf8(decimal_text(n)) == ascii_bytes(decimal_text(n)),
{
    lemma_decimal_text(n);
    let text = decimal_text(n);
    assert(is_ascii_chars(text)) by {
        assert forall|i: int| 0 <= i < text.len() implies '\0' <= #[trigger] text[i]
            <= '\u{7f}' by {
            assert(is_digit(text[i]));
        }
    }
    is_ascii_chars_encode_utf8(text);
    assert(encode_utf8(text) =~= ascii_bytes(text));
}

/// Appends the decimal digits of `number` to `bytes`.
fn push_decimal(number: u16, bytes: &mut Vec<u8>)
    ensures
        final(bytes)@ == old(bytes)@ + ascii_bytes(decimal_text(number as nat)),
    decreases number,
{
    if number >= 10 {
        push_decimal(number / 10, bytes);
    }
    let digit: u8 = (number % 10) as u8;
    bytes.push(48 + digit);
    proof {
        let text = decimal_text(number as nat);
        if number >= 10 {
            assert(ascii_bytes(text) =~= ascii_bytes(decimal_text((number / 10) as nat)).push(
                (48 + digit) as u8,
            ));
        } else {
            assert(ascii_bytes(text) =~= seq![(48 + digit) as u8]);
        }
        assert(bytes@ =~= old(bytes)@ + ascii_bytes(text));
    }
}

/// The name of an option number: its decimal text.
pub fn option_number_name(number: u16) -> (name: String)
    ensures
        name@ == decimal_text(number as nat),
{
    let mut bytes: Vec<u8> = Vec::new();
    push_decimal(number, &mut bytes);
    proof {
        lemma_decimal_text_bytes(number as nat);
        assert(bytes@ =~= encode_utf8(decimal_text(number as nat)));
        lemma_text_of_bytes(decimal_text(number as nat));
    }
    match decode_text(bytes) {
        Some(name) => name,
        None => String::new(),
    }
}

/// Reads an option number from its name.
pub fn parse_option_number(name: &str) -> (number: Option<u16>)
    ensures
        number == option_number_named(name@),
{
    let ghost digits = number_digits(name@);
    if !name.is_ascii() {
        proof {
            let i = choose|i: int| 0 <= i < name@.len() && !('\0' <= #[trigger] name@[i] <= '\u{7f}');
            if digits.len() < name@.len() {
                assert(name@[0] == '+');
                assert(!is_digit(digits[i - 1]));
            } else {
                assert(!is_digit(digits[i]));
            }
        }
        return None;
    }
    let bytes = name.as_bytes();
    proof {
        vstd::string::is_ascii_spec_bytes(name);
        assert(bytes@.len() == name@.len());
        assert(forall|i: int| 0 <= i < name@.len() ==> bytes@[i] == name@[i] as u8);
    }
    let start: usize = if bytes.len() > 0 && bytes[0] == 0x2b {
        1
    } else {
        0
    };
    proof {
        assert(digits =~= name@.subrange(start as int, name@.len() as int));
    }
    if start == bytes.len() {
        return None;
    }
    let mut value: u32 = 0;
    let mut i: usize = start;
    proof {
        assert(digits.take(0) =~= Seq::<char>::empty());
    }
    while i < bytes.len()
        invariant
            start <= i <= bytes@.len(),
            bytes@.len() == name@.len(),
            forall|k: int| 0 <= k < name@.len() ==> bytes@[k] == name@[k] as u8,
            forall|k: int| 0 <= k < name@.len() ==> '\0' <= #[trigger] name@[k] <= '\u{7f}',
            digits == name@.subrange(start as int, name@.len() as int),
            digits == number_digits(name@),
            all_digits(digits.take(i - start)),
            value == digits_value(digits.take(i - start)),
            value <= u16::MAX,
        decreases bytes@.len() - i,
    {
        let b = bytes[i];
        let ghost c = digits[i - start];
        proof {
            assert(c == name@[i as int]);
            assert('\0' <= name@[i as int] <= '\u{7f}');
            assert(bytes@[i as int] == name@[i as int] as u8);
            assert(c as int == b as int);
            assert(digits.take(i - start + 1).drop_last() =~= digits.take(i - start));
            assert(digits.take(i - start + 1).last() == c);
            assert(digits_value(digits.take(i - start + 1)) == digits_value(
                digits.take(i - start),
            ) * 10 + digit_value(c));
        }
        if b < 0x30 || b > 0x39 {
            proof {
                assert(!is_digit(c));
            }
            return None;
        }
        value = value * 10 + (b - 0x30) as u32;
        proof {
            assert(is_digit(c));
            assert(all_digits(digits.take(i - start + 1))) by {
                assert forall|k: int| 0 <= k < i - start + 1 implies is_digit(
                    #[trigger] digits.take(i - start + 1)[k],
                ) by {
                    if k < i - start {
                        assert(digits.take(i - start + 1)[k] == digits.take(i - start)[k]);
                    }
                }
            }
        }
        if value > 0xffff {
            proof {
                lemma_digits_value_grows(digits, i - start + 1);
            }
            return None;
        }
        i += 1;
    }
    proof {
        assert(digits.take(i - start) =~= digits);
    }
    Some(value as u16)
}

} // verus!
