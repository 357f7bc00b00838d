//! The decoder: from a buffer to the tree of values that it encodes.

use crate::error::DecodeError;
use crate::laws::lemma_parse_errors_are_syntax;
use crate::syntax::{
    digits_end, digits_value, is_digit, lemma_bytes_advance, lemma_digits_end,
    lemma_value_advances, lemma_value_spans, lemma_value_well_formed, parse, parse_bytes,
    parse_dictionary_tail, parse_integer, parse_list_tail, parse_value, spans_hold, COLON,
    DICTIONARY_START, END, INTEGER_START, LIST_START, MAX_DEPTH, MINUS, ZERO,
};
use crate::value::{
    entries_view, items_view, position_of_key, BencodeValue, Dictionary, ValueView,
};
use vstd::prelude::*;
use vstd::slice::{slice_subrange, slice_to_vec};

verus! {

/// Whether `byte` is one of `0` to `9`.
pub fn is_digit_byte(byte: u8) -> (digit: bool)
    ensures
        digit == is_digit(byte),
{
    0x30 <= byte && byte <= 0x39
}

/// The number written by the digits up to `to` is at least the number written
/// by those up to `mid`.
proof fn lemma_digits_value_grows(s: Seq<u8>, from: int, mid: int, to: int)
    requires
        from <= mid <= to,
        forall|i: int| from <= i < to ==> is_digit(#[trigger] s[i]),
    ensures
        digits_value(s, from, mid) <= digits_value(s, from, to),
    decreases to - mid,
{
    if mid < to {
        lemma_digits_value_grows(s, from, mid, to - 1);
    }
}

/// The end of the run of digits that starts at `pos`.
fn scan_digits(source: &[u8], pos: usize) -> (end: usize)
    requires
        pos <= source@.len(),
    ensures
        end == digits_end(source@, pos as int),
        pos <= end <= source@.len(),
{
    let mut i = pos;
    while i < source.len() && is_digit_byte(source[i])
        invariant
            pos <= i <= source@.len(),
            digits_end(source@, pos as int) == digits_end(source@, i as int),
        decreases source@.len() - i,
    {
        i += 1;
    }
    i
}

/// The number written by the digits from `from` up to `to`, if it fits in 64
/// bits.
fn digits_magnitude(source: &[u8], from: usize, to: usize) -> (magnitude: Option<u64>)
    requires
        from <= to <= source@.len(),
        forall|i: int| from <= i < to ==> is_digit(#[trigger] source@[i]),
    ensures
        match magnitude {
            Some(m) => m == digits_value(source@, from as int, to as int),
            None => digits_value(source@, from as int, to as int) > u64::MAX,
        },
{
    let mut value: u64 = 0;
    let mut i = from;
    while i < to
        invariant
            from <= i <= to <= source@.len(),
            forall|j: int| from <= j < to ==> is_digit(#[trigger] source@[j]),
            value == digits_value(source@, from as int, i as int),
        decreases to - i,
    {
        let digit: u64 = (source[i] - ZERO) as u64;
        proof {
            lemma_digits_value_grows(source@, from as int, i + 1, to as int);
        }
        let next = match value.checked_mul(10) {
            Some(tens) => tens.checked_add(digit),
            None => None,
        };
        match next {
            Some(n) => {
                value = n;
            },
            None => {
                return None;
            },
        }
        i += 1;
    }
    Some(value)
}

/// Whether what a decoding step returned is what the grammar says.
pub open spec fn value_decoded(
    result: Result<(BencodeValue, usize), DecodeError>,
    expected: Result<(ValueView, int), DecodeError>,
) -> bool {
    match result {
        Ok((value, next)) => expected == Ok::<(ValueView, int), DecodeError>(
            (value@, next as int),
        ),
        Err(e) => expected == Err::<(ValueView, int), DecodeError>(e),
    }
}

/// Decodes the integer that starts at `pos` and returns it with the position
/// after it.
pub fn decode_integer(source: &[u8], pos: usize) -> (result: Result<(i64, usize), DecodeError>)
    ensures
        match result {
            Ok((n, next)) => parse_integer(source@, pos as int) == Ok::<(int, int), DecodeError>(
                (n as int, next as int),
            ),
            Err(e) => parse_integer(source@, pos as int) == Err::<(int, int), DecodeError>(e),
        },
{
    let len = source.len();
    if pos >= len {
        return Err(DecodeError::UnexpectedEnd { position: len });
    }
    if source[pos] != INTEGER_START {
        return Err(DecodeError::MalformedInteger { position: pos });
    }
    let negative = pos + 1 < len && source[pos + 1] == MINUS;
    if negative && pos + 2 >= len || pos + 1 >= len {
        return Err(DecodeError::UnexpectedEnd { position: len });
    }
    let first = if negative {
        pos + 2
    } else {
        pos + 1
    };
    if !is_digit_byte(source[first]) {
        return Err(DecodeError::MalformedInteger { position: first });
    }
    if negative && source[first] == ZERO {
        return Err(DecodeError::MalformedInteger { position: first });
    }
    let end = scan_digits(source, first);
    proof {
        lemma_digits_end(source@, first as int);
    }
    if source[first] == ZERO && end > first + 1 {
        return Err(DecodeError::MalformedInteger { position: first + 1 });
    }
    if end >= len {
        return Err(DecodeError::UnexpectedEnd { position: len });
    }
    if source[end] != END {
        return Err(DecodeError::MalformedInteger { position: end });
    }
    match digits_magnitude(source, first, end) {
        None => Err(DecodeError::IntegerOutOfRange { position: pos }),
        Some(magnitude) => {
            if negative {
                if magnitude > 0x8000_0000_0000_0000 {
                    Err(DecodeError::IntegerOutOfRange { position: pos })
                } else if magnitude == 0x8000_0000_0000_0000 {
                    Ok((i64::MIN, end + 1))
                } else {
                    Ok((-(magnitude as i64), end + 1))
                }
            } else {
                if magnitude > 0x7fff_ffff_ffff_ffff {
                    Err(DecodeError::IntegerOutOfRange { position: pos })
                } else {
                    Ok((magnitude as i64, end + 1))
                }
            }
        },
    }
}

/// Decodes the byte string that starts at `pos` and returns it with the
/// position after it.
pub fn decode_bytes(source: &[u8], pos: usize) -> (result: Result<(Vec<u8>, usize), DecodeError>)
    ensures
        match result {
            Ok((bytes, next)) => parse_bytes(source@, pos as int) == Ok::<
                (Seq<u8>, int),
                DecodeError,
            >((bytes@, next as int)),
            Err(e) => parse_bytes(source@, pos as int) == Err::<(Seq<u8>, int), DecodeError>(e),
        },
{
    let len = source.len();
    if pos >= len {
        return Err(DecodeError::UnexpectedEnd { position: len });
    }
    if !is_digit_byte(source[pos]) {
        return Err(DecodeError::MalformedLength { position: pos });
    }
    let colon = scan_digits(source, pos);
    proof {
        lemma_digits_end(source@, pos as int);
    }
    if source[pos] == ZERO && colon > pos + 1 {
        return Err(DecodeError::MalformedLength { position: pos + 1 });
    }
    if colon >= len {
        return Err(DecodeError::UnexpectedEnd { position: len });
    }
    if source[colon] != COLON {
        return Err(DecodeError::MalformedLength { position: colon });
    }
    let room = len - colon - 1;
    match digits_magnitude(source, pos, colon) {
        None => Err(DecodeError::UnexpectedEnd { position: len }),
        Some(length) => {
            if length > room as u64 {
                Err(DecodeError::UnexpectedEnd { position: len })
            } else {
                let start = colon + 1;
                let end = start + length as usize;
                let bytes = slice_to_vec(slice_subrange(source, start, end));
                Ok((bytes, end))
            }
        },
    }
}

/// Decodes the value that starts at `pos`, inside `depth` lists and
/// dictionaries.
pub fn decode_nested(source: &[u8], pos: usize, depth: usize) -> (result: Result<
    (BencodeValue, usize),
    DecodeError,
>)
    ensures
        value_decoded(result, parse_value(source@, pos as int, depth as nat)),
    decreases source@.len() - pos, 0int,
{
    let len = source.len();
    if pos >= len {
        return Err(DecodeError::UnexpectedEnd { position: len });
    }
    let first = source[pos];
    if first == INTEGER_START {
        match decode_integer(source, pos) {
            Ok((n, next)) => Ok((BencodeValue::Integer(n), next)),
            Err(e) => Err(e),
        }
    } else if is_digit_byte(first) {
        match decode_bytes(source, pos) {
            Ok((bytes, next)) => Ok((BencodeValue::ByteString(bytes), next)),
            Err(e) => Err(e),
        }
    } else if first == LIST_START {
        if depth >= MAX_DEPTH {
            Err(DecodeError::NestingTooDeep { position: pos })
        } else {
            match decode_list_tail(source, pos + 1, depth + 1) {
                Ok((items, next)) => Ok((BencodeValue::List(items), next)),
                Err(e) => Err(e),
            }
        }
    } else if first == DICTIONARY_START {
        if depth >= MAX_DEPTH {
            Err(DecodeError::NestingTooDeep { position: pos })
        } else {
            match decode_dictionary_tail(source, pos + 1, depth + 1) {
                Ok((entries, next)) => Ok(
                    (BencodeValue::Dictionary(Dictionary { entries, start: pos, end: next }), next),
                ),
                Err(e) => Err(e),
            }
        }
    } else {
        Err(DecodeError::InvalidToken { position: pos })
    }
}

/// Decodes the items of the list whose first item starts at `pos`.
fn decode_list_tail(source: &[u8], pos: usize, depth: usize) -> (result: Result<
    (Vec<BencodeValue>, usize),
    DecodeError,
>)
    requires
        pos <= source@.len(),
    ensures
        match result {
            Ok((items, next)) => parse_list_tail(source@, pos as int, depth as nat, Seq::empty())
                == Ok::<(Seq<ValueView>, int), DecodeError>((items_view(items@), next as int)),
            Err(e) => parse_list_tail(source@, pos as int, depth as nat, Seq::empty()) == Err::<
                (Seq<ValueView>, int),
                DecodeError,
            >(e),
        },
    decreases source@.len() - pos, 1int,
{
    let len = source.len();
    let mut items: Vec<BencodeValue> = Vec::new();
    let mut cur = pos;
    assert(items_view(items@) =~= Seq::<ValueView>::empty());
    loop
        invariant
            len == source@.len(),
            pos <= cur <= len,
            parse_list_tail(source@, pos as int, depth as nat, Seq::empty()) == parse_list_tail(
                source@,
                cur as int,
                depth as nat,
                items_view(items@),
            ),
        decreases len - cur,
    {
        if cur >= len {
            return Err(DecodeError::UnexpectedEnd { position: len });
        }
        if source[cur] == END {
            return Ok((items, cur + 1));
        }
        let (item, next) = decode_nested(source, cur, depth)?;
        proof {
            lemma_value_advances(source@, cur as int, depth as nat);
            assert(items_view(items@.push(item)) =~= items_view(items@).push(item@));
        }
        items.push(item);
        cur = next;
    }
}

/// Decodes the entries of the dictionary whose first key starts at `pos`.
fn decode_dictionary_tail(source: &[u8], pos: usize, depth: usize) -> (result: Result<
    (Vec<(Vec<u8>, BencodeValue)>, usize),
    DecodeError,
>)
    requires
        pos <= source@.len(),
    ensures
        match result {
            Ok((entries, next)) => parse_dictionary_tail(
                source@,
                pos as int,
                depth as nat,
                Seq::empty(),
            ) == Ok::<(Seq<(Seq<u8>, ValueView)>, int), DecodeError>(
                (entries_view(entries@), next as int),
            ),
            Err(e) => parse_dictionary_tail(source@, pos as int, depth as nat, Seq::empty())
                == Err::<(Seq<(Seq<u8>, ValueView)>, int), DecodeError>(e),
        },
    decreases source@.len() - pos, 1int,
{
    let len = source.len();
    let mut entries: Vec<(Vec<u8>, BencodeValue)> = Vec::new();
    let mut cur = pos;
    assert(entries_view(entries@) =~= Seq::<(Seq<u8>, ValueView)>::empty());
    loop
        invariant
            len == source@.len(),
            pos <= cur <= len,
            parse_dictionary_tail(source@, pos as int, depth as nat, Seq::empty())
                == parse_dictionary_tail(
                source@,
                cur as int,
                depth as nat,
                entries_view(entries@),
            ),
        decreases len - cur,
    {
        if cur >= len {
            return Err(DecodeError::UnexpectedEnd { position: len });
        }
        if source[cur] == END {
            return Ok((entries, cur + 1));
        }
        if !is_digit_byte(source[cur]) {
            return Err(DecodeError::NonStringKey { position: cur });
        }
        let (key, value_start) = decode_bytes(source, cur)?;
        proof {
            lemma_bytes_advance(source@, cur as int);
        }
        let (value, next) = decode_nested(source, value_start, depth)?;
        proof {
            lemma_value_advances(source@, value_start as int, depth as nat);
        }
        if position_of_key(&entries, key.as_slice()).is_none() {
            proof {
                assert(entries_view(entries@.push((key, value))) =~= entries_view(
                    entries@,
                ).push((key@, value@)));
            }
            entries.push((key, value));
        }
        cur = next;
    }
}

/// Decodes the value that starts at `pos` and returns it with the position
/// after it.
///
/// The result is what the grammar gives for the buffer and the position: the
/// value and the position after it, or the error of the first byte that the
/// grammar refuses.
pub fn decode_value(source: &[u8], pos: usize) -> (result: Result<
    (BencodeValue, usize),
    DecodeError,
>)
    ensures
        value_decoded(result, parse_value(source@, pos as int, 0)),
        result matches Ok((value, next)) ==> {
            &&& pos < next <= source@.len()
            &&& value@.well_formed(source@.len() as int)
            &&& spans_hold(value@, source@, 0)
        },
        result matches Err(e) ==> e.is_syntax(),
{
    proof {
        lemma_value_advances(source@, pos as int, 0);
        lemma_value_well_formed(source@, pos as int, 0);
        lemma_value_spans(source@, pos as int, 0);
        lemma_parse_errors_are_syntax(source@, pos as int, 0);
    }
    decode_nested(source, pos, 0)
}

/// Decodes the value that the buffer starts with. Bytes after it are not
/// read.
pub fn decode(source: &[u8]) -> (result: Result<BencodeValue, DecodeError>)
    ensures
        match result {
            Ok(value) => parse(source@) == Ok::<ValueView, DecodeError>(value@),
            Err(e) => parse(source@) == Err::<ValueView, DecodeError>(e),
        },
        result matches Ok(value) ==> value@.well_formed(source@.len() as int) && spans_hold(
            value@,
            source@,
            0,
        ),
        result matches Err(e) ==> e.is_syntax(),
{
    proof {
        lemma_value_well_formed(source@, 0, 0);
        lemma_value_spans(source@, 0, 0);
        lemma_parse_errors_are_syntax(source@, 0, 0);
    }
    match decode_nested(source, 0, 0) {
        Ok((value, _)) => Ok(value),
        Err(e) => Err(e),
    }
}

} // verus!
