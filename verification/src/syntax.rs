//! The grammar of bencode, as functions from a buffer and a position to the
//! value that is encoded there and the position after it.

use crate::error::DecodeError;
use crate::value::{has_key, keys_unique, lemma_find_key, DictionaryView, ValueView};
use vstd::prelude::*;

verus! {

/// How deeply lists and dictionaries may be nested.
pub const MAX_DEPTH: usize = 2048;

/// `i`, which starts an integer.
pub const INTEGER_START: u8 = 0x69;

/// `l`, which starts a list.
pub const LIST_START: u8 = 0x6c;

/// `d`, which starts a dictionary.
pub const DICTIONARY_START: u8 = 0x64;

/// `e`, which ends an integer, a list or a dictionary.
pub const END: u8 = 0x65;

/// `:`, which stands between the length of a byte string and its bytes.
pub const COLON: u8 = 0x3a;

/// `-`, the sign of a negative integer.
pub const MINUS: u8 = 0x2d;

/// `0`, the first of the ten digits.
pub const ZERO: u8 = 0x30;

/// Whether `byte` is one of `0` to `9`.
pub open spec fn is_digit(byte: u8) -> bool {
    0x30 <= byte <= 0x39
}

/// The end of the run of digits that starts at `pos`: the first position
/// from `pos` on that holds no digit.
pub open spec fn digits_end(s: Seq<u8>, pos: int) -> int
    decreases s.len() - pos,
{
    if 0 <= pos < s.len() && is_digit(s[pos]) {
        digits_end(s, pos + 1)
    } else {
        pos
    }
}

/// The number that the digits of `s` from `from` up to `to` write in base ten.
pub open spec fn digits_value(s: Seq<u8>, from: int, to: int) -> nat
    decreases to - from,
{
    if from >= to {
        0
    } else {
        (digits_value(s, from, to - 1) * 10 + (s[to - 1] - ZERO)) as nat
    }
}

/// The integer that starts at `pos`, and the position after its `e`.
///
/// An integer is `i`, an optional `-`, digits and `e`. Zero is written `0`;
/// no other number starts with `0`, and `-0` is no number.
pub open spec fn parse_integer(s: Seq<u8>, pos: int) -> Result<(int, int), DecodeError> {
    let negative = pos + 1 < s.len() && s[pos + 1] == MINUS;
    let first = if negative {
        pos + 2
    } else {
        pos + 1
    };
    let end = digits_end(s, first);
    if pos < 0 || pos >= s.len() {
        Err(DecodeError::UnexpectedEnd { position: s.len() as usize })
    } else if s[pos] != INTEGER_START {
        Err(DecodeError::MalformedInteger { position: pos as usize })
    } else if first >= s.len() {
        Err(DecodeError::UnexpectedEnd { position: s.len() as usize })
    } else if !is_digit(s[first]) {
        Err(DecodeError::MalformedInteger { position: first as usize })
    } else if negative && s[first] == ZERO {
        Err(DecodeError::MalformedInteger { position: first as usize })
    } else if s[first] == ZERO && end > first + 1 {
        Err(DecodeError::MalformedInteger { position: (first + 1) as usize })
    } else if end >= s.len() {
        Err(DecodeError::UnexpectedEnd { position: s.len() as usize })
    } else if s[end] != END {
        Err(DecodeError::MalformedInteger { position: end as usize })
    } else {
        let magnitude = digits_value(s, first, end);
        let value = if negative {
            -magnitude
        } else {
            magnitude as int
        };
        if i64::MIN <= value <= i64::MAX {
            Ok((value, end + 1))
        } else {
            Err(DecodeError::IntegerOutOfRange { position: pos as usize })
        }
    }
}

/// The byte string that starts at `pos`, and the position after its last
/// byte.
///
/// A byte string is its length in digits, `:` and that many bytes. The
/// length zero is written `0`; no other length starts with `0`.
pub open spec fn parse_bytes(s: Seq<u8>, pos: int) -> Result<(Seq<u8>, int), DecodeError> {
    let colon = digits_end(s, pos);
    let length = digits_value(s, pos, colon);
    if pos < 0 || pos >= s.len() {
        Err(DecodeError::UnexpectedEnd { position: s.len() as usize })
    } else if !is_digit(s[pos]) {
        Err(DecodeError::MalformedLength { position: pos as usize })
    } else if s[pos] == ZERO && colon > pos + 1 {
        Err(DecodeError::MalformedLength { position: (pos + 1) as usize })
    } else if colon >= s.len() {
        Err(DecodeError::UnexpectedEnd { position: s.len() as usize })
    } else if s[colon] != COLON {
        Err(DecodeError::MalformedLength { position: colon as usize })
    } else if colon + 1 + length > s.len() {
        Err(DecodeError::UnexpectedEnd { position: s.len() as usize })
    } else {
        Ok((s.subrange(colon + 1, colon + 1 + length), colon + 1 + length))
    }
}

/// The entries with `key` and `value` added at the end, unless an entry has
/// that key already: the first of two entries with one key stays.
pub open spec fn with_entry(
    entries: Seq<(Seq<u8>, ValueView)>,
    key: Seq<u8>,
    value: ValueView,
) -> Seq<(Seq<u8>, ValueView)> {
    if has_key(entries, key) {
        entries
    } else {
        entries.push((key, value))
    }
}

/// The value that starts at `pos`, inside `depth` lists and dictionaries,
/// and the position after it.
///
/// The first byte tells the kind: `i` an integer, a digit a byte string, `l`
/// a list, `d` a dictionary. A list or dictionary inside `MAX_DEPTH` others
/// is refused.
pub open spec fn parse_value(s: Seq<u8>, pos: int, depth: nat) -> Result<
    (ValueView, int),
    DecodeError,
>
    decreases s.len() - pos, 0int,
{
    if pos < 0 || pos >= s.len() {
        Err(DecodeError::UnexpectedEnd { position: s.len() as usize })
    } else if s[pos] == INTEGER_START {
        match parse_integer(s, pos) {
            Ok((n, next)) => Ok((ValueView::Integer(n), next)),
            Err(e) => Err(e),
        }
    } else if is_digit(s[pos]) {
        match parse_bytes(s, pos) {
            Ok((bytes, next)) => Ok((ValueView::ByteString(bytes), next)),
            Err(e) => Err(e),
        }
    } else if s[pos] == LIST_START {
        if depth >= MAX_DEPTH {
            Err(DecodeError::NestingTooDeep { position: pos as usize })
        } else {
            match parse_list_tail(s, pos + 1, depth + 1, Seq::empty()) {
                Ok((items, next)) => Ok((ValueView::List(items), next)),
                Err(e) => Err(e),
            }
        }
    } else if s[pos] == DICTIONARY_START {
        if depth >= MAX_DEPTH {
            Err(DecodeError::NestingTooDeep { position: pos as usize })
        } else {
            match parse_dictionary_tail(s, pos + 1, depth + 1, Seq::empty()) {
                Ok((entries, next)) => Ok(
                    (
                        ValueView::Dictionary(DictionaryView { entries, start: pos, end: next }),
                        next,
                    ),
                ),
                Err(e) => Err(e),
            }
        }
    } else {
        Err(DecodeError::InvalidToken { position: pos as usize })
    }
}

/// The items of a list, of which `items` were read and the next starts at
/// `pos`, and the position after the `e` that ends the list.
///
/// An item ends after the position at which it starts (see
/// `lemma_value_advances`); the test on `next` shows the termination check
/// that the rest of the list is shorter.
pub open spec fn parse_list_tail(s: Seq<u8>, pos: int, depth: nat, items: Seq<ValueView>) -> Result<
    (Seq<ValueView>, int),
    DecodeError,
>
    decreases s.len() - pos, 1int,
{
    if pos < 0 || pos >= s.len() {
        Err(DecodeError::UnexpectedEnd { position: s.len() as usize })
    } else if s[pos] == END {
        Ok((items, pos + 1))
    } else {
        match parse_value(s, pos, depth) {
            Ok((item, next)) => if pos < next <= s.len() {
                parse_list_tail(s, next, depth, items.push(item))
            } else {
                Err(DecodeError::UnexpectedEnd { position: s.len() as usize })
            },
            Err(e) => Err(e),
        }
    }
}

/// The entries of a dictionary, of which `entries` were read and the next
/// starts at `pos`, and the position after the `e` that ends the dictionary.
///
/// A key is a byte string. Keys need not be sorted. Of two entries with one
/// key the first stays; the value of the second is decoded and dropped.
pub open spec fn parse_dictionary_tail(
    s: Seq<u8>,
    pos: int,
    depth: nat,
    entries: Seq<(Seq<u8>, ValueView)>,
) -> Result<(Seq<(Seq<u8>, ValueView)>, int), DecodeError>
    decreases s.len() - pos, 1int,
{
    if pos < 0 || pos >= s.len() {
        Err(DecodeError::UnexpectedEnd { position: s.len() as usize })
    } else if s[pos] == END {
        Ok((entries, pos + 1))
    } else if !is_digit(s[pos]) {
        Err(DecodeError::NonStringKey { position: pos as usize })
    } else {
        match parse_bytes(s, pos) {
            Ok((key, value_start)) => if pos < value_start <= s.len() {
                match parse_value(s, value_start, depth) {
                    Ok((value, next)) => if value_start < next <= s.len() {
                        parse_dictionary_tail(s, next, depth, with_entry(entries, key, value))
                    } else {
                        Err(DecodeError::UnexpectedEnd { position: s.len() as usize })
                    },
                    Err(e) => Err(e),
                }
            } else {
                Err(DecodeError::UnexpectedEnd { position: s.len() as usize })
            },
            Err(e) => Err(e),
        }
    }
}

/// The value that a buffer starts with. Bytes after it are not read.
pub open spec fn parse(s: Seq<u8>) -> Result<ValueView, DecodeError> {
    match parse_value(s, 0, 0) {
        Ok((value, _)) => Ok(value),
        Err(e) => Err(e),
    }
}

/// A run of digits ends at or after its start, within the buffer, and holds
/// digits only.
pub proof fn lemma_digits_end(s: Seq<u8>, pos: int)
    requires
        0 <= pos <= s.len(),
    ensures
        pos <= digits_end(s, pos) <= s.len(),
        forall|i: int| pos <= i < digits_end(s, pos) ==> is_digit(#[trigger] s[i]),
        digits_end(s, pos) < s.len() ==> !is_digit(s[digits_end(s, pos)]),
    decreases s.len() - pos,
{
    if pos < s.len() && is_digit(s[pos]) {
        lemma_digits_end(s, pos + 1);
    }
}

/// An integer ends after its `i`, within the buffer, and fits in 64 bits.
pub proof fn lemma_integer_advances(s: Seq<u8>, pos: int)
    ensures
        parse_integer(s, pos) matches Ok((n, next)) ==> 0 <= pos < next <= s.len() && i64::MIN
            <= n <= i64::MAX,
{
    if 0 <= pos < s.len() {
        if pos + 2 <= s.len() {
            lemma_digits_end(s, pos + 2);
        }
        lemma_digits_end(s, pos + 1);
    }
}

/// A byte string ends after its first digit and within the buffer.
pub proof fn lemma_bytes_advance(s: Seq<u8>, pos: int)
    ensures
        parse_bytes(s, pos) matches Ok((bytes, next)) ==> 0 <= pos < next <= s.len(),
{
    if 0 <= pos < s.len() {
        lemma_digits_end(s, pos);
    }
}

/// A value ends after the position at which it starts, and within the buffer.
pub proof fn lemma_value_advances(s: Seq<u8>, pos: int, depth: nat)
    ensures
        parse_value(s, pos, depth) matches Ok((value, next)) ==> 0 <= pos < next <= s.len(),
    decreases s.len() - pos, 0int,
{
    if 0 <= pos < s.len() {
        if s[pos] == INTEGER_START {
            lemma_integer_advances(s, pos);
        } else if is_digit(s[pos]) {
            lemma_bytes_advance(s, pos);
        } else if s[pos] == LIST_START {
            if depth < MAX_DEPTH {
                lemma_list_tail_advances(s, pos + 1, depth + 1, Seq::empty());
            }
        } else if s[pos] == DICTIONARY_START {
            if depth < MAX_DEPTH {
                lemma_dictionary_tail_advances(s, pos + 1, depth + 1, Seq::empty());
            }
        }
    }
}

/// The rest of a list ends after the position at which it starts, and within
/// the buffer.
pub proof fn lemma_list_tail_advances(s: Seq<u8>, pos: int, depth: nat, items: Seq<ValueView>)
    ensures
        parse_list_tail(s, pos, depth, items) matches Ok((all, next)) ==> 0 <= pos < next
            <= s.len(),
    decreases s.len() - pos, 1int,
{
    if 0 <= pos < s.len() && s[pos] != END {
        lemma_value_advances(s, pos, depth);
        match parse_value(s, pos, depth) {
            Ok((item, next)) => {
                lemma_list_tail_advances(s, next, depth, items.push(item));
            },
            Err(_) => {},
        }
    }
}

/// The rest of a dictionary ends after the position at which it starts, and
/// within the buffer.
pub proof fn lemma_dictionary_tail_advances(
    s: Seq<u8>,
    pos: int,
    depth: nat,
    entries: Seq<(Seq<u8>, ValueView)>,
)
    ensures
        parse_dictionary_tail(s, pos, depth, entries) matches Ok((all, next)) ==> 0 <= pos < next
            <= s.len(),
    decreases s.len() - pos, 1int,
{
    if 0 <= pos < s.len() && s[pos] != END && is_digit(s[pos]) {
        lemma_bytes_advance(s, pos);
        match parse_bytes(s, pos) {
            Ok((key, value_start)) => {
                lemma_value_advances(s, value_start, depth);
                match parse_value(s, value_start, depth) {
                    Ok((value, next)) => {
                        lemma_dictionary_tail_advances(
                            s,
                            next,
                            depth,
                            with_entry(entries, key, value),
                        );
                    },
                    Err(_) => {},
                }
            },
            Err(_) => {},
        }
    }
}

/// Adding an entry keeps the keys unique.
pub proof fn lemma_with_entry_unique(
    entries: Seq<(Seq<u8>, ValueView)>,
    key: Seq<u8>,
    value: ValueView,
)
    requires
        keys_unique(entries),
    ensures
        keys_unique(with_entry(entries, key, value)),
{
    lemma_find_key(entries, key, 0);
}

/// A decoded value is well formed: its integers fit in 64 bits, and each of
/// its dictionaries has unique keys and a span within the buffer.
pub proof fn lemma_value_well_formed(s: Seq<u8>, pos: int, depth: nat)
    ensures
        parse_value(s, pos, depth) matches Ok((value, next)) ==> value.well_formed(
            s.len() as int,
        ),
    decreases s.len() - pos, 0int,
{
    if 0 <= pos < s.len() {
        lemma_value_advances(s, pos, depth);
        if s[pos] == INTEGER_START {
            lemma_integer_advances(s, pos);
        } else if is_digit(s[pos]) {
        } else if s[pos] == LIST_START {
            if depth < MAX_DEPTH {
                lemma_list_tail_well_formed(s, pos + 1, depth + 1, Seq::empty());
            }
        } else if s[pos] == DICTIONARY_START {
            if depth < MAX_DEPTH {
                lemma_dictionary_tail_well_formed(s, pos + 1, depth + 1, Seq::empty());
            }
        }
    }
}

/// The items of a decoded list are well formed.
pub proof fn lemma_list_tail_well_formed(s: Seq<u8>, pos: int, depth: nat, items: Seq<ValueView>)
    requires
        forall|i: int| 0 <= i < items.len() ==> (#[trigger] items[i]).well_formed(s.len() as int),
    ensures
        parse_list_tail(s, pos, depth, items) matches Ok((all, next)) ==> forall|i: int|
            0 <= i < all.len() ==> (#[trigger] all[i]).well_formed(s.len() as int),
    decreases s.len() - pos, 1int,
{
    if 0 <= pos < s.len() && s[pos] != END {
        lemma_value_advances(s, pos, depth);
        lemma_value_well_formed(s, pos, depth);
        match parse_value(s, pos, depth) {
            Ok((item, next)) => {
                lemma_list_tail_well_formed(s, next, depth, items.push(item));
            },
            Err(_) => {},
        }
    }
}

/// The entries of a decoded dictionary have unique keys and well-formed
/// values.
pub proof fn lemma_dictionary_tail_well_formed(
    s: Seq<u8>,
    pos: int,
    depth: nat,
    entries: Seq<(Seq<u8>, ValueView)>,
)
    requires
        keys_unique(entries),
        forall|i: int|
            0 <= i < entries.len() ==> (#[trigger] entries[i]).1.well_formed(s.len() as int),
    ensures
        parse_dictionary_tail(s, pos, depth, entries) matches Ok((all, next)) ==> {
            &&& keys_unique(all)
            &&& forall|i: int|
                0 <= i < all.len() ==> (#[trigger] all[i]).1.well_formed(s.len() as int)
        },
    decreases s.len() - pos, 1int,
{
    if 0 <= pos < s.len() && s[pos] != END && is_digit(s[pos]) {
        lemma_bytes_advance(s, pos);
        match parse_bytes(s, pos) {
            Ok((key, value_start)) => {
                lemma_value_advances(s, value_start, depth);
                lemma_value_well_formed(s, value_start, depth);
                match parse_value(s, value_start, depth) {
                    Ok((value, next)) => {
                        lemma_with_entry_unique(entries, key, value);
                        lemma_dictionary_tail_well_formed(
                            s,
                            next,
                            depth,
                            with_entry(entries, key, value),
                        );
                    },
                    Err(_) => {},
                }
            },
            Err(_) => {},
        }
    }
}

/// Whether every dictionary in `v`, a value inside `depth` lists and
/// dictionaries, records the span that it was decoded from: decoding at its
/// `start` gives the dictionary itself and ends at its `end`.
pub open spec fn spans_hold(v: ValueView, s: Seq<u8>, depth: nat) -> bool
    decreases v,
{
    match v {
        ValueView::Integer(_) => true,
        ValueView::ByteString(_) => true,
        ValueView::List(items) => forall|i: int|
            0 <= i < items.len() ==> spans_hold(#[trigger] items[i], s, depth + 1),
        ValueView::Dictionary(d) => {
            &&& parse_value(s, d.start, depth) == Ok::<(ValueView, int), DecodeError>((v, d.end))
            &&& forall|i: int|
                0 <= i < d.entries.len() ==> spans_hold(
                    (#[trigger] d.entries[i]).1,
                    s,
                    depth + 1,
                )
        },
    }
}

/// The span of a decoded dictionary starts with its `d` and ends with its
/// `e`.
pub proof fn lemma_span_delimiters(s: Seq<u8>, pos: int, depth: nat)
    ensures
        parse_value(s, pos, depth) matches Ok((ValueView::Dictionary(d), next)) ==> {
            &&& d.start == pos
            &&& d.end == next
            &&& s[d.start] == DICTIONARY_START
            &&& s[d.end - 1] == END
        },
{
    if 0 <= pos < s.len() && s[pos] == DICTIONARY_START && depth < MAX_DEPTH {
        lemma_dictionary_tail_ends(s, pos + 1, depth + 1, Seq::empty());
    }
}

/// The rest of a dictionary ends with an `e`.
proof fn lemma_dictionary_tail_ends(
    s: Seq<u8>,
    pos: int,
    depth: nat,
    entries: Seq<(Seq<u8>, ValueView)>,
)
    ensures
        parse_dictionary_tail(s, pos, depth, entries) matches Ok((all, next)) ==> 0 < next
            <= s.len() && s[next - 1] == END,
    decreases s.len() - pos, 1int,
{
    if 0 <= pos < s.len() && s[pos] != END && is_digit(s[pos]) {
        match parse_bytes(s, pos) {
            Ok((key, value_start)) => {
                match parse_value(s, value_start, depth) {
                    Ok((value, next)) => {
                        if pos < value_start <= s.len() && value_start < next <= s.len() {
                            lemma_dictionary_tail_ends(
                                s,
                                next,
                                depth,
                                with_entry(entries, key, value),
                            );
                        }
                    },
                    Err(_) => {},
                }
            },
            Err(_) => {},
        }
    }
}

/// Every dictionary of a decoded value records the span that it was decoded
/// from.
pub proof fn lemma_value_spans(s: Seq<u8>, pos: int, depth: nat)
    ensures
        parse_value(s, pos, depth) matches Ok((value, next)) ==> spans_hold(value, s, depth),
    decreases s.len() - pos, 0int,
{
    if 0 <= pos < s.len() {
        if s[pos] == INTEGER_START {
        } else if is_digit(s[pos]) {
        } else if s[pos] == LIST_START {
            if depth < MAX_DEPTH {
                lemma_list_tail_spans(s, pos + 1, depth + 1, Seq::empty());
            }
        } else if s[pos] == DICTIONARY_START {
            if depth < MAX_DEPTH {
                lemma_dictionary_tail_spans(s, pos + 1, depth + 1, Seq::empty());
            }
        }
    }
}

/// Every dictionary in the items of a decoded list records its span.
pub proof fn lemma_list_tail_spans(s: Seq<u8>, pos: int, depth: nat, items: Seq<ValueView>)
    requires
        forall|i: int| 0 <= i < items.len() ==> spans_hold(#[trigger] items[i], s, depth),
    ensures
        parse_list_tail(s, pos, depth, items) matches Ok((all, next)) ==> forall|i: int|
            0 <= i < all.len() ==> spans_hold(#[trigger] all[i], s, depth),
    decreases s.len() - pos, 1int,
{
    if 0 <= pos < s.len() && s[pos] != END {
        lemma_value_spans(s, pos, depth);
        match parse_value(s, pos, depth) {
            Ok((item, next)) => {
                if pos < next <= s.len() {
                    lemma_list_tail_spans(s, next, depth, items.push(item));
                }
            },
            Err(_) => {},
        }
    }
}

/// Every dictionary in the entries of a decoded dictionary records its span.
pub proof fn lemma_dictionary_tail_spans(
    s: Seq<u8>,
    pos: int,
    depth: nat,
    entries: Seq<(Seq<u8>, ValueView)>,
)
    requires
        forall|i: int|
            0 <= i < entries.len() ==> spans_hold((#[trigger] entries[i]).1, s, depth),
    ensures
        parse_dictionary_tail(s, pos, depth, entries) matches Ok((all, next)) ==> forall|i: int|
            0 <= i < all.len() ==> spans_hold((#[trigger] all[i]).1, s, depth),
    decreases s.len() - pos, 1int,
{
    if 0 <= pos < s.len() && s[pos] != END && is_digit(s[pos]) {
        match parse_bytes(s, pos) {
            Ok((key, value_start)) => {
                if pos < value_start <= s.len() {
                    lemma_value_spans(s, value_start, depth);
                    match parse_value(s, value_start, depth) {
                        Ok((value, next)) => {
                            if value_start < next <= s.len() {
                                lemma_dictionary_tail_spans(
                                    s,
                                    next,
                                    depth,
                                    with_entry(entries, key, value),
                                );
                            }
                        },
                        Err(_) => {},
                    }
                }
            },
            Err(_) => {},
        }
    }
}

} // verus!
