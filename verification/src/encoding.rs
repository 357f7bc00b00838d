//! The encoding of a value, and the proof that decoding inverts it: every
//! value has one encoding with its entries in their order, and the decoder
//! reads that encoding back as the value.

use crate::error::DecodeError;
use crate::syntax::{
    digits_end, digits_value, is_digit, lemma_dictionary_tail_well_formed,
    lemma_integer_advances, parse, parse_bytes, parse_dictionary_tail, parse_integer,
    parse_list_tail, parse_value, with_entry, COLON, DICTIONARY_START, END, INTEGER_START,
    LIST_START, MAX_DEPTH, MINUS, ZERO,
};
use crate::value::{has_key, keys_unique, lemma_find_key, DictionaryView, ValueView};
use vstd::prelude::*;

verus! {

/// The digits of `n` in base ten, without leading zeros.
pub open spec fn decimal_bytes(n: nat) -> Seq<u8>
    decreases n,
{
    if n < 10 {
        seq![(ZERO + n) as u8]
    } else {
        decimal_bytes(n / 10).push((ZERO + n % 10) as u8)
    }
}

/// Whether `s` holds the bytes `bytes` from `pos` on.
pub open spec fn holds(s: Seq<u8>, pos: int, bytes: Seq<u8>) -> bool {
    &&& 0 <= pos
    &&& pos + bytes.len() <= s.len()
    &&& s.subrange(pos, pos + bytes.len()) == bytes
}

/// A buffer holds two runs of bytes one after the other where it holds
/// their concatenation.
pub proof fn lemma_holds_concat(s: Seq<u8>, pos: int, a: Seq<u8>, b: Seq<u8>)
    requires
        holds(s, pos, a + b),
    ensures
        holds(s, pos, a),
        holds(s, pos + a.len(), b),
{
    let whole = s.subrange(pos, pos + (a + b).len());
    assert(s.subrange(pos, pos + a.len()) =~= a) by {
        assert forall|i: int| 0 <= i < a.len() implies #[trigger] s.subrange(
            pos,
            pos + a.len(),
        )[i] == a[i] by {
            assert(whole[i] == (a + b)[i]);
        }
    }
    assert(s.subrange(pos + a.len(), pos + a.len() + b.len()) =~= b) by {
        assert forall|i: int| 0 <= i < b.len() implies #[trigger] s.subrange(
            pos + a.len(),
            pos + a.len() + b.len(),
        )[i] == b[i] by {
            assert(whole[a.len() + i] == (a + b)[a.len() + i]);
        }
    }
}

/// The byte that a buffer holds at a position within a run that it holds.
pub proof fn lemma_holds_at(s: Seq<u8>, pos: int, bytes: Seq<u8>, i: int)
    requires
        holds(s, pos, bytes),
        0 <= i < bytes.len(),
    ensures
        s[pos + i] == bytes[i],
{
    assert(s.subrange(pos, pos + bytes.len())[i] == bytes[i]);
}

/// The digits of a number are digits, and the first is `0` for zero alone.
pub proof fn lemma_decimal_bytes(n: nat)
    ensures
        decimal_bytes(n).len() >= 1,
        forall|i: int| 0 <= i < decimal_bytes(n).len() ==> is_digit(#[trigger] decimal_bytes(n)[i]),
        decimal_bytes(n)[0] == ZERO <==> n == 0,
        n == 0 ==> decimal_bytes(n).len() == 1,
    decreases n,
{
    if n >= 10 {
        lemma_decimal_bytes(n / 10);
    }
}

/// A run of digits that a buffer holds before a byte that is no digit ends
/// at that byte, and writes the number whose digits they are.
pub proof fn lemma_digits_of_decimal(s: Seq<u8>, pos: int, n: nat)
    requires
        holds(s, pos, decimal_bytes(n)),
        pos + decimal_bytes(n).len() < s.len(),
        !is_digit(s[pos + decimal_bytes(n).len()]),
    ensures
        digits_end(s, pos) == pos + decimal_bytes(n).len(),
        digits_value(s, pos, pos + decimal_bytes(n).len()) == n,
{
    let len = decimal_bytes(n).len() as int;
    lemma_decimal_bytes(n);
    assert forall|i: int| pos <= i < pos + len implies is_digit(#[trigger] s[i]) by {
        lemma_holds_at(s, pos, decimal_bytes(n), i - pos);
    }
    lemma_digits_run(s, pos, pos + len);
    lemma_value_of_decimal(s, pos, n);
}

/// A run of digits before a byte that is no digit ends at that byte.
proof fn lemma_digits_run(s: Seq<u8>, pos: int, end: int)
    requires
        0 <= pos <= end < s.len(),
        forall|i: int| pos <= i < end ==> is_digit(#[trigger] s[i]),
        !is_digit(s[end]),
    ensures
        digits_end(s, pos) == end,
    decreases end - pos,
{
    if pos < end {
        lemma_digits_run(s, pos + 1, end);
    }
}

/// The digits of a number write that number.
proof fn lemma_value_of_decimal(s: Seq<u8>, pos: int, n: nat)
    requires
        holds(s, pos, decimal_bytes(n)),
    ensures
        digits_value(s, pos, pos + decimal_bytes(n).len()) == n,
    decreases n,
{
    let len = decimal_bytes(n).len() as int;
    lemma_holds_at(s, pos, decimal_bytes(n), len - 1);
    if n < 10 {
        assert(digits_value(s, pos, pos) == 0);
    } else {
        let front = decimal_bytes(n / 10);
        assert(decimal_bytes(n) =~= front + seq![(ZERO + n % 10) as u8]);
        lemma_holds_concat(s, pos, front, seq![(ZERO + n % 10) as u8]);
        lemma_value_of_decimal(s, pos, n / 10);
    }
}

/// The encoding of an integer.
pub open spec fn encoded_integer(n: int) -> Seq<u8> {
    if n < 0 {
        seq![INTEGER_START, MINUS] + decimal_bytes((-n) as nat) + seq![END]
    } else {
        seq![INTEGER_START] + decimal_bytes(n as nat) + seq![END]
    }
}

/// The encoding of a byte string.
pub open spec fn encoded_bytes(bytes: Seq<u8>) -> Seq<u8> {
    decimal_bytes(bytes.len()) + seq![COLON] + bytes
}

/// Decoding reads the encoding of an integer of 64 bits back as the integer.
pub proof fn lemma_integer_round_trip(s: Seq<u8>, pos: int, n: int)
    requires
        i64::MIN <= n <= i64::MAX,
        holds(s, pos, encoded_integer(n)),
    ensures
        parse_integer(s, pos) == Ok::<(int, int), DecodeError>(
            (n, pos + encoded_integer(n).len()),
        ),
{
    let magnitude = (if n < 0 {
        -n
    } else {
        n
    }) as nat;
    let digits = decimal_bytes(magnitude);
    lemma_decimal_bytes(magnitude);
    let head = if n < 0 {
        seq![INTEGER_START, MINUS]
    } else {
        seq![INTEGER_START]
    };
    assert(encoded_integer(n) =~= head + (digits + seq![END]));
    lemma_holds_concat(s, pos, head, digits + seq![END]);
    lemma_holds_concat(s, pos + head.len(), digits, seq![END]);
    lemma_holds_at(s, pos, head, 0);
    if n < 0 {
        lemma_holds_at(s, pos, head, 1);
    }
    let first = pos + head.len();
    lemma_holds_at(s, first, digits, 0);
    lemma_holds_at(s, first + digits.len(), seq![END], 0);
    lemma_digits_of_decimal(s, first, magnitude);
}

/// Decoding reads the encoding of a byte string back as the byte string.
pub proof fn lemma_bytes_round_trip(s: Seq<u8>, pos: int, bytes: Seq<u8>)
    requires
        holds(s, pos, encoded_bytes(bytes)),
    ensures
        parse_bytes(s, pos) == Ok::<(Seq<u8>, int), DecodeError>(
            (bytes, pos + encoded_bytes(bytes).len()),
        ),
{
    let digits = decimal_bytes(bytes.len());
    lemma_decimal_bytes(bytes.len());
    assert(encoded_bytes(bytes) =~= digits + (seq![COLON] + bytes));
    lemma_holds_concat(s, pos, digits, seq![COLON] + bytes);
    lemma_holds_concat(s, pos + digits.len(), seq![COLON], bytes);
    lemma_holds_at(s, pos, digits, 0);
    lemma_holds_at(s, pos + digits.len(), seq![COLON], 0);
    lemma_digits_of_decimal(s, pos, bytes.len());
}

/// The encoding of a value: its items and entries in their order.
pub open spec fn encoded(v: ValueView) -> Seq<u8>
    decreases v, 0int,
{
    match v {
        ValueView::Integer(n) => encoded_integer(n),
        ValueView::ByteString(bytes) => encoded_bytes(bytes),
        ValueView::List(items) => seq![LIST_START] + encoded_items(items, 0) + seq![END],
        ValueView::Dictionary(d) => seq![DICTIONARY_START] + encoded_entries(d.entries, 0)
            + seq![END],
    }
}

/// The encodings of the items from `from` on, one after the other.
pub open spec fn encoded_items(items: Seq<ValueView>, from: int) -> Seq<u8>
    decreases items, items.len() - from,
{
    if from < 0 || from >= items.len() {
        Seq::empty()
    } else {
        encoded(items[from]) + encoded_items(items, from + 1)
    }
}

/// The encodings of the entries from `from` on, one after the other: of
/// each its key, then its value.
pub open spec fn encoded_entries(entries: Seq<(Seq<u8>, ValueView)>, from: int) -> Seq<u8>
    decreases entries, entries.len() - from,
{
    if from < 0 || from >= entries.len() {
        Seq::empty()
    } else {
        encoded_bytes(entries[from].0) + encoded(entries[from].1) + encoded_entries(
            entries,
            from + 1,
        )
    }
}

/// Whether the decoder accepts the encoding of `v` inside `depth` lists and
/// dictionaries: its integers fit in 64 bits, no dictionary has a key
/// twice, and nothing is nested more deeply than `MAX_DEPTH`.
pub open spec fn encodable(v: ValueView, depth: nat) -> bool
    decreases v,
{
    match v {
        ValueView::Integer(n) => i64::MIN <= n <= i64::MAX,
        ValueView::ByteString(_) => true,
        ValueView::List(items) => {
            &&& depth < MAX_DEPTH
            &&& forall|i: int| 0 <= i < items.len() ==> encodable(#[trigger] items[i], depth + 1)
        },
        ValueView::Dictionary(d) => {
            &&& depth < MAX_DEPTH
            &&& keys_unique(d.entries)
            &&& forall|i: int|
                0 <= i < d.entries.len() ==> encodable((#[trigger] d.entries[i]).1, depth + 1)
        },
    }
}

/// The value `v` without the spans of its dictionaries.
pub open spec fn content(v: ValueView) -> ValueView
    decreases v,
{
    match v {
        ValueView::Integer(_) => v,
        ValueView::ByteString(_) => v,
        ValueView::List(items) => ValueView::List(
            Seq::new(
                items.len(),
                |i: int|
                    if 0 <= i < items.len() {
                        content(items[i])
                    } else {
                        ValueView::Integer(0)
                    },
            ),
        ),
        ValueView::Dictionary(d) => ValueView::Dictionary(
            DictionaryView {
                entries: Seq::new(
                    d.entries.len(),
                    |i: int|
                        if 0 <= i < d.entries.len() {
                            (d.entries[i].0, content(d.entries[i].1))
                        } else {
                            (Seq::empty(), ValueView::Integer(0))
                        },
                ),
                start: 0,
                end: 0,
            },
        ),
    }
}

/// The first byte of an encoding tells the kind of the value, and is no `e`.
pub proof fn lemma_encoded_head(v: ValueView)
    ensures
        encoded(v).len() >= 2,
        match v {
            ValueView::Integer(_) => encoded(v)[0] == INTEGER_START,
            ValueView::ByteString(_) => is_digit(encoded(v)[0]),
            ValueView::List(_) => encoded(v)[0] == LIST_START,
            ValueView::Dictionary(_) => encoded(v)[0] == DICTIONARY_START,
        },
{
    match v {
        ValueView::Integer(n) => {
            lemma_decimal_bytes((if n < 0 {
                -n
            } else {
                n
            }) as nat);
        },
        ValueView::ByteString(bytes) => {
            lemma_decimal_bytes(bytes.len());
        },
        _ => {},
    }
}

/// Decoding inverts encoding: where a buffer holds the encoding of a value
/// that the decoder accepts, decoding there gives the value, but for the
/// spans of its dictionaries, and ends where the encoding ends.
pub proof fn lemma_round_trip(v: ValueView, s: Seq<u8>, pos: int, depth: nat)
    requires
        encodable(v, depth),
        holds(s, pos, encoded(v)),
    ensures
        parse_value(s, pos, depth) matches Ok((w, end)) && end == pos + encoded(v).len()
            && content(w) == content(v),
    decreases v, 0int,
{
    lemma_encoded_head(v);
    lemma_holds_at(s, pos, encoded(v), 0);
    match v {
        ValueView::Integer(n) => {
            lemma_integer_round_trip(s, pos, n);
        },
        ValueView::ByteString(bytes) => {
            lemma_bytes_round_trip(s, pos, bytes);
        },
        ValueView::List(items) => {
            let body = encoded_items(items, 0) + seq![END];
            assert(encoded(v) =~= seq![LIST_START] + body);
            lemma_holds_concat(s, pos, seq![LIST_START], body);
            lemma_items_round_trip(items, 0, s, pos + 1, depth + 1, Seq::empty());
            let (all, end) = parse_list_tail(s, pos + 1, depth + 1, Seq::empty())->Ok_0;
            assert(content(ValueView::List(all)) =~= content(v)) by {
                assert(content(ValueView::List(all))->List_0 =~= content(v)->List_0);
            }
        },
        ValueView::Dictionary(d) => {
            let body = encoded_entries(d.entries, 0) + seq![END];
            assert(encoded(v) =~= seq![DICTIONARY_START] + body);
            lemma_holds_concat(s, pos, seq![DICTIONARY_START], body);
            lemma_entries_round_trip(d.entries, 0, s, pos + 1, depth + 1, Seq::empty());
            let (all, end) = parse_dictionary_tail(s, pos + 1, depth + 1, Seq::empty())->Ok_0;
            let w = ValueView::Dictionary(DictionaryView { entries: all, start: pos, end });
            assert(content(w) =~= content(v)) by {
                assert(content(w)->Dictionary_0.entries =~= content(v)->Dictionary_0.entries);
            }
        },
    }
}

/// Decoding reads the encodings of the items from `from` on back as the
/// items.
pub proof fn lemma_items_round_trip(
    items: Seq<ValueView>,
    from: int,
    s: Seq<u8>,
    pos: int,
    depth: nat,
    read: Seq<ValueView>,
)
    requires
        0 <= from <= items.len(),
        forall|i: int| 0 <= i < items.len() ==> encodable(#[trigger] items[i], depth),
        holds(s, pos, encoded_items(items, from) + seq![END]),
        read.len() == from,
        forall|i: int| 0 <= i < from ==> content(#[trigger] read[i]) == content(items[i]),
    ensures
        parse_list_tail(s, pos, depth, read) matches Ok((all, end)) && end == pos
            + encoded_items(items, from).len() + 1 && all.len() == items.len() && forall|i: int|
            0 <= i < items.len() ==> content(#[trigger] all[i]) == content(items[i]),
    decreases items, items.len() - from,
{
    let rest = encoded_items(items, from) + seq![END];
    if from == items.len() {
        lemma_holds_at(s, pos, rest, 0);
    } else {
        let item = items[from];
        let tail = encoded_items(items, from + 1) + seq![END];
        lemma_encoded_head(item);
        assert(rest =~= encoded(item) + tail);
        lemma_holds_concat(s, pos, encoded(item), tail);
        lemma_holds_at(s, pos, encoded(item), 0);
        lemma_round_trip(item, s, pos, depth);
        let (w, next) = parse_value(s, pos, depth)->Ok_0;
        lemma_items_round_trip(items, from + 1, s, next, depth, read.push(w));
    }
}

/// Decoding reads the encodings of the entries from `from` on back as the
/// entries.
pub proof fn lemma_entries_round_trip(
    entries: Seq<(Seq<u8>, ValueView)>,
    from: int,
    s: Seq<u8>,
    pos: int,
    depth: nat,
    read: Seq<(Seq<u8>, ValueView)>,
)
    requires
        0 <= from <= entries.len(),
        keys_unique(entries),
        forall|i: int| 0 <= i < entries.len() ==> encodable((#[trigger] entries[i]).1, depth),
        holds(s, pos, encoded_entries(entries, from) + seq![END]),
        read.len() == from,
        forall|i: int|
            0 <= i < from ==> (#[trigger] read[i]).0 == entries[i].0 && content(read[i].1)
                == content(entries[i].1),
    ensures
        parse_dictionary_tail(s, pos, depth, read) matches Ok((all, end)) && end == pos
            + encoded_entries(entries, from).len() + 1 && all.len() == entries.len()
            && forall|i: int|
            0 <= i < entries.len() ==> (#[trigger] all[i]).0 == entries[i].0 && content(all[i].1)
                == content(entries[i].1),
    decreases entries, entries.len() - from,
{
    let rest = encoded_entries(entries, from) + seq![END];
    if from == entries.len() {
        lemma_holds_at(s, pos, rest, 0);
    } else {
        let key = entries[from].0;
        let value = entries[from].1;
        let tail = encoded_entries(entries, from + 1) + seq![END];
        lemma_decimal_bytes(key.len());
        lemma_encoded_head(value);
        assert(rest =~= encoded_bytes(key) + (encoded(value) + tail));
        lemma_holds_concat(s, pos, encoded_bytes(key), encoded(value) + tail);
        lemma_holds_at(s, pos, encoded_bytes(key), 0);
        lemma_bytes_round_trip(s, pos, key);
        let value_start = pos + encoded_bytes(key).len();
        lemma_holds_concat(s, value_start, encoded(value), tail);
        lemma_round_trip(value, s, value_start, depth);
        let (w, next) = parse_value(s, value_start, depth)->Ok_0;
        lemma_find_key(read, key, 0);
        assert(!has_key(read, key));
        lemma_entries_round_trip(entries, from + 1, s, next, depth, read.push((key, w)));
    }
}

/// Decoding a buffer that is the encoding of a value gives the value, but
/// for the spans of its dictionaries.
pub proof fn lemma_decoding_inverts_encoding(v: ValueView)
    requires
        encodable(v, 0),
    ensures
        parse(encoded(v)) matches Ok(w) && content(w) == content(v),
{
    assert(encoded(v).subrange(0, encoded(v).len() as int) =~= encoded(v));
    lemma_round_trip(v, encoded(v), 0, 0);
}

/// Every value that the decoder gives has an encoding that the decoder
/// accepts.
pub proof fn lemma_decoded_is_encodable(s: Seq<u8>, pos: int, depth: nat)
    ensures
        parse_value(s, pos, depth) matches Ok((value, next)) ==> encodable(value, depth),
    decreases s.len() - pos, 0int,
{
    if 0 <= pos < s.len() {
        if s[pos] == INTEGER_START {
            lemma_integer_advances(s, pos);
        } else if is_digit(s[pos]) {
        } else if s[pos] == LIST_START {
            if depth < MAX_DEPTH {
                lemma_decoded_items_are_encodable(s, pos + 1, depth + 1, Seq::empty());
            }
        } else if s[pos] == DICTIONARY_START {
            if depth < MAX_DEPTH {
                lemma_dictionary_tail_well_formed(s, pos + 1, depth + 1, Seq::empty());
                lemma_decoded_entries_are_encodable(s, pos + 1, depth + 1, Seq::empty());
            }
        }
    }
}

/// The items of a decoded list have encodings that the decoder accepts.
proof fn lemma_decoded_items_are_encodable(
    s: Seq<u8>,
    pos: int,
    depth: nat,
    items: Seq<ValueView>,
)
    requires
        forall|i: int| 0 <= i < items.len() ==> encodable(#[trigger] items[i], depth),
    ensures
        parse_list_tail(s, pos, depth, items) matches Ok((all, next)) ==> forall|i: int|
            0 <= i < all.len() ==> encodable(#[trigger] all[i], depth),
    decreases s.len() - pos, 1int,
{
    if 0 <= pos < s.len() && s[pos] != END {
        lemma_decoded_is_encodable(s, pos, depth);
        match parse_value(s, pos, depth) {
            Ok((item, next)) => {
                if pos < next <= s.len() {
                    lemma_decoded_items_are_encodable(s, next, depth, items.push(item));
                }
            },
            Err(_) => {},
        }
    }
}

/// The values of a decoded dictionary have encodings that the decoder
/// accepts.
proof fn lemma_decoded_entries_are_encodable(
    s: Seq<u8>,
    pos: int,
    depth: nat,
    entries: Seq<(Seq<u8>, ValueView)>,
)
    requires
        forall|i: int| 0 <= i < entries.len() ==> encodable((#[trigger] entries[i]).1, depth),
    ensures
        parse_dictionary_tail(s, pos, depth, entries) matches Ok((all, next)) ==> forall|i: int|
            0 <= i < all.len() ==> encodable((#[trigger] all[i]).1, depth),
    decreases s.len() - pos, 1int,
{
    if 0 <= pos < s.len() && s[pos] != END && is_digit(s[pos]) {
        match parse_bytes(s, pos) {
            Ok((key, value_start)) => {
                if pos < value_start <= s.len() {
                    lemma_decoded_is_encodable(s, value_start, depth);
                    match parse_value(s, value_start, depth) {
                        Ok((value, next)) => {
                            if value_start < next <= s.len() {
                                lemma_decoded_entries_are_encodable(
                                    s,
                                    next,
                                    depth,
                                    with_entry(entries, key, value),
                                );
                            }
                        },
                        Err(_) => {},
                    }
                }
            },
            Err(_) => {},
        }
    }
}

} // verus!
