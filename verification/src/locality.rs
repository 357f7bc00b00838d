//! The value at a position depends on the bytes of its span alone: the same
//! bytes at another place, or in another buffer, hold the same value, with
//! its spans moved.

use crate::error::DecodeError;
use crate::syntax::{
    digits_end, digits_value, is_digit, lemma_bytes_advance, lemma_dictionary_tail_advances,
    lemma_digits_end, lemma_integer_advances, lemma_list_tail_advances, lemma_value_advances,
    parse_bytes, parse_dictionary_tail, parse_integer, parse_list_tail, parse_value, with_entry,
    DICTIONARY_START, END, INTEGER_START, LIST_START, MINUS,
};
use crate::value::{find_key, DictionaryView, ValueView};
use vstd::prelude::*;

verus! {

/// The value `v` with the span of every dictionary moved by `delta`.
pub open spec fn moved(v: ValueView, delta: int) -> ValueView
    decreases v,
{
    match v {
        ValueView::Integer(_) => v,
        ValueView::ByteString(_) => v,
        ValueView::List(items) => ValueView::List(moved_items(items, delta)),
        ValueView::Dictionary(d) => ValueView::Dictionary(
            DictionaryView {
                entries: moved_entries(d.entries, delta),
                start: d.start + delta,
                end: d.end + delta,
            },
        ),
    }
}

/// The values `items`, each moved by `delta`.
pub open spec fn moved_items(items: Seq<ValueView>, delta: int) -> Seq<ValueView>
    decreases items,
{
    Seq::new(
        items.len(),
        |i: int|
            if 0 <= i < items.len() {
                moved(items[i], delta)
            } else {
                ValueView::Integer(0)
            },
    )
}

/// The entries `entries`, the value of each moved by `delta`.
pub open spec fn moved_entries(entries: Seq<(Seq<u8>, ValueView)>, delta: int) -> Seq<
    (Seq<u8>, ValueView),
>
    decreases entries,
{
    Seq::new(
        entries.len(),
        |i: int|
            if 0 <= i < entries.len() {
                (entries[i].0, moved(entries[i].1, delta))
            } else {
                (Seq::empty(), ValueView::Integer(0))
            },
    )
}

/// The dictionary `d` with its span and the spans in its values moved by
/// `delta`.
pub open spec fn moved_dictionary(d: DictionaryView, delta: int) -> DictionaryView {
    DictionaryView {
        entries: moved_entries(d.entries, delta),
        start: d.start + delta,
        end: d.end + delta,
    }
}

/// Whether the `n` bytes of `s` from `p` on are the `n` bytes of `t` from
/// `q` on.
pub open spec fn same_bytes(s: Seq<u8>, p: int, t: Seq<u8>, q: int, n: int) -> bool {
    &&& 0 <= p
    &&& 0 <= q
    &&& 0 <= n
    &&& p + n <= s.len()
    &&& q + n <= t.len()
    &&& forall|i: int| p <= i < p + n ==> #[trigger] s[i] == t[i + q - p]
}

/// Equal slices of two buffers hold the same bytes.
pub proof fn lemma_same_bytes_of_slices(s: Seq<u8>, p: int, e: int, t: Seq<u8>, q: int, f: int)
    requires
        0 <= p <= e <= s.len(),
        0 <= q <= f <= t.len(),
        s.subrange(p, e) == t.subrange(q, f),
    ensures
        e - p == f - q,
        same_bytes(s, p, t, q, e - p),
{
    let a = s.subrange(p, e);
    let b = t.subrange(q, f);
    assert(a.len() == e - p);
    assert(b.len() == f - q);
    assert forall|i: int| p <= i < e implies #[trigger] s[i] == t[i + q - p] by {
        assert(a[i - p] == s[i]);
        assert(b[i - p] == t[i + q - p]);
    }
}

/// A run of digits ends at the same place in the same bytes.
proof fn lemma_digits_end_local(s: Seq<u8>, p: int, t: Seq<u8>, q: int, n: int)
    requires
        same_bytes(s, p, t, q, n),
        digits_end(s, p) < p + n,
    ensures
        digits_end(t, q) == digits_end(s, p) + q - p,
    decreases n,
{
    lemma_digits_end(s, p);
    if is_digit(s[p]) {
        lemma_digits_end_local(s, p + 1, t, q + 1, n - 1);
    }
}

/// The same digits write the same number.
proof fn lemma_digits_value_local(s: Seq<u8>, from: int, to: int, t: Seq<u8>, delta: int)
    requires
        from <= to,
        same_bytes(s, from, t, from + delta, to - from),
    ensures
        digits_value(t, from + delta, to + delta) == digits_value(s, from, to),
    decreases to - from,
{
    if from < to {
        lemma_digits_value_local(s, from, to - 1, t, delta);
        assert(s[to - 1] == t[to - 1 + delta]);
    }
}

/// The same bytes hold the same integer.
pub proof fn lemma_integer_local(s: Seq<u8>, p: int, t: Seq<u8>, q: int)
    requires
        parse_integer(s, p) is Ok,
        same_bytes(s, p, t, q, parse_integer(s, p)->Ok_0.1 - p),
    ensures
        parse_integer(t, q) == Ok::<(int, int), DecodeError>(
            (parse_integer(s, p)->Ok_0.0, parse_integer(s, p)->Ok_0.1 + q - p),
        ),
{
    let delta = q - p;
    let e = parse_integer(s, p)->Ok_0.1;
    lemma_integer_advances(s, p);
    let negative = p + 1 < s.len() && s[p + 1] == MINUS;
    let first = if negative {
        p + 2
    } else {
        p + 1
    };
    lemma_digits_end(s, first);
    assert(s[p] == t[p + delta]);
    assert(s[p + 1] == t[p + 1 + delta]);
    assert(s[first] == t[first + delta]);
    lemma_digits_end_local(s, first, t, first + delta, e - first);
    let end = digits_end(s, first);
    assert(s[end] == t[end + delta]);
    lemma_digits_value_local(s, first, end, t, delta);
}

/// The same bytes hold the same byte string.
pub proof fn lemma_bytes_local(s: Seq<u8>, p: int, t: Seq<u8>, q: int)
    requires
        parse_bytes(s, p) is Ok,
        same_bytes(s, p, t, q, parse_bytes(s, p)->Ok_0.1 - p),
    ensures
        parse_bytes(t, q) == Ok::<(Seq<u8>, int), DecodeError>(
            (parse_bytes(s, p)->Ok_0.0, parse_bytes(s, p)->Ok_0.1 + q - p),
        ),
{
    let delta = q - p;
    let e = parse_bytes(s, p)->Ok_0.1;
    lemma_bytes_advance(s, p);
    lemma_digits_end(s, p);
    assert(s[p] == t[p + delta]);
    lemma_digits_end_local(s, p, t, q, e - p);
    let colon = digits_end(s, p);
    assert(s[colon] == t[colon + delta]);
    lemma_digits_value_local(s, p, colon, t, delta);
    assert(s.subrange(colon + 1, e) =~= t.subrange(colon + 1 + delta, e + delta)) by {
        assert forall|i: int| 0 <= i < e - colon - 1 implies #[trigger] s.subrange(
            colon + 1,
            e,
        )[i] == t.subrange(colon + 1 + delta, e + delta)[i] by {
            assert(s[colon + 1 + i] == t[colon + 1 + i + delta]);
        }
    }
}

/// Moving the values of entries keeps their keys.
pub proof fn lemma_find_key_moved(
    entries: Seq<(Seq<u8>, ValueView)>,
    key: Seq<u8>,
    from: int,
    delta: int,
)
    ensures
        find_key(moved_entries(entries, delta), key, from) == find_key(entries, key, from),
    decreases entries.len() - from,
{
    if 0 <= from < entries.len() {
        assert(moved_entries(entries, delta)[from].0 == entries[from].0);
        if entries[from].0 != key {
            lemma_find_key_moved(entries, key, from + 1, delta);
        }
    }
}

/// The same bytes hold the same value, with its spans moved.
pub proof fn lemma_value_local(s: Seq<u8>, p: int, t: Seq<u8>, q: int, depth: nat)
    requires
        parse_value(s, p, depth) is Ok,
        same_bytes(s, p, t, q, parse_value(s, p, depth)->Ok_0.1 - p),
    ensures
        parse_value(t, q, depth) == Ok::<(ValueView, int), DecodeError>(
            (
                moved(parse_value(s, p, depth)->Ok_0.0, q - p),
                parse_value(s, p, depth)->Ok_0.1 + q - p,
            ),
        ),
    decreases s.len() - p, 0int,
{
    let delta = q - p;
    lemma_value_advances(s, p, depth);
    assert(s[p] == t[p + delta]);
    if s[p] == INTEGER_START {
        lemma_integer_local(s, p, t, q);
    } else if is_digit(s[p]) {
        lemma_bytes_local(s, p, t, q);
    } else if s[p] == LIST_START {
        assert(moved_items(Seq::empty(), delta) =~= Seq::<ValueView>::empty());
        lemma_list_tail_local(s, p + 1, t, q + 1, depth + 1, Seq::empty());
    } else if s[p] == DICTIONARY_START {
        assert(moved_entries(Seq::empty(), delta) =~= Seq::<(Seq<u8>, ValueView)>::empty());
        lemma_dictionary_tail_local(s, p + 1, t, q + 1, depth + 1, Seq::empty());
    }
}

/// The same bytes hold the same rest of a list.
pub proof fn lemma_list_tail_local(
    s: Seq<u8>,
    p: int,
    t: Seq<u8>,
    q: int,
    depth: nat,
    items: Seq<ValueView>,
)
    requires
        parse_list_tail(s, p, depth, items) is Ok,
        same_bytes(s, p, t, q, parse_list_tail(s, p, depth, items)->Ok_0.1 - p),
    ensures
        parse_list_tail(t, q, depth, moved_items(items, q - p)) == Ok::<
            (Seq<ValueView>, int),
            DecodeError,
        >(
            (
                moved_items(parse_list_tail(s, p, depth, items)->Ok_0.0, q - p),
                parse_list_tail(s, p, depth, items)->Ok_0.1 + q - p,
            ),
        ),
    decreases s.len() - p, 1int,
{
    let delta = q - p;
    lemma_list_tail_advances(s, p, depth, items);
    assert(s[p] == t[p + delta]);
    if s[p] != END {
        let (item, next) = parse_value(s, p, depth)->Ok_0;
        lemma_value_advances(s, p, depth);
        lemma_list_tail_advances(s, next, depth, items.push(item));
        lemma_value_local(s, p, t, q, depth);
        lemma_list_tail_local(s, next, t, next + delta, depth, items.push(item));
        assert(moved_items(items.push(item), delta) =~= moved_items(items, delta).push(
            moved(item, delta),
        ));
    }
}

/// The same bytes hold the same rest of a dictionary.
pub proof fn lemma_dictionary_tail_local(
    s: Seq<u8>,
    p: int,
    t: Seq<u8>,
    q: int,
    depth: nat,
    entries: Seq<(Seq<u8>, ValueView)>,
)
    requires
        parse_dictionary_tail(s, p, depth, entries) is Ok,
        same_bytes(s, p, t, q, parse_dictionary_tail(s, p, depth, entries)->Ok_0.1 - p),
    ensures
        parse_dictionary_tail(t, q, depth, moved_entries(entries, q - p)) == Ok::<
            (Seq<(Seq<u8>, ValueView)>, int),
            DecodeError,
        >(
            (
                moved_entries(parse_dictionary_tail(s, p, depth, entries)->Ok_0.0, q - p),
                parse_dictionary_tail(s, p, depth, entries)->Ok_0.1 + q - p,
            ),
        ),
    decreases s.len() - p, 1int,
{
    let delta = q - p;
    lemma_dictionary_tail_advances(s, p, depth, entries);
    assert(s[p] == t[p + delta]);
    if s[p] != END {
        let (key, value_start) = parse_bytes(s, p)->Ok_0;
        lemma_bytes_advance(s, p);
        let (value, next) = parse_value(s, value_start, depth)->Ok_0;
        lemma_value_advances(s, value_start, depth);
        let more = with_entry(entries, key, value);
        lemma_dictionary_tail_advances(s, next, depth, more);
        lemma_bytes_local(s, p, t, q);
        lemma_value_local(s, value_start, t, value_start + delta, depth);
        lemma_dictionary_tail_local(s, next, t, next + delta, depth, more);
        lemma_find_key_moved(entries, key, 0, delta);
        assert(moved_entries(more, delta) =~= with_entry(
            moved_entries(entries, delta),
            key,
            moved(value, delta),
        ));
    }
}

} // verus!
