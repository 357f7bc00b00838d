//! The tree of values that the decoder produces, and its mathematical model.

use vstd::prelude::*;

verus! {

/// The mathematical content of a decoded value.
pub enum ValueView {
    /// A whole number.
    Integer(int),
    /// A string of bytes, which need not be text.
    ByteString(Seq<u8>),
    /// Values in their order, of whatever kinds.
    List(Seq<ValueView>),
    /// Values under keys, with the span that they were decoded from.
    Dictionary(DictionaryView),
}

/// The mathematical content of a decoded dictionary: its entries in the order
/// in which they were met, and the span `start..end` of the buffer that holds
/// its encoding, from its `d` to its `e`.
pub struct DictionaryView {
    pub entries: Seq<(Seq<u8>, ValueView)>,
    pub start: int,
    pub end: int,
}

/// The index of the first entry from `from` on that has the key `key`.
pub open spec fn find_key(entries: Seq<(Seq<u8>, ValueView)>, key: Seq<u8>, from: int) -> Option<
    int,
>
    decreases entries.len() - from,
{
    if from < 0 || from >= entries.len() {
        None
    } else if entries[from].0 == key {
        Some(from)
    } else {
        find_key(entries, key, from + 1)
    }
}

/// Whether some entry has the key `key`.
pub open spec fn has_key(entries: Seq<(Seq<u8>, ValueView)>, key: Seq<u8>) -> bool {
    find_key(entries, key, 0) is Some
}

/// Whether no two entries have the same key.
pub open spec fn keys_unique(entries: Seq<(Seq<u8>, ValueView)>) -> bool {
    forall|i: int, j: int|
        0 <= i < j < entries.len() ==> (#[trigger] entries[i]).0 != (#[trigger] entries[j]).0
}

/// What `find_key` finds is the first entry with the key, and it finds one
/// if there is one.
pub proof fn lemma_find_key(entries: Seq<(Seq<u8>, ValueView)>, key: Seq<u8>, from: int)
    requires
        0 <= from,
    ensures
        match find_key(entries, key, from) {
            Some(i) => {
                &&& from <= i < entries.len()
                &&& entries[i].0 == key
                &&& forall|j: int| from <= j < i ==> (#[trigger] entries[j]).0 != key
            },
            None => forall|j: int| from <= j < entries.len() ==> (#[trigger] entries[j]).0 != key,
        },
    decreases entries.len() - from,
{
    if from < entries.len() && entries[from].0 != key {
        lemma_find_key(entries, key, from + 1);
    }
}

impl DictionaryView {
    /// The value stored under `key`: that of the first entry with that key.
    pub open spec fn lookup(self, key: Seq<u8>) -> Option<ValueView> {
        match find_key(self.entries, key, 0) {
            Some(i) => Some(self.entries[i].1),
            None => None,
        }
    }
}

impl ValueView {
    /// Whether every dictionary in the value has unique keys and a span
    /// that lies within a buffer of `len` bytes.
    pub open spec fn well_formed(self, len: int) -> bool
        decreases self,
    {
        match self {
            ValueView::Integer(n) => i64::MIN <= n <= i64::MAX,
            ValueView::ByteString(_) => true,
            ValueView::List(items) => forall|i: int|
                0 <= i < items.len() ==> (#[trigger] items[i]).well_formed(len),
            ValueView::Dictionary(d) => {
                &&& 0 <= d.start < d.end <= len
                &&& keys_unique(d.entries)
                &&& forall|i: int|
                    0 <= i < d.entries.len() ==> (#[trigger] d.entries[i]).1.well_formed(len)
            },
        }
    }
}

/// A decoded value.
#[derive(Debug, PartialEq, Eq)]
pub enum BencodeValue {
    /// A whole number of 64 bits.
    Integer(i64),
    /// A string of bytes, which need not be text.
    ByteString(Vec<u8>),
    /// Values in their order, of whatever kinds.
    List(Vec<BencodeValue>),
    /// Values under keys, with the span that they were decoded from.
    Dictionary(Dictionary),
}

/// A decoded dictionary: its entries in the order in which they were met, and
/// the offsets in the buffer at which its encoding starts and ends.
#[derive(Debug, PartialEq, Eq)]
pub struct Dictionary {
    /// The keys with their values. The decoder gives no key twice.
    pub entries: Vec<(Vec<u8>, BencodeValue)>,
    /// The offset of the `d` that starts the dictionary.
    pub start: usize,
    /// The offset after the `e` that ends the dictionary.
    pub end: usize,
}

/// The model of a sequence of values.
pub open spec fn items_view(items: Seq<BencodeValue>) -> Seq<ValueView>
    decreases items,
{
    Seq::new(
        items.len(),
        |i: int|
            if 0 <= i < items.len() {
                items[i].view()
            } else {
                ValueView::Integer(0)
            },
    )
}

/// The model of a sequence of entries.
pub open spec fn entries_view(entries: Seq<(Vec<u8>, BencodeValue)>) -> Seq<(Seq<u8>, ValueView)>
    decreases entries,
{
    Seq::new(
        entries.len(),
        |i: int|
            if 0 <= i < entries.len() {
                (entries[i].0@, entries[i].1.view())
            } else {
                (Seq::empty(), ValueView::Integer(0))
            },
    )
}

impl View for Dictionary {
    type V = DictionaryView;

    open spec fn view(&self) -> DictionaryView
        decreases self,
    {
        DictionaryView {
            entries: entries_view(self.entries@),
            start: self.start as int,
            end: self.end as int,
        }
    }
}

impl View for BencodeValue {
    type V = ValueView;

    open spec fn view(&self) -> ValueView
        decreases self,
    {
        match self {
            BencodeValue::Integer(n) => ValueView::Integer(*n as int),
            BencodeValue::ByteString(bytes) => ValueView::ByteString(bytes@),
            BencodeValue::List(items) => ValueView::List(items_view(items@)),
            BencodeValue::Dictionary(dictionary) => ValueView::Dictionary(dictionary.view()),
        }
    }
}

/// Whether two byte strings hold the same bytes.
pub fn bytes_equal(a: &[u8], b: &[u8]) -> (equal: bool)
    ensures
        equal == (a@ == b@),
{
    if a.len() != b.len() {
        return false;
    }
    let mut i: usize = 0;
    while i < a.len()
        invariant
            a@.len() == b@.len(),
            i <= a@.len(),
            forall|j: int| 0 <= j < i ==> a@[j] == b@[j],
        decreases a@.len() - i,
    {
        if a[i] != b[i] {
            return false;
        }
        i += 1;
    }
    assert(a@ =~= b@);
    true
}

/// The index of the first of `entries` with the key `key`.
pub fn position_of_key(entries: &Vec<(Vec<u8>, BencodeValue)>, key: &[u8]) -> (found: Option<usize>)
    ensures
        match found {
            Some(i) => find_key(entries_view(entries@), key@, 0) == Some(i as int) && i
                < entries@.len(),
            None => find_key(entries_view(entries@), key@, 0) is None,
        },
{
    let ghost model = entries_view(entries@);
    let mut i: usize = 0;
    while i < entries.len()
        invariant
            i <= entries@.len(),
            model == entries_view(entries@),
            find_key(model, key@, 0) == find_key(model, key@, i as int),
        decreases entries@.len() - i,
    {
        if bytes_equal(entries[i].0.as_slice(), key) {
            return Some(i);
        }
        i += 1;
    }
    None
}

impl Dictionary {
    /// The value stored under `key`, if there is one.
    pub fn get(&self, key: &[u8]) -> (value: Option<&BencodeValue>)
        ensures
            match value {
                Some(v) => self@.lookup(key@) == Some(v@),
                None => self@.lookup(key@) is None,
            },
    {
        match position_of_key(&self.entries, key) {
            Some(i) => Some(&self.entries[i].1),
            None => None,
        }
    }
}

} // verus!
