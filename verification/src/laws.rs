//! What holds of every document: laws of the grammar and of the meaning of
//! the fields, proved from their definitions.

use crate::bencode::{torrent_decoded, Torrent};
use crate::digest::sha1_digest;
use crate::error::{DecodeError, Field};
use crate::schema::{
    file_of, files_from, info_bytes, info_of, optional_text, raw_bytes, texts_from, tiers_from,
    torrent_from, torrent_in, torrent_of, urls_of, FileView,
};
use crate::locality::{
    lemma_find_key_moved, lemma_same_bytes_of_slices, lemma_value_local, moved,
    moved_dictionary, moved_items,
};
use crate::syntax::{
    lemma_value_spans, spans_hold,
    is_digit, parse, parse_bytes, parse_dictionary_tail, parse_list_tail, parse_value,
    with_entry, DICTIONARY_START, END, INTEGER_START, LIST_START, MAX_DEPTH,
};
use crate::text::{lemma_unique, text_of};
use crate::value::{find_key, lemma_find_key, DictionaryView, ValueView};
use vstd::prelude::*;

verus! {

/// Decoding is a function of the bytes: two results for buffers that hold
/// the same bytes are torrents with the same content, field for field, or
/// the same error.
pub proof fn lemma_same_bytes_same_torrent(
    first: Result<Torrent, DecodeError>,
    second: Result<Torrent, DecodeError>,
    source: Seq<u8>,
)
    requires
        torrent_decoded(first, torrent_from(source)),
        torrent_decoded(second, torrent_from(source)),
    ensures
        match (first, second) {
            (Ok(a), Ok(b)) => a@ == b@,
            (Err(a), Err(b)) => a == b,
            _ => false,
        },
{
}

/// The hash of a torrent is the digest of the bytes of its `info` dictionary
/// as they stand in the buffer.
pub proof fn lemma_hash_is_digest_of_info_bytes(v: ValueView, source: Seq<u8>)
    ensures
        torrent_in(v, source) matches Ok(torrent) ==> info_bytes(v, source) matches Ok(raw)
            && torrent.info.hash == sha1_digest(raw),
{
}

/// The hash depends on the bytes of the `info` dictionary alone: two
/// documents whose `info` dictionaries are written with the same bytes have
/// the same hash, whatever else they hold and wherever the dictionary stands.
pub proof fn lemma_hash_depends_on_info_bytes(
    v1: ValueView,
    source1: Seq<u8>,
    v2: ValueView,
    source2: Seq<u8>,
)
    requires
        torrent_in(v1, source1) is Ok,
        torrent_in(v2, source2) is Ok,
        info_bytes(v1, source1) == info_bytes(v2, source2),
    ensures
        torrent_in(v1, source1)->Ok_0.info.hash == torrent_in(v2, source2)->Ok_0.info.hash,
{
    lemma_hash_is_digest_of_info_bytes(v1, source1);
    lemma_hash_is_digest_of_info_bytes(v2, source2);
}

/// There is one piece hash for every 20 bytes under `pieces`, in their
/// order; and where the number of those bytes is no multiple of 20, there is
/// no `info`.
pub proof fn lemma_piece_count(d: DictionaryView, hash: Seq<u8>, raw: Seq<u8>)
    requires
        d.lookup(Field::Pieces.key()) == Some(ValueView::ByteString(raw)),
    ensures
        info_of(ValueView::Dictionary(d), hash) matches Ok(info) ==> {
            &&& raw.len() % 20 == 0
            &&& info.pieces.len() == raw.len() / 20
            &&& forall|i: int|
                0 <= i < info.pieces.len() ==> #[trigger] info.pieces[i] == raw.subrange(
                    20 * i,
                    20 * i + 20,
                )
        },
        raw.len() % 20 != 0 ==> info_of(ValueView::Dictionary(d), hash) is Err,
{
}

/// The files that `files_from` adds are one for each item, in the order of
/// the items: each is the file that its item describes.
pub proof fn lemma_files_from(items: Seq<ValueView>, from: int, files: Seq<FileView>)
    requires
        0 <= from <= items.len(),
        forall|i: int| 0 <= i < files.len() ==> 0 <= (#[trigger] files[i]).length,
    ensures
        files_from(items, from, files) matches Ok(all) ==> {
            &&& all.len() == files.len() + items.len() - from
            &&& forall|i: int| 0 <= i < files.len() ==> all[i] == files[i]
            &&& forall|i: int|
                from <= i < items.len() ==> file_of(items[i]) == Ok::<FileView, DecodeError>(
                    #[trigger] all[files.len() + i - from],
                )
            &&& forall|i: int| 0 <= i < all.len() ==> 0 <= (#[trigger] all[i]).length
        },
    decreases items.len() - from,
{
    if from < items.len() {
        match file_of(items[from]) {
            Ok(file) => {
                lemma_files_from(items, from + 1, files.push(file));
                match files_from(items, from, files) {
                    Ok(all) => {
                        assert(all[files.len() as int] == files.push(file)[files.len() as int]);
                        assert forall|i: int| from <= i < items.len() implies file_of(items[i])
                            == Ok::<FileView, DecodeError>(
                            #[trigger] all[files.len() + i - from],
                        ) by {
                            if i > from {
                                assert(all[files.push(file).len() + i - (from + 1)]
                                    == all[files.len() + i - from]);
                            }
                        }
                        assert forall|i: int| 0 <= i < files.len() implies all[i] == files[i] by {
                            assert(files.push(file)[i] == files[i]);
                        }
                    },
                    Err(_) => {},
                }
            },
            Err(_) => {},
        }
    }
}

/// The text that a value holds, where it is a byte string that holds UTF-8.
pub open spec fn value_text(v: ValueView) -> Option<Seq<char>> {
    match v {
        ValueView::ByteString(bytes) => text_of(bytes),
        _ => None,
    }
}

/// The texts that `texts_from` adds are one for each item, in the order of
/// the items: each is the text that its item holds in UTF-8.
pub proof fn lemma_texts_from(
    items: Seq<ValueView>,
    field: Field,
    from: int,
    texts: Seq<Seq<char>>,
)
    requires
        0 <= from <= items.len(),
    ensures
        texts_from(items, field, from, texts) matches Ok(all) ==> {
            &&& all.len() == texts.len() + items.len() - from
            &&& forall|i: int| 0 <= i < texts.len() ==> all[i] == texts[i]
            &&& forall|i: int|
                from <= i < items.len() ==> value_text(items[i]) == Some(
                    #[trigger] all[texts.len() + i - from],
                )
        },
    decreases items.len() - from,
{
    if from < items.len() {
        match items[from] {
            ValueView::ByteString(bytes) => {
                match text_of(bytes) {
                    Some(text) => {
                        lemma_texts_from(items, field, from + 1, texts.push(text));
                        match texts_from(items, field, from, texts) {
                            Ok(all) => {
                                let last = texts.len() as int;
                                assert(all[last] == texts.push(text)[last]);
                                assert forall|i: int|
                                    from <= i < items.len() implies value_text(items[i])
                                    == Some(#[trigger] all[texts.len() + i - from]) by {
                                    if i > from {
                                        assert(all[texts.push(text).len() + i - (from + 1)]
                                            == all[texts.len() + i - from]);
                                    }
                                }
                                assert forall|i: int| 0 <= i < texts.len() implies all[i]
                                    == texts[i] by {
                                    assert(texts.push(text)[i] == texts[i]);
                                }
                            },
                            Err(_) => {},
                        }
                    },
                    None => {},
                }
            },
            _ => {},
        }
    }
}

/// An `info` with a list of files has one file for each entry of the list;
/// an `info` without one has exactly one file, whose path is the name.
pub proof fn lemma_file_count(d: DictionaryView, hash: Seq<u8>)
    ensures
        info_of(ValueView::Dictionary(d), hash) matches Ok(info) ==> match d.lookup(
            Field::Files.key(),
        ) {
            Some(ValueView::List(items)) => info.files.len() == items.len(),
            Some(_) => false,
            None => info.files.len() == 1 && info.files[0].path == info.name,
        },
{
    match d.lookup(Field::Files.key()) {
        Some(ValueView::List(items)) => {
            lemma_files_from(items, 0, Seq::empty());
        },
        _ => {},
    }
}

/// An `info` dictionary without `pieces` is refused with a schema error.
pub proof fn lemma_pieces_required(d: DictionaryView, hash: Seq<u8>)
    requires
        d.lookup(Field::Pieces.key()) is None,
    ensures
        info_of(ValueView::Dictionary(d), hash) matches Err(e) && e.is_schema(),
{
}

/// An `info` that was read is well formed.
pub proof fn lemma_info_well_formed(v: ValueView, hash: Seq<u8>)
    ensures
        info_of(v, hash) matches Ok(info) ==> info.well_formed(),
{
    match v {
        ValueView::Dictionary(d) => {
            lemma_file_count(d, hash);
            match d.lookup(Field::Files.key()) {
                Some(ValueView::List(items)) => {
                    lemma_files_from(items, 0, Seq::empty());
                },
                _ => {},
            }
        },
        _ => {},
    }
}

/// The announce URLs of a torrent are those that the document names, each
/// once.
pub proof fn lemma_announce_list(d: DictionaryView, hash: Seq<u8>)
    ensures
        torrent_of(ValueView::Dictionary(d), hash) matches Ok(torrent) ==> {
            &&& urls_of(d) matches Ok(urls)
            &&& torrent.announce_list.no_duplicates()
            &&& forall|url: Seq<char>| torrent.announce_list.contains(url) <==> urls.contains(url)
        },
{
    match urls_of(d) {
        Ok(urls) => {
            lemma_unique(urls);
        },
        Err(_) => {},
    }
}

/// Whether one of the items from `from` on holds the text `text`.
pub open spec fn items_hold(items: Seq<ValueView>, from: int, text: Seq<char>) -> bool {
    exists|j: int| from <= j < items.len() && value_text(#[trigger] items[j]) == Some(text)
}

/// Whether the tier `tier` is a list that holds the URL `url`.
pub open spec fn tier_holds(tier: ValueView, url: Seq<char>) -> bool {
    tier matches ValueView::List(items) && items_hold(items, 0, url)
}

/// Whether one of the tiers from `from` on holds the URL `url`.
pub open spec fn tiers_hold(tiers: Seq<ValueView>, from: int, url: Seq<char>) -> bool {
    exists|i: int| from <= i < tiers.len() && tier_holds(#[trigger] tiers[i], url)
}

/// The texts that `texts_from` gives are those that it was given and those
/// that the items hold.
pub proof fn lemma_texts_from_contains(
    items: Seq<ValueView>,
    field: Field,
    from: int,
    texts: Seq<Seq<char>>,
)
    requires
        0 <= from <= items.len(),
    ensures
        texts_from(items, field, from, texts) matches Ok(all) ==> forall|text: Seq<char>|
            all.contains(text) <==> texts.contains(text) || items_hold(items, from, text),
{
    lemma_texts_from(items, field, from, texts);
    match texts_from(items, field, from, texts) {
        Ok(all) => {
            assert forall|text: Seq<char>| all.contains(text) implies texts.contains(text)
                || items_hold(items, from, text) by {
                let k = choose|k: int| 0 <= k < all.len() && all[k] == text;
                if k < texts.len() {
                    assert(texts[k] == text);
                } else {
                    let j = k - texts.len() + from;
                    assert(value_text(items[j]) == Some(all[texts.len() + j - from]));
                }
            }
            assert forall|text: Seq<char>|
                texts.contains(text) || items_hold(items, from, text) implies all.contains(
                text,
            ) by {
                if texts.contains(text) {
                    let k = choose|k: int| 0 <= k < texts.len() && texts[k] == text;
                    assert(all[k] == text);
                } else {
                    let j = choose|j: int|
                        from <= j < items.len() && value_text(#[trigger] items[j]) == Some(text);
                    assert(value_text(items[j]) == Some(all[texts.len() + j - from]));
                    assert(all[texts.len() + j - from] == text);
                }
            }
        },
        Err(_) => {},
    }
}

/// The URLs that `tiers_from` gives are those that it was given and those
/// that the tiers hold.
pub proof fn lemma_tiers_from_contains(tiers: Seq<ValueView>, from: int, urls: Seq<Seq<char>>)
    requires
        0 <= from <= tiers.len(),
    ensures
        tiers_from(tiers, from, urls) matches Ok(all) ==> forall|url: Seq<char>|
            all.contains(url) <==> urls.contains(url) || tiers_hold(tiers, from, url),
    decreases tiers.len() - from,
{
    if from < tiers.len() {
        match tiers[from] {
            ValueView::List(tier) => {
                lemma_texts_from_contains(tier, Field::AnnounceList, 0, urls);
                match texts_from(tier, Field::AnnounceList, 0, urls) {
                    Ok(more) => {
                        lemma_tiers_from_contains(tiers, from + 1, more);
                        match tiers_from(tiers, from, urls) {
                            Ok(all) => {
                                assert forall|url: Seq<char>| all.contains(url) implies
                                    urls.contains(url) || tiers_hold(tiers, from, url) by {
                                    if more.contains(url) {
                                        if !urls.contains(url) {
                                            assert(tier_holds(tiers[from], url));
                                        }
                                    } else {
                                        let i = choose|i: int|
                                            from + 1 <= i < tiers.len() && tier_holds(
                                                #[trigger] tiers[i],
                                                url,
                                            );
                                        assert(tier_holds(tiers[i], url));
                                    }
                                }
                                assert forall|url: Seq<char>|
                                    urls.contains(url) || tiers_hold(
                                        tiers,
                                        from,
                                        url,
                                    ) implies all.contains(url) by {
                                    if !urls.contains(url) {
                                        let i = choose|i: int|
                                            from <= i < tiers.len() && tier_holds(
                                                #[trigger] tiers[i],
                                                url,
                                            );
                                        if i == from {
                                            assert(more.contains(url));
                                        } else {
                                            assert(tiers_hold(tiers, from + 1, url));
                                        }
                                    }
                                }
                            },
                            Err(_) => {},
                        }
                    },
                    Err(_) => {},
                }
            },
            _ => {},
        }
    } else {
        match tiers_from(tiers, from, urls) {
            Ok(all) => {
                assert forall|url: Seq<char>| all.contains(url) <==> urls.contains(url)
                    || tiers_hold(tiers, from, url) by {}
            },
            Err(_) => {},
        }
    }
}

/// The announce URLs of a torrent are the URL under `announce` and the URLs
/// of every tier under `announce-list`, each once.
pub proof fn lemma_announce_set(d: DictionaryView, hash: Seq<u8>)
    ensures
        torrent_of(ValueView::Dictionary(d), hash) matches Ok(torrent) ==> {
            &&& torrent.announce_list.no_duplicates()
            &&& forall|url: Seq<char>|
                torrent.announce_list.contains(url) <==> {
                    ||| optional_text(d, Field::Announce) == Ok::<
                        Option<Seq<char>>,
                        DecodeError,
                    >(Some(url))
                    ||| (d.lookup(Field::AnnounceList.key()) matches Some(ValueView::List(tiers))
                        && tiers_hold(tiers, 0, url))
                }
        },
{
    lemma_announce_list(d, hash);
    match torrent_of(ValueView::Dictionary(d), hash) {
        Ok(torrent) => {
            let first = match optional_text(d, Field::Announce)->Ok_0 {
                Some(url) => seq![url],
                None => Seq::empty(),
            };
            assert forall|url: Seq<char>| first.contains(url) <==> optional_text(
                d,
                Field::Announce,
            ) == Ok::<Option<Seq<char>>, DecodeError>(Some(url)) by {
                if first.contains(url) {
                    let k = choose|k: int| 0 <= k < first.len() && first[k] == url;
                    assert(first[k] == url);
                }
                if optional_text(d, Field::Announce) == Ok::<Option<Seq<char>>, DecodeError>(
                    Some(url),
                ) {
                    assert(first[0] == url);
                }
            }
            let urls = urls_of(d)->Ok_0;
            match d.lookup(Field::AnnounceList.key()) {
                Some(ValueView::List(tiers)) => {
                    lemma_tiers_from_contains(tiers, 0, first);
                    assert(urls == tiers_from(tiers, 0, first)->Ok_0);
                    assert forall|url: Seq<char>|
                        torrent.announce_list.contains(url) <==> optional_text(
                            d,
                            Field::Announce,
                        ) == Ok::<Option<Seq<char>>, DecodeError>(Some(url)) || tiers_hold(
                            tiers,
                            0,
                            url,
                        ) by {
                        assert(torrent.announce_list.contains(url) <==> urls.contains(url));
                        assert(urls.contains(url) <==> first.contains(url) || tiers_hold(
                            tiers,
                            0,
                            url,
                        ));
                    }
                },
                _ => {
                    assert(urls == first);
                    assert forall|url: Seq<char>|
                        torrent.announce_list.contains(url) <==> optional_text(
                            d,
                            Field::Announce,
                        ) == Ok::<Option<Seq<char>>, DecodeError>(Some(url)) by {
                        assert(torrent.announce_list.contains(url) <==> urls.contains(url));
                    }
                },
            }
        },
        Err(_) => {},
    }
}

/// A torrent that was read is well formed.
pub proof fn lemma_torrent_well_formed(v: ValueView, hash: Seq<u8>)
    ensures
        torrent_of(v, hash) matches Ok(torrent) ==> torrent.well_formed(),
{
    match v {
        ValueView::Dictionary(d) => {
            lemma_announce_list(d, hash);
            match d.lookup(Field::Info.key()) {
                Some(info_value) => {
                    lemma_info_well_formed(info_value, hash);
                },
                None => {},
            }
        },
        _ => {},
    }
}

/// The errors of the grammar are syntax errors.
pub proof fn lemma_parse_errors_are_syntax(s: Seq<u8>, pos: int, depth: nat)
    ensures
        parse_value(s, pos, depth) matches Err(e) ==> e.is_syntax(),
    decreases s.len() - pos, 0int,
{
    if 0 <= pos < s.len() {
        if s[pos] == INTEGER_START {
        } else if is_digit(s[pos]) {
        } else if s[pos] == LIST_START {
            if depth < MAX_DEPTH {
                lemma_list_errors_are_syntax(s, pos + 1, depth + 1, Seq::empty());
            }
        } else if s[pos] == DICTIONARY_START {
            if depth < MAX_DEPTH {
                lemma_dictionary_errors_are_syntax(s, pos + 1, depth + 1, Seq::empty());
            }
        }
    }
}

/// The errors of the items of a list are syntax errors.
pub proof fn lemma_list_errors_are_syntax(
    s: Seq<u8>,
    pos: int,
    depth: nat,
    items: Seq<ValueView>,
)
    ensures
        parse_list_tail(s, pos, depth, items) matches Err(e) ==> e.is_syntax(),
    decreases s.len() - pos, 1int,
{
    if 0 <= pos < s.len() && s[pos] != END {
        lemma_parse_errors_are_syntax(s, pos, depth);
        match parse_value(s, pos, depth) {
            Ok((item, next)) => {
                if pos < next <= s.len() {
                    lemma_list_errors_are_syntax(s, next, depth, items.push(item));
                }
            },
            Err(_) => {},
        }
    }
}

/// The errors of the entries of a dictionary are syntax errors.
pub proof fn lemma_dictionary_errors_are_syntax(
    s: Seq<u8>,
    pos: int,
    depth: nat,
    entries: Seq<(Seq<u8>, ValueView)>,
)
    ensures
        parse_dictionary_tail(s, pos, depth, entries) matches Err(e) ==> e.is_syntax(),
    decreases s.len() - pos, 1int,
{
    if 0 <= pos < s.len() && s[pos] != END && is_digit(s[pos]) {
        match parse_bytes(s, pos) {
            Ok((key, value_start)) => {
                if pos < value_start <= s.len() {
                    lemma_parse_errors_are_syntax(s, value_start, depth);
                    match parse_value(s, value_start, depth) {
                        Ok((value, next)) => {
                            if value_start < next <= s.len() {
                                lemma_dictionary_errors_are_syntax(
                                    s,
                                    next,
                                    depth,
                                    with_entry(entries, key, value),
                                );
                            }
                        },
                        Err(_) => {},
                    }
                }
            },
            Err(_) => {},
        }
    }
}

/// The errors of `texts_from` are schema errors.
proof fn lemma_texts_errors_are_schema(
    items: Seq<ValueView>,
    field: Field,
    from: int,
    texts: Seq<Seq<char>>,
)
    ensures
        texts_from(items, field, from, texts) matches Err(e) ==> e.is_schema(),
    decreases items.len() - from,
{
    if 0 <= from < items.len() {
        match items[from] {
            ValueView::ByteString(bytes) => {
                match text_of(bytes) {
                    Some(text) => {
                        lemma_texts_errors_are_schema(items, field, from + 1, texts.push(text));
                    },
                    None => {},
                }
            },
            _ => {},
        }
    }
}

/// The errors of `file_of` are schema errors.
proof fn lemma_file_errors_are_schema(v: ValueView)
    ensures
        file_of(v) matches Err(e) ==> e.is_schema(),
{
    match v {
        ValueView::Dictionary(d) => {
            match d.lookup(Field::Path.key()) {
                Some(ValueView::List(segments)) => {
                    lemma_texts_errors_are_schema(segments, Field::Path, 0, Seq::empty());
                },
                _ => {},
            }
        },
        _ => {},
    }
}

/// The errors of `files_from` are schema errors.
proof fn lemma_files_errors_are_schema(items: Seq<ValueView>, from: int, files: Seq<FileView>)
    ensures
        files_from(items, from, files) matches Err(e) ==> e.is_schema(),
    decreases items.len() - from,
{
    if 0 <= from < items.len() {
        lemma_file_errors_are_schema(items[from]);
        match file_of(items[from]) {
            Ok(file) => {
                lemma_files_errors_are_schema(items, from + 1, files.push(file));
            },
            Err(_) => {},
        }
    }
}

/// The errors of `tiers_from` are schema errors.
proof fn lemma_tiers_errors_are_schema(tiers: Seq<ValueView>, from: int, urls: Seq<Seq<char>>)
    ensures
        tiers_from(tiers, from, urls) matches Err(e) ==> e.is_schema(),
    decreases tiers.len() - from,
{
    if 0 <= from < tiers.len() {
        match tiers[from] {
            ValueView::List(tier) => {
                lemma_texts_errors_are_schema(tier, Field::AnnounceList, 0, urls);
                match texts_from(tier, Field::AnnounceList, 0, urls) {
                    Ok(more) => {
                        lemma_tiers_errors_are_schema(tiers, from + 1, more);
                    },
                    Err(_) => {},
                }
            },
            _ => {},
        }
    }
}

/// The errors of reading an `info` are schema errors.
pub proof fn lemma_info_errors_are_schema(v: ValueView, hash: Seq<u8>)
    ensures
        info_of(v, hash) matches Err(e) ==> e.is_schema(),
{
    match v {
        ValueView::Dictionary(d) => {
            match d.lookup(Field::Files.key()) {
                Some(ValueView::List(items)) => {
                    lemma_files_errors_are_schema(items, 0, Seq::empty());
                },
                _ => {},
            }
        },
        _ => {},
    }
}

/// The errors of reading a document are schema errors.
pub proof fn lemma_torrent_errors_are_schema(v: ValueView, source: Seq<u8>)
    ensures
        torrent_in(v, source) matches Err(e) ==> e.is_schema(),
{
    match v {
        ValueView::Dictionary(d) => {
            match d.lookup(Field::Info.key()) {
                Some(info_value) => {
                    match info_value {
                        ValueView::Dictionary(info) => {
                            match raw_bytes(info, source) {
                                Some(raw) => {
                                    lemma_info_errors_are_schema(info_value, sha1_digest(raw));
                                },
                                None => {},
                            }
                        },
                        _ => {},
                    }
                },
                None => {},
            }
            match d.lookup(Field::AnnounceList.key()) {
                Some(ValueView::List(tiers)) => {
                    match optional_text(d, Field::Announce) {
                        Ok(Some(url)) => {
                            lemma_tiers_errors_are_schema(tiers, 0, seq![url]);
                        },
                        Ok(None) => {
                            lemma_tiers_errors_are_schema(tiers, 0, Seq::empty());
                        },
                        Err(_) => {},
                    }
                },
                _ => {},
            }
        },
        _ => {},
    }
}

/// Decoding fails with a syntax error exactly where the buffer does not
/// start with a bencoded value, and with a schema error exactly where that
/// value is no metainfo document.
pub proof fn lemma_error_taxonomy(source: Seq<u8>)
    ensures
        torrent_from(source) matches Err(e) ==> (e.is_syntax() <==> parse(source) is Err),
        torrent_from(source) matches Err(e) ==> (e.is_schema() <==> parse(source) is Ok),
{
    lemma_parse_errors_are_syntax(source, 0, 0);
    match parse(source) {
        Ok(v) => {
            lemma_torrent_errors_are_schema(v, source);
        },
        Err(_) => {},
    }
}

/// What a moved dictionary holds under a key is what the dictionary holds
/// there, moved.
proof fn lemma_lookup_moved(d: DictionaryView, key: Seq<u8>, delta: int)
    ensures
        moved_dictionary(d, delta).lookup(key) == match d.lookup(key) {
            Some(v) => Some(moved(v, delta)),
            None => None,
        },
{
    lemma_find_key_moved(d.entries, key, 0, delta);
    lemma_find_key(d.entries, key, 0);
}

/// The texts of moved items are the texts of the items.
proof fn lemma_texts_from_moved(
    items: Seq<ValueView>,
    field: Field,
    from: int,
    texts: Seq<Seq<char>>,
    delta: int,
)
    ensures
        texts_from(moved_items(items, delta), field, from, texts) == texts_from(
            items,
            field,
            from,
            texts,
        ),
    decreases items.len() - from,
{
    if 0 <= from < items.len() {
        assert(moved_items(items, delta)[from] == moved(items[from], delta));
        match items[from] {
            ValueView::ByteString(bytes) => {
                match text_of(bytes) {
                    Some(text) => {
                        lemma_texts_from_moved(items, field, from + 1, texts.push(text), delta);
                    },
                    None => {},
                }
            },
            _ => {},
        }
    }
}

/// The file that a moved entry describes is the file that the entry
/// describes.
proof fn lemma_file_of_moved(v: ValueView, delta: int)
    ensures
        file_of(moved(v, delta)) == file_of(v),
{
    match v {
        ValueView::Dictionary(d) => {
            let m = moved_dictionary(d, delta);
            assert(moved(v, delta) == ValueView::Dictionary(m));
            lemma_lookup_moved(d, Field::Length.key(), delta);
            lemma_lookup_moved(d, Field::Md5sum.key(), delta);
            lemma_lookup_moved(d, Field::Path.key(), delta);
            match d.lookup(Field::Path.key()) {
                Some(ValueView::List(segments)) => {
                    lemma_texts_from_moved(segments, Field::Path, 0, Seq::empty(), delta);
                },
                _ => {},
            }
        },
        _ => {},
    }
}

/// The files that moved items describe are the files that the items
/// describe.
proof fn lemma_files_from_moved(
    items: Seq<ValueView>,
    from: int,
    files: Seq<FileView>,
    delta: int,
)
    ensures
        files_from(moved_items(items, delta), from, files) == files_from(items, from, files),
    decreases items.len() - from,
{
    if 0 <= from < items.len() {
        assert(moved_items(items, delta)[from] == moved(items[from], delta));
        lemma_file_of_moved(items[from], delta);
        match file_of(items[from]) {
            Ok(file) => {
                lemma_files_from_moved(items, from + 1, files.push(file), delta);
            },
            Err(_) => {},
        }
    }
}

/// The `info` that a dictionary describes does not depend on where the
/// dictionary stands: the spans are not read.
pub proof fn lemma_info_of_moved(v: ValueView, delta: int, hash: Seq<u8>)
    ensures
        info_of(moved(v, delta), hash) == info_of(v, hash),
{
    match v {
        ValueView::Dictionary(d) => {
            let m = moved_dictionary(d, delta);
            assert(moved(v, delta) == ValueView::Dictionary(m));
            lemma_lookup_moved(d, Field::PieceLength.key(), delta);
            lemma_lookup_moved(d, Field::Pieces.key(), delta);
            lemma_lookup_moved(d, Field::Name.key(), delta);
            lemma_lookup_moved(d, Field::Files.key(), delta);
            lemma_lookup_moved(d, Field::Length.key(), delta);
            lemma_lookup_moved(d, Field::Md5sum.key(), delta);
            match d.lookup(Field::Files.key()) {
                Some(ValueView::List(items)) => {
                    lemma_files_from_moved(items, 0, Seq::empty(), delta);
                },
                _ => {},
            }
        },
        _ => {},
    }
}

/// The `info` of a torrent depends on the bytes of its `info` dictionary
/// alone: two documents whose `info` dictionaries are written with the same
/// bytes have the same `info`, name, files, piece hashes and hash, whatever
/// else the documents hold and wherever in them the dictionary stands.
pub proof fn lemma_info_depends_on_its_bytes(a: Seq<u8>, b: Seq<u8>)
    requires
        torrent_from(a) is Ok,
        torrent_from(b) is Ok,
        info_bytes(parse(a)->Ok_0, a) == info_bytes(parse(b)->Ok_0, b),
    ensures
        torrent_from(a)->Ok_0.info == torrent_from(b)->Ok_0.info,
{
    let root_a = parse(a)->Ok_0;
    let root_b = parse(b)->Ok_0;
    let raw = info_bytes(root_a, a)->Ok_0;
    lemma_value_spans(a, 0, 0);
    lemma_value_spans(b, 0, 0);
    let da = root_a->Dictionary_0;
    let db = root_b->Dictionary_0;
    lemma_find_key(da.entries, Field::Info.key(), 0);
    lemma_find_key(db.entries, Field::Info.key(), 0);
    let ia = find_key(da.entries, Field::Info.key(), 0)->Some_0;
    let ib = find_key(db.entries, Field::Info.key(), 0)->Some_0;
    let info_a = da.entries[ia].1;
    let info_b = db.entries[ib].1;
    assert(spans_hold(info_a, a, 1));
    assert(spans_hold(info_b, b, 1));
    let sa = info_a->Dictionary_0;
    let sb = info_b->Dictionary_0;
    lemma_same_bytes_of_slices(a, sa.start, sa.end, b, sb.start, sb.end);
    lemma_value_local(a, sa.start, b, sb.start, 1);
    assert(info_b == moved(info_a, sb.start - sa.start));
    lemma_info_of_moved(info_a, sb.start - sa.start, sha1_digest(raw));
}

} // verus!
