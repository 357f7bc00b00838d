//! Texts: byte strings read as UTF-8, lists of texts, and paths.

use std::string::FromUtf8Error;
use vstd::prelude::*;
use vstd::slice::slice_to_vec;
use vstd::string::StringExecFns;
use vstd::utf8::{decode_utf8, valid_utf8};

verus! {

/// The error of `String::from_utf8`. Nothing is read from it.
#[verifier::external_type_specification]
#[verifier::external_body]
pub struct ExFromUtf8Error(FromUtf8Error);

/// `String::from_utf8` of the standard library. Taken on trust: it accepts
/// the bytes if and only if they are valid UTF-8, and the string that it
/// returns holds the characters that they encode.
pub assume_specification[ String::from_utf8 ](vec: Vec<u8>) -> (result: Result<
    String,
    FromUtf8Error,
>)
    ensures
        result is Ok <==> valid_utf8(vec@),
        result matches Ok(text) ==> text@ == decode_utf8(vec@),
;

/// The text that `bytes` encode in UTF-8, if they encode one.
pub open spec fn text_of(bytes: Seq<u8>) -> Option<Seq<char>> {
    if valid_utf8(bytes) {
        Some(decode_utf8(bytes))
    } else {
        None
    }
}

/// Reads `bytes` as UTF-8.
pub fn read_text(bytes: &[u8]) -> (text: Option<String>)
    ensures
        match text {
            Some(t) => text_of(bytes@) == Some(t@),
            None => text_of(bytes@) is None,
        },
{
    match String::from_utf8(slice_to_vec(bytes)) {
        Ok(text) => Some(text),
        Err(_) => None,
    }
}

/// The characters of each string of `list`.
pub open spec fn texts(list: Seq<String>) -> Seq<Seq<char>> {
    Seq::new(list.len(), |i: int| list[i]@)
}

/// The texts of `list` in their order, each once: of two equal texts the
/// first stays.
pub open spec fn unique(list: Seq<Seq<char>>) -> Seq<Seq<char>>
    decreases list.len(),
{
    if list.len() == 0 {
        Seq::empty()
    } else {
        let front = unique(list.drop_last());
        if front.contains(list.last()) {
            front
        } else {
            front.push(list.last())
        }
    }
}

/// `unique` keeps every text, adds none, and repeats none.
pub proof fn lemma_unique(list: Seq<Seq<char>>)
    ensures
        unique(list).no_duplicates(),
        forall|t: Seq<char>| unique(list).contains(t) <==> list.contains(t),
        unique(list).len() <= list.len(),
    decreases list.len(),
{
    if list.len() > 0 {
        let front = list.drop_last();
        lemma_unique(front);
        assert forall|t: Seq<char>| unique(list).contains(t) <==> list.contains(t) by {
            if list.contains(t) {
                let i = choose|i: int| 0 <= i < list.len() && list[i] == t;
                if i < list.len() - 1 {
                    assert(front[i] == t);
                    assert(front.contains(t));
                    assert(unique(front).contains(t));
                    let j = choose|j: int| 0 <= j < unique(front).len() && unique(front)[j] == t;
                    assert(unique(list)[j] == t);
                } else if unique(front).contains(t) {
                } else {
                    assert(unique(list)[unique(front).len() as int] == t);
                }
            }
            if unique(list).contains(t) {
                let j = choose|j: int| 0 <= j < unique(list).len() && unique(list)[j] == t;
                if j < unique(front).len() {
                    assert(unique(front)[j] == t);
                    assert(unique(front).contains(t));
                    assert(front.contains(t));
                    let i = choose|i: int| 0 <= i < front.len() && front[i] == t;
                    assert(list[i] == t);
                } else {
                    assert(list[list.len() - 1] == t);
                }
            }
        }
    }
}

/// Whether `list` holds the text `text`.
pub fn contains_text(list: &Vec<String>, text: &String) -> (found: bool)
    ensures
        found == texts(list@).contains(text@),
{
    let mut i: usize = 0;
    while i < list.len()
        invariant
            i <= list@.len(),
            forall|j: int| 0 <= j < i ==> texts(list@)[j] != text@,
        decreases list@.len() - i,
    {
        if list[i] == *text {
            assert(texts(list@)[i as int] == text@);
            return true;
        }
        i += 1;
    }
    false
}

/// The texts of `list` in their order, each once.
pub fn deduplicate(list: Vec<String>) -> (kept: Vec<String>)
    ensures
        texts(kept@) == unique(texts(list@)),
{
    let ghost all = texts(list@);
    let mut kept: Vec<String> = Vec::new();
    let mut i: usize = 0;
    assert(all.take(0) =~= Seq::<Seq<char>>::empty());
    while i < list.len()
        invariant
            i <= list@.len(),
            all == texts(list@),
            texts(kept@) =~= unique(all.take(i as int)),
        decreases list@.len() - i,
    {
        let text = list[i].clone();
        proof {
            assert(all.take(i + 1).drop_last() =~= all.take(i as int));
            assert(all.take(i + 1).last() == text@);
        }
        if !contains_text(&kept, &text) {
            proof {
                assert(texts(kept@.push(text)) =~= texts(kept@).push(text@));
            }
            kept.push(text);
        }
        i += 1;
    }
    assert(all.take(list@.len() as int) =~= all);
    kept
}

/// The path that `segments` make: the segments in their order with `/`
/// between them.
pub open spec fn join_path(segments: Seq<Seq<char>>) -> Seq<char>
    decreases segments.len(),
{
    if segments.len() == 0 {
        Seq::empty()
    } else if segments.len() == 1 {
        segments[0]
    } else {
        join_path(segments.drop_last()) + seq!['/'] + segments.last()
    }
}

/// Joins `segments` to a path.
pub fn join_segments(segments: &Vec<String>) -> (path: String)
    ensures
        path@ == join_path(texts(segments@)),
{
    let ghost all = texts(segments@);
    let mut path = String::new();
    let mut i: usize = 0;
    assert(all.take(0) =~= Seq::<Seq<char>>::empty());
    while i < segments.len()
        invariant
            i <= segments@.len(),
            all == texts(segments@),
            path@ == join_path(all.take(i as int)),
        decreases segments@.len() - i,
    {
        proof {
            reveal_strlit("/");
            assert(all.take(i + 1).drop_last() =~= all.take(i as int));
            assert(all.take(i + 1).last() == segments@[i as int]@);
            assert("/"@ =~= seq!['/']);
        }
        if i > 0 {
            path.append("/");
        }
        path.append(segments[i].as_str());
        i += 1;
    }
    assert(all.take(segments@.len() as int) =~= all);
    path
}

} // verus!
