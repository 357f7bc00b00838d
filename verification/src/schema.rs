//! The meaning of a metainfo document: which fields of the decoded tree make
//! up a torrent, and which trees are refused.
//!
//! The functions here are the model that the contracts of [`crate::bencode`]
//! speak of. Each reads the fields in a fixed order and gives the error of
//! the first that is wrong.

use crate::digest::sha1_digest;
use crate::error::{DecodeError, Field};
use crate::syntax::parse;
use crate::text::{join_path, text_of, unique};
use crate::value::{DictionaryView, ValueView};
use vstd::prelude::*;

verus! {

/// The number of bytes of a SHA-1 digest.
pub const DIGEST_LENGTH: usize = 20;

/// The content of a [`crate::bencode::File`].
pub struct FileView {
    pub length: int,
    pub md5sum: Option<Seq<char>>,
    pub path: Seq<char>,
}

/// The content of a [`crate::bencode::Info`].
pub struct InfoView {
    pub name: Seq<char>,
    pub files: Seq<FileView>,
    pub hash: Seq<u8>,
    pub piece_length: int,
    pub pieces: Seq<Seq<u8>>,
}

/// The content of a [`crate::bencode::Torrent`].
pub struct TorrentView {
    pub info: InfoView,
    pub announce_list: Seq<Seq<char>>,
    pub creation_date: Option<int>,
    pub comment: Option<Seq<char>>,
    pub created_by: Option<Seq<char>>,
    pub encoding: Option<Seq<char>>,
}

impl InfoView {
    /// Whether there is at least one file, the piece length is positive and
    /// fits in 32 bits, and every piece hash has 20 bytes.
    pub open spec fn well_formed(self) -> bool {
        &&& self.files.len() >= 1
        &&& forall|i: int| 0 <= i < self.files.len() ==> 0 <= (#[trigger] self.files[i]).length
        &&& 1 <= self.piece_length <= u32::MAX
        &&& forall|i: int|
            0 <= i < self.pieces.len() ==> (#[trigger] self.pieces[i]).len() == DIGEST_LENGTH
    }
}

impl TorrentView {
    /// Whether the `info` is well formed and no announce URL occurs twice.
    pub open spec fn well_formed(self) -> bool {
        &&& self.info.well_formed()
        &&& self.announce_list.no_duplicates()
    }
}

/// The text stored under `field`, where the field is there.
pub open spec fn optional_text(d: DictionaryView, field: Field) -> Result<
    Option<Seq<char>>,
    DecodeError,
> {
    match d.lookup(field.key()) {
        None => Ok(None),
        Some(ValueView::ByteString(bytes)) => match text_of(bytes) {
            Some(text) => Ok(Some(text)),
            None => Err(DecodeError::InvalidUtf8 { field }),
        },
        Some(_) => Err(DecodeError::WrongType { field }),
    }
}

/// The text stored under `field`, which must be there.
pub open spec fn required_text(d: DictionaryView, field: Field) -> Result<Seq<char>, DecodeError> {
    match optional_text(d, field) {
        Ok(Some(text)) => Ok(text),
        Ok(None) => Err(DecodeError::MissingField { field }),
        Err(e) => Err(e),
    }
}

/// The integer stored under `field`, where the field is there.
pub open spec fn optional_integer(d: DictionaryView, field: Field) -> Result<
    Option<int>,
    DecodeError,
> {
    match d.lookup(field.key()) {
        None => Ok(None),
        Some(ValueView::Integer(n)) => Ok(Some(n)),
        Some(_) => Err(DecodeError::WrongType { field }),
    }
}

/// The integer stored under `field`, which must be there.
pub open spec fn required_integer(d: DictionaryView, field: Field) -> Result<int, DecodeError> {
    match optional_integer(d, field) {
        Ok(Some(n)) => Ok(n),
        Ok(None) => Err(DecodeError::MissingField { field }),
        Err(e) => Err(e),
    }
}

/// The texts of the items from `from` on, added to `texts`. Every item must
/// be a byte string that holds UTF-8.
pub open spec fn texts_from(
    items: Seq<ValueView>,
    field: Field,
    from: int,
    texts: Seq<Seq<char>>,
) -> Result<Seq<Seq<char>>, DecodeError>
    decreases items.len() - from,
{
    if from < 0 || from >= items.len() {
        Ok(texts)
    } else {
        match items[from] {
            ValueView::ByteString(bytes) => match text_of(bytes) {
                Some(text) => texts_from(items, field, from + 1, texts.push(text)),
                None => Err(DecodeError::InvalidUtf8 { field }),
            },
            _ => Err(DecodeError::WrongType { field }),
        }
    }
}

/// The length of a file: an integer that is not negative.
pub open spec fn length_of(d: DictionaryView) -> Result<int, DecodeError> {
    match required_integer(d, Field::Length) {
        Ok(n) => if 0 <= n {
            Ok(n)
        } else {
            Err(DecodeError::OutOfRange { field: Field::Length })
        },
        Err(e) => Err(e),
    }
}

/// The path of a file: the segments of the list under `path`, joined.
pub open spec fn path_of(d: DictionaryView) -> Result<Seq<char>, DecodeError> {
    match d.lookup(Field::Path.key()) {
        None => Err(DecodeError::MissingField { field: Field::Path }),
        Some(ValueView::List(segments)) => match texts_from(
            segments,
            Field::Path,
            0,
            Seq::empty(),
        ) {
            Ok(texts) => Ok(join_path(texts)),
            Err(e) => Err(e),
        },
        Some(_) => Err(DecodeError::WrongType { field: Field::Path }),
    }
}

/// The file that an entry of the list under `files` describes. The entry is
/// a dictionary with a `length`, a `path` and perhaps an `md5sum`.
pub open spec fn file_of(v: ValueView) -> Result<FileView, DecodeError> {
    match v {
        ValueView::Dictionary(d) => match length_of(d) {
            Err(e) => Err(e),
            Ok(length) => match optional_text(d, Field::Md5sum) {
                Err(e) => Err(e),
                Ok(md5sum) => match path_of(d) {
                    Err(e) => Err(e),
                    Ok(path) => Ok(FileView { length, md5sum, path }),
                },
            },
        },
        _ => Err(DecodeError::WrongType { field: Field::Files }),
    }
}

/// The files that the items from `from` on describe, added to `files`.
pub open spec fn files_from(items: Seq<ValueView>, from: int, files: Seq<FileView>) -> Result<
    Seq<FileView>,
    DecodeError,
>
    decreases items.len() - from,
{
    if from < 0 || from >= items.len() {
        Ok(files)
    } else {
        match file_of(items[from]) {
            Ok(file) => files_from(items, from + 1, files.push(file)),
            Err(e) => Err(e),
        }
    }
}

/// The piece length: an integer that is positive and fits in 32 bits.
pub open spec fn piece_length_of(d: DictionaryView) -> Result<int, DecodeError> {
    match required_integer(d, Field::PieceLength) {
        Ok(n) => if 1 <= n <= u32::MAX {
            Ok(n)
        } else {
            Err(DecodeError::OutOfRange { field: Field::PieceLength })
        },
        Err(e) => Err(e),
    }
}

/// The consecutive chunks of `DIGEST_LENGTH` bytes of `raw`, in their order.
pub open spec fn chunks(raw: Seq<u8>) -> Seq<Seq<u8>> {
    Seq::new(
        raw.len() / (DIGEST_LENGTH as nat),
        |i: int| raw.subrange(DIGEST_LENGTH * i, DIGEST_LENGTH * i + DIGEST_LENGTH),
    )
}

/// The piece hashes: the chunks of the byte string under `pieces`, whose
/// length must be a multiple of `DIGEST_LENGTH`.
pub open spec fn pieces_of(d: DictionaryView) -> Result<Seq<Seq<u8>>, DecodeError> {
    match d.lookup(Field::Pieces.key()) {
        None => Err(DecodeError::MissingField { field: Field::Pieces }),
        Some(ValueView::ByteString(raw)) => if raw.len() % (DIGEST_LENGTH as nat) == 0 {
            Ok(chunks(raw))
        } else {
            Err(DecodeError::InvalidPiecesLength { length: raw.len() as usize })
        },
        Some(_) => Err(DecodeError::WrongType { field: Field::Pieces }),
    }
}

/// The one file of a torrent without a list of files: its length and
/// checksum stand in the `info` dictionary itself, and its path is the name.
pub open spec fn single_file_of(d: DictionaryView, name: Seq<char>) -> Result<
    FileView,
    DecodeError,
> {
    match length_of(d) {
        Err(e) => Err(e),
        Ok(length) => match optional_text(d, Field::Md5sum) {
            Err(e) => Err(e),
            Ok(md5sum) => Ok(FileView { length, md5sum, path: name }),
        },
    }
}

/// The files of a torrent: those of the list under `files`, which must not
/// be empty, or else the one file that the dictionary itself describes.
pub open spec fn files_of(d: DictionaryView, name: Seq<char>) -> Result<
    Seq<FileView>,
    DecodeError,
> {
    match d.lookup(Field::Files.key()) {
        Some(ValueView::List(items)) => if items.len() == 0 {
            Err(DecodeError::EmptyFileList)
        } else {
            files_from(items, 0, Seq::empty())
        },
        Some(_) => Err(DecodeError::WrongType { field: Field::Files }),
        None => match single_file_of(d, name) {
            Ok(file) => Ok(seq![file]),
            Err(e) => Err(e),
        },
    }
}

/// The `info` that the dictionary `v` describes, with `hash` as its hash.
pub open spec fn info_of(v: ValueView, hash: Seq<u8>) -> Result<InfoView, DecodeError> {
    match v {
        ValueView::Dictionary(d) => match piece_length_of(d) {
            Err(e) => Err(e),
            Ok(piece_length) => match pieces_of(d) {
                Err(e) => Err(e),
                Ok(pieces) => match required_text(d, Field::Name) {
                    Err(e) => Err(e),
                    Ok(name) => match files_of(d, name) {
                        Err(e) => Err(e),
                        Ok(files) => Ok(InfoView { name, files, hash, piece_length, pieces }),
                    },
                },
            },
        },
        _ => Err(DecodeError::WrongType { field: Field::Info }),
    }
}

/// The URLs of the tiers from `from` on, added to `urls`. Every tier must be
/// a list of texts.
pub open spec fn tiers_from(tiers: Seq<ValueView>, from: int, urls: Seq<Seq<char>>) -> Result<
    Seq<Seq<char>>,
    DecodeError,
>
    decreases tiers.len() - from,
{
    if from < 0 || from >= tiers.len() {
        Ok(urls)
    } else {
        match tiers[from] {
            ValueView::List(tier) => match texts_from(tier, Field::AnnounceList, 0, urls) {
                Ok(more) => tiers_from(tiers, from + 1, more),
                Err(e) => Err(e),
            },
            _ => Err(DecodeError::WrongType { field: Field::AnnounceList }),
        }
    }
}

/// Every announce URL of the document: that under `announce`, then those of
/// the tiers under `announce-list` in their order.
pub open spec fn urls_of(d: DictionaryView) -> Result<Seq<Seq<char>>, DecodeError> {
    match optional_text(d, Field::Announce) {
        Err(e) => Err(e),
        Ok(announce) => {
            let first = match announce {
                Some(url) => seq![url],
                None => Seq::empty(),
            };
            match d.lookup(Field::AnnounceList.key()) {
                None => Ok(first),
                Some(ValueView::List(tiers)) => tiers_from(tiers, 0, first),
                Some(_) => Err(DecodeError::WrongType { field: Field::AnnounceList }),
            }
        },
    }
}

/// The torrent that the document `v` describes, with `hash` as the hash of
/// its `info`. The announce URLs are kept once each.
pub open spec fn torrent_of(v: ValueView, hash: Seq<u8>) -> Result<TorrentView, DecodeError> {
    match v {
        ValueView::Dictionary(d) => match d.lookup(Field::Info.key()) {
            None => Err(DecodeError::MissingField { field: Field::Info }),
            Some(info_value) => match info_of(info_value, hash) {
                Err(e) => Err(e),
                Ok(info) => match urls_of(d) {
                    Err(e) => Err(e),
                    Ok(urls) => match optional_integer(d, Field::CreationDate) {
                        Err(e) => Err(e),
                        Ok(creation_date) => match optional_text(d, Field::Comment) {
                            Err(e) => Err(e),
                            Ok(comment) => match optional_text(d, Field::CreatedBy) {
                                Err(e) => Err(e),
                                Ok(created_by) => match optional_text(d, Field::Encoding) {
                                    Err(e) => Err(e),
                                    Ok(encoding) => Ok(
                                        TorrentView {
                                            info,
                                            announce_list: unique(urls),
                                            creation_date,
                                            comment,
                                            created_by,
                                            encoding,
                                        },
                                    ),
                                },
                            },
                        },
                    },
                },
            },
        },
        _ => Err(DecodeError::WrongType { field: Field::Root }),
    }
}

/// The bytes of the dictionary `d` in a buffer, where its span lies within
/// the buffer.
pub open spec fn raw_bytes(d: DictionaryView, source: Seq<u8>) -> Option<Seq<u8>> {
    if 0 <= d.start <= d.end <= source.len() {
        Some(source.subrange(d.start, d.end))
    } else {
        None
    }
}

/// The `info` that the dictionary `v`, decoded from `source`, describes. Its
/// hash is the digest of the bytes of the dictionary as they stand in
/// `source`.
pub open spec fn info_in(v: ValueView, source: Seq<u8>) -> Result<InfoView, DecodeError> {
    match v {
        ValueView::Dictionary(d) => match raw_bytes(d, source) {
            Some(raw) => info_of(v, sha1_digest(raw)),
            None => Err(DecodeError::SpanOutsideSource),
        },
        _ => Err(DecodeError::WrongType { field: Field::Info }),
    }
}

/// The bytes of the `info` dictionary of the document `v` in `source`.
pub open spec fn info_bytes(v: ValueView, source: Seq<u8>) -> Result<Seq<u8>, DecodeError> {
    match v {
        ValueView::Dictionary(d) => match d.lookup(Field::Info.key()) {
            None => Err(DecodeError::MissingField { field: Field::Info }),
            Some(ValueView::Dictionary(info)) => match raw_bytes(info, source) {
                Some(raw) => Ok(raw),
                None => Err(DecodeError::SpanOutsideSource),
            },
            Some(_) => Err(DecodeError::WrongType { field: Field::Info }),
        },
        _ => Err(DecodeError::WrongType { field: Field::Root }),
    }
}

/// The torrent that the document `v`, decoded from `source`, describes.
pub open spec fn torrent_in(v: ValueView, source: Seq<u8>) -> Result<TorrentView, DecodeError> {
    match info_bytes(v, source) {
        Ok(raw) => torrent_of(v, sha1_digest(raw)),
        Err(e) => Err(e),
    }
}

/// The torrent that the buffer `source` describes.
pub open spec fn torrent_from(source: Seq<u8>) -> Result<TorrentView, DecodeError> {
    match parse(source) {
        Ok(v) => torrent_in(v, source),
        Err(e) => Err(e),
    }
}

} // verus!
