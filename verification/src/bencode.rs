//! Torrents: the typed content of a metainfo document.
//!
//! [`Torrent::new`] decodes a buffer. The contracts speak of the model in
//! [`crate::schema`].

use crate::decoder::decode;
use crate::digest::sha1;
use crate::error::{DecodeError, Field};
use crate::laws::{lemma_error_taxonomy, lemma_info_well_formed, lemma_torrent_well_formed};
use crate::syntax::parse;
use crate::schema::{
    chunks, file_of, files_from, files_of, info_bytes, info_in, info_of, length_of,
    optional_integer, optional_text, path_of, piece_length_of, pieces_of, required_integer,
    required_text, single_file_of, texts_from, tiers_from, torrent_from, torrent_in, torrent_of,
    urls_of, FileView, InfoView, TorrentView, DIGEST_LENGTH,
};
use crate::text::{deduplicate, join_segments, read_text, texts};
use crate::value::{items_view, BencodeValue, Dictionary};
use vstd::prelude::*;
use vstd::slice::slice_subrange;

verus! {

/// One file of a torrent.
#[derive(Clone, Debug, PartialEq, Eq)]
pub struct File {
    /// The number of bytes of the file.
    pub length: u64,
    /// A checksum of the file, kept as it was written.
    pub md5sum: Option<String>,
    /// The path of the file below the torrent's directory, its segments
    /// joined by `/`; of the one file of a single-file torrent, the name.
    pub path: String,
}

/// The description of the content of a torrent.
#[derive(Clone, Debug, PartialEq, Eq)]
pub struct Info {
    /// The name of the file or of the directory.
    pub name: String,
    /// The files, at least one.
    pub files: Vec<File>,
    /// The SHA-1 digest of the `info` dictionary as it stands in the document.
    pub hash: [u8; 20],
    /// The number of bytes of a piece.
    pub piece_length: u32,
    /// The SHA-1 digest of each piece, in the order of the pieces.
    pub pieces: Vec<[u8; 20]>,
}

/// A torrent.
#[derive(Clone, Debug, PartialEq, Eq)]
pub struct Torrent {
    pub info: Info,
    /// The announce URLs, each once, in the order in which the document
    /// first names them.
    pub announce_list: Vec<String>,
    /// When the torrent was made, in seconds since the Unix epoch.
    pub creation_date: Option<i64>,
    pub comment: Option<String>,
    pub created_by: Option<String>,
    pub encoding: Option<String>,
}

/// The characters of a string that may be absent.
pub open spec fn optional_text_view(text: Option<String>) -> Option<Seq<char>> {
    match text {
        Some(t) => Some(t@),
        None => None,
    }
}

/// The number that may be absent, as an integer.
pub open spec fn optional_integer_view(number: Option<i64>) -> Option<int> {
    match number {
        Some(n) => Some(n as int),
        None => None,
    }
}

/// The content of each of `files`.
pub open spec fn files_view(files: Seq<File>) -> Seq<FileView> {
    Seq::new(files.len(), |i: int| files[i]@)
}

/// The bytes of each of `pieces`.
pub open spec fn pieces_view(pieces: Seq<[u8; 20]>) -> Seq<Seq<u8>> {
    Seq::new(pieces.len(), |i: int| pieces[i]@)
}

impl View for File {
    type V = FileView;

    open spec fn view(&self) -> FileView {
        FileView {
            length: self.length as int,
            md5sum: optional_text_view(self.md5sum),
            path: self.path@,
        }
    }
}

impl View for Info {
    type V = InfoView;

    open spec fn view(&self) -> InfoView {
        InfoView {
            name: self.name@,
            files: files_view(self.files@),
            hash: self.hash@,
            piece_length: self.piece_length as int,
            pieces: pieces_view(self.pieces@),
        }
    }
}

impl View for Torrent {
    type V = TorrentView;

    open spec fn view(&self) -> TorrentView {
        TorrentView {
            info: self.info@,
            announce_list: texts(self.announce_list@),
            creation_date: optional_integer_view(self.creation_date),
            comment: optional_text_view(self.comment),
            created_by: optional_text_view(self.created_by),
            encoding: optional_text_view(self.encoding),
        }
    }
}

/// Whether `result` is what reading a file gives when the model says
/// `expected`: the file with that content, or that error.
pub open spec fn file_decoded(
    result: Result<File, DecodeError>,
    expected: Result<FileView, DecodeError>,
) -> bool {
    match result {
        Ok(file) => expected == Ok::<FileView, DecodeError>(file@),
        Err(e) => expected == Err::<FileView, DecodeError>(e),
    }
}

/// Whether `result` is what reading an `info` gives when the model says
/// `expected`: the `info` with that content, or that error.
pub open spec fn info_decoded(
    result: Result<Info, DecodeError>,
    expected: Result<InfoView, DecodeError>,
) -> bool {
    match result {
        Ok(info) => expected == Ok::<InfoView, DecodeError>(info@),
        Err(e) => expected == Err::<InfoView, DecodeError>(e),
    }
}

/// Whether `result` is what decoding gives when the model says `expected`:
/// the torrent with that content, or that error.
pub open spec fn torrent_decoded(
    result: Result<Torrent, DecodeError>,
    expected: Result<TorrentView, DecodeError>,
) -> bool {
    match result {
        Ok(torrent) => expected == Ok::<TorrentView, DecodeError>(torrent@),
        Err(e) => expected == Err::<TorrentView, DecodeError>(e),
    }
}

/// Reads the text stored under `field`, where the field is there.
fn text_field(d: &Dictionary, field: Field) -> (result: Result<Option<String>, DecodeError>)
    ensures
        match result {
            Ok(text) => optional_text(d@, field) == Ok::<Option<Seq<char>>, DecodeError>(
                optional_text_view(text),
            ),
            Err(e) => optional_text(d@, field) == Err::<Option<Seq<char>>, DecodeError>(e),
        },
{
    match d.get(field.key_bytes()) {
        None => Ok(None),
        Some(BencodeValue::ByteString(bytes)) => match read_text(bytes.as_slice()) {
            Some(text) => Ok(Some(text)),
            None => Err(DecodeError::InvalidUtf8 { field }),
        },
        Some(_) => Err(DecodeError::WrongType { field }),
    }
}

/// Reads the text stored under `field`, which must be there.
fn required_text_field(d: &Dictionary, field: Field) -> (result: Result<String, DecodeError>)
    ensures
        match result {
            Ok(text) => required_text(d@, field) == Ok::<Seq<char>, DecodeError>(text@),
            Err(e) => required_text(d@, field) == Err::<Seq<char>, DecodeError>(e),
        },
{
    match text_field(d, field) {
        Ok(Some(text)) => Ok(text),
        Ok(None) => Err(DecodeError::MissingField { field }),
        Err(e) => Err(e),
    }
}

/// Reads the integer stored under `field`, where the field is there.
fn integer_field(d: &Dictionary, field: Field) -> (result: Result<Option<i64>, DecodeError>)
    ensures
        match result {
            Ok(number) => optional_integer(d@, field) == Ok::<Option<int>, DecodeError>(
                optional_integer_view(number),
            ),
            Err(e) => optional_integer(d@, field) == Err::<Option<int>, DecodeError>(e),
        },
{
    match d.get(field.key_bytes()) {
        None => Ok(None),
        Some(BencodeValue::Integer(n)) => Ok(Some(*n)),
        Some(_) => Err(DecodeError::WrongType { field }),
    }
}

/// Reads the integer stored under `field`, which must be there.
fn required_integer_field(d: &Dictionary, field: Field) -> (result: Result<i64, DecodeError>)
    ensures
        match result {
            Ok(n) => required_integer(d@, field) == Ok::<int, DecodeError>(n as int),
            Err(e) => required_integer(d@, field) == Err::<int, DecodeError>(e),
        },
{
    match integer_field(d, field) {
        Ok(Some(n)) => Ok(n),
        Ok(None) => Err(DecodeError::MissingField { field }),
        Err(e) => Err(e),
    }
}

/// Reads the texts of `items` and adds them to `found`.
fn collect_texts(items: &Vec<BencodeValue>, field: Field, found: Vec<String>) -> (result: Result<
    Vec<String>,
    DecodeError,
>)
    ensures
        match result {
            Ok(all) => texts_from(items_view(items@), field, 0, texts(found@)) == Ok::<
                Seq<Seq<char>>,
                DecodeError,
            >(texts(all@)),
            Err(e) => texts_from(items_view(items@), field, 0, texts(found@)) == Err::<
                Seq<Seq<char>>,
                DecodeError,
            >(e),
        },
{
    let ghost expected = texts_from(items_view(items@), field, 0, texts(found@));
    let mut all = found;
    let mut i: usize = 0;
    while i < items.len()
        invariant
            i <= items@.len(),
            expected == texts_from(items_view(items@), field, 0, texts(found@)),
            expected == texts_from(items_view(items@), field, i as int, texts(all@)),
        decreases items@.len() - i,
    {
        match &items[i] {
            BencodeValue::ByteString(bytes) => match read_text(bytes.as_slice()) {
                Some(text) => {
                    proof {
                        assert(texts(all@.push(text)) =~= texts(all@).push(text@));
                    }
                    all.push(text);
                },
                None => {
                    return Err(DecodeError::InvalidUtf8 { field });
                },
            },
            _ => {
                return Err(DecodeError::WrongType { field });
            },
        }
        i += 1;
    }
    Ok(all)
}

/// Reads the length of a file.
fn file_length(d: &Dictionary) -> (result: Result<u64, DecodeError>)
    ensures
        match result {
            Ok(n) => length_of(d@) == Ok::<int, DecodeError>(n as int),
            Err(e) => length_of(d@) == Err::<int, DecodeError>(e),
        },
{
    match required_integer_field(d, Field::Length) {
        Ok(n) => if n < 0 {
            Err(DecodeError::OutOfRange { field: Field::Length })
        } else {
            Ok(n as u64)
        },
        Err(e) => Err(e),
    }
}

/// Reads the path of a file.
fn file_path(d: &Dictionary) -> (result: Result<String, DecodeError>)
    ensures
        match result {
            Ok(path) => path_of(d@) == Ok::<Seq<char>, DecodeError>(path@),
            Err(e) => path_of(d@) == Err::<Seq<char>, DecodeError>(e),
        },
{
    match d.get(Field::Path.key_bytes()) {
        None => Err(DecodeError::MissingField { field: Field::Path }),
        Some(BencodeValue::List(segments)) => {
            let none: Vec<String> = Vec::new();
            assert(texts(none@) =~= Seq::<Seq<char>>::empty());
            match collect_texts(segments, Field::Path, none) {
                Ok(found) => Ok(join_segments(&found)),
                Err(e) => Err(e),
            }
        },
        Some(_) => Err(DecodeError::WrongType { field: Field::Path }),
    }
}

impl File {
    /// Reads a file from an entry of the list of files.
    ///
    /// The entry must be a dictionary. Its `length` is required and not
    /// negative, its `md5sum` optional, its `path` a required list of texts.
    pub fn decode_bencode_object(value: &BencodeValue) -> (result: Result<File, DecodeError>)
        ensures
            file_decoded(result, file_of(value@)),
    {
        match value {
            BencodeValue::Dictionary(d) => {
                let length = file_length(d)?;
                let md5sum = text_field(d, Field::Md5sum)?;
                let path = file_path(d)?;
                Ok(File { length, md5sum, path })
            },
            _ => Err(DecodeError::WrongType { field: Field::Files }),
        }
    }
}

/// Reads the files that `items` describe.
fn collect_files(items: &Vec<BencodeValue>) -> (result: Result<Vec<File>, DecodeError>)
    ensures
        match result {
            Ok(files) => files_from(items_view(items@), 0, Seq::empty()) == Ok::<
                Seq<FileView>,
                DecodeError,
            >(files_view(files@)),
            Err(e) => files_from(items_view(items@), 0, Seq::empty()) == Err::<
                Seq<FileView>,
                DecodeError,
            >(e),
        },
{
    let ghost expected = files_from(items_view(items@), 0, Seq::empty());
    let mut files: Vec<File> = Vec::new();
    let mut i: usize = 0;
    assert(files_view(files@) =~= Seq::<FileView>::empty());
    while i < items.len()
        invariant
            i <= items@.len(),
            expected == files_from(items_view(items@), 0, Seq::empty()),
            expected == files_from(items_view(items@), i as int, files_view(files@)),
        decreases items@.len() - i,
    {
        match File::decode_bencode_object(&items[i]) {
            Ok(file) => {
                proof {
                    assert(files_view(files@.push(file)) =~= files_view(files@).push(file@));
                }
                files.push(file);
            },
            Err(e) => {
                return Err(e);
            },
        }
        i += 1;
    }
    Ok(files)
}

/// Splits `raw` into its chunks of `DIGEST_LENGTH` bytes.
fn split_pieces(raw: &[u8]) -> (pieces: Vec<[u8; 20]>)
    requires
        raw@.len() % (DIGEST_LENGTH as nat) == 0,
    ensures
        pieces_view(pieces@) == chunks(raw@),
{
    let mut pieces: Vec<[u8; 20]> = Vec::new();
    let mut start: usize = 0;
    while start < raw.len()
        invariant
            DIGEST_LENGTH == 20,
            raw@.len() % 20 == 0,
            start <= raw@.len(),
            start == 20 * pieces@.len(),
            forall|k: int|
                0 <= k < pieces@.len() ==> (#[trigger] pieces@[k])@ == raw@.subrange(
                    20 * k,
                    20 * k + 20,
                ),
        decreases raw@.len() - start,
    {
        let mut piece = [0u8;20];
        let mut j: usize = 0;
        while j < 20
            invariant
                j <= 20,
                start + 20 <= raw.len(),
                forall|k: int| 0 <= k < j ==> piece@[k] == raw@[start + k],
            decreases 20 - j,
        {
            piece[j] = raw[start + j];
            j += 1;
        }
        assert(piece@ =~= raw@.subrange(start as int, start + 20));
        pieces.push(piece);
        start += 20;
    }
    assert(pieces_view(pieces@) =~= chunks(raw@));
    pieces
}

/// Reads the piece length.
fn piece_length(d: &Dictionary) -> (result: Result<u32, DecodeError>)
    ensures
        match result {
            Ok(n) => piece_length_of(d@) == Ok::<int, DecodeError>(n as int),
            Err(e) => piece_length_of(d@) == Err::<int, DecodeError>(e),
        },
{
    match required_integer_field(d, Field::PieceLength) {
        Ok(n) => if 1 <= n && n <= 0xffff_ffff {
            Ok(n as u32)
        } else {
            Err(DecodeError::OutOfRange { field: Field::PieceLength })
        },
        Err(e) => Err(e),
    }
}

/// Reads the piece hashes.
fn piece_hashes(d: &Dictionary) -> (result: Result<Vec<[u8; 20]>, DecodeError>)
    ensures
        match result {
            Ok(pieces) => pieces_of(d@) == Ok::<Seq<Seq<u8>>, DecodeError>(pieces_view(pieces@)),
            Err(e) => pieces_of(d@) == Err::<Seq<Seq<u8>>, DecodeError>(e),
        },
{
    match d.get(Field::Pieces.key_bytes()) {
        None => Err(DecodeError::MissingField { field: Field::Pieces }),
        Some(BencodeValue::ByteString(raw)) => if raw.len() % DIGEST_LENGTH == 0 {
            Ok(split_pieces(raw.as_slice()))
        } else {
            Err(DecodeError::InvalidPiecesLength { length: raw.len() })
        },
        Some(_) => Err(DecodeError::WrongType { field: Field::Pieces }),
    }
}

/// Reads the one file of a torrent without a list of files.
fn single_file(d: &Dictionary, name: &String) -> (result: Result<File, DecodeError>)
    ensures
        match result {
            Ok(file) => single_file_of(d@, name@) == Ok::<FileView, DecodeError>(file@),
            Err(e) => single_file_of(d@, name@) == Err::<FileView, DecodeError>(e),
        },
{
    let length = file_length(d)?;
    match text_field(d, Field::Md5sum) {
        Ok(md5sum) => Ok(File { length, md5sum, path: name.clone() }),
        Err(e) => Err(e),
    }
}

/// Reads the files of a torrent.
fn read_files(d: &Dictionary, name: &String) -> (result: Result<Vec<File>, DecodeError>)
    ensures
        match result {
            Ok(files) => files_of(d@, name@) == Ok::<Seq<FileView>, DecodeError>(
                files_view(files@),
            ),
            Err(e) => files_of(d@, name@) == Err::<Seq<FileView>, DecodeError>(e),
        },
{
    match d.get(Field::Files.key_bytes()) {
        Some(BencodeValue::List(items)) => if items.len() == 0 {
            Err(DecodeError::EmptyFileList)
        } else {
            collect_files(items)
        },
        Some(_) => Err(DecodeError::WrongType { field: Field::Files }),
        None => match single_file(d, name) {
            Ok(file) => {
                let mut files: Vec<File> = Vec::new();
                files.push(file);
                assert(files_view(files@) =~= seq![file@]);
                Ok(files)
            },
            Err(e) => Err(e),
        },
    }
}

impl Info {
    /// Reads the `info` dictionary `value` and gives it the hash `hash`.
    ///
    /// The fields are read in this order: `piece length`, `pieces`, `name`,
    /// then `files` or, where there is no list of files, `length` and
    /// `md5sum`. The error is that of the first field that is wrong.
    pub fn with_hash(value: &BencodeValue, hash: [u8; 20]) -> (result: Result<Info, DecodeError>)
        ensures
            info_decoded(result, info_of(value@, hash@)),
            result matches Ok(info) ==> info@.well_formed(),
    {
        proof {
            lemma_info_well_formed(value@, hash@);
        }
        match value {
            BencodeValue::Dictionary(d) => {
                let piece_length = piece_length(d)?;
                let pieces = piece_hashes(d)?;
                let name = required_text_field(d, Field::Name)?;
                match read_files(d, &name) {
                    Ok(files) => Ok(Info { name, files, hash, piece_length, pieces }),
                    Err(e) => Err(e),
                }
            },
            _ => Err(DecodeError::WrongType { field: Field::Info }),
        }
    }

    /// Reads the `info` dictionary `value`, which was decoded from `source`.
    ///
    /// The hash is the SHA-1 digest of the bytes of `source` that the
    /// dictionary was decoded from.
    pub fn decode_bencode_object(value: &BencodeValue, source: &[u8]) -> (result: Result<
        Info,
        DecodeError,
    >)
        ensures
            info_decoded(result, info_in(value@, source@)),
            result matches Ok(info) ==> info@.well_formed(),
    {
        match value {
            BencodeValue::Dictionary(d) => {
                if d.start <= d.end && d.end <= source.len() {
                    let hash = sha1(slice_subrange(source, d.start, d.end));
                    Info::with_hash(value, hash)
                } else {
                    Err(DecodeError::SpanOutsideSource)
                }
            },
            _ => Err(DecodeError::WrongType { field: Field::Info }),
        }
    }
}

/// Reads the URLs of `tiers` and adds them to `found`.
fn collect_tiers(tiers: &Vec<BencodeValue>, found: Vec<String>) -> (result: Result<
    Vec<String>,
    DecodeError,
>)
    ensures
        match result {
            Ok(all) => tiers_from(items_view(tiers@), 0, texts(found@)) == Ok::<
                Seq<Seq<char>>,
                DecodeError,
            >(texts(all@)),
            Err(e) => tiers_from(items_view(tiers@), 0, texts(found@)) == Err::<
                Seq<Seq<char>>,
                DecodeError,
            >(e),
        },
{
    let ghost expected = tiers_from(items_view(tiers@), 0, texts(found@));
    let mut all = found;
    let mut i: usize = 0;
    while i < tiers.len()
        invariant
            i <= tiers@.len(),
            expected == tiers_from(items_view(tiers@), 0, texts(found@)),
            expected == tiers_from(items_view(tiers@), i as int, texts(all@)),
        decreases tiers@.len() - i,
    {
        match &tiers[i] {
            BencodeValue::List(tier) => match collect_texts(tier, Field::AnnounceList, all) {
                Ok(more) => {
                    all = more;
                },
                Err(e) => {
                    return Err(e);
                },
            },
            _ => {
                return Err(DecodeError::WrongType { field: Field::AnnounceList });
            },
        }
        i += 1;
    }
    Ok(all)
}

/// Reads every announce URL of the document.
fn collect_urls(d: &Dictionary) -> (result: Result<Vec<String>, DecodeError>)
    ensures
        match result {
            Ok(urls) => urls_of(d@) == Ok::<Seq<Seq<char>>, DecodeError>(texts(urls@)),
            Err(e) => urls_of(d@) == Err::<Seq<Seq<char>>, DecodeError>(e),
        },
{
    let mut first: Vec<String> = Vec::new();
    match text_field(d, Field::Announce) {
        Ok(Some(url)) => {
            first.push(url);
            assert(texts(first@) =~= seq![url@]);
        },
        Ok(None) => {
            assert(texts(first@) =~= Seq::<Seq<char>>::empty());
        },
        Err(e) => {
            return Err(e);
        },
    }
    match d.get(Field::AnnounceList.key_bytes()) {
        None => Ok(first),
        Some(BencodeValue::List(tiers)) => collect_tiers(tiers, first),
        Some(_) => Err(DecodeError::WrongType { field: Field::AnnounceList }),
    }
}

/// Finds the bytes of the `info` dictionary of the document `value` in
/// `source`.
fn locate_info<'a>(value: &BencodeValue, source: &'a [u8]) -> (result: Result<
    &'a [u8],
    DecodeError,
>)
    ensures
        match result {
            Ok(raw) => info_bytes(value@, source@) == Ok::<Seq<u8>, DecodeError>(raw@),
            Err(e) => info_bytes(value@, source@) == Err::<Seq<u8>, DecodeError>(e),
        },
{
    match value {
        BencodeValue::Dictionary(d) => match d.get(Field::Info.key_bytes()) {
            None => Err(DecodeError::MissingField { field: Field::Info }),
            Some(BencodeValue::Dictionary(info)) => {
                if info.start <= info.end && info.end <= source.len() {
                    Ok(slice_subrange(source, info.start, info.end))
                } else {
                    Err(DecodeError::SpanOutsideSource)
                }
            },
            Some(_) => Err(DecodeError::WrongType { field: Field::Info }),
        },
        _ => Err(DecodeError::WrongType { field: Field::Root }),
    }
}

impl Torrent {
    /// Reads the document `value` and gives its `info` the hash `hash`.
    ///
    /// The fields are read in this order: `info`, `announce`,
    /// `announce-list`, `creation date`, `comment`, `created by`, `encoding`.
    /// The error is that of the first field that is wrong. The announce URLs
    /// of `announce` and of every tier of `announce-list` are kept in that
    /// order, each once.
    pub fn with_info_hash(value: &BencodeValue, hash: [u8; 20]) -> (result: Result<
        Torrent,
        DecodeError,
    >)
        ensures
            torrent_decoded(result, torrent_of(value@, hash@)),
            result matches Ok(torrent) ==> torrent@.well_formed(),
    {
        proof {
            lemma_torrent_well_formed(value@, hash@);
        }
        match value {
            BencodeValue::Dictionary(d) => {
                let info = match d.get(Field::Info.key_bytes()) {
                    Some(info_value) => Info::with_hash(info_value, hash)?,
                    None => {
                        return Err(DecodeError::MissingField { field: Field::Info });
                    },
                };
                let urls = collect_urls(d)?;
                let creation_date = integer_field(d, Field::CreationDate)?;
                let comment = text_field(d, Field::Comment)?;
                let created_by = text_field(d, Field::CreatedBy)?;
                let encoding = text_field(d, Field::Encoding)?;
                Ok(
                    Torrent {
                        info,
                        announce_list: deduplicate(urls),
                        creation_date,
                        comment,
                        created_by,
                        encoding,
                    },
                )
            },
            _ => Err(DecodeError::WrongType { field: Field::Root }),
        }
    }

    /// Reads the document `value`, which was decoded from `source`.
    ///
    /// The hash of the `info` is the SHA-1 digest of the bytes of `source`
    /// that the `info` dictionary was decoded from.
    pub fn decode_bencode_object(value: &BencodeValue, source: &[u8]) -> (result: Result<
        Torrent,
        DecodeError,
    >)
        ensures
            torrent_decoded(result, torrent_in(value@, source@)),
            result matches Ok(torrent) ==> torrent@.well_formed(),
    {
        let raw = locate_info(value, source)?;
        Torrent::with_info_hash(value, sha1(raw))
    }

    /// Decodes the metainfo document that `source` holds.
    ///
    /// The result is the torrent that the grammar and the meaning of the
    /// fields give for the bytes of `source`, or the error of the first
    /// thing that either refuses: a syntax error where `source` does not
    /// start with a bencoded value, else a schema error where that value is
    /// no metainfo document.
    pub fn new(source: &[u8]) -> (result: Result<Torrent, DecodeError>)
        ensures
            torrent_decoded(result, torrent_from(source@)),
            result matches Ok(torrent) ==> torrent@.well_formed(),
            result matches Err(e) ==> (e.is_syntax() <==> parse(source@) is Err),
    {
        proof {
            lemma_error_taxonomy(source@);
        }
        let value = decode(source)?;
        Torrent::decode_bencode_object(&value, source)
    }
}

} // verus!
