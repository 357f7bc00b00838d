//! The errors of decoding and mapping, and the names of the fields.

use vstd::prelude::*;
use vstd::string::StringExecFns;
use vstd::utf8::{encode_utf8, is_ascii_chars_encode_utf8};

verus! {

/// A named part of a metainfo document.
#[derive(Clone, Copy, Debug, PartialEq, Eq, Structural)]
pub enum Field {
    /// The document itself.
    Root,
    Info,
    Announce,
    AnnounceList,
    CreationDate,
    Comment,
    CreatedBy,
    Encoding,
    PieceLength,
    Pieces,
    Name,
    Files,
    Length,
    Md5sum,
    Path,
}

impl Field {
    /// The field's name as it is written in a document.
    pub open spec fn label(self) -> Seq<char> {
        match self {
            Field::Root => "document"@,
            Field::Info => "info"@,
            Field::Announce => "announce"@,
            Field::AnnounceList => "announce-list"@,
            Field::CreationDate => "creation date"@,
            Field::Comment => "comment"@,
            Field::CreatedBy => "created by"@,
            Field::Encoding => "encoding"@,
            Field::PieceLength => "piece length"@,
            Field::Pieces => "pieces"@,
            Field::Name => "name"@,
            Field::Files => "files"@,
            Field::Length => "length"@,
            Field::Md5sum => "md5sum"@,
            Field::Path => "path"@,
        }
    }

    /// The dictionary key under which the field is stored.
    pub open spec fn key(self) -> Seq<u8> {
        encode_utf8(self.label())
    }

    /// The field's name as it is written in a document.
    pub fn name(&self) -> (name: &'static str)
        ensures
            name@ == self.label(),
    {
        match self {
            Field::Root => "document",
            Field::Info => "info",
            Field::Announce => "announce",
            Field::AnnounceList => "announce-list",
            Field::CreationDate => "creation date",
            Field::Comment => "comment",
            Field::CreatedBy => "created by",
            Field::Encoding => "encoding",
            Field::PieceLength => "piece length",
            Field::Pieces => "pieces",
            Field::Name => "name",
            Field::Files => "files",
            Field::Length => "length",
            Field::Md5sum => "md5sum",
            Field::Path => "path",
        }
    }

    /// The dictionary key under which the field is stored.
    pub fn key_bytes(&self) -> (key: &'static [u8])
        ensures
            key@ == self.key(),
    {
        self.name().as_bytes()
    }
}

/// Why a document could not be decoded.
///
/// The first seven variants are syntax errors: the buffer is not bencode.
/// Their `position` is the offset of the byte that is wrong or missing, or of
/// the value that is refused. The others are schema errors: the buffer is
/// bencode, but not a metainfo document.
#[derive(Clone, Copy, Debug, PartialEq, Eq, Structural)]
pub enum DecodeError {
    /// The buffer ends where more bytes are needed.
    UnexpectedEnd { position: usize },
    /// No value starts with the byte at `position`.
    InvalidToken { position: usize },
    /// The byte at `position` has no place in an integer.
    MalformedInteger { position: usize },
    /// The byte at `position` has no place in the length of a byte string.
    MalformedLength { position: usize },
    /// The integer that starts at `position` does not fit in 64 bits.
    IntegerOutOfRange { position: usize },
    /// A dictionary key that is not a byte string starts at `position`.
    NonStringKey { position: usize },
    /// The list or dictionary at `position` is nested too deeply.
    NestingTooDeep { position: usize },
    /// A required field is absent.
    MissingField { field: Field },
    /// A field holds a value of another kind than it should.
    WrongType { field: Field },
    /// A number is outside the range that its field allows.
    OutOfRange { field: Field },
    /// A text is not valid UTF-8.
    InvalidUtf8 { field: Field },
    /// The piece hashes are not a whole number of 20-byte digests.
    InvalidPiecesLength { length: usize },
    /// The list of files is empty.
    EmptyFileList,
    /// The span of the `info` dictionary does not lie within the buffer.
    SpanOutsideSource,
}

impl DecodeError {
    /// Whether the error says that the buffer is not bencode.
    pub open spec fn is_syntax(self) -> bool {
        match self {
            DecodeError::UnexpectedEnd { .. }
            | DecodeError::InvalidToken { .. }
            | DecodeError::MalformedInteger { .. }
            | DecodeError::MalformedLength { .. }
            | DecodeError::IntegerOutOfRange { .. }
            | DecodeError::NonStringKey { .. }
            | DecodeError::NestingTooDeep { .. } => true,
            _ => false,
        }
    }

    /// Whether the error says that the document is not a metainfo document.
    pub open spec fn is_schema(self) -> bool {
        !self.is_syntax()
    }

    /// Whether the error says that the buffer is not bencode.
    pub fn is_syntax_error(&self) -> (syntax: bool)
        ensures
            syntax == self.is_syntax(),
    {
        match self {
            DecodeError::UnexpectedEnd { .. } => true,
            DecodeError::InvalidToken { .. } => true,
            DecodeError::MalformedInteger { .. } => true,
            DecodeError::MalformedLength { .. } => true,
            DecodeError::IntegerOutOfRange { .. } => true,
            DecodeError::NonStringKey { .. } => true,
            DecodeError::NestingTooDeep { .. } => true,
            _ => false,
        }
    }

    /// Whether the error says that the document is not a metainfo document.
    pub fn is_schema_error(&self) -> (schema: bool)
        ensures
            schema == self.is_schema(),
    {
        !self.is_syntax_error()
    }
}

/// The text of the digit `digit`.
pub open spec fn digit_text(digit: nat) -> Seq<char> {
    if digit == 0 {
        "0"@
    } else if digit == 1 {
        "1"@
    } else if digit == 2 {
        "2"@
    } else if digit == 3 {
        "3"@
    } else if digit == 4 {
        "4"@
    } else if digit == 5 {
        "5"@
    } else if digit == 6 {
        "6"@
    } else if digit == 7 {
        "7"@
    } else if digit == 8 {
        "8"@
    } else {
        "9"@
    }
}

/// The number `n` written in base ten.
pub open spec fn decimal(n: nat) -> Seq<char>
    decreases n,
{
    if n < 10 {
        digit_text(n)
    } else {
        decimal(n / 10) + digit_text(n % 10)
    }
}

/// The text of the digit `digit`.
fn digit_str(digit: usize) -> (text: &'static str)
    requires
        digit < 10,
    ensures
        text@ == digit_text(digit as nat),
{
    if digit == 0 {
        "0"
    } else if digit == 1 {
        "1"
    } else if digit == 2 {
        "2"
    } else if digit == 3 {
        "3"
    } else if digit == 4 {
        "4"
    } else if digit == 5 {
        "5"
    } else if digit == 6 {
        "6"
    } else if digit == 7 {
        "7"
    } else if digit == 8 {
        "8"
    } else {
        "9"
    }
}

/// Appends the number `n`, written in base ten, to `text`.
fn append_decimal(text: &mut String, n: usize)
    ensures
        final(text)@ == old(text)@ + decimal(n as nat),
    decreases n,
{
    if n >= 10 {
        append_decimal(text, n / 10);
    }
    text.append(digit_str(n % 10));
    assert(old(text)@ + decimal((n / 10) as nat) + digit_text((n % 10) as nat) =~= old(text)@ + (
    decimal((n / 10) as nat) + digit_text((n % 10) as nat)));
}

/// The text `prefix` followed by the number `n`.
fn with_number(prefix: &str, n: usize) -> (text: String)
    ensures
        text@ == prefix@ + decimal(n as nat),
{
    let mut text = String::from_str(prefix);
    append_decimal(&mut text, n);
    text
}

/// The text `prefix` followed by the name of `field`.
fn with_field(prefix: &str, field: Field) -> (text: String)
    ensures
        text@ == prefix@ + field.label(),
{
    let mut text = String::from_str(prefix);
    text.append(field.name());
    text
}

impl DecodeError {
    /// What went wrong, in words: the kind of the error, and the offset in
    /// the buffer or the name of the field at which it was found.
    pub open spec fn description(self) -> Seq<char> {
        match self {
            DecodeError::UnexpectedEnd { position } => "unexpected end of input at offset "@
                + decimal(position as nat),
            DecodeError::InvalidToken { position } => "expected a value at offset "@ + decimal(
                position as nat,
            ),
            DecodeError::MalformedInteger { position } => "malformed integer at offset "@
                + decimal(position as nat),
            DecodeError::MalformedLength { position } => "malformed length at offset "@
                + decimal(position as nat),
            DecodeError::IntegerOutOfRange { position } => "integer out of range at offset "@
                + decimal(position as nat),
            DecodeError::NonStringKey { position } => "expected a string key at offset "@
                + decimal(position as nat),
            DecodeError::NestingTooDeep { position } => "nesting too deep at offset "@ + decimal(
                position as nat,
            ),
            DecodeError::MissingField { field } => "missing field: "@ + field.label(),
            DecodeError::WrongType { field } => "unexpected kind of value in field: "@
                + field.label(),
            DecodeError::OutOfRange { field } => "number out of range in field: "@
                + field.label(),
            DecodeError::InvalidUtf8 { field } => "invalid UTF-8 in field: "@ + field.label(),
            DecodeError::InvalidPiecesLength { length } => "invalid length for pieces: "@
                + decimal(length as nat),
            DecodeError::EmptyFileList => "empty list of files"@,
            DecodeError::SpanOutsideSource => "info dictionary outside the buffer"@,
        }
    }

    /// What went wrong, in words.
    pub fn message(&self) -> (text: String)
        ensures
            text@ == self.description(),
    {
        match self {
            DecodeError::UnexpectedEnd { position } => with_number(
                "unexpected end of input at offset ",
                *position,
            ),
            DecodeError::InvalidToken { position } => with_number(
                "expected a value at offset ",
                *position,
            ),
            DecodeError::MalformedInteger { position } => with_number(
                "malformed integer at offset ",
                *position,
            ),
            DecodeError::MalformedLength { position } => with_number(
                "malformed length at offset ",
                *position,
            ),
            DecodeError::IntegerOutOfRange { position } => with_number(
                "integer out of range at offset ",
                *position,
            ),
            DecodeError::NonStringKey { position } => with_number(
                "expected a string key at offset ",
                *position,
            ),
            DecodeError::NestingTooDeep { position } => with_number(
                "nesting too deep at offset ",
                *position,
            ),
            DecodeError::MissingField { field } => with_field("missing field: ", *field),
            DecodeError::WrongType { field } => with_field(
                "unexpected kind of value in field: ",
                *field,
            ),
            DecodeError::OutOfRange { field } => with_field(
                "number out of range in field: ",
                *field,
            ),
            DecodeError::InvalidUtf8 { field } => with_field("invalid UTF-8 in field: ", *field),
            DecodeError::InvalidPiecesLength { length } => with_number(
                "invalid length for pieces: ",
                *length,
            ),
            DecodeError::EmptyFileList => String::from_str("empty list of files"),
            DecodeError::SpanOutsideSource => String::from_str(
                "info dictionary outside the buffer",
            ),
        }
    }
}

/// The key of each field, byte by byte: the ASCII codes of its name.
pub proof fn lemma_keys()
    ensures
        Field::Info.key() == seq![0x69u8, 0x6e, 0x66, 0x6f],
        Field::Announce.key() == seq![0x61u8, 0x6e, 0x6e, 0x6f, 0x75, 0x6e, 0x63, 0x65],
        Field::AnnounceList.key() == seq![
            0x61u8, 0x6e, 0x6e, 0x6f, 0x75, 0x6e, 0x63, 0x65, 0x2d, 0x6c, 0x69, 0x73, 0x74,
        ],
        Field::CreationDate.key() == seq![
            0x63u8, 0x72, 0x65, 0x61, 0x74, 0x69, 0x6f, 0x6e, 0x20, 0x64, 0x61, 0x74, 0x65,
        ],
        Field::Comment.key() == seq![0x63u8, 0x6f, 0x6d, 0x6d, 0x65, 0x6e, 0x74],
        Field::CreatedBy.key() == seq![
            0x63u8, 0x72, 0x65, 0x61, 0x74, 0x65, 0x64, 0x20, 0x62, 0x79,
        ],
        Field::Encoding.key() == seq![0x65u8, 0x6e, 0x63, 0x6f, 0x64, 0x69, 0x6e, 0x67],
        Field::PieceLength.key() == seq![
            0x70u8, 0x69, 0x65, 0x63, 0x65, 0x20, 0x6c, 0x65, 0x6e, 0x67, 0x74, 0x68,
        ],
        Field::Pieces.key() == seq![0x70u8, 0x69, 0x65, 0x63, 0x65, 0x73],
        Field::Name.key() == seq![0x6eu8, 0x61, 0x6d, 0x65],
        Field::Files.key() == seq![0x66u8, 0x69, 0x6c, 0x65, 0x73],
        Field::Length.key() == seq![0x6cu8, 0x65, 0x6e, 0x67, 0x74, 0x68],
        Field::Md5sum.key() == seq![0x6du8, 0x64, 0x35, 0x73, 0x75, 0x6d],
        Field::Path.key() == seq![0x70u8, 0x61, 0x74, 0x68],
{
    reveal_strlit("info");
    is_ascii_chars_encode_utf8("info"@);
    reveal_strlit("announce");
    is_ascii_chars_encode_utf8("announce"@);
    reveal_strlit("announce-list");
    is_ascii_chars_encode_utf8("announce-list"@);
    reveal_strlit("creation date");
    is_ascii_chars_encode_utf8("creation date"@);
    reveal_strlit("comment");
    is_ascii_chars_encode_utf8("comment"@);
    reveal_strlit("created by");
    is_ascii_chars_encode_utf8("created by"@);
    reveal_strlit("encoding");
    is_ascii_chars_encode_utf8("encoding"@);
    reveal_strlit("piece length");
    is_ascii_chars_encode_utf8("piece length"@);
    reveal_strlit("pieces");
    is_ascii_chars_encode_utf8("pieces"@);
    reveal_strlit("name");
    is_ascii_chars_encode_utf8("name"@);
    reveal_strlit("files");
    is_ascii_chars_encode_utf8("files"@);
    reveal_strlit("length");
    is_ascii_chars_encode_utf8("length"@);
    reveal_strlit("md5sum");
    is_ascii_chars_encode_utf8("md5sum"@);
    reveal_strlit("path");
    is_ascii_chars_encode_utf8("path"@);
}

/// No two fields of a dictionary have the same key.
pub proof fn lemma_keys_differ(a: Field, b: Field)
    requires
        a != b,
        a != Field::Root,
        b != Field::Root,
    ensures
        a.key() != b.key(),
{
    lemma_keys();
    assert(a.key().len() != b.key().len() || a.key()[0] != b.key()[0] || a.key()[1] != b.key()[1]);
}

} // verus!
