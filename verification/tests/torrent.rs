use chrono::{DateTime, FixedOffset};
use metainfo::bencode::{File, Info, Torrent};
use metainfo::decoder::decode;
use metainfo::error::{DecodeError, Field};
use metainfo::text::{contains_text, deduplicate, join_segments, read_text};
use metainfo::value::{BencodeValue, Dictionary};
use sha1::{Digest, Sha1};
use std::collections::HashSet;
use std::str::FromStr;

fn integer(n: i64) -> Vec<u8> {
    format!("i{}e", n).into_bytes()
}

fn string(bytes: &[u8]) -> Vec<u8> {
    let mut out = format!("{}:", bytes.len()).into_bytes();
    out.extend_from_slice(bytes);
    out
}

fn list(items: &[Vec<u8>]) -> Vec<u8> {
    let mut out = vec![b'l'];
    for item in items {
        out.extend_from_slice(item);
    }
    out.push(b'e');
    out
}

fn dictionary(entries: &[(&str, Vec<u8>)]) -> Vec<u8> {
    let mut out = vec![b'd'];
    for (key, value) in entries {
        out.extend_from_slice(&string(key.as_bytes()));
        out.extend_from_slice(value);
    }
    out.push(b'e');
    out
}

fn pieces(count: usize) -> Vec<u8> {
    (0..count * 20).map(|i| (i % 256) as u8).collect()
}

/// The `info` dictionary of a single-file torrent: 5 bytes named `a`, in
/// one piece.
fn small_info() -> Vec<u8> {
    dictionary(&[
        ("length", integer(5)),
        ("name", string(b"a")),
        ("piece length", integer(16384)),
        ("pieces", string(&pieces(1))),
    ])
}

fn with_info(info: Vec<u8>) -> Vec<u8> {
    dictionary(&[("info", info)])
}

fn info_error(info: Vec<u8>) -> DecodeError {
    Torrent::new(&with_info(info)).unwrap_err()
}

fn texts(list: &[&str]) -> Vec<String> {
    list.iter().map(|s| s.to_string()).collect()
}

#[test]
fn test_torrent_decoding_v1() {
    let piece_hashes: Vec<u8> = (0..60).map(|i| ((i * 7 + 3) % 256) as u8).collect();
    let info = dictionary(&[
        ("length", integer(6343219200)),
        ("name", string(b"ubuntu-24.04.2-desktop-amd64.iso")),
        ("piece length", integer(262144)),
        ("pieces", string(&piece_hashes)),
    ]);
    let source = dictionary(&[
        ("announce", string(b"https://torrent.ubuntu.com/announce")),
        (
            "announce-list",
            list(&[
                list(&[string(b"https://torrent.ubuntu.com/announce")]),
                list(&[string(b"https://ipv6.torrent.ubuntu.com/announce")]),
            ]),
        ),
        ("comment", string(b"Ubuntu CD releases.ubuntu.com")),
        ("created by", string(b"mktorrent 1.1")),
        ("creation date", integer(1740054289)),
        ("info", info),
    ]);
    let torrent = Torrent::new(&source);
    assert!(torrent.is_ok(), "Failed to decode the torrent file");

    let torrent = torrent.unwrap();
    assert_eq!(
        torrent.info.name,
        "ubuntu-24.04.2-desktop-amd64.iso".to_owned(),
        "Failed to decode name"
    );
    assert_eq!(
        torrent.info.files,
        vec![File {
            length: 6343219200,
            md5sum: None,
            path: "ubuntu-24.04.2-desktop-amd64.iso".to_owned(),
        }],
        "Failed to decode files"
    );
    assert_eq!(
        torrent.info.hash,
        [
            116, 154, 242, 175, 156, 254, 69, 12, 46, 94, 138, 57, 84, 158, 138, 91, 24, 247,
            94, 7
        ],
        "Failed to compute correct hash"
    );
    {
        let got: HashSet<String> = torrent.announce_list.into_iter().collect();
        let expected: HashSet<String> = [
            "https://ipv6.torrent.ubuntu.com/announce".to_owned(),
            "https://torrent.ubuntu.com/announce".to_owned(),
        ]
        .into_iter()
        .collect();
        assert_eq!(got, expected, "Failed to decode announce urls");
    }
    assert_eq!(
        torrent.creation_date,
        Some(
            DateTime::<FixedOffset>::from_str("2025-02-20T04:24:49-08:00")
                .unwrap()
                .timestamp()
        ),
        "Failed to decode creation date"
    );
    assert_eq!(
        torrent.comment,
        Some("Ubuntu CD releases.ubuntu.com".to_owned()),
        "Failed to decode comment"
    );
    assert_eq!(
        torrent.created_by,
        Some("mktorrent 1.1".to_owned()),
        "Failed to decode created by"
    );
    assert!(torrent.encoding.is_none(), "Failed to decode encoding");
    assert_eq!(torrent.info.piece_length, 262144);
    assert_eq!(torrent.info.pieces.len(), 3);
}

#[test]
fn single_file_torrent_is_decoded() {
    let torrent = Torrent::new(&with_info(small_info())).unwrap();
    let mut piece = [0u8; 20];
    for (i, byte) in piece.iter_mut().enumerate() {
        *byte = i as u8;
    }
    assert_eq!(
        torrent,
        Torrent {
            info: Info {
                name: "a".to_owned(),
                files: vec![File { length: 5, md5sum: None, path: "a".to_owned() }],
                hash: [
                    222, 65, 88, 1, 111, 188, 73, 235, 243, 86, 65, 144, 60, 236, 101, 160, 173,
                    13, 48, 181
                ],
                piece_length: 16384,
                pieces: vec![piece],
            },
            announce_list: vec![],
            creation_date: None,
            comment: None,
            created_by: None,
            encoding: None,
        }
    );
}

#[test]
fn hash_is_the_digest_of_the_info_bytes() {
    let info = small_info();
    let source = dictionary(&[("comment", string(b"x")), ("info", info.clone())]);
    let torrent = Torrent::new(&source).unwrap();
    let mut hasher = Sha1::new();
    hasher.update(&info);
    let expected: [u8; 20] = hasher.finalize().into();
    assert_eq!(torrent.info.hash, expected);
    assert_ne!(&torrent.info.hash[..], &info[..20]);
}

#[test]
fn hash_is_taken_over_the_bytes_as_written() {
    let mut unsorted = b"d6:pieces20:".to_vec();
    unsorted.extend_from_slice(&pieces(1));
    unsorted.extend_from_slice(b"12:piece lengthi16384e4:name1:a6:lengthi5ee");
    let torrent = Torrent::new(&with_info(unsorted)).unwrap();
    assert_eq!(
        torrent.info.hash,
        [
            242, 2, 252, 170, 144, 184, 91, 37, 102, 119, 36, 167, 220, 145, 201, 23, 163, 73,
            92, 19
        ]
    );
    let sorted = Torrent::new(&with_info(small_info())).unwrap();
    assert_ne!(torrent.info.hash, sorted.info.hash);
    assert_eq!(torrent.info.name, sorted.info.name);
    assert_eq!(torrent.info.files, sorted.info.files);
    assert_eq!(torrent.info.pieces, sorted.info.pieces);
    assert_eq!(torrent.info.piece_length, sorted.info.piece_length);
}

#[test]
fn hash_does_not_change_with_the_rest_of_the_document() {
    let info = small_info();
    let plain = Torrent::new(&with_info(info.clone())).unwrap();
    let first = Torrent::new(&dictionary(&[
        ("announce", string(b"http://tracker/announce")),
        ("comment", string(b"one")),
        ("info", info.clone()),
    ]))
    .unwrap();
    let second = Torrent::new(&dictionary(&[
        ("info", info.clone()),
        ("comment", string(b"two")),
        ("unknown", list(&[integer(1), dictionary(&[])])),
        ("announce", string(b"http://other/announce")),
    ]))
    .unwrap();
    assert_eq!(first.info.hash, plain.info.hash);
    assert_eq!(second.info.hash, plain.info.hash);
    assert_eq!(first.info, second.info);
    assert_ne!(first.comment, second.comment);
}

#[test]
fn decoding_twice_gives_the_same_torrent() {
    let source = dictionary(&[
        ("announce", string(b"http://tracker/announce")),
        ("announce-list", list(&[list(&[string(b"http://b"), string(b"http://a")])])),
        ("creation date", integer(12)),
        ("info", small_info()),
    ]);
    let copy = source.clone();
    assert_eq!(Torrent::new(&source), Torrent::new(&source));
    assert_eq!(Torrent::new(&source), Torrent::new(&copy));
    let broken = &source[..source.len() - 3];
    assert_eq!(Torrent::new(broken), Torrent::new(broken));
    assert!(Torrent::new(broken).is_err());
}

#[test]
fn announce_urls_are_merged() {
    let source = dictionary(&[
        ("announce", string(b"A")),
        (
            "announce-list",
            list(&[list(&[string(b"A"), string(b"B")]), list(&[string(b"C")])]),
        ),
        ("info", small_info()),
    ]);
    let torrent = Torrent::new(&source).unwrap();
    assert_eq!(torrent.announce_list, texts(&["A", "B", "C"]));
    let got: HashSet<String> = torrent.announce_list.into_iter().collect();
    let expected: HashSet<String> = texts(&["A", "B", "C"]).into_iter().collect();
    assert_eq!(got, expected);
}

#[test]
fn announce_urls_keep_the_order_of_their_first_mention() {
    let source = dictionary(&[
        (
            "announce-list",
            list(&[
                list(&[string(b"C"), string(b"B")]),
                list(&[]),
                list(&[string(b"B"), string(b"A"), string(b"C"), string(b"D")]),
            ]),
        ),
        ("info", small_info()),
    ]);
    let torrent = Torrent::new(&source).unwrap();
    assert_eq!(torrent.announce_list, texts(&["C", "B", "A", "D"]));
}

#[test]
fn announce_alone_is_one_url() {
    let source = dictionary(&[("announce", string(b"http://t/a")), ("info", small_info())]);
    assert_eq!(Torrent::new(&source).unwrap().announce_list, texts(&["http://t/a"]));
}

#[test]
fn announce_list_of_another_shape_is_refused() {
    let wrong = DecodeError::WrongType { field: Field::AnnounceList };
    let cases = vec![
        string(b"A"),
        list(&[string(b"A")]),
        list(&[list(&[integer(1)])]),
        list(&[list(&[string(b"A")]), dictionary(&[])]),
    ];
    for value in cases {
        let source = dictionary(&[("announce-list", value), ("info", small_info())]);
        assert_eq!(Torrent::new(&source), Err(wrong));
    }
    let source = dictionary(&[("announce", integer(1)), ("info", small_info())]);
    assert_eq!(
        Torrent::new(&source),
        Err(DecodeError::WrongType { field: Field::Announce })
    );
    let source = dictionary(&[
        ("announce-list", list(&[list(&[string(&[0xff])])])),
        ("info", small_info()),
    ]);
    assert_eq!(
        Torrent::new(&source),
        Err(DecodeError::InvalidUtf8 { field: Field::AnnounceList })
    );
}

#[test]
fn optional_texts_are_copied() {
    let source = dictionary(&[
        ("comment", string("caf\u{e9} \u{1f600}".as_bytes())),
        ("created by", string(b"maker 1.0")),
        ("creation date", integer(-5)),
        ("encoding", string(b"UTF-8")),
        ("info", small_info()),
    ]);
    let torrent = Torrent::new(&source).unwrap();
    assert_eq!(torrent.comment, Some("caf\u{e9} \u{1f600}".to_owned()));
    assert_eq!(torrent.created_by, Some("maker 1.0".to_owned()));
    assert_eq!(torrent.creation_date, Some(-5));
    assert_eq!(torrent.encoding, Some("UTF-8".to_owned()));
}

#[test]
fn optional_fields_of_another_kind_are_refused() {
    for (key, field) in [
        ("comment", Field::Comment),
        ("created by", Field::CreatedBy),
        ("encoding", Field::Encoding),
    ] {
        let source = dictionary(&[(key, integer(1)), ("info", small_info())]);
        assert_eq!(Torrent::new(&source), Err(DecodeError::WrongType { field }));
        let source = dictionary(&[(key, string(&[0xc3, 0x28])), ("info", small_info())]);
        assert_eq!(Torrent::new(&source), Err(DecodeError::InvalidUtf8 { field }));
    }
    let source = dictionary(&[("creation date", string(b"now")), ("info", small_info())]);
    assert_eq!(
        Torrent::new(&source),
        Err(DecodeError::WrongType { field: Field::CreationDate })
    );
}

#[test]
fn document_must_be_a_dictionary_with_info() {
    assert_eq!(
        Torrent::new(b"li1ee"),
        Err(DecodeError::WrongType { field: Field::Root })
    );
    assert_eq!(Torrent::new(b"i1e"), Err(DecodeError::WrongType { field: Field::Root }));
    assert_eq!(
        Torrent::new(b"de"),
        Err(DecodeError::MissingField { field: Field::Info })
    );
    assert_eq!(
        Torrent::new(b"d7:comment1:xe"),
        Err(DecodeError::MissingField { field: Field::Info })
    );
    assert_eq!(
        Torrent::new(b"d4:infoi1ee"),
        Err(DecodeError::WrongType { field: Field::Info })
    );
    assert_eq!(
        Torrent::new(b"d4:infolee"),
        Err(DecodeError::WrongType { field: Field::Info })
    );
}

#[test]
fn syntax_errors_come_before_schema_errors() {
    assert_eq!(Torrent::new(b""), Err(DecodeError::UnexpectedEnd { position: 0 }));
    assert_eq!(
        Torrent::new(b"d4:infod4:name1:aee"[..18].as_ref()),
        Err(DecodeError::UnexpectedEnd { position: 18 })
    );
    assert_eq!(
        Torrent::new(b"d7:commenti01e4:infodee"),
        Err(DecodeError::MalformedInteger { position: 12 })
    );
    let error = Torrent::new(b"d4:infodei1ei2ee").unwrap_err();
    assert_eq!(error, DecodeError::NonStringKey { position: 9 });
    assert!(error.is_syntax_error());
    let error = Torrent::new(b"d4:infodee").unwrap_err();
    assert!(error.is_schema_error());
}

#[test]
fn missing_pieces_is_refused() {
    let info = dictionary(&[
        ("length", integer(5)),
        ("name", string(b"a")),
        ("piece length", integer(16384)),
    ]);
    let error = info_error(info);
    assert_eq!(error, DecodeError::MissingField { field: Field::Pieces });
    assert!(error.is_schema_error());
    assert_eq!(error.message(), "missing field: pieces");
}

#[test]
fn missing_piece_length_is_refused() {
    let info = dictionary(&[
        ("length", integer(5)),
        ("name", string(b"a")),
        ("pieces", string(&pieces(1))),
    ]);
    assert_eq!(info_error(info), DecodeError::MissingField { field: Field::PieceLength });
    assert_eq!(
        info_error(dictionary(&[])),
        DecodeError::MissingField { field: Field::PieceLength }
    );
}

#[test]
fn missing_name_is_refused() {
    let info = dictionary(&[
        ("length", integer(5)),
        ("piece length", integer(16384)),
        ("pieces", string(&pieces(1))),
    ]);
    assert_eq!(info_error(info), DecodeError::MissingField { field: Field::Name });
}

#[test]
fn missing_length_is_refused() {
    let info = dictionary(&[
        ("name", string(b"a")),
        ("piece length", integer(16384)),
        ("pieces", string(&pieces(1))),
    ]);
    assert_eq!(info_error(info), DecodeError::MissingField { field: Field::Length });
}

#[test]
fn pieces_are_split_in_chunks_of_twenty_bytes() {
    for count in [0usize, 1, 2, 7, 100] {
        let raw = pieces(count);
        let info = dictionary(&[
            ("length", integer(5)),
            ("name", string(b"a")),
            ("piece length", integer(16384)),
            ("pieces", string(&raw)),
        ]);
        let torrent = Torrent::new(&with_info(info)).unwrap();
        assert_eq!(torrent.info.pieces.len(), raw.len() / 20);
        assert_eq!(torrent.info.pieces.len(), count);
        for (i, piece) in torrent.info.pieces.iter().enumerate() {
            assert_eq!(&piece[..], &raw[20 * i..20 * i + 20]);
        }
    }
}

#[test]
fn pieces_of_another_length_are_refused() {
    for length in [1usize, 19, 21, 39, 41, 2001] {
        let raw = vec![7u8; length];
        let info = dictionary(&[
            ("length", integer(5)),
            ("name", string(b"a")),
            ("piece length", integer(16384)),
            ("pieces", string(&raw)),
        ]);
        assert_eq!(info_error(info), DecodeError::InvalidPiecesLength { length });
    }
}

#[test]
fn pieces_of_another_kind_are_refused() {
    let info = dictionary(&[
        ("length", integer(5)),
        ("name", string(b"a")),
        ("piece length", integer(16384)),
        ("pieces", list(&[])),
    ]);
    assert_eq!(info_error(info), DecodeError::WrongType { field: Field::Pieces });
}

#[test]
fn piece_length_must_be_positive_and_fit_32_bits() {
    let with_piece_length = |n: i64| {
        dictionary(&[
            ("length", integer(5)),
            ("name", string(b"a")),
            ("piece length", integer(n)),
            ("pieces", string(&pieces(1))),
        ])
    };
    let refused = DecodeError::OutOfRange { field: Field::PieceLength };
    assert_eq!(info_error(with_piece_length(0)), refused);
    assert_eq!(info_error(with_piece_length(-1)), refused);
    assert_eq!(info_error(with_piece_length(4294967296)), refused);
    assert_eq!(info_error(with_piece_length(i64::MAX)), refused);
    let torrent = Torrent::new(&with_info(with_piece_length(1))).unwrap();
    assert_eq!(torrent.info.piece_length, 1);
    let torrent = Torrent::new(&with_info(with_piece_length(4294967295))).unwrap();
    assert_eq!(torrent.info.piece_length, u32::MAX);
    let info = dictionary(&[("piece length", string(b"16384"))]);
    assert_eq!(info_error(info), DecodeError::WrongType { field: Field::PieceLength });
}

#[test]
fn length_must_not_be_negative() {
    let with_length = |n: i64| {
        dictionary(&[
            ("length", integer(n)),
            ("name", string(b"a")),
            ("piece length", integer(16384)),
            ("pieces", string(&pieces(1))),
        ])
    };
    assert_eq!(
        info_error(with_length(-1)),
        DecodeError::OutOfRange { field: Field::Length }
    );
    let torrent = Torrent::new(&with_info(with_length(0))).unwrap();
    assert_eq!(torrent.info.files[0].length, 0);
    let torrent = Torrent::new(&with_info(with_length(i64::MAX))).unwrap();
    assert_eq!(torrent.info.files[0].length, 9223372036854775807);
}

#[test]
fn single_file_inherits_the_checksum() {
    let info = dictionary(&[
        ("length", integer(5)),
        ("md5sum", string(b"0123456789abcdef0123456789abcdef")),
        ("name", string(b"a.iso")),
        ("piece length", integer(16384)),
        ("pieces", string(&pieces(2))),
    ]);
    let torrent = Torrent::new(&with_info(info)).unwrap();
    assert_eq!(
        torrent.info.files,
        vec![File {
            length: 5,
            md5sum: Some("0123456789abcdef0123456789abcdef".to_owned()),
            path: "a.iso".to_owned(),
        }]
    );
    assert_eq!(torrent.info.files[0].path, torrent.info.name);
}

#[test]
fn multi_file_torrent_is_decoded() {
    let info = dictionary(&[
        (
            "files",
            list(&[
                dictionary(&[
                    ("length", integer(3)),
                    ("path", list(&[string(b"dir"), string(b"a.txt")])),
                ]),
                dictionary(&[
                    ("length", integer(4)),
                    ("md5sum", string(b"0123456789abcdef0123456789abcdef")),
                    ("path", list(&[string(b"b.bin")])),
                ]),
            ]),
        ),
        ("name", string(b"pack")),
        ("piece length", integer(32768)),
        ("pieces", string(&pieces(2))),
    ]);
    let torrent = Torrent::new(&with_info(info)).unwrap();
    assert_eq!(torrent.info.name, "pack");
    assert_eq!(
        torrent.info.files,
        vec![
            File { length: 3, md5sum: None, path: "dir/a.txt".to_owned() },
            File {
                length: 4,
                md5sum: Some("0123456789abcdef0123456789abcdef".to_owned()),
                path: "b.bin".to_owned(),
            },
        ]
    );
    assert_eq!(
        torrent.info.hash,
        [
            154, 235, 100, 158, 117, 148, 223, 250, 209, 106, 122, 24, 188, 48, 146, 92, 130,
            95, 109, 133
        ]
    );
}

#[test]
fn there_is_one_file_for_each_entry_of_the_list() {
    for count in [1usize, 2, 5, 50] {
        let entries: Vec<Vec<u8>> = (0..count)
            .map(|i| {
                dictionary(&[
                    ("length", integer(i as i64)),
                    ("path", list(&[string(format!("f{}", i).as_bytes())])),
                ])
            })
            .collect();
        let info = dictionary(&[
            ("files", list(&entries)),
            ("length", integer(99)),
            ("name", string(b"pack")),
            ("piece length", integer(32768)),
            ("pieces", string(&pieces(1))),
        ]);
        let torrent = Torrent::new(&with_info(info)).unwrap();
        assert_eq!(torrent.info.files.len(), count);
        for (i, file) in torrent.info.files.iter().enumerate() {
            assert_eq!(file.length, i as u64);
            assert_eq!(file.path, format!("f{}", i));
        }
    }
    let torrent = Torrent::new(&with_info(small_info())).unwrap();
    assert_eq!(torrent.info.files.len(), 1);
}

#[test]
fn empty_list_of_files_is_refused() {
    let info = dictionary(&[
        ("files", list(&[])),
        ("length", integer(5)),
        ("name", string(b"pack")),
        ("piece length", integer(32768)),
        ("pieces", string(&pieces(1))),
    ]);
    assert_eq!(info_error(info), DecodeError::EmptyFileList);
}

#[test]
fn files_of_another_shape_are_refused() {
    let with_files = |files: Vec<u8>| {
        dictionary(&[
            ("files", files),
            ("name", string(b"pack")),
            ("piece length", integer(32768)),
            ("pieces", string(&pieces(1))),
        ])
    };
    let wrong = DecodeError::WrongType { field: Field::Files };
    assert_eq!(info_error(with_files(integer(1))), wrong);
    assert_eq!(info_error(with_files(dictionary(&[]))), wrong);
    assert_eq!(info_error(with_files(list(&[integer(1)]))), wrong);
    assert_eq!(
        info_error(with_files(list(&[dictionary(&[("path", list(&[string(b"a")]))])]))),
        DecodeError::MissingField { field: Field::Length }
    );
    assert_eq!(
        info_error(with_files(list(&[dictionary(&[("length", integer(1))])]))),
        DecodeError::MissingField { field: Field::Path }
    );
    assert_eq!(
        info_error(with_files(list(&[dictionary(&[
            ("length", integer(1)),
            ("path", string(b"a")),
        ])]))),
        DecodeError::WrongType { field: Field::Path }
    );
    assert_eq!(
        info_error(with_files(list(&[dictionary(&[
            ("length", integer(1)),
            ("path", list(&[string(b"a"), integer(2)])),
        ])]))),
        DecodeError::WrongType { field: Field::Path }
    );
    assert_eq!(
        info_error(with_files(list(&[
            dictionary(&[("length", integer(1)), ("path", list(&[string(b"a")]))]),
            dictionary(&[("length", integer(-1)), ("path", list(&[string(b"b")]))]),
        ]))),
        DecodeError::OutOfRange { field: Field::Length }
    );
}

#[test]
fn path_segment_that_is_not_utf8_is_refused() {
    let info = dictionary(&[
        (
            "files",
            list(&[dictionary(&[
                ("length", integer(1)),
                ("path", list(&[string(b"ok"), string(&[0x66, 0xff, 0x6f])])),
            ])]),
        ),
        ("name", string(b"pack")),
        ("piece length", integer(32768)),
        ("pieces", string(&pieces(1))),
    ]);
    assert_eq!(info_error(info), DecodeError::InvalidUtf8 { field: Field::Path });
}

#[test]
fn name_that_is_not_utf8_is_refused() {
    let info = dictionary(&[
        ("length", integer(5)),
        ("name", string(&[0xed, 0xa0, 0x80])),
        ("piece length", integer(16384)),
        ("pieces", string(&pieces(1))),
    ]);
    assert_eq!(info_error(info), DecodeError::InvalidUtf8 { field: Field::Name });
    let info = dictionary(&[
        ("length", integer(5)),
        ("name", integer(1)),
        ("piece length", integer(16384)),
        ("pieces", string(&pieces(1))),
    ]);
    assert_eq!(info_error(info), DecodeError::WrongType { field: Field::Name });
}

#[test]
fn file_is_read_from_an_entry() {
    let value = decode(&dictionary(&[
        ("length", integer(12)),
        ("md5sum", string(b"abc")),
        ("path", list(&[string(b"a"), string("b\u{e9}".as_bytes()), string(b"c.txt")])),
    ]))
    .unwrap();
    assert_eq!(
        File::decode_bencode_object(&value),
        Ok(File {
            length: 12,
            md5sum: Some("abc".to_owned()),
            path: "a/b\u{e9}/c.txt".to_owned(),
        })
    );
    let value = decode(&dictionary(&[("length", integer(1)), ("path", list(&[]))])).unwrap();
    assert_eq!(
        File::decode_bencode_object(&value),
        Ok(File { length: 1, md5sum: None, path: String::new() })
    );
    assert_eq!(
        File::decode_bencode_object(&BencodeValue::Integer(1)),
        Err(DecodeError::WrongType { field: Field::Files })
    );
}

#[test]
fn info_is_read_with_the_hash_that_is_given() {
    let source = small_info();
    let value = decode(&source).unwrap();
    let info = Info::with_hash(&value, [9u8; 20]).unwrap();
    assert_eq!(info.hash, [9u8; 20]);
    assert_eq!(info.name, "a");
    assert_eq!(info.piece_length, 16384);
    assert_eq!(
        Info::with_hash(&BencodeValue::List(vec![]), [9u8; 20]),
        Err(DecodeError::WrongType { field: Field::Info })
    );
}

#[test]
fn info_is_hashed_where_it_stands() {
    let info = small_info();
    let mut source = b"xyz".to_vec();
    source.extend_from_slice(&info);
    source.extend_from_slice(b"tail");
    let (value, next) = metainfo::decoder::decode_value(&source, 3).unwrap();
    assert_eq!(next, 3 + info.len());
    let decoded = Info::decode_bencode_object(&value, &source).unwrap();
    assert_eq!(
        decoded.hash,
        [
            222, 65, 88, 1, 111, 188, 73, 235, 243, 86, 65, 144, 60, 236, 101, 160, 173, 13, 48,
            181
        ]
    );
    assert_eq!(
        Info::decode_bencode_object(&BencodeValue::Integer(1), &source),
        Err(DecodeError::WrongType { field: Field::Info })
    );
}

#[test]
fn span_outside_the_buffer_is_refused() {
    let source = with_info(small_info());
    let value = decode(&source).unwrap();
    assert_eq!(
        Torrent::decode_bencode_object(&value, &source[..20]),
        Err(DecodeError::SpanOutsideSource)
    );
    assert!(Torrent::decode_bencode_object(&value, &source).is_ok());
    let backwards = BencodeValue::Dictionary(Dictionary { entries: vec![], start: 5, end: 2 });
    assert_eq!(
        Info::decode_bencode_object(&backwards, &source),
        Err(DecodeError::SpanOutsideSource)
    );
    let beyond = BencodeValue::Dictionary(Dictionary {
        entries: vec![],
        start: 0,
        end: source.len() + 1,
    });
    assert_eq!(
        Info::decode_bencode_object(&beyond, &source),
        Err(DecodeError::SpanOutsideSource)
    );
}

#[test]
fn torrent_is_read_with_the_hash_that_is_given() {
    let source = dictionary(&[("announce", string(b"A")), ("info", small_info())]);
    let value = decode(&source).unwrap();
    let torrent = Torrent::with_info_hash(&value, [1u8; 20]).unwrap();
    assert_eq!(torrent.info.hash, [1u8; 20]);
    assert_eq!(torrent.announce_list, texts(&["A"]));
    let decoded = Torrent::decode_bencode_object(&value, &source).unwrap();
    assert_eq!(decoded.info.hash, Torrent::new(&source).unwrap().info.hash);
    assert_eq!(decoded.announce_list, torrent.announce_list);
}

#[test]
fn first_of_two_equal_fields_is_read() {
    let mut source = b"d7:comment3:one7:comment3:two4:info".to_vec();
    source.extend_from_slice(&small_info());
    source.push(b'e');
    let torrent = Torrent::new(&source).unwrap();
    assert_eq!(torrent.comment, Some("one".to_owned()));
}

#[test]
fn unknown_fields_are_passed_over() {
    let info = dictionary(&[
        ("length", integer(5)),
        ("name", string(b"a")),
        ("piece length", integer(16384)),
        ("pieces", string(&pieces(1))),
        ("private", integer(1)),
        ("source", list(&[dictionary(&[("x", integer(1))])])),
    ]);
    let source = dictionary(&[
        ("azureus_properties", dictionary(&[("dht_backup_enable", integer(1))])),
        ("info", info),
        ("url-list", list(&[string(b"http://mirror")])),
    ]);
    let torrent = Torrent::new(&source).unwrap();
    assert_eq!(torrent.info.name, "a");
    assert_eq!(torrent.announce_list, Vec::<String>::new());
}

#[test]
fn texts_are_read_as_utf8() {
    assert_eq!(read_text(b"plain"), Some("plain".to_owned()));
    assert_eq!(read_text(b""), Some(String::new()));
    assert_eq!(
        read_text(&[0xe2, 0x82, 0xac, 0x20, 0xf0, 0x9f, 0x98, 0x80]),
        Some("\u{20ac} \u{1f600}".to_owned())
    );
    assert_eq!(read_text(&[0xff]), None);
    assert_eq!(read_text(&[0xc0, 0x80]), None);
    assert_eq!(read_text(&[0xe2, 0x82]), None);
    assert_eq!(read_text(&[0xed, 0xa0, 0x80]), None);
    assert_eq!(read_text(&[0xf4, 0x8f, 0xbf, 0xbf]), Some("\u{10ffff}".to_owned()));
    assert_eq!(read_text(&[0xf4, 0x90, 0x80, 0x80]), None);
    assert_eq!(read_text(&[0x80]), None);
}

#[test]
fn repeated_texts_are_dropped() {
    assert_eq!(deduplicate(texts(&[])), texts(&[]));
    assert_eq!(deduplicate(texts(&["a"])), texts(&["a"]));
    assert_eq!(
        deduplicate(texts(&["b", "a", "b", "c", "a", "a", "d"])),
        texts(&["b", "a", "c", "d"])
    );
    assert!(contains_text(&texts(&["x", "y"]), &"y".to_owned()));
    assert!(!contains_text(&texts(&["x", "y"]), &"z".to_owned()));
    assert!(!contains_text(&texts(&[]), &"".to_owned()));
}

#[test]
fn segments_are_joined_with_slashes() {
    assert_eq!(join_segments(&texts(&[])), "");
    assert_eq!(join_segments(&texts(&["a"])), "a");
    assert_eq!(join_segments(&texts(&["a", "b"])), "a/b");
    assert_eq!(join_segments(&texts(&["usr", "share", "doc.txt"])), "usr/share/doc.txt");
    assert_eq!(join_segments(&texts(&["", "x", ""])), "/x/");
}
