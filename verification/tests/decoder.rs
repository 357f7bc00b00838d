use bendy::decoding::{Decoder, Object};
use metainfo::decoder::{decode, decode_bytes, decode_integer, decode_nested, decode_value};
use metainfo::error::DecodeError;
use metainfo::syntax::MAX_DEPTH;
use metainfo::value::{bytes_equal, position_of_key, BencodeValue, Dictionary};

fn integer(n: i64) -> BencodeValue {
    BencodeValue::Integer(n)
}

fn string(bytes: &[u8]) -> BencodeValue {
    BencodeValue::ByteString(bytes.to_vec())
}

fn dictionary(entries: Vec<(&[u8], BencodeValue)>, start: usize, end: usize) -> BencodeValue {
    BencodeValue::Dictionary(Dictionary {
        entries: entries.into_iter().map(|(k, v)| (k.to_vec(), v)).collect(),
        start,
        end,
    })
}

/// Whether `ours` is the value that bendy reads, with the spans of its
/// dictionaries holding the bytes that bendy gives as their raw form.
fn same_as_bendy(theirs: Object, ours: &BencodeValue, source: &[u8]) -> bool {
    match (theirs, ours) {
        (Object::Integer(text), BencodeValue::Integer(n)) => text.parse::<i64>() == Ok(*n),
        (Object::Bytes(bytes), BencodeValue::ByteString(b)) => bytes == b.as_slice(),
        (Object::List(mut list), BencodeValue::List(items)) => {
            let mut i = 0;
            while let Some(item) = list.next_object().unwrap() {
                if i >= items.len() || !same_as_bendy(item, &items[i], source) {
                    return false;
                }
                i += 1;
            }
            i == items.len()
        }
        (Object::Dict(mut dict), BencodeValue::Dictionary(d)) => {
            let mut i = 0;
            while let Some((key, value)) = dict.next_pair().unwrap() {
                if i >= d.entries.len()
                    || key != d.entries[i].0.as_slice()
                    || !same_as_bendy(value, &d.entries[i].1, source)
                {
                    return false;
                }
                i += 1;
            }
            i == d.entries.len() && dict.into_raw().unwrap() == &source[d.start..d.end]
        }
        _ => false,
    }
}

fn agrees_with_bendy(source: &[u8]) -> bool {
    let ours = decode(source).unwrap();
    let mut decoder = Decoder::new(source);
    let theirs = decoder.next_object().unwrap().unwrap();
    same_as_bendy(theirs, &ours, source)
}

fn bendy_refuses(source: &[u8]) -> bool {
    fn walk(object: Object) -> Result<(), bendy::decoding::Error> {
        match object {
            Object::List(mut list) => {
                while let Some(item) = list.next_object()? {
                    walk(item)?;
                }
                Ok(())
            }
            Object::Dict(mut dict) => {
                while let Some((_, value)) = dict.next_pair()? {
                    walk(value)?;
                }
                Ok(())
            }
            _ => Ok(()),
        }
    }
    let mut decoder = Decoder::new(source);
    let refused = match decoder.next_object() {
        Ok(Some(object)) => walk(object).is_err(),
        Ok(None) => true,
        Err(_) => true,
    };
    refused
}

#[test]
fn integer_is_decoded() {
    assert_eq!(decode(b"i42e"), Ok(integer(42)));
    assert_eq!(decode(b"i-7e"), Ok(integer(-7)));
    assert_eq!(decode(b"i0e"), Ok(integer(0)));
    assert_eq!(decode(b"i1740054289e"), Ok(integer(1740054289)));
}

#[test]
fn integer_limits_are_decoded() {
    assert_eq!(decode(b"i9223372036854775807e"), Ok(integer(i64::MAX)));
    assert_eq!(decode(b"i-9223372036854775808e"), Ok(integer(i64::MIN)));
    assert_eq!(decode(b"i-9223372036854775807e"), Ok(integer(-i64::MAX)));
}

#[test]
fn integer_beyond_64_bits_is_refused() {
    assert_eq!(
        decode(b"i9223372036854775808e"),
        Err(DecodeError::IntegerOutOfRange { position: 0 })
    );
    assert_eq!(
        decode(b"i-9223372036854775809e"),
        Err(DecodeError::IntegerOutOfRange { position: 0 })
    );
    assert_eq!(
        decode(b"i18446744073709551616e"),
        Err(DecodeError::IntegerOutOfRange { position: 0 })
    );
    assert_eq!(
        decode(b"li1ei123456789012345678901234567890ee"),
        Err(DecodeError::IntegerOutOfRange { position: 4 })
    );
}

#[test]
fn integer_with_leading_zero_is_refused() {
    assert_eq!(decode(b"i01e"), Err(DecodeError::MalformedInteger { position: 2 }));
    assert_eq!(decode(b"i00e"), Err(DecodeError::MalformedInteger { position: 2 }));
    assert_eq!(decode(b"i-01e"), Err(DecodeError::MalformedInteger { position: 2 }));
}

#[test]
fn negative_zero_is_refused() {
    assert_eq!(decode(b"i-0e"), Err(DecodeError::MalformedInteger { position: 2 }));
}

#[test]
fn integer_without_digits_is_refused() {
    assert_eq!(decode(b"ie"), Err(DecodeError::MalformedInteger { position: 1 }));
    assert_eq!(decode(b"i-e"), Err(DecodeError::MalformedInteger { position: 2 }));
    assert_eq!(decode(b"i+1e"), Err(DecodeError::MalformedInteger { position: 1 }));
    assert_eq!(decode(b"i1x"), Err(DecodeError::MalformedInteger { position: 2 }));
    assert_eq!(decode(b"i1-2e"), Err(DecodeError::MalformedInteger { position: 2 }));
}

#[test]
fn truncated_integer_is_refused() {
    assert_eq!(decode(b"i"), Err(DecodeError::UnexpectedEnd { position: 1 }));
    assert_eq!(decode(b"i-"), Err(DecodeError::UnexpectedEnd { position: 2 }));
    assert_eq!(decode(b"i12"), Err(DecodeError::UnexpectedEnd { position: 3 }));
    assert_eq!(decode(b"i0"), Err(DecodeError::UnexpectedEnd { position: 2 }));
}

#[test]
fn integer_at_a_position() {
    assert_eq!(decode_integer(b"xxi-15e", 2), Ok((-15, 7)));
    assert_eq!(
        decode_integer(b"xxi-15", 2),
        Err(DecodeError::UnexpectedEnd { position: 6 })
    );
}

#[test]
fn byte_string_is_decoded() {
    assert_eq!(decode(b"4:spam"), Ok(string(b"spam")));
    assert_eq!(decode(b"0:"), Ok(string(b"")));
    assert_eq!(decode(b"3:\x00\xff\x80"), Ok(string(&[0x00, 0xff, 0x80])));
    assert_eq!(decode(b"12:hello world!"), Ok(string(b"hello world!")));
    assert_eq!(decode(b"2:i1"), Ok(string(b"i1")));
}

#[test]
fn byte_string_at_a_position() {
    assert_eq!(decode_bytes(b"i1e3:abcde", 3), Ok((b"abc".to_vec(), 8)));
}

#[test]
fn byte_string_length_with_leading_zero_is_refused() {
    assert_eq!(decode(b"01:a"), Err(DecodeError::MalformedLength { position: 1 }));
    assert_eq!(decode(b"00:"), Err(DecodeError::MalformedLength { position: 1 }));
}

#[test]
fn byte_string_without_colon_is_refused() {
    assert_eq!(decode(b"4spam"), Err(DecodeError::MalformedLength { position: 1 }));
    assert_eq!(decode(b"12-ab"), Err(DecodeError::MalformedLength { position: 2 }));
}

#[test]
fn truncated_byte_string_is_refused() {
    assert_eq!(decode(b"5:abc"), Err(DecodeError::UnexpectedEnd { position: 5 }));
    assert_eq!(decode(b"3:"), Err(DecodeError::UnexpectedEnd { position: 2 }));
    assert_eq!(decode(b"3"), Err(DecodeError::UnexpectedEnd { position: 1 }));
    assert_eq!(decode(b"1:"), Err(DecodeError::UnexpectedEnd { position: 2 }));
}

#[test]
fn byte_string_longer_than_any_buffer_is_refused() {
    assert_eq!(
        decode(b"99999999999999999999999999:a"),
        Err(DecodeError::UnexpectedEnd { position: 28 })
    );
    assert_eq!(
        decode(b"18446744073709551615:a"),
        Err(DecodeError::UnexpectedEnd { position: 22 })
    );
}

#[test]
fn list_is_decoded() {
    assert_eq!(decode(b"le"), Ok(BencodeValue::List(vec![])));
    assert_eq!(
        decode(b"li1e4:spamli2eee"),
        Ok(BencodeValue::List(vec![
            integer(1),
            string(b"spam"),
            BencodeValue::List(vec![integer(2)]),
        ]))
    );
}

#[test]
fn unterminated_list_is_refused() {
    assert_eq!(decode(b"l"), Err(DecodeError::UnexpectedEnd { position: 1 }));
    assert_eq!(decode(b"li1e"), Err(DecodeError::UnexpectedEnd { position: 4 }));
    assert_eq!(decode(b"lli1ee"), Err(DecodeError::UnexpectedEnd { position: 6 }));
}

#[test]
fn dictionary_is_decoded_with_its_span() {
    assert_eq!(decode(b"de"), Ok(dictionary(vec![], 0, 2)));
    assert_eq!(
        decode(b"d3:bari1e3:fooli2ei3eee"),
        Ok(dictionary(
            vec![
                (b"bar", integer(1)),
                (b"foo", BencodeValue::List(vec![integer(2), integer(3)])),
            ],
            0,
            23
        ))
    );
}

#[test]
fn nested_dictionary_has_its_own_span() {
    let source = b"d1:ad1:bi1ee1:cli0ed1:xdeeee";
    let value = decode(source).unwrap();
    assert_eq!(
        value,
        dictionary(
            vec![
                (b"a", dictionary(vec![(b"b", integer(1))], 4, 12)),
                (
                    b"c",
                    BencodeValue::List(vec![
                        integer(0),
                        dictionary(vec![(b"x", dictionary(vec![], 23, 25))], 19, 26),
                    ])
                ),
            ],
            0,
            28
        )
    );
    assert_eq!(&source[4..12], b"d1:bi1ee");
    assert_eq!(&source[19..26], b"d1:xdee");
    assert_eq!(&source[23..25], b"de");
}

#[test]
fn unsorted_keys_are_accepted_in_their_order() {
    assert_eq!(
        decode(b"d3:fooi1e3:bari2ee"),
        Ok(dictionary(vec![(b"foo", integer(1)), (b"bar", integer(2))], 0, 18))
    );
}

#[test]
fn first_of_two_equal_keys_stays() {
    assert_eq!(
        decode(b"d1:ai1e1:bi2e1:ai3ee"),
        Ok(dictionary(vec![(b"a", integer(1)), (b"b", integer(2))], 0, 20))
    );
    assert_eq!(
        decode(b"d1:ai1e1:ai2ee"),
        Ok(dictionary(vec![(b"a", integer(1))], 0, 14))
    );
}

#[test]
fn value_of_a_repeated_key_is_still_checked() {
    assert_eq!(
        decode(b"d1:ai1e1:ai02ee"),
        Err(DecodeError::MalformedInteger { position: 12 })
    );
}

#[test]
fn key_that_is_no_byte_string_is_refused() {
    assert_eq!(decode(b"di1ei2ee"), Err(DecodeError::NonStringKey { position: 1 }));
    assert_eq!(decode(b"d3:fooi1ei2ei3ee"), Err(DecodeError::NonStringKey { position: 9 }));
    assert_eq!(decode(b"dlee"), Err(DecodeError::NonStringKey { position: 1 }));
    assert_eq!(decode(b"ddee"), Err(DecodeError::NonStringKey { position: 1 }));
}

#[test]
fn key_without_value_is_refused() {
    assert_eq!(decode(b"d3:fooe"), Err(DecodeError::InvalidToken { position: 6 }));
    assert_eq!(decode(b"d3:foo"), Err(DecodeError::UnexpectedEnd { position: 6 }));
}

#[test]
fn unterminated_dictionary_is_refused() {
    assert_eq!(decode(b"d"), Err(DecodeError::UnexpectedEnd { position: 1 }));
    assert_eq!(decode(b"d1:ai1e"), Err(DecodeError::UnexpectedEnd { position: 7 }));
    assert_eq!(decode(b"d1:ad1:bi1ee"), Err(DecodeError::UnexpectedEnd { position: 12 }));
}

#[test]
fn byte_that_starts_no_value_is_refused() {
    assert_eq!(decode(b"x"), Err(DecodeError::InvalidToken { position: 0 }));
    assert_eq!(decode(b"e"), Err(DecodeError::InvalidToken { position: 0 }));
    assert_eq!(decode(b"-1:a"), Err(DecodeError::InvalidToken { position: 0 }));
    assert_eq!(decode(b" i1e"), Err(DecodeError::InvalidToken { position: 0 }));
    assert_eq!(decode(b"li1e?e"), Err(DecodeError::InvalidToken { position: 4 }));
}

#[test]
fn empty_buffer_is_truncated() {
    assert_eq!(decode(b""), Err(DecodeError::UnexpectedEnd { position: 0 }));
}

#[test]
fn bytes_after_the_value_are_not_read() {
    assert_eq!(decode(b"i1ei2e"), Ok(integer(1)));
    assert_eq!(decode(b"dexyz"), Ok(dictionary(vec![], 0, 2)));
    assert_eq!(decode(b"3:abc\x00\x01"), Ok(string(b"abc")));
}

#[test]
fn cursor_moves_past_the_value() {
    let source = b"xx4:spami1eld1:kdeee";
    let (first, next) = decode_value(source, 2).unwrap();
    assert_eq!(first, string(b"spam"));
    assert_eq!(next, 8);
    let (second, next) = decode_value(source, next).unwrap();
    assert_eq!(second, integer(1));
    assert_eq!(next, 11);
    let (third, next) = decode_value(source, next).unwrap();
    assert_eq!(
        third,
        BencodeValue::List(vec![dictionary(vec![(b"k", dictionary(vec![], 16, 18))], 12, 19)])
    );
    assert_eq!(next, 20);
    assert_eq!(
        decode_value(source, next),
        Err(DecodeError::UnexpectedEnd { position: 20 })
    );
    assert_eq!(
        decode_value(source, 1000),
        Err(DecodeError::UnexpectedEnd { position: 20 })
    );
}

#[test]
fn nesting_up_to_the_limit_is_accepted() {
    let depth = 64;
    let mut source = vec![b'l'; depth];
    source.extend(vec![b'e'; depth]);
    let mut value = decode(&source).unwrap();
    for _ in 0..depth - 1 {
        value = match value {
            BencodeValue::List(mut items) => {
                assert_eq!(items.len(), 1);
                items.pop().unwrap()
            }
            _ => panic!("not a list"),
        };
    }
    assert_eq!(value, BencodeValue::List(vec![]));
}

#[test]
fn nesting_at_the_limit_is_refused() {
    assert_eq!(MAX_DEPTH, 2048);
    assert_eq!(
        decode_nested(b"le", 0, MAX_DEPTH - 1),
        Ok((BencodeValue::List(vec![]), 2))
    );
    assert_eq!(
        decode_nested(b"le", 0, MAX_DEPTH),
        Err(DecodeError::NestingTooDeep { position: 0 })
    );
    assert_eq!(
        decode_nested(b"de", 0, MAX_DEPTH),
        Err(DecodeError::NestingTooDeep { position: 0 })
    );
    assert_eq!(
        decode_nested(b"llee", 0, MAX_DEPTH - 1),
        Err(DecodeError::NestingTooDeep { position: 1 })
    );
    assert_eq!(
        decode_nested(b"d1:adee", 0, MAX_DEPTH - 1),
        Err(DecodeError::NestingTooDeep { position: 4 })
    );
    assert_eq!(decode_nested(b"i5e", 0, MAX_DEPTH), Ok((integer(5), 3)));
    assert_eq!(decode_nested(b"1:a", 0, MAX_DEPTH), Ok((string(b"a"), 3)));
}

#[test]
fn lookup_finds_the_first_entry_with_the_key() {
    let value = decode(b"d1:ai1e2:abi2e1:bi3ee").unwrap();
    let d = match &value {
        BencodeValue::Dictionary(d) => d,
        _ => panic!("not a dictionary"),
    };
    assert_eq!(d.get(b"a"), Some(&integer(1)));
    assert_eq!(d.get(b"ab"), Some(&integer(2)));
    assert_eq!(d.get(b"b"), Some(&integer(3)));
    assert_eq!(d.get(b"c"), None);
    assert_eq!(d.get(b""), None);
    assert_eq!(position_of_key(&d.entries, b"ab"), Some(1));
    assert_eq!(position_of_key(&d.entries, b"abc"), None);
    let twice = vec![
        (b"k".to_vec(), integer(1)),
        (b"k".to_vec(), integer(2)),
    ];
    assert_eq!(position_of_key(&twice, b"k"), Some(0));
}

#[test]
fn byte_strings_are_compared_byte_by_byte() {
    assert!(bytes_equal(b"", b""));
    assert!(bytes_equal(b"abc", b"abc"));
    assert!(!bytes_equal(b"abc", b"abd"));
    assert!(!bytes_equal(b"abc", b"ab"));
    assert!(!bytes_equal(b"", b"a"));
}

#[test]
fn decoder_agrees_with_bendy_on_sorted_documents() {
    let documents: Vec<&[u8]> = vec![
        b"i0e",
        b"i-42e",
        b"i9223372036854775807e",
        b"0:",
        b"4:spam",
        b"le",
        b"de",
        b"li1e4:spamli2eee",
        b"d3:bari1e3:fooli2ei3eee",
        b"d1:ad1:bi1ee1:cli0ed1:xdeeee",
        b"d8:announce3:url4:infod6:lengthi5e4:name1:a12:piece lengthi16384e6:pieces0:ee",
        b"d4:infod5:filesld6:lengthi3e4:pathl3:dir5:a.txteee4:name4:packee",
        b"ld1:ai1eed1:bi2eee",
    ];
    for source in documents {
        assert!(agrees_with_bendy(source), "{:?}", source);
    }
}

#[test]
fn decoder_refuses_what_bendy_refuses() {
    let documents: Vec<&[u8]> = vec![
        b"",
        b"i",
        b"ie",
        b"i-0e",
        b"i01e",
        b"i-01e",
        b"i12",
        b"3:",
        b"5:abc",
        b"01:a",
        b"l",
        b"li1e",
        b"d",
        b"d3:fooe",
        b"d3:fooi1ei2ei3ee",
        b"di1ei2ee",
        b"x",
        b"li1e?e",
    ];
    for source in documents {
        assert!(bendy_refuses(source), "{:?}", source);
        assert!(decode(source).is_err(), "{:?}", source);
    }
}

#[test]
fn deepest_nesting_is_accepted() {
    let mut source = vec![b'l'; MAX_DEPTH];
    source.extend(vec![b'e'; MAX_DEPTH]);
    assert!(decode(&source).is_ok());
    assert!(agrees_with_bendy(&source));
    let mut mixed = Vec::new();
    for _ in 0..MAX_DEPTH / 2 {
        mixed.extend_from_slice(b"d1:kl");
    }
    for _ in 0..MAX_DEPTH / 2 {
        mixed.extend_from_slice(b"ee");
    }
    assert!(decode(&mixed).is_ok());
}

#[test]
fn nesting_beyond_the_limit_is_refused() {
    let mut source = vec![b'l'; MAX_DEPTH + 1];
    source.extend(vec![b'e'; MAX_DEPTH + 1]);
    assert_eq!(
        decode(&source),
        Err(DecodeError::NestingTooDeep { position: MAX_DEPTH })
    );
    assert!(bendy_refuses(&source));
    let endless = vec![b'l'; 1000000];
    assert_eq!(
        decode(&endless),
        Err(DecodeError::NestingTooDeep { position: MAX_DEPTH })
    );
}

#[test]
fn integer_and_byte_string_are_refused_where_none_starts() {
    assert_eq!(
        decode_integer(b"x5e", 0),
        Err(DecodeError::MalformedInteger { position: 0 })
    );
    assert_eq!(decode_integer(b"i5e", 3), Err(DecodeError::UnexpectedEnd { position: 3 }));
    assert_eq!(decode_bytes(b":abc", 0), Err(DecodeError::MalformedLength { position: 0 }));
    assert_eq!(decode_bytes(b"i5e", 0), Err(DecodeError::MalformedLength { position: 0 }));
    assert_eq!(decode_bytes(b"1:a", 7), Err(DecodeError::UnexpectedEnd { position: 3 }));
}

fn moved(value: BencodeValue, delta: usize) -> BencodeValue {
    match value {
        BencodeValue::List(items) => {
            BencodeValue::List(items.into_iter().map(|item| moved(item, delta)).collect())
        }
        BencodeValue::Dictionary(d) => BencodeValue::Dictionary(Dictionary {
            entries: d.entries.into_iter().map(|(k, v)| (k, moved(v, delta))).collect(),
            start: d.start + delta,
            end: d.end + delta,
        }),
        other => other,
    }
}

#[test]
fn same_bytes_hold_the_same_value_at_another_place() {
    let encoding: &[u8] = b"d1:ad1:bi-12ee1:cl3:xyzd1:kdeeee";
    let (alone, end) = decode_value(encoding, 0).unwrap();
    assert_eq!(end, encoding.len());
    for prefix in [&b"l"[..], &b"d4:info"[..], &b"li1e5:hello"[..]] {
        let mut source = prefix.to_vec();
        source.extend_from_slice(encoding);
        source.extend_from_slice(b"i7ee");
        let (value, next) = decode_nested(&source, prefix.len(), 1).unwrap();
        assert_eq!(next, prefix.len() + encoding.len());
        assert_eq!(value, moved(decode_value(encoding, 0).unwrap().0, prefix.len()));
    }
    assert_eq!(moved(alone, 0), decode(encoding).unwrap());
}

#[test]
fn encoding_of_a_value_is_read_back() {
    fn encode(value: &BencodeValue, out: &mut Vec<u8>) {
        match value {
            BencodeValue::Integer(n) => out.extend_from_slice(format!("i{}e", n).as_bytes()),
            BencodeValue::ByteString(b) => {
                out.extend_from_slice(format!("{}:", b.len()).as_bytes());
                out.extend_from_slice(b);
            }
            BencodeValue::List(items) => {
                out.push(b'l');
                for item in items {
                    encode(item, out);
                }
                out.push(b'e');
            }
            BencodeValue::Dictionary(d) => {
                out.push(b'd');
                for (key, item) in &d.entries {
                    encode(&BencodeValue::ByteString(key.clone()), out);
                    encode(item, out);
                }
                out.push(b'e');
            }
        }
    }
    let value = dictionary(
        vec![
            (b"zeta", integer(i64::MIN)),
            (b"", string(&[0, 255, 58, 101])),
            (
                b"list",
                BencodeValue::List(vec![
                    integer(0),
                    integer(1234567890123),
                    string(b""),
                    dictionary(vec![(b"k", BencodeValue::List(vec![]))], 0, 0),
                ]),
            ),
        ],
        0,
        0,
    );
    let mut source = Vec::new();
    encode(&value, &mut source);
    let decoded = decode(&source).unwrap();
    let mut again = Vec::new();
    encode(&decoded, &mut again);
    assert_eq!(again, source);
    match (&decoded, &value) {
        (BencodeValue::Dictionary(d), BencodeValue::Dictionary(v)) => {
            assert_eq!(d.start, 0);
            assert_eq!(d.end, source.len());
            assert_eq!(d.entries.len(), v.entries.len());
            assert_eq!(d.entries[0], v.entries[0]);
            assert_eq!(d.entries[1], v.entries[1]);
            assert_eq!(d.entries[2].0, v.entries[2].0);
        }
        _ => panic!("not a dictionary"),
    }
}

/// A small generator of numbers, the same on every run.
struct Numbers(u64);

impl Numbers {
    fn next(&mut self) -> u64 {
        self.0 ^= self.0 << 13;
        self.0 ^= self.0 >> 7;
        self.0 ^= self.0 << 17;
        self.0
    }

    fn below(&mut self, bound: u64) -> u64 {
        self.next() % bound
    }
}

fn random_bytes(numbers: &mut Numbers) -> Vec<u8> {
    let length = numbers.below(6) as usize;
    (0..length).map(|_| numbers.below(256) as u8).collect()
}

/// Writes the encoding of a generated value, the keys of its dictionaries
/// sorted and different.
fn random_document(numbers: &mut Numbers, depth: usize, out: &mut Vec<u8>) {
    let kind = if depth >= 4 { numbers.below(2) } else { numbers.below(4) };
    match kind {
        0 => {
            let n = match numbers.below(4) {
                0 => 0,
                1 => i64::MAX,
                2 => i64::MIN,
                _ => numbers.next() as i64 >> numbers.below(64),
            };
            out.extend_from_slice(format!("i{}e", n).as_bytes());
        }
        1 => {
            let bytes = random_bytes(numbers);
            out.extend_from_slice(format!("{}:", bytes.len()).as_bytes());
            out.extend_from_slice(&bytes);
        }
        2 => {
            out.push(b'l');
            for _ in 0..numbers.below(4) {
                random_document(numbers, depth + 1, out);
            }
            out.push(b'e');
        }
        _ => {
            let count = numbers.below(4);
            let mut keys: Vec<Vec<u8>> = (0..count).map(|_| random_bytes(numbers)).collect();
            keys.sort();
            keys.dedup();
            out.push(b'd');
            for key in keys {
                out.extend_from_slice(format!("{}:", key.len()).as_bytes());
                out.extend_from_slice(&key);
                random_document(numbers, depth + 1, out);
            }
            out.push(b'e');
        }
    }
}

#[test]
fn decoder_agrees_with_bendy_on_generated_documents() {
    let mut numbers = Numbers(0x9e3779b97f4a7c15);
    for _ in 0..2000 {
        let mut source = Vec::new();
        random_document(&mut numbers, 0, &mut source);
        assert!(agrees_with_bendy(&source), "{:?}", source);
    }
}

#[test]
fn decoder_refuses_damaged_documents_that_bendy_refuses() {
    let mut numbers = Numbers(0x2545f4914f6cdd1d);
    let mut refused = 0;
    for _ in 0..4000 {
        let mut source = Vec::new();
        random_document(&mut numbers, 0, &mut source);
        match numbers.below(3) {
            0 => {
                let at = numbers.below(source.len() as u64) as usize;
                source[at] = b"0123456789ilde:-x"[numbers.below(17) as usize];
            }
            1 => {
                let keep = numbers.below(source.len() as u64) as usize;
                source.truncate(keep);
            }
            _ => {
                let at = numbers.below(source.len() as u64 + 1) as usize;
                source.insert(at, b"0123456789ilde:-x"[numbers.below(17) as usize]);
            }
        }
        match decode(&source) {
            Ok(_) => {
                if !bendy_refuses(&source) {
                    assert!(agrees_with_bendy(&source), "{:?}", source);
                }
            }
            Err(DecodeError::IntegerOutOfRange { .. }) => refused += 1,
            Err(_) => {
                assert!(bendy_refuses(&source), "{:?}", source);
                refused += 1;
            }
        }
    }
    assert!(refused > 1000);
}
