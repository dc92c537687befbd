use bencode::Bencode;
use bencode::ByteStream;
use bencode::ParseError;
use bencode::decoder::bdecode_bytea;
use bencode::iter_bdecode;

fn decode(input: &[u8]) -> Result<Bencode, ParseError> {
    let mut stream = ByteStream::new(input.to_vec());
    iter_bdecode(&mut stream)
}

fn encode(document: &Bencode) -> Vec<u8> {
    let mut out = Vec::new();
    bencode::bencode(document, &mut out);
    out
}

#[test]
fn it_works() {
    let document = b"d1:a3:eh?1:bl3:beeee";

    let mut peekable = ByteStream::new(document.to_vec());
    let result = iter_bdecode(&mut peekable).ok().expect("failed to parse");

    let obj = match result {
        Bencode::Object(ref obj) => obj,
        _ => panic!("Must be an Bencode::Object"),
    };

    let a = obj.iter().find(|e| e.0 == b"a".to_vec()).map(|e| &e.1);
    assert_eq!(a, Some(&Bencode::Bytes(b"eh?".to_vec())));

    let b = obj.iter().find(|e| e.0 == b"b".to_vec()).map(|e| &e.1);
    assert_eq!(b, Some(&Bencode::Array(vec![Bencode::Bytes(b"bee".to_vec())])));

    let reserialized = encode(&result);
    assert_eq!(document, &reserialized[..]);
}

#[test]
fn out_of_order_keys_rejected() {
    assert_eq!(decode(b"d1:b0:1:a0:e"), Err(ParseError::OutOfOrderKey));
}

#[test]
fn duplicate_key_last_value_wins() {
    let result = decode(b"d1:a1:x1:a1:ye").unwrap();
    assert_eq!(
        result,
        Bencode::Object(vec![(b"a".to_vec(), Bencode::Bytes(b"y".to_vec()))])
    );
}

#[test]
fn missing_terminator_is_truncated() {
    assert_eq!(decode(b"i42"), Err(ParseError::Truncated));
}

#[test]
fn short_byte_string_decodes_leniently() {
    assert_eq!(decode(b"3:ab"), Ok(Bencode::Bytes(b"ab".to_vec())));
}

#[test]
fn missing_digit_run_is_invalid_length() {
    let mut stream = ByteStream::new(b"-3:abc".to_vec());
    assert_eq!(bdecode_bytea(&mut stream), Err(ParseError::InvalidLength));
}

#[test]
fn bad_start_byte_is_invalid_character() {
    assert_eq!(decode(b"x:abc"), Err(ParseError::InvalidCharacter));
}

#[test]
fn bad_integer_terminator_is_invalid_character() {
    assert_eq!(decode(b"i4xe"), Err(ParseError::InvalidCharacter));
}

#[test]
fn nested_structure_round_trips() {
    let document = b"l4:spami42ee";
    let result = decode(document).unwrap();
    assert_eq!(
        result,
        Bencode::Array(vec![
            Bencode::Bytes(b"spam".to_vec()),
            Bencode::Integer(b"42".to_vec()),
        ])
    );
    assert_eq!(encode(&result), document.to_vec());
}

#[test]
fn empty_containers_round_trip() {
    let empty_array = decode(b"le").unwrap();
    assert_eq!(empty_array, Bencode::Array(vec![]));
    assert_eq!(encode(&empty_array), b"le".to_vec());

    let empty_object = decode(b"de").unwrap();
    assert_eq!(empty_object, Bencode::Object(vec![]));
    assert_eq!(encode(&empty_object), b"de".to_vec());
}

#[test]
fn empty_integer_round_trips() {
    let result = decode(b"ie").unwrap();
    assert_eq!(result, Bencode::Integer(b"".to_vec()));
    assert_eq!(encode(&result), b"ie".to_vec());
}

#[test]
fn oversized_length_is_invalid_length() {
    assert_eq!(
        decode(b"99999999999999999999999999999999999999:a"),
        Err(ParseError::InvalidLength)
    );
}

#[test]
fn empty_input_is_truncated() {
    assert_eq!(decode(b""), Err(ParseError::Truncated));
}

#[test]
fn trailing_bytes_are_left_unconsumed() {
    let mut stream = ByteStream::new(b"i7eXYZ".to_vec());
    assert_eq!(iter_bdecode(&mut stream), Ok(Bencode::Integer(b"7".to_vec())));
    assert_eq!(stream.peek(), Some(b'X'));
}

#[test]
fn caller_built_object_round_trips() {
    let document = Bencode::Object(vec![
        (b"ab".to_vec(), Bencode::Integer(b"007".to_vec())),
        (
            b"cd".to_vec(),
            Bencode::Array(vec![
                Bencode::Bytes(b"".to_vec()),
                Bencode::Object(vec![]),
            ]),
        ),
    ]);
    let encoded = encode(&document);
    assert_eq!(encoded, b"d2:abi007e2:cdl0:deee".to_vec());
    assert_eq!(decode(&encoded), Ok(document));
}

#[test]
fn decimal_lengths_render_exactly() {
    let payload = vec![b'z'; 12];
    let document = Bencode::Bytes(payload.clone());
    let mut expected = b"12:".to_vec();
    expected.extend_from_slice(&payload);
    assert_eq!(encode(&document), expected);
}

#[test]
fn unterminated_list_is_truncated() {
    assert_eq!(decode(b"l4:spam"), Err(ParseError::Truncated));
    assert_eq!(decode(b"d1:a1:b"), Err(ParseError::Truncated));
}
