use rustorrent::bencode::encoder::{
    encode_bencode, encode_bytes, encode_dict, encode_int, encode_list, encode_string,
};
use rustorrent::bencode::parser::{parse_bencode, parse_dict, parse_int, parse_list, parse_string};
use rustorrent::bencode::{dict_insert, BencodeString, BencodeValue, ParseError};

fn to_byte_vec(s: &str) -> Vec<u8> {
    s.bytes().collect::<Vec<u8>>()
}

#[test]
fn test_encode_bytes() {
    let input: Vec<u8> = "hello".bytes().collect();
    let expected = "5:hello".as_bytes();
    assert_eq!(encode_bytes(&input), expected);
}

#[test]
fn test_encode_string() {
    let input = "hello";
    let expected = "5:hello".as_bytes();
    assert_eq!(encode_string(input), expected);
}

#[test]
fn test_encode_int() {
    let input = 123;
    let expected = "i123e".as_bytes();
    assert_eq!(encode_int(&input), expected);
}

#[test]
fn test_encode_list() {
    let input = vec![
        BencodeValue::Int(123),
        BencodeValue::String(BencodeString::String("hello".to_string())),
    ];
    let expected = "li123e5:helloe".as_bytes();
    assert_eq!(encode_list(&input), expected);
}

#[test]
fn test_encode_dict() {
    let mut input: Vec<(String, BencodeValue)> = Vec::new();
    dict_insert(&mut input, "key".to_string(), BencodeValue::Int(123));
    dict_insert(
        &mut input,
        "key2".to_string(),
        BencodeValue::String(BencodeString::String("hello".to_string())),
    );

    let expected = "d3:keyi123e4:key25:helloe".as_bytes();
    assert_eq!(encode_dict(&input), expected);
}

#[test]
fn test_encode_bencode() {
    let input = "d3:keyd3:keyd3:key5:valuee4:listli123e5:Hello5:Worldeee"
        .as_bytes()
        .to_vec();
    let (parsed, _) = parse_bencode(&input).unwrap();
    assert_eq!(encode_bencode(&parsed), input);
}

#[test]
fn test_parse_string() {
    assert_eq!(
        Ok((BencodeString::String("spam".to_string()), Vec::new())),
        parse_string(&to_byte_vec("4:spam"))
    );
    assert_eq!(
        Ok((
            BencodeString::String("spam".to_string()),
            to_byte_vec("remaining")
        )),
        parse_string(&to_byte_vec("4:spamremaining"))
    );
    assert_eq!(
        Ok((BencodeString::String("0123456789".to_string()), Vec::new())),
        parse_string(&to_byte_vec("10:0123456789"))
    );

    assert_eq!(
        Err(ParseError {
            value: "invalid".to_string(),
            message: String::from("Invalid Bencode String length"),
        }),
        parse_string(&to_byte_vec("invalid"))
    );
    assert_eq!(
        Err(ParseError {
            value: "invalid:invalid".to_string(),
            message: String::from("Invalid Bencode String length"),
        }),
        parse_string(&to_byte_vec("invalid:invalid"))
    );

    assert_eq!(
        Ok((BencodeString::String("a:b".to_string()), Vec::new())),
        parse_string(&to_byte_vec("3:a:b"))
    );
}

#[test]
fn test_parse_int() {
    assert_eq!(Ok((3, Vec::new())), parse_int(&to_byte_vec("i3e")));
    assert_eq!(Ok((-3, Vec::new())), parse_int(&to_byte_vec("i-3e")));
    assert_eq!(Ok((0, Vec::new())), parse_int(&to_byte_vec("i0e")));
    assert_eq!(Ok((4096, Vec::new())), parse_int(&to_byte_vec("i4096e")));
    assert_eq!(
        Ok((0, to_byte_vec("4:spam"))),
        parse_int(&to_byte_vec("i0e4:spam"))
    );

    assert_eq!(
        Err(ParseError {
            value: "i02e".to_string(),
            message: "Integer cannot be prefixed with 0".to_string()
        }),
        parse_int(&to_byte_vec("i02e"))
    );
    assert_eq!(
        Err(ParseError {
            value: "i-0e".to_string(),
            message: "Invalid Bencode Integer".to_string()
        }),
        parse_int(&to_byte_vec("i-0e"))
    );
    assert_eq!(
        Err(ParseError {
            value: "i-02e".to_string(),
            message: "Invalid Bencode Integer".to_string()
        }),
        parse_int(&to_byte_vec("i-02e"))
    );
    assert_eq!(
        Err(ParseError {
            value: "iinvalide".to_string(),
            message: "Could not parse Bencode Integer".to_string()
        }),
        parse_int(&to_byte_vec("iinvalide"))
    );
}

#[test]
fn test_parse_list() {
    assert_eq!(Ok((vec![], Vec::new())), parse_list(&to_byte_vec("le")));
    assert_eq!(
        Ok((
            vec![
                BencodeValue::String(BencodeString::String("spam".to_string())),
                BencodeValue::String(BencodeString::String("ham".to_string()))
            ],
            Vec::new()
        )),
        parse_list(&to_byte_vec("l4:spam3:hame"))
    );
    assert_eq!(
        Ok((
            vec![
                BencodeValue::String(BencodeString::String("spam".to_string())),
                BencodeValue::Int(123)
            ],
            Vec::new()
        )),
        parse_list(&to_byte_vec("l4:spami123ee"))
    );
    assert_eq!(
        Ok((
            vec![
                BencodeValue::String(BencodeString::String("spam".to_string())),
                BencodeValue::Int(123),
                BencodeValue::List(vec![
                    BencodeValue::Int(1),
                    BencodeValue::Int(2),
                    BencodeValue::Int(3)
                ])
            ],
            Vec::new()
        )),
        parse_list(&to_byte_vec("l4:spami123eli1ei2ei3eee"))
    );
    assert_eq!(
        Ok((
            vec![BencodeValue::Dict(vec![(
                "test".to_string(),
                BencodeValue::String(BencodeString::String("value".to_string()))
            )])],
            Vec::new()
        )),
        parse_list(&to_byte_vec("ld4:test5:valueee"))
    );

    assert_eq!(
        Err(ParseError {
            value: "invalid".to_string(),
            message: "Bencode List must start with 'l'".to_string()
        }),
        parse_list(&to_byte_vec("invalid"))
    );
    assert_eq!(
        Err(ParseError {
            value: "l".to_string(),
            message: "Invalid Bencode List".to_string()
        }),
        parse_list(&to_byte_vec("l"))
    );
}

#[test]
fn test_parse_dict() {
    assert_eq!(Ok((Vec::new(), Vec::new())), parse_dict(&to_byte_vec("de")));
    assert_eq!(
        Ok((
            vec![
                (
                    "spam".to_string(),
                    BencodeValue::String(BencodeString::String("egg".to_string()))
                ),
                ("cow".to_string(), BencodeValue::Int(3))
            ],
            Vec::new()
        )),
        parse_dict(&to_byte_vec("d4:spam3:egg3:cowi3ee"))
    );
    assert_eq!(
        Ok((
            vec![
                (
                    "spam".to_string(),
                    BencodeValue::String(BencodeString::String("egg".to_string()))
                ),
                ("cow".to_string(), BencodeValue::Int(3)),
                (
                    "list".to_string(),
                    BencodeValue::List(vec![BencodeValue::Int(123)])
                )
            ],
            Vec::new()
        )),
        parse_dict(&to_byte_vec("d4:spam3:egg3:cowi3e4:listli123eee"))
    );

    assert_eq!(
        Err(ParseError {
            value: "invalid".to_string(),
            message: "Bencode Dict must start with 'd'".to_string()
        }),
        parse_dict(&to_byte_vec("invalid"))
    );
    assert_eq!(
        Err(ParseError {
            value: "d".to_string(),
            message: "Invalid Bencode Dict".to_string()
        }),
        parse_dict(&to_byte_vec("d"))
    );
}

#[test]
fn test_get_value_and_roundtrip() {
    let input = to_byte_vec("d3:cow3:moo4:spami7ee");
    let (value, rest) = BencodeValue::parse(&input).unwrap();
    assert!(rest.is_empty());
    assert_eq!(
        value.get_value("cow"),
        Some(&BencodeValue::String(BencodeString::String(
            "moo".to_string()
        )))
    );
    assert_eq!(value.get_value("spam"), Some(&BencodeValue::Int(7)));
    assert_eq!(value.get_value("missing"), None);
    assert_eq!(value.encode(), input);
}

#[test]
fn test_parse_string_binary_bytes() {
    let input: Vec<u8> = vec![b'2', b':', 0xff, 0xfe, b'x'];
    let (s, rest) = parse_string(&input).unwrap();
    assert_eq!(s, BencodeString::Bytes(vec![0xff, 0xfe]));
    assert_eq!(rest, vec![b'x']);
}

#[test]
fn test_parse_int_range_bounds() {
    // The whole i64 range of positive values parses ...
    assert_eq!(
        Ok((i64::MAX, Vec::new())),
        parse_int(&to_byte_vec("i9223372036854775807e"))
    );
    // ... and one past it is rejected rather than wrapped.
    assert_eq!(
        Err(ParseError {
            value: "i9223372036854775808e".to_string(),
            message: "Could not parse Bencode Integer".to_string()
        }),
        parse_int(&to_byte_vec("i9223372036854775808e"))
    );
}

#[test]
fn test_parse_string_tolerates_padded_length() {
    // A zero-padded length is read as its value.
    assert_eq!(
        Ok((BencodeString::String("spam".to_string()), Vec::new())),
        parse_string(&to_byte_vec("04:spam"))
    );
}
