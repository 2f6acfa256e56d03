use resp_codec::{decode, to_bytes, to_string, Error, RespValue, SeqSerializer, Serializer};

#[test]
fn test_enum() -> Result<(), Error> {
    let x = RespValue::Array(Some(vec![
        RespValue::Integer(69),
        RespValue::SimpleString("OK".into()),
    ]));
    let resp_string = to_string(&x)?;
    println!("{:?}", resp_string);
    Ok(())
}

#[test]
fn boolean_encodings() {
    assert_eq!(Serializer::serialize_bool(true), b"#t\r\n".to_vec());
    assert_eq!(Serializer::serialize_bool(false), b"#f\r\n".to_vec());
    assert_eq!(to_string(&RespValue::Boolean(true)).unwrap(), "#t\r\n");
    assert_eq!(to_string(&RespValue::Boolean(false)).unwrap(), "#f\r\n");
}

#[test]
fn integer_encoding() {
    assert_eq!(Serializer::serialize_u64(69), b":69\r\n".to_vec());
    assert_eq!(Serializer::serialize_i64(69), b":69\r\n".to_vec());
    assert_eq!(Serializer::serialize_u8(69), b":69\r\n".to_vec());
    assert_eq!(Serializer::serialize_u16(69), b":69\r\n".to_vec());
    assert_eq!(Serializer::serialize_u32(69), b":69\r\n".to_vec());
    assert_eq!(Serializer::serialize_i8(69), b":69\r\n".to_vec());
    assert_eq!(Serializer::serialize_i16(69), b":69\r\n".to_vec());
    assert_eq!(Serializer::serialize_i32(69), b":69\r\n".to_vec());
    assert_eq!(to_string(&RespValue::Integer(69)).unwrap(), ":69\r\n");
}

#[test]
fn negative_integer_encoding() {
    assert_eq!(Serializer::serialize_i64(-42), b":-42\r\n".to_vec());
    assert_eq!(Serializer::serialize_i32(-1), b":-1\r\n".to_vec());
    assert_eq!(
        Serializer::serialize_i64(i64::MIN),
        b":-9223372036854775808\r\n".to_vec()
    );
    assert_eq!(
        Serializer::serialize_u64(u64::MAX),
        b":18446744073709551615\r\n".to_vec()
    );
}

#[test]
fn simple_string_encoding() {
    assert_eq!(Serializer::serialize_str("OK"), b"+OK\r\n".to_vec());
    assert_eq!(
        to_string(&RespValue::SimpleString("OK".into())).unwrap(),
        "+OK\r\n"
    );
}

#[test]
fn null_encoding() {
    assert_eq!(Serializer::serialize_none(), b"_\r\n".to_vec());
    assert_eq!(Serializer::serialize_unit(), b"_\r\n".to_vec());
    assert_eq!(to_string(&RespValue::Null).unwrap(), "_\r\n");
}

#[test]
fn array_encoding_known_length() {
    let x = RespValue::Array(Some(vec![
        RespValue::Integer(69),
        RespValue::SimpleString("OK".into()),
    ]));
    assert_eq!(to_bytes(&x), b"*2\r\n:69\r\n+OK\r\n".to_vec());
    assert_eq!(to_string(&x).unwrap(), "*2\r\n:69\r\n+OK\r\n");
}

#[test]
fn seq_serializer_buffers_then_prefixes() {
    let mut seq = match Serializer::serialize_seq(Some(2)) {
        Ok(s) => s,
        Err(_) => panic!("known length must be accepted"),
    };
    seq.serialize_element(Serializer::serialize_u64(69));
    seq.serialize_element(Serializer::serialize_str("OK"));
    assert_eq!(seq.end(), b"*2\r\n:69\r\n+OK\r\n".to_vec());
}

#[test]
fn seq_serializer_empty() {
    let seq = match Serializer::serialize_seq(Some(0)) {
        Ok(s) => s,
        Err(_) => panic!("known length must be accepted"),
    };
    assert_eq!(seq.end(), b"*0\r\n".to_vec());
}

#[test]
fn unknown_length_sequence_is_rejected() {
    match Serializer::serialize_seq(None) {
        Ok(_) => panic!("unknown length must be rejected"),
        Err(e) => assert_eq!(
            e,
            Error::Message("RESP does not support sequences of unknown length".to_string())
        ),
    }
}

#[test]
fn unsupported_float_is_message_error() {
    assert_eq!(
        Serializer::serialize_float(),
        Err(Error::Message("RESP does not support float".to_string()))
    );
}

#[test]
fn unsupported_shapes_are_message_errors() {
    assert_eq!(
        Serializer::serialize_char('x'),
        Err(Error::Message("RESP does not support char".to_string()))
    );
    assert_eq!(
        Serializer::serialize_tuple(2),
        Err(Error::Message("RESP does not support tuples".to_string()))
    );
    assert_eq!(
        Serializer::serialize_tuple_struct(2),
        Err(Error::Message("RESP does not support tuple structs".to_string()))
    );
    assert_eq!(
        Serializer::serialize_tuple_variant(2),
        Err(Error::Message("RESP does not support tuple variants".to_string()))
    );
    assert_eq!(
        Serializer::serialize_struct_variant(2),
        Err(Error::Message("RESP does not support struct variants".to_string()))
    );
    assert_eq!(
        Serializer::serialize_map(Some(1)),
        Err(Error::Message("RESP does not support maps".to_string()))
    );
    assert_eq!(
        Serializer::serialize_struct(3),
        Err(Error::Message("RESP does not support structs".to_string()))
    );
}

#[test]
fn bulk_string_encoding() {
    assert_eq!(Serializer::serialize_bytes(b"hi"), b"$2\r\nhi\r\n".to_vec());
    assert_eq!(Serializer::serialize_bytes(b""), b"$0\r\n\r\n".to_vec());
    assert_eq!(
        to_bytes(&RespValue::BulkString(Some(vec![0xff, 0x01]))),
        b"$2\r\n\xff\x01\r\n".to_vec()
    );
    assert_eq!(to_bytes(&RespValue::BulkString(None)), b"$-1\r\n".to_vec());
}

#[test]
fn binary_bulk_is_not_utf8_text() {
    assert_eq!(
        to_string(&RespValue::BulkString(Some(vec![0xff]))),
        Err(Error::Message("RESP encoding is not valid UTF-8".to_string()))
    );
}

#[test]
fn decode_malformed_integer() {
    assert_eq!(decode(b":abc\r\n"), Err(Error::ExpectedInteger));
    assert_eq!(decode(b":\r\n"), Err(Error::ExpectedInteger));
    assert_eq!(decode(b":-\r\n"), Err(Error::ExpectedInteger));
    assert_eq!(decode(b":9223372036854775808\r\n"), Err(Error::ExpectedInteger));
}

#[test]
fn decode_integer_values() {
    assert_eq!(decode(b":69\r\n"), Ok((RespValue::Integer(69), 5)));
    assert_eq!(decode(b":-42\r\n"), Ok((RespValue::Integer(-42), 6)));
    assert_eq!(decode(b":007\r\n"), Ok((RespValue::Integer(7), 6)));
    assert_eq!(decode(b":-0\r\n"), Ok((RespValue::Integer(0), 5)));
    assert_eq!(
        decode(b":-9223372036854775808\r\n"),
        Ok((RespValue::Integer(i64::MIN), 23))
    );
    assert_eq!(
        decode(b":9223372036854775807\r\n"),
        Ok((RespValue::Integer(i64::MAX), 22))
    );
}

#[test]
fn decode_truncated_bulk_string() {
    assert_eq!(decode(b"$5\r\nhi"), Err(Error::Eof));
    assert_eq!(decode(b"$2\r\nhi"), Err(Error::ExpectedCRLF));
    assert_eq!(decode(b"$2\r\nhixy"), Err(Error::ExpectedCRLF));
}

#[test]
fn decode_bulk_strings() {
    assert_eq!(
        decode(b"$2\r\nhi\r\n"),
        Ok((RespValue::BulkString(Some(b"hi".to_vec())), 8))
    );
    assert_eq!(
        decode(b"$0\r\n\r\n"),
        Ok((RespValue::BulkString(Some(Vec::new())), 6))
    );
    assert_eq!(decode(b"$-1\r\n"), Ok((RespValue::BulkString(None), 5)));
    assert_ne!(decode(b"$0\r\n\r\n"), decode(b"$-1\r\n"));
    assert_eq!(decode(b"$x\r\n"), Err(Error::Syntax));
}

#[test]
fn decode_null_array_distinct_from_empty() {
    assert_eq!(decode(b"*-1\r\n"), Ok((RespValue::Array(None), 5)));
    assert_eq!(decode(b"*0\r\n"), Ok((RespValue::Array(Some(Vec::new())), 4)));
    assert_ne!(decode(b"*-1\r\n"), decode(b"*0\r\n"));
}

#[test]
fn decode_arrays() {
    assert_eq!(
        decode(b"*2\r\n:69\r\n+OK\r\n"),
        Ok((
            RespValue::Array(Some(vec![
                RespValue::Integer(69),
                RespValue::SimpleString("OK".into()),
            ])),
            14
        ))
    );
    assert_eq!(
        decode(b"*2\r\n*1\r\n:1\r\n#t\r\n"),
        Ok((
            RespValue::Array(Some(vec![
                RespValue::Array(Some(vec![RespValue::Integer(1)])),
                RespValue::Boolean(true),
            ])),
            16
        ))
    );
    assert_eq!(decode(b"*x\r\n"), Err(Error::ExpectedArray));
    assert_eq!(decode(b"*2\r\n:1\r\n"), Err(Error::Eof));
}

#[test]
fn decode_simple_strings_and_errors() {
    assert_eq!(
        decode(b"+OK\r\n"),
        Ok((RespValue::SimpleString("OK".into()), 5))
    );
    assert_eq!(decode(b"+\r\n"), Ok((RespValue::SimpleString("".into()), 3)));
    assert_eq!(
        decode(b"-ERR oops\r\n"),
        Ok((RespValue::ErrorLine("ERR oops".into()), 11))
    );
    assert_eq!(decode(b"+abc"), Err(Error::ExpectedSimpleString));
    assert_eq!(decode(b"+\xff\r\n"), Err(Error::Syntax));
}

#[test]
fn decode_booleans_and_null() {
    assert_eq!(decode(b"#t\r\n"), Ok((RespValue::Boolean(true), 4)));
    assert_eq!(decode(b"#f\r\n"), Ok((RespValue::Boolean(false), 4)));
    assert_eq!(decode(b"#x\r\n"), Err(Error::Syntax));
    assert_eq!(decode(b"#t"), Err(Error::Eof));
    assert_eq!(decode(b"_\r\n"), Ok((RespValue::Null, 3)));
    assert_eq!(decode(b"_x\r\n"), Err(Error::ExpectedCRLF));
}

#[test]
fn decode_edges() {
    assert_eq!(decode(b""), Err(Error::Eof));
    assert_eq!(decode(b"?\r\n"), Err(Error::Syntax));
    assert_eq!(decode(b":12"), Err(Error::ExpectedCRLF));
    assert_eq!(decode(b":1\r\nextra"), Ok((RespValue::Integer(1), 4)));
}

#[test]
fn integer_round_trips() {
    for v in [0i64, 1, -1, 69, i64::MIN, i64::MAX] {
        let enc = Serializer::serialize_i64(v);
        let n = enc.len();
        assert_eq!(decode(&enc), Ok((RespValue::Integer(v), n)));
    }
    let enc = Serializer::serialize_u64(u64::MAX);
    assert_eq!(decode(&enc), Err(Error::ExpectedInteger));
}

#[test]
fn value_round_trips() {
    let values = vec![
        RespValue::SimpleString("PONG".into()),
        RespValue::ErrorLine("ERR unknown".into()),
        RespValue::Integer(-7),
        RespValue::Boolean(false),
        RespValue::Null,
        RespValue::BulkString(Some(vec![0, 1, 2, 13, 10])),
        RespValue::BulkString(None),
        RespValue::Array(None),
        RespValue::Array(Some(vec![
            RespValue::Integer(1),
            RespValue::Array(Some(vec![RespValue::Null])),
        ])),
    ];
    for v in values {
        let enc = to_bytes(&v);
        let n = enc.len();
        assert_eq!(decode(&enc), Ok((v, n)));
    }
}

#[test]
fn well_formedness_checks_framing_bytes() {
    assert!(RespValue::SimpleString("OK".into()).is_wf());
    assert!(!RespValue::SimpleString("a\r\nb".into()).is_wf());
    assert!(!RespValue::ErrorLine("a\nb".into()).is_wf());
    assert!(!RespValue::Array(Some(vec![RespValue::SimpleString("\r".into())])).is_wf());
    assert!(RespValue::BulkString(Some(b"a\r\nb".to_vec())).is_wf());
}

#[test]
fn error_message_texts() {
    assert_eq!(Error::Eof.message_text(), "unexpected end of input");
    assert_eq!(Error::Syntax.message_text(), "syntax does not follow RESP");
    assert_eq!(Error::ExpectedCRLF.message_text(), "expected CRLF terminator");
    assert_eq!(
        Error::ExpectedArray.message_text(),
        "invalid content expected an array"
    );
    assert_eq!(
        Error::ExpectedInteger.message_text(),
        "invalid content expected an integer"
    );
    assert_eq!(
        Error::ExpectedSimpleString.message_text(),
        "invalid content expected simple strings"
    );
    assert_eq!(Error::Message("boom".to_string()).message_text(), "boom");
}

#[test]
fn unit_variant_encodes_as_name() {
    assert_eq!(Serializer::serialize_unit_variant("Ping"), b"+Ping\r\n".to_vec());
}
