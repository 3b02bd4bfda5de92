use rustorrent::bencode::{
    encode, parse, parse_value, parse_value_with_depth, validate_structure,
    validate_structure_with_depth, Error, Value, MAX_DEPTH, MAX_VALUES,
};

#[test]
fn roundtrip_dict() {
    let value = Value::Dict(vec![
        (b"bar".to_vec(), Value::Int(42)),
        (
            b"foo".to_vec(),
            Value::List(vec![Value::Bytes(b"hi".to_vec())]),
        ),
    ]);
    let encoded = encode(&value);
    let decoded = parse(&encoded).unwrap();
    assert_eq!(decoded, value);
}

#[test]
fn rejects_negative_zero() {
    assert!(parse(b"i-0e").is_err());
}

#[test]
fn rejects_trailing_data() {
    assert!(matches!(parse(b"i1ee"), Err(Error::TrailingData)));
}

#[test]
fn rejects_invalid_dict_key_type() {
    assert!(matches!(parse(b"di1e1:ae"), Err(Error::InvalidDictKey)));
}

#[test]
fn rejects_invalid_lengths_and_integers() {
    assert!(matches!(parse(b"03:abc"), Err(Error::InvalidLen)));
    assert!(matches!(parse(b"i01e"), Err(Error::InvalidInt)));
    assert!(matches!(parse(b"ie"), Err(Error::InvalidInt)));
    assert!(matches!(parse(b"i+1e"), Err(Error::InvalidInt)));

    let overflowing_end = format!("{}:x", usize::MAX);
    assert!(matches!(
        parse(overflowing_end.as_bytes()),
        Err(Error::InvalidLen)
    ));
}

#[test]
fn rejects_noncanonical_dictionary_order_and_duplicates() {
    assert!(matches!(
        parse(b"d1:bi1e1:ai2ee"),
        Err(Error::InvalidDictOrder)
    ));
    assert!(matches!(
        parse(b"d1:ai1e1:ai2ee"),
        Err(Error::InvalidDictOrder)
    ));
}

#[test]
fn rejects_excessive_nesting_without_overflowing_the_stack() {
    let mut data = vec![b'l'; MAX_DEPTH + 2];
    data.extend(std::iter::repeat_n(b'e', MAX_DEPTH + 2));
    assert!(matches!(parse(&data), Err(Error::DepthLimitExceeded)));
}

#[test]
fn rejects_structures_that_exceed_the_value_budget() {
    let mut remaining = 2;
    assert!(matches!(
        parse_value_with_depth(b"li0ei1ee", 0, 0, &mut remaining),
        Err(Error::ValueLimitExceeded)
    ));
}

#[test]
fn structure_validator_matches_decoder_value_accounting() {
    let one_pair = Value::Dict(vec![(b"key".to_vec(), Value::Int(0))]);
    let mut validator_remaining = 2;
    assert!(matches!(
        validate_structure_with_depth(&one_pair, 0, &mut validator_remaining),
        Err(Error::ValueLimitExceeded)
    ));
    let mut decoder_remaining = 2;
    assert!(matches!(
        parse_value_with_depth(b"d3:keyi0ee", 0, 0, &mut decoder_remaining),
        Err(Error::ValueLimitExceeded)
    ));

    let at_limit = Value::List(vec![Value::Int(0); MAX_VALUES - 1]);
    validate_structure(&at_limit).unwrap();
    assert!(parse(&encode(&at_limit)).is_ok());

    let over_limit = Value::List(vec![Value::Int(0); MAX_VALUES]);
    assert!(matches!(
        validate_structure(&over_limit),
        Err(Error::ValueLimitExceeded)
    ));
    assert!(matches!(
        parse(&encode(&over_limit)),
        Err(Error::ValueLimitExceeded)
    ));

    let mut too_deep = Value::Int(0);
    for _ in 0..=MAX_DEPTH {
        too_deep = Value::List(vec![too_deep]);
    }
    assert!(matches!(
        validate_structure(&too_deep),
        Err(Error::DepthLimitExceeded)
    ));
    assert!(matches!(
        parse(&encode(&too_deep)),
        Err(Error::DepthLimitExceeded)
    ));
}

#[test]
fn parse_value_reports_next_offset() {
    let data = b"4:spami42e";
    let (first, pos) = parse_value(data, 0).unwrap();
    assert_eq!(first, Value::Bytes(b"spam".to_vec()));
    let (second, end) = parse_value(data, pos).unwrap();
    assert_eq!(second, Value::Int(42));
    assert_eq!(end, data.len());
}

#[test]
fn parse_integer() {
    let value = parse(b"i42e").unwrap();
    assert_eq!(value, Value::Int(42));
}

#[test]
fn parse_bytes() {
    let value = parse(b"4:spam").unwrap();
    assert_eq!(value, Value::Bytes(b"spam".to_vec()));
}

#[test]
fn parse_list_and_dict() {
    let value = parse(b"l4:spam4:eggse").unwrap();
    assert_eq!(
        value,
        Value::List(vec![
            Value::Bytes(b"spam".to_vec()),
            Value::Bytes(b"eggs".to_vec())
        ])
    );

    let value = parse(b"d3:cow3:moo4:spam4:eggse").unwrap();
    assert_eq!(
        value,
        Value::Dict(vec![
            (b"cow".to_vec(), Value::Bytes(b"moo".to_vec())),
            (b"spam".to_vec(), Value::Bytes(b"eggs".to_vec()))
        ])
    );
}

#[test]
fn integer_extremes_roundtrip() {
    for (n, text) in [
        (i64::MIN, "i-9223372036854775808e"),
        (i64::MAX, "i9223372036854775807e"),
        (0, "i0e"),
        (-7, "i-7e"),
    ] {
        assert_eq!(encode(&Value::Int(n)), text.as_bytes());
        assert_eq!(parse(text.as_bytes()), Ok(Value::Int(n)));
    }
    assert_eq!(parse(b"i9223372036854775808e"), Err(Error::InvalidInt));
    assert_eq!(parse(b"i-9223372036854775809e"), Err(Error::InvalidInt));
}

#[test]
fn encoder_sorts_unsorted_dictionary_keys_stably() {
    let value = Value::Dict(vec![
        (b"b".to_vec(), Value::Int(1)),
        (b"a".to_vec(), Value::Int(2)),
        (b"b".to_vec(), Value::Int(3)),
    ]);
    assert_eq!(encode(&value), b"d1:ai2e1:bi1e1:bi3ee".to_vec());
}

#[test]
fn decoded_inputs_reencode_to_the_same_bytes() {
    for input in [
        b"d3:cow3:moo4:spam4:eggse".as_slice(),
        b"li-3e0:d1:ale1:bdeee".as_slice(),
        b"i0e".as_slice(),
    ] {
        let value = parse(input).unwrap();
        assert_eq!(encode(&value), input.to_vec());
    }
}

#[test]
fn error_positions_and_prefixes() {
    assert_eq!(parse(b""), Err(Error::UnexpectedEof));
    assert_eq!(parse(b"x"), Err(Error::InvalidPrefix(b'x')));
    assert_eq!(parse(b"5:abc"), Err(Error::UnexpectedEof));
    assert_eq!(parse(b"l"), Err(Error::UnexpectedEof));
    assert_eq!(parse(b"i12"), Err(Error::UnexpectedEof));
}
