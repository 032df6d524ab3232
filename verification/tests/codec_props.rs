use tide::bencode::{decode, DecodeError, Encodable, Value, MAX_DEPTH};

fn sample_tree() -> Value {
    Value::Dictionary(vec![
        (
            b"a".to_vec(),
            Value::List(vec![
                Value::Integer(0),
                Value::Integer(-7),
                Value::String(vec![]),
                Value::String(vec![0xff, 0x00, 0x61]),
            ]),
        ),
        (b"b".to_vec(), Value::Dictionary(vec![])),
        (
            b"c".to_vec(),
            Value::Dictionary(vec![
                (b"x".to_vec(), Value::Integer(i64::MAX)),
                (b"y".to_vec(), Value::Integer(i64::MIN)),
            ]),
        ),
    ])
}

#[test]
fn round_trip_nested_tree() {
    let v = sample_tree();
    let bytes = v.encode().unwrap();
    assert_eq!(decode(&bytes), Ok((v, vec![])));
}

#[test]
fn round_trip_each_variant() {
    for v in [
        Value::Integer(0),
        Value::Integer(58),
        Value::Integer(-392),
        Value::String(b"hello world".to_vec()),
        Value::String(vec![]),
        Value::List(vec![]),
        Value::Dictionary(vec![]),
    ] {
        let bytes = v.encode().unwrap();
        assert_eq!(decode(&bytes), Ok((v, vec![])));
    }
}

#[test]
fn reencode_reproduces_canonical_input() {
    let inputs: [&[u8]; 5] = [
        b"d3:bar4:spam3:fooi42ee",
        b"li53e3:foo4:annee",
        b"i-392e",
        b"11:hello world",
        b"d1:ald1:bi0eeee",
    ];
    for input in inputs {
        let (v, rest) = decode(input).unwrap();
        assert!(rest.is_empty());
        assert_eq!(v.encode().unwrap(), input.to_vec());
    }
}

#[test]
fn canonical_ingest_ascending_accepted() {
    let m = vec![
        (b"bar".to_vec(), Value::String(b"spam".to_vec())),
        (b"foo".to_vec(), Value::Integer(42)),
    ];
    assert_eq!(
        decode(b"d3:bar4:spam3:fooi42ee"),
        Ok((Value::Dictionary(m), vec![]))
    );
}

#[test]
fn canonical_ingest_descending_rejected() {
    assert_eq!(
        decode(b"d3:fooi42e3:bar4:spame"),
        Err(DecodeError::Malformed)
    );
}

#[test]
fn duplicate_dictionary_key_rejected() {
    assert_eq!(
        decode(b"d3:fooi1e3:fooi2ee"),
        Err(DecodeError::Malformed)
    );
}

#[test]
fn integer_canonicalization() {
    assert_eq!(decode(b"i58e"), Ok((Value::Integer(58), vec![])));
    assert_eq!(decode(b"i-392e"), Ok((Value::Integer(-392), vec![])));
    assert_eq!(decode(b"i0e"), Ok((Value::Integer(0), vec![])));
    assert_eq!(decode(b"i03e"), Err(DecodeError::Malformed));
    assert_eq!(decode(b"i-0e"), Err(DecodeError::Malformed));
    assert_eq!(decode(b"i-03e"), Err(DecodeError::Malformed));
}

#[test]
fn integer_bounds() {
    assert_eq!(
        decode(b"i9223372036854775807e"),
        Ok((Value::Integer(i64::MAX), vec![]))
    );
    assert_eq!(decode(b"i9223372036854775808e"), Err(DecodeError::Malformed));
    assert_eq!(
        decode(b"i-9223372036854775808e"),
        Ok((Value::Integer(i64::MIN), vec![]))
    );
    assert_eq!(
        decode(b"i-9223372036854775809e"),
        Err(DecodeError::Malformed)
    );
    assert_eq!(
        decode(b"i999999999999999999999999999999e"),
        Err(DecodeError::Malformed)
    );
}

#[test]
fn string_exactness() {
    assert_eq!(
        decode(b"11:hello world"),
        Ok((Value::String(b"hello world".to_vec()), vec![]))
    );
    assert_eq!(decode(b"5:foo"), Err(DecodeError::Incomplete));
    assert_eq!(decode(b"0:"), Ok((Value::String(vec![]), vec![])));
    assert_eq!(decode(b"05:abcde"), Err(DecodeError::Malformed));
}

#[test]
fn oversized_declared_length_is_incomplete() {
    // The declared length vastly exceeds the bytes supplied; no allocation
    // of that size may happen and the buffer is merely incomplete.
    assert_eq!(
        decode(b"99999999999999999999:abc"),
        Err(DecodeError::Incomplete)
    );
}

#[test]
fn list_order_preserved() {
    assert_eq!(
        decode(b"li53e3:foo4:annee"),
        Ok((
            Value::List(vec![
                Value::Integer(53),
                Value::String(b"foo".to_vec()),
                Value::String(b"anne".to_vec()),
            ]),
            vec![]
        ))
    );
}

#[test]
fn empty_list_and_dictionary() {
    assert_eq!(decode(b"le"), Ok((Value::List(vec![]), vec![])));
    assert_eq!(decode(b"de"), Ok((Value::Dictionary(vec![]), vec![])));
}

#[test]
fn remainder_returned() {
    assert_eq!(
        decode(b"i5exyz"),
        Ok((Value::Integer(5), b"xyz".to_vec()))
    );
    assert_eq!(
        decode(b"3:abc3:def"),
        Ok((Value::String(b"abc".to_vec()), b"3:def".to_vec()))
    );
}

#[test]
fn incomplete_inputs() {
    for input in [
        &b""[..],
        b"i",
        b"i-",
        b"i42",
        b"4",
        b"42",
        b"4:ab",
        b"l",
        b"li1e",
        b"d",
        b"d3:foo",
        b"d3:fooi1e",
    ] {
        assert_eq!(decode(input), Err(DecodeError::Incomplete));
    }
}

#[test]
fn malformed_inputs() {
    for input in [
        &b"ie"[..],
        b"i-e",
        b"i--1e",
        b"i4x5e",
        b"4x",
        b"xyz",
        b"di1ei2ee",
        b"d3:fooi1e2:abi2ee",
    ] {
        assert_eq!(decode(input), Err(DecodeError::Malformed));
    }
}

#[test]
fn fatal_digit_runs_are_malformed_even_at_end_of_buffer() {
    // The digits already seen are beyond repair: no extension decodes.
    for input in [
        &b"i-0"[..],
        b"i03",
        b"i-03",
        b"05",
        b"i9223372036854775808",
        b"i-9223372036854775809",
    ] {
        assert_eq!(decode(input), Err(DecodeError::Malformed));
    }
    // These runs can still be completed by further bytes.
    for input in [
        &b"i0"[..],
        b"0",
        b"i9223372036854775807",
        b"i-9223372036854775808",
    ] {
        assert_eq!(decode(input), Err(DecodeError::Incomplete));
    }
}

#[test]
fn nesting_depth_bound() {
    let max = MAX_DEPTH as usize;
    let mut fine = vec![108u8; max];
    fine.extend(vec![101u8; max]);
    assert!(decode(&fine).is_ok());

    let mut deep = vec![108u8; max + 1];
    deep.extend(vec![101u8; max + 1]);
    assert_eq!(decode(&deep), Err(DecodeError::Malformed));
}

#[test]
fn encode_integer_bytes() {
    assert_eq!(Value::Integer(-546).encode().unwrap(), b"i-546e".to_vec());
    assert_eq!(Value::Integer(0).encode().unwrap(), b"i0e".to_vec());
    assert_eq!(
        Value::String(b"hello world".to_vec()).encode().unwrap(),
        b"11:hello world".to_vec()
    );
}

#[test]
fn encode_rejects_unsorted_dictionary() {
    let v = Value::Dictionary(vec![
        (b"foo".to_vec(), Value::Integer(1)),
        (b"bar".to_vec(), Value::Integer(2)),
    ]);
    assert!(v.encode().is_err());

    let nested = Value::List(vec![Value::Dictionary(vec![
        (b"b".to_vec(), Value::Integer(1)),
        (b"a".to_vec(), Value::Integer(2)),
    ])]);
    assert!(nested.encode().is_err());

    let dup = Value::Dictionary(vec![
        (b"a".to_vec(), Value::Integer(1)),
        (b"a".to_vec(), Value::Integer(2)),
    ]);
    assert!(dup.encode().is_err());
}

#[test]
fn encode_dictionary_keys_ascending() {
    let v = Value::Dictionary(vec![
        (b"bar".to_vec(), Value::String(b"spam".to_vec())),
        (b"foo".to_vec(), Value::Integer(42)),
    ]);
    assert_eq!(v.encode().unwrap(), b"d3:bar4:spam3:fooi42ee".to_vec());
}
