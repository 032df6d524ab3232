use tide::bencode::{decode, DecodeError, Encodable, Value};

// INTEGER TESTS
#[test]
fn integer_1() {
    assert_eq!(decode(b"i58e"), Ok((Value::Integer(58), vec![])))
}
#[test]
fn integer_2() {
    assert_eq!(decode(b"i-392e"), Ok((Value::Integer(-392), vec![])))
}
#[test]
#[should_panic]
fn integer_3() {
    // Leading 0 is not valid, just like -0
    assert_eq!(decode(b"i03e"), Ok((Value::Integer(3), vec![])))
}

// STRING TESTS
#[test]
fn string_1() {
    assert_eq!(
        decode(b"11:hello world"),
        Ok((Value::String(b"hello world".to_vec()), vec![]))
    )
}
#[test]
#[should_panic]
fn string_2() {
    assert_eq!(decode(b"5:foo"), Ok((Value::String(b"foo".to_vec()), vec![])))
}

// LIST TESTS
#[test]
fn list_1() {
    assert_eq!(
        decode(b"li53e3:foo4:annee"),
        Ok((
            Value::List(vec![
                Value::Integer(53),
                Value::String(b"foo".to_vec()),
                Value::String(b"anne".to_vec())
            ]),
            vec![]
        ))
    )
}

// DICTIONARY TESTS
#[test]
fn dictionary_1() {
    let s = b"d3:bar4:spam3:fooi42ee";
    let m = vec![
        (b"bar".to_vec(), Value::String(b"spam".to_vec())),
        (b"foo".to_vec(), Value::Integer(42)),
    ];

    assert_eq!(decode(s), Ok((Value::Dictionary(m), vec![])))
}
#[test]
#[should_panic]
fn dictionary_2() {
    // Dictionaries can only have string indices
    let s = b"di2e4:spam3:fooi42ee";
    let m = vec![
        (b"2".to_vec(), Value::String(b"spam".to_vec())),
        (b"foo".to_vec(), Value::Integer(42)),
    ];

    assert_eq!(decode(s), Ok((Value::Dictionary(m), vec![])))
}
#[test]
#[should_panic]
fn dictionary_3() {
    // We shouldn't allow for non-lexicographically ordered dictionaries to be decoded
    assert_eq!(
        decode(b"d3:bar4:spam3:fooi42ee"),
        decode(b"d3:fooi42e3:bar4:spame")
    )
}

// ENCODING TESTS
#[test]
fn encode_1() {
    let enc = vec![
        (
            b"baroo".to_vec(),
            Value::List(vec![Value::String(b"nopee".to_vec()), Value::Integer(84954)]),
        ),
        (b"foo".to_vec(), Value::Integer(-546)),
    ];
    let encv = Value::Dictionary(enc);

    let encs = encv.encode().unwrap();
    let dec = decode(encs.as_slice());
    match dec {
        Ok((val, _)) => assert_eq!(val, encv),
        Err(DecodeError::Incomplete) => panic!("Incomplete data!"),
        Err(DecodeError::Malformed) => panic!("Not good!"),
    }
}
