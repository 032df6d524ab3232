use tide::bencode::{decode, Value};

#[test]
fn bencode_integer_1() {
    assert_eq!(decode(b"i58e"), Ok((Value::Integer(58), vec![])))
}
#[test]
fn bencode_integer_2() {
    assert_eq!(decode(b"i-392e"), Ok((Value::Integer(-392), vec![])))
}
#[test]
#[should_panic]
fn bencode_integer_3() {
    // Leading 0 is not valid, just like -0
    assert_eq!(decode(b"i03e"), Ok((Value::Integer(3), vec![])))
}

// STRING TESTS
#[test]
fn bencode_string_1() {
    assert_eq!(
        decode(b"11:hello world"),
        Ok((Value::String(b"hello world".to_vec()), vec![]))
    )
}
#[test]
#[should_panic]
fn bencode_string_2() {
    assert_eq!(decode(b"5:foo"), Ok((Value::String(b"foo".to_vec()), vec![])))
}

// LIST TESTS
#[test]
fn bencode_list_1() {
    assert_eq!(
        decode(b"li53e3:foo4:annee"),
        Ok((
            Value::List(vec![
                Value::Integer(53),
                Value::String(b"foo".to_vec()),
                Value::String(b"anne".to_vec())
            ]),
            vec![]
        ))
    )
}

// DICTIONARY TESTS
#[test]
fn bencode_dictionary_1() {
    let s = b"d3:bar4:spam3:fooi42ee";
    let m = vec![
        (b"bar".to_vec(), Value::String(b"spam".to_vec())),
        (b"foo".to_vec(), Value::Integer(42)),
    ];

    assert_eq!(decode(s), Ok((Value::Dictionary(m), vec![])))
}
#[test]
#[should_panic]
fn bencode_dictionary_2() {
    // Dictionaries can only have string indices
    let s = b"di2e4:spam3:fooi42ee";
    let m = vec![
        (b"2".to_vec(), Value::String(b"spam".to_vec())),
        (b"foo".to_vec(), Value::Integer(42)),
    ];

    assert_eq!(decode(s), Ok((Value::Dictionary(m), vec![])))
}
#[test]
#[should_panic]
fn bencode_dictionary_3() {
    // We shouldn't allow for non-lexicographically ordered dictionaries to be decoded
    assert_eq!(
        decode(b"d3:bar4:spam3:fooi42ee"),
        decode(b"d3:fooi42e3:bar4:spame")
    )
}
