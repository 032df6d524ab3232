use tide::bencode::{Encodable, Value};
use tide::meta::{add_file_to_list, create_file_list, infohash, split_pieces, torrent, MetaError};

fn doc_with_info(info: Vec<(Vec<u8>, Value)>) -> Value {
    Value::Dictionary(vec![
        (
            b"announce".to_vec(),
            Value::String(b"udp://tracker.example:80".to_vec()),
        ),
        (b"info".to_vec(), Value::Dictionary(info)),
    ])
}

fn single_file_info() -> Vec<(Vec<u8>, Value)> {
    vec![
        (b"length".to_vec(), Value::Integer(20)),
        (b"name".to_vec(), Value::String(b"sample.txt".to_vec())),
        (b"piece length".to_vec(), Value::Integer(65536)),
        (b"pieces".to_vec(), Value::String(vec![7u8; 20])),
    ]
}

#[test]
fn infohash_1() {
    assert_eq!(
        infohash(),
        "2aae6c35c94fcfb415dbe95f408b9ce91ee846ed".to_owned()
    );
}

#[test]
fn end_to_end_single_file() {
    let doc = doc_with_info(single_file_info());
    let bytes = doc.encode().unwrap();
    let torr = torrent::load_from_bytes(&bytes).unwrap();
    assert_eq!("sample.txt".to_owned(), torr.name);
    assert_eq!("udp://tracker.example:80".to_owned(), torr.announce);
    assert_eq!(65536, torr.piece_length);
    assert_eq!(1, torr.pieces.len());
    assert_eq!(vec![7u8; 20], torr.pieces[0]);
    assert_eq!(
        vec![tide::meta::file {
            length: 20,
            path: vec!["sample.txt".to_owned()]
        }],
        torr.files
    );
}

#[test]
fn load_direct_equals_load_from_bytes() {
    let doc = doc_with_info(single_file_info());
    let bytes = doc.encode().unwrap();
    assert_eq!(torrent::load(&doc), torrent::load_from_bytes(&bytes));
}

#[test]
fn multi_file_entries_in_order() {
    let files = Value::List(vec![
        Value::Dictionary(vec![
            (b"length".to_vec(), Value::Integer(3)),
            (
                b"path".to_vec(),
                Value::List(vec![
                    Value::String(b"dir".to_vec()),
                    Value::String(b"a.txt".to_vec()),
                ]),
            ),
        ]),
        Value::Dictionary(vec![
            (b"length".to_vec(), Value::Integer(9)),
            (b"path".to_vec(), Value::List(vec![Value::String(b"b.txt".to_vec())])),
        ]),
    ]);
    let info = vec![
        (b"files".to_vec(), files),
        (b"name".to_vec(), Value::String(b"pack".to_vec())),
        (b"piece length".to_vec(), Value::Integer(16384)),
        (b"pieces".to_vec(), Value::String(vec![1u8; 40])),
    ];
    let torr = torrent::load(&doc_with_info(info)).unwrap();
    assert_eq!(2, torr.pieces.len());
    assert_eq!(
        vec![
            tide::meta::file {
                length: 3,
                path: vec!["dir".to_owned(), "a.txt".to_owned()]
            },
            tide::meta::file {
                length: 9,
                path: vec!["b.txt".to_owned()]
            },
        ],
        torr.files
    );
}

#[test]
fn has_len_and_files_rejected() {
    let mut info = vec![(
        b"files".to_vec(),
        Value::List(vec![]),
    )];
    info.extend(single_file_info());
    assert_eq!(
        torrent::load(&doc_with_info(info)),
        Err(MetaError::HasLenAndFiles)
    );
}

#[test]
fn has_no_len_no_files_rejected() {
    let info = vec![
        (b"name".to_vec(), Value::String(b"sample.txt".to_vec())),
        (b"piece length".to_vec(), Value::Integer(65536)),
        (b"pieces".to_vec(), Value::String(vec![7u8; 20])),
    ];
    assert_eq!(
        torrent::load(&doc_with_info(info)),
        Err(MetaError::HasNoLenNoFiles)
    );
}

#[test]
fn pieces_not_mul20_rejected() {
    let info = vec![
        (b"length".to_vec(), Value::Integer(20)),
        (b"name".to_vec(), Value::String(b"sample.txt".to_vec())),
        (b"piece length".to_vec(), Value::Integer(65536)),
        (b"pieces".to_vec(), Value::String(vec![7u8; 30])),
    ];
    assert_eq!(
        torrent::load(&doc_with_info(info)),
        Err(MetaError::PiecesNotMul20)
    );
}

#[test]
fn split_pieces_exact_chunks() {
    let raw: Vec<u8> = (0u8..40).collect();
    let mut out: Vec<Vec<u8>> = Vec::new();
    assert_eq!(Ok(()), split_pieces(&raw, &mut out));
    assert_eq!(2, out.len());
    assert_eq!((0u8..20).collect::<Vec<u8>>(), out[0]);
    assert_eq!((20u8..40).collect::<Vec<u8>>(), out[1]);
}

#[test]
fn split_pieces_rejects_ragged_length() {
    let raw = vec![0u8; 30];
    let mut out: Vec<Vec<u8>> = Vec::new();
    assert_eq!(Err(MetaError::PiecesNotMul20), split_pieces(&raw, &mut out));
    assert!(out.is_empty());
}

#[test]
fn top_level_not_a_dict() {
    assert_eq!(torrent::load(&Value::Integer(5)), Err(MetaError::NotADict));
}

#[test]
fn missing_announce() {
    let doc = Value::Dictionary(vec![(
        b"info".to_vec(),
        Value::Dictionary(single_file_info()),
    )]);
    assert_eq!(torrent::load(&doc), Err(MetaError::NoAnnounce));
}

#[test]
fn announce_not_a_string() {
    let doc = Value::Dictionary(vec![
        (b"announce".to_vec(), Value::Integer(1)),
        (b"info".to_vec(), Value::Dictionary(single_file_info())),
    ]);
    assert_eq!(torrent::load(&doc), Err(MetaError::NotAString));
}

#[test]
fn announce_invalid_utf8() {
    let doc = Value::Dictionary(vec![
        (b"announce".to_vec(), Value::String(vec![0xff, 0xfe])),
        (b"info".to_vec(), Value::Dictionary(single_file_info())),
    ]);
    assert_eq!(torrent::load(&doc), Err(MetaError::InvalidUtf8));
}

#[test]
fn missing_info() {
    let doc = Value::Dictionary(vec![(
        b"announce".to_vec(),
        Value::String(b"udp://tracker.example:80".to_vec()),
    )]);
    assert_eq!(torrent::load(&doc), Err(MetaError::NoInfo));
}

#[test]
fn info_not_a_dict() {
    let doc = Value::Dictionary(vec![
        (
            b"announce".to_vec(),
            Value::String(b"udp://tracker.example:80".to_vec()),
        ),
        (b"info".to_vec(), Value::Integer(3)),
    ]);
    assert_eq!(torrent::load(&doc), Err(MetaError::NotADict));
}

#[test]
fn missing_name() {
    let info = vec![
        (b"length".to_vec(), Value::Integer(20)),
        (b"piece length".to_vec(), Value::Integer(65536)),
        (b"pieces".to_vec(), Value::String(vec![7u8; 20])),
    ];
    assert_eq!(torrent::load(&doc_with_info(info)), Err(MetaError::NoName));
}

#[test]
fn name_invalid_utf8() {
    let info = vec![
        (b"length".to_vec(), Value::Integer(20)),
        (b"name".to_vec(), Value::String(vec![0xc0, 0x20])),
        (b"piece length".to_vec(), Value::Integer(65536)),
        (b"pieces".to_vec(), Value::String(vec![7u8; 20])),
    ];
    assert_eq!(
        torrent::load(&doc_with_info(info)),
        Err(MetaError::InvalidUtf8)
    );
}

#[test]
fn name_multibyte_utf8() {
    let info = vec![
        (b"length".to_vec(), Value::Integer(20)),
        (
            b"name".to_vec(),
            Value::String("h\u{e9}llo".as_bytes().to_vec()),
        ),
        (b"piece length".to_vec(), Value::Integer(65536)),
        (b"pieces".to_vec(), Value::String(vec![7u8; 20])),
    ];
    let torr = torrent::load(&doc_with_info(info)).unwrap();
    assert_eq!("h\u{e9}llo".to_owned(), torr.name);
}

#[test]
fn missing_piece_length() {
    let info = vec![
        (b"length".to_vec(), Value::Integer(20)),
        (b"name".to_vec(), Value::String(b"sample.txt".to_vec())),
        (b"pieces".to_vec(), Value::String(vec![7u8; 20])),
    ];
    assert_eq!(
        torrent::load(&doc_with_info(info)),
        Err(MetaError::NoPieceLen)
    );
}

#[test]
fn piece_length_not_an_int() {
    let info = vec![
        (b"length".to_vec(), Value::Integer(20)),
        (b"name".to_vec(), Value::String(b"sample.txt".to_vec())),
        (b"piece length".to_vec(), Value::String(b"big".to_vec())),
        (b"pieces".to_vec(), Value::String(vec![7u8; 20])),
    ];
    assert_eq!(
        torrent::load(&doc_with_info(info)),
        Err(MetaError::NotAnInt)
    );
}

#[test]
fn non_positive_piece_length_rejected() {
    for plen in [0i64, -4096] {
        let info = vec![
            (b"length".to_vec(), Value::Integer(20)),
            (b"name".to_vec(), Value::String(b"sample.txt".to_vec())),
            (b"piece length".to_vec(), Value::Integer(plen)),
            (b"pieces".to_vec(), Value::String(vec![7u8; 20])),
        ];
        assert_eq!(
            torrent::load(&doc_with_info(info)),
            Err(MetaError::NotAnInt)
        );
    }
}

#[test]
fn negative_single_file_length_rejected() {
    let info = vec![
        (b"length".to_vec(), Value::Integer(-1)),
        (b"name".to_vec(), Value::String(b"sample.txt".to_vec())),
        (b"piece length".to_vec(), Value::Integer(65536)),
        (b"pieces".to_vec(), Value::String(vec![7u8; 20])),
    ];
    assert_eq!(
        torrent::load(&doc_with_info(info)),
        Err(MetaError::NotAnInt)
    );
}

#[test]
fn negative_file_entry_length_rejected() {
    let d = vec![
        (b"length".to_vec(), Value::Integer(-1)),
        (
            b"path".to_vec(),
            Value::List(vec![Value::String(b"a".to_vec())]),
        ),
    ];
    let mut to: Vec<tide::meta::file> = Vec::new();
    assert_eq!(Err(MetaError::NotAnInt), add_file_to_list(&d, &mut to));
    assert!(to.is_empty());
}

#[test]
fn missing_pieces() {
    let info = vec![
        (b"length".to_vec(), Value::Integer(20)),
        (b"name".to_vec(), Value::String(b"sample.txt".to_vec())),
        (b"piece length".to_vec(), Value::Integer(65536)),
    ];
    assert_eq!(torrent::load(&doc_with_info(info)), Err(MetaError::NoPieces));
}

#[test]
fn pieces_not_a_string() {
    let info = vec![
        (b"length".to_vec(), Value::Integer(20)),
        (b"name".to_vec(), Value::String(b"sample.txt".to_vec())),
        (b"piece length".to_vec(), Value::Integer(65536)),
        (b"pieces".to_vec(), Value::Integer(0)),
    ];
    assert_eq!(
        torrent::load(&doc_with_info(info)),
        Err(MetaError::NotAString)
    );
}

#[test]
fn files_not_a_list() {
    let info = vec![
        (b"files".to_vec(), Value::Integer(1)),
        (b"name".to_vec(), Value::String(b"pack".to_vec())),
        (b"piece length".to_vec(), Value::Integer(16384)),
        (b"pieces".to_vec(), Value::String(vec![1u8; 20])),
    ];
    assert_eq!(torrent::load(&doc_with_info(info)), Err(MetaError::NotAList));
}

#[test]
fn file_list_not_dicts() {
    let info = vec![
        (b"files".to_vec(), Value::List(vec![Value::Integer(1)])),
        (b"name".to_vec(), Value::String(b"pack".to_vec())),
        (b"piece length".to_vec(), Value::Integer(16384)),
        (b"pieces".to_vec(), Value::String(vec![1u8; 20])),
    ];
    assert_eq!(
        torrent::load(&doc_with_info(info)),
        Err(MetaError::FileListNotDicts)
    );
}

#[test]
fn file_entry_missing_length() {
    let entry = Value::Dictionary(vec![(
        b"path".to_vec(),
        Value::List(vec![Value::String(b"a".to_vec())]),
    )]);
    let mut to: Vec<tide::meta::file> = Vec::new();
    match entry {
        Value::Dictionary(d) => {
            assert_eq!(Err(MetaError::FileListNoLen), add_file_to_list(&d, &mut to));
        }
        _ => unreachable!(),
    }
    assert!(to.is_empty());
}

#[test]
fn file_entry_missing_path() {
    let d = vec![(b"length".to_vec(), Value::Integer(1))];
    let mut to: Vec<tide::meta::file> = Vec::new();
    assert_eq!(Err(MetaError::FileListNoPath), add_file_to_list(&d, &mut to));
    assert!(to.is_empty());
}

#[test]
fn file_entry_path_not_a_list() {
    let d = vec![
        (b"length".to_vec(), Value::Integer(1)),
        (b"path".to_vec(), Value::String(b"a".to_vec())),
    ];
    let mut to: Vec<tide::meta::file> = Vec::new();
    assert_eq!(Err(MetaError::NotAList), add_file_to_list(&d, &mut to));
    assert!(to.is_empty());
}

#[test]
fn file_entry_path_component_not_a_string() {
    let d = vec![
        (b"length".to_vec(), Value::Integer(1)),
        (b"path".to_vec(), Value::List(vec![Value::Integer(2)])),
    ];
    let mut to: Vec<tide::meta::file> = Vec::new();
    assert_eq!(Err(MetaError::NotAString), add_file_to_list(&d, &mut to));
    assert!(to.is_empty());
}

#[test]
fn file_entry_length_not_an_int() {
    let d = vec![
        (b"length".to_vec(), Value::String(b"1".to_vec())),
        (
            b"path".to_vec(),
            Value::List(vec![Value::String(b"a".to_vec())]),
        ),
    ];
    let mut to: Vec<tide::meta::file> = Vec::new();
    assert_eq!(Err(MetaError::NotAnInt), add_file_to_list(&d, &mut to));
    assert!(to.is_empty());
}

#[test]
fn create_file_list_untouched_on_error() {
    let list = vec![
        Value::Dictionary(vec![
            (b"length".to_vec(), Value::Integer(1)),
            (
                b"path".to_vec(),
                Value::List(vec![Value::String(b"ok".to_vec())]),
            ),
        ]),
        Value::Integer(9),
    ];
    let mut to: Vec<tide::meta::file> = Vec::new();
    assert_eq!(
        Err(MetaError::FileListNotDicts),
        create_file_list(&list, &mut to)
    );
    assert!(to.is_empty());
}

#[test]
fn load_from_bytes_incomplete() {
    assert_eq!(
        torrent::load_from_bytes(b"d"),
        Err(MetaError::FileDecodeIncomplete)
    );
}

#[test]
fn load_from_bytes_malformed() {
    assert_eq!(
        torrent::load_from_bytes(b"xyz"),
        Err(MetaError::FileDecodeError)
    );
}
