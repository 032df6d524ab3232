//! The metadata mapper: a validating transform from a decoded generic
//! dictionary into a strongly typed download descriptor, with one error
//! kind per missing or mistyped field.
//!
//! The mapper is fail-fast: the first violation aborts the whole operation
//! and is returned to the caller; no partial descriptor is ever built.

use vstd::prelude::*;
use vstd::string::StringSliceAdditionalSpecFns;
use vstd::utf8::{decode_utf8, valid_utf8};

use crate::bencode::{
    decode, pairs_view, seq_view, spec_decode, DecodeError, SpecValue, Value,
};

verus! {

/// One constituent file of the described content.
#[allow(non_camel_case_types)]
#[derive(PartialEq, Debug)]
pub struct file {
    /// Length of the file in bytes; never negative in a descriptor the
    /// mapper built.
    pub length: i64,
    /// Subdirectory names plus the file name.
    pub path: Vec<String>,
}

/// The mathematical model of a [`file`].
pub struct SpecFile {
    pub length: int,
    pub path: Seq<Seq<char>>,
}

impl View for file {
    type V = SpecFile;

    open spec fn view(&self) -> SpecFile {
        SpecFile { length: self.length as int, path: self.path.deep_view() }
    }
}

/// The abstraction of a sequence of exec file entries.
pub open spec fn files_view(l: Seq<file>) -> Seq<SpecFile> {
    Seq::new(l.len(), |i: int| l[i]@)
}

/// The typed, validated descriptor built from a decoded metadata document.
#[allow(non_camel_case_types)]
#[derive(PartialEq, Debug)]
pub struct torrent {
    /// Tracker url.
    pub announce: String,
    /// Display name: a file (single-file mode) or a directory (multi-file).
    pub name: String,
    /// Chunk size in bytes used to slice the content; strictly positive in
    /// a descriptor the mapper built.
    pub piece_length: i64,
    /// One 20-byte checksum per content chunk, in content order.
    pub pieces: Vec<Vec<u8>>,
    /// The files in the torrent.
    pub files: Vec<file>,
}

/// The mathematical model of a [`torrent`].
pub struct SpecTorrent {
    pub announce: Seq<char>,
    pub name: Seq<char>,
    pub piece_length: int,
    pub pieces: Seq<Seq<u8>>,
    pub files: Seq<SpecFile>,
}

impl View for torrent {
    type V = SpecTorrent;

    open spec fn view(&self) -> SpecTorrent {
        SpecTorrent {
            announce: self.announce@,
            name: self.name@,
            piece_length: self.piece_length as int,
            pieces: self.pieces.deep_view(),
            files: files_view(self.files@),
        }
    }
}

/// Everything that can go wrong between a byte buffer and a [`torrent`]:
/// I/O failures as translated at the boundary, decode failures, and one
/// variant per missing or mistyped metadata field.
#[derive(PartialEq, Eq, Clone, Copy, Debug)]
pub enum MetaError {
    FileNotFound,
    FileInvalid,
    FilePermissionDenied,
    FileInterrupted,
    FileUnexpectedEof,
    FileDecodeIncomplete,
    FileDecodeError,
    FileDecodeIsNotADict,
    NoAnnounce,
    NoInfo,
    NoName,
    NoPieceLen,
    NoPieces,
    PiecesNotMul20,
    HasLenAndFiles,
    HasNoLenNoFiles,
    FileListNotDicts,
    FileListNoLen,
    FileListNoPath,
    NotAString,
    NotADict,
    NotAnInt,
    NotAList,
    InvalidUtf8,
    Other,
}

// The dictionary keys of the metadata document.
pub open spec fn key_announce() -> Seq<u8> {
    "announce".spec_bytes()
}

pub open spec fn key_info() -> Seq<u8> {
    "info".spec_bytes()
}

pub open spec fn key_name() -> Seq<u8> {
    "name".spec_bytes()
}

pub open spec fn key_piece_length() -> Seq<u8> {
    "piece length".spec_bytes()
}

pub open spec fn key_pieces() -> Seq<u8> {
    "pieces".spec_bytes()
}

pub open spec fn key_length() -> Seq<u8> {
    "length".spec_bytes()
}

pub open spec fn key_files() -> Seq<u8> {
    "files".spec_bytes()
}

pub open spec fn key_path() -> Seq<u8> {
    "path".spec_bytes()
}

/// Look a key up in a dictionary body: the value of the first pair whose
/// key matches (a canonical dictionary has at most one).
pub open spec fn dict_get(d: Seq<(Seq<u8>, SpecValue)>, key: Seq<u8>) -> Option<SpecValue>
    decreases d.len(),
{
    if d.len() == 0 {
        Option::None
    } else if d[0].0 == key {
        Option::Some(d[0].1)
    } else {
        dict_get(d.drop_first(), key)
    }
}

/// The `pieces` byte string split into its 20-byte checksums, in order.
pub open spec fn chunks20(s: Seq<u8>) -> Seq<Seq<u8>> {
    Seq::new(s.len() / 20, |i: int| s.subrange(20 * i, 20 * i + 20))
}

/// The path components of a multi-file entry: every element must be a byte
/// string holding valid UTF-8.
pub open spec fn spec_path_strings(l: Seq<SpecValue>) -> Result<Seq<Seq<char>>, MetaError>
    decreases l.len(),
{
    if l.len() == 0 {
        Ok(Seq::empty())
    } else {
        match l[0] {
            SpecValue::Str(b) => if !valid_utf8(b) {
                Err(MetaError::InvalidUtf8)
            } else {
                match spec_path_strings(l.drop_first()) {
                    Ok(rest) => Ok(seq![decode_utf8(b)] + rest),
                    Err(e) => Err(e),
                }
            },
            _ => Err(MetaError::NotAString),
        }
    }
}

/// One entry of the `files` list: a dictionary with an integer `length`
/// and a `path` list of UTF-8 byte strings. A file length must be at least
/// zero; a negative one is reported as `NotAnInt` (the error taxonomy
/// names no separate kind for an out-of-range integer).
pub open spec fn spec_file_entry(d: Seq<(Seq<u8>, SpecValue)>) -> Result<SpecFile, MetaError> {
    match dict_get(d, key_length()) {
        Option::None => Err(MetaError::FileListNoLen),
        Option::Some(lv) => match lv {
            SpecValue::Int(n) => if n < 0 {
                Err(MetaError::NotAnInt)
            } else {
                match dict_get(d, key_path()) {
                    Option::None => Err(MetaError::FileListNoPath),
                    Option::Some(pv) => match pv {
                        SpecValue::List(l) => match spec_path_strings(l) {
                            Ok(path) => Ok(SpecFile { length: n, path }),
                            Err(e) => Err(e),
                        },
                        _ => Err(MetaError::NotAList),
                    },
                }
            },
            _ => Err(MetaError::NotAnInt),
        },
    }
}

/// The `files` list mapped entry by entry, stopping at the first failure.
pub open spec fn spec_load_files(l: Seq<SpecValue>) -> Result<Seq<SpecFile>, MetaError>
    decreases l.len(),
{
    if l.len() == 0 {
        Ok(Seq::empty())
    } else {
        match l[0] {
            SpecValue::Dict(d) => match spec_file_entry(d) {
                Ok(f) => match spec_load_files(l.drop_first()) {
                    Ok(fs) => Ok(seq![f] + fs),
                    Err(e) => Err(e),
                },
                Err(e) => Err(e),
            },
            _ => Err(MetaError::FileListNotDicts),
        }
    }
}

/// The file mode step: exactly one of `length` (single-file) or `files`
/// (multi-file) must be present in the info dictionary. A single-file
/// `length` must be at least zero; a negative one is reported as
/// `NotAnInt`, as in [`spec_file_entry`].
pub open spec fn spec_load_mode(
    info: Seq<(Seq<u8>, SpecValue)>,
    announce: Seq<char>,
    name: Seq<char>,
    piece_length: int,
    pieces: Seq<Seq<u8>>,
) -> Result<SpecTorrent, MetaError> {
    match dict_get(info, key_length()) {
        Option::Some(lv) => if dict_get(info, key_files()) is Some {
            Err(MetaError::HasLenAndFiles)
        } else {
            match lv {
                SpecValue::Int(n) => if n < 0 {
                    Err(MetaError::NotAnInt)
                } else {
                    Ok(
                        SpecTorrent {
                            announce,
                            name,
                            piece_length,
                            pieces,
                            files: seq![SpecFile { length: n, path: seq![name] }],
                        },
                    )
                },
                _ => Err(MetaError::NotAnInt),
            }
        },
        Option::None => match dict_get(info, key_files()) {
            Option::None => Err(MetaError::HasNoLenNoFiles),
            Option::Some(fv) => match fv {
                SpecValue::List(fl) => match spec_load_files(fl) {
                    Ok(fs) => Ok(
                        SpecTorrent { announce, name, piece_length, pieces, files: fs },
                    ),
                    Err(e) => Err(e),
                },
                _ => Err(MetaError::NotAList),
            },
        },
    }
}

/// The `pieces` step: a byte string whose length is a multiple of 20,
/// split into 20-byte checksums in input order.
pub open spec fn spec_load_pieces(
    info: Seq<(Seq<u8>, SpecValue)>,
    announce: Seq<char>,
    name: Seq<char>,
    piece_length: int,
) -> Result<SpecTorrent, MetaError> {
    match dict_get(info, key_pieces()) {
        Option::None => Err(MetaError::NoPieces),
        Option::Some(sv) => match sv {
            SpecValue::Str(pb) => if pb.len() % 20 != 0 {
                Err(MetaError::PiecesNotMul20)
            } else {
                spec_load_mode(info, announce, name, piece_length, chunks20(pb))
            },
            _ => Err(MetaError::NotAString),
        },
    }
}

/// The `piece length` step: a present, strictly positive integer — the
/// chunk size that slices the content cannot be zero or negative. A
/// non-positive value is reported as `NotAnInt` (the error taxonomy names
/// no separate kind for an out-of-range integer).
pub open spec fn spec_load_piece_length(
    info: Seq<(Seq<u8>, SpecValue)>,
    announce: Seq<char>,
    name: Seq<char>,
) -> Result<SpecTorrent, MetaError> {
    match dict_get(info, key_piece_length()) {
        Option::None => Err(MetaError::NoPieceLen),
        Option::Some(pv) => match pv {
            SpecValue::Int(n) => if n <= 0 {
                Err(MetaError::NotAnInt)
            } else {
                spec_load_pieces(info, announce, name, n)
            },
            _ => Err(MetaError::NotAnInt),
        },
    }
}

/// The `name` step: a present byte string holding valid UTF-8.
pub open spec fn spec_load_name(
    info: Seq<(Seq<u8>, SpecValue)>,
    announce: Seq<char>,
) -> Result<SpecTorrent, MetaError> {
    match dict_get(info, key_name()) {
        Option::None => Err(MetaError::NoName),
        Option::Some(nv) => match nv {
            SpecValue::Str(nb) => if !valid_utf8(nb) {
                Err(MetaError::InvalidUtf8)
            } else {
                spec_load_piece_length(info, announce, decode_utf8(nb))
            },
            _ => Err(MetaError::NotAString),
        },
    }
}

/// The `info` step: a present dictionary.
pub open spec fn spec_load_info(
    top: Seq<(Seq<u8>, SpecValue)>,
    announce: Seq<char>,
) -> Result<SpecTorrent, MetaError> {
    match dict_get(top, key_info()) {
        Option::None => Err(MetaError::NoInfo),
        Option::Some(iv) => match iv {
            SpecValue::Dict(info) => spec_load_name(info, announce),
            _ => Err(MetaError::NotADict),
        },
    }
}

/// What the mapper computes from a decoded value: the typed descriptor, or
/// the error of the first validation step that fails. The steps run in
/// order: top-level shape, `announce`, `info`, `info.name`,
/// `info.piece length`, `info.pieces`, then the file mode.
pub open spec fn spec_load(v: SpecValue) -> Result<SpecTorrent, MetaError> {
    match v {
        SpecValue::Dict(top) => match dict_get(top, key_announce()) {
            Option::None => Err(MetaError::NoAnnounce),
            Option::Some(av) => match av {
                SpecValue::Str(ab) => if !valid_utf8(ab) {
                    Err(MetaError::InvalidUtf8)
                } else {
                    spec_load_info(top, decode_utf8(ab))
                },
                _ => Err(MetaError::NotAString),
            },
        },
        _ => Err(MetaError::NotADict),
    }
}

/// What loading from raw bytes computes: decode one value off the buffer
/// (trailing bytes are ignored, as a metadata file holds one document),
/// translate a decode failure into the corresponding metadata error, and
/// map the value.
pub open spec fn spec_load_from_bytes(s: Seq<u8>) -> Result<SpecTorrent, MetaError> {
    match spec_decode(s) {
        Ok(pair) => spec_load(pair.0),
        Err(DecodeError::Incomplete) => Err(MetaError::FileDecodeIncomplete),
        Err(DecodeError::Malformed) => Err(MetaError::FileDecodeError),
    }
}

/// Byte-for-byte equality of two byte strings.
fn bytes_eq(a: &[u8], b: &[u8]) -> (r: bool)
    ensures
        r == (a@ == b@),
{
    if a.len() != b.len() {
        return false;
    }
    let mut i: usize = 0;
    while i < a.len()
        invariant
            i <= a@.len() == b@.len(),
            forall|j: int| 0 <= j < i ==> a@[j] == b@[j],
        decreases a@.len() - i,
    {
        if a[i] != b[i] {
            return false;
        }
        i = i + 1;
    }
    proof {
        assert(a@ =~= b@);
    }
    true
}

/// Look a key up in a decoded dictionary body.
fn dict_find<'a>(d: &'a Vec<(Vec<u8>, Value)>, key: &[u8]) -> (r: Option<&'a Value>)
    ensures
        match r {
            Option::Some(v) => dict_get(pairs_view(d@), key@) == Option::Some(v@),
            Option::None => dict_get(pairs_view(d@), key@) is None,
        },
{
    let ghost pv = pairs_view(d@);
    let mut i: usize = 0;
    proof {
        assert(pv.skip(0) =~= pv);
    }
    while i < d.len()
        invariant
            i <= d@.len() == pv.len(),
            pairs_view(d@) == pv,
            dict_get(pv, key@) == dict_get(pv.skip(i as int), key@),
        decreases d@.len() - i,
    {
        proof {
            assert(pv.skip(i as int)[0] == pv[i as int]);
            assert(pv.skip(i as int).drop_first() =~= pv.skip(i + 1));
        }
        if bytes_eq(d[i].0.as_slice(), key) {
            return Option::Some(&d[i].1);
        }
        i = i + 1;
    }
    proof {
        assert(pv.skip(i as int).len() == 0);
    }
    Option::None
}

/// Relies on `String::from_utf8`: it returns the string decoded from the
/// given bytes exactly when they are valid UTF-8, and fails otherwise.
#[verifier::external_body]
fn bytes_to_string(b: &Vec<u8>) -> (r: Option<String>)
    ensures
        match r {
            Option::Some(s) => valid_utf8(b@) && s@ == decode_utf8(b@),
            Option::None => !valid_utf8(b@),
        },
{
    match String::from_utf8(b.clone()) {
        Ok(s) => Option::Some(s),
        Err(_) => Option::None,
    }
}

/// Split the raw `pieces` byte string into its 20-byte checksums, appended
/// to `to` in input order; fails, leaving `to` unchanged, when the length
/// is not a multiple of 20.
pub fn split_pieces(raw: &Vec<u8>, to: &mut Vec<Vec<u8>>) -> (r: Result<(), MetaError>)
    ensures
        match r {
            Ok(_) => raw@.len() % 20 == 0 && final(to).deep_view() == old(to).deep_view()
                + chunks20(raw@),
            Err(e) => raw@.len() % 20 != 0 && e == MetaError::PiecesNotMul20 && *final(to) == *old(to),
        },
{
    let len = raw.len();
    if len % 20 != 0 {
        return Err(MetaError::PiecesNotMul20);
    }
    let ghost orig = to.deep_view();
    let n = len / 20;
    proof {
        vstd::arithmetic::div_mod::lemma_fundamental_div_mod(len as int, 20);
    }
    let mut j: usize = 0;
    proof {
        assert(to.deep_view() =~= orig + chunks20(raw@).take(0));
    }
    while j < n
        invariant
            j <= n,
            n == raw@.len() / 20,
            raw@.len() % 20 == 0,
            raw@.len() == len,
            20 * n == len,
            to.deep_view() == orig + chunks20(raw@).take(j as int),
        decreases n - j,
    {
        proof {
            assert(20 * (j + 1) <= 20 * n) by (nonlinear_arith)
                requires
                    j + 1 <= n,
            ;
        }
        let start = 20 * j;
        let chunk = vstd::slice::slice_to_vec(
            vstd::slice::slice_subrange(raw.as_slice(), start, start + 20),
        );
        let ghost pre = to.deep_view();
        let ghost cv = chunk.deep_view();
        to.push(chunk);
        proof {
            assert(cv =~= raw@.subrange(20 * j, 20 * j + 20));
            assert(to.deep_view() =~= pre.push(cv));
            assert(chunks20(raw@).take(j + 1) =~= chunks20(raw@).take(j as int).push(
                raw@.subrange(20 * j, 20 * j + 20),
            ));
            assert(pre.push(cv) =~= orig + chunks20(raw@).take(j + 1));
        }
        j = j + 1;
    }
    proof {
        assert(chunks20(raw@).take(n as int) =~= chunks20(raw@));
    }
    Ok(())
}

/// Extract the path components of one multi-file entry: a list of byte
/// strings, each valid UTF-8.
fn path_strings(l: &Vec<Value>) -> (r: Result<Vec<String>, MetaError>)
    ensures
        match r {
            Ok(p) => spec_path_strings(seq_view(l@)) == Ok::<_, MetaError>(p.deep_view()),
            Err(e) => spec_path_strings(seq_view(l@)) == Err::<Seq<Seq<char>>, _>(e),
        },
{
    let ghost lv = seq_view(l@);
    let mut out: Vec<String> = Vec::new();
    let mut i: usize = 0;
    proof {
        assert(lv.skip(0) =~= lv);
        assert(out.deep_view() =~= Seq::<Seq<char>>::empty());
    }
    while i < l.len()
        invariant
            i <= l@.len() == lv.len(),
            seq_view(l@) == lv,
            forall|j: int| 0 <= j < lv.len() ==> lv[j] == crate::bencode::view_value(l@[j]),
            ({
                let full = spec_path_strings(lv);
                let tail = spec_path_strings(lv.skip(i as int));
                match tail {
                    Ok(rest) => full == Ok::<_, MetaError>(out.deep_view() + rest),
                    Err(e) => full == Err::<Seq<Seq<char>>, MetaError>(e),
                }
            }),
        decreases l@.len() - i,
    {
        proof {
            assert(lv.skip(i as int)[0] == lv[i as int]);
            assert(lv.skip(i as int).drop_first() =~= lv.skip(i + 1));
        }
        match &l[i] {
            Value::String(bs) => {
                match bytes_to_string(bs) {
                    Option::Some(s) => {
                        let ghost prev_view = out.deep_view();
                        let ghost sv = s@;
                        out.push(s);
                        proof {
                            assert(out.deep_view() =~= prev_view.push(sv));
                            if spec_path_strings(lv.skip(i + 1)) is Ok {
                                let rest = spec_path_strings(lv.skip(i + 1))->Ok_0;
                                assert(prev_view + (seq![sv] + rest) =~= (prev_view.push(sv))
                                    + rest);
                            }
                        }
                    },
                    Option::None => {
                        return Err(MetaError::InvalidUtf8);
                    },
                }
            },
            _ => {
                return Err(MetaError::NotAString);
            },
        }
        i = i + 1;
    }
    proof {
        assert(lv.skip(i as int).len() == 0);
        assert(spec_path_strings(lv.skip(i as int)) == Ok::<_, MetaError>(
            Seq::<Seq<char>>::empty(),
        ));
        assert(out.deep_view() + Seq::<Seq<char>>::empty() =~= out.deep_view());
    }
    Ok(out)
}

/// Map one entry of the `files` list (a decoded dictionary body) to a file
/// entry and append it to `to`; on failure `to` is left unchanged.
pub fn add_file_to_list(d: &Vec<(Vec<u8>, Value)>, to: &mut Vec<file>) -> (r: Result<
    (),
    MetaError,
>)
    ensures
        match r {
            Ok(_) => spec_file_entry(pairs_view(d@)) is Ok && files_view(final(to)@) == files_view(
                old(to)@,
            ).push(spec_file_entry(pairs_view(d@))->Ok_0),
            Err(e) => spec_file_entry(pairs_view(d@)) == Err::<SpecFile, _>(e) && *final(to) == *old(to),
        },
{
    let len_file = match dict_find(d, "length".as_bytes()) {
        Option::Some(lv) => match lv {
            Value::Integer(i) => *i,
            _ => {
                return Err(MetaError::NotAnInt);
            },
        },
        Option::None => {
            return Err(MetaError::FileListNoLen);
        },
    };
    if len_file < 0 {
        return Err(MetaError::NotAnInt);
    }
    let path_file = match dict_find(d, "path".as_bytes()) {
        Option::Some(pv) => match pv {
            Value::List(l) => match path_strings(l) {
                Ok(p) => p,
                Err(e) => {
                    return Err(e);
                },
            },
            _ => {
                return Err(MetaError::NotAList);
            },
        },
        Option::None => {
            return Err(MetaError::FileListNoPath);
        },
    };
    let ghost prev = files_view(to@);
    let f = file { length: len_file, path: path_file };
    let ghost fv = f@;
    to.push(f);
    proof {
        assert(files_view(to@) =~= prev.push(fv));
    }
    Ok(())
}

/// Map every entry of the `files` list, in order, appending the results to
/// `to`; on the first failure nothing is appended.
pub fn create_file_list(list: &Vec<Value>, to: &mut Vec<file>) -> (r: Result<(), MetaError>)
    ensures
        match r {
            Ok(_) => spec_load_files(seq_view(list@)) is Ok && files_view(final(to)@)
                == files_view(old(to)@) + spec_load_files(seq_view(list@))->Ok_0,
            Err(e) => spec_load_files(seq_view(list@)) == Err::<Seq<SpecFile>, _>(e) && *final(to) == *old(to),
        },
{
    let ghost lv = seq_view(list@);
    let mut tmp: Vec<file> = Vec::new();
    let mut i: usize = 0;
    proof {
        assert(lv.skip(0) =~= lv);
        assert(files_view(tmp@) =~= Seq::<SpecFile>::empty());
    }
    while i < list.len()
        invariant
            i <= list@.len() == lv.len(),
            seq_view(list@) == lv,
            forall|j: int| 0 <= j < lv.len() ==> lv[j] == crate::bencode::view_value(list@[j]),
            ({
                let full = spec_load_files(lv);
                let tail = spec_load_files(lv.skip(i as int));
                match tail {
                    Ok(fs) => full == Ok::<_, MetaError>(files_view(tmp@) + fs),
                    Err(e) => full == Err::<Seq<SpecFile>, MetaError>(e),
                }
            }),
        decreases list@.len() - i,
    {
        proof {
            assert(lv.skip(i as int)[0] == lv[i as int]);
            assert(lv.skip(i as int).drop_first() =~= lv.skip(i + 1));
        }
        match &list[i] {
            Value::Dictionary(d) => {
                let ghost prev_view = files_view(tmp@);
                match add_file_to_list(d, &mut tmp) {
                    Ok(_) => {
                        proof {
                            let f = spec_file_entry(pairs_view(d@))->Ok_0;
                            if spec_load_files(lv.skip(i + 1)) is Ok {
                                let fs = spec_load_files(lv.skip(i + 1))->Ok_0;
                                assert(prev_view + (seq![f] + fs) =~= (prev_view.push(f)) + fs);
                            }
                        }
                    },
                    Err(e) => {
                        return Err(e);
                    },
                }
            },
            _ => {
                return Err(MetaError::FileListNotDicts);
            },
        }
        i = i + 1;
    }
    proof {
        assert(lv.skip(i as int).len() == 0);
        assert(spec_load_files(lv.skip(i as int)) == Ok::<_, MetaError>(Seq::<SpecFile>::empty()));
    }
    let ghost built = files_view(tmp@);
    let ghost before = files_view(to@);
    to.append(&mut tmp);
    proof {
        assert(files_view(to@) =~= before + built);
        assert(built + Seq::<SpecFile>::empty() =~= built);
    }
    Ok(())
}

impl torrent {
    /// Interpret a decoded value as a metadata document: validate each
    /// field in order and build the typed descriptor, or return the error
    /// of the first validation step that fails, exactly as [`spec_load`]
    /// says.
    pub fn load(val: &Value) -> (r: Result<torrent, MetaError>)
        ensures
            match r {
                Ok(t) => spec_load(val@) == Ok::<_, MetaError>(t@),
                Err(e) => spec_load(val@) == Err::<SpecTorrent, _>(e),
            },
    {
        let top = match val {
            Value::Dictionary(d) => d,
            _ => {
                return Err(MetaError::NotADict);
            },
        };
        // announce url
        let torr_announce = match dict_find(top, "announce".as_bytes()) {
            Option::Some(av) => match av {
                Value::String(ab) => match bytes_to_string(ab) {
                    Option::Some(s) => s,
                    Option::None => {
                        return Err(MetaError::InvalidUtf8);
                    },
                },
                _ => {
                    return Err(MetaError::NotAString);
                },
            },
            Option::None => {
                return Err(MetaError::NoAnnounce);
            },
        };
        // info dictionary
        let torr_info = match dict_find(top, "info".as_bytes()) {
            Option::Some(iv) => match iv {
                Value::Dictionary(d) => d,
                _ => {
                    return Err(MetaError::NotADict);
                },
            },
            Option::None => {
                return Err(MetaError::NoInfo);
            },
        };
        // name (advisory)
        let torr_name = match dict_find(torr_info, "name".as_bytes()) {
            Option::Some(nv) => match nv {
                Value::String(nb) => match bytes_to_string(nb) {
                    Option::Some(s) => s,
                    Option::None => {
                        return Err(MetaError::InvalidUtf8);
                    },
                },
                _ => {
                    return Err(MetaError::NotAString);
                },
            },
            Option::None => {
                return Err(MetaError::NoName);
            },
        };
        // piece length
        let torr_piecelen = match dict_find(torr_info, "piece length".as_bytes()) {
            Option::Some(pv) => match pv {
                Value::Integer(i) => *i,
                _ => {
                    return Err(MetaError::NotAnInt);
                },
            },
            Option::None => {
                return Err(MetaError::NoPieceLen);
            },
        };
        if torr_piecelen <= 0 {
            return Err(MetaError::NotAnInt);
        }
        // pieces
        let torr_pieces = match dict_find(torr_info, "pieces".as_bytes()) {
            Option::Some(sv) => match sv {
                Value::String(pb) => {
                    let mut temp: Vec<Vec<u8>> = Vec::new();
                    match split_pieces(pb, &mut temp) {
                        Ok(_) => {
                            proof {
                                assert(temp.deep_view() =~= chunks20(pb@));
                            }
                            temp
                        },
                        Err(e) => {
                            return Err(e);
                        },
                    }
                },
                _ => {
                    return Err(MetaError::NotAString);
                },
            },
            Option::None => {
                return Err(MetaError::NoPieces);
            },
        };
        // 'length' and 'files' are mutually exclusive
        match dict_find(torr_info, "length".as_bytes()) {
            Option::Some(lv) => {
                // single-file case
                if dict_find(torr_info, "files".as_bytes()).is_some() {
                    return Err(MetaError::HasLenAndFiles);
                }
                let torr_len = match lv {
                    Value::Integer(i) => *i,
                    _ => {
                        return Err(MetaError::NotAnInt);
                    },
                };
                if torr_len < 0 {
                    return Err(MetaError::NotAnInt);
                }
                let f = file { length: torr_len, path: vec![torr_name.clone()] };
                proof {
                    assert(f@.path =~= seq![torr_name@]);
                }
                let t = torrent {
                    announce: torr_announce,
                    name: torr_name,
                    piece_length: torr_piecelen,
                    pieces: torr_pieces,
                    files: vec![f],
                };
                proof {
                    assert(files_view(t.files@) =~= seq![t.files@[0]@]);
                }
                Ok(t)
            },
            Option::None => {
                // multi-file case
                let torr_files = match dict_find(torr_info, "files".as_bytes()) {
                    Option::Some(fv) => match fv {
                        Value::List(l) => {
                            let mut temp: Vec<file> = Vec::new();
                            match create_file_list(l, &mut temp) {
                                Ok(_) => {
                                    proof {
                                        assert(Seq::<SpecFile>::empty() + spec_load_files(
                                            seq_view(l@),
                                        )->Ok_0 =~= spec_load_files(seq_view(l@))->Ok_0);
                                    }
                                    temp
                                },
                                Err(e) => {
                                    return Err(e);
                                },
                            }
                        },
                        _ => {
                            return Err(MetaError::NotAList);
                        },
                    },
                    Option::None => {
                        return Err(MetaError::HasNoLenNoFiles);
                    },
                };
                Ok(
                    torrent {
                        announce: torr_announce,
                        name: torr_name,
                        piece_length: torr_piecelen,
                        pieces: torr_pieces,
                        files: torr_files,
                    },
                )
            },
        }
    }

    /// Decode a raw metadata document and map it: a decode failure becomes
    /// the corresponding metadata error, and the decoded value is handed
    /// to [`torrent::load`]. Trailing bytes after the one document are
    /// ignored.
    pub fn load_from_bytes(raw: &[u8]) -> (r: Result<torrent, MetaError>)
        ensures
            match r {
                Ok(t) => spec_load_from_bytes(raw@) == Ok::<_, MetaError>(t@),
                Err(e) => spec_load_from_bytes(raw@) == Err::<SpecTorrent, _>(e),
            },
    {
        match decode(raw) {
            Ok((v, _rest)) => torrent::load(&v),
            Err(DecodeError::Incomplete) => Err(MetaError::FileDecodeIncomplete),
            Err(DecodeError::Malformed) => Err(MetaError::FileDecodeError),
        }
    }
}

/// Mutual exclusivity of the file modes: whatever the other fields hold,
/// an info dictionary carrying both `length` and `files` maps to
/// `HasLenAndFiles`, and one carrying neither maps to `HasNoLenNoFiles`.
pub proof fn lemma_mode_mutual_exclusivity(
    info: Seq<(Seq<u8>, SpecValue)>,
    announce: Seq<char>,
    name: Seq<char>,
    piece_length: int,
    pieces: Seq<Seq<u8>>,
)
    ensures
        dict_get(info, key_length()) is Some && dict_get(info, key_files()) is Some
            ==> spec_load_mode(info, announce, name, piece_length, pieces) == Err::<
            SpecTorrent,
            _,
        >(MetaError::HasLenAndFiles),
        dict_get(info, key_length()) is None && dict_get(info, key_files()) is None
            ==> spec_load_mode(info, announce, name, piece_length, pieces) == Err::<
            SpecTorrent,
            _,
        >(MetaError::HasNoLenNoFiles),
{
}

/// Every file entry that the `files` list maps to has a nonnegative
/// length.
proof fn lemma_load_files_lengths(l: Seq<SpecValue>)
    requires
        spec_load_files(l) is Ok,
    ensures
        forall|i: int|
            0 <= i < spec_load_files(l)->Ok_0.len() ==> spec_load_files(l)->Ok_0[i].length >= 0,
    decreases l.len(),
{
    if l.len() > 0 {
        lemma_load_files_lengths(l.drop_first());
        let fs = spec_load_files(l)->Ok_0;
        let rest = spec_load_files(l.drop_first())->Ok_0;
        assert forall|i: int| 0 <= i < fs.len() implies fs[i].length >= 0 by {
            if i > 0 {
                assert(fs[i] == rest[i - 1]);
            }
        }
    }
}

/// Invariants of every descriptor the mapper returns: the piece length is
/// strictly positive, every file length is nonnegative, and every piece
/// checksum is exactly 20 bytes.
pub proof fn lemma_descriptor_invariants(v: SpecValue)
    requires
        spec_load(v) is Ok,
    ensures
        ({
            let t = spec_load(v)->Ok_0;
            &&& t.piece_length > 0
            &&& forall|i: int| 0 <= i < t.files.len() ==> t.files[i].length >= 0
            &&& forall|i: int| 0 <= i < t.pieces.len() ==> t.pieces[i].len() == 20
        }),
{
    let t = spec_load(v)->Ok_0;
    match v {
        SpecValue::Dict(top) => {
            match dict_get(top, key_info()) {
                Option::Some(iv) => {
                    match iv {
                        SpecValue::Dict(info) => {
                            match dict_get(info, key_pieces()) {
                                Option::Some(sv) => {
                                    match sv {
                                        SpecValue::Str(pb) => {
                                            assert(t.pieces == chunks20(pb));
                                            assert(forall|i: int|
                                                0 <= i < t.pieces.len()
                                                    ==> #[trigger] t.pieces[i].len() == 20);
                                        },
                                        _ => {},
                                    }
                                },
                                _ => {},
                            }
                            match dict_get(info, key_length()) {
                                Option::Some(_) => {
                                    assert(t.files.len() == 1 && t.files[0].length >= 0);
                                },
                                Option::None => {
                                    match dict_get(info, key_files()) {
                                        Option::Some(fv) => {
                                            match fv {
                                                SpecValue::List(fl) => {
                                                    lemma_load_files_lengths(fl);
                                                },
                                                _ => {},
                                            }
                                        },
                                        _ => {},
                                    }
                                },
                            }
                        },
                        _ => {},
                    }
                },
                _ => {},
            }
        },
        _ => {},
    }
}

/// A name for what the SHA-1 primitive returns: the hex digest is a pure
/// function of the input bytes alone.
pub uninterp spec fn sha1_hex_of(b: Seq<u8>) -> Seq<char>;

/// Relies on `crypto::sha1::Sha1` through `Digest::input` and
/// `Digest::result_str`: the hex digest of the input bytes, a function of
/// them alone, 40 hex characters for the 160-bit digest.
#[verifier::external_body]
fn sha1_hex(b: &[u8]) -> (r: String)
    ensures
        r@ == sha1_hex_of(b@),
        r@.len() == 40,
{
    let mut hasher = crypto::sha1::Sha1::new();
    crypto::digest::Digest::input(&mut hasher, b);
    crypto::digest::Digest::result_str(&mut hasher)
}

/// A placeholder content identifier: the hex digest of a fixed sample
/// string, not of the metadata's `info` dictionary. A real content
/// identifier would hash the canonical re-encoding of that dictionary.
pub fn infohash() -> (r: String)
    ensures
        r@ == sha1_hex_of("hello world".spec_bytes()),
        r@.len() == 40,
{
    sha1_hex("hello world".as_bytes())
}

} // verus!
