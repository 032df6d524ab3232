//! The generic binary codec: a four-variant value model, a strict
//! canonical-form decoder, and a canonical encoder.
//!
//! The wire grammar is self-delimiting: an integer is `i` [`-`] digits `e`,
//! a byte string is a decimal length prefix, `:`, and exactly that many raw
//! bytes, a list is `l` values `e`, and a dictionary is `d` key/value pairs
//! `e` whose byte-string keys must appear in strictly ascending
//! byte-lexicographic order. Canonical form is mandated on ingest as well as
//! on output: leading zeros, negative zero, and out-of-order or duplicate
//! dictionary keys are all rejected.

use vstd::prelude::*;

verus! {

broadcast use vstd::std_specs::vec::group_vec_axioms;

/// The universal in-memory representation of decoded data: a byte string,
/// a signed integer, an ordered list, or a key-sorted dictionary.
///
/// A dictionary is held as a vector of key/value pairs whose keys are in
/// strictly ascending byte-lexicographic order; [`canonical`] states that
/// invariant of the abstract value. The decoder only builds canonical
/// values, and the encoder fails on any value that is not canonical.
#[derive(PartialEq, Debug)]
pub enum Value {
    String(Vec<u8>),
    Integer(i64),
    List(Vec<Value>),
    Dictionary(Vec<(Vec<u8>, Value)>),
}

/// The mathematical model of a [`Value`]: the same four variants over
/// sequences and unbounded integers.
pub enum SpecValue {
    Str(Seq<u8>),
    Int(int),
    List(Seq<SpecValue>),
    Dict(Seq<(Seq<u8>, SpecValue)>),
}

/// The abstraction of an exec [`Value`] tree.
pub open spec fn view_value(v: Value) -> SpecValue
    decreases v, 1int,
{
    match v {
        Value::String(s) => SpecValue::Str(s@),
        Value::Integer(i) => SpecValue::Int(i as int),
        Value::List(l) => SpecValue::List(seq_view(l@)),
        Value::Dictionary(d) => SpecValue::Dict(pairs_view(d@)),
    }
}

/// The abstraction of a sequence of exec values.
pub open spec fn seq_view(l: Seq<Value>) -> Seq<SpecValue>
    decreases l, 0int,
{
    Seq::new(
        l.len(),
        |i: int|
            if 0 <= i < l.len() {
                view_value(l[i])
            } else {
                SpecValue::Int(0)
            },
    )
}

/// The abstraction of a sequence of exec key/value pairs.
pub open spec fn pairs_view(d: Seq<(Vec<u8>, Value)>) -> Seq<(Seq<u8>, SpecValue)>
    decreases d, 0int,
{
    Seq::new(
        d.len(),
        |i: int|
            if 0 <= i < d.len() {
                (d[i].0@, view_value(d[i].1))
            } else {
                (Seq::empty(), SpecValue::Int(0))
            },
    )
}

impl View for Value {
    type V = SpecValue;

    open spec fn view(&self) -> SpecValue {
        view_value(*self)
    }
}

/// How a decode fails. `Incomplete` means the buffer ended before the value
/// did, so more bytes might fix it; `Malformed` means the bytes present
/// violate the grammar or canonical form, which no further bytes can fix.
#[derive(PartialEq, Eq, Clone, Copy, Debug)]
pub enum DecodeError {
    Incomplete,
    Malformed,
}

/// The maximum nesting depth the decoder accepts, a hardening against
/// stack exhaustion on adversarially deep lists and dictionaries.
pub const MAX_DEPTH: u32 = 64;

/// Strict byte-lexicographic order: `a` comes before `b`.
pub open spec fn lex_lt(a: Seq<u8>, b: Seq<u8>) -> bool
    decreases a.len(),
{
    if b.len() == 0 {
        false
    } else if a.len() == 0 {
        true
    } else if a[0] < b[0] {
        true
    } else if a[0] > b[0] {
        false
    } else {
        lex_lt(a.drop_first(), b.drop_first())
    }
}

/// A value in canonical form: every integer fits the host integer type and
/// the keys of every dictionary, at every nesting level, are strictly
/// ascending (which makes them unique as well).
pub open spec fn canonical(v: SpecValue) -> bool
    decreases v, 1int,
{
    match v {
        SpecValue::Str(_) => true,
        SpecValue::Int(i) => i64::MIN <= i <= i64::MAX,
        SpecValue::List(l) => canonical_elems(l),
        SpecValue::Dict(d) => keys_ascending(d) && canonical_pairs(d),
    }
}

/// Every element of a list body is canonical.
pub open spec fn canonical_elems(l: Seq<SpecValue>) -> bool
    decreases l, 0int,
{
    l.len() == 0 || (canonical(l[0]) && canonical_elems(l.drop_first()))
}

/// Every value of a dictionary body is canonical.
pub open spec fn canonical_pairs(d: Seq<(Seq<u8>, SpecValue)>) -> bool
    decreases d, 0int,
{
    d.len() == 0 || (canonical(d[0].1) && canonical_pairs(d.drop_first()))
}

/// The keys of a dictionary body are strictly ascending.
pub open spec fn keys_ascending(d: Seq<(Seq<u8>, SpecValue)>) -> bool
    decreases d,
{
    d.len() <= 1 || (lex_lt(d[0].0, d[1].0) && keys_ascending(d.drop_first()))
}

/// A list body is canonical exactly when each of its elements is.
pub proof fn lemma_canonical_elems_iff(l: Seq<SpecValue>)
    ensures
        canonical_elems(l) <==> (forall|i: int| 0 <= i < l.len() ==> canonical(#[trigger] l[i])),
    decreases l.len(),
{
    if l.len() > 0 {
        lemma_canonical_elems_iff(l.drop_first());
        if canonical_elems(l) {
            assert forall|i: int| 0 <= i < l.len() implies canonical(#[trigger] l[i]) by {
                if i > 0 {
                    assert(l.drop_first()[i - 1] == l[i]);
                }
            }
        }
        if forall|i: int| 0 <= i < l.len() ==> canonical(#[trigger] l[i]) {
            assert forall|j: int|
                0 <= j < l.drop_first().len() implies canonical(
                #[trigger] l.drop_first()[j],
            ) by {
                assert(l.drop_first()[j] == l[j + 1]);
            }
            assert(canonical_elems(l));
        }
    }
}

/// A dictionary body's values are canonical exactly when each of them is.
pub proof fn lemma_canonical_pairs_iff(d: Seq<(Seq<u8>, SpecValue)>)
    ensures
        canonical_pairs(d) <==> (forall|i: int|
            0 <= i < d.len() ==> canonical(#[trigger] d[i].1)),
    decreases d.len(),
{
    if d.len() > 0 {
        lemma_canonical_pairs_iff(d.drop_first());
        if canonical_pairs(d) {
            assert forall|i: int| 0 <= i < d.len() implies canonical(#[trigger] d[i].1) by {
                if i > 0 {
                    assert(d.drop_first()[i - 1] == d[i]);
                }
            }
        }
        if forall|i: int| 0 <= i < d.len() ==> canonical(#[trigger] d[i].1) {
            assert forall|j: int|
                0 <= j < d.drop_first().len() implies canonical(
                #[trigger] d.drop_first()[j].1,
            ) by {
                assert(d.drop_first()[j] == d[j + 1]);
            }
            assert(canonical_pairs(d));
        }
    }
}

/// A dictionary body's keys ascend exactly when every adjacent pair does.
pub proof fn lemma_keys_ascending_iff(d: Seq<(Seq<u8>, SpecValue)>)
    ensures
        keys_ascending(d) <==> (forall|i: int|
            0 <= i < d.len() - 1 ==> lex_lt(#[trigger] d[i].0, d[i + 1].0)),
    decreases d.len(),
{
    if d.len() > 1 {
        lemma_keys_ascending_iff(d.drop_first());
        if keys_ascending(d) {
            assert forall|i: int|
                0 <= i < d.len() - 1 implies lex_lt(#[trigger] d[i].0, d[i + 1].0) by {
                if i > 0 {
                    assert(d.drop_first()[i - 1] == d[i]);
                    assert(d.drop_first()[i] == d[i + 1]);
                }
            }
        }
        if forall|i: int| 0 <= i < d.len() - 1 ==> lex_lt(#[trigger] d[i].0, d[i + 1].0) {
            assert forall|j: int|
                0 <= j < d.drop_first().len() - 1 implies lex_lt(
                #[trigger] d.drop_first()[j].0,
                d.drop_first()[j + 1].0,
            ) by {
                assert(d.drop_first()[j] == d[j + 1]);
                assert(d.drop_first()[j + 1] == d[j + 2]);
            }
            assert(keys_ascending(d));
        }
    }
}

/// Nesting depth of a value: strings and integers are flat; a list or a
/// dictionary is one deeper than its deepest element.
pub open spec fn depth(v: SpecValue) -> nat
    decreases v, 1int,
{
    match v {
        SpecValue::Str(_) => 0,
        SpecValue::Int(_) => 0,
        SpecValue::List(l) => 1 + depth_of_elems(l),
        SpecValue::Dict(d) => 1 + depth_of_pairs(d),
    }
}

pub open spec fn depth_of_elems(l: Seq<SpecValue>) -> nat
    decreases l, 0int,
{
    if l.len() == 0 {
        0
    } else if depth(l[0]) >= depth_of_elems(l.drop_first()) {
        depth(l[0])
    } else {
        depth_of_elems(l.drop_first())
    }
}

pub open spec fn depth_of_pairs(d: Seq<(Seq<u8>, SpecValue)>) -> nat
    decreases d, 0int,
{
    if d.len() == 0 {
        0
    } else if depth(d[0].1) >= depth_of_pairs(d.drop_first()) {
        depth(d[0].1)
    } else {
        depth_of_pairs(d.drop_first())
    }
}

/// The decimal digits of `n`, most significant first, as ASCII bytes.
pub open spec fn spec_digits(n: nat) -> Seq<u8>
    decreases n,
{
    if n < 10 {
        seq![(48 + n) as u8]
    } else {
        spec_digits(n / 10) + seq![(48 + n % 10) as u8]
    }
}

/// The canonical wire bytes of an integer: `i`, an optional `-`, the decimal
/// magnitude without leading zeros, and `e`.
pub open spec fn spec_encode_int(i: int) -> Seq<u8> {
    if i < 0 {
        seq![105u8, 45u8] + spec_digits((-i) as nat) + seq![101u8]
    } else {
        seq![105u8] + spec_digits(i as nat) + seq![101u8]
    }
}

/// The canonical wire bytes of a byte string: decimal length, `:`, the bytes.
pub open spec fn spec_encode_str(s: Seq<u8>) -> Seq<u8> {
    spec_digits(s.len()) + seq![58u8] + s
}

/// The canonical encoding of a value.
pub open spec fn spec_encode(v: SpecValue) -> Seq<u8>
    decreases v, 1int,
{
    match v {
        SpecValue::Str(s) => spec_encode_str(s),
        SpecValue::Int(i) => spec_encode_int(i),
        SpecValue::List(l) => seq![108u8] + spec_encode_elems(l) + seq![101u8],
        SpecValue::Dict(d) => seq![100u8] + spec_encode_pairs(d) + seq![101u8],
    }
}

/// The concatenated encodings of the elements of a list body.
pub open spec fn spec_encode_elems(l: Seq<SpecValue>) -> Seq<u8>
    decreases l, 0int,
{
    if l.len() == 0 {
        Seq::empty()
    } else {
        spec_encode(l[0]) + spec_encode_elems(l.drop_first())
    }
}

/// The concatenated key/value encodings of a dictionary body.
pub open spec fn spec_encode_pairs(d: Seq<(Seq<u8>, SpecValue)>) -> Seq<u8>
    decreases d, 0int,
{
    if d.len() == 0 {
        Seq::empty()
    } else {
        spec_encode_str(d[0].0) + spec_encode(d[0].1) + spec_encode_pairs(d.drop_first())
    }
}

/// An ASCII decimal digit.
pub open spec fn is_ascii_digit(b: u8) -> bool {
    48 <= b <= 57
}

/// The length of the longest all-digit prefix of `s`.
pub open spec fn digit_run_len(s: Seq<u8>) -> nat
    decreases s.len(),
{
    if s.len() == 0 || !is_ascii_digit(s[0]) {
        0
    } else {
        1 + digit_run_len(s.drop_first())
    }
}

/// The value of an all-digit sequence read as a decimal number.
pub open spec fn digits_val(s: Seq<u8>) -> nat
    decreases s.len(),
{
    if s.len() == 0 {
        0
    } else {
        (10 * digits_val(s.drop_last()) + (s.last() - 48)) as nat
    }
}

/// Parse a byte-string term at the head of `s`: a decimal length without
/// leading zeros, `:`, and exactly that many raw bytes. Returns the string's
/// bytes and the unconsumed remainder.
///
/// A leading zero in the length is checked before the end-of-buffer test:
/// once the digit run starts with a spurious `0`, no further bytes can mend
/// it, so such a buffer is `Malformed` even where it ends mid-run.
pub open spec fn spec_parse_string(s: Seq<u8>) -> Result<(Seq<u8>, Seq<u8>), DecodeError> {
    let k = digit_run_len(s) as int;
    if k == 0 {
        Err(DecodeError::Malformed)
    } else if k > 1 && s[0] == 48 {
        Err(DecodeError::Malformed)
    } else if k == s.len() {
        Err(DecodeError::Incomplete)
    } else if s[k] != 58 {
        Err(DecodeError::Malformed)
    } else {
        let n = digits_val(s.take(k)) as int;
        let rest = s.skip(k + 1);
        if n > rest.len() {
            Err(DecodeError::Incomplete)
        } else {
            Ok((rest.take(n), rest.skip(n)))
        }
    }
}

/// Parse an integer term at the head of `s` (whose first byte is `i`):
/// an optional `-`, a digit run with no leading zero and no negative zero,
/// and `e`. The magnitude must fit the host integer type.
///
/// The negative-zero, leading-zero and magnitude tests run on the digits
/// already seen, before the end-of-buffer test: further bytes can only
/// extend the digit run, never mend it, so a buffer ending in a run that
/// is already beyond repair is `Malformed`, not `Incomplete`.
pub open spec fn spec_parse_int(s: Seq<u8>) -> Result<(SpecValue, Seq<u8>), DecodeError> {
    let t = s.drop_first();
    let neg = t.len() > 0 && t[0] == 45;
    let u = if neg {
        t.drop_first()
    } else {
        t
    };
    let k = digit_run_len(u) as int;
    if u.len() == 0 {
        Err(DecodeError::Incomplete)
    } else if k == 0 {
        Err(DecodeError::Malformed)
    } else if neg && u[0] == 48 {
        Err(DecodeError::Malformed)
    } else if k > 1 && u[0] == 48 {
        Err(DecodeError::Malformed)
    } else {
        let n = digits_val(u.take(k)) as int;
        if neg && n > 0x8000000000000000 {
            Err(DecodeError::Malformed)
        } else if !neg && n > i64::MAX {
            Err(DecodeError::Malformed)
        } else if k == u.len() {
            Err(DecodeError::Incomplete)
        } else if u[k] != 101 {
            Err(DecodeError::Malformed)
        } else if neg {
            Ok((SpecValue::Int(-n), u.skip(k + 1)))
        } else {
            Ok((SpecValue::Int(n), u.skip(k + 1)))
        }
    }
}

/// Parse one value at the head of `s`, dispatching on the leading byte,
/// with at most `depth` levels of nesting below this one.
pub open spec fn spec_parse_value(s: Seq<u8>, depth: nat) -> Result<
    (SpecValue, Seq<u8>),
    DecodeError,
>
    decreases s.len(), 0int,
{
    if s.len() == 0 {
        Err(DecodeError::Incomplete)
    } else if s[0] == 105 {
        spec_parse_int(s)
    } else if is_ascii_digit(s[0]) {
        match spec_parse_string(s) {
            Ok((b, rest)) => Ok((SpecValue::Str(b), rest)),
            Err(e) => Err(e),
        }
    } else if s[0] == 108 {
        if depth == 0 {
            Err(DecodeError::Malformed)
        } else {
            match spec_parse_elems(s.drop_first(), (depth - 1) as nat) {
                Ok((l, rest)) => Ok((SpecValue::List(l), rest)),
                Err(e) => Err(e),
            }
        }
    } else if s[0] == 100 {
        if depth == 0 {
            Err(DecodeError::Malformed)
        } else {
            match spec_parse_pairs(s.drop_first(), (depth - 1) as nat, Option::None) {
                Ok((d, rest)) => Ok((SpecValue::Dict(d), rest)),
                Err(e) => Err(e),
            }
        }
    } else {
        Err(DecodeError::Malformed)
    }
}

/// Parse the elements of a list body up to and including the closing `e`.
pub open spec fn spec_parse_elems(s: Seq<u8>, depth: nat) -> Result<
    (Seq<SpecValue>, Seq<u8>),
    DecodeError,
>
    decreases s.len(), 1int,
{
    if s.len() == 0 {
        Err(DecodeError::Incomplete)
    } else if s[0] == 101 {
        Ok((Seq::empty(), s.drop_first()))
    } else {
        match spec_parse_value(s, depth) {
            Err(e) => Err(e),
            Ok((v, rest)) => {
                if rest.len() < s.len() {
                    match spec_parse_elems(rest, depth) {
                        Err(e) => Err(e),
                        Ok((l, rest2)) => Ok((seq![v] + l, rest2)),
                    }
                } else {
                    // a parsed value always consumes input; never reached
                    Err(DecodeError::Malformed)
                }
            },
        }
    }
}

/// Parse the key/value pairs of a dictionary body up to and including the
/// closing `e`, enforcing that each key is a byte string and that the keys
/// ascend strictly (`prev` is the preceding key, if any).
pub open spec fn spec_parse_pairs(s: Seq<u8>, depth: nat, prev: Option<Seq<u8>>) -> Result<
    (Seq<(Seq<u8>, SpecValue)>, Seq<u8>),
    DecodeError,
>
    decreases s.len(), 1int,
{
    if s.len() == 0 {
        Err(DecodeError::Incomplete)
    } else if s[0] == 101 {
        Ok((Seq::empty(), s.drop_first()))
    } else if !is_ascii_digit(s[0]) {
        Err(DecodeError::Malformed)
    } else {
        match spec_parse_string(s) {
            Err(e) => Err(e),
            Ok((key, rest)) => {
                let in_order = match prev {
                    Option::Some(p) => lex_lt(p, key),
                    Option::None => true,
                };
                if !in_order {
                    Err(DecodeError::Malformed)
                } else if rest.len() >= s.len() {
                    // a parsed string always consumes input; never reached
                    Err(DecodeError::Malformed)
                } else {
                    match spec_parse_value(rest, depth) {
                        Err(e) => Err(e),
                        Ok((v, rest2)) => {
                            if rest2.len() < s.len() {
                                match spec_parse_pairs(rest2, depth, Option::Some(key)) {
                                    Err(e) => Err(e),
                                    Ok((d, rest3)) => Ok((seq![(key, v)] + d, rest3)),
                                }
                            } else {
                                // a parsed value always consumes input; never reached
                                Err(DecodeError::Malformed)
                            }
                        },
                    }
                }
            },
        }
    }
}

/// What `decode` computes: one value parsed off the head of the buffer at
/// the standard depth bound, plus the unconsumed remainder.
pub open spec fn spec_decode(s: Seq<u8>) -> Result<(SpecValue, Seq<u8>), DecodeError> {
    spec_parse_value(s, MAX_DEPTH as nat)
}

/// What `spec_digits` produces: at least one byte, all digits, no leading
/// zero except for zero itself, and the decimal value it was built from.
proof fn lemma_spec_digits(n: nat)
    ensures
        spec_digits(n).len() >= 1,
        forall|i: int|
            0 <= i < spec_digits(n).len() ==> is_ascii_digit(#[trigger] spec_digits(n)[i]),
        digits_val(spec_digits(n)) == n,
        spec_digits(n)[0] == 48 ==> n == 0,
        (n < 10 <==> spec_digits(n).len() == 1),
    decreases n,
{
    if n < 10 {
        assert(spec_digits(n) =~= seq![(48 + n) as u8]);
        assert(spec_digits(n).drop_last() =~= Seq::<u8>::empty());
        assert(digits_val(Seq::<u8>::empty()) == 0);
        assert(spec_digits(n).last() == (48 + n) as u8);
        assert(digits_val(spec_digits(n)) == (10 * digits_val(spec_digits(n).drop_last()) + (
        spec_digits(n).last() - 48)) as nat);
    } else {
        lemma_spec_digits(n / 10);
        let ds = spec_digits(n);
        vstd::arithmetic::div_mod::lemma_fundamental_div_mod(n as int, 10);
        vstd::arithmetic::div_mod::lemma_mod_bound(n as int, 10);
        assert(ds =~= spec_digits(n / 10) + seq![(48 + n % 10) as u8]);
        assert(ds.drop_last() =~= spec_digits(n / 10));
        assert(ds.last() == (48 + n % 10) as u8);
        assert(n / 10 >= 1);
        assert(digits_val(ds) == 10 * (n / 10) + n % 10);
        assert(ds[0] == spec_digits(n / 10)[0]);
    }
}

/// A digit run followed by a non-digit (or by nothing) scans as exactly the
/// run.
proof fn lemma_digit_run_of(ds: Seq<u8>, rest: Seq<u8>)
    requires
        forall|i: int| 0 <= i < ds.len() ==> is_ascii_digit(#[trigger] ds[i]),
        rest.len() > 0 ==> !is_ascii_digit(rest[0]),
    ensures
        digit_run_len(ds + rest) == ds.len(),
    decreases ds.len(),
{
    if ds.len() == 0 {
        assert(ds + rest =~= rest);
    } else {
        assert((ds + rest).drop_first() =~= ds.drop_first() + rest);
        lemma_digit_run_of(ds.drop_first(), rest);
        assert((ds + rest)[0] == ds[0]);
    }
}

/// Parsing the canonical encoding of a byte string yields that byte string
/// and consumes exactly the encoding.
proof fn lemma_parse_encode_str(bs: Seq<u8>, rest: Seq<u8>)
    ensures
        spec_parse_string(spec_encode_str(bs) + rest) == Ok::<_, DecodeError>((bs, rest)),
        (spec_encode_str(bs) + rest).len() > 0,
        is_ascii_digit((spec_encode_str(bs) + rest)[0]),
{
    let ds = spec_digits(bs.len());
    lemma_spec_digits(bs.len());
    let s = spec_encode_str(bs) + rest;
    let tail = seq![58u8] + bs + rest;
    assert(s =~= ds + tail);
    lemma_digit_run_of(ds, tail);
    let k = digit_run_len(s) as int;
    assert(k == ds.len());
    assert(s[k] == tail[0]);
    assert(s[0] == ds[0]);
    assert(s.take(k) =~= ds);
    assert(k > 1 ==> s[0] != 48);
    let n = digits_val(s.take(k)) as int;
    assert(n == bs.len());
    assert(s.skip(k + 1) =~= bs + rest);
    assert((bs + rest).take(n) =~= bs);
    assert((bs + rest).skip(n) =~= rest);
}

/// The first byte of any encoding identifies the variant and is never the
/// terminator `e`.
proof fn lemma_encode_first_byte(v: SpecValue)
    ensures
        spec_encode(v).len() >= 1,
        spec_encode(v)[0] != 101,
        v is Str ==> is_ascii_digit(spec_encode(v)[0]),
        v is Int ==> spec_encode(v)[0] == 105,
        v is List ==> spec_encode(v)[0] == 108,
        v is Dict ==> spec_encode(v)[0] == 100,
{
    match v {
        SpecValue::Str(s) => {
            lemma_spec_digits(s.len());
            assert(spec_encode(v)[0] == spec_digits(s.len())[0]);
        },
        SpecValue::Int(i) => {
            assert(spec_encode(v)[0] == 105);
        },
        SpecValue::List(_) => {
            assert(spec_encode(v)[0] == 108);
        },
        SpecValue::Dict(_) => {
            assert(spec_encode(v)[0] == 100);
        },
    }
}

/// Round trip, generalized over a trailing remainder: parsing the canonical
/// encoding of a canonical value followed by any further bytes returns
/// exactly that value and those bytes, under any sufficient depth budget.
pub proof fn lemma_parse_encode_value(v: SpecValue, rest: Seq<u8>, budget: nat)
    requires
        canonical(v),
        depth(v) <= budget,
    ensures
        spec_parse_value(spec_encode(v) + rest, budget) == Ok::<_, DecodeError>((v, rest)),
    decreases v,
{
    let s = spec_encode(v) + rest;
    lemma_encode_first_byte(v);
    assert(s[0] == spec_encode(v)[0]);
    match v {
        SpecValue::Str(bs) => {
            lemma_parse_encode_str(bs, rest);
            assert(s =~= spec_encode_str(bs) + rest);
            assert(s[0] != 105);
        },
        SpecValue::Int(i) => {
            let mag: nat = if i < 0 {
                (-i) as nat
            } else {
                i as nat
            };
            lemma_spec_digits(mag);
            let ds = spec_digits(mag);
            let tail = seq![101u8] + rest;
            lemma_digit_run_of(ds, tail);
            if i < 0 {
                assert(spec_encode(v) =~= seq![105u8, 45u8] + ds + seq![101u8]);
                let t = s.drop_first();
                assert(t =~= seq![45u8] + ds + tail);
                assert(t[0] == 45);
                let u = t.drop_first();
                assert(u =~= ds + tail);
                let k = digit_run_len(u) as int;
                assert(k == ds.len());
                assert(u[k] == tail[0]);
                assert(u[0] == ds[0]);
                assert(u.take(k) =~= ds);
                assert(digits_val(u.take(k)) == mag);
                assert(mag > 0);
                assert(u[0] == 48 ==> mag == 0);
                assert(k > 1 ==> u[0] != 48);
                assert(mag <= 0x8000000000000000);
                assert(u.skip(k + 1) =~= rest);
                assert(spec_parse_int(s) == Ok::<_, DecodeError>((SpecValue::Int(-(mag as int)), rest)));
                assert(-(mag as int) == i);
            } else {
                assert(spec_encode(v) =~= seq![105u8] + ds + seq![101u8]);
                let t = s.drop_first();
                assert(t =~= ds + tail);
                assert(t[0] == ds[0]);
                assert(is_ascii_digit(t[0]));
                assert(t[0] != 45);
                let u = t;
                let k = digit_run_len(u) as int;
                assert(k == ds.len());
                assert(u[k] == tail[0]);
                assert(u.take(k) =~= ds);
                assert(digits_val(u.take(k)) == mag);
                assert(k > 1 ==> u[0] != 48);
                assert(mag <= i64::MAX);
                assert(u.skip(k + 1) =~= rest);
                assert(spec_parse_int(s) == Ok::<_, DecodeError>((SpecValue::Int(mag as int), rest)));
                assert(mag as int == i);
            }
        },
        SpecValue::List(l) => {
            assert(s[0] == 108);
            assert(!is_ascii_digit(s[0]));
            assert(depth(v) == 1 + depth_of_elems(l));
            assert(budget >= 1);
            assert(canonical_elems(l));
            lemma_parse_encode_elems(l, rest, (budget - 1) as nat);
            assert(s.drop_first() =~= spec_encode_elems(l) + seq![101u8] + rest);
        },
        SpecValue::Dict(d) => {
            assert(s[0] == 100);
            assert(!is_ascii_digit(s[0]));
            assert(depth(v) == 1 + depth_of_pairs(d));
            assert(budget >= 1);
            assert(canonical_pairs(d) && keys_ascending(d));
            lemma_parse_encode_pairs(d, Option::None, rest, (budget - 1) as nat);
            assert(s.drop_first() =~= spec_encode_pairs(d) + seq![101u8] + rest);
        },
    }
}

/// Round trip for a list body: parsing the concatenated encodings of its
/// elements, the closing `e`, and any further bytes returns exactly those
/// elements, in their original order, and those bytes.
pub proof fn lemma_parse_encode_elems(l: Seq<SpecValue>, rest: Seq<u8>, budget: nat)
    requires
        canonical_elems(l),
        depth_of_elems(l) <= budget,
    ensures
        spec_parse_elems(spec_encode_elems(l) + seq![101u8] + rest, budget) == Ok::<
            _,
            DecodeError,
        >((l, rest)),
    decreases l,
{
    let s = spec_encode_elems(l) + seq![101u8] + rest;
    if l.len() == 0 {
        assert(s =~= seq![101u8] + rest);
        assert(s[0] == 101);
        assert(s.drop_first() =~= rest);
        assert(l =~= Seq::<SpecValue>::empty());
    } else {
        let hd = l[0];
        let tl = l.drop_first();
        let enc_rest = spec_encode_elems(tl) + seq![101u8] + rest;
        assert(spec_encode_elems(l) == spec_encode(hd) + spec_encode_elems(tl));
        assert(s =~= spec_encode(hd) + enc_rest);
        lemma_encode_first_byte(hd);
        assert(s[0] == spec_encode(hd)[0]);
        assert(s[0] != 101);
        assert(depth(hd) <= depth_of_elems(l));
        lemma_parse_encode_value(hd, enc_rest, budget);
        assert(spec_parse_value(s, budget) == Ok::<_, DecodeError>((hd, enc_rest)));
        assert(enc_rest.len() < s.len());
        lemma_parse_encode_elems(tl, rest, budget);
        assert(seq![hd] + tl =~= l);
    }
}

/// Round trip for a dictionary body: parsing the concatenated key/value
/// encodings, the closing `e`, and any further bytes returns the pairs and
/// those bytes, provided the keys ascend strictly past `prev`.
#[verifier::rlimit(50)]
pub proof fn lemma_parse_encode_pairs(
    d: Seq<(Seq<u8>, SpecValue)>,
    prev: Option<Seq<u8>>,
    rest: Seq<u8>,
    budget: nat,
)
    requires
        canonical_pairs(d),
        keys_ascending(d),
        depth_of_pairs(d) <= budget,
        match prev {
            Option::Some(p) => d.len() > 0 ==> lex_lt(p, d[0].0),
            Option::None => true,
        },
    ensures
        spec_parse_pairs(spec_encode_pairs(d) + seq![101u8] + rest, budget, prev) == Ok::<
            _,
            DecodeError,
        >((d, rest)),
    decreases d,
{
    let s = spec_encode_pairs(d) + seq![101u8] + rest;
    if d.len() == 0 {
        assert(s =~= seq![101u8] + rest);
        assert(s[0] == 101);
        assert(s.drop_first() =~= rest);
        assert(d =~= Seq::<(Seq<u8>, SpecValue)>::empty());
    } else {
        let key = d[0].0;
        let hd = d[0].1;
        let tl = d.drop_first();
        let after_key = spec_encode(hd) + spec_encode_pairs(tl) + seq![101u8] + rest;
        let after_val = spec_encode_pairs(tl) + seq![101u8] + rest;
        assert(spec_encode_pairs(d) == spec_encode_str(key) + spec_encode(hd)
            + spec_encode_pairs(tl));
        assert(s =~= spec_encode_str(key) + after_key);
        lemma_parse_encode_str(key, after_key);
        assert(s[0] == (spec_encode_str(key) + after_key)[0]);
        assert(is_ascii_digit(s[0]));
        assert(s[0] != 101);
        assert(spec_parse_string(s) == Ok::<_, DecodeError>((key, after_key)));
        assert(after_key.len() < s.len());
        assert(depth(hd) <= depth_of_pairs(d));
        assert(canonical(hd));
        lemma_parse_encode_value(hd, after_val, budget);
        assert(after_key =~= spec_encode(hd) + after_val);
        assert(spec_parse_value(after_key, budget) == Ok::<_, DecodeError>((hd, after_val)));
        lemma_encode_first_byte(hd);
        assert(after_val.len() < s.len());
        if tl.len() > 0 {
            assert(tl[0] == d[1]);
            assert(lex_lt(key, tl[0].0));
        }
        lemma_parse_encode_pairs(tl, Option::Some(key), rest, budget);
        assert(seq![(key, hd)] + tl =~= d);
    }
}

/// Round trip: decoding the canonical encoding of any canonical value whose
/// nesting stays within the depth bound yields that value back, with an
/// empty remainder.
pub proof fn lemma_round_trip(v: SpecValue)
    requires
        canonical(v),
        depth(v) <= MAX_DEPTH,
    ensures
        spec_decode(spec_encode(v)) == Ok::<_, DecodeError>((v, Seq::<u8>::empty())),
{
    lemma_parse_encode_value(v, Seq::<u8>::empty(), MAX_DEPTH as nat);
    assert(spec_encode(v) + Seq::<u8>::empty() =~= spec_encode(v));
}

/// A digit run is made of digits: the first `digit_run_len(s)` bytes of `s`
/// are ASCII digits.
proof fn lemma_digit_run_digits(s: Seq<u8>)
    ensures
        digit_run_len(s) <= s.len(),
        forall|i: int| 0 <= i < digit_run_len(s) ==> is_ascii_digit(#[trigger] s[i]),
    decreases s.len(),
{
    if s.len() > 0 && is_ascii_digit(s[0]) {
        lemma_digit_run_digits(s.drop_first());
        assert forall|i: int| 0 <= i < digit_run_len(s) implies is_ascii_digit(#[trigger] s[i]) by {
            if i > 0 {
                assert(s.drop_first()[i - 1] == s[i]);
            }
        }
    }
}

/// A digit run with no leading zero has a positive value.
proof fn lemma_digits_val_pos(ds: Seq<u8>)
    requires
        forall|i: int| 0 <= i < ds.len() ==> is_ascii_digit(#[trigger] ds[i]),
        ds.len() >= 1,
        ds[0] != 48,
    ensures
        digits_val(ds) >= 1,
    decreases ds.len(),
{
    if ds.len() > 1 {
        lemma_digits_val_pos(ds.drop_last());
    }
}

/// Decimal representations are unique: rebuilding the digits of the value
/// of a digit run without a leading zero gives that run back.
proof fn lemma_digits_unique(ds: Seq<u8>)
    requires
        forall|i: int| 0 <= i < ds.len() ==> is_ascii_digit(#[trigger] ds[i]),
        ds.len() >= 1,
        ds.len() > 1 ==> ds[0] != 48,
    ensures
        spec_digits(digits_val(ds)) == ds,
    decreases ds.len(),
{
    if ds.len() == 1 {
        assert(ds.drop_last() =~= Seq::<u8>::empty());
        assert(digits_val(Seq::<u8>::empty()) == 0);
        assert(ds.last() == ds[0]);
        assert(digits_val(ds) == (ds[0] - 48) as nat);
        assert(spec_digits(digits_val(ds)) =~= ds);
    } else {
        let q = digits_val(ds.drop_last());
        let r = ds.last() - 48;
        assert(digits_val(ds) == (10 * q + r) as nat);
        assert(ds.drop_last()[0] == ds[0]);
        lemma_digits_val_pos(ds.drop_last());
        assert(digits_val(ds) >= 10);
        vstd::arithmetic::div_mod::lemma_fundamental_div_mod_converse(
            digits_val(ds) as int,
            10,
            q as int,
            r as int,
        );
        lemma_digits_unique(ds.drop_last());
        assert(spec_digits(digits_val(ds)) == spec_digits(q) + seq![(48 + r) as u8]);
        assert(spec_digits(q) + seq![(48 + r) as u8] =~= ds);
    }
}

/// Soundness of the byte-string parser: whatever it accepts is the canonical
/// encoding of the returned string followed by the returned remainder.
proof fn lemma_parse_string_sound(s: Seq<u8>)
    requires
        spec_parse_string(s) is Ok,
    ensures
        ({
            let (b, rest) = spec_parse_string(s)->Ok_0;
            s == spec_encode_str(b) + rest
        }),
{
    let (b, rest) = spec_parse_string(s)->Ok_0;
    let k = digit_run_len(s) as int;
    let n = digits_val(s.take(k)) as int;
    let body = s.skip(k + 1);
    lemma_digit_run_digits(s);
    assert forall|i: int| 0 <= i < s.take(k).len() implies is_ascii_digit(
        #[trigger] s.take(k)[i],
    ) by {
        assert(s.take(k)[i] == s[i]);
    }
    assert(s.take(k)[0] == s[0]);
    lemma_digits_unique(s.take(k));
    assert(b =~= body.take(n));
    assert(b.len() == n);
    assert(spec_encode_str(b) == s.take(k) + seq![58u8] + b);
    assert(s[k] == 58);
    assert(s =~= s.take(k) + seq![s[k]] + body);
    assert(body =~= body.take(n) + body.skip(n));
    assert(s =~= spec_encode_str(b) + rest);
}

/// Soundness of the integer parser: whatever it accepts is the canonical
/// encoding of the returned integer followed by the returned remainder.
proof fn lemma_parse_int_sound(s: Seq<u8>)
    requires
        s.len() > 0,
        s[0] == 105,
        spec_parse_int(s) is Ok,
    ensures
        ({
            let (v, rest) = spec_parse_int(s)->Ok_0;
            canonical(v) && v is Int && s == spec_encode(v) + rest
        }),
{
    let (v, rest) = spec_parse_int(s)->Ok_0;
    let t = s.drop_first();
    let neg = t.len() > 0 && t[0] == 45;
    let u = if neg {
        t.drop_first()
    } else {
        t
    };
    let k = digit_run_len(u) as int;
    let n = digits_val(u.take(k)) as int;
    lemma_digit_run_digits(u);
    assert forall|i: int| 0 <= i < u.take(k).len() implies is_ascii_digit(
        #[trigger] u.take(k)[i],
    ) by {
        assert(u.take(k)[i] == u[i]);
    }
    assert(u.take(k)[0] == u[0]);
    lemma_digits_unique(u.take(k));
    assert(u[k] == 101);
    assert(u =~= u.take(k) + seq![u[k]] + u.skip(k + 1));
    if neg {
        lemma_digits_val_pos(u.take(k));
        assert(n >= 1);
        assert(v == SpecValue::Int(-n));
        assert(spec_encode(v) == seq![105u8, 45u8] + spec_digits(n as nat) + seq![101u8]);
        assert(s =~= seq![105u8, 45u8] + u);
        assert(s =~= spec_encode(v) + rest);
    } else {
        assert(v == SpecValue::Int(n));
        assert(spec_encode(v) == seq![105u8] + spec_digits(n as nat) + seq![101u8]);
        assert(s =~= seq![105u8] + u);
        assert(s =~= spec_encode(v) + rest);
    }
}

/// Soundness of the value parser: whatever it accepts is canonical, within
/// the depth budget, and equals its own canonical re-encoding followed by
/// the returned remainder.
pub proof fn lemma_parse_value_sound(s: Seq<u8>, budget: nat)
    requires
        spec_parse_value(s, budget) is Ok,
    ensures
        ({
            let (v, rest) = spec_parse_value(s, budget)->Ok_0;
            canonical(v) && depth(v) <= budget && s == spec_encode(v) + rest
        }),
    decreases s.len(), 0int,
{
    let (v, rest) = spec_parse_value(s, budget)->Ok_0;
    if s[0] == 105 {
        lemma_parse_int_sound(s);
    } else if is_ascii_digit(s[0]) {
        lemma_parse_string_sound(s);
    } else if s[0] == 108 {
        lemma_parse_elems_sound(s.drop_first(), (budget - 1) as nat);
        let (l, r) = spec_parse_elems(s.drop_first(), (budget - 1) as nat)->Ok_0;
        assert(v == SpecValue::List(l));
        assert(spec_encode(v) == seq![108u8] + spec_encode_elems(l) + seq![101u8]);
        assert(s =~= seq![108u8] + s.drop_first());
        assert(s =~= spec_encode(v) + rest);
    } else {
        lemma_parse_pairs_sound(s.drop_first(), (budget - 1) as nat, Option::None);
        let (d, r) = spec_parse_pairs(s.drop_first(), (budget - 1) as nat, Option::None)->Ok_0;
        assert(v == SpecValue::Dict(d));
        assert(spec_encode(v) == seq![100u8] + spec_encode_pairs(d) + seq![101u8]);
        assert(s =~= seq![100u8] + s.drop_first());
        assert(s =~= spec_encode(v) + rest);
    }
}

/// Soundness of the list-body parser.
#[verifier::rlimit(100)]
pub proof fn lemma_parse_elems_sound(s: Seq<u8>, budget: nat)
    requires
        spec_parse_elems(s, budget) is Ok,
    ensures
        ({
            let (l, rest) = spec_parse_elems(s, budget)->Ok_0;
            canonical_elems(l) && depth_of_elems(l) <= budget && s == spec_encode_elems(l)
                + seq![101u8] + rest
        }),
    decreases s.len(), 1int,
{
    let (l, rest) = spec_parse_elems(s, budget)->Ok_0;
    if s[0] == 101 {
        assert(l =~= Seq::<SpecValue>::empty());
        assert(s =~= seq![101u8] + s.drop_first());
        assert(spec_encode_elems(l) + seq![101u8] + rest =~= s);
    } else {
        lemma_parse_value_sound(s, budget);
        let (v, r1) = spec_parse_value(s, budget)->Ok_0;
        lemma_parse_elems_sound(r1, budget);
        let (l2, r2) = spec_parse_elems(r1, budget)->Ok_0;
        assert(l == seq![v] + l2);
        assert(l[0] == v);
        assert(l.drop_first() =~= l2);
        assert(canonical_elems(l));
        assert(spec_encode_elems(l) == spec_encode(v) + spec_encode_elems(l2));
        assert(s =~= (spec_encode(v) + spec_encode_elems(l2)) + seq![101u8] + rest);
    }
}

/// Soundness of the dictionary-body parser: the pairs are canonical, the
/// keys ascend strictly, and the first key lies past `prev`.
#[verifier::rlimit(100)]
pub proof fn lemma_parse_pairs_sound(s: Seq<u8>, budget: nat, prev: Option<Seq<u8>>)
    requires
        spec_parse_pairs(s, budget, prev) is Ok,
    ensures
        ({
            let (d, rest) = spec_parse_pairs(s, budget, prev)->Ok_0;
            &&& canonical_pairs(d)
            &&& keys_ascending(d)
            &&& depth_of_pairs(d) <= budget
            &&& s == spec_encode_pairs(d) + seq![101u8] + rest
            &&& (match prev {
                Option::Some(p) => d.len() > 0 ==> lex_lt(p, d[0].0),
                Option::None => true,
            })
        }),
    decreases s.len(), 1int,
{
    let (d, rest) = spec_parse_pairs(s, budget, prev)->Ok_0;
    if s[0] == 101 {
        assert(d =~= Seq::<(Seq<u8>, SpecValue)>::empty());
        assert(s =~= seq![101u8] + s.drop_first());
        assert(spec_encode_pairs(d) + seq![101u8] + rest =~= s);
    } else {
        lemma_parse_string_sound(s);
        let (key, r1) = spec_parse_string(s)->Ok_0;
        lemma_parse_value_sound(r1, budget);
        let (v, r2) = spec_parse_value(r1, budget)->Ok_0;
        lemma_parse_pairs_sound(r2, budget, Option::Some(key));
        let (d2, r3) = spec_parse_pairs(r2, budget, Option::Some(key))->Ok_0;
        assert(d == seq![(key, v)] + d2);
        assert(d[0] == (key, v));
        assert(d.drop_first() =~= d2);
        assert(canonical_pairs(d));
        if d2.len() > 0 {
            assert(d[1] == d2[0]);
            assert(lex_lt(d[0].0, d[1].0));
        }
        assert(keys_ascending(d));
        assert(spec_encode_pairs(d) == spec_encode_str(key) + spec_encode(v)
            + spec_encode_pairs(d2));
        assert(s =~= ((spec_encode_str(key) + spec_encode(v)) + spec_encode_pairs(d2))
            + seq![101u8] + rest);
    }
}

/// The inverse round trip: whatever decodes is canonical and re-encodes to
/// exactly the bytes it was decoded from (less the returned remainder). In
/// particular, re-encoding a fully decoded buffer reproduces it byte for
/// byte.
pub proof fn lemma_encode_of_decode(s: Seq<u8>)
    requires
        spec_decode(s) is Ok,
    ensures
        ({
            let (v, rest) = spec_decode(s)->Ok_0;
            canonical(v) && depth(v) <= MAX_DEPTH && s == spec_encode(v) + rest
        }),
{
    lemma_parse_value_sound(s, MAX_DEPTH as nat);
}

/// Canonical ingest of dictionaries: any dictionary the decoder accepts
/// has strictly ascending, hence unique, keys — a document whose keys are
/// repeated or out of order in the source bytes is never decoded.
pub proof fn lemma_decoded_dict_keys_ascending(s: Seq<u8>)
    requires
        spec_decode(s) is Ok,
        spec_decode(s)->Ok_0.0 is Dict,
    ensures
        keys_ascending(spec_decode(s)->Ok_0.0->Dict_0),
{
    lemma_parse_value_sound(s, MAX_DEPTH as nat);
}

/// Appending one element to a list body encodes as the old body followed by
/// the element's encoding.
proof fn lemma_encode_elems_push(l: Seq<SpecValue>, x: SpecValue)
    ensures
        spec_encode_elems(l.push(x)) == spec_encode_elems(l) + spec_encode(x),
    decreases l.len(),
{
    if l.len() == 0 {
        let s = l.push(x);
        assert(s.drop_first() =~= Seq::<SpecValue>::empty());
        assert(spec_encode_elems(s.drop_first()) == Seq::<u8>::empty());
        assert(spec_encode_elems(s) == spec_encode(x) + Seq::<u8>::empty());
        assert(spec_encode(x) + Seq::<u8>::empty() =~= spec_encode(x));
        assert(spec_encode_elems(l) == Seq::<u8>::empty());
        assert(Seq::<u8>::empty() + spec_encode(x) =~= spec_encode(x));
    } else {
        assert(l.push(x).drop_first() =~= l.drop_first().push(x));
        lemma_encode_elems_push(l.drop_first(), x);
        assert(l.push(x)[0] == l[0]);
        assert(spec_encode_elems(l.push(x)) == spec_encode(l[0]) + (spec_encode_elems(
            l.drop_first(),
        ) + spec_encode(x)));
        assert(spec_encode(l[0]) + (spec_encode_elems(l.drop_first()) + spec_encode(x)) =~= (
        spec_encode(l[0]) + spec_encode_elems(l.drop_first())) + spec_encode(x));
    }
}

/// Appending one pair to a dictionary body encodes as the old body followed
/// by the key's and the value's encodings.
proof fn lemma_encode_pairs_push(d: Seq<(Seq<u8>, SpecValue)>, p: (Seq<u8>, SpecValue))
    ensures
        spec_encode_pairs(d.push(p)) == spec_encode_pairs(d) + spec_encode_str(p.0)
            + spec_encode(p.1),
    decreases d.len(),
{
    if d.len() == 0 {
        let s = d.push(p);
        assert(s.drop_first() =~= Seq::<(Seq<u8>, SpecValue)>::empty());
        assert(spec_encode_pairs(s.drop_first()) == Seq::<u8>::empty());
        assert(spec_encode_pairs(s) == spec_encode_str(p.0) + spec_encode(p.1)
            + Seq::<u8>::empty());
        assert(spec_encode_str(p.0) + spec_encode(p.1) + Seq::<u8>::empty() =~= spec_encode_str(
            p.0,
        ) + spec_encode(p.1));
        assert(spec_encode_pairs(d) == Seq::<u8>::empty());
        assert(Seq::<u8>::empty() + spec_encode_str(p.0) + spec_encode(p.1) =~= spec_encode_str(
            p.0,
        ) + spec_encode(p.1));
    } else {
        assert(d.push(p).drop_first() =~= d.drop_first().push(p));
        lemma_encode_pairs_push(d.drop_first(), p);
        assert(d.push(p)[0] == d[0]);
        assert(spec_encode_pairs(d.push(p)) == spec_encode_str(d[0].0) + spec_encode(d[0].1) + ((
        spec_encode_pairs(d.drop_first()) + spec_encode_str(p.0)) + spec_encode(p.1)));
        assert(spec_encode_str(d[0].0) + spec_encode(d[0].1) + ((spec_encode_pairs(
            d.drop_first(),
        ) + spec_encode_str(p.0)) + spec_encode(p.1)) =~= ((spec_encode_str(d[0].0) + spec_encode(
            d[0].1,
        ) + spec_encode_pairs(d.drop_first())) + spec_encode_str(p.0)) + spec_encode(p.1));
    }
}

/// A digit run keeps its value when digits are appended: the value of any
/// prefix is at most the value of the whole run.
proof fn lemma_digits_val_prefix(s: Seq<u8>, j: int)
    requires
        0 <= j <= s.len(),
        forall|i: int| 0 <= i < s.len() ==> is_ascii_digit(#[trigger] s[i]),
    ensures
        digits_val(s.take(j)) <= digits_val(s),
    decreases s.len(),
{
    if j < s.len() {
        assert(s.drop_last().take(j) =~= s.take(j));
        lemma_digits_val_prefix(s.drop_last(), j);
    } else {
        assert(s.take(j) =~= s);
    }
}

/// The position just past the longest all-digit run starting at `pos`.
fn digit_run_end(src: &[u8], pos: usize) -> (end: usize)
    requires
        pos <= src@.len(),
    ensures
        pos <= end <= src@.len(),
        end - pos == digit_run_len(src@.skip(pos as int)),
        forall|i: int| pos <= i < end ==> is_ascii_digit(#[trigger] src@[i]),
        end < src@.len() ==> !is_ascii_digit(src@[end as int]),
{
    let len = src.len();
    let mut end = pos;
    while end < len
        invariant
            pos <= end <= len == src@.len(),
            digit_run_len(src@.skip(pos as int)) == (end - pos) + digit_run_len(
                src@.skip(end as int),
            ),
            forall|i: int| pos <= i < end ==> is_ascii_digit(#[trigger] src@[i]),
        decreases len - end,
    {
        let b = src[end];
        if !(48 <= b && b <= 57) {
            proof {
                assert(digit_run_len(src@.skip(end as int)) == 0);
            }
            return end;
        }
        proof {
            assert(src@.skip(end as int).drop_first() =~= src@.skip(end + 1));
        }
        end = end + 1;
    }
    proof {
        assert(src@.skip(end as int).len() == 0);
    }
    end
}

/// The decimal value of the all-digit range `[start, end)`, or `None` when
/// it does not fit a `u64`.
fn digits_value(src: &[u8], start: usize, end: usize) -> (r: Option<u64>)
    requires
        start <= end <= src@.len(),
        forall|i: int| start <= i < end ==> is_ascii_digit(#[trigger] src@[i]),
    ensures
        ({
            let ds = src@.subrange(start as int, end as int);
            match r {
                Some(n) => n as nat == digits_val(ds),
                None => digits_val(ds) > u64::MAX,
            }
        }),
{
    let mut acc: u64 = 0;
    let mut i = start;
    proof {
        assert(src@.subrange(start as int, start as int) =~= Seq::<u8>::empty());
    }
    while i < end
        invariant
            start <= i <= end <= src@.len(),
            forall|j: int| start <= j < end ==> is_ascii_digit(#[trigger] src@[j]),
            acc as nat == digits_val(src@.subrange(start as int, i as int)),
        decreases end - i,
    {
        let d = src[i] - 48;
        let dd = d as u64;
        let ghost cur = src@.subrange(start as int, i as int);
        let ghost next = src@.subrange(start as int, i + 1);
        proof {
            assert(next.drop_last() =~= cur);
            assert(next.last() == src@[i as int]);
            assert(digits_val(next) == 10 * digits_val(cur) + (src@[i as int] - 48));
        }
        if acc > (u64::MAX - dd) / 10 {
            proof {
                let m = u64::MAX as int;
                let q = (m - dd) / 10;
                vstd::arithmetic::div_mod::lemma_fundamental_div_mod(m - dd, 10);
                vstd::arithmetic::div_mod::lemma_mod_bound(m - dd, 10);
                assert(m - dd == 10 * q + (m - dd) % 10);
                assert(10 * (acc as int) + dd > m);
                assert(digits_val(next) > u64::MAX);
                let whole = src@.subrange(start as int, end as int);
                assert(forall|x: int| 0 <= x < whole.len() ==> is_ascii_digit(#[trigger] whole[x]));
                lemma_digits_val_prefix(whole, i + 1 - start);
                assert(whole.take(i + 1 - start) =~= next);
            }
            return None;
        }
        proof {
            let m = u64::MAX as int;
            let q = (m - dd) / 10;
            vstd::arithmetic::div_mod::lemma_fundamental_div_mod(m - dd, 10);
            vstd::arithmetic::div_mod::lemma_mod_bound(m - dd, 10);
            assert(m - dd == 10 * q + (m - dd) % 10);
            assert(acc as int <= q);
            assert(10 * (acc as int) <= 10 * q) by (nonlinear_arith)
                requires
                    acc as int <= q,
            ;
            assert(10 * (acc as int) + dd <= m);
        }
        acc = acc * 10 + dd;
        i = i + 1;
    }
    Some(acc)
}

/// Parse a byte-string term starting at `pos`: length prefix, `:`, bytes.
fn parse_string(src: &[u8], pos: usize) -> (r: Result<(Vec<u8>, usize), DecodeError>)
    requires
        pos <= src@.len(),
    ensures
        ({
            let s = src@.skip(pos as int);
            match r {
                Ok((b, end)) => pos < end <= src@.len() && spec_parse_string(s) == Ok::<
                    _,
                    DecodeError,
                >((b@, src@.skip(end as int))),
                Err(e) => spec_parse_string(s) == Err::<(Seq<u8>, Seq<u8>), _>(e),
            }
        }),
{
    let ghost s = src@.skip(pos as int);
    let run_end = digit_run_end(src, pos);
    let ghost k = (run_end - pos) as int;
    if run_end == pos {
        return Err(DecodeError::Malformed);
    }
    proof {
        assert(s[0] == src@[pos as int]);
    }
    if run_end - pos > 1 && src[pos] == 48 {
        return Err(DecodeError::Malformed);
    }
    if run_end == src.len() {
        return Err(DecodeError::Incomplete);
    }
    proof {
        assert(s[k] == src@[run_end as int]);
    }
    if src[run_end] != 58 {
        return Err(DecodeError::Malformed);
    }
    let ghost ds = src@.subrange(pos as int, run_end as int);
    proof {
        assert(ds =~= s.take(k));
    }
    let body_start = run_end + 1;
    proof {
        assert(s.skip(k + 1) =~= src@.skip(body_start as int));
    }
    match digits_value(src, pos, run_end) {
        None => {
            proof {
                assert(src@.skip(body_start as int).len() <= u64::MAX);
            }
            Err(DecodeError::Incomplete)
        },
        Some(n) => {
            let avail = src.len() - body_start;
            if n > avail as u64 {
                return Err(DecodeError::Incomplete);
            }
            let body_end = body_start + (n as usize);
            let bytes = vstd::slice::slice_to_vec(
                vstd::slice::slice_subrange(src, body_start, body_end),
            );
            proof {
                assert(src@.skip(body_start as int).take(n as int) =~= src@.subrange(
                    body_start as int,
                    body_end as int,
                ));
                assert(src@.skip(body_start as int).skip(n as int) =~= src@.skip(body_end as int));
            }
            Ok((bytes, body_end))
        },
    }
}

/// Parse an integer term starting at `pos` (whose byte is `i`).
fn parse_int(src: &[u8], pos: usize) -> (r: Result<(i64, usize), DecodeError>)
    requires
        pos < src@.len(),
        src@[pos as int] == 105,
    ensures
        ({
            let s = src@.skip(pos as int);
            match r {
                Ok((v, end)) => pos < end <= src@.len() && spec_parse_int(s) == Ok::<
                    _,
                    DecodeError,
                >((SpecValue::Int(v as int), src@.skip(end as int))),
                Err(e) => spec_parse_int(s) == Err::<(SpecValue, Seq<u8>), _>(e),
            }
        }),
{
    let ghost s = src@.skip(pos as int);
    let len = src.len();
    proof {
        assert(s.drop_first() =~= src@.skip(pos + 1));
    }
    let neg = pos + 1 < len && src[pos + 1] == 45;
    let num_start = if neg {
        pos + 2
    } else {
        pos + 1
    };
    let ghost u = src@.skip(num_start as int);
    proof {
        if neg {
            assert(src@.skip(pos + 1).drop_first() =~= src@.skip(pos + 2));
        }
        if pos + 1 < src@.len() {
            assert(src@.skip(pos + 1)[0] == src@[pos + 1]);
        }
    }
    if num_start == src.len() {
        return Err(DecodeError::Incomplete);
    }
    let run_end = digit_run_end(src, num_start);
    let ghost k = (run_end - num_start) as int;
    proof {
        assert(u[0] == src@[num_start as int]);
    }
    if run_end == num_start {
        return Err(DecodeError::Malformed);
    }
    if neg && src[num_start] == 48 {
        return Err(DecodeError::Malformed);
    }
    if run_end - num_start > 1 && src[num_start] == 48 {
        return Err(DecodeError::Malformed);
    }
    let ghost ds = src@.subrange(num_start as int, run_end as int);
    proof {
        assert(ds =~= u.take(k));
    }
    match digits_value(src, num_start, run_end) {
        None => Err(DecodeError::Malformed),
        Some(n) => {
            if neg && n > 0x8000000000000000u64 {
                return Err(DecodeError::Malformed);
            }
            if !neg && n > i64::MAX as u64 {
                return Err(DecodeError::Malformed);
            }
            if run_end == src.len() {
                return Err(DecodeError::Incomplete);
            }
            proof {
                assert(u[k] == src@[run_end as int]);
            }
            if src[run_end] != 101 {
                return Err(DecodeError::Malformed);
            }
            let end = run_end + 1;
            proof {
                assert(u.skip(k + 1) =~= src@.skip(end as int));
            }
            if neg {
                if n == 0x8000000000000000u64 {
                    Ok((i64::MIN, end))
                } else {
                    Ok((-(n as i64), end))
                }
            } else {
                Ok((n as i64, end))
            }
        },
    }
}

/// The abstraction of the previous-key argument threaded through the
/// dictionary parser.
pub open spec fn opt_key_view(prev: Option<&Vec<u8>>) -> Option<Seq<u8>> {
    match prev {
        Option::Some(p) => Option::Some(p@),
        Option::None => Option::None,
    }
}

/// Parse one value starting at `pos`, with a budget of `depth` further
/// nesting levels.
fn parse_value(src: &[u8], pos: usize, depth: u32) -> (r: Result<(Value, usize), DecodeError>)
    requires
        pos <= src@.len(),
    ensures
        ({
            let s = src@.skip(pos as int);
            match r {
                Ok((v, end)) => pos < end <= src@.len() && spec_parse_value(s, depth as nat)
                    == Ok::<_, DecodeError>((v@, src@.skip(end as int))),
                Err(e) => spec_parse_value(s, depth as nat) == Err::<(SpecValue, Seq<u8>), _>(e),
            }
        }),
    decreases src@.len() - pos, 0int,
{
    let ghost s = src@.skip(pos as int);
    if pos == src.len() {
        return Err(DecodeError::Incomplete);
    }
    let b = src[pos];
    proof {
        assert(s[0] == b);
    }
    if b == 105 {
        match parse_int(src, pos) {
            Ok((v, end)) => Ok((Value::Integer(v), end)),
            Err(e) => Err(e),
        }
    } else if 48 <= b && b <= 57 {
        match parse_string(src, pos) {
            Ok((bs, end)) => Ok((Value::String(bs), end)),
            Err(e) => Err(e),
        }
    } else if b == 108 {
        if depth == 0 {
            return Err(DecodeError::Malformed);
        }
        proof {
            assert(s.drop_first() =~= src@.skip(pos + 1));
        }
        match parse_elems(src, pos + 1, depth - 1) {
            Ok((l, end)) => Ok((Value::List(l), end)),
            Err(e) => Err(e),
        }
    } else if b == 100 {
        if depth == 0 {
            return Err(DecodeError::Malformed);
        }
        proof {
            assert(s.drop_first() =~= src@.skip(pos + 1));
        }
        match parse_pairs(src, pos + 1, depth - 1, Option::None) {
            Ok((d, end)) => Ok((Value::Dictionary(d), end)),
            Err(e) => Err(e),
        }
    } else {
        Err(DecodeError::Malformed)
    }
}

/// Parse the elements of a list body, through the closing `e`.
fn parse_elems(src: &[u8], pos: usize, depth: u32) -> (r: Result<
    (Vec<Value>, usize),
    DecodeError,
>)
    requires
        pos <= src@.len(),
    ensures
        ({
            let s = src@.skip(pos as int);
            match r {
                Ok((l, end)) => pos < end <= src@.len() && spec_parse_elems(s, depth as nat)
                    == Ok::<_, DecodeError>((seq_view(l@), src@.skip(end as int))),
                Err(e) => spec_parse_elems(s, depth as nat) == Err::<
                    (Seq<SpecValue>, Seq<u8>),
                    _,
                >(e),
            }
        }),
    decreases src@.len() - pos, 1int,
{
    let ghost s = src@.skip(pos as int);
    if pos == src.len() {
        return Err(DecodeError::Incomplete);
    }
    let b = src[pos];
    proof {
        assert(s[0] == b);
    }
    if b == 101 {
        proof {
            assert(s.drop_first() =~= src@.skip(pos + 1));
            assert(seq_view(Seq::<Value>::empty()) =~= Seq::<SpecValue>::empty());
        }
        return Ok((Vec::new(), pos + 1));
    }
    match parse_value(src, pos, depth) {
        Err(e) => Err(e),
        Ok((v, end)) => {
            match parse_elems(src, end, depth) {
                Err(e) => Err(e),
                Ok((mut l, end2)) => {
                    let ghost lv = l@;
                    let ghost vv = v@;
                    l.insert(0, v);
                    proof {
                        assert(seq_view(l@) =~= seq![vv] + seq_view(lv));
                    }
                    Ok((l, end2))
                },
            }
        },
    }
}

/// Parse the key/value pairs of a dictionary body, through the closing `e`,
/// rejecting keys that do not ascend strictly past `prev`.
fn parse_pairs(src: &[u8], pos: usize, depth: u32, prev: Option<&Vec<u8>>) -> (r: Result<
    (Vec<(Vec<u8>, Value)>, usize),
    DecodeError,
>)
    requires
        pos <= src@.len(),
    ensures
        ({
            let s = src@.skip(pos as int);
            match r {
                Ok((d, end)) => pos < end <= src@.len() && spec_parse_pairs(
                    s,
                    depth as nat,
                    opt_key_view(prev),
                ) == Ok::<_, DecodeError>((pairs_view(d@), src@.skip(end as int))),
                Err(e) => spec_parse_pairs(s, depth as nat, opt_key_view(prev)) == Err::<
                    (Seq<(Seq<u8>, SpecValue)>, Seq<u8>),
                    _,
                >(e),
            }
        }),
    decreases src@.len() - pos, 1int,
{
    let ghost s = src@.skip(pos as int);
    if pos == src.len() {
        return Err(DecodeError::Incomplete);
    }
    let b = src[pos];
    proof {
        assert(s[0] == b);
    }
    if b == 101 {
        proof {
            assert(s.drop_first() =~= src@.skip(pos + 1));
            assert(pairs_view(Seq::<(Vec<u8>, Value)>::empty()) =~= Seq::<
                (Seq<u8>, SpecValue),
            >::empty());
        }
        return Ok((Vec::new(), pos + 1));
    }
    if !(48 <= b && b <= 57) {
        return Err(DecodeError::Malformed);
    }
    match parse_string(src, pos) {
        Err(e) => Err(e),
        Ok((key, kend)) => {
            let in_order = match prev {
                Option::Some(p) => lex_lt_bytes(p.as_slice(), key.as_slice()),
                Option::None => true,
            };
            if !in_order {
                return Err(DecodeError::Malformed);
            }
            match parse_value(src, kend, depth) {
                Err(e) => Err(e),
                Ok((v, vend)) => {
                    match parse_pairs(src, vend, depth, Option::Some(&key)) {
                        Err(e) => Err(e),
                        Ok((mut dvec, end2)) => {
                            let ghost dv = dvec@;
                            let ghost kv = key@;
                            let ghost vv = v@;
                            dvec.insert(0, (key, v));
                            proof {
                                assert(pairs_view(dvec@) =~= seq![(kv, vv)] + pairs_view(dv));
                            }
                            Ok((dvec, end2))
                        },
                    }
                },
            }
        },
    }
}

/// Parse one value off the head of `src`, returning it together with the
/// unconsumed remainder of the buffer.
///
/// This is a strict canonical-form decoder: it returns `Incomplete` when
/// the buffer ends before the value does, and `Malformed` when the bytes
/// present violate the grammar (a bad digit or delimiter, a leading zero,
/// negative zero, an integer that does not fit the host type, a dictionary
/// key that is not a byte string, out-of-order or duplicate dictionary
/// keys) or when nesting exceeds [`MAX_DEPTH`]. The contract says exactly
/// which: the result always equals [`spec_decode`] on the buffer.
pub fn decode(src: &[u8]) -> (r: Result<(Value, Vec<u8>), DecodeError>)
    ensures
        match r {
            Ok((v, rest)) => spec_decode(src@) == Ok::<_, DecodeError>((v@, rest@)),
            Err(e) => spec_decode(src@) == Err::<(SpecValue, Seq<u8>), _>(e),
        },
{
    proof {
        assert(src@.skip(0) =~= src@);
    }
    match parse_value(src, 0, MAX_DEPTH) {
        Ok((v, end)) => {
            let rest = vstd::slice::slice_to_vec(
                vstd::slice::slice_subrange(src, end, src.len()),
            );
            proof {
                assert(src@.subrange(end as int, src@.len() as int) =~= src@.skip(end as int));
            }
            Ok((v, rest))
        },
        Err(e) => Err(e),
    }
}

/// The decimal digits of `n`, most significant first.
fn encode_digits(n: u64) -> (r: Vec<u8>)
    ensures
        r@ == spec_digits(n as nat),
    decreases n,
{
    if n < 10 {
        let mut out: Vec<u8> = Vec::new();
        out.push(48 + n as u8);
        assert(out@ =~= spec_digits(n as nat));
        out
    } else {
        let mut out = encode_digits(n / 10);
        out.push(48 + (n % 10) as u8);
        assert(out@ =~= spec_digits(n as nat));
        out
    }
}

/// The canonical wire bytes of an integer value.
fn encode_int_bytes(i: i64) -> (r: Vec<u8>)
    ensures
        r@ == spec_encode_int(i as int),
{
    let mut out: Vec<u8> = Vec::new();
    out.push(105);
    let mag: u64 = if i < 0 {
        out.push(45);
        (-(i as i128)) as u64
    } else {
        i as u64
    };
    let mut ds = encode_digits(mag);
    out.append(&mut ds);
    out.push(101);
    assert(out@ =~= spec_encode_int(i as int));
    out
}

/// The canonical wire bytes of a byte string: length prefix, `:`, the bytes.
fn encode_str_bytes(s: &[u8]) -> (r: Vec<u8>)
    ensures
        r@ == spec_encode_str(s@),
{
    let mut out = encode_digits(s.len() as u64);
    out.push(58);
    let mut rest = vstd::slice::slice_to_vec(s);
    out.append(&mut rest);
    assert(out@ =~= spec_encode_str(s@));
    out
}

/// Strict byte-lexicographic comparison of two byte strings.
pub fn lex_lt_bytes(a: &[u8], b: &[u8]) -> (r: bool)
    ensures
        r == lex_lt(a@, b@),
{
    let mut i: usize = 0;
    assert(a@.skip(0) =~= a@);
    assert(b@.skip(0) =~= b@);
    while i < a.len() && i < b.len()
        invariant
            i <= a@.len(),
            i <= b@.len(),
            lex_lt(a@, b@) == lex_lt(a@.skip(i as int), b@.skip(i as int)),
        decreases a@.len() - i,
    {
        let x = a[i];
        let y = b[i];
        if x < y {
            assert(lex_lt(a@.skip(i as int), b@.skip(i as int)));
            return true;
        }
        if x > y {
            assert(!lex_lt(a@.skip(i as int), b@.skip(i as int)));
            return false;
        }
        assert(a@.skip(i as int).drop_first() =~= a@.skip(i + 1));
        assert(b@.skip(i as int).drop_first() =~= b@.skip(i + 1));
        i = i + 1;
    }
    if i < b.len() {
        assert(a@.skip(i as int).len() == 0);
        true
    } else {
        assert(b@.skip(i as int).len() == 0);
        false
    }
}

/// A value that can be serialized to canonical wire bytes.
pub trait Encodable: View<V = SpecValue> {
    /// Serialize to canonical bytes. Succeeds exactly on canonical values;
    /// a dictionary whose keys are out of order (at any nesting level) is
    /// refused rather than silently reordered.
    fn encode(&self) -> (r: Result<Vec<u8>, &str>)
        ensures
            match r {
                Ok(b) => canonical(self@) && b@ == spec_encode(self@),
                Err(_) => !canonical(self@),
            },
    ;
}

impl Encodable for Value {
    fn encode(&self) -> (r: Result<Vec<u8>, &str>)
        decreases *self,
    {
        match self {
            Value::Integer(i) => Ok(encode_int_bytes(*i)),
            Value::String(s) => Ok(encode_str_bytes(s.as_slice())),
            Value::List(l) => {
                let ghost vl = self@->List_0;
                let mut out: Vec<u8> = Vec::new();
                out.push(108);
                let mut k: usize = 0;
                while k < l.len()
                    invariant
                        self@ == SpecValue::List(vl),
                        self is List && l == self->List_0,
                        vl.len() == l@.len(),
                        forall|j: int| 0 <= j < l@.len() ==> vl[j] == view_value(l@[j]),
                        k <= l@.len(),
                        forall|j: int| 0 <= j < k ==> canonical(#[trigger] vl[j]),
                        out@ == seq![108u8] + spec_encode_elems(vl.take(k as int)),
                    decreases l@.len() - k,
                {
                    match l[k].encode() {
                        Ok(mut b) => {
                            proof {
                                lemma_encode_elems_push(vl.take(k as int), vl[k as int]);
                                assert(vl.take(k + 1) =~= vl.take(k as int).push(
                                    vl[k as int],
                                ));
                            }
                            out.append(&mut b);
                            assert(out@ =~= seq![108u8] + spec_encode_elems(vl.take(k + 1)));
                        },
                        Err(e) => {
                            proof {
                                lemma_canonical_elems_iff(vl);
                            }
                            assert(!canonical_elems(vl));
                            assert(!canonical(self@));
                            return Err(e);
                        },
                    }
                    k = k + 1;
                }
                out.push(101);
                proof {
                    lemma_canonical_elems_iff(vl);
                    assert(vl.take(vl.len() as int) =~= vl);
                    assert(canonical(self@));
                    assert(out@ =~= spec_encode(self@));
                }
                Ok(out)
            },
            Value::Dictionary(d) => {
                let ghost vd = self@->Dict_0;
                let mut out: Vec<u8> = Vec::new();
                out.push(100);
                let mut k: usize = 0;
                while k < d.len()
                    invariant
                        self@ == SpecValue::Dict(vd),
                        self is Dictionary && d == self->Dictionary_0,
                        vd.len() == d@.len(),
                        forall|j: int| 0 <= j < d@.len() ==> #[trigger] vd[j] == (
                        d@[j].0@,
                        view_value(d@[j].1),
                        ),
                        k <= d@.len(),
                        forall|j: int| 0 <= j < k ==> canonical(#[trigger] vd[j].1),
                        forall|j: int| 0 <= j < k - 1 ==> lex_lt(#[trigger] vd[j].0, vd[j + 1].0),
                        out@ == seq![100u8] + spec_encode_pairs(vd.take(k as int)),
                    decreases d@.len() - k,
                {
                    if k > 0 {
                        let prev = &d[k - 1];
                        let cur = &d[k];
                        if !lex_lt_bytes(prev.0.as_slice(), cur.0.as_slice()) {
                            assert(!lex_lt(vd[k as int - 1].0, vd[k as int].0));
                            proof {
                                lemma_keys_ascending_iff(vd);
                            }
                            assert(!keys_ascending(vd));
                            assert(!canonical(self@));
                            return Err("bencode: dictionary keys out of order");
                        }
                    }
                    let mut kb = encode_str_bytes(d[k].0.as_slice());
                    match d[k].1.encode() {
                        Ok(mut b) => {
                            proof {
                                lemma_encode_pairs_push(vd.take(k as int), vd[k as int]);
                                assert(vd.take(k + 1) =~= vd.take(k as int).push(
                                    vd[k as int],
                                ));
                            }
                            out.append(&mut kb);
                            out.append(&mut b);
                            assert(out@ =~= seq![100u8] + spec_encode_pairs(vd.take(k + 1)));
                        },
                        Err(e) => {
                            proof {
                                lemma_canonical_pairs_iff(vd);
                            }
                            assert(!canonical(vd[k as int].1));
                            assert(!canonical_pairs(vd));
                            assert(!canonical(self@));
                            return Err(e);
                        },
                    }
                    k = k + 1;
                }
                out.push(101);
                proof {
                    lemma_canonical_pairs_iff(vd);
                    lemma_keys_ascending_iff(vd);
                    assert(vd.take(vd.len() as int) =~= vd);
                    assert(canonical(self@));
                    assert(out@ =~= spec_encode(self@));
                }
                Ok(out)
            },
        }
    }
}

} // verus!
