//! The protocol value tree and its byte codec.
//!
//! A [`Value`] is the tagged union that travels on the wire.  Its
//! mathematical model is [`SpecValue`], reached through `deep_view()`.
//! The wire format is defined once, as the specification function
//! [`spec_encode`]; the parser is specified by [`spec_decode`].  The
//! executable `encode` and `decode` are proved against those definitions,
//! and `lemma_round_trip` shows that they are mutually inverse.

use vstd::prelude::*;

verus! {

use vstd::utf8::encode_utf8;
use vstd::utf8::decode_utf8;
use vstd::utf8::valid_utf8;
use vstd::string::StrSliceExecFns;

/// Upper bound accepted for a declared bulk-string length or array count.
/// A hostile peer announcing a larger size is rejected instead of forcing
/// an unbounded allocation.
pub const RESP_MAX_SIZE: i64 = 512 * 1024 * 1024;

/// Mathematical model of a protocol value: the same tree as [`Value`], with
/// every payload replaced by its abstract view.
pub enum SpecValue {
    Nil,
    NullArray,
    Int(int),
    Data(Seq<u8>),
    Bulk(Seq<SpecValue>),
    Status(Seq<char>),
    Error(Seq<char>),
}

/// A protocol value.
///
/// `Nil` is the null bulk string, `NullArray` the null array.  `Data` holds
/// arbitrary binary bytes; `Status` and `Error` hold line text; `Bulk` is an
/// ordered sequence of nested values.
#[derive(PartialEq, Eq, Debug)]
pub enum Value {
    Nil,
    NullArray,
    Int(i64),
    Data(Vec<u8>),
    Bulk(Vec<Value>),
    Status(String),
    Error(String),
}

/// The abstraction of one executable value.
pub open spec fn view_of(v: Value) -> SpecValue
    decreases v,
{
    match v {
        Value::Nil => SpecValue::Nil,
        Value::NullArray => SpecValue::NullArray,
        Value::Int(i) => SpecValue::Int(i as int),
        Value::Data(b) => SpecValue::Data(b@),
        Value::Bulk(elems) => SpecValue::Bulk(views_of(elems@)),
        Value::Status(s) => SpecValue::Status(s@),
        Value::Error(s) => SpecValue::Error(s@),
    }
}

/// The abstraction of a sequence of executable values, element by element.
pub open spec fn views_of(s: Seq<Value>) -> Seq<SpecValue>
    decreases s,
{
    if s.len() == 0 {
        Seq::empty()
    } else {
        views_of(s.drop_last()).push(view_of(s.last()))
    }
}

impl DeepView for Value {
    type V = SpecValue;

    open spec fn deep_view(&self) -> SpecValue {
        view_of(*self)
    }
}

/// Why one decode attempt was rejected.  Any of these is terminal for the
/// whole attempt: no resynchronization is possible, the caller tears the
/// connection down.
#[derive(PartialEq, Eq, Structural, Clone, Copy, Debug)]
pub enum DecodeError {
    /// The line before the first newline does not end in a carriage return,
    /// or the newline arrives in the very first position of the value.
    BadTerminator,
    /// A status or error line is not valid UTF-8.
    BadText,
    /// An integer line, or a declared length, is not a decimal number that
    /// fits a 64-bit signed integer.
    BadNumber,
    /// A declared length or count lies outside `[-1, RESP_MAX_SIZE]`.
    BadLength,
    /// The leading marker byte names no known value kind.
    BadMarker,
}

/// True of an ASCII decimal digit byte.
pub open spec fn is_digit(b: u8) -> bool {
    48 <= b <= 57
}

pub open spec fn all_digits(s: Seq<u8>) -> bool {
    forall|i: int| 0 <= i < s.len() ==> is_digit(#[trigger] s[i])
}

/// The number denoted by a sequence of decimal digit bytes.
pub open spec fn dec_value(s: Seq<u8>) -> int
    decreases s.len(),
{
    if s.len() == 0 {
        0
    } else {
        dec_value(s.drop_last()) * 10 + (s.last() - 48)
    }
}

/// The decimal digit bytes of a non-negative number, most significant first.
pub open spec fn dec_digits(n: int) -> Seq<u8>
    recommends
        n >= 0,
    decreases n,
{
    if n <= 9 {
        seq![(48 + n) as u8]
    } else {
        dec_digits(n / 10).push((48 + n % 10) as u8)
    }
}

/// The decimal byte form of a signed number: a minus sign for negatives,
/// then the digits of the magnitude.
pub open spec fn spec_int_bytes(n: int) -> Seq<u8> {
    if n < 0 {
        seq![45u8] + dec_digits(-n)
    } else {
        dec_digits(n)
    }
}

/// What parsing a whole line as a signed 64-bit decimal yields: an optional
/// sign, then at least one digit and nothing else, with the value in range.
pub open spec fn spec_parse_i64(s: Seq<u8>) -> Option<int> {
    let neg = s.len() > 0 && s[0] == 45;
    let digits = if s.len() > 0 && (s[0] == 43 || s[0] == 45) {
        s.skip(1)
    } else {
        s
    };
    if digits.len() > 0 && all_digits(digits) {
        let m = if neg {
            -dec_value(digits)
        } else {
            dec_value(digits)
        };
        if i64::MIN <= m <= i64::MAX {
            Some(m)
        } else {
            None
        }
    } else {
        None
    }
}

/// The terminator of every line on the wire.
pub open spec fn spec_crlf() -> Seq<u8> {
    seq![13u8, 10u8]
}

/// The bytes of one encoded value.  This is the wire grammar: `+`/`-`/`:`
/// lines for status, error and integer; `$` for a length-prefixed binary
/// string, with `$-1` as the null form; `*` for a count-prefixed array,
/// with `*-1` as the null array.
pub open spec fn spec_encode(v: SpecValue) -> Seq<u8>
    decreases v, 0int,
{
    match v {
        SpecValue::Nil => seq![36u8, 45u8, 49u8, 13u8, 10u8],
        SpecValue::NullArray => seq![42u8, 45u8, 49u8, 13u8, 10u8],
        SpecValue::Status(t) => seq![43u8] + encode_utf8(t) + spec_crlf(),
        SpecValue::Error(t) => seq![45u8] + encode_utf8(t) + spec_crlf(),
        SpecValue::Int(i) => seq![58u8] + spec_int_bytes(i) + spec_crlf(),
        SpecValue::Data(b) => seq![36u8] + spec_int_bytes(b.len() as int) + spec_crlf() + b
            + spec_crlf(),
        SpecValue::Bulk(vs) => seq![42u8] + spec_int_bytes(vs.len() as int) + spec_crlf()
            + spec_encode_elems(vs, 0),
    }
}

/// The concatenated encodings of the elements of `vs` from index `i` on.
pub open spec fn spec_encode_elems(vs: Seq<SpecValue>, i: int) -> Seq<u8>
    decreases vs, vs.len() - i,
{
    if i < 0 || i >= vs.len() {
        Seq::empty()
    } else {
        spec_encode(vs[i]) + spec_encode_elems(vs, i + 1)
    }
}

/// An encodable value: every number fits its wire type, every declared
/// length respects the protocol ceiling, and line text never contains the
/// newline byte that would cut its line short.  `decode` only ever builds
/// such values, and only such values round-trip.
pub open spec fn spec_wf(v: SpecValue) -> bool
    decreases v,
{
    match v {
        SpecValue::Nil => true,
        SpecValue::NullArray => true,
        SpecValue::Int(i) => i64::MIN <= i <= i64::MAX,
        SpecValue::Data(b) => b.len() <= RESP_MAX_SIZE,
        SpecValue::Status(t) => forall|i: int|
            0 <= i < encode_utf8(t).len() ==> #[trigger] encode_utf8(t)[i] != 10u8,
        SpecValue::Error(t) => forall|i: int|
            0 <= i < encode_utf8(t).len() ==> #[trigger] encode_utf8(t)[i] != 10u8,
        SpecValue::Bulk(vs) => vs.len() <= RESP_MAX_SIZE && forall|i: int|
            0 <= i < vs.len() ==> spec_wf(#[trigger] vs[i]),
    }
}

/// Index of the first newline byte at or after `k`, or the length of
/// `bytes` when there is none.
pub open spec fn find_lf(bytes: Seq<u8>, k: int) -> int
    recommends
        0 <= k,
    decreases bytes.len() - k,
{
    if k >= bytes.len() {
        bytes.len() as int
    } else if bytes[k] == 10u8 {
        k
    } else {
        find_lf(bytes, k + 1)
    }
}

/// Outcome of one decode attempt at a given position: the bytes do not yet
/// hold a whole value, or they are structurally invalid, or exactly one
/// value ends at the returned next position.
pub enum SpecDecoded {
    Incomplete,
    Invalid(DecodeError),
    Decoded(SpecValue, int),
}

/// Outcome of decoding a fixed count of consecutive values.
pub enum SpecDecodedElems {
    Incomplete,
    Invalid(DecodeError),
    Decoded(Seq<SpecValue>, int),
}

/// What decoding one value at `start` yields.  The first line is scanned up
/// to its newline; a value is surfaced only when every byte it spans has
/// arrived, and a structural error anywhere aborts the whole attempt.
pub open spec fn spec_decode(bytes: Seq<u8>, start: int) -> SpecDecoded
    recommends
        0 <= start,
    decreases bytes.len() - start, 0int,
{
    let len = bytes.len() as int;
    let kf = find_lf(bytes, start);
    let k = if kf < start {
        start
    } else {
        kf
    };
    if k >= len {
        SpecDecoded::Incomplete
    } else if k == start || bytes[k - 1] != 13u8 {
        SpecDecoded::Invalid(DecodeError::BadTerminator)
    } else {
        let line = bytes.subrange(start + 1, k - 1);
        let m = bytes[start];
        if m == 43u8 {
            if valid_utf8(line) {
                SpecDecoded::Decoded(SpecValue::Status(decode_utf8(line)), k + 1)
            } else {
                SpecDecoded::Invalid(DecodeError::BadText)
            }
        } else if m == 45u8 {
            if valid_utf8(line) {
                SpecDecoded::Decoded(SpecValue::Error(decode_utf8(line)), k + 1)
            } else {
                SpecDecoded::Invalid(DecodeError::BadText)
            }
        } else if m == 58u8 {
            match spec_parse_i64(line) {
                Some(x) => SpecDecoded::Decoded(SpecValue::Int(x), k + 1),
                None => SpecDecoded::Invalid(DecodeError::BadNumber),
            }
        } else if m == 36u8 {
            match spec_parse_i64(line) {
                None => SpecDecoded::Invalid(DecodeError::BadNumber),
                Some(x) => if x == -1 {
                    SpecDecoded::Decoded(SpecValue::Nil, k + 1)
                } else if x < -1 || x > RESP_MAX_SIZE {
                    SpecDecoded::Invalid(DecodeError::BadLength)
                } else if len - k >= x + 3 {
                    SpecDecoded::Decoded(
                        SpecValue::Data(bytes.subrange(k + 1, k + 1 + x)),
                        k + x + 3,
                    )
                } else {
                    SpecDecoded::Incomplete
                },
            }
        } else if m == 42u8 {
            match spec_parse_i64(line) {
                None => SpecDecoded::Invalid(DecodeError::BadNumber),
                Some(x) => if x == -1 {
                    SpecDecoded::Decoded(SpecValue::NullArray, k + 1)
                } else if x < -1 || x > RESP_MAX_SIZE {
                    SpecDecoded::Invalid(DecodeError::BadLength)
                } else {
                    match spec_decode_elems(bytes, k + 1, x) {
                        SpecDecodedElems::Decoded(vs, end) => SpecDecoded::Decoded(
                            SpecValue::Bulk(vs),
                            end,
                        ),
                        SpecDecodedElems::Incomplete => SpecDecoded::Incomplete,
                        SpecDecodedElems::Invalid(e) => SpecDecoded::Invalid(e),
                    }
                },
            }
        } else {
            SpecDecoded::Invalid(DecodeError::BadMarker)
        }
    }
}

/// What decoding `n` consecutive values starting at `start` yields.  The
/// first incomplete element makes the whole attempt incomplete, so a
/// partial array is never surfaced.
pub open spec fn spec_decode_elems(bytes: Seq<u8>, start: int, n: int) -> SpecDecodedElems
    recommends
        0 <= start,
    decreases bytes.len() - start, n,
{
    if n <= 0 {
        SpecDecodedElems::Decoded(Seq::empty(), start)
    } else {
        match spec_decode(bytes, start) {
            SpecDecoded::Incomplete => SpecDecodedElems::Incomplete,
            SpecDecoded::Invalid(e) => SpecDecodedElems::Invalid(e),
            SpecDecoded::Decoded(v, next) => if next <= start || next > bytes.len() {
                // never reached: a decoded value always advances the position
                // and ends inside the bytes it was decoded from
                SpecDecodedElems::Invalid(DecodeError::BadTerminator)
            } else {
                match spec_decode_elems(bytes, next, n - 1) {
                    SpecDecodedElems::Decoded(vs, end) => SpecDecodedElems::Decoded(
                        seq![v] + vs,
                        end,
                    ),
                    SpecDecodedElems::Incomplete => SpecDecodedElems::Incomplete,
                    SpecDecodedElems::Invalid(e) => SpecDecodedElems::Invalid(e),
                }
            },
        }
    }
}

pub proof fn lemma_dec_value_nonneg(s: Seq<u8>)
    requires
        all_digits(s),
    ensures
        dec_value(s) >= 0,
    decreases s.len(),
{
    if s.len() > 0 {
        assert(all_digits(s.drop_last()));
        lemma_dec_value_nonneg(s.drop_last());
    }
}

/// Appending digits never shrinks the denoted number: the value of a whole
/// digit string is at least the value of any of its prefixes.
pub proof fn lemma_dec_value_prefix(s: Seq<u8>, j: int)
    requires
        all_digits(s),
        0 <= j <= s.len(),
    ensures
        dec_value(s) >= dec_value(s.take(j)),
    decreases s.len() - j,
{
    if j == s.len() {
        assert(s.take(j) =~= s);
    } else {
        assert(s.take(j + 1).drop_last() =~= s.take(j));
        assert(all_digits(s.take(j)));
        lemma_dec_value_nonneg(s.take(j));
        lemma_dec_value_prefix(s, j + 1);
    }
}

/// `find_lf` lands on the first newline byte: it never runs past one, and
/// everything before it is not a newline.
pub proof fn lemma_find_lf_pins(bytes: Seq<u8>, start: int, k: int)
    requires
        0 <= start <= k <= bytes.len(),
        forall|j: int| start <= j < k ==> bytes[j] != 10u8,
        k < bytes.len() ==> bytes[k] == 10u8,
    ensures
        find_lf(bytes, start) == k,
    decreases k - start,
{
    if start < k {
        lemma_find_lf_pins(bytes, start + 1, k);
    }
}

pub proof fn lemma_find_lf_bounds(bytes: Seq<u8>, start: int)
    requires
        0 <= start <= bytes.len(),
    ensures
        start <= find_lf(bytes, start) <= bytes.len(),
        find_lf(bytes, start) < bytes.len() ==> bytes[find_lf(bytes, start)] == 10u8,
    decreases bytes.len() - start,
{
    if start < bytes.len() && bytes[start] != 10u8 {
        lemma_find_lf_bounds(bytes, start + 1);
    }
}

/// A decoded value always advances the position, and ends inside the bytes
/// it was decoded from.
pub proof fn lemma_decode_advances(bytes: Seq<u8>, start: int)
    requires
        0 <= start,
    ensures
        (match spec_decode(bytes, start) {
            SpecDecoded::Decoded(v, next) => start < next <= bytes.len(),
            _ => true,
        }),
    decreases bytes.len() - start, 0int,
{
    if start <= bytes.len() {
        lemma_find_lf_bounds(bytes, start);
        let k = find_lf(bytes, start);
        if k < bytes.len() && k != start && bytes[k - 1] == 13u8 && bytes[start] == 42u8 {
            let line = bytes.subrange(start + 1, k - 1);
            match spec_parse_i64(line) {
                Some(x) => {
                    if 0 <= x <= RESP_MAX_SIZE {
                        lemma_decode_elems_advances(bytes, k + 1, x);
                    }
                },
                None => {},
            }
        }
    }
}

pub proof fn lemma_decode_elems_advances(bytes: Seq<u8>, start: int, n: int)
    requires
        0 <= start <= bytes.len(),
        0 <= n,
    ensures
        (match spec_decode_elems(bytes, start, n) {
            SpecDecodedElems::Decoded(vs, end) => start <= end <= bytes.len() && vs.len() == n,
            _ => true,
        }),
    decreases bytes.len() - start, n,
{
    if n > 0 {
        lemma_decode_advances(bytes, start);
        match spec_decode(bytes, start) {
            SpecDecoded::Decoded(v, next) => {
                if start < next <= bytes.len() {
                    lemma_decode_elems_advances(bytes, next, n - 1);
                }
            },
            _ => {},
        }
    }
}

/// Abstraction commutes with appending one element.
pub proof fn lemma_views_push(s: Seq<Value>, v: Value)
    ensures
        views_of(s.push(v)) == views_of(s).push(view_of(v)),
{
    assert(s.push(v).drop_last() =~= s);
}

pub proof fn lemma_views_len(s: Seq<Value>)
    ensures
        views_of(s).len() == s.len(),
    decreases s.len(),
{
    if s.len() > 0 {
        lemma_views_len(s.drop_last());
    }
}

pub proof fn lemma_views_index(s: Seq<Value>, i: int)
    requires
        0 <= i < s.len(),
    ensures
        views_of(s).len() == s.len(),
        views_of(s)[i] == view_of(s[i]),
    decreases s.len(),
{
    lemma_views_len(s);
    lemma_views_len(s.drop_last());
    if i < s.len() - 1 {
        lemma_views_index(s.drop_last(), i);
    }
}

pub proof fn lemma_views_subrange(s: Seq<Value>, a: int, b: int)
    requires
        0 <= a <= b <= s.len(),
    ensures
        views_of(s.subrange(a, b)) == views_of(s).subrange(a, b),
{
    lemma_views_len(s);
    lemma_views_len(s.subrange(a, b));
    assert(views_of(s.subrange(a, b)) =~= views_of(s).subrange(a, b)) by {
        assert forall|j: int| 0 <= j < b - a implies views_of(s.subrange(a, b))[j] == views_of(
            s,
        ).subrange(a, b)[j] by {
            lemma_views_index(s.subrange(a, b), j);
            lemma_views_index(s, a + j);
        }
    }
}

/// A sequence of plain ASCII bytes is valid UTF-8.
pub proof fn lemma_ascii_valid_utf8(s: Seq<u8>)
    requires
        forall|i: int| 0 <= i < s.len() ==> #[trigger] s[i] < 128,
    ensures
        valid_utf8(s),
{
    assert(s.subrange(0, 0) =~= Seq::<u8>::empty());
    assert(valid_utf8(s.subrange(0, 0)));
    assert(vstd::utf8::partial_valid_utf8(s, 0));
    assert forall|i: int|
        0 <= 0 <= i < s.len() <= s.len() implies #[trigger] vstd::utf8::is_leading_byte_width_1(
        s[i],
    ) by {
        assert(s[i] < 128);
    }
    vstd::utf8::partial_valid_utf8_extend_ascii_block(s, 0, s.len() as int);
    assert(s.subrange(0, s.len() as int) =~= s);
}

/// Every byte of a decimal rendering is a digit, and there is at least one.
pub proof fn lemma_dec_digits_are_digits(n: int)
    requires
        n >= 0,
    ensures
        all_digits(dec_digits(n)),
        dec_digits(n).len() >= 1,
    decreases n,
{
    if n > 9 {
        lemma_dec_digits_are_digits(n / 10);
    }
}

/// Rendering a number and reading the digits back yields the number.
pub proof fn lemma_dec_value_of_digits(n: int)
    requires
        n >= 0,
    ensures
        dec_value(dec_digits(n)) == n,
    decreases n,
{
    if n <= 9 {
        assert(dec_digits(n).drop_last() =~= Seq::<u8>::empty());
        assert(dec_value(Seq::<u8>::empty()) == 0);
        assert(dec_digits(n).last() == (48 + n) as u8);
    } else {
        lemma_dec_value_of_digits(n / 10);
        assert(dec_digits(n).drop_last() =~= dec_digits(n / 10));
    }
}

/// The decimal form of a signed number holds nothing but a leading minus
/// sign and digits: in particular no newline, no carriage return.
pub proof fn lemma_int_bytes_clean(n: int)
    ensures
        forall|j: int|
            0 <= j < spec_int_bytes(n).len() ==> (#[trigger] spec_int_bytes(n)[j] == 45u8
                || is_digit(spec_int_bytes(n)[j])),
        spec_int_bytes(n).len() >= 1,
{
    if n < 0 {
        lemma_dec_digits_are_digits(-n);
    } else {
        lemma_dec_digits_are_digits(n);
    }
}

/// Parsing the decimal form of a signed 64-bit number yields that number.
pub proof fn lemma_parse_int_bytes(i: int)
    requires
        i64::MIN <= i <= i64::MAX,
    ensures
        spec_parse_i64(spec_int_bytes(i)) == Some(i),
{
    let s = spec_int_bytes(i);
    if i < 0 {
        lemma_dec_digits_are_digits(-i);
        lemma_dec_value_of_digits(-i);
        assert(s[0] == 45u8);
        assert(s.skip(1) =~= dec_digits(-i));
    } else {
        lemma_dec_digits_are_digits(i);
        lemma_dec_value_of_digits(i);
        assert(is_digit(s[0]));
    }
}

/// No value encodes to an empty byte sequence.
pub proof fn lemma_encode_nonempty(v: SpecValue)
    ensures
        spec_encode(v).len() >= 3,
{
    match v {
        SpecValue::Int(i) => {
            lemma_int_bytes_clean(i);
        },
        SpecValue::Data(b) => {
            lemma_int_bytes_clean(b.len() as int);
        },
        SpecValue::Bulk(vs) => {
            lemma_int_bytes_clean(vs.len() as int);
        },
        _ => {},
    }
}

/// The bytes at `start` match `enc`, element by element.
proof fn lemma_bytes_match(bytes: Seq<u8>, start: int, enc: Seq<u8>, j: int)
    requires
        0 <= start,
        start + enc.len() <= bytes.len(),
        bytes.subrange(start, start + enc.len() as int) == enc,
        0 <= j < enc.len(),
    ensures
        bytes[start + j] == enc[j],
{
    assert(enc[j] == bytes.subrange(start, start + enc.len() as int)[j]);
}

/// The common shape of every encoding: one marker byte, a line body, a
/// carriage return and newline, then whatever payload follows the line.
pub open spec fn line_shape(m: u8, pb: Seq<u8>, tail: Seq<u8>) -> Seq<u8> {
    seq![m] + pb + spec_crlf() + tail
}

proof fn lemma_shape_index(m: u8, pb: Seq<u8>, tail: Seq<u8>)
    ensures
        line_shape(m, pb, tail).len() == 3 + pb.len() + tail.len(),
        line_shape(m, pb, tail)[0] == m,
        forall|j: int|
            0 <= j < pb.len() ==> #[trigger] line_shape(m, pb, tail)[1 + j] == pb[j],
        line_shape(m, pb, tail)[1 + pb.len() as int] == 13u8,
        line_shape(m, pb, tail)[2 + pb.len() as int] == 10u8,
        forall|j: int|
            0 <= j < tail.len() ==> #[trigger] line_shape(m, pb, tail)[3 + pb.len() + j]
                == tail[j],
{
    let s = line_shape(m, pb, tail);
    assert forall|j: int| 0 <= j < pb.len() implies #[trigger] s[1 + j] == pb[j] by {
        assert((seq![m] + pb)[1 + j] == pb[j]);
    }
    assert forall|j: int| 0 <= j < tail.len() implies #[trigger] s[3 + pb.len() + j]
        == tail[j] by {
        assert(s[3 + pb.len() + j] == tail[j]);
    }
}

/// Scanning an encoded line inside a larger buffer: the first newline after
/// `start` sits right past the line body and its carriage return, and the
/// pieces of the shape are recovered at their positions.
proof fn lemma_scan_shape(bytes: Seq<u8>, start: int, m: u8, pb: Seq<u8>, tail: Seq<u8>)
    requires
        0 <= start,
        m != 10u8,
        forall|j: int| 0 <= j < pb.len() ==> #[trigger] pb[j] != 10u8,
        start + 3 + pb.len() + tail.len() <= bytes.len(),
        bytes.subrange(start, start + 3 + pb.len() + tail.len()) == line_shape(m, pb, tail),
    ensures
        bytes[start] == m,
        find_lf(bytes, start) == start + 2 + pb.len(),
        bytes[start + 1 + pb.len()] == 13u8,
        bytes.subrange(start + 1, start + 1 + pb.len() as int) == pb,
        bytes.subrange(start + 3 + pb.len(), start + 3 + pb.len() + tail.len() as int) == tail,
{
    let s = line_shape(m, pb, tail);
    lemma_shape_index(m, pb, tail);
    let k = start + 2 + pb.len() as int;
    lemma_bytes_match(bytes, start, s, 0);
    lemma_bytes_match(bytes, start, s, 1 + pb.len() as int);
    lemma_bytes_match(bytes, start, s, 2 + pb.len() as int);
    assert forall|j: int| start <= j < k implies bytes[j] != 10u8 by {
        lemma_bytes_match(bytes, start, s, j - start);
        if 1 <= j - start < 1 + pb.len() {
            assert(s[1 + (j - start - 1)] == pb[j - start - 1]);
        }
    }
    lemma_find_lf_pins(bytes, start, k);
    assert(bytes.subrange(start + 1, start + 1 + pb.len() as int) =~= pb) by {
        assert forall|j: int| 0 <= j < pb.len() implies bytes.subrange(
            start + 1,
            start + 1 + pb.len() as int,
        )[j] == pb[j] by {
            lemma_bytes_match(bytes, start, s, 1 + j);
            assert(s[1 + j] == pb[j]);
        }
    }
    assert(bytes.subrange(start + 3 + pb.len(), start + 3 + pb.len() + tail.len() as int)
        =~= tail) by {
        assert forall|j: int| 0 <= j < tail.len() implies bytes.subrange(
            start + 3 + pb.len(),
            start + 3 + pb.len() + tail.len() as int,
        )[j] == tail[j] by {
            lemma_bytes_match(bytes, start, s, 3 + pb.len() + j);
            assert(s[3 + pb.len() + j] == tail[j]);
        }
    }
}

/// The payload line of each kind of value, and its shape decomposition.
proof fn lemma_encode_shape(v: SpecValue)
    ensures
        (match v {
            SpecValue::Nil => spec_encode(v) == line_shape(
                36u8,
                seq![45u8, 49u8],
                Seq::<u8>::empty(),
            ),
            SpecValue::NullArray => spec_encode(v) == line_shape(
                42u8,
                seq![45u8, 49u8],
                Seq::<u8>::empty(),
            ),
            SpecValue::Int(i) => spec_encode(v) == line_shape(
                58u8,
                spec_int_bytes(i),
                Seq::<u8>::empty(),
            ),
            SpecValue::Status(t) => spec_encode(v) == line_shape(
                43u8,
                encode_utf8(t),
                Seq::<u8>::empty(),
            ),
            SpecValue::Error(t) => spec_encode(v) == line_shape(
                45u8,
                encode_utf8(t),
                Seq::<u8>::empty(),
            ),
            SpecValue::Data(b) => spec_encode(v) == line_shape(
                36u8,
                spec_int_bytes(b.len() as int),
                b + spec_crlf(),
            ),
            SpecValue::Bulk(vs) => spec_encode(v) == line_shape(
                42u8,
                spec_int_bytes(vs.len() as int),
                spec_encode_elems(vs, 0),
            ),
        }),
{
    match v {
        SpecValue::Nil => {
            assert(spec_encode(v) =~= line_shape(36u8, seq![45u8, 49u8], Seq::<u8>::empty()));
        },
        SpecValue::NullArray => {
            assert(spec_encode(v) =~= line_shape(42u8, seq![45u8, 49u8], Seq::<u8>::empty()));
        },
        SpecValue::Int(i) => {
            assert(spec_encode(v) =~= line_shape(58u8, spec_int_bytes(i), Seq::<u8>::empty()));
        },
        SpecValue::Status(t) => {
            assert(spec_encode(v) =~= line_shape(43u8, encode_utf8(t), Seq::<u8>::empty()));
        },
        SpecValue::Error(t) => {
            assert(spec_encode(v) =~= line_shape(45u8, encode_utf8(t), Seq::<u8>::empty()));
        },
        SpecValue::Data(b) => {
            assert(spec_encode(v) =~= line_shape(
                36u8,
                spec_int_bytes(b.len() as int),
                b + spec_crlf(),
            ));
        },
        SpecValue::Bulk(vs) => {
            assert(spec_encode(v) =~= line_shape(
                42u8,
                spec_int_bytes(vs.len() as int),
                spec_encode_elems(vs, 0),
            ));
        },
    }
}

/// The line body of each kind of a well-formed value contains no newline
/// byte, and parses back to the declared number where one was declared.
proof fn lemma_parse_neg_one()
    ensures
        spec_parse_i64(seq![45u8, 49u8]) == Some(-1int),
        seq![45u8, 49u8][0] != 10u8,
        seq![45u8, 49u8][1] != 10u8,
        forall|j: int| 0 <= j < 2 ==> seq![45u8, 49u8][j] != 10u8,
{
    lemma_parse_int_bytes(-1);
    assert(spec_int_bytes(-1) =~= seq![45u8, 49u8]);
}

/// Decoding from anywhere inside a larger buffer recovers exactly the value
/// whose encoding sits there, consuming exactly that encoding.
pub proof fn lemma_decode_encoded_at(bytes: Seq<u8>, start: int, v: SpecValue)
    requires
        spec_wf(v),
        0 <= start,
        start + spec_encode(v).len() <= bytes.len(),
        bytes.subrange(start, start + spec_encode(v).len() as int) == spec_encode(v),
    ensures
        spec_decode(bytes, start) == SpecDecoded::Decoded(
            v,
            start + spec_encode(v).len() as int,
        ),
    decreases v, 0int,
{
    let enc = spec_encode(v);
    let el = enc.len() as int;
    lemma_encode_shape(v);
    match v {
        SpecValue::Nil => {
            let pb = seq![45u8, 49u8];
            lemma_parse_neg_one();
            lemma_scan_shape(bytes, start, 36u8, pb, Seq::<u8>::empty());
        },
        SpecValue::NullArray => {
            let pb = seq![45u8, 49u8];
            lemma_parse_neg_one();
            lemma_scan_shape(bytes, start, 42u8, pb, Seq::<u8>::empty());
        },
        SpecValue::Int(i) => {
            let pb = spec_int_bytes(i);
            lemma_int_bytes_clean(i);
            lemma_parse_int_bytes(i);
            lemma_scan_shape(bytes, start, 58u8, pb, Seq::<u8>::empty());
        },
        SpecValue::Status(t) => {
            let pb = encode_utf8(t);
            lemma_scan_shape(bytes, start, 43u8, pb, Seq::<u8>::empty());
            vstd::utf8::encode_utf8_valid_utf8(t);
            vstd::utf8::encode_utf8_decode_utf8(t);
        },
        SpecValue::Error(t) => {
            let pb = encode_utf8(t);
            lemma_scan_shape(bytes, start, 45u8, pb, Seq::<u8>::empty());
            vstd::utf8::encode_utf8_valid_utf8(t);
            vstd::utf8::encode_utf8_decode_utf8(t);
        },
        SpecValue::Data(b) => {
            let x = b.len() as int;
            let pb = spec_int_bytes(x);
            let tail = b + spec_crlf();
            lemma_int_bytes_clean(x);
            lemma_parse_int_bytes(x);
            lemma_scan_shape(bytes, start, 36u8, pb, tail);
            let k = start + 2 + pb.len() as int;
            assert(bytes.subrange(k + 1, k + 1 + x) =~= b) by {
                assert forall|j: int| 0 <= j < x implies bytes.subrange(k + 1, k + 1 + x)[j]
                    == b[j] by {
                    lemma_bytes_match(bytes, k + 1, tail, j);
                    assert(tail[j] == b[j]);
                }
            }
        },
        SpecValue::Bulk(vs) => {
            let x = vs.len() as int;
            let pb = spec_int_bytes(x);
            let tail = spec_encode_elems(vs, 0);
            lemma_int_bytes_clean(x);
            lemma_parse_int_bytes(x);
            lemma_scan_shape(bytes, start, 42u8, pb, tail);
            let k = start + 2 + pb.len() as int;
            lemma_decode_encoded_elems(bytes, k + 1, vs, 0);
            assert(vs.skip(0) =~= vs);
        },
    }
}

/// Decoding a run of encoded elements recovers exactly those elements.
pub proof fn lemma_decode_encoded_elems(bytes: Seq<u8>, start: int, vs: Seq<SpecValue>, i: int)
    requires
        0 <= i <= vs.len(),
        forall|j: int| 0 <= j < vs.len() ==> spec_wf(#[trigger] vs[j]),
        0 <= start,
        start + spec_encode_elems(vs, i).len() <= bytes.len(),
        bytes.subrange(start, start + spec_encode_elems(vs, i).len() as int)
            == spec_encode_elems(vs, i),
    ensures
        spec_decode_elems(bytes, start, vs.len() - i) == SpecDecodedElems::Decoded(
            vs.skip(i),
            start + spec_encode_elems(vs, i).len() as int,
        ),
    decreases vs, vs.len() - i,
{
    let enc = spec_encode_elems(vs, i);
    let el = enc.len() as int;
    if i == vs.len() {
        assert(vs.skip(i) =~= Seq::<SpecValue>::empty());
    } else {
        let e0 = spec_encode(vs[i]);
        let rest = spec_encode_elems(vs, i + 1);
        assert(enc == e0 + rest);
        assert(bytes.subrange(start, start + e0.len() as int) =~= e0) by {
            assert forall|j: int| 0 <= j < e0.len() implies bytes.subrange(
                start,
                start + e0.len() as int,
            )[j] == e0[j] by {
                lemma_bytes_match(bytes, start, enc, j);
                assert(enc[j] == e0[j]);
            }
        }
        lemma_decode_encoded_at(bytes, start, vs[i]);
        lemma_encode_nonempty(vs[i]);
        let next = start + e0.len() as int;
        assert(bytes.subrange(next, next + rest.len() as int) =~= rest) by {
            assert forall|j: int| 0 <= j < rest.len() implies bytes.subrange(
                next,
                next + rest.len() as int,
            )[j] == rest[j] by {
                lemma_bytes_match(bytes, start, enc, e0.len() + j);
                assert(enc[e0.len() + j] == rest[j]);
            }
        }
        lemma_decode_encoded_elems(bytes, next, vs, i + 1);
        assert(seq![vs[i]] + vs.skip(i + 1) =~= vs.skip(i));
    }
}

/// Encode then decode is the identity: decoding the encoding of any
/// encodable value, from its first byte, yields the value back and consumes
/// exactly the whole encoding.
pub proof fn lemma_round_trip(v: SpecValue)
    requires
        spec_wf(v),
    ensures
        spec_decode(spec_encode(v), 0) == SpecDecoded::Decoded(
            v,
            spec_encode(v).len() as int,
        ),
{
    let enc = spec_encode(v);
    assert(enc.subrange(0, enc.len() as int) =~= enc);
    lemma_decode_encoded_at(enc, 0, v);
}

/// A strict prefix of one encoding never decodes: the attempt reports that
/// the bytes are insufficient, and surfaces no value and no error.
pub proof fn lemma_decode_prefix_incomplete(bytes: Seq<u8>, start: int, v: SpecValue)
    requires
        spec_wf(v),
        0 <= start <= bytes.len(),
        bytes.len() - start < spec_encode(v).len(),
        bytes.subrange(start, bytes.len() as int) == spec_encode(v).take(bytes.len() - start),
    ensures
        spec_decode(bytes, start) == SpecDecoded::Incomplete,
    decreases v, 0int,
{
    let enc = spec_encode(v);
    let avail = bytes.len() - start;
    let part = enc.take(avail);
    lemma_encode_shape(v);
    let (m, pb, tail): (u8, Seq<u8>, Seq<u8>) = match v {
        SpecValue::Nil => (36u8, seq![45u8, 49u8], Seq::<u8>::empty()),
        SpecValue::NullArray => (42u8, seq![45u8, 49u8], Seq::<u8>::empty()),
        SpecValue::Int(i) => (58u8, spec_int_bytes(i), Seq::<u8>::empty()),
        SpecValue::Status(t) => (43u8, encode_utf8(t), Seq::<u8>::empty()),
        SpecValue::Error(t) => (45u8, encode_utf8(t), Seq::<u8>::empty()),
        SpecValue::Data(b) => (36u8, spec_int_bytes(b.len() as int), b + spec_crlf()),
        SpecValue::Bulk(vs) => (42u8, spec_int_bytes(vs.len() as int), spec_encode_elems(vs, 0)),
    };
    match v {
        SpecValue::Nil => {
            lemma_parse_neg_one();
        },
        SpecValue::NullArray => {
            lemma_parse_neg_one();
        },
        SpecValue::Int(i) => {
            lemma_int_bytes_clean(i);
        },
        SpecValue::Data(b) => {
            lemma_int_bytes_clean(b.len() as int);
        },
        SpecValue::Bulk(vs) => {
            lemma_int_bytes_clean(vs.len() as int);
        },
        _ => {},
    }
    assert(enc == line_shape(m, pb, tail));
    assert(m != 10u8);
    assert(forall|j: int| 0 <= j < pb.len() ==> #[trigger] pb[j] != 10u8);
    lemma_shape_index(m, pb, tail);
    let h = 2 + pb.len() as int;
    if avail <= h {
        // the newline that ends the first line has not arrived
        assert forall|j: int| start <= j < bytes.len() implies bytes[j] != 10u8 by {
            lemma_bytes_match(bytes, start, part, j - start);
            let j2 = j - start;
            assert(part[j2] == enc[j2]);
            if 1 <= j2 < 1 + pb.len() {
                assert(enc[1 + (j2 - 1)] == pb[j2 - 1]);
            } else if j2 == 1 + pb.len() {
                assert(enc[1 + pb.len() as int] == 13u8);
            } else {
                assert(enc[0] == m);
            }
        }
        lemma_find_lf_pins(bytes, start, bytes.len() as int);
    } else {
        let k = start + h;
        assert forall|j: int| start <= j < k implies bytes[j] != 10u8 by {
            lemma_bytes_match(bytes, start, part, j - start);
            let j2 = j - start;
            assert(part[j2] == enc[j2]);
            if 1 <= j2 < 1 + pb.len() {
                assert(enc[1 + (j2 - 1)] == pb[j2 - 1]);
            } else if j2 == 1 + pb.len() {
                assert(enc[1 + pb.len() as int] == 13u8);
            } else {
                assert(enc[0] == m);
            }
        }
        lemma_bytes_match(bytes, start, part, h);
        assert(part[h] == enc[h]);
        assert(enc[2 + pb.len() as int] == 10u8);
        lemma_find_lf_pins(bytes, start, k);
        lemma_bytes_match(bytes, start, part, 0);
        assert(part[0] == enc[0]);
        lemma_bytes_match(bytes, start, part, h - 1);
        assert(part[h - 1] == enc[1 + pb.len() as int]);
        assert(bytes.subrange(start + 1, start + 1 + pb.len() as int) =~= pb) by {
            assert forall|j: int| 0 <= j < pb.len() implies bytes.subrange(
                start + 1,
                start + 1 + pb.len() as int,
            )[j] == pb[j] by {
                lemma_bytes_match(bytes, start, part, 1 + j);
                assert(part[1 + j] == enc[1 + j]);
                assert(enc[1 + j] == pb[j]);
            }
        }
        match v {
            SpecValue::Data(b) => {
                lemma_parse_int_bytes(b.len() as int);
            },
            SpecValue::Bulk(vs) => {
                let x = vs.len() as int;
                lemma_parse_int_bytes(x);
                let avail2 = bytes.len() - (k + 1);
                assert(bytes.subrange(k + 1, bytes.len() as int) =~= tail.take(avail2)) by {
                    assert forall|j: int| 0 <= j < avail2 implies bytes.subrange(
                        k + 1,
                        bytes.len() as int,
                    )[j] == tail.take(avail2)[j] by {
                        lemma_bytes_match(bytes, start, part, h + 1 + j);
                        assert(part[h + 1 + j] == enc[h + 1 + j]);
                        assert(enc[3 + pb.len() + j] == tail[j]);
                    }
                }
                lemma_decode_elems_prefix_incomplete(bytes, k + 1, vs, 0);
            },
            _ => {},
        }
    }
}

/// A strict prefix of a run of encoded elements never yields the run: the
/// element the prefix cuts short makes the whole attempt incomplete.
pub proof fn lemma_decode_elems_prefix_incomplete(
    bytes: Seq<u8>,
    start: int,
    vs: Seq<SpecValue>,
    i: int,
)
    requires
        0 <= i <= vs.len(),
        forall|j: int| 0 <= j < vs.len() ==> spec_wf(#[trigger] vs[j]),
        0 <= start <= bytes.len(),
        bytes.len() - start < spec_encode_elems(vs, i).len(),
        bytes.subrange(start, bytes.len() as int) == spec_encode_elems(vs, i).take(
            bytes.len() - start,
        ),
    ensures
        spec_decode_elems(bytes, start, vs.len() - i) == SpecDecodedElems::Incomplete,
    decreases vs, vs.len() - i,
{
    let enc = spec_encode_elems(vs, i);
    let avail = bytes.len() - start;
    let part = enc.take(avail);
    assert(i < vs.len());
    let e0 = spec_encode(vs[i]);
    let rest = spec_encode_elems(vs, i + 1);
    assert(enc == e0 + rest);
    if avail < e0.len() {
        assert(bytes.subrange(start, bytes.len() as int) =~= e0.take(avail)) by {
            assert forall|j: int| 0 <= j < avail implies bytes.subrange(
                start,
                bytes.len() as int,
            )[j] == e0.take(avail)[j] by {
                lemma_bytes_match(bytes, start, part, j);
                assert(part[j] == enc[j]);
                assert(enc[j] == e0[j]);
            }
        }
        lemma_decode_prefix_incomplete(bytes, start, vs[i]);
    } else {
        assert(bytes.subrange(start, start + e0.len() as int) =~= e0) by {
            assert forall|j: int| 0 <= j < e0.len() implies bytes.subrange(
                start,
                start + e0.len() as int,
            )[j] == e0[j] by {
                lemma_bytes_match(bytes, start, part, j);
                assert(part[j] == enc[j]);
                assert(enc[j] == e0[j]);
            }
        }
        lemma_decode_encoded_at(bytes, start, vs[i]);
        lemma_encode_nonempty(vs[i]);
        let next = start + e0.len() as int;
        let avail2 = bytes.len() - next;
        assert(bytes.subrange(next, bytes.len() as int) =~= rest.take(avail2)) by {
            assert forall|j: int| 0 <= j < avail2 implies bytes.subrange(
                next,
                bytes.len() as int,
            )[j] == rest.take(avail2)[j] by {
                lemma_bytes_match(bytes, start, part, e0.len() + j);
                assert(part[e0.len() + j] == enc[e0.len() + j]);
                assert(enc[e0.len() + j] == rest[j]);
            }
        }
        lemma_decode_elems_prefix_incomplete(bytes, next, vs, i + 1);
    }
}


#[verifier::external_type_specification]
#[verifier::external_body]
pub struct ExUtf8Error(std::str::Utf8Error);

/// Relies on std::str::from_utf8: it succeeds exactly on input that is
/// valid UTF-8, and the string it returns is the one whose UTF-8 encoding
/// is that input.
#[verifier::external_body]
fn str_from_utf8(bytes: &[u8]) -> (r: Result<&str, std::str::Utf8Error>)
    ensures
        (match r {
            Ok(s) => encode_utf8(s@) == bytes@ && valid_utf8(bytes@),
            Err(_) => !valid_utf8(bytes@),
        }),
{
    std::str::from_utf8(bytes)
}

/// One owned copy of `bytes[from .. to]`.
fn copy_range(bytes: &[u8], from: usize, to: usize) -> (r: Vec<u8>)
    requires
        from <= to <= bytes@.len(),
    ensures
        r@ == bytes@.subrange(from as int, to as int),
{
    let mut v: Vec<u8> = Vec::new();
    let mut i: usize = from;
    while i < to
        invariant
            from <= i <= to <= bytes@.len(),
            v@ == bytes@.subrange(from as int, i as int),
        decreases to - i,
    {
        v.push(bytes[i]);
        proof {
            assert(bytes@.subrange(from as int, i + 1) =~= bytes@.subrange(
                from as int,
                i as int,
            ).push(bytes@[i as int]));
        }
        i += 1;
    }
    v
}

/// Parses `bytes[from .. to]` as a signed 64-bit decimal number: an
/// optional sign, then at least one digit and nothing else, with the value
/// in range.
#[verifier::loop_isolation(false)]
fn parse_i64_range(bytes: &[u8], from: usize, to: usize) -> (r: Option<i64>)
    requires
        from <= to <= bytes@.len(),
    ensures
        (match r {
            Some(x) => spec_parse_i64(bytes@.subrange(from as int, to as int)) == Some(x as int),
            None => spec_parse_i64(bytes@.subrange(from as int, to as int)) is None,
        }),
{
    let ghost s = bytes@.subrange(from as int, to as int);
    let mut i: usize = from;
    let mut neg: bool = false;
    if from < to && (bytes[from] == 43 || bytes[from] == 45) {
        neg = bytes[from] == 45;
        i = from + 1;
    }
    let ghost digits = bytes@.subrange(i as int, to as int);
    proof {
        if i > from {
            assert(digits =~= s.skip(1));
        } else {
            assert(digits =~= s);
        }
    }
    if i == to {
        return None;
    }
    let mut acc: u128 = 0;
    let mut j: usize = i;
    while j < to
        invariant
            from <= i <= j <= to <= bytes@.len(),
            digits == bytes@.subrange(i as int, to as int),
            all_digits(bytes@.subrange(i as int, j as int)),
            acc == dec_value(bytes@.subrange(i as int, j as int)),
            acc <= 9223372036854775808u128,
        decreases to - j,
    {
        let b = bytes[j];
        let ghost seen = bytes@.subrange(i as int, j as int);
        if b < 48 || b > 57 {
            proof {
                assert(digits[j - i] == b);
                assert(!all_digits(digits));
            }
            return None;
        }
        acc = acc * 10 + ((b - 48) as u128);
        proof {
            assert(bytes@.subrange(i as int, j + 1).drop_last() =~= seen);
            assert(bytes@.subrange(i as int, j + 1).last() == b);
            assert(all_digits(bytes@.subrange(i as int, j + 1)));
        }
        j += 1;
        if acc > 9223372036854775808u128 {
            proof {
                if all_digits(digits) {
                    assert(digits.take(j - i) =~= bytes@.subrange(i as int, j as int));
                    lemma_dec_value_prefix(digits, j - i);
                }
            }
            return None;
        }
    }
    proof {
        assert(bytes@.subrange(i as int, j as int) =~= digits);
    }
    if neg {
        if acc == 9223372036854775808u128 {
            Some(i64::MIN)
        } else {
            Some(-(acc as i64))
        }
    } else {
        if acc == 9223372036854775808u128 {
            None
        } else {
            Some(acc as i64)
        }
    }
}

impl Value {
    /// Parses exactly one value at `start_index`.
    ///
    /// A returned position of `0` means the bytes do not yet hold a whole
    /// value there: retry later from the same index with more bytes.
    /// Otherwise the returned position is where the value's encoding ends.
    /// A structurally invalid input is an error for the whole attempt; no
    /// partial value is ever surfaced.
    #[verifier::loop_isolation(false)]
    pub fn decode(bytes: &[u8], start_index: usize) -> (r: Result<(Value, usize), DecodeError>)
        ensures
            (match spec_decode(bytes@, start_index as int) {
                SpecDecoded::Incomplete => r matches Ok(p) && p.0 == Value::Nil && p.1 == 0,
                SpecDecoded::Invalid(e) => r matches Err(e2) && e2 == e,
                SpecDecoded::Decoded(v, next) => r matches Ok(p) && p.0.deep_view() == v && p.1
                    as int == next,
            }),
        decreases bytes@.len() - start_index,
    {
        let len = bytes.len();
        if start_index >= len {
            return Ok((Value::Nil, 0));
        }
        let mut k: usize = start_index;
        while k < len && bytes[k] != 10
            invariant
                start_index <= k,
                k <= len == bytes@.len(),
                forall|j: int| start_index <= j < k ==> bytes@[j] != 10u8,
            decreases len - k,
        {
            k += 1;
        }
        if k >= len {
            proof {
                lemma_find_lf_pins(bytes@, start_index as int, len as int);
            }
            return Ok((Value::Nil, 0));
        }
        proof {
            lemma_find_lf_pins(bytes@, start_index as int, k as int);
        }
        if k == start_index || bytes[k - 1] != 13 {
            return Err(DecodeError::BadTerminator);
        }

        let p = start_index + 1;
        let q = k - 1;
        let ghost line = bytes@.subrange(p as int, q as int);
        match bytes[start_index] {
            43u8 => {
                let text = copy_range(bytes, p, q);
                match str_from_utf8(text.as_slice()) {
                    Ok(s) => {
                        proof {
                            vstd::utf8::encode_utf8_decode_utf8(s@);
                        }
                        Ok((Value::Status(s.to_owned()), k + 1))
                    },
                    Err(_) => Err(DecodeError::BadText),
                }
            },
            45u8 => {
                let text = copy_range(bytes, p, q);
                match str_from_utf8(text.as_slice()) {
                    Ok(s) => {
                        proof {
                            vstd::utf8::encode_utf8_decode_utf8(s@);
                        }
                        Ok((Value::Error(s.to_owned()), k + 1))
                    },
                    Err(_) => Err(DecodeError::BadText),
                }
            },
            58u8 => {
                match parse_i64_range(bytes, p, q) {
                    Some(x) => Ok((Value::Int(x), k + 1)),
                    None => Err(DecodeError::BadNumber),
                }
            },
            36u8 => {
                match parse_i64_range(bytes, p, q) {
                    None => Err(DecodeError::BadNumber),
                    Some(x) => {
                        if x == -1 {
                            Ok((Value::Nil, k + 1))
                        } else if x < -1 || x > RESP_MAX_SIZE {
                            Err(DecodeError::BadLength)
                        } else {
                            let n = x as usize;
                            if len - k >= n + 3 {
                                let payload = copy_range(bytes, k + 1, k + 1 + n);
                                Ok((Value::Data(payload), k + n + 3))
                            } else {
                                Ok((Value::Nil, 0))
                            }
                        }
                    },
                }
            },
            42u8 => {
                match parse_i64_range(bytes, p, q) {
                    None => Err(DecodeError::BadNumber),
                    Some(x) => {
                        if x == -1 {
                            Ok((Value::NullArray, k + 1))
                        } else if x < -1 || x > RESP_MAX_SIZE {
                            Err(DecodeError::BadLength)
                        } else {
                            let n = x as usize;
                            let mut arr: Vec<Value> = Vec::new();
                            let mut off: usize = k + 1;
                            let mut idx: usize = 0;
                            proof {
                                match spec_decode_elems(bytes@, k + 1, n as int) {
                                    SpecDecodedElems::Decoded(vs, end) => {
                                        assert(views_of(arr@) =~= Seq::<SpecValue>::empty());
                                        assert(views_of(arr@) + vs =~= vs);
                                    },
                                    _ => {},
                                }
                            }
                            while idx < n
                                invariant
                                    idx <= n,
                                    n == x as int,
                                    0 <= x <= RESP_MAX_SIZE,
                                    start_index < k + 1 <= off <= bytes@.len(),
                                    arr@.len() == idx,
                                    (match spec_decode_elems(bytes@, off as int, n - idx) {
                                        SpecDecodedElems::Decoded(vs, end) => spec_decode_elems(
                                            bytes@,
                                            k + 1,
                                            n as int,
                                        ) == SpecDecodedElems::Decoded(views_of(arr@) + vs, end),
                                        SpecDecodedElems::Incomplete => spec_decode_elems(
                                            bytes@,
                                            k + 1,
                                            n as int,
                                        ) is Incomplete,
                                        SpecDecodedElems::Invalid(e) => spec_decode_elems(
                                            bytes@,
                                            k + 1,
                                            n as int,
                                        ) == SpecDecodedElems::Invalid(e),
                                    }),
                                decreases n - idx,
                            {
                                proof {
                                    lemma_decode_advances(bytes@, off as int);
                                }
                                match Value::decode(bytes, off) {
                                    Err(e) => {
                                        proof {
                                            assert(spec_decode_elems(bytes@, off as int, n - idx)
                                                == SpecDecodedElems::Invalid(e));
                                        }
                                        return Err(e);
                                    },
                                    Ok((val, next)) => {
                                        if next == 0 {
                                            proof {
                                                assert(spec_decode_elems(
                                                    bytes@,
                                                    off as int,
                                                    n - idx,
                                                ) is Incomplete);
                                            }
                                            return Ok((Value::Nil, 0));
                                        }
                                        proof {
                                            let dv = val.deep_view();
                                            lemma_views_push(arr@, val);
                                            match spec_decode_elems(
                                                bytes@,
                                                next as int,
                                                n - idx - 1,
                                            ) {
                                                SpecDecodedElems::Decoded(vs2, end) => {
                                                    assert(views_of(arr@) + (seq![dv] + vs2)
                                                        =~= views_of(arr@).push(dv) + vs2);
                                                },
                                                _ => {},
                                            }
                                        }
                                        arr.push(val);
                                        off = next;
                                        idx += 1;
                                    },
                                }
                            }
                            proof {
                                assert(spec_decode_elems(bytes@, off as int, 0)
                                    == SpecDecodedElems::Decoded(
                                    Seq::<SpecValue>::empty(),
                                    off as int,
                                ));
                                assert(views_of(arr@) + Seq::<SpecValue>::empty() =~= views_of(
                                    arr@,
                                ));
                            }
                            Ok((Value::Bulk(arr), off))
                        }
                    },
                }
            },
            _ => Err(DecodeError::BadMarker),
        }
    }

    /// Encodes this value into its wire bytes.
    #[verifier::loop_isolation(false)]
    pub fn encode(&self) -> (r: Vec<u8>)
        ensures
            r@ == spec_encode(self.deep_view()),
        decreases self,
    {
        let mut buf: Vec<u8> = Vec::new();
        match self {
            Value::Nil => {
                buf.push(36);
                buf.push(45);
                buf.push(49);
                buf.push(13);
                buf.push(10);
                proof {
                    assert(buf@ =~= spec_encode(self.deep_view()));
                }
            },
            Value::NullArray => {
                buf.push(42);
                buf.push(45);
                buf.push(49);
                buf.push(13);
                buf.push(10);
                proof {
                    assert(buf@ =~= spec_encode(self.deep_view()));
                }
            },
            Value::Status(val) => {
                buf.push(43);
                push_bytes(&mut buf, val.as_str().as_bytes());
                buf.push(13);
                buf.push(10);
                proof {
                    assert(buf@ =~= spec_encode(self.deep_view()));
                }
            },
            Value::Error(val) => {
                buf.push(45);
                push_bytes(&mut buf, val.as_str().as_bytes());
                buf.push(13);
                buf.push(10);
                proof {
                    assert(buf@ =~= spec_encode(self.deep_view()));
                }
            },
            Value::Int(val) => {
                buf.push(58);
                push_dec_i64(&mut buf, *val);
                buf.push(13);
                buf.push(10);
                proof {
                    assert(buf@ =~= spec_encode(self.deep_view()));
                }
            },
            Value::Data(val) => {
                buf.push(36);
                push_dec_u64(&mut buf, val.len() as u64);
                buf.push(13);
                buf.push(10);
                push_bytes(&mut buf, val.as_slice());
                buf.push(13);
                buf.push(10);
                proof {
                    assert(buf@ =~= spec_encode(self.deep_view()));
                }
            },
            Value::Bulk(val) => {
                buf.push(42);
                push_dec_u64(&mut buf, val.len() as u64);
                buf.push(13);
                buf.push(10);
                let ghost vs = views_of(val@);
                proof {
                    lemma_views_len(val@);
                    assert(buf@ + spec_encode_elems(vs, 0) =~= spec_encode(self.deep_view()));
                }
                let mut i: usize = 0;
                while i < val.len()
                    invariant
                        i <= val.len(),
                        buf@ + spec_encode_elems(vs, i as int) == spec_encode(self.deep_view()),
                    decreases val@.len() - i,
                {
                    let item = &val[i];
                    let enc = item.encode();
                    proof {
                        lemma_views_index(val@, i as int);
                        assert((buf@ + enc@) + spec_encode_elems(vs, i + 1) =~= buf@ + (enc@
                            + spec_encode_elems(vs, i + 1)));
                    }
                    push_bytes(&mut buf, enc.as_slice());
                    i += 1;
                }
                proof {
                    assert(buf@ + spec_encode_elems(vs, val@.len() as int) =~= buf@);
                }
            },
        }
        buf
    }
}

impl Value {
    /// A best-effort text view: the literal text for Status and Error, the
    /// decimal text for Int, the UTF-8 decoding of Data when its bytes are
    /// valid UTF-8 and an error when they are not, and nothing for the rest.
    pub fn to_string(&self) -> (r: Result<Option<String>, std::str::Utf8Error>)
        ensures
            (match self {
                Value::Status(t) => r matches Ok(o) && o matches Some(s) && s@ == t@,
                Value::Error(t) => r matches Ok(o) && o matches Some(s) && s@ == t@,
                Value::Int(i) => r matches Ok(o) && o matches Some(s) && encode_utf8(s@)
                    == spec_int_bytes(*i as int),
                Value::Data(b) => if valid_utf8(b@) {
                    r matches Ok(o) && o matches Some(s) && encode_utf8(s@) == b@
                } else {
                    r is Err
                },
                _ => r matches Ok(o) && o is None,
            }),
    {
        match self {
            Value::Status(val) => Ok(Some(val.clone())),
            Value::Error(val) => Ok(Some(val.clone())),
            Value::Int(val) => {
                let mut buf: Vec<u8> = Vec::new();
                push_dec_i64(&mut buf, *val);
                proof {
                    lemma_int_bytes_clean(*val as int);
                    assert forall|j: int| 0 <= j < buf@.len() implies #[trigger] buf@[j]
                        < 128 by {
                        assert(buf@[j] == spec_int_bytes(*val as int)[j]);
                    }
                    lemma_ascii_valid_utf8(buf@);
                }
                match str_from_utf8(buf.as_slice()) {
                    Ok(s) => Ok(Some(s.to_owned())),
                    Err(e) => Err(e),
                }
            },
            Value::Data(val) => {
                match str_from_utf8(val.as_slice()) {
                    Ok(s) => Ok(Some(s.to_owned())),
                    Err(e) => Err(e),
                }
            },
            Value::Nil => Ok(None),
            Value::NullArray => Ok(None),
            Value::Bulk(_) => Ok(None),
        }
    }

    /// The raw bytes of a Data value; every other kind yields the empty
    /// slice.
    pub fn as_slice(&self) -> (r: &[u8])
        ensures
            r@ == (match self {
                Value::Data(val) => val@,
                _ => Seq::<u8>::empty(),
            }),
    {
        match self {
            Value::Data(val) => val.as_slice(),
            _ => {
                let s = "";
                proof {
                    reveal_strlit("");
                    assert(s@ =~= Seq::<char>::empty());
                    assert(encode_utf8(Seq::<char>::empty()) =~= Seq::<u8>::empty());
                }
                s.as_bytes()
            },
        }
    }
}

/// Encodes a slice of strings as one array of binary values: the form a
/// client uses to send a command name and its arguments to a server.
#[verifier::loop_isolation(false)]
pub fn encode_slice(slice: &[&str]) -> (r: Vec<u8>)
    ensures
        r@ == spec_encode(
            SpecValue::Bulk(
                Seq::new(slice@.len(), |i: int| SpecValue::Data(encode_utf8(slice@[i]@))),
            ),
        ),
{
    let ghost target = Seq::new(
        slice@.len(),
        |i: int| SpecValue::Data(encode_utf8(slice@[i]@)),
    );
    let mut array: Vec<Value> = Vec::new();
    let mut i: usize = 0;
    while i < slice.len()
        invariant
            i <= slice@.len(),
            array@.len() == i,
            views_of(array@) == target.take(i as int),
        decreases slice@.len() - i,
    {
        let s = slice[i];
        let item = Value::Data(s.as_bytes_vec());
        proof {
            lemma_views_push(array@, item);
            assert(target.take(i + 1) =~= target.take(i as int).push(target[i as int]));
        }
        array.push(item);
        i += 1;
    }
    proof {
        assert(target.take(slice@.len() as int) =~= target);
    }
    let v = Value::Bulk(array);
    v.encode()
}

/// Appends a whole byte slice.
#[verifier::loop_isolation(false)]
pub(crate) fn push_bytes(buf: &mut Vec<u8>, data: &[u8])
    ensures
        final(buf)@ == old(buf)@ + data@,
{
    let mut i: usize = 0;
    while i < data.len()
        invariant
            i <= data@.len(),
            buf@ == old(buf)@ + data@.take(i as int),
        decreases data@.len() - i,
    {
        proof {
            assert((old(buf)@ + data@.take(i as int)).push(data@[i as int]) =~= old(buf)@
                + data@.take(i + 1));
        }
        buf.push(data[i]);
        i += 1;
    }
    proof {
        assert(old(buf)@ + data@.take(data@.len() as int) =~= old(buf)@ + data@);
    }
}

/// Appends the decimal digits of `n`, most significant first.
fn push_dec_u64(buf: &mut Vec<u8>, n: u64)
    ensures
        final(buf)@ == old(buf)@ + dec_digits(n as int),
    decreases n,
{
    if n <= 9 {
        buf.push(48 + (n as u8));
        proof {
            assert(old(buf)@.push((48 + n) as u8) =~= old(buf)@ + dec_digits(n as int));
        }
    } else {
        push_dec_u64(buf, n / 10);
        buf.push(48 + ((n % 10) as u8));
        proof {
            assert((old(buf)@ + dec_digits(n as int / 10)).push((48 + n as int % 10) as u8)
                =~= old(buf)@ + dec_digits(n as int));
        }
    }
}

/// Appends the decimal form of a signed number: a minus sign for negatives,
/// then the digits of the magnitude.
fn push_dec_i64(buf: &mut Vec<u8>, v: i64)
    ensures
        final(buf)@ == old(buf)@ + spec_int_bytes(v as int),
{
    if v >= 0 {
        push_dec_u64(buf, v as u64);
    } else {
        buf.push(45);
        let m: u64 = ((-(v + 1)) as u64) + 1;
        proof {
            assert(m as int == -(v as int));
        }
        push_dec_u64(buf, m);
        proof {
            assert(old(buf)@.push(45u8) + dec_digits(m as int) =~= old(buf)@ + spec_int_bytes(
                v as int,
            ));
        }
    }
}

} // verus!
