//! Mathematical model of the wire protocol: an abstract frame type, the
//! canonical encoding of a frame into bytes, and the meaning of decoding
//! a byte buffer, stated as recursive spec functions. The executable
//! codec in `resp` is specified against these definitions.

use vstd::prelude::*;
use crate::DecodeError;

verus! {

/// The bytes CR and LF, and the five frame type prefixes.
pub const CR: u8 = 13;

pub const LF: u8 = 10;

/// `'+'`, the simple string prefix.
pub const T_SIMPLE: u8 = 43;

/// `'-'`, the error prefix; also the minus sign.
pub const T_ERROR: u8 = 45;

/// `':'`, the integer prefix.
pub const T_INTEGER: u8 = 58;

/// `'$'`, the bulk string prefix.
pub const T_BULK: u8 = 36;

/// `'*'`, the array prefix.
pub const T_ARRAY: u8 = 42;

/// `'+'`, as an explicit plus sign in an integer line.
pub const PLUS: u8 = 43;

/// `'-'`, as a minus sign in an integer line.
pub const MINUS: u8 = 45;

/// Upper bound on array nesting depth accepted by the decoder.
pub const MAX_DEPTH: usize = 32;

/// Upper bound on the declared element count of a single array frame.
pub const MAX_ELEMENTS: i64 = 1000000;

/// Abstract view of one protocol frame.
pub enum ValueModel {
    SimpleString(Seq<u8>),
    BulkString(Seq<u8>),
    Error(Seq<u8>),
    Integer(int),
    Array(Seq<ValueModel>),
    Null,
}

/// True for the bytes `'0'..='9'`.
pub open spec fn is_digit(b: u8) -> bool {
    48 <= b && b <= 57
}

pub open spec fn all_digits(s: Seq<u8>) -> bool {
    forall|i: int| 0 <= i < s.len() ==> is_digit(s[i])
}

/// Value of a sequence of digit bytes read as a base-10 numeral.
pub open spec fn digits_val(s: Seq<u8>) -> int
    decreases s.len(),
{
    if s.len() == 0 {
        0
    } else {
        digits_val(s.drop_last()) * 10 + (s.last() - 48)
    }
}

/// A valid integer line: an optional sign followed by at least one digit.
pub open spec fn is_int_literal(s: Seq<u8>) -> bool {
    if s.len() == 0 {
        false
    } else if s[0] == MINUS || s[0] == PLUS {
        s.len() >= 2 && all_digits(s.skip(1))
    } else {
        all_digits(s)
    }
}

/// The integer denoted by a valid integer line.
pub open spec fn int_of(s: Seq<u8>) -> int
    recommends
        is_int_literal(s),
{
    if s[0] == MINUS {
        -digits_val(s.skip(1))
    } else if s[0] == PLUS {
        digits_val(s.skip(1))
    } else {
        digits_val(s)
    }
}

/// Canonical base-10 digits of a non-negative integer, no leading zeros.
pub open spec fn dec_digits(n: int) -> Seq<u8>
    recommends
        n >= 0,
    decreases n,
{
    if n < 10 {
        seq![(48 + n) as u8]
    } else {
        dec_digits(n / 10).push((48 + n % 10) as u8)
    }
}

/// Canonical rendering of a signed integer.
pub open spec fn int_rep(n: int) -> Seq<u8> {
    if n < 0 {
        seq![MINUS] + dec_digits(-n)
    } else {
        dec_digits(n)
    }
}

/// Does `s` contain the two consecutive bytes CR LF anywhere?
pub open spec fn contains_crlf(s: Seq<u8>) -> bool {
    exists|i: int| 0 <= i && i + 1 < s.len() && #[trigger] s[i] == CR && s[i + 1] == LF
}

/// Position of the first CR LF pair in `s`, if any.
pub open spec fn first_crlf(s: Seq<u8>) -> Option<int>
    decreases s.len(),
{
    if s.len() < 2 {
        None
    } else if s[0] == CR && s[1] == LF {
        Some(0)
    } else {
        match first_crlf(s.skip(1)) {
            None => None,
            Some(p) => Some(p + 1),
        }
    }
}

/// Reading one CRLF-terminated line of a frame `s`, skipping the type
/// byte `s[0]`: yields the line's bytes and the total byte count of the
/// type byte, the line and its CRLF terminator.
pub open spec fn parse_line(s: Seq<u8>) -> Option<(Seq<u8>, int)> {
    if s.len() < 1 {
        None
    } else {
        match first_crlf(s.skip(1)) {
            None => None,
            Some(p) => Some((s.subrange(1, 1 + p), p + 3)),
        }
    }
}

/// An integer line that parses and fits in `i64`.
pub open spec fn line_int_ok(line: Seq<u8>) -> bool {
    is_int_literal(line) && i64::MIN as int <= int_of(line) && int_of(line) <= i64::MAX as int
}

/// Meaning of decoding a simple string frame (`'+'` already seen).
pub open spec fn dec_simple(s: Seq<u8>) -> Result<(ValueModel, int), DecodeError> {
    match parse_line(s) {
        None => Err(DecodeError::Incomplete),
        Some((line, c)) => Ok((ValueModel::SimpleString(line), c)),
    }
}

/// Meaning of decoding an error frame (`'-'` already seen).
pub open spec fn dec_error(s: Seq<u8>) -> Result<(ValueModel, int), DecodeError> {
    match parse_line(s) {
        None => Err(DecodeError::Incomplete),
        Some((line, c)) => Ok((ValueModel::Error(line), c)),
    }
}

/// Meaning of decoding an integer frame (`':'` already seen).
pub open spec fn dec_integer(s: Seq<u8>) -> Result<(ValueModel, int), DecodeError> {
    match parse_line(s) {
        None => Err(DecodeError::Incomplete),
        Some((line, c)) => if line_int_ok(line) {
            Ok((ValueModel::Integer(int_of(line)), c))
        } else {
            Err(DecodeError::InvalidInteger)
        },
    }
}

/// Meaning of decoding a bulk string frame (`'$'` already seen): a
/// length line, then that many payload bytes, then CRLF. A negative
/// declared length denotes the null bulk string.
pub open spec fn dec_bulk(s: Seq<u8>) -> Result<(ValueModel, int), DecodeError> {
    match parse_line(s) {
        None => Err(DecodeError::Incomplete),
        Some((line, h)) => if !line_int_ok(line) {
            Err(DecodeError::InvalidInteger)
        } else {
            let n = int_of(line);
            if n < 0 {
                Ok((ValueModel::Null, h))
            } else if h + n + 2 > s.len() {
                Err(DecodeError::Incomplete)
            } else if s[h + n] == CR && s[h + n + 1] == LF {
                Ok((ValueModel::BulkString(s.subrange(h, h + n)), h + n + 2))
            } else {
                Err(DecodeError::MalformedBulkString)
            }
        },
    }
}

/// Meaning of decoding one frame from `s`. `depth` bounds the array
/// nesting that may still be opened below this frame.
pub open spec fn dec_frame(s: Seq<u8>, depth: nat) -> Result<(ValueModel, int), DecodeError>
    decreases depth, 2nat, 0nat,
{
    if s.len() == 0 {
        Err(DecodeError::Incomplete)
    } else if s[0] == T_SIMPLE {
        dec_simple(s)
    } else if s[0] == T_ERROR {
        dec_error(s)
    } else if s[0] == T_INTEGER {
        dec_integer(s)
    } else if s[0] == T_BULK {
        dec_bulk(s)
    } else if s[0] == T_ARRAY {
        dec_array(s, depth)
    } else {
        Err(DecodeError::UnknownType)
    }
}

/// Meaning of decoding an array frame (`'*'` already seen): a count
/// line, then that many child frames in order. A negative count denotes
/// the null array.
pub open spec fn dec_array(s: Seq<u8>, depth: nat) -> Result<(ValueModel, int), DecodeError>
    decreases depth, 1nat, 0nat,
{
    match parse_line(s) {
        None => Err(DecodeError::Incomplete),
        Some((line, h)) => if !line_int_ok(line) {
            Err(DecodeError::InvalidInteger)
        } else {
            let n = int_of(line);
            if n < 0 {
                Ok((ValueModel::Null, h))
            } else if n > MAX_ELEMENTS as int {
                Err(DecodeError::LimitExceeded)
            } else if depth == 0 {
                Err(DecodeError::LimitExceeded)
            } else {
                match dec_elems(s.skip(h), n as nat, (depth - 1) as nat) {
                    Ok((vs, c2)) => Ok((ValueModel::Array(vs), h + c2)),
                    Err(e) => Err(e),
                }
            }
        },
    }
}

/// Meaning of decoding `n` consecutive child frames from `s`.
pub open spec fn dec_elems(s: Seq<u8>, n: nat, depth: nat) -> Result<(Seq<ValueModel>, int), DecodeError>
    decreases depth, 3nat, n,
{
    if n == 0 {
        Ok((Seq::empty(), 0))
    } else {
        match dec_frame(s, depth) {
            Ok((v, c)) => match dec_elems(s.skip(c), (n - 1) as nat, depth) {
                Ok((vs, c2)) => Ok((seq![v] + vs, c + c2)),
                Err(e) => Err(e),
            },
            Err(e) => Err(e),
        }
    }
}

/// Meaning of decoding one frame from the head of a buffer, with the
/// full nesting budget. `Ok((v, c))` holds the frame and the exact
/// number of bytes it occupies; `Err(Incomplete)` asks for more input.
pub open spec fn spec_decode(s: Seq<u8>) -> Result<(ValueModel, int), DecodeError> {
    dec_frame(s, MAX_DEPTH as nat)
}

/// Canonical wire bytes of a frame. Null is rendered in its bulk-string
/// form `$-1\r\n`.
pub open spec fn encode_spec(v: ValueModel) -> Seq<u8>
    decreases v,
{
    match v {
        ValueModel::SimpleString(s) => seq![T_SIMPLE] + s + seq![CR, LF],
        ValueModel::Error(s) => seq![T_ERROR] + s + seq![CR, LF],
        ValueModel::Integer(n) => seq![T_INTEGER] + int_rep(n) + seq![CR, LF],
        ValueModel::BulkString(s) =>
            seq![T_BULK] + dec_digits(s.len() as int) + seq![CR, LF] + s + seq![CR, LF],
        ValueModel::Null => seq![T_BULK, MINUS, 49u8, CR, LF],
        ValueModel::Array(vs) =>
            seq![T_ARRAY] + dec_digits(vs.len() as int) + seq![CR, LF] + encode_list(vs),
    }
}

/// Concatenated encodings of a sequence of frames.
pub open spec fn encode_list(vs: Seq<ValueModel>) -> Seq<u8>
    decreases vs,
{
    if vs.len() == 0 {
        Seq::empty()
    } else {
        encode_spec(vs[0]) + encode_list(vs.drop_first())
    }
}

/// Frames the decoder can produce under a nesting budget of `depth`:
/// line-delimited payloads hold no CRLF pair, integers fit in `i64`,
/// bulk payload lengths fit in `i64`, and arrays respect the element
/// and nesting limits.
pub open spec fn wf_at(v: ValueModel, depth: nat) -> bool
    decreases depth, 1nat, 0nat,
{
    match v {
        ValueModel::SimpleString(s) => !contains_crlf(s),
        ValueModel::Error(s) => !contains_crlf(s),
        ValueModel::Integer(n) => i64::MIN as int <= n && n <= i64::MAX as int,
        ValueModel::BulkString(s) => s.len() <= i64::MAX as int,
        ValueModel::Null => true,
        ValueModel::Array(vs) =>
            depth > 0 && vs.len() <= MAX_ELEMENTS as int && wf_list(vs, (depth - 1) as nat),
    }
}

/// All frames of a sequence are well-formed under budget `depth`.
pub open spec fn wf_list(vs: Seq<ValueModel>, depth: nat) -> bool
    decreases depth, 2nat, vs.len(),
{
    if vs.len() == 0 {
        true
    } else {
        wf_at(vs[0], depth) && wf_list(vs.drop_first(), depth)
    }
}

/// A frame the decoder can produce at the top level.
pub open spec fn wf_frame(v: ValueModel) -> bool {
    wf_at(v, MAX_DEPTH as nat)
}

/// `first_crlf` finds exactly the earliest CR LF pair: a found position
/// carries the pair and excludes any earlier pair, and `None` means no
/// pair exists at all.
pub proof fn lemma_first_crlf(s: Seq<u8>)
    ensures
        match first_crlf(s) {
            Some(p) => 0 <= p && p + 1 < s.len() && s[p] == CR && s[p + 1] == LF && (forall|q: int|
                0 <= q < p ==> !(#[trigger] s[q] == CR && s[q + 1] == LF)),
            None => forall|q: int|
                0 <= q && q + 1 < s.len() ==> !(#[trigger] s[q] == CR && s[q + 1] == LF),
        },
    decreases s.len(),
{
    if s.len() < 2 {
    } else if s[0] == CR && s[1] == LF {
    } else {
        lemma_first_crlf(s.skip(1));
        assert(forall|q: int| 0 <= q && q + 1 < s.skip(1).len() ==> s.skip(1)[q] == s[q + 1]);
        match first_crlf(s.skip(1)) {
            Some(p) => {
                assert(s[p + 1] == s.skip(1)[p]);
                assert(s[p + 2] == s.skip(1)[p + 1]);
                assert forall|q: int| 0 <= q < p + 1 implies !(#[trigger] s[q] == CR && s[q + 1]
                    == LF) by {
                    if q > 0 {
                        assert(s.skip(1)[q - 1] == s[q]);
                        assert(s.skip(1)[q] == s[q + 1]);
                    }
                }
            },
            None => {
                assert forall|q: int| 0 <= q && q + 1 < s.len() implies !(#[trigger] s[q] == CR
                    && s[q + 1] == LF) by {
                    if q > 0 {
                        assert(s.skip(1)[q - 1] == s[q]);
                        assert(s.skip(1)[q] == s[q + 1]);
                    }
                }
            },
        }
    }
}

/// A digit string names a non-negative number.
pub proof fn lemma_digits_val_nonneg(s: Seq<u8>)
    requires
        all_digits(s),
    ensures
        digits_val(s) >= 0,
    decreases s.len(),
{
    if s.len() > 0 {
        lemma_digits_val_nonneg(s.drop_last());
    }
}

/// Reading more digits never shrinks the value.
pub proof fn lemma_digits_val_prefix(s: Seq<u8>, k: int)
    requires
        all_digits(s),
        0 <= k <= s.len(),
    ensures
        digits_val(s.take(k)) <= digits_val(s),
    decreases s.len(),
{
    if k == s.len() {
        assert(s.take(k) =~= s);
    } else {
        assert(s.take(k) =~= s.drop_last().take(k));
        lemma_digits_val_prefix(s.drop_last(), k);
        lemma_digits_val_nonneg(s.drop_last());
    }
}

} // verus!
