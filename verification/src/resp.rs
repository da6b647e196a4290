//! Executable frame type and codec: the `Value` enum, its canonical
//! serialization, and the streaming decoder. Every function is
//! specified against the model in `model`.

use vstd::prelude::*;
use crate::model::{
    ValueModel, encode_spec, encode_list, dec_digits, int_rep, CR, LF, MINUS, PLUS, T_SIMPLE,
    T_ERROR, T_INTEGER, T_BULK, T_ARRAY, MAX_DEPTH, MAX_ELEMENTS, first_crlf, parse_line,
    is_digit, all_digits, digits_val, is_int_literal, int_of, line_int_ok, dec_simple, dec_error,
    dec_integer, dec_bulk, dec_array, dec_frame, dec_elems, spec_decode, lemma_first_crlf,
    lemma_digits_val_prefix,
};
use crate::DecodeError;

verus! {

/// One protocol frame. `Null` marks absence of a value (a GET miss),
/// distinct from an empty string. Payloads are byte strings counted by
/// byte length.
#[derive(Debug)]
pub enum Value {
    SimpleString(Vec<u8>),
    BulkString(Vec<u8>),
    Error(Vec<u8>),
    Integer(i64),
    Array(Vec<Value>),
    Null,
}

/// Abstract frame denoted by an executable frame.
pub open spec fn model(v: Value) -> ValueModel
    decreases v,
{
    match v {
        Value::SimpleString(s) => ValueModel::SimpleString(s@),
        Value::BulkString(s) => ValueModel::BulkString(s@),
        Value::Error(s) => ValueModel::Error(s@),
        Value::Integer(n) => ValueModel::Integer(n as int),
        Value::Array(items) => ValueModel::Array(model_list(items@)),
        Value::Null => ValueModel::Null,
    }
}

/// Models of a sequence of frames, element by element.
pub open spec fn model_list(vs: Seq<Value>) -> Seq<ValueModel>
    decreases vs,
{
    if vs.len() == 0 {
        Seq::empty()
    } else {
        seq![model(vs[0])] + model_list(vs.drop_first())
    }
}

impl View for Value {
    type V = ValueModel;

    open spec fn view(&self) -> ValueModel {
        model(*self)
    }
}

/// `model_list` is the element-wise model.
pub proof fn lemma_model_list(vs: Seq<Value>)
    ensures
        model_list(vs).len() == vs.len(),
        forall|i: int| 0 <= i < vs.len() ==> model_list(vs)[i] == vs[i]@,
    decreases vs.len(),
{
    if vs.len() > 0 {
        lemma_model_list(vs.drop_first());
        assert forall|i: int| 0 <= i < vs.len() implies model_list(vs)[i] == vs[i]@ by {
            if i > 0 {
                assert(model_list(vs)[i] == model_list(vs.drop_first())[i - 1]);
                assert(vs.drop_first()[i - 1] == vs[i]);
            }
        }
    }
}

/// Appending one frame appends its model.
pub proof fn lemma_model_list_push(vs: Seq<Value>, v: Value)
    ensures
        model_list(vs.push(v)) == model_list(vs).push(v@),
{
    lemma_model_list(vs);
    lemma_model_list(vs.push(v));
    assert(model_list(vs.push(v)) =~= model_list(vs).push(v@));
}

/// Appending one frame to a list appends its encoding.
pub proof fn lemma_encode_list_snoc(vs: Seq<ValueModel>, v: ValueModel)
    ensures
        encode_list(vs.push(v)) == encode_list(vs) + encode_spec(v),
    decreases vs.len(),
{
    if vs.len() == 0 {
        assert(vs =~= Seq::<ValueModel>::empty());
        assert(vs.push(v)[0] == v);
        assert(vs.push(v).drop_first() =~= vs);
        assert(encode_list(vs.push(v)) == encode_spec(v) + encode_list(vs));
        assert(encode_list(vs.push(v)) =~= encode_list(vs) + encode_spec(v));
    } else {
        lemma_encode_list_snoc(vs.drop_first(), v);
        assert(vs.push(v)[0] == vs[0]);
        assert(vs.push(v).drop_first() =~= vs.drop_first().push(v));
        assert(encode_list(vs.push(v)) == encode_spec(vs[0]) + encode_list(
            vs.drop_first().push(v),
        ));
        assert(encode_list(vs.push(v)) == encode_spec(vs[0]) + (encode_list(vs.drop_first())
            + encode_spec(v)));
        assert((encode_spec(vs[0]) + (encode_list(vs.drop_first()) + encode_spec(v))) =~= (
        (encode_spec(vs[0]) + encode_list(vs.drop_first())) + encode_spec(v)));
        assert(encode_list(vs) == encode_spec(vs[0]) + encode_list(vs.drop_first()));
        assert(encode_list(vs.push(v)) =~= encode_list(vs) + encode_spec(v));
    }
}

/// Appends every byte of `src` to `out`.
pub(crate) fn push_bytes(out: &mut Vec<u8>, src: &Vec<u8>)
    ensures
        final(out)@ == old(out)@ + src@,
{
    let mut i: usize = 0;
    while i < src.len()
        invariant
            i <= src.len(),
            out@ == old(out)@ + src@.take(i as int),
        decreases src.len() - i,
    {
        out.push(src[i]);
        i = i + 1;
        assert(out@ =~= old(out)@ + src@.take(i as int));
    }
    assert(src@.take(src@.len() as int) =~= src@);
}

/// Appends the canonical decimal digits of `n`.
fn push_digits(out: &mut Vec<u8>, n: u64)
    ensures
        final(out)@ == old(out)@ + dec_digits(n as int),
    decreases n,
{
    if n < 10 {
        out.push(48 + n as u8);
    } else {
        push_digits(out, n / 10);
        out.push(48 + (n % 10) as u8);
        assert(out@ =~= old(out)@ + dec_digits(n as int));
    }
}

/// Appends the canonical rendering of a signed integer.
fn push_int(out: &mut Vec<u8>, n: i64)
    ensures
        final(out)@ == old(out)@ + int_rep(n as int),
{
    if n >= 0 {
        push_digits(out, n as u64);
    } else {
        out.push(MINUS);
        let wide: i128 = n as i128;
        let mag: u64 = (-wide) as u64;
        assert(mag as int == -(n as int));
        push_digits(out, mag);
        assert(out@ =~= old(out)@ + int_rep(n as int));
    }
}

impl Value {
    /// The exact canonical wire bytes of this frame: encoding is total
    /// and never fails, and every variant has one canonical form.
    #[verifier::loop_isolation(false)]
    pub fn serialize(&self) -> (out: Vec<u8>)
        ensures
            out@ == encode_spec(self@),
        decreases self,
    {
        let mut out: Vec<u8> = Vec::new();
        match self {
            Value::SimpleString(s) => {
                out.push(T_SIMPLE);
                push_bytes(&mut out, s);
                out.push(CR);
                out.push(LF);
                assert(out@ =~= encode_spec(self@));
            },
            Value::Error(s) => {
                out.push(T_ERROR);
                push_bytes(&mut out, s);
                out.push(CR);
                out.push(LF);
                assert(out@ =~= encode_spec(self@));
            },
            Value::Integer(n) => {
                out.push(T_INTEGER);
                push_int(&mut out, *n);
                out.push(CR);
                out.push(LF);
                assert(out@ =~= encode_spec(self@));
            },
            Value::BulkString(s) => {
                out.push(T_BULK);
                push_digits(&mut out, s.len() as u64);
                out.push(CR);
                out.push(LF);
                push_bytes(&mut out, s);
                out.push(CR);
                out.push(LF);
                assert(out@ =~= encode_spec(self@));
            },
            Value::Null => {
                out.push(T_BULK);
                out.push(MINUS);
                out.push(49);
                out.push(CR);
                out.push(LF);
                assert(out@ =~= encode_spec(self@));
            },
            Value::Array(items) => {
                proof {
                    lemma_model_list(items@);
                }
                out.push(T_ARRAY);
                push_digits(&mut out, items.len() as u64);
                out.push(CR);
                out.push(LF);
                let ghost header: Seq<u8> = out@;
                let mut i: usize = 0;
                while i < items.len()
                    invariant
                        i <= items.len(),
                        out@ == header + encode_list(model_list(items@.take(i as int))),
                        header == seq![T_ARRAY] + dec_digits(items@.len() as int) + seq![CR, LF],
                    decreases items.len() - i,
                {
                    proof {
                        assert(decreases_to!(self => items@[i as int])) by {
                            assert(decreases_to!(*self => (*self)->Array_0));
                            assert((*self)->Array_0 == *items);
                            assert(decreases_to!(*items => items@));
                            assert(decreases_to!(items@ => items@[i as int]));
                        }
                    }
                    let piece = items[i].serialize();
                    push_bytes(&mut out, &piece);
                    proof {
                        lemma_model_list(items@);
                        lemma_model_list(items@.take(i as int));
                        lemma_model_list(items@.take(i + 1 as int));
                        assert(model_list(items@.take(i + 1)) =~= model_list(
                            items@.take(i as int),
                        ).push(items@[i as int]@));
                        lemma_encode_list_snoc(model_list(items@.take(i as int)), items@[i as int]@);
                        assert(out@ =~= header + encode_list(model_list(items@.take(i + 1))));
                    }
                    i = i + 1;
                }
                proof {
                    assert(items@.take(items@.len() as int) =~= items@);
                    lemma_model_list(items@);
                    assert(out@ =~= encode_spec(self@));
                }
            },
        }
        out
    }
}

} // verus!

verus! {

/// Copies `buffer[a..b]` into a fresh vector.
pub(crate) fn bytes_range(buffer: &Vec<u8>, a: usize, b: usize) -> (r: Vec<u8>)
    requires
        a <= b <= buffer@.len(),
    ensures
        r@ == buffer@.subrange(a as int, b as int),
{
    let mut r: Vec<u8> = Vec::new();
    let mut i: usize = a;
    while i < b
        invariant
            a <= i <= b <= buffer@.len(),
            r@ == buffer@.subrange(a as int, i as int),
        decreases b - i,
    {
        r.push(buffer[i]);
        i = i + 1;
        assert(r@ =~= buffer@.subrange(a as int, i as int));
    }
    r
}

/// Scans for the first CR LF pair at or after `from`.
#[verifier::loop_isolation(false)]
fn find_crlf_from(buffer: &Vec<u8>, from: usize) -> (r: Option<usize>)
    requires
        from <= buffer@.len(),
    ensures
        match r {
            Some(p) => from <= p && p + 1 < buffer@.len() && first_crlf(buffer@.skip(from as int))
                == Some(p - from),
            None => first_crlf(buffer@.skip(from as int)) == None::<int>,
        },
{
    let ghost s = buffer@.skip(from as int);
    proof {
        lemma_first_crlf(s);
        assert(forall|q: int| 0 <= q < s.len() ==> s[q] == buffer@[from + q]);
    }
    let len = buffer.len();
    if len == 0 {
        return None;
    }
    let mut j: usize = from;
    while j < len - 1
        invariant
            from <= j,
            j <= buffer@.len(),
            forall|q: int| from <= q < j ==> !(#[trigger] buffer@[q] == CR && buffer@[q + 1] == LF),
        decreases buffer@.len() - j,
    {
        if buffer[j] == CR && buffer[j + 1] == LF {
            proof {
                assert(s[j - from] == CR && s[j - from + 1] == LF);
                if first_crlf(s) is None {
                    assert(false);
                }
                let p = first_crlf(s)->Some_0;
                if p < j - from {
                    assert(buffer@[from + p] == CR && buffer@[from + p + 1] == LF);
                    assert(false);
                }
                if p > j - from {
                    assert(false);
                }
            }
            return Some(j);
        }
        j = j + 1;
    }
    proof {
        if first_crlf(s) is Some {
            let p = first_crlf(s)->Some_0;
            assert(buffer@[from + p] == CR && buffer@[from + p + 1] == LF);
            assert(false);
        }
    }
    None
}

/// Reads the CRLF-terminated line that follows the type byte at
/// `start`; yields the line and the byte count consumed from `start`.
fn parse_line_at(buffer: &Vec<u8>, start: usize) -> (r: Option<(Vec<u8>, usize)>)
    requires
        start <= buffer@.len(),
    ensures
        match r {
            Some((line, c)) => parse_line(buffer@.skip(start as int)) == Some((line@, c as int))
                && 3 <= c && start + c <= buffer@.len(),
            None => parse_line(buffer@.skip(start as int)) == None::<(Seq<u8>, int)>,
        },
{
    if start >= buffer.len() {
        return None;
    }
    proof {
        assert(buffer@.skip(start as int).skip(1) =~= buffer@.skip(start + 1));
    }
    match find_crlf_from(buffer, start + 1) {
        None => None,
        Some(p) => {
            let line = bytes_range(buffer, start + 1, p);
            proof {
                assert(buffer@.skip(start as int).subrange(1, 1 + (p - (start + 1))) =~= buffer@
                    .subrange(start + 1, p as int));
            }
            Some((line, p - start + 2))
        },
    }
}

/// A digit run whose value already exceeds `u64::MAX` cannot be the
/// digits of any line that parses into an `i64`.
proof fn lemma_overflowing_int(s: Seq<u8>, ds: int, i: int)
    requires
        0 < s.len(),
        ds == 0 || ds == 1,
        ds == 1 ==> (s[0] == MINUS || s[0] == PLUS),
        ds == 0 ==> !(s[0] == MINUS || s[0] == PLUS),
        ds <= i < s.len(),
        digits_val(s.subrange(ds, i + 1)) > u64::MAX as int,
    ensures
        !line_int_ok(s),
{
    if is_int_literal(s) {
        let digits = s.skip(ds);
        assert(forall|q: int| 0 <= q < digits.len() ==> digits[q] == s[ds + q]);
        if ds == 0 {
            assert(digits =~= s);
        }
        assert(all_digits(digits));
        assert(digits.take(i + 1 - ds) =~= s.subrange(ds, i + 1));
        lemma_digits_val_prefix(digits, i + 1 - ds);
        assert(digits_val(digits) > u64::MAX as int);
        if s[0] == MINUS {
            assert(int_of(s) < i64::MIN as int);
        } else if s[0] == PLUS {
            assert(int_of(s) > i64::MAX as int);
        } else {
            assert(int_of(s) > i64::MAX as int);
        }
    }
}

/// Parses a whole buffer as one signed base-10 integer, as the length
/// and count lines of frames use them: an optional sign, then digits,
/// rejected unless the value fits in `i64`.
#[verifier::loop_isolation(false)]
pub fn parse_int(buffer: &Vec<u8>) -> (r: Result<i64, DecodeError>)
    ensures
        match r {
            Ok(n) => line_int_ok(buffer@) && n as int == int_of(buffer@),
            Err(e) => e == DecodeError::InvalidInteger && !line_int_ok(buffer@),
        },
{
    let len = buffer.len();
    if len == 0 {
        return Err(DecodeError::InvalidInteger);
    }
    let neg: bool = buffer[0] == MINUS;
    let ds: usize = if buffer[0] == MINUS || buffer[0] == PLUS {
        1
    } else {
        0
    };
    if ds >= len {
        return Err(DecodeError::InvalidInteger);
    }
    let ghost digits = buffer@.skip(ds as int);
    proof {
        assert(forall|q: int| 0 <= q < digits.len() ==> digits[q] == buffer@[ds + q]);
    }
    let mut acc: u64 = 0;
    let mut i: usize = ds;
    while i < len
        invariant
            ds <= i <= len == buffer@.len(),
            digits == buffer@.skip(ds as int),
            forall|q: int| ds <= q < i ==> is_digit(#[trigger] buffer@[q]),
            acc as int == digits_val(buffer@.subrange(ds as int, i as int)),
        decreases len - i,
    {
        let d = buffer[i];
        if d < 48 || d > 57 {
            proof {
                assert(!is_digit(digits[i - ds]));
                assert(!all_digits(digits));
                if ds == 1 {
                    assert(!is_int_literal(buffer@));
                } else {
                    assert(digits =~= buffer@);
                    assert(!is_int_literal(buffer@));
                }
            }
            return Err(DecodeError::InvalidInteger);
        }
        let dv: u64 = (d - 48) as u64;
        proof {
            assert(buffer@.subrange(ds as int, i + 1).drop_last() =~= buffer@.subrange(
                ds as int,
                i as int,
            ));
        }
        let wide: u128 = acc as u128 * 10 + dv as u128;
        if wide > u64::MAX as u128 {
            proof {
                lemma_overflowing_int(buffer@, ds as int, i as int);
            }
            return Err(DecodeError::InvalidInteger);
        }
        acc = wide as u64;
        i = i + 1;
    }
    proof {
        assert(buffer@.subrange(ds as int, len as int) =~= digits);
        if ds == 0 {
            assert(digits =~= buffer@);
        }
        assert(is_int_literal(buffer@));
        assert(acc as int == digits_val(digits));
        if buffer@[0] == MINUS {
            assert(int_of(buffer@) == -digits_val(digits));
        } else {
            assert(int_of(buffer@) == digits_val(digits));
        }
    }
    if neg {
        if acc > 9223372036854775808u64 {
            return Err(DecodeError::InvalidInteger);
        }
        if acc == 9223372036854775808u64 {
            Ok(i64::MIN)
        } else {
            Ok(-(acc as i64))
        }
    } else {
        if acc > i64::MAX as u64 {
            return Err(DecodeError::InvalidInteger);
        }
        Ok(acc as i64)
    }
}

} // verus!

verus! {

/// Decodes a simple string frame found at `start`.
fn parse_simple_string_at(buffer: &Vec<u8>, start: usize) -> (r: Result<(Value, usize), DecodeError>)
    requires
        start <= buffer@.len(),
    ensures
        match r {
            Ok((v, c)) => dec_simple(buffer@.skip(start as int)) == Ok::<_, DecodeError>(
                (v@, c as int),
            ) && 1 <= c && start + c <= buffer@.len(),
            Err(e) => dec_simple(buffer@.skip(start as int)) == Err::<(ValueModel, int), _>(e),
        },
{
    match parse_line_at(buffer, start) {
        Some((line, c)) => Ok((Value::SimpleString(line), c)),
        None => Err(DecodeError::Incomplete),
    }
}

/// Decodes an error frame found at `start`.
fn parse_error_at(buffer: &Vec<u8>, start: usize) -> (r: Result<(Value, usize), DecodeError>)
    requires
        start <= buffer@.len(),
    ensures
        match r {
            Ok((v, c)) => dec_error(buffer@.skip(start as int)) == Ok::<_, DecodeError>(
                (v@, c as int),
            ) && 1 <= c && start + c <= buffer@.len(),
            Err(e) => dec_error(buffer@.skip(start as int)) == Err::<(ValueModel, int), _>(e),
        },
{
    match parse_line_at(buffer, start) {
        Some((line, c)) => Ok((Value::Error(line), c)),
        None => Err(DecodeError::Incomplete),
    }
}

/// Decodes an integer frame found at `start`.
fn parse_integer_at(buffer: &Vec<u8>, start: usize) -> (r: Result<(Value, usize), DecodeError>)
    requires
        start <= buffer@.len(),
    ensures
        match r {
            Ok((v, c)) => dec_integer(buffer@.skip(start as int)) == Ok::<_, DecodeError>(
                (v@, c as int),
            ) && 1 <= c && start + c <= buffer@.len(),
            Err(e) => dec_integer(buffer@.skip(start as int)) == Err::<(ValueModel, int), _>(e),
        },
{
    match parse_line_at(buffer, start) {
        None => Err(DecodeError::Incomplete),
        Some((line, c)) => match parse_int(&line) {
            Ok(n) => Ok((Value::Integer(n), c)),
            Err(_) => Err(DecodeError::InvalidInteger),
        },
    }
}

/// Decodes a bulk string frame found at `start`.
fn parse_bulk_string_at(buffer: &Vec<u8>, start: usize) -> (r: Result<(Value, usize), DecodeError>)
    requires
        start <= buffer@.len(),
    ensures
        match r {
            Ok((v, c)) => dec_bulk(buffer@.skip(start as int)) == Ok::<_, DecodeError>(
                (v@, c as int),
            ) && 1 <= c && start + c <= buffer@.len(),
            Err(e) => dec_bulk(buffer@.skip(start as int)) == Err::<(ValueModel, int), _>(e),
        },
{
    let ghost s = buffer@.skip(start as int);
    match parse_line_at(buffer, start) {
        None => Err(DecodeError::Incomplete),
        Some((line, h)) => match parse_int(&line) {
            Err(_) => Err(DecodeError::InvalidInteger),
            Ok(n) => {
                if n < 0 {
                    return Ok((Value::Null, h));
                }
                let avail: u128 = (buffer.len() - start) as u128;
                let need: u128 = h as u128 + n as u128 + 2;
                if need > avail {
                    return Err(DecodeError::Incomplete);
                }
                proof {
                    assert(h + n + 2 <= s.len());
                }
                let end: usize = start + h + (n as usize);
                proof {
                    assert(s[h + n as int] == buffer@[end as int]);
                    assert(s[h + n as int + 1] == buffer@[end as int + 1]);
                }
                if buffer[end] == CR && buffer[end + 1] == LF {
                    let payload = bytes_range(buffer, start + h, end);
                    proof {
                        assert(s.subrange(h as int, h + n as int) =~= buffer@.subrange(
                            start + h as int,
                            end as int,
                        ));
                    }
                    Ok((Value::BulkString(payload), h + (n as usize) + 2))
                } else {
                    Err(DecodeError::MalformedBulkString)
                }
            },
        },
    }
}

/// Decodes one frame found at `start`, with `depth` array levels still
/// allowed below it.
fn parse_at(buffer: &Vec<u8>, start: usize, depth: usize) -> (r: Result<(Value, usize), DecodeError>)
    requires
        start <= buffer@.len(),
    ensures
        match r {
            Ok((v, c)) => dec_frame(buffer@.skip(start as int), depth as nat) == Ok::<
                _,
                DecodeError,
            >((v@, c as int)) && 1 <= c && start + c <= buffer@.len(),
            Err(e) => dec_frame(buffer@.skip(start as int), depth as nat) == Err::<
                (ValueModel, int),
                _,
            >(e),
        },
    decreases depth, 2nat,
{
    if start == buffer.len() {
        return Err(DecodeError::Incomplete);
    }
    let b = buffer[start];
    proof {
        assert(buffer@.skip(start as int)[0] == b);
    }
    if b == T_SIMPLE {
        parse_simple_string_at(buffer, start)
    } else if b == T_ERROR {
        parse_error_at(buffer, start)
    } else if b == T_INTEGER {
        parse_integer_at(buffer, start)
    } else if b == T_BULK {
        parse_bulk_string_at(buffer, start)
    } else if b == T_ARRAY {
        parse_array_at(buffer, start, depth)
    } else {
        Err(DecodeError::UnknownType)
    }
}

/// Decodes an array frame found at `start`.
fn parse_array_at(buffer: &Vec<u8>, start: usize, depth: usize) -> (r: Result<
    (Value, usize),
    DecodeError,
>)
    requires
        start <= buffer@.len(),
    ensures
        match r {
            Ok((v, c)) => dec_array(buffer@.skip(start as int), depth as nat) == Ok::<
                _,
                DecodeError,
            >((v@, c as int)) && 1 <= c && start + c <= buffer@.len(),
            Err(e) => dec_array(buffer@.skip(start as int), depth as nat) == Err::<
                (ValueModel, int),
                _,
            >(e),
        },
    decreases depth, 1nat,
{
    match parse_line_at(buffer, start) {
        None => Err(DecodeError::Incomplete),
        Some((line, h)) => match parse_int(&line) {
            Err(_) => Err(DecodeError::InvalidInteger),
            Ok(n) => {
                if n < 0 {
                    return Ok((Value::Null, h));
                }
                if n > MAX_ELEMENTS {
                    return Err(DecodeError::LimitExceeded);
                }
                if depth == 0 {
                    return Err(DecodeError::LimitExceeded);
                }
                let buf_len = buffer.len();
                proof {
                    assert(start + h <= buf_len);
                    assert(buffer@.skip(start as int).skip(h as int) =~= buffer@.skip(start + h));
                }
                match parse_elems(buffer, start + h, n as usize, depth - 1) {
                    Ok((items, c2)) => Ok((Value::Array(items), h + c2)),
                    Err(e) => Err(e),
                }
            },
        },
    }
}

/// Decodes `n` consecutive frames starting at `start`.
#[verifier::loop_isolation(false)]
fn parse_elems(buffer: &Vec<u8>, start: usize, n: usize, depth: usize) -> (r: Result<
    (Vec<Value>, usize),
    DecodeError,
>)
    requires
        start <= buffer@.len(),
    ensures
        match r {
            Ok((items, c)) => dec_elems(buffer@.skip(start as int), n as nat, depth as nat)
                == Ok::<_, DecodeError>((model_list(items@), c as int)) && start + c
                <= buffer@.len(),
            Err(e) => dec_elems(buffer@.skip(start as int), n as nat, depth as nat) == Err::<
                (Seq<ValueModel>, int),
                _,
            >(e),
        },
    decreases depth, 3nat,
{
    let buf_len = buffer.len();
    let mut items: Vec<Value> = Vec::new();
    let mut pos: usize = start;
    let mut i: usize = 0;
    while i < n
        invariant
            i <= n,
            start <= pos <= buf_len,
            buf_len == buffer@.len(),
            items@.len() == i,
            match dec_elems(buffer@.skip(pos as int), (n - i) as nat, depth as nat) {
                Ok(t) => dec_elems(buffer@.skip(start as int), n as nat, depth as nat) == Ok::<
                    _,
                    DecodeError,
                >((model_list(items@) + t.0, (pos - start) + t.1)),
                Err(e) => dec_elems(buffer@.skip(start as int), n as nat, depth as nat) == Err::<
                    (Seq<ValueModel>, int),
                    _,
                >(e),
            },
        decreases n - i,
    {
        proof {
            assert(model_list(items@) + Seq::<ValueModel>::empty() =~= model_list(items@));
        }
        match parse_at(buffer, pos, depth) {
            Err(e) => {
                return Err(e);
            },
            Ok((v, c)) => {
                let ghost old_items = items@;
                let ghost pos0 = pos as int;
                proof {
                    assert(buffer@.skip(pos0).skip(c as int) =~= buffer@.skip(pos0 + c));
                    lemma_model_list_push(old_items, v);
                }
                let ghost vm = v@;
                items.push(v);
                pos = pos + c;
                i = i + 1;
                proof {
                    assert(model_list(items@) == model_list(old_items).push(vm));
                    match dec_elems(buffer@.skip(pos as int), (n - i) as nat, depth as nat) {
                        Ok(t2) => {
                            assert(dec_elems(buffer@.skip(pos0), (n - i + 1) as nat, depth as nat)
                                == Ok::<_, DecodeError>((seq![vm] + t2.0, c + t2.1)));
                            assert(model_list(old_items) + (seq![vm] + t2.0) =~= model_list(
                                items@,
                            ) + t2.0);
                        },
                        Err(e2) => {},
                    }
                }
            },
        }
    }
    proof {
        assert(model_list(items@) + Seq::<ValueModel>::empty() =~= model_list(items@));
    }
    Ok((items, pos - start))
}

/// Decodes one frame from the head of the buffer. `Ok((v, c))` yields
/// the frame and the exact count of bytes it occupied, so the caller
/// can retain `buffer[c..]` for the next frame. `Err(Incomplete)` means
/// the buffer holds only a prefix of a frame: read more and retry.
pub fn decode(buffer: &Vec<u8>) -> (r: Result<(Value, usize), DecodeError>)
    ensures
        match r {
            Ok((v, c)) => spec_decode(buffer@) == Ok::<_, DecodeError>((v@, c as int)) && 1 <= c
                <= buffer@.len(),
            Err(e) => spec_decode(buffer@) == Err::<(ValueModel, int), _>(e),
        },
{
    proof {
        assert(buffer@.skip(0) =~= buffer@);
    }
    parse_at(buffer, 0, MAX_DEPTH)
}

/// Decodes a buffer as one simple string frame. The first byte is the
/// type prefix and is skipped without inspection, as the dispatching
/// decoder has already read it.
pub fn parse_simple_string(buffer: &Vec<u8>) -> (r: Result<(Value, usize), DecodeError>)
    ensures
        match r {
            Ok((v, c)) => dec_simple(buffer@) == Ok::<_, DecodeError>((v@, c as int)) && 1 <= c
                <= buffer@.len(),
            Err(e) => dec_simple(buffer@) == Err::<(ValueModel, int), _>(e),
        },
{
    proof {
        assert(buffer@.skip(0) =~= buffer@);
    }
    parse_simple_string_at(buffer, 0)
}

/// Decodes a buffer as one bulk string frame, the type prefix byte
/// skipped without inspection.
pub fn parse_bulk_string(buffer: &Vec<u8>) -> (r: Result<(Value, usize), DecodeError>)
    ensures
        match r {
            Ok((v, c)) => dec_bulk(buffer@) == Ok::<_, DecodeError>((v@, c as int)) && 1 <= c
                <= buffer@.len(),
            Err(e) => dec_bulk(buffer@) == Err::<(ValueModel, int), _>(e),
        },
{
    proof {
        assert(buffer@.skip(0) =~= buffer@);
    }
    parse_bulk_string_at(buffer, 0)
}

/// Decodes a buffer as one array frame, the type prefix byte skipped
/// without inspection, with the full nesting budget.
pub fn parse_array(buffer: &Vec<u8>) -> (r: Result<(Value, usize), DecodeError>)
    ensures
        match r {
            Ok((v, c)) => dec_array(buffer@, MAX_DEPTH as nat) == Ok::<_, DecodeError>(
                (v@, c as int),
            ) && 1 <= c <= buffer@.len(),
            Err(e) => dec_array(buffer@, MAX_DEPTH as nat) == Err::<(ValueModel, int), _>(e),
        },
{
    proof {
        assert(buffer@.skip(0) =~= buffer@);
    }
    parse_array_at(buffer, 0, MAX_DEPTH)
}

/// Yields the bytes before the first CR LF pair, and how many bytes
/// the line and its terminator occupy together.
pub fn read_until_clrf(buffer: &Vec<u8>) -> (r: Option<(Vec<u8>, usize)>)
    ensures
        match r {
            Some((line, c)) => first_crlf(buffer@) == Some(line@.len() as int) && line@ == buffer@
                .take(line@.len() as int) && c == line@.len() + 2 && c <= buffer@.len(),
            None => first_crlf(buffer@) == None::<int>,
        },
{
    proof {
        assert(buffer@.skip(0) =~= buffer@);
    }
    let buf_len = buffer.len();
    match find_crlf_from(buffer, 0) {
        None => None,
        Some(p) => {
            proof {
                assert(p + 1 < buf_len);
            }
            let line = bytes_range(buffer, 0, p);
            proof {
                assert(buffer@.subrange(0, p as int) =~= buffer@.take(p as int));
            }
            Some((line, p + 2))
        },
    }
}

} // verus!
