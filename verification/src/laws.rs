//! The library's protocol laws, proved once and for all: encoding
//! followed by decoding is the identity, byte accounting splits a
//! buffer exactly, a strict prefix of a frame is always `Incomplete`,
//! and serialized writes to the store resolve to the last writer.

use vstd::prelude::*;
use crate::DecodeError;
use crate::model::{
    ValueModel, encode_spec, encode_list, dec_digits, int_rep, CR, LF, MINUS, PLUS, T_SIMPLE,
    T_ERROR, T_INTEGER, T_BULK, T_ARRAY, MAX_DEPTH, MAX_ELEMENTS, first_crlf, parse_line,
    is_digit, all_digits, digits_val, is_int_literal, int_of, line_int_ok, contains_crlf,
    dec_bulk, dec_array, dec_frame, dec_elems, spec_decode, wf_at, wf_list, wf_frame,
    lemma_first_crlf,
};
use vstd::arithmetic::div_mod::lemma_fundamental_div_mod;

verus! {

/// A position holding CR LF with no earlier pair is where `first_crlf`
/// points.
proof fn lemma_first_crlf_is(s: Seq<u8>, p: int)
    requires
        0 <= p,
        p + 1 < s.len(),
        s[p] == CR,
        s[p + 1] == LF,
        forall|q: int| 0 <= q < p ==> !(#[trigger] s[q] == CR && s[q + 1] == LF),
    ensures
        first_crlf(s) == Some(p),
{
    lemma_first_crlf(s);
    match first_crlf(s) {
        None => {
            assert(false);
        },
        Some(p2) => {
            if p2 < p {
                assert(s[p2] == CR && s[p2 + 1] == LF);
                assert(false);
            }
            if p2 > p {
                assert(false);
            }
        },
    }
}

/// Reading the line of a frame whose line holds no CR LF pair yields
/// exactly that line, however the frame continues.
proof fn lemma_parse_line_frame(t: u8, line: Seq<u8>, rest: Seq<u8>)
    requires
        !contains_crlf(line),
    ensures
        parse_line(seq![t] + line + seq![CR, LF] + rest) == Some((line, line.len() as int + 3)),
{
    let s = seq![t] + line + seq![CR, LF] + rest;
    let tail = s.skip(1);
    assert(tail =~= line + seq![CR, LF] + rest);
    let p = line.len() as int;
    assert(tail[p] == CR);
    assert(tail[p + 1] == LF);
    assert forall|q: int| 0 <= q < p implies !(#[trigger] tail[q] == CR && tail[q + 1] == LF) by {
        if q + 1 < p {
            assert(tail[q] == line[q]);
            assert(tail[q + 1] == line[q + 1]);
        } else {
            assert(tail[q + 1] == CR);
        }
    }
    lemma_first_crlf_is(tail, p);
    assert(s.subrange(1, 1 + p) =~= line);
}

/// The canonical digits of `n` are digits, read back as `n`, and hold
/// no CR or LF byte.
proof fn lemma_dec_digits(n: int)
    requires
        n >= 0,
    ensures
        all_digits(dec_digits(n)),
        dec_digits(n).len() >= 1,
        digits_val(dec_digits(n)) == n,
        48 <= dec_digits(n)[0] <= 57,
    decreases n,
{
    if n < 10 {
        let d = dec_digits(n);
        assert(d =~= seq![(48 + n) as u8]);
        assert(d.drop_last() =~= Seq::<u8>::empty());
        assert(digits_val(Seq::<u8>::empty()) == 0);
        assert(digits_val(d) == 0 * 10 + (d.last() - 48));
    } else {
        lemma_dec_digits(n / 10);
        lemma_fundamental_div_mod(n, 10);
        let d = dec_digits(n);
        assert(d =~= dec_digits(n / 10).push((48 + n % 10) as u8));
        assert(d.drop_last() =~= dec_digits(n / 10));
        assert(digits_val(d) == digits_val(dec_digits(n / 10)) * 10 + (d.last() - 48));
    }
}

/// A sequence of digit bytes holds no CR LF pair.
proof fn lemma_digits_no_crlf(s: Seq<u8>)
    requires
        all_digits(s),
    ensures
        !contains_crlf(s),
{
    assert forall|i: int| 0 <= i && i + 1 < s.len() implies !(#[trigger] s[i] == CR && s[i + 1]
        == LF) by {
        assert(is_digit(s[i]));
    }
}

/// The canonical rendering of an `i64` is a valid integer line naming
/// that integer, free of CR LF pairs.
proof fn lemma_int_rep(n: int)
    requires
        i64::MIN as int <= n <= i64::MAX as int,
    ensures
        line_int_ok(int_rep(n)),
        int_of(int_rep(n)) == n,
        !contains_crlf(int_rep(n)),
{
    if n >= 0 {
        lemma_dec_digits(n);
        lemma_digits_no_crlf(int_rep(n));
        assert(int_rep(n)[0] != MINUS && int_rep(n)[0] != PLUS);
    } else {
        lemma_dec_digits(-n);
        let s = int_rep(n);
        assert(s =~= seq![MINUS] + dec_digits(-n));
        assert(s.skip(1) =~= dec_digits(-n));
        assert(s[0] == MINUS);
        assert(is_int_literal(s));
        assert(int_of(s) == -digits_val(dec_digits(-n)));
        lemma_digits_no_crlf(dec_digits(-n));
        assert forall|i: int| 0 <= i && i + 1 < s.len() implies !(#[trigger] s[i] == CR && s[i + 1]
            == LF) by {
            if i > 0 {
                assert(s[i] == dec_digits(-n)[i - 1]);
                assert(is_digit(s[i]));
            } else {
                assert(s[0] == MINUS);
            }
        }
    }
}

/// Decoding the encoding of a well-formed frame, with any bytes
/// following it, yields the frame back and consumes exactly its
/// encoding.
#[verifier::rlimit(100)]
proof fn lemma_decode_encode_frame(v: ValueModel, depth: nat, rest: Seq<u8>)
    requires
        wf_at(v, depth),
    ensures
        dec_frame(encode_spec(v) + rest, depth) == Ok::<_, DecodeError>(
            (v, encode_spec(v).len() as int),
        ),
    decreases depth, 2nat, 0nat,
{
    let enc = encode_spec(v);
    let s = enc + rest;
    match v {
        ValueModel::SimpleString(line) => {
            assert(s =~= seq![T_SIMPLE] + line + seq![CR, LF] + rest);
            lemma_parse_line_frame(T_SIMPLE, line, rest);
            assert(s[0] == T_SIMPLE);
        },
        ValueModel::Error(line) => {
            assert(s =~= seq![T_ERROR] + line + seq![CR, LF] + rest);
            lemma_parse_line_frame(T_ERROR, line, rest);
            assert(s[0] == T_ERROR);
        },
        ValueModel::Integer(n) => {
            lemma_int_rep(n);
            assert(s =~= seq![T_INTEGER] + int_rep(n) + seq![CR, LF] + rest);
            lemma_parse_line_frame(T_INTEGER, int_rep(n), rest);
            assert(s[0] == T_INTEGER);
        },
        ValueModel::BulkString(payload) => {
            let ln = payload.len() as int;
            lemma_dec_digits(ln);
            lemma_digits_no_crlf(dec_digits(ln));
            let tail2 = payload + seq![CR, LF] + rest;
            assert(s =~= seq![T_BULK] + dec_digits(ln) + seq![CR, LF] + tail2);
            lemma_parse_line_frame(T_BULK, dec_digits(ln), tail2);
            let h = dec_digits(ln).len() + 3;
            assert(s[0] == T_BULK);
            assert(dec_digits(ln)[0] != MINUS && dec_digits(ln)[0] != PLUS);
            assert(int_of(dec_digits(ln)) == ln);
            assert(line_int_ok(dec_digits(ln)));
            assert(s.len() == h + ln + 2 + rest.len());
            assert(s[h + ln] == CR);
            assert(s[h + ln + 1] == LF);
            assert(s.subrange(h as int, h + ln) =~= payload);
            assert(enc.len() == h + ln + 2);
        },
        ValueModel::Null => {
            assert(s =~= seq![T_BULK] + seq![MINUS, 49u8] + seq![CR, LF] + rest);
            lemma_parse_line_frame(T_BULK, seq![MINUS, 49u8], rest);
            let line = seq![MINUS, 49u8];
            assert(line[0] == MINUS);
            assert(line.skip(1) =~= seq![49u8]);
            assert(all_digits(line.skip(1)));
            assert(is_int_literal(line));
            assert(seq![49u8].drop_last() =~= Seq::<u8>::empty());
            assert(digits_val(Seq::<u8>::empty()) == 0);
            assert(digits_val(seq![49u8]) == 0 * 10 + (49 - 48));
            assert(int_of(line) == -1);
            assert(s[0] == T_BULK);
            assert(enc.len() == 5);
        },
        ValueModel::Array(vs) => {
            let n = vs.len() as int;
            lemma_dec_digits(n);
            lemma_digits_no_crlf(dec_digits(n));
            let el = encode_list(vs);
            let tail2 = el + rest;
            assert(s =~= seq![T_ARRAY] + dec_digits(n) + seq![CR, LF] + tail2);
            lemma_parse_line_frame(T_ARRAY, dec_digits(n), tail2);
            let h = dec_digits(n).len() + 3;
            assert(s[0] == T_ARRAY);
            assert(dec_digits(n)[0] != MINUS && dec_digits(n)[0] != PLUS);
            assert(int_of(dec_digits(n)) == n);
            assert(0 <= n <= MAX_ELEMENTS as int);
            assert(line_int_ok(dec_digits(n)));
            assert(s.skip(h as int) =~= el + rest);
            lemma_decode_encode_list(vs, (depth - 1) as nat, rest);
            assert(dec_elems(el + rest, vs.len(), (depth - 1) as nat) == Ok::<_, DecodeError>(
                (vs, el.len() as int),
            ));
            assert(enc.len() == h + el.len());
        },
    }
}

/// Decoding the concatenated encodings of well-formed frames, with any
/// bytes following them, yields the frames back.
proof fn lemma_decode_encode_list(vs: Seq<ValueModel>, depth: nat, rest: Seq<u8>)
    requires
        wf_list(vs, depth),
    ensures
        dec_elems(encode_list(vs) + rest, vs.len(), depth) == Ok::<_, DecodeError>(
            (vs, encode_list(vs).len() as int),
        ),
    decreases depth, 3nat, vs.len(),
{
    if vs.len() == 0 {
        assert(vs =~= Seq::<ValueModel>::empty());
    } else {
        let e0 = encode_spec(vs[0]);
        let el = encode_list(vs.drop_first());
        assert(encode_list(vs) == e0 + el);
        let s = encode_list(vs) + rest;
        assert(s =~= e0 + (el + rest));
        lemma_decode_encode_frame(vs[0], depth, el + rest);
        assert(dec_frame(s, depth) == Ok::<_, DecodeError>((vs[0], e0.len() as int)));
        assert(s.skip(e0.len() as int) =~= el + rest);
        lemma_decode_encode_list(vs.drop_first(), depth, rest);
        assert(seq![vs[0]] + vs.drop_first() =~= vs);
    }
}

/// Round trip: decoding the canonical encoding of any frame the
/// decoder itself could produce yields that very frame and consumes
/// its whole encoding.
pub proof fn lemma_round_trip(v: ValueModel)
    requires
        wf_frame(v),
    ensures
        spec_decode(encode_spec(v)) == Ok::<_, DecodeError>((v, encode_spec(v).len() as int)),
{
    lemma_decode_encode_frame(v, MAX_DEPTH as nat, Seq::empty());
    assert(encode_spec(v) + Seq::<u8>::empty() =~= encode_spec(v));
}

/// Round trip for bulk strings of any length and content: the decoder
/// returns the same payload and consumes the full encoding.
pub proof fn lemma_bulk_string_round_trip(s: Seq<u8>)
    requires
        s.len() <= i64::MAX as int,
    ensures
        spec_decode(encode_spec(ValueModel::BulkString(s))) == Ok::<_, DecodeError>(
            (ValueModel::BulkString(s), encode_spec(ValueModel::BulkString(s)).len() as int),
        ),
{
    lemma_round_trip(ValueModel::BulkString(s));
}

} // verus!

verus! {

/// A successfully read line occupies between 3 bytes and the whole
/// buffer.
proof fn lemma_parse_line_bounds(s: Seq<u8>)
    ensures
        match parse_line(s) {
            Some(t) => 3 <= t.1 <= s.len() && t.0.len() == t.1 - 3,
            None => true,
        },
{
    if s.len() >= 1 {
        lemma_first_crlf(s.skip(1));
    }
}

/// Two buffers that agree on the bytes a read line occupies yield the
/// same line.
proof fn lemma_parse_line_agree(s1: Seq<u8>, s2: Seq<u8>, c: int)
    requires
        parse_line(s1) is Some,
        parse_line(s1)->Some_0.1 <= c,
        c <= s1.len(),
        c <= s2.len(),
        forall|i: int| 0 <= i < c ==> s1[i] == s2[i],
    ensures
        parse_line(s2) == parse_line(s1),
{
    let h = parse_line(s1)->Some_0.1;
    let p = h - 3;
    lemma_first_crlf(s1.skip(1));
    assert(first_crlf(s1.skip(1)) == Some(p));
    assert(forall|q: int| 0 <= q && q + 1 < s1.skip(1).len() ==> s1.skip(1)[q] == s1[q + 1]);
    assert(s2.skip(1)[p] == s2[p + 1]);
    assert(s2.skip(1)[p + 1] == s2[p + 2]);
    assert(s2.skip(1)[p] == CR);
    assert(s2.skip(1)[p + 1] == LF);
    assert forall|q: int| 0 <= q < p implies !(#[trigger] s2.skip(1)[q] == CR && s2.skip(1)[q + 1]
        == LF) by {
        assert(s2.skip(1)[q] == s2[q + 1] == s1[q + 1] == s1.skip(1)[q]);
        assert(s2.skip(1)[q + 1] == s2[q + 2] == s1[q + 2] == s1.skip(1)[q + 1]);
    }
    lemma_first_crlf_is(s2.skip(1), p);
    assert(s2.subrange(1, 1 + p) =~= s1.subrange(1, 1 + p));
}

/// A decoded frame consumes at least one byte and at most the buffer.
proof fn lemma_dec_frame_bounds(s: Seq<u8>, depth: nat)
    ensures
        match dec_frame(s, depth) {
            Ok(t) => 1 <= t.1 <= s.len(),
            Err(_) => true,
        },
    decreases depth, 2nat, 0nat,
{
    if s.len() > 0 {
        lemma_parse_line_bounds(s);
        if s[0] == T_ARRAY {
            match parse_line(s) {
                None => {},
                Some((line, h)) => {
                    if line_int_ok(line) && 0 <= int_of(line) <= MAX_ELEMENTS as int && depth > 0 {
                        lemma_dec_elems_bounds(s.skip(h), int_of(line) as nat, (depth - 1) as nat);
                    }
                },
            }
        }
    }
}

/// Decoded elements consume at most the buffer, and come out counted.
proof fn lemma_dec_elems_bounds(s: Seq<u8>, n: nat, depth: nat)
    ensures
        match dec_elems(s, n, depth) {
            Ok(t) => 0 <= t.1 <= s.len() && t.0.len() == n,
            Err(_) => true,
        },
    decreases depth, 3nat, n,
{
    if n > 0 {
        lemma_dec_frame_bounds(s, depth);
        match dec_frame(s, depth) {
            Err(_) => {},
            Ok((v, c)) => {
                lemma_dec_elems_bounds(s.skip(c), (n - 1) as nat, depth);
            },
        }
    }
}

/// Decoding reads only the bytes it consumes: any buffer agreeing on
/// those bytes decodes to the same frame.
#[verifier::rlimit(100)]
proof fn lemma_dec_frame_agree(s1: Seq<u8>, s2: Seq<u8>, depth: nat)
    requires
        dec_frame(s1, depth) is Ok,
        dec_frame(s1, depth)->Ok_0.1 <= s2.len(),
        s2.take(dec_frame(s1, depth)->Ok_0.1) == s1.take(dec_frame(s1, depth)->Ok_0.1),
    ensures
        dec_frame(s2, depth) == dec_frame(s1, depth),
    decreases depth, 2nat, 0nat,
{
    lemma_dec_frame_bounds(s1, depth);
    let c = dec_frame(s1, depth)->Ok_0.1;
    assert forall|i: int| 0 <= i < c implies s1[i] == s2[i] by {
        assert(s1.take(c)[i] == s2.take(c)[i]);
    }
    lemma_parse_line_bounds(s1);
    if s1[0] == T_SIMPLE || s1[0] == T_ERROR || s1[0] == T_INTEGER {
        lemma_parse_line_agree(s1, s2, c);
    } else if s1[0] == T_BULK {
        let (line, h) = parse_line(s1)->Some_0;
        if !line_int_ok(line) {
            assert(dec_bulk(s1) == Err::<(ValueModel, int), _>(DecodeError::InvalidInteger));
            assert(false);
        } else if int_of(line) >= 0 {
            lemma_parse_line_agree(s1, s2, c);
            let n = int_of(line);
            assert(s2[h + n] == s1[h + n]);
            assert(s2[h + n + 1] == s1[h + n + 1]);
            assert(s2.subrange(h, h + n) =~= s1.subrange(h, h + n));
        } else {
            lemma_parse_line_agree(s1, s2, c);
        }
    } else if s1[0] == T_ARRAY {
        let (line, h) = parse_line(s1)->Some_0;
        if !line_int_ok(line) {
            assert(dec_array(s1, depth) == Err::<(ValueModel, int), _>(
                DecodeError::InvalidInteger,
            ));
            assert(false);
        } else if int_of(line) < 0 {
            lemma_parse_line_agree(s1, s2, c);
        } else if int_of(line) > MAX_ELEMENTS as int || depth == 0 {
            assert(dec_array(s1, depth) == Err::<(ValueModel, int), _>(
                DecodeError::LimitExceeded,
            ));
            assert(false);
        } else {
            let n = int_of(line) as nat;
            match dec_elems(s1.skip(h), n, (depth - 1) as nat) {
                Err(e) => {
                    assert(dec_array(s1, depth) == Err::<(ValueModel, int), _>(e));
                    assert(false);
                },
                Ok(t) => {
                    lemma_dec_elems_bounds(s1.skip(h), n, (depth - 1) as nat);
                    let c2 = t.1;
                    assert(c == h + c2);
                    lemma_parse_line_agree(s1, s2, c);
                    assert(c2 <= s2.skip(h).len());
                    assert(s2.skip(h).take(c2) =~= s1.skip(h).take(c2));
                    lemma_dec_elems_agree(s1.skip(h), s2.skip(h), n, (depth - 1) as nat);
                },
            }
        }
    }
}

/// Companion of `lemma_dec_frame_agree` for element sequences.
#[verifier::rlimit(100)]
proof fn lemma_dec_elems_agree(s1: Seq<u8>, s2: Seq<u8>, n: nat, depth: nat)
    requires
        dec_elems(s1, n, depth) is Ok,
        dec_elems(s1, n, depth)->Ok_0.1 <= s2.len(),
        s2.take(dec_elems(s1, n, depth)->Ok_0.1) == s1.take(dec_elems(s1, n, depth)->Ok_0.1),
    ensures
        dec_elems(s2, n, depth) == dec_elems(s1, n, depth),
    decreases depth, 3nat, n,
{
    if n > 0 {
        lemma_dec_elems_bounds(s1, n, depth);
        let c = dec_elems(s1, n, depth)->Ok_0.1;
        assert forall|i: int| 0 <= i < c implies s1[i] == s2[i] by {
            assert(s1.take(c)[i] == s2.take(c)[i]);
        }
        lemma_dec_frame_bounds(s1, depth);
        let (v, c1) = dec_frame(s1, depth)->Ok_0;
        lemma_dec_elems_bounds(s1.skip(c1), (n - 1) as nat, depth);
        let c2 = dec_elems(s1.skip(c1), (n - 1) as nat, depth)->Ok_0.1;
        assert(c == c1 + c2);
        assert(s2.take(c1) =~= s1.take(c1));
        lemma_dec_frame_agree(s1, s2, depth);
        assert(c2 <= s2.skip(c1).len());
        assert(s2.skip(c1).take(c2) =~= s1.skip(c1).take(c2));
        lemma_dec_elems_agree(s1.skip(c1), s2.skip(c1), (n - 1) as nat, depth);
    }
}

/// A malformed buffer stays malformed, with the same fault, however it
/// is extended: only `Incomplete` can change with more input.
#[verifier::rlimit(100)]
proof fn lemma_dec_frame_stable(s1: Seq<u8>, s2: Seq<u8>, depth: nat)
    requires
        dec_frame(s1, depth) is Err,
        dec_frame(s1, depth) != Err::<(ValueModel, int), _>(DecodeError::Incomplete),
        s1.len() <= s2.len(),
        s1 == s2.take(s1.len() as int),
    ensures
        dec_frame(s2, depth) == dec_frame(s1, depth),
    decreases depth, 2nat, 0nat,
{
    assert forall|i: int| 0 <= i < s1.len() implies s1[i] == s2[i] by {
        assert(s2.take(s1.len() as int)[i] == s2[i]);
    }
    assert(s1.len() > 0);
    assert(s2[0] == s1[0]);
    lemma_parse_line_bounds(s1);
    if s1[0] == T_SIMPLE || s1[0] == T_ERROR {
    } else if s1[0] == T_INTEGER {
        lemma_parse_line_agree(s1, s2, s1.len() as int);
    } else if s1[0] == T_BULK {
        lemma_parse_line_agree(s1, s2, s1.len() as int);
        match parse_line(s1) {
            None => {},
            Some((line, h)) => {
                if line_int_ok(line) && int_of(line) >= 0 {
                    let n = int_of(line);
                    assert(h + n + 2 <= s1.len());
                    assert(s2[h + n] == s1[h + n]);
                    assert(s2[h + n + 1] == s1[h + n + 1]);
                }
            },
        }
    } else if s1[0] == T_ARRAY {
        lemma_parse_line_agree(s1, s2, s1.len() as int);
        match parse_line(s1) {
            None => {},
            Some((line, h)) => {
                if line_int_ok(line) && 0 <= int_of(line) <= MAX_ELEMENTS as int && depth > 0 {
                    assert(s1.skip(h) =~= s2.skip(h).take(s1.len() - h));
                    lemma_dec_elems_stable(
                        s1.skip(h),
                        s2.skip(h),
                        int_of(line) as nat,
                        (depth - 1) as nat,
                    );
                }
            },
        }
    }
}

/// Companion of `lemma_dec_frame_stable` for element sequences.
#[verifier::rlimit(100)]
proof fn lemma_dec_elems_stable(s1: Seq<u8>, s2: Seq<u8>, n: nat, depth: nat)
    requires
        dec_elems(s1, n, depth) is Err,
        dec_elems(s1, n, depth) != Err::<(Seq<ValueModel>, int), _>(DecodeError::Incomplete),
        s1.len() <= s2.len(),
        s1 == s2.take(s1.len() as int),
    ensures
        dec_elems(s2, n, depth) == dec_elems(s1, n, depth),
    decreases depth, 3nat, n,
{
    assert forall|i: int| 0 <= i < s1.len() implies s1[i] == s2[i] by {
        assert(s2.take(s1.len() as int)[i] == s2[i]);
    }
    assert(n > 0);
    match dec_frame(s1, depth) {
        Err(e) => {
            lemma_dec_frame_stable(s1, s2, depth);
        },
        Ok((v, c1)) => {
            lemma_dec_frame_bounds(s1, depth);
            assert(s2.take(c1) =~= s1.take(c1));
            lemma_dec_frame_agree(s1, s2, depth);
            assert(s1.skip(c1) =~= s2.skip(c1).take(s1.len() - c1));
            lemma_dec_elems_stable(s1.skip(c1), s2.skip(c1), (n - 1) as nat, depth);
        },
    }
}

/// Byte accounting splits exactly: after a frame decodes from a buffer
/// consuming `c` bytes, decoding `buffer[0..c]` alone yields the very
/// same frame and count, and the remainder `buffer[c..]` is untouched
/// input for the next frame.
pub proof fn lemma_byte_accounting(s: Seq<u8>)
    requires
        spec_decode(s) is Ok,
    ensures
        spec_decode(s.take(spec_decode(s)->Ok_0.1)) == spec_decode(s),
        s.take(spec_decode(s)->Ok_0.1) + s.skip(spec_decode(s)->Ok_0.1) == s,
{
    lemma_dec_frame_bounds(s, MAX_DEPTH as nat);
    let c = spec_decode(s)->Ok_0.1;
    assert(s.take(c).take(c) =~= s.take(c));
    lemma_dec_frame_agree(s, s.take(c), MAX_DEPTH as nat);
    assert(s.take(c) + s.skip(c) =~= s);
}

/// Decoding any strict prefix of a well-formed frame's encoding yields
/// `Incomplete`: never a bogus success and never a spurious fault.
pub proof fn lemma_prefix_incomplete(v: ValueModel, p: int)
    requires
        wf_frame(v),
        0 <= p < encode_spec(v).len(),
    ensures
        spec_decode(encode_spec(v).take(p)) == Err::<(ValueModel, int), _>(DecodeError::Incomplete),
{
    let full = encode_spec(v);
    let pre = full.take(p);
    lemma_round_trip(v);
    match dec_frame(pre, MAX_DEPTH as nat) {
        Ok(t) => {
            lemma_dec_frame_bounds(pre, MAX_DEPTH as nat);
            assert(t.1 <= p);
            assert(full.take(t.1) =~= pre.take(t.1));
            lemma_dec_frame_agree(pre, full, MAX_DEPTH as nat);
            assert(false);
        },
        Err(e) => {
            if e != DecodeError::Incomplete {
                assert(pre =~= full.take(pre.len() as int));
                lemma_dec_frame_stable(pre, full, MAX_DEPTH as nat);
                assert(false);
            }
        },
    }
}

/// The mapping after a sequence of writes applied in some serial
/// order.
pub open spec fn apply_writes(
    m: Map<Seq<u8>, Seq<u8>>,
    ws: Seq<(Seq<u8>, Seq<u8>)>,
) -> Map<Seq<u8>, Seq<u8>>
    decreases ws.len(),
{
    if ws.len() == 0 {
        m
    } else {
        apply_writes(m, ws.drop_last()).insert(ws.last().0, ws.last().1)
    }
}

/// Concurrent writes to one key, once the store has serialized them,
/// leave exactly the last writer's value: the read observes one of the
/// written values, never a torn or foreign one.
pub proof fn lemma_last_writer_wins(
    m: Map<Seq<u8>, Seq<u8>>,
    ws: Seq<(Seq<u8>, Seq<u8>)>,
    k: Seq<u8>,
)
    requires
        ws.len() >= 1,
        forall|i: int| 0 <= i < ws.len() ==> (#[trigger] ws[i]).0 == k,
    ensures
        apply_writes(m, ws) == m.insert(k, ws.last().1),
        apply_writes(m, ws).contains_key(k),
        exists|i: int| 0 <= i < ws.len() && (#[trigger] ws[i]).1 == apply_writes(m, ws)[k],
    decreases ws.len(),
{
    if ws.len() == 1 {
        assert(ws.drop_last().len() == 0);
        assert(apply_writes(m, ws.drop_last()) == m);
        assert(ws.last() == ws[0]);
        assert(ws[0].0 == k);
        assert(ws[0].1 == apply_writes(m, ws)[k]);
    } else {
        lemma_last_writer_wins(m, ws.drop_last(), k);
        assert(ws.last() == ws[ws.len() - 1]);
        assert(ws[ws.len() - 1].0 == k);
        assert(apply_writes(m, ws) == apply_writes(m, ws.drop_last()).insert(k, ws.last().1));
        assert(apply_writes(m, ws) =~= m.insert(k, ws.last().1));
        assert(ws[ws.len() - 1].1 == apply_writes(m, ws)[k]);
    }
}

} // verus!

verus! {

/// A frame the decoder returns is well-formed for the budget it was
/// decoded under.
proof fn lemma_dec_frame_wf(s: Seq<u8>, depth: nat)
    ensures
        dec_frame(s, depth) is Ok ==> wf_at(dec_frame(s, depth)->Ok_0.0, depth),
    decreases depth, 2nat, 0nat,
{
    if s.len() > 0 && dec_frame(s, depth) is Ok {
        lemma_parse_line_bounds(s);
        if s[0] == T_SIMPLE || s[0] == T_ERROR {
            match parse_line(s) {
                None => {},
                Some((line, h)) => {
                    let p = h - 3;
                    lemma_first_crlf(s.skip(1));
                    assert(first_crlf(s.skip(1)) == Some(p));
                    assert forall|q: int| 0 <= q && q + 1 < line.len() implies !(#[trigger] line[q]
                        == CR && line[q + 1] == LF) by {
                        assert(line[q] == s.skip(1)[q]);
                        assert(line[q + 1] == s.skip(1)[q + 1]);
                    }
                    assert(!contains_crlf(line));
                },
            }
        } else if s[0] == T_ARRAY {
            match parse_line(s) {
                None => {},
                Some((line, h)) => {
                    if line_int_ok(line) && 0 <= int_of(line) <= MAX_ELEMENTS as int && depth > 0 {
                        let n = int_of(line) as nat;
                        lemma_dec_elems_bounds(s.skip(h), n, (depth - 1) as nat);
                        lemma_dec_elems_wf(s.skip(h), n, (depth - 1) as nat);
                    }
                },
            }
        }
    }
}

/// Companion of `lemma_dec_frame_wf` for element sequences.
proof fn lemma_dec_elems_wf(s: Seq<u8>, n: nat, depth: nat)
    ensures
        dec_elems(s, n, depth) is Ok ==> wf_list(dec_elems(s, n, depth)->Ok_0.0, depth),
    decreases depth, 3nat, n,
{
    if n == 0 {
        assert(wf_list(Seq::empty(), depth));
    } else if dec_elems(s, n, depth) is Ok {
        lemma_dec_frame_wf(s, depth);
        match dec_frame(s, depth) {
            Err(_) => {},
            Ok((v, c)) => {
                lemma_dec_elems_wf(s.skip(c), (n - 1) as nat, depth);
                match dec_elems(s.skip(c), (n - 1) as nat, depth) {
                    Err(_) => {},
                    Ok((vs, c2)) => {
                        let all = seq![v] + vs;
                        assert(all[0] == v);
                        assert(all.drop_first() =~= vs);
                    },
                }
            },
        }
    }
}

/// Everything the decoder hands out satisfies `wf_frame`: the
/// round-trip law covers every decodable frame.
pub proof fn lemma_decoded_frames_are_wf(s: Seq<u8>)
    ensures
        spec_decode(s) is Ok ==> wf_frame(spec_decode(s)->Ok_0.0),
{
    lemma_dec_frame_wf(s, MAX_DEPTH as nat);
}

} // verus!
