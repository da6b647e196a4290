//! Command extraction and dispatch: maps a decoded frame to one of the
//! commands PING, ECHO, GET or SET, validates its shape, runs it
//! against the store, and produces the response frame. Every failure of
//! shape or arity is a recoverable `Error` frame, never a panic.

use vstd::prelude::*;
use crate::DecodeError;
use crate::bytes_eq;
use crate::model::ValueModel;
use crate::resp::{Value, model, model_list, lemma_model_list, push_bytes};
use crate::store::Store;

verus! {

/// Why a frame could not be read as a command.
#[derive(Clone, Copy, Debug, PartialEq, Eq, Structural)]
pub enum CommandError {
    /// The frame is not a non-empty array.
    UnexpectedFormat,
    /// The element naming the command is not a string.
    ExpectedBulkString,
}

/// ASCII lower-casing of one byte.
pub open spec fn lower_byte(b: u8) -> u8 {
    if 65 <= b && b <= 90 {
        (b + 32) as u8
    } else {
        b
    }
}

/// ASCII lower-casing of a byte string, for case-insensitive command
/// names.
pub open spec fn lower(s: Seq<u8>) -> Seq<u8> {
    Seq::new(s.len(), |i: int| lower_byte(s[i]))
}

/// The command name `"ping"`.
pub open spec fn cmd_ping() -> Seq<u8> {
    seq![112u8, 105u8, 110u8, 103u8]
}

/// The command name `"echo"`.
pub open spec fn cmd_echo() -> Seq<u8> {
    seq![101u8, 99u8, 104u8, 111u8]
}

/// The command name `"get"`.
pub open spec fn cmd_get() -> Seq<u8> {
    seq![103u8, 101u8, 116u8]
}

/// The command name `"set"`.
pub open spec fn cmd_set() -> Seq<u8> {
    seq![115u8, 101u8, 116u8]
}

/// The reply text `"PONG"`.
pub open spec fn msg_pong() -> Seq<u8> {
    seq![80u8, 79u8, 78u8, 71u8]
}

/// The reply text `"OK"`.
pub open spec fn msg_ok() -> Seq<u8> {
    seq![79u8, 75u8]
}

/// The error text `"ERR unexpected command format"`.
pub open spec fn msg_bad_format() -> Seq<u8> {
    seq![69u8, 82u8, 82u8, 32u8, 117u8, 110u8, 101u8, 120u8, 112u8, 101u8, 99u8, 116u8, 101u8, 100u8, 32u8, 99u8, 111u8, 109u8, 109u8, 97u8, 110u8, 100u8, 32u8, 102u8, 111u8, 114u8, 109u8, 97u8, 116u8]
}

/// The error text `"ERR wrong number of arguments"`.
pub open spec fn msg_wrong_args() -> Seq<u8> {
    seq![69u8, 82u8, 82u8, 32u8, 119u8, 114u8, 111u8, 110u8, 103u8, 32u8, 110u8, 117u8, 109u8, 98u8, 101u8, 114u8, 32u8, 111u8, 102u8, 32u8, 97u8, 114u8, 103u8, 117u8, 109u8, 101u8, 110u8, 116u8, 115u8]
}

/// The opening text `"ERR unknown command '"` of the unknown-command
/// reply.
pub open spec fn msg_unknown_prefix() -> Seq<u8> {
    seq![69u8, 82u8, 82u8, 32u8, 117u8, 110u8, 107u8, 110u8, 111u8, 119u8, 110u8, 32u8, 99u8, 111u8, 109u8, 109u8, 97u8, 110u8, 100u8, 32u8, 39u8]
}

/// The error text `"ERR unknown command '<name>'"` for a given name.
pub open spec fn msg_unknown(name: Seq<u8>) -> Seq<u8> {
    msg_unknown_prefix() + name + seq![39u8]
}

/// The command name and arguments of a request frame: a non-empty
/// array whose first element is a bulk or simple string. The name is
/// handed on as sent; `dispatch` lower-cases it.
pub open spec fn cmd_parts(f: ValueModel) -> Option<(Seq<u8>, Seq<ValueModel>)> {
    match f {
        ValueModel::Array(vs) => if vs.len() >= 1 {
            match vs[0] {
                ValueModel::BulkString(s) => Some((s, vs.skip(1))),
                ValueModel::SimpleString(s) => Some((s, vs.skip(1))),
                _ => None,
            }
        } else {
            None
        },
        _ => None,
    }
}

/// The response frame and the store after one command. Shape or arity
/// faults answer with an `Error` frame and leave the store unchanged;
/// PING ignores its arguments; an unknown command is answered, not
/// fatal.
pub open spec fn spec_dispatch(f: ValueModel, m: Map<Seq<u8>, Seq<u8>>) -> (ValueModel, Map<
    Seq<u8>,
    Seq<u8>,
>) {
    match cmd_parts(f) {
        None => (ValueModel::Error(msg_bad_format()), m),
        Some((raw, args)) => {
            let name = lower(raw);
            if name == cmd_ping() {
                (ValueModel::SimpleString(msg_pong()), m)
            } else if name == cmd_echo() {
                if args.len() >= 1 && args[0] is BulkString {
                    (args[0], m)
                } else {
                    (ValueModel::Error(msg_wrong_args()), m)
                }
            } else if name == cmd_get() {
                if args.len() >= 1 && args[0] is BulkString {
                    let k = args[0]->BulkString_0;
                    if m.contains_key(k) {
                        (ValueModel::BulkString(m[k]), m)
                    } else {
                        (ValueModel::Null, m)
                    }
                } else {
                    (ValueModel::Error(msg_wrong_args()), m)
                }
            } else if name == cmd_set() {
                if args.len() >= 2 && args[0] is BulkString && args[1] is BulkString {
                    (
                        ValueModel::SimpleString(msg_ok()),
                        m.insert(args[0]->BulkString_0, args[1]->BulkString_0),
                    )
                } else {
                    (ValueModel::Error(msg_wrong_args()), m)
                }
            } else {
                (ValueModel::Error(msg_unknown(name)), m)
            }
        },
    }
}

/// A frame and its model agree on which variant they are.
proof fn lemma_model_shape(v: Value)
    ensures
        (v is SimpleString <==> model(v) is SimpleString),
        (v is BulkString <==> model(v) is BulkString),
        (v is Error <==> model(v) is Error),
        (v is Integer <==> model(v) is Integer),
        (v is Array <==> model(v) is Array),
        (v is Null <==> model(v) is Null),
{
    match v {
        Value::SimpleString(_) => {},
        Value::BulkString(_) => {},
        Value::Error(_) => {},
        Value::Integer(_) => {},
        Value::Array(_) => {},
        Value::Null => {},
    }
}

/// The payload of a bulk string frame; any other frame is refused.
pub fn unpack_bulk_str(value: Value) -> (r: Result<Vec<u8>, CommandError>)
    ensures
        match r {
            Ok(b) => value@ is BulkString && value@->BulkString_0 == b@,
            Err(e) => !(value@ is BulkString) && e == CommandError::ExpectedBulkString,
        },
{
    proof {
        lemma_model_shape(value);
    }
    match value {
        Value::BulkString(s) => Ok(s),
        _ => Err(CommandError::ExpectedBulkString),
    }
}

/// Splits a request frame into its command name, as sent, and its
/// argument frames.
pub fn extract_command(value: Value) -> (r: Result<(Vec<u8>, Vec<Value>), CommandError>)
    ensures
        match r {
            Ok((name, args)) => cmd_parts(value@) == Some((name@, model_list(args@))),
            Err(e) => cmd_parts(value@) == None::<(Seq<u8>, Seq<ValueModel>)> && e == (
            match value@ {
                ValueModel::Array(vs) => if vs.len() >= 1 {
                    CommandError::ExpectedBulkString
                } else {
                    CommandError::UnexpectedFormat
                },
                _ => CommandError::UnexpectedFormat,
            }),
        },
{
    proof {
        lemma_model_shape(value);
    }
    match value {
        Value::Array(mut items) => {
            if items.len() == 0 {
                proof {
                    assert(model_list(items@).len() == 0);
                }
                return Err(CommandError::UnexpectedFormat);
            }
            let ghost orig = items@;
            proof {
                lemma_model_list(orig);
            }
            let first = items.remove(0);
            proof {
                lemma_model_list(items@);
                assert(items@ =~= orig.skip(1));
                assert(model_list(items@) =~= model_list(orig).skip(1));
                assert(first@ == model_list(orig)[0]);
                lemma_model_shape(first);
            }
            match first {
                Value::BulkString(s) => Ok((s, items)),
                Value::SimpleString(s) => Ok((s, items)),
                _ => Err(CommandError::ExpectedBulkString),
            }
        },
        _ => Err(CommandError::UnexpectedFormat),
    }
}

/// ASCII lower-casing of a byte string.
fn to_lower(v: &Vec<u8>) -> (r: Vec<u8>)
    ensures
        r@ == lower(v@),
{
    let mut r: Vec<u8> = Vec::new();
    let mut i: usize = 0;
    while i < v.len()
        invariant
            i <= v@.len(),
            r@.len() == i,
            forall|q: int| 0 <= q < i ==> r@[q] == lower_byte(v@[q]),
        decreases v@.len() - i,
    {
        let b = v[i];
        if 65 <= b && b <= 90 {
            r.push(b + 32);
        } else {
            r.push(b);
        }
        i = i + 1;
    }
    proof {
        assert(r@ =~= lower(v@));
    }
    r
}

/// The bytes of `'ping'`.
fn bytes_ping() -> (r: Vec<u8>)
    ensures
        r@ == cmd_ping(),
{
    let mut r: Vec<u8> = Vec::new();
    r.push(112);
    r.push(105);
    r.push(110);
    r.push(103);
    proof {
        assert(r@ =~= cmd_ping());
    }
    r
}

/// The bytes of `'echo'`.
fn bytes_echo() -> (r: Vec<u8>)
    ensures
        r@ == cmd_echo(),
{
    let mut r: Vec<u8> = Vec::new();
    r.push(101);
    r.push(99);
    r.push(104);
    r.push(111);
    proof {
        assert(r@ =~= cmd_echo());
    }
    r
}

/// The bytes of `'get'`.
fn bytes_get() -> (r: Vec<u8>)
    ensures
        r@ == cmd_get(),
{
    let mut r: Vec<u8> = Vec::new();
    r.push(103);
    r.push(101);
    r.push(116);
    proof {
        assert(r@ =~= cmd_get());
    }
    r
}

/// The bytes of `'set'`.
fn bytes_set() -> (r: Vec<u8>)
    ensures
        r@ == cmd_set(),
{
    let mut r: Vec<u8> = Vec::new();
    r.push(115);
    r.push(101);
    r.push(116);
    proof {
        assert(r@ =~= cmd_set());
    }
    r
}

/// The bytes of `'PONG'`.
fn bytes_pong() -> (r: Vec<u8>)
    ensures
        r@ == msg_pong(),
{
    let mut r: Vec<u8> = Vec::new();
    r.push(80);
    r.push(79);
    r.push(78);
    r.push(71);
    proof {
        assert(r@ =~= msg_pong());
    }
    r
}

/// The bytes of `'OK'`.
fn bytes_ok() -> (r: Vec<u8>)
    ensures
        r@ == msg_ok(),
{
    let mut r: Vec<u8> = Vec::new();
    r.push(79);
    r.push(75);
    proof {
        assert(r@ =~= msg_ok());
    }
    r
}

/// The bytes of `'ERR unexpected command format'`.
fn bytes_bad_format() -> (r: Vec<u8>)
    ensures
        r@ == msg_bad_format(),
{
    let mut r: Vec<u8> = Vec::new();
    r.push(69);
    r.push(82);
    r.push(82);
    r.push(32);
    r.push(117);
    r.push(110);
    r.push(101);
    r.push(120);
    r.push(112);
    r.push(101);
    r.push(99);
    r.push(116);
    r.push(101);
    r.push(100);
    r.push(32);
    r.push(99);
    r.push(111);
    r.push(109);
    r.push(109);
    r.push(97);
    r.push(110);
    r.push(100);
    r.push(32);
    r.push(102);
    r.push(111);
    r.push(114);
    r.push(109);
    r.push(97);
    r.push(116);
    proof {
        assert(r@ =~= msg_bad_format());
    }
    r
}

/// The bytes of `'ERR wrong number of arguments'`.
fn bytes_wrong_args() -> (r: Vec<u8>)
    ensures
        r@ == msg_wrong_args(),
{
    let mut r: Vec<u8> = Vec::new();
    r.push(69);
    r.push(82);
    r.push(82);
    r.push(32);
    r.push(119);
    r.push(114);
    r.push(111);
    r.push(110);
    r.push(103);
    r.push(32);
    r.push(110);
    r.push(117);
    r.push(109);
    r.push(98);
    r.push(101);
    r.push(114);
    r.push(32);
    r.push(111);
    r.push(102);
    r.push(32);
    r.push(97);
    r.push(114);
    r.push(103);
    r.push(117);
    r.push(109);
    r.push(101);
    r.push(110);
    r.push(116);
    r.push(115);
    proof {
        assert(r@ =~= msg_wrong_args());
    }
    r
}

/// The bytes of `"ERR unknown command '"`.
fn bytes_unknown_prefix() -> (r: Vec<u8>)
    ensures
        r@ == msg_unknown_prefix(),
{
    let mut r: Vec<u8> = Vec::new();
    r.push(69);
    r.push(82);
    r.push(82);
    r.push(32);
    r.push(117);
    r.push(110);
    r.push(107);
    r.push(110);
    r.push(111);
    r.push(119);
    r.push(110);
    r.push(32);
    r.push(99);
    r.push(111);
    r.push(109);
    r.push(109);
    r.push(97);
    r.push(110);
    r.push(100);
    r.push(32);
    r.push(39);
    proof {
        assert(r@ =~= msg_unknown_prefix());
    }
    r
}

/// Runs one decoded request frame against the store and returns the
/// response frame to send back.
pub fn dispatch(frame: Value, store: &mut Store) -> (r: Value)
    requires
        old(store).wf(),
    ensures
        final(store).wf(),
        r@ == spec_dispatch(frame@, old(store)@).0,
        final(store)@ == spec_dispatch(frame@, old(store)@).1,
{
    let ghost f = frame@;
    let ghost m0 = store@;
    match extract_command(frame) {
        Err(_) => Value::Error(bytes_bad_format()),
        Ok((raw, mut args)) => {
            let ghost args_m = cmd_parts(f)->Some_0.1;
            proof {
                lemma_model_list(args@);
            }
            let name = to_lower(&raw);
            if bytes_eq(&name, &bytes_ping()) {
                Value::SimpleString(bytes_pong())
            } else if bytes_eq(&name, &bytes_echo()) {
                if args.len() >= 1 {
                    let a0 = args.remove(0);
                    proof {
                        assert(a0@ == args_m[0]);
                        lemma_model_shape(a0);
                    }
                    match a0 {
                        Value::BulkString(s) => Value::BulkString(s),
                        _ => Value::Error(bytes_wrong_args()),
                    }
                } else {
                    Value::Error(bytes_wrong_args())
                }
            } else if bytes_eq(&name, &bytes_get()) {
                if args.len() >= 1 {
                    let hit = {
                        let a0 = &args[0];
                        match a0 {
                            Value::BulkString(k) => Some(store.get(k)),
                            _ => None,
                        }
                    };
                    proof {
                        assert(args@[0]@ == args_m[0]);
                        lemma_model_shape(args@[0]);
                    }
                    match hit {
                        None => Value::Error(bytes_wrong_args()),
                        Some(None) => Value::Null,
                        Some(Some(v)) => Value::BulkString(v),
                    }
                } else {
                    Value::Error(bytes_wrong_args())
                }
            } else if bytes_eq(&name, &bytes_set()) {
                if args.len() >= 2 {
                    let a0 = args.remove(0);
                    let a1 = args.remove(0);
                    proof {
                        assert(a0@ == args_m[0]);
                        assert(a1@ == args_m[1]);
                        lemma_model_shape(a0);
                        lemma_model_shape(a1);
                    }
                    match (a0, a1) {
                        (Value::BulkString(k), Value::BulkString(v)) => {
                            store.set(k, v);
                            Value::SimpleString(bytes_ok())
                        },
                        _ => Value::Error(bytes_wrong_args()),
                    }
                } else {
                    Value::Error(bytes_wrong_args())
                }
            } else {
                let mut msg = bytes_unknown_prefix();
                push_bytes(&mut msg, &name);
                msg.push(39);
                proof {
                    assert(msg@ =~= msg_unknown(lower(raw@)));
                }
                Value::Error(msg)
            }
        },
    }
}

} // verus!
