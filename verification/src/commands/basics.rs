//! The stateless and read-only commands: echo, ping, configuration
//! lookup, and key listing.

use crate::bytes::{ascii_bytes, ascii_eq, bytes_eq, push_ascii};
use crate::commands::CommandError;
use crate::config::Config;
use crate::db::DB;
use crate::resp::{seq_model, Value, ValueModel};
use vstd::prelude::*;
use vstd::slice::slice_to_vec;

verus! {

/// What echo returns: its single argument unchanged.
pub open spec fn echo_result(args: Seq<ValueModel>, r: Result<Value, CommandError>) -> bool {
    if args.len() == 1 {
        r matches Ok(v) && v@ == args[0]
    } else {
        r == Err::<Value, CommandError>(CommandError::WrongArgCount)
    }
}

/// Returns the single argument unchanged.
pub fn eval_echo(params: &[Value]) -> (r: Result<Value, CommandError>)
    ensures
        echo_result(seq_model(params@), r),
{
    proof {
        crate::resp::lemma_seq_model_index(params@);
    }
    if params.len() == 1 {
        Ok(params[0].clone())
    } else {
        Err(CommandError::WrongArgCount)
    }
}

/// What ping returns: the fixed status `PONG`, or its single argument.
pub open spec fn ping_result(args: Seq<ValueModel>, r: Result<Value, CommandError>) -> bool {
    if args.len() == 0 {
        r matches Ok(v) && v@ == ValueModel::SimpleString(ascii_bytes("PONG"@))
    } else if args.len() == 1 {
        r matches Ok(v) && v@ == args[0]
    } else {
        r == Err::<Value, CommandError>(CommandError::WrongArgCount)
    }
}

/// Returns the fixed status `PONG`, or the single argument when one was
/// given.
pub fn eval_ping(params: &[Value]) -> (r: Result<Value, CommandError>)
    ensures
        ping_result(seq_model(params@), r),
{
    proof {
        crate::resp::lemma_seq_model_index(params@);
    }
    if params.len() == 0 {
        let mut text: Vec<u8> = Vec::new();
        proof {
            reveal_strlit("PONG");
            assert(vstd::string::is_ascii("PONG"));
        }
        push_ascii(&mut text, "PONG");
        proof {
            assert(text@ =~= ascii_bytes("PONG"@));
        }
        Ok(Value::SimpleString(text))
    } else if params.len() == 1 {
        Ok(params[0].clone())
    } else {
        Err(CommandError::WrongArgCount)
    }
}


/// What configuration lookup returns: a two-element array of the queried
/// field and its value, for the two fields that exist.
pub open spec fn config_result(
    args: Seq<ValueModel>,
    config: Config,
    r: Result<Value, CommandError>,
) -> bool {
    if args.len() != 2 {
        r == Err::<Value, CommandError>(CommandError::WrongArgCount)
    } else {
        match args[1] {
            ValueModel::BulkString(name) => {
                if name == ascii_bytes("dir"@) {
                    r matches Ok(v) && v@ == ValueModel::Array(
                        seq![
                            args[1],
                            ValueModel::BulkString(vstd::utf8::encode_utf8(config.dir@)),
                        ],
                    )
                } else if name == ascii_bytes("dbfilename"@) {
                    r matches Ok(v) && v@ == ValueModel::Array(
                        seq![
                            args[1],
                            ValueModel::BulkString(vstd::utf8::encode_utf8(config.dbfilename@)),
                        ],
                    )
                } else {
                    r matches Err(CommandError::UnknownConfig(n)) && n@ == name
                }
            },
            _ => r == Err::<Value, CommandError>(CommandError::BadArgument),
        }
    }
}

/// Returns the configured directory or file name; the first argument (the
/// lookup verb) is accepted as given.
pub fn eval_config(params: &[Value], store: &DB) -> (r: Result<Value, CommandError>)
    ensures
        config_result(seq_model(params@), store.config, r),
{
    proof {
        crate::resp::lemma_seq_model_index(params@);
    }
    if params.len() != 2 {
        return Err(CommandError::WrongArgCount);
    }
    let field = &params[1];
    match field {
        Value::BulkString(name) => {
            proof {
                reveal_strlit("dir");
                reveal_strlit("dbfilename");
                assert(vstd::string::is_ascii("dir"));
                assert(vstd::string::is_ascii("dbfilename"));
            }
            let value_string = if ascii_eq(name.as_slice(), "dir") {
                &store.config.dir
            } else if ascii_eq(name.as_slice(), "dbfilename") {
                &store.config.dbfilename
            } else {
                return Err(CommandError::UnknownConfig(name.clone()));
            };
            let value_bytes = slice_to_vec(value_string.as_str().as_bytes());
            let mut elems: Vec<Value> = Vec::new();
            elems.push(params[1].clone());
            elems.push(Value::BulkString(value_bytes));
            let reply = Value::Array(elems);
            proof {
                crate::resp::lemma_seq_model_index(elems@);
                assert(reply@ matches ValueModel::Array(m) && m =~= seq![
                    seq_model(params@)[1],
                    ValueModel::BulkString(vstd::utf8::encode_utf8(value_string@)),
                ]);
            }
            Ok(reply)
        },
        _ => Err(CommandError::BadArgument),
    }
}

/// What key listing returns for the universal pattern: every stored key,
/// in storage order, as a bulk string.
pub open spec fn keys_result(
    args: Seq<ValueModel>,
    key_seq: Seq<Seq<u8>>,
    r: Result<Value, CommandError>,
) -> bool {
    if args.len() != 1 {
        r == Err::<Value, CommandError>(CommandError::WrongArgCount)
    } else {
        match args[0] {
            ValueModel::BulkString(pattern) => {
                if pattern == ascii_bytes("*"@) {
                    r matches Ok(v) && v@ matches ValueModel::Array(elems) && elems.len()
                        == key_seq.len() && (forall|i: int|
                    0 <= i < key_seq.len() ==> elems[i] == ValueModel::BulkString(
                        #[trigger] key_seq[i],
                    ))
                } else {
                    r == Err::<Value, CommandError>(CommandError::UnsupportedPattern)
                }
            },
            _ => r == Err::<Value, CommandError>(CommandError::BadArgument),
        }
    }
}

/// Lists every stored key under the universal pattern; general pattern
/// matching is out of scope.
pub fn eval_keys(params: &[Value], store: &DB) -> (r: Result<Value, CommandError>)
    ensures
        keys_result(seq_model(params@), store.key_seq(), r),
{
    proof {
        crate::resp::lemma_seq_model_index(params@);
    }
    if params.len() != 1 {
        return Err(CommandError::WrongArgCount);
    }
    match &params[0] {
        Value::BulkString(pattern) => {
            proof {
                reveal_strlit("*");
                assert(vstd::string::is_ascii("*"));
            }
            if ascii_eq(pattern.as_slice(), "*") {
                let keys = store.keys();
                let mut elems: Vec<Value> = Vec::new();
                let mut i: usize = 0;
                while i < keys.len()
                    invariant
                        i <= keys@.len(),
                        elems@.len() == i as int,
                        keys@.len() == store.key_seq().len(),
                        forall|j: int|
                            0 <= j < keys@.len() ==> (#[trigger] keys@[j]@) == store.key_seq()[j],
                        forall|j: int|
                            0 <= j < i ==> (#[trigger] elems@[j])@ == ValueModel::BulkString(
                                store.key_seq()[j],
                            ),
                    decreases keys@.len() - i,
                {
                    elems.push(Value::BulkString(keys[i].clone()));
                    i = i + 1;
                }
                let reply = Value::Array(elems);
                proof {
                    crate::resp::lemma_seq_model_index(elems@);
                }
                Ok(reply)
            } else {
                Err(CommandError::UnsupportedPattern)
            }
        },
        _ => Err(CommandError::BadArgument),
    }
}

} // verus!
