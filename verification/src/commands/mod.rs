//! The command dispatcher: a closed set of commands, each a mapping from
//! a parsed request and the store to a protocol value or a typed failure.

pub mod basics;
pub mod lists;
pub mod strings;

use crate::bytes::{ascii_bytes, ascii_eq, push_ascii};
use crate::resp::push_bytes;
use crate::config::Config;
use crate::db::{EntryModel, DB};
use crate::resp::{seq_model, Value, ValueModel};
use vstd::prelude::*;
use vstd::slice::slice_subrange;

verus! {

/// A command-level failure: recovered per command, serialized into a
/// client-visible error reply, never allowed to end the connection or
/// poison the store.
#[derive(Debug)]
pub enum CommandError {
    /// The request was not an array of values led by a string command name.
    Malformed,
    /// The command name, carried here, is not an implemented command.
    UnknownCommand(Vec<u8>),
    /// The wrong number of arguments for the command.
    WrongArgCount,
    /// An argument that must be a bulk string was something else.
    BadArgument,
    /// The expiry modifier did not read as a count of milliseconds.
    BadExpiry,
    /// An operation against a key holding the wrong kind of value.
    WrongType,
    /// The named configuration field, carried here, does not exist.
    UnknownConfig(Vec<u8>),
    /// Only the universal key pattern is supported.
    UnsupportedPattern,
    /// A sequence grew past what the wire integer type can carry.
    Overflow,
}

/// Splits a request into command-name bytes and arguments: a request must
/// be an array whose first element is a bulk string.
pub open spec fn req_parts(m: ValueModel) -> Option<(Seq<u8>, Seq<ValueModel>)> {
    if m matches ValueModel::Array(elems) && elems.len() >= 1 && elems[0]
        matches ValueModel::BulkString(cmd) {
        Some((m->Array_0[0]->BulkString_0, m->Array_0.subrange(1, m->Array_0.len() as int)))
    } else {
        None
    }
}


/// The wire form of a command-level failure: an error marker and a
/// human-readable message, carrying the offending name where there is
/// one, terminated like any status line.
pub open spec fn spec_error_reply(e: CommandError) -> Seq<u8> {
    match e {
        CommandError::Malformed => ascii_bytes("-ERR malformed command\r\n"@),
        CommandError::UnknownCommand(name) => ascii_bytes("-ERR unknown command '"@) + name@
            + ascii_bytes("'\r\n"@),
        CommandError::WrongArgCount => ascii_bytes("-ERR wrong number of arguments\r\n"@),
        CommandError::BadArgument => ascii_bytes("-ERR wrong kind of argument\r\n"@),
        CommandError::BadExpiry => ascii_bytes("-ERR invalid expiry\r\n"@),
        CommandError::WrongType => ascii_bytes(
            "-WRONGTYPE Operation against a key holding the wrong kind of value\r\n"@,
        ),
        CommandError::UnknownConfig(name) => ascii_bytes("-ERR unknown config '"@) + name@
            + ascii_bytes("'\r\n"@),
        CommandError::UnsupportedPattern => ascii_bytes("-ERR unsupported pattern\r\n"@),
        CommandError::Overflow => ascii_bytes("-ERR value out of range\r\n"@),
    }
}

impl CommandError {
    /// The client-visible error reply for this failure.
    pub fn reply(&self) -> (r: Vec<u8>)
        ensures
            r@ == spec_error_reply(*self),
    {
        let mut out: Vec<u8> = Vec::new();
        match self {
            CommandError::Malformed => {
                proof {
                    reveal_strlit("-ERR malformed command\r\n");
                    assert(vstd::string::is_ascii("-ERR malformed command\r\n"));
                }
                push_ascii(&mut out, "-ERR malformed command\r\n");
            },
            CommandError::UnknownCommand(name) => {
                proof {
                    reveal_strlit("-ERR unknown command '");
                    reveal_strlit("'\r\n");
                    assert(vstd::string::is_ascii("-ERR unknown command '"));
                    assert(vstd::string::is_ascii("'\r\n"));
                }
                push_ascii(&mut out, "-ERR unknown command '");
                push_bytes(&mut out, name.as_slice());
                push_ascii(&mut out, "'\r\n");
            },
            CommandError::WrongArgCount => {
                proof {
                    reveal_strlit("-ERR wrong number of arguments\r\n");
                    assert(vstd::string::is_ascii("-ERR wrong number of arguments\r\n"));
                }
                push_ascii(&mut out, "-ERR wrong number of arguments\r\n");
            },
            CommandError::BadArgument => {
                proof {
                    reveal_strlit("-ERR wrong kind of argument\r\n");
                    assert(vstd::string::is_ascii("-ERR wrong kind of argument\r\n"));
                }
                push_ascii(&mut out, "-ERR wrong kind of argument\r\n");
            },
            CommandError::BadExpiry => {
                proof {
                    reveal_strlit("-ERR invalid expiry\r\n");
                    assert(vstd::string::is_ascii("-ERR invalid expiry\r\n"));
                }
                push_ascii(&mut out, "-ERR invalid expiry\r\n");
            },
            CommandError::WrongType => {
                proof {
                    reveal_strlit(
                        "-WRONGTYPE Operation against a key holding the wrong kind of value\r\n",
                    );
                    assert(vstd::string::is_ascii(
                        "-WRONGTYPE Operation against a key holding the wrong kind of value\r\n",
                    ));
                }
                push_ascii(
                    &mut out,
                    "-WRONGTYPE Operation against a key holding the wrong kind of value\r\n",
                );
            },
            CommandError::UnknownConfig(name) => {
                proof {
                    reveal_strlit("-ERR unknown config '");
                    reveal_strlit("'\r\n");
                    assert(vstd::string::is_ascii("-ERR unknown config '"));
                    assert(vstd::string::is_ascii("'\r\n"));
                }
                push_ascii(&mut out, "-ERR unknown config '");
                push_bytes(&mut out, name.as_slice());
                push_ascii(&mut out, "'\r\n");
            },
            CommandError::UnsupportedPattern => {
                proof {
                    reveal_strlit("-ERR unsupported pattern\r\n");
                    assert(vstd::string::is_ascii("-ERR unsupported pattern\r\n"));
                }
                push_ascii(&mut out, "-ERR unsupported pattern\r\n");
            },
            CommandError::Overflow => {
                proof {
                    reveal_strlit("-ERR value out of range\r\n");
                    assert(vstd::string::is_ascii("-ERR value out of range\r\n"));
                }
                push_ascii(&mut out, "-ERR value out of range\r\n");
            },
        }
        proof {
            assert(Seq::<u8>::empty() + spec_error_reply(*self) =~= spec_error_reply(*self));
        }
        out
    }
}

/// Everything the dispatcher promises of one evaluation: the request is
/// split into name and arguments, matched by exact name against the
/// commands in scope, and the named command's own contract relates the
/// result and the store before and after.
pub open spec fn dispatch_post(
    req: ValueModel,
    now_ms: u64,
    m: Map<Seq<u8>, EntryModel>,
    key_seq: Seq<Seq<u8>>,
    config: Config,
    r: Result<Value, CommandError>,
    mf: Map<Seq<u8>, EntryModel>,
) -> bool {
    match req_parts(req) {
        None => r == Err::<Value, CommandError>(CommandError::Malformed) && mf == m,
        Some((cmd, args)) => {
            if cmd == ascii_bytes("ECHO"@) {
                basics::echo_result(args, r) && mf == m
            } else if cmd == ascii_bytes("PING"@) {
                basics::ping_result(args, r) && mf == m
            } else if cmd == ascii_bytes("SET"@) {
                strings::set_result(args, now_ms, m, r, mf)
            } else if cmd == ascii_bytes("GET"@) {
                strings::get_result(args, now_ms, m, r, mf)
            } else if cmd == ascii_bytes("KEYS"@) {
                basics::keys_result(args, key_seq, r) && mf == m
            } else if cmd == ascii_bytes("CONFIG"@) {
                basics::config_result(args, config, r) && mf == m
            } else if cmd == ascii_bytes("RPUSH"@) {
                lists::rpush_result(args, m, r, mf)
            } else {
                (r matches Err(CommandError::UnknownCommand(name)) && name@ == cmd) && mf == m
            }
        },
    }
}

/// Evaluates one parsed request against the store, matching the command
/// name exactly against the commands in scope.
pub fn eval_command(segments: &Value, store: &mut DB, now_ms: u64) -> (r: Result<
    Value,
    CommandError,
>)
    requires
        old(store).wf(),
    ensures
        final(store).wf(),
        final(store).config == old(store).config,
        dispatch_post(
            segments@,
            now_ms,
            old(store)@,
            old(store).key_seq(),
            old(store).config,
            r,
            final(store)@,
        ),
{
    match segments {
        Value::Array(arr) => {
            proof {
                crate::resp::lemma_seq_model_index(arr@);
            }
            if arr.len() == 0 {
                return Err(CommandError::Malformed);
            }
            match &arr[0] {
                Value::BulkString(cmd) => {
                    let args = slice_subrange(arr.as_slice(), 1, arr.len());
                    proof {
                        assert(seq_model(arr@)[0] == arr@[0]@);
                        assert(seq_model(args@) =~= seq_model(arr@).subrange(
                            1,
                            seq_model(arr@).len() as int,
                        )) by {
                            crate::resp::lemma_seq_model_index(args@);
                            crate::resp::lemma_seq_model_index(arr@);
                        }
                        reveal_strlit("ECHO");
                        reveal_strlit("PING");
                        reveal_strlit("SET");
                        reveal_strlit("GET");
                        reveal_strlit("KEYS");
                        reveal_strlit("CONFIG");
                        reveal_strlit("RPUSH");
                        assert(vstd::string::is_ascii("ECHO"));
                        assert(vstd::string::is_ascii("PING"));
                        assert(vstd::string::is_ascii("SET"));
                        assert(vstd::string::is_ascii("GET"));
                        assert(vstd::string::is_ascii("KEYS"));
                        assert(vstd::string::is_ascii("CONFIG"));
                        assert(vstd::string::is_ascii("RPUSH"));
                    }
                    if ascii_eq(cmd.as_slice(), "ECHO") {
                        basics::eval_echo(args)
                    } else if ascii_eq(cmd.as_slice(), "PING") {
                        basics::eval_ping(args)
                    } else if ascii_eq(cmd.as_slice(), "SET") {
                        strings::eval_set(args, store, now_ms)
                    } else if ascii_eq(cmd.as_slice(), "GET") {
                        strings::eval_get(args, store, now_ms)
                    } else if ascii_eq(cmd.as_slice(), "KEYS") {
                        basics::eval_keys(args, store)
                    } else if ascii_eq(cmd.as_slice(), "CONFIG") {
                        basics::eval_config(args, store)
                    } else if ascii_eq(cmd.as_slice(), "RPUSH") {
                        lists::rpush(args, store)
                    } else {
                        Err(CommandError::UnknownCommand(cmd.clone()))
                    }
                },
                _ => Err(CommandError::Malformed),
            }
        },
        _ => Err(CommandError::Malformed),
    }
}

} // verus!
