//! An in-memory key-value server core speaking a Redis-like wire protocol:
//! a byte-exact codec for the request/response encoding, a binary snapshot
//! decoder that seeds the store at startup, a key-value store with lazy
//! time-based expiry, and a command dispatcher mapping parsed requests to
//! store operations.

pub mod bytes;
pub mod commands;
pub mod config;
pub mod db;
pub mod resp;
pub mod snapshot;

use crate::commands::{dispatch_post, eval_command, spec_error_reply, CommandError};
use crate::db::DB;
use crate::resp::{spec_parse, spec_serialize, Value};
use vstd::prelude::*;

verus! {

/// Handles one request already read from the wire, under the store lock
/// the caller holds: parse one value, evaluate it, serialize the reply.
/// Nothing is returned when no complete well-formed value begins the
/// input: that is a protocol-level failure and the connection ends; a
/// command-level failure becomes a client-visible error reply and the
/// connection goes on.
pub fn process(input: &[u8], store: &mut DB, now_ms: u64) -> (r: Option<Vec<u8>>)
    requires
        old(store).wf(),
    ensures
        final(store).wf(),
        final(store).config == old(store).config,
        ({
            match spec_parse(input@) {
                None => r is None && final(store)@ == old(store)@,
                Some((req, n)) => r matches Some(out) && (exists|
                    res: Result<Value, CommandError>,
                |
                    #[trigger] dispatch_post(
                        req,
                        now_ms,
                        old(store)@,
                        old(store).key_seq(),
                        old(store).config,
                        res,
                        final(store)@,
                    ) && (match res {
                        Ok(v) => out@ == spec_serialize(v@),
                        Err(e) => out@ == spec_error_reply(e),
                    })),
            }
        }),
{
    match Value::parse(input) {
        Some((request, _consumed)) => {
            let result = eval_command(&request, store, now_ms);
            let ghost witness = result;
            let out = match result {
                Ok(v) => v.serialize(),
                Err(e) => e.reply(),
            };
            proof {
                assert(dispatch_post(
                    request@,
                    now_ms,
                    old(store)@,
                    old(store).key_seq(),
                    old(store).config,
                    witness,
                    store@,
                ));
            }
            Some(out)
        },
        None => None,
    }
}

} // verus!
