//! The string commands: set (with an optional expiry-in-milliseconds
//! modifier) and get (with lazy expiry).

use crate::bytes::{ascii_bytes, push_ascii};
use crate::commands::CommandError;
use crate::db::{entry_expired, EntryModel, DB};
use crate::resp::{all_digits, digits_val, seq_model, Value, ValueModel};
use vstd::prelude::*;

verus! {

/// The absolute expiry reached `px` milliseconds after `now_ms`, held at
/// the largest representable time when the sum leaves the clock's range.
pub open spec fn expiry_at(now_ms: u64, px: nat) -> u64 {
    if now_ms + px <= u64::MAX {
        (now_ms + px) as u64
    } else {
        u64::MAX
    }
}

/// What set does: two bulk-string arguments insert or wholesale-replace
/// the entry without expiry; two more bulk strings — a modifier word,
/// accepted as given, and a decimal count of milliseconds — set an
/// absolute expiry that far after `now_ms`.
pub open spec fn set_result(
    args: Seq<ValueModel>,
    now_ms: u64,
    m: Map<Seq<u8>, EntryModel>,
    r: Result<Value, CommandError>,
    m_after: Map<Seq<u8>, EntryModel>,
) -> bool {
    if args.len() == 2 {
        match (args[0], args[1]) {
            (ValueModel::BulkString(k), ValueModel::BulkString(v)) => {
                &&& r matches Ok(ok) && ok@ == ValueModel::SimpleString(ascii_bytes("OK"@))
                &&& m_after == m.insert(
                    k,
                    EntryModel { value: ValueModel::BulkString(v), expiry: None },
                )
            },
            _ => r == Err::<Value, CommandError>(CommandError::BadArgument) && m_after == m,
        }
    } else if args.len() == 4 {
        match (args[0], args[1], args[2], args[3]) {
            (
                ValueModel::BulkString(k),
                ValueModel::BulkString(v),
                ValueModel::BulkString(_flag),
                ValueModel::BulkString(px),
            ) => {
                if px.len() > 0 && all_digits(px) && digits_val(px) <= u64::MAX {
                    &&& r matches Ok(ok) && ok@ == ValueModel::SimpleString(
                        ascii_bytes("OK"@),
                    )
                    &&& m_after == m.insert(
                        k,
                        EntryModel {
                            value: ValueModel::BulkString(v),
                            expiry: Some(expiry_at(now_ms, digits_val(px))),
                        },
                    )
                } else {
                    r == Err::<Value, CommandError>(CommandError::BadExpiry) && m_after == m
                }
            },
            _ => r == Err::<Value, CommandError>(CommandError::BadArgument) && m_after == m,
        }
    } else {
        r == Err::<Value, CommandError>(CommandError::WrongArgCount) && m_after == m
    }
}

/// The fixed success status.
fn ok_status() -> (r: Value)
    ensures
        r@ == ValueModel::SimpleString(ascii_bytes("OK"@)),
{
    let mut text: Vec<u8> = Vec::new();
    proof {
        reveal_strlit("OK");
        assert(vstd::string::is_ascii("OK"));
    }
    push_ascii(&mut text, "OK");
    proof {
        assert(text@ =~= ascii_bytes("OK"@));
    }
    Value::SimpleString(text)
}

/// Inserts or wholesale-replaces the entry for a key, with an optional
/// expiry given as a trailing modifier-word and milliseconds pair.
pub fn eval_set(params: &[Value], store: &mut DB, now_ms: u64) -> (r: Result<
    Value,
    CommandError,
>)
    requires
        old(store).wf(),
    ensures
        final(store).wf(),
        final(store).config == old(store).config,
        set_result(seq_model(params@), now_ms, old(store)@, r, final(store)@),
{
    proof {
        crate::resp::lemma_seq_model_index(params@);
    }
    if params.len() == 2 {
        match (&params[0], &params[1]) {
            (Value::BulkString(k), Value::BulkString(v)) => {
                store.set(k.clone(), Value::BulkString(v.clone()), None);
                Ok(ok_status())
            },
            _ => Err(CommandError::BadArgument),
        }
    } else if params.len() == 4 {
        match (&params[0], &params[1], &params[2], &params[3]) {
            (
                Value::BulkString(k),
                Value::BulkString(v),
                Value::BulkString(_flag),
                Value::BulkString(px),
            ) => {
                let ghost px_bytes = px@;
                proof {
                    assert(px@.subrange(0, px@.len() as int) =~= px@);
                }
                match crate::resp::parse_digits_u64(px.as_slice(), 0, px.len()) {
                    Some(ms) => {
                        let expiry = if now_ms <= u64::MAX - ms {
                            now_ms + ms
                        } else {
                            u64::MAX
                        };
                        store.set(k.clone(), Value::BulkString(v.clone()), Some(expiry));
                        Ok(ok_status())
                    },
                    None => Err(CommandError::BadExpiry),
                }
            },
            _ => Err(CommandError::BadArgument),
        }
    } else {
        Err(CommandError::WrongArgCount)
    }
}

/// What get returns: the stored value when the key is present and not yet
/// expired, otherwise the null value; a read of an expired entry removes
/// it.
pub open spec fn get_result(
    args: Seq<ValueModel>,
    now_ms: u64,
    m: Map<Seq<u8>, EntryModel>,
    r: Result<Value, CommandError>,
    m_after: Map<Seq<u8>, EntryModel>,
) -> bool {
    if args.len() != 1 {
        r == Err::<Value, CommandError>(CommandError::WrongArgCount) && m_after == m
    } else {
        match args[0] {
            ValueModel::BulkString(k) => {
                if m.contains_key(k) && !entry_expired(m[k], now_ms) {
                    &&& r matches Ok(v) && v@ == m[k].value
                    &&& m_after == m
                } else if m.contains_key(k) && entry_expired(m[k], now_ms) {
                    &&& r matches Ok(v) && v@ == ValueModel::NullString
                    &&& m_after == m.remove(k)
                } else {
                    &&& r matches Ok(v) && v@ == ValueModel::NullString
                    &&& m_after == m
                }
            },
            _ => r == Err::<Value, CommandError>(CommandError::BadArgument) && m_after == m,
        }
    }
}

/// Reads the entry for a key, treating an expired entry as absent and
/// removing it.
pub fn eval_get(params: &[Value], store: &mut DB, now_ms: u64) -> (r: Result<
    Value,
    CommandError,
>)
    requires
        old(store).wf(),
    ensures
        final(store).wf(),
        final(store).config == old(store).config,
        get_result(seq_model(params@), now_ms, old(store)@, r, final(store)@),
{
    proof {
        crate::resp::lemma_seq_model_index(params@);
    }
    if params.len() != 1 {
        return Err(CommandError::WrongArgCount);
    }
    match &params[0] {
        Value::BulkString(k) => {
            match store.get(k.as_slice(), now_ms) {
                Some(v) => Ok(v),
                None => Ok(Value::NullString),
            }
        },
        _ => Err(CommandError::BadArgument),
    }
}

} // verus!
