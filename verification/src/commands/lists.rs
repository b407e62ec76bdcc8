//! The list-append command: pushes values onto the sequence stored at a
//! key, creating it when absent.

use crate::commands::CommandError;
use crate::db::{EntryModel, DB};
use crate::resp::{seq_model, Value, ValueModel};
use vstd::prelude::*;
use vstd::slice::slice_subrange;

verus! {

/// What list-append does: with a bulk-string key and at least one value,
/// the values are appended in order to the sequence stored at the key (an
/// absent key first becomes an empty sequence without expiry), and the
/// new length is returned; against an entry holding anything but a
/// sequence it fails and the store is unchanged.  A length past the wire
/// integer type cannot be reported: the append stands, the reply fails.
pub open spec fn rpush_result(
    args: Seq<ValueModel>,
    m: Map<Seq<u8>, EntryModel>,
    r: Result<Value, CommandError>,
    m_after: Map<Seq<u8>, EntryModel>,
) -> bool {
    if args.len() < 2 {
        r == Err::<Value, CommandError>(CommandError::WrongArgCount) && m_after == m
    } else {
        match args[0] {
            ValueModel::BulkString(k) => {
                let pushed = args.subrange(1, args.len() as int);
                if !m.contains_key(k) {
                    &&& m_after == m.insert(
                        k,
                        EntryModel { value: ValueModel::Array(pushed), expiry: None },
                    )
                    &&& rpush_reply(pushed.len(), r)
                } else if m[k].value is Array {
                    &&& m_after == m.insert(
                        k,
                        EntryModel {
                            value: ValueModel::Array(m[k].value->Array_0 + pushed),
                            expiry: m[k].expiry,
                        },
                    )
                    &&& rpush_reply(m[k].value->Array_0.len() + pushed.len(), r)
                } else {
                    r == Err::<Value, CommandError>(CommandError::WrongType) && m_after == m
                }
            },
            _ => r == Err::<Value, CommandError>(CommandError::BadArgument) && m_after == m,
        }
    }
}

/// The reply carrying a new length `n`: the integer `n`, unless it cannot
/// be represented on the wire.
pub open spec fn rpush_reply(n: nat, r: Result<Value, CommandError>) -> bool {
    if n <= i64::MAX {
        r matches Ok(v) && v@ == ValueModel::Integer(n as i64)
    } else {
        r == Err::<Value, CommandError>(CommandError::Overflow)
    }
}

/// Appends all given values, in order, to the sequence stored at the key,
/// creating an empty sequence first when the key is absent, and returns
/// the resulting length.
pub fn rpush(params: &[Value], store: &mut DB) -> (r: Result<Value, CommandError>)
    requires
        old(store).wf(),
    ensures
        final(store).wf(),
        final(store).config == old(store).config,
        rpush_result(seq_model(params@), old(store)@, r, final(store)@),
{
    proof {
        crate::resp::lemma_seq_model_index(params@);
    }
    if params.len() < 2 {
        return Err(CommandError::WrongArgCount);
    }
    match &params[0] {
        Value::BulkString(k) => {
            let values = slice_subrange(params, 1, params.len());
            proof {
                crate::resp::lemma_seq_model_index(values@);
                assert(seq_model(values@) =~= seq_model(params@).subrange(
                    1,
                    seq_model(params@).len() as int,
                ));
            }
            match store.append_to_list(k.as_slice(), values) {
                Ok(n) => {
                    if (n as u64) <= (i64::MAX as u64) {
                        Ok(Value::Integer(n as i64))
                    } else {
                        Err(CommandError::Overflow)
                    }
                },
                Err(()) => Err(CommandError::WrongType),
            }
        },
        _ => Err(CommandError::BadArgument),
    }
}

} // verus!
