//! Snapshot decoder: a one-shot reader of the compact binary snapshot
//! format that seeds the store at startup.  Decoding is all-or-nothing:
//! any malformed or truncated structural byte sequence fails the whole
//! load.

use crate::db::{entry_expired, EntryModel, DB};
use crate::resp::{dec_digits, push_u64_decimal, Value, ValueModel};
use vstd::slice::{slice_subrange, slice_to_vec};
use vstd::prelude::*;

verus! {

/// One decoded record: key bytes, value bytes, optional expiry
/// (milliseconds since the epoch).
pub type RecordModel = (Seq<u8>, Seq<u8>, Option<u64>);

/// A length-encoding reading: either the length of a string that follows,
/// or an immediate integer standing in place of the string itself.
pub enum LengthCode {
    Length(u64),
    Immediate(u64),
}

/// The little-endian reading of a byte sequence.
pub open spec fn le_val(s: Seq<u8>) -> nat
    decreases s.len(),
{
    if s.len() == 0 {
        0
    } else {
        (s[0] + 256 * le_val(s.subrange(1, s.len() as int))) as nat
    }
}

/// The index of the first occurrence of `b` in `s`, if any.
pub open spec fn find_byte(s: Seq<u8>, b: u8) -> Option<int>
    decreases s.len(),
{
    if s.len() == 0 {
        None
    } else if s[0] == b {
        Some(0int)
    } else {
        match find_byte(s.subrange(1, s.len() as int), b) {
            Some(i) => Some(i + 1),
            None => None,
        }
    }
}

/// The position of the first occurrence determines `find_byte`.
pub proof fn lemma_find_byte_first(s: Seq<u8>, b: u8, i: int)
    requires
        0 <= i < s.len(),
        s[i] == b,
        forall|j: int| 0 <= j < i ==> s[j] != b,
    ensures
        find_byte(s, b) == Some(i),
    decreases s.len(),
{
    if i > 0 {
        lemma_find_byte_first(s.subrange(1, s.len() as int), b, i - 1);
    }
}

/// When `s` holds no `b` at all, `find_byte` finds none.
pub proof fn lemma_find_byte_none(s: Seq<u8>, b: u8)
    requires
        forall|j: int| 0 <= j < s.len() ==> s[j] != b,
    ensures
        find_byte(s, b) is None,
    decreases s.len(),
{
    if s.len() > 0 {
        lemma_find_byte_none(s.subrange(1, s.len() as int), b);
    }
}

/// Reads one length encoding at `pos`: the top two bits of the first byte
/// select a 6-bit length, a 14-bit length, a 4-byte little-endian length,
/// or an immediate 1-, 2- or 4-byte little-endian integer.
pub open spec fn spec_length_enc(s: Seq<u8>, pos: int) -> Option<(LengthCode, int)> {
    if !(0 <= pos < s.len()) {
        None
    } else {
        let b = s[pos];
        if b >> 6 == 0 {
            Some((LengthCode::Length((b & 0x3f) as u64), pos + 1))
        } else if b >> 6 == 1 {
            if pos + 2 <= s.len() {
                Some(
                    (
                        LengthCode::Length(((b & 0x3f) as u64) << 8 | (s[pos + 1] as u64)),
                        pos + 2,
                    ),
                )
            } else {
                None
            }
        } else if b >> 6 == 2 {
            if pos + 5 <= s.len() {
                Some((LengthCode::Length(le_val(s.subrange(pos + 1, pos + 5)) as u64), pos + 5))
            } else {
                None
            }
        } else {
            if b & 0x3f == 0 {
                if pos + 2 <= s.len() {
                    Some((LengthCode::Immediate(s[pos + 1] as u64), pos + 2))
                } else {
                    None
                }
            } else if b & 0x3f == 1 {
                if pos + 3 <= s.len() {
                    Some(
                        (LengthCode::Immediate(le_val(s.subrange(pos + 1, pos + 3)) as u64), pos
                            + 3),
                    )
                } else {
                    None
                }
            } else if b & 0x3f == 2 {
                if pos + 5 <= s.len() {
                    Some(
                        (LengthCode::Immediate(le_val(s.subrange(pos + 1, pos + 5)) as u64), pos
                            + 5),
                    )
                } else {
                    None
                }
            } else {
                None
            }
        }
    }
}

/// Reads one length-encoded string at `pos`: a counted run of raw bytes,
/// or the decimal rendering of an immediate integer.
pub open spec fn spec_string(s: Seq<u8>, pos: int) -> Option<(Seq<u8>, int)> {
    match spec_length_enc(s, pos) {
        Some((LengthCode::Length(n), p)) => if p + n <= s.len() {
            Some((s.subrange(p, p + n), p + n))
        } else {
            None
        },
        Some((LengthCode::Immediate(v), p)) => Some((dec_digits(v as nat), p)),
        None => None,
    }
}

/// Reads an optional expiry opcode at `pos`: a 4-byte little-endian count
/// of seconds, or an 8-byte little-endian count of milliseconds; absence
/// of either opcode means no expiry and consumes nothing.
pub open spec fn spec_expiry(s: Seq<u8>, pos: int) -> Option<(Option<u64>, int)> {
    if !(0 <= pos < s.len()) {
        None
    } else if s[pos] == 0xfd {
        if pos + 5 <= s.len() {
            Some((Some((le_val(s.subrange(pos + 1, pos + 5)) * 1000) as u64), pos + 5))
        } else {
            None
        }
    } else if s[pos] == 0xfc {
        if pos + 9 <= s.len() {
            Some((Some(le_val(s.subrange(pos + 1, pos + 9)) as u64), pos + 9))
        } else {
            None
        }
    } else {
        Some((None, pos))
    }
}

/// Reads records at `pos` until the end-of-file marker: an optional
/// expiry, a value-type byte (accepted but not interpreted: only string
/// values are materialized), a key string and a value string each.
/// Trailing checksum bytes after the marker are left unread.
pub open spec fn spec_records(s: Seq<u8>, pos: int) -> Option<Seq<RecordModel>>
    decreases s.len() - pos,
{
    if !(0 <= pos < s.len()) {
        None
    } else if s[pos] == 0xff {
        Some(Seq::empty())
    } else {
        match spec_expiry(s, pos) {
            Some((exp, p1)) => if p1 + 1 <= s.len() {
                match spec_string(s, p1 + 1) {
                    Some((key, p2)) => match spec_string(s, p2) {
                        Some((val, p3)) => if pos < p3 <= s.len() {
                            match spec_records(s, p3) {
                                Some(rest) => Some(seq![(key, val, exp)] + rest),
                                None => None,
                            }
                        } else {
                            None
                        },
                        None => None,
                    },
                    None => None,
                }
            } else {
                None
            },
            None => None,
        }
    }
}

/// The reading of a whole snapshot: scan forward to the database-selector
/// marker, read the length-encoded database index, expect the resize-hint
/// marker and its two length-encoded counts (informational only), then
/// the records.
pub open spec fn spec_snapshot(s: Seq<u8>) -> Option<Seq<RecordModel>> {
    match find_byte(s, 0xfe) {
        Some(i) => match spec_length_enc(s, i + 1) {
            Some((_, p1)) => if 0 <= p1 < s.len() && s[p1] == 0xfb {
                match spec_length_enc(s, p1 + 1) {
                    Some((_, p2)) => match spec_length_enc(s, p2) {
                        Some((_, p3)) => spec_records(s, p3),
                        None => None,
                    },
                    None => None,
                }
            } else {
                None
            },
            None => None,
        },
        None => None,
    }
}


/// 256 raised to `n`: the count of values of an `n`-byte little-endian
/// reading.
pub open spec fn pow256(n: nat) -> nat
    decreases n,
{
    if n == 0 {
        1
    } else {
        256 * pow256((n - 1) as nat)
    }
}

/// A little-endian reading is bounded by the count of its byte values.
pub proof fn lemma_le_val_bound(s: Seq<u8>)
    ensures
        le_val(s) < pow256(s.len()),
    decreases s.len(),
{
    if s.len() > 0 {
        lemma_le_val_bound(s.subrange(1, s.len() as int));
    }
}

/// `pow256` grows with its argument.
proof fn lemma_pow256_mono(a: nat, b: nat)
    requires
        a <= b,
    ensures
        pow256(a) <= pow256(b),
    decreases b,
{
    if a < b {
        lemma_pow256_mono(a, (b - 1) as nat);
    }
}

/// The small powers of 256 that byte readings need.
proof fn lemma_pow256_values()
    ensures
        pow256(4) == 0x1_0000_0000,
        pow256(8) == 0x1_0000_0000_0000_0000,
{
    assert(pow256(0) == 1);
    assert(pow256(1) == 256);
    assert(pow256(2) == 0x1_0000);
    assert(pow256(3) == 0x100_0000);
    assert(pow256(4) == 0x1_0000_0000);
    assert(pow256(5) == 0x100_0000_0000);
    assert(pow256(6) == 0x1_0000_0000_0000);
    assert(pow256(7) == 0x100_0000_0000_0000);
    assert(pow256(8) == 0x1_0000_0000_0000_0000);
}

/// Reads the bytes of `bytes[start..end)` as a little-endian integer.
fn le_read(bytes: &[u8], start: usize, end: usize) -> (r: u64)
    requires
        start <= end <= bytes@.len(),
        end - start <= 8,
    ensures
        r as nat == le_val(bytes@.subrange(start as int, end as int)),
    decreases end - start,
{
    if start == end {
        proof {
            assert(bytes@.subrange(start as int, start as int) =~= Seq::<u8>::empty());
        }
        0
    } else {
        let b0 = bytes[start] as u64;
        let rest = le_read(bytes, start + 1, end);
        proof {
            let sub = bytes@.subrange(start as int, end as int);
            let sub1 = bytes@.subrange(start as int + 1, end as int);
            assert(sub[0] == bytes@[start as int]);
            assert(sub.subrange(1, sub.len() as int) =~= sub1);
            lemma_le_val_bound(sub1);
            lemma_pow256_mono(sub1.len(), 7);
            lemma_pow256_values();
            assert(pow256(7) == 0x100_0000_0000_0000);
        }
        b0 + 256 * rest
    }
}

/// Reads one length encoding, exactly as `spec_length_enc` reads the same
/// bytes.
pub fn get_length_encoding(bytes: &[u8], pos: usize) -> (r: Option<(LengthCode, usize)>)
    ensures
        match r {
            Some((c, p)) => pos < p <= bytes@.len() && spec_length_enc(bytes@, pos as int)
                == Some((c, p as int)),
            None => spec_length_enc(bytes@, pos as int) is None,
        },
{
    let len = bytes.len();
    if pos >= len {
        return None;
    }
    let b = bytes[pos];
    if b >> 6 == 0 {
        Some((LengthCode::Length((b & 0x3f) as u64), pos + 1))
    } else if b >> 6 == 1 {
        if len - pos >= 2 {
            let v = ((b & 0x3f) as u64) << 8 | (bytes[pos + 1] as u64);
            Some((LengthCode::Length(v), pos + 2))
        } else {
            None
        }
    } else if b >> 6 == 2 {
        if len - pos >= 5 {
            let v = le_read(bytes, pos + 1, pos + 5);
            Some((LengthCode::Length(v), pos + 5))
        } else {
            None
        }
    } else {
        if b & 0x3f == 0 {
            if len - pos >= 2 {
                Some((LengthCode::Immediate(bytes[pos + 1] as u64), pos + 2))
            } else {
                None
            }
        } else if b & 0x3f == 1 {
            if len - pos >= 3 {
                let v = le_read(bytes, pos + 1, pos + 3);
                Some((LengthCode::Immediate(v), pos + 3))
            } else {
                None
            }
        } else if b & 0x3f == 2 {
            if len - pos >= 5 {
                let v = le_read(bytes, pos + 1, pos + 5);
                Some((LengthCode::Immediate(v), pos + 5))
            } else {
                None
            }
        } else {
            None
        }
    }
}

/// Reads one length-encoded string, exactly as `spec_string` reads the
/// same bytes.
pub fn get_string(bytes: &[u8], pos: usize) -> (r: Option<(Vec<u8>, usize)>)
    ensures
        match r {
            Some((v, p)) => pos < p <= bytes@.len() && spec_string(bytes@, pos as int) == Some(
                (v@, p as int),
            ),
            None => spec_string(bytes@, pos as int) is None,
        },
{
    let len = bytes.len();
    match get_length_encoding(bytes, pos) {
        Some((LengthCode::Length(n), p)) => {
            if n > (len - p) as u64 {
                return None;
            }
            let nn = n as usize;
            let v = slice_to_vec(slice_subrange(bytes, p, p + nn));
            Some((v, p + nn))
        },
        Some((LengthCode::Immediate(v), p)) => {
            let mut out: Vec<u8> = Vec::new();
            push_u64_decimal(&mut out, v);
            proof {
                assert(Seq::<u8>::empty() + dec_digits(v as nat) =~= dec_digits(v as nat));
            }
            Some((out, p))
        },
        None => None,
    }
}

/// Reads an optional expiry opcode, exactly as `spec_expiry` reads the
/// same bytes.
fn get_expiry(bytes: &[u8], pos: usize) -> (r: Option<(Option<u64>, usize)>)
    ensures
        match r {
            Some((e, p)) => pos <= p <= bytes@.len() && spec_expiry(bytes@, pos as int) == Some(
                (e, p as int),
            ),
            None => spec_expiry(bytes@, pos as int) is None,
        },
{
    let len = bytes.len();
    if pos >= len {
        return None;
    }
    let b = bytes[pos];
    if b == 0xfd {
        if len - pos >= 5 {
            let seconds = le_read(bytes, pos + 1, pos + 5);
            proof {
                lemma_le_val_bound(bytes@.subrange(pos as int + 1, pos as int + 5));
                lemma_pow256_values();
            }
            Some((Some(seconds * 1000), pos + 5))
        } else {
            None
        }
    } else if b == 0xfc {
        if len - pos >= 9 {
            let ms = le_read(bytes, pos + 1, pos + 9);
            Some((Some(ms), pos + 9))
        } else {
            None
        }
    } else {
        Some((None, pos))
    }
}

/// The models of decoded records, record by record.
pub open spec fn records_model(s: Seq<(Vec<u8>, Vec<u8>, Option<u64>)>) -> Seq<RecordModel> {
    Seq::new(s.len(), |i: int| (s[i].0@, s[i].1@, s[i].2))
}

/// Decodes records from `start` until the end-of-file marker, exactly as
/// `spec_records` reads the same bytes.
fn decode_records(bytes: &[u8], start: usize) -> (r: Option<Vec<(Vec<u8>, Vec<u8>, Option<u64>)>>)
    requires
        start <= bytes@.len(),
    ensures
        match r {
            Some(recs) => spec_records(bytes@, start as int) == Some(records_model(recs@)),
            None => spec_records(bytes@, start as int) is None,
        },
{
    let len = bytes.len();
    let mut recs: Vec<(Vec<u8>, Vec<u8>, Option<u64>)> = Vec::new();
    let mut pos = start;
    loop
        invariant
            start <= pos <= len,
            len == bytes@.len(),
            spec_records(bytes@, start as int) == (match spec_records(bytes@, pos as int) {
                Some(rest) => Some(records_model(recs@) + rest),
                None => None::<Seq<RecordModel>>,
            }),
        decreases len - pos,
    {
        if pos >= len {
            return None;
        }
        if bytes[pos] == 0xff {
            proof {
                assert(records_model(recs@) + Seq::<RecordModel>::empty() =~= records_model(
                    recs@,
                ));
            }
            return Some(recs);
        }
        let (exp, p1) = match get_expiry(bytes, pos) {
            Some(x) => x,
            None => {
                return None;
            },
        };
        if p1 >= len {
            return None;
        }
        let (key, p2) = match get_string(bytes, p1 + 1) {
            Some(x) => x,
            None => {
                return None;
            },
        };
        let (val, p3) = match get_string(bytes, p2) {
            Some(x) => x,
            None => {
                return None;
            },
        };
        let ghost old_recs = recs@;
        recs.push((key, val, exp));
        proof {
            let rec_model = (key@, val@, exp);
            assert(records_model(recs@) =~= records_model(old_recs).push(rec_model));
            if let Some(rest2) = spec_records(bytes@, p3 as int) {
                assert(records_model(old_recs) + (seq![rec_model] + rest2) =~= records_model(
                    recs@,
                ) + rest2);
            }
        }
        pos = p3;
    }
}

/// A structurally invalid or truncated snapshot: loading is all-or-nothing
/// and a bad byte sequence fails the whole startup load.
#[derive(Debug)]
pub struct SnapshotError;

/// The store contents denoted by a record sequence: each record becomes a
/// string-valued entry under its key, inserted in order, a later record
/// shadowing an earlier one for the same key.
pub open spec fn insert_records(m: Map<Seq<u8>, EntryModel>, recs: Seq<RecordModel>) -> Map<
    Seq<u8>,
    EntryModel,
>
    decreases recs.len(),
{
    if recs.len() == 0 {
        m
    } else {
        insert_records(m, recs.subrange(0, recs.len() - 1)).insert(
            recs[recs.len() - 1].0,
            EntryModel {
                value: ValueModel::SimpleString(recs[recs.len() - 1].1),
                expiry: recs[recs.len() - 1].2,
            },
        )
    }
}

impl DB {
    /// Seeds the store from snapshot bytes: on a structurally valid
    /// snapshot, every decoded record is inserted in order; on any
    /// malformed or truncated snapshot nothing is loaded and startup
    /// fails.
    pub fn parse_rdb(self, bytes: &[u8]) -> (r: Result<DB, SnapshotError>)
        requires
            self.wf(),
        ensures
            match r {
                Ok(db) => {
                    &&& spec_snapshot(bytes@) matches Some(recs) && db@ == insert_records(
                        self@,
                        recs,
                    )
                    &&& db.wf()
                    &&& db.config == self.config
                },
                Err(_) => spec_snapshot(bytes@) is None,
            },
    {
        let len = bytes.len();
        let mut sel: usize = 0;
        loop
            invariant_except_break
                sel <= len,
                len == bytes@.len(),
                forall|j: int| 0 <= j < sel ==> bytes@[j] != 0xfe,
            ensures
                sel < len,
                len == bytes@.len(),
                bytes@[sel as int] == 0xfe,
                forall|j: int| 0 <= j < sel ==> bytes@[j] != 0xfe,
            decreases len - sel,
        {
            if sel >= len {
                proof {
                    lemma_find_byte_none(bytes@, 0xfe);
                }
                return Err(SnapshotError);
            }
            if bytes[sel] == 0xfe {
                break ;
            }
            sel = sel + 1;
        }
        proof {
            lemma_find_byte_first(bytes@, 0xfe, sel as int);
        }
        let (_index, p1) = match get_length_encoding(bytes, sel + 1) {
            Some(x) => x,
            None => {
                return Err(SnapshotError);
            },
        };
        if p1 >= len {
            return Err(SnapshotError);
        }
        if bytes[p1] != 0xfb {
            return Err(SnapshotError);
        }
        let (_hash_table_size, p2) = match get_length_encoding(bytes, p1 + 1) {
            Some(x) => x,
            None => {
                return Err(SnapshotError);
            },
        };
        let (_expire_table_size, p3) = match get_length_encoding(bytes, p2) {
            Some(x) => x,
            None => {
                return Err(SnapshotError);
            },
        };
        let recs = match decode_records(bytes, p3) {
            Some(r) => r,
            None => {
                return Err(SnapshotError);
            },
        };
        let ghost orig_map = self@;
        let ghost orig_config = self.config;
        let ghost models = records_model(recs@);
        let mut db = self;
        let mut i: usize = 0;
        while i < recs.len()
            invariant
                i <= recs@.len(),
                models == records_model(recs@),
                db.wf(),
                db.config == orig_config,
                db@ == insert_records(orig_map, models.subrange(0, i as int)),
            decreases recs@.len() - i,
        {
            let key = recs[i].0.clone();
            let val = recs[i].1.clone();
            let exp = recs[i].2;
            db.set(key, Value::SimpleString(val), exp);
            proof {
                assert(models.subrange(0, i + 1).subrange(0, i as int) =~= models.subrange(
                    0,
                    i as int,
                ));
                assert(models.subrange(0, i + 1)[i as int] == models[i as int]);
            }
            i = i + 1;
        }
        proof {
            assert(models.subrange(0, models.len() as int) =~= models);
        }
        Ok(db)
    }
}

/// The built-in snapshot served when no snapshot file can be read: a
/// header, two metadata fields, and one database section holding the key
/// `banana` with the value `mango` and no expiry.
pub open spec fn fallback_bytes() -> Seq<u8> {
    seq![
        0x52u8, 0x45, 0x44, 0x49, 0x53, 0x30, 0x30, 0x31, 0x31, 0xfa, 0x09, 0x72, 0x65, 0x64,
        0x69, 0x73, 0x2d, 0x76, 0x65, 0x72, 0x05, 0x37, 0x2e, 0x32, 0x2e, 0x30, 0xfa, 0x0a,
        0x72, 0x65, 0x64, 0x69, 0x73, 0x2d, 0x62, 0x69, 0x74, 0x73, 0xc0, 0x40, 0xfe, 0x00,
        0xfb, 0x01, 0x00, 0x00, 0x06, 0x62, 0x61, 0x6e, 0x61, 0x6e, 0x61, 0x05, 0x6d, 0x61,
        0x6e, 0x67, 0x6f, 0xff, 0x53, 0x19, 0x39, 0x63, 0x07, 0xdb, 0x0d, 0xc0, 0x0a,
    ]
}

/// The built-in snapshot bytes as a vector.
pub fn fallback_snapshot() -> (r: Vec<u8>)
    ensures
        r@ == fallback_bytes(),
{
    let v: Vec<u8> = vec![
        0x52u8, 0x45, 0x44, 0x49, 0x53, 0x30, 0x30, 0x31, 0x31, 0xfa, 0x09, 0x72, 0x65, 0x64,
        0x69, 0x73, 0x2d, 0x76, 0x65, 0x72, 0x05, 0x37, 0x2e, 0x32, 0x2e, 0x30, 0xfa, 0x0a,
        0x72, 0x65, 0x64, 0x69, 0x73, 0x2d, 0x62, 0x69, 0x74, 0x73, 0xc0, 0x40, 0xfe, 0x00,
        0xfb, 0x01, 0x00, 0x00, 0x06, 0x62, 0x61, 0x6e, 0x61, 0x6e, 0x61, 0x05, 0x6d, 0x61,
        0x6e, 0x67, 0x6f, 0xff, 0x53, 0x19, 0x39, 0x63, 0x07, 0xdb, 0x0d, 0xc0, 0x0a,
    ];
    proof {
        assert(v@ =~= fallback_bytes());
    }
    v
}

} // verus!
