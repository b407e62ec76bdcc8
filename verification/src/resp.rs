//! Wire protocol codec: the `Value` type exchanged on the wire, its
//! canonical byte encoding (`serialize`) and a length-driven parser
//! (`parse`), each specified against a mathematical model of the encoding.

use vstd::prelude::*;
use vstd::slice::{slice_subrange, slice_to_vec};

verus! {

/// A unit exchanged on the wire, as parsed from or serialized to bytes.
#[derive(Debug)]
pub enum Value {
    /// Absence of a value (encoded as a null bulk string).
    NullString,
    /// A short, trusted status line (must not contain CR or LF).
    SimpleString(Vec<u8>),
    /// A binary-safe byte string of known length (may contain any byte).
    BulkString(Vec<u8>),
    Integer(i64),
    /// An ordered, possibly empty, possibly nested sequence of values.
    Array(Vec<Value>),
}

/// The mathematical model of a `Value`: `Seq` in place of `Vec`.
pub enum ValueModel {
    NullString,
    SimpleString(Seq<u8>),
    BulkString(Seq<u8>),
    Integer(i64),
    Array(Seq<ValueModel>),
}

/// The model of a `Value`, recursively replacing each `Vec` by its `Seq` view.
pub open spec fn value_model(v: Value) -> ValueModel
    decreases v,
{
    match v {
        Value::NullString => ValueModel::NullString,
        Value::SimpleString(s) => ValueModel::SimpleString(s@),
        Value::BulkString(s) => ValueModel::BulkString(s@),
        Value::Integer(i) => ValueModel::Integer(i),
        Value::Array(arr) => ValueModel::Array(seq_model(arr@)),
    }
}

/// The models of a sequence of values, element by element.
pub open spec fn seq_model(s: Seq<Value>) -> Seq<ValueModel>
    decreases s,
{
    if s.len() == 0 {
        Seq::empty()
    } else {
        seq_model(s.subrange(0, s.len() - 1)).push(value_model(s[s.len() - 1]))
    }
}

/// `seq_model` is pointwise `value_model`.
pub proof fn lemma_seq_model_index(s: Seq<Value>)
    ensures
        seq_model(s).len() == s.len(),
        forall|i: int| 0 <= i < s.len() ==> seq_model(s)[i] == value_model(s[i]),
    decreases s.len(),
{
    if s.len() > 0 {
        lemma_seq_model_index(s.subrange(0, s.len() - 1));
    }
}

impl View for Value {
    type V = ValueModel;

    open spec fn view(&self) -> ValueModel {
        value_model(*self)
    }
}

impl Clone for Value {
    /// A deep copy: the copy has the same model as the original.
    fn clone(&self) -> (r: Self)
        ensures
            r@ == self@,
        decreases *self,
    {
        match self {
            Value::NullString => Value::NullString,
            Value::SimpleString(s) => Value::SimpleString(s.clone()),
            Value::BulkString(s) => Value::BulkString(s.clone()),
            Value::Integer(i) => Value::Integer(*i),
            Value::Array(arr) => {
                let mut out: Vec<Value> = Vec::new();
                let mut i: usize = 0;
                while i < arr.len()
                    invariant
                        *self == Value::Array(*arr),
                        i <= arr.len(),
                        out@.len() == i as int,
                        forall|j: int| 0 <= j < i ==> out@[j]@ == arr@[j]@,
                    decreases arr.len() - i,
                {
                    proof {
                        broadcast use vstd::seq::axiom_seq_index_decreases;

                        assert(decreases_to!(*self => self->Array_0));
                        assert(decreases_to!(*arr => arr@));
                        assert(decreases_to!(arr@ => arr@[i as int]));
                    }
                    let e = arr[i].clone();
                    out.push(e);
                    i = i + 1;
                }
                let r = Value::Array(out);
                proof {
                    lemma_seq_model_index(out@);
                    lemma_seq_model_index(arr@);
                    assert(seq_model(out@) =~= seq_model(arr@));
                }
                r
            },
        }
    }
}

/// The decimal digits of `n`, most significant first, as ASCII bytes.
pub open spec fn dec_digits(n: nat) -> Seq<u8>
    decreases n,
{
    if n < 10 {
        seq![(n + ('0' as u8)) as u8]
    } else {
        dec_digits(n / 10).push((n % 10 + ('0' as u8)) as u8)
    }
}

/// The decimal rendering of a signed integer: a minus sign for negative
/// values, then the digits of the magnitude.
pub open spec fn dec_int(i: int) -> Seq<u8> {
    if i < 0 {
        seq![('-' as u8)] + dec_digits((-i) as nat)
    } else {
        dec_digits(i as nat)
    }
}

/// The line terminator of the wire encoding.
pub open spec fn crlf() -> Seq<u8> {
    seq![('\r' as u8), ('\n' as u8)]
}

/// The canonical byte encoding of a value: a one-byte type prefix, a
/// type-specific body, each line terminated by CRLF.  A null value is
/// encoded as the null bulk string `$-1\r\n`.
pub open spec fn spec_serialize(m: ValueModel) -> Seq<u8>
    decreases m,
{
    match m {
        ValueModel::NullString => seq![(('$' as u8)), (('-' as u8)), (('1' as u8))] + crlf(),
        ValueModel::SimpleString(s) => seq![(('+' as u8))] + s + crlf(),
        ValueModel::BulkString(s) => seq![(('$' as u8))] + dec_digits(s.len()) + crlf() + s + crlf(),
        ValueModel::Integer(i) => seq![((':' as u8))] + dec_int(i as int) + crlf(),
        ValueModel::Array(elems) => seq![(('*' as u8))] + dec_digits(elems.len()) + crlf()
            + spec_serialize_elems(elems),
    }
}

/// The concatenation of the encodings of `elems`, in order.
pub open spec fn spec_serialize_elems(elems: Seq<ValueModel>) -> Seq<u8>
    decreases elems,
{
    if elems.len() == 0 {
        Seq::empty()
    } else {
        spec_serialize(elems[0]) + spec_serialize_elems(elems.subrange(1, elems.len() as int))
    }
}

/// Extending an element sequence on the right appends that element's
/// encoding on the right.
pub proof fn lemma_serialize_elems_push(elems: Seq<ValueModel>, m: ValueModel)
    ensures
        spec_serialize_elems(elems.push(m)) == spec_serialize_elems(elems) + spec_serialize(m),
    decreases elems.len(),
{
    if elems.len() == 0 {
        assert(elems.push(m).subrange(1, elems.push(m).len() as int) =~= Seq::empty());
        assert(elems.push(m)[0] == m);
        assert(spec_serialize(m) + Seq::<u8>::empty() =~= spec_serialize(m));
        assert(spec_serialize_elems(Seq::<ValueModel>::empty()) == Seq::<u8>::empty());
        assert(spec_serialize_elems(elems.push(m)) == spec_serialize(elems.push(m)[0])
            + spec_serialize_elems(elems.push(m).subrange(1, elems.push(m).len() as int)));
        assert(spec_serialize_elems(elems.push(m)) =~= spec_serialize(m));
        assert(spec_serialize_elems(elems) + spec_serialize(m) =~= spec_serialize(m));
    } else {
        let rest = elems.subrange(1, elems.len() as int);
        lemma_serialize_elems_push(rest, m);
        assert(elems.push(m).subrange(1, elems.push(m).len() as int) =~= rest.push(m));
        assert(elems.push(m)[0] == elems[0]);
        assert(spec_serialize(elems[0]) + (spec_serialize_elems(rest) + spec_serialize(m)) =~= (
        spec_serialize(elems[0]) + spec_serialize_elems(rest)) + spec_serialize(m));
    }
}

/// Appends the decimal digits of `n` to `out`.
pub fn push_u64_decimal(out: &mut Vec<u8>, n: u64)
    ensures
        final(out)@ == old(out)@ + dec_digits(n as nat),
    decreases n,
{
    if n < 10 {
        out.push((n as u8) + ('0' as u8));
    } else {
        push_u64_decimal(out, n / 10);
        out.push((n % 10) as u8 + ('0' as u8));
    }
}

/// Appends the decimal rendering of `i` (sign, then magnitude) to `out`.
pub fn push_i64_decimal(out: &mut Vec<u8>, i: i64)
    ensures
        final(out)@ == old(out)@ + dec_int(i as int),
{
    if i < 0 {
        out.push(('-' as u8));
        let magnitude: u64 = (-(i as i128)) as u64;
        push_u64_decimal(out, magnitude);
        proof {
            assert(out@ =~= old(out)@ + dec_int(i as int));
        }
    } else {
        push_u64_decimal(out, i as u64);
    }
}

/// Appends the CRLF line terminator to `out`.
fn push_crlf(out: &mut Vec<u8>)
    ensures
        final(out)@ == old(out)@ + crlf(),
{
    out.push(('\r' as u8));
    out.push(('\n' as u8));
    proof {
        assert(out@ =~= old(out)@ + crlf());
    }
}

impl Value {
    /// Appends the canonical encoding of `self` to `out`.
    pub fn serialize_into(&self, out: &mut Vec<u8>)
        ensures
            final(out)@ == old(out)@ + spec_serialize(self@),
        decreases *self,
    {
        match self {
            Value::NullString => {
                out.push(('$' as u8));
                out.push(('-' as u8));
                out.push(('1' as u8));
                push_crlf(out);
                proof {
                    assert(out@ =~= old(out)@ + spec_serialize(self@));
                }
            },
            Value::SimpleString(s) => {
                out.push(('+' as u8));
                push_bytes(out, s.as_slice());
                push_crlf(out);
                proof {
                    assert(out@ =~= old(out)@ + spec_serialize(self@));
                }
            },
            Value::BulkString(s) => {
                out.push(('$' as u8));
                push_u64_decimal(out, s.len() as u64);
                push_crlf(out);
                push_bytes(out, s.as_slice());
                push_crlf(out);
                proof {
                    assert(out@ =~= old(out)@ + spec_serialize(self@));
                }
            },
            Value::Integer(i) => {
                out.push((':' as u8));
                push_i64_decimal(out, *i);
                push_crlf(out);
                proof {
                    assert(out@ =~= old(out)@ + spec_serialize(self@));
                }
            },
            Value::Array(arr) => {
                out.push(('*' as u8));
                push_u64_decimal(out, arr.len() as u64);
                push_crlf(out);
                let ghost header_done = out@;
                let mut i: usize = 0;
                while i < arr.len()
                    invariant
                        *self == Value::Array(*arr),
                        i <= arr.len(),
                        out@ == header_done + spec_serialize_elems(
                            seq_model(arr@).subrange(0, i as int),
                        ),
                    decreases arr.len() - i,
                {
                    proof {
                        broadcast use vstd::seq::axiom_seq_index_decreases;

                        assert(decreases_to!(*self => self->Array_0));
                        assert(decreases_to!(*arr => arr@));
                        assert(decreases_to!(arr@ => arr@[i as int]));
                    }
                    arr[i].serialize_into(out);
                    proof {
                        lemma_seq_model_index(arr@);
                        let models = seq_model(arr@);
                        lemma_serialize_elems_push(models.subrange(0, i as int), models[i as int]);
                        assert(models.subrange(0, i as int).push(models[i as int]) =~= models
                            .subrange(0, i + 1));
                        assert(out@ =~= header_done + spec_serialize_elems(
                            models.subrange(0, i + 1),
                        ));
                    }
                    i = i + 1;
                }
                proof {
                    lemma_seq_model_index(arr@);
                    assert(seq_model(arr@).subrange(0, arr@.len() as int) =~= seq_model(arr@));
                    assert(out@ =~= old(out)@ + spec_serialize(self@));
                }
            },
        }
    }

    /// The canonical encoding of `self` as a fresh byte vector.
    pub fn serialize(&self) -> (r: Vec<u8>)
        ensures
            r@ == spec_serialize(self@),
    {
        let mut out: Vec<u8> = Vec::new();
        self.serialize_into(&mut out);
        out
    }
}

/// Appends all of `bytes` to `out`.
pub fn push_bytes(out: &mut Vec<u8>, bytes: &[u8])
    ensures
        final(out)@ == old(out)@ + bytes@,
{
    let mut i: usize = 0;
    while i < bytes.len()
        invariant
            i <= bytes.len(),
            out@ == old(out)@ + bytes@.subrange(0, i as int),
        decreases bytes.len() - i,
    {
        out.push(bytes[i]);
        proof {
            assert(old(out)@ + bytes@.subrange(0, i as int) + seq![bytes@[i as int]] =~= old(out)@
                + bytes@.subrange(0, i + 1));
        }
        i = i + 1;
    }
    proof {
        assert(old(out)@ + bytes@.subrange(0, bytes@.len() as int) =~= old(out)@ + bytes@);
    }
}


/// The index of the first CR byte in `s`, if any.
pub open spec fn find_cr(s: Seq<u8>) -> Option<int>
    decreases s.len(),
{
    if s.len() == 0 {
        None
    } else if s[0] == '\r' as u8 {
        Some(0int)
    } else {
        match find_cr(s.subrange(1, s.len() as int)) {
            Some(i) => Some(i + 1),
            None => None,
        }
    }
}

/// What `find_cr` returns: the first CR, or nothing when there is none.
pub proof fn lemma_find_cr_props(s: Seq<u8>)
    ensures
        match find_cr(s) {
            Some(i) => 0 <= i < s.len() && s[i] == '\r' as u8 && (forall|j: int|
                0 <= j < i ==> s[j] != '\r' as u8),
            None => forall|j: int| 0 <= j < s.len() ==> s[j] != '\r' as u8,
        },
    decreases s.len(),
{
    if s.len() > 0 && s[0] != '\r' as u8 {
        let rest = s.subrange(1, s.len() as int);
        lemma_find_cr_props(rest);
        match find_cr(rest) {
            Some(i) => {
                assert(s[i + 1] == rest[i]);
                assert(forall|j: int| 1 <= j < i + 1 ==> s[j] == rest[j - 1]);
            },
            None => {
                assert(forall|j: int| 1 <= j < s.len() ==> s[j] == rest[j - 1]);
            },
        }
    }
}

/// The position of the first CR determines `find_cr`.
pub proof fn lemma_find_cr_first(s: Seq<u8>, i: int)
    requires
        0 <= i < s.len(),
        s[i] == '\r' as u8,
        forall|j: int| 0 <= j < i ==> s[j] != '\r' as u8,
    ensures
        find_cr(s) == Some(i),
    decreases s.len(),
{
    if i > 0 {
        lemma_find_cr_first(s.subrange(1, s.len() as int), i - 1);
    }
}

/// When `s` holds no CR at all, `find_cr` finds none.
pub proof fn lemma_find_cr_none(s: Seq<u8>)
    requires
        forall|j: int| 0 <= j < s.len() ==> s[j] != '\r' as u8,
    ensures
        find_cr(s) is None,
    decreases s.len(),
{
    if s.len() > 0 {
        lemma_find_cr_none(s.subrange(1, s.len() as int));
    }
}

/// The first header line of `s`: the bytes before the first CR, which must
/// be followed by LF and must not contain LF, paired with the count of
/// bytes consumed (body plus the CRLF pair).
pub open spec fn spec_read_line(s: Seq<u8>) -> Option<(Seq<u8>, int)> {
    match find_cr(s) {
        Some(i) => if i + 1 < s.len() && s[i + 1] == '\n' as u8 && (forall|j: int|
            0 <= j < i ==> s[j] != '\n' as u8) {
            Some((s.subrange(0, i), i + 2))
        } else {
            None
        },
        None => None,
    }
}

/// A line body never reaches past its source and always costs at least the
/// CRLF pair.
pub proof fn lemma_read_line_bounds(s: Seq<u8>)
    ensures
        match spec_read_line(s) {
            Some((body, n)) => 2 <= n <= s.len() && body == s.subrange(0, n - 2),
            None => true,
        },
{
    lemma_find_cr_props(s);
}

/// Whether `b` is an ASCII decimal digit.
pub open spec fn is_digit(b: u8) -> bool {
    '0' as u8 <= b && b <= '9' as u8
}

/// Whether every byte of `s` is a decimal digit.
pub open spec fn all_digits(s: Seq<u8>) -> bool {
    forall|i: int| 0 <= i < s.len() ==> is_digit(#[trigger] s[i])
}

/// The number denoted by a run of decimal digits, most significant first.
pub open spec fn digits_val(s: Seq<u8>) -> nat
    decreases s.len(),
{
    if s.len() == 0 {
        0
    } else {
        digits_val(s.subrange(0, s.len() - 1)) * 10 + (s[s.len() - 1] - '0' as u8) as nat
    }
}

/// Appending further bytes never lowers the denoted number.
pub proof fn lemma_digits_val_extend(s: Seq<u8>, t: Seq<u8>)
    ensures
        digits_val(s + t) >= digits_val(s),
    decreases t.len(),
{
    if t.len() == 0 {
        assert(s + t =~= s);
    } else {
        let t0 = t.subrange(0, t.len() - 1);
        assert((s + t).subrange(0, (s + t).len() - 1) =~= s + t0);
        lemma_digits_val_extend(s, t0);
    }
}

/// The header-line reading of a count: the null marker `-1`, or a
/// non-empty run of decimal digits.
pub enum CountCode {
    Null,
    Count(nat),
}

/// Reads a bulk-string length or array count from a header-line body.
pub open spec fn spec_count_body(body: Seq<u8>) -> Option<CountCode> {
    if body =~= seq![('-' as u8), ('1' as u8)] {
        Some(CountCode::Null)
    } else if body.len() > 0 && all_digits(body) {
        Some(CountCode::Count(digits_val(body)))
    } else {
        None
    }
}

/// Reads a signed decimal integer from a header-line body; the value must
/// fit in an `i64`.
pub open spec fn spec_int_body(body: Seq<u8>) -> Option<i64> {
    if body.len() > 0 && (body[0] == '-' as u8 || body[0] == '+' as u8) {
        let mag = body.subrange(1, body.len() as int);
        if mag.len() > 0 && all_digits(mag) {
            let v = digits_val(mag) as int;
            if body[0] == '-' as u8 && -v >= i64::MIN {
                Some((-v) as i64)
            } else if body[0] == '+' as u8 && v <= i64::MAX {
                Some(v as i64)
            } else {
                None
            }
        } else {
            None
        }
    } else if body.len() > 0 && all_digits(body) && digits_val(body) <= i64::MAX {
        Some(digits_val(body) as i64)
    } else {
        None
    }
}

/// The parse of one complete value from the front of `s`: the value's
/// model and the bytes consumed, or nothing when `s` does not begin with
/// a complete, well-formed value.
pub open spec fn spec_parse(s: Seq<u8>) -> Option<(ValueModel, int)>
    decreases s.len(), 0nat, 0nat,
{
    if s.len() == 0 {
        None
    } else {
        let rest = s.subrange(1, s.len() as int);
        if s[0] == '+' as u8 {
            match spec_read_line(rest) {
                Some((body, c)) => Some((ValueModel::SimpleString(body), 1 + c)),
                None => None,
            }
        } else if s[0] == ':' as u8 {
            match spec_read_line(rest) {
                Some((body, c)) => match spec_int_body(body) {
                    Some(i) => Some((ValueModel::Integer(i), 1 + c)),
                    None => None,
                },
                None => None,
            }
        } else if s[0] == '$' as u8 {
            match spec_read_line(rest) {
                Some((body, c)) => match spec_count_body(body) {
                    Some(CountCode::Null) => Some((ValueModel::NullString, 1 + c)),
                    Some(CountCode::Count(n)) => {
                        let start = 1 + c;
                        if start + n + 2 <= s.len() && s[start + n] == '\r' as u8 && s[start + n
                            + 1] == '\n' as u8 {
                            Some(
                                (
                                    ValueModel::BulkString(s.subrange(start, start + n)),
                                    start + n + 2,
                                ),
                            )
                        } else {
                            None
                        }
                    },
                    None => None,
                },
                None => None,
            }
        } else if s[0] == '*' as u8 {
            match spec_read_line(rest) {
                Some((body, c)) => match spec_count_body(body) {
                    Some(CountCode::Null) => Some((ValueModel::NullString, 1 + c)),
                    Some(CountCode::Count(n)) => {
                        let start = 1 + c;
                        if 1 <= start <= s.len() {
                            match spec_parse_elems(s.subrange(start, s.len() as int), n) {
                                Some((elems, m)) => Some((ValueModel::Array(elems), start + m)),
                                None => None,
                            }
                        } else {
                            None
                        }
                    },
                    None => None,
                },
                None => None,
            }
        } else {
            None
        }
    }
}

/// The parse of exactly `count` consecutive values from the front of `s`.
pub open spec fn spec_parse_elems(s: Seq<u8>, count: nat) -> Option<(Seq<ValueModel>, int)>
    decreases s.len(), count, 1nat,
{
    if count == 0 {
        Some((Seq::empty(), 0int))
    } else {
        match spec_parse(s) {
            Some((v, n)) => if 1 <= n <= s.len() {
                match spec_parse_elems(s.subrange(n, s.len() as int), (count - 1) as nat) {
                    Some((elems, m)) => Some((seq![v] + elems, n + m)),
                    None => None,
                }
            } else {
                None
            },
            None => None,
        }
    }
}

/// A successful parse consumes at least one byte and never reads past the
/// end of its input.
pub proof fn lemma_parse_consumed_bounds(s: Seq<u8>)
    ensures
        match spec_parse(s) {
            Some((v, n)) => 1 <= n <= s.len(),
            None => true,
        },
    decreases s.len(), 0nat, 0nat,
{
    if s.len() > 0 {
        let rest = s.subrange(1, s.len() as int);
        lemma_read_line_bounds(rest);
        if s[0] == '*' as u8 {
            if let Some((body, c)) = spec_read_line(rest) {
                if let Some(CountCode::Count(n)) = spec_count_body(body) {
                    lemma_parse_elems_consumed_bounds(s.subrange(1 + c, s.len() as int), n);
                }
            }
        }
    }
}

/// Parsing `count` values consumes at least one byte per value and no
/// more than the whole input.
pub proof fn lemma_parse_elems_consumed_bounds(s: Seq<u8>, count: nat)
    ensures
        match spec_parse_elems(s, count) {
            Some((elems, m)) => count <= m <= s.len() && elems.len() == count,
            None => true,
        },
    decreases s.len(), count, 1nat,
{
    if count > 0 {
        lemma_parse_consumed_bounds(s);
        if let Some((v, n)) = spec_parse(s) {
            if 1 <= n <= s.len() {
                lemma_parse_elems_consumed_bounds(s.subrange(n, s.len() as int), (count - 1) as nat);
            }
        }
    }
}


/// The suffix of `s` from `pos` to the end.
pub open spec fn suffix(s: Seq<u8>, pos: int) -> Seq<u8> {
    s.subrange(pos, s.len() as int)
}

/// Scans for the CRLF that ends the header line starting at `pos` and
/// returns the index of its CR, mirroring `spec_read_line` on the suffix.
fn scan_header_line(input: &[u8], pos: usize) -> (r: Option<usize>)
    requires
        pos <= input@.len(),
    ensures
        match r {
            Some(cr) => {
                &&& pos <= cr && cr + 1 < input@.len()
                &&& spec_read_line(suffix(input@, pos as int)) == Some(
                    (input@.subrange(pos as int, cr as int), cr - pos + 2),
                )
            },
            None => spec_read_line(suffix(input@, pos as int)) is None,
        },
{
    let ghost sub = suffix(input@, pos as int);
    let len = input.len();
    let mut j: usize = pos;
    loop
        invariant
            pos <= j <= len,
            len == input@.len(),
            sub == suffix(input@, pos as int),
            forall|k: int|
                pos <= k < j ==> input@[k] != '\r' as u8 && input@[k] != '\n' as u8,
        decreases len - j,
    {
        if j == len {
            proof {
                assert(forall|k: int| 0 <= k < sub.len() ==> sub[k] == input@[pos + k]);
                lemma_find_cr_none(sub);
            }
            return None;
        }
        let b = input[j];
        if b == '\r' as u8 {
            proof {
                assert(forall|k: int| 0 <= k < j - pos ==> sub[k] == input@[pos + k]);
                lemma_find_cr_first(sub, j - pos);
            }
            if j + 1 < len {
                if input[j + 1] == '\n' as u8 {
                    proof {
                        assert(sub[j - pos + 1] == input@[j + 1]);
                        assert(sub.subrange(0, j - pos) =~= input@.subrange(
                            pos as int,
                            j as int,
                        ));
                    }
                    return Some(j);
                } else {
                    proof {
                        assert(sub[j - pos + 1] == input@[j + 1]);
                    }
                    return None;
                }
            } else {
                return None;
            }
        } else if b == '\n' as u8 {
            proof {
                assert(forall|k: int| 0 <= k < j - pos ==> sub[k] == input@[pos + k]);
                lemma_find_cr_props(sub);
                if let Some(i) = find_cr(sub) {
                    assert(sub[j - pos] == '\n' as u8);
                    assert(i > j - pos);
                }
            }
            return None;
        }
        j = j + 1;
    }
}

/// Reads a non-empty run of decimal digits from `input[start..end)` as a
/// `u64`; fails exactly when the bytes are not such a run or the value
/// does not fit.
pub fn parse_digits_u64(input: &[u8], start: usize, end: usize) -> (r: Option<u64>)
    requires
        start <= end <= input@.len(),
    ensures
        ({
            let body = input@.subrange(start as int, end as int);
            match r {
                Some(n) => body.len() > 0 && all_digits(body) && digits_val(body) == n,
                None => !(body.len() > 0 && all_digits(body)) || digits_val(body) > u64::MAX,
            }
        }),
{
    let ghost body = input@.subrange(start as int, end as int);
    if start == end {
        return None;
    }
    let mut acc: u64 = 0;
    let mut j: usize = start;
    while j < end
        invariant
            start <= j <= end <= input@.len(),
            body == input@.subrange(start as int, end as int),
            body.len() > 0,
            all_digits(body.subrange(0, j - start)),
            acc == digits_val(body.subrange(0, j - start)),
        decreases end - j,
    {
        let b = input[j];
        if b < '0' as u8 || b > '9' as u8 {
            proof {
                assert(body[j - start] == input@[j as int]);
            }
            return None;
        }
        let d: u64 = (b - '0' as u8) as u64;
        let ghost pre = body.subrange(0, j - start);
        let ghost pre1 = body.subrange(0, j - start + 1);
        proof {
            assert(pre1.subrange(0, pre1.len() - 1) =~= pre);
            assert(pre1[pre1.len() - 1] == body[j - start]);
            assert(body[j - start] == input@[j as int]);
        }
        if acc > u64::MAX / 10 || d > u64::MAX - (acc * 10) {
            proof {
                assert(digits_val(pre1) > u64::MAX);
                assert(body =~= pre1 + body.subrange(j - start + 1, body.len() as int));
                lemma_digits_val_extend(pre1, body.subrange(j - start + 1, body.len() as int));
            }
            return None;
        }
        acc = acc * 10 + d;
        j = j + 1;
    }
    proof {
        assert(body.subrange(0, body.len() as int) =~= body);
    }
    Some(acc)
}

/// As `parse_digits_u64`, but for lengths and counts held in a `usize`.
fn parse_digits_usize(input: &[u8], start: usize, end: usize) -> (r: Option<usize>)
    requires
        start <= end <= input@.len(),
    ensures
        ({
            let body = input@.subrange(start as int, end as int);
            match r {
                Some(n) => body.len() > 0 && all_digits(body) && digits_val(body) == n,
                None => !(body.len() > 0 && all_digits(body)) || digits_val(body) > usize::MAX,
            }
        }),
{
    match parse_digits_u64(input, start, end) {
        Some(n) => if n <= usize::MAX as u64 {
            Some(n as usize)
        } else {
            None
        },
        None => None,
    }
}

/// Reads a signed decimal integer from `input[start..end)`, exactly as
/// `spec_int_body` reads the same bytes.
fn parse_int_body(input: &[u8], start: usize, end: usize) -> (r: Option<i64>)
    requires
        start <= end <= input@.len(),
    ensures
        r == spec_int_body(input@.subrange(start as int, end as int)),
{
    let ghost body = input@.subrange(start as int, end as int);
    if start == end {
        return None;
    }
    let first = input[start];
    proof {
        assert(body[0] == input@[start as int]);
    }
    if first == '-' as u8 || first == '+' as u8 {
        proof {
            assert(body.subrange(1, body.len() as int) =~= input@.subrange(
                start + 1,
                end as int,
            ));
        }
        match parse_digits_u64(input, start + 1, end) {
            Some(acc) => {
                if first == '-' as u8 {
                    if acc <= 0x8000_0000_0000_0000u64 {
                        Some((-(acc as i128)) as i64)
                    } else {
                        None
                    }
                } else {
                    if acc <= i64::MAX as u64 {
                        Some(acc as i64)
                    } else {
                        None
                    }
                }
            },
            None => None,
        }
    } else {
        match parse_digits_u64(input, start, end) {
            Some(acc) => if acc <= i64::MAX as u64 {
                Some(acc as i64)
            } else {
                None
            },
            None => None,
        }
    }
}

impl Value {
    /// Parses a status line whose prefix byte stands at `pos`.
    fn parse_simple_string(input: &[u8], pos: usize) -> (r: Option<(Value, usize)>)
        requires
            pos < input@.len(),
            input@[pos as int] == '+' as u8,
        ensures
            ({
                let sp = spec_parse(suffix(input@, pos as int));
                match r {
                    Some((v, end)) => pos < end <= input@.len() && sp == Some(
                        (v@, end - pos as int),
                    ),
                    None => sp is None,
                }
            }),
    {
        let ghost sub = suffix(input@, pos as int);
        let len = input.len();
        proof {
            assert(sub[0] == input@[pos as int]);
            assert(sub.subrange(1, sub.len() as int) =~= suffix(input@, pos + 1));
        }
        match scan_header_line(input, pos + 1) {
            Some(cr) => {
                let body = slice_to_vec(slice_subrange(input, pos + 1, cr));
                Some((Value::SimpleString(body), cr + 2))
            },
            None => None,
        }
    }

    /// Parses an integer line whose prefix byte stands at `pos`.
    fn parse_integer(input: &[u8], pos: usize) -> (r: Option<(Value, usize)>)
        requires
            pos < input@.len(),
            input@[pos as int] == ':' as u8,
        ensures
            ({
                let sp = spec_parse(suffix(input@, pos as int));
                match r {
                    Some((v, end)) => pos < end <= input@.len() && sp == Some(
                        (v@, end - pos as int),
                    ),
                    None => sp is None,
                }
            }),
    {
        let ghost sub = suffix(input@, pos as int);
        let len = input.len();
        proof {
            assert(sub[0] == input@[pos as int]);
            assert(sub.subrange(1, sub.len() as int) =~= suffix(input@, pos + 1));
        }
        match scan_header_line(input, pos + 1) {
            Some(cr) => match parse_int_body(input, pos + 1, cr) {
                Some(i) => Some((Value::Integer(i), cr + 2)),
                None => None,
            },
            None => None,
        }
    }

    /// Parses a bulk string whose prefix byte stands at `pos`: the declared
    /// byte count is read, then exactly that many raw payload bytes,
    /// whatever they contain, then the trailing CRLF.
    fn parse_bulk_string(input: &[u8], pos: usize) -> (r: Option<(Value, usize)>)
        requires
            pos < input@.len(),
            input@[pos as int] == '$' as u8,
        ensures
            ({
                let sp = spec_parse(suffix(input@, pos as int));
                match r {
                    Some((v, end)) => pos < end <= input@.len() && sp == Some(
                        (v@, end - pos as int),
                    ),
                    None => sp is None,
                }
            }),
    {
        let ghost sub = suffix(input@, pos as int);
        let len = input.len();
        proof {
            assert(sub[0] == input@[pos as int]);
            assert(sub.subrange(1, sub.len() as int) =~= suffix(input@, pos + 1));
        }
        match scan_header_line(input, pos + 1) {
            Some(cr) => {
                let ghost hbody = input@.subrange(pos + 1, cr as int);
                if cr - (pos + 1) == 2 && input[pos + 1] == '-' as u8 && input[pos + 2]
                    == '1' as u8 {
                    proof {
                        assert(hbody =~= seq![('-' as u8), ('1' as u8)]);
                    }
                    Some((Value::NullString, cr + 2))
                } else {
                    proof {
                        assert(!(hbody =~= seq![('-' as u8), ('1' as u8)])) by {
                            if hbody.len() == 2 {
                                assert(hbody[0] == input@[pos + 1]);
                                assert(hbody[1] == input@[pos + 2]);
                            }
                        }
                    }
                    match parse_digits_usize(input, pos + 1, cr) {
                        Some(n) => {
                            let payload_start = cr + 2;
                            if n > len - payload_start || len - payload_start - n < 2 {
                                proof {
                                    assert(spec_count_body(hbody) == Some(
                                        CountCode::Count(n as nat),
                                    ));
                                    assert(sub.len() == len - pos);
                                }
                                None
                            } else {
                                proof {
                                    assert(sub[payload_start - pos + n] == input@[payload_start
                                        + n]);
                                    assert(sub[payload_start - pos + n + 1] == input@[
                                        payload_start + n + 1]);
                                }
                                if input[payload_start + n] == '\r' as u8 && input[payload_start
                                    + n + 1] == '\n' as u8 {
                                    let payload = slice_to_vec(
                                        slice_subrange(input, payload_start, payload_start + n),
                                    );
                                    proof {
                                        assert(payload@ =~= sub.subrange(
                                            payload_start - pos,
                                            payload_start - pos + n,
                                        ));
                                    }
                                    Some((Value::BulkString(payload), payload_start + n + 2))
                                } else {
                                    None
                                }
                            }
                        },
                        None => {
                            proof {
                                if hbody.len() > 0 && all_digits(hbody) {
                                    assert(digits_val(hbody) > usize::MAX);
                                    assert(sub.len() <= usize::MAX);
                                }
                            }
                            None
                        },
                    }
                }
            },
            None => None,
        }
    }

    /// Parses an array whose prefix byte stands at `pos`: the declared
    /// element count is read, then that many complete values in sequence.
    fn parse_array(input: &[u8], pos: usize) -> (r: Option<(Value, usize)>)
        requires
            pos < input@.len(),
            input@[pos as int] == '*' as u8,
        ensures
            ({
                let sp = spec_parse(suffix(input@, pos as int));
                match r {
                    Some((v, end)) => pos < end <= input@.len() && sp == Some(
                        (v@, end - pos as int),
                    ),
                    None => sp is None,
                }
            }),
        decreases input@.len() - pos, 1nat,
    {
        let ghost sub = suffix(input@, pos as int);
        let len = input.len();
        proof {
            assert(sub[0] == input@[pos as int]);
            assert(sub.subrange(1, sub.len() as int) =~= suffix(input@, pos + 1));
        }
        match scan_header_line(input, pos + 1) {
            Some(cr) => {
                let ghost hbody = input@.subrange(pos + 1, cr as int);
                if cr - (pos + 1) == 2 && input[pos + 1] == '-' as u8 && input[pos + 2]
                    == '1' as u8 {
                    proof {
                        assert(hbody =~= seq![('-' as u8), ('1' as u8)]);
                    }
                    Some((Value::NullString, cr + 2))
                } else {
                    proof {
                        assert(!(hbody =~= seq![('-' as u8), ('1' as u8)])) by {
                            if hbody.len() == 2 {
                                assert(hbody[0] == input@[pos + 1]);
                                assert(hbody[1] == input@[pos + 2]);
                            }
                        }
                    }
                    match parse_digits_usize(input, pos + 1, cr) {
                        Some(count) => Self::parse_array_elems(input, pos, cr, count),
                        None => {
                            proof {
                                if hbody.len() > 0 && all_digits(hbody) {
                                    let n = digits_val(hbody);
                                    assert(n > usize::MAX);
                                    let start = 1 + (cr - pos + 1);
                                    let s2 = sub.subrange(start, sub.len() as int);
                                    lemma_parse_elems_consumed_bounds(s2, n);
                                }
                            }
                            None
                        },
                    }
                }
            },
            None => None,
        }
    }

    /// Parses the `count` array elements that follow an array header whose
    /// CR stands at `cr`.
    fn parse_array_elems(input: &[u8], pos: usize, cr: usize, count: usize) -> (r: Option<
        (Value, usize),
    >)
        requires
            pos < cr && cr + 1 < input@.len(),
            input@[pos as int] == '*' as u8,
            spec_read_line(suffix(input@, pos + 1)) == Some(
                (input@.subrange(pos + 1, cr as int), cr - pos + 1),
            ),
            spec_count_body(input@.subrange(pos + 1, cr as int)) == Some(
                CountCode::Count(count as nat),
            ),
        ensures
            ({
                let sp = spec_parse(suffix(input@, pos as int));
                match r {
                    Some((v, end)) => pos < end <= input@.len() && sp == Some(
                        (v@, end - pos as int),
                    ),
                    None => sp is None,
                }
            }),
        decreases input@.len() - pos, 0nat,
    {
        let ghost sub = suffix(input@, pos as int);
        let len = input.len();
        let header_end = cr + 2;
        proof {
            assert(sub[0] == input@[pos as int]);
            assert(sub.subrange(1, sub.len() as int) =~= suffix(input@, pos + 1));
            assert(sub.subrange(header_end - pos, sub.len() as int) =~= suffix(
                input@,
                header_end as int,
            ));
        }
        let mut elems: Vec<Value> = Vec::new();
        let mut cur: usize = header_end;
        let mut i: usize = 0;
        while i < count
            invariant
                pos < header_end <= cur <= len,
                len == input@.len(),
                i <= count,
                elems@.len() == i as int,
                sub == suffix(input@, pos as int),
                spec_parse(sub) == (match spec_parse_elems(
                    suffix(input@, header_end as int),
                    count as nat,
                ) {
                    Some((e, m)) => Some((ValueModel::Array(e), header_end - pos + m)),
                    None => None,
                }),
                spec_parse_elems(suffix(input@, header_end as int), count as nat) == (
                match spec_parse_elems(suffix(input@, cur as int), (count - i) as nat) {
                    Some((e, m)) => Some((seq_model(elems@) + e, cur - header_end + m)),
                    None => None,
                }),
            decreases count - i,
        {
            match Self::parse_at(input, cur) {
                Some((v, end)) => {
                    proof {
                        let scur = suffix(input@, cur as int);
                        assert(scur.subrange(end - cur, scur.len() as int) =~= suffix(
                            input@,
                            end as int,
                        ));
                    }
                    let ghost old_elems = elems@;
                    elems.push(v);
                    proof {
                        assert(old_elems.push(v).subrange(0, old_elems.len() as int)
                            =~= old_elems);
                        assert(seq_model(elems@) =~= seq_model(old_elems).push(v@));
                        if let Some((e2, m2)) = spec_parse_elems(
                            suffix(input@, end as int),
                            (count - i - 1) as nat,
                        ) {
                            assert(seq_model(old_elems) + (seq![v@] + e2) =~= seq_model(
                                elems@,
                            ) + e2);
                        }
                    }
                    cur = end;
                    i = i + 1;
                },
                None => {
                    return None;
                },
            }
        }
        proof {
            assert(spec_parse_elems(suffix(input@, cur as int), 0nat) == Some(
                (Seq::<ValueModel>::empty(), 0int),
            ));
            assert(seq_model(elems@) + Seq::<ValueModel>::empty() =~= seq_model(elems@));
        }
        Some((Value::Array(elems), cur))
    }

    /// Parses one complete value beginning at `pos`, returning it with the
    /// position just past its encoding; mirrors `spec_parse` on the suffix
    /// of the input that starts at `pos`.
    fn parse_at(input: &[u8], pos: usize) -> (r: Option<(Value, usize)>)
        requires
            pos <= input@.len(),
        ensures
            ({
                let sp = spec_parse(suffix(input@, pos as int));
                match r {
                    Some((v, end)) => pos < end <= input@.len() && sp == Some(
                        (v@, end - pos as int),
                    ),
                    None => sp is None,
                }
            }),
        decreases input@.len() - pos, 2nat,
    {
        let ghost sub = suffix(input@, pos as int);
        if pos == input.len() {
            return None;
        }
        let prefix = input[pos];
        proof {
            assert(sub[0] == input@[pos as int]);
        }
        if prefix == '+' as u8 {
            Self::parse_simple_string(input, pos)
        } else if prefix == ':' as u8 {
            Self::parse_integer(input, pos)
        } else if prefix == '$' as u8 {
            Self::parse_bulk_string(input, pos)
        } else if prefix == '*' as u8 {
            Self::parse_array(input, pos)
        } else {
            None
        }
    }

    /// Parses one complete value from the front of `input`, returning it
    /// with the number of bytes consumed, exactly as `spec_parse` reads
    /// the bytes.
    pub fn parse(input: &[u8]) -> (r: Option<(Value, usize)>)
        ensures
            ({
                match r {
                    Some((v, n)) => 0 < n <= input@.len() && spec_parse(input@) == Some(
                        (v@, n as int),
                    ),
                    None => spec_parse(input@) is None,
                }
            }),
    {
        proof {
            assert(suffix(input@, 0) =~= input@);
        }
        Self::parse_at(input, 0)
    }
}



/// A value that the codec can reproduce: status lines hold no CR or LF
/// (the encoding could not frame them otherwise); every other variant is
/// unrestricted.
pub open spec fn value_wf(m: ValueModel) -> bool
    decreases m,
{
    match m {
        ValueModel::NullString => true,
        ValueModel::SimpleString(s) => forall|i: int|
            0 <= i < s.len() ==> #[trigger] s[i] != '\r' as u8 && s[i] != '\n' as u8,
        ValueModel::BulkString(_) => true,
        ValueModel::Integer(_) => true,
        ValueModel::Array(elems) => elems_wf(elems),
    }
}

/// Every element of `elems` is well formed.
pub open spec fn elems_wf(elems: Seq<ValueModel>) -> bool
    decreases elems,
{
    if elems.len() == 0 {
        true
    } else {
        value_wf(elems[0]) && elems_wf(elems.subrange(1, elems.len() as int))
    }
}

/// The decimal digits of `n` are a non-empty run of digit bytes denoting
/// `n` again.
pub proof fn lemma_dec_digits_props(n: nat)
    ensures
        dec_digits(n).len() >= 1,
        all_digits(dec_digits(n)),
        digits_val(dec_digits(n)) == n,
    decreases n,
{
    if n < 10 {
        let d = dec_digits(n);
        assert(d =~= seq![(n + ('0' as u8)) as u8]);
        assert(d.subrange(0, 0) =~= Seq::<u8>::empty());
        assert(digits_val(Seq::<u8>::empty()) == 0);
        assert(digits_val(d) == digits_val(d.subrange(0, 0)) * 10 + (d[0] - '0' as u8) as nat);
        assert(digits_val(d) == n);
    } else {
        lemma_dec_digits_props(n / 10);
        let prev = dec_digits(n / 10);
        let d = prev.push((n % 10 + ('0' as u8)) as u8);
        assert(d.subrange(0, d.len() - 1) =~= prev);
        assert(digits_val(d) == digits_val(prev) * 10 + n % 10);
        vstd::arithmetic::div_mod::lemma_fundamental_div_mod(n as int, 10);
        assert(digits_val(d) == n);
    }
}

/// Reading the first line of `body + CRLF + rest` yields exactly `body`
/// when `body` holds no CR or LF.
pub proof fn lemma_read_line_concat(body: Seq<u8>, rest: Seq<u8>)
    requires
        forall|i: int| 0 <= i < body.len() ==> #[trigger] body[i] != '\r' as u8 && body[i]
            != '\n' as u8,
    ensures
        spec_read_line(body + crlf() + rest) == Some((body, body.len() as int + 2)),
{
    let s = body + crlf() + rest;
    assert(forall|i: int| 0 <= i < body.len() ==> s[i] == body[i]);
    assert(s[body.len() as int] == '\r' as u8);
    assert(s[body.len() as int + 1] == '\n' as u8);
    lemma_find_cr_first(s, body.len() as int);
    assert(s.subrange(0, body.len() as int) =~= body);
}


/// The digits of `n` read back as the count `n`, never as the null marker.
pub proof fn lemma_count_body_digits(n: nat)
    ensures
        spec_count_body(dec_digits(n)) == Some(CountCode::Count(n)),
{
    lemma_dec_digits_props(n);
    let body = dec_digits(n);
    assert(!(body =~= seq![('-' as u8), ('1' as u8)])) by {
        if body =~= seq![('-' as u8), ('1' as u8)] {
            assert(body[0] == '-' as u8);
            assert(is_digit(body[0]));
        }
    }
}

/// The decimal rendering of `i` reads back as exactly `i`.
pub proof fn lemma_int_body_roundtrip(i: i64)
    ensures
        spec_int_body(dec_int(i as int)) == Some(i),
{
    let body = dec_int(i as int);
    if i < 0 {
        lemma_dec_digits_props((-(i as int)) as nat);
        assert(body[0] == '-' as u8);
        assert(body.subrange(1, body.len() as int) =~= dec_digits((-(i as int)) as nat));
    } else {
        lemma_dec_digits_props(i as nat);
        assert(is_digit(body[0]));
    }
}

/// No byte of the decimal rendering of `i` is a CR or LF.
pub proof fn lemma_dec_int_no_crlf(i: int)
    ensures
        forall|j: int|
            0 <= j < dec_int(i).len() ==> #[trigger] dec_int(i)[j] != '\r' as u8 && dec_int(
                i,
            )[j] != '\n' as u8,
{
    if i < 0 {
        lemma_dec_digits_props((-i) as nat);
    } else {
        lemma_dec_digits_props(i as nat);
    }
}

/// Parsing the encoding of a well-formed value, whatever follows it,
/// yields that value back and consumes exactly its encoding.
#[verifier::rlimit(30)]
pub proof fn lemma_parse_serialize(m: ValueModel, rest: Seq<u8>)
    requires
        value_wf(m),
    ensures
        spec_parse(spec_serialize(m) + rest) == Some((m, spec_serialize(m).len() as int)),
    decreases m,
{
    let ser = spec_serialize(m);
    let s = ser + rest;
    match m {
        ValueModel::NullString => {
            let body = seq![('-' as u8), ('1' as u8)];
            assert(s[0] == '$' as u8);
            assert(s.subrange(1, s.len() as int) =~= body + crlf() + rest);
            lemma_read_line_concat(body, rest);
            assert(spec_count_body(body) == Some(CountCode::Null));
        },
        ValueModel::SimpleString(t) => {
            assert(s[0] == '+' as u8);
            assert(s.subrange(1, s.len() as int) =~= t + crlf() + rest);
            lemma_read_line_concat(t, rest);
        },
        ValueModel::Integer(i) => {
            let body = dec_int(i as int);
            assert(s[0] == ':' as u8);
            assert(s.subrange(1, s.len() as int) =~= body + crlf() + rest);
            lemma_dec_int_no_crlf(i as int);
            lemma_read_line_concat(body, rest);
            lemma_int_body_roundtrip(i);
        },
        ValueModel::BulkString(p) => {
            let body = dec_digits(p.len());
            let after = p + crlf() + rest;
            assert(s[0] == '$' as u8);
            assert(s.subrange(1, s.len() as int) =~= body + crlf() + after);
            lemma_dec_digits_props(p.len());
            lemma_read_line_concat(body, after);
            lemma_count_body_digits(p.len());
            let start = 1 + body.len() as int + 2;
            let n = p.len() as int;
            assert(start + n + 2 <= s.len());
            assert(s[start + n] == '\r' as u8) by {
                assert(s[start + n] == after[p.len() as int]);
            }
            assert(s[start + n + 1] == '\n' as u8) by {
                assert(s[start + n + 1] == after[p.len() as int + 1]);
            }
            assert(s.subrange(start, start + n) =~= p);
            assert(spec_parse(s) == Some((ValueModel::BulkString(p), start + n + 2)));
            assert(ser.len() == start + n + 2);
        },
        ValueModel::Array(elems) => {
            let body = dec_digits(elems.len());
            let after = spec_serialize_elems(elems) + rest;
            assert(s[0] == '*' as u8);
            assert(s.subrange(1, s.len() as int) =~= body + crlf() + after);
            lemma_dec_digits_props(elems.len());
            lemma_read_line_concat(body, after);
            lemma_count_body_digits(elems.len());
            let start = 1 + body.len() as int + 2;
            assert(s.subrange(start, s.len() as int) =~= after);
            lemma_parse_serialize_elems(elems, rest);
            assert(spec_parse(s) == Some(
                (ValueModel::Array(elems), start + spec_serialize_elems(elems).len()),
            ));
            assert(ser.len() == start + spec_serialize_elems(elems).len());
        },
    }
}

/// Parsing the concatenated encodings of well-formed elements, whatever
/// follows them, yields those elements back.
pub proof fn lemma_parse_serialize_elems(elems: Seq<ValueModel>, rest: Seq<u8>)
    requires
        elems_wf(elems),
    ensures
        spec_parse_elems(spec_serialize_elems(elems) + rest, elems.len()) == Some(
            (elems, spec_serialize_elems(elems).len() as int),
        ),
    decreases elems,
{
    let ser = spec_serialize_elems(elems);
    let s = ser + rest;
    if elems.len() == 0 {
        assert(elems =~= Seq::<ValueModel>::empty());
        assert(spec_parse_elems(s, 0nat) == Some((Seq::<ValueModel>::empty(), 0int)));
    } else {
        let e0 = elems[0];
        let tail = elems.subrange(1, elems.len() as int);
        let ser_tail = spec_serialize_elems(tail);
        assert(s =~= spec_serialize(e0) + (ser_tail + rest));
        lemma_parse_serialize(e0, ser_tail + rest);
        lemma_parse_consumed_bounds(s);
        let n0 = spec_serialize(e0).len() as int;
        assert(1 <= n0 <= s.len());
        assert(s.subrange(n0, s.len() as int) =~= ser_tail + rest);
        lemma_parse_serialize_elems(tail, rest);
        assert(seq![e0] + tail =~= elems);
        assert(spec_parse_elems(s, elems.len()) == Some((elems, n0 + ser_tail.len())));
        assert(ser.len() == n0 + ser_tail.len());
    }
}

/// Round trip: parsing the encoding of any well-formed value yields that
/// value back, consuming the whole encoding.
pub proof fn lemma_parse_serialize_roundtrip(m: ValueModel)
    requires
        value_wf(m),
    ensures
        spec_parse(spec_serialize(m)) == Some((m, spec_serialize(m).len() as int)),
{
    lemma_parse_serialize(m, Seq::empty());
    assert(spec_serialize(m) + Seq::<u8>::empty() =~= spec_serialize(m));
}


/// Every value the parser yields satisfies the data model's invariant: in
/// particular a status line it produces never holds a CR or LF, so any
/// parsed value re-serializes into a frame the parser accepts again.
pub proof fn lemma_parse_wf(s: Seq<u8>)
    ensures
        spec_parse(s) matches Some((m, n)) ==> value_wf(m),
    decreases s.len(), 0nat, 0nat,
{
    if s.len() > 0 {
        let rest = s.subrange(1, s.len() as int);
        if s[0] == '+' as u8 {
            if let Some((body, c)) = spec_read_line(rest) {
                lemma_find_cr_props(rest);
            }
        } else if s[0] == '*' as u8 {
            if let Some((body, c)) = spec_read_line(rest) {
                if let Some(CountCode::Count(n)) = spec_count_body(body) {
                    let start = 1 + c;
                    if 1 <= start <= s.len() {
                        lemma_parse_elems_wf(s.subrange(start, s.len() as int), n);
                    }
                }
            }
        }
    }
}

/// Every element sequence the parser yields is well formed.
proof fn lemma_parse_elems_wf(s: Seq<u8>, count: nat)
    ensures
        spec_parse_elems(s, count) matches Some((elems, m)) ==> elems_wf(elems),
    decreases s.len(), count, 1nat,
{
    if count > 0 {
        lemma_parse_wf(s);
        if let Some((v, n)) = spec_parse(s) {
            if 1 <= n <= s.len() {
                let s2 = s.subrange(n, s.len() as int);
                lemma_parse_elems_wf(s2, (count - 1) as nat);
                if let Some((elems2, m2)) = spec_parse_elems(s2, (count - 1) as nat) {
                    let whole = seq![v] + elems2;
                    assert(whole[0] == v);
                    assert(whole.subrange(1, whole.len() as int) =~= elems2);
                }
            }
        }
    }
}


/// A first CR stays the first CR when more bytes arrive.
proof fn lemma_find_cr_extend(s: Seq<u8>, ext: Seq<u8>)
    requires
        find_cr(s) is Some,
    ensures
        find_cr(s + ext) == find_cr(s),
{
    lemma_find_cr_props(s);
    let i = find_cr(s)->Some_0;
    assert((s + ext)[i] == s[i]);
    assert(forall|j: int| 0 <= j < i ==> (s + ext)[j] == s[j]);
    lemma_find_cr_first(s + ext, i);
}

/// A complete header line reads the same when more bytes arrive.
proof fn lemma_read_line_extend(s: Seq<u8>, ext: Seq<u8>)
    requires
        spec_read_line(s) is Some,
    ensures
        spec_read_line(s + ext) == spec_read_line(s),
{
    lemma_find_cr_extend(s, ext);
    lemma_find_cr_props(s);
    let i = find_cr(s)->Some_0;
    assert((s + ext)[i + 1] == s[i + 1]);
    assert(forall|j: int| 0 <= j < i ==> (s + ext)[j] == s[j]);
    assert((s + ext).subrange(0, i) =~= s.subrange(0, i));
}

/// Once the input begins with one complete value, reading more bytes
/// changes nothing: the same value is parsed and the same count of bytes
/// is consumed.  A streaming reader may therefore accumulate bytes and
/// retry without ever disturbing an already-complete frame.
pub proof fn lemma_parse_extend(s: Seq<u8>, ext: Seq<u8>)
    requires
        spec_parse(s) is Some,
    ensures
        spec_parse(s + ext) == spec_parse(s),
    decreases s.len(), 0nat, 0nat,
{
    assert(s.len() > 0);
    let rest = s.subrange(1, s.len() as int);
    let whole = s + ext;
    assert(whole[0] == s[0]);
    assert(whole.subrange(1, whole.len() as int) =~= rest + ext);
    if spec_read_line(rest) is Some {
        lemma_read_line_extend(rest, ext);
        lemma_read_line_bounds(rest);
        let (body, c) = spec_read_line(rest)->Some_0;
        if s[0] == '$' as u8 {
            if let Some(CountCode::Count(n)) = spec_count_body(body) {
                let start = 1 + c;
                if start + n + 2 <= s.len() {
                    assert(whole[start + n] == s[start + n]);
                    assert(whole[start + n + 1] == s[start + n + 1]);
                    assert(whole.subrange(start, start + n as int) =~= s.subrange(
                        start,
                        start + n as int,
                    ));
                }
            }
        } else if s[0] == '*' as u8 {
            if let Some(CountCode::Count(n)) = spec_count_body(body) {
                let start = 1 + c;
                if 1 <= start <= s.len() {
                    assert(whole.subrange(start, whole.len() as int) =~= s.subrange(
                        start,
                        s.len() as int,
                    ) + ext);
                    lemma_parse_elems_extend(s.subrange(start, s.len() as int), ext, n);
                }
            }
        }
    }
}

/// A complete run of values parses the same when more bytes arrive.
proof fn lemma_parse_elems_extend(s: Seq<u8>, ext: Seq<u8>, count: nat)
    requires
        spec_parse_elems(s, count) is Some,
    ensures
        spec_parse_elems(s + ext, count) == spec_parse_elems(s, count),
    decreases s.len(), count, 1nat,
{
    if count > 0 {
        lemma_parse_extend(s, ext);
        let (v, n) = spec_parse(s)->Some_0;
        if 1 <= n <= s.len() {
            let s2 = s.subrange(n, s.len() as int);
            assert((s + ext).subrange(n, (s + ext).len() as int) =~= s2 + ext);
            lemma_parse_elems_extend(s2, ext, (count - 1) as nat);
        }
    }
}

} // verus!
