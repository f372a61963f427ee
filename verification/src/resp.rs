//! The RESP wire format: values, their encoding, and a parser over bytes.
use vstd::prelude::*;
use vstd::utf8::*;
use vstd::slice::slice_to_vec;

use crate::decimal::{
    all_digits, int_decimal, lemma_i64_decimal_roundtrip, lemma_nat_digits, nat_digits, parse_i64,
    parse_i64_spec, push_i64, push_usize,
};

verus! {

pub const CR: u8 = 13u8;

pub const LF: u8 = 10u8;

pub const PLUS: u8 = 43u8;

pub const MINUS: u8 = 45u8;

pub const COLON: u8 = 58u8;

pub const DOLLAR: u8 = 36u8;

pub const STAR: u8 = 42u8;

/// A RESP protocol value as it travels on the wire.
#[derive(Debug, PartialEq)]
pub enum Value {
    SimpleString(String),
    Error(String),
    Integer(i64),
    BulkString(Vec<u8>),
    Null,
    Array(Vec<Value>),
}

/// The mathematical model of a [`Value`].
pub enum RespValue {
    Simple(Seq<char>),
    Error(Seq<char>),
    Integer(i64),
    Bulk(Seq<u8>),
    Null,
    Array(Seq<RespValue>),
}

impl Value {
    pub open spec fn model(&self) -> RespValue
        decreases self,
    {
        match self {
            Value::SimpleString(s) => RespValue::Simple(s@),
            Value::Error(s) => RespValue::Error(s@),
            Value::Integer(n) => RespValue::Integer(*n),
            Value::BulkString(b) => RespValue::Bulk(b@),
            Value::Null => RespValue::Null,
            Value::Array(items) => RespValue::Array(Self::models(items@)),
        }
    }

    pub open spec fn models(items: Seq<Value>) -> Seq<RespValue>
        decreases items,
    {
        if items.len() == 0 {
            Seq::empty()
        } else {
            Self::models(items.drop_last()).push(items.last().model())
        }
    }
}

impl View for Value {
    type V = RespValue;

    open spec fn view(&self) -> RespValue {
        self.model()
    }
}

/// The model of a sequence of values is the sequence of their models.
pub proof fn lemma_models(items: Seq<Value>)
    ensures
        Value::models(items).len() == items.len(),
        forall|i: int|
            0 <= i < items.len() ==> #[trigger] Value::models(items)[i] == items[i].model(),
    decreases items.len(),
{
    if items.len() > 0 {
        lemma_models(items.drop_last());
    }
}

/// Every value is a bulk string.
pub open spec fn all_bulk(vs: Seq<RespValue>) -> bool {
    forall|i: int| 0 <= i < vs.len() ==> #[trigger] vs[i] is Bulk
}

/// The bytes of each bulk string.
pub open spec fn bulk_contents(vs: Seq<RespValue>) -> Seq<Seq<u8>> {
    vs.map_values(|v: RespValue| v->Bulk_0)
}

/// Why a byte buffer does not hold a RESP value.
#[derive(Debug, Clone, Copy, PartialEq, Eq, Structural)]
pub enum RespError {
    /// The buffer ends before the value does; more bytes may complete it.
    Incomplete,
    MissingCrlf,
    UnknownPrefix,
    InvalidUtf8,
    InvalidInteger,
    NegativeBulkLength,
    MissingBulkCrlf,
    NegativeArrayLength,
}

/// The reason for a parse error, in words.
pub open spec fn resp_error_text(e: RespError) -> Seq<char> {
    match e {
        RespError::Incomplete => "unexpected end of input"@,
        RespError::MissingCrlf => "line missing CRLF terminator"@,
        RespError::UnknownPrefix => "unknown RESP type prefix"@,
        RespError::InvalidUtf8 => "invalid utf-8 sequence"@,
        RespError::InvalidInteger => "invalid digit found in string"@,
        RespError::NegativeBulkLength => "negative bulk length"@,
        RespError::MissingBulkCrlf => "missing bulk string CRLF"@,
        RespError::NegativeArrayLength => "negative array length"@,
    }
}

impl RespError {
    /// The reason, in words.
    pub fn message(&self) -> (m: &'static str)
        ensures
            m@ == resp_error_text(*self),
    {
        match self {
            RespError::Incomplete => "unexpected end of input",
            RespError::MissingCrlf => "line missing CRLF terminator",
            RespError::UnknownPrefix => "unknown RESP type prefix",
            RespError::InvalidUtf8 => "invalid utf-8 sequence",
            RespError::InvalidInteger => "invalid digit found in string",
            RespError::NegativeBulkLength => "negative bulk length",
            RespError::MissingBulkCrlf => "missing bulk string CRLF",
            RespError::NegativeArrayLength => "negative array length",
        }
    }
}

pub open spec fn crlf() -> Seq<u8> {
    seq![CR, LF]
}

/// The bytes that [`serialize`] writes for a value.
pub open spec fn serialize_spec(v: RespValue) -> Seq<u8>
    decreases v,
{
    match v {
        RespValue::Simple(s) => seq![PLUS] + encode_utf8(s) + crlf(),
        RespValue::Error(s) => seq![MINUS] + encode_utf8(s) + crlf(),
        RespValue::Integer(n) => seq![COLON] + int_decimal(n as int) + crlf(),
        RespValue::Bulk(b) => seq![DOLLAR] + int_decimal(b.len() as int) + crlf() + b + crlf(),
        RespValue::Null => seq![DOLLAR, MINUS, 49u8, CR, LF],
        RespValue::Array(items) => seq![STAR] + int_decimal(items.len() as int) + crlf()
            + serialize_items_spec(items),
    }
}

/// The encodings of `items`, one after another.
pub open spec fn serialize_items_spec(items: Seq<RespValue>) -> Seq<u8>
    decreases items,
{
    if items.len() == 0 {
        Seq::empty()
    } else {
        serialize_items_spec(items.drop_last()) + serialize_spec(items.last())
    }
}

/// The index of the first line feed at or after `i`.
pub open spec fn find_newline(s: Seq<u8>, i: int) -> Option<int>
    decreases s.len() - i,
{
    if i >= s.len() {
        None
    } else if s[i] == LF {
        Some(i)
    } else {
        find_newline(s, i + 1)
    }
}

pub proof fn lemma_find_newline(s: Seq<u8>, i: int)
    requires
        0 <= i,
    ensures
        match find_newline(s, i) {
            Some(j) => i <= j < s.len() && s[j] == LF && forall|k: int|
                i <= k < j ==> s[k] != LF,
            None => forall|k: int| i <= k < s.len() ==> s[k] != LF,
        },
    decreases s.len() - i,
{
    if i < s.len() && s[i] != LF {
        lemma_find_newline(s, i + 1);
    }
}

pub proof fn lemma_find_newline_at(s: Seq<u8>, i: int, j: int)
    requires
        0 <= i <= j < s.len(),
        s[j] == LF,
        forall|k: int| i <= k < j ==> s[k] != LF,
    ensures
        find_newline(s, i) == Some(j),
    decreases j - i,
{
    if i < j {
        lemma_find_newline_at(s, i + 1, j);
    }
}

/// What [`parse`] makes of the bytes at the front of `s`: the value and how many
/// bytes it takes, or why there is none.
pub open spec fn parse_spec(s: Seq<u8>) -> Result<(RespValue, nat), RespError>
    decreases s.len(), 0nat,
{
    match find_newline(s, 0) {
        None => Err(RespError::Incomplete),
        Some(j) => {
            if j < 1 || s[j - 1] != CR {
                Err(RespError::MissingCrlf)
            } else if j < 2 {
                Err(RespError::UnknownPrefix)
            } else {
                let tag = s[0];
                let body = s.subrange(1, j - 1);
                let next = j + 1;
                if tag == PLUS {
                    if valid_utf8(body) {
                        Ok((RespValue::Simple(decode_utf8(body)), next as nat))
                    } else {
                        Err(RespError::InvalidUtf8)
                    }
                } else if tag == MINUS {
                    if valid_utf8(body) {
                        Ok((RespValue::Error(decode_utf8(body)), next as nat))
                    } else {
                        Err(RespError::InvalidUtf8)
                    }
                } else if tag == COLON {
                    match parse_i64_spec(body) {
                        Some(n) => Ok((RespValue::Integer(n), next as nat)),
                        None => Err(RespError::InvalidInteger),
                    }
                } else if tag == DOLLAR {
                    match parse_i64_spec(body) {
                        None => Err(RespError::InvalidInteger),
                        Some(n) => if n == -1 {
                            Ok((RespValue::Null, next as nat))
                        } else if n < 0 {
                            Err(RespError::NegativeBulkLength)
                        } else if s.len() < next + n + 2 {
                            Err(RespError::Incomplete)
                        } else if s[next + n] != CR || s[next + n + 1] != LF {
                            Err(RespError::MissingBulkCrlf)
                        } else {
                            Ok(
                                (
                                    RespValue::Bulk(s.subrange(next, next + n)),
                                    (next + n + 2) as nat,
                                ),
                            )
                        },
                    }
                } else if tag == STAR {
                    match parse_i64_spec(body) {
                        None => Err(RespError::InvalidInteger),
                        Some(n) => if n == -1 {
                            Ok((RespValue::Null, next as nat))
                        } else if n < 0 {
                            Err(RespError::NegativeArrayLength)
                        } else {
                            proof {
                                lemma_find_newline(s, 0);
                            }
                            match parse_items_spec(s.skip(next), n as nat) {
                                Ok((items, used)) => Ok(
                                    (RespValue::Array(items), (next + used) as nat),
                                ),
                                Err(e) => Err(e),
                            }
                        },
                    }
                } else {
                    Err(RespError::UnknownPrefix)
                }
            }
        },
    }
}

/// `count` values parsed one after another from the front of `s`.
pub open spec fn parse_items_spec(s: Seq<u8>, count: nat) -> Result<
    (Seq<RespValue>, nat),
    RespError,
>
    decreases s.len(), 1nat,
{
    if count == 0 {
        Ok((Seq::empty(), 0))
    } else {
        match parse_spec(s) {
            Err(e) => Err(e),
            Ok((v, n)) => if 0 < n <= s.len() {
                prepend_items(seq![v], n, parse_items_spec(s.skip(n as int), (count - 1) as nat))
            } else {
                Err(RespError::Incomplete)
            },
        }
    }
}

pub open spec fn prepend_items(
    vs: Seq<RespValue>,
    used: nat,
    r: Result<(Seq<RespValue>, nat), RespError>,
) -> Result<(Seq<RespValue>, nat), RespError> {
    match r {
        Ok((ws, m)) => Ok((vs + ws, used + m)),
        Err(e) => Err(e),
    }
}

/// A successful parse takes at least one byte and no more than there are.
pub proof fn lemma_parse_consumes(s: Seq<u8>)
    ensures
        parse_spec(s) matches Ok((_, n)) ==> 0 < n <= s.len(),
    decreases s.len(), 0nat,
{
    lemma_find_newline(s, 0);
    if let Some(j) = find_newline(s, 0) {
        if j >= 2 && s[j - 1] == CR && s[0] == STAR {
            if let Some(n) = parse_i64_spec(s.subrange(1, j - 1)) {
                if n >= 0 {
                    lemma_parse_items_consumes(s.skip(j + 1), n as nat);
                }
            }
        }
    }
}

pub proof fn lemma_parse_items_consumes(s: Seq<u8>, count: nat)
    ensures
        parse_items_spec(s, count) matches Ok((items, n)) ==> n <= s.len() && items.len()
            == count,
    decreases s.len(), 1nat, count,
{
    if count > 0 {
        if let Ok((v, n)) = parse_spec(s) {
            if 0 < n <= s.len() {
                lemma_parse_items_consumes(s.skip(n as int), (count - 1) as nat);
            }
        }
    }
}

/// `String::from_utf8`: succeeds exactly on valid UTF-8, and the string then holds
/// the characters that the bytes encode.
#[verifier::external_body]
fn string_from_utf8(bytes: Vec<u8>) -> (res: Option<String>)
    ensures
        res is Some <==> valid_utf8(bytes@),
        res matches Some(s) ==> s@ == decode_utf8(bytes@),
{
    String::from_utf8(bytes).ok()
}

fn find_lf(buf: &[u8], pos: usize) -> (res: Option<usize>)
    requires
        pos <= buf@.len(),
    ensures
        match res {
            Some(j) => pos <= j < buf@.len() && find_newline(buf@.skip(pos as int), 0) == Some(
                j - pos,
            ),
            None => find_newline(buf@.skip(pos as int), 0) is None,
        },
{
    let ghost s = buf@.skip(pos as int);
    let mut i = pos;
    while i < buf.len()
        invariant
            pos <= i <= buf@.len(),
            s == buf@.skip(pos as int),
            find_newline(s, 0) == find_newline(s, i - pos),
        decreases buf@.len() - i,
    {
        if buf[i] == LF {
            assert(s[i - pos] == LF);
            return Some(i);
        }
        assert(s[i - pos] != LF);
        i = i + 1;
    }
    None
}

/// The line without its CRLF terminator.
pub fn strip_crlf(line: &[u8]) -> (r: Result<&[u8], RespError>)
    ensures
        match r {
            Ok(content) => line@.len() >= 2 && line@.last() == LF && line@[line@.len() - 2] == CR
                && content@ == line@.subrange(0, line@.len() - 2),
            Err(e) => e == RespError::MissingCrlf && !(line@.len() >= 2 && line@.last() == LF
                && line@[line@.len() - 2] == CR),
        },
{
    let n = line.len();
    if n >= 2 && line[n - 1] == LF && line[n - 2] == CR {
        Ok(&line[0..n - 2])
    } else {
        Err(RespError::MissingCrlf)
    }
}

/// Reads a decimal `i64` the way a RESP header or integer writes it.
pub fn parse_integer(bytes: &[u8]) -> (r: Option<i64>)
    ensures
        r == parse_i64_spec(bytes@),
{
    parse_i64(bytes)
}

/// Parses the value that starts at `pos`; on success also returns how many bytes it
/// takes.
fn parse_at(buf: &[u8], pos: usize) -> (res: Result<(Value, usize), RespError>)
    requires
        pos <= buf@.len(),
    ensures
        parsed(res) == parse_spec(buf@.skip(pos as int)),
    decreases buf@.len() - pos,
{
    let ghost s = buf@.skip(pos as int);
    let j = match find_lf(buf, pos) {
        None => return Err(RespError::Incomplete),
        Some(j) => j,
    };
    proof {
        lemma_find_newline(s, 0);
        assert(buf@.len() == buf.len());
    }
    let raw = &buf[pos..j + 1];
    assert(raw@ =~= s.subrange(0, j - pos + 1));
    let line = strip_crlf(raw)?;
    if line.len() == 0 {
        return Err(RespError::UnknownPrefix);
    }
    let tag = line[0];
    let body = &line[1..line.len()];
    assert(body@ =~= s.subrange(1, j - pos - 1));
    let next = j + 1;
    if tag == PLUS || tag == MINUS {
        match string_from_utf8(slice_to_vec(body)) {
            None => Err(RespError::InvalidUtf8),
            Some(text) => {
                let v = if tag == PLUS {
                    Value::SimpleString(text)
                } else {
                    Value::Error(text)
                };
                Ok((v, next - pos))
            },
        }
    } else if tag == COLON {
        match parse_integer(body) {
            Some(n) => Ok((Value::Integer(n), next - pos)),
            None => Err(RespError::InvalidInteger),
        }
    } else if tag == DOLLAR {
        match parse_integer(body) {
            None => Err(RespError::InvalidInteger),
            Some(n) => {
                if n == -1 {
                    Ok((Value::Null, next - pos))
                } else if n < 0 {
                    Err(RespError::NegativeBulkLength)
                } else if ((buf.len() - next) as u64) < (n as u64) + 2 {
                    Err(RespError::Incomplete)
                } else {
                    let end = next + n as usize;
                    if buf[end] != CR || buf[end + 1] != LF {
                        Err(RespError::MissingBulkCrlf)
                    } else {
                        let data = slice_to_vec(&buf[next..end]);
                        assert(data@ =~= s.subrange(next - pos, end - pos));
                        Ok((Value::BulkString(data), end + 2 - pos))
                    }
                }
            },
        }
    } else if tag == STAR {
        match parse_integer(body) {
            None => Err(RespError::InvalidInteger),
            Some(n) => {
                if n == -1 {
                    Ok((Value::Null, next - pos))
                } else if n < 0 {
                    Err(RespError::NegativeArrayLength)
                } else {
                    let count = n as u64;
                    let ghost t0 = buf@.skip(next as int);
                    assert(t0 =~= s.skip(next - pos));
                    let blen = buf.len();
                    assert(parse_spec(s) == match parse_items_spec(t0, count as nat) {
                        Ok((vs, used)) => Ok((RespValue::Array(vs), (next - pos + used) as nat)),
                        Err(e) => Err(e),
                    });
                    let mut items: Vec<Value> = Vec::new();
                    let mut p = next;
                    let mut k: u64 = 0;
                    while k < count
                        invariant
                            pos < next <= p <= buf@.len(),
                            blen == buf@.len(),
                            s == buf@.skip(pos as int),
                            parse_spec(s) == match parse_items_spec(t0, count as nat) {
                                Ok((vs, used)) => Ok(
                                    (RespValue::Array(vs), (next - pos + used) as nat),
                                ),
                                Err(e) => Err(e),
                            },
                            k <= count,
                            t0 == buf@.skip(next as int),
                            parse_items_spec(t0, count as nat) == prepend_items(
                                Value::models(items@),
                                (p - next) as nat,
                                parse_items_spec(buf@.skip(p as int), (count - k) as nat),
                            ),
                        decreases buf@.len() - p,
                    {
                        let ghost tp = buf@.skip(p as int);
                        match parse_at(buf, p) {
                            Err(e) => {
                                assert(parse_items_spec(tp, (count - k) as nat) == Err::<
                                    (Seq<RespValue>, nat),
                                    RespError,
                                >(e));
                                return Err(e);
                            },
                            Ok((v, used)) => {
                                proof {
                                    lemma_parse_consumes(tp);
                                    assert(tp.skip(used as int) =~= buf@.skip(p + used));
                                    let rest = parse_items_spec(
                                        buf@.skip(p + used),
                                        (count - k - 1) as nat,
                                    );
                                    assert(Value::models(items@.push(v)) =~= Value::models(
                                        items@,
                                    ) + seq![v@]) by {
                                        assert(items@.push(v).drop_last() =~= items@);
                                    }
                                    match rest {
                                        Ok((ws, m)) => {
                                            assert(Value::models(items@) + (seq![v@] + ws)
                                                =~= (Value::models(items@) + seq![v@]) + ws);
                                        },
                                        Err(_) => {},
                                    }
                                }
                                items.push(v);
                                p = p + used;
                                k = k + 1;
                            },
                        }
                    }
                    proof {
                        lemma_models(items@);
                        assert(Value::models(items@) + Seq::<RespValue>::empty() =~= Value::models(
                            items@,
                        ));
                    }
                    Ok((Value::Array(items), p - pos))
                }
            },
        }
    } else {
        Err(RespError::UnknownPrefix)
    }
}

pub open spec fn parsed(res: Result<(Value, usize), RespError>) -> Result<(RespValue, nat), RespError> {
    match res {
        Ok((v, n)) => Ok((v@, n as nat)),
        Err(e) => Err(e),
    }
}

/// Parses the RESP value at the front of `buf` and returns it with the number of
/// bytes it takes; `Incomplete` when `buf` ends before the value does.
pub fn parse(buf: &[u8]) -> (res: Result<(Value, usize), RespError>)
    ensures
        parsed(res) == parse_spec(buf@),
{
    assert(buf@.skip(0) =~= buf@);
    parse_at(buf, 0)
}

/// Appends `bytes` to `out`.
pub fn append_bytes(out: &mut Vec<u8>, bytes: &[u8])
    ensures
        final(out)@ == old(out)@ + bytes@,
{
    let mut i: usize = 0;
    while i < bytes.len()
        invariant
            i <= bytes@.len(),
            out@ == old(out)@ + bytes@.take(i as int),
        decreases bytes@.len() - i,
    {
        out.push(bytes[i]);
        i = i + 1;
        assert(out@ =~= old(out)@ + bytes@.take(i as int));
    }
    assert(bytes@.take(i as int) =~= bytes@);
}

fn push_crlf(out: &mut Vec<u8>)
    ensures
        final(out)@ == old(out)@ + crlf(),
{
    out.push(CR);
    out.push(LF);
    assert(out@ =~= old(out)@ + crlf());
}

#[verifier::loop_isolation(false)]
fn serialize_into(value: &Value, out: &mut Vec<u8>)
    ensures
        final(out)@ == old(out)@ + serialize_spec(value@),
    decreases value,
{
    let ghost start = out@;
    match value {
        Value::SimpleString(text) => {
            out.push(PLUS);
            append_bytes(out, text.as_str().as_bytes());
            push_crlf(out);
            assert(out@ =~= start + serialize_spec(value@));
        },
        Value::Error(text) => {
            out.push(MINUS);
            append_bytes(out, text.as_str().as_bytes());
            push_crlf(out);
            assert(out@ =~= start + serialize_spec(value@));
        },
        Value::Integer(n) => {
            out.push(COLON);
            push_i64(out, *n);
            push_crlf(out);
            assert(out@ =~= start + serialize_spec(value@));
        },
        Value::BulkString(bytes) => {
            out.push(DOLLAR);
            push_usize(out, bytes.len());
            push_crlf(out);
            append_bytes(out, bytes.as_slice());
            push_crlf(out);
            assert(out@ =~= start + serialize_spec(value@));
        },
        Value::Null => {
            out.push(DOLLAR);
            out.push(MINUS);
            out.push(49u8);
            push_crlf(out);
            assert(out@ =~= start + serialize_spec(value@));
        },
        Value::Array(items) => {
            out.push(STAR);
            push_usize(out, items.len());
            push_crlf(out);
            let ghost head = out@;
            let mut i: usize = 0;
            while i < items.len()
                invariant
                    i <= items@.len(),
                    out@ == head + serialize_items_spec(Value::models(items@.take(i as int))),
                decreases items@.len() - i,
            {
                proof {
                    assert(items@.take(i + 1).drop_last() =~= items@.take(i as int));
                }
                serialize_into(&items[i], out);
                i = i + 1;
                proof {
                    let m = Value::models(items@.take(i as int));
                    assert(m.drop_last() == Value::models(items@.take(i - 1)));
                    assert(out@ =~= head + serialize_items_spec(m));
                }
            }
            proof {
                assert(items@.take(i as int) =~= items@);
                lemma_models(items@);
            }
            assert(out@ =~= start + serialize_spec(value@));
        },
    }
}

/// Encodes a value in RESP.
pub fn serialize(value: &Value) -> (out: Vec<u8>)
    ensures
        out@ == serialize_spec(value@),
{
    let mut out: Vec<u8> = Vec::new();
    serialize_into(value, &mut out);
    assert(out@ =~= serialize_spec(value@));
    out
}

/// No line feed among the characters.
pub open spec fn no_newline(s: Seq<char>) -> bool {
    forall|i: int| 0 <= i < s.len() ==> s[i] as u32 != 10
}

/// The values that the encoding carries through a parse unchanged: simple strings and
/// errors hold no line feed (a parser reads them up to the first one), and lengths fit
/// the `i64` that a parser reads them as.
pub open spec fn wire_safe(v: RespValue) -> bool
    decreases v,
{
    match v {
        RespValue::Simple(s) => no_newline(s),
        RespValue::Error(s) => no_newline(s),
        RespValue::Integer(_) => true,
        RespValue::Bulk(b) => b.len() <= i64::MAX,
        RespValue::Null => true,
        RespValue::Array(items) => items.len() <= i64::MAX && wire_safe_items(items),
    }
}

pub open spec fn wire_safe_items(items: Seq<RespValue>) -> bool
    decreases items,
{
    items.len() == 0 || (wire_safe(items[0]) && wire_safe_items(items.drop_first()))
}

proof fn lemma_scalar_no_lf(c: u32)
    requires
        is_scalar(c),
        c != 10,
    ensures
        forall|i: int| 0 <= i < encode_scalar(c).len() ==> encode_scalar(c)[i] != LF,
{
    if has_width_1_encoding(c) {
        assert((c & 0x7F) as u8 != 10u8) by (bit_vector)
            requires
                c <= 0x7F,
                c != 10,
        ;
    } else {
        assert((0x80u8 | (c & 0x3F) as u8) != 10u8) by (bit_vector);
        assert((0x80u8 | ((c >> 6) & 0x3F) as u8) != 10u8) by (bit_vector);
        assert((0x80u8 | ((c >> 12) & 0x3F) as u8) != 10u8) by (bit_vector);
        assert((0xC0u8 | ((c >> 6) & 0x1F) as u8) != 10u8) by (bit_vector);
        assert((0xE0u8 | ((c >> 12) & 0x0F) as u8) != 10u8) by (bit_vector);
        assert((0xF0u8 | ((c >> 18) & 0x7) as u8) != 10u8) by (bit_vector);
    }
}

/// Text without a line feed encodes to bytes without one.
proof fn lemma_encode_no_lf(s: Seq<char>)
    requires
        no_newline(s),
    ensures
        forall|i: int| 0 <= i < encode_utf8(s).len() ==> encode_utf8(s)[i] != LF,
    decreases s.len(),
{
    if s.len() > 0 {
        let c = s[0];
        vstd::utf8::char_is_scalar(c);
        lemma_scalar_no_lf(c as u32);
        assert(no_newline(s.drop_first()));
        lemma_encode_no_lf(s.drop_first());
        let e = encode_utf8(s);
        let a = encode_scalar(c as u32);
        assert(e == a + encode_utf8(s.drop_first()));
        assert forall|i: int| 0 <= i < e.len() implies e[i] != LF by {
            if i < a.len() {
                assert(e[i] == a[i]);
            } else {
                assert(e[i] == encode_utf8(s.drop_first())[i - a.len()]);
            }
        }
    }
}

proof fn lemma_decimal_no_lf(n: int)
    ensures
        forall|i: int| 0 <= i < int_decimal(n).len() ==> int_decimal(n)[i] != LF && int_decimal(n)[i] != CR,
{
    if n < 0 {
        lemma_nat_digits((-n) as nat);
        let d = nat_digits((-n) as nat);
        assert forall|i: int| 0 <= i < int_decimal(n).len() implies int_decimal(n)[i] != LF
            && int_decimal(n)[i] != CR by {
            if i > 0 {
                assert(int_decimal(n)[i] == d[i - 1]);
            }
        }
    } else {
        lemma_nat_digits(n as nat);
    }
}

/// A line `[tag] + body + CRLF`, followed by anything, is read back as that tag and body.
proof fn lemma_line(tag: u8, body: Seq<u8>, rest: Seq<u8>)
    requires
        forall|i: int| 0 <= i < body.len() ==> body[i] != LF,
        tag != LF,
    ensures
        ({
            let s = seq![tag] + body + crlf() + rest;
            let j = body.len() + 2int;
            &&& find_newline(s, 0) == Some(j)
            &&& s[j - 1] == CR
            &&& s[0] == tag
            &&& s.subrange(1, j - 1) == body
            &&& s.skip(j + 1) == rest
        }),
{
    let s = seq![tag] + body + crlf() + rest;
    let j = body.len() + 2int;
    assert forall|k: int| 0 <= k < j implies s[k] != LF by {
        if 1 <= k < j - 1 {
            assert(s[k] == body[k - 1]);
        }
    }
    lemma_find_newline_at(s, 0, j);
    assert(s.subrange(1, j - 1) =~= body);
    assert(s.skip(j + 1) =~= rest);
}

/// The encoding of a non-empty sequence is its first element's, then the rest's.
pub proof fn lemma_serialize_items_front(items: Seq<RespValue>)
    requires
        items.len() > 0,
    ensures
        serialize_items_spec(items) == serialize_spec(items[0]) + serialize_items_spec(
            items.drop_first(),
        ),
    decreases items.len(),
{
    if items.len() == 1 {
        assert(items.drop_last() =~= Seq::<RespValue>::empty());
        assert(items.drop_first() =~= Seq::<RespValue>::empty());
        assert(serialize_items_spec(items.drop_last()) =~= Seq::<u8>::empty());
        assert(serialize_items_spec(items.drop_first()) =~= Seq::<u8>::empty());
        assert(serialize_items_spec(items) =~= serialize_spec(items[0]));
    } else {
        lemma_serialize_items_front(items.drop_last());
        assert(items.drop_last().drop_first() =~= items.drop_first().drop_last());
        assert(items.drop_first().last() == items.last());
        assert(items.drop_last()[0] == items[0]);
        assert(serialize_items_spec(items) =~= serialize_spec(items[0]) + serialize_items_spec(
            items.drop_first(),
        ));
    }
}

/// Every value encodes to at least three bytes.
proof fn lemma_serialize_nonempty(v: RespValue)
    ensures
        serialize_spec(v).len() >= 3,
{
}

proof fn lemma_roundtrip_text(v: RespValue, rest: Seq<u8>)
    requires
        wire_safe(v),
        v is Simple || v is Error,
    ensures
        parse_spec(serialize_spec(v) + rest) == Ok::<(RespValue, nat), RespError>(
            (v, serialize_spec(v).len()),
        ),
{
    let (tag, text) = match v {
        RespValue::Simple(t) => (PLUS, t),
        RespValue::Error(t) => (MINUS, t),
        _ => (PLUS, Seq::empty()),
    };
    lemma_encode_no_lf(text);
    let body = encode_utf8(text);
    lemma_line(tag, body, rest);
    assert(serialize_spec(v) + rest =~= seq![tag] + body + crlf() + rest);
    vstd::utf8::encode_utf8_valid_utf8(text);
    vstd::utf8::encode_utf8_decode_utf8(text);
}

proof fn lemma_roundtrip_integer(n: i64, rest: Seq<u8>)
    ensures
        parse_spec(serialize_spec(RespValue::Integer(n)) + rest) == Ok::<(RespValue, nat), RespError>(
            (RespValue::Integer(n), serialize_spec(RespValue::Integer(n)).len()),
        ),
{
    lemma_decimal_no_lf(n as int);
    lemma_i64_decimal_roundtrip(n);
    lemma_line(COLON, int_decimal(n as int), rest);
    assert(serialize_spec(RespValue::Integer(n)) + rest =~= seq![COLON] + int_decimal(n as int)
        + crlf() + rest);
}

#[verifier::spinoff_prover]
#[verifier::rlimit(30)]
proof fn lemma_roundtrip_bulk(b: Seq<u8>, rest: Seq<u8>)
    requires
        b.len() <= i64::MAX,
    ensures
        parse_spec(serialize_spec(RespValue::Bulk(b)) + rest) == Ok::<(RespValue, nat), RespError>(
            (RespValue::Bulk(b), serialize_spec(RespValue::Bulk(b)).len()),
        ),
{
    let d = int_decimal(b.len() as int);
    lemma_decimal_no_lf(b.len() as int);
    lemma_i64_decimal_roundtrip(b.len() as i64);
    let tail = b + crlf() + rest;
    lemma_line(DOLLAR, d, tail);
    let s = serialize_spec(RespValue::Bulk(b)) + rest;
    assert(s =~= seq![DOLLAR] + d + crlf() + tail);
    let next = d.len() + 3int;
    assert(s.subrange(next, next + b.len()) =~= b);
    assert(s[next + b.len()] == CR);
    assert(s[next + b.len() + 1] == LF);
}

proof fn lemma_roundtrip_null(rest: Seq<u8>)
    ensures
        parse_spec(serialize_spec(RespValue::Null) + rest) == Ok::<(RespValue, nat), RespError>(
            (RespValue::Null, serialize_spec(RespValue::Null).len()),
        ),
{
    let s = serialize_spec(RespValue::Null) + rest;
    lemma_find_newline_at(s, 0, 4);
    assert(s.subrange(1, 3) =~= seq![MINUS, 49u8]);
    assert(seq![MINUS, 49u8].skip(1) =~= seq![49u8]);
    assert(seq![49u8].drop_last() =~= Seq::<u8>::empty());
    let one = seq![49u8];
    assert(crate::decimal::digits_value(one.drop_last()) == 0);
    assert(one.last() == 49u8);
    assert(crate::decimal::digits_value(one) == 1);
    assert(all_digits(one));
    assert(parse_i64_spec(seq![MINUS, 49u8]) == Some(-1i64));
}

proof fn lemma_roundtrip_array(items: Seq<RespValue>, rest: Seq<u8>)
    requires
        wire_safe(RespValue::Array(items)),
    ensures
        parse_spec(serialize_spec(RespValue::Array(items)) + rest) == Ok::<
            (RespValue, nat),
            RespError,
        >((RespValue::Array(items), serialize_spec(RespValue::Array(items)).len())),
    decreases RespValue::Array(items), 0nat,
{
    let d = int_decimal(items.len() as int);
    lemma_decimal_no_lf(items.len() as int);
    lemma_i64_decimal_roundtrip(items.len() as i64);
    let tail = serialize_items_spec(items) + rest;
    lemma_line(STAR, d, tail);
    let s = serialize_spec(RespValue::Array(items)) + rest;
    assert(s =~= seq![STAR] + d + crlf() + tail);
    lemma_serialize_parse_roundtrip_items(items, rest);
}

/// Parsing what [`serialize`] wrote gives back the value and consumes exactly its
/// encoding, whatever follows it.
pub proof fn lemma_serialize_parse_roundtrip(v: RespValue, rest: Seq<u8>)
    requires
        wire_safe(v),
    ensures
        parse_spec(serialize_spec(v) + rest) == Ok::<(RespValue, nat), RespError>(
            (v, serialize_spec(v).len()),
        ),
    decreases v, 1nat,
{
    match v {
        RespValue::Simple(_) => lemma_roundtrip_text(v, rest),
        RespValue::Error(_) => lemma_roundtrip_text(v, rest),
        RespValue::Integer(n) => lemma_roundtrip_integer(n, rest),
        RespValue::Bulk(b) => lemma_roundtrip_bulk(b, rest),
        RespValue::Null => lemma_roundtrip_null(rest),
        RespValue::Array(items) => lemma_roundtrip_array(items, rest),
    }
}

/// Parsing the encodings of a sequence of values gives back the sequence.
pub proof fn lemma_serialize_parse_roundtrip_items(items: Seq<RespValue>, rest: Seq<u8>)
    requires
        wire_safe_items(items),
    ensures
        parse_items_spec(serialize_items_spec(items) + rest, items.len()) == Ok::<
            (Seq<RespValue>, nat),
            RespError,
        >((items, serialize_items_spec(items).len())),
    decreases items, 2nat,
{
    if items.len() == 0 {
        assert(serialize_items_spec(items) + rest =~= rest);
        assert(items =~= Seq::<RespValue>::empty());
    } else {
        let first = items[0];
        let tail = items.drop_first();
        lemma_serialize_items_front(items);
        let s = serialize_items_spec(items) + rest;
        let after = serialize_items_spec(tail) + rest;
        assert(s =~= serialize_spec(first) + after);
        lemma_serialize_parse_roundtrip(first, after);
        lemma_serialize_nonempty(first);
        let n0 = serialize_spec(first).len();
        assert(s.skip(n0 as int) =~= after);
        lemma_serialize_parse_roundtrip_items(tail, rest);
        assert(seq![first] + tail =~= items);
        assert(tail.len() == (items.len() - 1) as nat);
        assert(parse_spec(s) == Ok::<(RespValue, nat), RespError>((first, n0)));
        assert(0 < n0 <= s.len());
        let r = parse_items_spec(after, tail.len());
        assert(r == Ok::<(Seq<RespValue>, nat), RespError>((tail, serialize_items_spec(tail).len())));
        assert(parse_items_spec(s, items.len()) == prepend_items(seq![first], n0, r));
        assert(serialize_items_spec(items).len() == n0 + serialize_items_spec(tail).len());
        assert(prepend_items(seq![first], n0, r) == Ok::<(Seq<RespValue>, nat), RespError>(
            (items, serialize_items_spec(items).len()),
        ));
    }
}

/// A line `[tag] + body + CRLF` cut at or before its line feed holds no line feed.
proof fn lemma_line_cut(tag: u8, body: Seq<u8>, tail: Seq<u8>, p: int)
    requires
        forall|i: int| 0 <= i < body.len() ==> body[i] != LF,
        tag != LF,
        0 <= p <= body.len() + 2,
    ensures
        find_newline((seq![tag] + body + crlf() + tail).take(p), 0) is None,
{
    let s = seq![tag] + body + crlf() + tail;
    let t = s.take(p);
    assert forall|k: int| 0 <= k < t.len() implies t[k] != LF by {
        if 1 <= k < body.len() + 1 {
            assert(t[k] == body[k - 1]);
        }
    }
    lemma_find_newline(t, 0);
}

proof fn lemma_truncated_text(v: RespValue, p: int)
    requires
        wire_safe(v),
        v is Simple || v is Error || v is Integer,
        0 <= p < serialize_spec(v).len(),
    ensures
        parse_spec(serialize_spec(v).take(p)) == Err::<(RespValue, nat), RespError>(
            RespError::Incomplete,
        ),
{
    let (tag, body) = match v {
        RespValue::Simple(t) => (PLUS, encode_utf8(t)),
        RespValue::Error(t) => (MINUS, encode_utf8(t)),
        RespValue::Integer(n) => (COLON, int_decimal(n as int)),
        _ => (PLUS, Seq::empty()),
    };
    match v {
        RespValue::Simple(t) => lemma_encode_no_lf(t),
        RespValue::Error(t) => lemma_encode_no_lf(t),
        RespValue::Integer(n) => lemma_decimal_no_lf(n as int),
        _ => {},
    }
    assert(serialize_spec(v) =~= seq![tag] + body + crlf() + Seq::<u8>::empty());
    lemma_line_cut(tag, body, Seq::empty(), p);
}

proof fn lemma_truncated_null(p: int)
    requires
        0 <= p < serialize_spec(RespValue::Null).len(),
    ensures
        parse_spec(serialize_spec(RespValue::Null).take(p)) == Err::<(RespValue, nat), RespError>(
            RespError::Incomplete,
        ),
{
    let t = serialize_spec(RespValue::Null).take(p);
    assert forall|k: int| 0 <= k < t.len() implies t[k] != LF by {}
    lemma_find_newline(t, 0);
}

#[verifier::spinoff_prover]
proof fn lemma_truncated_bulk(b: Seq<u8>, p: int)
    requires
        b.len() <= i64::MAX,
        0 <= p < serialize_spec(RespValue::Bulk(b)).len(),
    ensures
        parse_spec(serialize_spec(RespValue::Bulk(b)).take(p)) == Err::<(RespValue, nat), RespError>(
            RespError::Incomplete,
        ),
{
    let d = int_decimal(b.len() as int);
    lemma_decimal_no_lf(b.len() as int);
    let whole = b + crlf();
    let j = d.len() + 2;
    assert(serialize_spec(RespValue::Bulk(b)) =~= seq![DOLLAR] + d + crlf() + whole);
    if p <= j {
        lemma_line_cut(DOLLAR, d, whole, p);
    } else {
        lemma_i64_decimal_roundtrip(b.len() as i64);
        let t = serialize_spec(RespValue::Bulk(b)).take(p);
        let cut = whole.take(p - j - 1);
        assert(t =~= seq![DOLLAR] + d + crlf() + cut);
        lemma_line(DOLLAR, d, cut);
    }
}

proof fn lemma_truncated_array(items: Seq<RespValue>, p: int)
    requires
        wire_safe(RespValue::Array(items)),
        0 <= p < serialize_spec(RespValue::Array(items)).len(),
    ensures
        parse_spec(serialize_spec(RespValue::Array(items)).take(p)) == Err::<
            (RespValue, nat),
            RespError,
        >(RespError::Incomplete),
    decreases RespValue::Array(items), 0nat,
{
    let d = int_decimal(items.len() as int);
    lemma_decimal_no_lf(items.len() as int);
    let whole = serialize_items_spec(items);
    let j = d.len() + 2;
    assert(serialize_spec(RespValue::Array(items)) =~= seq![STAR] + d + crlf() + whole);
    if p <= j {
        lemma_line_cut(STAR, d, whole, p);
    } else {
        lemma_i64_decimal_roundtrip(items.len() as i64);
        let t = serialize_spec(RespValue::Array(items)).take(p);
        let cut = whole.take(p - j - 1);
        assert(t =~= seq![STAR] + d + crlf() + cut);
        lemma_line(STAR, d, cut);
        lemma_truncated_items(items, p - j - 1);
    }
}

/// An encoding cut short anywhere is incomplete: a parser asks for more bytes and
/// reads no value from it.
pub proof fn lemma_truncated_incomplete(v: RespValue, p: int)
    requires
        wire_safe(v),
        0 <= p < serialize_spec(v).len(),
    ensures
        parse_spec(serialize_spec(v).take(p)) == Err::<(RespValue, nat), RespError>(
            RespError::Incomplete,
        ),
    decreases v, 1nat,
{
    match v {
        RespValue::Bulk(b) => lemma_truncated_bulk(b, p),
        RespValue::Null => lemma_truncated_null(p),
        RespValue::Array(items) => lemma_truncated_array(items, p),
        _ => lemma_truncated_text(v, p),
    }
}

/// The encodings of a sequence of values, cut short anywhere, are incomplete.
proof fn lemma_truncated_items(items: Seq<RespValue>, q: int)
    requires
        wire_safe_items(items),
        0 <= q < serialize_items_spec(items).len(),
    ensures
        parse_items_spec(serialize_items_spec(items).take(q), items.len()) == Err::<
            (Seq<RespValue>, nat),
            RespError,
        >(RespError::Incomplete),
    decreases items, 2nat,
{
    if items.len() == 0 {
        assert(serialize_items_spec(items).len() == 0);
    } else {
        let first = items[0];
        let tail = items.drop_first();
        lemma_serialize_items_front(items);
        let s = serialize_items_spec(items);
        let n0 = serialize_spec(first).len() as int;
        if q < n0 {
            assert(s.take(q) =~= serialize_spec(first).take(q));
            lemma_truncated_incomplete(first, q);
        } else {
            let after = serialize_items_spec(tail).take(q - n0);
            assert(s.take(q) =~= serialize_spec(first) + after);
            lemma_serialize_parse_roundtrip(first, after);
            lemma_serialize_nonempty(first);
            assert(s.take(q).skip(n0) =~= after);
            lemma_truncated_items(tail, q - n0);
            assert(tail.len() == (items.len() - 1) as nat);
        }
    }
}

} // verus!
