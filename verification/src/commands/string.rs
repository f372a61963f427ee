//! GET, SET, INCR and DECR.
use vstd::prelude::*;
use vstd::slice::slice_to_vec;
use vstd::string::*;

use super::{
    arg_view, arity, arity_ok, evict_if_expired, evict_spec, is_word, live, lossy_string,
    not_before, reply_view, to_ascii_uppercase, unix_millis_to_instant, unix_secs_to_instant,
    upper, utf8_lossy, word, CmdError, CmdErrorView, CmdResult, Data, DataView, Db, Entry,
    EntryView,
};
use crate::decimal::{int_decimal, parse_i64, parse_i64_spec, parse_u64, parse_u64_spec, push_i64};
use crate::resp::{RespValue, Value};

verus! {

pub open spec fn get_spec(args: Seq<Seq<u8>>, m: Map<Seq<u8>, EntryView>, now: u64) -> Result<
    RespValue,
    CmdErrorView,
> {
    if !arity_ok(args.len(), 1, Some(1)) {
        Err(CmdErrorView::WrongArity("get"@))
    } else if m.dom().contains(args[0]) && live(m[args[0]], now) {
        match m[args[0]].data {
            DataView::Str(b) => Ok(RespValue::Bulk(b)),
            DataView::List(_) => Err(CmdErrorView::WrongType),
        }
    } else {
        Ok(RespValue::Null)
    }
}

/// `GET key`: the string stored under the key, or nil when there is none.
pub fn get(args: &[Vec<u8>], db: &Db, now: u64) -> (r: CmdResult)
    ensures
        reply_view(r) == get_spec(arg_view(args@), db@, now),
{
    arity(args, 1, Some(1), "get")?;
    match db.get(args[0].as_slice()) {
        Some(entry) => {
            if super::is_expired(entry, now) {
                Ok(Value::Null)
            } else {
                match &entry.value {
                    Data::String(bytes) => Ok(Value::BulkString(bytes.clone())),
                    Data::List(_) => Err(CmdError::WrongType),
                }
            }
        },
        None => Ok(Value::Null),
    }
}

/// One of the four options that set an expiry.
pub open spec fn is_expiry_flag(f: Seq<u8>) -> bool {
    f == word("EX") || f == word("PX") || f == word("EXAT") || f == word("PXAT")
}

/// The deadline, in Unix milliseconds, that option `flag` with `amount` sets at `now`:
/// relative for `EX` (seconds) and `PX` (milliseconds), absolute for `EXAT` and `PXAT`
/// (a moment already past means now). A deadline past what a `u64` of milliseconds
/// holds (some 584 million years after 1970) is held as `u64::MAX`, a moment no clock
/// reaches: the key does not expire.
pub open spec fn deadline_spec(flag: Seq<u8>, amount: u64, now: u64) -> u64 {
    let d: int = if flag == word("EX") {
        now + amount * 1000
    } else if flag == word("PX") {
        now + amount
    } else if flag == word("EXAT") {
        not_before(amount * 1000, now)
    } else {
        not_before(amount as int, now)
    };
    if d <= u64::MAX {
        d as u64
    } else {
        u64::MAX
    }
}

/// The expiry that the options after `SET key value` ask for; the last one wins, and
/// the first bad option is the error.
pub open spec fn expiry_spec(opts: Seq<Seq<u8>>, now: u64) -> Result<Option<u64>, CmdErrorView>
    decreases opts.len(),
{
    if opts.len() == 0 {
        Ok(None)
    } else {
        let flag = upper(opts[0]);
        if !is_expiry_flag(flag) {
            Err(CmdErrorView::UnknownOption(utf8_lossy(flag)))
        } else if opts.len() < 2 {
            Err(CmdErrorView::Syntax(utf8_lossy(flag) + " requires an argument"@))
        } else {
            match parse_u64_spec(opts[1]) {
                Some(n) => if n == 0 {
                    Err(CmdErrorView::InvalidExpire("set"@))
                } else {
                    later(Some(deadline_spec(flag, n, now)), expiry_spec(opts.skip(2), now))
                },
                None => Err(CmdErrorView::InvalidExpire("set"@)),
            }
        }
    }
}

/// `r`, unless it sets no expiry, in which case `cur`.
pub open spec fn later(cur: Option<u64>, r: Result<Option<u64>, CmdErrorView>) -> Result<
    Option<u64>,
    CmdErrorView,
> {
    match r {
        Ok(None) => Ok(cur),
        _ => r,
    }
}

/// Options that set no expiry are no options at all: a pair that reads sets one.
pub proof fn lemma_expiry_none_iff_empty(opts: Seq<Seq<u8>>, now: u64)
    ensures
        expiry_spec(opts, now) == Ok::<Option<u64>, CmdErrorView>(None) <==> opts.len() == 0,
{
}

/// Options are read pair by pair, left to right: after whole pairs `o1`, the options
/// `o1 + o2` fail at `o1`'s first bad option if it has one; otherwise the last
/// deadline set wins, so a non-empty `o2` that reads decides alone.
pub proof fn lemma_expiry_concat(o1: Seq<Seq<u8>>, o2: Seq<Seq<u8>>, now: u64)
    requires
        o1.len() % 2 == 0,
    ensures
        expiry_spec(o1 + o2, now) == match expiry_spec(o1, now) {
            Err(e) => Err(e),
            Ok(x) => later(x, expiry_spec(o2, now)),
        },
        expiry_spec(o1, now) is Ok && o2.len() > 0 ==> expiry_spec(o1 + o2, now) == expiry_spec(
            o2,
            now,
        ),
    decreases o1.len(),
{
    lemma_expiry_none_iff_empty(o2, now);
    if o1.len() == 0 {
        assert(o1 + o2 =~= o2);
    } else {
        let s = o1 + o2;
        assert(s[0] == o1[0]);
        assert(s[1] == o1[1]);
        assert(s.skip(2) =~= o1.skip(2) + o2);
        lemma_expiry_concat(o1.skip(2), o2, now);
    }
}

fn deadline(flag: &[u8], amount: u64, now: u64) -> (d: u64)
    requires
        is_expiry_flag(flag@),
    ensures
        d == deadline_spec(flag@, amount, now),
{
    if is_word(flag, "EX") {
        match amount.checked_mul(1000) {
            Some(ms) => now.saturating_add(ms),
            None => u64::MAX,
        }
    } else if is_word(flag, "PX") {
        now.saturating_add(amount)
    } else if is_word(flag, "EXAT") {
        unix_secs_to_instant(amount, now)
    } else {
        unix_millis_to_instant(amount, now)
    }
}

/// Reads the expiry options of `SET`.
pub fn parse_expiry(options: &[Vec<u8>], now: u64) -> (r: Result<Option<u64>, CmdError>)
    ensures
        match r {
            Ok(e) => expiry_spec(arg_view(options@), now) == Ok::<Option<u64>, CmdErrorView>(e),
            Err(e) => expiry_spec(arg_view(options@), now) == Err::<Option<u64>, CmdErrorView>(
                e@,
            ),
        },
{
    let ghost opts = arg_view(options@);
    let mut expires_at: Option<u64> = None;
    let mut i: usize = 0;
    assert(opts.skip(0) =~= opts);
    assert(later(None, expiry_spec(opts, now)) == expiry_spec(opts, now));
    while i < options.len()
        invariant
            i <= options@.len(),
            opts == arg_view(options@),
            expiry_spec(opts, now) == later(expires_at, expiry_spec(opts.skip(i as int), now)),
        decreases options@.len() - i,
    {
        let ghost rest = opts.skip(i as int);
        assert(rest[0] == options@[i as int]@);
        let flag = to_ascii_uppercase(options[i].as_slice());
        if !(is_word(&flag, "EX") || is_word(&flag, "PX") || is_word(&flag, "EXAT") || is_word(
            &flag,
            "PXAT",
        )) {
            return Err(CmdError::UnknownOption(lossy_string(&flag)));
        }
        if i + 1 >= options.len() {
            let mut msg = lossy_string(&flag);
            msg.append(" requires an argument");
            return Err(CmdError::Syntax(msg));
        }
        assert(rest[1] == options@[i + 1]@);
        let amount = match parse_u64(options[i + 1].as_slice()) {
            Some(n) => n,
            None => {
                return Err(CmdError::InvalidExpire("set"));
            },
        };
        if amount == 0 {
            return Err(CmdError::InvalidExpire("set"));
        }
        let d = deadline(&flag, amount, now);
        assert(rest.skip(2) =~= opts.skip(i + 2));
        expires_at = Some(d);
        i = i + 2;
    }
    assert(opts.skip(i as int) =~= Seq::<Seq<u8>>::empty());
    Ok(expires_at)
}

pub open spec fn set_spec(args: Seq<Seq<u8>>, m: Map<Seq<u8>, EntryView>, now: u64) -> (
    Result<RespValue, CmdErrorView>,
    Map<Seq<u8>, EntryView>,
) {
    if !arity_ok(args.len(), 2, None) {
        (Err(CmdErrorView::WrongArity("set"@)), m)
    } else {
        match expiry_spec(args.skip(2), now) {
            Err(e) => (Err(e), m),
            Ok(expires_at) => (
                Ok(RespValue::Simple("OK"@)),
                m.insert(args[0], EntryView { data: DataView::Str(args[1]), expires_at }),
            ),
        }
    }
}

/// `SET key value [EX s|PX ms|EXAT s|PXAT ms]`: stores the string, replacing a key of
/// any type.
pub fn set(args: &[Vec<u8>], db: &mut Db, now: u64) -> (r: CmdResult)
    ensures
        (reply_view(r), final(db)@) == set_spec(arg_view(args@), old(db)@, now),
{
    arity(args, 2, None, "set")?;
    let options = &args[2..args.len()];
    assert(arg_view(options@) =~= arg_view(args@).skip(2));
    let expires_at = parse_expiry(options, now)?;
    let entry = Entry { value: Data::String(args[1].clone()), expires_at };
    db.insert(args[0].clone(), entry);
    Ok(Value::SimpleString("OK".to_owned()))
}

pub open spec fn incr_spec(args: Seq<Seq<u8>>, m: Map<Seq<u8>, EntryView>, now: u64, delta: i64) -> (
    Result<RespValue, CmdErrorView>,
    Map<Seq<u8>, EntryView>,
) {
    let name = if delta > 0 {
        "incr"@
    } else {
        "decr"@
    };
    if !arity_ok(args.len(), 1, Some(1)) {
        (Err(CmdErrorView::WrongArity(name)), m)
    } else {
        let k = args[0];
        let m1 = evict_spec(m, k, now);
        if m1.dom().contains(k) {
            match m1[k].data {
                DataView::List(_) => (Err(CmdErrorView::WrongType), m1),
                DataView::Str(b) => match parse_i64_spec(b) {
                    None => (Err(CmdErrorView::NotAnInteger), m1),
                    Some(n) => if n + delta < i64::MIN || n + delta > i64::MAX {
                        (Err(CmdErrorView::Overflow), m1)
                    } else {
                        (
                            Ok(RespValue::Integer((n + delta) as i64)),
                            m1.insert(
                                k,
                                EntryView {
                                    data: DataView::Str(int_decimal(n + delta)),
                                    expires_at: m1[k].expires_at,
                                },
                            ),
                        )
                    },
                },
            }
        } else {
            (
                Ok(RespValue::Integer(delta)),
                m1.insert(
                    k,
                    EntryView { data: DataView::Str(int_decimal(delta as int)), expires_at: None },
                ),
            )
        }
    }
}

fn decimal_string(n: i64) -> (d: Vec<u8>)
    ensures
        d@ == int_decimal(n as int),
{
    let mut d: Vec<u8> = Vec::new();
    push_i64(&mut d, n);
    assert(d@ =~= int_decimal(n as int));
    d
}

/// `INCR key` (`delta` 1) and `DECR key` (`delta` -1): adds `delta` to the integer
/// the key holds, a missing key counting as 0, and keeps any expiry.
pub fn incr_by(args: &[Vec<u8>], db: &mut Db, now: u64, delta: i64) -> (r: CmdResult)
    ensures
        (reply_view(r), final(db)@) == incr_spec(arg_view(args@), old(db)@, now, delta),
{
    let name = if delta > 0 {
        "incr"
    } else {
        "decr"
    };
    arity(args, 1, Some(1), name)?;
    let key = args[0].as_slice();
    evict_if_expired(db, key, now);
    let ghost m1 = db@;
    match db.remove(key) {
        None => {
            db.insert(slice_to_vec(key), Entry { value: Data::String(decimal_string(delta)), expires_at: None });
            Ok(Value::Integer(delta))
        },
        Some(entry) => {
            let outcome: Result<i64, CmdError> = match &entry.value {
                Data::List(_) => Err(CmdError::WrongType),
                Data::String(bytes) => match parse_i64(bytes.as_slice()) {
                    None => Err(CmdError::NotAnInteger),
                    Some(current) => match current.checked_add(delta) {
                        None => Err(CmdError::Overflow),
                        Some(next) => Ok(next),
                    },
                },
            };
            match outcome {
                Err(e) => {
                    db.insert(slice_to_vec(key), entry);
                    assert(db@ =~= m1);
                    Err(e)
                },
                Ok(next) => {
                    // Only the value changes: the entry keeps its expiry.
                    let updated = Entry {
                        value: Data::String(decimal_string(next)),
                        expires_at: entry.expires_at,
                    };
                    db.insert(slice_to_vec(key), updated);
                    assert(db@ =~= m1.insert(key@, updated@));
                    Ok(Value::Integer(next))
                },
            }
        },
    }
}

/// Read your write: after `SET key value`, `GET key` answers the value at any time,
/// whatever the key held before, a list included.
pub proof fn lemma_set_then_get(
    key: Seq<u8>,
    value: Seq<u8>,
    m: Map<Seq<u8>, EntryView>,
    now: u64,
    later: u64,
)
    ensures
        set_spec(seq![key, value], m, now).0 == Ok::<RespValue, CmdErrorView>(
            RespValue::Simple("OK"@),
        ),
        get_spec(seq![key], set_spec(seq![key, value], m, now).1, later) == Ok::<
            RespValue,
            CmdErrorView,
        >(RespValue::Bulk(value)),
{
    assert(seq![key, value].skip(2) =~= Seq::<Seq<u8>>::empty());
}

/// `INCR` on a key that is missing or has expired answers 1 and leaves `"1"` behind.
pub proof fn lemma_incr_missing(key: Seq<u8>, m: Map<Seq<u8>, EntryView>, now: u64)
    requires
        !(m.dom().contains(key) && live(m[key], now)),
    ensures
        incr_spec(seq![key], m, now, 1i64).0 == Ok::<RespValue, CmdErrorView>(RespValue::Integer(1)),
        incr_spec(seq![key], m, now, 1i64).1[key] == (EntryView {
            data: DataView::Str(int_decimal(1)),
            expires_at: None,
        }),
{
}

/// `INCR` and `DECR` keep the deadline of the key they change.
pub proof fn lemma_incr_keeps_expiry(
    args: Seq<Seq<u8>>,
    m: Map<Seq<u8>, EntryView>,
    now: u64,
    delta: i64,
)
    requires
        args.len() == 1,
        m.dom().contains(args[0]) && live(m[args[0]], now),
        incr_spec(args, m, now, delta).0 is Ok,
    ensures
        incr_spec(args, m, now, delta).1[args[0]].expires_at == m[args[0]].expires_at,
        incr_spec(args, m, now, delta).1.dom() == m.dom(),
{
    assert(incr_spec(args, m, now, delta).1.dom() =~= m.dom());
}

/// `DECR` undoes `INCR` on a key that holds an integer written in canonical decimal.
pub proof fn lemma_incr_then_decr(key: Seq<u8>, n: i64, m: Map<Seq<u8>, EntryView>, now: u64)
    requires
        m.dom().contains(key),
        live(m[key], now),
        m[key].data == DataView::Str(int_decimal(n as int)),
        n < i64::MAX,
    ensures
        incr_spec(seq![key], m, now, 1i64).0 == Ok::<RespValue, CmdErrorView>(
            RespValue::Integer((n + 1) as i64),
        ),
        incr_spec(seq![key], incr_spec(seq![key], m, now, 1i64).1, now, -1i64).0 == Ok::<
            RespValue,
            CmdErrorView,
        >(RespValue::Integer(n)),
        incr_spec(seq![key], incr_spec(seq![key], m, now, 1i64).1, now, -1i64).1 == m,
{
    crate::decimal::lemma_i64_decimal_roundtrip(n);
    crate::decimal::lemma_i64_decimal_roundtrip((n + 1) as i64);
    let m1 = incr_spec(seq![key], m, now, 1i64).1;
    assert(incr_spec(seq![key], m1, now, -1i64).1 =~= m);
}

/// After a successful `INCR key` (`delta` 1) or `DECR key` (`delta` -1), the reply is
/// the integer the key held while live (0 when missing or expired) plus `delta`, and the
/// key holds that integer's decimal text: reading it back gives the reply. `DECR` of a
/// missing key replies -1 and stores "-1".
pub proof fn lemma_incr_stores_reply(
    args: Seq<Seq<u8>>,
    m: Map<Seq<u8>, EntryView>,
    now: u64,
    delta: i64,
)
    requires
        args.len() == 1,
        incr_spec(args, m, now, delta).0 is Ok,
    ensures
        ({
            let k = args[0];
            let (r, m2) = incr_spec(args, m, now, delta);
            let before: int = if m.dom().contains(k) && live(m[k], now) {
                parse_i64_spec(m[k].data->Str_0)->Some_0 as int
            } else {
                0
            };
            &&& r->Ok_0 is Integer
            &&& r->Ok_0->Integer_0 == before + delta
            &&& m2.dom().contains(k)
            &&& m2[k].data is Str
            &&& parse_i64_spec(m2[k].data->Str_0) == Some(r->Ok_0->Integer_0)
        }),
{
    let k = args[0];
    let r = incr_spec(args, m, now, delta).0;
    if r->Ok_0 is Integer {
        crate::decimal::lemma_i64_decimal_roundtrip(r->Ok_0->Integer_0);
    }
}

} // verus!
