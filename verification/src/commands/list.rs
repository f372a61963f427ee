//! LPUSH, RPUSH and LRANGE.
use std::collections::VecDeque;

use vstd::prelude::*;
use vstd::slice::slice_to_vec;

use super::{
    arg_view, arity, arity_ok, evict_if_expired, evict_spec, list_view, live, reply_view,
    CmdError, CmdErrorView, CmdResult, Data, DataView, Db, Entry, EntryView,
};
use crate::decimal::{parse_i64, parse_i64_spec};
use crate::resp::{lemma_models, RespValue, Value};

verus! {

/// Which end of a list a push goes to.
#[derive(Clone, Copy, Debug, PartialEq, Eq, Structural)]
pub enum Side {
    Left,
    Right,
}

/// The list after pushing `vals` one by one at `side`: to the head they land in
/// reverse argument order, to the tail in argument order.
pub open spec fn pushed(l: Seq<Seq<u8>>, vals: Seq<Seq<u8>>, side: Side) -> Seq<Seq<u8>> {
    match side {
        Side::Left => vals.reverse() + l,
        Side::Right => l + vals,
    }
}

pub open spec fn push_spec(
    args: Seq<Seq<u8>>,
    m: Map<Seq<u8>, EntryView>,
    now: u64,
    side: Side,
) -> (Result<RespValue, CmdErrorView>, Map<Seq<u8>, EntryView>) {
    let name = match side {
        Side::Left => "lpush"@,
        Side::Right => "rpush"@,
    };
    if !arity_ok(args.len(), 2, None) {
        (Err(CmdErrorView::WrongArity(name)), m)
    } else {
        let k = args[0];
        let vals = args.skip(1);
        let m1 = evict_spec(m, k, now);
        if m1.dom().contains(k) {
            match m1[k].data {
                DataView::Str(_) => (Err(CmdErrorView::WrongType), m1),
                DataView::List(l) => {
                    let nl = pushed(l, vals, side);
                    (
                        Ok(RespValue::Integer(nl.len() as i64)),
                        m1.insert(
                            k,
                            EntryView { data: DataView::List(nl), expires_at: m1[k].expires_at },
                        ),
                    )
                },
            }
        } else {
            let nl = pushed(Seq::empty(), vals, side);
            (
                Ok(RespValue::Integer(nl.len() as i64)),
                m1.insert(k, EntryView { data: DataView::List(nl), expires_at: None }),
            )
        }
    }
}

/// `LPUSH key value [value ...]` and `RPUSH key value [value ...]`: pushes the values,
/// creating the list when the key is missing and keeping any expiry; replies the new
/// length.
pub fn push(args: &[Vec<u8>], db: &mut Db, now: u64, side: Side) -> (r: CmdResult)
    ensures
        (reply_view(r), final(db)@) == push_spec(arg_view(args@), old(db)@, now, side),
{
    let name = match side {
        Side::Left => "lpush",
        Side::Right => "rpush",
    };
    arity(args, 2, None, name)?;
    let key = args[0].as_slice();
    evict_if_expired(db, key, now);
    let ghost m1 = db@;
    let ghost vals = arg_view(args@).skip(1);
    let (mut list, expires_at) = match db.remove(key) {
        None => (VecDeque::new(), None),
        Some(entry) => {
            match entry.value {
                Data::List(l) => (l, entry.expires_at),
                Data::String(b) => {
                    db.insert(slice_to_vec(key), Entry { value: Data::String(b), expires_at: entry.expires_at });
                    assert(db@ =~= m1);
                    return Err(CmdError::WrongType);
                },
            }
        },
    };
    let ghost l0 = list_view(list@);
    let mut i: usize = 1;
    while i < args.len()
        invariant
            1 <= i <= args@.len(),
            vals == arg_view(args@).skip(1),
            list_view(list@) == pushed(l0, vals.take(i - 1), side),
        decreases args@.len() - i,
    {
        let ghost before = list@;
        let value = args[i].clone();
        assert(value@ == args@[i as int]@);
        match side {
            // Each value goes to the head in argument order, so LPUSH k a b c
            // leaves the list as [c, b, a].
            Side::Left => list.push_front(value),
            Side::Right => list.push_back(value),
        }
        i = i + 1;
        proof {
            let done = vals.take(i - 1);
            assert(done.drop_last() =~= vals.take(i - 2));
            assert(done.last() == args@[i - 1]@);
            match side {
                Side::Left => {
                    assert(list_view(list@) =~= seq![args@[i - 1]@] + list_view(before));
                    assert(done.reverse() =~= seq![done.last()] + done.drop_last().reverse());
                    assert(list_view(before) == done.drop_last().reverse() + l0);
                    assert(list_view(list@) =~= seq![done.last()] + (done.drop_last().reverse() + l0));
                    assert(list_view(list@) =~= pushed(l0, done, side));
                },
                Side::Right => {
                    assert(list_view(list@) =~= list_view(before).push(args@[i - 1]@));
                    assert(list_view(before) == l0 + done.drop_last());
                    assert(list_view(list@) =~= pushed(l0, done, side));
                },
            }
        }
    }
    assert(vals.take(i - 1) =~= vals);
    let len = list.len();
    let entry = Entry { value: Data::List(list), expires_at };
    db.insert(slice_to_vec(key), entry);
    Ok(Value::Integer(len as i64))
}

/// The elements of `l` between `start` and `stop`, both inclusive; a negative index
/// counts back from the tail, and bounds out of range are clamped.
pub open spec fn range_spec(l: Seq<Seq<u8>>, start: i64, stop: i64) -> Seq<Seq<u8>> {
    let len = l.len() as int;
    let s = if start < 0 {
        start + len
    } else {
        start as int
    };
    let e = if stop < 0 {
        stop + len
    } else {
        stop as int
    };
    let s2 = if s < 0 {
        0
    } else {
        s
    };
    let e2 = if e > len - 1 {
        len - 1
    } else {
        e
    };
    if len == 0 || s2 > e2 {
        Seq::empty()
    } else {
        l.subrange(s2, e2 + 1)
    }
}

/// Bulk strings of each element.
pub open spec fn bulks(l: Seq<Seq<u8>>) -> Seq<RespValue> {
    l.map_values(|b: Seq<u8>| RespValue::Bulk(b))
}

pub open spec fn lrange_spec(args: Seq<Seq<u8>>, m: Map<Seq<u8>, EntryView>, now: u64) -> Result<
    RespValue,
    CmdErrorView,
> {
    if !arity_ok(args.len(), 3, Some(3)) {
        Err(CmdErrorView::WrongArity("lrange"@))
    } else {
        match parse_i64_spec(args[1]) {
            None => Err(CmdErrorView::NotAnInteger),
            Some(start) => match parse_i64_spec(args[2]) {
                None => Err(CmdErrorView::NotAnInteger),
                Some(stop) => {
                    let k = args[0];
                    if !(m.dom().contains(k) && live(m[k], now)) {
                        Ok(RespValue::Array(Seq::empty()))
                    } else {
                        match m[k].data {
                            DataView::Str(_) => Err(CmdErrorView::WrongType),
                            DataView::List(l) => Ok(RespValue::Array(bulks(range_spec(l, start, stop)))),
                        }
                    }
                },
            },
        }
    }
}

/// Reads a list index.
pub fn parse_index(raw: &[u8]) -> (r: Result<i64, CmdError>)
    ensures
        match r {
            Ok(n) => parse_i64_spec(raw@) == Some(n),
            Err(e) => parse_i64_spec(raw@) is None && e@ == CmdErrorView::NotAnInteger,
        },
{
    match parse_i64(raw) {
        Some(n) => Ok(n),
        None => Err(CmdError::NotAnInteger),
    }
}

/// `LRANGE key start stop`: the elements in that inclusive range; a missing key is an
/// empty list.
pub fn lrange(args: &[Vec<u8>], db: &Db, now: u64) -> (r: CmdResult)
    ensures
        reply_view(r) == lrange_spec(arg_view(args@), db@, now),
{
    arity(args, 3, Some(3), "lrange")?;
    let start = parse_index(args[1].as_slice())?;
    let stop = parse_index(args[2].as_slice())?;
    let entry = match db.get(args[0].as_slice()) {
        Some(entry) => entry,
        None => {
            return Ok(Value::Array(Vec::new()));
        },
    };
    if super::is_expired(entry, now) {
        return Ok(Value::Array(Vec::new()));
    }
    let list = match &entry.value {
        Data::List(list) => list,
        Data::String(_) => {
            return Err(CmdError::WrongType);
        },
    };
    let ghost l = list_view(list@);
    let n = list.len();
    // Computed in i128 so that no length or index can overflow.
    let len = n as i128;
    let s = if start < 0 {
        start as i128 + len
    } else {
        start as i128
    };
    let e = if stop < 0 {
        stop as i128 + len
    } else {
        stop as i128
    };
    let s2 = if s < 0 {
        0
    } else {
        s
    };
    let e2 = if e > len - 1 {
        len - 1
    } else {
        e
    };
    if len == 0 || s2 > e2 {
        assert(bulks(range_spec(l, start, stop)) =~= Seq::<RespValue>::empty());
        return Ok(Value::Array(Vec::new()));
    }
    let first = s2 as usize;
    let last = e2 as usize;
    let mut items: Vec<Value> = Vec::new();
    let mut i: usize = first;
    while i <= last
        invariant
            first <= i <= last + 1,
            last < list@.len(),
            n == list@.len(),
            l == list_view(list@),
            Value::models(items@) == bulks(l.subrange(first as int, i as int)),
        decreases last + 1 - i,
    {
        let ghost before = items@;
        let value = list[i].clone();
        assert(value@ == list@[i as int]@);
        items.push(Value::BulkString(value));
        i = i + 1;
        proof {
            assert(items@.drop_last() =~= before);
            assert(items@.last()@ == RespValue::Bulk(l[i - 1]));
            assert(bulks(l.subrange(first as int, i as int)) =~= bulks(
                l.subrange(first as int, i - 1),
            ).push(RespValue::Bulk(l[i - 1])));
        }
    }
    assert(range_spec(l, start, stop) =~= l.subrange(first as int, i as int));
    Ok(Value::Array(items))
}

/// `LRANGE key 0 -1` gives the whole list.
pub proof fn lemma_lrange_whole(l: Seq<Seq<u8>>)
    ensures
        range_spec(l, 0i64, -1i64) == l,
{
    if l.len() > 0 {
        assert(l.subrange(0, l.len() as int) =~= l);
    }
}

/// After `RPUSH key v1 .. vn` on a missing key, `LRANGE key 0 -1` gives `v1 .. vn`;
/// after `LPUSH`, the same values in reverse.
pub proof fn lemma_push_then_lrange(
    key: Seq<u8>,
    vals: Seq<Seq<u8>>,
    m: Map<Seq<u8>, EntryView>,
    now: u64,
    side: Side,
)
    requires
        !(m.dom().contains(key) && live(m[key], now)),
        vals.len() > 0,
    ensures
        ({
            let args = seq![key] + vals;
            let m2 = push_spec(args, m, now, side).1;
            let expected = match side {
                Side::Left => vals.reverse(),
                Side::Right => vals,
            };
            lrange_spec(seq![key, crate::decimal::int_decimal(0), crate::decimal::int_decimal(-1)], m2, now)
                == Ok::<RespValue, CmdErrorView>(RespValue::Array(bulks(expected)))
        }),
{
    let args = seq![key] + vals;
    assert(args.skip(1) =~= vals);
    assert(args[0] == key);
    crate::decimal::lemma_i64_decimal_roundtrip(0i64);
    crate::decimal::lemma_i64_decimal_roundtrip(-1i64);
    let expected = match side {
        Side::Left => vals.reverse(),
        Side::Right => vals,
    };
    assert(pushed(Seq::empty(), vals, side) =~= expected);
    lemma_lrange_whole(expected);
}

/// A push keeps the deadline of the list it extends.
pub proof fn lemma_push_keeps_expiry(args: Seq<Seq<u8>>, m: Map<Seq<u8>, EntryView>, now: u64, side: Side)
    requires
        args.len() >= 2,
        m.dom().contains(args[0]) && live(m[args[0]], now),
        push_spec(args, m, now, side).0 is Ok,
    ensures
        push_spec(args, m, now, side).1[args[0]].expires_at == m[args[0]].expires_at,
        push_spec(args, m, now, side).1.dom() == m.dom(),
{
    assert(push_spec(args, m, now, side).1.dom() =~= m.dom());
}

/// Keys are typed: `GET` refuses a list, and `LPUSH`/`RPUSH` refuse a string and leave
/// the keyspace as it was.
pub proof fn lemma_wrong_type(key: Seq<u8>, m: Map<Seq<u8>, EntryView>, now: u64, args: Seq<Seq<u8>>, side: Side)
    requires
        m.dom().contains(key),
        live(m[key], now),
        args.len() >= 2,
        args[0] == key,
    ensures
        m[key].data is List ==> crate::commands::string::get_spec(seq![key], m, now)
            == Err::<RespValue, CmdErrorView>(CmdErrorView::WrongType),
        m[key].data is Str ==> push_spec(args, m, now, side) == (
            Err::<RespValue, CmdErrorView>(CmdErrorView::WrongType),
            m,
        ),
{
}

/// `LRANGE` indices in range select exactly the elements from `start` to `stop`, both
/// included; a start past the stop selects nothing.
pub proof fn lemma_range_in_bounds(l: Seq<Seq<u8>>, start: i64, stop: i64)
    requires
        0 <= start < l.len(),
        0 <= stop < l.len(),
    ensures
        start <= stop ==> range_spec(l, start, stop) == l.subrange(start as int, stop + 1),
        start > stop ==> range_spec(l, start, stop) == Seq::<Seq<u8>>::empty(),
{
}

/// A negative `LRANGE` index `-j` (with `1 <= j <= len`) names position `len - j`, for
/// the start and for the stop alike: `0 -2` drops exactly the last element.
pub proof fn lemma_range_negative_index(l: Seq<Seq<u8>>, start: i64, stop: i64, j: i64)
    requires
        l.len() <= i64::MAX,
        1 <= j <= l.len(),
    ensures
        range_spec(l, start, -j as i64) == range_spec(l, start, (l.len() - j) as i64),
        range_spec(l, -j as i64, stop) == range_spec(l, (l.len() - j) as i64, stop),
{
}

/// Out-of-range `LRANGE` bounds are clamped: a stop at or past the tail means the last
/// element, a start before the head (counting back) means the first.
pub proof fn lemma_range_clamps(l: Seq<Seq<u8>>, start: i64, stop: i64)
    requires
        1 <= l.len() <= i64::MAX,
    ensures
        stop >= l.len() ==> range_spec(l, start, stop) == range_spec(l, start, (l.len() - 1) as i64),
        start < -(l.len() as int) ==> range_spec(l, start, stop) == range_spec(l, 0i64, stop),
{
}

/// What a successful `LPUSH`/`RPUSH key v1 .. vn` leaves under the key: the list it held
/// while live (none counts as empty) with the values added, each at its place. `RPUSH`
/// keeps the old elements at the head and puts `v1 .. vn` after them in argument
/// order; `LPUSH` puts `vn .. v1` before them. The reply is the new length, and every
/// other key is as it was.
pub proof fn lemma_push_positions(
    args: Seq<Seq<u8>>,
    m: Map<Seq<u8>, EntryView>,
    now: u64,
    side: Side,
)
    requires
        args.len() >= 2,
        push_spec(args, m, now, side).0 is Ok,
    ensures
        ({
            let k = args[0];
            let n = args.len() - 1;
            let old_list = if m.dom().contains(k) && live(m[k], now) {
                m[k].data->List_0
            } else {
                Seq::<Seq<u8>>::empty()
            };
            let (r, m2) = push_spec(args, m, now, side);
            &&& m2.dom().contains(k)
            &&& m2[k].data is List
            &&& m2[k].data->List_0.len() == old_list.len() + n
            &&& r == Ok::<RespValue, CmdErrorView>(
                RespValue::Integer((old_list.len() + n) as i64),
            )
            &&& side == Side::Right ==> (forall|i: int|
                0 <= i < old_list.len() ==> #[trigger] m2[k].data->List_0[i] == old_list[i])
                && (forall|j: int|
                0 < j < args.len() ==> m2[k].data->List_0[old_list.len() + j - 1] == #[trigger] args[j])
            &&& side == Side::Left ==> (forall|i: int|
                0 <= i < old_list.len() ==> m2[k].data->List_0[n + i] == #[trigger] old_list[i])
                && (forall|j: int|
                0 < j < args.len() ==> m2[k].data->List_0[n - j] == #[trigger] args[j])
            &&& forall|k2: Seq<u8>|
                k2 != k ==> (#[trigger] m2.dom().contains(k2) == m.dom().contains(k2) && (
                m.dom().contains(k2) ==> m2[k2] == m[k2]))
        }),
{
    let k = args[0];
    let vals = args.skip(1);
    let n = args.len() - 1;
    let m1 = evict_spec(m, k, now);
    let old_list = if m.dom().contains(k) && live(m[k], now) {
        m[k].data->List_0
    } else {
        Seq::<Seq<u8>>::empty()
    };
    let nl = pushed(old_list, vals, side);
    assert(push_spec(args, m, now, side).1[k].data->List_0 == nl);
    match side {
        Side::Right => {
            assert forall|j: int| 0 < j < args.len() implies nl[old_list.len() + j - 1] == #[trigger] args[j] by {
                assert(vals[j - 1] == args[j]);
            }
        },
        Side::Left => {
            assert forall|j: int| 0 < j < args.len() implies nl[n - j] == #[trigger] args[j] by {
                assert(vals.reverse()[n - j] == vals[j - 1]);
                assert(vals[j - 1] == args[j]);
            }
        },
    }
}

} // verus!
