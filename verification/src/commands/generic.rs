//! PING, ECHO, DEL and EXISTS.
use vstd::prelude::*;

use super::{
    arg_view, arity, arity_ok, live, reply_view, CmdErrorView, CmdResult, Db, EntryView,
};
use crate::resp::{RespValue, Value};

verus! {

pub open spec fn ping_spec(args: Seq<Seq<u8>>) -> Result<RespValue, CmdErrorView> {
    if !arity_ok(args.len(), 0, Some(1)) {
        Err(CmdErrorView::WrongArity("ping"@))
    } else if args.len() == 1 {
        Ok(RespValue::Bulk(args[0]))
    } else {
        Ok(RespValue::Simple("PONG"@))
    }
}

/// `PING [message]`: `PONG`, or the message back.
pub fn ping(args: &[Vec<u8>]) -> (r: CmdResult)
    ensures
        reply_view(r) == ping_spec(arg_view(args@)),
{
    arity(args, 0, Some(1), "ping")?;
    if args.len() == 1 {
        Ok(Value::BulkString(args[0].clone()))
    } else {
        Ok(Value::SimpleString("PONG".to_owned()))
    }
}

pub open spec fn echo_spec(args: Seq<Seq<u8>>) -> Result<RespValue, CmdErrorView> {
    if !arity_ok(args.len(), 1, Some(1)) {
        Err(CmdErrorView::WrongArity("echo"@))
    } else {
        Ok(RespValue::Bulk(args[0]))
    }
}

/// `ECHO message`: the message back.
pub fn echo(args: &[Vec<u8>]) -> (r: CmdResult)
    ensures
        reply_view(r) == echo_spec(arg_view(args@)),
{
    arity(args, 1, Some(1), "echo")?;
    Ok(Value::BulkString(args[0].clone()))
}

/// Removing `keys` one after another: how many removed entries were live, and what
/// is left. A key named twice is removed (and counted) once.
pub open spec fn del_spec(keys: Seq<Seq<u8>>, m: Map<Seq<u8>, EntryView>, now: u64) -> (
    int,
    Map<Seq<u8>, EntryView>,
)
    decreases keys.len(),
{
    if keys.len() == 0 {
        (0, m)
    } else {
        let (n, rest) = del_spec(keys.drop_last(), m, now);
        let k = keys.last();
        if rest.dom().contains(k) {
            (n + if live(rest[k], now) {
                1int
            } else {
                0int
            }, rest.remove(k))
        } else {
            (n, rest)
        }
    }
}

/// After `del_spec`, none of the keys is left and every other key is as it was.
pub proof fn lemma_del_removes(keys: Seq<Seq<u8>>, m: Map<Seq<u8>, EntryView>, now: u64)
    ensures
        del_spec(keys, m, now).1 == m.remove_keys(keys.to_set()),
        0 <= del_spec(keys, m, now).0 <= keys.len(),
    decreases keys.len(),
{
    if keys.len() > 0 {
        lemma_del_removes(keys.drop_last(), m, now);
        assert(keys.to_set() =~= keys.drop_last().to_set().insert(keys.last())) by {
            assert forall|k: Seq<u8>| keys.to_set().contains(k) implies keys.drop_last().to_set().insert(
                keys.last(),
            ).contains(k) by {
                let i = choose|i: int| 0 <= i < keys.len() && keys[i] == k;
                if i < keys.len() - 1 {
                    assert(keys.drop_last()[i] == k);
                }
            }
            assert forall|k: Seq<u8>|
                keys.drop_last().to_set().insert(keys.last()).contains(k) implies keys.to_set().contains(
                k,
            ) by {
                if k != keys.last() {
                    let i = choose|i: int|
                        0 <= i < keys.drop_last().len() && keys.drop_last()[i] == k;
                    assert(keys[i] == k);
                } else {
                    assert(keys[keys.len() - 1] == k);
                }
            }
        }
        assert(del_spec(keys, m, now).1 =~= m.remove_keys(keys.to_set()));
    }
}

pub open spec fn del_result(args: Seq<Seq<u8>>, m: Map<Seq<u8>, EntryView>, now: u64) -> (
    Result<RespValue, CmdErrorView>,
    Map<Seq<u8>, EntryView>,
) {
    if !arity_ok(args.len(), 1, None) {
        (Err(CmdErrorView::WrongArity("del"@)), m)
    } else {
        let (n, rest) = del_spec(args, m, now);
        (Ok(RespValue::Integer(n as i64)), rest)
    }
}

/// `DEL key [key ...]`: removes the keys; replies how many live entries went.
pub fn del(args: &[Vec<u8>], db: &mut Db, now: u64) -> (r: CmdResult)
    ensures
        (reply_view(r), final(db)@) == del_result(arg_view(args@), old(db)@, now),
        r is Ok ==> final(db)@ == old(db)@.remove_keys(arg_view(args@).to_set()),
{
    proof {
        lemma_del_removes(arg_view(args@), old(db)@, now);
    }
    arity(args, 1, None, "del")?;
    let ghost keys = arg_view(args@);
    let mut deleted: usize = 0;
    let mut i: usize = 0;
    while i < args.len()
        invariant
            i <= args@.len(),
            keys == arg_view(args@),
            del_spec(keys.take(i as int), old(db)@, now) == (deleted as int, db@),
            deleted <= i,
        decreases args@.len() - i,
    {
        let ghost before = db@;
        let removed = db.remove(args[i].as_slice());
        match removed {
            Some(entry) => {
                if !super::is_expired(&entry, now) {
                    deleted = deleted + 1;
                }
            },
            None => {},
        }
        i = i + 1;
        assert(keys.take(i as int).drop_last() =~= keys.take(i - 1));
        assert(keys.take(i as int).last() == args@[i - 1]@);
    }
    assert(keys.take(i as int) =~= keys);
    Ok(Value::Integer(deleted as i64))
}

/// How many of `keys` name a live entry; a key named twice counts twice.
pub open spec fn count_live(keys: Seq<Seq<u8>>, m: Map<Seq<u8>, EntryView>, now: u64) -> int
    decreases keys.len(),
{
    if keys.len() == 0 {
        0
    } else {
        count_live(keys.drop_last(), m, now) + if m.dom().contains(keys.last()) && live(
            m[keys.last()],
            now,
        ) {
            1int
        } else {
            0int
        }
    }
}

pub open spec fn exists_spec(args: Seq<Seq<u8>>, m: Map<Seq<u8>, EntryView>, now: u64) -> Result<
    RespValue,
    CmdErrorView,
> {
    if !arity_ok(args.len(), 1, None) {
        Err(CmdErrorView::WrongArity("exists"@))
    } else {
        Ok(RespValue::Integer(count_live(args, m, now) as i64))
    }
}

/// `EXISTS key [key ...]`: how many of the keys are live; duplicates count.
pub fn exists_keys(args: &[Vec<u8>], db: &Db, now: u64) -> (r: CmdResult)
    ensures
        reply_view(r) == exists_spec(arg_view(args@), db@, now),
{
    arity(args, 1, None, "exists")?;
    let ghost keys = arg_view(args@);
    let mut found: usize = 0;
    let mut i: usize = 0;
    while i < args.len()
        invariant
            i <= args@.len(),
            keys == arg_view(args@),
            count_live(keys.take(i as int), db@, now) == found as int,
            found <= i,
        decreases args@.len() - i,
    {
        let hit = match db.get(args[i].as_slice()) {
            Some(entry) => !super::is_expired(entry, now),
            None => false,
        };
        if hit {
            found = found + 1;
        }
        i = i + 1;
        assert(keys.take(i as int).drop_last() =~= keys.take(i - 1));
        assert(keys.take(i as int).last() == args@[i - 1]@);
    }
    assert(keys.take(i as int) =~= keys);
    Ok(Value::Integer(found as i64))
}

/// After `DEL key ...`, `GET` answers nil for each of the keys.
pub proof fn lemma_del_then_get(
    keys: Seq<Seq<u8>>,
    m: Map<Seq<u8>, EntryView>,
    now: u64,
    later: u64,
    i: int,
)
    requires
        0 <= i < keys.len(),
    ensures
        crate::commands::string::get_spec(seq![keys[i]], del_result(keys, m, now).1, later)
            == Ok::<RespValue, CmdErrorView>(RespValue::Null),
{
    lemma_del_removes(keys, m, now);
    assert(keys.to_set().contains(keys[i]));
}

/// The number of distinct keys that `del_spec` counts: those among `keys` that hold a
/// live entry in `m`, whatever its type.
proof fn lemma_del_spec_counts(keys: Seq<Seq<u8>>, m: Map<Seq<u8>, EntryView>, now: u64)
    ensures
        keys.to_set().finite(),
        del_spec(keys, m, now).0 == keys.to_set().filter(
            |k: Seq<u8>| m.dom().contains(k) && live(m[k], now),
        ).len(),
    decreases keys.len(),
{
    let f = |k: Seq<u8>| m.dom().contains(k) && live(m[k], now);
    vstd::seq_lib::seq_to_set_is_finite(keys);
    if keys.len() == 0 {
        assert(keys.to_set().filter(f) =~= Set::<Seq<u8>>::empty());
    } else {
        let front = keys.drop_last();
        let k = keys.last();
        lemma_del_spec_counts(front, m, now);
        lemma_del_removes(front, m, now);
        assert(front.push(k) =~= keys);
        front.lemma_push_to_set_commute(k);
        let fs = front.to_set().filter(f);
        front.to_set().lemma_len_filter(f);
        if front.to_set().contains(k) {
            assert(keys.to_set().filter(f) =~= fs);
        } else if f(k) {
            assert(keys.to_set().filter(f) =~= fs.insert(k));
        } else {
            assert(keys.to_set().filter(f) =~= fs);
        }
    }
}

/// `DEL key ...` replies how many distinct keys among its arguments held a live entry
/// (of any type) before it; `DEL` of `n` distinct live keys replies `n`.
pub proof fn lemma_del_reply(keys: Seq<Seq<u8>>, m: Map<Seq<u8>, EntryView>, now: u64)
    requires
        keys.len() >= 1,
    ensures
        del_result(keys, m, now).0 == Ok::<RespValue, CmdErrorView>(
            RespValue::Integer(
                keys.to_set().filter(|k: Seq<u8>| m.dom().contains(k) && live(m[k], now)).len()
                    as i64,
            ),
        ),
{
    lemma_del_spec_counts(keys, m, now);
}

/// `EXISTS key ...` replies how many of its arguments, counted with repeats, hold a
/// live entry of any type: the live string and list keys alike.
pub proof fn lemma_exists_reply(keys: Seq<Seq<u8>>, m: Map<Seq<u8>, EntryView>, now: u64)
    requires
        keys.len() >= 1,
    ensures
        exists_spec(keys, m, now) == Ok::<RespValue, CmdErrorView>(
            RespValue::Integer(
                keys.filter(|k: Seq<u8>| m.dom().contains(k) && live(m[k], now)).len() as i64,
            ),
        ),
{
    lemma_count_live_filter(keys, m, now);
}

proof fn lemma_count_live_filter(keys: Seq<Seq<u8>>, m: Map<Seq<u8>, EntryView>, now: u64)
    ensures
        count_live(keys, m, now) == keys.filter(
            |k: Seq<u8>| m.dom().contains(k) && live(m[k], now),
        ).len(),
    decreases keys.len(),
{
    reveal(Seq::filter);
    if keys.len() > 0 {
        lemma_count_live_filter(keys.drop_last(), m, now);
    }
}

} // verus!
