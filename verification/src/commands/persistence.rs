//! SAVE, and the dump that it writes and that startup reads back.
//!
//! The dump is RESP: one array of `[type, key, expires-at-ms, value...]` entries.
use std::collections::VecDeque;

use vstd::prelude::*;

use super::{
    arity, arity_ok, is_word, keys_unique, lemma_store_map_dom, list_view, live,
    not_before, store_map, unix_millis_to_instant, word, CmdError, CmdErrorView, Data, DataView,
    Db, Entry, EntryView,
};
use crate::resp::{
    all_bulk, bulk_contents, lemma_models, lemma_serialize_parse_roundtrip,
    lemma_truncated_incomplete, parse, parse_spec, resp_error_text, serialize, serialize_spec,
    wire_safe, wire_safe_items, RespError, RespValue, Value,
};

verus! {

/// Why a dump could not be read.
#[derive(Debug, Clone, Copy, PartialEq, Eq, Structural)]
pub enum DumpError {
    Parse(RespError),
    NotArray,
    EntryNotArray,
    MissingFields,
    TagKeyNotBulk,
    NegativeExpiry,
    BadExpiry,
    ValueNotBulk,
    StringArity,
    UnknownTag,
}

/// The reason a dump could not be read, in words.
pub open spec fn dump_error_text(e: DumpError) -> Seq<char> {
    match e {
        DumpError::Parse(p) => resp_error_text(p),
        DumpError::NotArray => "dump is not an array"@,
        DumpError::EntryNotArray => "dump entry is not an array"@,
        DumpError::MissingFields => "dump entry is missing its tag, key or expiry"@,
        DumpError::TagKeyNotBulk => "dump tag and key must be bulk strings"@,
        DumpError::NegativeExpiry => "dump expiry is negative"@,
        DumpError::BadExpiry => "dump expiry is neither an integer nor null"@,
        DumpError::ValueNotBulk => "dump value is not a bulk string"@,
        DumpError::StringArity => "a string entry must hold exactly one value"@,
        DumpError::UnknownTag => "unknown entry type tag"@,
    }
}

impl DumpError {
    /// The reason, in words.
    pub fn message(&self) -> (m: &'static str)
        ensures
            m@ == dump_error_text(*self),
    {
        match self {
            DumpError::Parse(e) => e.message(),
            DumpError::NotArray => "dump is not an array",
            DumpError::EntryNotArray => "dump entry is not an array",
            DumpError::MissingFields => "dump entry is missing its tag, key or expiry",
            DumpError::TagKeyNotBulk => "dump tag and key must be bulk strings",
            DumpError::NegativeExpiry => "dump expiry is negative",
            DumpError::BadExpiry => "dump expiry is neither an integer nor null",
            DumpError::ValueNotBulk => "dump value is not a bulk string",
            DumpError::StringArity => "a string entry must hold exactly one value",
            DumpError::UnknownTag => "unknown entry type tag",
        }
    }
}

/// The type tag of an entry.
pub open spec fn tag_of(d: DataView) -> Seq<u8> {
    match d {
        DataView::Str(_) => word("string"),
        DataView::List(_) => word("list"),
    }
}

/// The values an entry holds, as bulk strings.
pub open spec fn values_of(d: DataView) -> Seq<RespValue> {
    match d {
        DataView::Str(b) => seq![RespValue::Bulk(b)],
        DataView::List(l) => l.map_values(|b: Seq<u8>| RespValue::Bulk(b)),
    }
}

/// The deadline a dump records: RESP integers are `i64`, so a deadline past
/// `i64::MAX` milliseconds (some 292 million years after 1970) is written as
/// `i64::MAX`.
pub open spec fn dump_deadline(d: u64) -> i64 {
    if d <= i64::MAX {
        d as i64
    } else {
        i64::MAX
    }
}

/// How a deadline is written: Unix milliseconds, or null for none.
pub open spec fn expiry_value(e: Option<u64>) -> RespValue {
    match e {
        Some(d) => RespValue::Integer(dump_deadline(d)),
        None => RespValue::Null,
    }
}

/// One entry of the dump.
pub open spec fn encode_row(k: Seq<u8>, e: EntryView) -> RespValue {
    RespValue::Array(
        seq![RespValue::Bulk(tag_of(e.data)), RespValue::Bulk(k), expiry_value(e.expires_at)]
            + values_of(e.data),
    )
}

/// The dump entries of the rows that are live at `now`, in row order.
pub open spec fn encode_rows(rows: Seq<(Seq<u8>, EntryView)>, now: u64) -> Seq<RespValue>
    decreases rows.len(),
{
    if rows.len() == 0 {
        Seq::empty()
    } else {
        let front = encode_rows(rows.drop_last(), now);
        if live(rows.last().1, now) {
            front.push(encode_row(rows.last().0, rows.last().1))
        } else {
            front
        }
    }
}

/// The dump of a keyspace at `now`: expired entries are left out.
pub open spec fn encode_spec(rows: Seq<(Seq<u8>, EntryView)>, now: u64) -> RespValue {
    RespValue::Array(encode_rows(rows, now))
}

/// `es` lists the dump entries of keyspace `m` at `now`, in some order: one entry for
/// each key live at `now`, that key's [`encode_row`], and nothing else.
pub open spec fn is_dump_of(es: Seq<RespValue>, m: Map<Seq<u8>, EntryView>, now: u64) -> bool {
    &&& forall|j: int|
        #![trigger es[j]]
        0 <= j < es.len() ==> exists|k: Seq<u8>|
            m.dom().contains(k) && live(m[k], now) && es[j] == #[trigger] encode_row(k, m[k])
    &&& forall|k: Seq<u8>|
        #![trigger m.dom().contains(k)]
        m.dom().contains(k) && live(m[k], now) ==> exists|j: int|
            0 <= j < es.len() && #[trigger] es[j] == encode_row(k, m[k])
    &&& forall|i: int, j: int| 0 <= i < es.len() && 0 <= j < es.len() && i != j ==> es[i] != es[j]
}

/// An entry of the dump names its key.
proof fn lemma_encode_row_key(a: Seq<u8>, x: EntryView, b: Seq<u8>, y: EntryView)
    requires
        encode_row(a, x) == encode_row(b, y),
    ensures
        a == b,
{
    assert(encode_row(a, x)->Array_0[1] == RespValue::Bulk(a));
    assert(encode_row(b, y)->Array_0[1] == RespValue::Bulk(b));
}

/// The dump of rows with distinct keys lists each live key once, whatever their order.
pub proof fn lemma_encode_rows_dump(rows: Seq<(Seq<u8>, EntryView)>, now: u64)
    requires
        keys_unique(rows),
    ensures
        is_dump_of(encode_rows(rows, now), store_map(rows), now),
    decreases rows.len(),
{
    if rows.len() > 0 {
        let front = rows.drop_last();
        assert(keys_unique(front)) by {
            assert forall|a: int, b: int|
                0 <= a < front.len() && 0 <= b < front.len() && a != b implies front[a].0
                != front[b].0 by {
                assert(front[a] == rows[a] && front[b] == rows[b]);
            }
        }
        lemma_encode_rows_dump(front, now);
        let k = rows.last().0;
        let e = rows.last().1;
        let fm = store_map(front);
        let m = store_map(rows);
        let fes = encode_rows(front, now);
        let es = encode_rows(rows, now);
        lemma_store_map_dom(front, k);
        assert forall|j: int| 0 <= j < front.len() implies front[j].0 != k by {
            assert(front[j] == rows[j]);
        }
        assert(!fm.dom().contains(k));
        assert(m == fm.insert(k, e));
        assert forall|k2: Seq<u8>| fm.dom().contains(k2) implies k2 != k && m.dom().contains(k2)
            && m[k2] == fm[k2] by {}
        if live(e, now) {
            assert(es == fes.push(encode_row(k, e)));
            assert forall|j: int| #![trigger es[j]] 0 <= j < es.len() implies exists|k2: Seq<u8>|
                m.dom().contains(k2) && live(m[k2], now) && es[j] == #[trigger] encode_row(
                    k2,
                    m[k2],
                ) by {
                if j < fes.len() {
                    let k2 = choose|k2: Seq<u8>|
                        fm.dom().contains(k2) && live(fm[k2], now) && fes[j] == #[trigger] encode_row(
                            k2,
                            fm[k2],
                        );
                    assert(es[j] == encode_row(k2, m[k2]));
                } else {
                    assert(es[j] == encode_row(k, m[k]));
                }
            }
            assert forall|k2: Seq<u8>| #![trigger m.dom().contains(k2)] m.dom().contains(k2) && live(m[k2], now) implies exists|
                j: int,
            | 0 <= j < es.len() && #[trigger] es[j] == encode_row(k2, m[k2]) by {
                if k2 == k {
                    assert(es[fes.len() as int] == encode_row(k2, m[k2]));
                } else {
                    assert(fm.dom().contains(k2));
                    let j = choose|j: int| 0 <= j < fes.len() && #[trigger] fes[j] == encode_row(k2, fm[k2]);
                    assert(es[j] == encode_row(k2, m[k2]));
                }
            }
            assert forall|i: int, j: int|
                0 <= i < es.len() && 0 <= j < es.len() && i != j implies es[i] != es[j] by {
                if i < fes.len() && j < fes.len() {
                    assert(es[i] == fes[i] && es[j] == fes[j]);
                } else if i < fes.len() {
                    let k2 = choose|k2: Seq<u8>|
                        fm.dom().contains(k2) && live(fm[k2], now) && fes[i] == #[trigger] encode_row(
                            k2,
                            fm[k2],
                        );
                    if es[i] == es[j] {
                        lemma_encode_row_key(k2, fm[k2], k, e);
                    }
                } else if j < fes.len() {
                    let k2 = choose|k2: Seq<u8>|
                        fm.dom().contains(k2) && live(fm[k2], now) && fes[j] == #[trigger] encode_row(
                            k2,
                            fm[k2],
                        );
                    if es[i] == es[j] {
                        lemma_encode_row_key(k2, fm[k2], k, e);
                    }
                }
            }
        } else {
            assert(es == fes);
            assert forall|j: int| #![trigger es[j]] 0 <= j < es.len() implies exists|k2: Seq<u8>|
                m.dom().contains(k2) && live(m[k2], now) && es[j] == #[trigger] encode_row(
                    k2,
                    m[k2],
                ) by {
                let k2 = choose|k2: Seq<u8>|
                    fm.dom().contains(k2) && live(fm[k2], now) && fes[j] == #[trigger] encode_row(
                        k2,
                        fm[k2],
                    );
                assert(es[j] == encode_row(k2, m[k2]));
            }
            assert forall|k2: Seq<u8>| #![trigger m.dom().contains(k2)] m.dom().contains(k2) && live(m[k2], now) implies exists|
                j: int,
            | 0 <= j < es.len() && #[trigger] es[j] == encode_row(k2, m[k2]) by {
                assert(k2 != k);
                assert(fm.dom().contains(k2));
                let j = choose|j: int| 0 <= j < fes.len() && #[trigger] fes[j] == encode_row(k2, fm[k2]);
                assert(es[j] == encode_row(k2, m[k2]));
            }
        }
    }
}

fn bulk_of(bytes: &Vec<u8>) -> (v: Value)
    ensures
        v@ == RespValue::Bulk(bytes@),
{
    let copy = bytes.clone();
    assert(copy@ == bytes@);
    Value::BulkString(copy)
}

fn tag_value(d: &Data) -> (v: Value)
    ensures
        v@ == RespValue::Bulk(tag_of(d@)),
{
    let tag: &str = match d {
        Data::String(_) => "string",
        Data::List(_) => "list",
    };
    let mut bytes: Vec<u8> = Vec::new();
    crate::resp::append_bytes(&mut bytes, tag.as_bytes());
    assert(bytes@ =~= tag_of(d@));
    Value::BulkString(bytes)
}

fn encode_entry(key: &Vec<u8>, entry: &Entry) -> (v: Value)
    ensures
        v@ == encode_row(key@, entry@),
{
    let mut fields: Vec<Value> = Vec::new();
    fields.push(tag_value(&entry.value));
    fields.push(bulk_of(key));
    // Deadlines go out as Unix milliseconds, which the next process can read.
    fields.push(
        match entry.expires_at {
            Some(deadline) => Value::Integer(
                if deadline <= 9223372036854775807u64 {
                    deadline as i64
                } else {
                    9223372036854775807i64
                },
            ),
            None => Value::Null,
        },
    );
    let ghost head = Value::models(fields@);
    proof {
        lemma_models(fields@);
        assert(head =~= seq![
            RespValue::Bulk(tag_of(entry@.data)),
            RespValue::Bulk(key@),
            expiry_value(entry.expires_at),
        ]);
    }
    match &entry.value {
        Data::String(bytes) => {
            let ghost before = fields@;
            fields.push(bulk_of(bytes));
            proof {
                assert(fields@.drop_last() =~= before);
                assert(Value::models(fields@) == head.push(RespValue::Bulk(bytes@)));
            }
        },
        Data::List(list) => {
            let ghost l = list_view(list@);
            let n = list.len();
            let mut i: usize = 0;
            while i < n
                invariant
                    n == list@.len(),
                    i <= n,
                    l == list_view(list@),
                    Value::models(fields@) == head + l.take(i as int).map_values(
                        |b: Seq<u8>| RespValue::Bulk(b),
                    ),
                decreases n - i,
            {
                let ghost before = fields@;
                fields.push(bulk_of(&list[i]));
                i = i + 1;
                proof {
                    assert(fields@.drop_last() =~= before);
                    assert(head + l.take(i as int).map_values(|b: Seq<u8>| RespValue::Bulk(b))
                        =~= (head + l.take(i - 1).map_values(|b: Seq<u8>| RespValue::Bulk(b))).push(
                        RespValue::Bulk(l[i - 1]),
                    ));
                }
            }
            assert(l.take(i as int) =~= l);
        },
    }
    proof {
        assert(Value::models(fields@) =~= head + values_of(entry@.data));
    }
    Value::Array(fields)
}

/// The dump of the keyspace at `now`: an array with one entry per live key, in storage
/// order.
pub fn encode(db: &Db, now: u64) -> (v: Value)
    ensures
        v@ == encode_spec(db.rows(), now),
        v@ is Array,
        is_dump_of(v@->Array_0, db@, now),
{
    proof {
        use_type_invariant(db);
        lemma_encode_rows_dump(db.rows(), now);
    }
    let mut entries: Vec<Value> = Vec::new();
    let n = db.len();
    let mut i: usize = 0;
    while i < n
        invariant
            n == db.rows().len(),
            i <= n,
            Value::models(entries@) == encode_rows(db.rows().take(i as int), now),
        decreases n - i,
    {
        let (key, entry) = db.row(i);
        let ghost before = entries@;
        let ghost taken = db.rows().take(i + 1);
        proof {
            assert(taken.drop_last() =~= db.rows().take(i as int));
            assert(taken.last() == db.rows()[i as int]);
        }
        if !super::is_expired(entry, now) {
            entries.push(encode_entry(key, entry));
            proof {
                assert(entries@.drop_last() =~= before);
            }
        }
        i = i + 1;
    }
    assert(db.rows().take(i as int) =~= db.rows());
    Value::Array(entries)
}

pub open spec fn save_spec(args: Seq<Seq<u8>>, rows: Seq<(Seq<u8>, EntryView)>, now: u64) -> Result<
    Seq<u8>,
    CmdErrorView,
> {
    if !arity_ok(args.len(), 0, Some(0)) {
        Err(CmdErrorView::WrongArity("save"@))
    } else {
        Ok(serialize_spec(encode_spec(rows, now)))
    }
}

/// `SAVE`: the bytes of the dump, for the caller to write to disk.
pub fn save(args: &[Vec<u8>], db: &Db, now: u64) -> (r: Result<Vec<u8>, CmdError>)
    ensures
        match r {
            Ok(bytes) => save_spec(super::arg_view(args@), db.rows(), now) == Ok::<
                Seq<u8>,
                CmdErrorView,
            >(bytes@),
            Err(e) => save_spec(super::arg_view(args@), db.rows(), now) == Err::<
                Seq<u8>,
                CmdErrorView,
            >(e@),
        },
        r is Ok ==> is_dump_of(encode_rows(db.rows(), now), db@, now),
{
    arity(args, 0, Some(0), "save")?;
    Ok(serialize(&encode(db, now)))
}

/// The deadline a dump expiry gives: null is none; a moment already past collapses to
/// now, so a key whose time ran out meanwhile reloads as expired.
pub open spec fn decode_expiry(v: RespValue, now: u64) -> Result<Option<u64>, DumpError> {
    match v {
        RespValue::Null => Ok(None),
        RespValue::Integer(ms) => if ms < 0 {
            Err(DumpError::NegativeExpiry)
        } else {
            Ok(Some(not_before(ms as int, now) as u64))
        },
        _ => Err(DumpError::BadExpiry),
    }
}

/// What one dump entry restores: its key and entry, or why it cannot.
pub open spec fn decode_entry_spec(v: RespValue, now: u64) -> Result<
    (Seq<u8>, EntryView),
    DumpError,
> {
    match v {
        RespValue::Array(fields) => if fields.len() < 3 {
            Err(DumpError::MissingFields)
        } else if !(fields[0] is Bulk && fields[1] is Bulk) {
            Err(DumpError::TagKeyNotBulk)
        } else {
            let tag = fields[0]->Bulk_0;
            let key = fields[1]->Bulk_0;
            match decode_expiry(fields[2], now) {
                Err(e) => Err(e),
                Ok(expires_at) => {
                    let values = fields.skip(3);
                    if !all_bulk(values) {
                        Err(DumpError::ValueNotBulk)
                    } else {
                        let items = bulk_contents(values);
                        if tag == word("string") {
                            if items.len() == 1 {
                                Ok((key, EntryView { data: DataView::Str(items[0]), expires_at }))
                            } else {
                                Err(DumpError::StringArity)
                            }
                        } else if tag == word("list") {
                            Ok((key, EntryView { data: DataView::List(items), expires_at }))
                        } else {
                            Err(DumpError::UnknownTag)
                        }
                    }
                },
            }
        },
        _ => Err(DumpError::EntryNotArray),
    }
}

/// The keyspace that a sequence of dump entries restores, each entry in turn; the
/// first bad entry is the error.
pub open spec fn decode_rows(entries: Seq<RespValue>, now: u64) -> Result<
    Map<Seq<u8>, EntryView>,
    DumpError,
>
    decreases entries.len(),
{
    if entries.len() == 0 {
        Ok(Map::empty())
    } else {
        match decode_rows(entries.drop_last(), now) {
            Err(e) => Err(e),
            Ok(m) => match decode_entry_spec(entries.last(), now) {
                Err(e) => Err(e),
                Ok((k, e)) => Ok(m.insert(k, e)),
            },
        }
    }
}

/// The keyspace that a parsed dump restores.
pub open spec fn decode_spec(v: RespValue, now: u64) -> Result<Map<Seq<u8>, EntryView>, DumpError> {
    match v {
        RespValue::Array(entries) => decode_rows(entries, now),
        _ => Err(DumpError::NotArray),
    }
}

#[verifier::loop_isolation(false)]
fn decode_entry(v: &Value, now: u64) -> (r: Result<(Vec<u8>, Entry), DumpError>)
    ensures
        match r {
            Ok((k, e)) => decode_entry_spec(v@, now) == Ok::<(Seq<u8>, EntryView), DumpError>(
                (k@, e@),
            ),
            Err(e) => decode_entry_spec(v@, now) == Err::<(Seq<u8>, EntryView), DumpError>(e),
        },
{
    let fields = match v {
        Value::Array(fields) => fields,
        _ => {
            return Err(DumpError::EntryNotArray);
        },
    };
    proof {
        lemma_models(fields@);
    }
    let ghost fs = Value::models(fields@);
    if fields.len() < 3 {
        return Err(DumpError::MissingFields);
    }
    let (tag, key) = match (&fields[0], &fields[1]) {
        (Value::BulkString(tag), Value::BulkString(key)) => (tag, key),
        _ => {
            return Err(DumpError::TagKeyNotBulk);
        },
    };
    let expires_at = match &fields[2] {
        Value::Null => None,
        Value::Integer(ms) => {
            if *ms < 0 {
                return Err(DumpError::NegativeExpiry);
            }
            Some(unix_millis_to_instant(*ms as u64, now))
        },
        _ => {
            return Err(DumpError::BadExpiry);
        },
    };
    let ghost values = fs.skip(3);
    let mut items: Vec<Vec<u8>> = Vec::new();
    let mut i: usize = 3;
    while i < fields.len()
        invariant
            3 <= i <= fields@.len(),
            fs == Value::models(fields@),
            fs.len() == fields@.len(),
            forall|j: int| 0 <= j < fields@.len() ==> #[trigger] fs[j] == fields@[j]@,
            values == fs.skip(3),
            all_bulk(values.take(i - 3)),
            list_view(items@) == bulk_contents(values.take(i - 3)),
        decreases fields@.len() - i,
    {
        match &fields[i] {
            Value::BulkString(bytes) => {
                let ghost before = items@;
                let copy = bytes.clone();
                assert(copy@ == bytes@);
                items.push(copy);
                i = i + 1;
                proof {
                    assert(values.take(i - 3).drop_last() =~= values.take(i - 4));
                    assert(values.take(i - 3).last() == fs[i - 1]);
                    assert(list_view(items@) =~= list_view(before).push(bytes@));
                    assert(bulk_contents(values.take(i - 3)) =~= bulk_contents(values.take(i - 4)).push(bytes@));
                    assert forall|j: int| 0 <= j < values.take(i - 3).len() implies #[trigger] values.take(i - 3)[j] is Bulk by {
                        if j < i - 4 {
                            assert(values.take(i - 3)[j] == values.take(i - 4)[j]);
                        }
                    }
                }
            },
            _ => {
                assert(values[i - 3] == fs[i as int]);
                return Err(DumpError::ValueNotBulk);
            },
        }
    }
    assert(values.take(i - 3) =~= values);
    let key_copy = key.clone();
    assert(key_copy@ == key@);
    if is_word(tag.as_slice(), "string") {
        if items.len() == 1 {
            let value = items.pop().unwrap();
            return Ok((key_copy, Entry { value: Data::String(value), expires_at }));
        }
        Err(DumpError::StringArity)
    } else if is_word(tag.as_slice(), "list") {
        let mut list: VecDeque<Vec<u8>> = VecDeque::new();
        let mut j: usize = 0;
        while j < items.len()
            invariant
                j <= items@.len(),
                list_view(list@) == list_view(items@).take(j as int),
            decreases items@.len() - j,
        {
            let copy = items[j].clone();
            assert(copy@ == items@[j as int]@);
            let ghost before = list@;
            list.push_back(copy);
            assert(list_view(list@) =~= list_view(before).push(copy@));
            j = j + 1;
            assert(list_view(list@) =~= list_view(items@).take(j as int));
        }
        assert(list_view(items@).take(j as int) =~= list_view(items@));
        Ok((key_copy, Entry { value: Data::List(list), expires_at }))
    } else {
        Err(DumpError::UnknownTag)
    }
}

/// Rebuilds a keyspace from a parsed dump.
#[verifier::loop_isolation(false)]
pub fn decode(value: &Value, now: u64) -> (r: Result<Db, DumpError>)
    ensures
        match r {
            Ok(db) => decode_spec(value@, now) == Ok::<
                Map<Seq<u8>, EntryView>,
                DumpError,
            >(db@),
            Err(e) => decode_spec(value@, now) == Err::<Map<Seq<u8>, EntryView>, DumpError>(e),
        },
{
    let entries = match value {
        Value::Array(entries) => entries,
        _ => {
            return Err(DumpError::NotArray);
        },
    };
    proof {
        lemma_models(entries@);
    }
    let ghost es = Value::models(entries@);
    let mut store = Db::new();
    let mut i: usize = 0;
    while i < entries.len()
        invariant
            i <= entries@.len(),
            es == Value::models(entries@),
            es.len() == entries@.len(),
            forall|j: int| 0 <= j < entries@.len() ==> #[trigger] es[j] == entries@[j]@,
            decode_rows(es.take(i as int), now) == Ok::<Map<Seq<u8>, EntryView>, DumpError>(
                store@,
            ),
        decreases entries@.len() - i,
    {
        proof {
            assert(es.take(i + 1).drop_last() =~= es.take(i as int));
            assert(es.take(i + 1).last() == es[i as int]);
        }
        match decode_entry(&entries[i], now) {
            Ok((key, entry)) => {
                store.insert(key, entry);
            },
            Err(e) => {
                proof {
                    assert(decode_rows(es.take(i + 1), now) == Err::<
                        Map<Seq<u8>, EntryView>,
                        DumpError,
                    >(e));
                    lemma_decode_rows_err_extends(es, i + 1, now);
                    assert(es.take(es.len() as int) =~= es);
                }
                return Err(e);
            },
        }
        i = i + 1;
    }
    assert(es.take(i as int) =~= es);
    Ok(store)
}

/// Once a prefix of the entries fails, so do all longer prefixes, with the same error.
proof fn lemma_decode_rows_err_extends(es: Seq<RespValue>, i: int, now: u64)
    requires
        0 <= i <= es.len(),
        decode_rows(es.take(i), now) is Err,
    ensures
        decode_rows(es.take(es.len() as int), now) == decode_rows(es.take(i), now),
    decreases es.len() - i,
{
    if i < es.len() {
        assert(es.take(i + 1).drop_last() =~= es.take(i));
        lemma_decode_rows_err_extends(es, i + 1, now);
    }
}

pub open spec fn load_spec(bytes: Seq<u8>, now: u64) -> Result<Map<Seq<u8>, EntryView>, DumpError> {
    match parse_spec(bytes) {
        Err(e) => Err(DumpError::Parse(e)),
        Ok((v, _)) => decode_spec(v, now),
    }
}

/// Rebuilds the keyspace from the bytes of a dump: one RESP value, decoded.
pub fn load(dump: &[u8], now: u64) -> (r: Result<Db, DumpError>)
    ensures
        match r {
            Ok(db) => load_spec(dump@, now) == Ok::<
                Map<Seq<u8>, EntryView>,
                DumpError,
            >(db@),
            Err(e) => load_spec(dump@, now) == Err::<Map<Seq<u8>, EntryView>, DumpError>(e),
        },
{
    match parse(dump) {
        Err(e) => Err(DumpError::Parse(e)),
        Ok((v, _)) => decode(&v, now),
    }
}

/// The two type tags differ.
proof fn lemma_tags_differ()
    ensures
        word("string") != word("list"),
        word("string").len() == 6,
        word("list").len() == 4,
{
    reveal_strlit("string");
    reveal_strlit("list");
    assert(vstd::utf8::is_ascii_chars("string"@));
    assert(vstd::utf8::is_ascii_chars("list"@));
    vstd::utf8::is_ascii_chars_encode_utf8("string"@);
    vstd::utf8::is_ascii_chars_encode_utf8("list"@);
}

/// The keyspace rows whose dump the RESP encoding carries through a parse: every key
/// and value length and list length fits in an `i64`.
pub open spec fn dump_safe(rows: Seq<(Seq<u8>, EntryView)>) -> bool {
    &&& rows.len() <= i64::MAX
    &&& forall|i: int| 0 <= i < rows.len() ==> row_fits(#[trigger] rows[i])
}

pub open spec fn row_fits(row: (Seq<u8>, EntryView)) -> bool {
    &&& row.0.len() <= i64::MAX
    &&& match row.1.data {
        DataView::Str(b) => b.len() <= i64::MAX,
        DataView::List(l) => l.len() + 3 <= i64::MAX && forall|j: int|
            0 <= j < l.len() ==> #[trigger] l[j].len() <= i64::MAX,
    }
}

proof fn lemma_wire_safe_items_all(items: Seq<RespValue>)
    requires
        forall|i: int| 0 <= i < items.len() ==> wire_safe(#[trigger] items[i]),
    ensures
        wire_safe_items(items),
    decreases items.len(),
{
    if items.len() > 0 {
        assert forall|i: int| 0 <= i < items.drop_first().len() implies wire_safe(
            #[trigger] items.drop_first()[i],
        ) by {
            assert(items.drop_first()[i] == items[i + 1]);
        }
        lemma_wire_safe_items_all(items.drop_first());
    }
}

proof fn lemma_encode_row_safe(row: (Seq<u8>, EntryView))
    requires
        row_fits(row),
    ensures
        wire_safe(encode_row(row.0, row.1)),
{
    lemma_tags_differ();
    let fields = seq![
        RespValue::Bulk(tag_of(row.1.data)),
        RespValue::Bulk(row.0),
        expiry_value(row.1.expires_at),
    ] + values_of(row.1.data);
    assert forall|i: int| 0 <= i < fields.len() implies wire_safe(#[trigger] fields[i]) by {
        if i >= 3 {
            assert(fields[i] == values_of(row.1.data)[i - 3]);
        }
    }
    lemma_wire_safe_items_all(fields);
}

proof fn lemma_encode_rows_safe(rows: Seq<(Seq<u8>, EntryView)>, now: u64)
    requires
        forall|i: int| 0 <= i < rows.len() ==> row_fits(#[trigger] rows[i]),
    ensures
        encode_rows(rows, now).len() <= rows.len(),
        forall|i: int|
            0 <= i < encode_rows(rows, now).len() ==> wire_safe(#[trigger] encode_rows(rows, now)[i]),
    decreases rows.len(),
{
    if rows.len() > 0 {
        let front = rows.drop_last();
        assert forall|i: int| 0 <= i < front.len() implies row_fits(#[trigger] front[i]) by {
            assert(front[i] == rows[i]);
        }
        lemma_encode_rows_safe(front, now);
        lemma_encode_row_safe(rows.last());
    }
}

/// What a live entry is once dumped and loaded back at `now`: the same value, and the
/// deadline the dump records (its own, unless it lies past `i64::MAX` milliseconds).
pub open spec fn reloaded(e: EntryView, now: u64) -> EntryView {
    EntryView {
        data: e.data,
        expires_at: match e.expires_at {
            Some(d) => Some(not_before(dump_deadline(d) as int, now) as u64),
            None => None,
        },
    }
}

/// The keyspace that a dump of `m` taken at `now` loads back as at `now`: the live keys,
/// each [`reloaded`].
pub open spec fn reloaded_map(m: Map<Seq<u8>, EntryView>, now: u64) -> Map<Seq<u8>, EntryView> {
    Map::new(|k: Seq<u8>| m.dom().contains(k) && live(m[k], now), |k: Seq<u8>| reloaded(m[k], now))
}

/// A live entry whose deadline the dump can hold reloads as itself.
pub proof fn lemma_reloaded_exact(e: EntryView, now: u64)
    requires
        live(e, now),
        e.expires_at matches Some(d) ==> d <= i64::MAX,
    ensures
        reloaded(e, now) == e,
{
}

/// What a keyspace's live rows restore to: each live row sets its key, in row order.
pub open spec fn live_rows_map(rows: Seq<(Seq<u8>, EntryView)>, now: u64) -> Map<
    Seq<u8>,
    EntryView,
>
    decreases rows.len(),
{
    if rows.len() == 0 {
        Map::empty()
    } else if live(rows.last().1, now) {
        live_rows_map(rows.drop_last(), now).insert(rows.last().0, reloaded(rows.last().1, now))
    } else {
        live_rows_map(rows.drop_last(), now)
    }
}

proof fn lemma_decode_encode_row(k: Seq<u8>, e: EntryView, now: u64)
    requires
        live(e, now),
    ensures
        decode_entry_spec(encode_row(k, e), now) == Ok::<(Seq<u8>, EntryView), DumpError>(
            (k, reloaded(e, now)),
        ),
{
    lemma_tags_differ();
    let fields = seq![
        RespValue::Bulk(tag_of(e.data)),
        RespValue::Bulk(k),
        expiry_value(e.expires_at),
    ] + values_of(e.data);
    let values = fields.skip(3);
    assert(values =~= values_of(e.data));
    match e.data {
        DataView::Str(b) => {
            assert(bulk_contents(values) =~= seq![b]);
        },
        DataView::List(l) => {
            assert(bulk_contents(values) =~= l);
        },
    }
}

proof fn lemma_decode_encode_rows(rows: Seq<(Seq<u8>, EntryView)>, now: u64)
    ensures
        decode_rows(encode_rows(rows, now), now) == Ok::<Map<Seq<u8>, EntryView>, DumpError>(
            live_rows_map(rows, now),
        ),
    decreases rows.len(),
{
    if rows.len() > 0 {
        let front = rows.drop_last();
        lemma_decode_encode_rows(front, now);
        if live(rows.last().1, now) {
            let es = encode_rows(rows, now);
            assert(es.drop_last() =~= encode_rows(front, now));
            lemma_decode_encode_row(rows.last().0, rows.last().1, now);
        }
    }
}

proof fn lemma_live_rows_map(rows: Seq<(Seq<u8>, EntryView)>, now: u64)
    requires
        keys_unique(rows),
    ensures
        live_rows_map(rows, now) == reloaded_map(store_map(rows), now),
    decreases rows.len(),
{
    if rows.len() > 0 {
        let front = rows.drop_last();
        assert(keys_unique(front)) by {
            assert forall|a: int, b: int|
                0 <= a < front.len() && 0 <= b < front.len() && a != b implies front[a].0
                != front[b].0 by {
                assert(front[a] == rows[a] && front[b] == rows[b]);
            }
        }
        lemma_live_rows_map(front, now);
        let k = rows.last().0;
        lemma_store_map_dom(front, k);
        assert forall|j: int| 0 <= j < front.len() implies front[j].0 != k by {
            assert(front[j] == rows[j]);
        }
        assert(live_rows_map(rows, now) =~= reloaded_map(store_map(rows), now));
    }
}

/// Decoding a dump gives back the keyspace it was taken of: the entries that were live
/// at `now`, each [`reloaded`], and no others.
pub proof fn lemma_decode_encode(rows: Seq<(Seq<u8>, EntryView)>, now: u64)
    requires
        keys_unique(rows),
    ensures
        decode_spec(encode_spec(rows, now), now) == Ok::<Map<Seq<u8>, EntryView>, DumpError>(
            reloaded_map(store_map(rows), now),
        ),
{
    lemma_decode_encode_rows(rows, now);
    lemma_live_rows_map(rows, now);
}

/// Saving and loading give back the keyspace: the bytes that `SAVE` writes at `now`
/// load, at the same `now` and whatever follows them, into exactly the entries that were
/// live, deadlines included (see [`reloaded`]).
pub proof fn lemma_dump_roundtrip(rows: Seq<(Seq<u8>, EntryView)>, now: u64, rest: Seq<u8>)
    requires
        keys_unique(rows),
        dump_safe(rows),
    ensures
        load_spec(serialize_spec(encode_spec(rows, now)) + rest, now) == Ok::<
            Map<Seq<u8>, EntryView>,
            DumpError,
        >(reloaded_map(store_map(rows), now)),
{
    lemma_encode_rows_safe(rows, now);
    lemma_wire_safe_items_all(encode_rows(rows, now));
    lemma_serialize_parse_roundtrip(encode_spec(rows, now), rest);
    lemma_decode_encode(rows, now);
}

/// A dump cut short anywhere does not load: the load fails, reporting an incomplete
/// value, and restores nothing.
pub proof fn lemma_truncated_dump_fails(rows: Seq<(Seq<u8>, EntryView)>, now: u64, p: int)
    requires
        dump_safe(rows),
        0 <= p < serialize_spec(encode_spec(rows, now)).len(),
    ensures
        load_spec(serialize_spec(encode_spec(rows, now)).take(p), now) == Err::<
            Map<Seq<u8>, EntryView>,
            DumpError,
        >(DumpError::Parse(RespError::Incomplete)),
{
    lemma_encode_rows_safe(rows, now);
    lemma_wire_safe_items_all(encode_rows(rows, now));
    lemma_truncated_incomplete(encode_spec(rows, now), p);
}

/// A dump entry whose deadline passed before the load comes back already expired: it
/// is live at no later moment.
pub proof fn lemma_elapsed_deadline_reloads_expired(v: RespValue, now: u64, later: u64)
    requires
        decode_entry_spec(v, now) is Ok,
        v->Array_0[2] matches RespValue::Integer(ms) && ms < now,
        now < later,
    ensures
        !live(decode_entry_spec(v, now)->Ok_0.1, later),
{
}

} // verus!
