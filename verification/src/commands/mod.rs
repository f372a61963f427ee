//! The keyspace and the command dispatcher.
use std::borrow::Cow;
use std::collections::VecDeque;

use vstd::prelude::*;
use vstd::string::*;
use vstd::utf8::{decode_utf8, valid_utf8};

use crate::resp::{all_bulk, bulk_contents, lemma_models, serialize_spec, RespValue, Value};

use self::generic::{del_result, echo_spec, exists_spec, ping_spec};
use self::list::{lrange_spec, push_spec, Side};
use self::persistence::save_spec;
use self::string::{get_spec, incr_spec, set_spec};

pub mod generic;
pub mod list;
pub mod persistence;
pub mod string;

verus! {

/// What a key holds. Keys are typed: every command that reads a value decides what to
/// do when it finds the wrong kind (see `CmdError::WrongType`).
#[derive(Debug, PartialEq)]
pub enum Data {
    String(Vec<u8>),
    List(VecDeque<Vec<u8>>),
}

/// A stored value and its deadline, in Unix milliseconds.
#[derive(Debug, PartialEq)]
pub struct Entry {
    pub value: Data,
    pub expires_at: Option<u64>,
}

/// The model of [`Data`].
pub enum DataView {
    Str(Seq<u8>),
    List(Seq<Seq<u8>>),
}

/// The model of [`Entry`].
pub struct EntryView {
    pub data: DataView,
    pub expires_at: Option<u64>,
}

pub open spec fn list_view(l: Seq<Vec<u8>>) -> Seq<Seq<u8>> {
    l.map_values(|v: Vec<u8>| v@)
}

impl View for Data {
    type V = DataView;

    open spec fn view(&self) -> DataView {
        match self {
            Data::String(b) => DataView::Str(b@),
            Data::List(l) => DataView::List(list_view(l@)),
        }
    }
}

impl View for Entry {
    type V = EntryView;

    open spec fn view(&self) -> EntryView {
        EntryView { data: self.value@, expires_at: self.expires_at }
    }
}

/// An entry is live at `now` unless its deadline lies before `now`.
pub open spec fn live(e: EntryView, now: u64) -> bool {
    match e.expires_at {
        Some(deadline) => now <= deadline,
        None => true,
    }
}

/// The map that a sequence of rows denotes: each row sets its key, later rows win.
pub open spec fn store_map(rows: Seq<(Seq<u8>, EntryView)>) -> Map<Seq<u8>, EntryView>
    decreases rows.len(),
{
    if rows.len() == 0 {
        Map::empty()
    } else {
        store_map(rows.drop_last()).insert(rows.last().0, rows.last().1)
    }
}

/// No key occurs in two rows.
pub open spec fn keys_unique(rows: Seq<(Seq<u8>, EntryView)>) -> bool {
    forall|i: int, j: int|
        0 <= i < rows.len() && 0 <= j < rows.len() && i != j ==> rows[i].0 != rows[j].0
}

pub proof fn lemma_store_map_dom(rows: Seq<(Seq<u8>, EntryView)>, k: Seq<u8>)
    ensures
        store_map(rows).dom().contains(k) <==> exists|i: int| 0 <= i < rows.len() && rows[i].0 == k,
    decreases rows.len(),
{
    if rows.len() > 0 {
        lemma_store_map_dom(rows.drop_last(), k);
        if store_map(rows.drop_last()).dom().contains(k) {
            let i = choose|i: int| 0 <= i < rows.drop_last().len() && rows.drop_last()[i].0 == k;
            assert(rows[i].0 == k);
        }
        if exists|i: int| 0 <= i < rows.len() && rows[i].0 == k {
            let i = choose|i: int| 0 <= i < rows.len() && rows[i].0 == k;
            if i < rows.len() - 1 {
                assert(rows.drop_last()[i].0 == k);
            }
        }
    }
}

pub proof fn lemma_store_map_at(rows: Seq<(Seq<u8>, EntryView)>, i: int)
    requires
        keys_unique(rows),
        0 <= i < rows.len(),
    ensures
        store_map(rows).dom().contains(rows[i].0),
        store_map(rows)[rows[i].0] == rows[i].1,
    decreases rows.len(),
{
    lemma_store_map_dom(rows, rows[i].0);
    if i < rows.len() - 1 {
        let front = rows.drop_last();
        assert(front[i] == rows[i]);
        assert(keys_unique(front)) by {
            assert forall|a: int, b: int|
                0 <= a < front.len() && 0 <= b < front.len() && a != b implies front[a].0
                != front[b].0 by {
                assert(front[a] == rows[a] && front[b] == rows[b]);
            }
        }
        lemma_store_map_at(front, i);
        assert(rows.last() == rows[rows.len() - 1]);
    }
}

proof fn lemma_keys_unique_drop_last(rows: Seq<(Seq<u8>, EntryView)>)
    requires
        keys_unique(rows),
        rows.len() > 0,
    ensures
        keys_unique(rows.drop_last()),
{
    let front = rows.drop_last();
    assert forall|a: int, b: int|
        0 <= a < front.len() && 0 <= b < front.len() && a != b implies front[a].0
        != front[b].0 by {
        assert(front[a] == rows[a] && front[b] == rows[b]);
    }
}

pub proof fn lemma_store_map_update(rows: Seq<(Seq<u8>, EntryView)>, i: int, e: EntryView)
    requires
        keys_unique(rows),
        0 <= i < rows.len(),
    ensures
        keys_unique(rows.update(i, (rows[i].0, e))),
        store_map(rows.update(i, (rows[i].0, e))) == store_map(rows).insert(rows[i].0, e),
    decreases rows.len(),
{
    let k = rows[i].0;
    let new_rows = rows.update(i, (k, e));
    assert(keys_unique(new_rows)) by {
        assert forall|a: int, b: int|
            0 <= a < new_rows.len() && 0 <= b < new_rows.len() && a != b implies new_rows[a].0
            != new_rows[b].0 by {
            assert(new_rows[a].0 == rows[a].0 && new_rows[b].0 == rows[b].0);
        }
    }
    lemma_keys_unique_drop_last(rows);
    if i == rows.len() - 1 {
        assert(new_rows.drop_last() =~= rows.drop_last());
        assert(store_map(new_rows) =~= store_map(rows).insert(k, e));
    } else {
        lemma_store_map_update(rows.drop_last(), i, e);
        assert(new_rows.drop_last() =~= rows.drop_last().update(i, (k, e)));
        assert(rows.last().0 != k);
        assert(store_map(new_rows) =~= store_map(rows).insert(k, e));
    }
}

pub proof fn lemma_store_map_remove(rows: Seq<(Seq<u8>, EntryView)>, i: int)
    requires
        keys_unique(rows),
        0 <= i < rows.len(),
    ensures
        keys_unique(rows.remove(i)),
        store_map(rows.remove(i)) == store_map(rows).remove(rows[i].0),
    decreases rows.len(),
{
    let k = rows[i].0;
    let new_rows = rows.remove(i);
    assert(keys_unique(new_rows)) by {
        assert forall|a: int, b: int|
            0 <= a < new_rows.len() && 0 <= b < new_rows.len() && a != b implies new_rows[a].0
            != new_rows[b].0 by {
            let a2 = if a < i { a } else { a + 1 };
            let b2 = if b < i { b } else { b + 1 };
            assert(new_rows[a] == rows[a2] && new_rows[b] == rows[b2]);
        }
    }
    lemma_keys_unique_drop_last(rows);
    if i == rows.len() - 1 {
        assert(new_rows =~= rows.drop_last());
        lemma_store_map_dom(rows.drop_last(), k);
        assert forall|j: int| 0 <= j < rows.drop_last().len() implies rows.drop_last()[j].0 != k by {
            assert(rows.drop_last()[j] == rows[j]);
        }
        assert(store_map(new_rows) =~= store_map(rows).remove(k));
    } else {
        lemma_store_map_remove(rows.drop_last(), i);
        assert(new_rows.drop_last() =~= rows.drop_last().remove(i));
        assert(new_rows.last() == rows.last());
        assert(rows.last().0 != k);
        assert(store_map(new_rows) =~= store_map(rows).remove(k));
    }
}

/// The keyspace: each key at most once, with its entry.
///
/// The rows live in a `Vec` and a lookup walks them in turn. A `HashMap` keyed by byte
/// strings would find a key faster, but vstd describes a hash map's contents only for
/// keys that it knows to hash in step with `==` (integers, `bool`, and boxes of them),
/// and `Vec<u8>` is not among them, so no lookup in such a map could be proved. What
/// the map would give for free, that no key is stored twice, is [`Db::wf`].
pub struct Db {
    entries: Vec<(Vec<u8>, Entry)>,
}

/// The keys and entry models of stored rows, in storage order.
pub open spec fn rows_of(entries: Seq<(Vec<u8>, Entry)>) -> Seq<(Seq<u8>, EntryView)> {
    entries.map_values(|p: (Vec<u8>, Entry)| (p.0@, p.1@))
}

impl Db {
    /// The rows in storage order, as keys and entry models.
    pub closed spec fn rows(&self) -> Seq<(Seq<u8>, EntryView)> {
        rows_of(self.entries@)
    }

    /// No key is stored twice. Every `Db` keeps this; `use_type_invariant` states it.
    #[verifier::type_invariant]
    pub open spec fn wf(&self) -> bool {
        keys_unique(self.rows())
    }

    /// An empty keyspace.
    pub fn new() -> (db: Db)
        ensures
            db@ == Map::<Seq<u8>, EntryView>::empty(),
            db.rows() == Seq::<(Seq<u8>, EntryView)>::empty(),
    {
        let entries: Vec<(Vec<u8>, Entry)> = Vec::new();
        assert(rows_of(entries@) =~= Seq::<(Seq<u8>, EntryView)>::empty());
        Db { entries }
    }

    /// The number of rows.
    pub fn len(&self) -> (n: usize)
        ensures
            n == self.rows().len(),
    {
        self.entries.len()
    }

    /// The `i`-th row in storage order.
    pub fn row(&self, i: usize) -> (r: (&Vec<u8>, &Entry))
        requires
            i < self.rows().len(),
        ensures
            (r.0@, r.1@) == self.rows()[i as int],
    {
        let p = &self.entries[i];
        (&p.0, &p.1)
    }

    fn find(&self, key: &[u8]) -> (r: Option<usize>)
        ensures
            match r {
                Some(i) => i < self.rows().len() && self.rows()[i as int].0 == key@,
                None => !self@.dom().contains(key@),
            },
    {
        let mut i: usize = 0;
        while i < self.entries.len()
            invariant
                i <= self.entries@.len(),
                forall|j: int| 0 <= j < i ==> self.rows()[j].0 != key@,
            decreases self.entries@.len() - i,
        {
            if bytes_eq(self.entries[i].0.as_slice(), key) {
                return Some(i);
            }
            i = i + 1;
        }
        proof {
            lemma_store_map_dom(self.rows(), key@);
        }
        None
    }

    /// The entry stored under `key`.
    pub fn get(&self, key: &[u8]) -> (r: Option<&Entry>)
        ensures
            r is Some <==> self@.dom().contains(key@),
            r matches Some(e) ==> e@ == self@[key@],
    {
        proof {
            use_type_invariant(self);
        }
        match self.find(key) {
            Some(i) => {
                proof {
                    lemma_store_map_at(self.rows(), i as int);
                }
                Some(&self.entries[i].1)
            },
            None => None,
        }
    }

    /// Stores `entry` under `key`, replacing what was there.
    pub fn insert(&mut self, key: Vec<u8>, entry: Entry)
        ensures
            final(self)@ == old(self)@.insert(key@, entry@),
    {
        proof {
            use_type_invariant(&*self);
        }
        let found = self.find(key.as_slice());
        let mut entries: Vec<(Vec<u8>, Entry)> = Vec::new();
        assert(rows_of(entries@) =~= Seq::<(Seq<u8>, EntryView)>::empty());
        std::mem::swap(&mut entries, &mut self.entries);
        let ghost rows = rows_of(entries@);
        assert(rows == old(self).rows());
        match found {
            Some(i) => {
                let ghost e = entry@;
                proof {
                    lemma_store_map_update(rows, i as int, e);
                }
                entries.set(i, (key, entry));
                assert(rows_of(entries@) =~= rows.update(i as int, (rows[i as int].0, e)));
            },
            None => {
                let ghost k = key@;
                let ghost e = entry@;
                proof {
                    lemma_store_map_dom(rows, k);
                }
                entries.push((key, entry));
                let ghost new_rows = rows_of(entries@);
                assert(new_rows.drop_last() =~= rows);
                assert(new_rows.last() == (k, e));
                assert(keys_unique(new_rows)) by {
                    assert forall|a: int, b: int|
                        0 <= a < new_rows.len() && 0 <= b < new_rows.len() && a != b
                        implies new_rows[a].0 != new_rows[b].0 by {
                        if a < rows.len() {
                            assert(new_rows[a] == rows[a]);
                        }
                        if b < rows.len() {
                            assert(new_rows[b] == rows[b]);
                        }
                    }
                }
            },
        }
        self.entries = entries;
    }

    /// Takes the entry stored under `key` out of the keyspace.
    pub fn remove(&mut self, key: &[u8]) -> (r: Option<Entry>)
        ensures
            final(self)@ == old(self)@.remove(key@),
            r is Some <==> old(self)@.dom().contains(key@),
            r matches Some(e) ==> e@ == old(self)@[key@],
    {
        proof {
            use_type_invariant(&*self);
        }
        match self.find(key) {
            Some(i) => {
                let mut entries: Vec<(Vec<u8>, Entry)> = Vec::new();
                assert(rows_of(entries@) =~= Seq::<(Seq<u8>, EntryView)>::empty());
                std::mem::swap(&mut entries, &mut self.entries);
                let ghost rows = rows_of(entries@);
                assert(rows == old(self).rows());
                proof {
                    lemma_store_map_at(rows, i as int);
                    lemma_store_map_remove(rows, i as int);
                }
                let (_, entry) = entries.remove(i);
                assert(rows_of(entries@) =~= rows.remove(i as int));
                self.entries = entries;
                Some(entry)
            },
            None => {
                assert(old(self)@.remove(key@) =~= old(self)@);
                None
            },
        }
    }

    /// Removes every entry whose deadline has passed at `now`.
    pub fn remove_expired(&mut self, now: u64)
        ensures
            final(self)@ == live_part(old(self)@, now),
    {
        proof {
            use_type_invariant(&*self);
        }
        let mut entries: Vec<(Vec<u8>, Entry)> = Vec::new();
        assert(rows_of(entries@) =~= Seq::<(Seq<u8>, EntryView)>::empty());
        std::mem::swap(&mut entries, &mut self.entries);
        let ghost m0 = store_map(rows_of(entries@));
        assert(m0 == old(self)@);
        let mut i: usize = 0;
        while i < entries.len()
            invariant
                keys_unique(rows_of(entries@)),
                i <= entries@.len(),
                forall|k: Seq<u8>| #[trigger]
                    store_map(rows_of(entries@)).dom().contains(k) ==> m0.dom().contains(k)
                        && store_map(rows_of(entries@))[k] == m0[k],
                forall|k: Seq<u8>|
                    m0.dom().contains(k) && live(m0[k], now)
                        ==> #[trigger] store_map(rows_of(entries@)).dom().contains(k),
                forall|j: int| 0 <= j < i ==> live(#[trigger] rows_of(entries@)[j].1, now),
            decreases entries@.len() - i,
        {
            let expired = is_expired(&entries[i].1, now);
            if expired {
                let ghost rows = rows_of(entries@);
                let ghost k = rows[i as int].0;
                let ghost prev = store_map(rows);
                proof {
                    lemma_store_map_at(rows, i as int);
                    lemma_store_map_remove(rows, i as int);
                }
                let _ = entries.remove(i);
                assert(rows_of(entries@) =~= rows.remove(i as int));
                assert(store_map(rows_of(entries@)) == prev.remove(k));
                assert(!live(m0[k], now));
                assert forall|j: int| 0 <= j < i implies live(#[trigger] rows_of(entries@)[j].1, now) by {
                    assert(rows_of(entries@)[j] == rows[j]);
                }
            } else {
                i = i + 1;
            }
        }
        proof {
            let rows = rows_of(entries@);
            assert forall|k: Seq<u8>| store_map(rows).dom().contains(k) implies live(m0[k], now) by {
                lemma_store_map_dom(rows, k);
                let j = choose|j: int| 0 <= j < rows.len() && rows[j].0 == k;
                lemma_store_map_at(rows, j);
            }
            assert(store_map(rows) =~= live_part(m0, now));
        }
        self.entries = entries;
    }
}

impl View for Db {
    type V = Map<Seq<u8>, EntryView>;

    open spec fn view(&self) -> Map<Seq<u8>, EntryView> {
        store_map(self.rows())
    }
}

/// The entries of `m` that are live at `now`.
pub open spec fn live_part(m: Map<Seq<u8>, EntryView>, now: u64) -> Map<Seq<u8>, EntryView> {
    Map::new(|k: Seq<u8>| m.dom().contains(k) && live(m[k], now), |k: Seq<u8>| m[k])
}

/// Whether two byte strings are equal.
pub fn bytes_eq(a: &[u8], b: &[u8]) -> (r: bool)
    ensures
        r == (a@ == b@),
{
    if a.len() != b.len() {
        return false;
    }
    let mut i: usize = 0;
    while i < a.len()
        invariant
            a@.len() == b@.len(),
            i <= a@.len(),
            forall|j: int| 0 <= j < i ==> a@[j] == b@[j],
        decreases a@.len() - i,
    {
        if a[i] != b[i] {
            return false;
        }
        i = i + 1;
    }
    assert(a@ =~= b@);
    true
}

/// Whether an entry's deadline lies before `now`.
pub fn is_expired(entry: &Entry, now: u64) -> (r: bool)
    ensures
        r == !live(entry@, now),
{
    match entry.expires_at {
        Some(deadline) => now > deadline,
        None => false,
    }
}

/// Why a command failed; `dispatch` turns it into a RESP error at a single boundary.
#[derive(Debug, PartialEq, Eq)]
pub enum CmdError {
    WrongArity(&'static str),
    InvalidExpire(&'static str),
    Syntax(String),
    UnknownOption(String),
    UnknownCommand(String),
    Protocol(&'static str),
    NotAnInteger,
    Overflow,
    WrongType,
}

/// The model of [`CmdError`].
pub enum CmdErrorView {
    WrongArity(Seq<char>),
    InvalidExpire(Seq<char>),
    Syntax(Seq<char>),
    UnknownOption(Seq<char>),
    UnknownCommand(Seq<char>),
    Protocol(Seq<char>),
    NotAnInteger,
    Overflow,
    WrongType,
}

impl View for CmdError {
    type V = CmdErrorView;

    open spec fn view(&self) -> CmdErrorView {
        match self {
            CmdError::WrongArity(c) => CmdErrorView::WrongArity(c@),
            CmdError::InvalidExpire(c) => CmdErrorView::InvalidExpire(c@),
            CmdError::Syntax(m) => CmdErrorView::Syntax(m@),
            CmdError::UnknownOption(o) => CmdErrorView::UnknownOption(o@),
            CmdError::UnknownCommand(c) => CmdErrorView::UnknownCommand(c@),
            CmdError::Protocol(m) => CmdErrorView::Protocol(m@),
            CmdError::NotAnInteger => CmdErrorView::NotAnInteger,
            CmdError::Overflow => CmdErrorView::Overflow,
            CmdError::WrongType => CmdErrorView::WrongType,
        }
    }
}

/// The text a client receives for an error.
pub open spec fn message_spec(e: CmdErrorView) -> Seq<char> {
    match e {
        CmdErrorView::WrongArity(c) => "ERR wrong number of arguments for '"@ + c + "' command"@,
        CmdErrorView::InvalidExpire(c) => "ERR invalid expire time in '"@ + c + "' command"@,
        CmdErrorView::Syntax(m) => "ERR syntax error: "@ + m,
        CmdErrorView::UnknownOption(o) => "ERR unknown option '"@ + o + "'"@,
        CmdErrorView::UnknownCommand(c) => "ERR unknown command '"@ + c + "'"@,
        CmdErrorView::Protocol(m) => "ERR "@ + m,
        CmdErrorView::NotAnInteger => "ERR value is not an integer or out of range"@,
        CmdErrorView::Overflow => "ERR increment or decrement would overflow"@,
        CmdErrorView::WrongType => "WRONGTYPE Operation against a key holding the wrong kind of value"@,
    }
}

impl CmdError {
    /// The text a client receives for this error.
    pub fn message(&self) -> (m: String)
        ensures
            m@ == message_spec(self@),
    {
        match self {
            CmdError::WrongArity(c) => {
                let mut m = "ERR wrong number of arguments for '".to_owned();
                m.append(c);
                m.append("' command");
                m
            },
            CmdError::InvalidExpire(c) => {
                let mut m = "ERR invalid expire time in '".to_owned();
                m.append(c);
                m.append("' command");
                m
            },
            CmdError::Syntax(msg) => {
                let mut m = "ERR syntax error: ".to_owned();
                m.append(msg.as_str());
                m
            },
            CmdError::UnknownOption(o) => {
                let mut m = "ERR unknown option '".to_owned();
                m.append(o.as_str());
                m.append("'");
                m
            },
            CmdError::UnknownCommand(c) => {
                let mut m = "ERR unknown command '".to_owned();
                m.append(c.as_str());
                m.append("'");
                m
            },
            CmdError::Protocol(msg) => {
                let mut m = "ERR ".to_owned();
                m.append(msg);
                m
            },
            CmdError::NotAnInteger => "ERR value is not an integer or out of range".to_owned(),
            CmdError::Overflow => "ERR increment or decrement would overflow".to_owned(),
            CmdError::WrongType => "WRONGTYPE Operation against a key holding the wrong kind of value".to_owned(),
        }
    }
}

/// Commands return protocol values on success and a `CmdError` on failure.
pub type CmdResult = Result<Value, CmdError>;

/// The model of a command's result.
pub open spec fn reply_view(r: CmdResult) -> Result<RespValue, CmdErrorView> {
    match r {
        Ok(v) => Ok(v@),
        Err(e) => Err(e@),
    }
}

/// The model of a command's arguments.
pub open spec fn arg_view(args: Seq<Vec<u8>>) -> Seq<Seq<u8>> {
    args.map_values(|a: Vec<u8>| a@)
}

/// The bytes of a command or option name.
pub open spec fn word(s: &str) -> Seq<u8> {
    s.spec_bytes()
}

pub open spec fn upper_byte(b: u8) -> u8 {
    if 97 <= b <= 122 {
        (b - 32) as u8
    } else {
        b
    }
}

/// ASCII letters in upper case, every other byte as it is.
pub open spec fn upper(s: Seq<u8>) -> Seq<u8> {
    s.map_values(|b: u8| upper_byte(b))
}

/// `<[u8]>::to_ascii_uppercase`.
pub fn to_ascii_uppercase(s: &[u8]) -> (r: Vec<u8>)
    ensures
        r@ == upper(s@),
{
    let mut r: Vec<u8> = Vec::new();
    let mut i: usize = 0;
    while i < s.len()
        invariant
            i <= s@.len(),
            r@ == upper(s@.take(i as int)),
        decreases s@.len() - i,
    {
        let b = s[i];
        let u = if 97 <= b && b <= 122 {
            b - 32
        } else {
            b
        };
        r.push(u);
        i = i + 1;
        assert(r@ =~= upper(s@.take(i as int)));
    }
    assert(s@.take(i as int) =~= s@);
    r
}

/// Whether `name` spells `w`.
pub fn is_word(name: &[u8], w: &str) -> (r: bool)
    ensures
        r == (name@ == word(w)),
{
    bytes_eq(name, w.as_bytes())
}

/// What `String::from_utf8_lossy` makes of these bytes.
pub uninterp spec fn utf8_lossy(bytes: Seq<u8>) -> Seq<char>;

/// `String::from_utf8_lossy`: valid UTF-8 comes back as the characters it encodes;
/// any other bytes come back as some text determined by the bytes alone (each invalid
/// sequence replaced by U+FFFD, which is not stated here).
#[verifier::external_body]
fn from_utf8_lossy<'a>(bytes: &'a [u8]) -> (text: Cow<'a, str>)
    ensures
        text@ == utf8_lossy(bytes@),
        valid_utf8(bytes@) ==> text@ == decode_utf8(bytes@),
{
    String::from_utf8_lossy(bytes)
}

/// The bytes as text, as `String::from_utf8_lossy(..).into_owned()` gives it.
pub fn lossy_string(bytes: &[u8]) -> (s: String)
    ensures
        s@ == utf8_lossy(bytes@),
        valid_utf8(bytes@) ==> s@ == decode_utf8(bytes@),
{
    match from_utf8_lossy(bytes) {
        Cow::Borrowed(text) => text.to_owned(),
        Cow::Owned(text) => text,
    }
}

/// `args.len()` lies between `min` and `max` (no upper bound for `None`).
pub open spec fn arity_ok(n: nat, min: usize, max: Option<usize>) -> bool {
    n >= min && (max matches Some(m) ==> n <= m)
}

/// Checks the number of arguments (the command name excluded).
pub fn arity(args: &[Vec<u8>], min: usize, max: Option<usize>, name: &'static str) -> (r: Result<
    (),
    CmdError,
>)
    ensures
        r is Ok <==> arity_ok(args@.len(), min, max),
        r matches Err(e) ==> e@ == CmdErrorView::WrongArity(name@),
{
    let too_many = match max {
        Some(m) => args.len() > m,
        None => false,
    };
    if args.len() < min || too_many {
        return Err(CmdError::WrongArity(name));
    }
    Ok(())
}

/// `m` with `key` removed when its entry has expired at `now`.
pub open spec fn evict_spec(m: Map<Seq<u8>, EntryView>, key: Seq<u8>, now: u64) -> Map<
    Seq<u8>,
    EntryView,
> {
    if m.dom().contains(key) && !live(m[key], now) {
        m.remove(key)
    } else {
        m
    }
}

/// Write paths evict, so a read-modify-write command starts from a clean slate rather
/// than resurrecting a key that should already be gone.
pub fn evict_if_expired(store: &mut Db, key: &[u8], now: u64)
    ensures
        final(store)@ == evict_spec(old(store)@, key@, now),
{
    let expired = match store.get(key) {
        Some(entry) => is_expired(entry, now),
        None => false,
    };
    if expired {
        let _ = store.remove(key);
    }
}

/// The later of `unix_ms` and `now`: a moment that has passed collapses to now.
pub open spec fn not_before(unix_ms: int, now: u64) -> int {
    if unix_ms > now {
        unix_ms
    } else {
        now as int
    }
}

/// The deadline for a Unix time in milliseconds: that moment, or `now` if it has passed.
pub fn unix_millis_to_instant(unix_ms: u64, now: u64) -> (d: u64)
    ensures
        d == not_before(unix_ms as int, now),
{
    if unix_ms > now {
        unix_ms
    } else {
        now
    }
}

/// The deadline for a Unix time in seconds: that moment, or `now` if it has passed; a
/// moment past what a `u64` of milliseconds holds is held as `u64::MAX`.
pub fn unix_secs_to_instant(unix_secs: u64, now: u64) -> (d: u64)
    ensures
        d == (if unix_secs * 1000 <= u64::MAX {
            not_before(unix_secs * 1000, now) as u64
        } else {
            u64::MAX
        }),
{
    match unix_secs.checked_mul(1000) {
        Some(ms) => unix_millis_to_instant(ms, now),
        None => u64::MAX,
    }
}

/// What the dispatcher asks of its caller.
#[derive(Debug, PartialEq)]
pub enum Action {
    /// Send this reply.
    Reply(Value),
    /// Write these bytes as the dump; then reply `OK`, or the write's error.
    Save(Vec<u8>),
}

/// The model of an [`Action`].
pub enum ActionView {
    Reply(RespValue),
    Save(Seq<u8>),
}

impl View for Action {
    type V = ActionView;

    open spec fn view(&self) -> ActionView {
        match self {
            Action::Reply(v) => ActionView::Reply(v@),
            Action::Save(bytes) => ActionView::Save(bytes@),
        }
    }
}

/// A command is an array of bulk strings: its name, then its arguments.
pub open spec fn command_args(v: RespValue) -> Result<Seq<Seq<u8>>, CmdErrorView> {
    match v {
        RespValue::Array(items) => if all_bulk(items) {
            Ok(bulk_contents(items))
        } else {
            Err(CmdErrorView::Protocol("command must be an array of bulk strings"@))
        },
        _ => Err(CmdErrorView::Protocol("expected array command"@)),
    }
}

/// A command other than `SAVE`, by its name in any letter case: its reply and the
/// keyspace after it.
pub open spec fn step_spec(args: Seq<Seq<u8>>, m: Map<Seq<u8>, EntryView>, now: u64) -> (
    Result<RespValue, CmdErrorView>,
    Map<Seq<u8>, EntryView>,
) {
    let name = upper(args[0]);
    let rest = args.drop_first();
    if name == word("PING") {
        (ping_spec(rest), m)
    } else if name == word("ECHO") {
        (echo_spec(rest), m)
    } else if name == word("DEL") {
        del_result(rest, m, now)
    } else if name == word("EXISTS") {
        (exists_spec(rest, m, now), m)
    } else if name == word("GET") {
        (get_spec(rest, m, now), m)
    } else if name == word("SET") {
        set_spec(rest, m, now)
    } else if name == word("INCR") {
        incr_spec(rest, m, now, 1i64)
    } else if name == word("DECR") {
        incr_spec(rest, m, now, -1i64)
    } else if name == word("LPUSH") {
        push_spec(rest, m, now, Side::Left)
    } else if name == word("RPUSH") {
        push_spec(rest, m, now, Side::Right)
    } else if name == word("LRANGE") {
        (lrange_spec(rest, m, now), m)
    } else {
        (Err(CmdErrorView::UnknownCommand(utf8_lossy(name))), m)
    }
}

/// A command value against the keyspace `rows` at `now`: what to do, or why not, and
/// the keyspace after it.
pub open spec fn run_spec(v: RespValue, rows: Seq<(Seq<u8>, EntryView)>, now: u64) -> (
    Result<ActionView, CmdErrorView>,
    Map<Seq<u8>, EntryView>,
) {
    let m = store_map(rows);
    match command_args(v) {
        Err(e) => (Err(e), m),
        Ok(args) => if args.len() == 0 {
            (Err(CmdErrorView::Protocol("empty command array"@)), m)
        } else if upper(args[0]) == word("SAVE") {
            match save_spec(args.drop_first(), rows, now) {
                Ok(bytes) => (Ok(ActionView::Save(bytes)), m),
                Err(e) => (Err(e), m),
            }
        } else {
            let (r, m2) = step_spec(args, m, now);
            (reply_action(r), m2)
        },
    }
}

/// A command's reply as the action of sending it.
pub open spec fn reply_action(r: Result<RespValue, CmdErrorView>) -> Result<
    ActionView,
    CmdErrorView,
> {
    match r {
        Ok(reply) => Ok(ActionView::Reply(reply)),
        Err(e) => Err(e),
    }
}

/// As [`run_spec`], with an error turned into the RESP error a client receives.
pub open spec fn dispatch_spec(v: RespValue, rows: Seq<(Seq<u8>, EntryView)>, now: u64) -> (
    ActionView,
    Map<Seq<u8>, EntryView>,
) {
    let (r, m) = run_spec(v, rows, now);
    (
        match r {
            Ok(a) => a,
            Err(e) => ActionView::Reply(RespValue::Error(message_spec(e))),
        },
        m,
    )
}

/// The name and arguments of a command value, as plain bytes.
#[verifier::loop_isolation(false)]
pub fn command_parts(value: &Value) -> (r: Result<Vec<Vec<u8>>, CmdError>)
    ensures
        match r {
            Ok(args) => command_args(value@) == Ok::<Seq<Seq<u8>>, CmdErrorView>(arg_view(args@)),
            Err(e) => command_args(value@) == Err::<Seq<Seq<u8>>, CmdErrorView>(e@),
        },
{
    let parts = match value {
        Value::Array(parts) => parts,
        _ => {
            return Err(CmdError::Protocol("expected array command"));
        },
    };
    proof {
        lemma_models(parts@);
    }
    let ghost items = Value::models(parts@);
    // Clients send commands as arrays of bulk strings; unwrapping them once here
    // keeps every handler working on plain bytes.
    let mut args: Vec<Vec<u8>> = Vec::new();
    let mut i: usize = 0;
    while i < parts.len()
        invariant
            i <= parts@.len(),
            items == Value::models(parts@),
            items.len() == parts@.len(),
            forall|j: int| 0 <= j < parts@.len() ==> #[trigger] items[j] == parts@[j]@,
            all_bulk(items.take(i as int)),
            arg_view(args@) == bulk_contents(items.take(i as int)),
        decreases parts@.len() - i,
    {
        match &parts[i] {
            Value::BulkString(bytes) => {
                let ghost before = args@;
                let copy = bytes.clone();
                assert(copy@ == bytes@);
                args.push(copy);
                i = i + 1;
                proof {
                    let t = items.take(i as int);
                    assert(t.drop_last() =~= items.take(i - 1));
                    assert(t.last() == items[i - 1]);
                    assert(arg_view(args@) =~= arg_view(before).push(bytes@));
                    assert(bulk_contents(t) =~= bulk_contents(items.take(i - 1)).push(bytes@));
                    assert forall|j: int| 0 <= j < t.len() implies #[trigger] t[j] is Bulk by {
                        if j < i - 1 {
                            assert(t[j] == items.take(i - 1)[j]);
                        }
                    }
                }
            },
            _ => {
                assert(!(items[i as int] is Bulk));
                return Err(CmdError::Protocol("command must be an array of bulk strings"));
            },
        }
    }
    assert(items.take(i as int) =~= items);
    Ok(args)
}

/// The commands that change the keyspace.
pub open spec fn writes(name: Seq<u8>) -> bool {
    name == word("DEL") || name == word("SET") || name == word("INCR") || name == word("DECR")
        || name == word("LPUSH") || name == word("RPUSH")
}

/// A command value that leaves the keyspace as it is: every command but the writing
/// ones, and every malformed command.
pub open spec fn reads_only(v: RespValue) -> bool {
    match command_args(v) {
        Err(_) => true,
        Ok(args) => args.len() == 0 || !writes(upper(args[0])),
    }
}

fn is_write(name: &[u8]) -> (r: bool)
    ensures
        r == writes(name@),
{
    is_word(name, "DEL") || is_word(name, "SET") || is_word(name, "INCR") || is_word(name, "DECR")
        || is_word(name, "LPUSH") || is_word(name, "RPUSH")
}

/// Runs one command against the keyspace at `now` (Unix milliseconds).
pub fn run(value: Value, db: &mut Db, now: u64) -> (r: Result<Action, CmdError>)
    ensures
        (match r {
            Ok(a) => Ok::<ActionView, CmdErrorView>(a@),
            Err(e) => Err::<ActionView, CmdErrorView>(e@),
        }, final(db)@) == run_spec(value@, old(db).rows(), now),
{
    let args = command_parts(&value)?;
    if args.len() == 0 {
        return Err(CmdError::Protocol("empty command array"));
    }
    let name = to_ascii_uppercase(args[0].as_slice());
    let rest = &args[1..args.len()];
    let ghost all = arg_view(args@);
    assert(arg_view(rest@) =~= all.drop_first());
    assert(all[0] == args@[0]@);
    if is_word(&name, "SAVE") {
        let bytes = persistence::save(rest, db, now)?;
        return Ok(Action::Save(bytes));
    }
    let reply = if is_word(&name, "PING") {
        generic::ping(rest)
    } else if is_word(&name, "ECHO") {
        generic::echo(rest)
    } else if is_word(&name, "DEL") {
        generic::del(rest, db, now)
    } else if is_word(&name, "EXISTS") {
        generic::exists_keys(rest, db, now)
    } else if is_word(&name, "GET") {
        string::get(rest, db, now)
    } else if is_word(&name, "SET") {
        string::set(rest, db, now)
    } else if is_word(&name, "INCR") {
        string::incr_by(rest, db, now, 1)
    } else if is_word(&name, "DECR") {
        string::incr_by(rest, db, now, -1)
    } else if is_word(&name, "LPUSH") {
        list::push(rest, db, now, Side::Left)
    } else if is_word(&name, "RPUSH") {
        list::push(rest, db, now, Side::Right)
    } else if is_word(&name, "LRANGE") {
        list::lrange(rest, db, now)
    } else {
        Err(CmdError::UnknownCommand(lossy_string(&name)))
    };
    match reply {
        Ok(v) => Ok(Action::Reply(v)),
        Err(e) => Err(e),
    }
}

/// Answers a command that leaves the keyspace as it is, with the keyspace only read, so
/// that readers can share it; `None` for a command that writes, which [`dispatch`]
/// takes.
pub fn dispatch_read(value: &Value, db: &Db, now: u64) -> (r: Option<Action>)
    ensures
        r is Some <==> reads_only(value@),
        r matches Some(a) ==> (a@, db@) == dispatch_spec(value@, db.rows(), now),
{
    let args = match command_parts(value) {
        Ok(args) => args,
        Err(e) => {
            return Some(Action::Reply(Value::Error(e.message())));
        },
    };
    if args.len() == 0 {
        return Some(Action::Reply(Value::Error(CmdError::Protocol("empty command array").message())));
    }
    let name = to_ascii_uppercase(args[0].as_slice());
    if is_write(&name) {
        return None;
    }
    let rest = &args[1..args.len()];
    let ghost all = arg_view(args@);
    assert(arg_view(rest@) =~= all.drop_first());
    assert(all[0] == args@[0]@);
    let r: Result<Action, CmdError> = if is_word(&name, "SAVE") {
        match persistence::save(rest, db, now) {
            Ok(bytes) => Ok(Action::Save(bytes)),
            Err(e) => Err(e),
        }
    } else {
        let reply = if is_word(&name, "PING") {
            generic::ping(rest)
        } else if is_word(&name, "ECHO") {
            generic::echo(rest)
        } else if is_word(&name, "EXISTS") {
            generic::exists_keys(rest, db, now)
        } else if is_word(&name, "GET") {
            string::get(rest, db, now)
        } else if is_word(&name, "LRANGE") {
            list::lrange(rest, db, now)
        } else {
            Err(CmdError::UnknownCommand(lossy_string(&name)))
        };
        match reply {
            Ok(v) => Ok(Action::Reply(v)),
            Err(e) => Err(e),
        }
    };
    match r {
        Ok(a) => Some(a),
        Err(e) => Some(Action::Reply(Value::Error(e.message()))),
    }
}

/// Runs one command and answers it: a failed command becomes a RESP error.
pub fn dispatch(value: Value, db: &mut Db, now: u64) -> (act: Action)
    ensures
        (act@, final(db)@) == dispatch_spec(value@, old(db).rows(), now),
{
    match run(value, db, now) {
        Ok(a) => a,
        Err(e) => Action::Reply(Value::Error(e.message())),
    }
}

/// The bytes of the command names, spelled out.
proof fn lemma_command_words()
    ensures
        word("PING") == seq![80u8, 73, 78, 71],
        word("ECHO") == seq![69u8, 67, 72, 79],
        word("DEL") == seq![68u8, 69, 76],
        word("EXISTS") == seq![69u8, 88, 73, 83, 84, 83],
        word("GET") == seq![71u8, 69, 84],
        word("SET") == seq![83u8, 69, 84],
        word("INCR") == seq![73u8, 78, 67, 82],
        word("DECR") == seq![68u8, 69, 67, 82],
        word("LPUSH") == seq![76u8, 80, 85, 83, 72],
        word("RPUSH") == seq![82u8, 80, 85, 83, 72],
        word("LRANGE") == seq![76u8, 82, 65, 78, 71, 69],
        word("SAVE") == seq![83u8, 65, 86, 69],
{
    reveal_strlit("PING");
    reveal_strlit("ECHO");
    reveal_strlit("DEL");
    reveal_strlit("EXISTS");
    reveal_strlit("GET");
    reveal_strlit("SET");
    reveal_strlit("INCR");
    reveal_strlit("DECR");
    reveal_strlit("LPUSH");
    reveal_strlit("RPUSH");
    reveal_strlit("LRANGE");
    reveal_strlit("SAVE");
    vstd::utf8::is_ascii_chars_encode_utf8("PING"@);
    vstd::utf8::is_ascii_chars_encode_utf8("ECHO"@);
    vstd::utf8::is_ascii_chars_encode_utf8("DEL"@);
    vstd::utf8::is_ascii_chars_encode_utf8("EXISTS"@);
    vstd::utf8::is_ascii_chars_encode_utf8("GET"@);
    vstd::utf8::is_ascii_chars_encode_utf8("SET"@);
    vstd::utf8::is_ascii_chars_encode_utf8("INCR"@);
    vstd::utf8::is_ascii_chars_encode_utf8("DECR"@);
    vstd::utf8::is_ascii_chars_encode_utf8("LPUSH"@);
    vstd::utf8::is_ascii_chars_encode_utf8("RPUSH"@);
    vstd::utf8::is_ascii_chars_encode_utf8("LRANGE"@);
    vstd::utf8::is_ascii_chars_encode_utf8("SAVE"@);
    assert(word("PING") =~= seq![80u8, 73, 78, 71]);
    assert(word("ECHO") =~= seq![69u8, 67, 72, 79]);
    assert(word("DEL") =~= seq![68u8, 69, 76]);
    assert(word("EXISTS") =~= seq![69u8, 88, 73, 83, 84, 83]);
    assert(word("GET") =~= seq![71u8, 69, 84]);
    assert(word("SET") =~= seq![83u8, 69, 84]);
    assert(word("INCR") =~= seq![73u8, 78, 67, 82]);
    assert(word("DECR") =~= seq![68u8, 69, 67, 82]);
    assert(word("LPUSH") =~= seq![76u8, 80, 85, 83, 72]);
    assert(word("RPUSH") =~= seq![82u8, 80, 85, 83, 72]);
    assert(word("LRANGE") =~= seq![76u8, 82, 65, 78, 71, 69]);
    assert(word("SAVE") =~= seq![83u8, 65, 86, 69]);
}

/// A command written as an array of bulk strings.
pub open spec fn command(words: Seq<Seq<u8>>) -> RespValue {
    RespValue::Array(words.map_values(|w: Seq<u8>| RespValue::Bulk(w)))
}

/// Read your write, as clients see it: `SET key value` answers `OK`, and after it
/// `GET key` answers the value, at any later time.
pub proof fn lemma_dispatch_set_then_get(
    key: Seq<u8>,
    value: Seq<u8>,
    rows: Seq<(Seq<u8>, EntryView)>,
    now: u64,
    rows_after: Seq<(Seq<u8>, EntryView)>,
    later: u64,
)
    requires
        store_map(rows_after) == dispatch_spec(command(seq![word("SET"), key, value]), rows, now).1,
    ensures
        dispatch_spec(command(seq![word("SET"), key, value]), rows, now).0 == ActionView::Reply(
            RespValue::Simple("OK"@),
        ),
        dispatch_spec(command(seq![word("GET"), key]), rows_after, later).0 == ActionView::Reply(
            RespValue::Bulk(value),
        ),
{
    lemma_command_words();
    let set_args = seq![word("SET"), key, value];
    let get_args = seq![word("GET"), key];
    assert(bulk_contents(command(set_args)->Array_0) =~= set_args);
    assert(bulk_contents(command(get_args)->Array_0) =~= get_args);
    assert(upper(word("SET")) =~= word("SET"));
    assert(upper(word("GET")) =~= word("GET"));
    assert(set_args.drop_first() =~= seq![key, value]);
    assert(get_args.drop_first() =~= seq![key]);
    string::lemma_set_then_get(key, value, store_map(rows), now, later);
}

/// What `SAVE` asks to write loads back, at the same moment, as exactly the entries
/// that were live, deadlines included.
pub proof fn lemma_dispatch_save_then_load(rows: Seq<(Seq<u8>, EntryView)>, now: u64)
    requires
        keys_unique(rows),
        persistence::dump_safe(rows),
    ensures
        dispatch_spec(command(seq![word("SAVE")]), rows, now).0 is Save,
        persistence::load_spec(dispatch_spec(command(seq![word("SAVE")]), rows, now).0->Save_0, now)
            == Ok::<Map<Seq<u8>, EntryView>, persistence::DumpError>(
            persistence::reloaded_map(store_map(rows), now),
        ),
{
    lemma_command_words();
    let args = seq![word("SAVE")];
    assert(bulk_contents(command(args)->Array_0) =~= args);
    assert(upper(word("SAVE")) =~= word("SAVE"));
    assert(args.drop_first() =~= Seq::<Seq<u8>>::empty());
    persistence::lemma_dump_roundtrip(rows, now, Seq::empty());
    let b = serialize_spec(persistence::encode_spec(rows, now));
    assert(b + Seq::<u8>::empty() =~= b);
}

/// Command names are matched in any letter case: a command answers and acts the same
/// whether its name is written as `c` or in capitals, on the same keyspace.
pub proof fn lemma_dispatch_case_insensitive(
    c: Seq<u8>,
    rest: Seq<RespValue>,
    rows: Seq<(Seq<u8>, EntryView)>,
    now: u64,
)
    ensures
        dispatch_spec(RespValue::Array(seq![RespValue::Bulk(c)] + rest), rows, now)
            == dispatch_spec(RespValue::Array(seq![RespValue::Bulk(upper(c))] + rest), rows, now),
{
    let a = seq![RespValue::Bulk(c)] + rest;
    let b = seq![RespValue::Bulk(upper(c))] + rest;
    assert(upper(upper(c)) =~= upper(c));
    assert forall|i: int| 1 <= i < a.len() implies a[i] == b[i] && a[i] == rest[i - 1] by {}
    assert(all_bulk(a) == all_bulk(b)) by {
        if all_bulk(a) {
            assert forall|i: int| 0 <= i < b.len() implies #[trigger] b[i] is Bulk by {
                assert(a[i] is Bulk);
            }
        }
        if all_bulk(b) {
            assert forall|i: int| 0 <= i < a.len() implies #[trigger] a[i] is Bulk by {
                assert(b[i] is Bulk);
            }
        }
    }
    if all_bulk(a) {
        let xa = bulk_contents(a);
        let xb = bulk_contents(b);
        assert(xa.drop_first() =~= xb.drop_first());
        assert(xa[0] == c && xb[0] == upper(c));
        assert(upper(xa[0]) == upper(xb[0]));
        assert(xa.len() > 0 && xb.len() > 0);
    }
}

/// Command names are matched in any letter case, also on another keyspace with the
/// same contents: the two commands leave equal keyspaces and give the same answer,
/// except that the dumps `SAVE` asks to write list the same entries each in its own
/// keyspace's storage order.
pub proof fn lemma_dispatch_case_insensitive_maps(
    c: Seq<u8>,
    rest: Seq<RespValue>,
    rows1: Seq<(Seq<u8>, EntryView)>,
    rows2: Seq<(Seq<u8>, EntryView)>,
    now: u64,
)
    requires
        keys_unique(rows1),
        keys_unique(rows2),
        store_map(rows1) == store_map(rows2),
    ensures
        ({
            let a = dispatch_spec(RespValue::Array(seq![RespValue::Bulk(c)] + rest), rows1, now);
            let b = dispatch_spec(
                RespValue::Array(seq![RespValue::Bulk(upper(c))] + rest),
                rows2,
                now,
            );
            &&& a.1 == b.1
            &&& (a.0 is Save <==> b.0 is Save)
            &&& !(a.0 is Save) ==> a.0 == b.0
            &&& a.0 is Save ==> a.0->Save_0 == serialize_spec(
                persistence::encode_spec(rows1, now),
            ) && b.0->Save_0 == serialize_spec(persistence::encode_spec(rows2, now))
            &&& persistence::is_dump_of(persistence::encode_rows(rows1, now), store_map(rows1), now)
            &&& persistence::is_dump_of(persistence::encode_rows(rows2, now), store_map(rows2), now)
        }),
{
    lemma_dispatch_case_insensitive(c, rest, rows1, now);
    persistence::lemma_encode_rows_dump(rows1, now);
    persistence::lemma_encode_rows_dump(rows2, now);
}

/// How `run` routes a command written as an array of bulk strings: by its name in
/// capitals, to that command's model with the other words as arguments; an unknown
/// name is an error that leaves the keyspace as it is.
pub proof fn lemma_run_routes(
    name: Seq<u8>,
    a: Seq<Seq<u8>>,
    rows: Seq<(Seq<u8>, EntryView)>,
    now: u64,
)
    ensures
        ({
            let u = upper(name);
            let m = store_map(rows);
            let r = run_spec(command(seq![name] + a), rows, now);
            &&& u == word("PING") ==> r == (reply_action(ping_spec(a)), m)
            &&& u == word("ECHO") ==> r == (reply_action(echo_spec(a)), m)
            &&& u == word("DEL") ==> r == (
                reply_action(del_result(a, m, now).0),
                del_result(a, m, now).1,
            )
            &&& u == word("EXISTS") ==> r == (reply_action(exists_spec(a, m, now)), m)
            &&& u == word("GET") ==> r == (reply_action(get_spec(a, m, now)), m)
            &&& u == word("SET") ==> r == (
                reply_action(set_spec(a, m, now).0),
                set_spec(a, m, now).1,
            )
            &&& u == word("INCR") ==> r == (
                reply_action(incr_spec(a, m, now, 1i64).0),
                incr_spec(a, m, now, 1i64).1,
            )
            &&& u == word("DECR") ==> r == (
                reply_action(incr_spec(a, m, now, -1i64).0),
                incr_spec(a, m, now, -1i64).1,
            )
            &&& u == word("LPUSH") ==> r == (
                reply_action(push_spec(a, m, now, Side::Left).0),
                push_spec(a, m, now, Side::Left).1,
            )
            &&& u == word("RPUSH") ==> r == (
                reply_action(push_spec(a, m, now, Side::Right).0),
                push_spec(a, m, now, Side::Right).1,
            )
            &&& u == word("LRANGE") ==> r == (reply_action(lrange_spec(a, m, now)), m)
            &&& u == word("SAVE") ==> r == (
                match save_spec(a, rows, now) {
                    Ok(bytes) => Ok(ActionView::Save(bytes)),
                    Err(e) => Err(e),
                },
                m,
            )
            &&& !(u == word("PING") || u == word("ECHO") || u == word("DEL") || u == word(
                "EXISTS",
            ) || u == word("GET") || u == word("SET") || u == word("INCR") || u == word("DECR")
                || u == word("LPUSH") || u == word("RPUSH") || u == word("LRANGE") || u == word(
                "SAVE",
            )) ==> r == (
                Err::<ActionView, CmdErrorView>(CmdErrorView::UnknownCommand(utf8_lossy(u))),
                m,
            )
        }),
{
    lemma_command_words();
    let words = seq![name] + a;
    let items = words.map_values(|w: Seq<u8>| RespValue::Bulk(w));
    assert(command(words) == RespValue::Array(items));
    assert(all_bulk(items));
    assert(bulk_contents(items) =~= words);
    assert(words[0] == name);
    assert(words.drop_first() =~= a);
}

/// Commands that only read leave the keyspace as it is.
pub proof fn lemma_reads_keep_keyspace(v: RespValue, rows: Seq<(Seq<u8>, EntryView)>, now: u64)
    requires
        reads_only(v),
    ensures
        dispatch_spec(v, rows, now).1 == store_map(rows),
{
    lemma_command_words();
}

} // verus!
