//! The key-value state and the decisions of the database.
//!
//! A write is decided first (`prepare`), then recorded in the log by the
//! caller, and only then applied (`commit`), so that the log always holds
//! every change that the state shows. Reading the log back (`from_log`)
//! rebuilds the state, and a compacted log holds one put for each key.
use crate::command::{Command, CommandView};
use crate::wal::{
    all_fit,
    compact_log,
    encode_log,
    encode_record,
    entries_view,
    fits,
    lemma_encode_log_push,
    lemma_replay_encoded_log,
    replay_entries,
    spec_replay,
    EntryView,
    WalEntry,
    WalError,
};
use vstd::hash_map::StringHashMap;
use vstd::prelude::*;
use vstd::string::StringExecFns;

verus! {

broadcast use vstd::string::group_string_axioms;

/// `std::io::Error`, declared so that `DatabaseError` can carry the errors of
/// the log file; nothing inside it is visible here.
#[verifier::external_type_specification]
#[verifier::external_body]
pub struct ExIoError(std::io::Error);

/// Why a command fails.
#[derive(Debug)]
pub enum DatabaseError {
    /// The key is not in the database.
    InvalidKey(String),
    /// Reading or writing the log failed.
    Io(std::io::Error),
}

/// The text of an I/O error, as `<std::io::Error as Display>::fmt` writes it.
/// Nothing is claimed of the text: it depends on the operating system.
#[verifier::external_body]
fn io_error_text(e: &std::io::Error) -> String {
    format!("{}", e)
}

/// What the server answers when a key is not there.
pub open spec fn invalid_key_message(key: Seq<char>) -> Seq<char> {
    "error: no value found for key '"@ + key + "'"@
}

impl DatabaseError {
    /// The text of this error, as the server answers it: for a missing key the
    /// message below, for an I/O error the error's own text.
    pub fn message(&self) -> (m: String)
        ensures
            self matches DatabaseError::InvalidKey(k) ==> m@ == invalid_key_message(k@),
    {
        match self {
            DatabaseError::InvalidKey(k) => {
                let mut m = String::from_str("error: no value found for key '");
                m.append(k.as_str());
                m.append("'");
                m
            },
            DatabaseError::Io(e) => io_error_text(e),
        }
    }
}

/// The log grows past this many bytes (16 MiB) before it is compacted.
pub const COMPACTION_THRESHOLD: u64 = 16 * 1024 * 1024;

/// `m` after the change `e`.
pub open spec fn apply_entry(m: Map<Seq<char>, Seq<char>>, e: EntryView) -> Map<
    Seq<char>,
    Seq<char>,
> {
    match e {
        EntryView::Put(k, v) => m.insert(k, v),
        EntryView::Del(k) => m.remove(k),
    }
}

/// `m` after the changes `es`, in order.
pub open spec fn apply_entries(m: Map<Seq<char>, Seq<char>>, es: Seq<EntryView>) -> Map<
    Seq<char>,
    Seq<char>,
>
    decreases es.len(),
{
    if es.len() == 0 {
        m
    } else {
        apply_entries(apply_entry(m, es[0]), es.drop_first())
    }
}

/// What the database decides for a command, over views.
pub enum Outcome {
    /// Answer with this text; nothing changes.
    Reply(Seq<char>),
    /// Refuse: the key is not there; nothing changes.
    NoSuchKey(Seq<char>),
    /// Record this change in the log, then apply it.
    Write(EntryView),
}

/// What the database decides for command `c` in state `m`.
pub open spec fn spec_prepare(m: Map<Seq<char>, Seq<char>>, c: CommandView) -> Outcome {
    match c {
        CommandView::Put(k, v) => Outcome::Write(EntryView::Put(k, v)),
        CommandView::Get(k) => if m.contains_key(k) {
            Outcome::Reply("VALUE "@ + m[k])
        } else {
            Outcome::NoSuchKey(k)
        },
        CommandView::Delete(k) => if m.contains_key(k) {
            Outcome::Write(EntryView::Del(k))
        } else {
            Outcome::NoSuchKey(k)
        },
    }
}

/// What `prepare` decides: an answer now, or a change to be logged and committed.
pub enum Prepared {
    Reply(Result<String, DatabaseError>),
    Write(WalEntry),
}

/// `p` is the decision `o`.
pub open spec fn prepared_is(p: Prepared, o: Outcome) -> bool {
    match o {
        Outcome::Reply(s) => p matches Prepared::Reply(Ok(r)) && r@ == s,
        Outcome::NoSuchKey(k) => p matches Prepared::Reply(Err(DatabaseError::InvalidKey(kk)))
            && kk@ == k,
        Outcome::Write(e) => p matches Prepared::Write(w) && w@ == e,
    }
}

/// Whether a log of `size` bytes is to be compacted.
pub fn needs_compaction(size: u64) -> (r: bool)
    ensures
        r == (size > COMPACTION_THRESHOLD),
{
    size > COMPACTION_THRESHOLD
}

/// The keys and values, with an index from each key to its place.
struct Store {
    entries: Vec<(String, String)>,
    index: StringHashMap<usize>,
}

impl View for Store {
    type V = Map<Seq<char>, Seq<char>>;

    closed spec fn view(&self) -> Map<Seq<char>, Seq<char>> {
        self.index@.map_values(|i: usize| self.entries@[i as int].1@)
    }
}

impl Store {
    /// The index finds each stored key at its place, and nothing else.
    closed spec fn wf(&self) -> bool {
        &&& forall|i: int|
            0 <= i < self.entries@.len() ==> #[trigger] self.index@.contains_key(
                self.entries@[i].0@,
            ) && self.index@[self.entries@[i].0@] == i
        &&& forall|k: Seq<char>| #[trigger]
            self.index@.contains_key(k) ==> self.index@[k] < self.entries@.len()
                && self.entries@[self.index@[k] as int].0@ == k
    }

    closed spec fn snapshot(&self) -> Seq<EntryView> {
        self.entries@.map_values(|p: (String, String)| EntryView::Put(p.0@, p.1@))
    }

    fn new() -> (st: Store)
        ensures
            st.wf(),
            st@ == Map::<Seq<char>, Seq<char>>::empty(),
    {
        let st = Store { entries: Vec::new(), index: StringHashMap::new() };
        assert(st@ =~= Map::<Seq<char>, Seq<char>>::empty());
        st
    }

    fn get(&self, key: &str) -> (r: Result<&str, DatabaseError>)
        requires
            self.wf(),
        ensures
            self@.contains_key(key@) ==> (r matches Ok(v) && v@ == self@[key@]),
            !self@.contains_key(key@) ==> (r matches Err(DatabaseError::InvalidKey(k)) && k@
                == key@),
    {
        match self.index.get(key) {
            Some(i) => Ok(self.entries[*i].1.as_str()),
            None => Err(DatabaseError::InvalidKey(key.to_owned())),
        }
    }

    /// Stores `value` under `key`.
    fn insert(&mut self, key: String, value: String)
        requires
            old(self).wf(),
        ensures
            final(self).wf(),
            final(self)@ == old(self)@.insert(key@, value@),
    {
        let ghost k = key@;
        let ghost v = value@;
        match self.index.get(key.as_str()) {
            Some(i) => {
                let i = *i;
                self.entries.set(i, (key, value));
                assert forall|j: int| 0 <= j < self.entries@.len() implies #[trigger]
                    self.index@.contains_key(self.entries@[j].0@) && self.index@[self.entries@[j].0@]
                        == j by {
                    if j != i {
                        assert(self.entries@[j] == old(self).entries@[j]);
                        assert(old(self).index@.contains_key(old(self).entries@[j].0@));
                    }
                }
                assert forall|kk: Seq<char>| #[trigger] self.index@.contains_key(kk) implies self.index@[kk]
                    < self.entries@.len() && self.entries@[self.index@[kk] as int].0@ == kk by {
                    assert(old(self).index@.contains_key(kk));
                    if old(self).index@[kk] == i {
                        assert(old(self).entries@[i as int].0@ == kk);
                    }
                }
                assert(self.wf());
                assert(self@ =~= old(self)@.insert(k, v));
            },
            None => {
                let n = self.entries.len();
                self.index.insert(key.clone(), n);
                self.entries.push((key, value));
                assert forall|j: int| 0 <= j < self.entries@.len() implies #[trigger]
                    self.index@.contains_key(self.entries@[j].0@) && self.index@[self.entries@[j].0@]
                        == j by {
                    if j < n {
                        assert(self.entries@[j] == old(self).entries@[j]);
                        assert(old(self).index@.contains_key(old(self).entries@[j].0@));
                    }
                }
                assert forall|kk: Seq<char>| #[trigger] self.index@.contains_key(kk) implies self.index@[kk]
                    < self.entries@.len() && self.entries@[self.index@[kk] as int].0@ == kk by {
                    if kk != k {
                        assert(old(self).index@.contains_key(kk));
                    }
                }
                assert(self.wf());
                assert(self@ =~= old(self)@.insert(k, v));
            },
        }
    }

    /// Removes `key` and its value, if it is there.
    fn remove(&mut self, key: &str)
        requires
            old(self).wf(),
        ensures
            final(self).wf(),
            final(self)@ == old(self)@.remove(key@),
    {
        match self.index.get(key) {
            None => {
                assert(self@ =~= old(self)@.remove(key@));
            },
            Some(i) => {
                let i = *i;
                let last = self.entries.len() - 1;
                let ghost old_entries = self.entries@;
                self.entries.swap_remove(i);
                if i < last {
                    let moved = self.entries[i].0.clone();
                    assert(moved@ == old_entries[last as int].0@);
                    self.index.insert(moved, i);
                }
                self.index.remove(key);
                assert forall|j: int| 0 <= j < self.entries@.len() implies #[trigger]
                    self.index@.contains_key(self.entries@[j].0@) && self.index@[self.entries@[j].0@]
                        == j by {
                    if j != i {
                        assert(self.entries@[j] == old_entries[j]);
                        assert(old(self).index@.contains_key(old_entries[j].0@));
                        assert(old_entries[j].0@ != key@);
                    } else {
                        assert(self.entries@[j] == old_entries[last as int]);
                        assert(old(self).index@.contains_key(old_entries[last as int].0@));
                        assert(old_entries[last as int].0@ != key@);
                    }
                }
                assert forall|k: Seq<char>| #[trigger] self.index@.contains_key(k) implies self.index@[k]
                    < self.entries@.len() && self.entries@[self.index@[k] as int].0@ == k by {
                    if k != old_entries[last as int].0@ {
                        assert(old(self).index@.contains_key(k));
                        assert(old(self).index@[k] != last);
                    }
                }
                assert(self@ =~= old(self)@.remove(key@));
            },
        }
    }

    fn apply(&mut self, entry: WalEntry)
        requires
            old(self).wf(),
        ensures
            final(self).wf(),
            final(self)@ == apply_entry(old(self)@, entry@),
    {
        match entry {
            WalEntry::Put(k, v) => self.insert(k, v),
            WalEntry::Del(k) => self.remove(k.as_str()),
        }
    }
}

/// The state of the database: its keys and values.
pub struct Database {
    store: Store,
}

impl View for Database {
    type V = Map<Seq<char>, Seq<char>>;

    closed spec fn view(&self) -> Map<Seq<char>, Seq<char>> {
        self.store@
    }
}

impl Database {
    /// The index of the state finds each stored key at its place, and nothing else.
    #[verifier::type_invariant]
    pub closed spec fn wf(&self) -> bool {
        self.store.wf()
    }

    /// A put for each key and its value, in the order in which a compacted log holds them.
    pub closed spec fn snapshot(&self) -> Seq<EntryView> {
        self.store.snapshot()
    }

    /// An empty database.
    pub fn new() -> (db: Database)
        ensures
            db.wf(),
            db@ == Map::<Seq<char>, Seq<char>>::empty(),
    {
        Database { store: Store::new() }
    }

    /// The value stored under `key`.
    pub fn get(&self, key: &str) -> (r: Result<&str, DatabaseError>)
        ensures
            self.wf(),
            self@.contains_key(key@) ==> (r matches Ok(v) && v@ == self@[key@]),
            !self@.contains_key(key@) ==> (r matches Err(DatabaseError::InvalidKey(k)) && k@
                == key@),
    {
        proof {
            use_type_invariant(self);
        }
        self.store.get(key)
    }

    /// Applies a change read from the log or committed by a command.
    pub fn apply(&mut self, entry: WalEntry)
        ensures
            final(self).wf(),
            final(self)@ == apply_entry(old(self)@, entry@),
    {
        proof {
            use_type_invariant(&*self);
        }
        let mut taken = Database::new();
        std::mem::swap(self, &mut taken);
        proof {
            use_type_invariant(&taken);
        }
        let Database { mut store } = taken;
        store.apply(entry);
        *self = Database { store };
    }

    /// The database that the log `log` holds: its entries applied in order
    /// to an empty database, or the error of a refused record.
    pub fn from_log(log: &[u8]) -> (r: Result<Database, WalError>)
        ensures
            spec_replay(log@).1 is Ok ==> (r matches Ok(db) && db.wf() && db@ == apply_entries(
                Map::empty(),
                spec_replay(log@).0,
            )),
            spec_replay(log@).1 matches Err(x) ==> (r matches Err(y) && y == x),
    {
        let (entries, end) = replay_entries(log);
        if let Err(x) = end {
            return Err(x);
        }
        let ghost es = entries_view(entries@);
        let mut db = Database::new();
        assert(es.skip(0) =~= es);
        for e in it: entries.into_iter()
            invariant
                db.wf(),
                es == entries_view(it.seq()),
                apply_entries(Map::empty(), es) == apply_entries(
                    db@,
                    es.skip(it.index() as int),
                ),
        {
            db.apply(e);
            proof {
                assert(es.skip(it.index() as int).drop_first() =~= es.skip(it.index() + 1));
            }
        }
        Ok(db)
    }

    /// Decides what command `cmd` does in this state.
    pub fn prepare(&self, cmd: Command) -> (p: Prepared)
        ensures
            prepared_is(p, spec_prepare(self@, cmd@)),
    {
        proof {
            use_type_invariant(self);
        }
        match cmd {
            Command::Put(k, v) => Prepared::Write(WalEntry::Put(k, v)),
            Command::Get(k) => match self.store.get(k.as_str()) {
                Ok(v) => {
                    let mut reply = String::from_str("VALUE ");
                    reply.append(v);
                    Prepared::Reply(Ok(reply))
                },
                Err(e) => Prepared::Reply(Err(e)),
            },
            Command::Delete(k) => {
                if self.store.index.contains_key(k.as_str()) {
                    Prepared::Write(WalEntry::Del(k))
                } else {
                    Prepared::Reply(Err(DatabaseError::InvalidKey(k)))
                }
            },
        }
    }

    /// Applies a change that the log now holds, and answers the command that made it.
    pub fn commit(&mut self, entry: WalEntry) -> (reply: String)
        ensures
            final(self).wf(),
            final(self)@ == apply_entry(old(self)@, entry@),
            reply@ == "OK"@,
    {
        self.apply(entry);
        String::from_str("OK")
    }

    /// The log that holds this state and nothing else: a put for each key.
    pub fn compacted_log(&self) -> (bytes: Vec<u8>)
        ensures
            self.wf(),
            bytes@ == encode_log(self.snapshot()),
            one_put_per_key(self.snapshot(), self@),
            apply_entries(Map::empty(), self.snapshot()) == self@,
    {
        proof {
            use_type_invariant(self);
            self.lemma_snapshot_is_state();
        }
        compact_log(&self.store.entries)
    }
}

// ---------------------------------------------------------------------------
// Laws
/// The key an entry changes.
pub open spec fn entry_key(e: EntryView) -> Seq<char> {
    match e {
        EntryView::Put(k, _) => k,
        EntryView::Del(k) => k,
    }
}

/// `s` is a put for each key of `m` with its value, each key once, and
/// nothing else.
pub open spec fn one_put_per_key(s: Seq<EntryView>, m: Map<Seq<char>, Seq<char>>) -> bool {
    &&& forall|i: int|
        0 <= i < s.len() ==> (#[trigger] s[i] matches EntryView::Put(k, v) && m.contains_key(k)
            && m[k] == v)
    &&& forall|i: int, j: int|
        0 <= i < j < s.len() ==> #[trigger] entry_key(s[i]) != #[trigger] entry_key(s[j])
    &&& forall|k: Seq<char>| #[trigger]
        m.contains_key(k) ==> exists|i: int| 0 <= i < s.len() && s[i] == EntryView::Put(k, m[k])
    &&& s.len() == m.dom().len()
}

/// Every key and value of `m` is within the lengths a log record may announce.
pub open spec fn state_fits(m: Map<Seq<char>, Seq<char>>) -> bool {
    forall|k: Seq<char>| #[trigger]
        m.contains_key(k) ==> fits(EntryView::Put(k, m[k]))
}

/// Applying `es` and then `e` is applying `es` followed by `e`.
pub proof fn lemma_apply_entries_push(m: Map<Seq<char>, Seq<char>>, es: Seq<EntryView>, e: EntryView)
    ensures
        apply_entries(m, es.push(e)) == apply_entry(apply_entries(m, es), e),
    decreases es.len(),
{
    if es.len() == 0 {
        assert(es.push(e).drop_first() =~= Seq::<EntryView>::empty());
        assert(apply_entries(apply_entry(m, e), Seq::<EntryView>::empty()) == apply_entry(m, e));
    } else {
        assert(es.push(e).drop_first() =~= es.drop_first().push(e));
        assert(es.push(e)[0] == es[0]);
        lemma_apply_entries_push(apply_entry(m, es[0]), es.drop_first(), e);
    }
}

impl Store {
    /// The part of the state held by the first `i` entries.
    closed spec fn prefix_state(&self, i: int) -> Map<Seq<char>, Seq<char>> {
        Map::new(
            |k: Seq<char>| self.index@.contains_key(k) && self.index@[k] < i,
            |k: Seq<char>| self.entries@[self.index@[k] as int].1@,
        )
    }

    proof fn lemma_snapshot_prefix(&self, i: int)
        requires
            self.wf(),
            0 <= i <= self.entries@.len(),
        ensures
            apply_entries(Map::empty(), self.snapshot().take(i)) == self.prefix_state(i),
        decreases i,
    {
        if i == 0 {
            assert(self.snapshot().take(0) =~= Seq::<EntryView>::empty());
            assert(self.prefix_state(0) =~= Map::<Seq<char>, Seq<char>>::empty());
        } else {
            self.lemma_snapshot_prefix(i - 1);
            let s = self.snapshot();
            assert(s.take(i - 1).push(s[i - 1]) =~= s.take(i));
            lemma_apply_entries_push(Map::empty(), s.take(i - 1), s[i - 1]);
            let k = self.entries@[i - 1].0@;
            assert(0 <= i - 1 < self.entries@.len());
            assert(self.index@.contains_key(self.entries@[i - 1].0@));
            assert(self.index@.contains_key(k) && self.index@[k] == i - 1);
            assert(s[i - 1] == EntryView::Put(k, self.entries@[i - 1].1@));
            assert(self.prefix_state(i - 1).insert(k, self.entries@[i - 1].1@) =~= self.prefix_state(i));
        }
    }

    proof fn lemma_snapshot_is_state(&self)
        requires
            self.wf(),
        ensures
            one_put_per_key(self.snapshot(), self@),
            state_fits(self@) ==> all_fit(self.snapshot()),
            apply_entries(Map::empty(), self.snapshot()) == self@,
    {
        let s = self.snapshot();
        let keys = self.entries@.map_values(|p: (String, String)| p.0@);
        assert forall|i: int| 0 <= i < s.len() implies (#[trigger] s[i] matches EntryView::Put(k, v)
            && self@.contains_key(k) && self@[k] == v) by {
            assert(self.index@.contains_key(self.entries@[i].0@));
        }
        assert forall|i: int, j: int| 0 <= i < j < s.len() implies #[trigger] entry_key(s[i])
            != #[trigger] entry_key(s[j]) by {
            assert(self.index@.contains_key(self.entries@[i].0@));
            assert(self.index@.contains_key(self.entries@[j].0@));
        }
        assert forall|k: Seq<char>| #[trigger] self@.contains_key(k) implies exists|i: int|
            0 <= i < s.len() && s[i] == EntryView::Put(k, self@[k]) by {
            let i = self.index@[k] as int;
            assert(s[i] == EntryView::Put(k, self@[k]));
        }
        assert(keys.no_duplicates()) by {
            assert forall|i: int, j: int| 0 <= i < keys.len() && 0 <= j < keys.len() && i != j
                implies keys[i] != keys[j] by {
                assert(self.index@.contains_key(self.entries@[i].0@));
                assert(self.index@.contains_key(self.entries@[j].0@));
            }
        }
        assert(self@.dom() =~= keys.to_set()) by {
            assert forall|k: Seq<char>| self@.dom().contains(k) implies keys.to_set().contains(k) by {
                let i = self.index@[k] as int;
                assert(keys[i] == k);
            }
            assert forall|k: Seq<char>| keys.to_set().contains(k) implies self@.dom().contains(k) by {
                let i = choose|i: int| 0 <= i < keys.len() && keys[i] == k;
                assert(self.index@.contains_key(self.entries@[i].0@));
            }
        }
        keys.unique_seq_to_set();
        self.lemma_snapshot_prefix(self.entries@.len() as int);
        assert(self.snapshot().take(self.entries@.len() as int) =~= self.snapshot());
        assert(self.prefix_state(self.entries@.len() as int) =~= self@);
        if state_fits(self@) {
            assert forall|i: int| 0 <= i < self.snapshot().len() implies fits(
                #[trigger] self.snapshot()[i],
            ) by {
                let k = self.entries@[i].0@;
                assert(self.index@.contains_key(k));
                assert(self@.contains_key(k));
            }
        }
    }
}

impl Database {
    /// The snapshot holds one put for each key of the state, with its value,
    /// and nothing else; applying it to an empty database gives this state.
    pub proof fn lemma_snapshot_is_state(&self)
        requires
            self.wf(),
        ensures
            one_put_per_key(self.snapshot(), self@),
            state_fits(self@) ==> all_fit(self.snapshot()),
            apply_entries(Map::empty(), self.snapshot()) == self@,
    {
        self.store.lemma_snapshot_is_state();
    }
}

/// A compacted log holds the state and nothing else: where every key and
/// value fits in a record, reading the log back gives a sequence of puts that
/// rebuilds exactly the state of the database it was made from.
pub proof fn lemma_compacted_log_rebuilds_state(db: &Database)
    requires
        db.wf(),
        state_fits(db@),
    ensures
        spec_replay(encode_log(db.snapshot())) == (db.snapshot(), Ok::<(), WalError>(())),
        one_put_per_key(db.snapshot(), db@),
        apply_entries(Map::empty(), db.snapshot()) == db@,
{
    db.lemma_snapshot_is_state();
    lemma_replay_encoded_log(db.snapshot());
}

/// The log follows the state: if the log holds the records of `es` and
/// replaying them gives `before`, then after the record of a change `e` is
/// appended, replaying the log gives `es` followed by `e`, and these rebuild
/// the state that applying `e` to `before` gives (what `commit` makes).
pub proof fn lemma_logged_write_replays(es: Seq<EntryView>, e: EntryView, before: Map<Seq<char>, Seq<char>>)
    requires
        all_fit(es),
        fits(e),
        apply_entries(Map::empty(), es) == before,
    ensures
        encode_log(es) + encode_record(e) == encode_log(es.push(e)),
        spec_replay(encode_log(es) + encode_record(e)) == (es.push(e), Ok::<(), WalError>(())),
        apply_entries(Map::empty(), es.push(e)) == apply_entry(before, e),
{
    lemma_encode_log_push(es, e);
    assert(all_fit(es.push(e))) by {
        assert forall|i: int| 0 <= i < es.push(e).len() implies fits(#[trigger] es.push(e)[i]) by {
            if i < es.len() {
                assert(es.push(e)[i] == es[i]);
            }
        }
    }
    lemma_replay_encoded_log(es.push(e));
    lemma_apply_entries_push(Map::empty(), es, e);
}

/// What a read gives back of a write: after `SET key value` is committed,
/// `GET key` answers `VALUE ` followed by the value.
pub proof fn lemma_get_after_set(m: Map<Seq<char>, Seq<char>>, key: Seq<char>, value: Seq<char>)
    ensures
        spec_prepare(m, CommandView::Put(key, value)) == Outcome::Write(EntryView::Put(key, value)),
        spec_prepare(
            apply_entry(m, EntryView::Put(key, value)),
            CommandView::Get(key),
        ) == Outcome::Reply("VALUE "@ + value),
{
}

/// After `DELETE key` is committed, `GET key` and `DELETE key` are refused
/// for want of the key.
pub proof fn lemma_get_after_delete(m: Map<Seq<char>, Seq<char>>, key: Seq<char>)
    ensures
        spec_prepare(apply_entry(m, EntryView::Del(key)), CommandView::Get(key))
            == Outcome::NoSuchKey(key),
        spec_prepare(apply_entry(m, EntryView::Del(key)), CommandView::Delete(key))
            == Outcome::NoSuchKey(key),
{
}

/// A write leaves every other key as it was.
pub proof fn lemma_write_leaves_other_keys(m: Map<Seq<char>, Seq<char>>, e: EntryView, other: Seq<char>)
    requires
        other != (match e {
            EntryView::Put(k, _) => k,
            EntryView::Del(k) => k,
        }),
    ensures
        apply_entry(m, e).contains_key(other) == m.contains_key(other),
        m.contains_key(other) ==> apply_entry(m, e)[other] == m[other],
{
}

/// What each command does in any state: a put is always logged and stores
/// the value; a stored key can always be read and deleted, whatever else the
/// state holds, and the delete removes just that key; a key that is not
/// stored is refused by name, for a read as for a delete.
pub proof fn lemma_commands_in_any_state(
    m: Map<Seq<char>, Seq<char>>,
    k: Seq<char>,
    v: Seq<char>,
)
    ensures
        spec_prepare(m, CommandView::Put(k, v)) == Outcome::Write(EntryView::Put(k, v)),
        apply_entry(m, EntryView::Put(k, v)) == m.insert(k, v),
        m.contains_key(k) ==> spec_prepare(m, CommandView::Get(k)) == Outcome::Reply(
            "VALUE "@ + m[k],
        ),
        m.contains_key(k) ==> spec_prepare(m, CommandView::Delete(k)) == Outcome::Write(
            EntryView::Del(k),
        ),
        apply_entry(m, EntryView::Del(k)) == m.remove(k),
        !m.contains_key(k) ==> spec_prepare(m, CommandView::Get(k)) == Outcome::NoSuchKey(k),
        !m.contains_key(k) ==> spec_prepare(m, CommandView::Delete(k)) == Outcome::NoSuchKey(k),
{
}

/// Deleting the last key works like deleting any other: from a state that
/// holds only `k`, `DELETE k` is logged and leaves the state empty.
pub proof fn lemma_delete_last_key(k: Seq<char>, v: Seq<char>)
    ensures
        ({
            let m = Map::<Seq<char>, Seq<char>>::empty().insert(k, v);
            &&& spec_prepare(m, CommandView::Delete(k)) == Outcome::Write(EntryView::Del(k))
            &&& apply_entry(m, EntryView::Del(k)) == Map::<Seq<char>, Seq<char>>::empty()
        }),
{
    let m = Map::<Seq<char>, Seq<char>>::empty().insert(k, v);
    assert(m.remove(k) =~= Map::<Seq<char>, Seq<char>>::empty());
}

} // verus!
