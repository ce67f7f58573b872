//! The path-keyed store of conversation records.

use vstd::prelude::*;
use vstd::string::*;
use crate::clock::{compact_utc, compact_utc_stamp, now_unix_seconds};
use crate::order::{all_distinct, lemma_text_lt_irreflexive, order_keys, precedes, text_lt, texts};
use vstd::set_lib::{lemma_int_range, lemma_len_subset, lemma_map_size, set_int_range};
use crate::record::{RecordView, SessionRecord, extract_preview, preview_of};
use crate::search::{
    conversation_contains_text, extract_search_preview, find_chars, first_match, mentions,
    search_preview,
};
use crate::text::{chars_of, starts_with};

verus! {

/// A stored entry as the store holds it: its key, and its record when the
/// stored value could be decoded into one.
pub type EntryView = (Seq<char>, Option<RecordView>);

/// One stored entry. `record` is `None` where the stored value could not be
/// decoded.
#[derive(Debug, Clone)]
pub struct StoreEntry {
    pub key: String,
    pub record: Option<SessionRecord>,
}

/// The content of an optional record.
pub open spec fn record_view(o: Option<SessionRecord>) -> Option<RecordView> {
    match o {
        Some(r) => Some(r@),
        None => None,
    }
}

impl View for StoreEntry {
    type V = EntryView;

    open spec fn view(&self) -> EntryView {
        (self.key@, record_view(self.record))
    }
}

/// The contents of the store, in the order in which it enumerates them.
/// Holds at most one entry per key.
#[derive(Debug, Clone)]
pub struct Database {
    entries: Vec<StoreEntry>,
}

/// Why a single lookup by path failed.
#[derive(Debug, Clone, Copy, PartialEq, Eq)]
pub enum DecodeError {
    /// The stored value is not a valid record.
    Malformed,
}

/// Why a restore did not take place.
#[derive(Debug, Clone, Copy, PartialEq, Eq)]
pub enum RestoreError {
    /// No record's identifier starts with the given fragment.
    NotFound,
    /// The entry already at the destination is not a valid record.
    Malformed,
    /// The clock gave no time from which to name a backup.
    ClockUnavailable,
    /// The key that would hold the backup is already taken; nothing was written.
    BackupExists,
}

/// What a restore did.
#[derive(Debug, Clone)]
pub struct RestoreOutcome {
    /// Where the restored record is stored besides the destination.
    pub original_path: String,
    /// The restored record.
    pub record: SessionRecord,
    /// The key under which the destination's previous record was saved.
    pub backup_key: Option<String>,
}

/// One line of a listing or of search results.
#[derive(Debug, Clone)]
pub struct ConversationSummary {
    pub id: String,
    pub path: String,
    /// Unix seconds; the time of the listing, as records carry no time.
    pub created_at: i64,
    /// Unix seconds; the time of the listing, as records carry no time.
    pub updated_at: i64,
    pub preview: String,
    pub message_count: usize,
}

/// The content of a `ConversationSummary`.
pub ghost struct SummaryView {
    pub id: Seq<char>,
    pub path: Seq<char>,
    pub created_at: i64,
    pub updated_at: i64,
    pub preview: Seq<char>,
    pub message_count: nat,
}

impl View for ConversationSummary {
    type V = SummaryView;

    open spec fn view(&self) -> SummaryView {
        SummaryView {
            id: self.id@,
            path: self.path@,
            created_at: self.created_at,
            updated_at: self.updated_at,
            preview: self.preview@,
            message_count: self.message_count as nat,
        }
    }
}

/// The contents of summaries.
pub open spec fn summaries(r: Seq<ConversationSummary>) -> Seq<SummaryView> {
    r.map_values(|s: ConversationSummary| s@)
}

/// The text of an optional `&str`.
pub open spec fn opt_text(o: Option<&str>) -> Option<Seq<char>> {
    match o {
        Some(s) => Some(s@),
        None => None,
    }
}

/// The summary of the decoded entry `e` with the given preview, made at `now`.
pub open spec fn summary_with(e: EntryView, preview: Seq<char>, now: i64) -> SummaryView {
    SummaryView {
        id: e.1->0.id,
        path: e.0,
        created_at: now,
        updated_at: now,
        preview: preview,
        message_count: e.1->0.prompts.len(),
    }
}

/// The key holds the path filter, if any (case-sensitive), the entry decodes,
/// and its record mentions the content filter, if any (ignoring case).
pub open spec fn listable(e: EntryView, pf: Option<Seq<char>>, cf: Option<Seq<char>>) -> bool {
    &&& match pf {
        Some(f) => first_match(e.0, f) is Some,
        None => true,
    }
    &&& e.1 is Some
    &&& match cf {
        Some(c) => mentions(e.1->0, c),
        None => true,
    }
}

/// `r` lists the `limit` listable entries of `db` with the greatest paths,
/// greatest first, with their plain previews.
pub open spec fn is_listing(
    db: Seq<EntryView>,
    r: Seq<SummaryView>,
    limit: nat,
    pf: Option<Seq<char>>,
    cf: Option<Seq<char>>,
    now: i64,
) -> bool {
    &&& r.len() <= limit
    &&& forall|i: int|
        #![trigger r[i]]
        0 <= i < r.len() ==> exists|j: int|
            0 <= j < db.len() && #[trigger] listable(db[j], pf, cf) && #[trigger] r[i] == summary_with(
                db[j],
                preview_of(db[j].1->0),
                now,
            )
    &&& forall|i: int, k: int| 0 <= i < k < r.len() ==> text_lt(r[k].path, r[i].path)
    &&& forall|j: int|
        0 <= j < db.len() && #[trigger] listable(db[j], pf, cf) && (r.len() < limit || (r.len() > 0
            && !text_lt(db[j].0, r.last().path))) ==> exists|i: int|
            0 <= i < r.len() && #[trigger] r[i] == summary_with(db[j], preview_of(db[j].1->0), now)
}

/// The entry decodes and its record mentions `q`, ignoring case.
pub open spec fn hit(e: EntryView, q: Seq<char>) -> bool {
    e.1 is Some && mentions(e.1->0, q)
}

/// How many of the first `j` entries are hits for `q`.
pub open spec fn hits_before(db: Seq<EntryView>, q: Seq<char>, j: int) -> nat
    decreases j,
{
    if j <= 0 {
        0
    } else {
        hits_before(db, q, j - 1) + if hit(db[j - 1], q) {
            1nat
        } else {
            0nat
        }
    }
}

/// Entry `j` is among the first `limit` hits for `q`, in enumeration order.
pub open spec fn selected(db: Seq<EntryView>, q: Seq<char>, limit: nat, j: int) -> bool {
    hit(db[j], q) && hits_before(db, q, j) < limit
}

/// `r` holds the first `limit` hits for `q`, in enumeration order, with their
/// search previews, sorted by ascending path.
pub open spec fn is_search_result(
    db: Seq<EntryView>,
    r: Seq<SummaryView>,
    q: Seq<char>,
    limit: nat,
    now: i64,
) -> bool {
    &&& forall|i: int|
        #![trigger r[i]]
        0 <= i < r.len() ==> exists|j: int|
            0 <= j < db.len() && #[trigger] selected(db, q, limit, j) && #[trigger] r[i] == summary_with(
                db[j],
                search_preview(db[j].1->0, q),
                now,
            )
    &&& forall|i: int, k: int| 0 <= i < k < r.len() ==> text_lt(r[i].path, r[k].path)
    &&& forall|j: int|
        0 <= j < db.len() && #[trigger] selected(db, q, limit, j) ==> exists|i: int|
            0 <= i < r.len() && #[trigger] r[i] == summary_with(db[j], search_preview(db[j].1->0, q), now)
}

/// No two entries share a key.
pub open spec fn keys_distinct(db: Seq<EntryView>) -> bool {
    forall|i: int, j: int| 0 <= i < db.len() && 0 <= j < db.len() && i != j ==> db[i].0 != db[j].0
}

/// `k` is the key of an entry.
pub open spec fn has_key(db: Seq<EntryView>, k: Seq<char>) -> bool {
    exists|i: int| 0 <= i < db.len() && db[i].0 == k
}

/// The position of the entry with key `k`.
pub open spec fn key_index(db: Seq<EntryView>, k: Seq<char>) -> int {
    choose|i: int| 0 <= i < db.len() && db[i].0 == k
}

/// What is stored under `k`: `None` when there is no such entry.
pub open spec fn lookup(db: Seq<EntryView>, k: Seq<char>) -> Option<Option<RecordView>> {
    if has_key(db, k) {
        Some(db[key_index(db, k)].1)
    } else {
        None
    }
}

/// The store after writing `v` under `k`: the entry with that key is
/// replaced in place, or a new one is added at the end.
pub open spec fn put(db: Seq<EntryView>, k: Seq<char>, v: Option<RecordView>) -> Seq<EntryView> {
    if has_key(db, k) {
        db.update(key_index(db, k), (k, v))
    } else {
        db.push((k, v))
    }
}

/// Writing keeps keys distinct, and reads back what was written.
pub proof fn lemma_put(db: Seq<EntryView>, k: Seq<char>, v: Option<RecordView>)
    requires
        keys_distinct(db),
    ensures
        keys_distinct(put(db, k, v)),
        lookup(put(db, k, v), k) == Some(v),
        forall|k2: Seq<char>| k2 != k ==> lookup(put(db, k, v), k2) == lookup(db, k2),
        put(db, k, v).len() == if has_key(db, k) {
            db.len()
        } else {
            db.len() + 1
        },
{
    let d2 = put(db, k, v);
    if has_key(db, k) {
        let i = key_index(db, k);
        assert(d2[i].0 == k);
    } else {
        assert(d2[db.len() as int].0 == k);
    }
    assert forall|k2: Seq<char>| k2 != k implies lookup(d2, k2) == lookup(db, k2) by {
        if has_key(db, k2) {
            let i2 = key_index(db, k2);
            assert(d2[i2].0 == k2);
        }
        if has_key(d2, k2) {
            let i2 = key_index(d2, k2);
            assert(db[i2].0 == k2);
        }
    }
}

/// The identifier of the record of `e` starts with `frag` (an exact match
/// included).
pub open spec fn id_matches(e: EntryView, frag: Seq<char>) -> bool {
    e.1 is Some && frag.is_prefix_of(e.1->0.id)
}

/// The position of the first entry from `i` on whose identifier starts with `frag`.
pub open spec fn resolve_from(db: Seq<EntryView>, frag: Seq<char>, i: int) -> Option<int>
    decreases db.len() - i,
{
    if i < 0 || i >= db.len() {
        None
    } else if id_matches(db[i], frag) {
        Some(i)
    } else {
        resolve_from(db, frag, i + 1)
    }
}

/// The position of the first entry, in enumeration order, whose identifier
/// starts with `frag`.
pub open spec fn resolve(db: Seq<EntryView>, frag: Seq<char>) -> Option<int> {
    resolve_from(db, frag, 0)
}

/// The key under which a backup of the entry at `path` taken at `stamp` is stored.
pub open spec fn backup_key(path: Seq<char>, stamp: Seq<char>) -> Seq<char> {
    path + ".backup."@ + stamp
}

/// The store after restoring the record that `id` resolves to into `cur`,
/// naming a backup with `stamp`.
pub open spec fn restored(db: Seq<EntryView>, id: Seq<char>, cur: Seq<char>, stamp: Seq<char>) -> Seq<
    EntryView,
> {
    match resolve(db, id) {
        None => db,
        Some(j) => match lookup(db, cur) {
            None => put(db, cur, db[j].1),
            Some(None) => db,
            Some(Some(ex)) => if has_key(db, backup_key(cur, stamp)) {
                db
            } else {
                put(put(db, backup_key(cur, stamp), Some(ex)), cur, db[j].1)
            },
        },
    }
}

/// What a restore returns, given the store `db` before it.
pub open spec fn restore_result(
    db: Seq<EntryView>,
    id: Seq<char>,
    cur: Seq<char>,
    stamp: Seq<char>,
    r: Result<RestoreOutcome, RestoreError>,
) -> bool {
    match resolve(db, id) {
        None => r == Err::<RestoreOutcome, RestoreError>(RestoreError::NotFound),
        Some(j) => match lookup(db, cur) {
            Some(None) => r == Err::<RestoreOutcome, RestoreError>(RestoreError::Malformed),
            Some(Some(ex)) => if has_key(db, backup_key(cur, stamp)) {
                r == Err::<RestoreOutcome, RestoreError>(RestoreError::BackupExists)
            } else {
                &&& r is Ok
                &&& r->Ok_0.original_path@ == db[j].0
                &&& Some(r->Ok_0.record@) == db[j].1
                &&& r->Ok_0.backup_key matches Some(k) && k@ == backup_key(cur, stamp)
            },
            None => r is Ok && r->Ok_0.original_path@ == db[j].0 && Some(r->Ok_0.record@)
                == db[j].1 && r->Ok_0.backup_key is None,
        },
    }
}

impl Database {
    /// The entries, in enumeration order.
    pub closed spec fn view(&self) -> Seq<EntryView> {
        self.entries@.map_values(|e: StoreEntry| e@)
    }

    /// At most one entry per key.
    pub open spec fn wf(&self) -> bool {
        keys_distinct(self.view())
    }

    /// An empty store.
    pub fn new() -> (r: Database)
        ensures
            r.wf(),
            r.view() == Seq::<EntryView>::empty(),
    {
        let r = Database { entries: Vec::new() };
        assert(r.view() =~= Seq::<EntryView>::empty());
        r
    }

    /// The entries, in enumeration order.
    pub fn entries(&self) -> (r: &Vec<StoreEntry>)
        ensures
            r@.map_values(|e: StoreEntry| e@) == self.view(),
    {
        &self.entries
    }

    /// The position of the entry with key `key`, if any.
    fn find_key(&self, key: &str) -> (r: Option<usize>)
        requires
            self.wf(),
        ensures
            match r {
                Some(i) => i < self.view().len() && self.view()[i as int].0 == key@ && has_key(
                    self.view(),
                    key@,
                ) && key_index(self.view(), key@) == i,
                None => !has_key(self.view(), key@),
            },
    {
        let mut i: usize = 0;
        while i < self.entries.len()
            invariant
                self.wf(),
                i <= self.view().len(),
                self.view().len() == self.entries@.len(),
                forall|j: int| 0 <= j < i ==> self.view()[j].0 != key@,
            decreases self.entries.len() - i,
        {
            let k = self.entries[i].key.as_str();
            if k.unicode_len() == key.unicode_len() && starts_with(k, key) {
                assert(key@ =~= self.view()[i as int].0);
                assert(self.view()[key_index(self.view(), key@)].0 == key@);
                return Some(i);
            }
            i += 1;
        }
        None
    }

    /// Stores `record` under `key`, replacing what was there (see `put`).
    pub fn set_entry(&mut self, key: &str, record: Option<SessionRecord>)
        requires
            old(self).wf(),
        ensures
            final(self).wf(),
            final(self).view() == put(old(self).view(), key@, record_view(record)),
    {
        let ghost v = record_view(record);
        let e = StoreEntry { key: String::from_str(key), record };
        match self.find_key(key) {
            Some(i) => {
                self.entries.set(i, e);
            },
            None => {
                self.entries.push(e);
            },
        }
        assert(self.view() =~= put(old(self).view(), key@, v));
        proof {
            lemma_put(old(self).view(), key@, v);
        }
    }

    /// Stores `state` under `path`, replacing what was there.
    pub fn set_conversation_by_path(&mut self, path: &str, state: &SessionRecord)
        requires
            old(self).wf(),
        ensures
            final(self).wf(),
            final(self).view() == put(old(self).view(), path@, Some(state@)),
    {
        self.set_entry(path, Some(state.duplicate()));
    }

    /// The record stored under `path`: `Ok(None)` when there is none, an
    /// error when the stored value is not a record.
    pub fn get_conversation_by_path(&self, path: &str) -> (r: Result<
        Option<SessionRecord>,
        DecodeError,
    >)
        requires
            self.wf(),
        ensures
            match lookup(self.view(), path@) {
                None => r == Ok::<Option<SessionRecord>, DecodeError>(None),
                Some(None) => r == Err::<Option<SessionRecord>, DecodeError>(DecodeError::Malformed),
                Some(Some(v)) => r is Ok && r->Ok_0 is Some && r->Ok_0->0@ == v,
            },
    {
        match self.find_key(path) {
            None => Ok(None),
            Some(i) => match &self.entries[i].record {
                Some(s) => Ok(Some(s.duplicate())),
                None => Err(DecodeError::Malformed),
            },
        }
    }
}

/// Restoring onto a destination that holds a record never overwrites a
/// backup: where the backup key is taken the store stays as it was.
/// Otherwise exactly one entry is added, a backup of that record under a key
/// other than the destination's; the destination then holds the resolved
/// record, and every other key keeps what it held.
pub proof fn lemma_restore_backs_up_existing(
    db: Seq<EntryView>,
    id: Seq<char>,
    cur: Seq<char>,
    stamp: Seq<char>,
    existing: RecordView,
)
    requires
        keys_distinct(db),
        resolve(db, id) is Some,
        lookup(db, cur) == Some(Some(existing)),
    ensures
        has_key(db, backup_key(cur, stamp)) ==> restored(db, id, cur, stamp) == db,
        !has_key(db, backup_key(cur, stamp)) ==> {
            let d2 = restored(db, id, cur, stamp);
            &&& keys_distinct(d2)
            &&& d2.len() == db.len() + 1
            &&& backup_key(cur, stamp) != cur
            &&& lookup(d2, backup_key(cur, stamp)) == Some(Some(existing))
            &&& lookup(d2, cur) == Some(db[resolve(db, id)->0].1)
            &&& forall|k: Seq<char>|
                k != cur && k != backup_key(cur, stamp) ==> lookup(d2, k) == lookup(db, k)
        },
{
    reveal_strlit(".backup.");
    let bk = backup_key(cur, stamp);
    assert(bk.len() > cur.len());
    if !has_key(db, bk) {
        let d1 = put(db, bk, Some(existing));
        lemma_put(db, bk, Some(existing));
        lemma_put(d1, cur, db[resolve(db, id)->0].1);
        assert(has_key(db, cur));
        let i = key_index(db, cur);
        assert(d1[i].0 == cur);
        assert(has_key(d1, cur));
    }
}

/// A store with no entries lists nothing, whatever the limit and filters.
pub proof fn lemma_empty_store_lists_nothing(
    r: Seq<SummaryView>,
    limit: nat,
    pf: Option<Seq<char>>,
    cf: Option<Seq<char>>,
    now: i64,
)
    requires
        is_listing(Seq::<EntryView>::empty(), r, limit, pf, cf, now),
    ensures
        r.len() == 0,
{
    if r.len() > 0 {
        let x = r[0];
    }
}

/// The positions of the listable entries of `db`.
pub open spec fn listable_positions(db: Seq<EntryView>, pf: Option<Seq<char>>, cf: Option<Seq<char>>) -> Set<
    int,
> {
    Set::new(|j: int| 0 <= j < db.len() && listable(db[j], pf, cf))
}

/// A listing holds exactly `limit` summaries, or every listable entry when
/// there are fewer.
pub proof fn lemma_listing_honors_limit(
    db: Seq<EntryView>,
    r: Seq<SummaryView>,
    limit: nat,
    pf: Option<Seq<char>>,
    cf: Option<Seq<char>>,
    now: i64,
)
    requires
        keys_distinct(db),
        is_listing(db, r, limit, pf, cf, now),
    ensures
        r.len() == if limit < listable_positions(db, pf, cf).len() {
            limit
        } else {
            listable_positions(db, pf, cf).len()
        },
{
    let ls = listable_positions(db, pf, cf);
    lemma_int_range(0, db.len() as int);
    lemma_len_subset(ls, set_int_range(0, db.len() as int));
    lemma_int_range(0, r.len() as int);
    let rs = set_int_range(0, r.len() as int);
    let to_entry = |i: int|
        choose|j: int|
            0 <= j < db.len() && #[trigger] listable(db[j], pf, cf) && r[i] == summary_with(
                db[j],
                preview_of(db[j].1->0),
                now,
            );
    assert forall|i: int| rs.contains(i) implies ls.contains(to_entry(i)) && r[i] == summary_with(
        db[to_entry(i)],
        preview_of(db[to_entry(i)].1->0),
        now,
    ) by {
        let x = r[i];
    }
    assert forall|a: int, b: int| rs.contains(a) && rs.contains(b) && to_entry(a) == to_entry(b) implies a
        == b by {
        if a != b {
            lemma_text_lt_irreflexive(r[a].path);
        }
    }
    lemma_map_size(rs, rs.map(to_entry), to_entry);
    lemma_len_subset(rs.map(to_entry), ls);
    if r.len() < limit {
        let to_row = |j: int|
            choose|i: int|
                0 <= i < r.len() && #[trigger] r[i] == summary_with(db[j], preview_of(db[j].1->0), now);
        assert forall|j: int| ls.contains(j) implies rs.contains(to_row(j)) && r[to_row(j)]
            == summary_with(db[j], preview_of(db[j].1->0), now) by {
            assert(listable(db[j], pf, cf));
        }
        assert forall|a: int, b: int| ls.contains(a) && ls.contains(b) && to_row(a) == to_row(b) implies a
            == b by {
            assert(db[a].0 == db[b].0);
        }
        lemma_map_size(ls, ls.map(to_row), to_row);
        lemma_len_subset(ls.map(to_row), rs);
    }
}

impl Database {
    /// The first record, in enumeration order, whose identifier starts with
    /// `id`, with its path (see `resolve`).
    pub fn get_conversation_by_id(&self, id: &str) -> (r: Option<(String, SessionRecord)>)
        ensures
            match resolve(self.view(), id@) {
                Some(j) => {
                    &&& r matches Some((p, s)) && p@ == self.view()[j].0 && Some(s@)
                        == self.view()[j].1
                },
                None => r is None,
            },
    {
        let mut i: usize = 0;
        while i < self.entries.len()
            invariant
                i <= self.view().len(),
                self.view().len() == self.entries@.len(),
                resolve(self.view(), id@) == resolve_from(self.view(), id@, i as int),
            decreases self.entries.len() - i,
        {
            match &self.entries[i].record {
                Some(s) => {
                    if starts_with(s.conversation_id(), id) {
                        return Some((self.entries[i].key.clone(), s.duplicate()));
                    }
                },
                None => {},
            }
            i += 1;
        }
        None
    }

    /// The positions of `cands` keyed by their entries' paths, with
    /// those keys; `cands` must be increasing.
    fn keys_of(&self, cands: &Vec<usize>) -> (keys: Vec<Vec<char>>)
        requires
            self.wf(),
            forall|x: int| 0 <= x < cands@.len() ==> cands@[x] < self.view().len(),
            forall|x: int, y: int| 0 <= x < y < cands@.len() ==> cands@[x] < cands@[y],
        ensures
            keys@.len() == cands@.len(),
            forall|x: int| 0 <= x < cands@.len() ==> #[trigger] keys@[x]@ == self.view()[cands@[x] as int].0,
            all_distinct(texts(keys@)),
    {
        let mut keys: Vec<Vec<char>> = Vec::new();
        let mut x: usize = 0;
        while x < cands.len()
            invariant
                self.view().len() == self.entries@.len(),
                forall|y: int| 0 <= y < cands@.len() ==> cands@[y] < self.view().len(),
                x <= cands@.len(),
                keys@.len() == x,
                forall|y: int| 0 <= y < x ==> #[trigger] keys@[y]@ == self.view()[cands@[y] as int].0,
            decreases cands.len() - x,
        {
            keys.push(chars_of(self.entries[cands[x]].key.as_str()));
            x += 1;
        }
        assert forall|a: int, b: int|
            0 <= a < keys@.len() && 0 <= b < keys@.len() && a != b implies texts(keys@)[a]
            != texts(keys@)[b] by {
            assert(cands@[a] != cands@[b]);
        }
        keys
    }

    /// The summary of the entry at `i`, which decodes, with `preview`.
    fn summary_at(&self, i: usize, preview: String, now: i64) -> (r: ConversationSummary)
        requires
            i < self.view().len(),
            self.view()[i as int].1 is Some,
        ensures
            r@ == summary_with(self.view()[i as int], preview@, now),
    {
        let e = &self.entries[i];
        match &e.record {
            Some(rec) => ConversationSummary {
                id: rec.id.clone(),
                path: e.key.clone(),
                created_at: now,
                updated_at: now,
                preview,
                message_count: rec.history.len(),
            },
            None => {
                proof {
                    assert(false);
                }
                ConversationSummary {
                    id: String::new(),
                    path: String::new(),
                    created_at: now,
                    updated_at: now,
                    preview,
                    message_count: 0,
                }
            },
        }
    }

    /// Lists up to `limit` listable entries, greatest path first, stamped
    /// with `now` (see `is_listing`).
    pub fn list_conversations_at(
        &self,
        limit: usize,
        path_filter: Option<&str>,
        contains_filter: Option<&str>,
        now: i64,
    ) -> (r: Vec<ConversationSummary>)
        requires
            self.wf(),
        ensures
            is_listing(
                self.view(),
                summaries(r@),
                limit as nat,
                opt_text(path_filter),
                opt_text(contains_filter),
                now,
            ),
    {
        let ghost db = self.view();
        let ghost pf = opt_text(path_filter);
        let ghost cf = opt_text(contains_filter);
        let filter_chars = match path_filter {
            Some(f) => Some(chars_of(f)),
            None => None,
        };
        let mut cands: Vec<usize> = Vec::new();
        let mut i: usize = 0;
        while i < self.entries.len()
            invariant
                db == self.view(),
                db.len() == self.entries@.len(),
                i <= db.len(),
                match path_filter {
                    Some(f) => filter_chars matches Some(fc) && fc@ == f@,
                    None => filter_chars is None,
                },
                pf == opt_text(path_filter),
                cf == opt_text(contains_filter),
                forall|x: int| 0 <= x < cands@.len() ==> cands@[x] < i,
                forall|x: int| 0 <= x < cands@.len() ==> listable(db[#[trigger] cands@[x] as int], pf, cf),
                forall|x: int, y: int| 0 <= x < y < cands@.len() ==> cands@[x] < cands@[y],
                forall|j: usize| j < i && listable(db[j as int], pf, cf) ==> #[trigger] cands@.contains(j),
            decreases self.entries.len() - i,
        {
            let ghost old_cands = cands@;
            let e = &self.entries[i];
            assert(db[i as int] == e@);
            let path_ok = match &filter_chars {
                Some(fc) => find_chars(&chars_of(e.key.as_str()), fc).is_some(),
                None => true,
            };
            assert(path_ok == match pf {
                Some(f) => first_match(db[i as int].0, f) is Some,
                None => true,
            });
            if path_ok {
                match &e.record {
                    Some(rec) => {
                        let content_ok = match contains_filter {
                            Some(c) => conversation_contains_text(rec, c),
                            None => true,
                        };
                        assert(path_ok && content_ok <==> listable(db[i as int], pf, cf));
                        if content_ok {
                            cands.push(i);
                        }
                    },
                    None => {},
                }
            }
            proof {
                assert forall|j: usize| j < i + 1 && listable(db[j as int], pf, cf) implies #[trigger] cands@.contains(j) by {
                    if j == i {
                        assert(cands@[cands@.len() - 1] == i);
                    } else {
                        assert(old_cands.contains(j));
                        let x = choose|x: int| 0 <= x < old_cands.len() && old_cands[x] == j;
                        assert(cands@[x] == j);
                    }
                }
            }
            i += 1;
        }
        let keys = self.keys_of(&cands);
        let out = order_keys(&keys, true, Some(limit));
        let mut r: Vec<ConversationSummary> = Vec::new();
        let mut x: usize = 0;
        while x < out.len()
            invariant
                db == self.view(),
                x <= out@.len(),
                r@.len() == x,
                forall|y: int| 0 <= y < out@.len() ==> out@[y] < cands@.len(),
                forall|y: int| 0 <= y < cands@.len() ==> cands@[y] < db.len(),
                forall|y: int| 0 <= y < cands@.len() ==> listable(db[#[trigger] cands@[y] as int], pf, cf),
                forall|y: int|
                    0 <= y < x ==> #[trigger] r@[y]@ == summary_with(
                        db[cands@[out@[y] as int] as int],
                        preview_of(db[cands@[out@[y] as int] as int].1->0),
                        now,
                    ),
            decreases out.len() - x,
        {
            let j = cands[out[x]];
            assert(listable(db[j as int], pf, cf));
            let preview = match &self.entries[j].record {
                Some(rec) => extract_preview(rec),
                None => String::new(),
            };
            r.push(self.summary_at(j, preview, now));
            x += 1;
        }
        proof {
            let rv = summaries(r@);
            assert forall|a: int| 0 <= a < rv.len() implies exists|j: int|
                0 <= j < db.len() && #[trigger] listable(db[j], pf, cf) && #[trigger] rv[a] == summary_with(
                    db[j],
                    preview_of(db[j].1->0),
                    now,
                ) by {
                let j = cands@[out@[a] as int] as int;
                assert(listable(db[j], pf, cf));
            }
            assert forall|a: int, b: int| 0 <= a < b < rv.len() implies text_lt(rv[b].path, rv[a].path) by {
                assert(texts(keys@)[out@[a] as int] == keys@[out@[a] as int]@);
                assert(texts(keys@)[out@[b] as int] == keys@[out@[b] as int]@);
                assert(rv[a] == r@[a]@);
                assert(rv[b] == r@[b]@);
                assert(keys@[out@[a] as int]@ == db[cands@[out@[a] as int] as int].0);
                assert(keys@[out@[b] as int]@ == db[cands@[out@[b] as int] as int].0);
                assert(precedes(texts(keys@)[out@[a] as int], texts(keys@)[out@[b] as int], true));
                assert(rv[a].path == db[cands@[out@[a] as int] as int].0);
            }
            assert forall|j: int|
                0 <= j < db.len() && #[trigger] listable(db[j], pf, cf) && (rv.len() < limit || (rv.len() > 0
                    && !text_lt(db[j].0, rv.last().path))) implies exists|a: int|
                    0 <= a < rv.len() && #[trigger] rv[a] == summary_with(db[j], preview_of(db[j].1->0), now) by {
                assert(cands@.contains(j as usize));
                let c = choose|c: int| 0 <= c < cands@.len() && cands@[c] == j as usize;
                assert(texts(keys@)[c] == keys@[c]@);
                if rv.len() > 0 {
                    let l = out@.last() as int;
                    assert(texts(keys@)[l] == keys@[l]@);
                }
                assert(out@.contains(c as usize));
                let a = choose|a: int| 0 <= a < out@.len() && out@[a] == c as usize;
                assert(rv[a] == summary_with(db[j], preview_of(db[j].1->0), now));
            }
        }
        r
    }

    /// The first `limit` entries whose records mention `query`, in
    /// enumeration order, sorted by ascending path, with search previews and
    /// stamped with `now` (see `is_search_result`).
    pub fn search_conversations_at(&self, query: &str, limit: usize, now: i64) -> (r: Vec<
        ConversationSummary,
    >)
        requires
            self.wf(),
        ensures
            is_search_result(self.view(), summaries(r@), query@, limit as nat, now),
    {
        let ghost db = self.view();
        let ghost q = query@;
        let mut cands: Vec<usize> = Vec::new();
        let mut count: usize = 0;
        let mut i: usize = 0;
        while i < self.entries.len()
            invariant
                db == self.view(),
                q == query@,
                db.len() == self.entries@.len(),
                i <= db.len(),
                count <= i,
                count == hits_before(db, q, i as int),
                forall|x: int| 0 <= x < cands@.len() ==> cands@[x] < i,
                forall|x: int| 0 <= x < cands@.len() ==> selected(db, q, limit as nat, #[trigger] cands@[x] as int),
                forall|x: int, y: int| 0 <= x < y < cands@.len() ==> cands@[x] < cands@[y],
                forall|j: usize| j < i && selected(db, q, limit as nat, j as int) ==> #[trigger] cands@.contains(j),
            decreases self.entries.len() - i,
        {
            let ghost old_cands = cands@;
            let e = &self.entries[i];
            assert(db[i as int] == e@);
            let found = match &e.record {
                Some(rec) => conversation_contains_text(rec, query),
                None => false,
            };
            assert(found == hit(db[i as int], q));
            if found {
                if count < limit {
                    cands.push(i);
                }
                count += 1;
            }
            proof {
                assert forall|j: usize| j < i + 1 && selected(db, q, limit as nat, j as int) implies #[trigger] cands@.contains(j) by {
                    if j == i {
                        assert(cands@[cands@.len() - 1] == i);
                    } else {
                        assert(old_cands.contains(j));
                        let x = choose|x: int| 0 <= x < old_cands.len() && old_cands[x] == j;
                        assert(cands@[x] == j);
                    }
                }
            }
            i += 1;
        }
        let keys = self.keys_of(&cands);
        let out = order_keys(&keys, false, None);
        let mut r: Vec<ConversationSummary> = Vec::new();
        let mut x: usize = 0;
        while x < out.len()
            invariant
                db == self.view(),
                q == query@,
                x <= out@.len(),
                r@.len() == x,
                forall|y: int| 0 <= y < out@.len() ==> out@[y] < cands@.len(),
                forall|y: int| 0 <= y < cands@.len() ==> cands@[y] < db.len(),
                forall|y: int| 0 <= y < cands@.len() ==> selected(db, q, limit as nat, #[trigger] cands@[y] as int),
                forall|y: int|
                    0 <= y < x ==> #[trigger] r@[y]@ == summary_with(
                        db[cands@[out@[y] as int] as int],
                        search_preview(db[cands@[out@[y] as int] as int].1->0, q),
                        now,
                    ),
            decreases out.len() - x,
        {
            let j = cands[out[x]];
            assert(selected(db, q, limit as nat, j as int));
            let preview = match &self.entries[j].record {
                Some(rec) => extract_search_preview(rec, query),
                None => String::new(),
            };
            r.push(self.summary_at(j, preview, now));
            x += 1;
        }
        proof {
            let rv = summaries(r@);
            assert forall|a: int| 0 <= a < rv.len() implies exists|j: int|
                0 <= j < db.len() && #[trigger] selected(db, q, limit as nat, j) && #[trigger] rv[a] == summary_with(
                    db[j],
                    search_preview(db[j].1->0, q),
                    now,
                ) by {
                let j = cands@[out@[a] as int] as int;
                assert(selected(db, q, limit as nat, j));
            }
            assert forall|a: int, b: int| 0 <= a < b < rv.len() implies text_lt(rv[a].path, rv[b].path) by {
                assert(texts(keys@)[out@[a] as int] == keys@[out@[a] as int]@);
                assert(texts(keys@)[out@[b] as int] == keys@[out@[b] as int]@);
                assert(rv[a] == r@[a]@);
                assert(rv[b] == r@[b]@);
                assert(keys@[out@[a] as int]@ == db[cands@[out@[a] as int] as int].0);
                assert(keys@[out@[b] as int]@ == db[cands@[out@[b] as int] as int].0);
                assert(precedes(texts(keys@)[out@[a] as int], texts(keys@)[out@[b] as int], false));
                assert(rv[a].path == db[cands@[out@[a] as int] as int].0);
            }
            assert forall|j: int|
                0 <= j < db.len() && #[trigger] selected(db, q, limit as nat, j) implies exists|a: int|
                    0 <= a < rv.len() && #[trigger] rv[a] == summary_with(db[j], search_preview(db[j].1->0, q), now) by {
                assert(cands@.contains(j as usize));
                let c = choose|c: int| 0 <= c < cands@.len() && cands@[c] == j as usize;
                assert(out@.contains(c as usize));
                let a = choose|a: int| 0 <= a < out@.len() && out@[a] == c as usize;
                assert(rv[a] == summary_with(db[j], search_preview(db[j].1->0, q), now));
            }
        }
        r
    }

    /// Lists up to `limit` listable entries, greatest path first, stamped
    /// with the current time (see `is_listing`).
    pub fn list_conversations(
        &self,
        limit: usize,
        path_filter: Option<&str>,
        contains_filter: Option<&str>,
    ) -> (r: Vec<ConversationSummary>)
        requires
            self.wf(),
        ensures
            exists|now: i64|
                is_listing(
                    self.view(),
                    summaries(r@),
                    limit as nat,
                    opt_text(path_filter),
                    opt_text(contains_filter),
                    now,
                ),
    {
        let now = match now_unix_seconds() {
            Some(t) => t,
            None => 0,
        };
        self.list_conversations_at(limit, path_filter, contains_filter, now)
    }

    /// The first `limit` entries whose records mention `query`, sorted by
    /// ascending path and stamped with the current time (see
    /// `is_search_result`).
    pub fn search_conversations(&self, query: &str, limit: usize) -> (r: Vec<ConversationSummary>)
        requires
            self.wf(),
        ensures
            exists|now: i64| is_search_result(self.view(), summaries(r@), query@, limit as nat, now),
    {
        let now = match now_unix_seconds() {
            Some(t) => t,
            None => 0,
        };
        self.search_conversations_at(query, limit, now)
    }

    /// Saves `state` under the backup key of `original_path` for `stamp` and
    /// returns that key, leaving every other entry alone; `None`, with the
    /// store unchanged, where that key is already taken.
    pub fn backup_conversation_at(&mut self, original_path: &str, state: &SessionRecord, stamp: &str) -> (r:
        Option<String>)
        requires
            old(self).wf(),
        ensures
            final(self).wf(),
            match r {
                Some(k) => {
                    &&& k@ == backup_key(original_path@, stamp@)
                    &&& !has_key(old(self).view(), k@)
                    &&& final(self).view() == old(self).view().push((k@, Some(state@)))
                },
                None => has_key(old(self).view(), backup_key(original_path@, stamp@))
                    && final(self).view() == old(self).view(),
            },
    {
        let mut key = String::from_str(original_path);
        proof {
            reveal_strlit(".backup.");
        }
        key.append(".backup.");
        key.append(stamp);
        match self.find_key(key.as_str()) {
            Some(_) => None,
            None => {
                self.set_conversation_by_path(key.as_str(), state);
                Some(key)
            },
        }
    }

    /// Saves `state` under a backup key of `original_path` named after the
    /// current UTC time and returns that key; `None`, with the store
    /// unchanged, where the clock gives no usable time or the key is taken.
    pub fn backup_conversation(&mut self, original_path: &str, state: &SessionRecord) -> (r: Option<
        String,
    >)
        requires
            old(self).wf(),
        ensures
            final(self).wf(),
            match r {
                Some(k) => exists|secs: int|
                    {
                        &&& k@ == backup_key(original_path@, compact_utc(secs))
                        &&& !has_key(old(self).view(), k@)
                        &&& final(self).view() == old(self).view().push((k@, Some(state@)))
                    },
                None => final(self).view() == old(self).view(),
            },
    {
        let now = match now_unix_seconds() {
            Some(t) => t,
            None => {
                return None;
            },
        };
        match compact_utc_stamp(now) {
            Some(stamp) => self.backup_conversation_at(original_path, state, stamp.as_str()),
            None => None,
        }
    }

    /// Restores the record that `id` resolves to into `current_path`, saving
    /// the record already there, if any, under the backup key for `stamp`
    /// first (see `restored` and `restore_result`).
    pub fn restore_conversation_at(&mut self, id: &str, current_path: &str, stamp: &str) -> (r: Result<
        RestoreOutcome,
        RestoreError,
    >)
        requires
            old(self).wf(),
        ensures
            final(self).wf(),
            final(self).view() == restored(old(self).view(), id@, current_path@, stamp@),
            restore_result(old(self).view(), id@, current_path@, stamp@, r),
    {
        let (original_path, record) = match self.get_conversation_by_id(id) {
            Some(found) => found,
            None => {
                return Err(RestoreError::NotFound);
            },
        };
        let backup = match self.get_conversation_by_path(current_path) {
            Err(_) => {
                return Err(RestoreError::Malformed);
            },
            Ok(Some(existing)) => match self.backup_conversation_at(current_path, &existing, stamp) {
                Some(k) => Some(k),
                None => {
                    return Err(RestoreError::BackupExists);
                },
            },
            Ok(None) => None,
        };
        self.set_conversation_by_path(current_path, &record);
        Ok(RestoreOutcome { original_path, record, backup_key: backup })
    }

    /// Restores the record that `id` resolves to into `current_path`. Where a
    /// record is already there, it is first saved under a backup key named
    /// after the current UTC time; the clock is read only then.
    pub fn restore_conversation(&mut self, id: &str, current_path: &str) -> (r: Result<
        RestoreOutcome,
        RestoreError,
    >)
        requires
            old(self).wf(),
        ensures
            final(self).wf(),
            match resolve(old(self).view(), id@) {
                None => r == Err::<RestoreOutcome, RestoreError>(RestoreError::NotFound)
                    && final(self).view() == old(self).view(),
                Some(j) => match lookup(old(self).view(), current_path@) {
                    Some(None) => r == Err::<RestoreOutcome, RestoreError>(RestoreError::Malformed)
                        && final(self).view() == old(self).view(),
                    None => {
                        &&& final(self).view() == put(old(self).view(), current_path@, old(self).view()[j].1)
                        &&& r is Ok
                        &&& r->Ok_0.original_path@ == old(self).view()[j].0
                        &&& Some(r->Ok_0.record@) == old(self).view()[j].1
                        &&& r->Ok_0.backup_key is None
                    },
                    Some(Some(_)) => (r == Err::<RestoreOutcome, RestoreError>(RestoreError::ClockUnavailable)
                        && final(self).view() == old(self).view()) || exists|secs: int|
                        {
                            &&& final(self).view() == restored(old(self).view(), id@, current_path@, compact_utc(secs))
                            &&& restore_result(old(self).view(), id@, current_path@, compact_utc(secs), r)
                        },
                },
            },
    {
        let needs_backup = match self.get_conversation_by_id(id) {
            None => false,
            Some(_) => match self.find_key(current_path) {
                Some(i) => self.entries[i].record.is_some(),
                None => false,
            },
        };
        if !needs_backup {
            return self.restore_conversation_at(id, current_path, "");
        }
        let now = match now_unix_seconds() {
            Some(t) => t,
            None => {
                return Err(RestoreError::ClockUnavailable);
            },
        };
        match compact_utc_stamp(now) {
            Some(stamp) => self.restore_conversation_at(id, current_path, stamp.as_str()),
            None => Err(RestoreError::ClockUnavailable),
        }
    }
}

} // verus!
