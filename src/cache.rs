use vstd::prelude::*;
use crate::json::{encode_value, json_parses};
use crate::plan::decode_payload;
use crate::models::{CacheEntry, CacheError, CacheRequest, CacheTag, EntryView, TagView};
use crate::utils::{expiry_time, future_time};

verus! {

/// The set of the views of the items of `s`: a table read as a relation.
pub open spec fn view_set<T: View>(s: Seq<T>) -> Set<T::V> {
    Set::new(|v: T::V| exists|i: int| 0 <= i < s.len() && s[i]@ == v)
}

pub(crate) proof fn lemma_view_set_push<T: View>(s: Seq<T>, x: T)
    ensures
        view_set(s.push(x)) == view_set(s).insert(x@),
{
    let l = view_set(s.push(x));
    let r = view_set(s).insert(x@);
    assert forall|v: T::V| r.contains(v) implies l.contains(v) by {
        if v == x@ {
            assert(s.push(x)[s.len() as int] == x);
        } else {
            let i = choose|i: int| 0 <= i < s.len() && s[i]@ == v;
            assert(s.push(x)[i] == s[i]);
        }
    }
    assert forall|v: T::V| l.contains(v) implies r.contains(v) by {
        let i = choose|i: int| 0 <= i < s.len() + 1 && s.push(x)[i]@ == v;
        if i < s.len() {
            assert(s.push(x)[i] == s[i]);
        }
    }
    assert(l =~= r);
}

pub(crate) proof fn lemma_view_set_prefix<T: View>(s: Seq<T>, i: int)
    requires
        0 <= i < s.len(),
    ensures
        view_set(s.subrange(0, i + 1)) == view_set(s.subrange(0, i)).insert(s[i]@),
{
    assert(s.subrange(0, i + 1) =~= s.subrange(0, i).push(s[i]));
    lemma_view_set_push(s.subrange(0, i), s[i]);
}

pub(crate) proof fn lemma_view_set_empty<T: View>(s: Seq<T>)
    requires
        s.len() == 0,
    ensures
        view_set(s) == Set::<T::V>::empty(),
{
    assert(view_set(s) =~= Set::<T::V>::empty());
}

proof fn lemma_expired_keys_insert(es: Set<EntryView>, x: EntryView, now: u64)
    ensures
        expired_keys(es.insert(x), now) == if is_live(x, now) {
            expired_keys(es, now)
        } else {
            expired_keys(es, now).insert(x.key)
        },
{
    let l = expired_keys(es.insert(x), now);
    let r = if is_live(x, now) { expired_keys(es, now) } else { expired_keys(es, now).insert(x.key) };
    assert forall|k: Seq<char>| l.contains(k) implies r.contains(k) by {
        let e = choose|e: EntryView| es.insert(x).contains(e) && e.key == k && !is_live(e, now);
        if e != x {
            assert(es.contains(e));
        }
    }
    assert forall|k: Seq<char>| r.contains(k) implies l.contains(k) by {
        if !is_live(x, now) && k == x.key {
            assert(es.insert(x).contains(x));
        } else {
            let e = choose|e: EntryView| es.contains(e) && e.key == k && !is_live(e, now);
            assert(es.insert(x).contains(e));
        }
    }
    assert(l =~= r);
}

proof fn lemma_tagged_keys_insert(ts: Set<TagView>, x: TagView, tags: Set<Seq<char>>)
    ensures
        tagged_keys(ts.insert(x), tags) == if tags.contains(x.tag) {
            tagged_keys(ts, tags).insert(x.cache_key)
        } else {
            tagged_keys(ts, tags)
        },
{
    let l = tagged_keys(ts.insert(x), tags);
    let r = if tags.contains(x.tag) { tagged_keys(ts, tags).insert(x.cache_key) } else { tagged_keys(ts, tags) };
    assert forall|k: Seq<char>| l.contains(k) implies r.contains(k) by {
        let t = choose|t: TagView| ts.insert(x).contains(t) && t.cache_key == k && tags.contains(t.tag);
        if t != x {
            assert(ts.contains(t));
        }
    }
    assert forall|k: Seq<char>| r.contains(k) implies l.contains(k) by {
        if tags.contains(x.tag) && k == x.cache_key {
            assert(ts.insert(x).contains(x));
        } else {
            let t = choose|t: TagView| ts.contains(t) && t.cache_key == k && tags.contains(t.tag);
            assert(ts.insert(x).contains(t));
        }
    }
    assert(l =~= r);
}

/// The contents of the store: the rows of both tables.
pub struct StoreView {
    pub entries: Set<EntryView>,
    pub tags: Set<TagView>,
}

/// An entry is live at `now` when it has no expiry or expires after `now`.
pub open spec fn is_live(e: EntryView, now: u64) -> bool {
    match e.expires_at {
        Some(t) => now < t,
        None => true,
    }
}

/// Keys are unique, and every tag row refers to an existing entry.
pub open spec fn store_wf(s: StoreView) -> bool {
    &&& forall|a: EntryView, b: EntryView|
        s.entries.contains(a) && s.entries.contains(b) && a.key == b.key ==> a == b
    &&& forall|t: TagView| #[trigger]
        s.tags.contains(t) ==> exists|e: EntryView| s.entries.contains(e) && e.key == t.cache_key
}

/// The entries whose key is not in `keys`.
pub open spec fn entries_without(es: Set<EntryView>, keys: Set<Seq<char>>) -> Set<EntryView> {
    es.filter(|e: EntryView| !keys.contains(e.key))
}

/// The tag rows whose key is not in `keys`.
pub open spec fn tags_without(ts: Set<TagView>, keys: Set<Seq<char>>) -> Set<TagView> {
    ts.filter(|t: TagView| !keys.contains(t.cache_key))
}

/// Deleting the entries with a key in `keys`, with their tag rows.
pub open spec fn without_keys(s: StoreView, keys: Set<Seq<char>>) -> StoreView {
    StoreView { entries: entries_without(s.entries, keys), tags: tags_without(s.tags, keys) }
}

/// The keys of the entries of `es` that are no longer live at `now`.
pub open spec fn expired_keys(es: Set<EntryView>, now: u64) -> Set<Seq<char>> {
    Set::new(|k: Seq<char>| exists|e: EntryView| es.contains(e) && e.key == k && !is_live(e, now))
}

/// The keys that carry at least one of `tags`.
pub open spec fn tagged_keys(ts: Set<TagView>, tags: Set<Seq<char>>) -> Set<Seq<char>> {
    Set::new(
        |k: Seq<char>| exists|t: TagView| ts.contains(t) && t.cache_key == k && tags.contains(t.tag),
    )
}

/// The sweep: every entry that has expired at `now` is deleted.
pub open spec fn sweep(s: StoreView, now: u64) -> StoreView {
    without_keys(s, expired_keys(s.entries, now))
}

/// Tag invalidation: every entry carrying one of `tags` is deleted.
pub open spec fn invalidate(s: StoreView, tags: Set<Seq<char>>) -> StoreView {
    without_keys(s, tagged_keys(s.tags, tags))
}

/// The tag rows that tie each of `tags` to `key`.
pub open spec fn tag_rows(key: Seq<char>, tags: Set<Seq<char>>) -> Set<TagView> {
    Set::new(|t: TagView| t.cache_key == key && tags.contains(t.tag))
}

/// The expiry of an entry written at `now` with the given time-to-live.
pub open spec fn expiry_of(now: u64, ttl: Option<u64>) -> Option<u64> {
    match ttl {
        Some(ms) => Some(expiry_time(now, ms)),
        None => None,
    }
}

/// Overwriting `key`: its old entry and tag rows go, the new entry and one
/// tag row per tag come.
pub open spec fn store(
    s: StoreView,
    key: Seq<char>,
    value: Seq<char>,
    tags: Set<Seq<char>>,
    expires_at: Option<u64>,
) -> StoreView {
    let d = without_keys(s, Set::empty().insert(key));
    StoreView {
        entries: d.entries.insert(EntryView { key, value, expires_at }),
        tags: d.tags.union(tag_rows(key, tags)),
    }
}

/// The payload stored under `key` if its entry is live at `now`.
pub open spec fn lookup(s: StoreView, key: Seq<char>, now: u64) -> Option<Seq<char>> {
    if exists|e: EntryView| s.entries.contains(e) && e.key == key && is_live(e, now) {
        Some((choose|e: EntryView| s.entries.contains(e) && e.key == key && is_live(e, now)).value)
    } else {
        None
    }
}

/// Deleting keys keeps the store well formed.
pub proof fn lemma_without_keys_wf(s: StoreView, keys: Set<Seq<char>>)
    requires
        store_wf(s),
    ensures
        store_wf(without_keys(s, keys)),
{
    let d = without_keys(s, keys);
    assert forall|t: TagView| #[trigger] d.tags.contains(t) implies exists|e: EntryView|
        d.entries.contains(e) && e.key == t.cache_key by {
        let e = choose|e: EntryView| s.entries.contains(e) && e.key == t.cache_key;
        assert(d.entries.contains(e));
    }
}

/// Overwriting a key keeps the store well formed.
pub proof fn lemma_store_wf(
    s: StoreView,
    key: Seq<char>,
    value: Seq<char>,
    tags: Set<Seq<char>>,
    expires_at: Option<u64>,
)
    requires
        store_wf(s),
    ensures
        store_wf(store(s, key, value, tags, expires_at)),
{
    let d = without_keys(s, Set::empty().insert(key));
    lemma_without_keys_wf(s, Set::empty().insert(key));
    let n = EntryView { key, value, expires_at };
    let r = store(s, key, value, tags, expires_at);
    assert forall|t: TagView| #[trigger] r.tags.contains(t) implies exists|e: EntryView|
        r.entries.contains(e) && e.key == t.cache_key by {
        if d.tags.contains(t) {
            let e = choose|e: EntryView| d.entries.contains(e) && e.key == t.cache_key;
            assert(r.entries.contains(e));
        } else {
            assert(r.entries.contains(n));
        }
    }
}

/// A sweep at `now` removes no entry that is live at `now`.
pub proof fn lemma_sweep_lookup(s: StoreView, key: Seq<char>, now: u64)
    requires
        store_wf(s),
    ensures
        lookup(sweep(s, now), key, now) == lookup(s, key, now),
{
    let w = sweep(s, now);
    if exists|e: EntryView| s.entries.contains(e) && e.key == key && is_live(e, now) {
        let e = choose|e: EntryView| s.entries.contains(e) && e.key == key && is_live(e, now);
        assert(!expired_keys(s.entries, now).contains(key));
        assert(w.entries.contains(e));
        let f = choose|f: EntryView| w.entries.contains(f) && f.key == key && is_live(f, now);
        assert(f == e);
    }
}

/// The two tables of the cache held in memory: the model against which the
/// statement plans are proved, and a store for tests, not one to deploy.
pub struct CacheStorage {
    entries: Vec<CacheEntry>,
    tags: Vec<CacheTag>,
}

impl View for CacheStorage {
    type V = StoreView;

    closed spec fn view(&self) -> StoreView {
        StoreView { entries: view_set(self.entries@), tags: view_set(self.tags@) }
    }
}

/// Whether `k` is one of `keys`.
fn listed(keys: &Vec<String>, k: &String) -> (r: bool)
    ensures
        r == view_set(keys@).contains(k@),
{
    let mut i: usize = 0;
    while i < keys.len()
        invariant
            0 <= i <= keys.len(),
            forall|j: int| 0 <= j < i ==> keys@[j]@ != k@,
        decreases keys.len() - i,
    {
        if keys[i] == *k {
            return true;
        }
        i += 1;
    }
    false
}

impl CacheStorage {
    /// Well formed: unique keys and no dangling tag row.
    pub open spec fn wf(&self) -> bool {
        store_wf(self@)
    }

    /// An empty store.
    pub fn new() -> (r: CacheStorage)
        ensures
            r.wf(),
            r@.entries == Set::<EntryView>::empty(),
            r@.tags == Set::<TagView>::empty(),
    {
        let r = CacheStorage { entries: Vec::new(), tags: Vec::new() };
        proof {
            lemma_view_set_empty(r.entries@);
            lemma_view_set_empty(r.tags@);
        }
        r
    }

    /// Deletes every entry whose key is in `keys`, and its tag rows.
    fn remove_keys(&mut self, keys: &Vec<String>)
        requires
            old(self).wf(),
        ensures
            final(self).wf(),
            final(self)@ == without_keys(old(self)@, view_set(keys@)),
    {
        let ghost ks = view_set(keys@);
        let mut kept: Vec<CacheEntry> = Vec::new();
        proof { lemma_view_set_empty(kept@); }
        let mut i: usize = 0;
        while i < self.entries.len()
            invariant
                self.entries == old(self).entries,
                ks == view_set(keys@),
                0 <= i <= self.entries.len(),
                view_set(kept@) == entries_without(view_set(self.entries@.subrange(0, i as int)), ks),
            decreases self.entries.len() - i,
        {
            proof { lemma_view_set_prefix(self.entries@, i as int); }
            if !listed(keys, &self.entries[i].key) {
                let e = self.entries[i].duplicate();
                proof { lemma_view_set_push(kept@, e); }
                kept.push(e);
            }
            assert(view_set(kept@) =~= entries_without(
                view_set(self.entries@.subrange(0, i as int + 1)),
                ks,
            ));
            i += 1;
        }
        assert(self.entries@.subrange(0, self.entries.len() as int) =~= self.entries@);
        let mut kept_tags: Vec<CacheTag> = Vec::new();
        proof { lemma_view_set_empty(kept_tags@); }
        let mut i: usize = 0;
        while i < self.tags.len()
            invariant
                self.tags == old(self).tags,
                ks == view_set(keys@),
                0 <= i <= self.tags.len(),
                view_set(kept_tags@) == tags_without(view_set(self.tags@.subrange(0, i as int)), ks),
            decreases self.tags.len() - i,
        {
            proof { lemma_view_set_prefix(self.tags@, i as int); }
            if !listed(keys, &self.tags[i].cache_key) {
                let t = self.tags[i].duplicate();
                proof { lemma_view_set_push(kept_tags@, t); }
                kept_tags.push(t);
            }
            assert(view_set(kept_tags@) =~= tags_without(
                view_set(self.tags@.subrange(0, i as int + 1)),
                ks,
            ));
            i += 1;
        }
        assert(self.tags@.subrange(0, self.tags.len() as int) =~= self.tags@);
        self.entries = kept;
        self.tags = kept_tags;
        proof { lemma_without_keys_wf(old(self)@, ks); }
    }
    /// The sweep: deletes every entry that has expired at `now`, with its tag rows.
    pub fn clean_expired(&mut self, now: u64)
        requires
            old(self).wf(),
        ensures
            final(self).wf(),
            final(self)@ == sweep(old(self)@, now),
    {
        let mut doomed: Vec<String> = Vec::new();
        proof { lemma_view_set_empty(doomed@); }
        let mut i: usize = 0;
        while i < self.entries.len()
            invariant
                0 <= i <= self.entries.len(),
                view_set(doomed@) == expired_keys(view_set(self.entries@.subrange(0, i as int)), now),
            decreases self.entries.len() - i,
        {
            proof {
                lemma_view_set_prefix(self.entries@, i as int);
                lemma_expired_keys_insert(view_set(self.entries@.subrange(0, i as int)), self.entries@[i as int]@, now);
            }
            let expired = match self.entries[i].expires_at {
                Some(t) => t <= now,
                None => false,
            };
            if expired {
                let k = self.entries[i].key.clone();
                proof { lemma_view_set_push(doomed@, k); }
                doomed.push(k);
            }
            assert(view_set(doomed@) =~= expired_keys(
                view_set(self.entries@.subrange(0, i as int + 1)),
                now,
            ));
            i += 1;
        }
        assert(self.entries@.subrange(0, self.entries.len() as int) =~= self.entries@);
        self.remove_keys(&doomed);
    }

    /// Deletes every entry that carries at least one of `tags`, with all its
    /// tag rows; nothing changes when `tags` is empty.
    pub fn invalidate_tags(&mut self, tags: Vec<String>)
        requires
            old(self).wf(),
        ensures
            final(self).wf(),
            final(self)@ == invalidate(old(self)@, view_set(tags@)),
            tags@.len() == 0 ==> final(self)@ == old(self)@,
    {
        let ghost ts = view_set(tags@);
        if tags.len() == 0 {
            proof {
                lemma_view_set_empty(tags@);
                assert(invalidate(self@, ts).entries =~= self@.entries);
                assert(invalidate(self@, ts).tags =~= self@.tags);
            }
            return;
        }
        let mut doomed: Vec<String> = Vec::new();
        proof { lemma_view_set_empty(doomed@); }
        let mut i: usize = 0;
        while i < self.tags.len()
            invariant
                0 <= i <= self.tags.len(),
                ts == view_set(tags@),
                view_set(doomed@) == tagged_keys(view_set(self.tags@.subrange(0, i as int)), ts),
            decreases self.tags.len() - i,
        {
            proof {
                lemma_view_set_prefix(self.tags@, i as int);
                lemma_tagged_keys_insert(view_set(self.tags@.subrange(0, i as int)), self.tags@[i as int]@, ts);
            }
            if listed(&tags, &self.tags[i].tag) {
                let k = self.tags[i].cache_key.clone();
                proof { lemma_view_set_push(doomed@, k); }
                doomed.push(k);
            }
            assert(view_set(doomed@) =~= tagged_keys(
                view_set(self.tags@.subrange(0, i as int + 1)),
                ts,
            ));
            i += 1;
        }
        assert(self.tags@.subrange(0, self.tags.len() as int) =~= self.tags@);
        self.remove_keys(&doomed);
    }

    /// Stores the serialized `payload` under `key` in place of whatever was
    /// there, tagged with `tags`, expiring `ttl` milliseconds after `now`.
    pub fn set_payload(&mut self, key: String, payload: String, tags: Vec<String>, ttl: Option<u64>, now: u64)
        requires
            old(self).wf(),
        ensures
            final(self).wf(),
            final(self)@ == store(old(self)@, key@, payload@, view_set(tags@), expiry_of(now, ttl)),
    {
        let expires_at = match ttl {
            Some(ms) => Some(future_time(now, ms)),
            None => None,
        };
        let mut doomed: Vec<String> = Vec::new();
        proof {
            lemma_view_set_empty(doomed@);
            lemma_view_set_push(doomed@, key);
        }
        doomed.push(key.clone());
        self.remove_keys(&doomed);
        let ghost d = self@;
        let entry = CacheEntry { key: key.clone(), value: payload, expires_at };
        proof { lemma_view_set_push(self.entries@, entry); }
        self.entries.push(entry);
        assert(tag_rows(key@, view_set(tags@.subrange(0, 0))) =~= Set::<TagView>::empty()) by {
            lemma_view_set_empty(tags@.subrange(0, 0));
        }
        assert(self@.tags =~= d.tags.union(tag_rows(key@, view_set(tags@.subrange(0, 0)))));
        let mut i: usize = 0;
        while i < tags.len()
            invariant
                0 <= i <= tags.len(),
                view_set(self.entries@) == d.entries.insert(EntryView { key: key@, value: payload@, expires_at }),
                view_set(self.tags@) == d.tags.union(tag_rows(key@, view_set(tags@.subrange(0, i as int)))),
            decreases tags.len() - i,
        {
            proof { lemma_view_set_prefix(tags@, i as int); }
            let row = CacheTag { tag: tags[i].clone(), cache_key: key.clone() };
            proof { lemma_view_set_push(self.tags@, row); }
            self.tags.push(row);
            assert(view_set(self.tags@) =~= d.tags.union(
                tag_rows(key@, view_set(tags@.subrange(0, i as int + 1))),
            ));
            i += 1;
        }
        assert(tags@.subrange(0, tags.len() as int) =~= tags@);
        proof { lemma_store_wf(old(self)@, key@, payload@, view_set(tags@), expires_at); }
    }

    /// Sweeps expired entries, then returns the payload stored under `key`
    /// if its entry is live at `now`.
    pub fn get_payload(&mut self, key: &str, now: u64) -> (r: Option<String>)
        requires
            old(self).wf(),
        ensures
            final(self).wf(),
            final(self)@ == sweep(old(self)@, now),
            match r {
                Some(v) => lookup(old(self)@, key@, now) == Some(v@),
                None => lookup(old(self)@, key@, now) is None,
            },
    {
        proof { lemma_sweep_lookup(self@, key@, now); }
        self.clean_expired(now);
        let k = key.to_owned();
        let mut i: usize = 0;
        while i < self.entries.len()
            invariant
                0 <= i <= self.entries.len(),
                self.wf(),
                self@ == sweep(old(self)@, now),
                lookup(self@, key@, now) == lookup(old(self)@, key@, now),
                k@ == key@,
                forall|j: int| 0 <= j < i ==> !(#[trigger] self.entries@[j]@.key == k@ && is_live(self.entries@[j]@, now)),
            decreases self.entries.len() - i,
        {
            let live = match self.entries[i].expires_at {
                Some(t) => now < t,
                None => true,
            };
            if live && self.entries[i].key == k {
                let ghost e = self.entries@[i as int]@;
                assert(view_set(self.entries@).contains(e));
                let ghost f = choose|f: EntryView| self@.entries.contains(f) && f.key == key@ && is_live(f, now);
                assert(f == e);
                return Some(self.entries[i].value.clone());
            }
            i += 1;
        }
        None
    }

    /// Stores `req.value`, serialized, under `req.key` in place of whatever was
    /// there, with the request's tags and time-to-live counted from `now`.
    pub fn set(&mut self, req: CacheRequest, now: u64) -> (r: Result<(), CacheError>)
        requires
            old(self).wf(),
        ensures
            final(self).wf(),
            r is Ok,
            exists|payload: Seq<char>|
                final(self)@ == store(old(self)@, req.key@, payload, view_set(req.tags@), expiry_of(now, req.ttl)),
    {
        match encode_value(&req.value) {
            Ok(payload) => {
                self.set_payload(req.key, payload, req.tags, req.ttl, now);
                Ok(())
            },
            Err(_) => Err(CacheError::Encode),
        }
    }

    /// Sweeps expired entries, then returns the value stored under `key` if its
    /// entry is live at `now`; a stored payload that does not parse is an error.
    pub fn get(&mut self, key: &str, now: u64) -> (r: Result<Option<serde_json::Value>, CacheError>)
        requires
            old(self).wf(),
        ensures
            final(self).wf(),
            final(self)@ == sweep(old(self)@, now),
            lookup(old(self)@, key@, now) is None <==> r matches Ok(None),
            lookup(old(self)@, key@, now) is Some <==> (r matches Ok(Some(_)) || r == Err::<Option<serde_json::Value>, CacheError>(CacheError::Decode)),
            lookup(old(self)@, key@, now) matches Some(p) ==> (r is Err <==> !json_parses(p)),
    {
        let payload = self.get_payload(key, now);
        decode_payload(payload)
    }
}


/// Round trip: after `key` is stored without expiry, a read at any time
/// returns exactly the stored payload.
pub proof fn lemma_round_trip(
    s: StoreView,
    key: Seq<char>,
    value: Seq<char>,
    tags: Set<Seq<char>>,
    later: u64,
)
    requires
        store_wf(s),
    ensures
        lookup(store(s, key, value, tags, None), key, later) == Some(value),
{
    let r = store(s, key, value, tags, None);
    let n = EntryView { key, value, expires_at: None };
    lemma_store_wf(s, key, value, tags, None);
    assert(r.entries.contains(n) && n.key == key && is_live(n, later));
    let f = choose|f: EntryView| r.entries.contains(f) && f.key == key && is_live(f, later);
    assert(f == n);
}

/// Expiry: an entry stored at `now` with a time-to-live of `ttl` is no longer
/// returned once `ttl` milliseconds have passed.
pub proof fn lemma_expiry(
    s: StoreView,
    key: Seq<char>,
    value: Seq<char>,
    tags: Set<Seq<char>>,
    now: u64,
    ttl: u64,
    later: u64,
)
    requires
        store_wf(s),
        now + ttl <= later,
    ensures
        lookup(store(s, key, value, tags, expiry_of(now, Some(ttl))), key, later) is None,
{
    let r = store(s, key, value, tags, expiry_of(now, Some(ttl)));
    assert forall|e: EntryView| r.entries.contains(e) && e.key == key implies !is_live(e, later) by {
        assert(!entries_without(s.entries, Set::empty().insert(key)).contains(e));
    }
}

/// Permanence: a sweep, at any time, keeps every entry without an expiry.
pub proof fn lemma_no_ttl_permanent(s: StoreView, e: EntryView, now: u64)
    requires
        store_wf(s),
        s.entries.contains(e),
        e.expires_at is None,
    ensures
        sweep(s, now).entries.contains(e),
        lookup(sweep(s, now), e.key, now) == Some(e.value),
{
    assert(!expired_keys(s.entries, now).contains(e.key));
    lemma_sweep_lookup(s, e.key, now);
}

/// Overwrite: storing twice under one key leaves exactly what the second
/// write alone would leave: its value, its expiry and its tags only.
pub proof fn lemma_overwrite(
    s: StoreView,
    key: Seq<char>,
    v1: Seq<char>,
    t1: Set<Seq<char>>,
    x1: Option<u64>,
    v2: Seq<char>,
    t2: Set<Seq<char>>,
    x2: Option<u64>,
)
    ensures
        store(store(s, key, v1, t1, x1), key, v2, t2, x2) == store(s, key, v2, t2, x2),
{
    let a = store(store(s, key, v1, t1, x1), key, v2, t2, x2);
    let b = store(s, key, v2, t2, x2);
    assert(a.entries =~= b.entries);
    assert(a.tags =~= b.tags);
}

/// Two writes to one key, in whichever order they are applied, leave the
/// store as the later write alone would: never a mixture of the two.
pub proof fn lemma_concurrent_set(
    s: StoreView,
    key: Seq<char>,
    v1: Seq<char>,
    t1: Set<Seq<char>>,
    x1: Option<u64>,
    v2: Seq<char>,
    t2: Set<Seq<char>>,
    x2: Option<u64>,
)
    ensures
        store(store(s, key, v1, t1, x1), key, v2, t2, x2) == store(s, key, v2, t2, x2),
        store(store(s, key, v2, t2, x2), key, v1, t1, x1) == store(s, key, v1, t1, x1),
{
    lemma_overwrite(s, key, v1, t1, x1, v2, t2, x2);
    lemma_overwrite(s, key, v2, t2, x2, v1, t1, x1);
}

/// Union semantics: invalidation removes an entry exactly when at least one
/// of its tags is among the given ones.
pub proof fn lemma_invalidate_union(s: StoreView, tags: Set<Seq<char>>, e: EntryView)
    requires
        s.entries.contains(e),
    ensures
        invalidate(s, tags).entries.contains(e) <==> !exists|t: TagView|
            s.tags.contains(t) && t.cache_key == e.key && tags.contains(t.tag),
{
}

/// Cascade: after invalidation no tag row refers to a deleted key, and the
/// store stays well formed.
pub proof fn lemma_invalidate_cascade(s: StoreView, tags: Set<Seq<char>>, t: TagView)
    requires
        store_wf(s),
        tagged_keys(s.tags, tags).contains(t.cache_key),
    ensures
        !invalidate(s, tags).tags.contains(t),
        store_wf(invalidate(s, tags)),
{
    lemma_without_keys_wf(s, tagged_keys(s.tags, tags));
}

/// Invalidating no tag leaves the store as it was.
pub proof fn lemma_invalidate_empty(s: StoreView)
    ensures
        invalidate(s, Set::empty()) == s,
{
    assert(invalidate(s, Set::empty()).entries =~= s.entries);
    assert(invalidate(s, Set::empty()).tags =~= s.tags);
}

} // verus!
