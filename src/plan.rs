use vstd::prelude::*;
use crate::cache::{invalidate, store, sweep, view_set, without_keys, StoreView};
use crate::json::{decode_value, encode_value, json_parses};
use crate::models::{CacheError, CacheRequest, EntryView, TagView};
use crate::utils::future_time;
use crate::cache::{expiry_of, lemma_view_set_empty, lemma_view_set_prefix, tag_rows};

verus! {

/// One statement against the two tables.
pub enum Statement {
    /// Delete the entry under `key`, and by cascade its tag rows.
    DeleteKey { key: String },
    /// Insert a new entry row.
    InsertEntry { key: String, value: String, expires_at: Option<u64> },
    /// Insert a tag row.
    InsertTag { tag: String, cache_key: String },
    /// Delete every entry that has expired at `now`, with its tag rows.
    DeleteExpired { now: u64 },
    /// Delete every entry carrying one of `tags`, with its tag rows.
    DeleteTagged { tags: Vec<String> },
}

/// The mathematical value of a statement.
pub enum StatementView {
    DeleteKey { key: Seq<char> },
    InsertEntry { key: Seq<char>, value: Seq<char>, expires_at: Option<u64> },
    InsertTag { tag: Seq<char>, cache_key: Seq<char> },
    DeleteExpired { now: u64 },
    DeleteTagged { tags: Set<Seq<char>> },
}

impl View for Statement {
    type V = StatementView;

    open spec fn view(&self) -> StatementView {
        match self {
            Statement::DeleteKey { key } => StatementView::DeleteKey { key: key@ },
            Statement::InsertEntry { key, value, expires_at } => StatementView::InsertEntry {
                key: key@,
                value: value@,
                expires_at: *expires_at,
            },
            Statement::InsertTag { tag, cache_key } => StatementView::InsertTag {
                tag: tag@,
                cache_key: cache_key@,
            },
            Statement::DeleteExpired { now } => StatementView::DeleteExpired { now: *now },
            Statement::DeleteTagged { tags } => StatementView::DeleteTagged { tags: view_set(tags@) },
        }
    }
}

/// What one statement does to the store.
pub open spec fn apply(s: StoreView, st: StatementView) -> StoreView {
    match st {
        StatementView::DeleteKey { key } => without_keys(s, Set::empty().insert(key)),
        StatementView::InsertEntry { key, value, expires_at } => StoreView {
            entries: s.entries.insert(EntryView { key, value, expires_at }),
            tags: s.tags,
        },
        StatementView::InsertTag { tag, cache_key } => StoreView {
            entries: s.entries,
            tags: s.tags.insert(TagView { tag, cache_key }),
        },
        StatementView::DeleteExpired { now } => sweep(s, now),
        StatementView::DeleteTagged { tags } => invalidate(s, tags),
    }
}

/// What a sequence of statements, run in order as one transaction, does.
pub open spec fn run(s: StoreView, plan: Seq<Statement>) -> StoreView
    decreases plan.len(),
{
    if plan.len() == 0 {
        s
    } else {
        apply(run(s, plan.drop_last()), plan.last()@)
    }
}

/// Running `plan` on any store overwrites `key` as `store` says.
pub open spec fn writes(
    plan: Seq<Statement>,
    key: Seq<char>,
    payload: Seq<char>,
    tags: Set<Seq<char>>,
    expires_at: Option<u64>,
) -> bool {
    forall|s: StoreView| #[trigger] run(s, plan) == store(s, key, payload, tags, expires_at)
}

proof fn lemma_run_push(s: StoreView, plan: Seq<Statement>, st: Statement)
    ensures
        run(s, plan.push(st)) == apply(run(s, plan), st@),
{
    assert(plan.push(st).drop_last() =~= plan);
}

/// The statements that store `payload` under `key`, tagged with `tags` and
/// expiring at `expires_at`, in place of whatever was there.
pub fn set_statements(key: &String, payload: String, tags: &Vec<String>, expires_at: Option<u64>) -> (r: Vec<Statement>)
    ensures
        writes(r@, key@, payload@, view_set(tags@), expires_at),
{
    let mut r: Vec<Statement> = Vec::new();
    let ghost v = payload@;
    let ghost p0 = r@;
    let del = Statement::DeleteKey { key: key.clone() };
    r.push(del);
    let ghost p1 = r@;
    let ins = Statement::InsertEntry { key: key.clone(), value: payload, expires_at };
    r.push(ins);
    proof { lemma_view_set_empty(tags@.subrange(0, 0)); }
    assert forall|s: StoreView| #[trigger] run(s, r@) == ({
        let d = without_keys(s, Set::empty().insert(key@));
        StoreView {
            entries: d.entries.insert(EntryView { key: key@, value: v, expires_at }),
            tags: d.tags.union(tag_rows(key@, view_set(tags@.subrange(0, 0)))),
        }
    }) by {
        lemma_run_push(s, p0, del);
        lemma_run_push(s, p1, ins);
        let d = without_keys(s, Set::empty().insert(key@));
        assert(d.tags.union(tag_rows(key@, view_set(tags@.subrange(0, 0)))) =~= d.tags);
    }
    let mut i: usize = 0;
    while i < tags.len()
        invariant
            0 <= i <= tags.len(),
            forall|s: StoreView| #[trigger] run(s, r@) == ({
                let d = without_keys(s, Set::empty().insert(key@));
                StoreView {
                    entries: d.entries.insert(EntryView { key: key@, value: v, expires_at }),
                    tags: d.tags.union(tag_rows(key@, view_set(tags@.subrange(0, i as int)))),
                }
            }),
        decreases tags.len() - i,
    {
        proof { lemma_view_set_prefix(tags@, i as int); }
        let row = Statement::InsertTag { tag: tags[i].clone(), cache_key: key.clone() };
        let ghost before = r@;
        r.push(row);
        assert forall|s: StoreView| #[trigger] run(s, r@) == ({
            let d = without_keys(s, Set::empty().insert(key@));
            StoreView {
                entries: d.entries.insert(EntryView { key: key@, value: v, expires_at }),
                tags: d.tags.union(tag_rows(key@, view_set(tags@.subrange(0, i as int + 1)))),
            }
        }) by {
            lemma_run_push(s, before, row);
            let d = without_keys(s, Set::empty().insert(key@));
            assert(d.tags.union(tag_rows(key@, view_set(tags@.subrange(0, i as int + 1)))) =~= run(s, before).tags.insert(
                TagView { tag: tags@[i as int]@, cache_key: key@ },
            ));
        }
        i += 1;
    }
    assert(tags@.subrange(0, tags.len() as int) =~= tags@);
    r
}

/// The statements of a write request made at `now`: its value is serialized,
/// then stored as `set_statements` says.
pub fn plan_set(req: &CacheRequest, now: u64) -> (r: Result<Vec<Statement>, CacheError>)
    ensures
        r is Ok,
        r matches Ok(plan) ==> exists|payload: Seq<char>|
            #[trigger] writes(plan@, req.key@, payload, view_set(req.tags@), expiry_of(now, req.ttl)),
{
    match encode_value(&req.value) {
        Ok(payload) => {
            let ghost v = payload@;
            let expires_at = match req.ttl {
                Some(ms) => Some(future_time(now, ms)),
                None => None,
            };
            let plan = set_statements(&req.key, payload, &req.tags, expires_at);
            let r = Ok(plan);
            assert(r matches Ok(p) && writes(p@, req.key@, v, view_set(req.tags@), expiry_of(now, req.ttl)));
            r
        },
        Err(_) => Err(CacheError::Encode),
    }
}

/// The statements of a tag invalidation: none for an empty list of tags.
pub fn plan_invalidate(tags: Vec<String>) -> (r: Vec<Statement>)
    ensures
        forall|s: StoreView| #[trigger] run(s, r@) == invalidate(s, view_set(tags@)),
        tags@.len() == 0 <==> r@.len() == 0,
{
    let mut r: Vec<Statement> = Vec::new();
    if tags.len() == 0 {
        assert forall|s: StoreView| #[trigger] run(s, r@) == invalidate(s, view_set(tags@)) by {
            lemma_view_set_empty(tags@);
            assert(invalidate(s, view_set(tags@)).entries =~= s.entries);
            assert(invalidate(s, view_set(tags@)).tags =~= s.tags);
        }
        return r;
    }
    let ghost p0 = r@;
    let st = Statement::DeleteTagged { tags };
    r.push(st);
    assert forall|s: StoreView| #[trigger] run(s, r@) == invalidate(s, view_set(tags@)) by {
        lemma_run_push(s, p0, st);
    }
    r
}

/// The statements of the sweep that precedes every read at `now`.
pub fn plan_sweep(now: u64) -> (r: Vec<Statement>)
    ensures
        forall|s: StoreView| #[trigger] run(s, r@) == sweep(s, now),
{
    let mut r: Vec<Statement> = Vec::new();
    let ghost p0 = r@;
    let st = Statement::DeleteExpired { now };
    r.push(st);
    assert forall|s: StoreView| #[trigger] run(s, r@) == sweep(s, now) by {
        lemma_run_push(s, p0, st);
    }
    r
}

/// Turns the payload found by a read into the value it holds; a payload that
/// does not parse is an error.
pub fn decode_payload(payload: Option<String>) -> (r: Result<Option<serde_json::Value>, CacheError>)
    ensures
        payload is None <==> r matches Ok(None),
        payload is Some <==> (r matches Ok(Some(_)) || r == Err::<Option<serde_json::Value>, CacheError>(
            CacheError::Decode,
        )),
        payload matches Some(p) ==> (r is Err <==> !json_parses(p@)),
{
    match payload {
        None => Ok(None),
        Some(p) => match decode_value(&p) {
            Ok(v) => Ok(Some(v)),
            Err(_) => Err(CacheError::Decode),
        },
    }
}

} // verus!
