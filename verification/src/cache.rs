//! The answers the registry gave, kept per request: what a lookup does with
//! the entry it finds, what a finished fetch leaves behind, and what a
//! waiting lookup is answered once it wakes.
use vstd::prelude::*;

verus! {

/// What the cache holds for one request: a fetch under way, the error it
/// ended with, or the items it brought.
pub enum CacheItem<T> {
    Pending,
    Error(String),
    Ready(Vec<T>),
}

/// What a lookup does.
#[derive(PartialEq, Eq, Structural)]
pub enum Lookup {
    /// A fetch is under way: wait for it.
    Wait,
    /// Nothing is known yet: mark the entry pending and start a fetch.
    StartFetch,
    /// The entry holds the answer (see `reply`).
    Reply,
}

/// What a lookup is answered from an entry.
pub enum Reply<'a, T> {
    /// Nothing to give: no entry, or a fetch still under way.
    Nothing,
    Items(&'a Vec<T>),
    Failed(&'a String),
}

/// What a lookup does with the entry it finds.
pub open spec fn lookup_spec<T>(entry: Option<CacheItem<T>>) -> Lookup {
    match entry {
        None => Lookup::StartFetch,
        Some(CacheItem::Pending) => Lookup::Wait,
        Some(_) => Lookup::Reply,
    }
}

/// The entry a lookup leaves: a pending one where it starts a fetch.
pub open spec fn after_lookup<T>(entry: Option<CacheItem<T>>) -> Option<CacheItem<T>> {
    match entry {
        None => Some(CacheItem::Pending),
        e => e,
    }
}

/// Whether the entry holds no error.
pub open spec fn no_error<T>(entry: Option<CacheItem<T>>) -> bool {
    !(entry matches Some(CacheItem::Error(_)))
}

/// The entry a finished fetch leaves (see `fetched`).
pub open spec fn fetched_spec<T>(result: Result<Vec<T>, String>, keep_errors: bool) -> Option<CacheItem<T>> {
    match result {
        Ok(v) => Some(CacheItem::Ready(v)),
        Err(e) => if keep_errors {
            Some(CacheItem::Error(e))
        } else {
            None
        },
    }
}

/// What a lookup does with the entry it finds: wait on a pending fetch,
/// start one where nothing is known, reply otherwise.
pub fn lookup<T>(entry: &Option<CacheItem<T>>) -> (r: Lookup)
    ensures
        r == lookup_spec(*entry),
{
    match entry {
        None => Lookup::StartFetch,
        Some(CacheItem::Pending) => Lookup::Wait,
        Some(_) => Lookup::Reply,
    }
}

/// The entry a finished fetch leaves: its items; on failure its error where
/// errors are kept (`keep_errors`), else no entry, so that the next lookup
/// fetches again.
pub fn fetched<T>(result: Result<Vec<T>, String>, keep_errors: bool) -> (r: Option<CacheItem<T>>)
    ensures
        r == fetched_spec(result, keep_errors),
{
    match result {
        Ok(v) => Some(CacheItem::Ready(v)),
        Err(e) => if keep_errors {
            Some(CacheItem::Error(e))
        } else {
            None
        },
    }
}

/// What a lookup is answered from the entry it finds: its items, its error,
/// or nothing while no answer is there.
pub fn reply<T>(entry: &Option<CacheItem<T>>) -> (r: Reply<'_, T>)
    ensures
        match *entry {
            Some(CacheItem::Ready(v)) => r matches Reply::Items(x) && *x == v,
            Some(CacheItem::Error(e)) => r matches Reply::Failed(x) && *x == e,
            _ => r is Nothing,
        },
{
    match entry {
        Some(CacheItem::Ready(v)) => Reply::Items(v),
        Some(CacheItem::Error(e)) => Reply::Failed(e),
        _ => Reply::Nothing,
    }
}

/// A lookup never starts a second fetch while one is under way, and once a
/// fetch has brought its items, a lookup replies without fetching again.
pub proof fn lemma_one_fetch_per_request<T>(entry: Option<CacheItem<T>>, v: Vec<T>)
    ensures
        lookup_spec(after_lookup(entry)) != Lookup::StartFetch,
        lookup_spec(fetched_spec(Ok(v), true)) == Lookup::Reply,
        lookup_spec(fetched_spec(Ok(v), false)) == Lookup::Reply,
{
}

/// Where errors are not kept, no entry ever holds one: neither a lookup nor
/// a finished fetch makes one.
pub proof fn lemma_errors_not_kept<T>(entry: Option<CacheItem<T>>, result: Result<Vec<T>, String>)
    requires
        no_error(entry),
    ensures
        no_error(after_lookup(entry)),
        no_error(fetched_spec(result, false)),
{
}

} // verus!
