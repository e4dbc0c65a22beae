//! The concurrent map that keeps the compiled matchers.
//!
//! Nothing in this file is proved: it records what the `dashmap` crate does
//! with a map from lists of stop words to compiled expressions.
use dashmap::DashMap;
use regex::Regex;
use vstd::prelude::*;

verus! {

/// `dashmap::DashMap`, a map that may be shared between threads. What it
/// holds is known here only through `cache_entries`.
#[verifier::external_type_specification]
#[verifier::external_body]
#[verifier::reject_recursive_types(K)]
#[verifier::reject_recursive_types(V)]
#[verifier::reject_recursive_types(S)]
pub struct ExDashMap<K, V, S>(dashmap::DashMap<K, V, S>);

/// The matchers of a cache, as a mathematical map from stop words to compiled
/// expressions.
pub type Matchers = Map<Seq<Seq<char>>, Regex>;

/// What a map holds: for each list of stop words that has an entry, the
/// compiled expression stored under it. Two lists are one key where they hold
/// the same words in the same order.
pub uninterp spec fn cache_entries(cache: DashMap<Vec<String>, Regex>) -> Matchers;

/// `DashMap::new`: a map without entries.
#[verifier::external_body]
pub(crate) fn cache_new() -> (made: DashMap<Vec<String>, Regex>)
    ensures
        cache_entries(made) == Matchers::empty(),
{
    DashMap::new()
}

/// `DashMap::get`, handing out a clone of what it found: the expression stored
/// under `key`, if there is one.
#[verifier::external_body]
pub(crate) fn cache_get(cache: &DashMap<Vec<String>, Regex>, key: &Vec<String>) -> (found: Option<Regex>)
    ensures
        found is Some <==> cache_entries(*cache).contains_key(key.deep_view()),
        found matches Some(re) ==> re == cache_entries(*cache)[key.deep_view()],
{
    cache.get(key).map(|entry| entry.value().clone())
}

/// `DashMap::insert`: afterwards `key` leads to `value`, and every other key
/// to what it led to before.
#[verifier::external_body]
pub(crate) fn cache_insert(cache: &mut DashMap<Vec<String>, Regex>, key: Vec<String>, value: Regex)
    ensures
        cache_entries(*final(cache)) == cache_entries(*old(cache)).insert(key.deep_view(), value),
{
    cache.insert(key, value);
}

} // verus!
