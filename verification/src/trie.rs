//! The prefix index's storage: a radix trie from the `radix_trie` crate, and
//! the clock. Nothing in this file is proved: each function states what the
//! outside code is taken to do.

use vstd::prelude::*;
use crate::radixtrie_kv_router::{DstProcess, Route};
use crate::TokenId;

verus! {

/// What the trie stores under a key.
pub struct RouteEntry {
    pub dst: DstProcess,
    pub last_used: i64,
}

impl View for RouteEntry {
    type V = Route;

    open spec fn view(&self) -> Route {
        Route { dst: self.dst@, last_used: self.last_used }
    }
}

/// A key of the trie together with what is stored under it.
pub struct StoredRoute {
    pub key: Vec<TokenId>,
    pub dst: DstProcess,
    pub last_used: i64,
}

impl StoredRoute {
    /// The route that this listing shows.
    pub open spec fn route(&self) -> Route {
        Route { dst: self.dst@, last_used: self.last_used }
    }
}

/// `radix_trie::Trie`: what it holds is named by [`trie_routes`].
#[verifier::external_type_specification]
#[verifier::external_body]
#[verifier::reject_recursive_types(K)]
#[verifier::reject_recursive_types(V)]
pub struct ExTrie<K, V>(radix_trie::Trie<K, V>);

/// The trie that backs the prefix index.
pub type RouteTrie = radix_trie::Trie<Vec<TokenId>, RouteEntry>;

/// The key-value pairs that a trie holds.
pub uninterp spec fn trie_routes(trie: radix_trie::Trie<Vec<TokenId>, RouteEntry>) -> Map<Seq<TokenId>, Route>;

/// The contents of an empty index.
pub open spec fn no_routes() -> Map<Seq<TokenId>, Route> {
    Map::empty()
}

/// The part of `routes` whose keys start with `prefix`.
pub open spec fn routes_under(routes: Map<Seq<TokenId>, Route>, prefix: Seq<TokenId>) -> Map<
    Seq<TokenId>,
    Route,
> {
    routes.restrict(Set::new(|key: Seq<TokenId>| prefix.is_prefix_of(key)))
}

/// `listed` shows every pair of `routes` once, in some order.
pub open spec fn lists_exactly(listed: Seq<StoredRoute>, routes: Map<Seq<TokenId>, Route>) -> bool {
    &&& forall|i: int|
        0 <= i < listed.len() ==> routes.contains_key(#[trigger] listed[i].key@)
            && routes[listed[i].key@] == listed[i].route()
    &&& forall|i: int, j: int|
        0 <= i < j < listed.len() ==> #[trigger] listed[i].key@ != #[trigger] listed[j].key@
    &&& forall|key: Seq<TokenId>| #[trigger]
        routes.contains_key(key) ==> exists|i: int|
            0 <= i < listed.len() && #[trigger] listed[i].key@ == key
}

/// What a descent to `prefix` may hand back: nothing only where no key starts
/// with `prefix`, and otherwise every pair whose key starts with it.
pub open spec fn lists_descendants(
    found: Option<Vec<StoredRoute>>,
    routes: Map<Seq<TokenId>, Route>,
    prefix: Seq<TokenId>,
) -> bool {
    match found {
        None => routes_under(routes, prefix).dom() =~= Set::empty(),
        Some(listed) => lists_exactly(listed@, routes_under(routes, prefix)),
    }
}

/// `radix_trie::Trie::new`: a trie that holds nothing.
#[verifier::external_body]
pub(crate) fn trie_new() -> (made: RouteTrie)
    ensures
        trie_routes(made) == no_routes(),
{
    radix_trie::Trie::new()
}

/// `radix_trie::TrieCommon::len` on a whole trie: the number of pairs stored.
/// The trie counts one up for each insert under a new key and one down for
/// each removal of a stored key.
#[verifier::external_body]
pub(crate) fn trie_len(trie: &RouteTrie) -> (count: usize)
    ensures
        trie_routes(*trie).dom().finite() ==> count == trie_routes(*trie).len(),
{
    radix_trie::TrieCommon::len(trie)
}

/// `radix_trie::Trie::insert`: stores `entry` under `key`, in place of what
/// was stored under that key before, and leaves every other key alone.
#[verifier::external_body]
pub(crate) fn trie_insert(trie: &mut RouteTrie, key: Vec<TokenId>, entry: RouteEntry)
    ensures
        trie_routes(*final(trie)) == trie_routes(*old(trie)).insert(key@, entry@),
{
    trie.insert(key, entry);
}

/// `radix_trie::Trie::remove`: takes out what is stored under `key`, if
/// anything, and leaves every other key alone.
#[verifier::external_body]
pub(crate) fn trie_remove(trie: &mut RouteTrie, key: &Vec<TokenId>)
    ensures
        trie_routes(*final(trie)) == trie_routes(*old(trie)).remove(key@),
{
    trie.remove(key);
}

/// `radix_trie::Trie::get`: a copy of what is stored under `key`.
#[verifier::external_body]
pub(crate) fn trie_get(trie: &RouteTrie, key: &Vec<TokenId>) -> (found: Option<RouteEntry>)
    ensures
        match found {
            Some(entry) => trie_routes(*trie).contains_key(key@) && trie_routes(*trie)[key@]
                == entry@,
            None => !trie_routes(*trie).contains_key(key@),
        },
{
    trie.get(key).map(|entry| RouteEntry { dst: entry.dst.clone(), last_used: entry.last_used })
}

/// `radix_trie::TrieCommon::iter` on a whole trie: every stored pair once.
/// The order is the trie's own and nothing is claimed of it.
#[verifier::external_body]
pub(crate) fn trie_entries(trie: &RouteTrie) -> (listed: Vec<StoredRoute>)
    ensures
        lists_exactly(listed@, trie_routes(*trie)),
{
    radix_trie::TrieCommon::iter(trie).map(|(key, entry)| StoredRoute {
        key: key.clone(),
        dst: entry.dst.clone(),
        last_used: entry.last_used,
    }).collect()
}

/// `radix_trie::Trie::get_raw_descendant`, then `iter` on the subtrie found.
/// A key is encoded as its tokens' big-endian bytes, four per token, so one
/// encoding starts with another exactly when one token sequence starts with
/// the other. The descent fails only where no stored key starts with
/// `prefix`; the subtrie it finds holds the pairs whose keys start with
/// `prefix`, and no others.
#[verifier::external_body]
pub(crate) fn trie_descendants(trie: &RouteTrie, prefix: &Vec<TokenId>) -> (found: Option<Vec<StoredRoute>>)
    ensures
        lists_descendants(found, trie_routes(*trie), prefix@),
{
    trie.get_raw_descendant(prefix).map(|sub| radix_trie::TrieCommon::iter(&sub).map(|(key, entry)| StoredRoute {
        key: key.clone(),
        dst: entry.dst.clone(),
        last_used: entry.last_used,
    }).collect())
}

/// `chrono::Utc::now`, then `timestamp`: the system clock's reading, in whole
/// seconds since the Unix epoch. Nothing is claimed of the value. chrono
/// panics where the clock is set before the epoch.
#[verifier::external_body]
pub(crate) fn current_timestamp() -> i64 {
    chrono::Utc::now().timestamp()
}

} // verus!
