//! The prefix router: a bounded index from tokenized prompts to the prefill
//! rank that last served them.

use vstd::prelude::*;
use crate::trie::{
    current_timestamp, lists_exactly, routes_under, trie_descendants, trie_entries, trie_get,
    trie_insert, trie_len, trie_new, trie_remove, trie_routes, RouteEntry, RouteTrie, StoredRoute,
};
use crate::{PrefillConfig, TokenId};

verus! {

/// One data-parallel rank of one prefill worker: the routing unit.
#[derive(Debug)]
pub struct DstProcess {
    pub node: PrefillConfig,
    pub dp_rank: usize,
}

/// What identifies a routing unit. Two units are the same unit exactly when
/// their URL, bootstrap port and rank agree.
pub struct DstView {
    pub url: Seq<char>,
    pub bootstrap_port: Option<u16>,
    pub dp_rank: usize,
}

impl View for DstProcess {
    type V = DstView;

    open spec fn view(&self) -> DstView {
        DstView {
            url: self.node.url@,
            bootstrap_port: self.node.bootstrap_port,
            dp_rank: self.dp_rank,
        }
    }
}

impl Clone for DstProcess {
    fn clone(&self) -> (copy: Self)
        ensures
            copy == *self,
    {
        DstProcess { node: self.node.clone(), dp_rank: self.dp_rank }
    }
}

impl DstProcess {
    /// Whether two routing units are the same unit.
    pub fn same_as(&self, other: &DstProcess) -> (same: bool)
        ensures
            same == (self@ == other@),
    {
        self.node.url == other.node.url && self.node.bootstrap_port == other.node.bootstrap_port
            && self.dp_rank == other.dp_rank
    }
}

/// A route as the index models it: the unit that served a key, and when the
/// entry was last used (seconds since the Unix epoch).
pub struct Route {
    pub dst: DstView,
    pub last_used: i64,
}

/// How many entries one eviction takes out.
pub const EVICTION_BATCH: usize = 10;

/// The size of the batch that leaves an index of `stored` entries.
pub open spec fn batch_size(stored: nat) -> nat {
    if stored < EVICTION_BATCH {
        stored
    } else {
        EVICTION_BATCH as nat
    }
}

/// `evicted` is a choice of `count` stored keys of which none was used later
/// than a key that stays. Among entries of equal age the choice is free.
pub open spec fn evicts_oldest(
    routes: Map<Seq<TokenId>, Route>,
    evicted: Set<Seq<TokenId>>,
    count: nat,
) -> bool {
    &&& evicted.finite()
    &&& evicted.len() == count
    &&& forall|key: Seq<TokenId>| #[trigger] evicted.contains(key) ==> routes.contains_key(key)
    &&& forall|gone: Seq<TokenId>, kept: Seq<TokenId>|
        #![trigger evicted.contains(gone), routes.contains_key(kept)]
        evicted.contains(gone) && routes.contains_key(kept) && !evicted.contains(kept)
            ==> routes[gone].last_used <= routes[kept].last_used
}

/// What an update makes of the index. An empty sequence changes nothing.
/// Otherwise, an index that has reached `max_entries` first loses a batch of
/// its oldest entries, and then `seq` is stored, in place of what was stored
/// under it before.
pub open spec fn update_result(
    before: Map<Seq<TokenId>, Route>,
    after: Map<Seq<TokenId>, Route>,
    max_entries: usize,
    seq: Seq<TokenId>,
    route: Route,
) -> bool {
    if seq.len() == 0 {
        after == before
    } else if before.len() < max_entries {
        after == before.insert(seq, route)
    } else {
        exists|evicted: Set<Seq<TokenId>>|
            #![trigger before.remove_keys(evicted)]
            evicts_oldest(before, evicted, batch_size(before.len())) && after
                == before.remove_keys(evicted).insert(seq, route)
    }
}

/// Some stored key that starts with `prefix` was served by `dst`.
pub open spec fn serves_prefix(
    routes: Map<Seq<TokenId>, Route>,
    dst: DstView,
    prefix: Seq<TokenId>,
) -> bool {
    exists|key: Seq<TokenId>|
        #![trigger routes.contains_key(key)]
        routes.contains_key(key) && routes[key].dst == dst && prefix.is_prefix_of(key)
}

/// The longest `k <= n` for which `dst` served a stored key that starts with
/// the first `k` tokens of `seq`, counting from one; zero where there is none.
pub open spec fn cached_len_upto(
    routes: Map<Seq<TokenId>, Route>,
    seq: Seq<TokenId>,
    dst: DstView,
    n: nat,
) -> nat
    decreases n,
{
    if n == 0 {
        0
    } else if n <= seq.len() && serves_prefix(routes, dst, seq.take(n as int)) {
        n
    } else {
        cached_len_upto(routes, seq, dst, (n - 1) as nat)
    }
}

/// The number of leading tokens of `seq` that `dst` has cached: the length of
/// the longest non-empty prefix of `seq` that starts a key stored for `dst`.
pub open spec fn cached_len(routes: Map<Seq<TokenId>, Route>, seq: Seq<TokenId>, dst: DstView) -> nat {
    cached_len_upto(routes, seq, dst, seq.len())
}

/// The index `x` stands somewhere in `order`.
spec fn occurs_in(order: Seq<usize>, x: int) -> bool {
    exists|j: int| 0 <= j < order.len() && #[trigger] order[j] == x
}

/// `order` arranges the indices below `n`: each occurs in it exactly once.
spec fn is_arrangement(order: Seq<usize>, n: nat) -> bool {
    &&& order.len() == n
    &&& forall|i: int| 0 <= i < n ==> #[trigger] order[i] < n
    &&& forall|i: int, j: int| 0 <= i < j < n ==> #[trigger] order[i] != #[trigger] order[j]
    &&& forall|x: int| 0 <= x < n ==> #[trigger] occurs_in(order, x)
}

/// Arranges the indices of `listed` so that the first `count` places hold
/// entries that were used no later than any entry behind them.
fn oldest_first(listed: &Vec<StoredRoute>, count: usize) -> (order: Vec<usize>)
    ensures
        is_arrangement(order@, listed@.len()),
        forall|a: int, b: int|
            #![trigger order@[a], order@[b]]
            0 <= a < count && a <= b < order@.len() ==> listed@[order@[a] as int].last_used
                <= listed@[order@[b] as int].last_used,
{
    let n = listed.len();
    let mut order: Vec<usize> = Vec::new();
    let mut k: usize = 0;
    while k < n
        invariant
            k <= n,
            order@.len() == k,
            forall|i: int| 0 <= i < k ==> #[trigger] order@[i] == i,
        decreases n - k,
    {
        order.push(k);
        k = k + 1;
    }
    assert(is_arrangement(order@, n as nat)) by {
        assert forall|x: int| 0 <= x < n implies #[trigger] occurs_in(order@, x) by {
            assert(order@[x] == x);
        }
    }
    let mut i: usize = 0;
    while i < count && i < n
        invariant
            n == listed@.len(),
            i <= n,
            is_arrangement(order@, n as nat),
            forall|a: int, b: int|
                #![trigger order@[a], order@[b]]
                0 <= a < i && a <= b < n ==> listed@[order@[a] as int].last_used
                    <= listed@[order@[b] as int].last_used,
        decreases n - i,
    {
        let mut best: usize = i;
        let mut j: usize = i + 1;
        while j < n
            invariant
                n == listed@.len(),
                i <= best < j <= n,
                is_arrangement(order@, n as nat),
                forall|b: int|
                    i <= b < j ==> listed@[order@[best as int] as int].last_used
                        <= listed@[#[trigger] order@[b] as int].last_used,
            decreases n - j,
        {
            if listed[order[j]].last_used < listed[order[best]].last_used {
                best = j;
            }
            j = j + 1;
        }
        let ghost before = order@;
        let first = order[i];
        let least = order[best];
        order.set(i, least);
        order.set(best, first);
        proof {
            let swap = |p: int|
                if p == i as int {
                    best as int
                } else if p == best as int {
                    i as int
                } else {
                    p
                };
            assert forall|p: int| 0 <= p < n implies #[trigger] order@[p] == before[swap(p)] by {}
            assert forall|x: int| 0 <= x < n implies #[trigger] occurs_in(order@, x) by {
                assert(occurs_in(before, x));
                let p = choose|p: int| 0 <= p < n && #[trigger] before[p] == x;
                assert(order@[swap(p)] == x);
            }
            assert forall|a: int, b: int| 0 <= a < b < n implies #[trigger] order@[a]
                != #[trigger] order@[b] by {
                assert(before[swap(a)] != before[swap(b)]);
            }
            assert forall|a: int, b: int|
                #![trigger order@[a], order@[b]]
                0 <= a < i + 1 && a <= b < n implies listed@[order@[a] as int].last_used
                <= listed@[order@[b] as int].last_used by {
                if a < i {
                    assert(order@[a] == before[a]);
                    assert(order@[b] == before[swap(b)]);
                } else {
                    assert(order@[a] == before[best as int]);
                    assert(order@[b] == before[swap(b)]);
                }
            }
        }
        i = i + 1;
    }
    order
}

/// A copy of a token sequence.
fn tokens_of(seq: &[TokenId]) -> (copy: Vec<TokenId>)
    ensures
        copy@ == seq@,
{
    let mut copy: Vec<TokenId> = Vec::new();
    let mut i: usize = 0;
    while i < seq.len()
        invariant
            i <= seq@.len(),
            copy@ == seq@.take(i as int),
        decreases seq@.len() - i,
    {
        copy.push(seq[i]);
        assert(seq@.take(i as int).push(seq@[i as int]) == seq@.take(i + 1));
        i = i + 1;
    }
    assert(seq@.take(seq@.len() as int) == seq@);
    copy
}

/// A bounded prefix index from tokenized prompts to the prefill rank that
/// last served them. Its view is the map from stored keys to their routes.
pub struct RadixTrieKvRouter {
    trie: RouteTrie,
    max_seq_len: usize,
}

impl View for RadixTrieKvRouter {
    type V = Map<Seq<TokenId>, Route>;

    closed spec fn view(&self) -> Map<Seq<TokenId>, Route> {
        trie_routes(self.trie)
    }
}

impl RadixTrieKvRouter {
    /// The number of entries at which an update starts to evict.
    pub closed spec fn max_entries(&self) -> usize {
        self.max_seq_len
    }

    /// The most entries that the index ever holds: `max_entries`, but one
    /// where `max_entries` is zero, since an update always stores its key.
    pub open spec fn capacity(&self) -> nat {
        if self.max_entries() == 0 {
            1
        } else {
            self.max_entries() as nat
        }
    }

    /// The index's invariant: finitely many entries, no more than its
    /// capacity, and none under the empty key.
    pub open spec fn wf(&self) -> bool {
        &&& self@.dom().finite()
        &&& self@.len() <= self.capacity()
        &&& forall|key: Seq<TokenId>| #[trigger] self@.contains_key(key) ==> key.len() > 0
    }

    /// An empty index that starts to evict at `max_seq_len` entries.
    pub fn new(max_seq_len: usize) -> (router: RadixTrieKvRouter)
        ensures
            router.wf(),
            router@ == Map::<Seq<TokenId>, Route>::empty(),
            router.max_entries() == max_seq_len,
    {
        RadixTrieKvRouter { trie: trie_new(), max_seq_len }
    }

    /// The number of entries stored.
    pub fn len(&self) -> (count: usize)
        requires
            self.wf(),
        ensures
            count == self@.len(),
    {
        trie_len(&self.trie)
    }

    /// When the entry under `key` was last used, if there is one.
    pub fn last_used(&self, key: &[TokenId]) -> (time: Option<i64>)
        requires
            self.wf(),
        ensures
            time == if self@.contains_key(key@) {
                Some(self@[key@].last_used)
            } else {
                None
            },
    {
        let owned = tokens_of(key);
        match trie_get(&self.trie, &owned) {
            Some(entry) => Some(entry.last_used),
            None => None,
        }
    }

    /// The routing unit stored under `key`, if there is one.
    pub fn stored_for(&self, key: &[TokenId]) -> (dst: Option<DstProcess>)
        requires
            self.wf(),
        ensures
            match dst {
                Some(unit) => self@.contains_key(key@) && self@[key@].dst == unit@,
                None => !self@.contains_key(key@),
            },
    {
        let owned = tokens_of(key);
        match trie_get(&self.trie, &owned) {
            Some(entry) => Some(entry.dst),
            None => None,
        }
    }

    /// Takes the batch of oldest entries out of a full index.
    fn evict(&mut self)
        requires
            old(self).wf(),
        ensures
            final(self).max_entries() == old(self).max_entries(),
            final(self)@.dom().finite(),
            exists|evicted: Set<Seq<TokenId>>|
                #![trigger old(self)@.remove_keys(evicted)]
                evicts_oldest(old(self)@, evicted, batch_size(old(self)@.len())) && final(self)@
                    == old(self)@.remove_keys(evicted),
    {
        let ghost before = self@;
        let listed = trie_entries(&self.trie);
        proof {
            lemma_listing_len(listed@, before);
        }
        let order = oldest_first(&listed, EVICTION_BATCH);
        let batch: usize = if listed.len() < EVICTION_BATCH {
            listed.len()
        } else {
            EVICTION_BATCH
        };
        let ghost mut evicted: Set<Seq<TokenId>> = Set::empty();
        let mut i: usize = 0;
        while i < batch
            invariant
                i <= batch <= listed@.len(),
                batch <= EVICTION_BATCH,
                self.max_seq_len == old(self).max_seq_len,
                lists_exactly(listed@, before),
                is_arrangement(order@, listed@.len()),
                evicted.finite(),
                evicted.len() == i,
                forall|key: Seq<TokenId>|
                    evicted.contains(key) <==> exists|a: int|
                        0 <= a < i && #[trigger] listed@[order@[a] as int].key@ == key,
                trie_routes(self.trie) == before.remove_keys(evicted),
            decreases batch - i,
        {
            let victim = order[i];
            let ghost key = listed@[victim as int].key@;
            proof {
                if evicted.contains(key) {
                    let a = choose|a: int|
                        0 <= a < i && #[trigger] listed@[order@[a] as int].key@ == key;
                    assert(order@[a] != order@[i as int]);
                    if order@[a] < order@[i as int] {
                        assert(listed@[order@[a] as int].key@ != listed@[order@[i as int]
                            as int].key@);
                    } else {
                        assert(listed@[order@[i as int] as int].key@ != listed@[order@[a]
                            as int].key@);
                    }
                }
            }
            trie_remove(&mut self.trie, &listed[victim].key);
            proof {
                let grown = evicted.insert(key);
                assert(before.remove_keys(evicted).remove(key) =~= before.remove_keys(grown));
                assert forall|k: Seq<TokenId>| grown.contains(k) <==> exists|a: int|
                    0 <= a < i + 1 && #[trigger] listed@[order@[a] as int].key@ == k by {
                    if grown.contains(k) {
                        if k == key {
                            assert(listed@[order@[i as int] as int].key@ == k);
                        } else {
                            let a = choose|a: int|
                                0 <= a < i && #[trigger] listed@[order@[a] as int].key@ == k;
                            assert(0 <= a < i + 1);
                        }
                    }
                    if exists|a: int|
                        0 <= a < i + 1 && #[trigger] listed@[order@[a] as int].key@ == k {
                        let a = choose|a: int|
                            0 <= a < i + 1 && #[trigger] listed@[order@[a] as int].key@ == k;
                        if a < i {
                            assert(evicted.contains(k));
                        }
                    }
                }
                evicted = grown;
            }
            i = i + 1;
        }
        proof {
            assert forall|key: Seq<TokenId>| #[trigger] evicted.contains(key) implies before.contains_key(
                key,
            ) by {
                let a = choose|a: int|
                    0 <= a < batch && #[trigger] listed@[order@[a] as int].key@ == key;
                assert(before.contains_key(listed@[order@[a] as int].key@));
            }
            assert forall|gone: Seq<TokenId>, kept: Seq<TokenId>|
                #![trigger evicted.contains(gone), before.contains_key(kept)]
                evicted.contains(gone) && before.contains_key(kept) && !evicted.contains(
                    kept,
                ) implies before[gone].last_used <= before[kept].last_used by {
                let a = choose|a: int|
                    0 <= a < batch && #[trigger] listed@[order@[a] as int].key@ == gone;
                let x = choose|x: int| 0 <= x < listed@.len() && #[trigger] listed@[x].key@ == kept;
                assert(occurs_in(order@, x));
                let b = choose|b: int| 0 <= b < listed@.len() && #[trigger] order@[b] == x;
                if b < batch {
                    assert(listed@[order@[b] as int].key@ == kept);
                    assert(false);
                }
                assert(before.contains_key(listed@[order@[a] as int].key@));
                assert(before.contains_key(listed@[order@[b] as int].key@));
                assert(listed@[order@[a] as int].last_used <= listed@[order@[b] as int].last_used);
            }
            assert(evicts_oldest(before, evicted, batch_size(before.len())));
            assert(before.remove_keys(evicted).dom() =~= before.dom().difference(evicted));
        }
    }

    /// Stores `seq` for `select_node` with `now` as the time of use. See
    /// [`update_result`] for what becomes of the index.
    pub fn update_at(&mut self, seq: &[TokenId], select_node: DstProcess, now: i64)
        requires
            old(self).wf(),
        ensures
            final(self).wf(),
            final(self).max_entries() == old(self).max_entries(),
            update_result(
                old(self)@,
                final(self)@,
                old(self).max_entries(),
                seq@,
                Route { dst: select_node@, last_used: now },
            ),
    {
        if seq.len() == 0 {
            return ;
        }
        let ghost before = self@;
        let ghost route = Route { dst: select_node@, last_used: now };
        if trie_len(&self.trie) >= self.max_seq_len {
            self.evict();
            let ghost evicted = choose|evicted: Set<Seq<TokenId>>|
                #![trigger before.remove_keys(evicted)]
                evicts_oldest(before, evicted, batch_size(before.len())) && self@
                    == before.remove_keys(evicted);
            trie_insert(&mut self.trie, tokens_of(seq), RouteEntry { dst: select_node, last_used: now });
            proof {
                before.lemma_remove_keys_len(evicted);
                assert(self@ == before.remove_keys(evicted).insert(seq@, route));
            }
        } else {
            trie_insert(&mut self.trie, tokens_of(seq), RouteEntry { dst: select_node, last_used: now });
        }
    }

    /// Stores `seq` for `select_node` with the clock's reading as the time
    /// of use: [`Self::update_at`] at whatever time the clock shows.
    pub fn update(&mut self, seq: &[TokenId], select_node: DstProcess)
        requires
            old(self).wf(),
        ensures
            final(self).wf(),
            final(self).max_entries() == old(self).max_entries(),
            exists|now: i64| #[trigger]
                update_result(
                    old(self)@,
                    final(self)@,
                    old(self).max_entries(),
                    seq@,
                    Route { dst: select_node@, last_used: now },
                ),
    {
        let now = current_timestamp();
        let ghost route = Route { dst: select_node@, last_used: now };
        self.update_at(seq, select_node, now);
        assert(update_result(old(self)@, self@, old(self).max_entries(), seq@, route));
    }
}

/// What a touch makes of the index: the entry under `key`, if there is one,
/// has `now` as its time of use, and nothing else changes. An entry's time of
/// use only moves forward as long as the times given do.
pub open spec fn touch_result(
    before: Map<Seq<TokenId>, Route>,
    after: Map<Seq<TokenId>, Route>,
    key: Seq<TokenId>,
    now: i64,
) -> bool {
    if before.contains_key(key) {
        after == before.insert(key, Route { dst: before[key].dst, last_used: now })
    } else {
        after == before
    }
}

impl RadixTrieKvRouter {
    /// Marks the entry under `key` as used at `now`.
    pub fn touch_at(&mut self, key: &[TokenId], now: i64)
        requires
            old(self).wf(),
        ensures
            final(self).wf(),
            final(self).max_entries() == old(self).max_entries(),
            touch_result(old(self)@, final(self)@, key@, now),
    {
        let owned = tokens_of(key);
        match trie_get(&self.trie, &owned) {
            Some(entry) => {
                trie_insert(&mut self.trie, owned, RouteEntry { dst: entry.dst, last_used: now });
                assert(self@.dom() =~= old(self)@.dom());
            },
            None => {},
        }
    }

    /// Marks the entry under `key` as used at the clock's reading:
    /// [`Self::touch_at`] at whatever time the clock shows.
    pub fn touch(&mut self, key: &[TokenId])
        requires
            old(self).wf(),
        ensures
            final(self).wf(),
            final(self).max_entries() == old(self).max_entries(),
            exists|now: i64| #[trigger] touch_result(old(self)@, final(self)@, key@, now),
    {
        let now = current_timestamp();
        self.touch_at(key, now);
        assert(touch_result(old(self)@, self@, key@, now));
    }
}

/// An index that starts to evict at one entry or more never holds more than
/// `max_entries` entries after an update.
pub proof fn update_keeps_bound(
    before: Map<Seq<TokenId>, Route>,
    after: Map<Seq<TokenId>, Route>,
    max_entries: usize,
    seq: Seq<TokenId>,
    route: Route,
)
    requires
        before.dom().finite(),
        before.len() <= max_entries,
        max_entries >= 1,
        update_result(before, after, max_entries, seq, route),
    ensures
        after.dom().finite(),
        after.len() <= max_entries,
{
    if seq.len() == 0 {
    } else if before.len() < max_entries {
    } else {
        let evicted = choose|evicted: Set<Seq<TokenId>>|
            #![trigger before.remove_keys(evicted)]
            evicts_oldest(before, evicted, batch_size(before.len())) && after
                == before.remove_keys(evicted).insert(seq, route);
        before.lemma_remove_keys_len(evicted);
        assert(before.remove_keys(evicted).dom() =~= before.dom().difference(evicted));
    }
}

/// What the index reports as cached is stored: where `dst` has `n > 0`
/// leading tokens of `seq` cached, every non-empty prefix of `seq` of up to
/// `n` tokens starts a key stored for `dst`, and no longer prefix does.
pub proof fn cached_prefix_is_stored(
    routes: Map<Seq<TokenId>, Route>,
    seq: Seq<TokenId>,
    dst: DstView,
)
    ensures
        cached_len(routes, seq, dst) <= seq.len(),
        forall|k: int|
            0 < k <= cached_len(routes, seq, dst) ==> serves_prefix(
                routes,
                dst,
                #[trigger] seq.take(k),
            ),
        forall|k: int|
            cached_len(routes, seq, dst) < k <= seq.len() ==> !serves_prefix(
                routes,
                dst,
                #[trigger] seq.take(k),
            ),
{
    lemma_cached_len_upto(routes, seq, dst, seq.len());
    let n = cached_len(routes, seq, dst);
    assert forall|k: int| 0 < k <= n implies serves_prefix(routes, dst, #[trigger] seq.take(k)) by {
        let key = choose|key: Seq<TokenId>|
            #![trigger routes.contains_key(key)]
            routes.contains_key(key) && routes[key].dst == dst && seq.take(n as int).is_prefix_of(
                key,
            );
        assert(seq.take(k) =~= key.subrange(0, k));
    }
}

/// `cached_len_upto` picks the longest served prefix of up to `n` tokens.
proof fn lemma_cached_len_upto(
    routes: Map<Seq<TokenId>, Route>,
    seq: Seq<TokenId>,
    dst: DstView,
    n: nat,
)
    requires
        n <= seq.len(),
    ensures
        cached_len_upto(routes, seq, dst, n) <= n,
        cached_len_upto(routes, seq, dst, n) > 0 ==> serves_prefix(
            routes,
            dst,
            seq.take(cached_len_upto(routes, seq, dst, n) as int),
        ),
        forall|k: int|
            cached_len_upto(routes, seq, dst, n) < k <= n ==> !serves_prefix(
                routes,
                dst,
                #[trigger] seq.take(k),
            ),
    decreases n,
{
    if n > 0 && !serves_prefix(routes, dst, seq.take(n as int)) {
        lemma_cached_len_upto(routes, seq, dst, (n - 1) as nat);
    }
}

/// What the index answers for one routing unit: how many leading tokens of
/// the prompt the unit has cached, and the stored entry that shows it.
#[derive(Debug)]
pub struct CacheHit {
    pub dst: DstProcess,
    pub cached_tokens: usize,
    pub key: Vec<TokenId>,
    pub last_used: i64,
}

impl CacheHit {
    /// The hit names a stored entry of its unit whose key starts with the
    /// first `cached_tokens` tokens of `seq`.
    pub open spec fn shows(&self, routes: Map<Seq<TokenId>, Route>, seq: Seq<TokenId>) -> bool {
        &&& 0 < self.cached_tokens <= seq.len()
        &&& routes.contains_key(self.key@)
        &&& routes[self.key@].dst == self.dst@
        &&& routes[self.key@].last_used == self.last_used
        &&& seq.take(self.cached_tokens as int).is_prefix_of(self.key@)
    }
}

/// Some hit of `hits` is for `dst`.
pub open spec fn has_hit(hits: Seq<CacheHit>, dst: DstView) -> bool {
    exists|i: int| 0 <= i < hits.len() && (#[trigger] hits[i]).dst@ == dst
}

/// No unit has two hits.
pub open spec fn one_hit_each(hits: Seq<CacheHit>) -> bool {
    forall|i: int, j: int|
        0 <= i < j < hits.len() ==> (#[trigger] hits[i]).dst@ != (#[trigger] hits[j]).dst@
}

/// `hits` answers for the prefixes of `seq` of up to `n` tokens: it has one
/// hit for each unit that cached any of them, with the longest such length.
pub open spec fn is_cache_map_upto(
    hits: Seq<CacheHit>,
    routes: Map<Seq<TokenId>, Route>,
    seq: Seq<TokenId>,
    n: nat,
) -> bool {
    &&& one_hit_each(hits)
    &&& forall|i: int|
        0 <= i < hits.len() ==> (#[trigger] hits[i]).shows(routes, seq) && hits[i].cached_tokens
            == cached_len_upto(routes, seq, hits[i].dst@, n)
    &&& forall|dst: DstView| #[trigger]
        cached_len_upto(routes, seq, dst, n) > 0 ==> has_hit(hits, dst)
}

/// `hits` answers for `seq`: one hit for each unit that cached a non-empty
/// prefix of `seq`, with the length of the longest such prefix.
pub open spec fn is_cache_map(
    hits: Seq<CacheHit>,
    routes: Map<Seq<TokenId>, Route>,
    seq: Seq<TokenId>,
) -> bool {
    is_cache_map_upto(hits, routes, seq, seq.len())
}

/// One of the first `j` entries of `listed` is for `dst`.
spec fn seen(listed: Seq<StoredRoute>, j: int, dst: DstView) -> bool {
    exists|a: int| 0 <= a < j && (#[trigger] listed[a]).dst@ == dst
}

/// The state of the answer while the entries under the prefix of `k` tokens
/// are being recorded, `j` of them so far.
spec fn is_merging(
    hits: Seq<CacheHit>,
    routes: Map<Seq<TokenId>, Route>,
    seq: Seq<TokenId>,
    k: nat,
    listed: Seq<StoredRoute>,
    j: int,
) -> bool {
    &&& one_hit_each(hits)
    &&& forall|i: int|
        0 <= i < hits.len() ==> (#[trigger] hits[i]).shows(routes, seq) && hits[i].cached_tokens
            == if seen(listed, j, hits[i].dst@) {
            k
        } else {
            cached_len_upto(routes, seq, hits[i].dst@, (k - 1) as nat)
        }
    &&& forall|dst: DstView| #[trigger] seen(listed, j, dst) ==> has_hit(hits, dst)
    &&& forall|dst: DstView| #[trigger]
        cached_len_upto(routes, seq, dst, (k - 1) as nat) > 0 ==> has_hit(hits, dst)
}

/// The place of the hit for `dst`, if there is one.
pub fn find_hit(hits: &Vec<CacheHit>, dst: &DstProcess) -> (place: Option<usize>)
    ensures
        match place {
            Some(i) => i < hits@.len() && hits@[i as int].dst@ == dst@,
            None => !has_hit(hits@, dst@),
        },
{
    let mut i: usize = 0;
    while i < hits.len()
        invariant
            i <= hits@.len(),
            forall|a: int| 0 <= a < i ==> (#[trigger] hits@[a]).dst@ != dst@,
        decreases hits@.len() - i,
    {
        if hits[i].dst.same_as(dst) {
            return Some(i);
        }
        i = i + 1;
    }
    None
}

/// Records that the unit of `found` cached the first `cache_num` tokens.
fn record(hits: &mut Vec<CacheHit>, found: &StoredRoute, cache_num: usize) -> (place: usize)
    ensures
        place < final(hits)@.len(),
        final(hits)@[place as int].dst@ == found.dst@,
        final(hits)@[place as int].cached_tokens == cache_num,
        final(hits)@[place as int].key@ == found.key@,
        final(hits)@[place as int].last_used == found.last_used,
        place < old(hits)@.len() ==> final(hits)@.len() == old(hits)@.len() && old(hits)@[place as int].dst@
            == found.dst@,
        place >= old(hits)@.len() ==> final(hits)@.len() == old(hits)@.len() + 1 && !has_hit(
            old(hits)@,
            found.dst@,
        ),
        forall|i: int|
            0 <= i < old(hits)@.len() && i != place ==> #[trigger] final(hits)@[i] == old(hits)@[i],
{
    let hit = CacheHit {
        dst: found.dst.clone(),
        cached_tokens: cache_num,
        key: tokens_of(found.key.as_slice()),
        last_used: found.last_used,
    };
    match find_hit(hits, &found.dst) {
        Some(i) => {
            hits.set(i, hit);
            i
        },
        None => {
            hits.push(hit);
            hits.len() - 1
        },
    }
}

impl RadixTrieKvRouter {
    /// For each routing unit that cached a non-empty prefix of `seq`: the
    /// length of the longest such prefix, and a stored entry that shows it.
    /// The order of the hits, and which of several such entries a hit names,
    /// follow the order in which the trie hands its entries out.
    pub fn get(&self, seq: &[TokenId]) -> (hits: Vec<CacheHit>)
        requires
            self.wf(),
        ensures
            is_cache_map(hits@, self@, seq@),
    {
        let ghost routes = self@;
        let mut hits: Vec<CacheHit> = Vec::new();
        let mut prefix: Vec<TokenId> = Vec::new();
        let mut cache_num: usize = 0;
        while cache_num < seq.len()
            invariant_except_break
                cache_num <= seq@.len(),
                prefix@ == seq@.take(cache_num as int),
                is_cache_map_upto(hits@, routes, seq@, cache_num as nat),
            invariant
                routes == trie_routes(self.trie),
            ensures
                is_cache_map_upto(hits@, routes, seq@, seq@.len()),
            decreases seq@.len() - cache_num,
        {
            prefix.push(seq[cache_num]);
            cache_num = cache_num + 1;
            assert(prefix@ == seq@.take(cache_num as int));
            let found = trie_descendants(&self.trie, &prefix);
            match found {
                None => {
                    proof {
                        lemma_break_is_final(hits@, routes, seq@, cache_num as nat);
                    }
                    break ;
                },
                Some(listed) => {
                    let mut j: usize = 0;
                    proof {
                        assert forall|dst: DstView| !seen(listed@, 0, dst) by {}
                    }
                    while j < listed.len()
                        invariant
                            j <= listed@.len(),
                            1 <= cache_num <= seq@.len(),
                            prefix@ == seq@.take(cache_num as int),
                            lists_exactly(listed@, routes_under(routes, prefix@)),
                            is_merging(hits@, routes, seq@, cache_num as nat, listed@, j as int),
                        decreases listed@.len() - j,
                    {
                        let ghost earlier = hits@;
                        let place = record(&mut hits, &listed[j], cache_num);
                        proof {
                            lemma_recorded(
                                earlier,
                                hits@,
                                routes,
                                seq@,
                                cache_num as nat,
                                listed@,
                                j as int,
                                place as int,
                            );
                        }
                        j = j + 1;
                    }
                    proof {
                        lemma_merged(hits@, routes, seq@, cache_num as nat, listed@);
                    }
                },
            }
        }
        hits
    }
}

/// Where no stored key starts with the first `k` tokens, an answer for the
/// prefixes shorter than `k` is the answer for all of them.
proof fn lemma_break_is_final(
    hits: Seq<CacheHit>,
    routes: Map<Seq<TokenId>, Route>,
    seq: Seq<TokenId>,
    k: nat,
)
    requires
        1 <= k <= seq.len(),
        routes_under(routes, seq.take(k as int)).dom() =~= Set::empty(),
        is_cache_map_upto(hits, routes, seq, (k - 1) as nat),
    ensures
        is_cache_map_upto(hits, routes, seq, seq.len()),
{
    assert forall|dst: DstView|
        cached_len_upto(routes, seq, dst, seq.len()) == cached_len_upto(
            routes,
            seq,
            dst,
            (k - 1) as nat,
        ) by {
        lemma_no_longer_match(routes, seq, dst, k, seq.len());
    }
}

/// Where no stored key starts with the first `k` tokens, no unit cached a
/// prefix of `k` tokens or more.
proof fn lemma_no_longer_match(
    routes: Map<Seq<TokenId>, Route>,
    seq: Seq<TokenId>,
    dst: DstView,
    k: nat,
    n: nat,
)
    requires
        1 <= k,
        k - 1 <= n <= seq.len(),
        routes_under(routes, seq.take(k as int)).dom() =~= Set::empty(),
    ensures
        cached_len_upto(routes, seq, dst, n) == cached_len_upto(routes, seq, dst, (k - 1) as nat),
    decreases n,
{
    if n >= k {
        if serves_prefix(routes, dst, seq.take(n as int)) {
            let key = choose|key: Seq<TokenId>|
                #![trigger routes.contains_key(key)]
                routes.contains_key(key) && routes[key].dst == dst && seq.take(
                    n as int,
                ).is_prefix_of(key);
            assert(seq.take(k as int) =~= key.subrange(0, k as int));
            assert(routes_under(routes, seq.take(k as int)).dom().contains(key));
        }
        lemma_no_longer_match(routes, seq, dst, k, (n - 1) as nat);
    }
}

/// Recording one more listed entry keeps the answer in step.
proof fn lemma_recorded(
    earlier: Seq<CacheHit>,
    hits: Seq<CacheHit>,
    routes: Map<Seq<TokenId>, Route>,
    seq: Seq<TokenId>,
    k: nat,
    listed: Seq<StoredRoute>,
    j: int,
    place: int,
)
    requires
        1 <= k <= seq.len(),
        0 <= j < listed.len(),
        lists_exactly(listed, routes_under(routes, seq.take(k as int))),
        is_merging(earlier, routes, seq, k, listed, j),
        0 <= place < hits.len(),
        hits[place].dst@ == listed[j].dst@,
        hits[place].cached_tokens == k,
        hits[place].key@ == listed[j].key@,
        hits[place].last_used == listed[j].last_used,
        place < earlier.len() ==> hits.len() == earlier.len() && earlier[place].dst@
            == listed[j].dst@,
        place >= earlier.len() ==> hits.len() == earlier.len() + 1 && !has_hit(
            earlier,
            listed[j].dst@,
        ),
        forall|i: int| 0 <= i < earlier.len() && i != place ==> #[trigger] hits[i] == earlier[i],
    ensures
        is_merging(hits, routes, seq, k, listed, j + 1),
{
    let under = routes_under(routes, seq.take(k as int));
    let dst = listed[j].dst@;
    assert(under.contains_key(listed[j].key@));
    assert(under[listed[j].key@] == listed[j].route());
    assert(hits[place].shows(routes, seq));
    assert(seen(listed, j + 1, dst));
    assert forall|x: DstView| seen(listed, j + 1, x) <==> (seen(listed, j, x) || x == dst) by {
        if seen(listed, j, x) {
            let a = choose|a: int| 0 <= a < j && (#[trigger] listed[a]).dst@ == x;
            assert(0 <= a < j + 1);
        }
        if seen(listed, j + 1, x) && x != dst {
            let a = choose|a: int| 0 <= a < j + 1 && (#[trigger] listed[a]).dst@ == x;
            assert(a < j);
        }
    }
    assert forall|x: DstView| has_hit(earlier, x) implies has_hit(hits, x) by {
        let i = choose|i: int| 0 <= i < earlier.len() && (#[trigger] earlier[i]).dst@ == x;
        if i == place {
            assert(hits[place].dst@ == x);
        } else {
            assert(hits[i].dst@ == x);
        }
    }
    assert(has_hit(hits, dst)) by {
        assert(hits[place].dst@ == dst);
    }
    assert(one_hit_each(hits)) by {
        assert forall|a: int, b: int| 0 <= a < b < hits.len() implies (#[trigger] hits[a]).dst@ != (
        #[trigger] hits[b]).dst@ by {
            if a == place {
                if place < earlier.len() {
                    assert(earlier[a].dst@ != earlier[b].dst@);
                    assert(hits[b] == earlier[b]);
                } else {
                }
            } else if b == place {
                if place < earlier.len() {
                    assert(earlier[a].dst@ != earlier[b].dst@);
                    assert(hits[a] == earlier[a]);
                } else {
                    assert(hits[a] == earlier[a]);
                    assert(earlier[a].dst@ != dst);
                }
            } else {
                assert(hits[a] == earlier[a]);
                assert(hits[b] == earlier[b]);
            }
        }
    }
    assert forall|i: int| 0 <= i < hits.len() implies (#[trigger] hits[i]).shows(routes, seq)
        && hits[i].cached_tokens == if seen(listed, j + 1, hits[i].dst@) {
        k
    } else {
        cached_len_upto(routes, seq, hits[i].dst@, (k - 1) as nat)
    } by {
        if i != place {
            assert(hits[i] == earlier[i]);
            if place < earlier.len() {
                if i < place {
                    assert(earlier[i].dst@ != earlier[place].dst@);
                } else {
                    assert(earlier[place].dst@ != earlier[i].dst@);
                }
            } else {
                assert(earlier[i].dst@ != dst);
            }
        }
    }
    assert forall|x: DstView| #[trigger] seen(listed, j + 1, x) implies has_hit(hits, x) by {
        if x != dst {
            assert(seen(listed, j, x));
            assert(has_hit(earlier, x));
        }
    }
    assert forall|x: DstView| #[trigger]
        cached_len_upto(routes, seq, x, (k - 1) as nat) > 0 implies has_hit(hits, x) by {
        assert(has_hit(earlier, x));
    }
}

/// Once every entry under the prefix of `k` tokens is recorded, the answer is
/// the answer for the prefixes of up to `k` tokens.
proof fn lemma_merged(
    hits: Seq<CacheHit>,
    routes: Map<Seq<TokenId>, Route>,
    seq: Seq<TokenId>,
    k: nat,
    listed: Seq<StoredRoute>,
)
    requires
        1 <= k <= seq.len(),
        lists_exactly(listed, routes_under(routes, seq.take(k as int))),
        is_merging(hits, routes, seq, k, listed, listed.len() as int),
    ensures
        is_cache_map_upto(hits, routes, seq, k),
{
    let prefix = seq.take(k as int);
    let under = routes_under(routes, prefix);
    assert forall|dst: DstView|
        seen(listed, listed.len() as int, dst) <==> serves_prefix(routes, dst, prefix) by {
        if seen(listed, listed.len() as int, dst) {
            let a = choose|a: int| 0 <= a < listed.len() && (#[trigger] listed[a]).dst@ == dst;
            assert(under.contains_key(listed[a].key@));
            assert(under[listed[a].key@] == listed[a].route());
            assert(routes.contains_key(listed[a].key@));
        }
        if serves_prefix(routes, dst, prefix) {
            let key = choose|key: Seq<TokenId>|
                #![trigger routes.contains_key(key)]
                routes.contains_key(key) && routes[key].dst == dst && prefix.is_prefix_of(key);
            assert(under.contains_key(key));
            let a = choose|a: int| 0 <= a < listed.len() && #[trigger] listed[a].key@ == key;
            assert(under[listed[a].key@] == listed[a].route());
            assert(listed[a].dst@ == dst);
        }
    }
    assert forall|dst: DstView| #[trigger]
        cached_len_upto(routes, seq, dst, k) > 0 implies has_hit(hits, dst) by {
        if serves_prefix(routes, dst, prefix) {
            assert(seen(listed, listed.len() as int, dst));
        } else {
            assert(cached_len_upto(routes, seq, dst, (k - 1) as nat) > 0);
        }
    }
}

/// A listing of a finite map is as long as the map is large.
proof fn lemma_listing_len(listed: Seq<StoredRoute>, routes: Map<Seq<TokenId>, Route>)
    requires
        lists_exactly(listed, routes),
    ensures
        routes.dom().finite(),
        routes.len() == listed.len(),
    decreases listed.len(),
{
    if listed.len() == 0 {
        assert(routes.dom() =~= Set::empty());
    } else {
        let last = listed.last();
        let rest = listed.drop_last();
        let fewer = routes.remove(last.key@);
        assert(lists_exactly(rest, fewer)) by {
            assert forall|i: int| 0 <= i < rest.len() implies fewer.contains_key(
                #[trigger] rest[i].key@,
            ) && fewer[rest[i].key@] == rest[i].route() by {
                assert(rest[i] == listed[i]);
                assert(listed[i].key@ != listed[listed.len() - 1].key@);
            }
            assert forall|key: Seq<TokenId>| #[trigger] fewer.contains_key(key) implies exists|
                i: int,
            |
                0 <= i < rest.len() && #[trigger] rest[i].key@ == key by {
                assert(routes.contains_key(key));
                let i = choose|i: int| 0 <= i < listed.len() && #[trigger] listed[i].key@ == key;
                assert(rest[i] == listed[i]);
            }
        }
        lemma_listing_len(rest, fewer);
        assert(routes.contains_key(listed[listed.len() - 1].key@));
        assert(routes.dom() =~= fewer.dom().insert(last.key@));
    }
}

} // verus!
