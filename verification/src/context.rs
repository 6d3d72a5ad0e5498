//! The balancer's state: the registered workers with their load counters,
//! the prefix router, the room counter, and the policy that picks a prefill
//! rank and a decode rank for a request.

use vstd::prelude::*;
use vstd::string::*;
use crate::radixtrie_kv_router::{
    cached_len, find_hit, is_cache_map, update_result, CacheHit, RadixTrieKvRouter,
};
use crate::score::{beats, scores_higher, ScoreWeight};
use crate::engines::{build_prompt, encode_prompt, prompt_can_be_built, tool_count};
use crate::room::{take_room, wrap};
use crate::trie::current_timestamp;
use crate::radixtrie_kv_router::{DstProcess, DstView, Route};
use crate::{PrefillConfig, TokenId};

verus! {

/// The number of entries at which the balancer's router starts to evict.
pub const ROUTER_MAX_ENTRIES: usize = 10000;

/// Which pool a worker belongs to.
#[derive(Clone, Copy, Debug, PartialEq, Eq, Structural)]
pub enum Mode {
    Prefill,
    Decode,
}

/// A request to add a worker to one of the pools.
#[derive(Debug)]
pub struct PDRegistryRequest {
    pub mode: Mode,
    pub registry_url: String,
    pub bootstrap_port: Option<u16>,
}

/// A handle on one rank of one worker. While a request holds it, it counts
/// as one request in flight on that rank.
#[derive(Clone, Copy, Debug, PartialEq, Eq, Structural)]
pub struct LoadSlot {
    pub mode: Mode,
    pub worker: usize,
    pub rank: usize,
}

/// A registered prefill worker and the requests in flight on each of its ranks.
pub struct PrefillServer {
    pub config: PrefillConfig,
    pub outstanding: Vec<usize>,
}

/// A registered decode worker and the requests in flight on each of its ranks.
pub struct DecodeServer {
    pub url: String,
    pub outstanding: Vec<usize>,
}

/// A prefill worker as the contracts see it.
pub struct PrefillView {
    pub url: Seq<char>,
    pub bootstrap_port: Option<u16>,
}

/// The balancer's state as the contracts see it. `prefill_load[w][r]` is the
/// number of requests in flight on rank `r` of prefill worker `w`, and
/// `decode_load` is the same for the decode workers. `prompt_template` is
/// the name of the chat-prompt template.
pub struct ContextView {
    pub prefills: Seq<PrefillView>,
    pub prefill_load: Seq<Seq<usize>>,
    pub decodes: Seq<Seq<char>>,
    pub decode_load: Seq<Seq<usize>>,
    pub room_id: u32,
    pub router: Map<Seq<TokenId>, Route>,
    pub router_max_entries: usize,
    pub tokenizer: tokenizers::Tokenizer,
    pub prompt_template: Seq<char>,
    pub score_weight: ScoreWeight,
    pub prefill_dp_size: usize,
    pub decode_dp_size: usize,
}

/// The counters of `ranks` ranks on which nothing is in flight.
pub open spec fn idle(ranks: usize) -> Seq<usize> {
    Seq::new(ranks as nat, |r: int| 0usize)
}

/// The bootstrap port that a port flag stands for: zero stands for none.
pub open spec fn port_of_flag(flag: u16) -> Option<u16> {
    if flag == 0 {
        None
    } else {
        Some(flag)
    }
}

impl ContextView {
    /// The load table of one pool.
    pub open spec fn load(self, mode: Mode) -> Seq<Seq<usize>> {
        match mode {
            Mode::Prefill => self.prefill_load,
            Mode::Decode => self.decode_load,
        }
    }

    /// `slot` is a rank of a registered worker.
    pub open spec fn has_slot(self, slot: LoadSlot) -> bool {
        slot.worker < self.load(slot.mode).len() && slot.rank < self.load(
            slot.mode,
        )[slot.worker as int].len()
    }

    /// The number of requests in flight on `slot`.
    pub open spec fn outstanding(self, slot: LoadSlot) -> usize
        recommends
            self.has_slot(slot),
    {
        self.load(slot.mode)[slot.worker as int][slot.rank as int]
    }

    /// The state with the counter of `slot` set to `count`.
    pub open spec fn with_outstanding(self, slot: LoadSlot, count: usize) -> ContextView
        recommends
            self.has_slot(slot),
    {
        let table = self.load(slot.mode);
        let changed = table.update(
            slot.worker as int,
            table[slot.worker as int].update(slot.rank as int, count),
        );
        match slot.mode {
            Mode::Prefill => ContextView { prefill_load: changed, ..self },
            Mode::Decode => ContextView { decode_load: changed, ..self },
        }
    }

    /// The state in which a handle on `slot` has been given back, where one
    /// was out.
    pub open spec fn released(self, slot: LoadSlot) -> ContextView {
        if self.has_slot(slot) && self.outstanding(slot) > 0 {
            self.with_outstanding(slot, (self.outstanding(slot) - 1) as usize)
        } else {
            self
        }
    }

    /// The routing unit that is rank `r` of prefill worker `w`.
    pub open spec fn dst_of(self, w: int, r: int) -> DstView {
        DstView {
            url: self.prefills[w].url,
            bootstrap_port: self.prefills[w].bootstrap_port,
            dp_rank: r as usize,
        }
    }

    /// `(w, r)` is a rank of a registered prefill worker.
    pub open spec fn is_prefill_slot(self, w: int, r: int) -> bool {
        0 <= w < self.prefill_load.len() && 0 <= r < self.prefill_load[w].len()
    }

    /// `(v, q)` is a rank of a registered decode worker.
    pub open spec fn is_decode_slot(self, v: int, q: int) -> bool {
        0 <= v < self.decode_load.len() && 0 <= q < self.decode_load[v].len()
    }

    /// The number of leading tokens of `tokens` that rank `r` of prefill
    /// worker `w` has cached, by the router.
    pub open spec fn cached(self, tokens: Seq<TokenId>, w: int, r: int) -> nat {
        cached_len(self.router, tokens, self.dst_of(w, r))
    }

    /// For a prompt of `tokens`, prefill rank `(w1, r1)` scores strictly
    /// higher than prefill rank `(w2, r2)`.
    pub open spec fn prefill_beats(
        self,
        tokens: Seq<TokenId>,
        w1: int,
        r1: int,
        w2: int,
        r2: int,
    ) -> bool {
        scores_higher(
            self.score_weight,
            self.prefill_load[w1][r1] as nat,
            self.cached(tokens, w1, r1),
            self.prefill_load[w2][r2] as nat,
            self.cached(tokens, w2, r2),
        )
    }

    /// `(w, r)` is the prefill rank to pick for `tokens`: it scores higher
    /// than every rank that comes before it, and no rank after it scores
    /// higher than it does.
    pub open spec fn is_best_prefill(self, tokens: Seq<TokenId>, w: int, r: int) -> bool {
        &&& self.is_prefill_slot(w, r)
        &&& forall|w2: int, r2: int|
            #![trigger self.is_prefill_slot(w2, r2)]
            self.is_prefill_slot(w2, r2) ==> if comes_before(w2, r2, w, r) {
                self.prefill_beats(tokens, w, r, w2, r2)
            } else {
                !self.prefill_beats(tokens, w2, r2, w, r)
            }
    }

    /// `(v, q)` is the decode rank to pick: every rank before it has more
    /// in flight, and no rank after it has less.
    pub open spec fn is_best_decode(self, v: int, q: int) -> bool {
        &&& self.is_decode_slot(v, q)
        &&& forall|v2: int, q2: int|
            #![trigger self.is_decode_slot(v2, q2)]
            self.is_decode_slot(v2, q2) ==> if comes_before(v2, q2, v, q) {
                self.decode_load[v2][q2] > self.decode_load[v][q]
            } else {
                self.decode_load[v2][q2] >= self.decode_load[v][q]
            }
    }

    /// No prefill worker has a rank.
    pub open spec fn no_prefill_slot(self) -> bool {
        forall|w: int| 0 <= w < self.prefill_load.len() ==> (#[trigger] self.prefill_load[w]).len() == 0
    }

    /// No decode worker has a rank.
    pub open spec fn no_decode_slot(self) -> bool {
        forall|v: int| 0 <= v < self.decode_load.len() ==> (#[trigger] self.decode_load[v]).len() == 0
    }

    /// Every rank can be named by a handle: the pools and the workers are no
    /// larger than the machine can index.
    pub open spec fn countable(self) -> bool {
        &&& self.prefill_load.len() <= usize::MAX
        &&& self.decode_load.len() <= usize::MAX
        &&& forall|w: int|
            0 <= w < self.prefill_load.len() ==> (#[trigger] self.prefill_load[w]).len()
                <= usize::MAX
        &&& forall|v: int|
            0 <= v < self.decode_load.len() ==> (#[trigger] self.decode_load[v]).len()
                <= usize::MAX
    }

    /// The state's invariant: one row of counters for each worker, with one
    /// counter for each of its ranks, and a router within its bounds.
    pub open spec fn wf(self) -> bool {
        &&& self.countable()
        &&& self.prefills.len() == self.prefill_load.len()
        &&& self.decodes.len() == self.decode_load.len()
        &&& forall|w: int|
            0 <= w < self.prefill_load.len() ==> (#[trigger] self.prefill_load[w]).len()
                == self.prefill_dp_size
        &&& forall|v: int|
            0 <= v < self.decode_load.len() ==> (#[trigger] self.decode_load[v]).len()
                == self.decode_dp_size
        &&& self.router.dom().finite()
        &&& self.router.len() <= if self.router_max_entries == 0 {
            1
        } else {
            self.router_max_entries as nat
        }
        &&& forall|key: Seq<TokenId>| #[trigger] self.router.contains_key(key) ==> key.len() > 0
    }

    /// No counter is at the machine's limit, so one more request can be
    /// counted on any rank.
    pub open spec fn has_headroom(self) -> bool {
        forall|slot: LoadSlot| #[trigger]
            self.has_slot(slot) ==> self.outstanding(slot) < usize::MAX
    }
}

/// The order in which ranks are considered: worker by worker in the order
/// of registration, and rank by rank within a worker.
pub open spec fn comes_before(w1: int, r1: int, w2: int, r2: int) -> bool {
    w1 < w2 || (w1 == w2 && r1 < r2)
}

/// What marking the chosen unit's cache entry makes of the router: where
/// `dst` has a prefix of `tokens` cached, one stored entry of `dst` whose key
/// starts with the longest such prefix gets `now` as its time of use.
pub open spec fn touched_for(
    before: Map<Seq<TokenId>, Route>,
    after: Map<Seq<TokenId>, Route>,
    tokens: Seq<TokenId>,
    dst: DstView,
    now: i64,
) -> bool {
    if cached_len(before, tokens, dst) > 0 {
        exists|key: Seq<TokenId>|
            #![trigger before.contains_key(key)]
            before.contains_key(key) && before[key].dst == dst && tokens.take(
                cached_len(before, tokens, dst) as int,
            ).is_prefix_of(key) && after == before.insert(key, Route { dst, last_used: now })
    } else {
        after == before
    }
}

/// What a selection of `dst` for `tokens` makes of the router: the cache
/// entry that steered it is marked as used, and then `tokens` is stored for
/// `dst`.
pub open spec fn routed(
    before: Map<Seq<TokenId>, Route>,
    after: Map<Seq<TokenId>, Route>,
    max_entries: usize,
    tokens: Seq<TokenId>,
    dst: DstView,
    now: i64,
) -> bool {
    exists|touched: Map<Seq<TokenId>, Route>|
        #![trigger touched_for(before, touched, tokens, dst, now)]
        touched_for(before, touched, tokens, dst, now) && update_result(
            touched,
            after,
            max_entries,
            tokens,
            Route { dst, last_used: now },
        )
}

/// The prefill rank and the decode rank picked for a request, with the
/// handles that count the request on both.
#[derive(Debug)]
pub struct ServerPair {
    pub prefill_server: String,
    pub prefill_rank: usize,
    pub prefill_server_guard: LoadSlot,
    pub bootstrap_port: Option<u16>,
    pub decode_server: String,
    pub decode_rank: usize,
    pub decode_server_guard: LoadSlot,
}

/// Why no pair was picked.
#[derive(Debug)]
pub enum SelectError {
    /// The prompt could not be built from the messages.
    Prompt(String),
    /// The tokenizer failed on the prompt.
    Tokenize(String),
    /// No prefill rank is registered.
    NoPrefillAvailable,
    /// No decode rank is registered.
    NoDecodeAvailable,
}

/// What a selection for `tokens` at time `now` returns and makes of the
/// state.
pub open spec fn selected(
    before: ContextView,
    after: ContextView,
    tokens: Seq<TokenId>,
    now: i64,
    outcome: Result<ServerPair, SelectError>,
) -> bool {
    match outcome {
        Ok(pair) => {
            let prefill = pair.prefill_server_guard;
            let decode = pair.decode_server_guard;
            &&& prefill.mode == Mode::Prefill
            &&& prefill.rank == pair.prefill_rank
            &&& decode.mode == Mode::Decode
            &&& decode.rank == pair.decode_rank
            &&& before.is_best_prefill(tokens, prefill.worker as int, prefill.rank as int)
            &&& before.is_best_decode(decode.worker as int, decode.rank as int)
            &&& pair.prefill_server@ == before.prefills[prefill.worker as int].url
            &&& pair.bootstrap_port == before.prefills[prefill.worker as int].bootstrap_port
            &&& pair.decode_server@ == before.decodes[decode.worker as int]
            &&& routed(
                before.router,
                after.router,
                before.router_max_entries,
                tokens,
                before.dst_of(prefill.worker as int, prefill.rank as int),
                now,
            )
            &&& after == (ContextView { router: after.router, ..before }).with_outstanding(
                prefill,
                (before.outstanding(prefill) + 1) as usize,
            ).with_outstanding(decode, (before.outstanding(decode) + 1) as usize)
        },
        Err(SelectError::NoPrefillAvailable) => before.no_prefill_slot() && after == before,
        Err(SelectError::NoDecodeAvailable) => {
            &&& before.no_decode_slot()
            &&& after == (ContextView { router: after.router, ..before })
            &&& exists|w: int, r: int|
                #![trigger before.dst_of(w, r)]
                before.is_best_prefill(tokens, w, r) && routed(
                    before.router,
                    after.router,
                    before.router_max_entries,
                    tokens,
                    before.dst_of(w, r),
                    now,
                )
        },
        Err(_) => false,
    }
}

/// What a request is told that the prompt template cannot be asked for.
pub open spec fn refusal_text() -> Seq<char> {
    "the prompt template cannot build a prompt for this request"@
}

/// What a selection for a chat request with `tools` tools returns and makes
/// of the state. A request that the template cannot be asked for is refused.
/// Otherwise the outcome is the template's error, the tokenizer's error, or
/// the selection for some tokens at some time.
pub open spec fn answers_request(
    before: ContextView,
    after: ContextView,
    tools: nat,
    outcome: Result<ServerPair, SelectError>,
) -> bool {
    if !prompt_can_be_built(before.prompt_template, tools) {
        &&& outcome matches Err(SelectError::Prompt(text))
        &&& text@ == refusal_text()
        &&& after == before
    } else {
        match outcome {
            Err(SelectError::Prompt(_)) | Err(SelectError::Tokenize(_)) => after == before,
            _ => exists|tokens: Seq<TokenId>, now: i64| #[trigger]
                selected(before, after, tokens, now, outcome),
        }
    }
}

/// A prefill rank under consideration, with what its score is made of.
struct Choice {
    worker: usize,
    rank: usize,
    outstanding: usize,
    cached: usize,
    hit: Option<usize>,
}

/// `best` is the pick among the prefill ranks that come before `(w, r)`.
spec fn best_prefill_before(
    view: ContextView,
    tokens: Seq<TokenId>,
    hits: Seq<CacheHit>,
    best: Option<Choice>,
    w: int,
    r: int,
) -> bool {
    match best {
        None => forall|w2: int, r2: int|
            #![trigger view.is_prefill_slot(w2, r2)]
            view.is_prefill_slot(w2, r2) ==> !comes_before(w2, r2, w, r),
        Some(c) => {
            &&& view.is_prefill_slot(c.worker as int, c.rank as int)
            &&& comes_before(c.worker as int, c.rank as int, w, r)
            &&& c.outstanding == view.prefill_load[c.worker as int][c.rank as int]
            &&& c.cached == view.cached(tokens, c.worker as int, c.rank as int)
            &&& match c.hit {
                Some(i) => i < hits.len() && hits[i as int].dst@ == view.dst_of(
                    c.worker as int,
                    c.rank as int,
                ),
                None => c.cached == 0,
            }
            &&& forall|w2: int, r2: int|
                #![trigger view.is_prefill_slot(w2, r2)]
                view.is_prefill_slot(w2, r2) && comes_before(w2, r2, w, r) ==> if comes_before(
                    w2,
                    r2,
                    c.worker as int,
                    c.rank as int,
                ) {
                    view.prefill_beats(tokens, c.worker as int, c.rank as int, w2, r2)
                } else {
                    !view.prefill_beats(tokens, w2, r2, c.worker as int, c.rank as int)
                }
        },
    }
}

/// `best` is the pick among the decode ranks that come before `(v, q)`.
spec fn best_decode_before(view: ContextView, best: Option<(usize, usize)>, v: int, q: int) -> bool {
    match best {
        None => forall|v2: int, q2: int|
            #![trigger view.is_decode_slot(v2, q2)]
            view.is_decode_slot(v2, q2) ==> !comes_before(v2, q2, v, q),
        Some(c) => {
            &&& view.is_decode_slot(c.0 as int, c.1 as int)
            &&& comes_before(c.0 as int, c.1 as int, v, q)
            &&& forall|v2: int, q2: int|
                #![trigger view.is_decode_slot(v2, q2)]
                view.is_decode_slot(v2, q2) && comes_before(v2, q2, v, q) ==> if comes_before(
                    v2,
                    q2,
                    c.0 as int,
                    c.1 as int,
                ) {
                    view.decode_load[v2][q2] > view.decode_load[c.0 as int][c.1 as int]
                } else {
                    view.decode_load[v2][q2] >= view.decode_load[c.0 as int][c.1 as int]
                }
        },
    }
}

/// The balancer's state.
pub struct Context {
    prefill_servers: Vec<PrefillServer>,
    decode_servers: Vec<DecodeServer>,
    room_id: u32,
    radix_trie_kv_router: RadixTrieKvRouter,
    tokenizer: tokenizers::Tokenizer,
    prompt_template: String,
    score_weight: ScoreWeight,
    prefill_dp_size: usize,
    decode_dp_size: usize,
}

spec fn prefill_views(servers: Seq<PrefillServer>) -> Seq<PrefillView> {
    Seq::new(
        servers.len(),
        |w: int|
            PrefillView {
                url: servers[w].config.url@,
                bootstrap_port: servers[w].config.bootstrap_port,
            },
    )
}

spec fn prefill_loads(servers: Seq<PrefillServer>) -> Seq<Seq<usize>> {
    Seq::new(servers.len(), |w: int| servers[w].outstanding@)
}

spec fn decode_views(servers: Seq<DecodeServer>) -> Seq<Seq<char>> {
    Seq::new(servers.len(), |w: int| servers[w].url@)
}

spec fn decode_loads(servers: Seq<DecodeServer>) -> Seq<Seq<usize>> {
    Seq::new(servers.len(), |w: int| servers[w].outstanding@)
}

impl View for Context {
    type V = ContextView;

    closed spec fn view(&self) -> ContextView {
        ContextView {
            prefills: prefill_views(self.prefill_servers@),
            prefill_load: prefill_loads(self.prefill_servers@),
            decodes: decode_views(self.decode_servers@),
            decode_load: decode_loads(self.decode_servers@),
            room_id: self.room_id,
            router: self.radix_trie_kv_router@,
            router_max_entries: self.radix_trie_kv_router.max_entries(),
            tokenizer: self.tokenizer,
            prompt_template: self.prompt_template@,
            score_weight: self.score_weight,
            prefill_dp_size: self.prefill_dp_size,
            decode_dp_size: self.decode_dp_size,
        }
    }
}

/// Counters for `ranks` ranks, all at zero.
fn fresh_slots(ranks: usize) -> (slots: Vec<usize>)
    ensures
        slots@ == idle(ranks),
{
    let mut slots: Vec<usize> = Vec::new();
    let mut r: usize = 0;
    while r < ranks
        invariant
            r <= ranks,
            slots@.len() == r,
            forall|i: int| 0 <= i < r ==> slots@[i] == 0,
        decreases ranks - r,
    {
        slots.push(0);
        r = r + 1;
    }
    assert(slots@ =~= idle(ranks));
    slots
}

/// The bootstrap port that a port flag stands for: zero stands for none.
pub fn bootstrap_port_of(flag: u16) -> (port: Option<u16>)
    ensures
        port == port_of_flag(flag),
{
    if flag == 0 {
        None
    } else {
        Some(flag)
    }
}

impl Context {
    /// The state's invariant. See [`ContextView::wf`].
    pub open spec fn wf(&self) -> bool {
        self@.wf()
    }

    /// The state at start-up. Each prefill URL gets the port flag in the same
    /// place, and flag zero where the flags run out; port flags beyond the
    /// URLs are not used. Every worker starts idle on each of its ranks, the
    /// router is empty, and the first room is room zero. The tokenizer and
    /// the name of the prompt template are kept for the life of the state.
    pub fn new(
        prefill: &Vec<String>,
        prefill_bootstrap_ports: &Vec<u16>,
        decode: &Vec<String>,
        tokenizer: tokenizers::Tokenizer,
        prompt_template: String,
        score_weight: ScoreWeight,
        prefill_dp_size: usize,
        decode_dp_size: usize,
    ) -> (ctx: Context)
        ensures
            ctx.wf(),
            ctx@.prefills == Seq::new(
                prefill@.len(),
                |w: int|
                    PrefillView {
                        url: prefill@[w]@,
                        bootstrap_port: if w < prefill_bootstrap_ports@.len() {
                            port_of_flag(prefill_bootstrap_ports@[w])
                        } else {
                            None
                        },
                    },
            ),
            ctx@.prefill_load == Seq::new(prefill@.len(), |w: int| idle(prefill_dp_size)),
            ctx@.decodes == Seq::new(decode@.len(), |w: int| decode@[w]@),
            ctx@.decode_load == Seq::new(decode@.len(), |w: int| idle(decode_dp_size)),
            ctx@.room_id == 0,
            ctx@.router == Map::<Seq<TokenId>, Route>::empty(),
            ctx@.router_max_entries == ROUTER_MAX_ENTRIES,
            ctx@.tokenizer == tokenizer,
            ctx@.prompt_template == prompt_template@,
            ctx@.score_weight == score_weight,
            ctx@.prefill_dp_size == prefill_dp_size,
            ctx@.decode_dp_size == decode_dp_size,
    {
        let mut prefill_servers: Vec<PrefillServer> = Vec::new();
        let mut w: usize = 0;
        while w < prefill.len()
            invariant
                w <= prefill@.len(),
                prefill_servers@.len() == w,
                forall|i: int|
                    0 <= i < w ==> (#[trigger] prefill_servers@[i]).config.url@ == prefill@[i]@
                        && prefill_servers@[i].config.bootstrap_port == (if i
                        < prefill_bootstrap_ports@.len() {
                        port_of_flag(prefill_bootstrap_ports@[i])
                    } else {
                        None
                    }) && prefill_servers@[i].outstanding@ == idle(prefill_dp_size),
            decreases prefill@.len() - w,
        {
            let flag: u16 = if w < prefill_bootstrap_ports.len() {
                prefill_bootstrap_ports[w]
            } else {
                0
            };
            prefill_servers.push(
                PrefillServer {
                    config: PrefillConfig {
                        url: prefill[w].clone(),
                        bootstrap_port: bootstrap_port_of(flag),
                    },
                    outstanding: fresh_slots(prefill_dp_size),
                },
            );
            w = w + 1;
        }
        let mut decode_servers: Vec<DecodeServer> = Vec::new();
        let mut v: usize = 0;
        while v < decode.len()
            invariant
                v <= decode@.len(),
                decode_servers@.len() == v,
                forall|i: int|
                    0 <= i < v ==> (#[trigger] decode_servers@[i]).url@ == decode@[i]@
                        && decode_servers@[i].outstanding@ == idle(decode_dp_size),
            decreases decode@.len() - v,
        {
            decode_servers.push(
                DecodeServer { url: decode[v].clone(), outstanding: fresh_slots(decode_dp_size) },
            );
            v = v + 1;
        }
        let ctx = Context {
            prefill_servers,
            decode_servers,
            room_id: 0,
            radix_trie_kv_router: RadixTrieKvRouter::new(ROUTER_MAX_ENTRIES),
            tokenizer,
            prompt_template,
            score_weight,
            prefill_dp_size,
            decode_dp_size,
        };
        proof {
            assert(ctx@.prefills =~= Seq::new(
                prefill@.len(),
                |w: int|
                    PrefillView {
                        url: prefill@[w]@,
                        bootstrap_port: if w < prefill_bootstrap_ports@.len() {
                            port_of_flag(prefill_bootstrap_ports@[w])
                        } else {
                            None
                        },
                    },
            ));
            assert(ctx@.prefill_load =~= Seq::new(prefill@.len(), |w: int| idle(prefill_dp_size)));
            assert(ctx@.decodes =~= Seq::new(decode@.len(), |w: int| decode@[w]@));
            assert(ctx@.decode_load =~= Seq::new(decode@.len(), |w: int| idle(decode_dp_size)));
        }
        ctx
    }

    /// Adds a worker to the pool that the request names, idle on each of its
    /// ranks. Nothing is checked against the workers already registered.
    pub fn register(&mut self, req: PDRegistryRequest)
        requires
            old(self).wf(),
        ensures
            final(self).wf(),
            req.mode == Mode::Prefill ==> final(self)@ == (ContextView {
                prefills: old(self)@.prefills.push(
                    PrefillView { url: req.registry_url@, bootstrap_port: req.bootstrap_port },
                ),
                prefill_load: old(self)@.prefill_load.push(idle(old(self)@.prefill_dp_size)),
                ..old(self)@
            }),
            req.mode == Mode::Decode ==> final(self)@ == (ContextView {
                decodes: old(self)@.decodes.push(req.registry_url@),
                decode_load: old(self)@.decode_load.push(idle(old(self)@.decode_dp_size)),
                ..old(self)@
            }),
    {
        match req.mode {
            Mode::Prefill => {
                let slots = fresh_slots(self.prefill_dp_size);
                self.prefill_servers.push(
                    PrefillServer {
                        config: PrefillConfig {
                            url: req.registry_url,
                            bootstrap_port: req.bootstrap_port,
                        },
                        outstanding: slots,
                    },
                );
                let count = self.prefill_servers.len();
                proof {
                    assert(self@.prefill_load.len() == count);
                    assert(self@.prefills =~= old(self)@.prefills.push(
                        PrefillView { url: req.registry_url@, bootstrap_port: req.bootstrap_port },
                    ));
                    assert(self@.prefill_load =~= old(self)@.prefill_load.push(
                        idle(old(self)@.prefill_dp_size),
                    ));
                }
            },
            Mode::Decode => {
                let slots = fresh_slots(self.decode_dp_size);
                self.decode_servers.push(DecodeServer { url: req.registry_url, outstanding: slots });
                let count = self.decode_servers.len();
                proof {
                    assert(self@.decode_load.len() == count);
                    assert(self@.decodes =~= old(self)@.decodes.push(req.registry_url@));
                    assert(self@.decode_load =~= old(self)@.decode_load.push(
                        idle(old(self)@.decode_dp_size),
                    ));
                }
            },
        }
    }

    /// The URLs of the prefill workers and of the decode workers, each in
    /// the order of registration.
    pub fn all_serves(&self) -> (urls: (Vec<String>, Vec<String>))
        ensures
            urls.0@.len() == self@.prefills.len(),
            forall|w: int| 0 <= w < urls.0@.len() ==> (#[trigger] urls.0@[w])@ == self@.prefills[w].url,
            urls.1@.len() == self@.decodes.len(),
            forall|w: int| 0 <= w < urls.1@.len() ==> (#[trigger] urls.1@[w])@ == self@.decodes[w],
    {
        let mut prefill_servers: Vec<String> = Vec::new();
        let mut w: usize = 0;
        while w < self.prefill_servers.len()
            invariant
                w <= self.prefill_servers@.len(),
                prefill_servers@.len() == w,
                forall|i: int|
                    0 <= i < w ==> (#[trigger] prefill_servers@[i])@
                        == self.prefill_servers@[i].config.url@,
            decreases self.prefill_servers@.len() - w,
        {
            prefill_servers.push(self.prefill_servers[w].config.url.clone());
            w = w + 1;
        }
        let mut decode_servers: Vec<String> = Vec::new();
        let mut v: usize = 0;
        while v < self.decode_servers.len()
            invariant
                v <= self.decode_servers@.len(),
                decode_servers@.len() == v,
                forall|i: int|
                    0 <= i < v ==> (#[trigger] decode_servers@[i])@ == self.decode_servers@[i].url@,
            decreases self.decode_servers@.len() - v,
        {
            decode_servers.push(self.decode_servers[v].url.clone());
            v = v + 1;
        }
        (prefill_servers, decode_servers)
    }
}

impl Context {
    /// The prefill rank to pick for the prompt that `hits` answers for.
    fn choose_prefill(&self, hits: &Vec<CacheHit>, Ghost(tokens): Ghost<Seq<TokenId>>) -> (best: Option<Choice>)
        requires
            self.wf(),
            is_cache_map(hits@, self@.router, tokens),
        ensures
            best_prefill_before(self@, tokens, hits@, best, self@.prefill_load.len() as int, 0),
    {
        let ghost view = self@;
        let mut best: Option<Choice> = None;
        let mut w: usize = 0;
        while w < self.prefill_servers.len()
            invariant
                view == self@,
                w <= self.prefill_servers@.len(),
                is_cache_map(hits@, view.router, tokens),
                best_prefill_before(view, tokens, hits@, best, w as int, 0),
            decreases self.prefill_servers@.len() - w,
        {
            let mut r: usize = 0;
            while r < self.prefill_servers[w].outstanding.len()
                invariant
                    view == self@,
                    w < self.prefill_servers@.len(),
                    r <= self.prefill_servers@[w as int].outstanding@.len(),
                    is_cache_map(hits@, view.router, tokens),
                    best_prefill_before(view, tokens, hits@, best, w as int, r as int),
                decreases self.prefill_servers@[w as int].outstanding@.len() - r,
            {
                let outstanding = self.prefill_servers[w].outstanding[r];
                let dst = DstProcess { node: self.prefill_servers[w].config.clone(), dp_rank: r };
                assert(dst@ == view.dst_of(w as int, r as int));
                let hit = find_hit(hits, &dst);
                let cached: usize = match hit {
                    Some(i) => hits[i].cached_tokens,
                    None => 0,
                };
                assert(cached == view.cached(tokens, w as int, r as int));
                let better = match &best {
                    None => true,
                    Some(c) => beats(&self.score_weight, outstanding, cached, c.outstanding, c.cached),
                };
                let ghost earlier = best;
                if better {
                    best = Some(Choice { worker: w, rank: r, outstanding, cached, hit });
                }
                proof {
                    lemma_considered(view, tokens, hits@, earlier, best, w as int, r as int);
                }
                r = r + 1;
            }
            proof {
                lemma_next_worker(view, tokens, hits@, best, w as int);
            }
            w = w + 1;
        }
        best
    }

    /// The decode rank to pick.
    fn choose_decode(&self) -> (best: Option<(usize, usize)>)
        ensures
            best_decode_before(self@, best, self@.decode_load.len() as int, 0),
    {
        let ghost view = self@;
        let mut best: Option<(usize, usize)> = None;
        let mut least: usize = 0;
        let mut v: usize = 0;
        while v < self.decode_servers.len()
            invariant
                view == self@,
                v <= self.decode_servers@.len(),
                best_decode_before(view, best, v as int, 0),
                best matches Some(c) ==> least == view.decode_load[c.0 as int][c.1 as int],
            decreases self.decode_servers@.len() - v,
        {
            let mut q: usize = 0;
            while q < self.decode_servers[v].outstanding.len()
                invariant
                    view == self@,
                    v < self.decode_servers@.len(),
                    q <= self.decode_servers@[v as int].outstanding@.len(),
                    best_decode_before(view, best, v as int, q as int),
                    best matches Some(c) ==> least == view.decode_load[c.0 as int][c.1 as int],
                decreases self.decode_servers@[v as int].outstanding@.len() - q,
            {
                let outstanding = self.decode_servers[v].outstanding[q];
                let fewer = match &best {
                    None => true,
                    Some(_) => outstanding < least,
                };
                if fewer {
                    best = Some((v, q));
                    least = outstanding;
                }
                q = q + 1;
            }
            proof {
                lemma_next_decode_worker(view, best, v as int);
            }
            v = v + 1;
        }
        best
    }
}

impl Context {
    /// Picks the prefill rank and the decode rank for a prompt of `tokens`,
    /// at time `now`, and counts the request on both. See [`selected`].
    pub fn select_pair_at(&mut self, tokens: &[TokenId], now: i64) -> (outcome: Result<
        ServerPair,
        SelectError,
    >)
        requires
            old(self).wf(),
            old(self)@.has_headroom(),
        ensures
            final(self).wf(),
            selected(old(self)@, final(self)@, tokens@, now, outcome),
    {
        let ghost before = self@;
        let hits = self.radix_trie_kv_router.get(tokens);
        let best = self.choose_prefill(&hits, Ghost(tokens@));
        let chosen = match best {
            None => {
                proof {
                    assert forall|w: int| 0 <= w < before.prefill_load.len() implies (
                    #[trigger] before.prefill_load[w]).len() == 0 by {
                        if before.prefill_load[w].len() > 0 {
                            assert(before.is_prefill_slot(w, 0));
                        }
                    }
                }
                return Err(SelectError::NoPrefillAvailable);
            },
            Some(c) => c,
        };
        let w = chosen.worker;
        let r = chosen.rank;
        let ghost dst_view = before.dst_of(w as int, r as int);
        proof {
            assert forall|w2: int, r2: int|
                #![trigger before.is_prefill_slot(w2, r2)]
                before.is_prefill_slot(w2, r2) implies comes_before(
                w2,
                r2,
                before.prefill_load.len() as int,
                0,
            ) by {}
            assert(before.is_best_prefill(tokens@, w as int, r as int));
        }
        match chosen.hit {
            Some(i) => {
                assert(hits@[i as int].shows(before.router, tokens@));
                self.radix_trie_kv_router.touch_at(hits[i].key.as_slice(), now);
            },
            None => {
                assert(cached_len(before.router, tokens@, dst_view) == 0);
            },
        }
        let ghost touched = self.radix_trie_kv_router@;
        assert(touched_for(before.router, touched, tokens@, dst_view, now));
        let dst = DstProcess { node: self.prefill_servers[w].config.clone(), dp_rank: r };
        self.radix_trie_kv_router.update_at(tokens, dst, now);
        assert(routed(
            before.router,
            self@.router,
            before.router_max_entries,
            tokens@,
            dst_view,
            now,
        ));
        let ghost mid = self@;
        assert(mid == (ContextView { router: mid.router, ..before }));
        let (v, q) = match self.choose_decode() {
            None => {
                proof {
                    assert forall|v: int| 0 <= v < before.decode_load.len() implies (
                    #[trigger] before.decode_load[v]).len() == 0 by {
                        if before.decode_load[v].len() > 0 {
                            assert(self@.is_decode_slot(v, 0));
                        }
                    }
                    assert(self@ == (ContextView { router: self@.router, ..before }));
                }
                return Err(SelectError::NoDecodeAvailable);
            },
            Some(c) => c,
        };
        let prefill_guard = LoadSlot { mode: Mode::Prefill, worker: w, rank: r };
        let decode_guard = LoadSlot { mode: Mode::Decode, worker: v, rank: q };
        proof {
            assert forall|v2: int, q2: int|
                #![trigger before.is_decode_slot(v2, q2)]
                before.is_decode_slot(v2, q2) implies if comes_before(v2, q2, v as int, q as int) {
                before.decode_load[v2][q2] > before.decode_load[v as int][q as int]
            } else {
                before.decode_load[v2][q2] >= before.decode_load[v as int][q as int]
            } by {
                assert(mid.is_decode_slot(v2, q2));
                assert(comes_before(v2, q2, mid.decode_load.len() as int, 0));
            }
            assert(before.is_best_decode(v as int, q as int));
            assert(before.has_slot(prefill_guard));
            assert(before.has_slot(decode_guard));
        }
        let prefill_count = self.prefill_servers[w].outstanding[r];
        self.prefill_servers[w].outstanding[r] = prefill_count + 1;
        let decode_count = self.decode_servers[v].outstanding[q];
        self.decode_servers[v].outstanding[q] = decode_count + 1;
        let pair = ServerPair {
            prefill_server: self.prefill_servers[w].config.url.clone(),
            prefill_rank: r,
            prefill_server_guard: prefill_guard,
            bootstrap_port: self.prefill_servers[w].config.bootstrap_port,
            decode_server: self.decode_servers[v].url.clone(),
            decode_rank: q,
            decode_server_guard: decode_guard,
        };
        proof {
            let expected = (ContextView { router: self@.router, ..before }).with_outstanding(
                prefill_guard,
                (before.outstanding(prefill_guard) + 1) as usize,
            ).with_outstanding(decode_guard, (before.outstanding(decode_guard) + 1) as usize);
            assert(self@.prefills =~= expected.prefills);
            assert(self@.decodes =~= expected.decodes);
            assert(self@.prefill_load =~= expected.prefill_load);
            assert(self@.decode_load =~= expected.decode_load);
        }
        Ok(pair)
    }

    /// Whether the prompt template can be asked for a prompt with these
    /// tools. See [`prompt_can_be_built`].
    pub fn can_build_prompt(&self, tools: Option<&[endpoints::chat::Tool]>) -> (ok: bool)
        ensures
            ok == prompt_can_be_built(self@.prompt_template, tool_count(tools)),
    {
        let count: usize = match tools {
            Some(list) => list.len(),
            None => 0,
        };
        if self.prompt_template == String::from_str("embedding") {
            false
        } else if self.prompt_template == String::from_str("tts") {
            false
        } else if self.prompt_template == String::from_str("none") {
            false
        } else if self.prompt_template == String::from_str("functionary-32") {
            count == 0
        } else {
            true
        }
    }

    /// Picks the prefill rank and the decode rank for a chat request. The
    /// prompt is built from the messages and the tools by the template, which
    /// may rewrite the messages, and tokenized; the selection is then
    /// [`Self::select_pair_at`] on the tokens, at the time that the clock
    /// shows. A request that the template cannot be asked for is refused
    /// with [`refusal_text`] before anything is called. Where the request is
    /// refused, or the template or the tokenizer fails, the state stays as it
    /// is.
    pub fn select_pair(
        &mut self,
        messages: &mut Vec<endpoints::chat::ChatCompletionRequestMessage>,
        tools: Option<&[endpoints::chat::Tool]>,
    ) -> (outcome: Result<ServerPair, SelectError>)
        requires
            old(self).wf(),
            old(self)@.has_headroom(),
        ensures
            final(self).wf(),
            answers_request(old(self)@, final(self)@, tool_count(tools), outcome),
    {
        if !self.can_build_prompt(tools) {
            return Err(
                SelectError::Prompt(
                    String::from_str("the prompt template cannot build a prompt for this request"),
                ),
            );
        }
        let raw_prompts = match build_prompt(self.prompt_template.as_str(), messages, tools) {
            Ok(prompt) => prompt,
            Err(reason) => {
                return Err(SelectError::Prompt(reason));
            },
        };
        let ids = match encode_prompt(&self.tokenizer, raw_prompts) {
            Ok(ids) => ids,
            Err(reason) => {
                return Err(SelectError::Tokenize(reason));
            },
        };
        let now = current_timestamp();
        let outcome = self.select_pair_at(ids.as_slice(), now);
        assert(selected(old(self)@, self@, ids@, now, outcome));
        outcome
    }

    /// [`Self::select_pair`] where one more request can be counted on any
    /// rank, and nothing otherwise: a state in which some counter is at the
    /// machine's limit stays as it is.
    pub fn try_select_pair(
        &mut self,
        messages: &mut Vec<endpoints::chat::ChatCompletionRequestMessage>,
        tools: Option<&[endpoints::chat::Tool]>,
    ) -> (attempt: Option<Result<ServerPair, SelectError>>)
        requires
            old(self).wf(),
        ensures
            final(self).wf(),
            match attempt {
                None => !old(self)@.has_headroom() && final(self)@ == old(self)@,
                Some(outcome) => old(self)@.has_headroom() && answers_request(
                    old(self)@,
                    final(self)@,
                    tool_count(tools),
                    outcome,
                ),
            },
    {
        if self.has_headroom() {
            Some(self.select_pair(messages, tools))
        } else {
            None
        }
    }

    /// Gives back a handle: the request no longer counts on its rank.
    /// Returns whether anything was in flight on that rank; a handle on no
    /// registered rank, or on an idle one, changes nothing.
    pub fn release(&mut self, slot: LoadSlot) -> (released: bool)
        requires
            old(self).wf(),
        ensures
            final(self).wf(),
            released == (old(self)@.has_slot(slot) && old(self)@.outstanding(slot) > 0),
            final(self)@ == old(self)@.released(slot),
    {
        let ghost before = self@;
        match slot.mode {
            Mode::Prefill => {
                if slot.worker < self.prefill_servers.len() && slot.rank
                    < self.prefill_servers[slot.worker].outstanding.len() {
                    let count = self.prefill_servers[slot.worker].outstanding[slot.rank];
                    if count > 0 {
                        self.prefill_servers[slot.worker].outstanding[slot.rank] = count - 1;
                        proof {
                            let expected = before.with_outstanding(slot, (count - 1) as usize);
                            assert(self@.prefills =~= expected.prefills);
                            assert(self@.prefill_load =~= expected.prefill_load);
                        }
                        return true;
                    }
                }
                false
            },
            Mode::Decode => {
                if slot.worker < self.decode_servers.len() && slot.rank
                    < self.decode_servers[slot.worker].outstanding.len() {
                    let count = self.decode_servers[slot.worker].outstanding[slot.rank];
                    if count > 0 {
                        self.decode_servers[slot.worker].outstanding[slot.rank] = count - 1;
                        proof {
                            let expected = before.with_outstanding(slot, (count - 1) as usize);
                            assert(self@.decodes =~= expected.decodes);
                            assert(self@.decode_load =~= expected.decode_load);
                        }
                        return true;
                    }
                }
                false
            },
        }
    }

    /// The number of requests in flight on a rank, where the rank is
    /// registered.
    pub fn outstanding(&self, slot: LoadSlot) -> (count: Option<usize>)
        ensures
            count == if self@.has_slot(slot) {
                Some(self@.outstanding(slot))
            } else {
                None
            },
    {
        match slot.mode {
            Mode::Prefill => {
                if slot.worker < self.prefill_servers.len() && slot.rank
                    < self.prefill_servers[slot.worker].outstanding.len() {
                    Some(self.prefill_servers[slot.worker].outstanding[slot.rank])
                } else {
                    None
                }
            },
            Mode::Decode => {
                if slot.worker < self.decode_servers.len() && slot.rank
                    < self.decode_servers[slot.worker].outstanding.len() {
                    Some(self.decode_servers[slot.worker].outstanding[slot.rank])
                } else {
                    None
                }
            },
        }
    }

    /// Whether one more request can be counted on any rank.
    pub fn has_headroom(&self) -> (roomy: bool)
        ensures
            roomy == self@.has_headroom(),
    {
        let ghost view = self@;
        let mut w: usize = 0;
        while w < self.prefill_servers.len()
            invariant
                view == self@,
                w <= self.prefill_servers@.len(),
                forall|w2: int, r2: int|
                    0 <= w2 < w && 0 <= r2 < view.prefill_load[w2].len()
                        ==> #[trigger] view.prefill_load[w2][r2] < usize::MAX,
            decreases self.prefill_servers@.len() - w,
        {
            let mut r: usize = 0;
            while r < self.prefill_servers[w].outstanding.len()
                invariant
                    view == self@,
                    w < self.prefill_servers@.len(),
                    r <= self.prefill_servers@[w as int].outstanding@.len(),
                    forall|r2: int| 0 <= r2 < r ==> #[trigger] view.prefill_load[w as int][r2] < usize::MAX,
                decreases self.prefill_servers@[w as int].outstanding@.len() - r,
            {
                if self.prefill_servers[w].outstanding[r] == usize::MAX {
                    proof {
                        let full = LoadSlot { mode: Mode::Prefill, worker: w, rank: r };
                        assert(view.has_slot(full) && view.outstanding(full) == usize::MAX);
                    }
                    return false;
                }
                r = r + 1;
            }
            w = w + 1;
        }
        let mut v: usize = 0;
        while v < self.decode_servers.len()
            invariant
                view == self@,
                v <= self.decode_servers@.len(),
                forall|w2: int, r2: int|
                    0 <= w2 < view.prefill_load.len() && 0 <= r2 < view.prefill_load[w2].len()
                        ==> #[trigger] view.prefill_load[w2][r2] < usize::MAX,
                forall|v2: int, q2: int|
                    0 <= v2 < v && 0 <= q2 < view.decode_load[v2].len()
                        ==> #[trigger] view.decode_load[v2][q2] < usize::MAX,
            decreases self.decode_servers@.len() - v,
        {
            let mut q: usize = 0;
            while q < self.decode_servers[v].outstanding.len()
                invariant
                    view == self@,
                    v < self.decode_servers@.len(),
                    q <= self.decode_servers@[v as int].outstanding@.len(),
                    forall|q2: int| 0 <= q2 < q ==> #[trigger] view.decode_load[v as int][q2] < usize::MAX,
                decreases self.decode_servers@[v as int].outstanding@.len() - q,
            {
                if self.decode_servers[v].outstanding[q] == usize::MAX {
                    proof {
                        let full = LoadSlot { mode: Mode::Decode, worker: v, rank: q };
                        assert(view.has_slot(full) && view.outstanding(full) == usize::MAX);
                    }
                    return false;
                }
                q = q + 1;
            }
            v = v + 1;
        }
        proof {
            assert forall|slot: LoadSlot| #[trigger] view.has_slot(slot) implies view.outstanding(
                slot,
            ) < usize::MAX by {
                match slot.mode {
                    Mode::Prefill => {
                        assert(view.prefill_load[slot.worker as int][slot.rank as int] < usize::MAX);
                    },
                    Mode::Decode => {
                        assert(view.decode_load[slot.worker as int][slot.rank as int] < usize::MAX);
                    },
                }
            }
        }
        true
    }

    /// The room for the next request, which runs on prefill rank
    /// `prefill_rank`. The counter moves on by the number of ranks of a
    /// prefill worker and wraps round.
    pub fn next_room(&mut self, prefill_rank: usize) -> (room: u32)
        requires
            old(self).wf(),
        ensures
            final(self).wf(),
            room == wrap(old(self)@.room_id + prefill_rank),
            final(self)@ == (ContextView {
                room_id: wrap(old(self)@.room_id + old(self)@.prefill_dp_size),
                ..old(self)@
            }),
    {
        take_room(&mut self.room_id, self.prefill_dp_size, prefill_rank)
    }
}

impl Context {
    /// The prefix router.
    pub fn router(&self) -> (router: &RadixTrieKvRouter)
        ensures
            router@ == self@.router,
            router.max_entries() == self@.router_max_entries,
            self.wf() ==> router.wf(),
    {
        &self.radix_trie_kv_router
    }

    /// The name of the chat-prompt template.
    pub fn prompt_template(&self) -> (name: &String)
        ensures
            name@ == self@.prompt_template,
    {
        &self.prompt_template
    }

    /// The counter from which the next room is taken.
    pub fn room_id(&self) -> (room: u32)
        ensures
            room == self@.room_id,
    {
        self.room_id
    }

    /// The weights of the score.
    pub fn score_weight(&self) -> (weight: ScoreWeight)
        ensures
            weight == self@.score_weight,
    {
        self.score_weight
    }

    /// The number of ranks that a prefill worker is registered with.
    pub fn prefill_dp_size(&self) -> (ranks: usize)
        ensures
            ranks == self@.prefill_dp_size,
    {
        self.prefill_dp_size
    }

    /// The number of ranks that a decode worker is registered with.
    pub fn decode_dp_size(&self) -> (ranks: usize)
        ensures
            ranks == self@.decode_dp_size,
    {
        self.decode_dp_size
    }

    /// The URLs to probe for a health check: the prefill workers, in the
    /// order of registration.
    pub fn health_generate_targets(&self) -> (urls: Vec<String>)
        ensures
            urls@.len() == self@.prefills.len(),
            forall|w: int| 0 <= w < urls@.len() ==> (#[trigger] urls@[w])@ == self@.prefills[w].url,
    {
        self.all_serves().0
    }

    /// The URLs to flush: the prefill workers, then the decode workers, each
    /// in the order of registration.
    pub fn flush_cache_targets(&self) -> (urls: Vec<String>)
        ensures
            urls@.len() == self@.prefills.len() + self@.decodes.len(),
            forall|w: int|
                0 <= w < self@.prefills.len() ==> (#[trigger] urls@[w])@ == self@.prefills[w].url,
            forall|v: int|
                0 <= v < self@.decodes.len() ==> (#[trigger] urls@[self@.prefills.len() + v])@
                    == self@.decodes[v],
    {
        let (mut urls, decodes) = self.all_serves();
        let ghost prefills = urls@;
        let mut v: usize = 0;
        while v < decodes.len()
            invariant
                v <= decodes@.len(),
                urls@.len() == prefills.len() + v,
                forall|w: int| 0 <= w < prefills.len() ==> #[trigger] urls@[w] == prefills[w],
                forall|i: int| 0 <= i < v ==> (#[trigger] urls@[prefills.len() + i])@ == decodes@[i]@,
            decreases decodes@.len() - v,
        {
            urls.push(decodes[v].clone());
            v = v + 1;
        }
        urls
    }

    /// The URL of the prefill worker that was registered first, which
    /// answers for the model's description.
    pub fn first_prefill(&self) -> (url: Option<String>)
        ensures
            match url {
                Some(text) => self@.prefills.len() > 0 && text@ == self@.prefills[0].url,
                None => self@.prefills.len() == 0,
            },
    {
        if self.prefill_servers.len() > 0 {
            Some(self.prefill_servers[0].config.url.clone())
        } else {
            None
        }
    }
}

/// Ties go to the rank that comes first: of two prefill ranks with as many
/// requests in flight and as many tokens cached, the later one is never
/// picked.
pub proof fn equal_candidates_first_wins(
    view: ContextView,
    tokens: Seq<TokenId>,
    w1: int,
    r1: int,
    w2: int,
    r2: int,
)
    requires
        view.is_prefill_slot(w1, r1),
        view.is_prefill_slot(w2, r2),
        comes_before(w1, r1, w2, r2),
        view.prefill_load[w1][r1] == view.prefill_load[w2][r2],
        view.cached(tokens, w1, r1) == view.cached(tokens, w2, r2),
    ensures
        !view.is_best_prefill(tokens, w2, r2),
{
}

/// The prefill rank of a picked pair is below the stride of the room
/// counter, so that its room lies within the request's own stride.
pub proof fn picked_rank_is_below_stride(
    before: ContextView,
    after: ContextView,
    tokens: Seq<TokenId>,
    now: i64,
    pair: ServerPair,
)
    requires
        before.wf(),
        selected(before, after, tokens, now, Ok(pair)),
    ensures
        pair.prefill_rank < before.prefill_dp_size,
        pair.decode_rank < before.decode_dp_size,
        after.prefill_dp_size == before.prefill_dp_size,
        after.room_id == before.room_id,
{
    let prefill = pair.prefill_server_guard;
    let decode = pair.decode_server_guard;
    assert(before.is_prefill_slot(prefill.worker as int, prefill.rank as int));
    assert(before.is_decode_slot(decode.worker as int, decode.rank as int));
}

/// A selection never names the later of two prefill ranks with as many
/// requests in flight and as many tokens cached.
pub proof fn selection_prefers_the_first_of_equals(
    before: ContextView,
    after: ContextView,
    tokens: Seq<TokenId>,
    now: i64,
    pair: ServerPair,
    w1: int,
    r1: int,
    w2: int,
    r2: int,
)
    requires
        selected(before, after, tokens, now, Ok(pair)),
        before.is_prefill_slot(w1, r1),
        before.is_prefill_slot(w2, r2),
        comes_before(w1, r1, w2, r2),
        before.prefill_load[w1][r1] == before.prefill_load[w2][r2],
        before.cached(tokens, w1, r1) == before.cached(tokens, w2, r2),
    ensures
        !(pair.prefill_server_guard.worker == w2 && pair.prefill_rank == r2),
{
    equal_candidates_first_wins(before, tokens, w1, r1, w2, r2);
}

/// A chat request is never given the later of two prefill ranks with as
/// many requests in flight that have as many tokens cached of every prompt.
pub proof fn request_prefers_the_first_of_equals(
    before: ContextView,
    after: ContextView,
    tools: nat,
    pair: ServerPair,
    w1: int,
    r1: int,
    w2: int,
    r2: int,
)
    requires
        answers_request(before, after, tools, Ok(pair)),
        before.is_prefill_slot(w1, r1),
        before.is_prefill_slot(w2, r2),
        comes_before(w1, r1, w2, r2),
        before.prefill_load[w1][r1] == before.prefill_load[w2][r2],
        forall|tokens: Seq<TokenId>|
            #[trigger] before.cached(tokens, w1, r1) == before.cached(tokens, w2, r2),
    ensures
        !(pair.prefill_server_guard.worker == w2 && pair.prefill_rank == r2),
{
    let (tokens, now) = choose|tokens: Seq<TokenId>, now: i64| #[trigger]
        selected(before, after, tokens, now, Ok::<ServerPair, SelectError>(pair));
    assert(before.cached(tokens, w1, r1) == before.cached(tokens, w2, r2));
    selection_prefers_the_first_of_equals(before, after, tokens, now, pair, w1, r1, w2, r2);
}

/// A selection names the first prefill rank with the greatest score: no
/// rank scores higher than the one named, and a rank that no rank scores
/// higher than does not come before it.
pub proof fn selection_takes_the_first_maximum(
    before: ContextView,
    after: ContextView,
    tokens: Seq<TokenId>,
    now: i64,
    pair: ServerPair,
    w: int,
    r: int,
)
    requires
        selected(before, after, tokens, now, Ok(pair)),
        before.is_prefill_slot(w, r),
    ensures
        !before.prefill_beats(
            tokens,
            w,
            r,
            pair.prefill_server_guard.worker as int,
            pair.prefill_rank as int,
        ),
        (forall|w2: int, r2: int|
            #![trigger before.is_prefill_slot(w2, r2)]
            before.is_prefill_slot(w2, r2) ==> !before.prefill_beats(tokens, w2, r2, w, r))
            ==> !comes_before(
            w,
            r,
            pair.prefill_server_guard.worker as int,
            pair.prefill_rank as int,
        ),
{
    let pw = pair.prefill_server_guard.worker as int;
    let pr = pair.prefill_rank as int;
    assert(before.is_best_prefill(tokens, pw, pr));
    assert(before.is_prefill_slot(pw, pr));
    assert(before.is_prefill_slot(w, r));
}

/// At most one prefill rank is the pick for a prompt.
pub proof fn best_prefill_is_unique(
    view: ContextView,
    tokens: Seq<TokenId>,
    w1: int,
    r1: int,
    w2: int,
    r2: int,
)
    requires
        view.is_best_prefill(tokens, w1, r1),
        view.is_best_prefill(tokens, w2, r2),
    ensures
        w1 == w2,
        r1 == r2,
{
    assert(view.is_prefill_slot(w1, r1) && view.is_prefill_slot(w2, r2));
}

/// At most one decode rank is the pick, and of two decode ranks with as many
/// requests in flight the later one is never picked.
pub proof fn best_decode_is_unique(view: ContextView, v1: int, q1: int, v2: int, q2: int)
    requires
        view.is_best_decode(v1, q1),
        view.is_decode_slot(v2, q2),
        v1 != v2 || q1 != q2,
    ensures
        !view.is_best_decode(v2, q2),
        comes_before(v1, q1, v2, q2) || view.decode_load[v2][q2] > view.decode_load[v1][q1],
{
    assert(view.is_decode_slot(v1, q1) && view.is_decode_slot(v2, q2));
}

/// Taking rank `(w, r)` into account keeps the pick in step.
proof fn lemma_considered(
    view: ContextView,
    tokens: Seq<TokenId>,
    hits: Seq<CacheHit>,
    earlier: Option<Choice>,
    best: Option<Choice>,
    w: int,
    r: int,
)
    requires
        view.is_prefill_slot(w, r),
        best_prefill_before(view, tokens, hits, earlier, w, r),
        match earlier {
            None => best matches Some(c) && c.worker == w && c.rank == r,
            Some(e) => if view.prefill_beats(tokens, w, r, e.worker as int, e.rank as int) {
                best matches Some(c) && c.worker == w && c.rank == r
            } else {
                best == earlier
            },
        },
        best matches Some(c) ==> c.worker == w && c.rank == r ==> {
            &&& c.outstanding == view.prefill_load[w][r]
            &&& c.cached == view.cached(tokens, w, r)
            &&& match c.hit {
                Some(i) => i < hits.len() && hits[i as int].dst@ == view.dst_of(w, r),
                None => c.cached == 0,
            }
        },
    ensures
        best_prefill_before(view, tokens, hits, best, w, r + 1),
{
    let c = best->0;
    assert forall|w2: int, r2: int|
        #![trigger view.is_prefill_slot(w2, r2)]
        view.is_prefill_slot(w2, r2) && comes_before(w2, r2, w, r + 1) implies if comes_before(
        w2,
        r2,
        c.worker as int,
        c.rank as int,
    ) {
        view.prefill_beats(tokens, c.worker as int, c.rank as int, w2, r2)
    } else {
        !view.prefill_beats(tokens, w2, r2, c.worker as int, c.rank as int)
    } by {
        if c.worker == w && c.rank == r {
            if w2 == w && r2 == r {
            } else if earlier is None {
                assert(comes_before(w2, r2, w, r));
            } else {
                let e = earlier->0;
                assert(comes_before(w2, r2, w, r));
                assert(view.is_prefill_slot(e.worker as int, e.rank as int));
                crate::score::scores_are_ordered(
                    view.score_weight,
                    view.prefill_load[w][r] as nat,
                    view.cached(tokens, w, r),
                    view.prefill_load[e.worker as int][e.rank as int] as nat,
                    view.cached(tokens, e.worker as int, e.rank as int),
                    view.prefill_load[w2][r2] as nat,
                    view.cached(tokens, w2, r2),
                );
            }
        } else {
        }
    }
}

/// Once the ranks of worker `w` are through, the pick is the pick among the
/// ranks before the next worker.
proof fn lemma_next_worker(
    view: ContextView,
    tokens: Seq<TokenId>,
    hits: Seq<CacheHit>,
    best: Option<Choice>,
    w: int,
)
    requires
        0 <= w < view.prefill_load.len(),
        best_prefill_before(view, tokens, hits, best, w, view.prefill_load[w].len() as int),
    ensures
        best_prefill_before(view, tokens, hits, best, w + 1, 0),
{
    match best {
        None => {
            assert forall|w2: int, r2: int|
                #![trigger view.is_prefill_slot(w2, r2)]
                view.is_prefill_slot(w2, r2) implies !comes_before(w2, r2, w + 1, 0) by {
                assert(!comes_before(w2, r2, w, view.prefill_load[w].len() as int));
            }
        },
        Some(c) => {
            assert forall|w2: int, r2: int|
                #![trigger view.is_prefill_slot(w2, r2)]
                view.is_prefill_slot(w2, r2) && comes_before(w2, r2, w + 1, 0) implies if comes_before(
                w2,
                r2,
                c.worker as int,
                c.rank as int,
            ) {
                view.prefill_beats(tokens, c.worker as int, c.rank as int, w2, r2)
            } else {
                !view.prefill_beats(tokens, w2, r2, c.worker as int, c.rank as int)
            } by {
                assert(comes_before(w2, r2, w, view.prefill_load[w].len() as int));
            }
        },
    }
}

/// The same for the decode ranks.
proof fn lemma_next_decode_worker(view: ContextView, best: Option<(usize, usize)>, v: int)
    requires
        0 <= v < view.decode_load.len(),
        best_decode_before(view, best, v, view.decode_load[v].len() as int),
    ensures
        best_decode_before(view, best, v + 1, 0),
{
    match best {
        None => {
            assert forall|v2: int, q2: int|
                #![trigger view.is_decode_slot(v2, q2)]
                view.is_decode_slot(v2, q2) implies !comes_before(v2, q2, v + 1, 0) by {
                assert(!comes_before(v2, q2, v, view.decode_load[v].len() as int));
            }
        },
        Some(c) => {
            assert forall|v2: int, q2: int|
                #![trigger view.is_decode_slot(v2, q2)]
                view.is_decode_slot(v2, q2) && comes_before(v2, q2, v + 1, 0) implies if comes_before(
                v2,
                q2,
                c.0 as int,
                c.1 as int,
            ) {
                view.decode_load[v2][q2] > view.decode_load[c.0 as int][c.1 as int]
            } else {
                view.decode_load[v2][q2] >= view.decode_load[c.0 as int][c.1 as int]
            } by {
                assert(comes_before(v2, q2, v, view.decode_load[v].len() as int));
            }
        },
    }
}

} // verus!
