//! Slot accounting: the counters of the balancer's state add up to the
//! handles that requests hold.
//!
//! A handle is held from the selection that hands it out until it is given
//! back. The laws here are stated of the handles held, as a multiset: a
//! request may hold several handles on one rank.

use vstd::prelude::*;
use vstd::multiset::Multiset;
use crate::context::{
    answers_request, idle, selected, ContextView, LoadSlot, Mode, SelectError, ServerPair,
};
use crate::TokenId;

verus! {

/// The counters of `view` are the handles of `held`, rank by rank: each
/// registered rank has as many requests in flight as handles on it are held,
/// and no handle is held on anything else.
pub open spec fn accounts(view: ContextView, held: Multiset<LoadSlot>) -> bool {
    forall|slot: LoadSlot|
        #![trigger held.count(slot)]
        held.count(slot) == if view.has_slot(slot) {
            view.outstanding(slot) as nat
        } else {
            0
        }
}

/// The sum of one worker's counters.
pub open spec fn row_sum(row: Seq<usize>) -> nat
    decreases row.len(),
{
    if row.len() == 0 {
        0
    } else {
        row_sum(row.drop_last()) + row.last() as nat
    }
}

/// The sum of the counters of one pool.
pub open spec fn table_sum(table: Seq<Seq<usize>>) -> nat
    decreases table.len(),
{
    if table.len() == 0 {
        0
    } else {
        table_sum(table.drop_last()) + row_sum(table.last())
    }
}

/// The number of requests in flight, summed over every rank of every worker.
pub open spec fn total_outstanding(view: ContextView) -> nat {
    table_sum(view.prefill_load) + table_sum(view.decode_load)
}

/// Slot accounting: the counters sum to the number of handles held.
pub proof fn handles_account_for_load(view: ContextView, held: Multiset<LoadSlot>)
    requires
        view.countable(),
        accounts(view, held),
    ensures
        total_outstanding(view) == held.len(),
    decreases held.len(),
{
    broadcast use vstd::multiset::group_multiset_axioms;

    if held.len() == 0 {
        assert forall|w: int, r: int|
            0 <= w < view.prefill_load.len() && 0 <= r < view.prefill_load[w].len()
                implies #[trigger] view.prefill_load[w][r] == 0 by {
            let slot = LoadSlot { mode: Mode::Prefill, worker: w as usize, rank: r as usize };
            assert(view.has_slot(slot));
            assert(held.count(slot) <= held.len());
        }
        assert forall|w: int, r: int|
            0 <= w < view.decode_load.len() && 0 <= r < view.decode_load[w].len()
                implies #[trigger] view.decode_load[w][r] == 0 by {
            let slot = LoadSlot { mode: Mode::Decode, worker: w as usize, rank: r as usize };
            assert(view.has_slot(slot));
            assert(held.count(slot) <= held.len());
        }
        lemma_idle_table(view.prefill_load);
        lemma_idle_table(view.decode_load);
    } else {
        let slot = held.choose();
        assert(held.count(slot) > 0);
        assert(view.has_slot(slot));
        giving_back_accounts(view, held, slot);
        let fewer = view.released(slot);
        handles_account_for_load(fewer, held.remove(slot));
        lemma_table_update(
            view.load(slot.mode),
            slot.worker as int,
            slot.rank as int,
            (view.outstanding(slot) - 1) as usize,
        );
    }
}

/// A state without requests in flight holds no handles.
pub proof fn idle_state_accounts(view: ContextView)
    requires
        forall|slot: LoadSlot| #[trigger] view.has_slot(slot) ==> view.outstanding(slot) == 0,
    ensures
        accounts(view, Multiset::empty()),
{
    broadcast use vstd::multiset::group_multiset_axioms;

}

/// Handing out a handle on `slot` keeps the accounts.
pub proof fn handing_out_accounts(view: ContextView, held: Multiset<LoadSlot>, slot: LoadSlot)
    requires
        accounts(view, held),
        view.has_slot(slot),
        view.outstanding(slot) < usize::MAX,
    ensures
        accounts(
            view.with_outstanding(slot, (view.outstanding(slot) + 1) as usize),
            held.insert(slot),
        ),
{
    broadcast use vstd::multiset::group_multiset_axioms;

    let after = view.with_outstanding(slot, (view.outstanding(slot) + 1) as usize);
    let more = held.insert(slot);
    assert forall|other: LoadSlot| #![trigger more.count(other)] more.count(other) == if after.has_slot(
        other,
    ) {
        after.outstanding(other) as nat
    } else {
        0
    } by {
        assert(held.count(other) == if view.has_slot(other) {
            view.outstanding(other) as nat
        } else {
            0
        });
        lemma_other_slot(view, slot, (view.outstanding(slot) + 1) as usize, other);
    }
}

/// A handle that is held is a handle on a registered rank with a request in
/// flight, and giving it back keeps the accounts.
pub proof fn giving_back_accounts(view: ContextView, held: Multiset<LoadSlot>, slot: LoadSlot)
    requires
        accounts(view, held),
        held.count(slot) > 0,
    ensures
        view.has_slot(slot),
        view.outstanding(slot) > 0,
        accounts(view.released(slot), held.remove(slot)),
{
    broadcast use vstd::multiset::group_multiset_axioms;

    let after = view.released(slot);
    let fewer = held.remove(slot);
    assert forall|other: LoadSlot| #![trigger fewer.count(other)] fewer.count(other) == if after.has_slot(
        other,
    ) {
        after.outstanding(other) as nat
    } else {
        0
    } by {
        assert(held.count(other) == if view.has_slot(other) {
            view.outstanding(other) as nat
        } else {
            0
        });
        lemma_other_slot(view, slot, (view.outstanding(slot) - 1) as usize, other);
    }
}

/// Registering a worker keeps the accounts: its ranks start idle.
pub proof fn registering_accounts(
    view: ContextView,
    after: ContextView,
    held: Multiset<LoadSlot>,
    mode: Mode,
    ranks: usize,
)
    requires
        accounts(view, held),
        after.load(mode) == view.load(mode).push(idle(ranks)),
        mode == Mode::Prefill ==> after.decode_load == view.decode_load,
        mode == Mode::Decode ==> after.prefill_load == view.prefill_load,
    ensures
        accounts(after, held),
{
    assert forall|slot: LoadSlot| #![trigger held.count(slot)] held.count(slot) == if after.has_slot(
        slot,
    ) {
        after.outstanding(slot) as nat
    } else {
        0
    } by {
        assert(held.count(slot) == if view.has_slot(slot) {
            view.outstanding(slot) as nat
        } else {
            0
        });
    }
}

/// A selection keeps the accounts: the handles of the pair it returns are
/// held from then on, and a selection that fails hands none out.
pub proof fn selection_accounts(
    before: ContextView,
    after: ContextView,
    tokens: Seq<TokenId>,
    now: i64,
    outcome: Result<ServerPair, SelectError>,
    held: Multiset<LoadSlot>,
)
    requires
        accounts(before, held),
        before.has_headroom(),
        selected(before, after, tokens, now, outcome),
    ensures
        match outcome {
            Ok(pair) => accounts(
                after,
                held.insert(pair.prefill_server_guard).insert(pair.decode_server_guard),
            ),
            Err(_) => accounts(after, held),
        },
{
    match outcome {
        Ok(pair) => {
            let prefill = pair.prefill_server_guard;
            let decode = pair.decode_server_guard;
            let routed = ContextView { router: after.router, ..before };
            assert(routed.has_slot(prefill) && before.has_slot(prefill));
            assert(routed.has_slot(decode) && before.has_slot(decode));
            assert(accounts(routed, held)) by {
                assert forall|slot: LoadSlot|
                    #![trigger held.count(slot)]
                    held.count(slot) == if routed.has_slot(slot) {
                        routed.outstanding(slot) as nat
                    } else {
                        0
                    } by {
                    assert(routed.has_slot(slot) == before.has_slot(slot));
                }
            }
            handing_out_accounts(routed, held, prefill);
            let counted = routed.with_outstanding(
                prefill,
                (routed.outstanding(prefill) + 1) as usize,
            );
            lemma_other_slot(routed, prefill, (routed.outstanding(prefill) + 1) as usize, decode);
            handing_out_accounts(counted, held.insert(prefill), decode);
        },
        Err(_) => {
            assert forall|slot: LoadSlot| #![trigger held.count(slot)] held.count(slot) == if after.has_slot(
                slot,
            ) {
                after.outstanding(slot) as nat
            } else {
                0
            } by {
                assert(after.has_slot(slot) == before.has_slot(slot));
            }
        },
    }
}

/// A selection that returns a pair counts exactly its two handles: the two
/// ranks named have one more request in flight each, every other rank has as
/// many as before, and the sum over all ranks is greater by two.
pub proof fn selection_counts_two(
    before: ContextView,
    after: ContextView,
    tokens: Seq<TokenId>,
    now: i64,
    pair: ServerPair,
)
    requires
        before.has_headroom(),
        selected(before, after, tokens, now, Ok(pair)),
    ensures
        after.outstanding(pair.prefill_server_guard) == before.outstanding(
            pair.prefill_server_guard,
        ) + 1,
        after.outstanding(pair.decode_server_guard) == before.outstanding(
            pair.decode_server_guard,
        ) + 1,
        forall|slot: LoadSlot|
            #![trigger after.outstanding(slot)]
            before.has_slot(slot) && slot != pair.prefill_server_guard && slot
                != pair.decode_server_guard ==> after.outstanding(slot) == before.outstanding(slot),
        forall|slot: LoadSlot| #[trigger] after.has_slot(slot) == before.has_slot(slot),
        total_outstanding(after) == total_outstanding(before) + 2,
{
    let prefill = pair.prefill_server_guard;
    let decode = pair.decode_server_guard;
    let routed = ContextView { router: after.router, ..before };
    assert(before.has_slot(prefill) && before.has_slot(decode));
    assert(before.outstanding(prefill) < usize::MAX);
    assert(before.outstanding(decode) < usize::MAX);
    let counted = routed.with_outstanding(prefill, (before.outstanding(prefill) + 1) as usize);
    lemma_other_slot(routed, prefill, (before.outstanding(prefill) + 1) as usize, decode);
    assert(after == counted.with_outstanding(decode, (before.outstanding(decode) + 1) as usize));
    assert forall|slot: LoadSlot|
        #![trigger after.outstanding(slot)]
        before.has_slot(slot) && slot != prefill && slot != decode implies after.outstanding(slot)
        == before.outstanding(slot) by {
        lemma_other_slot(routed, prefill, (before.outstanding(prefill) + 1) as usize, slot);
        lemma_other_slot(counted, decode, (before.outstanding(decode) + 1) as usize, slot);
    }
    assert forall|slot: LoadSlot| #[trigger] after.has_slot(slot) == before.has_slot(slot) by {
        lemma_other_slot(routed, prefill, (before.outstanding(prefill) + 1) as usize, slot);
        lemma_other_slot(counted, decode, (before.outstanding(decode) + 1) as usize, slot);
    }
    lemma_other_slot(counted, decode, (before.outstanding(decode) + 1) as usize, prefill);
    lemma_table_update(
        before.prefill_load,
        prefill.worker as int,
        prefill.rank as int,
        (before.outstanding(prefill) + 1) as usize,
    );
    lemma_table_update(
        before.decode_load,
        decode.worker as int,
        decode.rank as int,
        (before.outstanding(decode) + 1) as usize,
    );
}

/// A chat request that is given a pair counts exactly its two handles, and a
/// chat request that is given none counts nothing.
pub proof fn request_counts_its_handles(
    before: ContextView,
    after: ContextView,
    tools: nat,
    outcome: Result<ServerPair, SelectError>,
)
    requires
        before.has_headroom(),
        answers_request(before, after, tools, outcome),
    ensures
        forall|slot: LoadSlot| #[trigger] after.has_slot(slot) == before.has_slot(slot),
        match outcome {
            Ok(pair) => {
                &&& after.outstanding(pair.prefill_server_guard) == before.outstanding(
                    pair.prefill_server_guard,
                ) + 1
                &&& after.outstanding(pair.decode_server_guard) == before.outstanding(
                    pair.decode_server_guard,
                ) + 1
                &&& forall|slot: LoadSlot|
                    #![trigger after.outstanding(slot)]
                    before.has_slot(slot) && slot != pair.prefill_server_guard && slot
                        != pair.decode_server_guard ==> after.outstanding(slot)
                        == before.outstanding(slot)
                &&& total_outstanding(after) == total_outstanding(before) + 2
            },
            Err(_) => {
                &&& forall|slot: LoadSlot|
                    #![trigger after.outstanding(slot)]
                    before.has_slot(slot) ==> after.outstanding(slot) == before.outstanding(slot)
                &&& total_outstanding(after) == total_outstanding(before)
            },
        },
{
    match outcome {
        Ok(pair) => {
            let (tokens, now) = choose|tokens: Seq<TokenId>, now: i64| #[trigger]
                selected(before, after, tokens, now, outcome);
            selection_counts_two(before, after, tokens, now, pair);
        },
        Err(SelectError::Prompt(_)) => {},
        Err(SelectError::Tokenize(_)) => {},
        Err(_) => {
            let (tokens, now) = choose|tokens: Seq<TokenId>, now: i64| #[trigger]
                selected(before, after, tokens, now, outcome);
            assert(after.prefill_load == before.prefill_load);
            assert(after.decode_load == before.decode_load);
        },
    }
}

/// Setting the counter of one rank leaves the ranks as they are, and every
/// other counter.
proof fn lemma_other_slot(view: ContextView, slot: LoadSlot, count: usize, other: LoadSlot)
    requires
        view.has_slot(slot),
    ensures
        view.with_outstanding(slot, count).has_slot(other) == view.has_slot(other),
        view.with_outstanding(slot, count).outstanding(slot) == count,
        other != slot && view.has_slot(other) ==> view.with_outstanding(slot, count).outstanding(
            other,
        ) == view.outstanding(other),
{
}

/// A pool of idle ranks sums to nothing.
proof fn lemma_idle_table(table: Seq<Seq<usize>>)
    requires
        forall|w: int, r: int|
            0 <= w < table.len() && 0 <= r < table[w].len() ==> #[trigger] table[w][r] == 0,
    ensures
        table_sum(table) == 0,
    decreases table.len(),
{
    if table.len() > 0 {
        lemma_idle_row(table.last());
        lemma_idle_table(table.drop_last());
    }
}

/// A worker whose ranks are idle sums to nothing.
proof fn lemma_idle_row(row: Seq<usize>)
    requires
        forall|r: int| 0 <= r < row.len() ==> #[trigger] row[r] == 0,
    ensures
        row_sum(row) == 0,
    decreases row.len(),
{
    if row.len() > 0 {
        lemma_idle_row(row.drop_last());
    }
}

/// Setting one counter of a worker changes the worker's sum by as much.
proof fn lemma_row_update(row: Seq<usize>, r: int, count: usize)
    requires
        0 <= r < row.len(),
    ensures
        row_sum(row.update(r, count)) == row_sum(row) - row[r] + count,
    decreases row.len(),
{
    let changed = row.update(r, count);
    if r == row.len() - 1 {
        assert(changed.drop_last() =~= row.drop_last());
    } else {
        lemma_row_update(row.drop_last(), r, count);
        assert(changed.drop_last() =~= row.drop_last().update(r, count));
    }
}

/// Setting one counter of a pool changes the pool's sum by as much.
proof fn lemma_table_update(table: Seq<Seq<usize>>, w: int, r: int, count: usize)
    requires
        0 <= w < table.len(),
        0 <= r < table[w].len(),
    ensures
        table_sum(table.update(w, table[w].update(r, count))) == table_sum(table) - table[w][r]
            + count,
    decreases table.len(),
{
    let changed = table.update(w, table[w].update(r, count));
    if w == table.len() - 1 {
        assert(changed.drop_last() =~= table.drop_last());
        lemma_row_update(table[w], r, count);
    } else {
        lemma_table_update(table.drop_last(), w, r, count);
        assert(changed.drop_last() =~= table.drop_last().update(w, table[w].update(r, count)));
    }
}

} // verus!
