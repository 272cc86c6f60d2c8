//! Which sink handles the writes of which accounts.
use vstd::prelude::*;

use crate::crank::MangoV4PerpCrankSink;
use crate::pubkey::Pubkey;
use crate::table::{lemma_keys_of_pairs, pairs_map};

verus! {

/// The timeout interval of the Openbook route, in milliseconds.
pub const TIMEOUT_INTERVAL_MS: u64 = 400;

/// What a route does with a write.
pub enum CrankSink {
    Openbook { pks: Vec<(Pubkey, Pubkey)> },
    MangoV3Perp { pks: Vec<(Pubkey, Pubkey)>, group_pks: (Pubkey, Pubkey, Pubkey) },
    MangoV4Perp { sink: MangoV4PerpCrankSink },
}

/// The accounts whose writes a sink handles.
pub struct AccountWriteRoute {
    pub matched_pubkeys: Vec<Pubkey>,
    pub sink: CrankSink,
    pub timeout_interval_ms: u64,
}

/// The event queues of (market, event queue) pairs.
pub open spec fn event_queues(pks: Seq<(Pubkey, Pubkey)>) -> Seq<Pubkey> {
    pks.map_values(|pair: (Pubkey, Pubkey)| pair.1)
}

/// The event queue of each pair.
fn matched(pks: &Vec<(Pubkey, Pubkey)>) -> (r: Vec<Pubkey>)
    ensures
        r@ == event_queues(pks@),
{
    let mut keys: Vec<Pubkey> = Vec::new();
    let mut i: usize = 0;
    while i < pks.len()
        invariant
            i <= pks.len(),
            keys@ == event_queues(pks@.take(i as int)),
        decreases pks.len() - i,
    {
        keys.push(pks[i].1);
        assert(keys@ =~= event_queues(pks@.take(i as int + 1)));
        i += 1;
    }
    assert(pks@.take(pks@.len() as int) =~= pks@);
    keys
}

/// The routes of the crank service, each for the event queues of its markets. Only the
/// Openbook route has a timeout interval.
pub fn init(
    v4_perp_market_pks: Vec<(Pubkey, Pubkey)>,
    v3_perp_market_pks: Vec<(Pubkey, Pubkey)>,
    openbook_pks: Vec<(Pubkey, Pubkey)>,
    v4_group_pk: Pubkey,
    v3_group_pks: (Pubkey, Pubkey, Pubkey),
) -> (r: Vec<AccountWriteRoute>)
    ensures
        r@.len() == 3,
        r@[0].matched_pubkeys@ == event_queues(openbook_pks@),
        r@[0].sink == (CrankSink::Openbook { pks: openbook_pks }),
        r@[0].timeout_interval_ms == TIMEOUT_INTERVAL_MS,
        r@[1].matched_pubkeys@ == event_queues(v3_perp_market_pks@),
        r@[1].sink == (CrankSink::MangoV3Perp {
            pks: v3_perp_market_pks,
            group_pks: v3_group_pks,
        }),
        r@[1].timeout_interval_ms == 0,
        r@[2].matched_pubkeys@ == event_queues(v4_perp_market_pks@),
        r@[2].sink matches CrankSink::MangoV4Perp { sink } && sink.wf() && sink.markets()
            == pairs_map(v4_perp_market_pks@) && sink.group() == v4_group_pk,
        r@[2].timeout_interval_ms == 0,
        r@[0].timeout_interval_ms == 400,
        r@[0].matched_pubkeys@.len() == openbook_pks@.len(),
        forall|i: int|
            0 <= i < openbook_pks@.len() ==> r@[0].matched_pubkeys@[i] == (
            #[trigger] openbook_pks@[i]).1,
        r@[1].matched_pubkeys@.len() == v3_perp_market_pks@.len(),
        forall|i: int|
            0 <= i < v3_perp_market_pks@.len() ==> r@[1].matched_pubkeys@[i] == (
            #[trigger] v3_perp_market_pks@[i]).1,
        r@[2].matched_pubkeys@.len() == v4_perp_market_pks@.len(),
        forall|i: int|
            0 <= i < v4_perp_market_pks@.len() ==> r@[2].matched_pubkeys@[i] == (
            #[trigger] v4_perp_market_pks@[i]).1,
{
    let mut routes: Vec<AccountWriteRoute> = Vec::new();
    routes.push(
        AccountWriteRoute {
            matched_pubkeys: matched(&openbook_pks),
            sink: CrankSink::Openbook { pks: openbook_pks },
            timeout_interval_ms: TIMEOUT_INTERVAL_MS,
        },
    );
    routes.push(
        AccountWriteRoute {
            matched_pubkeys: matched(&v3_perp_market_pks),
            sink: CrankSink::MangoV3Perp { pks: v3_perp_market_pks, group_pks: v3_group_pks },
            timeout_interval_ms: 0,
        },
    );
    routes.push(
        AccountWriteRoute {
            matched_pubkeys: matched(&v4_perp_market_pks),
            sink: CrankSink::MangoV4Perp {
                sink: MangoV4PerpCrankSink::new(v4_perp_market_pks, v4_group_pk),
            },
            timeout_interval_ms: 0,
        },
    );
    routes
}

/// Every pair's event queue is routed, at the place of its pair.
pub proof fn law_every_event_queue_is_routed(pks: Seq<(Pubkey, Pubkey)>)
    ensures
        event_queues(pks).len() == pks.len(),
        forall|i: int| 0 <= i < pks.len() ==> event_queues(pks)[i] == (#[trigger] pks[i]).1,
{
}

/// The key stands first in some pair.
pub open spec fn stands_first(pks: Seq<(Pubkey, Pubkey)>, key: Pubkey) -> bool {
    exists|j: int| 0 <= j < pks.len() && (#[trigger] pks[j]).0@ == key@
}

/// The sink of the v4 perp markets knows a market for every event queue that is routed
/// to it, exactly where each event queue also stands first in some pair.
pub proof fn law_routed_queues_are_known(pks: Seq<(Pubkey, Pubkey)>)
    ensures
        (forall|i: int|
            0 <= i < pks.len() ==> pairs_map(pks).dom().contains(
                (#[trigger] event_queues(pks)[i])@,
            )) <==> (forall|i: int| 0 <= i < pks.len() ==> stands_first(pks, #[trigger] pks[i].1)),
{
    assert forall|i: int| 0 <= i < pks.len() implies (stands_first(pks, #[trigger] pks[i].1)
        <==> pairs_map(pks).dom().contains(event_queues(pks)[i]@)) by {
        lemma_keys_of_pairs(pks, pks[i].1@);
    }
    if forall|i: int|
        0 <= i < pks.len() ==> pairs_map(pks).dom().contains((#[trigger] event_queues(pks)[i])@) {
        assert forall|i: int| 0 <= i < pks.len() implies stands_first(
            pks,
            #[trigger] pks[i].1,
        ) by {
            assert(pairs_map(pks).dom().contains(event_queues(pks)[i]@));
        }
    }
    if forall|i: int| 0 <= i < pks.len() ==> stands_first(pks, #[trigger] pks[i].1) {
        assert forall|i: int| 0 <= i < pks.len() implies pairs_map(pks).dom().contains(
            (#[trigger] event_queues(pks)[i])@,
        ) by {
            assert(stands_first(pks, pks[i].1));
        }
    }
}

} // verus!
