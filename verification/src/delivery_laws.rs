//! What one client holds of one account, however its connection and the writes of the
//! account interleave.
use vstd::prelude::*;

use crate::book_laws::{
    depth, distinct_prices, held, last_size, lemma_last_size_add, lemma_replay_held,
    lemma_same_book, prices_together, replay, settled, unambiguous,
};
use crate::feed_laws::{
    lemma_book_levels_distinct, lemma_distinct_unambiguous, lemma_write_at_price, told_of, Write,
};
use crate::message::Content;

verus! {

/// One step of the tasks that bear on what a client holds.
pub enum Step {
    /// A write is taken into the snapshot store.
    Store { write: Write },
    /// The peers are read, and the delta of the write is sent to them.
    Tell,
    /// The client is entered among the peers, where it and its channel stay.
    Register,
    /// The snapshots are copied for the client.
    Copy,
}

/// How far an account has come to a client.
pub struct Delivery {
    /// The snapshot store.
    pub snapshots: Map<Seq<u8>, Content>,
    /// The entries of the account in the delta of a write that is stored and not told yet.
    pub pending: Option<Seq<(i64, i64)>>,
    /// Whether the client is among the peers.
    pub registered: bool,
    /// The levels of the account in the snapshots that were copied for the client.
    pub copied: Option<Seq<(i64, i64)>>,
    /// The entries of the account in the deltas that were sent to the client.
    pub inbox: Seq<(i64, i64)>,
}

impl Delivery {
    /// Nothing is on its way, and the client is not there yet.
    pub open spec fn start(snapshots: Map<Seq<u8>, Content>) -> Delivery {
        Delivery {
            snapshots,
            pending: None,
            registered: false,
            copied: None,
            inbox: Seq::empty(),
        }
    }

    /// The step can come next: a write is told before the next one is stored, a client is
    /// registered before the snapshots are copied for it, and the account is among them.
    pub open spec fn allows(self, account: Seq<u8>, step: Step) -> bool {
        match step {
            Step::Store { .. } => self.pending is None,
            Step::Tell => self.pending is Some,
            Step::Register => !self.registered,
            Step::Copy => self.registered && self.copied is None && self.snapshots.dom().contains(
                account,
            ),
        }
    }

    /// The step, where it is a write of the account, changes its levels unambiguously.
    pub open spec fn is_unambiguous(self, account: Seq<u8>, step: Step) -> bool {
        step matches Step::Store { write } ==> write.account == account
            && self.snapshots.dom().contains(account) ==> unambiguous(
            self.snapshots[account].orders,
            write.content().orders,
        )
    }

    /// The state after the step.
    pub open spec fn after(self, account: Seq<u8>, step: Step) -> Delivery {
        match step {
            Step::Store { write } => Delivery {
                snapshots: self.snapshots.insert(write.account, write.content()),
                pending: Some(told_of(self.snapshots, account, write)),
                ..self
            },
            Step::Tell => Delivery {
                pending: None,
                inbox: if self.registered {
                    self.inbox + self.pending->0
                } else {
                    self.inbox
                },
                ..self
            },
            Step::Register => Delivery { registered: true, ..self },
            Step::Copy => Delivery { copied: Some(self.snapshots[account].orders), ..self },
        }
    }

    /// The book of a client that takes the copied levels and then applies what it was
    /// sent, in order.
    pub open spec fn client_book(self) -> Map<i64, i64> {
        replay(depth(self.copied->0), self.inbox)
    }
}

/// The state after the given steps.
pub open spec fn delivered(
    snapshots: Map<Seq<u8>, Content>,
    account: Seq<u8>,
    steps: Seq<Step>,
) -> Delivery
    decreases steps.len(),
{
    if steps.len() == 0 {
        Delivery::start(snapshots)
    } else {
        delivered(snapshots, account, steps.drop_last()).after(account, steps.last())
    }
}

/// The steps can follow each other.
pub open spec fn is_course(
    snapshots: Map<Seq<u8>, Content>,
    account: Seq<u8>,
    steps: Seq<Step>,
) -> bool
    decreases steps.len(),
{
    steps.len() == 0 || {
        let rest = steps.drop_last();
        &&& is_course(snapshots, account, rest)
        &&& delivered(snapshots, account, rest).allows(account, steps.last())
    }
}

/// Each write of the account changes its levels unambiguously.
pub open spec fn is_unambiguous_course(
    snapshots: Map<Seq<u8>, Content>,
    account: Seq<u8>,
    steps: Seq<Step>,
) -> bool
    decreases steps.len(),
{
    steps.len() == 0 || {
        let rest = steps.drop_last();
        &&& is_unambiguous_course(snapshots, account, rest)
        &&& delivered(snapshots, account, rest).is_unambiguous(account, steps.last())
    }
}

/// What holds at each price, at each time: what the client was sent last for it is what
/// the store has, and where it was sent nothing the copied levels are, but for a change
/// that is stored and not told yet.
spec fn agrees_at(delivery: Delivery, account: Seq<u8>, price: i64) -> bool {
    let stored = delivery.snapshots.dom().contains(account);
    let now = held(depth(delivery.snapshots[account].orders), price);
    let sent = last_size(delivery.inbox, price);
    let due = match delivery.pending {
        Some(entries) => last_size(entries, price),
        None => None,
    };
    &&& !delivery.registered ==> delivery.inbox.len() == 0
    &&& delivery.copied is Some ==> delivery.registered && stored
    &&& due is Some ==> stored && settled(due, None) == now
    &&& sent is Some ==> stored && (settled(sent, None) == now || due is Some)
    &&& delivery.copied is Some && sent is None && due is None ==> held(
        depth(delivery.copied->0),
        price,
    ) == now
}

proof fn lemma_agrees(
    snapshots: Map<Seq<u8>, Content>,
    account: Seq<u8>,
    steps: Seq<Step>,
    price: i64,
)
    requires
        is_course(snapshots, account, steps),
        is_unambiguous_course(snapshots, account, steps),
    ensures
        agrees_at(delivered(snapshots, account, steps), account, price),
    decreases steps.len(),
{
    if steps.len() > 0 {
        let rest = steps.drop_last();
        lemma_agrees(snapshots, account, rest, price);
        let before = delivered(snapshots, account, rest);
        match steps.last() {
            Step::Store { write } => {
                lemma_write_at_price(before.snapshots, account, write, price);
            },
            Step::Tell => {
                lemma_last_size_add(before.inbox, before.pending->0, price);
            },
            Step::Register => {},
            Step::Copy => {},
        }
    }
}

/// However the writes, their delivery and the connection of a client interleave: once
/// the client has its snapshot, and the last write is told, it holds the current book
/// of the account, though it may have been sent changes that its snapshot contains.
pub proof fn law_connected_clients_hold_the_book(
    snapshots: Map<Seq<u8>, Content>,
    account: Seq<u8>,
    steps: Seq<Step>,
)
    requires
        is_course(snapshots, account, steps),
        is_unambiguous_course(snapshots, account, steps),
        delivered(snapshots, account, steps).copied is Some,
        delivered(snapshots, account, steps).pending is None,
    ensures
        ({
            let delivery = delivered(snapshots, account, steps);
            &&& delivery.snapshots.dom().contains(account)
            &&& delivery.client_book() == depth(delivery.snapshots[account].orders)
        }),
{
    let delivery = delivered(snapshots, account, steps);
    let wanted = depth(delivery.snapshots[account].orders);
    lemma_agrees(snapshots, account, steps, 0);
    assert forall|price: i64| held(delivery.client_book(), price) == #[trigger] held(
        wanted,
        price,
    ) by {
        lemma_agrees(snapshots, account, steps, price);
        lemma_replay_held(depth(delivery.copied->0), delivery.inbox, price);
    }
    lemma_same_book(delivery.client_book(), wanted);
}

/// The write, where it is one of the account, leaves a book in which orders at one price
/// stand together.
pub open spec fn keeps_price_order(account: Seq<u8>, step: Step) -> bool {
    step matches Step::Store { write } ==> write.account == account ==> prices_together(
        write.orders,
    )
}

proof fn lemma_price_order_course(
    snapshots: Map<Seq<u8>, Content>,
    account: Seq<u8>,
    steps: Seq<Step>,
)
    requires
        snapshots.dom().contains(account) ==> distinct_prices(snapshots[account].orders),
        forall|i: int| 0 <= i < steps.len() ==> keeps_price_order(account, #[trigger] steps[i]),
    ensures
        is_unambiguous_course(snapshots, account, steps),
        ({
            let stored = delivered(snapshots, account, steps).snapshots;
            stored.dom().contains(account) ==> distinct_prices(stored[account].orders)
        }),
    decreases steps.len(),
{
    if steps.len() > 0 {
        let rest = steps.drop_last();
        assert(forall|i: int| 0 <= i < rest.len() ==> (#[trigger] rest[i]) == steps[i]);
        assert(keeps_price_order(account, steps[steps.len() - 1]));
        lemma_price_order_course(snapshots, account, rest);
        let stored = delivered(snapshots, account, rest).snapshots;
        if let Step::Store { write } = steps.last() {
            if write.account == account {
                lemma_book_levels_distinct(write.orders);
                if stored.dom().contains(account) {
                    lemma_distinct_unambiguous(stored[account].orders, write.content().orders);
                }
            }
        }
    }
}

/// Connected clients hold the book of every account that is always kept by price.
pub proof fn law_connected_clients_hold_price_ordered_books(
    snapshots: Map<Seq<u8>, Content>,
    account: Seq<u8>,
    steps: Seq<Step>,
)
    requires
        is_course(snapshots, account, steps),
        snapshots.dom().contains(account) ==> distinct_prices(snapshots[account].orders),
        forall|i: int| 0 <= i < steps.len() ==> keeps_price_order(account, #[trigger] steps[i]),
        delivered(snapshots, account, steps).copied is Some,
        delivered(snapshots, account, steps).pending is None,
    ensures
        ({
            let delivery = delivered(snapshots, account, steps);
            delivery.client_book() == depth(delivery.snapshots[account].orders)
        }),
{
    lemma_price_order_course(snapshots, account, steps);
    law_connected_clients_hold_the_book(snapshots, account, steps);
}

} // verus!
