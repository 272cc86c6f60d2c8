//! What the clients can rely on: who applies the deltas holds the current book, and
//! no write is missed by a client that connects while it is taken in.
use vstd::prelude::*;

use crate::book::{book_levels, l2_delta, levels};
use crate::book_laws::{
    depth, distinct_prices, held, last_size, law_delta_replays, law_delta_replays_distinct,
    law_levels_have_distinct_prices, lemma_replay_held, lemma_same_book, lemma_same_prices,
    prices_together, replay, settled, unambiguous,
};
use crate::market::SideName;
use crate::message::Content;
use crate::peers::PeerAddr;
use crate::snapshots::{delta_content, new_content};

verus! {

/// One write of an account that is followed.
pub struct Write {
    pub account: Seq<u8>,
    pub side: SideName,
    pub orders: Seq<(i64, i64)>,
    pub slot: u64,
    pub write_version: u64,
}

impl Write {
    /// What the store holds for the account after the write.
    pub open spec fn content(self) -> Content {
        new_content(self.side, self.orders, self.slot, self.write_version)
    }
}

/// The store after the given writes.
pub open spec fn stored_after(
    snapshots: Map<Seq<u8>, Content>,
    writes: Seq<Write>,
) -> Map<Seq<u8>, Content>
    decreases writes.len(),
{
    if writes.len() == 0 {
        snapshots
    } else {
        stored_after(snapshots, writes.drop_last()).insert(
            writes.last().account,
            writes.last().content(),
        )
    }
}

/// The book of a client that applies each delta of one account.
pub open spec fn client_after(
    book: Map<i64, i64>,
    snapshots: Map<Seq<u8>, Content>,
    account: Seq<u8>,
    writes: Seq<Write>,
) -> Map<i64, i64>
    decreases writes.len(),
{
    if writes.len() == 0 {
        book
    } else {
        let before = client_after(book, snapshots, account, writes.drop_last());
        let write = writes.last();
        if write.account == account {
            replay(
                before,
                delta_content(
                    stored_after(snapshots, writes.drop_last()),
                    account,
                    write.content(),
                ).orders,
            )
        } else {
            before
        }
    }
}

/// Each write of the account changes its levels unambiguously.
pub open spec fn always_unambiguous(
    snapshots: Map<Seq<u8>, Content>,
    account: Seq<u8>,
    writes: Seq<Write>,
) -> bool
    decreases writes.len(),
{
    writes.len() == 0 || {
        let before = stored_after(snapshots, writes.drop_last());
        &&& always_unambiguous(snapshots, account, writes.drop_last())
        &&& writes.last().account == account && before.dom().contains(account) ==> unambiguous(
            before[account].orders,
            writes.last().content().orders,
        )
    }
}

/// A client that starts with the snapshot of an account and applies every delta holds
/// the book of the account's last write, after any number of writes of any accounts.
pub proof fn law_client_follows(
    snapshots: Map<Seq<u8>, Content>,
    account: Seq<u8>,
    writes: Seq<Write>,
)
    requires
        snapshots.dom().contains(account),
        always_unambiguous(snapshots, account, writes),
    ensures
        stored_after(snapshots, writes).dom().contains(account),
        client_after(depth(snapshots[account].orders), snapshots, account, writes) == depth(
            stored_after(snapshots, writes)[account].orders,
        ),
    decreases writes.len(),
{
    if writes.len() > 0 {
        let rest = writes.drop_last();
        law_client_follows(snapshots, account, rest);
        if writes.last().account == account {
            law_delta_replays(
                stored_after(snapshots, rest)[account].orders,
                writes.last().content().orders,
            );
        }
    }
}

/// An account that is stored stays stored.
pub proof fn law_accounts_stay_stored(
    snapshots: Map<Seq<u8>, Content>,
    account: Seq<u8>,
    writes: Seq<Write>,
)
    requires
        snapshots.dom().contains(account),
    ensures
        stored_after(snapshots, writes).dom().contains(account),
    decreases writes.len(),
{
    if writes.len() > 0 {
        law_accounts_stay_stored(snapshots, account, writes.drop_last());
    }
}

/// The first write of an account is told to nobody: its delta is empty, and a client
/// that was connected before, and had no snapshot of the account, holds its book only
/// where that book is empty.
pub proof fn law_first_write_is_not_told(snapshots: Map<Seq<u8>, Content>, write: Write)
    requires
        !snapshots.dom().contains(write.account),
    ensures
        delta_content(snapshots, write.account, write.content()).orders.len() == 0,
        client_after(Map::empty(), snapshots, write.account, seq![write]) == depth(
            write.content().orders,
        ) <==> depth(write.content().orders) == Map::<i64, i64>::empty(),
{
    let rest = seq![write].drop_last();
    assert(rest.len() == 0);
    assert(seq![write].last() == write);
    let told = delta_content(stored_after(snapshots, rest), write.account, write.content()).orders;
    assert(told.len() == 0);
    assert(client_after(Map::empty(), snapshots, write.account, rest) == Map::<i64, i64>::empty());
    assert(client_after(Map::empty(), snapshots, write.account, seq![write]) == replay(
        Map::empty(),
        told,
    ));
}

/// The levels of a book in which orders at one price stand together have each price
/// once.
pub proof fn lemma_book_levels_distinct(orders: Seq<(i64, i64)>)
    requires
        prices_together(orders),
    ensures
        distinct_prices(book_levels(orders)),
{
    law_levels_have_distinct_prices(orders);
    lemma_same_prices(levels(orders), book_levels(orders));
}

/// All writes of the account leave a book in which orders at one price stand together.
pub open spec fn kept_by_price(account: Seq<u8>, writes: Seq<Write>) -> bool {
    forall|i: int|
        0 <= i < writes.len() && (#[trigger] writes[i]).account == account ==> prices_together(
            writes[i].orders,
        )
}

/// Books that are always kept by price change unambiguously.
proof fn lemma_kept_by_price(
    snapshots: Map<Seq<u8>, Content>,
    account: Seq<u8>,
    writes: Seq<Write>,
)
    requires
        snapshots.dom().contains(account) ==> distinct_prices(snapshots[account].orders),
        kept_by_price(account, writes),
    ensures
        always_unambiguous(snapshots, account, writes),
        stored_after(snapshots, writes).dom().contains(account) ==> distinct_prices(
            stored_after(snapshots, writes)[account].orders,
        ),
    decreases writes.len(),
{
    if writes.len() > 0 {
        let rest = writes.drop_last();
        let write = writes.last();
        assert(forall|i: int| 0 <= i < rest.len() ==> (#[trigger] rest[i]) == writes[i]);
        assert(write == writes[writes.len() - 1]);
        lemma_kept_by_price(snapshots, account, rest);
        let before = stored_after(snapshots, rest);
        if write.account == account {
            lemma_book_levels_distinct(write.orders);
            if before.dom().contains(account) {
                lemma_distinct_unambiguous(before[account].orders, write.content().orders);
            }
        }
    }
}

/// From distinct prices to distinct prices, levels change unambiguously.
pub proof fn lemma_distinct_unambiguous(previous: Seq<(i64, i64)>, current: Seq<(i64, i64)>)
    requires
        distinct_prices(previous),
        distinct_prices(current),
    ensures
        unambiguous(previous, current),
{
    law_delta_replays_distinct(previous, current);
    law_delta_replays(previous, current);
}

/// A client follows every account whose book is always kept by price.
pub proof fn law_client_follows_price_order(
    snapshots: Map<Seq<u8>, Content>,
    account: Seq<u8>,
    writes: Seq<Write>,
)
    requires
        snapshots.dom().contains(account),
        distinct_prices(snapshots[account].orders),
        kept_by_price(account, writes),
    ensures
        client_after(depth(snapshots[account].orders), snapshots, account, writes) == depth(
            stored_after(snapshots, writes)[account].orders,
        ),
        distinct_prices(stored_after(snapshots, writes)[account].orders),
{
    lemma_kept_by_price(snapshots, account, writes);
    law_client_follows(snapshots, account, writes);
}

/// The entries of the delta that a write brings for an account; none for a write of
/// another account.
pub open spec fn told_of(
    snapshots: Map<Seq<u8>, Content>,
    account: Seq<u8>,
    write: Write,
) -> Seq<(i64, i64)> {
    if write.account == account {
        delta_content(snapshots, account, write.content()).orders
    } else {
        Seq::empty()
    }
}

/// What one write does to a price: where its delta names the price, the delta's last
/// entry there is what the new book holds; elsewhere the price stays as it was.
pub proof fn lemma_write_at_price(
    snapshots: Map<Seq<u8>, Content>,
    account: Seq<u8>,
    write: Write,
    price: i64,
)
    requires
        write.account == account && snapshots.dom().contains(account) ==> unambiguous(
            snapshots[account].orders,
            write.content().orders,
        ),
    ensures
        ({
            let after = snapshots.insert(write.account, write.content());
            let last = last_size(told_of(snapshots, account, write), price);
            &&& last is Some ==> snapshots.dom().contains(account) && settled(last, None) == held(
                depth(after[account].orders),
                price,
            )
            &&& last is None && snapshots.dom().contains(account) ==> held(
                depth(after[account].orders),
                price,
            ) == held(depth(snapshots[account].orders), price)
        }),
{
    if write.account == account && snapshots.dom().contains(account) {
        let before = snapshots[account].orders;
        let after = write.content().orders;
        law_delta_replays(before, after);
        lemma_replay_held(depth(before), l2_delta(before, after), price);
    }
}

/// One of the deltas of the given writes names the price.
spec fn is_named(
    snapshots: Map<Seq<u8>, Content>,
    account: Seq<u8>,
    writes: Seq<Write>,
    price: i64,
) -> bool
    decreases writes.len(),
{
    writes.len() > 0 && {
        let rest = writes.drop_last();
        ||| is_named(snapshots, account, rest, price)
        ||| last_size(
            told_of(stored_after(snapshots, rest), account, writes.last()),
            price,
        ) is Some
    }
}

/// Whatever book a client starts with: a price that some delta names ends as in the
/// last book, and a price that none names stays as it was, for the client and, from
/// the time that the account is stored, in the book.
proof fn lemma_client_at_price(
    book: Map<i64, i64>,
    snapshots: Map<Seq<u8>, Content>,
    account: Seq<u8>,
    writes: Seq<Write>,
    k: int,
    price: i64,
)
    requires
        0 <= k <= writes.len(),
        stored_after(snapshots, writes.take(k)).dom().contains(account),
        always_unambiguous(snapshots, account, writes),
    ensures
        stored_after(snapshots, writes).dom().contains(account),
        held(client_after(book, snapshots, account, writes), price) == (if is_named(
            snapshots,
            account,
            writes,
            price,
        ) {
            held(depth(stored_after(snapshots, writes)[account].orders), price)
        } else {
            held(book, price)
        }),
        !is_named(snapshots, account, writes, price) ==> held(
            depth(stored_after(snapshots, writes)[account].orders),
            price,
        ) == held(depth(stored_after(snapshots, writes.take(k))[account].orders), price),
    decreases writes.len() - k,
{
    if k == writes.len() {
        assert(writes.take(k) =~= writes);
        lemma_client_so_far(book, snapshots, account, writes, price);
    } else {
        let rest = writes.drop_last();
        assert(rest.take(k) =~= writes.take(k));
        lemma_client_at_price(book, snapshots, account, rest, k, price);
        lemma_client_so_far(book, snapshots, account, writes, price);
        lemma_write_at_price(stored_after(snapshots, rest), account, writes.last(), price);
    }
}

/// The part on the client alone, also before the account is stored.
proof fn lemma_client_so_far(
    book: Map<i64, i64>,
    snapshots: Map<Seq<u8>, Content>,
    account: Seq<u8>,
    writes: Seq<Write>,
    price: i64,
)
    requires
        always_unambiguous(snapshots, account, writes),
    ensures
        is_named(snapshots, account, writes, price) ==> stored_after(
            snapshots,
            writes,
        ).dom().contains(account),
        held(client_after(book, snapshots, account, writes), price) == (if is_named(
            snapshots,
            account,
            writes,
            price,
        ) {
            held(depth(stored_after(snapshots, writes)[account].orders), price)
        } else {
            held(book, price)
        }),
    decreases writes.len(),
{
    if writes.len() > 0 {
        let rest = writes.drop_last();
        let write = writes.last();
        let stored = stored_after(snapshots, rest);
        lemma_client_so_far(book, snapshots, account, rest, price);
        lemma_write_at_price(stored, account, write, price);
        lemma_replay_held(
            client_after(book, snapshots, account, rest),
            told_of(stored, account, write),
            price,
        );
    }
}

/// A client may be sent deltas that its snapshot already contains: it is registered
/// before the snapshots are copied. It catches up all the same: whichever of the
/// writes its snapshot is as of, once it has applied the deltas of all writes, it holds
/// the book of the last one.
pub proof fn law_client_catches_up(
    snapshots: Map<Seq<u8>, Content>,
    account: Seq<u8>,
    writes: Seq<Write>,
    k: int,
)
    requires
        0 <= k <= writes.len(),
        stored_after(snapshots, writes.take(k)).dom().contains(account),
        always_unambiguous(snapshots, account, writes),
    ensures
        client_after(
            depth(stored_after(snapshots, writes.take(k))[account].orders),
            snapshots,
            account,
            writes,
        ) == depth(stored_after(snapshots, writes)[account].orders),
{
    let start = depth(stored_after(snapshots, writes.take(k))[account].orders);
    let client = client_after(start, snapshots, account, writes);
    let wanted = depth(stored_after(snapshots, writes)[account].orders);
    assert forall|price: i64| held(client, price) == #[trigger] held(wanted, price) by {
        lemma_client_at_price(start, snapshots, account, writes, k, price);
    }
    lemma_same_book(client, wanted);
}

/// A client catches up with every account whose book is always kept by price.
pub proof fn law_client_catches_up_price_order(
    snapshots: Map<Seq<u8>, Content>,
    account: Seq<u8>,
    writes: Seq<Write>,
    k: int,
)
    requires
        0 <= k <= writes.len(),
        stored_after(snapshots, writes.take(k)).dom().contains(account),
        snapshots.dom().contains(account) ==> distinct_prices(snapshots[account].orders),
        kept_by_price(account, writes),
    ensures
        client_after(
            depth(stored_after(snapshots, writes.take(k))[account].orders),
            snapshots,
            account,
            writes,
        ) == depth(stored_after(snapshots, writes)[account].orders),
{
    lemma_kept_by_price(snapshots, account, writes);
    law_client_catches_up(snapshots, account, writes, k);
}

/// The snapshots and the clients, each with its channel, that the tasks share.
pub struct Hub<C> {
    pub snapshots: Map<Seq<u8>, Content>,
    pub peers: Map<PeerAddr, C>,
}

/// One change of what the tasks share: a write that the snapshot store takes in, or a
/// client that is entered among the peers or taken out of them.
pub enum Change<C> {
    Store { account: Seq<u8>, content: Content },
    Register { addr: PeerAddr, channel: C },
    Deregister { addr: PeerAddr },
}

impl<C> Change<C> {
    /// The change enters a client under the address, or takes out the one there.
    pub open spec fn is_at(self, addr: PeerAddr) -> bool {
        match self {
            Change::Store { .. } => false,
            Change::Register { addr: other, .. } => other == addr,
            Change::Deregister { addr: other } => other == addr,
        }
    }
}

/// What the tasks share after the given changes.
pub open spec fn hub_after<C>(start: Hub<C>, changes: Seq<Change<C>>) -> Hub<C>
    decreases changes.len(),
{
    if changes.len() == 0 {
        start
    } else {
        let before = hub_after(start, changes.drop_last());
        match changes.last() {
            Change::Store { account, content } => Hub {
                snapshots: before.snapshots.insert(account, content),
                ..before
            },
            Change::Register { addr, channel } => Hub {
                peers: before.peers.insert(addr, channel),
                ..before
            },
            Change::Deregister { addr } => Hub { peers: before.peers.remove(addr), ..before },
        }
    }
}

proof fn lemma_stays_registered<C>(
    start: Hub<C>,
    changes: Seq<Change<C>>,
    addr: PeerAddr,
    channel: C,
    registered: int,
    now: int,
)
    requires
        0 <= registered < now <= changes.len(),
        changes[registered] == (Change::Register { addr, channel }),
        forall|i: int| registered < i < now ==> !(#[trigger] changes[i]).is_at(addr),
    ensures
        ({
            let peers = hub_after(start, changes.take(now)).peers;
            peers.dom().contains(addr) && peers[addr] == channel
        }),
    decreases now,
{
    assert(changes.take(now).drop_last() =~= changes.take(now - 1));
    assert(changes.take(now).last() == changes[now - 1]);
    if registered < now - 1 {
        lemma_stays_registered(start, changes, addr, channel, registered, now - 1);
    }
}

proof fn lemma_stored_since<C>(
    start: Hub<C>,
    changes: Seq<Change<C>>,
    account: Seq<u8>,
    content: Content,
    stored: int,
    now: int,
)
    requires
        0 <= stored < now <= changes.len(),
        changes[stored] == (Change::<C>::Store { account, content }),
    ensures
        ({
            let snapshots = hub_after(start, changes.take(now)).snapshots;
            &&& snapshots.dom().contains(account)
            &&& exists|i: int|
                stored <= i < now && (#[trigger] changes[i]) == (Change::<C>::Store {
                    account,
                    content: snapshots[account],
                })
        }),
    decreases now,
{
    assert(changes.take(now).drop_last() =~= changes.take(now - 1));
    let last = changes[now - 1];
    assert(changes.take(now).last() == last);
    let snapshots = hub_after(start, changes.take(now)).snapshots;
    if last matches Change::Store { account: other, .. } && other == account {
        assert(changes[now - 1] == (Change::<C>::Store { account, content: snapshots[account] }));
    } else {
        lemma_stored_since(start, changes, account, content, stored, now - 1);
        let i = choose|i: int|
            stored <= i < now - 1 && (#[trigger] changes[i]) == (Change::<C>::Store {
                account,
                content: hub_after(start, changes.take(now - 1)).snapshots[account],
            });
        assert(changes[i] == (Change::<C>::Store { account, content: snapshots[account] }));
    }
}

/// No write is missed by a client that connects meanwhile. A write is stored before
/// the peers are read, and a client is registered before the snapshots are copied;
/// so, however the two interleave with each other and with everything else, the
/// client's channel is among those that the write is sent to, or the snapshot that it
/// gets is the one of that write or of a later one; unless, before the peers are read,
/// the client was taken out or another one was entered under its address.
pub proof fn law_no_write_is_missed<C>(
    start: Hub<C>,
    changes: Seq<Change<C>>,
    account: Seq<u8>,
    content: Content,
    addr: PeerAddr,
    channel: C,
    stored: int,
    peers_read: int,
    registered: int,
    snapshots_copied: int,
)
    requires
        0 <= stored < peers_read <= changes.len(),
        0 <= registered < snapshots_copied <= changes.len(),
        changes[stored] == (Change::<C>::Store { account, content }),
        changes[registered] == (Change::Register { addr, channel }),
        forall|i: int| registered < i < peers_read ==> !(#[trigger] changes[i]).is_at(addr),
    ensures
        ({
            let peers = hub_after(start, changes.take(peers_read)).peers;
            peers.dom().contains(addr) && peers[addr] == channel
        }) || ({
            let copied = hub_after(start, changes.take(snapshots_copied)).snapshots;
            &&& copied.dom().contains(account)
            &&& exists|i: int|
                stored <= i < snapshots_copied && (#[trigger] changes[i]) == (Change::<C>::Store {
                    account,
                    content: copied[account],
                })
        }),
{
    if registered < peers_read {
        lemma_stays_registered(start, changes, addr, channel, registered, peers_read);
    } else {
        lemma_stored_since(start, changes, account, content, stored, snapshots_copied);
    }
}

} // verus!
