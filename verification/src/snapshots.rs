//! The last snapshot of every account that is followed, and what one more write of an
//! account does to it.
use vstd::prelude::*;

use crate::book::{book_levels, l2_delta, l2_diff, l2_snapshot, levels, sizes_fit};
use crate::book_laws::{
    law_book_levels_are_the_levels, law_every_order_has_a_level, law_levels_keep_quantity,
    total_quantity, total_size,
};
use crate::market::{Meta, OrderBookSides, SideName};
use crate::message::{message_text, snapshot_kind, Content, Delta, Snapshot};
use crate::pubkey::{decoded_pubkey, encoded_pubkey, Pubkey};
use crate::table::Table;

verus! {

/// The last snapshot of each account, under the text of its key.
pub struct SnapshotStore {
    table: Table<String, Snapshot>,
}

/// The text is the one under which the snapshot of some account is kept.
spec fn is_account_text(text: Seq<char>) -> bool {
    decoded_pubkey(text) is Some && encoded_pubkey(decoded_pubkey(text)->0) == text
}

/// The account has a text from which it can be read back.
spec fn has_text(account: Seq<u8>) -> bool {
    decoded_pubkey(encoded_pubkey(account)) == Some(account)
}

impl View for SnapshotStore {
    type V = Map<Seq<u8>, Content>;

    closed spec fn view(&self) -> Map<Seq<u8>, Content> {
        Map::new(
            |account: Seq<u8>|
                has_text(account) && self.table@.dom().contains(encoded_pubkey(account)),
            |account: Seq<u8>| self.table@[encoded_pubkey(account)]@,
        )
    }
}

/// What the store holds for an account after a write that leaves the given orders in
/// its book.
pub open spec fn new_content(
    side: SideName,
    orders: Seq<(i64, i64)>,
    slot: u64,
    write_version: u64,
) -> Content {
    Content {
        market: side.market,
        side: side.side,
        orders: book_levels(orders),
        slot,
        write_version,
    }
}

/// What the clients are told of a change of an account from what the store held for
/// it, if anything, to `after`: the changed levels, and none for an account that was
/// not there before.
pub open spec fn delta_content(
    snapshots: Map<Seq<u8>, Content>,
    account: Seq<u8>,
    after: Content,
) -> Content {
    Content {
        orders: if snapshots.dom().contains(account) {
            l2_delta(snapshots[account].orders, after.orders)
        } else {
            Seq::empty()
        },
        ..after
    }
}

impl SnapshotStore {
    /// Each account has one snapshot, under a text from which its key can be read.
    pub closed spec fn wf(&self) -> bool {
        &&& self.table.wf()
        &&& forall|text: Seq<char>| #[trigger]
            self.table@.dom().contains(text) ==> is_account_text(text)
    }

    /// The accounts in the order in which their snapshots are handed out.
    pub closed spec fn walk(&self) -> Seq<Seq<u8>> {
        self.table.entries().map_values(
            |entry: (String, Snapshot)| decoded_pubkey(entry.0@)->0,
        )
    }

    /// A store without snapshots.
    pub fn new() -> (r: Self)
        ensures
            r.wf(),
            r@ == Map::<Seq<u8>, Content>::empty(),
    {
        let r = SnapshotStore { table: Table::new() };
        proof {
            assert(r@ =~= Map::<Seq<u8>, Content>::empty());
        }
        r
    }

    /// The last snapshot of an account, if there is one.
    pub fn get(&self, pk: &Pubkey) -> (r: Option<&Snapshot>)
        requires
            self.wf(),
        ensures
            match r {
                Some(snapshot) => self@.dom().contains(pk@) && snapshot@ == self@[pk@],
                None => !self@.dom().contains(pk@),
            },
    {
        let text = pk.to_text();
        self.table.get(&text)
    }

    /// Keeps the snapshot of an account, in place of the one before.
    pub fn insert(&mut self, pk: &Pubkey, snapshot: Snapshot)
        requires
            old(self).wf(),
        ensures
            final(self).wf(),
            final(self)@ == old(self)@.insert(pk@, snapshot@),
    {
        let ghost before = self@;
        let text = pk.to_text();
        self.table.insert(text, snapshot);
        proof {
            assert(self@ =~= before.insert(pk@, snapshot@));
        }
    }

    /// The texts of all snapshots, each account's once.
    pub fn messages(&self) -> (r: Vec<String>)
        requires
            self.wf(),
        ensures
            self.walk().no_duplicates(),
            forall|account: Seq<u8>|
                self.walk().contains(account) <==> self@.dom().contains(account),
            r@.len() == self.walk().len(),
            forall|i: int|
                0 <= i < r@.len() ==> (#[trigger] r@[i])@ == message_text(
                    snapshot_kind(),
                    self@[self.walk()[i]],
                ),
    {
        let mut texts: Vec<String> = Vec::new();
        let mut i: usize = 0;
        while i < self.table.len()
            invariant
                i <= self.table.entries().len(),
                texts@.len() == i,
                forall|j: int|
                    0 <= j < i ==> (#[trigger] texts@[j])@ == message_text(
                        snapshot_kind(),
                        self.table.entries()[j].1@,
                    ),
            decreases self.table.entries().len() - i,
        {
            texts.push(self.table.at(i).1.serialize());
            i += 1;
        }
        proof {
            self.table.lemma_walk();
            let entries = self.table.entries();
            let walk = self.walk();
            assert forall|j: int| 0 <= j < walk.len() implies self@.dom().contains(
                #[trigger] walk[j],
            ) && self@[walk[j]] == entries[j].1@ && encoded_pubkey(walk[j]) == entries[j].0@ by {
                assert(self.table@.dom().contains(entries[j].0@));
                assert(is_account_text(entries[j].0@));
            }
            assert forall|j: int, k: int|
                0 <= j < walk.len() && 0 <= k < walk.len() && j != k implies walk[j] != walk[k] by {
                if j < k {
                    assert(entries[j].0@ != entries[k].0@);
                } else {
                    assert(entries[k].0@ != entries[j].0@);
                }
            }
            assert forall|account: Seq<u8>| self@.dom().contains(account) implies walk.contains(
                account,
            ) by {
                let j = choose|j: int|
                    0 <= j < entries.len() && (#[trigger] entries[j]).0@ == encoded_pubkey(account);
                assert(walk[j] == account);
            }
        }
        texts
    }

    /// Takes in a write of an account that holds the given side: keeps the levels of
    /// its book, and gives what has changed since the last write.
    pub fn record(
        &mut self,
        meta: &Meta,
        pk: &Pubkey,
        orders: &Vec<(i64, i64)>,
        slot: u64,
        write_version: u64,
    ) -> (delta: Delta)
        requires
            old(self).wf(),
            sizes_fit(orders@),
        ensures
            final(self).wf(),
            final(self)@ == old(self)@.insert(
                pk@,
                new_content(meta@, orders@, slot, write_version),
            ),
            delta@ == delta_content(
                old(self)@,
                pk@,
                new_content(meta@, orders@, slot, write_version),
            ),
            final(self)@.dom().contains(pk@),
            final(self)@[pk@].market == meta.market@,
            final(self)@[pk@].side == meta.side@,
            final(self)@[pk@].slot == slot,
            final(self)@[pk@].write_version == write_version,
            final(self)@[pk@].orders.len() == levels(orders@).len(),
            forall|l: int|
                0 <= l < levels(orders@).len() ==> (#[trigger] final(self)@[pk@].orders[l]).0
                    == levels(orders@)[l].0 && final(self)@[pk@].orders[l].1 as int == levels(
                    orders@,
                )[l].1,
            delta.market@ == meta.market@,
            delta.side@ == meta.side@,
            delta.slot == slot,
            delta.write_version == write_version,
            delta.orders@ == (if old(self)@.dom().contains(pk@) {
                l2_delta(old(self)@[pk@].orders, final(self)@[pk@].orders)
            } else {
                Seq::empty()
            }),
    {
        let current = l2_snapshot(orders);
        proof {
            law_book_levels_are_the_levels(orders@);
        }
        let diff = match self.get(pk) {
            Some(previous) => l2_diff(&previous.orders, &current),
            None => Vec::new(),
        };
        self.insert(
            pk,
            Snapshot {
                market: meta.market.clone(),
                side: meta.side.clone(),
                orders: current,
                slot,
                write_version,
            },
        );
        Delta {
            market: meta.market.clone(),
            side: meta.side.clone(),
            orders: diff,
            slot,
            write_version,
        }
    }
}

impl OrderBookSides {
    /// Takes in a write of an account: `slot` and `write_version` are those of the
    /// data that the chain cache holds for it, `orders` the (price, quantity) pairs
    /// of its book. Gives what the clients are told; accounts that are not followed
    /// change nothing.
    pub fn process_write(
        &self,
        snapshots: &mut SnapshotStore,
        pk: &Pubkey,
        orders: &Vec<(i64, i64)>,
        slot: u64,
        write_version: u64,
    ) -> (r: Option<Delta>)
        requires
            self.wf(),
            old(snapshots).wf(),
            self@.dom().contains(pk@) ==> sizes_fit(orders@),
        ensures
            final(snapshots).wf(),
            r is Some <==> self@.dom().contains(pk@),
            r is None ==> final(snapshots)@ == old(snapshots)@,
            r matches Some(delta) ==> {
                let after = new_content(self@[pk@], orders@, slot, write_version);
                &&& final(snapshots)@ == old(snapshots)@.insert(pk@, after)
                &&& delta@ == delta_content(old(snapshots)@, pk@, after)
            },
            r matches Some(delta) ==> {
                let stored = final(snapshots)@[pk@];
                &&& final(snapshots)@.dom().contains(pk@)
                &&& stored.market == self@[pk@].market
                &&& stored.side == self@[pk@].side
                &&& stored.slot == slot
                &&& stored.write_version == write_version
                &&& stored.orders.len() == levels(orders@).len()
                &&& forall|l: int|
                    0 <= l < levels(orders@).len() ==> (#[trigger] stored.orders[l]).0 == levels(
                        orders@,
                    )[l].0 && stored.orders[l].1 as int == levels(orders@)[l].1
                &&& delta.market@ == self@[pk@].market
                &&& delta.side@ == self@[pk@].side
                &&& delta.slot == slot
                &&& delta.write_version == write_version
                &&& delta.orders@ == (if old(snapshots)@.dom().contains(pk@) {
                    l2_delta(old(snapshots)@[pk@].orders, stored.orders)
                } else {
                    Seq::empty()
                })
            },
    {
        match self.meta(pk) {
            Some(meta) => Some(snapshots.record(meta, pk, orders, slot, write_version)),
            None => None,
        }
    }
}

/// The sizes of levels sum up to the same, bounded or not.
proof fn lemma_same_total(bounded: Seq<(i64, i64)>, sizes: Seq<(i64, int)>)
    requires
        bounded.len() == sizes.len(),
        forall|l: int| 0 <= l < sizes.len() ==> (#[trigger] bounded[l]).1 as int == sizes[l].1,
    ensures
        total_quantity(bounded) == total_size(sizes),
    decreases sizes.len(),
{
    if sizes.len() > 0 {
        let fewer = bounded.drop_last();
        assert forall|l: int| 0 <= l < fewer.len() implies (#[trigger] fewer[l]).1 as int
            == sizes.drop_last()[l].1 by {
            assert(fewer[l] == bounded[l]);
        }
        lemma_same_total(fewer, sizes.drop_last());
        assert(bounded.last() == bounded[sizes.len() - 1]);
    }
}

/// What is stored after a write names the side, the slot and the version of the write,
/// and holds all levels of its book, however many: each price and size as in the
/// book, so that the sizes sum up to the quantities of all orders.
pub proof fn law_snapshots_hold_every_level(
    side: SideName,
    orders: Seq<(i64, i64)>,
    slot: u64,
    write_version: u64,
)
    requires
        sizes_fit(orders),
    ensures
        ({
            let stored = new_content(side, orders, slot, write_version);
            &&& stored.market == side.market
            &&& stored.side == side.side
            &&& stored.slot == slot
            &&& stored.write_version == write_version
            &&& stored.orders.len() == levels(orders).len()
            &&& forall|l: int|
                0 <= l < levels(orders).len() ==> (#[trigger] stored.orders[l]).0 == levels(
                    orders,
                )[l].0 && stored.orders[l].1 as int == levels(orders)[l].1
            &&& total_quantity(stored.orders) == total_quantity(orders)
        }),
{
    law_book_levels_are_the_levels(orders);
    law_levels_keep_quantity(orders);
    lemma_same_total(book_levels(orders), levels(orders));
}

/// Every order of a write has a stored level at its price.
pub proof fn law_every_order_is_stored(
    side: SideName,
    orders: Seq<(i64, i64)>,
    slot: u64,
    write_version: u64,
    i: int,
) -> (l: int)
    requires
        sizes_fit(orders),
        0 <= i < orders.len(),
    ensures
        0 <= l < new_content(side, orders, slot, write_version).orders.len(),
        new_content(side, orders, slot, write_version).orders[l].0 == orders[i].0,
{
    law_book_levels_are_the_levels(orders);
    law_every_order_has_a_level(orders, i)
}

/// The delta of a write names the market, the side, the slot and the version of what is
/// stored, whatever changed; its entries lead from what was stored before to that, and
/// there are none where nothing was stored before.
pub proof fn law_deltas_name_their_write(
    snapshots: Map<Seq<u8>, Content>,
    account: Seq<u8>,
    after: Content,
)
    ensures
        ({
            let delta = delta_content(snapshots, account, after);
            &&& delta.market == after.market
            &&& delta.side == after.side
            &&& delta.slot == after.slot
            &&& delta.write_version == after.write_version
            &&& snapshots.dom().contains(account) ==> delta.orders == l2_delta(
                snapshots[account].orders,
                after.orders,
            )
            &&& !snapshots.dom().contains(account) ==> delta.orders.len() == 0
        }),
{
}

} // verus!
