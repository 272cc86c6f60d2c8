//! The clients that are connected, each with the channel that reaches it.
use vstd::prelude::*;

use crate::table::{Table, TableKey};

verus! {

/// The socket address of a client.
#[derive(Clone, Copy, Debug, PartialEq, Eq, Structural)]
pub enum PeerAddr {
    V4 { octets: u32, port: u16 },
    V6 { segments: u128, port: u16, flowinfo: u32, scope_id: u32 },
}

impl View for PeerAddr {
    type V = PeerAddr;

    open spec fn view(&self) -> PeerAddr {
        *self
    }
}

impl TableKey for PeerAddr {
    fn same(&self, other: &PeerAddr) -> (r: bool) {
        *self == *other
    }
}

/// The connected clients.
pub struct Peers<C> {
    table: Table<PeerAddr, C>,
}

impl<C> View for Peers<C> {
    type V = Map<PeerAddr, C>;

    closed spec fn view(&self) -> Map<PeerAddr, C> {
        self.table@
    }
}

impl<C> Peers<C> {
    /// Each address stands for one client.
    pub closed spec fn wf(&self) -> bool {
        self.table.wf()
    }

    /// The clients in the order in which they are served.
    pub closed spec fn walk(&self) -> Seq<PeerAddr> {
        self.table.entries().map_values(|entry: (PeerAddr, C)| entry.0)
    }

    /// Each client is served once, and nobody else is.
    pub proof fn law_each_client_is_served_once(&self)
        requires
            self.wf(),
        ensures
            self.walk().no_duplicates(),
            forall|addr: PeerAddr| self.walk().contains(addr) <==> self@.dom().contains(addr),
    {
        self.table.lemma_walk();
        let entries = self.table.entries();
        let walk = self.walk();
        assert forall|j: int, k: int|
            0 <= j < walk.len() && 0 <= k < walk.len() && j != k implies walk[j] != walk[k] by {
            if j < k {
                assert(entries[j].0@ != entries[k].0@);
            } else {
                assert(entries[k].0@ != entries[j].0@);
            }
        }
        assert forall|addr: PeerAddr| self@.dom().contains(addr) implies walk.contains(addr) by {
            let j = choose|j: int| 0 <= j < entries.len() && (#[trigger] entries[j]).0@ == addr;
            assert(walk[j] == addr);
        }
        assert forall|addr: PeerAddr| walk.contains(addr) implies self@.dom().contains(addr) by {
            let j = choose|j: int| 0 <= j < walk.len() && walk[j] == addr;
            assert(entries[j].0@ == addr);
        }
    }

    /// No clients.
    pub fn new() -> (r: Self)
        ensures
            r.wf(),
            r@ == Map::<PeerAddr, C>::empty(),
    {
        Peers { table: Table::new() }
    }

    /// Enters a client with its channel, in place of one with the same address.
    pub fn register(&mut self, addr: PeerAddr, channel: C)
        requires
            old(self).wf(),
        ensures
            final(self).wf(),
            final(self)@ == old(self)@.insert(addr, channel),
    {
        self.table.insert(addr, channel);
    }

    /// Takes a client out, if it is there.
    pub fn deregister(&mut self, addr: &PeerAddr)
        requires
            old(self).wf(),
        ensures
            final(self).wf(),
            final(self)@ == old(self)@.remove(*addr),
    {
        self.table.remove(addr);
    }

    /// The number of clients.
    pub fn len(&self) -> (r: usize)
        ensures
            r == self.walk().len(),
    {
        self.table.len()
    }

    /// The address of the client at a place in the order of service.
    pub fn address(&self, i: usize) -> (r: PeerAddr)
        requires
            i < self.walk().len(),
        ensures
            r == self.walk()[i as int],
    {
        self.table.at(i).0
    }

    /// The channel of the client at a place in the order of service.
    pub fn channel(&self, i: usize) -> (r: &C)
        requires
            self.wf(),
            i < self.walk().len(),
        ensures
            self@.dom().contains(self.walk()[i as int]),
            *r == self@[self.walk()[i as int]],
    {
        proof {
            self.table.lemma_walk();
        }
        let entry = self.table.at(i);
        assert(self.table.entries()[i as int].0@ == self.walk()[i as int]);
        &entry.1
    }
}

} // verus!
