//! When the event queue of a perp market is cranked, and the instruction that does it.
use vstd::prelude::*;

use crate::pubkey::{
    bytes_before, lemma_before_irreflexive, lemma_before_transitive, strictly_ascending, KeyOrder,
    Pubkey,
};
use crate::table::{pairs_map, Table};

verus! {

/// The number of buffered events up to which a queue without fills is left alone.
pub const MAX_BACKLOG: usize = 2;

/// The number of events that one instruction consumes.
pub const CONSUME_LIMIT: usize = 10;

/// An event of a queue, with the accounts that it concerns.
#[derive(Clone, Copy, Debug)]
pub enum PerpEvent {
    Fill { maker: Pubkey, taker: Pubkey },
    Out { owner: Pubkey },
    Liquidate,
    /// An event of a type that the program does not name.
    Unknown { event_type: u8 },
}

/// An account that an instruction uses.
#[derive(Clone, Copy, Debug, PartialEq, Eq)]
pub struct AccountMeta {
    pub pubkey: Pubkey,
    pub is_signer: bool,
    pub is_writable: bool,
}

/// A call of a program.
#[derive(Clone, Debug, PartialEq, Eq)]
pub struct Instruction {
    pub program_id: Pubkey,
    pub accounts: Vec<AccountMeta>,
    pub data: Vec<u8>,
}

/// The consumption of the first events of a queue.
#[derive(Clone, Debug, PartialEq, Eq)]
pub struct ConsumeEvents {
    pub group: Pubkey,
    pub perp_market: Pubkey,
    pub event_queue: Pubkey,
    /// The accounts that the events concern.
    pub mango_accounts: Vec<Pubkey>,
    pub limit: usize,
}

/// The accounts that an event concerns.
pub open spec fn participants(event: PerpEvent) -> Seq<Pubkey> {
    match event {
        PerpEvent::Fill { maker, taker } => seq![maker, taker],
        PerpEvent::Out { owner } => seq![owner],
        PerpEvent::Liquidate => Seq::empty(),
        PerpEvent::Unknown { .. } => Seq::empty(),
    }
}

/// One of the events is a fill.
pub open spec fn contains_fill(events: Seq<PerpEvent>) -> bool {
    exists|i: int| 0 <= i < events.len() && (#[trigger] events[i]) is Fill
}

/// The queue holds a fill, or enough events of other kinds.
pub open spec fn worth_cranking(events: Seq<PerpEvent>) -> bool {
    contains_fill(events) || events.len() > MAX_BACKLOG
}

/// The events that one instruction consumes: the first ones of the queue.
pub open spec fn consumed(events: Seq<PerpEvent>) -> Seq<PerpEvent> {
    if events.len() > CONSUME_LIMIT {
        events.take(CONSUME_LIMIT as int)
    } else {
        events
    }
}

/// The program names the types of all events.
pub open spec fn all_known(events: Seq<PerpEvent>) -> bool {
    forall|i: int| 0 <= i < events.len() ==> !((#[trigger] events[i]) is Unknown)
}

/// One of the events concerns the account.
pub open spec fn concerns(events: Seq<PerpEvent>, account: Pubkey) -> bool {
    exists|i: int|
        0 <= i < events.len() && participants(#[trigger] events[i]).contains(account)
}

/// The accounts of an instruction that are written and do not sign.
pub open spec fn written(accounts: Seq<Pubkey>) -> Seq<AccountMeta> {
    accounts.map_values(
        |account: Pubkey| AccountMeta { pubkey: account, is_signer: false, is_writable: true },
    )
}

/// Whether the queue holds a fill, or enough events of other kinds.
pub fn should_crank(events: &Vec<PerpEvent>) -> (r: bool)
    ensures
        r == worth_cranking(events@),
        r <==> events@.len() > 2 || exists|i: int|
            0 <= i < events@.len() && (#[trigger] events@[i]) is Fill,
{
    let mut i: usize = 0;
    while i < events.len()
        invariant
            i <= events.len(),
            forall|j: int| 0 <= j < i ==> !((#[trigger] events@[j]) is Fill),
        decreases events.len() - i,
    {
        if let PerpEvent::Fill { .. } = events[i] {
            return true;
        }
        i += 1;
    }
    events.len() > MAX_BACKLOG
}

/// Whether the program names the types of all events that one instruction consumes.
pub fn consumed_events_known(events: &Vec<PerpEvent>) -> (r: bool)
    ensures
        r == all_known(consumed(events@)),
        r <==> forall|i: int|
            0 <= i < events@.len() && i < 10 ==> !((#[trigger] events@[i]) is Unknown),
{
    let mut i: usize = 0;
    while i < events.len() && i < CONSUME_LIMIT
        invariant
            i <= events.len(),
            i <= CONSUME_LIMIT,
            forall|j: int| 0 <= j < i ==> !((#[trigger] events@[j]) is Unknown),
        decreases events.len() - i,
    {
        if let PerpEvent::Unknown { .. } = events[i] {
            assert(consumed(events@)[i as int] is Unknown);
            assert(events@[i as int] is Unknown);
            return false;
        }
        i += 1;
    }
    true
}

/// Adds a key to a set of keys in ascending order.
pub fn insert_key(keys: &mut Vec<Pubkey>, key: Pubkey)
    requires
        strictly_ascending(old(keys)@),
    ensures
        strictly_ascending(final(keys)@),
        forall|other: Pubkey|
            final(keys)@.contains(other) <==> old(keys)@.contains(other) || other == key,
        final(keys)@.len() <= old(keys)@.len() + 1,
{
    let ghost before = keys@;
    let mut i: usize = 0;
    while i < keys.len()
        invariant
            i <= keys.len(),
            keys@ == before,
            before == old(keys)@,
            strictly_ascending(before),
            forall|j: int| 0 <= j < i ==> bytes_before(#[trigger] before[j]@, key@),
        decreases keys.len() - i,
    {
        match keys[i].relation(&key) {
            KeyOrder::Before => {
                i += 1;
            },
            KeyOrder::Same => {
                assert(before[i as int] == key);
                return;
            },
            KeyOrder::After => {
                proof {
                    lemma_insert_key(before, key, i as int);
                }
                keys.insert(i, key);
                return;
            },
        }
    }
    proof {
        lemma_insert_key(before, key, i as int);
        assert(before.insert(i as int, key) =~= before.push(key));
    }
    keys.push(key);
}

proof fn lemma_insert_key(keys: Seq<Pubkey>, key: Pubkey, i: int)
    requires
        strictly_ascending(keys),
        0 <= i <= keys.len(),
        forall|j: int| 0 <= j < i ==> bytes_before(#[trigger] keys[j]@, key@),
        i < keys.len() ==> bytes_before(key@, keys[i]@),
    ensures
        strictly_ascending(keys.insert(i, key)),
        forall|other: Pubkey|
            keys.insert(i, key).contains(other) <==> keys.contains(other) || other == key,
{
    let after = keys.insert(i, key);
    assert forall|j: int| i <= j < keys.len() implies bytes_before(
        key@,
        (#[trigger] keys[j])@,
    ) by {
        if j > i {
            lemma_before_transitive(key@, keys[i]@, keys[j]@);
        }
    }
    assert forall|a: int, b: int| 0 <= a < b < after.len() implies bytes_before(
        (#[trigger] after[a])@,
        (#[trigger] after[b])@,
    ) by {
        let from_a = if a < i { a } else { a - 1 };
        let from_b = if b < i { b } else { b - 1 };
        if a != i {
            assert(after[a] == keys[from_a]);
        }
        if b != i {
            assert(after[b] == keys[from_b]);
        }
    }
    assert forall|other: Pubkey| after.contains(other) <==> keys.contains(other) || other
        == key by {
        if after.contains(other) {
            let a = choose|a: int| 0 <= a < after.len() && after[a] == other;
            if a < i {
                assert(keys[a] == other);
            } else if a > i {
                assert(keys[a - 1] == other);
            }
        }
        if keys.contains(other) {
            let a = choose|a: int| 0 <= a < keys.len() && keys[a] == other;
            if a < i {
                assert(after[a] == other);
            } else {
                assert(after[a + 1] == other);
            }
        }
        assert(after[i] == key);
    }
}

/// Calls `solana_sdk::instruction::AccountMeta::new`. It is trusted to give the
/// account with the given key and signer flag, marked as writable.
#[verifier::external_body]
fn writable_account(pubkey: Pubkey, is_signer: bool) -> (r: AccountMeta)
    ensures
        r == (AccountMeta { pubkey, is_signer, is_writable: true }),
{
    let key = solana_sdk::pubkey::Pubkey::new_from_array(pubkey.bytes);
    let meta = solana_sdk::instruction::AccountMeta::new(key, is_signer);
    AccountMeta {
        pubkey: Pubkey { bytes: meta.pubkey.to_bytes() },
        is_signer: meta.is_signer,
        is_writable: meta.is_writable,
    }
}

/// Turns writes of event queues into instructions that consume the events.
pub struct MangoV4PerpCrankSink {
    pks: Table<Pubkey, Pubkey>,
    group_pk: Pubkey,
}

impl MangoV4PerpCrankSink {
    /// Each known account has one market.
    pub closed spec fn wf(&self) -> bool {
        self.pks.wf()
    }

    /// The market of each known account.
    pub closed spec fn markets(&self) -> Map<Seq<u8>, Pubkey> {
        self.pks@
    }

    /// The group of the markets.
    pub closed spec fn group(&self) -> Pubkey {
        self.group_pk
    }

    /// A sink that knows the first key of each pair, with the second one as its market.
    pub fn new(pks: Vec<(Pubkey, Pubkey)>, group_pk: Pubkey) -> (r: Self)
        ensures
            r.wf(),
            r.markets() == pairs_map(pks@),
            r.group() == group_pk,
    {
        let mut table: Table<Pubkey, Pubkey> = Table::new();
        let mut i: usize = 0;
        while i < pks.len()
            invariant
                i <= pks.len(),
                table.wf(),
                table@ == pairs_map(pks@.take(i as int)),
            decreases pks.len() - i,
        {
            table.insert(pks[i].0, pks[i].1);
            assert(pks@.take(i as int + 1).drop_last() =~= pks@.take(i as int));
            i += 1;
        }
        assert(pks@.take(pks@.len() as int) =~= pks@);
        MangoV4PerpCrankSink { pks: table, group_pk }
    }

    /// Whether the sink knows the market of an account.
    pub fn knows(&self, pk: &Pubkey) -> (r: bool)
        requires
            self.wf(),
        ensures
            r == self.markets().dom().contains(pk@),
    {
        self.pks.get(pk).is_some()
    }

    /// Takes in a write of the event queue `pk` that leaves the given events in it:
    /// what is to be consumed, or `throttled` where too little is buffered.
    pub fn process(&self, pk: &Pubkey, events: &Vec<PerpEvent>) -> (r: Result<
        ConsumeEvents,
        String,
    >)
        requires
            self.wf(),
            worth_cranking(events@) ==> all_known(consumed(events@)),
            worth_cranking(events@) ==> self.markets().dom().contains(pk@),
        ensures
            r is Ok <==> worth_cranking(events@),
            r matches Err(error) ==> error@ == "throttled"@,
            r matches Ok(call) ==> {
                &&& call.group == self.group()
                &&& call.perp_market == self.markets()[pk@]
                &&& call.event_queue == *pk
                &&& call.limit == CONSUME_LIMIT
                &&& strictly_ascending(call.mango_accounts@)
                &&& forall|account: Pubkey| #[trigger]
                    call.mango_accounts@.contains(account) <==> concerns(
                        consumed(events@),
                        account,
                    )
                &&& call.mango_accounts@.len() <= 2 * consumed(events@).len()
            },
            r is Err <==> events@.len() <= 2 && forall|i: int|
                0 <= i < events@.len() ==> !((#[trigger] events@[i]) is Fill),
            r matches Ok(call) ==> {
                &&& call.limit == 10
                &&& forall|account: Pubkey| #[trigger]
                    call.mango_accounts@.contains(account) <==> exists|i: int|
                        0 <= i < events@.len() && i < 10 && match #[trigger] events@[i] {
                            PerpEvent::Fill { maker, taker } => account == maker || account == taker,
                            PerpEvent::Out { owner } => account == owner,
                            _ => false,
                        }
            },
    {
        if !should_crank(events) {
            return Err("throttled".to_owned());
        }
        let mango_accounts = collect_accounts(events);
        let market = self.pks.get(pk).unwrap();
        Ok(
            ConsumeEvents {
                group: self.group_pk,
                perp_market: *market,
                event_queue: *pk,
                mango_accounts,
                limit: CONSUME_LIMIT,
            },
        )
    }
}

/// The accounts that the consumed events concern, in ascending order.
pub fn collect_accounts(events: &Vec<PerpEvent>) -> (accounts: Vec<Pubkey>)
    requires
        all_known(consumed(events@)),
    ensures
        strictly_ascending(accounts@),
        forall|account: Pubkey| #[trigger]
            accounts@.contains(account) <==> concerns(consumed(events@), account),
        accounts@.len() <= 2 * consumed(events@).len(),
        forall|account: Pubkey| #[trigger]
            accounts@.contains(account) <==> exists|i: int|
                0 <= i < events@.len() && i < 10 && match #[trigger] events@[i] {
                    PerpEvent::Fill { maker, taker } => account == maker || account == taker,
                    PerpEvent::Out { owner } => account == owner,
                    _ => false,
                },
{
    let mut accounts: Vec<Pubkey> = Vec::new();
    let mut i: usize = 0;
    while i < events.len() && i < CONSUME_LIMIT
        invariant
            i <= events.len(),
            i <= CONSUME_LIMIT,
            strictly_ascending(accounts@),
            forall|account: Pubkey| #[trigger]
                accounts@.contains(account) <==> concerns(events@.take(i as int), account),
            accounts@.len() <= 2 * i,
        decreases events.len() - i,
    {
        let ghost before = accounts@;
        match events[i] {
            PerpEvent::Fill { maker, taker } => {
                insert_key(&mut accounts, maker);
                insert_key(&mut accounts, taker);
            },
            PerpEvent::Out { owner } => {
                insert_key(&mut accounts, owner);
            },
            PerpEvent::Liquidate => {},
            PerpEvent::Unknown { .. } => {},
        }
        proof {
            let event = events@[i as int];
            let shorter = events@.take(i as int);
            let longer = events@.take(i as int + 1);
            assert forall|account: Pubkey| #[trigger]
                accounts@.contains(account) <==> concerns(longer, account) by {
                lemma_concerns_one_more(events@, i as int, account);
                if let PerpEvent::Fill { maker, taker } = event {
                    assert(participants(event)[0] == maker && participants(event)[1] == taker);
                } else if let PerpEvent::Out { owner } = event {
                    assert(participants(event)[0] == owner);
                }
                assert(before.contains(account) <==> concerns(shorter, account));
            }
        }
        i += 1;
    }
    assert(events@.take(i as int) =~= consumed(events@));
    proof {
        law_consumed_events_are_the_first(events@);
        assert forall|account: Pubkey| #[trigger]
            accounts@.contains(account) <==> exists|i: int|
                0 <= i < events@.len() && i < 10 && match #[trigger] events@[i] {
                    PerpEvent::Fill { maker, taker } => account == maker || account == taker,
                    PerpEvent::Out { owner } => account == owner,
                    _ => false,
                } by {
            lemma_concerned(events@, account);
        }
    }
    accounts
}

proof fn lemma_concerns_one_more(events: Seq<PerpEvent>, i: int, account: Pubkey)
    requires
        0 <= i < events.len(),
    ensures
        concerns(events.take(i + 1), account) <==> concerns(events.take(i), account)
            || participants(events[i]).contains(account),
{
    let shorter = events.take(i);
    let longer = events.take(i + 1);
    if concerns(longer, account) {
        let j = choose|j: int|
            0 <= j < longer.len() && participants(#[trigger] longer[j]).contains(account);
        if j < i {
            assert(shorter[j] == longer[j]);
        }
    }
    if concerns(shorter, account) {
        let j = choose|j: int|
            0 <= j < shorter.len() && participants(#[trigger] shorter[j]).contains(account);
        assert(longer[j] == shorter[j]);
    }
    assert(longer[i] == events[i]);
}

impl ConsumeEvents {
    /// The instruction, for the program's id, its accounts of the group, the market
    /// and the queue, and its data. The accounts that the events concern follow those
    /// of the program, writable and without signature.
    pub fn instructions(
        &self,
        program_id: Pubkey,
        program_accounts: Vec<AccountMeta>,
        data: Vec<u8>,
    ) -> (r: Vec<Instruction>)
        ensures
            r@.len() == 1,
            r@[0].program_id == program_id,
            r@[0].accounts@ == program_accounts@ + written(self.mango_accounts@),
            r@[0].data == data,
            r@[0].accounts@.len() == program_accounts@.len() + self.mango_accounts@.len(),
            forall|i: int|
                0 <= i < program_accounts@.len() ==> (#[trigger] r@[0].accounts@[i])
                    == program_accounts@[i],
            forall|i: int|
                0 <= i < self.mango_accounts@.len() ==> r@[0].accounts@[program_accounts@.len() + i]
                    == (AccountMeta {
                    pubkey: #[trigger] self.mango_accounts@[i],
                    is_signer: false,
                    is_writable: true,
                }),
    {
        let mut accounts = program_accounts;
        let mut i: usize = 0;
        proof {
            assert(accounts@ =~= program_accounts@ + written(self.mango_accounts@.take(0)));
        }
        while i < self.mango_accounts.len()
            invariant
                i <= self.mango_accounts.len(),
                accounts@ == program_accounts@ + written(self.mango_accounts@.take(i as int)),
            decreases self.mango_accounts.len() - i,
        {
            accounts.push(writable_account(self.mango_accounts[i], false));
            assert(accounts@ =~= program_accounts@ + written(
                self.mango_accounts@.take(i as int + 1),
            ));
            i += 1;
        }
        assert(self.mango_accounts@.take(i as int) =~= self.mango_accounts@);
        let mut instructions: Vec<Instruction> = Vec::new();
        instructions.push(Instruction { program_id, accounts, data });
        instructions
    }
}

/// A queue is worth cranking exactly where it holds more than two events, however many,
/// or a fill, wherever it stands; and it stays so when events are added.
pub proof fn law_fills_and_backlogs_are_cranked(events: Seq<PerpEvent>, more: Seq<PerpEvent>)
    ensures
        worth_cranking(events) <==> events.len() > 2 || exists|i: int|
            0 <= i < events.len() && (#[trigger] events[i]) is Fill,
        worth_cranking(events) ==> worth_cranking(events + more),
        worth_cranking(more) ==> worth_cranking(events + more),
{
    let both = events + more;
    if exists|i: int| 0 <= i < events.len() && (#[trigger] events[i]) is Fill {
        let i = choose|i: int| 0 <= i < events.len() && (#[trigger] events[i]) is Fill;
        assert(both[i] is Fill);
    }
    if exists|i: int| 0 <= i < more.len() && (#[trigger] more[i]) is Fill {
        let i = choose|i: int| 0 <= i < more.len() && (#[trigger] more[i]) is Fill;
        assert(both[events.len() + i] is Fill);
    }
}

/// One instruction consumes the first ten events of a queue, or all where there are
/// fewer; the program must name the types of these and of no others.
pub proof fn law_consumed_events_are_the_first(events: Seq<PerpEvent>)
    ensures
        consumed(events).len() == (if events.len() < 10 {
            events.len()
        } else {
            10
        }),
        forall|i: int|
            0 <= i < events.len() && i < 10 ==> #[trigger] consumed(events)[i] == events[i],
        all_known(consumed(events)) <==> forall|i: int|
            0 <= i < events.len() && i < 10 ==> !((#[trigger] events[i]) is Unknown),
{
    if all_known(consumed(events)) {
        assert forall|i: int| 0 <= i < events.len() && i < 10 implies !((
        #[trigger] events[i]) is Unknown) by {
            assert(consumed(events)[i] == events[i]);
        }
    }
}

/// A fill concerns its maker and its taker, an out event its owner, and no event
/// concerns anybody else.
pub proof fn law_events_concern_their_owners(events: Seq<PerpEvent>, account: Pubkey)
    ensures
        concerns(events, account) <==> exists|i: int|
            0 <= i < events.len() && match #[trigger] events[i] {
                PerpEvent::Fill { maker, taker } => account == maker || account == taker,
                PerpEvent::Out { owner } => account == owner,
                _ => false,
            },
{
    assert forall|i: int| 0 <= i < events.len() implies (participants(#[trigger] events[i]).contains(
        account,
    ) <==> match events[i] {
        PerpEvent::Fill { maker, taker } => account == maker || account == taker,
        PerpEvent::Out { owner } => account == owner,
        _ => false,
    }) by {
        let event = events[i];
        if let PerpEvent::Fill { maker, taker } = event {
            assert(participants(event)[0] == maker && participants(event)[1] == taker);
        } else if let PerpEvent::Out { owner } = event {
            assert(participants(event)[0] == owner);
        }
    }
}

/// The accounts that the consumed events concern, by the events of the queue.
proof fn lemma_concerned(events: Seq<PerpEvent>, account: Pubkey)
    ensures
        concerns(consumed(events), account) <==> exists|i: int|
            0 <= i < events.len() && i < 10 && match #[trigger] events[i] {
                PerpEvent::Fill { maker, taker } => account == maker || account == taker,
                PerpEvent::Out { owner } => account == owner,
                _ => false,
            },
{
    law_consumed_events_are_the_first(events);
    law_events_concern_their_owners(consumed(events), account);
    let taken = consumed(events);
    assert forall|i: int| 0 <= i < events.len() && i < 10 implies taken[i] == (
    #[trigger] events[i]) by {}
    assert forall|i: int| 0 <= i < taken.len() implies (#[trigger] taken[i]) == events[i] by {}
}

/// Each of the accounts is written and does not sign, in the order in which they are
/// given.
pub proof fn law_written_accounts_do_not_sign(accounts: Seq<Pubkey>)
    ensures
        written(accounts).len() == accounts.len(),
        forall|i: int|
            0 <= i < accounts.len() ==> (#[trigger] written(accounts)[i]).pubkey == accounts[i]
                && written(accounts)[i].is_writable && !written(accounts)[i].is_signer,
{
}

/// A set of keys has one ascending order: the accounts of an instruction depend on
/// which accounts the events concern alone, not on the order of the events.
pub proof fn law_ascending_order_is_unique(a: Seq<Pubkey>, b: Seq<Pubkey>)
    requires
        strictly_ascending(a),
        strictly_ascending(b),
        forall|key: Pubkey| a.contains(key) <==> b.contains(key),
    ensures
        a == b,
    decreases a.len(),
{
    if a.len() == 0 {
        if b.len() > 0 {
            assert(b.contains(b[0]));
        }
        assert(a =~= b);
    } else {
        assert(a.contains(a.last()));
        assert(b.len() > 0);
        assert(b.contains(b.last()));
        let i = choose|i: int| 0 <= i < b.len() && b[i] == a.last();
        let j = choose|j: int| 0 <= j < a.len() && a[j] == b.last();
        if i < b.len() - 1 && j < a.len() - 1 {
            assert(bytes_before(b[i]@, b[b.len() - 1]@));
            assert(bytes_before(a[j]@, a[a.len() - 1]@));
            lemma_before_transitive(a.last()@, b.last()@, a.last()@);
            lemma_before_irreflexive(a.last()@);
        }
        assert(a.last() == b.last());
        let top = a.last();
        let fewer_a = a.drop_last();
        let fewer_b = b.drop_last();
        assert forall|key: Pubkey| fewer_a.contains(key) <==> fewer_b.contains(key) by {
            lemma_without_last(a, key);
            lemma_without_last(b, key);
        }
        assert(strictly_ascending(fewer_a)) by {
            assert forall|x: int, y: int| 0 <= x < y < fewer_a.len() implies bytes_before(
                (#[trigger] fewer_a[x])@,
                (#[trigger] fewer_a[y])@,
            ) by {
                assert(fewer_a[x] == a[x] && fewer_a[y] == a[y]);
            }
        }
        assert(strictly_ascending(fewer_b)) by {
            assert forall|x: int, y: int| 0 <= x < y < fewer_b.len() implies bytes_before(
                (#[trigger] fewer_b[x])@,
                (#[trigger] fewer_b[y])@,
            ) by {
                assert(fewer_b[x] == b[x] && fewer_b[y] == b[y]);
            }
        }
        law_ascending_order_is_unique(fewer_a, fewer_b);
        assert(a =~= fewer_a.push(top));
        assert(b =~= fewer_b.push(top));
    }
}

/// An instruction names every account that the consumed events concern, writable and
/// without signature, and names no account twice behind those of the program.
pub proof fn law_concerned_accounts_are_written(events: Seq<PerpEvent>, accounts: Seq<Pubkey>)
    requires
        strictly_ascending(accounts),
        forall|account: Pubkey| #[trigger]
            accounts.contains(account) <==> concerns(consumed(events), account),
    ensures
        forall|i: int, account: Pubkey|
            0 <= i < consumed(events).len() && participants(
                #[trigger] consumed(events)[i],
            ).contains(account) ==> #[trigger] written(accounts).contains(
                AccountMeta { pubkey: account, is_signer: false, is_writable: true },
            ),
        written(accounts).no_duplicates(),
{
    assert forall|i: int, account: Pubkey|
        0 <= i < consumed(events).len() && participants(#[trigger] consumed(events)[i]).contains(
            account,
        ) implies #[trigger] written(accounts).contains(
        AccountMeta { pubkey: account, is_signer: false, is_writable: true },
    ) by {
        assert(concerns(consumed(events), account));
        assert(accounts.contains(account));
        let j = choose|j: int| 0 <= j < accounts.len() && accounts[j] == account;
        assert(written(accounts)[j].pubkey == account);
    }
    assert forall|i: int, j: int|
        0 <= i < accounts.len() && 0 <= j < accounts.len() && i != j implies written(accounts)[i]
        != written(accounts)[j] by {
        if i < j {
            assert(bytes_before(accounts[i]@, accounts[j]@));
        } else {
            assert(bytes_before(accounts[j]@, accounts[i]@));
        }
        lemma_before_irreflexive(accounts[i]@);
    }
}

proof fn lemma_without_last(keys: Seq<Pubkey>, key: Pubkey)
    requires
        strictly_ascending(keys),
        keys.len() > 0,
    ensures
        keys.drop_last().contains(key) <==> keys.contains(key) && key != keys.last(),
{
    let fewer = keys.drop_last();
    if fewer.contains(key) {
        let i = choose|i: int| 0 <= i < fewer.len() && fewer[i] == key;
        assert(keys[i] == key);
        assert(bytes_before(keys[i]@, keys[keys.len() - 1]@));
        lemma_before_irreflexive(key@);
    }
    if keys.contains(key) && key != keys.last() {
        let i = choose|i: int| 0 <= i < keys.len() && keys[i] == key;
        assert(fewer[i] == key);
    }
}

} // verus!
