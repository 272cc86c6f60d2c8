use std::collections::BTreeSet;

use geyser_services::crank::{
    collect_accounts, consumed_events_known, insert_key, should_crank, AccountMeta,
    MangoV4PerpCrankSink, PerpEvent, CONSUME_LIMIT,
};
use geyser_services::pubkey::Pubkey;

fn key(n: u8) -> Pubkey {
    Pubkey { bytes: [n; 32] }
}

fn fill(maker: u8, taker: u8) -> PerpEvent {
    PerpEvent::Fill { maker: key(maker), taker: key(taker) }
}

fn out(owner: u8) -> PerpEvent {
    PerpEvent::Out { owner: key(owner) }
}

fn sink() -> MangoV4PerpCrankSink {
    MangoV4PerpCrankSink::new(vec![(key(1), key(2)), (key(3), key(4))], key(9))
}

#[test]
fn a_single_fill_is_cranked() {
    assert!(should_crank(&vec![fill(1, 2)]));
    assert!(should_crank(&vec![out(1), fill(1, 2)]));
}

#[test]
fn few_other_events_are_throttled() {
    for events in [vec![], vec![out(1)], vec![out(1), PerpEvent::Liquidate]] {
        assert!(!should_crank(&events));
        assert_eq!(sink().process(&key(1), &events), Err("throttled".to_string()));
        assert_eq!(sink().process(&key(77), &events), Err("throttled".to_string()));
    }
}

#[test]
fn a_backlog_is_cranked() {
    let events = vec![out(1), PerpEvent::Liquidate, out(2)];
    assert!(should_crank(&events));
    assert!(sink().process(&key(1), &events).is_ok());
}

#[test]
fn fills_late_in_the_queue_count() {
    let mut events = vec![out(5); 2];
    events.push(fill(6, 7));
    assert!(should_crank(&events));
}

#[test]
fn accounts_are_collected_in_order_and_once() {
    let events = vec![fill(5, 3), out(4), PerpEvent::Liquidate, fill(3, 8), out(5)];
    assert_eq!(collect_accounts(&events), vec![key(3), key(4), key(5), key(8)]);
}

#[test]
fn only_the_first_events_are_consumed() {
    let mut events = vec![out(1); CONSUME_LIMIT];
    events.push(fill(2, 3));
    assert_eq!(CONSUME_LIMIT, 10);
    let call = sink().process(&key(1), &events).unwrap();
    assert_eq!(call.mango_accounts, vec![key(1)]);
}

#[test]
fn many_participants_are_all_collected() {
    let events: Vec<PerpEvent> = (0..12).map(|i| fill(100 - i, 200 - i)).collect();
    let accounts = collect_accounts(&events);
    assert_eq!(accounts.len(), 20);
    let expected: BTreeSet<[u8; 32]> = (0..10u8)
        .flat_map(|i| [key(100 - i).bytes, key(200 - i).bytes])
        .collect();
    let collected: Vec<[u8; 32]> = accounts.iter().map(|account| account.bytes).collect();
    assert_eq!(collected, expected.into_iter().collect::<Vec<_>>());
}

#[test]
fn the_order_of_events_does_not_matter() {
    let forth = vec![fill(5, 3), out(4), fill(1, 2)];
    let back = vec![fill(2, 1), out(4), fill(3, 5)];
    assert_eq!(collect_accounts(&forth), collect_accounts(&back));
}

#[test]
fn unknown_events_matter_only_where_they_are_consumed() {
    let unknown = PerpEvent::Unknown { event_type: 7 };
    assert!(!consumed_events_known(&vec![fill(1, 2), unknown]));
    let mut events = vec![fill(1, 2); CONSUME_LIMIT];
    events.push(unknown);
    assert!(consumed_events_known(&events));
    assert!(consumed_events_known(&vec![]));
}

#[test]
fn keys_are_inserted_in_order() {
    let mut keys = Vec::new();
    for n in [5, 1, 9, 5, 3, 1] {
        insert_key(&mut keys, key(n));
    }
    assert_eq!(keys, vec![key(1), key(3), key(5), key(9)]);
}

#[test]
fn the_call_names_group_market_and_queue() {
    let call = sink().process(&key(3), &vec![fill(6, 5)]).unwrap();
    assert_eq!(call.group, key(9));
    assert_eq!(call.perp_market, key(4));
    assert_eq!(call.event_queue, key(3));
    assert_eq!(call.mango_accounts, vec![key(5), key(6)]);
    assert_eq!(call.limit, 10);
}

#[test]
fn a_sink_knows_its_first_keys_and_the_last_market_of_each() {
    let sink = MangoV4PerpCrankSink::new(vec![(key(1), key(2)), (key(1), key(3))], key(9));
    assert!(sink.knows(&key(1)));
    assert!(!sink.knows(&key(2)));
    assert!(!sink.knows(&key(3)));
    assert_eq!(sink.process(&key(1), &vec![fill(6, 5)]).unwrap().perp_market, key(3));
}

#[test]
fn the_instruction_ends_with_the_written_accounts() {
    let call = sink().process(&key(1), &vec![fill(6, 5)]).unwrap();
    let head = vec![
        AccountMeta { pubkey: key(9), is_signer: false, is_writable: false },
        AccountMeta { pubkey: key(2), is_signer: false, is_writable: true },
    ];
    let instructions = call.instructions(key(50), head.clone(), vec![1, 2, 3]);
    assert_eq!(instructions.len(), 1);
    assert_eq!(instructions[0].program_id, key(50));
    assert_eq!(instructions[0].data, vec![1, 2, 3]);
    let mut expected = head;
    expected.push(AccountMeta { pubkey: key(5), is_signer: false, is_writable: true });
    expected.push(AccountMeta { pubkey: key(6), is_signer: false, is_writable: true });
    assert_eq!(instructions[0].accounts, expected);
}
