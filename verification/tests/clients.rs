use geyser_services::connection::{Action, Outcome, Session};
use geyser_services::market::Meta;
use geyser_services::peers::{PeerAddr, Peers};
use geyser_services::pubkey::Pubkey;
use geyser_services::snapshots::SnapshotStore;

fn addr(port: u16) -> PeerAddr {
    PeerAddr::V4 { octets: 0x7f00_0001, port }
}

fn run(messages: &[&str], fail_at: Option<usize>) -> (Vec<String>, Peers<u32>, Option<usize>) {
    let mut peers: Peers<u32> = Peers::new();
    let mut log = Vec::new();
    let mut session = Session::begin();
    let mut writes = 0;
    loop {
        let mut write = |entry: String| {
            log.push(entry);
            writes += 1;
            if fail_at == Some(writes) {
                Outcome::Failed { error: writes }
            } else {
                Outcome::Done
            }
        };
        let outcome = match session.action() {
            Action::Register => {
                peers.register(addr(1), 7);
                Outcome::Done
            }
            Action::Collect => {
                assert_eq!(peers.len(), 1);
                Outcome::Collected { messages: messages.iter().map(|m| m.to_string()).collect() }
            }
            Action::Feed { message } => write(message),
            Action::Flush => write("flush".to_string()),
            Action::Forward => write("forward".to_string()),
            Action::Deregister => {
                peers.deregister(&addr(1));
                Outcome::Done
            }
            Action::Stop => break,
        };
        session = session.advance(outcome);
    }
    match session {
        Session::Closed { failure } => (log, peers, failure),
        _ => panic!("the session has not ended"),
    }
}

#[test]
fn snapshots_are_fed_before_updates() {
    let (log, peers, failure) = run(&["a", "b", "c"], None);
    assert_eq!(log, vec!["a", "b", "c", "flush", "forward"]);
    assert_eq!(peers.len(), 0);
    assert_eq!(failure, None);
}

#[test]
fn without_snapshots_the_updates_come_at_once() {
    let (log, peers, failure) = run(&[], None);
    assert_eq!(log, vec!["flush", "forward"]);
    assert_eq!(peers.len(), 0);
    assert_eq!(failure, None);
}

#[test]
fn every_failure_takes_the_client_out() {
    let expected = ["a", "b", "flush", "forward"];
    for fail_at in 1..=4 {
        let (log, peers, failure) = run(&["a", "b"], Some(fail_at));
        assert_eq!(log, expected[..fail_at].to_vec());
        assert_eq!(peers.len(), 0);
        assert_eq!(failure, Some(fail_at));
    }
}

#[test]
fn the_first_failure_is_kept() {
    let session: Session<&str> = Session::begin();
    let session = session.advance(Outcome::Done);
    let session = session.advance(Outcome::Collected { messages: vec!["a".to_string()] });
    let session = session.advance(Outcome::Failed { error: "broken pipe" });
    assert!(matches!(session, Session::Deregister { failure: Some("broken pipe") }));
    assert!(matches!(session.action(), Action::Deregister));
    let session = session.advance(Outcome::Done);
    assert!(matches!(session, Session::Closed { failure: Some("broken pipe") }));
    assert!(matches!(session.action(), Action::Stop));
}

#[test]
fn a_later_client_takes_over_the_address() {
    let mut peers: Peers<&str> = Peers::new();
    peers.register(addr(1), "first");
    peers.register(addr(1), "second");
    assert_eq!(peers.len(), 1);
    assert_eq!(*peers.channel(0), "second");
    peers.deregister(&addr(1));
    assert_eq!(peers.len(), 0);
}

#[test]
fn peers_are_kept_by_address() {
    let mut peers: Peers<&str> = Peers::new();
    peers.register(addr(1), "first");
    peers.register(addr(2), "second");
    peers.register(addr(1), "third");
    assert_eq!(peers.len(), 2);
    let mut channels = vec![*peers.channel(0), *peers.channel(1)];
    channels.sort();
    assert_eq!(channels, vec!["second", "third"]);
    peers.deregister(&addr(3));
    assert_eq!(peers.len(), 2);
    peers.deregister(&addr(2));
    assert_eq!(peers.len(), 1);
    assert_eq!(*peers.channel(0), "third");
    assert_eq!(peers.address(0), addr(1));
}

#[test]
fn addresses_of_both_families_differ() {
    let v6 = PeerAddr::V6 { segments: 0x7f00_0001, port: 1, flowinfo: 0, scope_id: 0 };
    let mut peers: Peers<u8> = Peers::new();
    peers.register(addr(1), 4);
    peers.register(v6, 6);
    assert_eq!(peers.len(), 2);
    peers.deregister(&addr(1));
    assert_eq!(*peers.channel(0), 6);
}

/// Runs the steps of a write (store, then read the peers) and of a new client
/// (register, then copy the snapshots) in the given order.
fn interleave(order: [char; 4]) -> (bool, bool) {
    let pk = Pubkey { bytes: [1; 32] };
    let meta = Meta { market: "SOL-PERP".to_string(), side: "bids".to_string() };
    let mut store = SnapshotStore::new();
    store.record(&meta, &pk, &vec![(10, 1)], 1, 1);
    let mut peers: Peers<u32> = Peers::new();
    let mut told = false;
    let mut copied = Vec::new();
    for step in order {
        match step {
            's' => {
                store.record(&meta, &pk, &vec![(10, 2)], 2, 2);
            }
            'p' => told = peers.len() == 1,
            'r' => peers.register(addr(1), 7),
            _ => copied = store.messages(),
        }
    }
    (told, copied == store.messages())
}

#[test]
fn no_write_is_missed_by_a_new_client() {
    let orders = [
        ['s', 'p', 'r', 'c'],
        ['s', 'r', 'p', 'c'],
        ['s', 'r', 'c', 'p'],
        ['r', 's', 'p', 'c'],
        ['r', 's', 'c', 'p'],
        ['r', 'c', 's', 'p'],
    ];
    for order in orders {
        let (told, current) = interleave(order);
        assert!(told || current);
    }
    assert_eq!(interleave(['s', 'p', 'r', 'c']), (false, true));
    assert_eq!(interleave(['r', 'c', 's', 'p']), (true, false));
}
