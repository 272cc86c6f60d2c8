use std::collections::BTreeSet;
use std::str::FromStr;

use geyser_services::pubkey::{InvalidPubkey, KeyOrder, Pubkey};

fn key(first: u8, last: u8) -> Pubkey {
    let mut bytes = [0u8; 32];
    bytes[0] = first;
    bytes[31] = last;
    Pubkey { bytes }
}

#[test]
fn the_default_key_is_thirty_two_ones() {
    let text = "11111111111111111111111111111111";
    assert_eq!(Pubkey::parse(text), Ok(Pubkey { bytes: [0; 32] }));
    assert_eq!(Pubkey { bytes: [0; 32] }.to_text(), text);
}

#[test]
fn parsing_reads_the_bytes_of_the_key() {
    let text = "31cKs646dt1YkA3zPyxZ7rUAkxTBz279w4XEobFXcAKP";
    let expected = solana_sdk::pubkey::Pubkey::from_str(text).unwrap().to_bytes();
    assert_eq!(Pubkey::parse(text), Ok(Pubkey { bytes: expected }));
    assert_ne!(expected, [0; 32]);
}

#[test]
fn texts_that_are_no_keys_are_refused() {
    assert_eq!(Pubkey::parse(""), Err(InvalidPubkey));
    assert_eq!(Pubkey::parse("not a key"), Err(InvalidPubkey));
    assert_eq!(Pubkey::parse("0OIl"), Err(InvalidPubkey));
    assert_eq!(Pubkey::parse("111111111111111111111111111111111"), Err(InvalidPubkey));
    assert_eq!(Pubkey::parse("\u{e9}"), Err(InvalidPubkey));
    let long = "1".repeat(45);
    assert_eq!(Pubkey::parse(&long), Err(InvalidPubkey));
}

#[test]
fn texts_read_back_as_the_same_key() {
    for first in [0u8, 1, 57, 58, 127, 128, 255] {
        for last in [0u8, 1, 254, 255] {
            let pk = key(first, last);
            assert_eq!(Pubkey::parse(&pk.to_text()), Ok(pk));
        }
    }
    let full = Pubkey { bytes: [255; 32] };
    assert_eq!(Pubkey::parse(&full.to_text()), Ok(full));
}

#[test]
fn keys_are_ordered_from_the_first_byte() {
    assert_eq!(key(1, 9).relation(&key(2, 0)), KeyOrder::Before);
    assert_eq!(key(2, 0).relation(&key(1, 9)), KeyOrder::After);
    assert_eq!(key(1, 1).relation(&key(1, 2)), KeyOrder::Before);
    assert_eq!(key(1, 2).relation(&key(1, 2)), KeyOrder::Same);
}

#[test]
fn the_order_is_that_of_chain_keys() {
    let mut set = BTreeSet::new();
    for first in [200u8, 3, 255, 0] {
        for last in [1u8, 255, 128] {
            set.insert(solana_sdk::pubkey::Pubkey::new_from_array(key(first, last).bytes));
        }
    }
    let keys: Vec<Pubkey> = set.iter().map(|pk| Pubkey { bytes: pk.to_bytes() }).collect();
    for pair in keys.windows(2) {
        assert_eq!(pair[0].relation(&pair[1]), KeyOrder::Before);
    }
}
