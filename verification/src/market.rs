//! The markets of the configuration, and the accounts that hold the sides of their
//! books.
use vstd::prelude::*;

use crate::pubkey::{decoded_pubkey, Pubkey};
use crate::table::Table;

verus! {

/// One market of the configuration.
#[derive(Clone, Debug)]
pub struct MarketConfig {
    pub name: String,
    pub base_decimals: u64,
    pub quote_decimals: u64,
    pub base_lot_size: u64,
    pub quote_lot_size: u64,
    pub bids_key: String,
    pub asks_key: String,
}

/// Which side of which market's book an account holds.
#[derive(Clone, Debug, PartialEq)]
pub struct Meta {
    pub market: String,
    pub side: String,
}

/// A market's name and the name of one of its sides.
pub struct SideName {
    pub market: Seq<char>,
    pub side: Seq<char>,
}

impl View for Meta {
    type V = SideName;

    open spec fn view(&self) -> SideName {
        SideName { market: self.market@, side: self.side@ }
    }
}

/// A key of the configuration that is not the text of a public key.
#[derive(Clone, Copy, Debug, PartialEq, Eq, Structural)]
pub enum InvalidMarketKey {
    Bids { market: usize },
    Asks { market: usize },
}

/// Both keys of the market are texts of public keys.
pub open spec fn keys_decode(market: MarketConfig) -> bool {
    decoded_pubkey(market.bids_key@) is Some && decoded_pubkey(market.asks_key@) is Some
}

/// The bytes of the keys of each market: bids, then asks.
pub open spec fn config_keys(markets: Seq<MarketConfig>) -> Seq<(Seq<u8>, Seq<u8>)> {
    markets.map_values(
        |market: MarketConfig|
            (decoded_pubkey(market.bids_key@)->0, decoded_pubkey(market.asks_key@)->0),
    )
}

/// `error` names the first key that is not the text of a public key, where each
/// market's bids come before its asks.
pub open spec fn is_first_invalid(markets: Seq<MarketConfig>, error: InvalidMarketKey) -> bool {
    let place = match error {
        InvalidMarketKey::Bids { market } => market,
        InvalidMarketKey::Asks { market } => market,
    };
    &&& place < markets.len()
    &&& forall|i: int| 0 <= i < place ==> keys_decode(#[trigger] markets[i])
    &&& match error {
        InvalidMarketKey::Bids { market } => decoded_pubkey(markets[market as int].bids_key@) is None,
        InvalidMarketKey::Asks { market } => {
            &&& decoded_pubkey(markets[market as int].bids_key@) is Some
            &&& decoded_pubkey(markets[market as int].asks_key@) is None
        },
    }
}

/// The side that each account holds, for markets with the given accounts. An account
/// that is named more than once counts as what it was named last.
pub open spec fn sides_map(
    markets: Seq<MarketConfig>,
    keys: Seq<(Seq<u8>, Seq<u8>)>,
) -> Map<Seq<u8>, SideName>
    decreases markets.len(),
{
    if markets.len() == 0 {
        Map::empty()
    } else {
        sides_map(markets.drop_last(), keys.drop_last()).insert(
            keys.last().0,
            SideName { market: markets.last().name@, side: "bids"@ },
        ).insert(keys.last().1, SideName { market: markets.last().name@, side: "asks"@ })
    }
}

/// The bytes of pairs of keys.
pub open spec fn key_bytes(keys: Seq<(Pubkey, Pubkey)>) -> Seq<(Seq<u8>, Seq<u8>)> {
    keys.map_values(|pair: (Pubkey, Pubkey)| (pair.0@, pair.1@))
}

/// The accounts of each market: bids, then asks.
pub fn parse_market_keys(markets: &Vec<MarketConfig>) -> (r: Result<
    Vec<(Pubkey, Pubkey)>,
    InvalidMarketKey,
>)
    ensures
        r is Ok <==> forall|i: int| 0 <= i < markets@.len() ==> keys_decode(#[trigger] markets@[i]),
        r matches Ok(keys) ==> key_bytes(keys@) == config_keys(markets@),
        r matches Err(error) ==> is_first_invalid(markets@, error),
        r is Ok <==> forall|i: int|
            0 <= i < markets@.len() ==> decoded_pubkey((#[trigger] markets@[i]).bids_key@) is Some
                && decoded_pubkey(markets@[i].asks_key@) is Some,
        r matches Err(InvalidMarketKey::Bids { market }) ==> {
            &&& market < markets@.len()
            &&& decoded_pubkey(markets@[market as int].bids_key@) is None
            &&& forall|i: int|
                0 <= i < market ==> decoded_pubkey((#[trigger] markets@[i]).bids_key@) is Some
                    && decoded_pubkey(markets@[i].asks_key@) is Some
        },
        r matches Err(InvalidMarketKey::Asks { market }) ==> {
            &&& market < markets@.len()
            &&& decoded_pubkey(markets@[market as int].bids_key@) is Some
            &&& decoded_pubkey(markets@[market as int].asks_key@) is None
            &&& forall|i: int|
                0 <= i < market ==> decoded_pubkey((#[trigger] markets@[i]).bids_key@) is Some
                    && decoded_pubkey(markets@[i].asks_key@) is Some
        },
        r matches Ok(keys) ==> {
            &&& keys@.len() == markets@.len()
            &&& forall|i: int|
                0 <= i < keys@.len() ==> decoded_pubkey(markets@[i].bids_key@) == Some(
                    (#[trigger] keys@[i]).0@,
                ) && decoded_pubkey(markets@[i].asks_key@) == Some(keys@[i].1@)
        },
{
    let mut keys: Vec<(Pubkey, Pubkey)> = Vec::new();
    let mut i: usize = 0;
    while i < markets.len()
        invariant
            i <= markets.len(),
            forall|j: int| 0 <= j < i ==> keys_decode(#[trigger] markets@[j]),
            key_bytes(keys@) == config_keys(markets@.take(i as int)),
            keys@.len() == i,
            forall|j: int|
                0 <= j < i ==> decoded_pubkey(markets@[j].bids_key@) == Some(
                    (#[trigger] keys@[j]).0@,
                ) && decoded_pubkey(markets@[j].asks_key@) == Some(keys@[j].1@),
        decreases markets.len() - i,
    {
        let bids = match Pubkey::parse(markets[i].bids_key.as_str()) {
            Ok(key) => key,
            Err(_) => {
                assert(!keys_decode(markets@[i as int]));
                return Err(InvalidMarketKey::Bids { market: i });
            },
        };
        let asks = match Pubkey::parse(markets[i].asks_key.as_str()) {
            Ok(key) => key,
            Err(_) => {
                assert(!keys_decode(markets@[i as int]));
                return Err(InvalidMarketKey::Asks { market: i });
            },
        };
        proof {
            assert(markets@.take(i as int + 1) =~= markets@.take(i as int).push(markets@[i as int]));
            assert(key_bytes(keys@.push((bids, asks))) =~= key_bytes(keys@).push((bids@, asks@)));
            assert(config_keys(markets@.take(i as int).push(markets@[i as int])) =~= config_keys(
                markets@.take(i as int),
            ).push((bids@, asks@)));
        }
        keys.push((bids, asks));
        i += 1;
    }
    proof {
        assert(markets@.take(markets@.len() as int) =~= markets@);
    }
    Ok(keys)
}

/// The accounts whose books are followed.
pub struct OrderBookSides {
    sides: Table<Pubkey, Meta>,
}

impl View for OrderBookSides {
    type V = Map<Seq<u8>, SideName>;

    closed spec fn view(&self) -> Map<Seq<u8>, SideName> {
        self.sides@.map_values(|meta: Meta| meta@)
    }
}

impl OrderBookSides {
    /// Each account stands for one side.
    pub closed spec fn wf(&self) -> bool {
        self.sides.wf()
    }

    /// The accounts of the given markets; `keys` holds each market's bids and asks.
    pub fn from_keys(markets: &Vec<MarketConfig>, keys: &Vec<(Pubkey, Pubkey)>) -> (r: Self)
        requires
            markets@.len() == keys@.len(),
        ensures
            r.wf(),
            r@ == sides_map(markets@, key_bytes(keys@)),
    {
        let mut sides: Table<Pubkey, Meta> = Table::new();
        let mut i: usize = 0;
        let ghost names = |meta: Meta| meta@;
        proof {
            assert(sides@.map_values(names) =~= sides_map(
                markets@.take(0),
                key_bytes(keys@).take(0),
            ));
        }
        while i < markets.len()
            invariant
                i <= markets.len(),
                markets@.len() == keys@.len(),
                sides.wf(),
                names == (|meta: Meta| meta@),
                sides@.map_values(names) == sides_map(
                    markets@.take(i as int),
                    key_bytes(keys@).take(i as int),
                ),
            decreases markets.len() - i,
        {
            let ghost before = sides@;
            let bids = Meta { market: markets[i].name.clone(), side: "bids".to_owned() };
            let asks = Meta { market: markets[i].name.clone(), side: "asks".to_owned() };
            sides.insert(keys[i].0, bids);
            sides.insert(keys[i].1, asks);
            proof {
                assert(markets@.take(i as int + 1).drop_last() =~= markets@.take(i as int));
                assert(key_bytes(keys@).take(i as int + 1).drop_last() =~= key_bytes(keys@).take(
                    i as int,
                ));
                assert(sides@.map_values(names) =~= before.map_values(names).insert(
                    keys@[i as int].0@,
                    bids@,
                ).insert(keys@[i as int].1@, asks@));
            }
            i += 1;
        }
        proof {
            assert(markets@.take(markets@.len() as int) =~= markets@);
            assert(key_bytes(keys@).take(markets@.len() as int) =~= key_bytes(keys@));
        }
        OrderBookSides { sides }
    }

    /// The accounts of the markets of a configuration, or the first key in it that is
    /// none.
    pub fn new(markets: &Vec<MarketConfig>) -> (r: Result<Self, InvalidMarketKey>)
        ensures
            r is Ok <==> forall|i: int|
                0 <= i < markets@.len() ==> keys_decode(#[trigger] markets@[i]),
            r matches Ok(sides) ==> sides.wf() && sides@ == sides_map(
                markets@,
                config_keys(markets@),
            ),
            r matches Err(error) ==> is_first_invalid(markets@, error),
            r is Ok <==> forall|i: int|
                0 <= i < markets@.len() ==> decoded_pubkey((#[trigger] markets@[i]).bids_key@) is Some
                    && decoded_pubkey(markets@[i].asks_key@) is Some,
            r matches Err(InvalidMarketKey::Bids { market }) ==> {
                &&& market < markets@.len()
                &&& decoded_pubkey(markets@[market as int].bids_key@) is None
                &&& forall|i: int|
                    0 <= i < market ==> decoded_pubkey((#[trigger] markets@[i]).bids_key@) is Some
                        && decoded_pubkey(markets@[i].asks_key@) is Some
            },
            r matches Err(InvalidMarketKey::Asks { market }) ==> {
                &&& market < markets@.len()
                &&& decoded_pubkey(markets@[market as int].bids_key@) is Some
                &&& decoded_pubkey(markets@[market as int].asks_key@) is None
                &&& forall|i: int|
                    0 <= i < market ==> decoded_pubkey((#[trigger] markets@[i]).bids_key@) is Some
                        && decoded_pubkey(markets@[i].asks_key@) is Some
            },
    {
        match parse_market_keys(markets) {
            Ok(keys) => {
                proof {
                    assert(key_bytes(keys@).len() == config_keys(markets@).len());
                }
                Ok(OrderBookSides::from_keys(markets, &keys))
            },
            Err(error) => Err(error),
        }
    }

    /// The side that an account holds, if it is followed.
    pub fn meta(&self, pk: &Pubkey) -> (r: Option<&Meta>)
        requires
            self.wf(),
        ensures
            match r {
                Some(meta) => self@.dom().contains(pk@) && meta@ == self@[pk@],
                None => !self@.dom().contains(pk@),
            },
    {
        self.sides.get(pk)
    }
}

/// The keys of a configuration are those that its texts spell, in their order, and they
/// can be read exactly where each text spells one.
pub proof fn law_keys_are_those_of_the_texts(
    markets: Seq<MarketConfig>,
    keys: Seq<(Pubkey, Pubkey)>,
    i: int,
)
    requires
        0 <= i < markets.len(),
        0 <= i < keys.len(),
    ensures
        config_keys(markets).len() == markets.len(),
        keys_decode(markets[i]) <==> decoded_pubkey(markets[i].bids_key@) is Some
            && decoded_pubkey(markets[i].asks_key@) is Some,
        keys_decode(markets[i]) ==> decoded_pubkey(markets[i].bids_key@) == Some(
            config_keys(markets)[i].0,
        ) && decoded_pubkey(markets[i].asks_key@) == Some(config_keys(markets)[i].1),
        key_bytes(keys).len() == keys.len(),
        key_bytes(keys)[i] == (keys[i].0@, keys[i].1@),
{
}

/// The key that an error names cannot be read, and all keys before it can.
pub proof fn law_errors_name_the_first_bad_key(
    markets: Seq<MarketConfig>,
    error: InvalidMarketKey,
)
    ensures
        is_first_invalid(markets, error) <==> ({
            let place = match error {
                InvalidMarketKey::Bids { market } => market as int,
                InvalidMarketKey::Asks { market } => market as int,
            };
            &&& place < markets.len()
            &&& error is Bids <==> decoded_pubkey(markets[place].bids_key@) is None
            &&& error is Asks ==> decoded_pubkey(markets[place].asks_key@) is None
            &&& forall|i: int|
                0 <= i < place ==> decoded_pubkey((#[trigger] markets[i]).bids_key@) is Some
                    && decoded_pubkey(markets[i].asks_key@) is Some
        }),
{
    let place = match error {
        InvalidMarketKey::Bids { market } => market as int,
        InvalidMarketKey::Asks { market } => market as int,
    };
    assert(forall|i: int|
        0 <= i < place ==> (keys_decode(#[trigger] markets[i]) <==> decoded_pubkey(
            markets[i].bids_key@,
        ) is Some && decoded_pubkey(markets[i].asks_key@) is Some));
}

/// The name of a side is that of its market, and of the side itself.
pub proof fn law_metas_name_market_and_side(meta: Meta)
    ensures
        meta@.market == meta.market@,
        meta@.side == meta.side@,
{
}

/// Each side of each market is followed under its name, as long as the market's two
/// accounts differ and no later market names the account again.
pub proof fn law_each_side_is_followed(
    markets: Seq<MarketConfig>,
    keys: Seq<(Seq<u8>, Seq<u8>)>,
    i: int,
)
    requires
        markets.len() == keys.len(),
        0 <= i < markets.len(),
    ensures
        ({
            let (bids, asks) = keys[i];
            let sides = sides_map(markets, keys);
            &&& bids != asks && (forall|j: int|
                i < j < keys.len() ==> (#[trigger] keys[j]).0 != bids && keys[j].1 != bids)
                ==> sides.dom().contains(bids) && sides[bids] == (SideName {
                market: markets[i].name@,
                side: "bids"@,
            })
            &&& (forall|j: int|
                i < j < keys.len() ==> (#[trigger] keys[j]).0 != asks && keys[j].1 != asks)
                ==> sides.dom().contains(asks) && sides[asks] == (SideName {
                market: markets[i].name@,
                side: "asks"@,
            })
        }),
    decreases markets.len(),
{
    if i < markets.len() - 1 {
        let fewer = keys.drop_last();
        law_each_side_is_followed(markets.drop_last(), fewer, i);
        assert(forall|j: int| 0 <= j < fewer.len() ==> (#[trigger] fewer[j]) == keys[j]);
        assert(keys.last() == keys[keys.len() - 1]);
    }
}

/// Only accounts that the configuration names are followed.
pub proof fn law_only_named_accounts_are_followed(
    markets: Seq<MarketConfig>,
    keys: Seq<(Seq<u8>, Seq<u8>)>,
    account: Seq<u8>,
)
    requires
        markets.len() == keys.len(),
        sides_map(markets, keys).dom().contains(account),
    ensures
        exists|i: int|
            0 <= i < keys.len() && ((#[trigger] keys[i]).0 == account || keys[i].1 == account),
    decreases markets.len(),
{
    if markets.len() > 0 {
        let fewer = keys.drop_last();
        if keys.last().0 == account || keys.last().1 == account {
            assert(keys[keys.len() - 1] == keys.last());
        } else {
            law_only_named_accounts_are_followed(markets.drop_last(), fewer, account);
            let i = choose|i: int|
                0 <= i < fewer.len() && ((#[trigger] fewer[i]).0 == account || fewer[i].1
                    == account);
            assert(keys[i] == fewer[i]);
        }
    }
}

} // verus!
