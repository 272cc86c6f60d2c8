//! Public keys: their bytes, their order, and their base58 text.
use std::str::FromStr;

use vstd::prelude::*;

use crate::table::TableKey;

verus! {

/// The address of an account on chain.
#[derive(Clone, Copy, Debug, PartialEq, Eq)]
pub struct Pubkey {
    pub bytes: [u8; 32],
}

impl View for Pubkey {
    type V = Seq<u8>;

    open spec fn view(&self) -> Seq<u8> {
        self.bytes@
    }
}

/// A text that is not the base58 form of a public key.
#[derive(Clone, Copy, Debug, PartialEq, Eq, Structural)]
pub struct InvalidPubkey;

/// How one key stands to another in the byte order.
#[derive(Clone, Copy, Debug, PartialEq, Eq, Structural)]
pub enum KeyOrder {
    Before,
    Same,
    After,
}

/// Whether `a` comes before `b` when both are read from the first byte on:
/// at the first place where they differ, `a` holds the smaller byte.
pub open spec fn bytes_before(a: Seq<u8>, b: Seq<u8>) -> bool {
    exists|k: int| #[trigger] first_difference(a, b, k) && a[k] < b[k]
}

/// `k` is the first place at which `a` and `b` differ.
pub open spec fn first_difference(a: Seq<u8>, b: Seq<u8>, k: int) -> bool {
    &&& 0 <= k < a.len()
    &&& k < b.len()
    &&& a[k] != b[k]
    &&& forall|j: int| 0 <= j < k ==> a[j] == b[j]
}

/// The keys stand in ascending byte order, and none occurs twice.
pub open spec fn strictly_ascending(keys: Seq<Pubkey>) -> bool {
    forall|i: int, j: int| 0 <= i < j < keys.len() ==> bytes_before(#[trigger] keys[i]@, #[trigger] keys[j]@)
}

/// Two keys with the same bytes are the same key.
proof fn lemma_same_bytes(a: Pubkey, b: Pubkey)
    requires
        a@ == b@,
    ensures
        a == b,
{
    assert forall|i: int| 0 <= i < 32 implies a.bytes[i] == b.bytes[i] by {
        assert(a@[i] == b@[i]);
    }
    assert(a.bytes =~= b.bytes);
}

/// A key comes before another exactly where some byte of it is smaller and all bytes
/// before that are equal.
pub proof fn law_bytes_decide_from_the_first_on(a: Pubkey, b: Pubkey)
    ensures
        a@.len() == 32,
        forall|i: int| 0 <= i < 32 ==> a@[i] == (#[trigger] a.bytes@[i]),
        bytes_before(a@, b@) <==> exists|k: int|
            0 <= k < 32 && (#[trigger] a.bytes@[k]) < b.bytes@[k] && (forall|j: int|
                0 <= j < k ==> (#[trigger] a.bytes@[j]) == b.bytes@[j]),
{
    if bytes_before(a@, b@) {
        let k = choose|k: int| #[trigger] first_difference(a@, b@, k) && a@[k] < b@[k];
        assert(a.bytes@[k] < b.bytes@[k]);
        assert(forall|j: int| 0 <= j < k ==> (#[trigger] a.bytes@[j]) == b.bytes@[j]);
    }
    if exists|k: int|
        0 <= k < 32 && (#[trigger] a.bytes@[k]) < b.bytes@[k] && (forall|j: int|
            0 <= j < k ==> (#[trigger] a.bytes@[j]) == b.bytes@[j]) {
        let k = choose|k: int|
            0 <= k < 32 && (#[trigger] a.bytes@[k]) < b.bytes@[k] && (forall|j: int|
                0 <= j < k ==> (#[trigger] a.bytes@[j]) == b.bytes@[j]);
        assert(first_difference(a@, b@, k));
    }
}

/// Keys ascend exactly where each comes before every later one.
pub proof fn law_ascending_keys_come_before_later_ones(keys: Seq<Pubkey>)
    ensures
        strictly_ascending(keys) <==> forall|i: int, j: int|
            0 <= i < j < keys.len() ==> bytes_before(
                #[trigger] keys[i].bytes@,
                #[trigger] keys[j].bytes@,
            ),
{
    if strictly_ascending(keys) {
        assert forall|i: int, j: int| 0 <= i < j < keys.len() implies bytes_before(
            #[trigger] keys[i].bytes@,
            #[trigger] keys[j].bytes@,
        ) by {
            assert(bytes_before(keys[i]@, keys[j]@));
        }
    }
}

/// No key comes before itself.
pub proof fn lemma_before_irreflexive(a: Seq<u8>)
    ensures
        !bytes_before(a, a),
{
}

/// The byte order is transitive.
pub proof fn lemma_before_transitive(a: Seq<u8>, b: Seq<u8>, c: Seq<u8>)
    requires
        bytes_before(a, b),
        bytes_before(b, c),
    ensures
        bytes_before(a, c),
{
    let k = choose|k: int| #[trigger] first_difference(a, b, k) && a[k] < b[k];
    let m = choose|m: int| #[trigger] first_difference(b, c, m) && b[m] < c[m];
    if k <= m {
        assert(first_difference(a, c, k));
    } else {
        assert(first_difference(a, c, m));
    }
}

impl TableKey for Pubkey {
    fn same(&self, other: &Pubkey) -> (r: bool) {
        proof {
            if self@ == other@ {
                lemma_same_bytes(*self, *other);
            }
        }
        matches!(self.relation(other), KeyOrder::Same)
    }
}

impl Pubkey {
    /// How this key stands to `other` in the byte order.
    pub fn relation(&self, other: &Pubkey) -> (r: KeyOrder)
        ensures
            r is Before <==> bytes_before(self@, other@),
            r is Same <==> *self == *other,
            r is After <==> bytes_before(other@, self@),
            r is Before <==> exists|k: int|
                0 <= k < 32 && (#[trigger] self.bytes@[k]) < other.bytes@[k] && (forall|j: int|
                    0 <= j < k ==> (#[trigger] self.bytes@[j]) == other.bytes@[j]),
    {
        proof {
            law_bytes_decide_from_the_first_on(*self, *other);
        }
        let mut i: usize = 0;
        while i < 32
            invariant
                i <= 32,
                forall|j: int| 0 <= j < i ==> self@[j] == other@[j],
            decreases 32 - i,
        {
            let mine = self.bytes[i];
            let theirs = other.bytes[i];
            if mine != theirs {
                proof {
                    assert(first_difference(self@, other@, i as int));
                    assert(first_difference(other@, self@, i as int));
                    if bytes_before(self@, other@) && bytes_before(other@, self@) {
                        lemma_before_transitive(self@, other@, self@);
                        lemma_before_irreflexive(self@);
                    }
                    lemma_before_irreflexive(self@);
                }
                if mine < theirs {
                    return KeyOrder::Before;
                }
                return KeyOrder::After;
            }
            i += 1;
        }
        proof {
            assert(self@ =~= other@);
            lemma_same_bytes(*self, *other);
            lemma_before_irreflexive(self@);
        }
        KeyOrder::Same
    }

    /// The key that `text` spells in base58, as keys are written in configurations.
    pub fn parse(text: &str) -> (r: Result<Pubkey, InvalidPubkey>)
        ensures
            r is Ok <==> decoded_pubkey(text@) is Some,
            r matches Ok(key) ==> decoded_pubkey(text@) == Some(key@),
    {
        match decode_pubkey(text) {
            Ok(bytes) => Ok(Pubkey { bytes }),
            Err(_) => Err(InvalidPubkey),
        }
    }

    /// The base58 text of this key.
    pub fn to_text(&self) -> (r: String)
        ensures
            r@ == encoded_pubkey(self@),
            decoded_pubkey(r@) == Some(self@),
    {
        encode_pubkey(self.bytes)
    }
}

/// The error of `solana_sdk::pubkey::Pubkey::from_str`.
#[verifier::external_type_specification]
#[verifier::external_body]
pub struct ExParsePubkeyError(solana_sdk::pubkey::ParsePubkeyError);

/// The bytes of the key that `solana_sdk::pubkey::Pubkey::from_str` reads from a
/// text, where it reads one.
pub uninterp spec fn decoded_pubkey(text: Seq<char>) -> Option<Seq<u8>>;

/// The text that `solana_sdk::pubkey::Pubkey` displays for the given bytes.
pub uninterp spec fn encoded_pubkey(bytes: Seq<u8>) -> Seq<char>;

/// Calls `solana_sdk::pubkey::Pubkey::from_str`. It is trusted to be a function of
/// the text: it succeeds exactly on the texts that stand for a key, and then gives
/// that key's bytes. Which of its two errors comes otherwise is left open.
#[verifier::external_body]
fn decode_pubkey(text: &str) -> (r: Result<[u8; 32], solana_sdk::pubkey::ParsePubkeyError>)
    ensures
        r is Ok <==> decoded_pubkey(text@) is Some,
        r matches Ok(bytes) ==> decoded_pubkey(text@) == Some(bytes@),
{
    solana_sdk::pubkey::Pubkey::from_str(text).map(|key| key.to_bytes())
}

/// Calls the `to_string` of `solana_sdk::pubkey::Pubkey`. It is trusted to be a
/// function of the key's bytes, and to write a text from which `from_str` reads the
/// same bytes back.
#[verifier::external_body]
fn encode_pubkey(bytes: [u8; 32]) -> (r: String)
    ensures
        r@ == encoded_pubkey(bytes@),
        decoded_pubkey(r@) == Some(bytes@),
{
    solana_sdk::pubkey::Pubkey::new_from_array(bytes).to_string()
}

} // verus!
