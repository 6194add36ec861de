//! The ledger-entry model: outputs locking value to an owner digest, inputs
//! referencing prior outputs, and the transaction that bundles them.

use vstd::prelude::*;
use vstd::slice::{slice_subrange, slice_to_vec};
use crate::utils::{base58_decode, bs58_decoded, sha256_digest, sha256_of};
use crate::codec::{enc_tx, encode_transaction};

verus! {

/// Reference to one prior output: which transaction, which output index,
/// and the material that would authorize the spend. The distinguished
/// coinbase input leaves every byte string empty and references nothing.
pub struct TXInput {
    pub txid: Vec<u8>,
    pub vout: usize,
    pub signature: Vec<u8>,
    pub pub_key: Vec<u8>,
}

/// A claim on `value` units, spendable by whoever holds the key matching
/// `pub_key_hash`.
pub struct TXOutput {
    pub value: i32,
    pub pub_key_hash: Vec<u8>,
}

/// A ledger entry: an identifier, the inputs it spends, and the outputs it
/// creates.
pub struct Transaction {
    pub id: Vec<u8>,
    pub vin: Vec<TXInput>,
    pub vout: Vec<TXOutput>,
}

/// The mathematical value of an input.
#[verifier::ext_equal]
pub struct TXInputV {
    pub txid: Seq<u8>,
    pub vout: int,
    pub signature: Seq<u8>,
    pub pub_key: Seq<u8>,
}

/// The mathematical value of an output.
#[verifier::ext_equal]
pub struct TXOutputV {
    pub value: int,
    pub pub_key_hash: Seq<u8>,
}

/// The mathematical value of a transaction.
#[verifier::ext_equal]
pub struct TransactionV {
    pub id: Seq<u8>,
    pub vin: Seq<TXInputV>,
    pub vout: Seq<TXOutputV>,
}

impl View for TXInput {
    type V = TXInputV;

    open spec fn view(&self) -> TXInputV {
        TXInputV {
            txid: self.txid@,
            vout: self.vout as int,
            signature: self.signature@,
            pub_key: self.pub_key@,
        }
    }
}

impl DeepView for TXInput {
    type V = TXInputV;

    open spec fn deep_view(&self) -> TXInputV {
        self.view()
    }
}

impl View for TXOutput {
    type V = TXOutputV;

    open spec fn view(&self) -> TXOutputV {
        TXOutputV { value: self.value as int, pub_key_hash: self.pub_key_hash@ }
    }
}

impl DeepView for TXOutput {
    type V = TXOutputV;

    open spec fn deep_view(&self) -> TXOutputV {
        self.view()
    }
}

impl View for Transaction {
    type V = TransactionV;

    open spec fn view(&self) -> TransactionV {
        TransactionV { id: self.id@, vin: self.vin.deep_view(), vout: self.vout.deep_view() }
    }
}

impl DeepView for Transaction {
    type V = TransactionV;

    open spec fn deep_view(&self) -> TransactionV {
        self.view()
    }
}

impl Clone for TXInput {
    fn clone(&self) -> (r: Self)
        ensures
            r@ == self@,
    {
        TXInput {
            txid: clone_bytes(&self.txid),
            vout: self.vout,
            signature: clone_bytes(&self.signature),
            pub_key: clone_bytes(&self.pub_key),
        }
    }
}

impl Clone for TXOutput {
    fn clone(&self) -> (r: Self)
        ensures
            r@ == self@,
    {
        TXOutput { value: self.value, pub_key_hash: clone_bytes(&self.pub_key_hash) }
    }
}

impl Clone for Transaction {
    fn clone(&self) -> (r: Self)
        ensures
            r@ == self@,
    {
        let mut vin: Vec<TXInput> = Vec::new();
        let mut i: usize = 0;
        while i < self.vin.len()
            invariant
                i <= self.vin@.len(),
                vin@.len() == i,
                forall|k: int| 0 <= k < i ==> #[trigger] vin@[k]@ == self.vin@[k]@,
            decreases self.vin@.len() - i,
        {
            vin.push(self.vin[i].clone());
            i = i + 1;
        }
        let mut vout: Vec<TXOutput> = Vec::new();
        let mut j: usize = 0;
        while j < self.vout.len()
            invariant
                j <= self.vout@.len(),
                vout@.len() == j,
                forall|k: int| 0 <= k < j ==> #[trigger] vout@[k]@ == self.vout@[k]@,
            decreases self.vout@.len() - j,
        {
            vout.push(self.vout[j].clone());
            j = j + 1;
        }
        proof {
            assert forall|k: int| 0 <= k < vin.deep_view().len() implies vin.deep_view()[k]
                == self.vin.deep_view()[k] by {
                assert(vin@[k]@ == self.vin@[k]@);
            }
            assert forall|k: int| 0 <= k < vout.deep_view().len() implies vout.deep_view()[k]
                == self.vout.deep_view()[k] by {
                assert(vout@[k]@ == self.vout@[k]@);
            }
            assert(vin.deep_view() =~= self.vin.deep_view());
            assert(vout.deep_view() =~= self.vout.deep_view());
        }
        Transaction { id: clone_bytes(&self.id), vin, vout }
    }
}

/// Clones a byte vector, keeping its contents.
pub fn clone_bytes(v: &Vec<u8>) -> (r: Vec<u8>)
    ensures
        r@ == v@,
{
    let r = v.clone();
    proof {
        assert(r@ =~= v@);
    }
    r
}

/// Decides whether two byte strings hold the same bytes.
pub fn bytes_eq(a: &[u8], b: &[u8]) -> (r: bool)
    ensures
        r == (a@ == b@),
{
    if a.len() != b.len() {
        return false;
    }
    let mut i: usize = 0;
    while i < a.len()
        invariant
            i <= a@.len(),
            a@.len() == b@.len(),
            forall|k: int| 0 <= k < i ==> a@[k] == b@[k],
        decreases a@.len() - i,
    {
        if a[i] != b[i] {
            return false;
        }
        i = i + 1;
    }
    proof {
        assert(a@ =~= b@);
    }
    true
}

impl Default for TXInput {
    /// The distinguished coinbase input: empty byte strings, index zero.
    fn default() -> (r: Self)
        ensures
            r@.txid == Seq::<u8>::empty(),
            r@.vout == 0,
            r@.signature == Seq::<u8>::empty(),
            r@.pub_key == Seq::<u8>::empty(),
    {
        let r = TXInput { txid: Vec::new(), vout: 0, signature: Vec::new(), pub_key: Vec::new() };
        proof {
            assert(r.txid@ =~= Seq::<u8>::empty());
            assert(r.signature@ =~= Seq::<u8>::empty());
            assert(r.pub_key@ =~= Seq::<u8>::empty());
        }
        r
    }
}

impl TXInput {
    /// The id of the transaction whose output this input spends.
    pub fn get_txid(&self) -> (r: &[u8])
        ensures
            r@ == self@.txid,
    {
        self.txid.as_slice()
    }

    /// The index of the spent output within that transaction.
    pub fn get_vout(&self) -> (r: usize)
        ensures
            r as int == self@.vout,
    {
        self.vout
    }
}

/// The owner digest carried by a checksummed address: everything strictly
/// between the version byte and the four checksum bytes.
pub open spec fn spec_address_digest(decoded: Seq<u8>) -> Seq<u8> {
    decoded.subrange(1, decoded.len() - 4)
}

/// Whether a string decodes as base58 to a payload long enough to carry a
/// version byte, a digest, and a four-byte checksum.
pub open spec fn spec_address_ok(address: Seq<char>) -> bool {
    &&& bs58_decoded(address) is Some
    &&& bs58_decoded(address)->0.len() >= 5
}

impl TXOutput {
    /// Builds an output of `value` units locked to the owner digest carried
    /// by `address`; `None` where the address does not decode.
    pub fn new(value: i32, address: &str) -> (r: Option<TXOutput>)
        requires
            value >= 0,
        ensures
            r is Some <==> spec_address_ok(address@),
            r is Some ==> r->0@.value == value,
            r is Some ==> r->0@.pub_key_hash == spec_address_digest(bs58_decoded(address@)->0),
    {
        match base58_decode(address) {
            Some(decoded) => {
                if decoded.len() >= 5 {
                    let digest = slice_subrange(decoded.as_slice(), 1, decoded.len() - 4);
                    Some(TXOutput { value, pub_key_hash: slice_to_vec(digest) })
                } else {
                    None
                }
            },
            None => None,
        }
    }

    /// Whether this output is locked to the given owner digest.
    pub fn is_locked_with_key(&self, pub_key_hash: &[u8]) -> (r: bool)
        ensures
            r == (self@.pub_key_hash == pub_key_hash@),
    {
        bytes_eq(self.pub_key_hash.as_slice(), pub_key_hash)
    }

    /// The number of units this output locks.
    pub fn get_value(&self) -> (r: i32)
        ensures
            r as int == self@.value,
    {
        self.value
    }
}

/// A transaction is coinbase exactly when it has one input and that input
/// carries an empty public key.
pub open spec fn spec_is_coinbase(t: TransactionV) -> bool {
    t.vin.len() == 1 && t.vin[0].pub_key.len() == 0
}

impl Transaction {
    /// Decides coinbase-ness: one input whose public key is empty.
    pub fn is_coinbase(&self) -> (r: bool)
        ensures
            r == spec_is_coinbase(self@),
    {
        self.vin.len() == 1 && self.vin[0].pub_key.len() == 0
    }

    /// The transaction id.
    pub fn get_id(&self) -> (r: &[u8])
        ensures
            r@ == self@.id,
    {
        self.id.as_slice()
    }

    /// The outputs this transaction creates.
    pub fn get_vout(&self) -> (r: &[TXOutput])
        ensures
            r.deep_view() == self@.vout,
    {
        self.vout.as_slice()
    }

    /// The inputs this transaction spends.
    pub fn get_vin(&self) -> (r: &[TXInput])
        ensures
            r.deep_view() == self@.vin,
    {
        self.vin.as_slice()
    }
}


/// The fixed reward a coinbase transaction pays out.
pub const SUBSIDY: i32 = 10;

/// The reward transaction paying the fixed reward to the owner digest
/// carried by `to`: one distinguished coinbase input, one output, and the
/// content-digest id computed over the transaction with its id still
/// empty.
pub open spec fn spec_coinbase_tx(to: Seq<char>) -> TransactionV {
    let vin = seq![
        TXInputV {
            txid: Seq::<u8>::empty(),
            vout: 0,
            signature: Seq::<u8>::empty(),
            pub_key: Seq::<u8>::empty(),
        },
    ];
    let vout = seq![
        TXOutputV {
            value: SUBSIDY as int,
            pub_key_hash: spec_address_digest(bs58_decoded(to)->0),
        },
    ];
    TransactionV {
        id: sha256_of(enc_tx(TransactionV { id: Seq::<u8>::empty(), vin, vout })),
        vin,
        vout,
    }
}

impl Transaction {
    /// The content digest of this transaction as it currently stands.
    pub fn hash(&self) -> (r: Vec<u8>)
        ensures
            r@ == sha256_of(enc_tx(self@)),
            r@.len() == 32,
    {
        let data = encode_transaction(self);
        sha256_digest(data.as_slice())
    }

    /// Builds the reward transaction of a block: one distinguished coinbase
    /// input, one output paying the fixed reward to the owner digest carried
    /// by `to`; `None` where the address does not decode. The id is the
    /// digest of the transaction with its id still empty.
    pub fn new_coinbase_tx(to: &str) -> (r: Option<Transaction>)
        ensures
            r is Some <==> spec_address_ok(to@),
            r is Some ==> spec_is_coinbase(r->0@),
            r is Some ==> r->0@.vin[0] == (TXInputV {
                txid: Seq::<u8>::empty(),
                vout: 0,
                signature: Seq::<u8>::empty(),
                pub_key: Seq::<u8>::empty(),
            }),
            r is Some ==> r->0@.vout.len() == 1,
            r is Some ==> r->0@.vout[0].value == SUBSIDY,
            r is Some ==> r->0@.vout[0].pub_key_hash == spec_address_digest(
                bs58_decoded(to@)->0,
            ),
            r is Some ==> r->0@.id == sha256_of(
                enc_tx(
                    (TransactionV {
                        id: Seq::<u8>::empty(),
                        vin: r->0@.vin,
                        vout: r->0@.vout,
                    }),
                ),
            ),
            r is Some ==> r->0@ == spec_coinbase_tx(to@),
    {
        let txout = match TXOutput::new(SUBSIDY, to) {
            Some(o) => o,
            None => {
                return None;
            },
        };
        let tx_input = TXInput::default();
        let mut tx = Transaction { id: Vec::new(), vin: vec![tx_input], vout: vec![txout] };
        proof {
            assert(tx.id@ =~= Seq::<u8>::empty());
        }
        let id = tx.hash();
        let ghost pre_view = tx@;
        tx.id = id;
        proof {
            assert(pre_view =~= (TransactionV {
                id: Seq::<u8>::empty(),
                vin: tx@.vin,
                vout: tx@.vout,
            }));
            let sc = spec_coinbase_tx(to@);
            assert(tx@.vin =~= sc.vin);
            assert(tx@.vout =~= sc.vout);
            assert(pre_view =~= (TransactionV { id: Seq::<u8>::empty(), vin: sc.vin, vout: sc.vout }));
            assert(tx@ =~= sc);
        }
        Some(tx)
    }
}

} // verus!
