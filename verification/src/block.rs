//! The block model: a sealed batch of transactions, hash-linked to its
//! parent, together with the proof-of-work sealing algorithm.

use vstd::prelude::*;
use vstd::arithmetic::power2::{pow2, lemma_pow2_adds, lemma_pow2_pos, lemma2_to64};
use crate::codec::{ascii_bytes, be64, enc_block, spec_decode_block, encode_block, decode_block,
    u64_of_i64, lemma_exec_u64_of_i64, append_bytes, write_u64, lemma_exec_block_wf};
use crate::transaction::{Transaction, TransactionV};
use crate::utils::{sha256_digest, sha256_of, hex_encode, spec_hex_encode, lemma_hex_encode_shape};

verus! {

/// One sealed block of the chain. `hash` and `nonce` are produced by the
/// sealing algorithm and never change afterwards; `height` is the block's
/// index in the chain.
pub struct Block {
    pub timestamp: u64,
    pub pre_block_hash: String,
    pub hash: String,
    pub transactions: Vec<Transaction>,
    pub nonce: i64,
    pub height: usize,
}

/// The mathematical value of a block.
#[verifier::ext_equal]
pub struct BlockV {
    pub timestamp: int,
    pub pre_block_hash: Seq<char>,
    pub hash: Seq<char>,
    pub transactions: Seq<TransactionV>,
    pub nonce: int,
    pub height: int,
}

impl View for Block {
    type V = BlockV;

    open spec fn view(&self) -> BlockV {
        BlockV {
            timestamp: self.timestamp as int,
            pre_block_hash: self.pre_block_hash@,
            hash: self.hash@,
            transactions: self.transactions.deep_view(),
            nonce: self.nonce as int,
            height: self.height as int,
        }
    }
}

impl DeepView for Block {
    type V = BlockV;

    open spec fn deep_view(&self) -> BlockV {
        self.view()
    }
}

impl Clone for Block {
    fn clone(&self) -> (r: Self)
        ensures
            r@ == self@,
    {
        let mut transactions: Vec<Transaction> = Vec::new();
        let mut i: usize = 0;
        while i < self.transactions.len()
            invariant
                i <= self.transactions@.len(),
                transactions@.len() == i,
                forall|k: int|
                    0 <= k < i ==> #[trigger] transactions@[k]@ == self.transactions@[k]@,
            decreases self.transactions@.len() - i,
        {
            transactions.push(self.transactions[i].clone());
            i = i + 1;
        }
        let r = Block {
            timestamp: self.timestamp,
            pre_block_hash: self.pre_block_hash.clone(),
            hash: self.hash.clone(),
            transactions,
            nonce: self.nonce,
            height: self.height,
        };
        proof {
            assert forall|k: int| 0 <= k < r.transactions.deep_view().len() implies
                r.transactions.deep_view()[k] == self.transactions.deep_view()[k] by {
                assert(r.transactions@[k]@ == self.transactions@[k]@);
            }
            assert(r.transactions.deep_view() =~= self.transactions.deep_view());
            assert(r@ =~= self@);
        }
        r
    }
}

impl Block {
    /// The moment the block records; this chain fixes it at zero.
    pub fn get_timestamp(&self) -> (r: u64)
        ensures
            r as int == self@.timestamp,
    {
        self.timestamp
    }

    /// The display-form hash of the parent block.
    pub fn get_pre_block_hash(&self) -> (r: String)
        ensures
            r@ == self@.pre_block_hash,
    {
        self.pre_block_hash.clone()
    }

    /// The display-form hash of this block.
    pub fn get_hash(&self) -> (r: &str)
        ensures
            r@ == self@.hash,
    {
        self.hash.as_str()
    }

    /// The block's index in the chain.
    pub fn get_height(&self) -> (r: usize)
        ensures
            r as int == self@.height,
    {
        self.height
    }

    /// The transactions the block seals.
    pub fn get_transactions(&self) -> (r: &[Transaction])
        ensures
            r.deep_view() == self@.transactions,
    {
        self.transactions.as_slice()
    }
}


/// The fixed difficulty of the sealing algorithm: how many leading zero
/// bits a block hash must carry.
pub const DIFFICULTY: usize = 2;

/// The big-endian unsigned integer value of a byte string.
pub open spec fn be_value(s: Seq<u8>) -> nat
    decreases s.len(),
{
    if s.len() == 0 {
        0
    } else {
        (s[0] as nat) * pow2((8 * (s.len() - 1)) as nat) + be_value(s.skip(1))
    }
}

pub proof fn lemma_be_value_bound(s: Seq<u8>)
    ensures
        be_value(s) < pow2((8 * s.len()) as nat),
    decreases s.len(),
{
    if s.len() == 0 {
        lemma_pow2_pos(0);
    } else {
        let p = pow2((8 * (s.len() - 1)) as nat);
        lemma_be_value_bound(s.skip(1));
        lemma_pow2_adds(8, (8 * (s.len() - 1)) as nat);
        lemma2_to64();
        assert((s[0] as nat) * p <= 255 * p) by (nonlinear_arith)
            requires
                s[0] <= 255,
                p > 0,
        ;
        assert(255 * p + p == 256 * p) by (nonlinear_arith);
    }
}

/// The concatenated ids of a transaction list, in list order.
pub open spec fn spec_txs_ids(txs: Seq<TransactionV>) -> Seq<u8>
    decreases txs.len(),
{
    if txs.len() == 0 {
        Seq::empty()
    } else {
        txs[0].id + spec_txs_ids(txs.skip(1))
    }
}

proof fn lemma_txs_ids_concat(a: Seq<TransactionV>, b: Seq<TransactionV>)
    ensures
        spec_txs_ids(a + b) == spec_txs_ids(a) + spec_txs_ids(b),
    decreases a.len(),
{
    if a.len() == 0 {
        assert(a + b =~= b);
        assert(spec_txs_ids(a) + spec_txs_ids(b) =~= spec_txs_ids(b));
    } else {
        lemma_txs_ids_concat(a.skip(1), b);
        assert((a + b).skip(1) =~= a.skip(1) + b);
        assert((a + b)[0] == a[0]);
        assert(a[0].id + (spec_txs_ids(a.skip(1)) + spec_txs_ids(b)) =~= (a[0].id + spec_txs_ids(
            a.skip(1),
        )) + spec_txs_ids(b));
    }
}

proof fn lemma_txs_ids_snoc(s: Seq<TransactionV>, j: int)
    requires
        0 <= j < s.len(),
    ensures
        spec_txs_ids(s.take(j + 1)) == spec_txs_ids(s.take(j)) + s[j].id,
{
    assert(s.take(j + 1) =~= s.take(j) + seq![s[j]]);
    lemma_txs_ids_concat(s.take(j), seq![s[j]]);
    let one = seq![s[j]];
    assert(one.skip(1) =~= Seq::<TransactionV>::empty());
    assert(spec_txs_ids(one) =~= one[0].id + spec_txs_ids(one.skip(1)));
    assert(spec_txs_ids(one) =~= s[j].id);
}

/// The bytes the sealing algorithm digests for one nonce: parent hash,
/// transactions-root digest, timestamp, difficulty, nonce.
pub open spec fn pow_input_of(b: BlockV, nonce: int) -> Seq<u8> {
    ascii_bytes(b.pre_block_hash) + sha256_of(spec_txs_ids(b.transactions)) + be64(
        b.timestamp as u64,
    ) + be64(DIFFICULTY as u64) + be64(u64_of_i64(nonce))
}

/// The candidate digest for one nonce.
pub open spec fn pow_hash_of(b: BlockV, nonce: int) -> Seq<u8> {
    sha256_of(pow_input_of(b, nonce))
}

/// Whether the candidate digest for one nonce falls below the difficulty
/// target `2^(256 - DIFFICULTY)`.
pub open spec fn pow_met(b: BlockV, nonce: int) -> bool {
    be_value(pow_hash_of(b, nonce)) < pow2((256 - DIFFICULTY) as nat)
}

/// The unsealed candidate over a parent hash, transactions, and height,
/// as the sealing callers build it: timestamp fixed at zero, hash empty,
/// nonce zero.
pub open spec fn unsealed_candidate(pre: Seq<char>, txs: Seq<TransactionV>, height: int) -> BlockV {
    BlockV {
        timestamp: 0,
        pre_block_hash: pre,
        hash: Seq::<char>::empty(),
        transactions: txs,
        nonce: 0,
        height,
    }
}

/// Whether any nonce in the search range seals the candidate.
pub open spec fn seal_possible(b: BlockV) -> bool {
    exists|j: int| 0 <= j <= i64::MAX && #[trigger] pow_met(b, j)
}

/// The nonce the search returns where sealing is possible: the smallest
/// nonce in range that meets the target.
pub open spec fn spec_sealing_nonce(b: BlockV) -> int {
    choose|n: int|
        0 <= n <= i64::MAX && #[trigger] pow_met(b, n) && (forall|k: int|
            0 <= k < n ==> !pow_met(b, k))
}

/// The display-form hash the search produces where sealing is possible.
pub open spec fn spec_sealed_hash(b: BlockV) -> Seq<char> {
    crate::utils::spec_hex_encode(pow_hash_of(b, spec_sealing_nonce(b)))
}

proof fn lemma_minimal_sealing_nonce(b: BlockV, j: int)
    requires
        0 <= j <= i64::MAX,
        pow_met(b, j),
    ensures
        exists|n: int|
            0 <= n <= i64::MAX && #[trigger] pow_met(b, n) && (forall|k: int|
                0 <= k < n ==> !pow_met(b, k)),
    decreases j,
{
    if forall|k: int| 0 <= k < j ==> !pow_met(b, k) {
        assert(pow_met(b, j) && (forall|k: int| 0 <= k < j ==> !pow_met(b, k)));
    } else {
        let k0 = choose|k: int| 0 <= k < j && #[trigger] pow_met(b, k);
        lemma_minimal_sealing_nonce(b, k0);
    }
}

/// Where sealing is possible, `spec_sealing_nonce` names the one smallest
/// sealing nonce in range.
pub proof fn lemma_sealing_nonce(b: BlockV)
    requires
        seal_possible(b),
    ensures
        0 <= spec_sealing_nonce(b) <= i64::MAX,
        pow_met(b, spec_sealing_nonce(b)),
        forall|k: int| 0 <= k < spec_sealing_nonce(b) ==> !pow_met(b, k),
{
    let j0 = choose|j: int| 0 <= j <= i64::MAX && #[trigger] pow_met(b, j);
    lemma_minimal_sealing_nonce(b, j0);
}

/// Any nonce in range that meets the target below which none does is the
/// sealing nonce.
pub proof fn lemma_sealing_nonce_unique(b: BlockV, n1: int)
    requires
        0 <= n1 <= i64::MAX,
        pow_met(b, n1),
        forall|k: int| 0 <= k < n1 ==> !pow_met(b, k),
    ensures
        spec_sealing_nonce(b) == n1,
{
    assert(seal_possible(b));
    lemma_sealing_nonce(b);
    let n = spec_sealing_nonce(b);
    if n < n1 {
        assert(!pow_met(b, n));
        assert(false);
    }
    if n > n1 {
        assert(!pow_met(b, n1));
        assert(false);
    }
}

/// Decides whether a 32-byte digest, read as a big-endian integer, falls
/// below the difficulty target.
pub fn meets_target(hash: &[u8]) -> (r: bool)
    requires
        hash@.len() == 32,
    ensures
        r == (be_value(hash@) < pow2((256 - DIFFICULTY) as nat)),
{
    let r = hash[0] < 0x40;
    proof {
        let s = hash@;
        let tail = s.skip(1);
        let p = pow2(248);
        lemma_be_value_bound(tail);
        lemma_pow2_adds(6, 248);
        lemma2_to64();
        assert(be_value(s) == (s[0] as nat) * p + be_value(tail));
        if s[0] < 0x40 {
            assert((s[0] as nat) * p <= 63 * p) by (nonlinear_arith)
                requires
                    s[0] < 64,
                    p > 0,
            ;
            assert(63 * p + p == 64 * p) by (nonlinear_arith);
            assert(be_value(s) < 64 * p);
        } else {
            assert((s[0] as nat) * p >= 64 * p) by (nonlinear_arith)
                requires
                    s[0] >= 64,
                    p > 0,
            ;
            assert(be_value(s) >= 64 * p);
        }
        assert(64 * p == pow2(254));
    }
    r
}

/// The sealing algorithm: searches nonces from zero upward for a digest
/// below the target.
pub struct ProofOfWork {
    pub block: Block,
}

impl ProofOfWork {
    /// Wraps an unsealed candidate block for sealing.
    pub fn new(block: Block) -> (r: ProofOfWork)
        ensures
            r.block@ == block@,
    {
        ProofOfWork { block }
    }

    fn prepare_data(&self, nonce: i64) -> (r: Vec<u8>)
        requires
            vstd::utf8::is_ascii_chars(self.block@.pre_block_hash),
    ensures
            r@ == pow_input_of(self.block@, nonce as int),
    {
        let pre_block_hash = self.block.get_pre_block_hash();
        let transactions_hash = self.block.hash_transactions();
        let timestamp = self.block.get_timestamp();
        let mut data: Vec<u8> = Vec::new();
        append_bytes(&mut data, pre_block_hash.as_str().as_bytes());
        proof {
            vstd::utf8::is_ascii_chars_encode_utf8(self.block@.pre_block_hash);
            assert(data@ =~= ascii_bytes(self.block@.pre_block_hash));
        }
        append_bytes(&mut data, transactions_hash.as_slice());
        write_u64(&mut data, timestamp);
        write_u64(&mut data, DIFFICULTY as u64);
        write_u64(&mut data, nonce as u64);
        proof {
            lemma_exec_u64_of_i64(nonce);
            assert(data@ =~= pow_input_of(self.block@, nonce as int));
        }
        data
    }

    /// Searches nonces from zero upward. Returns the smallest nonce whose
    /// digest falls below the target together with the digest's display
    /// form, or `None` where no nonce in range works.
    pub fn run(&self) -> (r: Option<(i64, String)>)
        requires
            vstd::utf8::is_ascii_chars(self.block@.pre_block_hash),
        ensures
            r is Some ==> 0 <= (r->0).0 && pow_met(self.block@, (r->0).0 as int),
            r is Some ==> (r->0).1@ == spec_hex_encode(pow_hash_of(self.block@, (r->0).0 as int)),
            r is Some ==> (r->0).1@.len() == 66 && vstd::utf8::is_ascii_chars((r->0).1@),
            r is Some ==> forall|j: int| 0 <= j < (r->0).0 ==> !pow_met(self.block@, j),
            r is None ==> forall|j: int| 0 <= j <= i64::MAX ==> !pow_met(self.block@, j),
    {
        let mut nonce: i64 = 0;
        loop
            invariant
                0 <= nonce <= i64::MAX,
                vstd::utf8::is_ascii_chars(self.block@.pre_block_hash),
                forall|j: int| 0 <= j < nonce ==> !pow_met(self.block@, j),
            decreases i64::MAX - nonce,
        {
            let data = self.prepare_data(nonce);
            let hash = sha256_digest(data.as_slice());
            if meets_target(hash.as_slice()) {
                let display = hex_encode(&hash);
                proof {
                    lemma_hex_encode_shape(hash@);
                }
                return Some((nonce, display));
            }
            if nonce == i64::MAX {
                return None;
            }
            nonce = nonce + 1;
        }
    }
}

impl Block {
    /// Builds and seals a block over the given parent hash, transactions
    /// and height. `None` where no nonce in range meets the target. The
    /// sealed block's hash, read as a big-endian integer, falls below
    /// `2^(256 - DIFFICULTY)`, and the nonce is the smallest in range that
    /// achieves this, so the sealed pair is a function of the candidate.
    #[verifier::rlimit(60)]
    pub fn new(pre_block_hash: String, transactions: Vec<Transaction>, height: usize) -> (r:
        Option<Block>)
        requires
            vstd::utf8::is_ascii_chars(pre_block_hash@),
        ensures
            r is Some <==> seal_possible(
                unsealed_candidate(pre_block_hash@, transactions.deep_view(), height as int),
            ),
            r is Some ==> r->0@.timestamp == 0,
            r is Some ==> r->0@.pre_block_hash == pre_block_hash@,
            r is Some ==> r->0@.transactions == transactions.deep_view(),
            r is Some ==> r->0@.height == height as int,
            r is Some ==> 0 <= r->0@.nonce <= i64::MAX,
            r is Some ==> pow_met(r->0@, r->0@.nonce),
            r is Some ==> forall|j: int| 0 <= j < r->0@.nonce ==> !pow_met(r->0@, j),
            r is Some ==> r->0@.nonce == spec_sealing_nonce(r->0@),
            r is Some ==> r->0@.hash == spec_hex_encode(pow_hash_of(r->0@, r->0@.nonce)),
            r is Some ==> r->0@.hash == spec_sealed_hash(r->0@),
            r is Some ==> r->0@.hash.len() == 66 && vstd::utf8::is_ascii_chars(r->0@.hash),
    {
        let ghost cand = unsealed_candidate(
            pre_block_hash@,
            transactions.deep_view(),
            height as int,
        );
        let block = Block {
            timestamp: 0,
            pre_block_hash,
            hash: String::new(),
            transactions,
            nonce: 0,
            height,
        };
        proof {
            assert(block@ =~= cand);
        }
        let pow = ProofOfWork::new(block);
        let (nonce, hash) = match pow.run() {
            Some(p) => p,
            None => {
                proof {
                    assert forall|j: int| 0 <= j <= i64::MAX implies !pow_met(cand, j) by {
                        assert(!pow_met(pow.block@, j));
                    }
                }
                return None;
            },
        };
        let mut block = pow.block;
        block.hash = hash;
        block.nonce = nonce;
        proof {
            assert(pow_met(block@, block@.nonce)) by {
                assert(pow_input_of(block@, block@.nonce) =~= pow_input_of(
                    pow.block@,
                    block@.nonce,
                ));
            }
            assert forall|j: int| 0 <= j < block@.nonce implies !pow_met(block@, j) by {
                assert(pow_input_of(block@, j) =~= pow_input_of(pow.block@, j));
                assert(!pow_met(pow.block@, j));
            }
            assert(pow_met(cand, block@.nonce)) by {
                assert(pow_input_of(cand, block@.nonce) =~= pow_input_of(
                    pow.block@,
                    block@.nonce,
                ));
            }
            assert(seal_possible(cand));
            lemma_sealing_nonce_unique(block@, block@.nonce);
        }
        Some(block)
    }

    /// Builds and seals the genesis block: height zero, the fixed sentinel
    /// parent hash, and exactly the given coinbase transaction.
    pub fn generate_genesis_block(coinbase_tx: Transaction) -> (r: Option<Block>)
        requires
            crate::transaction::spec_is_coinbase(coinbase_tx@),
        ensures
            r is Some <==> seal_possible(
                unsealed_candidate(sentinel_chars(), seq![coinbase_tx@], 0),
            ),
            r is Some ==> r->0@.nonce == spec_sealing_nonce(r->0@),
            r is Some ==> r->0@.hash == spec_sealed_hash(r->0@),
            r is Some ==> r->0@.height == 0,
            r is Some ==> r->0@.pre_block_hash == sentinel_chars(),
            r is Some ==> r->0@.transactions.len() == 1,
            r is Some ==> crate::transaction::spec_is_coinbase(r->0@.transactions[0]),
            r is Some ==> r->0@.transactions[0] == coinbase_tx@,
            r is Some ==> r->0@.timestamp == 0,
            r is Some ==> 0 <= r->0@.nonce <= i64::MAX && pow_met(r->0@, r->0@.nonce),
            r is Some ==> r->0@.hash == spec_hex_encode(pow_hash_of(r->0@, r->0@.nonce)),
            r is Some ==> r->0@.hash.len() == 66 && vstd::utf8::is_ascii_chars(r->0@.hash),
    {
        let pre = sentinel_string();
        let ghost cv = coinbase_tx@;
        let txs = vec![coinbase_tx];
        proof {
            assert(txs.deep_view() =~= seq![cv]);
            assert(unsealed_candidate(pre@, txs.deep_view(), 0) =~= unsealed_candidate(
                sentinel_chars(),
                seq![cv],
                0,
            ));
        }
        Block::new(pre, txs, 0)
    }

    /// The digest of the concatenation of every transaction's id, in list
    /// order: the transactions-root digest the sealing algorithm signs.
    pub fn hash_transactions(&self) -> (r: Vec<u8>)
        ensures
            r@ == sha256_of(spec_txs_ids(self@.transactions)),
            r@.len() == 32,
    {
        let mut tx_hashes: Vec<u8> = Vec::new();
        proof {
            assert(self.transactions.deep_view().take(0) =~= Seq::<TransactionV>::empty());
            assert(tx_hashes@ =~= spec_txs_ids(self.transactions.deep_view().take(0)));
        }
        let mut i: usize = 0;
        while i < self.transactions.len()
            invariant
                i <= self.transactions@.len(),
                tx_hashes@ == spec_txs_ids(self.transactions.deep_view().take(i as int)),
            decreases self.transactions@.len() - i,
        {
            append_bytes(&mut tx_hashes, self.transactions[i].get_id());
            proof {
                lemma_txs_ids_snoc(self.transactions.deep_view(), i as int);
                assert(self.transactions.deep_view()[i as int] == self.transactions@[i as int]@);
                assert(tx_hashes@ =~= spec_txs_ids(
                    self.transactions.deep_view().take(i + 1),
                ));
            }
            i = i + 1;
        }
        proof {
            assert(self.transactions.deep_view().take(self.transactions@.len() as int)
                =~= self.transactions.deep_view());
        }
        sha256_digest(tx_hashes.as_slice())
    }

    /// Encodes this block in the persisted record form.
    pub fn serialize(&self) -> (r: Vec<u8>)
        requires
            vstd::utf8::is_ascii_chars(self@.pre_block_hash),
            vstd::utf8::is_ascii_chars(self@.hash),
    ensures
            r@ == enc_block(self@),
    {
        encode_block(self)
    }

    /// Decodes a persisted block record; `None` where the bytes do not
    /// form one whole well-formed record.
    pub fn deserialize(data: &[u8]) -> (r: Option<Block>)
        ensures
            r is Some <==> spec_decode_block(data@) is Some,
            r is Some ==> r->0@ == spec_decode_block(data@)->0,
    {
        decode_block(data)
    }
}

/// The fixed sentinel standing where the genesis block's parent hash
/// would be.
pub open spec fn sentinel_chars() -> Seq<char> {
    seq!['N', 'o', 'n', 'e']
}

/// The sentinel as an owned string.
pub fn sentinel_string() -> (r: String)
    ensures
        r@ == sentinel_chars(),
        vstd::utf8::is_ascii_chars(r@),
{
    let r = <String as vstd::string::StringExecFns>::from_str("None");
    proof {
        reveal_strlit("None");
        assert(r@ =~= sentinel_chars());
    }
    r
}

} // verus!
