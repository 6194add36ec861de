//! The chain store: persists blocks keyed by their display-form hash,
//! tracks the tip, creates the genesis block on first use, appends sealed
//! blocks, and walks the chain backward from the tip.

use vstd::prelude::*;
use vstd::string::StringExecFns;
use crate::ChainError;
use crate::block::{Block, BlockV, pow_met, pow_hash_of, pow_input_of, seal_possible,
    sentinel_chars, spec_sealed_hash, spec_sealing_nonce, unsealed_candidate,
    lemma_sealing_nonce, lemma_sealing_nonce_unique};
use crate::codec::{ascii_bytes, enc_block, spec_decode_block, lemma_block_roundtrip,
    lemma_exec_block_wf, bytes_to_string};
use crate::store::{KvDb, KvTree, kv_map};
use crate::transaction::{TXInputV, TXOutput, TXOutputV, Transaction, TransactionV,
    spec_address_ok, spec_coinbase_tx, spec_is_coinbase, bytes_eq, clone_bytes};

verus! {

/// The fixed path the store lives under when none is given.
pub const DB_PATH: &'static str = "blockchain_data";

/// The name of the key space holding block records and the tip pointer.
pub const BLOCKS_TREE_NAME: &'static str = "blockchain";

/// The fixed key under which the tip hash is stored.
pub const TIP_BLOCK_HASH_KEY: &'static str = "tip_block_hash";

/// The characters of the tip key.
pub open spec fn tip_key_chars() -> Seq<char> {
    TIP_BLOCK_HASH_KEY@
}

/// The bytes of the tip key.
pub open spec fn tip_key_bytes() -> Seq<u8> {
    ascii_bytes(tip_key_chars())
}

/// The tip key is fourteen ASCII characters, so its bytes collide neither
/// with a block key (66 bytes) nor with the sentinel key (4 bytes).
pub proof fn lemma_tip_key_shape()
    ensures
        tip_key_bytes().len() == 14,
        vstd::utf8::is_ascii_chars(tip_key_chars()),
{
    reveal_strlit("tip_block_hash");
}

/// The key under which a block with the given display-form hash is stored.
pub open spec fn hash_key(s: Seq<char>) -> Seq<u8> {
    ascii_bytes(s)
}

/// Distinct ASCII strings have distinct bytes.
pub proof fn lemma_ascii_bytes_injective(a: Seq<char>, b: Seq<char>)
    requires
        vstd::utf8::is_ascii_chars(a),
        vstd::utf8::is_ascii_chars(b),
        ascii_bytes(a) == ascii_bytes(b),
    ensures
        a == b,
{
    assert(ascii_bytes(a).len() == a.len());
    assert(ascii_bytes(b).len() == b.len());
    assert(a.len() == b.len());
    assert forall|i: int| 0 <= i < a.len() implies a[i] == b[i] by {
        assert(ascii_bytes(a)[i] == a[i] as u8);
        assert(ascii_bytes(b)[i] == b[i] as u8);
        assert(a[i] as u8 == b[i] as u8);
        assert('\0' <= a[i] <= '\u{7f}');
        assert('\0' <= b[i] <= '\u{7f}');
        assert(a[i] as u32 == b[i] as u32);
        vstd::utf8::char_u32_cast(a[i], a[i] as u32);
        vstd::utf8::char_u32_cast(b[i], b[i] as u32);
    }
    assert(a =~= b);
}

/// The bytes of an ASCII string, for use as a store key.
pub fn str_key(s: &str) -> (r: &[u8])
    requires
        vstd::utf8::is_ascii_chars(s@),
    ensures
        r@ == ascii_bytes(s@),
{
    proof {
        vstd::utf8::is_ascii_chars_encode_utf8(s@);
    }
    let b = s.as_bytes();
    proof {
        assert(b@ =~= ascii_bytes(s@));
    }
    b
}

/// The tip key as owned bytes.
pub fn tip_key_vec() -> (r: Vec<u8>)
    ensures
        r@ == tip_key_bytes(),
{
    proof {
        reveal_strlit("tip_block_hash");
    }
    let b = str_key(TIP_BLOCK_HASH_KEY);
    vstd::slice::slice_to_vec(b)
}

/// The block decoded from what the store holds under the given hash.
pub open spec fn block_at(m: Map<Seq<u8>, Seq<u8>>, s: Seq<char>) -> BlockV {
    spec_decode_block(m[hash_key(s)])->0
}

/// A well-formed hash-linked chain of `h + 1` blocks ending at the block
/// whose display-form hash is `s`: every record decodes, carries its own
/// key as its hash and its position as its height, links to its parent,
/// and the genesis block carries the sentinel parent hash and exactly one
/// coinbase transaction.
pub open spec fn chain_ok(m: Map<Seq<u8>, Seq<u8>>, s: Seq<char>, h: nat) -> bool
    decreases h,
{
    &&& vstd::utf8::is_ascii_chars(s)
    &&& s.len() == 66
    &&& m.contains_key(hash_key(s))
    &&& spec_decode_block(m[hash_key(s)]) is Some
    &&& block_at(m, s).hash == s
    &&& block_at(m, s).height == h
    &&& vstd::utf8::is_ascii_chars(block_at(m, s).pre_block_hash)
    &&& if h == 0 {
        &&& block_at(m, s).pre_block_hash == sentinel_chars()
        &&& block_at(m, s).transactions.len() == 1
        &&& spec_is_coinbase(block_at(m, s).transactions[0])
    } else {
        chain_ok(m, block_at(m, s).pre_block_hash, (h - 1) as nat)
    }
}

/// The blocks of the chain, tip first, down to the genesis block.
pub open spec fn chain_seq(m: Map<Seq<u8>, Seq<u8>>, s: Seq<char>, h: nat) -> Seq<BlockV>
    recommends
        chain_ok(m, s, h),
    decreases h,
{
    if h == 0 {
        seq![block_at(m, s)]
    } else {
        seq![block_at(m, s)] + chain_seq(m, block_at(m, s).pre_block_hash, (h - 1) as nat)
    }
}

pub proof fn lemma_chain_seq_len(m: Map<Seq<u8>, Seq<u8>>, s: Seq<char>, h: nat)
    ensures
        chain_seq(m, s, h).len() == h + 1,
    decreases h,
{
    if h > 0 {
        lemma_chain_seq_len(m, block_at(m, s).pre_block_hash, (h - 1) as nat);
    }
}

/// A well-formed chain survives an insertion that touches no block key:
/// either the new key is not 66 bytes long, or it is absent from the map.
pub proof fn lemma_chain_ok_insert(
    m: Map<Seq<u8>, Seq<u8>>,
    s: Seq<char>,
    h: nat,
    k2: Seq<u8>,
    v2: Seq<u8>,
)
    requires
        chain_ok(m, s, h),
        k2.len() != 66 || !m.contains_key(k2),
    ensures
        chain_ok(m.insert(k2, v2), s, h),
        chain_seq(m.insert(k2, v2), s, h) == chain_seq(m, s, h),
    decreases h,
{
    let key = hash_key(s);
    assert(key.len() == 66);
    assert(key != k2);
    assert(m.insert(k2, v2)[key] == m[key]);
    if h > 0 {
        lemma_chain_ok_insert(m, block_at(m, s).pre_block_hash, (h - 1) as nat, k2, v2);
    }
}

/// The unsealed genesis candidate for a genesis address: the sentinel
/// parent hash over exactly the address's coinbase transaction.
pub open spec fn genesis_candidate(addr: Seq<char>) -> BlockV {
    unsealed_candidate(sentinel_chars(), seq![spec_coinbase_tx(addr)], 0)
}

/// The unsealed candidate an append seals: parent = the tip, height one
/// above the chain's.
pub open spec fn mine_candidate(tip: Seq<char>, txs: Seq<TransactionV>, h: nat) -> BlockV {
    unsealed_candidate(tip, txs, (h + 1) as int)
}

/// Writes a fresh genesis chain into a key space holding no tip pointer:
/// builds the coinbase paying the fixed reward to `genesis_address`,
/// seals the genesis block over it, clears any stray records, and writes
/// the block record with the tip pointer as one atomic pair, so the key
/// space afterwards holds exactly the new one-block chain.
pub fn init_genesis(blocks: &mut KvTree, genesis_address: &str) -> (r: Result<Block, ChainError>)
    requires
        !kv_map(*old(blocks)).contains_key(tip_key_bytes()),
    ensures
        r is Ok <==> spec_address_ok(genesis_address@) && seal_possible(
            genesis_candidate(genesis_address@),
        ),
        (r is Err && r->Err_0 == ChainError::InvalidAddress) <==> !spec_address_ok(
            genesis_address@,
        ),
        (r is Err && r->Err_0 == ChainError::SealExhausted) <==> spec_address_ok(
            genesis_address@,
        ) && !seal_possible(genesis_candidate(genesis_address@)),
        r is Err ==> kv_map(*final(blocks)) == kv_map(*old(blocks)),
        r is Ok ==> (r->Ok_0)@.height == 0,
        r is Ok ==> (r->Ok_0)@.timestamp == 0,
        r is Ok ==> (r->Ok_0)@.pre_block_hash == sentinel_chars(),
        r is Ok ==> (r->Ok_0)@.transactions == seq![spec_coinbase_tx(genesis_address@)],
        r is Ok ==> (r->Ok_0)@.nonce == spec_sealing_nonce(genesis_candidate(genesis_address@)),
        r is Ok ==> (r->Ok_0)@.hash == spec_sealed_hash(genesis_candidate(genesis_address@)),
        r is Ok ==> (r->Ok_0)@.hash.len() == 66 && vstd::utf8::is_ascii_chars((r->Ok_0)@.hash),
        r is Ok ==> pow_met((r->Ok_0)@, (r->Ok_0)@.nonce),
        r is Ok ==> kv_map(*final(blocks)) == crate::store::kv_empty().insert(
            hash_key((r->Ok_0)@.hash),
            enc_block((r->Ok_0)@),
        ).insert(tip_key_bytes(), hash_key((r->Ok_0)@.hash)),
        r is Ok ==> chain_ok(kv_map(*final(blocks)), (r->Ok_0)@.hash, 0),
{
    let ghost addr = genesis_address@;
    let coinbase_tx = match Transaction::new_coinbase_tx(genesis_address) {
        Some(t) => t,
        None => {
            return Err(ChainError::InvalidAddress);
        },
    };
    let ghost cand = genesis_candidate(addr);
    let genesis_block = match Block::generate_genesis_block(coinbase_tx) {
        Some(b) => b,
        None => {
            proof {
                assert(unsealed_candidate(sentinel_chars(), seq![coinbase_tx@], 0) =~= cand);
            }
            return Err(ChainError::SealExhausted);
        },
    };
    blocks.clear();
    let data = genesis_block.serialize();
    let hash = genesis_block.get_hash();
    let key = str_key(hash);
    let ghost gkey = hash_key(genesis_block@.hash);
    let tipk = tip_key_vec();
    blocks.insert_pair(key, data.as_slice(), tipk.as_slice(), key);
    proof {
        let gb = genesis_block@;
        assert(unsealed_candidate(sentinel_chars(), seq![coinbase_tx@], 0) =~= cand);
        assert(gb.transactions =~= seq![spec_coinbase_tx(addr)]);
        assert(seal_possible(gb));
        lemma_sealing_nonce(gb);
        assert(pow_met(cand, gb.nonce)) by {
            assert(pow_input_of(cand, gb.nonce) =~= pow_input_of(gb, gb.nonce));
        }
        assert forall|k: int| 0 <= k < gb.nonce implies !pow_met(cand, k) by {
            assert(pow_input_of(cand, k) =~= pow_input_of(gb, k));
            assert(!pow_met(gb, k));
        }
        lemma_sealing_nonce_unique(cand, gb.nonce);
        assert(pow_hash_of(cand, gb.nonce) == pow_hash_of(gb, gb.nonce)) by {
            assert(pow_input_of(cand, gb.nonce) =~= pow_input_of(gb, gb.nonce));
        }
        let m = kv_map(*blocks);
        lemma_tip_key_shape();
        crate::codec::lemma_exec_block_wf(&genesis_block);
        lemma_block_roundtrip(gb);
        assert(gkey != tip_key_bytes());
        assert(m[gkey] == enc_block(gb));
        assert(chain_ok(m, gb.hash, 0));
    }
    Ok(genesis_block)
}

/// The chain store: the tip hash, the chain's height, and the handles on
/// the persistent store.
pub struct BlockChain {
    pub tip_hash: String,
    pub height: Ghost<nat>,
    pub db: KvDb,
    pub blocks: KvTree,
}

impl BlockChain {
    /// What the block key space holds.
    pub open spec fn m(self) -> Map<Seq<u8>, Seq<u8>> {
        kv_map(self.blocks)
    }

    /// The chain store's invariant: a well-formed chain hangs from the
    /// tip, the stored tip pointer matches the tip field, and no record
    /// sits under the sentinel key (so traversal ends at the genesis
    /// block).
    pub open spec fn wf(self) -> bool {
        &&& chain_ok(self.m(), self.tip_hash@, self.height@)
        &&& !self.m().contains_key(hash_key(sentinel_chars()))
        &&& self.m().contains_key(tip_key_bytes())
        &&& self.m()[tip_key_bytes()] == hash_key(self.tip_hash@)
    }

    /// The handle on the underlying store.
    pub fn get_db(&self) -> (r: &KvDb)
        ensures
            r == &self.db,
    {
        &self.db
    }

    /// The current tip hash.
    pub fn get_tip_hash(&self) -> (r: String)
        ensures
            r@ == self.tip_hash@,
    {
        self.tip_hash.clone()
    }

    /// Replaces the tip field. The store is untouched: `mine_block` is
    /// what advances both together.
    pub fn set_tip_hash(&mut self, new_tip_hash: &str)
        ensures
            final(self).tip_hash@ == new_tip_hash@,
            final(self).height == old(self).height,
            final(self).blocks == old(self).blocks,
            final(self).db == old(self).db,
    {
        self.tip_hash = <String as StringExecFns>::from_str(new_tip_hash);
    }

    /// The height of the block at the tip, read back from the store.
    /// Under the invariant the tip record is always present, so the
    /// `CorruptState` arms are dead.
    pub fn get_best_height(&self) -> (r: Result<usize, ChainError>)
        requires
            self.wf(),
        ensures
            r is Ok,
            r->Ok_0 as nat == self.height@,
    {
        let key = str_key(self.tip_hash.as_str());
        let data = match self.blocks.get(key) {
            Some(d) => d,
            None => {
                return Err(ChainError::CorruptState);
            },
        };
        let block = match Block::deserialize(data.as_slice()) {
            Some(b) => b,
            None => {
                return Err(ChainError::CorruptState);
            },
        };
        Ok(block.get_height())
    }

    /// Builds a chain store over the store at the fixed path: loads the
    /// persisted chain if one exists, otherwise creates the genesis block
    /// paying the fixed reward to `genesis_address`.
    pub fn create_blockchain(genesis_address: &str) -> (r: Result<BlockChain, ChainError>)
        ensures
            r is Ok ==> r->Ok_0.wf(),
            (r is Err && r->Err_0 == ChainError::InvalidAddress) ==> !spec_address_ok(
                genesis_address@,
            ),
            (r is Err && r->Err_0 == ChainError::SealExhausted) ==> !seal_possible(
                genesis_candidate(genesis_address@),
            ),
    {
        let db = KvDb::open(DB_PATH);
        BlockChain::create_blockchain_with(db, genesis_address)
    }

    /// Builds a chain store over the given store. If no tip pointer is
    /// persisted, writes a fresh genesis block and the tip pointer as one
    /// atomic pair; otherwise loads the tip and checks the whole chain,
    /// failing with `CorruptState` where a record is missing or mangled.
    #[verifier::rlimit(60)]
    pub fn create_blockchain_with(db: KvDb, genesis_address: &str) -> (r: Result<
        BlockChain,
        ChainError,
    >)
        ensures
            r is Ok ==> r->Ok_0.wf(),
            (r is Err && r->Err_0 == ChainError::InvalidAddress) ==> !spec_address_ok(
                genesis_address@,
            ),
            (r is Err && r->Err_0 == ChainError::SealExhausted) ==> !seal_possible(
                genesis_candidate(genesis_address@),
            ),
    {
        let mut blocks = db.open_tree(BLOCKS_TREE_NAME);
        let tipk = tip_key_vec();
        proof {
            lemma_tip_key_shape();
        }
        match blocks.get(tipk.as_slice()) {
            None => {
                let genesis_block = match init_genesis(&mut blocks, genesis_address) {
                    Ok(b) => b,
                    Err(e) => {
                        return Err(e);
                    },
                };
                let tip_hash = <String as StringExecFns>::from_str(genesis_block.get_hash());
                let chain = BlockChain {
                    tip_hash,
                    height: Ghost(0nat),
                    db,
                    blocks,
                };
                proof {
                    let m = kv_map(chain.blocks);
                    let gkey = hash_key(genesis_block@.hash);
                    assert(gkey != tip_key_bytes());
                    assert(!m.contains_key(hash_key(sentinel_chars())));
                    assert(m[tip_key_bytes()] == hash_key(chain.tip_hash@));
                    assert(chain.wf());
                }
                Ok(chain)
            },
            Some(tip_bytes) => {
                let mut k: usize = 0;
                while k < tip_bytes.len()
                    invariant
                        k <= tip_bytes@.len(),
                        forall|m: int| 0 <= m < k ==> tip_bytes@[m] < 128,
                    decreases tip_bytes@.len() - k,
                {
                    if tip_bytes[k] >= 128 {
                        return Err(ChainError::CorruptState);
                    }
                    k = k + 1;
                }
                let tip_hash = bytes_to_string(tip_bytes);
                let key = str_key(tip_hash.as_str());
                let data = match blocks.get(key) {
                    Some(d) => d,
                    None => {
                        return Err(ChainError::CorruptState);
                    },
                };
                let tip_block = match Block::deserialize(data.as_slice()) {
                    Some(b) => b,
                    None => {
                        return Err(ChainError::CorruptState);
                    },
                };
                let height = tip_block.get_height();
                if !check_chain(&blocks, tip_hash.as_str(), height) {
                    return Err(ChainError::CorruptState);
                }
                match blocks.get(str_key(sentinel_string_ref())) {
                    Some(_) => Err(ChainError::CorruptState),
                    None => {
                        let chain = BlockChain {
                            tip_hash,
                            height: Ghost(height as nat),
                            db,
                            blocks,
                        };
                        proof {
                            assert(chain.wf());
                        }
                        Ok(chain)
                    },
                }
            },
        }
    }
}

/// Decides whether a well-formed chain of `h + 1` blocks hangs from the
/// block whose display-form hash is `hash`.
pub fn check_chain(blocks: &KvTree, hash: &str, h: usize) -> (r: bool)
    ensures
        r == chain_ok(kv_map(*blocks), hash@, h as nat),
    decreases h,
{
    if !hash.is_ascii() {
        return false;
    }
    proof {
        vstd::utf8::is_ascii_chars_encode_utf8(hash@);
    }
    if hash.len() != 66 {
        return false;
    }
    let key = str_key(hash);
    let data = match blocks.get(key) {
        Some(d) => d,
        None => {
            return false;
        },
    };
    let block = match Block::deserialize(data.as_slice()) {
        Some(b) => b,
        None => {
            return false;
        },
    };
    let bh = block.get_hash();
    if !bh.is_ascii() {
        return false;
    }
    proof {
        vstd::utf8::is_ascii_chars_encode_utf8(block@.hash);
    }
    if !crate::transaction::bytes_eq(bh.as_bytes(), hash.as_bytes()) {
        return false;
    }
    proof {
        lemma_ascii_bytes_injective(block@.hash, hash@);
    }
    if block.get_height() != h {
        return false;
    }
    let pre = block.get_pre_block_hash();
    if !pre.as_str().is_ascii() {
        return false;
    }
    if h == 0 {
        let sentinel = sentinel_string_ref();
        if !crate::transaction::bytes_eq(str_key(pre.as_str()), str_key(sentinel)) {
            return false;
        }
        proof {
            lemma_ascii_bytes_injective(pre@, sentinel_chars());
        }
        let txs = block.get_transactions();
        if txs.len() != 1 {
            return false;
        }
        txs[0].is_coinbase()
    } else {
        check_chain(blocks, pre.as_str(), h - 1)
    }
}

/// The sentinel as a static string.
fn sentinel_string_ref() -> (r: &'static str)
    ensures
        r@ == sentinel_chars(),
        vstd::utf8::is_ascii_chars(r@),
{
    let r = "None";
    proof {
        reveal_strlit("None");
        assert(r@ =~= sentinel_chars());
    }
    r
}


impl BlockChain {
    /// Seals a block over the given transactions and appends it: the new
    /// block's parent is the old tip, its height is one more than the
    /// parent's, and the block record and the tip pointer are written as
    /// one atomic pair. On any error the store and the tip are untouched.
    pub fn mine_block(&mut self, transactions: &[Transaction]) -> (r: Result<Block, ChainError>)
        requires
            old(self).wf(),
        ensures
            final(self).wf(),
            final(self).db == old(self).db,
            r is Ok ==> final(self).height@ == old(self).height@ + 1,
            r is Ok ==> (r->Ok_0)@.height == old(self).height@ + 1,
            r is Ok ==> (r->Ok_0)@.pre_block_hash == old(self).tip_hash@,
            r is Ok ==> (r->Ok_0)@.transactions == transactions.deep_view(),
            r is Ok ==> (r->Ok_0)@.timestamp == 0,
            r is Ok ==> crate::block::pow_met((r->Ok_0)@, (r->Ok_0)@.nonce),
            r is Ok ==> (r->Ok_0)@.hash == crate::utils::spec_hex_encode(
                crate::block::pow_hash_of((r->Ok_0)@, (r->Ok_0)@.nonce),
            ),
            r is Ok ==> final(self).tip_hash@ == (r->Ok_0)@.hash,
            r is Ok ==> final(self).m() == old(self).m().insert(
                hash_key((r->Ok_0)@.hash),
                enc_block((r->Ok_0)@),
            ).insert(tip_key_bytes(), hash_key((r->Ok_0)@.hash)),
            r is Ok ==> chain_seq(final(self).m(), final(self).tip_hash@, final(self).height@)
                == seq![(r->Ok_0)@] + chain_seq(old(self).m(), old(self).tip_hash@, old(self).height@),
            r is Ok ==> !old(self).m().contains_key(hash_key((r->Ok_0)@.hash)),
            r is Ok ==> (r->Ok_0)@.nonce == spec_sealing_nonce(
                mine_candidate(old(self).tip_hash@, transactions.deep_view(), old(self).height@),
            ),
            r is Ok ==> (r->Ok_0)@.hash == spec_sealed_hash(
                mine_candidate(old(self).tip_hash@, transactions.deep_view(), old(self).height@),
            ),
            old(self).height@ + 1 > usize::MAX ==> r is Err && r->Err_0
                == ChainError::CorruptState,
            (r is Err && r->Err_0 == ChainError::SealExhausted) <==> old(self).height@ + 1
                <= usize::MAX && !seal_possible(
                mine_candidate(old(self).tip_hash@, transactions.deep_view(), old(self).height@),
            ),
            r is Ok <==> old(self).height@ + 1 <= usize::MAX && seal_possible(
                mine_candidate(old(self).tip_hash@, transactions.deep_view(), old(self).height@),
            ) && !old(self).m().contains_key(
                hash_key(
                    spec_sealed_hash(
                        mine_candidate(
                            old(self).tip_hash@,
                            transactions.deep_view(),
                            old(self).height@,
                        ),
                    ),
                ),
            ),
            r is Err ==> *final(self) == *old(self),
    {
        let ghost mc = mine_candidate(self.tip_hash@, transactions.deep_view(), self.height@);
        let best_height = match self.get_best_height() {
            Ok(h) => h,
            Err(e) => {
                return Err(e);
            },
        };
        if best_height == usize::MAX {
            return Err(ChainError::CorruptState);
        }
        let mut txs: Vec<Transaction> = Vec::new();
        let mut i: usize = 0;
        while i < transactions.len()
            invariant
                i <= transactions@.len(),
                txs@.len() == i,
                forall|k: int| 0 <= k < i ==> #[trigger] txs@[k]@ == transactions@[k]@,
            decreases transactions@.len() - i,
        {
            txs.push(transactions[i].clone());
            i = i + 1;
        }
        proof {
            assert forall|k: int| 0 <= k < txs.deep_view().len() implies txs.deep_view()[k]
                == transactions.deep_view()[k] by {
                assert(txs@[k]@ == transactions@[k]@);
            }
            assert(txs.deep_view() =~= transactions.deep_view());
        }
        let ghost txs_view = txs.deep_view();
        let block = match Block::new(self.get_tip_hash(), txs, best_height + 1) {
            Some(b) => b,
            None => {
                proof {
                    assert(unsealed_candidate(
                        self.tip_hash@,
                        txs_view,
                        (best_height + 1) as int,
                    ) =~= mc);
                }
                return Err(ChainError::SealExhausted);
            },
        };
        proof {
            let bb = block@;
            assert(unsealed_candidate(self.tip_hash@, txs_view, (best_height + 1) as int)
                =~= mc);
            assert(pow_met(mc, bb.nonce)) by {
                assert(pow_input_of(mc, bb.nonce) =~= pow_input_of(bb, bb.nonce));
            }
            assert forall|k: int| 0 <= k < bb.nonce implies !pow_met(mc, k) by {
                assert(pow_input_of(mc, k) =~= pow_input_of(bb, k));
                assert(!pow_met(bb, k));
            }
            lemma_sealing_nonce_unique(mc, bb.nonce);
            assert(pow_hash_of(mc, bb.nonce) == pow_hash_of(bb, bb.nonce)) by {
                assert(pow_input_of(mc, bb.nonce) =~= pow_input_of(bb, bb.nonce));
            }
            assert(bb.hash == spec_sealed_hash(mc));
        }
        let key = vstd::slice::slice_to_vec(str_key(block.get_hash()));
        match self.blocks.get(key.as_slice()) {
            Some(_) => {
                return Err(ChainError::CorruptState);
            },
            None => {},
        };
        let data = block.serialize();
        let tipk = tip_key_vec();
        let ghost m0 = kv_map(self.blocks);
        let ghost old_tip = self.tip_hash@;
        let ghost h0 = self.height@;
        self.blocks.insert_pair(key.as_slice(), data.as_slice(), tipk.as_slice(), key.as_slice());
        self.set_tip_hash(block.get_hash());
        self.height = Ghost(h0 + 1);
        proof {
            let kb = hash_key(block@.hash);
            let m1 = m0.insert(kb, enc_block(block@));
            let m2 = kv_map(self.blocks);
            lemma_tip_key_shape();
            assert(m2 == m1.insert(tip_key_bytes(), kb));
            lemma_exec_block_wf(&block);
            lemma_block_roundtrip(block@);
            lemma_chain_ok_insert(m0, old_tip, h0, kb, enc_block(block@));
            lemma_chain_ok_insert(m1, old_tip, h0, tip_key_bytes(), kb);
            assert(m2[kb] == enc_block(block@));
            assert(block_at(m2, block@.hash) == block@);
            assert(chain_ok(m2, self.tip_hash@, h0 + 1));
            assert(self.wf());
            assert(chain_seq(m2, self.tip_hash@, h0 + 1) =~= seq![block@] + chain_seq(
                m0,
                old_tip,
                h0,
            ));
        }
        Ok(block)
    }
}

/// A cursor walking the chain backward: each step yields the block at the
/// cursor hash and moves the cursor to that block's parent. After the
/// genesis block the cursor rests on the sentinel, which no record sits
/// under, so the walk ends. A new traversal takes a new cursor.
pub struct BlockchainIterator<'a> {
    pub blocks: &'a KvTree,
    pub current_hash: String,
    pub remaining: Ghost<nat>,
}

/// The cursor's invariant over the store contents: either `rem` blocks
/// are still to be visited and a well-formed chain of that length hangs
/// from the cursor, or the walk has ended on a hash with no record.
pub open spec fn iter_state_ok(m: Map<Seq<u8>, Seq<u8>>, s: Seq<char>, rem: nat) -> bool {
    &&& !m.contains_key(hash_key(sentinel_chars()))
    &&& vstd::utf8::is_ascii_chars(s)
    &&& if rem > 0 {
        chain_ok(m, s, (rem - 1) as nat)
    } else {
        !m.contains_key(hash_key(s))
    }
}

impl<'a> BlockchainIterator<'a> {
    pub open spec fn inv(self) -> bool {
        iter_state_ok(kv_map(*self.blocks), self.current_hash@, self.remaining@)
    }

    /// Seats a cursor on the given hash, expecting `remaining` blocks
    /// from it.
    pub fn new(blocks: &'a KvTree, tip_hash: String, remaining: Ghost<nat>) -> (r:
        BlockchainIterator<'a>)
        requires
            iter_state_ok(kv_map(*blocks), tip_hash@, remaining@),
        ensures
            r.blocks == blocks,
            r.current_hash@ == tip_hash@,
            r.remaining == remaining,
            r.inv(),
    {
        BlockchainIterator { blocks, current_hash: tip_hash, remaining }
    }

    /// Yields the block at the cursor and retreats toward the genesis
    /// block; `None` at the end of the walk.
    pub fn next(&mut self) -> (r: Option<Block>)
        requires
            old(self).inv(),
        ensures
            final(self).inv(),
            final(self).blocks == old(self).blocks,
            r is Some <==> old(self).remaining@ > 0,
            old(self).remaining@ > 0 ==> final(self).remaining@ == old(self).remaining@ - 1,
            old(self).remaining@ > 0 ==> r->0@ == block_at(
                kv_map(*old(self).blocks),
                old(self).current_hash@,
            ),
            old(self).remaining@ > 0 ==> final(self).current_hash@ == r->0@.pre_block_hash,
            old(self).remaining@ == 0 ==> final(self).remaining@ == 0,
            old(self).remaining@ == 0 ==> final(self).current_hash@ == old(self).current_hash@,
    {
        let key = str_key(self.current_hash.as_str());
        let data = match self.blocks.get(key) {
            Some(d) => d,
            None => {
                return None;
            },
        };
        let block = match Block::deserialize(data.as_slice()) {
            Some(b) => b,
            None => {
                proof {
                    assert(false);
                }
                return None;
            },
        };
        let ghost rem0 = self.remaining@;
        self.current_hash = block.get_pre_block_hash();
        self.remaining = Ghost((rem0 - 1) as nat);
        proof {
            if rem0 - 1 > 0 {
                assert(chain_ok(
                    kv_map(*self.blocks),
                    self.current_hash@,
                    (rem0 - 2) as nat,
                ));
            } else {
                assert(block@.pre_block_hash == sentinel_chars());
            }
        }
        Some(block)
    }
}

impl BlockChain {
    /// A cursor seated on the tip.
    pub fn iterator(&self) -> (r: BlockchainIterator<'_>)
        requires
            self.wf(),
        ensures
            r.blocks == &self.blocks,
            r.current_hash@ == self.tip_hash@,
            r.remaining@ == self.height@ + 1,
            r.inv(),
    {
        BlockchainIterator::new(&self.blocks, self.get_tip_hash(), Ghost(self.height@ + 1))
    }

    /// Collects the whole chain by walking a cursor from the tip to the
    /// genesis block: the walk yields exactly `height + 1` blocks before
    /// its end, tip first.
    pub fn all_blocks(&self) -> (r: Vec<Block>)
        requires
            self.wf(),
        ensures
            r@.len() == self.height@ + 1,
            r.deep_view() == chain_seq(self.m(), self.tip_hash@, self.height@),
    {
        let mut cursor = self.iterator();
        let mut out: Vec<Block> = Vec::new();
        proof {
            lemma_chain_seq_len(self.m(), self.tip_hash@, self.height@);
            assert(out.deep_view() =~= Seq::<BlockV>::empty());
            assert(out.deep_view() + chain_seq(self.m(), cursor.current_hash@, (cursor.remaining@
                - 1) as nat) =~= chain_seq(self.m(), self.tip_hash@, self.height@));
        }
        loop
            invariant
                cursor.inv(),
                cursor.blocks == &self.blocks,
                self.wf(),
                cursor.remaining@ <= self.height@ + 1,
                out@.len() + cursor.remaining@ == self.height@ + 1,
                out.deep_view() + (if cursor.remaining@ > 0 {
                    chain_seq(self.m(), cursor.current_hash@, (cursor.remaining@ - 1) as nat)
                } else {
                    Seq::<BlockV>::empty()
                }) == chain_seq(self.m(), self.tip_hash@, self.height@),
            ensures
                out@.len() == self.height@ + 1,
                out.deep_view() == chain_seq(self.m(), self.tip_hash@, self.height@),
            decreases cursor.remaining@,
        {
            let ghost cur0 = cursor.current_hash@;
            let ghost rem0 = cursor.remaining@;
            let b = match cursor.next() {
                Some(b) => b,
                None => {
                    proof {
                        assert(out.deep_view() + Seq::<BlockV>::empty() =~= out.deep_view());
                    }
                    break;
                },
            };
            let ghost prev_elems = out@;
            let ghost prevdv = out.deep_view();
            let ghost bv = b@;
            out.push(b);
            proof {
                assert forall|m: int| 0 <= m < out@.len() implies out.deep_view()[m]
                    == prevdv.push(bv)[m] by {
                    if m < prevdv.len() {
                        assert(out@[m] == prev_elems[m]);
                        assert(prevdv[m] == prev_elems[m].deep_view());
                    }
                }
                assert(out.deep_view() =~= prevdv.push(bv));
                let total = chain_seq(self.m(), self.tip_hash@, self.height@);
                let rest = if rem0 - 1 > 0 {
                    chain_seq(self.m(), bv.pre_block_hash, (rem0 - 2) as nat)
                } else {
                    Seq::<BlockV>::empty()
                };
                assert(chain_seq(self.m(), cur0, (rem0 - 1) as nat) =~= seq![bv] + rest);
                assert(prevdv + (seq![bv] + rest) =~= (prevdv.push(bv)) + rest);
            }
        }
        out
    }
}


// ---------------------------------------------------------------------------
// The unspent-output scan
// ---------------------------------------------------------------------------

/// The transactions of a chain in traversal order: tip block first, the
/// transactions of each block in list order.
pub open spec fn txs_of_blocks(bs: Seq<BlockV>) -> Seq<TransactionV>
    decreases bs.len(),
{
    if bs.len() == 0 {
        Seq::empty()
    } else {
        bs[0].transactions + txs_of_blocks(bs.skip(1))
    }
}

proof fn lemma_txs_of_blocks_concat(a: Seq<BlockV>, b: Seq<BlockV>)
    ensures
        txs_of_blocks(a + b) == txs_of_blocks(a) + txs_of_blocks(b),
    decreases a.len(),
{
    if a.len() == 0 {
        assert(a + b =~= b);
        assert(txs_of_blocks(a) + txs_of_blocks(b) =~= txs_of_blocks(b));
    } else {
        lemma_txs_of_blocks_concat(a.skip(1), b);
        assert((a + b).skip(1) =~= a.skip(1) + b);
        assert((a + b)[0] == a[0]);
        assert(a[0].transactions + (txs_of_blocks(a.skip(1)) + txs_of_blocks(b)) =~= (
        a[0].transactions + txs_of_blocks(a.skip(1))) + txs_of_blocks(b));
    }
}

proof fn lemma_txs_of_blocks_snoc(bs: Seq<BlockV>, j: int)
    requires
        0 <= j < bs.len(),
    ensures
        txs_of_blocks(bs.take(j + 1)) == txs_of_blocks(bs.take(j)) + bs[j].transactions,
{
    assert(bs.take(j + 1) =~= bs.take(j) + seq![bs[j]]);
    lemma_txs_of_blocks_concat(bs.take(j), seq![bs[j]]);
    let one = seq![bs[j]];
    assert(one.skip(1) =~= Seq::<BlockV>::empty());
    assert(txs_of_blocks(one) =~= one[0].transactions + txs_of_blocks(one.skip(1)));
    assert(txs_of_blocks(one) =~= bs[j].transactions);
}

/// The output references a transaction's inputs mark as spent: none for a
/// coinbase transaction, else one `(prior txid, prior output index)` pair
/// per input.
pub open spec fn tx_spent_refs(t: TransactionV) -> Set<(Seq<u8>, int)> {
    if spec_is_coinbase(t) {
        Set::empty()
    } else {
        t.vin.map_values(|i: TXInputV| (i.txid, i.vout)).to_set()
    }
}

/// The outputs of a transaction not marked spent, in output order, with
/// the first output judged at index `idx`.
pub open spec fn kept_outputs(
    outs: Seq<TXOutputV>,
    id: Seq<u8>,
    spent: Set<(Seq<u8>, int)>,
    idx: int,
) -> Seq<TXOutputV>
    decreases outs.len(),
{
    if outs.len() == 0 {
        Seq::empty()
    } else {
        (if spent.contains((id, idx)) {
            Seq::empty()
        } else {
            seq![outs[0]]
        }) + kept_outputs(outs.skip(1), id, spent, idx + 1)
    }
}

proof fn lemma_kept_outputs_concat(
    a: Seq<TXOutputV>,
    b: Seq<TXOutputV>,
    id: Seq<u8>,
    spent: Set<(Seq<u8>, int)>,
    idx: int,
)
    ensures
        kept_outputs(a + b, id, spent, idx) == kept_outputs(a, id, spent, idx) + kept_outputs(
            b,
            id,
            spent,
            idx + a.len(),
        ),
    decreases a.len(),
{
    if a.len() == 0 {
        assert(a + b =~= b);
        assert(kept_outputs(a, id, spent, idx) + kept_outputs(b, id, spent, idx + a.len())
            =~= kept_outputs(b, id, spent, idx));
    } else {
        lemma_kept_outputs_concat(a.skip(1), b, id, spent, idx + 1);
        assert((a + b).skip(1) =~= a.skip(1) + b);
        assert((a + b)[0] == a[0]);
        let head = if spent.contains((id, idx)) {
            Seq::<TXOutputV>::empty()
        } else {
            seq![a[0]]
        };
        assert(head + (kept_outputs(a.skip(1), id, spent, idx + 1) + kept_outputs(
            b,
            id,
            spent,
            idx + a.len(),
        )) =~= (head + kept_outputs(a.skip(1), id, spent, idx + 1)) + kept_outputs(
            b,
            id,
            spent,
            idx + a.len(),
        ));
    }
}

proof fn lemma_kept_outputs_snoc(
    outs: Seq<TXOutputV>,
    j: int,
    id: Seq<u8>,
    spent: Set<(Seq<u8>, int)>,
)
    requires
        0 <= j < outs.len(),
    ensures
        kept_outputs(outs.take(j + 1), id, spent, 0) == kept_outputs(outs.take(j), id, spent, 0)
            + (if spent.contains((id, j)) {
            Seq::<TXOutputV>::empty()
        } else {
            seq![outs[j]]
        }),
{
    assert(outs.take(j + 1) =~= outs.take(j) + seq![outs[j]]);
    lemma_kept_outputs_concat(outs.take(j), seq![outs[j]], id, spent, 0);
    let one = seq![outs[j]];
    assert(one.skip(1) =~= Seq::<TXOutputV>::empty());
    assert(kept_outputs(one, id, spent, j) =~= (if spent.contains((id, j)) {
        Seq::<TXOutputV>::empty()
    } else {
        seq![outs[j]]
    }) + kept_outputs(one.skip(1), id, spent, j + 1));
}

/// One step of the index scan: the transaction's unspent outputs are
/// appended under its id (the entry appears on first use), and for a
/// non-coinbase transaction every referenced output becomes spent. The
/// outputs are judged against the spent set as it stood before this
/// transaction.
pub open spec fn utxo_step(
    state: (Set<(Seq<u8>, int)>, Map<Seq<u8>, Seq<TXOutputV>>),
    t: TransactionV,
) -> (Set<(Seq<u8>, int)>, Map<Seq<u8>, Seq<TXOutputV>>) {
    let kept = kept_outputs(t.vout, t.id, state.0, 0);
    let m = if kept.len() > 0 {
        let prior = if state.1.contains_key(t.id) {
            state.1[t.id]
        } else {
            Seq::empty()
        };
        state.1.insert(t.id, prior + kept)
    } else {
        state.1
    };
    (state.0.union(tx_spent_refs(t)), m)
}

/// The index scan folded over a transaction sequence in traversal order.
pub open spec fn utxo_scan(
    txs: Seq<TransactionV>,
    state: (Set<(Seq<u8>, int)>, Map<Seq<u8>, Seq<TXOutputV>>),
) -> (Set<(Seq<u8>, int)>, Map<Seq<u8>, Seq<TXOutputV>>)
    decreases txs.len(),
{
    if txs.len() == 0 {
        state
    } else {
        utxo_scan(txs.skip(1), utxo_step(state, txs[0]))
    }
}

/// The scan's starting state: nothing spent, nothing indexed.
pub open spec fn utxo_init() -> (Set<(Seq<u8>, int)>, Map<Seq<u8>, Seq<TXOutputV>>) {
    (Set::empty(), Map::empty())
}

/// The unspent-output map computed by one full scan of the given
/// transactions.
pub open spec fn spec_find_utxo(txs: Seq<TransactionV>) -> Map<Seq<u8>, Seq<TXOutputV>> {
    utxo_scan(txs, utxo_init()).1
}

proof fn lemma_utxo_scan_concat(
    a: Seq<TransactionV>,
    b: Seq<TransactionV>,
    st: (Set<(Seq<u8>, int)>, Map<Seq<u8>, Seq<TXOutputV>>),
)
    ensures
        utxo_scan(a + b, st) == utxo_scan(b, utxo_scan(a, st)),
    decreases a.len(),
{
    if a.len() == 0 {
        assert(a + b =~= b);
    } else {
        assert((a + b).skip(1) =~= a.skip(1) + b);
        assert((a + b)[0] == a[0]);
        lemma_utxo_scan_concat(a.skip(1), b, utxo_step(st, a[0]));
    }
}

proof fn lemma_utxo_scan_snoc(
    a: Seq<TransactionV>,
    t: TransactionV,
    st: (Set<(Seq<u8>, int)>, Map<Seq<u8>, Seq<TXOutputV>>),
)
    ensures
        utxo_scan(a + seq![t], st) == utxo_step(utxo_scan(a, st), t),
{
    lemma_utxo_scan_concat(a, seq![t], st);
    let one = seq![t];
    let st2 = utxo_scan(a, st);
    assert(one.skip(1) =~= Seq::<TransactionV>::empty());
    assert(one[0] == t);
    assert(utxo_scan(one, st2) == utxo_scan(one.skip(1), utxo_step(st2, t)));
    assert(utxo_scan(one.skip(1), utxo_step(st2, t)) == utxo_step(st2, t));
}

/// A coinbase transaction's distinguished input references nothing: it
/// marks no output as spent.
pub proof fn lemma_coinbase_spends_nothing(t: TransactionV)
    requires
        spec_is_coinbase(t),
    ensures
        tx_spent_refs(t) == Set::<(Seq<u8>, int)>::empty(),
{
}

/// The set of spent references an executable pair list stands for.
pub open spec fn spent_set(s: Seq<(Vec<u8>, u64)>) -> Set<(Seq<u8>, int)> {
    s.map_values(|p: (Vec<u8>, u64)| (p.0@, p.1 as int)).to_set()
}

/// Whether an association list of owned pairs faithfully represents the
/// unspent-output map: distinct keys, every entry in the map, every key
/// of the map present.
pub open spec fn utxo_rep(
    es: Seq<(Vec<u8>, Vec<TXOutput>)>,
    m: Map<Seq<u8>, Seq<TXOutputV>>,
) -> bool {
    &&& forall|i: int, j: int|
        #![trigger es[i], es[j]]
        0 <= i < j < es.len() ==> es[i].0@ != es[j].0@
    &&& forall|i: int|
        0 <= i < es.len() ==> m.contains_key(#[trigger] es[i].0@) && m[es[i].0@]
            == es[i].1.deep_view()
    &&& forall|k: Seq<u8>|
        #[trigger] m.contains_key(k) ==> exists|i: int|
            0 <= i < es.len() && #[trigger] es[i].0@ == k
}

/// Finds the position of a key in an association list.
fn alist_find(es: &Vec<(Vec<u8>, Vec<TXOutput>)>, key: &[u8]) -> (r: Option<usize>)
    ensures
        r is Some ==> r->0 < es@.len() && es@[r->0 as int].0@ == key@,
        r is None ==> forall|j: int| 0 <= j < es@.len() ==> es@[j].0@ != key@,
{
    let mut i: usize = 0;
    while i < es.len()
        invariant
            i <= es@.len(),
            forall|j: int| 0 <= j < i ==> es@[j].0@ != key@,
        decreases es@.len() - i,
    {
        if bytes_eq(es[i].0.as_slice(), key) {
            return Some(i);
        }
        i = i + 1;
    }
    None
}

/// Decides whether a spent-reference pair is recorded.
fn spent_contains(s: &Vec<(Vec<u8>, u64)>, id: &[u8], idx: u64) -> (r: bool)
    ensures
        r == spent_set(s@).contains((id@, idx as int)),
{
    let ghost mapped = s@.map_values(|p: (Vec<u8>, u64)| (p.0@, p.1 as int));
    let mut i: usize = 0;
    while i < s.len()
        invariant
            i <= s@.len(),
            mapped == s@.map_values(|p: (Vec<u8>, u64)| (p.0@, p.1 as int)),
            forall|j: int| 0 <= j < i ==> mapped[j] != (id@, idx as int),
        decreases s@.len() - i,
    {
        if bytes_eq(s[i].0.as_slice(), id) && s[i].1 == idx {
            proof {
                assert(mapped[i as int] == (id@, idx as int));
                assert(mapped.contains((id@, idx as int)));
            }
            return true;
        }
        proof {
            assert(mapped[i as int] == (s@[i as int].0@, s@[i as int].1 as int));
        }
        i = i + 1;
    }
    proof {
        assert(!mapped.contains((id@, idx as int)));
    }
    false
}

impl BlockChain {
    /// Scans the whole chain, tip to genesis, and returns the map from
    /// transaction id to its still-unspent outputs: each output is kept
    /// unless an input of an already-scanned (later-chronological)
    /// transaction references it, and coinbase inputs never mark anything
    /// spent.
    pub fn find_utxo(&self) -> (r: Vec<(Vec<u8>, Vec<TXOutput>)>)
        requires
            self.wf(),
        ensures
            utxo_rep(
                r@,
                spec_find_utxo(
                    txs_of_blocks(chain_seq(self.m(), self.tip_hash@, self.height@)),
                ),
            ),
    {
        let blocks = self.all_blocks();
        let ghost bs = blocks.deep_view();
        let ghost all_txs = txs_of_blocks(bs);
        let mut utxo: Vec<(Vec<u8>, Vec<TXOutput>)> = Vec::new();
        let mut spent: Vec<(Vec<u8>, u64)> = Vec::new();
        let ghost mut processed = Seq::<TransactionV>::empty();
        proof {
            assert(bs.take(0) =~= Seq::<BlockV>::empty());
            assert(processed =~= txs_of_blocks(bs.take(0)));
            assert(spent_set(spent@) =~= utxo_scan(processed, utxo_init()).0);
            assert(utxo_rep(utxo@, utxo_scan(processed, utxo_init()).1));
        }
        let mut bi: usize = 0;
        while bi < blocks.len()
            invariant
                bi <= bs.len(),
                bs == blocks.deep_view(),
                blocks@.len() == bs.len(),
                processed == txs_of_blocks(bs.take(bi as int)),
                spent_set(spent@) == utxo_scan(processed, utxo_init()).0,
                utxo_rep(utxo@, utxo_scan(processed, utxo_init()).1),
            decreases bs.len() - bi,
        {
            let txs_slice = blocks[bi].get_transactions();
            proof {
                assert(blocks@[bi as int].deep_view() == bs[bi as int]);
                assert(txs_slice.deep_view() == bs[bi as int].transactions);
            }
            let mut tj: usize = 0;
            while tj < txs_slice.len()
                invariant
                    tj <= txs_slice@.len(),
                    bi < bs.len(),
                    bs == blocks.deep_view(),
                    txs_slice.deep_view() == bs[bi as int].transactions,
                    processed == txs_of_blocks(bs.take(bi as int)) + bs[bi as int].transactions.take(tj as int),
                    spent_set(spent@) == utxo_scan(processed, utxo_init()).0,
                    utxo_rep(utxo@, utxo_scan(processed, utxo_init()).1),
                decreases txs_slice@.len() - tj,
            {
                let tx = &txs_slice[tj];
                let ghost tv = tx@;
                let ghost st = utxo_scan(processed, utxo_init());
                proof {
                    assert(tv == bs[bi as int].transactions[tj as int]);
                }
                let outs = tx.get_vout();
                let tx_id = tx.get_id();
                let mut kept: Vec<TXOutput> = Vec::new();
                proof {
                    assert(outs.deep_view().take(0) =~= Seq::<TXOutputV>::empty());
                    assert(kept.deep_view() =~= kept_outputs(
                        outs.deep_view().take(0),
                        tv.id,
                        st.0,
                        0,
                    ));
                }
                let mut oi: usize = 0;
                while oi < outs.len()
                    invariant
                        oi <= outs@.len(),
                        outs.deep_view().len() == outs@.len(),
                        spent_set(spent@) == st.0,
                        tx_id@ == tv.id,
                        outs.deep_view() == tv.vout,
                        kept.deep_view() == kept_outputs(
                            outs.deep_view().take(oi as int),
                            tv.id,
                            st.0,
                            0,
                        ),
                    decreases outs@.len() - oi,
                {
                    let is_spent = spent_contains(&spent, tx_id, oi as u64);
                    let ghost prevdv = kept.deep_view();
                    let ghost prev_elems = kept@;
                    if !is_spent {
                        kept.push(outs[oi].clone());
                        proof {
                            let ov = outs.deep_view()[oi as int];
                            assert forall|m: int| 0 <= m < kept@.len() implies kept.deep_view()[m]
                                == prevdv.push(ov)[m] by {
                                if m < prevdv.len() {
                                    assert(kept@[m] == prev_elems[m]);
                                    assert(prevdv[m] == prev_elems[m].deep_view());
                                } else {
                                    assert(kept@[m]@ == outs@[oi as int]@);
                                }
                            }
                            assert(kept.deep_view() =~= prevdv.push(ov));
                            lemma_kept_outputs_snoc(outs.deep_view(), oi as int, tv.id, st.0);
                            assert(prevdv.push(ov) =~= prevdv + seq![ov]);
                        }
                    } else {
                        proof {
                            lemma_kept_outputs_snoc(outs.deep_view(), oi as int, tv.id, st.0);
                            assert(prevdv + Seq::<TXOutputV>::empty() =~= prevdv);
                        }
                    }
                    oi = oi + 1;
                }
                proof {
                    assert(outs.deep_view().take(outs@.len() as int) =~= outs.deep_view());
                }
                let ghost keptv = kept_outputs(tv.vout, tv.id, st.0, 0);
                let ghost st1 = utxo_step(st, tv);
                if kept.len() > 0 {
                    let ghost pre_list = utxo@;
                    let ghost kept_dv = kept.deep_view();
                    match alist_find(&utxo, tx_id) {
                        Some(pos) => {
                            let (k, mut entry) = utxo.remove(pos);
                            let ghost entryv = entry.deep_view();
                            let ghost removedv = utxo@;
                            let mut kept_in = kept;
                            entry.append(&mut kept_in);
                            proof {
                                assert forall|m: int| 0 <= m < entry@.len() implies
                                    entry.deep_view()[m] == (entryv + kept_dv)[m] by {
                                    if m < entryv.len() {
                                    } else {
                                        assert(entry@[m] == kept@[m - entryv.len()]);
                                        assert(kept_dv[m - entryv.len()] == kept@[m
                                            - entryv.len()].deep_view());
                                    }
                                }
                                assert(entry.deep_view() =~= entryv + kept_dv);
                            }
                            utxo.push((k, entry));
                            proof {
                                assert(entryv == st.1[tv.id]);
                                assert(utxo@.take(utxo@.len() - 1) =~= removedv);
                                lemma_utxo_rep_update(
                                    pre_list,
                                    pos as int,
                                    utxo@,
                                    st.1,
                                    st1.1,
                                    tv.id,
                                    entryv + keptv,
                                );
                            }
                        },
                        None => {
                            let key_owned = clone_bytes(&tx.id);
                            utxo.push((key_owned, kept));
                            proof {
                                assert(Seq::<TXOutputV>::empty() + keptv =~= keptv);
                                assert(utxo@.take(utxo@.len() - 1) =~= pre_list);
                                assert(forall|j: int|
                                    0 <= j < utxo@.len() - 1 ==> utxo@.take(utxo@.len() - 1)[j]
                                        == utxo@[j]);
                                assert(!st.1.contains_key(tv.id));
                                lemma_utxo_rep_insert(utxo@, st.1, st1.1, tv.id, keptv);
                            }
                        },
                    }
                } else {
                    proof {
                        assert(st1.1 == st.1);
                    }
                }
                if !tx.is_coinbase() {
                    let vins = tx.get_vin();
                    proof {
                        assert(tv.vin.take(0).map_values(
                            |inp: TXInputV| (inp.txid, inp.vout),
                        ).to_set() =~= Set::<(Seq<u8>, int)>::empty());
                        assert(st.0.union(Set::empty()) =~= st.0);
                    }
                    let mut vi: usize = 0;
                    while vi < vins.len()
                        invariant
                            vi <= vins@.len(),
                            vins@.len() == tv.vin.len(),
                            vins.deep_view() == tv.vin,
                            spent_set(spent@) == st.0.union(
                                tv.vin.take(vi as int).map_values(
                                    |inp: TXInputV| (inp.txid, inp.vout),
                                ).to_set(),
                            ),
                        decreases vins@.len() - vi,
                    {
                        let inp = &vins[vi];
                        let ghost spent_pre = spent@;
                        let item = (clone_bytes(&inp.txid), inp.get_vout() as u64);
                        let ghost itemg = item;
                        spent.push(item);
                        proof {
                            assert(spent@ =~= spent_pre + seq![itemg]);
                            lemma_spent_set_push(spent_pre, itemg);
                            lemma_refs_take_push(tv.vin, vi as int);
                            assert(vins.deep_view()[vi as int] == vins@[vi as int]@);
                            assert((itemg.0@, itemg.1 as int) == (
                                tv.vin[vi as int].txid,
                                tv.vin[vi as int].vout,
                            ));
                            let b0 = tv.vin.take(vi as int).map_values(
                                |inp2: TXInputV| (inp2.txid, inp2.vout),
                            ).to_set();
                            let pr = (tv.vin[vi as int].txid, tv.vin[vi as int].vout);
                            assert(st.0.union(b0).insert(pr) =~= st.0.union(b0.insert(pr)));
                        }
                        vi = vi + 1;
                    }
                    proof {
                        assert(tv.vin.take(vins@.len() as int) =~= tv.vin);
                        assert(spent_set(spent@) =~= st1.0);
                    }
                } else {
                    proof {
                        assert(st.0.union(Set::empty()) =~= st.0);
                        assert(spent_set(spent@) == st1.0);
                    }
                }
                proof {
                    let new_processed = processed + seq![tv];
                    lemma_utxo_scan_snoc(processed, tv, utxo_init());
                    assert(bs[bi as int].transactions.take(tj + 1) =~= bs[
                        bi as int
                    ].transactions.take(tj as int) + seq![tv]);
                    assert(new_processed =~= txs_of_blocks(bs.take(bi as int)) + bs[
                        bi as int
                    ].transactions.take(tj + 1));
                }
                proof {
                    processed = processed + seq![tv];
                }
                tj = tj + 1;
            }
            proof {
                lemma_txs_of_blocks_snoc(bs, bi as int);
                assert(bs[bi as int].transactions.take(txs_slice@.len() as int) =~= bs[
                    bi as int
                ].transactions);
            }
            bi = bi + 1;
        }
        proof {
            assert(bs.take(bs.len() as int) =~= bs);
            lemma_chain_seq_len(self.m(), self.tip_hash@, self.height@);
        }
        utxo
    }
}

/// Appending under a fresh key keeps the list faithful to the map that
/// gains that key.
proof fn lemma_utxo_rep_insert(
    es2: Seq<(Vec<u8>, Vec<TXOutput>)>,
    m: Map<Seq<u8>, Seq<TXOutputV>>,
    m2: Map<Seq<u8>, Seq<TXOutputV>>,
    key: Seq<u8>,
    v: Seq<TXOutputV>,
)
    requires
        es2.len() > 0,
        utxo_rep(es2.take(es2.len() - 1), m),
        forall|j: int| 0 <= j < es2.len() - 1 ==> es2.take(es2.len() - 1)[j] == es2[j],
        es2.last().0@ == key,
        es2.last().1.deep_view() == v,
        !m.contains_key(key),
        m2 == m.insert(key, v),
    ensures
        utxo_rep(es2, m2),
{
    let es = es2.take(es2.len() - 1);
    assert forall|i: int, j: int|
        #![trigger es2[i], es2[j]]
        0 <= i < j < es2.len() implies es2[i].0@ != es2[j].0@ by {
        if j < es2.len() - 1 {
            assert(es[i] == es2[i] && es[j] == es2[j]);
        } else {
            assert(es[i] == es2[i]);
            assert(m.contains_key(es[i].0@));
        }
    }
    assert forall|k: Seq<u8>| #[trigger] m2.contains_key(k) implies exists|i: int|
        0 <= i < es2.len() && #[trigger] es2[i].0@ == k by {
        if k == key {
            assert(es2[es2.len() - 1].0@ == k);
        } else {
            assert(m.contains_key(k));
            let i = choose|i: int| 0 <= i < es.len() && es[i].0@ == k;
            assert(es2[i].0@ == k);
        }
    }
    assert forall|i: int| 0 <= i < es2.len() implies m2.contains_key(#[trigger] es2[i].0@)
        && m2[es2[i].0@] == es2[i].1.deep_view() by {
        if i < es2.len() - 1 {
            assert(es[i] == es2[i]);
            assert(m.contains_key(es[i].0@));
            assert(es[i].0@ != key);
        }
    }
}

/// Re-seating an entry at the end with an updated value keeps the list
/// faithful to the map that updates that key.
proof fn lemma_utxo_rep_update(
    pre: Seq<(Vec<u8>, Vec<TXOutput>)>,
    pos: int,
    es2: Seq<(Vec<u8>, Vec<TXOutput>)>,
    m: Map<Seq<u8>, Seq<TXOutputV>>,
    m2: Map<Seq<u8>, Seq<TXOutputV>>,
    key: Seq<u8>,
    v: Seq<TXOutputV>,
)
    requires
        utxo_rep(pre, m),
        0 <= pos < pre.len(),
        pre[pos].0@ == key,
        es2.len() == pre.len(),
        es2.take(es2.len() - 1) == pre.remove(pos),
        es2.last().0@ == key,
        es2.last().1.deep_view() == v,
        m2 == m.insert(key, v),
    ensures
        utxo_rep(es2, m2),
{
    let removed = pre.remove(pos);
    assert(removed.len() == pre.len() - 1);
    assert forall|j: int| 0 <= j < removed.len() implies removed[j] == (if j < pos {
        pre[j]
    } else {
        pre[j + 1]
    }) by {
        assert(removed =~= pre.subrange(0, pos) + pre.subrange(pos + 1, pre.len() as int));
    }
    assert forall|j: int| 0 <= j < removed.len() implies #[trigger] removed[j].0@ != key by {
        if j < pos {
            assert(pre[j].0@ != pre[pos].0@);
        } else {
            assert(pre[j + 1].0@ != pre[pos].0@);
        }
    }
    assert forall|i: int, j: int|
        #![trigger es2[i], es2[j]]
        0 <= i < j < es2.len() implies es2[i].0@ != es2[j].0@ by {
        if j < es2.len() - 1 {
            assert(removed[i] == es2[i] && removed[j] == es2[j]);
        } else {
            assert(removed[i] == es2[i]);
        }
    }
    assert forall|k: Seq<u8>| #[trigger] m2.contains_key(k) implies exists|i: int|
        0 <= i < es2.len() && #[trigger] es2[i].0@ == k by {
        if k == key {
            assert(es2[es2.len() - 1].0@ == k);
        } else {
            assert(m.contains_key(k));
            let i = choose|i: int| 0 <= i < pre.len() && #[trigger] pre[i].0@ == k;
            if i < pos {
                assert(es2[i] == removed[i]);
                assert(es2[i].0@ == k);
            } else {
                assert(i != pos);
                assert(removed[i - 1] == pre[i]);
                assert(es2[i - 1].0@ == k);
            }
        }
    }
    assert forall|i: int| 0 <= i < es2.len() implies m2.contains_key(#[trigger] es2[i].0@)
        && m2[es2[i].0@] == es2[i].1.deep_view() by {
        if i < es2.len() - 1 {
            assert(removed[i] == es2[i]);
            assert(removed[i].0@ != key);
            if i < pos {
                assert(removed[i] == pre[i]);
            } else {
                assert(removed[i] == pre[i + 1]);
            }
        }
    }
}

/// The set of a sequence extended by one element gains exactly that
/// element.
proof fn lemma_to_set_push<B>(s: Seq<B>, x: B)
    ensures
        (s + seq![x]).to_set() == s.to_set().insert(x),
{
    let s2 = s + seq![x];
    assert forall|y: B| s2.to_set().contains(y) implies s.to_set().insert(x).contains(y) by {
        let i = choose|i: int| 0 <= i < s2.len() && s2[i] == y;
        if i < s.len() {
            assert(s[i] == y);
            assert(s.contains(y));
        }
    }
    assert forall|y: B| s.to_set().insert(x).contains(y) implies s2.to_set().contains(y) by {
        if y == x {
            assert(s2[s.len() as int] == y);
            assert(s2.contains(y));
        } else {
            let i = choose|i: int| 0 <= i < s.len() && s[i] == y;
            assert(s2[i] == y);
            assert(s2.contains(y));
        }
    }
    assert(s2.to_set() =~= s.to_set().insert(x));
}

/// Pushing one reference pair grows the spent set by exactly that pair.
proof fn lemma_spent_set_push(s: Seq<(Vec<u8>, u64)>, p: (Vec<u8>, u64))
    ensures
        spent_set(s + seq![p]) == spent_set(s).insert((p.0@, p.1 as int)),
{
    let f = |q: (Vec<u8>, u64)| (q.0@, q.1 as int);
    assert((s + seq![p]).map_values(f) =~= s.map_values(f) + seq![f(p)]);
    lemma_to_set_push(s.map_values(f), f(p));
}

/// Judging one more input extends the reference set by exactly that
/// input's pair.
proof fn lemma_refs_take_push(vin: Seq<TXInputV>, j: int)
    requires
        0 <= j < vin.len(),
    ensures
        vin.take(j + 1).map_values(|i: TXInputV| (i.txid, i.vout)).to_set() == vin.take(
            j,
        ).map_values(|i: TXInputV| (i.txid, i.vout)).to_set().insert((vin[j].txid, vin[j].vout)),
{
    let f = |i: TXInputV| (i.txid, i.vout);
    assert(vin.take(j + 1) =~= vin.take(j) + seq![vin[j]]);
    assert((vin.take(j) + seq![vin[j]]).map_values(f) =~= vin.take(j).map_values(f) + seq![
        f(vin[j]),
    ]);
    lemma_to_set_push(vin.take(j).map_values(f), f(vin[j]));
}

} // verus!
