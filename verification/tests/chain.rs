// Tests for the chain store, the traversal, and the unspent-output index,
// each over a store of its own that vanishes with the test.

use toychain::blockchain::BlockChain;
use toychain::store::KvDb;
use toychain::transaction::Transaction;
use toychain::utxo_set::UtxoSet;
use toychain::ChainError;

const ADDR_A: &str = "abxgtsunkodojahucd";
const ADDR_B: &str = "hegtsodoucahjsubxg";

fn digest_of(address: &str) -> Vec<u8> {
    let decoded = bs58::decode(address).into_vec().unwrap();
    decoded[1..decoded.len() - 4].to_vec()
}

#[test]
fn create_blockchain() {
    let blockchain = BlockChain::create_blockchain_with(KvDb::open_temporary(), ADDR_A).unwrap();
    println!("Tip block hash: {}", blockchain.get_tip_hash());
    let tip_block_hash = blockchain.blocks.get("tip_block_hash".as_bytes()).unwrap();
    let tip_block_hash = String::from_utf8(tip_block_hash).unwrap();
    assert_eq!(tip_block_hash, blockchain.get_tip_hash());
    let tip_block_data = blockchain.blocks.get(tip_block_hash.as_bytes()).unwrap();
    let tip_block = toychain::block::Block::deserialize(&tip_block_data).unwrap();
    assert_eq!(tip_block.get_height(), 0);
    assert_eq!(tip_block.get_pre_block_hash(), "None");
    assert_eq!(tip_block.get_hash(), tip_block_hash);
    let txs = tip_block.get_transactions();
    assert_eq!(txs.len(), 1);
    assert!(txs[0].is_coinbase());
}

#[test]
fn mine_block() {
    let mut blockchain =
        BlockChain::create_blockchain_with(KvDb::open_temporary(), "bdsaowaappoqcvxhs").unwrap();
    let genesis_hash = blockchain.get_tip_hash();
    let transaction = Transaction::new_coinbase_tx("bdsaowaappoqcvxhs").unwrap();
    let block = blockchain.mine_block(&[transaction]).unwrap();
    println!("mined block: {}", block.get_hash());
    assert_eq!(block.get_height(), 1);
    assert_eq!(block.get_pre_block_hash(), genesis_hash);
    assert_eq!(blockchain.get_tip_hash(), block.get_hash());
    assert_eq!(blockchain.get_best_height().unwrap(), 1);
    // The stored tip block is the mined block.
    let tip_block_hash = blockchain.blocks.get("tip_block_hash".as_bytes()).unwrap();
    let tip_block_hash = String::from_utf8(tip_block_hash).unwrap();
    let tip_block = toychain::block::Block::deserialize(
        &blockchain.blocks.get(tip_block_hash.as_bytes()).unwrap(),
    )
    .unwrap();
    assert_eq!(tip_block.get_hash(), block.get_hash());
}

#[test]
fn view_all_block() {
    let mut blockchain =
        BlockChain::create_blockchain_with(KvDb::open_temporary(), ADDR_A).unwrap();
    let transaction = Transaction::new_coinbase_tx(ADDR_A).unwrap();
    let block = blockchain.mine_block(&[transaction]).unwrap();
    println!("mined block: {}", block.get_hash());
    let mut block_iterator = blockchain.iterator();
    let mut visited: Vec<String> = Vec::new();
    while let Some(b) = block_iterator.next() {
        println!("block: {}", b.get_hash());
        visited.push(b.get_hash().to_string());
    }
    // Tip to genesis: exactly best_height + 1 blocks.
    assert_eq!(visited.len(), blockchain.get_best_height().unwrap() + 1);
    assert_eq!(visited.len(), 2);
    assert_eq!(visited[0], block.get_hash());
}

#[test]
fn test_find_spendable() {
    let mut blockchain =
        BlockChain::create_blockchain_with(KvDb::open_temporary(), ADDR_A).unwrap();
    let transaction = Transaction::new_coinbase_tx(ADDR_B).unwrap();
    let _ = blockchain.mine_block(&[transaction]).unwrap();

    let utxo = blockchain.find_utxo();
    for (txid, outs) in utxo.iter() {
        println!("txid: {}", toychain::utils::hex_encode(txid));
        for txo in outs {
            println!("  value: {}", txo.get_value());
        }
    }

    let mut utxo_set = UtxoSet::new(&blockchain);
    utxo_set.reindex();
    let pub_key_hash = digest_of(ADDR_B);
    let (accumulated, spendable_outputs) =
        utxo_set.find_spendable_outputs(&pub_key_hash, 8).unwrap();
    println!("accumulated: {}", accumulated);
    println!("entries: {}", spendable_outputs.len());
    assert_eq!(accumulated, 10);
    assert_eq!(spendable_outputs.len(), 1);
    assert_eq!(spendable_outputs[0].1, vec![0usize]);
}

#[test]
fn all_blocks_spans_whole_chain() {
    let mut blockchain =
        BlockChain::create_blockchain_with(KvDb::open_temporary(), ADDR_A).unwrap();
    for _ in 0..3 {
        let tx = Transaction::new_coinbase_tx(ADDR_B).unwrap();
        blockchain.mine_block(&[tx]).unwrap();
    }
    let blocks = blockchain.all_blocks();
    assert_eq!(blocks.len(), 4);
    assert_eq!(blocks.len(), blockchain.get_best_height().unwrap() + 1);
    // Tip first, every block linking to the next, genesis last.
    for w in 0..blocks.len() - 1 {
        assert_eq!(blocks[w].get_pre_block_hash(), blocks[w + 1].get_hash());
        assert_eq!(blocks[w].get_height(), blocks[w + 1].get_height() + 1);
    }
    assert_eq!(blocks[blocks.len() - 1].get_pre_block_hash(), "None");
}

#[test]
fn genesis_utxo_scan() {
    let blockchain = BlockChain::create_blockchain_with(KvDb::open_temporary(), ADDR_A).unwrap();
    let utxo = blockchain.find_utxo();
    let genesis = &blockchain.all_blocks()[0];
    let genesis_txid = genesis.get_transactions()[0].get_id().to_vec();
    assert_eq!(utxo.len(), 1);
    assert_eq!(utxo[0].0, genesis_txid);
    assert_eq!(utxo[0].1.len(), 1);
    assert_eq!(utxo[0].1[0].get_value(), 10);
    assert!(utxo[0].1[0].is_locked_with_key(&digest_of(ADDR_A)));
}

#[test]
fn reindex_is_idempotent() {
    let mut blockchain =
        BlockChain::create_blockchain_with(KvDb::open_temporary(), ADDR_A).unwrap();
    let tx = Transaction::new_coinbase_tx(ADDR_B).unwrap();
    blockchain.mine_block(&[tx]).unwrap();
    let mut utxo_set = UtxoSet::new(&blockchain);
    utxo_set.reindex();
    let first = utxo_set.utxo.entries();
    utxo_set.reindex();
    let second = utxo_set.utxo.entries();
    assert_eq!(first, second);
    assert_eq!(first.len(), 2);
}

#[test]
fn spendable_selection_from_two_rewards() {
    // Genesis pays 10 to the first owner; a second block pays 10 to the
    // second owner; after a rebuild, asking the first owner for 8 yields
    // the whole genesis output.
    let mut blockchain =
        BlockChain::create_blockchain_with(KvDb::open_temporary(), ADDR_A).unwrap();
    let genesis_txid = blockchain.all_blocks()[0].get_transactions()[0].get_id().to_vec();
    let tx = Transaction::new_coinbase_tx(ADDR_B).unwrap();
    blockchain.mine_block(&[tx]).unwrap();
    let mut utxo_set = UtxoSet::new(&blockchain);
    utxo_set.reindex();
    let (accumulated, selected) =
        utxo_set.find_spendable_outputs(&digest_of(ADDR_A), 8).unwrap();
    assert_eq!(accumulated, 10);
    assert_eq!(selected.len(), 1);
    assert_eq!(selected[0].0, genesis_txid);
    assert_eq!(selected[0].1, vec![0usize]);
}

#[test]
fn insufficient_funds_returned_short() {
    let blockchain = BlockChain::create_blockchain_with(KvDb::open_temporary(), ADDR_A).unwrap();
    let mut utxo_set = UtxoSet::new(&blockchain);
    utxo_set.reindex();
    let (accumulated, selected) =
        utxo_set.find_spendable_outputs(&digest_of(ADDR_A), 1000).unwrap();
    // The caller must treat a total short of the request as insufficient.
    assert_eq!(accumulated, 10);
    assert!(accumulated < 1000);
    assert_eq!(selected.len(), 1);
}

#[test]
fn zero_amount_selects_nothing() {
    let blockchain = BlockChain::create_blockchain_with(KvDb::open_temporary(), ADDR_A).unwrap();
    let mut utxo_set = UtxoSet::new(&blockchain);
    utxo_set.reindex();
    let (accumulated, selected) =
        utxo_set.find_spendable_outputs(&digest_of(ADDR_A), 0).unwrap();
    // The guard is short-of-amount, so nothing is ever taken.
    assert_eq!(accumulated, 0);
    assert!(selected.is_empty());
}

#[test]
fn bad_genesis_address_is_rejected() {
    let r = BlockChain::create_blockchain_with(KvDb::open_temporary(), "0OIl");
    assert!(matches!(r, Err(ChainError::InvalidAddress)));
}

#[test]
fn dangling_tip_is_corrupt() {
    let db = KvDb::open_temporary();
    let mut blocks = db.open_tree("blockchain");
    blocks.insert("tip_block_hash".as_bytes(), "0xdeadbeef".as_bytes());
    let r = BlockChain::create_blockchain_with(db, ADDR_A);
    assert!(matches!(r, Err(ChainError::CorruptState)));
}

#[test]
fn mangled_index_record_fails_selection() {
    let blockchain = BlockChain::create_blockchain_with(KvDb::open_temporary(), ADDR_A).unwrap();
    let mut utxo_set = UtxoSet::new(&blockchain);
    utxo_set.utxo.insert(&[1, 2, 3], &[0xff, 0xee]);
    let r = utxo_set.find_spendable_outputs(&digest_of(ADDR_A), 8);
    assert!(matches!(r, Err(ChainError::SerializationFailure)));
}

#[test]
fn reopened_store_keeps_the_chain() {
    let db = KvDb::open_temporary();
    let tip;
    {
        let mut blockchain =
            BlockChain::create_blockchain_with(db.clone_handle(), ADDR_A).unwrap();
        let tx = Transaction::new_coinbase_tx(ADDR_B).unwrap();
        blockchain.mine_block(&[tx]).unwrap();
        tip = blockchain.get_tip_hash();
    }
    // A second chain store over the same key spaces loads and checks the
    // persisted chain instead of creating a new one.
    let reopened = BlockChain::create_blockchain_with(db, ADDR_B).unwrap();
    assert_eq!(reopened.get_tip_hash(), tip);
    assert_eq!(reopened.get_best_height().unwrap(), 1);
}
