// Tests for the record types: transactions, outputs, blocks, the binary
// codec, the hex display form, and address derivation.

use toychain::block::Block;
use toychain::transaction::{TXInput, TXOutput, Transaction};
use toychain::utils::hex_encode;
use toychain::wallet::{checksum, hash_pub_key, Wallet};

const ADDR_A: &str = "abxgtsunkodojahucd";

#[test]
fn print_transactions() {
    let tx = Transaction::new_coinbase_tx(ADDR_A).unwrap();
    println!("tx.id: {}", hex_encode(&tx.get_id().to_vec()));
    for item in tx.get_vin() {
        println!("  txid: {}", hex_encode(&item.get_txid().to_vec()));
        println!("  vout: {}", item.get_vout());
    }
    for item in tx.get_vout() {
        println!("  value: {}", item.get_value());
    }
}

#[test]
fn print_block1() {
    let tx = Transaction::new_coinbase_tx(ADDR_A).unwrap();
    let tx = vec![tx];
    let genesis_pre_hash = String::from("0x0");
    let bk = Block::new(genesis_pre_hash, tx, 0).unwrap();
    println!("timestamp: {}", bk.get_timestamp());
    println!("pre_block_hash: {}", bk.get_pre_block_hash());
    println!("hash: {}", bk.get_hash());
    println!("height: {}", bk.get_height());
}

#[test]
fn print_block2() {
    let tx = Transaction::new_coinbase_tx("Heobockchain").unwrap();
    let tx = vec![tx];
    let genesis_pre_hash = String::from("0x12324567");
    let bk = Block::new(genesis_pre_hash, tx, 0).unwrap();
    println!("hash: {}", bk.get_hash());
}

#[test]
fn sealed_block_meets_target() {
    let tx = Transaction::new_coinbase_tx(ADDR_A).unwrap();
    let bk = Block::new(String::from("0x0"), vec![tx], 0).unwrap();
    let hash = bk.get_hash().as_bytes();
    // The display form is 0x followed by 64 hex digits; at difficulty 2 the
    // top two bits are zero, so the first hex digit is at most 3.
    assert_eq!(hash.len(), 66);
    assert_eq!(&hash[0..2], b"0x");
    assert!(hash[2] <= b'3');
}

#[test]
fn coinbase_shape() {
    let tx = Transaction::new_coinbase_tx(ADDR_A).unwrap();
    assert!(tx.is_coinbase());
    assert_eq!(tx.get_vin().len(), 1);
    assert_eq!(tx.get_vin()[0].get_txid().len(), 0);
    assert_eq!(tx.get_vout().len(), 1);
    assert_eq!(tx.get_vout()[0].get_value(), 10);
    let decoded = bs58::decode(ADDR_A).into_vec().unwrap();
    let digest = &decoded[1..decoded.len() - 4];
    assert!(tx.get_vout()[0].is_locked_with_key(digest));
}

#[test]
fn coinbase_is_iff() {
    // Two inputs: not coinbase, whatever the keys hold.
    let two_inputs = Transaction {
        id: vec![1],
        vin: vec![TXInput::default(), TXInput::default()],
        vout: vec![],
    };
    assert!(!two_inputs.is_coinbase());
    // One input with a non-empty public key: not coinbase.
    let keyed_input = Transaction {
        id: vec![2],
        vin: vec![TXInput { txid: vec![9], vout: 0, signature: vec![], pub_key: vec![7] }],
        vout: vec![],
    };
    assert!(!keyed_input.is_coinbase());
    // One input with an empty public key: coinbase, even with a txid set.
    let bare_input = Transaction {
        id: vec![3],
        vin: vec![TXInput { txid: vec![9], vout: 1, signature: vec![5], pub_key: vec![] }],
        vout: vec![],
    };
    assert!(bare_input.is_coinbase());
}

#[test]
fn bad_address_rejected() {
    // '0', 'O', 'I' and 'l' are outside the base58 alphabet.
    assert!(TXOutput::new(5, "0OIl").is_none());
    assert!(Transaction::new_coinbase_tx("0OIl").is_none());
    // Decodes, but too short to carry version, digest and checksum.
    assert!(TXOutput::new(5, "2").is_none());
}

#[test]
fn output_digest_extraction() {
    let out = TXOutput::new(7, ADDR_A).unwrap();
    assert_eq!(out.get_value(), 7);
    let decoded = bs58::decode(ADDR_A).into_vec().unwrap();
    let digest = &decoded[1..decoded.len() - 4];
    assert!(out.is_locked_with_key(digest));
    assert!(!out.is_locked_with_key(&[0u8; 20]));
}

#[test]
fn block_record_round_trip() {
    let tx = Transaction::new_coinbase_tx(ADDR_A).unwrap();
    let bk = Block::new(String::from("0x0"), vec![tx], 3).unwrap();
    let bytes = bk.serialize();
    let back = Block::deserialize(&bytes).unwrap();
    assert_eq!(back.get_timestamp(), bk.get_timestamp());
    assert_eq!(back.get_pre_block_hash(), bk.get_pre_block_hash());
    assert_eq!(back.get_hash(), bk.get_hash());
    assert_eq!(back.get_height(), bk.get_height());
    assert_eq!(back.get_transactions().len(), 1);
    assert_eq!(
        back.get_transactions()[0].get_id(),
        bk.get_transactions()[0].get_id()
    );
    // A mangled record is rejected rather than misread.
    let mut mangled = bytes.clone();
    mangled.pop();
    assert!(Block::deserialize(&mangled).is_none());
}

#[test]
fn hex_display_form() {
    assert_eq!(hex_encode(&vec![]), "0x0");
    assert_eq!(hex_encode(&vec![0xab, 0x01, 0xff]), "0xab01ff");
    assert_eq!(hex_encode(&vec![0x00]), "0x00");
}

#[test]
fn wallet_address_carries_key_digest() {
    let w = Wallet::new().unwrap();
    let addr = w.get_address();
    let decoded = bs58::decode(&addr).into_vec().unwrap();
    // Version byte, then the public-key digest, then four checksum bytes.
    assert_eq!(decoded[0], 0x00);
    let digest = &decoded[1..decoded.len() - 4];
    assert_eq!(digest, hash_pub_key(w.get_public_key()).as_slice());
    let check = checksum(&decoded[..decoded.len() - 4]);
    assert_eq!(&decoded[decoded.len() - 4..], check.as_slice());
    assert!(!w.get_pkcs8().is_empty());
}

#[test]
fn transaction_id_is_content_digest() {
    let a = Transaction::new_coinbase_tx(ADDR_A).unwrap();
    let b = Transaction::new_coinbase_tx(ADDR_A).unwrap();
    let c = Transaction::new_coinbase_tx("hegtsodoucahjsubxg").unwrap();
    // Same content, same id; different recipient, different id.
    assert_eq!(a.get_id(), b.get_id());
    assert_ne!(a.get_id(), c.get_id());
    assert_eq!(a.get_id().len(), 32);
}
