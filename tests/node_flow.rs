use zelealem_node::codec::{decode_block, decode_transaction, DecodeError};
use zelealem_node::consensus::{Validator, ValidatorSet};
use zelealem_node::crypto::{hash_data, sign_data};
use zelealem_node::ledger::{encode_block, encode_transaction, Block, CausalLink, StateObject, Transaction};
use zelealem_node::mempool::Mempool;
use zelealem_node::node::{Node, TickOutcome};
use zelealem_node::validator::ValidationError;

fn sample_tx(seed: u8) -> Transaction {
    let out = StateObject::new([seed; 32], vec![seed, 1], vec![2]);
    let link = CausalLink { source_so_id: [1; 32], target_so_id: [2; 32] };
    let mut tx = Transaction::new(vec![[seed; 32], [3; 32]], vec![out], vec![link]);
    tx.sign([seed; 64]);
    tx
}

#[test]
fn transaction_wire_round_trip() {
    let tx = sample_tx(4);
    let bytes = encode_transaction(&tx);
    let back = decode_transaction(&bytes).unwrap();
    assert_eq!(back.id, tx.id);
    assert_eq!(back.inputs, tx.inputs);
    assert_eq!(back.outputs.len(), 1);
    assert_eq!(back.outputs[0].data, vec![4, 1]);
    assert_eq!(back.causal_links[0].target_so_id, [2; 32]);
    assert_eq!(back.signature, [4; 64]);
    assert_eq!(encode_transaction(&back), bytes);
    assert_eq!(decode_transaction(&bytes[..bytes.len() - 1]).err(), Some(DecodeError::Truncated));
    let mut longer = bytes.clone();
    longer.push(0);
    assert_eq!(decode_transaction(&longer).err(), Some(DecodeError::TrailingBytes));
}

#[test]
fn block_wire_round_trip() {
    let block = Block::new([7; 32], [8; 32], vec![sample_tx(1), sample_tx(2)], vec![9, 9]);
    let bytes = encode_block(&block);
    let back = decode_block(&bytes).unwrap();
    assert_eq!(back.id, block.id);
    assert_eq!(back.previous_hash, [7; 32]);
    assert_eq!(back.transactions.len(), 2);
    assert_eq!(back.vdf_proof, vec![9, 9]);
    assert_eq!(encode_block(&back), bytes);
    assert_eq!(decode_block(&[1, 2, 3]).err(), Some(DecodeError::Truncated));
}

#[test]
fn empty_validator_set_selects_nobody() {
    let set = ValidatorSet::new();
    assert_eq!(set.select_proposer([0; 32]), None);
}

#[test]
fn proposer_is_sorted_key_at_seed_index() {
    let mut a = ValidatorSet::new();
    let mut b = ValidatorSet::new();
    let keys = [[5u8; 32], [1u8; 32], [9u8; 32]];
    for k in keys.iter() {
        a.add_validator(Validator { pub_key: *k, stake: 10 });
    }
    for k in keys.iter().rev() {
        b.add_validator(Validator { pub_key: *k, stake: 10 });
    }
    a.add_validator(Validator { pub_key: [5u8; 32], stake: 99 });
    assert_eq!(a.len(), 3);
    let mut h = [0u8; 32];
    h[0] = 4; // seed 4 -> index 1 -> [5; 32]
    assert_eq!(a.select_proposer(h), Some([5u8; 32]));
    assert_eq!(b.select_proposer(h), Some([5u8; 32]));
    h[0] = 0;
    h[1] = 1; // seed 256 -> 256 mod 3 = 1
    assert_eq!(a.select_proposer(h), Some([5u8; 32]));
    h[1] = 0;
    h[0] = 2;
    assert_eq!(a.select_proposer(h), Some([9u8; 32]));
    h[0] = 0;
    assert_eq!(a.select_proposer(h), Some([1u8; 32]));
}

#[test]
fn mempool_is_bounded_fifo() {
    let mut pool = Mempool::with_capacity(2);
    assert!(pool.add_transaction(sample_tx(1)));
    assert!(pool.add_transaction(sample_tx(2)));
    assert!(!pool.add_transaction(sample_tx(3)));
    assert_eq!(pool.len(), 2);
    let first = pool.get_batch(1);
    assert_eq!(first.len(), 1);
    assert_eq!(first[0].signature, [1; 64]);
    let rest = pool.get_batch(10);
    assert_eq!(rest.len(), 1);
    assert_eq!(rest[0].signature, [2; 64]);
    assert!(pool.get_batch(10).is_empty());
}

#[test]
fn mempool_returns_submission_order() {
    let mut pool = Mempool::new();
    for i in 0..5u8 {
        assert!(pool.add_transaction(sample_tx(i)));
    }
    let batch = pool.get_batch(5);
    let order: Vec<u8> = batch.iter().map(|t| t.signature[0]).collect();
    assert_eq!(order, vec![0, 1, 2, 3, 4]);
}

#[test]
fn received_transactions_fill_the_mempool_and_tick_proposes() {
    let mut node = Node::new();
    let secret = vec![11u8; 32];
    let me = hash_data(&secret);
    let coin = StateObject::new(me, vec![100], vec![]);
    let coin_id = coin.id;
    node.state_db.add_so(coin).unwrap();

    let mut bad = Transaction::new(vec![[1; 32]], vec![], vec![]);
    bad.sign(sign_data(&bad.id, &secret));
    assert_eq!(
        node.receive_transaction(bad).err(),
        Some(ValidationError::InputNotFound([1; 32]))
    );
    assert_eq!(node.mempool.len(), 0);

    let out = StateObject::new(me, vec![60], vec![]);
    let out_id = out.id;
    let mut tx = Transaction::new(vec![coin_id], vec![out], vec![]);
    tx.sign(sign_data(&tx.id, &secret));
    assert_eq!(node.receive_transaction(tx), Ok(true));
    assert_eq!(node.mempool.len(), 1);

    assert!(matches!(node.on_tick(me, 10), TickOutcome::Idle));
    node.validator_set.add_validator(Validator { pub_key: me, stake: 1 });
    assert!(matches!(node.on_tick([0; 32], 10), TickOutcome::Idle));
    assert!(matches!(node.on_tick(me, 10), TickOutcome::Processed(Ok(()))));
    assert_eq!(node.mempool.len(), 0);
    assert_eq!(node.chain.len(), 2);
    assert!(node.state_db.get_so(&coin_id).is_err());
    assert!(node.state_db.get_so(&out_id).is_ok());
    let latest = node.chain.get_latest_block().unwrap();
    assert_eq!(latest.proposer, me);
    assert_eq!(latest.transactions.len(), 1);
}
