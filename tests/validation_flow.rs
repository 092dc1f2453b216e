use zelealem_node::crypto::{self, sign_data};
use zelealem_node::ledger::{Block, StateObject, Transaction};
use zelealem_node::node::{Node, ProcessBlockError};
use zelealem_node::state_db::{StateDB, StateError};
use zelealem_node::validator::{TransactionValidator, ValidationError};

#[test]
fn test_valid_transaction_flow() {
    let mut state = StateDB::new();
    let (alice_pub_key, alice_sec_key) = crypto::generate_keypair().unwrap();

    let initial_so = StateObject::new(alice_pub_key, vec![100], vec![]);
    let initial_so_id = initial_so.id;
    state.add_so(initial_so).unwrap();

    let mut tx = Transaction::new(vec![initial_so_id], vec![], vec![]);
    let signature = sign_data(&tx.id, &alice_sec_key);
    tx.sign(signature);

    let validator = TransactionValidator::new(&state);
    assert!(validator.validate_transaction(&tx).is_ok());
}

#[test]
fn test_invalid_signature_flow() {
    let mut state = StateDB::new();
    let (alice_pub_key, _alice_sec_key) = crypto::generate_keypair().unwrap();
    let (_bob_pub_key, bob_sec_key) = crypto::generate_keypair().unwrap();

    let initial_so = StateObject::new(alice_pub_key, vec![100], vec![]);
    let initial_so_id = initial_so.id;
    state.add_so(initial_so).unwrap();

    let mut tx = Transaction::new(vec![initial_so_id], vec![], vec![]);
    let bob_signature = sign_data(&tx.id, &bob_sec_key);
    tx.sign(bob_signature);

    let validator = TransactionValidator::new(&state);
    let result = validator.validate_transaction(&tx);
    assert!(result.is_err());
    assert_eq!(result.unwrap_err(), ValidationError::InvalidSignature);
}

#[test]
fn test_node_processes_valid_block() {
    let mut node = Node::new();
    let (alice_pub_key, alice_sec_key) = crypto::generate_keypair().unwrap();

    let initial_so = StateObject::new(alice_pub_key, vec![100], vec![]);
    let initial_so_id = initial_so.id;
    node.state_db.add_so(initial_so).unwrap();

    let new_so = StateObject::new(alice_pub_key, vec![50], vec![]);
    let new_so_id = new_so.id;

    let mut tx = Transaction::new(vec![initial_so_id], vec![new_so], vec![]);
    let signature = sign_data(&tx.id, &alice_sec_key);
    tx.sign(signature);

    let latest_hash = node.chain.get_latest_hash();
    let new_block = Block::new(latest_hash, alice_pub_key, vec![tx], vec![]);

    let result = node.process_block(new_block);
    assert!(result.is_ok());

    assert!(node.state_db.get_so(&initial_so_id).is_err());
    assert!(node.state_db.get_so(&new_so_id).is_ok());
    assert_ne!(node.chain.get_latest_hash(), latest_hash);
}

fn alice_with_coin(state: &mut StateDB) -> ([u8; 32], Vec<u8>, [u8; 32]) {
    let secret = vec![7u8; 32];
    let public = crypto::hash_data(&secret);
    let so = StateObject::new(public, vec![100], vec![]);
    let id = so.id;
    state.add_so(so).unwrap();
    (public, secret, id)
}

fn signed(inputs: Vec<[u8; 32]>, outputs: Vec<StateObject>, secret: &[u8]) -> Transaction {
    let mut tx = Transaction::new(inputs, outputs, vec![]);
    let signature = sign_data(&tx.id, secret);
    tx.sign(signature);
    tx
}

#[test]
fn key_derivation_and_signature_layout() {
    let secret = vec![1u8, 2, 3];
    let public = crypto::hash_data(&secret);
    let msg = [9u8; 32];
    let sig = sign_data(&msg, &secret);
    assert_eq!(&sig[32..], &public[..]);
    let mut joined = msg.to_vec();
    joined.extend_from_slice(&secret);
    assert_eq!(&sig[..32], &crypto::hash_data(&joined)[..]);
    assert!(crypto::verify_signature(&sig, &msg, &public));
    assert!(!crypto::verify_signature(&sig, &msg, &[0u8; 32]));
}

#[test]
fn sha256_known_value() {
    let digest = crypto::hash_data(b"abc");
    assert_eq!(digest[0], 0xba);
    assert_eq!(digest[1], 0x78);
    assert_eq!(digest[31], 0xad);
}

#[test]
fn generated_keys_differ() {
    let (a_pub, a_sec) = crypto::generate_keypair().unwrap();
    let (b_pub, _) = crypto::generate_keypair().unwrap();
    assert_eq!(a_sec.len(), 32);
    assert_eq!(a_pub, crypto::hash_data(&a_sec));
    assert_ne!(a_pub, b_pub);
}

#[test]
fn content_addressing_of_constructors() {
    let owner = [3u8; 32];
    let a = StateObject::new(owner, vec![1, 2], vec![]);
    let b = StateObject::new(owner, vec![1, 2], vec![]);
    let c = StateObject::new(owner, vec![1, 3], vec![]);
    assert_eq!(a.id, b.id);
    assert_ne!(a.id, c.id);
    let mut expected = owner.to_vec();
    expected.extend_from_slice(&2u64.to_le_bytes());
    expected.extend_from_slice(&[1, 2]);
    expected.extend_from_slice(&0u64.to_le_bytes());
    assert_eq!(a.id, crypto::hash_data(&expected));

    let t1 = Transaction::new(vec![a.id], vec![], vec![]);
    let mut t2 = Transaction::new(vec![a.id], vec![], vec![]);
    t2.sign([5u8; 64]);
    assert_eq!(t1.id, t2.id);
    assert_eq!(t1.signature, [0u8; 64]);

    let b1 = Block::new([0u8; 32], owner, vec![], vec![]);
    let b2 = Block::new([0u8; 32], owner, vec![], vec![1]);
    assert_ne!(b1.id, b2.id);
}

#[test]
fn validation_errors_in_order() {
    let mut state = StateDB::new();
    let (public, secret, id) = alice_with_coin(&mut state);

    let mut tampered = signed(vec![id], vec![], &secret);
    tampered.inputs.push([1u8; 32]);
    let v = TransactionValidator::new(&state);
    assert_eq!(v.validate_transaction(&tampered), Err(ValidationError::MismatchedId));

    let no_inputs = signed(vec![], vec![], &secret);
    assert_eq!(v.validate_transaction(&no_inputs), Err(ValidationError::NoInputs));

    let missing = signed(vec![id, [8u8; 32]], vec![], &secret);
    assert_eq!(
        v.validate_transaction(&missing),
        Err(ValidationError::InputNotFound([8u8; 32]))
    );

    let mut state2 = StateDB::new();
    let mine = StateObject::new(public, vec![1], vec![]);
    let theirs = StateObject::new([4u8; 32], vec![1], vec![]);
    let (mine_id, theirs_id) = (mine.id, theirs.id);
    state2.add_so(mine).unwrap();
    state2.add_so(theirs).unwrap();
    let mixed = signed(vec![mine_id, theirs_id], vec![], &secret);
    let v2 = TransactionValidator::new(&state2);
    assert_eq!(v2.validate_transaction(&mixed), Err(ValidationError::MultipleOwners));
}

#[test]
fn state_db_operations() {
    let mut db = StateDB::new();
    let so = StateObject::new([2u8; 32], vec![1], vec![2]);
    let id = so.id;
    let twin = StateObject::new([2u8; 32], vec![1], vec![2]);
    assert_eq!(db.get_so(&id).err(), Some(StateError::NotFound(id)));
    assert!(db.add_so(so).is_ok());
    assert_eq!(db.add_so(twin), Err(StateError::AlreadyExists(id)));
    assert_eq!(db.get_so(&id).unwrap().data, vec![1]);
    let removed = db.remove_so(&id).unwrap();
    assert_eq!(removed.validation_logic, vec![2]);
    assert_eq!(db.remove_so(&id).err(), Some(StateError::NotFound(id)));
}

#[test]
fn bad_linkage_leaves_node_unchanged() {
    let mut node = Node::new();
    let (public, secret, id) = alice_with_coin(&mut node.state_db);
    let tx = signed(vec![id], vec![], &secret);
    let genesis = node.chain.get_latest_hash();
    let block = Block::new([0xFFu8; 32], public, vec![tx], vec![]);
    assert!(matches!(
        node.process_block(block),
        Err(ProcessBlockError::MismatchedPreviousHash)
    ));
    assert!(node.state_db.get_so(&id).is_ok());
    assert_eq!(node.chain.get_latest_hash(), genesis);
    assert_eq!(node.chain.len(), 1);
}

#[test]
fn invalid_transaction_rejects_whole_block() {
    let mut node = Node::new();
    let (public, secret, id) = alice_with_coin(&mut node.state_db);
    let good = signed(vec![id], vec![], &secret);
    let bad = signed(vec![[6u8; 32]], vec![], &secret);
    let block = Block::new(node.chain.get_latest_hash(), public, vec![good, bad], vec![]);
    assert!(matches!(
        node.process_block(block),
        Err(ProcessBlockError::TransactionError(ValidationError::InputNotFound(_)))
    ));
    assert!(node.state_db.get_so(&id).is_ok());
    assert_eq!(node.chain.len(), 1);
}

#[test]
fn double_spend_within_block_is_rejected() {
    let mut node = Node::new();
    let (public, secret, id) = alice_with_coin(&mut node.state_db);
    let first = signed(vec![id], vec![StateObject::new(public, vec![1], vec![])], &secret);
    let second = signed(vec![id], vec![StateObject::new(public, vec![2], vec![])], &secret);
    let block = Block::new(node.chain.get_latest_hash(), public, vec![first, second], vec![]);
    assert!(matches!(
        node.process_block(block),
        Err(ProcessBlockError::TransactionError(ValidationError::StateError(
            StateError::NotFound(x)
        ))) if x == id
    ));
    assert!(node.state_db.get_so(&id).is_ok());
    assert_eq!(node.chain.len(), 1);
}

#[test]
fn existing_output_is_rejected() {
    let mut node = Node::new();
    let (public, secret, id) = alice_with_coin(&mut node.state_db);
    let again = StateObject::new(public, vec![100], vec![]);
    let tx = signed(vec![id], vec![again], &secret);
    let block = Block::new(node.chain.get_latest_hash(), public, vec![tx], vec![]);
    assert!(matches!(
        node.process_block(block),
        Err(ProcessBlockError::TransactionError(ValidationError::StateError(
            StateError::AlreadyExists(x)
        ))) if x == id
    ));
    assert_eq!(node.chain.len(), 1);
}

#[test]
fn accepted_block_conserves_other_objects() {
    let mut node = Node::new();
    let (public, secret, id) = alice_with_coin(&mut node.state_db);
    let bystander = StateObject::new([9u8; 32], vec![42], vec![]);
    let bystander_id = bystander.id;
    node.state_db.add_so(bystander).unwrap();
    let out = StateObject::new(public, vec![50], vec![]);
    let out_id = out.id;
    let tx = signed(vec![id], vec![out], &secret);
    let block = Block::new(node.chain.get_latest_hash(), public, vec![tx], vec![]);
    let block_id = block.id;
    assert!(node.process_block(block).is_ok());
    assert_eq!(node.state_db.get_so(&id).err(), Some(StateError::NotFound(id)));
    assert_eq!(node.state_db.get_so(&out_id).unwrap().data, vec![50]);
    assert_eq!(node.state_db.get_so(&bystander_id).unwrap().data, vec![42]);
    assert_eq!(node.chain.get_latest_hash(), block_id);
    assert_eq!(node.chain.len(), 2);
}
