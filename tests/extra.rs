use beacon_core::execution::{aggregate_execute_payload, any_success, EngineError, Error, ExecutePayloadResponse};
use beacon_core::hashing::int_to_bytes32;
use beacon_core::merkle::merkleize;
use beacon_core::rpc::RPCMethod;
use beacon_core::tree_hash_cache::{BTreeSchema, Error as CacheError, TreeHashCache};
use beacon_core::types::Config;

fn hash(data: &[u8]) -> Vec<u8> {
    <sha2::Sha256 as sha2::Digest>::digest(data).to_vec()
}

fn leaf(b: u8) -> Vec<u8> {
    vec![b; 32]
}

#[test]
fn rpc_method_ids() {
    assert_eq!(RPCMethod::from(0u16), RPCMethod::Hello);
    assert_eq!(RPCMethod::from(12u16), RPCMethod::BeaconBlockBodies);
    assert_eq!(RPCMethod::from(7u16), RPCMethod::Unknown);
    assert_eq!(RPCMethod::BeaconBlockRoots.into(), 10u16);
    assert_eq!(RPCMethod::Unknown.into(), 0u16);
}

#[test]
fn execute_payload_precedence() {
    assert_eq!(aggregate_execute_payload(&vec![Ok(ExecutePayloadResponse::Syncing), Ok(ExecutePayloadResponse::Invalid), Ok(ExecutePayloadResponse::Valid)]), Ok(ExecutePayloadResponse::Valid));
    assert_eq!(aggregate_execute_payload(&vec![Ok(ExecutePayloadResponse::Syncing), Err(EngineError::Offline(1)), Ok(ExecutePayloadResponse::Invalid)]), Ok(ExecutePayloadResponse::Invalid));
    assert_eq!(aggregate_execute_payload(&vec![Err(EngineError::Api(0)), Ok(ExecutePayloadResponse::Syncing)]), Ok(ExecutePayloadResponse::Syncing));
    assert_eq!(
        aggregate_execute_payload(&vec![Err(EngineError::Api(0)), Err(EngineError::Offline(1))]),
        Err(Error::EngineErrors(vec![EngineError::Api(0), EngineError::Offline(1)]))
    );
    assert_eq!(aggregate_execute_payload(&vec![]), Err(Error::EngineErrors(vec![])));
}

#[test]
fn broadcast_needs_one_success() {
    assert_eq!(any_success(&vec![Err(EngineError::Offline(0)), Ok(())]), Ok(()));
    assert_eq!(any_success(&vec![Err(EngineError::Offline(0))]), Err(Error::EngineErrors(vec![EngineError::Offline(0)])));
}

#[test]
fn standard_config() {
    let c = Config::standard();
    assert_eq!(c.shard_count, 20);
    assert_eq!(c.max_validators, 1 << 24);
    assert_eq!(c.default_balance, 32000);
}

#[test]
fn subtrees_become_leaves() {
    let a = TreeHashCache::from_bytes(leaf(1), false, None).unwrap();
    let b = TreeHashCache::from_bytes([leaf(2), leaf(3)].concat(), false, Some(BTreeSchema { depth: 1, lengths: vec![1] })).unwrap();
    let c = TreeHashCache::from_leaves_and_subtrees(None, vec![a, b]).unwrap();
    let expected_root = merkleize([leaf(1), leaf(2)].concat())[0..32].to_vec();
    assert_eq!(c.root().unwrap(), expected_root);
    assert_eq!(c.bytes_len(), 4 * 32);
    assert_eq!(c.changed(3), Ok(true));
    assert_eq!(c.schemas.len(), 1);
    let empty = TreeHashCache::from_bytes(vec![], false, None).unwrap();
    assert_eq!(TreeHashCache::from_leaves_and_subtrees(None, vec![empty]).unwrap_err(), CacheError::CacheNotInitialized);
    let three = vec![
        TreeHashCache::from_bytes(leaf(1), false, None).unwrap(),
        TreeHashCache::from_bytes(leaf(2), false, None).unwrap(),
        TreeHashCache::from_bytes(leaf(3), false, None).unwrap(),
    ];
    let t = TreeHashCache::from_leaves_and_subtrees(None, three).unwrap();
    assert_eq!(t.bytes_len(), 7 * 32);
    assert_eq!(t.root().unwrap(), merkleize([leaf(1), leaf(2), leaf(3)].concat())[0..32].to_vec());
}

#[test]
fn length_nodes_wrap_a_tree() {
    let mut c = TreeHashCache::from_bytes([leaf(4), leaf(5)].concat(), false, None).unwrap();
    c.add_length_nodes(0..2, 2).unwrap();
    assert_eq!(c.bytes_len(), 4 * 32);
    assert_eq!(c.get_chunk(3).unwrap(), int_to_bytes32(2));
    let mut pair = leaf(4);
    pair.extend(int_to_bytes32(2));
    assert_eq!(c.get_chunk(0).unwrap(), hash(&pair));
    assert_eq!(c.get_chunk(1).unwrap(), leaf(4));
}

#[test]
fn mix_in_length_out_of_range() {
    let mut c = TreeHashCache::from_bytes([leaf(4), leaf(5)].concat(), false, None).unwrap();
    assert!(c.mix_in_length(1..2, 3).is_err());
}

#[test]
fn child_schemas_removed_up_to_shallower() {
    let schema = |d: usize| BTreeSchema { depth: d, lengths: vec![] };
    let mut c = TreeHashCache::from_bytes(vec![], false, None).unwrap();
    c.schemas = vec![schema(0), schema(2), schema(3), schema(1), schema(2)];
    c.remove_proceeding_child_schemas(1, 1);
    let depths: Vec<usize> = c.schemas.iter().map(|s| s.depth).collect();
    assert_eq!(depths, vec![0, 1, 2]);
    let o = c.get_overlay(1, 9).unwrap();
    assert_eq!((o.offset, o.depth), (9, 1));
    assert_eq!(c.get_overlay(5, 0).unwrap_err(), CacheError::NoSchemaForIndex(5));
}
