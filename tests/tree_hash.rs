use beacon_core::types::{BeaconState, Fork};
use beacon_core::hashing::int_to_bytes32;
use beacon_core::merkle::{merkleize, next_power_of_two, num_sanitized_leaves, pad_for_leaf_count, sanitise_bytes};
use beacon_core::offsets::OffsetHandler;
use beacon_core::tree_hash_cache::{Error, TreeHashCache};

fn hash(data: &[u8]) -> Vec<u8> {
    <sha2::Sha256 as sha2::Digest>::digest(data).to_vec()
}

fn leaf(b: u8) -> Vec<u8> {
    vec![b; 32]
}

fn leaves(bs: &[u8]) -> Vec<u8> {
    bs.iter().flat_map(|b| leaf(*b)).collect()
}

#[test]
fn merkleize_two_leaves() {
    let tree = merkleize(leaves(&[1, 2]));
    assert_eq!(tree.len(), 96);
    let mut pair = leaf(1);
    pair.extend(leaf(2));
    assert_eq!(tree[0..32].to_vec(), hash(&pair));
    assert_eq!(tree[32..96].to_vec(), leaves(&[1, 2]));
}

#[test]
fn merkleize_pads_to_power_of_two() {
    let tree = merkleize(leaves(&[1, 2, 3]));
    assert_eq!(tree.len(), 7 * 32);
    assert_eq!(tree[6 * 32..].to_vec(), vec![0u8; 32]);
    assert_eq!(merkleize(vec![]), vec![0u8; 32]);
    assert_eq!(sanitise_bytes(vec![1, 2, 3]).len(), 32);
    assert_eq!(num_sanitized_leaves(33), 2);
    assert_eq!(next_power_of_two(5), 8);
    let mut b = vec![1u8; 32];
    pad_for_leaf_count(3, &mut b);
    assert_eq!(b.len(), 64);
}

#[test]
fn int_to_bytes32_is_little_endian() {
    let b = int_to_bytes32(0x0102);
    assert_eq!(b.len(), 32);
    assert_eq!(b[0..3], [2, 1, 0]);
}

#[test]
fn from_bytes_requires_whole_chunks() {
    assert_eq!(TreeHashCache::from_bytes(vec![0; 33], false, None).unwrap_err(), Error::BytesAreNotEvenChunks(33));
    let c = TreeHashCache::from_bytes(vec![0; 64], true, None).unwrap();
    assert_eq!(c.changed(1), Ok(true));
    assert_eq!(c.changed(2), Err(Error::NoModifiedFieldForChunk(2)));
    let empty = TreeHashCache::from_bytes(vec![], false, None).unwrap();
    assert!(empty.is_empty());
    assert_eq!(empty.root().unwrap_err(), Error::CacheNotInitialized);
}

fn flat_handler(n_leaves: usize) -> OffsetHandler {
    OffsetHandler::from_lengths(0, vec![1; n_leaves]).unwrap()
}

#[test]
fn offset_handler_layout() {
    let h = OffsetHandler::from_lengths(10, vec![2, 1, 3]).unwrap();
    assert_eq!(h.num_leaf_nodes, 4);
    assert_eq!(h.total_nodes(), 7);
    assert_eq!(h.first_leaf_node(), Ok(13));
    assert_eq!(h.iter_leaf_nodes(), vec![13, 15, 16, 19]);
    assert_eq!(h.next_node(), 20);
    assert_eq!(h.iter_internal_nodes()[0], (10, (11, 12)));
}

#[test]
fn incremental_update_matches_rebuild() {
    let before = merkleize(leaves(&[1, 2, 3, 4]));
    let mut cache = TreeHashCache::from_bytes(before.clone(), false, None).unwrap();
    cache.maybe_update_chunk(5, &leaf(9)).unwrap();
    assert_eq!(cache.changed(5), Ok(true));
    assert_eq!(cache.changed(4), Ok(false));
    cache.update_internal_nodes(&flat_handler(4)).unwrap();
    let rebuilt = merkleize(leaves(&[1, 2, 9, 4]));
    assert_eq!(cache.root().unwrap(), rebuilt[0..32].to_vec());
    assert_eq!(cache.clone().into_merkle_tree(), rebuilt);
    assert_ne!(cache.root().unwrap(), before[0..32].to_vec());
}

#[test]
fn unchanged_write_keeps_cache() {
    let tree = merkleize(leaves(&[5, 6]));
    let mut cache = TreeHashCache::from_bytes(tree.clone(), false, None).unwrap();
    cache.maybe_update_chunk(1, &leaf(5)).unwrap();
    assert_eq!(cache.changed(1), Ok(false));
    cache.update_internal_nodes(&flat_handler(2)).unwrap();
    assert_eq!(cache.root().unwrap(), tree[0..32].to_vec());
    assert_eq!(cache.maybe_update_chunk(7, &leaf(1)), Err(Error::NoModifiedFieldForChunk(7)));
    assert_eq!(cache.modify_chunk(7, &leaf(1)), Err(Error::NoBytesForChunk(7)));
}

#[test]
fn splice_replaces_chunks() {
    let mut cache = TreeHashCache::from_bytes(leaves(&[1, 2, 3]), false, None).unwrap();
    cache.chunk_splice(1..2, leaves(&[7, 8]));
    assert_eq!(cache.bytes_len(), 4 * 32);
    assert_eq!(cache.get_chunk(2).unwrap(), leaf(8));
    assert_eq!(cache.changed(1), Ok(true));
    assert_eq!(cache.changed(3), Ok(false));
    cache.reset_modifications();
    assert_eq!(cache.changed(1), Ok(false));
    let (bytes, flags, schemas) = cache.into_components();
    assert_eq!(bytes, leaves(&[1, 7, 8, 3]));
    assert_eq!(flags, vec![false; 4]);
    assert!(schemas.is_empty());
}

#[test]
fn hash_children_hashes_pair() {
    let cache = TreeHashCache::from_bytes(leaves(&[1, 2]), false, None).unwrap();
    let mut pair = leaf(1);
    pair.extend(leaf(2));
    assert_eq!(cache.hash_children((0, 1)), Ok(hash(&pair)));
    assert_eq!(cache.either_modified((0, 5)), Err(Error::NoModifiedFieldForChunk(5)));
}

#[test]
fn default_cache_is_empty() {
    let c = TreeHashCache::default();
    assert!(c.is_empty());
    assert_eq!(c.bytes_len(), 0);
    assert_eq!(c.root().unwrap_err(), Error::CacheNotInitialized);
}

#[test]
fn offset_handler_for_state() {
    let state = BeaconState {
        slot: 0,
        genesis_time: 0,
        fork: Fork::default(),
        validator_registry: vec![],
        validator_balances: vec![],
        validator_registry_update_epoch: 0,
        latest_randao_mixes: vec![],
        previous_epoch_start_shard: 0,
        current_epoch_start_shard: 0,
        previous_calculation_epoch: 0,
        current_calculation_epoch: 0,
        previous_epoch_seed: [0; 32],
        current_epoch_seed: [0; 32],
        previous_justified_epoch: 0,
        justified_epoch: 0,
        justification_bitfield: 0,
        finalized_epoch: 0,
        latest_crosslinks: vec![],
        latest_block_roots: vec![],
        latest_penalized_balances: vec![],
        latest_attestations: vec![],
        batched_block_roots: vec![],
    };
    let h = OffsetHandler::new(&state, 0).unwrap();
    assert_eq!(h.num_leaf_nodes, 32);
    assert_eq!(h.total_nodes(), 63);
    assert_eq!(h.first_leaf_node(), Ok(31));
}

#[test]
fn update_subtree_at_offset() {
    let mut bytes = leaf(7);
    bytes.extend(merkleize(leaves(&[1, 2])));
    let mut cache = TreeHashCache::from_bytes(bytes, false, None).unwrap();
    cache.maybe_update_chunk(3, &leaf(5)).unwrap();
    let h = OffsetHandler::from_lengths(1, vec![1, 1]).unwrap();
    cache.update_internal_nodes(&h).unwrap();
    let mut pair = leaf(1);
    pair.extend(leaf(5));
    assert_eq!(cache.get_chunk(1).unwrap(), hash(&pair));
    assert_eq!(cache.get_chunk(0).unwrap(), leaf(7));
    assert_eq!(cache.changed(1), Ok(true));
    assert_eq!(cache.changed(0), Ok(false));
}
