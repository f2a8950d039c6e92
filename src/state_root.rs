use crate::codec::{
    append_crosslink_list, append_hash_list, append_pending_list, append_u64_list, append_validator_list, cat_crosslink,
    cat_hash, cat_pending, cat_u64, cat_validator, with_len,
};
use crate::hashing::{hash, sha256_of};
use crate::merkle::{chunk_at, heap_consistent, is_merkle_tree_of, is_pow2, is_sanitised, lemma_pow2_unique, lemma_root_stable, merkleize, zero_pad, HASHSIZE};
use crate::offsets::{prefix_len, OffsetHandler};
use crate::ssz::{append_hash, append_u64, enc_fork, enc_u64};
use crate::tree_hash_cache::{leaves_written_since, lemma_incremental_consistent, CachedTreeHash, Error, ItemType, TreeHashCache};
use crate::types::BeaconState;
use vstd::prelude::*;

verus! {

/// Fields of the state, each one leaf of its tree.
pub const STATE_FIELDS: usize = 22;

/// Leaves of the state's tree: the fields, padded to a power of two.
pub const STATE_TREE_LEAVES: usize = 32;

/// The encoding of field `k` of `s`, in declaration order.
pub open spec fn field_enc(s: &BeaconState, k: int) -> Seq<u8> {
    if k < 0 {
        Seq::empty()
    } else if k == 0 {
        enc_u64(s.slot)
    } else if k == 1 {
        enc_u64(s.genesis_time)
    } else if k == 2 {
        enc_fork(s.fork)
    } else if k == 3 {
        with_len(cat_validator(s.validator_registry@))
    } else if k == 4 {
        with_len(cat_u64(s.validator_balances@))
    } else if k == 5 {
        enc_u64(s.validator_registry_update_epoch)
    } else if k == 6 {
        with_len(cat_hash(s.latest_randao_mixes@))
    } else if k == 7 {
        enc_u64(s.previous_epoch_start_shard)
    } else if k == 8 {
        enc_u64(s.current_epoch_start_shard)
    } else if k == 9 {
        enc_u64(s.previous_calculation_epoch)
    } else if k == 10 {
        enc_u64(s.current_calculation_epoch)
    } else if k == 11 {
        s.previous_epoch_seed@
    } else if k == 12 {
        s.current_epoch_seed@
    } else if k == 13 {
        enc_u64(s.previous_justified_epoch)
    } else if k == 14 {
        enc_u64(s.justified_epoch)
    } else if k == 15 {
        enc_u64(s.justification_bitfield)
    } else if k == 16 {
        enc_u64(s.finalized_epoch)
    } else if k == 17 {
        with_len(cat_crosslink(s.latest_crosslinks@))
    } else if k == 18 {
        with_len(cat_hash(s.latest_block_roots@))
    } else if k == 19 {
        with_len(cat_u64(s.latest_penalized_balances@))
    } else if k == 20 {
        with_len(cat_pending(s.latest_attestations@))
    } else if k == 21 {
        with_len(cat_hash(s.batched_block_roots@))
    } else {
        Seq::empty()
    }
}

/// The leaves of the state's tree: the hash of each field's encoding, then zero chunks.
pub open spec fn state_leaves(s: &BeaconState) -> Seq<u8> {
    Seq::new(1024, |i: int| if i / 32 < 22 { sha256_of(field_enc(s, i / 32))[i % 32] } else { 0u8 })
}

proof fn lemma_pow2_32()
    ensures
        is_pow2(32),
{
    assert(is_pow2(1));
    assert(is_pow2(2));
    assert(is_pow2(4));
    assert(is_pow2(8));
    assert(is_pow2(16));
}

proof fn lemma_ones_prefix(lengths: Seq<usize>, i: int)
    requires
        forall|k: int| 0 <= k < lengths.len() ==> lengths[k] == 1,
        0 <= i,
    ensures
        prefix_len(lengths, i) == i,
    decreases i,
{
    if i > 0 {
        lemma_ones_prefix(lengths, i - 1);
    }
}

/// History independence of the state root: two consistent trees over the leaves of `s` are
/// the same tree, however each was produced.
pub proof fn lemma_state_tree_unique(s: &BeaconState, a: Seq<u8>, b: Seq<u8>)
    requires
        is_merkle_tree_of(state_leaves(s), a),
        is_merkle_tree_of(state_leaves(s), b),
    ensures
        a == b,
{
    let n: nat = 31;
    assert forall|i: int| n <= i < 2 * n + 1 implies #[trigger] chunk_at(a, i) == chunk_at(b, i) by {
        assert(chunk_at(a, i) =~= a.subrange(32 * 31int, a.len() as int).subrange(32 * (i - 31), 32 * (i - 31) + 32));
        assert(chunk_at(b, i) =~= b.subrange(32 * 31int, b.len() as int).subrange(32 * (i - 31), 32 * (i - 31) + 32));
    }
    lemma_root_stable(a, b, n);
}

impl BeaconState {
    /// The encoding of field `k`.
    pub fn encode_field(&self, k: usize) -> (r: Vec<u8>)
        requires
            k < STATE_FIELDS,
        ensures
            r@ == field_enc(self, k as int),
    {
        let mut out: Vec<u8> = Vec::new();
        if k == usize::MAX {
        } else if k == 0 {
            append_u64(&mut out, self.slot);
        } else if k == 1 {
            append_u64(&mut out, self.genesis_time);
        } else if k == 2 {
            self.fork.ssz_append(&mut out);
        } else if k == 3 {
            append_validator_list(&mut out, &self.validator_registry);
        } else if k == 4 {
            append_u64_list(&mut out, &self.validator_balances);
        } else if k == 5 {
            append_u64(&mut out, self.validator_registry_update_epoch);
        } else if k == 6 {
            append_hash_list(&mut out, &self.latest_randao_mixes);
        } else if k == 7 {
            append_u64(&mut out, self.previous_epoch_start_shard);
        } else if k == 8 {
            append_u64(&mut out, self.current_epoch_start_shard);
        } else if k == 9 {
            append_u64(&mut out, self.previous_calculation_epoch);
        } else if k == 10 {
            append_u64(&mut out, self.current_calculation_epoch);
        } else if k == 11 {
            append_hash(&mut out, &self.previous_epoch_seed);
        } else if k == 12 {
            append_hash(&mut out, &self.current_epoch_seed);
        } else if k == 13 {
            append_u64(&mut out, self.previous_justified_epoch);
        } else if k == 14 {
            append_u64(&mut out, self.justified_epoch);
        } else if k == 15 {
            append_u64(&mut out, self.justification_bitfield);
        } else if k == 16 {
            append_u64(&mut out, self.finalized_epoch);
        } else if k == 17 {
            append_crosslink_list(&mut out, &self.latest_crosslinks);
        } else if k == 18 {
            append_hash_list(&mut out, &self.latest_block_roots);
        } else if k == 19 {
            append_u64_list(&mut out, &self.latest_penalized_balances);
        } else if k == 20 {
            append_pending_list(&mut out, &self.latest_attestations);
        } else if k == 21 {
            append_hash_list(&mut out, &self.batched_block_roots);
        }
        out
    }

    /// The leaves of the state's tree.
    pub fn tree_hash_leaves(&self) -> (r: Vec<u8>)
        ensures
            r@ == state_leaves(self),
    {
        let mut leaves: Vec<u8> = Vec::new();
        let mut k: usize = 0;
        while k < STATE_TREE_LEAVES
            invariant
                k <= 32,
                leaves@ == state_leaves(self).subrange(0, 32 * k as int),
            decreases 32 - k,
        {
            let ghost before = leaves@;
            let mut chunk = if k < STATE_FIELDS {
                let e = self.encode_field(k);
                hash(e.as_slice())
            } else {
                vec![0u8; HASHSIZE]
            };
            leaves.append(&mut chunk);
            assert forall|m: int| 32 * k <= m < 32 * k + 32 implies #[trigger] state_leaves(self)[m] == leaves@[m] by {
                assert(m / 32 == k as int && m % 32 == m - 32 * k) by (nonlinear_arith)
                    requires
                        32 * k <= m < 32 * k + 32,
                ;
            }
            assert(leaves@ =~= state_leaves(self).subrange(0, 32 * (k + 1) as int));
            k = k + 1;
        }
        leaves
    }

    /// The state's tree over its field hashes, built from scratch.
    pub fn build_tree_hash_cache(&self) -> (r: TreeHashCache)
        ensures
            r.wf(),
            r.num_chunks() == 63,
            is_merkle_tree_of(state_leaves(self), r.cache@),
            forall|i: int| 0 <= i < 63 ==> !#[trigger] r.chunk_modified@[i],
    {
        let leaves = self.tree_hash_leaves();
        let tree = merkleize(leaves);
        proof {
            lemma_state_sanitised(state_leaves(self));
            let s = choose|s: Seq<u8>| is_sanitised(state_leaves(self), s) && is_merkle_tree_of(s, tree@);
            assert(s == state_leaves(self));
        }
        let n = tree.len() / HASHSIZE;
        let r = TreeHashCache { chunk_modified: vec![false; n], cache: tree, schemas: Vec::new(), chunk_index: 0, schema_index: 0 };
        r
    }

    /// The root of the state's tree.
    pub fn tree_root(&self) -> (r: Vec<u8>)
        ensures
            forall|t: Seq<u8>| is_merkle_tree_of(state_leaves(self), t) ==> r@ == chunk_at(t, 0),
    {
        let cache = self.build_tree_hash_cache();
        proof {
            assert forall|t: Seq<u8>| is_merkle_tree_of(state_leaves(self), t) implies cache.chunk(0) == chunk_at(t, 0) by {
                lemma_state_tree_unique(self, cache.cache@, t);
            }
        }
        crate::merkle::copy_range(&cache.cache, 0, HASHSIZE)
    }

    /// Brings `cache` up to date with this state: rewrites the leaves that changed and
    /// rehashes only above them. When the cache held the consistent tree of some earlier
    /// state, the result is the tree built from scratch.
    pub fn refresh_tree_hash_cache(&self, cache: &mut TreeHashCache) -> (r: Result<(), Error>)
        requires
            old(cache).wf(),
            old(cache).num_chunks() == 63,
        ensures
            r is Ok,
            final(cache).wf(),
            final(cache).num_chunks() == 63,
            final(cache).cache@.subrange(32 * 31int, 63 * 32int) == state_leaves(self),
            heap_consistent(old(cache).cache@, 31) ==> is_merkle_tree_of(state_leaves(self), final(cache).cache@),
    {
        let ghost t = cache.cache@;
        cache.reset_modifications();
        let leaves = self.tree_hash_leaves();
        let mut k: usize = 0;
        while k < STATE_TREE_LEAVES
            invariant
                k <= 32,
                leaves@ == state_leaves(self),
                cache.wf(),
                cache.num_chunks() == 63,
                t == old(cache).cache@,
                leaves_written_since(t, cache.cache@, cache.chunk_modified@, 31),
                forall|i: int| 31 <= i < 31 + k ==> #[trigger] chunk_at(cache.cache@, i) == chunk_at(leaves@, i - 31),
            decreases 32 - k,
        {
            let chunk = crate::merkle::copy_range(&leaves, k * HASHSIZE, HASHSIZE);
            let ghost before = cache.cache@;
            let ghost bf = cache.chunk_modified@;
            let _ = cache.maybe_update_chunk(31 + k, chunk.as_slice());
            proof {
                assert(chunk@ =~= chunk_at(leaves@, k as int));
                let j = 31 + k;
                assert forall|i: int| 0 <= i < 63 && i != j implies #[trigger] chunk_at(cache.cache@, i) == chunk_at(before, i) by {
                    assert(chunk_at(cache.cache@, i) =~= chunk_at(before, i));
                }
                assert(chunk_at(cache.cache@, j as int) == chunk@) by {
                    if chunk_at(before, j as int) != chunk@ {
                        assert(chunk_at(cache.cache@, j as int) =~= chunk@);
                    }
                }
                assert forall|c: int| 0 <= c < 63 && !cache.chunk_modified@[c] implies #[trigger] chunk_at(cache.cache@, c) == chunk_at(t, c) by {
                    if c != j {
                        assert(!bf[c]);
                    } else {
                        assert(chunk_at(before, j as int) == chunk@);
                        assert(!bf[c]);
                    }
                }
                assert forall|c: int| 0 <= c < 31 implies !#[trigger] cache.chunk_modified@[c] by {
                    assert(!bf[c]);
                }
            }
            k = k + 1;
        }
        let ghost written = cache.cache@;
        let ghost wflags = cache.chunk_modified@;
        let ones = vec![1usize; STATE_TREE_LEAVES];
        let ghost ones_v = ones@;
        assert(forall|i: int| 0 <= i < ones_v.len() ==> ones_v[i] == 1usize);
        proof {
            lemma_ones_prefix(ones_v, 66);
        }
        let handler = match OffsetHandler::from_lengths(0, ones) {
            Ok(h) => h,
            Err(e) => return Err(e),
        };
        proof {
            lemma_pow2_32();
            lemma_pow2_unique(handler.num_leaf_nodes as nat, 32, 32);
            assert forall|i: int| 0 <= i < handler.offsets@.len() implies #[trigger] handler.offsets@[i] == i by {
                if i >= 31 {
                    lemma_ones_prefix(ones_v, i - 31);
                }
            }
        }
        let res = cache.update_internal_nodes(&handler);
        proof {
            if heap_consistent(t, 31) {
                lemma_incremental_consistent(t, written, wflags, cache.cache@, cache.chunk_modified@, 31);
            }
            assert(cache.cache@.subrange(32 * 31int, cache.cache@.len() as int) =~= state_leaves(self)) by {
                assert forall|m: int| 0 <= m < 1024 implies cache.cache@[32 * 31 + m] == state_leaves(self)[m] by {
                    let i = 31 + m / 32;
                    assert(chunk_at(cache.cache@, i) == chunk_at(written, i));
                    assert(chunk_at(written, i) == chunk_at(leaves@, i - 31));
                    assert(cache.cache@[32 * 31 + m] == chunk_at(cache.cache@, i)[m % 32]);
                }
            }
        }
        res
    }
}

impl CachedTreeHash for BeaconState {
    open spec fn tree_leaves(&self) -> Seq<u8> {
        state_leaves(self)
    }

    open spec fn leaf_lengths(&self) -> Seq<usize> {
        Seq::new(22, |_i: int| 1usize)
    }

    fn item_type() -> ItemType {
        ItemType::Composite
    }

    fn offsets(&self) -> (r: Result<Vec<usize>, Error>) {
        let v = vec![1usize; STATE_FIELDS];
        assert(v@ =~= Seq::new(22, |_i: int| 1usize));
        Ok(v)
    }

    fn new_tree_hash_cache(&self) -> (r: Result<TreeHashCache, Error>) {
        Ok(self.build_tree_hash_cache())
    }

    /// Refuses a cache that does not hold a tree of the state's shape.
    fn update_tree_hash_cache(&self, cache: &mut TreeHashCache) -> (r: Result<(), Error>) {
        if cache.bytes_len() != 63 * HASHSIZE {
            return Err(Error::CacheNotInitialized);
        }
        self.refresh_tree_hash_cache(cache)
    }
}

proof fn lemma_state_sanitised(leaves: Seq<u8>)
    requires
        leaves.len() == 1024,
    ensures
        forall|s: Seq<u8>| is_sanitised(leaves, s) ==> s == leaves,
{
    lemma_pow2_32();
    assert forall|s: Seq<u8>| is_sanitised(leaves, s) implies s == leaves by {
        lemma_pow2_unique(s.len() / 32, 32, 32);
        assert(zero_pad(leaves, s.len()) =~= leaves);
    }
}

} // verus!
