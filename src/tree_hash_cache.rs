use crate::hashing::{hash, int_to_bytes32, le_bytes32, sha256_of};
use crate::merkle::{chunk_at, copy_range, heap_consistent, is_merkle_tree_of, is_sanitised, lemma_root_stable, merkleize, node_ok, same_leaves, write_range, HASHSIZE};
use crate::offsets::OffsetHandler;
use std::ops::Range;
use vstd::prelude::*;

verus! {

/// Bytes in one chunk of the cache.
pub const BYTES_PER_CHUNK: usize = 32;

#[derive(Debug, PartialEq, Eq, Clone, Copy, Structural)]
pub enum Error {
    ShouldNotProduceOffsetHandler,
    NoFirstNode,
    NoBytesForRoot,
    BytesAreNotEvenChunks(usize),
    NoModifiedFieldForChunk(usize),
    NoBytesForChunk(usize),
    NoChildrenForHashing(usize, usize),
    CacheNotInitialized,
    NoSchemaForIndex(usize),
}

/// How a value is hashed: as a basic value packed into chunks, as a list, or as a composite
/// of fields.
#[derive(Debug, PartialEq, Eq, Clone, Copy, Structural)]
pub enum ItemType {
    Basic,
    List,
    Composite,
}

/// How a run of chunks is read as a tree: its depth in the enclosing object and the number of
/// chunks each of its leaves spans.
#[derive(Debug, Clone)]
pub struct BTreeSchema {
    pub depth: usize,
    pub lengths: Vec<usize>,
}

/// A schema placed at a chunk offset of the cache.
#[derive(Debug, Clone)]
pub struct BTreeOverlay {
    pub offset: usize,
    pub depth: usize,
    pub lengths: Vec<usize>,
}

impl BTreeSchema {
    pub fn into_overlay(self, offset: usize) -> (r: BTreeOverlay)
        ensures
            r.offset == offset,
            r.depth == self.depth,
            r.lengths@ == self.lengths@,
    {
        BTreeOverlay { offset, depth: self.depth, lengths: self.lengths }
    }
}

/// A flat buffer of 32-byte chunks, a flag per chunk recording whether it was written since
/// the last reset, and the schemas of the lists held in it.
#[derive(Debug, Clone)]
pub struct TreeHashCache {
    pub cache: Vec<u8>,
    pub chunk_modified: Vec<bool>,
    pub schemas: Vec<BTreeSchema>,
    pub chunk_index: usize,
    pub schema_index: usize,
}

impl Default for TreeHashCache {
    fn default() -> (r: Self)
        ensures
            r.wf(),
            r.num_chunks() == 0,
            r.schemas@.len() == 0,
            r.chunk_index == 0 && r.schema_index == 0,
    {
        TreeHashCache { cache: Vec::new(), chunk_modified: Vec::new(), schemas: Vec::new(), chunk_index: 0, schema_index: 0 }
    }
}

/// `s` with the elements in `[start, end)` replaced by `with`.
pub open spec fn seq_splice<T>(s: Seq<T>, start: int, end: int, with: Seq<T>) -> Seq<T> {
    s.subrange(0, start) + with + s.subrange(end, s.len() as int)
}

/// Returns `v` with the elements in `[start, end)` replaced by `with`.
pub fn splice_vec<T: Copy>(v: &Vec<T>, start: usize, end: usize, with: &Vec<T>) -> (r: Vec<T>)
    requires
        start <= end <= v@.len(),
    ensures
        r@ == seq_splice(v@, start as int, end as int, with@),
{
    let mut r: Vec<T> = Vec::new();
    let mut k: usize = 0;
    while k < start
        invariant
            k <= start <= end <= v@.len(),
            r@ =~= v@.subrange(0, k as int),
        decreases start - k,
    {
        r.push(v[k]);
        k = k + 1;
    }
    let mut m: usize = 0;
    while m < with.len()
        invariant
            m <= with@.len(),
            r@ =~= v@.subrange(0, start as int) + with@.subrange(0, m as int),
        decreases with@.len() - m,
    {
        r.push(with[m]);
        m = m + 1;
    }
    let n = v.len();
    let mut k: usize = end;
    while k < n
        invariant
            end <= k <= n,
            n == v@.len(),
            r@ =~= v@.subrange(0, start as int) + with@ + v@.subrange(end as int, k as int),
        decreases n - k,
    {
        r.push(v[k]);
        k = k + 1;
    }
    r
}

impl TreeHashCache {
    /// One flag per chunk: the bytes are a whole number of chunks.
    pub open spec fn wf(&self) -> bool {
        self.cache@.len() == 32 * self.chunk_modified@.len()
    }

    /// Number of chunks held.
    pub open spec fn num_chunks(&self) -> nat {
        self.chunk_modified@.len()
    }

    /// Chunk `i` of the buffer.
    pub open spec fn chunk(&self, i: int) -> Seq<u8> {
        chunk_at(self.cache@, i)
    }

    /// Builds a cache over `bytes`, every chunk flagged `initial_modified_state`.
    pub fn from_bytes(
        bytes: Vec<u8>,
        initial_modified_state: bool,
        schema: Option<BTreeSchema>,
    ) -> (r: Result<Self, Error>)
        ensures
            bytes@.len() % 32 != 0 <==> r == Err::<Self, Error>(
                Error::BytesAreNotEvenChunks(bytes@.len() as usize),
            ),
            r is Ok ==> ({
                let c = r->Ok_0;
                &&& c.wf()
                &&& c.cache@ == bytes@
                &&& forall|i: int| 0 <= i < c.num_chunks() ==> c.chunk_modified@[i] == initial_modified_state
                &&& c.schemas@ == (match schema {
                    Some(s) => seq![s],
                    None => Seq::empty(),
                })
                &&& c.chunk_index == 0 && c.schema_index == 0
            }),
    {
        if bytes.len() % BYTES_PER_CHUNK > 0 {
            return Err(Error::BytesAreNotEvenChunks(bytes.len()));
        }
        let schemas = match schema {
            Some(schema) => vec![schema],
            None => Vec::new(),
        };
        let n = bytes.len() / BYTES_PER_CHUNK;
        Ok(TreeHashCache {
            chunk_modified: vec![initial_modified_state; n],
            cache: bytes,
            schemas,
            chunk_index: 0,
            schema_index: 0,
        })
    }

    pub fn is_empty(&self) -> (r: bool)
        ensures
            r == (self.num_chunks() == 0),
    {
        self.chunk_modified.len() == 0
    }

    pub fn bytes_len(&self) -> (r: usize)
        ensures
            r == self.cache@.len(),
    {
        self.cache.len()
    }

    /// Clears every modification flag and the traversal counters; the bytes are kept.
    pub fn reset_modifications(&mut self)
        ensures
            final(self).cache@ == old(self).cache@,
            final(self).schemas@ == old(self).schemas@,
            final(self).chunk_modified@.len() == old(self).chunk_modified@.len(),
            forall|i: int| 0 <= i < final(self).chunk_modified@.len() ==> !final(self).chunk_modified@[i],
            final(self).chunk_index == 0 && final(self).schema_index == 0,
    {
        self.chunk_index = 0;
        self.schema_index = 0;
        let n = self.chunk_modified.len();
        let mut k: usize = 0;
        while k < n
            invariant
                k <= n,
                n == self.chunk_modified@.len(),
                self.cache@ == old(self).cache@,
                self.schemas@ == old(self).schemas@,
                self.chunk_index == 0 && self.schema_index == 0,
                forall|i: int| 0 <= i < k ==> !self.chunk_modified@[i],
            decreases n - k,
        {
            self.chunk_modified.set(k, false);
            k = k + 1;
        }
    }

    /// The root chunk, if the cache holds any chunk.
    pub fn root(&self) -> (r: Result<Vec<u8>, Error>)
        requires
            self.wf(),
        ensures
            self.num_chunks() == 0 <==> r == Err::<Vec<u8>, Error>(Error::CacheNotInitialized),
            self.num_chunks() > 0 ==> r is Ok,
            r is Ok ==> r->Ok_0@ == self.chunk(0),
    {
        if self.is_empty() {
            Err(Error::CacheNotInitialized)
        } else {
            Ok(copy_range(&self.cache, 0, HASHSIZE))
        }
    }

    pub fn tree_hash_root(&self) -> (r: Result<Vec<u8>, Error>)
        requires
            self.wf(),
        ensures
            self.num_chunks() == 0 <==> r == Err::<Vec<u8>, Error>(Error::CacheNotInitialized),
            r is Ok ==> r->Ok_0@ == self.chunk(0),
    {
        self.root()
    }

    /// Chunk `chunk`, if it exists.
    pub fn get_chunk(&self, chunk: usize) -> (r: Result<Vec<u8>, Error>)
        requires
            self.wf(),
        ensures
            chunk >= self.num_chunks() <==> r == Err::<Vec<u8>, Error>(Error::NoModifiedFieldForChunk(chunk)),
            chunk < self.num_chunks() ==> r is Ok,
            r is Ok ==> r->Ok_0@ == self.chunk(chunk as int),
    {
        if chunk >= self.chunk_modified.len() {
            return Err(Error::NoModifiedFieldForChunk(chunk));
        }
        let _len = self.cache.len();
        Ok(copy_range(&self.cache, chunk * BYTES_PER_CHUNK, BYTES_PER_CHUNK))
    }

    /// Whether chunk `chunk` holds exactly `other`.
    pub fn chunk_equals(&mut self, chunk: usize, other: &[u8]) -> (r: Result<bool, Error>)
        requires
            old(self).wf(),
        ensures
            *final(self) == *old(self),
            chunk >= old(self).num_chunks() <==> r == Err::<bool, Error>(Error::NoModifiedFieldForChunk(chunk)),
            chunk < old(self).num_chunks() ==> r is Ok,
            r is Ok ==> r->Ok_0 == (old(self).chunk(chunk as int) == other@),
    {
        match self.get_chunk(chunk) {
            Err(e) => Err(e),
            Ok(c) => Ok(bytes_equal(&c, other)),
        }
    }

    /// The modification flag of chunk `chunk`, if it exists.
    pub fn changed(&self, chunk: usize) -> (r: Result<bool, Error>)
        ensures
            chunk >= self.num_chunks() <==> r == Err::<bool, Error>(Error::NoModifiedFieldForChunk(chunk)),
            chunk < self.num_chunks() ==> r is Ok,
            r is Ok ==> r->Ok_0 == self.chunk_modified@[chunk as int],
    {
        if chunk >= self.chunk_modified.len() {
            Err(Error::NoModifiedFieldForChunk(chunk))
        } else {
            Ok(self.chunk_modified[chunk])
        }
    }

    /// Whether either of two chunks was modified; an error if one does not exist.
    pub fn either_modified(&self, children: (usize, usize)) -> (r: Result<bool, Error>)
        ensures
            children.0 >= self.num_chunks() ==> r == Err::<bool, Error>(Error::NoModifiedFieldForChunk(children.0)),
            children.0 < self.num_chunks() && children.1 >= self.num_chunks() ==> r == Err::<bool, Error>(
                Error::NoModifiedFieldForChunk(children.1),
            ),
            children.0 < self.num_chunks() && children.1 < self.num_chunks() ==> r == Ok::<bool, Error>(
                self.chunk_modified@[children.0 as int] || self.chunk_modified@[children.1 as int],
            ),
    {
        match self.changed(children.0) {
            Err(e) => Err(e),
            Ok(a) => match self.changed(children.1) {
                Err(e) => Err(e),
                Ok(b) => Ok(a || b),
            },
        }
    }

    /// The hash of two chunks placed side by side.
    pub fn hash_children(&self, children: (usize, usize)) -> (r: Result<Vec<u8>, Error>)
        requires
            self.wf(),
        ensures
            children.0 >= self.num_chunks() ==> r == Err::<Vec<u8>, Error>(Error::NoModifiedFieldForChunk(children.0)),
            children.0 < self.num_chunks() && children.1 >= self.num_chunks() ==> r == Err::<Vec<u8>, Error>(
                Error::NoModifiedFieldForChunk(children.1),
            ),
            r is Ok ==> r->Ok_0@ == sha256_of(self.chunk(children.0 as int) + self.chunk(children.1 as int)),
            r is Ok ==> r->Ok_0@.len() == 32,
            children.0 < self.num_chunks() && children.1 < self.num_chunks() ==> r is Ok,
    {
        match self.get_chunk(children.0) {
            Err(e) => Err(e),
            Ok(mut child_bytes) => match self.get_chunk(children.1) {
                Err(e) => Err(e),
                Ok(mut right) => {
                    child_bytes.append(&mut right);
                    Ok(hash(child_bytes.as_slice()))
                },
            },
        }
    }

    /// Overwrites chunk `chunk` with `to` and flags it.
    pub fn modify_chunk(&mut self, chunk: usize, to: &[u8]) -> (r: Result<(), Error>)
        requires
            old(self).wf(),
            to@.len() == 32,
        ensures
            final(self).wf(),
            final(self).schemas@ == old(self).schemas@,
            chunk >= old(self).num_chunks() <==> r == Err::<(), Error>(Error::NoBytesForChunk(chunk)),
            chunk < old(self).num_chunks() ==> r is Ok,
            r is Err ==> *final(self) == *old(self),
            r is Ok ==> final(self).cache@ == seq_splice(old(self).cache@, 32 * chunk, 32 * chunk + 32, to@)
                && final(self).chunk_modified@ == old(self).chunk_modified@.update(chunk as int, true),
    {
        if chunk >= self.chunk_modified.len() {
            return Err(Error::NoBytesForChunk(chunk));
        }
        self.write_chunk(chunk, to);
        Ok(())
    }

    fn write_chunk(&mut self, chunk: usize, to: &[u8])
        requires
            old(self).wf(),
            to@.len() == 32,
            chunk < old(self).num_chunks(),
        ensures
            final(self).wf(),
            final(self).schemas@ == old(self).schemas@,
            final(self).cache@ == seq_splice(old(self).cache@, 32 * chunk, 32 * chunk + 32, to@),
            final(self).chunk_modified@ == old(self).chunk_modified@.update(chunk as int, true),
    {
        let _len = self.cache.len();
        let start = chunk * BYTES_PER_CHUNK;
        let v = slice_to_vec(to);
        write_range(&mut self.cache, start, &v);
        self.chunk_modified.set(chunk, true);
    }

    /// Overwrites chunk `chunk` with `to` and flags it, unless it already holds `to`.
    pub fn maybe_update_chunk(&mut self, chunk: usize, to: &[u8]) -> (r: Result<(), Error>)
        requires
            old(self).wf(),
            to@.len() == 32,
        ensures
            final(self).wf(),
            final(self).schemas@ == old(self).schemas@,
            chunk >= old(self).num_chunks() <==> r == Err::<(), Error>(Error::NoModifiedFieldForChunk(chunk)),
            chunk < old(self).num_chunks() ==> r is Ok,
            r is Err || old(self).chunk(chunk as int) == to@ ==> *final(self) == *old(self),
            r is Ok && old(self).chunk(chunk as int) != to@ ==> final(self).cache@ == seq_splice(
                old(self).cache@,
                32 * chunk,
                32 * chunk + 32,
                to@,
            ) && final(self).chunk_modified@ == old(self).chunk_modified@.update(chunk as int, true),
    {
        match self.chunk_equals(chunk, to) {
            Err(e) => Err(e),
            Ok(same) => {
                if !same {
                    self.write_chunk(chunk, to);
                }
                Ok(())
            },
        }
    }
}


impl TreeHashCache {
    /// Replaces the chunks in `chunk_range` with `bytes`, their flags with `bools`.
    pub fn splice(&mut self, chunk_range: Range<usize>, bytes: Vec<u8>, bools: Vec<bool>)
        requires
            old(self).wf(),
            chunk_range.start <= chunk_range.end <= old(self).num_chunks(),
            bytes@.len() == 32 * bools@.len(),
        ensures
            final(self).wf(),
            final(self).schemas@ == old(self).schemas@,
            final(self).chunk_modified@ == seq_splice(
                old(self).chunk_modified@,
                chunk_range.start as int,
                chunk_range.end as int,
                bools@,
            ),
            final(self).cache@ == seq_splice(
                old(self).cache@,
                32 * chunk_range.start,
                32 * chunk_range.end,
                bytes@,
            ),
    {
        let _len = self.cache.len();
        self.chunk_modified = splice_vec(&self.chunk_modified, chunk_range.start, chunk_range.end, &bools);
        self.cache = splice_vec(
            &self.cache,
            chunk_range.start * BYTES_PER_CHUNK,
            chunk_range.end * BYTES_PER_CHUNK,
            &bytes,
        );
    }

    /// Replaces the chunks in `chunk_range` with `replace_with`, flagging every new chunk.
    pub fn chunk_splice(&mut self, chunk_range: Range<usize>, replace_with: Vec<u8>)
        requires
            old(self).wf(),
            chunk_range.start <= chunk_range.end <= old(self).num_chunks(),
            replace_with@.len() % 32 == 0,
        ensures
            final(self).wf(),
            final(self).chunk_modified@ == seq_splice(
                old(self).chunk_modified@,
                chunk_range.start as int,
                chunk_range.end as int,
                Seq::new(replace_with@.len() / 32, |_i: int| true),
            ),
            final(self).cache@ == seq_splice(
                old(self).cache@,
                32 * chunk_range.start,
                32 * chunk_range.end,
                replace_with@,
            ),
    {
        let flags = vec![true; replace_with.len() / HASHSIZE];
        assert(flags@ =~= Seq::new(replace_with@.len() / 32, |_i: int| true));
        self.splice(chunk_range, replace_with, flags);
    }

    /// Replaces chunk `chunk` with `replace_with`, flagging every new chunk.
    pub fn single_chunk_splice(&mut self, chunk: usize, replace_with: Vec<u8>)
        requires
            old(self).wf(),
            chunk < old(self).num_chunks(),
            replace_with@.len() % 32 == 0,
        ensures
            final(self).wf(),
            final(self).chunk_modified@ == seq_splice(
                old(self).chunk_modified@,
                chunk as int,
                chunk + 1,
                Seq::new(replace_with@.len() / 32, |_i: int| true),
            ),
            final(self).cache@ == seq_splice(old(self).cache@, 32 * chunk, 32 * chunk + 32, replace_with@),
    {
        let _n = self.chunk_modified.len();
        self.chunk_splice(chunk..chunk + 1, replace_with);
    }

    pub fn into_components(self) -> (r: (Vec<u8>, Vec<bool>, Vec<BTreeSchema>))
        ensures
            r.0@ == self.cache@,
            r.1@ == self.chunk_modified@,
            r.2@ == self.schemas@,
    {
        (self.cache, self.chunk_modified, self.schemas)
    }

    pub fn into_merkle_tree(self) -> (r: Vec<u8>)
        ensures
            r@ == self.cache@,
    {
        self.cache
    }

    /// The schema at `schema_index`, placed at chunk `chunk_index`.
    pub fn get_overlay(&self, schema_index: usize, chunk_index: usize) -> (r: Result<BTreeOverlay, Error>)
        ensures
            schema_index >= self.schemas@.len() <==> r == Err::<BTreeOverlay, Error>(
                Error::NoSchemaForIndex(schema_index),
            ),
            r is Ok ==> ({
                let o = r->Ok_0;
                &&& o.offset == chunk_index
                &&& o.depth == self.schemas@[schema_index as int].depth
                &&& o.lengths@ == self.schemas@[schema_index as int].lengths@
            }),
    {
        if schema_index >= self.schemas.len() {
            return Err(Error::NoSchemaForIndex(schema_index));
        }
        let schema = &self.schemas[schema_index];
        Ok(BTreeOverlay { offset: chunk_index, depth: schema.depth, lengths: copy_usizes(&schema.lengths) })
    }
}

/// What one bottom-up pass over the `n` internal nodes of a heap-ordered tree does: leaves
/// keep their bytes and flags; an internal node whose child is flagged afterwards is rehashed
/// and flagged; any other node is left as it was.
pub open spec fn internal_update(
    old_bytes: Seq<u8>,
    old_flags: Seq<bool>,
    new_bytes: Seq<u8>,
    new_flags: Seq<bool>,
    n: int,
) -> bool {
    &&& new_bytes.len() == old_bytes.len()
    &&& new_flags.len() == old_flags.len()
    &&& forall|i: int| n <= i < old_flags.len() ==> #[trigger] chunk_at(new_bytes, i) == chunk_at(old_bytes, i)
    &&& forall|i: int| n <= i < old_flags.len() ==> #[trigger] new_flags[i] == old_flags[i]
    &&& forall|k: int| 0 <= k < n ==> #[trigger] new_flags[k] == (old_flags[k] || new_flags[2 * k + 1] || new_flags[2 * k + 2])
    &&& forall|k: int| 0 <= k < n && (new_flags[2 * k + 1] || new_flags[2 * k + 2]) ==> #[trigger] node_ok(new_bytes, k)
    &&& forall|k: int| 0 <= k < n && !(new_flags[2 * k + 1] || new_flags[2 * k + 2]) ==> #[trigger] chunk_at(new_bytes, k) == chunk_at(old_bytes, k)
}

/// Internal node `k` of the tree laid out by `offs` holds the hash of its two children.
pub open spec fn node_ok_at(bytes: Seq<u8>, offs: Seq<usize>, k: int) -> bool {
    chunk_at(bytes, offs[k] as int) == sha256_of(chunk_at(bytes, offs[2 * k + 1] as int) + chunk_at(bytes, offs[2 * k + 2] as int))
}

/// What one bottom-up pass over the `n` internal nodes laid out by `offs` (in chunks
/// `base..base + n`) does: every other chunk keeps its bytes and flag; an internal node whose
/// child is flagged afterwards is rehashed and flagged; any other internal node is left as it was.
pub open spec fn internal_update_at(
    old_bytes: Seq<u8>,
    old_flags: Seq<bool>,
    new_bytes: Seq<u8>,
    new_flags: Seq<bool>,
    offs: Seq<usize>,
    base: int,
    n: int,
) -> bool {
    &&& new_bytes.len() == old_bytes.len()
    &&& new_flags.len() == old_flags.len()
    &&& forall|c: int| 0 <= c < old_flags.len() && !(base <= c < base + n) ==> #[trigger] chunk_at(new_bytes, c) == chunk_at(old_bytes, c)
    &&& forall|c: int| 0 <= c < old_flags.len() && !(base <= c < base + n) ==> #[trigger] new_flags[c] == old_flags[c]
    &&& forall|k: int| 0 <= k < n ==> #[trigger] new_flags[offs[k] as int] == (old_flags[offs[k] as int]
        || new_flags[offs[2 * k + 1] as int] || new_flags[offs[2 * k + 2] as int])
    &&& forall|k: int| 0 <= k < n && (new_flags[offs[2 * k + 1] as int] || new_flags[offs[2 * k + 2] as int]) ==> #[trigger] node_ok_at(new_bytes, offs, k)
    &&& forall|k: int| 0 <= k < n && !(new_flags[offs[2 * k + 1] as int] || new_flags[offs[2 * k + 2] as int])
        ==> #[trigger] chunk_at(new_bytes, offs[k] as int) == chunk_at(old_bytes, offs[k] as int)
}

/// The cache `bytes` with flags `flags` differs from the consistent tree `t` only in flagged
/// chunks, and no internal node is flagged: `t` with some leaves rewritten.
pub open spec fn leaves_written_since(t: Seq<u8>, bytes: Seq<u8>, flags: Seq<bool>, n: int) -> bool {
    &&& bytes.len() == t.len()
    &&& flags.len() == 2 * n + 1
    &&& forall|c: int| 0 <= c < flags.len() && !flags[c] ==> #[trigger] chunk_at(bytes, c) == chunk_at(t, c)
    &&& forall|k: int| 0 <= k < n ==> !#[trigger] flags[k]
}

proof fn lemma_unflagged_match(
    t: Seq<u8>,
    old_bytes: Seq<u8>,
    old_flags: Seq<bool>,
    new_bytes: Seq<u8>,
    new_flags: Seq<bool>,
    n: nat,
    c: int,
)
    requires
        heap_consistent(t, n),
        leaves_written_since(t, old_bytes, old_flags, n as int),
        internal_update(old_bytes, old_flags, new_bytes, new_flags, n as int),
        0 <= c < 2 * n + 1,
        !new_flags[c],
    ensures
        chunk_at(new_bytes, c) == chunk_at(t, c),
    decreases 2 * n + 1 - c,
{
    if c >= n {
        assert(new_flags[c] == old_flags[c]);
        assert(chunk_at(new_bytes, c) == chunk_at(old_bytes, c));
    } else {
        assert(new_flags[c] == (old_flags[c] || new_flags[2 * c + 1] || new_flags[2 * c + 2]));
        assert(chunk_at(new_bytes, c) == chunk_at(old_bytes, c));
        assert(!old_flags[c]);
    }
}

/// One bottom-up pass over a cache in which only leaves were rewritten (and flagged) since it
/// held the consistent tree `t` leaves a consistent tree.
pub proof fn lemma_incremental_consistent(
    t: Seq<u8>,
    old_bytes: Seq<u8>,
    old_flags: Seq<bool>,
    new_bytes: Seq<u8>,
    new_flags: Seq<bool>,
    n: nat,
)
    requires
        heap_consistent(t, n),
        leaves_written_since(t, old_bytes, old_flags, n as int),
        internal_update(old_bytes, old_flags, new_bytes, new_flags, n as int),
    ensures
        heap_consistent(new_bytes, n),
{
    assert forall|k: int| 0 <= k < n implies #[trigger] node_ok(new_bytes, k) by {
        if !(new_flags[2 * k + 1] || new_flags[2 * k + 2]) {
            lemma_unflagged_match(t, old_bytes, old_flags, new_bytes, new_flags, n, 2 * k + 1);
            lemma_unflagged_match(t, old_bytes, old_flags, new_bytes, new_flags, n, 2 * k + 2);
            assert(new_flags[k] == old_flags[k]);
            assert(!old_flags[k]);
            assert(chunk_at(new_bytes, k) == chunk_at(old_bytes, k));
            assert(node_ok(t, k));
        }
    }
}

/// Incremental correctness: when only leaves were rewritten (and flagged) since the cache held
/// the consistent tree `t`, one bottom-up pass leaves a consistent tree, which therefore equals
/// any tree built from scratch over the new leaves.
pub proof fn lemma_incremental_matches_rebuild(
    t: Seq<u8>,
    old_bytes: Seq<u8>,
    old_flags: Seq<bool>,
    new_bytes: Seq<u8>,
    new_flags: Seq<bool>,
    fresh: Seq<u8>,
    n: nat,
)
    requires
        heap_consistent(t, n),
        leaves_written_since(t, old_bytes, old_flags, n as int),
        internal_update(old_bytes, old_flags, new_bytes, new_flags, n as int),
        heap_consistent(fresh, n),
        same_leaves(fresh, old_bytes, n),
    ensures
        heap_consistent(new_bytes, n),
        new_bytes == fresh,
{
    lemma_incremental_consistent(t, old_bytes, old_flags, new_bytes, new_flags, n);
    assert forall|i: int| n <= i < 2 * n + 1 implies #[trigger] chunk_at(fresh, i) == chunk_at(new_bytes, i) by {
        assert(chunk_at(fresh, i) == chunk_at(old_bytes, i));
        assert(chunk_at(new_bytes, i) == chunk_at(old_bytes, i));
    }
    lemma_root_stable(fresh, new_bytes, n);
}

impl TreeHashCache {
    /// Rehashes, bottom-up, every internal node of the tree laid out by `overlay` one of whose
    /// children is flagged, and flags it; no other chunk changes.
    pub fn update_internal_nodes(&mut self, overlay: &OffsetHandler) -> (r: Result<(), Error>)
        requires
            old(self).wf(),
            overlay.fits(old(self).num_chunks()),
        ensures
            r is Ok,
            final(self).wf(),
            final(self).schemas@ == old(self).schemas@,
            internal_update_at(
                old(self).cache@,
                old(self).chunk_modified@,
                final(self).cache@,
                final(self).chunk_modified@,
                overlay.offsets@,
                overlay.base(),
                overlay.num_internal_nodes as int,
            ),
            overlay.is_flat() && old(self).num_chunks() == overlay.offsets@.len() ==> internal_update(
                old(self).cache@,
                old(self).chunk_modified@,
                final(self).cache@,
                final(self).chunk_modified@,
                overlay.num_internal_nodes as int,
            ),
    {
        let nodes = overlay.iter_internal_nodes();
        let n = nodes.len();
        let ghost offs = overlay.offsets@;
        let ghost base = overlay.base();
        let ghost ob = self.cache@;
        let ghost of = self.chunk_modified@;
        let _len = self.chunk_modified.len();
        let mut k: usize = n;
        while k > 0
            invariant
                n == overlay.num_internal_nodes,
                overlay.fits(of.len()),
                offs == overlay.offsets@,
                base == overlay.base(),
                nodes@.len() == n,
                forall|m: int| 0 <= m < n ==> #[trigger] nodes@[m] == (offs[m], (offs[2 * m + 1], offs[2 * m + 2])),
                k <= n,
                self.wf(),
                self.schemas@ == old(self).schemas@,
                ob == old(self).cache@,
                of == old(self).chunk_modified@,
                self.cache@.len() == ob.len(),
                self.chunk_modified@.len() == of.len(),
                forall|c: int| 0 <= c < of.len() && !(base + k <= c < base + n) ==> #[trigger] chunk_at(self.cache@, c) == chunk_at(ob, c),
                forall|c: int| 0 <= c < of.len() && !(base + k <= c < base + n) ==> #[trigger] self.chunk_modified@[c] == of[c],
                forall|j: int| k <= j < n ==> #[trigger] self.chunk_modified@[offs[j] as int] == (of[offs[j] as int]
                    || self.chunk_modified@[offs[2 * j + 1] as int] || self.chunk_modified@[offs[2 * j + 2] as int]),
                forall|j: int| k <= j < n && (self.chunk_modified@[offs[2 * j + 1] as int] || self.chunk_modified@[offs[2 * j + 2] as int])
                    ==> #[trigger] node_ok_at(self.cache@, offs, j),
                forall|j: int| k <= j < n && !(self.chunk_modified@[offs[2 * j + 1] as int] || self.chunk_modified@[offs[2 * j + 2] as int])
                    ==> #[trigger] chunk_at(self.cache@, offs[j] as int) == chunk_at(ob, offs[j] as int),
            decreases k,
        {
            k = k - 1;
            let (parent, children) = nodes[k];
            assert(nodes@[k as int] == (offs[k as int], (offs[2 * k + 1], offs[2 * k + 2])));
            assert(offs[k as int] == base + k);
            let either = self.either_modified(children);
            match either {
                Ok(true) => {
                    let h = self.hash_children(children);
                    match h {
                        Ok(h) => {
                            let ghost before = self.cache@;
                            let ghost bf = self.chunk_modified@;
                            let _ = self.modify_chunk(parent, h.as_slice());
                            proof {
                                assert forall|c: int| 0 <= c < of.len() && c != parent implies #[trigger] chunk_at(self.cache@, c) == chunk_at(before, c) by {
                                    assert(chunk_at(self.cache@, c) =~= chunk_at(before, c));
                                }
                                assert(chunk_at(self.cache@, parent as int) =~= h@);
                                assert(self.chunk_modified@ == bf.update(parent as int, true));
                                assert forall|j: int| k <= j < n implies #[trigger] self.chunk_modified@[offs[j] as int] == (of[offs[j] as int]
                                    || self.chunk_modified@[offs[2 * j + 1] as int] || self.chunk_modified@[offs[2 * j + 2] as int]) by {
                                    assert(offs[j] == base + j);
                                    if j > k {
                                        assert(offs[2 * j + 1] != parent && offs[2 * j + 2] != parent) by {
                                            if 2 * j + 1 < n { assert(offs[2 * j + 1] == base + 2 * j + 1); }
                                            if 2 * j + 2 < n { assert(offs[2 * j + 2] == base + 2 * j + 2); }
                                        }
                                    } else {
                                        assert(offs[2 * j + 1] != parent && offs[2 * j + 2] != parent) by {
                                            if 2 * j + 1 < n { assert(offs[2 * j + 1] == base + 2 * j + 1); }
                                            if 2 * j + 2 < n { assert(offs[2 * j + 2] == base + 2 * j + 2); }
                                        }
                                    }
                                }
                                assert forall|j: int| k <= j < n && (self.chunk_modified@[offs[2 * j + 1] as int] || self.chunk_modified@[offs[2 * j + 2] as int])
                                    implies #[trigger] node_ok_at(self.cache@, offs, j) by {
                                    assert(offs[j] == base + j);
                                    assert(offs[2 * j + 1] != parent && offs[2 * j + 2] != parent) by {
                                        if 2 * j + 1 < n { assert(offs[2 * j + 1] == base + 2 * j + 1); }
                                        if 2 * j + 2 < n { assert(offs[2 * j + 2] == base + 2 * j + 2); }
                                    }
                                    if j > k {
                                        assert(node_ok_at(before, offs, j));
                                    }
                                }
                                assert forall|j: int| k <= j < n && !(self.chunk_modified@[offs[2 * j + 1] as int] || self.chunk_modified@[offs[2 * j + 2] as int])
                                    implies #[trigger] chunk_at(self.cache@, offs[j] as int) == chunk_at(ob, offs[j] as int) by {
                                    assert(offs[j] == base + j);
                                    assert(offs[2 * j + 1] != parent && offs[2 * j + 2] != parent) by {
                                        if 2 * j + 1 < n { assert(offs[2 * j + 1] == base + 2 * j + 1); }
                                        if 2 * j + 2 < n { assert(offs[2 * j + 2] == base + 2 * j + 2); }
                                    }
                                }
                            }
                        },
                        Err(_) => {},
                    }
                },
                _ => {
                    proof {
                        assert forall|j: int| k <= j < n implies #[trigger] self.chunk_modified@[offs[j] as int] == (of[offs[j] as int]
                            || self.chunk_modified@[offs[2 * j + 1] as int] || self.chunk_modified@[offs[2 * j + 2] as int]) by {
                            assert(offs[j] == base + j);
                        }
                        assert forall|j: int| k <= j < n && !(self.chunk_modified@[offs[2 * j + 1] as int] || self.chunk_modified@[offs[2 * j + 2] as int])
                            implies #[trigger] chunk_at(self.cache@, offs[j] as int) == chunk_at(ob, offs[j] as int) by {
                            assert(offs[j] == base + j);
                        }
                    }
                },
            }
        }
        proof {
            if overlay.is_flat() && old(self).num_chunks() == overlay.offsets@.len() {
                assert forall|i: int| 0 <= i < offs.len() implies #[trigger] offs[i] == i by {}
                assert(n == 0 || base == 0);
                assert forall|k2: int| 0 <= k2 < n implies #[trigger] node_ok(self.cache@, k2) || !(self.chunk_modified@[2 * k2 + 1] || self.chunk_modified@[2 * k2 + 2]) by {
                    assert(offs[k2] == k2 && offs[2 * k2 + 1] == 2 * k2 + 1 && offs[2 * k2 + 2] == 2 * k2 + 2);
                    if self.chunk_modified@[2 * k2 + 1] || self.chunk_modified@[2 * k2 + 2] {
                        assert(node_ok_at(self.cache@, offs, k2));
                    }
                }
                assert forall|k2: int| 0 <= k2 < n implies #[trigger] self.chunk_modified@[k2] == (of[k2] || self.chunk_modified@[2 * k2 + 1] || self.chunk_modified@[2 * k2 + 2]) by {
                    assert(offs[k2] == k2 && offs[2 * k2 + 1] == 2 * k2 + 1 && offs[2 * k2 + 2] == 2 * k2 + 2);
                }
                assert forall|k2: int| 0 <= k2 < n && !(self.chunk_modified@[2 * k2 + 1] || self.chunk_modified@[2 * k2 + 2]) implies #[trigger] chunk_at(self.cache@, k2) == chunk_at(ob, k2) by {
                    assert(offs[k2] == k2 && offs[2 * k2 + 1] == 2 * k2 + 1 && offs[2 * k2 + 2] == 2 * k2 + 2);
                }
            }
        }
        Ok(())
    }
}

/// The root chunks of `ts`, end to end.
pub open spec fn roots_of(ts: Seq<TreeHashCache>) -> Seq<u8>
    decreases ts.len(),
{
    if ts.len() == 0 { Seq::empty() } else { roots_of(ts.drop_last()) + chunk_at(ts.last().cache@, 0) }
}

/// The buffers of `ts`, end to end.
pub open spec fn caches_of(ts: Seq<TreeHashCache>) -> Seq<u8>
    decreases ts.len(),
{
    if ts.len() == 0 { Seq::empty() } else { caches_of(ts.drop_last()) + ts.last().cache@ }
}

/// The schemas of `ts`, end to end.
pub open spec fn schemas_of(ts: Seq<TreeHashCache>) -> Seq<BTreeSchema>
    decreases ts.len(),
{
    if ts.len() == 0 { Seq::empty() } else { schemas_of(ts.drop_last()) + ts.last().schemas@ }
}

proof fn lemma_caches_of_len(ts: Seq<TreeHashCache>)
    requires
        forall|k: int| 0 <= k < ts.len() ==> (#[trigger] ts[k]).wf(),
    ensures
        caches_of(ts).len() % 32 == 0,
        roots_of(ts).len() == 32 * ts.len() || exists|k: int| 0 <= k < ts.len() && ts[k].num_chunks() == 0,
    decreases ts.len(),
{
    if ts.len() > 0 {
        let t = ts.drop_last();
        assert forall|k: int| 0 <= k < t.len() implies (#[trigger] t[k]).wf() by {
            assert(t[k] == ts[k]);
        }
        lemma_caches_of_len(t);
        if exists|k: int| 0 <= k < t.len() && t[k].num_chunks() == 0 {
            let k = choose|k: int| 0 <= k < t.len() && t[k].num_chunks() == 0;
            assert(ts[k] == t[k]);
        }
    }
}

impl TreeHashCache {
    /// Builds a cache whose leaves are the roots of `leaves_and_subtrees`: internal nodes
    /// over those roots, then each subtree's buffer in order, then zero chunks for the padding
    /// leaves. Every chunk is flagged. `list_schema`, the schema of the value itself when it is
    /// a list, comes before the subtrees' schemas. Fails if a subtree is empty.
    pub fn from_leaves_and_subtrees(list_schema: Option<BTreeSchema>, leaves_and_subtrees: Vec<TreeHashCache>) -> (r: Result<Self, Error>)
        requires
            forall|k: int| 0 <= k < leaves_and_subtrees@.len() ==> (#[trigger] leaves_and_subtrees@[k]).wf(),
            32 * leaves_and_subtrees@.len() <= usize::MAX / 8,
            caches_of(leaves_and_subtrees@).len() + 64 * leaves_and_subtrees@.len() + 64 <= usize::MAX,
        ensures
            r is Err <==> exists|k: int| 0 <= k < leaves_and_subtrees@.len() && (#[trigger] leaves_and_subtrees@[k]).num_chunks() == 0,
            r is Err ==> r == Err::<Self, Error>(Error::CacheNotInitialized),
            r is Ok ==> ({
                let c = r->Ok_0;
                let ts = leaves_and_subtrees@;
                &&& c.wf()
                &&& forall|k: int| 0 <= k < c.num_chunks() ==> #[trigger] c.chunk_modified@[k]
                &&& c.schemas@ == (match list_schema {
                    Some(l) => seq![l],
                    None => Seq::empty(),
                }) + schemas_of(ts)
                &&& exists|s: Seq<u8>, tree: Seq<u8>| #[trigger] is_sanitised(roots_of(ts), s) && #[trigger] is_merkle_tree_of(s, tree)
                    && c.cache@ == tree.subrange(0, 32 * (s.len() / 32 - 1)) + caches_of(ts)
                        + Seq::new((32 * (s.len() / 32 - ts.len())) as nat, |_i: int| 0u8)
            }),
    {
        let ghost ts = leaves_and_subtrees@;
        let n = leaves_and_subtrees.len();
        let mut c: usize = 0;
        while c < n
            invariant
                n == leaves_and_subtrees@.len(),
                c <= n,
                forall|m: int| 0 <= m < c ==> (#[trigger] leaves_and_subtrees@[m]).num_chunks() > 0,
            decreases n - c,
        {
            if leaves_and_subtrees[c].is_empty() {
                return Err(Error::CacheNotInitialized);
            }
            c = c + 1;
        }
        let mut roots: Vec<u8> = Vec::new();
        let mut body: Vec<u8> = Vec::new();
        let mut schemas: Vec<BTreeSchema> = Vec::new();
        let ghost head: Seq<BTreeSchema> = if list_schema is Some { seq![list_schema->Some_0] } else { Seq::empty() };
        match list_schema {
            Some(l) => schemas.push(l),
            None => {},
        }
        assert(schemas@ =~= head + schemas_of(Seq::<TreeHashCache>::empty()));
        let mut subtrees = leaves_and_subtrees;
        let mut k: usize = 0;
        while k < n
            invariant
                n == ts.len(),
                subtrees@ == ts.subrange(k as int, n as int),
                k <= n,
                32 * n <= usize::MAX / 8,
                forall|m: int| 0 <= m < ts.len() ==> (#[trigger] ts[m]).wf(),
                forall|m: int| 0 <= m < ts.len() ==> (#[trigger] ts[m]).num_chunks() > 0,
                roots@ == roots_of(ts.subrange(0, k as int)),
                body@ == caches_of(ts.subrange(0, k as int)),
                schemas@ == head + schemas_of(ts.subrange(0, k as int)),
                roots@.len() == 32 * k,
            decreases n - k,
        {
            let ghost pre = ts.subrange(0, k as int);
            let ghost post = ts.subrange(0, k + 1);
            assert(post.drop_last() =~= pre);
            assert(post.last() == ts[k as int]);
            let t = subtrees.remove(0);
            assert(t == ts[k as int]);
            assert(subtrees@ =~= ts.subrange(k + 1, n as int));
            let root = match t.root() {
                Err(e) => {
                    assert(ts[k as int].num_chunks() > 0);
                    return Err(e);
                },
                Ok(root) => root,
            };
            let mut root = root;
            roots.append(&mut root);
            let (mut bytes, _flags, mut t_schemas) = t.into_components();
            body.append(&mut bytes);
            schemas.append(&mut t_schemas);
            assert(schemas@ =~= head + schemas_of(post));
            k = k + 1;
        }
        assert(ts.subrange(0, n as int) =~= ts);
        let tree = merkleize(roots);
        let ghost sel = choose|s: Seq<u8>| is_sanitised(roots_of(ts), s) && is_merkle_tree_of(s, tree@);
        proof {
            lemma_caches_of_len(ts);
        }
        let ghost big_l = sel.len() / 32;
        assert(tree@.len() == 32 * (2 * (big_l - 1) + 1));
        let num_leaves = (tree.len() / HASHSIZE + 1) / 2;
        assert(num_leaves == big_l) by (nonlinear_arith)
            requires
                tree@.len() == 32 * (2 * (big_l - 1) + 1),
                num_leaves == (tree@.len() / 32 + 1) / 2,
                big_l >= 1,
        ;
        assert(big_l >= n) by (nonlinear_arith)
            requires
                big_l >= (32 * n + 31) / 32,
        ;
        let internal = num_leaves - 1;
        let mut cache = copy_range(&tree, 0, internal * HASHSIZE);
        cache.append(&mut body);
        let mut pad: usize = n;
        while pad < num_leaves
            invariant
                n <= pad <= num_leaves,
                32 * internal <= tree@.len(),
                cache@ == tree@.subrange(0, 32 * internal) + caches_of(ts) + Seq::new((32 * (pad - n)) as nat, |_i: int| 0u8),
            decreases num_leaves - pad,
        {
            let ghost before = cache@;
            let mut zeros = vec![0u8; HASHSIZE];
            cache.append(&mut zeros);
            assert(cache@ =~= tree@.subrange(0, 32 * internal) + caches_of(ts) + Seq::new((32 * (pad + 1 - n)) as nat, |_i: int| 0u8));
            pad = pad + 1;
        }
        let chunks = cache.len() / HASHSIZE;
        assert(cache@.len() % 32 == 0) by (nonlinear_arith)
            requires
                cache@.len() == 32 * internal + caches_of(ts).len() + 32 * (num_leaves - n),
                caches_of(ts).len() % 32 == 0,
        ;
        let r = TreeHashCache { chunk_modified: vec![true; chunks], cache, schemas, chunk_index: 0, schema_index: 0 };
        assert(is_sanitised(roots_of(ts), sel) && is_merkle_tree_of(sel, tree@)
            && r.cache@ == tree@.subrange(0, 32 * (sel.len() / 32 - 1)) + caches_of(ts)
                + Seq::new((32 * (sel.len() / 32 - ts.len())) as nat, |_i: int| 0u8));
        Ok(r)
    }
}

/// The first index at or after `from` whose schema is at most `depth` deep, or `s.len()`.
pub open spec fn first_shallow(s: Seq<BTreeSchema>, from: int, depth: usize) -> int
    decreases s.len() - from,
{
    if from >= s.len() {
        s.len() as int
    } else if s[from].depth <= depth {
        from
    } else {
        first_shallow(s, from + 1, depth)
    }
}

proof fn lemma_first_shallow(s: Seq<BTreeSchema>, from: int, depth: usize)
    requires
        0 <= from <= s.len(),
    ensures
        from <= first_shallow(s, from, depth) <= s.len(),
    decreases s.len() - from,
{
    if from < s.len() && s[from].depth > depth {
        lemma_first_shallow(s, from + 1, depth);
    }
}

impl TreeHashCache {
    /// Removes the schemas from `schema_index` up to the next one at most `depth` deep.
    pub fn remove_proceeding_child_schemas(&mut self, schema_index: usize, depth: usize)
        requires
            schema_index <= old(self).schemas@.len(),
        ensures
            final(self).cache@ == old(self).cache@,
            final(self).chunk_modified@ == old(self).chunk_modified@,
            final(self).schemas@ == old(self).schemas@.subrange(0, schema_index as int) + old(self).schemas@.subrange(
                first_shallow(old(self).schemas@, schema_index as int, depth),
                old(self).schemas@.len() as int,
            ),
    {
        let ghost s0 = self.schemas@;
        proof {
            lemma_first_shallow(s0, schema_index as int, depth);
        }
        let mut end: usize = schema_index;
        while end < self.schemas.len() && self.schemas[end].depth > depth
            invariant
                schema_index <= end <= s0.len(),
                self.schemas@ == s0,
                first_shallow(s0, schema_index as int, depth) == first_shallow(s0, end as int, depth),
            decreases s0.len() - end,
        {
            end = end + 1;
        }
        let mut k: usize = schema_index;
        while k < end
            invariant
                schema_index <= k <= end <= s0.len(),
                self.cache@ == old(self).cache@,
                self.chunk_modified@ == old(self).chunk_modified@,
                self.schemas@ == s0.subrange(0, schema_index as int) + s0.subrange(k as int, s0.len() as int),
            decreases end - k,
        {
            self.schemas.remove(schema_index);
            assert(self.schemas@ =~= s0.subrange(0, schema_index as int) + s0.subrange(k + 1, s0.len() as int));
            k = k + 1;
        }
    }

    /// Writes `length` into the chunk after `chunk_range` and, when either it or the chunk at
    /// the range's start is flagged, rehashes the two into the chunk before the range.
    pub fn mix_in_length(&mut self, chunk_range: Range<usize>, length: usize) -> (r: Result<(), Error>)
        requires
            old(self).wf(),
            1 <= chunk_range.start <= chunk_range.end,
        ensures
            final(self).wf(),
            final(self).schemas@ == old(self).schemas@,
            chunk_range.end >= old(self).num_chunks() <==> r is Err,
            r is Ok ==> final(self).chunk(chunk_range.end as int) == le_bytes32(length as u64),
            r is Ok ==> final(self).cache@.len() == old(self).cache@.len(),
            forall|i: int| 0 <= i < old(self).num_chunks() && #[trigger] old(self).chunk_modified@[i] ==> final(self).chunk_modified@[i],
            r is Ok ==> forall|i: int| 0 <= i < old(self).num_chunks() && i != chunk_range.start - 1 && i != chunk_range.end ==> #[trigger] final(self).chunk(i) == old(self).chunk(i),
            r is Ok && (final(self).chunk_modified@[chunk_range.start as int] || final(self).chunk_modified@[chunk_range.end as int]) ==> final(self).chunk_modified@[chunk_range.start - 1],
            r is Ok && (final(self).chunk_modified@[chunk_range.start as int] || final(self).chunk_modified@[chunk_range.end as int]) ==> final(self).chunk(chunk_range.start - 1)
                == sha256_of(final(self).chunk(chunk_range.start as int) + final(self).chunk(chunk_range.end as int)),
    {
        let bytes = int_to_bytes32(length as u64);
        match self.maybe_update_chunk(chunk_range.end, bytes.as_slice()) {
            Err(e) => return Err(e),
            Ok(_) => {},
        }
        let ghost mid = self.cache@;
        assert(self.chunk(chunk_range.end as int) =~= le_bytes32(length as u64));
        assert forall|i: int| 0 <= i < old(self).num_chunks() && i != chunk_range.end implies #[trigger] chunk_at(self.cache@, i) == chunk_at(old(self).cache@, i) by {
            assert(chunk_at(self.cache@, i) =~= chunk_at(old(self).cache@, i));
        }
        let children = (chunk_range.start, chunk_range.end);
        match self.either_modified(children) {
            Ok(true) => {
                let h = match self.hash_children(children) {
                    Ok(h) => h,
                    Err(e) => return Err(e),
                };
                let ghost before = self.cache@;
                let _ = self.modify_chunk(chunk_range.start - 1, h.as_slice());
                assert(self.chunk(chunk_range.start - 1) =~= h@);
                assert forall|i: int| 0 <= i < old(self).num_chunks() && i != chunk_range.start - 1 implies #[trigger] chunk_at(self.cache@, i) == chunk_at(before, i) by {
                    assert(chunk_at(self.cache@, i) =~= chunk_at(before, i));
                }
                assert(self.chunk(chunk_range.start as int) =~= chunk_at(mid, chunk_range.start as int));
                assert(self.chunk(chunk_range.end as int) =~= chunk_at(mid, chunk_range.end as int));
            },
            _ => {},
        }
        Ok(())
    }
}

impl TreeHashCache {
    /// Wraps the tree in `chunk_range` with its length: a new chunk before it will hold the
    /// hash of the tree's root with the length, a new chunk after it the length itself.
    pub fn add_length_nodes(&mut self, chunk_range: Range<usize>, length: usize) -> (r: Result<(), Error>)
        requires
            old(self).wf(),
            chunk_range.start < chunk_range.end <= old(self).num_chunks(),
        ensures
            r is Ok,
            final(self).wf(),
            final(self).num_chunks() == old(self).num_chunks() + 2,
            final(self).chunk(chunk_range.end + 1) == le_bytes32(length as u64),
            final(self).chunk(chunk_range.start + 1) == old(self).chunk(chunk_range.start as int),
            final(self).chunk(chunk_range.start as int) == sha256_of(
                old(self).chunk(chunk_range.start as int) + le_bytes32(length as u64),
            ),
            final(self).chunk_modified@[chunk_range.start as int],
            forall|m: int| 0 <= m < chunk_range.start ==> #[trigger] final(self).chunk(m) == old(self).chunk(m),
            forall|m: int| chunk_range.start <= m < chunk_range.end ==> #[trigger] final(self).chunk(m + 1) == old(self).chunk(m),
            forall|m: int| chunk_range.end <= m < old(self).num_chunks() ==> #[trigger] final(self).chunk(m + 2) == old(self).chunk(m),
    {
        let s = chunk_range.start;
        let e = chunk_range.end;
        let ghost c0 = self.cache@;
        self.chunk_modified.set(s, true);
        let _n = self.cache.len();
        let zero = vec![0u8; HASHSIZE];
        self.cache = splice_vec(&self.cache, e * HASHSIZE, e * HASHSIZE, &zero);
        self.chunk_modified = splice_vec(&self.chunk_modified, e, e, &vec![false]);
        self.cache = splice_vec(&self.cache, s * HASHSIZE, s * HASHSIZE, &zero);
        self.chunk_modified = splice_vec(&self.chunk_modified, s, s, &vec![false]);
        let ghost c1 = self.cache@;
        assert(chunk_at(c1, s + 1) =~= chunk_at(c0, s as int));
        assert(self.chunk_modified@[s + 1]);
        assert forall|m: int| 0 <= m < s implies #[trigger] chunk_at(c1, m) == chunk_at(c0, m) by {
            assert(chunk_at(c1, m) =~= chunk_at(c0, m));
        }
        assert forall|m: int| s <= m < e implies #[trigger] chunk_at(c1, m + 1) == chunk_at(c0, m) by {
            assert(chunk_at(c1, m + 1) =~= chunk_at(c0, m));
        }
        assert forall|m: int| e <= m < c0.len() / 32 implies #[trigger] chunk_at(c1, m + 2) == chunk_at(c0, m) by {
            assert(chunk_at(c1, m + 2) =~= chunk_at(c0, m));
        }
        let r = self.mix_in_length(s + 1..e + 1, length);
        assert(r is Ok);
        proof {
            assert forall|m: int| 0 <= m < s implies #[trigger] self.chunk(m) == old(self).chunk(m) by {
                assert(self.chunk(m) == chunk_at(c1, m));
            }
            assert forall|m: int| s <= m < e implies #[trigger] self.chunk(m + 1) == old(self).chunk(m) by {
                assert(self.chunk(m + 1) == chunk_at(c1, m + 1));
            }
            assert forall|m: int| e <= m < old(self).num_chunks() implies #[trigger] self.chunk(m + 2) == old(self).chunk(m) by {
                assert(self.chunk(m + 2) == chunk_at(c1, m + 2));
            }
        }
        r
    }
}

/// A value that keeps a tree-hash cache of itself.
pub trait CachedTreeHash {
    /// The leaves of the value's tree, as whole chunks.
    spec fn tree_leaves(&self) -> Seq<u8>;

    /// How many chunks each leaf of the value's tree spans.
    spec fn leaf_lengths(&self) -> Seq<usize>;

    /// How the value is hashed.
    fn item_type() -> ItemType;

    /// How many chunks each leaf of the value's tree spans.
    fn offsets(&self) -> (r: Result<Vec<usize>, Error>)
        ensures
            r is Ok ==> r->Ok_0@ == self.leaf_lengths(),
    ;

    /// A cache of the value's tree, built from scratch.
    fn new_tree_hash_cache(&self) -> (r: Result<TreeHashCache, Error>)
        ensures
            r is Ok,
            r->Ok_0.wf(),
            is_merkle_tree_of(self.tree_leaves(), r->Ok_0.cache@),
    ;

    /// Brings `cache` up to date with the value; when it held a consistent tree of the value's
    /// shape, the result is the tree built from scratch.
    fn update_tree_hash_cache(&self, cache: &mut TreeHashCache) -> (r: Result<(), Error>)
        requires
            old(cache).wf(),
        ensures
            final(cache).wf(),
            self.tree_leaves().len() >= 32 && heap_consistent(old(cache).cache@, (self.tree_leaves().len() / 32 - 1) as nat)
                ==> r is Ok && is_merkle_tree_of(self.tree_leaves(), final(cache).cache@),
    ;
}

impl TreeHashCache {
    /// A cache of `item`'s tree.
    pub fn new<T: CachedTreeHash>(item: &T) -> (r: Result<Self, Error>)
        ensures
            r is Ok,
            r->Ok_0.wf(),
            is_merkle_tree_of(item.tree_leaves(), r->Ok_0.cache@),
    {
        item.new_tree_hash_cache()
    }

    /// Clears the modification flags, then brings the cache up to date with `item`; an error
    /// if the cache holds nothing yet. A cache holding a consistent tree of the item's shape
    /// ends up as the tree built from scratch, whatever value it was built for.
    pub fn update<T: CachedTreeHash>(&mut self, item: &T) -> (r: Result<(), Error>)
        requires
            old(self).wf(),
        ensures
            final(self).wf(),
            old(self).num_chunks() == 0 ==> r == Err::<(), Error>(Error::CacheNotInitialized) && *final(self) == *old(self),
            item.tree_leaves().len() >= 32 && heap_consistent(old(self).cache@, (item.tree_leaves().len() / 32 - 1) as nat)
                ==> r is Ok && is_merkle_tree_of(item.tree_leaves(), final(self).cache@),
    {
        if self.is_empty() {
            Err(Error::CacheNotInitialized)
        } else {
            self.reset_modifications();
            item.update_tree_hash_cache(self)
        }
    }
}

/// A copy of `v`.
pub fn copy_usizes(v: &Vec<usize>) -> (r: Vec<usize>)
    ensures
        r@ == v@,
{
    let mut r: Vec<usize> = Vec::new();
    let mut k: usize = 0;
    while k < v.len()
        invariant
            k <= v@.len(),
            r@ =~= v@.subrange(0, k as int),
        decreases v@.len() - k,
    {
        r.push(v[k]);
        k = k + 1;
    }
    r
}

/// A copy of `s`.
pub fn slice_to_vec(s: &[u8]) -> (r: Vec<u8>)
    ensures
        r@ == s@,
{
    let mut r: Vec<u8> = Vec::new();
    let mut k: usize = 0;
    while k < s.len()
        invariant
            k <= s@.len(),
            r@ =~= s@.subrange(0, k as int),
        decreases s@.len() - k,
    {
        r.push(s[k]);
        k = k + 1;
    }
    r
}

/// Whether two byte strings are equal.
pub fn bytes_equal(a: &Vec<u8>, b: &[u8]) -> (r: bool)
    ensures
        r == (a@ == b@),
{
    if a.len() != b.len() {
        return false;
    }
    let mut k: usize = 0;
    while k < a.len()
        invariant
            a@.len() == b@.len(),
            k <= a@.len(),
            forall|m: int| 0 <= m < k ==> a@[m] == b@[m],
        decreases a@.len() - k,
    {
        if a[k] != b[k] {
            return false;
        }
        k = k + 1;
    }
    assert(a@ =~= b@);
    true
}

} // verus!
