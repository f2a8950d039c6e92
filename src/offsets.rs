use crate::merkle::{is_pow2, next_power_of_two};
use crate::tree_hash_cache::{CachedTreeHash, Error};
use vstd::prelude::*;

verus! {

/// Where each node of a tree lies in a cache: internal nodes occupy consecutive chunks from
/// the initial offset, then each leaf spans as many chunks as its length.
#[derive(Debug)]
pub struct OffsetHandler {
    pub num_internal_nodes: usize,
    pub num_leaf_nodes: usize,
    pub next_node: usize,
    pub offsets: Vec<usize>,
}

/// The length of leaf `i` once `lengths` is padded with ones.
pub open spec fn padded_length(lengths: Seq<usize>, i: int) -> int {
    if i < lengths.len() {
        lengths[i] as int
    } else {
        1
    }
}

/// Sum of the padded lengths of the first `n` leaves.
pub open spec fn prefix_len(lengths: Seq<usize>, n: int) -> int
    decreases n,
{
    if n <= 0 {
        0
    } else {
        prefix_len(lengths, n - 1) + padded_length(lengths, n - 1)
    }
}

proof fn lemma_prefix_mono(lengths: Seq<usize>, a: int, b: int)
    requires
        0 <= a <= b,
    ensures
        prefix_len(lengths, a) <= prefix_len(lengths, b),
    decreases b - a,
{
    if a < b {
        lemma_prefix_mono(lengths, a, b - 1);
    }
}

impl OffsetHandler {
    /// The offsets are laid out for `num_internal_nodes` internal nodes and
    /// `num_internal_nodes + 1` leaves.
    pub open spec fn wf(&self) -> bool {
        &&& self.num_leaf_nodes == self.num_internal_nodes + 1
        &&& self.offsets@.len() == 2 * self.num_internal_nodes + 1
    }

    /// The first chunk of the tree's internal nodes.
    pub open spec fn base(&self) -> int {
        if self.num_internal_nodes > 0 { self.offsets@[0] as int } else { 0 }
    }

    /// The tree lies within `num_chunks` chunks: its internal nodes in consecutive chunks from
    /// `base`, every leaf after them.
    pub open spec fn fits(&self, num_chunks: nat) -> bool {
        &&& self.wf()
        &&& forall|k: int| 0 <= k < self.num_internal_nodes ==> #[trigger] self.offsets@[k] == self.base() + k
        &&& forall|i: int| self.num_internal_nodes <= i < self.offsets@.len() ==> #[trigger] self.offsets@[i] >= self.base() + self.num_internal_nodes
        &&& forall|i: int| 0 <= i < self.offsets@.len() ==> #[trigger] self.offsets@[i] < num_chunks
    }

    /// Node `i` lies in chunk `i`, for every node.
    pub open spec fn is_flat(&self) -> bool {
        &&& self.wf()
        &&& forall|i: int| 0 <= i < self.offsets@.len() ==> #[trigger] self.offsets@[i] == i
    }

    /// Lays out a tree whose leaves span `lengths` chunks each (padded with one-chunk leaves to
    /// a power of two), starting at chunk `offset`.
    pub fn from_lengths(offset: usize, lengths: Vec<usize>) -> (r: Result<Self, Error>)
        requires
            lengths@.len() <= usize::MAX / 8,
            offset + 2 * lengths@.len() + 2 + prefix_len(lengths@, (2 * lengths@.len() + 2) as int) <= usize::MAX,
        ensures
            r is Ok,
            ({
                let h = r->Ok_0;
                let n = h.num_internal_nodes as int;
                &&& h.wf()
                &&& is_pow2(h.num_leaf_nodes as nat)
                &&& h.num_leaf_nodes >= lengths@.len()
                &&& (h.num_leaf_nodes == 1 || h.num_leaf_nodes / 2 < lengths@.len())
                &&& forall|k: int| 0 <= k < n ==> h.offsets@[k] == offset + k
                &&& forall|i: int| 0 <= i <= n ==> h.offsets@[n + i] == offset + n + prefix_len(lengths@, i)
                &&& h.next_node == offset + n + prefix_len(lengths@, n + 1)
            }),
    {
        let num_leaf_nodes = next_power_of_two(lengths.len());
        let num_internal_nodes = num_leaf_nodes - 1;
        proof {
            lemma_prefix_mono(lengths@, 0, (2 * lengths@.len() + 2) as int);
        }
        let mut offsets: Vec<usize> = Vec::new();
        let mut k: usize = 0;
        while k < num_internal_nodes
            invariant
                k <= num_internal_nodes,
                num_internal_nodes < usize::MAX / 4,
                offset + num_internal_nodes <= usize::MAX,
                offsets@.len() == k,
                forall|m: int| 0 <= m < k ==> offsets@[m] == offset + m,
            decreases num_internal_nodes - k,
        {
            offsets.push(offset + k);
            k = k + 1;
        }
        let mut next_node: usize = num_internal_nodes + offset;
        let mut i: usize = 0;
        while i < num_leaf_nodes
            invariant
                i <= num_leaf_nodes,
                num_leaf_nodes == num_internal_nodes + 1,
                num_leaf_nodes <= 2 * lengths@.len() + 1,
                offset + 2 * lengths@.len() + 2 + prefix_len(lengths@, (2 * lengths@.len() + 2) as int) <= usize::MAX,
                    offsets@.len() == num_internal_nodes + i,
                forall|m: int| 0 <= m < num_internal_nodes ==> offsets@[m] == offset + m,
                forall|m: int| 0 <= m < i ==> offsets@[num_internal_nodes + m] == offset + num_internal_nodes + prefix_len(lengths@, m),
                next_node == offset + num_internal_nodes + prefix_len(lengths@, i as int),
            decreases num_leaf_nodes - i,
        {
            offsets.push(next_node);
            let len_i: usize = if i < lengths.len() { lengths[i] } else { 1 };
            assert(prefix_len(lengths@, (i + 1) as int) == prefix_len(lengths@, i as int) + padded_length(lengths@, i as int));
            proof { lemma_prefix_mono(lengths@, (i + 1) as int, (2 * lengths@.len() + 2) as int); }
            next_node = next_node + len_i;
            i = i + 1;
        }
        Ok(OffsetHandler { num_internal_nodes, num_leaf_nodes, next_node, offsets })
    }

    /// Lays out the tree of `item` from chunk `initial_offset`; refuses a layout whose chunk
    /// numbers would not fit in `usize`.
    pub fn new<T: CachedTreeHash>(item: &T, initial_offset: usize) -> (r: Result<Self, Error>)
        ensures
            r is Ok ==> ({
                let h = r->Ok_0;
                let lengths = item.leaf_lengths();
                let n = h.num_internal_nodes as int;
                &&& h.wf()
                &&& h.num_leaf_nodes >= lengths.len()
                &&& forall|k: int| 0 <= k < n ==> h.offsets@[k] == initial_offset + k
                &&& forall|i: int| 0 <= i <= n ==> h.offsets@[n + i] == initial_offset + n + prefix_len(lengths, i)
            }),
    {
        let lengths = match item.offsets() {
            Ok(l) => l,
            Err(e) => return Err(e),
        };
        let len = lengths.len();
        if len > usize::MAX / 8 {
            return Err(Error::ShouldNotProduceOffsetHandler);
        }
        let bound = 2 * len + 2;
        let mut acc: usize = match initial_offset.checked_add(bound) {
            Some(x) => x,
            None => return Err(Error::ShouldNotProduceOffsetHandler),
        };
        let mut i: usize = 0;
        while i < bound
            invariant
                i <= bound,
                bound == 2 * lengths@.len() + 2,
                acc == initial_offset + bound + prefix_len(lengths@, i as int),
            decreases bound - i,
        {
            let li: usize = if i < lengths.len() { lengths[i] } else { 1 };
            acc = match acc.checked_add(li) {
                Some(x) => x,
                None => return Err(Error::ShouldNotProduceOffsetHandler),
            };
            i = i + 1;
        }
        Self::from_lengths(initial_offset, lengths)
    }

    pub fn total_nodes(&self) -> (r: usize)
        requires
            self.wf(),
        ensures
            r == self.num_internal_nodes + self.num_leaf_nodes,
    {
        let _n = self.offsets.len();
        self.num_internal_nodes + self.num_leaf_nodes
    }

    /// The chunk of the first leaf.
    pub fn first_leaf_node(&self) -> (r: Result<usize, Error>)
        ensures
            self.offsets@.len() <= self.num_internal_nodes <==> r == Err::<usize, Error>(Error::NoFirstNode),
            r is Ok ==> r->Ok_0 == self.offsets@[self.num_internal_nodes as int],
    {
        if self.num_internal_nodes < self.offsets.len() {
            Ok(self.offsets[self.num_internal_nodes])
        } else {
            Err(Error::NoFirstNode)
        }
    }

    /// The first chunk after the tree.
    pub fn next_node(&self) -> (r: usize)
        ensures
            r == self.next_node,
    {
        self.next_node
    }

    /// Each internal node's chunk with the chunks of its two children, in node order.
    pub fn iter_internal_nodes(&self) -> (r: Vec<(usize, (usize, usize))>)
        requires
            self.wf(),
        ensures
            r@.len() == self.num_internal_nodes,
            forall|k: int| 0 <= k < r@.len() ==> #[trigger] r@[k] == (
                self.offsets@[k],
                (self.offsets@[2 * k + 1], self.offsets@[2 * k + 2]),
            ),
    {
        let mut r: Vec<(usize, (usize, usize))> = Vec::new();
        let total = self.offsets.len();
        let mut k: usize = 0;
        while k < self.num_internal_nodes
            invariant
                self.wf(),
                total == self.offsets@.len(),
                k <= self.num_internal_nodes,
                r@.len() == k,
                forall|m: int| 0 <= m < k ==> #[trigger] r@[m] == (
                    self.offsets@[m],
                    (self.offsets@[2 * m + 1], self.offsets@[2 * m + 2]),
                ),
            decreases self.num_internal_nodes - k,
        {
            r.push((self.offsets[k], (self.offsets[2 * k + 1], self.offsets[2 * k + 2])));
            k = k + 1;
        }
        r
    }

    /// The chunk of each leaf, in order.
    pub fn iter_leaf_nodes(&self) -> (r: Vec<usize>)
        requires
            self.wf(),
        ensures
            r@ == self.offsets@.subrange(self.num_internal_nodes as int, self.offsets@.len() as int),
    {
        let mut r: Vec<usize> = Vec::new();
        let mut k: usize = self.num_internal_nodes;
        while k < self.offsets.len()
            invariant
                self.wf(),
                self.num_internal_nodes <= k <= self.offsets@.len(),
                r@ =~= self.offsets@.subrange(self.num_internal_nodes as int, k as int),
            decreases self.offsets@.len() - k,
        {
            r.push(self.offsets[k]);
            k = k + 1;
        }
        r
    }
}

} // verus!
