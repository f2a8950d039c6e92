use vstd::prelude::*;

verus! {

/// Whether bit `bit` (counting from the least significant) of `b` is set.
pub open spec fn byte_bit(b: u8, bit: u8) -> bool {
    b & (1u8 << bit) != 0
}

proof fn lemma_or_bit(b: u8, bit: u8, k: u8)
    requires
        bit < 8,
        k < 8,
    ensures
        byte_bit(b | (1u8 << bit), k) == (k == bit || byte_bit(b, k)),
{
    assert((b | (1u8 << bit)) & (1u8 << k) != 0 <==> (k == bit || b & (1u8 << k) != 0))
        by (bit_vector)
        requires
            bit < 8,
            k < 8,
    ;
}

proof fn lemma_and_not_bit(b: u8, bit: u8, k: u8)
    requires
        bit < 8,
        k < 8,
    ensures
        byte_bit(b & !(1u8 << bit), k) == (k != bit && byte_bit(b, k)),
{
    assert((b & !(1u8 << bit)) & (1u8 << k) != 0 <==> (k != bit && b & (1u8 << k) != 0))
        by (bit_vector)
        requires
            bit < 8,
            k < 8,
    ;
}

proof fn lemma_zero_bit(k: u8)
    requires
        k < 8,
    ensures
        !byte_bit(0u8, k),
{
    assert(0u8 & (1u8 << k) == 0) by (bit_vector);
}

/// A bitfield stored as little-endian bytes: bit `i` lives in byte `i / 8`, at position
/// `i % 8` counted from the least significant bit.
#[derive(Debug, Clone, PartialEq, Eq)]
pub struct BooleanBitfield {
    vec: Vec<u8>,
}

impl View for BooleanBitfield {
    type V = Seq<u8>;

    closed spec fn view(&self) -> Seq<u8> {
        self.vec@
    }
}

/// Bit `i` of the bytes `v`; bits beyond the stored bytes read as unset.
pub open spec fn seq_bit(v: Seq<u8>, i: int) -> bool {
    0 <= i && i / 8 < v.len() && byte_bit(v[i / 8], (i % 8) as u8)
}

/// `v` with bit `i` set to `to`, growing it with zero bytes as needed.
pub open spec fn seq_with_bit(v: Seq<u8>, i: nat, to: bool) -> Seq<u8> {
    let byte = (i / 8) as int;
    let bit = (i % 8) as u8;
    let grown = if byte < v.len() {
        v
    } else {
        v + Seq::new((byte + 1 - v.len()) as nat, |_j: int| 0u8)
    };
    grown.update(
        byte,
        if to {
            grown[byte] | (1u8 << bit)
        } else {
            grown[byte] & !(1u8 << bit)
        },
    )
}

impl BooleanBitfield {
    pub fn new() -> (r: Self)
        ensures
            r@ == Seq::<u8>::empty(),
    {
        BooleanBitfield { vec: Vec::new() }
    }

    /// An empty bitfield; `capacity` is only a hint for the storage to reserve.
    pub fn with_capacity(capacity: usize) -> (r: Self)
        ensures
            r@ == Seq::<u8>::empty(),
    {
        BooleanBitfield { vec: Vec::with_capacity(capacity) }
    }

    /// The stored bytes in big-endian order (most significant byte first).
    pub fn to_be_vec(&self) -> (r: Vec<u8>)
        ensures
            r@ == self@.reverse(),
    {
        let mut o: Vec<u8> = Vec::new();
        let n = self.vec.len();
        let mut k: usize = n;
        while k > 0
            invariant
                n == self@.len(),
                k <= n,
                o@ =~= self@.subrange(k as int, n as int).reverse(),
            decreases k,
        {
            k = k - 1;
            o.push(self.vec[k]);
            assert(o@ =~= self@.subrange(k as int, n as int).reverse());
        }
        assert(self@.subrange(0, n as int) =~= self@);
        o
    }

    /// A bitfield over the given bytes.
    pub fn from_bytes(bytes: Vec<u8>) -> (r: Self)
        ensures
            r@ == bytes@,
    {
        BooleanBitfield { vec: bytes }
    }

    /// A copy of the stored bytes.
    pub fn to_bytes(&self) -> (r: Vec<u8>)
        ensures
            r@ == self@,
    {
        let mut r: Vec<u8> = Vec::new();
        let mut k: usize = 0;
        while k < self.vec.len()
            invariant
                k <= self@.len(),
                r@ =~= self@.subrange(0, k as int),
            decreases self@.len() - k,
        {
            r.push(self.vec[k]);
            k = k + 1;
        }
        r
    }

    /// Number of bytes stored.
    pub fn byte_len(&self) -> (r: usize)
        ensures
            r == self@.len(),
    {
        self.vec.len()
    }

    pub fn get_bit(&self, i: &usize) -> (r: bool)
        ensures
            r == seq_bit(self@, *i as int),
    {
        self.get_bit_on_byte(*i % 8, *i / 8)
    }

    fn get_bit_on_byte(&self, bit: usize, byte: usize) -> (r: bool)
        requires
            bit < 8,
        ensures
            r == (byte < self@.len() && byte_bit(self@[byte as int], bit as u8)),
    {
        if byte >= self.vec.len() {
            false
        } else {
            self.vec[byte] & (1u8 << (bit as u8)) != 0
        }
    }

    /// Sets bit `bit` to `to`, growing the storage with zero bytes when the bit lies beyond it.
    /// Every other bit keeps its value.
    pub fn set_bit(&mut self, bit: &usize, to: &bool)
        ensures
            final(self)@ == seq_with_bit(old(self)@, *bit as nat, *to),
            seq_bit(final(self)@, *bit as int) == *to,
            forall|j: int| 0 <= j && j != *bit ==> #[trigger] seq_bit(final(self)@, j) == seq_bit(old(self)@, j),
    {
        self.set_bit_on_byte(*bit % 8, *bit / 8, to);
        proof {
            let i = *bit as int;
            let v = old(self)@;
            let w = final(self)@;
            assert(i / 8 == (*bit / 8) as int && i % 8 == (*bit % 8) as int);
            assert forall|j: int| 0 <= j && j != i implies #[trigger] seq_bit(w, j) == seq_bit(v, j) by {
                let kb = (j % 8) as u8;
                let bb = (*bit % 8) as u8;
                if j / 8 == i / 8 {
                    assert(kb != bb);
                    let g = if j / 8 < v.len() { v[j / 8] } else { 0u8 };
                    if j / 8 >= v.len() {
                        lemma_zero_bit(kb);
                    }
                    if *to {
                        lemma_or_bit(g, bb, kb);
                    } else {
                        lemma_and_not_bit(g, bb, kb);
                    }
                } else if j / 8 >= v.len() && j / 8 < w.len() {
                    lemma_zero_bit(kb);
                }
            }
            let bb = (*bit % 8) as u8;
            let g = if i / 8 < v.len() { v[i / 8] } else { 0u8 };
            if *to {
                lemma_or_bit(g, bb, bb);
            } else {
                lemma_and_not_bit(g, bb, bb);
            }
        }
    }

    fn set_bit_on_byte(&mut self, bit: usize, byte: usize, val: &bool)
        requires
            bit < 8,
            byte < usize::MAX,
        ensures
            final(self)@ == seq_with_bit(old(self)@, (byte * 8 + bit) as nat, *val),
    {
        let ghost v = self@;
        if byte >= self.vec.len() {
            while self.vec.len() < byte + 1
                invariant
                    byte < usize::MAX,
                    v.len() <= byte,
                    v.len() <= self@.len() <= byte + 1,
                    self@ =~= v + Seq::new((self@.len() - v.len()) as nat, |_j: int| 0u8),
                decreases byte + 1 - self.vec.len(),
            {
                self.vec.push(0u8);
            }
        }
        let ghost i = (byte * 8 + bit) as nat;
        assert((i / 8) as int == byte as int && (i % 8) as u8 == bit as u8) by (nonlinear_arith)
            requires
                i == byte * 8 + bit,
                bit < 8,
        ;
        let cur = self.vec[byte];
        if *val {
            self.vec.set(byte, cur | (1u8 << (bit as u8)));
        } else {
            self.vec.set(byte, cur & !(1u8 << (bit as u8)));
        }
    }
}

} // verus!
