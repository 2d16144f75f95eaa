//! Enumeration of bit patterns: the numbers `0, 1, 2, ...` read as vectors of
//! bits, and subsets of a slice selected by those bits.

use vstd::prelude::*;

verus! {

/// One bit pattern: the number `n`, to be read out as individual bits.
pub struct BitSearcherResult {
    pub n: usize,
}

/// The bit of `n` at position `i` counted from the most significant end of a
/// `size`-bit window: bit `size - 1 - i` of `n`.
pub open spec fn bit_of(n: usize, size: nat, i: int) -> bool {
    ((n as u64) >> (size - 1 - i) as u64) & 1 == 1
}

impl BitSearcherResult {
    pub fn new(n: usize) -> (r: Self)
        ensures
            r.n == n,
    {
        Self { n }
    }

    /// The lowest `size` bits of `n`, most significant first.
    pub fn bits(&self, size: usize) -> (r: Vec<bool>)
        requires
            size <= 63,
        ensures
            r@.len() == size,
            forall|i: int| 0 <= i < size ==> r@[i] == bit_of(self.n, size as nat, i),
    {
        let mut bits: Vec<bool> = Vec::new();
        let mut j: usize = 0;
        while j < size
            invariant
                j <= size <= 63,
                bits@.len() == j,
                forall|i: int| 0 <= i < j ==> bits@[i] == bit_of(self.n, size as nat, i),
            decreases size - j,
        {
            let shift: u64 = (size - 1 - j) as u64;
            let b: bool = ((self.n as u64) >> shift) & 1 == 1;
            bits.push(b);
            j = j + 1;
        }
        bits
    }
}

/// The subsequence of `s` selected by the bits of `n`, read over a window of
/// `s.len()` bits: element `i` is kept exactly when `bit_of(n, s.len(), i)`.
pub open spec fn cover_spec<T>(s: Seq<T>, n: usize, i: int) -> Seq<T>
    decreases s.len() - i,
{
    if i < 0 || i >= s.len() {
        Seq::empty()
    } else {
        let rest = cover_spec(s, n, i + 1);
        if bit_of(n, s.len() as nat, i) {
            seq![s[i]] + rest
        } else {
            rest
        }
    }
}

impl BitSearcherResult {
    /// The elements of `target` whose positions carry a set bit of `n`.
    pub fn cover<T: Copy>(&self, target: &Vec<T>) -> (r: Vec<T>)
        requires
            target@.len() <= 63,
        ensures
            r@ == cover_spec(target@, self.n, 0),
    {
        let bits = self.bits(target.len());
        let mut out: Vec<T> = Vec::new();
        let mut i: usize = 0;
        while i < target.len()
            invariant
                i <= target@.len() <= 63,
                bits@.len() == target@.len(),
                forall|j: int|
                    0 <= j < target@.len() ==> bits@[j] == bit_of(
                        self.n,
                        target@.len() as nat,
                        j,
                    ),
                out@ + cover_spec(target@, self.n, i as int) =~= cover_spec(
                    target@,
                    self.n,
                    0,
                ),
            decreases target@.len() - i,
        {
            if bits[i] {
                out.push(target[i]);
                proof {
                    assert(cover_spec(target@, self.n, i as int) =~= seq![target@[i as int]]
                        + cover_spec(target@, self.n, i + 1));
                }
            }
            i = i + 1;
        }
        proof {
            assert(cover_spec(target@, self.n, i as int) =~= Seq::<T>::empty());
            assert(out@ =~= cover_spec(target@, self.n, 0));
        }
        out
    }
}

/// Walks the bit patterns in order: `0, 1, 2, ...`, each handed out as a
/// `BitSearcherResult`.
pub struct BitSearcher {
    pub n: usize,
}

impl BitSearcher {
    pub fn new() -> (r: Self)
        ensures
            r.n == 0,
    {
        Self { n: 0 }
    }

    /// Hands out the next bit pattern and advances the counter.
    pub fn next(&mut self) -> (r: Option<BitSearcherResult>)
        requires
            old(self).n < usize::MAX,
        ensures
            r is Some,
            r->0.n == old(self).n,
            final(self).n == old(self).n + 1,
    {
        let result = BitSearcherResult::new(self.n);
        self.n = self.n + 1;
        Some(result)
    }
}

} // verus!
