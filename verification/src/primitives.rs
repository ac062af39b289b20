//! Fixed-size byte strings: addresses, hashes, words and bloom filters.

use vstd::prelude::*;

verus! {

/// A byte string of a fixed length.
#[derive(Clone, Copy, Debug)]
pub struct FixedBytes<const N: usize> {
    /// The bytes, most significant first.
    pub bytes: [u8; N],
}

impl<const N: usize> View for FixedBytes<N> {
    type V = Seq<u8>;

    open spec fn view(&self) -> Seq<u8> {
        self.bytes@
    }
}

impl<const N: usize> PartialEq for FixedBytes<N> {
    fn eq(&self, other: &Self) -> (r: bool) {
        let mut i: usize = 0;
        while i < N
            invariant
                i <= N,
                forall|j: int| 0 <= j < i ==> self.bytes@[j] == other.bytes@[j],
            decreases N - i,
        {
            if self.bytes[i] != other.bytes[i] {
                return false;
            }
            i += 1;
        }
        proof {
            assert(self.bytes@ =~= other.bytes@);
        }
        true
    }
}

impl<const N: usize> vstd::std_specs::cmp::PartialEqSpecImpl for FixedBytes<N> {
    open spec fn obeys_eq_spec() -> bool {
        true
    }

    open spec fn eq_spec(&self, other: &Self) -> bool {
        self@ == other@
    }
}

impl<const N: usize> Eq for FixedBytes<N> {

}

/// A 20-byte account address.
pub type Address = FixedBytes<20>;

/// A 32-byte hash.
pub type B256 = FixedBytes<32>;

/// A 256-bit word, most significant byte first: a balance, a storage key or a storage value.
pub type U256 = FixedBytes<32>;

/// A 2048-bit logs bloom filter.
pub type Bloom = FixedBytes<256>;

/// `n` zero bytes.
pub open spec fn zero_bytes(n: nat) -> Seq<u8> {
    Seq::new(n, |i: int| 0u8)
}

impl<const N: usize> FixedBytes<N> {
    /// The byte string of zeros.
    pub fn zero() -> (r: Self)
        ensures
            r@ == zero_bytes(N as nat),
            forall|i: int| 0 <= i < N ==> #[trigger] r.bytes@[i] == 0,
    {
        let r = FixedBytes { bytes: [0u8; N] };
        proof {
            assert(r@ =~= zero_bytes(N as nat));
        }
        r
    }
}

/// Zero bytes are zero, every one of them.
pub proof fn lemma_zero_bytes(n: nat)
    ensures
        zero_bytes(n).len() == n,
        forall|i: int| 0 <= i < n ==> #[trigger] zero_bytes(n)[i] == 0,
{
}

/// Two byte strings with the same bytes are the same value.
pub proof fn lemma_fixed_bytes_ext<const N: usize>(a: FixedBytes<N>, b: FixedBytes<N>)
    requires
        a@ == b@,
    ensures
        a == b,
{
    assert(a.bytes =~= b.bytes);
}

/// The byte string whose bytes are `s`.
pub open spec fn fixed_bytes<const N: usize>(s: Seq<u8>) -> FixedBytes<N> {
    choose|b: FixedBytes<N>| #[trigger] b@ == s
}

/// A byte string is the one that has its bytes.
pub proof fn lemma_fixed_bytes<const N: usize>(b: FixedBytes<N>)
    ensures
        fixed_bytes::<N>(b@) == b,
{
    lemma_fixed_bytes_ext(fixed_bytes::<N>(b@), b);
}

} // verus!
