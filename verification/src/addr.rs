//! 128-bit IPv6 addresses and their big-endian byte serialization.

use vstd::arithmetic::div_mod::{
    lemma_div_denominator, lemma_mod_breakdown, lemma_small_mod,
};
use vstd::arithmetic::power2::{
    lemma2_to64, lemma2_to64_rest, lemma_pow2_adds, lemma_pow2_pos, lemma_pow2_strictly_increases,
    lemma_pow2_subtracts, pow2,
};
use vstd::prelude::*;

verus! {

/// An IPv6 address, held as the 128-bit value whose big-endian byte
/// representation is the usual 16-octet form of the address.
#[derive(Clone, Copy, Debug, PartialEq, Eq, Structural)]
pub struct Ipv6Address {
    pub value: u128,
}

/// `pow2(128)`, written out.
pub proof fn lemma_pow2_128()
    ensures
        pow2(128) == 0x1_0000_0000_0000_0000_0000_0000_0000_0000,
{
    lemma2_to64_rest();
    lemma_pow2_adds(64, 64);
}

/// `pow2(120)`, written out.
pub proof fn lemma_pow2_120()
    ensures
        pow2(120) == 0x100_0000_0000_0000_0000_0000_0000_0000,
{
    lemma2_to64_rest();
    lemma_pow2_adds(64, 56);
}

/// The big-endian bytes of `v`, written with `n` octets: index 0 is the
/// most significant octet.
pub open spec fn be_bytes(v: nat, n: nat) -> Seq<u8> {
    Seq::new(n, |i: int| ((v / pow2((8 * (n - 1 - i)) as nat)) % 256) as u8)
}

/// The value that a big-endian byte string denotes.
pub open spec fn be_value(s: Seq<u8>) -> nat
    decreases s.len(),
{
    if s.len() == 0 {
        0
    } else {
        (be_value(s.drop_last()) * 256 + s.last()) as nat
    }
}

/// The 16 octets of an IPv6 address, most significant first.
pub open spec fn address_octets(v: u128) -> Seq<u8> {
    be_bytes(v as nat, 16)
}

/// Reading back the big-endian bytes of `v` yields `v` reduced to `n` octets.
pub proof fn lemma_be_value_of_bytes(v: nat, n: nat)
    ensures
        be_value(be_bytes(v, n)) == v % pow2(8 * n),
    decreases n,
{
    lemma2_to64();
    if n == 0 {
        lemma_small_mod(0, pow2(0));
        assert(be_value(be_bytes(v, 0)) == 0);
        lemma_small_mod(v % pow2(0), pow2(0));
        assert(pow2(0) == 1);
        assert(v % 1 == 0) by {
            lemma_small_mod(0, 1);
        }
    } else {
        let s = be_bytes(v, n);
        let prev = be_bytes(v / 256, (n - 1) as nat);
        assert(s.drop_last() =~= prev) by {
            assert forall|i: int| 0 <= i < n - 1 implies s.drop_last()[i] == prev[i] by {
                lemma_pow2_pos((8 * (n - 2 - i)) as nat);
                lemma_div_denominator(v as int, 256, pow2((8 * (n - 2 - i)) as nat) as int);
                lemma_pow2_adds(8, (8 * (n - 2 - i)) as nat);
            }
        }
        lemma_be_value_of_bytes(v / 256, (n - 1) as nat);
        assert(s.last() == ((v / pow2(0)) % 256) as u8);
        assert(pow2(0) == 1);
        assert(s.last() == v % 256);
        assert(be_value(s) == (v / 256 % pow2(8 * (n - 1) as nat)) * 256 + v % 256);
        lemma_pow2_pos(8 * (n - 1) as nat);
        lemma_mod_breakdown(v as int, 256, pow2(8 * (n - 1) as nat) as int);
        lemma_pow2_adds(8, 8 * (n - 1) as nat);
    }
}

impl Ipv6Address {
    /// The address's 16 octets, most significant first.
    pub fn octets(&self) -> (r: Vec<u8>)
        ensures
            r@ == address_octets(self.value),
    {
        let mut out: Vec<u8> = Vec::new();
        let mut divisor: u128 = 0x100_0000_0000_0000_0000_0000_0000_0000;
        proof {
            lemma_pow2_120();
        }
        let mut i: usize = 0;
        while i < 16
            invariant
                i <= 16,
                out@.len() == i,
                forall|j: int| 0 <= j < i ==> out@[j] == address_octets(self.value)[j],
                i < 16 ==> divisor as nat == pow2((8 * (15 - i)) as nat),
            decreases 16 - i,
        {
            proof {
                lemma_pow2_pos((8 * (15 - i)) as nat);
            }
            let b = ((self.value / divisor) % 256) as u8;
            out.push(b);
            if i < 15 {
                proof {
                    lemma_pow2_subtracts(8, (8 * (15 - i)) as nat);
                    lemma2_to64();
                }
                divisor = divisor / 256;
            }
            i = i + 1;
        }
        proof {
            assert(out@ =~= address_octets(self.value));
        }
        out
    }

    /// Reads an address from its 16 big-endian octets.
    pub fn from_octets(bytes: &[u8]) -> (r: Ipv6Address)
        requires
            bytes@.len() == 16,
        ensures
            r.value as nat == be_value(bytes@),
    {
        let mut v: u128 = 0;
        let mut i: usize = 0;
        proof {
            lemma2_to64();
        }
        while i < 16
            invariant
                i <= 16,
                bytes@.len() == 16,
                v as nat == be_value(bytes@.take(i as int)),
                (v as nat) < pow2((8 * i) as nat),
            decreases 16 - i,
        {
            proof {
                lemma_pow2_adds((8 * i) as nat, 8);
                lemma2_to64();
                if 8 * i + 8 < 128 {
                    lemma_pow2_strictly_increases((8 * i + 8) as nat, 128);
                }
                lemma_pow2_128();
                assert(bytes@.take(i + 1).drop_last() =~= bytes@.take(i as int));
            }
            v = v * 256 + bytes[i] as u128;
            i = i + 1;
        }
        proof {
            assert(bytes@.take(16) =~= bytes@);
        }
        Ipv6Address { value: v }
    }
}

/// Computes `2^e` for an exponent below the width of `u128`.
pub fn pow2_u128(e: u32) -> (r: u128)
    requires
        e < 128,
    ensures
        r as nat == pow2(e as nat),
{
    proof {
        lemma2_to64();
    }
    let mut r: u128 = 1;
    let mut i: u32 = 0;
    while i < e
        invariant
            i <= e,
            e < 128,
            r as nat == pow2(i as nat),
        decreases e - i,
    {
        proof {
            lemma_pow2_adds(i as nat, 1);
            lemma2_to64();
            lemma_pow2_strictly_increases((i + 1) as nat, 128);
            lemma_pow2_128();
        }
        r = r * 2;
        i = i + 1;
    }
    r
}

} // verus!
