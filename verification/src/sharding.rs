//! Stable sharding: map an identifier to a shard index.
//!
//! A stable hash of the first eight bytes of the identifier, taken modulo
//! the shard count, picks an engine instance; within a shard all state is
//! exclusively owned.

use vstd::prelude::*;

verus! {

use vstd::string::StringSliceAdditionalSpecFns;

/// `256`-ary accumulation of a byte string, most significant byte first.
pub open spec fn sharding_acc(bytes: Seq<u8>) -> int
    decreases bytes.len(),
{
    if bytes.len() == 0 {
        0
    } else {
        sharding_acc(bytes.drop_last()) * 256 + bytes.last()
    }
}

/// `256^n`.
pub open spec fn pow256(n: nat) -> int
    decreases n,
{
    if n == 0 {
        1
    } else {
        256 * pow256((n - 1) as nat)
    }
}

proof fn lemma_sharding_acc_bound(bytes: Seq<u8>)
    ensures
        0 <= sharding_acc(bytes) < pow256(bytes.len()),
    decreases bytes.len(),
{
    if bytes.len() > 0 {
        lemma_sharding_acc_bound(bytes.drop_last());
    }
}

/// The shard index for identifier `s` among `max` shards: the first eight
/// bytes of `s` folded into an integer, modulo `max`.
pub fn get_index(s: &str, max: usize) -> (r: usize)
    requires
        max > 0,
    ensures
        r == sharding_acc(s.spec_bytes().take(if s.spec_bytes().len() < 8 {
            s.spec_bytes().len() as int
        } else {
            8
        })) % (max as int),
        r < max,
{
    let b = s.as_bytes();
    let n = if b.len() < 8 {
        b.len()
    } else {
        8
    };
    let mut acc: u64 = 0;
    let mut i: usize = 0;
    proof {
        assert(b@.take(0) =~= Seq::<u8>::empty());
        reveal_with_fuel(pow256, 9);
        assert(pow256(8) == 0x1_0000_0000_0000_0000);
    }
    while i < n
        invariant
            i <= n <= 8,
            n <= b@.len(),
            b@ == s.spec_bytes(),
            acc == sharding_acc(b@.take(i as int)),
            acc < pow256(i as nat),
            pow256(8) == 0x1_0000_0000_0000_0000,
        decreases n - i,
    {
        proof {
            let t = b@.take(i + 1);
            assert(t.drop_last() =~= b@.take(i as int));
            assert(t.last() == b@[i as int]);
            lemma_sharding_acc_bound(b@.take(i + 1));
            assert(pow256((i + 1) as nat) <= pow256(8)) by {
                lemma_pow256_le((i + 1) as nat, 8nat);
            }
        }
        acc = acc * 256 + (b[i] as u64);
        i = i + 1;
    }
    let r = (acc % (max as u64)) as usize;
    r
}

proof fn lemma_pow256_le(n: nat, m: nat)
    requires
        n <= m,
    ensures
        1 <= pow256(n) <= pow256(m),
    decreases m,
{
    if m == 0 {
    } else if n == m {
        lemma_pow256_le((n - 1) as nat, (m - 1) as nat);
    } else {
        lemma_pow256_le(n, (m - 1) as nat);
    }
}

} // verus!
