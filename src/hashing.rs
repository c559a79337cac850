//! The two policies shared by the side that builds a table and the side that
//! reads it: which bucket a package name falls in, and how many buckets a
//! table of a given size has.

use std::hash::{Hash, Hasher};
use vstd::prelude::*;

verus! {

/// The 64-bit digest that std's `DefaultHasher` gives a string.
pub uninterp spec fn name_hash(name: Seq<char>) -> u64;

/// Relies on `DefaultHasher::new`, `str::hash` and `Hasher::finish`: a hasher
/// made by `new` has fixed keys, so the digest is a function of the string.
#[verifier::external_body]
fn hash_name(name: &str) -> (r: u64)
    ensures
        r == name_hash(name@),
{
    let mut s = std::collections::hash_map::DefaultHasher::new();
    name.hash(&mut s);
    s.finish()
}

/// The bucket of a package name in a table of `num_buckets` buckets.
pub open spec fn bucket_of(name: Seq<char>, num_buckets: u32) -> u32 {
    (name_hash(name) % (num_buckets as u64)) as u32
}

/// The bucket, among `num_buckets`, of a name whose digest is `hash`.
pub fn bucket_from_hash(hash: u64, num_buckets: u32) -> (r: u32)
    requires
        num_buckets > 0,
    ensures
        r == hash % (num_buckets as u64),
        r < num_buckets,
{
    (hash % (num_buckets as u64)) as u32
}

/// Bucket index of `name` among `num_buckets` buckets.
pub fn get_bucket_index(name: &str, num_buckets: u32) -> (r: u32)
    requires
        num_buckets > 0,
    ensures
        r == bucket_of(name@, num_buckets),
        r < num_buckets,
{
    let h = hash_name(name);
    bucket_from_hash(h, num_buckets)
}

/// The bucket counts a table may have, in increasing order: primes, each
/// about twice the one before.
pub open spec fn hash_primes() -> Seq<u32> {
    seq![
        7u32, 17, 29, 53, 97, 193, 389, 769, 1543, 3079, 6151, 12289, 24593, 49157, 98317, 196613,
        393241, 786433, 1572869, 3145739, 6291469, 12582917, 25165843, 50331653, 100663319,
        201326611, 402653189, 805306457, 1610612741,
    ]
}

/// The first element of `s` that is at least `target`.
pub open spec fn first_at_least(s: Seq<u32>, target: int) -> Option<u32>
    decreases s.len(),
{
    if s.len() == 0 {
        None
    } else if s[0] >= target {
        Some(s[0])
    } else {
        first_at_least(s.drop_first(), target)
    }
}

/// The number of buckets of a table of `num_packages` packages: the
/// smallest listed prime that is at least twice the package count, or `None`
/// where the count is beyond every listed size.
pub open spec fn table_size(num_packages: u32) -> Option<u32> {
    first_at_least(hash_primes(), 2 * num_packages)
}

/// Number of buckets for a table of `entries` packages; `None` where no
/// listed size is large enough.
pub fn get_table_size(entries: u32) -> (r: Option<u32>)
    ensures
        r == table_size(entries),
{
    let primes: Vec<u32> = vec![
        7u32, 17, 29, 53, 97, 193, 389, 769, 1543, 3079, 6151, 12289, 24593, 49157, 98317, 196613,
        393241, 786433, 1572869, 3145739, 6291469, 12582917, 25165843, 50331653, 100663319,
        201326611, 402653189, 805306457, 1610612741,
    ];
    assert(primes@ =~= hash_primes());
    let target: u64 = 2 * (entries as u64);
    let mut i: usize = 0;
    assert(hash_primes().subrange(0, hash_primes().len() as int) =~= hash_primes());
    while i < primes.len()
        invariant
            primes@ == hash_primes(),
            target == 2 * entries,
            i <= primes.len(),
            first_at_least(hash_primes(), target as int) == first_at_least(
                hash_primes().subrange(i as int, hash_primes().len() as int),
                target as int,
            ),
        decreases primes.len() - i,
    {
        let p = primes[i];
        proof {
            let rest = hash_primes().subrange(i as int, hash_primes().len() as int);
            assert(rest.drop_first() =~= hash_primes().subrange(
                i + 1,
                hash_primes().len() as int,
            ));
        }
        if (p as u64) >= target {
            return Some(p);
        }
        i = i + 1;
    }
    proof {
        assert(hash_primes().subrange(i as int, hash_primes().len() as int).len() == 0);
    }
    None
}

} // verus!
