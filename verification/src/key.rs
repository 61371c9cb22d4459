//! The order of index entries.
//!
//! Keys of one index all have the same width and are ordered byte by byte, first
//! byte first. Reading a key as a big-endian number gives the same order, so an
//! entry `(key, rid)` is ranked by the single integer `key * 2^32 + rid`, and all
//! reasoning about order is reasoning about integers.

use vstd::prelude::*;

verus! {

/// The key read as a big-endian number.
pub open spec fn key_val(k: Seq<u8>) -> nat
    decreases k.len(),
{
    if k.len() == 0 {
        0
    } else {
        key_val(k.drop_last()) * 256 + k.last() as nat
    }
}

/// `256^n`.
pub open spec fn pow256(n: nat) -> nat
    decreases n,
{
    if n == 0 {
        1
    } else {
        256 * pow256((n - 1) as nat)
    }
}

/// Rank of the entry `(k, rid)` in the order of its index.
pub open spec fn rank(k: Seq<u8>, rid: u32) -> int {
    key_val(k) * 0x1_0000_0000 + rid as int
}

/// One more than the largest rank among keys of width `n`.
pub open spec fn top(n: nat) -> int {
    (pow256(n) * 0x1_0000_0000) as int
}

#[verifier::spinoff_prover]
pub proof fn lemma_key_val_bound(k: Seq<u8>)
    ensures
        key_val(k) < pow256(k.len()),
    decreases k.len(),
{
    if k.len() > 0 {
        lemma_key_val_bound(k.drop_last());
    }
}

#[verifier::spinoff_prover]
pub proof fn lemma_rank_bound(k: Seq<u8>, rid: u32)
    ensures
        0 <= rank(k, rid) < top(k.len()),
{
    lemma_key_val_bound(k);
}

/// Keys that agree up to position `i` and differ there are ordered by that byte.
#[verifier::spinoff_prover]
pub proof fn lemma_first_difference(a: Seq<u8>, b: Seq<u8>, i: int)
    requires
        a.len() == b.len(),
        0 <= i < a.len(),
        forall|j: int| 0 <= j < i ==> a[j] == b[j],
        a[i] < b[i],
    ensures
        key_val(a) < key_val(b),
    decreases a.len(),
{
    if i == a.len() - 1 {
        assert(a.drop_last() =~= b.drop_last());
    } else {
        lemma_first_difference(a.drop_last(), b.drop_last(), i);
    }
}

/// Keys of one width with the same value are the same key.
#[verifier::spinoff_prover]
pub proof fn lemma_key_val_injective(a: Seq<u8>, b: Seq<u8>)
    requires
        a.len() == b.len(),
        key_val(a) == key_val(b),
    ensures
        a == b,
    decreases a.len(),
{
    if a.len() > 0 {
        lemma_key_val_injective(a.drop_last(), b.drop_last());
        assert(a =~= a.drop_last().push(a.last()));
        assert(b =~= b.drop_last().push(b.last()));
    } else {
        assert(a =~= b);
    }
}

/// Entries of one key width with the same rank are the same entry.
#[verifier::spinoff_prover]
pub proof fn lemma_rank_injective(a: Seq<u8>, ra: u32, b: Seq<u8>, rb: u32)
    requires
        a.len() == b.len(),
        rank(a, ra) == rank(b, rb),
    ensures
        a == b,
        ra == rb,
{
    lemma_key_val_injective(a, b);
}

/// How one entry stands to another.
#[derive(Debug, Clone, Copy, PartialEq, Eq, Structural)]
pub enum Rel {
    Less,
    Equal,
    Greater,
}

/// How the key `a` stands to the key `b` of the same width.
#[verifier::spinoff_prover]
pub fn key_rel(a: &[u8], b: &[u8]) -> (r: Rel)
    requires
        a.len() == b.len(),
    ensures
        r == Rel::Less <==> key_val(a@) < key_val(b@),
        r == Rel::Equal <==> a@ == b@,
        r == Rel::Greater <==> key_val(a@) > key_val(b@),
{
    let mut i: usize = 0;
    while i < a.len()
        invariant
            i <= a.len(),
            a.len() == b.len(),
            forall|j: int| 0 <= j < i ==> a@[j] == b@[j],
        decreases a.len() - i,
    {
        if a[i] < b[i] {
            proof {
                lemma_first_difference(a@, b@, i as int);
            }
            return Rel::Less;
        }
        if a[i] > b[i] {
            proof {
                lemma_first_difference(b@, a@, i as int);
            }
            return Rel::Greater;
        }
        i += 1;
    }
    assert(a@ =~= b@);
    Rel::Equal
}

/// How the entry `(a, ra)` stands to the entry `(b, rb)`.
#[verifier::spinoff_prover]
pub fn entry_rel(a: &[u8], ra: u32, b: &[u8], rb: u32) -> (r: Rel)
    requires
        a.len() == b.len(),
    ensures
        r == Rel::Less <==> rank(a@, ra) < rank(b@, rb),
        r == Rel::Equal <==> rank(a@, ra) == rank(b@, rb),
        r == Rel::Equal <==> (a@ == b@ && ra == rb),
        r == Rel::Greater <==> rank(a@, ra) > rank(b@, rb),
{
    match key_rel(a, b) {
        Rel::Less => Rel::Less,
        Rel::Greater => Rel::Greater,
        Rel::Equal => {
            if ra < rb {
                Rel::Less
            } else if ra > rb {
                Rel::Greater
            } else {
                Rel::Equal
            }
        },
    }
}

} // verus!
