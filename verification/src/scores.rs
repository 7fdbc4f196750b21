use vstd::prelude::*;
use crate::grid::Vector;

verus! {

/// One more than the largest key a cell can have.
pub const KEY_SPACE: u64 = 65536;

/// The number under which a cell is filed in the maps of a search.
pub open spec fn key_of(v: Vector) -> u64 {
    (v.0 as u64 * 256 + v.1 as u64) as u64
}

pub fn key(v: Vector) -> (k: u64)
    ensures
        k == key_of(v),
        k < KEY_SPACE,
{
    v.0 as u64 * 256 + v.1 as u64
}

/// Two cells with one key are one cell.
pub proof fn lemma_key_injective(a: Vector, b: Vector)
    requires
        key_of(a) == key_of(b),
    ensures
        a == b,
{
}

/// How many keys below `n` have a score.
pub open spec fn reached(g: Map<u64, u32>, n: nat) -> nat
    decreases n,
{
    if n == 0 {
        0
    } else {
        reached(g, (n - 1) as nat) + if g.contains_key((n - 1) as u64) {
            1nat
        } else {
            0nat
        }
    }
}

/// The sum of the scores of the keys below `n`.
pub open spec fn total_score(g: Map<u64, u32>, n: nat) -> nat
    decreases n,
{
    if n == 0 {
        0
    } else {
        total_score(g, (n - 1) as nat) + if g.contains_key((n - 1) as u64) {
            g[(n - 1) as u64] as nat
        } else {
            0nat
        }
    }
}

pub proof fn lemma_reached_bound(g: Map<u64, u32>, n: nat)
    ensures
        reached(g, n) <= n,
    decreases n,
{
    if n > 0 {
        lemma_reached_bound(g, (n - 1) as nat);
    }
}

/// A first score for `k` adds one to the count of scored keys.
pub proof fn lemma_insert_fresh(g: Map<u64, u32>, k: u64, v: u32, n: nat)
    requires
        !g.contains_key(k),
        n <= KEY_SPACE,
    ensures
        reached(g.insert(k, v), n) == reached(g, n) + if k < n {
            1nat
        } else {
            0nat
        },
    decreases n,
{
    if n > 0 {
        lemma_insert_fresh(g, k, v, (n - 1) as nat);
    }
}

/// A new score for a key that had one leaves the count as it was and moves
/// the sum by the difference.
pub proof fn lemma_insert_again(g: Map<u64, u32>, k: u64, v: u32, n: nat)
    requires
        g.contains_key(k),
        n <= KEY_SPACE,
    ensures
        reached(g.insert(k, v), n) == reached(g, n),
        k < n ==> total_score(g.insert(k, v), n) + g[k] == total_score(g, n) + v,
        k >= n ==> total_score(g.insert(k, v), n) == total_score(g, n),
    decreases n,
{
    if n > 0 {
        lemma_insert_again(g, k, v, (n - 1) as nat);
    }
}

} // verus!
