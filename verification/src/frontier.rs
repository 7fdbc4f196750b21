use vstd::prelude::*;
use crate::grid::{before, Vector};

verus! {

/// A cell waiting to be expanded, with its priority: what it cost to reach
/// plus the estimate of what is left.
#[derive(PartialEq, Eq, Structural, Clone, Copy, Debug)]
pub struct Node(pub u32, pub Vector);

/// The order in which candidates leave the frontier: the lower priority
/// first, and among equal priorities the cell that comes first in row-major
/// order.
pub open spec fn node_lt(a: Node, b: Node) -> bool {
    a.0 < b.0 || (a.0 == b.0 && before(a.1, b.1))
}

pub open spec fn node_le(a: Node, b: Node) -> bool {
    a == b || node_lt(a, b)
}

/// The position of the least candidate of `s`; of equal ones, the first.
pub open spec fn min_index(s: Seq<Node>) -> int
    decreases s.len(),
{
    if s.len() <= 1 {
        0
    } else {
        let m = min_index(s.drop_last());
        if node_lt(s.last(), s[m]) {
            s.len() - 1
        } else {
            m
        }
    }
}

/// `min_index` names a candidate of `s` that none of `s` precedes.
pub proof fn lemma_min_index(s: Seq<Node>)
    requires
        s.len() > 0,
    ensures
        0 <= min_index(s) < s.len(),
        forall|j: int| 0 <= j < s.len() ==> node_le(s[min_index(s)], #[trigger] s[j]),
    decreases s.len(),
{
    if s.len() > 1 {
        let t = s.drop_last();
        lemma_min_index(t);
        let m = min_index(t);
        assert forall|j: int| 0 <= j < s.len() implies node_le(s[min_index(s)], #[trigger] s[j]) by {
            if j < s.len() - 1 {
                assert(t[j] == s[j]);
                assert(node_le(t[m], t[j]));
            }
        }
    }
}

pub fn precedes(a: &Node, b: &Node) -> (r: bool)
    ensures
        r == node_lt(*a, *b),
{
    a.0 < b.0 || (a.0 == b.0 && (a.1.0 < b.1.0 || (a.1.0 == b.1.0 && a.1.1 < b.1.1)))
}

/// The candidates that were found and not yet expanded.
pub struct Frontier {
    pub items: Vec<Node>,
}

impl View for Frontier {
    type V = Seq<Node>;

    open spec fn view(&self) -> Seq<Node> {
        self.items@
    }
}

impl Frontier {
    pub fn new() -> (f: Frontier)
        ensures
            f@ == Seq::<Node>::empty(),
    {
        Frontier { items: Vec::new() }
    }

    pub fn len(&self) -> (n: usize)
        ensures
            n == self@.len(),
    {
        self.items.len()
    }

    pub fn insert(&mut self, node: Node)
        ensures
            final(self)@ == old(self)@.push(node),
    {
        self.items.push(node);
    }

    /// Takes out the least candidate, if there is one.
    pub fn extract_min(&mut self) -> (r: Option<Node>)
        ensures
            old(self)@.len() == 0 ==> r.is_none() && final(self)@ == old(self)@,
            old(self)@.len() > 0 ==> r == Some(old(self)@[min_index(old(self)@)]) && final(self)@
                == old(self)@.remove(min_index(old(self)@)),
    {
        let n: usize = self.items.len();
        if n == 0 {
            return None;
        }
        let mut best: usize = 0;
        let mut k: usize = 1;
        assert(self.items@.take(1).len() == 1);
        while k < n
            invariant
                n == self.items@.len(),
                *self == *old(self),
                1 <= k <= n,
                best < k,
                best == min_index(self.items@.take(k as int)),
            decreases n - k,
        {
            proof {
                let t = self.items@.take(k + 1);
                assert(t.drop_last() =~= self.items@.take(k as int));
                assert(t.last() == self.items@[k as int]);
                assert(t[best as int] == self.items@[best as int]);
            }
            if precedes(&self.items[k], &self.items[best]) {
                best = k;
            }
            k += 1;
        }
        assert(self.items@.take(n as int) =~= self.items@);
        let node: Node = self.items.remove(best);
        Some(node)
    }
}

} // verus!
