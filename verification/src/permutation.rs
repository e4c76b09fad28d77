use vstd::prelude::*;

use crate::error::{invalid_argument, Result};

verus! {

/// Whether `order` names every index in `0..order.len()` exactly once.
pub open spec fn is_permutation(order: Seq<u64>) -> bool {
    &&& forall|i: int| 0 <= i < order.len() ==> #[trigger] order[i] < order.len()
    &&& forall|i: int, j: int|
        0 <= i < order.len() && 0 <= j < order.len() && i != j ==> #[trigger] order[i]
            != #[trigger] order[j]
}

/// A new page order: position `i` of the result holds the page that was at `order[i]`.
///
/// Valid by construction: every page of some document is named exactly once. That it is for
/// *this* document is the check an operation makes, where the page count is known.
pub struct Permutation {
    order: Vec<u64>,
}

impl View for Permutation {
    type V = Seq<u64>;

    closed spec fn view(&self) -> Seq<u64> {
        self.order@
    }
}

impl Permutation {
    #[verifier::type_invariant]
    closed spec fn inv(self) -> bool {
        is_permutation(self.order@)
    }

    /// The order, checked to be a permutation of `0..pages`.
    ///
    /// # Errors
    ///
    /// `InvalidArgument` when the order is not `pages` long, names a page past the end, or
    /// names a page twice.
    pub fn of(order: Vec<u64>, pages: u64) -> (r: Result<Permutation>)
        ensures
            r is Ok <==> (order@.len() == pages && is_permutation(order@)),
            r is Ok ==> r->Ok_0@ == order@,
            r is Err ==> r->Err_0 is InvalidArgument,
    {
        if order.len() as u64 != pages {
            return Err(invalid_argument("the page order does not name every page"));
        }
        let n = order.len();
        let mut seen: Vec<bool> = Vec::new();
        let mut k: usize = 0;
        while k < n
            invariant
                k <= n,
                seen@.len() == k,
                forall|j: int| 0 <= j < k ==> !seen@[j],
            decreases n - k,
        {
            seen.push(false);
            k += 1;
        }
        let mut i: usize = 0;
        while i < n
            invariant
                n == order@.len(),
                seen@.len() == n,
                i <= n,
                forall|a: int| 0 <= a < i ==> #[trigger] order@[a] < n,
                forall|a: int, b: int|
                    0 <= a < i && 0 <= b < i && a != b ==> #[trigger] order@[a] != #[trigger] order@[b],
                forall|v: int| 0 <= v < n ==> (#[trigger] seen@[v] <==> exists|a: int| 0 <= a < i && order@[a] == v),
            decreases n - i,
        {
            let page = order[i];
            if page >= n as u64 {
                assert(!is_permutation(order@)) by {
                    assert(order@[i as int] >= order@.len());
                }
                return Err(invalid_argument("the page order names a page past the end"));
            }
            if seen[page as usize] {
                assert(!is_permutation(order@)) by {
                    let a = choose|a: int| 0 <= a < i && order@[a] == page;
                    assert(order@[a] == order@[i as int]);
                }
                return Err(invalid_argument("the page order names a page more than once"));
            }
            seen.set(page as usize, true);
            i += 1;
        }
        let p = Permutation { order };
        Ok(p)
    }

    /// The order: position `i` of the result holds the page that was at `order()[i]`.
    pub fn order(&self) -> (o: &Vec<u64>)
        ensures
            o@ == self@,
            is_permutation(self@),
    {
        proof {
            use_type_invariant(self);
        }
        &self.order
    }

    /// How many pages it orders.
    pub fn len(&self) -> (n: usize)
        ensures
            n == self@.len(),
    {
        self.order.len()
    }

    /// Whether it leaves every page where it is.
    pub fn is_identity(&self) -> (b: bool)
        ensures
            b <==> forall|i: int| 0 <= i < self@.len() ==> self@[i] == i,
    {
        let n = self.order.len();
        let mut i: usize = 0;
        while i < n
            invariant
                n == self.order@.len(),
                i <= n,
                forall|j: int| 0 <= j < i ==> self.order@[j] == j,
            decreases n - i,
        {
            if self.order[i] != i as u64 {
                assert(self@[i as int] != i);
                return false;
            }
            i += 1;
        }
        true
    }
}

} // verus!
