//! The request correlator: an explicitly-owned counter that hands out
//! request identifiers. Identifiers are strictly increasing from 1, never
//! reused within the counter's lifetime, and the ghost history records
//! every identifier handed out.

use vstd::prelude::*;

verus! {

broadcast use vstd::seq::group_seq_axioms;

/// Hands out request identifiers, strictly increasing from 1.
pub struct RequestIdGen {
    next: u64,
    issued: Ghost<Seq<u64>>,
}

impl RequestIdGen {
    /// All identifiers handed out so far, in order.
    pub closed spec fn issued(self) -> Seq<u64> {
        self.issued@
    }

    /// The identifier the next call will hand out.
    pub closed spec fn next_of(self) -> u64 {
        self.next
    }

    /// The counter's invariant: the history climbs one by one from 1, so
    /// every identifier is distinct and below the next one.
    pub closed spec fn inv(self) -> bool {
        &&& self.next >= 1
        &&& self.issued@.len() == self.next - 1
        &&& forall|i: int| 0 <= i < self.issued@.len() ==> #[trigger] self.issued@[i] == i + 1
    }

    /// The identifier the next call will hand out, without handing it out.
    pub fn peek_next(&self) -> (r: u64)
        ensures
            r == self.next_of(),
    {
        self.next
    }

    /// A fresh counter, seeded at 1 with an empty history.
    pub fn new() -> (r: RequestIdGen)
        ensures
            r.inv(),
            r.next_of() == 1,
            r.issued() == Seq::<u64>::empty(),
    {
        RequestIdGen { next: 1, issued: Ghost(Seq::empty()) }
    }

    /// Hands out the next identifier. It is larger than every identifier
    /// handed out before, and the history grows by exactly this one.
    pub fn next_id(&mut self) -> (r: u64)
        requires
            old(self).inv(),
            old(self).next_of() < u64::MAX,
        ensures
            final(self).inv(),
            r == old(self).next_of(),
            final(self).next_of() == old(self).next_of() + 1,
            final(self).issued() == old(self).issued().push(r),
            forall|i: int| 0 <= i < old(self).issued().len() ==> #[trigger] old(self).issued()[i] < r,
    {
        let id = self.next;
        self.next = self.next + 1;
        proof {
            self.issued@ = self.issued@.push(id);
        }
        id
    }
}

/// Identifier uniqueness and coverage: after any number of calls on a
/// fresh counter, the identifiers handed out are pairwise distinct, and
/// the `n`-th one is exactly `n`, so the largest handed out after `n`
/// calls is `n` itself.
pub proof fn lemma_ids_distinct(g: RequestIdGen)
    requires
        g.inv(),
    ensures
        forall|i: int, k: int|
            0 <= i < g.issued().len() && 0 <= k < g.issued().len() && i != k ==> g.issued()[i]
                != g.issued()[k],
        forall|i: int| 0 <= i < g.issued().len() ==> #[trigger] g.issued()[i] == i + 1,
        g.issued().len() > 0 ==> g.issued().last() == g.issued().len(),
        forall|i: int|
            0 <= i < g.issued().len() ==> #[trigger] g.issued()[i] <= g.issued().len(),
{
}

} // verus!
