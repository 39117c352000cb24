//! The server registry: a mapping from logical server identifier to the
//! live handle of its running process. At most one entry per identifier
//! exists at any time: starting is insert-if-absent, stopping removes and
//! returns the handle, and both are benign when there is nothing to do.

use vstd::prelude::*;

verus! {

broadcast use vstd::seq::group_seq_axioms, vstd::std_specs::vec::group_vec_axioms;

/// A registry of running servers: identifier to handle, one entry each.
pub struct ServerRegistry<H> {
    entries: Vec<(String, H)>,
}

impl<H> ServerRegistry<H> {
    /// The entries as a sequence of identifier views and handles.
    pub closed spec fn view_entries(self) -> Seq<(Seq<char>, H)> {
        Seq::new(
            self.entries@.len(),
            |i: int|
                if 0 <= i < self.entries@.len() {
                    (self.entries@[i].0@, self.entries@[i].1)
                } else {
                    (Seq::empty(), self.entries@[0].1)
                },
        )
    }

    /// Whether some entry carries this identifier.
    pub closed spec fn has_id(self, id: Seq<char>) -> bool {
        exists|i: int| 0 <= i < self.view_entries().len() && (#[trigger] self.view_entries()[i]).0 == id
    }

    /// The registry's invariant: identifiers are pairwise distinct, so at
    /// most one running entry exists per identifier.
    pub closed spec fn inv(self) -> bool {
        forall|i: int, k: int|
            0 <= i < self.view_entries().len() && 0 <= k < self.view_entries().len() && i != k
                ==> (#[trigger] self.view_entries()[i]).0 != (#[trigger] self.view_entries()[k]).0
    }

    /// A fresh, empty registry.
    pub fn new() -> (r: ServerRegistry<H>)
        ensures
            r.inv(),
            r.view_entries() == Seq::<(Seq<char>, H)>::empty(),
    {
        let r = ServerRegistry { entries: Vec::new() };
        proof {
            assert(r.view_entries() =~= Seq::<(Seq<char>, H)>::empty());
        }
        r
    }

    /// How many servers are running.
    pub fn len(&self) -> (r: usize)
        ensures
            r == self.view_entries().len(),
    {
        self.entries.len()
    }

    /// Position of the entry for `id`, if one exists.
    fn find(&self, id: &String) -> (r: Option<usize>)
        ensures
            r is Some ==> r->Some_0 < self.view_entries().len() && self.view_entries()[
                r->Some_0 as int
            ].0 == id@,
            r is None ==> !self.has_id(id@),
    {
        let mut i: usize = 0;
        while i < self.entries.len()
            invariant
                i <= self.entries@.len(),
                forall|k: int| 0 <= k < i ==> (#[trigger] self.view_entries()[k]).0 != id@,
            decreases self.entries@.len() - i,
        {
            if self.entries[i].0 == *id {
                return Some(i);
            }
            i = i + 1;
        }
        None
    }

    /// Whether `id` has a running entry.
    pub fn contains(&self, id: &String) -> (r: bool)
        ensures
            r == self.has_id(id@),
    {
        self.find(id).is_some()
    }

    /// Lookup-for-call: a copy of the handle under `id`, if one runs.
    /// Callers take the copy and release the registry before any blocking
    /// work begins.
    pub fn get(&self, id: &String) -> (r: Option<H>) where H: Clone
        ensures
            r is Some <==> self.has_id(id@),
    {
        match self.find(id) {
            Some(i) => Some(self.entries[i].1.clone()),
            None => None,
        }
    }

    /// Insert-if-absent: registers the handle under `id` unless an entry
    /// for `id` already exists. An existing entry is never replaced; the
    /// handle is given back with the refusal instead.
    pub fn start(&mut self, id: String, handle: H) -> (r: Option<H>)
        requires
            old(self).inv(),
        ensures
            final(self).inv(),
            old(self).has_id(id@) ==> r is Some && final(self).view_entries() == old(
                self,
            ).view_entries(),
            !old(self).has_id(id@) ==> r is None && final(self).view_entries() == old(
                self,
            ).view_entries().push((id@, handle)),
            final(self).has_id(id@),
    {
        match self.find(&id) {
            Some(_) => Some(handle),
            None => {
                let ghost oldv = self.entries@;
                self.entries.push((id, handle));
                proof {
                    assert(self.view_entries() =~= Seq::new(
                        oldv.len(),
                        |i: int|
                            if 0 <= i < oldv.len() {
                                (oldv[i].0@, oldv[i].1)
                            } else {
                                (Seq::empty(), oldv[0].1)
                            },
                    ).push((self.entries@.last().0@, self.entries@.last().1)));
                    let n = self.view_entries().len() - 1;
                    assert(self.view_entries()[n].0 == self.entries@.last().0@);
                    assert forall|a: int, b: int|
                        0 <= a < self.view_entries().len() && 0 <= b < self.view_entries().len()
                            && a != b implies (#[trigger] self.view_entries()[a]).0 != (
                    #[trigger] self.view_entries()[b]).0 by {
                        if a < n && b < n {
                            assert(self.view_entries()[a] == old(self).view_entries()[a]);
                            assert(self.view_entries()[b] == old(self).view_entries()[b]);
                        } else if a == n {
                            assert(self.view_entries()[b] == old(self).view_entries()[b]);
                            if self.view_entries()[b].0 == id@ {
                                assert(old(self).has_id(id@));
                            }
                        } else {
                            assert(self.view_entries()[a] == old(self).view_entries()[a]);
                            if self.view_entries()[a].0 == id@ {
                                assert(old(self).has_id(id@));
                            }
                        }
                    }
                }
                None
            },
        }
    }

    /// Remove-on-stop: takes the entry for `id` out and hands its handle
    /// back, or reports that nothing was running under `id`. Stopping an
    /// identifier with no entry changes nothing and is safe to repeat.
    pub fn stop(&mut self, id: &String) -> (r: Option<H>)
        requires
            old(self).inv(),
        ensures
            final(self).inv(),
            !old(self).has_id(id@) ==> r is None && final(self).view_entries() == old(
                self,
            ).view_entries(),
            old(self).has_id(id@) ==> r is Some && exists|i: int|
                0 <= i < old(self).view_entries().len() && old(self).view_entries()[i] == (
                id@,
                r->Some_0,
                ) && final(self).view_entries() == old(self).view_entries().remove(i),
            !final(self).has_id(id@),
    {
        match self.find(id) {
            Some(i) => {
                let ghost oldv = self.entries@;
                let entry = self.entries.remove(i);
                proof {
                    assert(self.entries@ =~= oldv.remove(i as int));
                    assert(self.view_entries() =~= old(self).view_entries().remove(i as int));
                    assert(old(self).view_entries()[i as int] == (id@, entry.1));
                    if self.has_id(id@) {
                        let k = choose|k: int|
                            0 <= k < self.view_entries().len() && (#[trigger] self.view_entries()[k]).0
                                == id@;
                        if k < i {
                            assert(old(self).view_entries()[k].0 == id@);
                        } else {
                            assert(old(self).view_entries()[k + 1].0 == id@);
                        }
                        assert(false);
                    }
                }
                Some(entry.1)
            },
            None => None,
        }
    }
}

/// The single-running invariant as a standalone law: in a registry
/// satisfying its invariant, two distinct entries never share an
/// identifier, so each identifier has at most one running entry.
pub proof fn lemma_single_running<H>(r: ServerRegistry<H>, i: int, k: int)
    requires
        r.inv(),
        0 <= i < r.view_entries().len(),
        0 <= k < r.view_entries().len(),
        r.view_entries()[i].0 == r.view_entries()[k].0,
    ensures
        i == k,
{
}

} // verus!
