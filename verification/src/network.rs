//! The network: every street, found by its name.

use crate::index::{files, HashIndex};
use crate::name::{hash_name, name_hash, rank, Rank};
use crate::street::{Street, StreetView};
use vstd::prelude::*;

verus! {

/// The streets of a road network, in the order in which they were added. No
/// two of them have the same name.
pub struct Network {
    streets: Vec<Street>,
    index: HashIndex,
}

/// The views of the streets in `streets`, one by one.
pub open spec fn views(streets: Seq<Street>) -> Seq<StreetView> {
    streets.map_values(|s: Street| s@)
}

/// No two streets of `streets` have the same name.
pub open spec fn distinct_names(streets: Seq<StreetView>) -> bool {
    forall|i: int, j: int|
        0 <= i < j < streets.len() ==> (#[trigger] streets[i]).name != (#[trigger] streets[j]).name
}

/// A street of `streets` has the name `name`.
pub open spec fn declares(streets: Seq<StreetView>, name: Seq<char>) -> bool {
    exists|i: int| 0 <= i < streets.len() && (#[trigger] streets[i]).name == name
}

/// `before` with the visit count of the street at position `at` set to
/// `visits`.
pub open spec fn with_visits(before: Seq<StreetView>, at: int, visits: usize) -> Seq<StreetView> {
    before.update(at, StreetView { visits, ..before[at] })
}

/// The names of the streets of `streets` that lead to the intersection
/// `id`, in the order of `streets`.
pub open spec fn incoming(streets: Seq<StreetView>, id: usize) -> Seq<Seq<char>>
    decreases streets.len(),
{
    if streets.len() == 0 {
        Seq::empty()
    } else if streets.last().to == id {
        incoming(streets.drop_last(), id).push(streets.last().name)
    } else {
        incoming(streets.drop_last(), id)
    }
}

/// A name is among the streets that lead to `id` exactly when a street of
/// this name leads there.
pub proof fn lemma_incoming_holds(streets: Seq<StreetView>, id: usize, name: Seq<char>)
    ensures
        incoming(streets, id).contains(name) <==> exists|i: int|
            0 <= i < streets.len() && (#[trigger] streets[i]).name == name && streets[i].to == id,
    decreases streets.len(),
{
    if streets.len() > 0 {
        let rest = streets.drop_last();
        lemma_incoming_holds(rest, id, name);
        assert(streets.last() == streets[streets.len() - 1]);
        if exists|i: int|
            0 <= i < streets.len() && (#[trigger] streets[i]).name == name && streets[i].to == id {
            let i = choose|i: int|
                0 <= i < streets.len() && (#[trigger] streets[i]).name == name && streets[i].to
                    == id;
            if i < rest.len() {
                assert(rest[i] == streets[i]);
                let k = choose|k: int|
                    0 <= k < incoming(rest, id).len() && incoming(rest, id)[k] == name;
                assert(incoming(streets, id)[k] == name);
            } else {
                assert(incoming(streets, id)[incoming(rest, id).len() as int] == name);
            }
        }
    }
}

/// Where names are distinct, the name of a street is listed for the
/// intersection that the street leads to, and for no other.
pub proof fn lemma_one_bucket(streets: Seq<StreetView>, at: int, id: usize)
    requires
        distinct_names(streets),
        0 <= at < streets.len(),
    ensures
        incoming(streets, id).contains(streets[at].name) <==> streets[at].to == id,
{
    let name = streets[at].name;
    lemma_incoming_holds(streets, id, name);
    if incoming(streets, id).contains(name) {
        let i = choose|i: int|
            0 <= i < streets.len() && (#[trigger] streets[i]).name == name && streets[i].to == id;
        if i < at {
            assert(streets[i].name != streets[at].name);
        } else if at < i {
            assert(streets[at].name != streets[i].name);
        }
    }
}

impl View for Network {
    type V = Seq<StreetView>;

    closed spec fn view(&self) -> Seq<StreetView> {
        views(self.streets@)
    }
}

impl Network {
    /// The index files every street under the hash of its name.
    pub closed spec fn indexed(&self) -> bool {
        &&& self.index.wf()
        &&& self.index@.len() == self.streets@.len()
        &&& forall|i: int|
            0 <= i < self.streets@.len() ==> #[trigger] self.index@[i] == name_hash(
                self.streets@[i].name@,
            )
    }

    /// What holds of every network: its streets have distinct names, and
    /// each can be found by its name.
    pub open spec fn wf(&self) -> bool {
        &&& self.indexed()
        &&& distinct_names(self@)
    }

    /// The streets of a network have distinct names, and there are no more
    /// of them than a `usize` counts.
    pub proof fn lemma_wf_distinct(&self)
        requires
            self.wf(),
        ensures
            distinct_names(self@),
            self@.len() <= usize::MAX,
    {
        assert(self@.len() == self.streets.len());
    }

    /// The network without streets.
    pub fn new() -> (network: Network)
        ensures
            network.wf(),
            network@ == Seq::<StreetView>::empty(),
    {
        Network { streets: Vec::new(), index: HashIndex::new() }
    }

    /// The number of streets.
    pub fn len(&self) -> (n: usize)
        ensures
            n == self@.len(),
    {
        self.streets.len()
    }

    /// The street at position `at`.
    pub fn street(&self, at: usize) -> (street: &Street)
        requires
            at < self@.len(),
        ensures
            street@ == self@[at as int],
    {
        &self.streets[at]
    }

    /// The position of the street named `name`, if there is one.
    pub fn find(&self, name: &str) -> (found: Option<usize>)
        requires
            self.wf(),
        ensures
            match found {
                Some(at) => at < self@.len() && self@[at as int].name == name@,
                None => !declares(self@, name@),
            },
    {
        let h = hash_name(name);
        match self.index.lookup(h) {
            None => {
                assert forall|i: int| 0 <= i < self@.len() implies (#[trigger] self@[i]).name
                    != name@ by {
                    assert(self.index@[i] != h);
                }
                None
            },
            Some(bucket) => {
                let mut k: usize = 0;
                while k < bucket.len()
                    invariant
                        k <= bucket.len(),
                        files(self.index@, h, bucket@),
                        self.index@.len() == self.streets@.len(),
                        forall|j: int|
                            0 <= j < k ==> self.streets@[(#[trigger] bucket@[j]) as int].name@
                                != name@,
                    decreases bucket.len() - k,
                {
                    let at: usize = bucket[k];
                    if rank(self.streets[at].name.as_str(), name) == Rank::Same {
                        return Some(at);
                    }
                    k += 1;
                }
                assert forall|i: int| 0 <= i < self@.len() implies (#[trigger] self@[i]).name
                    != name@ by {
                    if self@[i].name == name@ {
                        assert(self.index@[i] == h);
                    }
                }
                None
            },
        }
    }

    /// The street named `name`, if there is one.
    pub fn get_street(&self, name: &str) -> (street: Option<&Street>)
        requires
            self.wf(),
        ensures
            match street {
                Some(s) => s@.name == name@ && self@.contains(s@),
                None => !declares(self@, name@),
            },
    {
        match self.find(name) {
            Some(at) => {
                Some(&self.streets[at])
            },
            None => None,
        }
    }

    /// Adds `street`, unless a street of its name is there already: then
    /// nothing changes and the answer is `false`.
    pub fn add_street(&mut self, street: Street) -> (added: bool)
        requires
            old(self).wf(),
        ensures
            final(self).wf(),
            added == !declares(old(self)@, street@.name),
            final(self)@ == if added {
                old(self)@.push(street@)
            } else {
                old(self)@
            },
    {
        if self.find(street.name.as_str()).is_some() {
            return false;
        }
        let h = hash_name(street.name.as_str());
        let at = self.streets.len();
        self.index.add(h, at);
        self.streets.push(street);
        proof {
            assert forall|i: int, j: int|
                0 <= i < j < self@.len() implies (#[trigger] self@[i]).name
                != (#[trigger] self@[j]).name by {
                assert(self@[i] == old(self)@[i]);
                if j < old(self)@.len() {
                    assert(self@[j] == old(self)@[j]);
                }
            }
        }
        true
    }

    /// The names of the streets that lead to the intersection `id`, in the
    /// order in which the streets were added.
    pub fn streets_incoming_to(&self, id: usize) -> (names: Vec<String>)
        ensures
            names@.map_values(|name: String| name@) == incoming(self@, id),
    {
        let mut names: Vec<String> = Vec::new();
        let mut k: usize = 0;
        while k < self.streets.len()
            invariant
                k <= self.streets.len(),
                self@.len() == self.streets@.len(),
                names@.map_values(|name: String| name@) == incoming(self@.take(k as int), id),
            decreases self.streets.len() - k,
        {
            proof {
                let next = self@.take(k + 1);
                assert(next.drop_last() == self@.take(k as int));
            }
            if self.streets[k].to == id {
                let name = self.streets[k].name.clone();
                names.push(name);
            }
            k += 1;
        }
        assert(self@.take(k as int) == self@);
        names
    }

    /// Sets the visit count of the street at position `at`.
    pub fn set_visits(&mut self, at: usize, visits: usize)
        requires
            old(self).wf(),
            at < old(self)@.len(),
        ensures
            final(self).wf(),
            final(self)@ == with_visits(old(self)@, at as int, visits),
    {
        self.streets[at].visits = visits;
        proof {
            assert forall|i: int, j: int|
                0 <= i < j < self@.len() implies (#[trigger] self@[i]).name
                != (#[trigger] self@[j]).name by {
                assert(self@[i].name == old(self)@[i].name);
                assert(self@[j].name == old(self)@[j].name);
            }
        }
    }
}

} // verus!
