//! Signal schedules: one entry for each intersection, and their text form.

use crate::text::{decimal, push_char, push_decimal};
use vstd::prelude::*;
use vstd::string::StringExecFns;

verus! {

/// The schedule of one intersection: its incoming streets that vehicles
/// use, each with its place in the green-light cycle.
#[derive(Debug)]
pub struct Intersection {
    pub id: usize,
    pub incoming: Vec<(String, usize)>,
}

/// What a schedule entry is, with names as sequences of characters.
pub ghost struct IntersectionView {
    pub id: usize,
    pub incoming: Seq<(Seq<char>, usize)>,
}

/// The views of the items in `items`, one by one.
pub open spec fn item_views(items: Seq<(String, usize)>) -> Seq<(Seq<char>, usize)> {
    items.map_values(|item: (String, usize)| (item.0@, item.1))
}

impl View for Intersection {
    type V = IntersectionView;

    open spec fn view(&self) -> IntersectionView {
        IntersectionView { id: self.id, incoming: item_views(self.incoming@) }
    }
}

/// The lines for `items`: for each, a line feed, the name, a blank and the
/// place.
pub open spec fn items_text(items: Seq<(Seq<char>, usize)>) -> Seq<char>
    decreases items.len(),
{
    if items.len() == 0 {
        Seq::empty()
    } else {
        items_text(items.drop_last()) + seq!['\n'] + items.last().0 + seq![' '] + decimal(
            items.last().1 as nat,
        )
    }
}

/// The text of one entry: the intersection's id, on the next line the
/// number of its streets, then a line for each street.
pub open spec fn entry_text(entry: IntersectionView) -> Seq<char> {
    decimal(entry.id as nat) + seq!['\n'] + decimal(entry.incoming.len()) + items_text(
        entry.incoming,
    )
}

/// The text of `entries`: for each, a line feed and its text.
pub open spec fn entries_text(entries: Seq<IntersectionView>) -> Seq<char>
    decreases entries.len(),
{
    if entries.len() == 0 {
        Seq::empty()
    } else {
        entries_text(entries.drop_last()) + seq!['\n'] + entry_text(entries.last())
    }
}

/// The text of a whole schedule: the number of entries, then the entries.
pub open spec fn solution_text(entries: Seq<IntersectionView>) -> Seq<char> {
    decimal(entries.len()) + entries_text(entries)
}

/// The ids of `entries` go strictly up.
pub open spec fn ascending(entries: Seq<IntersectionView>) -> bool {
    forall|i: int, j: int|
        0 <= i < j < entries.len() ==> (#[trigger] entries[i]).id < (#[trigger] entries[j]).id
}

/// An entry of `entries` is for the intersection `id`.
pub open spec fn schedules(entries: Seq<IntersectionView>, id: usize) -> bool {
    exists|i: int| 0 <= i < entries.len() && (#[trigger] entries[i]).id == id
}

/// The number of entries of `entries` whose id is below `id`.
pub open spec fn slot_of(entries: Seq<IntersectionView>, id: usize) -> int
    decreases entries.len(),
{
    if entries.len() == 0 {
        0
    } else if entries.last().id < id {
        slot_of(entries.drop_last(), id) + 1
    } else {
        slot_of(entries.drop_last(), id)
    }
}

/// `entries` with `entry` put in: after the entries with a smaller id.
/// Nothing changes when `entries` has an entry for the same intersection.
pub open spec fn with_entry(
    entries: Seq<IntersectionView>,
    entry: IntersectionView,
) -> Seq<IntersectionView> {
    if schedules(entries, entry.id) {
        entries
    } else {
        entries.insert(slot_of(entries, entry.id), entry)
    }
}

/// The position that cuts `entries` into the ids below `id` and the others
/// is the number of ids below `id`.
pub proof fn lemma_slot_of(entries: Seq<IntersectionView>, id: usize, at: int)
    requires
        0 <= at <= entries.len(),
        forall|i: int| 0 <= i < at ==> (#[trigger] entries[i]).id < id,
        forall|i: int| at <= i < entries.len() ==> (#[trigger] entries[i]).id >= id,
    ensures
        slot_of(entries, id) == at,
    decreases entries.len(),
{
    if entries.len() > 0 {
        let rest = entries.drop_last();
        if at == entries.len() {
            lemma_slot_of(rest, id, at - 1);
        } else {
            lemma_slot_of(rest, id, at);
        }
    }
}

/// There are no more ids below `id` than entries.
pub proof fn lemma_slot_bounds(entries: Seq<IntersectionView>, id: usize)
    ensures
        0 <= slot_of(entries, id) <= entries.len(),
    decreases entries.len(),
{
    if entries.len() > 0 {
        lemma_slot_bounds(entries.drop_last(), id);
    }
}

impl Intersection {
    /// The entry for intersection `id` with the streets `incoming`.
    pub fn new(id: usize, incoming: Vec<(String, usize)>) -> (entry: Intersection)
        ensures
            entry.id == id,
            entry.incoming == incoming,
    {
        Intersection { id, incoming }
    }

    /// Appends the text of the entry to `out`.
    pub fn write_to(&self, out: &mut String)
        ensures
            final(out)@ == old(out)@ + entry_text(self@),
    {
        push_decimal(out, self.id);
        push_char(out, '\n');
        push_decimal(out, self.incoming.len());
        let ghost head = out@;
        let mut k: usize = 0;
        while k < self.incoming.len()
            invariant
                k <= self.incoming.len(),
                out@ == head + items_text(self@.incoming.take(k as int)),
            decreases self.incoming.len() - k,
        {
            proof {
                let next = self@.incoming.take(k + 1);
                assert(next.drop_last() == self@.incoming.take(k as int));
            }
            push_char(out, '\n');
            out.append(self.incoming[k].0.as_str());
            push_char(out, ' ');
            push_decimal(out, self.incoming[k].1);
            k += 1;
        }
        assert(self@.incoming.take(k as int) == self@.incoming);
    }

    /// The text of the entry.
    pub fn to_string(&self) -> (text: String)
        ensures
            text@ == entry_text(self@),
    {
        let mut text = String::new();
        self.write_to(&mut text);
        text
    }
}

/// A signal schedule: at most one entry for an intersection, the entries in
/// the order of their ids.
#[derive(Debug)]
pub struct Solution {
    intersections: Vec<Intersection>,
}

/// The views of the entries in `entries`, one by one.
pub open spec fn entry_views(entries: Seq<Intersection>) -> Seq<IntersectionView> {
    entries.map_values(|e: Intersection| e@)
}

impl View for Solution {
    type V = Seq<IntersectionView>;

    closed spec fn view(&self) -> Seq<IntersectionView> {
        entry_views(self.intersections@)
    }
}

impl Solution {
    /// What holds of every schedule: the ids of its entries go strictly up.
    pub open spec fn wf(&self) -> bool {
        ascending(self@)
    }

    /// The schedule without entries.
    pub fn new() -> (solution: Solution)
        ensures
            solution.wf(),
            solution@ == Seq::<IntersectionView>::empty(),
    {
        Solution { intersections: Vec::new() }
    }

    /// The number of entries.
    pub fn len(&self) -> (n: usize)
        ensures
            n == self@.len(),
    {
        self.intersections.len()
    }

    /// The entry at position `at`.
    pub fn entry(&self, at: usize) -> (entry: &Intersection)
        requires
            at < self@.len(),
        ensures
            entry@ == self@[at as int],
    {
        &self.intersections[at]
    }

    /// The number of entries whose id is below `id`.
    fn slot(&self, id: usize) -> (at: usize)
        requires
            self.wf(),
        ensures
            at <= self@.len(),
            forall|i: int| 0 <= i < at ==> (#[trigger] self@[i]).id < id,
            forall|i: int| at <= i < self@.len() ==> (#[trigger] self@[i]).id >= id,
    {
        let mut low: usize = 0;
        let mut high: usize = self.intersections.len();
        while low < high
            invariant
                low <= high <= self@.len(),
                self@.len() == self.intersections@.len(),
                ascending(self@),
                forall|i: int| 0 <= i < low ==> (#[trigger] self@[i]).id < id,
                forall|i: int| high <= i < self@.len() ==> (#[trigger] self@[i]).id >= id,
            decreases high - low,
        {
            let mid: usize = low + (high - low) / 2;
            assert(self@[mid as int].id == self.intersections@[mid as int].id);
            if self.intersections[mid].id < id {
                low = mid + 1;
            } else {
                high = mid;
            }
        }
        low
    }

    /// The entry for the intersection `id`, if there is one.
    pub fn get(&self, id: usize) -> (entry: Option<&Intersection>)
        requires
            self.wf(),
        ensures
            match entry {
                Some(e) => e.id == id && self@.contains(e@),
                None => !schedules(self@, id),
            },
    {
        let at = self.slot(id);
        if at < self.intersections.len() && self.intersections[at].id == id {
            Some(&self.intersections[at])
        } else {
            assert forall|i: int| 0 <= i < self@.len() implies (#[trigger] self@[i]).id != id by {
                if i > at {
                    assert(self@[at as int].id < self@[i].id);
                }
            }
            None
        }
    }

    /// Puts `entry` in its place among the entries. When the schedule has
    /// an entry for the same intersection already, nothing changes.
    pub fn insert(&mut self, entry: Intersection)
        requires
            old(self).wf(),
        ensures
            final(self).wf(),
            final(self)@ == with_entry(old(self)@, entry@),
    {
        let at = self.slot(entry.id);
        if at < self.intersections.len() && self.intersections[at].id == entry.id {
            assert(self@[at as int].id == entry.id);
            return ;
        }
        assert forall|i: int| 0 <= i < self@.len() implies (#[trigger] self@[i]).id != entry.id by {
            if i > at {
                assert(self@[at as int].id < self@[i].id);
            }
        }
        let ghost before = self@;
        let ghost shown = entry@;
        self.intersections.insert(at, entry);
        proof {
            assert(self@ =~= before.insert(at as int, shown));
            lemma_slot_of(before, shown.id, at as int);
        }
    }

    /// The text of the schedule.
    pub fn to_string(&self) -> (text: String)
        ensures
            text@ == solution_text(self@),
    {
        let mut text = String::new();
        push_decimal(&mut text, self.intersections.len());
        let ghost head = text@;
        let mut k: usize = 0;
        while k < self.intersections.len()
            invariant
                k <= self.intersections.len(),
                self@.len() == self.intersections@.len(),
                head == decimal(self@.len()),
                text@ == head + entries_text(self@.take(k as int)),
            decreases self.intersections.len() - k,
        {
            proof {
                let next = self@.take(k + 1);
                assert(next.drop_last() == self@.take(k as int));
            }
            push_char(&mut text, '\n');
            self.intersections[k].write_to(&mut text);
            k += 1;
        }
        assert(self@.take(k as int) == self@);
        text
    }
}

} // verus!
