//! The schedule builder: from visit counts to green-light cycles.
//!
//! Every intersection that a used street leads to gets one entry. The entry
//! lists the used streets that lead there, the least visited first, and
//! numbers them from one.

use crate::name::lemma_name_lt_asymmetric;
use crate::network::{distinct_names, Network};
use crate::ranking::{goes_before, lemma_street_lt_total, ranking, ranks_all, street_lt};
use crate::solution::{
    ascending,
    item_views,
    lemma_slot_bounds,
    schedules,
    slot_of,
    Intersection,
    IntersectionView,
    Solution,
};
use crate::street::StreetView;
use vstd::prelude::*;
use vstd::set_lib::{lemma_int_range, lemma_len_subset, set_int_range};

verus! {

/// `street` leads to the intersection `id` and some path uses it.
pub open spec fn feeds(street: StreetView, id: usize) -> bool {
    street.to == id && street.visits > 0
}

/// Some used street of `streets` leads to the intersection `id`.
pub open spec fn reached(streets: Seq<StreetView>, id: usize) -> bool {
    exists|i: int| 0 <= i < streets.len() && feeds(#[trigger] streets[i], id)
}

/// `order` is the green-light cycle of the intersection `id`: it holds the
/// positions of the used streets that lead there, each of them, and each
/// after those that go before it.
pub open spec fn ranks(streets: Seq<StreetView>, id: usize, order: Seq<int>) -> bool {
    &&& forall|k: int|
        0 <= k < order.len() ==> 0 <= #[trigger] order[k] < streets.len() && feeds(
            streets[order[k]],
            id,
        )
    &&& forall|j: int, k: int|
        0 <= j < k < order.len() ==> goes_before(
            streets[#[trigger] order[j]],
            streets[#[trigger] order[k]],
        )
    &&& forall|i: int|
        0 <= i < streets.len() && feeds(#[trigger] streets[i], id) ==> order.contains(i)
}

/// The streets at the positions `order` by name, numbered from one.
pub open spec fn cycle(streets: Seq<StreetView>, order: Seq<int>) -> Seq<(Seq<char>, usize)> {
    Seq::new(order.len(), |k: int| (streets[order[k]].name, (k + 1) as usize))
}

/// `entry` is what the intersection `entry.id` is owed: it is reached, and
/// its streets are its green-light cycle.
pub open spec fn is_entry(streets: Seq<StreetView>, entry: IntersectionView) -> bool {
    exists|order: Seq<int>|
        order.len() > 0 && #[trigger] ranks(streets, entry.id, order) && entry.incoming == cycle(
            streets,
            order,
        )
}

/// `entries` is the schedule for `streets`: one entry for each intersection
/// that is reached, none for any other, in the order of their ids.
pub open spec fn is_schedule(streets: Seq<StreetView>, entries: Seq<IntersectionView>) -> bool {
    &&& ascending(entries)
    &&& forall|e: int| 0 <= e < entries.len() ==> is_entry(streets, #[trigger] entries[e])
    &&& forall|i: int|
        0 <= i < streets.len() && (#[trigger] streets[i]).visits > 0 ==> schedules(
            entries,
            streets[i].to,
        )
}

/// The positions of the used streets of `streets` that lead to the
/// intersection `id`.
pub open spec fn feeders(streets: Seq<StreetView>, id: usize) -> Set<int> {
    Set::new(|i: int| 0 <= i < streets.len() && feeds(streets[i], id))
}

/// The street of `streets` that is named `name`.
pub open spec fn named(streets: Seq<StreetView>, name: Seq<char>) -> StreetView {
    streets[choose|i: int| 0 <= i < streets.len() && (#[trigger] streets[i]).name == name]
}

/// The places of `entry` are 1, 2, 3 and so on, in this order.
pub open spec fn numbered(entry: IntersectionView) -> bool {
    forall|k: int| 0 <= k < entry.incoming.len() ==> (#[trigger] entry.incoming[k]).1 == k + 1
}

/// Of two streets of `entry`, the one with the earlier place is visited no
/// more often than the other.
pub open spec fn rising(streets: Seq<StreetView>, entry: IntersectionView) -> bool {
    forall|a: int, b: int|
        0 <= a < entry.incoming.len() && 0 <= b < entry.incoming.len() && (
        #[trigger] entry.incoming[a]).1 < (#[trigger] entry.incoming[b]).1 ==> named(
            streets,
            entry.incoming[a].0,
        ).visits <= named(streets, entry.incoming[b].0).visits
}

/// A green-light cycle names no street twice and is no longer than the
/// list of streets.
proof fn lemma_ranks_distinct(streets: Seq<StreetView>, id: usize, order: Seq<int>)
    requires
        ranks(streets, id, order),
    ensures
        order.no_duplicates(),
        order.to_set() == feeders(streets, id),
        order.len() == feeders(streets, id).len(),
        order.len() <= streets.len(),
{
    assert forall|j: int, k: int| 0 <= j < k < order.len() implies order[j] != order[k] by {
        if order[j] == order[k] {
            let x = streets[order[j]];
            lemma_name_lt_asymmetric(x.name, x.name);
        }
    }
    order.unique_seq_to_set();
    lemma_int_range(0, streets.len() as int);
    lemma_len_subset(order.to_set(), set_int_range(0, streets.len() as int));
}

/// The places of a schedule entry are exactly 1 to K, in this order, where
/// K is the number of used streets that lead to its intersection; and K is
/// not zero.
pub proof fn lemma_entry_places(streets: Seq<StreetView>, entry: IntersectionView)
    requires
        streets.len() <= usize::MAX,
        is_entry(streets, entry),
    ensures
        entry.incoming.len() == feeders(streets, entry.id).len(),
        entry.incoming.len() > 0,
        numbered(entry),
{
    let order = choose|order: Seq<int>|
        order.len() > 0 && #[trigger] ranks(streets, entry.id, order) && entry.incoming == cycle(
            streets,
            order,
        );
    lemma_ranks_distinct(streets, entry.id, order);
}

/// In a schedule entry a street with an earlier place is visited no more
/// often than one with a later place.
pub proof fn lemma_entry_rising(streets: Seq<StreetView>, entry: IntersectionView)
    requires
        streets.len() <= usize::MAX,
        distinct_names(streets),
        is_entry(streets, entry),
    ensures
        rising(streets, entry),
{
    let order = choose|order: Seq<int>|
        order.len() > 0 && #[trigger] ranks(streets, entry.id, order) && entry.incoming == cycle(
            streets,
            order,
        );
    lemma_ranks_distinct(streets, entry.id, order);
    assert forall|k: int| 0 <= k < order.len() implies named(
        streets,
        (#[trigger] entry.incoming[k]).0,
    ) == streets[order[k]] by {
        let name = entry.incoming[k].0;
        let i = choose|i: int| 0 <= i < streets.len() && (#[trigger] streets[i]).name == name;
        assert(streets[order[k]].name == name);
        if i < order[k] {
            assert(streets[i].name != streets[order[k]].name);
        } else if order[k] < i {
            assert(streets[order[k]].name != streets[i].name);
        }
    }
    assert forall|a: int, b: int|
        0 <= a < entry.incoming.len() && 0 <= b < entry.incoming.len() && (
        #[trigger] entry.incoming[a]).1 < (#[trigger] entry.incoming[b]).1 implies named(
        streets,
        entry.incoming[a].0,
    ).visits <= named(streets, entry.incoming[b].0).visits by {
        assert(goes_before(streets[order[a]], streets[order[b]]));
    }
}

/// A schedule has an entry for an intersection if and only if a used
/// street leads to it.
pub proof fn lemma_schedule_reaches(
    streets: Seq<StreetView>,
    entries: Seq<IntersectionView>,
    id: usize,
)
    requires
        is_schedule(streets, entries),
    ensures
        schedules(entries, id) <==> reached(streets, id),
{
    if schedules(entries, id) {
        let e = choose|e: int| 0 <= e < entries.len() && (#[trigger] entries[e]).id == id;
        let order = choose|order: Seq<int>|
            order.len() > 0 && #[trigger] ranks(streets, entries[e].id, order)
                && entries[e].incoming == cycle(streets, order);
        assert(feeds(streets[order[0]], id));
    }
    if reached(streets, id) {
        let i = choose|i: int| 0 <= i < streets.len() && feeds(#[trigger] streets[i], id);
        assert(schedules(entries, streets[i].to));
    }
}

/// Two lists that hold the same values, each list in strictly rising order
/// by `lt`, are the same list. Of `lt` only this is asked: that of two
/// values at most one is below the other.
proof fn lemma_rising_lists_agree(first: Seq<int>, second: Seq<int>, lt: spec_fn(int, int) -> bool)
    requires
        forall|j: int, k: int|
            0 <= j < k < first.len() ==> lt(#[trigger] first[j], #[trigger] first[k]),
        forall|j: int, k: int|
            0 <= j < k < second.len() ==> lt(#[trigger] second[j], #[trigger] second[k]),
        forall|x: int| first.contains(x) <==> second.contains(x),
        forall|x: int, y: int| !(#[trigger] lt(x, y) && lt(y, x)),
    ensures
        first == second,
    decreases first.len(),
{
    if first.len() == 0 {
        if second.len() > 0 {
            assert(second.contains(second[0]));
        }
        assert(first =~= second);
    } else {
        let x = first.last();
        assert(first.contains(x));
        let q = choose|q: int| 0 <= q < second.len() && second[q] == x;
        let y = second.last();
        assert(second.contains(y));
        let p = choose|p: int| 0 <= p < first.len() && first[p] == y;
        if q < second.len() - 1 {
            if p < first.len() - 1 {
                assert(lt(first[p], first[first.len() - 1]));
            }
        }
        let a = first.drop_last();
        let b = second.drop_last();
        assert forall|v: int| a.contains(v) <==> b.contains(v) by {
            if a.contains(v) {
                let i = choose|i: int| 0 <= i < a.len() && a[i] == v;
                assert(first.contains(v));
                let j = choose|j: int| 0 <= j < second.len() && second[j] == v;
                if j == second.len() - 1 {
                    assert(lt(x, x));
                }
                assert(b[j] == v);
            }
            if b.contains(v) {
                let i = choose|i: int| 0 <= i < b.len() && b[i] == v;
                assert(lt(second[i], second[second.len() - 1]));
                assert(second.contains(v));
                let j = choose|j: int| 0 <= j < first.len() && first[j] == v;
                if j == first.len() - 1 {
                    assert(lt(x, x));
                }
                assert(a[j] == v);
            }
        }
        assert forall|j: int, k: int| 0 <= j < k < a.len() implies lt(
            #[trigger] a[j],
            #[trigger] a[k],
        ) by {
            assert(a[j] == first[j] && a[k] == first[k]);
        }
        assert forall|j: int, k: int| 0 <= j < k < b.len() implies lt(
            #[trigger] b[j],
            #[trigger] b[k],
        ) by {
            assert(b[j] == second[j] && b[k] == second[k]);
        }
        lemma_rising_lists_agree(a, b, lt);
        assert(second =~= b.push(y));
    }
}

/// An intersection has one green-light cycle only.
pub proof fn lemma_ranks_unique(
    streets: Seq<StreetView>,
    id: usize,
    first: Seq<int>,
    second: Seq<int>,
)
    requires
        ranks(streets, id, first),
        ranks(streets, id, second),
    ensures
        first == second,
{
    let lt = |x: int, y: int| goes_before(streets[x], streets[y]);
    assert forall|x: int, y: int| !(#[trigger] lt(x, y) && lt(y, x)) by {
        if lt(x, y) && lt(y, x) {
            lemma_name_lt_asymmetric(streets[x].name, streets[y].name);
        }
    }
    assert forall|x: int| first.contains(x) <==> second.contains(x) by {
        if first.contains(x) {
            let k = choose|k: int| 0 <= k < first.len() && first[k] == x;
            assert(feeds(streets[first[k]], id));
        }
        if second.contains(x) {
            let k = choose|k: int| 0 <= k < second.len() && second[k] == x;
            assert(feeds(streets[second[k]], id));
        }
    }
    lemma_rising_lists_agree(first, second, lt);
}

/// The streets have one schedule only: what `is_schedule` says of a
/// schedule says all of it.
pub proof fn lemma_schedule_unique(
    streets: Seq<StreetView>,
    first: Seq<IntersectionView>,
    second: Seq<IntersectionView>,
)
    requires
        is_schedule(streets, first),
        is_schedule(streets, second),
    ensures
        first == second,
{
    let ids_a = first.map_values(|e: IntersectionView| e.id as int);
    let ids_b = second.map_values(|e: IntersectionView| e.id as int);
    let lt = |x: int, y: int| x < y;
    assert forall|x: int| ids_a.contains(x) <==> ids_b.contains(x) by {
        if ids_a.contains(x) {
            let k = choose|k: int| 0 <= k < ids_a.len() && ids_a[k] == x;
            lemma_schedule_reaches(streets, first, first[k].id);
            lemma_schedule_reaches(streets, second, first[k].id);
            let j = choose|j: int|
                0 <= j < second.len() && (#[trigger] second[j]).id == first[k].id;
            assert(ids_b[j] == x);
        }
        if ids_b.contains(x) {
            let k = choose|k: int| 0 <= k < ids_b.len() && ids_b[k] == x;
            lemma_schedule_reaches(streets, second, second[k].id);
            lemma_schedule_reaches(streets, first, second[k].id);
            let j = choose|j: int| 0 <= j < first.len() && (#[trigger] first[j]).id == second[k].id;
            assert(ids_a[j] == x);
        }
    }
    assert forall|j: int, k: int| 0 <= j < k < ids_a.len() implies lt(
        #[trigger] ids_a[j],
        #[trigger] ids_a[k],
    ) by {
        assert(first[j].id < first[k].id);
    }
    assert forall|j: int, k: int| 0 <= j < k < ids_b.len() implies lt(
        #[trigger] ids_b[j],
        #[trigger] ids_b[k],
    ) by {
        assert(second[j].id < second[k].id);
    }
    lemma_rising_lists_agree(ids_a, ids_b, lt);
    assert forall|e: int| 0 <= e < first.len() implies first[e] == second[e] by {
        assert(ids_a[e] == ids_b[e]);
        let a = choose|order: Seq<int>|
            order.len() > 0 && #[trigger] ranks(streets, first[e].id, order) && first[e].incoming
                == cycle(streets, order);
        let b = choose|order: Seq<int>|
            order.len() > 0 && #[trigger] ranks(streets, second[e].id, order)
                && second[e].incoming == cycle(streets, order);
        lemma_ranks_unique(streets, first[e].id, a, b);
    }
}

/// What `gather` found from position `start` of `order` up to `end`: the
/// used streets among them, as `group`.
spec fn gathered(
    streets: Seq<StreetView>,
    order: Seq<usize>,
    start: int,
    end: int,
    group: Seq<int>,
) -> bool {
    let id = streets[order[start] as int].to;
    &&& group.len() <= end - start
    &&& forall|g: int|
        0 <= g < group.len() ==> 0 <= #[trigger] group[g] < streets.len() && feeds(
            streets[group[g]],
            id,
        )
    &&& forall|a: int, b: int|
        0 <= a < b < group.len() ==> goes_before(
            streets[#[trigger] group[a]],
            streets[#[trigger] group[b]],
        )
    &&& forall|p: int|
        start <= p < end && streets[(#[trigger] order[p]) as int].visits > 0 ==> group.contains(
            order[p] as int,
        )
}

/// Reads `order` from position `start` on, as far as the streets lead to
/// the same intersection, and lists those that are used, numbered from one.
/// Gives the list and the position where it stopped.
fn gather(network: &Network, order: &Vec<usize>, start: usize) -> (found: (
    Vec<(String, usize)>,
    usize,
    Ghost<Seq<int>>,
))
    requires
        network.wf(),
        ranks_all(network@, order@),
        start < order.len(),
    ensures
        start < found.1 <= order.len(),
        forall|p: int|
            start <= p < found.1 ==> network@[(#[trigger] order@[p]) as int].to
                == network@[order@[start as int] as int].to,
        found.1 < order.len() ==> network@[order@[found.1 as int] as int].to
            != network@[order@[start as int] as int].to,
        gathered(network@, order@, start as int, found.1 as int, found.2@),
        item_views(found.0@) == cycle(network@, found.2@),
{
    let ghost streets = network@;
    let n = order.len();
    let id: usize = network.street(order[start]).to;
    let mut items: Vec<(String, usize)> = Vec::new();
    let ghost mut group: Seq<int> = Seq::empty();
    let ghost mut from: Seq<int> = Seq::empty();
    let mut k: usize = start;
    while k < n && network.street(order[k]).to == id
        invariant
            streets == network@,
            n == order.len(),
            network.wf(),
            ranks_all(streets, order@),
            start <= k <= n,
            start < n,
            id == streets[order@[start as int] as int].to,
            k == start ==> streets[order@[k as int] as int].to == id,
            forall|p: int| start <= p < k ==> streets[(#[trigger] order@[p]) as int].to == id,
            gathered(streets, order@, start as int, k as int, group),
            items.len() == group.len(),
            item_views(items@) == cycle(streets, group),
            from.len() == group.len(),
            forall|g: int|
                0 <= g < group.len() ==> start <= #[trigger] from[g] < k && group[g]
                    == order@[from[g]],
        decreases n - k,
    {
        let at: usize = order[k];
        let street = network.street(at);
        if street.visits > 0 {
            proof {
                assert forall|a: int| 0 <= a < group.len() implies goes_before(
                    streets[#[trigger] group[a]],
                    streets[at as int],
                ) by {
                    let p = from[a];
                    lemma_street_lt_total(streets[group[a]], streets[at as int]);
                }
            }
            let ghost items_before = items@;
            let ghost group_before = group;
            let name = street.name.clone();
            let place: usize = items.len() + 1;
            items.push((name, place));
            proof {
                group = group.push(at as int);
                from = from.push(k as int);
                assert forall|j: int| 0 <= j < items@.len() implies item_views(items@)[j] == cycle(
                    streets,
                    group,
                )[j] by {
                    if j < items_before.len() {
                        assert(cycle(streets, group)[j] == cycle(streets, group_before)[j]);
                    }
                }
                assert forall|p: int|
                    start <= p < k + 1 && streets[(#[trigger] order@[p]) as int].visits
                        > 0 implies group.contains(order@[p] as int) by {
                    if p < k {
                        let g = choose|g: int|
                            0 <= g < group_before.len() && group_before[g] == order@[p] as int;
                        assert(group[g] == order@[p] as int);
                    } else {
                        assert(group[group_before.len() as int] == order@[p] as int);
                    }
                }
            }
        }
        k += 1;
    }
    (items, k, Ghost(group))
}

/// Builds the schedule for the streets of `network` from their visit
/// counts.
pub fn build(network: &Network) -> (solution: Solution)
    requires
        network.wf(),
    ensures
        solution.wf(),
        is_schedule(network@, solution@),
        forall|id: usize| #[trigger] schedules(solution@, id) <==> reached(network@, id),
        forall|e: int|
            0 <= e < solution@.len() ==> {
                &&& numbered(#[trigger] solution@[e])
                &&& solution@[e].incoming.len() == feeders(network@, solution@[e].id).len()
                &&& rising(network@, solution@[e])
            },
{
    let ghost streets = network@;
    let order = ranking(network);
    let n = order.len();
    let mut solution = Solution::new();
    let mut k: usize = 0;
    while k < n
        invariant
            streets == network@,
            n == order.len(),
            k <= n,
            network.wf(),
            ranks_all(streets, order@),
            solution.wf(),
            forall|e: int| 0 <= e < solution@.len() ==> is_entry(streets, #[trigger] solution@[e]),
            forall|e: int, q: int|
                0 <= e < solution@.len() && k <= q < n ==> (#[trigger] solution@[e]).id
                    < streets[(#[trigger] order@[q]) as int].to,
            forall|p: int|
                0 <= p < k && streets[(#[trigger] order@[p]) as int].visits > 0 ==> schedules(
                    solution@,
                    streets[order@[p] as int].to,
                ),
            forall|p: int, q: int|
                0 <= p < k <= q < n ==> streets[(#[trigger] order@[p]) as int].to
                    < streets[(#[trigger] order@[q]) as int].to,
        decreases n - k,
    {
        let id: usize = network.street(order[k]).to;
        let (items, end, Ghost(group)) = gather(network, &order, k);
        proof {
            assert forall|q: int|
                end <= q < n implies id < streets[(#[trigger] order@[q]) as int].to by {
                if q > end {
                    assert(!street_lt(
                        streets[order@[q] as int],
                        streets[order@[end as int] as int],
                    ));
                }
            }
            assert forall|i: int|
                0 <= i < streets.len() && feeds(#[trigger] streets[i], id) implies group.contains(
                i,
            ) by {
                assert(order@.contains(i as usize));
                let p = choose|p: int| 0 <= p < order@.len() && order@[p] == i as usize;
                if p < k {
                    assert(streets[order@[p] as int].to < streets[order@[k as int] as int].to);
                }
            }
            assert(item_views(items@).len() == group.len());
        }
        if items.len() > 0 {
            let ghost before = solution@;
            let entry = Intersection::new(id, items);
            let ghost shown = entry@;
            proof {
                assert(ranks(streets, shown.id, group));
                assert forall|e: int| 0 <= e < before.len() implies (#[trigger] before[e]).id
                    != id by {
                    assert(before[e].id < streets[order@[k as int] as int].to);
                }
            }
            solution.insert(entry);
            proof {
                let at = slot_of(before, id);
                lemma_slot_bounds(before, id);
                assert forall|e: int| 0 <= e < solution@.len() implies is_entry(
                    streets,
                    #[trigger] solution@[e],
                ) by {
                    if e < at {
                        assert(solution@[e] == before[e]);
                    } else if e > at {
                        assert(solution@[e] == before[e - 1]);
                    }
                }
                assert forall|e: int, q: int|
                    0 <= e < solution@.len() && end <= q < n implies (#[trigger] solution@[e]).id
                    < streets[(#[trigger] order@[q]) as int].to by {
                    if e < at {
                        assert(solution@[e] == before[e]);
                    } else if e > at {
                        assert(solution@[e] == before[e - 1]);
                    }
                }
                assert forall|p: int|
                    0 <= p < end && streets[(#[trigger] order@[p]) as int].visits
                        > 0 implies schedules(solution@, streets[order@[p] as int].to) by {
                    if p < k {
                        let e = choose|e: int|
                            0 <= e < before.len() && (#[trigger] before[e]).id
                                == streets[order@[p] as int].to;
                        if e < at {
                            assert(solution@[e].id == before[e].id);
                        } else {
                            assert(solution@[e + 1] == before[e]);
                        }
                    } else {
                        assert(solution@[at].id == id);
                    }
                }
            }
        } else {
            proof {
                assert forall|p: int|
                    k <= p < end implies streets[(#[trigger] order@[p]) as int].visits == 0 by {
                    if streets[order@[p] as int].visits > 0 {
                        assert(group.contains(order@[p] as int));
                    }
                }
            }
        }
        k = end;
    }
    proof {
        assert forall|i: int|
            0 <= i < streets.len() && (#[trigger] streets[i]).visits > 0 implies schedules(
            solution@,
            streets[i].to,
        ) by {
            assert(order@.contains(i as usize));
            let p = choose|p: int| 0 <= p < order@.len() && order@[p] == i as usize;
            assert(streets[order@[p] as int].visits > 0);
        }
        network.lemma_wf_distinct();
        assert forall|id: usize| #[trigger] schedules(solution@, id) <==> reached(streets, id) by {
            lemma_schedule_reaches(streets, solution@, id);
        }
        assert forall|e: int| 0 <= e < solution@.len() implies {
            &&& numbered(#[trigger] solution@[e])
            &&& solution@[e].incoming.len() == feeders(streets, solution@[e].id).len()
            &&& rising(streets, solution@[e])
        } by {
            lemma_entry_places(streets, solution@[e]);
            lemma_entry_rising(streets, solution@[e]);
        }
    }
    solution
}

} // verus!
