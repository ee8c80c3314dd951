//! The usage counter: how often the paths visit each street.

use crate::demand::{lemma_visits_bound, steps, uses, visits, Demand};
use crate::network::{declares, Network};
use crate::street::StreetView;
use vstd::prelude::*;

verus! {

/// Every street that a path of `paths` goes through is one of `streets`,
/// and the paths have no more steps than a `usize` counts.
pub open spec fn consistent(streets: Seq<StreetView>, paths: Seq<Seq<Seq<char>>>) -> bool {
    &&& forall|p: int, t: int|
        0 <= p < paths.len() && 0 <= t < paths[p].len() ==> declares(
            streets,
            #[trigger] paths[p][t],
        )
    &&& steps(paths) <= usize::MAX
}

/// `streets` with the visit count of each street set to the number of times
/// that the paths of `paths` go through it.
pub open spec fn counted(streets: Seq<StreetView>, paths: Seq<Seq<Seq<char>>>) -> Seq<StreetView> {
    Seq::new(
        streets.len(),
        |i: int| StreetView { visits: visits(paths, streets[i].name) as usize, ..streets[i] },
    )
}

/// `streets` with the visit count of each street set to the number of times
/// that the paths of `paths` and then `path` go through it.
spec fn tallied(
    streets: Seq<StreetView>,
    paths: Seq<Seq<Seq<char>>>,
    path: Seq<Seq<char>>,
) -> Seq<StreetView> {
    Seq::new(
        streets.len(),
        |i: int|
            StreetView {
                visits: (visits(paths, streets[i].name) + uses(path, streets[i].name)) as usize,
                ..streets[i]
            },
    )
}

/// The first `k` steps of a path use no street more often than the whole
/// path does.
pub proof fn lemma_uses_prefix(path: Seq<Seq<char>>, k: int, name: Seq<char>)
    requires
        0 <= k <= path.len(),
    ensures
        uses(path.take(k), name) <= uses(path, name),
    decreases path.len(),
{
    if k < path.len() {
        lemma_uses_prefix(path.drop_last(), k, name);
        assert(path.drop_last().take(k) == path.take(k));
    } else {
        assert(path.take(k) == path);
    }
}

/// The first `k` paths have no more steps than all of them.
pub proof fn lemma_steps_prefix(paths: Seq<Seq<Seq<char>>>, k: int)
    requires
        0 <= k <= paths.len(),
    ensures
        steps(paths.take(k)) <= steps(paths),
    decreases paths.len(),
{
    if k < paths.len() {
        lemma_steps_prefix(paths.drop_last(), k);
        assert(paths.drop_last().take(k) == paths.take(k));
    } else {
        assert(paths.take(k) == paths);
    }
}

/// Whether every street on the paths of `demand` is a street of `network`,
/// and the paths have no more steps than a `usize` counts.
pub fn is_consistent(network: &Network, demand: &Demand) -> (ok: bool)
    requires
        network.wf(),
    ensures
        ok == consistent(network@, demand@),
{
    let mut total: usize = 0;
    let mut p: usize = 0;
    while p < demand.len()
        invariant
            network.wf(),
            p <= demand@.len(),
            total == steps(demand@.take(p as int)),
            forall|q: int, t: int|
                0 <= q < p && 0 <= t < demand@[q].len() ==> declares(
                    network@,
                    #[trigger] demand@[q][t],
                ),
        decreases demand@.len() - p,
    {
        let path = demand.path(p);
        proof {
            let next = demand@.take(p + 1);
            assert(next.drop_last() == demand@.take(p as int));
            lemma_steps_prefix(demand@, p + 1);
        }
        total = match total.checked_add(path.len()) {
            Some(sum) => sum,
            None => {
                return false;
            },
        };
        let mut t: usize = 0;
        while t < path.len()
            invariant
                network.wf(),
                p < demand@.len(),
                path@ == demand@[p as int],
                t <= path@.len(),
                path@.len() == path.streets@.len(),
                forall|u: int| 0 <= u < t ==> declares(network@, #[trigger] path@[u]),
            decreases path@.len() - t,
        {
            if network.find(path.streets[t].as_str()).is_none() {
                assert(!declares(network@, demand@[p as int][t as int]));
                return false;
            }
            t += 1;
        }
        p += 1;
    }
    assert(demand@.take(p as int) == demand@);
    true
}

/// Counts, for every street of `network`, how often the paths of `demand`
/// go through it, and stores the count with the street.
pub fn count_visits(network: &mut Network, demand: &Demand)
    requires
        old(network).wf(),
        consistent(old(network)@, demand@),
    ensures
        final(network).wf(),
        final(network)@ == counted(old(network)@, demand@),
        forall|i: int|
            0 <= i < final(network)@.len() ==> (#[trigger] final(network)@[i]).visits == visits(
                demand@,
                final(network)@[i].name,
            ),
{
    let ghost start = network@;
    let n = network.len();
    let mut i: usize = 0;
    while i < n
        invariant
            network.wf(),
            i <= n,
            n == start.len(),
            network@.len() == n,
            forall|k: int|
                0 <= k < i ==> #[trigger] network@[k] == (StreetView { visits: 0, ..start[k] }),
            forall|k: int| i <= k < n ==> #[trigger] network@[k] == start[k],
        decreases n - i,
    {
        network.set_visits(i, 0);
        i += 1;
    }
    let mut p: usize = 0;
    while p < demand.len()
        invariant
            network.wf(),
            p <= demand@.len(),
            consistent(start, demand@),
            network@ == counted(start, demand@.take(p as int)),
        decreases demand@.len() - p,
    {
        let path = demand.path(p);
        let ghost before = demand@.take(p as int);
        let mut t: usize = 0;
        while t < path.len()
            invariant
                network.wf(),
                p < demand@.len(),
                t <= path@.len(),
                path@.len() == path.streets@.len(),
                path@ == demand@[p as int],
                before == demand@.take(p as int),
                consistent(start, demand@),
                network@ == tallied(start, before, path@.take(t as int)),
            decreases path@.len() - t,
        {
            let ghost name = path@[t as int];
            let ghost held = network@;
            proof {
                let i = choose|i: int| 0 <= i < start.len() && (#[trigger] start[i]).name == name;
                assert(held[i].name == name);
            }
            match network.find(path.streets[t].as_str()) {
                Some(at) => {
                    let seen: usize = network.street(at).visits;
                    proof {
                        let next = demand@.take(p + 1);
                        assert(next.drop_last() == before);
                        let part = path@.take(t + 1);
                        assert(part.drop_last() == path@.take(t as int));
                        lemma_uses_prefix(path@, t + 1, name);
                        lemma_visits_bound(next, name);
                        lemma_steps_prefix(demand@, p + 1);
                    }
                    network.set_visits(at, seen + 1);
                },
                None => {
                    assert(false);
                },
            }
            t += 1;
        }
        proof {
            let next = demand@.take(p + 1);
            assert(next.drop_last() == before);
            assert(path@.take(t as int) == path@);
        }
        p += 1;
    }
    assert(demand@.take(p as int) == demand@);
    assert forall|i: int| 0 <= i < network@.len() implies (#[trigger] network@[i]).visits == visits(
        demand@,
        network@[i].name,
    ) by {
        lemma_visits_bound(demand@, start[i].name);
    }
}

} // verus!
