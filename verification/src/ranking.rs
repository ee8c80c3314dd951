//! The order in which streets are scheduled, and a sort by it.
//!
//! Streets are ordered by the intersection they lead to, then by how often
//! they are visited, then by name. Within one intersection this puts the
//! least used street first.

use crate::name::{
    lemma_name_lt_asymmetric,
    lemma_name_lt_total,
    lemma_name_lt_transitive,
    name_lt,
    rank,
    Rank,
};
use crate::network::Network;
use crate::street::{Street, StreetView};
use vstd::prelude::*;
use vstd::seq_lib::{group_to_multiset_ensures, lemma_multiset_commutative};

verus! {

broadcast use {group_to_multiset_ensures, vstd::multiset::group_multiset_axioms};

/// `a` gets its green light before `b` where both lead to the same
/// intersection: it is visited less often, or as often and comes first by
/// name.
pub open spec fn goes_before(a: StreetView, b: StreetView) -> bool {
    a.visits < b.visits || (a.visits == b.visits && name_lt(a.name, b.name))
}

/// `a` comes before `b` in the order of streets: it leads to the
/// intersection with the smaller id, or to the same one and goes before `b`
/// there.
pub open spec fn street_lt(a: StreetView, b: StreetView) -> bool {
    a.to < b.to || (a.to == b.to && goes_before(a, b))
}

/// Of two streets with different names one comes before the other.
pub proof fn lemma_street_lt_total(a: StreetView, b: StreetView)
    ensures
        a.name == b.name || street_lt(a, b) || street_lt(b, a),
{
    lemma_name_lt_total(a.name, b.name);
}

/// The order of streets is transitive.
pub proof fn lemma_street_lt_transitive(a: StreetView, b: StreetView, c: StreetView)
    requires
        street_lt(a, b),
        street_lt(b, c),
    ensures
        street_lt(a, c),
{
    if a.to == b.to && b.to == c.to && a.visits == b.visits && b.visits == c.visits {
        lemma_name_lt_transitive(a.name, b.name, c.name);
    }
}

/// If `b` does not come before `a`, and `c` does not come before `b`, then `c`
/// does not come before `a`.
pub proof fn lemma_street_le_transitive(a: StreetView, b: StreetView, c: StreetView)
    requires
        !street_lt(b, a),
        !street_lt(c, b),
    ensures
        !street_lt(c, a),
{
    if street_lt(c, a) {
        lemma_name_lt_total(b.name, c.name);
        if street_lt(a, b) {
        } else if street_lt(b, c) {
            lemma_street_lt_transitive(b, c, a);
        }
    }
}

/// The positions from `low` up to, but without, `high`.
pub open spec fn span(low: int, high: int) -> Seq<usize> {
    Seq::new((high - low) as nat, |i: int| (low + i) as usize)
}

/// `order` names positions of `streets` only, and never a street before
/// one that comes before it.
pub open spec fn sorted(streets: Seq<StreetView>, order: Seq<usize>) -> bool {
    &&& forall|p: int| 0 <= p < order.len() ==> (#[trigger] order[p]) < streets.len()
    &&& forall|p: int, q: int|
        0 <= p < q < order.len() ==> !street_lt(
            streets[(#[trigger] order[q]) as int],
            streets[(#[trigger] order[p]) as int],
        )
}

/// `order` names every position of `streets` once, and each street after
/// those that come before it.
pub open spec fn ranks_all(streets: Seq<StreetView>, order: Seq<usize>) -> bool {
    &&& order.len() == streets.len()
    &&& sorted(streets, order)
    &&& forall|p: int, q: int|
        0 <= p < q < order.len() ==> #[trigger] order[p] != #[trigger] order[q]
    &&& forall|i: usize| i < streets.len() ==> #[trigger] order.contains(i)
}

/// Decides `street_lt`.
pub fn street_before(a: &Street, b: &Street) -> (before: bool)
    ensures
        before == street_lt(a@, b@),
{
    if a.to != b.to {
        return a.to < b.to;
    }
    if a.visits != b.visits {
        return a.visits < b.visits;
    }
    rank(a.name.as_str(), b.name.as_str()) == Rank::Before
}

/// Merges two sorted lists of positions into one.
fn merge(network: &Network, left: &Vec<usize>, right: &Vec<usize>) -> (out: Vec<usize>)
    requires
        sorted(network@, left@),
        sorted(network@, right@),
    ensures
        sorted(network@, out@),
        out@.to_multiset() == left@.to_multiset().add(right@.to_multiset()),
{
    let ghost streets = network@;
    let mut out: Vec<usize> = Vec::new();
    let mut i: usize = 0;
    let mut j: usize = 0;
    while i < left.len() || j < right.len()
        invariant
            streets == network@,
            i <= left.len(),
            j <= right.len(),
            sorted(streets, left@),
            sorted(streets, right@),
            sorted(streets, out@),
            out@.to_multiset() == left@.take(i as int).to_multiset().add(
                right@.take(j as int).to_multiset(),
            ),
            forall|p: int, a: int|
                0 <= p < out.len() && i <= a < left.len() ==> !street_lt(
                    streets[(#[trigger] left[a]) as int],
                    streets[(#[trigger] out[p]) as int],
                ),
            forall|p: int, b: int|
                0 <= p < out.len() && j <= b < right.len() ==> !street_lt(
                    streets[(#[trigger] right[b]) as int],
                    streets[(#[trigger] out[p]) as int],
                ),
        decreases left.len() - i + right.len() - j,
    {
        let take_left: bool = if i >= left.len() {
            false
        } else if j >= right.len() {
            true
        } else {
            !street_before(network.street(right[j]), network.street(left[i]))
        };
        if take_left {
            let x: usize = left[i];
            proof {
                assert(left@.take(i + 1) =~= left@.take(i as int).push(x));
                assert forall|b: int| j <= b < right.len() implies !street_lt(
                    streets[(#[trigger] right[b]) as int],
                    streets[x as int],
                ) by {
                    if b > j {
                        lemma_street_le_transitive(
                            streets[x as int],
                            streets[right[j as int] as int],
                            streets[right[b] as int],
                        );
                    }
                }
            }
            out.push(x);
            i += 1;
        } else {
            let x: usize = right[j];
            proof {
                assert(right@.take(j + 1) =~= right@.take(j as int).push(x));
                assert forall|a: int| i <= a < left.len() implies !street_lt(
                    streets[(#[trigger] left[a]) as int],
                    streets[x as int],
                ) by {
                    if a > i {
                        lemma_street_le_transitive(
                            streets[x as int],
                            streets[left[i as int] as int],
                            streets[left[a] as int],
                        );
                    }
                }
            }
            out.push(x);
            j += 1;
        }
    }
    assert(left@.take(i as int) =~= left@);
    assert(right@.take(j as int) =~= right@);
    out
}

/// The positions from `low` up to `high`, sorted by the order of streets.
fn sort_span(network: &Network, low: usize, high: usize) -> (out: Vec<usize>)
    requires
        low <= high <= network@.len(),
    ensures
        sorted(network@, out@),
        out@.to_multiset() == span(low as int, high as int).to_multiset(),
    decreases high - low,
{
    if high - low <= 1 {
        let mut out: Vec<usize> = Vec::new();
        if low < high {
            out.push(low);
        }
        assert(out@ =~= span(low as int, high as int));
        return out;
    }
    let mid: usize = low + (high - low) / 2;
    let left = sort_span(network, low, mid);
    let right = sort_span(network, mid, high);
    proof {
        assert(span(low as int, high as int) =~= span(low as int, mid as int) + span(
            mid as int,
            high as int,
        ));
        lemma_multiset_commutative(span(low as int, mid as int), span(mid as int, high as int));
    }
    merge(network, &left, &right)
}

/// Every position of `network`, sorted by the order of streets.
pub fn ranking(network: &Network) -> (order: Vec<usize>)
    ensures
        ranks_all(network@, order@),
{
    let order = sort_span(network, 0, network.len());
    proof {
        let all = span(0, network@.len() as int);
        assert(order@.len() == all.len()) by {
            assert(order@.to_multiset().len() == all.to_multiset().len());
        }
        assert forall|i: usize| i < network@.len() implies #[trigger] order@.contains(i) by {
            assert(all[i as int] == i);
            assert(order@.to_multiset().count(i) > 0);
        }
        all.lemma_multiset_has_no_duplicates();
        order@.lemma_multiset_has_no_duplicates_conv();
    }
    order
}

} // verus!
