//! The demand: the set of vehicle paths, and how often they use a street.

use crate::index::{files, HashIndex};
use crate::path::{path_hash, Path};
use vstd::prelude::*;

verus! {

/// A set of vehicle paths, in the order in which they were first added. A
/// path that is added again is not kept a second time.
pub struct Demand {
    paths: Vec<Path>,
    index: HashIndex,
}

/// The views of the paths in `paths`, one by one.
pub open spec fn path_views(paths: Seq<Path>) -> Seq<Seq<Seq<char>>> {
    paths.map_values(|p: Path| p@)
}

/// No two paths of `paths` are the same.
pub open spec fn distinct_paths(paths: Seq<Seq<Seq<char>>>) -> bool {
    forall|i: int, j: int| 0 <= i < j < paths.len() ==> #[trigger] paths[i] != #[trigger] paths[j]
}

/// `paths` with `path` added: nothing changes when it is there already.
pub open spec fn with_path(paths: Seq<Seq<Seq<char>>>, path: Seq<Seq<char>>) -> Seq<
    Seq<Seq<char>>,
> {
    if paths.contains(path) {
        paths
    } else {
        paths.push(path)
    }
}

/// How often `path` goes through the street named `name`.
pub open spec fn uses(path: Seq<Seq<char>>, name: Seq<char>) -> nat
    decreases path.len(),
{
    if path.len() == 0 {
        0
    } else {
        uses(path.drop_last(), name) + if path.last() == name {
            1nat
        } else {
            0nat
        }
    }
}

/// How often the paths of `paths`, taken together, go through the street
/// named `name`.
pub open spec fn visits(paths: Seq<Seq<Seq<char>>>, name: Seq<char>) -> nat
    decreases paths.len(),
{
    if paths.len() == 0 {
        0
    } else {
        visits(paths.drop_last(), name) + uses(paths.last(), name)
    }
}

/// The number of streets that the paths of `paths` go through, each counted
/// as often as it is used.
pub open spec fn steps(paths: Seq<Seq<Seq<char>>>) -> nat
    decreases paths.len(),
{
    if paths.len() == 0 {
        0
    } else {
        steps(paths.drop_last()) + paths.last().len()
    }
}

/// Adding a path a second time changes nothing.
pub proof fn lemma_add_path_twice(paths: Seq<Seq<Seq<char>>>, path: Seq<Seq<char>>)
    ensures
        with_path(with_path(paths, path), path) == with_path(paths, path),
{
    if !paths.contains(path) {
        assert(paths.push(path)[paths.len() as int] == path);
    }
}

/// Adding a path keeps a set of distinct paths distinct.
pub proof fn lemma_add_path_distinct(paths: Seq<Seq<Seq<char>>>, path: Seq<Seq<char>>)
    requires
        distinct_paths(paths),
    ensures
        distinct_paths(with_path(paths, path)),
{
}

/// The values that `f` gives to the paths of `paths`, added up.
pub open spec fn sum_over(paths: Seq<Seq<Seq<char>>>, f: spec_fn(Seq<Seq<char>>) -> nat) -> nat
    decreases paths.len(),
{
    if paths.len() == 0 {
        0
    } else {
        sum_over(paths.drop_last(), f) + f(paths.last())
    }
}

/// The visits of a street are the uses that the paths make of it, added up.
pub proof fn lemma_visits_is_sum(paths: Seq<Seq<Seq<char>>>, name: Seq<char>)
    ensures
        visits(paths, name) == sum_over(paths, |path: Seq<Seq<char>>| uses(path, name)),
    decreases paths.len(),
{
    if paths.len() > 0 {
        lemma_visits_is_sum(paths.drop_last(), name);
    }
}

/// The steps of the paths are their lengths, added up.
pub proof fn lemma_steps_is_sum(paths: Seq<Seq<Seq<char>>>)
    ensures
        steps(paths) == sum_over(paths, |path: Seq<Seq<char>>| path.len()),
    decreases paths.len(),
{
    if paths.len() > 0 {
        lemma_steps_is_sum(paths.drop_last());
    }
}

/// Taking one path out takes its value out of the sum.
pub proof fn lemma_sum_remove(
    paths: Seq<Seq<Seq<char>>>,
    f: spec_fn(Seq<Seq<char>>) -> nat,
    at: int,
)
    requires
        0 <= at < paths.len(),
    ensures
        sum_over(paths, f) == sum_over(paths.remove(at), f) + f(paths[at]),
    decreases paths.len(),
{
    if at == paths.len() - 1 {
        assert(paths.remove(at) == paths.drop_last());
    } else {
        lemma_sum_remove(paths.drop_last(), f, at);
        assert(paths.remove(at).drop_last() == paths.drop_last().remove(at));
        assert(paths.remove(at).last() == paths.last());
    }
}

/// Two lists of distinct paths that hold the same paths are as long as each
/// other and have the same sum: the order of the paths does not count.
pub proof fn lemma_sum_same_paths(
    first: Seq<Seq<Seq<char>>>,
    second: Seq<Seq<Seq<char>>>,
    f: spec_fn(Seq<Seq<char>>) -> nat,
)
    requires
        distinct_paths(first),
        distinct_paths(second),
        forall|path: Seq<Seq<char>>| first.contains(path) <==> second.contains(path),
    ensures
        first.len() == second.len(),
        sum_over(first, f) == sum_over(second, f),
    decreases first.len(),
{
    if first.len() == 0 {
        if second.len() > 0 {
            assert(second.contains(second[0]));
        }
    } else {
        let x = first.last();
        assert(first.contains(x));
        let q = choose|q: int| 0 <= q < second.len() && second[q] == x;
        let a = first.drop_last();
        let b = second.remove(q);
        assert forall|i: int, j: int| 0 <= i < j < b.len() implies #[trigger] b[i]
            != #[trigger] b[j] by {
            let i2 = if i < q {
                i
            } else {
                i + 1
            };
            let j2 = if j < q {
                j
            } else {
                j + 1
            };
            assert(b[i] == second[i2] && b[j] == second[j2]);
        }
        assert forall|path: Seq<Seq<char>>| a.contains(path) <==> b.contains(path) by {
            if a.contains(path) {
                let i = choose|i: int| 0 <= i < a.len() && a[i] == path;
                assert(first[i] == path);
                assert(first[i] != first[first.len() - 1]);
                assert(first.contains(path));
                let j = choose|j: int| 0 <= j < second.len() && second[j] == path;
                if j < q {
                    assert(b[j] == path);
                } else {
                    assert(b[j - 1] == path);
                }
            }
            if b.contains(path) {
                let j = choose|j: int| 0 <= j < b.len() && b[j] == path;
                let j2 = if j < q {
                    j
                } else {
                    j + 1
                };
                assert(second[j2] == path);
                if j2 < q {
                    assert(second[j2] != second[q]);
                } else {
                    assert(second[q] != second[j2]);
                }
                assert(second.contains(path));
                let i = choose|i: int| 0 <= i < first.len() && first[i] == path;
                assert(a[i] == path);
            }
        }
        lemma_sum_same_paths(a, b, f);
        lemma_sum_remove(second, f, q);
    }
}

/// A path uses no street more often than it has steps.
pub proof fn lemma_uses_bound(path: Seq<Seq<char>>, name: Seq<char>)
    ensures
        uses(path, name) <= path.len(),
    decreases path.len(),
{
    if path.len() > 0 {
        lemma_uses_bound(path.drop_last(), name);
    }
}

/// No street is visited more often than the paths have steps.
pub proof fn lemma_visits_bound(paths: Seq<Seq<Seq<char>>>, name: Seq<char>)
    ensures
        visits(paths, name) <= steps(paths),
    decreases paths.len(),
{
    if paths.len() > 0 {
        lemma_visits_bound(paths.drop_last(), name);
        lemma_uses_bound(paths.last(), name);
    }
}

impl View for Demand {
    type V = Seq<Seq<Seq<char>>>;

    closed spec fn view(&self) -> Seq<Seq<Seq<char>>> {
        path_views(self.paths@)
    }
}

impl Demand {
    /// The index files every path under its hash.
    pub closed spec fn indexed(&self) -> bool {
        &&& self.index.wf()
        &&& self.index@.len() == self.paths@.len()
        &&& forall|i: int|
            0 <= i < self.paths@.len() ==> #[trigger] self.index@[i] == path_hash(self.paths@[i]@)
    }

    /// What holds of every demand: its paths are distinct, and each can be
    /// found by its content.
    pub open spec fn wf(&self) -> bool {
        &&& self.indexed()
        &&& distinct_paths(self@)
    }

    /// The demand without paths.
    pub fn new() -> (demand: Demand)
        ensures
            demand.wf(),
            demand@ == Seq::<Seq<Seq<char>>>::empty(),
    {
        Demand { paths: Vec::new(), index: HashIndex::new() }
    }

    /// The number of paths.
    pub fn len(&self) -> (n: usize)
        ensures
            n == self@.len(),
    {
        self.paths.len()
    }

    /// The path at position `at`.
    pub fn path(&self, at: usize) -> (path: &Path)
        requires
            at < self@.len(),
        ensures
            path@ == self@[at as int],
    {
        &self.paths[at]
    }

    /// Whether `path` is one of the paths.
    pub fn contains(&self, path: &Path) -> (found: bool)
        requires
            self.wf(),
        ensures
            found == self@.contains(path@),
    {
        let h = path.hash();
        match self.index.lookup(h) {
            None => {
                assert forall|i: int| 0 <= i < self@.len() implies #[trigger] self@[i]
                    != path@ by {
                    assert(self.index@[i] != h);
                }
                false
            },
            Some(bucket) => {
                let mut k: usize = 0;
                while k < bucket.len()
                    invariant
                        k <= bucket.len(),
                        files(self.index@, h, bucket@),
                        self.index@.len() == self.paths@.len(),
                        forall|j: int|
                            0 <= j < k ==> self.paths@[(#[trigger] bucket@[j]) as int]@ != path@,
                    decreases bucket.len() - k,
                {
                    let at: usize = bucket[k];
                    if self.paths[at].same_as(path) {
                        assert(self@[at as int] == path@);
                        return true;
                    }
                    k += 1;
                }
                assert forall|i: int| 0 <= i < self@.len() implies #[trigger] self@[i]
                    != path@ by {
                    if self@[i] == path@ {
                        assert(self.index@[i] == h);
                    }
                }
                false
            },
        }
    }

    /// Adds `path`, unless it is there already: then nothing changes and
    /// the answer is `false`.
    pub fn add_path(&mut self, path: Path) -> (added: bool)
        requires
            old(self).wf(),
        ensures
            final(self).wf(),
            added == !old(self)@.contains(path@),
            final(self)@ == with_path(old(self)@, path@),
    {
        if self.contains(&path) {
            return false;
        }
        let h = path.hash();
        let at = self.paths.len();
        self.index.add(h, at);
        self.paths.push(path);
        proof {
            assert(self@ == old(self)@.push(path@));
        }
        true
    }
}

} // verus!
