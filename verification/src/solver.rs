//! The solver: reads a problem, counts the visits, builds the schedule.

use crate::demand::{
    distinct_paths,
    lemma_add_path_distinct,
    lemma_steps_is_sum,
    lemma_sum_same_paths,
    lemma_visits_is_sum,
    steps,
    uses,
    visits,
    with_path,
    Demand,
};
use crate::network::{declares, Network};
use crate::path::{path_of_line, Path};
use crate::schedule::{build, feeders, is_schedule, numbered, reached, rising};
use crate::solution::{schedules, Solution};
use crate::street::{street_of_line, Street, StreetView};
use crate::text::{
    chars_of,
    line_spans,
    lines,
    parse_number,
    small_number,
    trim,
    trimmed,
    word_spans,
    words,
};
use crate::usage::{consistent, count_visits, counted, is_consistent};
use vstd::prelude::*;
use vstd::slice::slice_subrange;

verus! {

/// A problem: a road network and the paths of the vehicles that drive in
/// it. `max_duration` and `bonus_points` belong to the problem as it is
/// posed; the schedule does not depend on them.
pub struct Solver {
    pub max_duration: usize,
    pub bonus_points: usize,
    pub streets: Network,
    pub paths: Demand,
}

/// What a problem is, as plain values.
pub ghost struct Problem {
    pub max_duration: usize,
    pub bonus_points: usize,
    pub streets: Seq<StreetView>,
    pub paths: Seq<Seq<Seq<char>>>,
}

impl View for Solver {
    type V = Problem;

    open spec fn view(&self) -> Problem {
        Problem {
            max_duration: self.max_duration,
            bonus_points: self.bonus_points,
            streets: self.streets@,
            paths: self.paths@,
        }
    }
}

/// The five numbers that the first line of a problem holds. The line has to
/// have five words, no fewer and no more, and each has to be a number.
pub open spec fn header_of(line: Seq<char>) -> Option<(usize, usize, usize, usize, usize)> {
    let w = words(line);
    if w.len() == 5 && forall|k: int| 0 <= k < w.len() ==> small_number(#[trigger] w[k]) is Some {
        Some(
            (
                small_number(w[0])->0,
                small_number(w[1])->0,
                small_number(w[2])->0,
                small_number(w[3])->0,
                small_number(w[4])->0,
            ),
        )
    } else {
        None
    }
}

/// The streets that the lines `ls` describe, one a line. There are none
/// when a line describes no street or when two lines name the same street.
pub open spec fn streets_of(ls: Seq<Seq<char>>) -> Option<Seq<StreetView>>
    decreases ls.len(),
{
    if ls.len() == 0 {
        Some(Seq::empty())
    } else {
        match (streets_of(ls.drop_last()), street_of_line(ls.last())) {
            (Some(before), Some(street)) => if declares(before, street.name) {
                None
            } else {
                Some(before.push(street))
            },
            _ => None,
        }
    }
}

/// The paths that the lines `ls` describe, one a line, each kept once.
pub open spec fn paths_of(ls: Seq<Seq<char>>) -> Seq<Seq<Seq<char>>>
    decreases ls.len(),
{
    if ls.len() == 0 {
        Seq::empty()
    } else {
        with_path(paths_of(ls.drop_last()), path_of_line(ls.last()))
    }
}

/// The problem that a text describes. White space around the text does
/// not count. The first line gives, as its first, third, fourth and fifth
/// number, the duration, the number of streets, the number of paths and
/// the bonus. Then come the streets, one a line, then the paths. A text
/// describes no problem when the first line is not as it should be, when
/// lines are missing, when a street line describes no street, when two
/// streets have the same name, when a path goes through a street that is
/// not there, or when the paths have more steps than a `usize` counts.
pub open spec fn problem_of(text: Seq<char>) -> Option<Problem> {
    let ls = lines(trimmed(text));
    match header_of(ls[0]) {
        None => None,
        Some(header) => {
            let street_count = header.2 as int;
            let path_count = header.3 as int;
            if 1 + street_count + path_count > ls.len() {
                None
            } else {
                match streets_of(ls.subrange(1, 1 + street_count)) {
                    None => None,
                    Some(streets) => {
                        let paths = paths_of(
                            ls.subrange(1 + street_count, 1 + street_count + path_count),
                        );
                        if consistent(streets, paths) {
                            Some(
                                Problem {
                                    max_duration: header.0,
                                    bonus_points: header.4,
                                    streets,
                                    paths,
                                },
                            )
                        } else {
                            None
                        }
                    },
                }
            }
        },
    }
}

/// Once some lines describe no streets, more lines do not help.
pub proof fn lemma_streets_of_prefix(ls: Seq<Seq<char>>, k: int)
    requires
        0 <= k <= ls.len(),
        streets_of(ls.take(k)) is None,
    ensures
        streets_of(ls) is None,
    decreases ls.len(),
{
    if k < ls.len() {
        assert(ls.drop_last().take(k) == ls.take(k));
        lemma_streets_of_prefix(ls.drop_last(), k);
    } else {
        assert(ls.take(k) == ls);
    }
}

/// The paths of some lines are distinct.
pub proof fn lemma_paths_of_distinct(ls: Seq<Seq<char>>)
    ensures
        distinct_paths(paths_of(ls)),
    decreases ls.len(),
{
    if ls.len() > 0 {
        lemma_paths_of_distinct(ls.drop_last());
        lemma_add_path_distinct(paths_of(ls.drop_last()), path_of_line(ls.last()));
    }
}

/// A path is among the paths of some lines exactly when one of the lines
/// describes it.
pub proof fn lemma_paths_of_holds(ls: Seq<Seq<char>>, path: Seq<Seq<char>>)
    ensures
        paths_of(ls).contains(path) <==> exists|i: int|
            0 <= i < ls.len() && path_of_line(#[trigger] ls[i]) == path,
    decreases ls.len(),
{
    if ls.len() > 0 {
        let rest = ls.drop_last();
        let before = paths_of(rest);
        let last = path_of_line(ls.last());
        lemma_paths_of_holds(rest, path);
        if paths_of(ls).contains(path) {
            if before.contains(path) {
                let i = choose|i: int|
                    0 <= i < rest.len() && path_of_line(#[trigger] rest[i]) == path;
                assert(ls[i] == rest[i]);
            } else {
                let k = choose|k: int| 0 <= k < paths_of(ls).len() && paths_of(ls)[k] == path;
                if k < before.len() {
                    assert(before[k] == path);
                }
                assert(path_of_line(ls[ls.len() - 1]) == path);
            }
        }
        if exists|i: int| 0 <= i < ls.len() && path_of_line(#[trigger] ls[i]) == path {
            let i = choose|i: int| 0 <= i < ls.len() && path_of_line(#[trigger] ls[i]) == path;
            if i < rest.len() {
                assert(rest[i] == ls[i]);
                let k = choose|k: int| 0 <= k < before.len() && before[k] == path;
                assert(paths_of(ls)[k] == path);
            } else if !before.contains(path) {
                assert(paths_of(ls)[before.len() as int] == path);
            }
        }
    }
}

/// A line that describes a path which an earlier line describes adds
/// nothing to the paths.
pub proof fn lemma_later_path_line(ls: Seq<Seq<char>>, at: int, line: Seq<char>, twin: int)
    requires
        0 <= twin < at <= ls.len(),
        path_of_line(line) == path_of_line(ls[twin]),
    ensures
        paths_of(ls.insert(at, line)) == paths_of(ls),
    decreases ls.len() - at,
{
    let more = ls.insert(at, line);
    if at == ls.len() {
        assert(more.drop_last() == ls);
        lemma_paths_of_holds(ls, path_of_line(line));
    } else {
        let rest = ls.drop_last();
        assert(rest[twin] == ls[twin]);
        lemma_later_path_line(rest, at, line, twin);
        assert(more.drop_last() == rest.insert(at, line));
        assert(more.last() == ls.last());
    }
}

/// A line that describes a path which another line describes, put in at
/// any place, leaves the set of paths as it is: the same paths, as many of
/// them, with the same steps, and every street visited as often.
pub proof fn lemma_repeated_path_line(ls: Seq<Seq<char>>, at: int, line: Seq<char>, twin: int)
    requires
        0 <= at <= ls.len(),
        0 <= twin < ls.len(),
        path_of_line(line) == path_of_line(ls[twin]),
    ensures
        paths_of(ls.insert(at, line)).to_set() == paths_of(ls).to_set(),
        paths_of(ls.insert(at, line)).len() == paths_of(ls).len(),
        steps(paths_of(ls.insert(at, line))) == steps(paths_of(ls)),
        forall|name: Seq<char>| #[trigger]
            visits(paths_of(ls.insert(at, line)), name) == visits(paths_of(ls), name),
        forall|streets: Seq<StreetView>|
            consistent(streets, paths_of(ls.insert(at, line))) <==> #[trigger] consistent(
                streets,
                paths_of(ls),
            ),
{
    let more = ls.insert(at, line);
    let with = paths_of(more);
    let without = paths_of(ls);
    lemma_paths_of_distinct(more);
    lemma_paths_of_distinct(ls);
    assert forall|path: Seq<Seq<char>>| with.contains(path) <==> without.contains(path) by {
        lemma_paths_of_holds(more, path);
        lemma_paths_of_holds(ls, path);
        if with.contains(path) {
            let i = choose|i: int| 0 <= i < more.len() && path_of_line(#[trigger] more[i]) == path;
            if i < at {
                assert(ls[i] == more[i]);
            } else if i == at {
                assert(path_of_line(ls[twin]) == path);
            } else {
                assert(ls[i - 1] == more[i]);
            }
        }
        if without.contains(path) {
            let i = choose|i: int| 0 <= i < ls.len() && path_of_line(#[trigger] ls[i]) == path;
            if i < at {
                assert(more[i] == ls[i]);
            } else {
                assert(more[i + 1] == ls[i]);
            }
        }
    }
    assert(with.to_set() =~= without.to_set());
    let lengths = |path: Seq<Seq<char>>| path.len();
    lemma_sum_same_paths(with, without, lengths);
    lemma_steps_is_sum(with);
    lemma_steps_is_sum(without);
    assert forall|name: Seq<char>| #[trigger] visits(with, name) == visits(without, name) by {
        let used = |path: Seq<Seq<char>>| uses(path, name);
        lemma_sum_same_paths(with, without, used);
        lemma_visits_is_sum(with, name);
        lemma_visits_is_sum(without, name);
    }
    assert forall|streets: Seq<StreetView>|
        consistent(streets, with) <==> #[trigger] consistent(streets, without) by {
        if consistent(streets, with) {
            assert forall|p: int, t: int|
                0 <= p < without.len() && 0 <= t < without[p].len() implies declares(
                streets,
                #[trigger] without[p][t],
            ) by {
                assert(without.contains(without[p]));
                let q = choose|q: int| 0 <= q < with.len() && with[q] == without[p];
                assert(declares(streets, with[q][t]));
            }
        }
        if consistent(streets, without) {
            assert forall|p: int, t: int|
                0 <= p < with.len() && 0 <= t < with[p].len() implies declares(
                streets,
                #[trigger] with[p][t],
            ) by {
                assert(with.contains(with[p]));
                let q = choose|q: int| 0 <= q < without.len() && without[q] == with[p];
                assert(declares(streets, without[q][t]));
            }
        }
    }
}

/// A text that says one of its paths once more describes the same problem.
/// `again` differs from `text` in this: its header counts one path more, and
/// among its path lines stands, at the place `at`, one more line, which
/// describes the path that the path line `twin` of `text` describes. Then
/// `again` describes a problem exactly when `text` does, with the same
/// duration, bonus and streets and with the same set of paths, so that
/// every street is visited as often. Where the new line stands after its
/// twin, the two problems are the same.
pub proof fn lemma_repeated_path_in_text(
    text: Seq<char>,
    again: Seq<char>,
    at: int,
    line: Seq<char>,
    twin: int,
)
    requires
        header_of(lines(trimmed(text))[0]) is Some,
        header_of(lines(trimmed(again))[0]) is Some,
        ({
            let h = header_of(lines(trimmed(text))[0])->0;
            let g = header_of(lines(trimmed(again))[0])->0;
            let ls = lines(trimmed(text));
            let ms = lines(trimmed(again));
            &&& g.0 == h.0 && g.2 == h.2 && g.3 == h.3 + 1 && g.4 == h.4
            &&& 1 + h.2 + h.3 <= ls.len()
            &&& 2 + h.2 + h.3 <= ms.len()
            &&& ms.subrange(1, 1 + h.2) == ls.subrange(1, 1 + h.2)
            &&& 0 <= at <= h.3
            &&& 0 <= twin < h.3
            &&& ms.subrange(1 + h.2, 2 + h.2 + h.3) == ls.subrange(1 + h.2, 1 + h.2 + h.3).insert(
                at,
                line,
            )
            &&& path_of_line(line) == path_of_line(ls[1 + h.2 + twin])
        }),
    ensures
        problem_of(again) is Some <==> problem_of(text) is Some,
        problem_of(text) is Some ==> {
            let p = problem_of(text)->0;
            let q = problem_of(again)->0;
            &&& q.max_duration == p.max_duration
            &&& q.bonus_points == p.bonus_points
            &&& q.streets == p.streets
            &&& q.paths.to_set() == p.paths.to_set()
            &&& q.paths.len() == p.paths.len()
            &&& counted(q.streets, q.paths) == counted(p.streets, p.paths)
            &&& twin < at ==> q == p
        },
{
    let ls = lines(trimmed(text));
    let h = header_of(ls[0])->0;
    let path_lines = ls.subrange(1 + h.2, 1 + h.2 + h.3);
    assert(path_lines[twin] == ls[1 + h.2 + twin]);
    lemma_repeated_path_line(path_lines, at, line, twin);
    let with = paths_of(path_lines.insert(at, line));
    let without = paths_of(path_lines);
    if twin < at {
        lemma_later_path_line(path_lines, at, line, twin);
    }
    match streets_of(ls.subrange(1, 1 + h.2)) {
        Some(streets) => {
            assert(consistent(streets, with) <==> consistent(streets, without));
            assert(counted(streets, with) =~= counted(streets, without));
        },
        None => {},
    }
}

/// Counting the visits changes no name.
pub proof fn lemma_counted_consistent(streets: Seq<StreetView>, paths: Seq<Seq<Seq<char>>>)
    requires
        consistent(streets, paths),
    ensures
        consistent(counted(streets, paths), paths),
{
    let after = counted(streets, paths);
    assert forall|p: int, t: int| 0 <= p < paths.len() && 0 <= t < paths[p].len() implies declares(
        after,
        #[trigger] paths[p][t],
    ) by {
        let i = choose|i: int|
            0 <= i < streets.len() && (#[trigger] streets[i]).name == paths[p][t];
        assert(after[i].name == paths[p][t]);
    }
}

/// Reads the first line of a problem.
pub fn parse_header(line: &[char]) -> (header: Option<(usize, usize, usize, usize, usize)>)
    ensures
        header == header_of(line@),
{
    let spans = word_spans(line);
    if spans.len() != 5 {
        return None;
    }
    let mut numbers: Vec<usize> = Vec::new();
    let mut k: usize = 0;
    while k < spans.len()
        invariant
            k <= spans.len(),
            spans.len() == words(line@).len(),
            forall|j: int|
                0 <= j < spans.len() ==> {
                    &&& (#[trigger] spans[j]).0 < spans[j].1 <= line.len()
                    &&& line@.subrange(spans[j].0 as int, spans[j].1 as int) == words(line@)[j]
                },
            numbers.len() == k,
            forall|j: int|
                0 <= j < k ==> small_number(#[trigger] words(line@)[j]) == Some(numbers[j]),
        decreases spans.len() - k,
    {
        match parse_number(slice_subrange(line, spans[k].0, spans[k].1)) {
            Some(n) => {
                numbers.push(n);
            },
            None => {
                return None;
            },
        }
        k += 1;
    }
    Some((numbers[0], numbers[1], numbers[2], numbers[3], numbers[4]))
}

impl Solver {
    /// What `solve` needs: a network and a demand that are well formed, and
    /// paths that go through streets of the network only.
    pub open spec fn wf(&self) -> bool {
        &&& self.streets.wf()
        &&& self.paths.wf()
        &&& consistent(self.streets@, self.paths@)
    }

    /// The problem with these parts.
    pub fn new(
        max_duration: usize,
        bonus_points: usize,
        streets: Network,
        paths: Demand,
    ) -> (solver: Solver)
        ensures
            solver.max_duration == max_duration,
            solver.bonus_points == bonus_points,
            solver.streets == streets,
            solver.paths == paths,
    {
        Solver { max_duration, bonus_points, streets, paths }
    }

    /// Whether `solve` can be called: whether every path goes through
    /// streets of the network only, and the paths have no more steps than
    /// a `usize` counts.
    pub fn is_ready(&self) -> (ready: bool)
        requires
            self.streets.wf(),
            self.paths.wf(),
        ensures
            ready == self.wf(),
    {
        is_consistent(&self.streets, &self.paths)
    }

    /// Reads a problem from its text.
    pub fn from_str(input: &str) -> (solver: Option<Solver>)
        ensures
            match solver {
                Some(s) => s.wf() && problem_of(input@) == Some(s@),
                None => problem_of(input@) is None,
            },
    {
        let chars = chars_of(input);
        let text = trim(chars.as_slice());
        let spans = line_spans(text);
        let ghost ls = lines(text@);
        let header = match parse_header(slice_subrange(text, spans[0].0, spans[0].1)) {
            Some(h) => h,
            None => {
                return None;
            },
        };
        let street_count: usize = header.2;
        let path_count: usize = header.3;
        if street_count >= spans.len() {
            return None;
        }
        if path_count > spans.len() - 1 - street_count {
            return None;
        }
        let ghost street_lines = ls.subrange(1, 1 + street_count);
        let mut streets = Network::new();
        let mut k: usize = 0;
        while k < street_count
            invariant
                k <= street_count,
                1 + street_count + path_count <= spans.len(),
                ls == lines(text@),
                spans.len() == ls.len(),
                forall|j: int|
                    0 <= j < spans.len() ==> {
                        &&& (#[trigger] spans[j]).0 <= spans[j].1 <= text.len()
                        &&& text@.subrange(spans[j].0 as int, spans[j].1 as int) == ls[j]
                    },
                street_lines == ls.subrange(1, 1 + street_count),
                streets.wf(),
                streets_of(street_lines.take(k as int)) == Some(streets@),
                input@ == chars@,
                text@ == trimmed(chars@),
                header_of(ls[0]) == Some(header),
                street_count == header.2,
                path_count == header.3,
            decreases street_count - k,
        {
            let line = slice_subrange(text, spans[k + 1].0, spans[k + 1].1);
            proof {
                let next = street_lines.take(k + 1);
                assert(next.drop_last() == street_lines.take(k as int));
            }
            let added = match Street::from_chars(line) {
                Some(street) => streets.add_street(street),
                None => false,
            };
            if !added {
                proof {
                    lemma_streets_of_prefix(street_lines, k + 1);
                }
                return None;
            }
            k += 1;
        }
        assert(street_lines.take(k as int) == street_lines);
        let ghost path_lines = ls.subrange(1 + street_count, 1 + street_count + path_count);
        let mut paths = Demand::new();
        let mut k: usize = 0;
        while k < path_count
            invariant
                k <= path_count,
                1 + street_count + path_count <= spans.len(),
                ls == lines(text@),
                spans.len() == ls.len(),
                forall|j: int|
                    0 <= j < spans.len() ==> {
                        &&& (#[trigger] spans[j]).0 <= spans[j].1 <= text.len()
                        &&& text@.subrange(spans[j].0 as int, spans[j].1 as int) == ls[j]
                    },
                path_lines == ls.subrange(1 + street_count, 1 + street_count + path_count),
                paths.wf(),
                paths@ == paths_of(path_lines.take(k as int)),
            decreases path_count - k,
        {
            let at: usize = 1 + street_count + k;
            let line = slice_subrange(text, spans[at].0, spans[at].1);
            proof {
                let next = path_lines.take(k + 1);
                assert(next.drop_last() == path_lines.take(k as int));
            }
            paths.add_path(Path::from_chars(line));
            k += 1;
        }
        assert(path_lines.take(k as int) == path_lines);
        if !is_consistent(&streets, &paths) {
            return None;
        }
        Some(Solver::new(header.0, header.4, streets, paths))
    }

    /// Counts how often the paths visit each street, stores the counts with
    /// the streets, and builds the schedule from them.
    pub fn solve(&mut self) -> (solution: Solution)
        requires
            old(self).wf(),
        ensures
            final(self).wf(),
            final(self)@ == (Problem {
                streets: counted(old(self)@.streets, old(self)@.paths),
                ..old(self)@
            }),
            forall|i: int|
                0 <= i < final(self)@.streets.len() ==> (#[trigger] final(self)@.streets[i]).visits
                    == visits(final(self)@.paths, final(self)@.streets[i].name),
            solution.wf(),
            is_schedule(final(self)@.streets, solution@),
            forall|id: usize|
                #[trigger] schedules(solution@, id) <==> reached(final(self)@.streets, id),
            forall|e: int|
                0 <= e < solution@.len() ==> {
                    &&& numbered(#[trigger] solution@[e])
                    &&& solution@[e].incoming.len() == feeders(
                        final(self)@.streets,
                        solution@[e].id,
                    ).len()
                    &&& rising(final(self)@.streets, solution@[e])
                },
    {
        proof {
            lemma_counted_consistent(self.streets@, self.paths@);
        }
        count_visits(&mut self.streets, &self.paths);
        build(&self.streets)
    }
}

} // verus!
