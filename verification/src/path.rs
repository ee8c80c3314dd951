//! Vehicle paths: the streets that one vehicle drives through, in order.

use crate::name::{hash_name, mix, mixed, name_hash, rank, Rank};
use crate::text::{chars_of, string_of, word_spans, words};
use vstd::prelude::*;
use vstd::slice::slice_subrange;

verus! {

/// The route of one vehicle: the names of the streets it takes, in order.
#[derive(Debug)]
pub struct Path {
    pub streets: Vec<String>,
}

impl View for Path {
    type V = Seq<Seq<char>>;

    open spec fn view(&self) -> Seq<Seq<char>> {
        self.streets@.map_values(|s: String| s@)
    }
}

/// The path that a line of text describes: its words, but for the first,
/// which announces how many follow and is not looked at.
pub open spec fn path_of_line(line: Seq<char>) -> Seq<Seq<char>> {
    let w = words(line);
    if w.len() == 0 {
        w
    } else {
        w.skip(1)
    }
}

/// The hash of a path: the hashes of its names mixed, one after the other,
/// into a fixed start value.
pub open spec fn path_hash(path: Seq<Seq<char>>) -> u64
    decreases path.len(),
{
    if path.len() == 0 {
        0xcbf2_9ce4_8422_2325
    } else {
        mixed(path_hash(path.drop_last()), name_hash(path.last()))
    }
}

impl Path {
    /// The path through `streets`.
    pub fn new(streets: Vec<String>) -> (path: Path)
        ensures
            path.streets == streets,
    {
        Path { streets }
    }

    /// Reads a path from the characters of one line.
    pub fn from_chars(line: &[char]) -> (path: Path)
        ensures
            path@ == path_of_line(line@),
    {
        let spans = word_spans(line);
        let mut streets: Vec<String> = Vec::new();
        let mut k: usize = 1;
        while k < spans.len()
            invariant
                1 <= k,
                k <= spans.len() || k == 1,
                spans.len() == words(line@).len(),
                forall|j: int|
                    0 <= j < spans.len() ==> {
                        &&& (#[trigger] spans[j]).0 < spans[j].1 <= line.len()
                        &&& line@.subrange(spans[j].0 as int, spans[j].1 as int) == words(line@)[j]
                    },
                streets.len() == k - 1,
                forall|j: int|
                    0 <= j < streets.len() ==> (#[trigger] streets[j])@ == words(line@)[j + 1],
            decreases spans.len() - k,
        {
            streets.push(string_of(slice_subrange(line, spans[k].0, spans[k].1)));
            k += 1;
        }
        let path = Path::new(streets);
        path
    }

    /// Reads a path from one line of text.
    pub fn from_str(raw: &str) -> (path: Path)
        ensures
            path@ == path_of_line(raw@),
    {
        let line = chars_of(raw);
        Path::from_chars(line.as_slice())
    }

    /// The number of streets on the path.
    pub fn len(&self) -> (n: usize)
        ensures
            n == self@.len(),
    {
        self.streets.len()
    }

    /// Whether the two paths take the same streets in the same order.
    pub fn same_as(&self, other: &Path) -> (same: bool)
        ensures
            same == (self@ == other@),
    {
        if self.streets.len() != other.streets.len() {
            assert(self@.len() != other@.len());
            return false;
        }
        let mut k: usize = 0;
        while k < self.streets.len()
            invariant
                k <= self.streets.len(),
                self.streets.len() == other.streets.len(),
                forall|j: int| 0 <= j < k ==> self@[j] == other@[j],
            decreases self.streets.len() - k,
        {
            if rank(self.streets[k].as_str(), other.streets[k].as_str()) != Rank::Same {
                assert(self@[k as int] != other@[k as int]);
                return false;
            }
            k += 1;
        }
        assert(self@ =~= other@);
        true
    }

    /// Computes `path_hash` of the path.
    pub fn hash(&self) -> (h: u64)
        ensures
            h == path_hash(self@),
    {
        let mut h: u64 = 0xcbf2_9ce4_8422_2325;
        let mut k: usize = 0;
        while k < self.streets.len()
            invariant
                k <= self.streets.len(),
                h == path_hash(self@.take(k as int)),
            decreases self.streets.len() - k,
        {
            proof {
                let next = self@.take(k + 1);
                assert(next.drop_last() == self@.take(k as int));
            }
            h = mix(h, hash_name(self.streets[k].as_str()));
            k += 1;
        }
        assert(self@.take(k as int) == self@);
        h
    }
}

} // verus!
