//! Streets: one-way roads between two intersections.

use crate::text::{chars_of, parse_number, small_number, string_of, word_spans, words};
use vstd::prelude::*;
use vstd::slice::slice_subrange;

verus! {

/// A one-way street. It runs from the intersection `from` to the
/// intersection `to`, takes `transit` seconds to drive through, and is known
/// by its `name`. `visits` counts how often the vehicle paths use it.
#[derive(Debug)]
pub struct Street {
    pub from: usize,
    pub to: usize,
    pub name: String,
    pub transit: usize,
    pub visits: usize,
}

/// What a street is, with its name as a sequence of characters.
pub ghost struct StreetView {
    pub from: usize,
    pub to: usize,
    pub name: Seq<char>,
    pub transit: usize,
    pub visits: usize,
}

impl View for Street {
    type V = StreetView;

    open spec fn view(&self) -> StreetView {
        StreetView {
            from: self.from,
            to: self.to,
            name: self.name@,
            transit: self.transit,
            visits: self.visits,
        }
    }
}

/// The street that a line of text describes: its four words are the start,
/// the end, the name and the transit time. A line with fewer or with more
/// words, or with something else than a number in one of the three places,
/// describes none.
pub open spec fn street_of_line(line: Seq<char>) -> Option<StreetView> {
    let w = words(line);
    if w.len() == 4 && small_number(w[0]) is Some && small_number(w[1]) is Some && small_number(
        w[3],
    ) is Some {
        Some(
            StreetView {
                from: small_number(w[0])->0,
                to: small_number(w[1])->0,
                name: w[2],
                transit: small_number(w[3])->0,
                visits: 0,
            },
        )
    } else {
        None
    }
}

impl Street {
    /// A street that no path has used yet.
    pub fn new(from: usize, to: usize, name: String, transit: usize) -> (street: Street)
        ensures
            street@ == (StreetView { from, to, name: name@, transit, visits: 0 }),
    {
        Street { from, to, name, transit, visits: 0 }
    }

    /// Reads a street from the characters of one line.
    pub fn from_chars(line: &[char]) -> (street: Option<Street>)
        ensures
            match street {
                Some(s) => street_of_line(line@) == Some(s@),
                None => street_of_line(line@) is None,
            },
    {
        let spans = word_spans(line);
        if spans.len() != 4 {
            return None;
        }
        let from = match parse_number(slice_subrange(line, spans[0].0, spans[0].1)) {
            Some(n) => n,
            None => {
                return None;
            },
        };
        let to = match parse_number(slice_subrange(line, spans[1].0, spans[1].1)) {
            Some(n) => n,
            None => {
                return None;
            },
        };
        let name = string_of(slice_subrange(line, spans[2].0, spans[2].1));
        let transit = match parse_number(slice_subrange(line, spans[3].0, spans[3].1)) {
            Some(n) => n,
            None => {
                return None;
            },
        };
        Some(Street::new(from, to, name, transit))
    }

    /// Reads a street from one line of text.
    pub fn from_str(raw: &str) -> (street: Option<Street>)
        ensures
            match street {
                Some(s) => street_of_line(raw@) == Some(s@),
                None => street_of_line(raw@) is None,
            },
    {
        let line = chars_of(raw);
        Street::from_chars(line.as_slice())
    }
}

} // verus!
