//! Traffic-signal scheduling for a road network.
//!
//! A network of one-way streets and a set of vehicle paths go in; for every
//! intersection that any vehicle reaches, an order of its incoming streets
//! (a green-light cycle) comes out. The work is done in three steps:
//!
//! 1. [`solver::Solver::from_str`] reads the problem from its text: the
//!    streets into a [`network::Network`], the paths into a
//!    [`demand::Demand`].
//! 2. [`usage::count_visits`] counts how often the paths go through each
//!    street.
//! 3. [`schedule::build`] lists, for each intersection that a used street
//!    leads to, its used incoming streets from the least visited to the most
//!    visited, and numbers them from one. Streets that are visited equally
//!    often stand in the order of their names.
//!
//! [`solver::Solver::solve`] does the second and the third step, and
//! [`solution::Solution::to_string`] writes the schedule as text.
//!
//! Every function states what it computes over plain sequences of characters
//! and numbers: a street is seen as a [`street::StreetView`], a schedule entry
//! as a [`solution::IntersectionView`], a problem as a [`solver::Problem`].
//! What a schedule has to be is said by [`schedule::is_schedule`], and
//! [`schedule::lemma_schedule_unique`] shows that this leaves no choice.

pub mod demand;
pub mod index;
pub mod name;
pub mod network;
pub mod path;
pub mod ranking;
pub mod schedule;
pub mod solution;
pub mod solver;
pub mod street;
pub mod text;
pub mod usage;
