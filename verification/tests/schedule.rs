use traffic_signals::demand::Demand;
use traffic_signals::network::Network;
use traffic_signals::path::Path;
use traffic_signals::schedule::build;
use traffic_signals::solver::Solver;
use traffic_signals::street::Street;
use traffic_signals::usage::{count_visits, is_consistent};

fn path(names: &[&str]) -> Path {
    Path::new(names.iter().map(|n| n.to_string()).collect())
}

fn network(streets: &[(usize, usize, &str, usize)]) -> Network {
    let mut network = Network::new();
    for (from, to, name, transit) in streets {
        assert!(network.add_street(Street::new(*from, *to, name.to_string(), *transit)));
    }
    network
}

fn demand(paths: &[&[&str]]) -> Demand {
    let mut demand = Demand::new();
    for names in paths {
        demand.add_path(path(names));
    }
    demand
}

fn visits(network: &Network, name: &str) -> usize {
    network.get_street(name).unwrap().visits
}

#[test]
fn two_streets_two_paths_give_the_expected_text() {
    let input = "6 3 2 2 1000\n0 1 A 5\n2 1 B 3\n1 A\n2 A B\n";
    let mut solver = Solver::from_str(input).unwrap();
    let solution = solver.solve();
    assert_eq!(visits(&solver.streets, "A"), 2);
    assert_eq!(visits(&solver.streets, "B"), 1);
    assert_eq!(solution.len(), 1);
    let entry = solution.get(1).unwrap();
    assert_eq!(entry.id, 1);
    assert_eq!(entry.incoming, vec![("B".to_string(), 1), ("A".to_string(), 2)]);
    assert_eq!(solution.to_string(), "1\n1\n2\nB 1\nA 2");
}

#[test]
fn a_street_used_twice_on_one_path_counts_twice() {
    let mut streets = network(&[(0, 1, "a", 1), (1, 0, "b", 1), (1, 2, "c", 1)]);
    let paths = demand(&[&["a", "b", "a"], &["b"], &["a", "b", "a"]]);
    assert_eq!(paths.len(), 2);
    assert!(is_consistent(&streets, &paths));
    count_visits(&mut streets, &paths);
    assert_eq!(visits(&streets, "a"), 2);
    assert_eq!(visits(&streets, "b"), 2);
    assert_eq!(visits(&streets, "c"), 0);
}

#[test]
fn counting_again_gives_the_same_counts() {
    let mut streets = network(&[(0, 1, "a", 1), (1, 0, "b", 1)]);
    let paths = demand(&[&["a", "b"], &["a"]]);
    count_visits(&mut streets, &paths);
    count_visits(&mut streets, &paths);
    assert_eq!(visits(&streets, "a"), 2);
    assert_eq!(visits(&streets, "b"), 1);
}

#[test]
fn places_run_from_one_without_gaps() {
    let mut streets = network(&[
        (0, 9, "p", 1),
        (1, 9, "q", 1),
        (2, 9, "r", 1),
        (3, 9, "s", 1),
        (9, 0, "t", 1),
    ]);
    let paths = demand(&[&["p", "q", "r"], &["q", "r"], &["r"], &["t", "t"]]);
    count_visits(&mut streets, &paths);
    let solution = build(&streets);
    let entry = solution.get(9).unwrap();
    let places: Vec<usize> = entry.incoming.iter().map(|item| item.1).collect();
    assert_eq!(places, vec![1, 2, 3]);
    let names: Vec<&str> = entry.incoming.iter().map(|item| item.0.as_str()).collect();
    assert_eq!(names, vec!["p", "q", "r"]);
}

#[test]
fn earlier_places_have_no_more_visits() {
    let mut streets = network(&[(0, 5, "x", 1), (1, 5, "y", 1), (2, 5, "z", 1)]);
    let paths = demand(&[&["z"], &["y", "y", "y"], &["x", "x"]]);
    count_visits(&mut streets, &paths);
    let solution = build(&streets);
    let entry = solution.get(5).unwrap();
    assert_eq!(
        entry.incoming,
        vec![("z".to_string(), 1), ("x".to_string(), 2), ("y".to_string(), 3)]
    );
    let counts: Vec<usize> =
        entry.incoming.iter().map(|item| visits(&streets, item.0.as_str())).collect();
    assert_eq!(counts, vec![1, 2, 3]);
}

#[test]
fn equal_visits_are_ordered_by_name() {
    let mut streets = network(&[
        (0, 1, "delta", 1),
        (2, 1, "alpha", 1),
        (3, 1, "charlie", 1),
        (4, 1, "alp", 1),
    ]);
    let paths = demand(&[&["delta", "alpha", "charlie", "alp"]]);
    count_visits(&mut streets, &paths);
    let solution = build(&streets);
    assert_eq!(
        solution.get(1).unwrap().incoming,
        vec![
            ("alp".to_string(), 1),
            ("alpha".to_string(), 2),
            ("charlie".to_string(), 3),
            ("delta".to_string(), 4)
        ]
    );
}

#[test]
fn an_intersection_without_used_streets_has_no_entry() {
    let mut streets = network(&[(0, 1, "used", 1), (0, 2, "idle", 1), (3, 2, "quiet", 1)]);
    let paths = demand(&[&["used"]]);
    count_visits(&mut streets, &paths);
    let solution = build(&streets);
    assert_eq!(solution.len(), 1);
    assert!(solution.get(1).is_some());
    assert!(solution.get(2).is_none());
    assert!(solution.get(0).is_none());
    assert_eq!(solution.to_string(), "1\n1\n1\nused 1");
}

#[test]
fn an_unused_street_is_left_out_of_its_entry() {
    let mut streets = network(&[(0, 1, "busy", 1), (2, 1, "idle", 1)]);
    let paths = demand(&[&["busy"]]);
    count_visits(&mut streets, &paths);
    let solution = build(&streets);
    assert_eq!(solution.get(1).unwrap().incoming, vec![("busy".to_string(), 1)]);
}

#[test]
fn no_paths_give_the_empty_schedule() {
    let mut streets = network(&[(0, 1, "a", 1)]);
    let paths = demand(&[]);
    count_visits(&mut streets, &paths);
    let solution = build(&streets);
    assert_eq!(solution.len(), 0);
    assert_eq!(solution.to_string(), "0");
}

#[test]
fn entries_come_in_the_order_of_their_ids() {
    let mut streets = network(&[(0, 30, "c", 1), (0, 10, "a", 1), (0, 20, "b", 1)]);
    let paths = demand(&[&["c", "b", "a"]]);
    count_visits(&mut streets, &paths);
    let solution = build(&streets);
    assert_eq!(solution.len(), 3);
    assert_eq!(solution.entry(0).id, 10);
    assert_eq!(solution.entry(1).id, 20);
    assert_eq!(solution.entry(2).id, 30);
    assert_eq!(solution.to_string(), "3\n10\n1\na 1\n20\n1\nb 1\n30\n1\nc 1");
}

#[test]
fn solve_leaves_the_rest_of_the_problem_alone() {
    let streets = network(&[(0, 1, "a", 7), (1, 0, "b", 8)]);
    let paths = demand(&[&["a", "b"]]);
    let mut solver = Solver::new(12, 34, streets, paths);
    assert!(solver.is_ready());
    let solution = solver.solve();
    assert_eq!(solver.max_duration, 12);
    assert_eq!(solver.bonus_points, 34);
    assert_eq!(solver.paths.len(), 1);
    assert_eq!(solver.streets.len(), 2);
    let a = solver.streets.get_street("a").unwrap();
    assert_eq!((a.from, a.to, a.transit, a.visits), (0, 1, 7, 1));
    assert_eq!(solution.to_string(), "2\n0\n1\nb 1\n1\n1\na 1");
}

#[test]
fn a_path_through_an_unknown_street_is_not_consistent() {
    let streets = network(&[(0, 1, "a", 1)]);
    let paths = demand(&[&["a", "nowhere"]]);
    assert!(!is_consistent(&streets, &paths));
    let solver = Solver::new(1, 1, streets, paths);
    assert!(!solver.is_ready());
}
