use traffic_signals::demand::Demand;
use traffic_signals::network::Network;
use traffic_signals::path::Path;
use traffic_signals::solution::{Intersection, Solution};
use traffic_signals::street::Street;

fn path(names: &[&str]) -> Path {
    Path::new(names.iter().map(|n| n.to_string()).collect())
}

#[test]
fn a_new_street_has_no_visits() {
    let street = Street::new(3, 4, "main".to_string(), 9);
    assert_eq!(street.from, 3);
    assert_eq!(street.to, 4);
    assert_eq!(street.name, "main");
    assert_eq!(street.transit, 9);
    assert_eq!(street.visits, 0);
}

#[test]
fn a_street_is_read_from_its_line() {
    let street = Street::from_str("  2 0 rue-de-londres 1 ").unwrap();
    assert_eq!(street.from, 2);
    assert_eq!(street.to, 0);
    assert_eq!(street.name, "rue-de-londres");
    assert_eq!(street.transit, 1);
    assert_eq!(street.visits, 0);
}

#[test]
fn a_street_line_with_a_word_too_many_is_refused() {
    assert!(Street::from_str("0 1 A 5 9").is_none());
    assert!(Street::from_str("1 2 a 3 what ever").is_none());
    assert!(Street::from_str("0 1 A 5").is_some());
}

#[test]
fn a_street_line_with_a_word_missing_is_refused() {
    assert!(Street::from_str("1 2 a").is_none());
    assert!(Street::from_str("").is_none());
}

#[test]
fn a_street_line_needs_numbers_in_three_places() {
    assert!(Street::from_str("x 2 a 3").is_none());
    assert!(Street::from_str("1 y a 3").is_none());
    assert!(Street::from_str("1 2 a z").is_none());
    assert!(Street::from_str("-1 2 a 3").is_none());
    assert!(Street::from_str("1 2 3 4").is_some());
}

#[test]
fn a_path_line_drops_its_first_word() {
    let p = Path::from_str("3 a b  c\r");
    assert_eq!(p.streets, vec!["a".to_string(), "b".to_string(), "c".to_string()]);
    assert_eq!(p.len(), 3);
}

#[test]
fn the_count_on_a_path_line_is_not_looked_at() {
    assert_eq!(Path::from_str("7 a").streets, vec!["a".to_string()]);
    assert_eq!(Path::from_str("x a b").streets, vec!["a".to_string(), "b".to_string()]);
    assert!(Path::from_str("1").streets.is_empty());
    assert!(Path::from_str("").streets.is_empty());
}

#[test]
fn paths_are_the_same_when_their_streets_are() {
    assert!(path(&["a", "b"]).same_as(&path(&["a", "b"])));
    assert!(!path(&["a", "b"]).same_as(&path(&["b", "a"])));
    assert!(!path(&["a", "b"]).same_as(&path(&["a"])));
    assert!(path(&[]).same_as(&path(&[])));
    assert_eq!(path(&["a", "b"]).hash(), path(&["a", "b"]).hash());
}

#[test]
fn adding_a_path_twice_is_adding_it_once() {
    let mut once = Demand::new();
    assert!(once.add_path(path(&["a", "b"])));
    let mut twice = Demand::new();
    assert!(twice.add_path(path(&["a", "b"])));
    assert!(!twice.add_path(path(&["a", "b"])));
    assert_eq!(once.len(), 1);
    assert_eq!(twice.len(), 1);
    assert!(once.path(0).same_as(twice.path(0)));
}

#[test]
fn different_paths_are_both_kept_in_order() {
    let mut demand = Demand::new();
    assert!(demand.add_path(path(&["a", "b"])));
    assert!(demand.add_path(path(&["b", "a"])));
    assert!(demand.add_path(path(&["a"])));
    assert!(!demand.add_path(path(&["b", "a"])));
    assert_eq!(demand.len(), 3);
    assert_eq!(demand.path(1).streets, vec!["b".to_string(), "a".to_string()]);
    assert!(demand.contains(&path(&["a"])));
    assert!(!demand.contains(&path(&["b"])));
}

#[test]
fn a_street_is_found_by_its_name() {
    let mut network = Network::new();
    assert!(network.add_street(Street::new(0, 1, "first".to_string(), 2)));
    assert!(network.add_street(Street::new(1, 2, "second".to_string(), 3)));
    assert_eq!(network.len(), 2);
    assert_eq!(network.find("first"), Some(0));
    assert_eq!(network.find("second"), Some(1));
    assert_eq!(network.find("third"), None);
    assert_eq!(network.get_street("second").unwrap().transit, 3);
    assert!(network.get_street("").is_none());
    assert_eq!(network.street(0).name, "first");
}

#[test]
fn a_second_street_of_the_same_name_is_refused() {
    let mut network = Network::new();
    assert!(network.add_street(Street::new(0, 1, "a".to_string(), 2)));
    assert!(!network.add_street(Street::new(5, 6, "a".to_string(), 7)));
    assert_eq!(network.len(), 1);
    assert_eq!(network.get_street("a").unwrap().from, 0);
}

#[test]
fn many_streets_are_all_found() {
    let mut network = Network::new();
    for i in 0..500 {
        assert!(network.add_street(Street::new(i, i + 1, format!("s{}", i), 1)));
    }
    for i in 0..500 {
        assert_eq!(network.find(&format!("s{}", i)), Some(i));
    }
    assert_eq!(network.find("s500"), None);
}

#[test]
fn the_visits_of_one_street_are_set() {
    let mut network = Network::new();
    network.add_street(Street::new(0, 1, "a".to_string(), 2));
    network.add_street(Street::new(1, 2, "b".to_string(), 3));
    network.set_visits(1, 42);
    assert_eq!(network.street(0).visits, 0);
    assert_eq!(network.street(1).visits, 42);
    assert_eq!(network.street(1).name, "b");
    assert_eq!(network.find("b"), Some(1));
}

#[test]
fn the_streets_into_an_intersection_are_listed() {
    let mut network = Network::new();
    network.add_street(Street::new(0, 1, "a".to_string(), 2));
    network.add_street(Street::new(1, 2, "b".to_string(), 3));
    network.add_street(Street::new(3, 1, "c".to_string(), 3));
    assert_eq!(network.streets_incoming_to(1), vec!["a".to_string(), "c".to_string()]);
    assert_eq!(network.streets_incoming_to(2), vec!["b".to_string()]);
    assert!(network.streets_incoming_to(0).is_empty());
}

#[test]
fn an_entry_is_written_line_by_line() {
    let entry = Intersection::new(7, vec![("x".to_string(), 1), ("yy".to_string(), 2)]);
    assert_eq!(entry.id, 7);
    assert_eq!(entry.to_string(), "7\n2\nx 1\nyy 2");
    assert_eq!(Intersection::new(0, vec![]).to_string(), "0\n0");
}

#[test]
fn a_new_schedule_is_empty() {
    let solution = Solution::new();
    assert_eq!(solution.len(), 0);
    assert!(solution.get(0).is_none());
    assert_eq!(solution.to_string(), "0");
}

#[test]
fn entries_are_kept_in_the_order_of_their_ids() {
    let mut solution = Solution::new();
    solution.insert(Intersection::new(5, vec![("e".to_string(), 1)]));
    solution.insert(Intersection::new(2, vec![("b".to_string(), 1)]));
    solution.insert(Intersection::new(9, vec![("i".to_string(), 1)]));
    solution.insert(Intersection::new(3, vec![("c".to_string(), 1)]));
    assert_eq!(solution.len(), 4);
    let ids: Vec<usize> = (0..4).map(|k| solution.entry(k).id).collect();
    assert_eq!(ids, vec![2, 3, 5, 9]);
    assert_eq!(solution.to_string(), "4\n2\n1\nb 1\n3\n1\nc 1\n5\n1\ne 1\n9\n1\ni 1");
}

#[test]
fn a_second_entry_for_an_intersection_changes_nothing() {
    let mut solution = Solution::new();
    solution.insert(Intersection::new(5, vec![("e".to_string(), 1)]));
    solution.insert(Intersection::new(5, vec![("other".to_string(), 1)]));
    assert_eq!(solution.len(), 1);
    assert_eq!(solution.get(5).unwrap().incoming, vec![("e".to_string(), 1)]);
}
