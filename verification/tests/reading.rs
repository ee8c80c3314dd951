use traffic_signals::name::{hash_name, rank, Rank};
use traffic_signals::solver::{parse_header, Solver};
use traffic_signals::text::{
    chars_of, line_spans, parse_number, push_decimal, space, string_of, trim, word_spans,
};

fn chars(s: &str) -> Vec<char> {
    s.chars().collect()
}

fn words(s: &str) -> Vec<String> {
    let c = chars(s);
    word_spans(&c).iter().map(|(a, b)| c[*a..*b].iter().collect()).collect()
}

fn lines(s: &str) -> Vec<String> {
    let c = chars(s);
    line_spans(&c).iter().map(|(a, b)| c[*a..*b].iter().collect()).collect()
}

fn number(s: &str) -> Option<usize> {
    parse_number(&chars(s))
}

fn decimal(n: usize) -> String {
    let mut out = String::from(">");
    push_decimal(&mut out, n);
    out
}

#[test]
fn the_characters_of_a_text_come_in_order() {
    assert_eq!(chars_of("a b\u{e9}"), vec!['a', ' ', 'b', '\u{e9}']);
    assert!(chars_of("").is_empty());
}

#[test]
fn a_string_is_made_of_its_characters() {
    assert_eq!(string_of(&['a', 'b', '\u{e9}']), "ab\u{e9}");
    assert_eq!(string_of(&[]), "");
}

#[test]
fn white_space_is_what_unicode_says() {
    for c in [' ', '\t', '\n', '\r', '\u{b}', '\u{c}', '\u{85}', '\u{a0}', '\u{2003}', '\u{3000}'] {
        assert!(space(c));
    }
    for c in ['a', '0', '_', '\u{200b}', '\u{1f}'] {
        assert!(!space(c));
    }
    for u in 0..0x3100u32 {
        if let Some(c) = char::from_u32(u) {
            assert_eq!(space(c), c.is_whitespace());
        }
    }
}

#[test]
fn words_are_cut_at_white_space() {
    assert_eq!(words("  one two\t\tthree \r"), vec!["one", "two", "three"]);
    assert_eq!(words("single"), vec!["single"]);
    assert!(words("").is_empty());
    assert!(words(" \t ").is_empty());
    assert_eq!(words("a\u{a0}b"), vec!["a", "b"]);
}

#[test]
fn lines_are_cut_at_line_feeds() {
    assert_eq!(lines("a\nb c\n\nd"), vec!["a", "b c", "", "d"]);
    assert_eq!(lines(""), vec![""]);
    assert_eq!(lines("a\n"), vec!["a", ""]);
    assert_eq!(lines("\n"), vec!["", ""]);
}

#[test]
fn trimming_takes_the_white_space_at_both_ends() {
    let c = chars(" \n a b \t\n");
    assert_eq!(trim(&c), &['a', ' ', 'b']);
    let d = chars(" \n ");
    assert!(trim(&d).is_empty());
    let e = chars("ab");
    assert_eq!(trim(&e), &['a', 'b']);
    assert!(trim(&[]).is_empty());
}

#[test]
fn numbers_are_read_in_decimal() {
    assert_eq!(number("0"), Some(0));
    assert_eq!(number("7"), Some(7));
    assert_eq!(number("1234567890"), Some(1234567890));
    assert_eq!(number("007"), Some(7));
    assert_eq!(number("+15"), Some(15));
    assert_eq!(number(&usize::MAX.to_string()), Some(usize::MAX));
}

#[test]
fn what_is_no_number_is_refused() {
    assert_eq!(number(""), None);
    assert_eq!(number("+"), None);
    assert_eq!(number("-1"), None);
    assert_eq!(number("++1"), None);
    assert_eq!(number("1+"), None);
    assert_eq!(number("12a"), None);
    assert_eq!(number("a12"), None);
    assert_eq!(number("1.5"), None);
    assert_eq!(number("\u{663}"), None);
}

#[test]
fn a_number_too_large_is_refused() {
    let mut big = usize::MAX.to_string();
    big.push('0');
    assert_eq!(number(&big), None);
    assert_eq!(number("340282366920938463463374607431768211456"), None);
    let digits = usize::MAX.to_string();
    let (head, last) = digits.split_at(digits.len() - 1);
    let next = format!("{}{}", head, last.parse::<u8>().unwrap() + 1);
    assert_eq!(number(&next), None);
}

#[test]
fn reading_agrees_with_the_standard_library() {
    for s in ["0", "+0", "00", "18446744073709551615", "18446744073709551616", "+", "", "9", "-0"] {
        assert_eq!(number(s), s.parse::<usize>().ok());
    }
}

#[test]
fn numbers_are_written_in_decimal() {
    assert_eq!(decimal(0), ">0");
    assert_eq!(decimal(9), ">9");
    assert_eq!(decimal(10), ">10");
    assert_eq!(decimal(1203), ">1203");
    assert_eq!(decimal(usize::MAX), format!(">{}", usize::MAX));
}

#[test]
fn what_is_written_is_read_back() {
    for n in [0usize, 1, 9, 10, 99, 100, 65535, 4294967295, usize::MAX] {
        assert_eq!(number(&decimal(n)[1..]), Some(n));
    }
}

#[test]
fn names_are_ordered_like_words_in_a_dictionary() {
    assert_eq!(rank("a", "b"), Rank::Before);
    assert_eq!(rank("b", "a"), Rank::After);
    assert_eq!(rank("a", "a"), Rank::Same);
    assert_eq!(rank("", ""), Rank::Same);
    assert_eq!(rank("", "a"), Rank::Before);
    assert_eq!(rank("ab", "abc"), Rank::Before);
    assert_eq!(rank("abd", "abc"), Rank::After);
    assert_eq!(rank("B", "a"), Rank::Before);
    assert_eq!(rank("z", "\u{e9}"), Rank::Before);
    assert_eq!(rank("\u{ffff}", "\u{10000}"), Rank::Before);
}

#[test]
fn the_order_of_names_is_that_of_strings() {
    let names = ["", "a", "ab", "b", "B", "rue", "rue-x", "\u{e9}", "z", "\u{10000}", "\u{ffff}"];
    for a in names {
        for b in names {
            let expected = if a < b {
                Rank::Before
            } else if a == b {
                Rank::Same
            } else {
                Rank::After
            };
            assert_eq!(rank(a, b), expected);
        }
    }
}

#[test]
fn equal_names_have_equal_hashes() {
    assert_eq!(hash_name("street"), hash_name(&String::from("street")));
    assert_eq!(hash_name(""), 0xcbf29ce484222325);
    assert_eq!(hash_name("a"), 0xaf63dc4c8601ec8c);
    assert_ne!(hash_name("ab"), hash_name("ba"));
}

#[test]
fn a_header_has_five_numbers() {
    assert_eq!(parse_header(&chars("6 4 5 2 1000")), Some((6, 4, 5, 2, 1000)));
    assert_eq!(parse_header(&chars(" 1 2 3 4 5 ")), Some((1, 2, 3, 4, 5)));
    assert_eq!(parse_header(&chars("1 2 3 4 5 6")), None);
    assert_eq!(parse_header(&chars("1 2 3 4")), None);
    assert_eq!(parse_header(&chars("1 2 3 4 x")), None);
    assert_eq!(parse_header(&chars("1 2 3 4 5 x")), None);
    assert_eq!(parse_header(&chars("")), None);
}

#[test]
fn a_problem_is_read_from_its_text() {
    let input = "\n  6 4 3 2 1000\n2 0 rue-a 1\n0 1 rue-b 2\n1 2 rue-c 3\n\
                 2 rue-a rue-b\n3 rue-c rue-a rue-b\n\n";
    let solver = Solver::from_str(input).unwrap();
    assert_eq!(solver.max_duration, 6);
    assert_eq!(solver.bonus_points, 1000);
    assert_eq!(solver.streets.len(), 3);
    assert_eq!(solver.paths.len(), 2);
    let b = solver.streets.get_street("rue-b").unwrap();
    assert_eq!((b.from, b.to, b.transit, b.visits), (0, 1, 2, 0));
    assert_eq!(solver.streets.street(2).name, "rue-c");
    assert_eq!(
        solver.paths.path(1).streets,
        vec!["rue-c".to_string(), "rue-a".to_string(), "rue-b".to_string()]
    );
    assert!(solver.is_ready());
}

#[test]
fn lines_after_the_last_path_do_not_count() {
    let input = "1 1 1 1 1\n0 1 a 1\n1 a\nthis is not read\n";
    let solver = Solver::from_str(input).unwrap();
    assert_eq!(solver.streets.len(), 1);
    assert_eq!(solver.paths.len(), 1);
}

#[test]
fn equal_path_lines_give_one_path() {
    let input = "1 2 2 3 1\n0 1 a 1\n1 0 b 1\n2 a b\n2 a  b\n1 a";
    let mut solver = Solver::from_str(input).unwrap();
    assert_eq!(solver.paths.len(), 2);
    let solution = solver.solve();
    assert_eq!(solver.streets.get_street("a").unwrap().visits, 2);
    assert_eq!(solver.streets.get_street("b").unwrap().visits, 1);
    assert_eq!(solution.to_string(), "2\n0\n1\nb 1\n1\n1\na 1");
}

#[test]
fn carriage_returns_at_line_ends_are_white_space() {
    let input = "1 2 2 1 1\r\n0 1 a 1\r\n1 0 b 1\r\n2 a b\r\n";
    let mut solver = Solver::from_str(input).unwrap();
    assert_eq!(solver.solve().to_string(), "2\n0\n1\nb 1\n1\n1\na 1");
}

#[test]
fn a_problem_without_streets_and_paths_is_read() {
    let mut solver = Solver::from_str("5 0 0 0 7").unwrap();
    assert_eq!(solver.streets.len(), 0);
    assert_eq!(solver.paths.len(), 0);
    assert_eq!(solver.solve().to_string(), "0");
}

#[test]
fn an_empty_text_is_refused() {
    assert!(Solver::from_str("").is_none());
    assert!(Solver::from_str(" \n\t\n").is_none());
}

#[test]
fn a_header_that_is_too_short_is_refused() {
    assert!(Solver::from_str("1 1 0 0").is_none());
}

#[test]
fn a_header_with_a_word_that_is_no_number_is_refused() {
    assert!(Solver::from_str("1 1 0 0 x").is_none());
    assert!(Solver::from_str("1 1 0 0 1 x").is_none());
    assert!(Solver::from_str("1 1 0 0 1 2").is_none());
    assert!(Solver::from_str("1 1 0 0 -1").is_none());
}

#[test]
fn missing_lines_are_refused() {
    assert!(Solver::from_str("1 1 2 0 1\n0 1 a 1").is_none());
    assert!(Solver::from_str("1 1 1 1 1\n0 1 a 1").is_none());
    assert!(Solver::from_str("1 1 1 1 1\n0 1 a 1\n").is_none());
    assert!(Solver::from_str("1 1 1 1 1\n0 1 a 1\n\n").is_none());
    let huge = format!("1 1 {} {} 1\n0 1 a 1\n1 a", usize::MAX, usize::MAX);
    assert!(Solver::from_str(&huge).is_none());
}

#[test]
fn a_street_line_that_is_no_street_is_refused() {
    assert!(Solver::from_str("1 1 1 0 1\n0 1 a").is_none());
    assert!(Solver::from_str("1 1 1 0 1\n0 1 a 1 9").is_none());
    assert!(Solver::from_str("1 1 1 0 1\n0 1 a 1").is_some());
    assert!(Solver::from_str("1 1 1 0 1\n0 x a 1").is_none());
    assert!(Solver::from_str("1 1 2 0 1\n0 1 a 1\n\n").is_none());
}

#[test]
fn two_streets_of_one_name_are_refused() {
    assert!(Solver::from_str("1 1 2 0 1\n0 1 a 1\n1 0 a 2").is_none());
}

#[test]
fn a_path_through_an_unknown_street_is_refused() {
    assert!(Solver::from_str("1 1 1 1 1\n0 1 a 1\n2 a b").is_none());
}

#[test]
fn an_empty_path_line_in_the_middle_is_an_empty_path() {
    let mut solver = Solver::from_str("1 1 1 2 1\n0 1 a 1\n\n1 a").unwrap();
    assert_eq!(solver.paths.len(), 2);
    assert!(solver.paths.path(0).streets.is_empty());
    assert_eq!(solver.solve().to_string(), "1\n1\n1\na 1");
}

#[test]
fn names_may_hold_any_characters_but_white_space() {
    let cafe = "caf\u{e9}";
    let road = "\u{4e2d}\u{5c71}\u{8def}";
    let input =
        format!("1 1 2 1 1\n0 1 {} 1\n2 1 {} 1\n2\u{a0}{}\u{2003}{}", cafe, road, cafe, road);
    let mut solver = Solver::from_str(&input).unwrap();
    assert_eq!(solver.paths.path(0).streets, vec![cafe.to_string(), road.to_string()]);
    assert_eq!(solver.solve().to_string(), format!("1\n1\n2\n{} 1\n{} 2", cafe, road));
}

#[test]
fn the_second_number_of_the_header_is_not_used() {
    let with_two = "1 2 1 1 1\n0 7 a 1\n1 a";
    let with_none = "1 0 1 1 1\n0 7 a 1\n1 a";
    let first = Solver::from_str(with_two).unwrap().solve().to_string();
    let second = Solver::from_str(with_none).unwrap().solve().to_string();
    assert_eq!(first, "1\n7\n1\na 1");
    assert_eq!(second, first);
}

#[test]
fn duration_and_bonus_do_not_change_the_schedule() {
    let first = Solver::from_str("1 1 1 1 1\n0 7 a 1\n1 a").unwrap().solve().to_string();
    let second = Solver::from_str("999 1 1 1 0\n0 7 a 1\n1 a").unwrap().solve().to_string();
    assert_eq!(first, second);
}

#[test]
fn a_path_line_said_again_gives_the_same_problem() {
    let once = "1 1 2 2 1\n0 1 a 1\n1 0 b 1\n2 a b\n1 a";
    let at_the_end = "1 1 2 3 1\n0 1 a 1\n1 0 b 1\n2 a b\n1 a\n7 a b";
    let in_the_middle = "1 1 2 3 1\n0 1 a 1\n1 0 b 1\n2 a b\n2 a  b\n1 a";
    let at_the_start = "1 1 2 3 1\n0 1 a 1\n1 0 b 1\n1 a\n2 a b\n1 a";
    let mut plain = Solver::from_str(once).unwrap();
    let expected = plain.solve().to_string();
    assert_eq!(expected, "2\n0\n1\nb 1\n1\n1\na 1");
    for text in [at_the_end, in_the_middle, at_the_start] {
        let mut solver = Solver::from_str(text).unwrap();
        assert_eq!(solver.max_duration, plain.max_duration);
        assert_eq!(solver.bonus_points, plain.bonus_points);
        assert_eq!(solver.streets.len(), plain.streets.len());
        assert_eq!(solver.paths.len(), plain.paths.len());
        for k in 0..plain.paths.len() {
            assert!(solver.paths.contains(plain.paths.path(k)));
        }
        assert_eq!(solver.solve().to_string(), expected);
        for k in 0..plain.streets.len() {
            assert_eq!(solver.streets.street(k).name, plain.streets.street(k).name);
            assert_eq!(solver.streets.street(k).visits, plain.streets.street(k).visits);
            assert_eq!(
                solver.streets.streets_incoming_to(solver.streets.street(k).to),
                plain.streets.streets_incoming_to(plain.streets.street(k).to)
            );
        }
    }
}

#[test]
fn a_path_line_said_again_after_its_twin_keeps_the_order_of_the_paths() {
    let once = Solver::from_str("1 1 2 2 1\n0 1 a 1\n1 0 b 1\n2 a b\n1 a").unwrap();
    let again = Solver::from_str("1 1 2 3 1\n0 1 a 1\n1 0 b 1\n2 a b\n5 a b\n1 a").unwrap();
    assert_eq!(again.paths.len(), 2);
    for k in 0..2 {
        assert!(again.paths.path(k).same_as(once.paths.path(k)));
    }
}
