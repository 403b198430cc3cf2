use advent_lib::geometry::point2;
use advent_lib::grid::Indexed;
use advent_lib::linear_solver::{LinearEquation, LinearEquationSet};
use advent_lib::numbers::PositiveNumbersFrom;
use advent_lib::parsing::{self, ErrorKind};
use advent_lib::rgb::RGB;
use advent_lib::search::{
    breadth_first_search, depth_first_search, find_max_nonoverlapping_combination, VisitedSet, Visitor,
};
use advent_lib::vec2::Vec2;

#[test]
fn best_pair_without_shared_bits() {
    // Keys and scores: the best pair must not share a bit of its key.
    let input: Vec<(u64, (char, u64))> = vec![
        (0b0011, ('a', 10)),
        (0b0101, ('b', 9)),
        (0b1000, ('c', 3)),
        (0b0110, ('d', 8)),
        (0b1001, ('e', 7)),
    ];
    let (x, y) = find_max_nonoverlapping_combination(&input, |t: &(char, u64)| t.1, 2);
    // a+c = 13 (keys 0011 & 1000 = 0); a+d share bit 2; b+e share bit 1
    // b (bucket 01) + ... d (bucket 10) share 0100; e (01) + d (10) = 15
    assert_eq!((x.0, y.0), ('e', 'd'));
}

#[test]
fn best_pair_with_single_candidate() {
    let input: Vec<(u64, u64)> = vec![(0b01, 5), (0b10, 6), (0b11, 100)];
    let (x, y) = find_max_nonoverlapping_combination(&input, |s: &u64| *s, 1);
    assert_eq!((x, y), (6, 5));
}

#[test]
fn best_pair_with_a_score_past_half_the_range() {
    let big = u64::MAX - 10;
    let input: Vec<(u64, u64)> = vec![(0b01, big), (0b10, 7), (0b10, 3)];
    let (x, y) = find_max_nonoverlapping_combination(&input, |s: &u64| *s, 2);
    assert_eq!((x, y), (big, 7));
}

#[test]
fn colours_parse_and_print() {
    assert_eq!(RGB::parse(b"#ff8000"), Ok((7, RGB { red: 255, green: 128, blue: 0 })));
    assert_eq!(RGB::parse(b"ff8000"), Err(ErrorKind::Tag));
    assert_eq!(RGB::parse(b"#ff80"), Err(ErrorKind::TakeWhileMN));
    assert_eq!(RGB::parse(b"#ff80g0"), Err(ErrorKind::TakeWhileMN));
    let c = RGB { red: 255, green: 8, blue: 0 };
    assert_eq!(c.to_u32(), 0xff0800);
    assert_eq!(c.to_string(), "#ff80");
}

#[test]
fn hex_bytes() {
    assert_eq!(parsing::hex8(b"7fz"), Ok((2, 127)));
    assert_eq!(parsing::hex8(b"A0"), Ok((2, 160)));
    assert_eq!(parsing::hex8(b"7"), Err(ErrorKind::Eof));
    assert_eq!(parsing::hex8(b"x7"), Err(ErrorKind::Char));
    assert_eq!(parsing::hex_decode(b'f'), Some(15));
    assert_eq!(parsing::hex_decode(b'G'), None);
}

#[test]
fn single_bytes() {
    assert_eq!(parsing::single(b"ab", b'a'), Ok((1, b'a')));
    assert_eq!(parsing::single(b"ab", b'b'), Err(ErrorKind::Char));
    assert_eq!(parsing::single(b"", b'b'), Err(ErrorKind::Eof));
    assert_eq!(parsing::single_digit(b"7"), Ok((1, b'7')));
    assert_eq!(parsing::single_space(b" x"), Ok((1, b' ')));
    assert_eq!(parsing::char_alpha(b"Q1"), Ok((1, 'Q')));
    assert_eq!(parsing::char_alpha(b"1Q"), Err(ErrorKind::Char));
    assert_eq!(parsing::double_line_ending(b"\n\nrest"), Ok((2, 2)));
    assert_eq!(parsing::double_line_ending(b"\r\n\r\n"), Ok((4, 4)));
    assert_eq!(parsing::double_line_ending(b"\nx"), Err(ErrorKind::CrLf));
}

#[test]
fn numbers_and_lines() {
    assert_eq!(parsing::parse_u64_at(b"ab123c", 2), Ok((3, 123)));
    assert_eq!(parsing::parse_u64_at(b"abc", 1), Err(ErrorKind::Digit));
    assert_eq!(parsing::parse_i32_text(b"-42"), Some(-42));
    assert_eq!(parsing::parse_i32_text(b"2147483648"), None);
    assert_eq!(parsing::split_lines(b"ab\r\nc\n\nd\n\n"), vec![(0, 2), (4, 1), (6, 0), (7, 1)]);
    assert_eq!(parsing::split_lines(b"\n\n"), vec![]);
}

#[test]
fn vectors_parse_and_add() {
    assert_eq!(Vec2::<i32>::parse(b"3,-4"), Ok(Vec2 { x: 3, y: -4 }));
    assert_eq!(Vec2::<i32>::parse(b"3;4"), Err(()));
    assert_eq!(Vec2::<i32>::parse(b"3,"), Err(()));
    assert_eq!(Vec2 { x: 1, y: 2 }.add(Vec2 { x: 10, y: -20 }), Vec2 { x: 11, y: -18 });
}

#[test]
fn counting_numbers() {
    let n = PositiveNumbersFrom(5usize);
    assert_eq!(n.nth(0), 5);
    assert_eq!(n.nth(3), 8);
    assert_eq!(n.take(3), vec![5, 6, 7]);
    assert_eq!(n.take(0), Vec::<usize>::new());
}

#[test]
fn equations_are_padded() {
    let e = LinearEquation::<4, i64>::new(&[2, 3], 7);
    assert_eq!(e.params(), &[2, 3, 0, 0]);
    assert_eq!(e.result(), 7);
    assert_eq!(e.param_length(), 2);
    let f = LinearEquation::<4, i64>::new(&[1, 1], 1);
    let set = LinearEquationSet::new(vec![e, f]);
    assert_eq!(set.len(), 2);
    assert_eq!(set.param_length(), 2);
    assert_eq!(set.index(1).result(), 1);
}

#[test]
fn indexed_walks_rows() {
    let values = [1, 2, 3, 4, 5];
    let mut it = Indexed::new(&values, 2);
    assert_eq!(it.next(), Some((point2(0, 0), &1)));
    assert_eq!(it.next(), Some((point2(1, 0), &2)));
    assert_eq!(it.next(), Some((point2(0, 1), &3)));
    assert_eq!(it.next(), Some((point2(1, 1), &4)));
    assert_eq!(it.next(), Some((point2(0, 2), &5)));
    assert_eq!(it.next(), None);
}

use advent_lib::builder::{with, with_default};
use advent_lib::convert::Convert;
use advent_lib::iter_utils::{CountIf, SumWith};
use advent_lib::timing::format_time;

#[test]
fn building_values() {
    assert_eq!(with(vec![1u8], |v: &mut Vec<u8>| v.push(2)), vec![1, 2]);
    assert_eq!(with_default(|v: &mut Vec<u8>| v.push(3)), vec![3]);
    assert_eq!(with_default(|n: &mut u32| *n += 7), 7);
}

#[derive(Debug, PartialEq)]
struct Doubled(u32);

impl Convert<u8> for Doubled {
    fn convert(value: u8) -> Self {
        Doubled(value as u32 * 2)
    }
}

#[test]
fn converting_vectors() {
    let converted: Vec<Doubled> = Convert::convert(vec![1u8, 2, 200]);
    assert_eq!(converted, vec![Doubled(2), Doubled(4), Doubled(400)]);
    let empty: Vec<Doubled> = Convert::convert(Vec::<u8>::new());
    assert!(empty.is_empty());
}

#[test]
fn counting_and_summing() {
    let values = [3u32, 8, 1, 9, 4];
    assert_eq!(values.as_slice().count_if(|v: &u32| *v > 3), 3);
    assert_eq!(values.as_slice().sum_with(|v: &u32| *v as u64 * 10), 250);
    let none: [u32; 0] = [];
    assert_eq!(none.as_slice().count_if(|_: &u32| true), 0);
}

#[test]
fn grouped_durations() {
    assert_eq!(format_time(0), "0");
    assert_eq!(format_time(999), "999");
    assert_eq!(format_time(1000), "1,000");
    assert_eq!(format_time(1234567), "1,234,567");
}

#[test]
fn depth_first_search_visits_reachable_states() {
    let edges: Vec<Vec<usize>> = vec![vec![1, 2], vec![3], vec![], vec![1, 7], vec![0]];
    let mut visited = VisitedSet::new(5);
    depth_first_search(0usize, |x: usize| edges[x].clone(), &mut visited);
    let marks: Vec<bool> = (0..6).map(|i| visited.is_visited(i)).collect();
    assert_eq!(marks, vec![false, true, true, true, false, false]);
}

#[test]
fn breadth_first_search_visits_reachable_states() {
    let edges: Vec<Vec<usize>> = vec![vec![1, 2], vec![3], vec![], vec![1, 0], vec![0]];
    let mut visited = VisitedSet::new(5);
    breadth_first_search(0usize, |x: usize| edges[x].clone(), &mut visited);
    let marks: Vec<bool> = (0..5).map(|i| visited.is_visited(i)).collect();
    assert_eq!(marks, vec![true, true, true, true, false]);
}

#[test]
fn visited_set_accepts_each_state_once() {
    let mut visited = VisitedSet::new(3);
    assert!(visited.visit(2));
    assert!(!visited.visit(2));
    assert!(!visited.visit(3));
    assert!(visited.is_visited(2));
    assert!(!visited.is_visited(0));
}
