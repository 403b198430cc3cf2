use advent_lib::aoc2025::{day1, day3, day4, day5, day6, day7, day8, day9};
use advent_lib::parsing::ErrorKind;

const DIAL_EXAMPLE: &[u8] = b"L68\nL30\nR48\nL5\nR60\nL55\nL1\nL99\nR14\nL82\n";

#[test]
fn dial_example() {
    let turns = day1::parse_turns(DIAL_EXAMPLE).unwrap();
    assert_eq!(turns.len(), 10);
    assert_eq!(turns[0], day1::Turn(-68));
    assert_eq!(turns[2], day1::Turn(48));
    assert_eq!(day1::calculate_part1(&turns), 3);
    assert_eq!(day1::calculate_part2(&turns), 6);
}

#[test]
fn dial_full_rotations_count_every_pass() {
    let turns = vec![day1::Turn(1000)];
    assert_eq!(day1::calculate_part2(&turns), 10);
    let turns = vec![day1::Turn(-50), day1::Turn(-100)];
    assert_eq!(day1::calculate_part1(&turns), 2);
    assert_eq!(day1::calculate_part2(&turns), 2);
}

#[test]
fn dial_turn_parse_errors() {
    assert_eq!(day1::Turn::parse(b"X5"), Err(ErrorKind::OneOf));
    assert_eq!(day1::Turn::parse(b"L"), Err(ErrorKind::Digit));
    assert_eq!(day1::Turn::parse(b"R99999999999"), Err(ErrorKind::Digit));
    assert_eq!(day1::Turn::parse(b"R12x"), Ok((3, day1::Turn(12))));
    assert!(day1::parse_turns(b"L5\n\nR3").is_none());
}

const BANK_EXAMPLE: &[u8] = b"987654321111111\n811111111111119\n234234234234278\n818181911112111\n";

#[test]
fn joltage_example() {
    let banks = day3::parse_banks(BANK_EXAMPLE).unwrap();
    assert_eq!(banks.len(), 4);
    assert_eq!(day3::calculate_part1(&banks), 357);
    assert_eq!(day3::calculate_part2(&banks), 3121910778619);
}

#[test]
fn joltage_of_single_banks() {
    let bank = day3::Bank { batteries: vec![8, 1, 1, 1, 9] };
    assert_eq!(bank.largest_joltage(2), 89);
    assert_eq!(bank.largest_joltage(1), 9);
    assert_eq!(bank.search_largest_joltage(0, 1), (0, 8));
    assert_eq!(bank.largest_joltage(0), 0);
}

const BOXES: &[u8] = b"162,817,812\n57,618,57\n906,360,560\n592,479,940\n352,342,300\n466,668,158\n542,29,236\n431,825,988\n739,650,466\n52,470,668\n216,146,977\n819,987,18\n117,168,530\n805,96,715\n346,949,466\n970,615,88\n941,993,340\n862,61,35\n984,92,344\n425,690,689\n";

#[test]
fn playground_example() {
    let points = day8::parse_points(BOXES).unwrap();
    assert_eq!(points.len(), 20);
    let pairs = day8::sorted_distances(&points);
    assert_eq!(pairs.len(), 190);
    assert_eq!((pairs[0].1, pairs[0].2), (0, 19));
    assert_eq!(day8::calculate_part1(points.len(), &pairs), 40);
    assert_eq!(day8::calculate_part2(&points, &pairs), 25272);
}

#[test]
fn playground_small() {
    let points = day8::parse_points(b"0,0,0\n10,0,0\n1,0,0\n").unwrap();
    let pairs = day8::sorted_distances(&points);
    assert_eq!(pairs, vec![(1, 0, 2), (81, 1, 2), (100, 0, 1)]);
    assert_eq!(day8::calculate_part1(3, &pairs), 3);
    assert_eq!(day8::calculate_part2(&points, &pairs), 10);
    assert!(day8::parse_points(b"1,2\n").is_none());
    assert!(day8::parse_points(b"1,2,x\n").is_none());
}

#[test]
fn cafeteria_example() {
    let input = day5::parse_input(b"3-5\n10-14\n16-20\n12-18\n\n1\n5\n8\n11\n17\n32\n").unwrap();
    assert_eq!(input.ranges, vec![(3, 5), (10, 14), (16, 20), (12, 18)]);
    assert_eq!(input.ingredients, vec![1, 5, 8, 11, 17, 32]);
    assert_eq!(day5::calculate_part1(&input), 3);
}

#[test]
fn cafeteria_layout_errors() {
    assert!(day5::parse_input(b"3-5\n1\n").is_none());
    assert!(day5::parse_input(b"\n1\n").is_none());
    assert!(day5::parse_input(b"3-5\n\n").is_none());
    assert!(day5::parse_input(b"3-x\n\n1\n").is_none());
    assert!(day5::parse_input(b"3-5\n\n1a\n").is_none());
}

const ROLLS: &[u8] = b"..@@.@@@@.\n@@@.@.@.@@\n@@@@@.@.@@\n@.@@@@..@.\n@@.@@@@.@@\n.@@@@@@@.@\n.@.@.@.@@@\n@.@@@.@@@@\n.@@@@@@@@.\n@.@.@@@.@.\n";

#[test]
fn printing_department_example() {
    let (_, grid) = day4::parse_input(ROLLS).unwrap();
    assert_eq!(grid.width(), 10);
    assert_eq!(grid.height(), 10);
    assert_eq!(day4::calculate_part1(&grid), 13);
    assert_eq!(day4::calculate_part2(&grid), 43);
}

#[test]
fn printing_department_rejects_other_bytes() {
    assert_eq!(day4::parse_input(b"..@\n.x@\n").err(), Some(ErrorKind::Char));
    assert_eq!(day4::parse_input(b"..@\n.@\n").err(), Some(ErrorKind::LengthValue));
}

const MANIFOLD: &[u8] = b".......S.......\n...............\n.......^.......\n...............\n......^.^......\n...............\n.....^.^.^.....\n...............\n....^.^...^....\n...............\n...^.^...^.^...\n...............\n..^...^.....^..\n...............\n.^.^.^.^.^...^.\n...............\n";

#[test]
fn laboratories_example() {
    let (_, grid) = day7::parse_input(MANIFOLD).unwrap();
    assert_eq!(grid.width(), 15);
    assert_eq!(grid.height(), 16);
    assert_eq!(day7::calculate_part1(&grid), Some(21));
    assert_eq!(day7::calculate_part2(&grid), Some(40));
}

#[test]
fn laboratories_single_splitter() {
    let (_, grid) = day7::parse_input(b"..S..\n.....\n..^..\n.....\n").unwrap();
    assert_eq!(day7::calculate_part1(&grid), Some(1));
    assert_eq!(day7::calculate_part2(&grid), Some(2));
    assert_eq!(day7::parse_input(b"..S..\n..x..\n").err(), Some(advent_lib::parsing::ErrorKind::Char));
}

const RED_TILES: &[u8] = b"7,1\n11,1\n11,7\n9,7\n9,5\n2,5\n2,3\n7,3\n";

#[test]
fn movie_theater_example() {
    let tiles = day9::parse_input(RED_TILES).unwrap();
    assert_eq!(tiles.len(), 8);
    assert_eq!(day9::calculate_part1(&tiles), 50);
    assert!(day9::parse_input(b"7;1\n").is_none());
}

#[test]
fn movie_theater_areas_that_pass_a_filter() {
    let tiles = day9::parse_input(RED_TILES).unwrap();
    let narrow = day9::find_area(&tiles, |b| b.max_point().x() - b.min_point().x() <= 2);
    assert_eq!(narrow, Some(21));
    assert_eq!(day9::find_area(&tiles, |_| false), None);
    assert_eq!(day9::find_area(&[], |_| true), None);
}

const WORKSHEET: &[u8] = b"123 328  51 64 \n 45 64  387 23 \n  6 98  215 314\n*   +   *   +  \n";

#[test]
fn trash_compactor_example() {
    let sheet = day6::parse_input(WORKSHEET).unwrap();
    assert_eq!(sheet.lines.len(), 3);
    assert_eq!(sheet.operations, vec![('*', 3), ('+', 3), ('*', 3), ('+', 3)]);
    assert_eq!(day6::calculate_part1(&sheet), Some(4277556));
    assert_eq!(day6::calculate_part2(&sheet), Some(3263827));
}

#[test]
fn trash_compactor_rejects_and_overflows() {
    assert!(day6::parse_input(b"12 3\n*+ \n").is_none());
    assert!(day6::parse_input(b"10 3\n* + \n").is_none());
    assert!(day6::parse_input(b"12 3\n").is_none());
    let sheet = day6::parse_input(b"99999999999 99999999999\n* +\n").unwrap();
    assert_eq!(day6::calculate_part1(&sheet), Some(99999999999 + 99999999999));
    let sheet = day6::parse_input(b"99999999999\n99999999999\n* \n").unwrap();
    assert_eq!(day6::calculate_part1(&sheet), None);
    let sheet = day6::parse_input(b"1 2\n* + \n").unwrap();
    assert_eq!(day6::calculate_part1(&sheet), Some(3));
    assert_eq!(day6::calculate_part2(&sheet), Some(3));
}
