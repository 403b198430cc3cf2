use advent_lib::aoc2022::grid::Grid;
use advent_lib::aoc2022::{day1, day10, day12, day2, day3, day4, day5, day6, day7, day8, day9};

const CALORIES: &[u8] = b"1000\n2000\n3000\n\n4000\n\n5000\n6000\n\n7000\n8000\n9000\n\n10000\n";

#[test]
fn calories_example() {
    let totals = day1::parse_input(CALORIES).unwrap();
    assert_eq!(totals, vec![4000, 6000, 10000, 11000, 24000]);
    assert_eq!(day1::calculate_part1(&totals), 24000);
    assert_eq!(day1::calculate_part2(&totals), 45000);
}

#[test]
fn calories_reject_words() {
    assert_eq!(day1::parse_input(b"1000\nabc\n"), None);
}

#[test]
fn calories_part2_with_fewer_than_three_elves() {
    assert_eq!(day1::calculate_part2(&[5, 7]), 12);
}

#[test]
fn rock_paper_scissors_example() {
    let games = day2::parse_input(b"A Y\nB X\nC Z\n").unwrap();
    assert_eq!(games.len(), 3);
    assert_eq!(day2::calculate_part1(&games), 15);
    assert_eq!(day2::calculate_part2(&games), 12);
}

#[test]
fn rock_paper_scissors_rejects_bad_rounds() {
    assert_eq!(day2::parse_input(b"A Y\nD X\n"), None);
    assert_eq!(day2::parse_input(b"AY\n"), None);
}

const PAIRS: &[u8] = b"2-4,6-8\n2-3,4-5\n5-7,7-9\n2-8,3-7\n6-6,4-6\n2-6,4-8\n";

#[test]
fn camp_cleanup_example() {
    let pairs = day4::parse_input(PAIRS).unwrap();
    assert_eq!(pairs.len(), 6);
    assert_eq!(pairs[0], ((2, 4), (6, 8)));
    assert_eq!(day4::calculate_part1(&pairs), 2);
    assert_eq!(day4::calculate_part2(&pairs), 4);
}

#[test]
fn camp_cleanup_containment() {
    assert!(day4::is_contained((2, 8), (3, 7)));
    assert!(!day4::is_contained((3, 7), (2, 8)));
    assert!(day4::is_contained((6, 6), (6, 6)));
    assert_eq!(day4::parse_pair(b"2-4,6-8x"), None);
    assert_eq!(day4::parse_pair(b"12-40,6-8"), Some(((12, 40), (6, 8))));
}

fn crate_stacks() -> (Vec<Vec<u8>>, Vec<day5::Command>) {
    let lines: Vec<Vec<u8>> = vec![
        b"    [D]    ".to_vec(),
        b"[N] [C]    ".to_vec(),
        b"[Z] [M] [P]".to_vec(),
        b" 1   2   3 ".to_vec(),
    ];
    let stacks = day5::parse_stacks(&lines);
    let moves: [&[u8]; 4] = [b"move 1 from 2 to 1", b"move 3 from 1 to 3", b"move 2 from 2 to 1", b"move 1 from 1 to 2"];
    let mut commands: Vec<day5::Command> = moves.iter().map(|m| day5::Command::from_str(m).unwrap()).collect();
    commands.reverse();
    (stacks, commands)
}

#[test]
fn supply_stacks_example() {
    let (stacks, commands) = crate_stacks();
    assert_eq!(stacks, vec![b"NZ".to_vec(), b"DCM".to_vec(), b"P".to_vec()]);
    assert_eq!(day5::calculate(&stacks, &commands, true), "CMZ");
    assert_eq!(day5::calculate(&stacks, &commands, false), "MCD");
}

#[test]
fn supply_stacks_whole_input() {
    let text = b"    [D]    \n[N] [C]    \n[Z] [M] [P]\n 1   2   3 \n\nmove 1 from 2 to 1\nmove 3 from 1 to 3\nmove 2 from 2 to 1\nmove 1 from 1 to 2\n";
    let (stacks, commands) = day5::parse_input(text);
    assert_eq!(stacks, vec![b"NZ".to_vec(), b"DCM".to_vec(), b"P".to_vec()]);
    assert_eq!(commands.len(), 4);
    assert_eq!(commands[0], day5::Command { count: 1, from_stack_ix: 0, to_stack_ix: 1 });
    assert_eq!(day5::calculate(&stacks, &commands, true), "CMZ");
    assert_eq!(day5::calculate(&stacks, &commands, false), "MCD");
}

#[test]
fn supply_stacks_commands() {
    assert_eq!(
        day5::Command::from_str(b"move 13 from 2 to 9"),
        Ok(day5::Command { count: 13, from_stack_ix: 1, to_stack_ix: 8 })
    );
    assert_eq!(day5::Command::from_str(b"move x from 1 to 2"), Err(()));
    assert_eq!(
        day5::Command::from_str(b"then move 2 from 3 to 4, twice"),
        Ok(day5::Command { count: 2, from_stack_ix: 2, to_stack_ix: 3 })
    );
    assert_eq!(
        day5::Command::from_str(b"move move 5 from 1 to 2"),
        Ok(day5::Command { count: 5, from_stack_ix: 0, to_stack_ix: 1 })
    );
    let p = day5::Position { stack_ix: 0, char_ix: 1 };
    let c = day5::Command { count: 3, from_stack_ix: 2, to_stack_ix: 0 };
    assert_eq!(p.trace_back_command(&c, true), day5::Position { stack_ix: 2, char_ix: 1 });
    assert_eq!(p.trace_back_command(&c, false), day5::Position { stack_ix: 2, char_ix: 1 });
    let p = day5::Position { stack_ix: 0, char_ix: 0 };
    assert_eq!(p.trace_back_command(&c, true), day5::Position { stack_ix: 2, char_ix: 2 });
    assert_eq!(p.trace_back_command(&c, false), day5::Position { stack_ix: 2, char_ix: 0 });
    let p = day5::Position { stack_ix: 2, char_ix: 0 };
    assert_eq!(p.trace_back_command(&c, false), day5::Position { stack_ix: 2, char_ix: 3 });
}

const SESSION: &[u8] = b"$ cd /\n$ ls\ndir a\n14848514 b.txt\n8504156 c.dat\ndir d\n$ cd a\n$ ls\ndir e\n29116 f\n2557 g\n62596 h.lst\n$ cd e\n$ ls\n584 i\n$ cd ..\n$ cd ..\n$ cd d\n$ ls\n4060174 j\n8033020 d.log\n5626152 d.ext\n7214296 k\n";

#[test]
fn no_space_left_example() {
    let sizes = day7::parse_input(SESSION).unwrap();
    assert_eq!(sizes, vec![584, 94853, 24933642, 48381165]);
    assert_eq!(day7::calculate_part1(&sizes), 95437);
    assert_eq!(day7::calculate_part2(&sizes), 24933642);
}

#[test]
fn no_space_left_commands() {
    assert_eq!(day7::Command::from_str(b"$ cd .."), Ok(day7::Command::CdUp));
    assert_eq!(day7::Command::from_str(b"$ cd x"), Ok(day7::Command::CdDown));
    assert_eq!(day7::Command::from_str(b"$ ls"), Err(()));
    assert_eq!(day7::Command::from_str(b"dir a"), Err(()));
    assert_eq!(day7::Command::from_str(b"123 f"), Ok(day7::Command::File(123)));
    assert_eq!(day7::Command::from_str(b"123"), Err(()));
    let commands = day7::parse_commands(b"$ cd /\n10 a\n$ cd b\n5 c\n$ cd ..\n$ cd ..\n$ cd z\n1 y\n");
    assert_eq!(commands.len(), 8);
    assert_eq!(day7::directory_sizes(commands), vec![5, 15, 1]);
}

#[test]
fn no_space_left_overflow_is_refused() {
    assert_eq!(day7::parse_input(b"$ cd /\n4294967295 a\n1 b\n"), None);
    assert_eq!(day7::parse_input(b"$ cd /\n4294967295 a\n"), Some(vec![4294967295]));
}

#[test]
fn hill_climbing_neighbours() {
    let letters = b"Sab\nabc\nacE";
    let mut nodes = Vec::new();
    for (y, line) in letters.split(|&b| b == b'\n').enumerate() {
        for (x, &c) in line.iter().enumerate() {
            nodes.push(day12::Node::new(c, x, y));
        }
    }
    assert_eq!(nodes[0].height, 0);
    assert_eq!(nodes[8].height, 26);
    assert_eq!(nodes[5].height, 2);
    let graph = day12::Graph { nodes, width: 3, height: 3 };
    let corner: Vec<(usize, usize)> = graph.neighbours(&graph.nodes[0]).iter().map(|(n, _)| (n.x, n.y)).collect();
    assert_eq!(corner, vec![(1, 0), (0, 1)]);
    let middle: Vec<(usize, usize, u32)> =
        graph.neighbours(&graph.nodes[4]).iter().map(|(n, c)| (n.x, n.y, *c)).collect();
    assert_eq!(middle, vec![(0, 1, 1), (2, 1, 1), (1, 0, 1), (1, 2, 1)]);
}

const HILL: &[u8] = b"Sabqponm\nabcryxxl\naccszExk\nacctuvwj\nabdefghi\n";

#[test]
fn hill_climbing_example() {
    let graph = day12::parse_input(HILL).unwrap();
    assert_eq!(graph.width, 8);
    assert_eq!(graph.height, 5);
    assert_eq!(graph.nodes[5 + 2 * 8].c, b'E');
    assert_eq!(graph.nodes[5 + 2 * 8].height, 26);
    assert_eq!(day12::calculate_part1(&graph), Some(31));
    assert_eq!(day12::calculate_part2(&graph), Some(29));
}

#[test]
fn hill_climbing_rejects_bad_maps() {
    assert!(day12::parse_input(b"Sab\nab\n").is_none());
    assert!(day12::parse_input(b"SaB\nabE\n").is_none());
    assert!(day12::parse_input(b"").is_none());
}

const TREES: &[u8] = b"30373\n25512\n65332\n33549\n35390\n";

#[test]
fn treetop_example() {
    let grid = day8::parse_input(TREES).unwrap();
    assert_eq!(grid.len(), 25);
    assert_eq!(grid.values()[0], 4);
    assert_eq!(day8::calculate_part1(&grid), 21);
    assert_eq!(day8::calculate_part2(&grid), 8);
}

#[test]
fn treetop_rejects_ragged_rows() {
    assert!(day8::parse_input(b"123\n45\n").is_none());
    assert!(day8::parse_input(b"").is_none());
}

#[test]
fn grid_sweeps() {
    let grid = Grid::new(vec![vec![1, 2, 3], vec![4, 5, 6]]);
    assert_eq!(grid.len(), 6);
    assert_eq!((grid.width(), grid.height()), (3, 2));
    assert_eq!(grid.sweep(0), vec![vec![0, 1, 2], vec![3, 4, 5]]);
    assert_eq!(grid.sweep(1), vec![vec![2, 1, 0], vec![5, 4, 3]]);
    assert_eq!(grid.sweep(2), vec![vec![0, 3], vec![1, 4], vec![2, 5]]);
    assert_eq!(grid.sweep(3), vec![vec![3, 0], vec![4, 1], vec![5, 2]]);
}

const RUCKSACKS: &[u8] = b"vJrwpWtwJgWrhcsFMMfFFhFp\njqHRNqRjqzjGDLGLrsFMfFZSrLrFZsSL\nPmmdzqPrVvPwwTWBwg\nwMqvLMZHhHMvwLHjbvcjnnSBnvTQFn\nttgJtRGJQctTZtZT\nCrZsJsPPZsGzwwsLwLmpwMDw\n";

#[test]
fn rucksack_example() {
    let lines = day3::parse_input(RUCKSACKS);
    assert_eq!(lines.len(), 6);
    assert_eq!(lines[0][0], 22);
    assert_eq!(lines[0][5], 49);
    assert_eq!(day3::calculate_part1(&lines), Some(157));
    assert_eq!(day3::calculate_part2(&lines), Some(70));
}

#[test]
fn rucksack_takes_the_last_shared_item() {
    // Both `a` (1) and `b` (2) are in each half; `a` comes last on the right.
    let lines = day3::parse_input(b"abba\n");
    assert_eq!(day3::calculate_part1(&lines), Some(1));
    assert_eq!(day3::calculate_part1(&day3::parse_input(b"abcd\n")), None);
}

#[test]
fn cathode_ray_register() {
    let values = day10::parse_input(b"noop\naddx 3\naddx -5\n").unwrap();
    assert_eq!(values, vec![1, 1, 1, 4, 4]);
    assert_eq!(day10::parse_input(b"addx x\n"), None);
    assert_eq!(day10::calculate_part1(&values), Some("0".to_string()));
    assert_eq!(day10::calculate_part1(&vec![i32::MAX; 20]), None);
}

#[test]
fn cathode_ray_signal_and_screen() {
    assert_eq!(day10::calculate_part1(&vec![1; 220]), Some("720".to_string()));
    assert_eq!(day10::calculate_part1(&vec![-1; 220]), Some("-720".to_string()));
    let screen = day10::calculate_part2(&vec![1; 41]);
    assert_eq!(screen, format!("\n###{}\n#", ".".repeat(37)));
}

#[test]
fn rope_bridge_example() {
    let moves = day9::parse_input(b"R 4\nU 4\nL 3\nD 1\nR 4\nD 1\nL 5\nR 2\n").unwrap();
    assert_eq!(moves[0], ((1, 0), 4));
    assert_eq!(moves[3], ((0, -1), 1));
    assert_eq!(day9::calculate_part1(&moves), 13);
    assert_eq!(day9::calculate_part2(&moves), 1);
}

#[test]
fn rope_bridge_bigger_example() {
    let moves = day9::parse_input(b"R 5\nU 8\nL 8\nD 3\nR 17\nD 10\nL 25\nU 20\n").unwrap();
    assert_eq!(day9::calculate_part2(&moves), 36);
    assert_eq!(day9::calculate_part1(&moves), 88);
    assert_eq!(day9::parse_input(b"X 4\n"), None);
    assert_eq!(day9::parse_input(b"R four\n"), None);
}

#[test]
fn tuning_trouble_examples() {
    let cases: [(&[u8], u32, u32); 5] = [
        (b"mjqjpqmgbljsphdztnvjfqwrcgsmlb", 7, 19),
        (b"bvwbjplbgvbhsrlpgdmjqwftvncz", 5, 23),
        (b"nppdvjthqldpwncqszvftbrmjlhg", 6, 23),
        (b"nznrnfrfntjfmvfwmzdfjlvtqnbhcprsg", 10, 29),
        (b"zcfzfwzzqfrljwzlrfnpqdbhtmscgvjw", 11, 26),
    ];
    for (text, first, second) in cases {
        let letters = day6::parse_input(text);
        assert_eq!(day6::calculate_part1(&letters), Some(first));
        assert_eq!(day6::calculate_part2(&letters), Some(second));
    }
}

#[test]
fn tuning_trouble_without_marker() {
    let letters = day6::parse_input(b"aabbaabb\n");
    assert_eq!(letters.len(), 8);
    assert_eq!(day6::calculate_part1(&letters), None);
    assert_eq!(day6::find(&letters, 2), Some(3));
    assert_eq!(day6::find(&letters, 0), Some(0));
}
