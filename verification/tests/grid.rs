use advent_lib::direction::Direction;
use advent_lib::geometry::{point2, vector2};
use advent_lib::grid::{Grid, LinesIterator};
use advent_lib::grid_text::uneven_grid_parser;
use advent_lib::parsing::ErrorKind;

fn generate_test_grid() -> Grid<u8> {
    let (consumed, grid) = Grid::parse(b"123\n456\n789").unwrap();
    assert_eq!(consumed, 11);
    grid.map(|&c| c - b'0')
}

fn collect(mut lines: LinesIterator<'_, u8>) -> Vec<u8> {
    let mut cells = Vec::new();
    while let Some(mut line) = lines.next() {
        while let Some((_, c)) = line.next() {
            cells.push(*c);
        }
    }
    cells
}

#[test]
fn test_north_iterators() {
    let grid = generate_test_grid();
    assert_eq!([7, 4, 1, 8, 5, 2, 9, 6, 3], collect(grid.north_lines()).as_slice())
}

#[test]
fn test_east_iterators() {
    let grid = generate_test_grid();
    assert_eq!([1, 2, 3, 4, 5, 6, 7, 8, 9], collect(grid.east_lines()).as_slice())
}

#[test]
fn test_south_iterators() {
    let grid = generate_test_grid();
    assert_eq!([1, 4, 7, 2, 5, 8, 3, 6, 9], collect(grid.south_lines()).as_slice())
}

#[test]
fn test_west_iterators() {
    let grid = generate_test_grid();
    assert_eq!([3, 2, 1, 6, 5, 4, 9, 8, 7], collect(grid.west_lines()).as_slice())
}

#[test]
fn test_fill_around_block() {
    let mut grid = Grid::<u8>::new_empty(3, 3);
    grid.set(point2(1, 1), b'X');
    assert_eq!(8, grid.fill(point2(0, 0), b'O'));
    assert_eq!(
        vec![b'O', b'O', b'O', b'O', b'X', b'O', b'O', b'O', b'O'],
        grid.values().to_vec()
    );
}

#[test]
fn test_fill_inside() {
    let mut grid = Grid::<u8>::new_empty(7, 2);
    grid.set(point2(1, 0), b'X');
    grid.set(point2(3, 0), b'X');
    grid.set(point2(5, 0), b'X');
    assert_eq!(11, grid.fill(point2(0, 0), b'O'));
    assert_eq!(
        vec![b'O', b'X', b'O', b'X', b'O', b'X', b'O', b'O', b'O', b'O', b'O', b'O', b'O', b'O'],
        grid.values().to_vec()
    );
}

#[test]
fn fill_outside_the_grid_changes_nothing() {
    let mut grid = Grid::<u8>::new_empty(2, 2);
    assert_eq!(0, grid.fill(point2(5, 5), b'O'));
    assert_eq!(vec![0, 0, 0, 0], grid.values().to_vec());
}

#[test]
fn parse_rejects_uneven_rows() {
    assert_eq!(Grid::parse(b"12\n345").err(), Some(ErrorKind::LengthValue));
    assert_eq!(Grid::parse(b"").err(), Some(ErrorKind::Eof));
    assert_eq!(Grid::parse(b"\n12").err(), Some(ErrorKind::Eof));
    assert_eq!(Grid::parse(b"1\r2").err(), Some(ErrorKind::Tag));
}

#[test]
fn parse_stops_before_trailing_newline_and_reads_crlf() {
    let (consumed, grid) = Grid::parse(b"ab\r\ncd\n").unwrap();
    assert_eq!(consumed, 6);
    assert_eq!(grid.width(), 2);
    assert_eq!(grid.height(), 2);
    assert_eq!(grid.values().to_vec(), b"abcd".to_vec());
}

#[test]
fn uneven_grid_pads_with_zero() {
    let (consumed, grid) = uneven_grid_parser(b"ab\nc\ndef").unwrap();
    assert_eq!(consumed, 8);
    assert_eq!(grid.width(), 3);
    assert_eq!(grid.height(), 3);
    assert_eq!(grid.values().to_vec(), vec![b'a', b'b', 0, b'c', 0, 0, b'd', b'e', b'f']);
}

#[test]
fn get_and_infinite_get() {
    let grid = generate_test_grid();
    assert_eq!(grid.get(point2(1, 2)), Some(&8));
    assert_eq!(grid.get(point2(3, 0)), None);
    assert_eq!(*grid.get_infinite(point2(-1, 4)), 6);
    assert_eq!(grid.find(|&v| v == 6), Some(point2(2, 1)));
}

#[test]
fn neighbours_of_a_cell() {
    let grid = generate_test_grid();
    let n = grid.direct_neighbours(point2(0, 0));
    assert_eq!(n, vec![(Direction::East, &2), (Direction::South, &4)]);
    let around = grid.cardinal_neighbours(point2(1, 1)).unwrap();
    assert_eq!(around.map(|v| *v), [2, 3, 6, 9, 8, 7, 4, 1]);
    assert!(grid.cardinal_neighbours(point2(0, 1)).is_none());
    assert!(grid.cardinal_neighbours(point2(2, 1)).is_none());
    assert!(grid.cardinal_neighbours(point2(1, 2)).is_none());
    assert!(grid.cardinal_neighbours(point2(1, 0)).is_none());
}

#[test]
fn sub_grid_and_mut_line() {
    let grid = generate_test_grid();
    let sub = grid.sub_grid(1..4, 0..2);
    assert_eq!(sub.values().to_vec(), vec![2, 3, 0, 5, 6, 0]);
    let mut g = generate_test_grid();
    g.mut_line(point2(0, 0), vector2(1, 1), |v| v + 10);
    assert_eq!(g.values().to_vec(), vec![11, 2, 3, 4, 15, 6, 7, 8, 19]);
}

#[test]
fn swap_two_cells() {
    let mut grid = generate_test_grid();
    grid.swap(point2(0, 0), point2(2, 2));
    assert_eq!(grid.values().to_vec(), vec![9, 2, 3, 4, 5, 6, 7, 8, 1]);
}

#[test]
fn detect_regions_of_equal_values() {
    let (_, grid) = Grid::parse(b"AAB\nABB\nCCB").unwrap();
    let regions = grid.detect_regions();
    assert_eq!(regions.len(), 3);
    assert_eq!(regions[0][0], point2(0, 0));
    assert_eq!(regions[0].len(), 3);
    assert_eq!(regions[1][0], point2(2, 0));
    assert_eq!(regions[1].len(), 4);
    assert_eq!(regions[2][0], point2(0, 2));
    assert_eq!(regions[2].len(), 2);
}

#[test]
fn get_mut_writes_through() {
    let mut grid = generate_test_grid();
    *grid.get_mut(point2(1, 2)).unwrap() = 0;
    assert_eq!(grid.get(point2(1, 2)), Some(&0));
    assert_eq!(grid.get(point2(0, 2)), Some(&7));
    assert!(grid.get_mut(point2(3, 0)).is_none());
    assert!(grid.get_mut(point2(0, -1)).is_none());
}

#[test]
fn grid_drawn_as_text() {
    let (_, grid) = Grid::parse(b"ab\ncd").unwrap();
    assert_eq!(grid.to_text(), "Grid(2x2)\n┌──┐\n│ab│\n│cd│\n└──┘\n");
}

#[test]
fn grid_drawn_with_overlay() {
    let (_, grid) = Grid::parse(b"...\n...").unwrap();
    let drawn = grid.draw_with_overlay(&[point2(0, 0), point2(2, 1), point2(5, 5), point2(-1, 0)], '#');
    assert_eq!(drawn, "Grid(3x2)\n┌───┐\n│#..│\n│..#│\n└───┘\n");
}

#[test]
fn wide_grid_title_has_all_digits() {
    let row = vec![b'x'; 12];
    let (_, grid) = Grid::parse(&row).unwrap();
    assert!(grid.to_text().starts_with("Grid(12x1)\n┌"));
}
