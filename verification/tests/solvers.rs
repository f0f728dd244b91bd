//! The list and grid solvers besides the warehouse: level reports,
//! calibration equations, disk compaction, and the patrol vocabulary.

use gridpuzzle::antennas::Point as AntPoint;
use gridpuzzle::antennas::Rooftops;
use gridpuzzle::calibration::part1::parse_input;
use gridpuzzle::calibration::part1::process;
use gridpuzzle::calibration::part1::solve;
use gridpuzzle::disk::Block;
use gridpuzzle::manuals::Manual;
use gridpuzzle::disk::DiskMap;
use gridpuzzle::patrol::Direction;
use gridpuzzle::patrol::Labyrinth;
use gridpuzzle::patrol::Guard;
use gridpuzzle::patrol::Offset;
use gridpuzzle::patrol::Point;
use gridpuzzle::reports::is_safe;
use gridpuzzle::trails::TrailMap;
use gridpuzzle::reports::is_safe_after_dampen;

#[test]
fn report_safety() {
    assert!(is_safe(&[7, 6, 4, 2, 1]));
    assert!(!is_safe(&[1, 2, 7, 8, 9]));
    assert!(!is_safe(&[9, 7, 6, 2, 1]));
    assert!(!is_safe(&[1, 3, 2, 4, 5]));
    assert!(!is_safe(&[8, 6, 4, 4, 1]));
    assert!(is_safe(&[1, 3, 6, 7, 9]));
    assert!(is_safe(&[]));
    assert!(is_safe(&[5]));
}

#[test]
fn report_safety_dampened() {
    let reports: [&[i32]; 6] = [
        &[7, 6, 4, 2, 1],
        &[1, 2, 7, 8, 9],
        &[9, 7, 6, 2, 1],
        &[1, 3, 2, 4, 5],
        &[8, 6, 4, 4, 1],
        &[1, 3, 6, 7, 9],
    ];
    let safe = reports
        .iter()
        .filter(|r| is_safe(r) || is_safe_after_dampen(r))
        .count();
    assert_eq!(safe, 4);
}

const CALIBRATION: &str = "190: 10 19
3267: 81 40 27
83: 17 5
156: 15 6
7290: 6 8 6 15
161011: 16 10 13
192: 17 8 14
21037: 9 7 18 13
292: 11 6 16 20";

#[test]
fn calibration_test_process() {
    assert_eq!("3749", process(CALIBRATION));
}

#[test]
fn calibration_solve_and_parse() {
    let table = parse_input(CALIBRATION);
    assert_eq!(table.len(), 9);
    assert_eq!(table[0].0, 190);
    assert_eq!(table[0].1, vec![10, 19]);
    assert!(solve(&190, &[10, 19]));
    assert!(solve(&3267, &[81, 40, 27]));
    assert!(!solve(&83, &[17, 5]));
    assert!(!solve(&161011, &[16, 10, 13]));
    assert!(solve(&292, &[11, 6, 16, 20]));
    // a line without a colon, or with a malformed total, is skipped
    let partial = parse_input("12 10 19\nx: 1 2\n5: 3 2");
    assert_eq!(partial.len(), 1);
    assert_eq!(partial[0].0, 5);
}

fn disk_of(text: &str) -> DiskMap {
    let mut disk = Vec::new();
    for (i, ch) in text.chars().enumerate() {
        let size = ch.to_digit(10).unwrap() as usize;
        if i % 2 == 0 {
            disk.push(Block::File { id: i / 2, size });
        } else {
            disk.push(Block::Free { size });
        }
    }
    DiskMap { disk }
}

#[test]
fn disk_compact_checksum() {
    // the reference layout, compacted cell by cell from the rear
    let mut dec = disk_of("2333133121414131402").decompress();
    let compacted = dec.defragment();
    assert_eq!(compacted.checksum(), 1928);
}

#[test]
fn disk_decompress_shapes() {
    let d = disk_of("12");
    let dec = d.decompress();
    assert_eq!(
        dec.disk,
        vec![
            Block::File { id: 0, size: 1 },
            Block::Free { size: 1 },
            Block::Free { size: 1 },
        ]
    );
    let empty = DiskMap { disk: Vec::new() };
    assert_eq!(empty.checksum(), 0);
}

#[test]
fn disk_defragment_small() {
    // 0..111 -> 0111 (the rear file fills the front gap, block by block)
    let mut dec = disk_of("123").decompress();
    let compacted = dec.defragment();
    assert_eq!(
        compacted.disk,
        vec![
            Block::File { id: 0, size: 1 },
            Block::File { id: 1, size: 1 },
            Block::File { id: 1, size: 1 },
            Block::File { id: 1, size: 1 },
        ]
    );
    assert_eq!(compacted.checksum(), 0 + 1 + 2 + 3);
}

#[test]
fn patrol_offsets_and_turns() {
    assert_eq!(Direction::Up.offset(), Offset(-1, 0));
    assert_eq!(Direction::Down.offset(), Offset(1, 0));
    assert_eq!(Direction::Right.offset(), Offset(0, 1));
    assert_eq!(Direction::Left.offset(), Offset(0, -1));
    assert_eq!(Direction::Up.turn(), Direction::Right);
    assert_eq!(Direction::Right.turn(), Direction::Down);
    assert_eq!(Direction::Down.turn(), Direction::Left);
    assert_eq!(Direction::Left.turn(), Direction::Up);
    let g = Guard { position: Point(3, 4), direction: Direction::Up };
    let next = g.position.plus(g.direction.offset());
    assert_eq!(next, Point(2, 4));
}

#[test]
fn manual_ordering() {
    let rules = vec![
        (47, 53),
        (97, 13),
        (97, 61),
        (97, 47),
        (75, 29),
        (61, 13),
        (75, 53),
        (29, 13),
        (97, 29),
        (53, 29),
        (61, 53),
        (97, 53),
        (61, 29),
        (47, 13),
        (75, 47),
        (97, 75),
        (47, 61),
        (75, 61),
        (47, 29),
        (75, 13),
        (53, 13),
    ];
    let m = Manual { rules, updates: Vec::new() };
    assert!(m.valid_update(&[75, 47, 61, 53, 29]));
    assert!(m.valid_update(&[97, 61, 53, 29, 13]));
    assert!(m.valid_update(&[75, 29, 13]));
    assert!(!m.valid_update(&[75, 97, 47, 61, 53]));
    assert!(!m.valid_update(&[61, 13, 29]));
    assert!(!m.valid_update(&[97, 13, 75, 29, 47]));
    assert_eq!(m.fix_order(vec![75, 97, 47, 61, 53]), vec![97, 75, 47, 61, 53]);
    assert_eq!(m.fix_order(vec![61, 13, 29]), vec![61, 29, 13]);
    assert_eq!(m.fix_order(vec![97, 13, 75, 29, 47]), vec![97, 75, 47, 29, 13]);
    assert_eq!(m.fix_order(vec![75, 47, 61, 53, 29]), vec![75, 47, 61, 53, 29]);
}

#[test]
fn antenna_antinodes() {
    // two antennas on one column of a 10x10 roof: each projects one antinode
    // past the other, both on the grid
    let grid: Vec<Vec<u8>> = (0..10).map(|_| vec![b'.'; 10]).collect();
    let antennas = vec![(b'a', vec![AntPoint(3, 4), AntPoint(5, 5)])];
    let r = Rooftops { grid, antennas };
    assert_eq!(r.get(AntPoint(0, 0)), Some(b'.'));
    assert_eq!(r.get(AntPoint(-1, 0)), None);
    assert_eq!(r.get(AntPoint(10, 0)), None);
    let pairs = r.get_pairs();
    assert_eq!(pairs.len(), 2);
    let mut signal = r.signal();
    signal.sort_by_key(|p| (p.0, p.1));
    assert_eq!(signal, vec![AntPoint(1, 3), AntPoint(7, 6)]);
    let mut harm = r.harmonics();
    harm.sort_by_key(|p| (p.0, p.1));
    // the resonant rays hold the antennas themselves and every in-grid step
    assert_eq!(
        harm,
        vec![AntPoint(1, 3), AntPoint(3, 4), AntPoint(5, 5), AntPoint(7, 6), AntPoint(9, 7)]
    );
}

#[test]
fn disk_whole_file_checksum() {
    // the reference layout, compacted whole files first, then laid out
    let mut d = disk_of("2333133121414131402");
    let compacted = d.defragment_by_block();
    assert_eq!(compacted.decompress().checksum(), 2858);
}

#[test]
fn antenna_point_arithmetic() {
    assert_eq!(AntPoint(1, 2).plus(AntPoint(3, 4)), AntPoint(4, 6));
    assert_eq!(AntPoint(1, 2).minus(AntPoint(3, 4)), AntPoint(-2, -2));
}

#[test]
fn calibration_with_concat() {
    assert_eq!("11387", gridpuzzle::calibration::part2::process(CALIBRATION));
    assert!(gridpuzzle::calibration::part2::solve(&156, &[15, 6]));
    assert!(gridpuzzle::calibration::part2::solve(&7290, &[6, 8, 6, 15]));
    assert!(gridpuzzle::calibration::part2::solve(&192, &[17, 8, 14]));
    assert!(!gridpuzzle::calibration::part2::solve(&21037, &[9, 7, 18, 13]));
}

#[test]
fn trail_ratings() {
    let rows = [
        "89010123", "78121874", "87430965", "96549874", "45678903", "32019012", "01329801",
        "10456732",
    ];
    let terrain: Vec<Vec<u32>> = rows
        .iter()
        .map(|r| r.chars().map(|c| c.to_digit(10).unwrap()).collect())
        .collect();
    let mut trail_heads = Vec::new();
    for (x, row) in terrain.iter().enumerate() {
        for (y, &h) in row.iter().enumerate() {
            if h == 0 {
                trail_heads.push((x as i32, y as i32));
            }
        }
    }
    let m = TrailMap { terrain, trail_heads };
    assert_eq!(m.get((0, 0)), Some(8));
    assert_eq!(m.get((8, 0)), None);
    // the sum of every trail head's rating over the reference map
    let total: u32 = m.trail_heads.iter().map(|&p| m.count_trails(p)).sum();
    assert_eq!(total, 81);
}

#[test]
fn trail_summits() {
    let rows = [
        "89010123", "78121874", "87430965", "96549874", "45678903", "32019012", "01329801",
        "10456732",
    ];
    let terrain: Vec<Vec<u32>> = rows
        .iter()
        .map(|r| r.chars().map(|c| c.to_digit(10).unwrap()).collect())
        .collect();
    let mut trail_heads = Vec::new();
    for (x, row) in terrain.iter().enumerate() {
        for (y, &h) in row.iter().enumerate() {
            if h == 0 {
                trail_heads.push((x as i32, y as i32));
            }
        }
    }
    let m = TrailMap { terrain, trail_heads };
    // the sum of every trail head's distinct-summit score over the map
    let total: u32 = m.trail_heads.iter().map(|&p| m.count_summits(p)).sum();
    assert_eq!(total, 36);
    // a start that is not on the map reaches nothing
    assert_eq!(m.count_summits((-3, -3)), 0);
}

#[test]
fn guard_walk() {
    let rows = [
        "....#.....",
        ".........#",
        "..........",
        "..#.......",
        ".......#..",
        "..........",
        ".#..^.....",
        "........#.",
        "#.........",
        "......#...",
    ];
    let grid: Vec<Vec<u8>> = rows.iter().map(|r| r.bytes().collect()).collect();
    let mut start = Point(0, 0);
    for (x, row) in grid.iter().enumerate() {
        for (y, &b) in row.iter().enumerate() {
            if b == b'^' {
                start = Point(x as i32, y as i32);
            }
        }
    }
    let mut lab = Labyrinth {
        grid,
        guard: Guard { position: start, direction: Direction::Up },
    };
    let path = lab.walk();
    // the reference patrol covers forty-one distinct positions
    assert_eq!(path.len(), 41);
    // the guard leaves over the bottom edge, facing down
    assert_eq!(lab.guard.direction, Direction::Down);
    assert_eq!(lab.guard.position.0, 9);
}
