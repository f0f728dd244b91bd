//! The warehouse scenarios: the reference puzzles for both grid variants,
//! minimal and blocked pushes, conservation, pairing, and the narrow/wide
//! relationship on horizontal-only command streams.

use gridpuzzle::warehouse::cell::Item;
use gridpuzzle::warehouse::cell::Pos;
use gridpuzzle::warehouse::cell::WideItem;
use gridpuzzle::warehouse::cell::down;
use gridpuzzle::warehouse::cell::right;
use gridpuzzle::warehouse::cell::up;
use gridpuzzle::warehouse::narrow::Warehouse;
use gridpuzzle::warehouse::store::CellGrid;
use gridpuzzle::warehouse::wide::WideWarehouse;

const SAMPLE: &str = "##########
#..O..O.O#
#......O.#
#.OO..O.O#
#..O@..O.#
#O#..O...#
#O..O..O.#
#.OO.O.OO#
#....O...#
##########

<vv>^<v^>v>^vv^v>v<>v^v<v<^vv<<<^><<><>>v<vvv<>^v^>^<<<><<v<<<v^vv^v>^
vvv<<^>^v^^><<>>><>^<<><^vv^^<>vvv<>><^^v>^>vv<>v<<<<v<^v>^<^^>>>^<v<v
><>vv>v^v^<>><>>>><^^>vv>v<^^^>>v^v^<^^>v^^>v^<^v>v<>>v^v^<v>v^^<^^vv<
<<v<^>>^^^^>>>v^<>vvv^><v<<<>^^^vv^<vvv>^>v<^^^^v<>^>vvvv><>>v^<<^^^^^
^><^><>>><>^^<<^^v>>><^<v>^<vv>>v>>>^v><>^v><<<<v>>v<v<v>vvv>^<><<>^><
^>><>^v<><^vvv<^^<><v<<<<<><^v<<<><<<^^<v<^^^><^>>^<v^><<<^>>^v<v^v<v^
>^>>^v>vv>^<<^v<>><<><<v<<v><>v<^vv<<<>^^v^>^^>>><<^v>>v^v><^^>>^<>vv^
<><^^>^^^<><vvvvv^v<v<<>^v<v>v<<^><<><<><<<^^<<<^<<>><<><^^^>^^<>^>v<>
^^>vv<^v^v<vv>^<><v<^v>^^^>>>^^vvv^>vvv<>>>^<^>>>>>^<<^v>^vvv<>^<><<v>
v^^>>><<^^<>>^v^<v^vv<>v^<<>^<^v^v><^<<<><<^<v><v<>vv>>v><v^<vv<>v^<<^";

#[test]
fn part1_test_process() {
    assert_eq!("10092", gridpuzzle::warehouse::part1::process(SAMPLE));
}

#[test]
fn part2_test_process() {
    assert_eq!("9021", gridpuzzle::warehouse::part2::process(SAMPLE));
}

#[test]
fn minimal_push_moves_crate_and_agent() {
    // one crate next to the agent, one empty cell beyond it
    let mut w = Warehouse::from(b"@O.");
    assert_eq!(w.robot, Pos { x: 0, y: 0 });
    assert_eq!(w.floorplan.get(Pos { x: 0, y: 1 }), Some(Item::Crate));
    let before = w.box_score();
    assert_eq!(before, 1);
    let dir = right();
    let target = Pos { x: 0, y: 1 };
    assert!(w.try_move(&target, &dir));
    w.robot = target;
    // the crate and the agent both shifted one column
    assert_eq!(w.floorplan.get(Pos { x: 0, y: 1 }), None);
    assert_eq!(w.floorplan.get(Pos { x: 0, y: 2 }), Some(Item::Crate));
    // the score moved by exactly the crate's column change
    assert_eq!(w.box_score(), before + 1);
    // no overlap: the agent's cell is free
    assert_eq!(w.floorplan.get(w.robot), None);
}

#[test]
fn blocked_push_changes_nothing() {
    // a crate right before a wall: the push must be a complete no-op
    let mut w = Warehouse::from(b"@O#");
    let dir = right();
    let target = Pos { x: 0, y: 1 };
    assert!(!w.try_move(&target, &dir));
    assert_eq!(w.robot, Pos { x: 0, y: 0 });
    assert_eq!(w.floorplan.get(Pos { x: 0, y: 0 }), None);
    assert_eq!(w.floorplan.get(Pos { x: 0, y: 1 }), Some(Item::Crate));
    assert_eq!(w.floorplan.get(Pos { x: 0, y: 2 }), Some(Item::Wall));
    assert_eq!(w.floorplan.len(), 2);
    assert_eq!(w.box_score(), 1);
}

#[test]
fn narrow_wide_horizontal_only() {
    // the same narrow text run on both variants with horizontal commands
    let input = "#@OO.#\n\n>>";
    assert_eq!("7", gridpuzzle::warehouse::part1::process(input));
    assert_eq!("12", gridpuzzle::warehouse::part2::process(input));
}

#[test]
fn empty_input_scores_zero() {
    assert_eq!("0", gridpuzzle::warehouse::part1::process(""));
    assert_eq!("0", gridpuzzle::warehouse::part1::process("###"));
}

#[test]
fn wide_vertical_stack_push() {
    // two stacked crates pushed up through empty floor
    let input = "#####\n#...#\n#.O.#\n#.O.#\n#.@.#\n#####\n\n^";
    assert_eq!("308", gridpuzzle::warehouse::part2::process(input));
}

#[test]
fn wide_vertical_branching_push() {
    // a crate resting on the edge of another: pushing the lower one moves
    // both, although they only half overlap
    let mut w = WideWarehouse {
        height: 2,
        width: 6,
        floorplan: CellGrid::new(),
        robot: Pos { x: 2, y: 3 },
    };
    w.floorplan.insert(Pos { x: 0, y: 4 }, WideItem::CrateLeft);
    w.floorplan.insert(Pos { x: 0, y: 5 }, WideItem::CrateRight);
    w.floorplan.insert(Pos { x: 1, y: 3 }, WideItem::CrateLeft);
    w.floorplan.insert(Pos { x: 1, y: 4 }, WideItem::CrateRight);
    let dir = up();
    assert!(w.try_big_move(Pos { x: 1, y: 3 }, dir));
    // the lower crate took the upper crate's row, the upper one moved out
    assert_eq!(w.floorplan.get(Pos { x: 0, y: 3 }), Some(WideItem::CrateLeft));
    assert_eq!(w.floorplan.get(Pos { x: 0, y: 4 }), Some(WideItem::CrateRight));
    assert_eq!(w.floorplan.get(Pos { x: -1, y: 4 }), Some(WideItem::CrateLeft));
    assert_eq!(w.floorplan.get(Pos { x: -1, y: 5 }), Some(WideItem::CrateRight));
    assert_eq!(w.floorplan.len(), 4);
}

#[test]
fn wide_vertical_blocked_by_wall() {
    // the branching probe finds a wall beyond one branch: nothing moves
    let mut w = WideWarehouse {
        height: 2,
        width: 6,
        floorplan: CellGrid::new(),
        robot: Pos { x: 2, y: 3 },
    };
    w.floorplan.insert(Pos { x: 0, y: 4 }, WideItem::Wall);
    w.floorplan.insert(Pos { x: 1, y: 3 }, WideItem::CrateLeft);
    w.floorplan.insert(Pos { x: 1, y: 4 }, WideItem::CrateRight);
    let dir = up();
    assert!(!w.try_big_move(Pos { x: 1, y: 3 }, dir));
    assert_eq!(w.floorplan.get(Pos { x: 1, y: 3 }), Some(WideItem::CrateLeft));
    assert_eq!(w.floorplan.get(Pos { x: 1, y: 4 }), Some(WideItem::CrateRight));
    assert_eq!(w.floorplan.len(), 3);
}

#[test]
fn conservation_and_pairing_after_commands() {
    // fold a command stream and re-check the grid-wide invariants by hand
    let input = "#######\n#.OO..#\n#.O@..#\n#..O..#\n#######";
    let mut w = WideWarehouse::from(input.as_bytes());
    let count = |w: &WideWarehouse, item: WideItem| -> usize {
        let mut c = 0;
        for i in 0..w.floorplan.len() {
            let (_, v) = w.floorplan.pair_at(i);
            if v == item {
                c += 1;
            }
        }
        c
    };
    let lefts = count(&w, WideItem::CrateLeft);
    let rights = count(&w, WideItem::CrateRight);
    let walls = count(&w, WideItem::Wall);
    assert_eq!(lefts, 4);
    assert_eq!(rights, 4);
    let dirs = [up(), right(), down(), right(), up(), up()];
    for d in dirs {
        let target = Pos { x: w.robot.x + d.x, y: w.robot.y + d.y };
        if w.try_big_move(target, d) {
            w.robot = target;
        }
        // conservation: the number of halves of each kind never changes
        assert_eq!(count(&w, WideItem::CrateLeft), lefts);
        assert_eq!(count(&w, WideItem::CrateRight), rights);
        assert_eq!(count(&w, WideItem::Wall), walls);
        // pairing: every left half has its right half one column over
        for i in 0..w.floorplan.len() {
            let (p, v) = w.floorplan.pair_at(i);
            if v == WideItem::CrateLeft {
                assert_eq!(
                    w.floorplan.get(Pos { x: p.x, y: p.y + 1 }),
                    Some(WideItem::CrateRight)
                );
            }
            if v == WideItem::CrateRight {
                assert_eq!(
                    w.floorplan.get(Pos { x: p.x, y: p.y - 1 }),
                    Some(WideItem::CrateLeft)
                );
            }
        }
        // no overlap: the agent stands on free floor
        assert_eq!(w.floorplan.get(w.robot), None);
    }
}
