//! The simulation driver for the wide grid: split the input, double the grid
//! text in width, fold the commands over the parsed warehouse, and score the
//! left half of every crate that remains.

use vstd::prelude::*;
use vstd::string::StringSliceAdditionalSpecFns;

use crate::text::int_string;
use crate::warehouse::cell::Pos;
use crate::warehouse::cell::WideItem;
use crate::warehouse::cell::as_pos;
use crate::warehouse::cell::in_i64;
use crate::warehouse::cell::is_unit;
use crate::warehouse::parse::expand;
use crate::warehouse::parse::parse_limit;
use crate::warehouse::parse::valid_wide_plan;
use crate::warehouse::parse::wscan_grid;
use crate::warehouse::part1::find_blank;
use crate::warehouse::part1::move_dirs;
use crate::warehouse::part1::parse_moves;
use crate::warehouse::part1::sections;
use crate::warehouse::part1::split_blank;
use crate::warehouse::part1::valid_moves;
use crate::warehouse::store::cell_of;
use crate::warehouse::store::coords;
use crate::warehouse::store::count_val;
use crate::warehouse::store::dom_bounded;
use crate::warehouse::store::step_c;
use crate::warehouse::wide::WideWarehouse;
use crate::warehouse::wide::dep_set;
use crate::warehouse::wide::hcan_push;
use crate::warehouse::wide::hpush_run;
use crate::warehouse::wide::hpushed;
use crate::warehouse::wide::is_horiz;
use crate::warehouse::wide::lemma_hpush_run_unique;
use crate::warehouse::wide::lemma_paired_at;
use crate::warehouse::wide::no_tear;
use crate::warehouse::wide::paired;
use crate::warehouse::wide::wcan_push;
use crate::warehouse::wide::wcrate_score;
use crate::warehouse::wide::wpushed;
use crate::warehouse::cell::spec_left;

verus! {

/// What the driver guarantees of a final grid reached from the starting grid
/// `g`: still paired, the same number of crate halves of each kind, and the
/// very same walls.
pub open spec fn faithful_outcome(g: Map<Pos, WideItem>, m_end: Map<Pos, WideItem>) -> bool {
    &&& paired(m_end)
    &&& count_val(m_end, WideItem::CrateLeft) == count_val(g, WideItem::CrateLeft)
    &&& count_val(m_end, WideItem::CrateRight) == count_val(g, WideItem::CrateRight)
    &&& count_val(m_end, WideItem::Wall) == count_val(g, WideItem::Wall)
    &&& forall|cc: (int, int)|
        #[trigger] cell_of(m_end, cc) == Some(WideItem::Wall) <==> cell_of(g, cc) == Some(
            WideItem::Wall,
        )
}

/// The grid after one push at `c` along `d` commits, read off the push
/// models: the horizontal chain shift, or the vertical relocation of the
/// minimal dependency closure.
pub open spec fn wpush_effect(m: Map<Pos, WideItem>, c: (int, int), d: Pos) -> Map<Pos, WideItem> {
    if is_horiz(d) {
        if hcan_push(m, c, d) {
            let n = choose|n: nat| hpush_run(m, c, d, n);
            hpushed(m, c, d, n)
        } else {
            m
        }
    } else {
        match cell_of(m, c) {
            None => m,
            Some(WideItem::Wall) => m,
            Some(WideItem::CrateLeft) => wpushed(m, dep_set(m, as_pos(c), d), d),
            Some(WideItem::CrateRight) => wpushed(
                m,
                dep_set(m, as_pos(step_c(c, spec_left())), d),
                d,
            ),
        }
    }
}

/// One command applied to the wide grid and agent: step the agent if the
/// push ahead of it is feasible (committing it), else change nothing.
pub open spec fn wsim_step(m: Map<Pos, WideItem>, robot: Pos, d: Pos) -> (Map<Pos, WideItem>, Pos) {
    let c = step_c(coords(robot), d);
    if in_i64(c) && wcan_push(m, c, d) {
        (wpush_effect(m, c, d), as_pos(c))
    } else {
        (m, robot)
    }
}

/// The whole command stream folded over the wide grid and agent, strictly in
/// input order.
pub open spec fn wsim_run(m: Map<Pos, WideItem>, robot: Pos, moves: Seq<Pos>) -> (
    Map<Pos, WideItem>,
    Pos,
)
    decreases moves.len(),
{
    if moves.len() == 0 {
        (m, robot)
    } else {
        let t = wsim_step(m, robot, moves[0]);
        wsim_run(t.0, t.1, moves.skip(1))
    }
}

/// The answer for a wide run: parse and double the grid, fold the commands,
/// and score the final crates by their left halves.
pub open spec fn part2_spec(s: Seq<u8>) -> int {
    let g = wide_start(s);
    wcrate_score(wsim_run(g.0, as_pos(g.1), move_dirs(sections(s).1)).0)
}

/// The starting grid of a wide run: the grid section, doubled and scanned.
pub open spec fn wide_start(s: Seq<u8>) -> (Map<Pos, WideItem>, (int, int)) {
    let g = wscan_grid(expand(sections(s).0), 0, 0, Map::empty(), (0, 0), 0, 0);
    (g.0, g.1)
}

/// Runs a wide-grid puzzle: the narrow grid text is doubled in width, then
/// the command stream is folded over it, push by push. Answers the decimal
/// score of the folded end grid; that grid is also a faithful outcome of the
/// start — paired, conserving every kind of half, its walls untouched — and
/// the agent ends on a free cell.
pub fn process(input: &str) -> (r: String)
    requires
        input.spec_bytes().len() <= parse_limit(),
        valid_wide_plan(sections(input.spec_bytes()).0),
        valid_moves(sections(input.spec_bytes()).1),
        !wide_start(input.spec_bytes()).0.dom().contains(
            as_pos(wide_start(input.spec_bytes()).1),
        ),
    ensures
        r@ == int_string(part2_spec(input.spec_bytes())),
        faithful_outcome(
            wide_start(input.spec_bytes()).0,
            wsim_run(
                wide_start(input.spec_bytes()).0,
                as_pos(wide_start(input.spec_bytes()).1),
                move_dirs(sections(input.spec_bytes()).1),
            ).0,
        ),
        !wsim_run(
            wide_start(input.spec_bytes()).0,
            as_pos(wide_start(input.spec_bytes()).1),
            move_dirs(sections(input.spec_bytes()).1),
        ).0.dom().contains(
            wsim_run(
                wide_start(input.spec_bytes()).0,
                as_pos(wide_start(input.spec_bytes()).1),
                move_dirs(sections(input.spec_bytes()).1),
            ).1,
        ),
{
    let bytes = input.as_bytes();
    let n = bytes.len();
    let (grid_end, moves_start): (usize, usize) = match find_blank(bytes) {
        Some(i) => (i, i + 2),
        None => (0, n),
    };
    let ghost parts = sections(input.spec_bytes());
    proof {
        if split_blank(bytes@) is None {
            assert(bytes@.subrange(0, 0) =~= parts.0);
            assert(bytes@.subrange(n as int, n as int) =~= parts.1);
        } else {
            assert(bytes@.subrange(0, grid_end as int) =~= parts.0);
            assert(bytes@.subrange(moves_start as int, n as int) =~= parts.1);
        }
    }
    let mut warehouse = WideWarehouse::from(&bytes[0..grid_end]);
    let moves = parse_moves(&bytes[moves_start..n]);
    let ghost g0 = wide_start(input.spec_bytes()).0;
    let n_moves = moves.len();
    proof {
        warehouse.floorplan.lemma_pairs();
        assert(warehouse.floorplan@ == g0);
        assert(dom_bounded(warehouse.floorplan@, 2 * n));
        assert(!warehouse.floorplan@.dom().contains(warehouse.robot)) by {
            assert(as_pos(wide_start(input.spec_bytes()).1) == warehouse.robot);
        }
    }
    let ghost dom_len0 = warehouse.floorplan@.dom().len();
    let ghost r0 = warehouse.robot;
    proof {
        assert(moves@.skip(0) =~= moves@);
        assert(r0 == as_pos(wide_start(input.spec_bytes()).1));
    }
    for i in 0..n_moves
        invariant
            n <= parse_limit(),
            n_moves == moves@.len(),
            n_moves <= n,
            moves@ == move_dirs(parts.1),
            forall|k: int| 0 <= k < moves@.len() ==> is_unit(#[trigger] moves@[k]),
            warehouse.wf(),
            paired(warehouse.floorplan@),
            faithful_outcome(g0, warehouse.floorplan@),
            !warehouse.floorplan@.dom().contains(warehouse.robot),
            wsim_run(g0, r0, move_dirs(parts.1)) == wsim_run(
                warehouse.floorplan@,
                warehouse.robot,
                moves@.skip(i as int),
            ),
            dom_bounded(warehouse.floorplan@, 2 * n + i),
            -(2 * n + i) <= warehouse.robot.x <= 2 * n + i,
            -(2 * n + i) <= warehouse.robot.y <= 2 * n + i,
            warehouse.floorplan@.dom().len() == dom_len0,
            dom_len0 <= 2 * n,
            warehouse.floorplan@.dom().finite(),
            warehouse.floorplan.pairs().len() == warehouse.floorplan@.dom().len(),
    {
        let d = moves[i];
        let ghost m_before = warehouse.floorplan@;
        let ghost robot_before = warehouse.robot;
        let new_position = Pos { x: warehouse.robot.x + d.x, y: warehouse.robot.y + d.y };
        proof {
            let c = coords(new_position);
            // the push cannot start in the middle of a crate: the cell on the
            // other side of the start is the agent's own, which is free
            assert(no_tear(m_before, c, d)) by {
                if d == crate::warehouse::cell::spec_right() {
                    lemma_paired_at(m_before, coords(robot_before));
                    assert(cell_of(m_before, coords(robot_before)) is None);
                    assert(step_c(coords(robot_before), d) == ((robot_before.x as int,
                    robot_before.y + 1)));
                }
                if d == crate::warehouse::cell::spec_left() {
                    lemma_paired_at(m_before, c);
                    assert(cell_of(m_before, coords(robot_before)) is None);
                    assert((c.0, c.1 + 1) == coords(robot_before));
                }
            }
        }
        if warehouse.try_big_move(new_position, d) {
            warehouse.robot = new_position;
        }
        proof {
            let c = coords(new_position);
            assert(moves@.skip(i as int)[0] == d);
            assert(moves@.skip(i as int).skip(1) =~= moves@.skip(i + 1));
            if wcan_push(m_before, c, d) {
                if is_horiz(d) {
                    let n1 = choose|k: nat|
                        hpush_run(m_before, c, d, k) && warehouse.floorplan@ =~= hpushed(
                            m_before,
                            c,
                            d,
                            k,
                        );
                    let n2 = choose|k: nat| hpush_run(m_before, c, d, k);
                    lemma_hpush_run_unique(m_before, c, d, n1, n2);
                }
                assert(warehouse.floorplan@ == wpush_effect(m_before, c, d));
                assert(warehouse.robot == as_pos(c));
            } else {
                assert(warehouse.floorplan@ == m_before && warehouse.robot == robot_before);
            }
            assert(wsim_run(warehouse.floorplan@, warehouse.robot, moves@.skip(i + 1))
                == wsim_run(m_before, robot_before, moves@.skip(i as int)));
            warehouse.floorplan.lemma_pairs();
            assert(dom_bounded(warehouse.floorplan@, 2 * n + i + 1)) by {
                assert(0 <= 2 * n + i && dom_bounded(m_before, 2 * n + i));
            }
            assert(faithful_outcome(g0, warehouse.floorplan@)) by {
                assert forall|cc: (int, int)|
                    #[trigger] cell_of(warehouse.floorplan@, cc) == Some(WideItem::Wall)
                        <==> cell_of(g0, cc) == Some(WideItem::Wall) by {
                    assert(cell_of(warehouse.floorplan@, cc) == Some(WideItem::Wall) <==> cell_of(
                        m_before,
                        cc,
                    ) == Some(WideItem::Wall));
                }
            }
        }
    }
    proof {
        assert(warehouse.floorplan.pairs().len() <= crate::warehouse::narrow::score_bound());
        assert forall|k: int| 0 <= k < warehouse.floorplan.pairs().len() implies {
            let p = (#[trigger] warehouse.floorplan.pairs()[k]).0;
            -crate::warehouse::narrow::score_bound() <= p.x
                <= crate::warehouse::narrow::score_bound()
                && -crate::warehouse::narrow::score_bound() <= p.y
                <= crate::warehouse::narrow::score_bound()
        } by {
            warehouse.floorplan.lemma_pairs();
            let p = warehouse.floorplan.pairs()[k].0;
            assert(warehouse.floorplan@.dom().contains(p));
        }
    }
    proof {
        assert(moves@.skip(n_moves as int) =~= Seq::<Pos>::empty());
        assert(warehouse.floorplan@ == wsim_run(g0, r0, move_dirs(parts.1)).0);
    }
    let score = warehouse.box_score();
    let r = crate::text::i64_to_string(score);
    r
}

} // verus!
