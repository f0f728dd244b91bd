//! The simulation driver for the narrow grid: split the input into its grid
//! and command sections, fold the commands over the parsed warehouse, and
//! score the crates that remain.

use vstd::prelude::*;
use vstd::string::StringSliceAdditionalSpecFns;

use crate::text::int_string;
use crate::warehouse::cell::Pos;
use crate::warehouse::cell::as_pos;
use crate::warehouse::cell::in_i64;
use crate::warehouse::cell::is_unit;
use crate::warehouse::cell::spec_down;
use crate::warehouse::cell::spec_left;
use crate::warehouse::cell::spec_right;
use crate::warehouse::cell::spec_up;
use crate::warehouse::narrow::Warehouse;
use crate::warehouse::narrow::can_push;
use crate::warehouse::narrow::crate_score;
use crate::warehouse::narrow::lemma_push_conserves;
use crate::warehouse::narrow::lemma_push_run_cells;
use crate::warehouse::narrow::lemma_push_run_unique;
use crate::warehouse::narrow::push_run;
use crate::warehouse::narrow::pushed;
use crate::warehouse::parse::parse_limit;
use crate::warehouse::parse::scan_grid;
use crate::warehouse::store::coords;
use crate::warehouse::store::count_val;
use crate::warehouse::store::dom_bounded;
use crate::warehouse::store::lemma_walk_c_snoc;
use crate::warehouse::store::step_c;
use crate::warehouse::store::walk_c;

verus! {

/// Splits a text at its first blank line: the part before it and the part
/// after it. `None` when there is no blank line.
pub open spec fn split_blank(s: Seq<u8>) -> Option<(Seq<u8>, Seq<u8>)>
    decreases s.len(),
{
    if s.len() < 2 {
        None
    } else if s[0] == 10 && s[1] == 10 {
        Some((Seq::empty(), s.skip(2)))
    } else {
        match split_blank(s.skip(1)) {
            None => None,
            Some(p) => Some((seq![s[0]] + p.0, p.1)),
        }
    }
}

/// The two sections of a puzzle input: grid text and command text, both empty
/// when no blank line separates them.
pub open spec fn sections(s: Seq<u8>) -> (Seq<u8>, Seq<u8>) {
    match split_blank(s) {
        Some(p) => p,
        None => (Seq::empty(), Seq::empty()),
    }
}

proof fn lemma_split_blank_at(s: Seq<u8>, i: int)
    requires
        0 <= i,
        i + 2 <= s.len(),
        s[i] == 10 && s[i + 1] == 10,
        forall|j: int| 0 <= j < i ==> !((#[trigger] s[j]) == 10 && s[j + 1] == 10),
    ensures
        split_blank(s) == Some((s.take(i), s.skip(i + 2))),
    decreases i,
{
    if i == 0 {
        assert(s.take(0) =~= Seq::<u8>::empty());
    } else {
        lemma_split_blank_at(s.skip(1), i - 1);
        assert(seq![s[0]] + s.skip(1).take(i - 1) =~= s.take(i));
        assert(s.skip(1).skip(i + 1) =~= s.skip(i + 2));
    }
}

proof fn lemma_split_blank_none(s: Seq<u8>)
    requires
        forall|j: int| 0 <= j && j + 2 <= s.len() ==> !((#[trigger] s[j]) == 10 && s[j + 1] == 10),
    ensures
        split_blank(s) is None,
    decreases s.len(),
{
    if s.len() >= 2 {
        lemma_split_blank_none(s.skip(1));
    }
}

/// The direction offsets named by the command characters, in order; line
/// breaks are skipped.
pub open spec fn move_dirs(s: Seq<u8>) -> Seq<Pos>
    decreases s.len(),
{
    if s.len() == 0 {
        Seq::empty()
    } else {
        let rest = move_dirs(s.skip(1));
        if s[0] == 62 {
            seq![spec_right()] + rest
        } else if s[0] == 118 {
            seq![spec_down()] + rest
        } else if s[0] == 60 {
            seq![spec_left()] + rest
        } else if s[0] == 94 {
            seq![spec_up()] + rest
        } else {
            rest
        }
    }
}

/// The command section may hold only the four direction characters and line
/// breaks; no other character names a command, so the rest is left out.
pub open spec fn valid_moves(s: Seq<u8>) -> bool {
    forall|i: int|
        0 <= i < s.len() ==> ((#[trigger] s[i]) == 62 || s[i] == 118 || s[i] == 60 || s[i] == 94
            || s[i] == 10 || (s[i] == 13 && (i + 1 == s.len() || s[i + 1] == 10)))
}

/// Reads the command characters into direction offsets.
pub fn parse_moves(cmds: &[u8]) -> (v: Vec<Pos>)
    ensures
        v@ == move_dirs(cmds@),
        v@.len() <= cmds@.len(),
        forall|k: int| 0 <= k < v@.len() ==> is_unit(#[trigger] v@[k]),
{
    let n = cmds.len();
    let mut v: Vec<Pos> = Vec::new();
    proof {
        assert(cmds@.skip(0) =~= cmds@);
        assert(v@ + move_dirs(cmds@) =~= move_dirs(cmds@));
    }
    for i in 0..n
        invariant
            n == cmds@.len(),
            move_dirs(cmds@) == v@ + move_dirs(cmds@.skip(i as int)),
            v@.len() <= i,
            forall|k: int| 0 <= k < v@.len() ==> is_unit(#[trigger] v@[k]),
    {
        let b = cmds[i];
        let ghost prev = v@;
        proof {
            assert(cmds@.skip(i as int)[0] == b);
            assert(cmds@.skip(i as int).skip(1) =~= cmds@.skip(i + 1));
        }
        if b == 62 {
            v.push(crate::warehouse::cell::right());
        } else if b == 118 {
            v.push(crate::warehouse::cell::down());
        } else if b == 60 {
            v.push(crate::warehouse::cell::left());
        } else if b == 94 {
            v.push(crate::warehouse::cell::up());
        }
        proof {
            if b == 62 || b == 118 || b == 60 || b == 94 {
                assert(v@ =~= prev + seq![v@.last()]);
                assert(prev + (seq![v@.last()] + move_dirs(cmds@.skip(i + 1))) =~= (prev + seq![
                    v@.last(),
                ]) + move_dirs(cmds@.skip(i + 1)));
            }
        }
    }
    proof {
        assert(cmds@.skip(n as int) =~= Seq::<u8>::empty());
        assert(v@ + Seq::<Pos>::empty() =~= v@);
    }
    v
}

/// Finds the first blank line, establishing the [`split_blank`] reading.
pub fn find_blank(bytes: &[u8]) -> (r: Option<usize>)
    ensures
        match r {
            Some(i) => i + 2 <= bytes@.len() && split_blank(bytes@) == Some(
                (bytes@.take(i as int), bytes@.skip(i + 2)),
            ),
            None => split_blank(bytes@) is None,
        },
{
    let n = bytes.len();
    if n < 2 {
        proof {
            lemma_split_blank_none(bytes@);
        }
        return None;
    }
    let mut j: usize = 0;
    while j < n - 1
        invariant
            n == bytes@.len(),
            2 <= n,
            j <= n,
            forall|k: int| 0 <= k < j ==> !((#[trigger] bytes@[k]) == 10 && bytes@[k + 1] == 10),
        decreases n - j,
    {
        if bytes[j] == 10 && bytes[j + 1] == 10 {
            proof {
                lemma_split_blank_at(bytes@, j as int);
            }
            return Some(j);
        }
        j = j + 1;
    }
    proof {
        lemma_split_blank_none(bytes@);
    }
    None
}

/// One command applied to the grid and agent: step the agent if the chain of
/// crates ahead of it can shift (shifting it), else change nothing.
pub open spec fn sim_step(m: Map<Pos, crate::warehouse::cell::Item>, robot: Pos, d: Pos) -> (
    Map<Pos, crate::warehouse::cell::Item>,
    Pos,
) {
    let c = step_c(coords(robot), d);
    if in_i64(c) && can_push(m, c, d) {
        let n = choose|n: nat| push_run(m, c, d, n);
        (pushed(m, c, d, n), as_pos(c))
    } else {
        (m, robot)
    }
}

/// The whole command stream folded over the grid and agent, strictly in
/// input order.
pub open spec fn sim_run(
    m: Map<Pos, crate::warehouse::cell::Item>,
    robot: Pos,
    moves: Seq<Pos>,
) -> (Map<Pos, crate::warehouse::cell::Item>, Pos)
    decreases moves.len(),
{
    if moves.len() == 0 {
        (m, robot)
    } else {
        let t = sim_step(m, robot, moves[0]);
        sim_run(t.0, t.1, moves.skip(1))
    }
}

/// Conservation: folding any command stream over a grid leaves the number
/// of crates, and of walls, exactly as it was.
pub proof fn lemma_run_conserves(
    m: Map<Pos, crate::warehouse::cell::Item>,
    robot: Pos,
    moves: Seq<Pos>,
)
    requires
        m.dom().finite(),
        forall|k: int| 0 <= k < moves.len() ==> is_unit(#[trigger] moves[k]),
    ensures
        count_val(sim_run(m, robot, moves).0, crate::warehouse::cell::Item::Crate) == count_val(
            m,
            crate::warehouse::cell::Item::Crate,
        ),
        count_val(sim_run(m, robot, moves).0, crate::warehouse::cell::Item::Wall) == count_val(
            m,
            crate::warehouse::cell::Item::Wall,
        ),
        sim_run(m, robot, moves).0.dom().finite(),
    decreases moves.len(),
{
    if moves.len() > 0 {
        let t = sim_step(m, robot, moves[0]);
        let c = step_c(coords(robot), moves[0]);
        if in_i64(c) && can_push(m, c, moves[0]) {
            let n = choose|n: nat| push_run(m, c, moves[0], n);
            lemma_push_conserves(m, c, moves[0], n);
        }
        assert forall|k: int| 0 <= k < moves.skip(1).len() implies is_unit(
            #[trigger] moves.skip(1)[k],
        ) by {
            assert(moves.skip(1)[k] == moves[k + 1]);
        }
        lemma_run_conserves(t.0, t.1, moves.skip(1));
    }
}

/// No overlap with the agent: folding any command stream keeps the agent's
/// coordinate off the grid's occupied cells — the map itself already binds
/// each coordinate to at most one crate or wall.
pub proof fn lemma_run_agent_clear(
    m: Map<Pos, crate::warehouse::cell::Item>,
    robot: Pos,
    moves: Seq<Pos>,
)
    requires
        !m.dom().contains(robot),
        forall|k: int| 0 <= k < moves.len() ==> is_unit(#[trigger] moves[k]),
    ensures
        !sim_run(m, robot, moves).0.dom().contains(sim_run(m, robot, moves).1),
    decreases moves.len(),
{
    if moves.len() > 0 {
        let t = sim_step(m, robot, moves[0]);
        let c = step_c(coords(robot), moves[0]);
        if in_i64(c) && can_push(m, c, moves[0]) {
            let n = choose|n: nat| push_run(m, c, moves[0], n);
            crate::warehouse::narrow::lemma_push_no_overlap(m, c, moves[0], n);
        }
        assert forall|k: int| 0 <= k < moves.skip(1).len() implies is_unit(
            #[trigger] moves.skip(1)[k],
        ) by {
            assert(moves.skip(1)[k] == moves[k + 1]);
        }
        lemma_run_agent_clear(t.0, t.1, moves.skip(1));
    }
}

/// The answer for a narrow run: parse both sections, fold the commands, and
/// score the final crates.
pub open spec fn part1_spec(s: Seq<u8>) -> int {
    let parts = sections(s);
    let g = scan_grid(parts.0, 0, 0, Map::empty(), (0, 0), 0, 0);
    let end = sim_run(g.0, as_pos(g.1), move_dirs(parts.1));
    crate_score(end.0)
}

/// Runs a narrow-grid puzzle: the input holds the grid, a blank line, and the
/// command characters. Answers the decimal score of the final grid.
pub fn process(input: &str) -> (r: String)
    requires
        input.spec_bytes().len() <= parse_limit(),
        valid_moves(sections(input.spec_bytes()).1),
    ensures
        r@ == int_string(part1_spec(input.spec_bytes())),
{
    let bytes = input.as_bytes();
    let n = bytes.len();
    let (grid_end, moves_start): (usize, usize) = match find_blank(bytes) {
        Some(i) => (i, i + 2),
        None => (0, n),
    };
    let ghost parts = sections(input.spec_bytes());
    proof {
        if split_blank(bytes@) is None {
            assert(bytes@.subrange(0, 0) =~= parts.0);
            assert(bytes@.subrange(n as int, n as int) =~= parts.1);
        } else {
            assert(bytes@.subrange(0, grid_end as int) =~= parts.0);
            assert(bytes@.subrange(moves_start as int, n as int) =~= parts.1);
        }
    }
    let mut warehouse = Warehouse::from(&bytes[0..grid_end]);
    let moves = parse_moves(&bytes[moves_start..n]);
    let ghost g = scan_grid(parts.0, 0, 0, Map::empty(), (0, 0), 0, 0);
    let n_moves = moves.len();
    proof {
        assert(moves@.skip(0) =~= moves@);
        warehouse.floorplan.lemma_pairs();
        assert(dom_bounded(warehouse.floorplan@, n as int));
        assert(warehouse.floorplan@ == g.0);
        assert((warehouse.robot.x as int, warehouse.robot.y as int) == g.1);
        assert(as_pos(g.1) == warehouse.robot);
        assert(sim_run(g.0, as_pos(g.1), move_dirs(parts.1)) == sim_run(
            warehouse.floorplan@,
            warehouse.robot,
            moves@.skip(0),
        ));
    }
    for i in 0..n_moves
        invariant
            n <= parse_limit(),
            n_moves == moves@.len(),
            n_moves <= n,
            moves@ == move_dirs(parts.1),
            forall|k: int| 0 <= k < moves@.len() ==> is_unit(#[trigger] moves@[k]),
            warehouse.wf(),
            sim_run(g.0, as_pos(g.1), move_dirs(parts.1)) == sim_run(
                warehouse.floorplan@,
                warehouse.robot,
                moves@.skip(i as int),
            ),
            dom_bounded(warehouse.floorplan@, n + i),
            -(n + i) <= warehouse.robot.x <= n + i,
            -(n + i) <= warehouse.robot.y <= n + i,
            warehouse.floorplan@.dom().len() <= n,
            warehouse.floorplan@.dom().finite(),
            warehouse.floorplan.pairs().len() == warehouse.floorplan@.dom().len(),
    {
        let d = moves[i];
        let ghost m_before = warehouse.floorplan@;
        let ghost robot_before = warehouse.robot;
        let new_position = Pos { x: warehouse.robot.x + d.x, y: warehouse.robot.y + d.y };
        proof {
            assert(moves@.skip(i as int)[0] == d);
            assert(moves@.skip(i as int).skip(1) =~= moves@.skip(i + 1));
            assert(coords(new_position) == step_c(coords(robot_before), d));
        }
        if warehouse.try_move(&new_position, &d) {
            warehouse.robot = new_position;
        }
        proof {
            let c = step_c(coords(robot_before), d);
            if can_push(m_before, c, d) {
                let n0 = choose|k: nat|
                    push_run(m_before, c, d, k) && warehouse.floorplan@ =~= pushed(
                        m_before,
                        c,
                        d,
                        k,
                    );
                let n1 = choose|k: nat| push_run(m_before, c, d, k);
                lemma_push_run_unique(m_before, c, d, n0, n1);
                assert(warehouse.floorplan@ == sim_step(m_before, robot_before, d).0);
                lemma_push_conserves(m_before, c, d, n0);
                // the one coordinate a push can add is one step past a crate
                assert(dom_bounded(warehouse.floorplan@, n + i + 1)) by {
                    if n0 > 0 {
                        lemma_push_run_cells(m_before, c, d, n0);
                        lemma_walk_c_snoc(c, d, (n0 - 1) as nat);
                        let last = walk_c(c, d, (n0 - 1) as nat);
                        assert(crate::warehouse::store::cell_of(m_before, last) == Some(
                            crate::warehouse::cell::Item::Crate,
                        ));
                        assert(m_before.dom().contains(as_pos(last)));
                        assert forall|q: Pos|
                            #[trigger] warehouse.floorplan@.dom().contains(q) implies -(n + i + 1)
                            <= q.x <= n + i + 1 && -(n + i + 1) <= q.y <= n + i + 1 by {
                            if q != as_pos(walk_c(c, d, n0 as nat)) {
                                assert(m_before.dom().contains(q));
                            } else {
                                assert(coords(q) == step_c(last, d));
                            }
                        }
                    }
                }
            } else {
                assert(warehouse.floorplan@ == m_before);
            }
            warehouse.floorplan.lemma_pairs();
        }
    }
    proof {
        assert(moves@.skip(n_moves as int) =~= Seq::<Pos>::empty());
        assert(warehouse.floorplan.pairs().len() <= crate::warehouse::narrow::score_bound());
        assert forall|k: int| 0 <= k < warehouse.floorplan.pairs().len() implies {
            let p = (#[trigger] warehouse.floorplan.pairs()[k]).0;
            -crate::warehouse::narrow::score_bound() <= p.x <= crate::warehouse::narrow::score_bound()
                && -crate::warehouse::narrow::score_bound() <= p.y
                <= crate::warehouse::narrow::score_bound()
        } by {
            warehouse.floorplan.lemma_pairs();
            let p = warehouse.floorplan.pairs()[k].0;
            assert(warehouse.floorplan@.dom().contains(p));
        }
    }
    let score = warehouse.box_score();
    crate::text::i64_to_string(score)
}

} // verus!
