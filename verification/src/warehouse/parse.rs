//! Building a warehouse from its text form: a rectangular character grid
//! (`#` wall, `O` crate, `@` agent, `.` floor), and for the wide variant the
//! same grid with every character doubled in width (`#`→`##`, `O`→`[]`,
//! `@`→`@.`, `.`→`..`).

use vstd::prelude::*;

use crate::warehouse::cell::Item;
use crate::warehouse::cell::Pos;
use crate::warehouse::cell::WideItem;
use crate::warehouse::cell::as_pos;
use crate::warehouse::narrow::Warehouse;
use crate::warehouse::store::CellGrid;
use crate::warehouse::store::cell_of;
use crate::warehouse::store::step_c;
use crate::warehouse::wide::WideWarehouse;

verus! {

/// Inputs longer than this are not parsed; the bound keeps every coordinate
/// and score far inside the machine integer types.
pub open spec fn parse_limit() -> int {
    0x10_0000
}

/// One pass over the grid text, character by character: `row`/`col` track the
/// reading position, `m`, `robot`, `rows` and `cols` accumulate the cells
/// bound so far, the last agent marker, and the largest row and column seen.
/// `#` binds a wall, `O` a crate, `@` moves the agent marker; every character
/// but a line break advances the column and widens the tracked extent.
pub open spec fn scan_grid(
    s: Seq<u8>,
    row: int,
    col: int,
    m: Map<Pos, Item>,
    robot: (int, int),
    rows: int,
    cols: int,
) -> (Map<Pos, Item>, (int, int), int, int)
    decreases s.len(),
{
    if s.len() == 0 {
        (m, robot, rows, cols)
    } else {
        let b = s[0];
        let rest = s.skip(1);
        if b == 10 {
            scan_grid(rest, row + 1, 0, m, robot, rows, cols)
        } else if b == 13 && (s.len() == 1 || s[1] == 10) {
            scan_grid(rest, row, col, m, robot, rows, cols)
        } else {
            let rows2 = if row > rows {
                row
            } else {
                rows
            };
            let cols2 = if col > cols {
                col
            } else {
                cols
            };
            if b == 35 {
                scan_grid(rest, row, col + 1, m.insert(as_pos((row, col)), Item::Wall), robot, rows2, cols2)
            } else if b == 79 {
                scan_grid(rest, row, col + 1, m.insert(as_pos((row, col)), Item::Crate), robot, rows2, cols2)
            } else if b == 64 {
                scan_grid(rest, row, col + 1, m, (row, col), rows2, cols2)
            } else {
                scan_grid(rest, row, col + 1, m, robot, rows2, cols2)
            }
        }
    }
}

/// The same pass over the doubled grid text, with `[` and `]` binding the two
/// halves of a crate.
pub open spec fn wscan_grid(
    s: Seq<u8>,
    row: int,
    col: int,
    m: Map<Pos, WideItem>,
    robot: (int, int),
    rows: int,
    cols: int,
) -> (Map<Pos, WideItem>, (int, int), int, int)
    decreases s.len(),
{
    if s.len() == 0 {
        (m, robot, rows, cols)
    } else {
        let b = s[0];
        let rest = s.skip(1);
        if b == 10 {
            wscan_grid(rest, row + 1, 0, m, robot, rows, cols)
        } else {
            let rows2 = if row > rows {
                row
            } else {
                rows
            };
            let cols2 = if col > cols {
                col
            } else {
                cols
            };
            if b == 35 {
                wscan_grid(rest, row, col + 1, m.insert(as_pos((row, col)), WideItem::Wall), robot, rows2, cols2)
            } else if b == 91 {
                wscan_grid(rest, row, col + 1, m.insert(as_pos((row, col)), WideItem::CrateLeft), robot, rows2, cols2)
            } else if b == 93 {
                wscan_grid(rest, row, col + 1, m.insert(as_pos((row, col)), WideItem::CrateRight), robot, rows2, cols2)
            } else if b == 64 {
                wscan_grid(rest, row, col + 1, m, (row, col), rows2, cols2)
            } else {
                wscan_grid(rest, row, col + 1, m, robot, rows2, cols2)
            }
        }
    }
}

/// The characters a narrow grid may use, doubled in width.
pub open spec fn expand1(b: u8) -> Seq<u8> {
    if b == 35 {
        seq![35u8, 35u8]
    } else if b == 79 {
        seq![91u8, 93u8]
    } else if b == 64 {
        seq![64u8, 46u8]
    } else if b == 46 {
        seq![46u8, 46u8]
    } else {
        seq![10u8]
    }
}

/// A narrow grid text doubled in width, line breaks kept.
pub open spec fn expand(s: Seq<u8>) -> Seq<u8>
    decreases s.len(),
{
    if s.len() == 0 {
        Seq::empty()
    } else {
        expand1(s[0]) + expand(s.skip(1))
    }
}

/// The grid characters the wide variant accepts: wall, crate, agent, floor,
/// and line breaks.
pub open spec fn valid_wide_plan(s: Seq<u8>) -> bool {
    forall|i: int|
        0 <= i < s.len() ==> ((#[trigger] s[i]) == 35 || s[i] == 79 || s[i] == 64 || s[i] == 46
            || s[i] == 10)
}


/// Scanning a concatenation scans the parts in order.
proof fn lemma_wscan_append(
    a: Seq<u8>,
    b: Seq<u8>,
    row: int,
    col: int,
    m: Map<Pos, WideItem>,
    robot: (int, int),
    rows: int,
    cols: int,
)
    ensures
        wscan_grid(a + b, row, col, m, robot, rows, cols) == ({
            let t = wscan_grid(a, row, col, m, robot, rows, cols);
            wscan_grid(b, ({
                let u = scan_cursor(a, row, col);
                u.0
            }), ({
                let u = scan_cursor(a, row, col);
                u.1
            }), t.0, t.1, t.2, t.3)
        }),
    decreases a.len(),
{
    if a.len() == 0 {
        assert(a + b =~= b);
    } else {
        assert((a + b)[0] == a[0]);
        assert((a + b).skip(1) =~= a.skip(1) + b);
        let h = a[0];
        if h == 10 {
            lemma_wscan_append(a.skip(1), b, row + 1, 0, m, robot, rows, cols);
        } else {
            let rows2 = if row > rows { row } else { rows };
            let cols2 = if col > cols { col } else { cols };
            if h == 35 {
                lemma_wscan_append(a.skip(1), b, row, col + 1, m.insert(as_pos((row, col)), WideItem::Wall), robot, rows2, cols2);
            } else if h == 91 {
                lemma_wscan_append(a.skip(1), b, row, col + 1, m.insert(as_pos((row, col)), WideItem::CrateLeft), robot, rows2, cols2);
            } else if h == 93 {
                lemma_wscan_append(a.skip(1), b, row, col + 1, m.insert(as_pos((row, col)), WideItem::CrateRight), robot, rows2, cols2);
            } else if h == 64 {
                lemma_wscan_append(a.skip(1), b, row, col + 1, m, (row, col), rows2, cols2);
            } else {
                lemma_wscan_append(a.skip(1), b, row, col + 1, m, robot, rows2, cols2);
            }
        }
    }
}

/// Where the cursor stands after scanning `s` from `(row, col)`; the cursor
/// does not depend on what was bound before.
pub open spec fn scan_cursor(s: Seq<u8>, row: int, col: int) -> (int, int)
    decreases s.len(),
{
    if s.len() == 0 {
        (row, col)
    } else if s[0] == 10 {
        scan_cursor(s.skip(1), row + 1, 0)
    } else {
        scan_cursor(s.skip(1), row, col + 1)
    }
}

/// Every cell bound while scanning from `(row, col)` lies strictly before the
/// scan cursor, reading row-major.
pub open spec fn before_cursor(m: Map<Pos, WideItem>, row: int, col: int) -> bool {
    forall|p: Pos|
        #[trigger] m.dom().contains(p) ==> p.x < row || (p.x == row && p.y < col)
}

/// Scanning a doubled grid from a paired map whose cells all lie before the
/// cursor yields a paired map: the two halves of each crate are bound by one
/// doubled character, one right after the other.
#[verifier::rlimit(100)]
#[verifier::spinoff_prover]
proof fn lemma_wscan_expand_paired(
    s: Seq<u8>,
    row: int,
    col: int,
    m: Map<Pos, WideItem>,
    robot: (int, int),
    rows: int,
    cols: int,
)
    requires
        valid_wide_plan(s),
        crate::warehouse::wide::paired(m),
        before_cursor(m, row, col),
        0 <= row,
        0 <= col,
        row + s.len() <= 0x20_0000,
        col + 2 * s.len() <= 0x20_0000,
    ensures
        crate::warehouse::wide::paired(
            wscan_grid(expand(s), row, col, m, robot, rows, cols).0,
        ),
    decreases s.len(),
{
    if s.len() == 0 {
    } else {
        let b = s[0];
        let rest = s.skip(1);
        let e1 = expand1(b);
        assert(expand(s) == e1 + expand(rest));
        lemma_wscan_append(e1, expand(rest), row, col, m, robot, rows, cols);
        let t = wscan_grid(e1, row, col, m, robot, rows, cols);
        let u = scan_cursor(e1, row, col);
        reveal_with_fuel(wscan_grid, 3);
        reveal_with_fuel(scan_cursor, 3);
        if e1.len() == 2 {
            assert(e1.skip(1).skip(1) =~= Seq::<u8>::empty());
        } else {
            assert(e1.skip(1) =~= Seq::<u8>::empty());
        }
        if b == 10 {
            assert(e1 =~= seq![10u8]);
            assert(e1.skip(1) =~= Seq::<u8>::empty());
            assert(t.0 == m && u == (row + 1, 0int));
            assert(before_cursor(m, row + 1, 0));
            lemma_wscan_expand_paired(rest, row + 1, 0, m, t.1, t.2, t.3);
        } else if b == 64 || b == 46 {
            assert(e1[0] != 10 && e1[0] != 35 && e1[0] != 91 && e1[0] != 93);
            assert(e1[1] == 46);
            assert(e1.skip(1).skip(1) =~= Seq::<u8>::empty());
            assert(t.0 == m && u == (row, col + 2));
            assert(before_cursor(m, row, col + 2));
            lemma_wscan_expand_paired(rest, row, col + 2, m, t.1, t.2, t.3);
        } else {
            // a wall or a crate binds the two cells under the cursor
            let lpos = as_pos((row, col));
            let rpos = as_pos((row, col + 1));
            let (lv, rv) = if b == 35 {
                (WideItem::Wall, WideItem::Wall)
            } else {
                (WideItem::CrateLeft, WideItem::CrateRight)
            };
            assert(b == 35 || b == 79);
            assert(e1.len() == 2 && e1.skip(1).skip(1) =~= Seq::<u8>::empty());
            assert(e1.skip(1)[0] == e1[1]);
            let m2 = m.insert(lpos, lv).insert(rpos, rv);
            assert(t.0 == m2 && u == (row, col + 2));
            assert(!m.dom().contains(lpos) && !m.dom().contains(rpos));
            assert(crate::warehouse::wide::paired(m2)) by {
                assert forall|c: (int, int)|
                    #![trigger cell_of(m2, step_c(c, crate::warehouse::cell::spec_right()))]
                    cell_of(m2, c) == Some(WideItem::CrateLeft) <==> cell_of(
                        m2,
                        step_c(c, crate::warehouse::cell::spec_right()),
                    ) == Some(WideItem::CrateRight) by {
                    let c1 = step_c(c, crate::warehouse::cell::spec_right());
                    crate::warehouse::wide::lemma_paired_at(m, c);
                    if c == (row, col - 1) {
                        // m holds no CrateLeft here: its partner cell is under
                        // the cursor, which is still unbound in m
                        assert(cell_of(m2, c) == cell_of(m, c)) by {
                            lemma_untouched(m, lpos, lv, rpos, rv, c);
                        }
                        assert(cell_of(m, (row, col)) is None);
                    } else if c == (row, col) || c == (row, col + 1) {
                        assert(cell_of(m2, (row, col)) == Some(lv));
                        assert(cell_of(m2, (row, col + 1)) == Some(rv));
                        assert(cell_of(m2, (row, col + 2)) == cell_of(m, (row, col + 2))) by {
                            lemma_untouched(m, lpos, lv, rpos, rv, (row, col + 2));
                        }
                        // m holds no CrateRight just past the cursor: its
                        // partner would be under the cursor
                        crate::warehouse::wide::lemma_paired_at(m, (row, col + 1));
                        assert(cell_of(m, (row, col + 1)) is None);
                    } else {
                        assert(cell_of(m2, c) == cell_of(m, c)) by {
                            lemma_untouched(m, lpos, lv, rpos, rv, c);
                        }
                        assert(cell_of(m2, c1) == cell_of(m, c1)) by {
                            lemma_untouched(m, lpos, lv, rpos, rv, c1);
                        }
                    }
                }
            }
            assert(before_cursor(m2, row, col + 2));
            lemma_wscan_expand_paired(rest, row, col + 2, m2, t.1, t.2, t.3);
        }
    }
}

/// A cell away from the two bound coordinates keeps its contents.
proof fn lemma_untouched(
    m: Map<Pos, WideItem>,
    lpos: Pos,
    lv: WideItem,
    rpos: Pos,
    rv: WideItem,
    c: (int, int),
)
    requires
        c != (lpos.x as int, lpos.y as int),
        c != (rpos.x as int, rpos.y as int),
    ensures
        cell_of(m.insert(lpos, lv).insert(rpos, rv), c) == cell_of(m, c),
{
    if crate::warehouse::cell::in_i64(c) {
        if as_pos(c) == lpos {
            crate::warehouse::cell::lemma_as_pos_injective(c, (lpos.x as int, lpos.y as int));
        }
        if as_pos(c) == rpos {
            crate::warehouse::cell::lemma_as_pos_injective(c, (rpos.x as int, rpos.y as int));
        }
    }
}

impl Warehouse {
    /// Reads a narrow warehouse from its text grid. Unknown characters are
    /// floor; the agent marker leaves its cell empty; the extent is the
    /// largest row and column seen.
    pub fn from(plan: &[u8]) -> (w: Warehouse)
        requires
            plan@.len() <= parse_limit(),
        ensures
            w.wf(),
            ({
                let r = scan_grid(plan@, 0, 0, Map::empty(), (0, 0), 0, 0);
                w.floorplan@ == r.0 && (w.robot.x as int, w.robot.y as int) == r.1 && w.height
                    == r.2 && w.width == r.3
            }),
            w.floorplan.pairs().len() <= plan@.len(),
            forall|p: Pos|
                #[trigger] w.floorplan@.dom().contains(p) ==> 0 <= p.x <= plan@.len() && 0 <= p.y
                    <= plan@.len(),
            0 <= w.robot.x <= plan@.len() && 0 <= w.robot.y <= plan@.len(),
    {
        let n = plan.len();
        let mut floorplan: CellGrid<Item> = CellGrid::new();
        let mut robot = Pos { x: 0, y: 0 };
        let mut row: i64 = 0;
        let mut col: i64 = 0;
        let mut rows: i64 = 0;
        let mut cols: i64 = 0;
        proof {
            assert(plan@.skip(0) =~= plan@);
        }
        for i in 0..n
            invariant
                n == plan@.len(),
                n <= parse_limit(),
                floorplan.wf(),
                scan_grid(plan@, 0, 0, Map::empty(), (0, 0), 0, 0) == scan_grid(
                    plan@.skip(i as int),
                    row as int,
                    col as int,
                    floorplan@,
                    (robot.x as int, robot.y as int),
                    rows as int,
                    cols as int,
                ),
                0 <= row <= i,
                0 <= col <= i,
                0 <= rows <= i,
                0 <= cols <= i,
                0 <= robot.x <= i,
                0 <= robot.y <= i,
                floorplan.pairs().len() <= i,
                forall|p: Pos|
                    #[trigger] floorplan@.dom().contains(p) ==> 0 <= p.x <= n && 0 <= p.y <= n,
        {
            let b = plan[i];
            proof {
                assert(plan@.skip(i as int)[0] == b);
                assert(plan@.skip(i as int).skip(1) =~= plan@.skip(i + 1));
                assert(plan@.skip(i as int).len() == n - i);
                if i + 1 < n {
                    assert(plan@.skip(i as int)[1] == plan@[i + 1]);
                }
            }
            if b == 10 {
                row = row + 1;
                col = 0;
            } else if b == 13 && (i + 1 == n || plan[i + 1] == 10) {
            } else {
                if row > rows {
                    rows = row;
                }
                if col > cols {
                    cols = col;
                }
                if b == 35 {
                    floorplan.insert(Pos { x: row, y: col }, Item::Wall);
                } else if b == 79 {
                    floorplan.insert(Pos { x: row, y: col }, Item::Crate);
                } else if b == 64 {
                    robot = Pos { x: row, y: col };
                }
                col = col + 1;
            }
        }
        proof {
            assert(plan@.skip(n as int) =~= Seq::<u8>::empty());
        }
        Warehouse { height: rows, width: cols, floorplan, robot }
    }
}

impl WideWarehouse {
    /// Reads a wide warehouse from a narrow text grid by doubling every
    /// character's width first. Only the narrow grid characters and line
    /// breaks are meaningful here, so anything else is left out by contract.
    pub fn from(plan: &[u8]) -> (w: WideWarehouse)
        requires
            plan@.len() <= parse_limit(),
            valid_wide_plan(plan@),
        ensures
            w.wf(),
            crate::warehouse::wide::paired(w.floorplan@),
            ({
                let r = wscan_grid(expand(plan@), 0, 0, Map::empty(), (0, 0), 0, 0);
                w.floorplan@ == r.0 && (w.robot.x as int, w.robot.y as int) == r.1 && w.height
                    == r.2 && w.width == r.3
            }),
            w.floorplan.pairs().len() <= 2 * plan@.len(),
            forall|p: Pos|
                #[trigger] w.floorplan@.dom().contains(p) ==> 0 <= p.x <= 2 * plan@.len() && 0
                    <= p.y <= 2 * plan@.len(),
            0 <= w.robot.x <= 2 * plan@.len() && 0 <= w.robot.y <= 2 * plan@.len(),
    {
        let n = plan.len();
        let mut doubled: Vec<u8> = Vec::new();
        proof {
            assert(plan@.skip(0) =~= plan@);
            assert(Seq::<u8>::empty() + expand(plan@) =~= expand(plan@));
        }
        for i in 0..n
            invariant
                n == plan@.len(),
                n <= parse_limit(),
                valid_wide_plan(plan@),
                doubled@.len() <= 2 * i,
                expand(plan@) == doubled@ + expand(plan@.skip(i as int)),
                forall|j: int|
                    0 <= j < doubled@.len() ==> (doubled@[j] == 35 || doubled@[j] == 91
                        || doubled@[j] == 93 || doubled@[j] == 64 || doubled@[j] == 46 || (
                    #[trigger] doubled@[j]) == 10),
        {
            let b = plan[i];
            let ghost before = doubled@;
            proof {
                assert(plan@.skip(i as int)[0] == b);
                assert(plan@.skip(i as int).skip(1) =~= plan@.skip(i + 1));
            }
            if b == 35 {
                doubled.push(35);
                doubled.push(35);
            } else if b == 79 {
                doubled.push(91);
                doubled.push(93);
            } else if b == 64 {
                doubled.push(64);
                doubled.push(46);
            } else if b == 46 {
                doubled.push(46);
                doubled.push(46);
            } else {
                doubled.push(10);
            }
            proof {
                assert(doubled@ =~= before + expand1(b));
                assert(before + expand1(b) + expand(plan@.skip(i + 1)) =~= before + (expand1(b)
                    + expand(plan@.skip(i + 1))));
            }
        }
        proof {
            assert(plan@.skip(n as int) =~= Seq::<u8>::empty());
            assert(expand(plan@.skip(n as int)) =~= Seq::<u8>::empty());
            assert(doubled@ + Seq::<u8>::empty() =~= doubled@);
        }
        let dn = doubled.len();
        let mut floorplan: CellGrid<WideItem> = CellGrid::new();
        let mut robot = Pos { x: 0, y: 0 };
        let mut row: i64 = 0;
        let mut col: i64 = 0;
        let mut rows: i64 = 0;
        let mut cols: i64 = 0;
        proof {
            assert(doubled@.skip(0) =~= doubled@);
        }
        for i in 0..dn
            invariant
                dn == doubled@.len(),
                dn <= 2 * parse_limit(),
                floorplan.wf(),
                wscan_grid(doubled@, 0, 0, Map::empty(), (0, 0), 0, 0) == wscan_grid(
                    doubled@.skip(i as int),
                    row as int,
                    col as int,
                    floorplan@,
                    (robot.x as int, robot.y as int),
                    rows as int,
                    cols as int,
                ),
                0 <= row <= i,
                0 <= col <= i,
                0 <= rows <= i,
                0 <= cols <= i,
                0 <= robot.x <= i,
                0 <= robot.y <= i,
                floorplan.pairs().len() <= i,
                forall|p: Pos|
                    #[trigger] floorplan@.dom().contains(p) ==> 0 <= p.x <= dn && 0 <= p.y <= dn,
        {
            let b = doubled[i];
            proof {
                assert(doubled@.skip(i as int)[0] == b);
                assert(doubled@.skip(i as int).skip(1) =~= doubled@.skip(i + 1));
            }
            if b == 10 {
                row = row + 1;
                col = 0;
            } else {
                if row > rows {
                    rows = row;
                }
                if col > cols {
                    cols = col;
                }
                if b == 35 {
                    floorplan.insert(Pos { x: row, y: col }, WideItem::Wall);
                } else if b == 91 {
                    floorplan.insert(Pos { x: row, y: col }, WideItem::CrateLeft);
                } else if b == 93 {
                    floorplan.insert(Pos { x: row, y: col }, WideItem::CrateRight);
                } else if b == 64 {
                    robot = Pos { x: row, y: col };
                }
                col = col + 1;
            }
        }
        proof {
            assert(doubled@.skip(dn as int) =~= Seq::<u8>::empty());
            assert(crate::warehouse::wide::paired(Map::<Pos, WideItem>::empty())) by {
                assert forall|c: (int, int)|
                    #![trigger cell_of(Map::<Pos, WideItem>::empty(), step_c(c, crate::warehouse::cell::spec_right()))]
                    cell_of(Map::<Pos, WideItem>::empty(), c) == Some(WideItem::CrateLeft)
                        <==> cell_of(
                        Map::<Pos, WideItem>::empty(),
                        step_c(c, crate::warehouse::cell::spec_right()),
                    ) == Some(WideItem::CrateRight) by {}
            }
            lemma_wscan_expand_paired(plan@, 0, 0, Map::empty(), (0, 0), 0, 0);
        }
        WideWarehouse { height: rows, width: cols, floorplan, robot }
    }
}

} // verus!
