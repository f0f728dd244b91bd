//! The patrolling guard's vocabulary: a grid point, a facing, and the guard
//! itself. The facing steps one cell at a time and turns clockwise on every
//! obstacle.

use vstd::prelude::*;

verus! {

/// A grid point: row then column.
#[derive(Debug, Copy, Clone, Default, Eq, PartialEq, Hash, Structural)]
pub struct Point(pub i32, pub i32);

/// A unit offset between grid points.
#[derive(Debug, Copy, Clone, Eq, PartialEq, Structural)]
pub struct Offset(pub i32, pub i32);

impl Point {
    /// The point one offset away.
    pub fn plus(self, o: Offset) -> (r: Point)
        requires
            i32::MIN <= self.0 + o.0 <= i32::MAX,
            i32::MIN <= self.1 + o.1 <= i32::MAX,
        ensures
            r.0 == self.0 + o.0,
            r.1 == self.1 + o.1,
    {
        Point(self.0 + o.0, self.1 + o.1)
    }
}

/// A facing of the guard.
#[derive(Debug, Copy, Clone, Eq, PartialEq, Hash, Structural)]
pub enum Direction {
    Up,
    Down,
    Right,
    Left,
}

impl Direction {
    /// The unit offset of one step in this facing: up and down move along
    /// rows, right and left along columns.
    pub fn offset(&self) -> (o: Offset)
        ensures
            o == match self {
                Direction::Up => (Offset(-1i32, 0)),
                Direction::Down => (Offset(1, 0)),
                Direction::Right => (Offset(0, 1)),
                Direction::Left => (Offset(0, -1i32)),
            },
    {
        match self {
            Direction::Up => Offset(-1, 0),
            Direction::Down => Offset(1, 0),
            Direction::Right => Offset(0, 1),
            Direction::Left => Offset(0, -1),
        }
    }

    /// The facing after a clockwise quarter turn.
    pub fn turn(&self) -> (d: Direction)
        ensures
            d == match self {
                Direction::Up => Direction::Right,
                Direction::Down => Direction::Left,
                Direction::Right => Direction::Down,
                Direction::Left => Direction::Up,
            },
    {
        match self {
            Direction::Up => Direction::Right,
            Direction::Down => Direction::Left,
            Direction::Right => Direction::Down,
            Direction::Left => Direction::Up,
        }
    }
}

/// The guard: where it stands and where it faces.
#[derive(Debug, Copy, Clone, Eq, PartialEq, Structural)]
pub struct Guard {
    pub position: Point,
    pub direction: Direction,
}


/// The terrain byte at mathematical coordinates, `None` off the map.
pub open spec fn cell(g: Seq<Seq<u8>>, x: int, y: int) -> Option<u8> {
    if 0 <= x < g.len() && 0 <= y < g[x].len() {
        Some(g[x][y])
    } else {
        None
    }
}

/// The facing's unit offset, as ghost math.
pub open spec fn spec_offset(d: Direction) -> (int, int) {
    match d {
        Direction::Up => (-1, 0),
        Direction::Down => (1, 0),
        Direction::Right => (0, 1),
        Direction::Left => (0, -1),
    }
}

/// The facing after a clockwise quarter turn, as ghost math.
pub open spec fn spec_turn(d: Direction) -> Direction {
    match d {
        Direction::Up => Direction::Right,
        Direction::Down => Direction::Left,
        Direction::Right => Direction::Down,
        Direction::Left => Direction::Up,
    }
}

/// One step of the patrol: turn before an obstacle, advance onto anything
/// else, `None` once the next cell lies off the map.
pub open spec fn patrol_step(g: Seq<Seq<u8>>, gd: Guard) -> Option<Guard> {
    let o = spec_offset(gd.direction);
    let nx = gd.position.0 + o.0;
    let ny = gd.position.1 + o.1;
    match cell(g, nx, ny) {
        Some(b) => if b == 35 {
            Some(Guard { position: gd.position, direction: spec_turn(gd.direction) })
        } else {
            Some(Guard { position: Point(nx as i32, ny as i32), direction: gd.direction })
        },
        None => None,
    }
}

/// The guard's state after `k` steps, `None` once it has left the map.
pub open spec fn patrol_at(g: Seq<Seq<u8>>, gd: Guard, k: nat) -> Option<Guard>
    decreases k,
{
    if k == 0 {
        Some(gd)
    } else {
        match patrol_at(g, gd, (k - 1) as nat) {
            None => None,
            Some(s1) => patrol_step(g, s1),
        }
    }
}

/// The guard eventually walks off the map. Grids that trap it in a cycle
/// keep the patrol going forever, so they are left out.
pub open spec fn leaves(g: Seq<Seq<u8>>, gd: Guard) -> bool {
    exists|k: nat| (#[trigger] patrol_at(g, gd, k)) is None
}

/// Once off the map, off for good.
proof fn lemma_patrol_none_stays(g: Seq<Seq<u8>>, gd: Guard, k1: nat, k2: nat)
    requires
        k1 <= k2,
        patrol_at(g, gd, k1) is None,
    ensures
        patrol_at(g, gd, k2) is None,
    decreases k2,
{
    if k2 > k1 {
        lemma_patrol_none_stays(g, gd, k1, (k2 - 1) as nat);
    }
}

/// The path holds exactly the positions of the first `steps + 1` states.
pub open spec fn visited_upto(g: Seq<Seq<u8>>, g0: Guard, path: Seq<Point>, steps: nat) -> bool {
    forall|p: Point|
        #[trigger] path.contains(p) <==> exists|k: nat|
            k < steps && (#[trigger] patrol_at(g, g0, k)) is Some && patrol_at(g, g0, k)->0.position
                == p
}

/// Map extents this small keep the patrol arithmetic inside `i32`.
pub open spec fn patrol_bound() -> int {
    0x4000_0000
}

/// The labyrinth: its terrain and the guard walking it.
pub struct Labyrinth {
    pub grid: Vec<Vec<u8>>,
    pub guard: Guard,
}

impl Labyrinth {
    /// The terrain rows, as ghost math.
    pub open spec fn grid_view(&self) -> Seq<Seq<u8>> {
        self.grid@.map_values(|r: Vec<u8>| r@)
    }

    /// The terrain byte under a point, `None` off the map.
    fn get(&self, p: Point) -> (r: Option<u8>)
        ensures
            r == cell(self.grid_view(), p.0 as int, p.1 as int),
    {
        if p.0 < 0 || p.1 < 0 {
            return None;
        }
        let x = p.0 as usize;
        let y = p.1 as usize;
        if x < self.grid.len() {
            proof {
                assert(self.grid_view()[x as int] == self.grid@[x as int]@);
            }
            if y < self.grid[x].len() {
                Some(self.grid[x][y])
            } else {
                None
            }
        } else {
            None
        }
    }

    /// Walks the guard until it leaves the map: turn clockwise before each
    /// obstacle, step forward otherwise. Answers every distinct position the
    /// guard stood on, and leaves the guard in its last on-map state.
    pub fn walk(&mut self) -> (r: Vec<Point>)
        requires
            old(self).grid@.len() <= patrol_bound(),
            forall|x: int|
                0 <= x < old(self).grid@.len() ==> (#[trigger] old(self).grid@[x])@.len()
                    <= patrol_bound(),
            -patrol_bound() <= old(self).guard.position.0 <= patrol_bound(),
            -patrol_bound() <= old(self).guard.position.1 <= patrol_bound(),
            leaves(old(self).grid_view(), old(self).guard),
        ensures
            final(self).grid == old(self).grid,
            r@.no_duplicates(),
            forall|p: Point|
                #[trigger] r@.contains(p) <==> exists|k: nat|
                    (#[trigger] patrol_at(old(self).grid_view(), old(self).guard, k)) is Some
                        && patrol_at(old(self).grid_view(), old(self).guard, k)->0.position == p,
            exists|k: nat|
                (#[trigger] patrol_at(old(self).grid_view(), old(self).guard, k)) == Some(
                    final(self).guard,
                ) && patrol_at(old(self).grid_view(), old(self).guard, k + 1) is None,
    {
        let ghost gv = self.grid_view();
        let ghost g0 = self.guard;
        let ghost n0 = choose|k: nat| (#[trigger] patrol_at(gv, g0, k)) is None;
        let mut path: Vec<Point> = Vec::new();
        let ghost mut steps: nat = 0;
        loop
            invariant
                self.grid == old(self).grid,
                gv == self.grid_view(),
                g0 == old(self).guard,
                self.grid@.len() <= patrol_bound(),
                forall|x: int|
                    0 <= x < self.grid@.len() ==> (#[trigger] self.grid@[x])@.len()
                        <= patrol_bound(),
                -patrol_bound() - 1 <= self.guard.position.0 <= patrol_bound() + 1,
                -patrol_bound() - 1 <= self.guard.position.1 <= patrol_bound() + 1,
                patrol_at(gv, g0, steps) == Some(self.guard),
                patrol_at(gv, g0, n0) is None,
                path@.no_duplicates(),
                visited_upto(gv, g0, path@, steps),
            decreases n0 - steps,
        {
            proof {
                if steps >= n0 {
                    lemma_patrol_none_stays(gv, g0, n0, steps);
                }
            }
            let ghost prev = path@;
            if !contains_point(&path, self.guard.position) {
                path.push(self.guard.position);
                proof {
                    assert(path@.drop_last() =~= prev);
                    assert(path@.last() == self.guard.position);
                }
            }
            proof {
                assert(visited_upto(gv, g0, path@, steps + 1)) by {
                    assert forall|p: Point| #[trigger] path@.contains(p) <==> exists|k: nat|
                        k < steps + 1 && (#[trigger] patrol_at(gv, g0, k)) is Some && patrol_at(
                        gv,
                        g0,
                        k,
                    )->0.position == p by {
                        if path@.contains(p) {
                            if prev.contains(p) {
                                assert(visited_upto(gv, g0, prev, steps));
                            } else {
                                let j = choose|j: int| 0 <= j < path@.len() && path@[j] == p;
                                if j < prev.len() {
                                    assert(prev[j] == p);
                                }
                                assert(p == self.guard.position);
                                assert(patrol_at(gv, g0, steps) is Some);
                            }
                        }
                        if exists|k: nat|
                            k < steps + 1 && (#[trigger] patrol_at(gv, g0, k)) is Some
                                && patrol_at(gv, g0, k)->0.position == p {
                            let k = choose|k: nat|
                                k < steps + 1 && (#[trigger] patrol_at(gv, g0, k)) is Some
                                    && patrol_at(gv, g0, k)->0.position == p;
                            if k < steps {
                                assert(prev.contains(p));
                                let j = choose|j: int| 0 <= j < prev.len() && prev[j] == p;
                                assert(path@[j] == p);
                            } else {
                                assert(p == self.guard.position);
                                assert(path@.contains(p)) by {
                                    if prev.contains(p) {
                                        let j = choose|j: int|
                                            0 <= j < prev.len() && prev[j] == p;
                                        assert(path@[j] == p);
                                    } else {
                                        assert(path@.last() == p);
                                    }
                                }
                            }
                        }
                    }
                }
            }
            let o = self.guard.direction.offset();
            let next = Point(self.guard.position.0 + o.0, self.guard.position.1 + o.1);
            proof {
                assert((o.0 as int, o.1 as int) == spec_offset(self.guard.direction));
            }
            match self.get(next) {
                Some(b) => {
                    let ghost before_guard = self.guard;
                    if b == 35 {
                        self.guard.direction = self.guard.direction.turn();
                        proof {
                            assert(self.guard.direction == spec_turn(before_guard.direction));
                            assert(patrol_step(gv, before_guard) == Some(self.guard));
                        }
                    } else {
                        self.guard.position = next;
                        proof {
                            assert(0 <= next.0 < gv.len());
                            assert(gv[next.0 as int].len() == self.grid@[next.0 as int]@.len());
                            assert(patrol_step(gv, before_guard) == Some(self.guard));
                        }
                    }
                    proof {
                        assert(patrol_at(gv, g0, steps + 1) == Some(self.guard));
                        steps = steps + 1;
                    }
                },
                None => {
                    proof {
                        assert(patrol_step(gv, self.guard) is None);
                        assert(patrol_at(gv, g0, steps + 1) is None);
                        // every on-map state lies within the first steps + 1
                        assert forall|p: Point| #[trigger] path@.contains(p) <==> exists|k: nat|
                            (#[trigger] patrol_at(gv, g0, k)) is Some && patrol_at(
                            gv,
                            g0,
                            k,
                        )->0.position == p by {
                            if path@.contains(p) {
                                assert(visited_upto(gv, g0, path@, steps + 1));
                            }
                            if exists|k: nat|
                                (#[trigger] patrol_at(gv, g0, k)) is Some && patrol_at(
                                    gv,
                                    g0,
                                    k,
                                )->0.position == p {
                                let k = choose|k: nat|
                                    (#[trigger] patrol_at(gv, g0, k)) is Some && patrol_at(
                                        gv,
                                        g0,
                                        k,
                                    )->0.position == p;
                                if k >= steps + 1 {
                                    lemma_patrol_none_stays(gv, g0, steps + 1, k);
                                }
                                assert(visited_upto(gv, g0, path@, steps + 1));
                            }
                        }
                        assert(patrol_at(gv, g0, steps) == Some(self.guard) && patrol_at(
                            gv,
                            g0,
                            steps + 1,
                        ) is None);
                    }
                    return path;
                },
            }
        }
    }
}

/// Whether `v` holds `p`.
fn contains_point(v: &Vec<Point>, p: Point) -> (r: bool)
    ensures
        r == v@.contains(p),
{
    let n = v.len();
    for i in 0..n
        invariant
            n == v@.len(),
            forall|j: int| 0 <= j < i ==> v@[j] != p,
    {
        if v[i].0 == p.0 && v[i].1 == p.1 {
            return true;
        }
    }
    false
}

} // verus!
