//! The narrow grid: every crate occupies exactly one cell, so a push moves a
//! linear chain of crates.
//!
//! The model of a push: `push_run(m, c, d, n)` says the `n` cells from `c`
//! along `d` all hold crates and the cell after them is empty floor, so the
//! chain can shift. Shifting the whole chain one step equals removing the
//! crate at `c` and adding one on the first empty cell — every intermediate
//! cell stays covered — which is what [`pushed`] returns.

use vstd::prelude::*;

use crate::warehouse::cell::Item;
use crate::warehouse::cell::Pos;
use crate::warehouse::cell::as_pos;
use crate::warehouse::cell::in_i64;
use crate::warehouse::cell::is_unit;
use crate::warehouse::store::CellGrid;
use crate::warehouse::store::cell_of;
use crate::warehouse::store::coords;
use crate::warehouse::store::count_val;
use crate::warehouse::store::lemma_sum_map_remove;
use crate::warehouse::store::sum_map;
use crate::warehouse::store::lemma_count_insert_fresh;
use crate::warehouse::store::lemma_count_remove;
use crate::warehouse::store::lemma_ray_keys_shrink;
use crate::warehouse::store::lemma_walk_c_line;
use crate::warehouse::store::ray_keys;
use crate::warehouse::store::step_c;
use crate::warehouse::store::walk_c;

verus! {

/// The `n` cells from `c` along `d` hold crates, and the cell beyond the last
/// of them is empty floor (and within the machine range). This is the witness
/// that a push at `c` is feasible.
pub open spec fn push_run(m: Map<Pos, Item>, c: (int, int), d: Pos, n: nat) -> bool
    decreases n,
{
    if n == 0 {
        in_i64(c) && cell_of(m, c) is None
    } else {
        cell_of(m, c) == Some(Item::Crate) && push_run(m, step_c(c, d), d, (n - 1) as nat)
    }
}

/// A push at `c` in direction `d` is feasible: the chain of crates starting
/// there (possibly of length zero) ends on empty floor before any wall.
pub open spec fn can_push(m: Map<Pos, Item>, c: (int, int), d: Pos) -> bool {
    exists|n: nat| push_run(m, c, d, n)
}

/// The grid after committing a feasible push witnessed by `push_run(m, c, d,
/// n)`: each crate of the chain shifts one step, which as a map means the
/// first crate's cell empties and the first empty cell gains a crate.
pub open spec fn pushed(m: Map<Pos, Item>, c: (int, int), d: Pos, n: nat) -> Map<Pos, Item> {
    if n == 0 {
        m
    } else {
        m.remove(as_pos(c)).insert(as_pos(walk_c(c, d, n)), Item::Crate)
    }
}

/// What each cell along a feasible run holds: crates up to `n`, floor at `n`.
pub proof fn lemma_push_run_cells(m: Map<Pos, Item>, c: (int, int), d: Pos, n: nat)
    requires
        push_run(m, c, d, n),
    ensures
        forall|k: nat| k < n ==> cell_of(m, walk_c(c, d, k)) == Some(Item::Crate),
        in_i64(walk_c(c, d, n)),
        cell_of(m, walk_c(c, d, n)) is None,
    decreases n,
{
    if n > 0 {
        lemma_push_run_cells(m, step_c(c, d), d, (n - 1) as nat);
        assert forall|k: nat| k < n implies cell_of(m, walk_c(c, d, k)) == Some(Item::Crate) by {
            if k > 0 {
                assert(walk_c(c, d, k) == walk_c(step_c(c, d), d, (k - 1) as nat));
            }
        }
        assert(walk_c(c, d, n) == walk_c(step_c(c, d), d, (n - 1) as nat));
    }
}

/// A feasible run has exactly one witness length, the distance to the first
/// empty cell.
pub proof fn lemma_push_run_unique(m: Map<Pos, Item>, c: (int, int), d: Pos, n1: nat, n2: nat)
    requires
        push_run(m, c, d, n1),
        push_run(m, c, d, n2),
    ensures
        n1 == n2,
    decreases n1,
{
    if n1 > 0 && n2 > 0 {
        lemma_push_run_unique(m, step_c(c, d), d, (n1 - 1) as nat, (n2 - 1) as nat);
    }
}

/// Conservation: committing a feasible push neither creates nor destroys a
/// crate, and it moves no wall.
pub proof fn lemma_push_conserves(m: Map<Pos, Item>, c: (int, int), d: Pos, n: nat)
    requires
        is_unit(d),
        push_run(m, c, d, n),
        m.dom().finite(),
    ensures
        count_val(pushed(m, c, d, n), Item::Crate) == count_val(m, Item::Crate),
        count_val(pushed(m, c, d, n), Item::Wall) == count_val(m, Item::Wall),
        pushed(m, c, d, n).dom().finite(),
        pushed(m, c, d, n).dom().len() == m.dom().len(),
{
    if n > 0 {
        lemma_push_run_cells(m, c, d, n);
        let p = as_pos(c);
        let e = as_pos(walk_c(c, d, n));
        assert(cell_of(m, c) == Some(Item::Crate));
        assert(m.dom().contains(p) && m[p] == Item::Crate);
        assert(!m.dom().contains(e));
        lemma_walk_c_line(c, d, n);
        assert(e != p);
        lemma_count_remove(m, p, Item::Crate);
        lemma_count_remove(m, p, Item::Wall);
        lemma_count_insert_fresh(m.remove(p), e, Item::Crate, Item::Crate);
        lemma_count_insert_fresh(m.remove(p), e, Item::Crate, Item::Wall);
    }
}

/// No overlap with the agent: a feasible push at the agent's destination
/// leaves that destination unoccupied, so stepping the agent onto it keeps
/// the agent off every crate and wall (the map itself already holds at most
/// one content per coordinate).
pub proof fn lemma_push_no_overlap(m: Map<Pos, Item>, c: (int, int), d: Pos, n: nat)
    requires
        is_unit(d),
        push_run(m, c, d, n),
        in_i64(c),
    ensures
        !pushed(m, c, d, n).dom().contains(as_pos(c)),
{
    if n > 0 {
        lemma_push_run_cells(m, c, d, n);
        lemma_walk_c_line(c, d, n);
        assert(as_pos(walk_c(c, d, n)) != as_pos(c));
    }
}

/// The score contribution of one cell: `100 * row + column` for a crate.
pub open spec fn cell_score_fn() -> spec_fn(Pos, Item) -> int {
    |p: Pos, t: Item|
        if t == Item::Crate {
            100 * p.x + p.y
        } else {
            0
        }
}

/// The score of a grid: the sum of `100 * row + column` over every crate.
pub open spec fn crate_score(m: Map<Pos, Item>) -> int {
    sum_map(m, cell_score_fn())
}

/// Coordinate magnitude (and store size) below which the score is proved
/// free of overflow.
pub open spec fn score_bound() -> int {
    0x40_0000
}

/// The narrow warehouse: its floorplan, display extent, and agent position.
/// The agent is not an entry of the floorplan.
pub struct Warehouse {
    pub height: i64,
    pub width: i64,
    pub floorplan: CellGrid<Item>,
    pub robot: Pos,
}

impl Warehouse {
    /// The store keeps one entry per coordinate.
    pub open spec fn wf(&self) -> bool {
        self.floorplan.wf()
    }

    /// Attempts to shift the chain of crates starting at `pos` one cell along
    /// `direction`. Either the whole chain shifts (`true`) or a wall — or the
    /// edge of the machine coordinate range — blocks it and nothing at all
    /// changes (`false`). The agent itself is not moved here; the driver
    /// steps it onto `pos` after a success.
    pub fn try_move(&mut self, pos: &Pos, direction: &Pos) -> (r: bool)
        requires
            old(self).wf(),
            is_unit(*direction),
        ensures
            final(self).wf(),
            final(self).height == old(self).height,
            final(self).width == old(self).width,
            final(self).robot == old(self).robot,
            r == can_push(old(self).floorplan@, coords(*pos), *direction),
            !r ==> final(self).floorplan@ == old(self).floorplan@,
            r ==> exists|n: nat|
                push_run(old(self).floorplan@, coords(*pos), *direction, n)
                    && final(self).floorplan@ =~= pushed(
                    old(self).floorplan@,
                    coords(*pos),
                    *direction,
                    n,
                ),
        decreases ray_keys(old(self).floorplan@, coords(*pos), *direction).len(),
    {
        let m0 = Ghost(self.floorplan@);
        let c = Ghost(coords(*pos));
        let d = Ghost(*direction);
        match self.floorplan.get(*pos) {
            None => {
                proof {
                    assert(push_run(m0@, c@, d@, 0));
                }
                true
            },
            Some(Item::Wall) => {
                proof {
                    assert forall|n: nat| !push_run(m0@, c@, d@, n) by {
                        if n == 0 {
                        } else {
                        }
                    }
                }
                false
            },
            Some(Item::Crate) => {
                let nx = pos.x.checked_add(direction.x);
                let ny = pos.y.checked_add(direction.y);
                if nx.is_none() || ny.is_none() {
                    proof {
                        assert(!in_i64(step_c(c@, d@)));
                        assert forall|n: nat| !push_run(m0@, c@, d@, n) by {
                            if n >= 1 {
                                assert(!push_run(m0@, step_c(c@, d@), d@, (n - 1) as nat)) by {
                                    if n == 1 {
                                        assert(!in_i64(step_c(c@, d@)));
                                    } else {
                                        assert(cell_of(m0@, step_c(c@, d@)) is None);
                                    }
                                }
                            }
                        }
                    }
                    false
                } else {
                    let next = Pos { x: nx.unwrap(), y: ny.unwrap() };
                    proof {
                        self.floorplan.lemma_pairs();
                        lemma_ray_keys_shrink(m0@, c@, d@);
                        assert(coords(next) == step_c(c@, d@));
                        assert(ray_keys(m0@, coords(next), d@) == ray_keys(m0@, step_c(c@, d@), d@));
                    }
                    if self.try_move(&next, direction) {
                        let ghost n0 = choose|n: nat|
                            push_run(m0@, step_c(c@, d@), d@, n) && self.floorplan@ =~= pushed(
                                m0@,
                                step_c(c@, d@),
                                d@,
                                n,
                            );
                        self.floorplan.remove(*pos);
                        self.floorplan.insert(next, Item::Crate);
                        proof {
                            let p = as_pos(c@);
                            assert(p == *pos);
                            assert(push_run(m0@, c@, d@, n0 + 1));
                            lemma_push_run_cells(m0@, c@, d@, (n0 + 1) as nat);
                            let e = as_pos(walk_c(c@, d@, (n0 + 1) as nat));
                            lemma_walk_c_line(c@, d@, (n0 + 1) as nat);
                            assert(walk_c(c@, d@, (n0 + 1) as nat) == walk_c(
                                step_c(c@, d@),
                                d@,
                                n0,
                            ));
                            assert(p != next);
                            if n0 == 0 {
                                assert(e == next);
                                assert(self.floorplan@ =~= pushed(m0@, c@, d@, (n0 + 1) as nat));
                            } else {
                                assert(e != p && e != next);
                                assert(cell_of(m0@, step_c(c@, d@)) == Some(Item::Crate));
                                assert(m0@.dom().contains(next) && m0@[next] == Item::Crate);
                                assert(self.floorplan@ =~= pushed(m0@, c@, d@, (n0 + 1) as nat));
                            }
                        }
                        true
                    } else {
                        proof {
                            assert forall|n: nat| !push_run(m0@, c@, d@, n) by {
                                if n > 0 {
                                    assert(!push_run(m0@, step_c(c@, d@), d@, (n - 1) as nat));
                                }
                            }
                        }
                        false
                    }
                }
            },
        }
    }

    /// The score of the final grid: the sum of `100 * row + column` over
    /// every crate. The bounds keep the sum well inside the result type.
    pub fn box_score(&self) -> (r: i64)
        requires
            self.wf(),
            self.floorplan.pairs().len() <= score_bound(),
            forall|i: int|
                0 <= i < self.floorplan.pairs().len() ==> {
                    let p = (#[trigger] self.floorplan.pairs()[i]).0;
                    -score_bound() <= p.x <= score_bound() && -score_bound() <= p.y
                        <= score_bound()
                },
        ensures
            r == crate_score(self.floorplan@),
    {
        let ghost f = cell_score_fn();
        let ghost mut rest: Map<Pos, Item> = self.floorplan@;
        proof {
            self.floorplan.lemma_pairs();
        }
        let n = self.floorplan.len();
        let mut sum: i64 = 0;
        for i in 0..n
            invariant
                self.wf(),
                n == self.floorplan.pairs().len(),
                n <= score_bound(),
                forall|j: int|
                    0 <= j < n ==> {
                        let p = (#[trigger] self.floorplan.pairs()[j]).0;
                        -score_bound() <= p.x <= score_bound() && -score_bound() <= p.y
                            <= score_bound()
                    },
                f == cell_score_fn(),
                rest.dom().finite(),
                forall|j: int|
                    i <= j < n ==> rest.dom().contains((#[trigger] self.floorplan.pairs()[j]).0)
                        && rest[self.floorplan.pairs()[j].0] == self.floorplan.pairs()[j].1,
                forall|p: Pos|
                    #[trigger] rest.dom().contains(p) ==> exists|j: int|
                        i <= j < n && (#[trigger] self.floorplan.pairs()[j]).0 == p,
                crate_score(self.floorplan@) == sum + sum_map(rest, f),
                -0x1940_0001 * (i as int) <= sum <= 0x1940_0001 * (i as int),
        {
            let (p, item) = self.floorplan.pair_at(i);
            proof {
                self.floorplan.lemma_pairs();
                lemma_sum_map_remove(rest, f, p);
                assert forall|j: int|
                    i + 1 <= j < n implies rest.remove(p).dom().contains(
                    (#[trigger] self.floorplan.pairs()[j]).0,
                ) && rest.remove(p)[self.floorplan.pairs()[j].0] == self.floorplan.pairs()[j].1 by {
                    assert(self.floorplan.pairs()[j].0 != self.floorplan.pairs()[i as int].0);
                }
                rest = rest.remove(p);
            }
            if item == Item::Crate {
                sum = sum + (100 * p.x + p.y);
            }
        }
        proof {
            assert(rest.dom() =~= Set::empty());
        }
        sum
    }
}

} // verus!
