//! Coordinates, unit direction offsets, and the tagged contents of a cell.

use vstd::prelude::*;

verus! {

/// A grid coordinate: `x` is the row, `y` is the column. A `Pos` also stands
/// for a direction, as a unit offset added to a coordinate.
#[derive(Clone, Copy, Debug, PartialEq, Eq, Hash, Structural)]
pub struct Pos {
    pub x: i64,
    pub y: i64,
}

impl Pos {
    /// The coordinate one step from `self` in the offset `d`, as ghost math
    /// (no overflow concerns at the spec level).
    pub open spec fn spec_step(self, d: Pos) -> Pos {
        Pos { x: (self.x + d.x) as i64, y: (self.y + d.y) as i64 }
    }

    /// Component-wise sum, the coordinate one step away in direction `d`.
    pub fn step(self, d: Pos) -> (r: Pos)
        requires
            i64::MIN <= self.x + d.x <= i64::MAX,
            i64::MIN <= self.y + d.y <= i64::MAX,
        ensures
            r.x == self.x + d.x,
            r.y == self.y + d.y,
            r == self.spec_step(d),
    {
        Pos { x: self.x + d.x, y: self.y + d.y }
    }
}

/// Unit offset of one step towards the next column.
pub open spec fn spec_right() -> Pos {
    Pos { x: 0, y: 1 }
}

/// Unit offset of one step towards the next row.
pub open spec fn spec_down() -> Pos {
    Pos { x: 1, y: 0 }
}

/// Unit offset of one step towards the previous column.
pub open spec fn spec_left() -> Pos {
    Pos { x: 0, y: -1i64 }
}

/// Unit offset of one step towards the previous row.
pub open spec fn spec_up() -> Pos {
    Pos { x: -1i64, y: 0 }
}

#[verifier::when_used_as_spec(spec_right)]
pub fn right() -> (d: Pos)
    ensures
        d == spec_right(),
{
    Pos { x: 0, y: 1 }
}

#[verifier::when_used_as_spec(spec_down)]
pub fn down() -> (d: Pos)
    ensures
        d == spec_down(),
{
    Pos { x: 1, y: 0 }
}

#[verifier::when_used_as_spec(spec_left)]
pub fn left() -> (d: Pos)
    ensures
        d == spec_left(),
{
    Pos { x: 0, y: -1i64 }
}

#[verifier::when_used_as_spec(spec_up)]
pub fn up() -> (d: Pos)
    ensures
        d == spec_up(),
{
    Pos { x: -1i64, y: 0 }
}

/// Whether `d` is one of the four unit direction offsets.
pub open spec fn is_unit(d: Pos) -> bool {
    d == spec_up() || d == spec_down() || d == spec_left() || d == spec_right()
}

/// Whether the mathematical coordinate `c` fits the machine coordinate type.
pub open spec fn in_i64(c: (int, int)) -> bool {
    i64::MIN <= c.0 <= i64::MAX && i64::MIN <= c.1 <= i64::MAX
}

/// The machine coordinate for a mathematical coordinate that fits.
pub open spec fn as_pos(c: (int, int)) -> Pos
    recommends
        in_i64(c),
{
    Pos { x: c.0 as i64, y: c.1 as i64 }
}

/// The mathematical coordinate `k` steps from `p` in direction `d`. The world
/// is logically unbounded, so the ray is over unbounded integers; cells past
/// the machine range are treated as blocked where the push logic lands there.
pub open spec fn ray(p: Pos, d: Pos, k: int) -> (int, int) {
    (p.x + k * d.x, p.y + k * d.y)
}

/// Distinct in-range mathematical coordinates name distinct machine cells.
pub proof fn lemma_as_pos_injective(a: (int, int), b: (int, int))
    requires
        in_i64(a),
        in_i64(b),
        as_pos(a) == as_pos(b),
    ensures
        a == b,
{
}

/// Contents of one cell of the narrow grid; an absent entry is empty floor.
#[derive(Clone, Copy, Debug, PartialEq, Eq, Structural)]
pub enum Item {
    Crate,
    Wall,
}

/// Contents of one cell of the wide grid. A crate occupies two horizontally
/// adjacent cells, a `CrateLeft` at `(x, y)` paired with a `CrateRight` at
/// `(x, y + 1)`; the two halves appear, move, and disappear together.
#[derive(Clone, Copy, Debug, PartialEq, Eq, Structural)]
pub enum WideItem {
    CrateLeft,
    CrateRight,
    Wall,
}

} // verus!
