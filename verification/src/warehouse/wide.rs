//! The wide grid: every crate occupies two horizontally adjacent cells, a
//! `CrateLeft` half paired with a `CrateRight` half one column to its right.
//!
//! Horizontal pushes walk a linear chain of half-cells exactly as the narrow
//! grid does, each half shifting one column. Vertical pushes branch: a crate
//! pushed up or down may rest on one or two crates, so feasibility is a
//! property of a whole set of crates — a set closed under "the cell beyond a
//! half belongs to another crate" with no wall beyond any member. The
//! validator collects such a set without mutating anything, and the committer
//! then relocates its crates in waves, each wave moving the crates whose
//! destination cells are already vacant.

use vstd::prelude::*;

use crate::warehouse::cell::Pos;
use crate::warehouse::cell::WideItem;
use crate::warehouse::cell::as_pos;
use crate::warehouse::cell::in_i64;
use crate::warehouse::cell::is_unit;
use crate::warehouse::cell::spec_down;
use crate::warehouse::cell::spec_left;
use crate::warehouse::cell::spec_right;
use crate::warehouse::cell::spec_up;
use crate::warehouse::store::CellGrid;
use crate::warehouse::store::cell_of;
use crate::warehouse::store::coords;
use crate::warehouse::store::count_val;
use crate::warehouse::store::dom_bounded;
use crate::warehouse::store::lemma_count_insert_fresh;
use crate::warehouse::store::lemma_count_remove;
use crate::warehouse::store::lemma_ray_keys_shrink;
use crate::warehouse::store::lemma_sum_map_remove;
use crate::warehouse::store::sum_map;
use crate::warehouse::store::lemma_walk_c_line;
use crate::warehouse::store::ray_keys;
use crate::warehouse::store::step_c;
use crate::warehouse::store::walk_c;

verus! {

/// A horizontal unit offset.
pub open spec fn is_horiz(d: Pos) -> bool {
    d == spec_left() || d == spec_right()
}

/// A vertical unit offset.
pub open spec fn is_vert(d: Pos) -> bool {
    d == spec_up() || d == spec_down()
}

/// The wide-grid pairing invariant: a `CrateLeft` sits at a cell exactly when
/// a `CrateRight` sits one column to its right. The two halves of each crate
/// therefore exist strictly as a pair.
pub open spec fn paired(m: Map<Pos, WideItem>) -> bool {
    forall|c: (int, int)|
        #![trigger cell_of(m, step_c(c, spec_right()))]
        cell_of(m, c) == Some(WideItem::CrateLeft) <==> cell_of(m, step_c(c, spec_right())) == Some(
            WideItem::CrateRight,
        )
}

/// Reads the pairing invariant at one cell: a `CrateLeft` at `c` exactly when
/// a `CrateRight` at the cell to its right.
pub proof fn lemma_paired_at(m: Map<Pos, WideItem>, c: (int, int))
    requires
        paired(m),
    ensures
        cell_of(m, c) == Some(WideItem::CrateLeft) <==> cell_of(m, (c.0, c.1 + 1)) == Some(
            WideItem::CrateRight,
        ),
{
    assert(step_c(c, spec_right()) == (c.0, c.1 + 1));
    assert(cell_of(m, c) == Some(WideItem::CrateLeft) <==> cell_of(m, step_c(c, spec_right()))
        == Some(WideItem::CrateRight));
}

/// The witness that a horizontal push at `c` is feasible: `n` cells of crate
/// halves, then empty floor within the machine range.
pub open spec fn hpush_run(m: Map<Pos, WideItem>, c: (int, int), d: Pos, n: nat) -> bool
    decreases n,
{
    if n == 0 {
        in_i64(c) && cell_of(m, c) is None
    } else {
        (cell_of(m, c) == Some(WideItem::CrateLeft) || cell_of(m, c) == Some(WideItem::CrateRight))
            && hpush_run(m, step_c(c, d), d, (n - 1) as nat)
    }
}

/// A horizontal push at `c` in direction `d` is feasible.
pub open spec fn hcan_push(m: Map<Pos, WideItem>, c: (int, int), d: Pos) -> bool {
    exists|n: nat| hpush_run(m, c, d, n)
}

/// The grid after a feasible horizontal push: the half at the head of the
/// chain moves onto the next cell after the rest of the chain has shifted.
pub open spec fn hpushed(m: Map<Pos, WideItem>, c: (int, int), d: Pos, n: nat) -> Map<
    Pos,
    WideItem,
>
    decreases n,
{
    if n == 0 {
        m
    } else {
        hpushed(m, step_c(c, d), d, (n - 1) as nat).remove(as_pos(c)).insert(
            as_pos(step_c(c, d)),
            cell_of(m, c)->0,
        )
    }
}

/// Relocating one more crate of the set, onto cells vacant in the partially
/// committed grid, extends the committed set by exactly that crate, and no
/// destination collides with the crates still unmoved.
#[verifier::rlimit(100)]
#[verifier::spinoff_prover]
proof fn lemma_wpushed_extend(m: Map<Pos, WideItem>, s: Set<Pos>, mv: Set<Pos>, b: Pos, d: Pos)
    requires
        is_vert(d),
        paired(m),
        m.dom().finite(),
        box_set_ok(m, d, s),
        mv.subset_of(s),
        s.contains(b),
        !mv.contains(b),
        moved_clear(s, mv, d),
        !wpushed(m, mv, d).dom().contains(as_pos(step_c(coords(b), d))),
        !wpushed(m, mv, d).dom().contains(as_pos(step_c(step_c(coords(b), d), spec_right()))),
    ensures
        wpushed(m, mv, d).remove(b).remove(as_pos((b.x as int, b.y + 1))).insert(
            as_pos(step_c(coords(b), d)),
            WideItem::CrateLeft,
        ).insert(as_pos(step_c(step_c(coords(b), d), spec_right())), WideItem::CrateRight)
            =~= wpushed(m, mv.insert(b), d),
        moved_clear(s, mv.insert(b), d),
        in_i64(step_c(coords(b), d)),
        in_i64(step_c(step_c(coords(b), d), spec_right())),
        in_i64((b.x as int, b.y + 1)),
{
    assert(box_deps_ok(m, d, s, b));
    let bc = coords(b);
    lemma_paired_at(m, bc);
    let rbc = (bc.0, bc.1 + 1);
    assert(cell_of(m, rbc) == Some(WideItem::CrateRight));
    assert(in_i64(rbc));
    let rb = as_pos(rbc);
    let dlc = step_c(bc, d);
    let drc = step_c(dlc, spec_right());
    let dl = as_pos(dlc);
    let dr = as_pos(drc);
    let w = wpushed(m, mv, d);
    let mv2 = mv.insert(b);
    let w2 = wpushed(m, mv2, d);
    let lhs = w.remove(b).remove(rb).insert(dl, WideItem::CrateLeft).insert(
        dr,
        WideItem::CrateRight,
    );
    // the four touched machine cells are pairwise distinct
    assert(coords(rb) == rbc && coords(dl) == dlc && coords(dr) == drc);
    assert(b != rb && b != dl && b != dr && rb != dl && rb != dr && dl != dr);
    // every crate of the set is whole in the starting grid
    assert forall|u: Pos| #[trigger] s.contains(u) implies cell_of(m, coords(u)) == Some(
        WideItem::CrateLeft,
    ) && cell_of(m, (coords(u).0, coords(u).1 + 1)) == Some(WideItem::CrateRight) by {
        assert(box_deps_ok(m, d, s, u));
        lemma_paired_at(m, coords(u));
    }
    // the still-unmoved crates keep their cells in the partial grid
    assert forall|u: Pos| s.contains(u) && !mv.contains(u) implies w.dom().contains(u)
        && w.dom().contains(as_pos((coords(u).0, coords(u).1 + 1))) by {
        let urc = (coords(u).0, coords(u).1 + 1);
        let ur = as_pos(urc);
        assert(m.dom().contains(u) && m.dom().contains(ur));
        assert(!src_cell(mv, u)) by {
            if mv.contains(u) {
            }
            if exists|bb: Pos| #[trigger] mv.contains(bb) && coords(u) == step_c(
                coords(bb),
                spec_right(),
            ) {
                let bb = choose|bb: Pos|
                    #[trigger] mv.contains(bb) && coords(u) == step_c(coords(bb), spec_right());
                // bb's right half would sit where u's left half does
                assert(cell_of(m, coords(u)) == Some(WideItem::CrateRight)) by {
                    lemma_paired_at(m, coords(bb));
                }
            }
        }
        assert(!src_cell(mv, ur)) by {
            if mv.contains(ur) {
                assert(cell_of(m, coords(ur)) == Some(WideItem::CrateLeft));
            }
            if exists|bb: Pos| #[trigger] mv.contains(bb) && coords(ur) == step_c(
                coords(bb),
                spec_right(),
            ) {
                let bb = choose|bb: Pos|
                    #[trigger] mv.contains(bb) && coords(ur) == step_c(coords(bb), spec_right());
                assert(coords(bb) == coords(u));
                assert(bb == u);
            }
        }
    }
    // the freshly vacated destinations collide with no unmoved crate
    assert(moved_clear(s, mv2, d)) by {
        assert forall|bb: Pos, u: Pos|
            #[trigger] mv2.contains(bb) && #[trigger] s.contains(u) && !mv2.contains(
                u,
            ) implies step_c(coords(bb), d) != coords(u) && step_c(coords(bb), d) != step_c(
            coords(u),
            spec_right(),
        ) && step_c(step_c(coords(bb), d), spec_right()) != coords(u) && step_c(
            step_c(coords(bb), d),
            spec_right(),
        ) != step_c(coords(u), spec_right()) by {
            if bb == b {
                let urc = (coords(u).0, coords(u).1 + 1);
                assert(w.dom().contains(u) && w.dom().contains(as_pos(urc)));
                if dlc == coords(u) {
                    assert(as_pos(dlc) == u);
                }
                if dlc == urc {
                    assert(as_pos(dlc) == as_pos(urc));
                }
                if drc == coords(u) {
                    assert(as_pos(drc) == u);
                }
                if drc == urc {
                    assert(as_pos(drc) == as_pos(urc));
                }
            } else {
                assert(mv.contains(bb));
            }
        }
    }
    // cell-by-cell equality of the two descriptions
    assert forall|q: Pos| #[trigger] lhs.dom().contains(q) == w2.dom().contains(q) && (
    lhs.dom().contains(q) ==> lhs[q] == w2[q]) by {
        let qc = coords(q);
        if q == dl {
            assert(dest_left_cell(mv2, d, dl)) by {
                assert(mv2.contains(b) && coords(dl) == step_c(coords(b), d));
            }
        } else if q == dr {
            assert(dest_right_cell(mv2, d, dr)) by {
                assert(mv2.contains(b) && coords(dr) == step_c(step_c(coords(b), d), spec_right()));
            }
            assert(!dest_left_cell(mv2, d, dr)) by {
                if exists|bb: Pos| #[trigger] mv2.contains(bb) && coords(dr) == step_c(
                    coords(bb),
                    d,
                ) {
                    let bb = choose|bb: Pos|
                        #[trigger] mv2.contains(bb) && coords(dr) == step_c(coords(bb), d);
                    assert(coords(bb) == rbc);
                    assert(bb == rb);
                    assert(cell_of(m, coords(bb)) == Some(WideItem::CrateLeft));
                }
            }
        } else if q == b {
            assert(src_cell(mv2, b));
            assert(!dest_left_cell(mv2, d, b)) by {
                if exists|bb: Pos| #[trigger] mv2.contains(bb) && coords(b) == step_c(
                    coords(bb),
                    d,
                ) {
                    let bb = choose|bb: Pos|
                        #[trigger] mv2.contains(bb) && coords(b) == step_c(coords(bb), d);
                    assert(bb != b);
                    assert(mv.contains(bb) && s.contains(b) && !mv.contains(b));
                }
            }
            assert(!dest_right_cell(mv2, d, b)) by {
                if exists|bb: Pos| #[trigger] mv2.contains(bb) && coords(b) == step_c(
                    step_c(coords(bb), d),
                    spec_right(),
                ) {
                    let bb = choose|bb: Pos|
                        #[trigger] mv2.contains(bb) && coords(b) == step_c(
                            step_c(coords(bb), d),
                            spec_right(),
                        );
                    assert(bb != b);
                    assert(mv.contains(bb) && s.contains(b) && !mv.contains(b));
                }
            }
        } else if q == rb {
            assert(src_cell(mv2, rb)) by {
                assert(mv2.contains(b) && coords(rb) == step_c(coords(b), spec_right()));
            }
            assert(!dest_left_cell(mv2, d, rb)) by {
                if exists|bb: Pos| #[trigger] mv2.contains(bb) && coords(rb) == step_c(
                    coords(bb),
                    d,
                ) {
                    let bb = choose|bb: Pos|
                        #[trigger] mv2.contains(bb) && coords(rb) == step_c(coords(bb), d);
                    assert(bb != b);
                    assert(mv.contains(bb) && s.contains(b) && !mv.contains(b));
                }
            }
            assert(!dest_right_cell(mv2, d, rb)) by {
                if exists|bb: Pos| #[trigger] mv2.contains(bb) && coords(rb) == step_c(
                    step_c(coords(bb), d),
                    spec_right(),
                ) {
                    let bb = choose|bb: Pos|
                        #[trigger] mv2.contains(bb) && coords(rb) == step_c(
                            step_c(coords(bb), d),
                            spec_right(),
                        );
                    assert(bb != b);
                    assert(mv.contains(bb) && s.contains(b) && !mv.contains(b));
                }
            }
        } else {
            // untouched: membership of the extended set reduces to the old one
            assert(dest_left_cell(mv2, d, q) == dest_left_cell(mv, d, q)) by {
                if dest_left_cell(mv2, d, q) {
                    let bb = choose|bb: Pos|
                        #[trigger] mv2.contains(bb) && coords(q) == step_c(coords(bb), d);
                    if bb == b {
                        assert(qc == dlc && in_i64(qc));
                        assert(q == dl);
                    } else {
                        assert(mv.contains(bb));
                    }
                }
                if dest_left_cell(mv, d, q) {
                    let bb = choose|bb: Pos|
                        #[trigger] mv.contains(bb) && coords(q) == step_c(coords(bb), d);
                    assert(mv2.contains(bb));
                }
            }
            assert(dest_right_cell(mv2, d, q) == dest_right_cell(mv, d, q)) by {
                if dest_right_cell(mv2, d, q) {
                    let bb = choose|bb: Pos|
                        #[trigger] mv2.contains(bb) && coords(q) == step_c(
                            step_c(coords(bb), d),
                            spec_right(),
                        );
                    if bb == b {
                        assert(qc == drc && in_i64(qc));
                        assert(q == dr);
                    } else {
                        assert(mv.contains(bb));
                    }
                }
                if dest_right_cell(mv, d, q) {
                    let bb = choose|bb: Pos|
                        #[trigger] mv.contains(bb) && coords(q) == step_c(
                            step_c(coords(bb), d),
                            spec_right(),
                        );
                    assert(mv2.contains(bb));
                }
            }
            assert(src_cell(mv2, q) == src_cell(mv, q)) by {
                if src_cell(mv2, q) && !src_cell(mv, q) {
                    if mv2.contains(q) {
                        assert(q == b);
                    } else {
                        let bb = choose|bb: Pos|
                            #[trigger] mv2.contains(bb) && coords(q) == step_c(
                                coords(bb),
                                spec_right(),
                            );
                        assert(bb == b);
                        assert(qc == rbc && in_i64(qc));
                        assert(q == rb);
                    }
                }
                if src_cell(mv, q) {
                    if mv.contains(q) {
                        assert(mv2.contains(q));
                    } else {
                        let bb = choose|bb: Pos|
                            #[trigger] mv.contains(bb) && coords(q) == step_c(
                                coords(bb),
                                spec_right(),
                            );
                        assert(mv2.contains(bb));
                    }
                }
            }
        }
    }
    assert(lhs =~= w2);
}

/// Among the crates still unmoved, one furthest along the push direction has
/// both destination cells vacant in the partially committed grid, and still
/// stands whole where it started: every wave of the committer moves at least
/// that crate, so the commit always finishes with every crate moved.
#[verifier::rlimit(100)]
#[verifier::spinoff_prover]
proof fn lemma_extremal_free(m: Map<Pos, WideItem>, s: Set<Pos>, mv: Set<Pos>, d: Pos, e: Pos)
    requires
        is_vert(d),
        paired(m),
        m.dom().finite(),
        box_set_ok(m, d, s),
        mv.subset_of(s),
        s.contains(e),
        !mv.contains(e),
        moved_clear(s, mv, d),
        forall|u: Pos|
            #[trigger] s.contains(u) && !mv.contains(u) ==> (if d == spec_down() {
                u.x <= e.x
            } else {
                u.x >= e.x
            }),
    ensures
        in_i64(step_c(coords(e), d)),
        in_i64(step_c(step_c(coords(e), d), spec_right())),
        !wpushed(m, mv, d).dom().contains(as_pos(step_c(coords(e), d))),
        !wpushed(m, mv, d).dom().contains(as_pos(step_c(step_c(coords(e), d), spec_right()))),
        wpushed(m, mv, d).dom().contains(e),
        wpushed(m, mv, d)[e] == WideItem::CrateLeft,
{
    assert(box_deps_ok(m, d, s, e));
    let w = wpushed(m, mv, d);
    let ec = coords(e);
    let dlc = step_c(ec, d);
    let drc = step_c(dlc, spec_right());
    let dl = as_pos(dlc);
    let dr = as_pos(drc);
    lemma_paired_at(m, ec);
    // neither destination is where a moved crate landed
    assert(!dest_left_cell(mv, d, dl)) by {
        if exists|bb: Pos| #[trigger] mv.contains(bb) && coords(dl) == step_c(coords(bb), d) {
            let bb = choose|bb: Pos| #[trigger] mv.contains(bb) && coords(dl) == step_c(coords(bb), d);
            assert(coords(bb) == ec);
            assert(bb == e);
        }
    }
    assert(!dest_right_cell(mv, d, dl)) by {
        if exists|bb: Pos|
            #[trigger] mv.contains(bb) && coords(dl) == step_c(step_c(coords(bb), d), spec_right()) {
            let bb = choose|bb: Pos|
                #[trigger] mv.contains(bb) && coords(dl) == step_c(
                    step_c(coords(bb), d),
                    spec_right(),
                );
            assert(coords(bb) == (ec.0, ec.1 - 1));
            assert(box_deps_ok(m, d, s, bb));
            assert(cell_of(m, coords(bb)) == Some(WideItem::CrateLeft));
            lemma_paired_at(m, coords(bb));
            assert(cell_of(m, ec) == Some(WideItem::CrateRight));
        }
    }
    assert(!dest_left_cell(mv, d, dr)) by {
        if exists|bb: Pos| #[trigger] mv.contains(bb) && coords(dr) == step_c(coords(bb), d) {
            let bb = choose|bb: Pos| #[trigger] mv.contains(bb) && coords(dr) == step_c(coords(bb), d);
            assert(coords(bb) == (ec.0, ec.1 + 1));
            assert(box_deps_ok(m, d, s, bb));
            assert(cell_of(m, coords(bb)) == Some(WideItem::CrateLeft));
            assert(cell_of(m, (ec.0, ec.1 + 1)) == Some(WideItem::CrateRight));
        }
    }
    assert(!dest_right_cell(mv, d, dr)) by {
        if exists|bb: Pos|
            #[trigger] mv.contains(bb) && coords(dr) == step_c(step_c(coords(bb), d), spec_right()) {
            let bb = choose|bb: Pos|
                #[trigger] mv.contains(bb) && coords(dr) == step_c(
                    step_c(coords(bb), d),
                    spec_right(),
                );
            assert(coords(bb) == ec);
            assert(bb == e);
        }
    }
    // whatever the starting grid held on those cells belongs to a crate
    // already moved, whose cells the partial grid has vacated
    assert(!w.dom().contains(dl)) by {
        if m.dom().contains(dl) {
            if cell_of(m, dlc) == Some(WideItem::CrateLeft) {
                let o = as_pos(dlc);
                assert(s.contains(o));
                assert(mv.contains(o)) by {
                    if !mv.contains(o) {
                        assert(if d == spec_down() {
                            o.x <= e.x
                        } else {
                            o.x >= e.x
                        });
                    }
                }
                assert(src_cell(mv, dl));
            } else if cell_of(m, dlc) == Some(WideItem::CrateRight) {
                let oc = step_c(dlc, spec_left());
                assert(s.contains(as_pos(oc)));
                let o = as_pos(oc);
                lemma_paired_at(m, oc);
                assert(cell_of(m, oc) == Some(WideItem::CrateLeft)) by {
                    assert((oc.0, oc.1 + 1) == dlc);
                }
                assert(in_i64(oc) && coords(o) == oc);
                assert(mv.contains(o)) by {
                    if !mv.contains(o) {
                        assert(if d == spec_down() {
                            o.x <= e.x
                        } else {
                            o.x >= e.x
                        });
                    }
                }
                assert(src_cell(mv, dl)) by {
                    assert(mv.contains(o) && coords(dl) == step_c(coords(o), spec_right()));
                }
            }
        }
    }
    assert(!w.dom().contains(dr)) by {
        if m.dom().contains(dr) {
            if cell_of(m, drc) == Some(WideItem::CrateLeft) {
                let o = as_pos(drc);
                assert(s.contains(o));
                assert(mv.contains(o)) by {
                    if !mv.contains(o) {
                        assert(if d == spec_down() {
                            o.x <= e.x
                        } else {
                            o.x >= e.x
                        });
                    }
                }
                assert(src_cell(mv, dr));
            } else if cell_of(m, drc) == Some(WideItem::CrateRight) {
                // its left half sits on the other destination cell
                lemma_paired_at(m, dlc);
                assert(cell_of(m, dlc) == Some(WideItem::CrateLeft));
                let o = as_pos(dlc);
                assert(s.contains(o));
                assert(mv.contains(o)) by {
                    if !mv.contains(o) {
                        assert(if d == spec_down() {
                            o.x <= e.x
                        } else {
                            o.x >= e.x
                        });
                    }
                }
                assert(src_cell(mv, dr)) by {
                    assert(mv.contains(o) && coords(dr) == step_c(coords(o), spec_right()));
                }
            }
        }
    }
    // the extremal crate itself still stands where it started
    assert(!src_cell(mv, e)) by {
        if mv.contains(e) {
        }
        if exists|bb: Pos| #[trigger] mv.contains(bb) && coords(e) == step_c(
            coords(bb),
            spec_right(),
        ) {
            let bb = choose|bb: Pos|
                #[trigger] mv.contains(bb) && coords(e) == step_c(coords(bb), spec_right());
            assert(box_deps_ok(m, d, s, bb));
            lemma_paired_at(m, coords(bb));
            assert(cell_of(m, ec) == Some(WideItem::CrateRight));
        }
    }
    assert(!dest_left_cell(mv, d, e)) by {
        if exists|bb: Pos| #[trigger] mv.contains(bb) && coords(e) == step_c(coords(bb), d) {
            let bb = choose|bb: Pos| #[trigger] mv.contains(bb) && coords(e) == step_c(coords(bb), d);
            assert(mv.contains(bb) && s.contains(e) && !mv.contains(e));
        }
    }
    assert(!dest_right_cell(mv, d, e)) by {
        if exists|bb: Pos| #[trigger] mv.contains(bb) && coords(e) == step_c(
            step_c(coords(bb), d),
            spec_right(),
        ) {
            let bb = choose|bb: Pos|
                #[trigger] mv.contains(bb) && coords(e) == step_c(
                    step_c(coords(bb), d),
                    spec_right(),
                );
            assert(mv.contains(bb) && s.contains(e) && !mv.contains(e));
        }
    }
    assert(w.dom().contains(e) && w[e] == WideItem::CrateLeft);
}

/// After the whole set moves, the pushed crate's two old cells are vacant:
/// the agent can step onto either of them.
proof fn lemma_wpushed_vacates(m: Map<Pos, WideItem>, s: Set<Pos>, d: Pos, side: Pos)
    requires
        is_vert(d),
        paired(m),
        m.dom().finite(),
        box_set_ok(m, d, s),
        s.contains(side),
        forall|b: Pos|
            #[trigger] s.contains(b) ==> (if d == spec_down() {
                b.x >= side.x
            } else {
                b.x <= side.x
            }),
    ensures
        !wpushed(m, s, d).dom().contains(side),
        in_i64((side.x as int, side.y + 1)),
        !wpushed(m, s, d).dom().contains(as_pos((side.x as int, side.y + 1))),
{
    assert(box_deps_ok(m, d, s, side));
    lemma_paired_at(m, coords(side));
    let rbc = (side.x as int, side.y + 1);
    assert(cell_of(m, rbc) == Some(WideItem::CrateRight));
    let rb = as_pos(rbc);
    assert(src_cell(s, side));
    assert(src_cell(s, rb)) by {
        assert(s.contains(side) && coords(rb) == step_c(coords(side), spec_right()));
    }
    assert(!dest_left_cell(s, d, side)) by {
        if exists|bb: Pos| #[trigger] s.contains(bb) && coords(side) == step_c(coords(bb), d) {
            let bb = choose|bb: Pos|
                #[trigger] s.contains(bb) && coords(side) == step_c(coords(bb), d);
        }
    }
    assert(!dest_right_cell(s, d, side)) by {
        if exists|bb: Pos| #[trigger] s.contains(bb) && coords(side) == step_c(
            step_c(coords(bb), d),
            spec_right(),
        ) {
            let bb = choose|bb: Pos|
                #[trigger] s.contains(bb) && coords(side) == step_c(
                    step_c(coords(bb), d),
                    spec_right(),
                );
        }
    }
    assert(!dest_left_cell(s, d, rb)) by {
        if exists|bb: Pos| #[trigger] s.contains(bb) && coords(rb) == step_c(coords(bb), d) {
            let bb = choose|bb: Pos| #[trigger] s.contains(bb) && coords(rb) == step_c(coords(bb), d);
        }
    }
    assert(!dest_right_cell(s, d, rb)) by {
        if exists|bb: Pos| #[trigger] s.contains(bb) && coords(rb) == step_c(
            step_c(coords(bb), d),
            spec_right(),
        ) {
            let bb = choose|bb: Pos|
                #[trigger] s.contains(bb) && coords(rb) == step_c(
                    step_c(coords(bb), d),
                    spec_right(),
                );
        }
    }
}

/// Cell-by-cell reading of [`hpushed`]: the head cell empties, every other
/// cell of the chain takes the half one step behind it, and cells off the
/// chain keep their contents.
pub proof fn lemma_hpushed_cells(m: Map<Pos, WideItem>, c: (int, int), d: Pos, n: nat)
    requires
        is_unit(d),
        hpush_run(m, c, d, n),
        n > 0,
    ensures
        cell_of(hpushed(m, c, d, n), c) is None,
        forall|k: nat|
            1 <= k <= n ==> cell_of(hpushed(m, c, d, n), walk_c(c, d, k)) == cell_of(
                m,
                #[trigger] walk_c(c, d, (k - 1) as nat),
            ),
        forall|q: (int, int)|
            (forall|k: nat| k <= n ==> q != #[trigger] walk_c(c, d, k)) ==> #[trigger] cell_of(
                hpushed(m, c, d, n),
                q,
            ) == cell_of(m, q),
    decreases n,
{
    lemma_hpush_run_cells(m, c, d, n);
    let r = hpushed(m, c, d, n);
    let c1 = step_c(c, d);
    lemma_walk_c_line(c, d, n);
    if n == 1 {
        assert(walk_c(c, d, 1) == c1);
        assert(hpushed(m, c1, d, 0) == m);
        assert(r == m.remove(as_pos(c)).insert(as_pos(c1), cell_of(m, c)->0));
        assert(cell_of(r, c1) == cell_of(m, c));
        assert(cell_of(r, c) is None);
        assert forall|q: (int, int)|
            (forall|k: nat| k <= n ==> q != #[trigger] walk_c(c, d, k)) implies #[trigger] cell_of(
            r,
            q,
        ) == cell_of(m, q) by {
            assert(q != walk_c(c, d, 0) && q != walk_c(c, d, 1));
            assert(walk_c(c, d, 0) == c);
            assert(q != c && q != c1);
            if in_i64(q) {
                assert(as_pos(q) != as_pos(c)) by {
                    if as_pos(q) == as_pos(c) {
                        crate::warehouse::cell::lemma_as_pos_injective(q, c);
                    }
                }
                assert(as_pos(q) != as_pos(c1)) by {
                    if as_pos(q) == as_pos(c1) {
                        crate::warehouse::cell::lemma_as_pos_injective(q, c1);
                    }
                }
            }
        }
    } else {
        lemma_hpushed_cells(m, c1, d, (n - 1) as nat);
        let inner = hpushed(m, c1, d, (n - 1) as nat);
        assert(cell_of(inner, c) == cell_of(m, c)) by {
            assert forall|k: nat| k <= n - 1 implies c != #[trigger] walk_c(c1, d, k) by {
                lemma_walk_c_line(c1, d, k);
            }
        }
        assert forall|k: nat| 1 <= k <= n implies cell_of(r, walk_c(c, d, k)) == cell_of(
            m,
            #[trigger] walk_c(c, d, (k - 1) as nat),
        ) by {
            lemma_walk_c_line(c, d, k);
            lemma_walk_c_line(c, d, (k - 1) as nat);
            if k == 1 {
                assert(walk_c(c, d, 1) == c1);
                assert(cell_of(r, c1) == cell_of(m, c));
            } else {
                assert(walk_c(c, d, k) == walk_c(c1, d, (k - 1) as nat));
                assert(walk_c(c, d, (k - 1) as nat) == walk_c(c1, d, (k - 2) as nat));
                assert(cell_of(inner, walk_c(c1, d, (k - 1) as nat)) == cell_of(
                    m,
                    walk_c(c1, d, (k - 2) as nat),
                ));
                lemma_walk_c_line(c1, d, (k - 1) as nat);
                assert(walk_c(c, d, k) != c && walk_c(c, d, k) != c1);
            }
        }
        assert forall|q: (int, int)|
            (forall|k: nat| k <= n ==> q != #[trigger] walk_c(c, d, k)) implies #[trigger] cell_of(
            r,
            q,
        ) == cell_of(m, q) by {
            assert forall|k: nat| k <= n - 1 implies q != #[trigger] walk_c(c1, d, k) by {
                assert(walk_c(c1, d, k) == walk_c(c, d, (k + 1) as nat));
            }
            assert(q != walk_c(c, d, 0) && q != walk_c(c, d, 1));
            assert(walk_c(c, d, 0) == c);
            assert(walk_c(c, d, 1) == walk_c(c1, d, 0));
            assert(walk_c(c1, d, 0) == c1);
            assert(q != c && q != c1);
            assert(cell_of(inner, q) == cell_of(m, q));
        }
        assert(cell_of(r, c) is None);
    }
}

/// What each cell along a feasible horizontal run holds.
pub proof fn lemma_hpush_run_cells(m: Map<Pos, WideItem>, c: (int, int), d: Pos, n: nat)
    requires
        hpush_run(m, c, d, n),
    ensures
        forall|k: nat|
            k < n ==> (cell_of(m, #[trigger] walk_c(c, d, k)) == Some(WideItem::CrateLeft)
                || cell_of(m, walk_c(c, d, k)) == Some(WideItem::CrateRight)),
        in_i64(walk_c(c, d, n)),
        cell_of(m, walk_c(c, d, n)) is None,
    decreases n,
{
    if n > 0 {
        lemma_hpush_run_cells(m, step_c(c, d), d, (n - 1) as nat);
        assert forall|k: nat|
            k < n implies (cell_of(m, #[trigger] walk_c(c, d, k)) == Some(WideItem::CrateLeft)
            || cell_of(m, walk_c(c, d, k)) == Some(WideItem::CrateRight)) by {
            if k > 0 {
                assert(walk_c(c, d, k) == walk_c(step_c(c, d), d, (k - 1) as nat));
            }
        }
        assert(walk_c(c, d, n) == walk_c(step_c(c, d), d, (n - 1) as nat));
    }
}

/// A feasible horizontal run has exactly one witness length.
pub proof fn lemma_hpush_run_unique(m: Map<Pos, WideItem>, c: (int, int), d: Pos, n1: nat, n2: nat)
    requires
        hpush_run(m, c, d, n1),
        hpush_run(m, c, d, n2),
    ensures
        n1 == n2,
    decreases n1,
{
    if n1 > 0 && n2 > 0 {
        lemma_hpush_run_unique(m, step_c(c, d), d, (n1 - 1) as nat, (n2 - 1) as nat);
    }
}

/// The pairing of one cell with its right neighbour, across a horizontal
/// push that does not start in the middle of a crate.
#[verifier::rlimit(100)]
#[verifier::spinoff_prover]
proof fn lemma_hpushed_pair_at(m: Map<Pos, WideItem>, c: (int, int), d: Pos, n: nat, q: (int, int))
    requires
        paired(m),
        is_horiz(d),
        hpush_run(m, c, d, n),
        n > 0,
        d == spec_right() ==> cell_of(m, c) != Some(WideItem::CrateRight),
        d == spec_left() ==> cell_of(m, c) != Some(WideItem::CrateLeft),
    ensures
        cell_of(hpushed(m, c, d, n), q) == Some(WideItem::CrateLeft) <==> cell_of(
            hpushed(m, c, d, n),
            step_c(q, spec_right()),
        ) == Some(WideItem::CrateRight),
{
    lemma_hpushed_cells(m, c, d, n);
    lemma_hpush_run_cells(m, c, d, n);
    let r = hpushed(m, c, d, n);
    let x0 = c.0;
    let y0 = c.1;
    let sg: int = if d == spec_right() {
        1
    } else {
        -1
    };
    let q1 = step_c(q, spec_right());
    let on_q = q.0 == x0 && (if sg == 1 {
        y0 <= q.1 <= y0 + n
    } else {
        y0 - n <= q.1 <= y0
    });
    let on_q1 = q1.0 == x0 && (if sg == 1 {
        y0 <= q1.1 <= y0 + n
    } else {
        y0 - n <= q1.1 <= y0
    });
    if !on_q {
        assert(cell_of(r, q) == cell_of(m, q)) by {
            assert forall|k: nat| k <= n implies q != #[trigger] walk_c(c, d, k) by {
                lemma_walk_c_line(c, d, k);
            }
        }
    }
    if !on_q1 {
        assert(cell_of(r, q1) == cell_of(m, q1)) by {
            assert forall|k: nat| k <= n implies q1 != #[trigger] walk_c(c, d, k) by {
                lemma_walk_c_line(c, d, k);
            }
        }
    }
    if on_q {
        let k = (if sg == 1 { q.1 - y0 } else { y0 - q.1 }) as nat;
        lemma_walk_c_line(c, d, k);
        assert(q == walk_c(c, d, k));
        if k > 0 {
            lemma_walk_c_line(c, d, (k - 1) as nat);
            assert(cell_of(r, q) == cell_of(m, walk_c(c, d, (k - 1) as nat)));
        } else {
            assert(cell_of(r, q) is None);
        }
    }
    if on_q1 {
        let k1 = (if sg == 1 { q1.1 - y0 } else { y0 - q1.1 }) as nat;
        lemma_walk_c_line(c, d, k1);
        assert(q1 == walk_c(c, d, k1));
        if k1 > 0 {
            lemma_walk_c_line(c, d, (k1 - 1) as nat);
            assert(cell_of(r, q1) == cell_of(m, walk_c(c, d, (k1 - 1) as nat)));
        } else {
            assert(cell_of(r, q1) is None);
        }
    }
    // what m pairs at the three relevant columns
    lemma_paired_at(m, (q.0, q.1 - 1));
    lemma_paired_at(m, q);
    lemma_paired_at(m, q1);
    assert(q1 == (q.0, q.1 + 1));
}

/// A horizontal push keeps the halves paired, provided it does not start in
/// the middle of a crate — pushing right into a `CrateRight`, or left into a
/// `CrateLeft`, would tear a crate from its other half. The driver can never
/// start there: the cell it pushes is next to the agent, and the agent never
/// stands inside a crate.
pub proof fn lemma_hpushed_paired(m: Map<Pos, WideItem>, c: (int, int), d: Pos, n: nat)
    requires
        paired(m),
        is_horiz(d),
        hpush_run(m, c, d, n),
        d == spec_right() ==> cell_of(m, c) != Some(WideItem::CrateRight),
        d == spec_left() ==> cell_of(m, c) != Some(WideItem::CrateLeft),
    ensures
        paired(hpushed(m, c, d, n)),
{
    if n > 0 {
        let r = hpushed(m, c, d, n);
        assert forall|q: (int, int)|
            (#[trigger] cell_of(r, q)) == Some(WideItem::CrateLeft) <==> cell_of(
                r,
                step_c(q, spec_right()),
            ) == Some(WideItem::CrateRight) by {
            lemma_hpushed_pair_at(m, c, d, n, q);
        }
    }
}

/// The crates (named by their left halves) whose movement one vertical push
/// depends on, as a closure property: every member is a whole crate, no wall
/// sits beyond any member, and whatever crate half does sit beyond a member
/// belongs to a member. A push is feasible exactly when such a set exists
/// around the pushed crate; the validator computes one.
pub open spec fn box_set_ok(m: Map<Pos, WideItem>, d: Pos, s: Set<Pos>) -> bool {
    s.finite() && forall|b: Pos| #[trigger] s.contains(b) ==> box_deps_ok(m, d, s, b)
}

/// The conditions [`box_set_ok`] puts on one member `b`.
pub open spec fn box_deps_ok(m: Map<Pos, WideItem>, d: Pos, s: Set<Pos>, b: Pos) -> bool {
    let bl = step_c(coords(b), d);
    let br = step_c(bl, spec_right());
    &&& cell_of(m, coords(b)) == Some(WideItem::CrateLeft)
    &&& in_i64(bl) && in_i64(br)
    &&& cell_of(m, bl) != Some(WideItem::Wall) && cell_of(m, br) != Some(WideItem::Wall)
    &&& (cell_of(m, bl) == Some(WideItem::CrateLeft) ==> s.contains(as_pos(bl)))
    &&& (cell_of(m, bl) == Some(WideItem::CrateRight) ==> s.contains(
        as_pos(step_c(bl, spec_left())),
    ))
    &&& (cell_of(m, br) == Some(WideItem::CrateLeft) ==> s.contains(as_pos(br)))
}

/// A vertical push of the whole crate whose left half sits at `left` is
/// feasible: some dependency-closed, wall-free set of crates contains it.
pub open spec fn wvert_can(m: Map<Pos, WideItem>, d: Pos, left: Pos) -> bool {
    exists|s: Set<Pos>| #[trigger] box_set_ok(m, d, s) && s.contains(left)
}

#[via_fn]
proof fn dep_set_dec(m: Map<Pos, WideItem>, left: Pos, d: Pos) {
    if is_vert(d) && m.dom().finite() && cell_of(m, coords(left)) == Some(WideItem::CrateLeft) {
        lemma_rows_from_shrink(m, left.x as int, d, as_pos(coords(left)));
    }
}

/// The minimal dependency closure of one vertical push: exactly the crates
/// (named by their left halves) that moving the crate at `left` along `d`
/// displaces — the crate itself, and recursively every crate holding a half
/// on either cell one step beyond a member. Walls do not enter the set;
/// whether one blocks the push is feasibility, stated separately.
pub open spec fn dep_set(m: Map<Pos, WideItem>, left: Pos, d: Pos) -> Set<Pos>
    decreases rows_from(m, left.x as int, d).len() via dep_set_dec
{
    if is_vert(d) && m.dom().finite() && cell_of(m, coords(left)) == Some(WideItem::CrateLeft) {
        let bl = step_c(coords(left), d);
        let br = step_c(bl, spec_right());
        let left_branch = if cell_of(m, bl) == Some(WideItem::CrateLeft) {
            dep_set(m, as_pos(bl), d)
        } else if cell_of(m, bl) == Some(WideItem::CrateRight) {
            dep_set(m, as_pos(step_c(bl, spec_left())), d)
        } else {
            Set::<Pos>::empty()
        };
        let right_branch = if cell_of(m, br) == Some(WideItem::CrateLeft) {
            dep_set(m, as_pos(br), d)
        } else {
            Set::<Pos>::empty()
        };
        Set::empty().insert(left).union(left_branch).union(right_branch)
    } else {
        Set::empty()
    }
}

/// Feasibility of a wide push at `c` in direction `d`, over both axes.
pub open spec fn wcan_push(m: Map<Pos, WideItem>, c: (int, int), d: Pos) -> bool {
    if is_horiz(d) {
        hcan_push(m, c, d)
    } else {
        match cell_of(m, c) {
            None => true,
            Some(WideItem::Wall) => false,
            Some(WideItem::CrateLeft) => wvert_can(m, d, as_pos(c)),
            Some(WideItem::CrateRight) => wvert_can(m, d, as_pos(step_c(c, spec_left()))),
        }
    }
}

/// A cell one step along `d` from a member's left half: after the commit it
/// holds that member's left half.
pub open spec fn dest_left_cell(s: Set<Pos>, d: Pos, q: Pos) -> bool {
    exists|b: Pos| #[trigger] s.contains(b) && coords(q) == step_c(coords(b), d)
}

/// A cell one step along `d` from a member's right half: after the commit it
/// holds that member's right half.
pub open spec fn dest_right_cell(s: Set<Pos>, d: Pos, q: Pos) -> bool {
    exists|b: Pos|
        #[trigger] s.contains(b) && coords(q) == step_c(step_c(coords(b), d), spec_right())
}

/// A cell a member's crate occupies before the commit.
pub open spec fn src_cell(s: Set<Pos>, q: Pos) -> bool {
    s.contains(q) || exists|b: Pos|
        #[trigger] s.contains(b) && coords(q) == step_c(coords(b), spec_right())
}

/// The grid after the crates of `s` move exactly one step along `d`: their
/// destination cells take the halves, their vacated cells empty (unless
/// another member lands there), and every other cell keeps its contents.
pub open spec fn wpushed(m: Map<Pos, WideItem>, s: Set<Pos>, d: Pos) -> Map<Pos, WideItem> {
    Map::new(
        |q: Pos|
            dest_left_cell(s, d, q) || dest_right_cell(s, d, q) || (m.dom().contains(q)
                && !src_cell(s, q)),
        |q: Pos|
            if dest_left_cell(s, d, q) {
                WideItem::CrateLeft
            } else if dest_right_cell(s, d, q) {
                WideItem::CrateRight
            } else {
                m[q]
            },
    )
}

/// Moving no crate changes nothing.
pub proof fn lemma_wpushed_empty(m: Map<Pos, WideItem>, d: Pos)
    ensures
        wpushed(m, Set::empty(), d) =~= m,
{
    assert forall|q: Pos| !dest_left_cell(Set::empty(), d, q) && !dest_right_cell(
        Set::empty(),
        d,
        q,
    ) && !src_cell(Set::empty(), q) by {}
}

/// No destination cell of a moved crate lies under a crate not yet moved:
/// the committer moves a crate only onto vacant cells, and the cells of an
/// unmoved crate are occupied.
pub open spec fn moved_clear(s: Set<Pos>, mv: Set<Pos>, d: Pos) -> bool {
    forall|bb: Pos, u: Pos|
        #[trigger] mv.contains(bb) && #[trigger] s.contains(u) && !mv.contains(u) ==> step_c(
            coords(bb),
            d,
        ) != coords(u) && step_c(coords(bb), d) != step_c(coords(u), spec_right()) && step_c(
            step_c(coords(bb), d),
            spec_right(),
        ) != coords(u) && step_c(step_c(coords(bb), d), spec_right()) != step_c(
            coords(u),
            spec_right(),
        )
}

/// The keys of `m` in the rows from `x0` onward in the vertical direction
/// `d`: the termination measure of the branching validator, which only ever
/// recurses one row further along `d`.
pub open spec fn rows_from(m: Map<Pos, WideItem>, x0: int, d: Pos) -> Set<Pos> {
    m.dom().filter(
        |q: Pos|
            if d == spec_down() {
                q.x >= x0
            } else {
                q.x <= x0
            },
    )
}

/// Moving one row along `d` strictly shrinks the measure while the current
/// row still holds a key.
pub proof fn lemma_rows_from_shrink(m: Map<Pos, WideItem>, x0: int, d: Pos, w: Pos)
    requires
        is_vert(d),
        m.dom().finite(),
        m.dom().contains(w),
        w.x == x0,
    ensures
        rows_from(m, x0 + d.x, d).len() < rows_from(m, x0, d).len(),
{
    let big = rows_from(m, x0, d);
    let small = rows_from(m, x0 + d.x, d);
    assert(big.contains(w));
    assert(small.subset_of(big.remove(w)));
    if d == spec_down() {
        m.dom().lemma_len_filter(|q: Pos| q.x >= x0);
        m.dom().lemma_len_filter(|q: Pos| q.x >= x0 + d.x);
    } else {
        m.dom().lemma_len_filter(|q: Pos| q.x <= x0);
        m.dom().lemma_len_filter(|q: Pos| q.x <= x0 + d.x);
    }
    vstd::set_lib::lemma_len_subset(small, big.remove(w));
}

/// Relocating one whole crate one row along `d`, onto two vacant cells,
/// keeps the halves paired, keeps every content count, moves no wall, and
/// keeps the store the same size.
#[verifier::rlimit(100)]
#[verifier::spinoff_prover]
pub proof fn lemma_move_box(m: Map<Pos, WideItem>, b: Pos, d: Pos, w: WideItem)
    requires
        paired(m),
        is_vert(d),
        m.dom().contains(b),
        m[b] == WideItem::CrateLeft,
        m.dom().finite(),
        in_i64(step_c(coords(b), d)),
        in_i64(step_c(step_c(coords(b), d), spec_right())),
        !m.dom().contains(as_pos(step_c(coords(b), d))),
        !m.dom().contains(as_pos(step_c(step_c(coords(b), d), spec_right()))),
    ensures
        ({
            let rb = as_pos((b.x as int, b.y + 1));
            let dl = as_pos(step_c(coords(b), d));
            let dr = as_pos(step_c(step_c(coords(b), d), spec_right()));
            let m2 = m.remove(b).remove(rb).insert(dl, WideItem::CrateLeft).insert(
                dr,
                WideItem::CrateRight,
            );
            paired(m2) && count_val(m2, w) == count_val(m, w) && m2.dom().finite()
                && m2.dom().len() == m.dom().len() && (forall|c: (int, int)|
                #[trigger] cell_of(m2, c) == Some(WideItem::Wall) <==> cell_of(m, c) == Some(
                    WideItem::Wall,
                )) && in_i64((b.x as int, b.y + 1)) && m.dom().contains(rb) && m[rb]
                == WideItem::CrateRight
        }),
{
    let x = b.x as int;
    let y = b.y as int;
    let dx = d.x as int;
    lemma_paired_at(m, coords(b));
    assert(cell_of(m, (x, y + 1)) == Some(WideItem::CrateRight));
    assert(in_i64((x, y + 1)));
    let rb = as_pos((x, y + 1));
    let dl = as_pos(step_c(coords(b), d));
    let dr = as_pos(step_c(step_c(coords(b), d), spec_right()));
    assert(coords(rb) == (x, y + 1) && coords(dl) == (x + dx, y) && coords(dr) == (x + dx, y + 1));
    assert(b != rb && b != dl && b != dr && rb != dl && rb != dr && dl != dr);
    let m2 = m.remove(b).remove(rb).insert(dl, WideItem::CrateLeft).insert(
        dr,
        WideItem::CrateRight,
    );
    // every cell away from the six involved columns keeps its contents
    assert forall|c: (int, int)|
        c != coords(b) && c != (x, y + 1) && c != (x + dx, y) && c != (x + dx, y
            + 1) implies #[trigger] cell_of(m2, c) == cell_of(m, c) by {
        if in_i64(c) {
            if as_pos(c) == b {
                crate::warehouse::cell::lemma_as_pos_injective(c, coords(b));
            }
            if as_pos(c) == rb {
                crate::warehouse::cell::lemma_as_pos_injective(c, (x, y + 1));
            }
            if as_pos(c) == dl {
                crate::warehouse::cell::lemma_as_pos_injective(c, (x + dx, y));
            }
            if as_pos(c) == dr {
                crate::warehouse::cell::lemma_as_pos_injective(c, (x + dx, y + 1));
            }
        }
    }
    assert(cell_of(m2, coords(b)) is None);
    assert(cell_of(m2, (x, y + 1)) is None);
    assert(cell_of(m2, (x + dx, y)) == Some(WideItem::CrateLeft));
    assert(cell_of(m2, (x + dx, y + 1)) == Some(WideItem::CrateRight));
    // pairing
    assert forall|c: (int, int)|
        #![trigger cell_of(m2, step_c(c, spec_right()))]
        cell_of(m2, c) == Some(WideItem::CrateLeft) <==> cell_of(m2, step_c(c, spec_right()))
            == Some(WideItem::CrateRight) by {
        let c1 = step_c(c, spec_right());
        lemma_paired_at(m, c);
        if c == (x, y - 1) {
            lemma_paired_at(m, (x, y - 1));
            assert(cell_of(m, coords(b)) == Some(WideItem::CrateLeft));
        } else if c == coords(b) || c == (x, y + 1) {
            lemma_paired_at(m, (x, y + 1));
        } else if c == (x + dx, y - 1) {
            assert(cell_of(m, (x + dx, y)) is None);
        } else if c == (x + dx, y) || c == (x + dx, y + 1) {
            assert(cell_of(m, (x + dx, y + 1)) is None);
            lemma_paired_at(m, (x + dx, y + 1));
        } else {
            assert(cell_of(m2, c) == cell_of(m, c));
            assert(cell_of(m2, c1) == cell_of(m, c1));
        }
    }
    // counts
    lemma_count_remove(m, b, w);
    lemma_count_remove(m.remove(b), rb, w);
    lemma_count_insert_fresh(m.remove(b).remove(rb), dl, WideItem::CrateLeft, w);
    lemma_count_insert_fresh(m.remove(b).remove(rb).insert(dl, WideItem::CrateLeft), dr,
        WideItem::CrateRight, w);
    // walls
    assert forall|c: (int, int)|
        #[trigger] cell_of(m2, c) == Some(WideItem::Wall) <==> cell_of(m, c) == Some(
            WideItem::Wall,
        ) by {
        if c != coords(b) && c != (x, y + 1) && c != (x + dx, y) && c != (x + dx, y + 1) {
            assert(cell_of(m2, c) == cell_of(m, c));
        }
    }
}

/// Conservation across a horizontal push: the count of every kind of half is
/// unchanged, and the domain stays finite.
pub proof fn lemma_hpushed_conserves(
    m: Map<Pos, WideItem>,
    c: (int, int),
    d: Pos,
    n: nat,
    w: WideItem,
)
    requires
        is_unit(d),
        hpush_run(m, c, d, n),
        m.dom().finite(),
    ensures
        count_val(hpushed(m, c, d, n), w) == count_val(m, w),
        hpushed(m, c, d, n).dom().finite(),
        hpushed(m, c, d, n).dom().len() == m.dom().len(),
    decreases n,
{
    if n > 0 {
        lemma_hpush_run_cells(m, c, d, n);
        let c1 = step_c(c, d);
        lemma_hpushed_conserves(m, c1, d, (n - 1) as nat, w);
        let inner = hpushed(m, c1, d, (n - 1) as nat);
        let p = as_pos(c);
        let e = as_pos(c1);
        lemma_walk_c_line(c, d, 1);
        assert(walk_c(c, d, 1) == c1);
        assert(p != e);
        // the head cell is untouched by the inner shift, and its destination
        // is vacated by it (or was already empty when the chain is short)
        if n == 1 {
            assert(cell_of(inner, c1) is None);
            assert(cell_of(inner, c) == cell_of(m, c));
        } else {
            lemma_hpushed_cells(m, c1, d, (n - 1) as nat);
            assert(cell_of(inner, c1) is None);
            assert(cell_of(inner, c) == cell_of(m, c)) by {
                assert forall|k: nat| k <= n - 1 implies c != #[trigger] walk_c(c1, d, k) by {
                    lemma_walk_c_line(c1, d, k);
                    lemma_walk_c_line(c, d, (k + 1) as nat);
                    assert(walk_c(c1, d, k) == walk_c(c, d, (k + 1) as nat));
                }
            }
        }
        assert(inner.dom().contains(p) && inner[p] == cell_of(m, c)->0);
        assert(!inner.dom().contains(e));
        lemma_count_remove(inner, p, w);
        lemma_count_insert_fresh(inner.remove(p), e, cell_of(m, c)->0, w);
    }
}


/// The set of coordinates a sequence holds.
pub open spec fn set_of(s: Seq<Pos>) -> Set<Pos> {
    Set::new(|p: Pos| s.contains(p))
}

/// The set a sequence holds is finite.
pub proof fn lemma_set_of_finite(s: Seq<Pos>)
    ensures
        set_of(s).finite(),
    decreases s.len(),
{
    if s.len() == 0 {
        assert(set_of(s) =~= Set::empty());
    } else {
        lemma_set_of_finite(s.drop_last());
        assert forall|p: Pos| set_of(s).contains(p) <==> set_of(s.drop_last()).insert(
            s.last(),
        ).contains(p) by {
            if s.contains(p) {
                let i = choose|i: int| 0 <= i < s.len() && s[i] == p;
                if i < s.len() - 1 {
                    assert(s.drop_last()[i] == p);
                }
            }
            if s.drop_last().contains(p) {
                let i = choose|i: int| 0 <= i < s.drop_last().len() && s.drop_last()[i] == p;
                assert(s[i] == p);
            }
            if p == s.last() {
                assert(s[s.len() - 1] == p);
            }
        }
        assert(set_of(s) =~= set_of(s.drop_last()).insert(s.last()));
    }
}

/// Membership in a concatenation is membership in either part.
proof fn lemma_contains_cat(a: Seq<Pos>, b: Seq<Pos>, p: Pos)
    ensures
        (a + b).contains(p) <==> a.contains(p) || b.contains(p),
{
    if (a + b).contains(p) {
        let i = choose|i: int| 0 <= i < (a + b).len() && (a + b)[i] == p;
        if i < a.len() {
            assert(a[i] == p);
        } else {
            assert(b[i - a.len()] == p);
        }
    }
    if a.contains(p) {
        let i = choose|i: int| 0 <= i < a.len() && a[i] == p;
        assert((a + b)[i] == p);
    }
    if b.contains(p) {
        let i = choose|i: int| 0 <= i < b.len() && b[i] == p;
        assert((a + b)[a.len() + i] == p);
    }
}

/// Closure membership demands are monotone in the set.
proof fn lemma_box_deps_monotone(m: Map<Pos, WideItem>, d: Pos, s: Set<Pos>, t: Set<Pos>, b: Pos)
    requires
        box_deps_ok(m, d, s, b),
        s.subset_of(t),
    ensures
        box_deps_ok(m, d, t, b),
{
}

/// The wide warehouse: its floorplan, display extent, and agent position.
/// The agent is not an entry of the floorplan.
pub struct WideWarehouse {
    pub height: i64,
    pub width: i64,
    pub floorplan: CellGrid<WideItem>,
    pub robot: Pos,
}

impl WideWarehouse {
    /// The store keeps one entry per coordinate.
    pub open spec fn wf(&self) -> bool {
        self.floorplan.wf()
    }

    /// The branching feasibility probe of a vertical push: starting from the
    /// crate whose left half sits at `side`, explores every crate that would
    /// have to move, without mutating anything. Answers whether the whole
    /// tree can move and, if so, the left coordinates of every crate in it
    /// (possibly with repeats where two crates rest on a shared one).
    fn find_all_boxes_that_can_move(&self, side: Pos, direction: Pos) -> (r: (bool, Vec<Pos>))
        requires
            self.wf(),
            paired(self.floorplan@),
            is_vert(direction),
            cell_of(self.floorplan@, coords(side)) == Some(WideItem::CrateLeft),
        ensures
            r.0 == wvert_can(self.floorplan@, direction, side),
            r.0 ==> box_set_ok(self.floorplan@, direction, set_of(r.1@)) && set_of(
                r.1@,
            ).contains(side) && (forall|b: Pos|
                #[trigger] set_of(r.1@).contains(b) ==> (if direction == spec_down() {
                    b.x >= side.x
                } else {
                    b.x <= side.x
                })),
            r.0 ==> set_of(r.1@) == dep_set(self.floorplan@, side, direction),
        decreases rows_from(self.floorplan@, side.x as int, direction).len(),
    {
        let ghost m = self.floorplan@;
        let ghost d = direction;
        proof {
            self.floorplan.lemma_pairs();
            lemma_paired_at(m, coords(side));
            // the right half of this crate is a bound key, so side.y + 1 fits
            assert(cell_of(m, (side.x as int, side.y + 1)) == Some(WideItem::CrateRight));
        }
        let nlx = match side.x.checked_add(direction.x) {
            None => {
                proof {
                    assert forall|s: Set<Pos>| !(#[trigger] box_set_ok(m, d, s) && s.contains(
                        side,
                    )) by {
                        if box_set_ok(m, d, s) && s.contains(side) {
                            assert(box_deps_ok(m, d, s, side));
                        }
                    }
                }
                return (false, Vec::new());
            },
            Some(v) => v,
        };
        let next_position_left = Pos { x: nlx, y: side.y };
        let next_position_right = Pos { x: nlx, y: side.y + 1 };
        let ghost bl = step_c(coords(side), d);
        let ghost br = step_c(bl, spec_right());
        proof {
            assert(coords(next_position_left) == bl);
            assert(coords(next_position_right) == br);
        }
        let gl = self.floorplan.get(next_position_left);
        let gr = self.floorplan.get(next_position_right);
        match (gl, gr) {
            (None, None) => {
                let mut movelist: Vec<Pos> = Vec::new();
                movelist.push(side);
                proof {
                    let s = set_of(movelist@);
                    assert(movelist@[0] == side);
                    assert(s.contains(side));
                    lemma_set_of_finite(movelist@);
                    assert forall|b: Pos| #[trigger] s.contains(b) implies box_deps_ok(
                        m,
                        d,
                        s,
                        b,
                    ) by {
                        let i = choose|i: int| 0 <= i < movelist@.len() && movelist@[i] == b;
                        assert(b == side);
                    }
                    assert(box_set_ok(m, d, s));
                    assert(cell_of(m, bl) is None && cell_of(m, br) is None);
                    assert(s =~= dep_set(m, side, d));
                }
                (true, movelist)
            },
            (Some(WideItem::Wall), _) | (_, Some(WideItem::Wall)) => {
                proof {
                    assert forall|s: Set<Pos>| !(#[trigger] box_set_ok(m, d, s) && s.contains(
                        side,
                    )) by {
                        if box_set_ok(m, d, s) && s.contains(side) {
                            assert(box_deps_ok(m, d, s, side));
                        }
                    }
                }
                (false, Vec::new())
            },
            (left, right) => {
                let mut movelist: Vec<Pos> = Vec::new();
                movelist.push(side);
                let (can_move, mut v) = match left {
                    None => (true, Vec::new()),
                    Some(WideItem::CrateRight) => {
                        proof {
                            lemma_paired_at(m, (nlx as int, side.y - 1));
                            assert(cell_of(m, (nlx as int, side.y - 1)) == Some(
                                WideItem::CrateLeft,
                            ));
                            lemma_rows_from_shrink(m, side.x as int, d, side);
                        }
                        let one_more_step_left = Pos { x: nlx, y: side.y - 1 };
                        self.find_all_boxes_that_can_move(one_more_step_left, direction)
                    },
                    Some(WideItem::CrateLeft) => {
                        proof {
                            lemma_rows_from_shrink(m, side.x as int, d, side);
                        }
                        self.find_all_boxes_that_can_move(next_position_left, direction)
                    },
                    Some(WideItem::Wall) => {
                        proof {
                            assert(false);
                        }
                        (false, Vec::new())
                    },
                };
                if !can_move {
                    proof {
                        assert forall|s: Set<Pos>| !(#[trigger] box_set_ok(m, d, s) && s.contains(
                            side,
                        )) by {
                            if box_set_ok(m, d, s) && s.contains(side) {
                                assert(box_deps_ok(m, d, s, side));
                            }
                        }
                    }
                    return (false, v);
                }
                let ghost s_l = set_of(v@);
                let ghost part_one = movelist@;
                let ghost seq_l = v@;
                movelist.append(&mut v);
                let (can_move2, mut v2) = match right {
                    None => (true, Vec::new()),
                    Some(WideItem::CrateRight) => (true, Vec::new()),
                    Some(WideItem::CrateLeft) => {
                        proof {
                            lemma_rows_from_shrink(m, side.x as int, d, side);
                        }
                        self.find_all_boxes_that_can_move(next_position_right, direction)
                    },
                    Some(WideItem::Wall) => {
                        proof {
                            assert(false);
                        }
                        (false, Vec::new())
                    },
                };
                if !can_move2 {
                    proof {
                        assert forall|s: Set<Pos>| !(#[trigger] box_set_ok(m, d, s) && s.contains(
                            side,
                        )) by {
                            if box_set_ok(m, d, s) && s.contains(side) {
                                assert(box_deps_ok(m, d, s, side));
                            }
                        }
                    }
                    return (false, v2);
                }
                let ghost s_r = set_of(v2@);
                let ghost part_two = movelist@;
                let ghost seq_r = v2@;
                movelist.append(&mut v2);
                proof {
                    let s = set_of(movelist@);
                    assert(movelist@ == part_two + seq_r);
                    assert(movelist@[0] == side);
                    assert(s.contains(side));
                    assert forall|p: Pos| #[trigger] s.contains(p) <==> (p == side || s_l.contains(
                        p,
                    ) || s_r.contains(p)) by {
                        lemma_contains_cat(part_two, seq_r, p);
                        lemma_contains_cat(part_one, seq_l, p);
                        if part_one.contains(p) {
                            let i = choose|i: int| 0 <= i < part_one.len() && part_one[i] == p;
                            assert(p == side);
                        }
                        if p == side {
                            assert(part_one[0] == p);
                        }
                    }
                    lemma_set_of_finite(movelist@);
                    assert(s_l.subset_of(s) && s_r.subset_of(s));
                    assert forall|b: Pos| #[trigger] s.contains(b) implies box_deps_ok(
                        m,
                        d,
                        s,
                        b,
                    ) by {
                        if s_l.contains(b) {
                            lemma_box_deps_monotone(m, d, s_l, s, b);
                        } else if s_r.contains(b) {
                            lemma_box_deps_monotone(m, d, s_r, s, b);
                        } else {
                            assert(b == side);
                            assert(in_i64(bl) && in_i64(br));
                            if cell_of(m, bl) == Some(WideItem::CrateRight) {
                                assert(s_l.contains(as_pos(step_c(bl, spec_left()))));
                            }
                            if cell_of(m, bl) == Some(WideItem::CrateLeft) {
                                assert(s_l.contains(as_pos(bl)));
                            }
                            if cell_of(m, br) == Some(WideItem::CrateLeft) {
                                assert(s_r.contains(as_pos(br)));
                            }
                            assert(box_deps_ok(m, d, s, side));
                        }
                    }
                    assert(box_set_ok(m, d, s));
                    // the collected set is exactly the minimal closure: the
                    // recursion of the probe mirrors the closure's definition
                    let lb = if cell_of(m, bl) == Some(WideItem::CrateLeft) {
                        dep_set(m, as_pos(bl), d)
                    } else if cell_of(m, bl) == Some(WideItem::CrateRight) {
                        dep_set(m, as_pos(step_c(bl, spec_left())), d)
                    } else {
                        Set::<Pos>::empty()
                    };
                    let rb = if cell_of(m, br) == Some(WideItem::CrateLeft) {
                        dep_set(m, as_pos(br), d)
                    } else {
                        Set::<Pos>::empty()
                    };
                    assert(s_l == lb);
                    assert(s_r == rb);
                    assert(dep_set(m, side, d) == Set::empty().insert(side).union(lb).union(rb));
                    assert(s =~= dep_set(m, side, d));
                }
                (true, movelist)
            },
        }
    }
}


/// A horizontal push moves no wall: per-cell reading.
#[verifier::rlimit(100)]
#[verifier::spinoff_prover]
proof fn lemma_hpushed_wall_at(m: Map<Pos, WideItem>, c: (int, int), d: Pos, n: nat, q: (int, int))
    requires
        is_horiz(d),
        hpush_run(m, c, d, n),
        n > 0,
    ensures
        cell_of(hpushed(m, c, d, n), q) == Some(WideItem::Wall) <==> cell_of(m, q) == Some(
            WideItem::Wall,
        ),
{
    lemma_hpushed_cells(m, c, d, n);
    lemma_hpush_run_cells(m, c, d, n);
    let r = hpushed(m, c, d, n);
    let x0 = c.0;
    let y0 = c.1;
    let sg: int = if d == spec_right() {
        1
    } else {
        -1
    };
    let on_q = q.0 == x0 && (if sg == 1 {
        y0 <= q.1 <= y0 + n
    } else {
        y0 - n <= q.1 <= y0
    });
    if on_q {
        let k = (if sg == 1 { q.1 - y0 } else { y0 - q.1 }) as nat;
        lemma_walk_c_line(c, d, k);
        assert(q == walk_c(c, d, k));
        if k > 0 {
            lemma_walk_c_line(c, d, (k - 1) as nat);
            assert(cell_of(r, q) == cell_of(m, walk_c(c, d, (k - 1) as nat)));
        } else {
            assert(cell_of(r, q) is None);
        }
    } else {
        assert(cell_of(r, q) == cell_of(m, q)) by {
            assert forall|k: nat| k <= n implies q != #[trigger] walk_c(c, d, k) by {
                lemma_walk_c_line(c, d, k);
            }
        }
    }
}

/// A horizontal push moves no wall.
pub proof fn lemma_hpushed_walls(m: Map<Pos, WideItem>, c: (int, int), d: Pos, n: nat)
    requires
        is_horiz(d),
        hpush_run(m, c, d, n),
    ensures
        forall|q: (int, int)|
            #[trigger] cell_of(hpushed(m, c, d, n), q) == Some(WideItem::Wall) <==> cell_of(m, q)
                == Some(WideItem::Wall),
{
    if n > 0 {
        assert forall|q: (int, int)|
            #[trigger] cell_of(hpushed(m, c, d, n), q) == Some(WideItem::Wall) <==> cell_of(m, q)
                == Some(WideItem::Wall) by {
            lemma_hpushed_wall_at(m, c, d, n, q);
        }
    }
}

/// Every coordinate bound after a horizontal push is at most one step from
/// one bound before it.
pub proof fn lemma_hpushed_dom_step(m: Map<Pos, WideItem>, c: (int, int), d: Pos, n: nat)
    requires
        is_unit(d),
        hpush_run(m, c, d, n),
    ensures
        forall|p: Pos|
            #[trigger] hpushed(m, c, d, n).dom().contains(p) ==> exists|q: Pos|
                #[trigger] m.dom().contains(q) && -1 <= p.x - q.x <= 1 && -1 <= p.y - q.y <= 1,
{
    if n > 0 {
        lemma_hpushed_cells(m, c, d, n);
        let r = hpushed(m, c, d, n);
        assert forall|p: Pos| #[trigger] r.dom().contains(p) implies exists|q: Pos|
            #[trigger] m.dom().contains(q) && -1 <= p.x - q.x <= 1 && -1 <= p.y - q.y <= 1 by {
            let pc = coords(p);
            assert(as_pos(pc) == p);
            assert(cell_of(r, pc) is Some);
            if forall|k: nat| k <= n ==> pc != #[trigger] walk_c(c, d, k) {
                assert(cell_of(r, pc) == cell_of(m, pc));
                assert(m.dom().contains(p) && p.x - p.x == 0 && p.y - p.y == 0);
            } else {
                let k = choose|k: nat| k <= n && pc == walk_c(c, d, k);
                if k == 0 {
                    assert(cell_of(r, c) is None);
                } else {
                    assert(cell_of(r, walk_c(c, d, k)) == cell_of(m, walk_c(c, d, (k - 1) as nat)));
                    let qc = walk_c(c, d, (k - 1) as nat);
                    assert(cell_of(m, qc) is Some);
                    let q = as_pos(qc);
                    assert(m.dom().contains(q));
                    crate::warehouse::store::lemma_walk_c_snoc(c, d, (k - 1) as nat);
                    assert(pc == step_c(qc, d));
                    assert(-1 <= p.x - q.x <= 1 && -1 <= p.y - q.y <= 1);
                }
            }
        }
    }
}

/// The one coordinate a horizontal push can newly bind is the landing cell
/// at the far end of the chain.
pub proof fn lemma_hpushed_new_keys(m: Map<Pos, WideItem>, c: (int, int), d: Pos, n: nat)
    requires
        is_unit(d),
        hpush_run(m, c, d, n),
        n > 0,
    ensures
        forall|p: Pos|
            #[trigger] hpushed(m, c, d, n).dom().contains(p) && !m.dom().contains(p) ==> coords(p)
                == walk_c(c, d, n),
{
    lemma_hpushed_cells(m, c, d, n);
    lemma_hpush_run_cells(m, c, d, n);
    let r = hpushed(m, c, d, n);
    assert forall|p: Pos| #[trigger] r.dom().contains(p) && !m.dom().contains(p) implies coords(p)
        == walk_c(c, d, n) by {
        let pc = coords(p);
        assert(as_pos(pc) == p);
        assert(cell_of(r, pc) is Some);
        if forall|k: nat| k <= n ==> pc != #[trigger] walk_c(c, d, k) {
            assert(cell_of(r, pc) == cell_of(m, pc));
        } else {
            let k = choose|k: nat| k <= n && pc == walk_c(c, d, k);
            if k == 0 {
                assert(cell_of(r, c) is None);
            } else if k < n {
                assert(cell_of(m, walk_c(c, d, k)) is Some);
            }
        }
    }
}

/// A push that starts on the listed cell cannot tear a crate in half: pushing
/// right never starts on a `CrateRight`, pushing left never on a `CrateLeft`.
/// The driver satisfies this for free, since the agent occupies the cell on
/// the other side of the start and never stands inside a crate.
pub open spec fn no_tear(m: Map<Pos, WideItem>, c: (int, int), d: Pos) -> bool {
    &&& (d == spec_right() ==> cell_of(m, c) != Some(WideItem::CrateRight))
    &&& (d == spec_left() ==> cell_of(m, c) != Some(WideItem::CrateLeft))
}

/// The score contribution of one cell: `100 * row + column` for a left half.
pub open spec fn wcell_score_fn() -> spec_fn(Pos, WideItem) -> int {
    |p: Pos, t: WideItem|
        if t == WideItem::CrateLeft {
            100 * p.x + p.y
        } else {
            0
        }
}

/// The score of a grid: the sum of `100 * row + column` over the left half
/// of every crate.
pub open spec fn wcrate_score(m: Map<Pos, WideItem>) -> int {
    sum_map(m, wcell_score_fn())
}

/// An index of a coordinate furthest along the vertical direction.
proof fn lemma_seq_max_row(s: Seq<Pos>, d: Pos) -> (j: int)
    requires
        s.len() > 0,
        is_vert(d),
    ensures
        0 <= j < s.len(),
        forall|k: int|
            0 <= k < s.len() ==> (if d == spec_down() {
                (#[trigger] s[k]).x <= s[j].x
            } else {
                (#[trigger] s[k]).x >= s[j].x
            }),
    decreases s.len(),
{
    if s.len() == 1 {
        0
    } else {
        let j0 = lemma_seq_max_row(s.drop_last(), d);
        assert(forall|k: int| 0 <= k < s.len() - 1 ==> (#[trigger] s[k]) == s.drop_last()[k]);
        if (d == spec_down() && s.last().x > s[j0].x) || (d != spec_down() && s.last().x
            < s[j0].x) {
            s.len() - 1
        } else {
            j0
        }
    }
}

/// One more listed coordinate joins the set of a prefix.
proof fn lemma_set_of_take_push(s: Seq<Pos>, i: int)
    requires
        0 <= i < s.len(),
    ensures
        set_of(s.take(i + 1)) =~= set_of(s.take(i)).insert(s[i]),
{
    assert forall|p: Pos|
        set_of(s.take(i + 1)).contains(p) <==> set_of(s.take(i)).insert(s[i]).contains(p) by {
        if s.take(i + 1).contains(p) {
            let k = choose|k: int| 0 <= k < s.take(i + 1).len() && (#[trigger] s.take(i + 1)[k])
                == p;
            if k < i {
                assert(s.take(i)[k] == p);
            }
        }
        if s.take(i).contains(p) {
            let k = choose|k: int| 0 <= k < s.take(i).len() && (#[trigger] s.take(i)[k]) == p;
            assert(s.take(i + 1)[k] == p);
        }
        if p == s[i] {
            assert(s.take(i + 1)[i] == p);
        }
    }
}

/// A pushed coordinate joins the set a vector holds.
proof fn lemma_set_of_push(s: Seq<Pos>, b: Pos)
    ensures
        set_of(s.push(b)) =~= set_of(s).insert(b),
{
    assert forall|p: Pos| set_of(s.push(b)).contains(p) <==> set_of(s).insert(b).contains(p) by {
        if s.push(b).contains(p) {
            let k = choose|k: int| 0 <= k < s.push(b).len() && (#[trigger] s.push(b)[k]) == p;
            if k < s.len() {
                assert(s[k] == p);
            }
        }
        if s.contains(p) {
            let k = choose|k: int| 0 <= k < s.len() && (#[trigger] s[k]) == p;
            assert(s.push(b)[k] == p);
        }
        if p == b {
            assert(s.push(b).last() == p);
        }
    }
}

/// Whether `v` holds `p`.
fn contains_pos(v: &Vec<Pos>, p: Pos) -> (r: bool)
    ensures
        r == v@.contains(p),
{
    let n = v.len();
    for i in 0..n
        invariant
            n == v@.len(),
            forall|j: int| 0 <= j < i ==> v@[j] != p,
    {
        if v[i] == p {
            return true;
        }
    }
    false
}

impl WideWarehouse {
    /// Attempts to push at `pos` along `direction`. Horizontally this shifts
    /// a linear chain of half-cells, exactly as the narrow grid does; when it
    /// fails, nothing changes. Vertically it first probes the whole branching
    /// tree of dependent crates without touching the grid; only if every
    /// branch ends on free floor does it relocate the crates, in waves, each
    /// wave moving the crates whose destination cells are already vacant —
    /// and every wave moves at least the crate furthest along the direction,
    /// so on success the grid ends exactly as [`wpushed`] describes: the
    /// whole dependency closure displaced one cell, all or nothing, and the
    /// pushed cell left vacant for the agent. Either way the crate halves
    /// stay paired (unless the push would tear a crate, which the driver
    /// never asks for), the number of halves of each kind is conserved, and
    /// no wall moves.
    pub fn try_big_move(&mut self, pos: Pos, direction: Pos) -> (r: bool)
        requires
            old(self).wf(),
            paired(old(self).floorplan@),
            is_unit(direction),
        ensures
            final(self).wf(),
            final(self).height == old(self).height,
            final(self).width == old(self).width,
            final(self).robot == old(self).robot,
            r == wcan_push(old(self).floorplan@, coords(pos), direction),
            !r ==> final(self).floorplan@ == old(self).floorplan@,
            (is_horiz(direction) && r) ==> exists|n: nat|
                hpush_run(old(self).floorplan@, coords(pos), direction, n)
                    && final(self).floorplan@ =~= hpushed(
                    old(self).floorplan@,
                    coords(pos),
                    direction,
                    n,
                ),
            no_tear(old(self).floorplan@, coords(pos), direction) ==> paired(
                final(self).floorplan@,
            ),
            count_val(final(self).floorplan@, WideItem::CrateLeft) == count_val(
                old(self).floorplan@,
                WideItem::CrateLeft,
            ),
            count_val(final(self).floorplan@, WideItem::CrateRight) == count_val(
                old(self).floorplan@,
                WideItem::CrateRight,
            ),
            count_val(final(self).floorplan@, WideItem::Wall) == count_val(
                old(self).floorplan@,
                WideItem::Wall,
            ),
            forall|c: (int, int)|
                #[trigger] cell_of(final(self).floorplan@, c) == Some(WideItem::Wall) <==> cell_of(
                    old(self).floorplan@,
                    c,
                ) == Some(WideItem::Wall),
            final(self).floorplan@.dom().len() == old(self).floorplan@.dom().len(),
            forall|bound: int|
                0 <= bound && #[trigger] dom_bounded(old(self).floorplan@, bound) ==> dom_bounded(
                    final(self).floorplan@,
                    bound + 1,
                ),
            forall|p: Pos|
                #[trigger] final(self).floorplan@.dom().contains(p) && !old(
                    self,
                ).floorplan@.dom().contains(p) ==> ((direction == spec_down() ==> p.x > pos.x) && (
                direction == spec_up() ==> p.x < pos.x) && (direction == spec_right() ==> p.x
                    == pos.x && p.y > pos.y) && (direction == spec_left() ==> p.x == pos.x && p.y
                    < pos.y)),
            (is_vert(direction) && r) ==> ({
                let m0 = old(self).floorplan@;
                let c = coords(pos);
                &&& (cell_of(m0, c) is None ==> final(self).floorplan@ == m0)
                &&& (cell_of(m0, c) == Some(WideItem::CrateLeft) ==> final(self).floorplan@
                    =~= wpushed(m0, dep_set(m0, pos, direction), direction))
                &&& (cell_of(m0, c) == Some(WideItem::CrateRight) ==> final(self).floorplan@
                    =~= wpushed(
                    m0,
                    dep_set(m0, as_pos(step_c(c, spec_left())), direction),
                    direction,
                ))
            }),
            r ==> !final(self).floorplan@.dom().contains(pos),
        decreases ray_keys(old(self).floorplan@, coords(pos), direction).len(),
    {
        let ghost m0 = self.floorplan@;
        let ghost c = coords(pos);
        let ghost d = direction;
        if direction.x == 0 {
            // Moving horizontally: a linear chain of half-cells.
            match self.floorplan.get(pos) {
                None => {
                    proof {
                        assert(hpush_run(m0, c, d, 0));
                    }
                    true
                },
                Some(WideItem::Wall) => {
                    proof {
                        assert forall|n: nat| !hpush_run(m0, c, d, n) by {
                            if n == 0 {
                            } else {
                            }
                        }
                    }
                    false
                },
                Some(item) => {
                    let ny = match pos.y.checked_add(direction.y) {
                        None => {
                            proof {
                                assert(!in_i64(step_c(c, d)));
                                assert forall|n: nat| !hpush_run(m0, c, d, n) by {
                                    if n >= 1 {
                                        assert(!hpush_run(m0, step_c(c, d), d, (n - 1) as nat)) by {
                                            if n == 1 {
                                                assert(!in_i64(step_c(c, d)));
                                            } else {
                                                assert(cell_of(m0, step_c(c, d)) is None);
                                            }
                                        }
                                    }
                                }
                            }
                            return false;
                        },
                        Some(v) => v,
                    };
                    let next_position = Pos { x: pos.x, y: ny };
                    proof {
                        self.floorplan.lemma_pairs();
                        lemma_ray_keys_shrink(m0, c, d);
                        assert(coords(next_position) == step_c(c, d));
                    }
                    if self.try_big_move(next_position, direction) {
                        let ghost n0 = choose|n: nat|
                            hpush_run(m0, step_c(c, d), d, n) && self.floorplan@ =~= hpushed(
                                m0,
                                step_c(c, d),
                                d,
                                n,
                            );
                        self.floorplan.remove(pos);
                        self.floorplan.insert(next_position, item);
                        proof {
                            assert(hpush_run(m0, c, d, n0 + 1));
                            assert(cell_of(m0, c)->0 == item);
                            assert(self.floorplan@ =~= hpushed(m0, c, d, (n0 + 1) as nat));
                            lemma_hpushed_conserves(m0, c, d, (n0 + 1) as nat, WideItem::CrateLeft);
                            lemma_hpushed_conserves(
                                m0,
                                c,
                                d,
                                (n0 + 1) as nat,
                                WideItem::CrateRight,
                            );
                            lemma_hpushed_conserves(m0, c, d, (n0 + 1) as nat, WideItem::Wall);
                            lemma_hpushed_walls(m0, c, d, (n0 + 1) as nat);
                            lemma_hpushed_dom_step(m0, c, d, (n0 + 1) as nat);
                            lemma_hpushed_new_keys(m0, c, d, (n0 + 1) as nat);
                            lemma_walk_c_line(c, d, (n0 + 1) as nat);
                            if no_tear(m0, c, d) {
                                lemma_hpushed_paired(m0, c, d, (n0 + 1) as nat);
                            }
                        }
                        true
                    } else {
                        proof {
                            assert forall|n: nat| !hpush_run(m0, c, d, n) by {
                                if n > 0 {
                                    assert(!hpush_run(m0, step_c(c, d), d, (n - 1) as nat));
                                }
                            }
                        }
                        false
                    }
                },
            }
        } else {
            // Moving vertically: validate the whole branching tree, then
            // commit it in waves.
            let (allowed, movelist, side) = match self.floorplan.get(pos) {
                None => {
                    return true;
                },
                Some(WideItem::Wall) => {
                    return false;
                },
                Some(WideItem::CrateLeft) => {
                    let r = self.find_all_boxes_that_can_move(pos, direction);
                    (r.0, r.1, pos)
                },
                Some(WideItem::CrateRight) => {
                    proof {
                        lemma_paired_at(self.floorplan@, (pos.x as int, pos.y - 1));
                        assert(cell_of(self.floorplan@, (pos.x as int, pos.y - 1)) == Some(
                            WideItem::CrateLeft,
                        ));
                    }
                    let left_side = Pos { x: pos.x, y: pos.y - 1 };
                    proof {
                        assert(coords(left_side) == step_c(c, spec_left()));
                        assert(as_pos(step_c(c, spec_left())) == left_side);
                    }
                    let r = self.find_all_boxes_that_can_move(left_side, direction);
                    (r.0, r.1, left_side)
                },
            };
            if allowed {
                let ghost boxes = set_of(movelist@);
                proof {
                    self.floorplan.lemma_pairs();
                }
                // one entry per crate: shared crates may repeat in the list
                let mut pending: Vec<Pos> = Vec::new();
                let n_all = movelist.len();
                proof {
                    assert(set_of(movelist@.take(0)) =~= set_of(pending@));
                }
                for i in 0..n_all
                    invariant
                        n_all == movelist@.len(),
                        self == old(self),
                        boxes == set_of(movelist@),
                        pending@.no_duplicates(),
                        set_of(pending@) == set_of(movelist@.take(i as int)),
                {
                    let b = movelist[i];
                    let ghost prev = pending@;
                    proof {
                        assert(movelist@[i as int] == b);
                        lemma_set_of_take_push(movelist@, i as int);
                    }
                    if !contains_pos(&pending, b) {
                        pending.push(b);
                        proof {
                            lemma_set_of_push(prev, b);
                            assert(pending@.drop_last() =~= prev);
                        }
                    } else {
                        proof {
                            assert(set_of(prev).insert(b) =~= set_of(prev));
                        }
                    }
                }
                proof {
                    assert(movelist@.take(n_all as int) =~= movelist@);
                }
                let ghost mut mv: Set<Pos> = Set::empty();
                proof {
                    lemma_wpushed_empty(m0, direction);
                }
                while pending.len() > 0
                    invariant
                        is_vert(direction),
                        self.floorplan.wf(),
                        paired(self.floorplan@),
                        box_set_ok(m0, direction, boxes),
                        paired(m0),
                        m0.dom().finite(),
                        pending@.no_duplicates(),
                        mv.subset_of(boxes),
                        moved_clear(boxes, mv, direction),
                        self.floorplan@ == wpushed(m0, mv, direction),
                        forall|u: Pos|
                            #[trigger] boxes.contains(u) <==> mv.contains(u) || set_of(
                                pending@,
                            ).contains(u),
                        forall|k: int| 0 <= k < pending@.len() ==> !mv.contains(#[trigger] pending@[k]),
                        forall|k: int|
                            0 <= k < pending@.len() ==> boxes.contains(#[trigger] pending@[k]),
                        forall|bb: Pos|
                            #[trigger] boxes.contains(bb) ==> (if direction == spec_down() {
                                bb.x >= pos.x
                            } else {
                                bb.x <= pos.x
                            }),
                        forall|p: Pos|
                            #[trigger] self.floorplan@.dom().contains(p) && !m0.dom().contains(p)
                                ==> ((direction == spec_down() ==> p.x > pos.x) && (direction
                                == spec_up() ==> p.x < pos.x)),
                        self.floorplan@.dom().len() == m0.dom().len(),
                        forall|bound: int|
                            0 <= bound && #[trigger] dom_bounded(m0, bound) ==> dom_bounded(
                                self.floorplan@,
                                bound + 1,
                            ),
                        self.height == old(self).height,
                        self.width == old(self).width,
                        self.robot == old(self).robot,
                        count_val(self.floorplan@, WideItem::CrateLeft) == count_val(
                            m0,
                            WideItem::CrateLeft,
                        ),
                        count_val(self.floorplan@, WideItem::CrateRight) == count_val(
                            m0,
                            WideItem::CrateRight,
                        ),
                        count_val(self.floorplan@, WideItem::Wall) == count_val(
                            m0,
                            WideItem::Wall,
                        ),
                        forall|cc: (int, int)|
                            #[trigger] cell_of(self.floorplan@, cc) == Some(WideItem::Wall)
                                <==> cell_of(m0, cc) == Some(WideItem::Wall),
                    decreases pending.len(),
                {
                    let wave_len = pending.len();
                    // a crate furthest along the direction always moves in
                    // this wave, so the commit runs to completion
                    let ghost jmax = lemma_seq_max_row(pending@, direction);
                    let ghost emax = pending@[jmax];
                    let mut next_pending: Vec<Pos> = Vec::new();
                    let mut moved_one = false;
                    for i in 0..wave_len
                        invariant
                            is_vert(direction),
                            wave_len == pending@.len(),
                            self.floorplan.wf(),
                            paired(self.floorplan@),
                            box_set_ok(m0, direction, boxes),
                            paired(m0),
                            m0.dom().finite(),
                            pending@.no_duplicates(),
                            next_pending@.no_duplicates(),
                            mv.subset_of(boxes),
                            moved_clear(boxes, mv, direction),
                            self.floorplan@ == wpushed(m0, mv, direction),
                            forall|u: Pos|
                                #[trigger] boxes.contains(u) <==> mv.contains(u) || set_of(
                                    next_pending@,
                                ).contains(u) || (exists|k: int|
                                    i <= k < pending@.len() && #[trigger] pending@[k] == u),
                            forall|k: int|
                                i <= k < pending@.len() ==> !mv.contains(#[trigger] pending@[k])
                                    && !set_of(next_pending@).contains(pending@[k]),
                            forall|k: int|
                                0 <= k < next_pending@.len() ==> !mv.contains(
                                    #[trigger] next_pending@[k],
                                ) && set_of(pending@).contains(next_pending@[k]),
                            forall|k: int|
                                0 <= k < pending@.len() ==> boxes.contains(#[trigger] pending@[k]),
                            0 <= jmax < pending@.len(),
                            pending@[jmax] == emax,
                            forall|k: int|
                                0 <= k < pending@.len() ==> (if direction == spec_down() {
                                    (#[trigger] pending@[k]).x <= emax.x
                                } else {
                                    (#[trigger] pending@[k]).x >= emax.x
                                }),
                            moved_one || (exists|k: int|
                                i <= k < pending@.len() && #[trigger] pending@[k] == emax),
                            forall|bb: Pos|
                                #[trigger] boxes.contains(bb) ==> (if direction == spec_down() {
                                    bb.x >= pos.x
                                } else {
                                    bb.x <= pos.x
                                }),
                            forall|p: Pos|
                                #[trigger] self.floorplan@.dom().contains(p) && !m0.dom().contains(p)
                                    ==> ((direction == spec_down() ==> p.x > pos.x) && (direction
                                    == spec_up() ==> p.x < pos.x)),
                            self.floorplan@.dom().len() == m0.dom().len(),
                            forall|bound: int|
                                0 <= bound && #[trigger] dom_bounded(m0, bound) ==> dom_bounded(
                                    self.floorplan@,
                                    bound + 1,
                                ),
                            self.height == old(self).height,
                            self.width == old(self).width,
                            self.robot == old(self).robot,
                            count_val(self.floorplan@, WideItem::CrateLeft) == count_val(
                                m0,
                                WideItem::CrateLeft,
                            ),
                            count_val(self.floorplan@, WideItem::CrateRight) == count_val(
                                m0,
                                WideItem::CrateRight,
                            ),
                            count_val(self.floorplan@, WideItem::Wall) == count_val(
                                m0,
                                WideItem::Wall,
                            ),
                            forall|cc: (int, int)|
                                #[trigger] cell_of(self.floorplan@, cc) == Some(WideItem::Wall)
                                    <==> cell_of(m0, cc) == Some(WideItem::Wall),
                            next_pending@.len() + (if moved_one {
                                1int
                            } else {
                                0
                            }) <= i,
                    {
                        let b = pending[i];
                        let ghost before = self.floorplan@;
                        proof {
                            assert(pending@[i as int] == b);
                            assert(boxes.contains(b));
                            assert(!mv.contains(b));
                            if b == emax {
                                // the extremal crate finds its destinations
                                // vacant: nothing unmoved lies beyond it, and
                                // nothing moved has landed there
                                assert forall|u: Pos|
                                    #[trigger] boxes.contains(u) && !mv.contains(u) implies (
                                if direction == spec_down() {
                                    u.x <= emax.x
                                } else {
                                    u.x >= emax.x
                                }) by {
                                    if set_of(next_pending@).contains(u) {
                                        let k2 = choose|k2: int|
                                            0 <= k2 < next_pending@.len() && next_pending@[k2] == u;
                                        assert(set_of(pending@).contains(u));
                                        let k3 = choose|k3: int|
                                            0 <= k3 < pending@.len() && pending@[k3] == u;
                                    } else {
                                        let k2 = choose|k2: int|
                                            i <= k2 < pending@.len() && #[trigger] pending@[k2]
                                                == u;
                                    }
                                }
                                lemma_extremal_free(m0, boxes, mv, direction, emax);
                            }
                        }
                        let moved = self.relocate(b, direction);
                        if moved {
                            moved_one = true;
                            proof {
                                assert(box_deps_ok(m0, direction, boxes, b));
                                assert(m0.dom().contains(as_pos(coords(b))));
                                lemma_paired_at(m0, coords(b));
                                assert(m0.dom().contains(as_pos((b.x as int, b.y + 1))));
                                assert forall|p: Pos|
                                    #[trigger] self.floorplan@.dom().contains(p)
                                        && !m0.dom().contains(p) implies ((direction == spec_down()
                                    ==> p.x > pos.x) && (direction == spec_up() ==> p.x
                                    < pos.x)) by {
                                    let dl = as_pos(step_c(coords(b), direction));
                                    let dr = as_pos(
                                        step_c(step_c(coords(b), direction), spec_right()),
                                    );
                                    if p != dl && p != dr {
                                        assert(before.dom().contains(p));
                                    }
                                }
                                assert forall|bound: int|
                                    0 <= bound && #[trigger] dom_bounded(m0, bound) implies
                                    dom_bounded(self.floorplan@, bound + 1) by {
                                    assert forall|p: Pos|
                                        #[trigger] self.floorplan@.dom().contains(p) implies -bound
                                        - 1 <= p.x <= bound + 1 && -bound - 1 <= p.y <= bound
                                        + 1 by {
                                        let dl = as_pos(step_c(coords(b), direction));
                                        let dr = as_pos(
                                            step_c(step_c(coords(b), direction), spec_right()),
                                        );
                                        if p != dl && p != dr {
                                            assert(before.dom().contains(p));
                                        }
                                    }
                                }
                                // the relocation extends the committed set
                                lemma_wpushed_extend(m0, boxes, mv, b, direction);
                                assert(self.floorplan@ =~= wpushed(
                                    m0,
                                    mv.insert(b),
                                    direction,
                                ));
                                mv = mv.insert(b);
                                assert forall|k: int|
                                    i + 1 <= k < pending@.len() implies !mv.contains(
                                    #[trigger] pending@[k],
                                ) && !set_of(next_pending@).contains(pending@[k]) by {
                                    assert(pending@[k] != b);
                                }
                            }
                        } else {
                            proof {
                                if b == emax {
                                    // the extremal crate always moves
                                    assert(false);
                                }
                            }
                            let ghost nprev = next_pending@;
                            next_pending.push(b);
                            proof {
                                lemma_set_of_push(nprev, b);
                                assert(next_pending@.drop_last() =~= nprev);
                                assert(set_of(pending@).contains(b)) by {
                                    assert(pending@[i as int] == b);
                                }
                                assert forall|k: int|
                                    i + 1 <= k < pending@.len() implies !mv.contains(
                                    #[trigger] pending@[k],
                                ) && !set_of(next_pending@).contains(pending@[k]) by {
                                    assert(pending@[k] != b);
                                    assert(!set_of(nprev).contains(pending@[k]));
                                }
                            }
                        }
                        proof {
                            if !moved_one {
                                let k0 = choose|k0: int|
                                    i <= k0 < pending@.len() && #[trigger] pending@[k0] == emax;
                                assert(k0 != i);
                                assert(i + 1 <= k0 < pending@.len() && pending@[k0] == emax);
                            }
                        }
                    }
                    proof {
                        assert(moved_one);
                    }
                    pending = next_pending;
                }
                proof {
                    // every crate of the closure has moved exactly one step
                    assert forall|u: Pos| #[trigger] boxes.contains(u) implies mv.contains(u) by {
                        if set_of(pending@).contains(u) {
                            let k = choose|k: int| 0 <= k < pending@.len() && pending@[k] == u;
                        }
                    }
                    assert(mv =~= boxes);
                    assert(self.floorplan@ =~= wpushed(m0, boxes, direction));
                    lemma_wpushed_vacates(m0, boxes, direction, side);
                    if cell_of(m0, c) == Some(WideItem::CrateLeft) {
                        assert(side == pos);
                    } else {
                        assert(coords(pos) == (side.x as int, side.y + 1));
                        assert(as_pos((side.x as int, side.y + 1)) == pos);
                    }
                    assert(!self.floorplan@.dom().contains(pos));
                }
            }
            allowed
        }
    }

    /// Relocates the crate whose left half sits at `b` one step along `d`, if
    /// `b` currently holds a left half and both destination cells are vacant;
    /// answers whether it moved. Pairing, half counts, and walls are kept.
    fn relocate(&mut self, b: Pos, d: Pos) -> (moved: bool)
        requires
            old(self).wf(),
            paired(old(self).floorplan@),
            is_vert(d),
        ensures
            final(self).wf(),
            paired(final(self).floorplan@),
            final(self).height == old(self).height,
            final(self).width == old(self).width,
            final(self).robot == old(self).robot,
            !moved ==> final(self).floorplan@ == old(self).floorplan@,
            final(self).floorplan@.dom().len() == old(self).floorplan@.dom().len(),
            moved ==> old(self).floorplan@.dom().contains(b) && old(self).floorplan@[b]
                == WideItem::CrateLeft && in_i64(step_c(coords(b), d)) && in_i64(
                step_c(step_c(coords(b), d), spec_right()),
            ) && in_i64((b.x as int, b.y + 1)) && !old(self).floorplan@.dom().contains(
                as_pos(step_c(coords(b), d)),
            ) && !old(self).floorplan@.dom().contains(
                as_pos(step_c(step_c(coords(b), d), spec_right())),
            ) && final(self).floorplan@ =~= old(self).floorplan@.remove(b).remove(
                as_pos((b.x as int, b.y + 1)),
            ).insert(as_pos(step_c(coords(b), d)), WideItem::CrateLeft).insert(
                as_pos(step_c(step_c(coords(b), d), spec_right())),
                WideItem::CrateRight,
            ),
            (old(self).floorplan@.dom().contains(b) && old(self).floorplan@[b]
                == WideItem::CrateLeft && in_i64(step_c(coords(b), d)) && in_i64(
                step_c(step_c(coords(b), d), spec_right()),
            ) && !old(self).floorplan@.dom().contains(as_pos(step_c(coords(b), d))) && !old(
                self,
            ).floorplan@.dom().contains(as_pos(step_c(step_c(coords(b), d), spec_right()))))
                ==> moved,
            count_val(final(self).floorplan@, WideItem::CrateLeft) == count_val(
                old(self).floorplan@,
                WideItem::CrateLeft,
            ),
            count_val(final(self).floorplan@, WideItem::CrateRight) == count_val(
                old(self).floorplan@,
                WideItem::CrateRight,
            ),
            count_val(final(self).floorplan@, WideItem::Wall) == count_val(
                old(self).floorplan@,
                WideItem::Wall,
            ),
            forall|cc: (int, int)|
                #[trigger] cell_of(final(self).floorplan@, cc) == Some(WideItem::Wall) <==> cell_of(
                    old(self).floorplan@,
                    cc,
                ) == Some(WideItem::Wall),
    {
        let ghost m = self.floorplan@;
        let nx = match b.x.checked_add(d.x) {
            None => {
                return false;
            },
            Some(v) => v,
        };
        match self.floorplan.get(b) {
            Some(WideItem::CrateLeft) => {
                proof {
                    self.floorplan.lemma_pairs();
                    lemma_paired_at(m, coords(b));
                    assert(cell_of(m, (b.x as int, b.y + 1)) == Some(WideItem::CrateRight));
                }
                let next_box_left = Pos { x: nx, y: b.y };
                let next_box_right = Pos { x: nx, y: b.y + 1 };
                if self.floorplan.contains_key(next_box_left) || self.floorplan.contains_key(
                    next_box_right,
                ) {
                    false
                } else {
                    let right_side = Pos { x: b.x, y: b.y + 1 };
                    proof {
                        assert(coords(next_box_left) == step_c(coords(b), d));
                        assert(coords(next_box_right) == step_c(step_c(coords(b), d), spec_right()));
                        lemma_move_box(m, b, d, WideItem::CrateLeft);
                        lemma_move_box(m, b, d, WideItem::CrateRight);
                        lemma_move_box(m, b, d, WideItem::Wall);
                        assert(as_pos((b.x as int, b.y + 1)) == right_side);
                    }
                    self.floorplan.remove(b);
                    self.floorplan.remove(right_side);
                    self.floorplan.insert(next_box_left, WideItem::CrateLeft);
                    self.floorplan.insert(next_box_right, WideItem::CrateRight);
                    proof {
                        assert(self.floorplan@ =~= m.remove(b).remove(right_side).insert(
                            as_pos(step_c(coords(b), d)),
                            WideItem::CrateLeft,
                        ).insert(
                            as_pos(step_c(step_c(coords(b), d), spec_right())),
                            WideItem::CrateRight,
                        ));
                    }
                    true
                }
            },
            _ => false,
        }
    }

    /// The score of the final grid: the sum of `100 * row + column` over the
    /// left half of every crate. The bounds keep the sum well inside the
    /// result type.
    pub fn box_score(&self) -> (r: i64)
        requires
            self.wf(),
            self.floorplan.pairs().len() <= crate::warehouse::narrow::score_bound(),
            forall|i: int|
                0 <= i < self.floorplan.pairs().len() ==> {
                    let p = (#[trigger] self.floorplan.pairs()[i]).0;
                    -crate::warehouse::narrow::score_bound() <= p.x
                        <= crate::warehouse::narrow::score_bound()
                        && -crate::warehouse::narrow::score_bound() <= p.y
                        <= crate::warehouse::narrow::score_bound()
                },
        ensures
            r == wcrate_score(self.floorplan@),
    {
        let ghost f = wcell_score_fn();
        let ghost mut rest: Map<Pos, WideItem> = self.floorplan@;
        proof {
            self.floorplan.lemma_pairs();
        }
        let n = self.floorplan.len();
        let mut sum: i64 = 0;
        for i in 0..n
            invariant
                self.wf(),
                n == self.floorplan.pairs().len(),
                n <= crate::warehouse::narrow::score_bound(),
                forall|j: int|
                    0 <= j < n ==> {
                        let p = (#[trigger] self.floorplan.pairs()[j]).0;
                        -crate::warehouse::narrow::score_bound() <= p.x
                            <= crate::warehouse::narrow::score_bound()
                            && -crate::warehouse::narrow::score_bound() <= p.y
                            <= crate::warehouse::narrow::score_bound()
                    },
                f == wcell_score_fn(),
                rest.dom().finite(),
                forall|j: int|
                    i <= j < n ==> rest.dom().contains((#[trigger] self.floorplan.pairs()[j]).0)
                        && rest[self.floorplan.pairs()[j].0] == self.floorplan.pairs()[j].1,
                forall|p: Pos|
                    #[trigger] rest.dom().contains(p) ==> exists|j: int|
                        i <= j < n && (#[trigger] self.floorplan.pairs()[j]).0 == p,
                wcrate_score(self.floorplan@) == sum + sum_map(rest, f),
                -0x1940_0001 * (i as int) <= sum <= 0x1940_0001 * (i as int),
        {
            let (p, item) = self.floorplan.pair_at(i);
            proof {
                self.floorplan.lemma_pairs();
                lemma_sum_map_remove(rest, f, p);
                assert forall|j: int|
                    i + 1 <= j < n implies rest.remove(p).dom().contains(
                    (#[trigger] self.floorplan.pairs()[j]).0,
                ) && rest.remove(p)[self.floorplan.pairs()[j].0] == self.floorplan.pairs()[j].1 by {
                    assert(self.floorplan.pairs()[j].0 != self.floorplan.pairs()[i as int].0);
                }
                rest = rest.remove(p);
            }
            if item == WideItem::CrateLeft {
                sum = sum + (100 * p.x + p.y);
            }
        }
        proof {
            assert(rest.dom() =~= Set::empty());
        }
        sum
    }
}

} // verus!
