//! Antenna rooftops: antennas of equal frequency project antinodes along the
//! line through each ordered pair — one mirrored point per pair, or, with
//! resonant harmonics, every grid point on the ray from the first antenna.

use vstd::prelude::*;

verus! {

/// A grid point: row then column.
#[derive(Clone, Copy, Debug, Hash, Eq, PartialEq, Structural)]
pub struct Point(pub i32, pub i32);

impl Point {
    /// Component-wise sum.
    pub fn plus(self, other: Point) -> (r: Point)
        requires
            i32::MIN <= self.0 + other.0 <= i32::MAX,
            i32::MIN <= self.1 + other.1 <= i32::MAX,
        ensures
            r.0 == self.0 + other.0,
            r.1 == self.1 + other.1,
    {
        Point(self.0 + other.0, self.1 + other.1)
    }

    /// Component-wise difference.
    pub fn minus(self, other: Point) -> (r: Point)
        requires
            i32::MIN <= self.0 - other.0 <= i32::MAX,
            i32::MIN <= self.1 - other.1 <= i32::MAX,
        ensures
            r.0 == self.0 - other.0,
            r.1 == self.1 - other.1,
    {
        Point(self.0 - other.0, self.1 - other.1)
    }
}

/// The contents of the terrain at mathematical coordinates, `None` off the
/// grid.
pub open spec fn grid_at(g: Seq<Seq<u8>>, x: int, y: int) -> Option<u8> {
    if 0 <= x < g.len() && 0 <= y < g[x].len() {
        Some(g[x][y])
    } else {
        None
    }
}

/// The ordered pairs of distinct points within one frequency group, in scan
/// order: every `(pts[i], pts[j])` with different positions.
pub open spec fn group_pairs(pts: Seq<Point>, i: int, j: int) -> Seq<(Point, Point)>
    decreases pts.len() - i, pts.len() - j,
{
    if i < 0 || j < 0 || i >= pts.len() {
        Seq::empty()
    } else if j >= pts.len() {
        group_pairs(pts, i + 1, 0)
    } else if pts[i] != pts[j] {
        seq![(pts[i], pts[j])] + group_pairs(pts, i, j + 1)
    } else {
        group_pairs(pts, i, j + 1)
    }
}

/// All ordered pairs over all frequency groups, in order.
pub open spec fn all_pairs(ants: Seq<(u8, Seq<Point>)>) -> Seq<(Point, Point)>
    decreases ants.len(),
{
    if ants.len() == 0 {
        Seq::empty()
    } else {
        group_pairs(ants[0].1, 0, 0) + all_pairs(ants.skip(1))
    }
}

/// Coordinates this small keep the antinode arithmetic inside `i32`.
pub open spec fn coord_bound() -> int {
    0x2000_0000
}

/// Every antenna coordinate is within the bound.
pub open spec fn pts_bounded(ants: Seq<(u8, Seq<Point>)>) -> bool {
    forall|g: int, k: int|
        0 <= g < ants.len() && 0 <= k < ants[g].1.len() ==> {
            let p = (#[trigger] ants[g].1[k]);
            -coord_bound() <= p.0 <= coord_bound() && -coord_bound() <= p.1 <= coord_bound()
        }
}

/// The mirrored antinode of an ordered pair: the first antenna's position
/// pushed one pair-difference further.
pub open spec fn antinode(p1: Point, p2: Point) -> (int, int) {
    (2 * p1.0 - p2.0, 2 * p1.1 - p2.1)
}

/// The rooftop terrain and its antennas grouped by frequency.
pub struct Rooftops {
    pub grid: Vec<Vec<u8>>,
    pub antennas: Vec<(u8, Vec<Point>)>,
}

impl Rooftops {
    /// The terrain rows, as ghost math.
    pub open spec fn grid_view(&self) -> Seq<Seq<u8>> {
        self.grid@.map_values(|r: Vec<u8>| r@)
    }

    /// The antenna groups, as ghost math.
    pub open spec fn ant_view(&self) -> Seq<(u8, Seq<Point>)> {
        self.antennas@.map_values(|g: (u8, Vec<Point>)| (g.0, g.1@))
    }

    /// The terrain byte under a point, `None` off the grid.
    pub fn get(&self, p: Point) -> (r: Option<u8>)
        ensures
            r == grid_at(self.grid_view(), p.0 as int, p.1 as int),
    {
        if p.0 < 0 || p.1 < 0 {
            return None;
        }
        let x = p.0 as usize;
        let y = p.1 as usize;
        if x < self.grid.len() {
            proof {
                assert(self.grid_view()[x as int] == self.grid@[x as int]@);
            }
            if y < self.grid[x].len() {
                Some(self.grid[x][y])
            } else {
                None
            }
        } else {
            None
        }
    }

    /// Every ordered pair of distinct same-frequency antennas.
    pub fn get_pairs(&self) -> (r: Vec<(Point, Point)>)
        ensures
            r@ == all_pairs(self.ant_view()),
    {
        let mut out: Vec<(Point, Point)> = Vec::new();
        let ng = self.antennas.len();
        let ghost av = self.ant_view();
        proof {
            assert(av.skip(0) =~= av);
            assert(out@ + all_pairs(av) =~= all_pairs(av));
        }
        for g in 0..ng
            invariant
                ng == self.antennas@.len(),
                av == self.ant_view(),
                all_pairs(av) == out@ + all_pairs(av.skip(g as int)),
        {
            let pts = &self.antennas[g].1;
            let ghost pv = av[g as int].1;
            proof {
                assert(av[g as int] == (self.antennas@[g as int].0, self.antennas@[g as int].1@));
                assert(pts@ == pv);
                assert(av.skip(g as int)[0] == av[g as int]);
                assert(av.skip(g as int).skip(1) =~= av.skip(g + 1));
            }
            let m = pts.len();
            let ghost before_group = out@;
            for i in 0..m
                invariant
                    m == pv.len(),
                    pts@ == pv,
                    before_group + group_pairs(pv, 0, 0) == out@ + group_pairs(pv, i as int, 0),
            {
                for j in 0..m
                    invariant
                        i < m,
                        m == pv.len(),
                        pts@ == pv,
                        before_group + group_pairs(pv, 0, 0) == out@ + group_pairs(
                            pv,
                            i as int,
                            j as int,
                        ),
                {
                    let ghost prev = out@;
                    if !(pts[i].0 == pts[j].0 && pts[i].1 == pts[j].1) {
                        out.push((pts[i], pts[j]));
                        proof {
                            assert(pv[i as int] != pv[j as int]);
                            assert(out@ =~= prev + seq![(pv[i as int], pv[j as int])]);
                            assert(prev + (seq![(pv[i as int], pv[j as int])] + group_pairs(
                                pv,
                                i as int,
                                j + 1,
                            )) =~= out@ + group_pairs(pv, i as int, j + 1));
                        }
                    } else {
                        proof {
                            assert(pv[i as int] == pv[j as int]);
                        }
                    }
                }
                proof {
                    assert(group_pairs(pv, i as int, m as int) == group_pairs(pv, i + 1, 0));
                }
            }
            proof {
                assert(group_pairs(pv, m as int, 0) == Seq::<(Point, Point)>::empty());
                assert(out@ =~= before_group + group_pairs(pv, 0, 0));
            }
        }
        proof {
            assert(av.skip(ng as int) =~= Seq::<(u8, Seq<Point>)>::empty());
            assert(out@ + Seq::<(Point, Point)>::empty() =~= out@);
        }
        out
    }

    /// The distinct in-grid antinodes of every pair: for a pair `(a, b)`,
    /// the point one pair-difference past `a`.
    pub fn signal(&self) -> (r: Vec<Point>)
        requires
            pts_bounded(self.ant_view()),
        ensures
            r@.no_duplicates(),
            forall|p: Point|
                #[trigger] r@.contains(p) <==> exists|k: int|
                    0 <= k < all_pairs(self.ant_view()).len() && {
                        let pr = #[trigger] all_pairs(self.ant_view())[k];
                        (p.0 as int, p.1 as int) == antinode(pr.0, pr.1) && grid_at(
                            self.grid_view(),
                            p.0 as int,
                            p.1 as int,
                        ) is Some
                    },
    {
        let pairs = self.get_pairs();
        let ghost ps = all_pairs(self.ant_view());
        let n = pairs.len();
        let mut out: Vec<Point> = Vec::new();
        proof {
            assert(pairs_points_bounded(self.ant_view(), ps)) by {
                lemma_all_pairs_bounded(self.ant_view());
            }
        }
        for k in 0..n
            invariant
                n == ps.len(),
                pairs@ == ps,
                pairs_points_bounded(self.ant_view(), ps),
                pts_bounded(self.ant_view()),

                out@.no_duplicates(),
                forall|p: Point|
                    #[trigger] out@.contains(p) <==> exists|k2: int|
                        0 <= k2 < k && {
                            let pr = #[trigger] ps[k2];
                            (p.0 as int, p.1 as int) == antinode(pr.0, pr.1) && grid_at(
                                self.grid_view(),
                                p.0 as int,
                                p.1 as int,
                            ) is Some
                        },
        {
            let (p1, p2) = pairs[k];
            proof {
                assert(ps[k as int] == (p1, p2));
            }
            let cand = Point(2 * p1.0 - p2.0, 2 * p1.1 - p2.1);
            let ghost prev = out@;
            if self.get(cand).is_some() && !contains_point(&out, cand) {
                out.push(cand);
                proof {
                    assert(out@ =~= prev.push(cand));
                }
            }
            proof {
                assert forall|p: Point| #[trigger] out@.contains(p) implies exists|k2: int|
                    0 <= k2 < k + 1 && {
                        let pr = #[trigger] ps[k2];
                        (p.0 as int, p.1 as int) == antinode(pr.0, pr.1) && grid_at(
                            self.grid_view(),
                            p.0 as int,
                            p.1 as int,
                        ) is Some
                    } by {
                    if prev.contains(p) {
                    } else {
                        assert(p == cand);
                        assert((cand.0 as int, cand.1 as int) == antinode(p1, p2));
                    }
                }
                assert forall|p: Point|
                    (exists|k2: int|
                        0 <= k2 < k + 1 && {
                            let pr = #[trigger] ps[k2];
                            (p.0 as int, p.1 as int) == antinode(pr.0, pr.1) && grid_at(
                                self.grid_view(),
                                p.0 as int,
                                p.1 as int,
                            ) is Some
                        }) implies #[trigger] out@.contains(p) by {
                    let k2 = choose|k2: int|
                        0 <= k2 < k + 1 && {
                            let pr = #[trigger] ps[k2];
                            (p.0 as int, p.1 as int) == antinode(pr.0, pr.1) && grid_at(
                                self.grid_view(),
                                p.0 as int,
                                p.1 as int,
                            ) is Some
                        };
                    if k2 < k {
                        assert(prev.contains(p));
                        let q = choose|q: int| 0 <= q < prev.len() && prev[q] == p;
                        assert(out@[q] == p);
                    } else {
                        assert((p.0 as int, p.1 as int) == antinode(p1, p2));
                        assert(p == cand);
                        assert(out@.contains(cand)) by {
                            if prev.contains(cand) {
                                let q = choose|q: int| 0 <= q < prev.len() && prev[q] == cand;
                                assert(out@[q] == cand);
                            } else {
                                assert(out@.last() == cand);
                            }
                        }
                    }
                }
            }
        }
        out
    }
}

impl Rooftops {
    /// The distinct in-grid points on the resonant ray of every pair: from
    /// the pair's first antenna, every step of the pair difference that stays
    /// on the grid, up to the first step that leaves it.
    pub fn harmonics(&self) -> (r: Vec<Point>)
        requires
            pts_bounded(self.ant_view()),
            self.grid@.len() <= coord_bound(),
            forall|x: int| 0 <= x < self.grid@.len() ==> (#[trigger] self.grid@[x])@.len() <= coord_bound(),
        ensures
            r@.no_duplicates(),
            forall|p: Point|
                #[trigger] r@.contains(p) <==> exists|k: int, t: nat|
                    0 <= k < all_pairs(self.ant_view()).len() && #[trigger] on_ray_prefix(
                        self.grid_view(),
                        all_pairs(self.ant_view())[k],
                        p,
                        t,
                    ),
    {
        let pairs = self.get_pairs();
        let ghost ps = all_pairs(self.ant_view());
        let ghost gv = self.grid_view();
        let n = pairs.len();
        let mut out: Vec<Point> = Vec::new();
        proof {
            lemma_all_pairs_bounded(self.ant_view());
            lemma_all_pairs_distinct(self.ant_view());
        }
        for k in 0..n
            invariant
                n == ps.len(),
                pairs@ == ps,
                gv == self.grid_view(),
                pairs_points_bounded(self.ant_view(), ps),
                pairs_points_distinct(ps),
                self.grid@.len() <= coord_bound(),
                forall|x: int|
                    0 <= x < self.grid@.len() ==> (#[trigger] self.grid@[x])@.len()
                        <= coord_bound(),
                out@.no_duplicates(),
                forall|p: Point|
                    #[trigger] out@.contains(p) <==> exists|k2: int, t: nat|
                        0 <= k2 < k && #[trigger] on_ray_prefix(gv, ps[k2], p, t),
        {
            let (p1, p2) = pairs[k];
            proof {
                assert(ps[k as int] == (p1, p2));
            }
            let off = Point(p1.0 - p2.0, p1.1 - p2.1);
            let mut point = p1;
            let ghost steps: nat = 0;
            let ghost entry = out@;
            while self.get(point).is_some()
                invariant
                    gv == self.grid_view(),
                    self.grid@.len() <= coord_bound(),
                    forall|x: int|
                        0 <= x < self.grid@.len() ==> (#[trigger] self.grid@[x])@.len()
                            <= coord_bound(),
                    0 <= k < ps.len(),
                    ps[k as int] == (p1, p2),
                    pairs_points_bounded(self.ant_view(), ps),
                    pairs_points_distinct(ps),
                    off.0 == p1.0 - p2.0 && off.1 == p1.1 - p2.1,
                    (point.0 as int, point.1 as int) == ray_pt(p1, off, steps),
                    forall|s: nat| s < steps ==> grid_at(gv, (#[trigger] ray_pt(p1, off, s)).0, ray_pt(p1, off, s).1) is Some,
                    -3 * coord_bound() <= point.0 <= 3 * coord_bound(),
                    -3 * coord_bound() <= point.1 <= 3 * coord_bound(),
                    out@.no_duplicates(),
                    forall|p: Point|
                        #[trigger] out@.contains(p) <==> ((exists|k2: int, t: nat|
                            0 <= k2 < k && #[trigger] on_ray_prefix(gv, ps[k2], p, t)) || (
                        exists|t: nat|
                            t < steps && on_ray_prefix(gv, (p1, p2), p, t))),
                decreases (if off.0 > 0 {
                    if point.0 > coord_bound() {
                        0int
                    } else {
                        coord_bound() - point.0
                    }
                } else if off.0 < 0 {
                    if point.0 < -3 * coord_bound() {
                        0int
                    } else {
                        point.0 + 3 * coord_bound()
                    }
                } else if off.1 > 0 {
                    if point.1 > coord_bound() {
                        0int
                    } else {
                        coord_bound() - point.1
                    }
                } else {
                    if point.1 < -3 * coord_bound() {
                        0int
                    } else {
                        point.1 + 3 * coord_bound()
                    }
                }),
            {
                let ghost prev = out@;
                if !contains_point(&out, point) {
                    out.push(point);
                }
                proof {
                    assert(grid_at(gv, ray_pt(p1, off, steps).0, ray_pt(p1, off, steps).1) is Some);
                    assert(on_ray_prefix(gv, (p1, p2), point, steps)) by {
                        assert forall|s: nat| s <= steps implies grid_at(
                            gv,
                            (#[trigger] ray_pt(p1, off, s)).0,
                            ray_pt(p1, off, s).1,
                        ) is Some by {}
                    }
                    assert forall|p: Point| #[trigger] out@.contains(p) implies ((exists|
                        k2: int,
                        t: nat,
                    |
                        0 <= k2 < k && #[trigger] on_ray_prefix(gv, ps[k2], p, t)) || (exists|
                        t: nat,
                    |
                        t < steps + 1 && on_ray_prefix(gv, (p1, p2), p, t))) by {
                        if prev.contains(p) {
                        } else {
                            assert(p == point);
                            assert(on_ray_prefix(gv, (p1, p2), p, steps));
                        }
                    }
                    assert forall|p: Point|
                        ((exists|k2: int, t: nat|
                            0 <= k2 < k && #[trigger] on_ray_prefix(gv, ps[k2], p, t)) || (exists|
                            t: nat,
                        |
                            t < steps + 1 && on_ray_prefix(gv, (p1, p2), p, t))) implies #[trigger] out@.contains(
                        p,
                    ) by {
                        let within = exists|t: nat| t < steps && on_ray_prefix(gv, (p1, p2), p, t);
                        let before = exists|k2: int, t: nat|
                            0 <= k2 < k && #[trigger] on_ray_prefix(gv, ps[k2], p, t);
                        if before || within {
                            assert(prev.contains(p));
                            let q = choose|q: int| 0 <= q < prev.len() && prev[q] == p;
                            assert(out@[q] == p);
                        } else {
                            let t = choose|t: nat|
                                t < steps + 1 && on_ray_prefix(gv, (p1, p2), p, t);
                            assert(t == steps);
                            assert((p.0 as int, p.1 as int) == ray_pt(p1, off, steps));
                            assert(p.0 == point.0 && p.1 == point.1);
                            assert(p == point);
                            assert(out@.contains(point)) by {
                                if prev.contains(point) {
                                    let q = choose|q: int|
                                        0 <= q < prev.len() && prev[q] == point;
                                    assert(out@[q] == point);
                                } else {
                                    assert(out@.last() == point);
                                }
                            }
                        }
                    }
                }
                let nx = point.0 + off.0;
                let ny = point.1 + off.1;
                proof {
                    assert(ray_pt(p1, off, (steps + 1) as nat) == ((point.0 + off.0) as int, (
                    point.1 + off.1) as int));
                    assert(off.0 != 0 || off.1 != 0);
                    assert(0 <= point.0 < coord_bound() && 0 <= point.1 < coord_bound()) by {
                        assert(grid_at(gv, point.0 as int, point.1 as int) is Some);
                        assert(gv[point.0 as int].len() == self.grid@[point.0 as int]@.len());
                    }
                }
                point = Point(nx, ny);
                proof {
                    steps = steps + 1;
                }
            }
            proof {
                assert(grid_at(gv, ray_pt(p1, off, steps).0, ray_pt(p1, off, steps).1) is None);
                assert forall|p: Point| #[trigger] out@.contains(p) <==> exists|k2: int, t: nat|
                    0 <= k2 < k + 1 && #[trigger] on_ray_prefix(gv, ps[k2], p, t) by {
                    if out@.contains(p) {
                        if exists|t: nat| t < steps && on_ray_prefix(gv, (p1, p2), p, t) {
                            let t = choose|t: nat| t < steps && on_ray_prefix(gv, (p1, p2), p, t);
                            assert(on_ray_prefix(gv, ps[k as int], p, t));
                        }
                    }
                    if exists|k2: int, t: nat|
                        0 <= k2 < k + 1 && #[trigger] on_ray_prefix(gv, ps[k2], p, t) {
                        let (k2, t) = choose|k2: int, t: nat|
                            0 <= k2 < k + 1 && #[trigger] on_ray_prefix(gv, ps[k2], p, t);
                        if k2 == k {
                            assert(on_ray_prefix(gv, (p1, p2), p, t));
                            assert(t < steps) by {
                                if t >= steps {
                                    assert(grid_at(
                                        gv,
                                        ray_pt(p1, off, steps).0,
                                        ray_pt(p1, off, steps).1,
                                    ) is Some);
                                }
                            }
                        }
                    }
                }
            }
        }
        out
    }
}

/// `p` is the `t`-th point on the pair's resonant ray, every point up to it
/// on the grid.
pub open spec fn on_ray_prefix(g: Seq<Seq<u8>>, pr: (Point, Point), p: Point, t: nat) -> bool {
    let off = Point((pr.0.0 - pr.1.0) as i32, (pr.0.1 - pr.1.1) as i32);
    &&& (p.0 as int, p.1 as int) == ray_pt(pr.0, off, t)
    &&& forall|s: nat|
        s <= t ==> grid_at(g, (#[trigger] ray_pt(pr.0, off, s)).0, ray_pt(pr.0, off, s).1) is Some
}

/// The `t`-th point from `p` along `off`, in unbounded integers.
pub open spec fn ray_pt(p: Point, off: Point, t: nat) -> (int, int)
    decreases t,
{
    if t == 0 {
        (p.0 as int, p.1 as int)
    } else {
        let prev = ray_pt(p, off, (t - 1) as nat);
        (prev.0 + off.0, prev.1 + off.1)
    }
}

/// Every listed pair has two distinct points.
pub open spec fn pairs_points_distinct(ps: Seq<(Point, Point)>) -> bool {
    forall|k: int| 0 <= k < ps.len() ==> (#[trigger] ps[k]).0 != ps[k].1
}

proof fn lemma_group_pairs_distinct(pts: Seq<Point>, i: int, j: int)
    ensures
        pairs_points_distinct(group_pairs(pts, i, j)),
    decreases pts.len() - i, pts.len() - j,
{
    if i < 0 || j < 0 || i >= pts.len() {
    } else if j >= pts.len() {
        lemma_group_pairs_distinct(pts, i + 1, 0);
        assert forall|k: int| 0 <= k < group_pairs(pts, i, j).len() implies (#[trigger] group_pairs(
            pts,
            i,
            j,
        )[k]).0 != group_pairs(pts, i, j)[k].1 by {
            assert(group_pairs(pts, i, j)[k] == group_pairs(pts, i + 1, 0)[k]);
        }
    } else {
        lemma_group_pairs_distinct(pts, i, j + 1);
        assert forall|k: int| 0 <= k < group_pairs(pts, i, j).len() implies (#[trigger] group_pairs(
            pts,
            i,
            j,
        )[k]).0 != group_pairs(pts, i, j)[k].1 by {
            if pts[i] != pts[j] {
                if k > 0 {
                    assert(group_pairs(pts, i, j)[k] == group_pairs(pts, i, j + 1)[k - 1]);
                }
            } else {
                assert(group_pairs(pts, i, j)[k] == group_pairs(pts, i, j + 1)[k]);
            }
        }
    }
}

proof fn lemma_all_pairs_distinct(ants: Seq<(u8, Seq<Point>)>)
    ensures
        pairs_points_distinct(all_pairs(ants)),
    decreases ants.len(),
{
    if ants.len() > 0 {
        lemma_all_pairs_distinct(ants.skip(1));
        lemma_group_pairs_distinct(ants[0].1, 0, 0);
        assert forall|k: int| 0 <= k < all_pairs(ants).len() implies (#[trigger] all_pairs(ants)[
        k]).0 != all_pairs(ants)[k].1 by {
            let g = group_pairs(ants[0].1, 0, 0);
            if k < g.len() {
                assert(all_pairs(ants)[k] == g[k]);
            } else {
                assert(all_pairs(ants)[k] == all_pairs(ants.skip(1))[k - g.len()]);
            }
        }
    }
}

/// Every point of every listed pair is within the coordinate bound.
pub open spec fn pairs_points_bounded(ants: Seq<(u8, Seq<Point>)>, ps: Seq<(Point, Point)>) -> bool {
    forall|k: int|
        0 <= k < ps.len() ==> {
            let pr = #[trigger] ps[k];
            -coord_bound() <= pr.0.0 <= coord_bound() && -coord_bound() <= pr.0.1 <= coord_bound()
                && -coord_bound() <= pr.1.0 <= coord_bound() && -coord_bound() <= pr.1.1
                <= coord_bound()
        }
}

proof fn lemma_group_pairs_bounded(pts: Seq<Point>, i: int, j: int, bound: int)
    requires
        forall|k: int|
            0 <= k < pts.len() ==> -bound <= (#[trigger] pts[k]).0 <= bound && -bound <= pts[k].1
                <= bound,
    ensures
        forall|k: int|
            0 <= k < group_pairs(pts, i, j).len() ==> {
                let pr = #[trigger] group_pairs(pts, i, j)[k];
                -bound <= pr.0.0 <= bound && -bound <= pr.0.1 <= bound && -bound <= pr.1.0 <= bound
                    && -bound <= pr.1.1 <= bound
            },
    decreases pts.len() - i, pts.len() - j,
{
    if i < 0 || j < 0 || i >= pts.len() {
    } else if j >= pts.len() {
        lemma_group_pairs_bounded(pts, i + 1, 0, bound);
        assert forall|k: int| 0 <= k < group_pairs(pts, i, j).len() implies {
            let pr = #[trigger] group_pairs(pts, i, j)[k];
            -bound <= pr.0.0 <= bound && -bound <= pr.0.1 <= bound && -bound <= pr.1.0 <= bound
                && -bound <= pr.1.1 <= bound
        } by {
            assert(group_pairs(pts, i, j)[k] == group_pairs(pts, i + 1, 0)[k]);
        }
    } else {
        lemma_group_pairs_bounded(pts, i, j + 1, bound);
        if pts[i] == pts[j] {
            assert forall|k: int| 0 <= k < group_pairs(pts, i, j).len() implies {
                let pr = #[trigger] group_pairs(pts, i, j)[k];
                -bound <= pr.0.0 <= bound && -bound <= pr.0.1 <= bound && -bound <= pr.1.0 <= bound
                    && -bound <= pr.1.1 <= bound
            } by {
                assert(group_pairs(pts, i, j)[k] == group_pairs(pts, i, j + 1)[k]);
            }
        }
        if pts[i] != pts[j] {
            assert forall|k: int| 0 <= k < group_pairs(pts, i, j).len() implies {
                let pr = #[trigger] group_pairs(pts, i, j)[k];
                -bound <= pr.0.0 <= bound && -bound <= pr.0.1 <= bound && -bound <= pr.1.0 <= bound
                    && -bound <= pr.1.1 <= bound
            } by {
                if k > 0 {
                    assert(group_pairs(pts, i, j)[k] == group_pairs(pts, i, j + 1)[k - 1]);
                }
            }
        }
    }
}

proof fn lemma_all_pairs_bounded(ants: Seq<(u8, Seq<Point>)>)
    requires
        pts_bounded(ants),
    ensures
        pairs_points_bounded(ants, all_pairs(ants)),
    decreases ants.len(),
{
    if ants.len() > 0 {
        assert(pts_bounded(ants.skip(1))) by {
            assert forall|g: int, k: int|
                0 <= g < ants.skip(1).len() && 0 <= k < ants.skip(1)[g].1.len() implies {
                let p = (#[trigger] ants.skip(1)[g].1[k]);
                -coord_bound() <= p.0 <= coord_bound() && -coord_bound() <= p.1 <= coord_bound()
            } by {
                assert(ants.skip(1)[g] == ants[g + 1]);
                assert(ants[g + 1].1[k] == ants.skip(1)[g].1[k]);
            }
        }
        lemma_all_pairs_bounded(ants.skip(1));
        assert forall|k: int|
            0 <= k < ants[0].1.len() implies -coord_bound() <= (#[trigger] ants[0].1[k]).0
            <= coord_bound() && -coord_bound() <= ants[0].1[k].1 <= coord_bound() by {}
        lemma_group_pairs_bounded(ants[0].1, 0, 0, coord_bound());
    }
}

/// Whether `v` holds `p`.
fn contains_point(v: &Vec<Point>, p: Point) -> (r: bool)
    ensures
        r == v@.contains(p),
{
    let n = v.len();
    for i in 0..n
        invariant
            n == v@.len(),
            forall|j: int| 0 <= j < i ==> v@[j] != p,
    {
        if v[i].0 == p.0 && v[i].1 == p.1 {
            return true;
        }
    }
    false
}

} // verus!
