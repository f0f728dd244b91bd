//! A topographic map of digit heights: a trail starts at height zero and
//! climbs by exactly one per step; the rating of a start point counts the
//! distinct climbing paths that reach height nine.

use vstd::prelude::*;

verus! {

/// The height at mathematical coordinates, `None` off the map.
pub open spec fn height_at(g: Seq<Seq<u32>>, x: int, y: int) -> Option<u32> {
    if 0 <= x < g.len() && 0 <= y < g[x].len() {
        Some(g[x][y])
    } else {
        None
    }
}

/// Every height on the map is a single digit.
pub open spec fn heights_ok(g: Seq<Seq<u32>>) -> bool {
    forall|x: int, y: int|
        0 <= x < g.len() && 0 <= y < g[x].len() ==> (#[trigger] g[x][y]) <= 9
}

/// Map extents this small keep the neighbour arithmetic inside `i32`.
pub open spec fn extent_bound() -> int {
    0x2000_0000
}

/// The number of climbing paths that continue from `(x, y)`, taken to be at
/// height `h`, up to height nine: one when already there, else the paths
/// through each neighbour exactly one higher.
pub open spec fn walks(g: Seq<Seq<u32>>, x: int, y: int, h: nat) -> nat
    decreases 9 - h,
{
    if h >= 9 {
        1
    } else {
        walk_dir(g, x, y + 1, h) + walk_dir(g, x, y - 1, h) + walk_dir(g, x + 1, y, h) + walk_dir(
            g,
            x - 1,
            y,
            h,
        )
    }
}

/// The paths through one neighbour, which contributes only when its height
/// is exactly one more.
pub open spec fn walk_dir(g: Seq<Seq<u32>>, x: int, y: int, h: nat) -> nat
    decreases 9 - h, 1int,
{
    if h < 9 && height_at(g, x, y) == Some((h + 1) as u32) {
        walks(g, x, y, (h + 1) as nat)
    } else {
        0
    }
}

/// Powers of five, the termination budget of one stacked step.
pub open spec fn pow5(e: nat) -> nat
    decreases e,
{
    if e == 0 {
        1
    } else {
        5 * pow5((e - 1) as nat)
    }
}

/// Powers of four, the bound on the number of paths from one step.
pub open spec fn pow4(e: nat) -> nat
    decreases e,
{
    if e == 0 {
        1
    } else {
        4 * pow4((e - 1) as nat)
    }
}

/// At most four neighbours continue each step, so the path count from one
/// step is at most four to the remaining height.
pub proof fn lemma_walks_bound(g: Seq<Seq<u32>>, x: int, y: int, h: nat)
    ensures
        walks(g, x, y, h) <= pow4((if h >= 9 {
            0
        } else {
            9 - h
        }) as nat),
    decreases 9 - h,
{
    if h < 9 {
        if height_at(g, x, y + 1) == Some((h + 1) as u32) {
            lemma_walks_bound(g, x, y + 1, (h + 1) as nat);
        }
        if height_at(g, x, y - 1) == Some((h + 1) as u32) {
            lemma_walks_bound(g, x, y - 1, (h + 1) as nat);
        }
        if height_at(g, x + 1, y) == Some((h + 1) as u32) {
            lemma_walks_bound(g, x + 1, y, (h + 1) as nat);
        }
        if height_at(g, x - 1, y) == Some((h + 1) as u32) {
            lemma_walks_bound(g, x - 1, y, (h + 1) as nat);
        }
        assert(pow4((9 - h) as nat) == 4 * pow4((9 - (h + 1)) as nat));
    }
}

/// The paths still owed by the pending steps, and their termination budget.
pub open spec fn stack_sum(g: Seq<Seq<u32>>, s: Seq<(i32, i32, u32)>) -> nat
    decreases s.len(),
{
    if s.len() == 0 {
        0
    } else {
        stack_sum(g, s.drop_last()) + walks(g, s.last().0 as int, s.last().1 as int, s.last().2 as nat)
    }
}

/// The termination budget of the pending steps: five to the remaining
/// height, summed.
pub open spec fn stack_pot(s: Seq<(i32, i32, u32)>) -> nat
    decreases s.len(),
{
    if s.len() == 0 {
        0
    } else {
        stack_pot(s.drop_last()) + pow5((if s.last().2 >= 9 {
            1
        } else {
            10 - s.last().2
        }) as nat)
    }
}

/// The topographic map and its trail heads, the zero-height points.
pub struct TrailMap {
    pub terrain: Vec<Vec<u32>>,
    pub trail_heads: Vec<(i32, i32)>,
}

impl TrailMap {
    /// The terrain rows, as ghost math.
    pub open spec fn terrain_view(&self) -> Seq<Seq<u32>> {
        self.terrain@.map_values(|r: Vec<u32>| r@)
    }

    /// The height under a point, `None` off the map.
    pub fn get(&self, p: (i32, i32)) -> (r: Option<u32>)
        ensures
            r == height_at(self.terrain_view(), p.0 as int, p.1 as int),
    {
        if p.0 < 0 || p.1 < 0 {
            return None;
        }
        let x = p.0 as usize;
        let y = p.1 as usize;
        if x < self.terrain.len() {
            proof {
                assert(self.terrain_view()[x as int] == self.terrain@[x as int]@);
            }
            if y < self.terrain[x].len() {
                Some(self.terrain[x][y])
            } else {
                None
            }
        } else {
            None
        }
    }

    /// Takes one step into the stack if the neighbour continues the climb.
    fn push_step(&self, stack: &mut Vec<(i32, i32, u32)>, x: i32, y: i32, h: u32, dx: i32, dy: i32)
        requires
            -extent_bound() - 1 <= x + dx <= extent_bound() + 1,
            -extent_bound() - 1 <= y + dy <= extent_bound() + 1,
            h < 9,
        ensures
            final(stack)@ == (if height_at(self.terrain_view(), x + dx, y + dy) == Some(
                (h + 1) as u32,
            ) {
                old(stack)@.push(((x + dx) as i32, (y + dy) as i32, (h + 1) as u32))
            } else {
                old(stack)@
            }),
    {
        let nx = x + dx;
        let ny = y + dy;
        if let Some(next_step) = self.get((nx, ny)) {
            if next_step == h + 1 {
                stack.push((nx, ny, h + 1));
            }
        }
    }

    /// The rating of a start point: how many distinct height-by-height
    /// climbs from it reach height nine, counting the start as height zero.
    pub fn count_trails(&self, p: (i32, i32)) -> (r: u32)
        requires
            heights_ok(self.terrain_view()),
            self.terrain@.len() <= extent_bound(),
            forall|x: int|
                0 <= x < self.terrain@.len() ==> (#[trigger] self.terrain@[x])@.len()
                    <= extent_bound(),
            -extent_bound() <= p.0 <= extent_bound(),
            -extent_bound() <= p.1 <= extent_bound(),
        ensures
            r == walks(self.terrain_view(), p.0 as int, p.1 as int, 0),
    {
        let ghost gv = self.terrain_view();
        let mut stack: Vec<(i32, i32, u32)> = Vec::new();
        let mut count: u32 = 0;
        stack.push((p.0, p.1, 0));
        proof {
            lemma_walks_bound(gv, p.0 as int, p.1 as int, 0);
            assert(stack@.drop_last() =~= Seq::<(i32, i32, u32)>::empty());
            assert(stack_sum(gv, Seq::<(i32, i32, u32)>::empty()) == 0);
            assert(stack@.last() == (p.0, p.1, 0u32));
            assert(stack_sum(gv, stack@) == walks(gv, p.0 as int, p.1 as int, 0));
        }
        while stack.len() > 0
            invariant
                gv == self.terrain_view(),
                heights_ok(gv),
                self.terrain@.len() <= extent_bound(),
                forall|x: int|
                    0 <= x < self.terrain@.len() ==> (#[trigger] self.terrain@[x])@.len()
                        <= extent_bound(),
                count + stack_sum(gv, stack@) == walks(gv, p.0 as int, p.1 as int, 0),
                walks(gv, p.0 as int, p.1 as int, 0) <= pow4(9),
                forall|k: int|
                    0 <= k < stack@.len() ==> {
                        let e = #[trigger] stack@[k];
                        -extent_bound() <= e.0 <= extent_bound() && -extent_bound() <= e.1
                            <= extent_bound() && e.2 <= 9
                    },
            decreases stack_pot(stack@),
        {
            let ghost s0 = stack@;
            let e = stack.pop().unwrap();
            let (x, y, height) = e;
            proof {
                assert(s0.last() == e);
                assert(stack@ =~= s0.drop_last());
                assert(stack_sum(gv, s0) == stack_sum(gv, stack@) + walks(
                    gv,
                    x as int,
                    y as int,
                    height as nat,
                ));
                assert(stack_pot(s0) == stack_pot(stack@) + pow5((if height >= 9 {
                    1
                } else {
                    10 - height
                }) as nat));
            }
            if height == 9 {
                proof {
                    reveal_with_fuel(pow4, 10);
                    assert(pow4(9) == 262144);
                    assert(walks(gv, x as int, y as int, height as nat) == 1);
                    assert(stack_sum(gv, s0) >= 1);
                    assert(count + 1 <= walks(gv, p.0 as int, p.1 as int, 0));
                    assert(count + 1 <= 262144);
                    assert(pow5(0) == 1);
                    assert(pow5(1) == 5);
                }
                count = count + 1;
            } else {
                let ghost mid0 = stack@;
                self.push_step(&mut stack, x, y, height, 0, 1);
                let ghost mid1 = stack@;
                self.push_step(&mut stack, x, y, height, 0, -1);
                let ghost mid2 = stack@;
                self.push_step(&mut stack, x, y, height, 1, 0);
                let ghost mid3 = stack@;
                self.push_step(&mut stack, x, y, height, -1, 0);
                proof {
                    // each accepted neighbour adds exactly its own share of
                    // the owed paths and of the termination budget
                    lemma_push_effects(gv, mid0, mid1, x as int, y as int + 1, height as nat);
                    lemma_push_effects(gv, mid1, mid2, x as int, y as int - 1, height as nat);
                    lemma_push_effects(gv, mid2, mid3, x as int + 1, y as int, height as nat);
                    lemma_push_effects(gv, mid3, stack@, x as int - 1, y as int, height as nat);
                    assert(walks(gv, x as int, y as int, height as nat) == walk_dir(
                        gv,
                        x as int,
                        y as int + 1,
                        height as nat,
                    ) + walk_dir(gv, x as int, y as int - 1, height as nat) + walk_dir(
                        gv,
                        x as int + 1,
                        y as int,
                        height as nat,
                    ) + walk_dir(gv, x as int - 1, y as int, height as nat));
                    assert(pow5((10 - height) as nat) == 5 * pow5((9 - height) as nat));
                    assert(pow5((9 - height) as nat) >= 1) by {
                        lemma_pow5_pos((9 - height) as nat);
                    }
                }
            }
        }
        proof {
            assert(stack_sum(gv, stack@) == 0);
        }
        count
    }
}

/// One conditional push adds the neighbour's share of owed paths, and less
/// than one fifth of the popped step's termination budget; any entry it adds
/// lies on the map.
proof fn lemma_push_effects(
    g: Seq<Seq<u32>>,
    before: Seq<(i32, i32, u32)>,
    after: Seq<(i32, i32, u32)>,
    nx: int,
    ny: int,
    h: nat,
)
    requires
        h < 9,
        g.len() <= extent_bound(),
        forall|x: int| 0 <= x < g.len() ==> (#[trigger] g[x]).len() <= extent_bound(),
        after == (if height_at(g, nx, ny) == Some((h + 1) as u32) {
            before.push((nx as i32, ny as i32, (h + 1) as u32))
        } else {
            before
        }),
        -extent_bound() - 1 <= nx <= extent_bound() + 1,
        -extent_bound() - 1 <= ny <= extent_bound() + 1,
        forall|k: int|
            0 <= k < before.len() ==> {
                let e = #[trigger] before[k];
                -extent_bound() <= e.0 <= extent_bound() && -extent_bound() <= e.1
                    <= extent_bound() && e.2 <= 9
            },
    ensures
        stack_sum(g, after) == stack_sum(g, before) + walk_dir(g, nx, ny, h),
        stack_pot(after) <= stack_pot(before) + pow5((9 - h) as nat),
        forall|k: int|
            0 <= k < after.len() ==> {
                let e = #[trigger] after[k];
                -extent_bound() <= e.0 <= extent_bound() && -extent_bound() <= e.1
                    <= extent_bound() && e.2 <= 9
            },
{
    if height_at(g, nx, ny) == Some((h + 1) as u32) {
        assert(after.drop_last() =~= before);
        assert(after.last() == (nx as i32, ny as i32, (h + 1) as u32));
        assert(walk_dir(g, nx, ny, h) == walks(g, nx, ny, (h + 1) as nat));
        assert(0 <= nx < g.len() && 0 <= ny < g[nx].len());
        assert(stack_pot(after) == stack_pot(before) + pow5((if (h + 1) as u32 >= 9 {
            1
        } else {
            10 - ((h + 1) as u32)
        }) as nat));
        if h + 1 >= 9 {
            assert(pow5(1) <= pow5((9 - h) as nat));
        } else {
            assert(pow5((10 - (h + 1)) as nat) == pow5((9 - h) as nat));
        }
        assert forall|k: int| 0 <= k < after.len() implies {
            let e = #[trigger] after[k];
            -extent_bound() <= e.0 <= extent_bound() && -extent_bound() <= e.1 <= extent_bound()
                && e.2 <= 9
        } by {
            if k < before.len() {
                assert(after[k] == before[k]);
            }
        }
    }
}

proof fn lemma_pow5_pos(e: nat)
    ensures
        pow5(e) >= 1,
    decreases e,
{
    if e > 0 {
        lemma_pow5_pos((e - 1) as nat);
    }
}


/// A climb from the start reaches `(qx, qy)` at height `h`: the start itself
/// at height zero, else a cell of exactly height `h` next to a cell reached
/// at height `h - 1`.
pub open spec fn can_reach(g: Seq<Seq<u32>>, sx: int, sy: int, qx: int, qy: int, h: nat) -> bool
    decreases h,
{
    if h == 0 {
        qx == sx && qy == sy
    } else {
        height_at(g, qx, qy) == Some(h as u32) && (can_reach(g, sx, sy, qx, qy - 1, (h - 1) as nat)
            || can_reach(g, sx, sy, qx, qy + 1, (h - 1) as nat) || can_reach(
            g,
            sx,
            sy,
            qx - 1,
            qy,
            (h - 1) as nat,
        ) || can_reach(g, sx, sy, qx + 1, qy, (h - 1) as nat))
    }
}

/// The distinct height-nine cells a climb from the start can reach.
pub open spec fn summit_set(g: Seq<Seq<u32>>, sx: int, sy: int) -> Set<(int, int)> {
    Set::new(|q: (int, int)| can_reach(g, sx, sy, q.0, q.1, 9))
}

/// Whether `v` holds the point.
fn contains_pt(v: &Vec<(i32, i32)>, p: (i32, i32)) -> (r: bool)
    ensures
        r == v@.contains(p),
{
    let n = v.len();
    for i in 0..n
        invariant
            n == v@.len(),
            forall|j: int| 0 <= j < i ==> v@[j] != p,
    {
        if v[i].0 == p.0 && v[i].1 == p.1 {
            return true;
        }
    }
    false
}

/// Two points adjacent by one unit step.
pub open spec fn adjacent(fr: (i32, i32), qx: int, qy: int) -> bool {
    (fr.0 == qx && (fr.1 == qy - 1 || fr.1 == qy + 1)) || (fr.1 == qy && (fr.0 == qx - 1 || fr.0
        == qx + 1))
}

/// Every point the list holds is reached at this height, within bounds.
pub open spec fn level_sound(
    g: Seq<Seq<u32>>,
    sx: int,
    sy: int,
    f: Seq<(i32, i32)>,
    h: nat,
) -> bool {
    forall|q: (i32, i32)|
        #[trigger] f.contains(q) ==> can_reach(g, sx, sy, q.0 as int, q.1 as int, h)
            && -extent_bound() <= q.0 <= extent_bound() && -extent_bound() <= q.1 <= extent_bound()
}

/// Every point reached at this height is on the list.
pub open spec fn level_complete(
    g: Seq<Seq<u32>>,
    sx: int,
    sy: int,
    f: Seq<(i32, i32)>,
    h: nat,
) -> bool {
    forall|qx: int, qy: int|
        #[trigger] can_reach(g, sx, sy, qx, qy, h) ==> i32::MIN <= qx <= i32::MAX && i32::MIN <= qy
            <= i32::MAX && f.contains(((qx as i32, qy as i32)))
}

/// Every point of the next height adjacent to a swept frontier entry is on
/// the next list already.
pub open spec fn swept(
    g: Seq<Seq<u32>>,
    sx: int,
    sy: int,
    f: Seq<(i32, i32)>,
    nxt: Seq<(i32, i32)>,
    h1: nat,
    i: int,
) -> bool {
    forall|qx: int, qy: int|
        (#[trigger] can_reach(g, sx, sy, qx, qy, h1) && (exists|k: int|
            0 <= k < i && adjacent(#[trigger] f[k], qx, qy))) ==> i32::MIN <= qx <= i32::MAX
            && i32::MIN <= qy <= i32::MAX && nxt.contains(((qx as i32, qy as i32)))
}

impl TrailMap {
    /// The number of distinct summits — height-nine cells — that climbs from
    /// the start can reach, each counted once however many paths lead there.
    pub fn count_summits(&self, p: (i32, i32)) -> (r: u32)
        requires
            self.terrain@.len() <= extent_bound(),
            forall|x: int|
                0 <= x < self.terrain@.len() ==> (#[trigger] self.terrain@[x])@.len()
                    <= extent_bound(),
            -extent_bound() <= p.0 <= extent_bound(),
            -extent_bound() <= p.1 <= extent_bound(),
            summit_set(self.terrain_view(), p.0 as int, p.1 as int).len() <= u32::MAX,
        ensures
            r == summit_set(self.terrain_view(), p.0 as int, p.1 as int).len(),
    {
        let ghost gv = self.terrain_view();
        let ghost sx = p.0 as int;
        let ghost sy = p.1 as int;
        let mut frontier: Vec<(i32, i32)> = Vec::new();
        frontier.push(p);
        proof {
            assert(frontier@[0] == p);
            assert(level_sound(gv, sx, sy, frontier@, 0)) by {
                assert forall|q: (i32, i32)| #[trigger] frontier@.contains(q) implies can_reach(
                    gv,
                    sx,
                    sy,
                    q.0 as int,
                    q.1 as int,
                    0,
                ) && -extent_bound() <= q.0 <= extent_bound() && -extent_bound() <= q.1
                    <= extent_bound() by {
                    let k = choose|k: int| 0 <= k < frontier@.len() && frontier@[k] == q;
                    assert(q == p);
                }
            }
            assert(level_complete(gv, sx, sy, frontier@, 0)) by {
                assert forall|qx: int, qy: int| #[trigger] can_reach(gv, sx, sy, qx, qy, 0) implies
                    i32::MIN <= qx <= i32::MAX && i32::MIN <= qy <= i32::MAX && frontier@.contains(
                    ((qx as i32, qy as i32)),
                ) by {
                    assert(qx == sx && qy == sy);
                    assert(((qx as i32, qy as i32)) == p);
                    assert(frontier@[0] == p);
                }
            }
        }
        for h in 0..9u32
            invariant
                gv == self.terrain_view(),
                self.terrain@.len() <= extent_bound(),
                forall|x: int|
                    0 <= x < self.terrain@.len() ==> (#[trigger] self.terrain@[x])@.len()
                        <= extent_bound(),
                sx == p.0 as int && sy == p.1 as int,
                frontier@.no_duplicates(),
                level_sound(gv, sx, sy, frontier@, h as nat),
                level_complete(gv, sx, sy, frontier@, h as nat),
        {
            let m = frontier.len();
            let mut next: Vec<(i32, i32)> = Vec::new();
            for i in 0..m
                invariant
                    gv == self.terrain_view(),
                    self.terrain@.len() <= extent_bound(),
                    forall|x: int|
                        0 <= x < self.terrain@.len() ==> (#[trigger] self.terrain@[x])@.len()
                            <= extent_bound(),
                    h < 9,
                    m == frontier@.len(),
                    frontier@.no_duplicates(),
                    level_sound(gv, sx, sy, frontier@, h as nat),
                    level_complete(gv, sx, sy, frontier@, h as nat),
                    next@.no_duplicates(),
                    level_sound(gv, sx, sy, next@, (h + 1) as nat),
                    swept(gv, sx, sy, frontier@, next@, (h + 1) as nat, i as int),
            {
                let fr = frontier[i];
                proof {
                    assert(frontier@.contains(frontier@[i as int]));
                    assert(level_sound(gv, sx, sy, frontier@, h as nat));
                }
                let cands = [
                    (fr.0, fr.1 + 1),
                    (fr.0, fr.1 - 1),
                    (fr.0 + 1, fr.1),
                    (fr.0 - 1, fr.1),
                ];
                for ci in 0..4usize
                    invariant
                        gv == self.terrain_view(),
                        self.terrain@.len() <= extent_bound(),
                        forall|x: int|
                            0 <= x < self.terrain@.len() ==> (#[trigger] self.terrain@[x])@.len()
                                <= extent_bound(),
                        h < 9,
                        m == frontier@.len(),
                        0 <= i < m,
                        fr == frontier@[i as int],
                        frontier@.no_duplicates(),
                        level_sound(gv, sx, sy, frontier@, h as nat),
                        level_complete(gv, sx, sy, frontier@, h as nat),
                        cands@.len() == 4,
                        cands@[0].0 == fr.0 && cands@[0].1 == fr.1 + 1,
                        cands@[1].0 == fr.0 && cands@[1].1 == fr.1 - 1,
                        cands@[2].0 == fr.0 + 1 && cands@[2].1 == fr.1,
                        cands@[3].0 == fr.0 - 1 && cands@[3].1 == fr.1,
                        next@.no_duplicates(),
                        level_sound(gv, sx, sy, next@, (h + 1) as nat),
                        swept(gv, sx, sy, frontier@, next@, (h + 1) as nat, i as int),
                        forall|j: int|
                            0 <= j < ci ==> {
                                let cd = #[trigger] cands@[j];
                                (height_at(gv, cd.0 as int, cd.1 as int) == Some((h + 1) as u32))
                                    ==> next@.contains(cd)
                            },
                {
                    let cand = cands[ci];
                    if self.get(cand) == Some(h + 1) {
                        if !contains_pt(&next, cand) {
                            let ghost nprev = next@;
                            next.push(cand);
                            proof {
                                assert(next@.drop_last() =~= nprev);
                                assert(next@.last() == cand);
                                assert(frontier@.contains(fr)) by {
                                    assert(frontier@[i as int] == fr);
                                }
                                assert(can_reach(
                                    gv,
                                    sx,
                                    sy,
                                    cand.0 as int,
                                    cand.1 as int,
                                    (h + 1) as nat,
                                )) by {
                                    assert(can_reach(gv, sx, sy, fr.0 as int, fr.1 as int, h as nat));
                                }
                                assert(level_sound(gv, sx, sy, next@, (h + 1) as nat)) by {
                                    assert forall|q: (i32, i32)| #[trigger] next@.contains(
                                        q,
                                    ) implies can_reach(gv, sx, sy, q.0 as int, q.1 as int, (h
                                        + 1) as nat) && -extent_bound() <= q.0 <= extent_bound()
                                        && -extent_bound() <= q.1 <= extent_bound() by {
                                        if nprev.contains(q) {
                                        } else {
                                            let k = choose|k: int|
                                                0 <= k < next@.len() && next@[k] == q;
                                            if k < nprev.len() {
                                                assert(nprev[k] == q);
                                            }
                                            assert(q == cand);
                                        }
                                    }
                                }
                                assert(swept(
                                    gv,
                                    sx,
                                    sy,
                                    frontier@,
                                    next@,
                                    (h + 1) as nat,
                                    i as int,
                                )) by {
                                    assert forall|qx: int, qy: int|
                                        (#[trigger] can_reach(gv, sx, sy, qx, qy, (h + 1) as nat)
                                            && (exists|k: int|
                                            0 <= k < i && adjacent(
                                                #[trigger] frontier@[k],
                                                qx,
                                                qy,
                                            ))) implies i32::MIN <= qx <= i32::MAX && i32::MIN
                                        <= qy <= i32::MAX && next@.contains(
                                        ((qx as i32, qy as i32)),
                                    ) by {
                                        assert(nprev.contains(((qx as i32, qy as i32))));
                                        let k2 = choose|k2: int|
                                            0 <= k2 < nprev.len() && nprev[k2] == ((qx as i32,
                                            qy as i32));
                                        assert(next@[k2] == ((qx as i32, qy as i32)));
                                    }
                                }
                            }
                        }
                    }
                }
                proof {
                    // every next-level point adjacent to this frontier entry
                    // is present now
                    assert(swept(gv, sx, sy, frontier@, next@, (h + 1) as nat, i + 1)) by {
                        assert forall|qx: int, qy: int|
                            (#[trigger] can_reach(gv, sx, sy, qx, qy, (h + 1) as nat) && (exists|
                                k: int,
                            |
                                0 <= k < i + 1 && adjacent(
                                    #[trigger] frontier@[k],
                                    qx,
                                    qy,
                                ))) implies i32::MIN <= qx <= i32::MAX && i32::MIN <= qy
                            <= i32::MAX && next@.contains(((qx as i32, qy as i32))) by {
                            let k = choose|k: int|
                                0 <= k < i + 1 && adjacent(#[trigger] frontier@[k], qx, qy);
                            if k == i {
                                assert(height_at(gv, qx, qy) == Some((h + 1) as u32));
                                assert(0 <= qx < gv.len() && 0 <= qy < gv[qx].len());
                                assert(gv[qx].len() == self.terrain@[qx]@.len());
                                let cd = ((qx as i32, qy as i32));
                                assert(cands@.contains(cd) && (exists|j: int|
                                    0 <= j < cands@.len() && #[trigger] cands@[j] == cd)) by {
                                    if fr.0 == qx && fr.1 == qy - 1 {
                                        assert(cands@[0] == cd);
                                    } else if fr.0 == qx && fr.1 == qy + 1 {
                                        assert(cands@[1] == cd);
                                    } else if fr.1 == qy && fr.0 == qx - 1 {
                                        assert(cands@[2] == cd);
                                    } else {
                                        assert(cands@[3] == cd);
                                    }
                                }
                                let j = choose|j: int|
                                    0 <= j < cands@.len() && #[trigger] cands@[j] == cd;
                                assert(next@.contains(cd));
                            }
                        }
                    }
                }
            }
            proof {
                // the next level is exactly the points reached one higher
                assert(level_complete(gv, sx, sy, next@, (h + 1) as nat)) by {
                    assert forall|qx: int, qy: int|
                        #[trigger] can_reach(gv, sx, sy, qx, qy, (h + 1) as nat) implies i32::MIN
                        <= qx <= i32::MAX && i32::MIN <= qy <= i32::MAX && next@.contains(
                        ((qx as i32, qy as i32)),
                    ) by {
                        if can_reach(gv, sx, sy, qx, qy - 1, h as nat) {
                            let fp = ((qx as i32, (qy - 1) as i32));
                            assert(frontier@.contains(fp));
                            let k = choose|k: int| 0 <= k < frontier@.len() && frontier@[k] == fp;
                            assert(adjacent(frontier@[k], qx, qy));
                        } else if can_reach(gv, sx, sy, qx, qy + 1, h as nat) {
                            let fp = ((qx as i32, (qy + 1) as i32));
                            assert(frontier@.contains(fp));
                            let k = choose|k: int| 0 <= k < frontier@.len() && frontier@[k] == fp;
                            assert(adjacent(frontier@[k], qx, qy));
                        } else if can_reach(gv, sx, sy, qx - 1, qy, h as nat) {
                            let fp = (((qx - 1) as i32, qy as i32));
                            assert(frontier@.contains(fp));
                            let k = choose|k: int| 0 <= k < frontier@.len() && frontier@[k] == fp;
                            assert(adjacent(frontier@[k], qx, qy));
                        } else {
                            assert(can_reach(gv, sx, sy, qx + 1, qy, h as nat));
                            let fp = (((qx + 1) as i32, qy as i32));
                            assert(frontier@.contains(fp));
                            let k = choose|k: int| 0 <= k < frontier@.len() && frontier@[k] == fp;
                            assert(adjacent(frontier@[k], qx, qy));
                        }
                    }
                }
            }
            frontier = next;
        }
        proof {
            // the ninth frontier enumerates the summit set without repeats
            let mapped = frontier@.map_values(|q: (i32, i32)| (q.0 as int, q.1 as int));
            assert(mapped.no_duplicates()) by {
                frontier@.lemma_no_duplicates_injective(|q: (i32, i32)| (q.0 as int, q.1 as int));
            }
            assert(mapped.to_set() =~= summit_set(gv, sx, sy)) by {
                assert forall|qi: (int, int)| #[trigger] mapped.to_set().contains(qi) implies
                    summit_set(gv, sx, sy).contains(qi) by {
                    let k = choose|k: int| 0 <= k < mapped.len() && mapped[k] == qi;
                    assert(frontier@.contains(frontier@[k]));
                    assert(level_sound(gv, sx, sy, frontier@, 9));
                }
                assert forall|qi: (int, int)| #[trigger] summit_set(gv, sx, sy).contains(
                    qi,
                ) implies mapped.to_set().contains(qi) by {
                    assert(can_reach(gv, sx, sy, qi.0, qi.1, 9));
                    assert(level_complete(gv, sx, sy, frontier@, 9));
                    assert(frontier@.contains(((qi.0 as i32, qi.1 as i32))));
                    let k = choose|k: int|
                        0 <= k < frontier@.len() && frontier@[k] == ((qi.0 as i32, qi.1 as i32));
                    assert(mapped[k] == qi);
                }
            }
            mapped.unique_seq_to_set();
            assert(frontier@.len() == summit_set(gv, sx, sy).len());
        }
        frontier.len() as u32
    }
}

} // verus!
