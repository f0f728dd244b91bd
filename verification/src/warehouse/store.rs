//! The grid store: a mapping from coordinate to cell content.
//!
//! Absent coordinates are empty floor, so lookups are bounds-free: probing
//! off the recorded terrain simply answers "empty". The store is a vector of
//! key/value pairs with distinct keys, viewed in specifications as a
//! [`Map`] from [`Pos`] to the content type.

use vstd::prelude::*;

use crate::warehouse::cell::Pos;
use crate::warehouse::cell::as_pos;
use crate::warehouse::cell::in_i64;

verus! {

/// The contents of the cell at mathematical coordinate `c`: `None` is empty
/// floor, and a coordinate outside the machine range holds nothing.
pub open spec fn cell_of<T>(m: Map<Pos, T>, c: (int, int)) -> Option<T> {
    if in_i64(c) && m.dom().contains(as_pos(c)) {
        Some(m[as_pos(c)])
    } else {
        None
    }
}

/// One step from `c` in direction `d`, in unbounded integers.
pub open spec fn step_c(c: (int, int), d: Pos) -> (int, int) {
    (c.0 + d.x, c.1 + d.y)
}

/// `n` steps from `c` in direction `d`.
pub open spec fn walk_c(c: (int, int), d: Pos, n: nat) -> (int, int)
    decreases n,
{
    if n == 0 {
        c
    } else {
        walk_c(step_c(c, d), d, (n - 1) as nat)
    }
}

/// The coordinate of `p`, as unbounded integers.
pub open spec fn coords(p: Pos) -> (int, int) {
    (p.x as int, p.y as int)
}

/// How many bound coordinates of `m` lie on the ray from `c` along `d`.
/// This bounds the length of any chain of occupied cells ahead of `c`, so it
/// serves as the termination measure of the push probes.
pub open spec fn ray_keys<T>(m: Map<Pos, T>, c: (int, int), d: Pos) -> Set<Pos> {
    m.dom().filter(|q: Pos| exists|k: nat| coords(q) == walk_c(c, d, k))
}

/// Every bound coordinate of `m` lies within `bound` of the origin on both
/// axes.
pub open spec fn dom_bounded<T>(m: Map<Pos, T>, bound: int) -> bool {
    forall|q: Pos|
        #[trigger] m.dom().contains(q) ==> -bound <= q.x <= bound && -bound <= q.y <= bound
}

/// How many distinct keys of `m` hold the value `v`.
pub open spec fn count_val<T>(m: Map<Pos, T>, v: T) -> nat {
    m.dom().filter(|q: Pos| m[q] == v).len()
}

/// The sum of `f` over the bindings of a finite map, one binding at a time.
pub open spec fn sum_map<T>(m: Map<Pos, T>, f: spec_fn(Pos, T) -> int) -> int
    decreases m.dom().len()
        when m.dom().finite()
{
    if m.dom().len() == 0 {
        0
    } else {
        let k = m.dom().choose();
        f(k, m[k]) + sum_map(m.remove(k), f)
    }
}

/// Any binding can be split off the sum first.
pub proof fn lemma_sum_map_remove<T>(m: Map<Pos, T>, f: spec_fn(Pos, T) -> int, k: Pos)
    requires
        m.dom().finite(),
        m.dom().contains(k),
    ensures
        sum_map(m, f) == f(k, m[k]) + sum_map(m.remove(k), f),
    decreases m.dom().len(),
{
    let c = m.dom().choose();
    assert(m.dom().len() > 0) by {
        if m.dom().len() == 0 {
            assert(m.dom() =~= Set::empty());
        }
    }
    assert(m.dom().contains(c));
    if c == k {
    } else {
        lemma_sum_map_remove(m.remove(c), f, k);
        lemma_sum_map_remove(m.remove(k), f, c);
        assert(m.remove(c).remove(k) =~= m.remove(k).remove(c));
        assert(m.remove(k)[c] == m[c] && m.remove(c)[k] == m[k]);
    }
}

/// The finite map denoted by a sequence of key/value pairs; later pairs win.
pub open spec fn entries_map<T>(s: Seq<(Pos, T)>) -> Map<Pos, T>
    decreases s.len(),
{
    if s.len() == 0 {
        Map::empty()
    } else {
        entries_map(s.drop_last()).insert(s.last().0, s.last().1)
    }
}

/// No two pairs of `s` share a key.
pub open spec fn distinct_keys<T>(s: Seq<(Pos, T)>) -> bool {
    forall|i: int, j: int| 0 <= i < j < s.len() ==> (#[trigger] s[i]).0 != (#[trigger] s[j]).0
}

proof fn lemma_entries_map_domain<T>(s: Seq<(Pos, T)>, k: Pos)
    ensures
        entries_map(s).dom().contains(k) <==> exists|i: int| 0 <= i < s.len() && (#[trigger] s[i]).0 == k,
    decreases s.len(),
{
    if s.len() > 0 {
        lemma_entries_map_domain(s.drop_last(), k);
        if s.last().0 == k {
            assert((s[s.len() - 1]).0 == k);
        } else if entries_map(s.drop_last()).dom().contains(k) {
            let i = choose|i: int| 0 <= i < s.drop_last().len() && (#[trigger] s.drop_last()[i]).0 == k;
            assert((s[i]).0 == k);
        }
        if exists|i: int| 0 <= i < s.len() && (#[trigger] s[i]).0 == k {
            let i = choose|i: int| 0 <= i < s.len() && (#[trigger] s[i]).0 == k;
            if i < s.len() - 1 {
                assert((s.drop_last()[i]).0 == k);
            }
        }
    }
}

proof fn lemma_entries_map_index<T>(s: Seq<(Pos, T)>, i: int)
    requires
        distinct_keys(s),
        0 <= i < s.len(),
    ensures
        entries_map(s).dom().contains(s[i].0),
        entries_map(s)[s[i].0] == s[i].1,
    decreases s.len(),
{
    if i == s.len() - 1 {
        lemma_entries_map_domain(s, s[i].0);
    } else {
        lemma_entries_map_index(s.drop_last(), i);
        assert(s.drop_last()[i] == s[i]);
        assert(s.last().0 != s[i].0);
    }
}

proof fn lemma_entries_map_absent<T>(s: Seq<(Pos, T)>, k: Pos)
    requires
        forall|i: int| 0 <= i < s.len() ==> (#[trigger] s[i]).0 != k,
    ensures
        !entries_map(s).dom().contains(k),
{
    lemma_entries_map_domain(s, k);
}

proof fn lemma_entries_map_update<T>(s: Seq<(Pos, T)>, i: int, v: T)
    requires
        distinct_keys(s),
        0 <= i < s.len(),
    ensures
        entries_map(s.update(i, (s[i].0, v))) =~= entries_map(s).insert(s[i].0, v),
    decreases s.len(),
{
    let t = s.update(i, (s[i].0, v));
    if i == s.len() - 1 {
        assert(t.drop_last() =~= s.drop_last());
        assert(t.last() == (s[i].0, v));
    } else {
        lemma_entries_map_update(s.drop_last(), i, v);
        assert(t.drop_last() =~= s.drop_last().update(i, (s[i].0, v)));
        assert(t.last() == s.last());
        assert(s.last().0 != s[i].0);
        assert(entries_map(t) =~= entries_map(s).insert(s[i].0, v));
    }
}

proof fn lemma_entries_map_remove<T>(s: Seq<(Pos, T)>, i: int)
    requires
        distinct_keys(s),
        0 <= i < s.len(),
    ensures
        entries_map(s.remove(i)) =~= entries_map(s).remove(s[i].0),
    decreases s.len(),
{
    if i == s.len() - 1 {
        assert(s.remove(i) =~= s.drop_last());
        lemma_entries_map_absent(s.drop_last(), s[i].0);
        assert(entries_map(s.drop_last()).remove(s[i].0) =~= entries_map(s.drop_last()));
    } else {
        lemma_entries_map_remove(s.drop_last(), i);
        assert(s.remove(i).drop_last() =~= s.drop_last().remove(i));
        assert(s.remove(i).last() == s.last());
        assert(s.last().0 != s[i].0);
        assert(entries_map(s.remove(i)) =~= entries_map(s).remove(s[i].0));
    }
}

proof fn lemma_entries_map_len<T>(s: Seq<(Pos, T)>)
    requires
        distinct_keys(s),
    ensures
        entries_map(s).dom().len() == s.len(),
        entries_map(s).dom().finite(),
    decreases s.len(),
{
    if s.len() > 0 {
        lemma_entries_map_len(s.drop_last());
        lemma_entries_map_absent(s.drop_last(), s.last().0);
    }
}

/// Along a unit direction, a walk moves one coordinate linearly and leaves
/// the other unchanged.
pub proof fn lemma_walk_c_line(c: (int, int), d: Pos, k: nat)
    requires
        crate::warehouse::cell::is_unit(d),
    ensures
        d == crate::warehouse::cell::spec_right() ==> walk_c(c, d, k) == ((c.0, c.1 + k)),
        d == crate::warehouse::cell::spec_left() ==> walk_c(c, d, k) == ((c.0, c.1 - k)),
        d == crate::warehouse::cell::spec_down() ==> walk_c(c, d, k) == ((c.0 + k, c.1)),
        d == crate::warehouse::cell::spec_up() ==> walk_c(c, d, k) == ((c.0 - k, c.1)),
    decreases k,
{
    if k > 0 {
        lemma_walk_c_line(step_c(c, d), d, (k - 1) as nat);
    }
}

/// A walk of `k + 1` steps is a walk of `k` steps and one more.
pub proof fn lemma_walk_c_snoc(c: (int, int), d: Pos, k: nat)
    ensures
        walk_c(c, d, (k + 1) as nat) == step_c(walk_c(c, d, k), d),
    decreases k,
{
    assert(walk_c(c, d, (k + 1) as nat) == walk_c(step_c(c, d), d, k));
    if k > 0 {
        lemma_walk_c_snoc(step_c(c, d), d, (k - 1) as nat);
        assert(walk_c(c, d, k) == walk_c(step_c(c, d), d, (k - 1) as nat));
    } else {
        assert(walk_c(step_c(c, d), d, 0) == step_c(c, d));
    }
}

/// Stepping the start of a ray forward drops exactly its first cell, so the
/// number of bound coordinates on the ray strictly shrinks when the first
/// cell is bound.
pub proof fn lemma_ray_keys_shrink<T>(m: Map<Pos, T>, c: (int, int), d: Pos)
    requires
        crate::warehouse::cell::is_unit(d),
        in_i64(c),
        m.dom().contains(as_pos(c)),
        m.dom().finite(),
    ensures
        ray_keys(m, step_c(c, d), d).len() < ray_keys(m, c, d).len(),
{
    let p = as_pos(c);
    let from_c = ray_keys(m, c, d);
    let from_next = ray_keys(m, step_c(c, d), d);
    assert forall|q: Pos| from_next.contains(q) implies from_c.contains(q) && q != p by {
        let k = choose|k: nat| coords(q) == walk_c(step_c(c, d), d, k);
        assert(walk_c(c, d, (k + 1) as nat) == walk_c(step_c(c, d), d, k));
        assert(coords(q) == walk_c(c, d, (k + 1) as nat));
        lemma_walk_c_line(c, d, (k + 1) as nat);
        assert(coords(q) != c);
    }
    assert forall|q: Pos| from_c.contains(q) && q != p implies from_next.contains(q) by {
        let k = choose|k: nat| coords(q) == walk_c(c, d, k);
        if k == 0 {
            assert(coords(q) == c);
            assert(q == p);
        } else {
            assert(walk_c(c, d, k) == walk_c(step_c(c, d), d, (k - 1) as nat));
        }
    }
    assert(from_c.contains(p)) by {
        assert(coords(p) == walk_c(c, d, 0));
    }
    assert(from_next =~= from_c.remove(p));
    m.dom().lemma_len_filter(|q: Pos| exists|k: nat| coords(q) == walk_c(c, d, k));
}

/// Binding a fresh coordinate raises by one the count of the value bound and
/// leaves every other count alone.
pub proof fn lemma_count_insert_fresh<T>(m: Map<Pos, T>, p: Pos, v: T, w: T)
    requires
        !m.dom().contains(p),
        m.dom().finite(),
    ensures
        v == w ==> count_val(m.insert(p, v), w) == count_val(m, w) + 1,
        v != w ==> count_val(m.insert(p, v), w) == count_val(m, w),
{
    let m2 = m.insert(p, v);
    let a = m.dom().filter(|q: Pos| m[q] == w);
    let b = m2.dom().filter(|q: Pos| m2[q] == w);
    m.dom().lemma_len_filter(|q: Pos| m[q] == w);
    if v == w {
        assert(b =~= a.insert(p));
    } else {
        assert(b =~= a);
    }
}

/// Unbinding a coordinate lowers by one the count of the value it held and
/// leaves every other count alone.
pub proof fn lemma_count_remove<T>(m: Map<Pos, T>, p: Pos, w: T)
    requires
        m.dom().contains(p),
        m.dom().finite(),
    ensures
        m[p] == w ==> count_val(m.remove(p), w) == count_val(m, w) - 1,
        m[p] != w ==> count_val(m.remove(p), w) == count_val(m, w),
{
    let m2 = m.remove(p);
    let a = m.dom().filter(|q: Pos| m[q] == w);
    let b = m2.dom().filter(|q: Pos| m2[q] == w);
    m.dom().lemma_len_filter(|q: Pos| m[q] == w);
    if m[p] == w {
        assert(a.contains(p));
        assert(b =~= a.remove(p));
    } else {
        assert(b =~= a);
    }
}

/// The store itself: distinct-key pairs, seen as a `Map<Pos, T>`.
pub struct CellGrid<T> {
    entries: Vec<(Pos, T)>,
}

impl<T> View for CellGrid<T> {
    type V = Map<Pos, T>;

    closed spec fn view(&self) -> Map<Pos, T> {
        entries_map(self.entries@)
    }
}

impl<T: Copy> CellGrid<T> {
    /// The representation keeps one pair per coordinate.
    pub closed spec fn wf(&self) -> bool {
        distinct_keys(self.entries@)
    }

    /// The pairs held, exposed for iteration; their map is the view.
    pub closed spec fn pairs(&self) -> Seq<(Pos, T)> {
        self.entries@
    }

    pub fn new() -> (g: Self)
        ensures
            g.wf(),
            g@ =~= Map::<Pos, T>::empty(),
            g.pairs() =~= Seq::<(Pos, T)>::empty(),
    {
        CellGrid { entries: Vec::new() }
    }

    pub fn len(&self) -> (n: usize)
        requires
            self.wf(),
        ensures
            n == self.pairs().len(),
            n == self@.dom().len(),
    {
        proof {
            lemma_entries_map_len(self.entries@);
        }
        self.entries.len()
    }

    /// How many pairs the store holds, as ghost math.
    pub closed spec fn spec_len(&self) -> nat {
        self.entries@.len()
    }

    /// Every pair agrees with the map view.
    pub proof fn lemma_pairs(&self)
        requires
            self.wf(),
        ensures
            forall|i: int|
                0 <= i < self.pairs().len() ==> self@.dom().contains((#[trigger] self.pairs()[i]).0)
                    && self@[self.pairs()[i].0] == self.pairs()[i].1,
            self@.dom().len() == self.pairs().len(),
            self@.dom().finite(),
            distinct_keys(self.pairs()),
            forall|p: Pos|
                #[trigger] self@.dom().contains(p) ==> exists|i: int|
                    0 <= i < self.pairs().len() && (#[trigger] self.pairs()[i]).0 == p,
    {
        assert forall|i: int| 0 <= i < self.pairs().len() implies self@.dom().contains(
            (#[trigger] self.pairs()[i]).0,
        ) && self@[self.pairs()[i].0] == self.pairs()[i].1 by {
            lemma_entries_map_index(self.entries@, i);
        }
        lemma_entries_map_len(self.entries@);
        assert forall|p: Pos| #[trigger] self@.dom().contains(p) implies exists|i: int|
            0 <= i < self.pairs().len() && (#[trigger] self.pairs()[i]).0 == p by {
            lemma_entries_map_domain(self.entries@, p);
            let i = choose|i: int| 0 <= i < self.entries@.len() && (#[trigger] self.entries@[i]).0
                == p;
            assert((self.pairs()[i]).0 == p);
        }
    }

    /// The pair at index `i`.
    pub fn pair_at(&self, i: usize) -> (r: (Pos, T))
        requires
            self.wf(),
            i < self.pairs().len(),
        ensures
            r == self.pairs()[i as int],
            self@.dom().contains(r.0),
            self@[r.0] == r.1,
    {
        proof {
            lemma_entries_map_index(self.entries@, i as int);
        }
        self.entries[i]
    }

    /// Bounds-free lookup: `None` stands for empty floor.
    pub fn get(&self, p: Pos) -> (r: Option<T>)
        requires
            self.wf(),
        ensures
            r == if self@.dom().contains(p) {
                Some(self@[p])
            } else {
                None::<T>
            },
    {
        let n = self.entries.len();
        for i in 0..n
            invariant
                n == self.entries@.len(),
                self.wf(),
                forall|j: int| 0 <= j < i ==> (#[trigger] self.entries@[j]).0 != p,
        {
            let (k, v) = self.entries[i];
            if k == p {
                proof {
                    lemma_entries_map_index(self.entries@, i as int);
                }
                return Some(v);
            }
        }
        proof {
            lemma_entries_map_absent(self.entries@, p);
        }
        None
    }

    pub fn contains_key(&self, p: Pos) -> (r: bool)
        requires
            self.wf(),
        ensures
            r == self@.dom().contains(p),
    {
        self.get(p).is_some()
    }

    /// Binds `p` to `v`, replacing any earlier binding.
    pub fn insert(&mut self, p: Pos, v: T)
        requires
            old(self).wf(),
        ensures
            final(self).wf(),
            final(self)@ =~= old(self)@.insert(p, v),
            final(self).pairs().len() <= old(self).pairs().len() + 1,
            old(self)@.dom().contains(p) ==> final(self).pairs().len() == old(self).pairs().len(),
            !old(self)@.dom().contains(p) ==> final(self).pairs().len() == old(self).pairs().len()
                + 1,
    {
        let n = self.entries.len();
        for i in 0..n
            invariant
                self == old(self),
                n == self.entries@.len(),
                self.wf(),
                forall|j: int| 0 <= j < i ==> (#[trigger] self.entries@[j]).0 != p,
        {
            if self.entries[i].0 == p {
                proof {
                    lemma_entries_map_index(self.entries@, i as int);
                    lemma_entries_map_update(self.entries@, i as int, v);
                }
                self.entries[i] = (p, v);
                return ;
            }
        }
        proof {
            lemma_entries_map_absent(self.entries@, p);
            assert(self.entries@.push((p, v)).drop_last() =~= self.entries@);
        }
        self.entries.push((p, v));
    }

    /// Unbinds `p`; a no-op when `p` is already empty floor.
    pub fn remove(&mut self, p: Pos)
        requires
            old(self).wf(),
        ensures
            final(self).wf(),
            final(self)@ =~= old(self)@.remove(p),
            final(self).pairs().len() <= old(self).pairs().len(),
            old(self)@.dom().contains(p) ==> final(self).pairs().len() == old(self).pairs().len()
                - 1,
            !old(self)@.dom().contains(p) ==> final(self).pairs().len() == old(
                self,
            ).pairs().len(),
    {
        let n = self.entries.len();
        for i in 0..n
            invariant
                self == old(self),
                n == self.entries@.len(),
                self.wf(),
                forall|j: int| 0 <= j < i ==> (#[trigger] self.entries@[j]).0 != p,
        {
            if self.entries[i].0 == p {
                proof {
                    lemma_entries_map_index(self.entries@, i as int);
                    lemma_entries_map_remove(self.entries@, i as int);
                    assert forall|a: int, b: int|
                        0 <= a < b < self.entries@.remove(i as int).len() implies (
                        #[trigger] self.entries@.remove(i as int)[a]).0 != (
                        #[trigger] self.entries@.remove(i as int)[b]).0 by {
                        let s = self.entries@;
                        let ii = i as int;
                        let a0 = if a < ii { a } else { a + 1 };
                        let b0 = if b < ii { b } else { b + 1 };
                        assert(s.remove(ii)[a] == s[a0]);
                        assert(s.remove(ii)[b] == s[b0]);
                    }
                }
                self.entries.remove(i);
                return ;
            }
        }
        proof {
            lemma_entries_map_absent(self.entries@, p);
            assert(entries_map(self.entries@).remove(p) =~= entries_map(self.entries@));
        }
    }
}

} // verus!
