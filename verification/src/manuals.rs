//! Page-ordering rules and update sequences: a rule `a|b` demands that when
//! both pages appear in an update, `a` comes first. Invalid updates are
//! reordered by a stable insertion respecting the rules.

use vstd::prelude::*;

verus! {

/// The first index of `x` in `u`, if any.
pub open spec fn first_pos(u: Seq<u32>, x: u32) -> Option<int>
    decreases u.len(),
{
    if u.len() == 0 {
        None
    } else if u[0] == x {
        Some(0int)
    } else {
        match first_pos(u.skip(1), x) {
            None => None,
            Some(i) => Some(i + 1),
        }
    }
}

proof fn lemma_first_pos_at(u: Seq<u32>, x: u32, j: int)
    requires
        0 <= j <= u.len(),
        forall|k: int| 0 <= k < j ==> (#[trigger] u[k]) != x,
        j == u.len() || u[j] == x,
    ensures
        first_pos(u, x) == (if j == u.len() {
            Option::<int>::None
        } else {
            Some(j)
        }),
    decreases j + 1,
{
    if u.len() > 0 {
        if j == 0 {
        } else {
            lemma_first_pos_at(u.skip(1), x, j - 1);
        }
    }
}

/// One rule holds of an update: when both pages appear, the first page's
/// first occurrence comes before the second's.
pub open spec fn rule_ok(u: Seq<u32>, a: u32, b: u32) -> bool {
    match (first_pos(u, a), first_pos(u, b)) {
        (Some(i), Some(j)) => i < j,
        _ => true,
    }
}

/// Every rule holds of the update.
pub open spec fn valid_spec(rules: Seq<(u32, u32)>, u: Seq<u32>) -> bool {
    forall|i: int| 0 <= i < rules.len() ==> rule_ok(u, (#[trigger] rules[i]).0, rules[i].1)
}

/// A page inserted into an ordered prefix: it slides left past every page
/// the rules place after it.
pub open spec fn ins(rules: Seq<(u32, u32)>, s: Seq<u32>, x: u32) -> Seq<u32>
    decreases s.len(),
{
    if s.len() > 0 && rules.contains((x, s.last())) {
        ins(rules, s.drop_last(), x).push(s.last())
    } else {
        s.push(x)
    }
}

/// The whole update reordered by stable insertion under the rules.
pub open spec fn isort(rules: Seq<(u32, u32)>, s: Seq<u32>) -> Seq<u32>
    decreases s.len(),
{
    if s.len() == 0 {
        Seq::empty()
    } else {
        ins(rules, isort(rules, s.drop_last()), s.last())
    }
}

/// Where the scan stops, the insertion lands: everything at or right of `p`
/// is ordered after `x`, and the page just left of `p` is not.
proof fn lemma_ins_at(rules: Seq<(u32, u32)>, s: Seq<u32>, x: u32, p: int)
    requires
        0 <= p <= s.len(),
        forall|k: int| p <= k < s.len() ==> rules.contains((x, #[trigger] s[k])),
        p == 0 || !rules.contains((x, s[p - 1])),
    ensures
        ins(rules, s, x) == s.take(p).push(x) + s.skip(p),
    decreases s.len(),
{
    if p == s.len() {
        if s.len() > 0 && rules.contains((x, s.last())) {
            assert(false);
        }
        assert(s.take(p) =~= s);
        assert(s.take(p).push(x) + s.skip(p) =~= s.push(x));
    } else {
        assert(rules.contains((x, s.last())));
        lemma_ins_at(rules, s.drop_last(), x, p);
        assert(s.drop_last().take(p) =~= s.take(p));
        assert((s.take(p).push(x) + s.drop_last().skip(p)).push(s.last()) =~= s.take(p).push(x)
            + s.skip(p));
    }
}

/// Insertion neither adds nor drops pages: the result holds the prefix and
/// the new page, as a multiset.
proof fn lemma_ins_multiset(rules: Seq<(u32, u32)>, s: Seq<u32>, x: u32)
    ensures
        ins(rules, s, x).to_multiset() =~= s.push(x).to_multiset(),
    decreases s.len(),
{
    s.to_multiset_ensures();
    s.push(x).to_multiset_ensures();
    if s.len() > 0 && rules.contains((x, s.last())) {
        lemma_ins_multiset(rules, s.drop_last(), x);
        ins(rules, s.drop_last(), x).to_multiset_ensures();
        s.drop_last().to_multiset_ensures();
        s.drop_last().push(x).to_multiset_ensures();
        assert(s.drop_last().push(s.last()) =~= s);
        assert(ins(rules, s, x).to_multiset() =~= ins(rules, s.drop_last(), x).to_multiset().insert(
            s.last(),
        ));
        assert(s.push(x).to_multiset() =~= s.to_multiset().insert(x));
        assert(s.to_multiset() =~= s.drop_last().to_multiset().insert(s.last()));
        assert(ins(rules, s, x).to_multiset() =~= s.drop_last().to_multiset().insert(x).insert(
            s.last(),
        ));
        assert(s.drop_last().to_multiset().insert(x).insert(s.last())
            =~= s.drop_last().to_multiset().insert(s.last()).insert(x));
    }
}

/// Reordering is a permutation: the pages of the result are exactly the
/// pages of the update.
pub proof fn lemma_isort_multiset(rules: Seq<(u32, u32)>, s: Seq<u32>)
    ensures
        isort(rules, s).to_multiset() =~= s.to_multiset(),
    decreases s.len(),
{
    if s.len() > 0 {
        lemma_isort_multiset(rules, s.drop_last());
        lemma_ins_multiset(rules, isort(rules, s.drop_last()), s.last());
        isort(rules, s.drop_last()).to_multiset_ensures();
        isort(rules, s.drop_last()).push(s.last()).to_multiset_ensures();
        s.to_multiset_ensures();
        s.drop_last().to_multiset_ensures();
        assert(s.drop_last().push(s.last()) =~= s);
        assert(isort(rules, s) == ins(rules, isort(rules, s.drop_last()), s.last()));
        assert(ins(rules, isort(rules, s.drop_last()), s.last()).to_multiset() =~= isort(
            rules,
            s.drop_last(),
        ).push(s.last()).to_multiset());
        assert(isort(rules, s.drop_last()).push(s.last()).to_multiset() =~= isort(
            rules,
            s.drop_last(),
        ).to_multiset().insert(s.last()));
        assert(isort(rules, s.drop_last()).to_multiset().insert(s.last())
            =~= s.drop_last().to_multiset().insert(s.last()));
        assert(s.to_multiset() =~= s.drop_last().to_multiset().insert(s.last()));
    } else {
        assert(s =~= Seq::<u32>::empty());
    }
}

/// An ordering manual: the rules and the updates to check.
pub struct Manual {
    pub rules: Vec<(u32, u32)>,
    pub updates: Vec<Vec<u32>>,
}

impl Manual {
    /// Whether every rule holds of the update: for each rule whose two pages
    /// both appear, the first-named page appears first.
    pub fn valid_update(&self, update: &[u32]) -> (r: bool)
        ensures
            r == valid_spec(self.rules@, update@),
    {
        let n = self.rules.len();
        for i in 0..n
            invariant
                n == self.rules@.len(),
                forall|j: int|
                    0 <= j < i ==> rule_ok(update@, (#[trigger] self.rules@[j]).0, self.rules@[j].1),
        {
            let (a, b) = self.rules[i];
            proof {
                assert(self.rules@[i as int] == (a, b));
            }
            let before = position_of(update, a);
            let after = position_of(update, b);
            match (before, after) {
                (Some(p), Some(q)) => {
                    if p >= q {
                        proof {
                            assert(!rule_ok(update@, a, b));
                        }
                        return false;
                    }
                    proof {
                        assert(rule_ok(update@, a, b));
                    }
                },
                _ => {
                    proof {
                        assert(rule_ok(update@, a, b));
                    }
                },
            }
        }
        true
    }

    /// Reorders an update by stable insertion: each page slides left past
    /// every page the rules place after it.
    pub fn fix_order(&self, update: Vec<u32>) -> (r: Vec<u32>)
        ensures
            r@ == isort(self.rules@, update@),
            r@.to_multiset() == update@.to_multiset(),
    {
        let n = update.len();
        let mut out: Vec<u32> = Vec::new();
        for i in 0..n
            invariant
                n == update@.len(),
                out@ == isort(self.rules@, update@.take(i as int)),
                out@.len() == i,
        {
            let x = update[i];
            let mut p = out.len();
            while p > 0 && contains_rule(&self.rules, x, out[p - 1])
                invariant
                    p <= out@.len(),
                    forall|k: int|
                        p <= k < out@.len() ==> self.rules@.contains((x, #[trigger] out@[k])),
                decreases p,
            {
                p = p - 1;
            }
            let ghost s = out@;
            out.insert(p, x);
            proof {
                lemma_ins_at(self.rules@, s, x, p as int);
                assert(out@ =~= s.take(p as int).push(x) + s.skip(p as int));
                assert(update@.take(i + 1).drop_last() =~= update@.take(i as int));
                assert(update@.take(i + 1).last() == update@[i as int]);
            }
        }
        proof {
            assert(update@.take(n as int) =~= update@);
            lemma_isort_multiset(self.rules@, update@);
        }
        out
    }
}

/// The first index of `x` in `u`, if any.
pub fn position_of(u: &[u32], x: u32) -> (r: Option<usize>)
    ensures
        first_pos(u@, x) == (match r {
            Some(j) => Some(j as int),
            None => None::<int>,
        }),
{
    let n = u.len();
    for j in 0..n
        invariant
            n == u@.len(),
            forall|k: int| 0 <= k < j ==> (#[trigger] u@[k]) != x,
    {
        if u[j] == x {
            proof {
                lemma_first_pos_at(u@, x, j as int);
            }
            return Some(j);
        }
    }
    proof {
        lemma_first_pos_at(u@, x, n as int);
    }
    None
}

/// Whether the rules name the ordered pair.
fn contains_rule(rules: &Vec<(u32, u32)>, a: u32, b: u32) -> (r: bool)
    ensures
        r == rules@.contains((a, b)),
{
    let n = rules.len();
    for i in 0..n
        invariant
            n == rules@.len(),
            forall|k: int| 0 <= k < i ==> (#[trigger] rules@[k]) != (a, b),
    {
        if rules[i].0 == a && rules[i].1 == b {
            proof {
                assert(rules@[i as int] == (a, b));
            }
            return true;
        }
    }
    false
}

} // verus!
