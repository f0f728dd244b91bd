//! Addition and multiplication only.

use vstd::prelude::*;
use vstd::string::StringSliceAdditionalSpecFns;

use crate::text::all_digits;
use crate::text::dec_digits;
use crate::text::digits_val;
use crate::text::line_seqs;
use crate::text::parse_u64;
use crate::text::split_lines;
use crate::text::split_ws;
use crate::text::u64_tok;
use crate::text::ws_tokens;

verus! {

/// Every total reachable by combining the first `k` factors left to right
/// with `+` or `*` at each step.
pub open spec fn outcomes(f: Seq<u64>, k: int) -> Set<int>
    decreases k,
{
    if k <= 1 {
        Set::empty().insert(f[0] as int)
    } else {
        combine(outcomes(f, k - 1), f[k - 1] as int)
    }
}

/// One more factor applied to every reachable total, both ways.
pub open spec fn combine(s: Set<int>, x: int) -> Set<int> {
    Set::new(|v: int| exists|o: int| #[trigger] s.contains(o) && (v == o + x || v == o * x))
}

/// The working list holds every total the first `k` factors can reach.
pub open spec fn covers(acc: Seq<u64>, f: Seq<u64>, k: int) -> bool {
    forall|v: int|
        #[trigger] outcomes(f, k).contains(v) ==> 0 <= v <= u64::MAX && acc.contains(v as u64)
}

/// No intermediate total overflows the machine word; a run that would is
/// left out.
pub open spec fn all_fit(f: Seq<u64>) -> bool {
    forall|k: int, v: int| 1 <= k <= f.len() && #[trigger] outcomes(f, k).contains(v) ==> v <= u64::MAX
}

/// Whether some placement of `+` and `*` over the factors, evaluated left to
/// right, reaches the total.
pub fn solve(total: &u64, factors: &[u64]) -> (r: bool)
    requires
        factors@.len() >= 1,
        all_fit(factors@),
    ensures
        r == outcomes(factors@, factors@.len() as int).contains(*total as int),
{
    let n = factors.len();
    let mut acc: Vec<u64> = Vec::new();
    acc.push(factors[0]);
    proof {
        assert(acc@[0] == factors@[0]);
        assert forall|v: u64| acc@.contains(v) implies outcomes(factors@, 1).contains(
            v as int,
        ) by {
            let j = choose|j: int| 0 <= j < acc@.len() && acc@[j] == v;
        }
        assert forall|v: int| #[trigger] outcomes(factors@, 1).contains(v) implies 0 <= v
            <= u64::MAX && acc@.contains(v as u64) by {
            assert(v == factors@[0]);
            assert(acc@.contains(factors@[0]));
        }
        assert(covers(acc@, factors@, 1));
    }
    for k in 1..n
        invariant
            n == factors@.len(),
            all_fit(factors@),
            forall|v: u64|
                #[trigger] acc@.contains(v) ==> outcomes(factors@, k as int).contains(v as int),
            covers(acc@, factors@, k as int),
    {
        let x = factors[k];
        let m = acc.len();
        let mut next: Vec<u64> = Vec::new();
        for i in 0..m
            invariant
                n == factors@.len(),
                1 <= k < n,
                m == acc@.len(),
                all_fit(factors@),
                x == factors@[k as int],
                forall|v: u64|
                    #[trigger] acc@.contains(v) ==> outcomes(factors@, k as int).contains(v as int),
                covers(acc@, factors@, k as int),
                forall|v: u64|
                    #[trigger] next@.contains(v) ==> outcomes(factors@, k + 1).contains(v as int),
                forall|j: int|
                    0 <= j < i ==> next@.contains((acc@[j] + x) as u64) && next@.contains(
                        (acc@[j] * x) as u64,
                    ),
        {
            let a = acc[i];
            proof {
                assert(acc@.contains(a));
                assert(outcomes(factors@, k as int).contains(a as int));
                assert(outcomes(factors@, k + 1).contains(a as int + x as int));
                assert(outcomes(factors@, k + 1).contains(a as int * x as int));
                assert(a as int + x as int <= u64::MAX);
                assert(a as int * x as int <= u64::MAX);
            }
            let ghost before = next@;
            next.push(a + x);
            next.push(a * x);
            proof {
                assert forall|v: u64| #[trigger] next@.contains(v) implies outcomes(
                    factors@,
                    k + 1,
                ).contains(v as int) by {
                    let j = choose|j: int| 0 <= j < next@.len() && next@[j] == v;
                    if j < before.len() {
                        assert(before.contains(v));
                    }
                }
                assert(next@[next@.len() - 2] == (a + x) as u64);
                assert(next@[next@.len() - 1] == (a * x) as u64);
                assert forall|j: int| 0 <= j < i + 1 implies next@.contains((acc@[j] + x) as u64)
                    && next@.contains((acc@[j] * x) as u64) by {
                    if j < i {
                        assert(before.contains((acc@[j] + x) as u64));
                        assert(before.contains((acc@[j] * x) as u64));
                        let p = choose|p: int| 0 <= p < before.len() && before[p] == (acc@[j]
                            + x) as u64;
                        assert(next@[p] == (acc@[j] + x) as u64);
                        let q = choose|q: int| 0 <= q < before.len() && before[q] == (acc@[j]
                            * x) as u64;
                        assert(next@[q] == (acc@[j] * x) as u64);
                    }
                }
            }
        }
        proof {
            assert forall|v: int| #[trigger] outcomes(factors@, k + 1).contains(v) implies 0 <= v
                <= u64::MAX && next@.contains(v as u64) by {
                assert(covers(acc@, factors@, k as int));
                assert(outcomes(factors@, k + 1) == combine(
                    outcomes(factors@, k as int),
                    x as int,
                ));
                assert(combine(outcomes(factors@, k as int), x as int).contains(v));
                let o = choose|o: int|
                    #[trigger] outcomes(factors@, k as int).contains(o) && (v == o + x as int || v
                        == o * x as int);
                assert(outcomes(factors@, k as int).contains(o));
                assert(0 <= o <= u64::MAX && acc@.contains(o as u64)) by {
                    assert(covers(acc@, factors@, k as int));
                }
                let j = choose|j: int| 0 <= j < acc@.len() && acc@[j] == o as u64;
                assert(next@.contains((acc@[j] + x) as u64) && next@.contains((acc@[j] * x) as u64));
                assert(v <= u64::MAX) by {
                    assert(outcomes(factors@, k + 1).contains(v));
                }
                assert(0 <= v) by {
                    if v == o * x as int {
                        assert(o * x as int >= 0) by (nonlinear_arith)
                            requires
                                o >= 0,
                                x as int >= 0,
                        ;
                    }
                }
                if v == o + x as int {
                    assert((acc@[j] + x) as u64 == v as u64);
                } else {
                    assert((acc@[j] * x) as u64 == v as u64);
                }
            }
            assert(covers(next@, factors@, k + 1));
        }
        acc = next;
    }
    let m = acc.len();
    for i in 0..m
        invariant
            m == acc@.len(),
            forall|v: u64|
                #[trigger] acc@.contains(v) ==> outcomes(factors@, n as int).contains(v as int),
            covers(acc@, factors@, n as int),
            forall|j: int| 0 <= j < i ==> (#[trigger] acc@[j]) != *total,
            n == factors@.len(),
    {
        if acc[i] == *total {
            proof {
                assert(acc@.contains(acc@[i as int]));
            }
            return true;
        }
    }
    proof {
        if outcomes(factors@, n as int).contains(*total as int) {
            assert(acc@.contains(*total));
            let j = choose|j: int| 0 <= j < acc@.len() && acc@[j] == *total;
        }
    }
    false
}

/// The index of the first colon in `l`, or its length.
pub open spec fn find_colon(l: Seq<u8>) -> int
    decreases l.len(),
{
    if l.len() == 0 {
        0
    } else if l[0] == 58 {
        0
    } else {
        1 + find_colon(l.skip(1))
    }
}

proof fn lemma_find_colon_at(l: Seq<u8>, j: int)
    requires
        0 <= j <= l.len(),
        forall|k: int| 0 <= k < j ==> (#[trigger] l[k]) != 58,
        j == l.len() || l[j] == 58,
    ensures
        find_colon(l) == j,
    decreases j,
{
    if j > 0 {
        lemma_find_colon_at(l.skip(1), j - 1);
    }
}

/// The factors named on the rest of a line: each whitespace-separated word
/// that reads as a number, the others skipped.
pub open spec fn factor_vals(ts: Seq<Seq<u8>>) -> Seq<u64>
    decreases ts.len(),
{
    if ts.len() == 0 {
        Seq::empty()
    } else {
        let rest = factor_vals(ts.skip(1));
        match u64_tok(ts[0]) {
            Some(v) => seq![v] + rest,
            None => rest,
        }
    }
}

/// One calibration line: the total before the colon, the factors after it.
/// A line without a colon, or whose total does not read as one number, is
/// skipped.
pub open spec fn parse_line(l: Seq<u8>) -> Option<(u64, Seq<u64>)> {
    let i = find_colon(l);
    if i == l.len() {
        None
    } else {
        let toks = ws_tokens(l.take(i));
        if toks.len() == 1 && u64_tok(toks[0]) is Some {
            Some((u64_tok(toks[0])->0, factor_vals(ws_tokens(l.skip(i + 1)))))
        } else {
            None
        }
    }
}

/// Every well-formed calibration line of the text, in order.
pub open spec fn eqns(lines: Seq<Seq<u8>>) -> Seq<(u64, Seq<u64>)>
    decreases lines.len(),
{
    if lines.len() == 0 {
        Seq::empty()
    } else {
        let rest = eqns(lines.skip(1));
        match parse_line(lines[0]) {
            Some(e) => seq![e] + rest,
            None => rest,
        }
    }
}

/// Reads the calibration table: one equation per line, `total: factors`.
pub fn parse_input(input: &str) -> (r: Vec<(u64, Vec<u64>)>)
    ensures
        r@.map_values(|e: (u64, Vec<u64>)| (e.0, e.1@)) == eqns(line_seqs(input.spec_bytes())),
{
    let lines = split_lines(input.as_bytes());
    let n = lines.len();
    let ghost all = line_seqs(input.spec_bytes());
    let mut out: Vec<(u64, Vec<u64>)> = Vec::new();
    proof {
        assert(all.skip(0) =~= all);
        assert(out@.map_values(|e: (u64, Vec<u64>)| (e.0, e.1@)) + eqns(all) =~= eqns(all));
    }
    for i in 0..n
        invariant
            n == lines@.len(),
            lines@.map_values(|l: Vec<u8>| l@) == all,
            eqns(all) == out@.map_values(|e: (u64, Vec<u64>)| (e.0, e.1@)) + eqns(
                all.skip(i as int),
            ),
    {
        let line = &lines[i];
        let ghost lv = all[i as int];
        proof {
            assert(lines@.map_values(|l: Vec<u8>| l@)[i as int] == line@);
            assert(all.skip(i as int)[0] == lv);
            assert(all.skip(i as int).skip(1) =~= all.skip(i + 1));
        }
        // find the colon
        let ln = line.len();
        let mut j: usize = 0;
        while j < ln && line[j] != 58
            invariant
                ln == line@.len(),
                j <= ln,
                forall|k: int| 0 <= k < j ==> (#[trigger] line@[k]) != 58,
            decreases ln - j,
        {
            j = j + 1;
        }
        proof {
            lemma_find_colon_at(line@, j as int);
        }
        let ghost prev = out@;
        if j < ln {
            let toks = split_ws(&line.as_slice()[0..j]);
            proof {
                assert(line@.subrange(0, j as int) =~= line@.take(j as int));
            }
            if toks.len() == 1 {
                if let Some(total) = parse_u64(toks[0].as_slice()) {
                    proof {
                        assert(toks@.map_values(|w: Vec<u8>| w@)[0] == toks@[0]@);
                    }
                    let words = split_ws(&line.as_slice()[j + 1..ln]);
                    proof {
                        assert(line@.subrange(j + 1, ln as int) =~= line@.skip(j + 1));
                    }
                    let wn = words.len();
                    let mut factors: Vec<u64> = Vec::new();
                    let ghost wseq = ws_tokens(lv.skip(j + 1));
                    proof {
                        assert(wseq.skip(0) =~= wseq);
                        assert(factors@ + factor_vals(wseq) =~= factor_vals(wseq));
                    }
                    for w in 0..wn
                        invariant
                            wn == words@.len(),
                            words@.map_values(|x: Vec<u8>| x@) == wseq,
                            factor_vals(wseq) == factors@ + factor_vals(wseq.skip(w as int)),
                    {
                        proof {
                            assert(words@.map_values(|x: Vec<u8>| x@)[w as int] == words@[w as int]@);
                            assert(wseq.skip(w as int)[0] == wseq[w as int]);
                            assert(wseq.skip(w as int).skip(1) =~= wseq.skip(w + 1));
                        }
                        let ghost fprev = factors@;
                        if let Some(v) = parse_u64(words[w].as_slice()) {
                            factors.push(v);
                            proof {
                                assert(factors@ =~= fprev + seq![v]);
                                assert(fprev + (seq![v] + factor_vals(wseq.skip(w + 1))) =~= (fprev
                                    + seq![v]) + factor_vals(wseq.skip(w + 1)));
                            }
                        }
                    }
                    proof {
                        assert(wseq.skip(wn as int) =~= Seq::<Seq<u8>>::empty());
                        assert(factors@ + Seq::<u64>::empty() =~= factors@);
                        assert(parse_line(lv) == Some((total, factors@)));
                    }
                    out.push((total, factors));
                    proof {
                        assert(out@.map_values(|e: (u64, Vec<u64>)| (e.0, e.1@)) =~= prev.map_values(
                            |e: (u64, Vec<u64>)| (e.0, e.1@),
                        ).push((total, factors@)));
                        assert(prev.map_values(|e: (u64, Vec<u64>)| (e.0, e.1@)).push(
                            (total, factors@),
                        ) + eqns(all.skip(i + 1)) =~= prev.map_values(
                            |e: (u64, Vec<u64>)| (e.0, e.1@),
                        ) + (seq![(total, factors@)] + eqns(all.skip(i + 1))));
                    }
                } else {
                    proof {
                        assert(toks@.map_values(|w: Vec<u8>| w@)[0] == toks@[0]@);
                        assert(parse_line(lv) is None);
                    }
                }
            } else {
                proof {
                    assert(parse_line(lv) is None);
                }
            }
        } else {
            proof {
                assert(parse_line(lv) is None);
            }
        }
    }
    proof {
        assert(all.skip(n as int) =~= Seq::<Seq<u8>>::empty());
        assert(out@.map_values(|e: (u64, Vec<u64>)| (e.0, e.1@)) + Seq::<(u64, Seq<u64>)>::empty()
            =~= out@.map_values(|e: (u64, Vec<u64>)| (e.0, e.1@)));
    }
    out
}

/// The sum of the totals of the solvable equations.
pub open spec fn answer(es: Seq<(u64, Seq<u64>)>) -> int
    decreases es.len(),
{
    if es.len() == 0 {
        0
    } else {
        answer(es.drop_last()) + if outcomes(es.last().1, es.last().1.len() as int).contains(
            es.last().0 as int,
        ) {
            es.last().0 as int
        } else {
            0
        }
    }
}

/// Every equation of the table is well formed for the solver: at least one
/// factor, no intermediate overflow, and the running sum of solved totals
/// fits the machine word.
pub open spec fn table_ok(es: Seq<(u64, Seq<u64>)>) -> bool {
    &&& forall|i: int|
        0 <= i < es.len() ==> (#[trigger] es[i]).1.len() >= 1 && all_fit(es[i].1)
    &&& forall|k: int| 0 <= k <= es.len() ==> 0 <= #[trigger] answer(es.take(k)) <= u64::MAX
}

/// Runs the calibration check: the answer is the sum of the totals that some
/// operator placement reaches.
pub fn process(input: &str) -> (r: String)
    requires
        table_ok(eqns(line_seqs(input.spec_bytes()))),
    ensures
        r@ == dec_digits(answer(eqns(line_seqs(input.spec_bytes()))) as nat),
{
    let table = parse_input(input);
    let n = table.len();
    let ghost es = eqns(line_seqs(input.spec_bytes()));
    let mut sum: u64 = 0;
    for i in 0..n
        invariant
            n == table@.len(),
            table@.map_values(|e: (u64, Vec<u64>)| (e.0, e.1@)) == es,
            table_ok(es),
            sum == answer(es.take(i as int)),
    {
        let (total, factors) = &table[i];
        proof {
            assert(table@.map_values(|e: (u64, Vec<u64>)| (e.0, e.1@))[i as int] == (
            table@[i as int].0, table@[i as int].1@));
            assert(es[i as int] == (*total, factors@));
            assert(es.take(i + 1).drop_last() =~= es.take(i as int));
            assert(es.take(i + 1).last() == es[i as int]);
            assert(0 <= answer(es.take(i + 1)) <= u64::MAX);
        }
        if solve(total, factors.as_slice()) {
            sum = sum + *total;
        }
    }
    proof {
        assert(es.take(n as int) =~= es);
    }
    crate::text::u64_to_string(sum)
}

} // verus!
