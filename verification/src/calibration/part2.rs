//! Addition, multiplication, and digit concatenation.

use vstd::prelude::*;
use vstd::string::StringSliceAdditionalSpecFns;

use crate::calibration::part1::eqns;
use crate::calibration::part1::parse_input;
use crate::text::dec_digits;
use crate::text::line_seqs;

verus! {

/// The smallest power of ten above `b`, by decimal digits: what gluing `b`
/// onto another number multiplies that number by. Zero counts one digit.
pub open spec fn p10(b: int) -> int
    decreases b,
{
    if b < 10 {
        10
    } else {
        10 * p10(b / 10)
    }
}

proof fn lemma_p10_pos(b: int)
    ensures
        p10(b) >= 10,
    decreases b,
{
    if b >= 10 {
        lemma_p10_pos(b / 10);
    }
}

/// The digits of `b` glued after the digits of `a`.
pub open spec fn concat_val(a: int, b: int) -> int {
    a * p10(b) + b
}

/// Every total reachable by combining the first `k` factors left to right
/// with `+`, `*`, or digit concatenation at each step.
pub open spec fn outcomes(f: Seq<u64>, k: int) -> Set<int>
    decreases k,
{
    if k <= 1 {
        Set::empty().insert(f[0] as int)
    } else {
        combine(outcomes(f, k - 1), f[k - 1] as int)
    }
}

/// One more factor applied to every reachable total, all three ways.
pub open spec fn combine(s: Set<int>, x: int) -> Set<int> {
    Set::new(
        |v: int|
            exists|o: int|
                #[trigger] s.contains(o) && (v == o + x || v == o * x || v == concat_val(o, x)),
    )
}

/// The working list holds every total the first `k` factors can reach.
pub open spec fn covers(acc: Seq<u64>, f: Seq<u64>, k: int) -> bool {
    forall|v: int|
        #[trigger] outcomes(f, k).contains(v) ==> 0 <= v <= u64::MAX && acc.contains(v as u64)
}

/// No intermediate total, and no power of ten a factor is glued with,
/// overflows the machine word; a run that would is left out.
pub open spec fn all_fit(f: Seq<u64>) -> bool {
    &&& forall|k: int, v: int|
        1 <= k <= f.len() && #[trigger] outcomes(f, k).contains(v) ==> v <= u64::MAX
    &&& forall|i: int| 1 <= i < f.len() ==> p10((#[trigger] f[i]) as int) <= u64::MAX
}

/// The next working list holds every total one more factor can reach: each
/// old total was listed, and all three of its continuations were pushed.
#[verifier::rlimit(100)]
#[verifier::spinoff_prover]
proof fn lemma_combine_covered(
    f: Seq<u64>,
    k: int,
    x: u64,
    pow: u64,
    acc: Seq<u64>,
    next: Seq<u64>,
)
    requires
        1 <= k < f.len(),
        x == f[k],
        pow == p10(x as int),
        all_fit(f),
        covers(acc, f, k),
        forall|j: int|
            0 <= j < acc.len() ==> next.contains(((#[trigger] acc[j] + x)) as u64)
                && next.contains((acc[j] * x) as u64) && next.contains((acc[j] * pow + x) as u64),
    ensures
        covers(next, f, k + 1),
{
    assert forall|v: int| #[trigger] outcomes(f, k + 1).contains(v) implies 0 <= v <= u64::MAX
        && next.contains(v as u64) by {
        assert(outcomes(f, k + 1) == combine(outcomes(f, k), x as int));
        assert(combine(outcomes(f, k), x as int).contains(v));
        let o = choose|o: int|
            #[trigger] outcomes(f, k).contains(o) && (v == o + x as int || v == o * x as int || v
                == concat_val(o, x as int));
        assert(outcomes(f, k).contains(o));
        assert(0 <= o <= u64::MAX && acc.contains(o as u64)) by {
            assert(covers(acc, f, k));
        }
        let j = choose|j: int| 0 <= j < acc.len() && acc[j] == o as u64;
        assert(next.contains((acc[j] + x) as u64) && next.contains((acc[j] * x) as u64)
            && next.contains((acc[j] * pow + x) as u64));
        assert(v <= u64::MAX) by {
            assert(outcomes(f, k + 1).contains(v));
        }
        assert(0 <= v) by {
            lemma_p10_pos(x as int);
            if v == o * x as int {
                assert(o * x as int >= 0) by (nonlinear_arith)
                    requires
                        o >= 0,
                        x as int >= 0,
                ;
            }
            if v == concat_val(o, x as int) {
                assert(o * p10(x as int) >= 0) by (nonlinear_arith)
                    requires
                        o >= 0,
                        p10(x as int) >= 10,
                ;
            }
        }
        if v == o + x as int {
            assert((acc[j] + x) as u64 == v as u64);
        } else if v == o * x as int {
            assert((acc[j] * x) as u64 == v as u64);
        } else {
            assert((acc[j] * pow + x) as u64 == v as u64);
        }
    }
}

/// Whether some placement of `+`, `*` and digit gluing over the factors,
/// evaluated left to right, reaches the total.
#[verifier::rlimit(100)]
#[verifier::spinoff_prover]
pub fn solve(total: &u64, factors: &[u64]) -> (r: bool)
    requires
        factors@.len() >= 1,
        all_fit(factors@),
    ensures
        r == outcomes(factors@, factors@.len() as int).contains(*total as int),
{
    let n = factors.len();
    let mut acc: Vec<u64> = Vec::new();
    acc.push(factors[0]);
    proof {
        assert(acc@[0] == factors@[0]);
        assert forall|v: u64| acc@.contains(v) implies outcomes(factors@, 1).contains(
            v as int,
        ) by {
            let j = choose|j: int| 0 <= j < acc@.len() && acc@[j] == v;
        }
        assert forall|v: int| #[trigger] outcomes(factors@, 1).contains(v) implies 0 <= v
            <= u64::MAX && acc@.contains(v as u64) by {
            assert(v == factors@[0]);
            assert(acc@.contains(factors@[0]));
        }
        assert(covers(acc@, factors@, 1));
    }
    for k in 1..n
        invariant
            n == factors@.len(),
            all_fit(factors@),
            forall|v: u64|
                #[trigger] acc@.contains(v) ==> outcomes(factors@, k as int).contains(v as int),
            covers(acc@, factors@, k as int),
    {
        let x = factors[k];
        proof {
            assert(p10(factors@[k as int] as int) <= u64::MAX);
        }
        let pow = pow10_of(x);
        let m = acc.len();
        let mut next: Vec<u64> = Vec::new();
        for i in 0..m
            invariant
                n == factors@.len(),
                1 <= k < n,
                m == acc@.len(),
                all_fit(factors@),
                x == factors@[k as int],
                forall|v: u64|
                    #[trigger] acc@.contains(v) ==> outcomes(factors@, k as int).contains(v as int),
                covers(acc@, factors@, k as int),
                forall|v: u64|
                    #[trigger] next@.contains(v) ==> outcomes(factors@, k + 1).contains(v as int),
                pow == p10(x as int),
                forall|j: int|
                    0 <= j < i ==> next@.contains((acc@[j] + x) as u64) && next@.contains(
                        (acc@[j] * x) as u64,
                    ) && next@.contains((acc@[j] * pow + x) as u64),
        {
            let a = acc[i];
            proof {
                assert(acc@.contains(a));
                assert(outcomes(factors@, k as int).contains(a as int));
                assert(outcomes(factors@, k + 1).contains(a as int + x as int));
                assert(outcomes(factors@, k + 1).contains(a as int * x as int));
                assert(outcomes(factors@, k + 1).contains(concat_val(a as int, x as int)));
                assert(a as int + x as int <= u64::MAX);
                assert(a as int * x as int <= u64::MAX);
                assert(a as int * pow as int + x as int <= u64::MAX);
                lemma_p10_pos(x as int);
            }
            let ghost before = next@;
            next.push(a + x);
            next.push(a * x);
            next.push(a * pow + x);
            proof {
                assert forall|v: u64| #[trigger] next@.contains(v) implies outcomes(
                    factors@,
                    k + 1,
                ).contains(v as int) by {
                    let j = choose|j: int| 0 <= j < next@.len() && next@[j] == v;
                    if j < before.len() {
                        assert(before.contains(v));
                    }
                }
                assert(next@[next@.len() - 3] == (a + x) as u64);
                assert(next@[next@.len() - 2] == (a * x) as u64);
                assert(next@[next@.len() - 1] == (a * pow + x) as u64);
                assert forall|j: int| 0 <= j < i + 1 implies next@.contains((acc@[j] + x) as u64)
                    && next@.contains((acc@[j] * x) as u64) && next@.contains(
                    (acc@[j] * pow + x) as u64,
                ) by {
                    if j < i {
                        assert(before.contains((acc@[j] + x) as u64));
                        assert(before.contains((acc@[j] * x) as u64));
                        assert(before.contains((acc@[j] * pow + x) as u64));
                        let p = choose|p: int| 0 <= p < before.len() && before[p] == (acc@[j]
                            + x) as u64;
                        assert(next@[p] == (acc@[j] + x) as u64);
                        let q = choose|q: int| 0 <= q < before.len() && before[q] == (acc@[j]
                            * x) as u64;
                        assert(next@[q] == (acc@[j] * x) as u64);
                        let w = choose|w: int| 0 <= w < before.len() && before[w] == (acc@[j] * pow
                            + x) as u64;
                        assert(next@[w] == (acc@[j] * pow + x) as u64);
                    }
                }
            }
        }
        proof {
            lemma_combine_covered(factors@, k as int, x, pow, acc@, next@);
        }
        acc = next;
    }
    let m = acc.len();
    for i in 0..m
        invariant
            m == acc@.len(),
            forall|v: u64|
                #[trigger] acc@.contains(v) ==> outcomes(factors@, n as int).contains(v as int),
            covers(acc@, factors@, n as int),
            forall|j: int| 0 <= j < i ==> (#[trigger] acc@[j]) != *total,
            n == factors@.len(),
    {
        if acc[i] == *total {
            proof {
                assert(acc@.contains(acc@[i as int]));
            }
            return true;
        }
    }
    proof {
        if outcomes(factors@, n as int).contains(*total as int) {
            assert(acc@.contains(*total));
            let j = choose|j: int| 0 <= j < acc@.len() && acc@[j] == *total;
        }
    }
    false
}

/// The power of ten one decimal width above `b`.
fn pow10_of(b: u64) -> (r: u64)
    requires
        p10(b as int) <= u64::MAX,
    ensures
        r == p10(b as int),
{
    let mut t = b;
    let mut pow: u64 = 10;
    proof {
        lemma_p10_pos(b as int);
    }
    while t >= 10
        invariant
            p10(b as int) <= u64::MAX,
            p10(b as int) >= 10,
            pow * p10(t as int) == 10 * p10(b as int),
            pow >= 10,
        decreases t,
    {
        proof {
            assert(p10(t as int) == 10 * p10(t as int / 10));
            lemma_p10_pos(t as int / 10);
            assert((pow * 10) * p10(t as int / 10) == 10 * p10(b as int)) by (nonlinear_arith)
                requires
                    pow * p10(t as int) == 10 * p10(b as int),
                    p10(t as int) == 10 * p10(t as int / 10),
            ;
            assert(pow * 10 <= p10(b as int)) by (nonlinear_arith)
                requires
                    (pow * 10) * p10(t as int / 10) == 10 * p10(b as int),
                    p10(t as int / 10) >= 10,
                    pow >= 10,
                    p10(b as int) >= 10,
            ;
        }
        t = t / 10;
        pow = pow * 10;
    }
    proof {
        assert(p10(t as int) == 10);
        assert(pow * 10 == 10 * p10(b as int));
    }
    pow
}

/// The sum of the totals of the solvable equations.
pub open spec fn answer(es: Seq<(u64, Seq<u64>)>) -> int
    decreases es.len(),
{
    if es.len() == 0 {
        0
    } else {
        answer(es.drop_last()) + if outcomes(es.last().1, es.last().1.len() as int).contains(
            es.last().0 as int,
        ) {
            es.last().0 as int
        } else {
            0
        }
    }
}

/// Every equation of the table is well formed for the solver: at least one
/// factor, no intermediate overflow, and the running sum of solved totals
/// fits the machine word.
pub open spec fn table_ok(es: Seq<(u64, Seq<u64>)>) -> bool {
    &&& forall|i: int|
        0 <= i < es.len() ==> (#[trigger] es[i]).1.len() >= 1 && all_fit(es[i].1)
    &&& forall|k: int| 0 <= k <= es.len() ==> 0 <= #[trigger] answer(es.take(k)) <= u64::MAX
}

/// Runs the calibration check: the answer is the sum of the totals that some
/// operator placement reaches.
pub fn process(input: &str) -> (r: String)
    requires
        table_ok(eqns(line_seqs(input.spec_bytes()))),
    ensures
        r@ == dec_digits(answer(eqns(line_seqs(input.spec_bytes()))) as nat),
{
    let table = parse_input(input);
    let n = table.len();
    let ghost es = eqns(line_seqs(input.spec_bytes()));
    let mut sum: u64 = 0;
    for i in 0..n
        invariant
            n == table@.len(),
            table@.map_values(|e: (u64, Vec<u64>)| (e.0, e.1@)) == es,
            table_ok(es),
            sum == answer(es.take(i as int)),
    {
        let (total, factors) = &table[i];
        proof {
            assert(table@.map_values(|e: (u64, Vec<u64>)| (e.0, e.1@))[i as int] == (
            table@[i as int].0, table@[i as int].1@));
            assert(es[i as int] == (*total, factors@));
            assert(es.take(i + 1).drop_last() =~= es.take(i as int));
            assert(es.take(i + 1).last() == es[i as int]);
            assert(0 <= answer(es.take(i + 1)) <= u64::MAX);
        }
        if solve(total, factors.as_slice()) {
            sum = sum + *total;
        }
    }
    proof {
        assert(es.take(n as int) =~= es);
    }
    crate::text::u64_to_string(sum)
}

} // verus!
