//! Safety checks over level reports: a report is safe when its levels move
//! strictly in one direction, each step by one to three; the dampened check
//! tolerates one removed level.

use vstd::prelude::*;

verus! {

/// Each of the first `k` steps ascends by one to three.
pub open spec fn inc_upto(r: Seq<i32>, k: int) -> bool {
    forall|j: int| 0 <= j < k ==> (#[trigger] r[j]) <= r[j + 1] && 1 <= r[j + 1] - r[j] <= 3
}

/// Each of the first `k` steps descends by one to three.
pub open spec fn dec_upto(r: Seq<i32>, k: int) -> bool {
    forall|j: int| 0 <= j < k ==> (#[trigger] r[j]) >= r[j + 1] && 1 <= r[j] - r[j + 1] <= 3
}

/// A safe report moves in one direction, one to three per step.
pub open spec fn safe_spec(r: Seq<i32>) -> bool {
    inc_upto(r, r.len() - 1) || dec_upto(r, r.len() - 1)
}

/// Whether a report is safe: all steps ascend by one to three, or all steps
/// descend by one to three.
pub fn is_safe(report: &[i32]) -> (r: bool)
    ensures
        r == safe_spec(report@),
{
    let n = report.len();
    let m = if n == 0 {
        0
    } else {
        n - 1
    };
    let mut inc = true;
    let mut dec = true;
    for i in 0..m
        invariant
            n == report@.len(),
            m == (if n == 0 {
                0int
            } else {
                n - 1
            }),
            inc == inc_upto(report@, i as int),
            dec == dec_upto(report@, i as int),
    {
        let a = report[i] as i64;
        let b = report[i + 1] as i64;
        let step_up = a <= b && 1 <= b - a && b - a <= 3;
        let step_down = a >= b && 1 <= a - b && a - b <= 3;
        let ghost old_inc = inc;
        let ghost old_dec = dec;
        inc = inc && step_up;
        dec = dec && step_down;
        proof {
            if old_inc && step_up {
                assert forall|j: int| 0 <= j < i + 1 implies (#[trigger] report@[j]) <= report@[j
                    + 1] && 1 <= report@[j + 1] - report@[j] <= 3 by {}
            }
            if old_dec && step_down {
                assert forall|j: int| 0 <= j < i + 1 implies (#[trigger] report@[j]) >= report@[j
                    + 1] && 1 <= report@[j] - report@[j + 1] <= 3 by {}
            }
        }
    }
    inc || dec
}

/// Whether removing a single level makes the report safe.
pub fn is_safe_after_dampen(report: &[i32]) -> (r: bool)
    ensures
        r == exists|i: int| 0 <= i < report@.len() && safe_spec(report@.remove(i)),
{
    let mut new_report = vstd::slice::slice_to_vec(report);
    let n = new_report.len();
    for i in 0..n
        invariant
            n == report@.len(),
            new_report@ == report@,
            forall|j: int| 0 <= j < i ==> !safe_spec(report@.remove(j)),
    {
        let removed = new_report.remove(i);
        if is_safe(new_report.as_slice()) {
            proof {
                assert(safe_spec(report@.remove(i as int)));
            }
            return true;
        }
        new_report.insert(i, removed);
        proof {
            assert(new_report@ =~= report@);
        }
    }
    false
}

} // verus!
