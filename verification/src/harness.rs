//! Test harness: registered cases run strictly in registration order;
//! after the first failure no further case runs, and the exit signal is
//! `Success` exactly when every case passed.
use vstd::prelude::*;

use crate::QemuExitCode;

verus! {

/// Every case passed.
pub open spec fn all_passed(results: Seq<bool>) -> bool {
    forall|i: int| 0 <= i < results.len() ==> results[i]
}

/// `i` is the first failing case.
pub open spec fn is_first_failure(results: Seq<bool>, i: int) -> bool {
    &&& 0 <= i < results.len()
    &&& !results[i]
    &&& forall|k: int| 0 <= k < i ==> results[k]
}

/// Consumes the pass/fail result of each registered case in registration
/// order. Execution stops right after the first failure; the returned
/// count says how many cases ran, and the signal is `Success` exactly
/// when all of them passed.
pub fn run(results: &Vec<bool>) -> (r: (usize, QemuExitCode))
    ensures
        (r.1 is Success) <==> all_passed(results@),
        all_passed(results@) ==> r.0 == results@.len(),
        forall|i: int| is_first_failure(results@, i) ==> r.0 == i + 1,
{
    let n = results.len();
    let mut i: usize = 0;
    while i < n
        invariant
            n == results@.len(),
            i <= n,
            forall|k: int| 0 <= k < i ==> results@[k],
        decreases n - i,
    {
        if !results[i] {
            proof {
                assert(is_first_failure(results@, i as int));
            }
            return (i + 1, QemuExitCode::Failed);
        }
        i = i + 1;
    }
    (n, QemuExitCode::Success)
}

} // verus!
