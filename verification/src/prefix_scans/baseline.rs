use vstd::prelude::*;

use crate::inclusive_scan;
use crate::prefix_scans::helper_functions;
use crate::prefix_scans::ScanError;

verus! {

/// The sequential reference scan for an arbitrary combining function: each
/// element is replaced by the combination of the running value with it, so
/// element `i` of the result combines elements `0..=i` in left-to-right
/// order.  Never fails.
pub fn sequential_scan_no_simd<T, F: Fn(&T, &T) -> T>(vec: Vec<T>, func: F) -> (r: Result<
    Vec<T>,
    ScanError,
>)
    requires
        forall|a: &T, b: &T| call_requires(func, (a, b)),
    ensures
        r matches Ok(out) && {
            &&& out@.len() == vec@.len()
            &&& vec@.len() > 0 ==> out@[0] == vec@[0]
            &&& forall|i: int|
                1 <= i < vec@.len() ==> call_ensures(func, (&out@[i - 1], &vec@[i]), #[trigger] out@[i])
        },
{
    let ghost orig = vec@;
    let mut vec = vec;
    let mut i: usize = 1;
    while i < vec.len()
        invariant
            1 <= i,
            vec@.len() == orig.len(),
            forall|a: &T, b: &T| call_requires(func, (a, b)),
            orig.len() > 0 ==> vec@[0] == orig[0],
            forall|j: int|
                1 <= j < i && j < orig.len() ==> call_ensures(
                    func,
                    (&vec@[j - 1], &orig[j]),
                    #[trigger] vec@[j],
                ),
            forall|j: int| i <= j < orig.len() ==> vec@[j] == orig[j],
        decreases vec@.len() - i,
    {
        let result = func(&vec[i - 1], &vec[i]);
        vec[i] = result;
        i += 1;
    }
    Ok(vec)
}

/// The sequential reference scan over machine words, delegated to the local
/// kernel.  Never fails.
pub fn sequential_scan_simd(data: &mut Vec<u64>) -> (r: Result<(), ScanError>)
    ensures
        r is Ok,
        final(data)@ == inclusive_scan(old(data)@),
{
    helper_functions::prefix_scan_simd(data);
    Ok(())
}

} // verus!
