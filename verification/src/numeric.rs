//! Arithmetic that callers supply.
//!
//! Geometric computations are handed to this crate as functions. The functions of this
//! crate that take them ask that they accept every argument and always give the same
//! result for the same ones, and speak of these results: `value2(f)(a, b)` is what a
//! call of `f` on `a` and `b` returns.

use vstd::prelude::*;

verus! {

/// What a function of two arguments returns.
pub open spec fn value2<A, B, R, F: Fn(A, B) -> R>(f: F) -> spec_fn(A, B) -> R {
    |a: A, b: B| choose|r: R| call_ensures(f, (a, b), r)
}

/// Whether a function accepts every pair of arguments and always returns the same
/// for the same pair.
pub open spec fn definite2<A, B, R, F: Fn(A, B) -> R>(f: F) -> bool {
    &&& forall|a: A, b: B| #[trigger] call_requires(f, (a, b))
    &&& forall|a: A, b: B, r: R, s: R|
        #![trigger call_ensures(f, (a, b), r), call_ensures(f, (a, b), s)]
        call_ensures(f, (a, b), r) && call_ensures(f, (a, b), s) ==> r == s
}

/// Calls a function of two arguments.
pub fn apply2<A, B, R, F: Fn(A, B) -> R>(f: &F, a: A, b: B) -> (r: R)
    requires
        definite2(*f),
    ensures
        r == value2(*f)(a, b),
{
    f(a, b)
}

/// What a function of three arguments returns.
pub open spec fn value3<A, B, C, R, F: Fn(A, B, C) -> R>(f: F) -> spec_fn(A, B, C) -> R {
    |a: A, b: B, c: C| choose|r: R| call_ensures(f, (a, b, c), r)
}

/// Whether a function accepts every three arguments and always returns the same for
/// the same ones.
pub open spec fn definite3<A, B, C, R, F: Fn(A, B, C) -> R>(f: F) -> bool {
    &&& forall|a: A, b: B, c: C| #[trigger] call_requires(f, (a, b, c))
    &&& forall|a: A, b: B, c: C, r: R, s: R|
        #![trigger call_ensures(f, (a, b, c), r), call_ensures(f, (a, b, c), s)]
        call_ensures(f, (a, b, c), r) && call_ensures(f, (a, b, c), s) ==> r == s
}

/// Calls a function of three arguments.
pub fn apply3<A, B, C, R, F: Fn(A, B, C) -> R>(f: &F, a: A, b: B, c: C) -> (r: R)
    requires
        definite3(*f),
    ensures
        r == value3(*f)(a, b, c),
{
    f(a, b, c)
}

/// What a function of one argument returns.
pub open spec fn value1<A, R, F: Fn(A) -> R>(f: F) -> spec_fn(A) -> R {
    |a: A| choose|r: R| call_ensures(f, (a,), r)
}

/// Whether a function accepts every argument and always returns the same for the
/// same argument.
pub open spec fn definite1<A, R, F: Fn(A) -> R>(f: F) -> bool {
    &&& forall|a: A| #[trigger] call_requires(f, (a,))
    &&& forall|a: A, r: R, s: R|
        #![trigger call_ensures(f, (a,), r), call_ensures(f, (a,), s)]
        call_ensures(f, (a,), r) && call_ensures(f, (a,), s) ==> r == s
}

/// Calls a function of one argument.
pub fn apply1<A, R, F: Fn(A) -> R>(f: &F, a: A) -> (r: R)
    requires
        definite1(*f),
    ensures
        r == value1(*f)(a),
{
    f(a)
}

/// Whether a function accepts every argument.
pub open spec fn accepts1<A, R, F: Fn(A) -> R>(f: F) -> bool {
    forall|a: A| #[trigger] call_requires(f, (a,))
}

/// Whether whatever a function returns is what `g` says.
pub open spec fn describes1<A, R, F: Fn(A) -> R>(f: F, g: spec_fn(A) -> R) -> bool {
    forall|a: A, r: R| #[trigger] call_ensures(f, (a,), r) ==> r == g(a)
}

/// What a definite function returns describes it.
pub proof fn value_describes1<A, R, F: Fn(A) -> R>(f: F)
    requires
        definite1(f),
    ensures
        accepts1(f),
        describes1(f, value1(f)),
{
}

} // verus!
