//! Scalar operations handed in by the caller as closures, read in
//! specifications through the results their `ensures` allow.
//!
//! A deterministic operation has exactly one result for given arguments;
//! `call1`, `call2` and `call3` name that result.

use vstd::prelude::*;

verus! {

/// The result of the one-argument operation `f` on `x`.
pub open spec fn call1<X, Y, F: Fn(X) -> Y>(f: F, x: X) -> Y {
    choose|y: Y| call_ensures(f, (x,), y)
}

/// The result of the two-argument operation `f` on `a`, `b`.
pub open spec fn call2<X1, X2, Y, F: Fn(X1, X2) -> Y>(f: F, a: X1, b: X2) -> Y {
    choose|y: Y| call_ensures(f, (a, b), y)
}

/// The result of the three-argument operation `f` on `a`, `b`, `c`.
pub open spec fn call3<X1, X2, X3, Y, F: Fn(X1, X2, X3) -> Y>(f: F, a: X1, b: X2, c: X3) -> Y {
    choose|y: Y| call_ensures(f, (a, b, c), y)
}

/// `f` gives at most one result for any argument.
pub open spec fn deterministic1<X, Y, F: Fn(X) -> Y>(f: F) -> bool {
    forall|x: X, y1: Y, y2: Y|
        #![trigger call_ensures(f, (x,), y1), call_ensures(f, (x,), y2)]
        call_ensures(f, (x,), y1) && call_ensures(f, (x,), y2) ==> y1 == y2
}

/// `f` gives at most one result for any arguments.
pub open spec fn deterministic2<X1, X2, Y, F: Fn(X1, X2) -> Y>(f: F) -> bool {
    forall|a: X1, b: X2, y1: Y, y2: Y|
        #![trigger call_ensures(f, (a, b), y1), call_ensures(f, (a, b), y2)]
        call_ensures(f, (a, b), y1) && call_ensures(f, (a, b), y2) ==> y1 == y2
}

/// `f` gives at most one result for any arguments.
pub open spec fn deterministic3<X1, X2, X3, Y, F: Fn(X1, X2, X3) -> Y>(f: F) -> bool {
    forall|a: X1, b: X2, c: X3, y1: Y, y2: Y|
        #![trigger call_ensures(f, (a, b, c), y1), call_ensures(f, (a, b, c), y2)]
        call_ensures(f, (a, b, c), y1) && call_ensures(f, (a, b, c), y2) ==> y1 == y2
}

/// `f` read as a specification function.
pub open spec fn fn1<X, Y, F: Fn(X) -> Y>(f: F) -> spec_fn(X) -> Y {
    |x: X| call1(f, x)
}

/// `f` read as a specification function.
pub open spec fn fn2<X1, X2, Y, F: Fn(X1, X2) -> Y>(f: F) -> spec_fn(X1, X2) -> Y {
    |a: X1, b: X2| call2(f, a, b)
}

/// `f` read as a specification function.
pub open spec fn fn3<X1, X2, X3, Y, F: Fn(X1, X2, X3) -> Y>(f: F) -> spec_fn(X1, X2, X3) -> Y {
    |a: X1, b: X2, c: X3| call3(f, a, b, c)
}

/// A result of a deterministic operation is the one `fn1` names.
pub proof fn lemma_call1<X, Y, F: Fn(X) -> Y>(f: F, x: X, y: Y)
    requires
        deterministic1(f),
        call_ensures(f, (x,), y),
    ensures
        fn1(f)(x) == y,
{
    let z = call1(f, x);
    assert(call_ensures(f, (x,), z));
}

/// A result of a deterministic operation is the one `fn2` names.
pub proof fn lemma_call2<X1, X2, Y, F: Fn(X1, X2) -> Y>(f: F, a: X1, b: X2, y: Y)
    requires
        deterministic2(f),
        call_ensures(f, (a, b), y),
    ensures
        fn2(f)(a, b) == y,
{
    let z = call2(f, a, b);
    assert(call_ensures(f, (a, b), z));
}

/// A result of a deterministic operation is the one `fn3` names.
pub proof fn lemma_call3<X1, X2, X3, Y, F: Fn(X1, X2, X3) -> Y>(f: F, a: X1, b: X2, c: X3, y: Y)
    requires
        deterministic3(f),
        call_ensures(f, (a, b, c), y),
    ensures
        fn3(f)(a, b, c) == y,
{
    let z = call3(f, a, b, c);
    assert(call_ensures(f, (a, b, c), z));
}

} // verus!
