//! Functions handed in by the caller, as mathematical functions.
use vstd::prelude::*;

verus! {

/// `f` takes every argument, and always gives the same answer to the same one.
pub open spec fn answers_one<A, R, F: Fn(A) -> R>(f: &F) -> bool {
    &&& forall|a: A| #[trigger] call_requires(*f, (a,))
    &&& forall|a: A, x: R, y: R| #[trigger]
        call_ensures(*f, (a,), x) && #[trigger] call_ensures(*f, (a,), y) ==> x == y
}

/// What `f` answers.
pub open spec fn answer_one<A, R, F: Fn(A) -> R>(f: &F, a: A) -> R {
    choose|x: R| call_ensures(*f, (a,), x)
}

/// `f` takes every two arguments, and always gives the same answer to the same ones.
pub open spec fn answers_two<A, B, R, F: Fn(A, B) -> R>(f: &F) -> bool {
    &&& forall|a: A, b: B| #[trigger] call_requires(*f, (a, b))
    &&& forall|a: A, b: B, x: R, y: R| #[trigger]
        call_ensures(*f, (a, b), x) && #[trigger] call_ensures(*f, (a, b), y) ==> x == y
}

/// What `f` answers.
pub open spec fn answer_two<A, B, R, F: Fn(A, B) -> R>(f: &F, a: A, b: B) -> R {
    choose|x: R| call_ensures(*f, (a, b), x)
}

/// Asks `f`.
pub fn ask_one<A, R, F: Fn(A) -> R>(f: &F, a: A) -> (x: R)
    requires
        answers_one(f),
    ensures
        x == answer_one(f, a),
{
    let ghost arg = a;
    let x = f(a);
    proof {
        assert(call_ensures(*f, (arg,), x));
    }
    x
}

/// Asks `f`.
pub fn ask_two<A, B, R, F: Fn(A, B) -> R>(f: &F, a: A, b: B) -> (x: R)
    requires
        answers_two(f),
    ensures
        x == answer_two(f, a, b),
{
    let ghost args = (a, b);
    let x = f(a, b);
    proof {
        assert(call_ensures(*f, args, x));
        assert(args == (args.0, args.1));
    }
    x
}

} // verus!
