//! What a merge function does, as mathematics.
//!
//! The tree takes its fold as a closure `Fn(&mut T, &T)`. The contracts speak
//! of it through a mathematical function `g` of two values that describes it,
//! and the laws of the library through `g` being a commutative monoid.
use vstd::prelude::*;

verus! {

/// `merge` may be called on any two values.
pub open spec fn callable<T, M: Fn(&mut T, &T)>(merge: M) -> bool {
    forall|father: &mut T, son: &T| #[trigger] call_requires(merge, (father, son))
}

/// `merge` may be called to fold `son` into `father`.
pub open spec fn may_fold<T, M: Fn(&mut T, &T)>(merge: M, father: T, son: T) -> bool {
    forall|a: &mut T, b: &T| *a == father && *b == son ==> #[trigger] call_requires(merge, (a, b))
}

/// Every clone of `value` is that value.
pub open spec fn clones_as_itself<T: Clone>(value: T) -> bool {
    forall|clone: T| #[trigger] cloned(value, clone) ==> clone == value
}

/// `g` and `identity` form a commutative monoid.
#[verifier::opaque]
pub open spec fn commutative_monoid<T>(g: spec_fn(T, T) -> T, identity: T) -> bool {
    &&& forall|a: T| #[trigger] g(a, identity) == a
    &&& forall|a: T, b: T| #[trigger] g(a, b) == g(b, a)
    &&& forall|a: T, b: T, c: T| #[trigger] g(g(a, b), c) == g(a, g(b, c))
}

/// The identity is in `d`, and folding values in `d` does not lead out of it.
#[verifier::opaque]
pub open spec fn closed_under<T>(
    d: spec_fn(T) -> bool,
    g: spec_fn(T, T) -> T,
    identity: T,
) -> bool {
    &&& d(identity)
    &&& forall|a: T, b: T| d(a) && d(b) ==> d(#[trigger] g(a, b))
}

/// `g` and `identity` form a commutative monoid on the values in `d`: the identity
/// is one of them, and folding does not lead out of them.
#[verifier::opaque]
pub open spec fn commutative_monoid_on<T>(
    d: spec_fn(T) -> bool,
    g: spec_fn(T, T) -> T,
    identity: T,
) -> bool {
    &&& closed_under(d, g, identity)
    &&& forall|a: T| d(a) ==> #[trigger] g(a, identity) == a
    &&& forall|a: T, b: T| d(a) && d(b) ==> #[trigger] g(a, b) == g(b, a)
    &&& forall|a: T, b: T, c: T|
        d(a) && d(b) && d(c) ==> #[trigger] g(g(a, b), c) == g(a, g(b, c))
}

/// `g` on the values in `d`, carried on to all others: a value in `d` does nothing
/// to one that is not, and all that are not in `d` fold to the same one.
pub open spec fn widened<T>(d: spec_fn(T) -> bool, g: spec_fn(T, T) -> T) -> spec_fn(T, T) -> T {
    |a: T, b: T|
        if d(a) && d(b) {
            g(a, b)
        } else if d(b) {
            a
        } else if d(a) {
            b
        } else {
            choose|z: T| !#[trigger] d(z)
        }
}

/// A commutative monoid on some values is part of one on all of them.
pub proof fn law_a_monoid_may_be_widened<T>(
    d: spec_fn(T) -> bool,
    g: spec_fn(T, T) -> T,
    identity: T,
)
    requires
        commutative_monoid_on(d, g, identity),
    ensures
        commutative_monoid(widened(d, g), identity),
        forall|a: T, b: T| d(a) && d(b) ==> #[trigger] widened(d, g)(a, b) == g(a, b),
{
    reveal(commutative_monoid);
    reveal(commutative_monoid_on);
    reveal(closed_under);
    let w = widened(d, g);
    assert forall|a: T, b: T, c: T| #[trigger] w(w(a, b), c) == w(a, w(b, c)) by {
        if d(a) && d(b) {
            assert(d(g(a, b)));
        }
        if d(b) && d(c) {
            assert(d(g(b, c)));
        }
    }
}

/// Folding values in `d` stays in `d`.
pub proof fn lemma_closed<T>(d: spec_fn(T) -> bool, g: spec_fn(T, T) -> T, identity: T, a: T, b: T)
    requires
        closed_under(d, g, identity),
        d(a),
        d(b),
    ensures
        d(g(a, b)),
        widened(d, g)(a, b) == g(a, b),
{
    reveal(closed_under);
}

/// A commutative monoid on `d` does not lead out of `d`.
pub proof fn lemma_monoid_is_closed<T>(
    d: spec_fn(T) -> bool,
    g: spec_fn(T, T) -> T,
    identity: T,
)
    requires
        commutative_monoid_on(d, g, identity),
    ensures
        closed_under(d, g, identity),
        d(identity),
{
    reveal(commutative_monoid_on);
    reveal(closed_under);
}

/// All values of a sequence folded into `identity`.
pub open spec fn sum<T>(g: spec_fn(T, T) -> T, identity: T, values: Seq<T>) -> T
    decreases values.len(),
{
    if values.len() == 0 {
        identity
    } else {
        g(sum(g, identity, values.drop_last()), values.last())
    }
}

/// The identity changes nothing, on either side.
pub proof fn lemma_identity<T>(g: spec_fn(T, T) -> T, identity: T, a: T)
    requires
        commutative_monoid(g, identity),
    ensures
        g(a, identity) == a,
        g(identity, a) == a,
{
    reveal(commutative_monoid);
    assert(g(identity, a) == g(a, identity));
}

/// Folding two deltas one by one is folding them together.
pub proof fn lemma_assoc<T>(g: spec_fn(T, T) -> T, identity: T, a: T, b: T, c: T)
    requires
        commutative_monoid(g, identity),
    ensures
        g(g(a, b), c) == g(a, g(b, c)),
{
    reveal(commutative_monoid);
}

/// Two deltas may be folded in either order.
pub proof fn lemma_swap_last<T>(g: spec_fn(T, T) -> T, identity: T, a: T, b: T, c: T)
    requires
        commutative_monoid(g, identity),
    ensures
        g(g(a, b), c) == g(g(a, c), b),
{
    reveal(commutative_monoid);
    assert(g(g(a, b), c) == g(a, g(b, c)));
    assert(g(g(a, c), b) == g(a, g(c, b)));
    assert(g(b, c) == g(c, b));
}

/// A delta may be folded into either of two values that are folded together.
pub proof fn lemma_either_side<T>(g: spec_fn(T, T) -> T, identity: T, a: T, b: T, c: T)
    requires
        commutative_monoid(g, identity),
    ensures
        g(g(a, c), b) == g(a, g(b, c)),
{
    reveal(commutative_monoid);
    assert(g(g(a, c), b) == g(a, g(c, b)));
    assert(g(c, b) == g(b, c));
}

/// Rearranges four values in a nested fold.
pub proof fn lemma_swap_middle<T>(g: spec_fn(T, T) -> T, identity: T, a: T, b: T, c: T, d: T)
    requires
        commutative_monoid(g, identity),
    ensures
        g(g(a, b), g(c, d)) == g(g(a, c), g(b, d)),
{
    reveal(commutative_monoid);
    assert(g(g(a, b), g(c, d)) == g(a, g(b, g(c, d))));
    assert(g(g(b, c), d) == g(b, g(c, d)));
    assert(g(g(c, b), d) == g(c, g(b, d)));
    assert(g(b, c) == g(c, b));
    assert(g(g(a, c), g(b, d)) == g(a, g(c, g(b, d))));
}

/// The sum of two sequences taken place by place is the two sums together.
pub proof fn lemma_sum_zip<T>(
    g: spec_fn(T, T) -> T,
    identity: T,
    a: Seq<T>,
    b: Seq<T>,
    c: Seq<T>,
)
    requires
        commutative_monoid(g, identity),
        a.len() == b.len() == c.len(),
        forall|i: int| 0 <= i < a.len() ==> #[trigger] c[i] == g(a[i], b[i]),
    ensures
        sum(g, identity, c) == g(sum(g, identity, a), sum(g, identity, b)),
    decreases a.len(),
{
    if a.len() == 0 {
        lemma_identity(g, identity, identity);
    } else {
        lemma_sum_zip(g, identity, a.drop_last(), b.drop_last(), c.drop_last());
        lemma_swap_middle(
            g,
            identity,
            sum(g, identity, a.drop_last()),
            sum(g, identity, b.drop_last()),
            a.last(),
            b.last(),
        );
    }
}

/// The sum of a sequence that holds one value, and `identity` everywhere else.
pub proof fn lemma_sum_single<T>(g: spec_fn(T, T) -> T, identity: T, values: Seq<T>, at: int)
    requires
        commutative_monoid(g, identity),
        0 <= at < values.len(),
        forall|i: int| 0 <= i < values.len() && i != at ==> #[trigger] values[i] == identity,
    ensures
        sum(g, identity, values) == values[at],
    decreases values.len(),
{
    let init = values.drop_last();
    if at == values.len() - 1 {
        lemma_sum_blank(g, identity, init);
        lemma_identity(g, identity, values.last());
    } else {
        lemma_sum_single(g, identity, init, at);
        assert(values.last() == identity);
        lemma_identity(g, identity, values[at]);
    }
}

/// The sum of a sequence of nothing but `identity`.
pub proof fn lemma_sum_blank<T>(g: spec_fn(T, T) -> T, identity: T, values: Seq<T>)
    requires
        commutative_monoid(g, identity),
        forall|i: int| 0 <= i < values.len() ==> #[trigger] values[i] == identity,
    ensures
        sum(g, identity, values) == identity,
    decreases values.len(),
{
    if values.len() > 0 {
        lemma_sum_blank(g, identity, values.drop_last());
        assert(values.last() == identity);
        lemma_identity(g, identity, identity);
    }
}

/// Folding `v` into one place of a sequence folds `v` into its sum.
pub proof fn lemma_sum_fold_in<T>(
    g: spec_fn(T, T) -> T,
    identity: T,
    values: Seq<T>,
    at: int,
    v: T,
)
    requires
        commutative_monoid(g, identity),
        0 <= at < values.len(),
    ensures
        sum(g, identity, values.update(at, g(values[at], v))) == g(sum(g, identity, values), v),
{
    let lone = Seq::new(values.len(), |i: int| if i == at { v } else { identity });
    let folded = values.update(at, g(values[at], v));
    assert forall|i: int| 0 <= i < values.len() implies #[trigger] folded[i] == g(
        values[i],
        lone[i],
    ) by {
        lemma_identity(g, identity, values[i]);
    }
    lemma_sum_zip(g, identity, values, lone, folded);
    lemma_sum_single(g, identity, lone, at);
}

} // verus!
