//! Data-parallel scans over candidate cells.
use vstd::prelude::*;
use rayon::iter::{IntoParallelIterator, ParallelIterator};

verus! {

/// The predicate `keep` gives one answer for each of `items`.
pub open spec fn deterministic<F: Fn((usize, usize)) -> bool>(keep: F, items: Seq<(usize, usize)>) -> bool {
    forall|x: (usize, usize), b1: bool, b2: bool|
        items.contains(x) && call_ensures(keep, (x,), b1) && call_ensures(keep, (x,), b2) ==> b1 == b2
}

/// Relies on rayon's `into_par_iter().filter(..).collect()` over a `Vec`:
/// the predicate is called on every item, and `collect` into a `Vec` keeps
/// the accepted items in the order of the input.
#[verifier::external_body]
pub(crate) fn par_filter<F: Fn((usize, usize)) -> bool + Sync + Send>(items: Vec<(usize, usize)>, keep: F) -> (r: Vec<(usize, usize)>)
    requires
        forall|x: (usize, usize)| items@.contains(x) ==> call_requires(keep, (x,)),
        deterministic(keep, items@),
    ensures
        forall|x: (usize, usize)| items@.contains(x) && !r@.contains(x) ==> call_ensures(keep, (x,), false),
        r@ == items@.filter(|x: (usize, usize)| call_ensures(keep, (x,), true)),
{
    items.into_par_iter().filter(|x| keep(*x)).collect()
}

pub proof fn lemma_filter_congruent<A>(s: Seq<A>, p1: spec_fn(A) -> bool, p2: spec_fn(A) -> bool)
    requires
        forall|x: A| s.contains(x) ==> p1(x) == p2(x),
    ensures
        s.filter(p1) == s.filter(p2),
    decreases s.len(),
{
    reveal(Seq::filter);
    if s.len() > 0 {
        assert forall|x: A| s.drop_last().contains(x) implies p1(x) == p2(x) by {
            let i = choose|i: int| 0 <= i < s.drop_last().len() && s.drop_last()[i] == x;
            assert(s[i] == x);
            assert(s.contains(x));
        }
        lemma_filter_congruent(s.drop_last(), p1, p2);
        assert(s.contains(s.last()));
    }
}

pub proof fn lemma_in_filter<A>(s: Seq<A>, p: spec_fn(A) -> bool, x: A)
    requires
        s.filter(p).contains(x),
    ensures
        p(x),
        s.contains(x),
{
    let i = choose|i: int| 0 <= i < s.filter(p).len() && s.filter(p)[i] == x;
    s.lemma_filter_pred(p, i);
    s.lemma_filter_contains_rev(p, x);
}

/// What `par_filter` returned, read through a predicate that pins down each
/// answer of `keep` on the items: the items that satisfy the predicate.
pub proof fn lemma_par_filter_exact<F: Fn((usize, usize)) -> bool>(
    items: Seq<(usize, usize)>,
    r: Seq<(usize, usize)>,
    keep: F,
    pred: spec_fn((usize, usize)) -> bool,
)
    requires
        forall|x: (usize, usize)| items.contains(x) && !r.contains(x) ==> call_ensures(keep, (x,), false),
        r == items.filter(|x: (usize, usize)| call_ensures(keep, (x,), true)),
        forall|x: (usize, usize), b: bool| items.contains(x) && call_ensures(keep, (x,), b) ==> b == pred(x),
    ensures
        r == items.filter(pred),
{
    let p1 = |x: (usize, usize)| call_ensures(keep, (x,), true);
    assert forall|x: (usize, usize)| items.contains(x) implies p1(x) == pred(x) by {
        if r.contains(x) {
            lemma_in_filter(items, p1, x);
        }
    }
    lemma_filter_congruent(items, p1, pred);
}

} // verus!
