//! Counting by key: sums over items that carry a connection number do not
//! depend on how the items are ordered or grouped.

use crate::summary::{lemma_sum_same, sum_to};
use vstd::prelude::*;

verus! {

/// The weight of item `k`, where its key is wanted.
pub open spec fn keyed_term(
    key: spec_fn(int) -> u32,
    weight: spec_fn(int) -> int,
    want: spec_fn(u32) -> bool,
) -> spec_fn(int) -> int {
    |k: int|
        if want(key(k)) {
            weight(k)
        } else {
            0
        }
}

/// The sum of the weights of the first `n` items whose key is wanted.
pub open spec fn keyed_sum(
    key: spec_fn(int) -> u32,
    weight: spec_fn(int) -> int,
    n: int,
    want: spec_fn(u32) -> bool,
) -> int {
    sum_to(keyed_term(key, weight, want), n)
}

/// The one key `id`.
pub open spec fn only(id: u32) -> spec_fn(u32) -> bool {
    |c: u32| c == id
}

/// The wanted keys that are below `bound`.
pub open spec fn below(want: spec_fn(u32) -> bool, bound: int) -> spec_fn(u32) -> bool {
    |c: u32| want(c) && (c as int) < bound
}

/// A sum of zeros is zero.
pub proof fn lemma_sum_zero(f: spec_fn(int) -> int, n: int)
    requires
        forall|k: int| 0 <= k < n ==> #[trigger] f(k) == 0,
    ensures
        sum_to(f, n) == 0,
    decreases n,
{
    if n > 0 {
        lemma_sum_zero(f, n - 1);
    }
}

/// Sums add up term by term.
pub proof fn lemma_sum_add(
    f: spec_fn(int) -> int,
    g: spec_fn(int) -> int,
    h: spec_fn(int) -> int,
    n: int,
)
    requires
        forall|k: int| 0 <= k < n ==> #[trigger] h(k) == f(k) + g(k),
    ensures
        sum_to(h, n) == sum_to(f, n) + sum_to(g, n),
    decreases n,
{
    if n > 0 {
        lemma_sum_add(f, g, h, n - 1);
    }
}

/// Letting one more key in adds the sum of that key, if it is wanted.
pub proof fn lemma_keyed_step(
    key: spec_fn(int) -> u32,
    weight: spec_fn(int) -> int,
    n: int,
    want: spec_fn(u32) -> bool,
    bound: u32,
)
    ensures
        keyed_sum(key, weight, n, below(want, bound + 1)) == keyed_sum(
            key,
            weight,
            n,
            below(want, bound as int),
        ) + if want(bound) {
            keyed_sum(key, weight, n, only(bound))
        } else {
            0
        },
{
    let more = keyed_term(key, weight, below(want, bound + 1));
    let less = keyed_term(key, weight, below(want, bound as int));
    let one = keyed_term(key, weight, only(bound));
    if want(bound) {
        assert forall|k: int| 0 <= k < n implies #[trigger] more(k) == less(k) + one(k) by {}
        lemma_sum_add(less, one, more, n);
    } else {
        assert forall|k: int| 0 <= k < n implies #[trigger] more(k) == less(k) by {}
        lemma_sum_same(more, less, n);
    }
}

/// Two runs of items that agree on the sum of every single key agree on
/// the sum of the wanted keys below any bound.
pub proof fn lemma_keyed_agree_below(
    key1: spec_fn(int) -> u32,
    weight1: spec_fn(int) -> int,
    n1: int,
    key2: spec_fn(int) -> u32,
    weight2: spec_fn(int) -> int,
    n2: int,
    want: spec_fn(u32) -> bool,
    bound: int,
)
    requires
        0 <= bound <= u32::MAX + 1,
        forall|c: u32| #[trigger]
            keyed_sum(key1, weight1, n1, only(c)) == keyed_sum(key2, weight2, n2, only(c)),
    ensures
        keyed_sum(key1, weight1, n1, below(want, bound)) == keyed_sum(
            key2,
            weight2,
            n2,
            below(want, bound),
        ),
    decreases bound,
{
    if bound == 0 {
        let t1 = keyed_term(key1, weight1, below(want, 0));
        let t2 = keyed_term(key2, weight2, below(want, 0));
        assert forall|k: int| 0 <= k < n1 implies #[trigger] t1(k) == 0 by {}
        assert forall|k: int| 0 <= k < n2 implies #[trigger] t2(k) == 0 by {}
        lemma_sum_zero(t1, n1);
        lemma_sum_zero(t2, n2);
    } else {
        let last: u32 = (bound - 1) as u32;
        lemma_keyed_agree_below(key1, weight1, n1, key2, weight2, n2, want, bound - 1);
        lemma_keyed_step(key1, weight1, n1, want, last);
        lemma_keyed_step(key2, weight2, n2, want, last);
        assert(keyed_sum(key1, weight1, n1, only(last)) == keyed_sum(
            key2,
            weight2,
            n2,
            only(last),
        ));
    }
}

/// Two runs of items that agree on the sum of every single key agree on
/// the sum of any set of keys.
pub proof fn lemma_keyed_agree(
    key1: spec_fn(int) -> u32,
    weight1: spec_fn(int) -> int,
    n1: int,
    key2: spec_fn(int) -> u32,
    weight2: spec_fn(int) -> int,
    n2: int,
    want: spec_fn(u32) -> bool,
)
    requires
        forall|c: u32| #[trigger]
            keyed_sum(key1, weight1, n1, only(c)) == keyed_sum(key2, weight2, n2, only(c)),
    ensures
        keyed_sum(key1, weight1, n1, want) == keyed_sum(key2, weight2, n2, want),
{
    let top: int = u32::MAX + 1;
    lemma_keyed_agree_below(key1, weight1, n1, key2, weight2, n2, want, top);
    let a1 = keyed_term(key1, weight1, below(want, top));
    let b1 = keyed_term(key1, weight1, want);
    assert forall|k: int| 0 <= k < n1 implies #[trigger] a1(k) == b1(k) by {}
    lemma_sum_same(a1, b1, n1);
    let a2 = keyed_term(key2, weight2, below(want, top));
    let b2 = keyed_term(key2, weight2, want);
    assert forall|k: int| 0 <= k < n2 implies #[trigger] a2(k) == b2(k) by {}
    lemma_sum_same(a2, b2, n2);
}

} // verus!
