//! Counting over the prefix of a sequence, with the small lemmas the board
//! proofs need: congruence, point updates, and the relation between a count
//! and a pointwise property.

use vstd::prelude::*;

verus! {

/// The identity predicate on booleans, for counting true entries.
pub open spec fn bool_id() -> spec_fn(bool) -> bool {
    |b: bool| b
}

/// Number of elements among the first `n` of `s` that satisfy `p`.
pub open spec fn count_to<T>(s: Seq<T>, p: spec_fn(T) -> bool, n: int) -> int
    decreases n,
{
    if n <= 0 {
        0
    } else {
        count_to(s, p, n - 1) + if p(s[n - 1]) {
            1int
        } else {
            0int
        }
    }
}

/// A prefix count lies between 0 and the prefix length.
pub proof fn lemma_count_to_bounds<T>(s: Seq<T>, p: spec_fn(T) -> bool, n: int)
    requires
        0 <= n,
    ensures
        0 <= count_to(s, p, n) <= n,
    decreases n,
{
    if n > 0 {
        lemma_count_to_bounds(s, p, n - 1);
    }
}

/// Counts agree when the counted properties agree pointwise on the prefix.
pub proof fn lemma_count_to_agree<A, B>(
    s1: Seq<A>,
    p1: spec_fn(A) -> bool,
    s2: Seq<B>,
    p2: spec_fn(B) -> bool,
    n: int,
)
    requires
        forall|i: int| 0 <= i < n ==> #[trigger] p1(s1[i]) == p2(s2[i]),
    ensures
        count_to(s1, p1, n) == count_to(s2, p2, n),
    decreases n,
{
    if n > 0 {
        lemma_count_to_agree(s1, p1, s2, p2, n - 1);
    }
}

/// Updating one element changes the count by the difference of the two
/// indicators, and only when the updated index lies inside the prefix.
pub proof fn lemma_count_to_update<T>(s: Seq<T>, p: spec_fn(T) -> bool, k: int, x: T, n: int)
    requires
        0 <= k < s.len(),
        0 <= n <= s.len(),
    ensures
        count_to(s.update(k, x), p, n) == count_to(s, p, n) + if k < n {
            (if p(x) {
                1int
            } else {
                0int
            }) - (if p(s[k]) {
                1int
            } else {
                0int
            })
        } else {
            0int
        },
    decreases n,
{
    if n > 0 {
        lemma_count_to_update(s, p, k, x, n - 1);
    }
}

/// A prefix without satisfying elements counts to zero.
pub proof fn lemma_count_to_zero<T>(s: Seq<T>, p: spec_fn(T) -> bool, n: int)
    requires
        forall|i: int| 0 <= i < n ==> !#[trigger] p(s[i]),
    ensures
        count_to(s, p, n) == 0,
    decreases n,
{
    if n > 0 {
        lemma_count_to_zero(s, p, n - 1);
    }
}

/// When `p` excludes `q` on the prefix, the `p`-count is at most the number of
/// non-`q` elements, with equality exactly when every non-`q` element
/// satisfies `p`.
pub proof fn lemma_count_to_complement<T>(s: Seq<T>, p: spec_fn(T) -> bool, q: spec_fn(T) -> bool, n: int)
    requires
        0 <= n,
        forall|i: int| 0 <= i < n ==> (#[trigger] p(s[i]) ==> !q(s[i])),
    ensures
        count_to(s, p, n) <= n - count_to(s, q, n),
        (count_to(s, p, n) == n - count_to(s, q, n)) <==> (forall|i: int|
            0 <= i < n ==> (!#[trigger] q(s[i]) ==> p(s[i]))),
    decreases n,
{
    if n > 0 {
        lemma_count_to_complement(s, p, q, n - 1);
        lemma_count_to_bounds(s, p, n - 1);
        lemma_count_to_bounds(s, q, n - 1);
    }
}

} // verus!
