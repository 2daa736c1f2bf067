//! Sums of a function over the first positions.

use vstd::prelude::*;

verus! {

/// `f(0) + f(1) + ... + f(len - 1)`.
pub open spec fn sum(f: spec_fn(int) -> nat, len: nat) -> nat
    decreases len,
{
    if len == 0 {
        0
    } else {
        sum(f, (len - 1) as nat) + f(len - 1)
    }
}

/// Functions that agree on the first `len` positions have the same sum there.
pub proof fn lemma_sum_agree(f: spec_fn(int) -> nat, g: spec_fn(int) -> nat, len: nat)
    requires
        forall|i: int| 0 <= i < len ==> #[trigger] f(i) == g(i),
    ensures
        sum(f, len) == sum(g, len),
    decreases len,
{
    if len > 0 {
        lemma_sum_agree(f, g, (len - 1) as nat);
    }
}

/// Where two functions differ at most at `p`, their sums differ by what they
/// differ by at `p`.
pub proof fn lemma_sum_one(f: spec_fn(int) -> nat, g: spec_fn(int) -> nat, len: nat, p: int)
    requires
        0 <= p < len,
        forall|i: int| 0 <= i < len && i != p ==> #[trigger] f(i) == g(i),
    ensures
        sum(g, len) - sum(f, len) == g(p) - f(p),
    decreases len,
{
    if p == len - 1 {
        lemma_sum_agree(f, g, (len - 1) as nat);
    } else {
        lemma_sum_one(f, g, (len - 1) as nat, p);
    }
}

/// Where two functions differ at most at `p` and `q`, their sums differ by
/// what they differ by at these two positions.
pub proof fn lemma_sum_two(
    f: spec_fn(int) -> nat,
    g: spec_fn(int) -> nat,
    len: nat,
    p: int,
    q: int,
)
    requires
        0 <= p < len,
        0 <= q < len,
        p != q,
        forall|i: int| 0 <= i < len && i != p && i != q ==> #[trigger] f(i) == g(i),
    ensures
        sum(g, len) - sum(f, len) == (g(p) - f(p)) + (g(q) - f(q)),
    decreases len,
{
    if p == len - 1 {
        lemma_sum_one(f, g, (len - 1) as nat, q);
    } else if q == len - 1 {
        lemma_sum_one(f, g, (len - 1) as nat, p);
    } else {
        lemma_sum_two(f, g, (len - 1) as nat, p, q);
    }
}

} // verus!
