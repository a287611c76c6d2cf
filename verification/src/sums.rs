//! Sums over sequences, and the time an interval contributes to a window.

use vstd::prelude::*;

verus! {

/// The sum of `f` over the elements of `s`.
pub open spec fn seq_sum<A>(s: Seq<A>, f: spec_fn(A) -> int) -> int
    decreases s.len(),
{
    if s.len() == 0 {
        0
    } else {
        seq_sum(s.drop_last(), f) + f(s.last())
    }
}

/// The signed length of `[s, e)` cut to `[ds, de)`: `min(e, de) - max(s, ds)`.
pub open spec fn clip(s: i64, e: i64, ds: i64, de: i64) -> int {
    let hi = if e < de { e } else { de };
    let lo = if s > ds { s } else { ds };
    hi - lo
}

/// The time `[s, e)` spends in `[ds, de)`: the cut length, or 0 where it is negative.
pub open spec fn overlap_ms(s: i64, e: i64, ds: i64, de: i64) -> int {
    let c = clip(s, e, ds, de);
    if c > 0 { c } else { 0 }
}

/// The value fits in an `i64`.
pub open spec fn fits_i64(v: int) -> bool {
    i64::MIN <= v <= i64::MAX
}

pub proof fn lemma_seq_sum_take_step<A>(s: Seq<A>, f: spec_fn(A) -> int, i: int)
    requires
        0 <= i < s.len(),
    ensures
        seq_sum(s.take(i + 1), f) == seq_sum(s.take(i), f) + f(s[i]),
{
    assert(s.take(i + 1).drop_last() =~= s.take(i));
}

pub proof fn lemma_seq_sum_full<A>(s: Seq<A>, f: spec_fn(A) -> int)
    ensures
        seq_sum(s.take(s.len() as int), f) == seq_sum(s, f),
{
    assert(s.take(s.len() as int) =~= s);
}

pub proof fn lemma_seq_sum_nonneg_prefix<A>(s: Seq<A>, f: spec_fn(A) -> int, i: int)
    requires
        0 <= i <= s.len(),
        forall|j: int| 0 <= j < s.len() ==> f(#[trigger] s[j]) >= 0,
    ensures
        0 <= seq_sum(s.take(i), f) <= seq_sum(s, f),
    decreases s.len() - i,
{
    let t = s.take(i);
    assert forall|j: int| 0 <= j < t.len() implies f(#[trigger] t[j]) >= 0 by {
        assert(t[j] == s[j]);
    }
    lemma_seq_sum_nonneg(t, f);
    if i < s.len() {
        lemma_seq_sum_nonneg_prefix(s, f, i + 1);
        lemma_seq_sum_take_step(s, f, i);
    } else {
        lemma_seq_sum_full(s, f);
    }
}

pub proof fn lemma_seq_sum_nonneg<A>(s: Seq<A>, f: spec_fn(A) -> int)
    requires
        forall|j: int| 0 <= j < s.len() ==> f(#[trigger] s[j]) >= 0,
    ensures
        0 <= seq_sum(s, f),
    decreases s.len(),
{
    if s.len() > 0 {
        let d = s.drop_last();
        assert forall|j: int| 0 <= j < d.len() implies f(#[trigger] d[j]) >= 0 by {
            assert(d[j] == s[j]);
        }
        lemma_seq_sum_nonneg(d, f);
        assert(f(s[s.len() - 1]) >= 0);
    }
}

} // verus!
