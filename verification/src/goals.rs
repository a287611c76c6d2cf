//! The goal table in the abstract: which goal is in force on a day.

use vstd::prelude::*;
use crate::day_key::{day_le, lemma_day_le_antisymmetric};

verus! {

/// Some goal is set for the day `d`.
pub open spec fn has_day(goals: Seq<(Seq<char>, i64)>, d: Seq<char>) -> bool {
    exists|k: int| 0 <= k < goals.len() && #[trigger] goals[k].0 == d
}

/// The goal table after setting the goal of `day` to `goal_ms`: the goal
/// already set for that day replaced, or a new one appended.
pub open spec fn goal_set(goals: Seq<(Seq<char>, i64)>, day: Seq<char>, goal_ms: i64) -> Seq<(Seq<char>, i64)> {
    if has_day(goals, day) {
        goals.map_values(|g: (Seq<char>, i64)| if g.0 == day { (day, goal_ms) } else { g })
    } else {
        goals.push((day, goal_ms))
    }
}

/// No two goals are for the same day.
pub open spec fn days_distinct(goals: Seq<(Seq<char>, i64)>) -> bool {
    forall|i: int, j: int|
        0 <= i < goals.len() && 0 <= j < goals.len() && i != j ==> #[trigger] goals[i].0
            != #[trigger] goals[j].0
}

/// Goals listed by strictly increasing day.
pub open spec fn goals_sorted(goals: Seq<(Seq<char>, i64)>) -> bool {
    forall|i: int, j: int|
        0 <= i < j < goals.len() ==> day_le(#[trigger] goals[i].0, #[trigger] goals[j].0)
            && goals[i].0 != goals[j].0
}

/// Goal `i` has the latest day of the table.
pub open spec fn is_latest_goal(goals: Seq<(Seq<char>, i64)>, i: int) -> bool {
    &&& 0 <= i < goals.len()
    &&& forall|j: int| 0 <= j < goals.len() ==> day_le(#[trigger] goals[j].0, goals[i].0)
}

/// Goal `i` is in force for key `k` when no later than `l`: it is dated on or
/// before both, and no other such goal is dated after it.
pub open spec fn in_force(goals: Seq<(Seq<char>, i64)>, k: Seq<char>, l: Seq<char>, i: int) -> bool {
    &&& 0 <= i < goals.len()
    &&& day_le(goals[i].0, k)
    &&& day_le(goals[i].0, l)
    &&& forall|j: int|
        0 <= j < goals.len() && day_le(#[trigger] goals[j].0, k) && day_le(goals[j].0, l) ==> day_le(
            goals[j].0,
            goals[i].0,
        )
}

/// The goal in force for key `k` among the goals dated on or before `l`:
/// the goal of the latest such goal dated on or before `k`, or 0 where there is none.
pub open spec fn goal_in_force(goals: Seq<(Seq<char>, i64)>, k: Seq<char>, l: Seq<char>) -> i64 {
    if exists|i: int| in_force(goals, k, l, i) {
        goals[choose|i: int| in_force(goals, k, l, i)].1
    } else {
        0
    }
}

/// The goal in force on a day: that of the latest goal dated on or before it, or 0.
pub open spec fn goal_on(goals: Seq<(Seq<char>, i64)>, key: Seq<char>) -> i64 {
    goal_in_force(goals, key, key)
}

/// The greatest of the keys `keys[0..=i]`.
pub open spec fn running_max(keys: Seq<Seq<char>>, i: int) -> Seq<char>
    decreases i,
{
    if i <= 0 {
        keys[0]
    } else {
        let m = running_max(keys, i - 1);
        if day_le(keys[i], m) { m } else { keys[i] }
    }
}

/// Keys listed in (non-strictly) increasing order.
pub open spec fn keys_ascending(keys: Seq<Seq<char>>) -> bool {
    forall|i: int, j: int| 0 <= i <= j < keys.len() ==> day_le(#[trigger] keys[i], #[trigger] keys[j])
}

/// With days distinct, the goal in force is the one of any goal that is in force.
pub proof fn lemma_goal_in_force(goals: Seq<(Seq<char>, i64)>, k: Seq<char>, l: Seq<char>, i: int)
    requires
        days_distinct(goals),
        in_force(goals, k, l, i),
    ensures
        goal_in_force(goals, k, l) == goals[i].1,
{
    let c = choose|c: int| in_force(goals, k, l, c);
    assert(in_force(goals, k, l, c));
    lemma_day_le_antisymmetric(goals[c].0, goals[i].0);
}

/// Where no goal is dated on or before both keys, none is in force.
pub proof fn lemma_no_goal_in_force(goals: Seq<(Seq<char>, i64)>, k: Seq<char>, l: Seq<char>)
    requires
        forall|j: int| 0 <= j < goals.len() ==> !(day_le(#[trigger] goals[j].0, k) && day_le(goals[j].0, l)),
    ensures
        goal_in_force(goals, k, l) == 0,
{
}

/// An element of `s.insert(p, x)` is `x` or an element of `s`.
pub proof fn lemma_insert_contains<A>(s: Seq<A>, p: int, x: A, y: A)
    requires
        0 <= p <= s.len(),
    ensures
        s.insert(p, x).contains(y) <==> (s.contains(y) || y == x),
{
    let t = s.insert(p, x);
    if t.contains(y) {
        let w = choose|w: int| 0 <= w < t.len() && t[w] == y;
        if w < p {
            assert(s[w] == y);
        } else if w > p {
            assert(s[w - 1] == y);
        }
    }
    if s.contains(y) {
        let w = choose|w: int| 0 <= w < s.len() && s[w] == y;
        if w < p {
            assert(t[w] == y);
        } else {
            assert(t[w + 1] == y);
        }
    }
    if y == x {
        assert(t[p] == y);
    }
}

} // verus!
