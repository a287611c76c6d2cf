//! The goal in force on each day of a list.

use vstd::prelude::*;
use crate::day_key::{
    day_le, day_le_exec, lemma_day_le_reflexive, lemma_day_le_total, lemma_day_le_transitive,
};
use crate::goals::{goal_in_force, goals_sorted, in_force, lemma_goal_in_force, lemma_no_goal_in_force, running_max};
use crate::model::DailyGoal;
use crate::store::{goal_view, goals_through, TrackerDb};

verus! {

/// The keys of a day list as character sequences.
pub open spec fn key_views(keys: Seq<String>) -> Seq<Seq<char>> {
    keys.map_values(|k: String| k@)
}

pub proof fn lemma_running_max(keys: Seq<Seq<char>>, i: int)
    requires
        0 <= i < keys.len(),
    ensures
        day_le(keys[i], running_max(keys, i)),
        i > 0 ==> day_le(running_max(keys, i - 1), running_max(keys, i)),
        running_max(keys, i) == keys[i] || (i > 0 && running_max(keys, i) == running_max(keys, i - 1)),
{
    if i <= 0 {
        lemma_day_le_reflexive(keys[0]);
    } else {
        let m = running_max(keys, i - 1);
        if day_le(keys[i], m) {
            lemma_day_le_reflexive(m);
        } else {
            lemma_day_le_reflexive(keys[i]);
            lemma_day_le_total(keys[i], m);
        }
    }
}

/// For each key of `day_keys`, the key and the goal in force on it: the goal
/// of the latest goal dated on or before the greatest key so far and on or
/// before the last key, or 0 where there is none. For keys in increasing
/// order that is the latest goal set on or before each day.
pub fn get_applicable_goals(db: &TrackerDb, day_keys: &[String]) -> (r: Vec<DailyGoal>)
    requires
        db.wf(),
    ensures
        r@.len() == day_keys@.len(),
        forall|i: int| 0 <= i < day_keys@.len() ==> (#[trigger] r@[i]).day@ == day_keys@[i]@
            && r@[i].goal_ms == goal_in_force(
                db.goals(),
                running_max(key_views(day_keys@), i),
                day_keys@[day_keys@.len() - 1]@,
            ),
{
    let n = day_keys.len();
    if n == 0 {
        return Vec::new();
    }
    let ghost keys = key_views(day_keys@);
    let ghost last = day_keys@[n - 1]@;
    let ghost table = db.goals();
    let all_goals = goals_through(db, day_keys[n - 1].as_str());
    let ghost g = goal_view(all_goals@);
    let glen = all_goals.len();
    let mut out: Vec<DailyGoal> = Vec::new();
    let mut ptr: usize = 0;
    let mut current: i64 = 0;
    let mut i: usize = 0;
    while i < n
        invariant
            i <= n,
            n == day_keys@.len(),
            keys == key_views(day_keys@),
            last == day_keys@[n - 1]@,
            table == db.goals(),
            db.wf(),
            glen == g.len(),
            g == goal_view(all_goals@),
            goals_sorted(g),
            forall|x: (Seq<char>, i64)| #[trigger] g.contains(x) <==> (table.contains(x) && day_le(x.0, last)),
            ptr <= glen,
            i == 0 ==> ptr == 0,
            i > 0 ==> forall|j: int| 0 <= j < ptr ==> day_le(#[trigger] g[j].0, running_max(keys, i - 1)),
            i > 0 ==> forall|j: int| ptr <= j < glen ==> !day_le(#[trigger] g[j].0, running_max(keys, i - 1)),
            current == (if ptr > 0 { g[ptr - 1].1 } else { 0 }),
            out@.len() == i,
            forall|j: int| 0 <= j < i ==> (#[trigger] out@[j]).day@ == day_keys@[j]@
                && out@[j].goal_ms == goal_in_force(table, running_max(keys, j), last),
        decreases n - i,
    {
        let key = &day_keys[i];
        let ghost rm = running_max(keys, i as int);
        proof {
            assert(keys[i as int] == key@);
            lemma_running_max(keys, i as int);
        }
        let ghost start = ptr;
        while ptr < glen && day_le_exec(all_goals[ptr].day.as_str(), key.as_str())
            invariant
                start <= ptr <= glen,
                glen == g.len(),
                g == goal_view(all_goals@),
                keys[i as int] == key@,
                rm == running_max(keys, i as int),
                day_le(key@, rm),
                i > 0 ==> day_le(running_max(keys, i - 1), rm),
                i == 0 ==> start == 0,
                i > 0 ==> forall|j: int| 0 <= j < start ==> day_le(#[trigger] g[j].0, running_max(keys, i - 1)),
                forall|j: int| start <= j < ptr ==> day_le(#[trigger] g[j].0, key@),
                current == (if ptr > 0 { g[ptr - 1].1 } else { 0 }),
            decreases glen - ptr,
        {
            current = all_goals[ptr].goal_ms;
            ptr += 1;
        }
        proof {
            assert forall|j: int| 0 <= j < ptr implies day_le(#[trigger] g[j].0, rm) by {
                if j < start {
                    lemma_day_le_transitive(g[j].0, running_max(keys, i - 1), rm);
                } else {
                    lemma_day_le_transitive(g[j].0, key@, rm);
                }
            }
            assert forall|j: int| ptr <= j < glen implies !day_le(#[trigger] g[j].0, rm) by {
                if day_le(g[j].0, key@) {
                    if j > ptr {
                        lemma_day_le_transitive(g[ptr as int].0, g[j].0, key@);
                    }
                }
                assert(!day_le(g[j].0, key@));
                if rm != key@ {
                    assert(i > 0 && rm == running_max(keys, i - 1));
                }
            }
            // the goal carried is the one in force
            if ptr > 0 {
                let top = g[ptr - 1];
                assert(g.contains(top));
                let t = choose|t: int| 0 <= t < table.len() && table[t] == top;
                assert forall|j: int| 0 <= j < table.len() && day_le(#[trigger] table[j].0, rm) && day_le(table[j].0, last)
                    implies day_le(table[j].0, table[t].0) by {
                    assert(g.contains(table[j]));
                    let q = choose|q: int| 0 <= q < g.len() && g[q] == table[j];
                    if q == ptr - 1 {
                        lemma_day_le_reflexive(g[q].0);
                    }
                }
                assert(in_force(table, rm, last, t));
                lemma_goal_in_force(table, rm, last, t);
            } else {
                assert forall|j: int| 0 <= j < table.len() implies !(day_le(#[trigger] table[j].0, rm) && day_le(table[j].0, last)) by {
                    if day_le(table[j].0, rm) && day_le(table[j].0, last) {
                        assert(g.contains(table[j]));
                        let q = choose|q: int| 0 <= q < g.len() && g[q] == table[j];
                    }
                }
                lemma_no_goal_in_force(table, rm, last);
            }
        }
        let day = key.clone();
        out.push(DailyGoal { day, goal_ms: current });
        i += 1;
    }
    out
}

} // verus!
