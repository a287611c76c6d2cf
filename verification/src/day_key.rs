//! Day keys (`YYYY-MM-DD`) and their order.
//!
//! Keys are compared as strings: character by character, a proper prefix
//! first. For `YYYY-MM-DD` keys this is the calendar order.

use vstd::prelude::*;
use vstd::string::StrSliceExecFns;

verus! {

/// `a` comes before `b` or equals it, in string order.
pub open spec fn day_le(a: Seq<char>, b: Seq<char>) -> bool
    decreases a.len(),
{
    if a.len() == 0 {
        true
    } else if b.len() == 0 {
        false
    } else if a[0] != b[0] {
        (a[0] as int) < (b[0] as int)
    } else {
        day_le(a.drop_first(), b.drop_first())
    }
}

pub proof fn lemma_day_le_reflexive(a: Seq<char>)
    ensures
        day_le(a, a),
    decreases a.len(),
{
    if a.len() > 0 {
        lemma_day_le_reflexive(a.drop_first());
    }
}

pub proof fn lemma_day_le_antisymmetric(a: Seq<char>, b: Seq<char>)
    requires
        day_le(a, b),
        day_le(b, a),
    ensures
        a == b,
    decreases a.len(),
{
    if a.len() == 0 {
        assert(b.len() == 0);
        assert(a =~= b);
    } else {
        lemma_day_le_antisymmetric(a.drop_first(), b.drop_first());
        assert(a =~= seq![a[0]] + a.drop_first());
        assert(b =~= seq![b[0]] + b.drop_first());
    }
}

pub proof fn lemma_day_le_transitive(a: Seq<char>, b: Seq<char>, c: Seq<char>)
    requires
        day_le(a, b),
        day_le(b, c),
    ensures
        day_le(a, c),
    decreases a.len(),
{
    if a.len() > 0 && b.len() > 0 && c.len() > 0 && a[0] == b[0] && b[0] == c[0] {
        lemma_day_le_transitive(a.drop_first(), b.drop_first(), c.drop_first());
    }
}

pub proof fn lemma_day_le_total(a: Seq<char>, b: Seq<char>)
    ensures
        day_le(a, b) || day_le(b, a),
    decreases a.len(),
{
    if a.len() > 0 && b.len() > 0 && a[0] == b[0] {
        lemma_day_le_total(a.drop_first(), b.drop_first());
    }
}

/// Compares two day keys in string order.
pub fn day_le_exec(a: &str, b: &str) -> (r: bool)
    ensures
        r == day_le(a@, b@),
{
    let la = a.unicode_len();
    let lb = b.unicode_len();
    let mut i: usize = 0;
    assert(a@.skip(0) =~= a@ && b@.skip(0) =~= b@);
    while i < la && i < lb
        invariant
            i <= la,
            i <= lb,
            la == a@.len(),
            lb == b@.len(),
            day_le(a@, b@) == day_le(a@.skip(i as int), b@.skip(i as int)),
        decreases la - i,
    {
        let ca = a.get_char(i);
        let cb = b.get_char(i);
        proof {
            assert(a@.skip(i as int)[0] == ca);
            assert(b@.skip(i as int)[0] == cb);
            assert(a@.skip(i as int).drop_first() =~= a@.skip(i as int + 1));
            assert(b@.skip(i as int).drop_first() =~= b@.skip(i as int + 1));
        }
        if ca != cb {
            return (ca as u32) < (cb as u32);
        }
        i += 1;
    }
    i == la
}

/// Whether two texts are the same.
pub fn text_eq(a: &str, b: &str) -> (r: bool)
    ensures
        r == (a@ == b@),
{
    let ab = day_le_exec(a, b);
    let ba = day_le_exec(b, a);
    proof {
        if ab && ba {
            lemma_day_le_antisymmetric(a@, b@);
        }
        if a@ == b@ {
            lemma_day_le_reflexive(a@);
        }
    }
    ab && ba
}

} // verus!
