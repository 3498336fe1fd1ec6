//! The order of strings: by their first differing character, a proper
//! beginning before what it begins.
use vstd::prelude::*;
use vstd::std_specs::iter::IteratorSpec;

verus! {

/// Whether `a` stands before `b` in the order of strings: `b` goes on where
/// `a` ends, or at the first place where the two differ `a` has the lesser
/// character. This is the order in which `str` compares.
pub open spec fn lex_lt(a: Seq<char>, b: Seq<char>) -> bool
    decreases a.len(),
{
    if b.len() == 0 {
        false
    } else if a.len() == 0 {
        true
    } else if a[0] != b[0] {
        a[0] < b[0]
    } else {
        lex_lt(a.drop_first(), b.drop_first())
    }
}

/// No string stands before itself.
pub proof fn lemma_lex_irreflexive(a: Seq<char>)
    ensures
        !lex_lt(a, a),
    decreases a.len(),
{
    if a.len() > 0 {
        lemma_lex_irreflexive(a.drop_first());
    }
}

/// What stands before a string that stands before a third stands before the
/// third.
pub proof fn lemma_lex_transitive(a: Seq<char>, b: Seq<char>, c: Seq<char>)
    requires
        lex_lt(a, b),
        lex_lt(b, c),
    ensures
        lex_lt(a, c),
    decreases a.len(),
{
    if a.len() > 0 && a[0] == b[0] && b[0] == c[0] {
        lemma_lex_transitive(a.drop_first(), b.drop_first(), c.drop_first());
    }
}

/// Of two different strings one stands before the other.
pub proof fn lemma_lex_total(a: Seq<char>, b: Seq<char>)
    ensures
        a == b || lex_lt(a, b) || lex_lt(b, a),
    decreases a.len(),
{
    if a.len() > 0 && b.len() > 0 && a[0] == b[0] {
        lemma_lex_total(a.drop_first(), b.drop_first());
        if a.drop_first() == b.drop_first() {
            assert(a =~= seq![a[0]] + a.drop_first());
            assert(b =~= seq![b[0]] + b.drop_first());
        }
    } else if a.len() == 0 && b.len() == 0 {
        assert(a =~= b);
    }
}

/// Of two strings at most one stands before the other.
pub proof fn lemma_lex_asymmetric(a: Seq<char>, b: Seq<char>)
    requires
        lex_lt(a, b),
    ensures
        !lex_lt(b, a),
        a != b,
{
    lemma_lex_irreflexive(a);
    if lex_lt(b, a) {
        lemma_lex_transitive(a, b, a);
    }
}

/// Whether each string stands before all that come after it.
pub open spec fn ascending(ids: Seq<Seq<char>>) -> bool {
    forall|i: int, j: int| 0 <= i < j < ids.len() ==> lex_lt(#[trigger] ids[i], #[trigger] ids[j])
}

/// The ascending sequence `ids` with `x` put in its place, or as it is where
/// it holds `x` already.
pub open spec fn insert_sorted(ids: Seq<Seq<char>>, x: Seq<char>) -> Seq<Seq<char>>
    decreases ids.len(),
{
    if ids.len() == 0 {
        seq![x]
    } else if ids.last() == x {
        ids
    } else if lex_lt(ids.last(), x) {
        ids.push(x)
    } else {
        insert_sorted(ids.drop_last(), x).push(ids.last())
    }
}

/// Putting a string in its place adds it to what the sequence holds, and
/// nothing else.
pub proof fn lemma_insert_sorted_holds(ids: Seq<Seq<char>>, x: Seq<char>, y: Seq<char>)
    ensures
        insert_sorted(ids, x).contains(y) <==> ids.contains(y) || y == x,
    decreases ids.len(),
{
    let out = insert_sorted(ids, x);
    if ids.len() == 0 {
        assert(out[0] == x);
    } else if ids.last() == x {
        assert(ids[ids.len() - 1] == x);
    } else if lex_lt(ids.last(), x) {
        assert(out.drop_last() =~= ids);
        assert(out.last() == x);
        if ids.contains(y) {
            let k = choose|k: int| 0 <= k < ids.len() && ids[k] == y;
            assert(out[k] == y);
        }
        if out.contains(y) {
            let k = choose|k: int| 0 <= k < out.len() && out[k] == y;
            if k < ids.len() {
                assert(ids[k] == y);
            }
        }
    } else {
        let front = ids.drop_last();
        let mid = insert_sorted(front, x);
        lemma_insert_sorted_holds(front, x, y);
        if out.contains(y) {
            let k = choose|k: int| 0 <= k < out.len() && out[k] == y;
            if k < mid.len() {
                assert(mid[k] == y);
                assert(mid.contains(y));
                if front.contains(y) {
                    let n = choose|n: int| 0 <= n < front.len() && front[n] == y;
                    assert(ids[n] == y);
                }
            } else {
                assert(ids[ids.len() - 1] == y);
            }
        }
        if ids.contains(y) {
            let k = choose|k: int| 0 <= k < ids.len() && ids[k] == y;
            if k < front.len() {
                assert(front[k] == y);
                assert(front.contains(y));
                let n = choose|n: int| 0 <= n < mid.len() && mid[n] == y;
                assert(out[n] == y);
            } else {
                assert(out[out.len() - 1] == y);
            }
        }
        if y == x {
            let n = choose|n: int| 0 <= n < mid.len() && mid[n] == y;
            assert(out[n] == y);
        }
    }
}

/// Putting a string in its place keeps an ascending sequence ascending.
pub proof fn lemma_insert_sorted_ascending(ids: Seq<Seq<char>>, x: Seq<char>)
    requires
        ascending(ids),
    ensures
        ascending(insert_sorted(ids, x)),
    decreases ids.len(),
{
    let out = insert_sorted(ids, x);
    if ids.len() == 0 {
    } else if ids.last() == x {
    } else if lex_lt(ids.last(), x) {
        assert forall|i: int, j: int| 0 <= i < j < out.len() implies lex_lt(
            #[trigger] out[i],
            #[trigger] out[j],
        ) by {
            if j == ids.len() && i < ids.len() - 1 {
                assert(lex_lt(ids[i], ids[ids.len() - 1]));
                lemma_lex_transitive(ids[i], ids.last(), x);
            }
        }
    } else {
        let front = ids.drop_last();
        let mid = insert_sorted(front, x);
        assert(ascending(front)) by {
            assert forall|i: int, j: int| 0 <= i < j < front.len() implies lex_lt(
                #[trigger] front[i],
                #[trigger] front[j],
            ) by {
                assert(lex_lt(ids[i], ids[j]));
            }
        }
        lemma_insert_sorted_ascending(front, x);
        lemma_lex_total(ids.last(), x);
        assert forall|i: int, j: int| 0 <= i < j < out.len() implies lex_lt(
            #[trigger] out[i],
            #[trigger] out[j],
        ) by {
            if j == mid.len() {
                lemma_insert_sorted_holds(front, x, mid[i]);
                assert(mid.contains(mid[i]));
                if mid[i] != x {
                    let n = choose|n: int| 0 <= n < front.len() && front[n] == mid[i];
                    assert(lex_lt(ids[n], ids[ids.len() - 1]));
                }
            } else {
                assert(lex_lt(mid[i], mid[j]));
            }
        }
    }
}

/// Putting a string in its place a second time changes nothing.
pub proof fn lemma_insert_sorted_twice(ids: Seq<Seq<char>>, x: Seq<char>)
    ensures
        insert_sorted(insert_sorted(ids, x), x) == insert_sorted(ids, x),
    decreases ids.len(),
{
    let out = insert_sorted(ids, x);
    if ids.len() == 0 {
    } else if ids.last() == x {
    } else if lex_lt(ids.last(), x) {
    } else {
        lemma_insert_sorted_twice(ids.drop_last(), x);
        assert(out.drop_last() =~= insert_sorted(ids.drop_last(), x));
    }
}

/// Whether `a` stands before `b` in the order of strings.
pub fn lex_less(a: &str, b: &str) -> (less: bool)
    ensures
        less == lex_lt(a@, b@),
{
    let mut left = a.chars();
    let mut right = b.chars();
    loop
        invariant
            lex_lt(a@, b@) == lex_lt(left.remaining(), right.remaining()),
            left.obeys_prophetic_iter_laws(),
            right.obeys_prophetic_iter_laws(),
            left.decrease() is Some,
        decreases left.decrease()->0,
    {
        let ghost rest_a = left.remaining();
        let ghost rest_b = right.remaining();
        let x = left.next();
        let y = right.next();
        match (x, y) {
            (_, None) => {
                return false;
            },
            (None, Some(_)) => {
                return true;
            },
            (Some(c), Some(d)) => {
                assert(rest_a[0] == c && rest_b[0] == d);
                if c != d {
                    assert(lex_lt(rest_a, rest_b) == (c < d));
                    return c < d;
                }
            },
        }
    }
}

} // verus!
