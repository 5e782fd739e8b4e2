//! Properties that relate the feedback code, the constraints read from it,
//! and the filtering of the pool.

use vstd::prelude::*;

use crate::constraint::{all_hits, holds, parse, parse_prefix, satisfies, Constraint};
use crate::word::{feedback, HIT};
use crate::wordlist::{orders, ranks_before};

verus! {

/// A constraint that holds of `s` whatever characters the round found present.
spec fn holds_outright(c: Constraint, s: Seq<char>) -> bool {
    match c {
        Constraint::AtPos(i, ch) => i < s.len() && s[i as int] == ch,
        Constraint::NotAtPos(i, ch) => i < s.len() && s[i as int] != ch && s.contains(ch),
        Constraint::Absent(ch) => !s.contains(ch),
    }
}

/// Reading the first `n` positions of the feedback that `g` earns against `s`
/// succeeds; every constraint it gives holds of `s` outright, and each hit
/// gives an `AtPos`.
proof fn lemma_feedback_prefix(g: Seq<char>, s: Seq<char>, n: nat)
    requires
        n <= feedback(g, s).len(),
        g.len() <= usize::MAX,
    ensures
        match parse_prefix(g, feedback(g, s), n) {
            Ok((cs, _)) => {
                &&& cs.len() == n
                &&& forall|k: int| 0 <= k < n ==> holds_outright(#[trigger] cs[k], s)
                &&& forall|k: int|
                    0 <= k < n && feedback(g, s)[k] == HIT ==> (#[trigger] cs[k]) is AtPos
            },
            Err(_) => false,
        },
    decreases n,
{
    if n > 0 {
        let code = feedback(g, s);
        lemma_feedback_prefix(g, s, (n - 1) as nat);
        let i = n - 1;
        assert(code[i] == crate::word::feedback_at(g, s, i));
        let prev = parse_prefix(g, code, (n - 1) as nat)->Ok_0;
        let ch = g[i];
        let c = if code[i] == HIT {
            Constraint::AtPos(i as usize, ch)
        } else if code[i] == crate::word::PRESENT {
            Constraint::NotAtPos(i as usize, ch)
        } else {
            Constraint::Absent(ch)
        };
        assert(holds_outright(c, s));
        lemma_push_outright(prev.0, c, s);
    }
}

/// What pushing a constraint does to a sequence of constraints.
proof fn lemma_push_outright(cs: Seq<Constraint>, c: Constraint, s: Seq<char>)
    ensures
        cs.push(c).len() == cs.len() + 1,
        cs.push(c)[cs.len() as int] == c,
        forall|k: int| 0 <= k < cs.len() ==> #[trigger] cs.push(c)[k] == cs[k],
{
}

/// The feedback that a word earns against itself is a hit at every position,
/// and the constraints read from it are those of a correct guess.
pub proof fn lemma_reflexive(w: Seq<char>)
    requires
        w.len() <= usize::MAX,
    ensures
        feedback(w, w) == Seq::new(w.len(), |i: int| HIT),
        match parse(w, feedback(w, w)) {
            Ok((cs, _)) => all_hits(cs),
            Err(_) => false,
        },
{
    assert(feedback(w, w) =~= Seq::new(w.len(), |i: int| HIT));
    lemma_feedback_prefix(w, w, w.len());
}

/// The constraints read from the feedback that guess `g` earns against the
/// secret `s` hold of `s`: the secret is never ruled out by its own feedback.
pub proof fn lemma_secret_survives(g: Seq<char>, s: Seq<char>)
    requires
        g.len() <= usize::MAX,
    ensures
        match parse(g, feedback(g, s)) {
            Ok((cs, present)) => satisfies(cs, present, s),
            Err(_) => false,
        },
{
    let n = feedback(g, s).len();
    lemma_feedback_prefix(g, s, n);
    match parse(g, feedback(g, s)) {
        Ok((cs, present)) => {
            assert forall|k: int| 0 <= k < cs.len() implies holds(#[trigger] cs[k], present, s) by {
                assert(holds_outright(cs[k], s));
            }
        },
        Err(_) => {},
    }
}

/// Filtering never adds words, and filtering twice by the same constraints
/// gives what filtering once gave.
pub proof fn lemma_filter_shrinks_and_settles(
    pool: Seq<Seq<char>>,
    cs: Seq<Constraint>,
    present: Seq<char>,
)
    ensures
        pool.filter(|w: Seq<char>| satisfies(cs, present, w)).len() <= pool.len(),
        pool.filter(|w: Seq<char>| satisfies(cs, present, w)).filter(
            |w: Seq<char>| satisfies(cs, present, w),
        ) == pool.filter(|w: Seq<char>| satisfies(cs, present, w)),
{
    let pred = |w: Seq<char>| satisfies(cs, present, w);
    pool.lemma_filter_len(pred);
    lemma_filter_idempotent(pool, pred);
}

/// Constraints that no word of `pool` meets filter the pool down to nothing.
pub proof fn lemma_contradiction_empties(pool: Seq<Seq<char>>, cs: Seq<Constraint>, present: Seq<char>)
    requires
        forall|i: int| 0 <= i < pool.len() ==> !satisfies(cs, present, #[trigger] pool[i]),
    ensures
        pool.filter(|w: Seq<char>| satisfies(cs, present, w)).len() == 0,
{
    let pred = |w: Seq<char>| satisfies(cs, present, w);
    let kept = pool.filter(pred);
    if kept.len() > 0 {
        pool.lemma_filter_pred(pred, 0);
        pool.lemma_filter_contains_rev(pred, kept[0]);
        let i = choose|i: int| 0 <= i < pool.len() && pool[i] == kept[0];
        assert(!satisfies(cs, present, pool[i]));
    }
}

/// Filtering twice by one predicate gives what filtering once gave.
proof fn lemma_filter_idempotent(pool: Seq<Seq<char>>, pred: spec_fn(Seq<char>) -> bool)
    ensures
        pool.filter(pred).filter(pred) == pool.filter(pred),
    decreases pool.len(),
{
    reveal(Seq::filter);
    if pool.len() > 0 {
        lemma_filter_idempotent(pool.drop_last(), pred);
        let sub = pool.drop_last().filter(pred);
        if pred(pool.last()) {
            assert(sub.push(pool.last()).drop_last() =~= sub);
        }
    }
}

/// Whether some pair of `a` has index `i`.
spec fn names_index(a: Seq<(usize, usize)>, i: int) -> bool {
    exists|k: int| 0 <= k < a.len() && #[trigger] a[k].0 == i
}

/// An order of `scores` names every index of `scores`.
proof fn lemma_orders_cover(scores: Seq<nat>, a: Seq<(usize, usize)>)
    requires
        orders(scores, a),
    ensures
        forall|i: int| 0 <= i < scores.len() ==> #[trigger] names_index(a, i),
{
    let n = scores.len();
    let ia = a.map_values(|p: (usize, usize)| p.0 as int);
    assert(ia.no_duplicates()) by {
        assert forall|k: int, l: int| 0 <= k < ia.len() && 0 <= l < ia.len() && k != l implies ia[k]
            != ia[l] by {
            if k < l {
                assert(ranks_before(a[k], a[l]));
            } else {
                assert(ranks_before(a[l], a[k]));
            }
        }
    }
    ia.unique_seq_to_set();
    vstd::set_lib::lemma_int_range(0, n as int);
    let range = vstd::set_lib::set_int_range(0, n as int);
    assert(ia.to_set().subset_of(range)) by {
        assert forall|x: int| ia.to_set().contains(x) implies range.contains(x) by {
            let k = choose|k: int| 0 <= k < ia.len() && ia[k] == x;
            assert(a[k].0 < n);
        }
    }
    vstd::set_lib::lemma_subset_equality(ia.to_set(), range);
    assert forall|i: int| 0 <= i < n implies #[trigger] names_index(a, i) by {
        assert(range.contains(i));
        assert(ia.to_set().contains(i));
        let k = choose|k: int| 0 <= k < ia.len() && ia[k] == i;
        assert(a[k].0 == i);
    }
}

/// Ranking is deterministic: there is only one way to order the indices of
/// `scores` by descending score, with equal scores in ascending index order.
pub proof fn lemma_ranking_unique(scores: Seq<nat>, a: Seq<(usize, usize)>, b: Seq<(usize, usize)>)
    requires
        orders(scores, a),
        orders(scores, b),
    ensures
        a == b,
{
    broadcast use vstd::seq_lib::to_multiset_contains;

    lemma_orders_cover(scores, a);
    lemma_orders_cover(scores, b);
    let leq = |x: (usize, usize), y: (usize, usize)| x == y || ranks_before(x, y);
    assert forall|x: (usize, usize)| a.contains(x) <==> b.contains(x) by {
        if a.contains(x) {
            let k = choose|k: int| 0 <= k < a.len() && a[k] == x;
            assert(names_index(b, a[k].0 as int));
            let m = choose|m: int| 0 <= m < b.len() && #[trigger] b[m].0 == a[k].0;
            assert(b[m] == x);
        }
        if b.contains(x) {
            let k = choose|k: int| 0 <= k < b.len() && b[k] == x;
            assert(names_index(a, b[k].0 as int));
            let m = choose|m: int| 0 <= m < a.len() && #[trigger] a[m].0 == b[k].0;
            assert(a[m] == x);
        }
    }
    assert(a.no_duplicates()) by {
        assert forall|k: int, l: int| 0 <= k < a.len() && 0 <= l < a.len() && k != l implies a[k]
            != a[l] by {
            if k < l {
                assert(ranks_before(a[k], a[l]));
            } else {
                assert(ranks_before(a[l], a[k]));
            }
        }
    }
    assert(b.no_duplicates()) by {
        assert forall|k: int, l: int| 0 <= k < b.len() && 0 <= l < b.len() && k != l implies b[k]
            != b[l] by {
            if k < l {
                assert(ranks_before(b[k], b[l]));
            } else {
                assert(ranks_before(b[l], b[k]));
            }
        }
    }
    a.lemma_multiset_has_no_duplicates();
    b.lemma_multiset_has_no_duplicates();
    assert(a.to_multiset() =~= b.to_multiset()) by {
        assert forall|x: (usize, usize)| a.to_multiset().count(x) == b.to_multiset().count(x) by {
            if a.contains(x) {
                assert(a.to_multiset().count(x) == 1);
                assert(b.to_multiset().count(x) == 1);
            } else {
                assert(a.to_multiset().count(x) == 0);
                assert(b.to_multiset().count(x) == 0);
            }
        }
    }
    assert(vstd::relations::sorted_by(a, leq));
    assert(vstd::relations::sorted_by(b, leq));
    assert(vstd::relations::total_ordering(leq));
    vstd::seq_lib::lemma_sorted_unique(a, b, leq);
}

} // verus!
