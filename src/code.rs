//! Variants of the scoring: feedback codes for both words of a pair, a count
//! of distinct codes by sorting, and the ranking built on that count.

use vstd::prelude::*;

use crate::word::{string_of, Word, HIT, PRESENT};
use crate::wordlist::{
    count_listed, count_sorted, order_by_score, orders, pool_scores, score, Wordlist,
};

verus! {

/// The miss symbol of the two-sided codes.
pub const BLANK: char = 'B';

/// The symbol that position `i` earns in the code of `a` against `b`, when the
/// two letters at `i` differ.
pub open spec fn side_symbol(a: Seq<char>, b: Seq<char>, i: int) -> char {
    if b.contains(a[i]) {
        PRESENT
    } else {
        BLANK
    }
}

/// The code of `a` against `b` in the two-sided alphabet, one symbol per
/// position that both words have.
pub open spec fn side_code(a: Seq<char>, b: Seq<char>) -> Seq<char> {
    let n = if a.len() <= b.len() { a.len() } else { b.len() };
    Seq::new(n, |i: int| if a[i] == b[i] { HIT } else { side_symbol(a, b, i) })
}

/// The codes that `a` earns against `b` and `b` against `a`, with `G` for a
/// hit, `Y` for a letter found elsewhere and `B` for a miss.
pub fn match_codes(a: &Word, b: &Word) -> (r: (String, String))
    ensures
        r.0@ == side_code(a@, b@),
        r.1@ == side_code(b@, a@),
{
    let n = if a.len() <= b.len() {
        a.len()
    } else {
        b.len()
    };
    let mut first: Vec<char> = Vec::new();
    let mut second: Vec<char> = Vec::new();
    let mut i: usize = 0;
    while i < n
        invariant
            n == side_code(a@, b@).len(),
            n == side_code(b@, a@).len(),
            n <= a@.len(),
            n <= b@.len(),
            i <= n,
            first@ == side_code(a@, b@).take(i as int),
            second@ == side_code(b@, a@).take(i as int),
        decreases n - i,
    {
        let c1 = a.char(i);
        let c2 = b.char(i);
        if c1 == c2 {
            first.push(HIT);
            second.push(HIT);
        } else {
            first.push(if b.contains(c1) { PRESENT } else { BLANK });
            second.push(if a.contains(c2) { PRESENT } else { BLANK });
        }
        i = i + 1;
        assert(first@ =~= side_code(a@, b@).take(i as int));
        assert(second@ =~= side_code(b@, a@).take(i as int));
    }
    assert(first@ =~= side_code(a@, b@));
    assert(second@ =~= side_code(b@, a@));
    (string_of(&first), string_of(&second))
}

/// The number of distinct colour codes that `word` earns as a guess against
/// the words of `wordlist`, counted in the sorted list of code numbers.
pub fn filter_potential(word: &Word, wordlist: &Wordlist) -> (r: usize)
    ensures
        r == score(word@, wordlist@),
{
    if word.len() <= 31 {
        count_sorted(word, wordlist)
    } else {
        count_listed(word, wordlist)
    }
}

/// Every word of the list with its `filter_potential` against the whole list,
/// higher scores first and, on equal scores, the earlier word first.
pub fn rank_words(wordlist: &Wordlist) -> (r: Vec<(Word, usize)>)
    ensures
        exists|order: Seq<(usize, usize)>|
            orders(pool_scores(wordlist@), order) && r@.len() == order.len() && forall|k: int|
                0 <= k < order.len() ==> (#[trigger] r@[k]).0@ == wordlist@[order[k].0 as int]
                    && r@[k].1 == order[k].1,
{
    let words = wordlist.iter();
    let ghost pool = wordlist@;
    let n = words.len();
    let mut scores: Vec<usize> = Vec::new();
    let mut i: usize = 0;
    while i < n
        invariant
            pool == wordlist@,
            words@.map_values(|w: Word| w@) == pool,
            n == pool.len(),
            i <= n,
            scores@.len() == i,
            forall|k: int| 0 <= k < i ==> #[trigger] scores@[k] == score(pool[k], pool),
        decreases n - i,
    {
        assert(words@[i as int]@ == pool[i as int]);
        scores.push(filter_potential(&words[i], wordlist));
        i = i + 1;
    }
    let order = order_by_score(&scores);
    assert(scores@.map_values(|s: usize| s as nat) =~= pool_scores(pool));
    let mut r: Vec<(Word, usize)> = Vec::new();
    let mut k: usize = 0;
    while k < order.len()
        invariant
            words@.map_values(|w: Word| w@) == pool,
            orders(pool_scores(pool), order@),
            k <= order@.len(),
            r@.len() == k,
            forall|j: int|
                0 <= j < k ==> (#[trigger] r@[j]).0@ == pool[order@[j].0 as int] && r@[j].1
                    == order@[j].1,
        decreases order@.len() - k,
    {
        let (index, s) = order[k];
        assert(index < pool.len()) by {
            assert(order@[k as int].0 < pool.len());
        }
        r.push((Word::from_chars(words[index].chars()), s));
        k = k + 1;
    }
    r
}

} // verus!
