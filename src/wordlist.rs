//! The pool of candidate words: filtering by a round's constraints, and
//! ranking by how finely each word would split the pool.

use itertools::Itertools;
use std::collections::HashSet;

use vstd::prelude::*;

use crate::constraint::{is_symbol, lowercase_of, satisfies, ConstraintSet};
use crate::constraint::to_lowercase;
use crate::word::{chars_of, feedback, Word, HIT, PRESENT};

verus! {

/// The distinct feedback codes that guess `g` can earn against the secrets in `pool`.
pub open spec fn codes(g: Seq<char>, pool: Seq<Seq<char>>) -> Set<Seq<char>> {
    pool.map_values(|t: Seq<char>| feedback(g, t)).to_set()
}

/// How many distinct feedback codes guess `g` can earn against the secrets in `pool`.
pub open spec fn score(g: Seq<char>, pool: Seq<Seq<char>>) -> nat {
    codes(g, pool).len()
}

/// The digit of a feedback symbol in the number of a code.
pub open spec fn digit(c: char) -> nat {
    if c == HIT {
        3
    } else if c == PRESENT {
        2
    } else {
        1
    }
}

/// The number of a feedback code: its digits in base 4, the first symbol
/// lowest. Digits start at 1, so codes of different lengths differ.
pub open spec fn code_number(code: Seq<char>) -> nat
    decreases code.len(),
{
    if code.len() == 0 {
        0
    } else {
        digit(code[0]) + 4 * code_number(code.drop_first())
    }
}

/// Four to the power `k`.
pub open spec fn pow4(k: nat) -> nat
    decreases k,
{
    if k == 0 {
        1
    } else {
        4 * pow4((k - 1) as nat)
    }
}

/// Whether every character of `code` is a feedback symbol.
pub open spec fn is_code(code: Seq<char>) -> bool {
    forall|i: int| 0 <= i < code.len() ==> is_symbol(#[trigger] code[i])
}

/// A code of `k` symbols has a number below `4^k`.
proof fn lemma_code_number_bound(code: Seq<char>)
    ensures
        code_number(code) < pow4(code.len()),
    decreases code.len(),
{
    if code.len() > 0 {
        lemma_code_number_bound(code.drop_first());
    }
}

/// Powers of four grow with the exponent.
proof fn lemma_pow4_grows(j: nat, k: nat)
    requires
        j <= k,
    ensures
        pow4(j) <= pow4(k),
    decreases k,
{
    if j < k {
        lemma_pow4_grows(j, (k - 1) as nat);
    }
}

/// Two feedback codes with the same number are the same code.
proof fn lemma_code_number_injective(a: Seq<char>, b: Seq<char>)
    requires
        is_code(a),
        is_code(b),
        code_number(a) == code_number(b),
    ensures
        a == b,
    decreases a.len(),
{
    if a.len() > 0 && b.len() > 0 {
        let d = digit(a[0]) as int;
        let e = digit(b[0]) as int;
        let y = code_number(a.drop_first()) as int;
        let z = code_number(b.drop_first()) as int;
        assert(d == e && y == z) by (nonlinear_arith)
            requires
                1 <= d <= 3,
                1 <= e <= 3,
                0 <= y,
                0 <= z,
                d + 4 * y == e + 4 * z,
        ;
        assert(is_symbol(a[0]) && is_symbol(b[0]));
        assert(a[0] == b[0]);
        assert(is_code(a.drop_first())) by {
            assert forall|i: int| 0 <= i < a.len() - 1 implies is_symbol(
                #[trigger] a.drop_first()[i],
            ) by {
                assert(is_symbol(a[i + 1]));
            }
        }
        assert(is_code(b.drop_first())) by {
            assert forall|i: int| 0 <= i < b.len() - 1 implies is_symbol(
                #[trigger] b.drop_first()[i],
            ) by {
                assert(is_symbol(b[i + 1]));
            }
        }
        lemma_code_number_injective(a.drop_first(), b.drop_first());
        assert(a =~= b.drop_first().insert(0, b[0]));
        assert(b =~= b.drop_first().insert(0, b[0]));
    }
}

/// The number of a feedback code of at most 31 symbols.
fn number_of(code: &Vec<char>) -> (r: u64)
    requires
        code@.len() <= 31,
    ensures
        r == code_number(code@),
{
    let n = code.len();
    let mut r: u64 = 0;
    let mut i: usize = n;
    proof {
        lemma_pow4_grows(n as nat, 31);
        reveal_with_fuel(pow4, 32);
    }
    while i > 0
        invariant
            n == code@.len(),
            n <= 31,
            i <= n,
            pow4(n as nat) <= pow4(31),
            pow4(31) == 4611686018427387904,
            r == code_number(code@.subrange(i as int, n as int)),
        decreases i,
    {
        i = i - 1;
        let c = code[i];
        let d: u64 = if c == HIT {
            3
        } else if c == PRESENT {
            2
        } else {
            1
        };
        proof {
            let rest = code@.subrange(i + 1, n as int);
            let now = code@.subrange(i as int, n as int);
            assert(now.drop_first() =~= rest);
            lemma_code_number_bound(now);
            lemma_pow4_grows((n - i) as nat, n as nat);
        }
        r = d + 4 * r;
    }
    assert(code@.subrange(0, n as int) =~= code@);
    r
}

/// Whether the pair `a` (an index into the pool and its score) comes before `b`
/// in a ranking: higher score first, and on equal scores the earlier word first.
pub open spec fn ranks_before(a: (usize, usize), b: (usize, usize)) -> bool {
    a.1 > b.1 || (a.1 == b.1 && a.0 < b.0)
}

/// Whether `order` lists every index of `scores` once, each with its score, in
/// `ranks_before` order.
pub open spec fn orders(scores: Seq<nat>, order: Seq<(usize, usize)>) -> bool {
    &&& order.len() == scores.len()
    &&& forall|k: int|
        0 <= k < order.len() ==> (#[trigger] order[k]).0 < scores.len() && order[k].1
            == scores[order[k].0 as int]
    &&& forall|k: int, l: int|
        0 <= k < l < order.len() ==> ranks_before(#[trigger] order[k], #[trigger] order[l])
}

/// The score of each word of `pool` against the whole pool.
pub open spec fn pool_scores(pool: Seq<Seq<char>>) -> Seq<nat> {
    Seq::new(pool.len(), |i: int| score(pool[i], pool))
}

/// Whether `order` ranks every word of `pool` once, each with its score
/// against the pool, in `ranks_before` order.
pub open spec fn is_ranking(pool: Seq<Seq<char>>, order: Seq<(usize, usize)>) -> bool {
    orders(pool_scores(pool), order)
}

/// The order of std's tuples: lexicographic.
pub open spec fn pair_le(a: (u64, u64), b: (u64, u64)) -> bool {
    a.0 < b.0 || (a.0 == b.0 && a.1 <= b.1)
}

/// Relies on `itertools::Itertools::sorted`: the same pairs, in ascending order.
#[verifier::external_body]
fn sorted_pairs(v: Vec<(u64, u64)>) -> (r: Vec<(u64, u64)>)
    ensures
        r@.to_multiset() == v@.to_multiset(),
        forall|i: int, j: int| 0 <= i < j < r@.len() ==> pair_le(#[trigger] r@[i], #[trigger] r@[j]),
{
    v.into_iter().sorted().collect()
}

/// Whether `c` separates the words of a word-list text.
pub open spec fn is_separator(c: char) -> bool {
    c == '\n' || c == '\r' || c == ' ' || c == '\t'
}

/// The words finished within the first `n` characters of `text`, and the
/// word still open after them.
pub open spec fn scan(text: Seq<char>, n: nat) -> (Seq<Seq<char>>, Seq<char>)
    decreases n,
{
    if n == 0 {
        (Seq::empty(), Seq::empty())
    } else {
        let (done, open) = scan(text, (n - 1) as nat);
        let c = text[n - 1];
        if !is_separator(c) {
            (done, open.push(c))
        } else if open.len() > 0 {
            (done.push(open), Seq::empty())
        } else {
            (done, open)
        }
    }
}

/// The words of `text`: its maximal runs of characters other than line
/// breaks, spaces and tabs, in order.
pub open spec fn words_of(text: Seq<char>) -> Seq<Seq<char>> {
    let (done, open) = scan(text, text.len());
    if open.len() > 0 {
        done.push(open)
    } else {
        done
    }
}

/// Whether `after` is `before` without its first copy of `w`, or `before`
/// itself where `w` does not occur.
pub open spec fn removes_first(before: Seq<Seq<char>>, w: Seq<char>, after: Seq<Seq<char>>) -> bool {
    &&& (forall|i: int| 0 <= i < before.len() ==> before[i] != w) ==> after == before
    &&& (exists|i: int| 0 <= i < before.len() && before[i] == w) ==> exists|i: int|
        0 <= i < before.len() && before[i] == w && (forall|j: int| 0 <= j < i ==> before[j] != w)
            && after == before.remove(i)
}

/// A list of candidate words.
pub struct Wordlist {
    words: Vec<Word>,
}

impl View for Wordlist {
    type V = Seq<Seq<char>>;

    closed spec fn view(&self) -> Seq<Seq<char>> {
        self.words@.map_values(|w: Word| w@)
    }
}

/// Whether the two character sequences are equal.
fn same_chars(a: &Vec<char>, b: &Vec<char>) -> (r: bool)
    ensures
        r == (a@ == b@),
{
    if a.len() != b.len() {
        return false;
    }
    let mut i: usize = 0;
    while i < a.len()
        invariant
            a@.len() == b@.len(),
            i <= a@.len(),
            forall|k: int| 0 <= k < i ==> a@[k] == b@[k],
        decreases a@.len() - i,
    {
        if a[i] != b[i] {
            return false;
        }
        i = i + 1;
    }
    assert(a@ =~= b@);
    true
}

/// Whether `code` is one of the codes in `seen`.
fn holds_code(seen: &Vec<Vec<char>>, code: &Vec<char>) -> (r: bool)
    ensures
        r == seen@.map_values(|v: Vec<char>| v@).contains(code@),
{
    let ghost views = seen@.map_values(|v: Vec<char>| v@);
    let mut i: usize = 0;
    while i < seen.len()
        invariant
            views == seen@.map_values(|v: Vec<char>| v@),
            i <= seen@.len(),
            forall|k: int| 0 <= k < i ==> views[k] != code@,
        decreases seen@.len() - i,
    {
        if same_chars(&seen[i], code) {
            assert(views[i as int] == code@);
            return true;
        }
        i = i + 1;
    }
    false
}

/// Whether `a` and `b` are the same word.
fn same_word(a: &Word, b: &Word) -> (r: bool)
    ensures
        r == (a@ == b@),
{
    same_chars(&a.chars(), &b.chars())
}

/// Every index of `scores` with its score: higher scores first, and on equal
/// scores the lower index first.
pub(crate) fn order_by_score(scores: &Vec<usize>) -> (r: Vec<(usize, usize)>)
    ensures
        orders(scores@.map_values(|s: usize| s as nat), r@),
{
    let ghost sc = scores@.map_values(|s: usize| s as nat);
    let n = scores.len();
    let mut keyed: Vec<(u64, u64)> = Vec::new();
    let mut i: usize = 0;
    while i < n
        invariant
            n == scores@.len(),
            i <= n,
            keyed@.len() == i,
            forall|k: int|
                0 <= k < i ==> #[trigger] keyed@[k] == ((u64::MAX - scores@[k]) as u64, k as u64),
        decreases n - i,
    {
        keyed.push((u64::MAX - scores[i] as u64, i as u64));
        i = i + 1;
    }
    let ghost keys = keyed@;
    let sorted = sorted_pairs(keyed);
    proof {
        broadcast use vstd::seq_lib::to_multiset_len, vstd::seq_lib::to_multiset_contains;

        assert(keys.no_duplicates()) by {
            assert forall|a: int, b: int| 0 <= a < keys.len() && 0 <= b < keys.len() && a
                != b implies keys[a] != keys[b] by {
                assert(keys[a].1 == a);
                assert(keys[b].1 == b);
            }
        }
        keys.lemma_multiset_has_no_duplicates();
        sorted@.lemma_multiset_has_no_duplicates_conv();
        assert(sorted@.len() == keys.len()) by {
            assert(sorted@.to_multiset().len() == keys.to_multiset().len());
        }
        assert forall|k: int| 0 <= k < sorted@.len() implies keys.contains(
            #[trigger] sorted@[k],
        ) by {
            assert(sorted@.to_multiset().count(sorted@[k]) > 0);
        }
    }
    let mut order: Vec<(usize, usize)> = Vec::new();
    let mut k: usize = 0;
    while k < sorted.len()
        invariant
            n == scores@.len(),
            sorted@.len() == n,
            forall|j: int| 0 <= j < n ==> keys.contains(#[trigger] sorted@[j]),
            forall|j: int|
                0 <= j < n ==> #[trigger] keys[j] == ((u64::MAX - scores@[j]) as u64, j as u64),
            keys.len() == n,
            k <= n,
            order@.len() == k,
            forall|j: int|
                0 <= j < k ==> #[trigger] order@[j] == (
                    sorted@[j].1 as usize,
                    (u64::MAX - sorted@[j].0) as usize,
                ),
        decreases n - k,
    {
        order.push((sorted[k].1 as usize, (u64::MAX - sorted[k].0) as usize));
        k = k + 1;
    }
    proof {
        assert forall|j: int| 0 <= j < n implies (#[trigger] order@[j]).0 < n && order@[j].1
            == sc[order@[j].0 as int] by {
            assert(keys.contains(sorted@[j]));
            let m = choose|m: int| 0 <= m < keys.len() && keys[m] == sorted@[j];
            assert(keys[m] == sorted@[j]);
        }
        assert forall|a: int, b: int| 0 <= a < b < n implies ranks_before(
            #[trigger] order@[a],
            #[trigger] order@[b],
        ) by {
            assert(pair_le(sorted@[a], sorted@[b]));
            assert(sorted@[a] != sorted@[b]);
            assert(keys.contains(sorted@[a]));
            assert(keys.contains(sorted@[b]));
            let ma = choose|m: int| 0 <= m < keys.len() && keys[m] == sorted@[a];
            let mb = choose|m: int| 0 <= m < keys.len() && keys[m] == sorted@[b];
            assert(keys[ma] == sorted@[a]);
            assert(keys[mb] == sorted@[b]);
        }
    }
    order
}

impl Wordlist {
    /// The list of the given words, in order.
    pub fn from_words(words: Vec<Word>) -> (r: Wordlist)
        ensures
            r@ == words@.map_values(|w: Word| w@),
    {
        Wordlist { words }
    }

    /// The list of the words of `text`, one per line, as they stand.
    pub fn from_text(text: &str) -> (r: Wordlist)
        ensures
            r@ == words_of(text@),
    {
        let chars = chars_of(text);
        let mut words: Vec<Word> = Vec::new();
        let mut open: Vec<char> = Vec::new();
        let mut i: usize = 0;
        while i < chars.len()
            invariant
                chars@ == text@,
                i <= chars@.len(),
                scan(text@, i as nat) == (words@.map_values(|w: Word| w@), open@),
            decreases chars@.len() - i,
        {
            let c = chars[i];
            let ghost done = words@.map_values(|w: Word| w@);
            if !(c == '\n' || c == '\r' || c == ' ' || c == '\t') {
                open.push(c);
            } else if open.len() > 0 {
                let ghost finished = open@;
                words.push(Word::from_chars(open));
                open = Vec::new();
                assert(words@.map_values(|w: Word| w@) =~= done.push(finished));
                assert(open@ =~= Seq::<char>::empty());
            }
            i = i + 1;
        }
        let ghost done = words@.map_values(|w: Word| w@);
        if open.len() > 0 {
            let ghost last = open@;
            words.push(Word::from_chars(open));
            assert(words@.map_values(|w: Word| w@) =~= done.push(last));
        }
        Wordlist { words }
    }

    /// The list of the words of `text`, one per line, in lower case.
    pub fn load(text: &str) -> (r: Wordlist)
        ensures
            r@ == words_of(lowercase_of(text@)),
    {
        let lower = to_lowercase(text);
        Wordlist::from_text(lower.as_str())
    }

    /// A copy of the list.
    pub fn duplicate(&self) -> (r: Wordlist)
        ensures
            r@ == self@,
    {
        let mut words: Vec<Word> = Vec::new();
        let mut i: usize = 0;
        while i < self.words.len()
            invariant
                i <= self@.len(),
                words@.map_values(|w: Word| w@) == self@.take(i as int),
            decreases self@.len() - i,
        {
            let ghost before = words@.map_values(|w: Word| w@);
            assert(self.words@[i as int]@ == self@[i as int]);
            words.push(Word::from_chars(self.words[i].chars()));
            assert(words@.map_values(|w: Word| w@) =~= before.push(self@[i as int]));
            assert(self@.take(i + 1) =~= self@.take(i as int).push(self@[i as int]));
            i = i + 1;
        }
        assert(self@.take(self@.len() as int) =~= self@);
        Wordlist { words }
    }

    /// Returns the number of words in the list.
    pub fn len(&self) -> (r: usize)
        ensures
            r == self@.len(),
    {
        self.words.len()
    }

    /// Returns `true` if no words are in the list.
    pub fn is_empty(&self) -> (r: bool)
        ensures
            r == (self@.len() == 0),
    {
        self.words.len() == 0
    }

    /// The words of the list, in order.
    pub fn iter(&self) -> (r: &[Word])
        ensures
            r@.map_values(|w: Word| w@) == self@,
    {
        self.words.as_slice()
    }

    /// The words of the list that meet every constraint of `constraints`, in
    /// their order in the list.
    pub fn filter(self, constraints: &ConstraintSet) -> (r: Wordlist)
        ensures
            r@ == self@.filter(|w: Seq<char>| satisfies(constraints@.0, constraints@.1, w)),
    {
        let ghost pred = |w: Seq<char>| satisfies(constraints@.0, constraints@.1, w);
        let ghost pool = self@;
        let mut kept: Vec<Word> = Vec::new();
        let mut i: usize = 0;
        while i < self.words.len()
            invariant
                pool == self@,
                pred == (|w: Seq<char>| satisfies(constraints@.0, constraints@.1, w)),
                i <= pool.len(),
                kept@.map_values(|w: Word| w@) == pool.take(i as int).filter(pred),
            decreases pool.len() - i,
        {
            let ghost before = kept@.map_values(|w: Word| w@);
            proof {
                reveal(Seq::filter);
            }
            assert(pool.take(i + 1).drop_last() =~= pool.take(i as int));
            assert(pool.take(i + 1).last() == pool[i as int]);
            assert(self.words@[i as int]@ == pool[i as int]);
            if constraints.is_match(&self.words[i]) {
                let w = Word::from_chars(self.words[i].chars());
                kept.push(w);
                assert(kept@.map_values(|w: Word| w@) =~= before.push(pool[i as int]));
            }
            assert(kept@.map_values(|w: Word| w@) == pool.take(i + 1).filter(pred));
            i = i + 1;
        }
        assert(pool.take(pool.len() as int) =~= pool);
        Wordlist { words: kept }
    }

    /// Removes the first word of the list that equals `word`, if there is one.
    pub fn remove(&mut self, word: &str)
        ensures
            removes_first(old(self)@, word@, final(self)@),
    {
        let target = Word::new(word);
        let mut i: usize = 0;
        while i < self.words.len()
            invariant
                self@ == old(self)@,
                target@ == word@,
                i <= self@.len(),
                forall|j: int| 0 <= j < i ==> self@[j] != word@,
            decreases self@.len() - i,
        {
            if same_word(&self.words[i], &target) {
                assert(old(self)@[i as int] == word@);
                self.words.remove(i);
                assert(self@ =~= old(self)@.remove(i as int));
                return;
            }
            i = i + 1;
        }
    }

    /// Every word of the list with its `filter_potential`, as pairs of an index
    /// into the list and a score: higher scores first, and on equal scores the
    /// earlier word first.
    pub fn ranking(&self) -> (r: Vec<(usize, usize)>)
        ensures
            is_ranking(self@, r@),
    {
        let n = self.words.len();
        let mut scores: Vec<usize> = Vec::new();
        let mut i: usize = 0;
        while i < n
            invariant
                n == self@.len(),
                i <= n,
                scores@.len() == i,
                forall|k: int| 0 <= k < i ==> #[trigger] scores@[k] == score(self@[k], self@),
            decreases n - i,
        {
            scores.push(self.words[i].filter_potential(self));
            i = i + 1;
        }
        let r = order_by_score(&scores);
        assert(scores@.map_values(|s: usize| s as nat) =~= pool_scores(self@));
        r
    }

    /// Every word of the list with its `filter_potential`, sorted by score in
    /// descending order; words with equal scores keep their order in the list.
    pub fn rank_words(&self) -> (r: Vec<(Word, usize)>)
        ensures
            exists|order: Seq<(usize, usize)>|
                is_ranking(self@, order) && r@.len() == order.len() && forall|k: int|
                    0 <= k < order.len() ==> (#[trigger] r@[k]).0@ == self@[order[k].0 as int]
                        && r@[k].1 == order[k].1,
    {
        let order = self.ranking();
        let mut r: Vec<(Word, usize)> = Vec::new();
        let mut k: usize = 0;
        while k < order.len()
            invariant
                is_ranking(self@, order@),
                k <= order@.len(),
                r@.len() == k,
                forall|j: int|
                    0 <= j < k ==> (#[trigger] r@[j]).0@ == self@[order@[j].0 as int] && r@[j].1
                        == order@[j].1,
            decreases order@.len() - k,
        {
            let (index, score) = order[k];
            assert(index < self@.len()) by {
                assert(order@[k as int].0 < self@.len());
            }
            r.push((Word::from_chars(self.words[index].chars()), score));
            k = k + 1;
        }
        r
    }
}

/// A feedback code is made of feedback symbols, one per letter of the guess at most.
proof fn lemma_feedback_is_code(g: Seq<char>, t: Seq<char>)
    ensures
        is_code(feedback(g, t)),
        feedback(g, t).len() <= g.len(),
{
    assert forall|i: int| 0 <= i < feedback(g, t).len() implies is_symbol(
        #[trigger] feedback(g, t)[i],
    ) by {
        assert(feedback(g, t)[i] == crate::word::feedback_at(g, t, i));
    }
}

/// Two codes that guess `g` earns against words of `pool` are equal when
/// their numbers, as `u64`, are.
proof fn lemma_codes_numbered(g: Seq<char>, pool: Seq<Seq<char>>, a: Seq<char>, b: Seq<char>)
    requires
        g.len() <= 31,
        codes(g, pool).contains(a),
        codes(g, pool).contains(b),
        code_number(a) as u64 == code_number(b) as u64,
    ensures
        a == b,
{
    let f = |t: Seq<char>| feedback(g, t);
    let ja = choose|j: int| 0 <= j < pool.map_values(f).len() && pool.map_values(f)[j] == a;
    let jb = choose|j: int| 0 <= j < pool.map_values(f).len() && pool.map_values(f)[j] == b;
    lemma_feedback_is_code(g, pool[ja]);
    lemma_feedback_is_code(g, pool[jb]);
    lemma_code_number_bound(a);
    lemma_code_number_bound(b);
    lemma_pow4_grows(a.len(), 31);
    lemma_pow4_grows(b.len(), 31);
    reveal_with_fuel(pow4, 32);
    assert(pow4(31) == 4611686018427387904);
    lemma_code_number_injective(a, b);
}

/// The number of distinct pairs in `s`, which is sorted: a pair counts where
/// it differs from the one before it.
fn count_distinct_sorted(s: &Vec<(u64, u64)>) -> (r: usize)
    requires
        forall|i: int, j: int| 0 <= i < j < s@.len() ==> pair_le(#[trigger] s@[i], #[trigger] s@[j]),
    ensures
        r == s@.to_set().len(),
{
    broadcast use vstd::seq_lib::seq_to_set_is_finite;

    let mut count: usize = 0;
    let mut i: usize = 0;
    proof {
        assert(s@.take(0).to_set() =~= Set::<(u64, u64)>::empty());
    }
    while i < s.len()
        invariant
            i <= s@.len(),
            forall|a: int, b: int| 0 <= a < b < s@.len() ==> pair_le(#[trigger] s@[a], #[trigger] s@[b]),
            count == s@.take(i as int).to_set().len(),
            count <= i,
        decreases s@.len() - i,
    {
        let ghost prefix = s@.take(i as int);
        proof {
            assert(s@.take(i + 1).to_set() =~= prefix.to_set().insert(s@[i as int])) by {
                assert forall|x: (u64, u64)| s@.take(i + 1).to_set().contains(x) implies prefix.to_set().insert(
                    s@[i as int],
                ).contains(x) by {
                    let j = choose|j: int| 0 <= j < i + 1 && #[trigger] s@.take(i + 1)[j] == x;
                    if j < i {
                        assert(prefix[j] == x);
                    }
                }
                assert forall|x: (u64, u64)| prefix.to_set().insert(s@[i as int]).contains(
                    x,
                ) implies s@.take(i + 1).to_set().contains(x) by {
                    if x == s@[i as int] {
                        assert(s@.take(i + 1)[i as int] == x);
                    } else {
                        let j = choose|j: int| 0 <= j < i && #[trigger] prefix[j] == x;
                        assert(s@.take(i + 1)[j] == x);
                    }
                }
            }
        }
        if i == 0 || s[i].0 != s[i - 1].0 || s[i].1 != s[i - 1].1 {
            proof {
                assert(!prefix.to_set().contains(s@[i as int])) by {
                    if prefix.to_set().contains(s@[i as int]) {
                        let j = choose|j: int| 0 <= j < i && #[trigger] prefix[j] == s@[i as int];
                        assert(pair_le(s@[j], s@[i - 1]));
                        assert(pair_le(s@[i - 1], s@[i as int]));
                    }
                }
            }
            count = count + 1;
        } else {
            proof {
                assert(prefix[i - 1] == s@[i as int]);
                assert(prefix.to_set().contains(s@[i as int]));
            }
        }
        i = i + 1;
    }
    assert(s@.take(s@.len() as int) =~= s@);
    count
}

/// The number of distinct colour codes that `g` earns against the words of
/// `wordlist`, counted in the sorted list of their code numbers.
pub(crate) fn count_sorted(g: &Word, wordlist: &Wordlist) -> (r: usize)
    requires
        g@.len() <= 31,
    ensures
        r == score(g@, wordlist@),
{
    broadcast use vstd::seq_lib::to_multiset_contains;

    let ghost pool = wordlist@;
    let ghost f = |t: Seq<char>| feedback(g@, t);
    let ghost key = |c: Seq<char>| (code_number(c) as u64, 0u64);
    let mut keyed: Vec<(u64, u64)> = Vec::new();
    let mut i: usize = 0;
    while i < wordlist.words.len()
        invariant
            pool == wordlist@,
            f == (|t: Seq<char>| feedback(g@, t)),
            key == (|c: Seq<char>| (code_number(c) as u64, 0u64)),
            g@.len() <= 31,
            i <= pool.len(),
            keyed@ == pool.take(i as int).map_values(f).map_values(key),
        decreases pool.len() - i,
    {
        let code = g.code(&wordlist.words[i]);
        proof {
            lemma_feedback_is_code(g@, pool[i as int]);
        }
        let k = number_of(&code);
        keyed.push((k, 0));
        assert(keyed@ =~= pool.take(i + 1).map_values(f).map_values(key));
        i = i + 1;
    }
    let ghost keys = keyed@;
    let sorted = sorted_pairs(keyed);
    let r = count_distinct_sorted(&sorted);
    proof {
        let all = pool.map_values(f);
        assert(pool.take(pool.len() as int) =~= pool);
        assert(sorted@.to_set() =~= keys.to_set()) by {
            assert forall|x: (u64, u64)| sorted@.to_set().contains(x) <==> keys.to_set().contains(x) by {
                assert(sorted@.to_multiset().count(x) == keys.to_multiset().count(x));
            }
        }
        all.lemma_to_set_map_commutes(key);
        assert forall|a: Seq<char>, b: Seq<char>|
            all.to_set().contains(a) && all.to_set().contains(b) && #[trigger] key(a) == #[trigger] key(b) implies a
            == b by {
            lemma_codes_numbered(g@, pool, a, b);
        }
        assert(vstd::relations::injective_on(key, all.to_set()));
        vstd::set_lib::lemma_map_size(all.to_set(), keys.to_set(), key);
    }
    r
}

/// The number of distinct colour codes that `g` earns against the words of
/// `wordlist`, counted as code numbers in a hash set.
fn count_numbered(g: &Word, wordlist: &Wordlist) -> (r: usize)
    requires
        g@.len() <= 31,
    ensures
        r == score(g@, wordlist@),
{
    broadcast use vstd::std_specs::hash::group_hash_axioms;

    let ghost pool = wordlist@;
    let ghost f = |t: Seq<char>| feedback(g@, t);
    let ghost num = |c: Seq<char>| code_number(c) as u64;
    let mut seen: HashSet<u64> = HashSet::new();
    let mut i: usize = 0;
    proof {
        assert(pool.take(0).map_values(f).to_set() =~= Set::<Seq<char>>::empty());
        assert(Set::<Seq<char>>::empty().map(num) =~= Set::<u64>::empty());
    }
    while i < wordlist.words.len()
        invariant
            pool == wordlist@,
            f == (|t: Seq<char>| feedback(g@, t)),
            num == (|c: Seq<char>| code_number(c) as u64),
            g@.len() <= 31,
            i <= pool.len(),
            seen@ == pool.take(i as int).map_values(f).to_set().map(num),
        decreases pool.len() - i,
    {
        let code = g.code(&wordlist.words[i]);
        proof {
            lemma_feedback_is_code(g@, pool[i as int]);
        }
        let k = number_of(&code);
        let ghost before = seen@;
        seen.insert(k);
        proof {
            let old_codes = pool.take(i as int).map_values(f);
            let new_codes = pool.take(i + 1).map_values(f);
            assert(code@ == f(pool[i as int]));
            assert(new_codes =~= old_codes.push(f(pool[i as int])));
            assert(new_codes.to_set() =~= old_codes.to_set().insert(code@)) by {
                assert forall|c: Seq<char>| new_codes.contains(c) implies old_codes.to_set().insert(
                    code@,
                ).contains(c) by {
                    let j = choose|j: int| 0 <= j < new_codes.len() && #[trigger] new_codes[j] == c;
                    if j < i {
                        assert(old_codes[j] == c);
                    }
                }
                assert forall|c: Seq<char>| old_codes.to_set().insert(code@).contains(
                    c,
                ) implies new_codes.contains(c) by {
                    if c == code@ {
                        assert(new_codes[i as int] == c);
                    } else {
                        let j = choose|j: int| 0 <= j < old_codes.len() && #[trigger] old_codes[j] == c;
                        assert(new_codes[j] == c);
                    }
                }
            }
            assert(seen@ =~= new_codes.to_set().map(num)) by {
                assert forall|x: u64| seen@.contains(x) implies new_codes.to_set().map(num).contains(x) by {
                    if x == k {
                        assert(new_codes.to_set().contains(code@));
                        assert(num(code@) == x);
                    } else {
                        assert(before.contains(x));
                        let c = choose|c: Seq<char>| old_codes.to_set().contains(c) && num(c) == x;
                        assert(new_codes.to_set().contains(c));
                    }
                }
                assert forall|x: u64| new_codes.to_set().map(num).contains(x) implies seen@.contains(x) by {
                    let c = choose|c: Seq<char>| new_codes.to_set().contains(c) && num(c) == x;
                    if c == code@ {
                        assert(x == k);
                    } else {
                        assert(old_codes.to_set().contains(c));
                        assert(before.contains(x));
                    }
                }
            }
        }
        i = i + 1;
    }
    proof {
        let all = pool.map_values(f).to_set();
        assert(pool.take(pool.len() as int) =~= pool);
        assert forall|a: Seq<char>, b: Seq<char>|
            all.contains(a) && all.contains(b) && #[trigger] num(a) == #[trigger] num(b) implies a == b by {
            let ja = choose|j: int| 0 <= j < pool.map_values(f).len() && pool.map_values(f)[j] == a;
            let jb = choose|j: int| 0 <= j < pool.map_values(f).len() && pool.map_values(f)[j] == b;
            lemma_feedback_is_code(g@, pool[ja]);
            lemma_feedback_is_code(g@, pool[jb]);
            lemma_code_number_bound(a);
            lemma_code_number_bound(b);
            lemma_pow4_grows(a.len(), 31);
            lemma_pow4_grows(b.len(), 31);
            reveal_with_fuel(pow4, 32);
            assert(pow4(31) == 4611686018427387904);
            lemma_code_number_injective(a, b);
        }
        assert(vstd::relations::injective_on(num, all));
        vstd::set_lib::lemma_map_size(all, seen@, num);
    }
    seen.len()
}

impl Word {
    /// The number of distinct colour codes that this word earns as a guess
    /// against the words of `wordlist`.
    pub fn filter_potential(&self, wordlist: &Wordlist) -> (r: usize)
        ensures
            r == score(self@, wordlist@),
    {
        if self.len() <= 31 {
            count_numbered(self, wordlist)
        } else {
            count_listed(self, wordlist)
        }
    }
}

/// The number of distinct colour codes that `g` earns against the words of
/// `wordlist`, counted by keeping a list of the codes seen.
pub(crate) fn count_listed(g: &Word, wordlist: &Wordlist) -> (r: usize)
    ensures
        r == score(g@, wordlist@),
{
    let ghost pool = wordlist@;
    let ghost f = |t: Seq<char>| feedback(g@, t);
    let mut seen: Vec<Vec<char>> = Vec::new();
    let mut i: usize = 0;
    while i < wordlist.words.len()
        invariant
            pool == wordlist@,
            f == (|t: Seq<char>| feedback(g@, t)),
            i <= pool.len(),
            seen@.map_values(|v: Vec<char>| v@).no_duplicates(),
            seen@.map_values(|v: Vec<char>| v@).to_set() == pool.take(i as int).map_values(
                f,
            ).to_set(),
        decreases pool.len() - i,
    {
        let ghost before = seen@.map_values(|v: Vec<char>| v@);
        let code = g.code(&wordlist.words[i]);
        assert(code@ == f(pool[i as int]));
        if !holds_code(&seen, &code) {
            seen.push(code);
            assert(seen@.map_values(|v: Vec<char>| v@) =~= before.push(code@));
        }
        proof {
            let now = seen@.map_values(|v: Vec<char>| v@);
            assert(pool.take(i + 1).map_values(f) =~= pool.take(i as int).map_values(f).push(
                f(pool[i as int]),
            ));
            assert(now.to_set() =~= pool.take(i + 1).map_values(f).to_set()) by {
                assert forall|c: Seq<char>| now.contains(c) implies pool.take(
                    i + 1,
                ).map_values(f).contains(c) by {
                    let k = choose|k: int| 0 <= k < now.len() && #[trigger] now[k] == c;
                    if k < before.len() {
                        assert(before.contains(c));
                        assert(pool.take(i as int).map_values(f).to_set().contains(c));
                        let j = choose|j: int|
                            0 <= j < i && #[trigger] pool.take(i as int).map_values(f)[j]
                                == c;
                        assert(pool.take(i + 1).map_values(f)[j] == c);
                    } else {
                        assert(pool.take(i + 1).map_values(f)[i as int] == c);
                    }
                }
                assert forall|c: Seq<char>| pool.take(i + 1).map_values(f).contains(
                    c,
                ) implies now.contains(c) by {
                    let j = choose|j: int|
                        0 <= j < i + 1 && #[trigger] pool.take(i + 1).map_values(f)[j] == c;
                    if j < i {
                        assert(pool.take(i as int).map_values(f)[j] == c);
                        assert(pool.take(i as int).map_values(f).to_set().contains(c));
                        assert(before.contains(c));
                        let k = choose|k: int| 0 <= k < before.len() && #[trigger] before[k] == c;
                        assert(now[k] == c);
                    } else if before.contains(c) {
                        let k = choose|k: int| 0 <= k < before.len() && #[trigger] before[k] == c;
                        assert(now[k] == c);
                    } else {
                        assert(now[before.len() as int] == c);
                    }
                }
            }
        }
        i = i + 1;
    }
    proof {
        let views = seen@.map_values(|v: Vec<char>| v@);
        assert(pool.take(pool.len() as int) =~= pool);
        views.unique_seq_to_set();
    }
    seen.len()
}

} // verus!
