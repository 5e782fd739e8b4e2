//! The decisions of a game round: whether the game is won, lost, stuck, or
//! goes on, and what is left of the pool.

use vstd::prelude::*;

use crate::constraint::{all_hits, satisfies, ConstraintSet};
use crate::laws::{lemma_ranking_unique, lemma_secret_survives};
use crate::constraint::parse;
use crate::word::{feedback, Word};
use crate::wordlist::{is_ranking, pool_scores, removes_first, Wordlist};

verus! {

/// Length of the word to be guessed.
pub const WORD_LEN: usize = 5;

/// Number of rounds in a game.
pub const ROUND_NUM: usize = 6;

/// Where a game stands after a round.
#[derive(Debug, Clone, Copy, PartialEq, Eq)]
pub enum Outcome {
    /// The guess was right.
    Won,
    /// The last round is over and more than one word is left.
    Lost,
    /// No word of the pool fits the feedback given.
    NoCandidates,
    /// The game goes on with the remaining pool.
    Continue,
}

/// Applies a round's feedback: a correct guess wins; otherwise the pool keeps
/// the words that fit, without the guess itself, and the game is lost when
/// `round` was the last of `rounds` with more than one word left, stuck when
/// none is left, and goes on otherwise.
pub fn after_feedback(
    pool: Wordlist,
    guess: &str,
    constraints: &ConstraintSet,
    round: usize,
    rounds: usize,
) -> (r: (Wordlist, Outcome))
    ensures
        all_hits(constraints@.0) ==> r.0@ == pool@ && r.1 == Outcome::Won,
        !all_hits(constraints@.0) ==> removes_first(
            pool@.filter(|w: Seq<char>| satisfies(constraints@.0, constraints@.1, w)),
            guess@,
            r.0@,
        ),
        !all_hits(constraints@.0) ==> r.1 == (if r.0@.len() > 1 && round == rounds {
            Outcome::Lost
        } else if r.0@.len() == 0 {
            Outcome::NoCandidates
        } else {
            Outcome::Continue
        }),
{
    if constraints.correct_word() {
        return (pool, Outcome::Won);
    }
    let mut rest = pool.filter(constraints);
    rest.remove(guess);
    let outcome = if rest.len() > 1 && round == rounds {
        Outcome::Lost
    } else if rest.is_empty() {
        Outcome::NoCandidates
    } else {
        Outcome::Continue
    };
    (rest, outcome)
}

/// `s` without its first copy of `w`, or `s` itself where `w` does not occur.
pub open spec fn without_first(s: Seq<Seq<char>>, w: Seq<char>) -> Seq<Seq<char>> {
    if exists|i: int| 0 <= i < s.len() && s[i] == w {
        let i = choose|i: int|
            0 <= i < s.len() && s[i] == w && forall|j: int| 0 <= j < i ==> s[j] != w;
        s.remove(i)
    } else {
        s
    }
}

/// `removes_first` has one outcome: `without_first`.
proof fn lemma_without_first(s: Seq<Seq<char>>, w: Seq<char>, t: Seq<Seq<char>>)
    requires
        removes_first(s, w, t),
    ensures
        t == without_first(s, w),
{
    if exists|i: int| 0 <= i < s.len() && s[i] == w {
        let i = choose|i: int|
            0 <= i < s.len() && s[i] == w && (forall|j: int| 0 <= j < i ==> s[j] != w) && t
                == s.remove(i);
        let k = choose|k: int|
            0 <= k < s.len() && s[k] == w && forall|j: int| 0 <= j < k ==> s[j] != w;
        if k < i {
            assert(s[k] != w);
        } else if i < k {
            assert(s[i] != w);
        }
    }
}

/// The top-ranked word of `pool`.
pub open spec fn top_word(pool: Seq<Seq<char>>) -> Seq<char> {
    let order = choose|order: Seq<(usize, usize)>| is_ranking(pool, order);
    pool[order[0].0 as int]
}

/// The round in which a game without a player is won, given the pool after
/// `played` rounds: see `simulate`.
pub open spec fn simulated(
    pool: Seq<Seq<char>>,
    start: Seq<char>,
    target: Seq<char>,
    played: nat,
    rounds: nat,
) -> Option<nat>
    decreases rounds - played,
{
    if played >= rounds {
        None
    } else if played > 0 && pool.len() == 0 {
        None
    } else if pool.len() == 1 {
        Some(played + 1)
    } else {
        let guess = if played == 0 { start } else { top_word(pool) };
        match parse(guess, feedback(guess, target)) {
            Err(_) => None,
            Ok((cs, present)) => {
                if all_hits(cs) {
                    Some(played + 1)
                } else {
                    let rest = without_first(
                        pool.filter(|w: Seq<char>| satisfies(cs, present, w)),
                        guess,
                    );
                    if rest.len() > 1 && played + 1 == rounds {
                        None
                    } else {
                        simulated(rest, start, target, played + 1, rounds)
                    }
                }
            },
        }
    }
}

/// Plays a game without a player: the first guess is `start`, each later one
/// the top-ranked word of the pool, and the feedback is computed against
/// `target`. Returns the round in which the game was won, if it was won
/// within `rounds` rounds; a pool that runs empty loses.
pub fn simulate(wordlist: &Wordlist, start: &Word, target: &Word, rounds: usize) -> (r: Option<usize>)
    ensures
        r matches Some(i) ==> 1 <= i <= rounds,
        r matches Some(i) ==> simulated(wordlist@, start@, target@, 0, rounds as nat) == Some(
            i as nat,
        ),
        r is None ==> simulated(wordlist@, start@, target@, 0, rounds as nat) is None,
{
    let ghost expected = simulated(wordlist@, start@, target@, 0, rounds as nat);
    let mut pool = wordlist.duplicate();
    let mut played: usize = 0;
    while played < rounds
        invariant
            played <= rounds,
            expected == simulated(wordlist@, start@, target@, 0, rounds as nat),
            expected == simulated(pool@, start@, target@, played as nat, rounds as nat),
        decreases rounds - played,
    {
        let i = played + 1;
        if played > 0 && pool.len() == 0 {
            return None;
        }
        if pool.len() == 1 {
            return Some(i);
        }
        let guess = if played == 0 {
            Word::from_chars(start.chars())
        } else {
            let order = pool.ranking();
            proof {
                let chosen = choose|order: Seq<(usize, usize)>| is_ranking(pool@, order);
                lemma_ranking_unique(pool_scores(pool@), order@, chosen);
            }
            let top = &pool.iter()[order[0].0];
            Word::from_chars(top.chars())
        };
        // A word's length fits in `usize`; the proof below needs that fact.
        let _guess_len = guess.len();
        let text = crate::word::string_of(&guess.chars());
        let code = guess.match_code(target);
        proof {
            lemma_secret_survives(guess@, target@);
        }
        let constraints = match ConstraintSet::from_feedback(text.as_str(), code.as_str()) {
            Ok(cs) => cs,
            Err(_) => {
                return None;
            },
        };
        let ghost before = pool@;
        let (rest, outcome) = after_feedback(pool, text.as_str(), &constraints, i, rounds);
        proof {
            if !all_hits(constraints@.0) {
                lemma_without_first(
                    before.filter(|w: Seq<char>| satisfies(constraints@.0, constraints@.1, w)),
                    guess@,
                    rest@,
                );
            }
        }
        match outcome {
            Outcome::Won => {
                return Some(i);
            },
            Outcome::Lost => {
                return None;
            },
            _ => {},
        }
        pool = rest;
        played = i;
    }
    None
}

} // verus!
