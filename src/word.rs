//! Fixed-length words and the feedback code that a guess earns against a secret.

use vstd::prelude::*;
use vstd::string::StrSliceExecFns;

verus! {

/// Feedback symbol: the letter is at this very position in the secret.
pub const HIT: char = 'G';

/// Feedback symbol: the letter occurs in the secret, but elsewhere.
pub const PRESENT: char = 'Y';

/// Feedback symbol: the letter does not occur in the secret.
pub const MISS: char = '_';

/// The symbol that position `i` of guess `g` earns against secret `s`.
pub open spec fn feedback_at(g: Seq<char>, s: Seq<char>, i: int) -> char {
    if g[i] == s[i] {
        HIT
    } else if s.contains(g[i]) {
        PRESENT
    } else {
        MISS
    }
}

/// The feedback code of guess `g` against secret `s`, one symbol per position
/// that both words have. Each position is judged on its own: a repeated letter
/// is not counted against the letters of the secret.
pub open spec fn feedback(g: Seq<char>, s: Seq<char>) -> Seq<char> {
    let n = if g.len() <= s.len() { g.len() } else { s.len() };
    Seq::new(n, |i: int| feedback_at(g, s, i))
}

/// A candidate or secret word.
#[derive(Clone, Debug, PartialEq, Eq, PartialOrd, Ord, Hash)]
pub struct Word {
    letters: Vec<char>,
}

impl View for Word {
    type V = Seq<char>;

    closed spec fn view(&self) -> Seq<char> {
        self.letters@
    }
}

/// Relies on `FromIterator<char>` for `String`: the characters in order.
#[verifier::external_body]
pub(crate) fn string_of(v: &Vec<char>) -> (r: String)
    ensures
        r@ == v@,
{
    v.iter().collect()
}

/// The characters of `s`, in order.
pub(crate) fn chars_of(s: &str) -> (r: Vec<char>)
    ensures
        r@ == s@,
{
    let n = s.unicode_len();
    let mut r: Vec<char> = Vec::new();
    let mut i: usize = 0;
    while i < n
        invariant
            n == s@.len(),
            i <= n,
            r@ == s@.take(i as int),
        decreases n - i,
    {
        r.push(s.get_char(i));
        i = i + 1;
        assert(r@ =~= s@.take(i as int));
    }
    assert(r@ =~= s@);
    r
}

impl Word {
    /// The word made of the characters of `s`, as they stand.
    pub fn new(s: &str) -> (r: Word)
        ensures
            r@ == s@,
    {
        Word { letters: chars_of(s) }
    }

    /// The word as a string.
    pub fn text(&self) -> (r: String)
        ensures
            r@ == self@,
    {
        string_of(&self.letters)
    }

    /// The word made of the given characters.
    pub fn from_chars(letters: Vec<char>) -> (r: Word)
        ensures
            r@ == letters@,
    {
        Word { letters }
    }

    /// The number of characters in the word.
    pub fn len(&self) -> (r: usize)
        ensures
            r == self@.len(),
    {
        self.letters.len()
    }

    /// Returns `true` if the word contains the given character.
    pub fn contains(&self, c: char) -> (r: bool)
        ensures
            r == self@.contains(c),
    {
        let mut i: usize = 0;
        while i < self.letters.len()
            invariant
                i <= self@.len(),
                forall|k: int| 0 <= k < i ==> self@[k] != c,
            decreases self@.len() - i,
        {
            if self.letters[i] == c {
                return true;
            }
            i = i + 1;
        }
        false
    }

    /// The character at position `index`.
    pub fn char(&self, index: usize) -> (r: char)
        requires
            index < self@.len(),
        ensures
            r == self@[index as int],
    {
        self.letters[index]
    }

    /// The characters of the word, in order.
    pub fn chars(&self) -> (r: Vec<char>)
        ensures
            r@ == self@,
    {
        let r = self.letters.clone();
        assert(r@ =~= self@);
        r
    }

    /// The feedback code, as characters, that guessing `self` earns when the
    /// secret is `w`.
    pub fn code(&self, w: &Word) -> (r: Vec<char>)
        ensures
            r@ == feedback(self@, w@),
    {
        let n = if self.letters.len() <= w.letters.len() {
            self.letters.len()
        } else {
            w.letters.len()
        };
        let mut r: Vec<char> = Vec::new();
        let mut i: usize = 0;
        while i < n
            invariant
                n <= self@.len(),
                n <= w@.len(),
                n == feedback(self@, w@).len(),
                i <= n,
                r@ == feedback(self@, w@).take(i as int),
            decreases n - i,
        {
            let c = self.letters[i];
            let symbol = if c == w.letters[i] {
                HIT
            } else if w.contains(c) {
                PRESENT
            } else {
                MISS
            };
            r.push(symbol);
            i = i + 1;
            assert(r@ =~= feedback(self@, w@).take(i as int));
        }
        assert(r@ =~= feedback(self@, w@));
        r
    }

    /// Returns the colour code that the game shows for the guess `self` when
    /// the secret is `w`.
    pub fn match_code(&self, w: &Word) -> (r: String)
        ensures
            r@ == feedback(self@, w@),
    {
        let code = self.code(w);
        string_of(&code)
    }
}

} // verus!
