//! Constraints that one round of feedback puts on the secret word.

use vstd::prelude::*;
use vstd::string::StrSliceExecFns;

use crate::word::{Word, HIT, MISS, PRESENT};

verus! {

/// An error in what the player typed.
#[derive(Debug, Clone, Copy, PartialEq, Eq)]
pub enum InputError {
    /// A character of the colour code is none of the known symbols.
    InvalidColorCode(char),
    /// The guess does not have the given number of characters.
    IncorrectWordLength(usize),
    /// The colour code does not have the given number of characters.
    IncorrectColorCodeLength(usize),
}

/// What one position of a round's feedback says about the secret word.
#[derive(Debug, Clone, Copy, PartialEq, Eq, Hash)]
pub enum Constraint {
    /// The given character is at the given position.
    AtPos(usize, char),
    /// The given character is not at the given position, but somewhere else in the word.
    NotAtPos(usize, char),
    /// The given character is not in the word, unless another position of the
    /// same round found it present.
    Absent(char),
}

/// Whether constraint `c` holds of word `w`, where `present` holds the
/// characters that the same round found in the secret.
pub open spec fn holds(c: Constraint, present: Seq<char>, w: Seq<char>) -> bool {
    match c {
        Constraint::AtPos(i, ch) => i < w.len() && w[i as int] == ch,
        Constraint::NotAtPos(i, ch) => i < w.len() && w[i as int] != ch && w.contains(ch),
        Constraint::Absent(ch) => present.contains(ch) || !w.contains(ch),
    }
}

/// Whether every constraint of `cs` holds of `w`.
pub open spec fn satisfies(cs: Seq<Constraint>, present: Seq<char>, w: Seq<char>) -> bool {
    forall|k: int| 0 <= k < cs.len() ==> holds(#[trigger] cs[k], present, w)
}

/// Whether every constraint of `cs` is a hit: the constraints of a correct guess.
pub open spec fn all_hits(cs: Seq<Constraint>) -> bool {
    forall|k: int| 0 <= k < cs.len() ==> (#[trigger] cs[k]) is AtPos
}

/// Whether constraint `c` says that character `ch` is in the secret: a hit or
/// a letter found elsewhere.
pub open spec fn finds(c: Constraint, ch: char) -> bool {
    match c {
        Constraint::AtPos(_, x) => x == ch,
        Constraint::NotAtPos(_, x) => x == ch,
        Constraint::Absent(_) => false,
    }
}

/// Whether `present` holds exactly the characters that some constraint of
/// `cs` finds in the secret.
pub open spec fn tracks_present(cs: Seq<Constraint>, present: Seq<char>) -> bool {
    forall|ch: char|
        #![trigger present.contains(ch)]
        present.contains(ch) <==> exists|k: int| 0 <= k < cs.len() && finds(#[trigger] cs[k], ch)
}

/// Whether `x` is one of the three feedback symbols.
pub open spec fn is_symbol(x: char) -> bool {
    x == HIT || x == PRESENT || x == MISS
}

/// Reads the first `n` positions of guess `w` with colour code `code`: the
/// constraints and the characters found present, or the first unknown symbol.
pub open spec fn parse_prefix(w: Seq<char>, code: Seq<char>, n: nat) -> Result<
    (Seq<Constraint>, Seq<char>),
    InputError,
>
    decreases n,
{
    if n == 0 {
        Ok((Seq::empty(), Seq::empty()))
    } else {
        match parse_prefix(w, code, (n - 1) as nat) {
            Err(e) => Err(e),
            Ok((cs, present)) => {
                let i = n - 1;
                let ch = w[i];
                let symbol = code[i];
                if symbol == HIT {
                    Ok((cs.push(Constraint::AtPos(i as usize, ch)), present.push(ch)))
                } else if symbol == PRESENT {
                    Ok((cs.push(Constraint::NotAtPos(i as usize, ch)), present.push(ch)))
                } else if symbol == MISS {
                    Ok((cs.push(Constraint::Absent(ch)), present))
                } else {
                    Err(InputError::InvalidColorCode(symbol))
                }
            },
        }
    }
}

/// Reads guess `w` position by position against colour code `code`, as far as
/// both reach.
pub open spec fn parse(w: Seq<char>, code: Seq<char>) -> Result<(Seq<Constraint>, Seq<char>), InputError> {
    let n = if w.len() <= code.len() { w.len() } else { code.len() };
    parse_prefix(w, code, n)
}

/// Reading a prefix succeeds exactly when each of its symbols is known.
proof fn lemma_parse_ok(w: Seq<char>, code: Seq<char>, n: nat)
    requires
        n <= w.len(),
        n <= code.len(),
    ensures
        parse_prefix(w, code, n) is Ok <==> forall|j: int| 0 <= j < n ==> is_symbol(#[trigger] code[j]),
    decreases n,
{
    if n > 0 {
        lemma_parse_ok(w, code, (n - 1) as nat);
    }
}

/// Reading a prefix keeps the present characters in step with the constraints.
proof fn lemma_parse_tracks_present(w: Seq<char>, code: Seq<char>, n: nat)
    ensures
        match parse_prefix(w, code, n) {
            Ok((cs, present)) => tracks_present(cs, present),
            Err(_) => true,
        },
    decreases n,
{
    if n > 0 {
        lemma_parse_tracks_present(w, code, (n - 1) as nat);
        match parse_prefix(w, code, (n - 1) as nat) {
            Ok((cs, present)) => {
                let i = n - 1;
                let ch = w[i];
                let symbol = code[i];
                if symbol == HIT {
                    lemma_push_tracks(cs, present, Constraint::AtPos(i as usize, ch), true);
                } else if symbol == PRESENT {
                    lemma_push_tracks(cs, present, Constraint::NotAtPos(i as usize, ch), true);
                } else if symbol == MISS {
                    lemma_push_tracks(cs, present, Constraint::Absent(ch), false);
                }
            },
            Err(_) => {},
        }
    }
}

/// Adding a constraint, and its character where it finds one, keeps the
/// present characters in step.
proof fn lemma_push_tracks(cs: Seq<Constraint>, present: Seq<char>, c: Constraint, found: bool)
    requires
        tracks_present(cs, present),
        found <==> !(c is Absent),
    ensures
        found ==> tracks_present(
            cs.push(c),
            present.push(
                match c {
                    Constraint::AtPos(_, x) => x,
                    Constraint::NotAtPos(_, x) => x,
                    Constraint::Absent(x) => x,
                },
            ),
        ),
        !found ==> tracks_present(cs.push(c), present),
{
    let x = match c {
        Constraint::AtPos(_, x) => x,
        Constraint::NotAtPos(_, x) => x,
        Constraint::Absent(x) => x,
    };
    let now = cs.push(c);
    assert forall|k: int| 0 <= k < cs.len() implies #[trigger] now[k] == cs[k] by {}
    assert(now[cs.len() as int] == c);
    if found {
        let p = present.push(x);
        assert forall|ch: char| p.contains(ch) <==> exists|k: int| 0 <= k < now.len() && finds(
            #[trigger] now[k],
            ch,
        ) by {
            if p.contains(ch) {
                let j = choose|j: int| 0 <= j < p.len() && p[j] == ch;
                if j < present.len() {
                    assert(present[j] == ch);
                    assert(present.contains(ch));
                    let k = choose|k: int| 0 <= k < cs.len() && finds(#[trigger] cs[k], ch);
                    assert(finds(now[k], ch));
                } else {
                    assert(finds(now[cs.len() as int], ch));
                }
            }
            if exists|k: int| 0 <= k < now.len() && finds(#[trigger] now[k], ch) {
                let k = choose|k: int| 0 <= k < now.len() && finds(#[trigger] now[k], ch);
                if k < cs.len() {
                    assert(finds(cs[k], ch));
                    assert(present.contains(ch));
                    let j = choose|j: int| 0 <= j < present.len() && present[j] == ch;
                    assert(p[j] == ch);
                } else {
                    assert(p[present.len() as int] == ch);
                }
            }
        }
    } else {
        assert forall|ch: char| present.contains(ch) <==> exists|k: int| 0 <= k < now.len() && finds(
            #[trigger] now[k],
            ch,
        ) by {
            if present.contains(ch) {
                let k = choose|k: int| 0 <= k < cs.len() && finds(#[trigger] cs[k], ch);
                assert(finds(now[k], ch));
            }
            if exists|k: int| 0 <= k < now.len() && finds(#[trigger] now[k], ch) {
                let k = choose|k: int| 0 <= k < now.len() && finds(#[trigger] now[k], ch);
                if k < cs.len() {
                    assert(finds(cs[k], ch));
                }
            }
        }
    }
}

/// Once reading a prefix has failed, every longer prefix fails the same way.
proof fn lemma_parse_error_stays(w: Seq<char>, code: Seq<char>, m: nat, n: nat)
    requires
        m <= n,
        parse_prefix(w, code, m) is Err,
    ensures
        parse_prefix(w, code, n) == parse_prefix(w, code, m),
    decreases n - m,
{
    if m < n {
        lemma_parse_error_stays(w, code, m, (n - 1) as nat);
    }
}

/// The constraints of one round: one per position, and the characters that
/// the round found present in the secret.
#[derive(Debug, PartialEq, Eq, Hash)]
pub struct ConstraintSet {
    constraints: Vec<Constraint>,
    present_chars: Vec<char>,
}

impl View for ConstraintSet {
    type V = (Seq<Constraint>, Seq<char>);

    closed spec fn view(&self) -> (Seq<Constraint>, Seq<char>) {
        (self.constraints@, self.present_chars@)
    }
}

/// The name of what `str::to_lowercase` returns.
pub uninterp spec fn lowercase_of(s: Seq<char>) -> Seq<char>;

/// The name of what `str::to_uppercase` returns.
pub uninterp spec fn uppercase_of(s: Seq<char>) -> Seq<char>;

/// Relies on `str::to_lowercase`, whose result depends on the characters alone.
#[verifier::external_body]
pub(crate) fn to_lowercase(s: &str) -> (r: String)
    ensures
        r@ == lowercase_of(s@),
{
    s.to_lowercase()
}

/// Relies on `str::to_uppercase`, whose result depends on the characters alone.
#[verifier::external_body]
fn to_uppercase(s: &str) -> (r: String)
    ensures
        r@ == uppercase_of(s@),
{
    s.to_uppercase()
}

impl ConstraintSet {
    /// The constraints of the set, one per position.
    pub fn iter(&self) -> (r: &[Constraint])
        ensures
            r@ == self@.0,
    {
        self.constraints.as_slice()
    }

    /// Reads the guess `word` against the colour code `colors`, both taken as
    /// they stand: `G` hit, `Y` present, `_` miss.
    pub fn from_feedback(word: &str, colors: &str) -> (r: Result<ConstraintSet, InputError>)
        ensures
            r is Ok <==> forall|j: int|
                0 <= j < word@.len() && j < colors@.len() ==> is_symbol(#[trigger] colors@[j]),
            match r {
                Ok(cs) => parse(word@, colors@) == Ok::<_, InputError>(cs@),
                Err(e) => parse(word@, colors@) == Err::<(Seq<Constraint>, Seq<char>), _>(e),
            },
            r matches Ok(cs) ==> tracks_present(cs@.0, cs@.1),
    {
        let wn = word.unicode_len();
        let cn = colors.unicode_len();
        let n = if wn <= cn { wn } else { cn };
        proof {
            lemma_parse_ok(word@, colors@, n as nat);
            lemma_parse_tracks_present(word@, colors@, n as nat);
        }
        let mut constraints: Vec<Constraint> = Vec::new();
        let mut present_chars: Vec<char> = Vec::new();
        let mut i: usize = 0;
        while i < n
            invariant
                wn == word@.len(),
                cn == colors@.len(),
                n == (if wn <= cn { wn } else { cn }),
                i <= n,
                parse_prefix(word@, colors@, i as nat) == Ok::<_, InputError>(
                    (constraints@, present_chars@),
                ),
            decreases n - i,
        {
            let c = word.get_char(i);
            let symbol = colors.get_char(i);
            if symbol == HIT {
                present_chars.push(c);
                constraints.push(Constraint::AtPos(i, c));
            } else if symbol == PRESENT {
                present_chars.push(c);
                constraints.push(Constraint::NotAtPos(i, c));
            } else if symbol == MISS {
                constraints.push(Constraint::Absent(c));
            } else {
                proof {
                    assert(parse_prefix(word@, colors@, (i + 1) as nat) == Err::<
                        (Seq<Constraint>, Seq<char>),
                        _,
                    >(InputError::InvalidColorCode(symbol)));
                    lemma_parse_error_stays(word@, colors@, (i + 1) as nat, n as nat);
                }
                return Err(InputError::InvalidColorCode(symbol));
            }
            i = i + 1;
        }
        Ok(ConstraintSet { constraints, present_chars })
    }

    /// Reads the guess `word` against the colour code `colors`, without regard
    /// to case.
    pub fn try_from(input: (&str, &str)) -> (r: Result<ConstraintSet, InputError>)
        ensures
            match r {
                Ok(cs) => parse(lowercase_of(input.0@), uppercase_of(input.1@)) == Ok::<
                    _,
                    InputError,
                >(cs@),
                Err(e) => parse(lowercase_of(input.0@), uppercase_of(input.1@)) == Err::<
                    (Seq<Constraint>, Seq<char>),
                    _,
                >(e),
            },
            r matches Ok(cs) ==> tracks_present(cs@.0, cs@.1),
    {
        let (word, colors) = input;
        let word = to_lowercase(word);
        let colors = to_uppercase(colors);
        ConstraintSet::from_feedback(word.as_str(), colors.as_str())
    }

    /// Returns `true` if `word` meets every constraint of the set. A constraint
    /// on a position that `word` does not have is not met.
    pub fn is_match(&self, word: &Word) -> (r: bool)
        ensures
            r == satisfies(self@.0, self@.1, word@),
    {
        let mut k: usize = 0;
        while k < self.constraints.len()
            invariant
                k <= self@.0.len(),
                forall|j: int| 0 <= j < k ==> holds(#[trigger] self@.0[j], self@.1, word@),
            decreases self@.0.len() - k,
        {
            let ok = match self.constraints[k] {
                Constraint::AtPos(i, c) => i < word.len() && word.char(i) == c,
                Constraint::NotAtPos(i, c) => i < word.len() && word.char(i) != c && word.contains(c),
                Constraint::Absent(c) => present_contains(&self.present_chars, c) || !word.contains(c),
            };
            if !ok {
                return false;
            }
            k = k + 1;
        }
        true
    }

    /// Returns `true` if the set comes from a correct guess: every position is
    /// a hit.
    pub fn correct_word(&self) -> (r: bool)
        ensures
            r == all_hits(self@.0),
    {
        let mut k: usize = 0;
        while k < self.constraints.len()
            invariant
                k <= self@.0.len(),
                forall|j: int| 0 <= j < k ==> (#[trigger] self@.0[j]) is AtPos,
            decreases self@.0.len() - k,
        {
            match self.constraints[k] {
                Constraint::AtPos(_, _) => {},
                _ => {
                    return false;
                },
            }
            k = k + 1;
        }
        true
    }
}

/// Checks that a typed guess has `len` characters.
pub fn check_word(word: &str, len: usize) -> (r: Result<(), InputError>)
    ensures
        r == (if word@.len() == len {
            Ok(())
        } else {
            Err(InputError::IncorrectWordLength(len))
        }),
{
    if word.unicode_len() != len {
        return Err(InputError::IncorrectWordLength(len));
    }
    Ok(())
}

/// Reads a typed guess and colour code of words of `len` characters: the code
/// must have `len` characters, and is then read without regard to case.
pub fn read_feedback(word: &str, colors: &str, len: usize) -> (r: Result<ConstraintSet, InputError>)
    ensures
        colors@.len() != len ==> r == Err::<ConstraintSet, _>(
            InputError::IncorrectColorCodeLength(len),
        ),
        colors@.len() == len ==> match r {
            Ok(cs) => parse(lowercase_of(word@), uppercase_of(colors@)) == Ok::<_, InputError>(
                cs@,
            ),
            Err(e) => parse(lowercase_of(word@), uppercase_of(colors@)) == Err::<
                (Seq<Constraint>, Seq<char>),
                _,
            >(e),
        },
        r matches Ok(cs) ==> tracks_present(cs@.0, cs@.1),
{
    if colors.unicode_len() != len {
        return Err(InputError::IncorrectColorCodeLength(len));
    }
    ConstraintSet::try_from((word, colors))
}

/// Whether `c` is one of `chars`.
fn present_contains(chars: &Vec<char>, c: char) -> (r: bool)
    ensures
        r == chars@.contains(c),
{
    let mut i: usize = 0;
    while i < chars.len()
        invariant
            i <= chars@.len(),
            forall|k: int| 0 <= k < i ==> chars@[k] != c,
        decreases chars@.len() - i,
    {
        if chars[i] == c {
            return true;
        }
        i = i + 1;
    }
    false
}

} // verus!
