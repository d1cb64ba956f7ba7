use vstd::prelude::*;

use crate::text::{is_white_space, sub_chars, white_space};

verus! {

/// Feedback for one letter position.
#[derive(Clone, Copy, Debug, PartialEq, Eq, Structural)]
pub enum WordState {
    Gray,
    Yellow,
    Green,
}

/// A five-letter word with one feedback state per letter, and whether it is
/// currently selected as a candidate.
#[derive(Clone, Copy, Debug)]
pub struct Word {
    pub word: [char; 5],
    pub state: [WordState; 5],
    pub selected: bool,
}

/// Rejected input: a word or a feedback code of the wrong shape.
#[derive(Clone, Copy, Debug, PartialEq, Eq, Structural)]
pub enum InvalidInput {
    InvalidInput,
}

/// The mathematical view of a `Word`.
pub struct Guess {
    pub letters: Seq<char>,
    pub states: Seq<WordState>,
    pub selected: bool,
}

impl View for Word {
    type V = Guess;

    open spec fn view(&self) -> Guess {
        Guess { letters: self.word@, states: self.state@, selected: self.selected }
    }
}

pub open spec fn is_lower(c: char) -> bool {
    'a' <= c && c <= 'z'
}

pub open spec fn is_code(c: char) -> bool {
    c == 'x' || c == 'y' || c == 'g'
}

/// Exactly five lowercase ASCII letters.
pub open spec fn valid_letters(s: Seq<char>) -> bool {
    s.len() == 5 && forall|i: int| 0 <= i < 5 ==> is_lower(#[trigger] s[i])
}

/// Exactly five characters out of `x`, `y`, `g`.
pub open spec fn valid_code(s: Seq<char>) -> bool {
    s.len() == 5 && forall|i: int| 0 <= i < 5 ==> is_code(#[trigger] s[i])
}

/// `x` is gray, `y` yellow, `g` green.
pub open spec fn state_of(c: char) -> WordState {
    if c == 'y' {
        WordState::Yellow
    } else if c == 'g' {
        WordState::Green
    } else {
        WordState::Gray
    }
}

/// The unselected guess made of `letters` with the feedback `code`.
pub open spec fn guess_of(letters: Seq<char>, code: Seq<char>) -> Guess {
    Guess { letters, states: Seq::new(5, |i: int| state_of(code[i])), selected: false }
}

/// How many of the first `n` positions hold letter `c` with state `s`.
pub open spec fn count_prefix(letters: Seq<char>, states: Seq<WordState>, c: char, s: WordState, n: int) -> nat
    decreases n,
{
    if n <= 0 {
        0
    } else {
        count_prefix(letters, states, c, s, n - 1) + if letters[n - 1] == c && states[n - 1] == s {
            1nat
        } else {
            0nat
        }
    }
}

/// How many positions of `g` hold letter `c` with state `s`.
pub open spec fn count_state(g: Guess, c: char, s: WordState) -> nat {
    count_prefix(g.letters, g.states, c, s, 5)
}

pub proof fn lemma_count_prefix_bound(letters: Seq<char>, states: Seq<WordState>, c: char, s: WordState, n: int)
    requires
        n >= 0,
    ensures
        count_prefix(letters, states, c, s, n) <= n,
    decreases n,
{
    if n > 0 {
        lemma_count_prefix_bound(letters, states, c, s, n - 1);
    }
}

/// A feedback line: five lowercase letters, one white-space character, and
/// five characters out of `x`, `y`, `g`, with nothing before or after.
pub open spec fn feedback_line(s: Seq<char>) -> bool {
    &&& s.len() == 11
    &&& valid_letters(s.subrange(0, 5))
    &&& is_white_space(s[5])
    &&& valid_code(s.subrange(6, 11))
}

/// Reads a feedback line such as `raise xyyxg` into the target word it
/// describes; `None` where the line does not have that shape.
pub fn parse_wordle_input(line: &str) -> (r: Option<Word>)
    ensures
        r is Some <==> feedback_line(line@),
        r matches Some(w) ==> w@ == guess_of(line@.subrange(0, 5), line@.subrange(6, 11)),
{
    let chars = chars_of(line);
    if chars.len() != 11 || !white_space(chars[5]) {
        return None;
    }
    let letters = sub_chars(&chars, 0, 5);
    let code = sub_chars(&chars, 6, 11);
    match Word::from_chars(&letters, &code) {
        Ok(w) => Some(w),
        Err(_) => None,
    }
}

/// The characters of `s`, in order.
pub fn chars_of(s: &str) -> (r: Vec<char>)
    ensures
        r@ == s@,
{
    let mut r: Vec<char> = Vec::new();
    for c in it: s.chars()
        invariant
            r@ == it.seq().take(it.index() as int),
    {
        r.push(c);
    }
    r
}

/// The state that code character `c` gives to a position that held `old`:
/// `x`, `y` and `g` set gray, yellow and green, anything else leaves it.
pub open spec fn coded_state(c: char, old: WordState) -> WordState {
    if is_code(c) {
        state_of(c)
    } else {
        old
    }
}

impl Word {
    /// Builds the unselected word `new_word` with the feedback `new_state`.
    /// Fails unless the word is five lowercase letters and the feedback five
    /// characters out of `x` (gray), `y` (yellow) and `g` (green).
    pub fn new(new_word: &str, new_state: &str) -> (r: Result<Word, InvalidInput>)
        ensures
            r is Ok <==> valid_letters(new_word@) && valid_code(new_state@),
            r matches Ok(w) ==> w@ == guess_of(new_word@, new_state@),
    {
        let letters = chars_of(new_word);
        let code = chars_of(new_state);
        Self::from_chars(&letters, &code)
    }

    /// `new` on sequences of characters.
    pub fn from_chars(letters: &Vec<char>, code: &Vec<char>) -> (r: Result<Word, InvalidInput>)
        ensures
            r is Ok <==> valid_letters(letters@) && valid_code(code@),
            r matches Ok(w) ==> w@ == guess_of(letters@, code@),
    {
        if letters.len() != 5 || code.len() != 5 {
            return Err(InvalidInput::InvalidInput);
        }
        let mut i: usize = 0;
        while i < 5
            invariant
                letters@.len() == 5,
                code@.len() == 5,
                i <= 5,
                forall|k: int| 0 <= k < i ==> is_lower(#[trigger] letters@[k]),
                forall|k: int| 0 <= k < i ==> is_code(#[trigger] code@[k]),
            decreases 5 - i,
        {
            let c = letters[i];
            let d = code[i];
            if !('a' <= c && c <= 'z') || !(d == 'x' || d == 'y' || d == 'g') {
                return Err(InvalidInput::InvalidInput);
            }
            assert(is_lower(letters@[i as int]) && is_code(code@[i as int]));
            i = i + 1;
        }
        let mut instance = Word {
            word: [letters[0], letters[1], letters[2], letters[3], letters[4]],
            state: [WordState::Gray; 5],
            selected: false,
        };
        Self::apply_code(&mut instance, code);
        assert(instance.word@ =~= letters@);
        assert(instance.state@ =~= guess_of(letters@, code@).states);
        Ok(instance)
    }

    fn apply_code(instance: &mut Self, code: &Vec<char>)
        requires
            code@.len() <= 5,
        ensures
            final(instance).word == old(instance).word,
            final(instance).selected == old(instance).selected,
            forall|i: int|
                0 <= i < 5 ==> #[trigger] final(instance).state@[i] == if i < code@.len() {
                    coded_state(code@[i], old(instance).state@[i])
                } else {
                    old(instance).state@[i]
                },
    {
        let ghost start = *instance;
        let mut i: usize = 0;
        while i < code.len()
            invariant
                code@.len() <= 5,
                i <= code@.len(),
                instance.word == start.word,
                instance.selected == start.selected,
                forall|k: int|
                    0 <= k < 5 ==> #[trigger] instance.state@[k] == if k < i {
                        coded_state(code@[k], start.state@[k])
                    } else {
                        start.state@[k]
                    },
            decreases code@.len() - i,
        {
            let c = code[i];
            if c == 'x' {
                instance.state[i] = WordState::Gray;
            } else if c == 'y' {
                instance.state[i] = WordState::Yellow;
            } else if c == 'g' {
                instance.state[i] = WordState::Green;
            }
            i = i + 1;
        }
    }

    /// Sets the state of each position from the feedback code at that position:
    /// `x` gray, `y` yellow, `g` green; any other character leaves the position
    /// as it was. The code may be shorter than the word, not longer.
    pub fn interpret_state(instance: &mut Self, state_str: &str)
        requires
            state_str@.len() <= 5,
        ensures
            final(instance).word == old(instance).word,
            final(instance).selected == old(instance).selected,
            forall|i: int|
                0 <= i < 5 ==> #[trigger] final(instance).state@[i] == if i < state_str@.len() {
                    coded_state(state_str@[i], old(instance).state@[i])
                } else {
                    old(instance).state@[i]
                },
    {
        let code = chars_of(state_str);
        Self::apply_code(instance, &code);
    }

    /// How many positions of this word hold `ltr` with state `state`; zero
    /// where the letter does not occur.
    pub fn count_state_for_char(&self, ltr: char, state: WordState) -> (r: i8)
        ensures
            r as int == count_state(self@, ltr, state),
    {
        self.count_before(ltr, state, 5) as i8
    }

    /// How many of the first `n` positions hold `ltr` with state `state`.
    pub fn count_before(&self, ltr: char, state: WordState, n: usize) -> (r: u8)
        requires
            n <= 5,
        ensures
            r as int == count_prefix(self.word@, self.state@, ltr, state, n as int),
            r <= n,
    {
        let mut count: u8 = 0;
        let mut i: usize = 0;
        while i < n
            invariant
                n <= 5,
                i <= n,
                count as int == count_prefix(self.word@, self.state@, ltr, state, i as int),
            decreases n - i,
        {
            proof {
                lemma_count_prefix_bound(self.word@, self.state@, ltr, state, i as int);
            }
            if self.word[i] == ltr && self.state[i] == state {
                count = count + 1;
            }
            i = i + 1;
        }
        proof {
            lemma_count_prefix_bound(self.word@, self.state@, ltr, state, n as int);
        }
        count
    }

    /// Whether `ltr` occurs anywhere in this word.
    pub fn contains_letter(&self, ltr: char) -> (r: bool)
        ensures
            r == self@.letters.contains(ltr),
    {
        let mut i: usize = 0;
        while i < 5
            invariant
                i <= 5,
                forall|k: int| 0 <= k < i ==> self.word@[k] != ltr,
            decreases 5 - i,
        {
            if self.word[i] == ltr {
                return true;
            }
            i = i + 1;
        }
        false
    }
}

} // verus!
