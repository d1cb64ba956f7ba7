use vstd::prelude::*;

use crate::text::{completed_lines, last_line, lines, sub_chars, trim, trim_bounds};
use crate::word::{chars_of, count_prefix, count_state, valid_letters, Guess, Word, WordState};

verus! {

/// Position `i` of `g` agrees with a green position of the target.
pub open spec fn green_match(t: Guess, g: Guess, i: int) -> bool {
    t.states[i] == WordState::Green && g.letters[i] == t.letters[i]
}

/// First stage: every position that agrees with a green position of the target
/// turns green, and a candidate with such a position is selected.
pub open spec fn after_greens(t: Guess, g: Guess) -> Guess {
    Guess {
        letters: g.letters,
        states: Seq::new(
            5,
            |i: int|
                if green_match(t, g, i) {
                    WordState::Green
                } else {
                    g.states[i]
                },
        ),
        selected: g.selected || exists|i: int| 0 <= i < 5 && green_match(t, g, i),
    }
}

/// The letter at position `j` of `g` is yellow at some other position of the
/// target.
pub open spec fn yellow_licensed(t: Guess, g: Guess, j: int) -> bool {
    exists|i: int|
        0 <= i < 5 && i != j && t.states[i] == WordState::Yellow && #[trigger] t.letters[i]
            == g.letters[j]
}

/// Second stage: in a selected candidate, every position that is not green and
/// holds a letter that the target has yellow elsewhere turns yellow.
pub open spec fn after_yellows(t: Guess, g: Guess) -> Guess {
    Guess {
        letters: g.letters,
        states: Seq::new(
            5,
            |j: int|
                if g.selected && g.states[j] != WordState::Green && yellow_licensed(t, g, j) {
                    WordState::Yellow
                } else {
                    g.states[j]
                },
        ),
        selected: g.selected,
    }
}

/// Some position of `g` is yellow.
pub open spec fn has_yellow(g: Guess) -> bool {
    exists|j: int| 0 <= j < 5 && g.states[j] == WordState::Yellow
}

/// Third stage: a candidate without any yellow position is unselected.
pub open spec fn after_screen(g: Guess) -> Guess {
    Guess { letters: g.letters, states: g.states, selected: g.selected && has_yellow(g) }
}

/// Position `j` of `g` is a yellow occurrence of a letter of the target, and
/// the earlier yellow occurrences of that letter in `g` already reach the
/// number of yellow occurrences of it in the target.
pub open spec fn excess_yellow(t: Guess, g: Guess, j: int) -> bool {
    &&& g.states[j] == WordState::Yellow
    &&& t.letters.contains(g.letters[j])
    &&& count_prefix(g.letters, g.states, g.letters[j], WordState::Yellow, j) >= count_state(
        t,
        g.letters[j],
        WordState::Yellow,
    )
}

/// Fourth stage: for each letter of the target, the yellow occurrences of it in
/// a candidate beyond as many as the target has yellow, left to right, turn
/// gray.
pub open spec fn after_grays(t: Guess, g: Guess) -> Guess {
    Guess {
        letters: g.letters,
        states: Seq::new(
            5,
            |j: int|
                if excess_yellow(t, g, j) {
                    WordState::Gray
                } else {
                    g.states[j]
                },
        ),
        selected: g.selected,
    }
}

/// One candidate after all four stages against the target `t`.
pub open spec fn processed(t: Guess, g: Guess) -> Guess {
    after_grays(t, after_screen(after_yellows(t, after_greens(t, g))))
}

/// A word list that could not be loaded: the line with this index (from
/// zero) is neither blank nor five lowercase letters.
#[derive(Clone, Copy, Debug, PartialEq, Eq, Structural)]
pub enum DictionaryError {
    MalformedEntry(usize),
}

/// A fresh dictionary entry: all gray, unselected.
pub open spec fn fresh(letters: Seq<char>) -> Guess {
    Guess { letters, states: Seq::new(5, |i: int| WordState::Gray), selected: false }
}

/// A line of the word list is blank or a word, once trimmed.
pub open spec fn entry_ok(line: Seq<char>) -> bool {
    trim(line).len() == 0 || valid_letters(trim(line))
}

/// `d` with the entry of `line` appended, unless the line is blank.
pub open spec fn add_entry(d: Seq<Guess>, line: Seq<char>) -> Seq<Guess> {
    if trim(line).len() == 0 {
        d
    } else {
        d.push(fresh(trim(line)))
    }
}

/// The candidates that the lines `ls` of a word list give: one fresh entry
/// per non-blank line, trimmed, in order.
pub open spec fn dictionary(ls: Seq<Seq<char>>) -> Seq<Guess>
    decreases ls.len(),
{
    if ls.len() == 0 {
        seq![]
    } else {
        add_entry(dictionary(ls.drop_last()), ls.last())
    }
}

/// What `Wordle::new` owes for the word list `s`: success exactly when each
/// line is fine, else the first line that is not.
pub open spec fn load_result(s: Seq<char>, r: Result<Seq<Guess>, DictionaryError>) -> bool {
    &&& r is Ok <==> forall|i: int| 0 <= i < lines(s).len() ==> #[trigger] entry_ok(lines(s)[i])
    &&& r matches Ok(d) ==> d == dictionary(lines(s))
    &&& r matches Err(DictionaryError::MalformedEntry(n)) ==> {
        &&& n < lines(s).len()
        &&& !entry_ok(lines(s)[n as int])
        &&& forall|m: int| 0 <= m < n ==> #[trigger] entry_ok(lines(s)[m])
    }
}

proof fn lemma_completed_prefix(s: Seq<char>, p: int)
    requires
        0 <= p <= s.len(),
    ensures
        completed_lines(s.take(p)).len() <= completed_lines(s).len(),
        forall|i: int|
            0 <= i < completed_lines(s.take(p)).len() ==> #[trigger] completed_lines(s.take(p))[i]
                == completed_lines(s)[i],
    decreases s.len(),
{
    if p == s.len() {
        assert(s.take(p) =~= s);
    } else {
        lemma_completed_prefix(s.drop_last(), p);
        assert(s.drop_last().take(p) =~= s.take(p));
    }
}

/// Every candidate of a freshly loaded word list is all gray and unselected.
pub proof fn lemma_dictionary_fresh(ls: Seq<Seq<char>>)
    ensures
        forall|m: int|
            0 <= m < dictionary(ls).len() ==> #[trigger] dictionary(ls)[m] == fresh(
                dictionary(ls)[m].letters,
            ),
    decreases ls.len(),
{
    if ls.len() > 0 {
        lemma_dictionary_fresh(ls.drop_last());
        assert(dictionary(ls) == add_entry(dictionary(ls.drop_last()), ls.last()));
    }
}

proof fn lemma_completed_len(s: Seq<char>)
    ensures
        completed_lines(s).len() <= s.len(),
    decreases s.len(),
{
    if s.len() > 0 {
        lemma_completed_len(s.drop_last());
    }
}

/// `g` with its selection cleared.
pub open spec fn unselected(g: Guess) -> Guess {
    Guess { letters: g.letters, states: g.states, selected: false }
}

/// The list of candidate words and their feedback states.
pub struct Wordle {
    words: Vec<Word>,
}

impl View for Wordle {
    type V = Seq<Guess>;

    closed spec fn view(&self) -> Seq<Guess> {
        self.words@.map_values(|w: Word| w@)
    }
}

fn green_step(target: &Word, w: &mut Word)
    ensures
        final(w)@ == after_greens(target@, old(w)@),
{
    let ghost start = *w;
    let mut i: usize = 0;
    while i < 5
        invariant
            i <= 5,
            w.word == start.word,
            forall|k: int|
                0 <= k < 5 ==> #[trigger] w.state@[k] == if k < i && green_match(
                    target@,
                    start@,
                    k,
                ) {
                    WordState::Green
                } else {
                    start.state@[k]
                },
            w.selected == (start.selected || exists|k: int|
                0 <= k < i && green_match(target@, start@, k)),
        decreases 5 - i,
    {
        if target.state[i] == WordState::Green && w.word[i] == target.word[i] {
            assert(green_match(target@, start@, i as int));
            w.state[i] = WordState::Green;
            w.selected = true;
        }
        i = i + 1;
    }
    assert(w.state@ =~= after_greens(target@, start@).states);
}

fn yellow_step(target: &Word, w: &mut Word)
    ensures
        final(w)@ == after_yellows(target@, old(w)@),
{
    let ghost start = *w;
    let mut j: usize = 0;
    while j < 5
        invariant
            j <= 5,
            w.word == start.word,
            w.selected == start.selected,
            forall|k: int|
                0 <= k < 5 ==> #[trigger] w.state@[k] == if k < j && start.selected
                    && start.state@[k] != WordState::Green && yellow_licensed(target@, start@, k) {
                    WordState::Yellow
                } else {
                    start.state@[k]
                },
        decreases 5 - j,
    {
        if w.selected && w.state[j] != WordState::Green {
            let mut licensed = false;
            let mut i: usize = 0;
            while i < 5
                invariant
                    i <= 5,
                    j < 5,
                    w.word == start.word,
                    licensed == exists|m: int|
                        0 <= m < i && m != j && target.state@[m] == WordState::Yellow
                            && #[trigger] target.word@[m] == w.word@[j as int],
                decreases 5 - i,
            {
                if i != j && target.state[i] == WordState::Yellow && target.word[i] == w.word[j] {
                    licensed = true;
                }
                i = i + 1;
            }
            assert(target@.letters == target.word@);
            assert(start@.letters[j as int] == w.word@[j as int]);
            assert(licensed == yellow_licensed(target@, start@, j as int));
            if licensed {
                w.state[j] = WordState::Yellow;
            }
        }
        j = j + 1;
    }
    assert(w.state@ =~= after_yellows(target@, start@).states);
}

fn screen_step(w: &mut Word)
    ensures
        final(w)@ == after_screen(old(w)@),
{
    let mut j: usize = 0;
    let mut found = false;
    while j < 5
        invariant
            j <= 5,
            found == exists|k: int| 0 <= k < j && w.state@[k] == WordState::Yellow,
        decreases 5 - j,
    {
        if w.state[j] == WordState::Yellow {
            found = true;
        }
        j = j + 1;
    }
    if !found {
        w.selected = false;
    }
}

fn gray_step(target: &Word, w: &mut Word)
    ensures
        final(w)@ == after_grays(target@, old(w)@),
{
    let start = *w;
    let mut j: usize = 0;
    while j < 5
        invariant
            j <= 5,
            w.word == start.word,
            w.selected == start.selected,
            forall|k: int|
                0 <= k < 5 ==> #[trigger] w.state@[k] == if k < j && excess_yellow(
                    target@,
                    start@,
                    k,
                ) {
                    WordState::Gray
                } else {
                    start.state@[k]
                },
        decreases 5 - j,
    {
        let c = start.word[j];
        if start.state[j] == WordState::Yellow && target.contains_letter(c) {
            let licensed = target.count_state_for_char(c, WordState::Yellow);
            let before = start.count_before(c, WordState::Yellow, j);
            if before as i8 >= licensed {
                w.state[j] = WordState::Gray;
            }
        }
        j = j + 1;
    }
    assert(w.state@ =~= after_grays(target@, start@).states);
}


/// How many of `s` are selected.
pub open spec fn count_selected(s: Seq<Guess>) -> nat
    decreases s.len(),
{
    if s.len() == 0 {
        0
    } else {
        count_selected(s.drop_last()) + if s.last().selected {
            1nat
        } else {
            0nat
        }
    }
}

/// The demonstration target: `raise` with the feedback `xyyxg`.
pub open spec fn demo_target() -> Guess {
    Guess {
        letters: seq!['r', 'a', 'i', 's', 'e'],
        states: seq![
            WordState::Gray,
            WordState::Yellow,
            WordState::Yellow,
            WordState::Gray,
            WordState::Green,
        ],
        selected: false,
    }
}

impl Wordle {
    /// Loads the candidates from a word list, one word per line: each line is
    /// trimmed, blank lines are skipped, and every other line must be five
    /// lowercase letters. Each candidate starts all gray and unselected.
    pub fn new(word_list: &str) -> (r: Result<Wordle, DictionaryError>)
        ensures
            load_result(
                word_list@,
                match r {
                    Ok(w) => Ok(w@),
                    Err(e) => Err(e),
                },
            ),
    {
        let mut instance = Wordle { words: Vec::new() };
        match instance.init(word_list) {
            Ok(()) => Ok(instance),
            Err(e) => Err(e),
        }
    }

    fn init(&mut self, word_list: &str) -> (r: Result<(), DictionaryError>)
        requires
            old(self)@.len() == 0,
        ensures
            load_result(
                word_list@,
                match r {
                    Ok(()) => Ok(final(self)@),
                    Err(e) => Err(e),
                },
            ),
    {
        let chars = chars_of(word_list);
        let ghost s = word_list@;
        let mut line_start: usize = 0;
        let mut line_no: usize = 0;
        let mut p: usize = 0;
        assert(s.take(0) =~= seq![]);
        assert(self@ =~= seq![]);
        while p < chars.len()
            invariant
                chars@ == s,
                s == word_list@,
                line_start <= p <= s.len(),
                s.subrange(line_start as int, p as int) == last_line(s.take(p as int)),
                line_no == completed_lines(s.take(p as int)).len(),
                self@ == dictionary(completed_lines(s.take(p as int))),
                forall|i: int|
                    0 <= i < line_no ==> #[trigger] entry_ok(completed_lines(s.take(p as int))[i]),
            decreases s.len() - p,
        {
            let ghost before = s.take(p as int);
            assert(s.take(p as int + 1).drop_last() =~= before);
            if chars[p] == '\n' {
                let ghost done = completed_lines(s.take(p as int + 1));
                assert(done == completed_lines(before).push(last_line(before)));
                assert(done.drop_last() =~= completed_lines(before));
                proof {
                    lemma_completed_prefix(s, p as int + 1);
                }
                if line_no == usize::MAX {
                    proof {
                        lemma_completed_len(s.take(p as int + 1));
                    }
                }
                let added = self.add_line(&chars, line_start, p);
                if added.is_err() {
                    proof {
                        assert(lines(s)[line_no as int] == done[line_no as int]);
                        assert forall|m: int| 0 <= m < line_no implies #[trigger] entry_ok(
                            lines(s)[m],
                        ) by {
                            assert(lines(s)[m] == done[m]);
                            assert(done[m] == completed_lines(before)[m]);
                        }
                    }
                    return Err(DictionaryError::MalformedEntry(line_no));
                }
                line_no = line_no + 1;
                line_start = p + 1;
                p = p + 1;
                assert(s.subrange(line_start as int, p as int) =~= seq![]);
            } else {
                assert(s.subrange(line_start as int, p as int + 1) =~= s.subrange(
                    line_start as int,
                    p as int,
                ).push(chars@[p as int]));
                p = p + 1;
            }
        }
        assert(s.take(p as int) =~= s);
        assert(lines(s).drop_last() =~= completed_lines(s));
        let added = self.add_line(&chars, line_start, p);
        assert(lines(s)[line_no as int] == last_line(s));
        assert forall|m: int| 0 <= m < line_no implies #[trigger] entry_ok(lines(s)[m]) by {
            assert(lines(s)[m] == completed_lines(s)[m]);
        }
        if added.is_err() {
            return Err(DictionaryError::MalformedEntry(line_no));
        }
        assert forall|m: int| 0 <= m < lines(s).len() implies #[trigger] entry_ok(lines(s)[m]) by {
            if m < line_no {
                assert(lines(s)[m] == completed_lines(s)[m]);
            }
        }
        Ok(())
    }

    fn add_line(&mut self, chars: &Vec<char>, from: usize, to: usize) -> (r: Result<(), ()>)
        requires
            from <= to <= chars@.len(),
        ensures
            r is Ok <==> entry_ok(chars@.subrange(from as int, to as int)),
            r is Ok ==> final(self)@ == add_entry(old(self)@, chars@.subrange(from as int, to as int)),
    {
        let (a, b) = trim_bounds(chars, from, to);
        if a == b {
            return Ok(());
        }
        let letters = sub_chars(chars, a, b);
        let gray = vec!['x', 'x', 'x', 'x', 'x'];
        match Word::from_chars(&letters, &gray) {
            Ok(w) => {
                self.words.push(w);
                assert(w@.states =~= fresh(letters@).states);
                assert(self@ =~= add_entry(old(self)@, chars@.subrange(from as int, to as int)));
                Ok(())
            },
            Err(_) => Err(()),
        }
    }

    /// Applies the four filtering stages for `target`, in order, to every
    /// candidate: greens, yellows, the screen of candidates without yellow,
    /// and the correction of surplus yellow letters. States build up over
    /// calls; only the selection can be reset.
    pub fn process(&mut self, target: &Word)
        ensures
            final(self)@ == old(self)@.map_values(|g: Guess| processed(target@, g)),
    {
        self.filter_greens(target);
        self.filter_yellows(target);
        self.green_yellow_screener(target);
        self.filter_grays(target);
        assert(self@ =~= old(self)@.map_values(|g: Guess| processed(target@, g)));
    }

    /// Unselects every candidate, keeping letters and states.
    pub fn reset_selection(&mut self)
        ensures
            final(self)@ == old(self)@.map_values(|g: Guess| unselected(g)),
    {
        let ghost start = self@;
        let mut k: usize = 0;
        while k < self.words.len()
            invariant
                self.words@.len() == start.len(),
                k <= start.len(),
                forall|m: int|
                    0 <= m < k ==> #[trigger] self.words@[m]@ == (Guess {
                        letters: start[m].letters,
                        states: start[m].states,
                        selected: false,
                    }),
                forall|m: int| k <= m < start.len() ==> #[trigger] self.words@[m]@ == start[m],
            decreases start.len() - k,
        {
            let mut w = self.words[k];
            assert(w@ == start[k as int]);
            w.selected = false;
            self.words.set(k, w);
            assert(self.words@[k as int]@ == w@);
            k = k + 1;
        }
        assert(self@ =~= start.map_values(|g: Guess| unselected(g)));
    }

    /// Processes the target `raise` with the feedback `xyyxg` and returns how
    /// many candidates are selected afterwards.
    pub fn test(&mut self) -> (count: usize)
        ensures
            final(self)@ == old(self)@.map_values(|g: Guess| processed(demo_target(), g)),
            count == count_selected(final(self)@),
    {
        let target = Word {
            word: ['r', 'a', 'i', 's', 'e'],
            state: [
                WordState::Gray,
                WordState::Yellow,
                WordState::Yellow,
                WordState::Gray,
                WordState::Green,
            ],
            selected: false,
        };
        assert(target@.letters =~= demo_target().letters);
        assert(target@.states =~= demo_target().states);
        self.process(&target);
        self.selected_count()
    }

    /// How many candidates are selected.
    pub fn selected_count(&self) -> (r: usize)
        ensures
            r == count_selected(self@),
    {
        let mut count: usize = 0;
        let mut k: usize = 0;
        while k < self.words.len()
            invariant
                k <= self@.len(),
                count == count_selected(self@.take(k as int)),
                count <= k,
            decreases self@.len() - k,
        {
            assert(self@.take(k as int + 1).drop_last() =~= self@.take(k as int));
            if self.words[k].selected {
                count = count + 1;
            }
            k = k + 1;
        }
        assert(self@.take(k as int) =~= self@);
        count
    }

    /// The candidates, in dictionary order.
    pub fn words(&self) -> (r: &Vec<Word>)
        ensures
            r@.len() == self@.len(),
            forall|m: int| 0 <= m < r@.len() ==> #[trigger] r@[m]@ == self@[m],
    {
        &self.words
    }

    /// Applies the green stage to every candidate.
    fn filter_greens(&mut self, target: &Word)
        ensures
            final(self)@ == old(self)@.map_values(|g: Guess| after_greens(target@, g)),
    {
        let ghost start = self@;
        let mut k: usize = 0;
        while k < self.words.len()
            invariant
                self.words@.len() == start.len(),
                k <= start.len(),
                forall|m: int| 0 <= m < k ==> #[trigger] self.words@[m]@ == after_greens(target@, start[m]),
                forall|m: int| k <= m < start.len() ==> #[trigger] self.words@[m]@ == start[m],
            decreases start.len() - k,
        {
            let mut w = self.words[k];
            green_step(target, &mut w);
            self.words.set(k, w);
            k = k + 1;
        }
        assert(self@ =~= start.map_values(|g: Guess| after_greens(target@, g)));
    }

    /// Applies the yellow stage to every candidate.
    fn filter_yellows(&mut self, target: &Word)
        ensures
            final(self)@ == old(self)@.map_values(|g: Guess| after_yellows(target@, g)),
    {
        let ghost start = self@;
        let mut k: usize = 0;
        while k < self.words.len()
            invariant
                self.words@.len() == start.len(),
                k <= start.len(),
                forall|m: int| 0 <= m < k ==> #[trigger] self.words@[m]@ == after_yellows(target@, start[m]),
                forall|m: int| k <= m < start.len() ==> #[trigger] self.words@[m]@ == start[m],
            decreases start.len() - k,
        {
            let mut w = self.words[k];
            yellow_step(target, &mut w);
            self.words.set(k, w);
            k = k + 1;
        }
        assert(self@ =~= start.map_values(|g: Guess| after_yellows(target@, g)));
    }

    /// Unselects every candidate without a yellow position.
    fn green_yellow_screener(&mut self, target: &Word)
        ensures
            final(self)@ == old(self)@.map_values(|g: Guess| after_screen(g)),
    {
        let ghost start = self@;
        let mut k: usize = 0;
        while k < self.words.len()
            invariant
                self.words@.len() == start.len(),
                k <= start.len(),
                forall|m: int| 0 <= m < k ==> #[trigger] self.words@[m]@ == after_screen(start[m]),
                forall|m: int| k <= m < start.len() ==> #[trigger] self.words@[m]@ == start[m],
            decreases start.len() - k,
        {
            let mut w = self.words[k];
            screen_step(&mut w);
            self.words.set(k, w);
            k = k + 1;
        }
        assert(self@ =~= start.map_values(|g: Guess| after_screen(g)));
    }

    /// Applies the gray correction to every candidate.
    fn filter_grays(&mut self, target: &Word)
        ensures
            final(self)@ == old(self)@.map_values(|g: Guess| after_grays(target@, g)),
    {
        let ghost start = self@;
        let mut k: usize = 0;
        while k < self.words.len()
            invariant
                self.words@.len() == start.len(),
                k <= start.len(),
                forall|m: int| 0 <= m < k ==> #[trigger] self.words@[m]@ == after_grays(target@, start[m]),
                forall|m: int| k <= m < start.len() ==> #[trigger] self.words@[m]@ == start[m],
            decreases start.len() - k,
        {
            let mut w = self.words[k];
            gray_step(target, &mut w);
            self.words.set(k, w);
            k = k + 1;
        }
        assert(self@ =~= start.map_values(|g: Guess| after_grays(target@, g)));
    }
}

} // verus!
