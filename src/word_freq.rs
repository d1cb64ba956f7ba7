use vstd::prelude::*;

use crate::word::Guess;
use crate::text::lines;
use crate::wordle::{fresh, lemma_dictionary_fresh, load_result, DictionaryError, Wordle};

verus! {

/// Letter statistics over a word list: for one letter, how many words hold it
/// at each position, and how many words hold it anywhere.
#[derive(Clone, Copy, Debug)]
pub struct FreqChar {
    pub letter: char,
    pub green_freq: [u32; 5],
    pub yellow_freq: u32,
}

/// How many of `words` hold `c` at position `pos`.
pub open spec fn count_at(words: Seq<Seq<char>>, c: char, pos: int) -> nat
    decreases words.len(),
{
    if words.len() == 0 {
        0
    } else {
        count_at(words.drop_last(), c, pos) + if words.last()[pos] == c {
            1nat
        } else {
            0nat
        }
    }
}

/// How many of `words` hold `c` anywhere.
pub open spec fn count_holding(words: Seq<Seq<char>>, c: char) -> nat
    decreases words.len(),
{
    if words.len() == 0 {
        0
    } else {
        count_holding(words.drop_last(), c) + if words.last().contains(c) {
            1nat
        } else {
            0nat
        }
    }
}

/// How many positions of `w` hold `c`.
pub open spec fn occurrences(w: Seq<char>, c: char, n: int) -> nat
    decreases n,
{
    if n <= 0 {
        0
    } else {
        occurrences(w, c, n - 1) + if w[n - 1] == c {
            1nat
        } else {
            0nat
        }
    }
}

/// The letter that row `i` of the table counts: `a` for 0 up to `z` for 25.
pub open spec fn row_letter(i: int) -> char {
    ((97 + i) as u8) as char
}

proof fn lemma_count_at_bound(words: Seq<Seq<char>>, c: char, pos: int)
    ensures
        count_at(words, c, pos) <= words.len(),
    decreases words.len(),
{
    if words.len() > 0 {
        lemma_count_at_bound(words.drop_last(), c, pos);
    }
}

proof fn lemma_count_holding_bound(words: Seq<Seq<char>>, c: char)
    ensures
        count_holding(words, c) <= words.len(),
    decreases words.len(),
{
    if words.len() > 0 {
        lemma_count_holding_bound(words.drop_last(), c);
    }
}

impl FreqChar {
    /// A letter with every count at zero.
    pub fn new(letter: char) -> (r: Self)
        ensures
            r.letter == letter,
            r.green_freq@ == seq![0u32, 0u32, 0u32, 0u32, 0u32],
            r.yellow_freq == 0,
    {
        let r = Self { letter, green_freq: [0; 5], yellow_freq: 0 };
        assert(r.green_freq@ =~= seq![0u32, 0u32, 0u32, 0u32, 0u32]);
        r
    }

    /// The sum of the per-position counts.
    pub fn green_sum(&self) -> (r: u64)
        ensures
            r == self.green_freq[0] + self.green_freq[1] + self.green_freq[2] + self.green_freq[3]
                + self.green_freq[4],
    {
        self.green_freq[0] as u64 + self.green_freq[1] as u64 + self.green_freq[2] as u64
            + self.green_freq[3] as u64 + self.green_freq[4] as u64
    }
}

/// Letter statistics for a word list, one row per letter from `a` to `z`.
pub struct WordFreq {
    words: Vec<[char; 5]>,
    state: [FreqChar; 26],
}

impl WordFreq {
    /// The letters of the words.
    pub closed spec fn spec_words(&self) -> Seq<Seq<char>> {
        self.words@.map_values(|w: [char; 5]| w@)
    }

    /// The rows of the table.
    pub closed spec fn spec_state(&self) -> Seq<FreqChar> {
        self.state@
    }

    /// A table over the words of a word list, loaded as `Wordle::new` loads
    /// it, with one row per letter from `a` to `z` and every count at zero.
    pub fn new(word_list: &str) -> (r: Result<WordFreq, DictionaryError>)
        ensures
            load_result(
                word_list@,
                match r {
                    Ok(f) => Ok(f.spec_words().map_values(|w: Seq<char>| fresh(w))),
                    Err(e) => Err(e),
                },
            ),
            r matches Ok(f) ==> f.fresh_rows(),
    {
        match Wordle::new(word_list) {
            Err(e) => Err(e),
            Ok(w) => {
                let mut instance = Self { words: Vec::new(), state: [FreqChar::new('0'); 26] };
                instance.init_word_list(&w);
                instance.init_chars();
                proof {
                    lemma_dictionary_fresh(lines(word_list@));
                    assert(instance.spec_words().map_values(|w: Seq<char>| fresh(w)) =~= w@);
                }
                Ok(instance)
            },
        }
    }

    /// Row `i` counts letter `row_letter(i)`, and every count is zero.
    pub open spec fn fresh_rows(&self) -> bool {
        forall|i: int|
            0 <= i < 26 ==> (#[trigger] self.spec_state()[i]).letter == row_letter(i)
                && self.spec_state()[i].green_freq@ == seq![0u32, 0u32, 0u32, 0u32, 0u32]
                && self.spec_state()[i].yellow_freq == 0
    }

    fn init_chars(&mut self)
        requires
            forall|i: int|
                0 <= i < 26 ==> (#[trigger] old(self).state@[i]).green_freq@ == seq![
                    0u32,
                    0u32,
                    0u32,
                    0u32,
                    0u32,
                ] && old(self).state@[i].yellow_freq == 0,
        ensures
            final(self).fresh_rows(),
            final(self).words == old(self).words,
    {
        let mut i: usize = 0;
        while i < 26
            invariant
                i <= 26,
                self.words == old(self).words,
                forall|k: int|
                    0 <= k < 26 ==> (#[trigger] self.state@[k]).green_freq@ == seq![
                        0u32,
                        0u32,
                        0u32,
                        0u32,
                        0u32,
                    ] && self.state@[k].yellow_freq == 0,
                forall|k: int| 0 <= k < i ==> (#[trigger] self.state@[k]).letter == row_letter(k),
            decreases 26 - i,
        {
            let mut f = self.state[i];
            f.letter = ((97 + i) as u8) as char;
            self.state[i] = f;
            i = i + 1;
        }
    }

    fn init_word_list(&mut self, wordle: &Wordle)
        requires
            old(self).words@.len() == 0,
        ensures
            final(self).spec_words() == wordle@.map_values(|g: Guess| g.letters),
            final(self).state == old(self).state,
    {
        let list = wordle.words();
        let mut k: usize = 0;
        while k < list.len()
            invariant
                k <= list@.len(),
                list@.len() == wordle@.len(),
                forall|m: int| 0 <= m < list@.len() ==> #[trigger] list@[m]@ == wordle@[m],
                self.words@.len() == k,
                forall|m: int| 0 <= m < k ==> #[trigger] self.words@[m]@ == wordle@[m].letters,
                self.state == old(self).state,
            decreases list@.len() - k,
        {
            let w = list[k].word;
            assert(w@ == list@[k as int]@.letters);
            self.words.push(w);
            assert(self.words@[k as int]@ == wordle@[k as int].letters);
            k = k + 1;
        }
        assert(self.spec_words() =~= wordle@.map_values(|g: Guess| g.letters));
    }

    /// The number of words.
    pub fn word_count(&self) -> (r: usize)
        ensures
            r == self.spec_words().len(),
    {
        self.words.len()
    }

    /// The rows of the table, `a` to `z`.
    pub fn states(&self) -> (r: [FreqChar; 26])
        ensures
            r@ == self.spec_state(),
    {
        self.state
    }

    /// Counts both statistics into the table.
    pub fn run(&mut self)
        requires
            old(self).fresh_rows(),
            old(self).spec_words().len() <= u32::MAX,
        ensures
            final(self).spec_words() == old(self).spec_words(),
            final(self).spec_state().len() == 26,
            forall|i: int|
                0 <= i < 26 ==> (#[trigger] final(self).spec_state()[i]).letter == row_letter(i)
                    && final(self).spec_state()[i].yellow_freq == count_holding(
                    old(self).spec_words(),
                    row_letter(i),
                ) && forall|p: int|
                    0 <= p < 5 ==> #[trigger] final(self).spec_state()[i].green_freq@[p]
                        == count_at(old(self).spec_words(), row_letter(i), p),
    {
        self.count_greens();
        self.count_yellows();
    }

    /// Adds to each row, per position, how many words hold its letter there.
    pub fn count_greens(&mut self)
        requires
            forall|i: int, p: int|
                0 <= i < 26 && 0 <= p < 5 ==> #[trigger] old(self).spec_state()[i].green_freq@[p]
                    + old(self).spec_words().len() <= u32::MAX,
        ensures
            final(self).spec_words() == old(self).spec_words(),
            forall|i: int|
                0 <= i < 26 ==> (#[trigger] final(self).spec_state()[i]).letter
                    == old(self).spec_state()[i].letter && final(self).spec_state()[i].yellow_freq
                    == old(self).spec_state()[i].yellow_freq && forall|p: int|
                    0 <= p < 5 ==> #[trigger] final(self).spec_state()[i].green_freq@[p]
                        == old(self).spec_state()[i].green_freq@[p] + count_at(
                        old(self).spec_words(),
                        old(self).spec_state()[i].letter,
                        p,
                    ),
    {
        let ghost words = self.spec_words();
        let ghost start = self.state@;
        assert(start == self.spec_state());
        assert(start.len() == 26);
        let mut i: usize = 0;
        while i < 26
            invariant
                i <= 26,
                self.spec_words() == words,
                forall|k: int, p: int|
                    0 <= k < 26 && 0 <= p < 5 ==> #[trigger] start[k].green_freq@[p] + words.len()
                        <= u32::MAX,
                forall|k: int| i <= k < 26 ==> #[trigger] self.state@[k] == start[k],
                forall|k: int|
                    0 <= k < i ==> (#[trigger] self.state@[k]).letter == start[k].letter
                        && self.state@[k].yellow_freq == start[k].yellow_freq && forall|p: int|
                        0 <= p < 5 ==> #[trigger] self.state@[k].green_freq@[p]
                            == start[k].green_freq@[p] + count_at(words, start[k].letter, p),
            decreases 26 - i,
        {
            let f = self.green_row(self.state[i]);
            self.state[i] = f;
            i = i + 1;
        }
    }

    fn green_row(&self, row: FreqChar) -> (r: FreqChar)
        requires
            forall|p: int|
                0 <= p < 5 ==> #[trigger] row.green_freq@[p] + self.spec_words().len() <= u32::MAX,
        ensures
            r.letter == row.letter,
            r.yellow_freq == row.yellow_freq,
            forall|p: int|
                0 <= p < 5 ==> #[trigger] r.green_freq@[p] == row.green_freq@[p] + count_at(
                    self.spec_words(),
                    row.letter,
                    p,
                ),
    {
        let ghost words = self.spec_words();
        let mut f = row;
        let mut k: usize = 0;
        while k < self.words.len()
            invariant
                words == self.spec_words(),
                k <= words.len(),
                f.letter == row.letter,
                f.yellow_freq == row.yellow_freq,
                forall|p: int| 0 <= p < 5 ==> #[trigger] row.green_freq@[p] + words.len() <= u32::MAX,
                forall|p: int|
                    0 <= p < 5 ==> #[trigger] f.green_freq@[p] == row.green_freq@[p] + count_at(
                        words.take(k as int),
                        row.letter,
                        p,
                    ),
            decreases words.len() - k,
        {
            assert(words.take(k as int + 1).drop_last() =~= words.take(k as int));
            assert(words[k as int] == self.words@[k as int]@);
            proof {
                assert forall|p: int| 0 <= p < 5 implies count_at(words.take(k as int), row.letter, p)
                    <= k by {
                    lemma_count_at_bound(words.take(k as int), row.letter, p);
                }
            }
            let w = self.words[k];
            let ghost before = f;
            let mut p: usize = 0;
            while p < 5
                invariant
                    p <= 5,
                    f.letter == before.letter,
                    f.yellow_freq == before.yellow_freq,
                    forall|q: int| 0 <= q < 5 ==> #[trigger] before.green_freq@[q] < u32::MAX,
                    forall|q: int|
                        0 <= q < 5 ==> #[trigger] f.green_freq@[q] == before.green_freq@[q] + if q
                            < p && w@[q] == before.letter {
                            1int
                        } else {
                            0int
                        },
                decreases 5 - p,
            {
                if w[p] == f.letter {
                    f.green_freq[p] = f.green_freq[p] + 1;
                }
                p = p + 1;
            }
            k = k + 1;
        }
        assert(words.take(k as int) =~= words);
        f
    }

    /// Adds to each row how many words hold its letter anywhere.
    pub fn count_yellows(&mut self)
        requires
            forall|i: int|
                0 <= i < 26 ==> #[trigger] old(self).spec_state()[i].yellow_freq
                    + old(self).spec_words().len() <= u32::MAX,
        ensures
            final(self).spec_words() == old(self).spec_words(),
            forall|i: int|
                0 <= i < 26 ==> (#[trigger] final(self).spec_state()[i]).letter
                    == old(self).spec_state()[i].letter && final(self).spec_state()[i].green_freq
                    == old(self).spec_state()[i].green_freq && final(self).spec_state()[i].yellow_freq
                    == old(self).spec_state()[i].yellow_freq + count_holding(
                    old(self).spec_words(),
                    old(self).spec_state()[i].letter,
                ),
    {
        let ghost words = self.spec_words();
        let ghost start = self.state@;
        assert(start == self.spec_state());
        assert(start.len() == 26);
        let mut i: usize = 0;
        while i < 26
            invariant
                i <= 26,
                self.spec_words() == words,
                forall|k: int| 0 <= k < 26 ==> #[trigger] start[k].yellow_freq + words.len() <= u32::MAX,
                forall|k: int| i <= k < 26 ==> #[trigger] self.state@[k] == start[k],
                forall|k: int|
                    0 <= k < i ==> (#[trigger] self.state@[k]).letter == start[k].letter
                        && self.state@[k].green_freq == start[k].green_freq
                        && self.state@[k].yellow_freq == start[k].yellow_freq + count_holding(
                        words,
                        start[k].letter,
                    ),
            decreases 26 - i,
        {
            let mut f = self.state[i];
            let ghost before = f;
            let mut k: usize = 0;
            while k < self.words.len()
                invariant
                    words == self.spec_words(),
                    k <= words.len(),
                    f.letter == before.letter,
                    f.green_freq == before.green_freq,
                    before.yellow_freq + words.len() <= u32::MAX,
                    f.yellow_freq == before.yellow_freq + count_holding(words.take(k as int), f.letter),
                decreases words.len() - k,
            {
                assert(words.take(k as int + 1).drop_last() =~= words.take(k as int));
                assert(words[k as int] == self.words@[k as int]@);
                proof {
                    lemma_count_holding_bound(words.take(k as int), f.letter);
                }
                if contains_char(&self.words[k], f.letter) {
                    f.yellow_freq = f.yellow_freq + 1;
                }
                k = k + 1;
            }
            assert(words.take(k as int) =~= words);
            self.state[i] = f;
            i = i + 1;
        }
    }

    /// How many times `ltr` occurs in word number `ind`.
    pub fn count_char(&self, ltr: char, ind: usize) -> (r: u8)
        requires
            ind < self.spec_words().len(),
        ensures
            r == occurrences(self.spec_words()[ind as int], ltr, 5),
    {
        let word = self.words[ind];
        let mut count: u8 = 0;
        let mut i: usize = 0;
        while i < 5
            invariant
                i <= 5,
                count == occurrences(word@, ltr, i as int),
                count <= i,
            decreases 5 - i,
        {
            if word[i] == ltr {
                count = count + 1;
            }
            i = i + 1;
        }
        count
    }
}

fn contains_char(w: &[char; 5], c: char) -> (r: bool)
    ensures
        r == w@.contains(c),
{
    let mut i: usize = 0;
    while i < 5
        invariant
            i <= 5,
            forall|k: int| 0 <= k < i ==> w@[k] != c,
        decreases 5 - i,
    {
        if w[i] == c {
            return true;
        }
        i = i + 1;
    }
    false
}

} // verus!
