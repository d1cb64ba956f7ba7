use wordle::word_freq::{FreqChar, WordFreq};
use wordle::wordle::DictionaryError;

#[test]
fn freq_char_starts_at_zero() {
    let f = FreqChar::new('q');
    assert_eq!(f.letter, 'q');
    assert_eq!(f.green_freq, [0; 5]);
    assert_eq!(f.yellow_freq, 0);
    assert_eq!(f.green_sum(), 0);
}

#[test]
fn green_sum_adds_positions() {
    let mut f = FreqChar::new('a');
    f.green_freq = [1, 2, 3, 4, u32::MAX];
    assert_eq!(f.green_sum(), 10 + u32::MAX as u64);
}

#[test]
fn new_labels_rows_a_to_z() {
    let freq = WordFreq::new("sheep\nraise").unwrap();
    let rows = freq.states();
    assert_eq!(rows[0].letter, 'a');
    assert_eq!(rows[25].letter, 'z');
    assert_eq!(freq.word_count(), 2);
    assert_eq!(WordFreq::new("sheep\nab").err(), Some(DictionaryError::MalformedEntry(1)));
}

#[test]
fn run_counts_positions_and_words() {
    let mut freq = WordFreq::new("sheep\nraise\neerie").unwrap();
    freq.run();
    let rows = freq.states();
    let e = rows[4];
    assert_eq!(e.green_freq, [1, 1, 1, 1, 2]);
    assert_eq!(e.yellow_freq, 3);
    assert_eq!(e.green_sum(), 6);
    let s = rows[18];
    assert_eq!(s.green_freq, [1, 0, 0, 1, 0]);
    assert_eq!(s.yellow_freq, 2);
    let z = rows[25];
    assert_eq!(z.green_freq, [0; 5]);
    assert_eq!(z.yellow_freq, 0);
}

#[test]
fn count_greens_and_yellows_add_up_separately() {
    let mut freq = WordFreq::new("sheep").unwrap();
    freq.count_greens();
    freq.count_greens();
    freq.count_yellows();
    let e = freq.states()[4];
    assert_eq!(e.green_freq, [0, 0, 2, 2, 0]);
    assert_eq!(e.yellow_freq, 1);
}

#[test]
fn count_char_counts_one_word() {
    let freq = WordFreq::new("sheep\neerie").unwrap();
    assert_eq!(freq.count_char('e', 0), 2);
    assert_eq!(freq.count_char('e', 1), 3);
    assert_eq!(freq.count_char('z', 1), 0);
}
