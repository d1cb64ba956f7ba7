use wordle::word::{parse_wordle_input, InvalidInput, Word, WordState};
use wordle::wordle::{DictionaryError, Wordle};

use WordState::{Gray, Green, Yellow};

fn target(word: &str, code: &str) -> Word {
    Word::new(word, code).unwrap()
}

fn selected(w: &Wordle) -> Vec<(String, [WordState; 5])> {
    w.words()
        .iter()
        .filter(|el| el.selected)
        .map(|el| (el.word.iter().collect::<String>(), el.state))
        .collect()
}

#[test]
fn new_reads_letters_and_code() {
    let w = target("raise", "xyyxg");
    assert_eq!(w.word, ['r', 'a', 'i', 's', 'e']);
    assert_eq!(w.state, [Gray, Yellow, Yellow, Gray, Green]);
    assert!(!w.selected);
}

#[test]
fn new_rejects_bad_input() {
    assert_eq!(Word::new("rais", "xyyxg").unwrap_err(), InvalidInput::InvalidInput);
    assert_eq!(Word::new("raises", "xyyxg").unwrap_err(), InvalidInput::InvalidInput);
    assert_eq!(Word::new("Raise", "xyyxg").unwrap_err(), InvalidInput::InvalidInput);
    assert_eq!(Word::new("raise", "xyyx").unwrap_err(), InvalidInput::InvalidInput);
    assert_eq!(Word::new("raise", "xyyxz").unwrap_err(), InvalidInput::InvalidInput);
}

#[test]
fn interpret_state_sets_only_coded_positions() {
    let mut w = target("sheep", "xxxxx");
    Word::interpret_state(&mut w, "gq");
    assert_eq!(w.state, [Green, Gray, Gray, Gray, Gray]);
    Word::interpret_state(&mut w, "yyg");
    assert_eq!(w.state, [Yellow, Yellow, Green, Gray, Gray]);
}

#[test]
fn count_state_for_char_counts_own_positions() {
    let w = target("sheep", "gyyyx");
    assert_eq!(w.count_state_for_char('e', Yellow), 2);
    assert_eq!(w.count_state_for_char('s', Green), 1);
    assert_eq!(w.count_state_for_char('s', Yellow), 0);
    assert_eq!(w.count_state_for_char('z', Yellow), 0);
}

#[test]
fn parse_accepts_feedback_line() {
    let w = parse_wordle_input("raise xyyxg").unwrap();
    assert_eq!(w.word, ['r', 'a', 'i', 's', 'e']);
    assert_eq!(w.state, [Gray, Yellow, Yellow, Gray, Green]);
    assert!(parse_wordle_input("raise\txyyxg").is_some());
}

#[test]
fn parse_rejects_malformed_lines() {
    assert!(parse_wordle_input("raise xyyxg\n").is_none());
    assert!(parse_wordle_input("raisexyyxg").is_none());
    assert!(parse_wordle_input("raise  xyyxg").is_none());
    assert!(parse_wordle_input("rAise xyyxg").is_none());
    assert!(parse_wordle_input("raise xyyxa").is_none());
    assert!(parse_wordle_input("").is_none());
}

#[test]
fn load_trims_and_skips_blank_lines() {
    let w = Wordle::new("  yitie \n\nzante\r\n").unwrap();
    let words: Vec<String> = w.words().iter().map(|el| el.word.iter().collect()).collect();
    assert_eq!(words, vec!["yitie".to_string(), "zante".to_string()]);
    for el in w.words() {
        assert_eq!(el.state, [Gray; 5]);
        assert!(!el.selected);
    }
    assert_eq!(Wordle::new("").unwrap().words().len(), 0);
}

#[test]
fn load_reports_first_malformed_line() {
    assert_eq!(
        Wordle::new("yitie\nzan\nabcdefg").err(),
        Some(DictionaryError::MalformedEntry(1))
    );
    assert_eq!(Wordle::new("yitie\n\nZANTE").err(), Some(DictionaryError::MalformedEntry(2)));
}

#[test]
fn raise_scenario_selects_expected_words() {
    let mut w = Wordle::new("yitie\nzante\naside\nraise\nhello").unwrap();
    let count = w.test();
    assert_eq!(count, 2);
    assert_eq!(
        selected(&w),
        vec![
            ("yitie".to_string(), [Gray, Yellow, Gray, Gray, Green]),
            ("aside".to_string(), [Yellow, Gray, Gray, Gray, Green]),
        ]
    );
    assert_eq!(w.selected_count(), 2);
}

#[test]
fn process_matches_the_demo_target() {
    let mut a = Wordle::new("yitie\nzante\naside").unwrap();
    let mut b = Wordle::new("yitie\nzante\naside").unwrap();
    a.test();
    b.process(&target("raise", "xyyxg"));
    assert_eq!(selected(&a), selected(&b));
}

#[test]
fn all_gray_target_selects_nothing() {
    let mut w = Wordle::new("yitie\nzante\naside\nraise").unwrap();
    w.process(&target("raise", "xxxxx"));
    assert_eq!(w.selected_count(), 0);
}

#[test]
fn processing_twice_is_stable() {
    let mut w = Wordle::new("yitie\nzante\naside\nraise\nsalve").unwrap();
    let t = target("raise", "xyyxg");
    w.process(&t);
    let once = selected(&w);
    w.process(&t);
    assert_eq!(selected(&w), once);
}

#[test]
fn surplus_yellow_duplicate_turns_gray() {
    let mut w = Wordle::new("ehave").unwrap();
    w.process(&target("sheep", "ggygx"));
    assert_eq!(selected(&w), vec![("ehave".to_string(), [Yellow, Green, Gray, Gray, Gray])]);
}

#[test]
fn reset_then_process_on_fresh_list_matches_first_process() {
    let mut a = Wordle::new("yitie\nzante\naside").unwrap();
    let mut b = Wordle::new("yitie\nzante\naside").unwrap();
    let t = target("raise", "xyyxg");
    a.process(&t);
    b.reset_selection();
    b.process(&t);
    assert_eq!(selected(&a), selected(&b));
}

#[test]
fn reset_clears_selection_and_keeps_states() {
    let mut w = Wordle::new("yitie\nzante").unwrap();
    w.process(&target("raise", "xyyxg"));
    w.reset_selection();
    assert_eq!(w.selected_count(), 0);
    assert_eq!(w.words()[0].state, [Gray, Yellow, Gray, Gray, Green]);
}

#[test]
fn all_green_target_unselects_candidates_without_yellow() {
    let mut w = Wordle::new("raise\nrains").unwrap();
    w.process(&target("raise", "ggggg"));
    assert_eq!(w.selected_count(), 0);
    assert_eq!(w.words()[0].state, [Green; 5]);
}
