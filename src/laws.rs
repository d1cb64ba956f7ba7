use vstd::prelude::*;

use crate::text::lines;
use crate::word::{count_prefix, count_state, Guess, WordState};
use crate::wordle::{
    after_greens, after_grays, after_screen, after_yellows, count_selected, dictionary, fresh, green_match, has_yellow, lemma_dictionary_fresh, processed,
    unselected, yellow_licensed,
};

verus! {

/// Every state of `g` is gray.
pub open spec fn all_gray(g: Guess) -> bool {
    forall|i: int| 0 <= i < 5 ==> #[trigger] g.states[i] == WordState::Gray
}

/// Every state of `g` is green.
pub open spec fn all_green(g: Guess) -> bool {
    forall|i: int| 0 <= i < 5 ==> #[trigger] g.states[i] == WordState::Green
}

/// Five letters and five states.
pub open spec fn well_formed(g: Guess) -> bool {
    g.letters.len() == 5 && g.states.len() == 5
}

proof fn lemma_none_selected(s: Seq<Guess>)
    requires
        forall|m: int| 0 <= m < s.len() ==> !(#[trigger] s[m]).selected,
    ensures
        count_selected(s) == 0,
    decreases s.len(),
{
    if s.len() > 0 {
        lemma_none_selected(s.drop_last());
    }
}

/// A target whose feedback is all gray selects nothing among candidates that
/// were unselected: no position can match a green.
pub proof fn lemma_all_gray_target_selects_none(t: Guess, s: Seq<Guess>)
    requires
        all_gray(t),
        forall|m: int| 0 <= m < s.len() ==> !(#[trigger] s[m]).selected,
    ensures
        count_selected(s.map_values(|g: Guess| processed(t, g))) == 0,
{
    let r = s.map_values(|g: Guess| processed(t, g));
    assert forall|m: int| 0 <= m < r.len() implies !(#[trigger] r[m]).selected by {
        assert(!after_greens(t, s[m]).selected);
    }
    lemma_none_selected(r);
}

proof fn lemma_process_twice_one(t: Guess, g: Guess)
    requires
        well_formed(g),
        all_gray(g),
    ensures
        processed(t, processed(t, g)) == processed(t, g),
{
    let g1 = processed(t, g);
    let a1 = after_yellows(t, after_greens(t, g));
    let a2 = after_yellows(t, after_greens(t, g1));
    assert forall|j: int| 0 <= j < 5 implies yellow_licensed(t, after_greens(t, g1), j)
        == yellow_licensed(t, after_greens(t, g), j) by {
        assert(after_greens(t, g1).letters[j] == after_greens(t, g).letters[j]);
    }
    assert forall|i: int| 0 <= i < 5 implies green_match(t, g1, i) == green_match(t, g, i) by {
        assert(g1.letters[i] == g.letters[i]);
    }
    assert(after_greens(t, g1).selected ==> after_greens(t, g).selected);
    assert forall|j: int| 0 <= j < 5 implies a2.states[j] == a1.states[j] by {
        if a1.states[j] == WordState::Yellow {
            assert(has_yellow(a1));
        }
    }
    assert(a2.states =~= a1.states);
    assert(after_screen(a2) == after_screen(a1));
    assert(after_grays(t, after_screen(a2)).states =~= after_grays(t, after_screen(a1)).states);
}

/// Processing the same target twice in a row on fresh candidates gives what
/// processing it once gave: states and selection are stable.
pub proof fn lemma_process_twice(t: Guess, s: Seq<Guess>)
    requires
        forall|m: int| 0 <= m < s.len() ==> well_formed(#[trigger] s[m]) && all_gray(s[m]),
    ensures
        s.map_values(|g: Guess| processed(t, g)).map_values(|g: Guess| processed(t, g))
            == s.map_values(|g: Guess| processed(t, g)),
{
    assert forall|m: int| 0 <= m < s.len() implies processed(t, processed(t, #[trigger] s[m]))
        == processed(t, s[m]) by {
        lemma_process_twice_one(t, s[m]);
    }
    assert(s.map_values(|g: Guess| processed(t, g)).map_values(|g: Guess| processed(t, g))
        =~= s.map_values(|g: Guess| processed(t, g)));
}

proof fn lemma_grays_prefix(t: Guess, g: Guess, c: char, n: int)
    requires
        0 <= n <= 5,
        well_formed(g),
        t.letters.contains(c),
    ensures
        count_prefix(g.letters, after_grays(t, g).states, c, WordState::Yellow, n) == if count_prefix(
            g.letters,
            g.states,
            c,
            WordState::Yellow,
            n,
        ) < count_state(t, c, WordState::Yellow) {
            count_prefix(g.letters, g.states, c, WordState::Yellow, n)
        } else {
            count_state(t, c, WordState::Yellow)
        },
    decreases n,
{
    if n > 0 {
        lemma_grays_prefix(t, g, c, n - 1);
    }
}

/// The gray correction leaves a candidate with, for each letter of the
/// target, as many yellow occurrences as it had or as the target has yellow,
/// whichever is fewer: surplus yellow duplicates turn gray.
pub proof fn lemma_gray_correction_count(t: Guess, g: Guess, c: char)
    requires
        well_formed(g),
        t.letters.contains(c),
    ensures
        after_grays(t, g).letters == g.letters,
        count_state(after_grays(t, g), c, WordState::Yellow) == if count_state(
            g,
            c,
            WordState::Yellow,
        ) < count_state(t, c, WordState::Yellow) {
            count_state(g, c, WordState::Yellow)
        } else {
            count_state(t, c, WordState::Yellow)
        },
{
    lemma_grays_prefix(t, g, c, 5);
}

/// After processing, no candidate holds more yellow occurrences of a letter
/// of the target than the target has yellow.
pub proof fn lemma_processed_yellow_bound(t: Guess, g: Guess, c: char)
    requires
        well_formed(g),
        t.letters.contains(c),
    ensures
        count_state(processed(t, g), c, WordState::Yellow) <= count_state(t, c, WordState::Yellow),
{
    let b = after_screen(after_yellows(t, after_greens(t, g)));
    assert(b.states.len() == 5);
    lemma_gray_correction_count(t, b, c);
}

/// On a freshly loaded word list, resetting the selection before processing
/// changes nothing: the result is that of processing the list directly.
pub proof fn lemma_reset_then_process(s: Seq<char>, t: Guess)
    ensures
        dictionary(lines(s)).map_values(|g: Guess| unselected(g)).map_values(
            |g: Guess| processed(t, g),
        ) == dictionary(lines(s)).map_values(|g: Guess| processed(t, g)),
{
    let d = dictionary(lines(s));
    lemma_dictionary_fresh(lines(s));
    assert forall|m: int| 0 <= m < d.len() implies #[trigger] unselected(d[m]) == d[m] by {
        assert(d[m] == fresh(d[m].letters));
    }
    assert(d.map_values(|g: Guess| unselected(g)) =~= d);
}

/// After a target whose feedback is all green, a candidate that carried no
/// yellow state is unselected, the word equal to the target included: with no
/// yellow in the target no candidate gains one, and the screen drops it.
pub proof fn lemma_all_green_target_unselects(t: Guess, g: Guess)
    requires
        all_green(t),
        forall|j: int| 0 <= j < 5 ==> #[trigger] g.states[j] != WordState::Yellow,
    ensures
        !processed(t, g).selected,
{
    let a = after_yellows(t, after_greens(t, g));
    assert forall|j: int| 0 <= j < 5 implies #[trigger] a.states[j] != WordState::Yellow by {
        if yellow_licensed(t, after_greens(t, g), j) {
            let i = choose|i: int|
                0 <= i < 5 && i != j && t.states[i] == WordState::Yellow && #[trigger] t.letters[i]
                    == after_greens(t, g).letters[j];
            assert(t.states[i] == WordState::Green);
        }
    }
}

} // verus!
