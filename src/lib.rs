//! Narrows a five-letter dictionary down to the words that agree with Wordle
//! feedback: green, yellow and gray letters, duplicate letters included.
use vstd::prelude::*;

pub mod laws;
pub mod text;
pub mod word;
pub mod word_freq;
pub mod wordle;

verus! {

} // verus!
