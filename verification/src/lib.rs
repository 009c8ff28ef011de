//! A Wordle helper: colours, bitmap encodings of words and of the information a guess
//! earns, narrowing of the possible secrets, and scoring of guesses.
pub mod bitmap;
pub mod counting;
pub mod encoding;
pub mod entry;
pub mod feedback;
pub mod laws;
pub mod ranking;
pub mod solver;
pub mod words;
