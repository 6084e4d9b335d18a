//! Analysis of Duotrigordle, the word-guessing game played on thirty-two
//! boards at once with one shared guess sequence. The library colors a
//! guess against a secret with correct handling of repeated letters,
//! decides whether a candidate word is consistent with observed feedback,
//! tracks per-board candidate lists across a session, and runs a greedy
//! solvability heuristic that only proceeds while some unsolved board has
//! exactly one candidate left.

pub mod board;
pub mod feedback;
pub mod session;
pub mod words;

pub use board::Wordle;
pub use feedback::Color;
pub use feedback::Guess;
pub use session::Duotrigordle;
pub use words::to_char_slice;
pub use words::IndexOf;
