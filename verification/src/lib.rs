//! A solver for the water-sort tube puzzle.
//!
//! A puzzle is a row of tubes, each holding up to four stacked units of
//! coloured liquid. A move pours the top run of one tube onto another. The
//! solver searches breadth-first for the shortest sequences of pours that
//! leave every tube holding a single colour or nothing at all.
//!
//! - [`color`] and [`tube`] hold the colours, the tubes and the rule of
//!   pouring; [`pouring`] proves what follows from the rule.
//! - [`game`] holds the positions of the puzzle and the moves between them;
//!   [`conservation`] proves that a well-posed puzzle stays well posed.
//! - [`solver`] holds the search. [`search`] proves that a round of it
//!   misses nothing, and [`replay`] that the records it returns solve the
//!   puzzle when they are replayed.
//! - [`seqs`] holds the facts about sequences that the others use.

pub mod color;
pub mod seqs;
pub mod tube;
pub mod pouring;
pub mod game;
pub mod conservation;
pub mod replay;
pub mod search;
pub mod solver;
