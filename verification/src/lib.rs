//! A Klondike-style solitaire engine: a 52-card deck dealt into seven
//! tableau columns, a draw pile (the backlog), a hand, and four suit-ordered
//! foundation buckets, together with the rules that govern every move.
pub mod card;
pub mod column;
pub mod deck;
pub mod playfield;
