use vstd::prelude::*;

verus! {

/// The four suits of a standard deck.
#[derive(Debug, Clone, Copy, PartialEq, Eq, Structural)]
pub enum Suit {
    Club,
    Diamond,
    Heart,
    Spade,
}

/// A card is either red or black; which one is determined by its suit.
#[derive(Debug, Clone, Copy, PartialEq, Eq, Structural)]
pub enum Color {
    Red,
    Black,
}

/// The color a suit induces: clubs and spades are black, diamonds and
/// hearts are red.
pub open spec fn color_of(suit: Suit) -> Color {
    match suit {
        Suit::Club | Suit::Spade => Color::Black,
        Suit::Diamond | Suit::Heart => Color::Red,
    }
}

/// A playing card: a rank from 1 (ace) to 13 (king) and a suit.
/// The color is derived from the suit rather than stored, so the two can
/// never fall out of step.
#[derive(Debug, Clone, Copy, PartialEq, Eq, Structural)]
pub struct Card {
    pub rank: u8,
    pub suit: Suit,
}

impl Card {
    /// A card is well formed when its rank lies between ace (1) and king (13).
    pub open spec fn wf(self) -> bool {
        1 <= self.rank <= 13
    }

    pub fn new(rank: u8, suit: Suit) -> (c: Card)
        requires
            1 <= rank <= 13,
        ensures
            c == (Card { rank, suit }),
            c.wf(),
    {
        Card { rank, suit }
    }

    /// The derived color of this card.
    pub fn color(&self) -> (c: Color)
        ensures
            c == color_of(self.suit),
    {
        match self.suit {
            Suit::Club | Suit::Spade => Color::Black,
            Suit::Diamond | Suit::Heart => Color::Red,
        }
    }
}

} // verus!
