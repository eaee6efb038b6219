use vstd::prelude::*;

use crate::card::{Card, Suit};

verus! {

/// The suit of the `b`-th block of thirteen cards in a freshly built deck:
/// clubs first, then diamonds, hearts, and spades.
pub open spec fn suit_of_block(b: int) -> Suit {
    if b == 0 {
        Suit::Club
    } else if b == 1 {
        Suit::Diamond
    } else if b == 2 {
        Suit::Heart
    } else {
        Suit::Spade
    }
}

/// The unshuffled 52-card deck: each suit in block order, ace to king
/// within each suit.
pub open spec fn deck_seq() -> Seq<Card> {
    Seq::new(52, |i: int| Card { rank: (i % 13 + 1) as u8, suit: suit_of_block(i / 13) })
}

/// How many cards the deal has consumed before round `k` begins: round `j`
/// places one card face up on column `j` and one face-down card on each of
/// the `6 - j` columns to its right.
pub open spec fn deal_start(k: int) -> int
    decreases k,
{
    if k <= 0 {
        0
    } else {
        deal_start(k - 1) + 7 - (k - 1)
    }
}

/// The running totals of the deal: each round begins where the previous one
/// stopped, and the seven rounds together consume 28 cards.
pub proof fn lemma_deal_start_values()
    ensures
        deal_start(0) == 0,
        deal_start(1) == 7,
        deal_start(2) == 13,
        deal_start(3) == 18,
        deal_start(4) == 22,
        deal_start(5) == 25,
        deal_start(6) == 27,
        deal_start(7) == 28,
{
    assert(deal_start(0) == 0);
    assert(deal_start(1) == 7);
    assert(deal_start(2) == 13);
    assert(deal_start(3) == 18);
    assert(deal_start(4) == 22);
    assert(deal_start(5) == 25);
    assert(deal_start(6) == 27);
    assert(deal_start(7) == 28);
}

/// The face-down cards column `i` holds once the first `rounds` rounds of
/// the deal are done: round `j` hands column `i` the card at deck position
/// `deal_start(j) + i - j`, and only rounds before `i` reach column `i`.
pub open spec fn deal_hidden_upto(rounds: int, i: int) -> Seq<Card> {
    Seq::new(
        (if rounds < i {
            rounds
        } else {
            i
        }) as nat,
        |j: int| deck_seq()[deal_start(j) + i - j],
    )
}

/// The face-down cards column `i` holds after the full seven-round deal:
/// one card from each of rounds `0..i`, so `i` cards in all.
pub open spec fn deal_hidden(i: int) -> Seq<Card> {
    deal_hidden_upto(7, i)
}

/// The deck holds every well-formed card exactly once, and no other card at
/// all. Together with the deal's contract and the card-preservation clause
/// of every operation, the cards across columns, backlog, hand and buckets
/// form the full 52-card deck, without duplicate or loss, in every
/// reachable state.
pub proof fn lemma_deck_exactly_once(c: Card)
    ensures
        deck_seq().to_multiset().count(c) == if c.wf() {
            1nat
        } else {
            0nat
        },
{
    broadcast use vstd::seq_lib::group_to_multiset_ensures;
    broadcast use vstd::multiset::group_multiset_axioms;

    assert forall|i: int, j: int|
        0 <= i < 52 && 0 <= j < 52 && i != j implies deck_seq()[i] != deck_seq()[j] by {
        if deck_seq()[i] == deck_seq()[j] {
            assert(i % 13 == j % 13);
            assert(suit_of_block(i / 13) == suit_of_block(j / 13));
            assert(0 <= i / 13 < 4 && 0 <= j / 13 < 4);
            assert(i / 13 == j / 13);
            assert(i == 13 * (i / 13) + i % 13);
            assert(false);
        }
    }
    assert(deck_seq().no_duplicates());
    deck_seq().lemma_multiset_has_no_duplicates();
    if c.wf() {
        let b: int = match c.suit {
            Suit::Club => 0,
            Suit::Diamond => 1,
            Suit::Heart => 2,
            Suit::Spade => 3,
        };
        let idx = 13 * b + c.rank - 1;
        assert(idx % 13 == c.rank - 1 && idx / 13 == b);
        assert(deck_seq()[idx] == c);
        assert(deck_seq().contains(c));
        assert(deck_seq().to_multiset().count(c) == 1);
    } else {
        if deck_seq().contains(c) {
            let i = choose|i: int| 0 <= i < 52 && deck_seq()[i] == c;
            assert(1 <= deck_seq()[i].rank <= 13);
            assert(false);
        }
        assert(deck_seq().to_multiset().count(c) == 0);
    }
}

/// Build the deck in its standard order.
pub fn build_deck() -> (d: Vec<Card>)
    ensures
        d@ == deck_seq(),
{
    let mut d: Vec<Card> = Vec::new();
    let mut s: usize = 0;
    while s < 4
        invariant
            s <= 4,
            d@.len() == 13 * s,
            forall|i: int| 0 <= i < d@.len() ==> d@[i] == deck_seq()[i],
        decreases 4 - s,
    {
        let suit = if s == 0 {
            Suit::Club
        } else if s == 1 {
            Suit::Diamond
        } else if s == 2 {
            Suit::Heart
        } else {
            Suit::Spade
        };
        let mut r: usize = 1;
        while r <= 13
            invariant
                s < 4,
                1 <= r <= 14,
                suit == suit_of_block(s as int),
                d@.len() == 13 * s + r - 1,
                forall|i: int| 0 <= i < d@.len() ==> d@[i] == deck_seq()[i],
            decreases 14 - r,
        {
            d.push(Card { rank: r as u8, suit });
            proof {
                let i0 = 13 * (s as int) + (r as int) - 1;
                assert(i0 % 13 == r - 1 && i0 / 13 == s as int) by (nonlinear_arith)
                    requires
                        s < 4,
                        1 <= r <= 13,
                        i0 == 13 * (s as int) + (r as int) - 1,
                ;
            }
            r += 1;
        }
        s += 1;
    }
    proof {
        assert(d@ =~= deck_seq());
    }
    d
}

} // verus!
