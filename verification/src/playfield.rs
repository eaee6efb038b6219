use vstd::prelude::*;

use crate::card::{color_of, Card, Suit};
use crate::column::{reveal_hidden, reveal_visible, Column};
use crate::deck::{
    build_deck, deal_hidden, deal_hidden_upto, deal_start, deck_seq, lemma_deal_start_values,
};

verus! {

use vstd::multiset::Multiset;

/// Why an operation was refused. Every operation that returns one of these
/// leaves the playfield exactly as it was.
#[derive(Debug, Clone, Copy, PartialEq, Eq, Structural)]
pub enum GameError {
    /// A referenced column index is out of range, or a tableau move names
    /// the same column as source and destination.
    InvalidColumn,
    /// A tableau move asks for a run that reaches below the source column's
    /// face-up cards.
    EmptyMove,
    /// The source column has no face-up card to give away.
    EmptyColumn,
    /// The hand has no card to play.
    EmptyHand,
    /// The named bucket has no card to take back.
    EmptyBucket,
    /// The legality rules reject the placement.
    IllegalMove,
}

/// The single tableau-placement rule: onto an empty column only a king
/// (rank 13) may go; onto a non-empty column only a card one rank below the
/// top card and of the opposite color.
pub open spec fn allowed_move(moving: Card, destination: Option<Card>) -> bool {
    match destination {
        None => moving.rank == 13,
        Some(dest) => dest.rank == moving.rank + 1 && color_of(dest.suit) != color_of(
            moving.suit,
        ),
    }
}

/// The foundation rule: an empty bucket takes only an ace (rank 1); a
/// non-empty bucket takes only the card one rank above its top card.
pub open spec fn bucket_accepts(bucket: Seq<Card>, moving: Card) -> bool {
    if bucket.len() == 0 {
        moving.rank == 1
    } else {
        bucket.last().rank + 1 == moving.rank
    }
}

/// How many cards one draw takes from a non-empty backlog: three, or
/// whatever is left.
pub open spec fn draw_count(backlog: Seq<Card>) -> int {
    if backlog.len() >= 3 {
        3
    } else {
        backlog.len() as int
    }
}

/// The backlog after a draw: a non-empty backlog loses its last
/// `draw_count` cards to the hand; an empty one is rebuilt from the whole
/// hand in reversed order.
pub open spec fn drawn_backlog(backlog: Seq<Card>, hand: Seq<Card>) -> Seq<Card> {
    if backlog.len() == 0 {
        hand.reverse()
    } else {
        backlog.subrange(0, backlog.len() - draw_count(backlog))
    }
}

/// The hand after a draw: a non-empty backlog hands over its last
/// `draw_count` cards, popped one by one from the back; an empty backlog
/// means the hand was recycled and is now empty.
pub open spec fn drawn_hand(backlog: Seq<Card>, hand: Seq<Card>) -> Seq<Card> {
    if backlog.len() == 0 {
        Seq::empty()
    } else {
        hand + backlog.subrange(backlog.len() - draw_count(backlog), backlog.len() as int).reverse()
    }
}

/// Only a king may start an empty column: placing any card on an empty
/// destination is allowed exactly when its rank is 13.
pub proof fn lemma_only_king_on_empty(moving: Card)
    ensures
        allowed_move(moving, None) <==> moving.rank == 13,
{
}

/// Every card a run of columns holds.
pub open spec fn cols_cards(cols: Seq<Column>) -> Multiset<Card>
    decreases cols.len(),
{
    if cols.len() == 0 {
        Multiset::empty()
    } else {
        cols_cards(cols.drop_last()).add(cols.last().cards())
    }
}

/// Replacing one column changes the combined card multiset by exactly the
/// difference between the new column's cards and the old column's cards.
pub proof fn lemma_cols_cards_update(cols: Seq<Column>, i: int, c: Column)
    requires
        0 <= i < cols.len(),
    ensures
        cols_cards(cols.update(i, c)).add(cols[i].cards()) == cols_cards(cols).add(c.cards()),
    decreases cols.len(),
{
    broadcast use vstd::multiset::group_multiset_axioms;
    broadcast use vstd::multiset::group_multiset_properties;

    let u = cols.update(i, c);
    if i == cols.len() - 1 {
        assert(u.drop_last() =~= cols.drop_last());
        assert(u.last() == c);
        assert(cols_cards(u).add(cols[i].cards()) =~= cols_cards(cols).add(c.cards()));
    } else {
        let dl = cols.drop_last();
        lemma_cols_cards_update(dl, i, c);
        assert(u.drop_last() =~= dl.update(i, c));
        assert(u.last() == cols.last());
        assert(cols_cards(u) == cols_cards(dl.update(i, c)).add(cols.last().cards()));
        assert(cols_cards(cols) == cols_cards(dl).add(cols.last().cards()));
        assert(dl[i] == cols[i]);
        assert(cols_cards(dl.update(i, c)).add(dl[i].cards()) == cols_cards(dl).add(c.cards()));
        assert forall|x: Card|
            cols_cards(u).add(cols[i].cards()).count(x) == cols_cards(cols).add(
                c.cards(),
            ).count(x) by {
            assert(cols_cards(dl.update(i, c)).add(dl[i].cards()).count(x) == cols_cards(
                dl,
            ).add(c.cards()).count(x));
        }
        assert(cols_cards(u).add(cols[i].cards()) =~= cols_cards(cols).add(c.cards()));
    }
}

/// Replacing column `i` by a column holding the extra cards `m` grows the
/// combined multiset by exactly `m`.
pub proof fn lemma_cols_cards_grow(cols: Seq<Column>, i: int, newc: Column, m: Multiset<Card>)
    requires
        0 <= i < cols.len(),
        newc.cards() == cols[i].cards().add(m),
    ensures
        cols_cards(cols.update(i, newc)) == cols_cards(cols).add(m),
{
    broadcast use vstd::multiset::group_multiset_axioms;

    lemma_cols_cards_update(cols, i, newc);
    assert forall|x: Card|
        cols_cards(cols.update(i, newc)).count(x) == cols_cards(cols).add(m).count(x) by {
        assert(cols_cards(cols.update(i, newc)).add(cols[i].cards()).count(x) == cols_cards(
            cols,
        ).add(newc.cards()).count(x));
    }
    assert(cols_cards(cols.update(i, newc)) =~= cols_cards(cols).add(m));
}

/// Replacing column `i` by a column missing the cards `m` shrinks the
/// combined multiset by exactly `m`.
pub proof fn lemma_cols_cards_shrink(cols: Seq<Column>, i: int, newc: Column, m: Multiset<Card>)
    requires
        0 <= i < cols.len(),
        cols[i].cards() == newc.cards().add(m),
    ensures
        cols_cards(cols.update(i, newc)).add(m) == cols_cards(cols),
{
    broadcast use vstd::multiset::group_multiset_axioms;

    lemma_cols_cards_update(cols, i, newc);
    assert forall|x: Card|
        cols_cards(cols.update(i, newc)).add(m).count(x) == cols_cards(cols).count(x) by {
        assert(cols_cards(cols.update(i, newc)).add(cols[i].cards()).count(x) == cols_cards(
            cols,
        ).add(newc.cards()).count(x));
    }
    assert(cols_cards(cols.update(i, newc)).add(m) =~= cols_cards(cols));
}

/// Replacing column `i` by a column holding the same cards leaves the
/// combined multiset unchanged.
pub proof fn lemma_cols_cards_same(cols: Seq<Column>, i: int, newc: Column)
    requires
        0 <= i < cols.len(),
        newc.cards() == cols[i].cards(),
    ensures
        cols_cards(cols.update(i, newc)) == cols_cards(cols),
{
    broadcast use vstd::multiset::group_multiset_axioms;

    lemma_cols_cards_update(cols, i, newc);
    assert forall|x: Card| cols_cards(cols.update(i, newc)).count(x) == cols_cards(cols).count(
        x,
    ) by {
        assert(cols_cards(cols.update(i, newc)).add(cols[i].cards()).count(x) == cols_cards(
            cols,
        ).add(newc.cards()).count(x));
    }
    assert(cols_cards(cols.update(i, newc)) =~= cols_cards(cols));
}

/// Replacing column `i` by a column holding one extra card grows the
/// combined multiset by exactly that card.
pub proof fn lemma_cols_cards_add_one(cols: Seq<Column>, i: int, newc: Column, card: Card)
    requires
        0 <= i < cols.len(),
        newc.cards() == cols[i].cards().insert(card),
    ensures
        cols_cards(cols.update(i, newc)) == cols_cards(cols).insert(card),
{
    lemma_cols_cards_grow(cols, i, newc, Multiset::singleton(card));
}

/// Replacing column `i` by a column holding one card fewer shrinks the
/// combined multiset by exactly that card.
pub proof fn lemma_cols_cards_drop_one(cols: Seq<Column>, i: int, newc: Column, card: Card)
    requires
        0 <= i < cols.len(),
        cols[i].cards() == newc.cards().insert(card),
    ensures
        cols_cards(cols.update(i, newc)).insert(card) == cols_cards(cols),
{
    lemma_cols_cards_shrink(cols, i, newc, Multiset::singleton(card));
}

/// Columns that hold no cards contribute nothing to the combined multiset.
pub proof fn lemma_cols_cards_all_empty(cols: Seq<Column>)
    requires
        forall|i: int|
            0 <= i < cols.len() ==> (#[trigger] cols[i]).hidden@.len() == 0
                && cols[i].visible@.len() == 0,
    ensures
        cols_cards(cols) == Multiset::<Card>::empty(),
    decreases cols.len(),
{
    broadcast use vstd::multiset::group_multiset_axioms;
    broadcast use vstd::seq_lib::group_to_multiset_ensures;

    if cols.len() == 0 {
    } else {
        lemma_cols_cards_all_empty(cols.drop_last());
        vstd::multiset::lemma_multiset_empty_len(cols.last().hidden@.to_multiset());
        vstd::multiset::lemma_multiset_empty_len(cols.last().visible@.to_multiset());
        assert(cols_cards(cols) =~= Multiset::<Card>::empty());
    }
}

/// The whole game state: seven tableau columns, the face-down backlog
/// (back = next card drawn), the hand (back = top, playable card), and one
/// foundation bucket per suit (back = top, highest placed rank).
#[derive(Debug)]
pub struct Playfield {
    pub cols: Vec<Column>,
    pub backlog: Vec<Card>,
    pub hand: Vec<Card>,
    pub heart: Vec<Card>,
    pub diamond: Vec<Card>,
    pub spade: Vec<Card>,
    pub club: Vec<Card>,
}

impl Playfield {
    /// A playfield always has exactly seven columns.
    pub open spec fn wf(self) -> bool {
        self.cols@.len() == 7
    }

    /// The bucket that collects the given suit.
    pub open spec fn bucket(self, suit: Suit) -> Seq<Card> {
        match suit {
            Suit::Heart => self.heart@,
            Suit::Diamond => self.diamond@,
            Suit::Spade => self.spade@,
            Suit::Club => self.club@,
        }
    }

    /// Every card the playfield holds, wherever it currently sits.
    pub open spec fn cards(self) -> Multiset<Card> {
        cols_cards(self.cols@).add(self.backlog@.to_multiset()).add(
            self.hand@.to_multiset(),
        ).add(self.heart@.to_multiset()).add(self.diamond@.to_multiset()).add(
            self.spade@.to_multiset(),
        ).add(self.club@.to_multiset())
    }

    /// The game is won when every bucket has climbed from ace to king.
    pub open spec fn won(self) -> bool {
        self.heart@.len() == 13 && self.diamond@.len() == 13 && self.club@.len() == 13
            && self.spade@.len() == 13
    }

    /// Whether `moving_card` may be placed on a tableau column whose top
    /// card is `destination_card` (`None` for an empty column).
    pub fn is_allowed_move(moving_card: &Card, destination_card: &Option<Card>) -> (allowed:
        bool)
        ensures
            allowed == allowed_move(*moving_card, *destination_card),
    {
        match destination_card {
            None => moving_card.rank == 13,
            Some(dest) => {
                (dest.rank as u16) == (moving_card.rank as u16) + 1 && moving_card.color()
                    != dest.color()
            },
        }
    }

    /// Deal a fresh game from the deck in its standard order: column `i`
    /// ends with `i` face-down cards and one face-up card, the 24 cards the
    /// deal does not use become the backlog, and the hand and all four
    /// buckets start empty. Together the containers hold the whole deck.
    pub fn new() -> (pf: Playfield)
        ensures
            pf.wf(),
            pf.cards() == deck_seq().to_multiset(),
            forall|i: int|
                #![trigger pf.cols@[i]]
                0 <= i < 7 ==> {
                    &&& pf.cols@[i].hidden@ == deal_hidden(i)
                    &&& pf.cols@[i].visible@ == seq![deck_seq()[deal_start(i)]]
                    &&& pf.cols@[i].hidden@.len() == i
                    &&& pf.cols@[i].visible@.len() == 1
                },
            pf.backlog@ == deck_seq().subrange(28, 52),
            pf.backlog@.len() == 24,
            pf.hand@ == Seq::<Card>::empty(),
            pf.heart@ == Seq::<Card>::empty(),
            pf.diamond@ == Seq::<Card>::empty(),
            pf.spade@ == Seq::<Card>::empty(),
            pf.club@ == Seq::<Card>::empty(),
    {
        let mut deck = build_deck();
        let mut columns: Vec<Column> = Vec::new();
        let mut n: usize = 0;
        while n < 7
            invariant
                n <= 7,
                columns@.len() == n,
                forall|i: int|
                    #![trigger columns@[i]]
                    0 <= i < n ==> columns@[i].hidden@.len() == 0 && columns@[i].visible@.len()
                        == 0,
            decreases 7 - n,
        {
            columns.push(Column::new());
            n += 1;
        }
        proof {
            lemma_cols_cards_all_empty(columns@);
            vstd::seq_lib::to_multiset_len(deck_seq().subrange(0, 0));
            vstd::multiset::lemma_multiset_empty_len(deck_seq().subrange(0, 0).to_multiset());
            assert(cols_cards(columns@) == deck_seq().subrange(0, 0).to_multiset());
        }
        let mut idx: usize = 0;
        let mut k: usize = 0;
        while k < 7
            invariant
                deck@ == deck_seq(),
                columns@.len() == 7,
                k <= 7,
                idx == deal_start(k as int),
                idx <= 28,
                forall|i: int|
                    #![trigger columns@[i]]
                    0 <= i < 7 ==> {
                        &&& columns@[i].hidden@ == deal_hidden_upto(k as int, i)
                        &&& columns@[i].visible@ == (if i < k {
                            seq![deck_seq()[deal_start(i)]]
                        } else {
                            Seq::<Card>::empty()
                        })
                    },
                cols_cards(columns@) == deck_seq().subrange(0, idx as int).to_multiset(),
            decreases 7 - k,
        {
            proof {
                lemma_deal_start_values();
            }
            let ghost cols0 = columns@;
            let ghost idx0 = idx as int;
            let card = deck[idx];
            columns[k].visible.push(card);
            proof {
                broadcast use vstd::seq_lib::group_to_multiset_ensures;
                broadcast use vstd::multiset::group_multiset_axioms;

                let newc = columns@[k as int];
                assert(columns@ =~= cols0.update(k as int, newc));
                assert(newc.visible@ =~= cols0[k as int].visible@.push(card));
                assert(newc.cards() =~= cols0[k as int].cards().insert(card));
                lemma_cols_cards_add_one(cols0, k as int, newc, card);
                assert(deck_seq().subrange(0, idx0 + 1) =~= deck_seq().subrange(
                    0,
                    idx0,
                ).push(card));
                vstd::seq_lib::to_multiset_build(deck_seq().subrange(0, idx0), card);
                assert(cols_cards(columns@) =~= deck_seq().subrange(0, idx0 + 1).to_multiset());
                assert(columns@[k as int].visible@ =~= seq![deck_seq()[deal_start(k as int)]]);
            }
            idx += 1;
            let mut other = k + 1;
            while other < 7
                invariant
                    deck@ == deck_seq(),
                    columns@.len() == 7,
                    k < 7,
                    k + 1 <= other <= 7,
                    idx == deal_start(k as int) + other - k,
                    idx <= 28,
                    forall|i: int|
                        #![trigger columns@[i]]
                        0 <= i < 7 ==> {
                            &&& columns@[i].hidden@ == deal_hidden_upto(
                                if i < other {
                                    k as int + 1
                                } else {
                                    k as int
                                },
                                i,
                            )
                            &&& columns@[i].visible@ == (if i <= k {
                                seq![deck_seq()[deal_start(i)]]
                            } else {
                                Seq::<Card>::empty()
                            })
                        },
                    cols_cards(columns@) == deck_seq().subrange(0, idx as int).to_multiset(),
                decreases 7 - other,
            {
                proof {
                    lemma_deal_start_values();
                }
                let ghost cols1 = columns@;
                let ghost idx1 = idx as int;
                let card = deck[idx];
                columns[other].hidden.push(card);
                proof {
                    broadcast use vstd::seq_lib::group_to_multiset_ensures;
                    broadcast use vstd::multiset::group_multiset_axioms;

                    let newc = columns@[other as int];
                    assert(columns@ =~= cols1.update(other as int, newc));
                    assert(newc.hidden@ =~= cols1[other as int].hidden@.push(card));
                    assert(newc.cards() =~= cols1[other as int].cards().insert(card));
                    lemma_cols_cards_add_one(cols1, other as int, newc, card);
                    assert(deck_seq().subrange(0, idx1 + 1) =~= deck_seq().subrange(
                        0,
                        idx1,
                    ).push(card));
                    vstd::seq_lib::to_multiset_build(deck_seq().subrange(0, idx1), card);
                    assert(cols_cards(columns@) =~= deck_seq().subrange(
                        0,
                        idx1 + 1,
                    ).to_multiset());
                    assert(columns@[other as int].hidden@ =~= deal_hidden_upto(
                        k as int + 1,
                        other as int,
                    ));
                }
                idx += 1;
                other += 1;
            }
            k += 1;
        }
        let backlog = deck.split_off(28);
        let pf = Playfield {
            cols: columns,
            backlog,
            hand: Vec::new(),
            heart: Vec::new(),
            diamond: Vec::new(),
            spade: Vec::new(),
            club: Vec::new(),
        };
        proof {
            broadcast use vstd::seq_lib::group_to_multiset_ensures;
            broadcast use vstd::multiset::group_multiset_axioms;

            lemma_deal_start_values();
            deck_seq().lemma_split_at(28);
            vstd::seq_lib::lemma_multiset_commutative(
                deck_seq().subrange(0, 28),
                deck_seq().subrange(28, 52),
            );
            vstd::multiset::lemma_multiset_empty_len(Seq::<Card>::empty().to_multiset());
            assert(pf.cards() =~= deck_seq().to_multiset());
        }
        pf
    }

    /// The card a tableau move picks up: the one `depth` cards below the
    /// top of the source column's face-up stack; everything above it moves
    /// along with it.
    pub open spec fn moving_card(self, from: int, depth: int) -> Card {
        self.cols@[from].visible@[self.cols@[from].visible@.len() - 1 - depth]
    }

    /// The outcome a tableau-to-tableau move owes: the two column indices
    /// must be distinct and in range, the requested run must lie within the
    /// source column's face-up cards, and the card at its bottom must be
    /// placeable on the destination's top card.
    pub open spec fn move_check(self, from: int, depth: int, dest: int) -> Result<
        (),
        GameError,
    > {
        if !(0 <= from < 7 && 0 <= dest < 7 && from != dest) {
            Err(GameError::InvalidColumn)
        } else if depth >= self.cols@[from].visible@.len() {
            Err(GameError::EmptyMove)
        } else if !allowed_move(self.moving_card(from, depth), self.cols@[dest].top()) {
            Err(GameError::IllegalMove)
        } else {
            Ok(())
        }
    }

    /// Move a run of face-up cards from one column onto another: the run
    /// starts `card_index` cards below the top of the source column and
    /// keeps its order. On success the source column reveals its next
    /// face-down card if the move bared it; on any failure nothing changes.
    pub fn move_cards(
        &mut self,
        col_from_index: usize,
        card_index: usize,
        destination: usize,
    ) -> (r: Result<(), GameError>)
        requires
            old(self).wf(),
        ensures
            final(self).wf(),
            final(self).cards() == old(self).cards(),
            r == old(self).move_check(
                col_from_index as int,
                card_index as int,
                destination as int,
            ),
            r is Err ==> *final(self) == *old(self),
            r is Ok ==> ({
                let from = col_from_index as int;
                let dest = destination as int;
                let src = old(self).cols@[from];
                let cut = src.visible@.len() - card_index - 1;
                let run = src.visible@.subrange(cut, src.visible@.len() as int);
                &&& final(self).cols@[from].hidden@ == reveal_hidden(
                    src.hidden@,
                    src.visible@.subrange(0, cut),
                )
                &&& final(self).cols@[from].visible@ == reveal_visible(
                    src.hidden@,
                    src.visible@.subrange(0, cut),
                )
                &&& final(self).cols@[dest].hidden@ == old(self).cols@[dest].hidden@
                &&& final(self).cols@[dest].visible@ == old(self).cols@[dest].visible@ + run
                &&& forall|j: int|
                    0 <= j < 7 && j != from && j != dest ==> final(self).cols@[j] == old(
                        self,
                    ).cols@[j]
                &&& final(self).backlog@ == old(self).backlog@
                &&& final(self).hand@ == old(self).hand@
                &&& final(self).heart@ == old(self).heart@
                &&& final(self).diamond@ == old(self).diamond@
                &&& final(self).spade@ == old(self).spade@
                &&& final(self).club@ == old(self).club@
            }),
    {
        if col_from_index >= 7 || destination >= 7 || col_from_index == destination {
            return Err(GameError::InvalidColumn);
        }
        let src_len = self.cols[col_from_index].visible.len();
        if card_index >= src_len {
            return Err(GameError::EmptyMove);
        }
        let cut = src_len - card_index - 1;
        let moving = self.cols[col_from_index].visible[cut];
        let dest_len = self.cols[destination].visible.len();
        let destination_card: Option<Card> = if dest_len == 0 {
            None
        } else {
            Some(self.cols[destination].visible[dest_len - 1])
        };
        if !Playfield::is_allowed_move(&moving, &destination_card) {
            return Err(GameError::IllegalMove);
        }
        let ghost cols0 = self.cols@;
        let mut run = self.cols[col_from_index].visible.split_off(cut);
        let ghost run_seq = run@;
        let ghost cols1 = self.cols@;
        self.cols[destination].visible.append(&mut run);
        let ghost cols2 = self.cols@;
        self.cols[col_from_index].reveal_top();
        proof {
            broadcast use vstd::seq_lib::group_to_multiset_ensures;
            broadcast use vstd::multiset::group_multiset_axioms;

            let from = col_from_index as int;
            let dest = destination as int;
            let src = cols0[from];
            let vis = src.visible@;
            let cut_i = cut as int;
            let run_m = run_seq.to_multiset();
            assert(cols1 =~= cols0.update(from, cols1[from]));
            vis.lemma_split_at(cut_i);
            vstd::seq_lib::lemma_multiset_commutative(vis.subrange(0, cut_i), run_seq);
            assert(src.cards() =~= cols1[from].cards().add(run_m));
            lemma_cols_cards_shrink(cols0, from, cols1[from], run_m);
            assert(cols2 =~= cols1.update(dest, cols2[dest]));
            vstd::seq_lib::lemma_multiset_commutative(cols1[dest].visible@, run_seq);
            assert(cols2[dest].cards() =~= cols1[dest].cards().add(run_m));
            lemma_cols_cards_grow(cols1, dest, cols2[dest], run_m);
            assert(self.cols@ =~= cols2.update(from, self.cols@[from]));
            lemma_cols_cards_same(cols2, from, self.cols@[from]);
            assert(cols_cards(self.cols@) =~= cols_cards(cols0));
            assert(self.cards() =~= old(self).cards());
        }
        Ok(())
    }

    /// Draw from the backlog into the hand: up to three cards, popped one by
    /// one from the back of the backlog onto the top of the hand. When the
    /// backlog is empty the whole hand is recycled instead: it becomes the
    /// new backlog in reversed order and the hand is left empty. Never fails.
    pub fn draw_hand(&mut self)
        ensures
            final(self).backlog@ == drawn_backlog(old(self).backlog@, old(self).hand@),
            final(self).hand@ == drawn_hand(old(self).backlog@, old(self).hand@),
            final(self).cols@ == old(self).cols@,
            final(self).heart@ == old(self).heart@,
            final(self).diamond@ == old(self).diamond@,
            final(self).spade@ == old(self).spade@,
            final(self).club@ == old(self).club@,
            final(self).cards() == old(self).cards(),
            old(self).backlog@.len() >= 3 ==> final(self).hand@.len() == old(self).hand@.len()
                + 3 && final(self).backlog@.len() == old(self).backlog@.len() - 3,
            old(self).backlog@.len() == 0 ==> final(self).backlog@.len() == old(
                self,
            ).hand@.len() && final(self).hand@.len() == 0,
    {
        let ghost b0 = old(self).backlog@;
        let ghost h0 = old(self).hand@;
        match self.backlog.pop() {
            Some(card) => {
                self.hand.push(card);
                match self.backlog.pop() {
                    Some(card2) => {
                        self.hand.push(card2);
                        match self.backlog.pop() {
                            Some(card3) => {
                                self.hand.push(card3);
                            },
                            None => {},
                        }
                    },
                    None => {},
                }
                proof {
                    broadcast use vstd::seq_lib::group_to_multiset_ensures;
                    broadcast use vstd::multiset::group_multiset_axioms;

                    let k = draw_count(b0);
                    let keep = b0.subrange(0, b0.len() - k);
                    let taken = b0.subrange(b0.len() - k, b0.len() as int);
                    assert(self.backlog@ =~= keep);
                    assert(self.hand@ =~= h0 + taken.reverse());
                    b0.lemma_split_at(b0.len() - k);
                    vstd::seq_lib::lemma_multiset_commutative(keep, taken);
                    vstd::seq_lib::lemma_multiset_commutative(h0, taken.reverse());
                    taken.lemma_reverse_to_multiset();
                    assert(self.cards() =~= old(self).cards());
                }
            },
            None => {
                let ghost h = self.hand@;
                let n = self.hand.len();
                let mut recycled: Vec<Card> = Vec::new();
                let mut i: usize = 0;
                while i < n
                    invariant
                        i <= n,
                        n == self.hand@.len(),
                        self.hand@ == h,
                        recycled@.len() == i,
                        forall|q: int| 0 <= q < i ==> recycled@[q] == h[n - 1 - q],
                    decreases n - i,
                {
                    let c = self.hand[n - 1 - i];
                    recycled.push(c);
                    i += 1;
                }
                self.backlog = recycled;
                self.hand.clear();
                proof {
                    broadcast use vstd::seq_lib::group_to_multiset_ensures;
                    broadcast use vstd::multiset::group_multiset_axioms;

                    assert(self.backlog@ =~= h0.reverse());
                    h0.lemma_reverse_to_multiset();
                    vstd::multiset::lemma_multiset_empty_len(self.hand@.to_multiset());
                    vstd::multiset::lemma_multiset_empty_len(b0.to_multiset());
                    assert(self.cards() =~= old(self).cards());
                }
            },
        }
    }

    /// The outcome playing the hand's top card onto a column owes: the hand
    /// must be non-empty, the column index in range, and the hand's top card
    /// placeable on the column's top card.
    pub open spec fn hand_check(self, column: int) -> Result<(), GameError> {
        if self.hand@.len() == 0 {
            Err(GameError::EmptyHand)
        } else if !(0 <= column < 7) {
            Err(GameError::InvalidColumn)
        } else if !allowed_move(self.hand@.last(), self.cols@[column].top()) {
            Err(GameError::IllegalMove)
        } else {
            Ok(())
        }
    }

    /// Play the hand's top card onto a column. When that empties the hand,
    /// a draw follows at once, so the player is never left staring at an
    /// empty hand while the backlog still has cards.
    pub fn hand_to_column(&mut self, column: usize) -> (r: Result<(), GameError>)
        requires
            old(self).wf(),
        ensures
            final(self).wf(),
            final(self).cards() == old(self).cards(),
            r == old(self).hand_check(column as int),
            r is Err ==> *final(self) == *old(self),
            r is Ok ==> ({
                let col = column as int;
                let moved = old(self).hand@.last();
                let mid_hand = old(self).hand@.drop_last();
                &&& final(self).cols@[col].hidden@ == old(self).cols@[col].hidden@
                &&& final(self).cols@[col].visible@ == old(self).cols@[col].visible@.push(moved)
                &&& forall|j: int|
                    0 <= j < 7 && j != col ==> final(self).cols@[j] == old(self).cols@[j]
                &&& final(self).heart@ == old(self).heart@
                &&& final(self).diamond@ == old(self).diamond@
                &&& final(self).spade@ == old(self).spade@
                &&& final(self).club@ == old(self).club@
                &&& if mid_hand.len() == 0 {
                    final(self).hand@ == drawn_hand(old(self).backlog@, mid_hand)
                        && final(self).backlog@ == drawn_backlog(old(self).backlog@, mid_hand)
                } else {
                    final(self).hand@ == mid_hand && final(self).backlog@ == old(self).backlog@
                }
            }),
    {
        if self.hand.len() == 0 {
            return Err(GameError::EmptyHand);
        }
        if column >= 7 {
            return Err(GameError::InvalidColumn);
        }
        let hlen = self.hand.len();
        let card = self.hand[hlen - 1];
        let dlen = self.cols[column].visible.len();
        let destination_card: Option<Card> = if dlen == 0 {
            None
        } else {
            Some(self.cols[column].visible[dlen - 1])
        };
        if !Playfield::is_allowed_move(&card, &destination_card) {
            return Err(GameError::IllegalMove);
        }
        let ghost cols0 = self.cols@;
        let moved = self.hand.pop().unwrap();
        self.cols[column].visible.push(moved);
        proof {
            broadcast use vstd::seq_lib::group_to_multiset_ensures;
            broadcast use vstd::multiset::group_multiset_axioms;

            let col = column as int;
            assert(self.cols@ =~= cols0.update(col, self.cols@[col]));
            assert(old(self).hand@ =~= self.hand@.push(moved));
            assert(self.cols@[col].cards() =~= cols0[col].cards().insert(moved));
            lemma_cols_cards_add_one(cols0, col, self.cols@[col], moved);
            assert(self.cards() =~= old(self).cards());
        }
        if self.hand.len() == 0 {
            self.draw_hand();
        }
        Ok(())
    }

    /// Whether `moving` may go on top of this bucket right now.
    fn bucket_fits(bucket: &Vec<Card>, moving: &Card) -> (r: bool)
        ensures
            r == bucket_accepts(bucket@, *moving),
    {
        let blen = bucket.len();
        if blen == 0 {
            moving.rank == 1
        } else {
            (bucket[blen - 1].rank as u16) + 1 == (moving.rank as u16)
        }
    }

    /// The outcome sending a column's top card to its foundation bucket
    /// owes: the column index must be in range, the column must have a
    /// face-up card, and the bucket of that card's suit must accept it.
    pub open spec fn bucket_check(self, column: int) -> Result<(), GameError> {
        if !(0 <= column < 7) {
            Err(GameError::InvalidColumn)
        } else if self.cols@[column].visible@.len() == 0 {
            Err(GameError::EmptyColumn)
        } else if !bucket_accepts(
            self.bucket(self.cols@[column].visible@.last().suit),
            self.cols@[column].visible@.last(),
        ) {
            Err(GameError::IllegalMove)
        } else {
            Ok(())
        }
    }

    /// Send a column's top face-up card to the bucket of its suit, then
    /// reveal the column's next face-down card if the move bared it.
    pub fn column_to_bucket(&mut self, column: usize) -> (r: Result<(), GameError>)
        requires
            old(self).wf(),
        ensures
            final(self).wf(),
            final(self).cards() == old(self).cards(),
            r == old(self).bucket_check(column as int),
            r is Err ==> *final(self) == *old(self),
            r is Ok ==> ({
                let col = column as int;
                let src = old(self).cols@[col];
                let moved = src.visible@.last();
                &&& final(self).cols@[col].hidden@ == reveal_hidden(
                    src.hidden@,
                    src.visible@.drop_last(),
                )
                &&& final(self).cols@[col].visible@ == reveal_visible(
                    src.hidden@,
                    src.visible@.drop_last(),
                )
                &&& forall|j: int|
                    0 <= j < 7 && j != col ==> final(self).cols@[j] == old(self).cols@[j]
                &&& final(self).bucket(moved.suit) == old(self).bucket(moved.suit).push(moved)
                &&& forall|t: Suit|
                    t != moved.suit ==> (#[trigger] final(self).bucket(t)) == old(self).bucket(t)
                &&& final(self).hand@ == old(self).hand@
                &&& final(self).backlog@ == old(self).backlog@
            }),
    {
        if column >= 7 {
            return Err(GameError::InvalidColumn);
        }
        let vlen = self.cols[column].visible.len();
        if vlen == 0 {
            return Err(GameError::EmptyColumn);
        }
        let moving = self.cols[column].visible[vlen - 1];
        let fits = match moving.suit {
            Suit::Heart => Playfield::bucket_fits(&self.heart, &moving),
            Suit::Club => Playfield::bucket_fits(&self.club, &moving),
            Suit::Diamond => Playfield::bucket_fits(&self.diamond, &moving),
            Suit::Spade => Playfield::bucket_fits(&self.spade, &moving),
        };
        if !fits {
            return Err(GameError::IllegalMove);
        }
        let ghost cols0 = self.cols@;
        let card = self.cols[column].visible.pop().unwrap();
        match card.suit {
            Suit::Heart => self.heart.push(card),
            Suit::Club => self.club.push(card),
            Suit::Diamond => self.diamond.push(card),
            Suit::Spade => self.spade.push(card),
        }
        let ghost cols_mid = self.cols@;
        self.cols[column].reveal_top();
        proof {
            broadcast use vstd::seq_lib::group_to_multiset_ensures;
            broadcast use vstd::multiset::group_multiset_axioms;

            let col = column as int;
            assert(cols_mid =~= cols0.update(col, cols_mid[col]));
            assert(cols0[col].visible@ =~= cols_mid[col].visible@.push(card));
            assert(cols0[col].cards() =~= cols_mid[col].cards().insert(card));
            lemma_cols_cards_drop_one(cols0, col, cols_mid[col], card);
            assert(self.cols@ =~= cols_mid.update(col, self.cols@[col]));
            lemma_cols_cards_same(cols_mid, col, self.cols@[col]);
            assert(self.cards() =~= old(self).cards());
        }
        Ok(())
    }

    /// The outcome taking a bucket's top card back onto a column owes: the
    /// column index must be in range, the bucket non-empty, and the
    /// bucket's top card placeable on the column's top card under the same
    /// rule as any tableau placement.
    pub open spec fn bucket_from_check(self, column: int, suit: Suit) -> Result<
        (),
        GameError,
    > {
        if !(0 <= column < 7) {
            Err(GameError::InvalidColumn)
        } else if self.bucket(suit).len() == 0 {
            Err(GameError::EmptyBucket)
        } else if !allowed_move(self.bucket(suit).last(), self.cols@[column].top()) {
            Err(GameError::IllegalMove)
        } else {
            Ok(())
        }
    }

    /// Take the top card of the named bucket back onto a column. The
    /// placement follows the tableau rule (descending rank, alternating
    /// color), not the foundation rule.
    pub fn bucket_to_column(&mut self, column: usize, bucket_suit: Suit) -> (r: Result<
        (),
        GameError,
    >)
        requires
            old(self).wf(),
        ensures
            final(self).wf(),
            final(self).cards() == old(self).cards(),
            r == old(self).bucket_from_check(column as int, bucket_suit),
            r is Err ==> *final(self) == *old(self),
            r is Ok ==> ({
                let col = column as int;
                let moved = old(self).bucket(bucket_suit).last();
                &&& final(self).bucket(bucket_suit) == old(self).bucket(
                    bucket_suit,
                ).drop_last()
                &&& forall|t: Suit|
                    t != bucket_suit ==> (#[trigger] final(self).bucket(t)) == old(self).bucket(
                        t,
                    )
                &&& final(self).cols@[col].hidden@ == old(self).cols@[col].hidden@
                &&& final(self).cols@[col].visible@ == old(self).cols@[col].visible@.push(moved)
                &&& forall|j: int|
                    0 <= j < 7 && j != col ==> final(self).cols@[j] == old(self).cols@[j]
                &&& final(self).hand@ == old(self).hand@
                &&& final(self).backlog@ == old(self).backlog@
            }),
    {
        if column >= 7 {
            return Err(GameError::InvalidColumn);
        }
        let blen = match bucket_suit {
            Suit::Heart => self.heart.len(),
            Suit::Club => self.club.len(),
            Suit::Diamond => self.diamond.len(),
            Suit::Spade => self.spade.len(),
        };
        if blen == 0 {
            return Err(GameError::EmptyBucket);
        }
        let moving = match bucket_suit {
            Suit::Heart => self.heart[blen - 1],
            Suit::Club => self.club[blen - 1],
            Suit::Diamond => self.diamond[blen - 1],
            Suit::Spade => self.spade[blen - 1],
        };
        let dlen = self.cols[column].visible.len();
        let destination_card: Option<Card> = if dlen == 0 {
            None
        } else {
            Some(self.cols[column].visible[dlen - 1])
        };
        if !Playfield::is_allowed_move(&moving, &destination_card) {
            return Err(GameError::IllegalMove);
        }
        let ghost cols0 = self.cols@;
        let card = match bucket_suit {
            Suit::Heart => self.heart.pop().unwrap(),
            Suit::Club => self.club.pop().unwrap(),
            Suit::Diamond => self.diamond.pop().unwrap(),
            Suit::Spade => self.spade.pop().unwrap(),
        };
        self.cols[column].visible.push(card);
        proof {
            broadcast use vstd::seq_lib::group_to_multiset_ensures;
            broadcast use vstd::multiset::group_multiset_axioms;

            let col = column as int;
            assert(self.cols@ =~= cols0.update(col, self.cols@[col]));
            assert(old(self).bucket(bucket_suit) =~= self.bucket(bucket_suit).push(card));
            assert(self.cols@[col].cards() =~= cols0[col].cards().insert(card));
            lemma_cols_cards_add_one(cols0, col, self.cols@[col], card);
            assert(self.cards() =~= old(self).cards());
        }
        Ok(())
    }

    /// While its bucket is still empty, only an ace can leave a column for
    /// the foundation: on a column whose top card's bucket holds nothing,
    /// `column_to_bucket` succeeds exactly when that top card is an ace.
    pub proof fn lemma_empty_bucket_takes_only_ace(self, column: int)
        requires
            self.wf(),
            0 <= column < 7,
            self.cols@[column].visible@.len() > 0,
            self.bucket(self.cols@[column].visible@.last().suit).len() == 0,
        ensures
            self.bucket_check(column) == Ok::<(), GameError>(()) <==> self.cols@[
                column
            ].visible@.last().rank == 1,
    {
    }

    /// True exactly when all four buckets hold thirteen cards each.
    pub fn has_won(&self) -> (r: bool)
        ensures
            r == self.won(),
    {
        self.heart.len() == 13 && self.diamond.len() == 13 && self.club.len() == 13
            && self.spade.len() == 13
    }
}

} // verus!
