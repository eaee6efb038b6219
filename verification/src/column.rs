use vstd::prelude::*;

use crate::card::Card;

verus! {

use vstd::multiset::Multiset;

/// One tableau column: a face-down stack (`hidden`, back = next card to turn
/// over) below a face-up stack (`visible`, back = topmost, playable card).
#[derive(Debug)]
pub struct Column {
    pub hidden: Vec<Card>,
    pub visible: Vec<Card>,
}

/// The face-down stack a column has after a reveal: when nothing is face up
/// and a face-down card remains, the back of `hidden` is removed.
pub open spec fn reveal_hidden(hidden: Seq<Card>, visible: Seq<Card>) -> Seq<Card> {
    if visible.len() == 0 && hidden.len() > 0 {
        hidden.drop_last()
    } else {
        hidden
    }
}

/// The face-up stack a column has after a reveal: when nothing is face up
/// and a face-down card remains, the back of `hidden` is turned over.
pub open spec fn reveal_visible(hidden: Seq<Card>, visible: Seq<Card>) -> Seq<Card> {
    if visible.len() == 0 && hidden.len() > 0 {
        seq![hidden.last()]
    } else {
        visible
    }
}

impl Column {
    /// Every card this column holds, face down or face up.
    pub open spec fn cards(self) -> Multiset<Card> {
        self.hidden@.to_multiset().add(self.visible@.to_multiset())
    }

    /// The topmost face-up card, if any: what the next single-card move
    /// would take, and what an arriving card is placed upon.
    pub open spec fn top(self) -> Option<Card> {
        if self.visible@.len() == 0 {
            None
        } else {
            Some(self.visible@.last())
        }
    }

    pub fn new() -> (c: Column)
        ensures
            c.hidden@ == Seq::<Card>::empty(),
            c.visible@ == Seq::<Card>::empty(),
    {
        Column { hidden: Vec::new(), visible: Vec::new() }
    }

    /// Turn over the next face-down card, but only when no card is face up.
    /// A column whose `visible` stack is non-empty is never changed.
    pub fn reveal_top(&mut self)
        ensures
            final(self).hidden@ == reveal_hidden(old(self).hidden@, old(self).visible@),
            final(self).visible@ == reveal_visible(old(self).hidden@, old(self).visible@),
            old(self).visible@.len() > 0 ==> *final(self) == *old(self),
            final(self).cards() == old(self).cards(),
    {
        if self.visible.len() == 0 && self.hidden.len() > 0 {
            let card = self.hidden.pop().unwrap();
            self.visible.push(card);
            proof {
                broadcast use vstd::seq_lib::group_to_multiset_ensures;
                broadcast use vstd::multiset::group_multiset_axioms;
                broadcast use vstd::multiset::group_multiset_properties;
                let l = old(self).hidden@.last();
                assert(old(self).hidden@ =~= self.hidden@.push(l));
                assert(self.visible@ =~= old(self).visible@.push(l));
                assert(self.visible@ =~= seq![l]);
                assert(self.cards() =~= old(self).cards());
            }
        }
    }
}

} // verus!
