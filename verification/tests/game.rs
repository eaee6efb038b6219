use klondike::card::{Card, Suit};
use klondike::column::Column;
use klondike::playfield::{GameError, Playfield};

fn card(rank: u8, suit: Suit) -> Card {
    Card { rank, suit }
}

fn empty_field() -> Playfield {
    let mut cols = Vec::new();
    for _ in 0..7 {
        cols.push(Column {
            hidden: Vec::new(),
            visible: Vec::new(),
        });
    }
    Playfield {
        cols,
        backlog: Vec::new(),
        hand: Vec::new(),
        heart: Vec::new(),
        diamond: Vec::new(),
        spade: Vec::new(),
        club: Vec::new(),
    }
}

fn total_cards(field: &Playfield) -> usize {
    let mut n = field.backlog.len() + field.hand.len();
    n += field.heart.len() + field.diamond.len() + field.spade.len() + field.club.len();
    for col in &field.cols {
        n += col.hidden.len() + col.visible.len();
    }
    n
}

#[test]
fn fresh_deal_has_triangular_columns_and_24_backlog_cards() {
    let field = Playfield::new();
    assert_eq!(field.cols.len(), 7);
    assert_eq!(field.cols[0].hidden.len(), 0);
    assert_eq!(field.cols[0].visible.len(), 1);
    assert_eq!(field.cols[6].hidden.len(), 6);
    assert_eq!(field.cols[6].visible.len(), 1);
    for (i, col) in field.cols.iter().enumerate() {
        assert_eq!(col.hidden.len(), i);
        assert_eq!(col.visible.len(), 1);
    }
    assert_eq!(field.backlog.len(), 24);
    assert!(field.hand.is_empty());
    assert!(field.heart.is_empty());
    assert!(field.diamond.is_empty());
    assert!(field.spade.is_empty());
    assert!(field.club.is_empty());
}

#[test]
fn fresh_deal_deals_the_deck_in_order() {
    let field = Playfield::new();
    // the deck starts with the clubs, ace first, so the first face-up card
    // is the ace of clubs and the next round starts at the eighth card
    assert_eq!(field.cols[0].visible, vec![card(1, Suit::Club)]);
    assert_eq!(field.cols[1].visible, vec![card(8, Suit::Club)]);
    assert_eq!(field.cols[1].hidden, vec![card(2, Suit::Club)]);
    // the last 24 cards form the backlog; the very last is the spade king
    assert_eq!(field.backlog[0], card(3, Suit::Heart));
    assert_eq!(field.backlog[23], card(13, Suit::Spade));
}

#[test]
fn every_operation_keeps_52_cards_on_the_table() {
    let mut field = Playfield::new();
    assert_eq!(total_cards(&field), 52);
    field.draw_hand();
    assert_eq!(total_cards(&field), 52);
    let _ = field.column_to_bucket(0);
    assert_eq!(total_cards(&field), 52);
    let _ = field.move_cards(0, 0, 1);
    assert_eq!(total_cards(&field), 52);
    let _ = field.hand_to_column(3);
    assert_eq!(total_cards(&field), 52);
    let _ = field.bucket_to_column(2, Suit::Club);
    assert_eq!(total_cards(&field), 52);
}

#[test]
fn reveal_leaves_a_column_with_face_up_cards_alone() {
    let mut col = Column {
        hidden: vec![card(4, Suit::Club)],
        visible: vec![card(9, Suit::Heart)],
    };
    col.reveal_top();
    assert_eq!(col.hidden, vec![card(4, Suit::Club)]);
    assert_eq!(col.visible, vec![card(9, Suit::Heart)]);
}

#[test]
fn reveal_turns_over_one_card_when_nothing_is_face_up() {
    let mut col = Column {
        hidden: vec![card(4, Suit::Club), card(11, Suit::Diamond)],
        visible: Vec::new(),
    };
    col.reveal_top();
    assert_eq!(col.hidden, vec![card(4, Suit::Club)]);
    assert_eq!(col.visible, vec![card(11, Suit::Diamond)]);
}

#[test]
fn draw_takes_three_cards_from_a_full_backlog() {
    let mut field = Playfield::new();
    field.draw_hand();
    assert_eq!(field.backlog.len(), 21);
    // the cards come off the back of the backlog, one by one
    assert_eq!(
        field.hand,
        vec![
            card(13, Suit::Spade),
            card(12, Suit::Spade),
            card(11, Suit::Spade)
        ]
    );
}

#[test]
fn draw_takes_what_is_left_of_a_short_backlog() {
    let mut field = empty_field();
    field.backlog.push(card(2, Suit::Heart));
    field.backlog.push(card(9, Suit::Club));
    field.draw_hand();
    assert!(field.backlog.is_empty());
    assert_eq!(field.hand, vec![card(9, Suit::Club), card(2, Suit::Heart)]);
}

#[test]
fn draw_on_empty_backlog_recycles_the_hand_reversed() {
    let mut field = empty_field();
    field.hand.push(card(1, Suit::Heart));
    field.hand.push(card(2, Suit::Club));
    field.hand.push(card(3, Suit::Spade));
    field.hand.push(card(4, Suit::Diamond));
    field.draw_hand();
    assert!(field.hand.is_empty());
    assert_eq!(
        field.backlog,
        vec![
            card(4, Suit::Diamond),
            card(3, Suit::Spade),
            card(2, Suit::Club),
            card(1, Suit::Heart)
        ]
    );
}

#[test]
fn draw_on_empty_backlog_and_empty_hand_changes_nothing() {
    let mut field = empty_field();
    field.draw_hand();
    assert!(field.backlog.is_empty());
    assert!(field.hand.is_empty());
}

#[test]
fn move_cards_moves_a_single_card_and_reveals_the_next() {
    let mut field = empty_field();
    field.cols[1].hidden.push(card(3, Suit::Diamond));
    field.cols[1].visible.push(card(7, Suit::Heart));
    field.cols[0].visible.push(card(8, Suit::Spade));
    assert_eq!(field.move_cards(1, 0, 0), Ok(()));
    assert_eq!(
        field.cols[0].visible,
        vec![card(8, Suit::Spade), card(7, Suit::Heart)]
    );
    assert!(field.cols[1].hidden.is_empty());
    assert_eq!(field.cols[1].visible, vec![card(3, Suit::Diamond)]);
}

#[test]
fn move_cards_moves_a_whole_run_in_order() {
    let mut field = empty_field();
    field.cols[0].visible.push(card(9, Suit::Heart));
    field.cols[0].visible.push(card(8, Suit::Spade));
    field.cols[0].visible.push(card(7, Suit::Heart));
    field.cols[1].visible.push(card(9, Suit::Diamond));
    // depth 1: take the eight and everything above it
    assert_eq!(field.move_cards(0, 1, 1), Ok(()));
    assert_eq!(field.cols[0].visible, vec![card(9, Suit::Heart)]);
    assert_eq!(
        field.cols[1].visible,
        vec![
            card(9, Suit::Diamond),
            card(8, Suit::Spade),
            card(7, Suit::Heart)
        ]
    );
}

#[test]
fn move_cards_lets_a_king_start_an_empty_column() {
    let mut field = empty_field();
    field.cols[5].visible.push(card(13, Suit::Club));
    assert_eq!(field.move_cards(5, 0, 2), Ok(()));
    assert!(field.cols[5].visible.is_empty());
    assert_eq!(field.cols[2].visible, vec![card(13, Suit::Club)]);
}

#[test]
fn hand_to_column_plays_the_top_of_the_hand() {
    let mut field = empty_field();
    field.hand.push(card(2, Suit::Club));
    field.hand.push(card(7, Suit::Heart));
    field.cols[3].visible.push(card(8, Suit::Spade));
    assert_eq!(field.hand_to_column(3), Ok(()));
    assert_eq!(field.hand, vec![card(2, Suit::Club)]);
    assert_eq!(
        field.cols[3].visible,
        vec![card(8, Suit::Spade), card(7, Suit::Heart)]
    );
}

#[test]
fn hand_to_column_redraws_when_it_empties_the_hand() {
    let mut field = empty_field();
    field.backlog.push(card(5, Suit::Club));
    field.hand.push(card(7, Suit::Heart));
    field.cols[3].visible.push(card(8, Suit::Spade));
    assert_eq!(field.hand_to_column(3), Ok(()));
    assert!(field.backlog.is_empty());
    assert_eq!(field.hand, vec![card(5, Suit::Club)]);
}

#[test]
fn club_deuce_needs_the_club_ace_placed_first() {
    let mut field = empty_field();
    field.cols[0].visible.push(card(2, Suit::Club));
    field.cols[1].visible.push(card(1, Suit::Club));
    // the club bucket is empty, so the deuce is refused
    assert_eq!(field.column_to_bucket(0), Err(GameError::IllegalMove));
    assert!(field.club.is_empty());
    assert_eq!(field.cols[0].visible, vec![card(2, Suit::Club)]);
    // place the ace, and the same call now succeeds
    assert_eq!(field.column_to_bucket(1), Ok(()));
    assert_eq!(field.column_to_bucket(0), Ok(()));
    assert_eq!(field.club, vec![card(1, Suit::Club), card(2, Suit::Club)]);
    assert!(field.cols[0].visible.is_empty());
}

#[test]
fn fresh_deal_lets_the_club_ace_go_to_its_bucket() {
    let mut field = Playfield::new();
    assert_eq!(field.column_to_bucket(0), Ok(()));
    assert_eq!(field.club, vec![card(1, Suit::Club)]);
    // column 0 had nothing face down, so nothing is revealed
    assert!(field.cols[0].visible.is_empty());
    assert!(field.cols[0].hidden.is_empty());
}

#[test]
fn column_to_bucket_reveals_the_next_card() {
    let mut field = empty_field();
    field.heart.push(card(1, Suit::Heart));
    field.cols[2].hidden.push(card(12, Suit::Club));
    field.cols[2].visible.push(card(2, Suit::Heart));
    assert_eq!(field.column_to_bucket(2), Ok(()));
    assert_eq!(
        field.heart,
        vec![card(1, Suit::Heart), card(2, Suit::Heart)]
    );
    assert!(field.cols[2].hidden.is_empty());
    assert_eq!(field.cols[2].visible, vec![card(12, Suit::Club)]);
}

#[test]
fn has_won_needs_all_four_full_buckets() {
    let mut field = empty_field();
    for rank in 1..=13u8 {
        field.heart.push(card(rank, Suit::Heart));
        field.diamond.push(card(rank, Suit::Diamond));
        field.spade.push(card(rank, Suit::Spade));
        if rank < 13 {
            field.club.push(card(rank, Suit::Club));
        }
    }
    // one bucket short by a single card is not a win
    assert!(!field.has_won());
    field.club.push(card(13, Suit::Club));
    assert!(field.has_won());
}

#[test]
fn fresh_deal_is_not_won() {
    let field = Playfield::new();
    assert!(!field.has_won());
}
