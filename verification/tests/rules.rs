use klondike::card::{Card, Color, Suit};
use klondike::column::Column;
use klondike::playfield::{GameError, Playfield};

fn card(rank: u8, suit: Suit) -> Card {
    Card { rank, suit }
}

fn empty_field() -> Playfield {
    let mut cols = Vec::new();
    for _ in 0..7 {
        cols.push(Column {
            hidden: Vec::new(),
            visible: Vec::new(),
        });
    }
    Playfield {
        cols,
        backlog: Vec::new(),
        hand: Vec::new(),
        heart: Vec::new(),
        diamond: Vec::new(),
        spade: Vec::new(),
        club: Vec::new(),
    }
}

#[test]
fn color_is_derived_from_suit() {
    assert_eq!(Card::new(5, Suit::Club).color(), Color::Black);
    assert_eq!(Card::new(5, Suit::Spade).color(), Color::Black);
    assert_eq!(Card::new(5, Suit::Heart).color(), Color::Red);
    assert_eq!(Card::new(5, Suit::Diamond).color(), Color::Red);
}

#[test]
fn only_king_goes_on_empty_column() {
    for rank in 1..=13u8 {
        let c = card(rank, Suit::Heart);
        assert_eq!(Playfield::is_allowed_move(&c, &None), rank == 13);
    }
}

#[test]
fn red_seven_on_black_eight_is_legal() {
    let red7 = card(7, Suit::Heart);
    let black8 = card(8, Suit::Spade);
    assert!(Playfield::is_allowed_move(&red7, &Some(black8)));
}

#[test]
fn red_seven_on_red_eight_is_illegal() {
    let red7 = card(7, Suit::Heart);
    let red8 = card(8, Suit::Diamond);
    assert!(!Playfield::is_allowed_move(&red7, &Some(red8)));
}

#[test]
fn red_seven_on_black_nine_is_illegal() {
    let red7 = card(7, Suit::Heart);
    let black9 = card(9, Suit::Club);
    assert!(!Playfield::is_allowed_move(&red7, &Some(black9)));
}

#[test]
fn empty_heart_bucket_takes_only_the_heart_ace() {
    for rank in 1..=13u8 {
        let mut field = empty_field();
        field.cols[0].visible.push(card(rank, Suit::Heart));
        let r = field.column_to_bucket(0);
        if rank == 1 {
            assert_eq!(r, Ok(()));
            assert_eq!(field.heart, vec![card(1, Suit::Heart)]);
        } else {
            assert_eq!(r, Err(GameError::IllegalMove));
            assert!(field.heart.is_empty());
        }
    }
}

#[test]
fn move_cards_rejects_out_of_range_destination() {
    let mut field = Playfield::new();
    let src_hidden = field.cols[2].hidden.clone();
    let src_visible = field.cols[2].visible.clone();
    let r = field.move_cards(2, 0, 7);
    assert_eq!(r, Err(GameError::InvalidColumn));
    assert_eq!(field.cols[2].hidden, src_hidden);
    assert_eq!(field.cols[2].visible, src_visible);
}

#[test]
fn move_cards_rejects_out_of_range_source() {
    let mut field = Playfield::new();
    assert_eq!(field.move_cards(9, 0, 1), Err(GameError::InvalidColumn));
}

#[test]
fn move_cards_rejects_source_equal_to_destination() {
    let mut field = Playfield::new();
    assert_eq!(field.move_cards(3, 0, 3), Err(GameError::InvalidColumn));
}

#[test]
fn move_cards_rejects_run_deeper_than_visible_stack() {
    let mut field = Playfield::new();
    // every freshly dealt column shows exactly one card
    assert_eq!(field.move_cards(0, 5, 1), Err(GameError::EmptyMove));
}

#[test]
fn move_cards_rejects_illegal_placement_and_mutates_nothing() {
    let mut field = empty_field();
    field.cols[0].visible.push(card(7, Suit::Heart));
    field.cols[1].visible.push(card(9, Suit::Spade));
    let r = field.move_cards(0, 0, 1);
    assert_eq!(r, Err(GameError::IllegalMove));
    assert_eq!(field.cols[0].visible, vec![card(7, Suit::Heart)]);
    assert_eq!(field.cols[1].visible, vec![card(9, Suit::Spade)]);
}

#[test]
fn hand_to_column_rejects_empty_hand() {
    // a fresh deal leaves the hand empty until the first draw
    let mut field = Playfield::new();
    assert_eq!(field.hand_to_column(0), Err(GameError::EmptyHand));
}

#[test]
fn hand_to_column_rejects_out_of_range_column() {
    let mut field = empty_field();
    field.hand.push(card(13, Suit::Club));
    assert_eq!(field.hand_to_column(7), Err(GameError::InvalidColumn));
    assert_eq!(field.hand, vec![card(13, Suit::Club)]);
}

#[test]
fn hand_to_column_rejects_illegal_placement() {
    let mut field = empty_field();
    field.hand.push(card(5, Suit::Club));
    field.cols[2].visible.push(card(9, Suit::Heart));
    assert_eq!(field.hand_to_column(2), Err(GameError::IllegalMove));
    assert_eq!(field.hand, vec![card(5, Suit::Club)]);
    assert_eq!(field.cols[2].visible, vec![card(9, Suit::Heart)]);
}

#[test]
fn column_to_bucket_rejects_out_of_range_column() {
    let mut field = Playfield::new();
    assert_eq!(field.column_to_bucket(9), Err(GameError::InvalidColumn));
}

#[test]
fn column_to_bucket_rejects_column_without_face_up_card() {
    let mut field = empty_field();
    field.cols[4].hidden.push(card(3, Suit::Club));
    assert_eq!(field.column_to_bucket(4), Err(GameError::EmptyColumn));
    assert_eq!(field.cols[4].hidden, vec![card(3, Suit::Club)]);
}

#[test]
fn bucket_to_column_rejects_empty_bucket() {
    let mut field = Playfield::new();
    assert_eq!(field.bucket_to_column(0, Suit::Heart), Err(GameError::EmptyBucket));
}

#[test]
fn bucket_to_column_rejects_out_of_range_column() {
    let mut field = empty_field();
    field.heart.push(card(4, Suit::Heart));
    assert_eq!(field.bucket_to_column(8, Suit::Heart), Err(GameError::InvalidColumn));
}

#[test]
fn bucket_to_column_rejects_illegal_placement() {
    let mut field = empty_field();
    field.heart.push(card(4, Suit::Heart));
    field.cols[0].visible.push(card(6, Suit::Spade));
    assert_eq!(field.bucket_to_column(0, Suit::Heart), Err(GameError::IllegalMove));
    assert_eq!(field.heart, vec![card(4, Suit::Heart)]);
}

#[test]
fn bucket_to_column_uses_the_tableau_rule() {
    let mut field = empty_field();
    field.heart.push(card(7, Suit::Heart));
    field.cols[0].visible.push(card(8, Suit::Spade));
    assert_eq!(field.bucket_to_column(0, Suit::Heart), Ok(()));
    assert!(field.heart.is_empty());
    assert_eq!(
        field.cols[0].visible,
        vec![card(8, Suit::Spade), card(7, Suit::Heart)]
    );
}
