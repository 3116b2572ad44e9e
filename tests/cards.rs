use freecell::card::{tile_coordinate, Card, Point};
use freecell::cell::Cell;
use freecell::column::Column;
use freecell::deal::{deal, shuffled_deck};

fn card(suit: u8, value: u8) -> Card {
    Card { suit, value }
}

fn sorted(mut v: Vec<Card>) -> Vec<(u8, u8)> {
    let mut r: Vec<(u8, u8)> = v.drain(..).map(|c| (c.suit, c.value)).collect();
    r.sort();
    r
}

#[test]
fn deck_has_all_52_distinct_cards() {
    let d = Card::deck();
    assert_eq!(d.len(), 52);
    let s = sorted(d);
    let mut expected = Vec::new();
    for suit in 0..4u8 {
        for value in 0..13u8 {
            expected.push((suit, value));
        }
    }
    assert_eq!(s, expected);
}

#[test]
fn shuffled_deck_is_a_permutation_of_the_deck() {
    let d = shuffled_deck();
    assert_eq!(d.len(), 52);
    assert_ne!(d, Card::deck());
    assert_eq!(sorted(d), sorted(Card::deck()));
}

#[test]
fn cell_take_on_empty_cell_gives_nothing_twice() {
    let mut c = Cell::new(Point { x: 0, y: 0 }, None);
    assert_eq!(c.take(), None);
    assert!(c.is_empty());
    assert_eq!(c.take(), None);
    assert!(c.is_empty());
}

#[test]
fn cell_take_returns_held_card() {
    let mut c = Cell::new(Point { x: 0, y: 0 }, Some(card(2, 5)));
    assert_eq!(c.take(), Some(card(2, 5)));
    assert!(c.is_empty());
    c.put(card(1, 1));
    assert_eq!(c.card, Some(card(1, 1)));
}

#[test]
fn cell_inside_covers_one_tile() {
    let c = Cell::new(Point { x: 10, y: 20 }, None);
    assert!(c.inside(Point { x: 10, y: 20 }));
    assert!(c.inside(Point { x: 81, y: 115 }));
    assert!(!c.inside(Point { x: 82, y: 20 }));
    assert!(!c.inside(Point { x: 10, y: 116 }));
    assert!(!c.inside(Point { x: 9, y: 20 }));
}

#[test]
fn column_take_on_empty_column_is_empty() {
    let mut c = Column::new(Point { x: 0, y: 0 }, vec![], false);
    assert!(c.take(1).is_empty());
    assert!(c.is_empty());
}

#[test]
fn column_take_then_put_restores_column() {
    let cards = vec![card(0, 12), card(1, 11), card(3, 10)];
    let mut c = Column::new(Point { x: 0, y: 0 }, cards.clone(), false);
    let taken = c.take(1);
    assert_eq!(taken, vec![card(3, 10)]);
    assert_eq!(c.len(), 2);
    assert_eq!(c.top(), Some(card(1, 11)));
    c.put(taken);
    assert_eq!(c.len(), 3);
    assert_eq!(c.top(), Some(card(3, 10)));
    assert_eq!(c.cards, cards);
}

#[test]
fn column_take_more_than_held_takes_all() {
    let mut c = Column::new(Point { x: 0, y: 0 }, vec![card(0, 1), card(0, 2)], false);
    assert_eq!(c.take(5), vec![card(0, 1), card(0, 2)]);
    assert!(c.is_empty());
}

#[test]
fn column_inside_grows_with_stack() {
    let mut c = Column::new(Point { x: 10, y: 116 }, vec![], false);
    assert!(c.inside(Point { x: 10, y: 116 }));
    assert!(!c.inside(Point { x: 10, y: 212 }));
    c.put(vec![card(0, 1), card(0, 2), card(0, 3)]);
    // 96 + 2 * 24 = 144 pixels tall
    assert!(c.inside(Point { x: 10, y: 259 }));
    assert!(!c.inside(Point { x: 10, y: 260 }));
    let cursor = Column::new(Point { x: 10, y: 116 }, vec![card(0, 1)], true);
    assert!(!cursor.inside(Point { x: 10, y: 116 }));
}

#[test]
fn column_card_position_steps_down() {
    let c = Column::new(Point { x: 10, y: 116 }, vec![], false);
    assert_eq!(c.card_position(0), Point { x: 10, y: 116 });
    assert_eq!(c.card_position(3), Point { x: 10, y: 188 });
}

#[test]
fn foundation_accepts_aces_when_empty() {
    for suit in 0..4u8 {
        assert!(card(suit, 0).fits_foundation(None));
        assert!(!card(suit, 1).fits_foundation(None));
    }
    let f = Cell::new(Point { x: 0, y: 0 }, None);
    assert!(f.accepts_foundation(card(3, 0)));
    assert!(!f.accepts_foundation(card(3, 12)));
}

#[test]
fn foundation_accepts_only_next_rank_of_same_suit() {
    let top = Some(card(2, 4));
    assert!(card(2, 5).fits_foundation(top));
    assert!(!card(1, 5).fits_foundation(top));
    assert!(!card(2, 6).fits_foundation(top));
    assert!(!card(2, 4).fits_foundation(top));
    assert!(!card(2, 0).fits_foundation(top));
}

#[test]
fn tableau_accepts_opposite_colour_one_lower() {
    // 1 (diamonds) and 2 (hearts) are red; 0 (clubs) and 3 (spades) are black.
    assert!(card(1, 0).is_red() && card(2, 0).is_red());
    assert!(!card(0, 0).is_red() && !card(3, 0).is_red());
    let top = Some(card(0, 7));
    assert!(card(1, 6).fits_tableau(top));
    assert!(card(2, 6).fits_tableau(top));
    assert!(!card(3, 6).fits_tableau(top));
    assert!(!card(1, 5).fits_tableau(top));
    assert!(!card(1, 7).fits_tableau(top));
    assert!(card(3, 12).fits_tableau(None));
    assert!(card(0, 0).fits_tableau(None));
    let col = Column::new(Point { x: 0, y: 0 }, vec![card(2, 9)], false);
    assert!(col.accepts(&vec![card(0, 8)]));
    assert!(!col.accepts(&vec![card(1, 8)]));
    assert!(!col.accepts(&vec![]));
}

#[test]
fn tile_coordinates_follow_rank_and_suit() {
    assert_eq!(tile_coordinate(Some(card(3, 11))), (11, 3));
    assert_eq!(tile_coordinate(Some(card(0, 0))), (0, 0));
    assert_eq!(tile_coordinate(None), (12, 4));
}

#[test]
fn deal_is_round_robin_from_the_top() {
    let deck = Card::deck();
    let cols = deal(deck.clone());
    assert_eq!(cols.len(), 8);
    // the last card of the deck goes first, to column 0
    assert_eq!(cols[0][0], deck[51]);
    assert_eq!(cols[1][0], deck[50]);
    assert_eq!(cols[0][1], deck[43]);
    assert_eq!(cols[3][6], deck[0]);
    let lens: Vec<usize> = cols.iter().map(|c| c.len()).collect();
    assert_eq!(lens, vec![7, 7, 7, 7, 6, 6, 6, 6]);
}

#[test]
fn deal_of_a_short_deck() {
    let cols = deal(vec![card(0, 0), card(0, 1), card(0, 2)]);
    assert_eq!(cols[0], vec![card(0, 2)]);
    assert_eq!(cols[1], vec![card(0, 1)]);
    assert_eq!(cols[2], vec![card(0, 0)]);
    assert!(cols[3].is_empty());
    assert!(deal(vec![]).iter().all(|c| c.is_empty()));
}
