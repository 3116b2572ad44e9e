use freecell::card::{Card, Point};
use freecell::game::{Game, Outcome, Target};
use rand::rngs::StdRng;
use rand::seq::SliceRandom;
use rand::SeedableRng;

fn card(suit: u8, value: u8) -> Card {
    Card { suit, value }
}

fn column_point(i: i32) -> Point {
    Point { x: 10 + i * 82 + 5, y: 116 + 5 }
}

fn open_cell_point(i: i32) -> Point {
    Point { x: 10 + (4 + i) * 82 + 5, y: 15 }
}

fn foundation_point(i: i32) -> Point {
    Point { x: 10 + i * 82 + 5, y: 15 }
}

fn click(game: &mut Game, pos: Point) -> Outcome {
    assert_eq!(game.update(true, pos), Outcome::Nothing);
    game.update(false, pos)
}

fn all_cards(game: &Game) -> Vec<(u8, u8)> {
    let mut r = Vec::new();
    for c in game.columns.iter() {
        r.extend(c.cards.iter().map(|k| (k.suit, k.value)));
    }
    for c in game.open_cells.iter() {
        r.extend(c.card.iter().map(|k| (k.suit, k.value)));
    }
    r.extend(game.cursor_column.cards.iter().map(|k| (k.suit, k.value)));
    r.sort();
    r
}

fn snapshot(game: &Game) -> (Vec<Vec<Card>>, Vec<Option<Card>>, Vec<Option<Card>>, Vec<Card>) {
    (
        game.columns.iter().map(|c| c.cards.clone()).collect(),
        game.open_cells.iter().map(|c| c.card).collect(),
        game.foundations.iter().map(|c| c.card).collect(),
        game.cursor_column.cards.clone(),
    )
}

#[test]
fn deal_with_fixed_seed_gives_columns_of_seven_and_six() {
    let mut deck = Card::deck();
    deck.shuffle(&mut StdRng::seed_from_u64(7));
    let game = Game::from_deck(deck);
    assert_eq!(game.columns[0].len(), 7);
    assert_eq!(game.columns[6].len(), 6);
    let lens: Vec<usize> = game.columns.iter().map(|c| c.len()).collect();
    assert_eq!(lens, vec![7, 7, 7, 7, 6, 6, 6, 6]);
    assert_eq!(lens.iter().sum::<usize>(), 52);
}

#[test]
fn new_game_holds_each_card_once() {
    let game = Game::new();
    let cards = all_cards(&game);
    assert_eq!(cards.len(), 52);
    let mut unique = cards.clone();
    unique.dedup();
    assert_eq!(unique.len(), 52);
    assert!(game.cursor_column.is_empty());
    assert!(game.open_cells.iter().all(|c| c.is_empty()));
    assert!(game.foundations.iter().all(|c| c.is_empty()));
}

#[test]
fn column_top_card_moves_to_open_cell() {
    let mut game = Game::from_deck(Card::deck());
    let top = game.columns[2].top().unwrap();
    let before = game.columns[2].len();
    assert_eq!(click(&mut game, column_point(2)), Outcome::Took);
    assert_eq!(game.cursor_column.cards, vec![top]);
    assert_eq!(click(&mut game, open_cell_point(1)), Outcome::DroppedOnCell);
    assert_eq!(game.open_cells[1].card, Some(top));
    assert_eq!(game.columns[2].len(), before - 1);
    assert!(game.cursor_column.is_empty());
    assert_eq!(all_cards(&game).len(), 52);
}

#[test]
fn click_on_empty_open_cell_changes_nothing() {
    let mut game = Game::from_deck(Card::deck());
    let before = snapshot(&game);
    assert_eq!(click(&mut game, open_cell_point(0)), Outcome::Nothing);
    assert_eq!(snapshot(&game), before);
    assert_eq!(click(&mut game, Point { x: 2000, y: 2000 }), Outcome::Nothing);
    assert_eq!(snapshot(&game), before);
}

#[test]
fn only_release_edge_acts() {
    let mut game = Game::from_deck(Card::deck());
    let before = snapshot(&game);
    assert_eq!(game.update(false, column_point(0)), Outcome::Nothing);
    assert_eq!(game.update(true, column_point(0)), Outcome::Nothing);
    assert_eq!(game.update(true, column_point(0)), Outcome::Nothing);
    assert_eq!(snapshot(&game), before);
    assert_eq!(game.update(false, column_point(0)), Outcome::Took);
    assert_eq!(game.update(false, column_point(0)), Outcome::Nothing);
    assert_eq!(game.cursor_column.position, column_point(0));
}

#[test]
fn illegal_drop_keeps_card_held() {
    // In deck order the last cards dealt, and so the tops, are the low clubs.
    let mut game = Game::from_deck(Card::deck());
    let top0 = game.columns[0].top().unwrap();
    let top1 = game.columns[1].top().unwrap();
    assert_eq!(top0, card(0, 3));
    assert_eq!(top1, card(0, 2));
    assert_eq!(click(&mut game, column_point(1)), Outcome::Took);
    assert_eq!(game.columns[1].top(), Some(card(0, 10)));
    // same colour: refused, the card stays held
    assert_eq!(click(&mut game, column_point(0)), Outcome::Nothing);
    assert_eq!(game.cursor_column.cards, vec![top1]);
    assert_eq!(game.columns[0].top(), Some(top0));
    // an empty foundation refuses anything but an ace
    assert_eq!(click(&mut game, foundation_point(0)), Outcome::Nothing);
    // the column it came from now shows a club ten: refused too
    assert_eq!(click(&mut game, column_point(1)), Outcome::Nothing);
    assert_eq!(game.columns[1].len(), 6);
    assert_eq!(game.cursor_column.cards, vec![top1]);
    // an empty open cell takes it
    assert_eq!(click(&mut game, open_cell_point(2)), Outcome::DroppedOnCell);
    assert_eq!(game.open_cells[2].card, Some(top1));
    assert!(game.cursor_column.is_empty());
    assert_eq!(all_cards(&game).len(), 52);
}

#[test]
fn new_game_layout() {
    let game = Game::new();
    assert_eq!(game.cursor_column.position, Point { x: 0, y: 0 });
    assert!(game.cursor_column.is_cursor);
    for i in 0..8 {
        assert_eq!(game.columns[i].position, Point { x: 10 + 82 * i as i32, y: 116 });
    }
    for j in 0..4 {
        assert_eq!(game.foundations[j].position, Point { x: 10 + 82 * j as i32, y: 10 });
        assert_eq!(game.open_cells[j].position, Point { x: 338 + 82 * j as i32, y: 10 });
    }
}

#[test]
fn legal_moves_onto_column_and_foundation() {
    let mut deck = Vec::new();
    // dealt from the end: column 0 gets the last card, column 1 the one before
    deck.push(card(1, 0));
    deck.push(card(0, 9));
    deck.push(card(1, 10));
    let mut game = Game::from_deck(deck);
    assert_eq!(game.columns[0].top(), Some(card(1, 10)));
    assert_eq!(game.columns[1].top(), Some(card(0, 9)));
    assert_eq!(game.columns[2].top(), Some(card(1, 0)));
    assert_eq!(click(&mut game, column_point(1)), Outcome::Took);
    assert_eq!(click(&mut game, column_point(0)), Outcome::DroppedOnColumn);
    assert_eq!(game.columns[0].cards, vec![card(1, 10), card(0, 9)]);
    assert!(game.columns[1].is_empty());
    assert_eq!(click(&mut game, column_point(2)), Outcome::Took);
    assert_eq!(click(&mut game, foundation_point(3)), Outcome::DroppedOnCell);
    assert_eq!(game.foundations[3].card, Some(card(1, 0)));
    // an open cell that is taken refuses another card
    assert_eq!(click(&mut game, column_point(0)), Outcome::Took);
    assert_eq!(click(&mut game, open_cell_point(0)), Outcome::DroppedOnCell);
    assert_eq!(click(&mut game, column_point(0)), Outcome::Took);
    assert_eq!(click(&mut game, open_cell_point(0)), Outcome::Nothing);
    assert_eq!(game.cursor_column.cards, vec![card(1, 10)]);
    // an empty column takes any card
    assert_eq!(click(&mut game, column_point(5)), Outcome::DroppedOnColumn);
    assert_eq!(game.columns[5].cards, vec![card(1, 10)]);
}

#[test]
fn foundation_shows_card_beneath_after_take() {
    let mut deck = Vec::new();
    deck.push(card(2, 1));
    deck.push(card(2, 0));
    let mut game = Game::from_deck(deck);
    assert_eq!(click(&mut game, column_point(0)), Outcome::Took);
    assert_eq!(click(&mut game, foundation_point(0)), Outcome::DroppedOnCell);
    assert_eq!(click(&mut game, column_point(1)), Outcome::Took);
    assert_eq!(click(&mut game, foundation_point(0)), Outcome::DroppedOnCell);
    assert_eq!(game.foundations[0].card, Some(card(2, 1)));
    assert_eq!(click(&mut game, foundation_point(0)), Outcome::Took);
    assert_eq!(game.foundations[0].card, Some(card(2, 0)));
    assert_eq!(game.cursor_column.cards, vec![card(2, 1)]);
}

#[test]
fn hit_prefers_columns_then_cells_then_foundations() {
    let game = Game::from_deck(Card::deck());
    assert_eq!(game.hit(column_point(7)), Some(Target::Column(7)));
    assert_eq!(game.hit(open_cell_point(3)), Some(Target::OpenCell(3)));
    assert_eq!(game.hit(foundation_point(2)), Some(Target::Foundation(2)));
    assert_eq!(game.hit(Point { x: 0, y: 0 }), None);
}
