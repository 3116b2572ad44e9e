//! Playing cards, the full deck, and the two move-legality predicates.

use vstd::prelude::*;

verus! {

/// Width in pixels of one card tile.
pub const CARD_WIDTH: i32 = 72;

/// Height in pixels of one card tile.
pub const CARD_HEIGHT: i32 = 96;

/// Number of suits in the deck.
pub const NUM_SUITS: u8 = 4;

/// Number of ranks in each suit.
pub const NUM_VALUES: u8 = 13;

/// Number of cards in the deck.
pub const DECK_SIZE: usize = 52;

/// A point in screen coordinates.
#[derive(Clone, Copy, Debug, PartialEq, Eq, Structural)]
pub struct Point {
    pub x: i32,
    pub y: i32,
}

/// True iff `p` lies in the box whose top-left corner is `origin`, of the
/// given width and height (right and bottom edges excluded).
pub open spec fn in_box(p: Point, origin: Point, w: int, h: int) -> bool {
    &&& origin.x <= p.x < origin.x + w
    &&& origin.y <= p.y < origin.y + h
}

/// A playing card. Suits are numbered 0 to 3 (clubs, diamonds, hearts,
/// spades); ranks 0 (ace) to 12 (king).
#[derive(Clone, Copy, Debug, PartialEq, Eq, Structural, Hash)]
pub struct Card {
    pub suit: u8,
    pub value: u8,
}

/// The deck in its fixed order before shuffling: suit-major, ranks ascending.
pub open spec fn full_deck() -> Seq<Card> {
    Seq::new(52, |i: int| Card { suit: (i / 13) as u8, value: (i % 13) as u8 })
}

impl Card {
    /// The card names one of the 52 suit and rank combinations.
    pub open spec fn wf(self) -> bool {
        self.suit < NUM_SUITS && self.value < NUM_VALUES
    }

    /// Diamonds and hearts are red; clubs and spades are black.
    pub open spec fn spec_is_red(self) -> bool {
        self.suit == 1 || self.suit == 2
    }

    /// A foundation whose top card is `top` may take this card: an empty one
    /// takes any ace, a non-empty one the next rank of its own suit.
    pub open spec fn spec_fits_foundation(self, top: Option<Card>) -> bool {
        match top {
            None => self.value == 0,
            Some(t) => t.suit == self.suit && self.value == t.value + 1,
        }
    }

    /// A tableau column whose top card is `top` may take this card: an empty
    /// one takes any card, a non-empty one a card of the other colour and one
    /// rank lower.
    pub open spec fn spec_fits_tableau(self, top: Option<Card>) -> bool {
        match top {
            None => true,
            Some(t) => t.spec_is_red() != self.spec_is_red() && self.value + 1 == t.value,
        }
    }

    pub fn is_red(&self) -> (r: bool)
        ensures
            r == self.spec_is_red(),
    {
        self.suit == 1 || self.suit == 2
    }

    /// Whether this card may be placed on a foundation whose top card is `top`.
    pub fn fits_foundation(&self, top: Option<Card>) -> (r: bool)
        ensures
            r == self.spec_fits_foundation(top),
    {
        match top {
            None => self.value == 0,
            Some(t) => t.suit == self.suit && t.value < 255 && self.value == t.value + 1,
        }
    }

    /// Whether this card may be placed on a tableau column whose top card is `top`.
    pub fn fits_tableau(&self, top: Option<Card>) -> (r: bool)
        ensures
            r == self.spec_fits_tableau(top),
    {
        match top {
            None => true,
            Some(t) => t.is_red() != self.is_red() && self.value < 255 && self.value + 1 == t.value,
        }
    }

    /// All 52 cards, suit-major, ranks ascending.
    pub fn deck() -> (r: Vec<Card>)
        ensures
            r@ == full_deck(),
    {
        let mut r: Vec<Card> = Vec::new();
        let mut suit: u8 = 0;
        while suit < NUM_SUITS
            invariant
                suit <= 4,
                r@ == full_deck().subrange(0, 13 * suit as int),
            decreases 4 - suit,
        {
            let mut value: u8 = 0;
            while value < NUM_VALUES
                invariant
                    suit < 4,
                    value <= 13,
                    r@ == full_deck().subrange(0, 13 * suit as int + value as int),
                decreases 13 - value,
            {
                let ghost i: int = 13 * suit as int + value as int;
                assert(i / 13 == suit as int && i % 13 == value as int);
                r.push(Card { suit, value });
                assert(r@ =~= full_deck().subrange(0, i + 1));
                value = value + 1;
            }
            suit = suit + 1;
        }
        assert(r@ =~= full_deck());
        r
    }
}

/// Where a card's face sits in the sprite sheet, as (column, row) in tiles:
/// the rank picks the column and the suit the row. `None` stands for the
/// face-down tile drawn for an empty slot.
pub open spec fn spec_tile_coordinate(card: Option<Card>) -> (i32, i32) {
    match card {
        Some(c) => (c.value as i32, c.suit as i32),
        None => (12, 4),
    }
}

pub fn tile_coordinate(card: Option<Card>) -> (r: (i32, i32))
    ensures
        r == spec_tile_coordinate(card),
{
    match card {
        Some(c) => (c.value as i32, c.suit as i32),
        None => (12, 4),
    }
}

/// The deck holds exactly the 52 well-formed cards, each once.
pub proof fn lemma_deck_complete()
    ensures
        full_deck().len() == 52,
        full_deck().no_duplicates(),
        forall|i: int| 0 <= i < 52 ==> (#[trigger] full_deck()[i]).wf(),
        forall|c: Card| c.wf() ==> full_deck().contains(c),
{
    assert forall|i: int, j: int| 0 <= i < 52 && 0 <= j < 52 && i != j implies full_deck()[i]
        != full_deck()[j] by {
        assert(i == 13 * (i / 13) + i % 13);
        assert(j == 13 * (j / 13) + j % 13);
    }
    assert forall|c: Card| c.wf() implies full_deck().contains(c) by {
        let i: int = 13 * c.suit as int + c.value as int;
        assert(i / 13 == c.suit as int && i % 13 == c.value as int);
        assert(full_deck()[i] == c);
    }
}

} // verus!
