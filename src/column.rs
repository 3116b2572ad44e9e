//! An ordered stack of cards: a tableau column, or the cursor pile that holds
//! the card being moved.

use vstd::prelude::*;
use crate::card::{Card, Point, CARD_WIDTH, CARD_HEIGHT, in_box};

verus! {

/// Vertical distance in pixels between two cards stacked in a column.
pub const STACK_OFFSET: i32 = 24;

/// Height of the area covered by a stack of `n` cards.
pub open spec fn stack_height(n: nat) -> int {
    if n == 0 {
        CARD_HEIGHT as int
    } else {
        CARD_HEIGHT + STACK_OFFSET * (n - 1)
    }
}

/// The number of cards that `take(n)` removes from a stack of `len`.
pub open spec fn take_count(len: nat, n: nat) -> nat {
    if n <= len { n } else { len }
}

/// What stays after the top `n` cards of `s` are taken.
pub open spec fn kept(s: Seq<Card>, n: nat) -> Seq<Card> {
    s.subrange(0, s.len() - take_count(s.len(), n))
}

/// The top `n` cards of `s` (all of them if fewer), bottom to top.
pub open spec fn taken(s: Seq<Card>, n: nat) -> Seq<Card> {
    s.subrange(s.len() - take_count(s.len(), n), s.len() as int)
}

/// Cards bottom to top, at a place on the board; the cursor pile follows the
/// pointer and is never hit-tested.
#[derive(Debug)]
pub struct Column {
    pub position: Point,
    pub cards: Vec<Card>,
    pub is_cursor: bool,
}

impl View for Column {
    type V = Seq<Card>;

    open spec fn view(&self) -> Seq<Card> {
        self.cards@
    }
}

impl Column {
    /// A tableau column's box is one card wide and covers the whole stack.
    pub open spec fn spec_inside(&self, pos: Point) -> bool {
        !self.is_cursor && in_box(pos, self.position, CARD_WIDTH as int, stack_height(self@.len()))
    }

    /// The top card, if any.
    pub open spec fn spec_top(&self) -> Option<Card> {
        if self@.len() == 0 {
            None
        } else {
            Some(self@.last())
        }
    }

    /// The column takes `cards` onto its top: the bottom card of the incoming
    /// run continues a descending, alternating-colour run.
    pub open spec fn spec_accepts(&self, cards: Seq<Card>) -> bool {
        cards.len() > 0 && cards[0].spec_fits_tableau(self.spec_top())
    }

    pub fn new(position: Point, cards: Vec<Card>, is_cursor: bool) -> (r: Column)
        ensures
            r.position == position,
            r@ == cards@,
            r.is_cursor == is_cursor,
    {
        Column { position, cards, is_cursor }
    }

    /// Whether `pos` hits this column; always false for the cursor pile.
    pub fn inside(&self, pos: Point) -> (r: bool)
        ensures
            r == self.spec_inside(pos),
    {
        if self.is_cursor {
            return false;
        }
        let n = self.cards.len();
        let height: i128 = if n == 0 {
            CARD_HEIGHT as i128
        } else {
            CARD_HEIGHT as i128 + STACK_OFFSET as i128 * (n as i128 - 1)
        };
        let px = pos.x as i128;
        let py = pos.y as i128;
        let x = self.position.x as i128;
        let y = self.position.y as i128;
        x <= px && px < x + CARD_WIDTH as i128 && y <= py && py < y + height
    }

    /// Removes the top `n` cards (all of them if fewer) and returns them in
    /// their order, bottom to top.
    pub fn take(&mut self, n: usize) -> (r: Vec<Card>)
        ensures
            r@ == taken(old(self)@, n as nat),
            final(self)@ == kept(old(self)@, n as nat),
            old(self)@.len() == 0 ==> r@.len() == 0,
            final(self).position == old(self).position,
            final(self).is_cursor == old(self).is_cursor,
    {
        let len = self.cards.len();
        let k = if n <= len { n } else { len };
        self.cards.split_off(len - k)
    }

    /// Appends `cards` on top. Legality is the caller's concern (see `accepts`).
    pub fn put(&mut self, cards: Vec<Card>)
        ensures
            final(self)@ == old(self)@ + cards@,
            final(self).position == old(self).position,
            final(self).is_cursor == old(self).is_cursor,
    {
        let mut cards = cards;
        self.cards.append(&mut cards);
    }

    pub fn is_empty(&self) -> (r: bool)
        ensures
            r == (self@.len() == 0),
    {
        self.cards.len() == 0
    }

    pub fn len(&self) -> (r: usize)
        ensures
            r == self@.len(),
    {
        self.cards.len()
    }

    pub fn top(&self) -> (r: Option<Card>)
        ensures
            r == self.spec_top(),
    {
        let n = self.cards.len();
        if n == 0 {
            None
        } else {
            Some(self.cards[n - 1])
        }
    }

    /// Whether the run `cards` may be placed on this tableau column.
    pub fn accepts(&self, cards: &Vec<Card>) -> (r: bool)
        ensures
            r == self.spec_accepts(cards@),
    {
        if cards.len() == 0 {
            false
        } else {
            cards[0].fits_tableau(self.top())
        }
    }

    /// Where the card at stack index `k` is drawn: each card sits one
    /// offset lower than the card beneath it.
    pub fn card_position(&self, k: usize) -> (r: Point)
        requires
            self.position.y + STACK_OFFSET * k <= i32::MAX,
        ensures
            r.x == self.position.x,
            r.y == self.position.y + STACK_OFFSET * k,
    {
        let dy: i64 = STACK_OFFSET as i64 * k as i64;
        Point { x: self.position.x, y: (self.position.y as i64 + dy) as i32 }
    }

    /// Moves the column to `pos`; the cursor pile calls this each frame to
    /// follow the pointer.
    pub fn update(&mut self, pos: Point)
        ensures
            final(self).position == pos,
            final(self)@ == old(self)@,
            final(self).is_cursor == old(self).is_cursor,
    {
        self.position = pos;
    }
}

/// Taking the top card of a non-empty column and putting the same run back
/// restores the column: same cards, so the same top card and length.
pub proof fn lemma_take_put_round_trip(s: Seq<Card>)
    requires
        s.len() > 0,
    ensures
        kept(s, 1) + taken(s, 1) == s,
        taken(s, 1) == seq![s.last()],
        kept(s, 1).len() + 1 == s.len(),
{
    assert(kept(s, 1) + taken(s, 1) =~= s);
    assert(taken(s, 1) =~= seq![s.last()]);
}

/// Taking from an empty column yields nothing and leaves it empty.
pub proof fn lemma_take_from_empty(n: nat)
    ensures
        taken(Seq::<Card>::empty(), n) == Seq::<Card>::empty(),
        kept(Seq::<Card>::empty(), n) == Seq::<Card>::empty(),
{
    assert(taken(Seq::<Card>::empty(), n) =~= Seq::<Card>::empty());
    assert(kept(Seq::<Card>::empty(), n) =~= Seq::<Card>::empty());
}

} // verus!
