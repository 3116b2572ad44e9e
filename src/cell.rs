//! A single-slot container: an open cell or a foundation.

use vstd::prelude::*;
use crate::card::{Card, Point, CARD_WIDTH, CARD_HEIGHT, in_box};

verus! {

/// Holds at most one card at a fixed place on the board.
#[derive(Clone, Copy, Debug, PartialEq, Eq, Structural)]
pub struct Cell {
    pub position: Point,
    pub card: Option<Card>,
}

impl Cell {
    /// The cell's bounding box is one card tile at `position`.
    pub open spec fn spec_inside(self, pos: Point) -> bool {
        in_box(pos, self.position, CARD_WIDTH as int, CARD_HEIGHT as int)
    }

    pub fn new(position: Point, card: Option<Card>) -> (r: Cell)
        ensures
            r.position == position,
            r.card == card,
    {
        Cell { position, card }
    }

    /// Whether `pos` lies within the cell's bounding box.
    pub fn inside(&self, pos: Point) -> (r: bool)
        ensures
            r == self.spec_inside(pos),
    {
        let px = pos.x as i64;
        let py = pos.y as i64;
        let x = self.position.x as i64;
        let y = self.position.y as i64;
        x <= px && px < x + CARD_WIDTH as i64 && y <= py && py < y + CARD_HEIGHT as i64
    }

    /// Removes and returns the held card; on an empty cell returns `None`
    /// and leaves it empty.
    pub fn take(&mut self) -> (r: Option<Card>)
        ensures
            r == old(self).card,
            final(self).card.is_none(),
            final(self).position == old(self).position,
    {
        let r = self.card;
        self.card = None;
        r
    }

    /// Stores `card`. Legality is the caller's concern (see `accepts_open`
    /// and `accepts_foundation`).
    pub fn put(&mut self, card: Card)
        ensures
            final(self).card == Some(card),
            final(self).position == old(self).position,
    {
        self.card = Some(card);
    }

    pub fn is_empty(&self) -> (r: bool)
        ensures
            r == self.card.is_none(),
    {
        self.card.is_none()
    }

    /// As an open cell: takes any card while empty.
    pub fn accepts_open(&self, card: Card) -> (r: bool)
        ensures
            r == self.card.is_none(),
    {
        self.card.is_none()
    }

    /// As a foundation: takes an ace while empty, else the next rank of the
    /// held card's suit.
    pub fn accepts_foundation(&self, card: Card) -> (r: bool)
        ensures
            r == card.spec_fits_foundation(self.card),
    {
        card.fits_foundation(self.card)
    }
}

} // verus!
