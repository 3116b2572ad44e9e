//! The board: eight tableau columns, four open cells, four foundations and the
//! cursor pile, driven by pointer click-release events.

use vstd::prelude::*;
use vstd::multiset::Multiset;
use crate::card::{Card, Point, CARD_WIDTH, CARD_HEIGHT, full_deck};
use crate::cell::Cell;
use crate::column::Column;
use crate::deal::{deal, deal_spec_piles, shuffled_deck, dealt_column, columns_cards, views,
    lemma_columns_cards_update, NUM_COLUMNS};

verus! {

broadcast use vstd::multiset::group_multiset_axioms, vstd::seq_lib::group_to_multiset_ensures;

/// Number of open cells, and of foundations.
pub const NUM_CELLS: usize = 4;

/// Gap in pixels between neighbouring slots and around the board.
pub const MARGIN: i32 = 10;

/// A container on the board that a pointer release can hit.
#[derive(Clone, Copy, Debug, PartialEq, Eq, Structural)]
pub enum Target {
    Column(usize),
    OpenCell(usize),
    Foundation(usize),
}

impl Target {
    pub open spec fn valid(self) -> bool {
        match self {
            Target::Column(i) => i < 8,
            Target::OpenCell(i) => i < 4,
            Target::Foundation(i) => i < 4,
        }
    }
}

/// What a frame's input did to the board, so that the caller can play the
/// matching sound.
#[derive(Clone, Copy, Debug, PartialEq, Eq, Structural)]
pub enum Outcome {
    Nothing,
    Took,
    DroppedOnColumn,
    DroppedOnCell,
}

/// The contents of the board, as values.
pub struct Board {
    pub columns: Seq<Seq<Card>>,
    pub open_cells: Seq<Option<Card>>,
    pub foundations: Seq<Option<Card>>,
    pub cursor: Seq<Card>,
}

/// The top card of a stack, if any.
pub open spec fn seq_top(s: Seq<Card>) -> Option<Card> {
    if s.len() == 0 {
        None
    } else {
        Some(s.last())
    }
}

/// The card a slot holds, as a multiset.
pub open spec fn slot_cards(o: Option<Card>) -> Multiset<Card> {
    match o {
        None => Multiset::empty(),
        Some(c) => Multiset::singleton(c),
    }
}

/// The card a foundation shows stands for the whole pile beneath it: every
/// rank of its suit up to its own.
pub open spec fn pile_cards(c: Card) -> Multiset<Card>
    decreases c.value,
{
    if c.value == 0 {
        Multiset::singleton(c)
    } else {
        pile_cards(Card { suit: c.suit, value: (c.value - 1) as u8 }).insert(c)
    }
}

/// The card beneath `c` on a foundation: the previous rank of its suit.
pub open spec fn below(c: Card) -> Option<Card> {
    if c.value == 0 {
        None
    } else {
        Some(Card { suit: c.suit, value: (c.value - 1) as u8 })
    }
}

/// The cards of a foundation, from the card it shows.
pub open spec fn foundation_cards(o: Option<Card>) -> Multiset<Card> {
    match o {
        None => Multiset::empty(),
        Some(c) => pile_cards(c),
    }
}

/// The cards of all slots together, where `f` gives the cards of one slot.
pub open spec fn slots_cards(
    cells: Seq<Option<Card>>,
    f: spec_fn(Option<Card>) -> Multiset<Card>,
) -> Multiset<Card>
    decreases cells.len(),
{
    if cells.len() == 0 {
        Multiset::empty()
    } else {
        slots_cards(cells.drop_last(), f).add(f(cells.last()))
    }
}

/// The cards of one open cell.
pub open spec fn slot_fn() -> spec_fn(Option<Card>) -> Multiset<Card> {
    |o: Option<Card>| slot_cards(o)
}

/// The cards of one foundation.
pub open spec fn pile_fn() -> spec_fn(Option<Card>) -> Multiset<Card> {
    |o: Option<Card>| foundation_cards(o)
}

/// A foundation showing `c` holds `c` on top of what it holds once `c` is gone.
pub proof fn lemma_foundation_top(c: Card)
    ensures
        foundation_cards(Some(c)) == foundation_cards(below(c)).insert(c),
{
    if c.value == 0 {
        assert(foundation_cards(Some(c)) =~= foundation_cards(below(c)).insert(c));
    }
}

impl Board {
    /// Eight columns, four open cells, four foundations; the cursor holds at
    /// most one card.
    pub open spec fn wf(self) -> bool {
        &&& self.columns.len() == 8
        &&& self.open_cells.len() == 4
        &&& self.foundations.len() == 4
        &&& self.cursor.len() <= 1
    }

    /// Every card on the board, wherever it is.
    pub open spec fn cards(self) -> Multiset<Card> {
        columns_cards(self.columns).add(slots_cards(self.open_cells, slot_fn())).add(
            slots_cards(self.foundations, pile_fn()),
        ).add(self.cursor.to_multiset())
    }
}

/// Picking up from `t` with an empty cursor: its top card moves to the cursor,
/// and a foundation then shows the card beneath; an empty container gives
/// nothing.
pub open spec fn pick_up(b: Board, t: Target) -> Board {
    match t {
        Target::Column(i) => if b.columns[i as int].len() > 0 {
            Board {
                columns: b.columns.update(i as int, b.columns[i as int].drop_last()),
                cursor: seq![b.columns[i as int].last()],
                ..b
            }
        } else {
            b
        },
        Target::OpenCell(i) => match b.open_cells[i as int] {
            Some(c) => Board {
                open_cells: b.open_cells.update(i as int, None),
                cursor: seq![c],
                ..b
            },
            None => b,
        },
        Target::Foundation(i) => match b.foundations[i as int] {
            Some(c) => Board {
                foundations: b.foundations.update(i as int, below(c)),
                cursor: seq![c],
                ..b
            },
            None => b,
        },
    }
}

/// Whether `t` may take `c` under the rules of Freecell.
pub open spec fn accepts(b: Board, t: Target, c: Card) -> bool {
    match t {
        Target::Column(i) => c.spec_fits_tableau(seq_top(b.columns[i as int])),
        Target::OpenCell(i) => b.open_cells[i as int].is_none(),
        Target::Foundation(i) => c.spec_fits_foundation(b.foundations[i as int]),
    }
}

/// The held card may go on `t`: exactly where the rules of Freecell accept it.
pub open spec fn may_drop(b: Board, t: Target) -> bool {
    accepts(b, t, b.cursor[0])
}

/// The held card `c` moves onto `t`, emptying the cursor.
pub open spec fn place(b: Board, t: Target, c: Card) -> Board {
    let b2 = Board { cursor: Seq::empty(), ..b };
    match t {
        Target::Column(i) => Board {
            columns: b.columns.update(i as int, b.columns[i as int].push(c)),
            ..b2
        },
        Target::OpenCell(i) => Board { open_cells: b.open_cells.update(i as int, Some(c)), ..b2 },
        Target::Foundation(i) => Board {
            foundations: b.foundations.update(i as int, Some(c)),
            ..b2
        },
    }
}

/// The board after a pointer release that hit `hit`: with an empty cursor the
/// hit container's top card is picked up; with a card held it is dropped on
/// the hit container if allowed; otherwise nothing changes.
pub open spec fn release(b: Board, hit: Option<Target>) -> Board {
    match hit {
        None => b,
        Some(t) => if b.cursor.len() == 0 {
            pick_up(b, t)
        } else if may_drop(b, t) {
            place(b, t, b.cursor[0])
        } else {
            b
        },
    }
}

/// What a release that hit `hit` did.
pub open spec fn release_outcome(b: Board, hit: Option<Target>) -> Outcome {
    match hit {
        None => Outcome::Nothing,
        Some(t) => if b.cursor.len() == 0 {
            if pick_up(b, t).cursor.len() > 0 {
                Outcome::Took
            } else {
                Outcome::Nothing
            }
        } else if may_drop(b, t) {
            match t {
                Target::Column(_) => Outcome::DroppedOnColumn,
                _ => Outcome::DroppedOnCell,
            }
        } else {
            Outcome::Nothing
        },
    }
}

/// The first of `cols`, from index `from` on, whose box holds `pos`.
pub open spec fn first_column_hit(cols: Seq<Column>, pos: Point, from: int) -> Option<usize>
    decreases cols.len() - from,
{
    if from < 0 || from >= cols.len() {
        None
    } else if cols[from].spec_inside(pos) {
        Some(from as usize)
    } else {
        first_column_hit(cols, pos, from + 1)
    }
}

/// The first of `cells`, from index `from` on, whose box holds `pos`.
pub open spec fn first_cell_hit(cells: Seq<Cell>, pos: Point, from: int) -> Option<usize>
    decreases cells.len() - from,
{
    if from < 0 || from >= cells.len() {
        None
    } else if cells[from].spec_inside(pos) {
        Some(from as usize)
    } else {
        first_cell_hit(cells, pos, from + 1)
    }
}

/// Where tableau column `i` stands.
pub open spec fn column_position(i: int) -> Point {
    Point { x: (MARGIN + i * (CARD_WIDTH + MARGIN)) as i32, y: (MARGIN + CARD_HEIGHT + MARGIN) as i32 }
}

/// Where open cell `i` stands: the right half of the top row.
pub open spec fn open_cell_position(i: int) -> Point {
    Point { x: (MARGIN + (4 + i) * (CARD_WIDTH + MARGIN)) as i32, y: MARGIN }
}

/// Where foundation `i` stands: the left half of the top row.
pub open spec fn foundation_position(i: int) -> Point {
    Point { x: (MARGIN + i * (CARD_WIDTH + MARGIN)) as i32, y: MARGIN }
}

/// Replacing one slot changes the cards of all slots by exactly the
/// difference between the old and the new slot.
pub proof fn lemma_slots_cards_update(
    cells: Seq<Option<Card>>,
    f: spec_fn(Option<Card>) -> Multiset<Card>,
    i: int,
    o: Option<Card>,
)
    requires
        0 <= i < cells.len(),
    ensures
        slots_cards(cells.update(i, o), f).add(f(cells[i])) == slots_cards(cells, f).add(f(o)),
    decreases cells.len(),
{
    let u = cells.update(i, o);
    let d = cells.drop_last();
    if i == cells.len() - 1 {
        assert(u.drop_last() =~= d);
        assert(slots_cards(u, f) == slots_cards(d, f).add(f(o)));
        assert(slots_cards(cells, f) == slots_cards(d, f).add(f(cells[i])));
        assert(slots_cards(u, f).add(f(cells[i])) =~= slots_cards(cells, f).add(f(o)));
    } else {
        assert(u.drop_last() =~= d.update(i, o));
        assert(u.last() == cells.last());
        assert(d[i] == cells[i]);
        lemma_slots_cards_update(d, f, i, o);
        let a = slots_cards(d.update(i, o), f);
        let b = slots_cards(d, f);
        let last = f(cells.last());
        let ci = f(cells[i]);
        let om = f(o);
        assert(slots_cards(u, f) == a.add(last));
        assert(slots_cards(cells, f) == b.add(last));
        assert(a.add(ci) == b.add(om));
        assert forall|x: Card| #[trigger] a.add(last).add(ci).count(x) == b.add(last).add(
            om,
        ).count(x) by {
            assert(a.add(ci).count(x) == b.add(om).count(x));
        }
        assert(a.add(last).add(ci) =~= b.add(last).add(om));
    }
}

/// Slots that `f` counts as empty hold no cards.
pub proof fn lemma_slots_cards_empty(
    cells: Seq<Option<Card>>,
    f: spec_fn(Option<Card>) -> Multiset<Card>,
)
    requires
        forall|i: int| 0 <= i < cells.len() ==> f(#[trigger] cells[i]) == Multiset::<Card>::empty(),
    ensures
        slots_cards(cells, f) == Multiset::<Card>::empty(),
    decreases cells.len(),
{
    if cells.len() > 0 {
        lemma_slots_cards_empty(cells.drop_last(), f);
        assert(slots_cards(cells, f) =~= Multiset::<Card>::empty());
    }
}

/// A release never creates, loses or duplicates a card, and keeps the board
/// well formed.
pub proof fn lemma_release_keeps_cards(b: Board, hit: Option<Target>)
    requires
        b.wf(),
        match hit {
            Some(t) => t.valid(),
            None => true,
        },
    ensures
        release(b, hit).wf(),
        release(b, hit).cards() == b.cards(),
{
    let r = release(b, hit);
    let cc = columns_cards(b.columns);
    let cm = b.cursor.to_multiset();
    match hit {
        None => {},
        Some(t) => {
            if b.cursor.len() == 0 {
                assert(cm =~= Multiset::empty());
                match t {
                    Target::Column(i) => {
                        let s = b.columns[i as int];
                        if s.len() > 0 {
                            assert(s =~= s.drop_last().push(s.last()));
                            lemma_columns_cards_update(b.columns, i as int, s.drop_last());
                            assert(seq![s.last()] =~= Seq::<Card>::empty().push(s.last()));
                            let e = columns_cards(r.columns).add(s.to_multiset());
                            let f = cc.add(s.drop_last().to_multiset());
                            assert(e == f);
                            assert(s.to_multiset() == s.drop_last().to_multiset().insert(s.last()));
                            assert(r.cursor.to_multiset() == Multiset::<Card>::empty().insert(
                                s.last(),
                            ));
                            assert forall|x: Card| #[trigger] r.cards().count(x) == b.cards().count(
                                x,
                            ) by {
                                assert(e.count(x) == f.count(x));
                            }
                            assert(r.cards() =~= b.cards());
                        }
                    },
                    Target::OpenCell(i) => {
                        if let Some(c) = b.open_cells[i as int] {
                            lemma_slots_cards_update(b.open_cells, slot_fn(), i as int, None);
                            assert(seq![c] =~= Seq::<Card>::empty().push(c));
                            let e = slots_cards(r.open_cells, slot_fn()).add(slot_cards(Some(c)));
                            let f = slots_cards(b.open_cells, slot_fn()).add(slot_cards(None));
                            assert(e == f);
                            assert(r.cursor.to_multiset() == Multiset::<Card>::empty().insert(c));
                            assert forall|x: Card| #[trigger] r.cards().count(x) == b.cards().count(
                                x,
                            ) by {
                                assert(e.count(x) == f.count(x));
                            }
                            assert(r.cards() =~= b.cards());
                        }
                    },
                    Target::Foundation(i) => {
                        if let Some(c) = b.foundations[i as int] {
                            lemma_slots_cards_update(b.foundations, pile_fn(), i as int, below(c));
                            lemma_foundation_top(c);
                            assert(seq![c] =~= Seq::<Card>::empty().push(c));
                            let e = slots_cards(r.foundations, pile_fn()).add(
                                foundation_cards(Some(c)),
                            );
                            let f = slots_cards(b.foundations, pile_fn()).add(
                                foundation_cards(below(c)),
                            );
                            assert(e == f);
                            assert(r.cursor.to_multiset() == Multiset::<Card>::empty().insert(c));
                            assert forall|x: Card| #[trigger] r.cards().count(x) == b.cards().count(
                                x,
                            ) by {
                                assert(e.count(x) == f.count(x));
                            }
                            assert(r.cards() =~= b.cards());
                        }
                    },
                }
            } else if may_drop(b, t) {
                let c = b.cursor[0];
                assert(b.cursor =~= Seq::<Card>::empty().push(c));
                assert(cm == Multiset::<Card>::empty().insert(c));
                assert(r.cursor.to_multiset() =~= Multiset::empty());
                match t {
                    Target::Column(i) => {
                        let s = b.columns[i as int];
                        lemma_columns_cards_update(b.columns, i as int, s.push(c));
                        let e = columns_cards(r.columns).add(s.to_multiset());
                        let f = cc.add(s.push(c).to_multiset());
                        assert(e == f);
                        assert(s.push(c).to_multiset() == s.to_multiset().insert(c));
                        assert forall|x: Card| #[trigger] r.cards().count(x) == b.cards().count(x) by {
                            assert(e.count(x) == f.count(x));
                        }
                        assert(r.cards() =~= b.cards());
                    },
                    Target::OpenCell(i) => {
                        assert(b.open_cells[i as int].is_none());
                        lemma_slots_cards_update(b.open_cells, slot_fn(), i as int, Some(c));
                        let e = slots_cards(r.open_cells, slot_fn()).add(slot_cards(None));
                        let f = slots_cards(b.open_cells, slot_fn()).add(slot_cards(Some(c)));
                        assert(e == f);
                        assert forall|x: Card| #[trigger] r.cards().count(x) == b.cards().count(x) by {
                            assert(e.count(x) == f.count(x));
                        }
                        assert(r.cards() =~= b.cards());
                    },
                    Target::Foundation(i) => {
                        assert(b.foundations[i as int] == below(c));
                        lemma_slots_cards_update(b.foundations, pile_fn(), i as int, Some(c));
                        lemma_foundation_top(c);
                        let e = slots_cards(r.foundations, pile_fn()).add(foundation_cards(below(c)));
                        let f = slots_cards(b.foundations, pile_fn()).add(foundation_cards(Some(c)));
                        assert(e == f);
                        assert forall|x: Card| #[trigger] r.cards().count(x) == b.cards().count(x) by {
                            assert(e.count(x) == f.count(x));
                        }
                        assert(r.cards() =~= b.cards());
                    },
                }
            }
        },
    }
}

/// The contents of each of `cols`.
pub open spec fn column_views(cols: Seq<Column>) -> Seq<Seq<Card>> {
    cols.map_values(|c: Column| c@)
}

/// The game state: the board's containers and the pointer button's state on
/// the previous frame.
#[derive(Debug)]
pub struct Game {
    pub columns: Vec<Column>,
    pub open_cells: Vec<Cell>,
    pub foundations: Vec<Cell>,
    pub cursor_column: Column,
    pub previous_click_state: bool,
}

impl View for Game {
    type V = Board;

    open spec fn view(&self) -> Board {
        Board {
            columns: column_views(self.columns@),
            open_cells: self.open_cells@.map_values(|c: Cell| c.card),
            foundations: self.foundations@.map_values(|c: Cell| c.card),
            cursor: self.cursor_column@,
        }
    }
}

impl Game {
    /// The board's contents are well formed, and every container stands in
    /// its place: columns in the lower row, foundations then open cells in
    /// the top row.
    pub open spec fn wf(&self) -> bool {
        &&& self@.wf()
        &&& self.standard_layout()
    }

    pub open spec fn standard_layout(&self) -> bool {
        &&& self.columns@.len() == 8
        &&& self.open_cells@.len() == 4
        &&& self.foundations@.len() == 4
        &&& forall|i: int|
            0 <= i < 8 ==> (#[trigger] self.columns@[i]).position == column_position(i)
                && !self.columns@[i].is_cursor
        &&& forall|i: int|
            0 <= i < 4 ==> (#[trigger] self.open_cells@[i]).position == open_cell_position(i)
        &&& forall|i: int|
            0 <= i < 4 ==> (#[trigger] self.foundations@[i]).position == foundation_position(i)
    }

    /// The container, if any, that a release at `pos` hits: tableau columns
    /// first, then open cells, then foundations; the first match wins.
    pub open spec fn spec_hit(&self, pos: Point) -> Option<Target> {
        match first_column_hit(self.columns@, pos, 0) {
            Some(i) => Some(Target::Column(i)),
            None => match first_cell_hit(self.open_cells@, pos, 0) {
                Some(i) => Some(Target::OpenCell(i)),
                None => match first_cell_hit(self.foundations@, pos, 0) {
                    Some(i) => Some(Target::Foundation(i)),
                    None => None,
                },
            },
        }
    }

    /// Every container keeps its place and role.
    pub open spec fn same_layout(&self, other: &Game) -> bool {
        &&& other.columns@.len() == self.columns@.len()
        &&& other.open_cells@.len() == self.open_cells@.len()
        &&& other.foundations@.len() == self.foundations@.len()
        &&& forall|i: int|
            0 <= i < self.columns@.len() ==> (#[trigger] other.columns@[i]).position
                == self.columns@[i].position && other.columns@[i].is_cursor
                == self.columns@[i].is_cursor
        &&& forall|i: int|
            0 <= i < self.open_cells@.len() ==> (#[trigger] other.open_cells@[i]).position
                == self.open_cells@[i].position
        &&& forall|i: int|
            0 <= i < self.foundations@.len() ==> (#[trigger] other.foundations@[i]).position
                == self.foundations@[i].position
        &&& other.cursor_column.is_cursor == self.cursor_column.is_cursor
    }

    /// The eight tableau columns, dealt from `deck`.
    pub fn init_columns(deck: Vec<Card>) -> (r: Vec<Column>)
        ensures
            r@.len() == 8,
            column_views(r@) == deal_spec_piles(deck@),
            columns_cards(column_views(r@)) == deck@.to_multiset(),
            forall|c: int| 0 <= c < 8 ==> (#[trigger] r@[c])@ == dealt_column(deck@, c as nat),
            forall|i: int|
                0 <= i < 8 ==> (#[trigger] r@[i]).position == column_position(i) && !r@[i].is_cursor,
    {
        let ghost d = deck@;
        let mut piles = deal(deck);
        let ghost pv = views(piles@);
        let mut columns: Vec<Column> = Vec::new();
        let mut i: usize = 0;
        while i < NUM_COLUMNS
            invariant
                i <= 8,
                pv.len() == 8,
                piles@.len() == 8 - i,
                forall|j: int| 0 <= j < 8 - i ==> (#[trigger] piles@[j])@ == pv[i + j],
                columns@.len() == i,
                forall|j: int|
                    0 <= j < i ==> (#[trigger] columns@[j])@ == pv[j] && columns@[j].position
                        == column_position(j) && !columns@[j].is_cursor,
            decreases 8 - i,
        {
            let cards = piles.remove(0);
            let x: i32 = MARGIN + (i as i32) * (CARD_WIDTH + MARGIN);
            let pos = Point { x, y: MARGIN + CARD_HEIGHT + MARGIN };
            columns.push(Column::new(pos, cards, false));
            i = i + 1;
        }
        proof {
            assert(column_views(columns@) =~= pv);
            assert(pv =~= deal_spec_piles(d));
        }
        columns
    }

    /// The four open cells, empty, on the right half of the top row.
    pub fn init_open_cells() -> (r: Vec<Cell>)
        ensures
            r@.len() == 4,
            forall|j: int|
                0 <= j < 4 ==> (#[trigger] r@[j]).card.is_none() && r@[j].position
                    == open_cell_position(j),
    {
        let mut cells: Vec<Cell> = Vec::new();
        let mut i: usize = 0;
        while i < NUM_CELLS
            invariant
                i <= 4,
                cells@.len() == i,
                forall|j: int|
                    0 <= j < i ==> (#[trigger] cells@[j]).card.is_none() && cells@[j].position
                        == open_cell_position(j),
            decreases 4 - i,
        {
            let x: i32 = MARGIN + (4 + i as i32) * (CARD_WIDTH + MARGIN);
            cells.push(Cell::new(Point { x, y: MARGIN }, None));
            i = i + 1;
        }
        cells
    }

    /// The four foundations, empty, on the left half of the top row.
    pub fn init_foundations() -> (r: Vec<Cell>)
        ensures
            r@.len() == 4,
            forall|j: int|
                0 <= j < 4 ==> (#[trigger] r@[j]).card.is_none() && r@[j].position
                    == foundation_position(j),
    {
        let mut cells: Vec<Cell> = Vec::new();
        let mut i: usize = 0;
        while i < NUM_CELLS
            invariant
                i <= 4,
                cells@.len() == i,
                forall|j: int|
                    0 <= j < i ==> (#[trigger] cells@[j]).card.is_none() && cells@[j].position
                        == foundation_position(j),
            decreases 4 - i,
        {
            let x: i32 = MARGIN + (i as i32) * (CARD_WIDTH + MARGIN);
            cells.push(Cell::new(Point { x, y: MARGIN }, None));
            i = i + 1;
        }
        cells
    }

    /// The empty cursor pile.
    pub fn init_cursor_column() -> (r: Column)
        ensures
            r@.len() == 0,
            r.is_cursor,
            r.position == (Point { x: 0, y: 0 }),
    {
        Column::new(Point { x: 0, y: 0 }, Vec::new(), true)
    }

    /// A game dealt from `deck`: its cards round-robin onto the eight
    /// tableau columns, empty cells and foundations, nothing held.
    pub fn from_deck(deck: Vec<Card>) -> (r: Game)
        ensures
            r.wf(),
            forall|c: int| 0 <= c < 8 ==> #[trigger] r@.columns[c] == dealt_column(deck@, c as nat),
            forall|i: int| 0 <= i < 4 ==> (#[trigger] r@.open_cells[i]).is_none(),
            forall|i: int| 0 <= i < 4 ==> (#[trigger] r@.foundations[i]).is_none(),
            r@.cursor.len() == 0,
            !r.previous_click_state,
            r@.cards() == deck@.to_multiset(),
            forall|i: int|
                0 <= i < 8 ==> (#[trigger] r.columns@[i]).position == column_position(i)
                    && !r.columns@[i].is_cursor,
            forall|i: int|
                0 <= i < 4 ==> (#[trigger] r.open_cells@[i]).position == open_cell_position(i),
            forall|i: int|
                0 <= i < 4 ==> (#[trigger] r.foundations@[i]).position == foundation_position(i),
            r.cursor_column.is_cursor,
            r.cursor_column.position == (Point { x: 0, y: 0 }),
    {
        let ghost d = deck@;
        let columns = Game::init_columns(deck);
        let open_cells = Game::init_open_cells();
        let foundations = Game::init_foundations();
        let g = Game {
            columns,
            open_cells,
            foundations,
            cursor_column: Game::init_cursor_column(),
            previous_click_state: false,
        };
        proof {
            lemma_slots_cards_empty(g@.open_cells, slot_fn());
            lemma_slots_cards_empty(g@.foundations, pile_fn());
            assert(g@.cursor.to_multiset() =~= Multiset::empty());
            assert(g@.cards() =~= d.to_multiset());
        }
        g
    }

    /// A game dealt from a freshly shuffled deck.
    pub fn new() -> (r: Game)
        ensures
            r.wf(),
            r@.cards() == full_deck().to_multiset(),
            forall|c: int| 0 <= c < 8 ==> #[trigger] r@.columns[c].len() == if c < 4 {
                7int
            } else {
                6int
            },
            forall|i: int| 0 <= i < 4 ==> (#[trigger] r@.open_cells[i]).is_none(),
            forall|i: int| 0 <= i < 4 ==> (#[trigger] r@.foundations[i]).is_none(),
            r@.cursor.len() == 0,
            !r.previous_click_state,
            forall|i: int|
                0 <= i < 8 ==> (#[trigger] r.columns@[i]).position == column_position(i)
                    && !r.columns@[i].is_cursor,
            forall|i: int|
                0 <= i < 4 ==> (#[trigger] r.open_cells@[i]).position == open_cell_position(i),
            forall|i: int|
                0 <= i < 4 ==> (#[trigger] r.foundations@[i]).position == foundation_position(i),
            r.cursor_column.is_cursor,
            r.cursor_column.position == (Point { x: 0, y: 0 }),
    {
        let deck = shuffled_deck();
        proof {
            crate::deal::lemma_deal_conserves(deck@);
        }
        let g = Game::from_deck(deck);
        proof {
            assert forall|c: int| 0 <= c < 8 implies #[trigger] g@.columns[c].len() == if c < 4 {
                7int
            } else {
                6int
            } by {
                assert(dealt_column(deck@, c as nat).len() == if (c as nat) < 4 {
                    7nat
                } else {
                    6nat
                });
            }
        }
        g
    }

    /// Which container a release at `pos` hits.
    pub fn hit(&self, pos: Point) -> (r: Option<Target>)
        ensures
            r == self.spec_hit(pos),
    {
        let mut i: usize = 0;
        while i < self.columns.len()
            invariant
                i <= self.columns@.len(),
                first_column_hit(self.columns@, pos, 0) == first_column_hit(
                    self.columns@,
                    pos,
                    i as int,
                ),
            decreases self.columns@.len() - i,
        {
            if self.columns[i].inside(pos) {
                return Some(Target::Column(i));
            }
            i = i + 1;
        }
        let mut i: usize = 0;
        while i < self.open_cells.len()
            invariant
                i <= self.open_cells@.len(),
                first_column_hit(self.columns@, pos, 0) == None::<usize>,
                first_cell_hit(self.open_cells@, pos, 0) == first_cell_hit(
                    self.open_cells@,
                    pos,
                    i as int,
                ),
            decreases self.open_cells@.len() - i,
        {
            if self.open_cells[i].inside(pos) {
                return Some(Target::OpenCell(i));
            }
            i = i + 1;
        }
        let mut i: usize = 0;
        while i < self.foundations.len()
            invariant
                i <= self.foundations@.len(),
                first_column_hit(self.columns@, pos, 0) == None::<usize>,
                first_cell_hit(self.open_cells@, pos, 0) == None::<usize>,
                first_cell_hit(self.foundations@, pos, 0) == first_cell_hit(
                    self.foundations@,
                    pos,
                    i as int,
                ),
            decreases self.foundations@.len() - i,
        {
            if self.foundations[i].inside(pos) {
                return Some(Target::Foundation(i));
            }
            i = i + 1;
        }
        None
    }

    /// Picks up the top card of `t` into the empty cursor pile; a foundation
    /// then shows the card beneath it.
    fn pick_up(&mut self, t: Target) -> (r: Outcome)
        requires
            old(self).wf(),
            old(self)@.cursor.len() == 0,
            t.valid(),
        ensures
            final(self)@ == pick_up(old(self)@, t),
            r == release_outcome(old(self)@, Some(t)),
            old(self).same_layout(final(self)),
            final(self).cursor_column.position == old(self).cursor_column.position,
            final(self).previous_click_state == old(self).previous_click_state,
    {
        let ghost b = self@;
        match t {
            Target::Column(i) => {
                if self.columns[i].is_empty() {
                    return Outcome::Nothing;
                }
                let cards = self.columns[i].take(1);
                self.cursor_column.put(cards);
                proof {
                    assert(self@.columns =~= pick_up(b, t).columns);
                    assert(self@.cursor =~= pick_up(b, t).cursor);
                }
                Outcome::Took
            },
            Target::OpenCell(i) => {
                match self.open_cells[i].take() {
                    Some(c) => {
                        self.cursor_column.put(vec![c]);
                        proof {
                            assert(self@.open_cells =~= pick_up(b, t).open_cells);
                            assert(self@.cursor =~= pick_up(b, t).cursor);
                        }
                        Outcome::Took
                    },
                    None => {
                        proof {
                            assert(self@.open_cells =~= b.open_cells);
                        }
                        Outcome::Nothing
                    },
                }
            },
            Target::Foundation(i) => {
                match self.foundations[i].take() {
                    Some(c) => {
                        if c.value > 0 {
                            self.foundations[i].put(Card { suit: c.suit, value: c.value - 1 });
                        }
                        self.cursor_column.put(vec![c]);
                        proof {
                            assert(self@.foundations =~= pick_up(b, t).foundations);
                            assert(self@.cursor =~= pick_up(b, t).cursor);
                        }
                        Outcome::Took
                    },
                    None => {
                        proof {
                            assert(self@.foundations =~= b.foundations);
                        }
                        Outcome::Nothing
                    },
                }
            },
        }
    }

    /// Whether the held card may be dropped on `t`: exactly where the rules
    /// of Freecell accept it.
    pub fn may_drop(&self, t: Target) -> (r: bool)
        requires
            self.wf(),
            self@.cursor.len() > 0,
            t.valid(),
        ensures
            r == may_drop(self@, t),
    {
        let card = self.cursor_column.cards[0];
        match t {
            Target::Column(i) => {
                proof {
                    assert(self.columns@[i as int].spec_top() == seq_top(self@.columns[i as int]));
                }
                card.fits_tableau(self.columns[i].top())
            },
            Target::OpenCell(i) => self.open_cells[i].accepts_open(card),
            Target::Foundation(i) => self.foundations[i].accepts_foundation(card),
        }
    }

    /// Drops the held card on `t` if that is allowed; else nothing changes.
    fn drop_on(&mut self, t: Target) -> (r: Outcome)
        requires
            old(self).wf(),
            old(self)@.cursor.len() > 0,
            t.valid(),
        ensures
            final(self)@ == (if may_drop(old(self)@, t) {
                place(old(self)@, t, old(self)@.cursor[0])
            } else {
                old(self)@
            }),
            r == release_outcome(old(self)@, Some(t)),
            old(self).same_layout(final(self)),
            final(self).cursor_column.position == old(self).cursor_column.position,
            final(self).previous_click_state == old(self).previous_click_state,
    {
        let ghost b = self@;
        if !self.may_drop(t) {
            return Outcome::Nothing;
        }
        let card = self.cursor_column.cards[0];
        let cards = self.cursor_column.take(1);
        proof {
            assert(cards@ =~= seq![card]);
            assert(self@.cursor =~= Seq::<Card>::empty());
        }
        match t {
            Target::Column(i) => {
                self.columns[i].put(cards);
                proof {
                    assert(b.columns[i as int] + seq![card] =~= b.columns[i as int].push(card));
                    assert(self@.columns =~= place(b, t, card).columns);
                }
                Outcome::DroppedOnColumn
            },
            Target::OpenCell(i) => {
                self.open_cells[i].put(card);
                proof {
                    assert(self@.open_cells =~= place(b, t, card).open_cells);
                }
                Outcome::DroppedOnCell
            },
            Target::Foundation(i) => {
                self.foundations[i].put(card);
                proof {
                    assert(self@.foundations =~= place(b, t, card).foundations);
                }
                Outcome::DroppedOnCell
            },
        }
    }

    /// One frame of input: the cursor pile follows the pointer, and on the
    /// frame where the button is let go (pressed on the previous frame, not
    /// on this one) the release at `pos` is carried out. Returns what the
    /// release did, for the sound to play.
    pub fn update(&mut self, pressed: bool, pos: Point) -> (r: Outcome)
        requires
            old(self).wf(),
        ensures
            final(self).wf(),
            final(self)@ == (if old(self).previous_click_state && !pressed {
                release(old(self)@, old(self).spec_hit(pos))
            } else {
                old(self)@
            }),
            r == (if old(self).previous_click_state && !pressed {
                release_outcome(old(self)@, old(self).spec_hit(pos))
            } else {
                Outcome::Nothing
            }),
            final(self)@.cards() == old(self)@.cards(),
            final(self).previous_click_state == pressed,
            final(self).cursor_column.position == pos,
            old(self).same_layout(final(self)),
    {
        let ghost b = self@;
        let mut outcome = Outcome::Nothing;
        if self.previous_click_state && !pressed {
            let hit = self.hit(pos);
            proof {
                lemma_hit_valid(self, pos);
                lemma_release_keeps_cards(b, hit);
            }
            match hit {
                Some(t) => {
                    if self.cursor_column.is_empty() {
                        outcome = self.pick_up(t);
                    } else {
                        outcome = self.drop_on(t);
                    }
                },
                None => {},
            }
        }
        self.cursor_column.update(pos);
        self.previous_click_state = pressed;
        outcome
    }
}

/// A hit names a container that exists.
proof fn lemma_hit_valid(g: &Game, pos: Point)
    requires
        g.wf(),
    ensures
        match g.spec_hit(pos) {
            Some(t) => t.valid(),
            None => true,
        },
{
    lemma_first_column_hit_bound(g.columns@, pos, 0);
    lemma_first_cell_hit_bound(g.open_cells@, pos, 0);
    lemma_first_cell_hit_bound(g.foundations@, pos, 0);
}

proof fn lemma_first_column_hit_bound(cols: Seq<Column>, pos: Point, from: int)
    ensures
        match first_column_hit(cols, pos, from) {
            Some(i) => i < cols.len(),
            None => true,
        },
    decreases cols.len() - from,
{
    if 0 <= from < cols.len() && !cols[from].spec_inside(pos) {
        lemma_first_column_hit_bound(cols, pos, from + 1);
    }
}

proof fn lemma_first_cell_hit_bound(cells: Seq<Cell>, pos: Point, from: int)
    ensures
        match first_cell_hit(cells, pos, from) {
            Some(i) => i < cells.len(),
            None => true,
        },
    decreases cells.len() - from,
{
    if 0 <= from < cells.len() && !cells[from].spec_inside(pos) {
        lemma_first_cell_hit_bound(cells, pos, from + 1);
    }
}


proof fn lemma_first_column_none(cols: Seq<Column>, pos: Point, from: int)
    requires
        0 <= from,
        forall|k: int| from <= k < cols.len() ==> !(#[trigger] cols[k]).spec_inside(pos),
    ensures
        first_column_hit(cols, pos, from) == None::<usize>,
    decreases cols.len() - from,
{
    if from < cols.len() {
        lemma_first_column_none(cols, pos, from + 1);
    }
}

proof fn lemma_first_column_at(cols: Seq<Column>, pos: Point, from: int, i: int)
    requires
        0 <= from <= i < cols.len(),
        cols[i].spec_inside(pos),
        forall|k: int| from <= k < i ==> !(#[trigger] cols[k]).spec_inside(pos),
    ensures
        first_column_hit(cols, pos, from) == Some(i as usize),
    decreases i - from,
{
    if from < i {
        lemma_first_column_at(cols, pos, from + 1, i);
    }
}

proof fn lemma_first_cell_none(cells: Seq<Cell>, pos: Point, from: int)
    requires
        0 <= from,
        forall|k: int| from <= k < cells.len() ==> !(#[trigger] cells[k]).spec_inside(pos),
    ensures
        first_cell_hit(cells, pos, from) == None::<usize>,
    decreases cells.len() - from,
{
    if from < cells.len() {
        lemma_first_cell_none(cells, pos, from + 1);
    }
}

proof fn lemma_first_cell_at(cells: Seq<Cell>, pos: Point, from: int, i: int)
    requires
        0 <= from <= i < cells.len(),
        cells[i].spec_inside(pos),
        forall|k: int| from <= k < i ==> !(#[trigger] cells[k]).spec_inside(pos),
    ensures
        first_cell_hit(cells, pos, from) == Some(i as usize),
    decreases i - from,
{
    if from < i {
        lemma_first_cell_at(cells, pos, from + 1, i);
    }
}

/// On a well-formed game no two containers overlap: a release inside a
/// container hits that container and no other.
pub proof fn lemma_hit_inside(g: &Game, pos: Point)
    requires
        g.wf(),
    ensures
        forall|i: int|
            0 <= i < 8 && (#[trigger] g.columns@[i]).spec_inside(pos) ==> g.spec_hit(pos) == Some(
                Target::Column(i as usize),
            ),
        forall|j: int|
            0 <= j < 4 && (#[trigger] g.open_cells@[j]).spec_inside(pos) ==> g.spec_hit(pos)
                == Some(Target::OpenCell(j as usize)),
        forall|j: int|
            0 <= j < 4 && (#[trigger] g.foundations@[j]).spec_inside(pos) ==> g.spec_hit(pos)
                == Some(Target::Foundation(j as usize)),
{
    let cols = g.columns@;
    let opens = g.open_cells@;
    let founds = g.foundations@;
    assert forall|i: int| 0 <= i < 8 && (#[trigger] cols[i]).spec_inside(pos) implies g.spec_hit(pos)
        == Some(Target::Column(i as usize)) by {
        assert forall|k: int| 0 <= k < i implies !(#[trigger] cols[k]).spec_inside(pos) by {
            assert(cols[k].position == column_position(k));
            assert(cols[i].position == column_position(i));
        }
        lemma_first_column_at(cols, pos, 0, i);
    }
    assert forall|j: int| 0 <= j < 4 && (#[trigger] opens[j]).spec_inside(pos) implies g.spec_hit(pos)
        == Some(Target::OpenCell(j as usize)) by {
        assert forall|k: int| 0 <= k < 8 implies !(#[trigger] cols[k]).spec_inside(pos) by {
            assert(cols[k].position == column_position(k));
        }
        assert forall|k: int| 0 <= k < j implies !(#[trigger] opens[k]).spec_inside(pos) by {
            assert(opens[k].position == open_cell_position(k));
            assert(opens[j].position == open_cell_position(j));
        }
        lemma_first_column_none(cols, pos, 0);
        lemma_first_cell_at(opens, pos, 0, j);
    }
    assert forall|j: int| 0 <= j < 4 && (#[trigger] founds[j]).spec_inside(pos) implies g.spec_hit(
        pos,
    ) == Some(Target::Foundation(j as usize)) by {
        assert(founds[j].position == foundation_position(j));
        assert forall|k: int| 0 <= k < 8 implies !(#[trigger] cols[k]).spec_inside(pos) by {
            assert(cols[k].position == column_position(k));
        }
        assert forall|k: int| 0 <= k < 4 implies !(#[trigger] opens[k]).spec_inside(pos) by {
            assert(opens[k].position == open_cell_position(k));
        }
        assert forall|k: int| 0 <= k < j implies !(#[trigger] founds[k]).spec_inside(pos) by {
            assert(founds[k].position == foundation_position(k));
        }
        lemma_first_column_none(cols, pos, 0);
        lemma_first_cell_none(opens, pos, 0);
        lemma_first_cell_at(founds, pos, 0, j);
    }
}

/// With nothing held, a release on an empty slot or an empty column, or on
/// no container at all, leaves the board as it was; so does repeating it.
pub proof fn lemma_release_on_empty_changes_nothing(b: Board, t: Target)
    requires
        b.wf(),
        b.cursor.len() == 0,
        t.valid(),
        match t {
            Target::Column(i) => b.columns[i as int].len() == 0,
            Target::OpenCell(i) => b.open_cells[i as int].is_none(),
            Target::Foundation(i) => b.foundations[i as int].is_none(),
        },
    ensures
        release(b, Some(t)) == b,
        release(release(b, Some(t)), Some(t)) == b,
        release(b, None) == b,
        release_outcome(b, Some(t)) == Outcome::Nothing,
{
}

/// With a card held, a release on `t` puts the card there exactly when the
/// rules accept it: a column that is empty or whose top card is of the other
/// colour and one rank higher; an empty open cell; a foundation that is
/// empty and the card an ace, or that shows the previous rank of its suit.
/// Otherwise nothing changes.
pub proof fn lemma_drop_follows_rules(b: Board, t: Target)
    requires
        b.wf(),
        b.cursor.len() == 1,
        t.valid(),
    ensures
        ({
            let c = b.cursor[0];
            let r = release(b, Some(t));
            let ok = match t {
                Target::Column(i) => c.spec_fits_tableau(seq_top(b.columns[i as int])),
                Target::OpenCell(i) => b.open_cells[i as int].is_none(),
                Target::Foundation(i) => c.spec_fits_foundation(b.foundations[i as int]),
            };
            &&& ok ==> r.cursor.len() == 0 && match t {
                Target::Column(i) => r.columns == b.columns.update(
                    i as int,
                    b.columns[i as int].push(c),
                ) && r.open_cells == b.open_cells && r.foundations == b.foundations,
                Target::OpenCell(i) => r.open_cells == b.open_cells.update(i as int, Some(c))
                    && r.columns == b.columns && r.foundations == b.foundations,
                Target::Foundation(i) => r.foundations == b.foundations.update(i as int, Some(c))
                    && r.columns == b.columns && r.open_cells == b.open_cells,
            }
            &&& !ok ==> r == b
        }),
{
}

/// Picking up the top card of a non-empty column and releasing over an
/// empty open cell moves that card into the cell: the column has one card
/// fewer, the cursor is empty again, and nothing else changes.
pub proof fn lemma_column_to_open_cell(b: Board, i: usize, j: usize)
    requires
        b.wf(),
        b.cursor.len() == 0,
        i < 8,
        j < 4,
        b.columns[i as int].len() > 0,
        b.open_cells[j as int].is_none(),
    ensures
        ({
            let b1 = release(b, Some(Target::Column(i)));
            let b2 = release(b1, Some(Target::OpenCell(j)));
            &&& b1.cursor == seq![b.columns[i as int].last()]
            &&& b2.open_cells == b.open_cells.update(j as int, Some(b.columns[i as int].last()))
            &&& b2.columns == b.columns.update(i as int, b.columns[i as int].drop_last())
            &&& b2.foundations == b.foundations
            &&& b2.cursor.len() == 0
        }),
{
    let b1 = release(b, Some(Target::Column(i)));
    assert(b1.cursor[0] == b.columns[i as int].last());
}

} // verus!
