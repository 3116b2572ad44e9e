//! Shuffling the deck and dealing it round-robin onto the eight tableau columns.

use vstd::prelude::*;
use vstd::seq_lib::lemma_multiset_commutative;
use vstd::multiset::Multiset;
use rand::seq::SliceRandom;
use crate::card::{Card, full_deck, lemma_deck_complete};

verus! {

broadcast use vstd::multiset::group_multiset_axioms, vstd::seq_lib::group_to_multiset_ensures;

/// Number of tableau columns.
pub const NUM_COLUMNS: usize = 8;

/// How many of the first `m` dealt cards land on column `c`: those numbered
/// `c`, `c + 8`, `c + 16`, ...
pub open spec fn dealt_len(m: nat, c: nat) -> nat {
    ((m + 7 - c) / 8) as nat
}

/// Column `c` after the first `m` cards have been dealt from the top (the end)
/// of `deck`: dealt card number `n` is `deck[len - 1 - n]` and goes to column
/// `n % 8`.
pub open spec fn dealt_after(deck: Seq<Card>, m: nat, c: nat) -> Seq<Card> {
    Seq::new(dealt_len(m, c), |k: int| deck[deck.len() - 1 - (8 * k + c)])
}

/// Column `c` once the whole of `deck` has been dealt.
pub open spec fn dealt_column(deck: Seq<Card>, c: nat) -> Seq<Card> {
    dealt_after(deck, deck.len(), c)
}

/// The eight columns that dealing `deck` gives.
pub open spec fn deal_spec_piles(deck: Seq<Card>) -> Seq<Seq<Card>> {
    Seq::new(8, |c: int| dealt_column(deck, c as nat))
}

/// The contents of each of `cols`.
pub open spec fn views(cols: Seq<Vec<Card>>) -> Seq<Seq<Card>> {
    cols.map_values(|v: Vec<Card>| v@)
}

/// The cards of all columns, together.
pub open spec fn columns_cards(cols: Seq<Seq<Card>>) -> Multiset<Card>
    decreases cols.len(),
{
    if cols.len() == 0 {
        Multiset::empty()
    } else {
        columns_cards(cols.drop_last()).add(cols.last().to_multiset())
    }
}

/// The number of cards in all columns, together.
pub open spec fn total_len(cols: Seq<Seq<Card>>) -> int
    decreases cols.len(),
{
    if cols.len() == 0 {
        0
    } else {
        total_len(cols.drop_last()) + cols.last().len()
    }
}

/// Replacing one column changes the cards of all columns by exactly the
/// difference between the old and the new column.
pub proof fn lemma_columns_cards_update(cols: Seq<Seq<Card>>, i: int, s: Seq<Card>)
    requires
        0 <= i < cols.len(),
    ensures
        columns_cards(cols.update(i, s)).add(cols[i].to_multiset()) == columns_cards(cols).add(
            s.to_multiset(),
        ),
    decreases cols.len(),
{
    let u = cols.update(i, s);
    if i == cols.len() - 1 {
        assert(u.drop_last() =~= cols.drop_last());
        assert(u.last() == s);
        assert(columns_cards(u) == columns_cards(cols.drop_last()).add(s.to_multiset()));
        assert(columns_cards(cols) == columns_cards(cols.drop_last()).add(cols[i].to_multiset()));
        assert(columns_cards(u).add(cols[i].to_multiset()) =~= columns_cards(cols).add(
            s.to_multiset(),
        ));
    } else {
        assert(u.drop_last() =~= cols.drop_last().update(i, s));
        assert(u.last() == cols.last());
        assert(cols.drop_last()[i] == cols[i]);
        let d = cols.drop_last();
        lemma_columns_cards_update(d, i, s);
        let a = columns_cards(d.update(i, s));
        let b = columns_cards(d);
        let last = cols.last().to_multiset();
        let ci = cols[i].to_multiset();
        let sm = s.to_multiset();
        assert(columns_cards(u) == a.add(last));
        assert(columns_cards(cols) == b.add(last));
        assert(a.add(ci) == b.add(sm));
        assert forall|x: Card| #[trigger] a.add(last).add(ci).count(x) == b.add(last).add(
            sm,
        ).count(x) by {
            assert(a.add(ci).count(x) == b.add(sm).count(x));
        }
        assert(a.add(last).add(ci) =~= b.add(last).add(sm));
    }
}

/// Empty columns hold no cards.
pub proof fn lemma_columns_cards_empty(cols: Seq<Seq<Card>>)
    requires
        forall|i: int| 0 <= i < cols.len() ==> (#[trigger] cols[i]).len() == 0,
    ensures
        columns_cards(cols) == Multiset::<Card>::empty(),
    decreases cols.len(),
{
    if cols.len() > 0 {
        lemma_columns_cards_empty(cols.drop_last());
        assert(cols.last() =~= Seq::<Card>::empty());
        assert(cols.last().to_multiset() =~= Multiset::<Card>::empty());
        assert(columns_cards(cols) =~= Multiset::<Card>::empty());
    }
}

proof fn lemma_dealt_len_step(m: nat, c: nat)
    requires
        c < 8,
    ensures
        m % 8 == c ==> dealt_len(m + 1, c) == dealt_len(m, c) + 1 && 8 * dealt_len(m, c) + c == m,
        m % 8 != c ==> dealt_len(m + 1, c) == dealt_len(m, c),
{
    let q = m / 8;
    let r = m % 8;
    assert(m == 8 * q + r);
    if r == c {
        assert((m + 7 - c) / 8 == q);
        assert((m + 8 - c) / 8 == q + 1);
    } else if r < c {
        assert((m + 7 - c) / 8 == q);
        assert((m + 8 - c) / 8 == q);
    } else {
        assert((m + 7 - c) / 8 == q + 1);
        assert((m + 8 - c) / 8 == q + 1);
    }
}

/// Relies on rand's `SliceRandom::shuffle` with the thread-local generator:
/// it only swaps elements, so the result is a permutation of the input.
#[verifier::external_body]
fn shuffle(deck: &mut Vec<Card>)
    ensures
        final(deck)@.to_multiset() == old(deck)@.to_multiset(),
        final(deck)@.len() == old(deck)@.len(),
{
    deck.shuffle(&mut rand::thread_rng());
}

/// A freshly shuffled deck: some ordering of the 52 cards.
pub fn shuffled_deck() -> (r: Vec<Card>)
    ensures
        r@.to_multiset() == full_deck().to_multiset(),
        r@.len() == 52,
{
    let mut deck = Card::deck();
    shuffle(&mut deck);
    deck
}

/// Deals `deck` from its top (its end) round-robin onto eight columns,
/// starting at column 0.
pub fn deal(deck: Vec<Card>) -> (r: Vec<Vec<Card>>)
    ensures
        r@.len() == NUM_COLUMNS,
        forall|c: int| 0 <= c < 8 ==> (#[trigger] r@[c])@ == dealt_column(deck@, c as nat),
        columns_cards(views(r@)) == deck@.to_multiset(),
{
    let ghost orig = deck@;
    let ghost len = deck@.len();
    let mut deck = deck;
    let mut columns: Vec<Vec<Card>> = Vec::new();
    while columns.len() < NUM_COLUMNS
        invariant
            columns@.len() <= 8,
            forall|c: int| 0 <= c < columns@.len() ==> (#[trigger] columns@[c])@.len() == 0,
        decreases 8 - columns@.len(),
    {
        columns.push(Vec::new());
    }
    proof {
        lemma_columns_cards_empty(views(columns@));
        lemma_multiset_commutative(Seq::<Card>::empty(), deck@);
        assert(Seq::<Card>::empty() + deck@ =~= deck@);
    }
    let mut selected: usize = 0;
    while deck.len() > 0
        invariant
            columns@.len() == 8,
            orig.len() == len,
            deck@.len() <= len,
            deck@ == orig.subrange(0, deck@.len() as int),
            selected == (len - deck@.len()) % 8,
            forall|c: int|
                0 <= c < 8 ==> (#[trigger] columns@[c])@ == dealt_after(
                    orig,
                    (len - deck@.len()) as nat,
                    c as nat,
                ),
            columns_cards(views(columns@)).add(deck@.to_multiset())
                == orig.to_multiset(),
        decreases deck@.len(),
    {
        let ghost m: nat = (len - deck@.len()) as nat;
        let ghost before = columns@;
        let ghost rest = deck@;
        let card = match deck.pop() {
            Some(c) => c,
            None => { return columns; },
        };
        proof {
            broadcast use vstd::seq_lib::group_to_multiset_ensures;

            assert(rest =~= deck@.push(card));
            assert(card == orig[len - 1 - m]);
            assert(rest.to_multiset() =~= deck@.to_multiset().insert(card));
        }
        columns[selected].push(card);
        proof {
            assert forall|c: int| 0 <= c < 8 implies (#[trigger] columns@[c])@ == dealt_after(
                orig,
                m + 1,
                c as nat,
            ) by {
                lemma_dealt_len_step(m, c as nat);
                if c == selected as int {
                    let k = dealt_len(m, c as nat);
                    assert(8 * k + c == m);
                    assert(dealt_after(orig, m + 1, c as nat)[k as int] == card);
                    assert(columns@[c]@ =~= dealt_after(orig, m + 1, c as nat));
                } else {
                    assert(columns@[c]@ =~= dealt_after(orig, m + 1, c as nat));
                }
            }
            let cb = views(before);
            let ca = views(columns@);
            let s = selected as int;
            assert(ca =~= cb.update(s, cb[s].push(card)));
            lemma_columns_cards_update(cb, s, cb[s].push(card));
            broadcast use vstd::seq_lib::group_to_multiset_ensures;

            assert(cb[s].push(card).to_multiset() =~= cb[s].to_multiset().insert(card));
            let a = columns_cards(ca);
            let b = columns_cards(cb);
            let cs = cb[s].to_multiset();
            let dm = deck@.to_multiset();
            assert(a.add(cs) == b.add(cs.insert(card)));
            assert(b.add(dm.insert(card)) == orig.to_multiset());
            assert forall|x: Card| #[trigger] a.add(dm).count(x) == orig.to_multiset().count(x) by {
                assert(a.add(cs).count(x) == b.add(cs.insert(card)).count(x));
                assert(b.add(dm.insert(card)).count(x) == orig.to_multiset().count(x));
            }
            assert(a.add(dm) =~= orig.to_multiset());
        }
        selected = (selected + 1) % NUM_COLUMNS;
    }
    proof {
        broadcast use vstd::seq_lib::group_to_multiset_ensures;

        assert(deck@.to_multiset().len() == 0);
        assert(deck@.to_multiset() =~= Multiset::empty());
        assert forall|c: int| 0 <= c < 8 implies (#[trigger] columns@[c])@ == dealt_column(
            orig,
            c as nat,
        ) by {}
    }
    columns
}

/// Dealing any shuffle of the full deck puts seven cards on each of columns 0
/// to 3 and six on each of columns 4 to 7, 52 in all; every card lands on some
/// column, and no card lands in two places.
pub proof fn lemma_deal_conserves(deck: Seq<Card>)
    requires
        deck.to_multiset() == full_deck().to_multiset(),
    ensures
        deck.len() == 52,
        forall|c: nat| c < 8 ==> #[trigger] dealt_column(deck, c).len() == if c < 4 {
            7nat
        } else {
            6nat
        },
        dealt_column(deck, 0).len() + dealt_column(deck, 1).len() + dealt_column(deck, 2).len()
            + dealt_column(deck, 3).len() + dealt_column(deck, 4).len() + dealt_column(deck, 5).len()
            + dealt_column(deck, 6).len() + dealt_column(deck, 7).len() == 52,
        forall|card: Card|
            card.wf() ==> exists|c: nat, k: int|
                c < 8 && 0 <= k < dealt_column(deck, c).len() && #[trigger] dealt_column(deck, c)[k]
                    == card,
        forall|c1: nat, k1: int, c2: nat, k2: int|
            c1 < 8 && c2 < 8 && 0 <= k1 < dealt_column(deck, c1).len() && 0 <= k2 < dealt_column(
                deck,
                c2,
            ).len() && #[trigger] dealt_column(deck, c1)[k1] == #[trigger] dealt_column(deck, c2)[k2]
                ==> c1 == c2 && k1 == k2,
{
    lemma_deck_complete();
    assert(deck.len() == deck.to_multiset().len());
    assert(full_deck().len() == full_deck().to_multiset().len());
    full_deck().lemma_multiset_has_no_duplicates();
    deck.lemma_multiset_has_no_duplicates_conv();
    assert forall|c: nat| c < 8 implies #[trigger] dealt_column(deck, c).len() == if c < 4 {
        7nat
    } else {
        6nat
    } by {}
    assert forall|card: Card| card.wf() implies exists|c: nat, k: int|
        c < 8 && 0 <= k < dealt_column(deck, c).len() && #[trigger] dealt_column(deck, c)[k]
            == card by {
        assert(full_deck().to_multiset().count(card) > 0);
        assert(deck.contains(card));
        let i = choose|i: int| 0 <= i < deck.len() && deck[i] == card;
        let n = 51 - i;
        let c = (n % 8) as nat;
        let k = n / 8;
        assert(n == 8 * k + c);
        assert(dealt_column(deck, c)[k] == card);
    }
    assert forall|c1: nat, k1: int, c2: nat, k2: int|
        c1 < 8 && c2 < 8 && 0 <= k1 < dealt_column(deck, c1).len() && 0 <= k2 < dealt_column(
            deck,
            c2,
        ).len() && #[trigger] dealt_column(deck, c1)[k1] == #[trigger] dealt_column(deck, c2)[k2]
        implies c1 == c2 && k1 == k2 by {
        let i1 = 51 - (8 * k1 + c1);
        let i2 = 51 - (8 * k2 + c2);
        assert(deck[i1] == deck[i2]);
        assert(i1 == i2);
    }
}

} // verus!
