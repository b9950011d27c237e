//! A deck: the cards in the order in which they are asked, and the place
//! that the questions have reached.

use crate::ask::Ask;
use crate::card::{Card, CardView};
use crate::random::{lemma_map_keeps_rearrangement, lemma_rearranged, sample, shuffle};
use rand::rngs::StdRng;
use vstd::prelude::*;

verus! {

/// The cards of a session and the place that the questions have reached.
pub struct Deck {
    cards: Vec<Card>,
    question_index: usize,
}

/// A deck as plain values: its cards in order, and the number of the card
/// that is asked next.
pub struct DeckView {
    pub cards: Seq<CardView>,
    pub cursor: nat,
}

/// The cards as plain text, in the same order.
pub open spec fn views(cards: Seq<Card>) -> Seq<CardView> {
    cards.map_values(|card: Card| card@)
}

/// The indices as mathematical integers, in the same order.
pub open spec fn positions(indexes: Seq<usize>) -> Seq<int> {
    indexes.map_values(|i: usize| i as int)
}

impl DeckView {
    /// The cursor points at a card, or the deck is empty and it stands at 0.
    pub open spec fn wf(self) -> bool {
        self.cursor < self.cards.len() || self.cursor == 0
    }

    /// Every card has something to ask and something to accept.
    pub open spec fn complete(self) -> bool {
        forall|i: int| 0 <= i < self.cards.len() ==> (#[trigger] self.cards[i]).wf()
    }

    /// The deck with its cursor one card further, back at the first card
    /// after the last one.
    pub open spec fn advanced(self) -> DeckView {
        DeckView { cards: self.cards, cursor: ((self.cursor + 1) as nat) % self.cards.len() }
    }

    /// The deck with every card turned over.
    pub open spec fn flip_all(self) -> DeckView {
        DeckView { cards: self.cards.map_values(|card: CardView| card.flipped()), cursor: self.cursor }
    }

    /// The deck with the card at `nth` turned over. An index past the end
    /// changes nothing.
    pub open spec fn flip_nth(self, nth: int) -> DeckView {
        if 0 <= nth < self.cards.len() {
            DeckView { cards: self.cards.update(nth, self.cards[nth].flipped()), cursor: self.cursor }
        } else {
            self
        }
    }

    /// The deck after the cards at the given indices were turned over, one
    /// index after the other.
    pub open spec fn flip_each(self, indexes: Seq<usize>) -> DeckView
        decreases indexes.len(),
    {
        if indexes.len() == 0 {
            self
        } else {
            self.flip_each(indexes.drop_last()).flip_nth(indexes.last() as int)
        }
    }

    /// The deck with exactly the cards at the picked places turned over.
    pub open spec fn flipped_where(self, picked: Set<int>) -> DeckView {
        DeckView {
            cards: Seq::new(
                self.cards.len(),
                |i: int|
                    if picked.contains(i) {
                        self.cards[i].flipped()
                    } else {
                        self.cards[i]
                    },
            ),
            cursor: self.cursor,
        }
    }

    /// Whether `picked` is a choice of a quarter of the deck's places,
    /// rounded down.
    pub open spec fn is_quarter(self, picked: Set<int>) -> bool {
        &&& picked.finite()
        &&& picked.len() == self.cards.len() / 4
        &&& forall|i: int| picked.contains(i) ==> 0 <= i < self.cards.len()
    }
}

/// Turning over the cards at indices of which no two are equal turns over
/// exactly the cards at those places, and there are as many places as
/// indices.
pub proof fn lemma_flip_each_distinct(deck: DeckView, indexes: Seq<usize>)
    requires
        indexes.no_duplicates(),
        forall|k: int| 0 <= k < indexes.len() ==> indexes[k] < deck.cards.len(),
    ensures
        deck.flip_each(indexes) == deck.flipped_where(positions(indexes).to_set()),
        positions(indexes).to_set().finite(),
        positions(indexes).to_set().len() == indexes.len(),
        forall|i: int| positions(indexes).to_set().contains(i) ==> 0 <= i < deck.cards.len(),
    decreases indexes.len(),
{
    let places = positions(indexes).to_set();
    assert(positions(indexes).no_duplicates());
    positions(indexes).unique_seq_to_set();
    assert forall|i: int| places.contains(i) implies 0 <= i < deck.cards.len() by {
        let k = choose|k: int| 0 <= k < indexes.len() && positions(indexes)[k] == i;
        assert(indexes[k] < deck.cards.len());
    }
    if indexes.len() == 0 {
        assert(deck.flipped_where(places).cards =~= deck.cards);
    } else {
        let rest = indexes.drop_last();
        let last = indexes.last() as int;
        let rest_places = positions(rest).to_set();
        lemma_flip_each_distinct(deck, rest);
        assert(positions(rest) =~= positions(indexes).drop_last());
        assert(!rest_places.contains(last)) by {
            if rest_places.contains(last) {
                let k = choose|k: int| 0 <= k < rest.len() && positions(rest)[k] == last;
                assert(indexes[k] == indexes[indexes.len() - 1]);
            }
        }
        assert forall|i: int| places.contains(i) <==> (rest_places.contains(i) || i == last) by {
            if places.contains(i) {
                let k = choose|k: int| 0 <= k < indexes.len() && positions(indexes)[k] == i;
                if k < rest.len() {
                    assert(positions(rest)[k] == i);
                }
            }
            if rest_places.contains(i) {
                let k = choose|k: int| 0 <= k < rest.len() && positions(rest)[k] == i;
                assert(positions(indexes)[k] == i);
            }
            if i == last {
                assert(positions(indexes)[indexes.len() - 1] == i);
            }
        }
        assert(deck.flipped_where(rest_places).flip_nth(last).cards =~= deck.flipped_where(
            places,
        ).cards);
    }
}

/// A deck whose cards all have something to ask and to accept keeps that
/// when its cards are put in another order.
pub proof fn lemma_rearranged_complete(before: DeckView, after: DeckView)
    requires
        before.complete(),
        after.cards.to_multiset() == before.cards.to_multiset(),
    ensures
        after.complete(),
{
    lemma_rearranged(after.cards, before.cards);
    assert forall|i: int| 0 <= i < after.cards.len() implies (#[trigger] after.cards[i]).wf() by {
        assert(after.cards.contains(after.cards[i]));
        let j = choose|j: int| 0 <= j < before.cards.len() && before.cards[j] == after.cards[i];
        assert(before.cards[j].wf());
    }
}

impl View for Deck {
    type V = DeckView;

    closed spec fn view(&self) -> DeckView {
        DeckView { cards: views(self.cards@), cursor: self.question_index as nat }
    }
}

impl Deck {
    /// The cursor points at a card, or the deck is empty and it stands at 0.
    pub open spec fn wf(&self) -> bool {
        self@.wf()
    }

    /// A deck holds no more cards than a `usize` counts.
    pub proof fn lemma_len_fits(&self)
        ensures
            self@.cards.len() <= usize::MAX,
    {
        assert(self.cards.len() == self.cards@.len());
    }

    /// A deck of the given cards, at its first card.
    pub fn new(cards: Vec<Card>) -> (deck: Self)
        ensures
            deck@ == (DeckView { cards: views(cards@), cursor: 0 }),
            deck.wf(),
    {
        Self { cards, question_index: 0 }
    }

    /// The number of the card that is asked next.
    pub fn question_index(&self) -> (index: usize)
        ensures
            index == self@.cursor,
    {
        self.question_index
    }

    /// How many cards the deck holds.
    pub fn len(&self) -> (len: usize)
        ensures
            len == self@.cards.len(),
    {
        self.cards.len()
    }

    /// Whether every card has something to ask and something to accept.
    pub fn is_complete(&self) -> (complete: bool)
        ensures
            complete == self@.complete(),
    {
        let mut i: usize = 0;
        while i < self.cards.len()
            invariant
                i <= self.cards.len(),
                forall|j: int| 0 <= j < i ==> (#[trigger] self@.cards[j]).wf(),
            decreases self.cards.len() - i,
        {
            if !self.cards[i].is_complete() {
                assert(!self@.cards[i as int].wf());
                return false;
            }
            i += 1;
        }
        true
    }

    /// Adds a card at the end.
    pub fn push(&mut self, card: Card)
        ensures
            final(self)@ == (DeckView { cards: old(self)@.cards.push(card@), cursor: old(self)@.cursor }),
            old(self).wf() ==> final(self).wf(),
    {
        self.cards.push(card);
        assert(views(self.cards@) =~= views(old(self).cards@).push(card@));
    }

    /// Puts the cards in a random order. The cursor stays where it is.
    pub fn suffle(&mut self, rng: &mut StdRng)
        ensures
            final(self)@.cards.to_multiset() == old(self)@.cards.to_multiset(),
            final(self)@.cards.len() == old(self)@.cards.len(),
            final(self)@.cursor == old(self)@.cursor,
            old(self).wf() ==> final(self).wf(),
    {
        shuffle(&mut self.cards, rng);
        proof {
            lemma_map_keeps_rearrangement(old(self).cards@, self.cards@, |card: Card| card@);
            lemma_rearranged(old(self).cards@, self.cards@);
        }
    }

    /// Turns every card over.
    pub fn flip_all(&mut self)
        ensures
            final(self)@ == old(self)@.flip_all(),
            old(self).wf() ==> final(self).wf(),
    {
        let mut i: usize = 0;
        while i < self.cards.len()
            invariant
                i <= self.cards.len(),
                self.cards.len() == old(self).cards.len(),
                self.question_index == old(self).question_index,
                forall|j: int| 0 <= j < i ==> (#[trigger] self.cards[j])@ == old(self).cards[j]@.flipped(),
                forall|j: int| i <= j < self.cards.len() ==> #[trigger] self.cards[j] == old(self).cards[j],
            decreases self.cards.len() - i,
        {
            self.cards[i].flip();
            i += 1;
        }
        assert(self@.cards =~= old(self)@.flip_all().cards);
    }

    /// Turns over the cards at the given indices, one index after the other.
    pub fn flip_each(&mut self, indexes: &Vec<usize>)
        ensures
            final(self)@ == old(self)@.flip_each(indexes@),
            final(self)@.cards.len() == old(self)@.cards.len(),
            final(self)@.cursor == old(self)@.cursor,
            old(self).wf() ==> final(self).wf(),
    {
        let mut k: usize = 0;
        while k < indexes.len()
            invariant
                k <= indexes.len(),
                self@ == old(self)@.flip_each(indexes@.take(k as int)),
                self@.cards.len() == old(self)@.cards.len(),
                self@.cursor == old(self)@.cursor,
            decreases indexes.len() - k,
        {
            self.flip_nth(indexes[k]);
            assert(indexes@.take(k + 1).drop_last() =~= indexes@.take(k as int));
            k += 1;
        }
        assert(indexes@.take(indexes.len() as int) =~= indexes@);
    }

    /// Turns over a quarter of the cards, rounded down, picked at random.
    /// No card is picked twice.
    pub fn flip_random(&mut self, rng: &mut StdRng)
        ensures
            exists|picked: Set<int>|
                old(self)@.is_quarter(picked) && final(self)@ == old(self)@.flipped_where(picked),
            old(self).wf() ==> final(self).wf(),
    {
        let indexes = sample(rng, self.cards.len(), self.cards.len() / 4);
        self.flip_each(&indexes);
        proof {
            lemma_flip_each_distinct(old(self)@, indexes@);
            let picked = positions(indexes@).to_set();
            assert(old(self)@.is_quarter(picked));
        }
    }

    /// Turns over the card at `nth`, if there is one.
    pub fn flip_nth(&mut self, nth: usize) -> (done: Option<()>)
        ensures
            final(self)@ == old(self)@.flip_nth(nth as int),
            done is Some <==> nth < old(self)@.cards.len(),
            old(self).wf() ==> final(self).wf(),
    {
        if nth < self.cards.len() {
            self.cards[nth].flip();
            assert(self@.cards =~= old(self)@.flip_nth(nth as int).cards);
            Some(())
        } else {
            None
        }
    }

    /// The card at the given index, if there is one.
    pub fn get_card_by_index(&self, index: usize) -> (found: Option<&Card>)
        ensures
            index < self@.cards.len() ==> found is Some && found->0@ == self@.cards[index as int],
            index >= self@.cards.len() ==> found is None,
    {
        if index < self.cards.len() {
            Some(&self.cards[index])
        } else {
            None
        }
    }
}

impl Ask for Deck {
    open spec fn has_card(&self) -> bool {
        self@.cursor < self@.cards.len()
    }

    open spec fn card(&self) -> (CardView, usize) {
        (self@.cards[self@.cursor as int], self@.cursor as usize)
    }

    open spec fn may_advance(&self) -> bool {
        self@.cursor < self@.cards.len()
    }

    open spec fn leads_to(&self, next: &Self) -> bool {
        next@ == self@.advanced()
    }

    fn advance(&mut self)
        ensures
            final(self).wf(),
    {
        let len = self.cards.len();
        self.question_index = (self.question_index + 1) % len;
    }

    fn get_card(&self) -> (&Card, usize) {
        (&self.cards[self.question_index], self.question_index)
    }
}

} // verus!
