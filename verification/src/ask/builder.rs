//! Setting up a scheduler: the deck, the limits, and the side of the cards
//! that is asked.

use super::{Asker, AskerView, FlipMode, Stat};
use crate::ask::nulos::NulosView;
use crate::deck::{lemma_rearranged_complete, Deck, DeckView};
use rand::rngs::StdRng;
use vstd::prelude::*;

verus! {

/// The settings of a session, gathered before it starts.
pub struct AskerBuilder {
    deck: Deck,
    max_cycle: u32,
    tries: u32,
    flip_mode: FlipMode,
    rng: StdRng,
}

/// The settings as plain values.
pub struct AskerBuilderView {
    pub deck: DeckView,
    pub max_cycle: nat,
    pub tries: nat,
    pub flip_mode: FlipMode,
}

impl AskerBuilderView {
    /// There is a card under the deck's cursor, every card has something to
    /// ask and to accept, and both limits are at least 1.
    pub open spec fn wf(self) -> bool {
        &&& self.deck.cursor < self.deck.cards.len()
        &&& self.deck.complete()
        &&& self.max_cycle >= 1
        &&& self.tries >= 1
    }

    /// Whether the scheduler may start with the given cards. They are the
    /// deck's cards in some order: as they are with `Recto`, all turned over
    /// with `Verso`, and with `Random` a quarter of them turned over,
    /// rounded down.
    pub open spec fn arranges(self, cards: Seq<crate::card::CardView>) -> bool {
        match self.flip_mode {
            FlipMode::Recto => cards.to_multiset() == self.deck.cards.to_multiset(),
            FlipMode::Verso => cards.to_multiset() == self.deck.flip_all().cards.to_multiset(),
            FlipMode::Random(_) => exists|picked: Set<int>|
                self.deck.is_quarter(picked) && cards.to_multiset() == self.deck.flipped_where(
                    picked,
                ).cards.to_multiset(),
        }
    }
}

impl View for AskerBuilder {
    type V = AskerBuilderView;

    closed spec fn view(&self) -> AskerBuilderView {
        AskerBuilderView {
            deck: self.deck@,
            max_cycle: self.max_cycle as nat,
            tries: self.tries as nat,
            flip_mode: self.flip_mode,
        }
    }
}

impl AskerBuilder {
    /// The settings can be built into a scheduler.
    pub open spec fn wf(&self) -> bool {
        self@.wf()
    }

    /// Settings for one cycle with one try per question, recto side up.
    pub fn new(deck: Deck, rng: StdRng) -> (builder: Self)
        requires
            deck@.cursor < deck@.cards.len(),
            deck@.complete(),
        ensures
            builder.wf(),
            builder@ == (AskerBuilderView {
                deck: deck@,
                max_cycle: 1,
                tries: 1,
                flip_mode: FlipMode::Recto,
            }),
    {
        Self { deck, max_cycle: 1, tries: 1, flip_mode: FlipMode::Recto, rng }
    }

    /// Sets how many times the deck is walked through.
    pub fn max_cycle(&mut self, max_cycle: u32)
        requires
            old(self).wf(),
            max_cycle >= 1,
        ensures
            final(self).wf(),
            final(self)@ == (AskerBuilderView { max_cycle: max_cycle as nat, ..old(self)@ }),
    {
        self.max_cycle = max_cycle;
    }

    /// Sets how many tries each question gets.
    pub fn tries(&mut self, tries: u32)
        requires
            old(self).wf(),
            tries >= 1,
        ensures
            final(self).wf(),
            final(self)@ == (AskerBuilderView { tries: tries as nat, ..old(self)@ }),
    {
        self.tries = tries;
    }

    /// Sets which side of the cards is asked.
    pub fn flip_mode(&mut self, verso_mode: FlipMode)
        requires
            old(self).wf(),
        ensures
            final(self).wf(),
            final(self)@ == (AskerBuilderView { flip_mode: verso_mode, ..old(self)@ }),
    {
        self.flip_mode = verso_mode;
    }

    /// Turns the cards as the mode asks, puts the deck in a random order and
    /// hands out the scheduler, ready for its first question.
    pub fn build(self) -> (asker: Asker)
        requires
            self.wf(),
        ensures
            asker.wf(),
            self@.arranges(asker@.deck.cards),
            asker@ == (AskerView {
                deck: asker@.deck,
                failed: NulosView {
                    active: Seq::empty(),
                    standby: Seq::empty(),
                    cursor: 0,
                    deferred: false,
                },
                all_cases: self@.flip_mode.all_cases(),
                cycle_counter: 0,
                max_cycle: self@.max_cycle,
                tries: self@.tries,
                stat: Stat::New,
                user_tries: 1,
                answered: false,
            }),
            asker@.deck.cursor == self@.deck.cursor,
    {
        let mut settings = self;
        match settings.flip_mode {
            FlipMode::Verso => settings.deck.flip_all(),
            FlipMode::Random(_) => settings.deck.flip_random(&mut settings.rng),
            FlipMode::Recto => (),
        }
        let ghost turned = settings.deck@;
        settings.deck.suffle(&mut settings.rng);
        proof {
            lemma_rearranged_complete(turned, settings.deck@);
        }
        let all_cases = settings.flip_mode.is_all_cases();
        Asker::start(settings.deck, settings.rng, settings.max_cycle, settings.tries, all_cases)
    }
}

} // verus!
