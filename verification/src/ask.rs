//! The question scheduler. It walks through the deck, sends the cards that
//! were missed to the retry queue, and walks through that queue once the
//! deck has been seen, pass after pass, until nothing is left in it. Then the
//! next cycle through the deck begins.

pub mod builder;
pub mod flip_mode;
pub mod nulos;
pub mod session;

use crate::card::{Card, CardView};
use crate::deck::{Deck, DeckView};
use crate::random::lemma_map_keeps_rearrangement;
use nulos::NulosView;
use rand::rngs::StdRng;
use vstd::prelude::*;

pub use builder::AskerBuilder;
pub use flip_mode::FlipMode;
pub use nulos::Nulos;

verus! {

/// Something that hands out cards to ask, one at a time.
pub trait Ask {
    /// Whether there is a card to hand out.
    spec fn has_card(&self) -> bool;

    /// The card that is handed out, and its number.
    spec fn card(&self) -> (CardView, usize);

    /// Whether the source can move on.
    spec fn may_advance(&self) -> bool;

    /// Whether moving on can lead from this state to `next`.
    spec fn leads_to(&self, next: &Self) -> bool;

    /// Moves on to the next card.
    fn advance(&mut self)
        requires
            old(self).may_advance(),
        ensures
            old(self).leads_to(final(self)),
    ;

    /// The card to ask now, and its number.
    fn get_card(&self) -> (found: (&Card, usize))
        requires
            self.has_card(),
        ensures
            found.0@ == self.card().0,
            found.1 == self.card().1,
    ;
}

/// Where the questions are taken from.
#[derive(Clone, Copy, Debug, PartialEq, Eq, Structural)]
pub enum Stat {
    /// From the deck.
    New,
    /// From the retry queue.
    Failed,
}

/// What the user is told after an answer.
pub enum Reply {
    /// The answer was right.
    Correct,
    /// The answer was wrong and no try is left: the accepted answers.
    Revealed(String),
    /// The answer was wrong and another try follows: the hint.
    Hint(String),
}

/// A reply as plain text.
pub enum ReplyView {
    Correct,
    Revealed(Seq<char>),
    Hint(Seq<char>),
}

impl View for Reply {
    type V = ReplyView;

    open spec fn view(&self) -> ReplyView {
        match self {
            Reply::Correct => ReplyView::Correct,
            Reply::Revealed(line) => ReplyView::Revealed(line@),
            Reply::Hint(line) => ReplyView::Hint(line@),
        }
    }
}

/// The scheduler of a session: it says which card is asked, judges the
/// answers, and moves on.
pub struct Asker {
    deck: Deck,
    failed: Nulos,
    all_cases: bool,
    cycle_counter: u32,
    max_cycle: u32,
    tries: u32,
    stat: Stat,
    rng: StdRng,
    user_tries: u32,
    answered: bool,
}

/// The scheduler as plain values.
pub struct AskerView {
    pub deck: DeckView,
    pub failed: NulosView,
    /// Whether the whole deck is turned over at each new cycle.
    pub all_cases: bool,
    /// The cycles through the deck that are done.
    pub cycle_counter: nat,
    /// The cycles through the deck to do.
    pub max_cycle: nat,
    /// The tries that each question gets.
    pub tries: nat,
    pub stat: Stat,
    /// The number of the try that is awaited, counted from 1.
    pub user_tries: nat,
    /// Whether the question has got its last answer.
    pub answered: bool,
}

impl AskerView {
    /// Whether all the cycles are done.
    pub open spec fn is_over(self) -> bool {
        self.cycle_counter >= self.max_cycle
    }

    /// The number of the card that is asked: the deck's cursor, or what the
    /// retry queue has under its cursor.
    pub open spec fn index(self) -> usize {
        match self.stat {
            Stat::New => self.deck.cursor as usize,
            Stat::Failed => match self.failed.current() {
                Some(index) => index,
                None => 0,
            },
        }
    }

    /// The card that is asked.
    pub open spec fn card(self) -> CardView {
        self.deck.cards[self.index() as int]
    }

    /// How far the retry queue has been walked through: the places before
    /// this one hold the indices that were asked in this pass and missed.
    pub open spec fn reach(self) -> nat {
        if self.answered {
            self.failed.next_cursor()
        } else {
            self.failed.cursor
        }
    }

    /// What holds of a scheduler at every moment of a session. There is a
    /// card to ask, and every card has something to ask and to accept. The
    /// limits are at least 1 and not passed. The retry queue holds indices of
    /// cards, none of them twice. While the deck is walked through nothing
    /// waits in the buffer of the pass, and what was collected are cards
    /// already asked in this cycle. While the retry queue is walked through
    /// the deck stands at its last card, the open question is under the
    /// queue's cursor, and what was collected is what the pass has asked and
    /// found missed again.
    pub open spec fn wf(self) -> bool {
        &&& self.deck.cursor < self.deck.cards.len() <= usize::MAX
        &&& self.deck.complete()
        &&& 1 <= self.max_cycle <= u32::MAX
        &&& 1 <= self.tries <= u32::MAX
        &&& self.cycle_counter <= self.max_cycle
        &&& 1 <= self.user_tries <= self.tries
        &&& self.failed.wf()
        &&& self.failed.active.no_duplicates()
        &&& forall|i: int|
            0 <= i < self.failed.active.len() ==> #[trigger] self.failed.active[i]
                < self.deck.cards.len()
        &&& forall|i: int|
            0 <= i < self.failed.standby.len() ==> #[trigger] self.failed.standby[i]
                < self.deck.cards.len()
        &&& match self.stat {
            Stat::New => {
                &&& self.failed.active.len() == 0
                &&& self.failed.standby.no_duplicates()
                &&& forall|i: int|
                    0 <= i < self.failed.standby.len() ==> #[trigger] self.failed.standby[i]
                        < self.deck.cursor + if self.answered {
                        1int
                    } else {
                        0int
                    }
            },
            Stat::Failed => {
                &&& self.deck.cursor + 1 == self.deck.cards.len()
                &&& self.reach() <= self.failed.active.len()
                &&& self.failed.standby == self.failed.active.subrange(0, self.reach() as int)
                &&& !self.answered ==> self.failed.cursor < self.failed.active.len()
                    && !self.failed.deferred
            },
        }
    }

    /// The scheduler after the answer was judged. A right answer takes the
    /// card out of the retry queue; a wrong one at the last try sends it
    /// there; a wrong one before that uses up a try.
    pub open spec fn graded(self, answer: Seq<char>) -> AskerView {
        if self.card().accepts(answer) {
            AskerView { failed: self.failed.removed(self.index()), answered: true, ..self }
        } else if self.user_tries == self.tries {
            AskerView { failed: self.failed.pushed(self.index()), answered: true, ..self }
        } else {
            AskerView { user_tries: self.user_tries + 1, ..self }
        }
    }

    /// What the user is told about the answer.
    pub open spec fn reply(self, answer: Seq<char>) -> ReplyView {
        if self.card().accepts(answer) {
            ReplyView::Correct
        } else if self.user_tries == self.tries {
            ReplyView::Revealed(self.card().formated_verso())
        } else {
            ReplyView::Hint(self.card().tip.message())
        }
    }

    /// What every move to the next question does: the settings stay, and
    /// the first try of a question is awaited.
    pub open spec fn opens_question(self, next: AskerView) -> bool {
        &&& next.all_cases == self.all_cases
        &&& next.max_cycle == self.max_cycle
        &&& next.tries == self.tries
        &&& next.user_tries == 1
        &&& !next.answered
    }

    /// The moves from a question that came from the deck. After the last
    /// card the retry queue takes over if it holds anything; if not, the
    /// cycle is done, and the deck is put in a new order (and turned over,
    /// with `all_cases`) for the next one. Before the last card the deck
    /// moves on.
    pub open spec fn new_rules(self, next: AskerView) -> bool {
        if self.deck.cursor + 1 == self.deck.cards.len() {
            if self.failed.is_empty() {
                &&& next.stat == Stat::New
                &&& next.cycle_counter == self.cycle_counter + 1
                &&& next.failed == self.failed
                &&& next.deck.cursor == 0
                &&& next.deck.cards.to_multiset() == (if self.all_cases {
                    self.deck.flip_all()
                } else {
                    self.deck
                }).cards.to_multiset()
            } else {
                &&& next.stat == Stat::Failed
                &&& next.cycle_counter == self.cycle_counter
                &&& next.deck == self.deck
                &&& self.failed.advances_to(next.failed)
            }
        } else {
            &&& next.stat == Stat::New
            &&& next.cycle_counter == self.cycle_counter
            &&& next.failed == self.failed
            &&& next.deck == self.deck.advanced()
        }
    }

    /// The moves from a question that came from the retry queue. Once the
    /// queue is empty the deck takes over, by the rules above; until then
    /// the queue moves on.
    pub open spec fn failed_rules(self, next: AskerView) -> bool {
        if self.failed.is_empty() {
            self.new_rules(next)
        } else {
            &&& next.stat == Stat::Failed
            &&& next.cycle_counter == self.cycle_counter
            &&& next.deck == self.deck
            &&& self.failed.advances_to(next.failed)
        }
    }

    /// Whether moving on to the next question can lead from this state to
    /// `next`.
    pub open spec fn advances_to(self, next: AskerView) -> bool {
        &&& self.opens_question(next)
        &&& match self.stat {
            Stat::New => self.new_rules(next),
            Stat::Failed => self.failed_rules(next),
        }
    }
}

impl View for Asker {
    type V = AskerView;

    closed spec fn view(&self) -> AskerView {
        AskerView {
            deck: self.deck@,
            failed: self.failed@,
            all_cases: self.all_cases,
            cycle_counter: self.cycle_counter as nat,
            max_cycle: self.max_cycle as nat,
            tries: self.tries as nat,
            stat: self.stat,
            user_tries: self.user_tries as nat,
            answered: self.answered,
        }
    }
}

impl Asker {
    /// The scheduler is in a state that a session can be in.
    pub open spec fn wf(&self) -> bool {
        self@.wf()
    }

    /// A scheduler at the first card of the deck, with nothing to retry.
    pub(crate) fn start(deck: Deck, rng: StdRng, max_cycle: u32, tries: u32, all_cases: bool) -> (asker:
        Self)
        requires
            deck@.cursor < deck@.cards.len(),
            deck@.complete(),
            max_cycle >= 1,
            tries >= 1,
        ensures
            asker.wf(),
            asker@ == (AskerView {
                deck: deck@,
                failed: NulosView {
                    active: Seq::empty(),
                    standby: Seq::empty(),
                    cursor: 0,
                    deferred: false,
                },
                all_cases,
                cycle_counter: 0,
                max_cycle: max_cycle as nat,
                tries: tries as nat,
                stat: Stat::New,
                user_tries: 1,
                answered: false,
            }),
    {
        proof {
            deck.lemma_len_fits();
        }
        Asker {
            deck,
            failed: Nulos::new(),
            all_cases,
            cycle_counter: 0,
            max_cycle,
            tries,
            stat: Stat::New,
            rng,
            user_tries: 1,
            answered: false,
        }
    }

    /// Whether all the cycles are done.
    pub fn is_over(&self) -> (over: bool)
        ensures
            over == self@.is_over(),
    {
        self.cycle_counter >= self.max_cycle
    }

    /// The cycles through the deck that are done.
    pub fn cycle_counter(&self) -> (count: u32)
        ensures
            count == self@.cycle_counter,
    {
        self.cycle_counter
    }

    /// Where the questions are taken from.
    pub fn stat(&self) -> (stat: Stat)
        ensures
            stat == self@.stat,
    {
        self.stat
    }

    /// Whether the question that is asked has got its last answer.
    pub fn is_answered(&self) -> (answered: bool)
        ensures
            answered == self@.answered,
    {
        self.answered
    }

    /// The deck, in the order of the current cycle.
    pub fn deck(&self) -> (deck: &Deck)
        ensures
            deck@ == self@.deck,
    {
        &self.deck
    }

    /// The retry queue.
    pub fn failed(&self) -> (queue: &Nulos)
        ensures
            queue@ == self@.failed,
    {
        &self.failed
    }

    /// Judges one answer to the card that is asked. A right answer settles
    /// the question and takes the card out of the retry queue. A wrong one
    /// at the last try settles it too: the card goes to the retry queue and
    /// the accepted answers are handed back. A wrong one before that is
    /// answered with the hint, and the next try is awaited.
    pub fn ask(&mut self, answer: &str) -> (reply: Reply)
        requires
            old(self).wf(),
            !old(self)@.answered,
        ensures
            final(self).wf(),
            final(self)@ == old(self)@.graded(answer@),
            reply@ == old(self)@.reply(answer@),
    {
        let (card, index) = self.get_card();
        proof {
            session::lemma_graded_keeps_wf(self@, answer@);
        }
        if card.test(answer) {
            self.failed.remove_value(index);
            self.answered = true;
            Reply::Correct
        } else if self.user_tries == self.tries {
            let line = card.formated_verso();
            self.failed.push(index);
            self.answered = true;
            Reply::Revealed(line)
        } else {
            let line = card.tip.message();
            self.user_tries += 1;
            Reply::Hint(line)
        }
    }

    /// The move to the next question by the rules for a question that came
    /// from the deck.
    fn advance_new(&mut self)
        requires
            old(self).wf(),
            old(self)@.answered,
            !old(self)@.is_over(),
            old(self)@.stat == Stat::New,
        ensures
            final(self).wf(),
            old(self)@.opens_question(final(self)@),
            old(self)@.new_rules(final(self)@),
    {
        if self.deck.question_index() + 1 == self.deck.len() {
            if self.failed.is_empty() {
                self.cycle_counter += 1;
                self.deck.suffle(&mut self.rng);
                if self.all_cases {
                    let ghost shuffled = self@.deck;
                    self.deck.flip_all();
                    proof {
                        lemma_map_keeps_rearrangement(
                            shuffled.cards,
                            old(self)@.deck.cards,
                            |card: CardView| card.flipped(),
                        );
                    }
                }
                proof {
                    vstd::arithmetic::div_mod::lemma_mod_self_0(self@.deck.cards.len() as int);
                }
                self.deck.advance();
            } else {
                self.stat = Stat::Failed;
                self.failed.advance(&mut self.rng);
            }
        } else {
            self.deck.advance()
        }
        self.user_tries = 1;
        self.answered = false;
        proof {
            session::lemma_advance_keeps_wf(old(self)@, self@);
        }
    }
}

impl Ask for Asker {
    open spec fn has_card(&self) -> bool {
        self.wf() && !self@.answered
    }

    open spec fn card(&self) -> (CardView, usize) {
        (self@.card(), self@.index())
    }

    open spec fn may_advance(&self) -> bool {
        self.wf() && self@.answered && !self@.is_over()
    }

    open spec fn leads_to(&self, next: &Self) -> bool {
        next.wf() && self@.advances_to(next@)
    }

    /// Moves on to the next question, once the one that is asked has got
    /// its last answer.
    fn advance(&mut self) {
        if matches!(self.stat, Stat::New) {
            self.advance_new();
        } else if self.failed.is_empty() {
            self.stat = Stat::New;
            self.advance_new();
        } else {
            self.failed.advance(&mut self.rng);
            self.user_tries = 1;
            self.answered = false;
            proof {
                session::lemma_advance_keeps_wf(old(self)@, self@);
            }
        }
    }

    /// The card to ask, and its number. The card has a prompt to show.
    fn get_card(&self) -> (found: (&Card, usize))
        ensures
            found.0@.wf(),
            found.1 < self@.deck.cards.len(),
    {
        if matches!(self.stat, Stat::New) {
            self.deck.get_card()
        } else {
            let index = self.failed.get().unwrap();
            (self.deck.get_card_by_index(index).unwrap(), index)
        }
    }
}

} // verus!
