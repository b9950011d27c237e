//! What holds of every session, whatever is answered and whatever order the
//! shuffles give: the scheduler stays well formed, a retry pass asks the
//! indices of its buffer in their order, and a card that was missed comes
//! back in the next retry pass.

use super::nulos::lemma_first_index;
use super::{AskerView, Stat};
use crate::deck::lemma_rearranged_complete;
use crate::random::lemma_rearranged;
use vstd::prelude::*;

verus! {

impl AskerView {
    /// The indices that the retry pass has yet to settle, in the order in
    /// which it asks them. While a question is open its index is the first.
    pub open spec fn to_ask(self) -> Seq<usize> {
        self.failed.active.subrange(self.reach() as int, self.failed.active.len() as int)
    }

    /// Whether the retry pass goes on after this state: questions come from
    /// the retry queue, and the one that is asked is open or is not the last
    /// of the pass.
    pub open spec fn in_pass(self) -> bool {
        self.stat == Stat::Failed && (self.answered ==> !self.failed.ends_pass())
    }

    /// Whether the next move opens a retry pass: the question is settled,
    /// something waits in the retry queue, and the deck or the pass before
    /// is at its end.
    pub open spec fn opens_pass(self) -> bool {
        &&& self.answered
        &&& !self.failed.is_empty()
        &&& match self.stat {
            Stat::New => self.deck.cursor + 1 == self.deck.cards.len(),
            Stat::Failed => self.failed.ends_pass(),
        }
    }

    /// One step of a session: an answer to the open question, or the move
    /// to the next question once it is settled and cycles are left.
    pub open spec fn steps_to(self, next: AskerView) -> bool {
        if self.answered {
            !self.is_over() && self.advances_to(next)
        } else {
            exists|answer: Seq<char>| next == #[trigger] self.graded(answer)
        }
    }
}

/// Whether the states are the stretch of a session: the first is well
/// formed, and each of the others is reached from the one before by a step.
pub open spec fn is_session(states: Seq<AskerView>) -> bool {
    &&& states.len() > 0
    &&& states[0].wf()
    &&& forall|i: int| 0 <= i < states.len() - 1 ==> (#[trigger] states[i]).steps_to(states[i + 1])
}

/// How many questions the stretch settles.
pub open spec fn settled(states: Seq<AskerView>) -> nat
    decreases states.len(),
{
    if states.len() <= 1 {
        0
    } else {
        settled(states.drop_last()) + if !states[states.len() - 2].answered
            && states.last().answered {
            1nat
        } else {
            0nat
        }
    }
}

/// Judging an answer keeps the scheduler well formed, and never removes an
/// index from the retry queue in the one way that could make it skip
/// another. While questions come from the retry queue, the open question is
/// the first that the pass has yet to settle; a last answer settles it, and
/// any other leaves the pass as it is.
pub proof fn lemma_graded_keeps_wf(asker: AskerView, answer: Seq<char>)
    requires
        asker.wf(),
        !asker.answered,
    ensures
        asker.graded(answer).wf(),
        asker.graded(answer).stat == asker.stat,
        !asker.failed.overruns(asker.index()),
        forall|index: usize|
            asker.failed.standby.contains(index) ==> asker.graded(answer).failed.standby.contains(
                index,
            ),
        asker.stat == Stat::Failed ==> {
            &&& asker.to_ask().len() > 0
            &&& asker.to_ask()[0] == asker.index()
            &&& asker.graded(answer).to_ask() == if asker.graded(answer).answered {
                asker.to_ask().drop_first()
            } else {
                asker.to_ask()
            }
        },
{
    let queue = asker.failed;
    let index = asker.index();
    let next = asker.graded(answer);
    queue.active.index_of_first_ensures(index);
    if asker.stat == Stat::Failed {
        let at = queue.cursor as int;
        lemma_first_index(queue.active, index, at);
        assert(queue.removed(index).active =~= queue.active.remove(at));
        assert(queue.active.remove(at).subrange(0, at) =~= queue.active.subrange(0, at));
        assert(queue.standby.push(index) =~= queue.active.subrange(0, at + 1));
        assert(queue.active.remove(at).no_duplicates());
        assert(asker.to_ask()[0] == index);
        if next.answered {
            assert(next.to_ask() =~= asker.to_ask().drop_first());
        }
    }
    assert forall|other: usize| queue.standby.contains(other) implies next.failed.standby.contains(
        other,
    ) by {
        let k = choose|k: int| 0 <= k < queue.standby.len() && queue.standby[k] == other;
        if next.failed.standby != queue.standby {
            assert(queue.standby.push(index)[k] == other);
        }
    }
}

/// Moving on to the next question keeps the scheduler well formed.
pub proof fn lemma_advance_keeps_wf(asker: AskerView, next: AskerView)
    requires
        asker.wf(),
        asker.answered,
        !asker.is_over(),
        asker.advances_to(next),
    ensures
        next.wf(),
{
    let queue = asker.failed;
    let len = asker.deck.cards.len();
    if asker.stat == Stat::Failed && !queue.is_empty() {
        if queue.ends_pass() {
            assert(queue.standby =~= queue.active);
            lemma_opened_pass(asker, next);
        }
    } else if asker.deck.cursor + 1 == len {
        if queue.is_empty() {
            let turned = if asker.all_cases {
                asker.deck.flip_all()
            } else {
                asker.deck
            };
            assert(turned.complete());
            lemma_rearranged_complete(turned, next.deck);
            lemma_rearranged(turned.cards, next.deck.cards);
        } else {
            lemma_opened_pass(asker, next);
        }
    } else {
        vstd::arithmetic::div_mod::lemma_small_mod(asker.deck.cursor + 1, len);
    }
}

/// The move that opens a retry pass leaves the scheduler well formed, at
/// the first index of a buffer that holds what was collected.
proof fn lemma_opened_pass(asker: AskerView, next: AskerView)
    requires
        asker.wf(),
        asker.opens_pass(),
        asker.advances_to(next),
    ensures
        next.wf(),
        next.stat == Stat::Failed,
        !next.answered,
        next.to_ask() == next.failed.active,
        next.failed.active.to_multiset() == asker.failed.standby.to_multiset(),
{
    let queue = asker.failed;
    if asker.stat == Stat::Failed {
        assert(queue.standby =~= queue.active);
    }
    lemma_rearranged(queue.standby, next.failed.active);
    assert forall|i: int| 0 <= i < next.failed.active.len() implies #[trigger] next.failed.active[i]
        < next.deck.cards.len() by {
        assert(next.failed.active.contains(next.failed.active[i]));
    }
    assert(next.failed.standby =~= next.failed.active.subrange(0, 0));
    assert(next.to_ask() =~= next.failed.active);
}

/// Every state of a session is well formed.
pub proof fn lemma_session_keeps_wf(states: Seq<AskerView>)
    requires
        is_session(states),
    ensures
        forall|i: int| 0 <= i < states.len() ==> (#[trigger] states[i]).wf(),
    decreases states.len(),
{
    if states.len() > 1 {
        let before = states.drop_last();
        lemma_prefix_is_session(states, states.len() - 1);
        lemma_session_keeps_wf(before);
        let last = before.last();
        assert(last == states[states.len() - 2]);
        assert(last.wf());
        assert(last.steps_to(states[states.len() - 1]));
        lemma_step_keeps_wf(last, states.last());
        assert forall|i: int| 0 <= i < states.len() implies (#[trigger] states[i]).wf() by {
            if i < before.len() {
                assert(before[i] == states[i]);
            }
        }
    }
}

/// A step keeps the scheduler well formed.
pub proof fn lemma_step_keeps_wf(asker: AskerView, next: AskerView)
    requires
        asker.wf(),
        asker.steps_to(next),
    ensures
        next.wf(),
{
    if asker.answered {
        lemma_advance_keeps_wf(asker, next);
    } else {
        let answer = choose|answer: Seq<char>| next == #[trigger] asker.graded(answer);
        lemma_graded_keeps_wf(asker, answer);
    }
}

/// The start of a stretch of a session is one too.
proof fn lemma_prefix_is_session(states: Seq<AskerView>, len: int)
    requires
        is_session(states),
        0 < len <= states.len(),
    ensures
        is_session(states.take(len)),
        states.take(len)[0] == states[0],
        len == states.len() - 1 ==> states.take(len) == states.drop_last(),
{
    let start = states.take(len);
    assert forall|i: int| 0 <= i < start.len() - 1 implies (#[trigger] start[i]).steps_to(
        start[i + 1],
    ) by {
        assert(states[i].steps_to(states[i + 1]));
    }
    if len == states.len() - 1 {
        assert(start =~= states.drop_last());
    }
}

/// A retry pass asks the indices of its buffer in their order, one
/// question each. Take a stretch of a session that starts within a retry
/// pass and does not leave it before its last state. What the pass has yet
/// to settle at the end of the stretch is what it had yet to settle at the
/// start, less one index from the front for each question that was settled
/// meanwhile.
pub proof fn lemma_pass_asks_in_order(states: Seq<AskerView>)
    requires
        is_session(states),
        states[0].stat == Stat::Failed,
        forall|i: int| 0 <= i < states.len() - 1 ==> (#[trigger] states[i]).in_pass(),
    ensures
        states.last().wf(),
        states.last().stat == Stat::Failed,
        settled(states) <= states[0].to_ask().len(),
        states.last().to_ask() == states[0].to_ask().skip(settled(states) as int),
        !states.last().answered ==> settled(states) < states[0].to_ask().len()
            && states.last().index() == states[0].to_ask()[settled(states) as int],
    decreases states.len(),
{
    let first = states[0];
    if states.len() == 1 {
        assert(first.to_ask().skip(0) =~= first.to_ask());
    } else {
        let before = states.drop_last();
        lemma_prefix_is_session(states, states.len() - 1);
        assert forall|i: int| 0 <= i < before.len() - 1 implies (#[trigger] before[i]).in_pass() by {
            assert(before[i] == states[i]);
        }
        lemma_pass_asks_in_order(before);
        let asker = before.last();
        let next = states.last();
        let done = settled(before) as int;
        assert(asker == states[states.len() - 2]);
        assert(asker.steps_to(states[states.len() - 1]));
        assert(asker.in_pass());
        if asker.answered {
            lemma_advance_keeps_wf(asker, next);
            assert(next.to_ask() =~= asker.to_ask());
        } else {
            let answer = choose|answer: Seq<char>| next == #[trigger] asker.graded(answer);
            lemma_graded_keeps_wf(asker, answer);
            if next.answered {
                assert(first.to_ask().skip(done).drop_first() =~= first.to_ask().skip(done + 1));
            }
        }
    }
    if !states.last().answered {
        let asker = states.last();
        let queue = asker.failed;
        assert(asker.to_ask()[0] == queue.active[queue.cursor as int]);
    }
}

/// Each of the questions that a retry pass has settled was asked at some
/// state of it: the one with the number `nth`, counted from 0, asked the
/// index at that place of what the pass had yet to settle at its start.
pub proof fn lemma_settled_was_asked(states: Seq<AskerView>, nth: int)
    requires
        is_session(states),
        states[0].stat == Stat::Failed,
        forall|i: int| 0 <= i < states.len() - 1 ==> (#[trigger] states[i]).in_pass(),
        0 <= nth < settled(states),
    ensures
        nth < states[0].to_ask().len(),
        exists|j: int|
            0 <= j < states.len() && !(#[trigger] states[j]).answered && states[j].stat
                == Stat::Failed && states[j].index() == states[0].to_ask()[nth],
    decreases states.len(),
{
    lemma_pass_asks_in_order(states);
    let before = states.drop_last();
    lemma_prefix_is_session(states, states.len() - 1);
    assert forall|i: int| 0 <= i < before.len() - 1 implies (#[trigger] before[i]).in_pass() by {
        assert(before[i] == states[i]);
    }
    if nth < settled(before) {
        lemma_settled_was_asked(before, nth);
        let j = choose|j: int|
            0 <= j < before.len() && !(#[trigger] before[j]).answered && before[j].stat
                == Stat::Failed && before[j].index() == before[0].to_ask()[nth];
        assert(states[j] == before[j]);
    } else {
        lemma_pass_asks_in_order(before);
        let j = states.len() - 2;
        assert(states[j] == before.last());
        assert(!states[j].answered);
    }
}

/// What was collected for the next pass stays collected until that pass is
/// opened.
pub proof fn lemma_collected_stays(states: Seq<AskerView>, index: usize)
    requires
        is_session(states),
        states[0].failed.standby.contains(index),
        forall|i: int| 0 <= i < states.len() - 1 ==> !(#[trigger] states[i]).opens_pass(),
    ensures
        states.last().wf(),
        states.last().failed.standby.contains(index),
    decreases states.len(),
{
    if states.len() > 1 {
        let before = states.drop_last();
        lemma_prefix_is_session(states, states.len() - 1);
        assert forall|i: int| 0 <= i < before.len() - 1 implies !(#[trigger] before[i]).opens_pass() by {
            assert(before[i] == states[i]);
        }
        lemma_collected_stays(before, index);
        let asker = before.last();
        let next = states.last();
        assert(asker == states[states.len() - 2]);
        assert(asker.steps_to(states[states.len() - 1]));
        assert(!asker.opens_pass());
        lemma_step_keeps_wf(asker, next);
        if !asker.answered {
            let answer = choose|answer: Seq<char>| next == #[trigger] asker.graded(answer);
            lemma_graded_keeps_wf(asker, answer);
        }
    }
}

/// A card that is missed is asked again in the next retry pass. Here
/// `before` is a stretch of a session that starts when the index of a
/// missed card has been collected and ends right before the move that
/// opens the next retry pass, and `after` is that pass, from its first
/// question to the answer that settles its last. Whatever was answered in
/// between, some question of the pass asks for that index. If the card is
/// missed again, its index is collected again, and the same holds of the
/// pass after.
pub proof fn lemma_missed_card_is_asked_again(
    before: Seq<AskerView>,
    after: Seq<AskerView>,
    index: usize,
)
    requires
        is_session(before),
        before[0].failed.standby.contains(index),
        forall|i: int| 0 <= i < before.len() - 1 ==> !(#[trigger] before[i]).opens_pass(),
        before.last().opens_pass(),
        after.len() > 0,
        before.last().steps_to(after[0]),
        is_session(after),
        forall|i: int| 0 <= i < after.len() - 1 ==> (#[trigger] after[i]).in_pass(),
        !after.last().in_pass(),
    ensures
        exists|j: int|
            0 <= j < after.len() && !(#[trigger] after[j]).answered && after[j].stat
                == Stat::Failed && after[j].index() == index,
{
    lemma_collected_stays(before, index);
    let opener = before.last();
    let first = after[0];
    lemma_opened_pass(opener, first);
    lemma_rearranged(opener.failed.standby, first.failed.active);
    assert(first.to_ask().contains(index));
    let nth = choose|nth: int| 0 <= nth < first.to_ask().len() && first.to_ask()[nth] == index;
    lemma_pass_asks_in_order(after);
    let last = after.last();
    assert(last.to_ask().len() == 0);
    assert(settled(after) == first.to_ask().len());
    lemma_settled_was_asked(after, nth);
}

} // verus!
