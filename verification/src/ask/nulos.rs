//! The retry queue: the indices of the cards that were missed, kept in two
//! buffers. One buffer is walked through during a pass; what is missed
//! meanwhile goes to the other one, which is walked through in the next
//! pass. So a card is never asked again right after its answer was shown.

use crate::random::{lemma_rearranged, shuffle};
use rand::rngs::StdRng;
use vstd::prelude::*;

verus! {

/// The retry queue.
#[derive(Debug)]
pub struct Nulos {
    failed1: Vec<usize>,
    failed2: Vec<usize>,
    which_one: Failed,
    index: usize,
    cancel_advance: bool,
}

/// Which of the two buffers is walked through in the current pass.
#[derive(Debug)]
enum Failed {
    One,
    Two,
}

/// The queue as plain values.
pub struct NulosView {
    /// The buffer that the current pass walks through.
    pub active: Seq<usize>,
    /// The buffer that collects what is missed during the current pass.
    pub standby: Seq<usize>,
    /// The place in `active` that the pass has reached.
    pub cursor: nat,
    /// Whether the next `advance` leaves the cursor where it is.
    pub deferred: bool,
}

/// One step taken on the queue during a pass.
pub enum QueueOp {
    Push(usize),
    Remove(usize),
    Advance,
}

impl NulosView {
    /// Unless the next `advance` is deferred, the cursor points into the
    /// active buffer, or stands at 0.
    pub open spec fn wf(self) -> bool {
        !self.deferred ==> self.cursor < self.active.len() || self.cursor == 0
    }

    /// Nothing is walked through and nothing waits for the next pass.
    pub open spec fn is_empty(self) -> bool {
        self.active.len() == 0 && self.standby.len() == 0
    }

    /// The index under the cursor, if the cursor points into the active
    /// buffer.
    pub open spec fn current(self) -> Option<usize> {
        if self.cursor < self.active.len() {
            Some(self.active[self.cursor as int])
        } else {
            None
        }
    }

    /// Where the next `advance` takes the cursor.
    pub open spec fn next_cursor(self) -> nat {
        if self.deferred {
            self.cursor
        } else {
            self.cursor + 1
        }
    }

    /// Whether the next `advance` ends the pass.
    pub open spec fn ends_pass(self) -> bool {
        self.next_cursor() >= self.active.len()
    }

    /// The queue after `value` was marked for the next pass.
    pub open spec fn pushed(self, value: usize) -> NulosView {
        NulosView { standby: self.standby.push(value), ..self }
    }

    /// The queue after the first occurrence of `value` left the active
    /// buffer. Where that occurrence stood at the cursor or before it, or the
    /// cursor is left at the end of the buffer, the next `advance` is
    /// deferred.
    pub open spec fn removed(self, value: usize) -> NulosView {
        match self.active.index_of_first(value) {
            Some(at) => NulosView {
                active: self.active.remove(at),
                deferred: self.deferred || at <= self.cursor || self.cursor == self.active.len() - 1,
                ..self
            },
            None => self,
        }
    }

    /// The queue after an `advance` that stays within the pass.
    pub open spec fn stepped(self) -> NulosView {
        NulosView { cursor: self.next_cursor(), deferred: false, ..self }
    }

    /// The queue after an `advance` that ends the pass: what was collected
    /// becomes the active buffer, in the order given.
    pub open spec fn rotated(self, order: Seq<usize>) -> NulosView {
        NulosView { active: order, standby: Seq::empty(), cursor: 0, deferred: false }
    }

    /// Whether `order` holds what was collected during the pass, each index
    /// as often as it was collected.
    pub open spec fn reorders_standby(self, order: Seq<usize>) -> bool {
        order.to_multiset() == self.standby.to_multiset()
    }

    /// Whether `advance` can lead from this queue to `next`: within a pass
    /// there is one way, and at the end of a pass there is one for each
    /// order in which what was collected can be put.
    pub open spec fn advances_to(self, next: NulosView) -> bool {
        if self.ends_pass() {
            next == self.rotated(next.active) && self.reorders_standby(next.active)
        } else {
            next == self.stepped()
        }
    }

    /// Whether the queue is as a pass finds it at its start.
    pub open spec fn starts_pass(self) -> bool {
        self.cursor == 0 && !self.deferred && self.standby.len() == 0
    }

    /// Whether removing `value` now would move an index that was not asked
    /// yet to a place before the cursor: the next `advance` is deferred
    /// already, and `value` stands before the cursor.
    pub open spec fn overruns(self, value: usize) -> bool {
        self.deferred && (self.active.index_of_first(value) matches Some(at) && at < self.cursor)
    }

    /// The queue after one step within a pass.
    pub open spec fn apply(self, op: QueueOp) -> NulosView {
        match op {
            QueueOp::Push(value) => self.pushed(value),
            QueueOp::Remove(value) => self.removed(value),
            QueueOp::Advance => self.stepped(),
        }
    }

    /// The queue after the steps were taken, first to last.
    pub open spec fn replay(self, ops: Seq<QueueOp>) -> NulosView
        decreases ops.len(),
    {
        if ops.len() == 0 {
            self
        } else {
            self.replay(ops.drop_last()).apply(ops.last())
        }
    }

    /// Whether none of the steps ends the pass: each `Advance` finds an
    /// index to go to.
    pub open spec fn stays_in_pass(self, ops: Seq<QueueOp>) -> bool
        decreases ops.len(),
    {
        ops.len() == 0 || (self.stays_in_pass(ops.drop_last()) && (ops.last() is Advance
            ==> !self.replay(ops.drop_last()).ends_pass()))
    }

    /// Whether no `Remove` among the steps overruns.
    pub open spec fn never_overruns(self, ops: Seq<QueueOp>) -> bool
        decreases ops.len(),
    {
        ops.len() == 0 || (self.never_overruns(ops.drop_last()) && (ops.last() matches QueueOp::Remove(
            value,
        ) ==> !self.replay(ops.drop_last()).overruns(value)))
    }

    /// The indices that were asked while the steps were taken: the one under
    /// the cursor at the start, then the one that each `Advance` reached.
    pub open spec fn presented(self, ops: Seq<QueueOp>) -> Seq<usize>
        decreases ops.len(),
    {
        if ops.len() == 0 {
            match self.current() {
                Some(index) => seq![index],
                None => Seq::empty(),
            }
        } else {
            let before = self.presented(ops.drop_last());
            match self.replay(ops).current() {
                Some(index) if ops.last() is Advance => before.push(index),
                _ => before,
            }
        }
    }

    /// The indices that the steps have passed over: each removal that
    /// overruns moves the index under the cursor to a place before it, where
    /// no `Advance` of the pass will reach it.
    pub open spec fn passed_over(self, ops: Seq<QueueOp>) -> Seq<usize>
        decreases ops.len(),
    {
        if ops.len() == 0 {
            Seq::empty()
        } else {
            let before = self.replay(ops.drop_last());
            let so_far = self.passed_over(ops.drop_last());
            match ops.last() {
                QueueOp::Remove(value) if before.overruns(value) && before.current() is Some =>
                    so_far.push(before.current()->0),
                _ => so_far,
            }
        }
    }
}

/// The indices that the steps push, in the order in which they do.
pub open spec fn pushes(ops: Seq<QueueOp>) -> Seq<usize>
    decreases ops.len(),
{
    if ops.len() == 0 {
        Seq::empty()
    } else {
        match ops.last() {
            QueueOp::Push(value) => pushes(ops.drop_last()).push(value),
            _ => pushes(ops.drop_last()),
        }
    }
}

/// The place of the first occurrence is the one place that holds the value
/// with no occurrence before it.
pub proof fn lemma_first_index(s: Seq<usize>, value: usize, at: int)
    requires
        0 <= at < s.len(),
        s[at] == value,
        forall|j: int| 0 <= j < at ==> s[j] != value,
    ensures
        s.index_of_first(value) == Some(at),
{
    s.index_of_first_ensures(value);
}

/// Whatever steps are taken, the standby buffer is what it was, followed by
/// what the steps pushed.
pub proof fn lemma_standby_collects(queue: NulosView, ops: Seq<QueueOp>)
    ensures
        queue.replay(ops).standby == queue.standby + pushes(ops),
        pushes(ops).len() == 0 <==> forall|k: int| 0 <= k < ops.len() ==> !(#[trigger] ops[k] is Push),
    decreases ops.len(),
{
    if ops.len() == 0 {
        assert(queue.standby + pushes(ops) =~= queue.standby);
    } else {
        let before = ops.drop_last();
        lemma_standby_collects(queue, before);
        assert(queue.replay(ops).standby =~= queue.standby + pushes(ops));
        if pushes(ops).len() == 0 {
            assert forall|k: int| 0 <= k < ops.len() implies !(#[trigger] ops[k] is Push) by {
                if k < before.len() {
                    assert(before[k] == ops[k]);
                }
            }
        }
        if forall|k: int| 0 <= k < ops.len() ==> !(#[trigger] ops[k] is Push) {
            assert forall|k: int| 0 <= k < before.len() implies !(#[trigger] before[k] is Push) by {
                assert(before[k] == ops[k]);
            }
            assert(!(ops[ops.len() - 1] is Push));
        }
    }
}

/// A pass is followed by an empty queue exactly when nothing was pushed
/// during it. Here `queue` is the queue at the start of the pass, `ops` the
/// steps taken during the pass, and `order` the order in which the `advance`
/// that ends the pass puts what was collected.
pub proof fn lemma_empty_after_pass(queue: NulosView, ops: Seq<QueueOp>, order: Seq<usize>)
    requires
        queue.starts_pass(),
        queue.stays_in_pass(ops),
        queue.replay(ops).ends_pass(),
        queue.replay(ops).reorders_standby(order),
    ensures
        queue.replay(ops).rotated(order).is_empty() <==> forall|k: int|
            0 <= k < ops.len() ==> !(#[trigger] ops[k] is Push),
        queue.replay(ops).rotated(order).active.to_multiset() == pushes(ops).to_multiset(),
{
    lemma_standby_collects(queue, ops);
    assert(queue.standby + pushes(ops) =~= pushes(ops));
    lemma_rearranged(order, pushes(ops));
}

/// What the steps have asked so far stays asked when one more step is taken.
proof fn lemma_presented_grows(queue: NulosView, ops: Seq<QueueOp>, index: usize)
    requires
        ops.len() > 0,
        queue.presented(ops.drop_last()).contains(index),
    ensures
        queue.presented(ops).contains(index),
{
    let before = queue.presented(ops.drop_last());
    let k = choose|k: int| 0 <= k < before.len() && before[k] == index;
    if queue.presented(ops) != before {
        let last = queue.replay(ops).current()->0;
        assert(before.push(last)[k] == index);
    }
}

/// What the steps have passed over so far stays so when one more step is
/// taken.
proof fn lemma_passed_over_grows(queue: NulosView, ops: Seq<QueueOp>, index: usize)
    requires
        ops.len() > 0,
        queue.passed_over(ops.drop_last()).contains(index),
    ensures
        queue.passed_over(ops).contains(index),
{
    let so_far = queue.passed_over(ops.drop_last());
    let k = choose|k: int| 0 <= k < so_far.len() && so_far[k] == index;
    if queue.passed_over(ops) != so_far {
        let under = queue.replay(ops.drop_last()).current()->0;
        assert(so_far.push(under)[k] == index);
    }
}

/// Where no removal overruns, nothing is passed over.
proof fn lemma_nothing_passed_over(queue: NulosView, ops: Seq<QueueOp>)
    requires
        queue.never_overruns(ops),
    ensures
        queue.passed_over(ops).len() == 0,
    decreases ops.len(),
{
    if ops.len() > 0 {
        lemma_nothing_passed_over(queue, ops.drop_last());
    }
}

/// During a pass, every index that stands before the place where the next
/// `advance` leads has been asked or passed over.
proof fn lemma_asked_before_cursor(queue: NulosView, ops: Seq<QueueOp>)
    requires
        queue.cursor == 0,
        !queue.deferred,
        queue.stays_in_pass(ops),
    ensures
        queue.replay(ops).wf(),
        forall|i: int|
            0 <= i < queue.replay(ops).next_cursor() && i < queue.replay(ops).active.len() ==> {
                ||| queue.presented(ops).contains(#[trigger] queue.replay(ops).active[i])
                ||| queue.passed_over(ops).contains(queue.replay(ops).active[i])
            },
    decreases ops.len(),
{
    let now = queue.replay(ops);
    if ops.len() == 0 {
        if queue.active.len() > 0 {
            assert(queue.presented(ops)[0] == queue.active[0]);
        }
    } else {
        let before = queue.replay(ops.drop_last());
        lemma_asked_before_cursor(queue, ops.drop_last());
        assert forall|i: int| 0 <= i < now.next_cursor() && i < now.active.len() implies {
            ||| queue.presented(ops).contains(#[trigger] now.active[i])
            ||| queue.passed_over(ops).contains(now.active[i])
        } by {
            let came_from = match ops.last() {
                QueueOp::Remove(value) => {
                    before.active.index_of_first_ensures(value);
                    match before.active.index_of_first(value) {
                        Some(at) if i >= at => i + 1,
                        _ => i,
                    }
                },
                _ => i,
            };
            assert(now.active[i] == before.active[came_from]);
            if came_from < before.next_cursor() {
                if queue.presented(ops.drop_last()).contains(now.active[i]) {
                    lemma_presented_grows(queue, ops, now.active[i]);
                } else {
                    lemma_passed_over_grows(queue, ops, now.active[i]);
                }
            } else if ops.last() is Advance {
                let asked = queue.presented(ops);
                assert(asked[asked.len() - 1] == now.active[i]);
            } else {
                let over = queue.passed_over(ops);
                assert(over[over.len() - 1] == now.active[i]);
            }
        }
        if let QueueOp::Remove(value) = ops.last() {
            before.active.index_of_first_ensures(value);
        }
    }
}

/// Only a removal that overruns makes the queue skip an index. Take a
/// queue at the start of a pass and any steps of that pass, in any order.
/// Once the next `advance` would end the pass, every index that is still in
/// the active buffer has been asked, or was passed over by such a removal.
pub proof fn lemma_only_overruns_skip(queue: NulosView, ops: Seq<QueueOp>)
    requires
        queue.cursor == 0,
        !queue.deferred,
        queue.stays_in_pass(ops),
        queue.replay(ops).ends_pass(),
    ensures
        forall|i: int|
            0 <= i < queue.replay(ops).active.len() ==> {
                ||| queue.presented(ops).contains(#[trigger] queue.replay(ops).active[i])
                ||| queue.passed_over(ops).contains(queue.replay(ops).active[i])
            },
{
    lemma_asked_before_cursor(queue, ops);
}

/// No index is skipped. Take a queue at the start of a pass and any steps
/// of that pass, in any order, none of them a removal that overruns. Once
/// the next `advance` would end the pass, every index that is still in the
/// active buffer has been asked.
pub proof fn lemma_no_index_skipped(queue: NulosView, ops: Seq<QueueOp>)
    requires
        queue.cursor == 0,
        !queue.deferred,
        queue.stays_in_pass(ops),
        queue.never_overruns(ops),
        queue.replay(ops).ends_pass(),
    ensures
        forall|i: int|
            0 <= i < queue.replay(ops).active.len() ==> queue.presented(ops).contains(
                #[trigger] queue.replay(ops).active[i],
            ),
{
    lemma_only_overruns_skip(queue, ops);
    lemma_nothing_passed_over(queue, ops);
}

/// An index stays in the active buffer as long as no step removes it.
proof fn lemma_unremoved_stays(queue: NulosView, ops: Seq<QueueOp>, index: usize)
    requires
        queue.active.contains(index),
        forall|k: int| 0 <= k < ops.len() ==> #[trigger] ops[k] != QueueOp::Remove(index),
    ensures
        queue.replay(ops).active.contains(index),
    decreases ops.len(),
{
    if ops.len() > 0 {
        let rest = ops.drop_last();
        assert forall|k: int| 0 <= k < rest.len() implies #[trigger] rest[k] != QueueOp::Remove(
            index,
        ) by {
            assert(rest[k] == ops[k]);
        }
        lemma_unremoved_stays(queue, rest, index);
        let before = queue.replay(rest);
        let now = queue.replay(ops);
        let k = choose|k: int| 0 <= k < before.active.len() && before.active[k] == index;
        assert(ops[ops.len() - 1] != QueueOp::Remove(index));
        match ops.last() {
            QueueOp::Remove(value) => {
                before.active.index_of_first_ensures(value);
                match before.active.index_of_first(value) {
                    Some(at) => {
                        if k < at {
                            assert(now.active[k] == index);
                        } else {
                            assert(now.active[k - 1] == index);
                        }
                    },
                    None => {},
                }
            },
            _ => {
                assert(now.active[k] == index);
            },
        }
    }
}

/// A missed index is asked again in the next pass. Here `queue` is the
/// queue at the start of a pass, `missed` the steps of that pass, among them
/// the push of `index`, and `order` the order in which the `advance` that
/// ends the pass puts what was collected. Whatever steps the next pass
/// takes, as long as none removes `index` and no removal overruns, `index`
/// has been asked by the time that pass is about to end. If it is missed
/// again it is pushed again, and the same holds of the pass after.
pub proof fn lemma_missed_index_asked_again(
    queue: NulosView,
    missed: Seq<QueueOp>,
    index: usize,
    order: Seq<usize>,
    ops: Seq<QueueOp>,
)
    requires
        exists|k: int| 0 <= k < missed.len() && missed[k] == QueueOp::Push(index),
        queue.replay(missed).ends_pass(),
        queue.replay(missed).reorders_standby(order),
        queue.replay(missed).rotated(order).stays_in_pass(ops),
        queue.replay(missed).rotated(order).never_overruns(ops),
        forall|k: int| 0 <= k < ops.len() ==> #[trigger] ops[k] != QueueOp::Remove(index),
        queue.replay(missed).rotated(order).replay(ops).ends_pass(),
    ensures
        queue.replay(missed).rotated(order).active.contains(index),
        queue.replay(missed).rotated(order).presented(ops).contains(index),
{
    let ended = queue.replay(missed);
    let next = ended.rotated(order);
    lemma_standby_collects(queue, missed);
    lemma_pushes_hold(missed, index);
    let at = choose|at: int| 0 <= at < pushes(missed).len() && pushes(missed)[at] == index;
    assert(ended.standby[queue.standby.len() + at] == index);
    assert(ended.standby.contains(index));
    lemma_rearranged(ended.standby, order);
    lemma_unremoved_stays(next, ops, index);
    lemma_no_index_skipped(next, ops);
}

/// An index that one of the steps pushes is among the indices pushed.
proof fn lemma_pushes_hold(ops: Seq<QueueOp>, index: usize)
    requires
        exists|k: int| 0 <= k < ops.len() && ops[k] == QueueOp::Push(index),
    ensures
        pushes(ops).contains(index),
    decreases ops.len(),
{
    let k = choose|k: int| 0 <= k < ops.len() && ops[k] == QueueOp::Push(index);
    let rest = ops.drop_last();
    if k == ops.len() - 1 {
        assert(pushes(ops)[pushes(ops).len() - 1] == index);
    } else {
        assert(rest[k] == QueueOp::Push(index));
        lemma_pushes_hold(rest, index);
        let at = choose|at: int| 0 <= at < pushes(rest).len() && pushes(rest)[at] == index;
        assert(pushes(ops)[at] == index);
    }
}

impl Failed {
    fn is_one(&self) -> (one: bool)
        ensures
            one == (self is One),
    {
        matches!(self, Failed::One)
    }

    fn switch(&mut self)
        ensures
            *final(self) is One <==> *old(self) is Two,
    {
        if self.is_one() {
            *self = Failed::Two
        } else {
            *self = Failed::One
        }
    }
}

impl View for Nulos {
    type V = NulosView;

    closed spec fn view(&self) -> NulosView {
        NulosView {
            active: if self.which_one is One {
                self.failed1@
            } else {
                self.failed2@
            },
            standby: if self.which_one is One {
                self.failed2@
            } else {
                self.failed1@
            },
            cursor: self.index as nat,
            deferred: self.cancel_advance,
        }
    }
}

impl Nulos {
    /// Unless the next `advance` is deferred, the cursor points into the
    /// active buffer, or stands at 0.
    pub open spec fn wf(&self) -> bool {
        self@.wf()
    }

    /// An empty queue.
    pub fn new() -> (queue: Self)
        ensures
            queue@ == (NulosView {
                active: Seq::empty(),
                standby: Seq::empty(),
                cursor: 0,
                deferred: false,
            }),
            queue.wf(),
    {
        Self {
            failed1: Vec::new(),
            failed2: Vec::new(),
            which_one: Failed::One,
            index: 0,
            cancel_advance: false,
        }
    }

    /// Whether both buffers are empty.
    pub fn is_empty(&self) -> (empty: bool)
        ensures
            empty == self@.is_empty(),
    {
        self.failed1.is_empty() && self.failed2.is_empty()
    }

    /// Puts each of the two buffers in a random order.
    pub fn shuffle(&mut self, rng: &mut StdRng)
        ensures
            final(self)@.active.to_multiset() == old(self)@.active.to_multiset(),
            final(self)@.standby.to_multiset() == old(self)@.standby.to_multiset(),
            final(self)@.cursor == old(self)@.cursor,
            final(self)@.deferred == old(self)@.deferred,
            old(self).wf() ==> final(self).wf(),
    {
        shuffle(&mut self.failed1, rng);
        shuffle(&mut self.failed2, rng);
        proof {
            lemma_rearranged(old(self)@.active, self@.active);
        }
    }

    /// Marks `value` for the next pass.
    pub fn push(&mut self, value: usize) -> (done: Option<()>)
        ensures
            final(self)@ == old(self)@.pushed(value),
            done is Some,
            old(self).wf() ==> final(self).wf(),
    {
        // The value goes to the buffer that is not walked through.
        if self.which_one.is_one() {
            self.failed2.push(value);
        } else {
            self.failed1.push(value);
        }
        Some(())
    }

    /// The index to ask now, if the cursor points at one.
    pub fn get(&self) -> (index: Option<usize>)
        ensures
            index == self@.current(),
    {
        let active = self.get_vec();
        if self.index < active.len() {
            Some(active[self.index])
        } else {
            None
        }
    }

    /// Moves on to the next index of the pass. After the last one the pass
    /// ends: what was collected meanwhile becomes the buffer to walk
    /// through, in a random order, and the cursor goes back to its start.
    pub fn advance(&mut self, rng: &mut StdRng)
        requires
            old(self).wf(),
        ensures
            final(self).wf(),
            old(self)@.advances_to(final(self)@),
    {
        let len = self.get_vec().len();
        if self.cancel_advance {
            self.cancel_advance = false;
        } else {
            self.index += 1;
        }
        if self.index >= len {
            *self.get_mut_vec() = Vec::new();
            self.which_one.switch();
            self.shuffle(rng);
            self.index = 0;
            proof {
                lemma_rearranged(self@.standby, Seq::<usize>::empty());
                assert(self@.standby =~= Seq::<usize>::empty());
            }
        }
    }

    /// Takes `value` out of the buffer that is walked through, once its
    /// card was answered. The answer tells whether it was there.
    pub fn remove_value(&mut self, value: usize) -> (done: Option<()>)
        ensures
            final(self)@ == old(self)@.removed(value),
            done is Some <==> old(self)@.active.contains(value),
            old(self).wf() ==> final(self).wf(),
    {
        let mut failed_len = self.get_vec().len();
        let mut index: usize = 0;
        while index < failed_len && self.get_vec()[index] != value
            invariant
                index <= failed_len,
                failed_len == self@.active.len(),
                *self == *old(self),
                forall|j: int| 0 <= j < index ==> self@.active[j] != value,
            decreases failed_len - index,
        {
            index += 1;
        }
        proof {
            self@.active.index_of_first_ensures(value);
            if index < failed_len {
                lemma_first_index(self@.active, value, index as int);
            }
        }
        if index < failed_len {
            self.get_mut_vec().remove(index);
            failed_len -= 1;
            if index <= self.index || self.index == failed_len {
                self.cancel_advance = true;
            }
            Some(())
        } else {
            None
        }
    }

    /// The buffer that is walked through.
    fn get_vec(&self) -> (active: &Vec<usize>)
        ensures
            active@ == self@.active,
    {
        if self.which_one.is_one() {
            &self.failed1
        } else {
            &self.failed2
        }
    }

    /// The buffer that is walked through, to change it.
    fn get_mut_vec(&mut self) -> (active: &mut Vec<usize>)
        ensures
            active@ == old(self)@.active,
            final(self)@ == (NulosView { active: final(active)@, ..old(self)@ }),
    {
        if self.which_one.is_one() {
            &mut self.failed1
        } else {
            &mut self.failed2
        }
    }
}

} // verus!
