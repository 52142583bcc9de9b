//! Simulation of the constant-rate countermeasure on a [`PrecisionSequence`].
//!
//! Messages go out at a fixed rate. When no message is due, a dummy message is sent instead,
//! and after each dummy the caller decides (at random) whether padding goes on. A message that
//! arrives while padding is off goes out at once, and starts padding again.

use crate::precision_sequence::{PrecisionSequence, PrecisionSequenceEvent};
use vstd::prelude::*;

verus! {

/// Size of a dummy message.
pub const DUMMY_SIZE: u32 = 128;

/// A dummy message sent at time `t`.
pub open spec fn dummy_at(t: i128) -> PrecisionSequenceEvent {
    PrecisionSequenceEvent { time: t, size: DUMMY_SIZE, is_dummy_event: true }
}

/// What one step of the schedule did.
#[derive(Copy, Clone, PartialEq, Eq, Structural, Debug)]
pub enum ScheduleStep {
    /// The next message of the input went out.
    Real,
    /// A dummy message went out; the caller now decides whether padding goes on.
    Dummy,
    /// All messages went out and padding stopped.
    Done,
}

/// How many entries of `origins` stand for input messages (are not `-1`).
pub open spec fn kept_count(origins: Seq<int>) -> nat
    decreases origins.len(),
{
    if origins.len() == 0 {
        0
    } else {
        kept_count(origins.drop_last()) + if origins.last() >= 0 {
            1nat
        } else {
            0nat
        }
    }
}

/// Each output message is a dummy (origin `-1`) or the input message with its origin as index,
/// sent no earlier than that message's own time; the input messages come in their order.
pub open spec fn keeps_inputs(
    input: Seq<PrecisionSequenceEvent>,
    output: Seq<PrecisionSequenceEvent>,
    origins: Seq<int>,
    sent: nat,
) -> bool {
    &&& origins.len() == output.len()
    &&& kept_count(origins) == sent
    &&& forall|j: int|
        0 <= j < output.len() ==> {
            let o = #[trigger] origins[j];
            &&& o == -1 || (0 <= o < sent && o < input.len())
            &&& o == -1 ==> output[j] == dummy_at(output[j].time)
            &&& o >= 0 ==> {
                &&& output[j].size == input[o].size
                &&& output[j].is_dummy_event == input[o].is_dummy_event
                &&& output[j].time >= input[o].time
                &&& o == kept_count(origins.take(j))
            }
        }
}

/// Consecutive output messages are at least `rate` apart.
pub open spec fn spaced(output: Seq<PrecisionSequenceEvent>, rate: i128) -> bool {
    forall|j: int| 0 < j < output.len() ==> #[trigger] output[j].time >= output[j - 1].time + rate
}

/// A dummy goes out exactly `rate` after the message before it, and never first.
pub open spec fn dummies_on_schedule(output: Seq<PrecisionSequenceEvent>, origins: Seq<int>, rate: i128) -> bool {
    forall|j: int|
        0 <= j < output.len() && #[trigger] origins[j] == -1 ==> j > 0 && output[j].time
            == output[j - 1].time + rate
}

/// The constant-rate schedule of one sequence.
pub struct ConstantRateSchedule {
    input: Vec<PrecisionSequenceEvent>,
    identifier: String,
    rate: i128,
    /// Input messages sent so far.
    pos: usize,
    /// When the next message is due.
    next: i128,
    /// Whether padding is on.
    need_more: bool,
    /// Whether a dummy went out and the caller has not decided yet.
    awaiting: bool,
    output: Vec<PrecisionSequenceEvent>,
    origins: Ghost<Seq<int>>,
}

impl ConstantRateSchedule {
    pub closed spec fn input(&self) -> Seq<PrecisionSequenceEvent> {
        self.input@
    }

    pub closed spec fn identifier(&self) -> Seq<char> {
        self.identifier@
    }

    pub closed spec fn rate(&self) -> i128 {
        self.rate
    }

    pub closed spec fn pos(&self) -> nat {
        self.pos as nat
    }

    pub closed spec fn next(&self) -> i128 {
        self.next
    }

    pub closed spec fn need_more(&self) -> bool {
        self.need_more
    }

    pub closed spec fn awaiting(&self) -> bool {
        self.awaiting
    }

    pub closed spec fn output(&self) -> Seq<PrecisionSequenceEvent> {
        self.output@
    }

    /// For each output message, the index of the input message it is, or `-1` for a dummy.
    pub closed spec fn origins(&self) -> Seq<int> {
        self.origins@
    }

    pub open spec fn wf(&self) -> bool {
        &&& self.input().len() > 0
        &&& self.pos() <= self.input().len()
        &&& keeps_inputs(self.input(), self.output(), self.origins(), self.pos())
        &&& spaced(self.output(), self.rate())
        &&& dummies_on_schedule(self.output(), self.origins(), self.rate())
        &&& self.output().len() == 0 ==> self.pos() == 0 && self.need_more() && !self.awaiting()
            && self.next() == self.input()[0].time
        &&& self.output().len() > 0 ==> self.next() == self.output().last().time + self.rate()
        &&& self.awaiting() ==> self.need_more()
    }

    /// Whether the next step sends the next input message.
    pub open spec fn sends_real(&self) -> bool {
        &&& !self.awaiting()
        &&& self.pos() < self.input().len()
        &&& (!self.need_more() || self.input()[self.pos() as int].time <= self.next())
    }

    /// Whether the next step sends a dummy.
    pub open spec fn sends_dummy(&self) -> bool {
        &&& !self.awaiting()
        &&& self.need_more()
        &&& !(self.pos() < self.input().len() && self.input()[self.pos() as int].time <= self.next())
    }

    /// Whether all messages went out and padding stopped.
    pub open spec fn is_done(&self) -> bool {
        !self.awaiting() && !self.need_more() && self.pos() == self.input().len()
    }

    /// The time at which the next input message goes out, if it goes out in the next step.
    pub open spec fn send_time(&self) -> i128 {
        let t = self.input()[self.pos() as int].time;
        if t > self.next() { t } else { self.next() }
    }

    /// Whether the times of the next step fit into an `i128`.
    pub open spec fn step_fits(&self) -> bool {
        &&& i128::MIN <= self.next() + self.rate() <= i128::MAX
        &&& self.pos() < self.input().len() ==> i128::MIN <= self.send_time() + self.rate()
            <= i128::MAX
    }

    /// The schedule of the messages `events`, sent at `rate` nanoseconds apart.
    pub fn new(events: &PrecisionSequence, rate: i128) -> (r: Self)
        requires
            events.events().len() > 0,
        ensures
            r.wf(),
            r.input() == events.events(),
            r.identifier() == events.identifier(),
            r.rate() == rate,
            r.output().len() == 0,
    {
        let evs = events.as_events();
        let mut input: Vec<PrecisionSequenceEvent> = Vec::new();
        let mut i: usize = 0;
        while i < evs.len()
            invariant
                i <= evs@.len(),
                input@ == evs@.take(i as int),
            decreases evs@.len() - i,
        {
            input.push(evs[i]);
            i = i + 1;
            assert(input@ =~= evs@.take(i as int));
        }
        assert(input@ =~= evs@);
        let next = input[0].time;
        let r = ConstantRateSchedule {
            input,
            identifier: events.id().to_string(),
            rate,
            pos: 0,
            next,
            need_more: true,
            awaiting: false,
            output: Vec::new(),
            origins: Ghost(Seq::empty()),
        };
        assert(r.origins() =~= Seq::<int>::empty());
        r
    }

    /// Whether padding is waiting for the caller's decision.
    pub fn is_awaiting_decision(&self) -> (r: bool)
        ensures
            r == self.awaiting(),
    {
        self.awaiting
    }

    /// Whether the times of the next step fit (see [`Self::step_fits`]).
    pub fn can_step(&self) -> (r: bool)
        requires
            self.wf(),
        ensures
            r == self.step_fits(),
    {
        let fits_next = if self.rate >= 0 {
            self.next <= i128::MAX - self.rate
        } else {
            self.next >= i128::MIN - self.rate
        };
        if !fits_next {
            return false;
        }
        if self.pos < self.input.len() {
            let t = self.input[self.pos].time;
            let s = if t > self.next { t } else { self.next };
            if self.rate >= 0 {
                s <= i128::MAX - self.rate
            } else {
                s >= i128::MIN - self.rate
            }
        } else {
            true
        }
    }

    /// Sends the next message: the next input message when it is due or padding is off, a
    /// dummy when padding is on and no message is due; nothing when all is sent and padding
    /// is off.
    pub fn step(&mut self) -> (r: ScheduleStep)
        requires
            old(self).wf(),
            !old(self).awaiting(),
            old(self).step_fits(),
        ensures
            final(self).wf(),
            final(self).input() == old(self).input(),
            final(self).identifier() == old(self).identifier(),
            final(self).rate() == old(self).rate(),
            old(self).sends_real() ==> {
                let e = old(self).input()[old(self).pos() as int];
                let t = old(self).send_time();
                &&& r == ScheduleStep::Real
                &&& final(self).output() == old(self).output().push(
                    PrecisionSequenceEvent { time: t, size: e.size, is_dummy_event: e.is_dummy_event },
                )
                &&& final(self).pos() == old(self).pos() + 1
                &&& final(self).next() == t + old(self).rate()
                &&& final(self).need_more()
                &&& !final(self).awaiting()
            },
            old(self).sends_dummy() ==> {
                &&& r == ScheduleStep::Dummy
                &&& final(self).output() == old(self).output().push(dummy_at(old(self).next()))
                &&& final(self).pos() == old(self).pos()
                &&& final(self).next() == old(self).next() + old(self).rate()
                &&& final(self).awaiting()
            },
            old(self).is_done() ==> r == ScheduleStep::Done && *final(self) == *old(self),
    {
        let ghost o = self.origins@;
        let ghost out = self.output@;
        if self.pos < self.input.len() && (!self.need_more || self.input[self.pos].time <= self.next) {
            let e = self.input[self.pos];
            let t = if e.time > self.next { e.time } else { self.next };
            let ev = PrecisionSequenceEvent { time: t, size: e.size, is_dummy_event: e.is_dummy_event };
            self.output.push(ev);
            self.origins = Ghost(o.push(self.pos as int));
            proof {
                assert(self.origins@.drop_last() =~= o);
                assert forall|j: int| 0 <= j < o.len() implies #[trigger] self.origins@.take(j) =~= o.take(j) by {}
                assert(self.origins@.take(o.len() as int) =~= o);
            }
            self.pos = self.pos + 1;
            self.next = t + self.rate;
            self.need_more = true;
            ScheduleStep::Real
        } else if self.need_more {
            let d = PrecisionSequenceEvent { time: self.next, size: DUMMY_SIZE, is_dummy_event: true };
            self.output.push(d);
            self.origins = Ghost(o.push(-1));
            proof {
                assert(self.origins@.drop_last() =~= o);
                assert forall|j: int| 0 <= j < o.len() implies #[trigger] self.origins@.take(j) =~= o.take(j) by {}
            }
            self.next = self.next + self.rate;
            self.awaiting = true;
            ScheduleStep::Dummy
        } else {
            ScheduleStep::Done
        }
    }

    /// Records the caller's decision after a dummy: whether padding goes on.
    pub fn decide(&mut self, keep_padding: bool)
        requires
            old(self).wf(),
            old(self).awaiting(),
        ensures
            final(self).wf(),
            final(self).need_more() == keep_padding,
            !final(self).awaiting(),
            final(self).input() == old(self).input(),
            final(self).identifier() == old(self).identifier(),
            final(self).rate() == old(self).rate(),
            final(self).pos() == old(self).pos(),
            final(self).next() == old(self).next(),
            final(self).output() == old(self).output(),
            final(self).origins() == old(self).origins(),
    {
        self.need_more = keep_padding;
        self.awaiting = false;
    }

    /// The padded sequence, once all messages went out and padding stopped.
    pub fn finish(self) -> (r: PrecisionSequence)
        requires
            self.wf(),
            self.is_done(),
        ensures
            r.events() == self.output(),
            r.identifier() == self.identifier(),
    {
        proof {
            lemma_kept_count_bound(self.origins@);
        }
        PrecisionSequence::new(self.output, self.identifier)
    }
}

/// When the schedule is done, every input message went out exactly once, in order, with its
/// size, and no earlier than its own time; every other message is a dummy of [`DUMMY_SIZE`]
/// bytes sent exactly `rate` after the message before it; and messages are at least `rate`
/// apart.
pub proof fn lemma_done_schedule(s: &ConstantRateSchedule)
    requires
        s.wf(),
        s.is_done(),
    ensures
        keeps_inputs(s.input(), s.output(), s.origins(), s.input().len()),
        dummies_on_schedule(s.output(), s.origins(), s.rate()),
        spaced(s.output(), s.rate()),
        s.output().len() >= s.input().len(),
{
    lemma_kept_count_bound(s.origins());
}

proof fn lemma_kept_count_bound(o: Seq<int>)
    ensures
        kept_count(o) <= o.len(),
    decreases o.len(),
{
    if o.len() > 0 {
        lemma_kept_count_bound(o.drop_last());
    }
}

} // verus!
