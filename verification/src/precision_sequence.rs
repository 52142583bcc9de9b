//! Sequences with full precision timestamps and sizes.

use crate::load_sequence::{
    convert_to_sequence, convertible, spec_convert, times_in_range, AbstractQueryResponse,
    LoadSequenceConfig, Padding,
};
use crate::sequence::Sequence;
use vstd::prelude::*;

verus! {

/// One message of a [`PrecisionSequence`]; `time` counts nanoseconds since the Unix epoch.
#[derive(Copy, Clone, PartialEq, Eq, Structural, Debug)]
pub struct PrecisionSequenceEvent {
    pub time: i128,
    pub size: u32,
    pub is_dummy_event: bool,
}

impl PrecisionSequenceEvent {
    /// The event of a real (non-dummy) response.
    pub fn from_query_response(aqr: AbstractQueryResponse) -> (r: Self)
        ensures
            r == (PrecisionSequenceEvent { time: aqr.time, size: aqr.size, is_dummy_event: false }),
    {
        PrecisionSequenceEvent { time: aqr.time, size: aqr.size, is_dummy_event: false }
    }

    /// Time and size of the event.
    pub fn to_query_response(&self) -> (r: AbstractQueryResponse)
        ensures
            r == (AbstractQueryResponse { time: self.time, size: self.size }),
    {
        AbstractQueryResponse { time: self.time, size: self.size }
    }
}

/// Like a [`Sequence`], but with exact timestamps and sizes.
pub struct PrecisionSequence {
    events: Vec<PrecisionSequenceEvent>,
    identifier: String,
}

/// Time and size of each event.
pub open spec fn as_query_responses(events: Seq<PrecisionSequenceEvent>) -> Seq<AbstractQueryResponse> {
    events.map_values(|e: PrecisionSequenceEvent| AbstractQueryResponse { time: e.time, size: e.size })
}

/// The events that are not dummies.
pub open spec fn real_events(events: Seq<PrecisionSequenceEvent>) -> Seq<PrecisionSequenceEvent> {
    events.filter(|e: PrecisionSequenceEvent| !e.is_dummy_event)
}

/// Time from the first to the last real event.
pub open spec fn spec_duration(events: Seq<PrecisionSequenceEvent>) -> int {
    let r = real_events(events);
    r.last().time - r[0].time
}

/// The overhead of the events `a` against `b`: the smaller query count, the difference of the
/// query counts, the smaller duration and the difference of the durations.
pub open spec fn overhead_of(a: Seq<PrecisionSequenceEvent>, b: Seq<PrecisionSequenceEvent>) -> (int, int, int, int) {
    (
        vstd::math::min(a.len() as int, b.len() as int),
        vstd::math::abs(a.len() - b.len()) as int,
        vstd::math::min(spec_duration(a), spec_duration(b)),
        vstd::math::abs(spec_duration(a) - spec_duration(b)) as int,
    )
}

/// The overhead of one sequence against another is that of the other against the first.
pub proof fn lemma_overhead_symmetric(a: Seq<PrecisionSequenceEvent>, b: Seq<PrecisionSequenceEvent>)
    ensures
        overhead_of(a, b) == overhead_of(b, a),
{
}

/// Resource use of one sequence compared to another.
#[derive(Copy, Clone, PartialEq, Eq, Structural, Debug)]
pub struct Overhead {
    /// The smaller of the two query counts.
    pub queries_baseline: isize,
    /// The difference of the query counts.
    pub queries: isize,
    /// The smaller of the two durations, in nanoseconds.
    pub time_baseline: i128,
    /// The difference of the durations, in nanoseconds.
    pub time: i128,
}

impl Overhead {
    pub fn new() -> (r: Self)
        ensures
            r == (Overhead { queries_baseline: 0, queries: 0, time_baseline: 0, time: 0 }),
    {
        Overhead { queries_baseline: 0, queries: 0, time_baseline: 0, time: 0 }
    }

    /// Component-wise sum of two overheads.
    pub fn add(self, other: Self) -> (r: Self)
        requires
            isize::MIN <= self.queries_baseline + other.queries_baseline <= isize::MAX,
            isize::MIN <= self.queries + other.queries <= isize::MAX,
            i128::MIN <= self.time_baseline + other.time_baseline <= i128::MAX,
            i128::MIN <= self.time + other.time <= i128::MAX,
        ensures
            r.queries_baseline == self.queries_baseline + other.queries_baseline,
            r.queries == self.queries + other.queries,
            r.time_baseline == self.time_baseline + other.time_baseline,
            r.time == self.time + other.time,
    {
        Overhead {
            queries_baseline: self.queries_baseline + other.queries_baseline,
            queries: self.queries + other.queries,
            time_baseline: self.time_baseline + other.time_baseline,
            time: self.time + other.time,
        }
    }
}

impl PrecisionSequence {
    pub closed spec fn events(&self) -> Seq<PrecisionSequenceEvent> {
        self.events@
    }

    pub closed spec fn identifier(&self) -> Seq<char> {
        self.identifier@
    }

    /// Whether the sequence has a real event, so that its duration is defined.
    pub open spec fn has_real_event(&self) -> bool {
        real_events(self.events()).len() > 0
    }

    /// A sequence of the given events; there must be at least one.
    pub fn new(events: Vec<PrecisionSequenceEvent>, identifier: String) -> (r: Self)
        requires
            events@.len() > 0,
        ensures
            r.events() == events@,
            r.identifier() == identifier@,
    {
        PrecisionSequence { events, identifier }
    }

    /// The identifier, normally the file name.
    pub fn id(&self) -> (r: &str)
        ensures
            r@ == self.identifier(),
    {
        self.identifier.as_str()
    }

    /// The events in order.
    pub fn as_events(&self) -> (r: &[PrecisionSequenceEvent])
        ensures
            r@ == self.events(),
    {
        self.events.as_slice()
    }

    /// The number of events, dummies included.
    pub fn count_queries(&self) -> (r: usize)
        ensures
            r == self.events().len(),
    {
        self.events.len()
    }

    /// The coarse [`Sequence`] of the same events, built with the default configuration.
    pub fn to_sequence(&self) -> (r: Sequence)
        requires
            self.events().len() > 0,
            convertible(as_query_responses(self.events())),
            times_in_range(as_query_responses(self.events())),
        ensures
            r.elements() == spec_convert(as_query_responses(self.events()), LoadSequenceConfig::spec_default()),
            r.identifier() == self.identifier(),
    {
        let mut data: Vec<AbstractQueryResponse> = Vec::new();
        let mut i: usize = 0;
        while i < self.events.len()
            invariant
                i <= self.events@.len(),
                data@ == as_query_responses(self.events@.take(i as int)),
            decreases self.events@.len() - i,
        {
            data.push(self.events[i].to_query_response());
            i = i + 1;
            assert(data@ =~= as_query_responses(self.events@.take(i as int)));
        }
        assert(self.events@.take(self.events@.len() as int) =~= self.events@);
        let config = LoadSequenceConfig::default();
        proof {
            lemma_convert_nonempty(data@, config);
        }
        match convert_to_sequence(data.as_slice(), self.identifier.clone(), config) {
            Some(s) => s,
            None => {
                assert(false);
                Sequence::new(Vec::new(), self.identifier.clone())
            },
        }
    }

    /// Time from the first to the last real event.
    pub fn duration(&self) -> (r: i128)
        requires
            self.has_real_event(),
            i128::MIN <= spec_duration(self.events()) <= i128::MAX,
        ensures
            r == spec_duration(self.events()),
    {
        let ghost ev = self.events@;
        let n = self.events.len();
        let mut first: Option<i128> = None;
        let mut last: i128 = 0;
        let mut i: usize = 0;
        while i < n
            invariant
                i <= n,
                n == ev.len(),
                ev == self.events@,
                first is None <==> real_events(ev.take(i as int)).len() == 0,
                first matches Some(f) ==> f == real_events(ev.take(i as int))[0].time && last
                    == real_events(ev.take(i as int)).last().time,
            decreases n - i,
        {
            proof {
                lemma_filter_push(ev.take(i as int), ev[i as int]);
                assert(ev.take(i + 1) =~= ev.take(i as int).push(ev[i as int]));
            }
            let e = self.events[i];
            if !e.is_dummy_event {
                if first.is_none() {
                    first = Some(e.time);
                }
                last = e.time;
            }
            i = i + 1;
        }
        assert(ev.take(n as int) =~= ev);
        match first {
            Some(f) => last - f,
            None => 0,
        }
    }

    /// How many queries and how much time `self` spends beyond `other`, and the baseline.
    pub fn overhead(&self, other: &Self) -> (r: Overhead)
        requires
            self.has_real_event(),
            other.has_real_event(),
            i128::MIN <= spec_duration(self.events()) <= i128::MAX,
            i128::MIN <= spec_duration(other.events()) <= i128::MAX,
            i128::MIN <= spec_duration(self.events()) - spec_duration(other.events()) <= i128::MAX,
            i128::MIN <= spec_duration(other.events()) - spec_duration(self.events()) <= i128::MAX,
            self.events().len() <= isize::MAX,
            other.events().len() <= isize::MAX,
        ensures
            r.queries_baseline == vstd::math::min(self.events().len() as int, other.events().len() as int),
            r.queries == vstd::math::abs(self.events().len() - other.events().len()),
            r.time_baseline == vstd::math::min(spec_duration(self.events()), spec_duration(other.events())),
            r.time == vstd::math::abs(spec_duration(self.events()) - spec_duration(other.events())),
            (r.queries_baseline as int, r.queries as int, r.time_baseline as int, r.time as int)
                == overhead_of(self.events(), other.events()),
    {
        let a = self.count_queries() as isize;
        let b = other.count_queries() as isize;
        let queries_baseline = if a < b { a } else { b };
        let queries = if a >= b { a - b } else { b - a };
        let da = self.duration();
        let db = other.duration();
        let time_baseline = if da < db { da } else { db };
        let time = if da >= db { da - db } else { db - da };
        Overhead { queries_baseline, queries, time_baseline, time }
    }
}

impl LoadSequenceConfig {
    pub open spec fn spec_default() -> LoadSequenceConfig {
        LoadSequenceConfig {
            padding: Padding::Q128R468,
            gap_mode: crate::load_sequence::GapMode::Log2,
            simulated_countermeasure: crate::load_sequence::SimulatedCountermeasure::NoCountermeasure,
        }
    }
}

/// Converting a non-empty list without countermeasure gives a non-empty sequence.
proof fn lemma_convert_nonempty(data: Seq<AbstractQueryResponse>, config: LoadSequenceConfig)
    requires
        data.len() > 0,
        config.simulated_countermeasure == crate::load_sequence::SimulatedCountermeasure::NoCountermeasure,
    ensures
        spec_convert(data, config).len() > 0,
{
}

proof fn lemma_filter_push(s: Seq<PrecisionSequenceEvent>, e: PrecisionSequenceEvent)
    ensures
        real_events(s.push(e)) == if e.is_dummy_event {
            real_events(s)
        } else {
            real_events(s).push(e)
        },
{
    reveal(Seq::filter);
    assert(s.push(e).drop_last() =~= s);
}

/// Builds a [`PrecisionSequence`] from responses; `None` if there are none.
pub fn convert_to_precision_sequence(data: &[AbstractQueryResponse], identifier: String) -> (r:
    Option<PrecisionSequence>)
    ensures
        data@.len() == 0 <==> r is None,
        r matches Some(s) ==> s.identifier() == identifier@ && s.events() == data@.map_values(
            |aqr: AbstractQueryResponse|
                PrecisionSequenceEvent { time: aqr.time, size: aqr.size, is_dummy_event: false },
        ),
{
    if data.len() == 0 {
        return None;
    }
    let mut events: Vec<PrecisionSequenceEvent> = Vec::new();
    let mut i: usize = 0;
    while i < data.len()
        invariant
            i <= data@.len(),
            events@ == data@.take(i as int).map_values(
                |aqr: AbstractQueryResponse|
                    PrecisionSequenceEvent { time: aqr.time, size: aqr.size, is_dummy_event: false },
            ),
        decreases data@.len() - i,
    {
        events.push(PrecisionSequenceEvent::from_query_response(data[i]));
        i = i + 1;
        assert(events@ =~= data@.take(i as int).map_values(
            |aqr: AbstractQueryResponse|
                PrecisionSequenceEvent { time: aqr.time, size: aqr.size, is_dummy_event: false },
        ));
    }
    assert(data@.take(data@.len() as int) =~= data@);
    Some(PrecisionSequence::new(events, identifier))
}

} // verus!
