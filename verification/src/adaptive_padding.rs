//! Adaptive padding: a state machine that fills the gaps between messages with dummies whose
//! timing follows a measured distribution of gaps.
//!
//! The machine is idle, in a burst, or in a gap. Each mode draws the time to the next dummy
//! from its token buckets: a bucket is a gap with a number of tokens, and drawing takes a token.
//! A last bucket of "infinite" gap ends the mode. Real messages put back the token of the
//! expected gap and take one for the gap that really passed.
//!
//! The draws themselves are random, and two quantities come from floating-point arithmetic, so
//! the caller supplies them when [`AdaptivePadding::need`] asks: the index of the bucket drawn
//! (weighted by the tokens), the gap drawn within a bucket, and the tokens of the burst mode's
//! infinite bucket.

use vstd::prelude::*;

verus! {

/// The "infinite" gap, in nanoseconds: a year.
pub const DURATION_MAX: i128 = 31_536_000_000_000_000;

/// Gaps below a millisecond (in nanoseconds) belong to the gap mode, longer ones to the burst
/// mode.
pub const DURATION_ONE_MS: i128 = 1_000_000;

/// Times are taken within this bound (in nanoseconds), so that their sums fit.
pub const TIME_BOUND: i128 = 0x10_0000_0000_0000_0000_0000_0000;

/// Gaps supplied by the caller are taken within this bound (in nanoseconds).
pub const GAP_BOUND: i128 = 0x400_0000_0000_0000_0000_0000;

/// The measured buckets: gap in nanoseconds (√2 to the power of the bucket number, in whole
/// microseconds) and tokens.
pub open spec fn spec_distribution() -> Seq<(i128, u16)> {
    seq![
        (1000, 0), (1000, 0), (2000, 0), (2000, 0), (4000, 0), (5000, 0), (8000, 0), (11000, 0),
        (16000, 0), (22000, 0), (32000, 0), (45000, 11), (64000, 48), (90000, 41), (128000, 28),
        (181000, 15), (256000, 15), (362000, 14), (512000, 12), (724000, 11), (1024000, 12),
        (1448000, 15), (2048000, 20), (2896000, 23), (4096000, 24), (5792000, 36), (8192000, 24),
        (11585000, 22), (16384000, 22), (23170000, 116), (32768000, 20), (46340000, 23),
        (65536000, 101), (92681000, 104), (131072000, 29), (185363000, 41), (262144000, 39),
        (370727000, 43), (524288000, 31), (741455000, 25), (1048576000, 16), (1482910000, 10),
        (2097152000, 6), (2965820000, 2), (4194304000, 1),
    ]
}

/// The measured buckets of the gap mode: those shorter than a millisecond, the first 20.
pub open spec fn intra_base() -> Seq<(i128, u16)> {
    spec_distribution().take(20)
}

/// The measured buckets of the burst mode: those of at least a millisecond, from the 21st on.
pub open spec fn inter_base() -> Seq<(i128, u16)> {
    spec_distribution().skip(20)
}

/// Token counts add up modulo 2^16.
pub open spec fn add16(a: u16, b: u16) -> u16 {
    ((a as int + b as int) % 65536) as u16
}

/// The buckets `d` refilled with the measured tokens `base`: a fresh set (with an infinite
/// bucket of no tokens) when `d` is empty, else the tokens of `base` added bucket by bucket.
pub open spec fn refilled(d: Seq<(i128, u16)>, base: Seq<(i128, u16)>) -> Seq<(i128, u16)> {
    if d.len() == 0 {
        base.push((DURATION_MAX, 0u16))
    } else {
        Seq::new(
            d.len(),
            |i: int|
                if i < base.len() {
                    (d[i].0, add16(d[i].1, base[i].1))
                } else {
                    d[i]
                },
        )
    }
}

/// The tokens of the buckets that are not infinite.
pub open spec fn other_tokens(d: Seq<(i128, u16)>) -> int
    decreases d.len(),
{
    if d.len() == 0 {
        0
    } else {
        other_tokens(d.drop_last()) + if d.last().0 != DURATION_MAX {
            d.last().1 as int
        } else {
            0int
        }
    }
}

/// The buckets with the last one's tokens set to `kn`.
pub open spec fn with_last_count(d: Seq<(i128, u16)>, kn: u16) -> Seq<(i128, u16)> {
    d.update(d.len() - 1, (d.last().0, kn))
}

/// The tokens of the gap mode's infinite bucket: `(other + µ + 1) / (µ - 1)` rounded to the
/// nearest integer (halves up), at most 65535, for `other` other tokens and the median burst
/// length µ.
pub open spec fn intra_tokens(other: int, median_burst_length: u32) -> u16 {
    let a = other + median_burst_length + 1;
    let b = median_burst_length - 1;
    let q = (2 * a + b) / (2 * b);
    if q > 65535 {
        65535u16
    } else {
        q as u16
    }
}

/// The gap mode's buckets refilled, with the infinite bucket's tokens from the median burst
/// length.
pub open spec fn refilled_intra(d: Seq<(i128, u16)>, median_burst_length: u32) -> Seq<(i128, u16)> {
    let r = refilled(d, intra_base());
    with_last_count(r, intra_tokens(other_tokens(r), median_burst_length))
}

/// The first bucket from `i` on whose doubled gap exceeds `duration`.
pub open spec fn first_long_from(d: Seq<(i128, u16)>, duration: i128, i: int) -> Option<int>
    decreases d.len() - i,
{
    if i < 0 || i >= d.len() {
        None
    } else if d[i].0 + d[i].0 > duration {
        Some(i)
    } else {
        first_long_from(d, duration, i + 1)
    }
}

/// The first bucket from `i` on with a gap of at least `duration` and a token.
pub open spec fn first_available_from(d: Seq<(i128, u16)>, duration: i128, i: int) -> Option<int>
    decreases d.len() - i,
{
    if i < 0 || i >= d.len() {
        None
    } else if d[i].0 >= duration && d[i].1 > 0 {
        Some(i)
    } else {
        first_available_from(d, duration, i + 1)
    }
}

/// A token put back into the first bucket whose doubled gap exceeds `duration`, if any.
pub open spec fn put_back(d: Seq<(i128, u16)>, duration: i128) -> Seq<(i128, u16)> {
    match first_long_from(d, duration, 0) {
        Some(i) => d.update(i, (d[i].0, add16(d[i].1, 1))),
        None => d,
    }
}

/// A token taken from bucket `i`.
pub open spec fn take_token(d: Seq<(i128, u16)>, i: int) -> Seq<(i128, u16)> {
    d.update(i, (d[i].0, (d[i].1 - 1) as u16))
}

/// A token taken from the first bucket with a gap of at least `duration` and a token, if any.
pub open spec fn remove_token(d: Seq<(i128, u16)>, duration: i128) -> Seq<(i128, u16)> {
    match first_available_from(d, duration, 0) {
        Some(i) => take_token(d, i),
        None => d,
    }
}

/// Whether no bucket has a token.
pub open spec fn all_zero(d: Seq<(i128, u16)>) -> bool {
    forall|i: int| 0 <= i < d.len() ==> (#[trigger] d[i]).1 == 0
}

/// The gaps of the buckets.
pub open spec fn gaps_of(d: Seq<(i128, u16)>) -> Seq<i128> {
    d.map_values(|e: (i128, u16)| e.0)
}

/// The measured buckets.
fn distribution() -> (r: Vec<(i128, u16)>)
    ensures
        r@ == spec_distribution(),
{
    let r = vec![
        (1000, 0), (1000, 0), (2000, 0), (2000, 0), (4000, 0), (5000, 0), (8000, 0), (11000, 0),
        (16000, 0), (22000, 0), (32000, 0), (45000, 11), (64000, 48), (90000, 41), (128000, 28),
        (181000, 15), (256000, 15), (362000, 14), (512000, 12), (724000, 11), (1024000, 12),
        (1448000, 15), (2048000, 20), (2896000, 23), (4096000, 24), (5792000, 36), (8192000, 24),
        (11585000, 22), (16384000, 22), (23170000, 116), (32768000, 20), (46340000, 23),
        (65536000, 101), (92681000, 104), (131072000, 29), (185363000, 41), (262144000, 39),
        (370727000, 43), (524288000, 31), (741455000, 25), (1048576000, 16), (1482910000, 10),
        (2097152000, 6), (2965820000, 2), (4194304000, 1),
    ];
    assert(r@ =~= spec_distribution());
    r
}

/// The measured buckets from `from` to `to`.
fn distribution_part(from: usize, to: usize) -> (r: Vec<(i128, u16)>)
    requires
        from <= to <= 45,
    ensures
        r@ == spec_distribution().subrange(from as int, to as int),
{
    let all = distribution();
    let mut r: Vec<(i128, u16)> = Vec::new();
    let mut i = from;
    while i < to
        invariant
            from <= i <= to,
            to <= 45,
            all@ == spec_distribution(),
            r@ == spec_distribution().subrange(from as int, i as int),
        decreases to - i,
    {
        r.push(all[i]);
        i = i + 1;
        assert(r@ =~= spec_distribution().subrange(from as int, i as int));
    }
    r
}

/// Adds the measured tokens `base` to the buckets (see [`refilled`]).
fn merge_base(d: &mut Vec<(i128, u16)>, base: &Vec<(i128, u16)>)
    ensures
        final(d)@ == refilled(old(d)@, base@),
{
    if d.len() == 0 {
        let mut i: usize = 0;
        while i < base.len()
            invariant
                i <= base@.len(),
                d@ == base@.take(i as int),
            decreases base@.len() - i,
        {
            d.push(base[i]);
            i = i + 1;
            assert(d@ =~= base@.take(i as int));
        }
        d.push((DURATION_MAX, 0u16));
        assert(d@ =~= refilled(old(d)@, base@));
    } else {
        let ghost start = d@;
        let mut i: usize = 0;
        while i < d.len() && i < base.len()
            invariant
                i <= d@.len(),
                d@.len() == start.len(),
                start.len() > 0,
                forall|j: int| 0 <= j < i ==> #[trigger] d@[j] == refilled(start, base@)[j],
                forall|j: int| i <= j < d@.len() ==> #[trigger] d@[j] == start[j],
            decreases d@.len() - i,
        {
            let (gap, count) = d[i];
            let added: u16 = ((count as u32 + base[i].1 as u32) % 65536) as u16;
            d.set(i, (gap, added));
            i = i + 1;
        }
        assert(d@ =~= refilled(start, base@));
    }
}

proof fn lemma_other_tokens_take(d: Seq<(i128, u16)>, i: int)
    requires
        0 <= i < d.len(),
    ensures
        other_tokens(d.take(i + 1)) == other_tokens(d.take(i)) + if d[i].0 != DURATION_MAX {
            d[i].1 as int
        } else {
            0int
        },
        0 <= other_tokens(d.take(i)) <= 65535 * i,
    decreases i,
{
    assert(d.take(i + 1).drop_last() =~= d.take(i));
    if i > 0 {
        lemma_other_tokens_take(d, i - 1);
    } else {
        assert(d.take(0) =~= Seq::<(i128, u16)>::empty());
    }
}

/// The tokens of the buckets that are not infinite (see [`other_tokens`]).
fn count_other(d: &Vec<(i128, u16)>) -> (r: u32)
    requires
        d@.len() <= 64,
    ensures
        r == other_tokens(d@),
{
    let mut sum: u32 = 0;
    let mut i: usize = 0;
    while i < d.len()
        invariant
            i <= d@.len() <= 64,
            sum == other_tokens(d@.take(i as int)),
            sum <= 65535 * i,
        decreases d@.len() - i,
    {
        proof {
            lemma_other_tokens_take(d@, i as int);
        }
        if d[i].0 != DURATION_MAX {
            sum = sum + d[i].1 as u32;
        }
        i = i + 1;
    }
    assert(d@.take(d@.len() as int) =~= d@);
    sum
}

/// Sets the last bucket's tokens.
fn set_last_count(d: &mut Vec<(i128, u16)>, kn: u16)
    requires
        old(d)@.len() > 0,
    ensures
        final(d)@ == with_last_count(old(d)@, kn),
{
    let last = d.len() - 1;
    let gap = d[last].0;
    d.set(last, (gap, kn));
}

/// The tokens of the gap mode's infinite bucket (see [`intra_tokens`]).
fn compute_intra_tokens(other: u32, median_burst_length: u32) -> (r: u16)
    requires
        median_burst_length >= 2,
    ensures
        r == intra_tokens(other as int, median_burst_length),
{
    let a: u64 = other as u64 + median_burst_length as u64 + 1;
    let b: u64 = median_burst_length as u64 - 1;
    let q: u64 = (2 * a + b) / (2 * b);
    if q > 65535 {
        65535
    } else {
        q as u16
    }
}

/// The first bucket whose doubled gap exceeds `duration` (see [`first_long_from`]).
fn find_long(d: &Vec<(i128, u16)>, duration: i128) -> (r: Option<usize>)
    requires
        forall|i: int| 0 <= i < d@.len() ==> 0 <= (#[trigger] d@[i]).0 <= DURATION_MAX,
    ensures
        r matches Some(i) ==> first_long_from(d@, duration, 0) == Some(i as int),
        r is None ==> first_long_from(d@, duration, 0) is None,
{
    let mut i: usize = 0;
    while i < d.len()
        invariant
            i <= d@.len(),
            forall|j: int| 0 <= j < d@.len() ==> 0 <= (#[trigger] d@[j]).0 <= DURATION_MAX,
            first_long_from(d@, duration, 0) == first_long_from(d@, duration, i as int),
        decreases d@.len() - i,
    {
        if d[i].0 + d[i].0 > duration {
            return Some(i);
        }
        i = i + 1;
    }
    None
}

/// The first bucket with a gap of at least `duration` and a token (see
/// [`first_available_from`]).
fn find_available(d: &Vec<(i128, u16)>, duration: i128) -> (r: Option<usize>)
    ensures
        r matches Some(i) ==> first_available_from(d@, duration, 0) == Some(i as int),
        r is None ==> first_available_from(d@, duration, 0) is None,
{
    let mut i: usize = 0;
    while i < d.len()
        invariant
            i <= d@.len(),
            first_available_from(d@, duration, 0) == first_available_from(d@, duration, i as int),
        decreases d@.len() - i,
    {
        if d[i].0 >= duration && d[i].1 > 0 {
            return Some(i);
        }
        i = i + 1;
    }
    None
}

proof fn lemma_first_found(d: Seq<(i128, u16)>, duration: i128, i: int)
    ensures
        first_long_from(d, duration, i) matches Some(j) ==> i <= j < d.len(),
        first_available_from(d, duration, i) matches Some(j) ==> i <= j < d.len() && d[j].1 > 0,
    decreases d.len() - i,
{
    if 0 <= i < d.len() {
        lemma_first_found(d, duration, i + 1);
    }
}

/// Takes a token from the first bucket with a gap of at least `duration` and a token, if any.
fn remove_from(d: &mut Vec<(i128, u16)>, duration: i128) -> (r: bool)
    ensures
        final(d)@ == remove_token(old(d)@, duration),
        r == first_available_from(old(d)@, duration, 0) is Some,
{
    proof {
        lemma_first_found(d@, duration, 0);
    }
    let ghost start = d@;
    match find_available(d, duration) {
        Some(i) => {
            let (gap, count) = d[i];
            d.set(i, (gap, count - 1));
            assert(d@ =~= take_token(start, i as int));
            true
        },
        None => false,
    }
}

/// Whether no bucket has a token.
fn no_tokens(d: &Vec<(i128, u16)>) -> (r: bool)
    ensures
        r == all_zero(d@),
{
    let mut i: usize = 0;
    while i < d.len()
        invariant
            i <= d@.len(),
            forall|j: int| 0 <= j < i ==> (#[trigger] d@[j]).1 == 0,
        decreases d@.len() - i,
    {
        if d[i].1 != 0 {
            return false;
        }
        i = i + 1;
    }
    true
}

/// The modes of adaptive padding.
#[derive(Copy, Clone, PartialEq, Eq, Structural, Debug)]
pub enum PaddingMode {
    /// No padding: the next dummy is a year away.
    Idle,
    /// Messages are being sent; the gaps are those between bursts.
    Burst,
    /// Between bursts; the gaps are those within a burst.
    Gap,
}

/// What the machine waits for.
#[derive(Copy, Clone, PartialEq, Eq, Structural, Debug)]
pub enum Phase {
    /// Nothing: the machine takes the next message or timeout.
    Ready,
    /// The tokens of the burst mode's infinite bucket, at the start.
    InitialRefill,
    /// The tokens of the burst mode's infinite bucket, after a refill while taking the token of
    /// the real gap `duration`.
    RemoveRefill { duration: i128 },
    /// The tokens of the burst mode's infinite bucket, after a refill before a draw.
    SampleRefill,
    /// The bucket drawn from the current mode's buckets.
    AwaitBucket,
    /// The gap drawn within the bucket of gap `low`.
    AwaitGap { low: i128 },
}

/// What the caller is to supply next.
#[derive(Clone, Debug)]
pub enum PaddingNeed {
    /// Nothing: the machine takes the next message or timeout.
    Nothing,
    /// The tokens of the burst mode's infinite bucket, when the other buckets hold this many
    /// tokens (see [`AdaptivePadding::provide_fake_burst_tokens`]).
    FakeBurstTokens { other_tokens: u32 },
    /// The index of a bucket, drawn with these weights (see
    /// [`AdaptivePadding::provide_bucket`]).
    Bucket { weights: Vec<u16> },
    /// A gap between `low` and √2·`low` nanoseconds (see [`AdaptivePadding::provide_gap`]).
    Gap { low: i128 },
}

/// The buckets of the burst mode, once set up.
pub open spec fn inter_gaps() -> Seq<i128> {
    gaps_of(inter_base().push((DURATION_MAX, 0u16)))
}

/// The buckets of the gap mode, once set up.
pub open spec fn intra_gaps() -> Seq<i128> {
    gaps_of(intra_base().push((DURATION_MAX, 0u16)))
}

/// The burst buckets before a draw in `mode`: refilled when they hold no token.
pub open spec fn sampling_inter(mode: PaddingMode, inter: Seq<(i128, u16)>) -> Seq<(i128, u16)> {
    if mode == PaddingMode::Burst && all_zero(inter) {
        refilled(inter, inter_base())
    } else {
        inter
    }
}

/// The gap buckets before a draw in `mode`: refilled when they hold no token.
pub open spec fn sampling_intra(mode: PaddingMode, intra: Seq<(i128, u16)>, median_burst_length: u32) -> Seq<(i128, u16)> {
    if mode == PaddingMode::Gap && all_zero(intra) {
        refilled_intra(intra, median_burst_length)
    } else {
        intra
    }
}

/// What a draw in `mode` waits for first: the tokens of a refilled infinite burst bucket, or the
/// bucket.
pub open spec fn sampling_phase(mode: PaddingMode, inter: Seq<(i128, u16)>) -> Phase {
    if mode == PaddingMode::Burst && all_zero(inter) {
        Phase::SampleRefill
    } else {
        Phase::AwaitBucket
    }
}

/// The tokens of the buckets, as weights.
pub open spec fn weights_of(d: Seq<(i128, u16)>) -> Seq<u16> {
    d.map_values(|e: (i128, u16)| e.1)
}

/// The adaptive padding machine. Times and gaps are in nanoseconds.
pub struct AdaptivePadding {
    /// The gap the current deadline was set with.
    eipi: i128,
    last_created_item: i128,
    deadline: i128,
    /// Buckets of the gap mode.
    intra: Vec<(i128, u16)>,
    /// Buckets of the burst mode.
    inter: Vec<(i128, u16)>,
    mode: PaddingMode,
    median_burst_length: u32,
    phase: Phase,
    /// The time of the message or timeout being handled.
    now: i128,
}

impl AdaptivePadding {
    pub closed spec fn eipi(&self) -> i128 {
        self.eipi
    }

    pub closed spec fn last_created_item(&self) -> i128 {
        self.last_created_item
    }

    pub closed spec fn deadline_time(&self) -> i128 {
        self.deadline
    }

    pub closed spec fn intra(&self) -> Seq<(i128, u16)> {
        self.intra@
    }

    pub closed spec fn inter(&self) -> Seq<(i128, u16)> {
        self.inter@
    }

    pub closed spec fn mode(&self) -> PaddingMode {
        self.mode
    }

    pub closed spec fn median_burst_length(&self) -> u32 {
        self.median_burst_length
    }

    pub closed spec fn phase(&self) -> Phase {
        self.phase
    }

    pub closed spec fn now(&self) -> i128 {
        self.now
    }

    /// The buckets of the current mode.
    pub open spec fn current(&self) -> Seq<(i128, u16)> {
        if self.mode() == PaddingMode::Gap {
            self.intra()
        } else {
            self.inter()
        }
    }

    /// The bucket gaps never change: only their tokens do.
    pub open spec fn buckets_fixed(&self) -> bool {
        &&& gaps_of(self.inter()) == inter_gaps()
        &&& if self.phase() == Phase::InitialRefill {
            self.intra().len() == 0
        } else {
            gaps_of(self.intra()) == intra_gaps()
        }
    }

    /// When nothing is pending (and at the start), the deadline is the last message or dummy
    /// plus the gap drawn for it, and a year when idle.
    pub open spec fn deadline_follows(&self) -> bool {
        (self.phase() == Phase::Ready || self.phase() == Phase::InitialRefill) ==> {
            &&& self.deadline_time() == self.last_created_item() + self.eipi()
            &&& self.mode() == PaddingMode::Idle ==> self.eipi() == DURATION_MAX
        }
    }

    /// Which phases go with which modes.
    pub open spec fn phase_fits_mode(&self) -> bool {
        &&& self.phase() == Phase::InitialRefill ==> self.mode() == PaddingMode::Idle
        &&& (self.phase() is RemoveRefill || self.phase() == Phase::SampleRefill) ==> self.mode()
            == PaddingMode::Burst
        &&& (self.phase() == Phase::AwaitBucket || self.phase() is AwaitGap) ==> self.mode()
            != PaddingMode::Idle
        &&& self.phase() matches Phase::AwaitGap { low } ==> 0 < low <= DURATION_MAX
    }

    /// Times stay within [`TIME_BOUND`] and gaps within [`GAP_BOUND`].
    pub open spec fn times_bounded(&self) -> bool {
        &&& -TIME_BOUND <= self.last_created_item() <= TIME_BOUND
        &&& -TIME_BOUND <= self.now() <= TIME_BOUND
        &&& 0 <= self.eipi() <= GAP_BOUND
    }

    pub open spec fn wf(&self) -> bool {
        &&& self.median_burst_length() >= 2
        &&& self.buckets_fixed()
        &&& self.deadline_follows()
        &&& self.phase_fits_mode()
        &&& self.times_bounded()
    }
}

proof fn lemma_distribution_gaps()
    ensures
        forall|k: int| 0 <= k < 45 ==> 1000 <= #[trigger] spec_distribution()[k].0 < DURATION_MAX,
{
    let d = spec_distribution();
    assert forall|k: int| 0 <= k < 45 implies 1000 <= #[trigger] d[k].0 < DURATION_MAX by {
        assert(d.len() == 45);
    }
}

/// Buckets with the gaps of either mode have at most 26 buckets, each gap between a
/// microsecond and [`DURATION_MAX`], and the last one infinite.
proof fn lemma_bucket_bounds(d: Seq<(i128, u16)>)
    requires
        gaps_of(d) == inter_gaps() || gaps_of(d) == intra_gaps(),
    ensures
        0 < d.len() <= 26,
        d.last().0 == DURATION_MAX,
        forall|i: int| 0 <= i < d.len() ==> 1000 <= (#[trigger] d[i]).0 <= DURATION_MAX,
        forall|i: int| 0 <= i < d.len() - 1 ==> (#[trigger] d[i]).0 < DURATION_MAX,
{
    lemma_distribution_gaps();
    assert(spec_distribution().len() == 45);
    assert(gaps_of(d).len() == d.len());
    assert forall|i: int| 0 <= i < d.len() implies 1000 <= (#[trigger] d[i]).0 <= DURATION_MAX && (i < d.len() - 1 ==> d[i].0 < DURATION_MAX) by {
        assert(gaps_of(d)[i] == d[i].0);
        if gaps_of(d) == inter_gaps() {
            if i < 25 {
                assert(inter_base()[i] == spec_distribution()[i + 20]);
            }
        } else {
            if i < 20 {
                assert(intra_base()[i] == spec_distribution()[i]);
            }
        }
    }
    assert(gaps_of(d)[d.len() - 1] == d.last().0);
}

/// Setting the tokens of a bucket keeps the gaps.
proof fn lemma_gaps_update(d: Seq<(i128, u16)>, i: int, c: u16)
    requires
        0 <= i < d.len(),
    ensures
        gaps_of(d.update(i, (d[i].0, c))) == gaps_of(d),
{
    assert(gaps_of(d.update(i, (d[i].0, c))) =~= gaps_of(d));
}

/// Refilling keeps the gaps of set-up buckets, and sets them up when there are none.
proof fn lemma_gaps_refilled(d: Seq<(i128, u16)>, base: Seq<(i128, u16)>)
    ensures
        d.len() > 0 ==> gaps_of(refilled(d, base)) == gaps_of(d),
        d.len() == 0 ==> gaps_of(refilled(d, base)) == gaps_of(base.push((DURATION_MAX, 0u16))),
{
    assert(d.len() > 0 ==> gaps_of(refilled(d, base)) =~= gaps_of(d));
}

/// Putting back and taking tokens keep the gaps.
proof fn lemma_gaps_tokens(d: Seq<(i128, u16)>, duration: i128)
    ensures
        gaps_of(put_back(d, duration)) == gaps_of(d),
        gaps_of(remove_token(d, duration)) == gaps_of(d),
{
    lemma_first_found(d, duration, 0);
    if let Some(i) = first_long_from(d, duration, 0) {
        lemma_gaps_update(d, i, add16(d[i].1, 1));
    }
    if let Some(i) = first_available_from(d, duration, 0) {
        lemma_gaps_update(d, i, (d[i].1 - 1) as u16);
    }
}

/// Refilling the gap mode's buckets keeps their gaps, or sets them up.
proof fn lemma_gaps_refilled_intra(d: Seq<(i128, u16)>, median_burst_length: u32)
    requires
        d.len() == 0 || gaps_of(d) == intra_gaps(),
    ensures
        gaps_of(refilled_intra(d, median_burst_length)) == intra_gaps(),
{
    lemma_gaps_refilled(d, intra_base());
    let r = refilled(d, intra_base());
    assert(gaps_of(r).len() == r.len());
    assert(intra_gaps().len() == 21);
    lemma_gaps_update(r, r.len() - 1, intra_tokens(other_tokens(r), median_burst_length));
}

impl AdaptivePadding {
    /// Refills the gap mode's buckets (see [`refilled_intra`]).
    fn refill_intra(&mut self)
        requires
            old(self).intra().len() == 0 || gaps_of(old(self).intra()) == intra_gaps(),
            old(self).median_burst_length() >= 2,
        ensures
            final(self).intra() == refilled_intra(old(self).intra(), old(self).median_burst_length()),
            gaps_of(final(self).intra()) == intra_gaps(),
            final(self).inter() == old(self).inter(),
            final(self).eipi() == old(self).eipi(),
            final(self).last_created_item() == old(self).last_created_item(),
            final(self).deadline_time() == old(self).deadline_time(),
            final(self).mode() == old(self).mode(),
            final(self).median_burst_length() == old(self).median_burst_length(),
            final(self).phase() == old(self).phase(),
            final(self).now() == old(self).now(),
    {
        proof {
            lemma_gaps_refilled_intra(self.intra@, self.median_burst_length);
            lemma_gaps_refilled(self.intra@, intra_base());
            assert(intra_gaps().len() == 21);
        }
        let base = distribution_part(0, 20);
        assert(base@ =~= intra_base());
        merge_base(&mut self.intra, &base);
        proof {
            assert(gaps_of(self.intra@).len() == self.intra@.len());
        }
        let other = count_other(&self.intra);
        let kn = compute_intra_tokens(other, self.median_burst_length);
        set_last_count(&mut self.intra, kn);
    }

    /// Refills the burst mode's buckets (see [`refilled`]); their infinite bucket keeps its
    /// tokens until the caller supplies them.
    fn refill_inter(&mut self)
        requires
            old(self).inter().len() == 0 || gaps_of(old(self).inter()) == inter_gaps(),
        ensures
            final(self).inter() == refilled(old(self).inter(), inter_base()),
            gaps_of(final(self).inter()) == inter_gaps(),
            final(self).intra() == old(self).intra(),
            final(self).eipi() == old(self).eipi(),
            final(self).last_created_item() == old(self).last_created_item(),
            final(self).deadline_time() == old(self).deadline_time(),
            final(self).mode() == old(self).mode(),
            final(self).median_burst_length() == old(self).median_burst_length(),
            final(self).phase() == old(self).phase(),
            final(self).now() == old(self).now(),
    {
        proof {
            lemma_gaps_refilled(self.inter@, inter_base());
        }
        let base = distribution_part(20, 45);
        assert(base@ =~= inter_base());
        merge_base(&mut self.inter, &base);
    }

    /// Starts a draw in the current (burst or gap) mode: refills its buckets when they hold no
    /// token.
    fn begin_sampling(&mut self)
        requires
            old(self).mode() != PaddingMode::Idle,
            gaps_of(old(self).inter()) == inter_gaps(),
            gaps_of(old(self).intra()) == intra_gaps(),
            old(self).median_burst_length() >= 2,
        ensures
            final(self).inter() == sampling_inter(old(self).mode(), old(self).inter()),
            final(self).intra() == sampling_intra(old(self).mode(), old(self).intra(), old(self).median_burst_length()),
            final(self).phase() == sampling_phase(old(self).mode(), old(self).inter()),
            gaps_of(final(self).inter()) == inter_gaps(),
            gaps_of(final(self).intra()) == intra_gaps(),
            final(self).eipi() == old(self).eipi(),
            final(self).last_created_item() == old(self).last_created_item(),
            final(self).deadline_time() == old(self).deadline_time(),
            final(self).mode() == old(self).mode(),
            final(self).median_burst_length() == old(self).median_burst_length(),
            final(self).now() == old(self).now(),
    {
        if self.mode == PaddingMode::Burst {
            if no_tokens(&self.inter) {
                self.refill_inter();
                self.phase = Phase::SampleRefill;
            } else {
                self.phase = Phase::AwaitBucket;
            }
        } else {
            if no_tokens(&self.intra) {
                self.refill_intra();
            }
            self.phase = Phase::AwaitBucket;
        }
    }

    /// A machine that is idle at `now`, for bursts of median length `median_burst_length`. It
    /// first needs the tokens of the burst mode's infinite bucket.
    pub fn new(now: i128, median_burst_length: u32) -> (r: Self)
        requires
            median_burst_length >= 2,
            -TIME_BOUND <= now <= TIME_BOUND,
        ensures
            r.wf(),
            r.mode() == PaddingMode::Idle,
            r.phase() == Phase::InitialRefill,
            r.inter() == refilled(Seq::empty(), inter_base()),
            r.intra().len() == 0,
            r.eipi() == DURATION_MAX,
            r.last_created_item() == now,
            r.deadline_time() == now + DURATION_MAX,
            r.median_burst_length() == median_burst_length,
    {
        let mut r = AdaptivePadding {
            eipi: DURATION_MAX,
            last_created_item: now,
            deadline: now + DURATION_MAX,
            intra: Vec::new(),
            inter: Vec::new(),
            mode: PaddingMode::Idle,
            median_burst_length,
            phase: Phase::InitialRefill,
            now,
        };
        r.refill_inter();
        r
    }

    /// What the caller is to supply next.
    pub fn need(&self) -> (r: PaddingNeed)
        requires
            self.wf(),
        ensures
            self.phase() == Phase::Ready ==> r is Nothing,
            (self.phase() == Phase::InitialRefill || self.phase() is RemoveRefill || self.phase()
                == Phase::SampleRefill) ==> (r matches PaddingNeed::FakeBurstTokens { other_tokens: n }
                && n == other_tokens(self.inter())),
            self.phase() == Phase::AwaitBucket ==> (r matches PaddingNeed::Bucket { weights }
                && weights@ == weights_of(self.current())),
            self.phase() matches Phase::AwaitGap { low } ==> r == (PaddingNeed::Gap { low }),
    {
        proof {
            lemma_bucket_bounds(self.inter@);
        }
        match self.phase {
            Phase::Ready => PaddingNeed::Nothing,
            Phase::AwaitBucket => {
                let d = if self.mode == PaddingMode::Gap {
                    &self.intra
                } else {
                    &self.inter
                };
                let mut weights: Vec<u16> = Vec::new();
                let mut i: usize = 0;
                while i < d.len()
                    invariant
                        i <= d@.len(),
                        weights@ == weights_of(d@).take(i as int),
                    decreases d@.len() - i,
                {
                    weights.push(d[i].1);
                    i = i + 1;
                    assert(weights@ =~= weights_of(d@).take(i as int));
                }
                assert(weights_of(d@).take(d@.len() as int) =~= weights_of(d@));
                PaddingNeed::Bucket { weights }
            },
            Phase::AwaitGap { low } => PaddingNeed::Gap { low },
            _ => PaddingNeed::FakeBurstTokens { other_tokens: count_other(&self.inter) },
        }
    }
}

impl AdaptivePadding {
    /// Supplies the tokens of the burst mode's infinite bucket, `kn`, which the caller computes
    /// from the probability of a fake burst p as `(1 − p) / p · other_tokens` rounded. Then:
    /// at the start, the gap mode's buckets are set up and the machine is ready; after a refill
    /// while taking the token of a real gap, that token is taken and a draw in burst mode
    /// starts; after a refill before a draw, the bucket is drawn.
    pub fn provide_fake_burst_tokens(&mut self, kn: u16)
        requires
            old(self).wf(),
            old(self).phase() == Phase::InitialRefill || old(self).phase() is RemoveRefill || old(
                self,
            ).phase() == Phase::SampleRefill,
        ensures
            final(self).wf(),
            final(self).eipi() == old(self).eipi(),
            final(self).last_created_item() == old(self).last_created_item(),
            final(self).deadline_time() == old(self).deadline_time(),
            final(self).median_burst_length() == old(self).median_burst_length(),
            final(self).now() == old(self).now(),
            old(self).phase() == Phase::InitialRefill ==> {
                &&& final(self).inter() == with_last_count(old(self).inter(), kn)
                &&& final(self).intra() == refilled_intra(old(self).intra(), old(self).median_burst_length())
                &&& final(self).mode() == PaddingMode::Idle
                &&& final(self).phase() == Phase::Ready
            },
            old(self).phase() matches Phase::RemoveRefill { duration } ==> {
                let taken = remove_token(with_last_count(old(self).inter(), kn), duration);
                &&& final(self).inter() == sampling_inter(PaddingMode::Burst, taken)
                &&& final(self).intra() == old(self).intra()
                &&& final(self).mode() == PaddingMode::Burst
                &&& final(self).phase() == sampling_phase(PaddingMode::Burst, taken)
            },
            old(self).phase() == Phase::SampleRefill ==> {
                &&& final(self).inter() == with_last_count(old(self).inter(), kn)
                &&& final(self).intra() == old(self).intra()
                &&& final(self).mode() == PaddingMode::Burst
                &&& final(self).phase() == Phase::AwaitBucket
            },
    {
        proof {
            lemma_bucket_bounds(self.inter@);
            lemma_gaps_update(self.inter@, self.inter@.len() - 1, kn);
        }
        set_last_count(&mut self.inter, kn);
        match self.phase {
            Phase::InitialRefill => {
                self.refill_intra();
                self.phase = Phase::Ready;
            },
            Phase::RemoveRefill { duration } => {
                proof {
                    lemma_gaps_tokens(self.inter@, duration);
                }
                remove_from(&mut self.inter, duration);
                self.mode = PaddingMode::Burst;
                self.begin_sampling();
            },
            _ => {
                self.phase = Phase::AwaitBucket;
            },
        }
    }

    /// Supplies the bucket drawn: its token is taken. When it is the infinite bucket, a burst
    /// ends (the machine becomes idle, with the deadline a year away) and a gap falls back to
    /// a burst, which draws again; otherwise the gap within the bucket is drawn next.
    pub fn provide_bucket(&mut self, index: usize)
        requires
            old(self).wf(),
            old(self).phase() == Phase::AwaitBucket,
            index < old(self).current().len(),
            old(self).current()[index as int].1 > 0,
        ensures
            final(self).wf(),
            final(self).median_burst_length() == old(self).median_burst_length(),
            final(self).now() == old(self).now(),
            ({
                let gap = old(self).current()[index as int].0;
                let taken = take_token(old(self).current(), index as int);
                if old(self).mode() == PaddingMode::Burst {
                    &&& final(self).inter() == taken
                    &&& final(self).intra() == old(self).intra()
                    &&& if gap == DURATION_MAX {
                        &&& final(self).mode() == PaddingMode::Idle
                        &&& final(self).phase() == Phase::Ready
                        &&& final(self).eipi() == DURATION_MAX
                        &&& final(self).last_created_item() == old(self).now()
                        &&& final(self).deadline_time() == old(self).now() + DURATION_MAX
                    } else {
                        &&& final(self).mode() == PaddingMode::Burst
                        &&& final(self).phase() == (Phase::AwaitGap { low: gap })
                        &&& final(self).eipi() == old(self).eipi()
                        &&& final(self).last_created_item() == old(self).last_created_item()
                        &&& final(self).deadline_time() == old(self).deadline_time()
                    }
                } else {
                    &&& final(self).intra() == taken
                    &&& final(self).eipi() == old(self).eipi()
                    &&& final(self).last_created_item() == old(self).last_created_item()
                    &&& final(self).deadline_time() == old(self).deadline_time()
                    &&& if gap == DURATION_MAX {
                        &&& final(self).mode() == PaddingMode::Burst
                        &&& final(self).inter() == sampling_inter(PaddingMode::Burst, old(self).inter())
                        &&& final(self).phase() == sampling_phase(PaddingMode::Burst, old(self).inter())
                    } else {
                        &&& final(self).mode() == PaddingMode::Gap
                        &&& final(self).inter() == old(self).inter()
                        &&& final(self).phase() == (Phase::AwaitGap { low: gap })
                    }
                }
            }),
    {
        proof {
            lemma_bucket_bounds(self.inter@);
            lemma_bucket_bounds(self.intra@);
        }
        if self.mode == PaddingMode::Burst {
            let (gap, count) = self.inter[index];
            proof {
                lemma_gaps_update(self.inter@, index as int, (count - 1) as u16);
            }
            self.inter.set(index, (gap, count - 1));
            if gap == DURATION_MAX {
                self.mode = PaddingMode::Idle;
                self.eipi = DURATION_MAX;
                self.deadline = self.now + DURATION_MAX;
                self.last_created_item = self.now;
                self.phase = Phase::Ready;
            } else {
                self.phase = Phase::AwaitGap { low: gap };
            }
        } else {
            let (gap, count) = self.intra[index];
            proof {
                lemma_gaps_update(self.intra@, index as int, (count - 1) as u16);
            }
            self.intra.set(index, (gap, count - 1));
            if gap == DURATION_MAX {
                self.mode = PaddingMode::Burst;
                self.begin_sampling();
            } else {
                self.phase = Phase::AwaitGap { low: gap };
            }
        }
    }

    /// Supplies the gap drawn within the bucket: the next dummy is due `gap` after the
    /// message or timeout being handled.
    pub fn provide_gap(&mut self, gap: i128)
        requires
            old(self).wf(),
            old(self).phase() is AwaitGap,
            0 <= gap <= GAP_BOUND,
        ensures
            final(self).wf(),
            final(self).phase() == Phase::Ready,
            final(self).eipi() == gap,
            final(self).last_created_item() == old(self).now(),
            final(self).deadline_time() == old(self).now() + gap,
            final(self).inter() == old(self).inter(),
            final(self).intra() == old(self).intra(),
            final(self).mode() == old(self).mode(),
            final(self).median_burst_length() == old(self).median_burst_length(),
            final(self).now() == old(self).now(),
    {
        self.eipi = gap;
        self.deadline = self.now + gap;
        self.last_created_item = self.now;
        self.phase = Phase::Ready;
    }
}

/// Puts a token back into the first bucket whose doubled gap exceeds `duration`, if any.
fn put_back_into(d: &mut Vec<(i128, u16)>, duration: i128)
    requires
        forall|i: int| 0 <= i < old(d)@.len() ==> 0 <= (#[trigger] old(d)@[i]).0 <= DURATION_MAX,
    ensures
        final(d)@ == put_back(old(d)@, duration),
{
    proof {
        lemma_first_found(d@, duration, 0);
    }
    let ghost start = d@;
    match find_long(d, duration) {
        Some(i) => {
            let (gap, count) = d[i];
            d.set(i, (gap, ((count as u32 + 1) % 65536) as u16));
            assert(d@ =~= start.update(i as int, (start[i as int].0, add16(start[i as int].1, 1))));
        },
        None => {},
    }
}

impl AdaptivePadding {
    /// A real message at `now`: outside idle mode, the token of the expected gap goes back and
    /// the token of the gap that really passed since the last message or dummy is taken
    /// (refilling the buckets when none is left that is long enough). Then a burst starts: a
    /// draw in burst mode.
    pub fn handle_application_payload(&mut self, now: i128)
        requires
            old(self).wf(),
            old(self).phase() == Phase::Ready,
            -TIME_BOUND <= now <= TIME_BOUND,
        ensures
            final(self).wf(),
            final(self).now() == now,
            final(self).eipi() == old(self).eipi(),
            final(self).last_created_item() == old(self).last_created_item(),
            final(self).deadline_time() == old(self).deadline_time(),
            final(self).median_burst_length() == old(self).median_burst_length(),
            final(self).mode() == PaddingMode::Burst,
            ({
                let duration = (now - old(self).last_created_item()) as i128;
                let mbl = old(self).median_burst_length();
                match old(self).mode() {
                    PaddingMode::Idle => {
                        &&& final(self).inter() == sampling_inter(PaddingMode::Burst, old(self).inter())
                        &&& final(self).intra() == old(self).intra()
                        &&& final(self).phase() == sampling_phase(PaddingMode::Burst, old(self).inter())
                    },
                    PaddingMode::Burst => {
                        let back = put_back(old(self).inter(), old(self).eipi());
                        &&& final(self).intra() == old(self).intra()
                        &&& if first_available_from(back, duration, 0) is Some {
                            let taken = remove_token(back, duration);
                            &&& final(self).inter() == sampling_inter(PaddingMode::Burst, taken)
                            &&& final(self).phase() == sampling_phase(PaddingMode::Burst, taken)
                        } else {
                            &&& final(self).inter() == refilled(back, inter_base())
                            &&& final(self).phase() == (Phase::RemoveRefill { duration })
                        }
                    },
                    PaddingMode::Gap => {
                        let back = put_back(old(self).intra(), old(self).eipi());
                        &&& final(self).intra() == if first_available_from(back, duration, 0) is Some {
                            remove_token(back, duration)
                        } else {
                            remove_token(refilled_intra(back, mbl), duration)
                        }
                        &&& final(self).inter() == sampling_inter(PaddingMode::Burst, old(self).inter())
                        &&& final(self).phase() == sampling_phase(PaddingMode::Burst, old(self).inter())
                    },
                }
            }),
    {
        proof {
            lemma_bucket_bounds(self.inter@);
            lemma_bucket_bounds(self.intra@);
        }
        self.now = now;
        let duration = now - self.last_created_item;
        if self.mode == PaddingMode::Idle {
            self.mode = PaddingMode::Burst;
            self.begin_sampling();
        } else if self.mode == PaddingMode::Burst {
            proof {
                lemma_gaps_tokens(self.inter@, self.eipi);
                lemma_gaps_tokens(put_back(self.inter@, self.eipi), duration);
            }
            put_back_into(&mut self.inter, self.eipi);
            if remove_from(&mut self.inter, duration) {
                self.begin_sampling();
            } else {
                self.refill_inter();
                self.phase = Phase::RemoveRefill { duration };
            }
        } else {
            proof {
                lemma_gaps_tokens(self.intra@, self.eipi);
                let back = put_back(self.intra@, self.eipi);
                lemma_gaps_tokens(back, duration);
                lemma_gaps_refilled_intra(back, self.median_burst_length);
                lemma_gaps_tokens(refilled_intra(back, self.median_burst_length), duration);
            }
            put_back_into(&mut self.intra, self.eipi);
            if !remove_from(&mut self.intra, duration) {
                self.refill_intra();
                remove_from(&mut self.intra, duration);
            }
            self.mode = PaddingMode::Burst;
            self.begin_sampling();
        }
    }

    /// A timeout at `now`, when the next dummy goes out: a burst turns into a gap, and a draw
    /// in gap mode starts.
    pub fn handle_timeout(&mut self, now: i128)
        requires
            old(self).wf(),
            old(self).phase() == Phase::Ready,
            old(self).mode() != PaddingMode::Idle,
            -TIME_BOUND <= now <= TIME_BOUND,
        ensures
            final(self).wf(),
            final(self).now() == now,
            final(self).last_created_item() == now,
            final(self).mode() == PaddingMode::Gap,
            final(self).intra() == sampling_intra(PaddingMode::Gap, old(self).intra(), old(self).median_burst_length()),
            final(self).inter() == old(self).inter(),
            final(self).phase() == Phase::AwaitBucket,
            final(self).eipi() == old(self).eipi(),
            final(self).deadline_time() == old(self).deadline_time(),
            final(self).median_burst_length() == old(self).median_burst_length(),
    {
        self.last_created_item = now;
        self.now = now;
        self.mode = PaddingMode::Gap;
        self.begin_sampling();
    }

    /// Whether adaptive padding has terminated, i.e., is idle.
    pub fn has_terminated(&self) -> (r: bool)
        ensures
            r == (self.mode() == PaddingMode::Idle),
    {
        self.mode == PaddingMode::Idle
    }

    /// When the next dummy is due.
    pub fn deadline(&self) -> (r: i128)
        ensures
            r == self.deadline_time(),
    {
        self.deadline
    }
}

/// Whenever the machine is ready, the next dummy is due the drawn gap after the last message or
/// dummy, a year after it when idle; and the buckets of both modes keep the measured gaps.
pub proof fn lemma_ready_machine(ap: &AdaptivePadding)
    requires
        ap.wf(),
        ap.phase() == Phase::Ready,
    ensures
        ap.deadline_time() == ap.last_created_item() + ap.eipi(),
        ap.mode() == PaddingMode::Idle ==> ap.deadline_time() == ap.last_created_item() + DURATION_MAX,
        gaps_of(ap.inter()) == inter_gaps(),
        gaps_of(ap.intra()) == intra_gaps(),
{
}

} // verus!
