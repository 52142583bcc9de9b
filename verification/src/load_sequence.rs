//! Turning timed query/response sizes into sequences of elements.

use crate::sequence::Sequence;
use crate::sequence_element::SequenceElement;
use vstd::prelude::*;

verus! {

/// Size and time of one DNS response, the input from which sequences are built.
///
/// `time` counts nanoseconds since the Unix epoch.
#[derive(Copy, Clone, PartialEq, Eq, Structural, Debug)]
pub struct AbstractQueryResponse {
    pub time: i128,
    pub size: u32,
}

/// Padding strategy of the observed messages.
#[derive(Copy, Clone, PartialEq, Eq, Structural, Debug)]
pub enum Padding {
    /// Queries padded to blocks of 128 bytes, responses to blocks of 468 bytes (the default).
    Q128R468,
}

/// How time differences become gap values.
#[derive(Copy, Clone, PartialEq, Eq, Structural, Debug)]
pub enum GapMode {
    /// The floor of the binary logarithm of the number of base gaps (the default).
    Log2,
    /// The number of base gaps itself.
    Ident,
}

/// Countermeasures simulated while loading sequence data.
#[derive(Copy, Clone, PartialEq, Eq, Structural, Debug)]
pub enum SimulatedCountermeasure {
    /// No post-processing (the default).
    NoCountermeasure,
    /// Perfect padding: all sizes are removed, messages are kept apart by gaps.
    PerfectPadding,
    /// Perfect timing: all gaps are removed.
    PerfectTiming,
}

/// How data is loaded into a [`Sequence`].
#[derive(Copy, Clone, PartialEq, Eq, Structural, Debug)]
pub struct LoadSequenceConfig {
    pub padding: Padding,
    pub gap_mode: GapMode,
    pub simulated_countermeasure: SimulatedCountermeasure,
}

impl Padding {
    pub fn default() -> (r: Self)
        ensures
            r == Padding::Q128R468,
    {
        Padding::Q128R468
    }
}

impl GapMode {
    pub fn default() -> (r: Self)
        ensures
            r == GapMode::Log2,
    {
        GapMode::Log2
    }
}

impl SimulatedCountermeasure {
    pub fn default() -> (r: Self)
        ensures
            r == SimulatedCountermeasure::NoCountermeasure,
    {
        SimulatedCountermeasure::NoCountermeasure
    }
}

impl LoadSequenceConfig {
    pub fn default() -> (r: Self)
        ensures
            r == (LoadSequenceConfig {
                padding: Padding::Q128R468,
                gap_mode: GapMode::Log2,
                simulated_countermeasure: SimulatedCountermeasure::NoCountermeasure,
            }),
    {
        LoadSequenceConfig {
            padding: Padding::default(),
            gap_mode: GapMode::default(),
            simulated_countermeasure: SimulatedCountermeasure::default(),
        }
    }
}

/// A name that is none of the variants of an option.
#[derive(Clone, PartialEq, Eq, Debug)]
pub struct UnknownVariant {
    pub name: String,
}

pub(crate) fn str_equals(a: &str, b: &str) -> (r: bool)
    ensures
        r == (a@ == b@),
{
    a.to_owned() == b.to_owned()
}

/// The padding strategy named `s`.
pub open spec fn spec_padding_from_str(s: Seq<char>) -> Option<Padding> {
    if s == "Q128R468"@ || s == "q128r468"@ {
        Some(Padding::Q128R468)
    } else {
        None
    }
}

/// The gap mode named `s`.
pub open spec fn spec_gap_mode_from_str(s: Seq<char>) -> Option<GapMode> {
    if s == "Log2"@ || s == "log2"@ {
        Some(GapMode::Log2)
    } else if s == "Ident"@ || s == "ident"@ {
        Some(GapMode::Ident)
    } else {
        None
    }
}

impl Padding {
    /// Reads a padding strategy by name.
    pub fn from_str(s: &str) -> (r: Result<Padding, UnknownVariant>)
        ensures
            match spec_padding_from_str(s@) {
                Some(p) => r == Ok::<Padding, UnknownVariant>(p),
                None => r matches Err(e) && e.name@ == s@,
            },
    {
        if str_equals(s, "Q128R468") || str_equals(s, "q128r468") {
            Ok(Padding::Q128R468)
        } else {
            Err(UnknownVariant { name: s.to_owned() })
        }
    }
}

impl GapMode {
    /// Reads a gap mode by name.
    pub fn from_str(s: &str) -> (r: Result<GapMode, UnknownVariant>)
        ensures
            match spec_gap_mode_from_str(s@) {
                Some(m) => r == Ok::<GapMode, UnknownVariant>(m),
                None => r matches Err(e) && e.name@ == s@,
            },
    {
        if str_equals(s, "Log2") || str_equals(s, "log2") {
            Ok(GapMode::Log2)
        } else if str_equals(s, "Ident") || str_equals(s, "ident") {
            Ok(GapMode::Ident)
        } else {
            Err(UnknownVariant { name: s.to_owned() })
        }
    }
}

/// `size` rounded up to the next multiple of `block_size`.
pub open spec fn spec_block_padding(size: int, block_size: int) -> int {
    if size % block_size == 0 {
        size
    } else {
        (size / block_size + 1) * block_size
    }
}

/// Rounds `size` up to the next multiple of `block_size`.
pub fn block_padding(size: u32, block_size: u32) -> (r: u32)
    requires
        block_size > 0,
        spec_block_padding(size as int, block_size as int) <= u32::MAX,
    ensures
        r == spec_block_padding(size as int, block_size as int),
        r % block_size == 0,
        size <= r < size + block_size,
{
    proof {
        lemma_block_padding_least_multiple(size as int, block_size as int);
    }
    if size % block_size == 0 {
        size
    } else {
        proof {
            vstd::arithmetic::div_mod::lemma_fundamental_div_mod(size as int, block_size as int);
            assert((size / block_size) * block_size <= size) by (nonlinear_arith)
                requires
                    size as int == block_size * (size / block_size) + size % block_size,
                    size % block_size >= 0,
            ;
            assert((size / block_size + 1) * block_size == (size / block_size) * block_size
                + block_size) by (nonlinear_arith);
        }
        size / block_size * block_size + block_size
    }
}

/// The block size a message is padded to.
pub open spec fn pad_block(padding: Padding, is_query: bool) -> int {
    match padding {
        Padding::Q128R468 => if is_query {
            128
        } else {
            468
        },
    }
}

/// The size class of a message of `size` bytes: the number of padding blocks it fills,
/// truncated to eight bits.
pub open spec fn spec_pad_size(size: u32, is_query: bool, padding: Padding) -> SequenceElement {
    let b = pad_block(padding, is_query);
    SequenceElement::Size(((spec_block_padding(size as int, b) / b) % 256) as u8)
}

/// Padding rounds up to the least multiple of the block size that is not below the size: the
/// result is a multiple of `b`, at least `size`, and less than `size + b`.
pub proof fn lemma_block_padding_least_multiple(size: int, b: int)
    requires
        size >= 0,
        b > 0,
    ensures
        spec_block_padding(size, b) % b == 0,
        spec_block_padding(size, b) >= size,
        spec_block_padding(size, b) < size + b,
{
    vstd::arithmetic::div_mod::lemma_fundamental_div_mod(size, b);
    let q = size / b;
    let r = size % b;
    assert(size == b * q + r && 0 <= r < b);
    if r != 0 {
        assert((q + 1) * b == b * q + b) by (nonlinear_arith);
        assert(spec_block_padding(size, b) == (q + 1) * b);
        vstd::arithmetic::div_mod::lemma_mod_multiples_basic(q + 1, b);
        assert(((q + 1) * b) % b == 0) by {
            vstd::arithmetic::mul::lemma_mul_is_commutative(q + 1, b);
        }
    }
}

/// The padding block of a message under the `Q128R468` scheme: 128 bytes for a query, 468
/// bytes for a response.
pub open spec fn message_block(is_query: bool) -> int {
    if is_query {
        128
    } else {
        468
    }
}

/// Whether `n` blocks of `block` bytes are the fewest that hold `size` bytes: they hold them,
/// and `n - 1` blocks do not (or `n` is zero).
pub open spec fn fills_blocks(size: int, block: int, n: int) -> bool {
    &&& n >= 0
    &&& n * block >= size
    &&& (n == 0 || (n - 1) * block < size)
}

/// The size class of a message is the number of padding blocks it fills (modulo 256): if `n`
/// blocks of the message's block size (128 bytes for a query, 468 for a response) hold `size`
/// bytes and `n - 1` blocks do not, the class is `n`. So an exact multiple of the block size
/// fills exactly that many blocks, and one byte more takes one more block.
pub proof fn lemma_pad_size_counts_blocks(size: u32, is_query: bool, padding: Padding, n: int)
    requires
        fills_blocks(size as int, message_block(is_query), n),
    ensures
        spec_pad_size(size, is_query, padding) == SequenceElement::Size((n % 256) as u8),
{
    let b: int = if is_query { 128 } else { 468 };
    assert(pad_block(padding, is_query) == b);
    let p = spec_block_padding(size as int, b);
    lemma_block_padding_least_multiple(size as int, b);
    vstd::arithmetic::div_mod::lemma_fundamental_div_mod(p, b);
    let m = p / b;
    assert(p == b * m);
    assert(m * b >= size && (m - 1) * b < size) by (nonlinear_arith)
        requires
            p == b * m,
            p >= size,
            p < size + b,
            b > 0,
    ;
    assert(m >= 0) by (nonlinear_arith)
        requires
            p == b * m,
            p >= 0,
            b > 0,
    ;
    assert(m == n) by (nonlinear_arith)
        requires
            m * b >= size,
            (m - 1) * b < size,
            n * b >= size,
            n == 0 || (n - 1) * b < size,
            n >= 0,
            m >= 0,
            size >= 0,
            b > 0,
    {
        if n < m {
            assert(n * b <= (m - 1) * b) by (nonlinear_arith)
                requires
                    n <= m - 1,
                    b > 0,
            ;
        } else if m < n {
            assert(m * b <= (n - 1) * b) by (nonlinear_arith)
                requires
                    m <= n - 1,
                    b > 0,
            ;
        }
    }
}

/// Whether padding a message of `size` bytes stays within 32 bits.
pub open spec fn pad_size_in_range(size: u32, is_query: bool, padding: Padding) -> bool {
    spec_block_padding(size as int, pad_block(padding, is_query)) <= u32::MAX
}

/// The size class of a message of `size` bytes under `padding`.
pub fn pad_size(size: u32, is_query: bool, padding: Padding) -> (r: SequenceElement)
    requires
        pad_size_in_range(size, is_query, padding),
    ensures
        r == spec_pad_size(size, is_query, padding),
        forall|n: int|
            #[trigger] fills_blocks(size as int, message_block(is_query), n) ==> r == SequenceElement::Size((n % 256) as u8),
{
    proof {
        assert forall|n: int|
            #[trigger] fills_blocks(size as int, message_block(is_query), n) implies spec_pad_size(size, is_query, padding)
            == SequenceElement::Size((n % 256) as u8) by {
            lemma_pad_size_counts_blocks(size, is_query, padding, n);
        }
    }
    let block: u32 = match padding {
        Padding::Q128R468 => if is_query {
            128
        } else {
            468
        },
    };
    let blocks = block_padding(size, block) / block;
    SequenceElement::Size((blocks % 256) as u8)
}

/// The floor of the binary logarithm of `n`, and 0 for `n` below 2.
pub open spec fn log2_floor(n: nat) -> nat
    decreases n,
{
    if n < 2 {
        0
    } else {
        1 + log2_floor(n / 2)
    }
}

fn ilog2(n: u32) -> (r: u32)
    ensures
        r == log2_floor(n as nat),
        r < 32,
{
    proof {
        assert(pow2_nat(32) == 0x1_0000_0000) by {
            reveal_with_fuel(pow2_nat, 33);
        }
        lemma_log2_floor_bound(n as nat, 32);
    }
    let mut m = n;
    let mut r: u32 = 0;
    while m >= 2
        invariant
            log2_floor(n as nat) == r + log2_floor(m as nat),
            r + log2_floor(m as nat) < 32,
        decreases m,
    {
        m = m / 2;
        r = r + 1;
    }
    r
}

/// Numbers below `2^k` have a binary logarithm below `k`.
proof fn lemma_log2_floor_bound(n: nat, k: nat)
    requires
        k >= 1,
        n < pow2_nat(k),
    ensures
        log2_floor(n) < k,
    decreases n,
{
    if n >= 2 {
        assert(k >= 2) by {
            if k == 1 {
                assert(pow2_nat(1) == 2 * pow2_nat(0));
            }
        }
        assert(pow2_nat(k) == 2 * pow2_nat((k - 1) as nat));
        lemma_log2_floor_bound(n / 2, (k - 1) as nat);
    }
}

spec fn pow2_nat(k: nat) -> nat
    decreases k,
{
    if k == 0 {
        1
    } else {
        2 * pow2_nat((k - 1) as nat)
    }
}

/// How many times `base` can be taken away from `gap` before the rest is at most `base`.
pub open spec fn base_gaps(gap: int, base: int) -> int {
    if gap <= base {
        0
    } else {
        (gap - 1) / base
    }
}

/// The gap element for a time difference `gap` given the time `base` of one base gap, if any.
pub open spec fn spec_gap_size(gap: int, base: int, mode: GapMode) -> Option<SequenceElement> {
    if gap <= base {
        None
    } else {
        let out = base_gaps(gap, base);
        let dist: int = match mode {
            GapMode::Log2 => log2_floor(out as nat) as int,
            GapMode::Ident => out % 65536,
        };
        if dist == 0 {
            None
        } else {
            Some(SequenceElement::Gap(dist as u16))
        }
    }
}

/// Whether the number of base gaps in `gap` is within the 32-bit counter used for it.
pub open spec fn gap_in_range(gap: int, base: int) -> bool {
    base_gaps(gap, base) <= i32::MAX
}

/// Converts the time difference `gap` (in nanoseconds) into a gap element, if it is long enough.
pub fn gap_size(gap: i128, base: i128, mode: GapMode) -> (r: Option<SequenceElement>)
    requires
        base > 0,
        gap_in_range(gap as int, base as int),
    ensures
        r == spec_gap_size(gap as int, base as int, mode),
{
    if gap <= base {
        return None;
    }
    let out = ((gap - 1) / base) as u32;
    let dist: u16 = match mode {
        GapMode::Log2 => ilog2(out) as u16,
        GapMode::Ident => (out % 65536) as u16,
    };
    if dist == 0 {
        None
    } else {
        Some(SequenceElement::Gap(dist))
    }
}

/// `n` lies between the powers of two `2^d` and `2^(d+1)` exactly when `d` is its binary
/// logarithm, rounded down.
proof fn lemma_log2_floor_between(n: nat, d: nat)
    requires
        vstd::arithmetic::power2::pow2(d) <= n < vstd::arithmetic::power2::pow2(d + 1),
    ensures
        log2_floor(n) == d,
    decreases d,
{
    vstd::arithmetic::power2::lemma_pow2_unfold(d + 1);
    if d == 0 {
        vstd::arithmetic::power2::lemma_pow2(0);
        vstd::arithmetic::power::lemma_pow0(2);
    } else {
        vstd::arithmetic::power2::lemma_pow2_unfold(d);
        let p = vstd::arithmetic::power2::pow2((d - 1) as nat);
        vstd::arithmetic::power2::lemma_pow2_pos((d - 1) as nat);
        assert(p <= n / 2 < 2 * p) by (nonlinear_arith)
            requires
                2 * p <= n < 4 * p,
                p > 0,
        ;
        assert(((d - 1) as nat) + 1 == d);
        lemma_log2_floor_between(n / 2, (d - 1) as nat);
    }
}

/// The gap element counts the whole base gaps that fit into the time difference, as the
/// original counts them by taking `base` away while more than `base` is left: a difference of
/// at most one base gap gives no gap; otherwise, if `out` base gaps are taken away
/// (`out * base < gap <= (out + 1) * base`), `Ident` gives `Gap(out)` (modulo 2^16) and `Log2`
/// gives `Gap(d)` for the `d` with `2^d <= out < 2^(d+1)`, where a zero gives no gap.
pub proof fn lemma_gap_size_counts_base_gaps(gap: int, base: int, mode: GapMode, out: int, d: nat)
    requires
        base > 0,
        gap_in_range(gap, base),
    ensures
        gap <= base ==> spec_gap_size(gap, base, mode) is None,
        gap > base && out * base < gap <= (out + 1) * base && mode == GapMode::Ident ==> spec_gap_size(
            gap,
            base,
            mode,
        ) == if out % 65536 == 0 {
            None
        } else {
            Some(SequenceElement::Gap((out % 65536) as u16))
        },
        gap > base && out * base < gap <= (out + 1) * base && mode == GapMode::Log2
            && vstd::arithmetic::power2::pow2(d) <= out < vstd::arithmetic::power2::pow2(d + 1)
            ==> spec_gap_size(gap, base, mode) == if d == 0 {
            None
        } else {
            Some(SequenceElement::Gap(d as u16))
        },
{
    if gap > base && out * base < gap <= (out + 1) * base {
        let m = base_gaps(gap, base);
        vstd::arithmetic::div_mod::lemma_fundamental_div_mod(gap - 1, base);
        assert(m == out) by (nonlinear_arith)
            requires
                m == (gap - 1) / base,
                gap - 1 == base * ((gap - 1) / base) + (gap - 1) % base,
                0 <= (gap - 1) % base < base,
                out * base < gap <= (out + 1) * base,
                base > 0,
        {
            if m < out {
                assert(m * base <= (out - 1) * base) by (nonlinear_arith)
                    requires
                        m <= out - 1,
                        base > 0,
                ;
            } else if out < m {
                assert((out + 1) * base <= m * base) by (nonlinear_arith)
                    requires
                        out + 1 <= m,
                        base > 0,
                ;
            }
        }
        if mode == GapMode::Log2 && vstd::arithmetic::power2::pow2(d) <= out < vstd::arithmetic::power2::pow2(d + 1) {
            lemma_log2_floor_between(out as nat, d);
            if d >= 31 {
                vstd::arithmetic::power2::lemma2_to64();
                if d > 31 {
                    vstd::arithmetic::power2::lemma_pow2_strictly_increases(31, d);
                }
            }
        }
    }
}

/// Number of nanoseconds of one base gap.
pub const BASE_GAP_NANOS: i128 = 1_000_000;

/// The elements one response contributes: a gap to the previous response (if any and long
/// enough) followed by its size, both subject to the simulated countermeasure.
pub open spec fn elements_for(
    prev: Option<i128>,
    d: AbstractQueryResponse,
    config: LoadSequenceConfig,
) -> Seq<SequenceElement> {
    let gap = match prev {
        Some(t) => spec_gap_size(d.time - t, BASE_GAP_NANOS as int, config.gap_mode),
        None => None,
    };
    let size = spec_pad_size(d.size, false, config.padding);
    match config.simulated_countermeasure {
        SimulatedCountermeasure::NoCountermeasure => option_seq(gap) + seq![size],
        SimulatedCountermeasure::PerfectPadding => if prev is Some && gap is None {
            seq![SequenceElement::Gap(0)]
        } else {
            option_seq(gap)
        },
        SimulatedCountermeasure::PerfectTiming => seq![size],
    }
}

pub open spec fn option_seq<T>(o: Option<T>) -> Seq<T> {
    match o {
        Some(v) => seq![v],
        None => Seq::empty(),
    }
}

/// The time of the response before the last one, if there is one.
pub open spec fn prev_time(data: Seq<AbstractQueryResponse>) -> Option<i128> {
    if data.len() >= 2 {
        Some(data[data.len() - 2].time)
    } else {
        None
    }
}

/// The elements of the whole list of responses.
pub open spec fn spec_convert(
    data: Seq<AbstractQueryResponse>,
    config: LoadSequenceConfig,
) -> Seq<SequenceElement>
    decreases data.len(),
{
    if data.len() == 0 {
        Seq::empty()
    } else {
        spec_convert(data.drop_last(), config) + elements_for(prev_time(data), data.last(), config)
    }
}

/// Whether every response can be converted: its padded size fits 32 bits and the time to
/// its predecessor fits the gap counter.
pub open spec fn convertible(data: Seq<AbstractQueryResponse>) -> bool {
    &&& forall|i: int| 0 <= i < data.len() ==> pad_size_in_range(#[trigger] data[i].size, false, Padding::Q128R468)
    &&& forall|i: int|
        1 <= i < data.len() ==> gap_in_range(#[trigger] data[i].time - data[i - 1].time, BASE_GAP_NANOS as int)
}

fn elements_for_exec(
    prev: Option<i128>,
    d: AbstractQueryResponse,
    config: LoadSequenceConfig,
    out: &mut Vec<SequenceElement>,
)
    requires
        pad_size_in_range(d.size, false, config.padding),
        prev matches Some(t) ==> gap_in_range(d.time - t, BASE_GAP_NANOS as int),
        prev matches Some(t) ==> i128::MIN <= d.time - t <= i128::MAX,
    ensures
        final(out)@ == old(out)@ + elements_for(prev, d, config),
{
    let mut gap = match prev {
        Some(t) => gap_size(d.time - t, BASE_GAP_NANOS, config.gap_mode),
        None => None,
    };
    let mut size = Some(pad_size(d.size, false, config.padding));
    match config.simulated_countermeasure {
        SimulatedCountermeasure::NoCountermeasure => {},
        SimulatedCountermeasure::PerfectPadding => {
            if prev.is_some() && gap.is_none() {
                gap = Some(SequenceElement::Gap(0));
            }
            size = None;
        },
        SimulatedCountermeasure::PerfectTiming => {
            gap = None;
        },
    }
    let ghost before = out@;
    if let Some(g) = gap {
        out.push(g);
    }
    if let Some(s) = size {
        out.push(s);
    }
    assert(out@ =~= before + elements_for(prev, d, config));
}

/// Whether all time stamps are far enough from the limits of `i128` that differences of
/// neighbours can be taken.
pub open spec fn times_in_range(data: Seq<AbstractQueryResponse>) -> bool {
    forall|i: int|
        1 <= i < data.len() ==> i128::MIN <= #[trigger] data[i].time - data[i - 1].time <= i128::MAX
}

/// Whether responses can be converted into a sequence: see [`convertible`] and
/// [`times_in_range`].
pub fn responses_convertible(data: &[AbstractQueryResponse]) -> (r: bool)
    ensures
        r == (convertible(data@) && times_in_range(data@)),
{
    let mut i: usize = 0;
    while i < data.len()
        invariant
            i <= data@.len(),
            forall|j: int| 0 <= j < i ==> pad_size_in_range(#[trigger] data@[j].size, false, Padding::Q128R468),
            forall|j: int|
                1 <= j < i ==> gap_in_range(#[trigger] data@[j].time - data@[j - 1].time, BASE_GAP_NANOS as int),
            forall|j: int| 1 <= j < i ==> i128::MIN <= #[trigger] data@[j].time - data@[j - 1].time <= i128::MAX,
        decreases data@.len() - i,
    {
        let size = data[i].size as u64;
        let padded: u64 = if size % 468 == 0 {
            size
        } else {
            (size / 468 + 1) * 468
        };
        if padded > 0xffff_ffffu64 {
            assert(!pad_size_in_range(data@[i as int].size, false, Padding::Q128R468));
            return false;
        }
        if i > 0 {
            match data[i].time.checked_sub(data[i - 1].time) {
                None => {
                    assert(!(i128::MIN <= data@[i as int].time - data@[i - 1].time <= i128::MAX));
                    return false;
                },
                Some(gap) => {
                    if gap > BASE_GAP_NANOS && (gap - 1) / BASE_GAP_NANOS > 0x7fff_ffffi128 {
                        assert(!gap_in_range(data@[i as int].time - data@[i - 1].time, BASE_GAP_NANOS as int));
                        return false;
                    }
                },
            }
        }
        i = i + 1;
    }
    true
}

/// Builds a [`Sequence`] from responses; `None` if there are none.
///
/// Only the relative size (in padding blocks) and the relative time (in gaps) are kept.
pub fn convert_to_sequence(
    data: &[AbstractQueryResponse],
    identifier: String,
    config: LoadSequenceConfig,
) -> (r: Option<Sequence>)
    requires
        config.padding == Padding::Q128R468,
        convertible(data@),
        times_in_range(data@),
    ensures
        r is None <==> data@.len() == 0,
        r matches Some(s) ==> s.elements() == spec_convert(data@, config) && s.identifier()
            == identifier@,
{
    if data.len() == 0 {
        return None;
    }
    let mut out: Vec<SequenceElement> = Vec::new();
    let mut i: usize = 0;
    while i < data.len()
        invariant
            i <= data@.len(),
            config.padding == Padding::Q128R468,
            convertible(data@),
            times_in_range(data@),
            out@ == spec_convert(data@.take(i as int), config),
        decreases data@.len() - i,
    {
        let prev = if i == 0 {
            None
        } else {
            Some(data[i - 1].time)
        };
        let ghost pre = data@.take(i + 1);
        assert(pre.drop_last() =~= data@.take(i as int));
        assert(prev_time(pre) == prev);
        assert(pad_size_in_range(data@[i as int].size, false, Padding::Q128R468));
        proof {
            if i > 0 {
                assert(gap_in_range(data@[i as int].time - data@[i - 1].time, BASE_GAP_NANOS as int));
                assert(i128::MIN <= data@[i as int].time - data@[i - 1].time <= i128::MAX);
            }
        }
        elements_for_exec(prev, data[i], config, &mut out);
        i = i + 1;
    }
    assert(data@.take(data@.len() as int) =~= data@);
    Some(Sequence::new(out, identifier))
}

/// The configuration with another simulated countermeasure.
pub open spec fn with_countermeasure(config: LoadSequenceConfig, m: SimulatedCountermeasure) -> LoadSequenceConfig {
    LoadSequenceConfig { padding: config.padding, gap_mode: config.gap_mode, simulated_countermeasure: m }
}

/// Whether an element is a size.
pub open spec fn is_size(e: SequenceElement) -> bool {
    e is Size
}

/// Whether an element is a gap of at least one step.
pub open spec fn is_nonzero_gap(e: SequenceElement) -> bool {
    e is Gap && e != SequenceElement::Gap(0)
}

proof fn lemma_filter_one(x: SequenceElement, f: spec_fn(SequenceElement) -> bool)
    ensures
        seq![x].filter(f) == if f(x) {
            seq![x]
        } else {
            Seq::<SequenceElement>::empty()
        },
{
    reveal_with_fuel(Seq::filter, 2);
    assert(seq![x].drop_last() =~= Seq::<SequenceElement>::empty());
}

proof fn lemma_filter_option(o: Option<SequenceElement>, f: spec_fn(SequenceElement) -> bool)
    ensures
        option_seq(o).filter(f) == match o {
            Some(x) => if f(x) {
                seq![x]
            } else {
                Seq::<SequenceElement>::empty()
            },
            None => Seq::<SequenceElement>::empty(),
        },
{
    match o {
        Some(x) => lemma_filter_one(x, f),
        None => {
            reveal_with_fuel(Seq::filter, 1);
        },
    }
}

proof fn lemma_step_elements(data: Seq<AbstractQueryResponse>, config: LoadSequenceConfig)
    requires
        data.len() > 0,
    ensures
        ({
            let prev = prev_time(data);
            let d = data.last();
            let gap = match prev {
                Some(t) => spec_gap_size(d.time - t, BASE_GAP_NANOS as int, config.gap_mode),
                None => None,
            };
            let size = spec_pad_size(d.size, false, config.padding);
            &&& (prev is None <==> data.len() == 1)
            &&& size is Size
            &&& gap matches Some(x) ==> x is Gap
            &&& elements_for(prev, d, with_countermeasure(config, SimulatedCountermeasure::NoCountermeasure))
                == option_seq(gap) + seq![size]
            &&& elements_for(prev, d, with_countermeasure(config, SimulatedCountermeasure::PerfectTiming))
                == seq![size]
            &&& elements_for(prev, d, with_countermeasure(config, SimulatedCountermeasure::PerfectPadding))
                == if prev is Some && gap is None {
                seq![SequenceElement::Gap(0)]
            } else {
                option_seq(gap)
            }
        }),
{
}

/// With perfect timing, the sequence keeps only its sizes, one per response.
pub proof fn lemma_perfect_timing_keeps_sizes(data: Seq<AbstractQueryResponse>, config: LoadSequenceConfig)
    ensures
        spec_convert(data, with_countermeasure(config, SimulatedCountermeasure::PerfectTiming))
            == spec_convert(data, with_countermeasure(config, SimulatedCountermeasure::NoCountermeasure)).filter(
            |e: SequenceElement| is_size(e),
        ),
        spec_convert(data, with_countermeasure(config, SimulatedCountermeasure::PerfectTiming)).len()
            == data.len(),
    decreases data.len(),
{
    let fs = |e: SequenceElement| is_size(e);
    if data.len() == 0 {
        reveal_with_fuel(Seq::filter, 1);
    } else {
        let pre = data.drop_last();
        lemma_perfect_timing_keeps_sizes(pre, config);
        lemma_step_elements(data, config);
        let prev = prev_time(data);
        let d = data.last();
        let gap = match prev {
            Some(t) => spec_gap_size(d.time - t, BASE_GAP_NANOS as int, config.gap_mode),
            None => None,
        };
        let size = spec_pad_size(d.size, false, config.padding);
        let cs = with_countermeasure(config, SimulatedCountermeasure::NoCountermeasure);
        let es = elements_for(prev, d, cs);
        Seq::filter_distributes_over_add(spec_convert(pre, cs), es, fs);
        Seq::filter_distributes_over_add(option_seq(gap), seq![size], fs);
        lemma_filter_option(gap, fs);
        lemma_filter_one(size, fs);
        assert(es.filter(fs) =~= seq![size]);
    }
}

/// With perfect padding, the sequence holds gaps only, one fewer than there are responses.
pub proof fn lemma_perfect_padding_keeps_gaps(data: Seq<AbstractQueryResponse>, config: LoadSequenceConfig)
    ensures
        ({
            let p = spec_convert(data, with_countermeasure(config, SimulatedCountermeasure::PerfectPadding));
            &&& forall|i: int| 0 <= i < p.len() ==> (#[trigger] p[i]) is Gap
            &&& data.len() > 0 ==> p.len() == data.len() - 1
        }),
    decreases data.len(),
{
    if data.len() > 0 {
        let pre = data.drop_last();
        lemma_perfect_padding_keeps_gaps(pre, config);
        lemma_step_elements(data, config);
        let cp = with_countermeasure(config, SimulatedCountermeasure::PerfectPadding);
        let p0 = spec_convert(pre, cp);
        let ep = elements_for(prev_time(data), data.last(), cp);
        let p = p0 + ep;
        assert forall|i: int| 0 <= i < p.len() implies (#[trigger] p[i]) is Gap by {
            if i >= p0.len() {
                assert(p[i] == ep[i - p0.len()]);
            } else {
                assert(p[i] == p0[i]);
            }
        }
    }
}

/// The gaps of at least one step are the same with and without perfect padding.
pub proof fn lemma_perfect_padding_same_gaps(data: Seq<AbstractQueryResponse>, config: LoadSequenceConfig)
    ensures
        spec_convert(data, with_countermeasure(config, SimulatedCountermeasure::NoCountermeasure)).filter(
            |e: SequenceElement| is_nonzero_gap(e),
        ) == spec_convert(data, with_countermeasure(config, SimulatedCountermeasure::PerfectPadding)).filter(
            |e: SequenceElement| is_nonzero_gap(e),
        ),
    decreases data.len(),
{
    let fg = |e: SequenceElement| is_nonzero_gap(e);
    if data.len() == 0 {
        reveal_with_fuel(Seq::filter, 1);
    } else {
        let pre = data.drop_last();
        lemma_perfect_padding_same_gaps(pre, config);
        lemma_step_elements(data, config);
        let prev = prev_time(data);
        let d = data.last();
        let gap = match prev {
            Some(t) => spec_gap_size(d.time - t, BASE_GAP_NANOS as int, config.gap_mode),
            None => None,
        };
        let size = spec_pad_size(d.size, false, config.padding);
        let cs = with_countermeasure(config, SimulatedCountermeasure::NoCountermeasure);
        let cp = with_countermeasure(config, SimulatedCountermeasure::PerfectPadding);
        let es = elements_for(prev, d, cs);
        let ep = elements_for(prev, d, cp);
        Seq::filter_distributes_over_add(spec_convert(pre, cs), es, fg);
        Seq::filter_distributes_over_add(spec_convert(pre, cp), ep, fg);
        Seq::filter_distributes_over_add(option_seq(gap), seq![size], fg);
        lemma_filter_option(gap, fg);
        lemma_filter_one(size, fg);
        lemma_filter_one(SequenceElement::Gap(0), fg);
        if prev is Some && gap is None {
            assert(ep.filter(fg) =~= Seq::<SequenceElement>::empty());
            assert(es.filter(fg) =~= Seq::<SequenceElement>::empty());
        } else {
            assert(es.filter(fg) =~= option_seq(gap).filter(fg));
        }
    }
}

proof fn lemma_convertible_prefix(data: Seq<AbstractQueryResponse>)
    requires
        convertible(data),
        data.len() > 0,
    ensures
        convertible(data.drop_last()),
{
    let pre = data.drop_last();
    assert forall|i: int| 0 <= i < pre.len() implies pad_size_in_range(#[trigger] pre[i].size, false, Padding::Q128R468) by {
        assert(pre[i] == data[i]);
    }
    assert forall|i: int| 1 <= i < pre.len() implies gap_in_range(#[trigger] pre[i].time - pre[i - 1].time, BASE_GAP_NANOS as int) by {
        assert(pre[i] == data[i] && pre[i - 1] == data[i - 1]);
    }
}

proof fn lemma_gap_not_zero(gap: int, mode: GapMode)
    requires
        gap_in_range(gap, BASE_GAP_NANOS as int),
    ensures
        spec_gap_size(gap, BASE_GAP_NANOS as int, mode) matches Some(x) ==> x != SequenceElement::Gap(0),
{
    assert(pow2_nat(32) == 0x1_0000_0000) by {
        reveal_with_fuel(pow2_nat, 33);
    }
    let out = base_gaps(gap, BASE_GAP_NANOS as int);
    if out >= 0 {
        lemma_log2_floor_bound(out as nat, 32);
    }
}

/// The sizes with the gaps between them: the gap at position `i` stands between the sizes at
/// positions `i` and `i + 1`, and a gap of zero steps stands for no gap.
pub open spec fn merge_gaps(sizes: Seq<SequenceElement>, gaps: Seq<SequenceElement>) -> Seq<SequenceElement>
    decreases sizes.len(),
{
    if sizes.len() == 0 {
        Seq::empty()
    } else if sizes.len() == 1 {
        seq![sizes[0]]
    } else {
        merge_gaps(sizes.drop_last(), gaps.drop_last()) + (if gaps.last() == SequenceElement::Gap(0) {
            Seq::<SequenceElement>::empty()
        } else {
            seq![gaps.last()]
        }) + seq![sizes.last()]
    }
}

/// The sequence without countermeasure is the sequence under perfect timing (the sizes, one
/// per response) with the sequence under perfect padding (one gap between each two
/// neighbouring responses) woven in: the gap at position `i` of the latter stands between the
/// sizes at positions `i` and `i + 1`, unless it is a gap of zero steps, which stands for none.
pub proof fn lemma_countermeasures_interleave(data: Seq<AbstractQueryResponse>, config: LoadSequenceConfig)
    requires
        convertible(data),
    ensures
        spec_convert(data, with_countermeasure(config, SimulatedCountermeasure::NoCountermeasure))
            == merge_gaps(
            spec_convert(data, with_countermeasure(config, SimulatedCountermeasure::PerfectTiming)),
            spec_convert(data, with_countermeasure(config, SimulatedCountermeasure::PerfectPadding)),
        ),
    decreases data.len(),
{
    let cs = with_countermeasure(config, SimulatedCountermeasure::NoCountermeasure);
    let ct = with_countermeasure(config, SimulatedCountermeasure::PerfectTiming);
    let cp = with_countermeasure(config, SimulatedCountermeasure::PerfectPadding);
    if data.len() > 0 {
        let pre = data.drop_last();
        lemma_convertible_prefix(data);
        lemma_countermeasures_interleave(pre, config);
        lemma_step_elements(data, config);
        lemma_perfect_timing_keeps_sizes(data, config);
        lemma_perfect_timing_keeps_sizes(pre, config);
        let prev = prev_time(data);
        let d = data.last();
        let gap = match prev {
            Some(t) => spec_gap_size(d.time - t, BASE_GAP_NANOS as int, config.gap_mode),
            None => None,
        };
        let size = spec_pad_size(d.size, false, config.padding);
        let s = spec_convert(data, cs);
        let t = spec_convert(data, ct);
        let p = spec_convert(data, cp);
        assert(t.drop_last() =~= spec_convert(pre, ct));
        assert(t.last() == size);
        if data.len() == 1 {
            assert(pre.len() == 0);
            assert(s =~= seq![size]);
        } else {
            assert(p.drop_last() =~= spec_convert(pre, cp));
            let n = data.len() as int;
            assert(gap_in_range(data[n - 1].time - data[n - 2].time, BASE_GAP_NANOS as int));
            lemma_gap_not_zero(d.time - prev.unwrap(), config.gap_mode);
            if gap is None {
                assert(p.last() == SequenceElement::Gap(0));
                assert(s =~= spec_convert(pre, cs) + Seq::<SequenceElement>::empty() + seq![size]);
            } else {
                assert(p.last() == gap.unwrap());
                assert(s =~= spec_convert(pre, cs) + seq![gap.unwrap()] + seq![size]);
            }
        }
    }
}

} // verus!
