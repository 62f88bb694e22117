//! Checks, resampling and interval annualizers of a daily observation series.
use vstd::prelude::*;
use vstd::arithmetic::div_mod::{lemma_fundamental_div_mod, lemma_mod_pos_bound};
use vstd::arithmetic::mul::lemma_mul_inequality;
use crate::units::{units_text, Backing, BACKING_DECIMALS};

verus! {

pub const DAY_IN_SECONDS: u64 = 24 * 60 * 60;

/// Blocks between two consecutive observations: one day of 12-second blocks.
pub const BLOCK_GRANULARITY: u64 = DAY_IN_SECONDS / 12;

/// Blocks spanned by the window of observations that is queried.
pub const BLOCKS_TO_QUERY: u64 = (3 * DAY_IN_SECONDS) / 12;

pub const SECONDS_PER_YEAR: u64 = DAY_IN_SECONDS * 365;

/// One on-chain measurement of the backing value at a block.
#[derive(Clone, Copy, Debug, PartialEq, Eq)]
pub struct DexStatsInput {
    pub timestamp: u64,
    pub block_number: u64,
    pub lst_backing: Backing,
}

/// Why no yield can be computed from a series.
#[derive(Clone, Copy, Debug, PartialEq, Eq)]
pub enum DexStatsError {
    /// The series is empty.
    InputTooShort,
    /// Some block number does not exceed the one before it.
    NotSorted,
    /// Some pair of consecutive block numbers is not `BLOCK_GRANULARITY` apart.
    WrongGranularity,
    /// Resampling left fewer than two observations, so there is no interval.
    ResampledInsufficient,
    /// Some resampled timestamp does not exceed the one before it.
    TimestampsNotIncreasing,
}

impl DexStatsError {
    /// Whether this error says that there was too little data.
    pub fn is_insufficient_data(&self) -> (r: bool)
        ensures
            r <==> (*self == DexStatsError::InputTooShort || *self
                == DexStatsError::ResampledInsufficient),
    {
        match self {
            DexStatsError::InputTooShort => true,
            DexStatsError::ResampledInsufficient => true,
            _ => false,
        }
    }
}

/// Observation `i` has a larger block number than observation `i - 1`.
pub open spec fn pair_sorted(s: Seq<DexStatsInput>, i: int) -> bool {
    s[i - 1].block_number < s[i].block_number
}

/// Observations `i - 1` and `i` are exactly `BLOCK_GRANULARITY` blocks apart.
pub open spec fn pair_spaced(s: Seq<DexStatsInput>, i: int) -> bool {
    s[i].block_number - s[i - 1].block_number == BLOCK_GRANULARITY
}

/// Every consecutive pair that ends before index `i` is sorted and spaced.
pub open spec fn pairs_ok_before(s: Seq<DexStatsInput>, i: int) -> bool {
    forall|j: int| 1 <= j < i ==> #[trigger] pair_sorted(s, j) && pair_spaced(s, j)
}

/// A non-empty series of strictly increasing, evenly spaced block numbers.
pub open spec fn valid_series(s: Seq<DexStatsInput>) -> bool {
    s.len() > 0 && pairs_ok_before(s, s.len() as int)
}

/// The first faulty pair of the series is out of order.
pub open spec fn first_fault_unsorted(s: Seq<DexStatsInput>) -> bool {
    exists|i: int| 1 <= i < s.len() && pairs_ok_before(s, i) && !#[trigger] pair_sorted(s, i)
}

/// The first faulty pair of the series is in order but badly spaced.
pub open spec fn first_fault_spacing(s: Seq<DexStatsInput>) -> bool {
    exists|i: int|
        1 <= i < s.len() && pairs_ok_before(s, i) && #[trigger] pair_sorted(s, i) && !pair_spaced(
            s,
            i,
        )
}

/// The check of a series, as a value: `None` when it is valid.
pub open spec fn series_fault(s: Seq<DexStatsInput>) -> Option<DexStatsError> {
    if s.len() == 0 {
        Some(DexStatsError::InputTooShort)
    } else if first_fault_unsorted(s) {
        Some(DexStatsError::NotSorted)
    } else if first_fault_spacing(s) {
        Some(DexStatsError::WrongGranularity)
    } else {
        None
    }
}

/// Checks that the series is non-empty and that its block numbers increase by
/// exactly `BLOCK_GRANULARITY` from one observation to the next; the first
/// faulty pair decides the error.
pub fn validate_series(input: &Vec<DexStatsInput>) -> (r: Result<(), DexStatsError>)
    ensures
        r is Ok <==> valid_series(input@),
        r is Ok <==> series_fault(input@) is None,
        r matches Err(e) ==> series_fault(input@) == Some(e),
{
    if input.len() == 0 {
        return Err(DexStatsError::InputTooShort);
    }
    let mut i: usize = 1;
    while i < input.len()
        invariant
            1 <= i <= input@.len(),
            pairs_ok_before(input@, i as int),
        decreases input@.len() - i,
    {
        let prior = input[i - 1].block_number;
        let current = input[i].block_number;
        if current <= prior {
            proof {
                assert(!pair_sorted(input@, i as int));
                assert(first_fault_unsorted(input@));
            }
            return Err(DexStatsError::NotSorted);
        }
        if current - prior != BLOCK_GRANULARITY {
            proof {
                assert(pair_sorted(input@, i as int) && !pair_spaced(input@, i as int));
                assert(first_fault_spacing(input@));
                lemma_no_unsorted_before_spacing_fault(input@, i as int);
            }
            return Err(DexStatsError::WrongGranularity);
        }
        proof {
            let s = input@;
            let n = (i + 1) as int;
            assert(pair_sorted(s, i as int) && pair_spaced(s, i as int));
            assert forall|j: int| 1 <= j < n implies #[trigger] pair_sorted(s, j) && pair_spaced(s, j) by {
                if j < i {
                    assert(pairs_ok_before(s, i as int));
                }
            }
            assert(pairs_ok_before(s, n));
        }
        i = i + 1;
    }
    proof {
        lemma_valid_has_no_fault(input@);
    }
    Ok(())
}

proof fn lemma_no_unsorted_before_spacing_fault(s: Seq<DexStatsInput>, i: int)
    requires
        1 <= i < s.len(),
        pairs_ok_before(s, i),
        pair_sorted(s, i),
        !pair_spaced(s, i),
    ensures
        !first_fault_unsorted(s),
{
    if first_fault_unsorted(s) {
        let k = choose|k: int| 1 <= k < s.len() && pairs_ok_before(s, k) && !#[trigger] pair_sorted(s, k);
        if k < i {
            assert(pair_sorted(s, k));
        } else if k > i {
            assert(pair_sorted(s, i) && pair_spaced(s, i));
        }
    }
}

proof fn lemma_valid_has_no_fault(s: Seq<DexStatsInput>)
    requires
        valid_series(s),
    ensures
        !first_fault_unsorted(s),
        !first_fault_spacing(s),
{
    if first_fault_unsorted(s) {
        let k = choose|k: int| 1 <= k < s.len() && pairs_ok_before(s, k) && !#[trigger] pair_sorted(s, k);
        assert(pair_sorted(s, k));
    }
    if first_fault_spacing(s) {
        let k = choose|k: int|
            1 <= k < s.len() && pairs_ok_before(s, k) && #[trigger] pair_sorted(s, k) && !pair_spaced(s, k);
        assert(pair_sorted(s, k));
    }
}

/// How many observations a series of `len` keeps at stride `k`: one for each
/// multiple of `k` among the offsets `0 ..= len - 1` counted back from the newest.
pub open spec fn resample_count(len: nat, k: nat) -> nat {
    if len == 0 {
        0
    } else {
        ((len - 1) as nat / k + 1) as nat
    }
}

/// Index in the series of the `m`-th kept observation, oldest first.
pub open spec fn resample_position(len: nat, k: nat, m: int) -> int {
    len - 1 - (resample_count(len, k) - 1 - m) * k
}

/// Every `k`-th observation counted back from the newest one, in
/// chronological order.
pub open spec fn resample_spec<A>(s: Seq<A>, k: nat) -> Seq<A> {
    Seq::new(resample_count(s.len(), k), |m: int| s[resample_position(s.len(), k, m)])
}

proof fn lemma_resample_position_bounds(len: nat, k: nat, m: int)
    requires
        k >= 1,
        0 <= m < resample_count(len, k),
    ensures
        (len - 1) as nat % k <= resample_position(len, k, m) < len,
        resample_position(len, k, 0) == (len - 1) as nat % k,
{
    let last = (len - 1) as nat;
    let c = resample_count(len, k);
    lemma_fundamental_div_mod(last as int, k as int);
    lemma_mod_pos_bound(last as int, k as int);
    lemma_mul_inequality(c - 1 - m, c - 1, k as int);
    assert((c - 1) * k == k * (last / k)) by (nonlinear_arith)
        requires
            c - 1 == last / k,
    ;
}

/// Keeps every `skip`-th observation counted back from the newest one (which
/// is always kept), and returns them in chronological order.
pub fn resample(input: &Vec<DexStatsInput>, skip: usize) -> (r: Vec<DexStatsInput>)
    requires
        skip >= 1,
    ensures
        r@ == resample_spec(input@, skip as nat),
{
    let mut out: Vec<DexStatsInput> = Vec::new();
    if input.len() == 0 {
        assert(out@ =~= resample_spec(input@, skip as nat));
        return out;
    }
    let last: usize = input.len() - 1;
    let count: usize = last / skip + 1;
    let ghost want = resample_spec(input@, skip as nat);
    let mut m: usize = 0;
    while m < count
        invariant
            input@.len() == last + 1,
            count == resample_count(input@.len(), skip as nat),
            want == resample_spec(input@, skip as nat),
            skip >= 1,
            m <= count,
            out@ == want.take(m as int),
        decreases count - m,
    {
        proof {
            lemma_resample_position_bounds(input@.len(), skip as nat, m as int);
        }
        let back: usize = (count - 1 - m) * skip;
        out.push(input[last - back]);
        proof {
            assert(out@ =~= want.take(m + 1));
        }
        m = m + 1;
    }
    assert(out@ =~= want);
    out
}

/// The timestamps of the points strictly increase.
pub open spec fn timestamps_increasing(p: Seq<DexStatsInput>) -> bool {
    forall|i: int| 1 <= i < p.len() ==> #[trigger] p[i - 1].timestamp < p[i].timestamp
}

/// Whole intervals of length `p[i + 1].timestamp - p[i].timestamp` in a year
/// of 365 days.
pub open spec fn interval_annualizer(p: Seq<DexStatsInput>, i: int) -> int {
    SECONDS_PER_YEAR as int / (p[i + 1].timestamp - p[i].timestamp)
}

/// For each consecutive pair of points, the number of whole intervals
/// between them that fit in a year; fails when a timestamp does not exceed
/// the one before it.
pub fn annualizers(points: &Vec<DexStatsInput>) -> (r: Result<Vec<u64>, DexStatsError>)
    ensures
        r is Ok <==> timestamps_increasing(points@),
        r matches Err(e) ==> e == DexStatsError::TimestampsNotIncreasing,
        r matches Ok(a) ==> {
            &&& a@.len() == (if points@.len() == 0 { 0 } else { points@.len() - 1 })
            &&& forall|i: int| 0 <= i < a@.len() ==> a@[i] == interval_annualizer(points@, i)
        },
{
    let mut out: Vec<u64> = Vec::new();
    let mut i: usize = 1;
    while i < points.len()
        invariant
            1 <= i,
            i <= points@.len() || (points@.len() == 0 && i == 1),
            out@.len() == i - 1,
            forall|j: int| 1 <= j < i ==> #[trigger] points@[j - 1].timestamp < points@[j].timestamp,
            forall|j: int| 0 <= j < out@.len() ==> out@[j] == interval_annualizer(points@, j),
        decreases points@.len() - i,
    {
        let prior = points[i - 1].timestamp;
        let current = points[i].timestamp;
        if current <= prior {
            return Err(DexStatsError::TimestampsNotIncreasing);
        }
        let delta: u64 = current - prior;
        let a: u64 = SECONDS_PER_YEAR / delta;
        assert(a == interval_annualizer(points@, i - 1));
        out.push(a);
        i = i + 1;
    }
    Ok(out)
}

/// What is needed to average the annualized growth of a series: the decimal
/// text of each kept backing value, and the annualizer of each interval
/// between two kept observations.
pub struct DexStatsPlan {
    pub backing_texts: Vec<String>,
    pub annualizers: Vec<u64>,
}

/// The error, if any, that preparing the series `s` at stride `k` ends in.
pub open spec fn plan_fault(s: Seq<DexStatsInput>, k: nat) -> Option<DexStatsError> {
    if series_fault(s) is Some {
        series_fault(s)
    } else if resample_count(s.len(), k) < 2 {
        Some(DexStatsError::ResampledInsufficient)
    } else if !timestamps_increasing(resample_spec(s, k)) {
        Some(DexStatsError::TimestampsNotIncreasing)
    } else {
        None
    }
}

/// Checks the series, resamples it at stride `skip`, and prepares each kept
/// backing value as text with `BACKING_DECIMALS` places and each interval's
/// annualizer. The base yield is the mean over the intervals of
/// `(current / prior - 1) * annualizer`.
pub fn prepare_dex_stats(input: &Vec<DexStatsInput>, skip: usize) -> (r: Result<
    DexStatsPlan,
    DexStatsError,
>)
    requires
        skip >= 1,
    ensures
        r is Ok <==> plan_fault(input@, skip as nat) is None,
        r matches Err(e) ==> plan_fault(input@, skip as nat) == Some(e),
        r matches Ok(p) ==> {
            let kept = resample_spec(input@, skip as nat);
            &&& p.backing_texts@.len() == kept.len()
            &&& forall|i: int|
                0 <= i < kept.len() ==> #[trigger] p.backing_texts@[i]@ == units_text(
                    kept[i].lst_backing.value(),
                    BACKING_DECIMALS as nat,
                )
            &&& p.annualizers@.len() == kept.len() - 1
            &&& forall|i: int|
                0 <= i < p.annualizers@.len() ==> p.annualizers@[i] == interval_annualizer(
                    kept,
                    i,
                )
        },
{
    match validate_series(input) {
        Ok(()) => {},
        Err(e) => {
            return Err(e);
        },
    }
    let kept = resample(input, skip);
    if kept.len() < 2 {
        return Err(DexStatsError::ResampledInsufficient);
    }
    let annualizers = match annualizers(&kept) {
        Ok(a) => a,
        Err(e) => {
            return Err(e);
        },
    };
    let mut backing_texts: Vec<String> = Vec::new();
    let mut i: usize = 0;
    while i < kept.len()
        invariant
            i <= kept@.len(),
            backing_texts@.len() == i,
            forall|j: int|
                0 <= j < i ==> #[trigger] backing_texts@[j]@ == units_text(
                    kept@[j].lst_backing.value(),
                    BACKING_DECIMALS as nat,
                ),
        decreases kept@.len() - i,
    {
        let text = kept[i].lst_backing.units_text(BACKING_DECIMALS).unwrap();
        backing_texts.push(text);
        i = i + 1;
    }
    Ok(DexStatsPlan { backing_texts, annualizers })
}

proof fn lemma_fault_or_ok(s: Seq<DexStatsInput>, n: int)
    requires
        1 <= n <= s.len(),
    ensures
        pairs_ok_before(s, n) || first_fault_unsorted(s) || first_fault_spacing(s),
    decreases n,
{
    if n > 1 {
        lemma_fault_or_ok(s, n - 1);
        if pairs_ok_before(s, n - 1) {
            let i = n - 1;
            if !pair_sorted(s, i) {
                assert(first_fault_unsorted(s));
            } else if !pair_spaced(s, i) {
                assert(first_fault_spacing(s));
            } else {
                assert forall|j: int| 1 <= j < n implies #[trigger] pair_sorted(s, j) && pair_spaced(
                    s,
                    j,
                ) by {
                    if j < i {
                        assert(pairs_ok_before(s, i));
                    }
                }
            }
        }
    }
}

proof fn lemma_no_fault_is_valid(s: Seq<DexStatsInput>)
    requires
        series_fault(s) is None,
    ensures
        valid_series(s),
{
    lemma_fault_or_ok(s, s.len() as int);
}

/// A series with a block number that does not exceed the one before it, at
/// any position, is refused, whatever the stride.
pub proof fn lemma_unsorted_series_fails(s: Seq<DexStatsInput>, i: int, k: nat)
    requires
        1 <= i < s.len(),
        s[i].block_number <= s[i - 1].block_number,
        k >= 1,
    ensures
        series_fault(s) is Some,
        plan_fault(s, k) == series_fault(s),
{
    if series_fault(s) is None {
        lemma_no_fault_is_valid(s);
        assert(pair_sorted(s, i));
    }
}

/// A series with two consecutive block numbers that are not exactly
/// `BLOCK_GRANULARITY` apart, at any position, is refused, whatever the stride.
pub proof fn lemma_misspaced_series_fails(s: Seq<DexStatsInput>, i: int, k: nat)
    requires
        1 <= i < s.len(),
        s[i].block_number - s[i - 1].block_number != BLOCK_GRANULARITY,
        k >= 1,
    ensures
        series_fault(s) is Some,
        plan_fault(s, k) == series_fault(s),
{
    if series_fault(s) is None {
        lemma_no_fault_is_valid(s);
        assert(pair_sorted(s, i) && pair_spaced(s, i));
    }
}

/// An empty series is too short, and a single observation leaves no interval
/// to average over, whatever the stride.
pub proof fn lemma_too_little_data(s: Seq<DexStatsInput>, k: nat)
    requires
        s.len() <= 1,
        k >= 1,
    ensures
        s.len() == 0 ==> plan_fault(s, k) == Some(DexStatsError::InputTooShort),
        s.len() == 1 ==> plan_fault(s, k) == Some(DexStatsError::ResampledInsufficient),
{
    if s.len() == 1 {
        assert(!first_fault_unsorted(s));
        assert(!first_fault_spacing(s));
        assert(0nat / k == 0) by (nonlinear_arith)
            requires
                k >= 1,
        ;
    }
}

/// Resampling at stride one keeps the series as it is.
pub proof fn lemma_resample_stride_one<A>(s: Seq<A>)
    ensures
        resample_spec(s, 1) == s,
{
    if s.len() > 0 {
        assert(((s.len() - 1) as nat) / 1nat == (s.len() - 1) as nat);
    }
    assert(resample_spec(s, 1) =~= s);
}

/// Resampling at stride `k` keeps the newest observation, keeps observations
/// exactly `k` apart in the series, and leaves fewer than `k` older ones out
/// before the first kept one.
pub proof fn lemma_resample_keeps_newest_evenly<A>(s: Seq<A>, k: nat)
    requires
        k >= 1,
        s.len() > 0,
    ensures
        resample_spec(s, k).len() >= 1,
        resample_spec(s, k).last() == s.last(),
        forall|m: int|
            0 <= m < resample_spec(s, k).len() ==> #[trigger] resample_spec(s, k)[m]
                == s[resample_position(s.len(), k, m)],
        forall|m: int|
            1 <= m < resample_spec(s, k).len() ==> #[trigger] resample_position(s.len(), k, m)
                - resample_position(s.len(), k, m - 1) == k,
        0 <= resample_position(s.len(), k, 0) < k,
{
    let r = resample_spec(s, k);
    lemma_resample_position_bounds(s.len(), k, 0);
    lemma_mod_pos_bound((s.len() - 1) as int, k as int);
    assert forall|m: int| 1 <= m < r.len() implies #[trigger] resample_position(s.len(), k, m)
        - resample_position(s.len(), k, m - 1) == k by {
        let c = resample_count(s.len(), k) as int;
        assert((c - 1 - (m - 1)) * k == (c - 1 - m) * k + k) by (nonlinear_arith);
    }
}

} // verus!
