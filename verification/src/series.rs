//! The time-series engine: records bucketed into fixed-width segments, with
//! representative values and per-second deltas recomputed incrementally for
//! the segments touched since the last synchronisation.
use crate::num::{f64_bits_finite, is_finite_bits, FloatArith, SecondsNonZeroU64, SecondsU64};
use crate::record::{flat_spec, viewed, MetricValue, MetricView, Record};
use crate::sortedmap::{SortKey, SortedMap};
use vstd::prelude::*;

verus! {

/// A number as the engine computes with it: a signed integer or a binary64
/// bit pattern.
#[derive(Clone, Copy, PartialEq, Eq, Structural, Debug)]
pub enum Num {
    Int(i64),
    Float(u64),
}

/// The value standing in for all raw samples of one metric in one segment:
/// a numeric average, or the set of distinct values when averaging is not
/// meaningful.
pub enum RepresentativeValue {
    Avg(Num),
    Distinct(SortedMap<MetricValue, ()>),
}

impl RepresentativeValue {
    /// The placeholder before any synchronisation: an empty set of values.
    pub fn empty() -> (r: Self)
        ensures
            rv_wf(r),
            r is Distinct,
            forall|v: MetricView| !rv_contains(r, v),
    {
        RepresentativeValue::Distinct(SortedMap::new())
    }
}

/// Structural soundness of a representative value.
pub open spec fn rv_wf(rv: RepresentativeValue) -> bool {
    match rv {
        RepresentativeValue::Avg(_) => true,
        RepresentativeValue::Distinct(m) => m.wf(),
    }
}

/// The average, when the representative value is an integer average.
pub open spec fn rv_avg_int(rv: RepresentativeValue) -> Option<i64> {
    match rv {
        RepresentativeValue::Avg(Num::Int(x)) => Some(x),
        _ => None,
    }
}

/// Membership in a set-valued representative.
pub open spec fn rv_contains(rv: RepresentativeValue, v: MetricView) -> bool {
    match rv {
        RepresentativeValue::Distinct(m) => m.spec_contains(v),
        _ => false,
    }
}

/// The views of a sequence of raw samples.
pub open spec fn raw_views(s: Seq<MetricValue>) -> Seq<MetricView> {
    s.map_values(|m: MetricValue| m@)
}

/// Every sample is an integer.
pub open spec fn all_integers(s: Seq<MetricView>) -> bool {
    forall|i: int| 0 <= i < s.len() ==> s[i] is Integer
}

/// Every sample is numeric.
pub open spec fn all_numbers(s: Seq<MetricView>) -> bool {
    forall|i: int| 0 <= i < s.len() ==> (s[i] is Integer || s[i] is Float)
}

/// The integer carried by a view, zero for the other kinds.
pub open spec fn int_of(v: MetricView) -> int {
    match v {
        MetricView::Integer(x) => x as int,
        _ => 0,
    }
}

/// The sum of the integers in a sequence of views.
pub open spec fn sum_integers(s: Seq<MetricView>) -> int
    decreases s.len(),
{
    if s.len() == 0 {
        0
    } else {
        sum_integers(s.drop_last()) + int_of(s.last())
    }
}

/// Every left-to-right partial sum stays in the signed 64-bit range.
pub open spec fn partial_sums_ok(s: Seq<MetricView>) -> bool {
    forall|i: int|
        0 <= i <= s.len() ==> i64::MIN <= #[trigger] sum_integers(s.take(i)) <= i64::MAX
}

/// Division truncating toward zero, as machine division does.
pub open spec fn trunc_div(a: int, b: int) -> int {
    if a >= 0 {
        a / b
    } else {
        -((-a) / b)
    }
}

/// What a synchronised representative value must be, given the raw samples:
/// exactly the truncated integer mean when every sample is an integer and no
/// partial sum overflows; a finite floating average or the distinct set when
/// the samples are numeric but not integer-averageable; always the distinct
/// set when some sample is not a number.
pub open spec fn rep_ok(raws: Seq<MetricView>, rv: RepresentativeValue) -> bool {
    &&& rv_wf(rv)
    &&& (all_integers(raws) && partial_sums_ok(raws) && 1 <= raws.len() <= i64::MAX) ==> rv
        == RepresentativeValue::Avg(
        Num::Int(trunc_div(sum_integers(raws), raws.len() as int) as i64),
    )
    &&& (rv is Avg && !(all_integers(raws) && partial_sums_ok(raws) && 1 <= raws.len()
        <= i64::MAX)) ==> (
    all_numbers(raws) && (rv matches RepresentativeValue::Avg(Num::Float(b)) && f64_bits_finite(b)))
    &&& (rv is Distinct) ==> (forall|v: MetricView| rv_contains(rv, v) <==> raws.contains(v))
    &&& !all_numbers(raws) ==> rv is Distinct
}

/// What a synchronised per-second delta must be, given this segment's and
/// the preceding segment's representative values: absent unless both are
/// averages; the exact truncated rate for two integer averages whose
/// difference is representable; a finite floating rate or absent otherwise.
pub open spec fn delta_ok(
    cur: RepresentativeValue,
    prev: RepresentativeValue,
    dur: u64,
    d: Option<Num>,
) -> bool {
    &&& (!(cur is Avg) || !(prev is Avg)) ==> d is None
    &&& (rv_avg_int(cur) is Some && rv_avg_int(prev) is Some) ==> {
        let x = rv_avg_int(cur)->Some_0 as int;
        let y = rv_avg_int(prev)->Some_0 as int;
        if i64::MIN <= x - y <= i64::MAX {
            d == Some(Num::Int(trunc_div(x - y, dur as int) as i64))
        } else {
            d is None
        }
    }
    &&& (cur is Avg && prev is Avg && !(rv_avg_int(cur) is Some && rv_avg_int(prev) is Some))
        ==> (d is None || (d matches Some(Num::Float(b)) && f64_bits_finite(b)))
}

/// The bit pattern a number contributes to floating arithmetic.
fn num_to_bits<F: FloatArith>(ops: &F, n: Num) -> u64 {
    match n {
        Num::Int(x) => ops.of_i64(x),
        Num::Float(b) => b,
    }
}

/// The sum of two numbers: exact integer addition when both are integers
/// and the sum is representable; a finite floating sum otherwise, or
/// nothing when neither works.
pub fn num_add<F: FloatArith>(ops: &F, a: Num, b: Num) -> (r: Option<Num>)
    ensures
        (a is Int && b is Int) ==> {
            let s = a->Int_0 as int + b->Int_0 as int;
            if i64::MIN <= s <= i64::MAX {
                r == Some(Num::Int((a->Int_0 + b->Int_0) as i64))
            } else {
                r is None
            }
        },
        !(a is Int && b is Int) ==> (r is None || (r matches Some(Num::Float(bits))
            && f64_bits_finite(bits))),
{
    match (a, b) {
        (Num::Int(x), Num::Int(y)) => {
            match x.checked_add(y) {
                Some(s) => Some(Num::Int(s)),
                None => None,
            }
        },
        _ => {
            let bits = ops.add(num_to_bits(ops, a), num_to_bits(ops, b));
            if is_finite_bits(bits) {
                Some(Num::Float(bits))
            } else {
                None
            }
        },
    }
}

/// The per-second rate of change from `b` to `a` over a segment of `dur`
/// seconds: exact truncated integer arithmetic when both are integers, a
/// finite floating rate otherwise, or nothing.
pub fn num_delta<F: FloatArith>(ops: &F, a: Num, b: Num, dur: u64) -> (r: Option<Num>)
    requires
        dur >= 1,
    ensures
        (a is Int && b is Int) ==> {
            let diff = a->Int_0 as int - b->Int_0 as int;
            if i64::MIN <= diff <= i64::MAX {
                r == Some(Num::Int(trunc_div(diff, dur as int) as i64))
            } else {
                r is None
            }
        },
        !(a is Int && b is Int) ==> (r is None || (r matches Some(Num::Float(bits))
            && f64_bits_finite(bits))),
{
    match (a, b) {
        (Num::Int(x), Num::Int(y)) => {
            match x.checked_sub(y) {
                Some(diff) => {
                    let q: i64 = if dur <= 0x7fff_ffff_ffff_ffff {
                        diff / (dur as i64)
                    } else if diff == i64::MIN && dur == 0x8000_0000_0000_0000 {
                        -1
                    } else {
                        0
                    };
                    proof {
                        lemma_trunc_div_is_exec_div(diff as int, dur as int);
                    }
                    Some(Num::Int(q))
                },
                None => None,
            }
        },
        _ => {
            let bits = ops.div(ops.sub(num_to_bits(ops, a), num_to_bits(ops, b)), ops.of_u64(dur));
            if is_finite_bits(bits) {
                Some(Num::Float(bits))
            } else {
                None
            }
        },
    }
}

/// Truncating division of a representable difference by a positive divisor
/// stays representable, and machine division computes it; a divisor beyond
/// the signed range forces the quotient to zero.
proof fn lemma_trunc_div_is_exec_div(a: int, b: int)
    requires
        i64::MIN <= a <= i64::MAX,
        b >= 1,
    ensures
        i64::MIN <= trunc_div(a, b) <= i64::MAX,
        b > i64::MAX && -a < b ==> trunc_div(a, b) == 0,
        b > i64::MAX && -a == b ==> trunc_div(a, b) == -1,
{
    if a >= 0 {
        vstd::arithmetic::div_mod::lemma_div_nonincreasing(a, b);
        vstd::arithmetic::div_mod::lemma_div_pos_is_pos(a, b);
        if b > i64::MAX {
            vstd::arithmetic::div_mod::lemma_basic_div(a, b);
        }
    } else {
        vstd::arithmetic::div_mod::lemma_div_nonincreasing(-a, b);
        vstd::arithmetic::div_mod::lemma_div_pos_is_pos(-a, b);
        if b > i64::MAX {
            if -a < b {
                vstd::arithmetic::div_mod::lemma_basic_div(-a, b);
            } else {
                vstd::arithmetic::div_mod::lemma_div_by_self(b);
            }
        }
    }
}

/// The representative value of the raw samples of one metric for one target
/// in one segment.
pub fn compute_representative<F: FloatArith>(ops: &F, raws: &Vec<MetricValue>) -> (r:
    RepresentativeValue)
    requires
        raws@.len() >= 1,
    ensures
        rep_ok(raw_views(raws@), r),
{
    let ghost views = raw_views(raws@);
    let n = raws.len();

    let mut all_int = true;
    let mut all_num = true;
    let mut i: usize = 0;
    while i < n
        invariant
            n == raws@.len(),
            views == raw_views(raws@),
            i <= n,
            all_int == forall|j: int| 0 <= j < i ==> views[j] is Integer,
            all_num == forall|j: int| 0 <= j < i ==> (views[j] is Integer || views[j] is Float),
        decreases n - i,
    {
        let ghost old_all_int = all_int;
        let ghost old_all_num = all_num;
        if !raws[i].is_integer() {
            all_int = false;
        }
        if !raws[i].is_number() {
            all_num = false;
        }
        proof {
            assert(views[i as int] == raws@[i as int]@);
            assert forall|j: int| 0 <= j < i + 1 && all_int implies views[j] is Integer by {}
            if !all_int {
                if old_all_int && views[i as int] is Integer {
                    assert(false);
                }
            }
            if !all_num {
                if old_all_num && (views[i as int] is Integer || views[i as int] is Float) {
                    assert(false);
                }
            }
        }
        i = i + 1;
    }

    if all_int && n as u64 <= 0x7fff_ffff_ffff_ffff {
        let mut sum: i64 = 0;
        let mut ok = true;
        let mut i: usize = 0;
        while i < n
            invariant
                n == raws@.len(),
                views == raw_views(raws@),
                all_integers(views),
                i <= n,
                ok ==> sum as int == sum_integers(views.take(i as int)) && (forall|j: int|
                    0 <= j <= i ==> i64::MIN <= #[trigger] sum_integers(views.take(j)) <= i64::MAX),
                !ok ==> !partial_sums_ok(views),
            decreases n - i,
        {
            if ok {
                let v = match raws[i].as_i64() {
                    Some(v) => v,
                    None => 0,
                };
                proof {
                    assert(views[i as int] == raws@[i as int]@);
                    assert(views.take(i + 1).drop_last() =~= views.take(i as int));
                    assert(views.take(i + 1).last() == views[i as int]);
                }
                match sum.checked_add(v) {
                    Some(s) => {
                        sum = s;
                    },
                    None => {
                        proof {
                            assert(sum_integers(views.take(i + 1)) > i64::MAX || sum_integers(
                                views.take(i + 1),
                            ) < i64::MIN);
                            assert(!partial_sums_ok(views));
                        }
                        ok = false;
                    },
                }
            }
            i = i + 1;
        }
        if ok {
            proof {
                assert(views.take(n as int) =~= views);
            }
            let avg: i64 = sum / (n as i64);
            proof {
                lemma_exec_mean_is_trunc(sum as int, n as int);
            }
            return RepresentativeValue::Avg(Num::Int(avg));
        }
    }

    if all_num {
        // floating mean; the arithmetic itself comes from the embedder
        let mut acc: u64 = ops.of_u64(0);
        let mut i: usize = 0;
        while i < n
            invariant
                n == raws@.len(),
            decreases n - i,
        {
            let bits = match raws[i].as_i64() {
                Some(v) => ops.of_i64(v),
                None => {
                    match &raws[i] {
                        MetricValue::Float(b) => *b,
                        _ => 0,
                    }
                },
            };
            acc = ops.add(acc, bits);
            i = i + 1;
        }
        let mean = ops.div(acc, ops.of_u64(n as u64));
        if is_finite_bits(mean) {
            return RepresentativeValue::Avg(Num::Float(mean));
        }
    }

    let mut distinct: SortedMap<MetricValue, ()> = SortedMap::new();
    let mut i: usize = 0;
    while i < n
        invariant
            n == raws@.len(),
            views == raw_views(raws@),
            i <= n,
            distinct.wf(),
            forall|v: MetricView| #[trigger] distinct.spec_contains(v) <==> views.take(
                i as int,
            ).contains(v),
        decreases n - i,
    {
        let ghost pre = distinct;
        let v = raws[i].duplicate();
        distinct.insert(v, ());
        proof {
            assert(views[i as int] == raws@[i as int]@);
            assert forall|w: MetricView| #[trigger] distinct.spec_contains(w) <==> views.take(
                i + 1,
            ).contains(w) by {
                if distinct.spec_contains(w) {
                    if w == v@ {
                        assert(views.take(i + 1)[i as int] == w);
                    } else {
                        assert(pre.spec_contains(w));
                        let j = choose|j: int| 0 <= j < i && #[trigger] views.take(i as int)[j] == w;
                        assert(views.take(i + 1)[j] == w);
                    }
                }
                if views.take(i + 1).contains(w) {
                    let j = choose|j: int| 0 <= j < i + 1 && #[trigger] views.take(i + 1)[j] == w;
                    if j == i {
                        assert(w == v@);
                    } else {
                        assert(views.take(i as int)[j] == w);
                    }
                }
            }
        }
        i = i + 1;
    }
    proof {
        assert(views.take(n as int) =~= views);
    }
    RepresentativeValue::Distinct(distinct)
}

/// Machine division of a representable non-negative-count mean agrees with
/// truncating division and is representable.
proof fn lemma_exec_mean_is_trunc(sum: int, n: int)
    requires
        i64::MIN <= sum <= i64::MAX,
        1 <= n <= i64::MAX,
    ensures
        i64::MIN <= trunc_div(sum, n) <= i64::MAX,
{
    if sum >= 0 {
        vstd::arithmetic::div_mod::lemma_div_nonincreasing(sum, n);
        vstd::arithmetic::div_mod::lemma_div_pos_is_pos(sum, n);
    } else {
        vstd::arithmetic::div_mod::lemma_div_nonincreasing(-sum, n);
        vstd::arithmetic::div_mod::lemma_div_pos_is_pos(-sum, n);
    }
}


/// The per-(target, key) state inside one segment: the raw samples received
/// this segment, and the representative value and delta computed at the last
/// synchronisation.
pub struct SegmentValue {
    pub value: RepresentativeValue,
    pub delta: Option<Num>,
    pub raw_values: Vec<MetricValue>,
}

impl SegmentValue {
    /// The state before any sample: no raw values, an empty set as the
    /// placeholder representative, no delta.
    pub fn fresh() -> (r: Self)
        ensures
            r.raw_values@.len() == 0,
            r.delta is None,
            r.value is Distinct,
            rv_wf(r.value),
            forall|v: MetricView| !rv_contains(r.value, v),
    {
        SegmentValue { value: RepresentativeValue::empty(), delta: None, raw_values: Vec::new() }
    }
}

/// A representative value never stores a non-finite floating average.
pub open spec fn rv_float_finite(rv: RepresentativeValue) -> bool {
    match rv {
        RepresentativeValue::Avg(Num::Float(b)) => f64_bits_finite(b),
        _ => true,
    }
}

/// A stored per-key state always holds at least one sample.
pub open spec fn sv_ok(sv: SegmentValue) -> bool {
    &&& sv.raw_values@.len() >= 1
    &&& rv_wf(sv.value)
    &&& rv_float_finite(sv.value)
}

pub open spec fn sv_opt_ok(o: Option<SegmentValue>) -> bool {
    match o {
        Some(s) => sv_ok(s),
        None => true,
    }
}

/// The cross-target combination for one metric key within one segment.
pub struct AggregatedValue {
    pub sum: Option<RepresentativeValue>,
    pub delta: Option<Num>,
}

pub open spec fn agg_opt_ok(o: Option<AggregatedValue>) -> bool {
    match o {
        Some(av) => match av.sum {
            Some(rv) => rv_wf(rv),
            None => true,
        },
        None => true,
    }
}

/// Soundness of one target's per-key mapping.
pub open spec fn tv_ok(m: SortedMap<String, SegmentValue>) -> bool {
    &&& m.wf()
    &&& forall|k: Seq<char>| sv_opt_ok(#[trigger] m.spec_get(k))
}

pub open spec fn tv_opt_ok(o: Option<SortedMap<String, SegmentValue>>) -> bool {
    match o {
        Some(m) => tv_ok(m),
        None => true,
    }
}

/// One fixed-width time bucket: per-target per-key sample state, and the
/// aggregated cross-target values.
pub struct TimeSeriesSegment {
    pub start_time: SecondsU64,
    pub segment_duration: SecondsNonZeroU64,
    pub aggregated_values: SortedMap<String, AggregatedValue>,
    pub target_segment_values: SortedMap<String, SortedMap<String, SegmentValue>>,
}

impl TimeSeriesSegment {
    pub open spec fn wf(&self) -> bool {
        &&& self.segment_duration@ >= 1
        &&& self.aggregated_values.wf()
        &&& forall|k: Seq<char>| agg_opt_ok(#[trigger] self.aggregated_values.spec_get(k))
        &&& self.target_segment_values.wf()
        &&& forall|k: Seq<char>| tv_opt_ok(#[trigger] self.target_segment_values.spec_get(k))
    }

    /// An empty segment, also the stand-in for a missing predecessor.
    pub fn empty(segment_duration: SecondsNonZeroU64) -> (r: Self)
        ensures
            r.wf(),
            r.start_time@ == 0,
            r.segment_duration == segment_duration,
            r.aggregated_values.spec_len() == 0,
            r.target_segment_values.spec_len() == 0,
            forall|k: Seq<char>| r.aggregated_values.spec_get(k) is None,
            forall|k: Seq<char>| r.target_segment_values.spec_get(k) is None,
    {
        proof {
            use_type_invariant(&segment_duration);
        }
        TimeSeriesSegment {
            start_time: SecondsU64::new(0),
            segment_duration,
            aggregated_values: SortedMap::new(),
            target_segment_values: SortedMap::new(),
        }
    }

    /// The first instant after the segment.
    pub fn end_time(&self) -> (r: SecondsU64)
        requires
            self.start_time@ + self.segment_duration@ <= u64::MAX,
        ensures
            r@ == self.start_time@ + self.segment_duration@,
    {
        SecondsU64::new(self.start_time.get() + self.segment_duration.get())
    }
}

/// The predecessor segment's state for one target and key.
pub open spec fn prev_sv_of(prev: TimeSeriesSegment, target: Seq<char>, k: Seq<char>) -> Option<
    SegmentValue,
> {
    match prev.target_segment_values.spec_get(target) {
        Some(m) => m.spec_get(k),
        None => None,
    }
}

/// One per-key state after synchronisation: the raw samples untouched, the
/// representative value recomputed from them, and the delta recomputed
/// against the predecessor's state for the same target and key.
pub open spec fn sv_synced(
    osv: SegmentValue,
    psv: Option<SegmentValue>,
    dur: u64,
    nsv: SegmentValue,
) -> bool {
    &&& nsv.raw_values == osv.raw_values
    &&& rep_ok(raw_views(osv.raw_values@), nsv.value)
    &&& match psv {
        Some(p) => delta_ok(nsv.value, p.value, dur, nsv.delta),
        None => nsv.delta is None,
    }
}

pub open spec fn sv_synced_at(
    o: Option<SegmentValue>,
    psv: Option<SegmentValue>,
    dur: u64,
    n: Option<SegmentValue>,
) -> bool {
    match (o, n) {
        (Some(osv), Some(nsv)) => sv_synced(osv, psv, dur, nsv),
        (None, None) => true,
        _ => false,
    }
}

pub open spec fn tv_synced(
    otv: SortedMap<String, SegmentValue>,
    prev: TimeSeriesSegment,
    target: Seq<char>,
    dur: u64,
    ntv: SortedMap<String, SegmentValue>,
) -> bool {
    &&& ntv.wf()
    &&& ntv.kseq() == otv.kseq()
    &&& forall|k: Seq<char>|
        sv_synced_at(otv.spec_get(k), prev_sv_of(prev, target, k), dur, #[trigger] ntv.spec_get(k))
}

pub open spec fn tv_synced_at(
    o: Option<SortedMap<String, SegmentValue>>,
    prev: TimeSeriesSegment,
    target: Seq<char>,
    dur: u64,
    n: Option<SortedMap<String, SegmentValue>>,
) -> bool {
    match (o, n) {
        (Some(otv), Some(ntv)) => tv_synced(otv, prev, target, dur, ntv),
        (None, None) => true,
        _ => false,
    }
}

/// The representative values stored for key `k`, one per target holding the
/// key, in target order.
pub open spec fn reps_for_key(vs: Seq<SortedMap<String, SegmentValue>>, k: Seq<char>) -> Seq<
    RepresentativeValue,
>
    decreases vs.len(),
{
    if vs.len() == 0 {
        Seq::empty()
    } else {
        let rest = reps_for_key(vs.drop_last(), k);
        match vs.last().spec_get(k) {
            Some(sv) => rest.push(sv.value),
            None => rest,
        }
    }
}

/// Whether some target holds key `k`.
pub open spec fn has_key(vs: Seq<SortedMap<String, SegmentValue>>, k: Seq<char>) -> bool {
    exists|i: int| 0 <= i < vs.len() && #[trigger] vs[i].spec_get(k) is Some
}

proof fn lemma_reps_take_step(vs: Seq<SortedMap<String, SegmentValue>>, k: Seq<char>, i: int)
    requires
        0 <= i < vs.len(),
    ensures
        reps_for_key(vs.take(i + 1), k) == (match vs[i].spec_get(k) {
            Some(sv) => reps_for_key(vs.take(i), k).push(sv.value),
            None => reps_for_key(vs.take(i), k),
        }),
{
    assert(vs.take(i + 1).drop_last() =~= vs.take(i));
    assert(vs.take(i + 1).last() == vs[i]);
}

/// Every value is an integer average.
pub open spec fn all_int_avgs(vals: Seq<RepresentativeValue>) -> bool {
    forall|i: int| 0 <= i < vals.len() ==> rv_avg_int(#[trigger] vals[i]) is Some
}

/// Every value is an average.
pub open spec fn all_avgs(vals: Seq<RepresentativeValue>) -> bool {
    forall|i: int| 0 <= i < vals.len() ==> #[trigger] vals[i] is Avg
}

/// Every value is a set of distinct samples.
pub open spec fn all_distinct(vals: Seq<RepresentativeValue>) -> bool {
    forall|i: int| 0 <= i < vals.len() ==> #[trigger] vals[i] is Distinct
}

/// Some value is an average.
pub open spec fn has_avg(vals: Seq<RepresentativeValue>) -> bool {
    exists|i: int| 0 <= i < vals.len() && #[trigger] vals[i] is Avg
}

/// Some value is a set of distinct samples.
pub open spec fn has_distinct(vals: Seq<RepresentativeValue>) -> bool {
    exists|i: int| 0 <= i < vals.len() && #[trigger] vals[i] is Distinct
}

/// Some value is a floating average.
pub open spec fn has_float_avg(vals: Seq<RepresentativeValue>) -> bool {
    exists|i: int|
        0 <= i < vals.len() && (#[trigger] vals[i] matches RepresentativeValue::Avg(Num::Float(_)))
}

/// The integer a representative value contributes to a sum: zero when it is
/// not an integer average.
pub open spec fn avg_int_of(rv: RepresentativeValue) -> int {
    match rv_avg_int(rv) {
        Some(x) => x as int,
        None => 0,
    }
}

/// The sum of the integer averages in a sequence of values.
pub open spec fn sum_avgs(vals: Seq<RepresentativeValue>) -> int
    decreases vals.len(),
{
    if vals.len() == 0 {
        0
    } else {
        sum_avgs(vals.drop_last()) + avg_int_of(vals.last())
    }
}

/// Every left-to-right partial sum of the averages stays representable.
pub open spec fn psums_avgs_ok(vals: Seq<RepresentativeValue>) -> bool {
    forall|i: int|
        0 <= i <= vals.len() ==> i64::MIN <= #[trigger] sum_avgs(vals.take(i)) <= i64::MAX
}

/// Membership in the union of the set-valued representatives.
pub open spec fn union_contains(vals: Seq<RepresentativeValue>, v: MetricView) -> bool {
    exists|i: int| 0 <= i < vals.len() && rv_contains(#[trigger] vals[i], v)
}

/// What the aggregated sum for one key must be, given the representative
/// values of the targets holding the key: the exact integer sum when all are
/// integer averages and every partial sum is representable; absent when they
/// are but a partial sum is not, or when averages and sets are mixed; the
/// set union when all are sets; a finite floating sum or absent otherwise.
pub open spec fn agg_sum_ok(
    vals: Seq<RepresentativeValue>,
    r: Option<RepresentativeValue>,
) -> bool {
    &&& vals.len() == 0 ==> r is None
    &&& (1 <= vals.len() && all_int_avgs(vals) && psums_avgs_ok(vals)) ==> r == Some(
        RepresentativeValue::Avg(Num::Int(sum_avgs(vals) as i64)),
    )
    &&& (all_int_avgs(vals) && !psums_avgs_ok(vals)) ==> r is None
    &&& (has_avg(vals) && has_distinct(vals)) ==> r is None
    &&& (1 <= vals.len() && all_distinct(vals)) ==> (r matches Some(
        RepresentativeValue::Distinct(m),
    ) && m.wf() && (forall|v: MetricView| m.spec_contains(v) <==> union_contains(vals, v)))
    &&& (all_avgs(vals) && !all_int_avgs(vals)) ==> (r is None || (r matches Some(
        RepresentativeValue::Avg(Num::Float(b)),
    ) && f64_bits_finite(b)))
    &&& match r {
        Some(rv) => rv_wf(rv),
        None => true,
    }
}

/// What the aggregated delta for one key must be, given this segment's and
/// the predecessor's aggregated sums.
pub open spec fn agg_delta_ok(
    cur: Option<RepresentativeValue>,
    prev: Option<RepresentativeValue>,
    dur: u64,
    d: Option<Num>,
) -> bool {
    match (cur, prev) {
        (Some(c), Some(p)) => delta_ok(c, p, dur, d),
        _ => d is None,
    }
}

/// The predecessor's aggregated sum for one key.
pub open spec fn prev_agg_sum(prev: TimeSeriesSegment, k: Seq<char>) -> Option<
    RepresentativeValue,
> {
    match prev.aggregated_values.spec_get(k) {
        Some(av) => av.sum,
        None => None,
    }
}

/// An equal-membership copy of a set of metric values.
fn duplicate_value_set(m: &SortedMap<MetricValue, ()>) -> (r: SortedMap<MetricValue, ()>)
    requires
        m.wf(),
    ensures
        r.wf(),
        forall|v: MetricView| #[trigger] r.spec_contains(v) <==> m.spec_contains(v),
{
    let mut r: SortedMap<MetricValue, ()> = SortedMap::new();
    let n = m.len();
    let mut i: usize = 0;
    while i < n
        invariant
            m.wf(),
            n == m.spec_len(),
            i <= n,
            r.wf(),
            forall|v: MetricView| #[trigger]
                r.spec_contains(v) <==> exists|j: int| 0 <= j < i && m.kseq()[j] == v,
        decreases n - i,
    {
        let v = m.key_at(i).duplicate();
        r.insert(v, ());
        proof {
            assert forall|w: MetricView| #[trigger] r.spec_contains(w) implies exists|j: int|
                0 <= j < i + 1 && m.kseq()[j] == w by {
                if w == v@ {
                    assert(m.kseq()[i as int] == w);
                }
            }
        }
        i = i + 1;
    }
    proof {
        assert forall|v: MetricView| #[trigger] r.spec_contains(v) <==> m.spec_contains(v) by {
            m.lemma_get_is_keyed(v);
        }
    }
    r
}

/// An equivalent copy of a representative value: the same average, or a set
/// with the same members.
fn rv_duplicate(rv: &RepresentativeValue) -> (r: RepresentativeValue)
    requires
        rv_wf(*rv),
    ensures
        rv_wf(r),
        r is Avg <==> *rv is Avg,
        (*rv matches RepresentativeValue::Avg(n) ==> r == RepresentativeValue::Avg(n)),
        (r is Distinct ==> forall|v: MetricView| rv_contains(r, v) <==> rv_contains(*rv, v)),
{
    match rv {
        RepresentativeValue::Avg(n) => RepresentativeValue::Avg(*n),
        RepresentativeValue::Distinct(m) => RepresentativeValue::Distinct(duplicate_value_set(m)),
    }
}

/// The delta between two representative values: defined only when both are
/// averages.
fn compute_delta<F: FloatArith>(
    ops: &F,
    cur: &RepresentativeValue,
    prev: &RepresentativeValue,
    dur: u64,
) -> (r: Option<Num>)
    requires
        dur >= 1,
    ensures
        delta_ok(*cur, *prev, dur, r),
{
    match (cur, prev) {
        (RepresentativeValue::Avg(a), RepresentativeValue::Avg(b)) => num_delta(ops, *a, *b, dur),
        _ => None,
    }
}


/// The state of the aggregation fold after the shown prefix of the values.
spec fn fold_inv(p: Seq<RepresentativeValue>, acc: Option<RepresentativeValue>, dead: bool) -> bool {
    if dead {
        acc is None && ((has_avg(p) && has_distinct(p)) || !psums_avgs_ok(p) || has_float_avg(p))
    } else {
        match acc {
            None => p.len() == 0,
            Some(RepresentativeValue::Avg(Num::Int(s))) => all_int_avgs(p) && psums_avgs_ok(p)
                && s as int == sum_avgs(p) && p.len() >= 1,
            Some(RepresentativeValue::Avg(Num::Float(b))) => all_avgs(p) && !all_int_avgs(p)
                && f64_bits_finite(b) && p.len() >= 1,
            Some(RepresentativeValue::Distinct(m)) => all_distinct(p) && p.len() >= 1 && m.wf()
                && (forall|v: MetricView| m.spec_contains(v) <==> union_contains(p, v)),
        }
    }
}

/// The aggregated sum for one key: the representative values of the targets
/// holding the key, folded in target order.
fn aggregate_key<F: FloatArith>(
    ops: &F,
    tsv: &SortedMap<String, SortedMap<String, SegmentValue>>,
    key: &String,
) -> (r: Option<RepresentativeValue>)
    requires
        tsv.wf(),
        forall|t: Seq<char>| tv_opt_ok(#[trigger] tsv.spec_get(t)),
    ensures
        agg_sum_ok(reps_for_key(tsv.vseq(), key@), r),
{
    let n = tsv.len();
    let mut acc: Option<RepresentativeValue> = None;
    let mut dead = false;
    let mut i: usize = 0;
    while i < n
        invariant
            tsv.wf(),
            forall|t: Seq<char>| tv_opt_ok(#[trigger] tsv.spec_get(t)),
            n == tsv.spec_len(),
            i <= n,
            fold_inv(reps_for_key(tsv.vseq().take(i as int), key@), acc, dead),
        decreases n - i,
    {
        let ghost p0 = reps_for_key(tsv.vseq().take(i as int), key@);
        proof {
            tsv.lemma_len();
            lemma_reps_take_step(tsv.vseq(), key@, i as int);
            tsv.lemma_get_is_keyed(tsv.kseq()[i as int]);
            assert(tsv.spec_get(tsv.kseq()[i as int]) == Some(tsv.vseq()[i as int]));
        }
        let inner = tsv.val_at(i);
        match inner.get(key) {
            None => {
                proof {
                    assert(reps_for_key(tsv.vseq().take(i + 1), key@) == p0);
                }
            },
            Some(sv) => {
                let ghost p1 = p0.push(sv.value);
                proof {
                    assert(reps_for_key(tsv.vseq().take(i + 1), key@) == p1);
                    assert(p1.drop_last() =~= p0);
                    assert(p1.last() == sv.value);
                    assert(sum_avgs(p1) == sum_avgs(p0) + avg_int_of(sv.value));
                    assert forall|j: int| 0 <= j <= p0.len() implies #[trigger] p1.take(j)
                        == p0.take(j) by {
                        assert(p1.take(j) =~= p0.take(j));
                    }
                    assert(p1.take(p1.len() as int) =~= p1);
                    assert forall|l: int| 0 <= l < p0.len() implies p1[l] == p0[l] by {}
                    assert(sv_ok(*sv));
                }
                if !dead {
                    let prior = acc;
                    match prior {
                        None => {
                            acc = Some(rv_duplicate(&sv.value));
                            proof {
                                assert(p0.len() == 0);
                                assert(p1.len() == 1 && p1[0] == sv.value);
                                assert(sum_avgs(p1.take(0)) == 0);
                                assert(p1.take(1) =~= p1);
                                if sv.value is Distinct {
                                    assert forall|v: MetricView|
                                        union_contains(p1, v) <==> rv_contains(sv.value, v) by {
                                        if rv_contains(sv.value, v) {
                                            assert(rv_contains(p1[0], v));
                                        }
                                    }
                                }
                            }
                        },
                        Some(a) => {
                            match (a, &sv.value) {
                                (
                                    RepresentativeValue::Avg(an),
                                    RepresentativeValue::Avg(vn),
                                ) => {
                                    match num_add(ops, an, *vn) {
                                        Some(s2) => {
                                            acc = Some(RepresentativeValue::Avg(s2));
                                            proof {
                                                if an is Int && *vn is Int {
                                                    assert(psums_avgs_ok(p1)) by {
                                                        assert forall|j: int|
                                                            0 <= j <= p1.len() implies i64::MIN
                                                            <= #[trigger] sum_avgs(p1.take(j))
                                                            <= i64::MAX by {
                                                            if j <= p0.len() {
                                                                assert(p1.take(j) == p0.take(j));
                                                            } else {
                                                                assert(p1.take(j) =~= p1);
                                                            }
                                                        }
                                                    }
                                                } else {
                                                    assert(!all_int_avgs(p1)) by {
                                                        if an is Int {
                                                            assert(rv_avg_int(p1[p0.len() as int])
                                                                is None);
                                                        } else {
                                                            assert(!all_int_avgs(p0));
                                                            let w = choose|l: int|
                                                                0 <= l < p0.len()
                                                                    && rv_avg_int(#[trigger] p0[l])
                                                                    is None;
                                                            assert(rv_avg_int(p1[w]) is None);
                                                        }
                                                    }
                                                }
                                            }
                                        },
                                        None => {
                                            acc = None;
                                            dead = true;
                                            proof {
                                                if an is Int && *vn is Int {
                                                    assert(sum_avgs(p1) > i64::MAX || sum_avgs(p1)
                                                        < i64::MIN);
                                                    assert(p1.take(p1.len() as int) == p1);
                                                    assert(!psums_avgs_ok(p1));
                                                } else {
                                                    assert(has_float_avg(p1)) by {
                                                        if an is Float {
                                                            assert(!all_int_avgs(p0));
                                                            assert(all_avgs(p0));
                                                            let w = choose|l: int|
                                                                0 <= l < p0.len()
                                                                    && rv_avg_int(#[trigger] p0[l])
                                                                    is None;
                                                            assert(p1[w] matches
                                                                RepresentativeValue::Avg(
                                                                Num::Float(_)));
                                                        } else {
                                                            assert(p1[p0.len() as int] matches
                                                                RepresentativeValue::Avg(
                                                                Num::Float(_)));
                                                        }
                                                    }
                                                }
                                            }
                                        },
                                    }
                                },
                                (
                                    RepresentativeValue::Avg(an),
                                    RepresentativeValue::Distinct(_),
                                ) => {
                                    acc = None;
                                    dead = true;
                                    proof {
                                        assert(p0.len() >= 1 && p0[0] is Avg);
                                        assert(p1[0] is Avg);
                                        assert(p1[p0.len() as int] is Distinct);
                                    }
                                },
                                (
                                    RepresentativeValue::Distinct(m0),
                                    RepresentativeValue::Avg(_),
                                ) => {
                                    acc = None;
                                    dead = true;
                                    proof {
                                        assert(p0.len() >= 1 && p0[0] is Distinct);
                                        assert(p1[0] is Distinct);
                                        assert(p1[p0.len() as int] is Avg);
                                    }
                                },
                                (
                                    RepresentativeValue::Distinct(m0),
                                    RepresentativeValue::Distinct(dm),
                                ) => {
                                    let ghost m0_g = m0;
                                    let mut m2 = m0;
                                    let dn = dm.len();
                                    let mut j: usize = 0;
                                    while j < dn
                                        invariant
                                            dm.wf(),
                                            dn == dm.spec_len(),
                                            j <= dn,
                                            m2.wf(),
                                            forall|v: MetricView| #[trigger]
                                                m2.spec_contains(v) <==> (m0_g.spec_contains(v)
                                                    || exists|l: int|
                                                    0 <= l < j && dm.kseq()[l] == v),
                                        decreases dn - j,
                                    {
                                        let v = dm.key_at(j).duplicate();
                                        m2.insert(v, ());
                                        proof {
                                            assert forall|w: MetricView| #[trigger]
                                                m2.spec_contains(w) implies (m0_g.spec_contains(w)
                                                || exists|l: int|
                                                0 <= l < j + 1 && dm.kseq()[l] == w) by {
                                                if w == v@ {
                                                    assert(dm.kseq()[j as int] == w);
                                                }
                                            }
                                        }
                                        j = j + 1;
                                    }
                                    acc = Some(RepresentativeValue::Distinct(m2));
                                    proof {
                                        assert forall|v: MetricView|
                                            m2.spec_contains(v) <==> union_contains(p1, v) by {
                                            dm.lemma_get_is_keyed(v);
                                            if m2.spec_contains(v) {
                                                if m0_g.spec_contains(v) {
                                                    let w = choose|l: int|
                                                        0 <= l < p0.len() && rv_contains(
                                                            #[trigger] p0[l],
                                                            v,
                                                        );
                                                    assert(rv_contains(p1[w], v));
                                                } else {
                                                    assert(rv_contains(p1[p0.len() as int], v));
                                                }
                                            }
                                            if union_contains(p1, v) {
                                                let w = choose|l: int|
                                                    0 <= l < p1.len() && rv_contains(
                                                        #[trigger] p1[l],
                                                        v,
                                                    );
                                                if w < p0.len() {
                                                    assert(rv_contains(p0[w], v));
                                                }
                                            }
                                        }
                                        assert(all_distinct(p1)) by {
                                            assert forall|l: int|
                                                0 <= l < p1.len() implies #[trigger] p1[l]
                                                is Distinct by {
                                                if l < p0.len() {
                                                    assert(p0[l] is Distinct);
                                                }
                                            }
                                        }
                                    }
                                },
                            }
                        },
                    }
                } else {
                    proof {
                        if has_avg(p0) && has_distinct(p0) {
                            let w1 = choose|l: int|
                                0 <= l < p0.len() && #[trigger] p0[l] is Avg;
                            let w2 = choose|l: int|
                                0 <= l < p0.len() && #[trigger] p0[l] is Distinct;
                            assert(p1[w1] is Avg && p1[w2] is Distinct);
                        }
                        if !psums_avgs_ok(p0) {
                            let w = choose|l: int|
                                0 <= l <= p0.len() && !(i64::MIN <= #[trigger] sum_avgs(
                                    p0.take(l),
                                ) <= i64::MAX);
                            assert(p1.take(w) == p0.take(w));
                            assert(!psums_avgs_ok(p1));
                        }
                        if has_float_avg(p0) {
                            let w = choose|l: int|
                                0 <= l < p0.len() && (#[trigger] p0[l] matches
                                    RepresentativeValue::Avg(Num::Float(_)));
                            assert(p1[w] matches RepresentativeValue::Avg(Num::Float(_)));
                        }
                    }
                }
            },
        }
        i = i + 1;
    }
    proof {
        tsv.lemma_len();
        assert(tsv.vseq().take(n as int) =~= tsv.vseq());
        let vals = reps_for_key(tsv.vseq(), key@);
        if dead {
            if all_int_avgs(vals) {
                if has_distinct(vals) {
                    let w = choose|l: int| 0 <= l < vals.len() && #[trigger] vals[l] is Distinct;
                    assert(rv_avg_int(vals[w]) is Some);
                    assert(false);
                }
                if has_float_avg(vals) {
                    let w = choose|l: int|
                        0 <= l < vals.len() && (#[trigger] vals[l] matches
                            RepresentativeValue::Avg(Num::Float(_)));
                    assert(rv_avg_int(vals[w]) is Some);
                    assert(false);
                }
            }
            if vals.len() >= 1 && all_distinct(vals) {
                if has_avg(vals) {
                    let w = choose|l: int| 0 <= l < vals.len() && #[trigger] vals[l] is Avg;
                    assert(vals[w] is Distinct);
                    assert(false);
                }
                if !psums_avgs_ok(vals) {
                    lemma_sum_avgs_all_zero(vals);
                    assert(false);
                }
            }
        }
    }
    if dead {
        None
    } else {
        acc
    }
}

/// A sequence without integer averages sums to zero, prefix by prefix.
proof fn lemma_sum_avgs_all_zero(vals: Seq<RepresentativeValue>)
    requires
        forall|l: int| 0 <= l < vals.len() ==> avg_int_of(#[trigger] vals[l]) == 0,
    ensures
        psums_avgs_ok(vals),
{
    assert forall|i: int| 0 <= i <= vals.len() implies i64::MIN <= #[trigger] sum_avgs(
        vals.take(i),
    ) <= i64::MAX by {
        lemma_sum_avgs_zero_prefix(vals, i);
    }
}

proof fn lemma_sum_avgs_zero_prefix(vals: Seq<RepresentativeValue>, i: int)
    requires
        forall|l: int| 0 <= l < vals.len() ==> avg_int_of(#[trigger] vals[l]) == 0,
        0 <= i <= vals.len(),
    ensures
        sum_avgs(vals.take(i)) == 0,
    decreases i,
{
    if i > 0 {
        lemma_sum_avgs_zero_prefix(vals, i - 1);
        assert(vals.take(i).drop_last() =~= vals.take(i - 1));
        assert(vals.take(i).last() == vals[i - 1]);
    }
}


/// What one key's aggregated entry must hold after a synchronisation.
pub open spec fn agg_entry_ok(
    o: Option<AggregatedValue>,
    vals: Seq<RepresentativeValue>,
    psum: Option<RepresentativeValue>,
    dur: u64,
) -> bool {
    match o {
        Some(av) => agg_sum_ok(vals, av.sum) && agg_delta_ok(av.sum, psum, dur, av.delta),
        None => false,
    }
}

/// A whole segment after synchronisation against its predecessor: raw
/// samples untouched, representative values and deltas recomputed for every
/// target and key, and the aggregated entry recomputed for every key any
/// target holds.
pub open spec fn seg_synced(
    oseg: TimeSeriesSegment,
    prev: TimeSeriesSegment,
    nseg: TimeSeriesSegment,
) -> bool {
    let dur = oseg.segment_duration@;
    &&& nseg.start_time == oseg.start_time
    &&& nseg.segment_duration == oseg.segment_duration
    &&& nseg.target_segment_values.kseq() == oseg.target_segment_values.kseq()
    &&& forall|t: Seq<char>|
        tv_synced_at(
            oseg.target_segment_values.spec_get(t),
            prev,
            t,
            dur,
            #[trigger] nseg.target_segment_values.spec_get(t),
        )
    &&& forall|k: Seq<char>|
        has_key(nseg.target_segment_values.vseq(), k) ==> agg_entry_ok(
            #[trigger] nseg.aggregated_values.spec_get(k),
            reps_for_key(nseg.target_segment_values.vseq(), k),
            prev_agg_sum(prev, k),
            dur,
        )
    &&& forall|k: Seq<char>|
        !has_key(nseg.target_segment_values.vseq(), k) ==> #[trigger] nseg.aggregated_values.spec_get(
            k,
        ) == oseg.aggregated_values.spec_get(k)
}

impl TimeSeriesSegment {
    /// Recomputes every per-(target, key) representative value and delta
    /// from the raw samples and the predecessor segment.
    fn sync_target_values<F: FloatArith>(&mut self, prev: &TimeSeriesSegment, ops: &F)
        requires
            old(self).wf(),
            prev.wf(),
        ensures
            final(self).start_time == old(self).start_time,
            final(self).segment_duration == old(self).segment_duration,
            final(self).aggregated_values == old(self).aggregated_values,
            final(self).target_segment_values.wf(),
            final(self).target_segment_values.kseq() == old(self).target_segment_values.kseq(),
            forall|t: Seq<char>|
                tv_synced_at(
                    old(self).target_segment_values.spec_get(t),
                    *prev,
                    t,
                    old(self).segment_duration@,
                    #[trigger] final(self).target_segment_values.spec_get(t),
                ),
            forall|t: Seq<char>| tv_opt_ok(#[trigger] final(self).target_segment_values.spec_get(t)),
    {
        let dur = self.segment_duration.get();
        let n = self.target_segment_values.len();
        let ghost o_tsv = old(self).target_segment_values;
        let mut ti: usize = 0;
        while ti < n
            invariant
                prev.wf(),
                o_tsv.wf(),
                forall|t: Seq<char>| tv_opt_ok(#[trigger] o_tsv.spec_get(t)),
                o_tsv == old(self).target_segment_values,
                self.segment_duration == old(self).segment_duration,
                dur == self.segment_duration@,
                dur >= 1,
                self.start_time == old(self).start_time,
                self.aggregated_values == old(self).aggregated_values,
                n == o_tsv.spec_len(),
                ti <= n,
                self.target_segment_values.wf(),
                self.target_segment_values.kseq() == o_tsv.kseq(),
                forall|j: int|
                    ti <= j < n ==> #[trigger] self.target_segment_values.vseq()[j]
                        == o_tsv.vseq()[j],
                forall|j: int|
                    0 <= j < ti ==> tv_synced(
                        o_tsv.vseq()[j],
                        *prev,
                        o_tsv.kseq()[j],
                        dur,
                        #[trigger] self.target_segment_values.vseq()[j],
                    ) && tv_ok(self.target_segment_values.vseq()[j]),
            decreases n - ti,
        {
            proof {
                o_tsv.lemma_len();
                self.target_segment_values.lemma_len();
                o_tsv.lemma_get_is_keyed(o_tsv.kseq()[ti as int]);
            }
            let target = self.target_segment_values.key_at(ti).clone();
            let mut inner = self.target_segment_values.replace_at(ti, SortedMap::new());
            let ghost o_inner = o_tsv.vseq()[ti as int];
            proof {
                assert(inner == o_inner);
                assert(tv_opt_ok(o_tsv.spec_get(o_tsv.kseq()[ti as int])));
                assert(tv_ok(o_inner));
            }
            let kn = inner.len();
            let mut ki: usize = 0;
            while ki < kn
                invariant
                    prev.wf(),
                    tv_ok(o_inner),
                    kn == o_inner.spec_len(),
                    ki <= kn,
                    dur >= 1,
                    inner.wf(),
                    inner.kseq() == o_inner.kseq(),
                    target@ == o_tsv.kseq()[ti as int],
                    ti < n,
                    n == o_tsv.spec_len(),
                    o_tsv.wf(),
                    forall|j: int| ki <= j < kn ==> #[trigger] inner.vseq()[j] == o_inner.vseq()[j],
                    forall|j: int|
                        0 <= j < ki ==> sv_synced(
                            o_inner.vseq()[j],
                            prev_sv_of(*prev, target@, o_inner.kseq()[j]),
                            dur,
                            #[trigger] inner.vseq()[j],
                        ) && sv_ok(inner.vseq()[j]),
                decreases kn - ki,
            {
                proof {
                    o_inner.lemma_len();
                    inner.lemma_len();
                    o_inner.lemma_get_is_keyed(o_inner.kseq()[ki as int]);
                    assert(sv_opt_ok(o_inner.spec_get(o_inner.kseq()[ki as int])));
                }
                let key = inner.key_at(ki).clone();
                let sv = inner.replace_at(ki, SegmentValue::fresh());
                proof {
                    assert(sv == o_inner.vseq()[ki as int]);
                    assert(sv_ok(sv));
                }
                let value = compute_representative(ops, &sv.raw_values);
                let delta = match prev.target_segment_values.get(&target) {
                    Some(pm) => {
                        proof {
                            assert(tv_opt_ok(prev.target_segment_values.spec_get(target@)));
                        }
                        match pm.get(&key) {
                            Some(psv) => compute_delta(ops, &value, &psv.value, dur),
                            None => None,
                        }
                    },
                    None => None,
                };
                let new_sv = SegmentValue { value, delta, raw_values: sv.raw_values };
                proof {
                    assert(rv_float_finite(new_sv.value)) by {
                        assert(rep_ok(raw_views(sv.raw_values@), new_sv.value));
                    }
                    assert(sv_synced(
                        o_inner.vseq()[ki as int],
                        prev_sv_of(*prev, target@, o_inner.kseq()[ki as int]),
                        dur,
                        new_sv,
                    ));
                }
                inner.replace_at(ki, new_sv);
                ki = ki + 1;
            }
            proof {
                o_inner.lemma_len();
                inner.lemma_len();
                assert(tv_synced(o_inner, *prev, target@, dur, inner)) by {
                    assert forall|k: Seq<char>|
                        sv_synced_at(
                            o_inner.spec_get(k),
                            prev_sv_of(*prev, target@, k),
                            dur,
                            #[trigger] inner.spec_get(k),
                        ) by {
                        o_inner.lemma_get_is_keyed(k);
                        inner.lemma_get_is_keyed(k);
                        if exists|j: int| 0 <= j < kn && o_inner.kseq()[j] == k {
                            let j = choose|j: int| 0 <= j < kn && o_inner.kseq()[j] == k;
                            assert(inner.kseq()[j] == k);
                            assert(o_inner.spec_get(k) == Some(o_inner.vseq()[j]));
                            assert(inner.spec_get(k) == Some(inner.vseq()[j]));
                        } else {
                            assert(o_inner.spec_get(k) is None);
                            assert(inner.spec_get(k) is None);
                        }
                    }
                }
                assert(tv_ok(inner)) by {
                    assert forall|k: Seq<char>| sv_opt_ok(#[trigger] inner.spec_get(k)) by {
                        inner.lemma_get_is_keyed(k);
                        if exists|j: int| 0 <= j < kn && inner.kseq()[j] == k {
                            let j = choose|j: int| 0 <= j < kn && inner.kseq()[j] == k;
                            assert(inner.spec_get(k) == Some(inner.vseq()[j]));
                        }
                    }
                }
            }
            self.target_segment_values.replace_at(ti, inner);
            ti = ti + 1;
        }
        proof {
            o_tsv.lemma_len();
            self.target_segment_values.lemma_len();
            assert forall|t: Seq<char>|
                tv_synced_at(
                    o_tsv.spec_get(t),
                    *prev,
                    t,
                    dur,
                    #[trigger] self.target_segment_values.spec_get(t),
                ) by {
                o_tsv.lemma_get_is_keyed(t);
                self.target_segment_values.lemma_get_is_keyed(t);
                if exists|j: int| 0 <= j < n && o_tsv.kseq()[j] == t {
                    let j = choose|j: int| 0 <= j < n && o_tsv.kseq()[j] == t;
                    assert(self.target_segment_values.kseq()[j] == t);
                    assert(o_tsv.spec_get(t) == Some(o_tsv.vseq()[j]));
                    assert(self.target_segment_values.spec_get(t) == Some(
                        self.target_segment_values.vseq()[j],
                    ));
                } else {
                    assert(o_tsv.spec_get(t) is None);
                    assert(self.target_segment_values.spec_get(t) is None);
                }
            }
            assert forall|t: Seq<char>|
                tv_opt_ok(#[trigger] self.target_segment_values.spec_get(t)) by {
                self.target_segment_values.lemma_get_is_keyed(t);
                if exists|j: int| 0 <= j < n && self.target_segment_values.kseq()[j] == t {
                    let j = choose|j: int|
                        0 <= j < n && self.target_segment_values.kseq()[j] == t;
                    assert(self.target_segment_values.spec_get(t) == Some(
                        self.target_segment_values.vseq()[j],
                    ));
                }
            }
        }
    }

    /// Recomputes the aggregated entry of every key any target holds.
    fn sync_aggregated<F: FloatArith>(&mut self, prev: &TimeSeriesSegment, ops: &F)
        requires
            old(self).segment_duration@ >= 1,
            old(self).aggregated_values.wf(),
            forall|k: Seq<char>| agg_opt_ok(#[trigger] old(self).aggregated_values.spec_get(k)),
            old(self).target_segment_values.wf(),
            forall|t: Seq<char>| tv_opt_ok(#[trigger] old(self).target_segment_values.spec_get(t)),
            prev.wf(),
        ensures
            final(self).start_time == old(self).start_time,
            final(self).segment_duration == old(self).segment_duration,
            final(self).target_segment_values == old(self).target_segment_values,
            final(self).aggregated_values.wf(),
            forall|k: Seq<char>| agg_opt_ok(#[trigger] final(self).aggregated_values.spec_get(k)),
            forall|k: Seq<char>|
                has_key(old(self).target_segment_values.vseq(), k) ==> agg_entry_ok(
                    #[trigger] final(self).aggregated_values.spec_get(k),
                    reps_for_key(old(self).target_segment_values.vseq(), k),
                    prev_agg_sum(*prev, k),
                    old(self).segment_duration@,
                ),
            forall|k: Seq<char>|
                !has_key(old(self).target_segment_values.vseq(), k)
                    ==> #[trigger] final(self).aggregated_values.spec_get(k) == old(
                    self,
                ).aggregated_values.spec_get(k),
    {
        let dur = self.segment_duration.get();
        let n = self.target_segment_values.len();
        let ghost tsv = self.target_segment_values;

        let mut keys: SortedMap<String, ()> = SortedMap::new();
        let mut ti: usize = 0;
        while ti < n
            invariant
                tsv == self.target_segment_values,
                *self == *old(self),
                tsv.wf(),
                forall|t: Seq<char>| tv_opt_ok(#[trigger] tsv.spec_get(t)),
                n == tsv.spec_len(),
                ti <= n,
                keys.wf(),
                forall|k: Seq<char>| #[trigger]
                    keys.spec_contains(k) <==> exists|tj: int|
                        0 <= tj < ti && #[trigger] tsv.vseq()[tj].spec_get(k) is Some,
            decreases n - ti,
        {
            proof {
                tsv.lemma_len();
                tsv.lemma_get_is_keyed(tsv.kseq()[ti as int]);
                assert(tv_opt_ok(tsv.spec_get(tsv.kseq()[ti as int])));
            }
            let inner = self.target_segment_values.val_at(ti);
            let kn = inner.len();
            let mut ki: usize = 0;
            while ki < kn
                invariant
                    tsv == self.target_segment_values,
                    *self == *old(self),
                    tsv.wf(),
                    n == tsv.spec_len(),
                    ti < n,
                    inner == tsv.vseq()[ti as int],
                    tv_ok(*inner),
                    kn == inner.spec_len(),
                    ki <= kn,
                    keys.wf(),
                    forall|k: Seq<char>| #[trigger]
                        keys.spec_contains(k) <==> ((exists|tj: int|
                            0 <= tj < ti && #[trigger] tsv.vseq()[tj].spec_get(k) is Some)
                            || (exists|kj: int| 0 <= kj < ki && inner.kseq()[kj] == k)),
                decreases kn - ki,
            {
                proof {
                    inner.lemma_len();
                    inner.lemma_get_is_keyed(inner.kseq()[ki as int]);
                }
                let ghost pre_keys = keys;
                keys.insert(inner.key_at(ki).clone(), ());
                proof {
                    assert forall|k: Seq<char>| #[trigger]
                        keys.spec_contains(k) <==> ((exists|tj: int|
                            0 <= tj < ti && #[trigger] tsv.vseq()[tj].spec_get(k) is Some)
                            || (exists|kj: int| 0 <= kj < ki + 1 && inner.kseq()[kj] == k)) by {
                        if keys.spec_contains(k) {
                            if k == inner.kseq()[ki as int] {
                                assert(inner.kseq()[ki as int] == k);
                            } else {
                                assert(pre_keys.spec_contains(k));
                            }
                        }
                        if exists|kj: int| 0 <= kj < ki + 1 && inner.kseq()[kj] == k {
                            let kj = choose|kj: int| 0 <= kj < ki + 1 && inner.kseq()[kj] == k;
                            if kj < ki {
                                assert(pre_keys.spec_contains(k));
                            }
                        }
                    }
                }
                ki = ki + 1;
            }
            proof {
                assert forall|k: Seq<char>| #[trigger]
                    keys.spec_contains(k) <==> exists|tj: int|
                        0 <= tj < ti + 1 && #[trigger] tsv.vseq()[tj].spec_get(k) is Some by {
                    inner.lemma_get_is_keyed(k);
                    if keys.spec_contains(k) {
                        if exists|kj: int| 0 <= kj < kn && inner.kseq()[kj] == k {
                            assert(tsv.vseq()[ti as int].spec_get(k) is Some);
                        }
                    }
                    if exists|tj: int|
                        0 <= tj < ti + 1 && #[trigger] tsv.vseq()[tj].spec_get(k) is Some {
                        let tj = choose|tj: int|
                            0 <= tj < ti + 1 && #[trigger] tsv.vseq()[tj].spec_get(k) is Some;
                        if tj == ti {
                            assert(inner.spec_get(k) is Some);
                        }
                    }
                }
            }
            ti = ti + 1;
        }

        proof {
            tsv.lemma_len();
            assert forall|k: Seq<char>| #[trigger]
                keys.spec_contains(k) <==> has_key(tsv.vseq(), k) by {}
        }
        let m = keys.len();
        let ghost o_agg = self.aggregated_values;
        let mut i: usize = 0;
        while i < m
            invariant
                tsv == self.target_segment_values,
                self.start_time == old(self).start_time,
                self.segment_duration == old(self).segment_duration,
                dur == self.segment_duration@,
                dur >= 1,
                o_agg == old(self).aggregated_values,
                o_agg.wf(),
                forall|k: Seq<char>| agg_opt_ok(#[trigger] o_agg.spec_get(k)),
                prev.wf(),
                tsv.wf(),
                forall|t: Seq<char>| tv_opt_ok(#[trigger] tsv.spec_get(t)),
                keys.wf(),
                m == keys.spec_len(),
                i <= m,
                forall|k: Seq<char>| #[trigger]
                    keys.spec_contains(k) <==> has_key(tsv.vseq(), k),
                self.aggregated_values.wf(),
                forall|k: Seq<char>| agg_opt_ok(#[trigger] self.aggregated_values.spec_get(k)),
                forall|k: Seq<char>|
                    (exists|j: int| 0 <= j < i && keys.kseq()[j] == k) ==> agg_entry_ok(
                        #[trigger] self.aggregated_values.spec_get(k),
                        reps_for_key(tsv.vseq(), k),
                        prev_agg_sum(*prev, k),
                        dur,
                    ),
                forall|k: Seq<char>|
                    !(exists|j: int| 0 <= j < i && keys.kseq()[j] == k)
                        ==> #[trigger] self.aggregated_values.spec_get(k) == o_agg.spec_get(k),
            decreases m - i,
        {
            proof {
                keys.lemma_len();
            }
            let key = keys.key_at(i).clone();
            let sum = aggregate_key(ops, &self.target_segment_values, &key);
            let delta = match &sum {
                Some(cur) => {
                    match prev.aggregated_values.get(&key) {
                        Some(pav) => {
                            match &pav.sum {
                                Some(prv) => compute_delta(ops, cur, prv, dur),
                                None => None,
                            }
                        },
                        None => None,
                    }
                },
                None => None,
            };
            let av = AggregatedValue { sum, delta };
            proof {
                assert(agg_sum_ok(reps_for_key(tsv.vseq(), key@), av.sum));
                assert(agg_delta_ok(av.sum, prev_agg_sum(*prev, key@), dur, av.delta));
            }
            let ghost pre_agg = self.aggregated_values;
            self.aggregated_values.insert(key, av);
            proof {
                assert forall|k: Seq<char>|
                    (exists|j: int| 0 <= j < i + 1 && keys.kseq()[j] == k) implies agg_entry_ok(
                    #[trigger] self.aggregated_values.spec_get(k),
                    reps_for_key(tsv.vseq(), k),
                    prev_agg_sum(*prev, k),
                    dur,
                ) by {
                    let j = choose|j: int| 0 <= j < i + 1 && keys.kseq()[j] == k;
                    if j == i {
                        assert(self.aggregated_values.spec_get(k) == Some(av));
                    } else {
                        if k == key@ {
                            keys.lemma_sorted(j, i as int);
                            assert(false);
                        }
                        assert(self.aggregated_values.spec_get(k) == pre_agg.spec_get(k));
                    }
                }
            }
            i = i + 1;
        }
        proof {
            keys.lemma_len();
            assert forall|k: Seq<char>|
                has_key(tsv.vseq(), k) implies agg_entry_ok(
                #[trigger] self.aggregated_values.spec_get(k),
                reps_for_key(tsv.vseq(), k),
                prev_agg_sum(*prev, k),
                dur,
            ) by {
                assert(keys.spec_contains(k));
                keys.lemma_get_is_keyed(k);
                let j = choose|j: int|
                    0 <= j < keys.spec_len() && #[trigger] keys.kseq()[j] == k;
                assert(0 <= j < m && keys.kseq()[j] == k);
            }
            assert forall|k: Seq<char>|
                !has_key(tsv.vseq(), k) implies #[trigger] self.aggregated_values.spec_get(k)
                == o_agg.spec_get(k) by {
                keys.lemma_get_is_keyed(k);
                if exists|j: int| 0 <= j < m && keys.kseq()[j] == k {
                    assert(keys.spec_contains(k));
                }
            }
        }
    }

    /// Synchronises this segment against its predecessor: every
    /// representative value and delta is recomputed from the raw samples,
    /// then every aggregated entry from the fresh representative values.
    pub fn sync_state<F: FloatArith>(&mut self, prev: &TimeSeriesSegment, ops: &F)
        requires
            old(self).wf(),
            prev.wf(),
        ensures
            final(self).wf(),
            seg_synced(*old(self), *prev, *final(self)),
    {
        self.sync_target_values(prev, ops);
        self.sync_aggregated(prev, ops);
    }
}


/// A segment stored under a key: sound, aligned to its key, and sharing the
/// series' duration.
pub open spec fn seg_at_ok(
    dur: SecondsNonZeroU64,
    key: u64,
    o: Option<TimeSeriesSegment>,
) -> bool {
    match o {
        Some(s) => s.wf() && s.segment_duration == dur && s.start_time@ == key,
        None => true,
    }
}

/// A segment with nothing stored in it.
pub open spec fn seg_all_none(e: TimeSeriesSegment) -> bool {
    &&& forall|t: Seq<char>| #[trigger] e.target_segment_values.spec_get(t) is None
    &&& forall|k: Seq<char>| #[trigger] e.aggregated_values.spec_get(k) is None
}

/// The predecessor's per-(target, key) state, when there is a predecessor.
pub open spec fn prev_sv_opt(p: Option<TimeSeriesSegment>, target: Seq<char>, k: Seq<char>) -> Option<
    SegmentValue,
> {
    match p {
        Some(ps) => prev_sv_of(ps, target, k),
        None => None,
    }
}

/// The predecessor's aggregated sum, when there is a predecessor.
pub open spec fn prev_agg_sum_opt(p: Option<TimeSeriesSegment>, k: Seq<char>) -> Option<
    RepresentativeValue,
> {
    match p {
        Some(ps) => prev_agg_sum(ps, k),
        None => None,
    }
}

/// `seg_synced` against a predecessor that may be missing.
pub open spec fn seg_synced_opt(
    oseg: TimeSeriesSegment,
    p: Option<TimeSeriesSegment>,
    nseg: TimeSeriesSegment,
) -> bool {
    let dur = oseg.segment_duration@;
    &&& nseg.start_time == oseg.start_time
    &&& nseg.segment_duration == oseg.segment_duration
    &&& nseg.target_segment_values.kseq() == oseg.target_segment_values.kseq()
    &&& forall|t: Seq<char>|
        tv_synced_opt_at(
            oseg.target_segment_values.spec_get(t),
            p,
            t,
            dur,
            #[trigger] nseg.target_segment_values.spec_get(t),
        )
    &&& forall|k: Seq<char>|
        has_key(nseg.target_segment_values.vseq(), k) ==> agg_entry_ok(
            #[trigger] nseg.aggregated_values.spec_get(k),
            reps_for_key(nseg.target_segment_values.vseq(), k),
            prev_agg_sum_opt(p, k),
            dur,
        )
    &&& forall|k: Seq<char>|
        !has_key(nseg.target_segment_values.vseq(), k) ==> #[trigger] nseg.aggregated_values.spec_get(
            k,
        ) == oseg.aggregated_values.spec_get(k)
}

pub open spec fn tv_synced_opt_at(
    o: Option<SortedMap<String, SegmentValue>>,
    p: Option<TimeSeriesSegment>,
    target: Seq<char>,
    dur: u64,
    n: Option<SortedMap<String, SegmentValue>>,
) -> bool {
    match (o, n) {
        (Some(otv), Some(ntv)) => {
            &&& ntv.wf()
            &&& ntv.kseq() == otv.kseq()
            &&& forall|k: Seq<char>|
                sv_synced_at(
                    otv.spec_get(k),
                    prev_sv_opt(p, target, k),
                    dur,
                    #[trigger] ntv.spec_get(k),
                )
        },
        (None, None) => true,
        _ => false,
    }
}

/// A synchronisation against any empty predecessor is one against a missing
/// predecessor.
proof fn lemma_seg_synced_to_opt(
    oseg: TimeSeriesSegment,
    e: TimeSeriesSegment,
    nseg: TimeSeriesSegment,
)
    requires
        seg_all_none(e),
        seg_synced(oseg, e, nseg),
    ensures
        seg_synced_opt(oseg, None, nseg),
{
    let dur = oseg.segment_duration@;
    assert forall|t: Seq<char>|
        tv_synced_opt_at(
            oseg.target_segment_values.spec_get(t),
            None,
            t,
            dur,
            #[trigger] nseg.target_segment_values.spec_get(t),
        ) by {
        assert(tv_synced_at(
            oseg.target_segment_values.spec_get(t),
            e,
            t,
            dur,
            nseg.target_segment_values.spec_get(t),
        ));
        match (oseg.target_segment_values.spec_get(t), nseg.target_segment_values.spec_get(t)) {
            (Some(otv), Some(ntv)) => {
                assert forall|k: Seq<char>|
                    sv_synced_at(
                        otv.spec_get(k),
                        prev_sv_opt(None, t, k),
                        dur,
                        #[trigger] ntv.spec_get(k),
                    ) by {
                    assert(sv_synced_at(otv.spec_get(k), prev_sv_of(e, t, k), dur, ntv.spec_get(k)));
                    assert(prev_sv_of(e, t, k) is None);
                }
            },
            _ => {},
        }
    }
    assert forall|k: Seq<char>|
        has_key(nseg.target_segment_values.vseq(), k) implies agg_entry_ok(
        #[trigger] nseg.aggregated_values.spec_get(k),
        reps_for_key(nseg.target_segment_values.vseq(), k),
        prev_agg_sum_opt(None, k),
        dur,
    ) by {
        assert(prev_agg_sum(e, k) is None);
    }
}

/// A synchronisation against a present predecessor, restated for the
/// optional form.
proof fn lemma_seg_synced_some_opt(
    oseg: TimeSeriesSegment,
    p: TimeSeriesSegment,
    nseg: TimeSeriesSegment,
)
    requires
        seg_synced(oseg, p, nseg),
    ensures
        seg_synced_opt(oseg, Some(p), nseg),
{
    let dur = oseg.segment_duration@;
    assert forall|t: Seq<char>|
        tv_synced_opt_at(
            oseg.target_segment_values.spec_get(t),
            Some(p),
            t,
            dur,
            #[trigger] nseg.target_segment_values.spec_get(t),
        ) by {
        assert(tv_synced_at(
            oseg.target_segment_values.spec_get(t),
            p,
            t,
            dur,
            nseg.target_segment_values.spec_get(t),
        ));
    }
}

/// The state a dirty segment must reach: synchronised against the state of
/// the segment one duration earlier.
pub open spec fn synced_at(
    o: Option<TimeSeriesSegment>,
    p: Option<TimeSeriesSegment>,
    n: Option<TimeSeriesSegment>,
) -> bool {
    match (o, n) {
        (Some(os), Some(ns)) => seg_synced_opt(os, p, ns),
        (None, None) => true,
        _ => false,
    }
}

/// The segment one duration before `t`, if any.
pub open spec fn prev_seg_state(
    segs: SortedMap<u64, TimeSeriesSegment>,
    t: u64,
    dur: u64,
) -> Option<TimeSeriesSegment> {
    if t >= dur {
        segs.spec_get((t - dur) as u64)
    } else {
        None
    }
}

/// The bucket a timestamp falls into: the greatest multiple of the segment
/// duration not above it.
pub open spec fn bucket_of(secs: u64, dur: u64) -> u64 {
    (secs - (secs as int % dur as int)) as u64
}

/// The whole navigable history: segments keyed by their start time, plus
/// the set of segments dirtied since the last synchronisation.
pub struct TimeSeries {
    pub start_time: SecondsU64,
    pub end_time: SecondsU64,
    pub segment_duration: SecondsNonZeroU64,
    pub segments: SortedMap<u64, TimeSeriesSegment>,
    pub dirty_segments: SortedMap<u64, ()>,
}

impl TimeSeries {
    pub open spec fn wf(&self) -> bool {
        &&& self.segment_duration@ >= 1
        &&& self.segments.wf()
        &&& self.dirty_segments.wf()
        &&& forall|t: u64| #[trigger]
            self.dirty_segments.spec_contains(t) ==> self.segments.spec_contains(t)
        &&& forall|t: u64|
            seg_at_ok(self.segment_duration, t, #[trigger] self.segments.spec_get(t))
    }

    pub fn new(segment_duration: SecondsNonZeroU64) -> (r: Self)
        ensures
            r.wf(),
            r.start_time@ == 0,
            r.end_time@ == 0,
            r.segment_duration == segment_duration,
            r.segments.spec_len() == 0,
            r.dirty_segments.spec_len() == 0,
            forall|t: u64| #[trigger] r.segments.spec_get(t) is None,
    {
        proof {
            use_type_invariant(&segment_duration);
        }
        TimeSeries {
            start_time: SecondsU64::new(0),
            end_time: SecondsU64::new(0),
            segment_duration,
            segments: SortedMap::new(),
            dirty_segments: SortedMap::new(),
        }
    }

    pub fn is_empty(&self) -> (r: bool)
        ensures
            r == (self.segments.spec_len() == 0),
    {
        self.segments.is_empty()
    }

    /// The start time of the latest segment, or zero when there is none.
    pub fn last_start_time(&self) -> (r: SecondsU64)
        ensures
            self.segments.spec_len() == 0 ==> r@ == 0,
            self.segments.spec_len() > 0 ==> r@ == self.segments.kseq().last(),
    {
        let n = self.segments.len();
        if n == 0 {
            SecondsU64::new(0)
        } else {
            proof {
                self.segments.lemma_len();
            }
            SecondsU64::new(*self.segments.key_at(n - 1))
        }
    }
}


/// A target's stored per-key mapping inside an optional segment.
pub open spec fn old_seg_tv(o: Option<TimeSeriesSegment>, t: Seq<char>) -> Option<
    SortedMap<String, SegmentValue>,
> {
    match o {
        Some(os) => os.target_segment_values.spec_get(t),
        None => None,
    }
}

pub open spec fn old_tv_get(
    otv: Option<SortedMap<String, SegmentValue>>,
    k: Seq<char>,
) -> Option<SegmentValue> {
    match otv {
        Some(m) => m.spec_get(k),
        None => None,
    }
}

/// One per-key state after a sample arrives: the new raw value appended,
/// everything else untouched; a fresh entry starts with just the sample.
pub open spec fn sv_inserted(
    osv: Option<SegmentValue>,
    v: MetricView,
    nsv_opt: Option<SegmentValue>,
) -> bool {
    match nsv_opt {
        Some(nsv) => match osv {
            Some(o) => {
                &&& nsv.value == o.value
                &&& nsv.delta == o.delta
                &&& raw_views(nsv.raw_values@) == raw_views(o.raw_values@).push(v)
            },
            None => {
                &&& nsv.value is Distinct
                &&& (forall|w: MetricView| !rv_contains(nsv.value, w))
                &&& nsv.delta is None
                &&& raw_views(nsv.raw_values@) == seq![v]
            },
        },
        None => false,
    }
}

/// A target's mapping after one flattened record lands on it.
pub open spec fn target_inserted(
    otv: Option<SortedMap<String, SegmentValue>>,
    fm: Map<Seq<char>, MetricView>,
    ntv_opt: Option<SortedMap<String, SegmentValue>>,
) -> bool {
    match ntv_opt {
        Some(ntv) => {
            &&& ntv.wf()
            &&& forall|k: Seq<char>|
                fm.dom().contains(k) ==> sv_inserted(
                    old_tv_get(otv, k),
                    fm[k],
                    #[trigger] ntv.spec_get(k),
                )
            &&& forall|k: Seq<char>|
                !fm.dom().contains(k) ==> #[trigger] ntv.spec_get(k) == old_tv_get(otv, k)
        },
        None => false,
    }
}

/// A segment after one record lands on it: only the record's target is
/// touched, the aggregated entries wait for the next synchronisation.
pub open spec fn seg_inserted(
    o: Option<TimeSeriesSegment>,
    target: Seq<char>,
    fm: Map<Seq<char>, MetricView>,
    dur: SecondsNonZeroU64,
    bucket: u64,
    n: Option<TimeSeriesSegment>,
) -> bool {
    match n {
        Some(ns) => {
            &&& ns.segment_duration == dur
            &&& ns.start_time@ == bucket
            &&& match o {
                Some(os) => ns.aggregated_values == os.aggregated_values && ns.start_time
                    == os.start_time,
                None => ns.aggregated_values.spec_len() == 0,
            }
            &&& forall|t: Seq<char>|
                t != target ==> #[trigger] ns.target_segment_values.spec_get(t) == old_seg_tv(o, t)
            &&& target_inserted(old_seg_tv(o, target), fm, ns.target_segment_values.spec_get(target))
        },
        None => false,
    }
}

impl TimeSeries {
    /// Feeds one record into the series: widens the covered time range,
    /// appends the flattened samples to the record's bucket under its
    /// target, and marks the bucket dirty.
    pub fn insert(&mut self, record: &Record)
        requires
            old(self).wf(),
            record.timestamp.secs < u64::MAX,
        ensures
            final(self).wf(),
            final(self).segment_duration == old(self).segment_duration,
            final(self).end_time@ == if old(self).end_time@ >= record.timestamp.secs + 1 {
                old(self).end_time@ as int
            } else {
                record.timestamp.secs + 1
            },
            final(self).start_time@ == ({
                let bucket = bucket_of(record.timestamp.secs, old(self).segment_duration@);
                if old(self).segments.spec_len() == 0 || bucket < old(self).start_time@ {
                    bucket
                } else {
                    old(self).start_time@
                }
            }),
            forall|t: u64|
                t != bucket_of(record.timestamp.secs, old(self).segment_duration@)
                    ==> #[trigger] final(self).segments.spec_get(t) == old(self).segments.spec_get(
                    t,
                ),
            seg_inserted(
                old(self).segments.spec_get(
                    bucket_of(record.timestamp.secs, old(self).segment_duration@),
                ),
                record.target@,
                flat_spec(record.value, Seq::<char>::empty()),
                old(self).segment_duration,
                bucket_of(record.timestamp.secs, old(self).segment_duration@),
                final(self).segments.spec_get(
                    bucket_of(record.timestamp.secs, old(self).segment_duration@),
                ),
            ),
            forall|t: u64| #[trigger]
                final(self).dirty_segments.spec_contains(t) <==> (old(
                    self,
                ).dirty_segments.spec_contains(t) || t == bucket_of(
                    record.timestamp.secs,
                    old(self).segment_duration@,
                )),
    {
        let ghost fm = flat_spec(record.value, Seq::<char>::empty());
        let flat = record.flatten();
        let secs = record.timestamp.secs;
        let dur = self.segment_duration.get();
        if self.end_time.get() < secs + 1 {
            self.end_time = SecondsU64::new(secs + 1);
        }
        proof {
            vstd::arithmetic::div_mod::lemma_mod_decreases(secs as nat, dur as nat);
        }
        let bucket = secs - secs % dur;
        proof {
            assert(bucket == bucket_of(secs, dur));
        }
        if self.segments.is_empty() || bucket < self.start_time.get() {
            self.start_time = SecondsU64::new(bucket);
        }

        let had_segment = match self.segments.index_of(&bucket) {
            Some(_) => true,
            None => false,
        };
        if !had_segment {
            let mut fresh_seg = TimeSeriesSegment::empty(self.segment_duration);
            fresh_seg.start_time = SecondsU64::new(bucket);
            self.segments.insert(bucket, fresh_seg);
        }
        let ghost segs_mid = self.segments;
        let ghost seg0_opt = old(self).segments.spec_get(bucket);
        let i = match self.segments.index_of(&bucket) {
            Some(i) => i,
            None => {
                proof {
                    assert(false);
                }
                0
            },
        };
        let mut seg = self.segments.replace_at(i, TimeSeriesSegment::empty(self.segment_duration));
        let ghost seg0 = seg;
        proof {
            assert(self.segments.kseq()[i as int] == bucket);
            if had_segment {
                assert(seg0_opt == Some(seg));
            } else {
                assert(seg0_opt is None);
                assert(seg.aggregated_values.spec_len() == 0);
                assert(seg.start_time@ == bucket);
            }
            assert(seg.wf() && seg.segment_duration == old(self).segment_duration);
        }

        let had_target = match seg.target_segment_values.index_of(&record.target) {
            Some(_) => true,
            None => false,
        };
        if !had_target {
            seg.target_segment_values.insert(record.target.clone(), SortedMap::new());
        }
        let ghost tsv_mid = seg.target_segment_values;
        let ghost otv_opt = seg0.target_segment_values.spec_get(record.target@);
        let tix = match seg.target_segment_values.index_of(&record.target) {
            Some(t) => t,
            None => {
                proof {
                    assert(false);
                }
                0
            },
        };
        let mut inner = seg.target_segment_values.replace_at(tix, SortedMap::new());
        let ghost inner0 = inner;
        proof {
            assert(seg.target_segment_values.kseq()[tix as int] == record.target@);
            if had_target {
                assert(otv_opt == Some(inner));
            } else {
                assert(otv_opt is None);
                assert(inner.spec_len() == 0);
            }
            assert(tv_ok(inner0)) by {
                if had_target {
                    assert(tv_opt_ok(seg0.target_segment_values.spec_get(record.target@)));
                } else {
                    assert forall|k: Seq<char>| sv_opt_ok(#[trigger] inner0.spec_get(k)) by {
                        inner0.lemma_get_is_keyed(k);
                        inner0.lemma_len();
                    }
                }
            }
        }

        let mn = flat.metrics.len();
        let mut mi: usize = 0;
        while mi < mn
            invariant
                flat.metrics.wf(),
                mn == flat.metrics.spec_len(),
                mi <= mn,
                forall|k: Seq<char>|
                    fm.dom().contains(k) ==> #[trigger] viewed(flat.metrics.spec_get(k)) == Some(
                        fm[k],
                    ),
                forall|k: Seq<char>|
                    !fm.dom().contains(k) ==> #[trigger] flat.metrics.spec_get(k) is None,
                tv_ok(inner0),
                inner.wf(),
                forall|k: Seq<char>|
                    (exists|j: int| 0 <= j < mi && flat.metrics.kseq()[j] == k) ==> sv_inserted(
                        inner0.spec_get(k),
                        fm[k],
                        #[trigger] inner.spec_get(k),
                    ),
                forall|k: Seq<char>|
                    !(exists|j: int| 0 <= j < mi && flat.metrics.kseq()[j] == k)
                        ==> #[trigger] inner.spec_get(k) == inner0.spec_get(k),
                forall|k: Seq<char>| sv_opt_ok(#[trigger] inner.spec_get(k)),
            decreases mn - mi,
        {
            let ghost inner_entry = inner;
            proof {
                flat.metrics.lemma_len();
                flat.metrics.lemma_get_is_keyed(flat.metrics.kseq()[mi as int]);
            }
            let key = flat.metrics.key_at(mi).clone();
            let value = flat.metrics.val_at(mi).duplicate();
            proof {
                assert(flat.metrics.spec_get(key@) == Some(flat.metrics.vseq()[mi as int]));
                assert(fm.dom().contains(key@)) by {
                    if !fm.dom().contains(key@) {
                        assert(flat.metrics.spec_get(key@) is None);
                    }
                }
                assert(viewed(flat.metrics.spec_get(key@)) == Some(fm[key@]));
                assert(value@ == fm[key@]);
                assert(inner_entry.spec_get(key@) == inner0.spec_get(key@)) by {
                    if exists|j: int| 0 <= j < mi && flat.metrics.kseq()[j] == key@ {
                        let j = choose|j: int|
                            0 <= j < mi && #[trigger] flat.metrics.kseq()[j] == key@;
                        flat.metrics.lemma_sorted(j, mi as int);
                        assert(false);
                    }
                }
            }
            let had_key = match inner.index_of(&key) {
                Some(_) => true,
                None => false,
            };
            if !had_key {
                inner.insert(key.clone(), SegmentValue::fresh());
            }
            let ghost inner_mid = inner;
            let kix = match inner.index_of(&key) {
                Some(k) => k,
                None => {
                    proof {
                        assert(false);
                    }
                    0
                },
            };
            let ghost pre_entry = inner.spec_get(key@);
            let mut sv = inner.replace_at(kix, SegmentValue::fresh());
            proof {
                assert(inner.kseq()[kix as int] == key@);
                inner.lemma_get_is_keyed(key@);
                assert(pre_entry == Some(sv));
                inner_mid.lemma_len();
                inner.lemma_len();
                assert(inner.vseq() =~= inner_mid.vseq().update(
                    kix as int,
                    inner.vseq()[kix as int],
                ));
                crate::sortedmap::SortedMap::<String, SegmentValue>::lemma_update_get(
                    inner_mid,
                    inner,
                    kix as int,
                );
            }
            let ghost sv_before = sv;
            sv.raw_values.push(value);
            proof {
                assert(raw_views(sv.raw_values@) =~= raw_views(sv_before.raw_values@).push(
                    value@,
                ));
                if !had_key {
                    assert(raw_views(sv.raw_values@) =~= seq![value@]);
                }
            }
            inner.replace_at(kix, sv);
            proof {
                inner.lemma_len();
                inner_mid.lemma_len();
                assert(inner.spec_get(key@) == Some(sv)) by {
                    inner.lemma_get_is_keyed(key@);
                    assert(inner.kseq()[kix as int] == key@);
                    assert(inner.vseq()[kix as int] == sv);
                }
                assert(inner.vseq() =~= inner_mid.vseq().update(
                    kix as int,
                    inner.vseq()[kix as int],
                ));
                crate::sortedmap::SortedMap::<String, SegmentValue>::lemma_update_get(
                    inner_mid,
                    inner,
                    kix as int,
                );
                assert forall|k2: Seq<char>| k2 != key@ implies #[trigger] inner.spec_get(k2)
                    == inner_entry.spec_get(k2) by {
                    assert(inner.spec_get(k2) == inner_mid.spec_get(k2));
                    assert(inner_mid.spec_get(k2) == inner_entry.spec_get(k2));
                }
                assert(sv_inserted(inner0.spec_get(key@), fm[key@], inner.spec_get(key@)));
                assert forall|k: Seq<char>|
                    (exists|j: int| 0 <= j < mi + 1 && flat.metrics.kseq()[j] == k) implies
                    sv_inserted(inner0.spec_get(k), fm[k], #[trigger] inner.spec_get(k)) by {
                    let j = choose|j: int| 0 <= j < mi + 1 && flat.metrics.kseq()[j] == k;
                    if j < mi {
                        if k == key@ {
                            flat.metrics.lemma_sorted(j, mi as int);
                            assert(false);
                        }
                        assert(inner.spec_get(k) == inner_entry.spec_get(k));
                        assert(sv_inserted(inner0.spec_get(k), fm[k], inner_entry.spec_get(k)));
                    }
                }
                assert forall|k: Seq<char>|
                    !(exists|j: int| 0 <= j < mi + 1 && flat.metrics.kseq()[j] == k) implies
                    #[trigger] inner.spec_get(k) == inner0.spec_get(k) by {
                    assert(k != key@) by {
                        if k == key@ {
                            assert(flat.metrics.kseq()[mi as int] == k);
                        }
                    }
                    assert(inner.spec_get(k) == inner_entry.spec_get(k));
                    assert(inner_entry.spec_get(k) == inner0.spec_get(k));
                }
                assert forall|k: Seq<char>| sv_opt_ok(#[trigger] inner.spec_get(k)) by {
                    if k != key@ {
                        assert(inner.spec_get(k) == inner_entry.spec_get(k));
                        assert(sv_opt_ok(inner_entry.spec_get(k)));
                    }
                }
            }
            mi = mi + 1;
        }
        proof {
            flat.metrics.lemma_len();
            assert forall|k: Seq<char>|
                fm.dom().contains(k) implies sv_inserted(
                inner0.spec_get(k),
                fm[k],
                #[trigger] inner.spec_get(k),
            ) by {
                flat.metrics.lemma_get_is_keyed(k);
                assert(viewed(flat.metrics.spec_get(k)) == Some(fm[k]));
                assert(flat.metrics.spec_get(k) is Some);
                let j = choose|j: int|
                    0 <= j < flat.metrics.spec_len() && #[trigger] flat.metrics.kseq()[j] == k;
                assert(0 <= j < mn && flat.metrics.kseq()[j] == k);
            }
            assert forall|k: Seq<char>|
                !fm.dom().contains(k) implies #[trigger] inner.spec_get(k) == inner0.spec_get(
                k,
            ) by {
                flat.metrics.lemma_get_is_keyed(k);
                if exists|j: int| 0 <= j < mn && flat.metrics.kseq()[j] == k {
                    assert(flat.metrics.spec_get(k) is Some);
                }
            }
        }
        seg.target_segment_values.replace_at(tix, inner);
        proof {
            seg.target_segment_values.lemma_len();
            tsv_mid.lemma_len();
            assert(seg.target_segment_values.vseq() =~= tsv_mid.vseq().update(
                tix as int,
                seg.target_segment_values.vseq()[tix as int],
            ));
            crate::sortedmap::SortedMap::<String, SortedMap<String, SegmentValue>>::lemma_update_get(
                tsv_mid,
                seg.target_segment_values,
                tix as int,
            );
            assert(seg.target_segment_values.spec_get(record.target@) == Some(inner)) by {
                assert(tsv_mid.kseq()[tix as int] == record.target@);
                assert(seg.target_segment_values.vseq()[tix as int] == inner);
            }
            assert forall|t: Seq<char>| t != record.target@ implies #[trigger]
                seg.target_segment_values.spec_get(t) == seg0.target_segment_values.spec_get(
                t,
            ) by {
                assert(seg.target_segment_values.spec_get(t) == tsv_mid.spec_get(t));
                assert(tsv_mid.spec_get(t) == seg0.target_segment_values.spec_get(t));
            }
            assert(seg.wf()) by {
                assert forall|t: Seq<char>|
                    tv_opt_ok(#[trigger] seg.target_segment_values.spec_get(t)) by {
                    if t != record.target@ {
                        assert(tv_opt_ok(seg0.target_segment_values.spec_get(t)));
                    }
                }
            }
        }
        self.segments.replace_at(i, seg);
        proof {
            self.segments.lemma_len();
            segs_mid.lemma_len();
            assert(self.segments.vseq() =~= segs_mid.vseq().update(
                i as int,
                self.segments.vseq()[i as int],
            ));
            crate::sortedmap::SortedMap::<u64, TimeSeriesSegment>::lemma_update_get(
                segs_mid,
                self.segments,
                i as int,
            );
            assert(self.segments.spec_get(bucket) == Some(seg)) by {
                assert(segs_mid.kseq()[i as int] == bucket);
                assert(self.segments.vseq()[i as int] == seg);
            }
            assert forall|t: u64| t != bucket implies #[trigger] self.segments.spec_get(t)
                == old(self).segments.spec_get(t) by {
                assert(self.segments.spec_get(t) == segs_mid.spec_get(t));
                assert(segs_mid.spec_get(t) == old(self).segments.spec_get(t));
            }
        }
        self.dirty_segments.insert(bucket, ());
        proof {
            assert(seg_inserted(
                seg0_opt,
                record.target@,
                fm,
                old(self).segment_duration,
                bucket,
                self.segments.spec_get(bucket),
            ));
            assert(self.wf()) by {
                assert forall|t: u64| #[trigger]
                    self.dirty_segments.spec_contains(t) implies self.segments.spec_contains(
                    t,
                ) by {
                    if t != bucket {
                        assert(old(self).dirty_segments.spec_contains(t));
                        assert(old(self).segments.spec_contains(t));
                    }
                }
                assert forall|t: u64|
                    seg_at_ok(
                        self.segment_duration,
                        t,
                        #[trigger] self.segments.spec_get(t),
                    ) by {
                    if t != bucket {
                        assert(seg_at_ok(
                            old(self).segment_duration,
                            t,
                            old(self).segments.spec_get(t),
                        ));
                    }
                }
            }
        }
    }
}


impl TimeSeries {
    /// Synchronises every dirty segment, in ascending start-time order,
    /// against the state of the segment one duration earlier; afterwards no
    /// segment is dirty. When nothing is dirty, nothing changes.
    pub fn sync_state<F: FloatArith>(&mut self, ops: &F)
        requires
            old(self).wf(),
        ensures
            final(self).wf(),
            final(self).dirty_segments.spec_len() == 0,
            final(self).start_time == old(self).start_time,
            final(self).end_time == old(self).end_time,
            final(self).segment_duration == old(self).segment_duration,
            final(self).segments.kseq() == old(self).segments.kseq(),
            forall|t: u64|
                !old(self).dirty_segments.spec_contains(t)
                    ==> #[trigger] final(self).segments.spec_get(t)
                    == old(self).segments.spec_get(t),
            forall|t: u64| #[trigger]
                old(self).dirty_segments.spec_contains(t) ==> synced_at(
                    old(self).segments.spec_get(t),
                    prev_seg_state(final(self).segments, t, old(self).segment_duration@),
                    final(self).segments.spec_get(t),
                ),
            old(self).dirty_segments.spec_len() == 0 ==> forall|t: u64| #[trigger]
                final(self).segments.spec_get(t) == old(self).segments.spec_get(t),
    {
        let dur_nz = self.segment_duration;
        let dur = self.segment_duration.get();
        let dn = self.dirty_segments.len();
        let ghost dirty = self.dirty_segments;
        let ghost segs0 = self.segments;
        let mut j: usize = 0;
        while j < dn
            invariant
                dur == self.segment_duration@,
                dur >= 1,
                self.segment_duration == old(self).segment_duration,
                dur_nz == self.segment_duration,
                self.start_time == old(self).start_time,
                self.end_time == old(self).end_time,
                self.dirty_segments == dirty,
                dirty == old(self).dirty_segments,
                segs0 == old(self).segments,
                dirty.wf(),
                segs0.wf(),
                dn == dirty.spec_len(),
                j <= dn,
                self.segments.wf(),
                self.segments.kseq() == segs0.kseq(),
                forall|t: u64|
                    seg_at_ok(self.segment_duration, t, #[trigger] self.segments.spec_get(t)),
                forall|t: u64| #[trigger]
                    dirty.spec_contains(t) ==> self.segments.spec_contains(t),
                forall|t: u64|
                    !(exists|l: int| 0 <= l < j && dirty.kseq()[l] == t)
                        ==> #[trigger] self.segments.spec_get(t) == segs0.spec_get(t),
                forall|l: int|
                    0 <= l < j ==> synced_at(
                        segs0.spec_get(#[trigger] dirty.kseq()[l]),
                        prev_seg_state(self.segments, dirty.kseq()[l], dur),
                        self.segments.spec_get(dirty.kseq()[l]),
                    ),
            decreases dn - j,
        {
            proof {
                dirty.lemma_len();
                dirty.lemma_get_is_keyed(dirty.kseq()[j as int]);
            }
            let t = *self.dirty_segments.key_at(j);
            proof {
                assert(dirty.spec_contains(t));
                assert(self.segments.spec_contains(t));
                assert(self.segments.spec_get(t) == segs0.spec_get(t)) by {
                    if exists|l: int| 0 <= l < j && dirty.kseq()[l] == t {
                        let l = choose|l: int| 0 <= l < j && #[trigger] dirty.kseq()[l] == t;
                        dirty.lemma_sorted(l, j as int);
                        assert(false);
                    }
                }
            }
            let i = match self.segments.index_of(&t) {
                Some(i) => i,
                None => {
                    proof {
                        assert(false);
                    }
                    0
                },
            };
            let ghost segs_before = self.segments;
            let mut seg = self.segments.replace_at(i, TimeSeriesSegment::empty(dur_nz));
            let ghost oseg = seg;
            proof {
                segs_before.lemma_len();
                self.segments.lemma_len();
                assert(segs_before.spec_get(t) == Some(oseg));
                assert(seg_at_ok(self.segment_duration, t, Some(oseg)));
                assert(self.segments.vseq() =~= segs_before.vseq().update(
                    i as int,
                    self.segments.vseq()[i as int],
                ));
                crate::sortedmap::SortedMap::<u64, TimeSeriesSegment>::lemma_update_get(
                    segs_before,
                    self.segments,
                    i as int,
                );
            }
            let empty_prev = TimeSeriesSegment::empty(dur_nz);
            let ghost prev_used = prev_seg_state(segs_before, t, dur);
            if t >= dur {
                let pt = t - dur;
                proof {
                    assert(pt != t);
                    assert(self.segments.spec_get(pt) == segs_before.spec_get(pt));
                    assert(seg_at_ok(self.segment_duration, pt, segs_before.spec_get(pt)));
                }
                match self.segments.get(&pt) {
                    Some(p) => {
                        proof {
                            assert(prev_used == Some(*p));
                        }
                        seg.sync_state(p, ops);
                        proof {
                            lemma_seg_synced_some_opt(
                                oseg,
                                prev_used->Some_0,
                                seg,
                            );
                        }
                    },
                    None => {
                        seg.sync_state(&empty_prev, ops);
                        proof {
                            assert(prev_used is None);
                            assert(seg_all_none(empty_prev));
                            lemma_seg_synced_to_opt(oseg, empty_prev, seg);
                        }
                    },
                }
            } else {
                seg.sync_state(&empty_prev, ops);
                proof {
                    assert(prev_used is None);
                    assert(seg_all_none(empty_prev));
                    lemma_seg_synced_to_opt(oseg, empty_prev, seg);
                }
            }
            let ghost segs_mid = self.segments;
            self.segments.replace_at(i, seg);
            proof {
                self.segments.lemma_len();
                segs_before.lemma_len();
                assert(self.segments.kseq() == segs_before.kseq());
                assert(self.segments.vseq() =~= segs_before.vseq().update(
                    i as int,
                    self.segments.vseq()[i as int],
                ));
                crate::sortedmap::SortedMap::<u64, TimeSeriesSegment>::lemma_update_get(
                    segs_before,
                    self.segments,
                    i as int,
                );
                assert(self.segments.spec_get(t) == Some(seg)) by {
                    assert(segs_before.kseq()[i as int] == t);
                    assert(self.segments.vseq()[i as int] == seg);
                }
                assert(seg_synced_opt(oseg, prev_used, seg));
                // the predecessor slot was not the one replaced
                assert(prev_seg_state(self.segments, t, dur) == prev_used) by {
                    if t >= dur {
                        assert((t - dur) as u64 != t);
                        assert(self.segments.spec_get((t - dur) as u64) == segs_before.spec_get(
                            (t - dur) as u64,
                        ));
                    }
                }
                assert forall|t2: u64|
                    !(exists|l: int| 0 <= l < j + 1 && dirty.kseq()[l] == t2)
                        implies #[trigger] self.segments.spec_get(t2) == segs0.spec_get(t2) by {
                    assert(t2 != t) by {
                        if t2 == t {
                            assert(dirty.kseq()[j as int] == t2);
                        }
                    }
                    assert(self.segments.spec_get(t2) == segs_before.spec_get(t2));
                }
                assert forall|l: int| 0 <= l < j + 1 implies synced_at(
                    segs0.spec_get(#[trigger] dirty.kseq()[l]),
                    prev_seg_state(self.segments, dirty.kseq()[l], dur),
                    self.segments.spec_get(dirty.kseq()[l]),
                ) by {
                    let tl = dirty.kseq()[l];
                    if l < j {
                        dirty.lemma_sorted(l, j as int);
                        assert(tl != t);
                        assert(self.segments.spec_get(tl) == segs_before.spec_get(tl));
                        assert(prev_seg_state(self.segments, tl, dur) == prev_seg_state(
                            segs_before,
                            tl,
                            dur,
                        )) by {
                            if tl >= dur {
                                assert((tl - dur) as u64 != t) by {
                                    assert(<u64 as SortKey>::lt_spec(tl, t));
                                }
                                assert(self.segments.spec_get((tl - dur) as u64)
                                    == segs_before.spec_get((tl - dur) as u64));
                            }
                        }
                    } else {
                        assert(tl == t);
                        assert(segs0.spec_get(t) == Some(oseg));
                        assert(synced_at(Some(oseg), prev_used, Some(seg)));
                    }
                }
                assert(self.segments.wf());
                assert forall|t2: u64|
                    seg_at_ok(
                        self.segment_duration,
                        t2,
                        #[trigger] self.segments.spec_get(t2),
                    ) by {
                    if t2 == t {
                        assert(seg.wf() && seg.segment_duration == oseg.segment_duration
                            && seg.start_time == oseg.start_time);
                    } else {
                        assert(self.segments.spec_get(t2) == segs_before.spec_get(t2));
                        assert(seg_at_ok(self.segment_duration, t2, segs_before.spec_get(t2)));
                    }
                }
                assert forall|t2: u64| #[trigger]
                    dirty.spec_contains(t2) implies self.segments.spec_contains(t2) by {
                    if t2 == t {
                    } else {
                        assert(self.segments.spec_get(t2) == segs_before.spec_get(t2));
                    }
                }
            }
            j = j + 1;
        }
        self.dirty_segments = SortedMap::new();
        proof {
            dirty.lemma_len();
            assert forall|t: u64|
                !old(self).dirty_segments.spec_contains(t) implies #[trigger]
                self.segments.spec_get(t) == old(self).segments.spec_get(t) by {
                dirty.lemma_get_is_keyed(t);
                if exists|l: int| 0 <= l < dn && dirty.kseq()[l] == t {
                    assert(dirty.spec_contains(t));
                }
            }
            assert forall|t: u64| #[trigger]
                old(self).dirty_segments.spec_contains(t) implies synced_at(
                old(self).segments.spec_get(t),
                prev_seg_state(self.segments, t, old(self).segment_duration@),
                self.segments.spec_get(t),
            ) by {
                dirty.lemma_get_is_keyed(t);
                let l = choose|l: int|
                    0 <= l < dirty.spec_len() && #[trigger] dirty.kseq()[l] == t;
                assert(0 <= l < dn && dirty.kseq()[l] == t);
            }
        }
    }
}

} // verus!
