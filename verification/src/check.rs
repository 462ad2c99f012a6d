//! Threshold evaluation, per-host outcomes, and the retry and backoff
//! decisions of a host check.
use vstd::prelude::*;
use crate::config::{lookup, CustomView, Thresholds, ThresholdsView};
use crate::float::{f32_view, f64_view, float_gt, num_gt, num_view, Num};
use crate::metrics::{Metrics, MetricsView};
use crate::text::{chars_of, copy_range, range_eq_str, string_from_chars};

verus! {

broadcast use vstd::string::group_string_axioms;

/// Per-host time budget, in seconds. `connect_secs` bounds the SSH
/// handshake; `script_secs` bounds the remote collection.
#[derive(Debug, Clone, Copy)]
pub struct Timeouts {
    pub connect_secs: u64,
    pub script_secs: u64,
}

/// A metric whose threshold can trip. The first six are typed; `Custom`
/// names a metric thresholded through the custom map.
#[derive(Debug)]
pub enum Metric {
    Disk,
    Temp,
    Load,
    Mem,
    Swap,
    Proc,
    Custom(String),
}

pub enum MetricView {
    Disk,
    Temp,
    Load,
    Mem,
    Swap,
    Proc,
    Custom(Seq<char>),
}

impl View for Metric {
    type V = MetricView;

    open spec fn view(&self) -> MetricView {
        match self {
            Metric::Disk => MetricView::Disk,
            Metric::Temp => MetricView::Temp,
            Metric::Load => MetricView::Load,
            Metric::Mem => MetricView::Mem,
            Metric::Swap => MetricView::Swap,
            Metric::Proc => MetricView::Proc,
            Metric::Custom(s) => MetricView::Custom(s@),
        }
    }
}

/// A metric over its limit, with the two numbers compared (each as the
/// `f64` it converts to: `num_view`).
#[derive(Debug)]
pub struct Violation {
    pub metric: Metric,
    pub value: Num,
    pub limit: Num,
}

pub struct ViolationView {
    pub metric: MetricView,
    pub value: Num,
    pub limit: Num,
}

impl View for Violation {
    type V = ViolationView;

    open spec fn view(&self) -> ViolationView {
        ViolationView {
            metric: self.metric@,
            value: self.value,
            limit: self.limit,
        }
    }
}

pub open spec fn violations_view(v: Seq<Violation>) -> Seq<ViolationView> {
    Seq::new(v.len(), |i: int| v[i]@)
}

/// What checking one host came to.
#[derive(Debug)]
pub enum HostOutcome {
    Reached { metrics: Metrics, violations: Vec<Violation> },
    Unreachable { error: String },
}

/// The outcome for one named host.
#[derive(Debug)]
pub struct HostReport {
    pub name: String,
    pub outcome: HostOutcome,
}

/// Whether a report counts as a failed check: the host was unreachable or
/// tripped a threshold.
pub open spec fn report_bad(r: HostReport) -> bool {
    match r.outcome {
        HostOutcome::Unreachable { .. } => true,
        HostOutcome::Reached { violations, .. } => violations@.len() > 0,
    }
}

impl HostReport {
    /// Does this report count as a "check failed" case for the exit code?
    pub fn is_bad(&self) -> (b: bool)
        ensures
            b == report_bad(*self),
    {
        match &self.outcome {
            HostOutcome::Unreachable { .. } => true,
            HostOutcome::Reached { violations, .. } => violations.len() > 0,
        }
    }
}

// ---------------------------------------------------------------------------
// Evaluation
// ---------------------------------------------------------------------------

/// The value of the metric named `key`, as the `f64` it converts to: the
/// whole-number metrics and uptime in seconds, and the `f32` temperature
/// (degrees) and load. `None` for names the binary does not know and for
/// metrics the host lacks.
pub open spec fn metric_value(m: MetricsView, key: Seq<char>) -> Option<Num> {
    if key == "disk_pct"@ {
        Some(Num::U64(m.disk_pct as u64))
    } else if key == "load_1m"@ {
        Some(Num::F32(m.load_1m))
    } else if key == "mem_pct"@ {
        Some(Num::U64(m.mem_pct as u64))
    } else if key == "temp_c"@ {
        match m.temp_c {
            Some(c) => Some(Num::F32(c)),
            None => None,
        }
    } else if key == "swap_pct"@ {
        match m.swap_pct {
            Some(v) => Some(Num::U64(v as u64)),
            None => None,
        }
    } else if key == "proc_count"@ {
        match m.proc_count {
            Some(v) => Some(Num::U64(v as u64)),
            None => None,
        }
    } else if key == "uptime_secs"@ {
        Some(Num::U64(m.uptime_secs))
    } else {
        None
    }
}

/// Whether the custom map holds a limit for `name`, which then replaces the
/// typed check of that metric.
pub open spec fn shadowed(t: ThresholdsView, name: Seq<char>) -> bool {
    lookup(t.custom, name) is Some
}

pub open spec fn one_if(b: bool, v: ViolationView) -> Seq<ViolationView> {
    if b {
        seq![v]
    } else {
        Seq::empty()
    }
}

/// The typed checks, in the order disk, temp, load, mem, swap, procs.
pub open spec fn typed_violations(m: MetricsView, t: ThresholdsView) -> Seq<ViolationView> {
    one_if(
        !shadowed(t, "disk_pct"@) && m.disk_pct > t.disk_pct,
        ViolationView {
            metric: MetricView::Disk,
            value: Num::U64(m.disk_pct as u64),
            limit: Num::U64(t.disk_pct as u64),
        },
    ) + one_if(
        !shadowed(t, "temp_c"@) && m.temp_c is Some && float_gt(f32_view(m.temp_c.unwrap()), f32_view(t.temp_c)),
        ViolationView {
            metric: MetricView::Temp,
            value: Num::F32(m.temp_c.unwrap()),
            limit: Num::F32(t.temp_c),
        },
    ) + one_if(
        !shadowed(t, "load_1m"@) && float_gt(f32_view(m.load_1m), f32_view(t.load_1m)),
        ViolationView {
            metric: MetricView::Load,
            value: Num::F32(m.load_1m),
            limit: Num::F32(t.load_1m),
        },
    ) + one_if(
        !shadowed(t, "mem_pct"@) && m.mem_pct > t.mem_pct,
        ViolationView {
            metric: MetricView::Mem,
            value: Num::U64(m.mem_pct as u64),
            limit: Num::U64(t.mem_pct as u64),
        },
    ) + one_if(
        !shadowed(t, "swap_pct"@) && m.swap_pct is Some && t.swap_pct is Some
            && m.swap_pct.unwrap() > t.swap_pct.unwrap(),
        ViolationView {
            metric: MetricView::Swap,
            value: Num::U64(m.swap_pct.unwrap() as u64),
            limit: Num::U64(t.swap_pct.unwrap() as u64),
        },
    ) + one_if(
        !shadowed(t, "proc_count"@) && m.proc_count is Some && t.proc_count is Some
            && m.proc_count.unwrap() > t.proc_count.unwrap(),
        ViolationView {
            metric: MetricView::Proc,
            value: Num::U64(m.proc_count.unwrap() as u64),
            limit: Num::U64(t.proc_count.unwrap() as u64),
        },
    )
}

/// The custom checks, in the map's (name) order; names whose metric is
/// unknown or absent are skipped.
pub open spec fn custom_violations(m: MetricsView, s: CustomView) -> Seq<ViolationView>
    decreases s.len(),
{
    if s.len() == 0 {
        Seq::empty()
    } else {
        let rest = custom_violations(m, s.drop_first());
        match metric_value(m, s[0].0) {
            Some(x) => if float_gt(num_view(x), f64_view(s[0].1)) {
                seq![
                    ViolationView {
                        metric: MetricView::Custom(s[0].0),
                        value: x,
                        limit: Num::F64(s[0].1),
                    },
                ] + rest
            } else {
                rest
            },
            None => rest,
        }
    }
}

/// Every violation that the metrics `m` commit against `t`.
pub open spec fn evaluate_spec(m: MetricsView, t: ThresholdsView) -> Seq<ViolationView> {
    typed_violations(m, t) + custom_violations(m, t.custom)
}

fn custom_string(k: &Vec<char>) -> (s: String)
    ensures
        s@ == k@,
{
    string_from_chars(k.as_slice())
}

/// The value of the metric named `key`; see `metric_value`.
#[verifier::spinoff_prover]
#[verifier::rlimit(60)]
pub fn metric_value_by_name_chars(m: &Metrics, key: &Vec<char>) -> (r: Option<Num>)
    ensures
        r == metric_value(m@, key@),
{
    let n = key.len();
    if range_eq_str(key, 0, n, "disk_pct") {
        assert(key@.subrange(0, n as int) =~= key@);
        Some(Num::U64(m.disk_pct as u64))
    } else if range_eq_str(key, 0, n, "load_1m") {
        assert(key@.subrange(0, n as int) =~= key@);
        Some(Num::F32(m.load_1m))
    } else if range_eq_str(key, 0, n, "mem_pct") {
        assert(key@.subrange(0, n as int) =~= key@);
        Some(Num::U64(m.mem_pct as u64))
    } else if range_eq_str(key, 0, n, "temp_c") {
        assert(key@.subrange(0, n as int) =~= key@);
        match m.temp_c {
            Some(c) => Some(Num::F32(c)),
            None => None,
        }
    } else if range_eq_str(key, 0, n, "swap_pct") {
        assert(key@.subrange(0, n as int) =~= key@);
        match m.swap_pct {
            Some(v) => Some(Num::U64(v as u64)),
            None => None,
        }
    } else if range_eq_str(key, 0, n, "proc_count") {
        assert(key@.subrange(0, n as int) =~= key@);
        match m.proc_count {
            Some(v) => Some(Num::U64(v as u64)),
            None => None,
        }
    } else if range_eq_str(key, 0, n, "uptime_secs") {
        assert(key@.subrange(0, n as int) =~= key@);
        Some(Num::U64(m.uptime_secs))
    } else {
        assert(key@.subrange(0, n as int) =~= key@);
        None
    }
}

/// The value of the metric named `key`; see `metric_value`.
pub fn metric_value_by_name(m: &Metrics, key: &str) -> (r: Option<Num>)
    ensures
        r == metric_value(m@, key@),
{
    let k = chars_of(key);
    metric_value_by_name_chars(m, &k)
}

proof fn lemma_push_violation(v: Seq<Violation>, x: Violation)
    ensures
        violations_view(v.push(x)) == violations_view(v).push(x@),
{
    assert(violations_view(v.push(x)) =~= violations_view(v).push(x@));
}

/// Compares collected metrics against thresholds. Comparison is strict: a
/// value equal to its limit is healthy. Optional metrics (`temp`, `swap`,
/// `procs`) that are absent cannot violate. A custom entry whose name is a
/// typed metric shadows that typed check; custom names that match no known
/// metric are ignored.
#[verifier::spinoff_prover]
#[verifier::rlimit(60)]
pub fn evaluate(m: &Metrics, t: &Thresholds) -> (out: Vec<Violation>)
    ensures
        violations_view(out@) == evaluate_spec(m@, t@),
{
    let mut out: Vec<Violation> = Vec::new();
    let ghost mv = m@;
    let ghost tv = t@;
    let ghost acc: Seq<ViolationView> = Seq::empty();
    assert(violations_view(out@) =~= acc);

    let sh_disk = t.custom.contains_key("disk_pct");
    if !sh_disk && m.disk_pct > t.disk_pct {
        let x = Violation {
            metric: Metric::Disk,
            value: Num::U64(m.disk_pct as u64),
            limit: Num::U64(t.disk_pct as u64),
        };
        proof {
            lemma_push_violation(out@, x);
        }
        out.push(x);
    }
    let ghost a1 = one_if(
        !shadowed(tv, "disk_pct"@) && mv.disk_pct > tv.disk_pct,
        ViolationView {
            metric: MetricView::Disk,
            value: Num::U64(mv.disk_pct as u64),
            limit: Num::U64(tv.disk_pct as u64),
        },
    );
    assert(violations_view(out@) =~= a1);

    let sh_temp = t.custom.contains_key("temp_c");
    if !sh_temp {
        if let Some(c) = m.temp_c {
            if num_gt(&Num::F32(c), &Num::F32(t.temp_c)) {
                let x = Violation { metric: Metric::Temp, value: Num::F32(c), limit: Num::F32(t.temp_c) };
                proof {
                    lemma_push_violation(out@, x);
                }
                out.push(x);
            }
        }
    }
    let ghost a2 = a1 + one_if(
        !shadowed(tv, "temp_c"@) && mv.temp_c is Some && float_gt(f32_view(mv.temp_c.unwrap()), f32_view(tv.temp_c)),
        ViolationView {
            metric: MetricView::Temp,
            value: Num::F32(mv.temp_c.unwrap()),
            limit: Num::F32(tv.temp_c),
        },
    );
    assert(violations_view(out@) =~= a2);

    let sh_load = t.custom.contains_key("load_1m");
    if !sh_load && num_gt(&Num::F32(m.load_1m), &Num::F32(t.load_1m)) {
        let x = Violation {
            metric: Metric::Load,
            value: Num::F32(m.load_1m),
            limit: Num::F32(t.load_1m),
        };
        proof {
            lemma_push_violation(out@, x);
        }
        out.push(x);
    }
    let ghost a3 = a2 + one_if(
        !shadowed(tv, "load_1m"@) && float_gt(f32_view(mv.load_1m), f32_view(tv.load_1m)),
        ViolationView {
            metric: MetricView::Load,
            value: Num::F32(mv.load_1m),
            limit: Num::F32(tv.load_1m),
        },
    );
    assert(violations_view(out@) =~= a3);

    let sh_mem = t.custom.contains_key("mem_pct");
    if !sh_mem && m.mem_pct > t.mem_pct {
        let x = Violation {
            metric: Metric::Mem,
            value: Num::U64(m.mem_pct as u64),
            limit: Num::U64(t.mem_pct as u64),
        };
        proof {
            lemma_push_violation(out@, x);
        }
        out.push(x);
    }
    let ghost a4 = a3 + one_if(
        !shadowed(tv, "mem_pct"@) && mv.mem_pct > tv.mem_pct,
        ViolationView {
            metric: MetricView::Mem,
            value: Num::U64(mv.mem_pct as u64),
            limit: Num::U64(tv.mem_pct as u64),
        },
    );
    assert(violations_view(out@) =~= a4);

    let sh_swap = t.custom.contains_key("swap_pct");
    if !sh_swap {
        if let (Some(swap), Some(limit)) = (m.swap_pct, t.swap_pct) {
            if swap > limit {
                let x = Violation {
                    metric: Metric::Swap,
                    value: Num::U64(swap as u64),
                    limit: Num::U64(limit as u64),
                };
                proof {
                    lemma_push_violation(out@, x);
                }
                out.push(x);
            }
        }
    }
    let ghost a5 = a4 + one_if(
        !shadowed(tv, "swap_pct"@) && mv.swap_pct is Some && tv.swap_pct is Some
            && mv.swap_pct.unwrap() > tv.swap_pct.unwrap(),
        ViolationView {
            metric: MetricView::Swap,
            value: Num::U64(mv.swap_pct.unwrap() as u64),
            limit: Num::U64(tv.swap_pct.unwrap() as u64),
        },
    );
    assert(violations_view(out@) =~= a5);

    let sh_proc = t.custom.contains_key("proc_count");
    if !sh_proc {
        if let (Some(procs), Some(limit)) = (m.proc_count, t.proc_count) {
            if procs > limit {
                let x = Violation {
                    metric: Metric::Proc,
                    value: Num::U64(procs as u64),
                    limit: Num::U64(limit as u64),
                };
                proof {
                    lemma_push_violation(out@, x);
                }
                out.push(x);
            }
        }
    }
    assert(violations_view(out@) =~= typed_violations(mv, tv));

    let n = t.custom.len();
    let mut i: usize = 0;
    assert(tv.custom.skip(0) =~= tv.custom);
    while i < n
        invariant
            n == tv.custom.len(),
            i <= n,
            mv == m@,
            tv == t@,
            violations_view(out@) + custom_violations(mv, tv.custom.skip(i as int))
                == evaluate_spec(mv, tv),
        decreases n - i,
    {
        let key = t.custom.key_chars_at(i);
        let limit = t.custom.limit_at(i);
        let ghost rest = tv.custom.skip(i as int);
        assert(rest[0] == tv.custom[i as int]);
        assert(rest.drop_first() =~= tv.custom.skip(i + 1));
        let ghost before = violations_view(out@);
        if let Some(value) = metric_value_by_name_chars(m, &key) {
            if num_gt(&value, &Num::F64(limit)) {
                let x = Violation { metric: Metric::Custom(custom_string(&key)), value, limit: Num::F64(limit) };
                proof {
                    lemma_push_violation(out@, x);
                }
                out.push(x);
                assert(before + custom_violations(mv, rest) =~= violations_view(out@)
                    + custom_violations(mv, tv.custom.skip(i + 1)));
            }
        }
        i = i + 1;
    }
    assert(tv.custom.skip(n as int) =~= Seq::<(Seq<char>, u64)>::empty());
    assert(violations_view(out@) + Seq::<ViolationView>::empty() =~= violations_view(out@));
    out
}

/// The report for host `name` once its metrics were (or could not be)
/// collected: an error of any kind makes the host unreachable, and
/// collected metrics are evaluated against the host's thresholds.
pub fn finish_check(name: String, collected: Result<Metrics, String>, thresholds: &Thresholds) -> (r:
    HostReport)
    ensures
        r.name == name,
        match collected {
            Ok(m) => r.outcome matches HostOutcome::Reached { metrics, violations } && metrics == m
                && violations_view(violations@) == evaluate_spec(m@, thresholds@),
            Err(e) => r.outcome matches HostOutcome::Unreachable { error } && error == e,
        },
{
    let outcome = match collected {
        Ok(metrics) => {
            let violations = evaluate(&metrics, thresholds);
            HostOutcome::Reached { metrics, violations }
        },
        Err(error) => HostOutcome::Unreachable { error },
    };
    HostReport { name, outcome }
}

// ---------------------------------------------------------------------------
// Retry and backoff
// ---------------------------------------------------------------------------

/// What to do after an attempt of the connect.
#[derive(Debug)]
pub enum RetryStep {
    /// Stop: return this attempt's result.
    Done,
    /// Sleep, then make attempt `next_attempt`.
    Retry { next_attempt: u32 },
}

/// The next attempt after attempt `attempt`, if any: none once an attempt
/// succeeds or `attempts` retries have been spent.
pub open spec fn next_attempt(attempt: nat, attempts: nat, succeeded: bool) -> Option<nat> {
    if succeeded || attempt >= attempts {
        None
    } else {
        Some(attempt + 1)
    }
}

/// Decides whether to retry after attempt `attempt` (counted from 0) of at
/// most `attempts` retries, that is `attempts + 1` invocations in all.
pub fn retry_step(attempt: u32, attempts: u32, succeeded: bool) -> (s: RetryStep)
    ensures
        match next_attempt(attempt as nat, attempts as nat, succeeded) {
            None => s is Done,
            Some(n) => s matches RetryStep::Retry { next_attempt } && next_attempt == n,
        },
{
    if succeeded || attempt >= attempts {
        RetryStep::Done
    } else {
        RetryStep::Retry { next_attempt: attempt + 1 }
    }
}

/// How many invocations a retry loop makes from attempt `attempt` on, where
/// invocation `i` succeeds exactly when `ok[i]` (and fails past its end).
pub open spec fn retry_calls(attempts: nat, ok: Seq<bool>, attempt: nat) -> nat
    decreases attempts - attempt,
{
    let succeeded = attempt < ok.len() && ok[attempt as int];
    match next_attempt(attempt, attempts, succeeded) {
        None => 1,
        Some(n) => 1 + retry_calls(attempts, ok, n),
    }
}

pub open spec fn pow2(k: nat) -> nat
    decreases k,
{
    if k == 0 {
        1
    } else {
        2 * pow2((k - 1) as nat)
    }
}

/// Backoff before retry `attempt`, without jitter: 200 ms doubling per
/// attempt, capped at 5 s.
pub open spec fn backoff_base_ms(attempt: nat) -> nat {
    let shift = if attempt < 5 {
        attempt
    } else {
        5
    };
    let b = 200 * pow2(shift);
    if b < 5000 {
        b
    } else {
        5000
    }
}

/// Integer division truncating toward zero, for a positive divisor.
pub open spec fn div_trunc(a: int, b: int) -> int {
    if a >= 0 {
        a / b
    } else {
        -((-a) / b)
    }
}

/// The backoff with ±20% jitter drawn from `nanos`: the jitter is
/// `base * ((nanos % 40001) - 20000) / 100000`, truncated toward zero, and
/// the total is never negative.
pub open spec fn backoff_spec(attempt: nat, nanos: nat) -> nat {
    let base = backoff_base_ms(attempt);
    let frac = (nanos % 40001) - 20000;
    let total = base + div_trunc(base * frac, 100000);
    if total < 0 {
        0
    } else {
        total as nat
    }
}

/// The backoff bases, attempt by attempt.
pub proof fn lemma_base_values(attempt: nat)
    ensures
        attempt == 0 ==> backoff_base_ms(attempt) == 200,
        attempt == 1 ==> backoff_base_ms(attempt) == 400,
        attempt == 2 ==> backoff_base_ms(attempt) == 800,
        attempt == 3 ==> backoff_base_ms(attempt) == 1600,
        attempt == 4 ==> backoff_base_ms(attempt) == 3200,
        attempt >= 5 ==> backoff_base_ms(attempt) == 5000,
{
    reveal_with_fuel(pow2, 6);
}

/// The jitter keeps the delay within 20% of the base.
pub proof fn lemma_backoff_bounds(attempt: nat, nanos: nat)
    ensures
        backoff_base_ms(attempt) - backoff_base_ms(attempt) / 5 <= backoff_spec(attempt, nanos)
            <= backoff_base_ms(attempt) + backoff_base_ms(attempt) / 5,
{
    let base = backoff_base_ms(attempt);
    let frac = (nanos % 40001) - 20000;
    assert(-20000 <= frac <= 20000);
    if frac >= 0 {
        assert(base * frac / 100000 <= base / 5) by (nonlinear_arith)
            requires
                0 <= frac <= 20000,
                base >= 0,
        ;
        assert(base * frac >= 0) by (nonlinear_arith)
            requires
                frac >= 0,
                base >= 0,
        ;
    } else {
        assert((base * (-frac)) / 100000 <= base / 5) by (nonlinear_arith)
            requires
                0 < -frac <= 20000,
                base >= 0,
        ;
        assert(-(base * frac) == base * (-frac)) by (nonlinear_arith);
        assert(base * (-frac) >= 0) by (nonlinear_arith)
            requires
                -frac >= 0,
                base >= 0,
        ;
    }
}

/// The backoff before retry `attempt`, in milliseconds, with the jitter
/// drawn from `nanos`.
pub fn backoff_delay_ms(attempt: u32, nanos: u32) -> (ms: u64)
    ensures
        ms == backoff_spec(attempt as nat, nanos as nat),
{
    proof {
        lemma_base_values(attempt as nat);
    }
    let base: u64 = if attempt == 0 {
        200
    } else if attempt == 1 {
        400
    } else if attempt == 2 {
        800
    } else if attempt == 3 {
        1600
    } else if attempt == 4 {
        3200
    } else {
        5000
    };
    let r = nanos % 40001;
    let total: u64 = if r >= 20000 {
        let f = (r - 20000) as u64;
        proof {
            assert(base * f <= 5000 * 20000) by (nonlinear_arith)
                requires
                    base <= 5000,
                    f <= 20000,
            ;
        }
        base + base * f / 100000
    } else {
        let f = (20000 - r) as u64;
        proof {
            assert(base * f <= 5000 * 20000) by (nonlinear_arith)
                requires
                    base <= 5000,
                    f <= 20000,
            ;
            assert(base * f / 100000 <= base) by (nonlinear_arith)
                requires
                    f <= 20000,
            ;
            assert(-(base * (r - 20000)) == base * f) by (nonlinear_arith)
                requires
                    f == 20000 - r,
            ;
        }
        base - base * f / 100000
    };
    total
}

/// An instant of the system clock (std's `SystemTime`).
#[verifier::external_type_specification]
#[verifier::external_body]
pub struct ExSystemTime(std::time::SystemTime);

/// The clock's current instant (std's `SystemTime::now`). Nothing is
/// claimed of it: it depends on the time.
#[verifier::external_body]
fn clock_now() -> std::time::SystemTime {
    std::time::SystemTime::now()
}

/// The time elapsed from the Unix epoch to `t` (std's
/// `SystemTime::duration_since(UNIX_EPOCH)`), or `None` when `t` is before
/// the epoch. Nothing is claimed of the value.
#[verifier::external_body]
fn since_unix_epoch(t: &std::time::SystemTime) -> Option<core::time::Duration> {
    t.duration_since(std::time::UNIX_EPOCH).ok()
}

/// The fractional part of `d` in nanoseconds (std's
/// `Duration::subsec_nanos`), which its documentation bounds below one
/// billion.
#[verifier::external_body]
fn subsec_nanos(d: &core::time::Duration) -> (n: u32)
    ensures
        n < 1_000_000_000,
{
    d.subsec_nanos()
}

/// The backoff before retry `attempt`, in milliseconds: 200 ms doubling per
/// attempt, capped at 5 s, with ±20% jitter taken from the clock's
/// sub-second nanoseconds (or from `attempt` when the clock is before the
/// epoch).
pub fn backoff_with_jitter(attempt: u32) -> (ms: u64)
    ensures
        exists|n: nat| ms == backoff_spec(attempt as nat, n),
        backoff_base_ms(attempt as nat) - backoff_base_ms(attempt as nat) / 5 <= ms
            <= backoff_base_ms(attempt as nat) + backoff_base_ms(attempt as nat) / 5,
{
    let now = clock_now();
    let nanos = match since_unix_epoch(&now) {
        Some(d) => subsec_nanos(&d),
        None => attempt,
    };
    let ms = backoff_delay_ms(attempt, nanos);
    proof {
        lemma_backoff_bounds(attempt as nat, nanos as nat);
    }
    ms
}

} // verus!
