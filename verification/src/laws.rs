//! Properties of the library as a whole, stated over the specifications
//! that the functions' contracts use.
use vstd::prelude::*;
use crate::check::{
    backoff_spec, div_trunc, lemma_backoff_bounds, lemma_base_values,
    HostReport, backoff_base_ms, custom_violations, evaluate_spec, metric_value, next_attempt, one_if, pow2,
    report_bad, retry_calls, shadowed, typed_violations, MetricView, ViolationView,
};
use crate::config::{
    entries_sorted, lemma_insert_sorted, lemma_lookup_absent, lemma_lookup_insert, lookup,
    merged_spec, or_opt, overlay, sorted_insert, CustomView, PartialThresholdsView, ThresholdsView,
};
use crate::float::{f32_view, f64_view, float_gt, lemma_whole_gt, num_view, Num};
use crate::metrics::{
    apply_line, known_key, parse_spec, read_lines, Fields, MetricsView, ParseErrorView, ReadingView,
};
use crate::check::Violation;
use crate::metrics::{uptime_text, Metrics};
use crate::report::{
    count_unreachable, count_warnings, has_warnings, is_unreachable, reached_row_view, summary_text, CellColor,
    CellView,
};
use crate::text::{
    all_digits, decimal, decimal_body, digit_char, float_syntax, mantissa_syntax, digit_value, digits_value, is_digit, is_ws, parse_uint, trim_end,
    trim_start,
};
use crate::text::{
    index_of, lemma_index_of, lemma_seq_lt_irreflexive, lemma_seq_lt_total, lemma_seq_lt_transitive, seq_lt,
    trim,
};

verus! {

broadcast use vstd::string::group_string_axioms;

// ---------------------------------------------------------------------------
// Merging thresholds
// ---------------------------------------------------------------------------

pub proof fn lemma_drop_first_sorted(s: CustomView)
    requires
        entries_sorted(s),
        s.len() > 0,
    ensures
        entries_sorted(s.drop_first()),
        forall|i: int| 0 <= i < s.drop_first().len() ==> seq_lt(s[0].0, #[trigger] s.drop_first()[i].0),
{
    let t = s.drop_first();
    assert forall|a: int, b: int| 0 <= a < b < t.len() implies seq_lt(
        #[trigger] t[a].0,
        #[trigger] t[b].0,
    ) by {
        assert(seq_lt(s[a + 1].0, s[b + 1].0));
    }
    assert forall|i: int| 0 <= i < t.len() implies seq_lt(s[0].0, #[trigger] t[i].0) by {
        assert(seq_lt(s[0].0, s[i + 1].0));
    }
}

/// Per-name overlay: after merging, the limit for a name is the host's when
/// the host sets one, else the global one (or none).
pub proof fn law_custom_overlay_per_name(base: CustomView, over: CustomView, k: Seq<char>)
    requires
        entries_sorted(over),
    ensures
        lookup(overlay(base, over), k) == or_opt(lookup(over, k), lookup(base, k)),
    decreases over.len(),
{
    if over.len() > 0 {
        let o = over[0];
        let rest = over.drop_first();
        lemma_drop_first_sorted(over);
        law_custom_overlay_per_name(sorted_insert(base, o.0, o.1), rest, k);
        lemma_lookup_insert(base, o.0, o.1, k);
        if k == o.0 {
            if rest.len() > 0 {
                lemma_seq_lt_irreflexive(k);
            }
            lemma_lookup_absent(rest, k);
        }
    }
}

/// Merging keeps the custom names sorted and unique.
pub proof fn law_overlay_sorted(base: CustomView, over: CustomView)
    requires
        entries_sorted(base),
    ensures
        entries_sorted(overlay(base, over)),
    decreases over.len(),
{
    if over.len() > 0 {
        lemma_insert_sorted(base, over[0].0, over[0].1);
        law_overlay_sorted(sorted_insert(base, over[0].0, over[0].1), over.drop_first());
    }
}

/// A host without overrides, or with an empty override table, gets the
/// global thresholds unchanged.
pub proof fn law_merge_without_overrides(t: ThresholdsView, o: PartialThresholdsView)
    requires
        o.disk_pct is None,
        o.temp_c is None,
        o.load_1m is None,
        o.mem_pct is None,
        o.swap_pct is None,
        o.proc_count is None,
        o.custom.len() == 0,
    ensures
        merged_spec(t, None) == t,
        merged_spec(t, Some(o)) == t,
{
}

/// Each typed limit a host sets wins over the global one; the others are
/// kept.
pub proof fn law_merge_override_wins(t: ThresholdsView, o: PartialThresholdsView)
    ensures
        o.disk_pct matches Some(d) ==> merged_spec(t, Some(o)).disk_pct == d,
        o.disk_pct is None ==> merged_spec(t, Some(o)).disk_pct == t.disk_pct,
        o.temp_c matches Some(x) ==> merged_spec(t, Some(o)).temp_c == x,
        o.temp_c is None ==> merged_spec(t, Some(o)).temp_c == t.temp_c,
        o.load_1m matches Some(x) ==> merged_spec(t, Some(o)).load_1m == x,
        o.load_1m is None ==> merged_spec(t, Some(o)).load_1m == t.load_1m,
        o.mem_pct matches Some(x) ==> merged_spec(t, Some(o)).mem_pct == x,
        o.mem_pct is None ==> merged_spec(t, Some(o)).mem_pct == t.mem_pct,
        o.swap_pct is Some ==> merged_spec(t, Some(o)).swap_pct == o.swap_pct,
        o.swap_pct is None ==> merged_spec(t, Some(o)).swap_pct == t.swap_pct,
        o.proc_count is Some ==> merged_spec(t, Some(o)).proc_count == o.proc_count,
        o.proc_count is None ==> merged_spec(t, Some(o)).proc_count == t.proc_count,
{
}

/// Two sorted custom tables that give the same limit for every name are the
/// same table.
proof fn lemma_sorted_lookup_ext(a: CustomView, b: CustomView)
    requires
        entries_sorted(a),
        entries_sorted(b),
        forall|k: Seq<char>| lookup(a, k) == lookup(b, k),
    ensures
        a == b,
    decreases a.len() + b.len(),
{
    if a.len() == 0 && b.len() == 0 {
        assert(a =~= b);
    } else if a.len() == 0 {
        assert(lookup(b, b[0].0) is Some);
        assert(lookup(a, b[0].0) is None);
    } else if b.len() == 0 {
        assert(lookup(a, a[0].0) is Some);
        assert(lookup(b, a[0].0) is None);
    } else {
        let ka = a[0].0;
        let kb = b[0].0;
        if ka == kb {
            let ta = a.drop_first();
            let tb = b.drop_first();
            lemma_drop_first_sorted(a);
            lemma_drop_first_sorted(b);
            assert(lookup(a, ka) == Some(a[0].1));
            assert(lookup(b, ka) == Some(b[0].1));
            assert forall|k: Seq<char>| lookup(ta, k) == lookup(tb, k) by {
                if k == ka {
                    lemma_lookup_absent(ta, k);
                    lemma_lookup_absent(tb, k);
                } else {
                    assert(lookup(a, k) == lookup(ta, k));
                    assert(lookup(b, k) == lookup(tb, k));
                }
            }
            lemma_sorted_lookup_ext(ta, tb);
            assert(a =~= b) by {
                assert forall|i: int| 0 <= i < a.len() implies a[i] == b[i] by {
                    if i > 0 {
                        assert(a[i] == ta[i - 1]);
                        assert(b[i] == tb[i - 1]);
                    }
                }
            }
        } else if seq_lt(ka, kb) {
            lemma_lookup_absent(b, ka);
            assert(lookup(a, ka) is Some);
        } else {
            lemma_seq_lt_total(ka, kb);
            lemma_lookup_absent(a, kb);
            assert(lookup(b, kb) is Some);
        }
    }
}

/// Overlaying the same host overrides a second time changes nothing more.
pub proof fn law_merge_idempotent(t: ThresholdsView, o: PartialThresholdsView)
    requires
        entries_sorted(t.custom),
        entries_sorted(o.custom),
    ensures
        merged_spec(merged_spec(t, Some(o)), Some(o)) == merged_spec(t, Some(o)),
{
    let once = overlay(t.custom, o.custom);
    let twice = overlay(once, o.custom);
    law_overlay_sorted(t.custom, o.custom);
    law_overlay_sorted(once, o.custom);
    assert forall|k: Seq<char>| lookup(twice, k) == lookup(once, k) by {
        law_custom_overlay_per_name(t.custom, o.custom, k);
        law_custom_overlay_per_name(once, o.custom, k);
    }
    lemma_sorted_lookup_ext(twice, once);
}

// ---------------------------------------------------------------------------
// Evaluation
// ---------------------------------------------------------------------------

/// The metric name a violation is about: the collector key of a typed
/// metric, or the custom entry's name.
pub open spec fn metric_name(k: MetricView) -> Seq<char> {
    match k {
        MetricView::Disk => "disk_pct"@,
        MetricView::Temp => "temp_c"@,
        MetricView::Load => "load_1m"@,
        MetricView::Mem => "mem_pct"@,
        MetricView::Swap => "swap_pct"@,
        MetricView::Proc => "proc_count"@,
        MetricView::Custom(n) => n,
    }
}

pub open spec fn rank(k: MetricView) -> int {
    match k {
        MetricView::Disk => 0,
        MetricView::Temp => 1,
        MetricView::Load => 2,
        MetricView::Mem => 3,
        MetricView::Swap => 4,
        MetricView::Proc => 5,
        MetricView::Custom(_) => 6,
    }
}

proof fn lemma_names_revealed()
    ensures
        "disk_pct"@ =~= seq!['d', 'i', 's', 'k', '_', 'p', 'c', 't'],
        "temp_c"@ =~= seq!['t', 'e', 'm', 'p', '_', 'c'],
        "load_1m"@ =~= seq!['l', 'o', 'a', 'd', '_', '1', 'm'],
        "mem_pct"@ =~= seq!['m', 'e', 'm', '_', 'p', 'c', 't'],
        "swap_pct"@ =~= seq!['s', 'w', 'a', 'p', '_', 'p', 'c', 't'],
        "proc_count"@ =~= seq!['p', 'r', 'o', 'c', '_', 'c', 'o', 'u', 'n', 't'],
        "uptime_secs"@ =~= seq!['u', 'p', 't', 'i', 'm', 'e', '_', 's', 'e', 'c', 's'],
{
    reveal_strlit("disk_pct");
    reveal_strlit("temp_c");
    reveal_strlit("load_1m");
    reveal_strlit("mem_pct");
    reveal_strlit("swap_pct");
    reveal_strlit("proc_count");
    reveal_strlit("uptime_secs");
}

/// Different typed metrics have different names.
proof fn lemma_typed_names_distinct(a: MetricView, b: MetricView)
    requires
        rank(a) < 6,
        rank(b) < 6,
        rank(a) != rank(b),
    ensures
        metric_name(a) != metric_name(b),
{
    lemma_names_revealed();
    let na = metric_name(a);
    let nb = metric_name(b);
    if na == nb {
        assert(na.len() == nb.len());
        assert(na[0] == nb[0]);
        assert(na[1] == nb[1]);
    }
}

/// The custom limit for `name`, as the `f64` it is.
pub open spec fn custom_limit(t: ThresholdsView, name: Seq<char>) -> Option<Num> {
    match lookup(t.custom, name) {
        Some(l) => Some(Num::F64(l)),
        None => None,
    }
}

/// What each violation of `q` satisfies, given thresholds `t`, metrics `m`.
pub open spec fn well_reported(m: MetricsView, t: ThresholdsView, v: ViolationView) -> bool {
    &&& float_gt(num_view(v.value), num_view(v.limit))
    &&& metric_value(m, metric_name(v.metric)) == Some(v.value)
    &&& (rank(v.metric) < 6 ==> !shadowed(t, metric_name(v.metric)))
    &&& (v.metric is Custom ==> custom_limit(t, metric_name(v.metric)) == Some(v.limit))
}

pub open spec fn ranks_increasing(q: Seq<ViolationView>) -> bool {
    forall|i: int, j: int| 0 <= i < j < q.len() ==> rank(#[trigger] q[i].metric) < rank(#[trigger] q[j].metric)
}

proof fn lemma_append_one(
    m: MetricsView,
    t: ThresholdsView,
    q: Seq<ViolationView>,
    b: bool,
    v: ViolationView,
)
    requires
        ranks_increasing(q),
        forall|i: int| 0 <= i < q.len() ==> rank(#[trigger] q[i].metric) < rank(v.metric),
        forall|i: int| 0 <= i < q.len() ==> well_reported(m, t, #[trigger] q[i]),
        b ==> well_reported(m, t, v),
    ensures
        ranks_increasing(q + one_if(b, v)),
        forall|i: int| 0 <= i < (q + one_if(b, v)).len() ==> rank(#[trigger] (q + one_if(b, v))[i].metric) <= rank(v.metric),
        forall|i: int| 0 <= i < (q + one_if(b, v)).len() ==> well_reported(m, t, #[trigger] (q + one_if(b, v))[i]),
{
    let r = q + one_if(b, v);
    assert forall|i: int| 0 <= i < r.len() implies rank(#[trigger] r[i].metric) <= rank(v.metric) && well_reported(m, t, r[i]) by {
        if i < q.len() {
            assert(r[i] == q[i]);
        } else {
            assert(r[i] == v);
        }
    }
    assert forall|i: int, j: int| 0 <= i < j < r.len() implies rank(#[trigger] r[i].metric) < rank(#[trigger] r[j].metric) by {
        if j < q.len() {
            assert(r[i] == q[i] && r[j] == q[j]);
        } else {
            assert(r[i] == q[i] && r[j] == v);
        }
    }
    assert forall|i: int| 0 <= i < r.len() implies well_reported(m, t, #[trigger] r[i]) by {
        if i < q.len() {
            assert(r[i] == q[i]);
        } else {
            assert(r[i] == v);
        }
    }
}

proof fn lemma_metric_values(m: MetricsView)
    ensures
        metric_value(m, "disk_pct"@) == Some(Num::U64(m.disk_pct as u64)),
        metric_value(m, "temp_c"@) == match m.temp_c {
            Some(c) => Some(Num::F32(c)),
            None => None,
        },
        metric_value(m, "load_1m"@) == Some(Num::F32(m.load_1m)),
        metric_value(m, "mem_pct"@) == Some(Num::U64(m.mem_pct as u64)),
        metric_value(m, "swap_pct"@) == match m.swap_pct {
            Some(v) => Some(Num::U64(v as u64)),
            None => None,
        },
        metric_value(m, "proc_count"@) == match m.proc_count {
            Some(v) => Some(Num::U64(v as u64)),
            None => None,
        },
{
    lemma_names_revealed();
    assert("temp_c"@ != "disk_pct"@ && "temp_c"@ != "load_1m"@ && "temp_c"@ != "mem_pct"@);
    assert("load_1m"@ != "disk_pct"@);
    assert("mem_pct"@ != "disk_pct"@ && "mem_pct"@ != "load_1m"@);
    assert("swap_pct"@ != "disk_pct"@ && "swap_pct"@ != "load_1m"@ && "swap_pct"@ != "mem_pct"@
        && "swap_pct"@ != "temp_c"@) by {
        assert("swap_pct"@[0] != "disk_pct"@[0]);
    }
    assert("proc_count"@ != "disk_pct"@ && "proc_count"@ != "load_1m"@ && "proc_count"@
        != "mem_pct"@ && "proc_count"@ != "temp_c"@ && "proc_count"@ != "swap_pct"@);
}

/// The typed violations come one per metric at most, in the order disk,
/// temp, load, mem, swap, procs, and each is reported well.
#[verifier::spinoff_prover]
#[verifier::rlimit(80)]
proof fn lemma_typed_well(m: MetricsView, t: ThresholdsView)
    ensures
        ranks_increasing(typed_violations(m, t)),
        forall|i: int| 0 <= i < typed_violations(m, t).len() ==> rank(#[trigger] typed_violations(m, t)[i].metric) <= 5,
        forall|i: int| 0 <= i < typed_violations(m, t).len() ==> well_reported(m, t, #[trigger] typed_violations(m, t)[i]),
{
    lemma_metric_values(m);
    lemma_whole_gt(m.disk_pct as u64, t.disk_pct as u64);
    lemma_whole_gt(m.mem_pct as u64, t.mem_pct as u64);
    if m.swap_pct is Some && t.swap_pct is Some {
        lemma_whole_gt(m.swap_pct.unwrap() as u64, t.swap_pct.unwrap() as u64);
    }
    if m.proc_count is Some && t.proc_count is Some {
        lemma_whole_gt(m.proc_count.unwrap() as u64, t.proc_count.unwrap() as u64);
    }
    let e = Seq::<ViolationView>::empty();
    let v0 = ViolationView {
        metric: MetricView::Disk,
        value: Num::U64(m.disk_pct as u64),
        limit: Num::U64(t.disk_pct as u64),
    };
    let b0 = !shadowed(t, "disk_pct"@) && m.disk_pct > t.disk_pct;
    lemma_append_one(m, t, e, b0, v0);
    let q0 = e + one_if(b0, v0);
    let v1 = ViolationView {
        metric: MetricView::Temp,
        value: Num::F32(m.temp_c.unwrap()),
        limit: Num::F32(t.temp_c),
    };
    let b1 = !shadowed(t, "temp_c"@) && m.temp_c is Some && float_gt(f32_view(m.temp_c.unwrap()), f32_view(t.temp_c));
    lemma_append_one(m, t, q0, b1, v1);
    let q1 = q0 + one_if(b1, v1);
    let v2 = ViolationView {
        metric: MetricView::Load,
        value: Num::F32(m.load_1m),
        limit: Num::F32(t.load_1m),
    };
    let b2 = !shadowed(t, "load_1m"@) && float_gt(f32_view(m.load_1m), f32_view(t.load_1m));
    lemma_append_one(m, t, q1, b2, v2);
    let q2 = q1 + one_if(b2, v2);
    let v3 = ViolationView {
        metric: MetricView::Mem,
        value: Num::U64(m.mem_pct as u64),
        limit: Num::U64(t.mem_pct as u64),
    };
    let b3 = !shadowed(t, "mem_pct"@) && m.mem_pct > t.mem_pct;
    lemma_append_one(m, t, q2, b3, v3);
    let q3 = q2 + one_if(b3, v3);
    let v4 = ViolationView {
        metric: MetricView::Swap,
        value: Num::U64(m.swap_pct.unwrap() as u64),
        limit: Num::U64(t.swap_pct.unwrap() as u64),
    };
    let b4 = !shadowed(t, "swap_pct"@) && m.swap_pct is Some && t.swap_pct is Some
        && m.swap_pct.unwrap() > t.swap_pct.unwrap();
    lemma_append_one(m, t, q3, b4, v4);
    let q4 = q3 + one_if(b4, v4);
    let v5 = ViolationView {
        metric: MetricView::Proc,
        value: Num::U64(m.proc_count.unwrap() as u64),
        limit: Num::U64(t.proc_count.unwrap() as u64),
    };
    let b5 = !shadowed(t, "proc_count"@) && m.proc_count is Some && t.proc_count is Some
        && m.proc_count.unwrap() > t.proc_count.unwrap();
    lemma_append_one(m, t, q4, b5, v5);
    assert(e + one_if(b0, v0) =~= one_if(b0, v0));
    assert(typed_violations(m, t) =~= q4 + one_if(b5, v5));
}

/// The custom violations: named by entries of `s`, in strictly increasing
/// name order, each reported well.
#[verifier::spinoff_prover]
#[verifier::rlimit(60)]
proof fn lemma_custom_well(m: MetricsView, t: ThresholdsView, s: CustomView)
    requires
        entries_sorted(s),
        forall|i: int| 0 <= i < s.len() ==> lookup(t.custom, #[trigger] s[i].0) == Some(s[i].1),
    ensures
        forall|i: int| 0 <= i < custom_violations(m, s).len() ==> (#[trigger] custom_violations(m, s)[i]).metric is Custom,
        forall|i: int| 0 <= i < custom_violations(m, s).len() ==> well_reported(m, t, #[trigger] custom_violations(m, s)[i]),
        forall|i: int| 0 <= i < custom_violations(m, s).len() ==> exists|k: int| 0 <= k < s.len() && s[k].0 == metric_name(#[trigger] custom_violations(m, s)[i].metric),
        forall|i: int, j: int| 0 <= i < j < custom_violations(m, s).len() ==> seq_lt(metric_name(#[trigger] custom_violations(m, s)[i].metric), metric_name(#[trigger] custom_violations(m, s)[j].metric)),
    decreases s.len(),
{
    if s.len() > 0 {
        let rest = s.drop_first();
        lemma_drop_first_sorted(s);
        assert forall|i: int| 0 <= i < rest.len() implies lookup(t.custom, #[trigger] rest[i].0) == Some(rest[i].1) by {
            assert(rest[i] == s[i + 1]);
        }
        lemma_custom_well(m, t, rest);
        let cr = custom_violations(m, rest);
        let c = custom_violations(m, s);
        assert forall|i: int| 0 <= i < cr.len() implies seq_lt(s[0].0, metric_name(#[trigger] cr[i].metric)) by {
            let k = choose|k: int| 0 <= k < rest.len() && rest[k].0 == metric_name(cr[i].metric);
            assert(seq_lt(s[0].0, rest[k].0));
        }
        match metric_value(m, s[0].0) {
            Some(x) => if float_gt(num_view(x), f64_view(s[0].1)) {
                let v = ViolationView {
                    metric: MetricView::Custom(s[0].0),
                    value: x,
                    limit: Num::F64(s[0].1),
                };
                assert(c =~= seq![v] + cr);
                assert(lookup(t.custom, s[0].0) == Some(s[0].1));
                assert forall|i: int| 0 <= i < c.len() implies exists|k: int| 0 <= k < s.len() && s[k].0 == metric_name(#[trigger] c[i].metric) by {
                    if i == 0 {
                        assert(s[0].0 == metric_name(c[0].metric));
                    } else {
                        assert(c[i] == cr[i - 1]);
                        let k = choose|k: int| 0 <= k < rest.len() && rest[k].0 == metric_name(cr[i - 1].metric);
                        assert(s[k + 1].0 == metric_name(c[i].metric));
                    }
                }
                assert forall|i: int, j: int| 0 <= i < j < c.len() implies seq_lt(metric_name(#[trigger] c[i].metric), metric_name(#[trigger] c[j].metric)) by {
                    if i == 0 {
                        assert(c[j] == cr[j - 1]);
                    } else {
                        assert(c[i] == cr[i - 1] && c[j] == cr[j - 1]);
                    }
                }
                assert forall|i: int| 0 <= i < c.len() implies well_reported(m, t, #[trigger] c[i]) && c[i].metric is Custom by {
                    if i > 0 {
                        assert(c[i] == cr[i - 1]);
                    }
                }
            } else {
                assert(c == cr);
                assert forall|i: int| 0 <= i < c.len() implies exists|k: int| 0 <= k < s.len() && s[k].0 == metric_name(#[trigger] c[i].metric) by {
                    let k = choose|k: int| 0 <= k < rest.len() && rest[k].0 == metric_name(cr[i].metric);
                    assert(s[k + 1].0 == metric_name(c[i].metric));
                }
            },
            None => {
                assert(c == cr);
                assert forall|i: int| 0 <= i < c.len() implies exists|k: int| 0 <= k < s.len() && s[k].0 == metric_name(#[trigger] c[i].metric) by {
                    let k = choose|k: int| 0 <= k < rest.len() && rest[k].0 == metric_name(cr[i].metric);
                    assert(s[k + 1].0 == metric_name(c[i].metric));
                }
            },
        }
    }
}

/// In a sorted map, every entry is what a lookup of its name finds.
proof fn lemma_lookup_entries(s: CustomView)
    requires
        entries_sorted(s),
    ensures
        forall|i: int| 0 <= i < s.len() ==> lookup(s, #[trigger] s[i].0) == Some(s[i].1),
    decreases s.len(),
{
    if s.len() > 0 {
        let rest = s.drop_first();
        lemma_drop_first_sorted(s);
        lemma_lookup_entries(rest);
        assert forall|i: int| 0 <= i < s.len() implies lookup(s, #[trigger] s[i].0) == Some(s[i].1) by {
            if i > 0 {
                assert(s[i] == rest[i - 1]);
                assert(seq_lt(s[0].0, s[i].0));
                if s[0].0 == s[i].0 {
                    lemma_seq_lt_irreflexive(s[0].0);
                }
            }
        }
    }
}

/// Every violation reports a value strictly above its limit, and the
/// current value of the metric it names: a value equal to its limit never
/// violates, and a custom name that matches no known metric, or a metric
/// the host lacks, never produces one. A custom violation carries the
/// custom limit, and a typed violation is only raised for a metric that no
/// custom entry shadows.
#[verifier::spinoff_prover]
#[verifier::rlimit(60)]
pub proof fn law_violations_well_reported(m: MetricsView, t: ThresholdsView)
    requires
        entries_sorted(t.custom),
    ensures
        forall|i: int| 0 <= i < evaluate_spec(m, t).len() ==> well_reported(m, t, #[trigger] evaluate_spec(m, t)[i]),
{
    lemma_typed_well(m, t);
    lemma_lookup_entries(t.custom);
    lemma_custom_well(m, t, t.custom);
    let ty = typed_violations(m, t);
    let cu = custom_violations(m, t.custom);
    assert forall|i: int| 0 <= i < evaluate_spec(m, t).len() implies well_reported(m, t, #[trigger] evaluate_spec(m, t)[i]) by {
        if i < ty.len() {
            assert(evaluate_spec(m, t)[i] == ty[i]);
        } else {
            assert(evaluate_spec(m, t)[i] == cu[i - ty.len()]);
        }
    }
}

/// A metric never fires twice: no two violations name the same metric, so
/// a custom entry that shadows a typed metric replaces its check rather
/// than adding a second one.
#[verifier::spinoff_prover]
#[verifier::rlimit(60)]
pub proof fn law_no_double_fire(m: MetricsView, t: ThresholdsView)
    requires
        entries_sorted(t.custom),
    ensures
        forall|i: int, j: int|
            0 <= i < j < evaluate_spec(m, t).len() ==> metric_name(#[trigger] evaluate_spec(m, t)[i].metric)
                != metric_name(#[trigger] evaluate_spec(m, t)[j].metric),
{
    lemma_typed_well(m, t);
    lemma_lookup_entries(t.custom);
    lemma_custom_well(m, t, t.custom);
    let ty = typed_violations(m, t);
    let cu = custom_violations(m, t.custom);
    let ev = evaluate_spec(m, t);
    assert forall|i: int, j: int| 0 <= i < j < ev.len() implies metric_name(#[trigger] ev[i].metric)
        != metric_name(#[trigger] ev[j].metric) by {
        if j < ty.len() {
            assert(ev[i] == ty[i] && ev[j] == ty[j]);
            lemma_typed_names_distinct(ty[i].metric, ty[j].metric);
        } else if i < ty.len() {
            assert(ev[i] == ty[i] && ev[j] == cu[j - ty.len()]);
            assert(well_reported(m, t, cu[j - ty.len()]));
            assert(well_reported(m, t, ty[i]));
            assert(cu[j - ty.len()].metric is Custom);
        } else {
            assert(ev[i] == cu[i - ty.len()] && ev[j] == cu[j - ty.len()]);
            let a = metric_name(cu[i - ty.len()].metric);
            assert(seq_lt(a, metric_name(cu[j - ty.len()].metric)));
            lemma_seq_lt_irreflexive(a);
        }
    }
}

/// A metric the host lacks (temperature, swap, process count) never
/// violates, whatever the thresholds say.
pub proof fn law_absent_metrics_never_violate(m: MetricsView, t: ThresholdsView)
    requires
        entries_sorted(t.custom),
    ensures
        m.temp_c is None ==> forall|i: int| 0 <= i < evaluate_spec(m, t).len() ==> metric_name(#[trigger] evaluate_spec(m, t)[i].metric) != "temp_c"@,
        m.swap_pct is None ==> forall|i: int| 0 <= i < evaluate_spec(m, t).len() ==> metric_name(#[trigger] evaluate_spec(m, t)[i].metric) != "swap_pct"@,
        m.proc_count is None ==> forall|i: int| 0 <= i < evaluate_spec(m, t).len() ==> metric_name(#[trigger] evaluate_spec(m, t)[i].metric) != "proc_count"@,
{
    law_violations_well_reported(m, t);
    lemma_metric_values(m);
}

// ---------------------------------------------------------------------------
// Reports
// ---------------------------------------------------------------------------

/// The summary calls the fleet healthy exactly when no report is bad, the
/// same condition under which the run exits zero.
pub proof fn law_summary_healthy_iff_none_bad(rs: Seq<HostReport>)
    ensures
        (count_unreachable(rs) == 0 && count_warnings(rs) == 0) <==> (forall|i: int|
            0 <= i < rs.len() ==> !report_bad(#[trigger] rs[i])),
    decreases rs.len(),
{
    if rs.len() > 0 {
        let init = rs.drop_last();
        law_summary_healthy_iff_none_bad(init);
        assert(report_bad(rs.last()) == (is_unreachable(rs.last()) || has_warnings(rs.last())));
        if forall|i: int| 0 <= i < rs.len() ==> !report_bad(#[trigger] rs[i]) {
            assert(!report_bad(rs[rs.len() - 1]));
            assert forall|i: int| 0 <= i < init.len() implies !report_bad(#[trigger] init[i]) by {
                assert(init[i] == rs[i]);
            }
        }
        if count_unreachable(rs) == 0 && count_warnings(rs) == 0 {
            assert forall|i: int| 0 <= i < rs.len() implies !report_bad(#[trigger] rs[i]) by {
                if i < init.len() {
                    assert(init[i] == rs[i]);
                }
            }
        }
    }
}

// ---------------------------------------------------------------------------
// Retry and backoff
// ---------------------------------------------------------------------------

/// A retry loop makes at most `attempts + 1` invocations: exactly
/// `attempts + 1` when every invocation fails, and `k + 1` when invocation
/// `k` (with `k <= attempts`) is the first to succeed.
pub proof fn law_retry_invocations(attempts: nat, ok: Seq<bool>, a: nat)
    requires
        a <= attempts,
    ensures
        retry_calls(attempts, ok, a) <= attempts - a + 1,
        (forall|i: int| a <= i < ok.len() ==> !#[trigger] ok[i]) ==> retry_calls(attempts, ok, a)
            == attempts - a + 1,
        forall|k: int|
            a <= k <= attempts && k < ok.len() && ok[k] && (forall|i: int| a <= i < k ==> !#[trigger] ok[i])
                ==> retry_calls(attempts, ok, a) == k - a + 1,
    decreases attempts - a,
{
    if a < attempts {
        law_retry_invocations(attempts, ok, a + 1);
    }
}

pub proof fn lemma_pow2_monotone(a: nat, b: nat)
    requires
        a <= b,
    ensures
        pow2(a) <= pow2(b),
    decreases b,
{
    if a < b {
        lemma_pow2_monotone(a, (b - 1) as nat);
    }
}

/// The backoff base never shrinks from one attempt to the next and never
/// exceeds 5 s.
pub proof fn law_backoff_base_monotone_capped(a: nat, b: nat)
    requires
        a <= b,
    ensures
        backoff_base_ms(a) <= backoff_base_ms(b) <= 5000,
{
    let sa: nat = if a < 5 { a } else { 5 };
    let sb: nat = if b < 5 { b } else { 5 };
    lemma_pow2_monotone(sa, sb);
}

/// The jittered delay grows with the base it is drawn around: for the same
/// jitter draw, a larger base never gives a shorter delay.
proof fn lemma_jitter_monotone_in_base(b1: int, b2: int, frac: int)
    requires
        0 <= b1 <= b2 <= 5000,
        b1 == b2 || b2 - b1 >= 200,
        -20000 <= frac <= 20000,
    ensures
        b1 + div_trunc(b1 * frac, 100000) <= b2 + div_trunc(b2 * frac, 100000),
{
    if b1 < b2 {
        if frac >= 0 {
            assert(b1 * frac <= b2 * frac) by (nonlinear_arith)
                requires
                    b1 <= b2,
                    frac >= 0,
            ;
            assert(b1 * frac >= 0) by (nonlinear_arith)
                requires
                    b1 >= 0,
                    frac >= 0,
            ;
            vstd::arithmetic::div_mod::lemma_div_is_ordered(b1 * frac, b2 * frac, 100000);
        } else {
            let c = -frac;
            let x = b1 * c;
            let y = b2 * c;
            assert(x >= 0 && y >= x && y - x <= 20000 * (b2 - b1)) by (nonlinear_arith)
                requires
                    0 <= b1 <= b2,
                    0 < c <= 20000,
                    x == b1 * c,
                    y == b2 * c,
            ;
            assert(b1 * frac == -x && b2 * frac == -y) by (nonlinear_arith)
                requires
                    c == -frac,
                    x == b1 * c,
                    y == b2 * c,
            ;
            vstd::arithmetic::div_mod::lemma_fundamental_div_mod(x, 100000);
            vstd::arithmetic::div_mod::lemma_fundamental_div_mod(y, 100000);
            assert(0 <= x % 100000 < 100000);
            assert(0 <= y % 100000 < 100000);
        }
    }
}

/// For the same clock reading, the jittered delay never shrinks as the
/// attempt grows, stays the same from attempt 5 on (where the base is
/// capped), and always lies between 160 ms and 6 s.
pub proof fn law_jittered_backoff_monotone(a: nat, b: nat, nanos: nat)
    requires
        a <= b,
    ensures
        backoff_spec(a, nanos) <= backoff_spec(b, nanos),
        a >= 5 ==> backoff_spec(a, nanos) == backoff_spec(b, nanos),
        160 <= backoff_spec(a, nanos) <= 6000,
{
    lemma_base_values(a);
    lemma_base_values(b);
    lemma_backoff_bounds(a, nanos);
    let frac = (nanos % 40001) - 20000;
    lemma_jitter_monotone_in_base(backoff_base_ms(a) as int, backoff_base_ms(b) as int, frac);
}

// ---------------------------------------------------------------------------
// Parsing
// ---------------------------------------------------------------------------

/// Reading `s`, a newline, then `x` is reading `s` and then `x`.
proof fn lemma_read_lines_append(acc: Fields, s: Seq<char>, x: Seq<char>)
    ensures
        read_lines(acc, s + seq!['\n'] + x) == match read_lines(acc, s) {
            Ok(a) => read_lines(a, x),
            Err(e) => Err(e),
        },
    decreases s.len(),
{
    let w = s + seq!['\n'] + x;
    let k = index_of(s, '\n');
    crate::text::lemma_index_of_bounds(s, '\n');
    if k < s.len() {
        lemma_index_of(w, '\n', k as int);
        assert(w.take(k as int) =~= s.take(k as int));
        assert(w.skip((k + 1) as int) =~= s.skip((k + 1) as int) + seq!['\n'] + x);
        let line = trim(s.take(k as int));
        let r = if line.len() == 0 {
            Ok(acc)
        } else {
            apply_line(acc, line)
        };
        if let Ok(a) = r {
            lemma_read_lines_append(a, s.skip((k + 1) as int), x);
        }
    } else {
        assert forall|t: int| 0 <= t < s.len() implies w[t] != '\n' by {
            assert(w[t] == s[t]);
        }
        lemma_index_of(w, '\n', s.len() as int);
        assert(w.take(s.len() as int) =~= s);
        assert(s.take(s.len() as int) =~= s);
        assert(w.skip((s.len() + 1) as int) =~= x);
    }
}

/// A line the parser passes over: blank, or `key=value` with a key it does
/// not know.
pub open spec fn ignored_line(l: Seq<char>) -> bool {
    let tl = trim(l);
    &&& index_of(l, '\n') == l.len()
    &&& (tl.len() == 0 || (index_of(tl, '=') < tl.len() && !known_key(tl.take(index_of(tl, '=') as int))))
}

/// The lines `ls`, each ended by a newline.
pub open spec fn lines_text(ls: Seq<Seq<char>>) -> Seq<char>
    decreases ls.len(),
{
    if ls.len() == 0 {
        Seq::empty()
    } else {
        ls[0] + seq!['\n'] + lines_text(ls.drop_first())
    }
}

/// Passed-over lines leave the parser's state as it was.
proof fn lemma_skip_ignored(acc: Fields, ls: Seq<Seq<char>>, t: Seq<char>)
    requires
        forall|i: int| 0 <= i < ls.len() ==> ignored_line(#[trigger] ls[i]),
    ensures
        read_lines(acc, lines_text(ls) + t) == read_lines(acc, t),
    decreases ls.len(),
{
    if ls.len() > 0 {
        let l = ls[0];
        let rest = ls.drop_first();
        assert(ignored_line(ls[0]));
        assert forall|i: int| 0 <= i < rest.len() implies ignored_line(#[trigger] rest[i]) by {
            assert(rest[i] == ls[i + 1]);
        }
        lemma_skip_ignored(acc, rest, t);
        let w = lines_text(ls) + t;
        assert(w =~= l + seq!['\n'] + (lines_text(rest) + t));
        crate::text::lemma_index_of_bounds(l, '\n');
        assert forall|k: int| 0 <= k < l.len() implies w[k] != '\n' by {
            assert(w[k] == l[k]);
        }
        lemma_index_of(w, '\n', l.len() as int);
        assert(w.take(l.len() as int) =~= l);
        assert(w.skip((l.len() + 1) as int) =~= lines_text(rest) + t);
        reveal(apply_line);
        let tl = trim(l);
        if tl.len() > 0 {
            assert(apply_line(acc, tl) == Ok::<Fields, crate::metrics::ParseErrorView>(acc));
        }
    }
}

/// Blank lines, and lines whose key the parser does not know, change
/// nothing, however many there are and wherever they stand among the
/// lines: the collector can add keys without breaking older readers.
pub proof fn law_ignored_lines_anywhere(s: Seq<char>, ls: Seq<Seq<char>>, t: Seq<char>)
    requires
        forall|i: int| 0 <= i < ls.len() ==> ignored_line(#[trigger] ls[i]),
    ensures
        parse_spec(lines_text(ls) + t) == parse_spec(t),
        parse_spec(s + seq!['\n'] + lines_text(ls) + t) == parse_spec(s + seq!['\n'] + t),
{
    let f0 = crate::metrics::no_fields();
    lemma_skip_ignored(f0, ls, t);
    assert(s + seq!['\n'] + lines_text(ls) + t =~= s + seq!['\n'] + (lines_text(ls) + t));
    lemma_read_lines_append(f0, s, lines_text(ls) + t);
    lemma_read_lines_append(f0, s, t);
    if let Ok(a) = read_lines(f0, s) {
        lemma_skip_ignored(a, ls, t);
    }
}


// ---------------------------------------------------------------------------
// Uptime, summary and row rendering
// ---------------------------------------------------------------------------

/// The uptime text reads back to the time it renders: whole days and the
/// hours past them when there is a day, whole hours and the minutes past
/// them when there is an hour, whole minutes when there is a minute, else
/// the seconds.
pub proof fn law_uptime_text_reads_back(secs: nat)
    ensures
        secs >= 86_400 ==> exists|d: nat, h: nat|
            #![trigger decimal(d), decimal(h)]
            h < 24 && d * 86_400 + h * 3_600 <= secs < d * 86_400 + (h + 1) * 3_600
                && uptime_text(secs) == decimal(d) + seq!['d', ' '] + decimal(h) + seq!['h'],
        3_600 <= secs < 86_400 ==> exists|h: nat, mi: nat|
            #![trigger decimal(h), decimal(mi)]
            mi < 60 && h * 3_600 + mi * 60 <= secs < h * 3_600 + (mi + 1) * 60
                && uptime_text(secs) == decimal(h) + seq!['h', ' '] + decimal(mi) + seq!['m'],
        60 <= secs < 3_600 ==> exists|mi: nat|
            #![trigger decimal(mi)]
            mi * 60 <= secs < (mi + 1) * 60 && uptime_text(secs) == decimal(mi) + seq!['m'],
        secs < 60 ==> uptime_text(secs) == decimal(secs) + seq!['s'],
{
    let days = secs / 86_400;
    let rem = secs % 86_400;
    let hours = rem / 3_600;
    let rem2 = rem % 3_600;
    let mins = rem2 / 60;
    vstd::arithmetic::div_mod::lemma_fundamental_div_mod(secs as int, 86_400);
    vstd::arithmetic::div_mod::lemma_fundamental_div_mod(rem as int, 3_600);
    vstd::arithmetic::div_mod::lemma_fundamental_div_mod(rem2 as int, 60);
    assert(secs == days * 86_400 + rem && rem < 86_400);
    assert(rem == hours * 3_600 + rem2 && rem2 < 3_600);
    assert(rem2 == mins * 60 + rem2 % 60 && rem2 % 60 < 60);
    assert(hours < 24) by (nonlinear_arith)
        requires
            rem == hours * 3_600 + rem2,
            rem < 86_400,
            rem2 >= 0,
    ;
    assert(mins < 60) by (nonlinear_arith)
        requires
            rem2 == mins * 60 + rem2 % 60,
            rem2 < 3_600,
            rem2 % 60 >= 0,
    ;
    if secs >= 86_400 {
        assert(days >= 1) by (nonlinear_arith)
            requires
                secs == days * 86_400 + rem,
                rem < 86_400,
                secs >= 86_400,
        ;
        assert(uptime_text(secs) == decimal(days) + seq!['d', ' '] + decimal(hours) + seq!['h']);
    } else if secs >= 3_600 {
        assert(days == 0 && rem == secs) by (nonlinear_arith)
            requires
                secs == days * 86_400 + rem,
                rem < 86_400,
                secs < 86_400,
                rem >= 0,
        ;
        assert(hours >= 1);
        assert(uptime_text(secs) == decimal(hours) + seq!['h', ' '] + decimal(mins) + seq!['m']);
    } else if secs >= 60 {
        assert(days == 0 && rem == secs) by (nonlinear_arith)
            requires
                secs == days * 86_400 + rem,
                rem < 86_400,
                secs < 86_400,
                rem >= 0,
        ;
        assert(hours == 0 && rem2 == secs) by (nonlinear_arith)
            requires
                rem == hours * 3_600 + rem2,
                rem2 < 3_600,
                rem < 3_600,
                rem2 >= 0,
                hours >= 0,
                rem == secs,
        ;
        assert(uptime_text(secs) == decimal(mins) + seq!['m']);
    } else {
        assert(days == 0 && rem == secs) by (nonlinear_arith)
            requires
                secs == days * 86_400 + rem,
                rem < 86_400,
                secs < 86_400,
                rem >= 0,
        ;
        assert(hours == 0 && rem2 == secs) by (nonlinear_arith)
            requires
                rem == hours * 3_600 + rem2,
                rem2 < 3_600,
                rem < 3_600,
                rem2 >= 0,
                hours >= 0,
                rem == secs,
        ;
        assert(mins == 0 && rem2 % 60 == secs) by (nonlinear_arith)
            requires
                rem2 == mins * 60 + rem2 % 60,
                rem2 < 60,
                rem2 % 60 >= 0,
                rem2 % 60 < 60,
                rem2 == secs,
        ;
    }
}

/// The summary calls the fleet healthy (`all N hosts healthy`) exactly when
/// no host is unreachable and none has warnings; otherwise it gives both
/// counts and the total.
pub proof fn law_summary_text_forms(mark: Seq<char>, total: nat, unreachable: nat, warn: nat)
    ensures
        unreachable == 0 && warn == 0 ==> summary_text(mark, total, unreachable, warn) == mark
            + " all "@ + decimal(total) + " hosts healthy"@,
        unreachable > 0 || warn > 0 ==> summary_text(mark, total, unreachable, warn) == mark + " "@
            + decimal(unreachable) + " unreachable, "@ + decimal(warn) + " with warnings (of "@
            + decimal(total) + " hosts)"@,
{
}

/// Whether the violations name metric `k`.
pub open spec fn names_metric(vs: Seq<Violation>, k: MetricView) -> bool {
    exists|i: int| 0 <= i < vs.len() && (#[trigger] vs[i]).metric@ == k
}

/// A metric cell is red and bold when its metric is over its limit, and
/// green and plain otherwise.
pub open spec fn flags(c: CellView, over: bool) -> bool {
    if over {
        c.color == Some(CellColor::Red) && c.bold
    } else {
        c.color == Some(CellColor::Green) && !c.bold
    }
}

/// In a reached host's row, each metric cell is flagged exactly when the
/// violations name that cell's own metric: disk in column 3, temperature in
/// 4, load in 5, memory in 6, swap in 7, processes in 8 (temperature, swap
/// and processes where the host has them; a missing one is a grey dash).
/// The status cell reads OK without violations and WARN with any.
pub proof fn law_row_flags_own_metric(name: Seq<char>, m: Metrics, vs: Seq<Violation>)
    ensures
        ({
            let row = reached_row_view(name, m, vs);
            &&& row.len() == 9
            &&& row[0].text == name
            &&& row[1].text == (if vs.len() == 0 { "OK"@ } else { "WARN"@ })
            &&& flags(row[3], names_metric(vs, MetricView::Disk))
            &&& m.temp_c is Some ==> flags(row[4], names_metric(vs, MetricView::Temp))
            &&& flags(row[5], names_metric(vs, MetricView::Load))
            &&& flags(row[6], names_metric(vs, MetricView::Mem))
            &&& m.swap_pct is Some ==> flags(row[7], names_metric(vs, MetricView::Swap))
            &&& m.proc_count is Some ==> flags(row[8], names_metric(vs, MetricView::Proc))
            &&& m.temp_c is None ==> row[4].text == seq!['\u{2014}'] && row[4].color == Some(CellColor::DarkGrey)
            &&& m.swap_pct is None ==> row[7].text == seq!['\u{2014}'] && row[7].color == Some(CellColor::DarkGrey)
            &&& m.proc_count is None ==> row[8].text == seq!['\u{2014}'] && row[8].color == Some(CellColor::DarkGrey)
        }),
{
}


// ---------------------------------------------------------------------------
// Evaluation is complete
// ---------------------------------------------------------------------------

/// Whether the violations `q` name metric `k`.
pub open spec fn reports_metric(q: Seq<ViolationView>, k: MetricView) -> bool {
    exists|i: int| 0 <= i < q.len() && (#[trigger] q[i]).metric == k
}

proof fn lemma_reports_in_sum(a: Seq<ViolationView>, b: Seq<ViolationView>, k: MetricView)
    ensures
        reports_metric(a, k) ==> reports_metric(a + b, k),
        reports_metric(b, k) ==> reports_metric(a + b, k),
{
    if reports_metric(a, k) {
        let i = choose|i: int| 0 <= i < a.len() && (#[trigger] a[i]).metric == k;
        assert((a + b)[i] == a[i]);
    }
    if reports_metric(b, k) {
        let i = choose|i: int| 0 <= i < b.len() && (#[trigger] b[i]).metric == k;
        assert((a + b)[a.len() + i] == b[i]);
    }
}

proof fn lemma_one_if_reports(c: bool, v: ViolationView)
    ensures
        c ==> reports_metric(one_if(c, v), v.metric),
{
    if c {
        assert(one_if(c, v)[0] == v);
    }
}

/// A custom entry whose metric the host has, above its limit, is reported.
proof fn lemma_custom_complete(m: MetricsView, s: CustomView, k: Seq<char>, l: u64, x: Num)
    requires
        lookup(s, k) == Some(l),
        metric_value(m, k) == Some(x),
        float_gt(num_view(x), f64_view(l)),
    ensures
        reports_metric(custom_violations(m, s), MetricView::Custom(k)),
    decreases s.len(),
{
    let c = custom_violations(m, s);
    let rest = custom_violations(m, s.drop_first());
    if s[0].0 == k {
        assert(c[0].metric == MetricView::Custom(k));
    } else {
        lemma_custom_complete(m, s.drop_first(), k, l, x);
        let i = choose|i: int| 0 <= i < rest.len() && (#[trigger] rest[i]).metric == MetricView::Custom(k);
        match metric_value(m, s[0].0) {
            Some(y) => if float_gt(num_view(y), f64_view(s[0].1)) {
                assert(c[i + 1] == rest[i]);
            } else {
                assert(c == rest);
            },
            None => {
                assert(c == rest);
            },
        }
    }
}

/// Every breach is reported: each typed metric that no custom entry
/// shadows and whose value is strictly above its limit gives a violation of
/// that metric (the temperature, swap and process count where the host has
/// them), and so does each custom entry whose metric the host has, above
/// the entry's limit.
pub proof fn law_violations_complete(m: MetricsView, t: ThresholdsView)
    ensures
        lookup(t.custom, "disk_pct"@) is None && m.disk_pct > t.disk_pct ==> reports_metric(
            evaluate_spec(m, t),
            MetricView::Disk,
        ),
        lookup(t.custom, "temp_c"@) is None && m.temp_c is Some && float_gt(
            f32_view(m.temp_c.unwrap()),
            f32_view(t.temp_c),
        ) ==> reports_metric(evaluate_spec(m, t), MetricView::Temp),
        lookup(t.custom, "load_1m"@) is None && float_gt(f32_view(m.load_1m), f32_view(t.load_1m))
            ==> reports_metric(evaluate_spec(m, t), MetricView::Load),
        lookup(t.custom, "mem_pct"@) is None && m.mem_pct > t.mem_pct ==> reports_metric(
            evaluate_spec(m, t),
            MetricView::Mem,
        ),
        lookup(t.custom, "swap_pct"@) is None && m.swap_pct is Some && t.swap_pct is Some
            && m.swap_pct.unwrap() > t.swap_pct.unwrap() ==> reports_metric(
            evaluate_spec(m, t),
            MetricView::Swap,
        ),
        lookup(t.custom, "proc_count"@) is None && m.proc_count is Some && t.proc_count is Some
            && m.proc_count.unwrap() > t.proc_count.unwrap() ==> reports_metric(
            evaluate_spec(m, t),
            MetricView::Proc,
        ),
        forall|k: Seq<char>, l: u64, x: Num|
            #![trigger lookup(t.custom, k), metric_value(m, k), f64_view(l), num_view(x)]
            lookup(t.custom, k) == Some(l) && metric_value(m, k) == Some(x) && float_gt(
                num_view(x),
                f64_view(l),
            ) ==> reports_metric(evaluate_spec(m, t), MetricView::Custom(k)),
{
    let ty = typed_violations(m, t);
    let cu = custom_violations(m, t.custom);
    let q0 = one_if(
        !shadowed(t, "disk_pct"@) && m.disk_pct > t.disk_pct,
        ViolationView {
            metric: MetricView::Disk,
            value: Num::U64(m.disk_pct as u64),
            limit: Num::U64(t.disk_pct as u64),
        },
    );
    let q1 = one_if(
        !shadowed(t, "temp_c"@) && m.temp_c is Some && float_gt(f32_view(m.temp_c.unwrap()), f32_view(t.temp_c)),
        ViolationView {
            metric: MetricView::Temp,
            value: Num::F32(m.temp_c.unwrap()),
            limit: Num::F32(t.temp_c),
        },
    );
    let q2 = one_if(
        !shadowed(t, "load_1m"@) && float_gt(f32_view(m.load_1m), f32_view(t.load_1m)),
        ViolationView {
            metric: MetricView::Load,
            value: Num::F32(m.load_1m),
            limit: Num::F32(t.load_1m),
        },
    );
    let q3 = one_if(
        !shadowed(t, "mem_pct"@) && m.mem_pct > t.mem_pct,
        ViolationView {
            metric: MetricView::Mem,
            value: Num::U64(m.mem_pct as u64),
            limit: Num::U64(t.mem_pct as u64),
        },
    );
    let q4 = one_if(
        !shadowed(t, "swap_pct"@) && m.swap_pct is Some && t.swap_pct is Some
            && m.swap_pct.unwrap() > t.swap_pct.unwrap(),
        ViolationView {
            metric: MetricView::Swap,
            value: Num::U64(m.swap_pct.unwrap() as u64),
            limit: Num::U64(t.swap_pct.unwrap() as u64),
        },
    );
    let q5 = one_if(
        !shadowed(t, "proc_count"@) && m.proc_count is Some && t.proc_count is Some
            && m.proc_count.unwrap() > t.proc_count.unwrap(),
        ViolationView {
            metric: MetricView::Proc,
            value: Num::U64(m.proc_count.unwrap() as u64),
            limit: Num::U64(t.proc_count.unwrap() as u64),
        },
    );
    assert(ty == q0 + q1 + q2 + q3 + q4 + q5);
    assert forall|k: MetricView|
        #![trigger reports_metric(evaluate_spec(m, t), k)]
        reports_metric(q0, k) || reports_metric(q1, k) || reports_metric(q2, k)
        || reports_metric(q3, k) || reports_metric(q4, k) || reports_metric(q5, k) implies reports_metric(
        evaluate_spec(m, t),
        k,
    ) by {
        lemma_reports_in_sum(q0, q1, k);
        lemma_reports_in_sum(q0 + q1, q2, k);
        lemma_reports_in_sum(q0 + q1 + q2, q3, k);
        lemma_reports_in_sum(q0 + q1 + q2 + q3, q4, k);
        lemma_reports_in_sum(q0 + q1 + q2 + q3 + q4, q5, k);
        lemma_reports_in_sum(ty, cu, k);
    }
    if !shadowed(t, "disk_pct"@) && m.disk_pct > t.disk_pct {
        assert(q0[0].metric == MetricView::Disk);
        assert(reports_metric(q0, MetricView::Disk));
    }
    if !shadowed(t, "temp_c"@) && m.temp_c is Some && float_gt(f32_view(m.temp_c.unwrap()), f32_view(t.temp_c)) {
        assert(q1[0].metric == MetricView::Temp);
        assert(reports_metric(q1, MetricView::Temp));
    }
    if !shadowed(t, "load_1m"@) && float_gt(f32_view(m.load_1m), f32_view(t.load_1m)) {
        assert(q2[0].metric == MetricView::Load);
        assert(reports_metric(q2, MetricView::Load));
    }
    if !shadowed(t, "mem_pct"@) && m.mem_pct > t.mem_pct {
        assert(q3[0].metric == MetricView::Mem);
        assert(reports_metric(q3, MetricView::Mem));
    }
    if !shadowed(t, "swap_pct"@) && m.swap_pct is Some && t.swap_pct is Some && m.swap_pct.unwrap() > t.swap_pct.unwrap() {
        assert(q4[0].metric == MetricView::Swap);
        assert(reports_metric(q4, MetricView::Swap));
    }
    if !shadowed(t, "proc_count"@) && m.proc_count is Some && t.proc_count is Some && m.proc_count.unwrap() > t.proc_count.unwrap() {
        assert(q5[0].metric == MetricView::Proc);
        assert(reports_metric(q5, MetricView::Proc));
    }
    assert forall|k: Seq<char>, l: u64, x: Num|
        #![trigger lookup(t.custom, k), metric_value(m, k), f64_view(l), num_view(x)]
        lookup(t.custom, k) == Some(l) && metric_value(m, k) == Some(x) && float_gt(
            num_view(x),
            f64_view(l),
        ) implies reports_metric(evaluate_spec(m, t), MetricView::Custom(k)) by {
        lemma_custom_complete(m, t.custom, k, l, x);
        lemma_reports_in_sum(ty, cu, MetricView::Custom(k));
    }
}


// ---------------------------------------------------------------------------
// Whole-number lines are read as written
// ---------------------------------------------------------------------------

proof fn lemma_digit_char(d: nat)
    requires
        d < 10,
    ensures
        is_digit(digit_char(d)),
        digit_value(digit_char(d)) == d,
{
}

/// The decimal rendering of `n` is one or more digits that spell `n`.
proof fn lemma_decimal_spells(n: nat)
    ensures
        decimal(n).len() >= 1,
        all_digits(decimal(n)),
        digits_value(decimal(n)) == n,
    decreases n,
{
    lemma_digit_char(n % 10);
    if n >= 10 {
        lemma_decimal_spells(n / 10);
        let s = decimal(n);
        assert(s.drop_last() =~= decimal(n / 10));
        assert(s.last() == digit_char(n % 10));
        assert forall|i: int| 0 <= i < s.len() implies is_digit(#[trigger] s[i]) by {
            if i < s.len() - 1 {
                assert(s[i] == decimal(n / 10)[i]);
            }
        }
        vstd::arithmetic::div_mod::lemma_fundamental_div_mod(n as int, 10);
        assert(digits_value(s) == digits_value(decimal(n / 10)) * 10 + n % 10);
    } else {
        let s = decimal(n);
        assert(s.drop_last() =~= Seq::<char>::empty());
        assert(digits_value(s) == digits_value(Seq::<char>::empty()) * 10 + n % 10);
    }
}

/// A trimmed line `key=value` whose key holds no `=`, read as one line.
proof fn lemma_read_one_line(acc: Fields, key: Seq<char>, value: Seq<char>, t: Seq<char>)
    requires
        key.len() > 0,
        !is_ws(key[0]),
        value.len() > 0,
        !is_ws(value.last()),
        forall|i: int| 0 <= i < key.len() ==> key[i] != '=' && key[i] != '\n',
        forall|i: int| 0 <= i < value.len() ==> value[i] != '\n',
    ensures
        read_lines(acc, key + seq!['='] + value + seq!['\n'] + t) == match apply_line(
            acc,
            key + seq!['='] + value,
        ) {
            Ok(a) => read_lines(a, t),
            Err(e) => Err(e),
        },
        index_of(key + seq!['='] + value, '=') == key.len(),
        (key + seq!['='] + value).take(key.len() as int) == key,
        (key + seq!['='] + value).skip((key.len() + 1) as int) == value,
{
    let line = key + seq!['='] + value;
    let w = line + seq!['\n'] + t;
    assert(w =~= key + seq!['='] + value + seq!['\n'] + t);
    assert forall|i: int| 0 <= i < line.len() implies line[i] != '\n' by {
        if i < key.len() {
            assert(line[i] == key[i]);
        } else if i > key.len() {
            assert(line[i] == value[i - key.len() - 1]);
        }
    }
    assert forall|i: int| 0 <= i < line.len() implies w[i] != '\n' by {
        assert(w[i] == line[i]);
    }
    lemma_index_of(w, '\n', line.len() as int);
    assert(w.take(line.len() as int) =~= line);
    assert(w.skip((line.len() + 1) as int) =~= t);
    assert forall|i: int| 0 <= i < key.len() implies line[i] != '=' by {
        assert(line[i] == key[i]);
    }
    lemma_index_of(line, '=', key.len() as int);
    assert(line.take(key.len() as int) =~= key);
    assert(line.skip((key.len() + 1) as int) =~= value);
    // the line is already trimmed
    assert(line[0] == key[0]);
    assert(line.last() == value.last());
    assert(trim_start(line) == line);
    assert(trim_end(line) == line);
}

/// Facts about the keys, spelled out.
proof fn lemma_key_chars()
    ensures
        "disk_pct"@ =~= seq!['d', 'i', 's', 'k', '_', 'p', 'c', 't'],
        "mem_pct"@ =~= seq!['m', 'e', 'm', '_', 'p', 'c', 't'],
        "swap_pct"@ =~= seq!['s', 'w', 'a', 'p', '_', 'p', 'c', 't'],
        "proc_count"@ =~= seq!['p', 'r', 'o', 'c', '_', 'c', 'o', 'u', 'n', 't'],
        "uptime_secs"@ =~= seq!['u', 'p', 't', 'i', 'm', 'e', '_', 's', 'e', 'c', 's'],
        "load_1m"@ =~= seq!['l', 'o', 'a', 'd', '_', '1', 'm'],
        "temp_millic"@ =~= seq!['t', 'e', 'm', 'p', '_', 'm', 'i', 'l', 'l', 'i', 'c'],
{
    reveal_strlit("disk_pct");
    reveal_strlit("mem_pct");
    reveal_strlit("swap_pct");
    reveal_strlit("proc_count");
    reveal_strlit("uptime_secs");
    reveal_strlit("load_1m");
    reveal_strlit("temp_millic");
}

/// A line `key=n` with `n` written in decimal.
pub open spec fn number_line(key: Seq<char>, n: nat) -> Seq<char> {
    key + seq!['='] + decimal(n) + seq!['\n']
}

/// A line for a whole-number metric sets that metric to the number written,
/// whatever came before and whatever follows, for every number the metric's
/// type holds (`disk_pct`, `mem_pct`, `swap_pct` up to 255, `proc_count` up
/// to `u32::MAX`, `uptime_secs` up to `u64::MAX`); a larger number is an
/// invalid value.
pub proof fn law_whole_number_lines(acc: Fields, n: nat, t: Seq<char>)
    ensures
        n <= 255 ==> read_lines(acc, number_line("disk_pct"@, n) + t) == read_lines(
            Fields { disk_pct: Some(n as u8), ..acc },
            t,
        ),
        n <= 255 ==> read_lines(acc, number_line("mem_pct"@, n) + t) == read_lines(
            Fields { mem_pct: Some(n as u8), ..acc },
            t,
        ),
        n <= 255 ==> read_lines(acc, number_line("swap_pct"@, n) + t) == read_lines(
            Fields { swap_pct: Some(n as u8), ..acc },
            t,
        ),
        n <= u32::MAX ==> read_lines(acc, number_line("proc_count"@, n) + t) == read_lines(
            Fields { proc_count: Some(n as u32), ..acc },
            t,
        ),
        n <= u64::MAX ==> read_lines(acc, number_line("uptime_secs"@, n) + t) == read_lines(
            Fields { uptime_secs: Some(n as u64), ..acc },
            t,
        ),
        n > 255 ==> read_lines(acc, number_line("disk_pct"@, n) + t) == Err::<Fields, ParseErrorView>(
            ParseErrorView::InvalidValue { key: "disk_pct"@, value: decimal(n) },
        ),
        n > 255 ==> read_lines(acc, number_line("mem_pct"@, n) + t) == Err::<Fields, ParseErrorView>(
            ParseErrorView::InvalidValue { key: "mem_pct"@, value: decimal(n) },
        ),
{
    lemma_key_chars();
    lemma_decimal_spells(n);
    let d = decimal(n);
    assert(is_digit(d[0]) && is_digit(d.last()));
    assert forall|i: int| 0 <= i < d.len() implies d[i] != '\n' by {
        assert(is_digit(d[i]));
    }
    assert(parse_uint(d, 255) == if n <= 255 { Some(n) } else { None });
    assert(parse_uint(d, u32::MAX as nat) == if n <= u32::MAX { Some(n) } else { None });
    assert(parse_uint(d, u64::MAX as nat) == if n <= u64::MAX { Some(n) } else { None });
    reveal(apply_line);
    lemma_read_one_line(acc, "disk_pct"@, d, t);
    assert(number_line("disk_pct"@, n) + t =~= "disk_pct"@ + seq!['='] + d + seq!['\n'] + t);
    lemma_read_one_line(acc, "mem_pct"@, d, t);
    assert(number_line("mem_pct"@, n) + t =~= "mem_pct"@ + seq!['='] + d + seq!['\n'] + t);
    lemma_read_one_line(acc, "swap_pct"@, d, t);
    assert(number_line("swap_pct"@, n) + t =~= "swap_pct"@ + seq!['='] + d + seq!['\n'] + t);
    lemma_read_one_line(acc, "proc_count"@, d, t);
    assert(number_line("proc_count"@, n) + t =~= "proc_count"@ + seq!['='] + d + seq!['\n'] + t);
    lemma_read_one_line(acc, "uptime_secs"@, d, t);
    assert(number_line("uptime_secs"@, n) + t =~= "uptime_secs"@ + seq!['='] + d + seq!['\n'] + t);
}


/// Whole numbers are numbers as `f32::from_str` reads them.
proof fn lemma_decimal_float_syntax(k: nat)
    ensures
        float_syntax(decimal(k)),
{
    lemma_decimal_spells(k);
    let b = decimal(k);
    assert(is_digit(b[0]));
    assert(decimal_body(b) == b);
    assert forall|i: int| 0 <= i < b.len() implies b[i] != 'e' && b[i] != 'E' && b[i] != '.' by {
        assert(is_digit(b[i]));
    }
    lemma_index_of(b, 'e', b.len() as int);
    lemma_index_of(b, 'E', b.len() as int);
    lemma_index_of(b, '.', b.len() as int);
    assert(b.take(b.len() as int) =~= b);
    assert(mantissa_syntax(b));
}


/// A load line written in decimal sets the load text.
proof fn lemma_load_line(acc: Fields, k: nat, t: Seq<char>)
    ensures
        read_lines(acc, number_line("load_1m"@, k) + t) == read_lines(
            Fields { load_1m: Some(decimal(k)), ..acc },
            t,
        ),
{
    lemma_key_chars();
    lemma_decimal_spells(k);
    lemma_decimal_float_syntax(k);
    let dl = decimal(k);
    assert(is_digit(dl[0]) && is_digit(dl.last()));
    assert forall|i: int| 0 <= i < dl.len() implies dl[i] != '\n' by {
        assert(is_digit(dl[i]));
    }
    lemma_read_one_line(acc, "load_1m"@, dl, t);
    assert(number_line("load_1m"@, k) + t =~= "load_1m"@ + seq!['='] + dl + seq!['\n'] + t);
    reveal(apply_line);
}

/// A report that gives the four required metrics, each in decimal, parses
/// to exactly those values, for every value each metric's type holds.
#[verifier::spinoff_prover]
#[verifier::rlimit(60)]
pub proof fn law_parse_reads_values(u: u64, d: u8, load: nat, mm: u8)
    ensures
        parse_spec(
            number_line("uptime_secs"@, u as nat) + number_line("disk_pct"@, d as nat) + number_line(
                "load_1m"@,
                load,
            ) + number_line("mem_pct"@, mm as nat),
        ) == Ok::<ReadingView, ParseErrorView>(
            ReadingView {
                uptime_secs: u,
                disk_pct: d,
                temp_millic: None,
                load_1m: decimal(load),
                mem_pct: mm,
                swap_pct: None,
                proc_count: None,
            },
        ),
{
    let f0 = crate::metrics::no_fields();
    let e = Seq::<char>::empty();
    let l4 = number_line("mem_pct"@, mm as nat);
    let l3 = number_line("load_1m"@, load);
    let l2 = number_line("disk_pct"@, d as nat);
    let l1 = number_line("uptime_secs"@, u as nat);
    let f1 = Fields { uptime_secs: Some(u), ..f0 };
    let f2 = Fields { disk_pct: Some(d), ..f1 };
    let f3 = Fields { load_1m: Some(decimal(load)), ..f2 };
    let f4 = Fields { mem_pct: Some(mm), ..f3 };
    law_whole_number_lines(f0, u as nat, l2 + l3 + l4);
    law_whole_number_lines(f1, d as nat, l3 + l4);
    law_whole_number_lines(f3, mm as nat, e);
    assert(l4 + e =~= l4);
    lemma_load_line(f2, load, l4);
    // nothing after the last line
    assert(read_lines(f4, e) == Ok::<Fields, ParseErrorView>(f4));
    assert(l1 + l2 + l3 + l4 =~= l1 + (l2 + l3 + l4));
    assert(l2 + l3 + l4 =~= l2 + (l3 + l4));
}

} // verus!
