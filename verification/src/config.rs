//! Thresholds and per-host settings, and how a host's overrides are laid
//! over the global defaults.
//!
//! The temperature and load limits are `f32` values and the custom limits
//! `f64` values, held as their bit patterns (see `float`).
use vstd::prelude::*;
use crate::text::{
    chars_of, compare_chars, copy_range, lemma_seq_lt_asymmetric, lemma_seq_lt_irreflexive,
    lemma_seq_lt_total, lemma_seq_lt_transitive, seq_lt, string_from_chars,
};

verus! {

broadcast use vstd::string::group_string_axioms;

/// The custom thresholds as a sequence of `(metric name, limit)` pairs.
pub type CustomView = Seq<(Seq<char>, u64)>;

/// Names strictly increasing: the order in which a `BTreeMap` keeps them,
/// and no name twice.
pub open spec fn entries_sorted(s: CustomView) -> bool {
    forall|i: int, j: int| 0 <= i < j < s.len() ==> seq_lt(#[trigger] s[i].0, #[trigger] s[j].0)
}

/// The limit recorded for `k`, if any.
pub open spec fn lookup(s: CustomView, k: Seq<char>) -> Option<u64>
    decreases s.len(),
{
    if s.len() == 0 {
        None
    } else if s[0].0 == k {
        Some(s[0].1)
    } else {
        lookup(s.drop_first(), k)
    }
}

/// `s` with `k` set to `v`: replaced in place when present, otherwise
/// inserted at its place in the order.
pub open spec fn sorted_insert(s: CustomView, k: Seq<char>, v: u64) -> CustomView
    decreases s.len(),
{
    if s.len() == 0 {
        seq![(k, v)]
    } else if s[0].0 == k {
        s.update(0, (k, v))
    } else if seq_lt(k, s[0].0) {
        seq![(k, v)] + s
    } else {
        seq![s[0]] + sorted_insert(s.drop_first(), k, v)
    }
}

/// `base` with every entry of `over` set on top of it, in order.
pub open spec fn overlay(base: CustomView, over: CustomView) -> CustomView
    decreases over.len(),
{
    if over.len() == 0 {
        base
    } else {
        overlay(sorted_insert(base, over[0].0, over[0].1), over.drop_first())
    }
}

pub proof fn lemma_lookup_insert(s: CustomView, k: Seq<char>, v: u64, j: Seq<char>)
    ensures
        lookup(sorted_insert(s, k, v), j) == if j == k {
            Some(v)
        } else {
            lookup(s, j)
        },
    decreases s.len(),
{
    let r = sorted_insert(s, k, v);
    if s.len() == 0 {
        assert(r.drop_first().len() == 0);
    } else if s[0].0 == k {
        assert(r == s.update(0, (k, v)));
        assert(r[0] == (k, v));
        assert(r.drop_first() =~= s.drop_first());
        if j != k {
            assert(lookup(r, j) == lookup(r.drop_first(), j));
            assert(lookup(s, j) == lookup(s.drop_first(), j));
        }
    } else if seq_lt(k, s[0].0) {
        assert(r == seq![(k, v)] + s);
        assert(r[0] == (k, v));
        assert(r.drop_first() =~= s);
        if j != k {
            assert(lookup(r, j) == lookup(r.drop_first(), j));
        }
    } else {
        let t = s.drop_first();
        lemma_lookup_insert(t, k, v, j);
        assert(r == seq![s[0]] + sorted_insert(t, k, v));
        assert(r[0] == s[0]);
        assert(r.drop_first() =~= sorted_insert(t, k, v));
    }
}

/// Every name in `sorted_insert(s, k, v)` is `k` or a name of `s`.
#[verifier::spinoff_prover]
#[verifier::rlimit(60)]
pub proof fn lemma_insert_keys(s: CustomView, k: Seq<char>, v: u64)
    ensures
        forall|i: int|
            0 <= i < sorted_insert(s, k, v).len() ==> #[trigger] sorted_insert(s, k, v)[i].0 == k
                || exists|j: int| 0 <= j < s.len() && s[j].0 == sorted_insert(s, k, v)[i].0,
        sorted_insert(s, k, v).len() >= s.len(),
    decreases s.len(),
{
    let r = sorted_insert(s, k, v);
    if s.len() == 0 {
    } else if s[0].0 == k {
        assert forall|i: int| 0 <= i < r.len() implies #[trigger] r[i].0 == k || exists|j: int|
            0 <= j < s.len() && s[j].0 == r[i].0 by {
            if i > 0 {
                assert(s[i].0 == r[i].0);
            }
        }
    } else if seq_lt(k, s[0].0) {
        assert forall|i: int| 0 <= i < r.len() implies #[trigger] r[i].0 == k || exists|j: int|
            0 <= j < s.len() && s[j].0 == r[i].0 by {
            if i > 0 {
                assert(s[i - 1].0 == r[i].0);
            }
        }
    } else {
        let t = s.drop_first();
        lemma_insert_keys(t, k, v);
        assert forall|i: int| 0 <= i < r.len() implies #[trigger] r[i].0 == k || exists|j: int|
            0 <= j < s.len() && s[j].0 == r[i].0 by {
            if i == 0 {
                assert(s[0].0 == r[0].0);
            } else {
                assert(r[i] == sorted_insert(t, k, v)[i - 1]);
                if sorted_insert(t, k, v)[i - 1].0 != k {
                    let j = choose|j: int| 0 <= j < t.len() && t[j].0 == sorted_insert(t, k, v)[i
                        - 1].0;
                    assert(s[j + 1].0 == r[i].0);
                }
            }
        }
    }
}

#[verifier::spinoff_prover]
#[verifier::rlimit(60)]
pub proof fn lemma_insert_sorted(s: CustomView, k: Seq<char>, v: u64)
    requires
        entries_sorted(s),
    ensures
        entries_sorted(sorted_insert(s, k, v)),
    decreases s.len(),
{
    let r = sorted_insert(s, k, v);
    if s.len() == 0 {
    } else if s[0].0 == k {
        assert forall|i: int, j: int| 0 <= i < j < r.len() implies seq_lt(
            #[trigger] r[i].0,
            #[trigger] r[j].0,
        ) by {
            assert(s[i].0 == r[i].0 && s[j].0 == r[j].0);
        }
    } else if seq_lt(k, s[0].0) {
        assert forall|i: int, j: int| 0 <= i < j < r.len() implies seq_lt(
            #[trigger] r[i].0,
            #[trigger] r[j].0,
        ) by {
            if i == 0 {
                if j > 1 {
                    assert(seq_lt(s[0].0, s[j - 1].0));
                    lemma_seq_lt_transitive(k, s[0].0, s[j - 1].0);
                }
            } else {
                assert(seq_lt(s[i - 1].0, s[j - 1].0));
            }
        }
    } else {
        let t = s.drop_first();
        assert(entries_sorted(t)) by {
            assert forall|i: int, j: int| 0 <= i < j < t.len() implies seq_lt(
                #[trigger] t[i].0,
                #[trigger] t[j].0,
            ) by {
                assert(seq_lt(s[i + 1].0, s[j + 1].0));
            }
        }
        lemma_insert_sorted(t, k, v);
        lemma_insert_keys(t, k, v);
        lemma_seq_lt_total(k, s[0].0);
        let rt = sorted_insert(t, k, v);
        assert forall|i: int, j: int| 0 <= i < j < r.len() implies seq_lt(
            #[trigger] r[i].0,
            #[trigger] r[j].0,
        ) by {
            if i == 0 {
                assert(r[j] == rt[j - 1]);
                if rt[j - 1].0 != k {
                    let m = choose|m: int| 0 <= m < t.len() && t[m].0 == rt[j - 1].0;
                    assert(seq_lt(s[0].0, s[m + 1].0));
                }
            } else {
                assert(r[i] == rt[i - 1] && r[j] == rt[j - 1]);
            }
        }
    }
}

/// One custom-threshold entry.
#[derive(Debug)]
pub struct CustomEntry {
    key: Vec<char>,
    limit: u64,
}

/// Limits for metrics named by the collector's keys, kept sorted by name
/// like the `BTreeMap` they are read into, with at most one limit per name.
#[derive(Debug)]
pub struct CustomThresholds {
    entries: Vec<CustomEntry>,
}

pub closed spec fn view_entries(s: Seq<CustomEntry>) -> CustomView {
    Seq::new(s.len(), |i: int| (s[i].key@, s[i].limit))
}

proof fn lemma_view_entries_len(s: Seq<CustomEntry>)
    ensures
        view_entries(s).len() == s.len(),
        forall|i: int| 0 <= i < s.len() ==> #[trigger] view_entries(s)[i] == (s[i].key@, s[i].limit),
{
}

impl CustomThresholds {
    pub closed spec fn entries_view(&self) -> CustomView {
        view_entries(self.entries@)
    }

    #[verifier::type_invariant]
    closed spec fn inv(&self) -> bool {
        entries_sorted(self.entries_view())
    }

    /// An empty map.
    pub fn new() -> (r: Self)
        ensures
            r@ == Seq::<(Seq<char>, u64)>::empty(),
            entries_sorted(r@),
    {
        let r = CustomThresholds { entries: Vec::new() };
        assert(r.entries_view() =~= Seq::<(Seq<char>, u64)>::empty());
        r
    }

    /// The names of a map come in strictly increasing order, each once.
    pub fn names_sorted(&self)
        ensures
            entries_sorted(self@),
    {
        proof {
            use_type_invariant(self);
        }
    }

    pub fn len(&self) -> (n: usize)
        ensures
            n == self@.len(),
    {
        self.entries.len()
    }

    pub fn is_empty(&self) -> (b: bool)
        ensures
            b == (self@.len() == 0),
    {
        self.entries.len() == 0
    }

    /// The name of the `i`-th entry, as characters.
    pub fn key_chars_at(&self, i: usize) -> (k: Vec<char>)
        requires
            i < self@.len(),
        ensures
            k@ == self@[i as int].0,
    {
        let e = &self.entries[i];
        copy_range(&e.key, 0, e.key.len())
    }

    /// The name of the `i`-th entry.
    pub fn key_at(&self, i: usize) -> (k: String)
        requires
            i < self@.len(),
        ensures
            k@ == self@[i as int].0,
    {
        string_from_chars(self.entries[i].key.as_slice())
    }

    /// The limit of the `i`-th entry.
    pub fn limit_at(&self, i: usize) -> (l: u64)
        requires
            i < self@.len(),
        ensures
            l == self@[i as int].1,
    {
        self.entries[i].limit
    }

    /// Where `key` is or would go: the first index whose name is not before
    /// `key`, and whether that name is `key`.
    fn position(&self, key: &Vec<char>) -> (r: (usize, bool))
        ensures
            r.0 <= self@.len(),
            forall|t: int| 0 <= t < r.0 ==> seq_lt(#[trigger] self@[t].0, key@),
            r.1 ==> r.0 < self@.len() && self@[r.0 as int].0 == key@,
            !r.1 && r.0 < self@.len() ==> seq_lt(key@, self@[r.0 as int].0),
    {
        let mut i: usize = 0;
        while i < self.entries.len()
            invariant
                i <= self@.len(),
                self@.len() == self.entries@.len(),
                forall|t: int| 0 <= t < i ==> seq_lt(#[trigger] self@[t].0, key@),
            decreases self@.len() - i,
        {
            let c = compare_chars(&self.entries[i].key, key);
            assert(self@[i as int].0 == self.entries@[i as int].key@);
            if c == 0 {
                return (i, true);
            }
            if c > 0 {
                return (i, false);
            }
            i = i + 1;
        }
        (i, false)
    }

    /// The limit for the name `key`, if any.
    pub fn get_chars(&self, key: &Vec<char>) -> (r: Option<u64>)
        ensures
            r == lookup(self@, key@),
    {
        proof {
            use_type_invariant(self);
        }
        let (i, found) = self.position(key);
        proof {
            lemma_seq_lt_irreflexive(key@);
            lemma_lookup_sorted(self@, key@, i as int);
            lemma_view_entries_len(self.entries@);
        }
        if found {
            Some(self.entries[i].limit)
        } else {
            None
        }
    }

    /// The limit for `key`, if any.
    pub fn get(&self, key: &str) -> (r: Option<u64>)
        ensures
            r == lookup(self@, key@),
    {
        let k = chars_of(key);
        self.get_chars(&k)
    }

    /// Whether `key` has a limit.
    pub fn contains_key(&self, key: &str) -> (b: bool)
        ensures
            b == lookup(self@, key@) is Some,
    {
        self.get(key).is_some()
    }

    /// Sets the limit for the name `key`.
    #[verifier::spinoff_prover]
    #[verifier::rlimit(60)]
    pub fn insert_chars(&mut self, key: Vec<char>, limit: u64)
        ensures
            final(self)@ == sorted_insert(old(self)@, key@, limit),
            entries_sorted(old(self)@),
            entries_sorted(final(self)@),
    {
        proof {
            use_type_invariant(&*self);
        }
        let ghost s = self@;
        let (i, found) = self.position(&key);
        proof {
            lemma_seq_lt_irreflexive(key@);
            lemma_insert_at(s, key@, limit, i as int);
            lemma_insert_sorted(s, key@, limit);
        }
        let mut e: Vec<CustomEntry> = Vec::new();
        std::mem::swap(&mut e, &mut self.entries);
        proof {
            lemma_view_entries_len(e@);
        }
        let ghost e0 = e@;
        assert(view_entries(e@) == s);
        let ghost k = key@;
        if found {
            e.remove(i);
            e.insert(i, CustomEntry { key, limit });
        } else {
            e.insert(i, CustomEntry { key, limit });
        }
        proof {
            lemma_view_entries_len(e@);
        }
        assert(view_entries(e@) =~= sorted_insert(s, k, limit));
        self.entries = e;
    }

    /// Sets the limit for `key`, returning the limit it replaces.
    pub fn insert(&mut self, key: String, limit: u64) -> (r: Option<u64>)
        ensures
            final(self)@ == sorted_insert(old(self)@, key@, limit),
            entries_sorted(final(self)@),
            r == lookup(old(self)@, key@),
    {
        let k = chars_of(key.as_str());
        let r = self.get_chars(&k);
        self.insert_chars(k, limit);
        r
    }
}

/// With the names of `s` sorted, the position found for `k` decides the
/// lookup.
proof fn lemma_lookup_sorted(s: CustomView, k: Seq<char>, i: int)
    requires
        entries_sorted(s),
        0 <= i <= s.len(),
        forall|t: int| 0 <= t < i ==> seq_lt(#[trigger] s[t].0, k),
        i < s.len() ==> s[i].0 == k || seq_lt(k, s[i].0),
    ensures
        lookup(s, k) == if i < s.len() && s[i].0 == k {
            Some(s[i].1)
        } else {
            None
        },
    decreases s.len(),
{
    if s.len() == 0 {
    } else if i == 0 {
        if s[0].0 != k {
            lemma_lookup_absent(s, k);
        }
    } else {
        let t = s.drop_first();
        assert(seq_lt(s[0].0, k));
        lemma_seq_lt_irreflexive(k);
        assert(entries_sorted(t)) by {
            assert forall|a: int, b: int| 0 <= a < b < t.len() implies seq_lt(
                #[trigger] t[a].0,
                #[trigger] t[b].0,
            ) by {
                assert(seq_lt(s[a + 1].0, s[b + 1].0));
            }
        }
        assert forall|m: int| 0 <= m < i - 1 implies seq_lt(#[trigger] t[m].0, k) by {
            assert(seq_lt(s[m + 1].0, k));
        }
        lemma_lookup_sorted(t, k, i - 1);
    }
}

/// In sorted `s` whose first name is after `k`, `k` is absent.
pub proof fn lemma_lookup_absent(s: CustomView, k: Seq<char>)
    requires
        entries_sorted(s),
        s.len() > 0 ==> seq_lt(k, s[0].0),
    ensures
        lookup(s, k) is None,
    decreases s.len(),
{
    if s.len() > 0 {
        let t = s.drop_first();
        lemma_seq_lt_irreflexive(k);
        assert(entries_sorted(t)) by {
            assert forall|a: int, b: int| 0 <= a < b < t.len() implies seq_lt(
                #[trigger] t[a].0,
                #[trigger] t[b].0,
            ) by {
                assert(seq_lt(s[a + 1].0, s[b + 1].0));
            }
        }
        if t.len() > 0 {
            assert(seq_lt(s[0].0, s[1].0));
            lemma_seq_lt_transitive(k, s[0].0, t[0].0);
        }
        lemma_lookup_absent(t, k);
    }
}

/// Setting `k` where every name before index `i` is before `k` and the name
/// at `i` (if any) is `k` or after it.
proof fn lemma_insert_at(s: CustomView, k: Seq<char>, v: u64, i: int)
    requires
        0 <= i <= s.len(),
        forall|t: int| 0 <= t < i ==> seq_lt(#[trigger] s[t].0, k),
        i < s.len() ==> s[i].0 == k || seq_lt(k, s[i].0),
    ensures
        i < s.len() && s[i].0 == k ==> sorted_insert(s, k, v) == s.update(i, (k, v)),
        !(i < s.len() && s[i].0 == k) ==> sorted_insert(s, k, v) == s.insert(i, (k, v)),
    decreases s.len(),
{
    if s.len() == 0 {
        assert(s.insert(0, (k, v)) =~= seq![(k, v)]);
    } else if i == 0 {
        if s[0].0 == k {
        } else {
            assert(s.insert(0, (k, v)) =~= seq![(k, v)] + s);
        }
    } else {
        let t = s.drop_first();
        assert(seq_lt(s[0].0, k));
        lemma_seq_lt_irreflexive(k);
        lemma_seq_lt_asymmetric(s[0].0, k);
        assert forall|m: int| 0 <= m < i - 1 implies seq_lt(#[trigger] t[m].0, k) by {
            assert(seq_lt(s[m + 1].0, k));
        }
        lemma_insert_at(t, k, v, i - 1);
        if i < s.len() && s[i].0 == k {
            assert(seq![s[0]] + t.update(i - 1, (k, v)) =~= s.update(i, (k, v)));
        } else {
            assert(seq![s[0]] + t.insert(i - 1, (k, v)) =~= s.insert(i, (k, v)));
        }
    }
}

impl View for CustomThresholds {
    type V = CustomView;

    open spec fn view(&self) -> CustomView {
        self.entries_view()
    }
}

impl Clone for CustomThresholds {
    fn clone(&self) -> (r: Self)
        ensures
            r@ == self@,
    {
        proof {
            use_type_invariant(self);
            lemma_view_entries_len(self.entries@);
        }
        let mut out: Vec<CustomEntry> = Vec::new();
        let mut i: usize = 0;
        while i < self.entries.len()
            invariant
                i <= self.entries@.len(),
                view_entries(out@) =~= self@.take(i as int),
            decreases self.entries@.len() - i,
        {
            let ghost old_out = out@;
            proof {
                lemma_view_entries_len(old_out);
            }
            let e = &self.entries[i];
            let k = copy_range(&e.key, 0, e.key.len());
            assert(k@ =~= e.key@);
            out.push(CustomEntry { key: k, limit: e.limit });
            proof {
                lemma_view_entries_len(out@);
                lemma_view_entries_len(self.entries@);
            }
            i = i + 1;
            assert(view_entries(out@) =~= self@.take(i as int));
        }
        assert(self@.take(i as int) =~= self@);
        CustomThresholds { entries: out }
    }
}

// ---------------------------------------------------------------------------
// Thresholds
// ---------------------------------------------------------------------------

/// The limits a host is held to. A metric above its limit (strictly) is a
/// violation.
#[derive(Debug)]
pub struct Thresholds {
    pub disk_pct: u8,
    /// Degrees Celsius, as the bits of an `f32`.
    pub temp_c: u32,
    /// 1-minute load average, as the bits of an `f32`.
    pub load_1m: u32,
    pub mem_pct: u8,
    pub swap_pct: Option<u8>,
    pub proc_count: Option<u32>,
    /// Limits for any metric by its name, as the bits of an `f64`.
    pub custom: CustomThresholds,
}

pub struct ThresholdsView {
    pub disk_pct: u8,
    pub temp_c: u32,
    pub load_1m: u32,
    pub mem_pct: u8,
    pub swap_pct: Option<u8>,
    pub proc_count: Option<u32>,
    pub custom: CustomView,
}

impl View for Thresholds {
    type V = ThresholdsView;

    open spec fn view(&self) -> ThresholdsView {
        ThresholdsView {
            disk_pct: self.disk_pct,
            temp_c: self.temp_c,
            load_1m: self.load_1m,
            mem_pct: self.mem_pct,
            swap_pct: self.swap_pct,
            proc_count: self.proc_count,
            custom: self.custom@,
        }
    }
}

impl Clone for Thresholds {
    fn clone(&self) -> (r: Self)
        ensures
            r@ == self@,
    {
        Thresholds {
            disk_pct: self.disk_pct,
            temp_c: self.temp_c,
            load_1m: self.load_1m,
            mem_pct: self.mem_pct,
            swap_pct: self.swap_pct,
            proc_count: self.proc_count,
            custom: self.custom.clone(),
        }
    }
}

/// A host's overrides: any subset of the limits, and custom limits that are
/// laid over the global ones name by name.
#[derive(Debug)]
pub struct PartialThresholds {
    pub disk_pct: Option<u8>,
    pub temp_c: Option<u32>,
    pub load_1m: Option<u32>,
    pub mem_pct: Option<u8>,
    pub swap_pct: Option<u8>,
    pub proc_count: Option<u32>,
    pub custom: CustomThresholds,
}

pub struct PartialThresholdsView {
    pub disk_pct: Option<u8>,
    pub temp_c: Option<u32>,
    pub load_1m: Option<u32>,
    pub mem_pct: Option<u8>,
    pub swap_pct: Option<u8>,
    pub proc_count: Option<u32>,
    pub custom: CustomView,
}

impl View for PartialThresholds {
    type V = PartialThresholdsView;

    open spec fn view(&self) -> PartialThresholdsView {
        PartialThresholdsView {
            disk_pct: self.disk_pct,
            temp_c: self.temp_c,
            load_1m: self.load_1m,
            mem_pct: self.mem_pct,
            swap_pct: self.swap_pct,
            proc_count: self.proc_count,
            custom: self.custom@,
        }
    }
}

impl Default for PartialThresholds {
    fn default() -> (r: Self)
        ensures
            r.disk_pct is None,
            r.temp_c is None,
            r.load_1m is None,
            r.mem_pct is None,
            r.swap_pct is None,
            r.proc_count is None,
            r.custom@ == Seq::<(Seq<char>, u64)>::empty(),
    {
        PartialThresholds {
            disk_pct: None,
            temp_c: None,
            load_1m: None,
            mem_pct: None,
            swap_pct: None,
            proc_count: None,
            custom: CustomThresholds::new(),
        }
    }
}

pub open spec fn or_else<T>(o: Option<T>, d: T) -> T {
    match o {
        Some(x) => x,
        None => d,
    }
}

pub open spec fn or_opt<T>(o: Option<T>, d: Option<T>) -> Option<T> {
    match o {
        Some(x) => Some(x),
        None => d,
    }
}

/// The thresholds `t` with the overrides `over` laid on top.
pub open spec fn merged_spec(t: ThresholdsView, over: Option<PartialThresholdsView>) -> ThresholdsView {
    match over {
        None => t,
        Some(o) => ThresholdsView {
            disk_pct: or_else(o.disk_pct, t.disk_pct),
            temp_c: or_else(o.temp_c, t.temp_c),
            load_1m: or_else(o.load_1m, t.load_1m),
            mem_pct: or_else(o.mem_pct, t.mem_pct),
            swap_pct: or_opt(o.swap_pct, t.swap_pct),
            proc_count: or_opt(o.proc_count, t.proc_count),
            custom: overlay(t.custom, o.custom),
        },
    }
}

pub open spec fn opt_partial_view(o: Option<&PartialThresholds>) -> Option<PartialThresholdsView> {
    match o {
        Some(p) => Some(p@),
        None => None,
    }
}

impl Thresholds {
    /// Overlays optional per-host overrides on top of the global defaults.
    /// Custom entries are merged name by name, so a host can shadow one
    /// custom threshold without redeclaring the whole map.
    pub fn merged(&self, over: Option<&PartialThresholds>) -> (r: Thresholds)
        ensures
            r@ == merged_spec(self@, opt_partial_view(over)),
    {
        let o = match over {
            None => {
                return self.clone();
            },
            Some(o) => o,
        };
        let mut custom = self.custom.clone();
        let mut i: usize = 0;
        assert(o.custom@.skip(0) =~= o.custom@);
        while i < o.custom.len()
            invariant
                i <= o.custom@.len(),
                overlay(self.custom@, o.custom@) == overlay(custom@, o.custom@.skip(i as int)),
            decreases o.custom@.len() - i,
        {
            let k = o.custom.key_chars_at(i);
            let l = o.custom.limit_at(i);
            assert(o.custom@.skip(i as int)[0] == o.custom@[i as int]);
            assert(o.custom@.skip(i as int).drop_first() =~= o.custom@.skip(i + 1));
            custom.insert_chars(k, l);
            i = i + 1;
        }
        assert(o.custom@.skip(i as int) =~= Seq::<(Seq<char>, u64)>::empty());
        Thresholds {
            disk_pct: match o.disk_pct {
                Some(x) => x,
                None => self.disk_pct,
            },
            temp_c: match o.temp_c {
                Some(x) => x,
                None => self.temp_c,
            },
            load_1m: match o.load_1m {
                Some(x) => x,
                None => self.load_1m,
            },
            mem_pct: match o.mem_pct {
                Some(x) => x,
                None => self.mem_pct,
            },
            swap_pct: match o.swap_pct {
                Some(x) => Some(x),
                None => self.swap_pct,
            },
            proc_count: match o.proc_count {
                Some(x) => Some(x),
                None => self.proc_count,
            },
            custom,
        }
    }
}

// ---------------------------------------------------------------------------
// Hosts
// ---------------------------------------------------------------------------

/// One host entry of the configuration.
#[derive(Debug)]
pub struct HostConfig {
    /// Hostname or IP passed to `ssh`; the entry's name when absent.
    pub addr: Option<String>,
    pub user: Option<String>,
    pub port: Option<u16>,
    pub thresholds: Option<PartialThresholds>,
    /// Connect retries for this host, used when the command line asks for
    /// none.
    pub retries: Option<u32>,
}

/// The SSH destination of the host entry `name`: its `addr`, else the name.
pub fn ssh_destination(name: &str, host: &HostConfig) -> (d: String)
    ensures
        d@ == match host.addr {
            Some(a) => a@,
            None => name@,
        },
{
    match &host.addr {
        Some(a) => a.clone(),
        None => name.to_owned(),
    }
}

/// How many times to retry the connect: the command line's count when it is
/// non-zero, else the host's own setting, else none.
pub fn effective_retries(cli_retries: u32, host: &HostConfig) -> (r: u32)
    ensures
        r == if cli_retries > 0 {
            cli_retries
        } else {
            or_else(host.retries, 0)
        },
{
    if cli_retries > 0 {
        cli_retries
    } else {
        match host.retries {
            Some(n) => n,
            None => 0,
        }
    }
}

/// The thresholds of the host entry `host`: the global ones with its
/// overrides on top.
pub fn host_thresholds(global: &Thresholds, host: &HostConfig) -> (t: Thresholds)
    ensures
        t@ == merged_spec(
            global@,
            match host.thresholds {
                Some(p) => Some(p@),
                None => None,
            },
        ),
{
    global.merged(host.thresholds.as_ref())
}

} // verus!
