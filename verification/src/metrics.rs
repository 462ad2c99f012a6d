//! The metrics a host reports, the parser for the collector's `key=value`
//! output, and the uptime formatter.
//!
//! The temperature and the load are `f32` values, held as their bit
//! patterns (see `float`). The parser checks their text exactly as
//! `f32::from_str` does and hands the text on; turning it into an `f32` is a
//! float operation, which the caller does.
use vstd::prelude::*;
use crate::text::{
    chars_of, copy_range, decimal, find_char, float_syntax, float_syntax_range, index_of,
    lemma_index_of_bounds, parse_uint, parse_uint_range, push_decimal, range_eq_str,
    string_from_chars, trim, trim_range,
};

verus! {

broadcast use vstd::string::group_string_axioms;

/// One snapshot of a host's health.
#[derive(Debug)]
pub struct Metrics {
    pub uptime_secs: u64,
    pub disk_pct: u8,
    /// CPU temperature in degrees Celsius, as the bits of an `f32`; `None` on
    /// hosts without a thermal zone.
    pub temp_c: Option<u32>,
    /// 1-minute load average, as the bits of an `f32`.
    pub load_1m: u32,
    pub mem_pct: u8,
    pub swap_pct: Option<u8>,
    pub proc_count: Option<u32>,
    pub ip_addr: Option<String>,
}

pub struct MetricsView {
    pub uptime_secs: u64,
    pub disk_pct: u8,
    pub temp_c: Option<u32>,
    pub load_1m: u32,
    pub mem_pct: u8,
    pub swap_pct: Option<u8>,
    pub proc_count: Option<u32>,
    pub ip_addr: Option<Seq<char>>,
}

pub open spec fn opt_string_view(o: Option<String>) -> Option<Seq<char>> {
    match o {
        Some(s) => Some(s@),
        None => None,
    }
}

impl View for Metrics {
    type V = MetricsView;

    open spec fn view(&self) -> MetricsView {
        MetricsView {
            uptime_secs: self.uptime_secs,
            disk_pct: self.disk_pct,
            temp_c: self.temp_c,
            load_1m: self.load_1m,
            mem_pct: self.mem_pct,
            swap_pct: self.swap_pct,
            proc_count: self.proc_count,
            ip_addr: opt_string_view(self.ip_addr),
        }
    }
}

/// What the collector reported, with the temperature (in milli-degrees) and
/// the load still as the text it wrote: numbers that `f32::from_str` reads
/// (`float_syntax`).
#[derive(Debug)]
pub struct Reading {
    pub uptime_secs: u64,
    pub disk_pct: u8,
    pub temp_millic: Option<String>,
    pub load_1m: String,
    pub mem_pct: u8,
    pub swap_pct: Option<u8>,
    pub proc_count: Option<u32>,
}

pub struct ReadingView {
    pub uptime_secs: u64,
    pub disk_pct: u8,
    pub temp_millic: Option<Seq<char>>,
    pub load_1m: Seq<char>,
    pub mem_pct: u8,
    pub swap_pct: Option<u8>,
    pub proc_count: Option<u32>,
}

impl View for Reading {
    type V = ReadingView;

    open spec fn view(&self) -> ReadingView {
        ReadingView {
            uptime_secs: self.uptime_secs,
            disk_pct: self.disk_pct,
            temp_millic: opt_string_view(self.temp_millic),
            load_1m: self.load_1m@,
            mem_pct: self.mem_pct,
            swap_pct: self.swap_pct,
            proc_count: self.proc_count,
        }
    }
}

impl Reading {
    /// The metrics of this reading, given the temperature in degrees and the
    /// load as `f32` bit patterns (the collector's text converted by
    /// `f32::from_str`, the temperature then divided by 1000).
    pub fn into_metrics(self, temp_c: Option<u32>, load_1m: u32) -> (m: Metrics)
        ensures
            m@ == (MetricsView {
                uptime_secs: self@.uptime_secs,
                disk_pct: self@.disk_pct,
                temp_c,
                load_1m,
                mem_pct: self@.mem_pct,
                swap_pct: self@.swap_pct,
                proc_count: self@.proc_count,
                ip_addr: None,
            }),
    {
        Metrics {
            uptime_secs: self.uptime_secs,
            disk_pct: self.disk_pct,
            temp_c,
            load_1m,
            mem_pct: self.mem_pct,
            swap_pct: self.swap_pct,
            proc_count: self.proc_count,
            ip_addr: None,
        }
    }
}

/// Why the collector's output could not be read.
#[derive(Debug)]
pub enum ParseError {
    /// A non-blank line without `=`; carries the trimmed line.
    MalformedLine(String),
    /// A known key whose value is not a number of the key's kind.
    InvalidValue { key: String, value: String },
    /// A required key never appeared.
    Missing(String),
}

pub enum ParseErrorView {
    MalformedLine(Seq<char>),
    InvalidValue { key: Seq<char>, value: Seq<char> },
    Missing(Seq<char>),
}

impl View for ParseError {
    type V = ParseErrorView;

    open spec fn view(&self) -> ParseErrorView {
        match self {
            ParseError::MalformedLine(l) => ParseErrorView::MalformedLine(l@),
            ParseError::InvalidValue { key, value } => ParseErrorView::InvalidValue {
                key: key@,
                value: value@,
            },
            ParseError::Missing(k) => ParseErrorView::Missing(k@),
        }
    }
}

/// What the parser has collected so far: the last value seen for each key.
pub struct Fields {
    pub uptime_secs: Option<u64>,
    pub disk_pct: Option<u8>,
    pub temp_millic: Option<Seq<char>>,
    pub load_1m: Option<Seq<char>>,
    pub mem_pct: Option<u8>,
    pub swap_pct: Option<u8>,
    pub proc_count: Option<u32>,
}

pub open spec fn no_fields() -> Fields {
    Fields {
        uptime_secs: None,
        disk_pct: None,
        temp_millic: None,
        load_1m: None,
        mem_pct: None,
        swap_pct: None,
        proc_count: None,
    }
}

/// The keys the parser reads; every other key is ignored.
pub open spec fn known_key(key: Seq<char>) -> bool {
    ||| key == "uptime_secs"@
    ||| key == "disk_pct"@
    ||| key == "temp_millic"@
    ||| key == "load_1m"@
    ||| key == "mem_pct"@
    ||| key == "swap_pct"@
    ||| key == "proc_count"@
}

/// The effect of one non-blank, trimmed line.
#[verifier::opaque]
pub open spec fn apply_line(acc: Fields, line: Seq<char>) -> Result<Fields, ParseErrorView> {
    let e = index_of(line, '=');
    if e >= line.len() {
        Err(ParseErrorView::MalformedLine(line))
    } else {
        let key = line.take(e as int);
        let value = line.skip((e + 1) as int);
        let bad = ParseErrorView::InvalidValue { key, value };
        if key == "uptime_secs"@ {
            match parse_uint(value, u64::MAX as nat) {
                Some(n) => Ok(Fields { uptime_secs: Some(n as u64), ..acc }),
                None => Err(bad),
            }
        } else if key == "disk_pct"@ {
            match parse_uint(value, u8::MAX as nat) {
                Some(n) => Ok(Fields { disk_pct: Some(n as u8), ..acc }),
                None => Err(bad),
            }
        } else if key == "temp_millic"@ {
            if value.len() == 0 {
                Ok(Fields { temp_millic: None, ..acc })
            } else if float_syntax(value) {
                Ok(Fields { temp_millic: Some(value), ..acc })
            } else {
                Err(bad)
            }
        } else if key == "load_1m"@ {
            if float_syntax(value) {
                Ok(Fields { load_1m: Some(value), ..acc })
            } else {
                Err(bad)
            }
        } else if key == "mem_pct"@ {
            match parse_uint(value, u8::MAX as nat) {
                Some(n) => Ok(Fields { mem_pct: Some(n as u8), ..acc }),
                None => Err(bad),
            }
        } else if key == "swap_pct"@ {
            if value.len() == 0 {
                Ok(Fields { swap_pct: None, ..acc })
            } else {
                match parse_uint(value, u8::MAX as nat) {
                    Some(n) => Ok(Fields { swap_pct: Some(n as u8), ..acc }),
                    None => Err(bad),
                }
            }
        } else if key == "proc_count"@ {
            if value.len() == 0 {
                Ok(Fields { proc_count: None, ..acc })
            } else {
                match parse_uint(value, u32::MAX as nat) {
                    Some(n) => Ok(Fields { proc_count: Some(n as u32), ..acc }),
                    None => Err(bad),
                }
            }
        } else {
            Ok(acc)
        }
    }
}

/// Reads the lines of `s` (separated by `\n`) in order, each trimmed; blank
/// lines are skipped and the first bad line stops the reading.
pub open spec fn read_lines(acc: Fields, s: Seq<char>) -> Result<Fields, ParseErrorView>
    decreases s.len(),
{
    let k = index_of(s, '\n');
    let line = trim(s.take(k as int));
    let r = if line.len() == 0 {
        Ok(acc)
    } else {
        apply_line(acc, line)
    };
    match r {
        Err(e) => Err(e),
        Ok(a) => if k < s.len() {
            read_lines(a, s.skip((k + 1) as int))
        } else {
            Ok(a)
        },
    }
}

/// What the text `s` reports, or why it reports nothing.
pub open spec fn parse_spec(s: Seq<char>) -> Result<ReadingView, ParseErrorView> {
    match read_lines(no_fields(), s) {
        Err(e) => Err(e),
        Ok(f) => if f.uptime_secs is None {
            Err(ParseErrorView::Missing("uptime_secs"@))
        } else if f.disk_pct is None {
            Err(ParseErrorView::Missing("disk_pct"@))
        } else if f.load_1m is None {
            Err(ParseErrorView::Missing("load_1m"@))
        } else if f.mem_pct is None {
            Err(ParseErrorView::Missing("mem_pct"@))
        } else {
            Ok(
                ReadingView {
                    uptime_secs: f.uptime_secs.unwrap(),
                    disk_pct: f.disk_pct.unwrap(),
                    temp_millic: f.temp_millic,
                    load_1m: f.load_1m.unwrap(),
                    mem_pct: f.mem_pct.unwrap(),
                    swap_pct: f.swap_pct,
                    proc_count: f.proc_count,
                },
            )
        },
    }
}

/// The parser's working state.
struct Acc {
    uptime_secs: Option<u64>,
    disk_pct: Option<u8>,
    temp_millic: Option<String>,
    load_1m: Option<String>,
    mem_pct: Option<u8>,
    swap_pct: Option<u8>,
    proc_count: Option<u32>,
}

impl View for Acc {
    type V = Fields;

    closed spec fn view(&self) -> Fields {
        Fields {
            uptime_secs: self.uptime_secs,
            disk_pct: self.disk_pct,
            temp_millic: opt_string_view(self.temp_millic),
            load_1m: opt_string_view(self.load_1m),
            mem_pct: self.mem_pct,
            swap_pct: self.swap_pct,
            proc_count: self.proc_count,
        }
    }
}

fn string_of_range(v: &Vec<char>, lo: usize, hi: usize) -> (s: String)
    requires
        lo <= hi <= v@.len(),
    ensures
        s@ == v@.subrange(lo as int, hi as int),
{
    let c = copy_range(v, lo, hi);
    string_from_chars(c.as_slice())
}

/// Applies the trimmed, non-blank line `v[a..b]`.
#[verifier::spinoff_prover]
#[verifier::rlimit(60)]
fn apply_line_exec(v: &Vec<char>, a: usize, b: usize, acc: &mut Acc) -> (r: Result<(), ParseError>)
    requires
        a < b <= v@.len(),
    ensures
        match apply_line(old(acc)@, v@.subrange(a as int, b as int)) {
            Ok(f) => r is Ok && final(acc)@ == f,
            Err(e) => r matches Err(x) && x@ == e,
        },
{
    reveal(apply_line);
    let ghost line = v@.subrange(a as int, b as int);
    let e = find_char(v, a, b, '=');
    if e == b {
        return Err(ParseError::MalformedLine(string_of_range(v, a, b)));
    }
    proof {
        lemma_index_of_bounds(line, '=');
    }
    let ghost key = line.take(e - a);
    let ghost value = line.skip(e - a + 1);
    assert(key =~= v@.subrange(a as int, e as int));
    assert(value =~= v@.subrange(e + 1, b as int));
    let vs = e + 1;
    if range_eq_str(v, a, e, "uptime_secs") {
        match parse_uint_range(v, vs, b, u64::MAX) {
            Some(n) => {
                acc.uptime_secs = Some(n);
                Ok(())
            },
            None => Err(
                ParseError::InvalidValue {
                    key: string_of_range(v, a, e),
                    value: string_of_range(v, vs, b),
                },
            ),
        }
    } else if range_eq_str(v, a, e, "disk_pct") {
        match parse_uint_range(v, vs, b, 255) {
            Some(n) => {
                acc.disk_pct = Some(n as u8);
                Ok(())
            },
            None => Err(
                ParseError::InvalidValue {
                    key: string_of_range(v, a, e),
                    value: string_of_range(v, vs, b),
                },
            ),
        }
    } else if range_eq_str(v, a, e, "temp_millic") {
        if vs == b {
            acc.temp_millic = None;
            Ok(())
        } else if float_syntax_range(v, vs, b) {
            acc.temp_millic = Some(string_of_range(v, vs, b));
            Ok(())
        } else {
            Err(
                ParseError::InvalidValue {
                    key: string_of_range(v, a, e),
                    value: string_of_range(v, vs, b),
                },
            )
        }
    } else if range_eq_str(v, a, e, "load_1m") {
        if float_syntax_range(v, vs, b) {
            acc.load_1m = Some(string_of_range(v, vs, b));
            Ok(())
        } else {
            Err(
                ParseError::InvalidValue {
                    key: string_of_range(v, a, e),
                    value: string_of_range(v, vs, b),
                },
            )
        }
    } else if range_eq_str(v, a, e, "mem_pct") {
        match parse_uint_range(v, vs, b, 255) {
            Some(n) => {
                acc.mem_pct = Some(n as u8);
                Ok(())
            },
            None => Err(
                ParseError::InvalidValue {
                    key: string_of_range(v, a, e),
                    value: string_of_range(v, vs, b),
                },
            ),
        }
    } else if range_eq_str(v, a, e, "swap_pct") {
        if vs == b {
            acc.swap_pct = None;
            Ok(())
        } else {
            match parse_uint_range(v, vs, b, 255) {
                Some(n) => {
                    acc.swap_pct = Some(n as u8);
                    Ok(())
                },
                None => Err(
                    ParseError::InvalidValue {
                        key: string_of_range(v, a, e),
                        value: string_of_range(v, vs, b),
                    },
                ),
            }
        }
    } else if range_eq_str(v, a, e, "proc_count") {
        if vs == b {
            acc.proc_count = None;
            Ok(())
        } else {
            match parse_uint_range(v, vs, b, 0xffff_ffff) {
                Some(n) => {
                    acc.proc_count = Some(n as u32);
                    Ok(())
                },
                None => Err(
                    ParseError::InvalidValue {
                        key: string_of_range(v, a, e),
                        value: string_of_range(v, vs, b),
                    },
                ),
            }
        }
    } else {
        Ok(())
    }
}

/// Parses the `key=value` output of the metric collector.
///
/// Lines are trimmed and blank ones skipped; a line without `=` is an
/// error; unknown keys are ignored and a later line for a key overrides an
/// earlier one. `uptime_secs`, `disk_pct`, `load_1m` and `mem_pct` are
/// required; an empty value for `temp_millic`, `swap_pct` or `proc_count`
/// leaves that metric absent. `temp_millic` and `load_1m` must be numbers
/// that `f32::from_str` reads (`float_syntax`: `inf`, `nan` and exponents
/// included); their text is handed on as written, for the caller to convert.
#[verifier::spinoff_prover]
#[verifier::rlimit(60)]
pub fn parse(text: &str) -> (r: Result<Reading, ParseError>)
    ensures
        match parse_spec(text@) {
            Ok(m) => r matches Ok(x) && x@ == m,
            Err(e) => r matches Err(x) && x@ == e,
        },
{
    let v = chars_of(text);
    let mut acc = Acc {
        uptime_secs: None,
        disk_pct: None,
        temp_millic: None,
        load_1m: None,
        mem_pct: None,
        swap_pct: None,
        proc_count: None,
    };
    assert(v@.skip(0) =~= v@);
    let mut pos: usize = 0;
    loop
        invariant_except_break
            pos <= v@.len(),
            v@ == text@,
            read_lines(no_fields(), v@) == read_lines(acc@, v@.skip(pos as int)),
        ensures
            v@ == text@,
            read_lines(no_fields(), v@) == Ok::<Fields, ParseErrorView>(acc@),
        decreases v@.len() - pos,
    {
        let ghost rest = v@.skip(pos as int);
        let ghost before = acc@;
        let k = find_char(&v, pos, v.len(), '\n');
        assert(rest =~= v@.subrange(pos as int, v@.len() as int));
        assert(rest.take(k - pos) =~= v@.subrange(pos as int, k as int));
        let (a, b) = trim_range(&v, pos, k);
        if a < b {
            match apply_line_exec(&v, a, b, &mut acc) {
                Ok(()) => {},
                Err(e) => {
                    return Err(e);
                },
            }
        }
        if k == v.len() {
            break ;
        }
        assert(rest.skip(k - pos + 1) =~= v@.skip(k + 1));
        pos = k + 1;
    }
    if acc.uptime_secs.is_none() {
        return Err(ParseError::Missing("uptime_secs".to_owned()));
    }
    if acc.disk_pct.is_none() {
        return Err(ParseError::Missing("disk_pct".to_owned()));
    }
    if acc.load_1m.is_none() {
        return Err(ParseError::Missing("load_1m".to_owned()));
    }
    if acc.mem_pct.is_none() {
        return Err(ParseError::Missing("mem_pct".to_owned()));
    }
    Ok(
        Reading {
            uptime_secs: acc.uptime_secs.unwrap(),
            disk_pct: acc.disk_pct.unwrap(),
            temp_millic: acc.temp_millic,
            load_1m: acc.load_1m.unwrap(),
            mem_pct: acc.mem_pct.unwrap(),
            swap_pct: acc.swap_pct,
            proc_count: acc.proc_count,
        },
    )
}

// ---------------------------------------------------------------------------
// Uptime
// ---------------------------------------------------------------------------

/// `secs` rendered as e.g. "4d 2h" / "1h 1m" / "17m" / "42s": the two
/// largest units when there are days or hours, else whole minutes, else
/// seconds.
pub open spec fn uptime_text(secs: nat) -> Seq<char> {
    let days = secs / 86_400;
    let rem = secs % 86_400;
    let hours = rem / 3_600;
    let rem2 = rem % 3_600;
    let mins = rem2 / 60;
    let s = rem2 % 60;
    if days > 0 {
        decimal(days) + seq!['d', ' '] + decimal(hours) + seq!['h']
    } else if hours > 0 {
        decimal(hours) + seq!['h', ' '] + decimal(mins) + seq!['m']
    } else if mins > 0 {
        decimal(mins) + seq!['m']
    } else {
        decimal(s) + seq!['s']
    }
}

pub fn push_uptime(out: &mut Vec<char>, secs: u64)
    ensures
        final(out)@ == old(out)@ + uptime_text(secs as nat),
{
    let days = secs / 86_400;
    let rem = secs % 86_400;
    let hours = rem / 3_600;
    let rem2 = rem % 3_600;
    let mins = rem2 / 60;
    let s = rem2 % 60;
    let ghost start = out@;
    if days > 0 {
        push_decimal(out, days);
        out.push('d');
        out.push(' ');
        push_decimal(out, hours);
        out.push('h');
        assert(out@ =~= start + (decimal(days as nat) + seq!['d', ' '] + decimal(hours as nat)
            + seq!['h']));
    } else if hours > 0 {
        push_decimal(out, hours);
        out.push('h');
        out.push(' ');
        push_decimal(out, mins);
        out.push('m');
        assert(out@ =~= start + (decimal(hours as nat) + seq!['h', ' '] + decimal(mins as nat)
            + seq!['m']));
    } else if mins > 0 {
        push_decimal(out, mins);
        out.push('m');
        assert(out@ =~= start + (decimal(mins as nat) + seq!['m']));
    } else {
        push_decimal(out, s);
        out.push('s');
        assert(out@ =~= start + (decimal(s as nat) + seq!['s']));
    }
}

/// Renders an uptime given in seconds. Low-fidelity on purpose.
pub fn format_uptime(secs: u64) -> (s: String)
    ensures
        s@ == uptime_text(secs as nat),
{
    let mut v: Vec<char> = Vec::new();
    push_uptime(&mut v, secs);
    assert(v@ =~= uptime_text(secs as nat));
    string_from_chars(v.as_slice())
}

} // verus!
