//! The human-readable output: the one-line summary and the table, plus the
//! ordering of reports and the fleet's overall verdict.
use vstd::prelude::*;
use owo_colors::OwoColorize;
use crate::check::{report_bad, HostOutcome, HostReport, Metric, MetricView, Violation};
use crate::float::{f32_fixed, f32_view, fixed_text};
use crate::metrics::{push_uptime, uptime_text, Metrics};
use crate::text::{
    chars_of, compare_chars, decimal, digit_char, lemma_seq_lt_irreflexive,
    lemma_seq_lt_total, lemma_seq_lt_transitive, push_chars, push_decimal, push_str, seq_lt, string_from_chars,
};

verus! {

broadcast use vstd::string::group_string_axioms;

// ---------------------------------------------------------------------------
// Counting
// ---------------------------------------------------------------------------

pub open spec fn is_unreachable(r: HostReport) -> bool {
    r.outcome is Unreachable
}

pub open spec fn has_warnings(r: HostReport) -> bool {
    match r.outcome {
        HostOutcome::Reached { violations, .. } => violations@.len() > 0,
        HostOutcome::Unreachable { .. } => false,
    }
}

/// How many of `rs` were unreachable.
pub open spec fn count_unreachable(rs: Seq<HostReport>) -> nat
    decreases rs.len(),
{
    if rs.len() == 0 {
        0
    } else {
        count_unreachable(rs.drop_last()) + if is_unreachable(rs.last()) {
            1nat
        } else {
            0nat
        }
    }
}

/// How many of `rs` were reached but tripped a threshold.
pub open spec fn count_warnings(rs: Seq<HostReport>) -> nat
    decreases rs.len(),
{
    if rs.len() == 0 {
        0
    } else {
        count_warnings(rs.drop_last()) + if has_warnings(rs.last()) {
            1nat
        } else {
            0nat
        }
    }
}

pub proof fn lemma_counts_bounded(rs: Seq<HostReport>)
    ensures
        count_unreachable(rs) + count_warnings(rs) <= rs.len(),
    decreases rs.len(),
{
    if rs.len() > 0 {
        lemma_counts_bounded(rs.drop_last());
    }
}

/// The number of unreachable hosts and of hosts with warnings.
pub fn count_outcomes(reports: &[HostReport]) -> (r: (usize, usize))
    ensures
        r.0 == count_unreachable(reports@),
        r.1 == count_warnings(reports@),
{
    let mut unreachable: usize = 0;
    let mut warn: usize = 0;
    let mut i: usize = 0;
    while i < reports.len()
        invariant
            i <= reports@.len(),
            unreachable == count_unreachable(reports@.take(i as int)),
            warn == count_warnings(reports@.take(i as int)),
        decreases reports@.len() - i,
    {
        proof {
            assert(reports@.take(i + 1).drop_last() =~= reports@.take(i as int));
            lemma_counts_bounded(reports@.take(i + 1));
        }
        match &reports[i].outcome {
            HostOutcome::Unreachable { .. } => {
                unreachable = unreachable + 1;
            },
            HostOutcome::Reached { violations, .. } => {
                if violations.len() > 0 {
                    warn = warn + 1;
                }
            },
        }
        i = i + 1;
    }
    assert(reports@.take(i as int) =~= reports@);
    (unreachable, warn)
}

/// Whether any host is unreachable or over a threshold: the run then exits
/// non-zero.
pub fn any_bad(reports: &[HostReport]) -> (b: bool)
    ensures
        b == exists|i: int| 0 <= i < reports@.len() && report_bad(#[trigger] reports@[i]),
{
    let mut i: usize = 0;
    while i < reports.len()
        invariant
            i <= reports@.len(),
            forall|j: int| 0 <= j < i ==> !report_bad(#[trigger] reports@[j]),
        decreases reports@.len() - i,
    {
        if reports[i].is_bad() {
            return true;
        }
        i = i + 1;
    }
    false
}

// ---------------------------------------------------------------------------
// Summary line
// ---------------------------------------------------------------------------

pub open spec fn healthy_mark() -> Seq<char> {
    seq!['\u{2713}']
}

pub open spec fn unhealthy_mark() -> Seq<char> {
    seq!['\u{2717}']
}

/// `text` between the ANSI escapes that set the foreground color `code`
/// and reset it.
pub open spec fn ansi_fg(code: Seq<char>, text: Seq<char>) -> Seq<char> {
    seq!['\u{1b}', '['] + code + seq!['m'] + text + seq!['\u{1b}', '[', '3', '9', 'm']
}

/// The summary line with the leading mark `mark`.
pub open spec fn summary_text(mark: Seq<char>, total: nat, unreachable: nat, warn: nat) -> Seq<
    char,
> {
    if unreachable == 0 && warn == 0 {
        mark + " all "@ + decimal(total) + " hosts healthy"@
    } else {
        mark + " "@ + decimal(unreachable) + " unreachable, "@ + decimal(warn)
            + " with warnings (of "@ + decimal(total) + " hosts)"@
    }
}

/// `text` in green when stdout takes colors (owo-colors'
/// `if_supports_color(Stream::Stdout, green)`), else unchanged. The
/// contract claims one of the two outcomes, with the escape codes that
/// owo-colors writes for green; which one comes depends on the terminal and
/// the environment.
#[verifier::external_body]
fn green_if_supported(text: &str) -> (s: String)
    ensures
        s@ == text@ || s@ == ansi_fg(seq!['3', '2'], text@),
{
    format!("{}", text.if_supports_color(owo_colors::Stream::Stdout, <&str as OwoColorize>::green))
}

/// `text` in red when stdout takes colors, else unchanged; as
/// `green_if_supported`, with owo-colors' escape codes for red.
#[verifier::external_body]
fn red_if_supported(text: &str) -> (s: String)
    ensures
        s@ == text@ || s@ == ansi_fg(seq!['3', '1'], text@),
{
    format!("{}", text.if_supports_color(owo_colors::Stream::Stdout, <&str as OwoColorize>::red))
}

/// The summary line for the given counts, led by `mark`.
pub fn summary_with_mark(mark: &str, total: usize, unreachable: usize, warn: usize) -> (s: String)
    ensures
        s@ == summary_text(mark@, total as nat, unreachable as nat, warn as nat),
{
    let mut v = chars_of(mark);
    if unreachable == 0 && warn == 0 {
        push_str(&mut v, " all ");
        push_decimal(&mut v, total as u64);
        push_str(&mut v, " hosts healthy");
    } else {
        push_str(&mut v, " ");
        push_decimal(&mut v, unreachable as u64);
        push_str(&mut v, " unreachable, ");
        push_decimal(&mut v, warn as u64);
        push_str(&mut v, " with warnings (of ");
        push_decimal(&mut v, total as u64);
        push_str(&mut v, " hosts)");
    }
    string_from_chars(v.as_slice())
}

/// One-line summary suitable for cron log scraping: "✓ all N hosts
/// healthy" when no host is unreachable or warned, else "✗ U unreachable, W
/// with warnings (of N hosts)". The mark is colored when stdout is a
/// terminal that takes colors.
#[verifier::spinoff_prover]
#[verifier::rlimit(60)]
pub fn summary_line(reports: &[HostReport]) -> (s: String)
    ensures
        ({
            let u = count_unreachable(reports@);
            let w = count_warnings(reports@);
            let mark = if u == 0 && w == 0 {
                healthy_mark()
            } else {
                unhealthy_mark()
            };
            let code = if u == 0 && w == 0 {
                seq!['3', '2']
            } else {
                seq!['3', '1']
            };
            s@ == summary_text(mark, reports@.len(), u, w) || s@ == summary_text(
                ansi_fg(code, mark),
                reports@.len(),
                u,
                w,
            )
        }),
{
    let (unreachable, warn) = count_outcomes(reports);
    let mark = if unreachable == 0 && warn == 0 {
        let m = green_if_supported("\u{2713}");
        proof {
            reveal_strlit("\u{2713}");
        }
        m
    } else {
        let m = red_if_supported("\u{2717}");
        proof {
            reveal_strlit("\u{2717}");
        }
        m
    };
    summary_with_mark(mark.as_str(), reports.len(), unreachable, warn)
}

// ---------------------------------------------------------------------------
// Table
// ---------------------------------------------------------------------------

/// Foreground colors the table uses.
#[derive(Debug, PartialEq, Eq, Structural)]
pub enum CellColor {
    Green,
    Yellow,
    Red,
    DarkGrey,
}

/// One table cell: its text, color and weight.
#[derive(Debug)]
pub struct TableCell {
    pub text: String,
    pub color: Option<CellColor>,
    pub bold: bool,
}

pub struct CellView {
    pub text: Seq<char>,
    pub color: Option<CellColor>,
    pub bold: bool,
}

impl View for TableCell {
    type V = CellView;

    open spec fn view(&self) -> CellView {
        CellView { text: self.text@, color: self.color, bold: self.bold }
    }
}

pub open spec fn cells_view(cs: Seq<TableCell>) -> Seq<CellView> {
    Seq::new(cs.len(), |i: int| cs[i]@)
}

pub open spec fn plain_cell(text: Seq<char>) -> CellView {
    CellView { text, color: None, bold: false }
}

pub open spec fn header_cell(text: Seq<char>) -> CellView {
    CellView { text, color: None, bold: true }
}

/// A metric's cell: red and bold when over its limit, else green.
pub open spec fn metric_cell_view(text: Seq<char>, bad: bool) -> CellView {
    if bad {
        CellView { text, color: Some(CellColor::Red), bold: true }
    } else {
        CellView { text, color: Some(CellColor::Green), bold: false }
    }
}

/// The dash that stands for a metric the host does not have.
pub open spec fn missing_cell() -> CellView {
    CellView { text: seq!['\u{2014}'], color: Some(CellColor::DarkGrey), bold: false }
}

pub open spec fn header_view() -> Seq<CellView> {
    seq![
        header_cell("host"@),
        header_cell("status"@),
        header_cell("uptime"@),
        header_cell("disk %"@),
        header_cell("temp \u{b0}C"@),
        header_cell("load 1m"@),
        header_cell("mem %"@),
        header_cell("swap %"@),
        header_cell("procs"@),
    ]
}

pub open spec fn violated(vs: Seq<Violation>, k: MetricView) -> bool {
    exists|i: int| 0 <= i < vs.len() && (#[trigger] vs[i]).metric@ == k
}

/// The row of a reached host.
pub open spec fn reached_row_view(name: Seq<char>, m: Metrics, vs: Seq<Violation>) -> Seq<CellView> {
    seq![
        plain_cell(name),
        if vs.len() == 0 {
            CellView { text: "OK"@, color: Some(CellColor::Green), bold: false }
        } else {
            CellView { text: "WARN"@, color: Some(CellColor::Yellow), bold: false }
        },
        plain_cell(uptime_text(m.uptime_secs as nat)),
        metric_cell_view(decimal(m.disk_pct as nat), violated(vs, MetricView::Disk)),
        match m.temp_c {
            Some(c) => metric_cell_view(fixed_text(f32_view(c), 1), violated(vs, MetricView::Temp)),
            None => missing_cell(),
        },
        metric_cell_view(fixed_text(f32_view(m.load_1m), 2), violated(vs, MetricView::Load)),
        metric_cell_view(decimal(m.mem_pct as nat), violated(vs, MetricView::Mem)),
        match m.swap_pct {
            Some(v) => metric_cell_view(decimal(v as nat), violated(vs, MetricView::Swap)),
            None => missing_cell(),
        },
        match m.proc_count {
            Some(v) => metric_cell_view(decimal(v as nat), violated(vs, MetricView::Proc)),
            None => missing_cell(),
        },
    ]
}

/// The row of an unreachable host: the error in red, dashes elsewhere.
pub open spec fn unreachable_row_view(name: Seq<char>, error: Seq<char>) -> Seq<CellView> {
    seq![
        plain_cell(name),
        CellView { text: "UNREACHABLE ("@ + error + ")"@, color: Some(CellColor::Red), bold: false },
        missing_cell(),
        missing_cell(),
        missing_cell(),
        missing_cell(),
        missing_cell(),
        missing_cell(),
        missing_cell(),
    ]
}

pub open spec fn row_view(r: HostReport) -> Seq<CellView> {
    match r.outcome {
        HostOutcome::Reached { metrics, violations } => reached_row_view(
            r.name@,
            metrics,
            violations@,
        ),
        HostOutcome::Unreachable { error } => unreachable_row_view(r.name@, error@),
    }
}

fn text_cell(text: &str, color: Option<CellColor>, bold: bool) -> (c: TableCell)
    ensures
        c@ == (CellView { text: text@, color, bold }),
{
    TableCell { text: text.to_owned(), color, bold }
}

fn chars_cell(text: &Vec<char>, color: Option<CellColor>, bold: bool) -> (c: TableCell)
    ensures
        c@ == (CellView { text: text@, color, bold }),
{
    TableCell { text: string_from_chars(text.as_slice()), color, bold }
}

fn missing() -> (c: TableCell)
    ensures
        c@ == missing_cell(),
{
    proof {
        reveal_strlit("\u{2014}");
    }
    assert("\u{2014}"@ =~= seq!['\u{2014}']);
    text_cell("\u{2014}", Some(CellColor::DarkGrey), false)
}

fn metric_cell(text: &Vec<char>, bad: bool) -> (c: TableCell)
    ensures
        c@ == metric_cell_view(text@, bad),
{
    if bad {
        chars_cell(text, Some(CellColor::Red), true)
    } else {
        chars_cell(text, Some(CellColor::Green), false)
    }
}

proof fn lemma_push_cell(cs: Seq<TableCell>, c: TableCell)
    ensures
        cells_view(cs.push(c)) == cells_view(cs).push(c@),
{
    assert(cells_view(cs.push(c)) =~= cells_view(cs).push(c@));
}

/// The header row.
pub fn header_cells() -> (cs: Vec<TableCell>)
    ensures
        cells_view(cs@) == header_view(),
{
    let mut cs: Vec<TableCell> = Vec::new();
    cs.push(text_cell("host", None, true));
    cs.push(text_cell("status", None, true));
    cs.push(text_cell("uptime", None, true));
    cs.push(text_cell("disk %", None, true));
    cs.push(text_cell("temp \u{b0}C", None, true));
    cs.push(text_cell("load 1m", None, true));
    cs.push(text_cell("mem %", None, true));
    cs.push(text_cell("swap %", None, true));
    cs.push(text_cell("procs", None, true));
    assert(cells_view(cs@) =~= header_view());
    cs
}

/// Which typed metrics the violations name: disk, temp, load, mem, swap,
/// procs.
fn violated_flags(vs: &Vec<Violation>) -> (f: [bool; 6])
    ensures
        f[0] == violated(vs@, MetricView::Disk),
        f[1] == violated(vs@, MetricView::Temp),
        f[2] == violated(vs@, MetricView::Load),
        f[3] == violated(vs@, MetricView::Mem),
        f[4] == violated(vs@, MetricView::Swap),
        f[5] == violated(vs@, MetricView::Proc),
{
    let mut f = [false, false, false, false, false, false];
    let mut i: usize = 0;
    while i < vs.len()
        invariant
            i <= vs@.len(),
            f[0] == exists|j: int| 0 <= j < i && (#[trigger] vs@[j]).metric@ == MetricView::Disk,
            f[1] == exists|j: int| 0 <= j < i && (#[trigger] vs@[j]).metric@ == MetricView::Temp,
            f[2] == exists|j: int| 0 <= j < i && (#[trigger] vs@[j]).metric@ == MetricView::Load,
            f[3] == exists|j: int| 0 <= j < i && (#[trigger] vs@[j]).metric@ == MetricView::Mem,
            f[4] == exists|j: int| 0 <= j < i && (#[trigger] vs@[j]).metric@ == MetricView::Swap,
            f[5] == exists|j: int| 0 <= j < i && (#[trigger] vs@[j]).metric@ == MetricView::Proc,
        decreases vs@.len() - i,
    {
        let ghost x = vs@[i as int];
        match &vs[i].metric {
            Metric::Disk => {
                f[0] = true;
            },
            Metric::Temp => {
                f[1] = true;
            },
            Metric::Load => {
                f[2] = true;
            },
            Metric::Mem => {
                f[3] = true;
            },
            Metric::Swap => {
                f[4] = true;
            },
            Metric::Proc => {
                f[5] = true;
            },
            Metric::Custom(_) => {},
        }
        i = i + 1;
    }
    f
}

/// The cells of a reached host's row.
#[verifier::spinoff_prover]
#[verifier::rlimit(60)]
pub fn reached_row(name: &String, m: &Metrics, vs: &Vec<Violation>) -> (cs: Vec<TableCell>)
    ensures
        cells_view(cs@) == reached_row_view(name@, *m, vs@),
{
    let f = violated_flags(vs);
    let mut cs: Vec<TableCell> = Vec::new();
    cs.push(TableCell { text: name.clone(), color: None, bold: false });
    if vs.len() == 0 {
        cs.push(text_cell("OK", Some(CellColor::Green), false));
    } else {
        cs.push(text_cell("WARN", Some(CellColor::Yellow), false));
    }
    let mut up: Vec<char> = Vec::new();
    push_uptime(&mut up, m.uptime_secs);
    assert(up@ =~= uptime_text(m.uptime_secs as nat));
    cs.push(chars_cell(&up, None, false));
    let mut disk: Vec<char> = Vec::new();
    push_decimal(&mut disk, m.disk_pct as u64);
    assert(disk@ =~= decimal(m.disk_pct as nat));
    cs.push(metric_cell(&disk, f[0]));
    match m.temp_c {
        Some(c) => {
            let t = f32_fixed(c, 1);
            cs.push(metric_cell(&t, f[1]));
        },
        None => {
            cs.push(missing());
        },
    }
    let load = f32_fixed(m.load_1m, 2);
    cs.push(metric_cell(&load, f[2]));
    let mut mem: Vec<char> = Vec::new();
    push_decimal(&mut mem, m.mem_pct as u64);
    assert(mem@ =~= decimal(m.mem_pct as nat));
    cs.push(metric_cell(&mem, f[3]));
    match m.swap_pct {
        Some(v) => {
            let mut sw: Vec<char> = Vec::new();
            push_decimal(&mut sw, v as u64);
            assert(sw@ =~= decimal(v as nat));
            cs.push(metric_cell(&sw, f[4]));
        },
        None => {
            cs.push(missing());
        },
    }
    match m.proc_count {
        Some(v) => {
            let mut pc: Vec<char> = Vec::new();
            push_decimal(&mut pc, v as u64);
            assert(pc@ =~= decimal(v as nat));
            cs.push(metric_cell(&pc, f[5]));
        },
        None => {
            cs.push(missing());
        },
    }
    assert(cells_view(cs@) =~= reached_row_view(name@, *m, vs@));
    cs
}

/// The cells of an unreachable host's row.
pub fn unreachable_row(name: &String, error: &String) -> (cs: Vec<TableCell>)
    ensures
        cells_view(cs@) == unreachable_row_view(name@, error@),
{
    let mut cs: Vec<TableCell> = Vec::new();
    cs.push(TableCell { text: name.clone(), color: None, bold: false });
    let mut t: Vec<char> = Vec::new();
    push_str(&mut t, "UNREACHABLE (");
    let e = chars_of(error.as_str());
    push_chars(&mut t, &e);
    push_str(&mut t, ")");
    cs.push(chars_cell(&t, Some(CellColor::Red), false));
    let mut k: usize = 0;
    while k < 7
        invariant
            k <= 7,
            cs@.len() == 2 + k,
            cells_view(cs@) =~= unreachable_row_view(name@, error@).take(2 + k),
        decreases 7 - k,
    {
        let c = missing();
        proof {
            lemma_push_cell(cs@, c);
        }
        cs.push(c);
        k = k + 1;
    }
    assert(unreachable_row_view(name@, error@).take(9) =~= unreachable_row_view(name@, error@));
    cs
}

/// The cells of one report's row.
pub fn report_row(r: &HostReport) -> (cs: Vec<TableCell>)
    ensures
        cells_view(cs@) == row_view(*r),
{
    match &r.outcome {
        HostOutcome::Reached { metrics, violations } => reached_row(&r.name, metrics, violations),
        HostOutcome::Unreachable { error } => unreachable_row(&r.name, error),
    }
}

/// A table of comfy-table (its `Table`).
#[verifier::external_type_specification]
#[verifier::external_body]
pub struct ExTable(comfy_table::Table);

/// A cell of comfy-table (its `Cell`).
#[verifier::external_type_specification]
#[verifier::external_body]
pub struct ExCell(comfy_table::Cell);

/// What a comfy-table cell holds: its text, as `Cell::content` gives it back
/// (the lines that `Cell::new` split at each '\n', joined again), its
/// foreground color (`Cell::fg`, one of those `CellColor` names), and whether
/// it carries `Attribute::Bold`.
pub uninterp spec fn cell_view(c: comfy_table::Cell) -> CellView;

/// The header cells of a comfy-table table, in column order; empty while no
/// header is set.
pub uninterp spec fn table_header(t: comfy_table::Table) -> Seq<CellView>;

/// The cells of a comfy-table table's body rows, row by row in the order the
/// rows were added.
pub uninterp spec fn table_rows(t: comfy_table::Table) -> Seq<Seq<CellView>>;

/// A row of comfy-table cells, by what each holds.
pub open spec fn cell_views(cs: Seq<comfy_table::Cell>) -> Seq<CellView> {
    cs.map_values(|c: comfy_table::Cell| cell_view(c))
}

/// The texts a table shows, row by row: the header, then the body rows.
pub open spec fn table_grid(t: comfy_table::Table) -> Seq<Seq<Seq<char>>> {
    seq![view_texts(table_header(t))] + table_rows(t).map_values(|r: Seq<CellView>| view_texts(r))
}

/// A text that a table lays out on one line of its column, unbroken: it has
/// no line break and is short enough that no column is ever too narrow for it.
pub open spec fn fits_on_one_line(s: Seq<char>) -> bool {
    !s.contains('\n') && s.len() <= 16384
}

/// `sub` stands in `s` from position `p` on.
pub open spec fn text_at(s: Seq<char>, sub: Seq<char>, p: int) -> bool {
    0 <= p && p + sub.len() <= s.len() && s.subrange(p, p + sub.len()) == sub
}

/// `sub` stands somewhere in `s`, unbroken.
pub open spec fn contains_text(s: Seq<char>, sub: Seq<char>) -> bool {
    exists|p: int| #[trigger] text_at(s, sub, p)
}

/// Every text of `pieces` stands at its position of `pos` in `s`, and each
/// ends before the next one starts.
pub open spec fn pieces_at(s: Seq<char>, pieces: Seq<Seq<char>>, pos: Seq<int>) -> bool {
    &&& pos.len() == pieces.len()
    &&& forall|i: int| 0 <= i < pieces.len() ==> text_at(s, pieces[i], #[trigger] pos[i])
    &&& forall|i: int, j: int|
        0 <= i < j < pieces.len() ==> #[trigger] pos[i] + pieces[i].len() <= #[trigger] pos[j]
}

/// The texts of `pieces` stand in `s` unbroken, one after the other, in order.
pub open spec fn pieces_in_order(s: Seq<char>, pieces: Seq<Seq<char>>) -> bool {
    exists|pos: Seq<int>| #[trigger] pieces_at(s, pieces, pos)
}

/// Every cell of the grid fits on one line.
pub open spec fn grid_fits(g: Seq<Seq<Seq<char>>>) -> bool {
    forall|i: int, j: int| 0 <= i < g.len() && 0 <= j < g[i].len() ==> fits_on_one_line(#[trigger] g[i][j])
}

/// comfy-table's `Table::new`: a table with no header and no rows.
#[verifier::external_body]
fn table_new() -> (t: comfy_table::Table)
    ensures
        table_header(t) == Seq::<CellView>::empty(),
        table_rows(t) == Seq::<Seq<CellView>>::empty(),
{
    comfy_table::Table::new()
}

/// comfy-table's `Table::load_preset` with its `UTF8_FULL` border preset: it
/// changes the border characters only, so header and rows stay as they were.
#[verifier::external_body]
fn table_use_utf8_full(t: &mut comfy_table::Table)
    ensures
        table_header(*final(t)) == table_header(*old(t)),
        table_rows(*final(t)) == table_rows(*old(t)),
{
    t.load_preset(comfy_table::presets::UTF8_FULL);
}

/// comfy-table's `Cell::new` on `text`: the cell holds that text, with no
/// color and no attribute.
#[verifier::external_body]
fn cell_new(text: &str) -> (c: comfy_table::Cell)
    ensures
        cell_view(c) == (CellView { text: text@, color: None, bold: false }),
{
    comfy_table::Cell::new(text)
}

/// comfy-table's `Cell::fg` with the comfy-table color of the same name: the
/// foreground becomes that color; text and attributes stay.
#[verifier::external_body]
fn cell_fg(c: comfy_table::Cell, color: &CellColor) -> (out: comfy_table::Cell)
    ensures
        cell_view(out) == (CellView { text: cell_view(c).text, color: Some(*color), bold: cell_view(c).bold }),
{
    c.fg(
        match color {
            CellColor::Green => comfy_table::Color::Green,
            CellColor::Yellow => comfy_table::Color::Yellow,
            CellColor::Red => comfy_table::Color::Red,
            CellColor::DarkGrey => comfy_table::Color::DarkGrey,
        },
    )
}

/// comfy-table's `Cell::add_attribute` with `Attribute::Bold`: the cell is
/// bold; text and color stay.
#[verifier::external_body]
fn cell_bold(c: comfy_table::Cell) -> (out: comfy_table::Cell)
    ensures
        cell_view(out) == (CellView { text: cell_view(c).text, color: cell_view(c).color, bold: true }),
{
    c.add_attribute(comfy_table::Attribute::Bold)
}

/// comfy-table's `Table::set_header`: the header becomes these cells; the
/// rows stay.
#[verifier::external_body]
fn table_set_header(t: &mut comfy_table::Table, cells: Vec<comfy_table::Cell>)
    ensures
        table_header(*final(t)) == cell_views(cells@),
        table_rows(*final(t)) == table_rows(*old(t)),
{
    t.set_header(cells);
}

/// comfy-table's `Table::add_row`: these cells become the last row; the
/// header stays.
#[verifier::external_body]
fn table_add_row(t: &mut comfy_table::Table, cells: Vec<comfy_table::Cell>)
    ensures
        table_header(*final(t)) == table_header(*old(t)),
        table_rows(*final(t)) == table_rows(*old(t)).push(cell_views(cells@)),
{
    t.add_row(cells);
}

/// comfy-table's rendering of the table (`Display`, through `to_string`).
///
/// A table made as here has no width constraint, no row height limit and
/// content arrangement `Disabled`, so each column is as wide as its widest
/// line (up to `u16::MAX` display columns, at most 3 per character), a line
/// is broken only at its '\n', and colors and attributes only wrap a line in
/// escape codes. So each cell text that fits on one line stands in the text
/// unbroken, and where every cell fits on one line, each row is one line and
/// the texts come header first, then row by row, each row in column order.
/// Borders, padding and escape codes, which depend on the preset and on
/// whether stdout is a terminal, are left unsaid.
#[verifier::external_body]
fn table_render(t: &comfy_table::Table) -> (s: String)
    ensures
        forall|i: int, j: int|
            0 <= i < table_grid(*t).len() && 0 <= j < table_grid(*t)[i].len() && fits_on_one_line(
                table_grid(*t)[i][j],
            ) ==> contains_text(s@, #[trigger] table_grid(*t)[i][j]),
        grid_fits(table_grid(*t)) ==> pieces_in_order(s@, table_grid(*t).flatten()),
{
    t.to_string()
}

/// The texts of a row of table cells.
pub open spec fn view_texts(cs: Seq<CellView>) -> Seq<Seq<char>> {
    cs.map_values(|c: CellView| c.text)
}

/// What the report table shows, row by row: the header labels, then each
/// report's row.
pub open spec fn report_grid(reports: Seq<HostReport>) -> Seq<Seq<Seq<char>>> {
    seq![view_texts(header_view())] + reports.map_values(|r: HostReport| view_texts(row_view(r)))
}

/// A report's status text: OK or WARN for a reached host, as it has
/// violations, or UNREACHABLE with the error.
pub open spec fn status_text(r: HostReport) -> Seq<char> {
    match r.outcome {
        HostOutcome::Reached { violations, .. } => if violations@.len() == 0 {
            "OK"@
        } else {
            "WARN"@
        },
        HostOutcome::Unreachable { error } => "UNREACHABLE ("@ + error@ + ")"@,
    }
}

/// One comfy-table cell per table cell, in order, holding the cell's text,
/// color and weight.
fn comfy_cells(cs: &Vec<TableCell>) -> (out: Vec<comfy_table::Cell>)
    ensures
        cell_views(out@) == cells_view(cs@),
{
    let mut out: Vec<comfy_table::Cell> = Vec::new();
    let mut i: usize = 0;
    while i < cs.len()
        invariant
            i <= cs@.len(),
            out@.len() == i,
            forall|k: int| 0 <= k < i ==> cell_view(#[trigger] out@[k]) == cs@[k]@,
        decreases cs@.len() - i,
    {
        let c = &cs[i];
        let mut cell = cell_new(c.text.as_str());
        match &c.color {
            Some(color) => {
                cell = cell_fg(cell, color);
            },
            None => {},
        }
        if c.bold {
            cell = cell_bold(cell);
        }
        out.push(cell);
        i = i + 1;
    }
    assert(cell_views(out@) =~= cells_view(cs@));
    out
}

/// The report table: the header row, then one row per report in the order
/// given, each cell with the text, color and weight that `header_cells` and
/// `report_row` give it.
pub fn build_table(reports: &[HostReport]) -> (t: comfy_table::Table)
    ensures
        table_header(t) == header_view(),
        table_rows(t) == reports@.map_values(|r: HostReport| row_view(r)),
{
    let mut table = table_new();
    table_use_utf8_full(&mut table);
    let header = header_cells();
    table_set_header(&mut table, comfy_cells(&header));
    let mut i: usize = 0;
    while i < reports.len()
        invariant
            i <= reports@.len(),
            table_header(table) == header_view(),
            table_rows(table) == reports@.take(i as int).map_values(|r: HostReport| row_view(r)),
        decreases reports@.len() - i,
    {
        let row = report_row(&reports[i]);
        table_add_row(&mut table, comfy_cells(&row));
        proof {
            assert(reports@.take(i + 1).map_values(|r: HostReport| row_view(r)) =~= reports@.take(
                i as int,
            ).map_values(|r: HostReport| row_view(r)).push(row_view(reports@[i as int])));
        }
        i = i + 1;
    }
    assert(reports@.take(reports@.len() as int) =~= reports@);
    table
}

/// Renders reports as a colored, human-readable table: `build_table`,
/// rendered by comfy-table.
///
/// Each header label stands in the text, and so does each cell text of each
/// report's row (its host name and status among them) that fits on one line;
/// where all of them fit, they come in order: the header, then the reports'
/// rows in the order given, each in column order.
#[verifier::spinoff_prover]
#[verifier::rlimit(60)]
pub fn render_table(reports: &[HostReport]) -> (out: String)
    ensures
        forall|j: int| 0 <= j < header_view().len() ==> contains_text(out@, #[trigger] header_view()[j].text),
        forall|i: int|
            0 <= i < reports@.len() && fits_on_one_line(reports@[i].name@) ==> contains_text(
                out@,
                #[trigger] reports@[i].name@,
            ),
        forall|i: int|
            0 <= i < reports@.len() && fits_on_one_line(status_text(reports@[i])) ==> contains_text(
                out@,
                #[trigger] status_text(reports@[i]),
            ),
        forall|i: int, j: int|
            0 <= i < reports@.len() && 0 <= j < row_view(reports@[i]).len() && fits_on_one_line(
                row_view(reports@[i])[j].text,
            ) ==> contains_text(out@, #[trigger] row_view(reports@[i])[j].text),
        grid_fits(report_grid(reports@)) ==> pieces_in_order(out@, report_grid(reports@).flatten()),
{
    let table = build_table(reports);
    let out = table_render(&table);
    proof {
        assert(table_grid(table) =~= report_grid(reports@));
        lemma_header_fits();
        assert forall|j: int| 0 <= j < header_view().len() implies contains_text(
            out@,
            #[trigger] header_view()[j].text,
        ) by {
            assert(table_grid(table)[0][j] == header_view()[j].text);
        }
        assert forall|i: int, j: int|
            0 <= i < reports@.len() && 0 <= j < row_view(reports@[i]).len() && fits_on_one_line(
                row_view(reports@[i])[j].text,
            ) implies contains_text(out@, #[trigger] row_view(reports@[i])[j].text) by {
            assert(table_grid(table)[i + 1][j] == row_view(reports@[i])[j].text);
        }
        assert forall|i: int|
            0 <= i < reports@.len() && fits_on_one_line(reports@[i].name@) implies contains_text(
                out@,
                #[trigger] reports@[i].name@,
            ) by {
            assert(row_view(reports@[i])[0].text == reports@[i].name@);
            assert(table_grid(table)[i + 1][0] == row_view(reports@[i])[0].text);
        }
        assert forall|i: int|
            0 <= i < reports@.len() && fits_on_one_line(status_text(reports@[i])) implies contains_text(
                out@,
                #[trigger] status_text(reports@[i]),
            ) by {
            assert(row_view(reports@[i])[1].text == status_text(reports@[i]));
            assert(table_grid(table)[i + 1][1] == row_view(reports@[i])[1].text);
        }
    }
    out
}

/// The header labels fit on one line.
proof fn lemma_header_fits()
    ensures
        forall|j: int| 0 <= j < header_view().len() ==> fits_on_one_line(#[trigger] header_view()[j].text),
{
    reveal_strlit("host");
    reveal_strlit("status");
    reveal_strlit("uptime");
    reveal_strlit("disk %");
    reveal_strlit("temp \u{b0}C");
    reveal_strlit("load 1m");
    reveal_strlit("mem %");
    reveal_strlit("swap %");
    reveal_strlit("procs");
    assert forall|j: int| 0 <= j < header_view().len() implies fits_on_one_line(
        #[trigger] header_view()[j].text,
    ) by {
        let t = header_view()[j].text;
        assert(t.len() <= 16384);
        assert(forall|k: int| 0 <= k < t.len() ==> t[k] != '\n');
    }
}

// ---------------------------------------------------------------------------
// Ordering
// ---------------------------------------------------------------------------

/// Reports in order of host name (no name after a later one).
pub open spec fn sorted_by_name(rs: Seq<HostReport>) -> bool {
    forall|i: int, j: int|
        0 <= i < j < rs.len() ==> !seq_lt(#[trigger] rs[j].name@, #[trigger] rs[i].name@)
}

/// Whether a report is of the host named `n`.
pub open spec fn has_name(n: Seq<char>) -> spec_fn(HostReport) -> bool {
    |r: HostReport| r.name@ == n
}

/// The reports of the host named `n`, in their order in `rs`.
pub open spec fn reports_named(rs: Seq<HostReport>, n: Seq<char>) -> Seq<HostReport> {
    rs.filter(has_name(n))
}

/// Inserting `x` before the first report whose name comes after its own adds
/// `x` last among the reports of its name and leaves the other names alone.
proof fn lemma_insert_after_equal_names(before: Seq<HostReport>, j: int, x: HostReport, n: Seq<char>)
    requires
        0 <= j <= before.len(),
        forall|t: int| j <= t < before.len() ==> seq_lt(x.name@, #[trigger] before[t].name@),
    ensures
        reports_named(before.insert(j, x), n) == if x.name@ == n {
            reports_named(before, n).push(x)
        } else {
            reports_named(before, n)
        },
{
    let pred = has_name(n);
    let p = before.take(j);
    let q = before.skip(j);
    assert(before =~= p + q);
    assert(before.insert(j, x) =~= p + seq![x] + q);
    Seq::filter_distributes_over_add(p, q, pred);
    Seq::filter_distributes_over_add(p + seq![x], q, pred);
    Seq::filter_distributes_over_add(p, seq![x], pred);
    assert(seq![x] =~= Seq::<HostReport>::empty().push(x));
    Seq::<HostReport>::empty().lemma_filter_push(x, pred);
    reveal(Seq::filter);
    assert(Seq::<HostReport>::empty().filter(pred) =~= Seq::<HostReport>::empty());
    if x.name@ == n {
        assert forall|t: int| 0 <= t < q.len() implies !pred(#[trigger] q[t]) by {
            assert(q[t] == before[j + t]);
            lemma_seq_lt_irreflexive(x.name@);
        }
        assert(q.all(|r: HostReport| !pred(r)));
        q.lemma_all_neg_filter_empty(pred);
        assert(q.filter(pred) =~= Seq::<HostReport>::empty());
        assert(reports_named(before.insert(j, x), n) =~= reports_named(before, n).push(x));
    } else {
        assert(reports_named(before.insert(j, x), n) =~= reports_named(before, n));
    }
}

/// Sorts reports by host name, keeping the order of equal names.
#[verifier::spinoff_prover]
#[verifier::rlimit(60)]
pub fn sort_reports(reports: Vec<HostReport>) -> (out: Vec<HostReport>)
    ensures
        sorted_by_name(out@),
        out@.to_multiset() == reports@.to_multiset(),
        forall|n: Seq<char>| #[trigger] reports_named(out@, n) == reports_named(reports@, n),
{
    broadcast use vstd::seq_lib::group_to_multiset_ensures;

    let ghost orig = reports@;
    let mut input = reports;
    let mut out: Vec<HostReport> = Vec::new();
    let mut k: usize = 0;
    let n = input.len();
    assert(orig.take(0) =~= Seq::<HostReport>::empty());
    while input.len() > 0
        invariant
            k + input@.len() == n,
            n == orig.len(),
            input@ == orig.skip(k as int),
            sorted_by_name(out@),
            out@.to_multiset() == orig.take(k as int).to_multiset(),
            forall|nm: Seq<char>| #[trigger] reports_named(out@, nm) == reports_named(orig.take(k as int), nm),
        decreases input@.len(),
    {
        let x = input.remove(0);
        assert(x == orig[k as int]);
        let xn = chars_of(x.name.as_str());
        // first position whose name comes after x's
        let mut j: usize = 0;
        while j < out.len()
            invariant
                j <= out@.len(),
                xn@ == x.name@,
                forall|t: int| 0 <= t < j ==> !seq_lt(xn@, #[trigger] out@[t].name@),
            ensures
                j <= out@.len(),
                forall|t: int| 0 <= t < j ==> !seq_lt(xn@, #[trigger] out@[t].name@),
                j < out@.len() ==> seq_lt(xn@, out@[j as int].name@),
            decreases out@.len() - j,
        {
            let on = chars_of(out[j].name.as_str());
            if compare_chars(&xn, &on) < 0 {
                break ;
            }
            j = j + 1;
        }
        let ghost before = out@;
        proof {
            let s = before.insert(j as int, x);
            assert forall|a: int, b: int| 0 <= a < b < s.len() implies !seq_lt(
                #[trigger] s[b].name@,
                #[trigger] s[a].name@,
            ) by {
                if b < j {
                    assert(s[a] == before[a] && s[b] == before[b]);
                } else if a < j && b == j {
                    assert(s[a] == before[a] && s[b] == x);
                } else if a < j {
                    assert(s[a] == before[a] && s[b] == before[b - 1]);
                } else if a == j {
                    assert(s[a] == x && s[b] == before[b - 1]);
                    let nb = before[b - 1].name@;
                    let nj = before[j as int].name@;
                    if seq_lt(nb, x.name@) {
                        lemma_seq_lt_transitive(nb, x.name@, nj);
                        if b - 1 == j {
                            lemma_seq_lt_irreflexive(nj);
                        } else {
                            assert(!seq_lt(before[b - 1].name@, before[j as int].name@));
                        }
                    }
                } else {
                    assert(s[a] == before[a - 1] && s[b] == before[b - 1]);
                }
            }
            vstd::seq_lib::to_multiset_insert(before, j as int, x);
            vstd::seq_lib::to_multiset_build(orig.take(k as int), x);
            assert forall|t: int| j <= t < before.len() implies seq_lt(
                x.name@,
                #[trigger] before[t].name@,
            ) by {
                let nj = before[j as int].name@;
                let nt = before[t].name@;
                if t > j && nj != nt {
                    lemma_seq_lt_total(nj, nt);
                    lemma_seq_lt_transitive(x.name@, nj, nt);
                }
            }
            assert forall|nm: Seq<char>| #[trigger] reports_named(s, nm) == reports_named(
                orig.take(k + 1),
                nm,
            ) by {
                lemma_insert_after_equal_names(before, j as int, x, nm);
                assert(orig.take(k + 1) =~= orig.take(k as int).push(x));
                orig.take(k as int).lemma_filter_push(x, has_name(nm));
            }
        }
        out.insert(j, x);
        assert(orig.take(k + 1) =~= orig.take(k as int).push(orig[k as int]));
        assert(input@ =~= orig.skip(k + 1));
        k = k + 1;
    }
    assert(orig.take(n as int) =~= orig);
    out
}

} // verus!
