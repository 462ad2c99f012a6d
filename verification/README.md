# fleetcheck

Reports the health of a fleet of Linux hosts over SSH: uptime, root-disk
use, CPU temperature, load, memory, swap and process count, held against
thresholds. Output is a colored table with a one-line summary, or JSON; the
exit code is 0 when every host is reachable and within its thresholds, 1
otherwise, 2 on a configuration error.

## Layout

- `src/` — the library, verified with Verus:
  - `text.rs`: trimming, searching, decimal rendering and number syntax
    over characters;
  - `float.rs`: binary32/binary64 values by their bits: comparison and
    fixed-decimal formatting;
  - `metrics.rs`: the collector's `key=value` format and the uptime text;
  - `config.rs`: thresholds, the sorted custom-threshold map, per-host
    overrides and how they merge;
  - `check.rs`: threshold evaluation, per-host outcomes, retry decisions
    and backoff;
  - `report.rs`: the summary line, the table and its cells, report
    ordering;
  - `cli.rs`: command-line settings and timeout resolution;
  - `laws.rs`: properties of the library as a whole.
- `app/` — the binary: clap, TOML loading, SSH (openssh/tokio), JSON.
- `tests/` — tests of the library.

The temperature and load are `f32` values and custom limits `f64` values;
the library holds them as their IEEE 754 bit patterns (`src/float.rs`): it decodes them, compares them (`>`, with
NaN and the infinities as IEEE 754 has them) and writes them with `{:.1}` /
`{:.2}` exactly, on integers. The parser checks a temperature or load value
with the grammar that `f32::from_str` accepts and hands the text on; `app/`
makes the conversion to `f32` (and divides the temperature by 1000), the
only float arithmetic, which stays outside the library.
