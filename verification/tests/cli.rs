use clap::builder::{PathBufValueParser, RangedU64ValueParser};
use clap::{Arg, ArgAction, ArgMatches, Command};
use fleetcheck::cli::{Cli, DEFAULT_CONNECT_SECS, DEFAULT_MAX_CONCURRENT, DEFAULT_SCRIPT_SECS};

/// The command-line definition, in clap's builder form: the same flags,
/// defaults and conflicts as the binary's.
fn command() -> Command {
    Command::new("fleetcheck")
        .version("0.1.0")
        .about("Raspberry Pi fleet health check.")
        .arg(Arg::new("config").short('c').long("config").value_parser(PathBufValueParser::new()))
        .arg(Arg::new("json").long("json").action(ArgAction::SetTrue))
        .arg(Arg::new("connect_timeout").long("connect-timeout").value_parser(RangedU64ValueParser::<u64>::new()))
        .arg(Arg::new("script_timeout").long("script-timeout").value_parser(RangedU64ValueParser::<u64>::new()))
        .arg(
            Arg::new("timeout_secs")
                .long("timeout-secs")
                .value_parser(RangedU64ValueParser::<u64>::new())
                .conflicts_with_all(["connect_timeout", "script_timeout"]),
        )
        .arg(
            Arg::new("max_concurrent")
                .long("max-concurrent")
                .value_parser(RangedU64ValueParser::<usize>::new())
                .default_value("32"),
        )
        .arg(
            Arg::new("retries")
                .long("retries")
                .value_parser(RangedU64ValueParser::<u32>::new())
                .default_value("0"),
        )
}

fn cli_from(m: &ArgMatches) -> Cli {
    Cli {
        config: m.get_one::<std::path::PathBuf>("config").cloned(),
        json: m.get_flag("json"),
        connect_timeout: m.get_one::<u64>("connect_timeout").copied(),
        script_timeout: m.get_one::<u64>("script_timeout").copied(),
        timeout_secs: m.get_one::<u64>("timeout_secs").copied(),
        max_concurrent: *m.get_one::<usize>("max_concurrent").unwrap(),
        retries: *m.get_one::<u32>("retries").unwrap(),
    }
}

fn parse_from<const N: usize>(args: [&str; N]) -> Cli {
    cli_from(&command().try_get_matches_from(args).unwrap())
}

#[test]
fn cli_definition_is_valid() {
    command().debug_assert();
}

#[test]
fn defaults_match_documented_values() {
    let cli = parse_from(["fleetcheck"]);
    assert!(cli.config.is_none());
    assert!(!cli.json);
    assert!(cli.timeout_secs.is_none());
    assert!(cli.connect_timeout.is_none());
    assert!(cli.script_timeout.is_none());
    assert_eq!(cli.max_concurrent, DEFAULT_MAX_CONCURRENT);
    assert_eq!(cli.retries, 0);
    assert_eq!(cli.resolve_timeout_secs(), (DEFAULT_CONNECT_SECS, DEFAULT_SCRIPT_SECS));
}

#[test]
fn parses_all_flags() {
    let cli = parse_from([
        "fleetcheck",
        "--json",
        "--config",
        "/tmp/x.toml",
        "--connect-timeout",
        "3",
        "--script-timeout",
        "12",
    ]);
    assert!(cli.json);
    assert_eq!(cli.config.as_deref(), Some(std::path::Path::new("/tmp/x.toml")));
    assert_eq!(cli.connect_timeout, Some(3));
    assert_eq!(cli.script_timeout, Some(12));
    assert_eq!(cli.resolve_timeout_secs(), (3, 12));
}

#[test]
fn legacy_timeout_secs_aliases_both_phases() {
    let cli = parse_from(["fleetcheck", "--timeout-secs", "7"]);
    assert_eq!(cli.timeout_secs, Some(7));
    assert_eq!(cli.resolve_timeout_secs(), (7, 7));
}

#[test]
fn parses_max_concurrent_zero_for_unbounded() {
    let cli = parse_from(["fleetcheck", "--max-concurrent", "0"]);
    assert_eq!(cli.max_concurrent, 0);
}

#[test]
fn legacy_flag_conflicts_with_new_flags() {
    let res = command().try_get_matches_from([
        "fleetcheck",
        "--timeout-secs",
        "5",
        "--connect-timeout",
        "3",
    ]);
    assert!(res.is_err(), "expected conflict error, got {res:?}");
}

#[test]
fn timeouts_fall_back_per_flag() {
    let cli = parse_from(["fleetcheck", "--script-timeout", "30"]);
    assert_eq!(cli.resolve_timeout_secs(), (DEFAULT_CONNECT_SECS, 30));
    let t = cli.timeouts();
    assert_eq!((t.connect_secs, t.script_secs), (5, 30));
}
