use homelab_s3::bench::{bench_key, parse_args, unit_for, Args, Config, Unit};

fn parse(args: &[&str]) -> Args {
    parse_args(&args.iter().map(|a| a.to_string()).collect())
}

#[test]
fn options_have_defaults() {
    assert_eq!(
        parse(&[]),
        Args::Run(Config { ops: 100_000, value_size: 256, dir: None })
    );
}

#[test]
fn options_are_read() {
    assert_eq!(
        parse(&["--ops", "7", "--dir", "/x", "--value-size", "+1", "--ops", "8"]),
        Args::Run(Config { ops: 8, value_size: 1, dir: Some("/x".to_string()) })
    );
    assert_eq!(
        parse(&["--dir", "--ops"]),
        Args::Run(Config { ops: 100_000, value_size: 256, dir: Some("--ops".to_string()) })
    );
}

#[test]
fn first_wrong_argument_decides() {
    assert_eq!(parse(&["--ops", "1", "-h", "--bad"]), Args::Help);
    assert_eq!(parse(&["--help"]), Args::Help);
    assert_eq!(parse(&["--bad", "-h"]), Args::Unknown("--bad".to_string()));
    assert_eq!(parse(&["--ops"]), Args::MissingValue("--ops".to_string()));
    assert_eq!(parse(&["--value-size"]), Args::MissingValue("--value-size".to_string()));
    assert_eq!(parse(&["--dir"]), Args::MissingValue("--dir".to_string()));
    assert_eq!(
        parse(&["--value-size", "x", "-h"]),
        Args::InvalidNumber("--value-size".to_string(), "x".to_string())
    );
    assert_eq!(
        parse(&["--ops", " 1"]),
        Args::InvalidNumber("--ops".to_string(), " 1".to_string())
    );
}

#[test]
fn zeros_are_refused_at_the_end() {
    assert_eq!(parse(&["--ops", "0"]), Args::ZeroOps);
    assert_eq!(parse(&["--value-size", "0"]), Args::ZeroValueSize);
    assert_eq!(parse(&["--value-size", "0", "--ops", "0"]), Args::ZeroOps);
    assert_eq!(parse(&["--ops", "0", "-h"]), Args::Help);
    assert_eq!(
        parse(&["--ops", "0", "--ops", "3"]),
        Args::Run(Config { ops: 3, value_size: 256, dir: None })
    );
}

#[test]
fn keys_are_padded() {
    for i in [0, 7, 10, 99_999, 999_999_999_999, 1_000_000_000_000] {
        assert_eq!(bench_key(i), format!("key-{i:012}"));
    }
}

#[test]
fn units_change_at_the_powers_of_a_thousand() {
    assert_eq!(unit_for(0), Unit::Nanos);
    assert_eq!(unit_for(999), Unit::Nanos);
    assert_eq!(unit_for(1_000), Unit::Micros);
    assert_eq!(unit_for(999_999), Unit::Micros);
    assert_eq!(unit_for(1_000_000), Unit::Millis);
    assert_eq!(unit_for(999_999_999), Unit::Millis);
    assert_eq!(unit_for(1_000_000_000), Unit::Seconds);
    assert_eq!(unit_for(u128::MAX), Unit::Seconds);
}
