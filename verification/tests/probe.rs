//! The closeness probe.

use saorsa_core::address::{IpAddr, SocketAddr};
use saorsa_core::probe::{
    hex_short, parse_args, short_results, summarize_latencies, Args, LatencySummary,
};

fn parse(argv: &[&str]) -> Result<Args, String> {
    let argv: Vec<String> = argv.iter().map(|arg| arg.to_string()).collect();
    let sockets: Vec<Result<SocketAddr, String>> = argv
        .iter()
        .map(|arg| {
            if arg == "1.2.3.4:10000" {
                Ok(SocketAddr::new(IpAddr::v4(1, 2, 3, 4), 10000))
            } else {
                Err("invalid socket address syntax".to_string())
            }
        })
        .collect();
    parse_args(&argv, &sockets).map_err(|fault| fault.message())
}

#[test]
fn options_replace_the_defaults() {
    let args = parse(&["--bootstrap", "1.2.3.4:10000"]).unwrap();
    assert_eq!(args.bootstraps, vec![SocketAddr::new(IpAddr::v4(1, 2, 3, 4), 10000)]);
    assert_eq!((args.iterations, args.count), (30, 16));
    assert_eq!((args.warmup_secs, args.sleep_secs), (30, 1));
    let args = parse(&[
        "--iterations",
        "7",
        "--bootstrap",
        "1.2.3.4:10000",
        "--count",
        "+8",
        "--warmup-secs",
        "0",
        "--sleep-secs",
        "18446744073709551615",
        "--bootstrap",
        "1.2.3.4:10000",
    ])
    .unwrap();
    assert_eq!((args.iterations, args.count), (7, 8));
    assert_eq!((args.warmup_secs, args.sleep_secs), (0, u64::MAX));
    assert_eq!(args.bootstraps.len(), 2);
}

#[test]
fn command_lines_that_are_not_understood_are_refused() {
    let fault = |argv: &[&str]| parse(argv).unwrap_err();
    assert_eq!(fault(&[]), "at least one --bootstrap is required");
    assert_eq!(fault(&["--bootstrap"]), "--bootstrap needs a host:port");
    assert_eq!(
        fault(&["--bootstrap", "x"]),
        "--bootstrap x: invalid socket address syntax"
    );
    assert_eq!(fault(&["--count"]), "--count needs a number");
    assert_eq!(fault(&["--count", ""]), "--count: cannot parse integer from empty string");
    assert_eq!(fault(&["--iterations", "-1"]), "--iterations: invalid digit found in string");
    assert_eq!(
        fault(&["--sleep-secs", "18446744073709551616"]),
        "--sleep-secs: number too large to fit in target type"
    );
    assert_eq!(fault(&["--help"]), "see header comment");
    assert_eq!(fault(&["--verbose"]), "unknown arg: --verbose");
    for text in ["", "+", "-1", "12a", "184467440737095516160", "18446744073709551616x"] {
        let expected = text.parse::<u64>().unwrap_err().to_string();
        assert_eq!(fault(&["--warmup-secs", text]), format!("--warmup-secs: {expected}"));
    }
}

#[test]
fn targets_are_shortened() {
    let mut target = [0xab; 32];
    target[3] = 0x01;
    assert_eq!(hex_short(&target), "ababab01…");
}

#[test]
fn latencies_are_summed_up() {
    assert_eq!(summarize_latencies(&Vec::new()), None);
    let latencies: Vec<u128> = (1..=100).rev().collect();
    assert_eq!(
        summarize_latencies(&latencies),
        Some(LatencySummary { min: 1, p50: 51, mean: 50, p90: 91, p95: 96, p99: 100, max: 100 })
    );
    assert_eq!(
        summarize_latencies(&vec![9, 4]),
        Some(LatencySummary { min: 4, p50: 9, mean: 6, p90: 9, p95: 9, p99: 9, max: 9 })
    );
    assert_eq!(short_results(&vec![16, 15, 3, 20], 16), 2);
}
