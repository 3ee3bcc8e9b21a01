use roofline::cli::{
    admission, command, job, metric_value, numerics_gate, original_result, read_flags, request,
    require, take_flag_value, Command, Job, UsageError,
};
use roofline::ledger::{Ledger, Record};
use roofline::names::NameMap;
use roofline::number::Number;
use roofline::text::{parse_u64, to_decimal, to_decimal3};

fn args(list: &[&str]) -> Vec<String> {
    list.iter().map(|a| a.to_string()).collect()
}

fn number(x: f64) -> Number {
    Number { bits: x.to_bits() }
}

#[test]
fn flag_and_value_are_pulled_out() {
    let (value, rest) = take_flag_value(args(&["--ledger", "x", "run", "id"]), "--ledger");
    assert_eq!(value.as_deref(), Some("x"));
    assert_eq!(rest, args(&["run", "id"]));

    let (value, rest) = take_flag_value(args(&["run", "--ledger", "a", "id", "--ledger", "b"]), "--ledger");
    assert_eq!(value.as_deref(), Some("b"));
    assert_eq!(rest, args(&["run", "id"]));
}

#[test]
fn flag_at_the_end_has_no_value() {
    let (value, rest) = take_flag_value(args(&["--ledger", "a", "list", "--ledger"]), "--ledger");
    assert_eq!(value, None);
    assert_eq!(rest, args(&["list"]));
    let (value, rest) = take_flag_value(args(&["--ledger", "--ledger"]), "--ledger");
    assert_eq!(value.as_deref(), Some("--ledger"));
    assert!(rest.is_empty());
}

#[test]
fn arguments_without_the_flag_stay() {
    let (value, rest) = take_flag_value(args(&["a", "b"]), "--ledger");
    assert_eq!(value, None);
    assert_eq!(rest, args(&["a", "b"]));
}

#[test]
fn commands_by_name() {
    assert_eq!(command(&args(&["prereg", "x"])), Some(Command::Prereg));
    assert_eq!(command(&args(&["run"])), Some(Command::Run));
    assert_eq!(command(&args(&["replay"])), Some(Command::Replay));
    assert_eq!(command(&args(&["list"])), Some(Command::List));
    assert_eq!(command(&args(&["lists"])), None);
    assert_eq!(command(&args(&[])), None);
}

fn refused(list: &[&str]) -> String {
    read_flags(&args(list)).unwrap_err().message()
}

#[test]
fn prereg_flags_are_read() {
    let f = read_flags(&args(&[
        "--bench", "mlp", "--param", "s=2048", "--seed", "43", "--threshold", "1.10", "--metric",
        "speedup", "--claim", "faster", "--param", "note=7", "--param", "s=+4096",
    ]))
    .unwrap();
    assert_eq!(f.bench.as_deref(), Some("mlp"));
    assert_eq!(f.metric.as_deref(), Some("speedup"));
    assert_eq!(f.claim.as_deref(), Some("faster"));
    assert_eq!(f.params.get("s"), Some(&4096));
    assert_eq!(f.params.get("note"), Some(&7));
    let q = request(&f, Some(number(1.10))).unwrap();
    assert_eq!((q.bench.as_str(), q.seed), ("mlp", 43));
    assert_eq!(q.threshold, number(1.10));
}

#[test]
fn prereg_flags_are_refused() {
    assert_eq!(refused(&["--bench"]), "missing required --bench value");
    assert_eq!(refused(&["--speed", "1"]), "unknown prereg flag --speed");
    assert_eq!(refused(&["--speed"]), "unknown prereg flag --speed");
    assert_eq!(refused(&["--param", "s2048"]), "--param wants key=value, got s2048");
    assert_eq!(refused(&["--param", "s=1=2"]), "--param s wants an integer, got 1=2");
    assert_eq!(refused(&["--param", "s="]), "--param s wants an integer, got ");
    assert_eq!(
        refused(&["--param", "s=18446744073709551616"]),
        "--param s wants an integer, got 18446744073709551616"
    );
}

fn request_refused(list: &[&str], threshold: Option<f64>) -> String {
    request(&read_flags(&args(list)).unwrap(), threshold.map(number)).unwrap_err().message()
}

#[test]
fn requests_are_checked_in_order() {
    assert_eq!(request_refused(&[], None), "missing required --bench");
    assert_eq!(request_refused(&["--bench", "conv"], None), "--bench must be attention or mlp");
    assert_eq!(request_refused(&["--bench", "mlp"], None), "missing required --threshold");
    assert_eq!(
        request_refused(&["--bench", "mlp", "--threshold", "fast"], None),
        "--threshold wants a number"
    );
    assert_eq!(
        request_refused(&["--bench", "attention", "--threshold", "1"], Some(1.0)),
        "missing required --seed"
    );
    assert_eq!(
        request_refused(&["--bench", "mlp", "--threshold", "1", "--seed", "-1"], Some(1.0)),
        "--seed wants an integer"
    );
    assert_eq!(require(&None, "--metric").unwrap_err().message(), "missing required --metric");
    assert_eq!(require(&Some("m".to_string()), "--metric").unwrap(), "m");
}

fn params(names: &[(&str, u64)]) -> NameMap<u64> {
    let mut params = NameMap::new();
    for (name, value) in names {
        params.insert(name, *value);
    }
    params
}

fn claim(bench: &str, p: &[(&str, u64)]) -> Result<Job, UsageError> {
    let led = Ledger::new();
    job(&led.draft_prereg(bench, "speedup", "c", number(1.0), number(1e-5), 9, params(p), 0))
}

#[test]
fn jobs_need_their_params() {
    assert_eq!(
        claim("attention", &[("s", 1), ("d", 2), ("iters", 3)]).unwrap(),
        Job::Attention { s: 1, d: 2, iters: 3, seed: 9 }
    );
    assert_eq!(
        claim("mlp", &[("s", 1), ("d", 2), ("f", 4), ("iters", 3)]).unwrap(),
        Job::Mlp { s: 1, d: 2, f: 4, iters: 3, seed: 9 }
    );
    let why = |bench: &str, p: &[(&str, u64)]| claim(bench, p).unwrap_err().message();
    assert_eq!(why("conv", &[]), "prereg conv-s9-001 is missing param iters");
    assert_eq!(why("conv", &[("iters", 1)]), "unknown bench conv");
    assert_eq!(why("mlp", &[("iters", 1)]), "prereg mlp-s9-001 is missing param s");
    assert_eq!(why("mlp", &[("iters", 1), ("s", 1)]), "prereg mlp-s9-001 is missing param d");
    assert_eq!(
        why("mlp", &[("iters", 1), ("s", 1), ("d", 1)]),
        "prereg mlp-s9-001 is missing param f"
    );
}

#[test]
fn a_run_is_measured_once_and_then_replayed() {
    let mut led = Ledger::new();
    let why = |led: &Ledger, id: &str, replay: bool| {
        admission(led, id, "wal.jsonl", replay).unwrap_err().message()
    };
    assert_eq!(why(&led, "mlp-s1-001", false), "no prereg named mlp-s1-001 in wal.jsonl");
    let p = led.prereg("mlp", "speedup", "c", number(1.0), number(1e-5), 1, NameMap::new());
    assert_eq!(
        why(&led, &p.run_id, true),
        "mlp-s1-001 has no recorded result to replay; use `roofline run` first"
    );
    let (claimed, prior) = admission(&led, &p.run_id, "wal.jsonl", false).unwrap();
    assert_eq!(claimed.run_id, p.run_id);
    assert!(prior.is_none());
    led.record_result(&p.run_id, number(1.5), number(0.0), NameMap::new()).unwrap();
    assert_eq!(
        why(&led, &p.run_id, false),
        "mlp-s1-001 already has a recorded result; use `roofline replay` to re-measure"
    );
    let (_, prior) = admission(&led, &p.run_id, "wal.jsonl", true).unwrap();
    assert_eq!(prior.unwrap().version, 1);
}

#[test]
fn speedup_is_the_only_metric() {
    let led = Ledger::new();
    let p = |metric: &str| {
        led.draft_prereg("mlp", metric, "c", number(1.0), number(1e-5), 1, NameMap::new(), 0)
    };
    assert_eq!(metric_value(&p("speedup"), number(1.5)).unwrap(), number(1.5));
    assert_eq!(metric_value(&p("bytes"), number(1.5)).unwrap_err().message(), "unknown metric bytes");
}

#[test]
fn decimals() {
    assert_eq!(to_decimal(0), "0");
    assert_eq!(to_decimal(u64::MAX), u64::MAX.to_string());
    assert_eq!(to_decimal3(7), "007");
    assert_eq!(to_decimal3(42), "042");
    assert_eq!(to_decimal3(12345), "12345");
    for text in ["0", "+7", "007", "18446744073709551615", "18446744073709551616", "", "+", "-1", "1 ", "x"] {
        assert_eq!(parse_u64(text), text.parse::<u64>().ok(), "{text}");
    }
}

#[test]
fn original_result_is_that_of_version_one() {
    let mut led = Ledger::new();
    let p = led.prereg("mlp", "speedup", "c", number(1.0), numerics_gate(), 1, NameMap::new());
    assert!(original_result(&led, &p.run_id).is_none());
    for metric in [2.0, 3.0, 4.0] {
        led.record_result(&p.run_id, number(metric), number(0.0), NameMap::new()).unwrap();
    }
    let original = original_result(&led, &p.run_id).unwrap();
    assert_eq!((original.version, original.metric_value), (1, number(2.0)));
    assert_eq!(led.latest_result(&p.run_id).unwrap().version, 3);
    assert!(original_result(&led, "other").is_none());
    // of two results of version 1 the first counts, and one of another version does not
    let mut copy = original.clone();
    copy.metric_value = number(9.0);
    led.append(Record::Result(copy.clone()));
    assert_eq!(original_result(&led, &p.run_id).unwrap().metric_value, number(2.0));
    let mut late = Ledger::new();
    copy.version = 2;
    late.append(Record::Result(copy));
    assert!(original_result(&late, &p.run_id).is_none());
}

#[test]
fn errors_must_stay_below_the_limit() {
    assert_eq!(numerics_gate(), number(1e-5));
}
