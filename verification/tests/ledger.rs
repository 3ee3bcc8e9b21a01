use roofline::ledger::{
    has_torn_tail, is_blank, is_white, lines_to_keep, now_unix, unix_seconds, Ledger, Prereg,
    Record, RunResult,
};
use roofline::names::NameMap;
use roofline::number::Number;

fn number(x: f64) -> Number {
    Number { bits: x.to_bits() }
}

fn params(s: u64, d: u64, f: u64) -> NameMap<u64> {
    let mut params = NameMap::new();
    params.insert("s", s);
    params.insert("d", d);
    params.insert("f", f);
    params.insert("iters", 5);
    params
}

/// A log as it stands on disk: its lines, and the record on each line that parses.
struct Log {
    lines: Vec<String>,
    parsed: Vec<Option<Record>>,
}

fn write(ledger: &Ledger) -> Log {
    let parsed: Vec<Option<Record>> = ledger.records().iter().map(|r| Some(r.clone())).collect();
    let lines = (0..parsed.len()).map(|i| format!("record {i}")).collect();
    Log { lines, parsed }
}

fn commit(led: &mut Ledger, bench: &str, threshold: f64, seed: u64, p: NameMap<u64>) -> Prereg {
    led.prereg(bench, "speedup", "c", number(threshold), number(1e-5), seed, p)
}

fn record(led: &mut Ledger, run_id: &str, metric: f64, err: f64) -> Option<RunResult> {
    led.record_result(run_id, number(metric), number(err), NameMap::new())
}

#[test]
fn prereg_then_result_survive_reopen() {
    let mut led = Ledger::new();
    let p = led.prereg(
        "mlp",
        "speedup",
        "fused beats naive",
        number(1.1),
        number(1e-5),
        43,
        params(2048, 128, 1024),
    );
    record(&mut led, &p.run_id, 1.25, 0.0).unwrap();
    let run_id = p.run_id;
    let log = write(&led);

    // a fresh open must replay the log into the same state
    let led = Ledger::open(&log.lines, &log.parsed).unwrap();
    let p = led.get_prereg(&run_id).expect("prereg survives reopen");
    assert_eq!(f64::from_bits(p.threshold.bits), 1.1);
    assert_eq!(p.claim, "fused beats naive");
    assert_eq!(p.params.get("f"), Some(&1024));
    let r = led.latest_result(&run_id).expect("result survives reopen");
    assert!(r.claim_met);
    assert_eq!(r.version, 1);
    assert!(!r.replay);
}

#[test]
fn replay_increments_version_and_is_marked() {
    let mut led = Ledger::new();
    let p = commit(&mut led, "attention", 1.0, 42, params(2048, 64, 0));
    record(&mut led, &p.run_id, 1.5, 1e-6).unwrap();
    let r2 = record(&mut led, &p.run_id, 1.4, 1e-6).unwrap();
    assert_eq!(r2.version, 2);
    assert!(r2.replay);
    assert_eq!(led.results(&p.run_id).len(), 2);
    assert_eq!(led.latest_result(&p.run_id).unwrap().version, 2);
}

#[test]
fn numerics_gate_comes_before_speed_gate() {
    // a fast wrong kernel must fail the claim even when the speedup clears the threshold.
    let mut led = Ledger::new();
    let p = commit(&mut led, "mlp", 1.1, 7, params(64, 16, 64));
    let r = record(&mut led, &p.run_id, 99.0, 1e-3).unwrap();
    assert!(!r.claim_met, "claim must fail when numerics fail");
    // the bound on the error is strict, the one on the metric is not
    assert!(!record(&mut led, &p.run_id, 99.0, 1e-5).unwrap().claim_met);
    assert!(record(&mut led, &p.run_id, 1.1, 0.0).unwrap().claim_met);
    assert!(!record(&mut led, &p.run_id, 1.0999, 0.0).unwrap().claim_met);
    assert!(!record(&mut led, &p.run_id, f64::NAN, 0.0).unwrap().claim_met);
    assert!(!record(&mut led, &p.run_id, 2.0, f64::NAN).unwrap().claim_met);
}

#[test]
fn torn_final_line_is_dropped_and_log_still_opens() {
    let mut led = Ledger::new();
    let p = commit(&mut led, "mlp", 1.0, 1, params(64, 16, 64));
    let mut log = write(&led);
    assert!(!has_torn_tail(&log.lines, &log.parsed));
    // a crash mid-append: half a record at the tail
    log.lines.push(format!("{{\"kind\":\"result\",\"run_id\":\"{}\"", p.run_id));
    log.parsed.push(None);
    assert!(has_torn_tail(&log.lines, &log.parsed));
    let led = Ledger::open(&log.lines, &log.parsed).expect("torn tail must not block recovery");
    assert!(led.get_prereg(&p.run_id).is_some());
    assert_eq!(led.results(&p.run_id).len(), 0);
}

#[test]
fn a_torn_log_takes_more_records() {
    let mut led = Ledger::new();
    let p = commit(&mut led, "mlp", 1.0, 1, params(64, 16, 64));
    let mut log = write(&led);
    assert_eq!(lines_to_keep(&log.lines, &log.parsed), 1);
    log.lines.push("{\"kind\":\"res".to_string());
    log.parsed.push(None);
    let kept = lines_to_keep(&log.lines, &log.parsed);
    assert_eq!(kept, 1);
    let mut led = Ledger::open(&log.lines, &log.parsed).unwrap();
    record(&mut led, &p.run_id, 2.0, 0.0).unwrap();
    // without the torn line the log reads back with the new record, and with it it is corrupt
    let added = write(&led);
    let mut torn = (log.lines.clone(), log.parsed.clone());
    torn.0.push(added.lines[1].clone());
    torn.1.push(added.parsed[1].clone());
    assert_eq!(Ledger::open(&torn.0, &torn.1).unwrap_err(), 2);
    log.lines.truncate(kept);
    log.parsed.truncate(kept);
    log.lines.push(added.lines[1].clone());
    log.parsed.push(added.parsed[1].clone());
    let led = Ledger::open(&log.lines, &log.parsed).unwrap();
    assert_eq!(led.records().len(), 2);
    assert_eq!(led.results(&p.run_id).len(), 1);
}

#[test]
fn result_without_prereg_is_refused() {
    // results may only exist against a committed claim, that is the point
    let mut led = Ledger::new();
    assert!(record(&mut led, "ghost-run", 2.0, 0.0).is_none());
    assert!(led.records().is_empty());
}

#[test]
fn corruption_before_the_tail_is_reported_with_its_line() {
    let mut led = Ledger::new();
    commit(&mut led, "mlp", 1.0, 1, params(64, 16, 64));
    commit(&mut led, "mlp", 1.0, 2, params(64, 16, 64));
    let mut log = write(&led);
    log.lines.insert(1, "garbage".to_string());
    log.parsed.insert(1, None);
    assert_eq!(Ledger::open(&log.lines, &log.parsed).unwrap_err(), 2);
}

#[test]
fn blank_lines_are_passed_over() {
    let mut led = Ledger::new();
    commit(&mut led, "mlp", 1.0, 1, params(64, 16, 64));
    let mut log = write(&led);
    log.lines.insert(0, " \t\u{3000}".to_string());
    log.parsed.insert(0, None);
    log.lines.push(String::new());
    log.parsed.push(None);
    assert!(!has_torn_tail(&log.lines, &log.parsed));
    assert_eq!(Ledger::open(&log.lines, &log.parsed).unwrap().records().len(), 1);
    assert!(is_blank(""));
    assert!(!is_blank(" x "));
}

#[test]
fn empty_log_opens() {
    assert!(Ledger::open(&vec![], &vec![]).unwrap().records().is_empty());
}

#[test]
fn white_space_is_that_of_unicode() {
    for c in (0..=0x10ffff).filter_map(char::from_u32) {
        assert_eq!(is_white(c), c.is_whitespace(), "{c:?}");
    }
}

#[test]
fn run_ids_count_the_claims() {
    let mut led = Ledger::new();
    let a = commit(&mut led, "mlp", 1.0, 43, params(1, 1, 1));
    assert_eq!(a.run_id, "mlp-s43-001");
    record(&mut led, "mlp-s43-001", 1.0, 0.0).unwrap();
    let b = commit(&mut led, "attention", 1.0, 0, params(1, 1, 1));
    assert_eq!(b.run_id, "attention-s0-002");
    for _ in 2..999 {
        commit(&mut led, "mlp", 1.0, 1, NameMap::new());
    }
    assert_eq!(commit(&mut led, "mlp", 1.0, 1, NameMap::new()).run_id, "mlp-s1-1000");
    // a committed claim is found under its id, and stays what it was
    assert_eq!(led.get_prereg("attention-s0-002").unwrap().bench, "attention");
    assert!(led.get_prereg("mlp-s1-9999").is_none());
}

#[test]
fn latest_result_takes_the_last_of_equal_versions() {
    let mut led = Ledger::new();
    let p = commit(&mut led, "mlp", 1.0, 1, params(1, 1, 1));
    let mut r = record(&mut led, &p.run_id, 1.0, 0.0).unwrap();
    r.metric_value = number(7.0);
    led.append(Record::Result(r.clone()));
    assert_eq!(f64::from_bits(led.latest_result(&p.run_id).unwrap().metric_value.bits), 7.0);
    r.version = 0;
    led.append(Record::Result(r));
    assert_eq!(led.latest_result(&p.run_id).unwrap().version, 1);
    assert!(led.latest_result("other").is_none());
}

#[test]
fn clock_stands_after_the_epoch() {
    // 2020 is past, whatever the time is.
    assert!(now_unix() > 1_577_836_800);
    let mut led = Ledger::new();
    let p = commit(&mut led, "mlp", 1.0, 1, params(1, 1, 1));
    assert!(p.unix_ts > 1_577_836_800);
}

#[test]
fn clock_before_the_epoch_counts_as_zero() {
    assert_eq!(unix_seconds(None), 0);
    assert_eq!(unix_seconds(Some(1_700_000_000)), 1_700_000_000);
}

#[test]
fn numbers_compare_as_doubles_do() {
    let xs = [
        0.0,
        -0.0,
        1.0,
        -1.0,
        1e-5,
        1.1,
        f64::MIN_POSITIVE,
        5e-324,
        -5e-324,
        f64::MAX,
        f64::MIN,
        f64::INFINITY,
        f64::NEG_INFINITY,
        f64::NAN,
        -f64::NAN,
    ];
    for a in xs {
        for b in xs {
            assert_eq!(number(a).less(&number(b)), a < b, "{a} < {b}");
            assert_eq!(number(a).at_least(&number(b)), a >= b, "{a} >= {b}");
        }
        assert_eq!(number(a).nan(), a.is_nan());
    }
}
