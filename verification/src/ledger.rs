//! The run ledger: an append-only log of preregistered benchmark claims and their measured
//! results.
//!
//! A claim is committed first, with its bench, shape, seed, metric and success threshold. Only
//! then is the bench run, and the result is judged against the committed claim. Records are never
//! rewritten. The results of a run carry a version number that grows by one per measurement.
//! Recovery tolerates a torn final line, which is what a crash in the middle of an append leaves
//! behind; a bad line anywhere else is corruption and is reported.
use crate::names::NameMap;
use crate::number::Number;
use crate::text::{padded_decimal, decimal, same_text, to_decimal, to_decimal3};
use vstd::prelude::*;

verus! {

// ---- Records ----

/// A claim committed before measuring. The params hold the bench's shape and iteration count.
#[derive(Debug)]
pub struct Prereg {
    pub run_id: String,
    pub unix_ts: u64,
    pub bench: String,
    pub metric: String,
    pub claim: String,
    /// Success means that the metric reaches the threshold ...
    pub threshold: Number,
    /// ... and that the error is below this bound. A fast wrong kernel is worth nothing, so a
    /// result that fails numerics fails the claim no matter how fast it ran.
    pub numerics_gate: Number,
    pub seed: u64,
    pub params: NameMap<u64>,
}

/// One measurement of a preregistered run. Version 1 is the original measurement, later versions
/// are replays.
#[derive(Debug)]
pub struct RunResult {
    pub run_id: String,
    pub unix_ts: u64,
    pub version: u64,
    pub replay: bool,
    pub metric_value: Number,
    pub max_abs_err: Number,
    pub claim_met: bool,
    pub numbers: NameMap<Number>,
}

/// One line of the log.
#[derive(Debug)]
pub enum Record {
    Prereg(Prereg),
    Result(RunResult),
}

/// What a `Prereg` stands for.
pub struct Claim {
    pub run_id: Seq<char>,
    pub unix_ts: u64,
    pub bench: Seq<char>,
    pub metric: Seq<char>,
    pub claim: Seq<char>,
    pub threshold: Number,
    pub numerics_gate: Number,
    pub seed: u64,
    pub params: Map<Seq<char>, u64>,
}

/// What a `RunResult` stands for.
pub struct Measurement {
    pub run_id: Seq<char>,
    pub unix_ts: u64,
    pub version: u64,
    pub replay: bool,
    pub metric_value: Number,
    pub max_abs_err: Number,
    pub claim_met: bool,
    pub numbers: Map<Seq<char>, Number>,
}

/// What a `Record` stands for.
pub enum Entry {
    Prereg(Claim),
    Result(Measurement),
}

impl View for Prereg {
    type V = Claim;

    open spec fn view(&self) -> Claim {
        Claim {
            run_id: self.run_id@,
            unix_ts: self.unix_ts,
            bench: self.bench@,
            metric: self.metric@,
            claim: self.claim@,
            threshold: self.threshold,
            numerics_gate: self.numerics_gate,
            seed: self.seed,
            params: self.params@,
        }
    }
}

impl View for RunResult {
    type V = Measurement;

    open spec fn view(&self) -> Measurement {
        Measurement {
            run_id: self.run_id@,
            unix_ts: self.unix_ts,
            version: self.version,
            replay: self.replay,
            metric_value: self.metric_value,
            max_abs_err: self.max_abs_err,
            claim_met: self.claim_met,
            numbers: self.numbers@,
        }
    }
}

impl View for Record {
    type V = Entry;

    open spec fn view(&self) -> Entry {
        match self {
            Record::Prereg(p) => Entry::Prereg(p@),
            Record::Result(r) => Entry::Result(r@),
        }
    }
}

impl Clone for Prereg {
    fn clone(&self) -> (copy: Self)
        ensures
            copy@ == self@,
    {
        Prereg {
            run_id: self.run_id.clone(),
            unix_ts: self.unix_ts,
            bench: self.bench.clone(),
            metric: self.metric.clone(),
            claim: self.claim.clone(),
            threshold: self.threshold,
            numerics_gate: self.numerics_gate,
            seed: self.seed,
            params: self.params.copy(),
        }
    }
}

impl Clone for RunResult {
    fn clone(&self) -> (copy: Self)
        ensures
            copy@ == self@,
    {
        RunResult {
            run_id: self.run_id.clone(),
            unix_ts: self.unix_ts,
            version: self.version,
            replay: self.replay,
            metric_value: self.metric_value,
            max_abs_err: self.max_abs_err,
            claim_met: self.claim_met,
            numbers: self.numbers.copy(),
        }
    }
}

impl Clone for Record {
    fn clone(&self) -> (copy: Self)
        ensures
            copy@ == self@,
    {
        match self {
            Record::Prereg(p) => Record::Prereg(p.clone()),
            Record::Result(r) => Record::Result(r.clone()),
        }
    }
}

// ---- The log ----

/// The records of a log, in the order in which they were appended.
#[derive(Debug)]
pub struct Ledger {
    pub records: Vec<Record>,
}

impl View for Ledger {
    type V = Seq<Entry>;

    open spec fn view(&self) -> Seq<Entry> {
        self.records@.map_values(|r: Record| r@)
    }
}

/// Whether `c` is white space, as Unicode has it.
pub open spec fn white(c: char) -> bool {
    ||| '\u{9}' <= c <= '\u{d}'
    ||| c == ' '
    ||| c == '\u{85}'
    ||| c == '\u{a0}'
    ||| c == '\u{1680}'
    ||| '\u{2000}' <= c <= '\u{200a}'
    ||| c == '\u{2028}'
    ||| c == '\u{2029}'
    ||| c == '\u{202f}'
    ||| c == '\u{205f}'
    ||| c == '\u{3000}'
}

/// Whether a line holds nothing but white space.
pub open spec fn blank_line(line: Seq<char>) -> bool {
    forall|i: int| 0 <= i < line.len() ==> white(#[trigger] line[i])
}

/// Whether `c` is white space.
pub fn is_white(c: char) -> (w: bool)
    ensures
        w == white(c),
{
    ('\u{9}' <= c && c <= '\u{d}') || c == ' ' || c == '\u{85}' || c == '\u{a0}' || c == '\u{1680}'
        || ('\u{2000}' <= c && c <= '\u{200a}') || c == '\u{2028}' || c == '\u{2029}' || c
        == '\u{202f}' || c == '\u{205f}' || c == '\u{3000}'
}

/// Whether a line holds nothing but white space.
pub fn is_blank(line: &str) -> (b: bool)
    ensures
        b == blank_line(line@),
{
    let n: usize = line.unicode_len();
    let mut i: usize = 0;
    while i < n
        invariant
            i <= n,
            n == line@.len(),
            forall|k: int| 0 <= k < i ==> white(#[trigger] line@[k]),
        decreases n - i,
    {
        if !is_white(line.get_char(i)) {
            return false;
        }
        i = i + 1;
    }
    true
}

/// The records that the first `count` lines of a log give back, or the number of a corrupt line,
/// counted from one. Blank lines are passed over. A line that does not parse is dropped if it is
/// the last one of the log, and is corruption anywhere else.
pub open spec fn recovered(
    lines: Seq<Seq<char>>,
    parsed: Seq<Option<Entry>>,
    count: nat,
) -> Result<Seq<Entry>, nat>
    decreases count,
{
    if count == 0 {
        Ok(seq![])
    } else {
        match recovered(lines, parsed, (count - 1) as nat) {
            Err(at) => Err(at),
            Ok(records) => if blank_line(lines[count - 1]) {
                Ok(records)
            } else {
                match parsed[count - 1] {
                    Some(record) => Ok(records.push(record)),
                    None => if count == lines.len() {
                        Ok(records)
                    } else {
                        Err(count)
                    },
                }
            },
        }
    }
}

/// Whether the last line of a log is torn: it holds something, but does not parse.
pub open spec fn torn(lines: Seq<Seq<char>>, parsed: Seq<Option<Entry>>) -> bool {
    lines.len() > 0 && !blank_line(lines.last()) && parsed.last() is None
}

pub open spec fn line_views(lines: Seq<String>) -> Seq<Seq<char>> {
    lines.map_values(|l: String| l@)
}

pub open spec fn entry_view(record: Option<Record>) -> Option<Entry> {
    match record {
        Some(r) => Some(r@),
        None => None,
    }
}

pub open spec fn entry_views(parsed: Seq<Option<Record>>) -> Seq<Option<Entry>> {
    parsed.map_values(|r: Option<Record>| entry_view(r))
}

proof fn lemma_recovery_fails(
    lines: Seq<Seq<char>>,
    parsed: Seq<Option<Entry>>,
    m: nat,
    n: nat,
)
    requires
        m <= n,
        recovered(lines, parsed, m) is Err,
    ensures
        recovered(lines, parsed, n) == recovered(lines, parsed, m),
    decreases n,
{
    if m < n {
        lemma_recovery_fails(lines, parsed, m, (n - 1) as nat);
    }
}

/// Whether the last line of a log is torn.
pub fn has_torn_tail(lines: &Vec<String>, parsed: &Vec<Option<Record>>) -> (t: bool)
    requires
        lines@.len() == parsed@.len(),
    ensures
        t == torn(line_views(lines@), entry_views(parsed@)),
{
    let n: usize = lines.len();
    if n == 0 {
        return false;
    }
    assert(line_views(lines@).last() == lines@[n - 1]@);
    assert(entry_views(parsed@).last() == entry_view(parsed@[n - 1]));
    !is_blank(lines[n - 1].as_str()) && parsed[n - 1].is_none()
}

/// How many lines of a log are to stay before a line is appended to it: all of them, but for a torn
/// last one, which would be corruption once a line follows it.
pub open spec fn lines_kept(lines: Seq<Seq<char>>, parsed: Seq<Option<Entry>>) -> nat {
    if torn(lines, parsed) {
        (lines.len() - 1) as nat
    } else {
        lines.len()
    }
}

/// How many lines of a log are to stay before a line is appended to it.
pub fn lines_to_keep(lines: &Vec<String>, parsed: &Vec<Option<Record>>) -> (kept: usize)
    requires
        lines@.len() == parsed@.len(),
    ensures
        kept == lines_kept(line_views(lines@), entry_views(parsed@)),
{
    if has_torn_tail(lines, parsed) {
        lines.len() - 1
    } else {
        lines.len()
    }
}

// ---- Looking records up ----

/// The number of claims among the first `count` records.
pub open spec fn claims_in(records: Seq<Entry>, count: nat) -> nat
    decreases count,
{
    if count == 0 {
        0
    } else {
        claims_in(records, (count - 1) as nat) + (if records[count - 1] is Prereg {
            1nat
        } else {
            0
        })
    }
}

/// The first claim for `run_id` among the first `count` records.
pub open spec fn claim_for(records: Seq<Entry>, run_id: Seq<char>, count: nat) -> Option<Claim>
    decreases count,
{
    if count == 0 {
        None
    } else {
        match (claim_for(records, run_id, (count - 1) as nat), records[count - 1]) {
            (Some(claim), _) => Some(claim),
            (None, Entry::Prereg(claim)) => if claim.run_id == run_id {
                Some(claim)
            } else {
                None
            },
            _ => None,
        }
    }
}

/// The results of `run_id` among the first `count` records, in order.
pub open spec fn results_for(records: Seq<Entry>, run_id: Seq<char>, count: nat) -> Seq<Measurement>
    decreases count,
{
    if count == 0 {
        seq![]
    } else {
        let before = results_for(records, run_id, (count - 1) as nat);
        match records[count - 1] {
            Entry::Result(r) => if r.run_id == run_id {
                before.push(r)
            } else {
                before
            },
            _ => before,
        }
    }
}

/// The result with the highest version; the last one of several.
pub open spec fn latest(results: Seq<Measurement>) -> Option<Measurement>
    decreases results.len(),
{
    if results.len() == 0 {
        None
    } else {
        match latest(results.drop_last()) {
            Some(best) => if best.version > results.last().version {
                Some(best)
            } else {
                Some(results.last())
            },
            None => Some(results.last()),
        }
    }
}

// ---- Drafting records ----

/// The name of a run: `<bench>-s<seed>-<number>`, with at least three digits in the number.
pub open spec fn run_name(bench: Seq<char>, seed: u64, number: nat) -> Seq<char> {
    bench + "-s"@ + decimal(seed as nat) + "-"@ + padded_decimal(number, 3)
}

/// The claim that is committed next.
pub open spec fn next_claim(
    records: Seq<Entry>,
    bench: Seq<char>,
    metric: Seq<char>,
    claim: Seq<char>,
    threshold: Number,
    numerics_gate: Number,
    seed: u64,
    params: Map<Seq<char>, u64>,
    unix_ts: u64,
) -> Claim {
    Claim {
        run_id: run_name(bench, seed, claims_in(records, records.len()) + 1),
        unix_ts,
        bench,
        metric,
        claim,
        threshold,
        numerics_gate,
        seed,
        params,
    }
}

/// Whether a measurement meets a claim: numerics first, then the metric.
pub open spec fn meets(claim: Claim, metric_value: Number, max_abs_err: Number) -> bool {
    max_abs_err.below(claim.numerics_gate) && metric_value.reaches(claim.threshold)
}

/// The result that is recorded next for `run_id`; nothing where there is no claim for it.
pub open spec fn next_result(
    records: Seq<Entry>,
    run_id: Seq<char>,
    metric_value: Number,
    max_abs_err: Number,
    numbers: Map<Seq<char>, Number>,
    unix_ts: u64,
) -> Option<Measurement> {
    match claim_for(records, run_id, records.len()) {
        Some(claim) => {
            let version = results_for(records, run_id, records.len()).len() + 1;
            Some(
                Measurement {
                    run_id,
                    unix_ts,
                    version: version as u64,
                    replay: version > 1,
                    metric_value,
                    max_abs_err,
                    claim_met: meets(claim, metric_value, max_abs_err),
                    numbers,
                },
            )
        },
        None => None,
    }
}

/// `std::time::SystemTime`, a reading of the clock. Opaque here.
#[verifier::external_type_specification]
#[verifier::external_body]
pub struct ExSystemTime(std::time::SystemTime);

/// `std::time::SystemTimeError`, which says that a time is before another. Opaque here.
#[verifier::external_type_specification]
#[verifier::external_body]
pub struct ExSystemTimeError(std::time::SystemTimeError);

/// `std::time::SystemTime::now`. The reading is left open.
#[verifier::external_body]
fn clock() -> (now: std::time::SystemTime) {
    std::time::SystemTime::now()
}

/// `std::time::SystemTime::duration_since` the Unix epoch: an error where the time is before it.
/// How long it has been rests on the clock, and is left open.
#[verifier::external_body]
fn since_epoch(time: &std::time::SystemTime) -> (elapsed: Result<
    std::time::Duration,
    std::time::SystemTimeError,
>) {
    time.duration_since(std::time::SystemTime::UNIX_EPOCH)
}

/// `std::time::Duration::as_secs`, the whole seconds of a duration.
#[verifier::external_body]
fn whole_seconds(elapsed: &std::time::Duration) -> (seconds: u64) {
    elapsed.as_secs()
}

/// The time of a record for a reading of the clock in seconds since the Unix epoch: zero where the
/// clock stands before it.
pub fn unix_seconds(reading: Option<u64>) -> (seconds: u64)
    ensures
        seconds == (match reading {
            Some(read) => read,
            None => 0,
        }),
{
    match reading {
        Some(read) => read,
        None => 0,
    }
}

/// The seconds since the Unix epoch, or zero where the clock stands before it. What the clock reads
/// is left open; `unix_seconds` says what is made of each reading.
pub fn now_unix() -> (seconds: u64) {
    let reading = match since_epoch(&clock()) {
        Ok(elapsed) => Some(whole_seconds(&elapsed)),
        Err(_) => None,
    };
    unix_seconds(reading)
}

proof fn lemma_results_bounded(records: Seq<Entry>, run_id: Seq<char>, count: nat)
    ensures
        results_for(records, run_id, count).len() <= count,
        claims_in(records, count) <= count,
    decreases count,
{
    if count > 0 {
        lemma_results_bounded(records, run_id, (count - 1) as nat);
    }
}

impl Ledger {
    /// The log without records.
    pub fn new() -> (ledger: Self)
        ensures
            ledger@ == Seq::<Entry>::empty(),
    {
        let ledger = Ledger { records: Vec::new() };
        assert(ledger@ =~= Seq::<Entry>::empty());
        ledger
    }

    /// Brings a log back from its lines. `parsed` holds the record on each line, where the line
    /// parses; what it holds for a blank line does not matter. A torn final line is dropped; a bad
    /// line anywhere else is corruption, and its number is returned.
    pub fn open(lines: &Vec<String>, parsed: &Vec<Option<Record>>) -> (ledger: Result<Self, usize>)
        requires
            lines@.len() == parsed@.len(),
        ensures
            match ledger {
                Ok(l) => recovered(line_views(lines@), entry_views(parsed@), lines@.len()) == Ok::<
                    Seq<Entry>,
                    nat,
                >(l@),
                Err(at) => recovered(line_views(lines@), entry_views(parsed@), lines@.len())
                    == Err::<Seq<Entry>, nat>(at as nat),
            },
    {
        let ghost texts = line_views(lines@);
        let ghost entries = entry_views(parsed@);
        let mut ledger = Ledger::new();
        let n: usize = lines.len();
        let mut i: usize = 0;
        while i < n
            invariant
                i <= n,
                n == lines@.len(),
                lines@.len() == parsed@.len(),
                texts == line_views(lines@),
                entries == entry_views(parsed@),
                recovered(texts, entries, i as nat) == Ok::<Seq<Entry>, nat>(ledger@),
            decreases n - i,
        {
            assert(texts[i as int] == lines@[i as int]@);
            assert(entries[i as int] == entry_view(parsed@[i as int]));
            if !is_blank(lines[i].as_str()) {
                match &parsed[i] {
                    Some(record) => {
                        ledger.append(record.clone());
                    },
                    None => {
                        if i + 1 < n {
                            proof {
                                lemma_recovery_fails(texts, entries, i as nat + 1, n as nat);
                            }
                            return Err(i + 1);
                        }
                    },
                }
            }
            i = i + 1;
        }
        Ok(ledger)
    }

    /// All records, in the order in which they were appended.
    pub fn records(&self) -> (records: &Vec<Record>)
        ensures
            records@.map_values(|r: Record| r@) == self@,
    {
        &self.records
    }

    /// Adds a record at the end.
    pub fn append(&mut self, record: Record)
        ensures
            final(self)@ == old(self)@.push(record@),
    {
        self.records.push(record);
        assert(self@ =~= old(self)@.push(record@));
    }

    fn claim_count(&self) -> (count: u64)
        requires
            self@.len() < u64::MAX,
        ensures
            count == claims_in(self@, self@.len()),
    {
        let mut count: u64 = 0;
        let mut i: usize = 0;
        while i < self.records.len()
            invariant
                i <= self.records@.len(),
                self@.len() < u64::MAX,
                count == claims_in(self@, i as nat),
                count <= i,
            decreases self.records@.len() - i,
        {
            assert(self@[i as int] == self.records@[i as int]@);
            if let Record::Prereg(_) = &self.records[i] {
                count = count + 1;
            }
            i = i + 1;
        }
        count
    }

    /// The claim for `run_id`.
    pub fn get_prereg(&self, run_id: &str) -> (prereg: Option<&Prereg>)
        ensures
            match prereg {
                Some(p) => claim_for(self@, run_id@, self@.len()) == Some(p@),
                None => claim_for(self@, run_id@, self@.len()) is None,
            },
    {
        let mut i: usize = 0;
        while i < self.records.len()
            invariant
                i <= self.records@.len(),
                claim_for(self@, run_id@, i as nat) is None,
            decreases self.records@.len() - i,
        {
            assert(self@[i as int] == self.records@[i as int]@);
            if let Record::Prereg(p) = &self.records[i] {
                if same_text(p.run_id.as_str(), run_id) {
                    proof {
                        lemma_first_claim_stays(self@, run_id@, i as nat + 1, self@.len());
                    }
                    return Some(p);
                }
            }
            i = i + 1;
        }
        None
    }

    /// The results of `run_id`, in the order in which they were recorded.
    pub fn results(&self, run_id: &str) -> (results: Vec<&RunResult>)
        ensures
            results@.map_values(|r: &RunResult| r@) == results_for(self@, run_id@, self@.len()),
    {
        let mut results: Vec<&RunResult> = Vec::new();
        let mut i: usize = 0;
        assert(results@.map_values(|r: &RunResult| r@) =~= seq![]);
        while i < self.records.len()
            invariant
                i <= self.records@.len(),
                results@.map_values(|r: &RunResult| r@) == results_for(self@, run_id@, i as nat),
            decreases self.records@.len() - i,
        {
            assert(self@[i as int] == self.records@[i as int]@);
            if let Record::Result(r) = &self.records[i] {
                if same_text(r.run_id.as_str(), run_id) {
                    let ghost before = results@;
                    results.push(r);
                    assert(results@.map_values(|r: &RunResult| r@) =~= before.map_values(
                        |r: &RunResult| r@,
                    ).push(r@));
                }
            }
            i = i + 1;
        }
        results
    }

    /// The result of `run_id` with the highest version.
    pub fn latest_result(&self, run_id: &str) -> (result: Option<&RunResult>)
        ensures
            match result {
                Some(r) => latest(results_for(self@, run_id@, self@.len())) == Some(r@),
                None => latest(results_for(self@, run_id@, self@.len())) is None,
            },
    {
        let results = self.results(run_id);
        let ghost all = results_for(self@, run_id@, self@.len());
        let mut best: Option<&RunResult> = None;
        let mut i: usize = 0;
        while i < results.len()
            invariant
                i <= results@.len(),
                all == results@.map_values(|r: &RunResult| r@),
                match best {
                    Some(r) => latest(all.take(i as int)) == Some(r@),
                    None => latest(all.take(i as int)) is None,
                },
            decreases results@.len() - i,
        {
            assert(all.take(i as int + 1).drop_last() =~= all.take(i as int));
            assert(all.take(i as int + 1).last() == results@[i as int]@);
            let next: &RunResult = results[i];
            best = match best {
                Some(b) => if b.version > next.version {
                    Some(b)
                } else {
                    Some(next)
                },
                None => Some(next),
            };
            i = i + 1;
        }
        assert(all.take(results@.len() as int) =~= all);
        best
    }

    /// The claim that is committed next, at the time `unix_ts`.
    pub fn draft_prereg(
        &self,
        bench: &str,
        metric: &str,
        claim: &str,
        threshold: Number,
        numerics_gate: Number,
        seed: u64,
        params: NameMap<u64>,
        unix_ts: u64,
    ) -> (prereg: Prereg)
        requires
            self@.len() < u64::MAX,
        ensures
            prereg@ == next_claim(
                self@,
                bench@,
                metric@,
                claim@,
                threshold,
                numerics_gate,
                seed,
                params@,
                unix_ts,
            ),
    {
        let count: u64 = self.claim_count();
        proof {
            lemma_results_bounded(self@, seq![], self@.len());
        }
        let mut run_id = bench.to_owned();
        run_id.append("-s");
        run_id.append(to_decimal(seed).as_str());
        run_id.append("-");
        run_id.append(to_decimal3(count + 1).as_str());
        Prereg {
            run_id,
            unix_ts,
            bench: bench.to_owned(),
            metric: metric.to_owned(),
            claim: claim.to_owned(),
            threshold,
            numerics_gate,
            seed,
            params,
        }
    }

    /// Commits a claim before it is measured, and returns it with its generated run id.
    pub fn prereg(
        &mut self,
        bench: &str,
        metric: &str,
        claim: &str,
        threshold: Number,
        numerics_gate: Number,
        seed: u64,
        params: NameMap<u64>,
    ) -> (prereg: Prereg)
        requires
            old(self)@.len() < u64::MAX,
        ensures
            prereg@ == next_claim(
                old(self)@,
                bench@,
                metric@,
                claim@,
                threshold,
                numerics_gate,
                seed,
                params@,
                prereg.unix_ts,
            ),
            final(self)@ == old(self)@.push(Entry::Prereg(prereg@)),
    {
        let prereg = self.draft_prereg(
            bench,
            metric,
            claim,
            threshold,
            numerics_gate,
            seed,
            params,
            now_unix(),
        );
        self.append(Record::Prereg(prereg.clone()));
        prereg
    }

    /// The result that is recorded next for `run_id`, at the time `unix_ts`. The verdict comes
    /// from the committed threshold and numerics gate, nothing else. Nothing where there is no
    /// claim for `run_id`.
    pub fn draft_result(
        &self,
        run_id: &str,
        metric_value: Number,
        max_abs_err: Number,
        numbers: NameMap<Number>,
        unix_ts: u64,
    ) -> (result: Option<RunResult>)
        requires
            self@.len() < u64::MAX,
        ensures
            match result {
                Some(r) => next_result(
                    self@,
                    run_id@,
                    metric_value,
                    max_abs_err,
                    numbers@,
                    unix_ts,
                ) == Some(r@),
                None => next_result(
                    self@,
                    run_id@,
                    metric_value,
                    max_abs_err,
                    numbers@,
                    unix_ts,
                ) is None,
            },
    {
        match self.get_prereg(run_id) {
            Some(prereg) => {
                let numerics_ok = max_abs_err.less(&prereg.numerics_gate);
                let claim_met = numerics_ok && metric_value.at_least(&prereg.threshold);
                let results = self.results(run_id);
                proof {
                    lemma_results_bounded(self@, run_id@, self@.len());
                    assert(results@.map_values(|r: &RunResult| r@).len() == results@.len());
                }
                let version: u64 = results.len() as u64 + 1;
                Some(
                    RunResult {
                        run_id: run_id.to_owned(),
                        unix_ts,
                        version,
                        replay: version > 1,
                        metric_value,
                        max_abs_err,
                        claim_met,
                        numbers,
                    },
                )
            },
            None => None,
        }
    }

    /// Records one measurement of `run_id`. The first recorded measurement is version 1; every
    /// later one is a replay. Refused, with nothing recorded, where there is no claim for
    /// `run_id`.
    pub fn record_result(
        &mut self,
        run_id: &str,
        metric_value: Number,
        max_abs_err: Number,
        numbers: NameMap<Number>,
    ) -> (result: Option<RunResult>)
        requires
            old(self)@.len() < u64::MAX,
        ensures
            match result {
                Some(r) => next_result(
                    old(self)@,
                    run_id@,
                    metric_value,
                    max_abs_err,
                    numbers@,
                    r.unix_ts,
                ) == Some(r@) && final(self)@ == old(self)@.push(Entry::Result(r@)),
                None => claim_for(old(self)@, run_id@, old(self)@.len()) is None && final(self)@
                    == old(self)@,
            },
    {
        match self.draft_result(run_id, metric_value, max_abs_err, numbers, now_unix()) {
            Some(result) => {
                self.append(Record::Result(result.clone()));
                Some(result)
            },
            None => None,
        }
    }
}

proof fn lemma_first_claim_stays(records: Seq<Entry>, run_id: Seq<char>, m: nat, n: nat)
    requires
        m <= n,
        claim_for(records, run_id, m) is Some,
    ensures
        claim_for(records, run_id, n) == claim_for(records, run_id, m),
    decreases n,
{
    if m < n {
        lemma_first_claim_stays(records, run_id, m, (n - 1) as nat);
    }
}

} // verus!
