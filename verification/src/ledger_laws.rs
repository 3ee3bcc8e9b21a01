//! What holds of the ledger over time: nothing committed is lost or changed, versions grow by one,
//! run ids are unique, and a log that is read back is the log that was written.
use crate::ledger::{
    blank_line, claim_for, claims_in, latest, lines_kept, meets, next_claim, next_result, recovered,
    results_for, run_name, torn, Claim, Entry, Measurement, Prereg, Record, RunResult,
};
use crate::number::Number;
use crate::text::{
    all_digits, decimal, digit_char, digits_value, is_digit, padded_decimal, parsed_u64,
};
use vstd::prelude::*;

verus! {

// ---- Reading a log back ----

proof fn lemma_recovered_prefix(
    lines: Seq<Seq<char>>,
    parsed: Seq<Option<Entry>>,
    line: Seq<char>,
    record: Option<Entry>,
    count: nat,
)
    requires
        lines.len() == parsed.len(),
        count <= lines.len(),
        !torn(lines, parsed),
    ensures
        recovered(lines.push(line), parsed.push(record), count) == recovered(lines, parsed, count),
    decreases count,
{
    if count > 0 {
        lemma_recovered_prefix(lines, parsed, line, record, (count - 1) as nat);
        assert(lines.push(line)[count - 1] == lines[count - 1]);
        assert(parsed.push(record)[count - 1] == parsed[count - 1]);
    }
}

/// An appended record is read back: a log that opens whole still opens with one more line, and
/// then holds one more record if the line is whole. A torn or blank line changes nothing.
pub proof fn appended_record_is_read_back(
    lines: Seq<Seq<char>>,
    parsed: Seq<Option<Entry>>,
    line: Seq<char>,
    record: Option<Entry>,
)
    requires
        lines.len() == parsed.len(),
        !torn(lines, parsed),
        recovered(lines, parsed, lines.len()) is Ok,
    ensures
        recovered(lines.push(line), parsed.push(record), lines.len() + 1) == (match (
            blank_line(line),
            record,
        ) {
            (false, Some(r)) => Ok::<Seq<Entry>, nat>(
                recovered(lines, parsed, lines.len())->Ok_0.push(r),
            ),
            _ => recovered(lines, parsed, lines.len()),
        }),
{
    lemma_recovered_prefix(lines, parsed, line, record, lines.len());
    assert(lines.push(line)[lines.len() as int] == line);
    assert(parsed.push(record)[lines.len() as int] == record);
}

proof fn lemma_recovered_shorter(
    lines: Seq<Seq<char>>,
    parsed: Seq<Option<Entry>>,
    count: nat,
)
    requires
        lines.len() == parsed.len(),
        lines.len() > 0,
        count < lines.len(),
        recovered(lines, parsed, count) is Ok,
    ensures
        recovered(lines.drop_last(), parsed.drop_last(), count) == recovered(lines, parsed, count),
    decreases count,
{
    if count > 0 {
        lemma_recovered_shorter(lines, parsed, (count - 1) as nat);
        assert(lines.drop_last()[count - 1] == lines[count - 1]);
        assert(parsed.drop_last()[count - 1] == parsed[count - 1]);
    }
}

/// A crash in the middle of an append loses nothing but that append: once a torn last line is taken
/// away, a log that opens takes one more record, and is then read back with it.
pub proof fn a_torn_log_goes_on(
    lines: Seq<Seq<char>>,
    parsed: Seq<Option<Entry>>,
    line: Seq<char>,
    record: Entry,
)
    requires
        lines.len() == parsed.len(),
        recovered(lines, parsed, lines.len()) is Ok,
        !blank_line(line),
    ensures
        ({
            let kept = lines_kept(lines, parsed);
            let longer = lines.take(kept as int).push(line);
            recovered(longer, parsed.take(kept as int).push(Some(record)), longer.len()) == Ok::<
                Seq<Entry>,
                nat,
            >(recovered(lines, parsed, lines.len())->Ok_0.push(record))
        }),
{
    let kept = lines_kept(lines, parsed);
    let (some, some_parsed) = (lines.take(kept as int), parsed.take(kept as int));
    if torn(lines, parsed) {
        assert(some =~= lines.drop_last());
        assert(some_parsed =~= parsed.drop_last());
        assert(recovered(lines, parsed, kept) is Ok);
        lemma_recovered_shorter(lines, parsed, kept);
        assert(!torn(some, some_parsed)) by {
            if kept > 0 {
                assert(some.last() == lines[kept - 1]);
                assert(some_parsed.last() == parsed[kept - 1]);
                assert(recovered(lines, parsed, kept) is Ok);
            }
        }
    } else {
        assert(some =~= lines);
        assert(some_parsed =~= parsed);
    }
    appended_record_is_read_back(some, some_parsed, line, Some(record));
}

/// A log that was written record by record is read back as it was written.
pub proof fn written_log_is_read_back(
    lines: Seq<Seq<char>>,
    records: Seq<Entry>,
    count: nat,
)
    requires
        lines.len() == records.len(),
        count <= lines.len(),
        forall|i: int| 0 <= i < lines.len() ==> !blank_line(#[trigger] lines[i]),
    ensures
        recovered(lines, records.map_values(|r: Entry| Some(r)), count) == Ok::<Seq<Entry>, nat>(
            records.take(count as int),
        ),
    decreases count,
{
    let parsed = records.map_values(|r: Entry| Some(r));
    if count > 0 {
        written_log_is_read_back(lines, records, (count - 1) as nat);
        assert(!blank_line(lines[count - 1]));
        assert(records.take(count as int) =~= records.take(count - 1).push(records[count - 1]));
    } else {
        assert(records.take(0) =~= seq![]);
    }
}

/// A ledger that is opened again answers alike: a log that holds a record on each line opens with
/// all of them in order, so every run has the claim, the results and the latest result it had.
pub proof fn a_reopened_ledger_answers_alike(
    lines: Seq<Seq<char>>,
    records: Seq<Entry>,
    run_id: Seq<char>,
)
    requires
        lines.len() == records.len(),
        forall|i: int| 0 <= i < lines.len() ==> !blank_line(#[trigger] lines[i]),
    ensures
        recovered(lines, records.map_values(|r: Entry| Some(r)), lines.len()) matches Ok(again) && {
            &&& again == records
            &&& claim_for(again, run_id, again.len()) == claim_for(records, run_id, records.len())
            &&& latest(results_for(again, run_id, again.len())) == latest(
                results_for(records, run_id, records.len()),
            )
        },
{
    written_log_is_read_back(lines, records, lines.len());
    assert(records.take(records.len() as int) =~= records);
}

/// A log that opens holds the record of every line that is not blank and parses, in order, and
/// nothing else.
pub proof fn opened_logs_hold_every_record(
    lines: Seq<Seq<char>>,
    parsed: Seq<Option<Entry>>,
    count: nat,
)
    requires
        lines.len() == parsed.len(),
        count <= lines.len(),
    ensures
        recovered(lines, parsed, count) matches Ok(records) ==> records == Seq::new(
            count,
            |i: int|
                if blank_line(lines[i]) {
                    None
                } else {
                    parsed[i]
                },
        ).filter_map(|e: Option<Entry>| e),
    decreases count,
{
    let whole = |i: int|
        if blank_line(lines[i]) {
            None
        } else {
            parsed[i]
        };
    let all = Seq::new(count, whole);
    if count > 0 {
        opened_logs_hold_every_record(lines, parsed, (count - 1) as nat);
        assert(all.drop_last() =~= Seq::new((count - 1) as nat, whole));
        assert(all.last() == whole(count - 1));
        if let Ok(records) = recovered(lines, parsed, (count - 1) as nat) {
            if let Some(r) = whole(count - 1) {
                assert(records.push(r) =~= records + seq![r]);
            }
        }
    } else {
        assert(all =~= Seq::<Option<Entry>>::empty());
    }
}

/// Whether line `i` holds something that does not parse.
pub open spec fn bad_line(lines: Seq<Seq<char>>, parsed: Seq<Option<Entry>>, i: int) -> bool {
    !blank_line(lines[i]) && parsed[i] is None
}

/// The tail of a log is torn exactly if its last line is bad, and all lines stay before an append
/// but for that one.
pub proof fn only_a_bad_last_line_is_torn(lines: Seq<Seq<char>>, parsed: Seq<Option<Entry>>)
    requires
        lines.len() == parsed.len(),
    ensures
        torn(lines, parsed) <==> lines.len() > 0 && bad_line(lines, parsed, lines.len() - 1),
        lines_kept(lines, parsed) == lines.len() - (if torn(lines, parsed) {
            1int
        } else {
            0
        }),
{
}

/// A log fails to open exactly if a line before the last one is bad, and then the first such line
/// is named.
pub proof fn corruption_is_reported(
    lines: Seq<Seq<char>>,
    parsed: Seq<Option<Entry>>,
    count: nat,
)
    requires
        lines.len() == parsed.len(),
        count <= lines.len(),
    ensures
        match recovered(lines, parsed, count) {
            Ok(_) => forall|i: int|
                0 <= i < count && i < lines.len() - 1 ==> !#[trigger] bad_line(lines, parsed, i),
            Err(at) => 1 <= at < lines.len() && at <= count && bad_line(lines, parsed, at - 1)
                && forall|i: int| 0 <= i < at - 1 ==> !#[trigger] bad_line(lines, parsed, i),
        },
    decreases count,
{
    if count > 0 {
        corruption_is_reported(lines, parsed, (count - 1) as nat);
    }
}

// ---- What was committed stays ----

proof fn lemma_claim_prefix(records: Seq<Entry>, entry: Entry, run_id: Seq<char>, count: nat)
    requires
        count <= records.len(),
    ensures
        claim_for(records.push(entry), run_id, count) == claim_for(records, run_id, count),
        results_for(records.push(entry), run_id, count) == results_for(records, run_id, count),
        claims_in(records.push(entry), count) == claims_in(records, count),
    decreases count,
{
    if count > 0 {
        lemma_claim_prefix(records, entry, run_id, (count - 1) as nat);
        assert(records.push(entry)[count - 1] == records[count - 1]);
    }
}

/// A committed claim never changes: whatever is appended, the run keeps the claim that it has, so
/// the bar cannot be moved after the fact.
pub proof fn claims_never_change(records: Seq<Entry>, entry: Entry, run_id: Seq<char>)
    requires
        claim_for(records, run_id, records.len()) is Some,
    ensures
        claim_for(records.push(entry), run_id, records.push(entry).len()) == claim_for(
            records,
            run_id,
            records.len(),
        ),
{
    lemma_claim_prefix(records, entry, run_id, records.len());
}

/// Recorded results stay: whatever is appended, the results of a run are those that it had, and at
/// most one more behind them.
pub proof fn results_only_grow(records: Seq<Entry>, entry: Entry, run_id: Seq<char>)
    ensures
        ({
            let before = results_for(records, run_id, records.len());
            let after = results_for(records.push(entry), run_id, records.len() + 1);
            after == before || exists|r: Measurement| after == #[trigger] before.push(r)
        }),
{
    lemma_claim_prefix(records, entry, run_id, records.len());
    assert(records.push(entry)[records.len() as int] == entry);
    if let Entry::Result(r) = entry {
        let before = results_for(records, run_id, records.len());
        assert(before.push(r) == before.push(r));
    }
}

// ---- Versions ----

/// Whether the results of every run are numbered from one, without a gap.
pub open spec fn versioned(records: Seq<Entry>) -> bool {
    forall|run_id: Seq<char>, k: int|
        0 <= k < results_for(records, run_id, records.len()).len() ==> (#[trigger] results_for(
            records,
            run_id,
            records.len(),
        )[k]).version == k + 1
}

/// Versions grow by one per measurement: recording a result keeps the numbering, the new result is
/// the latest one, and it is a replay exactly if there was a result before.
pub proof fn versions_grow_by_one(
    records: Seq<Entry>,
    run_id: Seq<char>,
    metric_value: Number,
    max_abs_err: Number,
    numbers: Map<Seq<char>, Number>,
    unix_ts: u64,
)
    requires
        versioned(records),
        records.len() < u64::MAX,
        next_result(records, run_id, metric_value, max_abs_err, numbers, unix_ts) is Some,
    ensures
        ({
            let before = results_for(records, run_id, records.len());
            let r = next_result(
                records,
                run_id,
                metric_value,
                max_abs_err,
                numbers,
                unix_ts,
            ).unwrap();
            let after = records.push(Entry::Result(r));
            &&& versioned(after)
            &&& results_for(after, run_id, after.len()) == before.push(r)
            &&& latest(results_for(after, run_id, after.len())) == Some(r)
            &&& r.replay <==> before.len() > 0
        }),
{
    let before = results_for(records, run_id, records.len());
    let r = next_result(
        records,
        run_id,
        metric_value,
        max_abs_err,
        numbers,
        unix_ts,
    ).unwrap();
    let entry = Entry::Result(r);
    let after = records.push(entry);
    lemma_claim_prefix(records, entry, run_id, records.len());
    lemma_results_len(records, run_id, records.len());
    assert(after[records.len() as int] == entry);
    assert(results_for(after, run_id, after.len()) == before.push(r));
    assert forall|id: Seq<char>, k: int|
        0 <= k < results_for(after, id, after.len()).len() implies (#[trigger] results_for(
        after,
        id,
        after.len(),
    )[k]).version == k + 1 by {
        lemma_claim_prefix(records, entry, id, records.len());
        let old_results = results_for(records, id, records.len());
        if k < old_results.len() {
            assert(old_results[k].version == k + 1);
        }
    }
    assert(before.push(r).drop_last() =~= before);
    lemma_latest_version(before);
}

proof fn lemma_results_len(records: Seq<Entry>, run_id: Seq<char>, count: nat)
    ensures
        results_for(records, run_id, count).len() <= count,
    decreases count,
{
    if count > 0 {
        lemma_results_len(records, run_id, (count - 1) as nat);
    }
}

proof fn lemma_latest_version(results: Seq<Measurement>)
    requires
        forall|k: int| 0 <= k < results.len() ==> (#[trigger] results[k]).version == k + 1,
    ensures
        latest(results) matches Some(r) ==> r.version <= results.len(),
    decreases results.len(),
{
    if results.len() > 0 {
        assert forall|k: int| 0 <= k < results.drop_last().len() implies (
        #[trigger] results.drop_last()[k]).version == k + 1 by {
            assert(results[k].version == k + 1);
        }
        lemma_latest_version(results.drop_last());
    }
}

/// Committing a claim keeps the numbering of the results.
pub proof fn claims_keep_versions(records: Seq<Entry>, claim: Claim)
    requires
        versioned(records),
    ensures
        versioned(records.push(Entry::Prereg(claim))),
{
    let after = records.push(Entry::Prereg(claim));
    assert forall|id: Seq<char>, k: int|
        0 <= k < results_for(after, id, after.len()).len() implies (#[trigger] results_for(
        after,
        id,
        after.len(),
    )[k]).version == k + 1 by {
        lemma_claim_prefix(records, Entry::Prereg(claim), id, records.len());
        assert(results_for(records, id, records.len())[k].version == k + 1);
    }
}

/// The numerics gate comes before the speed gate: a result that fails numerics fails the claim,
/// whatever its metric.
pub proof fn numerics_come_first(claim: Claim, metric_value: Number, max_abs_err: Number)
    requires
        !max_abs_err.below(claim.numerics_gate),
    ensures
        !meets(claim, metric_value, max_abs_err),
{
}

// ---- Run ids ----

proof fn lemma_decimal(n: nat)
    ensures
        decimal(n).len() > 0,
        all_digits(decimal(n)),
        digits_value(decimal(n)) == n,
    decreases n,
{
    if n < 10 {
        assert(seq![digit_char(n)].drop_last() =~= seq![]);
        assert(digits_value(seq![]) == 0);
    } else {
        lemma_decimal(n / 10);
        let front = decimal(n / 10);
        let d = digit_char(n % 10);
        assert(front.push(d).drop_last() =~= front);
        assert forall|i: int| 0 <= i < front.push(d).len() implies is_digit(
            #[trigger] front.push(d)[i],
        ) by {
            if i < front.len() {
                assert(is_digit(front[i]));
            }
        }
    }
}

proof fn lemma_leading_zeros(zeros: nat, digits: Seq<char>)
    ensures
        digits_value(Seq::new(zeros, |i: int| '0') + digits) == digits_value(digits),
    decreases digits.len(), zeros,
{
    let pad = Seq::new(zeros, |i: int| '0');
    if digits.len() == 0 {
        assert(pad + digits =~= pad);
        if zeros > 0 {
            let less = Seq::new((zeros - 1) as nat, |i: int| '0');
            assert(pad.drop_last() =~= less);
            lemma_leading_zeros((zeros - 1) as nat, digits);
            assert(less + digits =~= less);
        }
    } else {
        assert((pad + digits).drop_last() =~= pad + digits.drop_last());
        lemma_leading_zeros(zeros, digits.drop_last());
    }
}

proof fn lemma_padded(n: nat)
    ensures
        all_digits(padded_decimal(n, 3)),
        digits_value(padded_decimal(n, 3)) == n,
{
    lemma_decimal(n);
    let digits = decimal(n);
    if digits.len() < 3 {
        let zeros = (3 - digits.len()) as nat;
        lemma_leading_zeros(zeros, digits);
        let text = padded_decimal(n, 3);
        assert forall|i: int| 0 <= i < text.len() implies is_digit(#[trigger] text[i]) by {
            if i >= zeros {
                assert(text[i] == digits[i - zeros]);
            }
        }
    }
}

/// Runs with different numbers have different names, whatever the bench and the seed.
proof fn lemma_run_names_differ(
    bench: Seq<char>,
    seed: u64,
    m: nat,
    other: Seq<char>,
    other_seed: u64,
    n: nat,
)
    requires
        run_name(bench, seed, m) == run_name(other, other_seed, n),
    ensures
        m == n,
{
    reveal_strlit("-");
    lemma_padded(m);
    lemma_padded(n);
    let (x, y) = (padded_decimal(m, 3), padded_decimal(n, 3));
    let name = run_name(bench, seed, m);
    let other_name = run_name(other, other_seed, n);
    let len = name.len();
    assert(name[len - x.len() - 1] == '-');
    assert(other_name[len - y.len() - 1] == '-');
    if x.len() < y.len() {
        let i = y.len() - x.len() - 1;
        assert(other_name[len - x.len() - 1] == y[i]);
        assert(is_digit(y[i]));
    } else if y.len() < x.len() {
        let i = x.len() - y.len() - 1;
        assert(name[len - y.len() - 1] == x[i]);
        assert(is_digit(x[i]));
    } else {
        assert forall|i: int| 0 <= i < x.len() implies x[i] == y[i] by {
            assert(name[len - x.len() + i] == x[i]);
            assert(other_name[len - y.len() + i] == y[i]);
        }
        assert(x =~= y);
    }
}

/// Whether every claim bears the name that it was given when it was committed: the number in it
/// is its place among the claims.
pub open spec fn numbered(records: Seq<Entry>) -> bool {
    forall|i: int|
        0 <= i < records.len() ==> (#[trigger] records[i] matches Entry::Prereg(c) ==> c.run_id
            == run_name(c.bench, c.seed, claims_in(records, (i + 1) as nat)))
}

proof fn lemma_claims_grow(records: Seq<Entry>, m: nat, n: nat)
    requires
        m <= n,
    ensures
        claims_in(records, m) <= claims_in(records, n),
    decreases n,
{
    if m < n {
        lemma_claims_grow(records, m, (n - 1) as nat);
    }
}

/// Run ids are unique: no two claims of a log share one.
pub proof fn run_ids_are_unique(records: Seq<Entry>, i: int, j: int)
    requires
        numbered(records),
        0 <= i < j < records.len(),
        records[i] is Prereg,
        records[j] is Prereg,
    ensures
        records[i]->Prereg_0.run_id != records[j]->Prereg_0.run_id,
{
    let (a, b) = (records[i]->Prereg_0, records[j]->Prereg_0);
    lemma_claims_grow(records, (i + 1) as nat, j as nat);
    if a.run_id == b.run_id {
        lemma_run_names_differ(
            a.bench,
            a.seed,
            claims_in(records, (i + 1) as nat),
            b.bench,
            b.seed,
            claims_in(records, (j + 1) as nat),
        );
    }
}

proof fn lemma_no_claim(records: Seq<Entry>, run_id: Seq<char>, count: nat)
    requires
        count <= records.len(),
        forall|i: int|
            0 <= i < count ==> (#[trigger] records[i] matches Entry::Prereg(c) ==> c.run_id
                != run_id),
    ensures
        claim_for(records, run_id, count) is None,
    decreases count,
{
    if count > 0 {
        lemma_no_claim(records, run_id, (count - 1) as nat);
    }
}

/// A committed claim is found under its run id: the id was free, and the numbering is kept.
pub proof fn committed_claim_is_found(
    records: Seq<Entry>,
    bench: Seq<char>,
    metric: Seq<char>,
    claim: Seq<char>,
    threshold: Number,
    numerics_gate: Number,
    seed: u64,
    params: Map<Seq<char>, u64>,
    unix_ts: u64,
)
    requires
        numbered(records),
    ensures
        ({
            let c = next_claim(
                records,
                bench,
                metric,
                claim,
                threshold,
                numerics_gate,
                seed,
                params,
                unix_ts,
            );
            let after = records.push(Entry::Prereg(c));
            &&& numbered(after)
            &&& claim_for(records, c.run_id, records.len()) is None
            &&& claim_for(after, c.run_id, after.len()) == Some(c)
        }),
{
    let c = next_claim(
        records,
        bench,
        metric,
        claim,
        threshold,
        numerics_gate,
        seed,
        params,
        unix_ts,
    );
    let after = records.push(Entry::Prereg(c));
    assert(after[records.len() as int] == Entry::Prereg(c));
    lemma_claim_prefix(records, Entry::Prereg(c), c.run_id, records.len());
    assert forall|i: int| 0 <= i < after.len() implies (#[trigger] after[i] matches Entry::Prereg(d)
        ==> d.run_id == run_name(d.bench, d.seed, claims_in(after, (i + 1) as nat))) by {
        if i < records.len() {
            assert(after[i] == records[i]);
            lemma_claim_prefix(records, Entry::Prereg(c), c.run_id, (i + 1) as nat);
        }
    }
    assert forall|i: int| 0 <= i < records.len() implies (
    #[trigger] records[i] matches Entry::Prereg(d) ==> d.run_id != c.run_id) by {
        assert(after[i] == records[i]);
        if records[i] is Prereg {
            run_ids_are_unique(after, i, records.len() as int);
        }
    }
    lemma_no_claim(records, c.run_id, records.len());
}

/// A number that is written in decimal is read back.
pub proof fn written_decimals_are_read(n: u64)
    ensures
        parsed_u64(decimal(n as nat)) == Some(n as nat),
        digits_value(decimal(n as nat)) == n,
{
    lemma_decimal(n as nat);
    let digits = decimal(n as nat);
    assert(is_digit(digits[0]));
}

// ---- What is looked up ----

/// Whether a record is a claim for `run_id`.
pub open spec fn claims_run(entry: Entry, run_id: Seq<char>) -> bool {
    entry matches Entry::Prereg(c) && c.run_id == run_id
}

/// The claim of a run is the first that was committed for it, and there is one exactly if one was
/// committed.
pub proof fn the_first_claim_counts(records: Seq<Entry>, run_id: Seq<char>, count: nat)
    requires
        count <= records.len(),
    ensures
        match claim_for(records, run_id, count) {
            Some(c) => c.run_id == run_id && exists|i: int|
                0 <= i < count && #[trigger] records[i] == Entry::Prereg(c) && forall|j: int|
                    0 <= j < i ==> !claims_run(#[trigger] records[j], run_id),
            None => forall|j: int| 0 <= j < count ==> !claims_run(#[trigger] records[j], run_id),
        },
    decreases count,
{
    if count > 0 {
        the_first_claim_counts(records, run_id, (count - 1) as nat);
        if claim_for(records, run_id, (count - 1) as nat) is None {
            if let Entry::Prereg(c) = records[count - 1] {
                if c.run_id == run_id {
                    assert(records[count - 1] == Entry::Prereg(c));
                }
            }
        }
    }
}

/// The results of a run are all the results that were recorded for it, in the order in which they
/// were recorded.
pub proof fn results_are_all_of_the_run(records: Seq<Entry>, run_id: Seq<char>, count: nat)
    requires
        count <= records.len(),
    ensures
        results_for(records, run_id, count) == records.take(count as int).filter_map(
            |e: Entry|
                match e {
                    Entry::Result(r) => if r.run_id == run_id {
                        Some(r)
                    } else {
                        None
                    },
                    Entry::Prereg(_) => None,
                },
        ),
    decreases count,
{
    if count > 0 {
        results_are_all_of_the_run(records, run_id, (count - 1) as nat);
        let some = records.take(count as int);
        assert(some.drop_last() =~= records.take(count - 1));
        assert(some.last() == records[count - 1]);
        let before = results_for(records, run_id, (count - 1) as nat);
        if let Entry::Result(r) = records[count - 1] {
            assert(before.push(r) =~= before + seq![r]);
        }
    } else {
        assert(records.take(0) =~= Seq::<Entry>::empty());
        assert(results_for(records, run_id, 0) =~= Seq::<Measurement>::empty());
    }
}

/// The claims are counted.
pub proof fn claims_are_counted(records: Seq<Entry>, count: nat)
    requires
        count <= records.len(),
    ensures
        claims_in(records, count) == records.take(count as int).filter(
            |e: Entry| e is Prereg,
        ).len(),
    decreases count,
{
    reveal(Seq::filter);
    if count > 0 {
        claims_are_counted(records, (count - 1) as nat);
        let some = records.take(count as int);
        assert(some.drop_last() =~= records.take(count - 1));
        assert(some.last() == records[count - 1]);
    }
}

/// The latest result is one of the results, none has a higher version, and none behind it has as
/// high a version. There is one exactly if there are results.
pub proof fn the_latest_result_has_the_highest_version(results: Seq<Measurement>)
    ensures
        match latest(results) {
            Some(r) => exists|k: int|
                0 <= k < results.len() && #[trigger] results[k] == r && (forall|j: int|
                    0 <= j < results.len() ==> (#[trigger] results[j]).version <= r.version) && (
                forall|j: int|
                    k < j < results.len() ==> (#[trigger] results[j]).version < r.version),
            None => results.len() == 0,
        },
    decreases results.len(),
{
    if results.len() > 0 {
        let front = results.drop_last();
        the_latest_result_has_the_highest_version(front);
        let last = results.len() - 1;
        match latest(front) {
            Some(best) => {
                let k = choose|k: int|
                    0 <= k < front.len() && #[trigger] front[k] == best && (forall|j: int|
                        0 <= j < front.len() ==> (#[trigger] front[j]).version <= best.version) && (
                    forall|j: int|
                        k < j < front.len() ==> (#[trigger] front[j]).version < best.version);
                assert forall|j: int| 0 <= j < last implies (#[trigger] results[j]).version
                    <= best.version by {
                    assert(front[j] == results[j]);
                }
                assert forall|j: int| k < j < last implies (#[trigger] results[j]).version
                    < best.version by {
                    assert(front[j] == results[j]);
                }
                assert(results[k] == best);
                assert(results[last] == results.last());
            },
            None => {
                assert(results[last] == results.last());
            },
        }
    }
}

// ---- What is recorded ----

/// A claim is committed as it is made: it carries what it was given, and its name tells the bench,
/// the seed, and how many claims there are with it, in at least three digits.
pub proof fn claims_carry_what_was_claimed(
    records: Seq<Entry>,
    bench: Seq<char>,
    metric: Seq<char>,
    claim: Seq<char>,
    threshold: Number,
    numerics_gate: Number,
    seed: u64,
    params: Map<Seq<char>, u64>,
    unix_ts: u64,
)
    ensures
        ({
            let c = next_claim(
                records,
                bench,
                metric,
                claim,
                threshold,
                numerics_gate,
                seed,
                params,
                unix_ts,
            );
            &&& c.bench == bench
            &&& c.metric == metric
            &&& c.claim == claim
            &&& c.threshold == threshold
            &&& c.numerics_gate == numerics_gate
            &&& c.seed == seed
            &&& c.params == params
            &&& c.unix_ts == unix_ts
            &&& exists|s: Seq<char>, n: Seq<char>|
                c.run_id == bench + seq!['-', 's'] + #[trigger] (s + seq!['-'] + n) && all_digits(s)
                    && all_digits(n) && digits_value(s) == seed && digits_value(n) == records.filter(
                    |e: Entry| e is Prereg,
                ).len() + 1 && n.len() >= 3 && s.len() > 0
        }),
{
    claims_are_counted(records, records.len());
    assert(records.take(records.len() as int) =~= records);
    let count = claims_in(records, records.len());
    let (s, n) = (decimal(seed as nat), padded_decimal(count + 1, 3));
    lemma_decimal(seed as nat);
    lemma_decimal(count + 1);
    lemma_padded(count + 1);
    reveal_strlit("-s");
    reveal_strlit("-");
    assert("-s"@ =~= seq!['-', 's']);
    assert("-"@ =~= seq!['-']);
    let name = run_name(bench, seed, count + 1);
    assert(name =~= bench + seq!['-', 's'] + (s + seq!['-'] + n));
}

/// A result is recorded as it was measured, and exactly if a claim was committed for the run. It
/// carries the metric, the error and the numbers that it was given. It meets the claim exactly if
/// the error that it carries is below the numerics limit of the claim, and the metric that it
/// carries reaches its threshold. It is numbered behind the results that there are, and is a replay
/// exactly if there is one.
pub proof fn results_carry_what_was_measured(
    records: Seq<Entry>,
    run_id: Seq<char>,
    metric_value: Number,
    max_abs_err: Number,
    numbers: Map<Seq<char>, Number>,
    unix_ts: u64,
)
    requires
        records.len() < u64::MAX,
    ensures
        match next_result(records, run_id, metric_value, max_abs_err, numbers, unix_ts) {
            Some(r) => {
                let before = records.filter_map(
                    |e: Entry|
                        match e {
                            Entry::Result(r) => if r.run_id == run_id {
                                Some(r)
                            } else {
                                None
                            },
                            Entry::Prereg(_) => None,
                        },
                );
                &&& r.run_id == run_id
                &&& r.unix_ts == unix_ts
                &&& r.metric_value == metric_value
                &&& r.max_abs_err == max_abs_err
                &&& r.numbers == numbers
                &&& r.version == before.len() + 1
                &&& r.replay <==> before.len() > 0
                &&& exists|i: int|
                    0 <= i < records.len() && claims_run(#[trigger] records[i], run_id) && (
                    forall|j: int| 0 <= j < i ==> !claims_run(#[trigger] records[j], run_id)) && {
                        let claim = records[i]->Prereg_0;
                        r.claim_met <==> r.max_abs_err.below(claim.numerics_gate)
                            && r.metric_value.reaches(claim.threshold)
                    }
            },
            None => forall|j: int|
                0 <= j < records.len() ==> !claims_run(#[trigger] records[j], run_id),
        },
{
    the_first_claim_counts(records, run_id, records.len());
    results_are_all_of_the_run(records, run_id, records.len());
    assert(records.take(records.len() as int) =~= records);
    lemma_results_len(records, run_id, records.len());
    if let Some(c) = claim_for(records, run_id, records.len()) {
        let i = choose|i: int|
            0 <= i < records.len() && #[trigger] records[i] == Entry::Prereg(c) && forall|j: int|
                0 <= j < i ==> !claims_run(#[trigger] records[j], run_id);
        assert(claims_run(records[i], run_id));
    }
}

/// What a record stands for is what its fields hold.
pub proof fn records_show_their_fields(p: Prereg, r: RunResult)
    ensures
        p@.run_id == p.run_id@,
        p@.unix_ts == p.unix_ts,
        p@.bench == p.bench@,
        p@.metric == p.metric@,
        p@.claim == p.claim@,
        p@.threshold == p.threshold,
        p@.numerics_gate == p.numerics_gate,
        p@.seed == p.seed,
        p@.params == p.params@,
        r@.run_id == r.run_id@,
        r@.unix_ts == r.unix_ts,
        r@.version == r.version,
        r@.replay == r.replay,
        r@.metric_value == r.metric_value,
        r@.max_abs_err == r.max_abs_err,
        r@.claim_met == r.claim_met,
        r@.numbers == r.numbers@,
        Record::Prereg(p)@ == Entry::Prereg(p@),
        Record::Result(r)@ == Entry::Result(r@),
{
}

} // verus!
