//! What the command line promises: each flag is read for what it is, and a run is measured once and
//! then replayed.
use crate::cli::{
    admitted, command_of, first_at, flag_taken, flags_read, job_of, requested, split_once,
    text_view, Command, Flags, Job, PreregFlags, Refusal,
};
use crate::ledger::{claim_for, results_for, Claim, Entry};
use crate::ledger_laws::{the_latest_result_has_the_highest_version, written_decimals_are_read};
use crate::number::Number;
use crate::text::{decimal, parsed_u64};
use vstd::prelude::*;

verus! {

/// Every flag of a claim is read for what it is: its value replaces the one before, and nothing
/// else changes.
pub proof fn flags_are_read_for_what_they_are(
    flag: Seq<char>,
    value: Seq<char>,
    rest: Seq<Seq<char>>,
    flags: Flags,
)
    ensures
        flags_read(seq!["--bench"@, value] + rest, flags) == flags_read(
            rest,
            Flags { bench: Some(value), ..flags },
        ),
        flags_read(seq!["--metric"@, value] + rest, flags) == flags_read(
            rest,
            Flags { metric: Some(value), ..flags },
        ),
        flags_read(seq!["--claim"@, value] + rest, flags) == flags_read(
            rest,
            Flags { claim: Some(value), ..flags },
        ),
        flags_read(seq!["--threshold"@, value] + rest, flags) == flags_read(
            rest,
            Flags { threshold: Some(value), ..flags },
        ),
        flags_read(seq!["--seed"@, value] + rest, flags) == flags_read(
            rest,
            Flags { seed: Some(value), ..flags },
        ),
        flags_read(Seq::<Seq<char>>::empty(), flags) == Ok::<Flags, Refusal>(flags),
        flag != "--bench"@ && flag != "--metric"@ && flag != "--claim"@ && flag != "--threshold"@
            && flag != "--seed"@ && flag != "--param"@ ==> flags_read(
            seq![flag, value] + rest,
            flags,
        ) is Err,
{
    lemma_flag_names();
    let all = seq!["--bench"@, value] + rest;
    assert(all[0] == "--bench"@ && all[1] == value);
    assert(all.skip(2) =~= rest);
    let all = seq!["--metric"@, value] + rest;
    assert(all[0] == "--metric"@ && all[1] == value);
    assert(all.skip(2) =~= rest);
    let all = seq!["--claim"@, value] + rest;
    assert(all[0] == "--claim"@ && all[1] == value);
    assert(all.skip(2) =~= rest);
    let all = seq!["--threshold"@, value] + rest;
    assert(all[0] == "--threshold"@ && all[1] == value);
    assert(all.skip(2) =~= rest);
    let all = seq!["--seed"@, value] + rest;
    assert(all[0] == "--seed"@ && all[1] == value);
    assert(all.skip(2) =~= rest);
    let all = seq![flag, value] + rest;
    assert(all[0] == flag && all[1] == value);
    assert(all.skip(2) =~= rest);
}

proof fn lemma_flag_names()
    ensures
        "--bench"@ != "--metric"@ && "--bench"@ != "--claim"@ && "--bench"@ != "--threshold"@,
        "--bench"@ != "--seed"@ && "--bench"@ != "--param"@ && "--metric"@ != "--claim"@,
        "--metric"@ != "--threshold"@ && "--metric"@ != "--seed"@ && "--metric"@ != "--param"@,
        "--claim"@ != "--threshold"@ && "--claim"@ != "--seed"@ && "--claim"@ != "--param"@,
        "--threshold"@ != "--seed"@ && "--threshold"@ != "--param"@ && "--seed"@ != "--param"@,
{
    reveal_strlit("--bench");
    reveal_strlit("--metric");
    reveal_strlit("--claim");
    reveal_strlit("--threshold");
    reveal_strlit("--seed");
    reveal_strlit("--param");
    assert("--bench"@.len() == 7 && "--metric"@.len() == 8 && "--claim"@.len() == 7);
    assert("--threshold"@.len() == 11 && "--seed"@.len() == 6 && "--param"@.len() == 7);
    assert("--bench"@[2] != "--claim"@[2] && "--bench"@[2] != "--param"@[2]);
    assert("--claim"@[2] != "--param"@[2]);
}

proof fn lemma_split(key: Seq<char>, value: Seq<char>, from: nat)
    requires
        !key.contains('='),
        from <= key.len(),
    ensures
        first_at(key + seq!['='] + value, '=', from) == Some(key.len()),
    decreases key.len() - from,
{
    let all = key + seq!['='] + value;
    if from < key.len() {
        assert(all[from as int] == key[from as int]);
        assert(key.contains(key[from as int]));
        lemma_split(key, value, from + 1);
    } else {
        assert(all[from as int] == '=');
    }
}

/// A parameter that is written as `key=number` is read as that number for that key, whatever the
/// key, as long as it has no equals sign.
pub proof fn parameters_are_read_as_they_are_written(
    key: Seq<char>,
    n: u64,
    rest: Seq<Seq<char>>,
    flags: Flags,
)
    requires
        !key.contains('='),
    ensures
        flags_read(seq!["--param"@, key + seq!['='] + decimal(n as nat)] + rest, flags)
            == flags_read(rest, Flags { params: flags.params.insert(key, n), ..flags }),
        split_once(key + seq!['='] + decimal(n as nat)) == Some((key, decimal(n as nat))),
{
    let value = decimal(n as nat);
    let kv = key + seq!['='] + value;
    lemma_split(key, value, 0);
    assert(kv.subrange(0, key.len() as int) =~= key);
    assert(kv.subrange(key.len() as int + 1, kv.len() as int) =~= value);
    written_decimals_are_read(n);
    lemma_flag_names();
    let all = seq!["--param"@, kv] + rest;
    assert(all[0] == "--param"@ && all[1] == kv);
    assert(all.skip(2) =~= rest);
}

/// A claim is requested for one of the two benches, with a threshold and with a seed that is a
/// number, and is requested as the flags say.
pub proof fn requests_say_what_the_flags_say(
    flags: Flags,
    threshold: Option<Number>,
)
    ensures
        match requested(flags, threshold) {
            Ok((bench, number, seed)) => {
                &&& flags.bench == Some(bench)
                &&& bench == "attention"@ || bench == "mlp"@
                &&& flags.threshold is Some && threshold == Some(number)
                &&& flags.seed matches Some(text) && parsed_u64(text) == Some(seed as nat)
            },
            Err(_) => {
                ||| flags.bench is None
                ||| flags.bench != Some("attention"@) && flags.bench != Some("mlp"@)
                ||| flags.threshold is None
                ||| threshold is None
                ||| flags.seed is None
                ||| parsed_u64(flags.seed.unwrap()) is None
            },
        },
{
}

/// A job has the shape, the iterations and the seed of its claim.
pub proof fn jobs_are_those_of_their_claims(c: Claim)
    ensures
        match job_of(c) {
            Ok(Job::Attention { s, d, iters, seed }) => {
                &&& c.bench == "attention"@
                &&& c.params.contains_pair("s"@, s) && c.params.contains_pair("d"@, d)
                &&& c.params.contains_pair("iters"@, iters) && seed == c.seed
            },
            Ok(Job::Mlp { s, d, f, iters, seed }) => {
                &&& c.bench == "mlp"@
                &&& c.params.contains_pair("s"@, s) && c.params.contains_pair("d"@, d)
                &&& c.params.contains_pair("f"@, f)
                &&& c.params.contains_pair("iters"@, iters) && seed == c.seed
            },
            Err(_) => {
                ||| !c.params.dom().contains("iters"@)
                ||| !c.params.dom().contains("s"@)
                ||| !c.params.dom().contains("d"@)
                ||| c.bench != "attention"@ && c.bench != "mlp"@
                ||| c.bench == "mlp"@ && !c.params.dom().contains("f"@)
            },
        },
{
    reveal_strlit("attention");
    reveal_strlit("mlp");
    assert("attention"@.len() == 9 && "mlp"@.len() == 3);
}

/// A run is measured once, and from then on replayed: a run may be measured first exactly if it has
/// a claim and no result, and may be replayed exactly if it has a claim and a result.
pub proof fn runs_are_measured_once_and_then_replayed(
    records: Seq<Entry>,
    run_id: Seq<char>,
    path: Seq<char>,
)
    ensures
        ({
            let claim = claim_for(records, run_id, records.len());
            let results = results_for(records, run_id, records.len());
            &&& admitted(records, run_id, path, false) is Ok <==> claim is Some && results.len()
                == 0
            &&& admitted(records, run_id, path, true) is Ok <==> claim is Some && results.len() > 0
            &&& admitted(records, run_id, path, false) matches Ok((c, prior)) ==> claim == Some(c)
                && prior is None
            &&& admitted(records, run_id, path, true) matches Ok((c, prior)) ==> claim == Some(c)
                && (prior matches Some(r) && results.contains(r) && forall|j: int|
                0 <= j < results.len() ==> (#[trigger] results[j]).version <= r.version)
        }),
{
    the_latest_result_has_the_highest_version(results_for(records, run_id, records.len()));
}

/// A command is what its name says.
pub proof fn commands_are_called_by_name(rest: Seq<Seq<char>>)
    ensures
        command_of(seq!["prereg"@] + rest) == Some(Command::Prereg),
        command_of(seq!["run"@] + rest) == Some(Command::Run),
        command_of(seq!["replay"@] + rest) == Some(Command::Replay),
        command_of(seq!["list"@] + rest) == Some(Command::List),
{
    reveal_strlit("prereg");
    reveal_strlit("run");
    reveal_strlit("replay");
    reveal_strlit("list");
    assert("prereg"@.len() == 6 && "run"@.len() == 3 && "replay"@.len() == 6 && "list"@.len() == 4);
    assert("prereg"@[0] != "replay"@[0]);
}

/// A flag is taken out with the argument behind it, wherever it first stands, and what is before it
/// stays.
pub proof fn a_flag_is_taken_with_its_value(
    before: Seq<Seq<char>>,
    flag: Seq<char>,
    value: Seq<char>,
    after: Seq<Seq<char>>,
    known: Option<Seq<char>>,
)
    requires
        !before.contains(flag),
    ensures
        flag_taken(before + seq![flag, value] + after, flag, known) == (
            flag_taken(after, flag, Some(value)).0,
            before + flag_taken(after, flag, Some(value)).1,
        ),
    decreases before.len(),
{
    let all = before + seq![flag, value] + after;
    let rest = flag_taken(after, flag, Some(value));
    if before.len() == 0 {
        assert(all[0] == flag && all[1] == value);
        assert(all.skip(2) =~= after);
        assert(before + rest.1 =~= rest.1);
    } else {
        assert(all[0] == before[0]);
        assert(before.contains(before[0]));
        assert(!before.skip(1).contains(flag)) by {
            if before.skip(1).contains(flag) {
                let i = choose|i: int| 0 <= i < before.skip(1).len() && before.skip(1)[i] == flag;
                assert(before[i + 1] == flag);
            }
        }
        a_flag_is_taken_with_its_value(before.skip(1), flag, value, after, known);
        assert(all.skip(1) =~= before.skip(1) + seq![flag, value] + after);
        assert(seq![before[0]] + (before.skip(1) + rest.1) =~= before + rest.1);
    }
}

/// What flags stand for is what their fields hold.
pub proof fn flags_show_their_fields(f: PreregFlags)
    ensures
        f@.bench == text_view(f.bench),
        f@.metric == text_view(f.metric),
        f@.claim == text_view(f.claim),
        f@.threshold == text_view(f.threshold),
        f@.seed == text_view(f.seed),
        f@.params == f.params@,
        text_view(None) is None,
        forall|t: String| (#[trigger] text_view(Some(t))) == Some(t@),
{
}

} // verus!
