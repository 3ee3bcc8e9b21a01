//! The decisions of the command line: what the arguments ask for, and whether a run may be
//! measured.
use crate::ledger::{claim_for, latest, results_for, Claim, Ledger, Measurement, Prereg, RunResult};
use crate::names::NameMap;
use crate::number::Number;
use crate::text::{parse_u64, parsed_u64, same_text};
use vstd::prelude::*;

verus! {

pub open spec fn texts(args: Seq<String>) -> Seq<Seq<char>> {
    args.map_values(|a: String| a@)
}

pub open spec fn text_view(text: Option<String>) -> Option<Seq<char>> {
    match text {
        Some(t) => Some(t@),
        None => None,
    }
}

// ---- Errors ----

/// Why a command line is refused.
#[derive(Debug)]
pub enum UsageError {
    /// Something required is not there.
    Missing(String),
    /// A parameter is not of the form `key=value`.
    ParamForm(String),
    /// The value of a parameter is not an integer.
    ParamValue(String, String),
    /// A flag that `prereg` does not know.
    UnknownFlag(String),
    /// A bench that cannot be preregistered.
    BadBench,
    /// The threshold is not a number.
    BadThreshold,
    /// The seed is not an integer.
    BadSeed,
    /// The claim of a run lacks a parameter.
    MissingParam(String, String),
    /// The claim of a run is about a bench that there is not.
    UnknownBench(String),
    /// There is no claim under this run id in this log.
    NoPrereg(String, String),
    /// There is nothing to replay.
    NoResult(String),
    /// The run has been measured already.
    HasResult(String),
    /// The claim is about a metric that there is not.
    UnknownMetric(String),
}

/// What a `UsageError` stands for.
pub enum Refusal {
    Missing(Seq<char>),
    ParamForm(Seq<char>),
    ParamValue(Seq<char>, Seq<char>),
    UnknownFlag(Seq<char>),
    BadBench,
    BadThreshold,
    BadSeed,
    MissingParam(Seq<char>, Seq<char>),
    UnknownBench(Seq<char>),
    NoPrereg(Seq<char>, Seq<char>),
    NoResult(Seq<char>),
    HasResult(Seq<char>),
    UnknownMetric(Seq<char>),
}

impl View for UsageError {
    type V = Refusal;

    open spec fn view(&self) -> Refusal {
        match self {
            UsageError::Missing(a) => Refusal::Missing(a@),
            UsageError::ParamForm(a) => Refusal::ParamForm(a@),
            UsageError::ParamValue(a, b) => Refusal::ParamValue(a@, b@),
            UsageError::UnknownFlag(a) => Refusal::UnknownFlag(a@),
            UsageError::BadBench => Refusal::BadBench,
            UsageError::BadThreshold => Refusal::BadThreshold,
            UsageError::BadSeed => Refusal::BadSeed,
            UsageError::MissingParam(a, b) => Refusal::MissingParam(a@, b@),
            UsageError::UnknownBench(a) => Refusal::UnknownBench(a@),
            UsageError::NoPrereg(a, b) => Refusal::NoPrereg(a@, b@),
            UsageError::NoResult(a) => Refusal::NoResult(a@),
            UsageError::HasResult(a) => Refusal::HasResult(a@),
            UsageError::UnknownMetric(a) => Refusal::UnknownMetric(a@),
        }
    }
}

impl Refusal {
    /// What the user is told.
    pub open spec fn message(self) -> Seq<char> {
        match self {
            Refusal::Missing(what) => "missing required "@ + what,
            Refusal::ParamForm(kv) => "--param wants key=value, got "@ + kv,
            Refusal::ParamValue(k, v) => "--param "@ + k + " wants an integer, got "@ + v,
            Refusal::UnknownFlag(flag) => "unknown prereg flag "@ + flag,
            Refusal::BadBench => "--bench must be attention or mlp"@,
            Refusal::BadThreshold => "--threshold wants a number"@,
            Refusal::BadSeed => "--seed wants an integer"@,
            Refusal::MissingParam(run_id, k) => "prereg "@ + run_id + " is missing param "@ + k,
            Refusal::UnknownBench(bench) => "unknown bench "@ + bench,
            Refusal::NoPrereg(run_id, path) => "no prereg named "@ + run_id + " in "@ + path,
            Refusal::NoResult(run_id) => run_id
                + " has no recorded result to replay; use `roofline run` first"@,
            Refusal::HasResult(run_id) => run_id
                + " already has a recorded result; use `roofline replay` to re-measure"@,
            Refusal::UnknownMetric(metric) => "unknown metric "@ + metric,
        }
    }
}

fn join(a: &str, b: &str) -> (text: String)
    ensures
        text@ == a@ + b@,
{
    let mut text = a.to_owned();
    text.append(b);
    text
}

fn join4(a: &str, b: &str, c: &str, d: &str) -> (text: String)
    ensures
        text@ == a@ + b@ + c@ + d@,
{
    let mut text = a.to_owned();
    text.append(b);
    text.append(c);
    text.append(d);
    text
}

impl UsageError {
    /// What the user is told.
    pub fn message(&self) -> (text: String)
        ensures
            text@ == self@.message(),
    {
        match self {
            UsageError::Missing(what) => join("missing required ", what.as_str()),
            UsageError::ParamForm(kv) => join("--param wants key=value, got ", kv.as_str()),
            UsageError::ParamValue(k, v) => join4(
                "--param ",
                k.as_str(),
                " wants an integer, got ",
                v.as_str(),
            ),
            UsageError::UnknownFlag(flag) => join("unknown prereg flag ", flag.as_str()),
            UsageError::BadBench => "--bench must be attention or mlp".to_owned(),
            UsageError::BadThreshold => "--threshold wants a number".to_owned(),
            UsageError::BadSeed => "--seed wants an integer".to_owned(),
            UsageError::MissingParam(run_id, k) => join4(
                "prereg ",
                run_id.as_str(),
                " is missing param ",
                k.as_str(),
            ),
            UsageError::UnknownBench(bench) => join("unknown bench ", bench.as_str()),
            UsageError::NoPrereg(run_id, path) => join4(
                "no prereg named ",
                run_id.as_str(),
                " in ",
                path.as_str(),
            ),
            UsageError::NoResult(run_id) => join(
                run_id.as_str(),
                " has no recorded result to replay; use `roofline run` first",
            ),
            UsageError::HasResult(run_id) => join(
                run_id.as_str(),
                " already has a recorded result; use `roofline replay` to re-measure",
            ),
            UsageError::UnknownMetric(metric) => join("unknown metric ", metric.as_str()),
        }
    }
}

// ---- Flags ----

/// Takes every `flag` with the argument behind it out of `args`. The last one counts; one at the
/// very end has no value.
pub open spec fn flag_taken(
    args: Seq<Seq<char>>,
    flag: Seq<char>,
    value: Option<Seq<char>>,
) -> (Option<Seq<char>>, Seq<Seq<char>>)
    decreases args.len(),
{
    if args.len() == 0 {
        (value, seq![])
    } else if args[0] == flag {
        if args.len() == 1 {
            (None, seq![])
        } else {
            flag_taken(args.skip(2), flag, Some(args[1]))
        }
    } else {
        let (v, rest) = flag_taken(args.skip(1), flag, value);
        (v, seq![args[0]] + rest)
    }
}

/// Pulls `--flag value` out of the arguments if it is there.
pub fn take_flag_value(args: Vec<String>, flag: &str) -> (taken: (Option<String>, Vec<String>))
    ensures
        (text_view(taken.0), texts(taken.1@)) == flag_taken(texts(args@), flag@, None),
{
    let ghost all = texts(args@);
    let mut out: Vec<String> = Vec::new();
    let mut value: Option<String> = None;
    let n: usize = args.len();
    let mut i: usize = 0;
    assert(all.skip(0) =~= all);
    assert(texts(out@) =~= seq![]);
    assert(texts(out@) + flag_taken(all, flag@, None).1 =~= flag_taken(all, flag@, None).1);
    while i < n
        invariant
            i <= n,
            n == args@.len(),
            all == texts(args@),
            ({
                let rest = flag_taken(all.skip(i as int), flag@, text_view(value));
                flag_taken(all, flag@, None) == (rest.0, texts(out@) + rest.1)
            }),
        decreases n - i,
    {
        assert(all[i as int] == args@[i as int]@);
        assert(all.skip(i as int)[0] == all[i as int]);
        if same_text(args[i].as_str(), flag) {
            if i + 1 == n {
                assert(texts(out@) + seq![] =~= texts(out@));
                return (None, out);
            }
            assert(all[i as int + 1] == args@[i as int + 1]@);
            assert(all.skip(i as int)[1] == all[i as int + 1]);
            assert(all.skip(i as int).skip(2) =~= all.skip(i as int + 2));
            value = Some(args[i + 1].clone());
            i = i + 2;
        } else {
            let ghost before = texts(out@);
            let ghost rest = flag_taken(all.skip(i as int + 1), flag@, text_view(value));
            assert(all.skip(i as int).skip(1) =~= all.skip(i as int + 1));
            out.push(args[i].clone());
            assert(texts(out@) =~= before.push(all[i as int]));
            assert(before + (seq![all[i as int]] + rest.1) =~= texts(out@) + rest.1);
            i = i + 1;
        }
    }
    assert(all.skip(n as int) =~= seq![]);
    assert(texts(out@) + seq![] =~= texts(out@));
    (value, out)
}

/// No argument that is left over is the flag; and where the flag does not occur, all arguments are
/// left as they were.
pub proof fn flag_is_taken_out(
    args: Seq<Seq<char>>,
    flag: Seq<char>,
    value: Option<Seq<char>>,
)
    ensures
        !flag_taken(args, flag, value).1.contains(flag),
        !args.contains(flag) ==> flag_taken(args, flag, value) == (value, args),
    decreases args.len(),
{
    if args.len() > 0 {
        if args[0] == flag {
            assert(args.contains(args[0]));
            if args.len() > 1 {
                flag_is_taken_out(args.skip(2), flag, Some(args[1]));
            }
        } else {
            flag_is_taken_out(args.skip(1), flag, value);
            let rest = flag_taken(args.skip(1), flag, value).1;
            let all = seq![args[0]] + rest;
            assert(!all.contains(flag)) by {
                if all.contains(flag) {
                    let i = choose|i: int| 0 <= i < all.len() && all[i] == flag;
                    assert(i > 0);
                    assert(rest[i - 1] == flag);
                }
            }
            if !args.contains(flag) {
                assert(!args.skip(1).contains(flag)) by {
                    if args.skip(1).contains(flag) {
                        let i = choose|i: int|
                            0 <= i < args.skip(1).len() && args.skip(1)[i] == flag;
                        assert(args[i + 1] == flag);
                    }
                }
                assert(seq![args[0]] + args.skip(1) =~= args);
            }
        }
    } else {
        assert(args =~= seq![]);
    }
}

/// The subcommands.
#[derive(Clone, Copy, Debug, PartialEq, Eq, Structural)]
pub enum Command {
    Prereg,
    Run,
    Replay,
    List,
}

/// The subcommand that the first argument names.
pub open spec fn command_of(args: Seq<Seq<char>>) -> Option<Command> {
    if args.len() == 0 {
        None
    } else if args[0] == "prereg"@ {
        Some(Command::Prereg)
    } else if args[0] == "run"@ {
        Some(Command::Run)
    } else if args[0] == "replay"@ {
        Some(Command::Replay)
    } else if args[0] == "list"@ {
        Some(Command::List)
    } else {
        None
    }
}

/// The subcommand that the first argument names; nothing where it names none.
pub fn command(args: &Vec<String>) -> (c: Option<Command>)
    ensures
        c == command_of(texts(args@)),
{
    if args.len() == 0 {
        return None;
    }
    assert(texts(args@)[0] == args@[0]@);
    let first = args[0].as_str();
    if same_text(first, "prereg") {
        Some(Command::Prereg)
    } else if same_text(first, "run") {
        Some(Command::Run)
    } else if same_text(first, "replay") {
        Some(Command::Replay)
    } else if same_text(first, "list") {
        Some(Command::List)
    } else {
        None
    }
}

/// `text`, or the refusal that `what` is missing.
pub fn require(text: &Option<String>, what: &str) -> (r: Result<String, UsageError>)
    ensures
        match (r, text_view(*text)) {
            (Ok(t), Some(v)) => t@ == v,
            (Err(e), None) => e@ == Refusal::Missing(what@),
            _ => false,
        },
{
    match text {
        Some(t) => Ok(t.clone()),
        None => Err(UsageError::Missing(what.to_owned())),
    }
}

// ---- Preregistration ----

/// The flags of `prereg`, as far as they were given.
#[derive(Debug)]
pub struct PreregFlags {
    pub bench: Option<String>,
    pub metric: Option<String>,
    pub claim: Option<String>,
    pub threshold: Option<String>,
    pub seed: Option<String>,
    pub params: NameMap<u64>,
}

/// What `PreregFlags` stand for.
pub struct Flags {
    pub bench: Option<Seq<char>>,
    pub metric: Option<Seq<char>>,
    pub claim: Option<Seq<char>>,
    pub threshold: Option<Seq<char>>,
    pub seed: Option<Seq<char>>,
    pub params: Map<Seq<char>, u64>,
}

impl View for PreregFlags {
    type V = Flags;

    open spec fn view(&self) -> Flags {
        Flags {
            bench: text_view(self.bench),
            metric: text_view(self.metric),
            claim: text_view(self.claim),
            threshold: text_view(self.threshold),
            seed: text_view(self.seed),
            params: self.params@,
        }
    }
}

/// No flags.
pub open spec fn no_flags() -> Flags {
    Flags {
        bench: None,
        metric: None,
        claim: None,
        threshold: None,
        seed: None,
        params: Map::empty(),
    }
}

/// Where `c` first stands in `s`, from position `from` on.
pub open spec fn first_at(s: Seq<char>, c: char, from: nat) -> Option<nat>
    decreases s.len() - from,
{
    if from >= s.len() {
        None
    } else if s[from as int] == c {
        Some(from)
    } else {
        first_at(s, c, from + 1)
    }
}

/// `key=value` split at the first equals sign.
pub open spec fn split_once(kv: Seq<char>) -> Option<(Seq<char>, Seq<char>)> {
    match first_at(kv, '=', 0) {
        Some(at) => Some((kv.subrange(0, at as int), kv.subrange(at as int + 1, kv.len() as int))),
        None => None,
    }
}

/// The flags with one more parameter, written as `key=value`.
pub open spec fn with_param(flags: Flags, kv: Seq<char>) -> Result<Flags, Refusal> {
    match split_once(kv) {
        None => Err(Refusal::ParamForm(kv)),
        Some((k, v)) => match parsed_u64(v) {
            Some(n) => Ok(Flags { params: flags.params.insert(k, n as u64), ..flags }),
            None => Err(Refusal::ParamValue(k, v)),
        },
    }
}

/// The flags with the value of `flag`; nothing where `prereg` does not know the flag.
pub open spec fn with_flag(flags: Flags, flag: Seq<char>, value: Seq<char>) -> Option<
    Result<Flags, Refusal>,
> {
    if flag == "--bench"@ {
        Some(Ok(Flags { bench: Some(value), ..flags }))
    } else if flag == "--metric"@ {
        Some(Ok(Flags { metric: Some(value), ..flags }))
    } else if flag == "--claim"@ {
        Some(Ok(Flags { claim: Some(value), ..flags }))
    } else if flag == "--threshold"@ {
        Some(Ok(Flags { threshold: Some(value), ..flags }))
    } else if flag == "--seed"@ {
        Some(Ok(Flags { seed: Some(value), ..flags }))
    } else if flag == "--param"@ {
        Some(with_param(flags, value))
    } else {
        None
    }
}

/// The flags that `args` give on top of `flags`, or the first thing that is wrong with them.
pub open spec fn flags_read(args: Seq<Seq<char>>, flags: Flags) -> Result<Flags, Refusal>
    decreases args.len(),
{
    if args.len() == 0 {
        Ok(flags)
    } else {
        let value = if args.len() > 1 {
            args[1]
        } else {
            seq![]
        };
        match with_flag(flags, args[0], value) {
            None => Err(Refusal::UnknownFlag(args[0])),
            Some(next) => if args.len() == 1 {
                Err(Refusal::Missing(args[0] + " value"@))
            } else {
                match next {
                    Ok(more) => flags_read(args.skip(2), more),
                    Err(e) => Err(e),
                }
            },
        }
    }
}

/// Splits `key=value` at the first equals sign.
fn split_param(kv: &str) -> (split: Option<(String, String)>)
    ensures
        match split {
            Some((k, v)) => split_once(kv@) == Some((k@, v@)),
            None => split_once(kv@) is None,
        },
{
    let n: usize = kv.unicode_len();
    let mut i: usize = 0;
    while i < n
        invariant
            i <= n,
            n == kv@.len(),
            first_at(kv@, '=', 0) == first_at(kv@, '=', i as nat),
        decreases n - i,
    {
        if kv.get_char(i) == '=' {
            let k = kv.substring_char(0, i).to_owned();
            let v = kv.substring_char(i + 1, n).to_owned();
            return Some((k, v));
        }
        i = i + 1;
    }
    None
}

fn add_param(flags: &mut PreregFlags, kv: &String) -> (r: Result<(), UsageError>)
    ensures
        match r {
            Ok(_) => with_param(old(flags)@, kv@) == Ok::<Flags, Refusal>(final(flags)@),
            Err(e) => with_param(old(flags)@, kv@) == Err::<Flags, Refusal>(e@),
        },
{
    match split_param(kv.as_str()) {
        None => Err(UsageError::ParamForm(kv.clone())),
        Some((k, v)) => match parse_u64(v.as_str()) {
            Some(n) => {
                flags.params.insert(k.as_str(), n);
                Ok(())
            },
            None => Err(UsageError::ParamValue(k, v)),
        },
    }
}

/// Reads the flags of `prereg`.
pub fn read_flags(args: &Vec<String>) -> (flags: Result<PreregFlags, UsageError>)
    ensures
        match flags {
            Ok(f) => flags_read(texts(args@), no_flags()) == Ok::<Flags, Refusal>(f@),
            Err(e) => flags_read(texts(args@), no_flags()) == Err::<Flags, Refusal>(e@),
        },
{
    let ghost all = texts(args@);
    let mut flags = PreregFlags {
        bench: None,
        metric: None,
        claim: None,
        threshold: None,
        seed: None,
        params: NameMap::new(),
    };
    assert(all.skip(0) =~= all);
    let n: usize = args.len();
    let mut i: usize = 0;
    while i < n
        invariant
            i <= n,
            n == args@.len(),
            all == texts(args@),
            flags_read(all, no_flags()) == flags_read(all.skip(i as int), flags@),
        decreases n - i,
    {
        let flag = args[i].as_str();
        assert(all.skip(i as int)[0] == flag@);
        let known = same_text(flag, "--bench") || same_text(flag, "--metric") || same_text(
            flag,
            "--claim",
        ) || same_text(flag, "--threshold") || same_text(flag, "--seed") || same_text(
            flag,
            "--param",
        );
        if !known {
            return Err(UsageError::UnknownFlag(args[i].clone()));
        }
        if i + 1 == n {
            return Err(UsageError::Missing(join(flag, " value")));
        }
        let value = &args[i + 1];
        assert(all.skip(i as int)[1] == value@);
        assert(all.skip(i as int).skip(2) =~= all.skip(i as int + 2));
        if same_text(flag, "--bench") {
            flags.bench = Some(value.clone());
        } else if same_text(flag, "--metric") {
            flags.metric = Some(value.clone());
        } else if same_text(flag, "--claim") {
            flags.claim = Some(value.clone());
        } else if same_text(flag, "--threshold") {
            flags.threshold = Some(value.clone());
        } else if same_text(flag, "--seed") {
            flags.seed = Some(value.clone());
        } else {
            match add_param(&mut flags, value) {
                Ok(_) => {},
                Err(e) => {
                    return Err(e);
                },
            }
        }
        i = i + 2;
    }
    assert(all.skip(n as int) =~= seq![]);
    Ok(flags)
}

/// What a claim is about.
#[derive(Debug)]
pub struct Request {
    pub bench: String,
    pub threshold: Number,
    pub seed: u64,
}

/// The bench, the threshold and the seed of a request, or the first thing that is wrong with them.
/// `threshold` is the number that the text of the threshold stands for, where it is one.
pub open spec fn requested(flags: Flags, threshold: Option<Number>) -> Result<
    (Seq<char>, Number, u64),
    Refusal,
> {
    match flags.bench {
        None => Err(Refusal::Missing("--bench"@)),
        Some(bench) => if bench != "attention"@ && bench != "mlp"@ {
            Err(Refusal::BadBench)
        } else {
            match (flags.threshold, threshold) {
                (None, _) => Err(Refusal::Missing("--threshold"@)),
                (Some(_), None) => Err(Refusal::BadThreshold),
                (Some(_), Some(number)) => match flags.seed {
                    None => Err(Refusal::Missing("--seed"@)),
                    Some(text) => match parsed_u64(text) {
                        Some(seed) => Ok((bench, number, seed as u64)),
                        None => Err(Refusal::BadSeed),
                    },
                },
            }
        },
    }
}

/// Checks the bench, the threshold and the seed, in this order.
pub fn request(flags: &PreregFlags, threshold: Option<Number>) -> (r: Result<Request, UsageError>)
    ensures
        match r {
            Ok(q) => requested(flags@, threshold) == Ok::<(Seq<char>, Number, u64), Refusal>(
                (q.bench@, q.threshold, q.seed),
            ),
            Err(e) => requested(flags@, threshold) == Err::<(Seq<char>, Number, u64), Refusal>(e@),
        },
{
    let bench = match require(&flags.bench, "--bench") {
        Ok(bench) => bench,
        Err(e) => {
            return Err(e);
        },
    };
    if !same_text(bench.as_str(), "attention") && !same_text(bench.as_str(), "mlp") {
        return Err(UsageError::BadBench);
    }
    if flags.threshold.is_none() {
        return Err(UsageError::Missing("--threshold".to_owned()));
    }
    let threshold = match threshold {
        Some(number) => number,
        None => {
            return Err(UsageError::BadThreshold);
        },
    };
    match &flags.seed {
        None => Err(UsageError::Missing("--seed".to_owned())),
        Some(text) => match parse_u64(text.as_str()) {
            Some(seed) => Ok(Request { bench, threshold, seed }),
            None => Err(UsageError::BadSeed),
        },
    }
}

// ---- Measuring ----

/// A bench with its shape, its number of iterations and its seed.
#[derive(Clone, Copy, Debug, PartialEq, Eq, Structural)]
pub enum Job {
    Attention { s: u64, d: u64, iters: u64, seed: u64 },
    Mlp { s: u64, d: u64, f: u64, iters: u64, seed: u64 },
}

/// The job that a claim is about, or the first thing that it lacks: the iterations, then the
/// extents in order.
pub open spec fn job_of(c: Claim) -> Result<Job, Refusal> {
    let p = c.params;
    if !p.dom().contains("iters"@) {
        Err(Refusal::MissingParam(c.run_id, "iters"@))
    } else if c.bench != "attention"@ && c.bench != "mlp"@ {
        Err(Refusal::UnknownBench(c.bench))
    } else if !p.dom().contains("s"@) {
        Err(Refusal::MissingParam(c.run_id, "s"@))
    } else if !p.dom().contains("d"@) {
        Err(Refusal::MissingParam(c.run_id, "d"@))
    } else if c.bench == "attention"@ {
        Ok(Job::Attention { s: p["s"@], d: p["d"@], iters: p["iters"@], seed: c.seed })
    } else if !p.dom().contains("f"@) {
        Err(Refusal::MissingParam(c.run_id, "f"@))
    } else {
        Ok(Job::Mlp { s: p["s"@], d: p["d"@], f: p["f"@], iters: p["iters"@], seed: c.seed })
    }
}

fn param(p: &Prereg, name: &str) -> (value: Result<u64, UsageError>)
    ensures
        match value {
            Ok(v) => p@.params.dom().contains(name@) && p@.params[name@] == v,
            Err(e) => !p@.params.dom().contains(name@) && e@ == Refusal::MissingParam(
                p@.run_id,
                name@,
            ),
        },
{
    match p.params.get(name) {
        Some(v) => Ok(*v),
        None => Err(UsageError::MissingParam(p.run_id.clone(), name.to_owned())),
    }
}

/// The job that a claim is about.
pub fn job(p: &Prereg) -> (j: Result<Job, UsageError>)
    ensures
        match j {
            Ok(job) => job_of(p@) == Ok::<Job, Refusal>(job),
            Err(e) => job_of(p@) == Err::<Job, Refusal>(e@),
        },
{
    proof {
        reveal_strlit("attention");
        reveal_strlit("mlp");
        assert("attention"@.len() != "mlp"@.len());
    }
    let iters: u64 = match param(p, "iters") {
        Ok(v) => v,
        Err(e) => {
            return Err(e);
        },
    };
    let attention = same_text(p.bench.as_str(), "attention");
    if !attention && !same_text(p.bench.as_str(), "mlp") {
        return Err(UsageError::UnknownBench(p.bench.clone()));
    }
    let s: u64 = match param(p, "s") {
        Ok(v) => v,
        Err(e) => {
            return Err(e);
        },
    };
    let d: u64 = match param(p, "d") {
        Ok(v) => v,
        Err(e) => {
            return Err(e);
        },
    };
    if attention {
        return Ok(Job::Attention { s, d, iters, seed: p.seed });
    }
    match param(p, "f") {
        Ok(f) => Ok(Job::Mlp { s, d, f, iters, seed: p.seed }),
        Err(e) => Err(e),
    }
}

/// Whether a run may be measured: its claim and its latest result, or why not. A first
/// measurement needs a claim without results, a replay one with results.
pub open spec fn admitted(
    records: Seq<crate::ledger::Entry>,
    run_id: Seq<char>,
    path: Seq<char>,
    replaying: bool,
) -> Result<(Claim, Option<Measurement>), Refusal> {
    match claim_for(records, run_id, records.len()) {
        None => Err(Refusal::NoPrereg(run_id, path)),
        Some(claim) => {
            let prior = latest(results_for(records, run_id, records.len()));
            if replaying && prior is None {
                Err(Refusal::NoResult(run_id))
            } else if !replaying && prior is Some {
                Err(Refusal::HasResult(run_id))
            } else {
                Ok((claim, prior))
            }
        },
    }
}

pub open spec fn result_view(result: Option<RunResult>) -> Option<Measurement> {
    match result {
        Some(r) => Some(r@),
        None => None,
    }
}

/// Decides whether a run may be measured.
pub fn admission(ledger: &Ledger, run_id: &str, path: &str, replaying: bool) -> (a: Result<
    (Prereg, Option<RunResult>),
    UsageError,
>)
    ensures
        match a {
            Ok((p, prior)) => admitted(ledger@, run_id@, path@, replaying) == Ok::<
                (Claim, Option<Measurement>),
                Refusal,
            >((p@, result_view(prior))),
            Err(e) => admitted(ledger@, run_id@, path@, replaying) == Err::<
                (Claim, Option<Measurement>),
                Refusal,
            >(e@),
        },
{
    let prereg = match ledger.get_prereg(run_id) {
        Some(p) => p.clone(),
        None => {
            return Err(UsageError::NoPrereg(run_id.to_owned(), path.to_owned()));
        },
    };
    let prior: Option<RunResult> = match ledger.latest_result(run_id) {
        Some(r) => Some(r.clone()),
        None => None,
    };
    if replaying && prior.is_none() {
        return Err(UsageError::NoResult(run_id.to_owned()));
    }
    if !replaying && prior.is_some() {
        return Err(UsageError::HasResult(run_id.to_owned()));
    }
    Ok((prereg, prior))
}

/// Whether result `k` is the original one: the first of version 1.
pub open spec fn is_original(results: Seq<Measurement>, k: int) -> bool {
    &&& 0 <= k < results.len()
    &&& results[k].version == 1
    &&& forall|j: int| 0 <= j < k ==> (#[trigger] results[j]).version != 1
}

/// The original result of a run: the one that its claim was first judged by.
pub fn original_result(ledger: &Ledger, run_id: &str) -> (result: Option<RunResult>)
    ensures
        match result {
            Some(r) => exists|k: int| #[trigger]
                is_original(results_for(ledger@, run_id@, ledger@.len()), k) && r@ == results_for(
                    ledger@,
                    run_id@,
                    ledger@.len(),
                )[k],
            None => forall|k: int|
                0 <= k < results_for(ledger@, run_id@, ledger@.len()).len() ==> (
                #[trigger] results_for(ledger@, run_id@, ledger@.len())[k]).version != 1,
        },
{
    let results = ledger.results(run_id);
    let ghost all = results_for(ledger@, run_id@, ledger@.len());
    let mut i: usize = 0;
    while i < results.len()
        invariant
            i <= results@.len(),
            all == results_for(ledger@, run_id@, ledger@.len()),
            all == results@.map_values(|r: &RunResult| r@),
            forall|j: int| 0 <= j < i ==> (#[trigger] all[j]).version != 1,
        decreases results@.len() - i,
    {
        let result: &RunResult = results[i];
        assert(all[i as int] == result@);
        if result.version == 1 {
            let original = result.clone();
            assert(is_original(all, i as int) && original@ == all[i as int]);
            return Some(original);
        }
        i = i + 1;
    }
    None
}

/// The bits of `1e-5`.
pub const NUMERICS_GATE: u64 = 0x3ee4_f8b5_88e3_68f1;

/// How large an error may be for a result to count: a claim is met only below `1e-5`.
pub fn numerics_gate() -> (limit: Number)
    ensures
        limit == (Number { bits: NUMERICS_GATE }),
{
    Number { bits: NUMERICS_GATE }
}

/// The value of the metric that a claim is about. The speedup is the only metric.
pub fn metric_value(p: &Prereg, speedup: Number) -> (value: Result<Number, UsageError>)
    ensures
        match value {
            Ok(v) => p@.metric == "speedup"@ && v == speedup,
            Err(e) => p@.metric != "speedup"@ && e@ == Refusal::UnknownMetric(p@.metric),
        },
{
    if same_text(p.metric.as_str(), "speedup") {
        Ok(speedup)
    } else {
        Err(UsageError::UnknownMetric(p.metric.clone()))
    }
}

} // verus!