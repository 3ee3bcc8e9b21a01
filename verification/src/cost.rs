//! The roofline cost model: a pluggable set of physical lower bounds on wall-clock time. The cost
//! of a plan is its slowest resource.
use crate::account::Account;
use crate::seconds::{time_order, Seconds, Time};
use vstd::prelude::*;
use vstd::std_specs::convert::FromSpecImpl;

verus! {

// ---- Device ----

/// The peak rates of a device.
#[derive(Clone, Copy, Debug)]
pub struct Device {
    pub name: &'static str,
    /// Peak FLOP/s (FP16).
    pub peak_flops: u64,
    /// HBM bandwidth (bytes/s).
    pub hbm_bandwidth: u64,
    /// Total on-chip SRAM across SMs (bytes): what a fused region's working set must fit inside.
    pub sram_bytes: u64,
}

impl Device {
    pub fn new(name: &'static str, peak_flops: u64, hbm_bandwidth: u64, sram_bytes: u64) -> (device:
        Self)
        ensures
            device == (Device { name, peak_flops, hbm_bandwidth, sram_bytes }),
    {
        Device { name, peak_flops, hbm_bandwidth, sram_bytes }
    }

    /// The arithmetic intensity, in flop per byte, above which the device is compute bound.
    pub fn ridge_point(&self) -> (ridge: Ratio)
        ensures
            ridge == (Ratio { num: self.peak_flops, den: self.hbm_bandwidth }),
    {
        Ratio { num: self.peak_flops, den: self.hbm_bandwidth }
    }
}

/// The quotient `num / den`.
#[derive(Clone, Copy, Debug, PartialEq, Eq, Structural)]
pub struct Ratio {
    pub num: u64,
    pub den: u64,
}

/// 192 KB of SRAM per SM times 108 SMs, about 20 MB.
pub fn a100() -> (device: Device)
    ensures
        device.name@ == "A100-80GB"@,
        device.peak_flops == 312_000_000_000_000,
        device.hbm_bandwidth == 2_000_000_000_000,
        device.sram_bytes == 20_000_000,
{
    Device::new("A100-80GB", 312_000_000_000_000, 2_000_000_000_000, 20_000_000)
}

/// 228 KB of SRAM per SM times 132 SMs, about 30 MB.
pub fn h100() -> (device: Device)
    ensures
        device.name@ == "H100-SXM"@,
        device.peak_flops == 989_000_000_000_000,
        device.hbm_bandwidth == 3_350_000_000_000,
        device.sram_bytes == 30_000_000,
{
    Device::new("H100-SXM", 989_000_000_000_000, 3_350_000_000_000, 30_000_000)
}

/// Flops per byte; zero where no byte moves.
pub open spec fn intensity_of(flops: u64, hbm_bytes: u64) -> Ratio {
    if hbm_bytes == 0 {
        Ratio { num: 0, den: 1 }
    } else {
        Ratio { num: flops, den: hbm_bytes }
    }
}

impl Account {
    /// Flops per HBM byte; zero for a program that moves no bytes.
    pub fn intensity(&self) -> (intensity: Ratio)
        ensures
            intensity == intensity_of(self.flops, self.hbm_bytes),
    {
        if self.hbm_bytes == 0 {
            Ratio { num: 0, den: 1 }
        } else {
            Ratio { num: self.flops, den: self.hbm_bytes }
        }
    }
}

// ---- Demand ----

/// The resource demands of one plan, as the accountant measured them. Each constraint reads the
/// part it cares about.
#[derive(Clone, Copy, Debug, PartialEq, Eq, Structural)]
pub struct Demand {
    pub flops: u64,
    pub hbm_bytes: u64,
    pub sram_bytes: u64,
}

impl Demand {
    pub fn new(flops: u64, hbm_bytes: u64) -> (demand: Self)
        ensures
            demand == (Demand { flops, hbm_bytes, sram_bytes: 0 }),
    {
        Demand { flops, hbm_bytes, sram_bytes: 0 }
    }

    pub fn with_sram(self, sram_bytes: u64) -> (demand: Self)
        ensures
            demand == (Demand { sram_bytes, ..self }),
    {
        Demand { flops: self.flops, hbm_bytes: self.hbm_bytes, sram_bytes }
    }
}

impl Default for Demand {
    fn default() -> (demand: Self)
        ensures
            demand == (Demand { flops: 0, hbm_bytes: 0, sram_bytes: 0 }),
    {
        Demand { flops: 0, hbm_bytes: 0, sram_bytes: 0 }
    }
}

/// The demand of an account.
pub open spec fn demand_of(a: Account) -> Demand {
    Demand { flops: a.flops, hbm_bytes: a.hbm_bytes, sram_bytes: a.sram_bytes }
}

impl From<&Account> for Demand {
    fn from(a: &Account) -> (demand: Self) {
        Demand { flops: a.flops, hbm_bytes: a.hbm_bytes, sram_bytes: a.sram_bytes }
    }
}

impl FromSpecImpl<&Account> for Demand {
    open spec fn obeys_from_spec() -> bool {
        true
    }

    open spec fn from_spec(a: &Account) -> Self {
        demand_of(*a)
    }
}

// ---- Constraints ----

/// The characters of a resource's name.
pub type Label = Seq<char>;

/// One physical resource: a lower bound on the time that a plan takes.
pub trait Constraint {
    /// The name of the resource.
    spec fn label(&self) -> Label;

    /// The least time that this resource needs for `demand`.
    spec fn bound(&self, demand: Demand) -> Time;

    fn name(&self) -> (name: &str)
        ensures
            name@ == self.label(),
    ;

    fn lower_bound_s(&self, demand: &Demand) -> (time: Seconds)
        ensures
            time@ == self.bound(*demand),
            self.bound(*demand).valid(),
    ;
}

/// Compute: `flops / peak_flops`.
#[derive(Clone, Copy, Debug)]
pub struct FlopsConstraint {
    device: Device,
}

impl FlopsConstraint {
    #[verifier::type_invariant]
    spec fn has_rate(self) -> bool {
        self.device.peak_flops > 0
    }

    pub closed spec fn device(self) -> Device {
        self.device
    }

    pub fn new(device: Device) -> (constraint: Self)
        requires
            device.peak_flops > 0,
        ensures
            constraint.device() == device,
    {
        FlopsConstraint { device }
    }
}

impl Constraint for FlopsConstraint {
    open spec fn label(&self) -> Label {
        "Flops"@
    }

    open spec fn bound(&self, demand: Demand) -> Time {
        Time::Finite { num: demand.flops as nat, den: self.device().peak_flops as nat }
    }

    fn name(&self) -> (name: &str) {
        "Flops"
    }

    fn lower_bound_s(&self, demand: &Demand) -> (time: Seconds) {
        proof {
            use_type_invariant(self);
        }
        Seconds::ratio(demand.flops, self.device.peak_flops)
    }
}

/// Memory traffic: `hbm_bytes / hbm_bandwidth`.
#[derive(Clone, Copy, Debug)]
pub struct HbmConstraint {
    device: Device,
}

impl HbmConstraint {
    #[verifier::type_invariant]
    spec fn has_rate(self) -> bool {
        self.device.hbm_bandwidth > 0
    }

    pub closed spec fn device(self) -> Device {
        self.device
    }

    pub fn new(device: Device) -> (constraint: Self)
        requires
            device.hbm_bandwidth > 0,
        ensures
            constraint.device() == device,
    {
        HbmConstraint { device }
    }
}

impl Constraint for HbmConstraint {
    open spec fn label(&self) -> Label {
        "HbmBytes"@
    }

    open spec fn bound(&self, demand: Demand) -> Time {
        Time::Finite { num: demand.hbm_bytes as nat, den: self.device().hbm_bandwidth as nat }
    }

    fn name(&self) -> (name: &str) {
        "HbmBytes"
    }

    fn lower_bound_s(&self, demand: &Demand) -> (time: Seconds) {
        proof {
            use_type_invariant(self);
        }
        Seconds::ratio(demand.hbm_bytes, self.device.hbm_bandwidth)
    }
}

/// SRAM capacity. A plan whose fused working set fits contributes no time floor. One that does
/// not fit cannot run as scheduled at all, so its lower bound is infinite.
#[derive(Clone, Copy, Debug)]
pub struct SramConstraint {
    device: Device,
}

impl SramConstraint {
    pub closed spec fn device(self) -> Device {
        self.device
    }

    pub fn new(device: Device) -> (constraint: Self)
        ensures
            constraint.device() == device,
    {
        SramConstraint { device }
    }
}

impl Constraint for SramConstraint {
    open spec fn label(&self) -> Label {
        "SramBytes"@
    }

    open spec fn bound(&self, demand: Demand) -> Time {
        if demand.sram_bytes <= self.device().sram_bytes {
            Time::zero()
        } else {
            Time::Infinite
        }
    }

    fn name(&self) -> (name: &str) {
        "SramBytes"
    }

    fn lower_bound_s(&self, demand: &Demand) -> (time: Seconds) {
        if demand.sram_bytes <= self.device.sram_bytes {
            Seconds::zero()
        } else {
            Seconds::Infinite
        }
    }
}

// ---- Cost model ----

/// One line of an analysis: the resource and the time that it needs at least.
pub type Line = (Label, Time);

/// The bounds of all constraints, in order.
pub open spec fn bounds(constraints: Seq<Plugged>, demand: Demand) -> Seq<Line> {
    Seq::new(
        constraints.len(),
        |i: int| (constraints[i].constraint.label(), constraints[i].constraint.bound(demand)),
    )
}

/// `lines` with `line` behind every line that is not shorter than it.
pub open spec fn placed(lines: Seq<Line>, line: Line) -> Seq<Line>
    decreases lines.len(),
{
    if lines.len() > 0 && lines.last().1.less(line.1) {
        placed(lines.drop_last(), line).push(lines.last())
    } else {
        lines.push(line)
    }
}

/// `lines` with the slowest first; equally slow ones keep their order.
pub open spec fn ranked(lines: Seq<Line>) -> Seq<Line>
    decreases lines.len(),
{
    if lines.len() == 0 {
        lines
    } else {
        placed(ranked(lines.drop_last()), lines.last())
    }
}

/// The time of the slowest resource; no time where there is no constraint.
pub open spec fn slowest(lines: Seq<Line>) -> Line {
    if lines.len() == 0 {
        ("none"@, Time::zero())
    } else {
        ranked(lines)[0]
    }
}

/// A constraint of a model, of whatever kind.
pub struct Plugged {
    pub constraint: Box<dyn Constraint>,
}

impl Plugged {
    /// Whether this is the constraint with that name and those bounds.
    pub open spec fn is(self, label: Seq<char>, bound: spec_fn(Demand) -> Time) -> bool {
        &&& self.constraint.label() == label
        &&& forall|demand: Demand| #[trigger] self.constraint.bound(demand) == bound(demand)
    }
}

impl FlopsConstraint {
    /// The constraint, ready to be added to a model.
    pub fn plug(self) -> (p: Plugged)
        ensures
            p.is(self.label(), |demand: Demand| self.bound(demand)),
    {
        Plugged { constraint: Box::new(self) }
    }
}

impl HbmConstraint {
    /// The constraint, ready to be added to a model.
    pub fn plug(self) -> (p: Plugged)
        ensures
            p.is(self.label(), |demand: Demand| self.bound(demand)),
    {
        Plugged { constraint: Box::new(self) }
    }
}

impl SramConstraint {
    /// The constraint, ready to be added to a model.
    pub fn plug(self) -> (p: Plugged)
        ensures
            p.is(self.label(), |demand: Demand| self.bound(demand)),
    {
        Plugged { constraint: Box::new(self) }
    }
}

/// The set of constraints that a plan is judged by.
pub struct CostModel {
    pub constraints: Vec<Plugged>,
}

pub open spec fn lines_view(times: Seq<(String, Seconds)>) -> Seq<Line> {
    times.map_values(|t: (String, Seconds)| (t.0@, t.1@))
}

fn place(times: &mut Vec<(String, Seconds)>, name: String, time: Seconds)
    ensures
        lines_view(final(times)@) == placed(lines_view(old(times)@), (name@, time@)),
{
    let ghost line: Line = (name@, time@);
    let ghost before = lines_view(times@);
    let n: usize = times.len();
    let mut i: usize = n;
    assert(before.take(n as int) =~= before);
    assert(before.skip(n as int) =~= Seq::<Line>::empty());
    assert(placed(before, line) =~= placed(before.take(n as int), line) + before.skip(n as int));
    while i > 0 && times[i - 1].1.less(&time)
        invariant
            i <= n,
            n == times@.len(),
            times@ == old(times)@,
            before == lines_view(times@),
            line.1 == time@,
            placed(before, line) == placed(before.take(i as int), line) + before.skip(i as int),
        decreases i,
    {
        proof {
            let front = before.take(i as int);
            assert(front.last() == before[i - 1]);
            assert(front.drop_last() =~= before.take(i - 1));
            assert(placed(before.take(i - 1), line).push(before[i - 1]) + before.skip(i as int)
                =~= placed(before.take(i - 1), line) + before.skip(i - 1));
        }
        i = i - 1;
    }
    proof {
        let front = before.take(i as int);
        if i > 0 {
            assert(front.last() == before[i - 1]);
        }
        assert(placed(front, line) == front.push(line));
    }
    times.insert(i, (name, time));
    assert(lines_view(times@) =~= before.take(i as int).push(line) + before.skip(i as int));
}

impl CostModel {
    /// The bounds of the model's constraints, in order.
    pub open spec fn bounds(self, demand: Demand) -> Seq<Line> {
        bounds(self.constraints@, demand)
    }

    /// The time that the model gives a plan with this demand.
    pub open spec fn time(self, demand: Demand) -> Time {
        slowest(self.bounds(demand)).1
    }

    /// The model without constraints.
    pub fn new() -> (model: Self)
        ensures
            model.constraints@ == Seq::<Plugged>::empty(),
    {
        CostModel { constraints: Vec::new() }
    }

    /// The model with one constraint more.
    pub fn add(self, c: Plugged) -> (model: Self)
        ensures
            model.constraints@ == self.constraints@.push(c),
    {
        let mut constraints = self.constraints;
        constraints.push(c);
        CostModel { constraints }
    }

    /// The time of the slowest resource, its name, and the bound of every constraint, the slowest
    /// first.
    pub fn cost(&self, demand: &Demand) -> (cost: (Seconds, String, Vec<(String, Seconds)>))
        ensures
            lines_view(cost.2@) == ranked(self.bounds(*demand)),
            cost.1@ == slowest(self.bounds(*demand)).0,
            cost.0@ == self.time(*demand),
            cost.0@.valid(),
    {
        let ghost all = self.bounds(*demand);
        let mut times: Vec<(String, Seconds)> = Vec::new();
        let mut i: usize = 0;
        assert(lines_view(times@) =~= ranked(all.take(0)));
        while i < self.constraints.len()
            invariant
                i <= self.constraints@.len(),
                all == self.bounds(*demand),
                lines_view(times@) == ranked(all.take(i as int)),
                forall|k: int| 0 <= k < i ==> (#[trigger] all[k]).1.valid(),
            decreases self.constraints@.len() - i,
        {
            let name = self.constraints[i].constraint.name().to_owned();
            let time = self.constraints[i].constraint.lower_bound_s(demand);
            assert(all.take(i as int + 1).drop_last() =~= all.take(i as int));
            assert(all.take(i as int + 1).last() == all[i as int]);
            place(&mut times, name, time);
            i = i + 1;
        }
        assert(all.take(self.constraints@.len() as int) =~= all);
        proof {
            lemma_ranked_len(all);
            lemma_ranked_from(all);
        }
        if times.len() == 0 {
            (Seconds::zero(), "none".to_owned(), times)
        } else {
            assert(lines_view(times@)[0] == (times@[0].0@, times@[0].1@));
            let time = times[0].1.copy();
            let name = times[0].0.clone();
            (time, name, times)
        }
    }
}

impl Default for CostModel {
    fn default() -> (model: Self)
        ensures
            model.constraints@ == Seq::<Plugged>::empty(),
    {
        CostModel::new()
    }
}

proof fn lemma_placed_len(lines: Seq<Line>, line: Line)
    ensures
        placed(lines, line).len() == lines.len() + 1,
    decreases lines.len(),
{
    if lines.len() > 0 {
        lemma_placed_len(lines.drop_last(), line);
    }
}

proof fn lemma_ranked_len(lines: Seq<Line>)
    ensures
        ranked(lines).len() == lines.len(),
    decreases lines.len(),
{
    if lines.len() > 0 {
        lemma_ranked_len(lines.drop_last());
        lemma_placed_len(ranked(lines.drop_last()), lines.last());
    }
}

/// Ranking rearranges the lines and loses none.
proof fn lemma_ranked_multiset(lines: Seq<Line>)
    ensures
        ranked(lines).to_multiset() == lines.to_multiset(),
    decreases lines.len(),
{
    broadcast use vstd::seq_lib::group_to_multiset_ensures;

    if lines.len() > 0 {
        lemma_ranked_multiset(lines.drop_last());
        lemma_placed_multiset(ranked(lines.drop_last()), lines.last());
        assert(lines =~= lines.drop_last().push(lines.last()));
    }
}

proof fn lemma_placed_multiset(lines: Seq<Line>, line: Line)
    ensures
        placed(lines, line).to_multiset() == lines.to_multiset().insert(line),
    decreases lines.len(),
{
    broadcast use vstd::seq_lib::group_to_multiset_ensures;

    if lines.len() > 0 && lines.last().1.less(line.1) {
        lemma_placed_multiset(lines.drop_last(), line);
        assert(lines =~= lines.drop_last().push(lines.last()));
        assert(placed(lines, line).to_multiset() =~= lines.to_multiset().insert(line));
    }
}

/// Every ranked line is one of the lines.
proof fn lemma_ranked_from(lines: Seq<Line>)
    ensures
        forall|i: int| 0 <= i < lines.len() ==> lines.contains(#[trigger] ranked(lines)[i]),
{
    broadcast use vstd::seq_lib::group_to_multiset_ensures;

    lemma_ranked_multiset(lines);
    lemma_ranked_len(lines);
    assert forall|i: int| 0 <= i < lines.len() implies lines.contains(#[trigger] ranked(lines)[i]) by {
        assert(ranked(lines).contains(ranked(lines)[i]));
        assert(ranked(lines).to_multiset().count(ranked(lines)[i]) > 0);
        assert(lines.to_multiset().count(ranked(lines)[i]) > 0);
    }
}

// ---- Laws ----

/// Whether every line is a proper time.
pub open spec fn all_valid(lines: Seq<Line>) -> bool {
    forall|i: int| 0 <= i < lines.len() ==> (#[trigger] lines[i]).1.valid()
}

/// Whether no line is shorter than a later one.
pub open spec fn slowest_first(lines: Seq<Line>) -> bool {
    forall|i: int, j: int|
        0 <= i <= j < lines.len() ==> !(#[trigger] lines[i]).1.less((#[trigger] lines[j]).1)
}

proof fn lemma_placed(lines: Seq<Line>, line: Line)
    requires
        all_valid(lines),
        line.1.valid(),
        slowest_first(lines),
    ensures
        all_valid(placed(lines, line)),
        slowest_first(placed(lines, line)),
        forall|i: int|
            0 <= i < placed(lines, line).len() ==> #[trigger] placed(lines, line)[i] == line
                || lines.contains(placed(lines, line)[i]),
    decreases lines.len(),
{
    let after = placed(lines, line);
    time_order(line.1, line.1, line.1);
    if lines.len() > 0 && lines.last().1.less(line.1) {
        let front = lines.drop_last();
        lemma_placed(front, line);
        let inner = placed(front, line);
        lemma_placed_len(front, line);
        assert forall|i: int| 0 <= i < after.len() implies #[trigger] after[i] == line
            || lines.contains(after[i]) by {
            if i < inner.len() {
                assert(after[i] == inner[i]);
                if inner[i] != line {
                    let k = choose|k: int| 0 <= k < front.len() && front[k] == inner[i];
                    assert(lines[k] == inner[i]);
                }
            } else {
                assert(after[i] == lines[lines.len() - 1]);
            }
        }
        assert forall|i: int, j: int| 0 <= i <= j < after.len() implies !(
        #[trigger] after[i]).1.less((#[trigger] after[j]).1) by {
            if j < inner.len() {
                assert(!inner[i].1.less(inner[j].1));
            } else if i < inner.len() {
                assert(after[j] == lines.last());
                time_order(lines.last().1, line.1, lines.last().1);
                if inner[i] != line {
                    let k = choose|k: int| 0 <= k < front.len() && front[k] == inner[i];
                    assert(!lines[k].1.less(lines[lines.len() - 1].1));
                }
            } else {
                time_order(lines.last().1, line.1, lines.last().1);
            }
        }
    } else {
        assert forall|i: int, j: int| 0 <= i <= j < after.len() implies !(
        #[trigger] after[i]).1.less((#[trigger] after[j]).1) by {
            if j == lines.len() && i < j {
                assert(!lines[i].1.less(lines[lines.len() - 1].1));
                time_order(lines[i].1, lines.last().1, line.1);
            }
        }
        assert forall|i: int| 0 <= i < after.len() implies #[trigger] after[i] == line
            || lines.contains(after[i]) by {
            if i < lines.len() {
                assert(after[i] == lines[i]);
            }
        }
    }
}

/// The analysis of a plan lists the bound of every constraint, the slowest resource first.
pub proof fn ranking_is_sorted(lines: Seq<Line>)
    requires
        all_valid(lines),
    ensures
        slowest_first(ranked(lines)),
        all_valid(ranked(lines)),
        ranked(lines).to_multiset() == lines.to_multiset(),
    decreases lines.len(),
{
    lemma_ranked_multiset(lines);
    if lines.len() > 0 {
        ranking_is_sorted(lines.drop_last());
        lemma_placed(ranked(lines.drop_last()), lines.last());
    }
}

/// The cost of a plan is its slowest resource: the time is one of the bounds, and no bound is
/// longer.
pub proof fn cost_is_the_slowest_resource(lines: Seq<Line>)
    requires
        all_valid(lines),
        lines.len() > 0,
    ensures
        lines.contains(slowest(lines)),
        forall|i: int| 0 <= i < lines.len() ==> !slowest(lines).1.less((#[trigger] lines[i]).1),
{
    broadcast use vstd::seq_lib::group_to_multiset_ensures;

    ranking_is_sorted(lines);
    lemma_ranked_from(lines);
    lemma_ranked_len(lines);
    let all = ranked(lines);
    assert(lines.contains(all[0]));
    assert forall|i: int| 0 <= i < lines.len() implies !slowest(lines).1.less(
        (#[trigger] lines[i]).1,
    ) by {
        assert(lines.contains(lines[i]));
        assert(lines.to_multiset().count(lines[i]) > 0);
        assert(all.to_multiset().count(lines[i]) > 0);
        assert(all.contains(lines[i]));
        let k = choose|k: int| 0 <= k < all.len() && all[k] == lines[i];
        assert(!all[0].1.less(all[k].1));
    }
}

/// A further constraint never makes a plan cheaper.
pub proof fn constraints_only_add_cost(lines: Seq<Line>, line: Line)
    requires
        all_valid(lines),
        line.1.valid(),
    ensures
        !slowest(lines.push(line)).1.less(slowest(lines).1),
{
    let more = lines.push(line);
    assert(all_valid(more)) by {
        assert forall|i: int| 0 <= i < more.len() implies (#[trigger] more[i]).1.valid() by {
            if i < lines.len() {
                assert(lines[i].1.valid());
            }
        }
    }
    cost_is_the_slowest_resource(more);
    if lines.len() > 0 {
        cost_is_the_slowest_resource(lines);
        let k = choose|k: int| 0 <= k < lines.len() && lines[k] == slowest(lines);
        assert(more[k] == lines[k]);
    }
}

/// A plan costs infinitely long exactly if some resource says that it cannot run at all.
pub proof fn infeasible_plans_never_finish(lines: Seq<Line>)
    requires
        all_valid(lines),
    ensures
        slowest(lines).1 is Infinite <==> exists|i: int|
            0 <= i < lines.len() && (#[trigger] lines[i]).1 is Infinite,
{
    if lines.len() > 0 {
        cost_is_the_slowest_resource(lines);
        if exists|i: int| 0 <= i < lines.len() && (#[trigger] lines[i]).1 is Infinite {
            let i = choose|i: int| 0 <= i < lines.len() && (#[trigger] lines[i]).1 is Infinite;
            assert(!slowest(lines).1.less(lines[i].1));
        } else {
            let k = choose|k: int| 0 <= k < lines.len() && lines[k] == slowest(lines);
            assert(!(lines[k].1 is Infinite));
        }
    }
}

} // verus!
