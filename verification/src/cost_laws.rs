//! What times mean: work over rate, the slowest resource, and how much shorter a plan must be to be
//! taken.
use crate::account::{account_of, Account};
use crate::cost::{
    all_valid, demand_of, intensity_of, placed, ranked, ranking_is_sorted, slowest, slowest_first,
    Constraint, CostModel, Demand, FlopsConstraint, HbmConstraint, Line, SramConstraint,
};
use crate::extract::{
    candidate_time, cheaper_form, fused_plan, is_selected, nearly_cheapest, plan_time,
};
use crate::ir::Node;
use crate::seconds::{time_order, Time};
use vstd::prelude::*;

verus! {

// ---- Bounds ----

/// A bound is work over rate: the flops take the time that the device needs for them at its peak,
/// the bytes that which it needs at its bandwidth. A working set takes no time where it fits, and
/// cannot be had where it does not.
pub proof fn bounds_are_work_over_rate(
    f: FlopsConstraint,
    h: HbmConstraint,
    s: SramConstraint,
    demand: Demand,
)
    ensures
        f.bound(demand) matches Time::Finite { num, den } && num * f.device().peak_flops
            == demand.flops * den && (f.device().peak_flops > 0 ==> den > 0),
        h.bound(demand) matches Time::Finite { num, den } && num * h.device().hbm_bandwidth
            == demand.hbm_bytes * den && (h.device().hbm_bandwidth > 0 ==> den > 0),
        s.bound(demand) is Infinite <==> s.device().sram_bytes < demand.sram_bytes,
        s.bound(demand) matches Time::Finite { num, den } ==> num == 0 && den > 0,
        f.label() != h.label() && f.label() != s.label() && h.label() != s.label(),
{
    reveal_strlit("Flops");
    reveal_strlit("HbmBytes");
    reveal_strlit("SramBytes");
    assert("Flops"@.len() == 5 && "HbmBytes"@.len() == 8 && "SramBytes"@.len() == 9);
}

/// A model holds every constraint to the same demand, in the order in which they were added.
pub proof fn models_ask_every_constraint(model: CostModel, demand: Demand, i: int)
    requires
        0 <= i < model.constraints@.len(),
    ensures
        model.bounds(demand).len() == model.constraints@.len(),
        model.bounds(demand)[i].0 == model.constraints@[i].constraint.label(),
        model.bounds(demand)[i].1 == model.constraints@[i].constraint.bound(demand),
{
}

proof fn lemma_first_placed(lines: Seq<Line>, line: Line)
    requires
        all_valid(lines),
        line.1.valid(),
        slowest_first(lines),
        lines.len() > 0,
    ensures
        placed(lines, line).len() > 0,
        placed(lines, line)[0] == (if lines[0].1.less(line.1) {
            line
        } else {
            lines[0]
        }),
    decreases lines.len(),
{
    if lines.last().1.less(line.1) {
        let front = lines.drop_last();
        if front.len() > 0 {
            lemma_first_placed(front, line);
        } else {
            assert(placed(front, line) =~= seq![line]);
        }
    } else {
        let last = lines.len() - 1;
        assert(!lines[0].1.less(lines[last].1));
        time_order(lines[0].1, lines.last().1, line.1);
    }
}

/// The binding resource is the first of those that take longest: none takes longer, and all that
/// stand before it take less. Without a constraint there is none, and no time.
pub proof fn the_first_of_the_slowest_binds(lines: Seq<Line>)
    requires
        all_valid(lines),
    ensures
        lines.len() > 0 ==> exists|i: int|
            0 <= i < lines.len() && #[trigger] lines[i] == slowest(lines) && (forall|j: int|
                0 <= j < lines.len() ==> !lines[i].1.less((#[trigger] lines[j]).1)) && (forall|
                j: int,
            |
                0 <= j < i ==> (#[trigger] lines[j]).1.less(lines[i].1)),
        lines.len() == 0 ==> slowest(lines).1 == (Time::Finite { num: 0, den: 1 }),
    decreases lines.len(),
{
    if lines.len() > 0 {
        let front = lines.drop_last();
        let last = lines.len() - 1;
        let line = lines[last];
        the_first_of_the_slowest_binds(front);
        time_order(line.1, line.1, line.1);
        if front.len() > 0 {
            ranking_is_sorted(front);
            lemma_ranked_some(front);
            lemma_first_placed(ranked(front), line);
            let i = choose|i: int|
                0 <= i < front.len() && #[trigger] front[i] == slowest(front) && (forall|j: int|
                    0 <= j < front.len() ==> !front[i].1.less((#[trigger] front[j]).1)) && (forall|
                    j: int,
                |
                    0 <= j < i ==> (#[trigger] front[j]).1.less(front[i].1));
            assert(front[i].1.valid());
            if front[i].1.less(line.1) {
                assert(slowest(lines) == line);
                assert forall|j: int| 0 <= j < lines.len() implies !line.1.less(
                    (#[trigger] lines[j]).1,
                ) by {
                    if j < last {
                        assert(lines[j] == front[j]);
                        time_order(front[j].1, front[i].1, line.1);
                        time_order(line.1, front[i].1, front[j].1);
                        time_order(front[i].1, line.1, front[i].1);
                        time_order(line.1, front[j].1, line.1);
                        time_order(front[i].1, line.1, front[j].1);
                    }
                }
                assert forall|j: int| 0 <= j < last implies (#[trigger] lines[j]).1.less(
                    line.1,
                ) by {
                    assert(lines[j] == front[j]);
                    time_order(front[i].1, front[j].1, line.1);
                }
                assert(lines[last] == slowest(lines));
            } else {
                assert(slowest(lines) == front[i]);
                assert forall|j: int| 0 <= j < lines.len() implies !lines[i].1.less(
                    (#[trigger] lines[j]).1,
                ) by {
                    if j < last {
                        assert(lines[j] == front[j]);
                    }
                }
                assert forall|j: int| 0 <= j < i implies (#[trigger] lines[j]).1.less(
                    lines[i].1,
                ) by {
                    assert(lines[j] == front[j]);
                }
                assert(lines[i] == slowest(lines));
            }
        } else {
            assert(ranked(front) =~= front);
            assert(placed(front, line) =~= seq![line]);
            assert(lines[0] == slowest(lines));
        }
    }
}

proof fn lemma_ranked_some(lines: Seq<Line>)
    requires
        lines.len() > 0,
    ensures
        ranked(lines).len() > 0,
    decreases lines.len(),
{
    lemma_placed_some(ranked(lines.drop_last()), lines.last());
}

proof fn lemma_placed_some(lines: Seq<Line>, line: Line)
    ensures
        placed(lines, line).len() > 0,
    decreases lines.len(),
{
    if lines.len() > 0 && lines.last().1.less(line.1) {
        lemma_placed_some(lines.drop_last(), line);
    }
}

/// The intensity of a plan is its flops over its bytes, and zero where no byte moves.
pub proof fn intensity_is_flops_over_bytes(flops: u64, hbm_bytes: u64)
    ensures
        intensity_of(flops, hbm_bytes).den > 0,
        hbm_bytes > 0 ==> intensity_of(flops, hbm_bytes).num * hbm_bytes == flops * intensity_of(
            flops,
            hbm_bytes,
        ).den,
        hbm_bytes == 0 ==> intensity_of(flops, hbm_bytes).num == 0,
{
}

// ---- Plans ----

/// The time of a plan is that which the model gives what the accountant booked for it, and a plan
/// as one fused region is the plan with a fused node over its last one.
pub proof fn plans_are_timed_by_their_accounts(
    plan: Seq<Node>,
    shapes: Map<Seq<char>, Seq<usize>>,
    model: CostModel,
)
    ensures
        match (account_of(plan, shapes, plan.len() - 1), plan_time(plan, shapes, model)) {
            (Some(a), Some(t)) => t == model.time(
                Demand { flops: a.flops, hbm_bytes: a.hbm_bytes, sram_bytes: a.sram_bytes },
            ),
            (None, None) => true,
            _ => false,
        },
        fused_plan(plan).len() == plan.len() + 1,
        fused_plan(plan).last() == Node::Fuse(plan.len() - 1),
        forall|i: int| 0 <= i < plan.len() ==> #[trigger] fused_plan(plan)[i] == plan[i],
{
}

/// Fusion must pay: a plan is fused exactly if its fused form is shorter by more than a billionth
/// part, and is else left as it is. A form that cannot run is never taken for one that can.
pub proof fn fusion_must_pay(
    plan: Seq<Node>,
    shapes: Map<Seq<char>, Seq<usize>>,
    model: CostModel,
)
    ensures
        match (plan_time(plan, shapes, model), plan_time(fused_plan(plan), shapes, model)) {
            (Some(Time::Finite { num: a, den: b }), Some(Time::Finite { num: c, den: d })) => {
                &&& (c * b) * 1_000_000_000 < (a * d) * 999_999_999 ==> cheaper_form(
                    plan,
                    shapes,
                    model,
                ) == Some(fused_plan(plan))
                &&& !((c * b) * 1_000_000_000 < (a * d) * 999_999_999) ==> cheaper_form(
                    plan,
                    shapes,
                    model,
                ) == Some(plan)
            },
            (Some(_), Some(_)) => cheaper_form(plan, shapes, model) == Some(plan),
            _ => cheaper_form(plan, shapes, model) is None,
        },
{
}

/// Whether candidate `i` can run, and takes at most a thousandth part longer than every other.
pub open spec fn hardly_longer(
    candidates: Seq<Seq<Node>>,
    shapes: Map<Seq<char>, Seq<usize>>,
    model: CostModel,
    i: int,
) -> bool {
    &&& 0 <= i < candidates.len()
    &&& candidate_time(candidates, shapes, model, i) matches Time::Finite { num: a, den: b }
        && forall|j: int|
        0 <= j < candidates.len() ==> match #[trigger] candidate_time(
            candidates,
            shapes,
            model,
            j,
        ) {
            Time::Finite { num: c, den: d } => (a * d) * 1000 <= (c * b) * 1001,
            Time::Infinite => true,
        }
}

/// The candidate that is selected can run and takes at most a thousandth part longer than every
/// other, wherever there is such a candidate; of all these it has the fewest nodes, and of several
/// of those it is the first. Where no candidate can run, it is the first of all.
pub proof fn the_smallest_of_the_cheapest_is_selected(
    candidates: Seq<Seq<Node>>,
    shapes: Map<Seq<char>, Seq<usize>>,
    model: CostModel,
    i: int,
    j: int,
)
    requires
        is_selected(candidates, shapes, model, i),
    ensures
        hardly_longer(candidates, shapes, model, j) ==> {
            &&& hardly_longer(candidates, shapes, model, i)
            &&& candidates[i].len() <= candidates[j].len()
            &&& candidates[i].len() == candidates[j].len() ==> i <= j
        },
        (forall|k: int| !#[trigger] hardly_longer(candidates, shapes, model, k)) ==> i == 0,
{
    assert forall|k: int| #[trigger]
        hardly_longer(candidates, shapes, model, k) <==> nearly_cheapest(
        candidates,
        shapes,
        model,
        k,
    ) by {
        lemma_hardly_longer(candidates, shapes, model, k);
    }
    if exists|k: int| #[trigger] nearly_cheapest(candidates, shapes, model, k) {
        let k = choose|k: int| #[trigger]
            nearly_cheapest(candidates, shapes, model, k);
        assert(hardly_longer(candidates, shapes, model, k));
    }
}

proof fn lemma_hardly_longer(
    candidates: Seq<Seq<Node>>,
    shapes: Map<Seq<char>, Seq<usize>>,
    model: CostModel,
    k: int,
)
    ensures
        hardly_longer(candidates, shapes, model, k) <==> nearly_cheapest(
            candidates,
            shapes,
            model,
            k,
        ),
{
    let t = candidate_time(candidates, shapes, model, k);
    if hardly_longer(candidates, shapes, model, k) {
        assert forall|j: int| 0 <= j < candidates.len() implies t.within(
            #[trigger] candidate_time(candidates, shapes, model, j),
            1000,
        ) by {}
    }
    if nearly_cheapest(candidates, shapes, model, k) {
        assert forall|j: int| 0 <= j < candidates.len() implies t.within(
            #[trigger] candidate_time(candidates, shapes, model, j),
            1000,
        ) by {}
    }
}

/// The demand of an account is what it booked.
pub proof fn demands_are_what_was_booked(a: Account)
    ensures
        demand_of(a).flops == a.flops,
        demand_of(a).hbm_bytes == a.hbm_bytes,
        demand_of(a).sram_bytes == a.sram_bytes,
{
}

} // verus!
