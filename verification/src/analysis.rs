//! Roofline analysis: what binds a plan on a machine.
use crate::account::{account_of, try_account, Account};
use crate::cost::{intensity_of, lines_view, ranked, slowest, CostModel, Demand, Ratio};
use crate::ir::{attention_nodes, dims, naive_attention_program, Shapes};
use crate::names::NameMap;
use crate::seconds::Seconds;
use crate::text::{decimal, to_decimal};
use vstd::prelude::*;

verus! {

/// One line of an analysis: a plan's work and traffic, what binds it, and the bound of every
/// constraint, the slowest first.
#[derive(Debug)]
pub struct Analysis {
    pub label: String,
    pub flops: u64,
    pub hbm_bytes: u64,
    pub intensity: Ratio,
    pub binding: String,
    pub details: Vec<(String, Seconds)>,
}

impl CostModel {
    /// Analyses a plan that takes `flops` and moves `hbm_bytes`.
    pub fn analysis(&self, label: &str, flops: u64, hbm_bytes: u64) -> (a: Analysis)
        ensures
            a.label@ == label@,
            a.flops == flops,
            a.hbm_bytes == hbm_bytes,
            a.intensity == intensity_of(flops, hbm_bytes),
            ({
                let lines = self.bounds(Demand { flops, hbm_bytes, sram_bytes: 0 });
                a.binding@ == slowest(lines).0 && lines_view(a.details@) == ranked(lines)
            }),
    {
        let intensity = Account { flops, hbm_bytes, sram_bytes: 0 }.intensity();
        let (_, binding, details) = self.cost(&Demand::new(flops, hbm_bytes));
        Analysis { label: label.to_owned(), flops, hbm_bytes, intensity, binding, details }
    }
}

/// The shapes of the inputs of attention over `s` positions of width `d`.
pub open spec fn attention_dims(s: usize, d: usize) -> Map<Seq<char>, Seq<usize>> {
    Map::<Seq<char>, Seq<usize>>::empty().insert("Q_sd"@, seq![s, d]).insert(
        "K_sd"@,
        seq![s, d],
    ).insert("V_sd"@, seq![s, d]).insert("scale"@, seq![1usize])
}

/// The shapes of the inputs of attention.
pub fn attention_shapes(s: usize, d: usize) -> (shapes: Shapes)
    ensures
        dims(shapes) == attention_dims(s, d),
{
    let mut shapes: Shapes = NameMap::new();
    let sd: Vec<usize> = vec![s, d];
    let one: Vec<usize> = vec![1];
    assert(sd@ =~= seq![s, d]);
    assert(one@ =~= seq![1usize]);
    shapes.insert("Q_sd", sd.clone());
    shapes.insert("K_sd", sd.clone());
    shapes.insert("V_sd", sd);
    shapes.insert("scale", one);
    assert(dims(shapes) =~= attention_dims(s, d));
    shapes
}

/// The shapes of the inputs of the MLP over `s` positions of width `d` with hidden width `f`.
pub open spec fn mlp_dims(s: usize, d: usize, f: usize) -> Map<Seq<char>, Seq<usize>> {
    Map::<Seq<char>, Seq<usize>>::empty().insert("X_sd"@, seq![s, d]).insert(
        "W_up_df"@,
        seq![d, f],
    ).insert("W_dn_fd"@, seq![f, d])
}

/// The shapes of the inputs of the MLP.
pub fn mlp_shapes(s: usize, d: usize, f: usize) -> (shapes: Shapes)
    ensures
        dims(shapes) == mlp_dims(s, d, f),
{
    let mut shapes: Shapes = NameMap::new();
    let sd: Vec<usize> = vec![s, d];
    let df: Vec<usize> = vec![d, f];
    let fd: Vec<usize> = vec![f, d];
    assert(sd@ =~= seq![s, d]);
    assert(df@ =~= seq![d, f]);
    assert(fd@ =~= seq![f, d]);
    shapes.insert("X_sd", sd);
    shapes.insert("W_up_df", df);
    shapes.insert("W_dn_fd", fd);
    assert(dims(shapes) =~= mlp_dims(s, d, f));
    shapes
}

/// Analyses naive attention over `s` positions of width `d`. Nothing where it has no account that
/// 64 bits hold.
pub fn analyze_attention(cost: &CostModel, s: usize, d: usize) -> (a: Option<Analysis>)
    ensures
        match (a, account_of(attention_nodes(), attention_dims(s, d), 8)) {
            (Some(a), Some(acc)) => {
                let lines = cost.bounds(
                    Demand { flops: acc.flops, hbm_bytes: acc.hbm_bytes, sram_bytes: 0 },
                );
                &&& a.label@ == "attn_s"@ + decimal(s as nat) + "_"@ + decimal(d as nat)
                &&& a.flops == acc.flops
                &&& a.hbm_bytes == acc.hbm_bytes
                &&& a.intensity == intensity_of(acc.flops, acc.hbm_bytes)
                &&& a.binding@ == slowest(lines).0
                &&& lines_view(a.details@) == ranked(lines)
            },
            (None, None) => true,
            _ => false,
        },
{
    let shapes = attention_shapes(s, d);
    let (expr, root) = naive_attention_program();
    match try_account(&expr, root, &shapes) {
        Some(acc) => {
            let mut label = "attn_s".to_owned();
            label.append(to_decimal(s as u64).as_str());
            label.append("_");
            label.append(to_decimal(d as u64).as_str());
            Some(cost.analysis(label.as_str(), acc.flops, acc.hbm_bytes))
        },
        None => None,
    }
}

} // verus!
