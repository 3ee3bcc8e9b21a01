//! The rewrite rules: the algebra of the IR, and producer/consumer fusion.
use crate::ir::{
    emul_shape, inferred_shape, lemma_numel_one, matmul_shape, scalar_shape, scales_by,
    transpose_shape, Node,
};
use crate::text::decimal;
use vstd::prelude::*;

verus! {

/// A variable of a pattern.
#[derive(Clone, Copy, Debug, PartialEq, Eq, Structural)]
pub enum Hole {
    A,
    B,
    C,
    S,
    V,
    X,
}

/// A term with holes.
#[derive(Debug)]
pub enum Pattern {
    Any(Hole),
    MatMul(Box<Pattern>, Box<Pattern>),
    Transpose(Box<Pattern>),
    EMul(Box<Pattern>, Box<Pattern>),
    Softmax(Box<Pattern>),
    Relu(Box<Pattern>),
    Fuse(Box<Pattern>),
}

/// A rule: where `lhs` occurs, `rhs` computes the same value.
#[derive(Debug)]
pub struct Rule {
    pub name: &'static str,
    pub lhs: Pattern,
    pub rhs: Pattern,
}

/// What a `Rule` stands for. Where a term is `given`, as the last node of a program, the rule is
/// meant only where the hole `?s` stands for what is equal to that term.
pub struct Equation {
    pub name: Seq<char>,
    pub lhs: Pattern,
    pub rhs: Pattern,
    pub given: Option<Seq<Node>>,
}

impl View for Rule {
    type V = Equation;

    open spec fn view(&self) -> Equation {
        equation(self.name@, self.lhs, self.rhs)
    }
}

// ---- Notation ----

impl Hole {
    /// The hole as it is written: a question mark and a letter.
    pub open spec fn text(self) -> Seq<char> {
        match self {
            Hole::A => "?a"@,
            Hole::B => "?b"@,
            Hole::C => "?c"@,
            Hole::S => "?s"@,
            Hole::V => "?v"@,
            Hole::X => "?x"@,
        }
    }

    pub fn as_str(self) -> (text: &'static str)
        ensures
            text@ == self.text(),
    {
        match self {
            Hole::A => "?a",
            Hole::B => "?b",
            Hole::C => "?c",
            Hole::S => "?s",
            Hole::V => "?v",
            Hole::X => "?x",
        }
    }
}

impl Pattern {
    /// The pattern as an s-expression.
    pub open spec fn text(self) -> Seq<char>
        decreases self,
    {
        match self {
            Pattern::Any(hole) => hole.text(),
            Pattern::MatMul(a, b) => "(matmul "@ + a.text() + " "@ + b.text() + ")"@,
            Pattern::Transpose(a) => "(transpose "@ + a.text() + ")"@,
            Pattern::EMul(a, b) => "(emul "@ + a.text() + " "@ + b.text() + ")"@,
            Pattern::Softmax(a) => "(softmax "@ + a.text() + ")"@,
            Pattern::Relu(a) => "(relu "@ + a.text() + ")"@,
            Pattern::Fuse(a) => "(fuse "@ + a.text() + ")"@,
        }
    }

    /// Writes the pattern as an s-expression.
    pub fn render(&self) -> (text: String)
        ensures
            text@ == self.text(),
        decreases self,
    {
        match self {
            Pattern::Any(hole) => hole.as_str().to_owned(),
            Pattern::MatMul(a, b) => enclose2("(matmul ", a.render(), b.render()),
            Pattern::Transpose(a) => enclose("(transpose ", a.render()),
            Pattern::EMul(a, b) => enclose2("(emul ", a.render(), b.render()),
            Pattern::Softmax(a) => enclose("(softmax ", a.render()),
            Pattern::Relu(a) => enclose("(relu ", a.render()),
            Pattern::Fuse(a) => enclose("(fuse ", a.render()),
        }
    }

    /// Whether the hole occurs in the pattern.
    pub open spec fn mentions(self, hole: Hole) -> bool
        decreases self,
    {
        match self {
            Pattern::Any(h) => h == hole,
            Pattern::MatMul(a, b) => a.mentions(hole) || b.mentions(hole),
            Pattern::EMul(a, b) => a.mentions(hole) || b.mentions(hole),
            Pattern::Transpose(a) => a.mentions(hole),
            Pattern::Softmax(a) => a.mentions(hole),
            Pattern::Relu(a) => a.mentions(hole),
            Pattern::Fuse(a) => a.mentions(hole),
        }
    }
}

fn enclose(open: &str, a: String) -> (text: String)
    ensures
        text@ == open@ + a@ + ")"@,
{
    let mut text = open.to_owned();
    text.append(a.as_str());
    text.append(")");
    text
}

fn enclose2(open: &str, a: String, b: String) -> (text: String)
    ensures
        text@ == open@ + a@ + " "@ + b@ + ")"@,
{
    let mut text = open.to_owned();
    text.append(a.as_str());
    text.append(" ");
    text.append(b.as_str());
    text.append(")");
    text
}

// ---- Building patterns ----

pub open spec fn any(hole: Hole) -> Pattern {
    Pattern::Any(hole)
}

pub open spec fn matmul(a: Pattern, b: Pattern) -> Pattern {
    Pattern::MatMul(Box::new(a), Box::new(b))
}

pub open spec fn transpose(a: Pattern) -> Pattern {
    Pattern::Transpose(Box::new(a))
}

pub open spec fn emul(a: Pattern, b: Pattern) -> Pattern {
    Pattern::EMul(Box::new(a), Box::new(b))
}

pub open spec fn softmax(a: Pattern) -> Pattern {
    Pattern::Softmax(Box::new(a))
}

pub open spec fn relu(a: Pattern) -> Pattern {
    Pattern::Relu(Box::new(a))
}

pub open spec fn fuse(a: Pattern) -> Pattern {
    Pattern::Fuse(Box::new(a))
}

fn p(hole: Hole) -> (pattern: Box<Pattern>)
    ensures
        *pattern == any(hole),
{
    Box::new(Pattern::Any(hole))
}

fn p_matmul(a: Box<Pattern>, b: Box<Pattern>) -> (pattern: Box<Pattern>)
    ensures
        *pattern == matmul(*a, *b),
{
    Box::new(Pattern::MatMul(a, b))
}

fn p_transpose(a: Box<Pattern>) -> (pattern: Box<Pattern>)
    ensures
        *pattern == transpose(*a),
{
    Box::new(Pattern::Transpose(a))
}

fn p_emul(a: Box<Pattern>, b: Box<Pattern>) -> (pattern: Box<Pattern>)
    ensures
        *pattern == emul(*a, *b),
{
    Box::new(Pattern::EMul(a, b))
}

fn rule(name: &'static str, lhs: Box<Pattern>, rhs: Box<Pattern>) -> (rule: Rule)
    ensures
        rule@ == equation(name@, *lhs, *rhs),
{
    Rule { name, lhs: *lhs, rhs: *rhs }
}

// ---- The rules ----

pub open spec fn equation(name: Seq<char>, lhs: Pattern, rhs: Pattern) -> Equation {
    Equation { name, lhs, rhs, given: None }
}

/// Matrix products associate.
pub open spec fn matmul_assoc_rules() -> Seq<Equation> {
    let (a, b, c) = (any(Hole::A), any(Hole::B), any(Hole::C));
    seq![
        equation("matmul-assoc-l"@, matmul(matmul(a, b), c), matmul(a, matmul(b, c))),
        equation("matmul-assoc-r"@, matmul(a, matmul(b, c)), matmul(matmul(a, b), c)),
    ]
}

/// A transposed product is the product of the transposes in reverse.
pub open spec fn transpose_matmul_rules() -> Seq<Equation> {
    let (a, b) = (any(Hole::A), any(Hole::B));
    seq![
        equation("transpose-matmul"@, transpose(matmul(a, b)), matmul(transpose(b), transpose(a))),
        equation(
            "matmul-transpose-rev"@,
            matmul(transpose(a), transpose(b)),
            transpose(matmul(b, a)),
        ),
    ]
}

/// A number moves through a matrix product. The hole `?s` stands for a number, so a search uses
/// these rules only for the terms that are known to be numbers.
pub open spec fn scale_distrib_rules() -> Seq<Equation> {
    let (a, b, s) = (any(Hole::A), any(Hole::B), any(Hole::S));
    seq![
        equation("scale-distrib-l"@, matmul(emul(a, s), b), emul(matmul(a, b), s)),
        equation("scale-distrib-r"@, matmul(a, emul(b, s)), emul(matmul(a, b), s)),
        equation("scale-distrib-rev-l"@, emul(matmul(a, b), s), matmul(emul(a, s), b)),
        equation("scale-distrib-rev-r"@, emul(matmul(a, b), s), matmul(a, emul(b, s))),
    ]
}

/// A producer that a matrix product consumes at once can run with it as one kernel.
pub open spec fn fusion_rules() -> Seq<Equation> {
    let (v, x) = (any(Hole::V), any(Hole::X));
    seq![
        equation("fuse-softmax-matmul"@, matmul(softmax(x), v), fuse(matmul(softmax(x), v))),
        equation("fuse-relu-matmul"@, matmul(relu(x), v), fuse(matmul(relu(x), v))),
    ]
}

/// All rules.
pub open spec fn all_rules() -> Seq<Equation> {
    matmul_assoc_rules() + transpose_matmul_rules() + scale_distrib_rules() + fusion_rules()
}

/// The rules that hold whatever shapes the operands have.
pub open spec fn unconditional_rules() -> Seq<Equation> {
    matmul_assoc_rules() + transpose_matmul_rules() + fusion_rules()
}

/// The rules that move the number at node `b` of a program through matrix products.
pub open spec fn scale_rules_of(program: Seq<Node>, b: int) -> Seq<Equation> {
    scale_distrib_rules().map_values(
        |e: Equation|
            Equation {
                name: e.name + "-"@ + decimal(b as nat),
                lhs: e.lhs,
                rhs: e.rhs,
                given: Some(program.take(b + 1)),
            },
    )
}

/// The rules that move numbers through matrix products, for the numbers that a program is known to
/// scale by among its first `count` nodes.
pub open spec fn scale_rules_in(
    program: Seq<Node>,
    inputs: Map<Seq<char>, Seq<usize>>,
    count: nat,
) -> Seq<Equation>
    decreases count,
{
    if count == 0 {
        seq![]
    } else {
        let before = scale_rules_in(program, inputs, (count - 1) as nat);
        if scales_by(program, inputs, count - 1) {
            before + scale_rules_of(program, count - 1)
        } else {
            before
        }
    }
}

/// The rules that a program of these input shapes is rewritten with: those that hold whatever the
/// shapes are, and those for each number that the program is known to scale by.
pub open spec fn rules_for(
    program: Seq<Node>,
    inputs: Map<Seq<char>, Seq<usize>>,
) -> Seq<Equation> {
    unconditional_rules() + scale_rules_in(program, inputs, program.len())
}

pub open spec fn equations(rules: Seq<Rule>) -> Seq<Equation> {
    rules.map_values(|r: Rule| r@)
}

fn matmul_assoc() -> (rules: Vec<Rule>)
    ensures
        equations(rules@) == matmul_assoc_rules(),
{
    let rules: Vec<Rule> = vec![
        rule(
            "matmul-assoc-l",
            p_matmul(p_matmul(p(Hole::A), p(Hole::B)), p(Hole::C)),
            p_matmul(p(Hole::A), p_matmul(p(Hole::B), p(Hole::C))),
        ),
        rule(
            "matmul-assoc-r",
            p_matmul(p(Hole::A), p_matmul(p(Hole::B), p(Hole::C))),
            p_matmul(p_matmul(p(Hole::A), p(Hole::B)), p(Hole::C)),
        ),
    ];
    assert(equations(rules@) =~= matmul_assoc_rules());
    rules
}

fn transpose_matmul() -> (rules: Vec<Rule>)
    ensures
        equations(rules@) == transpose_matmul_rules(),
{
    let rules: Vec<Rule> = vec![
        rule(
            "transpose-matmul",
            p_transpose(p_matmul(p(Hole::A), p(Hole::B))),
            p_matmul(p_transpose(p(Hole::B)), p_transpose(p(Hole::A))),
        ),
        rule(
            "matmul-transpose-rev",
            p_matmul(p_transpose(p(Hole::A)), p_transpose(p(Hole::B))),
            p_transpose(p_matmul(p(Hole::B), p(Hole::A))),
        ),
    ];
    assert(equations(rules@) =~= transpose_matmul_rules());
    rules
}

/// The rules for a number `?s`.
pub fn scale_distrib() -> (rules: Vec<Rule>)
    ensures
        equations(rules@) == scale_distrib_rules(),
{
    let rules: Vec<Rule> = vec![
        rule(
            "scale-distrib-l",
            p_matmul(p_emul(p(Hole::A), p(Hole::S)), p(Hole::B)),
            p_emul(p_matmul(p(Hole::A), p(Hole::B)), p(Hole::S)),
        ),
        rule(
            "scale-distrib-r",
            p_matmul(p(Hole::A), p_emul(p(Hole::B), p(Hole::S))),
            p_emul(p_matmul(p(Hole::A), p(Hole::B)), p(Hole::S)),
        ),
        rule(
            "scale-distrib-rev-l",
            p_emul(p_matmul(p(Hole::A), p(Hole::B)), p(Hole::S)),
            p_matmul(p_emul(p(Hole::A), p(Hole::S)), p(Hole::B)),
        ),
        rule(
            "scale-distrib-rev-r",
            p_emul(p_matmul(p(Hole::A), p(Hole::B)), p(Hole::S)),
            p_matmul(p(Hole::A), p_emul(p(Hole::B), p(Hole::S))),
        ),
    ];
    assert(equations(rules@) =~= scale_distrib_rules());
    rules
}

/// Producer/consumer fusion: a producer that a matmul consumes at once can run as one kernel with
/// it, so its output need not spill to HBM. On attention the softmax rule fires, on the MLP the
/// relu rule. The rules make the fused form reachable; the cost model decides whether to take it.
fn fusion() -> (rules: Vec<Rule>)
    ensures
        equations(rules@) == fusion_rules(),
{
    let rules: Vec<Rule> = vec![
        rule(
            "fuse-softmax-matmul",
            p_matmul(Box::new(Pattern::Softmax(p(Hole::X))), p(Hole::V)),
            Box::new(
                Pattern::Fuse(p_matmul(Box::new(Pattern::Softmax(p(Hole::X))), p(Hole::V))),
            ),
        ),
        rule(
            "fuse-relu-matmul",
            p_matmul(Box::new(Pattern::Relu(p(Hole::X))), p(Hole::V)),
            Box::new(Pattern::Fuse(p_matmul(Box::new(Pattern::Relu(p(Hole::X))), p(Hole::V)))),
        ),
    ];
    assert(equations(rules@) =~= fusion_rules());
    rules
}

/// All rules: the algebra first, then fusion.
pub fn all_rewrites() -> (rules: Vec<Rule>)
    ensures
        equations(rules@) == all_rules(),
{
    let mut rules: Vec<Rule> = matmul_assoc();
    let mut more = transpose_matmul();
    rules.append(&mut more);
    let mut more = scale_distrib();
    rules.append(&mut more);
    let mut more = fusion();
    rules.append(&mut more);
    assert(equations(rules@) =~= all_rules());
    rules
}

/// The rules that hold whatever shapes the operands have.
pub fn unconditional_rewrites() -> (rules: Vec<Rule>)
    ensures
        equations(rules@) == unconditional_rules(),
{
    let mut rules: Vec<Rule> = matmul_assoc();
    let mut more = transpose_matmul();
    rules.append(&mut more);
    let mut more = fusion();
    rules.append(&mut more);
    assert(equations(rules@) =~= unconditional_rules());
    rules
}

// ---- Laws ----

/// Whether `e` is one of the rules for the number at node `b` of a program.
pub open spec fn scales_at(
    e: Equation,
    program: Seq<Node>,
    inputs: Map<Seq<char>, Seq<usize>>,
    b: int,
) -> bool {
    &&& 0 <= b < program.len()
    &&& inferred_shape(program, inputs, b) == Some(scalar_shape())
    &&& e.given == Some(program.take(b + 1))
    &&& exists|k: int|
        0 <= k < 4 && e.lhs == (#[trigger] scale_distrib_rules()[k]).lhs && e.rhs
            == scale_distrib_rules()[k].rhs
}

proof fn lemma_scale_rules_in(
    program: Seq<Node>,
    inputs: Map<Seq<char>, Seq<usize>>,
    count: nat,
    i: int,
) -> (b: int)
    requires
        count <= program.len(),
        0 <= i < scale_rules_in(program, inputs, count).len(),
    ensures
        scales_at(scale_rules_in(program, inputs, count)[i], program, inputs, b),
    decreases count,
{
    let before = scale_rules_in(program, inputs, (count - 1) as nat);
    if i < before.len() {
        lemma_scale_rules_in(program, inputs, (count - 1) as nat, i)
    } else {
        let k = i - before.len();
        assert(scale_rules_of(program, count - 1).len() == 4);
        let e = scale_rules_in(program, inputs, count)[i];
        assert(e == scale_rules_of(program, count - 1)[k]);
        assert(e.lhs == scale_distrib_rules()[k].lhs);
        count - 1
    }
}

/// A number moves only as a number: every rule that a program is rewritten with either holds
/// whatever the shapes are, or moves one term of the program, whose shape is known to be `[1]`.
pub proof fn rules_move_only_numbers(
    program: Seq<Node>,
    inputs: Map<Seq<char>, Seq<usize>>,
    i: int,
)
    requires
        0 <= i < rules_for(program, inputs).len(),
    ensures
        ({
            let e = rules_for(program, inputs)[i];
            ||| i < 6 && e == unconditional_rules()[i] && e.given is None
            ||| exists|b: int| #[trigger] scales_at(e, program, inputs, b)
        }),
{
    assert(unconditional_rules().len() == 6);
    if i >= 6 {
        let b = lemma_scale_rules_in(program, inputs, program.len(), i - 6);
        assert(scales_at(rules_for(program, inputs)[i], program, inputs, b));
    }
}

/// The shape of a pattern whose holes stand for tensors of the given shapes.
pub open spec fn pattern_shape(p: Pattern, shape: spec_fn(Hole) -> Seq<usize>) -> Option<Seq<usize>>
    decreases p,
{
    match p {
        Pattern::Any(hole) => Some(shape(hole)),
        Pattern::MatMul(a, b) => match (pattern_shape(*a, shape), pattern_shape(*b, shape)) {
            (Some(sa), Some(sb)) => matmul_shape(sa, sb),
            _ => None,
        },
        Pattern::Transpose(a) => match pattern_shape(*a, shape) {
            Some(sa) => transpose_shape(sa),
            None => None,
        },
        Pattern::EMul(a, b) => match (pattern_shape(*a, shape), pattern_shape(*b, shape)) {
            (Some(sa), Some(sb)) => emul_shape(sa, sb),
            _ => None,
        },
        Pattern::Softmax(a) => pattern_shape(*a, shape),
        Pattern::Relu(a) => pattern_shape(*a, shape),
        Pattern::Fuse(a) => pattern_shape(*a, shape),
    }
}

proof fn lemma_shape_assoc(shape: spec_fn(Hole) -> Seq<usize>)
    ensures
        ({
            let (a, b, c) = (any(Hole::A), any(Hole::B), any(Hole::C));
            pattern_shape(matmul(matmul(a, b), c), shape) == pattern_shape(
                matmul(a, matmul(b, c)),
                shape,
            )
        }),
{
    reveal_with_fuel(pattern_shape, 3);
    let (a, b, c) = (shape(Hole::A), shape(Hole::B), shape(Hole::C));
    let (l, r) = (
        pattern_shape(matmul(matmul(any(Hole::A), any(Hole::B)), any(Hole::C)), shape),
        pattern_shape(matmul(any(Hole::A), matmul(any(Hole::B), any(Hole::C))), shape),
    );
    assert(l == (match matmul_shape(a, b) {
        Some(ab) => matmul_shape(ab, c),
        None => None,
    }));
    assert(r == (match matmul_shape(b, c) {
        Some(bc) => matmul_shape(a, bc),
        None => None,
    }));
}

proof fn lemma_shape_transpose(x: Hole, y: Hole, shape: spec_fn(Hole) -> Seq<usize>)
    ensures
        pattern_shape(transpose(matmul(any(x), any(y))), shape) == pattern_shape(
            matmul(transpose(any(y)), transpose(any(x))),
            shape,
        ),
{
    reveal_with_fuel(pattern_shape, 3);
    let (a, b) = (shape(x), shape(y));
    let l = pattern_shape(transpose(matmul(any(x), any(y))), shape);
    let r = pattern_shape(matmul(transpose(any(y)), transpose(any(x))), shape);
    assert(l == (match matmul_shape(a, b) {
        Some(ab) => transpose_shape(ab),
        None => None,
    }));
    assert(r == (match (transpose_shape(b), transpose_shape(a)) {
        (Some(bt), Some(at)) => matmul_shape(bt, at),
        _ => None,
    }));
}

/// Every rule of associativity, transposition and fusion keeps the shape: the two sides have a
/// shape for the same operands, and then the same one.
pub proof fn structural_rules_keep_the_shape(e: Equation, shape: spec_fn(Hole) -> Seq<usize>)
    requires
        matmul_assoc_rules().contains(e) || transpose_matmul_rules().contains(e)
            || fusion_rules().contains(e),
    ensures
        pattern_shape(e.lhs, shape) == pattern_shape(e.rhs, shape),
{
    if matmul_assoc_rules().contains(e) {
        lemma_shape_assoc(shape);
    } else if transpose_matmul_rules().contains(e) {
        lemma_shape_transpose(Hole::A, Hole::B, shape);
        lemma_shape_transpose(Hole::B, Hole::A, shape);
    } else {
        assert(e.rhs == fuse(e.lhs));
    }
}

/// A rule that moves a number through a product keeps the shape: the two sides have a shape for the
/// same operands, and then the same one.
pub proof fn scale_rules_keep_the_shape(e: Equation, shape: spec_fn(Hole) -> Seq<usize>)
    requires
        scale_distrib_rules().contains(e),
        shape(Hole::S) == scalar_shape(),
    ensures
        pattern_shape(e.lhs, shape) == pattern_shape(e.rhs, shape),
{
    reveal_with_fuel(pattern_shape, 5);
    let i = choose|i: int| 0 <= i < scale_distrib_rules().len() && scale_distrib_rules()[i] == e;
    assert(i == 0 || i == 1 || i == 2 || i == 3);
    lemma_numel_one(scalar_shape());
}

} // verus!
