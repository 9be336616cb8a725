use vstd::prelude::*;
use crate::expr::{Expr, Node, chars_of, nodes_wf, is_canonical_text};
use crate::num::{i64_literal, parse_i64};
use crate::rules::Rule;
use crate::parse::{parses, parsed_text};

verus! {

/// One node of an integer-arithmetic term table; children are earlier indices.
/// `Scaled(k, a)` is a fresh unconstrained integer constant, numbered `k`, times `a`:
/// the model of a multiplicative inverse.
pub enum Term {
    Lit(i64),
    Var(String),
    Add(usize, usize),
    Sub(usize, usize),
    Mul(usize, usize),
    Scaled(usize, usize),
}

/// The term node that expression node `n`, at index `i`, translates to.
pub open spec fn translated(n: Node, i: int, t: Term) -> bool {
    match n {
        Node::Add(a, b) => t == Term::Add(a, b),
        Node::Sub(a, b) => t == Term::Sub(a, b),
        Node::Mul(a, b) => t == Term::Mul(a, b),
        Node::Square(a) => t == Term::Mul(a, a),
        Node::Inverse(a) => t == Term::Scaled(i as usize, a),
        Node::Leaf(s) => match i64_literal(s@) {
            Some(v) => t == Term::Lit(v as i64),
            None => t matches Term::Var(x) && x@ == s@,
        },
    }
}

/// The integer value of node `i` of an expression, with leaves read as integer
/// literals or looked up by name in `env`, and the inverse at node `k` read as
/// `inv[k]` times its operand.
pub open spec fn expr_value(nodes: Seq<Node>, i: int, env: Map<Seq<char>, int>, inv: Map<int, int>) -> int
    decreases i,
{
    if i < 0 || i >= nodes.len() {
        0
    } else {
        match nodes[i] {
            Node::Add(a, b) => if a < i && b < i {
                expr_value(nodes, a as int, env, inv) + expr_value(nodes, b as int, env, inv)
            } else { 0 },
            Node::Sub(a, b) => if a < i && b < i {
                expr_value(nodes, a as int, env, inv) - expr_value(nodes, b as int, env, inv)
            } else { 0 },
            Node::Mul(a, b) => if a < i && b < i {
                expr_value(nodes, a as int, env, inv) * expr_value(nodes, b as int, env, inv)
            } else { 0 },
            Node::Square(a) => if a < i {
                expr_value(nodes, a as int, env, inv) * expr_value(nodes, a as int, env, inv)
            } else { 0 },
            Node::Inverse(a) => if a < i {
                inv[i] * expr_value(nodes, a as int, env, inv)
            } else { 0 },
            Node::Leaf(s) => match i64_literal(s@) {
                Some(v) => v,
                None => env[s@],
            },
        }
    }
}

/// The integer value of term node `i`.
pub open spec fn term_value(terms: Seq<Term>, i: int, env: Map<Seq<char>, int>, inv: Map<int, int>) -> int
    decreases i,
{
    if i < 0 || i >= terms.len() {
        0
    } else {
        match terms[i] {
            Term::Lit(v) => v as int,
            Term::Var(x) => env[x@],
            Term::Add(a, b) => if a < i && b < i {
                term_value(terms, a as int, env, inv) + term_value(terms, b as int, env, inv)
            } else { 0 },
            Term::Sub(a, b) => if a < i && b < i {
                term_value(terms, a as int, env, inv) - term_value(terms, b as int, env, inv)
            } else { 0 },
            Term::Mul(a, b) => if a < i && b < i {
                term_value(terms, a as int, env, inv) * term_value(terms, b as int, env, inv)
            } else { 0 },
            Term::Scaled(k, a) => if a < i {
                inv[k as int] * term_value(terms, a as int, env, inv)
            } else { 0 },
        }
    }
}

/// Translates an expression into an integer term table, node for node.
pub fn expr_to_terms(expr: &Expr) -> (r: Vec<Term>)
    requires
        expr.wf(),
    ensures
        r@.len() == expr@.len(),
        forall|i: int| 0 <= i < r@.len() ==> translated(expr@[i], i, #[trigger] r@[i]),
{
    let mut out: Vec<Term> = Vec::new();
    let mut i: usize = 0;
    while i < expr.nodes.len()
        invariant
            0 <= i <= expr@.len(),
            out@.len() == i,
            forall|k: int| 0 <= k < i ==> translated(expr@[k], k, #[trigger] out@[k]),
        decreases expr@.len() - i,
    {
        let t = match &expr.nodes[i] {
            Node::Add(a, b) => Term::Add(*a, *b),
            Node::Sub(a, b) => Term::Sub(*a, *b),
            Node::Mul(a, b) => Term::Mul(*a, *b),
            Node::Square(a) => Term::Mul(*a, *a),
            Node::Inverse(a) => Term::Scaled(i, *a),
            Node::Leaf(s) => {
                let cs = chars_of(s.as_str());
                match parse_i64(&cs) {
                    Some(v) => Term::Lit(v),
                    None => Term::Var(s.clone()),
                }
            },
        };
        out.push(t);
        i = i + 1;
    }
    out
}

/// The translation keeps every node's integer value.
pub proof fn lemma_terms_keep_value(
    nodes: Seq<Node>,
    terms: Seq<Term>,
    env: Map<Seq<char>, int>,
    inv: Map<int, int>,
    i: int,
)
    requires
        nodes_wf(nodes),
        terms.len() == nodes.len(),
        nodes.len() <= usize::MAX,
        forall|k: int| 0 <= k < terms.len() ==> translated(nodes[k], k, #[trigger] terms[k]),
        0 <= i < nodes.len(),
    ensures
        term_value(terms, i, env, inv) == expr_value(nodes, i, env, inv),
    decreases i,
{
    assert(translated(nodes[i], i, terms[i]));
    match nodes[i] {
        Node::Add(a, b) => {
            lemma_terms_keep_value(nodes, terms, env, inv, a as int);
            lemma_terms_keep_value(nodes, terms, env, inv, b as int);
        },
        Node::Sub(a, b) => {
            lemma_terms_keep_value(nodes, terms, env, inv, a as int);
            lemma_terms_keep_value(nodes, terms, env, inv, b as int);
        },
        Node::Mul(a, b) => {
            lemma_terms_keep_value(nodes, terms, env, inv, a as int);
            lemma_terms_keep_value(nodes, terms, env, inv, b as int);
        },
        Node::Square(a) => {
            lemma_terms_keep_value(nodes, terms, env, inv, a as int);
        },
        Node::Inverse(a) => {
            lemma_terms_keep_value(nodes, terms, env, inv, a as int);
        },
        Node::Leaf(s) => {
            match i64_literal(s@) {
                Some(v) => {
                    assert(i64::MIN <= v <= i64::MAX);
                },
                None => {},
            }
        },
    }
}

/// Both sides of the rule are canonical texts of well-formed expressions.
pub open spec fn sides_canonical(rule: &Rule) -> bool {
    is_canonical_text(rule.lhs@) && is_canonical_text(rule.rhs@)
}

/// The two sides of a rule, parsed; `None` exactly where either side does not parse.
pub fn extract_lhs_rhs(rule: &Rule) -> (r: Option<(Expr, Expr)>)
    ensures
        r is Some <==> parses(rule.lhs@) && parses(rule.rhs@),
        r matches Some((l, rr)) ==> l.wf() && rr.wf() && l.text() == parsed_text(rule.lhs@)
            && rr.text() == parsed_text(rule.rhs@),
        sides_canonical(rule) ==> (r matches Some((l, rr)) && l.text() == rule.lhs@ && rr.text() == rule.rhs@),
{
    let lhs = Expr::parse(rule.lhs.as_str());
    let rhs = Expr::parse(rule.rhs.as_str());
    proof {
        if sides_canonical(rule) {
            let a = choose|a: Expr| #[trigger] a.wf() && rule.lhs@ == a.text();
            let b = choose|b: Expr| #[trigger] b.wf() && rule.rhs@ == b.text();
            assert(a.wf() && b.wf());
        }
    }
    match (lhs, rhs) {
        (Some(l), Some(rr)) => Some((l, rr)),
        _ => None,
    }
}

/// The rule's two sides as integer term tables, ready for a solver to be asked
/// whether their roots can differ. `None` exactly where a side does not parse.
pub fn rule_terms(rule: &Rule) -> (r: Option<(Vec<Term>, Vec<Term>)>)
    ensures
        r is Some <==> parses(rule.lhs@) && parses(rule.rhs@),
        r matches Some((lt, rt)) ==> exists|l: Expr, rr: Expr| {
            &&& l.wf() && rr.wf()
            &&& l.text() == parsed_text(rule.lhs@) && rr.text() == parsed_text(rule.rhs@)
            &&& lt@.len() == l@.len() && rt@.len() == rr@.len()
            &&& forall|i: int| 0 <= i < lt@.len() ==> translated(l@[i], i, #[trigger] lt@[i])
            &&& forall|i: int| 0 <= i < rt@.len() ==> translated(rr@[i], i, #[trigger] rt@[i])
            &&& sides_canonical(rule) ==> l.text() == rule.lhs@ && rr.text() == rule.rhs@
        },
        sides_canonical(rule) ==> r is Some,
{
    match extract_lhs_rhs(rule) {
        Some((l, rr)) => {
            let lt = expr_to_terms(&l);
            let rt = expr_to_terms(&rr);
            Some((lt, rt))
        },
        None => None,
    }
}

/// What a solver answered on "the two sides differ".
pub enum SatOutcome {
    /// Satisfiable, with the solver's model as text.
    Sat(String),
    Unsat,
    Unknown,
}

/// The verdict on one rule.
pub enum Verdict {
    Valid,
    /// A counterexample: an assignment under which the two sides differ.
    Invalid(String),
    Inconclusive,
}

/// No assignment makes the sides differ: valid. One does: invalid, with it as
/// counterexample. The solver could not tell: inconclusive, never valid.
pub fn verdict_of(outcome: SatOutcome) -> (r: Verdict)
    ensures
        (r is Valid) <==> (outcome is Unsat),
        (r is Inconclusive) <==> (outcome is Unknown),
        outcome matches SatOutcome::Sat(m) ==> r == Verdict::Invalid(m),
{
    match outcome {
        SatOutcome::Sat(m) => Verdict::Invalid(m),
        SatOutcome::Unsat => Verdict::Valid,
        SatOutcome::Unknown => Verdict::Inconclusive,
    }
}

/// Whether every rule of a set was found valid; an invalid or inconclusive
/// verdict makes the set fail.
pub fn all_valid(verdicts: &Vec<Verdict>) -> (r: bool)
    ensures
        r == forall|k: int| 0 <= k < verdicts@.len() ==> (#[trigger] verdicts@[k]) is Valid,
{
    let mut ok = true;
    let mut i: usize = 0;
    while i < verdicts.len()
        invariant
            0 <= i <= verdicts@.len(),
            ok == forall|k: int| 0 <= k < i ==> (#[trigger] verdicts@[k]) is Valid,
        decreases verdicts@.len() - i,
    {
        let v = match &verdicts[i] {
            Verdict::Valid => true,
            _ => false,
        };
        ok = ok && v;
        i = i + 1;
    }
    ok
}

} // verus!
