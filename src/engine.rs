use vstd::prelude::*;
use crate::rules::Rule;
use egg::{AstSize, Extractor, Pattern, RecExpr, Rewrite, Runner, SymbolLang};

verus! {

/// Relies on egg's `RecExpr` parser, `Runner` (equality saturation under the
/// rules, with its default iteration, size and time limits) and `Extractor`
/// with `AstSize`: the smallest term found equal to `text`, or `None` where
/// `text` or a rule does not parse. The runner stops on a time limit, so
/// nothing is promised of the term.
#[verifier::external_body]
pub(crate) fn egg_simplest(text: &Vec<char>, rules: &Vec<Rule>) -> (r: Option<Vec<char>>) {
    let s: String = text.iter().collect();
    let e: RecExpr<SymbolLang> = s.parse().ok()?;
    let rw: Option<Vec<Rewrite<SymbolLang, ()>>> = rules.iter().map(|r| {
        let l: Pattern<SymbolLang> = r.lhs.parse().ok()?;
        Rewrite::new(r.name.as_str(), l, r.rhs.parse::<Pattern<SymbolLang>>().ok()?).ok()
    }).collect();
    let runner = Runner::default().with_expr(&e).run(&rw?);
    let (_, best) = Extractor::new(&runner.egraph, AstSize).find_best(runner.roots[0]);
    Some(best.to_string().chars().collect())
}

} // verus!
