use fieldopt::account::{difference_text, is_plausible, is_zero_form, subexpr_seen, update_costs, SeenSet};
use fieldopt::text::{find_sole, find_sole_arrow, trim_chars};
use fieldopt::cost::{is_const_from_expr, parse_cost_line, CryptoCost, OpKind};
use fieldopt::expr::{Expr, Node};
use fieldopt::rules::{decimal_chars, default_rules, parse_rule, Rule};
use fieldopt::smt::{all_valid, expr_to_terms, rule_terms, verdict_of, SatOutcome, Term, Verdict};

fn parse(s: &str) -> Expr {
    Expr::parse(s).expect("expression should parse")
}

fn text(e: &Expr) -> String {
    e.to_text().iter().collect()
}

fn cost_alone(s: &str) -> u64 {
    let e = parse(s);
    let mut seen = SeenSet::new();
    update_costs(&e, &mut seen, 0, &CryptoCost::default())
}

#[test]
fn distinct_subexpressions_cost_their_sum() {
    // one add, one general multiplication
    assert_eq!(cost_alone("(+ a (* b c))"), 11);
    // square, inverse, subtraction
    assert_eq!(cost_alone("(- (^2 x) (inv y))"), 6 + 80 + 1);
    assert_eq!(cost_alone("a"), 0);
}

#[test]
fn repeated_subexpression_charged_once() {
    assert_eq!(cost_alone("(+ (* a b) (* a b))"), 11);
}

#[test]
fn equivalent_subexpressions_charged_once() {
    // (+ b a) is proved equal to (+ a b) by the rewrite engine
    assert_eq!(cost_alone("(+ (+ a b) (+ b a))"), 2);
}

#[test]
fn batch_shares_one_scope() {
    let model = CryptoCost::default();
    let mut seen = SeenSet::new();
    let t1 = update_costs(&parse("(+ a a)"), &mut seen, 0, &model);
    assert_eq!(t1, 1);
    let t2 = update_costs(&parse("(* 2 a)"), &mut seen, t1, &model);
    assert_eq!(t2 - t1, 4);
    assert_eq!(seen.len(), 4);
    // the same expression again costs nothing more
    let t3 = update_costs(&parse("(+ a a)"), &mut seen, t2, &model);
    assert_eq!(t3, t2);
}

#[test]
fn constant_multiplication_is_cheaper() {
    assert_eq!(cost_alone("(* xi a)"), 4);
    assert_eq!(cost_alone("(* a gamma)"), 4);
    assert_eq!(cost_alone("(* beta a)"), 4);
    assert_eq!(cost_alone("(* -7 a)"), 4);
    assert_eq!(cost_alone("(* 99999999999 a)"), 4);
    assert_eq!(cost_alone("(* +123456789012345678901234567890 a)"), 4);
    assert_eq!(cost_alone("(* 1x a)"), 10);
    assert_eq!(cost_alone("(* - a)"), 10);
    // constancy is not propagated through arithmetic
    assert_eq!(cost_alone("(* (+ 1 1) a)"), 1 + 10);
}

#[test]
fn constant_leaves() {
    let e = parse("(* (+ xi 3) (- zeta -2147483648))");
    let ids: Vec<bool> = (0..e.len()).map(|i| is_const_from_expr(&e, i)).collect();
    assert_eq!(ids, vec![true, true, false, false, true, false, false]);
    assert!(!is_const_from_expr(&e, 100));
}

#[test]
fn cost_of_node_uses_weights() {
    let e = parse("(* 2 (inv a))");
    let m = CryptoCost::default();
    assert_eq!(m.cost_of_node(&e.nodes[2], &e), 80);
    assert_eq!(m.cost_of_node(&e.nodes[3], &e), 4);
    assert_eq!(m.cost_of_node(&e.nodes[0], &e), 0);
}

#[test]
fn canonical_text_round_trip() {
    for s in ["(+ a (* b c))", "x", "(inv (^2 (- a 0)))", "(* ?a (+ ?b -1))"] {
        assert_eq!(text(&parse(s)), s);
    }
    assert_eq!(text(&parse("  ( +   a\n(* b c) )")), "(+ a (* b c))");
    assert_eq!(text(&parse("(a)")), "a");
}

#[test]
fn malformed_expressions_rejected() {
    for s in ["", "(+ a)", "(+ a b c)", "(^2 a b)", "(foo a)", "(+ a b", "a b", ")", "(() a b)"] {
        assert!(Expr::parse(s).is_none(), "{s}");
    }
}

#[test]
fn from_nodes_checks_order() {
    let ok = Expr::from_nodes(vec![
        Node::Leaf("a".to_string()),
        Node::Leaf("b".to_string()),
        Node::Add(0, 1),
    ]);
    assert_eq!(text(&ok.unwrap()), "(+ a b)");
    assert!(Expr::from_nodes(vec![Node::Add(0, 0)]).is_none());
    assert!(Expr::from_nodes(vec![]).is_none());
    assert!(Expr::from_nodes(vec![Node::Leaf("a b".to_string())]).is_none());
}

#[test]
fn cost_lines() {
    assert_eq!(parse_cost_line("mul = 12"), Some(("mul".to_string(), 12)));
    assert_eq!(parse_cost_line("  const_mul=3  "), Some(("const_mul".to_string(), 3)));
    assert_eq!(parse_cost_line("# mul=1"), None);
    assert_eq!(parse_cost_line(""), None);
    assert_eq!(parse_cost_line("mul"), None);
    assert_eq!(parse_cost_line("mul=1=2"), None);
    assert_eq!(parse_cost_line("mul=x"), None);
    assert_eq!(parse_cost_line("mul=-1"), None);
}

#[test]
fn model_from_lines() {
    let lines: Vec<String> = ["add=2", "# inv=1", "mul=20", "bogus", "mul=30", "fancy=5"]
        .iter()
        .map(|s| s.to_string())
        .collect();
    let m = CryptoCost::from_lines(&lines);
    assert_eq!(m.add_cost, 2);
    assert_eq!(m.mul_cost, 30);
    assert_eq!(m.inv_cost, 80);
    assert_eq!(m.sub_cost, 1);
    assert_eq!(m.square_cost, 6);
    assert_eq!(m.const_mul_cost, 4);
    assert_eq!(m.exp_cost, 80);
    let d = CryptoCost::new(&vec![]);
    assert_eq!((d.add_cost, d.mul_cost, d.square_cost), (1, 10, 6));
}

#[test]
fn rules_parse() {
    let r = parse_rule("(+ ?a 0) => ?a").unwrap();
    assert_eq!(r.lhs, "(+ ?a 0)");
    assert_eq!(r.rhs, "?a");
    assert!(r.name.starts_with("rule_"));
    assert!(r.name[5..].parse::<u16>().is_ok());
    assert!(parse_rule("(+ ?a 0)").is_none());
    assert!(parse_rule("a => b => c").is_none());
    assert!(parse_rule("(+ ?a) => ?a").is_none());
    assert_eq!(default_rules().len(), 20);
}

#[test]
fn translation_to_terms() {
    let e = parse("(+ (^2 x) (inv -5))");
    let t = expr_to_terms(&e);
    assert_eq!(t.len(), 5);
    assert!(matches!(&t[0], Term::Var(x) if x == "x"));
    assert!(matches!(t[1], Term::Mul(0, 0)));
    assert!(matches!(t[2], Term::Lit(-5)));
    assert!(matches!(t[3], Term::Scaled(3, 2)));
    assert!(matches!(t[4], Term::Add(1, 3)));
}

#[test]
fn rule_sides_to_terms() {
    let rule = Rule { name: "add-zero".to_string(), lhs: "(+ ?a 0)".to_string(), rhs: "?a".to_string() };
    let (l, r) = rule_terms(&rule).unwrap();
    assert_eq!(l.len(), 3);
    assert!(matches!(&l[0], Term::Var(x) if x == "?a"));
    assert!(matches!(l[1], Term::Lit(0)));
    assert!(matches!(l[2], Term::Add(0, 1)));
    assert_eq!(r.len(), 1);
    assert!(matches!(&r[0], Term::Var(x) if x == "?a"));
    let bad = Rule { name: "bad".to_string(), lhs: "(+ ?a".to_string(), rhs: "?a".to_string() };
    assert!(rule_terms(&bad).is_none());
}

#[test]
fn verdicts() {
    assert!(matches!(verdict_of(SatOutcome::Unsat), Verdict::Valid));
    assert!(matches!(verdict_of(SatOutcome::Unknown), Verdict::Inconclusive));
    assert!(matches!(verdict_of(SatOutcome::Sat("a -> 2".to_string())), Verdict::Invalid(m) if m == "a -> 2"));
    assert!(all_valid(&vec![Verdict::Valid, Verdict::Valid]));
    assert!(all_valid(&vec![]));
    assert!(!all_valid(&vec![Verdict::Valid, Verdict::Inconclusive]));
    assert!(!all_valid(&vec![Verdict::Invalid(String::new()), Verdict::Valid]));
}

#[test]
fn batch_members_cost_alone() {
    assert_eq!(cost_alone("(+ a a)"), 1);
    assert_eq!(cost_alone("(* 2 a)"), 4);
}

#[test]
fn plausibility_filter() {
    let c = |s: &str| s.chars().collect::<Vec<char>>();
    assert!(is_plausible(&c("(+ a b)"), &c("(+ b a)")));
    assert!(is_plausible(&c("ab"), &c("ab")));
    assert!(!is_plausible(&c("(+ a b)"), &c("(* a b)")));
    assert!(!is_plausible(&c("aab"), &c("abb")));
    assert!(!is_plausible(&c("ab"), &c("abc")));
}

#[test]
fn seen_lookup() {
    let c = |s: &str| s.chars().collect::<Vec<char>>();
    let d: String = difference_text(&c("(+ b a)"), &c("(+ a b)")).iter().collect();
    assert_eq!(d, "(- (+ b a) (+ a b))");
    assert!(is_zero_form(&Some(vec!['0'])));
    assert!(!is_zero_form(&Some(vec!['0', '0'])));
    assert!(!is_zero_form(&None));
    let rules = default_rules();
    let mut seen = SeenSet::new();
    update_costs(&parse("(+ a b)"), &mut seen, 0, &CryptoCost::default());
    assert!(seen.contains(&c("(+ a b)")));
    assert!(subexpr_seen(&c("(+ a b)"), &seen, &rules));
    assert!(subexpr_seen(&c("(+ b a)"), &seen, &rules));
    assert!(!subexpr_seen(&c("(* a b)"), &seen, &rules));
    assert!(!subexpr_seen(&c("(+ a c)"), &seen, &rules));
}

#[test]
fn text_helpers() {
    let c = |s: &str| s.chars().collect::<Vec<char>>();
    assert_eq!(decimal_chars(0), c("0"));
    assert_eq!(decimal_chars(65535), c("65535"));
    assert_eq!(trim_chars(&c(" \t a b \n")), c("a b"));
    assert_eq!(trim_chars(&c("   ")), c(""));
    assert_eq!(find_sole(&c("a=b"), '='), Some(1));
    assert_eq!(find_sole(&c("a=b=c"), '='), None);
    assert_eq!(find_sole_arrow(&c("x => y")), Some(2));
    assert_eq!(find_sole_arrow(&c("x => y => z")), None);
    assert_eq!(find_sole_arrow(&c("x = > y")), None);
}

#[test]
fn rules_need_bound_variables() {
    assert!(parse_rule("(+ ?a 0) => ?b").is_none());
    assert!(parse_rule("(* ?a ?b) => (* ?b ?c)").is_none());
    assert!(parse_rule("(+ ?a 0) => 0").is_some());
    // `?` alone is no pattern variable
    assert!(parse_rule("(+ ?a ?) => ?").is_some());
    let r = parse_rule("  ( +  ?a   0 ) =>  (?a)  ").unwrap();
    assert_eq!(r.lhs, "( +  ?a   0 )");
    assert_eq!(r.rhs, "(?a)");
}

#[test]
fn sides_that_parse_but_are_not_canonical() {
    let rule = Rule { name: "n".to_string(), lhs: "( +  ?a 0)".to_string(), rhs: "(?a)".to_string() };
    let (l, r) = fieldopt::smt::extract_lhs_rhs(&rule).unwrap();
    assert_eq!(text(&l), "(+ ?a 0)");
    assert_eq!(text(&r), "?a");
    let bad = Rule { name: "n".to_string(), lhs: "(+ ?a 0)".to_string(), rhs: "(inv ?a ?a)".to_string() };
    assert!(fieldopt::smt::extract_lhs_rhs(&bad).is_none());
}

#[test]
fn default_rule_names() {
    let names: Vec<String> = default_rules().iter().map(|r| r.name.clone()).collect();
    assert_eq!(
        names,
        vec![
            "add-zero", "zero-add", "mul-one", "one-mul", "mul-zero", "zero-mul", "sub-zero", "sub-self",
            "sub-to-add", "comm-add", "comm-mul", "assoc-add", "assoc-mul", "distribute", "factor",
            "square-def", "square-mul", "2ab-forward", "2ab-backward", "karatsuba"
        ]
    );
    let r = &default_rules()[1];
    assert_eq!((r.lhs.as_str(), r.rhs.as_str()), ("(+ 0 ?a)", "?a"));
}

#[test]
fn rule_file_lines() {
    let lines: Vec<String> = ["# identities", "", "(+ ?a 0) => ?a", "junk", "(* ?a 1) => ?b", "  (* ?a 1)=>?a  "]
        .iter()
        .map(|s| s.to_string())
        .collect();
    let rules = fieldopt::rules::rules_from_lines(&lines);
    let sides: Vec<(String, String)> = rules.iter().map(|r| (r.lhs.clone(), r.rhs.clone())).collect();
    assert_eq!(
        sides,
        vec![
            ("(+ ?a 0)".to_string(), "?a".to_string()),
            ("(* ?a 1)".to_string(), "?a".to_string())
        ]
    );
}

#[test]
fn operation_weights() {
    let m = CryptoCost::default();
    assert_eq!(m.cost_of_operation(OpKind::Mul, true), 4);
    assert_eq!(m.cost_of_operation(OpKind::Mul, false), 10);
    assert_eq!(m.cost_of_operation(OpKind::Square, true), 6);
    assert_eq!(m.cost_of_operation(OpKind::Inverse, false), 80);
    assert_eq!(m.cost_of_operation(OpKind::Leaf, true), 0);
}

#[test]
fn unparseable_texts_skip_the_engine() {
    let c = |s: &str| s.chars().collect::<Vec<char>>();
    let mut seen = SeenSet::new();
    update_costs(&parse("(+ a b)"), &mut seen, 0, &CryptoCost::default());
    // a rearrangement of "(+ a b)" that is no expression
    assert!(!subexpr_seen(&c(")+ a b("), &seen, &default_rules()));
    assert!(fieldopt::account::text_parses(&c("(+ a b)")));
    assert!(!fieldopt::account::text_parses(&c(")+ a b(")));
}
