use vstd::prelude::*;
use crate::expr::{Expr, chars_of};
use crate::parse::{string_from_chars, parses};
use crate::cost::lines_view;
use crate::text::{trim, sole_arrow, slice, trim_chars, find_sole_arrow, vars_bound, vars_bound_text};

verus! {

/// A named rewrite rule, `lhs => rhs`, over patterns in the prefix syntax.
/// A leaf written `?name` is a pattern variable.
pub struct Rule {
    pub name: String,
    pub lhs: String,
    pub rhs: String,
}

fn rule(name: &str, lhs: &str, rhs: &str) -> (r: Rule)
    ensures
        r.name@ == name@,
        r.lhs@ == lhs@,
        r.rhs@ == rhs@,
{
    Rule { name: String::from_str(name), lhs: String::from_str(lhs), rhs: String::from_str(rhs) }
}

/// The name and two sides of built-in rule `k`.
pub open spec fn default_rule_text(k: int) -> (Seq<char>, Seq<char>, Seq<char>) {
    if k == 0 {
        ("add-zero"@, "(+ ?a 0)"@, "?a"@)
    } else if k == 1 {
        ("zero-add"@, "(+ 0 ?a)"@, "?a"@)
    } else if k == 2 {
        ("mul-one"@, "(* ?a 1)"@, "?a"@)
    } else if k == 3 {
        ("one-mul"@, "(* 1 ?a)"@, "?a"@)
    } else if k == 4 {
        ("mul-zero"@, "(* ?a 0)"@, "0"@)
    } else if k == 5 {
        ("zero-mul"@, "(* 0 ?a)"@, "0"@)
    } else if k == 6 {
        ("sub-zero"@, "(- ?a 0)"@, "?a"@)
    } else if k == 7 {
        ("sub-self"@, "(- ?a ?a)"@, "0"@)
    } else if k == 8 {
        ("sub-to-add"@, "(- ?a ?b)"@, "(+ ?a (* -1 ?b))"@)
    } else if k == 9 {
        ("comm-add"@, "(+ ?a ?b)"@, "(+ ?b ?a)"@)
    } else if k == 10 {
        ("comm-mul"@, "(* ?a ?b)"@, "(* ?b ?a)"@)
    } else if k == 11 {
        ("assoc-add"@, "(+ ?a (+ ?b ?c))"@, "(+ (+ ?a ?b) ?c)"@)
    } else if k == 12 {
        ("assoc-mul"@, "(* ?a (* ?b ?c))"@, "(* (* ?a ?b) ?c)"@)
    } else if k == 13 {
        ("distribute"@, "(* ?a (+ ?b ?c))"@, "(+ (* ?a ?b) (* ?a ?c))"@)
    } else if k == 14 {
        ("factor"@, "(+ (* ?a ?b) (* ?a ?c))"@, "(* ?a (+ ?b ?c))"@)
    } else if k == 15 {
        ("square-def"@, "(^2 ?a)"@, "(* ?a ?a)"@)
    } else if k == 16 {
        ("square-mul"@, "(* ?a ?a)"@, "(^2 ?a)"@)
    } else if k == 17 {
        ("2ab-forward"@, "(* 2 (* ?a ?b))"@, "(- (^2 (+ ?a ?b)) (+ (^2 ?a) (^2 ?b)))"@)
    } else if k == 18 {
        ("2ab-backward"@, "(- (^2 (+ ?a ?b)) (+ (^2 ?a) (^2 ?b)))"@, "(* 2 (* ?a ?b))"@)
    } else {
        ("karatsuba"@, "(+ (* ?a ?d) (* ?b ?c))"@, "(- (* (+ ?a ?b) (+ ?c ?d)) (+ (* ?a ?c) (* ?b ?d)))"@)
    }
}

/// The built-in rules for finite-field arithmetic.
pub fn default_rules() -> (r: Vec<Rule>)
    ensures
        r@.len() == 20,
        forall|k: int| 0 <= k < 20 ==> (r@[k].name@, r@[k].lhs@, r@[k].rhs@) == #[trigger] default_rule_text(k),
{
    let mut v: Vec<Rule> = Vec::new();
    v.push(rule("add-zero", "(+ ?a 0)", "?a"));
    assert((v@[0].name@, v@[0].lhs@, v@[0].rhs@) == default_rule_text(0));
    v.push(rule("zero-add", "(+ 0 ?a)", "?a"));
    assert((v@[1].name@, v@[1].lhs@, v@[1].rhs@) == default_rule_text(1));
    v.push(rule("mul-one", "(* ?a 1)", "?a"));
    assert((v@[2].name@, v@[2].lhs@, v@[2].rhs@) == default_rule_text(2));
    v.push(rule("one-mul", "(* 1 ?a)", "?a"));
    assert((v@[3].name@, v@[3].lhs@, v@[3].rhs@) == default_rule_text(3));
    v.push(rule("mul-zero", "(* ?a 0)", "0"));
    assert((v@[4].name@, v@[4].lhs@, v@[4].rhs@) == default_rule_text(4));
    v.push(rule("zero-mul", "(* 0 ?a)", "0"));
    assert((v@[5].name@, v@[5].lhs@, v@[5].rhs@) == default_rule_text(5));
    v.push(rule("sub-zero", "(- ?a 0)", "?a"));
    assert((v@[6].name@, v@[6].lhs@, v@[6].rhs@) == default_rule_text(6));
    v.push(rule("sub-self", "(- ?a ?a)", "0"));
    assert((v@[7].name@, v@[7].lhs@, v@[7].rhs@) == default_rule_text(7));
    v.push(rule("sub-to-add", "(- ?a ?b)", "(+ ?a (* -1 ?b))"));
    assert((v@[8].name@, v@[8].lhs@, v@[8].rhs@) == default_rule_text(8));
    v.push(rule("comm-add", "(+ ?a ?b)", "(+ ?b ?a)"));
    assert((v@[9].name@, v@[9].lhs@, v@[9].rhs@) == default_rule_text(9));
    v.push(rule("comm-mul", "(* ?a ?b)", "(* ?b ?a)"));
    assert((v@[10].name@, v@[10].lhs@, v@[10].rhs@) == default_rule_text(10));
    v.push(rule("assoc-add", "(+ ?a (+ ?b ?c))", "(+ (+ ?a ?b) ?c)"));
    assert((v@[11].name@, v@[11].lhs@, v@[11].rhs@) == default_rule_text(11));
    v.push(rule("assoc-mul", "(* ?a (* ?b ?c))", "(* (* ?a ?b) ?c)"));
    assert((v@[12].name@, v@[12].lhs@, v@[12].rhs@) == default_rule_text(12));
    v.push(rule("distribute", "(* ?a (+ ?b ?c))", "(+ (* ?a ?b) (* ?a ?c))"));
    assert((v@[13].name@, v@[13].lhs@, v@[13].rhs@) == default_rule_text(13));
    v.push(rule("factor", "(+ (* ?a ?b) (* ?a ?c))", "(* ?a (+ ?b ?c))"));
    assert((v@[14].name@, v@[14].lhs@, v@[14].rhs@) == default_rule_text(14));
    v.push(rule("square-def", "(^2 ?a)", "(* ?a ?a)"));
    assert((v@[15].name@, v@[15].lhs@, v@[15].rhs@) == default_rule_text(15));
    v.push(rule("square-mul", "(* ?a ?a)", "(^2 ?a)"));
    assert((v@[16].name@, v@[16].lhs@, v@[16].rhs@) == default_rule_text(16));
    v.push(rule("2ab-forward", "(* 2 (* ?a ?b))", "(- (^2 (+ ?a ?b)) (+ (^2 ?a) (^2 ?b)))"));
    assert((v@[17].name@, v@[17].lhs@, v@[17].rhs@) == default_rule_text(17));
    v.push(rule("2ab-backward", "(- (^2 (+ ?a ?b)) (+ (^2 ?a) (^2 ?b)))", "(* 2 (* ?a ?b))"));
    assert((v@[18].name@, v@[18].lhs@, v@[18].rhs@) == default_rule_text(18));
    v.push(rule("karatsuba", "(+ (* ?a ?d) (* ?b ?c))", "(- (* (+ ?a ?b) (+ ?c ?d)) (+ (* ?a ?c) (* ?b ?d)))"));
    assert((v@[19].name@, v@[19].lhs@, v@[19].rhs@) == default_rule_text(19));
    assert forall|k: int| 0 <= k < 20 implies (v@[k].name@, v@[k].lhs@, v@[k].rhs@) == #[trigger] default_rule_text(k) by {
        assert(0 <= k < 20);
    }
    v
}

/// The decimal digits of `n`.
pub open spec fn decimal(n: nat) -> Seq<char>
    decreases n,
{
    if n < 10 {
        seq![(('0' as nat) + n) as char]
    } else {
        decimal(n / 10).push((('0' as nat) + n % 10) as char)
    }
}

pub fn decimal_chars(n: u64) -> (r: Vec<char>)
    ensures
        r@ == decimal(n as nat),
    decreases n,
{
    let d = (('0' as u64) + n % 10) as u8 as char;
    if n < 10 {
        let v = vec![d];
        assert(v@ =~= decimal(n as nat));
        v
    } else {
        let mut v = decimal_chars(n / 10);
        v.push(d);
        v
    }
}

/// Relies on `rand::random::<u16>`: a random number, of which nothing is promised.
#[verifier::external_body]
fn random_u16() -> u16 {
    rand::random::<u16>()
}

/// A fresh rule name, `rule_` followed by a random number.
pub fn fresh_rule_name() -> (r: String)
    ensures
        exists|n: nat| n <= u16::MAX && r@ == seq!['r', 'u', 'l', 'e', '_'] + decimal(n),
{
    let n = random_u16();
    let mut v: Vec<char> = vec!['r', 'u', 'l', 'e', '_'];
    let d = decimal_chars(n as u64);
    crate::expr::append_chars(&mut v, &d);
    string_from_chars(&v)
}

/// Parses a rule written `lhs => rhs`. The arrow must occur exactly once; each
/// side, trimmed of whitespace, must parse as a pattern, and every pattern
/// variable of the right side must occur on the left. The rule gets a fresh
/// random name, `rule_` and a number.
pub fn parse_rule(rule_str: &str) -> (r: Option<Rule>)
    ensures
        r matches Some(rule) ==> exists|k: int| {
            &&& sole_arrow(rule_str@, k)
            &&& rule.lhs@ == trim(rule_str@.subrange(0, k))
            &&& rule.rhs@ == trim(rule_str@.subrange(k + 2, rule_str@.len() as int))
            &&& vars_bound(rule.lhs@, rule.rhs@)
            &&& parses(rule.lhs@) && parses(rule.rhs@)
        },
        r matches Some(rule) ==> exists|n: nat| n <= u16::MAX && rule.name@ == seq!['r', 'u', 'l', 'e', '_'] + decimal(n),
        (forall|k: int| !sole_arrow(rule_str@, k)) ==> r is None,
        forall|k: int| #[trigger] sole_arrow(rule_str@, k) ==> (r is Some <==> {
            &&& parses(trim(rule_str@.subrange(0, k)))
            &&& parses(trim(rule_str@.subrange(k + 2, rule_str@.len() as int)))
            &&& vars_bound(trim(rule_str@.subrange(0, k)), trim(rule_str@.subrange(k + 2, rule_str@.len() as int)))
        }),
{
    let cs = chars_of(rule_str);
    match find_sole_arrow(&cs) {
        None => None,
        Some(k) => {
            let n = cs.len();
            assert(k + 1 < n);
            let l = trim_chars(&slice(&cs, 0, k));
            let rr = trim_chars(&slice(&cs, k + 2, n));
            let lhs = string_from_chars(&l);
            let rhs = string_from_chars(&rr);
            assert(cs@.subrange(0, k as int) == rule_str@.subrange(0, k as int));
            assert(cs@.subrange(k + 2, n as int) == rule_str@.subrange(k + 2, rule_str@.len() as int));
            if Expr::parse(lhs.as_str()).is_none() || Expr::parse(rhs.as_str()).is_none() {
                return None;
            }
            if !vars_bound_text(&l, &rr) {
                return None;
            }
            let name = fresh_rule_name();
            Some(Rule { name, lhs, rhs })
        },
    }
}

/// The two sides of the rule that a line of a rule file holds: blank lines,
/// `#` comments and lines `parse_rule` rejects hold none.
pub open spec fn rule_line(line: Seq<char>) -> Option<(Seq<char>, Seq<char>)> {
    let t = trim(line);
    if t.len() == 0 || t[0] == '#' {
        None
    } else if exists|k: int| sole_arrow(t, k) {
        let k = choose|k: int| sole_arrow(t, k);
        let l = trim(t.subrange(0, k));
        let r = trim(t.subrange(k + 2, t.len() as int));
        if parses(l) && parses(r) && vars_bound(l, r) {
            Some((l, r))
        } else {
            None
        }
    } else {
        None
    }
}

/// The sides of the rules of a rule file, line by line.
pub open spec fn rule_lines(lines: Seq<Seq<char>>) -> Seq<(Seq<char>, Seq<char>)>
    decreases lines.len(),
{
    if lines.len() == 0 {
        Seq::empty()
    } else {
        let p = rule_lines(lines.drop_last());
        match rule_line(lines.last()) {
            Some(e) => p.push(e),
            None => p,
        }
    }
}

pub open spec fn rules_sides(rules: Seq<Rule>) -> Seq<(Seq<char>, Seq<char>)> {
    rules.map_values(|x: Rule| (x.lhs@, x.rhs@))
}

/// The rules of a rule file, given as its lines; each gets a fresh name.
pub fn rules_from_lines(lines: &Vec<String>) -> (r: Vec<Rule>)
    ensures
        rules_sides(r@) == rule_lines(lines_view(lines@)),
{
    let mut out: Vec<Rule> = Vec::new();
    let mut i: usize = 0;
    while i < lines.len()
        invariant
            0 <= i <= lines@.len(),
            rules_sides(out@) == rule_lines(lines_view(lines@.subrange(0, i as int))),
        decreases lines@.len() - i,
    {
        let ghost pre = out@;
        assert(lines_view(lines@.subrange(0, i + 1)).drop_last()
            =~= lines_view(lines@.subrange(0, i as int)));
        assert(lines_view(lines@.subrange(0, i + 1)).last() == lines@[i as int]@);
        let t = trim_chars(&chars_of(lines[i].as_str()));
        if t.len() > 0 && t[0] != '#' {
            let ts = string_from_chars(&t);
            match parse_rule(ts.as_str()) {
                Some(rule) => {
                    proof {
                        let k = choose|k: int| sole_arrow(ts@, k) && rule.lhs@ == trim(ts@.subrange(0, k))
                            && rule.rhs@ == trim(ts@.subrange(k + 2, ts@.len() as int))
                            && vars_bound(rule.lhs@, rule.rhs@) && parses(rule.lhs@) && parses(rule.rhs@);
                        assert(sole_arrow(ts@, k));
                    }
                    out.push(rule);
                    assert(rules_sides(out@) =~= rules_sides(pre).push((rule.lhs@, rule.rhs@)));
                },
                None => {},
            }
        }
        i = i + 1;
    }
    assert(lines@.subrange(0, lines@.len() as int) =~= lines@);
    out
}

} // verus!
