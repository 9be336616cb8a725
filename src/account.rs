use vstd::prelude::*;
use crate::expr::{Expr, Node, canon, binary_form, append_chars};
use crate::cost::{CryptoCost, chars_eq};
use crate::rules::{Rule, default_rules};
use crate::engine::egg_simplest;
use crate::parse::{parses, string_from_chars};

verus! {

/// The canonical texts of the subexpressions already charged in one scope.
pub struct SeenSet {
    entries: Vec<Vec<char>>,
}

impl View for SeenSet {
    type V = Seq<Seq<char>>;

    closed spec fn view(&self) -> Seq<Seq<char>> {
        self.entries@.map_values(|e: Vec<char>| e@)
    }
}

/// How many times `c` occurs in `s`.
pub open spec fn count_char(s: Seq<char>, c: char) -> nat
    decreases s.len(),
{
    if s.len() == 0 {
        0
    } else {
        count_char(s.drop_last(), c) + if s.last() == c { 1nat } else { 0nat }
    }
}

/// Two texts could be rearrangements of each other: same length, same characters
/// with the same multiplicities.
pub open spec fn plausible(a: Seq<char>, b: Seq<char>) -> bool {
    a.len() == b.len() && forall|c: char| count_char(a, c) == count_char(b, c)
}

/// `e` may be proved equal to `s` by the rewrite engine: it is a plausible
/// rearrangement of `s`, and both are expressions.
pub open spec fn is_candidate(e: Seq<char>, s: Seq<char>) -> bool {
    plausible(e, s) && parses(e) && parses(s)
}

/// Some entry of `seen` is a candidate for being proved equal to `s`.
pub open spec fn has_candidate(seen: Seq<Seq<char>>, s: Seq<char>) -> bool {
    exists|k: int| 0 <= k < seen.len() && is_candidate(#[trigger] seen[k], s)
}

/// The seen set and the cost charged after the first `k` nodes, where `hits[i]`
/// says whether node `i` was judged already charged.
pub open spec fn accounted(
    nodes: Seq<Node>,
    model: CryptoCost,
    seen: Seq<Seq<char>>,
    hits: Seq<bool>,
    k: int,
) -> (Seq<Seq<char>>, int)
    decreases k,
{
    if k <= 0 {
        (seen, 0)
    } else {
        let prev = accounted(nodes, model, seen, hits, k - 1);
        if hits[k - 1] {
            prev
        } else {
            (prev.0.push(canon(nodes, k - 1)), prev.1 + model.node_cost(nodes[k - 1], nodes))
        }
    }
}

/// The judgement on node `i` is one the accountant may make: a text already in
/// the seen set is a hit, and a hit is either such a text or one with a plausible
/// rearrangement in the set, both texts being expressions (proved equal by the
/// rewrite engine).
pub open spec fn hit_allowed(
    nodes: Seq<Node>,
    model: CryptoCost,
    seen: Seq<Seq<char>>,
    hits: Seq<bool>,
    i: int,
) -> bool {
    let s = accounted(nodes, model, seen, hits, i).0;
    &&& s.contains(canon(nodes, i)) ==> hits[i]
    &&& hits[i] ==> s.contains(canon(nodes, i)) || has_candidate(s, canon(nodes, i))
}

pub open spec fn hits_allowed(
    nodes: Seq<Node>,
    model: CryptoCost,
    seen: Seq<Seq<char>>,
    hits: Seq<bool>,
) -> bool {
    &&& hits.len() == nodes.len()
    &&& forall|i: int| 0 <= i < nodes.len() ==> #[trigger] hit_allowed(nodes, model, seen, hits, i)
}

/// The sum of the nodes' own weights.
pub open spec fn sum_costs(nodes: Seq<Node>, model: CryptoCost, k: int) -> int
    decreases k,
{
    if k <= 0 {
        0
    } else {
        sum_costs(nodes, model, k - 1) + model.node_cost(nodes[k - 1], nodes)
    }
}

impl SeenSet {
    pub fn new() -> (r: SeenSet)
        ensures
            r@ == Seq::<Seq<char>>::empty(),
    {
        let r = SeenSet { entries: Vec::new() };
        assert(r@ =~= Seq::<Seq<char>>::empty());
        r
    }

    pub fn len(&self) -> (r: usize)
        ensures
            r == self@.len(),
    {
        self.entries.len()
    }

    /// Whether `text` is in the set, verbatim.
    pub fn contains(&self, text: &Vec<char>) -> (r: bool)
        ensures
            r == self@.contains(text@),
    {
        let mut i: usize = 0;
        while i < self.entries.len()
            invariant
                0 <= i <= self@.len(),
                self@.len() == self.entries@.len(),
                forall|k: int| 0 <= k < i ==> self@[k] != text@,
            decreases self@.len() - i,
        {
            if chars_eq(&self.entries[i], text) {
                assert(self@[i as int] == text@);
                return true;
            }
            i = i + 1;
        }
        false
    }

    fn insert(&mut self, text: Vec<char>)
        ensures
            final(self)@ == old(self)@.push(text@),
    {
        self.entries.push(text);
        assert(self@ =~= old(self)@.push(text@));
    }
}

proof fn lemma_count_absent(s: Seq<char>, c: char)
    requires
        forall|k: int| 0 <= k < s.len() ==> s[k] != c,
    ensures
        count_char(s, c) == 0,
    decreases s.len(),
{
    if s.len() > 0 {
        lemma_count_absent(s.drop_last(), c);
    }
}

fn count_of(s: &Vec<char>, c: char) -> (r: usize)
    ensures
        r == count_char(s@, c),
{
    let mut n: usize = 0;
    let mut i: usize = 0;
    while i < s.len()
        invariant
            0 <= i <= s@.len(),
            n == count_char(s@.subrange(0, i as int), c),
            n <= i,
        decreases s@.len() - i,
    {
        assert(s@.subrange(0, i + 1).drop_last() =~= s@.subrange(0, i as int));
        if s[i] == c {
            n = n + 1;
        }
        i = i + 1;
    }
    assert(s@.subrange(0, s@.len() as int) =~= s@);
    n
}

/// Whether each character of `a` occurs in `a` and `b` equally often.
fn counts_agree(a: &Vec<char>, b: &Vec<char>) -> (r: bool)
    ensures
        r == forall|k: int| 0 <= k < a@.len() ==> count_char(a@, #[trigger] a@[k]) == count_char(b@, a@[k]),
{
    let mut i: usize = 0;
    while i < a.len()
        invariant
            0 <= i <= a@.len(),
            forall|k: int| 0 <= k < i ==> count_char(a@, #[trigger] a@[k]) == count_char(b@, a@[k]),
        decreases a@.len() - i,
    {
        if count_of(a, a[i]) != count_of(b, a[i]) {
            return false;
        }
        i = i + 1;
    }
    true
}

/// Whether `a` and `b` are plausible rearrangements of each other.
pub fn is_plausible(a: &Vec<char>, b: &Vec<char>) -> (r: bool)
    ensures
        r == plausible(a@, b@),
{
    if a.len() != b.len() {
        return false;
    }
    let ab = counts_agree(a, b);
    let ba = counts_agree(b, a);
    if ab && ba {
        assert forall|c: char| count_char(a@, c) == count_char(b@, c) by {
            if exists|k: int| 0 <= k < a@.len() && a@[k] == c {
                let k = choose|k: int| 0 <= k < a@.len() && a@[k] == c;
                assert(count_char(a@, a@[k]) == count_char(b@, a@[k]));
            } else if exists|k: int| 0 <= k < b@.len() && b@[k] == c {
                let k = choose|k: int| 0 <= k < b@.len() && b@[k] == c;
                assert(count_char(b@, b@[k]) == count_char(a@, b@[k]));
            } else {
                lemma_count_absent(a@, c);
                lemma_count_absent(b@, c);
            }
        }
        true
    } else {
        proof {
            if !ab {
                let k = choose|k: int| 0 <= k < a@.len() && count_char(a@, #[trigger] a@[k]) != count_char(b@, a@[k]);
                assert(count_char(a@, a@[k]) != count_char(b@, a@[k]));
            } else {
                let k = choose|k: int| 0 <= k < b@.len() && count_char(b@, #[trigger] b@[k]) != count_char(a@, b@[k]);
                assert(count_char(b@, b@[k]) != count_char(a@, b@[k]));
            }
        }
        false
    }
}

/// Whether the engine's simplest form is the literal zero.
pub fn is_zero_form(best: &Option<Vec<char>>) -> (r: bool)
    ensures
        r == (best matches Some(t) && t@ == seq!['0']),
{
    match best {
        Some(t) => {
            let z = t.len() == 1 && t[0] == '0';
            assert(z ==> t@ =~= seq!['0']);
            z
        },
        None => false,
    }
}

/// The text `(- a b)`.
pub fn difference_text(a: &Vec<char>, b: &Vec<char>) -> (r: Vec<char>)
    ensures
        r@ == binary_form(seq!['-'], a@, b@),
{
    let mut out: Vec<char> = Vec::new();
    out.push('(');
    out.push('-');
    out.push(' ');
    append_chars(&mut out, a);
    out.push(' ');
    append_chars(&mut out, b);
    out.push(')');
    assert(out@ =~= binary_form(seq!['-'], a@, b@));
    out
}

/// Whether `text` is one expression of the prefix syntax.
pub fn text_parses(text: &Vec<char>) -> (r: bool)
    ensures
        r == parses(text@),
{
    let s = string_from_chars(text);
    Expr::parse(s.as_str()).is_some()
}

/// Whether `subexpr` counts as already charged: it is in `seen` verbatim, or
/// some plausible rearrangement in `seen` minus it simplifies to zero under
/// `rules`, both texts being expressions. Where a text does not parse, only the
/// verbatim test applies.
pub fn subexpr_seen(subexpr: &Vec<char>, seen: &SeenSet, rules: &Vec<Rule>) -> (r: bool)
    ensures
        seen@.contains(subexpr@) ==> r,
        r ==> seen@.contains(subexpr@) || has_candidate(seen@, subexpr@),
{
    if seen.contains(subexpr) {
        return true;
    }
    let mut i: usize = 0;
    while i < seen.entries.len()
        invariant
            0 <= i <= seen@.len(),
            seen@.len() == seen.entries@.len(),
        decreases seen@.len() - i,
    {
        let e = &seen.entries[i];
        if is_plausible(e, subexpr) && text_parses(e) && text_parses(subexpr) {
            let diff = difference_text(subexpr, e);
            let best = egg_simplest(&diff, rules);
            if is_zero_form(&best) {
                assert(is_candidate(seen@[i as int], subexpr@));
                return true;
            }
        }
        i = i + 1;
    }
    false
}

/// Charges the nodes of `expr` in index order, each at most once per seen text:
/// a node whose canonical text counts as already charged (see `subexpr_seen`, with
/// the default rules) costs nothing; any other node has its text added to `seen`
/// and its own weight added to the total. Returns the new total.
pub fn update_costs(expr: &Expr, seen: &mut SeenSet, total_cost: u64, cost_model: &CryptoCost) -> (r: u64)
    requires
        expr.wf(),
        total_cost + expr@.len() * 0xFFFF_FFFFu64 <= u64::MAX,
    ensures
        exists|hits: Seq<bool>| {
            &&& hits_allowed(expr@, *cost_model, old(seen)@, hits)
            &&& final(seen)@ == accounted(expr@, *cost_model, old(seen)@, hits, expr@.len() as int).0
            &&& r == total_cost + accounted(expr@, *cost_model, old(seen)@, hits, expr@.len() as int).1
        },
{
    let rules = default_rules();
    let ghost seen0 = seen@;
    let ghost mut hits: Seq<bool> = Seq::empty();
    let mut cost: u64 = total_cost;
    let mut i: usize = 0;
    let n = expr.nodes.len();
    while i < n
        invariant
            n == expr@.len(),
            expr.wf(),
            0 <= i <= n,
            total_cost + n * 0xFFFF_FFFFu64 <= u64::MAX,
            hits.len() == i,
            forall|j: int| 0 <= j < i ==> #[trigger] hit_allowed(expr@, *cost_model, seen0, hits, j),
            seen@ == accounted(expr@, *cost_model, seen0, hits, i as int).0,
            cost == total_cost + accounted(expr@, *cost_model, seen0, hits, i as int).1,
            0 <= accounted(expr@, *cost_model, seen0, hits, i as int).1 <= i * 0xFFFF_FFFFu64,
        decreases n - i,
    {
        let subexpr = expr.subexpr_to_string(i);
        let hit = subexpr_seen(&subexpr, seen, &rules);
        let ghost old_hits = hits;
        proof {
            hits = hits.push(hit);
            assert forall|k: int| 0 <= k <= i implies accounted(expr@, *cost_model, seen0, hits, k)
                == accounted(expr@, *cost_model, seen0, old_hits, k) by {
                lemma_accounted_prefix(expr@, *cost_model, seen0, old_hits, hits, k);
            }
            assert forall|j: int| 0 <= j < i + 1 implies #[trigger] hit_allowed(expr@, *cost_model, seen0, hits, j) by {
                if j < i {
                    assert(hit_allowed(expr@, *cost_model, seen0, old_hits, j));
                }
            }
        }
        if !hit {
            let c = cost_model.cost_of_node(&expr.nodes[i], expr);
            seen.insert(subexpr);
            assert(cost + c <= u64::MAX) by (nonlinear_arith)
                requires
                    cost == total_cost + accounted(expr@, *cost_model, seen0, old_hits, i as int).1,
                    accounted(expr@, *cost_model, seen0, old_hits, i as int).1 <= i * 0xFFFF_FFFFu64,
                    total_cost + n * 0xFFFF_FFFFu64 <= u64::MAX,
                    i < n,
                    c <= 0xFFFF_FFFFu64,
            ;
            cost = cost + c as u64;
        }
        i = i + 1;
    }
    assert(hits_allowed(expr@, *cost_model, seen0, hits));
    cost
}

proof fn lemma_accounted_prefix(
    nodes: Seq<Node>,
    model: CryptoCost,
    seen: Seq<Seq<char>>,
    h1: Seq<bool>,
    h2: Seq<bool>,
    k: int,
)
    requires
        k <= h1.len(),
        h1.len() <= h2.len(),
        forall|j: int| 0 <= j < h1.len() ==> h1[j] == h2[j],
    ensures
        accounted(nodes, model, seen, h1, k) == accounted(nodes, model, seen, h2, k),
    decreases k,
{
    if k > 0 {
        lemma_accounted_prefix(nodes, model, seen, h1, h2, k - 1);
    }
}


proof fn lemma_seen_grows(
    nodes: Seq<Node>,
    model: CryptoCost,
    seen: Seq<Seq<char>>,
    hits: Seq<bool>,
    m: int,
    k: int,
    t: Seq<char>,
)
    requires
        0 <= m <= k,
        accounted(nodes, model, seen, hits, m).0.contains(t),
    ensures
        accounted(nodes, model, seen, hits, k).0.contains(t),
    decreases k - m,
{
    if m < k {
        lemma_seen_grows(nodes, model, seen, hits, m, k - 1, t);
        let prev = accounted(nodes, model, seen, hits, k - 1).0;
        if !hits[k - 1] {
            let j = choose|j: int| 0 <= j < prev.len() && prev[j] == t;
            assert(prev.push(canon(nodes, k - 1))[j] == t);
        }
    }
}

/// Starting from an empty seen set, when no two subexpressions of `e` have
/// canonical texts that are equal or rearrangements of each other, no node is
/// judged already charged, and the total is the sum of every node's own weight.
pub proof fn lemma_distinct_texts_full_cost(e: Expr, model: CryptoCost, hits: Seq<bool>)
    requires
        e.wf(),
        hits_allowed(e@, model, Seq::empty(), hits),
        forall|i: int, j: int|
            0 <= i < j < e@.len() ==> !plausible(#[trigger] canon(e@, i), #[trigger] canon(e@, j)),
    ensures
        forall|i: int| 0 <= i < e@.len() ==> !hits[i],
        accounted(e@, model, Seq::empty(), hits, e@.len() as int).1 == sum_costs(e@, model, e@.len() as int),
{
    lemma_distinct_prefix(e, model, hits, e@.len() as int);
}

proof fn lemma_distinct_prefix(e: Expr, model: CryptoCost, hits: Seq<bool>, k: int)
    requires
        e.wf(),
        0 <= k <= e@.len(),
        hits_allowed(e@, model, Seq::empty(), hits),
        forall|i: int, j: int|
            0 <= i < j < e@.len() ==> !plausible(#[trigger] canon(e@, i), #[trigger] canon(e@, j)),
    ensures
        forall|i: int| 0 <= i < k ==> !hits[i],
        accounted(e@, model, Seq::empty(), hits, k).0 == Seq::new(k as nat, |j: int| canon(e@, j)),
        accounted(e@, model, Seq::empty(), hits, k).1 == sum_costs(e@, model, k),
    decreases k,
{
    if k > 0 {
        lemma_distinct_prefix(e, model, hits, k - 1);
        let s = accounted(e@, model, Seq::empty(), hits, k - 1).0;
        let t = canon(e@, k - 1);
        assert(hit_allowed(e@, model, Seq::empty(), hits, k - 1));
        if hits[k - 1] {
            if s.contains(t) {
                let j = choose|j: int| 0 <= j < s.len() && s[j] == t;
                assert(!plausible(canon(e@, j), canon(e@, k - 1)));
                assert forall|c: char| count_char(t, c) == count_char(t, c) by {}
                assert(plausible(t, t));
            } else {
                let j = choose|j: int| 0 <= j < s.len() && is_candidate(#[trigger] s[j], t);
                assert(!plausible(canon(e@, j), canon(e@, k - 1)));
            }
        }
        assert(accounted(e@, model, Seq::empty(), hits, k).0 =~= Seq::new(k as nat, |j: int| canon(e@, j)));
    }
}

/// A canonical text is charged at most once in a scope: of two nodes with the
/// same text, at least one is judged already charged.
pub proof fn lemma_repeat_charged_once(
    e: Expr,
    model: CryptoCost,
    seen: Seq<Seq<char>>,
    hits: Seq<bool>,
    i: int,
    j: int,
)
    requires
        e.wf(),
        hits_allowed(e@, model, seen, hits),
        0 <= i < j < e@.len(),
        canon(e@, i) == canon(e@, j),
    ensures
        hits[i] || hits[j],
{
    if !hits[i] {
        let s = accounted(e@, model, seen, hits, i + 1).0;
        assert(s[s.len() - 1] == canon(e@, i));
        lemma_seen_grows(e@, model, seen, hits, i + 1, j, canon(e@, i));
        assert(hit_allowed(e@, model, seen, hits, j));
    }
}

/// The seen set only grows: what was in it before `update_costs` stays, in order.
pub proof fn lemma_seen_never_shrinks(
    nodes: Seq<Node>,
    model: CryptoCost,
    seen: Seq<Seq<char>>,
    hits: Seq<bool>,
    k: int,
)
    requires
        0 <= k,
    ensures
        accounted(nodes, model, seen, hits, k).0.subrange(0, seen.len() as int) == seen,
        accounted(nodes, model, seen, hits, k).0.len() >= seen.len(),
    decreases k,
{
    if k > 0 {
        lemma_seen_never_shrinks(nodes, model, seen, hits, k - 1);
        let p = accounted(nodes, model, seen, hits, k - 1).0;
        assert(p.push(canon(nodes, k - 1)).subrange(0, seen.len() as int) =~= p.subrange(0, seen.len() as int));
    }
}

} // verus!
