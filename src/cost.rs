use vstd::prelude::*;
use crate::expr::{Expr, Node, chars_of};
use crate::num::{literal_value, literal_in_range, parse_i64, is_int_literal};
use crate::text::{trim, sole_index, slice, trim_chars, find_sole};
use crate::parse::string_from_chars;

verus! {

/// The kinds of operation a node can be.
#[derive(Clone, Copy)]
pub enum OpKind {
    Add,
    Sub,
    Mul,
    Square,
    Inverse,
    Leaf,
}

/// Weights of the operation kinds.
#[derive(Clone, Copy)]
pub struct CryptoCost {
    pub add_cost: u32,
    pub sub_cost: u32,
    pub mul_cost: u32,
    pub square_cost: u32,
    pub const_mul_cost: u32,
    pub inv_cost: u32,
    /// Reserved for an exponentiation operation that expressions do not have yet.
    pub exp_cost: u32,
}

pub open spec fn key_add() -> Seq<char> { seq!['a', 'd', 'd'] }
pub open spec fn key_sub() -> Seq<char> { seq!['s', 'u', 'b'] }
pub open spec fn key_mul() -> Seq<char> { seq!['m', 'u', 'l'] }
pub open spec fn key_square() -> Seq<char> { seq!['s', 'q', 'u', 'a', 'r', 'e'] }
pub open spec fn key_const_mul() -> Seq<char> { seq!['c', 'o', 'n', 's', 't', '_', 'm', 'u', 'l'] }
pub open spec fn key_inv() -> Seq<char> { seq!['i', 'n', 'v'] }
pub open spec fn key_exp() -> Seq<char> { seq!['e', 'x', 'p'] }

/// The weight that the last entry for `key` gives, if any.
pub open spec fn lookup(entries: Seq<(Seq<char>, u32)>, key: Seq<char>) -> Option<u32>
    decreases entries.len(),
{
    if entries.len() == 0 {
        None
    } else if entries.last().0 == key {
        Some(entries.last().1)
    } else {
        lookup(entries.drop_last(), key)
    }
}

pub open spec fn lookup_or(entries: Seq<(Seq<char>, u32)>, key: Seq<char>, d: u32) -> u32 {
    match lookup(entries, key) {
        Some(w) => w,
        None => d,
    }
}

pub open spec fn entries_view(entries: Seq<(String, u32)>) -> Seq<(Seq<char>, u32)> {
    entries.map_values(|e: (String, u32)| (e.0@, e.1))
}

/// The three protocol constants, which are costed as constants though they are names.
pub open spec fn is_protocol_constant(s: Seq<char>) -> bool {
    s == seq!['x', 'i'] || s == seq!['g', 'a', 'm', 'm', 'a'] || s == seq!['b', 'e', 't', 'a']
}

/// A leaf name is constant-valued if it is an integer literal or a protocol constant.
pub open spec fn is_const_name(s: Seq<char>) -> bool {
    is_protocol_constant(s) || literal_value(s) is Some
}

/// Whether node `id` is a constant-valued leaf; compound nodes never are.
pub open spec fn is_const_at(nodes: Seq<Node>, id: int) -> bool {
    0 <= id < nodes.len() && match nodes[id] {
        Node::Leaf(s) => is_const_name(s@),
        _ => false,
    }
}

impl CryptoCost {
    /// The weight of an operation; a multiplication with a constant-valued operand
    /// takes the constant-multiplication weight.
    pub open spec fn operation_cost(self, kind: OpKind, operand_const: bool) -> u32 {
        match kind {
            OpKind::Add => self.add_cost,
            OpKind::Sub => self.sub_cost,
            OpKind::Mul => if operand_const { self.const_mul_cost } else { self.mul_cost },
            OpKind::Square => self.square_cost,
            OpKind::Inverse => self.inv_cost,
            OpKind::Leaf => 0,
        }
    }

    /// The weight of an operation of kind `kind`; `operand_const` says whether
    /// either operand is constant-valued, which matters for multiplication only.
    pub fn cost_of_operation(&self, kind: OpKind, operand_const: bool) -> (r: u32)
        ensures
            r == self.operation_cost(kind, operand_const),
    {
        match kind {
            OpKind::Add => self.add_cost,
            OpKind::Sub => self.sub_cost,
            OpKind::Mul => if operand_const { self.const_mul_cost } else { self.mul_cost },
            OpKind::Square => self.square_cost,
            OpKind::Inverse => self.inv_cost,
            OpKind::Leaf => 0,
        }
    }

    /// The weight of one node, its children not included.
    pub open spec fn node_cost(self, n: Node, nodes: Seq<Node>) -> u32 {
        match n {
            Node::Add(_, _) => self.add_cost,
            Node::Sub(_, _) => self.sub_cost,
            Node::Mul(a, b) => if is_const_at(nodes, a as int) || is_const_at(nodes, b as int) {
                self.const_mul_cost
            } else {
                self.mul_cost
            },
            Node::Square(_) => self.square_cost,
            Node::Inverse(_) => self.inv_cost,
            Node::Leaf(_) => 0,
        }
    }

    /// Builds a model from `(name, weight)` entries; a later entry overrides an
    /// earlier one, and a missing name takes its default weight.
    pub fn new(costs: &Vec<(String, u32)>) -> (r: CryptoCost)
        ensures
            r.add_cost == lookup_or(entries_view(costs@), key_add(), 1),
            r.sub_cost == lookup_or(entries_view(costs@), key_sub(), 1),
            r.mul_cost == lookup_or(entries_view(costs@), key_mul(), 10),
            r.square_cost == lookup_or(entries_view(costs@), key_square(), 6),
            r.const_mul_cost == lookup_or(entries_view(costs@), key_const_mul(), 4),
            r.inv_cost == lookup_or(entries_view(costs@), key_inv(), 80),
            r.exp_cost == lookup_or(entries_view(costs@), key_exp(), 80),
    {
        CryptoCost {
            add_cost: lookup_weight(costs, &vec!['a', 'd', 'd'], 1),
            sub_cost: lookup_weight(costs, &vec!['s', 'u', 'b'], 1),
            mul_cost: lookup_weight(costs, &vec!['m', 'u', 'l'], 10),
            square_cost: lookup_weight(costs, &vec!['s', 'q', 'u', 'a', 'r', 'e'], 6),
            const_mul_cost: lookup_weight(
                costs,
                &vec!['c', 'o', 'n', 's', 't', '_', 'm', 'u', 'l'],
                4,
            ),
            inv_cost: lookup_weight(costs, &vec!['i', 'n', 'v'], 80),
            exp_cost: lookup_weight(costs, &vec!['e', 'x', 'p'], 80),
        }
    }

    /// The default weights.
    pub fn default() -> (r: CryptoCost)
        ensures
            r.add_cost == 1,
            r.sub_cost == 1,
            r.mul_cost == 10,
            r.square_cost == 6,
            r.const_mul_cost == 4,
            r.inv_cost == 80,
            r.exp_cost == 80,
    {
        CryptoCost {
            add_cost: 1,
            sub_cost: 1,
            mul_cost: 10,
            square_cost: 6,
            const_mul_cost: 4,
            inv_cost: 80,
            exp_cost: 80,
        }
    }

    /// The weight of node `node` of `expr`, its children not included.
    pub fn cost_of_node(&self, node: &Node, expr: &Expr) -> (r: u32)
        ensures
            r == self.node_cost(*node, expr@),
    {
        match node {
            Node::Add(_, _) => self.cost_of_operation(OpKind::Add, false),
            Node::Sub(_, _) => self.cost_of_operation(OpKind::Sub, false),
            Node::Mul(a, b) => {
                let c = is_const_from_expr(expr, *a) || is_const_from_expr(expr, *b);
                self.cost_of_operation(OpKind::Mul, c)
            },
            Node::Square(_) => self.cost_of_operation(OpKind::Square, false),
            Node::Inverse(_) => self.cost_of_operation(OpKind::Inverse, false),
            Node::Leaf(_) => self.cost_of_operation(OpKind::Leaf, false),
        }
    }
}

pub fn chars_eq(a: &Vec<char>, b: &Vec<char>) -> (r: bool)
    ensures
        r == (a@ == b@),
{
    if a.len() != b.len() {
        return false;
    }
    let mut i: usize = 0;
    while i < a.len()
        invariant
            a@.len() == b@.len(),
            0 <= i <= a@.len(),
            forall|k: int| 0 <= k < i ==> a@[k] == b@[k],
        decreases a@.len() - i,
    {
        if a[i] != b[i] {
            return false;
        }
        i = i + 1;
    }
    assert(a@ =~= b@);
    true
}

fn lookup_weight(costs: &Vec<(String, u32)>, key: &Vec<char>, d: u32) -> (r: u32)
    ensures
        r == lookup_or(entries_view(costs@), key@, d),
{
    let mut i: usize = costs.len();
    assert(costs@.subrange(0, i as int) =~= costs@);
    while i > 0
        invariant
            i <= costs@.len(),
            lookup(entries_view(costs@), key@) == lookup(entries_view(costs@.subrange(0, i as int)), key@),
        decreases i,
    {
        let ghost pre = entries_view(costs@.subrange(0, i as int));
        assert(pre.last() == (costs@[i - 1].0@, costs@[i - 1].1));
        assert(pre.drop_last() =~= entries_view(costs@.subrange(0, i - 1)));
        let k = chars_of(costs[i - 1].0.as_str());
        if chars_eq(&k, key) {
            return costs[i - 1].1;
        }
        i = i - 1;
    }
    assert(entries_view(costs@.subrange(0, 0)) =~= Seq::empty());
    d
}

/// Whether node `id` of `expr` is a constant-valued leaf.
pub fn is_const_from_expr(expr: &Expr, id: usize) -> (r: bool)
    ensures
        r == is_const_at(expr@, id as int),
{
    if id >= expr.nodes.len() {
        return false;
    }
    match &expr.nodes[id] {
        Node::Leaf(s) => is_const_name_text(s.as_str()),
        _ => false,
    }
}

/// Whether a leaf name is constant-valued.
pub fn is_const_name_text(s: &str) -> (r: bool)
    ensures
        r == is_const_name(s@),
{
    let cs = chars_of(s);
    chars_eq(&cs, &vec!['x', 'i']) || chars_eq(&cs, &vec!['g', 'a', 'm', 'm', 'a'])
        || chars_eq(&cs, &vec!['b', 'e', 't', 'a']) || is_int_literal(&cs)
}

/// What one line of a cost configuration assigns: `name=weight`, with blank
/// lines, `#` comments and malformed lines assigning nothing. The weight is a
/// non-negative integer that fits in a `u32`.
pub open spec fn cost_line(s: Seq<char>) -> Option<(Seq<char>, u32)> {
    let t = trim(s);
    if t.len() == 0 || t[0] == '#' {
        None
    } else if exists|k: int| sole_index(t, '=', k) {
        let k = choose|k: int| sole_index(t, '=', k);
        match literal_in_range(trim(t.subrange(k + 1, t.len() as int)), 0, u32::MAX as int) {
            Some(v) => Some((trim(t.subrange(0, k)), v as u32)),
            None => None,
        }
    } else {
        None
    }
}

/// The assignments of a configuration, line by line.
pub open spec fn config_entries(lines: Seq<Seq<char>>) -> Seq<(Seq<char>, u32)>
    decreases lines.len(),
{
    if lines.len() == 0 {
        Seq::empty()
    } else {
        let p = config_entries(lines.drop_last());
        match cost_line(lines.last()) {
            Some(e) => p.push(e),
            None => p,
        }
    }
}

pub open spec fn lines_view(lines: Seq<String>) -> Seq<Seq<char>> {
    lines.map_values(|l: String| l@)
}

/// Reads one line of a cost configuration.
pub fn parse_cost_line(line: &str) -> (r: Option<(String, u32)>)
    ensures
        r matches Some((k, w)) ==> cost_line(line@) == Some((k@, w)),
        r is None ==> cost_line(line@) is None,
{
    let t = trim_chars(&chars_of(line));
    if t.len() == 0 || t[0] == '#' {
        return None;
    }
    match find_sole(&t, '=') {
        None => None,
        Some(k) => {
            let key = trim_chars(&slice(&t, 0, k));
            let value = trim_chars(&slice(&t, k + 1, t.len()));
            match parse_i64(&value) {
                Some(v) => {
                    if 0 <= v && v <= 4294967295 {
                        Some((string_from_chars(&key), v as u32))
                    } else {
                        None
                    }
                },
                None => None,
            }
        },
    }
}

impl CryptoCost {
    /// Builds a model from the lines of a cost configuration; a later line
    /// overrides an earlier one, and a name no line assigns takes its default.
    pub fn from_lines(lines: &Vec<String>) -> (r: CryptoCost)
        ensures
            r.add_cost == lookup_or(config_entries(lines_view(lines@)), key_add(), 1),
            r.sub_cost == lookup_or(config_entries(lines_view(lines@)), key_sub(), 1),
            r.mul_cost == lookup_or(config_entries(lines_view(lines@)), key_mul(), 10),
            r.square_cost == lookup_or(config_entries(lines_view(lines@)), key_square(), 6),
            r.const_mul_cost == lookup_or(config_entries(lines_view(lines@)), key_const_mul(), 4),
            r.inv_cost == lookup_or(config_entries(lines_view(lines@)), key_inv(), 80),
            r.exp_cost == lookup_or(config_entries(lines_view(lines@)), key_exp(), 80),
    {
        let mut entries: Vec<(String, u32)> = Vec::new();
        let mut i: usize = 0;
        while i < lines.len()
            invariant
                0 <= i <= lines@.len(),
                entries_view(entries@) == config_entries(lines_view(lines@.subrange(0, i as int))),
            decreases lines@.len() - i,
        {
            let ghost pre = entries@;
            assert(lines_view(lines@.subrange(0, i + 1)).drop_last()
                =~= lines_view(lines@.subrange(0, i as int)));
            match parse_cost_line(lines[i].as_str()) {
                Some(e) => {
                    entries.push(e);
                    assert(entries_view(entries@) =~= entries_view(pre).push((e.0@, e.1)));
                },
                None => {},
            }
            i = i + 1;
        }
        assert(lines@.subrange(0, lines@.len() as int) =~= lines@);
        CryptoCost::new(&entries)
    }
}

} // verus!
