use vstd::prelude::*;
use crate::expr::{
    Expr, Node, canon, op_text, binary_form, unary_form, chars_of, is_space, is_space_char, is_atom,
    is_atom_char, node_wf, nodes_wf,
};
use crate::text::slice;

verus! {

/// Relies on `String`'s `FromIterator<&char>`: the string holds exactly the given characters.
#[verifier::external_body]
pub(crate) fn string_from_chars(v: &Vec<char>) -> (r: String)
    ensures
        r@ == v@,
{
    v.iter().collect()
}

/// `t` stands in `s` at `pos`.
pub open spec fn text_at(s: Seq<char>, pos: int, t: Seq<char>) -> bool {
    0 <= pos && pos + t.len() <= s.len() && s.subrange(pos, pos + t.len()) == t
}

/// Position `end` of `s` does not continue an atom.
pub open spec fn delimited(s: Seq<char>, end: int) -> bool {
    end == s.len() || (0 <= end < s.len() && !is_atom_char(s[end]))
}

/// The canonical text of node `i` of `nodes` stands in `s` at `pos`, not followed
/// by more of an atom.
pub open spec fn canon_at(s: Seq<char>, pos: int, nodes: Seq<Node>, i: int) -> bool {
    &&& nodes_wf(nodes)
    &&& 0 <= i < nodes.len()
    &&& text_at(s, pos, canon(nodes, i))
    &&& delimited(s, pos + canon(nodes, i).len())
}

pub open spec fn arity(n: Node) -> int {
    match n {
        Node::Add(_, _) | Node::Sub(_, _) | Node::Mul(_, _) => 2,
        Node::Square(_) | Node::Inverse(_) => 1,
        Node::Leaf(_) => 0,
    }
}

/// The `k`-th child of `n`.
pub open spec fn kid(n: Node, k: int) -> int {
    match n {
        Node::Add(a, b) | Node::Sub(a, b) | Node::Mul(a, b) => if k == 0 { a as int } else { b as int },
        Node::Square(a) | Node::Inverse(a) => a as int,
        Node::Leaf(_) => 0,
    }
}

/// `m` with its children replaced by `kids`.
pub open spec fn with_kids(m: Node, kids: Seq<usize>) -> Node {
    match m {
        Node::Add(_, _) => Node::Add(kids[0], kids[1]),
        Node::Sub(_, _) => Node::Sub(kids[0], kids[1]),
        Node::Mul(_, _) => Node::Mul(kids[0], kids[1]),
        Node::Square(_) => Node::Square(kids[0]),
        Node::Inverse(_) => Node::Inverse(kids[0]),
        Node::Leaf(name) => Node::Leaf(name),
    }
}

/// Where, in the canonical text of node `i`, the first `k` children end.
pub open spec fn kids_end(nodes: Seq<Node>, i: int, k: int) -> int {
    let n = nodes[i];
    let base: int = 1 + op_text(n).len() as int;
    if k == 0 {
        base
    } else if k == 1 {
        base + 1 + canon(nodes, kid(n, 0)).len()
    } else {
        base + 2 + canon(nodes, kid(n, 0)).len() + canon(nodes, kid(n, 1)).len()
    }
}

proof fn lemma_canon_prefix(a: Seq<Node>, b: Seq<Node>, k: int)
    requires
        0 <= k < a.len() <= b.len(),
        a == b.subrange(0, a.len() as int),
    ensures
        canon(b, k) == canon(a, k),
    decreases k,
{
    assert(a[k] == b[k]);
    match a[k] {
        Node::Add(x, y) | Node::Sub(x, y) | Node::Mul(x, y) => {
            if x < k && y < k {
                lemma_canon_prefix(a, b, x as int);
                lemma_canon_prefix(a, b, y as int);
            }
        },
        Node::Square(x) | Node::Inverse(x) => {
            if x < k {
                lemma_canon_prefix(a, b, x as int);
            }
        },
        Node::Leaf(_) => {},
    }
}

/// A canonical text starts with `(` or with an atom character.
proof fn lemma_canon_start(nodes: Seq<Node>, i: int)
    requires
        nodes_wf(nodes),
        0 <= i < nodes.len(),
    ensures
        canon(nodes, i).len() > 0,
        canon(nodes, i)[0] == '(' || is_atom_char(canon(nodes, i)[0]),
        nodes[i] is Leaf <==> canon(nodes, i)[0] != '(',
        nodes[i] matches Node::Leaf(s) ==> canon(nodes, i) == s@,
{
    assert(node_wf(nodes[i], i));
    match nodes[i] {
        Node::Leaf(s) => {
            assert(is_atom_char(s@[0]));
        },
        _ => {},
    }
}

/// The layout of a compound node's canonical text.
proof fn lemma_compound_layout(s: Seq<char>, pos: int, nodes: Seq<Node>, i: int)
    requires
        canon_at(s, pos, nodes, i),
        !(nodes[i] is Leaf),
    ensures
        s[pos] == '(',
        forall|j: int| 0 <= j < op_text(nodes[i]).len() ==> s[pos + 1 + j] == #[trigger] op_text(nodes[i])[j],
        forall|j: int| 0 <= j < op_text(nodes[i]).len() ==> is_atom_char(#[trigger] op_text(nodes[i])[j]),
        op_text(nodes[i]).len() > 0,
        forall|k: int| 0 <= k < arity(nodes[i]) ==> {
            &&& s[pos + kids_end(nodes, i, k)] == ' '
            &&& 0 <= #[trigger] kid(nodes[i], k) < i
            &&& canon_at(s, pos + kids_end(nodes, i, k) + 1, nodes, kid(nodes[i], k))
            &&& kids_end(nodes, i, k + 1) == kids_end(nodes, i, k) + 1 + canon(nodes, kid(nodes[i], k)).len()
        },
        s[pos + kids_end(nodes, i, arity(nodes[i]))] == ')',
        kids_end(nodes, i, arity(nodes[i])) + 1 == canon(nodes, i).len(),
{
    let n = nodes[i];
    let t = canon(nodes, i);
    let o = op_text(n);
    assert(node_wf(n, i));
    assert(s.subrange(pos, pos + t.len()) == t);
    assert forall|j: int| 0 <= j < t.len() implies s[pos + j] == t[j] by {
        assert(s.subrange(pos, pos + t.len())[j] == s[pos + j]);
    }
    match n {
        Node::Add(a, b) | Node::Sub(a, b) | Node::Mul(a, b) => {
            let ca = canon(nodes, a as int);
            let cb = canon(nodes, b as int);
            assert(t == binary_form(o, ca, cb));
            lemma_canon_start(nodes, a as int);
            lemma_canon_start(nodes, b as int);
            let e0: int = 1 + o.len() as int;
            let e1: int = e0 + 1 + ca.len() as int;
            assert(t[0] == '(');
            assert forall|j: int| 0 <= j < o.len() implies s[pos + 1 + j] == #[trigger] o[j] by {
                assert(t[1 + j] == o[j]);
            }
            assert(t[e0] == ' ');
            assert(s.subrange(pos + e0 + 1, pos + e0 + 1 + ca.len()) =~= ca) by {
                assert forall|j: int| 0 <= j < ca.len() implies
                    s.subrange(pos + e0 + 1, pos + e0 + 1 + ca.len())[j] == ca[j] by {
                    assert(t[e0 + 1 + j] == ca[j]);
                }
            }
            assert(t[e1] == ' ');
            assert(s.subrange(pos + e1 + 1, pos + e1 + 1 + cb.len()) =~= cb) by {
                assert forall|j: int| 0 <= j < cb.len() implies
                    s.subrange(pos + e1 + 1, pos + e1 + 1 + cb.len())[j] == cb[j] by {
                    assert(t[e1 + 1 + j] == cb[j]);
                }
            }
            assert(t[e1 + 1 + cb.len() as int] == ')');
            assert(kid(n, 0) == a && kid(n, 1) == b);
        },
        Node::Square(a) | Node::Inverse(a) => {
            let ca = canon(nodes, a as int);
            assert(t == unary_form(o, ca));
            lemma_canon_start(nodes, a as int);
            let e0: int = 1 + o.len() as int;
            assert(t[0] == '(');
            assert forall|j: int| 0 <= j < o.len() implies s[pos + 1 + j] == #[trigger] o[j] by {
                assert(t[1 + j] == o[j]);
            }
            assert(t[e0] == ' ');
            assert(s.subrange(pos + e0 + 1, pos + e0 + 1 + ca.len()) =~= ca) by {
                assert forall|j: int| 0 <= j < ca.len() implies
                    s.subrange(pos + e0 + 1, pos + e0 + 1 + ca.len())[j] == ca[j] by {
                    assert(t[e0 + 1 + j] == ca[j]);
                }
            }
            assert(t[e0 + 1 + ca.len() as int] == ')');
            assert(kid(n, 0) == a);
        },
        Node::Leaf(_) => {},
    }
}

/// The first position at or after `p` that is not whitespace.
pub open spec fn skip_ws(s: Seq<char>, p: int) -> int
    decreases s.len() - p,
{
    if 0 <= p < s.len() && is_space(s[p]) {
        skip_ws(s, p + 1)
    } else {
        p
    }
}

/// The end of the run of atom characters that starts at `p`.
pub open spec fn atom_end(s: Seq<char>, p: int) -> int
    decreases s.len() - p,
{
    if 0 <= p < s.len() && is_atom_char(s[p]) {
        atom_end(s, p + 1)
    } else {
        p
    }
}

pub open spec fn is_binary_op(op: Seq<char>) -> bool {
    op == seq!['+'] || op == seq!['-'] || op == seq!['*']
}

pub open spec fn is_unary_op(op: Seq<char>) -> bool {
    op == seq!['^', '2'] || op == seq!['i', 'n', 'v']
}

/// The canonical text of the form `(op kids...)`: `(x)` is the leaf `x`; an
/// operator must have its arity.
pub open spec fn form_text(op: Seq<char>, kids: Seq<Seq<char>>) -> Option<Seq<char>> {
    if kids.len() == 0 {
        Some(op)
    } else if kids.len() == 2 && is_binary_op(op) {
        Some(binary_form(op, kids[0], kids[1]))
    } else if kids.len() == 1 && is_unary_op(op) {
        Some(unary_form(op, kids[0]))
    } else {
        None
    }
}

/// The grammar: one expression read from `pos` on, after any whitespace, as its
/// canonical text and the position after it; `None` where none can be read.
pub open spec fn read_expr(s: Seq<char>, pos: int) -> Option<(Seq<char>, int)>
    decreases s.len() - pos, 1int,
{
    let p = skip_ws(s, pos);
    if !(0 <= p < s.len()) || s[p] == ')' {
        None
    } else if s[p] != '(' {
        let q = atom_end(s, p);
        Some((s.subrange(p, q), q))
    } else {
        let p1 = skip_ws(s, p + 1);
        let q1 = atom_end(s, p1);
        if q1 == p1 || q1 <= pos || q1 > s.len() {
            None
        } else {
            read_list(s, q1, s.subrange(p1, q1), Seq::empty())
        }
    }
}

/// The rest of a form `(op ...`, from `p` on, with the texts of the children read so far.
pub open spec fn read_list(s: Seq<char>, p: int, op: Seq<char>, kids: Seq<Seq<char>>) -> Option<(Seq<char>, int)>
    decreases s.len() - p, 2int,
{
    let p2 = skip_ws(s, p);
    if p2 < p || !(0 <= p2 < s.len()) {
        None
    } else if s[p2] == ')' {
        match form_text(op, kids) {
            Some(t) => Some((t, p2 + 1)),
            None => None,
        }
    } else if kids.len() >= 2 {
        None
    } else {
        match read_expr(s, p2) {
            Some((t, q)) => if q > p2 && q <= s.len() {
                read_list(s, q, op, kids.push(t))
            } else {
                None
            },
            None => None,
        }
    }
}

/// `s` is exactly one expression.
pub open spec fn parses(s: Seq<char>) -> bool {
    read_expr(s, 0) matches Some((_, q)) && skip_ws(s, q) == s.len()
}

/// The canonical text of the expression that `s` holds.
pub open spec fn parsed_text(s: Seq<char>) -> Seq<char> {
    match read_expr(s, 0) {
        Some((t, _)) => t,
        None => Seq::empty(),
    }
}

pub open spec fn kid_texts(out: Seq<Node>, kids: Seq<usize>) -> Seq<Seq<char>> {
    kids.map_values(|k: usize| canon(out, k as int))
}


fn skip_spaces(cs: &Vec<char>, p: usize) -> (q: usize)
    requires
        p <= cs@.len(),
    ensures
        p <= q <= cs@.len(),
        forall|k: int| p <= k < q ==> is_space(#[trigger] cs@[k]),
        q == cs@.len() || !is_space(cs@[q as int]),
        q == skip_ws(cs@, p as int),
{
    let mut q = p;
    while q < cs.len() && is_space_char(cs[q])
        invariant
            p <= q <= cs@.len(),
            skip_ws(cs@, p as int) == skip_ws(cs@, q as int),
            forall|k: int| p <= k < q ==> is_space(#[trigger] cs@[k]),
        decreases cs@.len() - q,
    {
        q = q + 1;
    }
    q
}

/// The end of the run of atom characters that starts at `p`.
fn read_atom(cs: &Vec<char>, p: usize) -> (q: usize)
    requires
        p <= cs@.len(),
    ensures
        p <= q <= cs@.len(),
        forall|k: int| p <= k < q ==> is_atom_char(#[trigger] cs@[k]),
        q == cs@.len() || !is_atom_char(cs@[q as int]),
        q == atom_end(cs@, p as int),
{
    let mut q = p;
    while q < cs.len() && !is_space_char(cs[q]) && cs[q] != '(' && cs[q] != ')'
        invariant
            p <= q <= cs@.len(),
            atom_end(cs@, p as int) == atom_end(cs@, q as int),
            forall|k: int| p <= k < q ==> is_atom_char(#[trigger] cs@[k]),
        decreases cs@.len() - q,
    {
        q = q + 1;
    }
    q
}

/// The node for operator `op` over `kids`, if its arity matches.
fn make_node(op: &Vec<char>, kids: &Vec<usize>) -> (r: Option<Node>)
    ensures
        r matches Some(n) ==> !(n is Leaf) && kids@.len() == arity(n) && op@ == op_text(n)
            && forall|k: int| 0 <= k < arity(n) ==> kids@[k] == #[trigger] kid(n, k),
        forall|m: Node| !(m is Leaf) && kids@.len() == arity(m) && op@ == #[trigger] op_text(m)
            ==> r == Some(with_kids(m, kids@)),
        r is Some <==> (kids@.len() == 2 && is_binary_op(op@)) || (kids@.len() == 1 && is_unary_op(op@)),
{
    if kids.len() == 2 && op.len() == 1 {
        let (a, b) = (kids[0], kids[1]);
        assert(kids@ =~= seq![a, b]);
        if op[0] == '+' {
            assert(op@ =~= seq!['+']);
            return Some(Node::Add(a, b));
        } else if op[0] == '-' {
            assert(op@ =~= seq!['-']);
            return Some(Node::Sub(a, b));
        } else if op[0] == '*' {
            assert(op@ =~= seq!['*']);
            return Some(Node::Mul(a, b));
        }
    }
    if kids.len() == 1 {
        let a = kids[0];
        assert(kids@ =~= seq![a]);
        if op.len() == 2 && op[0] == '^' && op[1] == '2' {
            assert(op@ =~= seq!['^', '2']);
            return Some(Node::Square(a));
        }
        if op.len() == 3 && op[0] == 'i' && op[1] == 'n' && op[2] == 'v' {
            assert(op@ =~= seq!['i', 'n', 'v']);
            return Some(Node::Inverse(a));
        }
    }
    proof {
        assert forall|m: Node| !(m is Leaf) && kids@.len() == arity(m) && op@ == #[trigger] op_text(m)
            implies false by {
            match m {
                Node::Add(_, _) => { assert(op@[0] == '+'); },
                Node::Sub(_, _) => { assert(op@[0] == '-'); },
                Node::Mul(_, _) => { assert(op@[0] == '*'); },
                Node::Square(_) => { assert(op@[0] == '^' && op@[1] == '2'); },
                Node::Inverse(_) => { assert(op@[0] == 'i' && op@[1] == 'n' && op@[2] == 'v'); },
                Node::Leaf(_) => {},
            }
        }
    }
    None
}

/// Parses one expression starting at `pos` (after any whitespace), appending its
/// nodes to `out`; returns the position after it. The new root is the last node
/// of `out`. Where the canonical text of a node of some well-formed table stands
/// at `pos` (the ghost `target`), the parse reads exactly that text and rebuilds it.
fn parse_at(
    cs: &Vec<char>,
    pos: usize,
    out: &mut Vec<Node>,
    Ghost(target): Ghost<Option<(Seq<Node>, int)>>,
) -> (r: Option<usize>)
    requires
        pos <= cs@.len(),
        forall|i: int| 0 <= i < old(out)@.len() ==> node_wf(#[trigger] old(out)@[i], i),
        target matches Some((nodes, i)) ==> canon_at(cs@, pos as int, nodes, i),
    ensures
        forall|i: int| 0 <= i < final(out)@.len() ==> node_wf(#[trigger] final(out)@[i], i),
        final(out)@.len() >= old(out)@.len(),
        final(out)@.subrange(0, old(out)@.len() as int) == old(out)@,
        r matches Some(p) ==> pos < p <= cs@.len() && final(out)@.len() > old(out)@.len(),
        target matches Some((nodes, i)) ==> {
            &&& r == Some((pos + canon(nodes, i).len()) as usize)
            &&& canon(final(out)@, final(out)@.len() - 1) == canon(nodes, i)
        },
        r is Some <==> read_expr(cs@, pos as int) is Some,
        r matches Some(q) ==> read_expr(cs@, pos as int) == Some((canon(final(out)@, final(out)@.len() - 1), q as int)),
    decreases cs@.len() - pos,
{
    let ghost out0 = out@;
    proof {
        if let Some((nodes, i)) = target {
            lemma_canon_start(nodes, i);
            assert(cs@[pos as int] == canon(nodes, i)[0]) by {
                assert(cs@.subrange(pos as int, pos + canon(nodes, i).len())[0] == cs@[pos as int]);
            }
        }
    }
    let p = skip_spaces(cs, pos);
    if p >= cs.len() {
        return None;
    }
    let c = cs[p];
    if c == ')' {
        return None;
    }
    if c != '(' {
        let q = read_atom(cs, p);
        let name_chars = slice(cs, p, q);
        let name = string_from_chars(&name_chars);
        proof {
            assert(is_atom_char(cs@[p as int]));
            assert(is_atom(name@)) by {
                assert forall|k: int| 0 <= k < name@.len() implies is_atom_char(#[trigger] name@[k]) by {
                    assert(name@[k] == cs@[p + k]);
                }
            }
            if let Some((nodes, i)) = target {
                let t = canon(nodes, i);
                assert(cs@.subrange(pos as int, pos + t.len()) == t);
                assert forall|k: int| 0 <= k < t.len() implies cs@[pos + k] == #[trigger] t[k] by {
                    assert(cs@.subrange(pos as int, pos + t.len())[k] == cs@[pos + k]);
                }
                match nodes[i] {
                    Node::Leaf(sn) => {
                        assert(node_wf(nodes[i], i));
                        assert(is_atom(sn@));
                        if q < pos + t.len() {
                            assert(is_atom_char(t[q - pos]));
                        }
                        if q > pos + t.len() {
                            assert(is_atom_char(cs@[pos + t.len()]));
                        }
                        assert(name@ =~= t);
                    },
                    _ => {},
                }
            }
        }
        out.push(Node::Leaf(name));
        proof {
            assert(node_wf(out@[out@.len() - 1], out@.len() - 1));
            assert(out@.subrange(0, out0.len() as int) =~= out0);
        }
        return Some(q);
    }
    // a compound form
    let p1 = skip_spaces(cs, p + 1);
    let q1 = read_atom(cs, p1);
    let op = slice(cs, p1, q1);
    proof {
        assert forall|k: int| 0 <= k < op@.len() implies is_atom_char(#[trigger] op@[k]) by {
            assert(op@[k] == cs@[p1 + k]);
        }
        if let Some((nodes, i)) = target {
            lemma_compound_layout(cs@, pos as int, nodes, i);
            let o = op_text(nodes[i]);
            assert(p1 == pos + 1) by {
                if p1 > pos + 1 {
                    assert(is_space(cs@[pos + 1]));
                    assert(cs@[pos + 1 + 0] == o[0]);
                }
            }
            if q1 < pos + 1 + o.len() {
                assert(cs@[q1 as int] == o[q1 - pos - 1]);
            }
            if q1 > pos + 1 + o.len() {
                assert(is_atom_char(cs@[pos + 1 + o.len()]));
            }
            assert(op@ =~= o) by {
                assert forall|k: int| 0 <= k < o.len() implies op@[k] == o[k] by {
                    assert(cs@[pos + 1 + k] == o[k]);
                }
            }
        }
    }
    if q1 == p1 {
        return None;
    }
    assert(is_atom(op@));
    let mut p = q1;
    let mut kids: Vec<usize> = Vec::new();
    assert(kid_texts(out@, kids@) =~= Seq::<Seq<char>>::empty());
    assert(op@ == cs@.subrange(p1 as int, q1 as int));
    loop
        invariant
            pos < p <= cs@.len(),
            forall|i: int| 0 <= i < out@.len() ==> node_wf(#[trigger] out@[i], i),
            out@.len() >= out0.len(),
            out@.subrange(0, out0.len() as int) == out0,
            out0 == old(out)@,
            forall|k: int| 0 <= k < kids@.len() ==> #[trigger] kids@[k] < out@.len(),
            kids@.len() <= 2,
            is_atom(op@),
            target matches Some((nodes, i)) ==> {
                &&& canon_at(cs@, pos as int, nodes, i)
                &&& !(nodes[i] is Leaf)
                &&& op@ == op_text(nodes[i])
                &&& kids@.len() <= arity(nodes[i])
                &&& p == pos + kids_end(nodes, i, kids@.len() as int)
                &&& forall|k: int| 0 <= k < kids@.len() ==>
                    canon(out@, #[trigger] kids@[k] as int) == canon(nodes, kid(nodes[i], k))
            },
            read_expr(cs@, pos as int) == read_list(cs@, p as int, op@, kid_texts(out@, kids@)),
        ensures
            p < cs@.len() && cs@[p as int] == ')',
            read_expr(cs@, pos as int) == match form_text(op@, kid_texts(out@, kids@)) {
                Some(t) => Some((t, p + 1)),
                None => None,
            },
        decreases cs@.len() - p,
    {
        let ghost p_before = p;
        p = skip_spaces(cs, p);
        if p >= cs.len() {
            proof {
                if let Some((nodes, i)) = target {
                    lemma_compound_layout(cs@, pos as int, nodes, i);
                    let k = kids@.len() as int;
                    if k < arity(nodes[i]) {
                        assert(is_space(cs@[p_before as int]));
                    }
                }
            }
            return None;
        }
        let ghost child: Option<(Seq<Node>, int)> = match target {
            Some((nodes, i)) => if kids@.len() < arity(nodes[i]) {
                Some((nodes, kid(nodes[i], kids@.len() as int)))
            } else {
                None
            },
            None => None,
        };
        proof {
            if let Some((nodes, i)) = target {
                lemma_compound_layout(cs@, pos as int, nodes, i);
                let k = kids@.len() as int;
                if k < arity(nodes[i]) {
                    let ck = kid(nodes[i], k);
                    lemma_canon_start(nodes, ck);
                    let at = pos + kids_end(nodes, i, k) + 1;
                    assert(cs@[at] == canon(nodes, ck)[0]) by {
                        assert(cs@.subrange(at, at + canon(nodes, ck).len())[0] == cs@[at]);
                    }
                    assert(p == at) by {
                        if p < at {
                            assert(p == p_before);
                            assert(!is_space(cs@[p_before as int]));
                        }
                        if p > at {
                            assert(is_space(cs@[at]));
                        }
                    }
                } else {
                    assert(p == p_before);
                }
            }
        }
        if cs[p] == ')' {
            break;
        }
        if kids.len() >= 2 {
            return None;
        }
        let ghost out_before = out@;
        match parse_at(cs, p, out, Ghost(child)) {
            Some(q) => {
                proof {
                    assert(out@.subrange(0, out0.len() as int) =~= out0) by {
                        assert forall|j: int| 0 <= j < out0.len() implies
                            out@.subrange(0, out0.len() as int)[j] == out0[j] by {
                            assert(out_before.subrange(0, out0.len() as int)[j] == out0[j]);
                            assert(out@.subrange(0, out_before.len() as int)[j] == out_before[j]);
                        }
                    }
                    if let Some((nodes, i)) = target {
                        assert forall|k: int| 0 <= k < kids@.len() implies
                            canon(out@, #[trigger] kids@[k] as int) == canon(nodes, kid(nodes[i], k)) by {
                            lemma_canon_prefix(out_before, out@, kids@[k] as int);
                        }
                    }
                }
                if q <= p {
                    return None;
                }
                let ghost texts_before = kid_texts(out_before, kids@);
                kids.push(out.len() - 1);
                proof {
                    assert forall|k: int| 0 <= k < kids@.len() - 1 implies
                        canon(out@, #[trigger] kids@[k] as int) == canon(out_before, kids@[k] as int) by {
                        lemma_canon_prefix(out_before, out@, kids@[k] as int);
                    }
                    assert(kid_texts(out@, kids@) =~= texts_before.push(canon(out@, out@.len() - 1)));
                }
                p = q;
            },
            None => {
                return None;
            },
        }
    }
    proof {
        if let Some((nodes, i)) = target {
            lemma_compound_layout(cs@, pos as int, nodes, i);
            assert(kids@.len() == arity(nodes[i]));
        }
    }
    let ghost texts = kid_texts(out@, kids@);
    if kids.len() == 0 {
        let name = string_from_chars(&op);
        out.push(Node::Leaf(name));
        proof {
            assert(texts.len() == 0);
            assert(canon(out@, out@.len() - 1) == op@);
            assert(node_wf(out@[out@.len() - 1], out@.len() - 1));
            assert(out@.subrange(0, out0.len() as int) =~= out0);
        }
        return Some(p + 1);
    }
    let ghost before = out@;
    match make_node(&op, &kids) {
        Some(n) => {
            proof {
                match n {
                    Node::Add(a, b) | Node::Sub(a, b) | Node::Mul(a, b) => {
                        assert(kid(n, 0) == a && kid(n, 1) == b);
                        assert(kids@[0] == a && kids@[1] == b);
                    },
                    Node::Square(a) | Node::Inverse(a) => {
                        assert(kid(n, 0) == a);
                        assert(kids@[0] == a);
                    },
                    Node::Leaf(_) => {},
                }
            }
            let ghost gn = n;
            out.push(n);
            proof {
                assert(node_wf(out@[out@.len() - 1], out@.len() - 1));
                assert(out@.subrange(0, out0.len() as int) =~= out0) by {
                    assert forall|j: int| 0 <= j < out0.len() implies
                        out@.subrange(0, out0.len() as int)[j] == out0[j] by {
                        assert(before.subrange(0, out0.len() as int)[j] == out0[j]);
                    }
                }
                assert(out@.subrange(0, before.len() as int) =~= before);
                assert forall|k: int| 0 <= k < kids@.len() implies
                    canon(out@, #[trigger] kids@[k] as int) == texts[k] by {
                    lemma_canon_prefix(before, out@, kids@[k] as int);
                }
                match gn {
                    Node::Add(a, b) | Node::Sub(a, b) | Node::Mul(a, b) => {
                        assert(canon(out@, out@.len() - 1) == binary_form(op@, texts[0], texts[1]));
                    },
                    Node::Square(a) | Node::Inverse(a) => {
                        assert(canon(out@, out@.len() - 1) == unary_form(op@, texts[0]));
                    },
                    Node::Leaf(_) => {},
                }
                if let Some((nodes, i)) = target {
                    let m = nodes[i];
                    lemma_compound_layout(cs@, pos as int, nodes, i);
                    assert forall|k: int| 0 <= k < arity(n) implies
                        canon(out@, #[trigger] kid(n, k)) == canon(nodes, kid(m, k)) by {
                        lemma_canon_prefix(before, out@, kids@[k] as int);
                    }
                    assert(n == with_kids(m, kids@));
                    assert(canon(out@, out@.len() - 1) =~= canon(nodes, i));
                }
            }
            Some(p + 1)
        },
        None => None,
    }
}

impl Expr {
    /// Parses one expression in the prefix syntax, e.g. `(+ a (* b c))`. Operators
    /// are `+ - *` (binary) and `^2 inv` (unary); `(x)` is the leaf `x`; whitespace
    /// between tokens is free. Returns `None` exactly where the text is not one
    /// expression of that grammar (`parses`); otherwise the result's canonical text
    /// is the text read by the grammar, with whitespace normalised (`parsed_text`).
    /// The canonical text of any node of a well-formed table, the root or an inner
    /// one, parses back to an expression with that same canonical text.
    pub fn parse(s: &str) -> (r: Option<Expr>)
        ensures
            r is Some <==> parses(s@),
            r matches Some(e) ==> e.wf() && e.text() == parsed_text(s@),
            forall|e: Expr| #[trigger] e.wf() && s@ == e.text() ==> (r matches Some(p) && p.text() == s@),
            forall|nodes: Seq<Node>, i: int| nodes_wf(nodes) && 0 <= i < nodes.len() && s@ == #[trigger] canon(nodes, i)
                ==> (r matches Some(p) && p.text() == s@),
    {
        let cs = chars_of(s);
        let ghost target: Option<(Seq<Node>, int)> = if exists|nodes: Seq<Node>, i: int|
            nodes_wf(nodes) && 0 <= i < nodes.len() && s@ == #[trigger] canon(nodes, i) {
            let (nodes, i) = choose|nodes: Seq<Node>, i: int|
                nodes_wf(nodes) && 0 <= i < nodes.len() && s@ == #[trigger] canon(nodes, i);
            Some((nodes, i))
        } else {
            None
        };
        proof {
            assert forall|e: Expr| #[trigger] e.wf() && s@ == e.text() implies
                nodes_wf(e@) && 0 <= e@.len() - 1 < e@.len() && s@ == canon(e@, e@.len() - 1) by {}
        }
        proof {
            if let Some((nodes, i)) = target {
                assert(cs@.subrange(0, cs@.len() as int) =~= cs@);
            }
        }
        let mut out: Vec<Node> = Vec::new();
        match parse_at(&cs, 0, &mut out, Ghost(target)) {
            Some(p) => {
                let q = skip_spaces(&cs, p);
                if q == cs.len() {
                    Some(Expr { nodes: out })
                } else {
                    None
                }
            },
            None => None,
        }
    }
}

} // verus!
