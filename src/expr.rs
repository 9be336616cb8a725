use vstd::prelude::*;

verus! {

/// One node of an expression table. Children are indices of earlier nodes.
pub enum Node {
    Add(usize, usize),
    Sub(usize, usize),
    Mul(usize, usize),
    Square(usize),
    Inverse(usize),
    Leaf(String),
}

/// An expression as a flat table of nodes; the root is the last node.
pub struct Expr {
    pub nodes: Vec<Node>,
}

/// Characters that separate tokens in the textual syntax.
pub open spec fn is_space(c: char) -> bool {
    c == ' ' || c == '\t' || c == '\n' || c == '\r'
}

/// Characters that may appear in a leaf name.
pub open spec fn is_atom_char(c: char) -> bool {
    !is_space(c) && c != '(' && c != ')'
}

/// A leaf name is a non-empty run of atom characters.
pub open spec fn is_atom(s: Seq<char>) -> bool {
    s.len() > 0 && forall|k: int| 0 <= k < s.len() ==> is_atom_char(#[trigger] s[k])
}

/// Node `i` refers only to earlier nodes, and a leaf holds a valid name.
pub open spec fn node_wf(n: Node, i: int) -> bool {
    match n {
        Node::Add(a, b) => a < i && b < i,
        Node::Sub(a, b) => a < i && b < i,
        Node::Mul(a, b) => a < i && b < i,
        Node::Square(a) => a < i,
        Node::Inverse(a) => a < i,
        Node::Leaf(s) => is_atom(s@),
    }
}

pub open spec fn nodes_wf(nodes: Seq<Node>) -> bool {
    &&& nodes.len() > 0
    &&& forall|i: int| 0 <= i < nodes.len() ==> node_wf(#[trigger] nodes[i], i)
}

/// The operator's text in the prefix syntax.
pub open spec fn op_text(n: Node) -> Seq<char> {
    match n {
        Node::Add(_, _) => seq!['+'],
        Node::Sub(_, _) => seq!['-'],
        Node::Mul(_, _) => seq!['*'],
        Node::Square(_) => seq!['^', '2'],
        Node::Inverse(_) => seq!['i', 'n', 'v'],
        Node::Leaf(s) => s@,
    }
}

pub open spec fn binary_form(op: Seq<char>, l: Seq<char>, r: Seq<char>) -> Seq<char> {
    seq!['('] + op + seq![' '] + l + seq![' '] + r + seq![')']
}

pub open spec fn unary_form(op: Seq<char>, c: Seq<char>) -> Seq<char> {
    seq!['('] + op + seq![' '] + c + seq![')']
}

/// The canonical (fully parenthesized prefix) text of the subexpression rooted at `i`.
pub open spec fn canon(nodes: Seq<Node>, i: int) -> Seq<char>
    decreases i,
{
    if i < 0 || i >= nodes.len() {
        Seq::empty()
    } else {
        let n = nodes[i];
        match n {
            Node::Add(a, b) => if a < i && b < i {
                binary_form(op_text(n), canon(nodes, a as int), canon(nodes, b as int))
            } else {
                Seq::empty()
            },
            Node::Sub(a, b) => if a < i && b < i {
                binary_form(op_text(n), canon(nodes, a as int), canon(nodes, b as int))
            } else {
                Seq::empty()
            },
            Node::Mul(a, b) => if a < i && b < i {
                binary_form(op_text(n), canon(nodes, a as int), canon(nodes, b as int))
            } else {
                Seq::empty()
            },
            Node::Square(a) => if a < i {
                unary_form(op_text(n), canon(nodes, a as int))
            } else {
                Seq::empty()
            },
            Node::Inverse(a) => if a < i {
                unary_form(op_text(n), canon(nodes, a as int))
            } else {
                Seq::empty()
            },
            Node::Leaf(s) => s@,
        }
    }
}

impl Expr {
    pub open spec fn wf(&self) -> bool {
        nodes_wf(self@)
    }

    pub open spec fn root(&self) -> int {
        self@.len() - 1
    }

    /// The canonical text of the whole expression.
    pub open spec fn text(&self) -> Seq<char> {
        canon(self@, self.root())
    }

    /// Builds an expression from a node table, if the table is well formed.
    pub fn from_nodes(nodes: Vec<Node>) -> (r: Option<Expr>)
        ensures
            r is Some <==> nodes_wf(nodes@),
            r matches Some(e) ==> e@ == nodes@,
    {
        if nodes.len() == 0 {
            return None;
        }
        let mut i: usize = 0;
        while i < nodes.len()
            invariant
                0 <= i <= nodes@.len(),
                forall|j: int| 0 <= j < i ==> node_wf(#[trigger] nodes@[j], j),
            decreases nodes@.len() - i,
        {
            let ok = match &nodes[i] {
                Node::Add(a, b) => *a < i && *b < i,
                Node::Sub(a, b) => *a < i && *b < i,
                Node::Mul(a, b) => *a < i && *b < i,
                Node::Square(a) => *a < i,
                Node::Inverse(a) => *a < i,
                Node::Leaf(s) => is_atom_text(s.as_str()),
            };
            if !ok {
                assert(!node_wf(nodes@[i as int], i as int));
                return None;
            }
            i = i + 1;
        }
        Some(Expr { nodes })
    }

    pub fn len(&self) -> (r: usize)
        ensures
            r == self@.len(),
    {
        self.nodes.len()
    }

    /// The canonical text of the subexpression rooted at node `id`.
    pub fn subexpr_to_string(&self, id: usize) -> (r: Vec<char>)
        requires
            self.wf(),
            id < self@.len(),
        ensures
            r@ == canon(self@, id as int),
        decreases id,
    {
        let mut out: Vec<char> = Vec::new();
        let (op, a, b): (char, usize, usize) = match &self.nodes[id] {
            Node::Leaf(s) => {
                return chars_of(s.as_str());
            },
            Node::Add(a, b) => ('+', *a, *b),
            Node::Sub(a, b) => ('-', *a, *b),
            Node::Mul(a, b) => ('*', *a, *b),
            Node::Square(a) => {
                out.push('(');
                out.push('^');
                out.push('2');
                out.push(' ');
                let c = self.subexpr_to_string(*a);
                append_chars(&mut out, &c);
                out.push(')');
                assert(out@ =~= unary_form(op_text(self@[id as int]), canon(self@, *a as int)));
                return out;
            },
            Node::Inverse(a) => {
                out.push('(');
                out.push('i');
                out.push('n');
                out.push('v');
                out.push(' ');
                let c = self.subexpr_to_string(*a);
                append_chars(&mut out, &c);
                out.push(')');
                assert(out@ =~= unary_form(op_text(self@[id as int]), canon(self@, *a as int)));
                return out;
            },
        };
        out.push('(');
        out.push(op);
        out.push(' ');
        let l = self.subexpr_to_string(a);
        append_chars(&mut out, &l);
        out.push(' ');
        let r = self.subexpr_to_string(b);
        append_chars(&mut out, &r);
        out.push(')');
        assert(out@ =~= binary_form(seq![op], canon(self@, a as int), canon(self@, b as int)));
        out
    }

    /// The canonical text of the whole expression.
    pub fn to_text(&self) -> (r: Vec<char>)
        requires
            self.wf(),
        ensures
            r@ == self.text(),
    {
        self.subexpr_to_string(self.nodes.len() - 1)
    }
}

/// `t` is the canonical text of some well-formed expression.
pub open spec fn is_canonical_text(t: Seq<char>) -> bool {
    exists|e: Expr| #[trigger] e.wf() && t == e.text()
}

impl View for Expr {
    type V = Seq<Node>;

    open spec fn view(&self) -> Seq<Node> {
        self.nodes@
    }
}

/// Appends the characters of `src` to `out`.
pub fn append_chars(out: &mut Vec<char>, src: &Vec<char>)
    ensures
        final(out)@ == old(out)@ + src@,
{
    let mut i: usize = 0;
    while i < src.len()
        invariant
            0 <= i <= src@.len(),
            out@ == old(out)@ + src@.subrange(0, i as int),
        decreases src@.len() - i,
    {
        out.push(src[i]);
        i = i + 1;
        assert(out@ =~= old(out)@ + src@.subrange(0, i as int));
    }
    assert(src@.subrange(0, src@.len() as int) =~= src@);
}

/// The characters of a string slice.
pub fn chars_of(s: &str) -> (r: Vec<char>)
    ensures
        r@ == s@,
{
    let n = s.unicode_len();
    let mut out: Vec<char> = Vec::new();
    let mut i: usize = 0;
    while i < n
        invariant
            n == s@.len(),
            0 <= i <= n,
            out@ == s@.subrange(0, i as int),
        decreases n - i,
    {
        out.push(s.get_char(i));
        i = i + 1;
        assert(out@ =~= s@.subrange(0, i as int));
    }
    assert(s@.subrange(0, n as int) =~= s@);
    out
}

pub fn is_space_char(c: char) -> (r: bool)
    ensures
        r == is_space(c),
{
    c == ' ' || c == '\t' || c == '\n' || c == '\r'
}

/// Whether a string is a valid leaf name.
pub fn is_atom_text(s: &str) -> (r: bool)
    ensures
        r == is_atom(s@),
{
    let cs = chars_of(s);
    if cs.len() == 0 {
        return false;
    }
    let mut i: usize = 0;
    while i < cs.len()
        invariant
            0 <= i <= cs@.len(),
            cs@ == s@,
            forall|k: int| 0 <= k < i ==> is_atom_char(#[trigger] cs@[k]),
        decreases cs@.len() - i,
    {
        let c = cs[i];
        if is_space_char(c) || c == '(' || c == ')' {
            return false;
        }
        i = i + 1;
    }
    true
}

} // verus!
