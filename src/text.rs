use vstd::prelude::*;
use crate::expr::{is_space, is_space_char, is_atom_char};
use crate::cost::chars_eq;

verus! {

pub open spec fn trim_start(s: Seq<char>) -> Seq<char>
    decreases s.len(),
{
    if s.len() > 0 && is_space(s[0]) {
        trim_start(s.subrange(1, s.len() as int))
    } else {
        s
    }
}

pub open spec fn trim_end(s: Seq<char>) -> Seq<char>
    decreases s.len(),
{
    if s.len() > 0 && is_space(s.last()) {
        trim_end(s.drop_last())
    } else {
        s
    }
}

/// `s` without leading and trailing whitespace.
pub open spec fn trim(s: Seq<char>) -> Seq<char> {
    trim_end(trim_start(s))
}

/// Where `c` occurs in `s`, if it occurs exactly once.
pub open spec fn sole_index(s: Seq<char>, c: char, k: int) -> bool {
    &&& 0 <= k < s.len()
    &&& s[k] == c
    &&& forall|j: int| 0 <= j < s.len() && j != k ==> s[j] != c
}

/// The arrow `=>` starts at `k`.
pub open spec fn arrow_at(s: Seq<char>, k: int) -> bool {
    0 <= k && k + 1 < s.len() && s[k] == '=' && s[k + 1] == '>'
}

/// The arrow occurs at `k` and nowhere else.
pub open spec fn sole_arrow(s: Seq<char>, k: int) -> bool {
    arrow_at(s, k) && forall|j: int| j != k ==> !arrow_at(s, j)
}

pub fn slice(s: &Vec<char>, lo: usize, hi: usize) -> (r: Vec<char>)
    requires
        lo <= hi <= s@.len(),
    ensures
        r@ == s@.subrange(lo as int, hi as int),
{
    let mut out: Vec<char> = Vec::new();
    let mut i: usize = lo;
    while i < hi
        invariant
            lo <= i <= hi,
            hi <= s@.len(),
            out@ == s@.subrange(lo as int, i as int),
        decreases hi - i,
    {
        out.push(s[i]);
        i = i + 1;
        assert(out@ =~= s@.subrange(lo as int, i as int));
    }
    out
}

/// `s` without leading and trailing whitespace.
pub fn trim_chars(s: &Vec<char>) -> (r: Vec<char>)
    ensures
        r@ == trim(s@),
{
    let n = s.len();
    let mut lo: usize = 0;
    assert(s@.subrange(0, n as int) =~= s@);
    while lo < n && is_space_char(s[lo])
        invariant
            0 <= lo <= n,
            n == s@.len(),
            trim_start(s@) == trim_start(s@.subrange(lo as int, n as int)),
        decreases n - lo,
    {
        let ghost t = s@.subrange(lo as int, n as int);
        assert(t.subrange(1, t.len() as int) =~= s@.subrange(lo + 1, n as int));
        lo = lo + 1;
    }
    assert(trim_start(s@) == s@.subrange(lo as int, n as int));
    let mut hi: usize = n;
    while hi > lo && is_space_char(s[hi - 1])
        invariant
            lo <= hi <= n,
            n == s@.len(),
            trim(s@) == trim_end(s@.subrange(lo as int, hi as int)),
        decreases hi - lo,
    {
        let ghost t = s@.subrange(lo as int, hi as int);
        assert(t.drop_last() =~= s@.subrange(lo as int, hi - 1));
        hi = hi - 1;
    }
    slice(s, lo, hi)
}

/// The position of the only `c` in `s`, if `c` occurs exactly once.
pub fn find_sole(s: &Vec<char>, c: char) -> (r: Option<usize>)
    ensures
        r matches Some(k) ==> sole_index(s@, c, k as int),
        r is None ==> forall|k: int| !sole_index(s@, c, k),
{
    let mut found: Option<usize> = None;
    let mut i: usize = 0;
    while i < s.len()
        invariant
            0 <= i <= s@.len(),
            found matches Some(k) ==> k < i && s@[k as int] == c
                && forall|j: int| 0 <= j < i && j != k ==> s@[j] != c,
            found is None ==> forall|j: int| 0 <= j < i ==> s@[j] != c,
        decreases s@.len() - i,
    {
        if s[i] == c {
            if found.is_some() {
                proof {
                    assert forall|k: int| !sole_index(s@, c, k) by {
                        if sole_index(s@, c, k) {
                            let f = found->0;
                            assert(s@[f as int] == c && s@[i as int] == c);
                        }
                    }
                }
                return None;
            }
            found = Some(i);
        }
        i = i + 1;
    }
    found
}

/// The position of the only arrow `=>` in `s`, if it occurs exactly once.
pub fn find_sole_arrow(s: &Vec<char>) -> (r: Option<usize>)
    ensures
        r matches Some(k) ==> sole_arrow(s@, k as int),
        r is None ==> forall|k: int| !sole_arrow(s@, k),
{
    let mut found: Option<usize> = None;
    let mut i: usize = 0;
    while i < s.len() && s.len() - i > 1
        invariant
            0 <= i <= s@.len(),
            found matches Some(k) ==> k < i && arrow_at(s@, k as int)
                && forall|j: int| j < i && j != k ==> !arrow_at(s@, j),
            found is None ==> forall|j: int| j < i ==> !arrow_at(s@, j),
        decreases s@.len() - i,
    {
        if s[i] == '=' && s[i + 1] == '>' {
            if found.is_some() {
                proof {
                    assert forall|k: int| !sole_arrow(s@, k) by {
                        if sole_arrow(s@, k) {
                            let f = found->0;
                            assert(arrow_at(s@, f as int) && arrow_at(s@, i as int));
                        }
                    }
                }
                return None;
            }
            found = Some(i);
        }
        i = i + 1;
    }
    found
}

/// `s[p..q]` is a whole atom: a maximal run of atom characters.
pub open spec fn atom_at(s: Seq<char>, p: int, q: int) -> bool {
    &&& 0 <= p < q <= s.len()
    &&& forall|k: int| p <= k < q ==> is_atom_char(#[trigger] s[k])
    &&& p == 0 || !is_atom_char(s[p - 1])
    &&& q == s.len() || !is_atom_char(s[q])
}

/// A pattern variable: `?` followed by at least one character.
pub open spec fn is_var_text(t: Seq<char>) -> bool {
    t.len() > 1 && t[0] == '?'
}

/// `t` is one of the atoms of `s`.
pub open spec fn has_atom(s: Seq<char>, t: Seq<char>) -> bool {
    exists|p: int, q: int| atom_at(s, p, q) && s.subrange(p, q) == t
}

/// Every pattern variable of `r` is also an atom of `l`.
pub open spec fn vars_bound(l: Seq<char>, r: Seq<char>) -> bool {
    forall|p: int, q: int| atom_at(r, p, q) && is_var_text(r.subrange(p, q)) ==> has_atom(l, r.subrange(p, q))
}

/// The spans of all atoms of `s`.
pub fn atom_spans(s: &Vec<char>) -> (r: Vec<(usize, usize)>)
    ensures
        forall|k: int| 0 <= k < r@.len() ==> atom_at(s@, #[trigger] r@[k].0 as int, r@[k].1 as int),
        forall|p: int, q: int| atom_at(s@, p, q) ==> exists|k: int| 0 <= k < r@.len() && #[trigger] r@[k] == (p as usize, q as usize),
{
    let n = s.len();
    let mut out: Vec<(usize, usize)> = Vec::new();
    let mut i: usize = 0;
    while i < n
        invariant
            n == s@.len(),
            0 <= i <= n,
            i == 0 || i == n || !is_atom_char(s@[i - 1]) || !is_atom_char(s@[i as int]),
            forall|k: int| 0 <= k < out@.len() ==> atom_at(s@, #[trigger] out@[k].0 as int, out@[k].1 as int),
            forall|p: int, q: int| atom_at(s@, p, q) && p < i ==> exists|k: int| 0 <= k < out@.len() && #[trigger] out@[k] == (p as usize, q as usize),
        decreases n - i,
    {
        let c = s[i];
        if is_space_char(c) || c == '(' || c == ')' {
            proof {
                assert forall|p: int, q: int| atom_at(s@, p, q) && p < i + 1 implies exists|k: int| 0 <= k < out@.len() && #[trigger] out@[k] == (p as usize, q as usize) by {
                    if p == i {
                        assert(is_atom_char(s@[p]));
                    }
                }
            }
            i = i + 1;
        } else {
            let mut j: usize = i + 1;
            while j < n && !is_space_char(s[j]) && s[j] != '(' && s[j] != ')'
                invariant
                    n == s@.len(),
                    i < j <= n,
                    forall|k: int| i <= k < j ==> is_atom_char(#[trigger] s@[k]),
                decreases n - j,
            {
                j = j + 1;
            }
            let ghost old_out = out@;
            out.push((i, j));
            proof {
                assert(atom_at(s@, i as int, j as int));
                assert forall|p: int, q: int| atom_at(s@, p, q) && p < j implies exists|k: int| 0 <= k < out@.len() && #[trigger] out@[k] == (p as usize, q as usize) by {
                    if p < i {
                        let k = choose|k: int| 0 <= k < old_out.len() && #[trigger] old_out[k] == (p as usize, q as usize);
                        assert(out@[k] == old_out[k]);
                    } else {
                        if p > i {
                            assert(is_atom_char(s@[p - 1]));
                        }
                        assert(p == i);
                        if q < j {
                            assert(is_atom_char(s@[q]));
                        }
                        if q > j {
                            assert(is_atom_char(s@[j as int]));
                        }
                        assert(out@[old_out.len() as int] == (p as usize, q as usize));
                    }
                }
            }
            i = j;
        }
    }
    out
}

/// Whether every pattern variable of `r` is also an atom of `l`.
pub fn vars_bound_text(l: &Vec<char>, r: &Vec<char>) -> (b: bool)
    ensures
        b == vars_bound(l@, r@),
{
    let ls = atom_spans(l);
    let rs = atom_spans(r);
    let rn = r.len();
    let ln = l.len();
    let mut i: usize = 0;
    while i < rs.len()
        invariant
            rn == r@.len(),
            ln == l@.len(),
            0 <= i <= rs@.len(),
            forall|k: int| 0 <= k < rs@.len() ==> atom_at(r@, #[trigger] rs@[k].0 as int, rs@[k].1 as int),
            forall|p: int, q: int| atom_at(r@, p, q) ==> exists|k: int| 0 <= k < rs@.len() && #[trigger] rs@[k] == (p as usize, q as usize),
            forall|k: int| 0 <= k < ls@.len() ==> atom_at(l@, #[trigger] ls@[k].0 as int, ls@[k].1 as int),
            forall|p: int, q: int| atom_at(l@, p, q) ==> exists|k: int| 0 <= k < ls@.len() && #[trigger] ls@[k] == (p as usize, q as usize),
            forall|k: int| 0 <= k < i ==> (is_var_text(r@.subrange(#[trigger] rs@[k].0 as int, rs@[k].1 as int))
                ==> has_atom(l@, r@.subrange(rs@[k].0 as int, rs@[k].1 as int))),
        decreases rs@.len() - i,
    {
        let (p, q) = rs[i];
        assert(atom_at(r@, p as int, q as int));
        let t = slice(r, p, q);
        if t.len() > 1 && t[0] == '?' {
            let mut found = false;
            let mut j: usize = 0;
            while j < ls.len()
                invariant
                    ln == l@.len(),
                    0 <= j <= ls@.len(),
                    forall|k: int| 0 <= k < ls@.len() ==> atom_at(l@, #[trigger] ls@[k].0 as int, ls@[k].1 as int),
                    found ==> has_atom(l@, t@),
                    !found ==> forall|k: int| 0 <= k < j ==> l@.subrange(#[trigger] ls@[k].0 as int, ls@[k].1 as int) != t@,
                decreases ls@.len() - j,
            {
                let (lp, lq) = ls[j];
                assert(atom_at(l@, lp as int, lq as int));
                let u = slice(l, lp, lq);
                if chars_eq(&u, &t) {
                    found = true;
                }
                j = j + 1;
            }
            if !found {
                proof {
                    assert(!has_atom(l@, t@)) by {
                        if has_atom(l@, t@) {
                            let (a, b) = choose|a: int, b: int| atom_at(l@, a, b) && l@.subrange(a, b) == t@;
                            let k = choose|k: int| 0 <= k < ls@.len() && #[trigger] ls@[k] == (a as usize, b as usize);
                            assert(ls@[k].0 as int == a && ls@[k].1 as int == b);
                            assert(l@.subrange(ls@[k].0 as int, ls@[k].1 as int) != t@);
                        }
                    }
                }
                return false;
            }
        }
        i = i + 1;
    }
    proof {
        assert forall|p: int, q: int| atom_at(r@, p, q) && is_var_text(r@.subrange(p, q)) implies has_atom(l@, r@.subrange(p, q)) by {
            let k = choose|k: int| 0 <= k < rs@.len() && #[trigger] rs@[k] == (p as usize, q as usize);
            assert(rs@[k].0 as int == p && rs@[k].1 as int == q);
            assert(is_var_text(r@.subrange(rs@[k].0 as int, rs@[k].1 as int)));
        }
    }
    true
}

} // verus!
