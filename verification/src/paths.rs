//! Canonical paths. A match carries the path from the root to the matched
//! node, kept as a list of steps (object key or array index) and rendered
//! as the dot-bracketed string `$.['key'][idx]...`.
use vstd::prelude::*;
use crate::json::{Jv, obj_get};

verus! {

/// One step of a canonical path.
pub enum PathElem {
    /// Object member access, `.['key']`.
    Key(String),
    /// Array index access, `[n]`.
    Idx(usize),
}

/// The model of a path step.
pub enum PathElemV {
    Key(Seq<char>),
    Idx(int),
}

impl View for PathElem {
    type V = PathElemV;

    open spec fn view(&self) -> PathElemV {
        match self {
            PathElem::Key(k) => PathElemV::Key(k@),
            PathElem::Idx(i) => PathElemV::Idx(*i as int),
        }
    }
}

/// The model of a whole path.
pub open spec fn pv(p: Seq<PathElem>) -> Seq<PathElemV> {
    p.map_values(|e: PathElem| e@)
}

/// The node of `v` that the path `ps` addresses, if any: keys select
/// object members, indices select array elements.
pub open spec fn resolve(v: Jv, ps: Seq<PathElemV>) -> Option<Jv>
    decreases ps.len(),
{
    if ps.len() == 0 {
        Some(v)
    } else {
        match (ps[0], v) {
            (PathElemV::Key(k), Jv::Obj(es)) => match obj_get(es, k) {
                Some(c) => resolve(c, ps.drop_first()),
                None => Option::None,
            },
            (PathElemV::Idx(i), Jv::Arr(xs)) => if 0 <= i < xs.len() {
                resolve(xs[i], ps.drop_first())
            } else {
                Option::None
            },
            _ => Option::None,
        }
    }
}

/// The decimal digits of `n` (for `n >= 0`), most significant first.
pub open spec fn dec_str(n: int) -> Seq<char>
    decreases n,
{
    if n < 10 {
        seq![digit_char(n)]
    } else {
        dec_str(n / 10).push(digit_char(n % 10))
    }
}

/// The digit character for `0 <= d <= 9`.
pub open spec fn digit_char(d: int) -> char {
    if d == 0 {
        '0'
    } else if d == 1 {
        '1'
    } else if d == 2 {
        '2'
    } else if d == 3 {
        '3'
    } else if d == 4 {
        '4'
    } else if d == 5 {
        '5'
    } else if d == 6 {
        '6'
    } else if d == 7 {
        '7'
    } else if d == 8 {
        '8'
    } else {
        '9'
    }
}

/// `prefix` followed by `[idx]`.
pub open spec fn spec_jsp_idx(prefix: Seq<char>, idx: int) -> Seq<char> {
    prefix + seq!['['] + dec_str(idx) + seq![']']
}

/// `prefix` followed by `.['key']`.
pub open spec fn spec_jsp_obj(prefix: Seq<char>, key: Seq<char>) -> Seq<char> {
    prefix + seq!['.', '[', '\''] + key + seq!['\'', ']']
}

/// The canonical string of a path: `$` followed by each rendered step.
pub open spec fn spec_render(ps: Seq<PathElemV>) -> Seq<char>
    decreases ps.len(),
{
    if ps.len() == 0 {
        seq!['$']
    } else {
        match ps.last() {
            PathElemV::Key(k) => spec_jsp_obj(spec_render(ps.drop_last()), k),
            PathElemV::Idx(i) => spec_jsp_idx(spec_render(ps.drop_last()), i),
        }
    }
}

pub(crate) fn append_digit(s: &mut String, d: usize)
    requires
        d <= 9,
    ensures
        final(s)@ == old(s)@.push(digit_char(d as int)),
{
    match d {
        0 => s.append("0"),
        1 => s.append("1"),
        2 => s.append("2"),
        3 => s.append("3"),
        4 => s.append("4"),
        5 => s.append("5"),
        6 => s.append("6"),
        7 => s.append("7"),
        8 => s.append("8"),
        _ => s.append("9"),
    }
    proof {
        reveal_strlit("0");
        reveal_strlit("1");
        reveal_strlit("2");
        reveal_strlit("3");
        reveal_strlit("4");
        reveal_strlit("5");
        reveal_strlit("6");
        reveal_strlit("7");
        reveal_strlit("8");
        reveal_strlit("9");
        assert(s@ =~= old(s)@.push(digit_char(d as int)));
    }
}

/// Appends the decimal digits of `n` to `s`.
pub(crate) fn push_digits(s: &mut String, n: usize)
    ensures
        final(s)@ == old(s)@ + dec_str(n as int),
    decreases n,
{
    if n < 10 {
        append_digit(s, n);
        proof {
            assert(s@ =~= old(s)@ + dec_str(n as int));
        }
    } else {
        push_digits(s, n / 10);
        append_digit(s, n % 10);
        proof {
            assert(s@ =~= old(s)@ + dec_str(n as int));
        }
    }
}

/// `prefix` followed by the index step `[idx]`.
pub fn jsp_idx(prefix: &str, idx: usize) -> (r: String)
    ensures
        r@ == spec_jsp_idx(prefix@, idx as int),
{
    let mut s = prefix.to_owned();
    s.append("[");
    push_digits(&mut s, idx);
    s.append("]");
    proof {
        reveal_strlit("[");
        reveal_strlit("]");
        assert(s@ =~= spec_jsp_idx(prefix@, idx as int));
    }
    s
}

/// `prefix` followed by the member step `.['key']`.
pub fn jsp_obj(prefix: &str, key: &str) -> (r: String)
    ensures
        r@ == spec_jsp_obj(prefix@, key@),
{
    let mut s = prefix.to_owned();
    s.append(".['");
    s.append(key);
    s.append("']");
    proof {
        reveal_strlit(".['");
        reveal_strlit("']");
        assert(s@ =~= spec_jsp_obj(prefix@, key@));
    }
    s
}

/// Renders a step list as the canonical path string.
pub fn render_path(ps: &Vec<PathElem>) -> (r: String)
    ensures
        r@ == spec_render(pv(ps@)),
{
    let mut s = "$".to_owned();
    proof {
        reveal_strlit("$");
        assert(pv(ps@.take(0)) =~= Seq::<PathElemV>::empty());
        assert(s@ =~= spec_render(pv(ps@.take(0))));
    }
    let mut i: usize = 0;
    while i < ps.len()
        invariant
            0 <= i <= ps@.len(),
            s@ == spec_render(pv(ps@.take(i as int))),
        decreases ps@.len() - i,
    {
        match &ps[i] {
            PathElem::Key(k) => {
                let t = jsp_obj(s.as_str(), k.as_str());
                s = t;
            },
            PathElem::Idx(n) => {
                let t = jsp_idx(s.as_str(), *n);
                s = t;
            },
        }
        proof {
            assert(pv(ps@.take(i + 1)).drop_last() =~= pv(ps@.take(i as int)));
            assert(pv(ps@.take(i + 1)).last() == ps@[i as int]@);
            assert(s@ =~= spec_render(pv(ps@.take(i + 1))));
        }
        i = i + 1;
    }
    proof {
        assert(ps@.take(ps@.len() as int) =~= ps@);
    }
    s
}

} // verus!
