//! Serialization of a compiled path back to text. The rendering is a
//! function of the AST alone, so serializing a compilation result is
//! well defined and stable; segments are rendered in their bracketed
//! canonical forms, filter expressions fully parenthesized.
use vstd::prelude::*;
use crate::ast::{CmpOp, FilterExpr, JsonPath, Operand, PathFn, Segment};
use crate::json::{pow10, Json, JsonNum};
use crate::paths::{dec_str, digit_char};

verus! {

/// The digits of `m` with its sign.
pub open spec fn int_text(m: int) -> Seq<char> {
    if m < 0 {
        seq!['-'] + dec_str(-m)
    } else {
        dec_str(m)
    }
}

/// Exactly `s` digits of the fraction `fp`, most significant first.
pub open spec fn frac_digits(fp: int, s: nat) -> Seq<char>
    decreases s,
{
    if s == 0 {
        Seq::empty()
    } else {
        frac_digits(fp / 10, (s - 1) as nat).push(digit_char(fp % 10))
    }
}

/// The decimal `m / 10^s` as a number literal.
pub open spec fn num_text(m: int, s: nat) -> Seq<char> {
    let a = if m < 0 {
        -m
    } else {
        m
    };
    let sign: Seq<char> = if m < 0 {
        seq!['-']
    } else {
        Seq::empty()
    };
    if s == 0 {
        sign + dec_str(a)
    } else {
        sign + dec_str(a / pow10(s)) + seq!['.'] + frac_digits(a % pow10(s), s)
    }
}

/// A JSON literal as path text. Objects have no literal form in the
/// grammar and never occur in a parsed path; they render as `null`.
pub open spec fn s_json_text(j: Json) -> Seq<char>
    decreases j, 0int,
{
    match j {
        Json::Null => "null"@,
        Json::Bool(b) => if b {
            "true"@
        } else {
            "false"@
        },
        Json::Num(n) => num_text(n.mant_spec(), n.scale_spec()),
        Json::Str(t) => seq!['\''] + t@ + seq!['\''],
        Json::Arr(items) => seq!['['] + s_items_text(items@, 0) + seq![']'],
        Json::Obj(_) => "null"@,
    }
}

pub open spec fn s_items_text(items: Seq<Json>, i: int) -> Seq<char>
    decreases items, items.len() - i + 1,
{
    if 0 <= i < items.len() {
        (if i > 0 {
            seq![',']
        } else {
            Seq::empty()
        }) + s_json_text(items[i]) + s_items_text(items, i + 1)
    } else {
        Seq::empty()
    }
}

/// The operator token, with the spaces around it.
pub open spec fn op_text(op: CmpOp) -> Seq<char> {
    match op {
        CmpOp::Eq => " == "@,
        CmpOp::Ne => " != "@,
        CmpOp::Lt => " < "@,
        CmpOp::Le => " <= "@,
        CmpOp::Gt => " > "@,
        CmpOp::Ge => " >= "@,
        CmpOp::Regex => " ~= "@,
        CmpOp::In => " in "@,
        CmpOp::Nin => " nin "@,
        CmpOp::SubsetOf => " subsetOf "@,
        CmpOp::AnyOf => " anyOf "@,
        CmpOp::NoneOf => " noneOf "@,
    }
}

/// A filter expression, fully parenthesized.
pub open spec fn s_expr_text(e: FilterExpr) -> Seq<char>
    decreases e, 0int,
{
    match e {
        FilterExpr::Or(a, b) => seq!['('] + s_expr_text(*a) + " || "@ + s_expr_text(*b)
            + seq![')'],
        FilterExpr::And(a, b) => seq!['('] + s_expr_text(*a) + " && "@ + s_expr_text(*b)
            + seq![')'],
        FilterExpr::Not(a) => seq!['(', '!'] + s_expr_text(*a) + seq![')'],
        FilterExpr::Exists(op) => s_operand_text(op),
        FilterExpr::Cmp(op, l, r) => s_operand_text(l) + op_text(op) + s_operand_text(r),
        FilterExpr::SizeIs(op, n) => s_operand_text(op) + " size "@ + int_text(n as int),
    }
}

pub open spec fn s_operand_text(o: Operand) -> Seq<char>
    decreases o, 0int,
{
    match o {
        Operand::Lit(j) => s_json_text(j),
        Operand::Path(jp) => s_segs_text(jp.segs@, 0),
    }
}

/// One segment as text.
pub open spec fn s_seg_text(seg: Segment) -> Seq<char>
    decreases seg, 0int,
{
    match seg {
        Segment::Root => seq!['$'],
        Segment::Current => seq!['@'],
        Segment::Field(name) => "['"@ + name@ + "']"@,
        Segment::Fields(names) => seq!['['] + s_names_text(names@, 0) + seq![']'],
        Segment::Index(n) => seq!['['] + int_text(n as int) + seq![']'],
        Segment::Indices(list) => seq!['['] + s_idxs_text(list@, 0) + seq![']'],
        Segment::Slice { start, end, step } => seq!['['] + (match start {
            Some(v) => int_text(v as int),
            None => Seq::empty(),
        }) + seq![':'] + (match end {
            Some(v) => int_text(v as int),
            None => Seq::empty(),
        }) + seq![':'] + int_text(step as int) + seq![']'],
        Segment::Wildcard => "[*]"@,
        Segment::Descent => ".."@,
        Segment::DescentField(name) => ".."@ + name@,
        Segment::Filter(e) => "[?("@ + s_expr_text(e) + ")]"@,
        Segment::Func(f) => match f {
            PathFn::Length => ".length()"@,
        },
    }
}

pub open spec fn s_names_text(names: Seq<String>, i: int) -> Seq<char>
    decreases names.len() - i,
{
    if 0 <= i < names.len() {
        (if i > 0 {
            seq![',']
        } else {
            Seq::empty()
        }) + seq!['\''] + names[i]@ + seq!['\''] + s_names_text(names, i + 1)
    } else {
        Seq::empty()
    }
}

pub open spec fn s_idxs_text(list: Seq<i64>, i: int) -> Seq<char>
    decreases list.len() - i,
{
    if 0 <= i < list.len() {
        (if i > 0 {
            seq![',']
        } else {
            Seq::empty()
        }) + int_text(list[i] as int) + s_idxs_text(list, i + 1)
    } else {
        Seq::empty()
    }
}

pub open spec fn s_segs_text(segs: Seq<Segment>, i: int) -> Seq<char>
    decreases segs, segs.len() - i + 1,
{
    if 0 <= i < segs.len() {
        s_seg_text(segs[i]) + s_segs_text(segs, i + 1)
    } else {
        Seq::empty()
    }
}

/// What serializing a whole path yields.
pub open spec fn spec_path_text(jp: JsonPath) -> Seq<char> {
    s_segs_text(jp.segs@, 0)
}

/// `10^e` as a `u64`.
fn pow10_u64(e: u32) -> (r: u64)
    requires
        e <= 18,
    ensures
        r == pow10(e as nat),
        1 <= r <= 1_000_000_000_000_000_000,
{
    proof {
        crate::json::lemma_pow10_val();
    }
    let mut r: u64 = 1;
    let mut i: u32 = 0;
    while i < e
        invariant
            i <= e <= 18,
            r == pow10(i as nat),
            1 <= r <= 1_000_000_000_000_000_000,
        decreases e - i,
    {
        proof {
            crate::json::lemma_pow10_val();
            crate::json::lemma_pow10_mono((i + 1) as nat, 18nat);
            crate::json::lemma_pow10_pos(i as nat);
        }
        r = r * 10;
        i = i + 1;
    }
    proof {
        crate::json::lemma_pow10_pos(e as nat);
    }
    r
}

fn push_digits_u64(s: &mut String, n: u64)
    ensures
        final(s)@ == old(s)@ + dec_str(n as int),
    decreases n,
{
    if n < 10 {
        crate::paths::append_digit(s, n as usize);
        proof {
            assert(s@ =~= old(s)@ + dec_str(n as int));
        }
    } else {
        push_digits_u64(s, n / 10);
        crate::paths::append_digit(s, (n % 10) as usize);
        proof {
            assert(s@ =~= old(s)@ + dec_str(n as int));
        }
    }
}

fn push_frac(s: &mut String, fp: u64, cnt: u32)
    ensures
        final(s)@ == old(s)@ + frac_digits(fp as int, cnt as nat),
    decreases cnt,
{
    if cnt > 0 {
        push_frac(s, fp / 10, cnt - 1);
        crate::paths::append_digit(s, (fp % 10) as usize);
        proof {
            assert(s@ =~= old(s)@ + frac_digits(fp as int, cnt as nat));
        }
    } else {
        proof {
            assert(s@ =~= old(s)@ + frac_digits(fp as int, cnt as nat));
        }
    }
}

fn push_int(s: &mut String, m: i64)
    ensures
        final(s)@ == old(s)@ + int_text(m as int),
    decreases 0int,
{
    let a: u64 = if m < 0 {
        (-(m as i128)) as u64
    } else {
        m as u64
    };
    if m < 0 {
        s.append("-");
        proof {
            reveal_strlit("-");
        }
    }
    push_digits_u64(s, a);
    proof {
        assert(s@ =~= old(s)@ + int_text(m as int));
    }
}

fn push_num(s: &mut String, n: JsonNum)
    ensures
        final(s)@ == old(s)@ + num_text(n.mant_spec(), n.scale_spec()),
{
    let m = n.mant();
    let sc = n.scale();
    let a: u64 = if m < 0 {
        (-(m as i128)) as u64
    } else {
        m as u64
    };
    if m < 0 {
        s.append("-");
        proof {
            reveal_strlit("-");
        }
    }
    if sc == 0 {
        push_digits_u64(s, a);
        proof {
            assert(s@ =~= old(s)@ + num_text(n.mant_spec(), n.scale_spec()));
        }
    } else {
        let p = pow10_u64(sc);
        push_digits_u64(s, a / p);
        s.append(".");
        proof {
            reveal_strlit(".");
        }
        push_frac(s, a % p, sc);
        proof {
            assert(s@ =~= old(s)@ + num_text(n.mant_spec(), n.scale_spec()));
        }
    }
}

fn push_json(s: &mut String, j: &Json)
    ensures
        final(s)@ == old(s)@ + s_json_text(*j),
    decreases *j, 1int,
{
    match j {
        Json::Null => {
            s.append("null");
        },
        Json::Bool(b) => {
            if *b {
                s.append("true");
            } else {
                s.append("false");
            }
        },
        Json::Num(n) => {
            push_num(s, *n);
        },
        Json::Str(t) => {
            s.append("'");
            s.append(t.as_str());
            s.append("'");
            proof {
                reveal_strlit("'");
                assert(s@ =~= old(s)@ + s_json_text(*j));
            }
        },
        Json::Arr(items) => {
            s.append("[");
            proof {
                reveal_strlit("[");
                reveal_strlit("]");
                reveal_strlit(",");
            }
            let ghost mid0 = s@;
            let mut i: usize = 0;
            proof {
                assert(s@ + s_items_text(j->Arr_0@, 0) =~= mid0 + s_items_text(j->Arr_0@, 0));
            }
            while i < items.len()
                invariant
                    0 <= i <= items@.len(),
                    j == Json::Arr(*items),
                    s@ + s_items_text(j->Arr_0@, i as int) == mid0 + s_items_text(j->Arr_0@, 0),
                decreases items@.len() - i,
            {
                proof {
                    reveal_strlit(",");
                    assert(decreases_to!(*j => j->Arr_0));
                    assert(decreases_to!(j->Arr_0 => j->Arr_0@));
                    assert(decreases_to!(j->Arr_0@ => j->Arr_0@[i as int]));
                    assert(j->Arr_0@[i as int] == items@[i as int]);
                }
                let ghost before = s@;
                if i > 0 {
                    s.append(",");
                }
                push_json(s, &items[i]);
                proof {
                    assert(s@ + s_items_text(j->Arr_0@, i + 1) =~= before + s_items_text(
                        j->Arr_0@,
                        i as int,
                    ));
                }
                i = i + 1;
            }
            s.append("]");
            proof {
                reveal_strlit("[");
                reveal_strlit("]");
                assert(s_items_text(j->Arr_0@, i as int) =~= Seq::<char>::empty());
                assert(s@ =~= old(s)@ + s_json_text(*j));
            }
        },
        Json::Obj(_) => {
            s.append("null");
        },
    }
    proof {
        reveal_strlit("null");
        reveal_strlit("true");
        reveal_strlit("false");
        assert(s@ =~= old(s)@ + s_json_text(*j));
    }
}

fn push_expr(s: &mut String, e: &FilterExpr)
    ensures
        final(s)@ == old(s)@ + s_expr_text(*e),
    decreases *e, 2int,
{
    match e {
        FilterExpr::Or(a, b) => {
            s.append("(");
            push_expr(s, a);
            s.append(" || ");
            push_expr(s, b);
            s.append(")");
            proof {
                reveal_strlit("(");
                reveal_strlit(" || ");
                reveal_strlit(")");
                assert(s@ =~= old(s)@ + s_expr_text(*e));
            }
        },
        FilterExpr::And(a, b) => {
            s.append("(");
            push_expr(s, a);
            s.append(" && ");
            push_expr(s, b);
            s.append(")");
            proof {
                reveal_strlit("(");
                reveal_strlit(" && ");
                reveal_strlit(")");
                assert(s@ =~= old(s)@ + s_expr_text(*e));
            }
        },
        FilterExpr::Not(a) => {
            s.append("(!");
            push_expr(s, a);
            s.append(")");
            proof {
                reveal_strlit("(!");
                reveal_strlit(")");
                assert(s@ =~= old(s)@ + s_expr_text(*e));
            }
        },
        FilterExpr::Exists(op) => {
            push_operand(s, op);
        },
        FilterExpr::Cmp(op, l, r) => {
            push_operand(s, l);
            let t: &str = match op {
                CmpOp::Eq => " == ",
                CmpOp::Ne => " != ",
                CmpOp::Lt => " < ",
                CmpOp::Le => " <= ",
                CmpOp::Gt => " > ",
                CmpOp::Ge => " >= ",
                CmpOp::Regex => " ~= ",
                CmpOp::In => " in ",
                CmpOp::Nin => " nin ",
                CmpOp::SubsetOf => " subsetOf ",
                CmpOp::AnyOf => " anyOf ",
                CmpOp::NoneOf => " noneOf ",
            };
            proof {
                assert(t@ == op_text(*op));
            }
            s.append(t);
            push_operand(s, r);
            proof {
                assert(s@ =~= old(s)@ + s_expr_text(*e));
            }
        },
        FilterExpr::SizeIs(op, n) => {
            push_operand(s, op);
            s.append(" size ");
            push_int(s, *n);
            proof {
                reveal_strlit(" size ");
                assert(s@ =~= old(s)@ + s_expr_text(*e));
            }
        },
    }
}

fn push_operand(s: &mut String, o: &Operand)
    ensures
        final(s)@ == old(s)@ + s_operand_text(*o),
    decreases *o, 1int,
{
    match o {
        Operand::Lit(j) => {
            push_json(s, j);
        },
        Operand::Path(jp) => {
            proof {
                assert(decreases_to!(*o => o->Path_0));
                assert(decreases_to!(o->Path_0 => o->Path_0.segs));
                assert(decreases_to!(o->Path_0.segs => o->Path_0.segs@));
            }
            push_segs(s, &jp.segs);
        },
    }
}

fn push_seg(s: &mut String, seg: &Segment)
    ensures
        final(s)@ == old(s)@ + s_seg_text(*seg),
    decreases *seg, 3int,
{
    match seg {
        Segment::Root => {
            s.append("$");
            proof {
                reveal_strlit("$");
                assert(s@ =~= old(s)@ + s_seg_text(*seg));
            }
        },
        Segment::Current => {
            s.append("@");
            proof {
                reveal_strlit("@");
                assert(s@ =~= old(s)@ + s_seg_text(*seg));
            }
        },
        Segment::Field(name) => {
            s.append("['");
            s.append(name.as_str());
            s.append("']");
            proof {
                reveal_strlit("['");
                reveal_strlit("']");
                assert(s@ =~= old(s)@ + s_seg_text(*seg));
            }
        },
        Segment::Fields(names) => {
            s.append("[");
            proof {
                reveal_strlit("[");
            }
            let ghost mid0 = s@;
            let mut i: usize = 0;
            proof {
                assert(s@ + s_names_text(names@, 0) =~= mid0 + s_names_text(names@, 0));
            }
            while i < names.len()
                invariant
                    0 <= i <= names@.len(),
                    seg == Segment::Fields(*names),
                    s@ + s_names_text(names@, i as int) == mid0 + s_names_text(names@, 0),
                decreases names@.len() - i,
            {
                proof {
                    reveal_strlit(",");
                    reveal_strlit("'");
                }
                let ghost before = s@;
                if i > 0 {
                    s.append(",");
                }
                s.append("'");
                s.append(names[i].as_str());
                s.append("'");
                proof {
                    assert(s@ + s_names_text(names@, i + 1) =~= before + s_names_text(
                        names@,
                        i as int,
                    ));
                }
                i = i + 1;
            }
            s.append("]");
            proof {
                reveal_strlit("]");
                assert(s_names_text(names@, i as int) =~= Seq::<char>::empty());
                assert(s@ =~= old(s)@ + s_seg_text(*seg));
            }
        },
        Segment::Index(n) => {
            s.append("[");
            push_int(s, *n);
            s.append("]");
            proof {
                reveal_strlit("[");
                reveal_strlit("]");
                assert(s@ =~= old(s)@ + s_seg_text(*seg));
            }
        },
        Segment::Indices(list) => {
            s.append("[");
            proof {
                reveal_strlit("[");
            }
            let ghost mid0 = s@;
            let mut i: usize = 0;
            proof {
                assert(s@ + s_idxs_text(list@, 0) =~= mid0 + s_idxs_text(list@, 0));
            }
            while i < list.len()
                invariant
                    0 <= i <= list@.len(),
                    seg == Segment::Indices(*list),
                    s@ + s_idxs_text(list@, i as int) == mid0 + s_idxs_text(list@, 0),
                decreases list@.len() - i,
            {
                proof {
                    reveal_strlit(",");
                }
                let ghost before = s@;
                if i > 0 {
                    s.append(",");
                }
                push_int(s, list[i]);
                proof {
                    assert(s@ + s_idxs_text(list@, i + 1) =~= before + s_idxs_text(
                        list@,
                        i as int,
                    ));
                }
                i = i + 1;
            }
            s.append("]");
            proof {
                reveal_strlit("]");
                assert(s_idxs_text(list@, i as int) =~= Seq::<char>::empty());
                assert(s@ =~= old(s)@ + s_seg_text(*seg));
            }
        },
        Segment::Slice { start, end, step } => {
            s.append("[");
            proof {
                reveal_strlit("[");
            }
            match start {
                Some(v) => {
                    push_int(s, *v);
                },
                None => {},
            }
            s.append(":");
            match end {
                Some(v) => {
                    push_int(s, *v);
                },
                None => {},
            }
            s.append(":");
            push_int(s, *step);
            s.append("]");
            proof {
                reveal_strlit(":");
                reveal_strlit("]");
                assert(s@ =~= old(s)@ + s_seg_text(*seg));
            }
        },
        Segment::Wildcard => {
            s.append("[*]");
            proof {
                reveal_strlit("[*]");
                assert(s@ =~= old(s)@ + s_seg_text(*seg));
            }
        },
        Segment::Descent => {
            s.append("..");
            proof {
                reveal_strlit("..");
                assert(s@ =~= old(s)@ + s_seg_text(*seg));
            }
        },
        Segment::DescentField(name) => {
            s.append("..");
            s.append(name.as_str());
            proof {
                reveal_strlit("..");
                assert(s@ =~= old(s)@ + s_seg_text(*seg));
            }
        },
        Segment::Filter(e) => {
            s.append("[?(");
            push_expr(s, e);
            s.append(")]");
            proof {
                reveal_strlit("[?(");
                reveal_strlit(")]");
                assert(s@ =~= old(s)@ + s_seg_text(*seg));
            }
        },
        Segment::Func(f) => {
            match f {
                PathFn::Length => {
                    s.append(".length()");
                    proof {
                        reveal_strlit(".length()");
                        assert(s@ =~= old(s)@ + s_seg_text(*seg));
                    }
                },
            }
        },
    }
}

fn push_segs(s: &mut String, segs: &Vec<Segment>)
    ensures
        final(s)@ == old(s)@ + s_segs_text(segs@, 0),
    decreases segs@, 4int,
{
    let ghost start = s@;
    let mut i: usize = 0;
    proof {
        assert(s@ + s_segs_text(segs@, 0) =~= start + s_segs_text(segs@, 0));
    }
    while i < segs.len()
        invariant
            0 <= i <= segs@.len(),
            s@ + s_segs_text(segs@, i as int) == start + s_segs_text(segs@, 0),
        decreases segs@.len() - i,
    {
        proof {
            assert(decreases_to!(segs@ => segs@[i as int]));
        }
        let ghost before = s@;
        push_seg(s, &segs[i]);
        proof {
            assert(s@ + s_segs_text(segs@, i + 1) =~= before + s_segs_text(segs@, i as int));
        }
        i = i + 1;
    }
    proof {
        assert(s_segs_text(segs@, i as int) =~= Seq::<char>::empty());
        assert(s@ =~= start + s_segs_text(segs@, 0));
    }
}

/// Stability of serialization: what a compiled path serializes to is a
/// function of the AST alone, so serializing one compilation result
/// twice, or serializing two equal results, can never differ.
pub proof fn lemma_serialize_stable(a: JsonPath, b: JsonPath)
    requires
        a == b,
    ensures
        spec_path_text(a) == spec_path_text(b),
{
}

/// Serializes a compiled path back to text; the result depends on the
/// AST alone.
pub fn path_text(jp: &JsonPath) -> (r: String)
    ensures
        r@ == spec_path_text(*jp),
{
    let mut s = String::new();
    push_segs(&mut s, &jp.segs);
    proof {
        assert(s@ =~= spec_path_text(*jp));
    }
    s
}

} // verus!
