//! The evaluator. Each segment maps an input record to zero or more output
//! records; a whole path folds its segments over the initial record
//! `Slice(root, $)`. The spec functions here are the semantics; the
//! executable evaluator in this module is proved to return exactly what
//! they describe.
use vstd::prelude::*;
use crate::ast::{CmpOp, FilterExpr, JsonPath, Operand, PathFn, Segment};
use crate::json::{obj_get, jv_eq, jv_le, jv_lt, Json, Jv};
use crate::paths::{pv, PathElem, PathElemV};
use crate::regex_ops::{regex_matches, regex_ok};

verus! {

/// The model of a match record: a node of the document together with the
/// path that addresses it, a freshly computed value, or the sentinel for a
/// branch that did not match.
#[verifier::ext_equal]
pub enum RecV {
    Slice(Jv, Seq<PathElemV>),
    New(Jv),
    NoV,
}

impl RecV {
    /// Everything but the `NoV` sentinel carries a value.
    pub open spec fn has_value(self) -> bool {
        !(self is NoV)
    }

    /// The value carried by the record.
    pub open spec fn value(self) -> Jv {
        match self {
            RecV::Slice(v, _) => v,
            RecV::New(v) => v,
            RecV::NoV => Jv::Null,
        }
    }
}

/// The values of the records that carry one, in order.
pub open spec fn rec_values(rs: Seq<RecV>) -> Seq<Jv>
    decreases rs.len(),
{
    if rs.len() == 0 {
        Seq::empty()
    } else if rs[0] is NoV {
        rec_values(rs.drop_first())
    } else {
        seq![rs[0].value()] + rec_values(rs.drop_first())
    }
}

/// The records that carry a value, in order.
pub open spec fn keep_values(rs: Seq<RecV>) -> Seq<RecV>
    decreases rs.len(),
{
    if rs.len() == 0 {
        Seq::empty()
    } else if rs[0] is NoV {
        keep_values(rs.drop_first())
    } else {
        seq![rs[0]] + keep_values(rs.drop_first())
    }
}

/// How many records carry a value.
pub open spec fn count_values(rs: Seq<RecV>) -> int {
    keep_values(rs).len() as int
}

/// The number `n` as a JSON value; a length beyond `i64` saturates.
pub open spec fn len_num(n: int) -> Jv {
    Jv::Num(
        if n > 0x7fff_ffff_ffff_ffff {
            0x7fff_ffff_ffff_ffff
        } else {
            n
        },
        0,
    )
}

/// Whether some element of `es` equals `x`.
pub open spec fn arr_has(es: Seq<Jv>, x: Jv) -> bool {
    exists|m: int| 0 <= m < es.len() && jv_eq(x, #[trigger] es[m])
}

/// Whether every element of `xs` equals some element of `es`.
pub open spec fn arr_subset(xs: Seq<Jv>, es: Seq<Jv>) -> bool {
    forall|k: int| 0 <= k < xs.len() ==> arr_has(es, #[trigger] xs[k])
}

/// Whether `xs` and `es` share at least one element.
pub open spec fn arr_shares(xs: Seq<Jv>, es: Seq<Jv>) -> bool {
    exists|k: int| 0 <= k < xs.len() && arr_has(es, #[trigger] xs[k])
}

/// One comparison `x op y` of the filter language, on two single values.
pub open spec fn s_pair(op: CmpOp, x: Jv, y: Jv) -> bool {
    match op {
        CmpOp::Eq => jv_eq(x, y),
        CmpOp::Ne => !jv_eq(x, y),
        CmpOp::Lt => jv_lt(x, y),
        CmpOp::Le => jv_le(x, y),
        CmpOp::Gt => jv_lt(y, x),
        CmpOp::Ge => jv_le(y, x),
        CmpOp::Regex => x is Str && y is Str && regex_ok(y->Str_0) && regex_matches(
            y->Str_0,
            x->Str_0,
        ),
        CmpOp::In => y is Arr && arr_has(y->Arr_0, x),
        CmpOp::Nin => y is Arr && !arr_has(y->Arr_0, x),
        CmpOp::SubsetOf => x is Arr && y is Arr && arr_subset(x->Arr_0, y->Arr_0),
        CmpOp::AnyOf => x is Arr && y is Arr && arr_shares(x->Arr_0, y->Arr_0),
        CmpOp::NoneOf => x is Arr && y is Arr && !arr_shares(x->Arr_0, y->Arr_0),
    }
}

/// A comparison over resolved operand lists holds when some pair of
/// resolved values satisfies it; an empty side satisfies nothing.
pub open spec fn s_cmp(op: CmpOp, lv: Seq<Jv>, rv: Seq<Jv>) -> bool {
    exists|i: int, j: int|
        0 <= i < lv.len() && 0 <= j < rv.len() && s_pair(op, #[trigger] lv[i], #[trigger] rv[j])
}

/// `operand size n`: some resolved value is a string, array or object with
/// exactly `n` elements.
pub open spec fn s_size(lv: Seq<Jv>, n: int) -> bool {
    exists|i: int|
        0 <= i < lv.len() && (match #[trigger] lv[i] {
            Jv::Str(cs) => cs.len() == n,
            Jv::Arr(xs) => xs.len() == n,
            Jv::Obj(es) => es.len() == n,
            _ => false,
        })
}

/// `self` and every transitive descendant of `self`, in pre-order, arrays
/// by index, objects in insertion order, each with its path.
pub open spec fn s_descent(v: Jv, p: Seq<PathElemV>) -> Seq<(Jv, Seq<PathElemV>)>
    decreases v, 0int,
{
    seq![(v, p)] + (match v {
        Jv::Arr(xs) => s_descent_arr(xs, p, 0),
        Jv::Obj(es) => s_descent_obj(es, p, 0),
        _ => Seq::empty(),
    })
}

pub open spec fn s_descent_arr(xs: Seq<Jv>, p: Seq<PathElemV>, i: int) -> Seq<
    (Jv, Seq<PathElemV>),
>
    decreases xs, xs.len() - i + 1,
{
    if 0 <= i < xs.len() {
        s_descent(xs[i], p.push(PathElemV::Idx(i))) + s_descent_arr(xs, p, i + 1)
    } else {
        Seq::empty()
    }
}

pub open spec fn s_descent_obj(es: Seq<(Seq<char>, Jv)>, p: Seq<PathElemV>, i: int) -> Seq<
    (Jv, Seq<PathElemV>),
>
    decreases es, es.len() - i + 1,
{
    if 0 <= i < es.len() {
        s_descent(es[i].1, p.push(PathElemV::Key(es[i].0))) + s_descent_obj(es, p, i + 1)
    } else {
        Seq::empty()
    }
}

/// Descent output as records.
pub open spec fn s_desc_recs(ds: Seq<(Jv, Seq<PathElemV>)>) -> Seq<RecV> {
    ds.map_values(|d: (Jv, Seq<PathElemV>)| RecV::Slice(d.0, d.1))
}

/// Keeps, for each descended-to object that has member `k`, that member.
pub open spec fn s_dfield_filter(ds: Seq<(Jv, Seq<PathElemV>)>, k: Seq<char>) -> Seq<RecV>
    decreases ds.len(),
{
    if ds.len() == 0 {
        Seq::empty()
    } else {
        (match ds[0].0 {
            Jv::Obj(es) => match obj_get(es, k) {
                Some(c) => seq![RecV::Slice(c, ds[0].1.push(PathElemV::Key(k)))],
                None => Seq::empty(),
            },
            _ => Seq::empty(),
        }) + s_dfield_filter(ds.drop_first(), k)
    }
}

/// The members named by `names` that are present, in query order.
pub open spec fn s_fields(
    es: Seq<(Seq<char>, Jv)>,
    names: Seq<Seq<char>>,
    p: Seq<PathElemV>,
    i: int,
) -> Seq<RecV>
    decreases names.len() - i,
{
    if 0 <= i < names.len() {
        (match obj_get(es, names[i]) {
            Some(c) => seq![RecV::Slice(c, p.push(PathElemV::Key(names[i])))],
            None => Seq::empty(),
        }) + s_fields(es, names, p, i + 1)
    } else {
        Seq::empty()
    }
}

/// The elements at the listed indices that exist, in query order.
pub open spec fn s_indices(xs: Seq<Jv>, idxs: Seq<int>, p: Seq<PathElemV>, i: int) -> Seq<RecV>
    decreases idxs.len() - i,
{
    if 0 <= i < idxs.len() {
        (if 0 <= idxs[i] < xs.len() {
            seq![RecV::Slice(xs[idxs[i]], p.push(PathElemV::Idx(idxs[i])))]
        } else {
            Seq::empty()
        }) + s_indices(xs, idxs, p, i + 1)
    } else {
        Seq::empty()
    }
}

/// A slice bound brought into `0..len`: negative counts from the end.
pub open spec fn clamp_idx(len: int, x: int) -> int {
    if x < 0 {
        if len + x < 0 {
            0
        } else {
            len + x
        }
    } else {
        if x > len {
            len
        } else {
            x
        }
    }
}

/// The elements at `from`, `from+step`, ... below `upto`.
pub open spec fn s_slice_elems(
    xs: Seq<Jv>,
    p: Seq<PathElemV>,
    from: int,
    upto: int,
    step: int,
) -> Seq<RecV>
    decreases upto - from,
{
    if step >= 1 && 0 <= from < upto <= xs.len() {
        seq![RecV::Slice(xs[from], p.push(PathElemV::Idx(from)))] + s_slice_elems(
            xs,
            p,
            if from + step > upto {
                upto
            } else {
                from + step
            },
            upto,
            step,
        )
    } else {
        Seq::empty()
    }
}

/// All elements of an array, in index order.
pub open spec fn s_wild_arr(xs: Seq<Jv>, p: Seq<PathElemV>, i: int) -> Seq<RecV>
    decreases xs.len() - i,
{
    if 0 <= i < xs.len() {
        seq![RecV::Slice(xs[i], p.push(PathElemV::Idx(i)))] + s_wild_arr(xs, p, i + 1)
    } else {
        Seq::empty()
    }
}

/// All member values of an object, in insertion order.
pub open spec fn s_wild_obj(es: Seq<(Seq<char>, Jv)>, p: Seq<PathElemV>, i: int) -> Seq<RecV>
    decreases es.len() - i,
{
    if 0 <= i < es.len() {
        seq![RecV::Slice(es[i].1, p.push(PathElemV::Key(es[i].0)))] + s_wild_obj(es, p, i + 1)
    } else {
        Seq::empty()
    }
}

/// `length()` record by record: the length of an array or string, `NoV`
/// for anything else.
pub open spec fn s_len_rec(r: RecV) -> Seq<RecV> {
    match r {
        RecV::NoV => seq![RecV::NoV],
        RecV::New(_) => Seq::empty(),
        RecV::Slice(v, _) => match v {
            Jv::Arr(xs) => seq![RecV::New(len_num(xs.len() as int))],
            Jv::Str(cs) => seq![RecV::New(len_num(cs.len() as int))],
            _ => seq![RecV::NoV],
        },
    }
}

pub open spec fn s_len_map(rs: Seq<RecV>, i: int) -> Seq<RecV>
    decreases rs.len() - i,
{
    if 0 <= i < rs.len() {
        s_len_rec(rs[i]) + s_len_map(rs, i + 1)
    } else {
        Seq::empty()
    }
}

/// Whether some record holds an array node.
pub open spec fn some_arr(rs: Seq<RecV>) -> bool {
    exists|i: int|
        0 <= i < rs.len() && ((#[trigger] rs[i]) matches RecV::Slice(v, _) && v is Arr)
}

/// `length()` after a search step (a filter or wildcard): when the
/// matches include an array, each record is measured on its own;
/// otherwise the number of matches is the result, `NoV` when there is
/// none.
pub open spec fn s_length_all(rs: Seq<RecV>) -> Seq<RecV> {
    if some_arr(rs) {
        s_len_map(rs, 0)
    } else {
        if count_values(rs) == 0 {
            seq![RecV::NoV]
        } else {
            seq![RecV::New(len_num(count_values(rs)))]
        }
    }
}

/// One segment applied to one record. `NoV` propagates; a computed value
/// has no children and yields nothing.
pub open spec fn s_seg(root: Jv, seg: Segment, rec: RecV) -> Seq<RecV>
    decreases seg, 0int,
{
    match rec {
        RecV::NoV => seq![RecV::NoV],
        RecV::New(_) => Seq::empty(),
        RecV::Slice(v, p) => match seg {
            Segment::Root => seq![RecV::Slice(root, Seq::empty())],
            Segment::Current => seq![RecV::Slice(v, p)],
            Segment::Field(name) => match v {
                Jv::Obj(es) => match obj_get(es, name@) {
                    Some(c) => seq![RecV::Slice(c, p.push(PathElemV::Key(name@)))],
                    None => seq![RecV::NoV],
                },
                _ => seq![RecV::NoV],
            },
            Segment::Fields(names) => match v {
                Jv::Obj(es) => s_fields(es, names@.map_values(|s: String| s@), p, 0),
                _ => seq![RecV::NoV],
            },
            Segment::Index(n) => match v {
                Jv::Arr(xs) => if 0 <= n < xs.len() {
                    seq![RecV::Slice(xs[n as int], p.push(PathElemV::Idx(n as int)))]
                } else {
                    seq![RecV::NoV]
                },
                _ => seq![RecV::NoV],
            },
            Segment::Indices(list) => match v {
                Jv::Arr(xs) => s_indices(xs, list@.map_values(|x: i64| x as int), p, 0),
                _ => seq![RecV::NoV],
            },
            Segment::Slice { start, end, step } => match v {
                Jv::Arr(xs) => {
                    let a = clamp_idx(
                        xs.len() as int,
                        match start {
                            Some(s) => s as int,
                            None => 0,
                        },
                    );
                    let b = clamp_idx(
                        xs.len() as int,
                        match end {
                            Some(e) => e as int,
                            None => xs.len() as int,
                        },
                    );
                    s_slice_elems(xs, p, a, b, step as int)
                },
                _ => seq![RecV::NoV],
            },
            Segment::Wildcard => match v {
                Jv::Arr(xs) => s_wild_arr(xs, p, 0),
                Jv::Obj(es) => s_wild_obj(es, p, 0),
                _ => seq![RecV::NoV],
            },
            Segment::Descent => s_desc_recs(s_descent(v, p)),
            Segment::DescentField(name) => s_dfield_filter(s_descent(v, p), name@),
            Segment::Filter(e) => match v {
                Jv::Arr(xs) => s_filter_arr(root, e, xs, p, 0),
                Jv::Obj(_) => if s_filter(root, e, v) {
                    seq![RecV::Slice(v, p)]
                } else {
                    seq![RecV::NoV]
                },
                _ => seq![RecV::NoV],
            },
            Segment::Func(f) => match f {
                PathFn::Length => s_len_rec(rec),
            },
        },
    }
}

/// The filter segment over an array: the elements that satisfy the
/// predicate, in index order.
pub open spec fn s_filter_arr(
    root: Jv,
    e: FilterExpr,
    xs: Seq<Jv>,
    p: Seq<PathElemV>,
    i: int,
) -> Seq<RecV>
    decreases e, xs.len() - i + 1,
{
    if 0 <= i < xs.len() {
        (if s_filter(root, e, xs[i]) {
            seq![RecV::Slice(xs[i], p.push(PathElemV::Idx(i)))]
        } else {
            Seq::empty()
        }) + s_filter_arr(root, e, xs, p, i + 1)
    } else {
        Seq::empty()
    }
}

/// A filter predicate on the candidate `v`. `&&` and `||` combine, `!`
/// negates the atom after it; a bare operand tests existence; a
/// comparison holds when some pair of resolved values satisfies it.
pub open spec fn s_filter(root: Jv, e: FilterExpr, v: Jv) -> bool
    decreases e, 0int,
{
    match e {
        FilterExpr::Or(a, b) => s_filter(root, *a, v) || s_filter(root, *b, v),
        FilterExpr::And(a, b) => s_filter(root, *a, v) && s_filter(root, *b, v),
        FilterExpr::Not(a) => !s_filter(root, *a, v),
        FilterExpr::Exists(op) => s_operand(root, op, v).len() > 0,
        FilterExpr::Cmp(op, l, r) => s_cmp(op, s_operand(root, l, v), s_operand(root, r, v)),
        FilterExpr::SizeIs(op, n) => s_size(s_operand(root, op, v), n as int),
    }
}

/// The values an operand resolves to: a literal is itself; a sub-path is
/// evaluated from the root (`$`) or the candidate (`@`) and yields the
/// values of its matches.
pub open spec fn s_operand(root: Jv, op: Operand, v: Jv) -> Seq<Jv>
    decreases op, 0int,
{
    match op {
        Operand::Lit(j) => seq![j@],
        Operand::Path(jp) => rec_values(
            s_find(root, jp.segs@, seq![RecV::Slice(v, Seq::empty())], false),
        ),
    }
}

/// One segment applied to every record, outputs concatenated in order.
pub open spec fn s_seg_all(root: Jv, seg: Segment, rs: Seq<RecV>, i: int) -> Seq<RecV>
    decreases seg, rs.len() - i + 1,
{
    if 0 <= i < rs.len() {
        s_seg(root, seg, rs[i]) + s_seg_all(root, seg, rs, i + 1)
    } else {
        Seq::empty()
    }
}

/// The chain: segments applied left to right. `search` tells whether the
/// segment just applied was a filter or wildcard, which gives `length()`
/// its match-counting meaning.
pub open spec fn s_find(root: Jv, segs: Seq<Segment>, rs: Seq<RecV>, search: bool) -> Seq<RecV>
    decreases segs, 1int,
{
    if segs.len() == 0 {
        rs
    } else {
        let seg = segs[0];
        let next = if seg is Func && search {
            s_length_all(rs)
        } else {
            s_seg_all(root, seg, rs, 0)
        };
        s_find(root, segs.drop_first(), next, seg is Filter || seg is Wildcard)
    }
}

/// What evaluating a whole path against `root` yields, before the facade
/// drops the `NoV` sentinels.
pub open spec fn s_eval(root: Jv, segs: Seq<Segment>) -> Seq<RecV> {
    s_find(root, segs, seq![RecV::Slice(root, Seq::empty())], false)
}

/// `find_slice`: the matches, `NoV` dropped; `[NoV]` alone stands for "no
/// match at all".
pub open spec fn s_find_slice(root: Jv, segs: Seq<Segment>) -> Seq<RecV> {
    let hv = keep_values(s_eval(root, segs));
    if hv.len() == 0 {
        seq![RecV::NoV]
    } else {
        hv
    }
}

/// A match record as the evaluator carries it: a borrowed node with its
/// path steps, a computed value, or the sentinel.
pub enum Rec<'a> {
    Slice(&'a Json, Vec<PathElem>),
    New(Json),
    NoV,
}

impl<'a> Rec<'a> {
    /// The model of this record.
    pub open spec fn rv(self) -> RecV {
        match self {
            Rec::Slice(v, p) => RecV::Slice(v@, pv(p@)),
            Rec::New(j) => RecV::New(j@),
            Rec::NoV => RecV::NoV,
        }
    }
}

/// The model of a record list.
pub open spec fn recs_v<'a>(rs: Seq<Rec<'a>>) -> Seq<RecV> {
    rs.map_values(|r: Rec<'a>| r.rv())
}

/// The models of a value list.
pub open spec fn vals_v(vs: Seq<Json>) -> Seq<Jv> {
    vs.map_values(|j: Json| j@)
}

/// The models of an object's entry list.
pub open spec fn entries_v(es: Seq<(String, Json)>) -> Seq<(Seq<char>, Jv)> {
    es.map_values(|e: (String, Json)| (e.0@, e.1@))
}

/// The model of an array value holds the models of its elements.
pub proof fn lemma_arr_items(xs: Vec<Json>)
    ensures
        Json::Arr(xs)@ is Arr,
        Json::Arr(xs)@->Arr_0 == vals_v(xs@),
{
    assert forall|i: int| 0 <= i < xs@.len() implies Json::Arr(xs)@->Arr_0[i] == vals_v(xs@)[i] by {
        assert(vals_v(xs@)[i] == xs@[i]@);
    }
    assert(Json::Arr(xs)@->Arr_0 =~= vals_v(xs@));
}

/// The model of an object value holds the models of its entries.
pub proof fn lemma_obj_entries(es: Vec<(String, Json)>)
    ensures
        Json::Obj(es)@ is Obj,
        Json::Obj(es)@->Obj_0 == entries_v(es@),
{
    assert forall|i: int| 0 <= i < es@.len() implies Json::Obj(es)@->Obj_0[i] == entries_v(es@)[i] by {
        assert(entries_v(es@)[i] == (es@[i].0@, es@[i].1@));
    }
    assert(Json::Obj(es)@->Obj_0 =~= entries_v(es@));
}

/// A copy of a step list with the same model.
fn clone_path(p: &Vec<PathElem>) -> (r: Vec<PathElem>)
    ensures
        pv(r@) == pv(p@),
{
    let mut out: Vec<PathElem> = Vec::new();
    let mut i: usize = 0;
    while i < p.len()
        invariant
            0 <= i <= p@.len(),
            out@.len() == i,
            forall|j: int| 0 <= j < i ==> #[trigger] out@[j]@ == p@[j]@,
        decreases p@.len() - i,
    {
        let e = match &p[i] {
            PathElem::Key(k) => PathElem::Key(k.clone()),
            PathElem::Idx(n) => PathElem::Idx(*n),
        };
        out.push(e);
        i = i + 1;
    }
    proof {
        assert forall|j: int| 0 <= j < p@.len() implies pv(out@)[j] == pv(p@)[j] by {
            assert(pv(out@)[j] == out@[j]@);
            assert(pv(p@)[j] == p@[j]@);
        }
        assert(pv(out@) =~= pv(p@));
    }
    out
}

/// A copy of `p` with `e` appended.
fn path_push(p: &Vec<PathElem>, e: PathElem) -> (r: Vec<PathElem>)
    ensures
        pv(r@) == pv(p@).push(e@),
{
    let mut out = clone_path(p);
    let ghost before = out@;
    out.push(e);
    proof {
        assert forall|j: int| 0 <= j < out@.len() implies pv(out@)[j] == pv(p@).push(e@)[j] by {
            assert(pv(out@)[j] == out@[j]@);
            if j < before.len() {
                assert(out@[j] == before[j]);
                assert(pv(before)[j] == before[j]@);
            }
        }
        assert(pv(out@) =~= pv(p@).push(e@));
    }
    out
}

/// The member of `entries` named `name`, by [`obj_get`].
fn obj_get_exec<'a>(entries: &'a Vec<(String, Json)>, name: &String) -> (r: Option<&'a Json>)
    ensures
        match r {
            Some(c) => obj_get(entries_v(entries@), name@) == Some(c@),
            None => obj_get(entries_v(entries@), name@) is None,
        },
{
    let ghost es = entries_v(entries@);
    proof {
        assert(es.skip(0) =~= es);
    }
    let mut i: usize = 0;
    while i < entries.len()
        invariant
            0 <= i <= entries@.len(),
            es == entries_v(entries@),
            es.len() == entries@.len(),
            obj_get(es.skip(i as int), name@) == obj_get(es, name@),
        decreases entries@.len() - i,
    {
        proof {
            assert(es[i as int] == (entries@[i as int].0@, entries@[i as int].1@));
            assert(es.skip(i as int)[0] == es[i as int]);
        }
        if entries[i].0 == *name {
            return Some(&entries[i].1);
        }
        proof {
            assert(es.skip(i as int).drop_first() =~= es.skip(i + 1));
        }
        i = i + 1;
    }
    proof {
        assert(es.skip(i as int).len() == 0);
    }
    None
}

/// The length `n` as a JSON number value.
fn len_to_json(n: usize) -> (r: Json)
    ensures
        r@ == len_num(n as int),
{
    if (n as u64) <= (i64::MAX as u64) {
        Json::integer(n as i64)
    } else {
        Json::integer(i64::MAX)
    }
}

/// Strict order of two values, by [`jv_lt`].
fn json_lt(a: &Json, b: &Json) -> (r: bool)
    ensures
        r == jv_lt(a@, b@),
{
    match (a, b) {
        (Json::Num(x), Json::Num(y)) => crate::json::num_lt_exec(*x, *y),
        (Json::Str(x), Json::Str(y)) => crate::json::str_lt_exec(x.as_str(), y.as_str()),
        (Json::Bool(x), Json::Bool(y)) => !*x && *y,
        _ => false,
    }
}

/// Non-strict order of two values, by [`jv_le`].
fn json_le(a: &Json, b: &Json) -> (r: bool)
    ensures
        r == jv_le(a@, b@),
{
    match (a, b) {
        (Json::Num(x), Json::Num(y)) => crate::json::num_le_exec(*x, *y),
        (Json::Str(x), Json::Str(y)) => {
            let lt = crate::json::str_lt_exec(x.as_str(), y.as_str());
            lt || *x == *y
        },
        (Json::Bool(x), Json::Bool(y)) => !*x || *y,
        _ => false,
    }
}

/// Whether some element of `ys` equals `x`.
fn e_contains(ys: &Vec<Json>, x: &Json) -> (r: bool)
    ensures
        r == arr_has(vals_v(ys@), x@),
{
    let mut m: usize = 0;
    while m < ys.len()
        invariant
            0 <= m <= ys@.len(),
            forall|k: int| 0 <= k < m ==> !jv_eq(x@, #[trigger] vals_v(ys@)[k]),
        decreases ys@.len() - m,
    {
        proof {
            assert(vals_v(ys@)[m as int] == ys@[m as int]@);
        }
        if crate::json::json_eq(x, &ys[m]) {
            proof {
                assert(arr_has(vals_v(ys@), x@));
            }
            return true;
        }
        m = m + 1;
    }
    proof {
        assert(vals_v(ys@).len() == ys@.len());
    }
    false
}

/// One comparison of the filter language, on two single values.
fn e_pair(op: CmpOp, a: &Json, b: &Json) -> (r: bool)
    ensures
        r == s_pair(op, a@, b@),
{
    match op {
        CmpOp::Eq => crate::json::json_eq(a, b),
        CmpOp::Ne => !crate::json::json_eq(a, b),
        CmpOp::Lt => json_lt(a, b),
        CmpOp::Le => json_le(a, b),
        CmpOp::Gt => json_lt(b, a),
        CmpOp::Ge => json_le(b, a),
        CmpOp::Regex => match (a, b) {
            (Json::Str(text), Json::Str(pat)) => crate::regex_ops::regex_is_match(
                pat.as_str(),
                text.as_str(),
            ),
            _ => false,
        },
        CmpOp::In => match b {
            Json::Arr(ys) => {
                proof {
                    lemma_arr_items(*ys);
                }
                e_contains(ys, a)
            },
            _ => false,
        },
        CmpOp::Nin => match b {
            Json::Arr(ys) => {
                proof {
                    lemma_arr_items(*ys);
                }
                !e_contains(ys, a)
            },
            _ => false,
        },
        CmpOp::SubsetOf => match (a, b) {
            (Json::Arr(xs), Json::Arr(ys)) => {
                let mut k: usize = 0;
                while k < xs.len()
                    invariant
                        op is SubsetOf,
                        0 <= k <= xs@.len(),
                        a == Json::Arr(*xs),
                        b == Json::Arr(*ys),
                        forall|k2: int|
                            0 <= k2 < k ==> arr_has(vals_v(ys@), #[trigger] vals_v(xs@)[k2]),
                    decreases xs@.len() - k,
                {
                    proof {
                        lemma_arr_items(*xs);
                        lemma_arr_items(*ys);
                        assert(vals_v(xs@)[k as int] == xs@[k as int]@);
                    }
                    if !e_contains(ys, &xs[k]) {
                        proof {
                            assert(a@->Arr_0[k as int] == vals_v(xs@)[k as int]);
                            assert(!arr_subset(a@->Arr_0, b@->Arr_0));
                        }
                        return false;
                    }
                    k = k + 1;
                }
                proof {
                    lemma_arr_items(*xs);
                    lemma_arr_items(*ys);
                    assert forall|k2: int|
                        0 <= k2 < a@->Arr_0.len() implies arr_has(
                        b@->Arr_0,
                        #[trigger] a@->Arr_0[k2],
                    ) by {
                        assert(a@->Arr_0[k2] == vals_v(xs@)[k2]);
                    }
                    assert(s_pair(op, a@, b@));
                }
                true
            },
            _ => false,
        },
        CmpOp::AnyOf => match (a, b) {
            (Json::Arr(xs), Json::Arr(ys)) => {
                let mut k: usize = 0;
                while k < xs.len()
                    invariant
                        op is AnyOf,
                        0 <= k <= xs@.len(),
                        a == Json::Arr(*xs),
                        b == Json::Arr(*ys),
                        forall|k2: int|
                            0 <= k2 < k ==> !arr_has(vals_v(ys@), #[trigger] vals_v(xs@)[k2]),
                    decreases xs@.len() - k,
                {
                    proof {
                        lemma_arr_items(*xs);
                        lemma_arr_items(*ys);
                        assert(vals_v(xs@)[k as int] == xs@[k as int]@);
                    }
                    if e_contains(ys, &xs[k]) {
                        proof {
                            assert(a@->Arr_0[k as int] == vals_v(xs@)[k as int]);
                            assert(arr_shares(a@->Arr_0, b@->Arr_0));
                        }
                        return true;
                    }
                    k = k + 1;
                }
                proof {
                    lemma_arr_items(*xs);
                    lemma_arr_items(*ys);
                    assert forall|k2: int|
                        0 <= k2 < a@->Arr_0.len() implies !arr_has(
                        b@->Arr_0,
                        #[trigger] a@->Arr_0[k2],
                    ) by {
                        assert(a@->Arr_0[k2] == vals_v(xs@)[k2]);
                    }
                    assert(!s_pair(op, a@, b@));
                }
                false
            },
            _ => false,
        },
        CmpOp::NoneOf => match (a, b) {
            (Json::Arr(xs), Json::Arr(ys)) => {
                let mut k: usize = 0;
                while k < xs.len()
                    invariant
                        op is NoneOf,
                        0 <= k <= xs@.len(),
                        a == Json::Arr(*xs),
                        b == Json::Arr(*ys),
                        forall|k2: int|
                            0 <= k2 < k ==> !arr_has(vals_v(ys@), #[trigger] vals_v(xs@)[k2]),
                    decreases xs@.len() - k,
                {
                    proof {
                        lemma_arr_items(*xs);
                        lemma_arr_items(*ys);
                        assert(vals_v(xs@)[k as int] == xs@[k as int]@);
                    }
                    if e_contains(ys, &xs[k]) {
                        proof {
                            assert(a@->Arr_0[k as int] == vals_v(xs@)[k as int]);
                            assert(arr_shares(a@->Arr_0, b@->Arr_0));
                        }
                        return false;
                    }
                    k = k + 1;
                }
                proof {
                    lemma_arr_items(*xs);
                    lemma_arr_items(*ys);
                    assert forall|k2: int|
                        0 <= k2 < a@->Arr_0.len() implies !arr_has(
                        b@->Arr_0,
                        #[trigger] a@->Arr_0[k2],
                    ) by {
                        assert(a@->Arr_0[k2] == vals_v(xs@)[k2]);
                    }
                    assert(s_pair(op, a@, b@));
                }
                true
            },
            _ => false,
        },
    }
}

/// Whether some pair of resolved values satisfies the comparison.
fn e_cmp(op: CmpOp, lv: &Vec<Json>, rv: &Vec<Json>) -> (r: bool)
    ensures
        r == s_cmp(op, vals_v(lv@), vals_v(rv@)),
{
    let mut i: usize = 0;
    while i < lv.len()
        invariant
            0 <= i <= lv@.len(),
            forall|i2: int, j2: int|
                0 <= i2 < i && 0 <= j2 < vals_v(rv@).len() ==> !s_pair(
                    op,
                    #[trigger] vals_v(lv@)[i2],
                    #[trigger] vals_v(rv@)[j2],
                ),
        decreases lv@.len() - i,
    {
        let mut j: usize = 0;
        while j < rv.len()
            invariant
                0 <= i < lv@.len(),
                0 <= j <= rv@.len(),
                forall|i2: int, j2: int|
                    0 <= i2 < i && 0 <= j2 < vals_v(rv@).len() ==> !s_pair(
                        op,
                        #[trigger] vals_v(lv@)[i2],
                        #[trigger] vals_v(rv@)[j2],
                    ),
                forall|j2: int|
                    0 <= j2 < j ==> !s_pair(
                        op,
                        vals_v(lv@)[i as int],
                        #[trigger] vals_v(rv@)[j2],
                    ),
            decreases rv@.len() - j,
        {
            proof {
                assert(vals_v(lv@)[i as int] == lv@[i as int]@);
                assert(vals_v(rv@)[j as int] == rv@[j as int]@);
            }
            if e_pair(op, &lv[i], &rv[j]) {
                proof {
                    assert(s_pair(op, vals_v(lv@)[i as int], vals_v(rv@)[j as int]));
                }
                return true;
            }
            j = j + 1;
        }
        i = i + 1;
    }
    false
}

/// Whether some resolved value has exactly `n` elements.
fn e_size(lv: &Vec<Json>, n: i64) -> (r: bool)
    ensures
        r == s_size(vals_v(lv@), n as int),
{
    let mut i: usize = 0;
    while i < lv.len()
        invariant
            0 <= i <= lv@.len(),
            forall|i2: int|
                0 <= i2 < i ==> !(match #[trigger] vals_v(lv@)[i2] {
                    Jv::Str(cs) => cs.len() == n,
                    Jv::Arr(xs) => xs.len() == n,
                    Jv::Obj(es) => es.len() == n,
                    _ => false,
                }),
        decreases lv@.len() - i,
    {
        proof {
            assert(vals_v(lv@)[i as int] == lv@[i as int]@);
        }
        let hit = match &lv[i] {
            Json::Str(cs) => {
                let l = cs.as_str().unicode_len();
                n >= 0 && (l as u64) == (n as u64)
            },
            Json::Arr(xs) => {
                proof {
                    lemma_arr_items(*xs);
                }
                n >= 0 && (xs.len() as u64) == (n as u64)
            },
            Json::Obj(es) => {
                proof {
                    lemma_obj_entries(*es);
                }
                n >= 0 && (es.len() as u64) == (n as u64)
            },
            _ => false,
        };
        if hit {
            return true;
        }
        i = i + 1;
    }
    false
}

/// The values of the records that carry one, deep-copied, in order.
fn e_rec_values<'a>(rs: &Vec<Rec<'a>>) -> (out: Vec<Json>)
    ensures
        vals_v(out@) == rec_values(recs_v(rs@)),
{
    let ghost rsv = recs_v(rs@);
    let mut out: Vec<Json> = Vec::new();
    proof {
        assert(rsv.skip(0) =~= rsv);
        assert(vals_v(out@) + rec_values(rsv) =~= rec_values(rsv));
    }
    let mut i: usize = 0;
    while i < rs.len()
        invariant
            0 <= i <= rs@.len(),
            rsv == recs_v(rs@),
            rsv.len() == rs@.len(),
            vals_v(out@) + rec_values(rsv.skip(i as int)) == rec_values(rsv),
        decreases rs@.len() - i,
    {
        let ghost out0 = out@;
        proof {
            assert(rsv[i as int] == rs@[i as int].rv());
            assert(rsv.skip(i as int)[0] == rsv[i as int]);
            assert(rsv.skip(i as int).drop_first() =~= rsv.skip(i + 1));
        }
        match &rs[i] {
            Rec::Slice(v, _) => {
                let c = (*v).clone();
                out.push(c);
            },
            Rec::New(j) => {
                let c = j.clone();
                out.push(c);
            },
            Rec::NoV => {},
        }
        proof {
            if out@.len() > out0.len() {
                assert forall|k: int| 0 <= k < out@.len() implies vals_v(out@)[k] == (vals_v(out0)
                    + seq![rsv[i as int].value()])[k] by {
                    assert(vals_v(out@)[k] == out@[k]@);
                    if k < out0.len() {
                        assert(vals_v(out0)[k] == out0[k]@);
                    }
                }
                assert(vals_v(out@) =~= vals_v(out0) + seq![rsv[i as int].value()]);
                assert(vals_v(out@) + rec_values(rsv.skip(i + 1)) =~= vals_v(out0) + rec_values(
                    rsv.skip(i as int),
                ));
            } else {
                assert(vals_v(out@) =~= vals_v(out0));
            }
        }
        i = i + 1;
    }
    proof {
        assert(rsv.skip(i as int).len() == 0);
        assert(vals_v(out@) + rec_values(rsv.skip(i as int)) =~= vals_v(out@));
    }
    out
}

/// Concatenation distributes over the record-list model.
proof fn lemma_recs_v_concat<'a>(x: Seq<Rec<'a>>, y: Seq<Rec<'a>>)
    ensures
        recs_v(x + y) == recs_v(x) + recs_v(y),
{
    assert forall|i: int| 0 <= i < (x + y).len() implies recs_v(x + y)[i] == (recs_v(x) + recs_v(
        y,
    ))[i] by {
        assert(recs_v(x + y)[i] == (x + y)[i].rv());
        if i < x.len() {
            assert((x + y)[i] == x[i]);
            assert(recs_v(x)[i] == x[i].rv());
        } else {
            assert((x + y)[i] == y[i - x.len()]);
            assert(recs_v(y)[i - x.len()] == y[i - x.len()].rv());
        }
    }
    assert(recs_v(x + y) =~= recs_v(x) + recs_v(y));
}

/// Pushing one record appends its model.
proof fn lemma_recs_v_push<'a>(x: Seq<Rec<'a>>, r: Rec<'a>)
    ensures
        recs_v(x.push(r)) == recs_v(x) + seq![r.rv()],
{
    assert forall|i: int| 0 <= i < x.len() + 1 implies recs_v(x.push(r))[i] == (recs_v(x)
        + seq![r.rv()])[i] by {
        assert(recs_v(x.push(r))[i] == x.push(r)[i].rv());
        if i < x.len() {
            assert(x.push(r)[i] == x[i]);
            assert(recs_v(x)[i] == x[i].rv());
        } else {
            assert(x.push(r)[i] == r);
        }
    }
    assert(recs_v(x.push(r)) =~= recs_v(x) + seq![r.rv()]);
}

/// Concatenation distributes over turning descent pairs into records.
proof fn lemma_desc_recs_concat(x: Seq<(Jv, Seq<PathElemV>)>, y: Seq<(Jv, Seq<PathElemV>)>)
    ensures
        s_desc_recs(x + y) == s_desc_recs(x) + s_desc_recs(y),
{
    assert forall|i: int| 0 <= i < (x + y).len() implies s_desc_recs(x + y)[i] == (s_desc_recs(x)
        + s_desc_recs(y))[i] by {
        assert(s_desc_recs(x + y)[i] == RecV::Slice((x + y)[i].0, (x + y)[i].1));
        if i < x.len() {
            assert((x + y)[i] == x[i]);
            assert(s_desc_recs(x)[i] == RecV::Slice(x[i].0, x[i].1));
        } else {
            assert((x + y)[i] == y[i - x.len()]);
            assert(s_desc_recs(y)[i - x.len()] == RecV::Slice(y[i - x.len()].0, y[i - x.len()].1));
        }
    }
    assert(s_desc_recs(x + y) =~= s_desc_recs(x) + s_desc_recs(y));
}

/// Collects `v` and all its descendants, in pre-order, onto `out`.
fn e_descent<'a>(v: &'a Json, p: &Vec<PathElem>, out: &mut Vec<Rec<'a>>)
    ensures
        recs_v(final(out)@) == recs_v(old(out)@) + s_desc_recs(s_descent(v@, pv(p@))),
    decreases *v, 0int,
{
    let ghost pp = pv(p@);
    let cp = clone_path(p);
    let ghost out0 = out@;
    out.push(Rec::Slice(v, cp));
    proof {
        lemma_recs_v_push(out0, out@.last());
        assert(s_desc_recs(seq![(v@, pp)]) =~= seq![RecV::Slice(v@, pp)]);
    }
    match v {
        Json::Arr(xs) => {
            let ghost xsv = v@->Arr_0;
            proof {
                lemma_arr_items(*xs);
                lemma_desc_recs_concat(seq![(v@, pp)], s_descent_arr(xsv, pp, 0));
                assert(recs_v(out@) + s_desc_recs(s_descent_arr(xsv, pp, 0)) =~= recs_v(out0)
                    + s_desc_recs(s_descent(v@, pp)));
            }
            let mut i: usize = 0;
            while i < xs.len()
                invariant
                    0 <= i <= xs@.len(),
                    v == Json::Arr(*xs),
                    xsv == v@->Arr_0,
                    xsv.len() == xs@.len(),
                    pp == pv(p@),
                    recs_v(out@) + s_desc_recs(s_descent_arr(xsv, pp, i as int)) == recs_v(out0)
                        + s_desc_recs(s_descent(v@, pp)),
                decreases xs@.len() - i,
            {
                proof {
                    lemma_arr_items(*xs);
                    assert(xsv[i as int] == xs@[i as int]@);
                    assert(decreases_to!(*v => v->Arr_0));
                    assert(decreases_to!(v->Arr_0 => v->Arr_0@));
                    assert(decreases_to!(v->Arr_0@ => v->Arr_0@[i as int]));
                    assert(v->Arr_0@[i as int] == xs@[i as int]);
                }
                let child_p = path_push(p, PathElem::Idx(i));
                let ghost mid = out@;
                e_descent(&xs[i], &child_p, out);
                proof {
                    assert(pv(child_p@) == pp.push(PathElemV::Idx(i as int)));
                    lemma_desc_recs_concat(
                        s_descent(xsv[i as int], pp.push(PathElemV::Idx(i as int))),
                        s_descent_arr(xsv, pp, i + 1),
                    );
                    assert(recs_v(out@) + s_desc_recs(s_descent_arr(xsv, pp, i + 1)) =~= recs_v(
                        out0,
                    ) + s_desc_recs(s_descent(v@, pp)));
                }
                i = i + 1;
            }
            proof {
                assert(s_desc_recs(s_descent_arr(xsv, pp, i as int)) =~= Seq::<RecV>::empty());
                assert(recs_v(out@) =~= recs_v(out@) + Seq::<RecV>::empty());
            }
        },
        Json::Obj(es) => {
            let ghost esv = v@->Obj_0;
            proof {
                lemma_obj_entries(*es);
                lemma_desc_recs_concat(seq![(v@, pp)], s_descent_obj(esv, pp, 0));
                assert(recs_v(out@) + s_desc_recs(s_descent_obj(esv, pp, 0)) =~= recs_v(out0)
                    + s_desc_recs(s_descent(v@, pp)));
            }
            let mut i: usize = 0;
            while i < es.len()
                invariant
                    0 <= i <= es@.len(),
                    v == Json::Obj(*es),
                    esv == v@->Obj_0,
                    esv.len() == es@.len(),
                    pp == pv(p@),
                    recs_v(out@) + s_desc_recs(s_descent_obj(esv, pp, i as int)) == recs_v(out0)
                        + s_desc_recs(s_descent(v@, pp)),
                decreases es@.len() - i,
            {
                proof {
                    lemma_obj_entries(*es);
                    assert(esv[i as int] == (es@[i as int].0@, es@[i as int].1@));
                    assert(decreases_to!(*v => v->Obj_0));
                    assert(decreases_to!(v->Obj_0 => v->Obj_0@));
                    assert(decreases_to!(v->Obj_0@ => v->Obj_0@[i as int]));
                    assert(decreases_to!(v->Obj_0@[i as int] => v->Obj_0@[i as int].1));
                    assert(v->Obj_0@[i as int] == es@[i as int]);
                }
                let child_p = path_push(p, PathElem::Key(es[i].0.clone()));
                e_descent(&es[i].1, &child_p, out);
                proof {
                    assert(pv(child_p@) == pp.push(PathElemV::Key(es@[i as int].0@)));
                    lemma_desc_recs_concat(
                        s_descent(esv[i as int].1, pp.push(PathElemV::Key(esv[i as int].0))),
                        s_descent_obj(esv, pp, i + 1),
                    );
                    assert(recs_v(out@) + s_desc_recs(s_descent_obj(esv, pp, i + 1)) =~= recs_v(
                        out0,
                    ) + s_desc_recs(s_descent(v@, pp)));
                }
                i = i + 1;
            }
            proof {
                assert(s_desc_recs(s_descent_obj(esv, pp, i as int)) =~= Seq::<RecV>::empty());
                assert(recs_v(out@) =~= recs_v(out@) + Seq::<RecV>::empty());
            }
        },
        _ => {
            proof {
                assert(s_desc_recs(s_descent(v@, pp)) =~= seq![RecV::Slice(v@, pp)]);
            }
        },
    }
}

/// Evaluates a filter predicate on the candidate `v`.
fn e_filter<'a>(root: &'a Json, e: &FilterExpr, v: &'a Json) -> (r: bool)
    ensures
        r == s_filter(root@, *e, v@),
    decreases *e, 0int,
{
    match e {
        FilterExpr::Or(x, y) => {
            let rx = e_filter(root, x, v);
            if rx {
                true
            } else {
                e_filter(root, y, v)
            }
        },
        FilterExpr::And(x, y) => {
            let rx = e_filter(root, x, v);
            if rx {
                e_filter(root, y, v)
            } else {
                false
            }
        },
        FilterExpr::Not(x) => !e_filter(root, x, v),
        FilterExpr::Exists(op) => {
            let vals = e_operand(root, op, v);
            proof {
                assert(vals_v(vals@).len() == vals@.len());
            }
            vals.len() > 0
        },
        FilterExpr::Cmp(op, l, r) => {
            let lv = e_operand(root, l, v);
            let rv = e_operand(root, r, v);
            e_cmp(*op, &lv, &rv)
        },
        FilterExpr::SizeIs(op, n) => {
            let lv = e_operand(root, op, v);
            e_size(&lv, *n)
        },
    }
}

/// Resolves an operand against the candidate `v`.
fn e_operand<'a>(root: &'a Json, op: &Operand, v: &'a Json) -> (out: Vec<Json>)
    ensures
        vals_v(out@) == s_operand(root@, *op, v@),
    decreases *op, 0int,
{
    match op {
        Operand::Lit(j) => {
            let c = j.clone();
            let mut out: Vec<Json> = Vec::new();
            out.push(c);
            proof {
                assert(vals_v(out@) =~= seq![j@]);
            }
            out
        },
        Operand::Path(jp) => {
            let mut init: Vec<Rec<'a>> = Vec::new();
            init.push(Rec::Slice(v, Vec::new()));
            proof {
                assert(pv(Seq::<PathElem>::empty()) =~= Seq::<PathElemV>::empty());
                assert(recs_v(init@) =~= seq![RecV::Slice(v@, Seq::<PathElemV>::empty())]);
            }
            let rs = e_chain(root, &jp.segs, init, false);
            e_rec_values(&rs)
        },
    }
}

/// One segment applied to one record.
fn e_seg<'a>(root: &'a Json, seg: &Segment, rec: &Rec<'a>) -> (out: Vec<Rec<'a>>)
    ensures
        recs_v(out@) == s_seg(root@, *seg, rec.rv()),
    decreases *seg, 0int,
{
    let mut out: Vec<Rec<'a>> = Vec::new();
    match rec {
        Rec::NoV => {
            out.push(Rec::NoV);
            proof {
                assert(recs_v(out@) =~= seq![RecV::NoV]);
            }
        },
        Rec::New(_) => {
            proof {
                assert(recs_v(out@) =~= Seq::<RecV>::empty());
            }
        },
        Rec::Slice(v0, p) => {
            let v: &'a Json = *v0;
            let ghost pp = pv(p@);
            match seg {
                Segment::Root => {
                    out.push(Rec::Slice(root, Vec::new()));
                    proof {
                        assert(pv(Seq::<PathElem>::empty()) =~= Seq::<PathElemV>::empty());
                        assert(recs_v(out@) =~= seq![
                            RecV::Slice(root@, Seq::<PathElemV>::empty()),
                        ]);
                    }
                },
                Segment::Current => {
                    let cp = clone_path(p);
                    out.push(Rec::Slice(v, cp));
                    proof {
                        assert(recs_v(out@) =~= seq![RecV::Slice(v@, pp)]);
                    }
                },
                Segment::Field(name) => {
                    match v {
                        Json::Obj(entries) => {
                            proof {
                                lemma_obj_entries(*entries);
                            }
                            match obj_get_exec(entries, name) {
                                Some(c) => {
                                    let np = path_push(p, PathElem::Key(name.clone()));
                                    out.push(Rec::Slice(c, np));
                                    proof {
                                        assert(recs_v(out@) =~= seq![
                                            RecV::Slice(c@, pp.push(PathElemV::Key(name@))),
                                        ]);
                                    }
                                },
                                None => {
                                    out.push(Rec::NoV);
                                    proof {
                                        assert(recs_v(out@) =~= seq![RecV::NoV]);
                                    }
                                },
                            }
                        },
                        _ => {
                            out.push(Rec::NoV);
                            proof {
                                assert(recs_v(out@) =~= seq![RecV::NoV]);
                            }
                        },
                    }
                },
                Segment::Fields(names) => {
                    match v {
                        Json::Obj(entries) => {
                            let ghost esv = v@->Obj_0;
                            let ghost nsv = names@.map_values(|s: String| s@);
                            proof {
                                lemma_obj_entries(*entries);
                                assert(recs_v(out@) + s_fields(esv, nsv, pp, 0) =~= s_fields(
                                    esv,
                                    nsv,
                                    pp,
                                    0,
                                ));
                            }
                            let mut n: usize = 0;
                            while n < names.len()
                                invariant
                                    0 <= n <= names@.len(),
                                    v == Json::Obj(*entries),
                                    esv == v@->Obj_0,
                                    esv == entries_v(entries@),
                                    nsv == names@.map_values(|s: String| s@),
                                    nsv.len() == names@.len(),
                                    pp == pv(p@),
                                    recs_v(out@) + s_fields(esv, nsv, pp, n as int) == s_fields(
                                        esv,
                                        nsv,
                                        pp,
                                        0,
                                    ),
                                decreases names@.len() - n,
                            {
                                let ghost out0 = out@;
                                proof {
                                    assert(nsv[n as int] == names@[n as int]@);
                                }
                                match obj_get_exec(entries, &names[n]) {
                                    Some(c) => {
                                        let np = path_push(p, PathElem::Key(names[n].clone()));
                                        out.push(Rec::Slice(c, np));
                                        proof {
                                            lemma_recs_v_push(out0, out@.last());
                                            assert(recs_v(out@) + s_fields(esv, nsv, pp, n + 1)
                                                =~= recs_v(out0) + s_fields(esv, nsv, pp, n as int));
                                        }
                                    },
                                    None => {
                                        proof {
                                            assert(recs_v(out@) + s_fields(esv, nsv, pp, n + 1)
                                                =~= recs_v(out0) + s_fields(esv, nsv, pp, n as int));
                                        }
                                    },
                                }
                                n = n + 1;
                            }
                            proof {
                                assert(s_fields(esv, nsv, pp, n as int) =~= Seq::<RecV>::empty());
                                assert(recs_v(out@) =~= recs_v(out@) + Seq::<RecV>::empty());
                            }
                        },
                        _ => {
                            out.push(Rec::NoV);
                            proof {
                                assert(recs_v(out@) =~= seq![RecV::NoV]);
                            }
                        },
                    }
                },
                Segment::Index(idx) => {
                    match v {
                        Json::Arr(xs) => {
                            proof {
                                lemma_arr_items(*xs);
                            }
                            if *idx >= 0 && (*idx as u64) < (xs.len() as u64) {
                                let i = *idx as usize;
                                let np = path_push(p, PathElem::Idx(i));
                                out.push(Rec::Slice(&xs[i], np));
                                proof {
                                    assert(v@->Arr_0[*idx as int] == xs@[*idx as int]@);
                                    assert(recs_v(out@) =~= seq![
                                        RecV::Slice(
                                            v@->Arr_0[*idx as int],
                                            pp.push(PathElemV::Idx(*idx as int)),
                                        ),
                                    ]);
                                }
                            } else {
                                out.push(Rec::NoV);
                                proof {
                                    assert(recs_v(out@) =~= seq![RecV::NoV]);
                                }
                            }
                        },
                        _ => {
                            out.push(Rec::NoV);
                            proof {
                                assert(recs_v(out@) =~= seq![RecV::NoV]);
                            }
                        },
                    }
                },
                Segment::Indices(list) => {
                    match v {
                        Json::Arr(xs) => {
                            let ghost xsv = v@->Arr_0;
                            let ghost isv = list@.map_values(|x: i64| x as int);
                            proof {
                                lemma_arr_items(*xs);
                                assert(recs_v(out@) + s_indices(xsv, isv, pp, 0) =~= s_indices(
                                    xsv,
                                    isv,
                                    pp,
                                    0,
                                ));
                            }
                            let mut n: usize = 0;
                            while n < list.len()
                                invariant
                                    0 <= n <= list@.len(),
                                    v == Json::Arr(*xs),
                                    xsv == v@->Arr_0,
                                    xsv == vals_v(xs@),
                                    isv == list@.map_values(|x: i64| x as int),
                                    isv.len() == list@.len(),
                                    pp == pv(p@),
                                    recs_v(out@) + s_indices(xsv, isv, pp, n as int) == s_indices(
                                        xsv,
                                        isv,
                                        pp,
                                        0,
                                    ),
                                decreases list@.len() - n,
                            {
                                let ghost out0 = out@;
                                proof {
                                    assert(isv[n as int] == list@[n as int] as int);
                                }
                                let idx = list[n];
                                if idx >= 0 && (idx as u64) < (xs.len() as u64) {
                                    let i = idx as usize;
                                    let np = path_push(p, PathElem::Idx(i));
                                    out.push(Rec::Slice(&xs[i], np));
                                    proof {
                                        lemma_recs_v_push(
                                            out0,
                                            Rec::Slice(&xs[i as int], np),
                                        );
                                        assert(xsv[idx as int] == xs@[idx as int]@);
                                        assert(recs_v(out@) + s_indices(xsv, isv, pp, n + 1) =~=
                                            recs_v(out0) + s_indices(xsv, isv, pp, n as int));
                                    }
                                } else {
                                    proof {
                                        assert(recs_v(out@) + s_indices(xsv, isv, pp, n + 1) =~=
                                            recs_v(out0) + s_indices(xsv, isv, pp, n as int));
                                    }
                                }
                                n = n + 1;
                            }
                            proof {
                                assert(s_indices(xsv, isv, pp, n as int) =~= Seq::<RecV>::empty());
                                assert(recs_v(out@) =~= recs_v(out@) + Seq::<RecV>::empty());
                            }
                        },
                        _ => {
                            out.push(Rec::NoV);
                            proof {
                                assert(recs_v(out@) =~= seq![RecV::NoV]);
                            }
                        },
                    }
                },
                Segment::Slice { start, end, step } => {
                    match v {
                        Json::Arr(xs) => {
                            let ghost xsv = v@->Arr_0;
                            proof {
                                lemma_arr_items(*xs);
                            }
                            let a = match start {
                                Some(sv) => clamp_exec(xs.len(), *sv),
                                None => 0,
                            };
                            let b = match end {
                                Some(ev) => clamp_exec(xs.len(), *ev),
                                None => xs.len(),
                            };
                            let st = *step;
                            if st < 1 {
                                proof {
                                    assert(recs_v(out@) =~= s_slice_elems(
                                        xsv,
                                        pp,
                                        a as int,
                                        b as int,
                                        st as int,
                                    ));
                                }
                            } else {
                                let mut from: usize = a;
                                proof {
                                    assert(recs_v(out@) + s_slice_elems(
                                        xsv,
                                        pp,
                                        from as int,
                                        b as int,
                                        st as int,
                                    ) =~= s_slice_elems(xsv, pp, a as int, b as int, st as int));
                                }
                                while from < b
                                    invariant
                                        st >= 1,
                                        0 <= from,
                                        b <= xs@.len(),
                                        v == Json::Arr(*xs),
                                        xsv == v@->Arr_0,
                                        xsv == vals_v(xs@),
                                        pp == pv(p@),
                                        recs_v(out@) + s_slice_elems(
                                            xsv,
                                            pp,
                                            from as int,
                                            b as int,
                                            st as int,
                                        ) == s_slice_elems(xsv, pp, a as int, b as int, st as int),
                                    decreases b - from,
                                {
                                    let ghost out0 = out@;
                                    let np = path_push(p, PathElem::Idx(from));
                                    out.push(Rec::Slice(&xs[from], np));
                                    proof {
                                        lemma_recs_v_push(out0, out@.last());
                                        assert(xsv[from as int] == xs@[from as int]@);
                                    }
                                    let ghost oldfrom = from as int;
                                    if (st as u64) > ((b - from) as u64) {
                                        from = b;
                                    } else {
                                        from = from + (st as usize);
                                    }
                                    proof {
                                        assert(from as int == (if oldfrom + st > b {
                                            b as int
                                        } else {
                                            oldfrom + st
                                        }));
                                        assert(recs_v(out@) + s_slice_elems(
                                            xsv,
                                            pp,
                                            from as int,
                                            b as int,
                                            st as int,
                                        ) =~= recs_v(out0) + s_slice_elems(
                                            xsv,
                                            pp,
                                            oldfrom,
                                            b as int,
                                            st as int,
                                        ));
                                    }
                                }
                                proof {
                                    assert(s_slice_elems(xsv, pp, from as int, b as int, st as int)
                                        =~= Seq::<RecV>::empty());
                                    assert(recs_v(out@) =~= recs_v(out@) + Seq::<RecV>::empty());
                                }
                            }
                        },
                        _ => {
                            out.push(Rec::NoV);
                            proof {
                                assert(recs_v(out@) =~= seq![RecV::NoV]);
                            }
                        },
                    }
                },
                Segment::Wildcard => {
                    match v {
                        Json::Arr(xs) => {
                            let ghost xsv = v@->Arr_0;
                            proof {
                                lemma_arr_items(*xs);
                                assert(recs_v(out@) + s_wild_arr(xsv, pp, 0) =~= s_wild_arr(
                                    xsv,
                                    pp,
                                    0,
                                ));
                            }
                            let mut i: usize = 0;
                            while i < xs.len()
                                invariant
                                    0 <= i <= xs@.len(),
                                    v == Json::Arr(*xs),
                                    xsv == v@->Arr_0,
                                    xsv == vals_v(xs@),
                                    xsv.len() == xs@.len(),
                                    pp == pv(p@),
                                    recs_v(out@) + s_wild_arr(xsv, pp, i as int) == s_wild_arr(
                                        xsv,
                                        pp,
                                        0,
                                    ),
                                decreases xs@.len() - i,
                            {
                                let ghost out0 = out@;
                                let np = path_push(p, PathElem::Idx(i));
                                out.push(Rec::Slice(&xs[i], np));
                                proof {
                                    lemma_recs_v_push(out0, out@.last());
                                    assert(xsv[i as int] == xs@[i as int]@);
                                    assert(recs_v(out@) + s_wild_arr(xsv, pp, i + 1) =~= recs_v(
                                        out0,
                                    ) + s_wild_arr(xsv, pp, i as int));
                                }
                                i = i + 1;
                            }
                            proof {
                                assert(s_wild_arr(xsv, pp, i as int) =~= Seq::<RecV>::empty());
                                assert(recs_v(out@) =~= recs_v(out@) + Seq::<RecV>::empty());
                            }
                        },
                        Json::Obj(es) => {
                            let ghost esv = v@->Obj_0;
                            proof {
                                lemma_obj_entries(*es);
                                assert(recs_v(out@) + s_wild_obj(esv, pp, 0) =~= s_wild_obj(
                                    esv,
                                    pp,
                                    0,
                                ));
                            }
                            let mut i: usize = 0;
                            while i < es.len()
                                invariant
                                    0 <= i <= es@.len(),
                                    v == Json::Obj(*es),
                                    esv == v@->Obj_0,
                                    esv == entries_v(es@),
                                    esv.len() == es@.len(),
                                    pp == pv(p@),
                                    recs_v(out@) + s_wild_obj(esv, pp, i as int) == s_wild_obj(
                                        esv,
                                        pp,
                                        0,
                                    ),
                                decreases es@.len() - i,
                            {
                                let ghost out0 = out@;
                                let np = path_push(p, PathElem::Key(es[i].0.clone()));
                                out.push(Rec::Slice(&es[i].1, np));
                                proof {
                                    lemma_recs_v_push(out0, out@.last());
                                    assert(esv[i as int] == (es@[i as int].0@, es@[i as int].1@));
                                    assert(recs_v(out@) + s_wild_obj(esv, pp, i + 1) =~= recs_v(
                                        out0,
                                    ) + s_wild_obj(esv, pp, i as int));
                                }
                                i = i + 1;
                            }
                            proof {
                                assert(s_wild_obj(esv, pp, i as int) =~= Seq::<RecV>::empty());
                                assert(recs_v(out@) =~= recs_v(out@) + Seq::<RecV>::empty());
                            }
                        },
                        _ => {
                            out.push(Rec::NoV);
                            proof {
                                assert(recs_v(out@) =~= seq![RecV::NoV]);
                            }
                        },
                    }
                },
                Segment::Descent => {
                    e_descent(v, p, &mut out);
                    proof {
                        assert(recs_v(out@) =~= s_desc_recs(s_descent(v@, pp)));
                    }
                },
                Segment::DescentField(name) => {
                    let mut ds: Vec<Rec<'a>> = Vec::new();
                    e_descent(v, p, &mut ds);
                    let ghost pairs = s_descent(v@, pp);
                    proof {
                        assert(recs_v(ds@) =~= s_desc_recs(pairs));
                        assert(ds@.len() == pairs.len());
                        assert(pairs.skip(0) =~= pairs);
                        assert(recs_v(out@) + s_dfield_filter(pairs.skip(0), name@)
                            =~= s_dfield_filter(pairs, name@));
                    }
                    let mut i: usize = 0;
                    while i < ds.len()
                        invariant
                            0 <= i <= ds@.len(),
                            pairs == s_descent(v@, pp),
                            recs_v(ds@) == s_desc_recs(pairs),
                            ds@.len() == pairs.len(),
                            recs_v(out@) + s_dfield_filter(pairs.skip(i as int), name@)
                                == s_dfield_filter(pairs, name@),
                        decreases ds@.len() - i,
                    {
                        let ghost out0 = out@;
                        proof {
                            assert(recs_v(ds@)[i as int] == ds@[i as int].rv());
                            assert(s_desc_recs(pairs)[i as int] == RecV::Slice(
                                pairs[i as int].0,
                                pairs[i as int].1,
                            ));
                            assert(pairs.skip(i as int)[0] == pairs[i as int]);
                            assert(pairs.skip(i as int).drop_first() =~= pairs.skip(i + 1));
                        }
                        match &ds[i] {
                            Rec::Slice(d0, dp) => {
                                let d: &'a Json = *d0;
                                match d {
                                    Json::Obj(entries) => {
                                        proof {
                                            lemma_obj_entries(*entries);
                                        }
                                        match obj_get_exec(entries, name) {
                                            Some(c) => {
                                                let np = path_push(
                                                    dp,
                                                    PathElem::Key(name.clone()),
                                                );
                                                out.push(Rec::Slice(c, np));
                                                proof {
                                                    lemma_recs_v_push(out0, out@.last());
                                                    assert(recs_v(out@) + s_dfield_filter(
                                                        pairs.skip(i + 1),
                                                        name@,
                                                    ) =~= recs_v(out0) + s_dfield_filter(
                                                        pairs.skip(i as int),
                                                        name@,
                                                    ));
                                                }
                                            },
                                            None => {
                                                proof {
                                                    assert(recs_v(out@) + s_dfield_filter(
                                                        pairs.skip(i + 1),
                                                        name@,
                                                    ) =~= recs_v(out0) + s_dfield_filter(
                                                        pairs.skip(i as int),
                                                        name@,
                                                    ));
                                                }
                                            },
                                        }
                                    },
                                    _ => {
                                        proof {
                                            assert(recs_v(out@) + s_dfield_filter(
                                                pairs.skip(i + 1),
                                                name@,
                                            ) =~= recs_v(out0) + s_dfield_filter(
                                                pairs.skip(i as int),
                                                name@,
                                            ));
                                        }
                                    },
                                }
                            },
                            _ => {
                                proof {
                                    assert(false);
                                }
                            },
                        }
                        i = i + 1;
                    }
                    proof {
                        assert(pairs.skip(i as int).len() == 0);
                        assert(s_dfield_filter(pairs.skip(i as int), name@)
                            =~= Seq::<RecV>::empty());
                        assert(recs_v(out@) =~= recs_v(out@) + Seq::<RecV>::empty());
                    }
                },
                Segment::Filter(fe) => {
                    match v {
                        Json::Arr(xs) => {
                            let ghost xsv = v@->Arr_0;
                            proof {
                                lemma_arr_items(*xs);
                                assert(recs_v(out@) + s_filter_arr(root@, *fe, xsv, pp, 0)
                                    =~= s_filter_arr(root@, *fe, xsv, pp, 0));
                            }
                            let mut i: usize = 0;
                            while i < xs.len()
                                invariant
                                    0 <= i <= xs@.len(),
                                    v == Json::Arr(*xs),
                                    xsv == v@->Arr_0,
                                    xsv == vals_v(xs@),
                                    xsv.len() == xs@.len(),
                                    pp == pv(p@),
                                    seg == Segment::Filter(*fe),
                                    recs_v(out@) + s_filter_arr(root@, *fe, xsv, pp, i as int)
                                        == s_filter_arr(root@, *fe, xsv, pp, 0),
                                decreases xs@.len() - i,
                            {
                                let ghost out0 = out@;
                                proof {
                                    assert(xsv[i as int] == xs@[i as int]@);
                                    assert(decreases_to!(*seg => seg->Filter_0));
                                }
                                if e_filter(root, fe, &xs[i]) {
                                    let np = path_push(p, PathElem::Idx(i));
                                    out.push(Rec::Slice(&xs[i], np));
                                    proof {
                                        lemma_recs_v_push(out0, out@.last());
                                        assert(recs_v(out@) + s_filter_arr(
                                            root@,
                                            *fe,
                                            xsv,
                                            pp,
                                            i + 1,
                                        ) =~= recs_v(out0) + s_filter_arr(
                                            root@,
                                            *fe,
                                            xsv,
                                            pp,
                                            i as int,
                                        ));
                                    }
                                } else {
                                    proof {
                                        assert(recs_v(out@) + s_filter_arr(
                                            root@,
                                            *fe,
                                            xsv,
                                            pp,
                                            i + 1,
                                        ) =~= recs_v(out0) + s_filter_arr(
                                            root@,
                                            *fe,
                                            xsv,
                                            pp,
                                            i as int,
                                        ));
                                    }
                                }
                                i = i + 1;
                            }
                            proof {
                                assert(s_filter_arr(root@, *fe, xsv, pp, i as int)
                                    =~= Seq::<RecV>::empty());
                                assert(recs_v(out@) =~= recs_v(out@) + Seq::<RecV>::empty());
                            }
                        },
                        Json::Obj(_) => {
                            if e_filter(root, fe, v) {
                                let cp = clone_path(p);
                                out.push(Rec::Slice(v, cp));
                                proof {
                                    assert(recs_v(out@) =~= seq![RecV::Slice(v@, pp)]);
                                }
                            } else {
                                out.push(Rec::NoV);
                                proof {
                                    assert(recs_v(out@) =~= seq![RecV::NoV]);
                                }
                            }
                        },
                        _ => {
                            out.push(Rec::NoV);
                            proof {
                                assert(recs_v(out@) =~= seq![RecV::NoV]);
                            }
                        },
                    }
                },
                Segment::Func(f) => {
                    match f {
                        PathFn::Length => {
                            match v {
                                Json::Arr(xs) => {
                                    proof {
                                        lemma_arr_items(*xs);
                                    }
                                    let lj = len_to_json(xs.len());
                                    out.push(Rec::New(lj));
                                    proof {
                                        assert(recs_v(out@) =~= seq![
                                            RecV::New(len_num(v@->Arr_0.len() as int)),
                                        ]);
                                    }
                                },
                                Json::Str(st) => {
                                    let lj = len_to_json(st.as_str().unicode_len());
                                    out.push(Rec::New(lj));
                                    proof {
                                        assert(recs_v(out@) =~= seq![
                                            RecV::New(len_num(st@.len() as int)),
                                        ]);
                                    }
                                },
                                _ => {
                                    out.push(Rec::NoV);
                                    proof {
                                        assert(recs_v(out@) =~= seq![RecV::NoV]);
                                    }
                                },
                            }
                        },
                    }
                },
            }
        },
    }
    out
}

/// A slice bound brought into `0..len`.
fn clamp_exec(len: usize, x: i64) -> (r: usize)
    ensures
        r == clamp_idx(len as int, x as int),
{
    if x < 0 {
        let nx: i128 = (len as i128) + (x as i128);
        if nx < 0 {
            0
        } else {
            nx as usize
        }
    } else {
        if (x as u64) > (len as u64) {
            len
        } else {
            x as usize
        }
    }
}

/// One segment applied to every record.
fn e_seg_all<'a>(root: &'a Json, seg: &Segment, rs: &Vec<Rec<'a>>) -> (out: Vec<Rec<'a>>)
    ensures
        recs_v(out@) == s_seg_all(root@, *seg, recs_v(rs@), 0),
    decreases *seg, 1int,
{
    let ghost rsv = recs_v(rs@);
    let mut out: Vec<Rec<'a>> = Vec::new();
    proof {
        assert(recs_v(out@) + s_seg_all(root@, *seg, rsv, 0) =~= s_seg_all(root@, *seg, rsv, 0));
    }
    let mut i: usize = 0;
    while i < rs.len()
        invariant
            0 <= i <= rs@.len(),
            rsv == recs_v(rs@),
            rsv.len() == rs@.len(),
            recs_v(out@) + s_seg_all(root@, *seg, rsv, i as int) == s_seg_all(
                root@,
                *seg,
                rsv,
                0,
            ),
        decreases rs@.len() - i,
    {
        let ghost out0 = out@;
        proof {
            assert(rsv[i as int] == rs@[i as int].rv());
        }
        let mut chunk = e_seg(root, seg, &rs[i]);
        let ghost chunkv = chunk@;
        out.append(&mut chunk);
        proof {
            lemma_recs_v_concat(out0, chunkv);
            assert(recs_v(out@) + s_seg_all(root@, *seg, rsv, i + 1) =~= recs_v(out0) + s_seg_all(
                root@,
                *seg,
                rsv,
                i as int,
            ));
        }
        i = i + 1;
    }
    proof {
        assert(s_seg_all(root@, *seg, rsv, i as int) =~= Seq::<RecV>::empty());
        assert(recs_v(out@) =~= recs_v(out@) + Seq::<RecV>::empty());
    }
    out
}

/// `length()` applied after a search step.
fn e_length_all<'a>(rs: &Vec<Rec<'a>>) -> (out: Vec<Rec<'a>>)
    ensures
        recs_v(out@) == s_length_all(recs_v(rs@)),
{
    let ghost rsv = recs_v(rs@);
    let mut has_arr = false;
    let mut i: usize = 0;
    while i < rs.len() && !has_arr
        invariant
            0 <= i <= rs@.len(),
            rsv == recs_v(rs@),
            rsv.len() == rs@.len(),
            has_arr ==> some_arr(rsv),
            !has_arr ==> (forall|j: int|
                0 <= j < i ==> !((#[trigger] rsv[j]) matches RecV::Slice(v, _) && v is Arr)),
        decreases rs@.len() - i,
    {
        proof {
            assert(rsv[i as int] == rs@[i as int].rv());
        }
        let hit = match &rs[i] {
            Rec::Slice(v, _) => match **v {
                Json::Arr(_) => true,
                _ => false,
            },
            _ => false,
        };
        if hit {
            has_arr = true;
            proof {
                assert(some_arr(rsv));
            }
        }
        i = i + 1;
    }
    if has_arr {
        let mut out: Vec<Rec<'a>> = Vec::new();
        proof {
            assert(recs_v(out@) + s_len_map(rsv, 0) =~= s_len_map(rsv, 0));
        }
        let mut n: usize = 0;
        while n < rs.len()
            invariant
                0 <= n <= rs@.len(),
                rsv == recs_v(rs@),
                rsv.len() == rs@.len(),
                some_arr(rsv),
                recs_v(out@) + s_len_map(rsv, n as int) == s_len_map(rsv, 0),
            decreases rs@.len() - n,
        {
            let ghost out0 = out@;
            proof {
                assert(rsv[n as int] == rs@[n as int].rv());
            }
            match &rs[n] {
                Rec::NoV => {
                    out.push(Rec::NoV);
                    proof {
                        lemma_recs_v_push(out0, out@.last());
                    }
                },
                Rec::New(_) => {},
                Rec::Slice(v0, _) => {
                    let v: &'a Json = *v0;
                    match v {
                        Json::Arr(xs) => {
                            proof {
                                lemma_arr_items(*xs);
                            }
                            let lj = len_to_json(xs.len());
                            out.push(Rec::New(lj));
                            proof {
                                lemma_recs_v_push(out0, out@.last());
                            }
                        },
                        Json::Str(st) => {
                            let lj = len_to_json(st.as_str().unicode_len());
                            out.push(Rec::New(lj));
                            proof {
                                lemma_recs_v_push(out0, out@.last());
                            }
                        },
                        _ => {
                            out.push(Rec::NoV);
                            proof {
                                lemma_recs_v_push(out0, out@.last());
                            }
                        },
                    }
                },
            }
            proof {
                assert(recs_v(out@) + s_len_map(rsv, n + 1) =~= recs_v(out0) + s_len_map(
                    rsv,
                    n as int,
                ));
            }
            n = n + 1;
        }
        proof {
            assert(s_len_map(rsv, n as int) =~= Seq::<RecV>::empty());
            assert(recs_v(out@) =~= recs_v(out@) + Seq::<RecV>::empty());
        }
        out
    } else {
        proof {
            assert(!some_arr(rsv));
        }
        let mut c: usize = 0;
        let mut n: usize = 0;
        proof {
            assert(rsv.skip(0) =~= rsv);
        }
        while n < rs.len()
            invariant
                0 <= n <= rs@.len(),
                c <= n,
                rsv == recs_v(rs@),
                rsv.len() == rs@.len(),
                !some_arr(rsv),
                c + keep_values(rsv.skip(n as int)).len() == keep_values(rsv).len(),
            decreases rs@.len() - n,
        {
            proof {
                assert(rsv[n as int] == rs@[n as int].rv());
                assert(rsv.skip(n as int)[0] == rsv[n as int]);
                assert(rsv.skip(n as int).drop_first() =~= rsv.skip(n + 1));
            }
            let hv = match &rs[n] {
                Rec::NoV => false,
                _ => true,
            };
            if hv {
                c = c + 1;
            }
            n = n + 1;
        }
        proof {
            assert(rsv.skip(n as int).len() == 0);
            assert(keep_values(rsv.skip(n as int)).len() == 0);
            assert(c == count_values(rsv));
        }
        let mut out: Vec<Rec<'a>> = Vec::new();
        if c == 0 {
            out.push(Rec::NoV);
            proof {
                assert(recs_v(out@) =~= seq![RecV::NoV]);
            }
        } else {
            let lj = len_to_json(c);
            out.push(Rec::New(lj));
            proof {
                assert(recs_v(out@) =~= seq![RecV::New(len_num(count_values(rsv)))]);
            }
        }
        out
    }
}

/// The whole chain of segments, folded left to right over `init`.
fn e_chain<'a>(
    root: &'a Json,
    segs: &Vec<Segment>,
    init: Vec<Rec<'a>>,
    search0: bool,
) -> (out: Vec<Rec<'a>>)
    ensures
        recs_v(out@) == s_find(root@, segs@, recs_v(init@), search0),
    decreases segs@, 2int,
{
    let ghost goal = s_find(root@, segs@, recs_v(init@), search0);
    let mut recs = init;
    let mut search = search0;
    proof {
        assert(segs@.skip(0) =~= segs@);
    }
    let mut k: usize = 0;
    while k < segs.len()
        invariant
            0 <= k <= segs@.len(),
            s_find(root@, segs@.skip(k as int), recs_v(recs@), search) == goal,
        decreases segs@.len() - k,
    {
        let seg = &segs[k];
        proof {
            assert(decreases_to!(segs@ => segs@[k as int]));
            assert(segs@.skip(k as int)[0] == segs@[k as int]);
            assert(segs@.skip(k as int).drop_first() =~= segs@.skip(k + 1));
        }
        let is_len = match seg {
            Segment::Func(_) => true,
            _ => false,
        };
        let next = if is_len && search {
            e_length_all(&recs)
        } else {
            e_seg_all(root, seg, &recs)
        };
        let new_search = match seg {
            Segment::Filter(_) => true,
            Segment::Wildcard => true,
            _ => false,
        };
        proof {
            assert(s_find(root@, segs@.skip(k + 1), recs_v(next@), new_search) == goal);
        }
        recs = next;
        search = new_search;
        k = k + 1;
    }
    proof {
        assert(segs@.skip(k as int).len() == 0);
    }
    recs
}

/// Evaluates a whole path against the document root.
pub fn eval_path<'a>(root: &'a Json, path: &JsonPath) -> (out: Vec<Rec<'a>>)
    ensures
        recs_v(out@) == s_eval(root@, path.segs@),
{
    let mut init: Vec<Rec<'a>> = Vec::new();
    init.push(Rec::Slice(root, Vec::new()));
    proof {
        assert(pv(Seq::<PathElem>::empty()) =~= Seq::<PathElemV>::empty());
        assert(recs_v(init@) =~= seq![RecV::Slice(root@, Seq::<PathElemV>::empty())]);
    }
    e_chain(root, &path.segs, init, false)
}

} // verus!
