//! A JSONPath query engine: path expressions are compiled into an abstract
//! syntax tree and evaluated against an in-memory JSON document, yielding the
//! matching nodes together with the canonical paths that address them.
//!
//! A path such as `$..book[?(@.price < 10)].title` is compiled through
//! [`JsonPathInst`]; [`find_slice`] returns the matches with their paths,
//! [`find`] the matched values as a JSON array, and [`find_as_path`] the
//! canonical path strings.
use vstd::prelude::*;

pub mod ast;
pub mod eval;
pub mod json;
pub mod laws;
pub mod parser;
pub mod paths;
pub mod regex_ops;
pub mod text;

use crate::ast::JsonPath;
use crate::eval::{eval_path, keep_values, rec_values, recs_v, Rec, RecV};
use crate::json::{Json, Jv};
use crate::paths::spec_render;

verus! {

/// A compiled JSONPath expression.
#[derive(Debug)]
pub struct JsonPathInst {
    pub inner: JsonPath,
}

/// A result of evaluating a path: a borrowed slice of the document with
/// its canonical path, a newly computed value, or the no-match sentinel.
#[derive(Debug)]
pub enum JsonPathValue<'a> {
    /// A node of the input document, with the canonical path string that
    /// addresses it.
    Slice(&'a Json, String),
    /// A value computed during evaluation (such as a `length()` result);
    /// it has no path.
    NewValue(Json),
    /// The input did not match the path.
    NoValue,
}

/// The model of a [`JsonPathValue`].
pub enum JpvV {
    Slice(Jv, Seq<char>),
    NewValue(Jv),
    NoValue,
}

impl JpvV {
    /// The value carried, `Null` for the sentinel.
    pub open spec fn value(self) -> Jv {
        match self {
            JpvV::Slice(v, _) => v,
            JpvV::NewValue(v) => v,
            JpvV::NoValue => Jv::Null,
        }
    }
}

impl<'a> View for JsonPathValue<'a> {
    type V = JpvV;

    open spec fn view(&self) -> JpvV {
        match self {
            JsonPathValue::Slice(v, p) => JpvV::Slice(v@, p@),
            JsonPathValue::NewValue(j) => JpvV::NewValue(j@),
            JsonPathValue::NoValue => JpvV::NoValue,
        }
    }
}

/// The model of a result list.
pub open spec fn jpvs_v<'a>(rs: Seq<JsonPathValue<'a>>) -> Seq<JpvV> {
    rs.map_values(|r: JsonPathValue<'a>| r@)
}

/// A record as the user sees it: the path rendered as a string.
pub open spec fn rec_render(r: RecV) -> JpvV {
    match r {
        RecV::Slice(v, p) => JpvV::Slice(v, spec_render(p)),
        RecV::New(v) => JpvV::NewValue(v),
        RecV::NoV => JpvV::NoValue,
    }
}

/// A whole record list, rendered.
pub open spec fn render_all(rs: Seq<RecV>) -> Seq<JpvV> {
    rs.map_values(|r: RecV| rec_render(r))
}

/// What `find_slice` returns: the matches of the path in `root`, rendered,
/// or the single `NoValue` sentinel when there is no match.
pub open spec fn spec_find_slice(root: Jv, path: JsonPath) -> Seq<JpvV> {
    render_all(crate::eval::s_find_slice(root, path.segs@))
}

/// What `find` returns: `Null` when nothing matched, else the array of the
/// matched values.
pub open spec fn spec_find(root: Jv, path: JsonPath) -> Jv {
    let hv = crate::eval::s_find_slice(root, path.segs@);
    if hv == seq![RecV::NoV] {
        Jv::Null
    } else {
        Jv::Arr(hv.map_values(|r: RecV| r.value()))
    }
}

/// The rendered paths of the `Slice` records, in order.
pub open spec fn slice_paths(rs: Seq<RecV>) -> Seq<Jv>
    decreases rs.len(),
{
    if rs.len() == 0 {
        Seq::empty()
    } else {
        (match rs[0] {
            RecV::Slice(_, p) => seq![Jv::Str(spec_render(p))],
            _ => Seq::empty(),
        }) + slice_paths(rs.drop_first())
    }
}

/// What `find_as_path` returns: the array of canonical path strings of the
/// matched document nodes.
pub open spec fn spec_find_as_path(root: Jv, path: JsonPath) -> Jv {
    Jv::Arr(slice_paths(crate::eval::s_find_slice(root, path.segs@)))
}

/// Every record that `keep_values` keeps carries a value.
pub proof fn lemma_keep_values_hv(rs: Seq<RecV>)
    ensures
        forall|i: int|
            0 <= i < keep_values(rs).len() ==> (#[trigger] keep_values(rs)[i]).has_value(),
    decreases rs.len(),
{
    if rs.len() > 0 {
        lemma_keep_values_hv(rs.drop_first());
        if !(rs[0] is NoV) {
            assert forall|i: int|
                0 <= i < keep_values(rs).len() implies (#[trigger] keep_values(
                rs,
            )[i]).has_value() by {
                if i > 0 {
                    assert(keep_values(rs)[i] == keep_values(rs.drop_first())[i - 1]);
                }
            }
        }
    }
}

/// `rec_values` lists exactly the values of the kept records.
pub proof fn lemma_rec_values_keep(rs: Seq<RecV>)
    ensures
        rec_values(rs) == keep_values(rs).map_values(|r: RecV| r.value()),
    decreases rs.len(),
{
    if rs.len() == 0 {
        assert(rec_values(rs) =~= keep_values(rs).map_values(|r: RecV| r.value()));
    } else {
        lemma_rec_values_keep(rs.drop_first());
        if rs[0] is NoV {
            assert(rec_values(rs) =~= keep_values(rs).map_values(|r: RecV| r.value()));
        } else {
            assert forall|k: int| 0 <= k < keep_values(rs).len() implies keep_values(rs).map_values(
                |r: RecV| r.value(),
            )[k] == rec_values(rs)[k] by {
                assert(keep_values(rs).map_values(|r: RecV| r.value())[k] == keep_values(
                    rs,
                )[k].value());
                if k > 0 {
                    assert(keep_values(rs)[k] == keep_values(rs.drop_first())[k - 1]);
                    assert(keep_values(rs.drop_first()).map_values(|r: RecV| r.value())[k - 1]
                        == keep_values(rs.drop_first())[k - 1].value());
                }
            }
            assert(rec_values(rs) =~= keep_values(rs).map_values(|r: RecV| r.value()));
        }
    }
}

/// `keep_values` keeps nothing exactly when no record carries a value.
pub proof fn lemma_keep_len(rs: Seq<RecV>)
    ensures
        keep_values(rs).len() == 0 <==> (forall|j: int|
            0 <= j < rs.len() ==> !(#[trigger] rs[j]).has_value()),
    decreases rs.len(),
{
    if rs.len() > 0 {
        lemma_keep_len(rs.drop_first());
        if rs[0] is NoV {
            assert(keep_values(rs) == keep_values(rs.drop_first()));
            if keep_values(rs).len() == 0 {
                assert forall|j: int|
                    0 <= j < rs.len() implies !(#[trigger] rs[j]).has_value() by {
                    if j > 0 {
                        assert(rs.drop_first()[j - 1] == rs[j]);
                        assert(!rs.drop_first()[j - 1].has_value());
                    }
                }
            } else {
                let j0 = choose|j: int|
                    0 <= j < rs.drop_first().len() && (#[trigger] rs.drop_first()[j]).has_value();
                assert(rs.drop_first()[j0] == rs[j0 + 1]);
                assert(rs[j0 + 1].has_value());
            }
        } else {
            assert(rs[0].has_value());
            assert(keep_values(rs).len() > 0);
        }
    }
}

/// Finds the slice of data addressed by the compiled path: each match with
/// its canonical path. With no match at all, the result is the single
/// `NoValue` sentinel.
pub fn find_slice<'a>(path: &JsonPathInst, json: &'a Json) -> (out: Vec<JsonPathValue<'a>>)
    ensures
        jpvs_v(out@) == spec_find_slice(json@, path.inner),
{
    let recs = eval_path(json, &path.inner);
    let ghost rsv = recs_v(recs@);
    let ghost hv = keep_values(rsv);
    let mut out: Vec<JsonPathValue<'a>> = Vec::new();
    proof {
        assert(rsv.skip(0) =~= rsv);
        assert(jpvs_v(out@) + render_all(keep_values(rsv.skip(0))) =~= render_all(hv));
    }
    let mut i: usize = 0;
    while i < recs.len()
        invariant
            0 <= i <= recs@.len(),
            rsv == recs_v(recs@),
            hv == keep_values(rsv),
            rsv.len() == recs@.len(),
            jpvs_v(out@) + render_all(keep_values(rsv.skip(i as int))) == render_all(hv),
            out@.len() <= i,
        decreases recs@.len() - i,
    {
        let ghost out0 = out@;
        proof {
            assert(rsv[i as int] == recs@[i as int].rv());
            assert(rsv.skip(i as int)[0] == rsv[i as int]);
            assert(rsv.skip(i as int).drop_first() =~= rsv.skip(i + 1));
        }
        match &recs[i] {
            Rec::Slice(v, p) => {
                let ps = crate::paths::render_path(p);
                out.push(JsonPathValue::Slice(*v, ps));
            },
            Rec::New(j) => {
                let c = j.clone();
                out.push(JsonPathValue::NewValue(c));
            },
            Rec::NoV => {},
        }
        proof {
            if out@.len() > out0.len() {
                assert forall|k: int| 0 <= k < out@.len() implies jpvs_v(out@)[k] == (jpvs_v(out0)
                    + seq![rec_render(rsv[i as int])])[k] by {
                    assert(jpvs_v(out@)[k] == out@[k]@);
                    if k < out0.len() {
                        assert(out@[k] == out0[k]);
                        assert(jpvs_v(out0)[k] == out0[k]@);
                    }
                }
                assert(jpvs_v(out@) =~= jpvs_v(out0) + seq![rec_render(rsv[i as int])]);
                assert(render_all(keep_values(rsv.skip(i as int))) =~= seq![
                    rec_render(rsv[i as int]),
                ] + render_all(keep_values(rsv.skip(i + 1))));
                assert(jpvs_v(out@) + render_all(keep_values(rsv.skip(i + 1))) =~= jpvs_v(out0)
                    + render_all(keep_values(rsv.skip(i as int))));
            } else {
                assert(jpvs_v(out@) =~= jpvs_v(out0));
                assert(render_all(keep_values(rsv.skip(i as int))) =~= render_all(
                    keep_values(rsv.skip(i + 1)),
                ));
            }
        }
        i = i + 1;
    }
    proof {
        assert(rsv.skip(i as int).len() == 0);
        assert(render_all(keep_values(rsv.skip(i as int))) =~= Seq::<JpvV>::empty());
        assert(jpvs_v(out@) =~= render_all(hv));
        assert(out@.len() == render_all(hv).len());
    }
    if out.len() == 0 {
        out.push(JsonPathValue::NoValue);
        proof {
            assert(jpvs_v(out@) =~= seq![JpvV::NoValue]);
            assert(render_all(seq![RecV::NoV]) =~= seq![JpvV::NoValue]);
        }
    }
    out
}

/// Finds the matched values, cloned into a JSON array; `Null` when the
/// path matched nothing.
pub fn find(path: &JsonPathInst, json: &Json) -> (r: Json)
    ensures
        r@ == spec_find(json@, path.inner),
{
    let recs = eval_path(json, &path.inner);
    let ghost rsv = recs_v(recs@);
    let ghost hv = keep_values(rsv);
    proof {
        lemma_keep_values_hv(rsv);
    }
    let mut vals: Vec<Json> = Vec::new();
    let mut any: bool = false;
    proof {
        assert(rsv.skip(0) =~= rsv);
        assert(crate::eval::vals_v(vals@) + rec_values(rsv.skip(0)) =~= rec_values(rsv));
    }
    let mut i: usize = 0;
    while i < recs.len()
        invariant
            0 <= i <= recs@.len(),
            rsv == recs_v(recs@),
            hv == keep_values(rsv),
            rsv.len() == recs@.len(),
            crate::eval::vals_v(vals@) + rec_values(rsv.skip(i as int)) == rec_values(rsv),
            any == (exists|j: int| 0 <= j < i && (#[trigger] rsv[j]).has_value()),
        decreases recs@.len() - i,
    {
        let ghost vals0 = vals@;
        proof {
            assert(rsv[i as int] == recs@[i as int].rv());
            assert(rsv.skip(i as int)[0] == rsv[i as int]);
            assert(rsv.skip(i as int).drop_first() =~= rsv.skip(i + 1));
        }
        match &recs[i] {
            Rec::Slice(v, _) => {
                let c = (*v).clone();
                vals.push(c);
                any = true;
            },
            Rec::New(j) => {
                let c = j.clone();
                vals.push(c);
                any = true;
            },
            Rec::NoV => {},
        }
        proof {
            if vals@.len() > vals0.len() {
                assert forall|k: int| 0 <= k < vals@.len() implies crate::eval::vals_v(vals@)[k]
                    == (crate::eval::vals_v(vals0) + seq![rsv[i as int].value()])[k] by {
                    assert(crate::eval::vals_v(vals@)[k] == vals@[k]@);
                    if k < vals0.len() {
                        assert(vals@[k] == vals0[k]);
                        assert(crate::eval::vals_v(vals0)[k] == vals0[k]@);
                    }
                }
                assert(crate::eval::vals_v(vals@) =~= crate::eval::vals_v(vals0) + seq![
                    rsv[i as int].value(),
                ]);
                assert(crate::eval::vals_v(vals@) + rec_values(rsv.skip(i + 1))
                    =~= crate::eval::vals_v(vals0) + rec_values(rsv.skip(i as int)));
                assert(rsv[i as int].has_value());
            } else {
                assert(crate::eval::vals_v(vals@) =~= crate::eval::vals_v(vals0));
            }
        }
        i = i + 1;
    }
    proof {
        assert(rsv.skip(i as int).len() == 0);
        assert(rec_values(rsv.skip(i as int)) =~= Seq::<Jv>::empty());
        assert(crate::eval::vals_v(vals@) =~= rec_values(rsv));
        lemma_rec_values_keep(rsv);
    }
    if any {
        let r = Json::Arr(vals);
        proof {
            crate::eval::lemma_arr_items(vals);
            lemma_keep_len(rsv);
            assert(hv.len() > 0);
            assert(hv[0].has_value());
            assert(!(hv == seq![RecV::NoV]));
            assert forall|k: int| 0 <= k < hv.len() implies hv.map_values(|r2: RecV| r2.value())[k]
                == crate::eval::vals_v(vals@)[k] by {
                assert(hv.map_values(|r2: RecV| r2.value())[k] == hv[k].value());
            }
            assert(r@->Arr_0 =~= hv.map_values(|r2: RecV| r2.value()));
            assert(r@ =~= spec_find(json@, path.inner));
        }
        r
    } else {
        proof {
            lemma_keep_len(rsv);
            assert(hv.len() == 0);
            assert(crate::eval::s_find_slice(json@, path.inner.segs@) == seq![RecV::NoV]);
        }
        Json::Null
    }
}

/// Finds the canonical paths of the matched nodes, as a JSON array of
/// strings; computed values carry no path and are left out.
pub fn find_as_path(path: &JsonPathInst, json: &Json) -> (r: Json)
    ensures
        r@ == spec_find_as_path(json@, path.inner),
{
    let slice = find_slice(path, json);
    let ghost hv = crate::eval::s_find_slice(json@, path.inner.segs@);
    let mut vals: Vec<Json> = Vec::new();
    proof {
        assert(hv.skip(0) =~= hv);
        assert(jpvs_v(slice@).len() == slice@.len());
        assert(slice@.len() == hv.len());
        assert(crate::eval::vals_v(vals@) + slice_paths(hv.skip(0)) =~= slice_paths(hv));
    }
    let mut i: usize = 0;
    while i < slice.len()
        invariant
            0 <= i <= slice@.len(),
            jpvs_v(slice@) == render_all(hv),
            hv == crate::eval::s_find_slice(json@, path.inner.segs@),
            slice@.len() == hv.len(),
            crate::eval::vals_v(vals@) + slice_paths(hv.skip(i as int)) == slice_paths(hv),
        decreases slice@.len() - i,
    {
        let ghost vals0 = vals@;
        proof {
            assert(jpvs_v(slice@)[i as int] == slice@[i as int]@);
            assert(render_all(hv)[i as int] == rec_render(hv[i as int]));
            assert(hv.skip(i as int)[0] == hv[i as int]);
            assert(hv.skip(i as int).drop_first() =~= hv.skip(i + 1));
        }
        match &slice[i] {
            JsonPathValue::Slice(_, p) => {
                let c = p.clone();
                vals.push(Json::Str(c));
            },
            _ => {},
        }
        proof {
            if vals@.len() > vals0.len() {
                assert forall|k: int| 0 <= k < vals@.len() implies crate::eval::vals_v(vals@)[k]
                    == (crate::eval::vals_v(vals0) + (match hv[i as int] {
                    RecV::Slice(_, pp) => seq![Jv::Str(spec_render(pp))],
                    _ => Seq::<Jv>::empty(),
                }))[k] by {
                    assert(crate::eval::vals_v(vals@)[k] == vals@[k]@);
                    if k < vals0.len() {
                        assert(vals@[k] == vals0[k]);
                        assert(crate::eval::vals_v(vals0)[k] == vals0[k]@);
                    }
                }
                assert(crate::eval::vals_v(vals@) =~= crate::eval::vals_v(vals0) + (
                match hv[i as int] {
                    RecV::Slice(_, pp) => seq![Jv::Str(spec_render(pp))],
                    _ => Seq::<Jv>::empty(),
                }));
                assert(crate::eval::vals_v(vals@) + slice_paths(hv.skip(i + 1))
                    =~= crate::eval::vals_v(vals0) + slice_paths(hv.skip(i as int)));
            } else {
                assert(crate::eval::vals_v(vals@) =~= crate::eval::vals_v(vals0));
                assert(crate::eval::vals_v(vals@) + slice_paths(hv.skip(i + 1))
                    =~= crate::eval::vals_v(vals0) + slice_paths(hv.skip(i as int)));
            }
        }
        i = i + 1;
    }
    proof {
        assert(hv.skip(i as int).len() == 0);
        assert(slice_paths(hv.skip(i as int)) =~= Seq::<Jv>::empty());
        assert(crate::eval::vals_v(vals@) =~= slice_paths(hv));
    }
    let r = Json::Arr(vals);
    proof {
        crate::eval::lemma_arr_items(vals);
        assert(r@ =~= spec_find_as_path(json@, path.inner));
    }
    r
}

/// Json paths may return either pointers into the original json or new
/// data. This pointer type has no `NoValue`: absent matches are dropped.
#[derive(Debug)]
pub enum JsonPtr<'a> {
    /// A node of the initial document.
    Slice(&'a Json),
    /// A value computed during evaluation.
    NewValue(Json),
}

/// The model of a [`JsonPtr`].
pub enum JptrV {
    Slice(Jv),
    NewValue(Jv),
}

impl<'a> View for JsonPtr<'a> {
    type V = JptrV;

    open spec fn view(&self) -> JptrV {
        match self {
            JsonPtr::Slice(v) => JptrV::Slice(v@),
            JsonPtr::NewValue(j) => JptrV::NewValue(j@),
        }
    }
}

/// The pointer that a kept record becomes.
pub open spec fn rec_ptr(r: RecV) -> JptrV {
    match r {
        RecV::Slice(v, _) => JptrV::Slice(v),
        RecV::New(v) => JptrV::NewValue(v),
        RecV::NoV => JptrV::NewValue(Jv::Null),
    }
}

/// The model of a pointer list.
pub open spec fn ptrs_v<'a>(rs: Seq<JsonPtr<'a>>) -> Seq<JptrV> {
    rs.map_values(|r: JsonPtr<'a>| r@)
}

/// A whole record list as pointers.
pub open spec fn ptr_all(rs: Seq<RecV>) -> Seq<JptrV> {
    rs.map_values(|r: RecV| rec_ptr(r))
}

/// The models of a list of borrowed nodes.
pub open spec fn refs_v<'a>(rs: Seq<&'a Json>) -> Seq<Jv> {
    rs.map_values(|x: &'a Json| x@)
}

/// The models of a list of node/path pairs.
pub open spec fn pairs_v<'a>(rs: Seq<(&'a Json, String)>) -> Seq<(Jv, Seq<char>)> {
    rs.map_values(|x: (&'a Json, String)| (x.0@, x.1@))
}

impl<'a> JsonPtr<'a> {
    /// The value this pointer carries, whichever variant holds it.
    pub fn value(&self) -> (r: &Json)
        ensures
            r@ == (match self@ {
                JptrV::Slice(v) => v,
                JptrV::NewValue(v) => v,
            }),
    {
        match self {
            JsonPtr::Slice(v) => v,
            JsonPtr::NewValue(j) => j,
        }
    }
}

impl JsonPathInst {
    /// The matched nodes and computed values, absent matches dropped.
    pub fn find_slice<'a>(&'a self, value: &'a Json) -> (out: Vec<JsonPtr<'a>>)
        ensures
            ptrs_v(out@) == ptr_all(keep_values(crate::eval::s_eval(value@, self.inner.segs@),)),
    {
        let recs = eval_path(value, &self.inner);
        let ghost rsv = recs_v(recs@);
        let ghost hv = keep_values(rsv);
        let mut out: Vec<JsonPtr<'a>> = Vec::new();
        proof {
            assert(rsv.skip(0) =~= rsv);
            assert(ptrs_v(out@) + ptr_all(keep_values(rsv.skip(0))) =~= ptr_all(hv));
        }
        let mut i: usize = 0;
        while i < recs.len()
            invariant
                0 <= i <= recs@.len(),
                rsv == recs_v(recs@),
                hv == keep_values(rsv),
                rsv.len() == recs@.len(),
                ptrs_v(out@) + ptr_all(keep_values(rsv.skip(i as int))) == ptr_all(hv),
            decreases recs@.len() - i,
        {
            let ghost out0 = out@;
            proof {
                assert(rsv[i as int] == recs@[i as int].rv());
                assert(rsv.skip(i as int)[0] == rsv[i as int]);
                assert(rsv.skip(i as int).drop_first() =~= rsv.skip(i + 1));
            }
            match &recs[i] {
                Rec::Slice(v, _) => {
                    out.push(JsonPtr::Slice(*v));
                },
                Rec::New(j) => {
                    let c = j.clone();
                    out.push(JsonPtr::NewValue(c));
                },
                Rec::NoV => {},
            }
            proof {
                if out@.len() > out0.len() {
                    assert forall|k: int|
                        0 <= k < out@.len() implies ptrs_v(out@)[k] == (
                        ptrs_v(out0) + seq![rec_ptr(rsv[i as int])])[k] by {
                        assert(ptrs_v(out@)[k] == out@[k]@);
                        if k < out0.len() {
                            assert(out@[k] == out0[k]);
                            assert(ptrs_v(out0)[k] == out0[k]@);
                        }
                    }
                    assert(ptrs_v(out@) =~= out0.map_values(
                        |r: JsonPtr<'a>| r@,
                    ) + seq![rec_ptr(rsv[i as int])]);
                    assert(ptr_all(keep_values(rsv.skip(i as int))) =~=
                        seq![rec_ptr(rsv[i as int])] + ptr_all(keep_values(rsv.skip(i + 1))));
                    assert(ptrs_v(out@) + ptr_all(keep_values(rsv.skip(i + 1),)) =~= ptrs_v(out0)
                        + ptr_all(keep_values(rsv.skip(i as int))));
                } else {
                    assert(ptrs_v(out@) =~= out0.map_values(
                        |r: JsonPtr<'a>| r@,
                    ));
                    assert(ptr_all(keep_values(rsv.skip(i as int))) =~=
                        ptr_all(keep_values(rsv.skip(i + 1))));
                }
            }
            i = i + 1;
        }
        proof {
            assert(rsv.skip(i as int).len() == 0);
            assert(ptr_all(keep_values(rsv.skip(i as int)))
                =~= Seq::<JptrV>::empty());
            assert(ptrs_v(out@) =~= ptr_all(hv));
        }
        out
    }
}

/// Semantic equality of two results: values by [`jv_eq`], paths exactly.
pub open spec fn jpv_eq(a: JpvV, b: JpvV) -> bool {
    match (a, b) {
        (JpvV::Slice(v1, p1), JpvV::Slice(v2, p2)) => crate::json::jv_eq(v1, v2) && p1 == p2,
        (JpvV::NewValue(v1), JpvV::NewValue(v2)) => crate::json::jv_eq(v1, v2),
        (JpvV::NoValue, JpvV::NoValue) => true,
        _ => false,
    }
}

impl<'a> PartialEq for JsonPathValue<'a> {
    /// Semantic equality ([`jpv_eq`]) of the two results.
    fn eq(&self, other: &JsonPathValue<'a>) -> (r: bool) {
        match (self, other) {
            (JsonPathValue::Slice(v1, p1), JsonPathValue::Slice(v2, p2)) => {
                let ve = crate::json::json_eq(*v1, *v2);
                ve && *p1 == *p2
            },
            (JsonPathValue::NewValue(v1), JsonPathValue::NewValue(v2)) => crate::json::json_eq(
                v1,
                v2,
            ),
            (JsonPathValue::NoValue, JsonPathValue::NoValue) => true,
            _ => false,
        }
    }
}

impl<'a> vstd::std_specs::cmp::PartialEqSpecImpl for JsonPathValue<'a> {
    open spec fn obeys_eq_spec() -> bool {
        true
    }

    open spec fn eq_spec(&self, other: &JsonPathValue<'a>) -> bool {
        jpv_eq(self@, other@)
    }
}

impl<'a> Clone for JsonPathValue<'a> {
    /// A copy whose model is the model of the original.
    fn clone(&self) -> (r: JsonPathValue<'a>)
        ensures
            r@ == self@,
    {
        match self {
            JsonPathValue::Slice(v, p) => JsonPathValue::Slice(*v, p.clone()),
            JsonPathValue::NewValue(j) => JsonPathValue::NewValue(j.clone()),
            JsonPathValue::NoValue => JsonPathValue::NoValue,
        }
    }
}

/// The values of the `Slice` results, in order.
pub open spec fn slice_datas(rs: Seq<JpvV>) -> Seq<Jv>
    decreases rs.len(),
{
    if rs.len() == 0 {
        Seq::empty()
    } else {
        (match rs[0] {
            JpvV::Slice(v, _) => seq![v],
            _ => Seq::empty(),
        }) + slice_datas(rs.drop_first())
    }
}

/// The value/path pairs of the `Slice` results, in order.
pub open spec fn slice_pairs(rs: Seq<JpvV>) -> Seq<(Jv, Seq<char>)>
    decreases rs.len(),
{
    if rs.len() == 0 {
        Seq::empty()
    } else {
        (match rs[0] {
            JpvV::Slice(v, p) => seq![(v, p)],
            _ => Seq::empty(),
        }) + slice_pairs(rs.drop_first())
    }
}

impl<'a> JsonPathValue<'a> {
    /// Turns the result into data, by cloning a matched node or moving a
    /// computed value out; the sentinel becomes `Null`.
    pub fn to_data(self) -> (r: Json)
        ensures
            r@ == self@.value(),
    {
        match self {
            JsonPathValue::Slice(v, _) => v.clone(),
            JsonPathValue::NewValue(j) => j,
            JsonPathValue::NoValue => Json::Null,
        }
    }

    /// The canonical path of a matched node; computed values and the
    /// sentinel have none.
    pub fn to_path(self) -> (r: Option<String>)
        ensures
            match self@ {
                JpvV::Slice(_, p) => r is Some && r->0@ == p,
                _ => r is None,
            },
    {
        match self {
            JsonPathValue::Slice(_, p) => Some(p),
            _ => None,
        }
    }

    /// The initial record of every evaluation: the root, addressed by `$`.
    pub fn from_root(data: &'a Json) -> (r: JsonPathValue<'a>)
        ensures
            r@ == JpvV::Slice(data@, seq!['$']),
    {
        let s = "$".to_owned();
        proof {
            reveal_strlit("$");
            assert(s@ =~= seq!['$']);
        }
        JsonPathValue::Slice(data, s)
    }

    /// A slice of the document with the path that addresses it.
    pub fn new_slice(data: &'a Json, path: String) -> (r: JsonPathValue<'a>)
        ensures
            r@ == JpvV::Slice(data@, path@),
    {
        JsonPathValue::Slice(data, path)
    }

    /// Everything but the `NoValue` sentinel carries a value.
    pub fn has_value(&self) -> (r: bool)
        ensures
            r == !(self@ is NoValue),
    {
        match self {
            JsonPathValue::NoValue => false,
            _ => true,
        }
    }

    /// The matched nodes alone, computed values and sentinels dropped.
    pub fn vec_as_data(input: Vec<JsonPathValue<'a>>) -> (r: Vec<&'a Json>)
        ensures
            refs_v(r@) == slice_datas(jpvs_v(input@)),
    {
        let ghost iv = jpvs_v(input@);
        let mut out: Vec<&'a Json> = Vec::new();
        proof {
            assert(iv.skip(0) =~= iv);
            assert(refs_v(out@) + slice_datas(iv.skip(0)) =~= slice_datas(
                iv,
            ));
        }
        let mut i: usize = 0;
        while i < input.len()
            invariant
                0 <= i <= input@.len(),
                iv == jpvs_v(input@),
                iv.len() == input@.len(),
                refs_v(out@) + slice_datas(iv.skip(i as int)) == slice_datas(
                    iv,
                ),
            decreases input@.len() - i,
        {
            let ghost out0 = out@;
            proof {
                assert(iv[i as int] == input@[i as int]@);
                assert(iv.skip(i as int)[0] == iv[i as int]);
                assert(iv.skip(i as int).drop_first() =~= iv.skip(i + 1));
            }
            match &input[i] {
                JsonPathValue::Slice(v, _) => {
                    out.push(*v);
                },
                _ => {},
            }
            proof {
                if out@.len() > out0.len() {
                    assert forall|k: int|
                        0 <= k < out@.len() implies refs_v(out@)[k] == (
                        refs_v(out0) + slice_datas(seq![iv[i as int]]))[k] by {
                        assert(refs_v(out@)[k] == out@[k]@);
                        if k < out0.len() {
                            assert(out@[k] == out0[k]);
                            assert(refs_v(out0)[k] == out0[k]@);
                        } else {
                            assert(seq![iv[i as int]].drop_first().len() == 0);
                            assert(slice_datas(seq![iv[i as int]].drop_first())
                                =~= Seq::<Jv>::empty());
                            assert(slice_datas(seq![iv[i as int]]) =~= (match iv[i as int] {
                                JpvV::Slice(v, _) => seq![v],
                                _ => Seq::<Jv>::empty(),
                            }));
                        }
                    }
                    assert(refs_v(out@) =~= refs_v(out0) + (match iv[i as int] {
                        JpvV::Slice(v, _) => seq![v],
                        _ => Seq::<Jv>::empty(),
                    }));
                    assert(refs_v(out@) + slice_datas(iv.skip(i + 1)) =~=
                        refs_v(out0) + slice_datas(iv.skip(i as int)));
                } else {
                    assert(refs_v(out@) =~= refs_v(out0));
                    assert(refs_v(out@) + slice_datas(iv.skip(i + 1)) =~=
                        refs_v(out0) + slice_datas(iv.skip(i as int)));
                }
            }
            i = i + 1;
        }
        proof {
            assert(iv.skip(i as int).len() == 0);
            assert(slice_datas(iv.skip(i as int)) =~= Seq::<Jv>::empty());
            assert(refs_v(out@) =~= slice_datas(iv));
        }
        out
    }

    /// The matched nodes with their canonical paths.
    pub fn vec_as_pair(input: Vec<JsonPathValue<'a>>) -> (r: Vec<(&'a Json, String)>)
        ensures
            pairs_v(r@) == slice_pairs(jpvs_v(input@)),
    {
        let ghost iv = jpvs_v(input@);
        let mut out: Vec<(&'a Json, String)> = Vec::new();
        proof {
            assert(iv.skip(0) =~= iv);
            assert(pairs_v(out@) + slice_pairs(iv.skip(0))
                =~= slice_pairs(iv));
        }
        let mut i: usize = 0;
        let mut rest = input;
        while i < rest.len()
            invariant
                0 <= i <= rest@.len(),
                iv == jpvs_v(rest@),
                iv.len() == rest@.len(),
                pairs_v(out@) + slice_pairs(
                    iv.skip(i as int),
                ) == slice_pairs(iv),
            decreases rest@.len() - i,
        {
            let ghost out0 = out@;
            proof {
                assert(iv[i as int] == rest@[i as int]@);
                assert(iv.skip(i as int)[0] == iv[i as int]);
                assert(iv.skip(i as int).drop_first() =~= iv.skip(i + 1));
            }
            match &rest[i] {
                JsonPathValue::Slice(v, p) => {
                    let c = p.clone();
                    out.push((*v, c));
                },
                _ => {},
            }
            proof {
                if out@.len() > out0.len() {
                    assert forall|k: int|
                        0 <= k < out@.len() implies pairs_v(out@)[k] == (pairs_v(out0) + slice_pairs(
                        seq![iv[i as int]],
                    ))[k] by {
                        assert(pairs_v(out@)[k] == (
                        out@[k].0@, out@[k].1@));
                        if k < out0.len() {
                            assert(out@[k] == out0[k]);
                            assert(pairs_v(out0)[k] == (
                            out0[k].0@, out0[k].1@));
                        } else {
                            assert(seq![iv[i as int]].drop_first().len() == 0);
                            assert(slice_pairs(seq![iv[i as int]].drop_first())
                                =~= Seq::<(Jv, Seq<char>)>::empty());
                            assert(slice_pairs(seq![iv[i as int]]) =~= (match iv[i as int] {
                                JpvV::Slice(v, p) => seq![(v, p)],
                                _ => Seq::<(Jv, Seq<char>)>::empty(),
                            }));
                        }
                    }
                    assert(pairs_v(out@) =~=
                        pairs_v(out0) + (
                    match iv[i as int] {
                        JpvV::Slice(v, p) => seq![(v, p)],
                        _ => Seq::<(Jv, Seq<char>)>::empty(),
                    }));
                    assert(pairs_v(out@) + slice_pairs(
                        iv.skip(i + 1),
                    ) =~= pairs_v(out0) + slice_pairs(
                        iv.skip(i as int),
                    ));
                } else {
                    assert(pairs_v(out@) =~=
                        pairs_v(out0));
                    assert(pairs_v(out@) + slice_pairs(
                        iv.skip(i + 1),
                    ) =~= pairs_v(out0) + slice_pairs(
                        iv.skip(i as int),
                    ));
                }
            }
            i = i + 1;
        }
        proof {
            assert(iv.skip(i as int).len() == 0);
            assert(slice_pairs(iv.skip(i as int)) =~= Seq::<(Jv, Seq<char>)>::empty());
            assert(pairs_v(out@) =~= slice_pairs(iv));
        }
        out
    }

    /// The matched node, or `default` for a computed value or the
    /// sentinel.
    pub fn slice_or(self, default: &'a Json) -> (r: &'a Json)
        ensures
            match self@ {
                JpvV::Slice(v, _) => r@ == v,
                _ => r == default,
            },
    {
        match self {
            JsonPathValue::Slice(v, _) => v,
            JsonPathValue::NewValue(_) => default,
            JsonPathValue::NoValue => default,
        }
    }
}

impl core::str::FromStr for JsonPathInst {
    type Err = crate::parser::JsonPathParserError;

    /// Compiles a path text; a text that deviates from the grammar or
    /// cannot be compiled is rejected. A std trait method carries no
    /// contract of its own: the exact acceptance, tree and error-kind
    /// guarantees live on [`crate::parser::parse_json_path`], which this
    /// forwards to unchanged.
    fn from_str(s: &str) -> Result<JsonPathInst, crate::parser::JsonPathParserError> {
        match crate::parser::parse_json_path(s) {
            Ok(p) => Ok(JsonPathInst { inner: p }),
            Err(e) => Err(e),
        }
    }
}

/// Determinism: evaluation is a function of the models of the document
/// and the compiled path, so repeated evaluation of the same query on the
/// same document yields identical ordered output. Together with the
/// `ensures` of [`find_slice`], [`find`] and [`find_as_path`], whose
/// results are exactly these functions of their arguments' models, two
/// runs can never differ.
pub proof fn lemma_determinism(root1: Jv, root2: Jv, p1: JsonPath, p2: JsonPath)
    requires
        root1 == root2,
        p1 == p2,
    ensures
        spec_find_slice(root1, p1) == spec_find_slice(root2, p2),
        spec_find(root1, p1) == spec_find(root2, p2),
        spec_find_as_path(root1, p1) == spec_find_as_path(root2, p2),
{
}

/// No-value semantics: `find` returns JSON `null` exactly when
/// `find_slice` returns the single `NoValue` sentinel.
pub proof fn lemma_no_value_semantics(root: Jv, path: JsonPath)
    ensures
        (spec_find(root, path) == Jv::Null) <==> (spec_find_slice(root, path) == seq![
            JpvV::NoValue,
        ]),
{
    let hv = crate::eval::s_find_slice(root, path.segs@);
    if hv == seq![RecV::NoV] {
        assert(render_all(hv) =~= seq![JpvV::NoValue]);
    } else {
        assert(!(spec_find(root, path) == Jv::Null));
        if render_all(hv) == seq![JpvV::NoValue] {
            assert(render_all(hv).len() == hv.len());
            assert(render_all(hv)[0] == rec_render(hv[0]));
            assert(hv[0] is NoV);
            assert(hv =~= seq![RecV::NoV]);
        }
    }
}

/// Ordering over arrays: the wildcard applied to an array node yields one
/// record per element, in index order, each extending the path by its
/// index.
pub proof fn lemma_wildcard_array_order(
    root: Jv,
    xs: Seq<Jv>,
    p: Seq<crate::paths::PathElemV>,
)
    ensures
        crate::eval::s_seg(root, crate::ast::Segment::Wildcard, RecV::Slice(Jv::Arr(xs), p)).len()
            == xs.len(),
        forall|i: int|
            0 <= i < xs.len() ==> crate::eval::s_seg(
                root,
                crate::ast::Segment::Wildcard,
                RecV::Slice(Jv::Arr(xs), p),
            )[i] == RecV::Slice(xs[i], p.push(crate::paths::PathElemV::Idx(i))),
{
    lemma_wild_arr_shape(xs, p, 0);
}

proof fn lemma_wild_arr_shape(xs: Seq<Jv>, p: Seq<crate::paths::PathElemV>, i: int)
    requires
        0 <= i <= xs.len(),
    ensures
        crate::eval::s_wild_arr(xs, p, i).len() == xs.len() - i,
        forall|k: int|
            i <= k < xs.len() ==> crate::eval::s_wild_arr(xs, p, i)[k - i] == RecV::Slice(
                xs[k],
                p.push(crate::paths::PathElemV::Idx(k)),
            ),
    decreases xs.len() - i,
{
    if i < xs.len() {
        lemma_wild_arr_shape(xs, p, i + 1);
        assert forall|k: int|
            i <= k < xs.len() implies crate::eval::s_wild_arr(xs, p, i)[k - i] == RecV::Slice(
            xs[k],
            p.push(crate::paths::PathElemV::Idx(k)),
        ) by {
            if k > i {
                assert(crate::eval::s_wild_arr(xs, p, i)[k - i] == crate::eval::s_wild_arr(
                    xs,
                    p,
                    i + 1,
                )[k - i - 1]);
            }
        }
    }
}

/// Ordering over objects: the wildcard applied to an object node yields
/// one record per member, in insertion order, each extending the path by
/// its key.
pub proof fn lemma_wildcard_object_order(
    root: Jv,
    es: Seq<(Seq<char>, Jv)>,
    p: Seq<crate::paths::PathElemV>,
)
    ensures
        crate::eval::s_seg(root, crate::ast::Segment::Wildcard, RecV::Slice(Jv::Obj(es), p)).len()
            == es.len(),
        forall|i: int|
            0 <= i < es.len() ==> crate::eval::s_seg(
                root,
                crate::ast::Segment::Wildcard,
                RecV::Slice(Jv::Obj(es), p),
            )[i] == RecV::Slice(es[i].1, p.push(crate::paths::PathElemV::Key(es[i].0))),
{
    lemma_wild_obj_shape(es, p, 0);
}

proof fn lemma_wild_obj_shape(es: Seq<(Seq<char>, Jv)>, p: Seq<crate::paths::PathElemV>, i: int)
    requires
        0 <= i <= es.len(),
    ensures
        crate::eval::s_wild_obj(es, p, i).len() == es.len() - i,
        forall|k: int|
            i <= k < es.len() ==> crate::eval::s_wild_obj(es, p, i)[k - i] == RecV::Slice(
                es[k].1,
                p.push(crate::paths::PathElemV::Key(es[k].0)),
            ),
    decreases es.len() - i,
{
    if i < es.len() {
        lemma_wild_obj_shape(es, p, i + 1);
        assert forall|k: int|
            i <= k < es.len() implies crate::eval::s_wild_obj(es, p, i)[k - i] == RecV::Slice(
            es[k].1,
            p.push(crate::paths::PathElemV::Key(es[k].0)),
        ) by {
            if k > i {
                assert(crate::eval::s_wild_obj(es, p, i)[k - i] == crate::eval::s_wild_obj(
                    es,
                    p,
                    i + 1,
                )[k - i - 1]);
            }
        }
    }
}

/// A list of records that all carry values is kept whole.
proof fn lemma_keep_all(rs: Seq<RecV>)
    requires
        forall|i: int| 0 <= i < rs.len() ==> (#[trigger] rs[i]).has_value(),
    ensures
        keep_values(rs) == rs,
    decreases rs.len(),
{
    if rs.len() > 0 {
        assert forall|i: int|
            0 <= i < rs.drop_first().len() implies (#[trigger] rs.drop_first()[i]).has_value() by {
            assert(rs.drop_first()[i] == rs[i + 1]);
        }
        lemma_keep_all(rs.drop_first());
        assert(keep_values(rs) =~= rs);
    } else {
        assert(keep_values(rs) =~= rs);
    }
}

/// Ordering at the public surface: a path that selects all elements of an
/// array member (`Root`, a member, the wildcard) finds every element, in
/// index order, one match each, under the paths `[member][0]`,
/// `[member][1]`, ... With an empty array the result is the lone
/// `NoValue` sentinel instead.
pub proof fn lemma_member_array_wildcard_order(
    root: Jv,
    path: JsonPath,
    name: String,
    es: Seq<(Seq<char>, Jv)>,
    xs: Seq<Jv>,
)
    requires
        path.segs@ == seq![
            crate::ast::Segment::Root,
            crate::ast::Segment::Field(name),
            crate::ast::Segment::Wildcard,
        ],
        root == Jv::Obj(es),
        crate::json::obj_get(es, name@) == Some(Jv::Arr(xs)),
        xs.len() >= 1,
    ensures
        spec_find_slice(root, path).len() == xs.len(),
        forall|i: int|
            0 <= i < xs.len() ==> spec_find_slice(root, path)[i] == JpvV::Slice(
                xs[i],
                spec_render(
                    seq![
                        crate::paths::PathElemV::Key(name@),
                        crate::paths::PathElemV::Idx(i),
                    ],
                ),
            ),
{
    let segs = path.segs@;
    let p0 = Seq::<crate::paths::PathElemV>::empty();
    let r0 = RecV::Slice(root, p0);
    let p1 = p0.push(crate::paths::PathElemV::Key(name@));
    // Root
    assert(crate::eval::s_seg(root, segs[0], r0) =~= seq![r0]);
    assert(crate::eval::s_seg_all(root, segs[0], seq![r0], 1) =~= Seq::<RecV>::empty());
    assert(crate::eval::s_seg_all(root, segs[0], seq![r0], 0) =~= seq![r0] + Seq::<
        RecV,
    >::empty());
    assert(crate::eval::s_seg_all(root, segs[0], seq![r0], 0) =~= seq![r0]);
    let segs1 = segs.drop_first();
    assert(segs1 =~= seq![crate::ast::Segment::Field(name), crate::ast::Segment::Wildcard]);
    // Field(name)
    let r1 = RecV::Slice(Jv::Arr(xs), p1);
    assert(crate::eval::s_seg(root, segs1[0], r0) =~= seq![r1]);
    assert(crate::eval::s_seg_all(root, segs1[0], seq![r0], 1) =~= Seq::<RecV>::empty());
    assert(crate::eval::s_seg_all(root, segs1[0], seq![r0], 0) =~= seq![r1] + Seq::<
        RecV,
    >::empty());
    assert(crate::eval::s_seg_all(root, segs1[0], seq![r0], 0) =~= seq![r1]);
    let segs2 = segs1.drop_first();
    assert(segs2 =~= seq![crate::ast::Segment::Wildcard]);
    // Wildcard
    lemma_wild_arr_shape(xs, p1, 0);
    let ws = crate::eval::s_seg(root, segs2[0], r1);
    assert(ws == crate::eval::s_wild_arr(xs, p1, 0));
    assert(crate::eval::s_seg_all(root, segs2[0], seq![r1], 1) =~= Seq::<RecV>::empty());
    assert(crate::eval::s_seg_all(root, segs2[0], seq![r1], 0) =~= ws + Seq::<RecV>::empty());
    assert(crate::eval::s_seg_all(root, segs2[0], seq![r1], 0) =~= ws);
    let segs3 = segs2.drop_first();
    assert(segs3.len() == 0);
    assert(crate::eval::s_find(root, segs3, ws, true) == ws);
    assert(crate::eval::s_find(root, segs2, seq![r1], false) == ws);
    assert(crate::eval::s_find(root, segs1, seq![r0], false) == ws);
    assert(crate::eval::s_find(root, segs, seq![r0], false) == ws);
    assert(crate::eval::s_eval(root, segs) == ws);
    assert forall|i: int| 0 <= i < ws.len() implies (#[trigger] ws[i]).has_value() by {
        assert(ws[i] == RecV::Slice(xs[i], p1.push(crate::paths::PathElemV::Idx(i))));
    }
    lemma_keep_all(ws);
    assert(keep_values(crate::eval::s_eval(root, segs)).len() == xs.len());
    assert forall|i: int|
        0 <= i < xs.len() implies spec_find_slice(root, path)[i] == JpvV::Slice(
        xs[i],
        spec_render(
            seq![crate::paths::PathElemV::Key(name@), crate::paths::PathElemV::Idx(i)],
        ),
    ) by {
        assert(ws[i] == RecV::Slice(xs[i], p1.push(crate::paths::PathElemV::Idx(i))));
        assert(spec_find_slice(root, path)[i] == rec_render(ws[i]));
        assert(p1.push(crate::paths::PathElemV::Idx(i)) =~= seq![
            crate::paths::PathElemV::Key(name@),
            crate::paths::PathElemV::Idx(i),
        ]);
    }
}

/// Ordering at the public surface: a path that selects all members of an
/// object member (`Root`, a member, the wildcard) finds every member
/// value, in the object's insertion order, one match each, under the
/// paths `[member][key]`. With an empty object the result is the lone
/// `NoValue` sentinel instead.
pub proof fn lemma_member_object_wildcard_order(
    root: Jv,
    path: JsonPath,
    name: String,
    es: Seq<(Seq<char>, Jv)>,
    ms: Seq<(Seq<char>, Jv)>,
)
    requires
        path.segs@ == seq![
            crate::ast::Segment::Root,
            crate::ast::Segment::Field(name),
            crate::ast::Segment::Wildcard,
        ],
        root == Jv::Obj(es),
        crate::json::obj_get(es, name@) == Some(Jv::Obj(ms)),
        ms.len() >= 1,
    ensures
        spec_find_slice(root, path).len() == ms.len(),
        forall|i: int|
            0 <= i < ms.len() ==> spec_find_slice(root, path)[i] == JpvV::Slice(
                ms[i].1,
                spec_render(
                    seq![
                        crate::paths::PathElemV::Key(name@),
                        crate::paths::PathElemV::Key(ms[i].0),
                    ],
                ),
            ),
{
    let segs = path.segs@;
    let p0 = Seq::<crate::paths::PathElemV>::empty();
    let r0 = RecV::Slice(root, p0);
    let p1 = p0.push(crate::paths::PathElemV::Key(name@));
    assert(crate::eval::s_seg(root, segs[0], r0) =~= seq![r0]);
    assert(crate::eval::s_seg_all(root, segs[0], seq![r0], 1) =~= Seq::<RecV>::empty());
    assert(crate::eval::s_seg_all(root, segs[0], seq![r0], 0) =~= seq![r0] + Seq::<
        RecV,
    >::empty());
    assert(crate::eval::s_seg_all(root, segs[0], seq![r0], 0) =~= seq![r0]);
    let segs1 = segs.drop_first();
    assert(segs1 =~= seq![crate::ast::Segment::Field(name), crate::ast::Segment::Wildcard]);
    let r1 = RecV::Slice(Jv::Obj(ms), p1);
    assert(crate::eval::s_seg(root, segs1[0], r0) =~= seq![r1]);
    assert(crate::eval::s_seg_all(root, segs1[0], seq![r0], 1) =~= Seq::<RecV>::empty());
    assert(crate::eval::s_seg_all(root, segs1[0], seq![r0], 0) =~= seq![r1] + Seq::<
        RecV,
    >::empty());
    assert(crate::eval::s_seg_all(root, segs1[0], seq![r0], 0) =~= seq![r1]);
    let segs2 = segs1.drop_first();
    assert(segs2 =~= seq![crate::ast::Segment::Wildcard]);
    lemma_wild_obj_shape(ms, p1, 0);
    let ws = crate::eval::s_seg(root, segs2[0], r1);
    assert(ws == crate::eval::s_wild_obj(ms, p1, 0));
    assert(crate::eval::s_seg_all(root, segs2[0], seq![r1], 1) =~= Seq::<RecV>::empty());
    assert(crate::eval::s_seg_all(root, segs2[0], seq![r1], 0) =~= ws + Seq::<RecV>::empty());
    assert(crate::eval::s_seg_all(root, segs2[0], seq![r1], 0) =~= ws);
    let segs3 = segs2.drop_first();
    assert(segs3.len() == 0);
    assert(crate::eval::s_find(root, segs3, ws, true) == ws);
    assert(crate::eval::s_find(root, segs2, seq![r1], false) == ws);
    assert(crate::eval::s_find(root, segs1, seq![r0], false) == ws);
    assert(crate::eval::s_find(root, segs, seq![r0], false) == ws);
    assert(crate::eval::s_eval(root, segs) == ws);
    assert forall|i: int| 0 <= i < ws.len() implies (#[trigger] ws[i]).has_value() by {
        assert(ws[i] == RecV::Slice(ms[i].1, p1.push(crate::paths::PathElemV::Key(ms[i].0))));
    }
    lemma_keep_all(ws);
    assert(keep_values(crate::eval::s_eval(root, segs)).len() == ms.len());
    assert forall|i: int|
        0 <= i < ms.len() implies spec_find_slice(root, path)[i] == JpvV::Slice(
        ms[i].1,
        spec_render(
            seq![crate::paths::PathElemV::Key(name@), crate::paths::PathElemV::Key(ms[i].0)],
        ),
    ) by {
        assert(ws[i] == RecV::Slice(ms[i].1, p1.push(crate::paths::PathElemV::Key(ms[i].0))));
        assert(spec_find_slice(root, path)[i] == rec_render(ws[i]));
        assert(p1.push(crate::paths::PathElemV::Key(ms[i].0)) =~= seq![
            crate::paths::PathElemV::Key(name@),
            crate::paths::PathElemV::Key(ms[i].0),
        ]);
    }
}

} // verus!
