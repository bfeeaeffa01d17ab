//! Path faithfulness: every match that evaluation yields carries a path
//! that, resolved against the document root by literal segment
//! application, finds exactly the matched node.
use vstd::prelude::*;
use crate::ast::Segment;
use crate::eval::{
    keep_values, s_descent, s_descent_arr, s_descent_obj, s_desc_recs, s_dfield_filter, s_fields,
    s_filter_arr, s_find, s_find_slice, s_indices, s_len_map, s_len_rec, s_length_all, s_seg,
    s_seg_all, s_slice_elems, s_wild_arr, s_wild_obj, RecV,
};
use crate::json::{obj_get, Jv};
use crate::paths::{resolve, PathElemV};

verus! {

/// A record is faithful when its path resolves to its value.
pub open spec fn rec_ok(root: Jv, r: RecV) -> bool {
    match r {
        RecV::Slice(v, p) => resolve(root, p) == Some(v),
        _ => true,
    }
}

/// Every record of the list is faithful.
pub open spec fn recs_ok(root: Jv, rs: Seq<RecV>) -> bool {
    forall|i: int| 0 <= i < rs.len() ==> rec_ok(root, #[trigger] rs[i])
}

/// A descent pair is faithful in the same sense.
pub open spec fn pair_ok(root: Jv, d: (Jv, Seq<PathElemV>)) -> bool {
    resolve(root, d.1) == Some(d.0)
}

pub open spec fn pairs_ok(root: Jv, ds: Seq<(Jv, Seq<PathElemV>)>) -> bool {
    forall|i: int| 0 <= i < ds.len() ==> pair_ok(root, #[trigger] ds[i])
}

/// Resolving one more step: from the node at `p`, a present member or an
/// in-bounds element is the node at the extended path.
proof fn lemma_resolve_push(root: Jv, p: Seq<PathElemV>, v: Jv, e: PathElemV, c: Jv)
    requires
        resolve(root, p) == Some(v),
        (match (e, v) {
            (PathElemV::Key(k), Jv::Obj(es)) => obj_get(es, k) == Some(c),
            (PathElemV::Idx(i), Jv::Arr(xs)) => 0 <= i < xs.len() && xs[i] == c,
            _ => false,
        }),
    ensures
        resolve(root, p.push(e)) == Some(c),
    decreases p.len(),
{
    if p.len() == 0 {
        assert(root == v);
        assert(p.push(e)[0] == e);
        assert(p.push(e).drop_first() =~= Seq::<PathElemV>::empty());
        match (e, v) {
            (PathElemV::Key(k), Jv::Obj(es)) => {
                assert(resolve(c, p.push(e).drop_first()) == Some(c));
                assert(resolve(root, p.push(e)) == Some(c));
            },
            (PathElemV::Idx(i), Jv::Arr(xs)) => {
                assert(resolve(c, p.push(e).drop_first()) == Some(c));
                assert(resolve(root, p.push(e)) == Some(c));
            },
            _ => {
                assert(false);
            },
        }
    } else {
        assert(p.push(e)[0] == p[0]);
        assert(p.push(e).drop_first() =~= p.drop_first().push(e));
        match (p[0], root) {
            (PathElemV::Key(k), Jv::Obj(es)) => {
                match obj_get(es, k) {
                    Some(c0) => {
                        lemma_resolve_push(c0, p.drop_first(), v, e, c);
                        assert(resolve(root, p.push(e)) == resolve(c0, p.push(e).drop_first()));
                    },
                    None => {
                        assert(false);
                    },
                }
            },
            (PathElemV::Idx(i), Jv::Arr(xs)) => {
                assert(0 <= i < xs.len());
                lemma_resolve_push(xs[i], p.drop_first(), v, e, c);
                assert(resolve(root, p.push(e)) == resolve(xs[i], p.push(e).drop_first()));
            },
            _ => {
                assert(false);
            },
        }
    }
}

/// Faithfulness survives concatenation.
proof fn lemma_recs_ok_concat(root: Jv, a: Seq<RecV>, b: Seq<RecV>)
    requires
        recs_ok(root, a),
        recs_ok(root, b),
    ensures
        recs_ok(root, a + b),
{
    assert forall|i: int| 0 <= i < (a + b).len() implies rec_ok(root, #[trigger] (a + b)[i]) by {
        if i < a.len() {
            assert((a + b)[i] == a[i]);
        } else {
            assert((a + b)[i] == b[i - a.len()]);
        }
    }
}

proof fn lemma_fields_ok(
    root: Jv,
    v: Jv,
    es: Seq<(Seq<char>, Jv)>,
    names: Seq<Seq<char>>,
    p: Seq<PathElemV>,
    i: int,
)
    requires
        v == Jv::Obj(es),
        resolve(root, p) == Some(v),
    ensures
        recs_ok(root, s_fields(es, names, p, i)),
    decreases names.len() - i,
{
    if 0 <= i < names.len() {
        lemma_fields_ok(root, v, es, names, p, i + 1);
        match obj_get(es, names[i]) {
            Some(c) => {
                lemma_resolve_push(root, p, v, PathElemV::Key(names[i]), c);
                lemma_recs_ok_concat(
                    root,
                    seq![RecV::Slice(c, p.push(PathElemV::Key(names[i])))],
                    s_fields(es, names, p, i + 1),
                );
            },
            None => {
                lemma_recs_ok_concat(root, Seq::empty(), s_fields(es, names, p, i + 1));
            },
        }
    }
}

proof fn lemma_indices_ok(
    root: Jv,
    v: Jv,
    xs: Seq<Jv>,
    idxs: Seq<int>,
    p: Seq<PathElemV>,
    i: int,
)
    requires
        v == Jv::Arr(xs),
        resolve(root, p) == Some(v),
    ensures
        recs_ok(root, s_indices(xs, idxs, p, i)),
    decreases idxs.len() - i,
{
    if 0 <= i < idxs.len() {
        lemma_indices_ok(root, v, xs, idxs, p, i + 1);
        if 0 <= idxs[i] < xs.len() {
            lemma_resolve_push(root, p, v, PathElemV::Idx(idxs[i]), xs[idxs[i]]);
            lemma_recs_ok_concat(
                root,
                seq![RecV::Slice(xs[idxs[i]], p.push(PathElemV::Idx(idxs[i])))],
                s_indices(xs, idxs, p, i + 1),
            );
        } else {
            lemma_recs_ok_concat(root, Seq::empty(), s_indices(xs, idxs, p, i + 1));
        }
    }
}

proof fn lemma_slice_ok(
    root: Jv,
    v: Jv,
    xs: Seq<Jv>,
    p: Seq<PathElemV>,
    from: int,
    upto: int,
    step: int,
)
    requires
        v == Jv::Arr(xs),
        resolve(root, p) == Some(v),
    ensures
        recs_ok(root, s_slice_elems(xs, p, from, upto, step)),
    decreases upto - from,
{
    if step >= 1 && 0 <= from < upto <= xs.len() {
        let next = if from + step > upto {
            upto
        } else {
            from + step
        };
        lemma_slice_ok(root, v, xs, p, next, upto, step);
        lemma_resolve_push(root, p, v, PathElemV::Idx(from), xs[from]);
        lemma_recs_ok_concat(
            root,
            seq![RecV::Slice(xs[from], p.push(PathElemV::Idx(from)))],
            s_slice_elems(xs, p, next, upto, step),
        );
    }
}

proof fn lemma_wild_arr_ok(root: Jv, v: Jv, xs: Seq<Jv>, p: Seq<PathElemV>, i: int)
    requires
        v == Jv::Arr(xs),
        resolve(root, p) == Some(v),
    ensures
        recs_ok(root, s_wild_arr(xs, p, i)),
    decreases xs.len() - i,
{
    if 0 <= i < xs.len() {
        lemma_wild_arr_ok(root, v, xs, p, i + 1);
        lemma_resolve_push(root, p, v, PathElemV::Idx(i), xs[i]);
        lemma_recs_ok_concat(
            root,
            seq![RecV::Slice(xs[i], p.push(PathElemV::Idx(i)))],
            s_wild_arr(xs, p, i + 1),
        );
    }
}

proof fn lemma_wild_obj_ok(
    root: Jv,
    v: Jv,
    es: Seq<(Seq<char>, Jv)>,
    p: Seq<PathElemV>,
    i: int,
)
    requires
        v == Jv::Obj(es),
        resolve(root, p) == Some(v),
        forall|a: int, b: int| #![trigger es[a], es[b]]
            0 <= a < b < es.len() ==> es[a].0 != es[b].0,
    ensures
        recs_ok(root, s_wild_obj(es, p, i)),
    decreases es.len() - i,
{
    if 0 <= i < es.len() {
        lemma_wild_obj_ok(root, v, es, p, i + 1);
        lemma_obj_get_at(es, i);
        lemma_resolve_push(root, p, v, PathElemV::Key(es[i].0), es[i].1);
        lemma_recs_ok_concat(
            root,
            seq![RecV::Slice(es[i].1, p.push(PathElemV::Key(es[i].0)))],
            s_wild_obj(es, p, i + 1),
        );
    }
}

/// With keys unique, looking an entry's key up finds that entry.
proof fn lemma_obj_get_at(es: Seq<(Seq<char>, Jv)>, i: int)
    requires
        0 <= i < es.len(),
        forall|a: int, b: int| #![trigger es[a], es[b]]
            0 <= a < b < es.len() ==> es[a].0 != es[b].0,
    ensures
        obj_get(es, es[i].0) == Some(es[i].1),
    decreases i,
{
    if i == 0 {
    } else {
        assert(es[0].0 != es[i].0);
        assert(es.drop_first()[i - 1] == es[i]);
        assert forall|a: int, b: int|
            0 <= a < b < es.drop_first().len() implies es.drop_first()[a].0 != es.drop_first()[b].0
        by {
            assert(es.drop_first()[a] == es[a + 1]);
            assert(es.drop_first()[b] == es[b + 1]);
        }
        lemma_obj_get_at(es.drop_first(), i - 1);
    }
}

/// Whether every object in the value has pairwise distinct keys.
pub open spec fn keys_unique(v: Jv) -> bool
    decreases v, 0int,
{
    match v {
        Jv::Arr(xs) => forall|i: int| 0 <= i < xs.len() ==> keys_unique(#[trigger] xs[i]),
        Jv::Obj(es) => (forall|a: int, b: int| #![trigger es[a], es[b]]
            0 <= a < b < es.len() ==> es[a].0 != es[b].0) && (forall|i: int|
            0 <= i < es.len() ==> keys_unique(#[trigger] es[i].1)),
        _ => true,
    }
}

proof fn lemma_descent_ok(root: Jv, v: Jv, p: Seq<PathElemV>)
    requires
        resolve(root, p) == Some(v),
        keys_unique(v),
    ensures
        pairs_ok(root, s_descent(v, p)),
    decreases v, 0int,
{
    match v {
        Jv::Arr(xs) => {
            lemma_descent_arr_ok(root, v, xs, p, 0);
            lemma_pairs_ok_concat(root, seq![(v, p)], s_descent_arr(xs, p, 0));
        },
        Jv::Obj(es) => {
            lemma_descent_obj_ok(root, v, es, p, 0);
            lemma_pairs_ok_concat(root, seq![(v, p)], s_descent_obj(es, p, 0));
        },
        _ => {
            assert(s_descent(v, p) =~= seq![(v, p)] + Seq::<(Jv, Seq<PathElemV>)>::empty());
        },
    }
}

proof fn lemma_pairs_ok_concat(
    root: Jv,
    a: Seq<(Jv, Seq<PathElemV>)>,
    b: Seq<(Jv, Seq<PathElemV>)>,
)
    requires
        pairs_ok(root, a),
        pairs_ok(root, b),
    ensures
        pairs_ok(root, a + b),
{
    assert forall|i: int| 0 <= i < (a + b).len() implies pair_ok(root, #[trigger] (a + b)[i]) by {
        if i < a.len() {
            assert((a + b)[i] == a[i]);
        } else {
            assert((a + b)[i] == b[i - a.len()]);
        }
    }
}

proof fn lemma_descent_arr_ok(root: Jv, v: Jv, xs: Seq<Jv>, p: Seq<PathElemV>, i: int)
    requires
        v == Jv::Arr(xs),
        resolve(root, p) == Some(v),
        keys_unique(v),
    ensures
        pairs_ok(root, s_descent_arr(xs, p, i)),
    decreases xs, xs.len() - i + 1,
{
    if 0 <= i < xs.len() {
        lemma_resolve_push(root, p, v, PathElemV::Idx(i), xs[i]);
        assert(keys_unique(xs[i]));
        lemma_descent_ok(root, xs[i], p.push(PathElemV::Idx(i)));
        lemma_descent_arr_ok(root, v, xs, p, i + 1);
        lemma_pairs_ok_concat(
            root,
            s_descent(xs[i], p.push(PathElemV::Idx(i))),
            s_descent_arr(xs, p, i + 1),
        );
    }
}

proof fn lemma_descent_obj_ok(
    root: Jv,
    v: Jv,
    es: Seq<(Seq<char>, Jv)>,
    p: Seq<PathElemV>,
    i: int,
)
    requires
        v == Jv::Obj(es),
        resolve(root, p) == Some(v),
        keys_unique(v),
    ensures
        pairs_ok(root, s_descent_obj(es, p, i)),
    decreases es, es.len() - i + 1,
{
    if 0 <= i < es.len() {
        assert(v->Obj_0 == es);
        assert(forall|a: int, b: int| #![trigger es[a], es[b]]
            0 <= a < b < es.len() ==> es[a].0 != es[b].0);
        lemma_obj_get_at(es, i);
        lemma_resolve_push(root, p, v, PathElemV::Key(es[i].0), es[i].1);
        assert(keys_unique(es[i].1));
        lemma_descent_ok(root, es[i].1, p.push(PathElemV::Key(es[i].0)));
        lemma_descent_obj_ok(root, v, es, p, i + 1);
        lemma_pairs_ok_concat(
            root,
            s_descent(es[i].1, p.push(PathElemV::Key(es[i].0))),
            s_descent_obj(es, p, i + 1),
        );
    }
}

proof fn lemma_dfield_ok(root: Jv, ds: Seq<(Jv, Seq<PathElemV>)>, k: Seq<char>)
    requires
        pairs_ok(root, ds),
    ensures
        recs_ok(root, s_dfield_filter(ds, k)),
    decreases ds.len(),
{
    if ds.len() > 0 {
        assert(pair_ok(root, ds[0]));
        assert forall|i: int|
            0 <= i < ds.drop_first().len() implies pair_ok(root, #[trigger] ds.drop_first()[i]) by {
            assert(ds.drop_first()[i] == ds[i + 1]);
        }
        lemma_dfield_ok(root, ds.drop_first(), k);
        match ds[0].0 {
            Jv::Obj(es) => {
                match obj_get(es, k) {
                    Some(c) => {
                        lemma_resolve_push(root, ds[0].1, ds[0].0, PathElemV::Key(k), c);
                        lemma_recs_ok_concat(
                            root,
                            seq![RecV::Slice(c, ds[0].1.push(PathElemV::Key(k)))],
                            s_dfield_filter(ds.drop_first(), k),
                        );
                    },
                    None => {
                        lemma_recs_ok_concat(
                            root,
                            Seq::empty(),
                            s_dfield_filter(ds.drop_first(), k),
                        );
                    },
                }
            },
            _ => {
                lemma_recs_ok_concat(root, Seq::empty(), s_dfield_filter(ds.drop_first(), k));
            },
        }
    }
}

proof fn lemma_filter_arr_ok(
    root: Jv,
    v: Jv,
    e: crate::ast::FilterExpr,
    xs: Seq<Jv>,
    p: Seq<PathElemV>,
    i: int,
)
    requires
        v == Jv::Arr(xs),
        resolve(root, p) == Some(v),
    ensures
        recs_ok(root, s_filter_arr(root, e, xs, p, i)),
    decreases xs.len() - i,
{
    if 0 <= i < xs.len() {
        lemma_filter_arr_ok(root, v, e, xs, p, i + 1);
        if crate::eval::s_filter(root, e, xs[i]) {
            lemma_resolve_push(root, p, v, PathElemV::Idx(i), xs[i]);
            lemma_recs_ok_concat(
                root,
                seq![RecV::Slice(xs[i], p.push(PathElemV::Idx(i)))],
                s_filter_arr(root, e, xs, p, i + 1),
            );
        } else {
            lemma_recs_ok_concat(root, Seq::empty(), s_filter_arr(root, e, xs, p, i + 1));
        }
    }
}

proof fn lemma_pairs_to_recs_ok(root: Jv, ds: Seq<(Jv, Seq<PathElemV>)>)
    requires
        pairs_ok(root, ds),
    ensures
        recs_ok(root, s_desc_recs(ds)),
{
    assert forall|i: int|
        0 <= i < s_desc_recs(ds).len() implies rec_ok(root, #[trigger] s_desc_recs(ds)[i]) by {
        assert(s_desc_recs(ds)[i] == RecV::Slice(ds[i].0, ds[i].1));
        assert(pair_ok(root, ds[i]));
    }
}

/// One segment preserves faithfulness: from a faithful input record,
/// every output record is faithful.
proof fn lemma_seg_ok(root: Jv, seg: Segment, rec: RecV)
    requires
        rec_ok(root, rec),
        rec matches RecV::Slice(v, _) ==> keys_unique(v),
        keys_unique(root),
    ensures
        recs_ok(root, s_seg(root, seg, rec)),
{
    match rec {
        RecV::NoV => {},
        RecV::New(_) => {},
        RecV::Slice(v, p) => {
            match seg {
                Segment::Root => {},
                Segment::Current => {},
                Segment::Field(name) => {
                    match v {
                        Jv::Obj(es) => {
                            match obj_get(es, name@) {
                                Some(c) => {
                                    lemma_resolve_push(root, p, v, PathElemV::Key(name@), c);
                                },
                                None => {},
                            }
                        },
                        _ => {},
                    }
                },
                Segment::Fields(names) => {
                    match v {
                        Jv::Obj(es) => {
                            lemma_fields_ok(
                                root,
                                v,
                                es,
                                names@.map_values(|s: String| s@),
                                p,
                                0,
                            );
                        },
                        _ => {},
                    }
                },
                Segment::Index(n) => {
                    match v {
                        Jv::Arr(xs) => {
                            if 0 <= n < xs.len() {
                                lemma_resolve_push(
                                    root,
                                    p,
                                    v,
                                    PathElemV::Idx(n as int),
                                    xs[n as int],
                                );
                            }
                        },
                        _ => {},
                    }
                },
                Segment::Indices(list) => {
                    match v {
                        Jv::Arr(xs) => {
                            lemma_indices_ok(
                                root,
                                v,
                                xs,
                                list@.map_values(|x: i64| x as int),
                                p,
                                0,
                            );
                        },
                        _ => {},
                    }
                },
                Segment::Slice { start, end, step } => {
                    match v {
                        Jv::Arr(xs) => {
                            let a = crate::eval::clamp_idx(
                                xs.len() as int,
                                match start {
                                    Some(s) => s as int,
                                    None => 0,
                                },
                            );
                            let b = crate::eval::clamp_idx(
                                xs.len() as int,
                                match end {
                                    Some(e) => e as int,
                                    None => xs.len() as int,
                                },
                            );
                            lemma_slice_ok(root, v, xs, p, a, b, step as int);
                        },
                        _ => {},
                    }
                },
                Segment::Wildcard => {
                    match v {
                        Jv::Arr(xs) => {
                            lemma_wild_arr_ok(root, v, xs, p, 0);
                        },
                        Jv::Obj(es) => {
                            lemma_wild_obj_ok(root, v, es, p, 0);
                        },
                        _ => {},
                    }
                },
                Segment::Descent => {
                    lemma_descent_ok(root, v, p);
                    lemma_pairs_to_recs_ok(root, s_descent(v, p));
                },
                Segment::DescentField(name) => {
                    lemma_descent_ok(root, v, p);
                    lemma_dfield_ok(root, s_descent(v, p), name@);
                },
                Segment::Filter(e) => {
                    match v {
                        Jv::Arr(xs) => {
                            lemma_filter_arr_ok(root, v, e, xs, p, 0);
                        },
                        _ => {},
                    }
                },
                Segment::Func(f) => {},
            }
        },
    }
}

/// Faithful slices stay within values with unique keys: the invariant
/// that every node a faithful record points to is a sub-node of the root.
proof fn lemma_resolve_keys_unique(root: Jv, p: Seq<PathElemV>, v: Jv)
    requires
        keys_unique(root),
        resolve(root, p) == Some(v),
    ensures
        keys_unique(v),
    decreases p.len(),
{
    if p.len() == 0 {
    } else {
        match (p[0], root) {
            (PathElemV::Key(k), Jv::Obj(es)) => {
                match obj_get(es, k) {
                    Some(c0) => {
                        lemma_obj_get_member(es, k, c0);
                        lemma_resolve_keys_unique(c0, p.drop_first(), v);
                    },
                    None => {
                        assert(false);
                    },
                }
            },
            (PathElemV::Idx(i), Jv::Arr(xs)) => {
                assert(0 <= i < xs.len());
                assert(keys_unique(xs[i]));
                lemma_resolve_keys_unique(xs[i], p.drop_first(), v);
            },
            _ => {
                assert(false);
            },
        }
    }
}

/// A member found by key is one of the entries' values.
proof fn lemma_obj_get_member(es: Seq<(Seq<char>, Jv)>, k: Seq<char>, c: Jv)
    requires
        obj_get(es, k) == Some(c),
        forall|i: int| 0 <= i < es.len() ==> keys_unique(#[trigger] es[i].1),
    ensures
        keys_unique(c),
    decreases es.len(),
{
    if es.len() > 0 {
        if es[0].0 == k {
            assert(c == es[0].1);
        } else {
            assert forall|i: int|
                0 <= i < es.drop_first().len() implies keys_unique(
                #[trigger] es.drop_first()[i].1,
            ) by {
                assert(es.drop_first()[i] == es[i + 1]);
            }
            lemma_obj_get_member(es.drop_first(), k, c);
        }
    }
}

proof fn lemma_seg_all_ok(root: Jv, seg: Segment, rs: Seq<RecV>, i: int)
    requires
        recs_ok(root, rs),
        keys_unique(root),
    ensures
        recs_ok(root, s_seg_all(root, seg, rs, i)),
    decreases rs.len() - i,
{
    if 0 <= i < rs.len() {
        assert(rec_ok(root, rs[i]));
        match rs[i] {
            RecV::Slice(v, p) => {
                lemma_resolve_keys_unique(root, p, v);
            },
            _ => {},
        }
        lemma_seg_ok(root, seg, rs[i]);
        lemma_seg_all_ok(root, seg, rs, i + 1);
        lemma_recs_ok_concat(root, s_seg(root, seg, rs[i]), s_seg_all(root, seg, rs, i + 1));
    }
}

proof fn lemma_len_map_ok(root: Jv, rs: Seq<RecV>, i: int)
    ensures
        recs_ok(root, s_len_map(rs, i)),
    decreases rs.len() - i,
{
    if 0 <= i < rs.len() {
        lemma_len_map_ok(root, rs, i + 1);
        lemma_recs_ok_concat(root, s_len_rec(rs[i]), s_len_map(rs, i + 1));
    }
}

proof fn lemma_find_ok(root: Jv, segs: Seq<Segment>, rs: Seq<RecV>, search: bool)
    requires
        recs_ok(root, rs),
        keys_unique(root),
    ensures
        recs_ok(root, s_find(root, segs, rs, search)),
    decreases segs.len(),
{
    if segs.len() > 0 {
        let seg = segs[0];
        let next = if seg is Func && search {
            s_length_all(rs)
        } else {
            s_seg_all(root, seg, rs, 0)
        };
        if seg is Func && search {
            lemma_len_map_ok(root, rs, 0);
            assert(recs_ok(root, next));
        } else {
            lemma_seg_all_ok(root, seg, rs, 0);
        }
        lemma_find_ok(root, segs.drop_first(), next, seg is Filter || seg is Wildcard);
    }
}

/// The kept records are among the originals.
proof fn lemma_keep_ok(root: Jv, rs: Seq<RecV>)
    requires
        recs_ok(root, rs),
    ensures
        recs_ok(root, keep_values(rs)),
    decreases rs.len(),
{
    if rs.len() > 0 {
        assert forall|i: int|
            0 <= i < rs.drop_first().len() implies rec_ok(root, #[trigger] rs.drop_first()[i]) by {
            assert(rs.drop_first()[i] == rs[i + 1]);
        }
        lemma_keep_ok(root, rs.drop_first());
        if !(rs[0] is NoV) {
            lemma_recs_ok_concat(root, seq![rs[0]], keep_values(rs.drop_first()));
        }
    }
}

/// Path faithfulness: for every `Slice(v, p)` in the result of
/// `find_slice`, resolving `p` against the document root by literal
/// segment application yields exactly `v`. The document's objects are
/// assumed to carry pairwise distinct keys, as JSON objects do.
pub proof fn lemma_path_faithfulness(root: Jv, segs: Seq<Segment>)
    requires
        keys_unique(root),
    ensures
        forall|i: int|
            0 <= i < s_find_slice(root, segs).len() ==> (match #[trigger] s_find_slice(
                root,
                segs,
            )[i] {
                RecV::Slice(v, p) => resolve(root, p) == Some(v),
                _ => true,
            }),
{
    let init = seq![RecV::Slice(root, Seq::<PathElemV>::empty())];
    assert(resolve(root, Seq::<PathElemV>::empty()) == Some(root));
    assert(recs_ok(root, init));
    lemma_find_ok(root, segs, init, false);
    lemma_keep_ok(root, s_find(root, segs, init, false));
    let hv = keep_values(crate::eval::s_eval(root, segs));
    assert forall|i: int|
        0 <= i < s_find_slice(root, segs).len() implies (match #[trigger] s_find_slice(
        root,
        segs,
    )[i] {
        RecV::Slice(v, p) => resolve(root, p) == Some(v),
        _ => true,
    }) by {
        if hv.len() != 0 {
            assert(s_find_slice(root, segs)[i] == hv[i]);
            assert(rec_ok(root, hv[i]));
        }
    }
}

/// The records whose path ends in the object member `k`.
pub open spec fn keep_key(rs: Seq<RecV>, k: Seq<char>) -> Seq<RecV>
    decreases rs.len(),
{
    if rs.len() == 0 {
        Seq::empty()
    } else {
        (match rs[0] {
            RecV::Slice(v, p) => if p.len() > 0 && p.last() == PathElemV::Key(k) {
                seq![rs[0]]
            } else {
                Seq::empty()
            },
            _ => Seq::empty(),
        }) + keep_key(rs.drop_first(), k)
    }
}

proof fn lemma_keep_key_concat(a: Seq<RecV>, b: Seq<RecV>, k: Seq<char>)
    ensures
        keep_key(a + b, k) == keep_key(a, k) + keep_key(b, k),
    decreases a.len(),
{
    if a.len() == 0 {
        assert(a + b =~= b);
        assert(keep_key(a, k) =~= Seq::<RecV>::empty());
        assert(keep_key(a + b, k) =~= keep_key(a, k) + keep_key(b, k));
    } else {
        assert((a + b)[0] == a[0]);
        assert((a + b).drop_first() =~= a.drop_first() + b);
        lemma_keep_key_concat(a.drop_first(), b, k);
        assert(keep_key(a + b, k) =~= keep_key(a, k) + keep_key(b, k));
    }
}

/// When a key is missing, no entry carries it.
proof fn lemma_obj_get_none(es: Seq<(Seq<char>, Jv)>, k: Seq<char>)
    requires
        obj_get(es, k) is None,
    ensures
        forall|i: int| 0 <= i < es.len() ==> (#[trigger] es[i]).0 != k,
    decreases es.len(),
{
    if es.len() > 0 {
        lemma_obj_get_none(es.drop_first(), k);
        assert forall|i: int| 0 <= i < es.len() implies (#[trigger] es[i]).0 != k by {
            if i > 0 {
                assert(es.drop_first()[i - 1] == es[i]);
            }
        }
    }
}

/// The wildcard over an object, kept to the member named `k`: with keys
/// unique this is exactly what looking `k` up gives.
proof fn lemma_keep_key_wild_obj(
    es: Seq<(Seq<char>, Jv)>,
    p: Seq<PathElemV>,
    k: Seq<char>,
    i: int,
)
    requires
        forall|a: int, b: int| #![trigger es[a], es[b]]
            0 <= a < b < es.len() ==> es[a].0 != es[b].0,
        0 <= i <= es.len(),
    ensures
        keep_key(s_wild_obj(es, p, i), k) == (match obj_get(es, k) {
            Some(c) => if exists|m: int| i <= m < es.len() && (#[trigger] es[m]).0 == k {
                seq![RecV::Slice(c, p.push(PathElemV::Key(k)))]
            } else {
                Seq::empty()
            },
            None => Seq::<RecV>::empty(),
        }),
    decreases es.len() - i,
{
    if i < es.len() {
        lemma_keep_key_wild_obj(es, p, k, i + 1);
        let head = seq![RecV::Slice(es[i].1, p.push(PathElemV::Key(es[i].0)))];
        lemma_keep_key_concat(head, s_wild_obj(es, p, i + 1), k);
        assert(head.drop_first() =~= Seq::<RecV>::empty());
        assert(head.len() == 1);
        assert(head[0] == RecV::Slice(es[i].1, p.push(PathElemV::Key(es[i].0))));
        assert(keep_key(head.drop_first(), k) =~= Seq::<RecV>::empty());
        assert(p.push(PathElemV::Key(es[i].0)).len() == p.len() + 1);
        assert(p.push(PathElemV::Key(es[i].0)).last() == PathElemV::Key(es[i].0));
        if es[i].0 == k {
            lemma_obj_get_at(es, i);
            assert(obj_get(es, k) == Some(es[i].1));
            assert(keep_key(head, k) =~= head);
            assert forall|m: int| i + 1 <= m < es.len() implies (#[trigger] es[m]).0 != k by {
                assert(es[i].0 == k);
            }
            assert(keep_key(s_wild_obj(es, p, i + 1), k) =~= Seq::<RecV>::empty());
            assert(keep_key(s_wild_obj(es, p, i), k) =~= seq![
                RecV::Slice(es[i].1, p.push(PathElemV::Key(k))),
            ]);
            assert(exists|m: int| i <= m < es.len() && (#[trigger] es[m]).0 == k);
        } else {
            assert(keep_key(head, k) =~= Seq::<RecV>::empty());
            assert(keep_key(s_wild_obj(es, p, i), k) =~= keep_key(s_wild_obj(es, p, i + 1), k));
            assert((exists|m: int| i <= m < es.len() && (#[trigger] es[m]).0 == k) == (exists|m: int|
                i + 1 <= m < es.len() && (#[trigger] es[m]).0 == k));
        }
    } else {
        match obj_get(es, k) {
            Some(_) => {
                assert(forall|m: int| i <= m < es.len() ==> (#[trigger] es[m]).0 != k);
            },
            None => {},
        }
    }
}

/// The wildcard over an array keeps nothing under a member filter: its
/// children's paths end in indices.
proof fn lemma_keep_key_wild_arr(xs: Seq<Jv>, p: Seq<PathElemV>, k: Seq<char>, i: int)
    requires
        0 <= i <= xs.len(),
    ensures
        keep_key(s_wild_arr(xs, p, i), k) == Seq::<RecV>::empty(),
    decreases xs.len() - i,
{
    if i < xs.len() {
        lemma_keep_key_wild_arr(xs, p, k, i + 1);
        let head = seq![RecV::Slice(xs[i], p.push(PathElemV::Idx(i)))];
        lemma_keep_key_concat(head, s_wild_arr(xs, p, i + 1), k);
        assert(head.drop_first() =~= Seq::<RecV>::empty());
        assert(head[0] == RecV::Slice(xs[i], p.push(PathElemV::Idx(i))));
        assert(keep_key(head.drop_first(), k) =~= Seq::<RecV>::empty());
        assert(p.push(PathElemV::Idx(i)).last() == PathElemV::Idx(i));
        assert(keep_key(head, k) =~= Seq::<RecV>::empty());
        assert(keep_key(s_wild_arr(xs, p, i), k) =~= Seq::<RecV>::empty());
    }
}

proof fn lemma_dfield_vs_wild_all(root: Jv, ds: Seq<(Jv, Seq<PathElemV>)>, k: Seq<char>, i: int)
    requires
        0 <= i <= ds.len(),
        pairs_ok(root, ds),
        keys_unique(root),
    ensures
        keep_key(s_seg_all(root, Segment::Wildcard, s_desc_recs(ds), i), k) == s_dfield_filter(
            ds.skip(i),
            k,
        ),
    decreases ds.len() - i,
{
    if i < ds.len() {
        lemma_dfield_vs_wild_all(root, ds, k, i + 1);
        assert(s_desc_recs(ds).len() == ds.len());
        assert(s_desc_recs(ds)[i] == RecV::Slice(ds[i].0, ds[i].1));
        assert(ds.skip(i)[0] == ds[i]);
        assert(ds.skip(i).drop_first() =~= ds.skip(i + 1));
        let chunk = s_seg(root, Segment::Wildcard, s_desc_recs(ds)[i]);
        lemma_keep_key_concat(chunk, s_seg_all(root, Segment::Wildcard, s_desc_recs(ds), i + 1), k);
        assert(pair_ok(root, ds[i]));
        lemma_resolve_keys_unique(root, ds[i].1, ds[i].0);
        match ds[i].0 {
            Jv::Obj(es) => {
                assert(ds[i].0->Obj_0 == es);
                assert(forall|a: int, b: int| #![trigger es[a], es[b]]
                    0 <= a < b < es.len() ==> es[a].0 != es[b].0);
                assert(chunk == s_wild_obj(es, ds[i].1, 0));
                lemma_keep_key_wild_obj(es, ds[i].1, k, 0);
                match obj_get(es, k) {
                    Some(c) => {
                        lemma_obj_get_some_at(es, k);
                    },
                    None => {},
                }
                assert(keep_key(s_seg_all(root, Segment::Wildcard, s_desc_recs(ds), i), k)
                    =~= s_dfield_filter(ds.skip(i), k));
            },
            Jv::Arr(xs) => {
                assert(ds[i].0->Arr_0 == xs);
                assert(chunk == s_wild_arr(xs, ds[i].1, 0));
                lemma_keep_key_wild_arr(xs, ds[i].1, k, 0);
                assert(keep_key(s_seg_all(root, Segment::Wildcard, s_desc_recs(ds), i), k)
                    =~= s_dfield_filter(ds.skip(i), k));
            },
            _ => {
                assert(chunk =~= seq![RecV::NoV]);
                assert(seq![RecV::NoV].drop_first() =~= Seq::<RecV>::empty());
                assert(keep_key(seq![RecV::NoV].drop_first(), k) =~= Seq::<RecV>::empty());
                assert(keep_key(chunk, k) =~= Seq::<RecV>::empty());
                assert(keep_key(s_seg_all(root, Segment::Wildcard, s_desc_recs(ds), i), k)
                    =~= s_dfield_filter(ds.skip(i), k));
            },
        }
    } else {
        assert(ds.skip(i).len() == 0);
        assert(s_dfield_filter(ds.skip(i), k) =~= Seq::<RecV>::empty());
    }
}

/// When a key is present, some entry carries it.
proof fn lemma_obj_get_some_at(es: Seq<(Seq<char>, Jv)>, k: Seq<char>)
    requires
        obj_get(es, k) is Some,
    ensures
        exists|m: int| 0 <= m < es.len() && (#[trigger] es[m]).0 == k,
    decreases es.len(),
{
    if es.len() > 0 {
        if es[0].0 == k {
            assert(es[0].0 == k);
        } else {
            lemma_obj_get_some_at(es.drop_first(), k);
            let m0 = choose|m: int|
                0 <= m < es.drop_first().len() && (#[trigger] es.drop_first()[m]).0 == k;
            assert(es.drop_first()[m0] == es[m0 + 1]);
            assert(es[m0 + 1].0 == k);
        }
    }
}

/// Wildcard/descent relation: what descending to every node and taking
/// the member named `k` yields (the `..k` segment) equals what
/// descending to every node and taking all children (`..*`) yields, kept
/// to the records whose path ends in the member `k`. The document's
/// objects are assumed to carry pairwise distinct keys, as JSON objects
/// do.
pub proof fn lemma_descent_field_vs_wildcard(root: Jv, v: Jv, p: Seq<PathElemV>, k: Seq<char>)
    requires
        keys_unique(root),
        resolve(root, p) == Some(v),
    ensures
        s_dfield_filter(s_descent(v, p), k) == keep_key(
            s_seg_all(root, Segment::Wildcard, s_desc_recs(s_descent(v, p)), 0),
            k,
        ),
{
    lemma_resolve_keys_unique(root, p, v);
    lemma_descent_ok(root, v, p);
    lemma_dfield_vs_wild_all(root, s_descent(v, p), k, 0);
    assert(s_descent(v, p).skip(0) =~= s_descent(v, p));
}

/// Every path that descending from `(v, p)` yields extends `p`; all but
/// the first extend it strictly.
proof fn lemma_descent_prefix(v: Jv, p: Seq<PathElemV>)
    ensures
        s_descent(v, p).len() >= 1,
        s_descent(v, p)[0] == (v, p),
        forall|i: int|
            0 <= i < s_descent(v, p).len() ==> (#[trigger] s_descent(v, p)[i]).1.len() >= p.len()
                && s_descent(v, p)[i].1.take(p.len() as int) == p,
        forall|i: int|
            1 <= i < s_descent(v, p).len() ==> (#[trigger] s_descent(v, p)[i]).1.len() > p.len(),
    decreases v, 0int,
{
    let whole = s_descent(v, p);
    assert(whole[0] == (v, p));
    assert(p.take(p.len() as int) =~= p);
    match v {
        Jv::Arr(xs) => {
            lemma_descent_arr_prefix(xs, p, 0);
            assert forall|i: int|
                1 <= i < whole.len() implies (#[trigger] whole[i]).1.len() > p.len() && whole[
                i].1.take(p.len() as int) == p by {
                assert(whole[i] == s_descent_arr(xs, p, 0)[i - 1]);
            }
        },
        Jv::Obj(es) => {
            lemma_descent_obj_prefix(es, p, 0);
            assert forall|i: int|
                1 <= i < whole.len() implies (#[trigger] whole[i]).1.len() > p.len() && whole[
                i].1.take(p.len() as int) == p by {
                assert(whole[i] == s_descent_obj(es, p, 0)[i - 1]);
            }
        },
        _ => {
            assert(whole =~= seq![(v, p)]);
        },
    }
}

/// Elements produced below the `i`-th array child extend `p` strictly and
/// never carry the index of an earlier child at position `p.len()`.
proof fn lemma_descent_arr_prefix(xs: Seq<Jv>, p: Seq<PathElemV>, i: int)
    ensures
        forall|j: int|
            0 <= j < s_descent_arr(xs, p, i).len() ==> (#[trigger] s_descent_arr(
                xs,
                p,
                i,
            )[j]).1.len() > p.len() && s_descent_arr(xs, p, i)[j].1.take(p.len() as int) == p
                && (s_descent_arr(xs, p, i)[j].1[p.len() as int] matches PathElemV::Idx(m) && i
                <= m < xs.len()),
    decreases xs, xs.len() - i + 1,
{
    if 0 <= i < xs.len() {
        let pc = p.push(PathElemV::Idx(i));
        let sub = s_descent(xs[i], pc);
        let rest = s_descent_arr(xs, p, i + 1);
        lemma_descent_prefix(xs[i], pc);
        lemma_descent_arr_prefix(xs, p, i + 1);
        assert forall|j: int|
            0 <= j < s_descent_arr(xs, p, i).len() implies (#[trigger] s_descent_arr(
            xs,
            p,
            i,
        )[j]).1.len() > p.len() && s_descent_arr(xs, p, i)[j].1.take(p.len() as int) == p
            && (s_descent_arr(xs, p, i)[j].1[p.len() as int] matches PathElemV::Idx(m) && i <= m
            < xs.len()) by {
            if j < sub.len() {
                let q = sub[j].1;
                assert(s_descent_arr(xs, p, i)[j] == sub[j]);
                assert(q.len() >= pc.len());
                assert(q.take(pc.len() as int) == pc);
                assert(q.take(pc.len() as int)[p.len() as int] == q[p.len() as int]);
                assert(q[p.len() as int] == PathElemV::Idx(i));
                assert(q.take(p.len() as int) =~= q.take(pc.len() as int).take(p.len() as int));
                assert(q.take(pc.len() as int).take(p.len() as int) =~= pc.take(p.len() as int));
                assert(pc.take(p.len() as int) =~= p);
            } else {
                assert(s_descent_arr(xs, p, i)[j] == rest[j - sub.len()]);
            }
        }
    }
}

/// Elements produced below the `i`-th object member extend `p` strictly,
/// carrying one of the remaining keys at position `p.len()`.
proof fn lemma_descent_obj_prefix(es: Seq<(Seq<char>, Jv)>, p: Seq<PathElemV>, i: int)
    ensures
        forall|j: int|
            0 <= j < s_descent_obj(es, p, i).len() ==> (#[trigger] s_descent_obj(
                es,
                p,
                i,
            )[j]).1.len() > p.len() && s_descent_obj(es, p, i)[j].1.take(p.len() as int) == p && (
            exists|m: int|
                i <= m < es.len() && s_descent_obj(es, p, i)[j].1[p.len() as int]
                    == PathElemV::Key((#[trigger] es[m]).0)),
    decreases es, es.len() - i + 1,
{
    if 0 <= i < es.len() {
        let pc = p.push(PathElemV::Key(es[i].0));
        let sub = s_descent(es[i].1, pc);
        let rest = s_descent_obj(es, p, i + 1);
        lemma_descent_prefix(es[i].1, pc);
        lemma_descent_obj_prefix(es, p, i + 1);
        assert forall|j: int|
            0 <= j < s_descent_obj(es, p, i).len() implies (#[trigger] s_descent_obj(
            es,
            p,
            i,
        )[j]).1.len() > p.len() && s_descent_obj(es, p, i)[j].1.take(p.len() as int) == p && (
        exists|m: int|
            i <= m < es.len() && s_descent_obj(es, p, i)[j].1[p.len() as int] == PathElemV::Key(
                (#[trigger] es[m]).0,
            )) by {
            if j < sub.len() {
                let q = sub[j].1;
                assert(s_descent_obj(es, p, i)[j] == sub[j]);
                assert(q.len() >= pc.len());
                assert(q.take(pc.len() as int) == pc);
                assert(q.take(pc.len() as int)[p.len() as int] == q[p.len() as int]);
                assert(q[p.len() as int] == PathElemV::Key(es[i].0));
                assert(q.take(p.len() as int) =~= q.take(pc.len() as int).take(p.len() as int));
                assert(q.take(pc.len() as int).take(p.len() as int) =~= pc.take(p.len() as int));
                assert(pc.take(p.len() as int) =~= p);
                assert(i <= i < es.len() && q[p.len() as int] == PathElemV::Key(es[i].0));
            } else {
                assert(s_descent_obj(es, p, i)[j] == rest[j - sub.len()]);
                let q = rest[j - sub.len()].1;
                let m0 = choose|m: int|
                    i + 1 <= m < es.len() && q[p.len() as int] == PathElemV::Key(
                        (#[trigger] es[m]).0,
                    );
                assert(i <= m0 < es.len() && q[p.len() as int] == PathElemV::Key(es[m0].0));
            }
        }
    }
}

/// Descent yields pairwise distinct paths.
proof fn lemma_descent_distinct(v: Jv, p: Seq<PathElemV>)
    requires
        keys_unique(v),
    ensures
        forall|a: int, b: int|
            0 <= a < b < s_descent(v, p).len() ==> (#[trigger] s_descent(v, p)[a]).1 != (
            #[trigger] s_descent(v, p)[b]).1,
    decreases v, 0int,
{
    lemma_descent_prefix(v, p);
    match v {
        Jv::Arr(xs) => {
            assert(v->Arr_0 == xs);
            lemma_descent_arr_distinct(xs, p, 0);
            assert forall|a: int, b: int|
                0 <= a < b < s_descent(v, p).len() implies (#[trigger] s_descent(v, p)[a]).1 != (
                #[trigger] s_descent(v, p)[b]).1 by {
                if a == 0 {
                    assert(s_descent(v, p)[a].1.len() == p.len());
                    assert(s_descent(v, p)[b].1.len() > p.len());
                } else {
                    assert(s_descent(v, p)[a] == s_descent_arr(xs, p, 0)[a - 1]);
                    assert(s_descent(v, p)[b] == s_descent_arr(xs, p, 0)[b - 1]);
                }
            }
        },
        Jv::Obj(es) => {
            assert(v->Obj_0 == es);
            lemma_descent_obj_distinct(es, p, 0);
            assert forall|a: int, b: int|
                0 <= a < b < s_descent(v, p).len() implies (#[trigger] s_descent(v, p)[a]).1 != (
                #[trigger] s_descent(v, p)[b]).1 by {
                if a == 0 {
                    assert(s_descent(v, p)[a].1.len() == p.len());
                    assert(s_descent(v, p)[b].1.len() > p.len());
                } else {
                    assert(s_descent(v, p)[a] == s_descent_obj(es, p, 0)[a - 1]);
                    assert(s_descent(v, p)[b] == s_descent_obj(es, p, 0)[b - 1]);
                }
            }
        },
        _ => {
            assert(s_descent(v, p) =~= seq![(v, p)]);
        },
    }
}

proof fn lemma_descent_arr_distinct(xs: Seq<Jv>, p: Seq<PathElemV>, i: int)
    requires
        forall|m: int| 0 <= m < xs.len() ==> keys_unique(#[trigger] xs[m]),
    ensures
        forall|a: int, b: int|
            0 <= a < b < s_descent_arr(xs, p, i).len() ==> (#[trigger] s_descent_arr(
                xs,
                p,
                i,
            )[a]).1 != (#[trigger] s_descent_arr(xs, p, i)[b]).1,
    decreases xs, xs.len() - i + 1,
{
    if 0 <= i < xs.len() {
        let pc = p.push(PathElemV::Idx(i));
        let sub = s_descent(xs[i], pc);
        let rest = s_descent_arr(xs, p, i + 1);
        lemma_descent_prefix(xs[i], pc);
        lemma_descent_distinct(xs[i], pc);
        lemma_descent_arr_distinct(xs, p, i + 1);
        lemma_descent_arr_prefix(xs, p, i + 1);
        assert forall|a: int, b: int|
            0 <= a < b < s_descent_arr(xs, p, i).len() implies (#[trigger] s_descent_arr(
            xs,
            p,
            i,
        )[a]).1 != (#[trigger] s_descent_arr(xs, p, i)[b]).1 by {
            if b < sub.len() {
                assert(s_descent_arr(xs, p, i)[a] == sub[a]);
                assert(s_descent_arr(xs, p, i)[b] == sub[b]);
            } else if a >= sub.len() {
                assert(s_descent_arr(xs, p, i)[a] == rest[a - sub.len()]);
                assert(s_descent_arr(xs, p, i)[b] == rest[b - sub.len()]);
            } else {
                assert(s_descent_arr(xs, p, i)[a] == sub[a]);
                assert(s_descent_arr(xs, p, i)[b] == rest[b - sub.len()]);
                let qa = sub[a].1;
                let qb = rest[b - sub.len()].1;
                assert(qa.take(pc.len() as int) == pc);
                assert(qa.take(pc.len() as int)[p.len() as int] == qa[p.len() as int]);
                assert(qa[p.len() as int] == PathElemV::Idx(i));
                assert(qb[p.len() as int] matches PathElemV::Idx(m) && i + 1 <= m < xs.len());
                assert(qa != qb);
            }
        }
    }
}

proof fn lemma_descent_obj_distinct(es: Seq<(Seq<char>, Jv)>, p: Seq<PathElemV>, i: int)
    requires
        forall|m: int| 0 <= m < es.len() ==> keys_unique(#[trigger] es[m].1),
        forall|a: int, b: int| #![trigger es[a], es[b]]
            0 <= a < b < es.len() ==> es[a].0 != es[b].0,
    ensures
        forall|a: int, b: int|
            0 <= a < b < s_descent_obj(es, p, i).len() ==> (#[trigger] s_descent_obj(
                es,
                p,
                i,
            )[a]).1 != (#[trigger] s_descent_obj(es, p, i)[b]).1,
    decreases es, es.len() - i + 1,
{
    if 0 <= i < es.len() {
        let pc = p.push(PathElemV::Key(es[i].0));
        let sub = s_descent(es[i].1, pc);
        let rest = s_descent_obj(es, p, i + 1);
        lemma_descent_prefix(es[i].1, pc);
        lemma_descent_distinct(es[i].1, pc);
        lemma_descent_obj_distinct(es, p, i + 1);
        lemma_descent_obj_prefix(es, p, i + 1);
        assert forall|a: int, b: int|
            0 <= a < b < s_descent_obj(es, p, i).len() implies (#[trigger] s_descent_obj(
            es,
            p,
            i,
        )[a]).1 != (#[trigger] s_descent_obj(es, p, i)[b]).1 by {
            if b < sub.len() {
                assert(s_descent_obj(es, p, i)[a] == sub[a]);
                assert(s_descent_obj(es, p, i)[b] == sub[b]);
            } else if a >= sub.len() {
                assert(s_descent_obj(es, p, i)[a] == rest[a - sub.len()]);
                assert(s_descent_obj(es, p, i)[b] == rest[b - sub.len()]);
            } else {
                assert(s_descent_obj(es, p, i)[a] == sub[a]);
                assert(s_descent_obj(es, p, i)[b] == rest[b - sub.len()]);
                let qa = sub[a].1;
                let qb = rest[b - sub.len()].1;
                assert(qa.take(pc.len() as int) == pc);
                assert(qa.take(pc.len() as int)[p.len() as int] == qa[p.len() as int]);
                assert(qa[p.len() as int] == PathElemV::Key(es[i].0));
                let m0 = choose|m: int|
                    i + 1 <= m < es.len() && qb[p.len() as int] == PathElemV::Key(
                        (#[trigger] es[m]).0,
                    );
                assert(es[i].0 != es[m0].0);
                assert(qa != qb);
            }
        }
    }
}

/// The children the wildcard yields for one faithful parent: one level
/// deeper, parent path kept, pairwise distinct.
proof fn lemma_wild_children(root: Jv, d: Jv, dp: Seq<PathElemV>)
    requires
        keys_unique(d),
    ensures
        forall|j: int|
            0 <= j < s_seg(root, Segment::Wildcard, RecV::Slice(d, dp)).len() ==> ((
            #[trigger] s_seg(root, Segment::Wildcard, RecV::Slice(d, dp))[j]) matches RecV::Slice(
                _,
                q,
            ) ==> q.len() == dp.len() + 1 && q.drop_last() == dp),
        forall|a: int, b: int|
            0 <= a < b < s_seg(root, Segment::Wildcard, RecV::Slice(d, dp)).len() ==> ((
            #[trigger] s_seg(root, Segment::Wildcard, RecV::Slice(d, dp))[a]) is Slice && (
            #[trigger] s_seg(root, Segment::Wildcard, RecV::Slice(d, dp))[b]) is Slice ==> s_seg(
                root,
                Segment::Wildcard,
                RecV::Slice(d, dp),
            )[a]->Slice_1 != s_seg(root, Segment::Wildcard, RecV::Slice(d, dp))[b]->Slice_1),
{
    let cs = s_seg(root, Segment::Wildcard, RecV::Slice(d, dp));
    match d {
        Jv::Arr(xs) => {
            crate::lemma_wildcard_array_order(root, xs, dp);
            assert forall|j: int|
                0 <= j < cs.len() implies ((#[trigger] cs[j]) matches RecV::Slice(_, q)
                ==> q.len() == dp.len() + 1 && q.drop_last() == dp) by {
                assert(cs[j] == RecV::Slice(xs[j], dp.push(PathElemV::Idx(j))));
                assert(dp.push(PathElemV::Idx(j)).drop_last() =~= dp);
            }
            assert forall|a: int, b: int|
                0 <= a < b < cs.len() && (#[trigger] cs[a]) is Slice && (#[trigger] cs[b])
                is Slice implies cs[a]->Slice_1 != cs[b]->Slice_1 by {
                assert(cs[a] == RecV::Slice(xs[a], dp.push(PathElemV::Idx(a))));
                assert(cs[b] == RecV::Slice(xs[b], dp.push(PathElemV::Idx(b))));
                assert(dp.push(PathElemV::Idx(a)).last() == PathElemV::Idx(a));
                assert(dp.push(PathElemV::Idx(b)).last() == PathElemV::Idx(b));
            }
        },
        Jv::Obj(es) => {
            assert(d->Obj_0 == es);
            crate::lemma_wildcard_object_order(root, es, dp);
            assert forall|j: int|
                0 <= j < cs.len() implies ((#[trigger] cs[j]) matches RecV::Slice(_, q)
                ==> q.len() == dp.len() + 1 && q.drop_last() == dp) by {
                assert(cs[j] == RecV::Slice(es[j].1, dp.push(PathElemV::Key(es[j].0))));
                assert(dp.push(PathElemV::Key(es[j].0)).drop_last() =~= dp);
            }
            assert forall|a: int, b: int|
                0 <= a < b < cs.len() && (#[trigger] cs[a]) is Slice && (#[trigger] cs[b])
                is Slice implies cs[a]->Slice_1 != cs[b]->Slice_1 by {
                assert(cs[a] == RecV::Slice(es[a].1, dp.push(PathElemV::Key(es[a].0))));
                assert(cs[b] == RecV::Slice(es[b].1, dp.push(PathElemV::Key(es[b].0))));
                assert(es[a].0 != es[b].0);
                assert(dp.push(PathElemV::Key(es[a].0)).last() == PathElemV::Key(es[a].0));
                assert(dp.push(PathElemV::Key(es[b].0)).last() == PathElemV::Key(es[b].0));
            }
        },
        _ => {
            assert(cs =~= seq![RecV::NoV]);
        },
    }
}

/// No child produced at or after parent `i` has a parent path equal to
/// `q`, provided no such parent path occurs there.
proof fn lemma_children_parent_ne(
    root: Jv,
    ds: Seq<(Jv, Seq<PathElemV>)>,
    i: int,
    q: Seq<PathElemV>,
)
    requires
        0 <= i <= ds.len(),
        pairs_ok(root, ds),
        keys_unique(root),
        forall|m: int| i <= m < ds.len() ==> (#[trigger] ds[m]).1 != q,
    ensures
        forall|j: int|
            0 <= j < s_seg_all(root, Segment::Wildcard, s_desc_recs(ds), i).len() ==> ((
            #[trigger] s_seg_all(root, Segment::Wildcard, s_desc_recs(ds), i)[j]) matches
                RecV::Slice(_, ep) ==> ep.len() >= 1 && ep.drop_last() != q),
    decreases ds.len() - i,
{
    if 0 <= i < ds.len() {
        lemma_children_parent_ne(root, ds, i + 1, q);
        assert(s_desc_recs(ds)[i] == RecV::Slice(ds[i].0, ds[i].1));
        assert(pair_ok(root, ds[i]));
        lemma_resolve_keys_unique(root, ds[i].1, ds[i].0);
        lemma_wild_children(root, ds[i].0, ds[i].1);
        let chunk = s_seg(root, Segment::Wildcard, s_desc_recs(ds)[i]);
        let rest = s_seg_all(root, Segment::Wildcard, s_desc_recs(ds), i + 1);
        assert forall|j: int|
            0 <= j < s_seg_all(root, Segment::Wildcard, s_desc_recs(ds), i).len() implies ((
        #[trigger] s_seg_all(root, Segment::Wildcard, s_desc_recs(ds), i)[j]) matches RecV::Slice(
            _,
            ep,
        ) ==> ep.len() >= 1 && ep.drop_last() != q) by {
            if j < chunk.len() {
                assert(s_seg_all(root, Segment::Wildcard, s_desc_recs(ds), i)[j] == chunk[j]);
                assert(ds[i].1 != q);
            } else {
                assert(s_seg_all(root, Segment::Wildcard, s_desc_recs(ds), i)[j] == rest[j
                    - chunk.len()]);
            }
        }
    }
}

/// The children of pairwise-distinct faithful parents carry pairwise
/// distinct paths.
proof fn lemma_children_distinct(root: Jv, ds: Seq<(Jv, Seq<PathElemV>)>, i: int)
    requires
        0 <= i <= ds.len(),
        pairs_ok(root, ds),
        keys_unique(root),
        forall|a: int, b: int|
            0 <= a < b < ds.len() ==> (#[trigger] ds[a]).1 != (#[trigger] ds[b]).1,
    ensures
        forall|a: int, b: int|
            0 <= a < b < s_seg_all(root, Segment::Wildcard, s_desc_recs(ds), i).len() ==> ((
            #[trigger] s_seg_all(root, Segment::Wildcard, s_desc_recs(ds), i)[a]) is Slice && (
            #[trigger] s_seg_all(root, Segment::Wildcard, s_desc_recs(ds), i)[b]) is Slice
                ==> s_seg_all(root, Segment::Wildcard, s_desc_recs(ds), i)[a]->Slice_1 != s_seg_all(
                root,
                Segment::Wildcard,
                s_desc_recs(ds),
                i,
            )[b]->Slice_1),
    decreases ds.len() - i,
{
    if 0 <= i < ds.len() {
        lemma_children_distinct(root, ds, i + 1);
        assert(s_desc_recs(ds)[i] == RecV::Slice(ds[i].0, ds[i].1));
        assert(pair_ok(root, ds[i]));
        lemma_resolve_keys_unique(root, ds[i].1, ds[i].0);
        lemma_wild_children(root, ds[i].0, ds[i].1);
        assert forall|m: int| i + 1 <= m < ds.len() implies (#[trigger] ds[m]).1 != ds[i].1 by {}
        lemma_children_parent_ne(root, ds, i + 1, ds[i].1);
        let chunk = s_seg(root, Segment::Wildcard, s_desc_recs(ds)[i]);
        let rest = s_seg_all(root, Segment::Wildcard, s_desc_recs(ds), i + 1);
        assert forall|a: int, b: int|
            0 <= a < b < s_seg_all(root, Segment::Wildcard, s_desc_recs(ds), i).len() && (
        #[trigger] s_seg_all(root, Segment::Wildcard, s_desc_recs(ds), i)[a]) is Slice && (
        #[trigger] s_seg_all(root, Segment::Wildcard, s_desc_recs(ds), i)[b]) is Slice
            implies s_seg_all(root, Segment::Wildcard, s_desc_recs(ds), i)[a]->Slice_1
            != s_seg_all(
            root,
            Segment::Wildcard,
            s_desc_recs(ds),
            i,
        )[b]->Slice_1 by {
            if b < chunk.len() {
                assert(s_seg_all(root, Segment::Wildcard, s_desc_recs(ds), i)[a] == chunk[a]);
                assert(s_seg_all(root, Segment::Wildcard, s_desc_recs(ds), i)[b] == chunk[b]);
            } else if a >= chunk.len() {
                assert(s_seg_all(root, Segment::Wildcard, s_desc_recs(ds), i)[a] == rest[a
                    - chunk.len()]);
                assert(s_seg_all(root, Segment::Wildcard, s_desc_recs(ds), i)[b] == rest[b
                    - chunk.len()]);
            } else {
                assert(s_seg_all(root, Segment::Wildcard, s_desc_recs(ds), i)[a] == chunk[a]);
                assert(s_seg_all(root, Segment::Wildcard, s_desc_recs(ds), i)[b] == rest[b
                    - chunk.len()]);
                if chunk[a] is Slice && rest[b - chunk.len()] is Slice {
                    assert(chunk[a]->Slice_1.drop_last() == ds[i].1);
                    assert(rest[b - chunk.len()]->Slice_1.drop_last() != ds[i].1);
                }
            }
        }
    }
}

/// The wildcard-after-descent (`..*`): every match is a non-root node of
/// the document, addressed faithfully by its path, and no path is
/// yielded twice. The document's objects are assumed to carry pairwise
/// distinct keys, as JSON objects do.
pub proof fn lemma_descent_wildcard_nodes(root: Jv)
    requires
        keys_unique(root),
    ensures
        forall|j: int|
            0 <= j < s_seg_all(
                root,
                Segment::Wildcard,
                s_desc_recs(s_descent(root, Seq::empty())),
                0,
            ).len() ==> ((#[trigger] s_seg_all(
                root,
                Segment::Wildcard,
                s_desc_recs(s_descent(root, Seq::empty())),
                0,
            )[j]) matches RecV::Slice(c, q) ==> q.len() >= 1 && resolve(root, q) == Some(c)),
        forall|a: int, b: int|
            0 <= a < b < s_seg_all(
                root,
                Segment::Wildcard,
                s_desc_recs(s_descent(root, Seq::empty())),
                0,
            ).len() ==> ((#[trigger] s_seg_all(
                root,
                Segment::Wildcard,
                s_desc_recs(s_descent(root, Seq::empty())),
                0,
            )[a]) is Slice && (#[trigger] s_seg_all(
                root,
                Segment::Wildcard,
                s_desc_recs(s_descent(root, Seq::empty())),
                0,
            )[b]) is Slice ==> s_seg_all(
                root,
                Segment::Wildcard,
                s_desc_recs(s_descent(root, Seq::empty())),
                0,
            )[a]->Slice_1 != s_seg_all(
                root,
                Segment::Wildcard,
                s_desc_recs(s_descent(root, Seq::empty())),
                0,
            )[b]->Slice_1),
{
    let ds = s_descent(root, Seq::<PathElemV>::empty());
    assert(resolve(root, Seq::<PathElemV>::empty()) == Some(root));
    lemma_descent_ok(root, root, Seq::empty());
    lemma_descent_distinct(root, Seq::empty());
    lemma_pairs_to_recs_ok(root, ds);
    lemma_seg_all_ok(root, Segment::Wildcard, s_desc_recs(ds), 0);
    lemma_children_parent_ne(root, ds, ds.len() as int, Seq::empty());
    lemma_children_distinct(root, ds, 0);
    let rs = s_seg_all(root, Segment::Wildcard, s_desc_recs(ds), 0);
    assert forall|j: int|
        0 <= j < rs.len() implies ((#[trigger] rs[j]) matches RecV::Slice(c, q) ==> q.len() >= 1
            && resolve(root, q) == Some(c)) by {
        assert(rec_ok(root, rs[j]));
        lemma_children_len(root, ds, 0, j);
    }
}

/// Every child record sits one level below its parent, so its path is
/// never empty.
proof fn lemma_children_len(root: Jv, ds: Seq<(Jv, Seq<PathElemV>)>, i: int, j: int)
    requires
        0 <= i <= ds.len(),
        pairs_ok(root, ds),
        keys_unique(root),
        0 <= j < s_seg_all(root, Segment::Wildcard, s_desc_recs(ds), i).len(),
    ensures
        (s_seg_all(root, Segment::Wildcard, s_desc_recs(ds), i)[j]) matches RecV::Slice(_, ep)
            ==> ep.len() >= 1,
    decreases ds.len() - i,
{
    if 0 <= i < ds.len() {
        assert(s_desc_recs(ds)[i] == RecV::Slice(ds[i].0, ds[i].1));
        assert(pair_ok(root, ds[i]));
        lemma_resolve_keys_unique(root, ds[i].1, ds[i].0);
        lemma_wild_children(root, ds[i].0, ds[i].1);
        let chunk = s_seg(root, Segment::Wildcard, s_desc_recs(ds)[i]);
        if j < chunk.len() {
            assert(s_seg_all(root, Segment::Wildcard, s_desc_recs(ds), i)[j] == chunk[j]);
        } else {
            assert(s_seg_all(root, Segment::Wildcard, s_desc_recs(ds), i)[j] == s_seg_all(
                root,
                Segment::Wildcard,
                s_desc_recs(ds),
                i + 1,
            )[j - chunk.len()]);
            lemma_children_len(root, ds, i + 1, j - chunk.len());
        }
    }
}

/// Resolving a concatenated path resolves the first part, then the rest.
proof fn lemma_resolve_concat(root: Jv, a: Seq<PathElemV>, b: Seq<PathElemV>)
    ensures
        resolve(root, a + b) == (match resolve(root, a) {
            Some(m) => resolve(m, b),
            None => Option::<Jv>::None,
        }),
    decreases a.len(),
{
    if a.len() == 0 {
        assert(a + b =~= b);
    } else {
        assert((a + b)[0] == a[0]);
        assert((a + b).drop_first() =~= a.drop_first() + b);
        match (a[0], root) {
            (PathElemV::Key(k), Jv::Obj(es)) => {
                match obj_get(es, k) {
                    Some(c0) => {
                        lemma_resolve_concat(c0, a.drop_first(), b);
                    },
                    None => {},
                }
            },
            (PathElemV::Idx(i), Jv::Arr(xs)) => {
                if 0 <= i < xs.len() {
                    lemma_resolve_concat(xs[i], a.drop_first(), b);
                }
            },
            _ => {},
        }
    }
}

/// The entry a successful lookup found.
proof fn lemma_obj_get_find(es: Seq<(Seq<char>, Jv)>, k: Seq<char>, c: Jv)
    requires
        obj_get(es, k) == Some(c),
    ensures
        exists|m: int| 0 <= m < es.len() && #[trigger] es[m] == (k, c),
    decreases es.len(),
{
    if es.len() > 0 {
        if es[0].0 == k {
            assert(es[0] == (k, c));
        } else {
            lemma_obj_get_find(es.drop_first(), k, c);
            let m0 = choose|m: int|
                0 <= m < es.drop_first().len() && #[trigger] es.drop_first()[m] == (k, c);
            assert(es[m0 + 1] == (k, c));
        }
    }
}

/// Whatever the subtree below the `m`-th child yields appears among what
/// all children from `i` on yield.
proof fn lemma_member_arr(
    xs: Seq<Jv>,
    p: Seq<PathElemV>,
    i: int,
    m: int,
    x: (Jv, Seq<PathElemV>),
)
    requires
        0 <= i <= m < xs.len(),
        s_descent(xs[m], p.push(PathElemV::Idx(m))).contains(x),
    ensures
        s_descent_arr(xs, p, i).contains(x),
    decreases m - i,
{
    if i == m {
        let j = choose|j: int|
            0 <= j < s_descent(xs[m], p.push(PathElemV::Idx(m))).len() && s_descent(
                xs[m],
                p.push(PathElemV::Idx(m)),
            )[j] == x;
        assert(s_descent_arr(xs, p, i)[j] == x);
    } else {
        lemma_member_arr(xs, p, i + 1, m, x);
        let j = choose|j: int|
            0 <= j < s_descent_arr(xs, p, i + 1).len() && (#[trigger] s_descent_arr(
                xs,
                p,
                i + 1,
            )[j]) == x;
        let sub = s_descent(xs[i], p.push(PathElemV::Idx(i)));
        assert(s_descent_arr(xs, p, i)[sub.len() + j] == x);
    }
}

proof fn lemma_member_obj(
    es: Seq<(Seq<char>, Jv)>,
    p: Seq<PathElemV>,
    i: int,
    m: int,
    x: (Jv, Seq<PathElemV>),
)
    requires
        0 <= i <= m < es.len(),
        s_descent(es[m].1, p.push(PathElemV::Key(es[m].0))).contains(x),
    ensures
        s_descent_obj(es, p, i).contains(x),
    decreases m - i,
{
    if i == m {
        let j = choose|j: int|
            0 <= j < s_descent(es[m].1, p.push(PathElemV::Key(es[m].0))).len() && s_descent(
                es[m].1,
                p.push(PathElemV::Key(es[m].0)),
            )[j] == x;
        assert(s_descent_obj(es, p, i)[j] == x);
    } else {
        lemma_member_obj(es, p, i + 1, m, x);
        let j = choose|j: int|
            0 <= j < s_descent_obj(es, p, i + 1).len() && (#[trigger] s_descent_obj(
                es,
                p,
                i + 1,
            )[j]) == x;
        let sub = s_descent(es[i].1, p.push(PathElemV::Key(es[i].0)));
        assert(s_descent_obj(es, p, i)[sub.len() + j] == x);
    }
}

/// Descent completeness: every node resolvable below `v` is visited,
/// with its full path.
proof fn lemma_descent_complete(v: Jv, p: Seq<PathElemV>, rel: Seq<PathElemV>, c: Jv)
    requires
        resolve(v, rel) == Some(c),
    ensures
        s_descent(v, p).contains((c, p + rel)),
    decreases rel.len(),
{
    if rel.len() == 0 {
        assert(c == v);
        assert(p + rel =~= p);
        assert(s_descent(v, p)[0] == (c, p + rel));
    } else {
        match (rel[0], v) {
            (PathElemV::Key(k), Jv::Obj(es)) => {
                match obj_get(es, k) {
                    Some(c0) => {
                        lemma_obj_get_find(es, k, c0);
                        let m = choose|m: int|
                            0 <= m < es.len() && #[trigger] es[m] == (k, c0);
                        lemma_descent_complete(
                            c0,
                            p.push(PathElemV::Key(k)),
                            rel.drop_first(),
                            c,
                        );
                        assert(es[m].1 == c0 && es[m].0 == k);
                        lemma_member_obj(
                            es,
                            p,
                            0,
                            m,
                            (c, p.push(PathElemV::Key(k)) + rel.drop_first()),
                        );
                        assert(p.push(PathElemV::Key(k)) + rel.drop_first() =~= p + rel);
                        let j = choose|j: int|
                            0 <= j < s_descent_obj(es, p, 0).len() && s_descent_obj(es, p, 0)[j]
                                == (c, p + rel);
                        assert(s_descent(v, p)[j + 1] == (c, p + rel));
                    },
                    None => {
                        assert(false);
                    },
                }
            },
            (PathElemV::Idx(i), Jv::Arr(xs)) => {
                assert(0 <= i < xs.len());
                lemma_descent_complete(xs[i], p.push(PathElemV::Idx(i)), rel.drop_first(), c);
                lemma_member_arr(xs, p, 0, i, (c, p.push(PathElemV::Idx(i)) + rel.drop_first()));
                assert(p.push(PathElemV::Idx(i)) + rel.drop_first() =~= p + rel);
                let j = choose|j: int|
                    0 <= j < s_descent_arr(xs, p, 0).len() && s_descent_arr(xs, p, 0)[j] == (
                    c,
                    p + rel,
                );
                assert(s_descent(v, p)[j + 1] == (c, p + rel));
            },
            _ => {
                assert(false);
            },
        }
    }
}

/// Whatever one parent's children include appears among all parents'
/// children from `i` on.
proof fn lemma_member_children(
    root: Jv,
    ds: Seq<(Jv, Seq<PathElemV>)>,
    i: int,
    m: int,
    x: RecV,
)
    requires
        0 <= i <= m < ds.len(),
        s_seg(root, Segment::Wildcard, RecV::Slice(ds[m].0, ds[m].1)).contains(x),
    ensures
        s_seg_all(root, Segment::Wildcard, s_desc_recs(ds), i).contains(x),
    decreases m - i,
{
    assert(s_desc_recs(ds)[i] == RecV::Slice(ds[i].0, ds[i].1));
    if i == m {
        let j = choose|j: int|
            0 <= j < s_seg(root, Segment::Wildcard, RecV::Slice(ds[m].0, ds[m].1)).len() && s_seg(
                root,
                Segment::Wildcard,
                RecV::Slice(ds[m].0, ds[m].1),
            )[j] == x;
        assert(s_seg_all(root, Segment::Wildcard, s_desc_recs(ds), i)[j] == x);
    } else {
        lemma_member_children(root, ds, i + 1, m, x);
        let j = choose|j: int|
            0 <= j < s_seg_all(root, Segment::Wildcard, s_desc_recs(ds), i + 1).len() && (
            #[trigger] s_seg_all(root, Segment::Wildcard, s_desc_recs(ds), i + 1)[j]) == x;
        let chunk = s_seg(root, Segment::Wildcard, s_desc_recs(ds)[i]);
        assert(s_seg_all(root, Segment::Wildcard, s_desc_recs(ds), i)[chunk.len() + j] == x);
    }
}

/// The wildcard-after-descent (`..*`) is complete: every non-root node
/// of the document appears among its matches, under its path.
pub proof fn lemma_descent_wildcard_complete(root: Jv, q: Seq<PathElemV>, c: Jv)
    requires
        keys_unique(root),
        q.len() >= 1,
        resolve(root, q) == Some(c),
    ensures
        s_seg_all(root, Segment::Wildcard, s_desc_recs(s_descent(root, Seq::empty())), 0).contains(
            RecV::Slice(c, q),
        ),
{
    let ds = s_descent(root, Seq::<PathElemV>::empty());
    let dp = q.drop_last();
    let e = q.last();
    assert(q =~= dp + seq![e]);
    lemma_resolve_concat(root, dp, seq![e]);
    let d = (match resolve(root, dp) {
        Some(m) => m,
        None => Jv::Null,
    });
    assert(resolve(root, dp) == Some(d));
    lemma_descent_complete(root, Seq::empty(), dp, d);
    assert(Seq::<PathElemV>::empty() + dp =~= dp);
    assert(ds.contains((d, dp)));
    let m = choose|m: int| 0 <= m < ds.len() && ds[m] == (d, dp);
    // the child step from `d` by `e` is one of the wildcard's outputs
    assert(seq![e].drop_first() =~= Seq::<PathElemV>::empty());
    let cs = s_seg(root, Segment::Wildcard, RecV::Slice(d, dp));
    match (e, d) {
        (PathElemV::Key(k), Jv::Obj(es)) => {
            match obj_get(es, k) {
                Some(c0) => {
                    assert(resolve(c0, seq![e].drop_first()) == Some(c0));
                    assert(c0 == c);
                    lemma_obj_get_find(es, k, c);
                    let j = choose|j: int|
                        0 <= j < es.len() && #[trigger] es[j] == (k, c);
                    crate::lemma_wildcard_object_order(root, es, dp);
                    assert(d->Obj_0 == es);
                    assert(cs[j] == RecV::Slice(es[j].1, dp.push(PathElemV::Key(es[j].0))));
                    assert(dp.push(PathElemV::Key(k)) =~= q);
                    assert(cs[j] == RecV::Slice(c, q));
                    assert(cs.contains(RecV::Slice(c, q)));
                },
                None => {
                    assert(false);
                },
            }
        },
        (PathElemV::Idx(i), Jv::Arr(xs)) => {
            assert(0 <= i < xs.len());
            assert(resolve(xs[i], seq![e].drop_first()) == Some(xs[i]));
            assert(xs[i] == c);
            crate::lemma_wildcard_array_order(root, xs, dp);
            assert(d->Arr_0 == xs);
            assert(cs[i] == RecV::Slice(xs[i], dp.push(PathElemV::Idx(i))));
            assert(dp.push(PathElemV::Idx(i)) =~= q);
            assert(cs.contains(RecV::Slice(c, q)));
        },
        _ => {
            assert(false);
        },
    }
    assert(ds[m].0 == d && ds[m].1 == dp);
    lemma_member_children(root, ds, 0, m, RecV::Slice(c, q));
}

} // verus!
