//! The abstract syntax tree of a JSONPath expression: a path is an ordered
//! list of segments; a filter is a boolean combination of atoms over
//! operands (literals and sub-paths rooted at `$` or `@`).
use vstd::prelude::*;
use crate::json::Json;

verus! {

/// One step of a path between separators.
#[derive(Debug)]
pub enum Segment {
    /// `$`: reset the context to the document root (also valid inside
    /// filter sub-paths).
    Root,
    /// `@`: the current candidate inside a filter sub-path; the identity
    /// step, valid only as the head of such a sub-path.
    Current,
    /// `.name` / `['name']`: one object member.
    Field(String),
    /// `['a','b',...]`: several object members, in query order.
    Fields(Vec<String>),
    /// `[n]`: one array index.
    Index(i64),
    /// `[n1,n2,...]`: several array indices, in query order.
    Indices(Vec<i64>),
    /// `[start:end:step]`: a Python-style half-open slice over an array.
    Slice { start: Option<i64>, end: Option<i64>, step: i64 },
    /// `*` / `[*]`: all children.
    Wildcard,
    /// `..`: the value itself and all its transitive descendants,
    /// in pre-order.
    Descent,
    /// `..name`: member `name` of the value and of each descendant.
    DescentField(String),
    /// `[?(expr)]`: keep the candidates that satisfy the predicate.
    Filter(FilterExpr),
    /// `.length()` and any future function segment.
    Func(PathFn),
}

/// A function segment.
#[derive(Debug)]
pub enum PathFn {
    /// `length()`: the length of an array or string, or the number of
    /// matches that a search produced.
    Length,
}

/// The comparison and set operators of a filter atom.
#[derive(Clone, Copy, Debug)]
pub enum CmpOp {
    /// `==`
    Eq,
    /// `!=`
    Ne,
    /// `<`
    Lt,
    /// `<=`
    Le,
    /// `>`
    Gt,
    /// `>=`
    Ge,
    /// `~=`: the left string matches the right regular expression.
    Regex,
    /// `in`: the left value equals some element of the right array.
    In,
    /// `nin`: the left value equals no element of the right array.
    Nin,
    /// `subsetOf`: every element of the left array equals some element of
    /// the right array.
    SubsetOf,
    /// `anyOf`: the two arrays share at least one element.
    AnyOf,
    /// `noneOf`: the two arrays share no element.
    NoneOf,
}

/// A filter predicate: a boolean combination of atoms.
#[derive(Debug)]
pub enum FilterExpr {
    /// `a || b`
    Or(Box<FilterExpr>, Box<FilterExpr>),
    /// `a && b`
    And(Box<FilterExpr>, Box<FilterExpr>),
    /// `!a`
    Not(Box<FilterExpr>),
    /// A bare operand: true when it resolves to at least one value.
    Exists(Operand),
    /// `left op right`
    Cmp(CmpOp, Operand, Operand),
    /// `operand size n`: the resolved string, array or object has `n`
    /// elements.
    SizeIs(Operand, i64),
}

/// An operand of a filter atom.
#[derive(Debug)]
pub enum Operand {
    /// A JSON literal (scalar or array).
    Lit(Json),
    /// A sub-path, headed by `Root` (`$`) or `Current` (`@`).
    Path(JsonPath),
}

/// A whole path: its segments in order. A top-level path starts with
/// `Root`; a filter sub-path starts with `Root` or `Current`.
#[derive(Debug)]
pub struct JsonPath {
    pub segs: Vec<Segment>,
}


/// A segment is well formed when a slice steps forward and every filter
/// predicate is well formed.
pub open spec fn wf_seg(s: Segment) -> bool
    decreases s, 0int,
{
    match s {
        Segment::Slice { start, end, step } => step >= 1,
        Segment::Filter(e) => wf_filter(e),
        _ => true,
    }
}

/// A filter is well formed when its operands are, and the right side of
/// `~=` is a string literal whose pattern compiles.
pub open spec fn wf_filter(e: FilterExpr) -> bool
    decreases e, 0int,
{
    match e {
        FilterExpr::Or(a, b) => wf_filter(*a) && wf_filter(*b),
        FilterExpr::And(a, b) => wf_filter(*a) && wf_filter(*b),
        FilterExpr::Not(a) => wf_filter(*a),
        FilterExpr::Exists(op) => wf_operand(op),
        FilterExpr::Cmp(op, l, r) => wf_operand(l) && wf_operand(r) && (op is Regex
            ==> regex_lit(r)),
        FilterExpr::SizeIs(op, n) => wf_operand(op),
    }
}

/// Whether an operand is a string literal that compiles as a regular
/// expression.
pub open spec fn regex_lit(o: Operand) -> bool {
    match o {
        Operand::Lit(j) => j@ is Str && crate::regex_ops::regex_ok(j@->Str_0),
        _ => false,
    }
}

/// An operand is well formed when a sub-path in it is.
pub open spec fn wf_operand(o: Operand) -> bool
    decreases o, 0int,
{
    match o {
        Operand::Lit(_) => true,
        Operand::Path(jp) => wf_subpath(jp),
    }
}

/// A filter sub-path: headed by `$` or `@`, with neither appearing again,
/// every segment well formed.
pub open spec fn wf_subpath(jp: JsonPath) -> bool
    decreases jp, 0int,
{
    &&& jp.segs@.len() >= 1
    &&& (jp.segs@[0] is Root || jp.segs@[0] is Current)
    &&& (forall|i: int|
        1 <= i < jp.segs@.len() ==> !((#[trigger] jp.segs@[i]) is Root) && !(jp.segs@[i]
            is Current))
    &&& (forall|i: int| 0 <= i < jp.segs@.len() ==> wf_seg(#[trigger] jp.segs@[i]))
}

/// A whole path: headed by `$`, `$` and `@` nowhere else, every segment
/// well formed.
pub open spec fn wf_path(jp: JsonPath) -> bool {
    &&& jp.segs@.len() >= 1
    &&& jp.segs@[0] is Root
    &&& (forall|i: int|
        1 <= i < jp.segs@.len() ==> !((#[trigger] jp.segs@[i]) is Root) && !(jp.segs@[i]
            is Current))
    &&& (forall|i: int| 0 <= i < jp.segs@.len() ==> wf_seg(#[trigger] jp.segs@[i]))
}

/// The model of a segment: sequences and unbounded integers in place of
/// vectors and machine integers, so that the parser's contract can speak
/// of the tree a text compiles to.
pub enum SegV {
    Root,
    Current,
    Field(Seq<char>),
    Fields(Seq<Seq<char>>),
    Index(int),
    Indices(Seq<int>),
    Slice(Option<int>, Option<int>, int),
    Wildcard,
    Descent,
    DescentField(Seq<char>),
    Filter(FilterV),
    Length,
}

/// The model of a filter expression. The branches of `Or`/`And` (two) and
/// `Not` (one) sit in a sequence, which gives the recursion a ghost shape
/// without boxing.
pub enum FilterV {
    Or(Seq<FilterV>),
    And(Seq<FilterV>),
    Not(Seq<FilterV>),
    Exists(OperV),
    Cmp(CmpOp, OperV, OperV),
    SizeIs(OperV, int),
}

/// The model of an operand.
pub enum OperV {
    Lit(crate::json::Jv),
    Path(Seq<SegV>),
}

impl Segment {
    /// The model of this segment.
    pub open spec fn sv(self) -> SegV
        decreases self, 3int,
    {
        match self {
            Segment::Root => SegV::Root,
            Segment::Current => SegV::Current,
            Segment::Field(name) => SegV::Field(name@),
            Segment::Fields(names) => SegV::Fields(names@.map_values(|s: String| s@)),
            Segment::Index(n) => SegV::Index(n as int),
            Segment::Indices(list) => SegV::Indices(list@.map_values(|x: i64| x as int)),
            Segment::Slice { start, end, step } => SegV::Slice(
                match start {
                    Some(v) => Some(v as int),
                    None => None,
                },
                match end {
                    Some(v) => Some(v as int),
                    None => None,
                },
                step as int,
            ),
            Segment::Wildcard => SegV::Wildcard,
            Segment::Descent => SegV::Descent,
            Segment::DescentField(name) => SegV::DescentField(name@),
            Segment::Filter(e) => SegV::Filter(e.fv()),
            Segment::Func(f) => match f {
                PathFn::Length => SegV::Length,
            },
        }
    }
}

impl FilterExpr {
    /// The model of this filter expression.
    pub open spec fn fv(self) -> FilterV
        decreases self, 2int,
    {
        match self {
            FilterExpr::Or(a, b) => FilterV::Or(seq![(*a).fv(), (*b).fv()]),
            FilterExpr::And(a, b) => FilterV::And(seq![(*a).fv(), (*b).fv()]),
            FilterExpr::Not(a) => FilterV::Not(seq![(*a).fv()]),
            FilterExpr::Exists(op) => FilterV::Exists(op.ov()),
            FilterExpr::Cmp(op, l, r) => FilterV::Cmp(op, l.ov(), r.ov()),
            FilterExpr::SizeIs(op, n) => FilterV::SizeIs(op.ov(), n as int),
        }
    }
}

impl Operand {
    /// The model of this operand.
    pub open spec fn ov(self) -> OperV
        decreases self, 1int,
    {
        match self {
            Operand::Lit(j) => OperV::Lit(j@),
            Operand::Path(jp) => OperV::Path(segs_v(jp.segs@)),
        }
    }
}

/// The models of a segment list, in order.
pub open spec fn segs_v(ss: Seq<Segment>) -> Seq<SegV>
    decreases ss, 0int,
{
    Seq::new(
        ss.len(),
        |i: int|
            if 0 <= i < ss.len() {
                ss[i].sv()
            } else {
                SegV::Root
            },
    )
}

/// The model of a whole path.
pub open spec fn path_v(jp: JsonPath) -> Seq<SegV> {
    segs_v(jp.segs@)
}

/// Whether an operand model is a string literal whose pattern compiles.
pub open spec fn regex_lit_v(o: OperV) -> bool {
    match o {
        OperV::Lit(j) => j is Str && crate::regex_ops::regex_ok(j->Str_0),
        _ => false,
    }
}

} // verus!
