//! The JSON document model: a tagged union of null, booleans, numbers,
//! strings, arrays and objects (ordered, with insertion order preserved).
//!
//! Numbers are decimals `mant / 10^scale`; the scale is bounded so that
//! cross-multiplied comparisons fit in `i128`.
use vstd::prelude::*;

verus! {

/// Largest admitted decimal scale: `|mant| * 10^MAX_SCALE` fits in `i128`
/// for any `i64` mantissa, so comparisons never overflow.
pub const MAX_SCALE: u32 = 18;

/// A JSON number: the decimal `mant / 10^scale`.
#[derive(Clone, Copy, Debug)]
pub struct JsonNum {
    mant: i64,
    scale: u32,
}

/// `a` with its last `k` decimal digits dropped.
pub open spec fn shift_down(a: int, k: nat) -> int
    decreases k,
{
    if k == 0 {
        a
    } else {
        shift_down(a / 10, (k - 1) as nat)
    }
}

/// `10^e`.
pub open spec fn pow10(e: nat) -> int
    decreases e,
{
    if e == 0 {
        1
    } else {
        10 * pow10((e - 1) as nat)
    }
}

pub proof fn lemma_pow10_pos(e: nat)
    ensures
        pow10(e) >= 1,
    decreases e,
{
    if e > 0 {
        lemma_pow10_pos((e - 1) as nat);
    }
}

pub proof fn lemma_pow10_mono(a: nat, b: nat)
    requires
        a <= b,
    ensures
        pow10(a) <= pow10(b),
    decreases b,
{
    if a < b {
        lemma_pow10_mono(a, (b - 1) as nat);
        lemma_pow10_pos((b - 1) as nat);
    }
}

/// Numeric order on two decimals, by cross-multiplication:
/// `m1/10^s1 < m2/10^s2  <==>  m1*10^s2 < m2*10^s1`.
pub open spec fn num_lt(m1: int, s1: nat, m2: int, s2: nat) -> bool {
    m1 * pow10(s2) < m2 * pow10(s1)
}

pub open spec fn num_le(m1: int, s1: nat, m2: int, s2: nat) -> bool {
    m1 * pow10(s2) <= m2 * pow10(s1)
}

/// Numeric equality of two decimals.
pub open spec fn num_eq(m1: int, s1: nat, m2: int, s2: nat) -> bool {
    m1 * pow10(s2) == m2 * pow10(s1)
}

impl JsonNum {
    #[verifier::type_invariant]
    pub closed spec fn inv(self) -> bool {
        self.scale <= MAX_SCALE
    }

    pub closed spec fn mant_spec(self) -> int {
        self.mant as int
    }

    pub closed spec fn scale_spec(self) -> nat {
        self.scale as nat
    }

    /// The decimal `mant / 10^scale`. A scale beyond `MAX_SCALE` is brought
    /// back into range by dropping one trailing digit of the mantissa per
    /// excess place ([`shift_down`] of the magnitude).
    pub fn new(mant: i64, scale: u32) -> (r: JsonNum)
        ensures
            r.scale_spec() == (if scale <= MAX_SCALE {
                scale as nat
            } else {
                MAX_SCALE as nat
            }),
            scale <= MAX_SCALE ==> r.mant_spec() == mant,
            scale > MAX_SCALE ==> r.mant_spec() == (if mant >= 0 {
                shift_down(mant as int, (scale - MAX_SCALE) as nat)
            } else {
                -shift_down(-(mant as int), (scale - MAX_SCALE) as nat)
            }),
    {
        if scale <= MAX_SCALE {
            return JsonNum { mant, scale };
        }
        let k = scale - MAX_SCALE;
        let neg = mant < 0;
        let mut a: u64 = if neg {
            (-(mant as i128)) as u64
        } else {
            mant as u64
        };
        let ghost a0 = a as int;
        let mut j: u32 = 0;
        while j < k
            invariant
                j <= k,
                a <= a0,
                0 <= a0 <= 0x8000_0000_0000_0000u64,
                shift_down(a0, k as nat) == shift_down(a as int, (k - j) as nat),
            decreases k - j,
        {
            a = a / 10;
            j = j + 1;
        }
        let m2: i64 = if neg {
            (-(a as i128)) as i64
        } else {
            a as i64
        };
        JsonNum { mant: m2, scale: MAX_SCALE }
    }

    /// The integer `n`.
    pub fn integer(n: i64) -> (r: JsonNum)
        ensures
            r.mant_spec() == n,
            r.scale_spec() == 0,
    {
        JsonNum { mant: n, scale: 0 }
    }

    pub fn mant(&self) -> (r: i64)
        ensures
            r == self.mant_spec(),
    {
        self.mant
    }

    pub fn scale(&self) -> (r: u32)
        ensures
            r == self.scale_spec(),
            r <= MAX_SCALE,
    {
        proof {
            use_type_invariant(self);
        }
        self.scale
    }
}

/// A JSON value.
#[derive(Debug)]
pub enum Json {
    Null,
    Bool(bool),
    Num(JsonNum),
    Str(String),
    Arr(Vec<Json>),
    Obj(Vec<(String, Json)>),
}

/// The mathematical model of a JSON value: sequences in place of vectors,
/// unbounded integers in place of machine integers.
#[verifier::ext_equal]
pub enum Jv {
    Null,
    Bool(bool),
    /// The decimal `mant / 10^scale`: `Num(mant, scale)`.
    Num(int, nat),
    Str(Seq<char>),
    Arr(Seq<Jv>),
    Obj(Seq<(Seq<char>, Jv)>),
}

impl Json {
    /// The model of this value.
    pub open spec fn jv(self) -> Jv
        decreases self,
    {
        match self {
            Json::Null => Jv::Null,
            Json::Bool(b) => Jv::Bool(b),
            Json::Num(n) => Jv::Num(n.mant_spec(), n.scale_spec()),
            Json::Str(s) => Jv::Str(s@),
            Json::Arr(items) => Jv::Arr(
                Seq::new(
                    items@.len(),
                    |i: int|
                        if 0 <= i < items@.len() {
                            items@[i].jv()
                        } else {
                            Jv::Null
                        },
                ),
            ),
            Json::Obj(entries) => Jv::Obj(
                Seq::new(
                    entries@.len(),
                    |i: int|
                        if 0 <= i < entries@.len() {
                            (entries@[i].0@, entries@[i].1.jv())
                        } else {
                            (Seq::<char>::empty(), Jv::Null)
                        },
                ),
            ),
        }
    }

    /// The integer `n`.
    pub fn integer(n: i64) -> (r: Json)
        ensures
            r@ == Jv::Num(n as int, 0),
    {
        Json::Num(JsonNum::integer(n))
    }

    /// The decimal `mant / 10^scale`; a scale beyond `MAX_SCALE` drops one
    /// trailing mantissa digit per excess place.
    pub fn dec(mant: i64, scale: u32) -> (r: Json)
        ensures
            scale <= MAX_SCALE ==> r@ == Jv::Num(mant as int, scale as nat),
            scale > MAX_SCALE ==> r@ == Jv::Num(
                (if mant >= 0 {
                    shift_down(mant as int, (scale - MAX_SCALE) as nat)
                } else {
                    -shift_down(-(mant as int), (scale - MAX_SCALE) as nat)
                }),
                MAX_SCALE as nat,
            ),
    {
        Json::Num(JsonNum::new(mant, scale))
    }

    /// The string `s`.
    pub fn string(s: &str) -> (r: Json)
        ensures
            r@ == Jv::Str(s@),
    {
        Json::Str(s.to_owned())
    }
}

impl View for Json {
    type V = Jv;

    open spec fn view(&self) -> Jv {
        self.jv()
    }
}

/// Lexicographic (codepoint) order on strings.
pub open spec fn str_lt(x: Seq<char>, y: Seq<char>) -> bool
    decreases x.len(),
{
    if y.len() == 0 {
        false
    } else if x.len() == 0 {
        true
    } else if x[0] != y[0] {
        x[0] < y[0]
    } else {
        str_lt(x.drop_first(), y.drop_first())
    }
}

/// Semantic equality of two JSON values: numbers compare numerically, all
/// else structurally; object entries compare pairwise in insertion order.
pub open spec fn jv_eq(a: Jv, b: Jv) -> bool
    decreases a,
{
    match (a, b) {
        (Jv::Null, Jv::Null) => true,
        (Jv::Bool(x), Jv::Bool(y)) => x == y,
        (Jv::Num(m1, s1), Jv::Num(m2, s2)) => num_eq(m1, s1, m2, s2),
        (Jv::Str(x), Jv::Str(y)) => x == y,
        (Jv::Arr(x), Jv::Arr(y)) => x.len() == y.len() && (forall|i: int|
            0 <= i < x.len() ==> jv_eq(#[trigger] x[i], y[i])),
        (Jv::Obj(x), Jv::Obj(y)) => x.len() == y.len() && (forall|i: int|
            0 <= i < x.len() ==> (#[trigger] x[i]).0 == y[i].0 && jv_eq(x[i].1, y[i].1)),
        _ => false,
    }
}

/// Order on two scalars of the same kind: numbers numerically, strings
/// lexicographically, `false < true`; anything else is unordered.
pub open spec fn jv_lt(a: Jv, b: Jv) -> bool {
    match (a, b) {
        (Jv::Num(m1, s1), Jv::Num(m2, s2)) => num_lt(m1, s1, m2, s2),
        (Jv::Str(x), Jv::Str(y)) => str_lt(x, y),
        (Jv::Bool(x), Jv::Bool(y)) => !x && y,
        _ => false,
    }
}

/// Non-strict form of [`jv_lt`], again only within one kind.
pub open spec fn jv_le(a: Jv, b: Jv) -> bool {
    match (a, b) {
        (Jv::Num(m1, s1), Jv::Num(m2, s2)) => num_le(m1, s1, m2, s2),
        (Jv::Str(x), Jv::Str(y)) => str_lt(x, y) || x == y,
        (Jv::Bool(x), Jv::Bool(y)) => !x || y,
        _ => false,
    }
}

proof fn lemma_mul_i128_in_range(m: int, p: int)
    requires
        -0x8000_0000_0000_0000 <= m <= 0x7fff_ffff_ffff_ffff,
        1 <= p <= 1_000_000_000_000_000_000,
    ensures
        -0x8000_0000_0000_0000_0000_0000_0000_0000 <= m * p
            <= 0x7fff_ffff_ffff_ffff_ffff_ffff_ffff_ffff,
{
    assert(-0x8000_0000_0000_0000 * 1_000_000_000_000_000_000 <= m * p
        <= 0x7fff_ffff_ffff_ffff * 1_000_000_000_000_000_000) by (nonlinear_arith)
        requires
            -0x8000_0000_0000_0000 <= m <= 0x7fff_ffff_ffff_ffff,
            1 <= p <= 1_000_000_000_000_000_000,
    ;
}

pub proof fn lemma_pow10_val()
    ensures
        pow10(18) == 1_000_000_000_000_000_000,
{
    reveal_with_fuel(pow10, 20);
}

/// `10^e` as a machine integer.
fn pow10_i128(e: u32) -> (r: i128)
    requires
        e <= MAX_SCALE,
    ensures
        r == pow10(e as nat),
        1 <= r <= 1_000_000_000_000_000_000,
{
    proof {
        lemma_pow10_val();
    }
    let mut r: i128 = 1;
    let mut i: u32 = 0;
    while i < e
        invariant
            i <= e <= MAX_SCALE,
            r == pow10(i as nat),
            1 <= r <= 1_000_000_000_000_000_000,
        decreases e - i,
    {
        proof {
            lemma_pow10_val();
            lemma_pow10_mono((i + 1) as nat, 18nat);
            lemma_pow10_pos(i as nat);
        }
        r = r * 10;
        i = i + 1;
    }
    proof {
        lemma_pow10_pos(e as nat);
    }
    r
}

/// The two cross products `m1*10^s2` and `m2*10^s1` that order the decimals.
fn num_cross(a: JsonNum, b: JsonNum) -> (r: (i128, i128))
    ensures
        r.0 == a.mant_spec() * pow10(b.scale_spec()),
        r.1 == b.mant_spec() * pow10(a.scale_spec()),
{
    proof {
        use_type_invariant(a);
        use_type_invariant(b);
    }
    let pa = pow10_i128(a.scale());
    let pb = pow10_i128(b.scale());
    proof {
        lemma_mul_i128_in_range(a.mant_spec(), pow10(b.scale_spec()));
        lemma_mul_i128_in_range(b.mant_spec(), pow10(a.scale_spec()));
    }
    let x = (a.mant() as i128) * pb;
    let y = (b.mant() as i128) * pa;
    (x, y)
}

pub fn num_eq_exec(a: JsonNum, b: JsonNum) -> (r: bool)
    ensures
        r == num_eq(a.mant_spec(), a.scale_spec(), b.mant_spec(), b.scale_spec()),
{
    let (x, y) = num_cross(a, b);
    x == y
}

pub fn num_lt_exec(a: JsonNum, b: JsonNum) -> (r: bool)
    ensures
        r == num_lt(a.mant_spec(), a.scale_spec(), b.mant_spec(), b.scale_spec()),
{
    let (x, y) = num_cross(a, b);
    x < y
}

pub fn num_le_exec(a: JsonNum, b: JsonNum) -> (r: bool)
    ensures
        r == num_le(a.mant_spec(), a.scale_spec(), b.mant_spec(), b.scale_spec()),
{
    let (x, y) = num_cross(a, b);
    x <= y
}

/// Lexicographic comparison of two strings.
pub fn str_lt_exec(x: &str, y: &str) -> (r: bool)
    ensures
        r == str_lt(x@, y@),
{
    let xl = x.unicode_len();
    let yl = y.unicode_len();
    proof {
        assert(x@.skip(0) =~= x@);
        assert(y@.skip(0) =~= y@);
    }
    let mut i: usize = 0;
    while i < xl && i < yl
        invariant
            xl == x@.len(),
            yl == y@.len(),
            0 <= i <= xl,
            i <= yl,
            forall|j: int| 0 <= j < i ==> x@[j] == y@[j],
            str_lt(x@, y@) == str_lt(x@.skip(i as int), y@.skip(i as int)),
        decreases xl - i,
    {
        let cx = x.get_char(i);
        let cy = y.get_char(i);
        if cx != cy {
            proof {
                assert(x@.skip(i as int)[0] == x@[i as int]);
                assert(y@.skip(i as int)[0] == y@[i as int]);
            }
            return cx < cy;
        }
        proof {
            assert(x@.skip(i as int).drop_first() =~= x@.skip(i + 1));
            assert(y@.skip(i as int).drop_first() =~= y@.skip(i + 1));
            assert(x@.skip(i as int)[0] == x@[i as int]);
            assert(y@.skip(i as int)[0] == y@[i as int]);
        }
        i = i + 1;
    }
    proof {
        assert(x@.skip(i as int).len() == xl - i);
        assert(y@.skip(i as int).len() == yl - i);
    }
    xl < yl
}

/// The value under the first entry of `es` whose key is `k`, if any.
pub open spec fn obj_get(es: Seq<(Seq<char>, Jv)>, k: Seq<char>) -> Option<Jv>
    decreases es.len(),
{
    if es.len() == 0 {
        Option::None
    } else if es[0].0 == k {
        Option::Some(es[0].1)
    } else {
        obj_get(es.drop_first(), k)
    }
}

/// Semantic equality of two JSON values.
pub fn json_eq(a: &Json, b: &Json) -> (r: bool)
    ensures
        r == jv_eq(a@, b@),
    decreases *a,
{
    match (a, b) {
        (Json::Null, Json::Null) => true,
        (Json::Bool(x), Json::Bool(y)) => *x == *y,
        (Json::Num(x), Json::Num(y)) => num_eq_exec(*x, *y),
        (Json::Str(x), Json::Str(y)) => {
            let r = *x == *y;
            r
        },
        (Json::Arr(x), Json::Arr(y)) => {
            proof {
                assert(a@->Arr_0.len() == x@.len());
                assert(b@->Arr_0.len() == y@.len());
            }
            if x.len() != y.len() {
                return false;
            }
            let mut i: usize = 0;
            while i < x.len()
                invariant
                    x@.len() == y@.len(),
                    0 <= i <= x@.len(),
                    a == Json::Arr(*x),
                    b == Json::Arr(*y),
                    forall|j: int| 0 <= j < i ==> jv_eq(#[trigger] a@->Arr_0[j], b@->Arr_0[j]),
                decreases x@.len() - i,
            {
                proof {
                    assert(decreases_to!(*a => a->Arr_0));
                    assert(decreases_to!(a->Arr_0 => a->Arr_0@));
                    assert(decreases_to!(a->Arr_0@ => a->Arr_0@[i as int]));
                    assert(a->Arr_0@[i as int] == x@[i as int]);
                    assert(a@->Arr_0[i as int] == x@[i as int]@);
                    assert(b@->Arr_0[i as int] == y@[i as int]@);
                }
                if !json_eq(&x[i], &y[i]) {
                    proof {
                        assert(!jv_eq(a@->Arr_0[i as int], b@->Arr_0[i as int]));
                    }
                    return false;
                }
                i = i + 1;
            }
            proof {
                assert(a@->Arr_0.len() == x@.len());
                assert(b@->Arr_0.len() == y@.len());
                assert(jv_eq(a@, b@));
            }
            true
        },
        (Json::Obj(x), Json::Obj(y)) => {
            proof {
                assert(a@->Obj_0.len() == x@.len());
                assert(b@->Obj_0.len() == y@.len());
            }
            if x.len() != y.len() {
                return false;
            }
            let mut i: usize = 0;
            while i < x.len()
                invariant
                    x@.len() == y@.len(),
                    0 <= i <= x@.len(),
                    a == Json::Obj(*x),
                    b == Json::Obj(*y),
                    forall|j: int| #![trigger x@[j], y@[j]]
                        0 <= j < i ==> x@[j].0@ == y@[j].0@ && jv_eq(
                            x@[j].1@,
                            y@[j].1@,
                        ),
                decreases x@.len() - i,
            {
                proof {
                    assert(decreases_to!(*a => a->Obj_0));
                    assert(decreases_to!(a->Obj_0 => a->Obj_0@));
                    assert(decreases_to!(a->Obj_0@ => a->Obj_0@[i as int]));
                    assert(decreases_to!(a->Obj_0@[i as int] => a->Obj_0@[i as int].1));
                    assert(a->Obj_0@[i as int] == x@[i as int]);
                    assert(a@->Obj_0[i as int] == (x@[i as int].0@, x@[i as int].1@));
                    assert(b@->Obj_0[i as int] == (y@[i as int].0@, y@[i as int].1@));
                }
                let keys_differ = !(x[i].0 == y[i].0);
                if keys_differ {
                    return false;
                }
                if !json_eq(&x[i].1, &y[i].1) {
                    return false;
                }
                i = i + 1;
            }
            proof {
                assert(a@->Obj_0.len() == x@.len());
                assert(b@->Obj_0.len() == y@.len());
                assert forall|k: int|
                    0 <= k < x@.len() implies (a@->Obj_0[k]).0 == (b@->Obj_0[k]).0 && jv_eq(
                    (a@->Obj_0[k]).1,
                    (b@->Obj_0[k]).1,
                ) by {
                    assert(a@->Obj_0[k] == (x@[k].0@, x@[k].1@));
                    assert(b@->Obj_0[k] == (y@[k].0@, y@[k].1@));
                    assert(x@[k].0@ == y@[k].0@ && jv_eq(x@[k].1@, y@[k].1@));
                }
                assert(jv_eq(a@, b@));
            }
            true
        },
        _ => false,
    }
}

impl Clone for Json {
    /// A deep copy whose model is the model of the original.
    fn clone(&self) -> (r: Json)
        ensures
            r@ == self@,
        decreases *self,
    {
        match self {
            Json::Null => Json::Null,
            Json::Bool(b) => Json::Bool(*b),
            Json::Num(n) => Json::Num(*n),
            Json::Str(s) => Json::Str(s.clone()),
            Json::Arr(items) => {
                let mut out: Vec<Json> = Vec::new();
                let mut i: usize = 0;
                while i < items.len()
                    invariant
                        0 <= i <= items@.len(),
                        out@.len() == i,
                        self == Json::Arr(*items),
                        forall|j: int| 0 <= j < i ==> #[trigger] out@[j]@ == items@[j]@,
                    decreases items@.len() - i,
                {
                    proof {
                        assert(decreases_to!(*self => self->Arr_0));
                        assert(decreases_to!(self->Arr_0 => self->Arr_0@));
                        assert(decreases_to!(self->Arr_0@ => self->Arr_0@[i as int]));
                        assert(self->Arr_0@[i as int] == items@[i as int]);
                    }
                    let c = items[i].clone();
                    out.push(c);
                    i = i + 1;
                }
                let r = Json::Arr(out);
                proof {
                    assert forall|k: int| 0 <= k < out@.len() implies r@->Arr_0[k]
                        == self@->Arr_0[k] by {
                        assert(r@->Arr_0[k] == out@[k]@);
                        assert(self@->Arr_0[k] == items@[k]@);
                    }
                    assert(r@->Arr_0 =~= self@->Arr_0);
                    assert(r@ =~= self@);
                }
                r
            },
            Json::Obj(entries) => {
                let mut out: Vec<(String, Json)> = Vec::new();
                let mut i: usize = 0;
                while i < entries.len()
                    invariant
                        0 <= i <= entries@.len(),
                        out@.len() == i,
                        self == Json::Obj(*entries),
                        forall|j: int|
                            0 <= j < i ==> (#[trigger] out@[j]).0@ == entries@[j].0@ && out@[j].1@
                                == entries@[j].1@,
                    decreases entries@.len() - i,
                {
                    proof {
                        assert(decreases_to!(*self => self->Obj_0));
                        assert(decreases_to!(self->Obj_0 => self->Obj_0@));
                        assert(decreases_to!(self->Obj_0@ => self->Obj_0@[i as int]));
                        assert(decreases_to!(self->Obj_0@[i as int] => self->Obj_0@[i as int].1));
                        assert(self->Obj_0@[i as int] == entries@[i as int]);
                    }
                    let k = entries[i].0.clone();
                    let v = entries[i].1.clone();
                    out.push((k, v));
                    i = i + 1;
                }
                let r = Json::Obj(out);
                proof {
                    assert forall|k: int| 0 <= k < out@.len() implies r@->Obj_0[k]
                        == self@->Obj_0[k] by {
                        assert(r@->Obj_0[k] == (out@[k].0@, out@[k].1@));
                        assert(self@->Obj_0[k] == (entries@[k].0@, entries@[k].1@));
                    }
                    assert(r@->Obj_0 =~= self@->Obj_0);
                    assert(r@ =~= self@);
                }
                r
            },
        }
    }
}

impl PartialEq for Json {
    /// Semantic equality ([`jv_eq`]) of the two values.
    fn eq(&self, other: &Json) -> (r: bool) {
        json_eq(self, other)
    }
}

impl vstd::std_specs::cmp::PartialEqSpecImpl for Json {
    open spec fn obeys_eq_spec() -> bool {
        true
    }

    open spec fn eq_spec(&self, other: &Json) -> bool {
        jv_eq(self@, other@)
    }
}

} // verus!
