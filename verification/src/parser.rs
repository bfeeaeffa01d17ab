//! The parser: from the textual JSONPath expression to the AST. A path is
//! `$` followed by segments; a segment is a dotted field, a descent, a
//! bracketed selector or a function; filters are boolean combinations of
//! comparisons over literals and sub-paths. Every deviation from the
//! grammar is reported with its position; nothing is silently accepted.
use vstd::prelude::*;
use crate::ast::{
    regex_lit, wf_filter, wf_operand, wf_path, wf_seg, wf_subpath, CmpOp, FilterExpr, JsonPath,
    Operand, PathFn, Segment,
};
use crate::json::{Json, JsonNum, MAX_SCALE};

verus! {

/// Why a path text was rejected.
#[derive(Debug)]
pub enum JsonPathParserError {
    /// The text deviates from the grammar at `pos` (a character index).
    ParseError { pos: usize, msg: String },
    /// The text parses but cannot be compiled into an evaluator (a slice
    /// that does not step forward, or a regex pattern that does not
    /// compile).
    CompileError { msg: String },
}

fn perr(pos: usize, msg: &str) -> (e: JsonPathParserError)
    ensures
        e is ParseError,
{
    JsonPathParserError::ParseError { pos, msg: msg.to_owned() }
}

fn cerr(msg: &str) -> (e: JsonPathParserError)
    ensures
        e is CompileError,
{
    JsonPathParserError::CompileError { msg: msg.to_owned() }
}

/// The outcome of recognizing one construct at a position: the parsed
/// model with the position after it, a grammar rejection, or a compile
/// rejection (slice step below one, regex pattern that does not
/// compile). These functions are the grammar: `parse_json_path` is proved
/// to accept exactly the texts they accept and to build exactly the tree
/// they describe.
pub enum PRes<T> {
    POk(T, int),
    PErr,
    CErr,
}

pub open spec fn is_ws_c(c: char) -> bool {
    c == ' ' || c == '\t' || c == '\n' || c == '\r'
}

pub open spec fn is_digit_c(c: char) -> bool {
    '0' <= c && c <= '9'
}

pub open spec fn is_ident_c(c: char) -> bool {
    ('a' <= c && c <= 'z') || ('A' <= c && c <= 'Z') || ('0' <= c && c <= '9') || c == '_' || c
        == '-'
}

/// How many whitespace characters stand at `pos`.
pub open spec fn ws_count(s: Seq<char>, pos: int) -> nat
    decreases s.len() - pos,
{
    if 0 <= pos < s.len() && is_ws_c(s[pos]) {
        1 + ws_count(s, pos + 1)
    } else {
        0
    }
}

/// The first non-whitespace position at or after `pos`, never past the
/// end.
pub open spec fn sp_ws(s: Seq<char>, pos: int) -> int {
    if pos + ws_count(s, pos) > s.len() {
        s.len() as int
    } else {
        pos + ws_count(s, pos)
    }
}

/// Whether `pat` occurs in `s` at `pos`.
pub open spec fn is_at(s: Seq<char>, pos: int, pat: Seq<char>) -> bool {
    0 <= pos && pos + pat.len() <= s.len() && s.subrange(pos, pos + pat.len() as int) == pat
}

pub open spec fn sp_digits_go(s: Seq<char>, pos: int, value: int, count: int) -> PRes<(int, int)>
    decreases s.len() - pos,
{
    if 0 <= pos < s.len() && is_digit_c(s[pos]) {
        if count == 18 {
            PRes::PErr
        } else {
            sp_digits_go(s, pos + 1, value * 10 + (s[pos] as int - 48), count + 1)
        }
    } else if count == 0 {
        PRes::PErr
    } else {
        PRes::POk((value, count), pos)
    }
}

/// An unsigned run of at most 18 digits: its value and digit count.
pub open spec fn sp_digits(s: Seq<char>, pos: int) -> PRes<(int, int)> {
    sp_digits_go(s, pos, 0, 0)
}

/// A signed integer.
pub open spec fn sp_int(s: Seq<char>, pos: int) -> PRes<int> {
    let neg = 0 <= pos < s.len() && s[pos] == '-';
    let i = if neg {
        pos + 1
    } else {
        pos
    };
    match sp_digits(s, i) {
        PRes::POk(vc, np) => PRes::POk(
            if neg {
                -vc.0
            } else {
                vc.0
            },
            np,
        ),
        PRes::PErr => PRes::PErr,
        PRes::CErr => PRes::CErr,
    }
}

/// Shifting an integer part up by one decimal place per fraction digit,
/// rejecting overflow as the scanner does.
pub open spec fn sp_scale(m: int, k: int) -> Option<int>
    decreases k,
{
    if k <= 0 {
        Some(m)
    } else if m > 922_337_203_685_477_580 {
        None
    } else {
        sp_scale(m * 10, k - 1)
    }
}

/// A number literal: an integer part and an optional decimal part.
pub open spec fn sp_number(s: Seq<char>, pos: int) -> PRes<crate::json::Jv> {
    let neg = 0 <= pos < s.len() && s[pos] == '-';
    let i0 = if neg {
        pos + 1
    } else {
        pos
    };
    match sp_digits(s, i0) {
        PRes::POk(ic, a) => if a < s.len() && s[a] == '.' && a + 1 < s.len() && is_digit_c(
            s[a + 1],
        ) {
            match sp_digits(s, a + 1) {
                PRes::POk(fc, b) => match sp_scale(ic.0, fc.1) {
                    Some(m2) => if m2 > 0x7fff_ffff_ffff_ffff - fc.0 {
                        PRes::PErr
                    } else {
                        PRes::POk(
                            crate::json::Jv::Num(
                                if neg {
                                    -(m2 + fc.0)
                                } else {
                                    m2 + fc.0
                                },
                                fc.1 as nat,
                            ),
                            b,
                        )
                    },
                    None => PRes::PErr,
                },
                PRes::PErr => PRes::PErr,
                PRes::CErr => PRes::CErr,
            }
        } else {
            PRes::POk(
                crate::json::Jv::Num(
                    if neg {
                        -ic.0
                    } else {
                        ic.0
                    },
                    0,
                ),
                a,
            )
        },
        PRes::PErr => PRes::PErr,
        PRes::CErr => PRes::CErr,
    }
}

/// The position of the closing quote `q`, if any.
pub open spec fn sp_str_end(s: Seq<char>, q: char, i: int) -> Option<int>
    decreases s.len() - i,
{
    if !(0 <= i < s.len()) {
        None
    } else if s[i] == q {
        Some(i)
    } else {
        sp_str_end(s, q, i + 1)
    }
}

/// A quoted string: its characters, taken as they stand.
pub open spec fn sp_string(s: Seq<char>, pos: int) -> PRes<Seq<char>> {
    if !(0 <= pos < s.len()) {
        PRes::PErr
    } else {
        match sp_str_end(s, s[pos], pos + 1) {
            Some(e) => PRes::POk(s.subrange(pos + 1, e), e + 1),
            None => PRes::PErr,
        }
    }
}

/// The position after the identifier starting at `i`.
pub open spec fn sp_ident_end(s: Seq<char>, i: int) -> int
    decreases s.len() - i,
{
    if 0 <= i < s.len() && is_ident_c(s[i]) {
        sp_ident_end(s, i + 1)
    } else {
        i
    }
}

/// A non-empty identifier.
pub open spec fn sp_ident(s: Seq<char>, pos: int) -> PRes<Seq<char>> {
    let e = sp_ident_end(s, pos);
    if e == pos {
        PRes::PErr
    } else {
        PRes::POk(s.subrange(pos, e), e)
    }
}

/// A scalar JSON literal.
pub open spec fn sp_scalar(s: Seq<char>, pos: int) -> PRes<crate::json::Jv> {
    if !(0 <= pos < s.len()) {
        PRes::PErr
    } else {
        let c = s[pos];
        if c == '\'' || c == '"' {
            match sp_string(s, pos) {
                PRes::POk(t, np) => PRes::POk(crate::json::Jv::Str(t), np),
                PRes::PErr => PRes::PErr,
                PRes::CErr => PRes::CErr,
            }
        } else if c == '-' || is_digit_c(c) {
            sp_number(s, pos)
        } else if is_at(s, pos, "true"@) {
            PRes::POk(crate::json::Jv::Bool(true), pos + 4)
        } else if is_at(s, pos, "false"@) {
            PRes::POk(crate::json::Jv::Bool(false), pos + 5)
        } else if is_at(s, pos, "null"@) {
            PRes::POk(crate::json::Jv::Null, pos + 4)
        } else {
            PRes::PErr
        }
    }
}

/// The elements of an array literal after the first bracket, the scalars
/// read so far in `acc`.
pub open spec fn sp_items(s: Seq<char>, acc: Seq<crate::json::Jv>, pos: int) -> PRes<
    crate::json::Jv,
>
    decreases s.len() - pos, 1int,
{
    match sp_scalar(s, pos) {
        PRes::POk(j, np) => {
            let i2 = sp_ws(s, np);
            if i2 < s.len() && s[i2] == ',' {
                let i3 = sp_ws(s, i2 + 1);
                if i3 > pos {
                    sp_items(s, acc.push(j), i3)
                } else {
                    PRes::PErr
                }
            } else if i2 < s.len() && s[i2] == ']' {
                PRes::POk(crate::json::Jv::Arr(acc.push(j)), i2 + 1)
            } else {
                PRes::PErr
            }
        },
        PRes::PErr => PRes::PErr,
        PRes::CErr => PRes::CErr,
    }
}

/// A literal operand: a scalar or an array of scalars.
pub open spec fn sp_literal(s: Seq<char>, pos: int) -> PRes<crate::json::Jv>
    decreases s.len() - pos, 2int,
{
    if 0 <= pos < s.len() && s[pos] == '[' {
        let i = sp_ws(s, pos + 1);
        if i < s.len() && s[i] == ']' {
            PRes::POk(crate::json::Jv::Arr(Seq::empty()), i + 1)
        } else {
            sp_items(s, Seq::empty(), i)
        }
    } else {
        sp_scalar(s, pos)
    }
}

/// A list of quoted keys after the first one's opening quote, keys read
/// so far in `acc`: one key is a `Field`, several are `Fields`.
pub open spec fn sp_keys(s: Seq<char>, acc: Seq<Seq<char>>, pos: int) -> PRes<crate::ast::SegV>
    decreases s.len() - pos,
{
    if 0 <= pos < s.len() && (s[pos] == '\'' || s[pos] == '"') {
        match sp_string(s, pos) {
            PRes::POk(name, np) => {
                let i = sp_ws(s, np);
                if i < s.len() && s[i] == ',' {
                    let i2 = sp_ws(s, i + 1);
                    if i2 > pos {
                        sp_keys(s, acc.push(name), i2)
                    } else {
                        PRes::PErr
                    }
                } else if i < s.len() && s[i] == ']' {
                    PRes::POk(
                        if acc.push(name).len() == 1 {
                            crate::ast::SegV::Field(name)
                        } else {
                            crate::ast::SegV::Fields(acc.push(name))
                        },
                        i + 1,
                    )
                } else {
                    PRes::PErr
                }
            },
            PRes::PErr => PRes::PErr,
            PRes::CErr => PRes::CErr,
        }
    } else {
        PRes::PErr
    }
}

/// A list of indices, those read so far in `acc`: one is an `Index`,
/// several are `Indices`.
pub open spec fn sp_idxs(s: Seq<char>, acc: Seq<int>, pos: int) -> PRes<crate::ast::SegV>
    decreases s.len() - pos,
{
    if 0 <= pos < s.len() && s[pos] == ',' {
        match sp_int(s, sp_ws(s, pos + 1)) {
            PRes::POk(v, np) => {
                let i = sp_ws(s, np);
                if i > pos {
                    sp_idxs(s, acc.push(v), i)
                } else {
                    PRes::PErr
                }
            },
            PRes::PErr => PRes::PErr,
            PRes::CErr => PRes::CErr,
        }
    } else if 0 <= pos < s.len() && s[pos] == ']' {
        PRes::POk(
            if acc.len() == 1 {
                crate::ast::SegV::Index(acc[0])
            } else {
                crate::ast::SegV::Indices(acc)
            },
            pos + 1,
        )
    } else {
        PRes::PErr
    }
}

/// The rest of an index selector once the optional first integer is
/// read: a slice when a colon follows, else an index list.
pub open spec fn sp_sel(s: Seq<char>, first: Option<int>, i: int) -> PRes<crate::ast::SegV> {
    if 0 <= i < s.len() && s[i] == ':' {
        let i1 = sp_ws(s, i + 1);
        let after_end: PRes<(Option<int>, int)> = if i1 < s.len() && (is_digit_c(s[i1]) || s[i1]
            == '-') {
            match sp_int(s, i1) {
                PRes::POk(v, np) => PRes::POk((Some(v), sp_ws(s, np)), 0),
                PRes::PErr => PRes::PErr,
                PRes::CErr => PRes::CErr,
            }
        } else {
            PRes::POk((None, i1), 0)
        };
        match after_end {
            PRes::POk(ei, _) => {
                let i2 = ei.1;
                let after_step: PRes<(int, int)> = if i2 < s.len() && s[i2] == ':' {
                    let i3 = sp_ws(s, i2 + 1);
                    if i3 < s.len() && (is_digit_c(s[i3]) || s[i3] == '-') {
                        match sp_int(s, i3) {
                            PRes::POk(v, np) => PRes::POk((v, sp_ws(s, np)), 0),
                            PRes::PErr => PRes::PErr,
                            PRes::CErr => PRes::CErr,
                        }
                    } else {
                        PRes::POk((1, i3), 0)
                    }
                } else {
                    PRes::POk((1, i2), 0)
                };
                match after_step {
                    PRes::POk(sv, _) => {
                        let i4 = sv.1;
                        if !(i4 < s.len() && s[i4] == ']') {
                            PRes::PErr
                        } else if sv.0 < 1 {
                            PRes::CErr
                        } else {
                            PRes::POk(crate::ast::SegV::Slice(first, ei.0, sv.0), i4 + 1)
                        }
                    },
                    PRes::PErr => PRes::PErr,
                    PRes::CErr => PRes::CErr,
                }
            },
            PRes::PErr => PRes::PErr,
            PRes::CErr => PRes::CErr,
        }
    } else {
        match first {
            Some(f) => sp_idxs(s, seq![f], i),
            None => PRes::PErr,
        }
    }
}

/// One or more segments at a `.` or `[`.
pub open spec fn sp_segment(s: Seq<char>, pos: int) -> PRes<Seq<crate::ast::SegV>>
    decreases s.len() - pos, 6int,
{
    if !(0 <= pos < s.len()) {
        PRes::PErr
    } else {
        let c = s[pos];
        if c == '[' {
            sp_bracket(s, pos)
        } else if c != '.' {
            PRes::PErr
        } else if pos + 1 < s.len() && s[pos + 1] == '.' {
            if pos + 2 >= s.len() {
                PRes::PErr
            } else {
                let c2 = s[pos + 2];
                if c2 == '*' {
                    PRes::POk(seq![crate::ast::SegV::Descent, crate::ast::SegV::Wildcard], pos + 3)
                } else if c2 == '[' {
                    match sp_bracket(s, pos + 2) {
                        PRes::POk(parts, np) => PRes::POk(
                            seq![crate::ast::SegV::Descent] + parts,
                            np,
                        ),
                        PRes::PErr => PRes::PErr,
                        PRes::CErr => PRes::CErr,
                    }
                } else {
                    match sp_ident(s, pos + 2) {
                        PRes::POk(name, np) => PRes::POk(
                            seq![crate::ast::SegV::DescentField(name)],
                            np,
                        ),
                        PRes::PErr => PRes::PErr,
                        PRes::CErr => PRes::CErr,
                    }
                }
            }
        } else if pos + 1 >= s.len() {
            PRes::PErr
        } else {
            let c1 = s[pos + 1];
            if c1 == '*' {
                PRes::POk(seq![crate::ast::SegV::Wildcard], pos + 2)
            } else if c1 == '[' {
                sp_bracket(s, pos + 1)
            } else {
                match sp_ident(s, pos + 1) {
                    PRes::POk(name, np) => if is_at(s, np, "()"@) {
                        if name == "length"@ {
                            PRes::POk(seq![crate::ast::SegV::Length], np + 2)
                        } else {
                            PRes::PErr
                        }
                    } else {
                        PRes::POk(seq![crate::ast::SegV::Field(name)], np)
                    },
                    PRes::PErr => PRes::PErr,
                    PRes::CErr => PRes::CErr,
                }
            }
        }
    }
}

/// A bracketed selector: `[*]`, a filter, quoted keys, indices or a
/// slice.
pub open spec fn sp_bracket(s: Seq<char>, pos: int) -> PRes<Seq<crate::ast::SegV>>
    decreases s.len() - pos, 5int,
{
    if !(0 <= pos < s.len() && s[pos] == '[') {
        PRes::PErr
    } else {
        let start = sp_ws(s, pos + 1);
        if start >= s.len() {
            PRes::PErr
        } else {
            let c = s[start];
            if c == '*' {
                let after = sp_ws(s, start + 1);
                if after < s.len() && s[after] == ']' {
                    PRes::POk(seq![crate::ast::SegV::Wildcard], after + 1)
                } else {
                    PRes::PErr
                }
            } else if c == '?' {
                if !(start + 1 < s.len() && s[start + 1] == '(') {
                    PRes::PErr
                } else {
                    match sp_or(s, sp_ws(s, start + 2)) {
                        PRes::POk(fv, np) => {
                            let after = sp_ws(s, np);
                            if !(after < s.len() && s[after] == ')') {
                                PRes::PErr
                            } else {
                                let close = sp_ws(s, after + 1);
                                if !(close < s.len() && s[close] == ']') {
                                    PRes::PErr
                                } else {
                                    PRes::POk(seq![crate::ast::SegV::Filter(fv)], close + 1)
                                }
                            }
                        },
                        PRes::PErr => PRes::PErr,
                        PRes::CErr => PRes::CErr,
                    }
                }
            } else if c == '\'' || c == '"' {
                match sp_keys(s, Seq::empty(), start) {
                    PRes::POk(seg, np) => PRes::POk(seq![seg], np),
                    PRes::PErr => PRes::PErr,
                    PRes::CErr => PRes::CErr,
                }
            } else if c != ':' {
                match sp_int(s, start) {
                    PRes::POk(v, np) => match sp_sel(s, Some(v), sp_ws(s, np)) {
                        PRes::POk(seg, np2) => PRes::POk(seq![seg], np2),
                        PRes::PErr => PRes::PErr,
                        PRes::CErr => PRes::CErr,
                    },
                    PRes::PErr => PRes::PErr,
                    PRes::CErr => PRes::CErr,
                }
            } else {
                match sp_sel(s, None, start) {
                    PRes::POk(seg, np2) => PRes::POk(seq![seg], np2),
                    PRes::PErr => PRes::PErr,
                    PRes::CErr => PRes::CErr,
                }
            }
        }
    }
}

/// `a || b || ...`
pub open spec fn sp_or(s: Seq<char>, pos: int) -> PRes<crate::ast::FilterV>
    decreases s.len() - pos, 4int,
{
    match sp_and(s, pos) {
        PRes::POk(a, np) => if pos < np <= s.len() {
            sp_or_rest(s, a, np)
        } else {
            PRes::PErr
        },
        PRes::PErr => PRes::PErr,
        PRes::CErr => PRes::CErr,
    }
}

pub open spec fn sp_or_rest(s: Seq<char>, acc: crate::ast::FilterV, i: int) -> PRes<
    crate::ast::FilterV,
>
    decreases s.len() - i, 4int,
{
    let j = sp_ws(s, i);
    if i <= s.len() && j + 2 <= s.len() && is_at(s, j, "||"@) {
        match sp_and(s, sp_ws(s, j + 2)) {
            PRes::POk(b, np2) => if i < np2 <= s.len() {
                sp_or_rest(s, crate::ast::FilterV::Or(seq![acc, b]), np2)
            } else {
                PRes::PErr
            },
            PRes::PErr => PRes::PErr,
            PRes::CErr => PRes::CErr,
        }
    } else {
        PRes::POk(acc, i)
    }
}

/// `a && b && ...`
pub open spec fn sp_and(s: Seq<char>, pos: int) -> PRes<crate::ast::FilterV>
    decreases s.len() - pos, 3int,
{
    match sp_not(s, pos) {
        PRes::POk(a, np) => if pos < np <= s.len() {
            sp_and_rest(s, a, np)
        } else {
            PRes::PErr
        },
        PRes::PErr => PRes::PErr,
        PRes::CErr => PRes::CErr,
    }
}

pub open spec fn sp_and_rest(s: Seq<char>, acc: crate::ast::FilterV, i: int) -> PRes<
    crate::ast::FilterV,
>
    decreases s.len() - i, 3int,
{
    let j = sp_ws(s, i);
    if i <= s.len() && j + 2 <= s.len() && is_at(s, j, "&&"@) {
        match sp_not(s, sp_ws(s, j + 2)) {
            PRes::POk(b, np2) => if i < np2 <= s.len() {
                sp_and_rest(s, crate::ast::FilterV::And(seq![acc, b]), np2)
            } else {
                PRes::PErr
            },
            PRes::PErr => PRes::PErr,
            PRes::CErr => PRes::CErr,
        }
    } else {
        PRes::POk(acc, i)
    }
}

/// `!atom` or an atom.
pub open spec fn sp_not(s: Seq<char>, pos: int) -> PRes<crate::ast::FilterV>
    decreases s.len() - pos, 2int,
{
    if 0 <= pos < s.len() && s[pos] == '!' {
        match sp_atom(s, sp_ws(s, pos + 1)) {
            PRes::POk(f, np) => PRes::POk(crate::ast::FilterV::Not(seq![f]), np),
            PRes::PErr => PRes::PErr,
            PRes::CErr => PRes::CErr,
        }
    } else {
        sp_atom(s, pos)
    }
}

/// The right side of a comparison, and the regex compile-time check.
pub open spec fn sp_cmp_tail(
    s: Seq<char>,
    op: CmpOp,
    lv: crate::ast::OperV,
    rp: int,
) -> PRes<crate::ast::FilterV>
    decreases s.len() - rp, 1int,
{
    match sp_operand(s, rp) {
        PRes::POk(r, np2) => if op is Regex && !crate::ast::regex_lit_v(r) {
            PRes::CErr
        } else {
            PRes::POk(crate::ast::FilterV::Cmp(op, lv, r), np2)
        },
        PRes::PErr => PRes::PErr,
        PRes::CErr => PRes::CErr,
    }
}

/// A parenthesized filter, a comparison, a `size` test, or a bare
/// existence test.
pub open spec fn sp_atom(s: Seq<char>, pos: int) -> PRes<crate::ast::FilterV>
    decreases s.len() - pos, 1int,
{
    if 0 <= pos < s.len() && s[pos] == '(' {
        match sp_or(s, sp_ws(s, pos + 1)) {
            PRes::POk(inner, np) => {
                let after = sp_ws(s, np);
                if after < s.len() && s[after] == ')' {
                    PRes::POk(inner, after + 1)
                } else {
                    PRes::PErr
                }
            },
            PRes::PErr => PRes::PErr,
            PRes::CErr => PRes::CErr,
        }
    } else {
        match sp_operand(s, pos) {
            PRes::POk(l, np) => {
                let i = sp_ws(s, np);
                if is_at(s, i, "=="@) {
                    let rp = sp_ws(s, i + 2);
                    if rp > pos {
                        sp_cmp_tail(s, CmpOp::Eq, l, rp)
                    } else {
                        PRes::PErr
                    }
                } else if is_at(s, i, "!="@) {
                    let rp = sp_ws(s, i + 2);
                    if rp > pos {
                        sp_cmp_tail(s, CmpOp::Ne, l, rp)
                    } else {
                        PRes::PErr
                    }
                } else if is_at(s, i, "<="@) {
                    let rp = sp_ws(s, i + 2);
                    if rp > pos {
                        sp_cmp_tail(s, CmpOp::Le, l, rp)
                    } else {
                        PRes::PErr
                    }
                } else if is_at(s, i, ">="@) {
                    let rp = sp_ws(s, i + 2);
                    if rp > pos {
                        sp_cmp_tail(s, CmpOp::Ge, l, rp)
                    } else {
                        PRes::PErr
                    }
                } else if is_at(s, i, "~="@) {
                    let rp = sp_ws(s, i + 2);
                    if rp > pos {
                        sp_cmp_tail(s, CmpOp::Regex, l, rp)
                    } else {
                        PRes::PErr
                    }
                } else if i < s.len() && s[i] == '<' {
                    let rp = sp_ws(s, i + 1);
                    if rp > pos {
                        sp_cmp_tail(s, CmpOp::Lt, l, rp)
                    } else {
                        PRes::PErr
                    }
                } else if i < s.len() && s[i] == '>' {
                    let rp = sp_ws(s, i + 1);
                    if rp > pos {
                        sp_cmp_tail(s, CmpOp::Gt, l, rp)
                    } else {
                        PRes::PErr
                    }
                } else if is_at(s, i, "nin"@) {
                    let rp = sp_ws(s, i + 3);
                    if rp > pos {
                        sp_cmp_tail(s, CmpOp::Nin, l, rp)
                    } else {
                        PRes::PErr
                    }
                } else if is_at(s, i, "in"@) {
                    let rp = sp_ws(s, i + 2);
                    if rp > pos {
                        sp_cmp_tail(s, CmpOp::In, l, rp)
                    } else {
                        PRes::PErr
                    }
                } else if is_at(s, i, "subsetOf"@) {
                    let rp = sp_ws(s, i + 8);
                    if rp > pos {
                        sp_cmp_tail(s, CmpOp::SubsetOf, l, rp)
                    } else {
                        PRes::PErr
                    }
                } else if is_at(s, i, "anyOf"@) {
                    let rp = sp_ws(s, i + 5);
                    if rp > pos {
                        sp_cmp_tail(s, CmpOp::AnyOf, l, rp)
                    } else {
                        PRes::PErr
                    }
                } else if is_at(s, i, "noneOf"@) {
                    let rp = sp_ws(s, i + 6);
                    if rp > pos {
                        sp_cmp_tail(s, CmpOp::NoneOf, l, rp)
                    } else {
                        PRes::PErr
                    }
                } else if is_at(s, i, "size"@) {
                    match sp_int(s, sp_ws(s, i + 4)) {
                        PRes::POk(v, np2) => PRes::POk(crate::ast::FilterV::SizeIs(l, v), np2),
                        PRes::PErr => PRes::PErr,
                        PRes::CErr => PRes::CErr,
                    }
                } else {
                    PRes::POk(crate::ast::FilterV::Exists(l), np)
                }
            },
            PRes::PErr => PRes::PErr,
            PRes::CErr => PRes::CErr,
        }
    }
}

/// The remaining segments of a sub-path, appended onto those read so
/// far.
fn p_subsegs(s: &str, n: usize, segs: Vec<Segment>, pos: usize) -> (r: Result<
    (Vec<Segment>, usize),
    JsonPathParserError,
>)
    requires
        pos <= n,
        n == s@.len(),
        segs@.len() >= 1,
        segs@[0] is Root || segs@[0] is Current,
        wf_seg(segs@[0]),
        forall|k: int|
            1 <= k < segs@.len() ==> wf_seg(#[trigger] segs@[k]) && !(segs@[k] is Root) && !(
            segs@[k] is Current),
    ensures
        r is Ok ==> pos <= r->Ok_0.1 <= n,
        r is Ok ==> r->Ok_0.0@.len() >= 1 && (r->Ok_0.0@[0] is Root || r->Ok_0.0@[0] is Current)
            && wf_seg(r->Ok_0.0@[0]) && (forall|k: int|
            1 <= k < r->Ok_0.0@.len() ==> wf_seg(#[trigger] r->Ok_0.0@[k]) && !(r->Ok_0.0@[k]
                is Root) && !(r->Ok_0.0@[k] is Current)),
        (r is Ok) == (sp_subsegs(s@, crate::ast::segs_v(segs@), pos as int) is POk),
        r is Ok ==> sp_subsegs(s@, crate::ast::segs_v(segs@), pos as int) == PRes::POk(
            crate::ast::segs_v(r->Ok_0.0@),
            r->Ok_0.1 as int,
        ),
        r is Err ==> !(sp_subsegs(s@, crate::ast::segs_v(segs@), pos as int) is POk) && ((r->Err_0
            is ParseError) <==> (sp_subsegs(s@, crate::ast::segs_v(segs@), pos as int) is PErr)),
    decreases n - pos, 7int,
{
    if pos < n && (s.get_char(pos) == '.' || s.get_char(pos) == '[') {
        let (mut part, np) = match p_segment(s, n, pos) {
            Ok(t) => t,
            Err(e) => {
                return Err(e);
            },
        };
        let ghost segs0 = segs@;
        let ghost part0 = part@;
        let mut segs2 = segs;
        segs2.append(&mut part);
        proof {
            lemma_segs_v_concat(segs0, part0);
        }
        p_subsegs(s, n, segs2, np)
    } else {
        Ok((segs, pos))
    }
}

/// An operand: a literal, or a sub-path headed by `$` or `@`.
pub open spec fn sp_operand(s: Seq<char>, pos: int) -> PRes<crate::ast::OperV>
    decreases s.len() - pos, 0int,
{
    if !(0 <= pos < s.len()) {
        PRes::PErr
    } else {
        let c = s[pos];
        if c == '$' || c == '@' {
            match sp_subsegs(
                s,
                seq![
                    if c == '$' {
                        crate::ast::SegV::Root
                    } else {
                        crate::ast::SegV::Current
                    },
                ],
                pos + 1,
            ) {
                PRes::POk(segs, i) => PRes::POk(crate::ast::OperV::Path(segs), i),
                PRes::PErr => PRes::PErr,
                PRes::CErr => PRes::CErr,
            }
        } else {
            match sp_literal(s, pos) {
                PRes::POk(j, np) => PRes::POk(crate::ast::OperV::Lit(j), np),
                PRes::PErr => PRes::PErr,
                PRes::CErr => PRes::CErr,
            }
        }
    }
}

/// The segments of a sub-path, those read so far in `acc`.
pub open spec fn sp_subsegs(s: Seq<char>, acc: Seq<crate::ast::SegV>, pos: int) -> PRes<
    Seq<crate::ast::SegV>,
>
    decreases s.len() - pos, 7int,
{
    if 0 <= pos < s.len() && (s[pos] == '.' || s[pos] == '[') {
        match sp_segment(s, pos) {
            PRes::POk(parts, np) => if pos < np <= s.len() {
                sp_subsegs(s, acc + parts, np)
            } else {
                PRes::PErr
            },
            PRes::PErr => PRes::PErr,
            PRes::CErr => PRes::CErr,
        }
    } else {
        PRes::POk(acc, pos)
    }
}

/// The segments of the whole path after `$`, those read so far in `acc`;
/// trailing whitespace is allowed, anything after it is not.
pub open spec fn sp_main(s: Seq<char>, acc: Seq<crate::ast::SegV>, pos: int) -> PRes<
    Seq<crate::ast::SegV>,
>
    decreases s.len() - pos,
{
    if !(0 <= pos < s.len()) {
        PRes::POk(acc, pos)
    } else if is_ws_c(s[pos]) {
        if sp_ws(s, pos) < s.len() {
            PRes::PErr
        } else {
            PRes::POk(acc, pos)
        }
    } else {
        match sp_segment(s, pos) {
            PRes::POk(parts, np) => if pos < np <= s.len() {
                sp_main(s, acc + parts, np)
            } else {
                PRes::PErr
            },
            PRes::PErr => PRes::PErr,
            PRes::CErr => PRes::CErr,
        }
    }
}

/// What a path text compiles to: `$` followed by segments, or the
/// grammar/compile rejection. This is the parser's whole contract:
/// `parse_json_path` accepts exactly the texts this function accepts,
/// builds exactly this tree, and reports the same kind of rejection.
pub open spec fn spec_parse(s: Seq<char>) -> PRes<Seq<crate::ast::SegV>> {
    let st = sp_ws(s, 0);
    if st < s.len() && s[st] == '$' {
        sp_main(s, seq![crate::ast::SegV::Root], st + 1)
    } else {
        PRes::PErr
    }
}

/// The texts that compile.
pub open spec fn spec_path_ok(s: Seq<char>) -> bool {
    spec_parse(s) is POk
}


fn is_ws(c: char) -> (r: bool)
    ensures
        r == is_ws_c(c),
{
    c == ' ' || c == '\t' || c == '\n' || c == '\r'
}

fn is_digit(c: char) -> (r: bool)
    ensures
        r == is_digit_c(c),
{
    c >= '0' && c <= '9'
}

fn is_ident_char(c: char) -> (r: bool)
    ensures
        r == is_ident_c(c),
{
    (c >= 'a' && c <= 'z') || (c >= 'A' && c <= 'Z') || (c >= '0' && c <= '9') || c == '_' || c
        == '-'
}

fn skip_ws(s: &str, n: usize, pos: usize) -> (r: usize)
    requires
        pos <= n,
        n == s@.len(),
    ensures
        pos <= r <= n,
        r == sp_ws(s@, pos as int),
{
    let mut i = pos;
    while i < n
        invariant
            pos <= i <= n,
            n == s@.len(),
            ws_count(s@, pos as int) == i - pos + ws_count(s@, i as int),
        decreases n - i,
    {
        if !is_ws(s.get_char(i)) {
            proof {
                assert(ws_count(s@, i as int) == 0);
            }
            return i;
        }
        i = i + 1;
    }
    proof {
        assert(ws_count(s@, i as int) == 0);
    }
    i
}

/// Whether `pat` occurs in `s` at character position `pos`.
fn starts_with_at(s: &str, n: usize, pos: usize, pat: &str) -> (r: bool)
    requires
        pos <= n,
        n == s@.len(),
    ensures
        r ==> pos + pat@.len() <= n,
        r == is_at(s@, pos as int, pat@),
{
    let m = pat.unicode_len();
    if n - pos < m {
        return false;
    }
    let mut i: usize = 0;
    while i < m
        invariant
            0 <= i <= m,
            pos + m <= n,
            n == s@.len(),
            m == pat@.len(),
            forall|j: int| 0 <= j < i ==> s@[pos + j] == pat@[j],
        decreases m - i,
    {
        if s.get_char(pos + i) != pat.get_char(i) {
            proof {
                if is_at(s@, pos as int, pat@) {
                    assert(s@.subrange(pos as int, pos + pat@.len() as int)[i as int] == s@[pos
                        + i]);
                }
            }
            return false;
        }
        i = i + 1;
    }
    proof {
        assert forall|j: int|
            0 <= j < pat@.len() implies s@.subrange(pos as int, pos + pat@.len() as int)[j]
            == pat@[j] by {
            assert(s@.subrange(pos as int, pos + pat@.len() as int)[j] == s@[pos + j]);
        }
        assert(s@.subrange(pos as int, pos + pat@.len() as int) =~= pat@);
    }
    true
}

/// An unsigned run of at most 18 digits.
fn p_digits(s: &str, n: usize, pos: usize) -> (r: Result<(u64, u32, usize), JsonPathParserError>)
    requires
        pos <= n,
        n == s@.len(),
    ensures
        r is Ok ==> pos < r->Ok_0.2 <= n && r->Ok_0.0 < 1_000_000_000_000_000_000 && 1 <= r->Ok_0.1
            <= 18,
        (r is Ok) == (sp_digits(s@, pos as int) is POk),
        r is Ok ==> sp_digits(s@, pos as int) == PRes::POk(
            (r->Ok_0.0 as int, r->Ok_0.1 as int),
            r->Ok_0.2 as int,
        ),
        r is Err ==> r->Err_0 is ParseError && sp_digits(s@, pos as int) is PErr,
{
    let mut i = pos;
    let mut value: u64 = 0;
    let mut count: u32 = 0;
    while i < n && count <= 18
        invariant
            pos <= i <= n,
            n == s@.len(),
            count <= 18,
            value < crate::json::pow10(count as nat),
            count == i - pos,
            sp_digits_go(s@, i as int, value as int, count as int) == sp_digits(s@, pos as int),
        decreases n - i,
    {
        let c = s.get_char(i);
        if !is_digit(c) {
            if count == 0 {
                return Err(perr(pos, "expected a digit"));
            }
            proof {
                crate::json::lemma_pow10_val();
                crate::json::lemma_pow10_mono(count as nat, 18nat);
            }
            return Ok((value, count, i));
        }
        if count == 18 {
            return Err(perr(i, "number has too many digits"));
        }
        proof {
            crate::json::lemma_pow10_val();
            crate::json::lemma_pow10_mono((count + 1) as nat, 18nat);
            crate::json::lemma_pow10_pos(count as nat);
            assert((c as u32) >= 48 && (c as u32) <= 57);
        }
        let d = (c as u32) - 48;
        value = value * 10 + (d as u64);
        count = count + 1;
        i = i + 1;
    }
    if count == 0 {
        return Err(perr(pos, "expected a digit"));
    }
    proof {
        crate::json::lemma_pow10_val();
        crate::json::lemma_pow10_mono(count as nat, 18nat);
    }
    Ok((value, count, i))
}

/// A signed integer.
fn p_int(s: &str, n: usize, pos: usize) -> (r: Result<(i64, usize), JsonPathParserError>)
    requires
        pos <= n,
        n == s@.len(),
    ensures
        r is Ok ==> pos < r->Ok_0.1 <= n,
        (r is Ok) == (sp_int(s@, pos as int) is POk),
        r is Ok ==> sp_int(s@, pos as int) == PRes::POk(r->Ok_0.0 as int, r->Ok_0.1 as int),
        r is Err ==> r->Err_0 is ParseError && sp_int(s@, pos as int) is PErr,
{
    let mut i = pos;
    let mut neg = false;
    if i < n && s.get_char(i) == '-' {
        neg = true;
        i = i + 1;
    }
    match p_digits(s, n, i) {
        Ok((value, _, np)) => {
            let v = value as i64;
            if neg {
                Ok((-v, np))
            } else {
                Ok((v, np))
            }
        },
        Err(e) => Err(e),
    }
}

/// A number literal: an integer part and an optional decimal part.
fn p_number(s: &str, n: usize, pos: usize) -> (r: Result<(Json, usize), JsonPathParserError>)
    requires
        pos <= n,
        n == s@.len(),
    ensures
        r is Ok ==> pos < r->Ok_0.1 <= n,
        (r is Ok) == (sp_number(s@, pos as int) is POk),
        r is Ok ==> sp_number(s@, pos as int) == PRes::POk(r->Ok_0.0@, r->Ok_0.1 as int),
        r is Err ==> r->Err_0 is ParseError && sp_number(s@, pos as int) is PErr,
{
    let mut i = pos;
    let mut neg = false;
    if i < n && s.get_char(i) == '-' {
        neg = true;
        i = i + 1;
    }
    let (ipart, _icount, after_int) = match p_digits(s, n, i) {
        Ok(t) => t,
        Err(e) => {
            return Err(e);
        },
    };
    i = after_int;
    let mut mant: u64 = ipart;
    let mut scale: u32 = 0;
    if i < n && s.get_char(i) == '.' && i + 1 < n && is_digit(s.get_char(i + 1)) {
        let (fpart, fcount, after_frac) = match p_digits(s, n, i + 1) {
            Ok(t) => t,
            Err(e) => {
                return Err(e);
            },
        };
        let ghost target = sp_number(s@, pos as int);
        proof {
            assert(target == (match sp_scale(ipart as int, fcount as int) {
                Some(m2) => if m2 > 0x7fff_ffff_ffff_ffff - fpart {
                    PRes::<crate::json::Jv>::PErr
                } else {
                    PRes::POk(
                        crate::json::Jv::Num(
                            if neg {
                                -(m2 + fpart)
                            } else {
                                m2 + fpart
                            },
                            fcount as nat,
                        ),
                        after_frac as int,
                    )
                },
                None => PRes::<crate::json::Jv>::PErr,
            }));
        }
        let mut k: u32 = 0;
        while k < fcount
            invariant
                k <= fcount <= 18,
                mant <= 0x7fff_ffff_ffff_ffff,
                sp_scale(ipart as int, fcount as int) == sp_scale(
                    mant as int,
                    fcount - k,
                ),
                target == sp_number(s@, pos as int),
                target == (match sp_scale(ipart as int, fcount as int) {
                    Some(m2) => if m2 > 0x7fff_ffff_ffff_ffff - fpart {
                        PRes::<crate::json::Jv>::PErr
                    } else {
                        PRes::POk(
                            crate::json::Jv::Num(
                                if neg {
                                    -(m2 + fpart)
                                } else {
                                    m2 + fpart
                                },
                                fcount as nat,
                            ),
                            after_frac as int,
                        )
                    },
                    None => PRes::<crate::json::Jv>::PErr,
                }),
            decreases fcount - k,
        {
            if mant > 922_337_203_685_477_580 {
                proof {
                    assert(sp_scale(mant as int, fcount - k) is None);
                }
                return Err(perr(pos, "number is too large"));
            }
            mant = mant * 10;
            k = k + 1;
        }
        proof {
            assert(sp_scale(mant as int, 0) == Some(mant as int));
        }
        if mant > 0x7fff_ffff_ffff_ffffu64 - fpart {
            return Err(perr(pos, "number is too large"));
        }
        mant = mant + fpart;
        scale = fcount;
        i = after_frac;
    }
    if mant > 0x7fff_ffff_ffff_ffff {
        proof {
            assert(false);
        }
        return Err(perr(pos, "number is too large"));
    }
    let m = if neg {
        -(mant as i64)
    } else {
        mant as i64
    };
    if scale > MAX_SCALE {
        proof {
            assert(false);
        }
        return Err(perr(pos, "number has too many decimal places"));
    }
    Ok((Json::Num(JsonNum::new(m, scale)), i))
}

/// A quoted string; the closing quote must match the opening one. The
/// characters between the quotes are taken as they stand.
fn p_string(s: &str, n: usize, pos: usize) -> (r: Result<(String, usize), JsonPathParserError>)
    requires
        pos < n,
        n == s@.len(),
    ensures
        r is Ok ==> pos < r->Ok_0.1 <= n,
        (r is Ok) == (sp_string(s@, pos as int) is POk),
        r is Ok ==> sp_string(s@, pos as int) == PRes::POk(r->Ok_0.0@, r->Ok_0.1 as int),
        r is Err ==> r->Err_0 is ParseError && sp_string(s@, pos as int) is PErr,
{
    let q = s.get_char(pos);
    let mut i = pos + 1;
    while i < n
        invariant
            pos < i <= n,
            n == s@.len(),
            q == s@[pos as int],
            sp_str_end(s@, q, i as int) == sp_str_end(s@, q, pos + 1),
        decreases n - i,
    {
        if s.get_char(i) == q {
            let content = s.substring_char(pos + 1, i);
            return Ok((content.to_owned(), i + 1));
        }
        i = i + 1;
    }
    proof {
        assert(sp_str_end(s@, q, i as int) is None);
    }
    Err(perr(pos, "unclosed string literal"))
}

/// An identifier: letters, digits, `_` and `-`.
fn p_ident(s: &str, n: usize, pos: usize) -> (r: Result<(String, usize), JsonPathParserError>)
    requires
        pos <= n,
        n == s@.len(),
    ensures
        r is Ok ==> pos < r->Ok_0.1 <= n,
        (r is Ok) == (sp_ident(s@, pos as int) is POk),
        r is Ok ==> sp_ident(s@, pos as int) == PRes::POk(r->Ok_0.0@, r->Ok_0.1 as int),
        r is Err ==> r->Err_0 is ParseError && sp_ident(s@, pos as int) is PErr,
{
    let mut i = pos;
    while i < n
        invariant
            pos <= i <= n,
            n == s@.len(),
            sp_ident_end(s@, i as int) == sp_ident_end(s@, pos as int),
        decreases n - i,
    {
        if !is_ident_char(s.get_char(i)) {
            proof {
                assert(sp_ident_end(s@, i as int) == i);
            }
            if i == pos {
                return Err(perr(pos, "expected a name"));
            }
            let name = s.substring_char(pos, i);
            return Ok((name.to_owned(), i));
        }
        i = i + 1;
    }
    proof {
        assert(sp_ident_end(s@, i as int) == i);
    }
    if i == pos {
        return Err(perr(pos, "expected a name"));
    }
    let name = s.substring_char(pos, i);
    Ok((name.to_owned(), i))
}

/// A scalar JSON literal: a string, number, `true`, `false` or `null`.
fn p_scalar(s: &str, n: usize, pos: usize) -> (r: Result<(Json, usize), JsonPathParserError>)
    requires
        pos <= n,
        n == s@.len(),
    ensures
        r is Ok ==> pos < r->Ok_0.1 <= n,
        (r is Ok) == (sp_scalar(s@, pos as int) is POk),
        r is Ok ==> sp_scalar(s@, pos as int) == PRes::POk(r->Ok_0.0@, r->Ok_0.1 as int),
        r is Err ==> r->Err_0 is ParseError && sp_scalar(s@, pos as int) is PErr,
{
    if pos >= n {
        return Err(perr(pos, "expected a literal"));
    }
    let c = s.get_char(pos);
    if c == '\'' || c == '"' {
        match p_string(s, n, pos) {
            Ok((t, np)) => Ok((Json::Str(t), np)),
            Err(e) => Err(e),
        }
    } else if c == '-' || is_digit(c) {
        p_number(s, n, pos)
    } else if starts_with_at(s, n, pos, "true") {
        proof {
            reveal_strlit("true");
        }
        Ok((Json::Bool(true), pos + 4))
    } else if starts_with_at(s, n, pos, "false") {
        proof {
            reveal_strlit("false");
        }
        Ok((Json::Bool(false), pos + 5))
    } else if starts_with_at(s, n, pos, "null") {
        proof {
            reveal_strlit("null");
        }
        Ok((Json::Null, pos + 4))
    } else {
        Err(perr(pos, "expected a literal"))
    }
}

/// A literal operand: a scalar or an array of scalars.
proof fn lemma_vals_push(x: Seq<Json>, j: Json)
    ensures
        crate::eval::vals_v(x.push(j)) == crate::eval::vals_v(x).push(j@),
{
    assert forall|k: int|
        0 <= k < x.len() + 1 implies crate::eval::vals_v(x.push(j))[k] == crate::eval::vals_v(
        x,
    ).push(j@)[k] by {
        assert(crate::eval::vals_v(x.push(j))[k] == x.push(j)[k]@);
        if k < x.len() {
            assert(x.push(j)[k] == x[k]);
            assert(crate::eval::vals_v(x)[k] == x[k]@);
        }
    }
    assert(crate::eval::vals_v(x.push(j)) =~= crate::eval::vals_v(x).push(j@));
}

fn p_literal(s: &str, n: usize, pos: usize) -> (r: Result<(Json, usize), JsonPathParserError>)
    requires
        pos <= n,
        n == s@.len(),
    ensures
        r is Ok ==> pos < r->Ok_0.1 <= n,
        (r is Ok) == (sp_literal(s@, pos as int) is POk),
        r is Ok ==> sp_literal(s@, pos as int) == PRes::POk(r->Ok_0.0@, r->Ok_0.1 as int),
        r is Err ==> r->Err_0 is ParseError && sp_literal(s@, pos as int) is PErr,
{
    if pos < n && s.get_char(pos) == '[' {
        let mut items: Vec<Json> = Vec::new();
        let mut i = skip_ws(s, n, pos + 1);
        if i < n && s.get_char(i) == ']' {
            proof {
                crate::eval::lemma_arr_items(items);
                assert(crate::eval::vals_v(items@) =~= Seq::<crate::json::Jv>::empty());
            }
            return Ok((Json::Arr(items), i + 1));
        }
        proof {
            assert(crate::eval::vals_v(items@) =~= Seq::<crate::json::Jv>::empty());
        }
        loop
            invariant
                pos < i <= n,
                n == s@.len(),
                sp_items(s@, crate::eval::vals_v(items@), i as int) == sp_literal(
                    s@,
                    pos as int,
                ),
            decreases n - i,
        {
            let ghost items0 = items@;
            let (item, np) = match p_scalar(s, n, i) {
                Ok(t) => t,
                Err(e) => {
                    return Err(e);
                },
            };
            items.push(item);
            proof {
                lemma_vals_push(items0, item);
            }
            i = skip_ws(s, n, np);
            if i < n && s.get_char(i) == ',' {
                i = skip_ws(s, n, i + 1);
            } else if i < n && s.get_char(i) == ']' {
                proof {
                    crate::eval::lemma_arr_items(items);
                    assert(Json::Arr(items)@ =~= crate::json::Jv::Arr(
                        crate::eval::vals_v(items@),
                    ));
                }
                return Ok((Json::Arr(items), i + 1));
            } else {
                return Err(perr(i, "expected ',' or ']' in an array literal"));
            }
        }
    } else {
        p_scalar(s, n, pos)
    }
}

proof fn lemma_segs_v_push(x: Seq<Segment>, g: Segment)
    ensures
        crate::ast::segs_v(x.push(g)) == crate::ast::segs_v(x).push(g.sv()),
{
    assert forall|k: int|
        0 <= k < x.len() + 1 implies crate::ast::segs_v(x.push(g))[k] == crate::ast::segs_v(
        x,
    ).push(g.sv())[k] by {
        assert(crate::ast::segs_v(x.push(g))[k] == x.push(g)[k].sv());
        if k < x.len() {
            assert(x.push(g)[k] == x[k]);
            assert(crate::ast::segs_v(x)[k] == x[k].sv());
        }
    }
    assert(crate::ast::segs_v(x.push(g)) =~= crate::ast::segs_v(x).push(g.sv()));
}

proof fn lemma_segs_v_concat(x: Seq<Segment>, y: Seq<Segment>)
    ensures
        crate::ast::segs_v(x + y) == crate::ast::segs_v(x) + crate::ast::segs_v(y),
{
    assert forall|k: int|
        0 <= k < (x + y).len() implies crate::ast::segs_v(x + y)[k] == (crate::ast::segs_v(x)
        + crate::ast::segs_v(y))[k] by {
        assert(crate::ast::segs_v(x + y)[k] == (x + y)[k].sv());
        if k < x.len() {
            assert((x + y)[k] == x[k]);
            assert(crate::ast::segs_v(x)[k] == x[k].sv());
        } else {
            assert((x + y)[k] == y[k - x.len()]);
            assert(crate::ast::segs_v(y)[k - x.len()] == y[k - x.len()].sv());
        }
    }
    assert(crate::ast::segs_v(x + y) =~= crate::ast::segs_v(x) + crate::ast::segs_v(y));
}

proof fn lemma_strs_push(x: Seq<String>, t: String)
    ensures
        x.push(t).map_values(|u: String| u@) == x.map_values(|u: String| u@).push(t@),
{
    assert forall|k: int| #![trigger x.push(t)[k]]
        0 <= k < x.len() + 1 implies x.push(t).map_values(|u: String| u@)[k] == x.map_values(
        |u: String| u@,
    ).push(t@)[k] by {
        assert(x.push(t).map_values(|u: String| u@)[k] == x.push(t)[k]@);
        if k < x.len() {
            assert(x.push(t)[k] == x[k]);
            assert(x.map_values(|u: String| u@)[k] == x[k]@);
        }
    }
    assert(x.push(t).map_values(|u: String| u@) =~= x.map_values(|u: String| u@).push(t@));
}

proof fn lemma_i64s_push(x: Seq<i64>, v: i64)
    ensures
        x.push(v).map_values(|u: i64| u as int) == x.map_values(|u: i64| u as int).push(v as int),
{
    assert forall|k: int| #![trigger x.push(v)[k]]
        0 <= k < x.len() + 1 implies x.push(v).map_values(|u: i64| u as int)[k] == x.map_values(
        |u: i64| u as int,
    ).push(v as int)[k] by {
        assert(x.push(v).map_values(|u: i64| u as int)[k] == x.push(v)[k] as int);
        if k < x.len() {
            assert(x.push(v)[k] == x[k]);
            assert(x.map_values(|u: i64| u as int)[k] == x[k] as int);
        }
    }
    assert(x.push(v).map_values(|u: i64| u as int) =~= x.map_values(|u: i64| u as int).push(
        v as int,
    ));
}

/// One or more path segments starting at `pos` (at a `.` or `[`).
#[verifier::rlimit(80)]
#[verifier::spinoff_prover]
fn p_segment(s: &str, n: usize, pos: usize) -> (r: Result<
    (Vec<Segment>, usize),
    JsonPathParserError,
>)
    requires
        pos <= n,
        n == s@.len(),
    ensures
        r is Ok ==> pos < r->Ok_0.1 <= n && (forall|i: int|
            0 <= i < r->Ok_0.0@.len() ==> wf_seg(#[trigger] r->Ok_0.0@[i]) && !(r->Ok_0.0@[i]
                is Root) && !(r->Ok_0.0@[i] is Current)),
        (r is Ok) == (sp_segment(s@, pos as int) is POk),
        r is Ok ==> sp_segment(s@, pos as int) == PRes::POk(
            crate::ast::segs_v(r->Ok_0.0@),
            r->Ok_0.1 as int,
        ),
        r is Err ==> !(sp_segment(s@, pos as int) is POk) && ((r->Err_0 is ParseError) <==> (
        sp_segment(s@, pos as int) is PErr)),
    decreases n - pos, 6int,
{
    let mut out: Vec<Segment> = Vec::new();
    if pos >= n {
        return Err(perr(pos, "expected a segment"));
    }
    let c = s.get_char(pos);
    if c == '[' {
        return p_bracket(s, n, pos);
    }
    if c != '.' {
        return Err(perr(pos, "expected '.' or '['"));
    }
    if pos + 1 < n && s.get_char(pos + 1) == '.' {
        // descent
        if pos + 2 >= n {
            return Err(perr(pos + 2, "expected a name, '*' or '[' after '..'"));
        }
        let c2 = s.get_char(pos + 2);
        if c2 == '*' {
            out.push(Segment::Descent);
            out.push(Segment::Wildcard);
            proof {
                assert(crate::ast::segs_v(out@) =~= seq![
                    crate::ast::SegV::Descent,
                    crate::ast::SegV::Wildcard,
                ]);
            }
            return Ok((out, pos + 3));
        }
        if c2 == '[' {
            let (mut rest, np) = match p_bracket(s, n, pos + 2) {
                Ok(t) => t,
                Err(e) => {
                    return Err(e);
                },
            };
            let ghost rest0 = rest@;
            out.push(Segment::Descent);
            let ghost out0 = out@;
            out.append(&mut rest);
            proof {
                lemma_segs_v_concat(out0, rest0);
                assert(crate::ast::segs_v(out0) =~= seq![crate::ast::SegV::Descent]);
                assert(crate::ast::segs_v(out@) =~= seq![crate::ast::SegV::Descent]
                    + crate::ast::segs_v(rest0));
            }
            return Ok((out, np));
        }
        let (name, np) = match p_ident(s, n, pos + 2) {
            Ok(t) => t,
            Err(e) => {
                return Err(e);
            },
        };
        out.push(Segment::DescentField(name));
        proof {
            assert(crate::ast::segs_v(out@) =~= seq![
                crate::ast::SegV::DescentField(out@[0]->DescentField_0@),
            ]);
        }
        return Ok((out, np));
    }
    // a single dot
    if pos + 1 >= n {
        return Err(perr(pos + 1, "expected a name, '*' or '[' after '.'"));
    }
    let c1 = s.get_char(pos + 1);
    if c1 == '*' {
        out.push(Segment::Wildcard);
        proof {
            assert(crate::ast::segs_v(out@) =~= seq![crate::ast::SegV::Wildcard]);
        }
        return Ok((out, pos + 2));
    }
    if c1 == '[' {
        return p_bracket(s, n, pos + 1);
    }
    let (name, np) = match p_ident(s, n, pos + 1) {
        Ok(t) => t,
        Err(e) => {
            return Err(e);
        },
    };
    if starts_with_at(s, n, np, "()") {
        proof {
            reveal_strlit("()");
        }
        let lstr = "length".to_owned();
        if name == lstr {
            out.push(Segment::Func(PathFn::Length));
            proof {
                assert(crate::ast::segs_v(out@) =~= seq![crate::ast::SegV::Length]);
            }
            return Ok((out, np + 2));
        }
        return Err(perr(pos + 1, "unknown function"));
    }
    out.push(Segment::Field(name));
    proof {
        assert(crate::ast::segs_v(out@) =~= seq![crate::ast::SegV::Field(out@[0]->Field_0@)]);
    }
    Ok((out, np))
}

/// A bracketed selector: `[*]`, indices, a slice, quoted keys or a
/// filter.
#[verifier::rlimit(80)]
#[verifier::spinoff_prover]
fn p_bracket(s: &str, n: usize, pos: usize) -> (r: Result<
    (Vec<Segment>, usize),
    JsonPathParserError,
>)
    requires
        pos <= n,
        n == s@.len(),
    ensures
        r is Ok ==> pos < r->Ok_0.1 <= n && (forall|i: int|
            0 <= i < r->Ok_0.0@.len() ==> wf_seg(#[trigger] r->Ok_0.0@[i]) && !(r->Ok_0.0@[i]
                is Root) && !(r->Ok_0.0@[i] is Current)),
        (r is Ok) == (sp_bracket(s@, pos as int) is POk),
        r is Ok ==> sp_bracket(s@, pos as int) == PRes::POk(
            crate::ast::segs_v(r->Ok_0.0@),
            r->Ok_0.1 as int,
        ),
        r is Err ==> !(sp_bracket(s@, pos as int) is POk) && ((r->Err_0 is ParseError) <==> (
        sp_bracket(s@, pos as int) is PErr)),
    decreases n - pos, 5int,
{
    let mut out: Vec<Segment> = Vec::new();
    if pos >= n || s.get_char(pos) != '[' {
        return Err(perr(pos, "expected '['"));
    }
    let start = skip_ws(s, n, pos + 1);
    if start >= n {
        return Err(perr(start, "unclosed '['"));
    }
    let c = s.get_char(start);
    if c == '*' {
        let after = skip_ws(s, n, start + 1);
        if after < n && s.get_char(after) == ']' {
            out.push(Segment::Wildcard);
            proof {
                assert(crate::ast::segs_v(out@) =~= seq![crate::ast::SegV::Wildcard]);
            }
            return Ok((out, after + 1));
        }
        return Err(perr(after, "expected ']'"));
    }
    if c == '?' {
        if !(start + 1 < n && s.get_char(start + 1) == '(') {
            return Err(perr(start + 1, "expected '(' after '?'"));
        }
        let (expr, np) = match p_filter_or(s, n, skip_ws(s, n, start + 2)) {
            Ok(t) => t,
            Err(e) => {
                return Err(e);
            },
        };
        let after = skip_ws(s, n, np);
        if !(after < n && s.get_char(after) == ')') {
            return Err(perr(after, "expected ')'"));
        }
        let close = skip_ws(s, n, after + 1);
        if !(close < n && s.get_char(close) == ']') {
            return Err(perr(close, "expected ']'"));
        }
        out.push(Segment::Filter(expr));
        proof {
            assert(crate::ast::segs_v(out@) =~= seq![
                crate::ast::SegV::Filter(out@[0]->Filter_0.fv()),
            ]);
        }
        return Ok((out, close + 1));
    }
    if c == '\'' || c == '"' {
        // one or more quoted keys
        let ghost target = sp_keys(s@, Seq::empty(), start as int);
        let mut names: Vec<String> = Vec::new();
        proof {
            assert(names@.map_values(|u: String| u@) =~= Seq::<Seq<char>>::empty());
        }
        let mut i = start;
        loop
            invariant
                pos < i <= n,
                n == s@.len(),
                out@.len() == 0,
                target == sp_keys(s@, Seq::empty(), start as int),
                target == sp_keys(s@, names@.map_values(|u: String| u@), i as int),
                sp_bracket(s@, pos as int) == (match target {
                    PRes::POk(seg, np) => PRes::POk(seq![seg], np),
                    PRes::PErr => PRes::PErr,
                    PRes::CErr => PRes::CErr,
                }),
            decreases n - i,
        {
            if !(i < n && (s.get_char(i) == '\'' || s.get_char(i) == '"')) {
                return Err(perr(i, "expected a quoted key"));
            }
            let ghost names0 = names@;
            let (name, np) = match p_string(s, n, i) {
                Ok(t) => t,
                Err(e) => {
                    return Err(e);
                },
            };
            names.push(name);
            proof {
                lemma_strs_push(names0, name);
            }
            i = skip_ws(s, n, np);
            if i < n && s.get_char(i) == ',' {
                i = skip_ws(s, n, i + 1);
            } else if i < n && s.get_char(i) == ']' {
                if names.len() == 1 {
                    let name2 = match names.pop() {
                        Some(x) => x,
                        None => {
                            return Err(perr(i, "expected a key"));
                        },
                    };
                    out.push(Segment::Field(name2));
                    proof {
                        assert(crate::ast::segs_v(out@) =~= seq![
                            crate::ast::SegV::Field(out@[0]->Field_0@),
                        ]);
                    }
                } else {
                    out.push(Segment::Fields(names));
                    proof {
                        assert(crate::ast::segs_v(out@) =~= seq![
                            crate::ast::SegV::Fields(
                                out@[0]->Fields_0@.map_values(|u: String| u@),
                            ),
                        ]);
                    }
                }
                return Ok((out, i + 1));
            } else {
                return Err(perr(i, "expected ',' or ']'"));
            }
        }
    }
    // indices or a slice
    let mut first: Option<i64> = None;
    let mut i = start;
    if c != ':' {
        let (v, np) = match p_int(s, n, i) {
            Ok(t) => t,
            Err(e) => {
                return Err(e);
            },
        };
        first = Some(v);
        i = skip_ws(s, n, np);
    }
    let ghost firstv_sp: Option<int> = (match first {
        Some(v) => Some(v as int),
        None => None,
    });
    proof {
        assert(sp_bracket(s@, pos as int) == (match sp_sel(s@, firstv_sp, i as int) {
            PRes::POk(seg, np2) => PRes::POk(seq![seg], np2),
            PRes::PErr => PRes::PErr,
            PRes::CErr => PRes::CErr,
        }));
    }
    if i < n && s.get_char(i) == ':' {
        // a slice
        let mut end_b: Option<i64> = None;
        let mut step: i64 = 1;
        i = skip_ws(s, n, i + 1);
        if i < n && (is_digit(s.get_char(i)) || s.get_char(i) == '-') {
            let (v, np) = match p_int(s, n, i) {
                Ok(t) => t,
                Err(e) => {
                    return Err(e);
                },
            };
            end_b = Some(v);
            i = skip_ws(s, n, np);
        }
        if i < n && s.get_char(i) == ':' {
            i = skip_ws(s, n, i + 1);
            if i < n && (is_digit(s.get_char(i)) || s.get_char(i) == '-') {
                let (v, np) = match p_int(s, n, i) {
                    Ok(t) => t,
                    Err(e) => {
                        return Err(e);
                    },
                };
                step = v;
                i = skip_ws(s, n, np);
            }
        }
        if !(i < n && s.get_char(i) == ']') {
            return Err(perr(i, "expected ']'"));
        }
        if step < 1 {
            return Err(cerr("slice step must be a positive integer"));
        }
        out.push(Segment::Slice { start: first, end: end_b, step });
        proof {
            assert(crate::ast::segs_v(out@) =~= seq![out@[0].sv()]);
        }
        return Ok((out, i + 1));
    }
    // indices
    let firstv = match first {
        Some(v) => v,
        None => {
            return Err(perr(i, "expected an index"));
        },
    };
    let ghost target = sp_idxs(s@, seq![firstv as int], i as int);
    let mut idxs: Vec<i64> = Vec::new();
    idxs.push(firstv);
    proof {
        assert(idxs@.map_values(|u: i64| u as int) =~= seq![firstv as int]);
    }
    loop
        invariant
            pos < i <= n,
            n == s@.len(),
            out@.len() == 0,
            idxs@.len() >= 1,
            idxs@[0] == firstv,
            target == sp_idxs(s@, idxs@.map_values(|u: i64| u as int), i as int),
            sp_bracket(s@, pos as int) == (match target {
                PRes::POk(seg, np2) => PRes::POk(seq![seg], np2),
                PRes::PErr => PRes::PErr,
                PRes::CErr => PRes::CErr,
            }),
        decreases n - i,
    {
        if i < n && s.get_char(i) == ',' {
            let ghost idxs0 = idxs@;
            let (v, np) = match p_int(s, n, skip_ws(s, n, i + 1)) {
                Ok(t) => t,
                Err(e) => {
                    return Err(e);
                },
            };
            idxs.push(v);
            proof {
                lemma_i64s_push(idxs0, v);
            }
            i = skip_ws(s, n, np);
        } else if i < n && s.get_char(i) == ']' {
            if idxs.len() == 1 {
                out.push(Segment::Index(firstv));
                proof {
                    assert(idxs@.map_values(|u: i64| u as int)[0] == firstv as int);
                    assert(crate::ast::segs_v(out@) =~= seq![
                        crate::ast::SegV::Index(firstv as int),
                    ]);
                }
            } else {
                out.push(Segment::Indices(idxs));
                proof {
                    assert(crate::ast::segs_v(out@) =~= seq![
                        crate::ast::SegV::Indices(
                            out@[0]->Indices_0@.map_values(|u: i64| u as int),
                        ),
                    ]);
                }
            }
            return Ok((out, i + 1));
        } else {
            return Err(perr(i, "expected ',' or ']'"));
        }
    }
}

/// `a || b || ...`
fn p_filter_or(s: &str, n: usize, pos: usize) -> (r: Result<
    (FilterExpr, usize),
    JsonPathParserError,
>)
    requires
        pos <= n,
        n == s@.len(),
    ensures
        r is Ok ==> pos < r->Ok_0.1 <= n && wf_filter(r->Ok_0.0),
        (r is Ok) == (sp_or(s@, pos as int) is POk),
        r is Ok ==> sp_or(s@, pos as int) == PRes::POk(r->Ok_0.0.fv(), r->Ok_0.1 as int),
        r is Err ==> !(sp_or(s@, pos as int) is POk) && ((r->Err_0 is ParseError) <==> (sp_or(
            s@,
            pos as int,
        ) is PErr)),
    decreases n - pos, 4int,
{
    let (first, np) = match p_filter_and(s, n, pos) {
        Ok(t) => t,
        Err(e) => {
            return Err(e);
        },
    };
    let mut acc = first;
    let mut i = np;
    proof {
        assert(sp_or(s@, pos as int) == sp_or_rest(s@, acc.fv(), i as int));
    }
    loop
        invariant
            pos < i <= n,
            n == s@.len(),
            wf_filter(acc),
            sp_or(s@, pos as int) == sp_or_rest(s@, acc.fv(), i as int),
        decreases n - i,
    {
        let j = skip_ws(s, n, i);
        if starts_with_at(s, n, j, "||") {
            proof {
                reveal_strlit("||");
            }
            let ghost acc0 = acc;
            let (rhs, np2) = match p_filter_and(s, n, skip_ws(s, n, j + 2)) {
                Ok(t) => t,
                Err(e) => {
                    return Err(e);
                },
            };
            acc = FilterExpr::Or(Box::new(acc), Box::new(rhs));
            proof {
                assert(acc.fv() =~= crate::ast::FilterV::Or(seq![acc0.fv(), rhs.fv()]));
            }
            i = np2;
        } else {
            return Ok((acc, i));
        }
    }
}

/// `a && b && ...`
fn p_filter_and(s: &str, n: usize, pos: usize) -> (r: Result<
    (FilterExpr, usize),
    JsonPathParserError,
>)
    requires
        pos <= n,
        n == s@.len(),
    ensures
        r is Ok ==> pos < r->Ok_0.1 <= n && wf_filter(r->Ok_0.0),
        (r is Ok) == (sp_and(s@, pos as int) is POk),
        r is Ok ==> sp_and(s@, pos as int) == PRes::POk(r->Ok_0.0.fv(), r->Ok_0.1 as int),
        r is Err ==> !(sp_and(s@, pos as int) is POk) && ((r->Err_0 is ParseError) <==> (sp_and(
            s@,
            pos as int,
        ) is PErr)),
    decreases n - pos, 3int,
{
    let (first, np) = match p_filter_not(s, n, pos) {
        Ok(t) => t,
        Err(e) => {
            return Err(e);
        },
    };
    let mut acc = first;
    let mut i = np;
    proof {
        assert(sp_and(s@, pos as int) == sp_and_rest(s@, acc.fv(), i as int));
    }
    loop
        invariant
            pos < i <= n,
            n == s@.len(),
            wf_filter(acc),
            sp_and(s@, pos as int) == sp_and_rest(s@, acc.fv(), i as int),
        decreases n - i,
    {
        let j = skip_ws(s, n, i);
        if starts_with_at(s, n, j, "&&") {
            proof {
                reveal_strlit("&&");
            }
            let ghost acc0 = acc;
            let (rhs, np2) = match p_filter_not(s, n, skip_ws(s, n, j + 2)) {
                Ok(t) => t,
                Err(e) => {
                    return Err(e);
                },
            };
            acc = FilterExpr::And(Box::new(acc), Box::new(rhs));
            proof {
                assert(acc.fv() =~= crate::ast::FilterV::And(seq![acc0.fv(), rhs.fv()]));
            }
            i = np2;
        } else {
            return Ok((acc, i));
        }
    }
}

/// `!atom` or an atom: `!` negates the whole atom after it.
fn p_filter_not(s: &str, n: usize, pos: usize) -> (r: Result<
    (FilterExpr, usize),
    JsonPathParserError,
>)
    requires
        pos <= n,
        n == s@.len(),
    ensures
        r is Ok ==> pos < r->Ok_0.1 <= n && wf_filter(r->Ok_0.0),
        (r is Ok) == (sp_not(s@, pos as int) is POk),
        r is Ok ==> sp_not(s@, pos as int) == PRes::POk(r->Ok_0.0.fv(), r->Ok_0.1 as int),
        r is Err ==> !(sp_not(s@, pos as int) is POk) && ((r->Err_0 is ParseError) <==> (sp_not(
            s@,
            pos as int,
        ) is PErr)),
    decreases n - pos, 2int,
{
    if pos < n && s.get_char(pos) == '!' {
        let (inner, np) = match p_filter_atom(s, n, skip_ws(s, n, pos + 1)) {
            Ok(t) => t,
            Err(e) => {
                return Err(e);
            },
        };
        let nf = FilterExpr::Not(Box::new(inner));
        proof {
            assert(nf.fv() =~= crate::ast::FilterV::Not(seq![inner.fv()]));
        }
        Ok((nf, np))
    } else {
        p_filter_atom(s, n, pos)
    }
}

/// A parenthesized filter, a comparison, a `size` test, or a bare
/// existence test.
#[verifier::rlimit(80)]
#[verifier::spinoff_prover]
fn p_filter_atom(s: &str, n: usize, pos: usize) -> (r: Result<
    (FilterExpr, usize),
    JsonPathParserError,
>)
    requires
        pos <= n,
        n == s@.len(),
    ensures
        r is Ok ==> pos < r->Ok_0.1 <= n && wf_filter(r->Ok_0.0),
        (r is Ok) == (sp_atom(s@, pos as int) is POk),
        r is Ok ==> sp_atom(s@, pos as int) == PRes::POk(r->Ok_0.0.fv(), r->Ok_0.1 as int),
        r is Err ==> !(sp_atom(s@, pos as int) is POk) && ((r->Err_0 is ParseError) <==> (sp_atom(
            s@,
            pos as int,
        ) is PErr)),
    decreases n - pos, 1int,
{
    if pos < n && s.get_char(pos) == '(' {
        let (inner, np) = match p_filter_or(s, n, skip_ws(s, n, pos + 1)) {
            Ok(t) => t,
            Err(e) => {
                return Err(e);
            },
        };
        let after = skip_ws(s, n, np);
        if !(after < n && s.get_char(after) == ')') {
            return Err(perr(after, "expected ')'"));
        }
        return Ok((inner, after + 1));
    }
    let (left, np) = match p_operand(s, n, pos) {
        Ok(t) => t,
        Err(e) => {
            return Err(e);
        },
    };
    let i = skip_ws(s, n, np);
    let two = if starts_with_at(s, n, i, "==") {
        Some(CmpOp::Eq)
    } else if starts_with_at(s, n, i, "!=") {
        Some(CmpOp::Ne)
    } else if starts_with_at(s, n, i, "<=") {
        Some(CmpOp::Le)
    } else if starts_with_at(s, n, i, ">=") {
        Some(CmpOp::Ge)
    } else if starts_with_at(s, n, i, "~=") {
        Some(CmpOp::Regex)
    } else {
        None
    };
    if let Some(op) = two {
        proof {
            reveal_strlit("==");
            reveal_strlit("!=");
            reveal_strlit("<=");
            reveal_strlit(">=");
            reveal_strlit("~=");
        }
        let rp = skip_ws(s, n, i + 2);
        let (right, np2) = match p_operand(s, n, rp) {
            Ok(t) => t,
            Err(e) => {
                proof {
                    assert(sp_atom(s@, pos as int) == sp_cmp_tail(s@, op, left.ov(), rp as int));
                }
                return Err(e);
            },
        };
        proof {
            assert(sp_atom(s@, pos as int) == sp_cmp_tail(s@, op, left.ov(), rp as int));
        }
        return finish_cmp(op, left, right, np2);
    }
    if i < n && s.get_char(i) == '<' {
        let rp = skip_ws(s, n, i + 1);
        let (right, np2) = match p_operand(s, n, rp) {
            Ok(t) => t,
            Err(e) => {
                proof {
                    assert(sp_atom(s@, pos as int) == sp_cmp_tail(
                        s@,
                        CmpOp::Lt,
                        left.ov(),
                        rp as int,
                    ));
                }
                return Err(e);
            },
        };
        proof {
            assert(sp_atom(s@, pos as int) == sp_cmp_tail(s@, CmpOp::Lt, left.ov(), rp as int));
        }
        return finish_cmp(CmpOp::Lt, left, right, np2);
    }
    if i < n && s.get_char(i) == '>' {
        let rp = skip_ws(s, n, i + 1);
        let (right, np2) = match p_operand(s, n, rp) {
            Ok(t) => t,
            Err(e) => {
                proof {
                    assert(sp_atom(s@, pos as int) == sp_cmp_tail(
                        s@,
                        CmpOp::Gt,
                        left.ov(),
                        rp as int,
                    ));
                }
                return Err(e);
            },
        };
        proof {
            assert(sp_atom(s@, pos as int) == sp_cmp_tail(s@, CmpOp::Gt, left.ov(), rp as int));
        }
        return finish_cmp(CmpOp::Gt, left, right, np2);
    }
    let word = if starts_with_at(s, n, i, "nin") {
        Some((CmpOp::Nin, 3usize))
    } else if starts_with_at(s, n, i, "in") {
        Some((CmpOp::In, 2usize))
    } else if starts_with_at(s, n, i, "subsetOf") {
        Some((CmpOp::SubsetOf, 8usize))
    } else if starts_with_at(s, n, i, "anyOf") {
        Some((CmpOp::AnyOf, 5usize))
    } else if starts_with_at(s, n, i, "noneOf") {
        Some((CmpOp::NoneOf, 6usize))
    } else {
        None
    };
    if let Some((op, w)) = word {
        proof {
            reveal_strlit("nin");
            reveal_strlit("in");
            reveal_strlit("subsetOf");
            reveal_strlit("anyOf");
            reveal_strlit("noneOf");
        }
        if w > n - i {
            proof {
                assert(false);
            }
            return Err(perr(i, "expected an operand"));
        }
        let rp = skip_ws(s, n, i + w);
        let (right, np2) = match p_operand(s, n, rp) {
            Ok(t) => t,
            Err(e) => {
                proof {
                    assert(sp_atom(s@, pos as int) == sp_cmp_tail(s@, op, left.ov(), rp as int));
                }
                return Err(e);
            },
        };
        proof {
            assert(sp_atom(s@, pos as int) == sp_cmp_tail(s@, op, left.ov(), rp as int));
        }
        return finish_cmp(op, left, right, np2);
    }
    if starts_with_at(s, n, i, "size") {
        proof {
            reveal_strlit("size");
        }
        let (v, np2) = match p_int(s, n, skip_ws(s, n, i + 4)) {
            Ok(t) => t,
            Err(e) => {
                return Err(e);
            },
        };
        return Ok((FilterExpr::SizeIs(left, v), np2));
    }
    Ok((FilterExpr::Exists(left), np))
}

/// Builds a comparison, validating a `~=` pattern at compile time.
fn finish_cmp(op: CmpOp, left: Operand, right: Operand, np: usize) -> (r: Result<
    (FilterExpr, usize),
    JsonPathParserError,
>)
    requires
        wf_operand(left),
        wf_operand(right),
    ensures
        r is Ok ==> r->Ok_0.1 == np && wf_filter(r->Ok_0.0),
        (r is Ok) == (!(op is Regex) || crate::ast::regex_lit_v(right.ov())),
        r is Ok ==> r->Ok_0.0.fv() == crate::ast::FilterV::Cmp(op, left.ov(), right.ov()),
        r is Err ==> r->Err_0 is CompileError,
{
    let is_regex = match op {
        CmpOp::Regex => true,
        _ => false,
    };
    if is_regex {
        let ok = match &right {
            Operand::Lit(j) => match j {
                Json::Str(p) => crate::regex_ops::regex_valid(p.as_str()),
                _ => false,
            },
            _ => false,
        };
        if !ok {
            return Err(cerr("the right side of '~=' must be a valid regex string literal"));
        }
        proof {
            assert(regex_lit(right));
            assert(crate::ast::regex_lit_v(right.ov()));
        }
    }
    Ok((FilterExpr::Cmp(op, left, right), np))
}

/// An operand: a literal, or a sub-path headed by `$` or `@`.
#[verifier::rlimit(80)]
#[verifier::spinoff_prover]
fn p_operand(s: &str, n: usize, pos: usize) -> (r: Result<(Operand, usize), JsonPathParserError>)
    requires
        pos <= n,
        n == s@.len(),
    ensures
        r is Ok ==> pos < r->Ok_0.1 <= n && wf_operand(r->Ok_0.0),
        (r is Ok) == (sp_operand(s@, pos as int) is POk),
        r is Ok ==> sp_operand(s@, pos as int) == PRes::POk(r->Ok_0.0.ov(), r->Ok_0.1 as int),
        r is Err ==> !(sp_operand(s@, pos as int) is POk) && ((r->Err_0 is ParseError) <==> (
        sp_operand(s@, pos as int) is PErr)),
    decreases n - pos, 0int,
{
    if pos >= n {
        return Err(perr(pos, "expected an operand"));
    }
    let c = s.get_char(pos);
    if c == '$' || c == '@' {
        let mut segs: Vec<Segment> = Vec::new();
        if c == '$' {
            segs.push(Segment::Root);
        } else {
            segs.push(Segment::Current);
        }
        proof {
            assert(crate::ast::segs_v(segs@) =~= seq![
                (if c == '$' {
                    crate::ast::SegV::Root
                } else {
                    crate::ast::SegV::Current
                }),
            ]);
        }
        let (segs, i) = match p_subsegs(s, n, segs, pos + 1) {
            Ok(t) => t,
            Err(e) => {
                return Err(e);
            },
        };
        let jp = JsonPath { segs };
        proof {
            assert(wf_subpath(jp));
        }
        return Ok((Operand::Path(jp), i));
    }
    match p_literal(s, n, pos) {
        Ok((j, np)) => Ok((Operand::Lit(j), np)),
        Err(e) => Err(e),
    }
}

/// Parses a whole JSONPath expression: `$` followed by segments. The
/// contract is exact: the result is `Ok` for precisely the texts that
/// [`spec_parse`] accepts, the compiled tree is precisely the one it
/// describes, and the error kind (grammar position vs compile rule)
/// matches its rejection kind.
pub fn parse_json_path(s: &str) -> (r: Result<JsonPath, JsonPathParserError>)
    ensures
        r is Ok ==> wf_path(r->Ok_0),
        (r is Ok) == (spec_parse(s@) is POk),
        r is Ok ==> spec_parse(s@)->POk_0 == crate::ast::path_v(r->Ok_0),
        r is Err ==> !(spec_parse(s@) is POk) && ((r->Err_0 is ParseError) <==> (spec_parse(s@)
            is PErr)),
{
    let n = s.unicode_len();
    let start = skip_ws(s, n, 0);
    if !(start < n && s.get_char(start) == '$') {
        return Err(perr(start, "a path must start with '$'"));
    }
    let mut segs: Vec<Segment> = Vec::new();
    segs.push(Segment::Root);
    proof {
        assert(crate::ast::segs_v(segs@) =~= seq![crate::ast::SegV::Root]);
    }
    let mut i = start + 1;
    while i < n
        invariant
            i <= n,
            n == s@.len(),
            segs@.len() >= 1,
            segs@[0] is Root,
            forall|k: int|
                1 <= k < segs@.len() ==> wf_seg(#[trigger] segs@[k]) && !(segs@[k] is Root) && !(
                segs@[k] is Current),
            spec_parse(s@) == sp_main(s@, crate::ast::segs_v(segs@), i as int),
        decreases n - i,
    {
        if is_ws(s.get_char(i)) {
            let j = skip_ws(s, n, i);
            if j < n {
                return Err(perr(i, "unexpected whitespace inside the path"));
            }
            let jp = JsonPath { segs };
            proof {
                assert(wf_path(jp));
            }
            return Ok(jp);
        }
        let ghost segs0 = segs@;
        let (mut part, np) = match p_segment(s, n, i) {
            Ok(t) => t,
            Err(e) => {
                return Err(e);
            },
        };
        let ghost part0 = part@;
        segs.append(&mut part);
        proof {
            lemma_segs_v_concat(segs0, part0);
        }
        i = np;
    }
    let jp = JsonPath { segs };
    proof {
        assert(wf_path(jp));
    }
    Ok(jp)
}

/// Compile determinism: what a text parses to is a function of the text
/// alone, so compiling the same text twice accepts or rejects together
/// and, with the `ensures` of [`parse_json_path`], builds trees with the
/// same model.
pub proof fn lemma_compile_deterministic(s1: Seq<char>, s2: Seq<char>)
    requires
        s1 == s2,
    ensures
        spec_parse(s1) == spec_parse(s2),
{
}

} // verus!
