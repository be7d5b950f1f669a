use vstd::prelude::*;

use crate::ast::{defs_model, well_formed_defs, Condition, Def, Definition, Ex, Expression, Op, Parameter, Program, ProgramModel};
use crate::lexer::{
    alnum_end, alpha_end, has_prefix, is_alpha, is_alnum, is_digit, is_lower, is_space, lemma_alnum_end,
    lemma_alpha_end, lemma_lower_end, lemma_space_end, lower_end, remove_blanks, scan_alnum, scan_alpha,
    scan_lower, scan_space, slice, space_char, space_end, starts_with, strip_blanks, trim, trimmed,
};
use crate::names::{chars_of, string_of_chars};

verus! {

/// Why program text could not be parsed. A malformed parameter list makes the whole `def` line
/// malformed, so it is reported as `MalformedHeader`.
#[derive(PartialEq, Eq, Structural, Clone, Copy, Debug)]
pub enum ParseError {
    /// The `def` line does not have the shape `def <id>(<param>, ...):`.
    MalformedHeader,
    /// A line before the `def` line is neither blank nor a comment.
    UnexpectedContentBeforeDefinition,
    /// No line starts with `def`.
    MissingFunctionDefinition,
    /// A body line is neither an assignment nor a return of the accepted shape.
    MalformedDefinitionLine,
    /// The body has no return, or a return that is not its last definition.
    MissingOrMisplacedReturn,
    /// The last definition of the body is an assignment.
    LastStatementNotReturn,
    /// A right-hand side does not follow the expression grammar.
    UnparsableExpression,
}

/// A parse error with its context: the index of the offending line (the number of lines
/// when the text ends too early), and the identifier of the function once its header is read
/// (empty before that).
#[derive(Debug)]
pub struct ParseFailure {
    pub kind: ParseError,
    pub line: usize,
    pub function: String,
}

/// A variable name: a letter, then letters and digits.
pub open spec fn is_var_token(t: Seq<char>) -> bool {
    t.len() >= 1 && is_alpha(t[0]) && alnum_end(t, 0) == t.len()
}

/// An integer literal: one or more digits.
pub open spec fn is_num_token(t: Seq<char>) -> bool {
    t.len() >= 1 && forall|i: int| 0 <= i < t.len() ==> is_digit(#[trigger] t[i])
}

/// The value of a string of digits.
pub open spec fn num_value(t: Seq<char>) -> nat
    decreases t.len(),
{
    if t.len() == 0 {
        0
    } else {
        num_value(t.drop_last()) * 10 + ((t.last() as nat) - ('0' as nat)) as nat
    }
}

/// The largest literal value.
pub const LITERAL_MAX: u32 = 2147483647;

/// An atom: a variable, or a literal whose value fits the literal type.
pub open spec fn atom(t: Seq<char>) -> Option<Ex> {
    if is_var_token(t) {
        Some(Ex::Var(t))
    } else if is_num_token(t) && num_value(t) <= LITERAL_MAX {
        Some(Ex::Num(num_value(t) as int))
    } else {
        None
    }
}

pub open spec fn is_op_char(c: char) -> bool {
    c == '+' || c == '-' || c == '*' || c == '/'
}

pub open spec fn op_of(c: char) -> Op {
    if c == '+' { Op::Add } else if c == '-' { Op::Sub } else if c == '*' { Op::Mult } else { Op::Div }
}

/// Position of the first `:` of `s` at or after `i`, or `s.len()`.
pub open spec fn colon_at(s: Seq<char>, i: nat) -> nat
    decreases s.len() - i,
{
    if i >= s.len() { s.len() } else if s[i as int] == ':' { i } else { colon_at(s, i + 1) }
}

/// The expression denoted by `s`, which holds no blanks. The left operand of a binary operation
/// is always one atom and only the right one nests; `a < b ? c : d` compares two atoms.
pub open spec fn parse_expr(s: Seq<char>) -> Option<Ex>
    decreases s.len(),
{
    let k = alnum_end(s, 0);
    if 1 <= k && k + 1 < s.len() && is_op_char(s[k as int]) {
        let pow = s[k as int] == '*' && s[k + 1 as int] == '*' && k + 2 < s.len();
        let start: nat = if pow { k + 2 } else { k + 1 };
        let rt = s.subrange(start as int, s.len() as int);
        let lhs = atom(s.subrange(0, k as int));
        let rhs = if is_var_token(rt) || is_num_token(rt) { atom(rt) } else { parse_expr(rt) };
        if lhs is None || rhs is None {
            None
        } else if pow {
            if is_num_token(rt) {
                Some(Ex::Pow(Box::new(lhs->0), Box::new(rhs->0)))
            } else {
                None
            }
        } else {
            Some(Ex::Bin(op_of(s[k as int]), Box::new(lhs->0), Box::new(rhs->0)))
        }
    } else if 1 <= k && k == s.len() {
        atom(s)
    } else {
        parse_ternary(s)
    }
}

/// `a < b ? c : d`, with exactly one `:`.
pub open spec fn parse_ternary(s: Seq<char>) -> Option<Ex>
    decreases s.len(), 0nat,
{
    let k = alnum_end(s, 0);
    let k2 = alnum_end(s, k + 1);
    let c = colon_at(s, k2 + 1);
    if 1 <= k && k < s.len() && s[k as int] == '<' && k + 1 < k2 && k2 < s.len() && s[k2 as int] == '?'
        && k2 + 1 < c && c + 1 < s.len() && colon_at(s, c + 1) == s.len() {
        let a = atom(s.subrange(0, k as int));
        let b = atom(s.subrange(k + 1 as int, k2 as int));
        let t = parse_expr(s.subrange(k2 + 1 as int, c as int));
        let f = parse_expr(s.subrange(c + 1 as int, s.len() as int));
        if a is Some && b is Some && t is Some && f is Some {
            Some(Ex::IfLt(Box::new(a->0), Box::new(b->0), Box::new(t->0), Box::new(f->0)))
        } else {
            None
        }
    } else {
        None
    }
}

pub proof fn lemma_num_value_prefix(t: Seq<char>, i: nat)
    requires
        i <= t.len(),
        is_num_token(t),
    ensures
        num_value(t.subrange(0, i as int)) <= num_value(t),
    decreases t.len(),
{
    if i < t.len() {
        let p = t.drop_last();
        assert(p.subrange(0, i as int) =~= t.subrange(0, i as int));
        assert(is_num_token(p) || p.len() == 0);
        if p.len() > 0 {
            lemma_num_value_prefix(p, i);
        } else {
            assert(t.subrange(0, i as int) =~= seq![]);
        }
    } else {
        assert(t.subrange(0, i as int) =~= t);
    }
}

fn var_token(t: &Vec<char>) -> (r: bool)
    ensures
        r == is_var_token(t@),
{
    t.len() >= 1 && (('a' <= t[0] && t[0] <= 'z') || ('A' <= t[0] && t[0] <= 'Z')) && scan_alnum(t, 0) == t.len()
}

fn num_token(t: &Vec<char>) -> (r: bool)
    ensures
        r == is_num_token(t@),
{
    if t.len() == 0 {
        return false;
    }
    let mut i: usize = 0;
    while i < t.len()
        invariant
            0 <= i <= t@.len(),
            forall|j: int| 0 <= j < i ==> is_digit(#[trigger] t@[j]),
        decreases t@.len() - i,
    {
        if !('0' <= t[i] && t[i] <= '9') {
            return false;
        }
        i = i + 1;
    }
    true
}

/// The value of a literal, when it fits.
fn literal_value(t: &Vec<char>) -> (r: Option<i32>)
    requires
        is_num_token(t@),
    ensures
        r is Some <==> num_value(t@) <= LITERAL_MAX,
        r is Some ==> r->0 as int == num_value(t@),
{
    let mut v: u64 = 0;
    let mut i: usize = 0;
    while i < t.len()
        invariant
            is_num_token(t@),
            0 <= i <= t@.len(),
            v == num_value(t@.subrange(0, i as int)),
            v <= LITERAL_MAX,
        decreases t@.len() - i,
    {
        let ghost pre = t@.subrange(0, i as int);
        assert(t@.subrange(0, i + 1).drop_last() =~= pre);
        assert(is_digit(t@[i as int]));
        let d = (t[i] as u32 - '0' as u32) as u64;
        v = v * 10 + d;
        i = i + 1;
        if v > LITERAL_MAX as u64 {
            proof { lemma_num_value_prefix(t@, i as nat); }
            return None;
        }
    }
    assert(t@.subrange(0, t@.len() as int) =~= t@);
    Some(v as i32)
}

/// The atom written by `t`, if it is one.
fn parse_atom(t: &Vec<char>) -> (r: Option<Expression>)
    ensures
        match atom(t@) {
            Some(e) => r is Some && r->0.model() == e,
            None => r is None,
        },
{
    if var_token(t) {
        let name = crate::names::string_of_chars(t);
        Some(Expression::VariableReference(name))
    } else if num_token(t) {
        match literal_value(t) {
            Some(v) => Some(Expression::NumberLiteral(v)),
            None => None,
        }
    } else {
        None
    }
}

fn find_colon(s: &Vec<char>, i: usize) -> (r: usize)
    requires
        i <= s@.len(),
    ensures
        r == colon_at(s@, i as nat),
        i <= r <= s@.len(),
{
    let mut j = i;
    while j < s.len() && s[j] != ':'
        invariant
            i <= j <= s@.len(),
            colon_at(s@, j as nat) == colon_at(s@, i as nat),
        decreases s@.len() - j,
    {
        j = j + 1;
    }
    j
}

/// Parses an expression written without blanks.
pub fn parse_expression(s: &Vec<char>) -> (r: Result<Expression, ParseError>)
    ensures
        match parse_expr(s@) {
            Some(e) => r is Ok && r->Ok_0.model() == e,
            None => r == Err::<Expression, ParseError>(ParseError::UnparsableExpression),
        },
    decreases s@.len(),
{
    let k = scan_alnum(s, 0);
    proof { lemma_alnum_end(s@, 0); }
    if 1 <= k && k < s.len() && k + 1 < s.len() && (s[k] == '+' || s[k] == '-' || s[k] == '*' || s[k] == '/') {
        let pow = s[k] == '*' && s[k + 1] == '*' && k + 2 < s.len();
        let start = if pow { k + 2 } else { k + 1 };
        let rt = slice(s, start, s.len());
        let lt = slice(s, 0, k);
        let lhs = match parse_atom(&lt) {
            Some(e) => e,
            None => return Err(ParseError::UnparsableExpression),
        };
        let rhs = if var_token(&rt) || num_token(&rt) {
            match parse_atom(&rt) {
                Some(e) => e,
                None => return Err(ParseError::UnparsableExpression),
            }
        } else {
            match parse_expression(&rt) {
                Ok(e) => e,
                Err(x) => return Err(x),
            }
        };
        let l = Box::new(lhs);
        let r = Box::new(rhs);
        if pow {
            if num_token(&rt) { Ok(Expression::Pow(l, r)) } else { Err(ParseError::UnparsableExpression) }
        } else if s[k] == '+' {
            Ok(Expression::Add(l, r))
        } else if s[k] == '-' {
            Ok(Expression::Sub(l, r))
        } else if s[k] == '*' {
            Ok(Expression::Mult(l, r))
        } else {
            Ok(Expression::Div(l, r))
        }
    } else if 1 <= k && k == s.len() {
        match parse_atom(s) {
            Some(e) => Ok(e),
            None => Err(ParseError::UnparsableExpression),
        }
    } else {
        parse_conditional(s)
    }
}

/// Parses `a < b ? c : d` written without blanks.
fn parse_conditional(s: &Vec<char>) -> (r: Result<Expression, ParseError>)
    ensures
        match parse_ternary(s@) {
            Some(e) => r is Ok && r->Ok_0.model() == e,
            None => r == Err::<Expression, ParseError>(ParseError::UnparsableExpression),
        },
    decreases s@.len(), 0nat,
{
    let k = scan_alnum(s, 0);
    proof { lemma_alnum_end(s@, 0); }
    if !(1 <= k && k < s.len() && s[k] == '<') {
        return Err(ParseError::UnparsableExpression);
    }
    let k2 = scan_alnum(s, k + 1);
    proof { lemma_alnum_end(s@, (k + 1) as nat); }
    if !(k + 1 < k2 && k2 < s.len() && s[k2] == '?') {
        return Err(ParseError::UnparsableExpression);
    }
    let c = find_colon(s, k2 + 1);
    if !(k2 + 1 < c && c < s.len() && c + 1 < s.len()) {
        return Err(ParseError::UnparsableExpression);
    }
    if find_colon(s, c + 1) != s.len() {
        return Err(ParseError::UnparsableExpression);
    }
    let a = match parse_atom(&slice(s, 0, k)) {
        Some(e) => e,
        None => return Err(ParseError::UnparsableExpression),
    };
    let b = match parse_atom(&slice(s, k + 1, k2)) {
        Some(e) => e,
        None => return Err(ParseError::UnparsableExpression),
    };
    let t = match parse_expression(&slice(s, k2 + 1, c)) {
        Ok(e) => e,
        Err(x) => return Err(x),
    };
    let f = match parse_expression(&slice(s, c + 1, s.len())) {
        Ok(e) => e,
        Err(x) => return Err(x),
    };
    let ghost (am, bm, tm, fm) = (a.model(), b.model(), t.model(), f.model());
    let cond = Condition::LessThan(a, b);
    let r = Expression::IfElse(Box::new(cond), Box::new(t), Box::new(f));
    assert(r.model() == Ex::IfLt(Box::new(am), Box::new(bm), Box::new(tm), Box::new(fm)));
    Ok(r)
}

/// A character allowed in a right-hand side, after `=` or `return`.
pub open spec fn in_rhs_class(c: char) -> bool {
    is_alnum(c) || is_space(c) || is_op_char(c) || c == '<' || c == '?' || c == ':'
}

pub open spec fn all_rhs_class(s: Seq<char>) -> bool {
    forall|i: int| 0 <= i < s.len() ==> in_rhs_class(#[trigger] s[i])
}

/// The expression of a right-hand side, blanks removed.
pub open spec fn rhs_expr(rhs: Seq<char>) -> Result<Ex, ParseError> {
    match parse_expr(strip_blanks(rhs)) {
        Some(e) => Ok(e),
        None => Err(ParseError::UnparsableExpression),
    }
}

/// A trimmed line that starts with `return`.
pub open spec fn return_line(t: Seq<char>) -> Result<Def, ParseError> {
    let rhs = t.subrange(space_end(t, 6) as int, t.len() as int);
    if rhs.len() >= 1 && all_rhs_class(rhs) {
        match rhs_expr(rhs) {
            Ok(e) => Ok(Def::Ret(e)),
            Err(x) => Err(x),
        }
    } else {
        Err(ParseError::MalformedDefinitionLine)
    }
}

/// Does an assignment `<letters> = <rhs>` whose letters end at `j` follow?
pub open spec fn assign_tail(t: Seq<char>, j: nat) -> bool {
    let q = space_end(t, j);
    q < t.len() && t[q as int] == '=' && q + 1 < t.len()
        && all_rhs_class(t.subrange(q + 1 as int, t.len() as int))
}

/// A trimmed line of the shape `<letters> = <rhs>`, the letters starting the line.
pub open spec fn assign_line(t: Seq<char>) -> Result<Def, ParseError> {
    if t.len() >= 1 && is_alpha(t[0]) && assign_tail(t, alpha_end(t, 0)) {
        let j = alpha_end(t, 0);
        let q = space_end(t, j);
        let rest = t.subrange(q + 1 as int, t.len() as int);
        match rhs_expr(rest.subrange(space_end(rest, 0) as int, rest.len() as int)) {
            Ok(e) => Ok(Def::Assign(t.subrange(0, j as int), e)),
            Err(x) => Err(x),
        }
    } else {
        Err(ParseError::MalformedDefinitionLine)
    }
}

/// A trimmed line that is a return: the word `return`, then whitespace or the end of the line.
pub open spec fn is_return_line(t: Seq<char>) -> bool {
    starts_with(t, return_word()) && (t.len() == 6 || is_space(t[6]))
}

pub open spec fn comment_mark() -> Seq<char> {
    seq!['/', '/']
}

pub open spec fn return_word() -> Seq<char> {
    seq!['r', 'e', 't', 'u', 'r', 'n']
}

pub open spec fn def_word() -> Seq<char> {
    seq!['d', 'e', 'f']
}

/// A blank line or a comment.
pub open spec fn is_skipped(line: Seq<char>) -> bool {
    line.len() == 0 || starts_with(trim(line), comment_mark())
}

/// What a body line contributes: nothing, a definition, or an error.
pub open spec fn body_line(line: Seq<char>) -> Option<Result<Def, ParseError>> {
    if is_skipped(line) {
        None
    } else if is_return_line(trim(line)) {
        Some(return_line(trim(line)))
    } else {
        Some(assign_line(trim(line)))
    }
}

/// The parameter names of a header from position `i`, and where the list ends.
pub open spec fn params_from(x: Seq<char>, i: nat) -> Option<(Seq<Seq<char>>, nat)>
    decreases x.len() - i
    via params_from_decreases
{
    let e = lower_end(x, i);
    if e <= i {
        None
    } else if e < x.len() && x[e as int] == ',' {
        match params_from(x, space_end(x, e + 1)) {
            Some((ps, end)) => Some((seq![x.subrange(i as int, e as int)] + ps, end)),
            None => None,
        }
    } else {
        Some((seq![x.subrange(i as int, e as int)], e))
    }
}

#[via_fn]
proof fn params_from_decreases(x: Seq<char>, i: nat) {
    lemma_lower_end(x, i);
    let e = lower_end(x, i);
    lemma_space_end(x, e + 1);
}

/// The identifier and parameters of a `def` line.
pub open spec fn header(x: Seq<char>) -> Option<(Seq<char>, Seq<Seq<char>>)> {
    let j = alnum_end(x, 5);
    if x.len() > 5 && is_space(x[3]) && is_alpha(x[4]) && j < x.len() && x[j as int] == '(' {
        match params_from(x, space_end(x, j + 1)) {
            Some((ps, end)) => {
                let q = space_end(x, end);
                if q + 2 == x.len() && x[q as int] == ')' && x[q + 1 as int] == ':' {
                    Some((x.subrange(4, j as int), ps))
                } else {
                    None
                }
            },
            None => None,
        }
    } else {
        None
    }
}

/// Index of the `def` line: blank lines and comments may precede it, nothing else.
pub open spec fn find_header(lines: Seq<Seq<char>>, i: nat) -> Result<nat, ParseError>
    decreases lines.len() - i,
{
    if i >= lines.len() {
        Err(ParseError::MissingFunctionDefinition)
    } else if starts_with(lines[i as int], def_word()) {
        Ok(i)
    } else if is_skipped(lines[i as int]) {
        find_header(lines, i + 1)
    } else {
        Err(ParseError::UnexpectedContentBeforeDefinition)
    }
}

/// The definitions of body lines `h + 1 .. n`, or the error of the first bad one.
pub open spec fn body_prefix(lines: Seq<Seq<char>>, h: nat, n: nat) -> Result<Seq<Def>, ParseError>
    decreases n,
{
    if n <= h + 1 || n > lines.len() {
        Ok(seq![])
    } else {
        match body_prefix(lines, h, (n - 1) as nat) {
            Err(x) => Err(x),
            Ok(ds) => match body_line(lines[n - 1]) {
                None => Ok(ds),
                Some(Err(x)) => Err(x),
                Some(Ok(d)) => Ok(ds.push(d)),
            },
        }
    }
}

/// A body must end in its only return.
pub open spec fn check_body(ds: Seq<Def>) -> Result<Seq<Def>, ParseError> {
    if ds.len() == 0 {
        Err(ParseError::MissingOrMisplacedReturn)
    } else if ds.last() is Assign {
        Err(ParseError::LastStatementNotReturn)
    } else if exists|i: int| 0 <= i < ds.len() - 1 && (#[trigger] ds[i]) is Ret {
        Err(ParseError::MissingOrMisplacedReturn)
    } else {
        Ok(ds)
    }
}

/// The program written by `lines`, or the first error found in it.
pub open spec fn parse_spec(lines: Seq<Seq<char>>) -> Result<ProgramModel, ParseError> {
    match find_header(lines, 0) {
        Err(x) => Err(x),
        Ok(h) => match header(lines[h as int]) {
            None => Err(ParseError::MalformedHeader),
            Some((id, args)) => match body_prefix(lines, h, lines.len()) {
                Err(x) => Err(x),
                Ok(ds) => match check_body(ds) {
                    Err(x) => Err(x),
                    Ok(ds) => Ok(ProgramModel { id, args, defs: ds }),
                },
            },
        },
    }
}

/// Where the search for the `def` line stops, from line `i` on.
pub open spec fn header_stop(lines: Seq<Seq<char>>, i: nat) -> nat
    decreases lines.len() - i,
{
    if i >= lines.len() {
        lines.len()
    } else if starts_with(lines[i as int], def_word()) {
        i
    } else if is_skipped(lines[i as int]) {
        header_stop(lines, i + 1)
    } else {
        i
    }
}

/// The index of the first body line before `n` whose parsing fails.
pub open spec fn first_bad(lines: Seq<Seq<char>>, h: nat, n: nat) -> nat
    decreases n,
{
    if n <= h + 1 || n > lines.len() {
        lines.len()
    } else if body_prefix(lines, h, (n - 1) as nat) is Err {
        first_bad(lines, h, (n - 1) as nat)
    } else {
        (n - 1) as nat
    }
}

/// The line that a parse error of `lines` is reported at.
pub open spec fn failure_line(lines: Seq<Seq<char>>) -> nat {
    match find_header(lines, 0) {
        Err(_) => header_stop(lines, 0),
        Ok(h) => if header(lines[h as int]) is None {
            h
        } else if body_prefix(lines, h, lines.len()) is Err {
            first_bad(lines, h, lines.len())
        } else {
            lines.len()
        },
    }
}

/// The function identifier that a parse error of `lines` is reported with.
pub open spec fn failure_function(lines: Seq<Seq<char>>) -> Seq<char> {
    match find_header(lines, 0) {
        Err(_) => seq![],
        Ok(h) => match header(lines[h as int]) {
            None => seq![],
            Some((id, _)) => id,
        },
    }
}

pub proof fn lemma_first_bad(lines: Seq<Seq<char>>, h: nat, i: nat, n: nat)
    requires
        h < i,
        i + 1 <= n <= lines.len(),
        body_prefix(lines, h, i) is Ok,
        body_prefix(lines, h, i + 1) is Err,
    ensures
        first_bad(lines, h, n) == i,
    decreases n,
{
    if n > i + 1 {
        lemma_body_err_extends(lines, h, i + 1, (n - 1) as nat);
        lemma_first_bad(lines, h, i, (n - 1) as nat);
    }
}

pub proof fn lemma_body_err_extends(lines: Seq<Seq<char>>, h: nat, k: nat, n: nat)
    requires
        k <= n <= lines.len(),
        body_prefix(lines, h, k) is Err,
    ensures
        body_prefix(lines, h, n) == body_prefix(lines, h, k),
    decreases n,
{
    if n > k {
        lemma_body_err_extends(lines, h, k, (n - 1) as nat);
    }
}

fn all_rhs_chars(s: &Vec<char>) -> (r: bool)
    ensures
        r == all_rhs_class(s@),
{
    let mut i: usize = 0;
    while i < s.len()
        invariant
            0 <= i <= s@.len(),
            forall|j: int| 0 <= j < i ==> in_rhs_class(#[trigger] s@[j]),
        decreases s@.len() - i,
    {
        let c = s[i];
        if !(alnum_char_or_space(c) || c == '+' || c == '-' || c == '*' || c == '/' || c == '<' || c == '?'
            || c == ':') {
            return false;
        }
        i = i + 1;
    }
    true
}

fn alnum_char_or_space(c: char) -> (r: bool)
    ensures
        r == (is_alnum(c) || is_space(c)),
{
    crate::lexer::alnum_char(c) || space_char(c)
}

/// Parses a right-hand side after removing its blanks.
fn parse_rhs(rhs: &Vec<char>) -> (r: Result<Expression, ParseError>)
    ensures
        match rhs_expr(rhs@) {
            Ok(e) => r is Ok && r->Ok_0.model() == e,
            Err(x) => r == Err::<Expression, ParseError>(x),
        },
{
    parse_expression(&remove_blanks(rhs))
}

fn parse_return(t: &Vec<char>) -> (r: Result<Definition, ParseError>)
    requires
        t@.len() >= 6,
    ensures
        match return_line(t@) {
            Ok(d) => r is Ok && r->Ok_0.model() == d,
            Err(x) => r is Err && r->Err_0 == x,
        },
{
    let i = scan_space(t, 6);
    proof { lemma_space_end(t@, 6); }
    let rhs = slice(t, i, t.len());
    if rhs.len() >= 1 && all_rhs_chars(&rhs) {
        match parse_rhs(&rhs) {
            Ok(e) => Ok(Definition::Return(e)),
            Err(x) => Err(x),
        }
    } else {
        Err(ParseError::MalformedDefinitionLine)
    }
}

fn has_assign_tail(t: &Vec<char>, j: usize) -> (r: bool)
    requires
        j <= t@.len(),
    ensures
        r == assign_tail(t@, j as nat),
{
    let q = scan_space(t, j);
    proof { lemma_space_end(t@, j as nat); }
    q < t.len() && t[q] == '=' && q + 1 < t.len() && all_rhs_chars(&slice(t, q + 1, t.len()))
}

fn parse_assignment(t: &Vec<char>) -> (r: Result<Definition, ParseError>)
    ensures
        match assign_line(t@) {
            Ok(d) => r is Ok && r->Ok_0.model() == d,
            Err(x) => r is Err && r->Err_0 == x,
        },
{
    if t.len() >= 1 && (('a' <= t[0] && t[0] <= 'z') || ('A' <= t[0] && t[0] <= 'Z')) {
        let j = scan_alpha(t, 0);
        proof { lemma_alpha_end(t@, 0); }
        if has_assign_tail(t, j) {
            let q = scan_space(t, j);
            proof { lemma_space_end(t@, j as nat); }
            let rest = slice(t, q + 1, t.len());
            let k = scan_space(&rest, 0);
            proof { lemma_space_end(rest@, 0); }
            let rhs = slice(&rest, k, rest.len());
            let name = string_of_chars(&slice(t, 0, j));
            return match parse_rhs(&rhs) {
                Ok(e) => Ok(Definition::Assignment(name, e)),
                Err(x) => Err(x),
            };
        }
    }
    Err(ParseError::MalformedDefinitionLine)
}

fn skipped(line: &Vec<char>) -> (r: bool)
    ensures
        r == is_skipped(line@),
{
    line.len() == 0 || has_prefix(&trimmed(line), &vec!['/', '/'])
}

/// What one body line contributes: nothing, a definition, or an error.
fn parse_body_line(line: &Vec<char>) -> (r: Option<Result<Definition, ParseError>>)
    ensures
        match body_line(line@) {
            None => r is None,
            Some(Ok(d)) => r is Some && r->0 is Ok && r->0->Ok_0.model() == d,
            Some(Err(x)) => r is Some && r->0 is Err && r->0->Err_0 == x,
        },
{
    if skipped(line) {
        return None;
    }
    let t = trimmed(line);
    let rw = vec!['r', 'e', 't', 'u', 'r', 'n'];
    assert(rw@ =~= return_word());
    if has_prefix(&t, &rw) && (t.len() == 6 || space_char(t[6])) {
        Some(parse_return(&t))
    } else {
        Some(parse_assignment(&t))
    }
}

fn parse_params(x: &Vec<char>, i: usize) -> (r: Option<(Vec<Parameter>, usize)>)
    requires
        i <= x@.len(),
    ensures
        match params_from(x@, i as nat) {
            Some((ps, end)) => r is Some && (r->Some_0).0@.map_values(|p: Parameter| p.id@) == ps
                && (r->Some_0).1 == end && end <= x@.len(),
            None => r is None,
        },
    decreases x@.len() - i,
{
    let e = scan_lower(x, i);
    proof { lemma_lower_end(x@, i as nat); }
    if e <= i {
        return None;
    }
    let p = Parameter { id: string_of_chars(&slice(x, i, e)) };
    if e < x.len() && x[e] == ',' {
        let q = scan_space(x, e + 1);
        proof { lemma_space_end(x@, (e + 1) as nat); }
        match parse_params(x, q) {
            Some((mut ps, end)) => {
                let ghost old_ps = ps@;
                ps.insert(0, p);
                assert(ps@.map_values(|p: Parameter| p.id@) =~= seq![x@.subrange(i as int, e as int)]
                    + old_ps.map_values(|p: Parameter| p.id@));
                Some((ps, end))
            },
            None => None,
        }
    } else {
        let ps = vec![p];
        assert(ps@.map_values(|p: Parameter| p.id@) =~= seq![x@.subrange(i as int, e as int)]);
        Some((ps, e))
    }
}

fn parse_header(x: &Vec<char>) -> (r: Option<(String, Vec<Parameter>)>)
    ensures
        match header(x@) {
            Some((id, ps)) => r is Some && (r->Some_0).0@ == id && (r->Some_0).1@.map_values(|p: Parameter| p.id@) == ps,
            None => r is None,
        },
{
    if !(x.len() > 5 && space_char(x[3]) && (('a' <= x[4] && x[4] <= 'z') || ('A' <= x[4] && x[4] <= 'Z'))) {
        return None;
    }
    let j = scan_alnum(x, 5);
    proof { lemma_alnum_end(x@, 5); }
    if !(j < x.len() && x[j] == '(') {
        return None;
    }
    let s = scan_space(x, j + 1);
    proof { lemma_space_end(x@, (j + 1) as nat); }
    match parse_params(x, s) {
        Some((ps, end)) => {
            let q = scan_space(x, end);
            proof { lemma_space_end(x@, end as nat); }
            if q < x.len() && q + 1 < x.len() && q + 2 == x.len() && x[q] == ')' && x[q + 1] == ':' {
                Some((string_of_chars(&slice(x, 4, j)), ps))
            } else {
                None
            }
        },
        None => None,
    }
}

/// The characters of each line.
pub open spec fn lines_model(lines: Seq<String>) -> Seq<Seq<char>> {
    lines.map_values(|l: String| l@)
}

fn line_chars(lines: &Vec<String>, i: usize) -> (r: Vec<char>)
    requires
        i < lines@.len(),
    ensures
        r@ == lines_model(lines@)[i as int],
{
    chars_of(lines[i].as_str())
}

/// Checks that a body ends in its only return.
fn check_definitions(defs: Vec<Definition>) -> (r: Result<Vec<Definition>, ParseError>)
    ensures
        match check_body(defs_model(defs@)) {
            Ok(ds) => r is Ok && defs_model(r->Ok_0@) == ds,
            Err(x) => r is Err && r->Err_0 == x,
        },
{
    let ghost ds = defs_model(defs@);
    let n = defs.len();
    if n == 0 {
        return Err(ParseError::MissingOrMisplacedReturn);
    }
    assert(ds.last() == defs@[n - 1].model());
    if let Definition::Assignment(_, _) = &defs[n - 1] {
        return Err(ParseError::LastStatementNotReturn);
    }
    let mut i: usize = 0;
    while i < n - 1
        invariant
            n == defs@.len(),
            ds == defs_model(defs@),
            0 <= i <= n - 1,
            n >= 1,
            !(ds.last() is Assign),
            forall|j: int| 0 <= j < i ==> !((#[trigger] ds[j]) is Ret),
        decreases n - 1 - i,
    {
        assert(ds[i as int] == defs@[i as int].model());
        if let Definition::Return(_) = &defs[i] {
            assert(0 <= i < ds.len() - 1 && ds[i as int] is Ret);
            return Err(ParseError::MissingOrMisplacedReturn);
        }
        i = i + 1;
    }
    Ok(defs)
}

/// Parses the lines of a program: a `def` header after any blank or comment lines, then
/// assignments, blank lines and comments, and a final return.
pub fn parse_program(lines: &Vec<String>) -> (r: Result<Program, ParseFailure>)
    ensures
        match parse_spec(lines_model(lines@)) {
            Ok(p) => r is Ok && r->Ok_0.model() == p,
            Err(x) => r is Err && r->Err_0.kind == x
                && r->Err_0.line == failure_line(lines_model(lines@))
                && r->Err_0.function@ == failure_function(lines_model(lines@)),
        },
        r is Ok ==> well_formed_defs(r->Ok_0.model().defs),
{
    let ghost ls = lines_model(lines@);
    let n = lines.len();
    let dw = vec!['d', 'e', 'f'];
    assert(dw@ =~= def_word());
    let mut h: usize = 0;
    loop
        invariant
            ls == lines_model(lines@),
            n == ls.len(),
            dw@ == def_word(),
            h <= n,
            find_header(ls, h as nat) == find_header(ls, 0),
            header_stop(ls, h as nat) == header_stop(ls, 0),
        ensures
            h < n,
            find_header(ls, 0) == Ok::<nat, ParseError>(h as nat),
        decreases n - h,
    {
        if h >= n {
            return Err(ParseFailure { kind: ParseError::MissingFunctionDefinition, line: h, function: String::new() });
        }
        let x = line_chars(lines, h);
        if has_prefix(&x, &dw) {
            break;
        }
        if !skipped(&x) {
            return Err(ParseFailure {
                kind: ParseError::UnexpectedContentBeforeDefinition,
                line: h,
                function: String::new(),
            });
        }
        h = h + 1;
    }
    let x = line_chars(lines, h);
    let (id, args) = match parse_header(&x) {
        Some(v) => v,
        None => return Err(ParseFailure { kind: ParseError::MalformedHeader, line: h, function: String::new() }),
    };
    let mut defs: Vec<Definition> = Vec::new();
    let mut i = h + 1;
    assert(defs_model(defs@) =~= seq![]);
    while i < n
        invariant
            ls == lines_model(lines@),
            n == ls.len(),
            h < i <= n,
            find_header(ls, 0) == Ok::<nat, ParseError>(h as nat),
            header(ls[h as int]) == Some((id@, args@.map_values(|p: Parameter| p.id@))),
            body_prefix(ls, h as nat, i as nat) == Ok::<Seq<Def>, ParseError>(defs_model(defs@)),
        decreases n - i,
    {
        let line = line_chars(lines, i);
        assert(body_prefix(ls, h as nat, (i + 1) as nat) == match body_prefix(ls, h as nat, i as nat) {
            Err(x) => Err(x),
            Ok(ds) => match body_line(ls[i as int]) {
                None => Ok(ds),
                Some(Err(x)) => Err(x),
                Some(Ok(d)) => Ok(ds.push(d)),
            },
        });
        match parse_body_line(&line) {
            None => {},
            Some(Ok(d)) => {
                proof { crate::flatten::lemma_defs_model_push(defs@, d); }
                defs.push(d);
            },
            Some(Err(x)) => {
                proof {
                    lemma_body_err_extends(ls, h as nat, (i + 1) as nat, n as nat);
                    lemma_first_bad(ls, h as nat, i as nat, n as nat);
                }
                return Err(ParseFailure { kind: x, line: i, function: id });
            },
        }
        i = i + 1;
    }
    let defs = match check_definitions(defs) {
        Ok(d) => d,
        Err(x) => return Err(ParseFailure { kind: x, line: n, function: id }),
    };
    let p = Program { id, args, defs };
    proof {
        let ds = defs_model(defs@);
        assert(well_formed_defs(ds)) by {
            assert forall|j: int| 0 <= j < ds.len() - 1 implies (#[trigger] ds[j]) is Assign by {
                if ds[j] is Ret {
                    assert(exists|i: int| 0 <= i < ds.len() - 1 && (#[trigger] ds[i]) is Ret);
                }
            }
        }
    }
    Ok(p)
}

} // verus!
