use vstd::prelude::*;

use crate::ast::{defs_model, Condition, Def, Definition, Ex, Expression, Op, Program, ProgramModel};
use crate::names::{bit_name, make_bit_name, make_sym_name, sym_name};

verus! {

/// Why a program could not be flattened. A condition is always a `<` comparison, so there is
/// no error for an unsupported comparison operator.
#[derive(PartialEq, Eq, Structural, Clone, Copy, Debug)]
pub enum FlattenError {
    /// A power whose exponent is not an integer literal greater than one.
    UnsupportedPowExponent,
    /// A power whose base is neither a variable nor an integer literal.
    UnsupportedPowBase,
}

/// What lowering one expression produces: the definitions it emits, the flat value that stands
/// for the expression, and the next free temporary counter.
pub struct Lowered {
    pub defs: Seq<Def>,
    pub value: Ex,
    pub next: nat,
}

/// Width of the bit decomposition used for comparisons.
pub const BITS: usize = 8;

/// A literal or a variable reference.
pub open spec fn is_atom(e: Ex) -> bool {
    e is Num || e is Var
}

/// An atom, or one binary arithmetic operation over two atoms.
pub open spec fn is_flat(e: Ex) -> bool {
    match e {
        Ex::Num(_) | Ex::Var(_) => true,
        Ex::Bin(_, l, r) => is_atom(*l) && is_atom(*r),
        _ => false,
    }
}

/// Size measure under which every lowering step works on something smaller.
pub open spec fn weight(e: Ex) -> nat
    decreases e,
{
    match e {
        Ex::Num(_) | Ex::Var(_) => 1,
        Ex::Bin(_, l, r) => 1 + weight(*l) + weight(*r),
        Ex::Pow(b, x) => 1 + weight(*b) + weight(*x),
        Ex::IfLt(l, r, c, a) => 8 + weight(*l) + weight(*r) + weight(*c) + weight(*a),
    }
}

pub open spec fn bin(op: Op, l: Ex, r: Ex) -> Ex {
    Ex::Bin(op, Box::new(l), Box::new(r))
}

pub open spec fn var(name: Seq<char>) -> Ex {
    Ex::Var(name)
}

/// Use an atom as it is; give anything else a fresh temporary.
pub open spec fn bind(e: Ex, n: nat) -> Lowered {
    if is_atom(e) {
        Lowered { defs: seq![], value: e, next: n }
    } else {
        Lowered { defs: seq![Def::Assign(sym_name(n), e)], value: var(sym_name(n)), next: n + 1 }
    }
}

/// The value multiplied by `v` at step `k` of a power chain whose temporaries start at `n`.
pub open spec fn pow_prev(v: Seq<char>, n: nat, k: nat) -> Ex {
    if k == 0 { var(v) } else { var(sym_name((n + k - 1) as nat)) }
}

/// The `k` temporaries of a power chain: `sym_n = v * v`, `sym_(n+1) = sym_n * v`, ...
pub open spec fn pow_defs(v: Seq<char>, n: nat, k: nat) -> Seq<Def>
    decreases k,
{
    if k == 0 {
        seq![]
    } else {
        pow_defs(v, n, (k - 1) as nat).push(
            Def::Assign(sym_name((n + k - 1) as nat), bin(Op::Mult, pow_prev(v, n, (k - 1) as nat), var(v))),
        )
    }
}

/// Lowering of `base ** exponent`. A literal base is squared whatever the exponent.
pub open spec fn lower_pow(base: Ex, exponent: Ex, n: nat) -> Result<Lowered, FlattenError> {
    match exponent {
        Ex::Num(x) if x > 1 => match base {
            Ex::Var(v) => {
                let k = (x - 2) as nat;
                Ok(Lowered { defs: pow_defs(v, n, k), value: bin(Op::Mult, pow_prev(v, n, k), var(v)), next: n + k })
            },
            Ex::Num(m) => Ok(Lowered { defs: seq![], value: bin(Op::Mult, Ex::Num(m), Ex::Num(m)), next: n }),
            _ => Err(FlattenError::UnsupportedPowBase),
        },
        _ => Err(FlattenError::UnsupportedPowExponent),
    }
}

/// `2^k`.
pub open spec fn pow2(k: nat) -> int
    decreases k,
{
    if k == 0 { 1 } else { 2 * pow2((k - 1) as nat) }
}

/// `b0 + b1*2 + ... + bk*2^k` over the bits of temporary `d`, folded from bit `k` down.
pub open spec fn weighted_sum(d: nat, k: nat) -> Ex
    decreases k,
{
    if k == 0 {
        var(bit_name(d, 0))
    } else {
        bin(Op::Add, bin(Op::Mult, var(bit_name(d, k)), Ex::Num(pow2(k))), weighted_sum(d, (k - 1) as nat))
    }
}

/// The booleanness definitions `bi = bi * bi` of bits `0..k` of temporary `d`.
pub open spec fn bit_checks(d: nat, k: nat) -> Seq<Def> {
    Seq::new(k, |i: int| Def::Assign(bit_name(d, i as nat), bin(Op::Mult, var(bit_name(d, i as nat)), var(bit_name(d, i as nat)))))
}

/// The definitions that compare the flat values `lv` and `rv`, with temporaries from `n`:
/// both operands get a temporary, their difference a third, which is then decomposed into
/// bits and redefined as the weighted sum of those bits. The result is the top bit.
pub open spec fn compare(lv: Ex, rv: Ex, n: nat) -> Lowered {
    let d = n + 2;
    Lowered {
        defs: seq![
            Def::Assign(sym_name(n), lv),
            Def::Assign(sym_name(n + 1), rv),
            Def::Assign(sym_name(d), bin(Op::Sub, var(sym_name(n)), var(sym_name(n + 1)))),
        ] + bit_checks(d, 8) + seq![Def::Assign(sym_name(d), weighted_sum(d, 7))],
        value: var(bit_name(d, 7)),
        next: n + 3,
    }
}

/// `c * t + (1 - c) * f` for the condition variable `c`.
pub open spec fn select(c: Seq<char>, t: Ex, f: Ex) -> Ex {
    bin(Op::Add, bin(Op::Mult, var(c), t), bin(Op::Mult, bin(Op::Sub, Ex::Num(1), var(c)), f))
}

/// The name a variable reference refers to.
pub open spec fn name_of(e: Ex) -> Seq<char> {
    match e {
        Ex::Var(s) => s,
        _ => seq![],
    }
}

/// Lowering of the condition `l < r`.
pub open spec fn lower_cond(l: Ex, r: Ex, n: nat) -> Result<Lowered, FlattenError>
    decreases weight(l) + weight(r), 0nat,
{
    match lower(l, n) {
        Err(x) => Err(x),
        Ok(a) => match lower(r, a.next) {
            Err(x) => Err(x),
            Ok(b) => {
                let k = compare(a.value, b.value, b.next);
                Ok(Lowered { defs: a.defs + b.defs + k.defs, value: k.value, next: k.next })
            },
        },
    }
}

/// Lowering of an expression with temporaries numbered from `n`.
pub open spec fn lower(e: Ex, n: nat) -> Result<Lowered, FlattenError>
    decreases weight(e), 1nat
    via lower_decreases
{
    match e {
        Ex::Num(_) | Ex::Var(_) => Ok(Lowered { defs: seq![], value: e, next: n }),
        Ex::Bin(op, l, r) => if is_atom(*l) && is_atom(*r) {
            Ok(Lowered { defs: seq![], value: e, next: n })
        } else {
            match lower(*l, n) {
                Err(x) => Err(x),
                Ok(a) => match lower(*r, a.next) {
                    Err(x) => Err(x),
                    Ok(b) => {
                        let x = bind(a.value, b.next);
                        let y = bind(b.value, x.next);
                        Ok(Lowered {
                            defs: a.defs + b.defs + x.defs + y.defs,
                            value: bin(op, x.value, y.value),
                            next: y.next,
                        })
                    },
                },
            }
        },
        Ex::Pow(b, x) => lower_pow(*b, *x, n),
        Ex::IfLt(l, r, c, f) => match lower_cond(*l, *r, n) {
            Err(x) => Err(x),
            Ok(k) => match lower(select(name_of(k.value), *c, *f), k.next) {
                Err(x) => Err(x),
                Ok(s) => Ok(Lowered { defs: k.defs + s.defs, value: s.value, next: s.next }),
            },
        },
    }
}

pub proof fn lemma_select_weight(c: Seq<char>, t: Ex, f: Ex)
    ensures
        weight(select(c, t, f)) == 7 + weight(t) + weight(f),
{
    reveal_with_fuel(weight, 4);
}

#[via_fn]
proof fn lower_decreases(e: Ex, n: nat) {
    if let Ex::IfLt(l, r, c, f) = e {
        lemma_select_weight(seq![], *c, *f);
        assert forall|s: Seq<char>| weight(select(s, *c, *f)) < weight(e) by {
            lemma_select_weight(s, *c, *f);
        }
    }
}

/// Lowering of one definition: the temporaries its right-hand side needs, then the definition
/// itself over the flat value, which keeps the definition's name.
#[verifier::opaque]
pub open spec fn lower_def(d: Def, n: nat) -> Result<(Seq<Def>, nat), FlattenError> {
    match d {
        Def::Assign(name, e) => match lower(e, n) {
            Err(x) => Err(x),
            Ok(a) => Ok((a.defs.push(Def::Assign(name, a.value)), a.next)),
        },
        Def::Ret(e) => match lower(e, n) {
            Err(x) => Err(x),
            Ok(a) => Ok((a.defs.push(Def::Ret(a.value)), a.next)),
        },
    }
}

/// Lowering of a sequence of definitions, with one counter threaded through all of them.
pub open spec fn lower_defs(ds: Seq<Def>, n: nat) -> Result<(Seq<Def>, nat), FlattenError>
    decreases ds.len(),
{
    if ds.len() == 0 {
        Ok((seq![], n))
    } else {
        match lower_defs(ds.drop_last(), n) {
            Err(x) => Err(x),
            Ok((out, m)) => match lower_def(ds.last(), m) {
                Err(x) => Err(x),
                Ok((more, k)) => Ok((out + more, k)),
            },
        }
    }
}

/// The flattened form of a program, or the error that stops it.
pub open spec fn flatten_spec(p: ProgramModel) -> Result<ProgramModel, FlattenError> {
    match lower_defs(p.defs, 0) {
        Err(x) => Err(x),
        Ok((out, _)) => Ok(ProgramModel { id: p.id, args: p.args, defs: out }),
    }
}

pub proof fn lemma_defs_model_push(ds: Seq<Definition>, d: Definition)
    ensures
        defs_model(ds.push(d)) == defs_model(ds).push(d.model()),
{
    assert(defs_model(ds.push(d)) =~= defs_model(ds).push(d.model()));
}

pub proof fn lemma_weight_positive(e: Ex)
    ensures
        weight(e) >= 1,
{
}

pub proof fn lemma_pow2_mono(a: nat, b: nat)
    requires
        a <= b,
    ensures
        1 <= pow2(a) <= pow2(b),
    decreases b,
{
    if a == b && a > 0 {
        lemma_pow2_mono((a - 1) as nat, (a - 1) as nat);
    }
    if a < b {
        lemma_pow2_mono(a, (b - 1) as nat);
    }
}

pub proof fn lemma_pow2_six()
    ensures
        pow2(6) == 64,
{
    reveal_with_fuel(pow2, 7);
}

/// The first definition that fails to lower decides the error of the whole sequence.
pub proof fn lemma_first_error(ds: Seq<Def>, k: nat, m: nat, x: FlattenError)
    requires
        k < ds.len(),
        lower_defs(ds.subrange(0, k as int), 0) is Ok,
        lower_defs(ds.subrange(0, k as int), 0)->Ok_0.1 == m,
        lower_def(ds[k as int], m) == Err::<(Seq<Def>, nat), FlattenError>(x),
    ensures
        lower_defs(ds, 0) == Err::<(Seq<Def>, nat), FlattenError>(x),
{
    lemma_lower_defs_step(ds, k);
    lemma_lower_defs_err_extends(ds, k + 1);
}

/// Lowering one more definition of a prefix.
pub proof fn lemma_lower_defs_step(ds: Seq<Def>, k: nat)
    requires
        k < ds.len(),
    ensures
        lower_defs(ds.subrange(0, k + 1 as int), 0) == match lower_defs(ds.subrange(0, k as int), 0) {
            Err(x) => Err(x),
            Ok((o, m)) => match lower_def(ds[k as int], m) {
                Err(x) => Err(x),
                Ok((more, j)) => Ok::<(Seq<Def>, nat), FlattenError>((o + more, j)),
            },
        },
{
    let next = ds.subrange(0, k + 1 as int);
    assert(next.drop_last() =~= ds.subrange(0, k as int));
    assert(next.last() == ds[k as int]);
}

/// An error in the lowering of a prefix is the error of the whole sequence.
pub proof fn lemma_lower_defs_err_extends(ds: Seq<Def>, k: nat)
    requires
        k <= ds.len(),
        lower_defs(ds.subrange(0, k as int), 0) is Err,
    ensures
        lower_defs(ds, 0) == lower_defs(ds.subrange(0, k as int), 0),
    decreases ds.len(),
{
    if ds.len() == k {
        assert(ds.subrange(0, k as int) =~= ds);
    } else {
        let p = ds.drop_last();
        assert(p.subrange(0, k as int) =~= ds.subrange(0, k as int));
        lemma_lower_defs_err_extends(p, k);
    }
}

/// True of a literal or a variable reference.
pub fn is_linear(e: &Expression) -> (r: bool)
    ensures
        r == is_atom(e.model()),
{
    match e {
        Expression::NumberLiteral(_) | Expression::VariableReference(_) => true,
        _ => false,
    }
}

/// True of an atom, or of a binary arithmetic node over two atoms.
pub fn is_flattened(e: &Expression) -> (r: bool)
    ensures
        r == is_flat(e.model()),
{
    match e {
        Expression::NumberLiteral(_) | Expression::VariableReference(_) => true,
        Expression::Add(l, r) | Expression::Sub(l, r) | Expression::Mult(l, r) | Expression::Div(l, r) => {
            is_linear(l) && is_linear(r)
        },
        _ => false,
    }
}

/// Appends `sym_<counter> = e` and advances the counter; returns the new name.
fn emit_temp(defs: &mut Vec<Definition>, counter: &mut usize, e: Expression) -> (name: String)
    requires
        *old(counter) <= old(defs)@.len(),
    ensures
        name@ == sym_name(*old(counter) as nat),
        *final(counter) == *old(counter) + 1,
        *final(counter) <= final(defs)@.len(),
        defs_model(final(defs)@) == defs_model(old(defs)@).push(Def::Assign(sym_name(*old(counter) as nat), e.model())),
{
    let c = *counter;
    let name = make_sym_name(c);
    proof {
        lemma_defs_model_push(defs@, Definition::Assignment(name, e));
    }
    defs.push(Definition::Assignment(name.clone(), e));
    // The new length is a usize and exceeds the counter, so the increment cannot overflow.
    let len = defs.len();
    assert(c < len);
    *counter = c + 1;
    name
}

/// The operand to use for `e`: itself when it is an atom, else a fresh temporary bound to it.
fn bind_operand(defs: &mut Vec<Definition>, counter: &mut usize, e: Expression) -> (r: Expression)
    requires
        *old(counter) <= old(defs)@.len(),
    ensures
        r.model() == bind(e.model(), *old(counter) as nat).value,
        *final(counter) == bind(e.model(), *old(counter) as nat).next,
        *final(counter) <= final(defs)@.len(),
        defs_model(final(defs)@) == defs_model(old(defs)@) + bind(e.model(), *old(counter) as nat).defs,
{
    if is_linear(&e) {
        assert(defs_model(defs@) =~= defs_model(defs@) + seq![]);
        e
    } else {
        let name = emit_temp(defs, counter, e);
        assert(defs_model(old(defs)@).push(Def::Assign(sym_name(*old(counter) as nat), e.model()))
            =~= defs_model(old(defs)@) + seq![Def::Assign(sym_name(*old(counter) as nat), e.model())]);
        Expression::VariableReference(name)
    }
}

/// Lowers both operands of a binary node that is not yet flat.
fn flatten_operands(defs: &mut Vec<Definition>, counter: &mut usize, left: Expression, right: Expression, op: Ghost<Op>)
    -> (r: Result<(Expression, Expression), FlattenError>)
    requires
        *old(counter) <= old(defs)@.len(),
        !(is_atom(left.model()) && is_atom(right.model())),
    ensures
        *final(counter) <= final(defs)@.len(),
        match lower(bin(op@, left.model(), right.model()), *old(counter) as nat) {
            Ok(a) => r is Ok && bin(op@, r->Ok_0.0.model(), r->Ok_0.1.model()) == a.value
                && *final(counter) == a.next
                && defs_model(final(defs)@) == defs_model(old(defs)@) + a.defs,
            Err(x) => r == Err::<(Expression, Expression), FlattenError>(x),
        },
    decreases weight(left.model()) + weight(right.model()), 0nat,
{
    proof {
        lemma_weight_positive(left.model());
        lemma_weight_positive(right.model());
    }
    let ghost n = *old(counter) as nat;
    let ghost d0 = defs_model(old(defs)@);
    let lf = match flatten_expression(defs, counter, left) {
        Ok(v) => v,
        Err(x) => return Err(x),
    };
    let rf = match flatten_expression(defs, counter, right) {
        Ok(v) => v,
        Err(x) => return Err(x),
    };
    let nl = bind_operand(defs, counter, lf);
    let nr = bind_operand(defs, counter, rf);
    proof {
        let a = lower(left.model(), n)->Ok_0;
        let b = lower(right.model(), a.next)->Ok_0;
        let x = bind(a.value, b.next);
        let y = bind(b.value, x.next);
        assert(defs_model(defs@) =~= d0 + (a.defs + b.defs + x.defs + y.defs));
    }
    Ok((nl, nr))
}

/// Lowers one expression, appending the definitions it needs to `defs` and numbering new
/// temporaries from `counter`; returns the flat expression that stands for it.
pub fn flatten_expression(defs: &mut Vec<Definition>, counter: &mut usize, expr: Expression)
    -> (r: Result<Expression, FlattenError>)
    requires
        *old(counter) <= old(defs)@.len(),
    ensures
        *final(counter) <= final(defs)@.len(),
        match lower(expr.model(), *old(counter) as nat) {
            Ok(a) => r is Ok && r->Ok_0.model() == a.value
                && *final(counter) == a.next
                && defs_model(final(defs)@) == defs_model(old(defs)@) + a.defs,
            Err(x) => r == Err::<Expression, FlattenError>(x),
        },
    decreases weight(expr.model()), 1nat,
{
    proof {
        assert(defs_model(old(defs)@) =~= defs_model(old(defs)@) + seq![]);
    }
    if is_flattened(&expr) {
        return Ok(expr);
    }
    match expr {
        Expression::NumberLiteral(_) | Expression::VariableReference(_) => Ok(expr),
        Expression::Add(l, r) => match flatten_operands(defs, counter, *l, *r, Ghost(Op::Add)) {
            Ok((a, b)) => Ok(Expression::Add(Box::new(a), Box::new(b))),
            Err(x) => Err(x),
        },
        Expression::Sub(l, r) => match flatten_operands(defs, counter, *l, *r, Ghost(Op::Sub)) {
            Ok((a, b)) => Ok(Expression::Sub(Box::new(a), Box::new(b))),
            Err(x) => Err(x),
        },
        Expression::Mult(l, r) => match flatten_operands(defs, counter, *l, *r, Ghost(Op::Mult)) {
            Ok((a, b)) => Ok(Expression::Mult(Box::new(a), Box::new(b))),
            Err(x) => Err(x),
        },
        Expression::Div(l, r) => match flatten_operands(defs, counter, *l, *r, Ghost(Op::Div)) {
            Ok((a, b)) => Ok(Expression::Div(Box::new(a), Box::new(b))),
            Err(x) => Err(x),
        },
        Expression::Pow(base, exponent) => flatten_pow(defs, counter, *base, *exponent),
        Expression::IfElse(c, t, f) => {
            assert(expr.model() == if_model(*c, *t, *f));
            flatten_ifelse(defs, counter, *c, *t, *f)
        },
    }
}

/// The model of `IfElse(c, t, f)`.
pub open spec fn if_model(c: Condition, t: Expression, f: Expression) -> Ex {
    match c {
        Condition::LessThan(a, b) => Ex::IfLt(Box::new(a.model()), Box::new(b.model()), Box::new(t.model()), Box::new(f.model())),
    }
}

/// Lowers a conditional to `cond * t + (1 - cond) * f` over the lowered condition, and lowers that.
fn flatten_ifelse(defs: &mut Vec<Definition>, counter: &mut usize, c: Condition, t: Expression, f: Expression)
    -> (r: Result<Expression, FlattenError>)
    requires
        *old(counter) <= old(defs)@.len(),
    ensures
        *final(counter) <= final(defs)@.len(),
        match lower(if_model(c, t, f), *old(counter) as nat) {
            Ok(a) => r is Ok && r->Ok_0.model() == a.value
                && *final(counter) == a.next
                && defs_model(final(defs)@) == defs_model(old(defs)@) + a.defs,
            Err(x) => r == Err::<Expression, FlattenError>(x),
        },
    decreases weight(if_model(c, t, f)), 0nat,
{
    let ghost e = if_model(c, t, f);
    let ghost n = *old(counter) as nat;
    let ghost d0 = defs_model(old(defs)@);
    proof {
        lemma_weight_positive(*e->IfLt_0);
        lemma_weight_positive(*e->IfLt_1);
    }
    let name = match flatten_condition(defs, counter, c) {
        Ok(v) => v,
        Err(x) => return Err(x),
    };
    let ghost tm = t.model();
    let ghost fm = f.model();
    let ghost c_name = name@;
    let cond_true = Expression::VariableReference(name.clone());
    assert(cond_true.model() == var(c_name));
    let one = Expression::NumberLiteral(1);
    assert(one.model() == Ex::Num(1));
    let cond_var = Expression::VariableReference(name);
    assert(cond_var.model() == var(c_name));
    let cond_false = Expression::Sub(Box::new(one), Box::new(cond_var));
    assert(cond_false.model() == bin(Op::Sub, Ex::Num(1), var(c_name)));
    let left = Expression::Mult(Box::new(cond_true), Box::new(t));
    assert(left.model() == bin(Op::Mult, var(c_name), tm));
    let right = Expression::Mult(Box::new(cond_false), Box::new(f));
    assert(right.model() == bin(Op::Mult, bin(Op::Sub, Ex::Num(1), var(c_name)), fm));
    let sum = Expression::Add(Box::new(left), Box::new(right));
    proof {
        lemma_select_weight(c_name, tm, fm);
        assert(sum.model() == select(c_name, tm, fm));
    }
    let res = flatten_expression(defs, counter, sum);
    proof {
        if let Ok(k) = lower(e, n) {
            let kc = lower_cond(*e->IfLt_0, *e->IfLt_1, n)->Ok_0;
            let s = lower(sum.model(), kc.next)->Ok_0;
            assert(defs_model(defs@) =~= d0 + (kc.defs + s.defs));
        }
    }
    res
}

/// Lowers `base ** exponent`: a variable raised to `x` becomes a chain of `x - 1`
/// multiplications, the last of which is returned; a literal base is squared.
fn flatten_pow(defs: &mut Vec<Definition>, counter: &mut usize, base: Expression, exponent: Expression)
    -> (r: Result<Expression, FlattenError>)
    requires
        *old(counter) <= old(defs)@.len(),
    ensures
        *final(counter) <= final(defs)@.len(),
        match lower_pow(base.model(), exponent.model(), *old(counter) as nat) {
            Ok(a) => r is Ok && r->Ok_0.model() == a.value
                && *final(counter) == a.next
                && defs_model(final(defs)@) == defs_model(old(defs)@) + a.defs,
            Err(x) => r == Err::<Expression, FlattenError>(x),
        },
{
    let x = match exponent {
        Expression::NumberLiteral(x) => x,
        _ => return Err(FlattenError::UnsupportedPowExponent),
    };
    if x <= 1 {
        return Err(FlattenError::UnsupportedPowExponent);
    }
    match base {
        Expression::VariableReference(v) => {
            let ghost n = *old(counter) as nat;
            let ghost d0 = defs_model(old(defs)@);
            let mut cur = Expression::VariableReference(v.clone());
            let mut k: i32 = 0;
            while k < x - 2
                invariant
                    0 <= k <= x - 2,
                    cur.model() == pow_prev(v@, n, k as nat),
                    defs_model(defs@) == d0 + pow_defs(v@, n, k as nat),
                    *counter == n + k,
                    *counter <= defs@.len(),
                decreases x - 2 - k,
            {
                let step = Expression::Mult(Box::new(cur), Box::new(Expression::VariableReference(v.clone())));
                let ghost sm = step.model();
                let name = emit_temp(defs, counter, step);
                reveal_with_fuel(Expression::model, 2);
                assert(sm == bin(Op::Mult, pow_prev(v@, n, k as nat), var(v@)));
                assert(pow_defs(v@, n, (k + 1) as nat) == pow_defs(v@, n, k as nat).push(
                    Def::Assign(sym_name((n + k) as nat), sm)));
                assert(defs_model(defs@) =~= d0 + pow_defs(v@, n, (k + 1) as nat));
                cur = Expression::VariableReference(name);
                k = k + 1;
            }
            Ok(Expression::Mult(Box::new(cur), Box::new(Expression::VariableReference(v))))
        },
        Expression::NumberLiteral(m) => {
            assert(defs_model(old(defs)@) =~= defs_model(old(defs)@) + seq![]);
            Ok(Expression::Mult(Box::new(Expression::NumberLiteral(m)), Box::new(Expression::NumberLiteral(m))))
        },
        _ => Err(FlattenError::UnsupportedPowBase),
    }
}

/// Lowers `lhs < rhs` by decomposing `lhs - rhs` into eight bits; returns the name of the top bit.
/// The top bit is the comparison's result only when `lhs - rhs` fits the signed 8-bit window;
/// no range check is made, and outside that window the result is not the comparison.
pub fn flatten_condition(defs: &mut Vec<Definition>, counter: &mut usize, condition: Condition)
    -> (r: Result<String, FlattenError>)
    requires
        *old(counter) <= old(defs)@.len(),
    ensures
        *final(counter) <= final(defs)@.len(),
        match condition {
            Condition::LessThan(l, rr) => match lower_cond(l.model(), rr.model(), *old(counter) as nat) {
                Ok(a) => r is Ok && var(r->Ok_0@) == a.value
                    && *final(counter) == a.next
                    && defs_model(final(defs)@) == defs_model(old(defs)@) + a.defs,
                Err(x) => r == Err::<String, FlattenError>(x),
            },
        },
    decreases
        match condition {
            Condition::LessThan(l, rr) => weight(l.model()) + weight(rr.model()),
        },
        2nat,
{
    let ghost n = *old(counter) as nat;
    let ghost d0 = defs_model(old(defs)@);
    match condition {
        Condition::LessThan(l, rr) => {
            proof {
                lemma_weight_positive(l.model());
                lemma_weight_positive(rr.model());
            }
            let lf = match flatten_expression(defs, counter, l) {
                Ok(v) => v,
                Err(x) => return Err(x),
            };
            let rf = match flatten_expression(defs, counter, rr) {
                Ok(v) => v,
                Err(x) => return Err(x),
            };
            let ghost d2 = defs_model(defs@);
            let ghost m = *counter as nat;
            let ghost lm = lf.model();
            let ghost rm = rf.model();
            let lhs_name = emit_temp(defs, counter, lf);
            let rhs_name = emit_temp(defs, counter, rf);
            let d = *counter;
            let diff = Expression::Sub(
                Box::new(Expression::VariableReference(lhs_name)),
                Box::new(Expression::VariableReference(rhs_name)),
            );
            let d_name = emit_temp(defs, counter, diff);
            let ghost d3 = defs_model(defs@);
            let mut i: usize = 0;
            while i < BITS
                invariant
                    0 <= i <= BITS,
                    d == m + 2,
                    *counter == m + 3,
                    *counter <= defs@.len(),
                    defs_model(defs@) == d3 + bit_checks(d as nat, i as nat),
                decreases BITS - i,
            {
                let bit = make_bit_name(d, i);
                let check = Expression::Mult(
                    Box::new(Expression::VariableReference(bit.clone())),
                    Box::new(Expression::VariableReference(bit.clone())),
                );
                let ghost bm = bit@;
                let ghost cm = check.model();
                reveal_with_fuel(Expression::model, 2);
                assert(cm == bin(Op::Mult, var(bm), var(bm)));
                proof {
                    lemma_defs_model_push(defs@, Definition::Assignment(bit, check));
                }
                defs.push(Definition::Assignment(bit, check));
                assert(bit_checks(d as nat, (i + 1) as nat) =~= bit_checks(d as nat, i as nat).push(
                    Def::Assign(bm, cm)));
                assert(defs_model(defs@) =~= d3 + bit_checks(d as nat, (i + 1) as nat));
                i = i + 1;
            }
            let mut sum = Expression::VariableReference(make_bit_name(d, 0));
            let mut j: usize = 1;
            let mut w: i32 = 2;
            while j < BITS
                invariant
                    1 <= j <= BITS,
                    j < BITS ==> w == pow2(j as nat),
                    sum.model() == weighted_sum(d as nat, (j - 1) as nat),
                decreases BITS - j,
            {
                sum = Expression::Add(
                    Box::new(Expression::Mult(
                        Box::new(Expression::VariableReference(make_bit_name(d, j))),
                        Box::new(Expression::NumberLiteral(w)),
                    )),
                    Box::new(sum),
                );
                proof {
                    reveal_with_fuel(Expression::model, 3);
                    assert(pow2((j + 1) as nat) == 2 * pow2(j as nat));
                    if j + 1 < BITS {
                        lemma_pow2_mono(j as nat, 6);
                        lemma_pow2_six();
                    }
                }
                if j + 1 < BITS {
                    w = w * 2;
                }
                j = j + 1;
            }
            proof {
                lemma_defs_model_push(defs@, Definition::Assignment(d_name, sum));
            }
            defs.push(Definition::Assignment(d_name, sum));
            proof {
                let a = lower(l.model(), n)->Ok_0;
                let b = lower(rr.model(), a.next)->Ok_0;
                let k = compare(a.value, b.value, b.next);
                assert(k.defs =~= seq![
                    Def::Assign(sym_name(m), a.value),
                    Def::Assign(sym_name(m + 1), b.value),
                    Def::Assign(sym_name(m + 2), bin(Op::Sub, var(sym_name(m)), var(sym_name(m + 1)))),
                ] + bit_checks(m + 2, 8) + seq![Def::Assign(sym_name(m + 2), weighted_sum(m + 2, 7))]);
                reveal_with_fuel(Expression::model, 2);
                assert(lm == a.value);
                assert(rm == b.value);
                assert(m == b.next);
                assert(d2 == d0 + a.defs + b.defs);
                assert(d3 =~= d2 + seq![
                    Def::Assign(sym_name(m), a.value),
                    Def::Assign(sym_name(m + 1), b.value),
                    Def::Assign(sym_name(m + 2), bin(Op::Sub, var(sym_name(m)), var(sym_name(m + 1)))),
                ]);
                assert(defs_model(defs@) =~= d0 + (a.defs + b.defs + k.defs));
            }
            Ok(make_bit_name(d, 7))
        },
    }
}

/// Flattens one definition onto the end of `out`.
fn flatten_definition(out: &mut Vec<Definition>, counter: &mut usize, d: Definition) -> (r: Result<(), FlattenError>)
    requires
        *old(counter) <= old(out)@.len(),
    ensures
        *final(counter) <= final(out)@.len(),
        match lower_def(d.model(), *old(counter) as nat) {
            Ok((more, k)) => r is Ok && *final(counter) == k
                && defs_model(final(out)@) == defs_model(old(out)@) + more,
            Err(x) => r == Err::<(), FlattenError>(x),
        },
{
    reveal(lower_def);
    match d {
        Definition::Return(e) => {
            let v = match flatten_expression(out, counter, e) {
                Ok(v) => v,
                Err(x) => return Err(x),
            };
            proof { lemma_defs_model_push(out@, Definition::Return(v)); }
            out.push(Definition::Return(v));
            assert(defs_model(out@) =~= defs_model(old(out)@) + lower_def(d.model(), *old(counter) as nat)->Ok_0.0);
        },
        Definition::Assignment(name, e) => {
            let v = match flatten_expression(out, counter, e) {
                Ok(v) => v,
                Err(x) => return Err(x),
            };
            proof { lemma_defs_model_push(out@, Definition::Assignment(name, v)); }
            out.push(Definition::Assignment(name, v));
            assert(defs_model(out@) =~= defs_model(old(out)@) + lower_def(d.model(), *old(counter) as nat)->Ok_0.0);
        },
    }
    Ok(())
}

/// Flattens a whole program: every definition's right-hand side becomes flat, with the
/// temporaries it needs defined just before it, numbered by one counter over the program.
pub fn flatten_program(prog: Program) -> (r: Result<Program, FlattenError>)
    ensures
        match flatten_spec(prog.model()) {
            Ok(p) => r is Ok && r->Ok_0.model() == p,
            Err(x) => r == Err::<Program, FlattenError>(x),
        },
{
    let ghost pm = prog.model();
    let Program { id, args, defs: input } = prog;
    let mut source = input;
    let ghost all = defs_model(source@);
    assert(pm.defs == all);
    let total = source.len();
    let mut out: Vec<Definition> = Vec::new();
    let mut counter: usize = 0;
    let mut done: usize = 0;
    assert(defs_model(out@) =~= seq![]);
    assert(lower_defs(all.subrange(0, 0), 0) == Ok::<(Seq<Def>, nat), FlattenError>((seq![], 0nat)));
    // Definitions are popped from a reversed copy, so they come in program order.
    let mut pending: Vec<Definition> = Vec::new();
    while source.len() > 0
        invariant
            pending@.len() + source@.len() == all.len(),
            all.len() == total,
            defs_model(source@) == all.subrange(0, source@.len() as int),
            forall|i: int| 0 <= i < pending@.len() ==>
                (#[trigger] pending@[i]).model() == all[all.len() - 1 - i],
        decreases source@.len(),
    {
        let ghost s0 = source@;
        let d = source.pop().unwrap();
        assert(source@ =~= s0.drop_last());
        assert(defs_model(source@) =~= all.subrange(0, source@.len() as int)) by {
            assert(defs_model(s0).subrange(0, source@.len() as int) =~= defs_model(source@));
        }
        assert(d.model() == defs_model(s0)[s0.len() - 1]);
        pending.push(d);
    }
    while pending.len() > 0
        invariant
            done + pending@.len() == all.len(),
            all.len() == total,
            pm.defs == all,
            pm == prog.model(),
            forall|i: int| 0 <= i < pending@.len() ==>
                (#[trigger] pending@[i]).model() == all[all.len() - 1 - i],
            counter <= out@.len(),
            lower_defs(all.subrange(0, done as int), 0)
                == Ok::<(Seq<Def>, nat), FlattenError>((defs_model(out@), counter as nat)),
        decreases pending@.len(),
    {
        let d = pending.pop().unwrap();
        assert(d.model() == all[done as int]);
        let ghost m0 = counter as nat;
        proof {
            lemma_lower_defs_step(all, done as nat);
        }
        let res = flatten_definition(&mut out, &mut counter, d);
        match res {
            Ok(()) => {},
            Err(x) => {
                proof {
                    lemma_first_error(all, done as nat, m0, x);
                }
                return Err(x);
            },
        }
        done = done + 1;
    }
    assert(all.subrange(0, done as int) =~= all);
    Ok(Program { id, args, defs: out })
}

} // verus!
