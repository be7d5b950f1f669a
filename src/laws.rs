use vstd::prelude::*;

use crate::ast::{well_formed_defs, Def, Ex, Op, ProgramModel};
use crate::parser::{body_prefix, find_header, header, parse_spec, ParseError};
use crate::flatten::{
    bin, bit_checks, compare, flatten_spec, is_atom, is_flat, lemma_select_weight, lower, lower_cond,
    lower_def, lower_defs, name_of, pow_defs, pow_prev, select, var, weight, weighted_sum,
    Lowered,
};
use crate::names::{bit_name, lemma_bit_name_not_sym, lemma_sym_name_injective, sym_name};

verus! {

/// The right-hand side of a definition.
pub open spec fn rhs(d: Def) -> Ex {
    match d {
        Def::Assign(_, e) => e,
        Def::Ret(e) => e,
    }
}

/// Every right-hand side is flat.
pub open spec fn all_flat(ds: Seq<Def>) -> bool {
    forall|i: int| 0 <= i < ds.len() ==> is_flat(rhs(#[trigger] ds[i]))
}

/// The redefinition of a decomposed difference as the weighted sum of its bits.
pub open spec fn is_recomposition(d: Def) -> bool {
    exists|k: nat| d == Def::Assign(sym_name(k), weighted_sum(k, 7))
}

/// A definition of flat form, or a bit recomposition.
pub open spec fn flat_or_recomposition(d: Def) -> bool {
    is_flat(rhs(d)) || is_recomposition(d)
}

pub open spec fn all_flat_or_recomposition(ds: Seq<Def>) -> bool {
    forall|i: int| 0 <= i < ds.len() ==> flat_or_recomposition(#[trigger] ds[i])
}

proof fn lemma_concat_flat(a: Seq<Def>, b: Seq<Def>)
    requires
        all_flat_or_recomposition(a),
        all_flat_or_recomposition(b),
    ensures
        all_flat_or_recomposition(a + b),
{
    assert forall|i: int| 0 <= i < (a + b).len() implies flat_or_recomposition(#[trigger] (a + b)[i]) by {
        if i < a.len() {
            assert((a + b)[i] == a[i]);
        } else {
            assert((a + b)[i] == b[i - a.len()]);
        }
    }
}

proof fn lemma_pow_defs_flat(v: Seq<char>, n: nat, k: nat)
    ensures
        all_flat_or_recomposition(pow_defs(v, n, k)),
        pow_defs(v, n, k).len() == k,
    decreases k,
{
    if k > 0 {
        lemma_pow_defs_flat(v, n, (k - 1) as nat);
        let d = Def::Assign(sym_name((n + k - 1) as nat), bin(Op::Mult, pow_prev(v, n, (k - 1) as nat), var(v)));
        assert(flat_or_recomposition(d));
        lemma_concat_flat(pow_defs(v, n, (k - 1) as nat), seq![d]);
        assert(pow_defs(v, n, (k - 1) as nat) + seq![d] =~= pow_defs(v, n, k));
    }
}

proof fn lemma_compare_flat(lv: Ex, rv: Ex, n: nat)
    requires
        is_flat(lv),
        is_flat(rv),
    ensures
        all_flat_or_recomposition(compare(lv, rv, n).defs),
        is_flat(compare(lv, rv, n).value),
{
    let d = n + 2;
    let head = seq![
        Def::Assign(sym_name(n), lv),
        Def::Assign(sym_name(n + 1), rv),
        Def::Assign(sym_name(d), bin(Op::Sub, var(sym_name(n)), var(sym_name(n + 1)))),
    ];
    let tail = seq![Def::Assign(sym_name(d), weighted_sum(d, 7))];
    assert(all_flat_or_recomposition(head)) by {
        assert forall|i: int| 0 <= i < head.len() implies flat_or_recomposition(#[trigger] head[i]) by {
            if i == 2 {
                assert(is_flat(rhs(head[i])));
            }
        }
    }
    assert(all_flat_or_recomposition(bit_checks(d, 8)));
    assert(is_recomposition(tail[0]));
    assert(all_flat_or_recomposition(tail));
    lemma_concat_flat(head, bit_checks(d, 8));
    lemma_concat_flat(head + bit_checks(d, 8), tail);
}

/// Lowering leaves a flat value, and emits only flat definitions and bit recompositions.
pub proof fn lemma_lower_flat(e: Ex, n: nat)
    ensures
        lower(e, n) is Ok ==> all_flat_or_recomposition(lower(e, n)->Ok_0.defs) && is_flat(lower(e, n)->Ok_0.value),
    decreases weight(e),
{
    match e {
        Ex::Num(_) | Ex::Var(_) => {},
        Ex::Bin(op, l, r) => {
            if !(is_atom(*l) && is_atom(*r)) && lower(e, n) is Ok {
                lemma_lower_flat(*l, n);
                let a = lower(*l, n)->Ok_0;
                lemma_lower_flat(*r, a.next);
                let b = lower(*r, a.next)->Ok_0;
                lemma_concat_flat(a.defs, b.defs);
                let x = if is_atom(a.value) { seq![] } else { seq![Def::Assign(sym_name(b.next), a.value)] };
                let nx = if is_atom(a.value) { b.next } else { b.next + 1 };
                let y = if is_atom(b.value) { seq![] } else { seq![Def::Assign(sym_name(nx), b.value)] };
                assert(all_flat_or_recomposition(x)) by {
                    if !is_atom(a.value) { assert(flat_or_recomposition(x[0])); }
                }
                assert(all_flat_or_recomposition(y)) by {
                    if !is_atom(b.value) { assert(flat_or_recomposition(y[0])); }
                }
                lemma_concat_flat(a.defs + b.defs, x);
                lemma_concat_flat(a.defs + b.defs + x, y);
            }
        },
        Ex::Pow(b, x) => {
            if let Ex::Num(k) = *x {
                if k > 1 {
                    if let Ex::Var(v) = *b {
                        lemma_pow_defs_flat(v, n, (k - 2) as nat);
                    }
                }
            }
        },
        Ex::IfLt(l, r, c, f) => {
            if lower(e, n) is Ok {
                lemma_lower_flat(*l, n);
                let a = lower(*l, n)->Ok_0;
                lemma_lower_flat(*r, a.next);
                let b = lower(*r, a.next)->Ok_0;
                let k = lower_cond(*l, *r, n)->Ok_0;
                lemma_compare_flat(a.value, b.value, b.next);
                lemma_concat_flat(a.defs, b.defs);
                lemma_concat_flat(a.defs + b.defs, compare(a.value, b.value, b.next).defs);
                lemma_select_weight(name_of(k.value), *c, *f);
                lemma_lower_flat(select(name_of(k.value), *c, *f), k.next);
                let s = lower(select(name_of(k.value), *c, *f), k.next)->Ok_0;
                lemma_concat_flat(k.defs, s.defs);
            }
        },
    }
}

/// Flatness: every definition that flattening produces has a flat right-hand side (an atom,
/// or one operation over two atoms), except the redefinitions of a decomposed difference as the
/// weighted sum of its bits.
pub proof fn law_flatness(p: ProgramModel)
    ensures
        flatten_spec(p) is Ok ==> all_flat_or_recomposition(flatten_spec(p)->Ok_0.defs),
{
    lemma_lower_defs_flat(p.defs, 0);
}

proof fn lemma_lower_defs_flat(ds: Seq<Def>, n: nat)
    ensures
        lower_defs(ds, n) is Ok ==> all_flat_or_recomposition(lower_defs(ds, n)->Ok_0.0),
    decreases ds.len(),
{
    reveal(lower_def);
    if ds.len() > 0 {
        lemma_lower_defs_flat(ds.drop_last(), n);
        if let Ok((out, m)) = lower_defs(ds.drop_last(), n) {
            let e = rhs(ds.last());
            lemma_lower_flat(e, m);
            if let Ok(a) = lower(e, m) {
                let last = match ds.last() {
                    Def::Assign(name, _) => Def::Assign(name, a.value),
                    Def::Ret(_) => Def::Ret(a.value),
                };
                assert(flat_or_recomposition(last));
                lemma_concat_flat(a.defs, seq![last]);
                assert(a.defs.push(last) =~= a.defs + seq![last]);
                lemma_concat_flat(out, a.defs.push(last));
            }
        }
    }
}

proof fn lemma_lower_defs_flat_unchanged(ds: Seq<Def>, n: nat)
    requires
        all_flat(ds),
    ensures
        lower_defs(ds, n) == Ok::<(Seq<Def>, nat), crate::flatten::FlattenError>((ds, n)),
    decreases ds.len(),
{
    reveal(lower_def);
    if ds.len() > 0 {
        let p = ds.drop_last();
        assert(all_flat(p)) by {
            assert forall|i: int| 0 <= i < p.len() implies is_flat(rhs(#[trigger] p[i])) by {
                assert(p[i] == ds[i]);
            }
        }
        lemma_lower_defs_flat_unchanged(p, n);
        assert(is_flat(rhs(ds[ds.len() - 1])));
        let e = rhs(ds.last());
        assert(lower(e, n) == Ok::<Lowered, crate::flatten::FlattenError>(Lowered { defs: seq![], value: e, next: n }));
        assert(p + seq![].push(ds.last()) =~= ds);
        assert(seq![].push(ds.last()) =~= seq![ds.last()]);
        match ds.last() {
            Def::Assign(name, x) => {
                assert(lower_def(ds.last(), n) == Ok::<(Seq<Def>, nat), crate::flatten::FlattenError>((seq![].push(ds.last()), n)));
            },
            Def::Ret(x) => {
                assert(lower_def(ds.last(), n) == Ok::<(Seq<Def>, nat), crate::flatten::FlattenError>((seq![].push(ds.last()), n)));
            },
        }
    } else {
        assert(ds =~= seq![]);
    }
}

/// Idempotence: a program whose right-hand sides are all flat comes out of flattening
/// unchanged, and no temporary is introduced.
pub proof fn law_flat_program_unchanged(p: ProgramModel)
    requires
        all_flat(p.defs),
    ensures
        flatten_spec(p) == Ok::<ProgramModel, crate::flatten::FlattenError>(p),
        lower_defs(p.defs, 0) == Ok::<(Seq<Def>, nat), crate::flatten::FlattenError>((p.defs, 0nat)),
{
    lemma_lower_defs_flat_unchanged(p.defs, 0);
}

/// Power expansion cost: `v ** e` with `e > 2` emits exactly `e - 2` temporaries, the `j`-th
/// being `sym_(n+j) = <previous> * v`, and its value is the last temporary times `v`.
pub proof fn law_power_expansion(v: Seq<char>, e: int, n: nat)
    requires
        e > 2,
    ensures
        lower(Ex::Pow(Box::new(Ex::Var(v)), Box::new(Ex::Num(e))), n) is Ok,
        lower(Ex::Pow(Box::new(Ex::Var(v)), Box::new(Ex::Num(e))), n)->Ok_0.defs.len() == e - 2,
        lower(Ex::Pow(Box::new(Ex::Var(v)), Box::new(Ex::Num(e))), n)->Ok_0.defs
            == pow_defs(v, n, (e - 2) as nat),
        lower(Ex::Pow(Box::new(Ex::Var(v)), Box::new(Ex::Num(e))), n)->Ok_0.value
            == bin(Op::Mult, var(sym_name((n + e - 3) as nat)), var(v)),
        lower(Ex::Pow(Box::new(Ex::Var(v)), Box::new(Ex::Num(e))), n)->Ok_0.next == n + e - 2,
        forall|j: int| 0 <= j < e - 2 ==> (#[trigger] pow_defs(v, n, (e - 2) as nat)[j])->Assign_0
            == sym_name((n + j) as nat),
{
    lemma_pow_defs_flat(v, n, (e - 2) as nat);
    lemma_pow_defs_names(v, n, (e - 2) as nat);
}

proof fn lemma_pow_defs_names(v: Seq<char>, n: nat, k: nat)
    ensures
        forall|j: int| 0 <= j < k ==> (#[trigger] pow_defs(v, n, k)[j]) is Assign
            && pow_defs(v, n, k)[j]->Assign_0 == sym_name((n + j) as nat)
            && is_flat(pow_defs(v, n, k)[j]->Assign_1),
    decreases k,
{
    if k > 0 {
        lemma_pow_defs_names(v, n, (k - 1) as nat);
        lemma_pow_defs_flat(v, n, (k - 1) as nat);
        assert forall|j: int| 0 <= j < k implies (#[trigger] pow_defs(v, n, k)[j]) is Assign
            && pow_defs(v, n, k)[j]->Assign_0 == sym_name((n + j) as nat)
            && is_flat(pow_defs(v, n, k)[j]->Assign_1) by {
            if j < k - 1 {
                assert(pow_defs(v, n, k)[j] == pow_defs(v, n, (k - 1) as nat)[j]);
            }
        }
    }
}

/// Condition lowering shape: a comparison `l < r` emits the definitions of its two operands,
/// then exactly twelve more: the two operand temporaries, the difference, eight booleanness
/// constraints and the weighted-sum redefinition; its value is the eighth bit. The
/// conditional's own definitions follow those twelve.
pub proof fn law_condition_shape(l: Ex, r: Ex, c: Ex, f: Ex, n: nat)
    requires
        lower(Ex::IfLt(Box::new(l), Box::new(r), Box::new(c), Box::new(f)), n) is Ok,
    ensures
        ({
            let a = lower(l, n)->Ok_0;
            let b = lower(r, a.next)->Ok_0;
            let m = b.next;
            let k = compare(a.value, b.value, m);
            let s = lower(select(bit_name(m + 2, 7), c, f), m + 3)->Ok_0;
            &&& lower(l, n) is Ok
            &&& lower(r, a.next) is Ok
            &&& k.defs.len() == 12
            &&& k.defs[0] == Def::Assign(sym_name(m), a.value)
            &&& k.defs[1] == Def::Assign(sym_name(m + 1), b.value)
            &&& k.defs[2] == Def::Assign(sym_name(m + 2), bin(Op::Sub, var(sym_name(m)), var(sym_name(m + 1))))
            &&& forall|i: int| 3 <= i < 11 ==> #[trigger] k.defs[i] == Def::Assign(
                bit_name(m + 2, (i - 3) as nat),
                bin(Op::Mult, var(bit_name(m + 2, (i - 3) as nat)), var(bit_name(m + 2, (i - 3) as nat))),
            )
            &&& k.defs[11] == Def::Assign(sym_name(m + 2), weighted_sum(m + 2, 7))
            &&& k.value == var(bit_name(m + 2, 7))
            &&& lower(Ex::IfLt(Box::new(l), Box::new(r), Box::new(c), Box::new(f)), n)->Ok_0.defs
                == a.defs + b.defs + k.defs + s.defs
        }),
{
    let a = lower(l, n)->Ok_0;
    let b = lower(r, a.next)->Ok_0;
    let m = b.next;
    let k = compare(a.value, b.value, m);
    let kc = lower_cond(l, r, n)->Ok_0;
    assert(kc.value == var(bit_name(m + 2, 7)));
    assert(name_of(kc.value) == bit_name(m + 2, 7));
    assert forall|i: int| 3 <= i < 11 implies #[trigger] k.defs[i] == Def::Assign(
        bit_name(m + 2, (i - 3) as nat),
        bin(Op::Mult, var(bit_name(m + 2, (i - 3) as nat)), var(bit_name(m + 2, (i - 3) as nat))),
    ) by {
        assert(k.defs[i] == bit_checks(m + 2, 8)[i - 3]);
    }
    let s = lower(select(bit_name(m + 2, 7), c, f), m + 3)->Ok_0;
    assert(a.defs + b.defs + k.defs + s.defs =~= (a.defs + b.defs + k.defs) + s.defs);
}

/// `d` assigns the temporary `sym_<k>`.
pub open spec fn is_temp_def(d: Def, k: nat) -> bool {
    d is Assign && d->Assign_0 == sym_name(k)
}

/// `d` assigns the temporary `sym_<k>` a value other than the recomposition of its bits.
pub open spec fn is_fresh_temp_def(d: Def, k: nat) -> bool {
    is_temp_def(d, k) && d->Assign_1 != weighted_sum(k, 7)
}

/// Every temporary assigned in `ds` has its index in `lo..hi`.
pub open spec fn temps_within(ds: Seq<Def>, lo: nat, hi: nat) -> bool {
    forall|i: int, k: nat| 0 <= i < ds.len() && #[trigger] is_temp_def(ds[i], k) ==> lo <= k < hi
}

/// Each fresh temporary has a greater index than every temporary assigned before it.
pub open spec fn temps_increasing(ds: Seq<Def>) -> bool {
    forall|i: int, j: int, a: nat, b: nat|
        0 <= i < j < ds.len() && #[trigger] is_temp_def(ds[i], a) && #[trigger] is_fresh_temp_def(ds[j], b)
            ==> a < b
}

pub open spec fn temps_ok(ds: Seq<Def>, lo: nat, hi: nat) -> bool {
    temps_within(ds, lo, hi) && temps_increasing(ds)
}

proof fn lemma_temps_concat(x: Seq<Def>, y: Seq<Def>, lo: nat, mid: nat, hi: nat)
    requires
        temps_ok(x, lo, mid),
        temps_ok(y, mid, hi),
        lo <= mid <= hi,
    ensures
        temps_ok(x + y, lo, hi),
{
    let z = x + y;
    assert forall|i: int, k: nat| 0 <= i < z.len() && #[trigger] is_temp_def(z[i], k) implies lo <= k < hi by {
        if i < x.len() {
            assert(z[i] == x[i]);
            assert(is_temp_def(x[i], k));
        } else {
            assert(z[i] == y[i - x.len()]);
            assert(is_temp_def(y[i - x.len()], k));
        }
    }
    assert forall|i: int, j: int, a: nat, b: nat|
        0 <= i < j < z.len() && #[trigger] is_temp_def(z[i], a) && #[trigger] is_fresh_temp_def(z[j], b)
        implies a < b by {
        if j < x.len() {
            assert(z[i] == x[i] && z[j] == x[j]);
            assert(is_temp_def(x[i], a) && is_fresh_temp_def(x[j], b));
        } else if i >= x.len() {
            assert(z[i] == y[i - x.len()] && z[j] == y[j - x.len()]);
            assert(is_temp_def(y[i - x.len()], a) && is_fresh_temp_def(y[j - x.len()], b));
        } else {
            assert(z[i] == x[i] && z[j] == y[j - x.len()]);
            assert(is_temp_def(x[i], a));
            assert(is_temp_def(y[j - x.len()], b));
        }
    }
}

proof fn lemma_temps_single(d: Def, k: nat)
    requires
        d is Assign && d->Assign_0 == sym_name(k),
    ensures
        temps_ok(seq![d], k, k + 1),
{
    assert forall|i: int, k2: nat| 0 <= i < 1 && #[trigger] is_temp_def(seq![d][i], k2) implies k <= k2 < k + 1 by {
        lemma_sym_name_injective(k, k2);
    }
}

proof fn lemma_temps_empty(lo: nat, hi: nat)
    ensures
        temps_ok(seq![], lo, hi),
{
}

proof fn lemma_temps_bind(e: Ex, n: nat)
    ensures
        temps_ok(crate::flatten::bind(e, n).defs, n, crate::flatten::bind(e, n).next),
        n <= crate::flatten::bind(e, n).next,
{
    if !is_atom(e) {
        lemma_temps_single(Def::Assign(sym_name(n), e), n);
    }
}

proof fn lemma_temps_pow(v: Seq<char>, n: nat, k: nat)
    ensures
        temps_ok(pow_defs(v, n, k), n, n + k),
{
    lemma_pow_defs_names(v, n, k);
    lemma_pow_defs_flat(v, n, k);
    let ds = pow_defs(v, n, k);
    assert forall|i: int, k2: nat| 0 <= i < ds.len() && #[trigger] is_temp_def(ds[i], k2) implies n <= k2 < n + k by {
        lemma_sym_name_injective((n + i) as nat, k2);
    }
    assert forall|i: int, j: int, a: nat, b: nat|
        0 <= i < j < ds.len() && #[trigger] is_temp_def(ds[i], a) && #[trigger] is_fresh_temp_def(ds[j], b)
        implies a < b by {
        lemma_sym_name_injective((n + i) as nat, a);
        lemma_sym_name_injective((n + j) as nat, b);
    }
}

proof fn lemma_temps_compare(lv: Ex, rv: Ex, m: nat)
    ensures
        temps_ok(compare(lv, rv, m).defs, m, m + 3),
{
    let ds = compare(lv, rv, m).defs;
    let d = m + 2;
    assert(ds.len() == 12);
    assert forall|i: int| 3 <= i < 11 implies #[trigger] ds[i] == bit_checks(d, 8)[i - 3] by {}
    assert forall|i: int, k: nat| 0 <= i < ds.len() && #[trigger] is_temp_def(ds[i], k) implies m <= k < m + 3 by {
        if i == 0 {
            lemma_sym_name_injective(m, k);
        } else if i == 1 {
            lemma_sym_name_injective(m + 1, k);
        } else if i == 2 || i == 11 {
            lemma_sym_name_injective(d, k);
        } else {
            lemma_bit_name_not_sym(d, (i - 3) as nat, k);
        }
    }
    assert forall|i: int, j: int, a: nat, b: nat|
        0 <= i < j < ds.len() && #[trigger] is_temp_def(ds[i], a) && #[trigger] is_fresh_temp_def(ds[j], b)
        implies a < b by {
        if 3 <= i < 11 {
            lemma_bit_name_not_sym(d, (i - 3) as nat, a);
        } else if 3 <= j < 11 {
            lemma_bit_name_not_sym(d, (j - 3) as nat, b);
        } else if j == 11 {
            lemma_sym_name_injective(d, b);
        } else {
            if i == 0 { lemma_sym_name_injective(m, a); }
            if i == 1 { lemma_sym_name_injective(m + 1, a); }
            if j == 1 { lemma_sym_name_injective(m + 1, b); }
            if j == 2 { lemma_sym_name_injective(d, b); }
        }
    }
}

/// Lowering numbers its temporaries from `n` up, in the order it assigns them.
pub proof fn lemma_lower_temps(e: Ex, n: nat)
    ensures
        lower(e, n) is Ok ==> n <= lower(e, n)->Ok_0.next
            && temps_ok(lower(e, n)->Ok_0.defs, n, lower(e, n)->Ok_0.next),
    decreases weight(e),
{
    match e {
        Ex::Num(_) | Ex::Var(_) => {},
        Ex::Bin(op, l, r) => {
            if !(is_atom(*l) && is_atom(*r)) && lower(e, n) is Ok {
                lemma_lower_temps(*l, n);
                let a = lower(*l, n)->Ok_0;
                lemma_lower_temps(*r, a.next);
                let b = lower(*r, a.next)->Ok_0;
                let x = crate::flatten::bind(a.value, b.next);
                let y = crate::flatten::bind(b.value, x.next);
                lemma_temps_bind(a.value, b.next);
                lemma_temps_bind(b.value, x.next);
                lemma_temps_concat(a.defs, b.defs, n, a.next, b.next);
                lemma_temps_concat(a.defs + b.defs, x.defs, n, b.next, x.next);
                lemma_temps_concat(a.defs + b.defs + x.defs, y.defs, n, x.next, y.next);
            }
        },
        Ex::Pow(b, x) => {
            if let Ex::Num(k) = *x {
                if k > 1 {
                    if let Ex::Var(v) = *b {
                        lemma_temps_pow(v, n, (k - 2) as nat);
                    }
                }
            }
        },
        Ex::IfLt(l, r, c, f) => {
            if lower(e, n) is Ok {
                lemma_lower_temps(*l, n);
                let a = lower(*l, n)->Ok_0;
                lemma_lower_temps(*r, a.next);
                let b = lower(*r, a.next)->Ok_0;
                let k = lower_cond(*l, *r, n)->Ok_0;
                lemma_temps_compare(a.value, b.value, b.next);
                lemma_temps_concat(a.defs, b.defs, n, a.next, b.next);
                lemma_temps_concat(a.defs + b.defs, compare(a.value, b.value, b.next).defs, n, b.next, k.next);
                lemma_select_weight(name_of(k.value), *c, *f);
                lemma_lower_temps(select(name_of(k.value), *c, *f), k.next);
                let s = lower(select(name_of(k.value), *c, *f), k.next)->Ok_0;
                lemma_temps_concat(k.defs, s.defs, n, k.next, s.next);
            }
        },
    }
}

/// No definition assigns a name of the form `sym_<k>`.
pub open spec fn no_temp_names(ds: Seq<Def>) -> bool {
    forall|i: int, k: nat| 0 <= i < ds.len() ==> !(#[trigger] is_temp_def(ds[i], k))
}

proof fn lemma_lower_defs_temps(ds: Seq<Def>, n: nat)
    requires
        no_temp_names(ds),
    ensures
        lower_defs(ds, n) is Ok ==> n <= lower_defs(ds, n)->Ok_0.1
            && temps_ok(lower_defs(ds, n)->Ok_0.0, n, lower_defs(ds, n)->Ok_0.1),
    decreases ds.len(),
{
    reveal(lower_def);
    if ds.len() > 0 {
        let p = ds.drop_last();
        assert forall|i: int, k: nat| 0 <= i < p.len() implies !(#[trigger] is_temp_def(p[i], k)) by {
            assert(p[i] == ds[i]);
            assert(!is_temp_def(ds[i], k));
        }
        lemma_lower_defs_temps(p, n);
        if let Ok((out, m)) = lower_defs(p, n) {
            let e = rhs(ds.last());
            lemma_lower_temps(e, m);
            if let Ok(a) = lower(e, m) {
                let last = match ds.last() {
                    Def::Assign(name, _) => Def::Assign(name, a.value),
                    Def::Ret(_) => Def::Ret(a.value),
                };
                assert forall|i: int, k: nat| 0 <= i < 1 implies !(#[trigger] is_temp_def(seq![last][i], k)) by {
                    assert(!is_temp_def(ds[ds.len() - 1], k));
                }
                lemma_temps_concat(a.defs, seq![last], m, a.next, a.next);
                assert(a.defs.push(last) =~= a.defs + seq![last]);
                lemma_temps_concat(out, a.defs.push(last), n, m, a.next);
            }
        }
    }
}

/// Uniqueness: in a flattened program whose own assignments use no name of the form
/// `sym_<k>`, temporaries are numbered from zero, each one assigned with a greater number than
/// every temporary before it, so that their names are pairwise distinct; the one name assigned
/// twice is a decomposed difference, redefined as the weighted sum of its bits.
pub proof fn law_temporaries_unique(p: ProgramModel)
    requires
        no_temp_names(p.defs),
    ensures
        flatten_spec(p) is Ok ==> ({
            let out = flatten_spec(p)->Ok_0.defs;
            &&& temps_within(out, 0, lower_defs(p.defs, 0)->Ok_0.1)
            &&& temps_increasing(out)
            &&& forall|i: int, j: int, a: nat, b: nat|
                0 <= i < j < out.len() && #[trigger] is_temp_def(out[i], a) && #[trigger] is_fresh_temp_def(out[j], b)
                    ==> out[i]->Assign_0 != out[j]->Assign_0
        }),
{
    lemma_lower_defs_temps(p.defs, 0);
    if flatten_spec(p) is Ok {
        let out = flatten_spec(p)->Ok_0.defs;
        assert forall|i: int, j: int, a: nat, b: nat|
            0 <= i < j < out.len() && #[trigger] is_temp_def(out[i], a) && #[trigger] is_fresh_temp_def(out[j], b)
            implies out[i]->Assign_0 != out[j]->Assign_0 by {
            if out[i]->Assign_0 == out[j]->Assign_0 {
                lemma_sym_name_injective(a, b);
            }
        }
    }
}

/// A name that flattening synthesizes: it starts with `sym_`.
pub open spec fn synthesized(s: Seq<char>) -> bool {
    s.len() >= 4 && s.subrange(0, 4) == seq!['s', 'y', 'm', '_']
}

/// `d` assigns the name `s`.
pub open spec fn assigns(d: Def, s: Seq<char>) -> bool {
    d is Assign && d->Assign_0 == s
}

/// Every definition of `ds` assigns a synthesized name.
pub open spec fn all_synthesized(ds: Seq<Def>) -> bool {
    forall|i: int| 0 <= i < ds.len() ==> (#[trigger] ds[i]) is Assign && synthesized(ds[i]->Assign_0)
}

proof fn lemma_synth_concat(x: Seq<Def>, y: Seq<Def>)
    requires
        all_synthesized(x),
        all_synthesized(y),
    ensures
        all_synthesized(x + y),
{
    assert forall|i: int| 0 <= i < (x + y).len() implies (#[trigger] (x + y)[i]) is Assign
        && synthesized((x + y)[i]->Assign_0) by {
        if i < x.len() {
            assert((x + y)[i] == x[i]);
        } else {
            assert((x + y)[i] == y[i - x.len()]);
        }
    }
}

proof fn lemma_sym_synthesized(k: nat)
    ensures
        synthesized(sym_name(k)),
{
    assert(sym_name(k).subrange(0, 4) =~= seq!['s', 'y', 'm', '_']);
}

proof fn lemma_bit_synthesized(k: nat, i: nat)
    ensures
        synthesized(bit_name(k, i)),
{
    assert(bit_name(k, i).subrange(0, 4) =~= seq!['s', 'y', 'm', '_']);
}

/// Lowering assigns only synthesized names.
pub proof fn lemma_lower_synthesized(e: Ex, n: nat)
    ensures
        lower(e, n) is Ok ==> all_synthesized(lower(e, n)->Ok_0.defs),
    decreases weight(e),
{
    match e {
        Ex::Num(_) | Ex::Var(_) => {},
        Ex::Bin(op, l, r) => {
            if !(is_atom(*l) && is_atom(*r)) && lower(e, n) is Ok {
                lemma_lower_synthesized(*l, n);
                let a = lower(*l, n)->Ok_0;
                lemma_lower_synthesized(*r, a.next);
                let b = lower(*r, a.next)->Ok_0;
                let x = crate::flatten::bind(a.value, b.next);
                let y = crate::flatten::bind(b.value, x.next);
                lemma_sym_synthesized(b.next);
                lemma_sym_synthesized(x.next);
                lemma_synth_concat(a.defs, b.defs);
                lemma_synth_concat(a.defs + b.defs, x.defs);
                lemma_synth_concat(a.defs + b.defs + x.defs, y.defs);
            }
        },
        Ex::Pow(b, x) => {
            if let Ex::Num(k) = *x {
                if k > 1 {
                    if let Ex::Var(v) = *b {
                        let kk = (k - 2) as nat;
                        lemma_pow_defs_names(v, n, kk);
                        lemma_pow_defs_flat(v, n, kk);
                        assert forall|j: int| 0 <= j < pow_defs(v, n, kk).len() implies
                            (#[trigger] pow_defs(v, n, kk)[j]) is Assign
                            && synthesized(pow_defs(v, n, kk)[j]->Assign_0) by {
                            lemma_sym_synthesized((n + j) as nat);
                        }
                    }
                }
            }
        },
        Ex::IfLt(l, r, c, f) => {
            if lower(e, n) is Ok {
                lemma_lower_synthesized(*l, n);
                let a = lower(*l, n)->Ok_0;
                lemma_lower_synthesized(*r, a.next);
                let b = lower(*r, a.next)->Ok_0;
                let k = lower_cond(*l, *r, n)->Ok_0;
                let m = b.next;
                let cd = compare(a.value, b.value, m).defs;
                assert forall|i: int| 0 <= i < cd.len() implies (#[trigger] cd[i]) is Assign
                    && synthesized(cd[i]->Assign_0) by {
                    if i == 0 {
                        lemma_sym_synthesized(m);
                    } else if i == 1 {
                        lemma_sym_synthesized(m + 1);
                    } else if i == 2 || i == 11 {
                        lemma_sym_synthesized(m + 2);
                    } else {
                        assert(cd[i] == bit_checks(m + 2, 8)[i - 3]);
                        lemma_bit_synthesized(m + 2, (i - 3) as nat);
                    }
                }
                lemma_synth_concat(a.defs, b.defs);
                lemma_synth_concat(a.defs + b.defs, cd);
                lemma_select_weight(name_of(k.value), *c, *f);
                lemma_lower_synthesized(select(name_of(k.value), *c, *f), k.next);
                let s = lower(select(name_of(k.value), *c, *f), k.next)->Ok_0;
                lemma_synth_concat(k.defs, s.defs);
            }
        },
    }
}

/// The program's own assignments use distinct names, none of them synthesized.
pub open spec fn own_names_ok(ds: Seq<Def>) -> bool {
    &&& forall|i: int| 0 <= i < ds.len() && (#[trigger] ds[i]) is Assign ==> !synthesized(ds[i]->Assign_0)
    &&& forall|i: int, j: int| 0 <= i < j < ds.len() && (#[trigger] ds[i]) is Assign && (#[trigger] ds[j]) is Assign
        ==> ds[i]->Assign_0 != ds[j]->Assign_0
}

/// Each own assignment of `ds` is assigned exactly once in `out`, and every name of `out` that
/// is not synthesized is one of them.
pub open spec fn names_kept(ds: Seq<Def>, out: Seq<Def>) -> bool {
    &&& forall|i: int| 0 <= i < ds.len() && (#[trigger] ds[i]) is Assign ==>
        exists|p: int| 0 <= p < out.len() && #[trigger] assigns(out[p], ds[i]->Assign_0)
            && forall|q: int| 0 <= q < out.len() && #[trigger] assigns(out[q], ds[i]->Assign_0) ==> q == p
    &&& forall|p: int| 0 <= p < out.len() && (#[trigger] out[p]) is Assign && !synthesized(out[p]->Assign_0) ==>
        exists|i: int| 0 <= i < ds.len() && #[trigger] assigns(ds[i], out[p]->Assign_0)
}

proof fn lemma_lower_defs_names(ds: Seq<Def>, n: nat)
    requires
        own_names_ok(ds),
    ensures
        lower_defs(ds, n) is Ok ==> names_kept(ds, lower_defs(ds, n)->Ok_0.0),
    decreases ds.len(),
{
    reveal(lower_def);
    if ds.len() > 0 {
        let p = ds.drop_last();
        assert(own_names_ok(p)) by {
            assert forall|i: int| 0 <= i < p.len() && (#[trigger] p[i]) is Assign implies !synthesized(p[i]->Assign_0) by {
                assert(p[i] == ds[i]);
            }
            assert forall|i: int, j: int| 0 <= i < j < p.len() && (#[trigger] p[i]) is Assign && (#[trigger] p[j]) is Assign
                implies p[i]->Assign_0 != p[j]->Assign_0 by {
                assert(p[i] == ds[i] && p[j] == ds[j]);
            }
        }
        lemma_lower_defs_names(p, n);
        if lower_defs(ds, n) is Ok {
            let (out, m) = lower_defs(p, n)->Ok_0;
            let dl = ds.last();
            let e = rhs(dl);
            lemma_lower_synthesized(e, m);
            let a = lower(e, m)->Ok_0;
            let last = match dl {
                Def::Assign(name, _) => Def::Assign(name, a.value),
                Def::Ret(_) => Def::Ret(a.value),
            };
            let more = a.defs.push(last);
            let res = out + more;
            assert(res == lower_defs(ds, n)->Ok_0.0);
            let lo = out.len() as int;
            let li = res.len() - 1;
            assert(res[li] == last);
            assert forall|q: int| lo <= q < li implies (#[trigger] res[q]) is Assign && synthesized(res[q]->Assign_0) by {
                assert(res[q] == a.defs[q - lo]);
            }
            assert forall|q: int| 0 <= q < lo implies #[trigger] res[q] == out[q] by {}
            // names of earlier own assignments
            assert forall|i: int| 0 <= i < ds.len() && (#[trigger] ds[i]) is Assign implies
                exists|pp: int| 0 <= pp < res.len() && #[trigger] assigns(res[pp], ds[i]->Assign_0)
                    && forall|q: int| 0 <= q < res.len() && #[trigger] assigns(res[q], ds[i]->Assign_0) ==> q == pp by {
                let s = ds[i]->Assign_0;
                if i < ds.len() - 1 {
                    assert(p[i] == ds[i]);
                    let pp = choose|pp: int| 0 <= pp < out.len() && #[trigger] assigns(out[pp], p[i]->Assign_0)
                        && forall|q: int| 0 <= q < out.len() && #[trigger] assigns(out[q], p[i]->Assign_0) ==> q == pp;
                    assert(assigns(res[pp], s));
                    assert forall|q: int| 0 <= q < res.len() && #[trigger] assigns(res[q], s) implies q == pp by {
                        if q < lo {
                            assert(assigns(out[q], s));
                        } else if q < li {
                            assert(synthesized(res[q]->Assign_0));
                        } else {
                            assert(ds[ds.len() - 1] is Assign);
                        }
                    }
                } else {
                    assert(assigns(res[li], s));
                    assert forall|q: int| 0 <= q < res.len() && #[trigger] assigns(res[q], s) implies q == li by {
                        if q < lo {
                            assert(res[q] == out[q]);
                            assert(out[q] is Assign && !synthesized(out[q]->Assign_0));
                            let i2 = choose|i2: int| 0 <= i2 < p.len() && #[trigger] assigns(p[i2], out[q]->Assign_0);
                            assert(p[i2] == ds[i2]);
                        } else if q < li {
                            assert(synthesized(res[q]->Assign_0));
                        }
                    }
                }
            }
            assert forall|q: int| 0 <= q < res.len() && (#[trigger] res[q]) is Assign && !synthesized(res[q]->Assign_0) implies
                exists|i: int| 0 <= i < ds.len() && #[trigger] assigns(ds[i], res[q]->Assign_0) by {
                if q < lo {
                    assert(res[q] == out[q]);
                    let i2 = choose|i2: int| 0 <= i2 < p.len() && #[trigger] assigns(p[i2], out[q]->Assign_0);
                    assert(p[i2] == ds[i2]);
                    assert(assigns(ds[i2], res[q]->Assign_0));
                } else if q < li {
                    assert(synthesized(res[q]->Assign_0));
                } else {
                    assert(assigns(ds[ds.len() - 1], res[q]->Assign_0));
                }
            }
        }
    }
}

/// Name preservation: when the program's own assignments have distinct names, none of them
/// starting with `sym_`, each of them is assigned exactly once in the flattened program, and
/// every other name assigned there is synthesized.
pub proof fn law_names_preserved(p: ProgramModel)
    requires
        own_names_ok(p.defs),
    ensures
        flatten_spec(p) is Ok ==> names_kept(p.defs, flatten_spec(p)->Ok_0.defs),
{
    lemma_lower_defs_names(p.defs, 0);
}

/// Every definition of `ds` is an assignment.
pub open spec fn all_assignments(ds: Seq<Def>) -> bool {
    forall|i: int| 0 <= i < ds.len() ==> (#[trigger] ds[i]) is Assign
}

proof fn lemma_lower_defs_shape(ds: Seq<Def>, n: nat)
    requires
        all_assignments(ds),
    ensures
        lower_defs(ds, n) is Ok ==> all_assignments(lower_defs(ds, n)->Ok_0.0),
    decreases ds.len(),
{
    reveal(lower_def);
    if ds.len() > 0 {
        let p = ds.drop_last();
        assert(all_assignments(p)) by {
            assert forall|i: int| 0 <= i < p.len() implies (#[trigger] p[i]) is Assign by {
                assert(p[i] == ds[i]);
            }
        }
        lemma_lower_defs_shape(p, n);
        if lower_defs(ds, n) is Ok {
            let (out, m) = lower_defs(p, n)->Ok_0;
            let e = rhs(ds.last());
            lemma_lower_synthesized(e, m);
            let a = lower(e, m)->Ok_0;
            assert(ds[ds.len() - 1] is Assign);
            let res = lower_defs(ds, n)->Ok_0.0;
            assert forall|i: int| 0 <= i < res.len() implies (#[trigger] res[i]) is Assign by {
                if i < out.len() {
                    assert(res[i] == out[i]);
                } else if i < out.len() + a.defs.len() {
                    assert(res[i] == a.defs[i - out.len()]);
                }
            }
        }
    }
}

/// Flattening keeps a program well formed: when the input ends in its only return, so does
/// the output.
pub proof fn law_flatten_well_formed(p: ProgramModel)
    requires
        well_formed_defs(p.defs),
    ensures
        flatten_spec(p) is Ok ==> well_formed_defs(flatten_spec(p)->Ok_0.defs),
{
    reveal(lower_def);
    let ds = p.defs;
    let pre = ds.drop_last();
    assert(all_assignments(pre)) by {
        assert forall|i: int| 0 <= i < pre.len() implies (#[trigger] pre[i]) is Assign by {
            assert(pre[i] == ds[i]);
        }
    }
    lemma_lower_defs_shape(pre, 0);
    if flatten_spec(p) is Ok {
        let (out, m) = lower_defs(pre, 0)->Ok_0;
        let e = rhs(ds.last());
        lemma_lower_synthesized(e, m);
        let a = lower(e, m)->Ok_0;
        let res = flatten_spec(p)->Ok_0.defs;
        assert(res == out + a.defs.push(Def::Ret(a.value)));
        assert forall|i: int| 0 <= i < res.len() - 1 implies (#[trigger] res[i]) is Assign by {
            if i < out.len() {
                assert(res[i] == out[i]);
            } else {
                assert(res[i] == a.defs[i - out.len()]);
            }
        }
    }
}

/// A program whose last definition is an assignment is rejected with `LastStatementNotReturn`,
/// so no program reaches flattening: this holds of text whose header and body lines are all
/// well formed.
pub proof fn law_last_assignment_rejected(lines: Seq<Seq<char>>)
    requires
        find_header(lines, 0) is Ok,
        header(lines[find_header(lines, 0)->Ok_0 as int]) is Some,
        body_prefix(lines, find_header(lines, 0)->Ok_0, lines.len()) is Ok,
        body_prefix(lines, find_header(lines, 0)->Ok_0, lines.len())->Ok_0.len() >= 1,
        body_prefix(lines, find_header(lines, 0)->Ok_0, lines.len())->Ok_0.last() is Assign,
    ensures
        parse_spec(lines) == Err::<ProgramModel, ParseError>(ParseError::LastStatementNotReturn),
{
}

/// `ds` freshly assigns the temporary `sym_<k>` somewhere.
pub open spec fn fresh_somewhere(ds: Seq<Def>, k: nat) -> bool {
    exists|p: int| 0 <= p < ds.len() && #[trigger] is_fresh_temp_def(ds[p], k)
}

/// Every temporary numbered in `lo..hi` is freshly assigned in `ds`: numbering has no gaps.
pub open spec fn temps_cover(ds: Seq<Def>, lo: nat, hi: nat) -> bool {
    forall|k: nat| lo <= k < hi ==> #[trigger] fresh_somewhere(ds, k)
}

proof fn lemma_cover_concat(x: Seq<Def>, y: Seq<Def>, lo: nat, mid: nat, hi: nat)
    requires
        temps_cover(x, lo, mid),
        temps_cover(y, mid, hi),
    ensures
        temps_cover(x + y, lo, hi),
{
    assert forall|k: nat| lo <= k < hi implies #[trigger] fresh_somewhere(x + y, k) by {
        if k < mid {
            assert(fresh_somewhere(x, k));
            let p = choose|p: int| 0 <= p < x.len() && #[trigger] is_fresh_temp_def(x[p], k);
            assert((x + y)[p] == x[p]);
        } else {
            assert(fresh_somewhere(y, k));
            let p = choose|p: int| 0 <= p < y.len() && #[trigger] is_fresh_temp_def(y[p], k);
            assert((x + y)[p + x.len()] == y[p]);
        }
    }
}

proof fn lemma_weighted_sum_not_flat(k: nat)
    ensures
        !is_flat(weighted_sum(k, 7)),
{
    reveal_with_fuel(weighted_sum, 2);
}

proof fn lemma_cover_single(d: Def, k: nat)
    requires
        d is Assign,
        d->Assign_0 == sym_name(k),
        is_flat(d->Assign_1),
    ensures
        temps_cover(seq![d], k, k + 1),
{
    lemma_weighted_sum_not_flat(k);
    assert(is_fresh_temp_def(seq![d][0], k));
}

proof fn lemma_cover_bind(e: Ex, n: nat)
    requires
        is_flat(e),
    ensures
        temps_cover(crate::flatten::bind(e, n).defs, n, crate::flatten::bind(e, n).next),
{
    if !is_atom(e) {
        lemma_cover_single(Def::Assign(sym_name(n), e), n);
    }
}

proof fn lemma_cover_pow(v: Seq<char>, n: nat, k: nat)
    ensures
        temps_cover(pow_defs(v, n, k), n, n + k),
{
    lemma_pow_defs_names(v, n, k);
    lemma_pow_defs_flat(v, n, k);
    let ds = pow_defs(v, n, k);
    assert forall|k2: nat| n <= k2 < n + k implies #[trigger] fresh_somewhere(ds, k2) by {
        let j = k2 - n;
        lemma_weighted_sum_not_flat(k2);
        assert(is_flat(ds[j]->Assign_1));
        assert(is_fresh_temp_def(ds[j], k2));
    }
}

proof fn lemma_cover_compare(lv: Ex, rv: Ex, m: nat)
    requires
        is_flat(lv),
        is_flat(rv),
    ensures
        temps_cover(compare(lv, rv, m).defs, m, m + 3),
{
    let ds = compare(lv, rv, m).defs;
    assert forall|k: nat| m <= k < m + 3 implies #[trigger] fresh_somewhere(ds, k) by {
        lemma_weighted_sum_not_flat(k);
        let p = k - m;
        assert(is_flat(rhs(ds[p])));
        assert(is_fresh_temp_def(ds[p], k));
    }
}

/// Lowering freshly assigns every temporary it numbers.
pub proof fn lemma_lower_cover(e: Ex, n: nat)
    ensures
        lower(e, n) is Ok ==> temps_cover(lower(e, n)->Ok_0.defs, n, lower(e, n)->Ok_0.next),
    decreases weight(e),
{
    match e {
        Ex::Num(_) | Ex::Var(_) => {},
        Ex::Bin(op, l, r) => {
            if !(is_atom(*l) && is_atom(*r)) && lower(e, n) is Ok {
                lemma_lower_cover(*l, n);
                lemma_lower_flat(*l, n);
                lemma_lower_temps(*l, n);
                let a = lower(*l, n)->Ok_0;
                lemma_lower_cover(*r, a.next);
                lemma_lower_flat(*r, a.next);
                lemma_lower_temps(*r, a.next);
                let b = lower(*r, a.next)->Ok_0;
                let x = crate::flatten::bind(a.value, b.next);
                let y = crate::flatten::bind(b.value, x.next);
                lemma_cover_bind(a.value, b.next);
                lemma_cover_bind(b.value, x.next);
                lemma_cover_concat(a.defs, b.defs, n, a.next, b.next);
                lemma_cover_concat(a.defs + b.defs, x.defs, n, b.next, x.next);
                lemma_cover_concat(a.defs + b.defs + x.defs, y.defs, n, x.next, y.next);
            }
        },
        Ex::Pow(b, x) => {
            if let Ex::Num(k) = *x {
                if k > 1 {
                    if let Ex::Var(v) = *b {
                        lemma_cover_pow(v, n, (k - 2) as nat);
                    }
                }
            }
        },
        Ex::IfLt(l, r, c, f) => {
            if lower(e, n) is Ok {
                lemma_lower_cover(*l, n);
                lemma_lower_flat(*l, n);
                lemma_lower_temps(*l, n);
                let a = lower(*l, n)->Ok_0;
                lemma_lower_cover(*r, a.next);
                lemma_lower_flat(*r, a.next);
                lemma_lower_temps(*r, a.next);
                let b = lower(*r, a.next)->Ok_0;
                let k = lower_cond(*l, *r, n)->Ok_0;
                lemma_cover_compare(a.value, b.value, b.next);
                lemma_cover_concat(a.defs, b.defs, n, a.next, b.next);
                lemma_cover_concat(a.defs + b.defs, compare(a.value, b.value, b.next).defs, n, b.next, k.next);
                lemma_select_weight(name_of(k.value), *c, *f);
                lemma_lower_cover(select(name_of(k.value), *c, *f), k.next);
                lemma_lower_temps(select(name_of(k.value), *c, *f), k.next);
                let s = lower(select(name_of(k.value), *c, *f), k.next)->Ok_0;
                lemma_cover_concat(k.defs, s.defs, n, k.next, s.next);
            }
        },
    }
}

proof fn lemma_lower_defs_cover(ds: Seq<Def>, n: nat)
    ensures
        lower_defs(ds, n) is Ok ==> temps_cover(lower_defs(ds, n)->Ok_0.0, n, lower_defs(ds, n)->Ok_0.1),
    decreases ds.len(),
{
    reveal(lower_def);
    if ds.len() > 0 {
        let p = ds.drop_last();
        lemma_lower_defs_cover(p, n);
        if lower_defs(ds, n) is Ok {
            let (out, m) = lower_defs(p, n)->Ok_0;
            let e = rhs(ds.last());
            lemma_lower_cover(e, m);
            let a = lower(e, m)->Ok_0;
            let last = match ds.last() {
                Def::Assign(name, _) => Def::Assign(name, a.value),
                Def::Ret(_) => Def::Ret(a.value),
            };
            assert(a.defs.push(last) =~= a.defs + seq![last]);
            lemma_cover_concat(a.defs, seq![last], m, a.next, a.next);
            lemma_cover_concat(out, a.defs.push(last), n, m, a.next);
        }
    }
}

/// Uniqueness, without gaps: every temporary `sym_0 .. sym_(k-1)` that a flattening run
/// numbers is freshly assigned in the flattened program, where `k` is the final counter.
/// Together with `law_temporaries_unique`, the first assignments of temporaries are exactly
/// `sym_0, sym_1, ...` in that order.
pub proof fn law_temporaries_without_gaps(p: ProgramModel)
    ensures
        flatten_spec(p) is Ok ==> temps_cover(flatten_spec(p)->Ok_0.defs, 0, lower_defs(p.defs, 0)->Ok_0.1),
{
    lemma_lower_defs_cover(p.defs, 0);
}

/// What a definition shows of itself apart from its right-hand side: whether it is an
/// assignment, and the name it assigns.
pub open spec fn shape(d: Def) -> (bool, Seq<char>) {
    match d {
        Def::Assign(name, _) => (true, name),
        Def::Ret(_) => (false, seq![]),
    }
}

/// The shapes of the definitions of `ds` that do not assign a synthesized name, in order.
pub open spec fn own_shapes(ds: Seq<Def>) -> Seq<(bool, Seq<char>)>
    decreases ds.len(),
{
    if ds.len() == 0 {
        seq![]
    } else if ds.last() is Assign && synthesized(ds.last()->Assign_0) {
        own_shapes(ds.drop_last())
    } else {
        own_shapes(ds.drop_last()).push(shape(ds.last()))
    }
}

proof fn lemma_own_shapes_concat(x: Seq<Def>, y: Seq<Def>)
    ensures
        own_shapes(x + y) == own_shapes(x) + own_shapes(y),
    decreases y.len(),
{
    if y.len() == 0 {
        assert(x + y =~= x);
        assert(own_shapes(x) + own_shapes(y) =~= own_shapes(x));
    } else {
        assert((x + y).drop_last() =~= x + y.drop_last());
        assert((x + y).last() == y.last());
        lemma_own_shapes_concat(x, y.drop_last());
        if !(y.last() is Assign && synthesized(y.last()->Assign_0)) {
            assert(own_shapes(x) + own_shapes(y.drop_last()).push(shape(y.last()))
                =~= (own_shapes(x) + own_shapes(y.drop_last())).push(shape(y.last())));
        }
    }
}

proof fn lemma_own_shapes_synthesized(ds: Seq<Def>)
    requires
        all_synthesized(ds),
    ensures
        own_shapes(ds) == Seq::<(bool, Seq<char>)>::empty(),
    decreases ds.len(),
{
    if ds.len() > 0 {
        let p = ds.drop_last();
        assert forall|i: int| 0 <= i < p.len() implies (#[trigger] p[i]) is Assign && synthesized(p[i]->Assign_0) by {
            assert(p[i] == ds[i]);
        }
        lemma_own_shapes_synthesized(p);
        assert(ds[ds.len() - 1] is Assign);
    }
}

/// No own assignment of `ds` starts with `sym_`.
pub open spec fn no_synthesized_names(ds: Seq<Def>) -> bool {
    forall|i: int| 0 <= i < ds.len() && (#[trigger] ds[i]) is Assign ==> !synthesized(ds[i]->Assign_0)
}

proof fn lemma_lower_defs_shapes(ds: Seq<Def>, n: nat)
    requires
        no_synthesized_names(ds),
    ensures
        lower_defs(ds, n) is Ok ==> own_shapes(lower_defs(ds, n)->Ok_0.0) == ds.map_values(|d: Def| shape(d)),
    decreases ds.len(),
{
    reveal(lower_def);
    if ds.len() > 0 {
        let p = ds.drop_last();
        assert forall|i: int| 0 <= i < p.len() && (#[trigger] p[i]) is Assign implies !synthesized(p[i]->Assign_0) by {
            assert(p[i] == ds[i]);
        }
        lemma_lower_defs_shapes(p, n);
        if lower_defs(ds, n) is Ok {
            let (out, m) = lower_defs(p, n)->Ok_0;
            let e = rhs(ds.last());
            lemma_lower_synthesized(e, m);
            let a = lower(e, m)->Ok_0;
            let last = match ds.last() {
                Def::Assign(name, _) => Def::Assign(name, a.value),
                Def::Ret(_) => Def::Ret(a.value),
            };
            assert(!(ds[ds.len() - 1] is Assign && synthesized(ds[ds.len() - 1]->Assign_0)));
            assert(a.defs.push(last) =~= a.defs + seq![last]);
            lemma_own_shapes_synthesized(a.defs);
            lemma_own_shapes_concat(a.defs, seq![last]);
            assert(seq![last].drop_last() =~= Seq::<Def>::empty());
            assert(shape(last) == shape(ds.last()));
            assert(!(last is Assign && synthesized(last->Assign_0)));
            assert(seq![last].last() == last);
            assert(own_shapes(Seq::<Def>::empty()) == Seq::<(bool, Seq<char>)>::empty());
            assert(Seq::<(bool, Seq<char>)>::empty().push(shape(last)) =~= seq![shape(last)]);
            assert(own_shapes(seq![last]) == seq![shape(ds.last())]);
            lemma_own_shapes_concat(out, a.defs.push(last));
            assert(ds.map_values(|d: Def| shape(d)) =~= p.map_values(|d: Def| shape(d)).push(shape(ds.last())));
            assert(own_shapes(out) + (Seq::<(bool, Seq<char>)>::empty() + seq![shape(ds.last())])
                =~= p.map_values(|d: Def| shape(d)).push(shape(ds.last())));
        }
    }
}

/// Name preservation, in order: leaving out the assignments of synthesized names, the
/// flattened program has the same definitions as the input, of the same kinds, with the same
/// names and in the same order; only right-hand sides change. So each name is assigned as many
/// times as in the input. This holds when no own assignment's name starts with `sym_`.
pub proof fn law_definitions_kept_in_order(p: ProgramModel)
    requires
        no_synthesized_names(p.defs),
    ensures
        flatten_spec(p) is Ok ==> own_shapes(flatten_spec(p)->Ok_0.defs) == p.defs.map_values(|d: Def| shape(d)),
{
    lemma_lower_defs_shapes(p.defs, 0);
}

} // verus!
