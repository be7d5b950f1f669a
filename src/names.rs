use vstd::prelude::*;
use vstd::string::StrSliceExecFns;

verus! {

/// The decimal digit character for `d < 10`.
pub open spec fn digit_char(d: nat) -> char {
    if d == 0 { '0' }
    else if d == 1 { '1' }
    else if d == 2 { '2' }
    else if d == 3 { '3' }
    else if d == 4 { '4' }
    else if d == 5 { '5' }
    else if d == 6 { '6' }
    else if d == 7 { '7' }
    else if d == 8 { '8' }
    else { '9' }
}

/// Decimal representation of `n`, most significant digit first.
pub open spec fn decimal(n: nat) -> Seq<char>
    decreases n,
{
    if n < 10 {
        seq![digit_char(n)]
    } else {
        decimal(n / 10).push(digit_char(n % 10))
    }
}

/// The name of the `n`-th synthesized temporary: `sym_<n>`.
pub open spec fn sym_name(n: nat) -> Seq<char> {
    seq!['s', 'y', 'm', '_'] + decimal(n)
}

/// The name of bit `i` of the decomposition of temporary `n`: `sym_<n>_b<i>`.
pub open spec fn bit_name(n: nat, i: nat) -> Seq<char> {
    sym_name(n) + seq!['_', 'b', digit_char(i)]
}

pub proof fn lemma_digit_char_injective(a: nat, b: nat)
    requires
        a < 10,
        b < 10,
        digit_char(a) == digit_char(b),
    ensures
        a == b,
{
}

pub proof fn lemma_decimal_nonempty(n: nat)
    ensures
        decimal(n).len() >= 1,
    decreases n,
{
    if n >= 10 {
        lemma_decimal_nonempty(n / 10);
    }
}

pub proof fn lemma_decimal_injective(a: nat, b: nat)
    requires
        decimal(a) == decimal(b),
    ensures
        a == b,
    decreases a,
{
    if a < 10 && b < 10 {
        assert(decimal(a) == seq![digit_char(a)]);
        assert(decimal(b) == seq![digit_char(b)]);
        assert(decimal(a)[0] == digit_char(a));
        assert(decimal(b)[0] == digit_char(b));
        lemma_digit_char_injective(a, b);
    } else if a < 10 {
        lemma_decimal_nonempty(b / 10);
        assert(decimal(b).len() >= 2);
    } else if b < 10 {
        lemma_decimal_nonempty(a / 10);
        assert(decimal(a).len() >= 2);
    } else {
        let da = decimal(a);
        let db = decimal(b);
        assert(da.last() == db.last());
        lemma_digit_char_injective(a % 10, b % 10);
        assert(da.drop_last() =~= decimal(a / 10));
        assert(db.drop_last() =~= decimal(b / 10));
        lemma_decimal_injective(a / 10, b / 10);
        assert(a == 10 * (a / 10) + a % 10);
        assert(b == 10 * (b / 10) + b % 10);
    }
}

pub proof fn lemma_decimal_digits(n: nat)
    ensures
        forall|i: int| 0 <= i < decimal(n).len() ==> '0' <= #[trigger] decimal(n)[i] <= '9',
    decreases n,
{
    if n >= 10 {
        lemma_decimal_digits(n / 10);
        assert forall|i: int| 0 <= i < decimal(n).len() implies '0' <= #[trigger] decimal(n)[i] <= '9' by {
            if i < decimal(n / 10).len() {
                assert(decimal(n)[i] == decimal(n / 10)[i]);
            }
        }
    }
}

/// A bit name is never the name of a temporary.
pub proof fn lemma_bit_name_not_sym(m: nat, i: nat, k: nat)
    ensures
        bit_name(m, i) != sym_name(k),
{
    if bit_name(m, i) == sym_name(k) {
        let p = 4 + decimal(m).len();
        lemma_decimal_digits(k);
        assert(bit_name(m, i)[p as int] == '_');
        assert(bit_name(m, i).len() == p + 3);
        assert(sym_name(k).len() == 4 + decimal(k).len());
        assert(0 <= p - 4 < decimal(k).len());
        assert(sym_name(k)[p as int] == decimal(k)[p - 4]);
        assert('0' <= decimal(k)[p - 4] <= '9');
    }
}

/// Distinct counter values give distinct temporary names.
pub proof fn lemma_sym_name_injective(a: nat, b: nat)
    requires
        sym_name(a) == sym_name(b),
    ensures
        a == b,
{
    assert(sym_name(a).subrange(4, sym_name(a).len() as int) =~= decimal(a));
    assert(sym_name(b).subrange(4, sym_name(b).len() as int) =~= decimal(b));
    lemma_decimal_injective(a, b);
}

fn digit(d: usize) -> (c: char)
    requires
        d < 10,
    ensures
        c == digit_char(d as nat),
{
    if d == 0 { '0' }
    else if d == 1 { '1' }
    else if d == 2 { '2' }
    else if d == 3 { '3' }
    else if d == 4 { '4' }
    else if d == 5 { '5' }
    else if d == 6 { '6' }
    else if d == 7 { '7' }
    else if d == 8 { '8' }
    else { '9' }
}

fn push_decimal(out: &mut Vec<char>, n: usize)
    ensures
        final(out)@ == old(out)@ + decimal(n as nat),
    decreases n,
{
    if n >= 10 {
        push_decimal(out, n / 10);
    }
    out.push(digit(n % 10));
    assert(out@ =~= old(out)@ + decimal(n as nat));
}

/// Relies on `String::push`: appends the character to the end of the string.
#[verifier::external_body]
fn push_char(s: &mut String, c: char)
    ensures
        final(s)@ == old(s)@.push(c),
{
    s.push(c)
}

/// The string holding the characters `cs`, in order.
pub fn string_of_chars(cs: &Vec<char>) -> (s: String)
    ensures
        s@ == cs@,
{
    let mut s = String::new();
    let mut i: usize = 0;
    while i < cs.len()
        invariant
            0 <= i <= cs@.len(),
            s@ == cs@.subrange(0, i as int),
        decreases cs@.len() - i,
    {
        push_char(&mut s, cs[i]);
        i = i + 1;
        assert(s@ =~= cs@.subrange(0, i as int));
    }
    assert(cs@.subrange(0, cs@.len() as int) =~= cs@);
    s
}

/// The characters of `s`, in order.
pub fn chars_of(s: &str) -> (cs: Vec<char>)
    ensures
        cs@ == s@,
{
    let n = s.unicode_len();
    let mut cs: Vec<char> = Vec::new();
    let mut i: usize = 0;
    while i < n
        invariant
            n == s@.len(),
            0 <= i <= n,
            cs@ == s@.subrange(0, i as int),
        decreases n - i,
    {
        cs.push(s.get_char(i));
        i = i + 1;
        assert(cs@ =~= s@.subrange(0, i as int));
    }
    assert(s@.subrange(0, n as int) =~= s@);
    cs
}

fn sym_chars(n: usize) -> (cs: Vec<char>)
    ensures
        cs@ == sym_name(n as nat),
{
    let mut cs: Vec<char> = Vec::new();
    cs.push('s');
    cs.push('y');
    cs.push('m');
    cs.push('_');
    push_decimal(&mut cs, n);
    assert(cs@ =~= sym_name(n as nat));
    cs
}

/// The name `sym_<n>` of a synthesized temporary.
pub fn make_sym_name(n: usize) -> (s: String)
    ensures
        s@ == sym_name(n as nat),
{
    string_of_chars(&sym_chars(n))
}

/// The name `sym_<n>_b<i>` of one bit of a decomposition.
pub fn make_bit_name(n: usize, i: usize) -> (s: String)
    requires
        i < 10,
    ensures
        s@ == bit_name(n as nat, i as nat),
{
    let mut cs = sym_chars(n);
    cs.push('_');
    cs.push('b');
    cs.push(digit(i));
    assert(cs@ =~= bit_name(n as nat, i as nat));
    string_of_chars(&cs)
}

} // verus!
