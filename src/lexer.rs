use vstd::prelude::*;

verus! {

pub open spec fn is_alpha(c: char) -> bool {
    ('a' <= c && c <= 'z') || ('A' <= c && c <= 'Z')
}

pub open spec fn is_lower(c: char) -> bool {
    'a' <= c && c <= 'z'
}

pub open spec fn is_digit(c: char) -> bool {
    '0' <= c && c <= '9'
}

pub open spec fn is_alnum(c: char) -> bool {
    is_alpha(c) || is_digit(c)
}

/// The whitespace characters that are stripped from the ends of a line: the ASCII ones.
/// Other Unicode whitespace is kept, and a line holding it does not match any line shape.
pub open spec fn is_space(c: char) -> bool {
    c == ' ' || c == '\t' || c == '\n' || c == '\r' || c == '\x0B' || c == '\x0C'
}

/// End of the longest run of alphanumeric characters of `s` that starts at `i`.
pub open spec fn alnum_end(s: Seq<char>, i: nat) -> nat
    decreases s.len() - i,
{
    if i < s.len() && is_alnum(s[i as int]) { alnum_end(s, i + 1) } else { i }
}

/// End of the longest run of letters of `s` that starts at `i`.
pub open spec fn alpha_end(s: Seq<char>, i: nat) -> nat
    decreases s.len() - i,
{
    if i < s.len() && is_alpha(s[i as int]) { alpha_end(s, i + 1) } else { i }
}

/// End of the longest run of lower-case letters of `s` that starts at `i`.
pub open spec fn lower_end(s: Seq<char>, i: nat) -> nat
    decreases s.len() - i,
{
    if i < s.len() && is_lower(s[i as int]) { lower_end(s, i + 1) } else { i }
}

/// End of the longest run of whitespace of `s` that starts at `i`.
pub open spec fn space_end(s: Seq<char>, i: nat) -> nat
    decreases s.len() - i,
{
    if i < s.len() && is_space(s[i as int]) { space_end(s, i + 1) } else { i }
}

pub proof fn lemma_alnum_end(s: Seq<char>, i: nat)
    ensures
        i <= s.len() ==> i <= alnum_end(s, i) <= s.len(),
        forall|j: int| i <= j < alnum_end(s, i) ==> is_alnum(s[j]),
        alnum_end(s, i) < s.len() ==> !is_alnum(s[alnum_end(s, i) as int]),
    decreases s.len() - i,
{
    if i < s.len() && is_alnum(s[i as int]) {
        lemma_alnum_end(s, i + 1);
    }
}

pub proof fn lemma_alpha_end(s: Seq<char>, i: nat)
    ensures
        i <= s.len() ==> i <= alpha_end(s, i) <= s.len(),
        forall|j: int| i <= j < alpha_end(s, i) ==> is_alpha(s[j]),
        alpha_end(s, i) < s.len() ==> !is_alpha(s[alpha_end(s, i) as int]),
    decreases s.len() - i,
{
    if i < s.len() && is_alpha(s[i as int]) {
        lemma_alpha_end(s, i + 1);
    }
}

pub proof fn lemma_lower_end(s: Seq<char>, i: nat)
    ensures
        i <= lower_end(s, i),
        i <= s.len() ==> lower_end(s, i) <= s.len(),
        forall|j: int| i <= j < lower_end(s, i) ==> is_lower(s[j]),
    decreases s.len() - i,
{
    if i < s.len() && is_lower(s[i as int]) {
        lemma_lower_end(s, i + 1);
    }
}

pub proof fn lemma_space_end(s: Seq<char>, i: nat)
    ensures
        i <= space_end(s, i),
        i <= s.len() ==> space_end(s, i) <= s.len(),
    decreases s.len() - i,
{
    if i < s.len() && is_space(s[i as int]) {
        lemma_space_end(s, i + 1);
    }
}

pub fn alnum_char(c: char) -> (r: bool)
    ensures
        r == is_alnum(c),
{
    ('a' <= c && c <= 'z') || ('A' <= c && c <= 'Z') || ('0' <= c && c <= '9')
}

pub fn space_char(c: char) -> (r: bool)
    ensures
        r == is_space(c),
{
    c == ' ' || c == '\t' || c == '\n' || c == '\r' || c == '\x0B' || c == '\x0C'
}

pub fn scan_alnum(s: &Vec<char>, i: usize) -> (r: usize)
    requires
        i <= s@.len(),
    ensures
        r == alnum_end(s@, i as nat),
{
    let mut j = i;
    while j < s.len() && alnum_char(s[j])
        invariant
            i <= j <= s@.len(),
            alnum_end(s@, j as nat) == alnum_end(s@, i as nat),
        decreases s@.len() - j,
    {
        j = j + 1;
    }
    j
}

pub fn scan_alpha(s: &Vec<char>, i: usize) -> (r: usize)
    requires
        i <= s@.len(),
    ensures
        r == alpha_end(s@, i as nat),
{
    let mut j = i;
    while j < s.len() && (('a' <= s[j] && s[j] <= 'z') || ('A' <= s[j] && s[j] <= 'Z'))
        invariant
            i <= j <= s@.len(),
            alpha_end(s@, j as nat) == alpha_end(s@, i as nat),
        decreases s@.len() - j,
    {
        j = j + 1;
    }
    j
}

pub fn scan_lower(s: &Vec<char>, i: usize) -> (r: usize)
    requires
        i <= s@.len(),
    ensures
        r == lower_end(s@, i as nat),
{
    let mut j = i;
    while j < s.len() && 'a' <= s[j] && s[j] <= 'z'
        invariant
            i <= j <= s@.len(),
            lower_end(s@, j as nat) == lower_end(s@, i as nat),
        decreases s@.len() - j,
    {
        j = j + 1;
    }
    j
}

pub fn scan_space(s: &Vec<char>, i: usize) -> (r: usize)
    requires
        i <= s@.len(),
    ensures
        r == space_end(s@, i as nat),
{
    let mut j = i;
    while j < s.len() && space_char(s[j])
        invariant
            i <= j <= s@.len(),
            space_end(s@, j as nat) == space_end(s@, i as nat),
        decreases s@.len() - j,
    {
        j = j + 1;
    }
    j
}

/// The characters of `s` from `lo` up to `hi`.
pub fn slice(s: &Vec<char>, lo: usize, hi: usize) -> (r: Vec<char>)
    requires
        lo <= hi <= s@.len(),
    ensures
        r@ == s@.subrange(lo as int, hi as int),
{
    let mut r: Vec<char> = Vec::new();
    let mut i = lo;
    while i < hi
        invariant
            lo <= i <= hi <= s@.len(),
            r@ == s@.subrange(lo as int, i as int),
        decreases hi - i,
    {
        r.push(s[i]);
        i = i + 1;
        assert(r@ =~= s@.subrange(lo as int, i as int));
    }
    r
}

/// `s` without its space and tab characters.
pub open spec fn strip_blanks(s: Seq<char>) -> Seq<char>
    decreases s.len(),
{
    if s.len() == 0 {
        seq![]
    } else if s.last() == ' ' || s.last() == '\t' {
        strip_blanks(s.drop_last())
    } else {
        strip_blanks(s.drop_last()).push(s.last())
    }
}

pub fn remove_blanks(s: &Vec<char>) -> (r: Vec<char>)
    ensures
        r@ == strip_blanks(s@),
{
    let mut r: Vec<char> = Vec::new();
    let mut i: usize = 0;
    while i < s.len()
        invariant
            0 <= i <= s@.len(),
            r@ == strip_blanks(s@.subrange(0, i as int)),
        decreases s@.len() - i,
    {
        let ghost pre = s@.subrange(0, i as int);
        assert(s@.subrange(0, i + 1).drop_last() =~= pre);
        if s[i] != ' ' && s[i] != '\t' {
            r.push(s[i]);
        }
        i = i + 1;
    }
    assert(s@.subrange(0, s@.len() as int) =~= s@);
    r
}

/// `s` without whitespace at either end.
pub open spec fn trim(s: Seq<char>) -> Seq<char> {
    let lo = space_end(s, 0);
    s.subrange(lo as int, trim_end(s, s.len(), lo) as int)
}

/// Greatest `j` in `lo..=hi` such that `s[lo..j]` does not end in whitespace.
pub open spec fn trim_end(s: Seq<char>, hi: nat, lo: nat) -> nat
    decreases hi,
{
    if hi > lo && hi <= s.len() && is_space(s[hi - 1]) { trim_end(s, (hi - 1) as nat, lo) } else { hi }
}

pub fn trimmed(s: &Vec<char>) -> (r: Vec<char>)
    ensures
        r@ == trim(s@),
{
    let lo = scan_space(s, 0);
    proof { lemma_space_end(s@, 0); }
    let mut hi = s.len();
    while hi > lo && space_char(s[hi - 1])
        invariant
            lo <= hi <= s@.len(),
            lo == space_end(s@, 0),
            trim_end(s@, hi as nat, lo as nat) == trim_end(s@, s@.len(), lo as nat),
        decreases hi,
    {
        hi = hi - 1;
    }
    slice(s, lo, hi)
}

/// Does `s` start with `p`?
pub open spec fn starts_with(s: Seq<char>, p: Seq<char>) -> bool {
    p.len() <= s.len() && s.subrange(0, p.len() as int) == p
}

pub fn has_prefix(s: &Vec<char>, p: &Vec<char>) -> (r: bool)
    ensures
        r == starts_with(s@, p@),
{
    if p.len() > s.len() {
        return false;
    }
    let mut i: usize = 0;
    while i < p.len()
        invariant
            p@.len() <= s@.len(),
            0 <= i <= p@.len(),
            forall|j: int| 0 <= j < i ==> s@[j] == p@[j],
        decreases p@.len() - i,
    {
        if s[i] != p[i] {
            assert(s@.subrange(0, p@.len() as int)[i as int] != p@[i as int]);
            return false;
        }
        i = i + 1;
    }
    assert(s@.subrange(0, p@.len() as int) =~= p@);
    true
}

} // verus!
