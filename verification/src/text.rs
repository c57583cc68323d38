//! Verified helpers over `&str` and `String`: equality, prefix tests,
//! slicing, and rendering of integers in a given radix.

use vstd::prelude::*;
use vstd::string::*;

verus! {

/// Character equality over whole strings, stated over the `Seq<char>` views.
pub fn str_eq(a: &str, b: &str) -> (r: bool)
    ensures
        r == (a@ == b@),
{
    let la = a.unicode_len();
    let lb = b.unicode_len();
    if la != lb {
        proof {
            assert(a@ != b@);
        }
        return false;
    }
    let mut i: usize = 0;
    while i < la
        invariant
            i <= la,
            la == a@.len(),
            la == b@.len(),
            forall|j: int| 0 <= j < i ==> a@[j] == b@[j],
        decreases la - i,
    {
        if a.get_char(i) != b.get_char(i) {
            return false;
        }
        i += 1;
    }
    proof {
        assert(a@ =~= b@);
    }
    true
}

/// Whether `p` is a character-wise prefix of `s`.
pub fn str_starts_with(s: &str, p: &str) -> (r: bool)
    ensures
        r == p@.is_prefix_of(s@),
{
    let ls = s.unicode_len();
    let lp = p.unicode_len();
    if lp > ls {
        return false;
    }
    let mut i: usize = 0;
    while i < lp
        invariant
            i <= lp,
            lp <= ls,
            ls == s@.len(),
            lp == p@.len(),
            forall|j: int| 0 <= j < i ==> s@[j] == p@[j],
        decreases lp - i,
    {
        if s.get_char(i) != p.get_char(i) {
            proof {
                assert(!p@.is_prefix_of(s@));
            }
            return false;
        }
        i += 1;
    }
    proof {
        assert(p@ =~= s@.subrange(0, p@.len() as int));
    }
    true
}

/// Whether the last character of `s` is `c`.
pub fn str_ends_with(s: &str, c: char) -> (r: bool)
    ensures
        r == (s@.len() > 0 && s@[s@.len() - 1] == c),
{
    let l = s.unicode_len();
    if l == 0 {
        false
    } else {
        s.get_char(l - 1) == c
    }
}

/// The suffix of `s` after its first `n` characters.
pub fn str_after(s: &str, n: usize) -> (r: &str)
    requires
        n <= s@.len(),
    ensures
        r@ == s@.subrange(n as int, s@.len() as int),
{
    let l = s.unicode_len();
    s.substring_char(n, l)
}

/// The first `n` characters of `s`.
pub fn str_take(s: &str, n: usize) -> (r: &str)
    requires
        n <= s@.len(),
    ensures
        r@ == s@.subrange(0, n as int),
{
    s.substring_char(0, n)
}

/// Strict lexicographic order on names, by code point.
pub open spec fn lex_lt(a: Seq<char>, b: Seq<char>) -> bool
    decreases a.len(), b.len(),
{
    if b.len() == 0 {
        false
    } else if a.len() == 0 {
        true
    } else if a[0] != b[0] {
        (a[0] as u32) < (b[0] as u32)
    } else {
        lex_lt(a.drop_first(), b.drop_first())
    }
}

/// The order is irreflexive.
pub proof fn lemma_lex_irrefl(a: Seq<char>)
    ensures
        !lex_lt(a, a),
    decreases a.len(),
{
    if a.len() > 0 {
        lemma_lex_irrefl(a.drop_first());
    }
}

/// The order is asymmetric, and strictly ordered names differ.
pub proof fn lemma_lex_asym(a: Seq<char>, b: Seq<char>)
    requires
        lex_lt(a, b),
    ensures
        !lex_lt(b, a),
        a != b,
    decreases a.len(),
{
    lemma_lex_irrefl(a);
    if a.len() > 0 && b.len() > 0 && a[0] == b[0] {
        lemma_lex_asym(a.drop_first(), b.drop_first());
        if a == b {
            assert(a.drop_first() == b.drop_first());
        }
    }
}

/// The order is total: distinct names are ordered one way.
pub proof fn lemma_lex_total(a: Seq<char>, b: Seq<char>)
    requires
        a != b,
    ensures
        lex_lt(a, b) || lex_lt(b, a),
    decreases a.len(),
{
    if a.len() == 0 {
        if b.len() == 0 {
            assert(a =~= b);
        }
    } else if b.len() == 0 {
    } else if a[0] != b[0] {
        if (a[0] as u32) == (b[0] as u32) {
            vstd::utf8::char_u32_cast(a[0], a[0] as u32);
            vstd::utf8::char_u32_cast(b[0], b[0] as u32);
            assert(false);
        }
    } else {
        if a.drop_first() == b.drop_first() {
            assert(a.drop_first().len() == b.drop_first().len());
            assert(a.len() == b.len());
            assert forall|j: int| 0 <= j < a.len() implies a[j] == b[j] by {
                if j > 0 {
                    assert(a.drop_first()[j - 1] == b.drop_first()[j - 1]);
                }
            }
            assert(a =~= b);
            assert(false);
        }
        lemma_lex_total(a.drop_first(), b.drop_first());
    }
}

/// The order is transitive.
pub proof fn lemma_lex_trans(a: Seq<char>, b: Seq<char>, c: Seq<char>)
    requires
        lex_lt(a, b),
        lex_lt(b, c),
    ensures
        lex_lt(a, c),
    decreases a.len(),
{
    if a.len() == 0 {
    } else {
        assert(b.len() > 0 && c.len() > 0);
        if a[0] == b[0] && b[0] == c[0] {
            lemma_lex_trans(a.drop_first(), b.drop_first(), c.drop_first());
        }
    }
}

/// Dropping an equal prefix does not change the order.
pub proof fn lemma_lex_skip(a: Seq<char>, b: Seq<char>, i: int)
    requires
        0 <= i <= a.len(),
        i <= b.len(),
        forall|j: int| 0 <= j < i ==> a[j] == b[j],
    ensures
        lex_lt(a, b) == lex_lt(a.skip(i), b.skip(i)),
    decreases i,
{
    if i == 0 {
        assert(a.skip(0) =~= a);
        assert(b.skip(0) =~= b);
    } else {
        assert(a[0] == b[0]);
        assert(a.drop_first() =~= a.skip(1));
        assert(b.drop_first() =~= b.skip(1));
        assert(forall|j: int| 0 <= j < i - 1 ==> a.drop_first()[j] == b.drop_first()[j]);
        lemma_lex_skip(a.drop_first(), b.drop_first(), i - 1);
        assert(a.drop_first().skip(i - 1) =~= a.skip(i));
        assert(b.drop_first().skip(i - 1) =~= b.skip(i));
    }
}

/// Decides the lexicographic order of two names.
pub fn str_lt(a: &str, b: &str) -> (r: bool)
    ensures
        r == lex_lt(a@, b@),
{
    let la = a.unicode_len();
    let lb = b.unicode_len();
    let upto = if la < lb {
        la
    } else {
        lb
    };
    let mut i: usize = 0;
    while i < upto
        invariant
            i <= upto,
            la == a@.len(),
            lb == b@.len(),
            upto == if la < lb { la } else { lb },
            forall|j: int| 0 <= j < i ==> a@[j] == b@[j],
        decreases upto - i,
    {
        let ca = a.get_char(i);
        let cb = b.get_char(i);
        if ca != cb {
            proof {
                lemma_lex_skip(a@, b@, i as int);
                assert(a@.skip(i as int)[0] == ca && b@.skip(i as int)[0] == cb);
            }
            return (ca as u32) < (cb as u32);
        }
        i += 1;
    }
    proof {
        lemma_lex_skip(a@, b@, upto as int);
        if la < lb {
            assert(a@.skip(upto as int).len() == 0 && b@.skip(upto as int).len() > 0);
        } else {
            assert(b@.skip(upto as int).len() == 0);
        }
    }
    la < lb
}

/// The character standing for a digit value below 36.
pub open spec fn digit_char(d: int) -> char {
    if d == 0 { '0' } else if d == 1 { '1' } else if d == 2 { '2' } else if d == 3 { '3' }
    else if d == 4 { '4' } else if d == 5 { '5' } else if d == 6 { '6' } else if d == 7 { '7' }
    else if d == 8 { '8' } else if d == 9 { '9' } else if d == 10 { 'a' } else if d == 11 { 'b' }
    else if d == 12 { 'c' } else if d == 13 { 'd' } else if d == 14 { 'e' } else if d == 15 { 'f' }
    else if d == 16 { 'g' } else if d == 17 { 'h' } else if d == 18 { 'i' } else if d == 19 { 'j' }
    else if d == 20 { 'k' } else if d == 21 { 'l' } else if d == 22 { 'm' } else if d == 23 { 'n' }
    else if d == 24 { 'o' } else if d == 25 { 'p' } else if d == 26 { 'q' } else if d == 27 { 'r' }
    else if d == 28 { 's' } else if d == 29 { 't' } else if d == 30 { 'u' } else if d == 31 { 'v' }
    else if d == 32 { 'w' } else if d == 33 { 'x' } else if d == 34 { 'y' } else { 'z' }
}

/// Appends the single digit character for `d` to `out`.
pub fn append_digit(out: &mut String, d: u64)
    requires
        d < 36,
    ensures
        final(out)@ == old(out)@ + seq![digit_char(d as int)],
{
    let piece: &str = if d == 0 { "0" } else if d == 1 { "1" } else if d == 2 { "2" }
    else if d == 3 { "3" } else if d == 4 { "4" } else if d == 5 { "5" } else if d == 6 { "6" }
    else if d == 7 { "7" } else if d == 8 { "8" } else if d == 9 { "9" } else if d == 10 { "a" }
    else if d == 11 { "b" } else if d == 12 { "c" } else if d == 13 { "d" } else if d == 14 { "e" }
    else if d == 15 { "f" } else if d == 16 { "g" } else if d == 17 { "h" } else if d == 18 { "i" }
    else if d == 19 { "j" } else if d == 20 { "k" } else if d == 21 { "l" } else if d == 22 { "m" }
    else if d == 23 { "n" } else if d == 24 { "o" } else if d == 25 { "p" } else if d == 26 { "q" }
    else if d == 27 { "r" } else if d == 28 { "s" } else if d == 29 { "t" } else if d == 30 { "u" }
    else if d == 31 { "v" } else if d == 32 { "w" } else if d == 33 { "x" } else if d == 34 { "y" }
    else { "z" };
    proof {
        reveal_strlit("0"); reveal_strlit("1"); reveal_strlit("2"); reveal_strlit("3");
        reveal_strlit("4"); reveal_strlit("5"); reveal_strlit("6"); reveal_strlit("7");
        reveal_strlit("8"); reveal_strlit("9"); reveal_strlit("a"); reveal_strlit("b");
        reveal_strlit("c"); reveal_strlit("d"); reveal_strlit("e"); reveal_strlit("f");
        reveal_strlit("g"); reveal_strlit("h"); reveal_strlit("i"); reveal_strlit("j");
        reveal_strlit("k"); reveal_strlit("l"); reveal_strlit("m"); reveal_strlit("n");
        reveal_strlit("o"); reveal_strlit("p"); reveal_strlit("q"); reveal_strlit("r");
        reveal_strlit("s"); reveal_strlit("t"); reveal_strlit("u"); reveal_strlit("v");
        reveal_strlit("w"); reveal_strlit("x"); reveal_strlit("y"); reveal_strlit("z");
        assert(piece@ =~= seq![digit_char(d as int)]);
    }
    out.append(piece);
}

/// The digit sequence of `n` in radix `base`, most significant first;
/// empty when `n` is zero.
pub open spec fn spec_digits(n: nat, base: nat) -> Seq<char>
    recommends
        base >= 2,
    decreases n,
    when base >= 2
    via spec_digits_decreases
{
    if n == 0 || base < 2 {
        Seq::empty()
    } else {
        spec_digits(n / base, base) + seq![digit_char((n % base) as int)]
    }
}

#[via_fn]
proof fn spec_digits_decreases(n: nat, base: nat) {
    if n != 0 && base >= 2 {
        assert(n / base < n) by (nonlinear_arith)
            requires
                n > 0,
                base >= 2,
        ;
    }
}

/// The rendering of the integer `v` in radix `base`: a minus sign for
/// negative values, then the digits, with `0` itself written as "0".
pub open spec fn spec_int_string(v: int, base: nat) -> Seq<char> {
    if v == 0 {
        seq!['0']
    } else if v < 0 {
        seq!['-'] + spec_digits((-v) as nat, base)
    } else {
        spec_digits(v as nat, base)
    }
}

/// Appends the digits of `m` in radix `base` to `out` (nothing when `m` is 0).
pub fn append_u64_digits(out: &mut String, m: u64, base: u64)
    requires
        2 <= base <= 36,
    ensures
        final(out)@ == old(out)@ + spec_digits(m as nat, base as nat),
{
    let mut rev: Vec<u64> = Vec::new();
    let mut n: u64 = m;
    while n > 0
        invariant
            2 <= base <= 36,
            forall|j: int| 0 <= j < rev@.len() ==> rev@[j] < 36,
            spec_digits(m as nat, base as nat) == spec_digits(n as nat, base as nat)
                + Seq::new(rev@.len(), |j: int| digit_char(rev@[rev@.len() - 1 - j] as int)),
        decreases n,
    {
        let ghost prev = rev@;
        let ghost pn = n as nat;
        let d = n % base;
        rev.push(d);
        n = n / base;
        proof {
            let b = base as nat;
            assert(spec_digits(pn, b) == spec_digits(pn / b, b) + seq![digit_char((pn % b) as int)]);
            assert(Seq::new(rev@.len(), |j: int| digit_char(rev@[rev@.len() - 1 - j] as int))
                =~= seq![digit_char(d as int)]
                    + Seq::new(prev.len(), |j: int| digit_char(prev[prev.len() - 1 - j] as int)));
        }
    }
    let ghost whole = spec_digits(m as nat, base as nat);
    proof {
        assert(whole =~= Seq::new(rev@.len(), |j: int| digit_char(rev@[rev@.len() - 1 - j] as int)));
    }
    let mut i: usize = rev.len();
    while i > 0
        invariant
            i <= rev@.len(),
            forall|j: int| 0 <= j < rev@.len() ==> rev@[j] < 36,
            whole == Seq::new(rev@.len(), |j: int| digit_char(rev@[rev@.len() - 1 - j] as int)),
            out@ == old(out)@ + whole.take(rev@.len() - i),
        decreases i,
    {
        i -= 1;
        append_digit(out, rev[i]);
        proof {
            assert(out@ =~= old(out)@ + whole.take(rev@.len() - i));
        }
    }
    proof {
        assert(whole.take(rev@.len() as int) =~= whole);
    }
}

/// Appends the rendering of `v` in radix `base` to `out`.
pub fn append_int(out: &mut String, v: i64, base: u64)
    requires
        2 <= base <= 36,
    ensures
        final(out)@ == old(out)@ + spec_int_string(v as int, base as nat),
{
    if v == 0 {
        proof {
            reveal_strlit("0");
            assert("0"@ =~= seq!['0']);
        }
        out.append("0");
    } else if v < 0 {
        proof {
            reveal_strlit("-");
            assert("-"@ =~= seq!['-']);
        }
        out.append("-");
        let m: u64 = #[verifier::truncate] ((-(v as i128)) as u64);
        append_u64_digits(out, m, base);
        proof {
            assert(out@ =~= old(out)@ + spec_int_string(v as int, base as nat));
        }
    } else {
        append_u64_digits(out, v as u64, base);
    }
}

} // verus!
