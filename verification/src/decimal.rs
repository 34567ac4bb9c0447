//! Exact analysis of decimal literals, over the raw digit bytes.
//!
//! A literal accepted by the lexer has the shape
//! `digits ("." digits?)? ("e" "-"? digits)?`. Its value is the rational
//! `m / 10^k` where `m` folds the digits of the integer and fraction parts and
//! `k` is the fraction length minus the signed exponent. The compiler needs
//! two exact questions answered from the bytes alone: is the literal
//! malformed (an exponent marker with no digits), and does it denote an
//! integer between 0 and 127 (the compact encoding). Both are decided here
//! by string arithmetic and proved against the rational-value specification.

use vstd::arithmetic::div_mod::lemma_fundamental_div_mod_converse;
use vstd::prelude::*;

use crate::lexer::is_digit_byte;

verus! {

/// Every byte is an ASCII digit.
pub open spec fn all_digits(s: Seq<u8>) -> bool {
    forall|i: int| 0 <= i < s.len() ==> is_digit_byte(#[trigger] s[i])
}

/// Ten to the power `n`.
pub open spec fn pow10(n: nat) -> int
    decreases n,
{
    if n == 0 {
        1
    } else {
        10 * pow10((n - 1) as nat)
    }
}

/// Numeric value of a digit string, most significant first.
pub open spec fn digits_val(s: Seq<u8>) -> int
    decreases s.len(),
{
    if s.len() == 0 {
        0
    } else {
        digits_val(s.drop_last()) * 10 + (s.last() - 48)
    }
}

/// Index of the first occurrence of `c` in `s`, or the length.
pub open spec fn first_idx(s: Seq<u8>, c: u8) -> int
    decreases s.len(),
{
    if s.len() == 0 {
        0
    } else if s[0] == c {
        0
    } else {
        1 + first_idx(s.skip(1), c)
    }
}

/// Mantissa: the bytes before the first `e`.
pub open spec fn mant_of(s: Seq<u8>) -> Seq<u8> {
    s.subrange(0, first_idx(s, 101))
}

/// Whether an `e` occurs.
pub open spec fn has_exp(s: Seq<u8>) -> bool {
    first_idx(s, 101) < s.len()
}

/// The bytes after the first `e`.
pub open spec fn exp_of(s: Seq<u8>) -> Seq<u8> {
    s.subrange(first_idx(s, 101) + 1, s.len() as int)
}

/// Integer part of a mantissa: the bytes before the first `.`.
pub open spec fn int_part(m: Seq<u8>) -> Seq<u8> {
    m.subrange(0, first_idx(m, 46))
}

/// Fraction part of a mantissa: the bytes after the first `.`, if any.
pub open spec fn frac_part(m: Seq<u8>) -> Seq<u8> {
    if first_idx(m, 46) < m.len() {
        m.subrange(first_idx(m, 46) + 1, m.len() as int)
    } else {
        Seq::empty()
    }
}

/// Whether the exponent bytes carry a leading minus sign.
pub open spec fn exp_neg(x: Seq<u8>) -> bool {
    x.len() > 0 && x[0] == 45
}

/// The exponent's digit bytes, sign stripped.
pub open spec fn exp_digits(x: Seq<u8>) -> Seq<u8> {
    if exp_neg(x) {
        x.skip(1)
    } else {
        x
    }
}

/// A literal in the shape the lexer emits that the number decoder accepts:
/// a nonempty digit run, at most the one `.` already split off, and, if an
/// `e` occurs, at least one exponent digit after the optional minus.
pub open spec fn wf_number(s: Seq<u8>) -> bool {
    let m = mant_of(s);
    &&& int_part(m).len() >= 1
    &&& all_digits(int_part(m))
    &&& all_digits(frac_part(m))
    &&& (has_exp(s) ==> {
        let xd = exp_digits(exp_of(s));
        all_digits(xd) && xd.len() >= 1
    })
}

/// Digit fold of integer and fraction parts together.
pub open spec fn mant_val(s: Seq<u8>) -> int {
    digits_val(int_part(mant_of(s)) + frac_part(mant_of(s)))
}

/// The signed decimal exponent written after `e` (zero when absent).
pub open spec fn exp_val(s: Seq<u8>) -> int {
    if !has_exp(s) {
        0
    } else if exp_neg(exp_of(s)) {
        -digits_val(exp_digits(exp_of(s)))
    } else {
        digits_val(exp_digits(exp_of(s)))
    }
}

/// The literal denotes `mant_val(s) / 10^scale_of(s)`.
pub open spec fn scale_of(s: Seq<u8>) -> int {
    frac_part(mant_of(s)).len() - exp_val(s)
}

/// The integer in `[0, 127]` that the rational `d / 10^k` equals, if any.
pub open spec fn small_from(d: int, k: int) -> Option<int> {
    if k <= 0 {
        if d * pow10((-k) as nat) <= 127 {
            Some(d * pow10((-k) as nat))
        } else {
            None
        }
    } else {
        if d % pow10(k as nat) == 0 && d / pow10(k as nat) <= 127 {
            Some(d / pow10(k as nat))
        } else {
            None
        }
    }
}

/// The literal's value when it is an integer in `[0, 127]`, else `None`.
pub open spec fn spec_small_value(s: Seq<u8>) -> Option<int> {
    small_from(mant_val(s), scale_of(s))
}

/// What the compiler does with a literal: reject it, embed it as one signed
/// byte, or embed the full eight-byte encoding.
#[derive(Copy, Clone, PartialEq, Eq, Structural, Debug)]
pub enum NumClass {
    Malformed,
    Small(u8),
    Big,
}

/// The classification of a literal's bytes.
pub open spec fn spec_classify(s: Seq<u8>) -> NumClass {
    if !wf_number(s) {
        NumClass::Malformed
    } else {
        match spec_small_value(s) {
            Some(n) => NumClass::Small(n as u8),
            None => NumClass::Big,
        }
    }
}

proof fn lemma_first_idx_bounds(s: Seq<u8>, c: u8)
    ensures
        0 <= first_idx(s, c) <= s.len(),
        first_idx(s, c) < s.len() ==> s[first_idx(s, c)] == c,
        forall|m: int| 0 <= m < first_idx(s, c) ==> s[m] != c,
    decreases s.len(),
{
    if s.len() > 0 && s[0] != c {
        lemma_first_idx_bounds(s.skip(1), c);
        assert forall|m: int| 0 <= m < first_idx(s, c) implies s[m] != c by {
            if m > 0 {
                assert(s[m] == s.skip(1)[m - 1]);
            }
        }
    }
}

proof fn lemma_first_idx_is(s: Seq<u8>, c: u8, j: int)
    requires
        0 <= j <= s.len(),
        j < s.len() ==> s[j] == c,
        forall|m: int| 0 <= m < j ==> s[m] != c,
    ensures
        first_idx(s, c) == j,
    decreases s.len(),
{
    if s.len() > 0 && s[0] != c {
        lemma_first_idx_is(s.skip(1), c, j - 1);
    }
}

/// Bounds of a digit fold: a `d`-digit string holds a value below `10^d`.
pub proof fn lemma_digits_val_bounds(s: Seq<u8>)
    requires
        all_digits(s),
    ensures
        0 <= digits_val(s) < pow10(s.len()),
    decreases s.len(),
{
    if s.len() > 0 {
        assert(all_digits(s.drop_last())) by {
            assert(forall|i: int|
                0 <= i < s.len() - 1 ==> #[trigger] s.drop_last()[i] == s[i]);
        }
        lemma_digits_val_bounds(s.drop_last());
        assert(is_digit_byte(s.last()));
        assert(digits_val(s.drop_last()) * 10 + (s.last() - 48) < pow10(s.len())) by (nonlinear_arith)
            requires
                digits_val(s.drop_last()) < pow10((s.len() - 1) as nat),
                s.last() - 48 < 10,
                pow10(s.len()) == 10 * pow10((s.len() - 1) as nat),
        ;
    }
}

/// A digit string that starts with a nonzero digit is at least `10^(d-1)`.
proof fn lemma_digits_val_lower(s: Seq<u8>)
    requires
        all_digits(s),
        s.len() >= 1,
        s[0] != 48,
    ensures
        digits_val(s) >= pow10((s.len() - 1) as nat),
    decreases s.len(),
{
    if s.len() == 1 {
        assert(digits_val(s.drop_last()) == 0) by {
            assert(s.drop_last().len() == 0);
        }
    } else {
        assert(all_digits(s.drop_last())) by {
            assert(forall|i: int|
                0 <= i < s.len() - 1 ==> #[trigger] s.drop_last()[i] == s[i]);
        }
        assert(s.drop_last()[0] == s[0]);
        lemma_digits_val_lower(s.drop_last());
        assert(digits_val(s.drop_last()) * 10 >= pow10((s.len() - 1) as nat)) by (nonlinear_arith)
            requires
                digits_val(s.drop_last()) >= pow10((s.len() - 2) as nat),
                pow10((s.len() - 1) as nat) == 10 * pow10((s.len() - 2) as nat),
        ;
        assert(s.last() - 48 >= 0);
    }
}

/// Leading zeros do not change a digit fold.
proof fn lemma_digits_val_skip_zeros(s: Seq<u8>, i: int)
    requires
        0 <= i <= s.len(),
        forall|m: int| 0 <= m < i ==> s[m] == 48,
    ensures
        digits_val(s) == digits_val(s.skip(i)),
    decreases s.len(),
{
    if i > 0 && s.len() > 0 {
        if i == s.len() {
            assert(digits_val(s.skip(i)) == 0);
            assert(s.drop_last().len() == s.len() - 1);
            assert(forall|m: int|
                0 <= m < s.len() - 1 ==> #[trigger] s.drop_last()[m] == s[m]);
            lemma_digits_val_skip_zeros(s.drop_last(), i - 1);
            assert(digits_val(s.drop_last().skip(i - 1)) == 0) by {
                assert(s.drop_last().skip(i - 1).len() == 0);
            }
            assert(s.last() == 48);
        } else {
            lemma_digits_val_skip_zeros(s.drop_last(), i);
            assert(s.skip(i).drop_last() =~= s.drop_last().skip(i));
            assert(s.skip(i).last() == s.last());
        }
    } else {
        assert(s.skip(0) =~= s);
    }
}

/// Splitting a digit string splits its fold: the head shifts by `10^len`
/// of the tail.
proof fn lemma_digits_val_concat(a: Seq<u8>, b: Seq<u8>)
    ensures
        digits_val(a + b) == digits_val(a) * pow10(b.len()) + digits_val(b),
    decreases b.len(),
{
    if b.len() == 0 {
        assert(a + b =~= a);
    } else {
        lemma_digits_val_concat(a, b.drop_last());
        assert((a + b).drop_last() =~= a + b.drop_last());
        assert((a + b).last() == b.last());
        assert((digits_val(a) * pow10((b.len() - 1) as nat) + digits_val(b.drop_last())) * 10
            == digits_val(a) * pow10(b.len()) + digits_val(b.drop_last()) * 10) by (nonlinear_arith)
            requires
                pow10(b.len()) == 10 * pow10((b.len() - 1) as nat),
        ;
    }
}

/// A digit fold is zero exactly when every digit is `0`.
proof fn lemma_digits_val_zero(s: Seq<u8>)
    requires
        all_digits(s),
    ensures
        (digits_val(s) == 0) <==> (forall|m: int| 0 <= m < s.len() ==> s[m] == 48),
    decreases s.len(),
{
    if s.len() > 0 {
        let dl = s.drop_last();
        assert(all_digits(dl)) by {
            assert(forall|i: int| 0 <= i < s.len() - 1 ==> #[trigger] dl[i] == s[i]);
        }
        lemma_digits_val_zero(dl);
        lemma_digits_val_bounds(dl);
        assert(is_digit_byte(s.last()));
        if digits_val(s) == 0 {
            assert(digits_val(dl) == 0 && s.last() == 48) by {
                assert(digits_val(dl) * 10 + (s.last() - 48) == 0);
                assert(digits_val(dl) >= 0);
            }
            assert forall|m: int| 0 <= m < s.len() implies s[m] == 48 by {
                if m < s.len() - 1 {
                    assert(dl[m] == s[m]);
                    assert(dl[m] == 48);
                } else {
                    assert(s[m] == s.last());
                }
            }
        }
        if forall|m: int| 0 <= m < s.len() ==> #[trigger] s[m] == 48 {
            assert forall|m: int| 0 <= m < dl.len() implies #[trigger] dl[m] == 48 by {
                assert(dl[m] == s[m]);
            }
            assert(digits_val(dl) == 0);
            assert(s.last() == s[s.len() - 1]);
            assert(s.last() == 48);
            assert(digits_val(s) == 0);
        }
    }
}

/// `pow10` grows, and is at least one.
pub proof fn lemma_pow10_pos(n: nat)
    ensures
        pow10(n) >= 1,
    decreases n,
{
    if n > 0 {
        lemma_pow10_pos((n - 1) as nat);
    }
}

/// `pow10` is monotonic in the exponent.
proof fn lemma_pow10_mono(a: nat, b: nat)
    requires
        a <= b,
    ensures
        pow10(a) <= pow10(b),
    decreases b,
{
    if a < b {
        lemma_pow10_mono(a, (b - 1) as nat);
        lemma_pow10_pos((b - 1) as nat);
    }
}


/// `pow10` at the fold width bounds: `10^38` fits `u128` and tops `2^64`.
proof fn lemma_pow10_38()
    ensures
        pow10(38) == 0x4b3b4ca85a86c47a098a224000000000,
        pow10(3) == 1000,
{
    reveal_with_fuel(pow10, 39);
}

/// Digit fold of at most 38 digits, exactly.
fn fold_digits(s: &[u8]) -> (v: u128)
    requires
        all_digits(s@),
        s@.len() <= 38,
    ensures
        v == digits_val(s@),
{
    proof {
        lemma_pow10_38();
    }
    let mut acc: u128 = 0;
    let mut i: usize = 0;
    while i < s.len()
        invariant
            all_digits(s@),
            s@.len() <= 38,
            0 <= i <= s@.len(),
            acc == digits_val(s@.subrange(0, i as int)),
            pow10(38) == 0x4b3b4ca85a86c47a098a224000000000,
        decreases s@.len() - i,
    {
        proof {
            assert(all_digits(s@.subrange(0, i as int))) by {
                assert(forall|m: int|
                    0 <= m < i ==> #[trigger] s@.subrange(0, i as int)[m] == s@[m]);
            }
            lemma_digits_val_bounds(s@.subrange(0, i as int));
            lemma_pow10_mono((i + 1) as nat, 38);
            assert(s@.subrange(0, i + 1).drop_last() =~= s@.subrange(0, i as int));
            assert(s@.subrange(0, i + 1).last() == s@[i as int]);
            assert(is_digit_byte(s@[i as int]));
        }
        acc = acc * 10 + ((s[i] - 48) as u128);
        i += 1;
    }
    proof {
        assert(s@.subrange(0, s@.len() as int) =~= s@);
    }
    acc
}

/// Whether every byte is a digit.
fn check_digits(s: &[u8]) -> (b: bool)
    ensures
        b == all_digits(s@),
{
    let mut i: usize = 0;
    while i < s.len()
        invariant
            0 <= i <= s@.len(),
            forall|m: int| 0 <= m < i ==> is_digit_byte(#[trigger] s@[m]),
        decreases s@.len() - i,
    {
        if !(48 <= s[i] && s[i] <= 57) {
            return false;
        }
        i += 1;
    }
    true
}

/// Index of the first occurrence of `c`, or the length.
fn find_byte(s: &[u8], c: u8) -> (i: usize)
    ensures
        i == first_idx(s@, c),
        i <= s@.len(),
{
    let mut i: usize = 0;
    while i < s.len()
        invariant
            0 <= i <= s@.len(),
            forall|m: int| 0 <= m < i ==> s@[m] != c,
        decreases s@.len() - i,
    {
        if s[i] == c {
            proof {
                lemma_first_idx_is(s@, c, i as int);
            }
            return i;
        }
        i += 1;
    }
    proof {
        lemma_first_idx_is(s@, c, s@.len() as int);
    }
    i
}

/// Number of leading `0` digits.
fn leading_zeros(s: &[u8]) -> (i: usize)
    ensures
        0 <= i <= s@.len(),
        forall|m: int| 0 <= m < i ==> s@[m] == 48,
        i < s@.len() ==> s@[i as int] != 48,
{
    let mut i: usize = 0;
    while i < s.len()
        invariant
            0 <= i <= s@.len(),
            forall|m: int| 0 <= m < i ==> s@[m] == 48,
        decreases s@.len() - i,
    {
        if s[i] != 48 {
            return i;
        }
        i += 1;
    }
    i
}

/// Number of trailing `0` digits.
fn trailing_zeros(s: &[u8]) -> (t: usize)
    ensures
        0 <= t <= s@.len(),
        forall|m: int| s@.len() - t <= m < s@.len() ==> s@[m] == 48,
        t < s@.len() ==> s@[s@.len() - 1 - t] != 48,
    decreases s@.len(),
{
    let mut t: usize = 0;
    while t < s.len()
        invariant
            0 <= t <= s@.len(),
            forall|m: int| s@.len() - t <= m < s@.len() ==> s@[m] == 48,
        decreases s@.len() - t,
    {
        if s[s.len() - 1 - t] != 48 {
            return t;
        }
        t += 1;
    }
    t
}

/// Decide the classification of a literal's bytes, exactly.
#[verifier::rlimit(100)]
#[verifier::spinoff_prover]
pub fn classify(digits: &[u8]) -> (r: NumClass)
    ensures
        r == spec_classify(digits@),
{
    proof {
        lemma_pow10_38();
        lemma_first_idx_bounds(digits@, 101);
    }
    let n: usize = digits.len();
    let epos: usize = find_byte(digits, 101);
    let m: &[u8] = &digits[0..epos];
    proof {
        assert(m@ == mant_of(digits@));
        lemma_first_idx_bounds(m@, 46);
    }
    let dpos: usize = find_byte(m, 46);
    let ip: &[u8] = &m[0..dpos];
    let fp: &[u8] = if dpos < m.len() {
        &m[dpos + 1..m.len()]
    } else {
        &m[0..0]
    };
    proof {
        assert(ip@ == int_part(m@));
        assert(fp@ == frac_part(m@));
    }
    if ip.len() == 0 || !check_digits(ip) || !check_digits(fp) {
        return NumClass::Malformed;
    }
    let has_e: bool = epos < n;
    let x: &[u8] = if has_e {
        &digits[epos + 1..n]
    } else {
        &digits[0..0]
    };
    let xneg: bool = x.len() > 0 && x[0] == 45;
    let xd: &[u8] = if xneg {
        &x[1..x.len()]
    } else {
        x
    };
    proof {
        if has_e {
            assert(x@ == exp_of(digits@));
            assert(xd@ == exp_digits(exp_of(digits@)));
        }
    }
    if has_e && (xd.len() == 0 || !check_digits(xd)) {
        return NumClass::Malformed;
    }
    assert(wf_number(digits@));

    // The mantissa digits, integer and fraction parts joined.
    let mut g: Vec<u8> = Vec::new();
    let mut gi: usize = 0;
    while gi < ip.len()
        invariant
            0 <= gi <= ip@.len(),
            g@ == ip@.subrange(0, gi as int),
        decreases ip@.len() - gi,
    {
        g.push(ip[gi]);
        proof {
            assert(g@ =~= ip@.subrange(0, gi + 1));
        }
        gi = gi + 1;
    }
    proof {
        assert(g@ =~= ip@);
    }
    gi = 0;
    while gi < fp.len()
        invariant
            0 <= gi <= fp@.len(),
            g@ == ip@ + fp@.subrange(0, gi as int),
        decreases fp@.len() - gi,
    {
        g.push(fp[gi]);
        proof {
            assert(g@ =~= ip@ + fp@.subrange(0, gi + 1));
        }
        gi = gi + 1;
    }
    proof {
        assert(g@ =~= ip@ + fp@);
        assert(all_digits(g@)) by {
            assert(forall|i: int| 0 <= i < ip@.len() ==> #[trigger] g@[i] == ip@[i]);
            assert(forall|i: int|
                ip@.len() <= i < g@.len() ==> #[trigger] g@[i] == fp@[i - ip@.len()]);
        }
    }
    let ghost d: int = mant_val(digits@);
    proof {
        assert(d == digits_val(g@));
        lemma_digits_val_bounds(g@);
    }

    let lz: usize = leading_zeros(&g);
    proof {
        lemma_digits_val_skip_zeros(g@, lz as int);
    }
    if lz == g.len() {
        // Every mantissa digit is zero: the value is zero whatever the
        // exponent says.
        proof {
            assert(g@.skip(lz as int).len() == 0);
            assert(d == 0);
            let k = scale_of(digits@);
            if k > 0 {
                lemma_pow10_pos(k as nat);
                assert(0int % pow10(k as nat) == 0) by (nonlinear_arith)
                    requires
                        pow10(k as nat) >= 1,
                ;
                assert(0int / pow10(k as nat) == 0) by (nonlinear_arith)
                    requires
                        pow10(k as nat) >= 1,
                ;
            } else {
                lemma_pow10_pos((-k) as nat);
            }
        }
        return NumClass::Small(0);
    }
    let sd_len: usize = g.len() - lz;
    proof {
        assert(g@.skip(lz as int)[0] == g@[lz as int]);
        assert(all_digits(g@.skip(lz as int))) by {
            assert(forall|i: int|
                0 <= i < g@.len() - lz ==> #[trigger] g@.skip(lz as int)[i] == g@[i + lz]);
        }
        lemma_digits_val_lower(g@.skip(lz as int));
        assert(d >= pow10((sd_len - 1) as nat));
        lemma_pow10_pos((sd_len - 1) as nat);
        assert(d >= 1);
    }

    // The signed exponent, exactly when it has at most 38 significant
    // digits; beyond that its size alone decides.
    let xlz: usize = leading_zeros(xd);
    proof {
        lemma_digits_val_skip_zeros(xd@, xlz as int);
        if has_e {
            assert(all_digits(xd@.skip(xlz as int))) by {
                assert(forall|i: int|
                    0 <= i < xd@.len() - xlz ==> #[trigger] xd@.skip(xlz as int)[i] == xd@[i
                        + xlz]);
            }
        }
    }
    let xsd: usize = xd.len() - xlz;
    if has_e && xsd > 38 {
        // |exponent| >= 10^38 > 2^64, past any slice length.
        proof {
            let xs = xd@.skip(xlz as int);
            assert(xs[0] == xd@[xlz as int]);
            lemma_digits_val_lower(xs);
            lemma_pow10_mono(38, (xsd - 1) as nat);
            let ev = digits_val(exp_digits(exp_of(digits@)));
            assert(ev >= pow10(38));
            let k = scale_of(digits@);
            if xneg {
                // k is larger than the digit count, so 10^k exceeds the
                // mantissa and cannot divide it.
                assert(k >= ev);
                lemma_pow10_mono(g@.len(), k as nat);
                vstd::arithmetic::div_mod::lemma_small_mod(d as nat, pow10(k as nat) as nat);
                assert(d % pow10(k as nat) == d);
            } else {
                // k is below -3: the value carries at least three more
                // zeros than 127 allows.
                assert(k <= fp@.len() - ev);
                assert((-k) >= 3);
                lemma_pow10_mono(3, (-k) as nat);
                assert(d * pow10((-k) as nat) >= 1 * 1000) by (nonlinear_arith)
                    requires
                        d >= 1,
                        pow10((-k) as nat) >= 1000,
                ;
            }
        }
        return NumClass::Big;
    }
    let ev: u128 = if has_e {
        fold_digits(&xd[xlz..xd.len()])
    } else {
        0
    };
    proof {
        if has_e {
            assert(ev == digits_val(exp_digits(exp_of(digits@))));
        }
        assert(ev <= pow10(38)) by {
            if has_e {
                lemma_digits_val_bounds(xd@.skip(xlz as int));
                lemma_pow10_mono(xsd as nat, 38);
            }
        }
    }
    let e_signed: i128 = if xneg {
        -(ev as i128)
    } else {
        ev as i128
    };
    proof {
        assert(e_signed == exp_val(digits@));
    }
    let k: i128 = fp.len() as i128 - e_signed;
    proof {
        assert(k == scale_of(digits@));
    }

    match small_of_digits(&g, lz, k) {
        Some(v) => NumClass::Small(v),
        None => NumClass::Big,
    }
}

/// Decide whether the nonzero digit string `g` divided by `10^k` is an
/// integer in `[0, 127]`, and which.
#[verifier::rlimit(100)]
#[verifier::spinoff_prover]
fn small_of_digits(g: &[u8], lz: usize, k: i128) -> (r: Option<u8>)
    requires
        all_digits(g@),
        0 <= lz < g@.len(),
        forall|m: int| 0 <= m < lz ==> g@[m] == 48,
        g@[lz as int] != 48,
    ensures
        r == match small_from(digits_val(g@), k as int) {
            Some(v) => Some(v as u8),
            None => None::<u8>,
        },
{
    proof {
        lemma_pow10_38();
    }
    let ghost d: int = digits_val(g@);
    let sd_len: usize = g.len() - lz;
    proof {
        lemma_digits_val_skip_zeros(g@, lz as int);
        assert(g@.skip(lz as int)[0] == g@[lz as int]);
        assert(all_digits(g@.skip(lz as int))) by {
            assert(forall|i: int|
                0 <= i < g@.len() - lz ==> #[trigger] g@.skip(lz as int)[i] == g@[i + lz]);
        }
        lemma_digits_val_lower(g@.skip(lz as int));
        assert(d >= pow10((sd_len - 1) as nat));
        lemma_pow10_pos((sd_len - 1) as nat);
        assert(d >= 1);
        lemma_digits_val_bounds(g@);
    }
    if k <= 0 {
        // The value is d * 10^(-k).
        proof {
            lemma_pow10_pos((-k) as nat);
        }
        if k <= -3 || sd_len > 3 {
            proof {
                if k <= -3 {
                    lemma_pow10_mono(3, (-k) as nat);
                    assert(d * pow10((-k) as nat) >= 1 * 1000) by (nonlinear_arith)
                        requires
                            d >= 1,
                            pow10((-k) as nat) >= 1000,
                    ;
                } else {
                    lemma_pow10_mono(3, (sd_len - 1) as nat);
                    assert(d * pow10((-k) as nat) >= 1000 * 1) by (nonlinear_arith)
                        requires
                            d >= 1000,
                            pow10((-k) as nat) >= 1,
                    ;
                }
            }
            return None;
        }
        let dv: u128 = fold_digits(&g[lz..g.len()]);
        proof {
            assert(dv == d);
            lemma_digits_val_bounds(g@.skip(lz as int));
            lemma_pow10_mono(sd_len as nat, 3);
            assert(dv < 1000);
        }
        let mul: u128 = if k == 0 {
            1
        } else if k == -1 {
            10
        } else {
            100
        };
        proof {
            assert(mul == pow10((-k) as nat)) by {
                reveal_with_fuel(pow10, 3);
            }
        }
        proof {
            assert(dv * mul < 100000) by (nonlinear_arith)
                requires
                    0 <= dv < 1000,
                    0 <= mul <= 100,
            ;
        }
        let v: u128 = dv * mul;
        if v <= 127 {
            return Some(v as u8);
        } else {
            return None;
        }
    }

    // k > 0: the value is an integer at most when the mantissa carries k
    // trailing zeros.
    let tz: usize = trailing_zeros(&g);
    proof {
        assert(tz < g@.len()) by {
            if tz == g@.len() {
                lemma_digits_val_zero(g@);
            }
        }
    }
    if k > tz as i128 {
        // Fewer than k trailing zeros: 10^k does not divide d.
        proof {
            let p = pow10(k as nat);
            lemma_pow10_pos(k as nat);
            if k > g@.len() {
                lemma_pow10_mono(g@.len(), k as nat);
                vstd::arithmetic::div_mod::lemma_small_mod(d as nat, p as nat);
            } else {
                let kk = k as int;
                let q = g@.subrange(0, g@.len() - kk);
                let b = g@.subrange(g@.len() - kk, g@.len() as int);
                assert(g@ =~= q + b);
                assert(all_digits(q) && all_digits(b)) by {
                    assert(forall|i: int| 0 <= i < q.len() ==> #[trigger] q[i] == g@[i]);
                    assert(forall|i: int|
                        0 <= i < b.len() ==> #[trigger] b[i] == g@[i + g@.len() - kk]);
                }
                lemma_digits_val_concat(q, b);
                lemma_digits_val_bounds(b);
                lemma_fundamental_div_mod_converse(d, p, digits_val(q), digits_val(b));
                assert(digits_val(b) != 0) by {
                    lemma_digits_val_zero(b);
                    assert(b[b.len() - 1 - tz] == g@[g@.len() - 1 - tz]);
                    assert(b[b.len() - 1 - tz] != 48);
                }
            }
        }
        return None;
    }
    let kk: usize = k as usize;
    let q: &[u8] = &g[0..g.len() - kk];
    proof {
        let p = pow10(kk as nat);
        lemma_pow10_pos(kk as nat);
        let b = g@.subrange(g@.len() - kk, g@.len() as int);
        assert(g@ =~= q@ + b);
        assert(all_digits(q@) && all_digits(b)) by {
            assert(forall|i: int| 0 <= i < q@.len() ==> #[trigger] q@[i] == g@[i]);
            assert(forall|i: int|
                0 <= i < b.len() ==> #[trigger] b[i] == g@[i + g@.len() - kk]);
        }
        lemma_digits_val_concat(q@, b);
        lemma_digits_val_bounds(b);
        lemma_fundamental_div_mod_converse(d, p, digits_val(q@), digits_val(b));
        assert(digits_val(b) == 0) by {
            lemma_digits_val_zero(b);
        }
        assert(d % p == 0 && d / p == digits_val(q@));
    }
    let qlz: usize = leading_zeros(q);
    proof {
        lemma_digits_val_skip_zeros(q@, qlz as int);
        assert(all_digits(q@.skip(qlz as int))) by {
            assert(forall|i: int|
                0 <= i < q@.len() - qlz ==> #[trigger] q@.skip(qlz as int)[i] == q@[i + qlz]);
        }
    }
    if q.len() - qlz > 3 {
        proof {
            let qs = q@.skip(qlz as int);
            assert(qs[0] == q@[qlz as int]);
            lemma_digits_val_lower(qs);
            lemma_pow10_mono(3, (qs.len() - 1) as nat);
        }
        return None;
    }
    let qv: u128 = fold_digits(&q[qlz..q.len()]);
    proof {
        assert(qv == digits_val(q@));
    }
    if qv <= 127 {
        Some(qv as u8)
    } else {
        None
    }
}

} // verus!
