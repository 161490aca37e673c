//! Decimal numbers as the aligner writes them (`95.50`, `1e-50`, `.5`, `-3E+2`),
//! held exactly, and their rendering with one digit after the point.
use vstd::prelude::*;
use crate::digits::{
    all_digits, digit_char, digit_value, digits_value, is_digit_byte, lemma_digits_value_bound,
    lemma_digits_value_concat, lemma_digits_value_nines, lemma_digits_value_zero,
    lemma_nat_text_of_digits, lemma_pow10_add, lemma_pow10_positive, nat_text, parse_usize, pow10,
    unsigned_digits,
};
use crate::fields::{append_range, split_bytes, split_on, views};

verus! {

/// The largest exponent, in magnitude, that a number may be written with.
pub const MAX_EXPONENT: usize = 100000;

/// A decimal number: `(-1)^negative * digits * 10^exponent`, where `digits` are
/// the ASCII digits of the integer and fractional parts run together.
pub struct Decimal {
    pub negative: bool,
    pub digits: Vec<u8>,
    pub exponent: i128,
}

impl View for Decimal {
    type V = (bool, Seq<u8>, int);

    open spec fn view(&self) -> (bool, Seq<u8>, int) {
        (self.negative, self.digits@, self.exponent as int)
    }
}

impl Decimal {
    pub open spec fn well_formed(&self) -> bool {
        all_digits(self.digits@) && self.exponent <= MAX_EXPONENT
    }

    pub fn copy(&self) -> (r: Decimal)
        ensures
            r@ == self@,
            r.well_formed() == self.well_formed(),
    {
        Decimal {
            negative: self.negative,
            digits: crate::fields::copy_bytes(self.digits.as_slice()),
            exponent: self.exponent,
        }
    }
}

/// A leading sign, if any, and what follows it.
pub open spec fn signed(s: Seq<u8>) -> (bool, Seq<u8>) {
    if s.len() > 0 && s[0] == 0x2d {
        (true, s.skip(1))
    } else if s.len() > 0 && s[0] == 0x2b {
        (false, s.skip(1))
    } else {
        (false, s)
    }
}

/// What a number field reads as: an optional sign; digits with at most one
/// point, at least one digit in all; then optionally `e` or `E`, an optional
/// sign and at least one digit, of value at most `MAX_EXPONENT`.
pub open spec fn decimal_of(s: Seq<u8>) -> Option<(bool, Seq<u8>, int)> {
    let body = signed(s).1;
    let parts = split_on(body, 0x65, 0x45);
    let mantissa = split_on(parts[0], 0x2e, 0x2e);
    let whole = mantissa[0];
    let frac = if mantissa.len() >= 2 {
        mantissa[1]
    } else {
        Seq::<u8>::empty()
    };
    let ex = if parts.len() >= 2 {
        signed(parts[1])
    } else {
        (false, seq![0x30u8])
    };
    if parts.len() <= 2 && mantissa.len() <= 2 && all_digits(whole) && all_digits(frac) && whole.len()
        + frac.len() > 0 && ex.1.len() > 0 && all_digits(ex.1) && digits_value(ex.1)
        <= MAX_EXPONENT {
        let e: int = if ex.0 {
            -(digits_value(ex.1) as int)
        } else {
            digits_value(ex.1) as int
        };
        Some((signed(s).0, whole + frac, e - frac.len()))
    } else {
        None
    }
}

/// `n / d` rounded to the nearest integer, ties to the even one.
pub open spec fn half_even_div(n: nat, d: nat) -> nat {
    let q = n / d;
    let r = n % d;
    if 2 * r > d || (2 * r == d && q % 2 == 1) {
        q + 1
    } else {
        q
    }
}

/// The magnitude of `digits * 10^exponent` in tenths, rounded half to even.
pub open spec fn scaled_tenths(digits: Seq<u8>, exponent: int) -> nat {
    let n = digits_value(digits);
    if exponent + 1 >= 0 {
        n * pow10((exponent + 1) as nat)
    } else {
        half_even_div(n, pow10((-(exponent + 1)) as nat))
    }
}

/// The text of a number of tenths: sign, integer part, point, one digit.
pub open spec fn tenths_text(negative: bool, t: nat) -> Seq<u8> {
    (if negative {
        seq![0x2du8]
    } else {
        Seq::<u8>::empty()
    }) + nat_text(t / 10) + seq![0x2eu8, digit_char(t % 10)]
}

/// The one-decimal text of a number.
pub open spec fn one_decimal_text(d: (bool, Seq<u8>, int)) -> Seq<u8> {
    tenths_text(d.0, scaled_tenths(d.1, d.2))
}

/// Whether every byte of `s` is a digit.
pub fn all_digit_bytes(s: &[u8]) -> (r: bool)
    ensures
        r == all_digits(s@),
{
    let mut i: usize = 0;
    while i < s.len()
        invariant
            i <= s.len(),
            forall|k: int| 0 <= k < i ==> is_digit_byte(#[trigger] s@[k]),
        decreases s.len() - i,
    {
        if !(0x30 <= s[i] && s[i] <= 0x39) {
            assert(!is_digit_byte(s@[i as int]));
            return false;
        }
        i = i + 1;
    }
    true
}

/// Where the text after a leading sign starts, and whether the sign was `-`.
fn sign_prefix(s: &[u8]) -> (r: (bool, usize))
    ensures
        r.1 <= s.len(),
        signed(s@) == (r.0, s@.skip(r.1 as int)),
{
    if s.len() > 0 && s[0] == 0x2d {
        (true, 1)
    } else if s.len() > 0 && s[0] == 0x2b {
        (false, 1)
    } else {
        assert(s@.skip(0) =~= s@);
        (false, 0)
    }
}

/// Reads a number field; `None` when it is not one.
pub fn parse_decimal(s: &[u8]) -> (r: Option<Decimal>)
    ensures
        match r {
            Some(d) => decimal_of(s@) == Some(d@) && d.well_formed(),
            None => decimal_of(s@) is None,
        },
{
    let (negative, start) = sign_prefix(s);
    let mut body: Vec<u8> = Vec::new();
    append_range(&mut body, s, start, s.len());
    assert(body@ =~= signed(s@).1);
    let parts = split_bytes(body.as_slice(), 0x65, 0x45);
    proof {
        crate::fields::lemma_split_on_nonempty(body@, 0x65, 0x45);
    }
    if parts.len() > 2 {
        return None;
    }
    assert(parts[0]@ == views(parts@)[0]);
    let mantissa = split_bytes(parts[0].as_slice(), 0x2e, 0x2e);
    proof {
        crate::fields::lemma_split_on_nonempty(parts[0]@, 0x2e, 0x2e);
    }
    if mantissa.len() > 2 {
        return None;
    }
    assert(mantissa[0]@ == views(mantissa@)[0]);
    let whole = &mantissa[0];
    let mut digits: Vec<u8> = Vec::new();
    append_range(&mut digits, whole.as_slice(), 0, whole.len());
    let mut frac_len: usize = 0;
    let ghost frac = Seq::<u8>::empty();
    if mantissa.len() == 2 {
        assert(mantissa[1]@ == views(mantissa@)[1]);
        let f = &mantissa[1];
        proof {
            frac = f@;
        }
        append_range(&mut digits, f.as_slice(), 0, f.len());
        frac_len = f.len();
    }
    assert(whole@.subrange(0, whole.len() as int) =~= whole@);
    assert(frac.subrange(0, frac.len() as int) =~= frac);
    assert(digits@ =~= whole@ + frac);
    if digits.len() == 0 || !all_digit_bytes(digits.as_slice()) {
        proof {
            if all_digits(whole@) && all_digits(frac) {
                assert forall|i: int| 0 <= i < digits@.len() implies #[trigger] is_digit_byte(
                    digits@[i],
                ) by {
                    if i < whole@.len() {
                        assert(is_digit_byte(whole@[i]));
                    } else {
                        assert(is_digit_byte(frac[i - whole@.len()]));
                    }
                }
            }
        }
        return None;
    }
    assert(all_digits(whole@)) by {
        assert forall|i: int| 0 <= i < whole@.len() implies #[trigger] is_digit_byte(whole@[i]) by {
            assert(digits@[i] == whole@[i]);
        }
    }
    assert(all_digits(frac)) by {
        assert forall|i: int| 0 <= i < frac.len() implies #[trigger] is_digit_byte(frac[i]) by {
            assert(digits@[whole@.len() + i] == frac[i]);
        }
    }
    let mut exp_value: i128 = 0;
    if parts.len() == 2 {
        assert(parts[1]@ == views(parts@)[1]);
        let (exp_negative, exp_start) = sign_prefix(parts[1].as_slice());
        let mut ed: Vec<u8> = Vec::new();
        append_range(&mut ed, parts[1].as_slice(), exp_start, parts[1].len());
        assert(ed@ =~= signed(parts[1]@).1);
        if ed.len() == 0 || !all_digit_bytes(ed.as_slice()) {
            return None;
        }
        assert(unsigned_digits(ed@) == ed@) by {
            assert(is_digit_byte(ed@[0]));
        }
        match parse_usize(ed.as_slice()) {
            None => {
                return None;
            },
            Some(v) => {
                if v > MAX_EXPONENT {
                    return None;
                }
                exp_value = if exp_negative {
                    -(v as i128)
                } else {
                    v as i128
                };
            },
        }
    } else {
        assert(digits_value(seq![0x30u8]) == 0) by {
            let z = seq![0x30u8];
            assert(z.drop_last() =~= Seq::<u8>::empty());
            assert(digits_value(Seq::<u8>::empty()) == 0);
            assert(z.last() == 0x30);
        }
        assert(all_digits(seq![0x30u8])) by {
            assert(is_digit_byte(seq![0x30u8][0]));
        }
    }
    let exponent = exp_value - (frac_len as i128);
    let d = Decimal { negative, digits, exponent };
    assert(decimal_of(s@) == Some(d@));
    Some(d)
}

/// Every part of a run of digits is a run of digits.
proof fn lemma_all_digits_subrange(s: Seq<u8>, lo: int, hi: int)
    requires
        all_digits(s),
        0 <= lo <= hi <= s.len(),
    ensures
        all_digits(s.subrange(lo, hi)),
{
    assert forall|i: int| 0 <= i < hi - lo implies #[trigger] is_digit_byte(s.subrange(lo, hi)[i]) by {
        assert(is_digit_byte(s[lo + i]));
    }
}

/// Zeros appended to a run of digits multiply its value by a power of ten.
proof fn lemma_append_zeros(a: Seq<u8>, z: Seq<u8>)
    requires
        forall|i: int| 0 <= i < z.len() ==> #[trigger] z[i] == 0x30,
    ensures
        digits_value(a + z) == digits_value(a) * pow10(z.len()),
{
    assert(all_digits(z)) by {
        assert forall|i: int| 0 <= i < z.len() implies #[trigger] is_digit_byte(z[i]) by {
            assert(z[i] == 0x30);
        }
    }
    lemma_digits_value_zero(z);
    lemma_digits_value_concat(a, z);
}

/// Appends `n` zero digits.
fn push_zeros(out: &mut Vec<u8>, n: usize)
    ensures
        final(out)@.len() == old(out)@.len() + n,
        final(out)@.take(old(out)@.len() as int) == old(out)@,
        forall|i: int|
            old(out)@.len() <= i < final(out)@.len() ==> #[trigger] final(out)@[i] == 0x30,
{
    let mut k: usize = 0;
    while k < n
        invariant
            k <= n,
            out@.len() == old(out)@.len() + k,
            out@.take(old(out)@.len() as int) == old(out)@,
            forall|i: int| old(out)@.len() <= i < out@.len() ==> #[trigger] out@[i] == 0x30,
        decreases n - k,
    {
        out.push(0x30);
        k = k + 1;
        assert(out@.take(old(out)@.len() as int) =~= old(out)@);
    }
}

/// The text of `t` tenths, given as a run of digits.
fn text_of_tenths(negative: bool, t: &[u8]) -> (r: Vec<u8>)
    requires
        all_digits(t@),
    ensures
        r@ == tenths_text(negative, digits_value(t@)),
{
    let len = t.len();
    let mut z: usize = 0;
    while z < len && t[z] == 0x30
        invariant
            z <= len == t@.len(),
            forall|k: int| 0 <= k < z ==> #[trigger] t@[k] == 0x30,
        decreases len - z,
    {
        z = z + 1;
    }
    let ghost sig = t@.skip(z as int);
    proof {
        let zeros = t@.take(z as int);
        assert(t@ =~= zeros + sig);
        lemma_all_digits_subrange(t@, 0, z as int);
        assert(zeros =~= t@.subrange(0, z as int));
        assert forall|k: int| 0 <= k < zeros.len() implies #[trigger] zeros[k] == 0x30 by {
            assert(t@[k] == 0x30);
        }
        lemma_digits_value_zero(zeros);
        lemma_digits_value_concat(zeros, sig);
        lemma_all_digits_subrange(t@, z as int, len as int);
        assert(sig =~= t@.subrange(z as int, len as int));
    }
    let ghost v = digits_value(sig);
    assert(digits_value(t@) == v);
    let mut out: Vec<u8> = Vec::new();
    if negative {
        out.push(0x2d);
    }
    let ghost sign = out@;
    if len - z <= 1 {
        out.push(0x30);
        out.push(0x2e);
        if len - z == 1 {
            out.push(t[len - 1]);
            proof {
                assert(is_digit_byte(sig[0]));
                assert(sig.drop_last() =~= Seq::<u8>::empty());
                assert(digits_value(Seq::<u8>::empty()) == 0);
                assert(sig.last() == t@[len - 1]);
                assert(v == digit_value(t@[len - 1]));
            }
        } else {
            out.push(0x30);
            assert(sig.len() == 0);
        }
        assert(v / 10 == 0);
        assert(nat_text(0) =~= seq![0x30u8]);
        assert(out@ =~= tenths_text(negative, v));
    } else {
        append_range(&mut out, t, z, len - 1);
        out.push(0x2e);
        out.push(t[len - 1]);
        proof {
            let head = sig.drop_last();
            assert(head =~= t@.subrange(z as int, len - 1));
            lemma_all_digits_subrange(t@, z as int, len - 1);
            assert(head[0] == t@[z as int]);
            lemma_nat_text_of_digits(head);
            assert(is_digit_byte(t@[len - 1]));
            assert(sig.last() == t@[len - 1]);
            assert(v == digits_value(head) * 10 + digit_value(t@[len - 1]));
            assert(v / 10 == digits_value(head));
            assert(v % 10 == digit_value(t@[len - 1]));
            assert(out@ =~= tenths_text(negative, v));
        }
    }
    out
}

/// A run of digits one greater than `p`.
fn increment_digits(p: &[u8]) -> (r: Vec<u8>)
    requires
        all_digits(p@),
    ensures
        all_digits(r@),
        digits_value(r@) == digits_value(p@) + 1,
{
    let len = p.len();
    let mut j: usize = len;
    while j > 0 && p[j - 1] == 0x39
        invariant
            j <= len == p@.len(),
            forall|k: int| j <= k < len ==> #[trigger] p@[k] == 0x39,
        decreases j,
    {
        j = j - 1;
    }
    let mut out: Vec<u8> = Vec::new();
    if j == 0 {
        out.push(0x31);
    } else {
        append_range(&mut out, p, 0, j - 1);
        assert(is_digit_byte(p@[j - 1]));
        out.push(p[j - 1] + 1);
    }
    let ghost head = out@;
    proof {
        let nines = p@.subrange(j as int, len as int);
        let front = p@.subrange(0, j as int);
        assert(p@ =~= front + nines);
        assert forall|k: int| 0 <= k < nines.len() implies #[trigger] nines[k] == 0x39 by {
            assert(p@[j + k] == 0x39);
        }
        lemma_digits_value_nines(nines);
        lemma_digits_value_concat(front, nines);
        if j == 0 {
            assert(front.len() == 0);
            assert(digits_value(front) == 0);
            assert(head.drop_last() =~= Seq::<u8>::empty());
            assert(digits_value(Seq::<u8>::empty()) == 0);
            assert(head.last() == 0x31);
            assert(digits_value(head) == 1);
        } else {
            let f = front.drop_last();
            assert(f =~= p@.subrange(0, j - 1));
            assert(head.drop_last() =~= f);
            assert(front.last() == p@[j - 1]);
            assert(digits_value(head) == digits_value(front) + 1);
        }
        assert(digits_value(p@) + 1 == (digits_value(front) + 1) * pow10(nines.len()))
            by (nonlinear_arith)
            requires
                digits_value(p@) == digits_value(front) * pow10(nines.len()) + digits_value(nines),
                digits_value(nines) + 1 == pow10(nines.len()),
        ;
        assert(all_digits(head)) by {
            assert forall|k: int| 0 <= k < head.len() implies #[trigger] is_digit_byte(head[k]) by {
                if k < head.len() - 1 {
                    assert(is_digit_byte(p@[k]));
                }
            }
        }
    }
    push_zeros(&mut out, len - j);
    proof {
        let zs = out@.skip(head.len() as int);
        assert(out@ =~= head + zs);
        assert forall|k: int| 0 <= k < zs.len() implies #[trigger] zs[k] == 0x30 by {
            assert(out@[head.len() + k] == 0x30);
        }
        lemma_append_zeros(head, zs);
        assert forall|k: int| 0 <= k < out@.len() implies #[trigger] is_digit_byte(out@[k]) by {
            if k < head.len() {
                assert(is_digit_byte(head[k]));
            } else {
                assert(zs[k - head.len()] == 0x30);
            }
        }
    }
    out
}

/// Whether `s[lo..hi]` holds zeros only.
fn all_zero_bytes(s: &[u8], lo: usize, hi: usize) -> (r: bool)
    requires
        lo <= hi <= s.len(),
    ensures
        r == (forall|k: int| lo <= k < hi ==> #[trigger] s@[k] == 0x30),
{
    let mut i: usize = lo;
    while i < hi
        invariant
            lo <= i <= hi <= s.len(),
            forall|k: int| lo <= k < i ==> #[trigger] s@[k] == 0x30,
        decreases hi - i,
    {
        if s[i] != 0x30 {
            return false;
        }
        i = i + 1;
    }
    true
}

/// Cutting the last `len - cut` digits of a run and rounding half to even on
/// what was cut gives `digits / 10^(len - cut)` rounded half to even.
proof fn lemma_round_at(digits: Seq<u8>, cut: int)
    requires
        all_digits(digits),
        0 <= cut < digits.len(),
    ensures
        ({
            let d0 = digits[cut];
            let rest_zero = forall|w: int| cut + 1 <= w < digits.len() ==> #[trigger] digits[w] == 0x30;
            let q_odd = cut > 0 && digits[cut - 1] % 2 == 1;
            let q = digits_value(digits.take(cut));
            half_even_div(digits_value(digits), pow10((digits.len() - cut) as nat)) == if d0 > 0x35
                || (d0 == 0x35 && (!rest_zero || q_odd)) {
                q + 1
            } else {
                q
            }
        }),
{
    let n_len = digits.len() as int;
    let k = n_len - cut;
    let n = digits_value(digits);
    let kept = digits.take(cut);
    let d0 = digits[cut];
    let dropped = digits.subrange(cut, n_len);
    let rest = digits.subrange(cut + 1, n_len);
    let big = pow10(k as nat);
    let small = pow10((k - 1) as nat);
    assert(digits =~= kept + dropped);
    lemma_all_digits_subrange(digits, 0, cut);
    assert(kept =~= digits.subrange(0, cut));
    lemma_all_digits_subrange(digits, cut, n_len);
    lemma_all_digits_subrange(digits, cut + 1, n_len);
    lemma_digits_value_concat(kept, dropped);
    lemma_digits_value_bound(dropped);
    vstd::arithmetic::div_mod::lemma_fundamental_div_mod_converse(
        n as int,
        big as int,
        digits_value(kept) as int,
        digits_value(dropped) as int,
    );
    assert(dropped =~= seq![d0] + rest);
    lemma_digits_value_concat(seq![d0], rest);
    assert(seq![d0].drop_last() =~= Seq::<u8>::empty());
    assert(digits_value(Seq::<u8>::empty()) == 0);
    assert(digits_value(seq![d0]) == digit_value(d0));
    lemma_digits_value_bound(rest);
    lemma_digits_value_zero(rest);
    let rest_zero = forall|w: int| cut + 1 <= w < n_len ==> #[trigger] digits[w] == 0x30;
    assert(rest_zero == (digits_value(rest) == 0)) by {
        if rest_zero {
            assert forall|i: int| 0 <= i < rest.len() implies #[trigger] rest[i] == 0x30 by {
                assert(digits[cut + 1 + i] == 0x30);
            }
        } else {
            let w = choose|w: int| cut + 1 <= w < n_len && digits[w] != 0x30;
            assert(rest[w - cut - 1] != 0x30);
        }
    }
    assert(big == 10 * small);
    lemma_pow10_positive((k - 1) as nat);
    assert(is_digit_byte(d0));
    let dd = digit_value(d0);
    let r = digits_value(dropped);
    let rr = digits_value(rest);
    if d0 > 0x35 {
        assert(2 * r > big) by (nonlinear_arith)
            requires
                r == dd * small + rr,
                dd >= 6,
                big == 10 * small,
                small >= 1,
        ;
    } else if d0 == 0x35 {
        assert(2 * r == big + 2 * rr) by (nonlinear_arith)
            requires
                r == dd * small + rr,
                dd == 5,
                big == 10 * small,
        ;
    } else {
        assert(2 * r < big) by (nonlinear_arith)
            requires
                r == dd * small + rr,
                dd <= 4,
                big == 10 * small,
                rr < small,
        ;
    }
    let q = digits_value(kept);
    if cut == 0 {
        assert(kept.len() == 0);
        assert(q == 0);
    } else {
        let b = digits[cut - 1];
        assert(is_digit_byte(b));
        assert(kept.last() == b);
        let qq = digits_value(kept.drop_last());
        let ld = digit_value(b);
        assert(q == qq * 10 + ld);
        assert((qq * 10 + ld) % 2 == ld % 2) by (nonlinear_arith);
        assert(ld % 2 == b % 2);
    }
}

impl Decimal {
    /// The number with one digit after the point, rounded half to even.
    pub fn one_decimal(&self) -> (r: Vec<u8>)
        requires
            self.well_formed(),
        ensures
            r@ == one_decimal_text(self@),
    {
        let digits = self.digits.as_slice();
        let n_len = digits.len();
        let shift: i128 = self.exponent + 1;
        if shift >= 0 {
            let mut t: Vec<u8> = Vec::new();
            append_range(&mut t, digits, 0, n_len);
            push_zeros(&mut t, shift as usize);
            proof {
                let zs = t@.skip(n_len as int);
                assert(digits@.subrange(0, n_len as int) =~= digits@);
                assert(t@ =~= digits@ + zs);
                assert forall|k: int| 0 <= k < zs.len() implies #[trigger] zs[k] == 0x30 by {
                    assert(t@[n_len + k] == 0x30);
                }
                lemma_append_zeros(digits@, zs);
                assert forall|k: int| 0 <= k < t@.len() implies #[trigger] is_digit_byte(t@[k]) by {
                    if k < n_len {
                        assert(is_digit_byte(digits@[k]));
                    } else {
                        assert(zs[k - n_len] == 0x30);
                    }
                }
            }
            return text_of_tenths(self.negative, t.as_slice());
        }
        let ghost n = digits_value(digits@);
        let ghost kk: nat = (-shift) as nat;
        proof {
            lemma_digits_value_bound(digits@);
        }
        if -shift > n_len as i128 {
            let empty: Vec<u8> = Vec::new();
            proof {
                lemma_pow10_add(n_len as nat, (kk - n_len) as nat);
                lemma_pow10_positive((kk - n_len) as nat);
                let a = pow10(n_len as nat);
                let b = pow10((kk - n_len) as nat);
                assert(b == 10 * pow10((kk - n_len - 1) as nat));
                lemma_pow10_positive((kk - n_len - 1) as nat);
                assert(2 * n < a * b) by (nonlinear_arith)
                    requires n < a, b >= 10;
                vstd::arithmetic::div_mod::lemma_fundamental_div_mod_converse(
                    n as int,
                    (a * b) as int,
                    0,
                    n as int,
                );
                assert(digits_value(empty@) == 0);
                assert(all_digits(empty@));
            }
            return text_of_tenths(self.negative, empty.as_slice());
        }
        let k = (-shift) as usize;
        let cut = n_len - k;
        let d0 = digits[cut];
        let rest_zero = all_zero_bytes(digits, cut + 1, n_len);
        let q_odd = cut > 0 && digits[cut - 1] % 2 == 1;
        let up = d0 > 0x35 || (d0 == 0x35 && (!rest_zero || q_odd));
        let mut kept: Vec<u8> = Vec::new();
        append_range(&mut kept, digits, 0, cut);
        proof {
            lemma_round_at(digits@, cut as int);
            assert(kept@ =~= digits@.take(cut as int));
            assert(rest_zero == (forall|w: int| cut + 1 <= w < n_len ==> #[trigger] digits@[w] == 0x30));
        }
        if up {
            let t = increment_digits(kept.as_slice());
            text_of_tenths(self.negative, t.as_slice())
        } else {
            text_of_tenths(self.negative, kept.as_slice())
        }
    }
}

} // verus!
