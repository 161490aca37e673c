//! Decimal digits: their value, the text of a natural number, and unsigned integer fields.
use vstd::prelude::*;

verus! {

/// Whether `b` is an ASCII decimal digit.
pub open spec fn is_digit_byte(b: u8) -> bool {
    0x30 <= b && b <= 0x39
}

/// Whether every byte of `s` is an ASCII decimal digit.
pub open spec fn all_digits(s: Seq<u8>) -> bool {
    forall|i: int| 0 <= i < s.len() ==> #[trigger] is_digit_byte(s[i])
}

/// The value of one ASCII digit.
pub open spec fn digit_value(b: u8) -> nat {
    if b >= 0x30 {
        (b - 0x30) as nat
    } else {
        0
    }
}

/// The number that a run of ASCII digits spells, most significant first.
pub open spec fn digits_value(s: Seq<u8>) -> nat
    decreases s.len(),
{
    if s.len() == 0 {
        0
    } else {
        digits_value(s.drop_last()) * 10 + digit_value(s.last())
    }
}

pub open spec fn pow10(n: nat) -> nat
    decreases n,
{
    if n == 0 {
        1
    } else {
        10 * pow10((n - 1) as nat)
    }
}

/// The ASCII digit for a value below ten.
pub open spec fn digit_char(n: nat) -> u8 {
    (n % 10 + 0x30) as u8
}

/// The decimal text of `n`: no sign, no leading zero, `"0"` for zero.
pub open spec fn nat_text(n: nat) -> Seq<u8>
    decreases n,
{
    if n < 10 {
        seq![digit_char(n)]
    } else {
        nat_text(n / 10).push(digit_char(n % 10))
    }
}

/// The digits of an unsigned integer field: a leading `+` is allowed.
pub open spec fn unsigned_digits(s: Seq<u8>) -> Seq<u8> {
    if s.len() > 0 && s[0] == 0x2b {
        s.skip(1)
    } else {
        s
    }
}

/// The value of an unsigned integer field, when it is one and fits in `usize`.
pub open spec fn unsigned_value(s: Seq<u8>) -> Option<usize> {
    let d = unsigned_digits(s);
    if d.len() > 0 && all_digits(d) && digits_value(d) <= usize::MAX {
        Some(digits_value(d) as usize)
    } else {
        None
    }
}

pub proof fn lemma_pow10_positive(n: nat)
    ensures
        pow10(n) >= 1,
    decreases n,
{
    if n > 0 {
        lemma_pow10_positive((n - 1) as nat);
    }
}

/// Appending digits multiplies what stood before by a power of ten.
pub proof fn lemma_digits_value_concat(a: Seq<u8>, b: Seq<u8>)
    ensures
        digits_value(a + b) == digits_value(a) * pow10(b.len()) + digits_value(b),
    decreases b.len(),
{
    if b.len() == 0 {
        assert(a + b =~= a);
        assert(digits_value(b) == 0);
        assert(pow10(0) == 1);
    } else {
        lemma_digits_value_concat(a, b.drop_last());
        assert((a + b).drop_last() =~= a + b.drop_last());
        assert((a + b).last() == b.last());
        let p = pow10((b.len() - 1) as nat);
        let x = digits_value(a);
        let y = digits_value(b.drop_last());
        let d = digit_value(b.last());
        assert(pow10(b.len()) == 10 * p);
        assert(digits_value(a + b) == digits_value(a + b.drop_last()) * 10 + d);
        assert(digits_value(b) == y * 10 + d);
        assert(digits_value(a + b.drop_last()) == x * p + y);
        assert((x * p + y) * 10 + d == x * (10 * p) + (y * 10 + d)) by (nonlinear_arith);
        assert(digits_value(a + b) == x * pow10(b.len()) + digits_value(b));
    }
}

/// A run of `n` digits is below `10^n`.
pub proof fn lemma_digits_value_bound(s: Seq<u8>)
    requires
        all_digits(s),
    ensures
        digits_value(s) < pow10(s.len()),
    decreases s.len(),
{
    if s.len() > 0 {
        assert(is_digit_byte(s[s.len() - 1]));
        assert(all_digits(s.drop_last())) by {
            assert forall|i: int| 0 <= i < s.drop_last().len() implies #[trigger] is_digit_byte(
                s.drop_last()[i],
            ) by {
                assert(is_digit_byte(s[i]));
            }
        }
        lemma_digits_value_bound(s.drop_last());
    }
}

/// A run of digits that starts with a non-zero digit spells its own decimal text.
pub proof fn lemma_nat_text_of_digits(s: Seq<u8>)
    requires
        s.len() > 0,
        all_digits(s),
        s[0] != 0x30 || s.len() == 1,
    ensures
        nat_text(digits_value(s)) == s,
        s.len() > 1 ==> digits_value(s) >= 10,
    decreases s.len(),
{
    let p = s.drop_last();
    assert(is_digit_byte(s[s.len() - 1]));
    if s.len() == 1 {
        assert(p.len() == 0);
        assert(digits_value(p) == 0);
        assert(s.last() == s[0]);
        assert(digits_value(s) == digit_value(s[0]));
        assert(nat_text(digits_value(s)) =~= s);
    } else {
        assert(all_digits(p)) by {
            assert forall|i: int| 0 <= i < p.len() implies #[trigger] is_digit_byte(p[i]) by {
                assert(is_digit_byte(s[i]));
            }
        }
        lemma_nat_text_of_digits(p);
        if p.len() == 1 {
            assert(is_digit_byte(p[0]));
            assert(digits_value(p.drop_last()) == 0);
            assert(digits_value(p) == digit_value(p[0]));
        }
        let v = digits_value(s);
        assert(v == digits_value(p) * 10 + digit_value(s.last()));
        assert(v / 10 == digits_value(p));
        assert(v % 10 == digit_value(s.last()));
        assert(nat_text(v) =~= s);
    }
}

pub proof fn lemma_pow10_add(a: nat, b: nat)
    ensures
        pow10(a + b) == pow10(a) * pow10(b),
    decreases b,
{
    if b > 0 {
        lemma_pow10_add(a, (b - 1) as nat);
        assert(pow10(a + b) == 10 * pow10((a + b - 1) as nat));
        assert(pow10(a) * (10 * pow10((b - 1) as nat)) == 10 * (pow10(a) * pow10((b - 1) as nat)))
            by (nonlinear_arith);
        assert(pow10(b) == 10 * pow10((b - 1) as nat));
    } else {
        assert(pow10(0) == 1);
        assert(a + b == a);
    }
}

/// A run of digits spells zero exactly when every digit is `0`.
pub proof fn lemma_digits_value_zero(s: Seq<u8>)
    requires
        all_digits(s),
    ensures
        digits_value(s) == 0 <==> (forall|i: int| 0 <= i < s.len() ==> #[trigger] s[i] == 0x30),
    decreases s.len(),
{
    if s.len() > 0 {
        let p = s.drop_last();
        assert(is_digit_byte(s[s.len() - 1]));
        assert(all_digits(p)) by {
            assert forall|i: int| 0 <= i < p.len() implies #[trigger] is_digit_byte(p[i]) by {
                assert(is_digit_byte(s[i]));
            }
        }
        lemma_digits_value_zero(p);
        if digits_value(s) == 0 {
            assert forall|i: int| 0 <= i < s.len() implies #[trigger] s[i] == 0x30 by {
                if i < p.len() {
                    assert(p[i] == s[i]);
                }
            }
        }
        if forall|i: int| 0 <= i < s.len() ==> #[trigger] s[i] == 0x30 {
            assert forall|i: int| 0 <= i < p.len() implies #[trigger] p[i] == 0x30 by {
                assert(s[i] == 0x30);
            }
            assert(s[s.len() - 1] == 0x30);
        }
    }
}

/// A run of `n` nines spells `10^n - 1`.
pub proof fn lemma_digits_value_nines(s: Seq<u8>)
    requires
        forall|i: int| 0 <= i < s.len() ==> #[trigger] s[i] == 0x39,
    ensures
        digits_value(s) + 1 == pow10(s.len()),
    decreases s.len(),
{
    if s.len() > 0 {
        let p = s.drop_last();
        assert forall|i: int| 0 <= i < p.len() implies #[trigger] p[i] == 0x39 by {
            assert(s[i] == 0x39);
        }
        lemma_digits_value_nines(p);
        assert(s[s.len() - 1] == 0x39);
    }
}

/// The decimal text of `n`.
pub fn u128_text(n: u128) -> (r: Vec<u8>)
    ensures
        r@ == nat_text(n as nat),
    decreases n,
{
    if n < 10 {
        let mut v: Vec<u8> = Vec::new();
        v.push((n as u8) + 0x30);
        v
    } else {
        let mut v = u128_text(n / 10);
        v.push(((n % 10) as u8) + 0x30);
        v
    }
}

/// Reads an unsigned integer field: digits with an optional leading `+`, whose
/// value fits in `usize`.
pub fn parse_usize(s: &[u8]) -> (r: Option<usize>)
    ensures
        r == unsigned_value(s@),
{
    let start: usize = if s.len() > 0 && s[0] == 0x2b {
        1
    } else {
        0
    };
    let ghost d = unsigned_digits(s@);
    assert(d =~= s@.skip(start as int));
    if start >= s.len() {
        return None;
    }
    let mut acc: usize = 0;
    let mut i: usize = start;
    while i < s.len()
        invariant
            start <= i <= s.len(),
            d == unsigned_digits(s@),
            d =~= s@.skip(start as int),
            all_digits(s@.subrange(start as int, i as int)),
            acc as nat == digits_value(s@.subrange(start as int, i as int)),
        decreases s.len() - i,
    {
        let b = s[i];
        let ghost before = s@.subrange(start as int, i as int);
        let ghost after = s@.subrange(start as int, i + 1);
        assert(after.drop_last() =~= before);
        if !(0x30 <= b && b <= 0x39) {
            assert(d[i - start] == b);
            assert(!is_digit_byte(d[i - start]));
            assert(!all_digits(d));
            return None;
        }
        let v = (b - 0x30) as usize;
        if acc > (usize::MAX - v) / 10 {
            proof {
                assert(digit_value(after.last()) == v);
                assert(digits_value(after) == acc * 10 + v);
                assert(acc * 10 + v > usize::MAX) by (nonlinear_arith)
                    requires acc > (usize::MAX - v) / 10, v <= 9;
                assert(digits_value(after) > usize::MAX);
                let rest = s@.subrange(i + 1, s.len() as int);
                assert(d =~= after + rest);
                lemma_digits_value_concat(after, rest);
                lemma_pow10_positive(rest.len());
                assert(digits_value(after) * pow10(rest.len()) >= digits_value(after))
                    by (nonlinear_arith)
                    requires pow10(rest.len()) >= 1;
            }
            return None;
        }
        acc = acc * 10 + v;
        i = i + 1;
        assert(all_digits(after)) by {
            assert forall|k: int| 0 <= k < after.len() implies #[trigger] is_digit_byte(after[k]) by {
                if k < before.len() {
                    assert(is_digit_byte(before[k]));
                }
            }
        }
    }
    assert(d =~= s@.subrange(start as int, s.len() as int));
    Some(acc)
}

} // verus!
