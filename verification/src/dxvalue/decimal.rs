//! Exact decimal numbers: the payload of the floating-point variants.
//!
//! A `Decimal` is a sign, a run of decimal digits and a power of ten. Every
//! finite binary floating-point number has such a form, and so has every
//! number literal of a JSON text, so nothing is rounded on the way in.

use vstd::prelude::*;
use vstd::arithmetic::div_mod::lemma_fundamental_div_mod_converse;
use crate::dxvalue::text::{
    all_digits, digits_to_u128, digits_value, int_text, is_digit, lemma_digits_value_push,
    lemma_nat_digits, nat_digits, pow10, push_int_text, push_nat_text,
};

verus! {

/// The largest magnitude of a `Decimal`'s power of ten. The smallest positive
/// double is a multiple of ten to the power -1074, so every finite double fits.
pub const EXPONENT_LIMIT: i32 = 1100;

/// What a `Decimal` stands for: `coefficient * 10^exponent`, negated when `negative`.
pub struct DecimalModel {
    pub negative: bool,
    pub coefficient: nat,
    pub exponent: int,
}

/// A decimal number. The digits are kept as ASCII, most significant first.
#[derive(Debug)]
pub struct Decimal {
    negative: bool,
    digits: Vec<u8>,
    exponent: i32,
}

/// `c / 10^k` rounded to the nearest integer, a tie going to the even neighbour.
/// `h` is the first digit that is cut off and `t` what follows it.
pub open spec fn round_half_even(c: nat, k: nat) -> nat
    recommends
        k >= 1,
{
    let q = c / pow10(k);
    let h = (c / pow10((k - 1) as nat)) % 10;
    let t = c % pow10((k - 1) as nat);
    if h > 5 || (h == 5 && (t > 0 || q % 2 == 1)) {
        q + 1
    } else {
        q
    }
}

/// The magnitude in hundredths, rounded half to even.
pub open spec fn hundredths(m: DecimalModel) -> nat {
    if m.exponent + 2 >= 0 {
        m.coefficient * pow10((m.exponent + 2) as nat)
    } else {
        round_half_even(m.coefficient, (-(m.exponent + 2)) as nat)
    }
}

/// The two digits of a number below one hundred.
pub open spec fn two_digits(n: nat) -> Seq<u8> {
    seq![(0x30 + n / 10) as u8, (0x30 + n % 10) as u8]
}

/// The text with exactly two decimals: sign, integer digits, a point, two digits.
pub open spec fn fixed2_text(m: DecimalModel) -> Seq<u8> {
    let q = hundredths(m);
    (if m.negative {
        seq![0x2Du8]
    } else {
        Seq::<u8>::empty()
    }) + nat_digits(q / 100) + seq![0x2Eu8] + two_digits(q % 100)
}

/// The magnitude with its fraction cut off.
pub open spec fn whole_part(m: DecimalModel) -> nat {
    if m.exponent >= 0 {
        m.coefficient * pow10(m.exponent as nat)
    } else {
        m.coefficient / pow10((-m.exponent) as nat)
    }
}

/// The number with its fraction cut off (towards zero).
pub open spec fn truncated(m: DecimalModel) -> int {
    if m.negative {
        -(whole_part(m) as int)
    } else {
        whole_part(m) as int
    }
}

/// `v` brought into the range of `isize`.
pub open spec fn clamp_isize(v: int) -> int {
    if v < isize::MIN {
        isize::MIN as int
    } else if v > isize::MAX {
        isize::MAX as int
    } else {
        v
    }
}

/// The number is greater than zero.
pub open spec fn is_positive(m: DecimalModel) -> bool {
    !m.negative && m.coefficient > 0
}

/// The text `digits e exponent` with a sign, as `str::parse` reads floats.
pub open spec fn scientific_text(m: DecimalModel) -> Seq<u8> {
    (if m.negative {
        seq![0x2Du8]
    } else {
        Seq::<u8>::empty()
    }) + nat_digits(m.coefficient) + seq![0x65u8] + int_text(m.exponent)
}

/// `b` to the power `n`.
pub open spec fn power(b: nat, n: nat) -> nat
    decreases n,
{
    if n == 0 {
        1
    } else {
        b * power(b, (n - 1) as nat)
    }
}

/// The integer `v` as a decimal number.
pub open spec fn integer_model(v: int) -> DecimalModel {
    DecimalModel {
        negative: v < 0,
        coefficient: (if v < 0 {
            -v
        } else {
            v
        }) as nat,
        exponent: 0,
    }
}

/// The decimal number that equals `m * 2^p`: for a negative `p` it is
/// `m * 5^-p * 10^p`.
pub open spec fn binary_model(negative: bool, m: nat, p: int) -> DecimalModel {
    if p >= 0 {
        DecimalModel { negative, coefficient: m * power(2, p as nat), exponent: 0 }
    } else {
        DecimalModel { negative, coefficient: m * power(5, (-p) as nat), exponent: p }
    }
}

/// The value of the double with the given IEEE-754 bit pattern, or nothing
/// for an infinity or a NaN. The top bit is the sign, the next eleven the
/// biased exponent, the low fifty-two the fraction.
pub open spec fn double_model(bits: u64) -> Option<DecimalModel> {
    let negative = bits >= 0x8000_0000_0000_0000;
    let e = (bits / 0x10_0000_0000_0000) % 2048;
    let f = bits % 0x10_0000_0000_0000;
    if e == 2047 {
        None
    } else if e == 0 {
        Some(binary_model(negative, f as nat, -1074))
    } else {
        Some(binary_model(negative, (f + 0x10_0000_0000_0000) as nat, e - 1075))
    }
}

/// The value of the single-width float with the given IEEE-754 bit pattern,
/// or nothing for an infinity or a NaN. The top bit is the sign, the next
/// eight the biased exponent, the low twenty-three the fraction.
pub open spec fn single_model(bits: u32) -> Option<DecimalModel> {
    let negative = bits >= 0x8000_0000;
    let e = (bits / 0x80_0000) % 256;
    let f = bits % 0x80_0000;
    if e == 255 {
        None
    } else if e == 0 {
        Some(binary_model(negative, f as nat, -149))
    } else {
        Some(binary_model(negative, (f + 0x80_0000) as nat, e - 150))
    }
}

/// A power of ten is at least one.
pub proof fn lemma_pow10_positive(n: nat)
    ensures
        pow10(n) >= 1,
    decreases n,
{
    if n > 0 {
        lemma_pow10_positive((n - 1) as nat);
    }
}

/// A greater exponent gives no smaller power of ten.
pub proof fn lemma_pow10_monotonic(a: nat, b: nat)
    requires
        a <= b,
    ensures
        pow10(a) <= pow10(b),
    decreases b,
{
    if a < b {
        lemma_pow10_monotonic(a, (b - 1) as nat);
        lemma_pow10_positive((b - 1) as nat);
    }
}

/// A digit run is its head times a power of ten plus its tail, and the tail is
/// below that power.
pub proof fn lemma_digits_split(s: Seq<u8>, m: int)
    requires
        all_digits(s),
        0 <= m <= s.len(),
    ensures
        digits_value(s) == digits_value(s.take(m)) * pow10((s.len() - m) as nat) + digits_value(
            s.skip(m),
        ),
        digits_value(s.skip(m)) < pow10((s.len() - m) as nat),
    decreases s.len(),
{
    if m == s.len() {
        assert(s.take(m) =~= s);
        assert(s.skip(m) =~= Seq::<u8>::empty());
        assert(digits_value(s.skip(m)) == 0);
        assert(pow10(0) == 1);
        assert(digits_value(s) * 1 == digits_value(s)) by (nonlinear_arith);
    } else {
        let p = s.drop_last();
        let d = (s.last() - 0x30) as nat;
        assert(is_digit(s[s.len() - 1]));
        assert forall|i: int| 0 <= i < p.len() implies is_digit(#[trigger] p[i]) by {
            assert(p[i] == s[i]);
        }
        lemma_digits_split(p, m);
        assert(s.take(m) =~= p.take(m));
        assert(s.skip(m).drop_last() =~= p.skip(m));
        assert(s.skip(m).last() == s.last());
        let a = digits_value(p.take(m));
        let b = digits_value(p.skip(m));
        let pw = pow10((p.len() - m) as nat);
        assert(pow10((s.len() - m) as nat) == 10 * pw);
        assert(digits_value(s) == (a * pw + b) * 10 + d);
        assert(digits_value(s.skip(m)) == b * 10 + d);
        assert((a * pw + b) * 10 + d == a * (10 * pw) + (b * 10 + d)) by (nonlinear_arith);
    }
}

/// Cutting `k` digits off the end of a digit run divides by ten to the `k`.
pub proof fn lemma_digits_div(s: Seq<u8>, k: int)
    requires
        all_digits(s),
        0 <= k <= s.len(),
    ensures
        digits_value(s.take(s.len() - k)) == digits_value(s) / pow10(k as nat),
        digits_value(s.skip(s.len() - k)) == digits_value(s) % pow10(k as nat),
{
    let m = s.len() - k;
    lemma_digits_split(s, m);
    lemma_pow10_positive(k as nat);
    lemma_fundamental_div_mod_converse(
        digits_value(s) as int,
        pow10(k as nat) as int,
        digits_value(s.take(m)) as int,
        digits_value(s.skip(m)) as int,
    );
}

/// A run of zeros denotes zero, and a run that denotes zero holds only zeros.
pub proof fn lemma_digits_zero(s: Seq<u8>)
    requires
        all_digits(s),
    ensures
        digits_value(s) == 0 <==> (forall|i: int| 0 <= i < s.len() ==> s[i] == 0x30),
    decreases s.len(),
{
    if s.len() > 0 {
        let p = s.drop_last();
        assert forall|i: int| 0 <= i < p.len() implies is_digit(#[trigger] p[i]) by {
            assert(p[i] == s[i]);
        }
        lemma_digits_zero(p);
        assert(is_digit(s[s.len() - 1]));
        if digits_value(s) == 0 {
            assert forall|i: int| 0 <= i < s.len() implies s[i] == 0x30 by {
                if i < p.len() {
                    assert(p[i] == s[i]);
                }
            }
        }
        if forall|i: int| 0 <= i < s.len() ==> s[i] == 0x30 {
            assert forall|i: int| 0 <= i < p.len() implies p[i] == 0x30 by {
                assert(p[i] == s[i]);
            }
        }
    }
}

/// A digit run without a leading zero is the shortest text of its number.
pub proof fn lemma_digits_canonical(s: Seq<u8>)
    requires
        all_digits(s),
        s.len() >= 1,
        s.len() == 1 || s[0] != 0x30,
    ensures
        nat_digits(digits_value(s)) == s,
    decreases s.len(),
{
    let p = s.drop_last();
    assert(is_digit(s[s.len() - 1]));
    let d = (s.last() - 0x30) as nat;
    if s.len() == 1 {
        assert(p =~= Seq::<u8>::empty());
        assert(digits_value(p) == 0);
        assert(digits_value(s) == d);
        assert(nat_digits(d) =~= s);
    } else {
        assert forall|i: int| 0 <= i < p.len() implies is_digit(#[trigger] p[i]) by {
            assert(p[i] == s[i]);
        }
        assert(p[0] == s[0]);
        lemma_digits_canonical(p);
        lemma_digits_zero(p);
        assert(digits_value(p) >= 1);
        let v = digits_value(s);
        assert(v == digits_value(p) * 10 + d);
        assert(v / 10 == digits_value(p) && v % 10 == d) by {
            lemma_fundamental_div_mod_converse(v as int, 10, digits_value(p) as int, d as int);
        }
        assert(nat_digits(v) =~= s);
    }
}

/// A run of nines is one short of the next power of ten.
pub proof fn lemma_digits_nines(s: Seq<u8>)
    requires
        forall|i: int| 0 <= i < s.len() ==> s[i] == 0x39,
    ensures
        digits_value(s) + 1 == pow10(s.len()),
    decreases s.len(),
{
    if s.len() > 0 {
        let p = s.drop_last();
        assert forall|i: int| 0 <= i < p.len() implies p[i] == 0x39 by {
            assert(p[i] == s[i]);
        }
        lemma_digits_nines(p);
        assert(s.last() == s[s.len() - 1]);
    }
}

/// Adds one to the number that the digit run `q` denotes.
fn increment(q: &mut Vec<u8>)
    requires
        all_digits(old(q)@),
    ensures
        all_digits(final(q)@),
        final(q)@.len() >= old(q)@.len(),
        digits_value(final(q)@) == digits_value(old(q)@) + 1,
{
    let n = q.len();
    let ghost before = q@;
    let mut i: usize = n;
    while i > 0 && q[i - 1] == 0x39
        invariant
            i <= n,
            q@.len() == n,
            before.len() == n,
            all_digits(before),
            q@.take(i as int) == before.take(i as int),
            forall|j: int| i <= j < n ==> #[trigger] before[j] == 0x39,
            forall|j: int| i <= j < n ==> #[trigger] q@[j] == 0x30,
        decreases i,
    {
        proof {
            assert(q@[i - 1] == q@.take(i as int)[i - 1]);
            assert(before[i - 1] == before.take(i as int)[i - 1]);
        }
        q.set(i - 1, 0x30);
        i -= 1;
        assert(q@.take(i as int) =~= before.take(i as int));
    }
    let ghost mid = q@;
    let ghost t = pow10((n - i) as nat);
    proof {
        lemma_pow10_positive((n - i) as nat);
        assert forall|j: int| 0 <= j < n implies is_digit(#[trigger] mid[j]) by {
            if j < i {
                assert(mid[j] == mid.take(i as int)[j]);
                assert(before[j] == before.take(i as int)[j]);
                assert(is_digit(before[j]));
            } else {
                assert(q@[j] == 0x30);
            }
        }
        lemma_digits_split(before, i as int);
        assert forall|j: int| 0 <= j < n - i implies before.skip(i as int)[j] == 0x39 by {
            assert(before[i + j] == 0x39);
        }
        lemma_digits_nines(before.skip(i as int));
        lemma_digits_split(mid, i as int);
        assert forall|j: int| 0 <= j < n - i implies #[trigger] mid.skip(i as int)[j] == 0x30 by {
            assert(q@[i + j] == 0x30);
        }
        assert(all_digits(mid.skip(i as int)));
        lemma_digits_zero(mid.skip(i as int));
        assert(digits_value(mid.skip(i as int)) == 0);
        assert(digits_value(before) + 1 == digits_value(before.take(i as int)) * t + t);
        assert(digits_value(mid) == digits_value(before.take(i as int)) * t);
    }
    if i == 0 {
        q.insert(0, 0x31);
        proof {
            let after = q@;
            assert forall|j: int| 0 <= j < after.len() implies is_digit(#[trigger] after[j]) by {
                if j > 0 {
                    assert(after[j] == mid[j - 1]);
                }
            }
            lemma_digits_split(after, 1);
            assert(after.skip(1) =~= mid);
            assert(after.take(1) =~= seq![0x31u8]);
            assert(seq![0x31u8].drop_last() =~= Seq::<u8>::empty());
            assert(digits_value(Seq::<u8>::empty()) == 0);
            assert(digits_value(seq![0x31u8]) == 1);
            assert(before.take(0) =~= Seq::<u8>::empty());
            assert(digits_value(after) == 1 * t + digits_value(mid));
        }
    } else {
        let d: u8 = q[i - 1];
        proof {
            assert(mid[i - 1] == mid.take(i as int)[i - 1]);
            assert(before[i - 1] == before.take(i as int)[i - 1]);
            assert(is_digit(before[i - 1]));
        }
        q.set(i - 1, d + 1);
        proof {
            let after = q@;
            assert forall|j: int| 0 <= j < after.len() implies is_digit(#[trigger] after[j]) by {
                if j != i - 1 {
                    assert(after[j] == mid[j]);
                }
            }
            lemma_digits_split(after, i as int);
            assert(after.skip(i as int) =~= mid.skip(i as int));
            let head = before.take(i as int);
            assert(after.take(i as int) =~= head.drop_last().push((d + 1) as u8));
            lemma_digits_value_push(head.drop_last(), (d + 1) as u8);
            assert(head.last() == d);
            assert(digits_value(after.take(i as int)) == digits_value(head) + 1);
            assert((digits_value(head) + 1) * t == digits_value(head) * t + t)
                by (nonlinear_arith);
        }
    }
}

/// A single digit denotes its own number.
pub proof fn lemma_digit_alone(c: u8)
    requires
        is_digit(c),
    ensures
        digits_value(seq![c]) == (c - 0x30) as nat,
{
    let s = seq![c];
    assert(s.drop_last() =~= Seq::<u8>::empty());
    assert(digits_value(s.drop_last()) == 0);
    assert(s.last() == c);
}

/// Multiplies the number that the digit run `q` denotes by `k`.
fn multiply(q: &mut Vec<u8>, k: u8)
    requires
        all_digits(old(q)@),
        k <= 9,
    ensures
        all_digits(final(q)@),
        digits_value(final(q)@) == digits_value(old(q)@) * k,
{
    let n = q.len();
    let ghost before = q@;
    let mut carry: u8 = 0;
    let mut i: usize = n;
    proof {
        assert(q@.skip(n as int) =~= Seq::<u8>::empty());
        assert(digits_value(Seq::<u8>::empty()) == 0);
        assert(pow10(0) == 1);
    }
    while i > 0
        invariant
            i <= n,
            q@.len() == n,
            before.len() == n,
            all_digits(before),
            k <= 9,
            carry <= 8,
            q@.take(i as int) == before.take(i as int),
            all_digits(q@.skip(i as int)),
            digits_value(q@.skip(i as int)) + carry * pow10((n - i) as nat) == digits_value(
                before.skip(i as int),
            ) * k,
        decreases i,
    {
        let ghost mid = q@;
        proof {
            assert(q@[i - 1] == q@.take(i as int)[i - 1]);
            assert(before[i - 1] == before.take(i as int)[i - 1]);
            assert(is_digit(before[i - 1]));
        }
        let d: u8 = q[i - 1] - 0x30;
        assert(d * k <= 81) by (nonlinear_arith)
            requires
                d <= 9,
                k <= 9,
        ;
        let t: u8 = d * k + carry;
        let low: u8 = t % 10;
        q.set(i - 1, 0x30 + low);
        proof {
            let p = pow10((n - i) as nat);
            let now = q@.skip(i - 1);
            let was = before.skip(i - 1);
            assert(now.skip(1) =~= mid.skip(i as int));
            assert(was.skip(1) =~= before.skip(i as int));
            assert(now.take(1) =~= seq![(0x30 + low) as u8]);
            assert(was.take(1) =~= seq![before[i - 1]]);
            assert forall|j: int| 0 <= j < now.len() implies is_digit(#[trigger] now[j]) by {
                if j > 0 {
                    assert(now[j] == mid.skip(i as int)[j - 1]);
                }
            }
            assert forall|j: int| 0 <= j < was.len() implies is_digit(#[trigger] was[j]) by {
                assert(was[j] == before[i - 1 + j]);
            }
            lemma_digits_split(now, 1);
            lemma_digits_split(was, 1);
            assert(seq![(0x30 + low) as u8].drop_last() =~= Seq::<u8>::empty());
            assert(seq![before[i - 1]].drop_last() =~= Seq::<u8>::empty());
            lemma_digit_alone((0x30 + low) as u8);
            lemma_digit_alone(before[i - 1]);
            assert(digits_value(seq![(0x30 + low) as u8]) == low);
            assert(digits_value(seq![before[i - 1]]) == d);
            assert(pow10((n - i + 1) as nat) == 10 * p);
            let rest_now = digits_value(mid.skip(i as int));
            let rest_was = digits_value(before.skip(i as int));
            let up = (t / 10) as int;
            assert(low + 10 * up == d * k + carry);
            assert(low * p + rest_now + up * (10 * p) == (d * p + rest_was) * k)
                by (nonlinear_arith)
                requires
                    rest_now + carry * p == rest_was * k,
                    low + 10 * up == d * k + carry,
            ;
            assert(q@.take(i - 1) =~= before.take(i - 1));
        }
        carry = t / 10;
        i -= 1;
    }
    proof {
        assert(q@.skip(0) =~= q@);
        assert(before.skip(0) =~= before);
    }
    if carry > 0 {
        let ghost mid = q@;
        q.insert(0, 0x30 + carry);
        proof {
            let after = q@;
            assert forall|j: int| 0 <= j < after.len() implies is_digit(#[trigger] after[j]) by {
                if j > 0 {
                    assert(after[j] == mid[j - 1]);
                }
            }
            lemma_digits_split(after, 1);
            assert(after.skip(1) =~= mid);
            assert(after.take(1) =~= seq![(0x30 + carry) as u8]);
            assert(seq![(0x30 + carry) as u8].drop_last() =~= Seq::<u8>::empty());
            lemma_digit_alone((0x30 + carry) as u8);
            assert(digits_value(seq![(0x30 + carry) as u8]) == carry);
        }
    }
}

impl View for Decimal {
    type V = DecimalModel;

    closed spec fn view(&self) -> DecimalModel {
        DecimalModel {
            negative: self.negative,
            coefficient: digits_value(self.digits@),
            exponent: self.exponent as int,
        }
    }
}

impl Decimal {
    #[verifier::type_invariant]
    spec fn well_formed(self) -> bool {
        all_digits(self.digits@) && -EXPONENT_LIMIT <= self.exponent <= EXPONENT_LIMIT
    }

    /// Makes the number `digits * 10^exponent`, negated when `negative`, from a
    /// run of ASCII digits. There is none when a byte is no digit or the
    /// exponent is beyond `EXPONENT_LIMIT`.
    pub fn new(negative: bool, digits: Vec<u8>, exponent: i32) -> (r: Option<Decimal>)
        ensures
            r is Some <==> all_digits(digits@) && -EXPONENT_LIMIT <= exponent <= EXPONENT_LIMIT,
            r matches Some(d) ==> d@ == (DecimalModel {
                negative,
                coefficient: digits_value(digits@),
                exponent: exponent as int,
            }),
    {
        if exponent < -EXPONENT_LIMIT || exponent > EXPONENT_LIMIT {
            return None;
        }
        let mut i: usize = 0;
        while i < digits.len()
            invariant
                i <= digits@.len(),
                forall|j: int| 0 <= j < i ==> is_digit(#[trigger] digits@[j]),
            decreases digits.len() - i,
        {
            if digits[i] < 0x30 || digits[i] > 0x39 {
                return None;
            }
            i += 1;
        }
        Some(Decimal { negative, digits, exponent })
    }

    /// The decimal number that equals `m * 2^p`.
    fn from_binary(negative: bool, m: u64, p: i32) -> (r: Decimal)
        requires
            -EXPONENT_LIMIT <= p <= EXPONENT_LIMIT,
        ensures
            r@ == binary_model(negative, m as nat, p as int),
    {
        let mut digits: Vec<u8> = Vec::new();
        push_nat_text(&mut digits, m);
        proof {
            lemma_nat_digits(m as nat);
            assert(digits@ =~= nat_digits(m as nat));
        }
        let k: u8 = if p >= 0 {
            2
        } else {
            5
        };
        let times: i32 = if p >= 0 {
            p
        } else {
            -p
        };
        let mut j: i32 = 0;
        proof {
            assert(power(k as nat, 0) == 1);
            assert(m * 1 == m);
        }
        while j < times
            invariant
                0 <= j <= times,
                k == 2 || k == 5,
                all_digits(digits@),
                digits_value(digits@) == m * power(k as nat, j as nat),
            decreases times - j,
        {
            proof {
                assert(m * power(k as nat, (j + 1) as nat) == m * power(k as nat, j as nat) * k)
                    by (nonlinear_arith)
                    requires
                        power(k as nat, (j + 1) as nat) == k * power(k as nat, j as nat),
                ;
            }
            multiply(&mut digits, k);
            j += 1;
        }
        Decimal { negative, digits, exponent: if p >= 0 {
            0
        } else {
            p
        } }
    }

    /// The exact value of the double with the given IEEE-754 bit pattern;
    /// none for an infinity or a NaN.
    pub fn from_f64_bits(bits: u64) -> (r: Option<Decimal>)
        ensures
            match double_model(bits) {
                Some(m) => r matches Some(d) && d@ == m,
                None => r is None,
            },
    {
        let negative = bits >= 0x8000_0000_0000_0000;
        let e: u64 = (bits / 0x10_0000_0000_0000) % 2048;
        let f: u64 = bits % 0x10_0000_0000_0000;
        if e == 2047 {
            None
        } else if e == 0 {
            Some(Decimal::from_binary(negative, f, -1074))
        } else {
            Some(Decimal::from_binary(negative, f + 0x10_0000_0000_0000, e as i32 - 1075))
        }
    }

    /// The exact value of the single-width float with the given IEEE-754 bit
    /// pattern; none for an infinity or a NaN.
    pub fn from_f32_bits(bits: u32) -> (r: Option<Decimal>)
        ensures
            match single_model(bits) {
                Some(m) => r matches Some(d) && d@ == m,
                None => r is None,
            },
    {
        let negative = bits >= 0x8000_0000;
        let e: u32 = (bits / 0x80_0000) % 256;
        let f: u32 = bits % 0x80_0000;
        if e == 255 {
            None
        } else if e == 0 {
            Some(Decimal::from_binary(negative, f as u64, -149))
        } else {
            Some(Decimal::from_binary(negative, (f + 0x80_0000) as u64, e as i32 - 150))
        }
    }

    /// The integer `v` as a decimal number.
    pub fn from_i64(v: i64) -> (r: Decimal)
        ensures
            r@ == integer_model(v as int),
    {
        let mut digits: Vec<u8> = Vec::new();
        let magnitude: u64 = if v >= 0 {
            v as u64
        } else if v == i64::MIN {
            9223372036854775808u64
        } else {
            (-v) as u64
        };
        push_nat_text(&mut digits, magnitude);
        proof {
            lemma_nat_digits(magnitude as nat);
            assert(digits@ =~= nat_digits(magnitude as nat));
        }
        Decimal { negative: v < 0, digits, exponent: 0 }
    }

    /// Another decimal with the same value.
    pub fn copy(&self) -> (r: Decimal)
        ensures
            r@ == self@,
    {
        proof {
            use_type_invariant(self);
        }
        let n = self.digits.len();
        let mut digits: Vec<u8> = Vec::new();
        let mut i: usize = 0;
        while i < n
            invariant
                i <= n,
                n == self.digits@.len(),
                digits@ == self.digits@.take(i as int),
            decreases n - i,
        {
            digits.push(self.digits[i]);
            i += 1;
            assert(digits@ =~= self.digits@.take(i as int));
        }
        assert(digits@ =~= self.digits@);
        Decimal { negative: self.negative, digits, exponent: self.exponent }
    }

    /// Whether the sign is set (zero may carry it).
    pub fn is_negative(&self) -> (r: bool)
        ensures
            r == self@.negative,
    {
        self.negative
    }

    /// The power of ten.
    pub fn exponent(&self) -> (r: i32)
        ensures
            r == self@.exponent,
            -EXPONENT_LIMIT <= r <= EXPONENT_LIMIT,
    {
        proof {
            use_type_invariant(self);
        }
        self.exponent
    }

    /// Whether the number is greater than zero.
    #[verifier::loop_isolation(false)]
    pub fn is_positive(&self) -> (r: bool)
        ensures
            r == is_positive(self@),
    {
        proof {
            use_type_invariant(self);
            lemma_digits_zero(self.digits@);
        }
        if self.negative {
            return false;
        }
        let mut i: usize = 0;
        while i < self.digits.len()
            invariant
                i <= self.digits@.len(),
                forall|j: int| 0 <= j < i ==> self.digits@[j] == 0x30,
            decreases self.digits.len() - i,
        {
            if self.digits[i] != 0x30 {
                assert(self.digits@[i as int] != 0x30);
                return true;
            }
            i += 1;
        }
        false
    }

    /// The magnitude without its fraction, or nothing when it is beyond `u128`.
    #[verifier::loop_isolation(false)]
    fn truncated_magnitude(&self) -> (r: Option<u128>)
        ensures
            match r {
                Some(v) => v == whole_part(self@),
                None => whole_part(self@) > u128::MAX,
            },
    {
        proof {
            use_type_invariant(self);
        }
        let n = self.digits.len();
        let ghost c = digits_value(self.digits@);
        if self.exponent >= 0 {
            assert(self.digits@.subrange(0, n as int) =~= self.digits@);
            let whole = digits_to_u128(self.digits.as_slice(), 0, n);
            match whole {
                None => {
                    proof {
                        lemma_pow10_positive(self.exponent as nat);
                        assert(c * pow10(self.exponent as nat) >= c) by (nonlinear_arith)
                            requires
                                pow10(self.exponent as nat) >= 1,
                        ;
                    }
                    None
                },
                Some(v) => {
                    let mut acc: u128 = v;
                    let mut j: i32 = 0;
                    proof {
                        assert(pow10(0) == 1);
                        assert(c * 1 == c);
                    }
                    while j < self.exponent
                        invariant
                            0 <= j <= self.exponent,
                            acc == c * pow10(j as nat),
                        decreases self.exponent - j,
                    {
                        if acc > u128::MAX / 10 {
                            proof {
                                lemma_pow10_monotonic((j + 1) as nat, self.exponent as nat);
                                assert(c * pow10(self.exponent as nat) >= c * pow10((j + 1) as nat))
                                    by (nonlinear_arith)
                                    requires
                                        pow10(self.exponent as nat) >= pow10((j + 1) as nat),
                                ;
                                assert(c * pow10((j + 1) as nat) == acc * 10) by (nonlinear_arith)
                                    requires
                                        acc == c * pow10(j as nat),
                                        pow10((j + 1) as nat) == 10 * pow10(j as nat),
                                ;
                            }
                            return None;
                        }
                        proof {
                            assert(c * pow10((j + 1) as nat) == acc * 10) by (nonlinear_arith)
                                requires
                                    acc == c * pow10(j as nat),
                                    pow10((j + 1) as nat) == 10 * pow10(j as nat),
                            ;
                        }
                        acc = acc * 10;
                        j += 1;
                    }
                    Some(acc)
                },
            }
        } else {
            let k: usize = (-self.exponent) as usize;
            if k >= n {
                proof {
                    lemma_digits_split(self.digits@, 0);
                    assert(self.digits@.skip(0) =~= self.digits@);
                    lemma_pow10_monotonic(n as nat, k as nat);
                    lemma_pow10_positive(k as nat);
                    lemma_fundamental_div_mod_converse(c as int, pow10(k as nat) as int, 0, c as int);
                }
                Some(0)
            } else {
                proof {
                    lemma_digits_div(self.digits@, k as int);
                    assert(self.digits@.subrange(0, n - k) =~= self.digits@.take(n - k));
                    assert forall|i: int| 0 <= i < n - k implies is_digit(
                        #[trigger] self.digits@.subrange(0, n - k)[i],
                    ) by {
                        assert(is_digit(self.digits@[i]));
                    }
                }
                let head = digits_to_u128(self.digits.as_slice(), 0, n - k);
                head
            }
        }
    }

    /// The number with its fraction cut off, brought into the range of `isize`.
    pub fn truncate_isize(&self) -> (r: isize)
        ensures
            r as int == clamp_isize(truncated(self@)),
    {
        let mag = self.truncated_magnitude();
        if self.negative {
            match mag {
                Some(v) => {
                    if v > isize::MAX as u128 {
                        isize::MIN
                    } else {
                        -(v as isize)
                    }
                },
                None => isize::MIN,
            }
        } else {
            match mag {
                Some(v) => {
                    if v > isize::MAX as u128 {
                        isize::MAX
                    } else {
                        v as isize
                    }
                },
                None => isize::MAX,
            }
        }
    }

    /// The digits of the magnitude in hundredths, with zeros in front.
    #[verifier::loop_isolation(false)]
    fn hundredths_digits(&self) -> (q: Vec<u8>)
        ensures
            all_digits(q@),
            q@.len() >= 3,
            digits_value(q@) == hundredths(self@),
    {
        proof {
            use_type_invariant(self);
        }
        let n = self.digits.len();
        let ghost src = self.digits@;
        let ghost c = digits_value(src);
        let shift: i32 = self.exponent + 2;
        let keep: usize = if shift >= 0 {
            n
        } else if ((-shift) as usize) > n {
            0
        } else {
            n - ((-shift) as usize)
        };
        let mut q: Vec<u8> = Vec::new();
        q.push(0x30);
        q.push(0x30);
        q.push(0x30);
        proof {
            lemma_digits_zero(q@);
            assert(src.take(0) =~= Seq::<u8>::empty());
        }
        let mut i: usize = 0;
        while i < keep
            invariant
                i <= keep <= n,
                n == src.len(),
                src == self.digits@,
                all_digits(src),
                all_digits(q@),
                q@.len() == 3 + i,
                digits_value(q@) == digits_value(src.take(i as int)),
            decreases keep - i,
        {
            let d: u8 = self.digits[i];
            proof {
                assert(is_digit(src[i as int]));
                lemma_digits_value_push(q@, d);
                assert(src.take(i + 1).drop_last() =~= src.take(i as int));
                assert(src.take(i + 1).last() == d);
            }
            q.push(d);
            i += 1;
        }
        if shift >= 0 {
            proof {
                assert(src.take(n as int) =~= src);
            }
            let mut j: i32 = 0;
            proof {
                assert(pow10(0) == 1);
                assert(c * 1 == c);
            }
            while j < shift
                invariant
                    0 <= j <= shift,
                    all_digits(q@),
                    q@.len() >= 3,
                    digits_value(q@) == c * pow10(j as nat),
                decreases shift - j,
            {
                proof {
                    lemma_digits_value_push(q@, 0x30);
                    assert(c * pow10((j + 1) as nat) == c * pow10(j as nat) * 10)
                        by (nonlinear_arith)
                        requires
                            pow10((j + 1) as nat) == 10 * pow10(j as nat),
                    ;
                }
                q.push(0x30);
                j += 1;
            }
            q
        } else {
            let k: usize = (-shift) as usize;
            if k > n {
                proof {
                    lemma_digits_split(src, 0);
                    assert(src.skip(0) =~= src);
                    lemma_pow10_monotonic(n as nat, (k - 1) as nat);
                    lemma_pow10_monotonic(n as nat, k as nat);
                    lemma_pow10_positive(k as nat);
                    lemma_pow10_positive((k - 1) as nat);
                    lemma_fundamental_div_mod_converse(c as int, pow10(k as nat) as int, 0, c as int);
                    lemma_fundamental_div_mod_converse(
                        c as int,
                        pow10((k - 1) as nat) as int,
                        0,
                        c as int,
                    );
                }
                q
            } else {
                let m: usize = n - k;
                let h: u8 = self.digits[m] - 0x30;
                let mut tail_nonzero = false;
                let mut j: usize = m + 1;
                while j < n
                    invariant
                        m + 1 <= j <= n,
                        n == src.len(),
                        src == self.digits@,
                        tail_nonzero <==> exists|x: int| m + 1 <= x < j && src[x] != 0x30,
                    decreases n - j,
                {
                    if self.digits[j] != 0x30 {
                        tail_nonzero = true;
                    }
                    j += 1;
                }
                let odd: bool = m > 0 && (self.digits[m - 1] - 0x30) % 2 == 1;
                proof {
                    // the quotient, the first digit cut off and what follows it
                    lemma_digits_div(src, k as int);
                    lemma_digits_div(src, k - 1);
                    let head = src.take(m + 1);
                    assert(head.drop_last() =~= src.take(m as int));
                    assert(head.last() == src[m as int]);
                    assert(is_digit(src[m as int]));
                    lemma_fundamental_div_mod_converse(
                        digits_value(head) as int,
                        10,
                        digits_value(src.take(m as int)) as int,
                        h as int,
                    );
                    let tail = src.skip(m + 1);
                    assert forall|x: int| 0 <= x < tail.len() implies is_digit(#[trigger] tail[x]) by {
                        assert(tail[x] == src[m + 1 + x]);
                    }
                    lemma_digits_zero(tail);
                    if tail_nonzero {
                        let x = choose|x: int| m + 1 <= x < n && src[x] != 0x30;
                        assert(tail[x - (m + 1)] == src[x]);
                    } else {
                        assert forall|x: int| 0 <= x < tail.len() implies tail[x] == 0x30 by {
                            assert(tail[x] == src[m + 1 + x]);
                        }
                    }
                    assert(tail_nonzero <==> c % pow10((k - 1) as nat) > 0);
                    if m > 0 {
                        let kept = src.take(m as int);
                        assert(kept.last() == src[m - 1]);
                        assert(is_digit(src[m - 1]));
                        let low = (src[m - 1] - 0x30) as nat;
                        assert((digits_value(kept.drop_last()) * 10 + low) % 2 == low % 2)
                            by (nonlinear_arith);
                    } else {
                        assert(src.take(0) =~= Seq::<u8>::empty());
                    }
                    assert(odd <==> (c / pow10(k as nat)) % 2 == 1);
                }
                if h > 5 || (h == 5 && (tail_nonzero || odd)) {
                    increment(&mut q);
                }
                q
            }
        }
    }

    /// Appends the text with two decimals to `out`.
    pub fn push_fixed2(&self, out: &mut Vec<u8>)
        ensures
            final(out)@ == old(out)@ + fixed2_text(self@),
    {
        let q = self.hundredths_digits();
        let n = q.len();
        if self.negative {
            out.push(0x2D);
        }
        let ghost signed = out@;
        let mut z: usize = 0;
        while z + 3 < n && q[z] == 0x30
            invariant
                z + 3 <= n,
                n == q@.len(),
                forall|j: int| 0 <= j < z ==> q@[j] == 0x30,
            decreases n - z,
        {
            z += 1;
        }
        let ghost whole = q@.take(n - 2);
        let ghost shown = q@.subrange(z as int, n - 2);
        proof {
            lemma_digits_div(q@, 2);
            assert(pow10(2) == 100) by {
                assert(pow10(1) == 10 * pow10(0));
                assert(pow10(2) == 10 * pow10(1));
            }
            assert forall|j: int| 0 <= j < whole.len() implies is_digit(#[trigger] whole[j]) by {
                assert(whole[j] == q@[j]);
            }
            lemma_digits_split(whole, z as int);
            assert forall|j: int| 0 <= j < z implies is_digit(#[trigger] whole.take(z as int)[j]) by {
                assert(whole.take(z as int)[j] == q@[j]);
            }
            lemma_digits_zero(whole.take(z as int));
            assert(whole.skip(z as int) =~= shown);
            assert forall|j: int| 0 <= j < shown.len() implies is_digit(#[trigger] shown[j]) by {
                assert(shown[j] == q@[z + j]);
            }
            assert(digits_value(whole) == digits_value(shown)) by {
                assert(digits_value(whole.take(z as int)) == 0);
                assert(0 * pow10((whole.len() - z) as nat) == 0);
            }
            lemma_digits_canonical(shown);
            let cents = q@.skip(n - 2);
            assert(cents.drop_last() =~= seq![q@[n - 2]]);
            assert(seq![q@[n - 2]].drop_last() =~= Seq::<u8>::empty());
            assert(digits_value(Seq::<u8>::empty()) == 0);
            assert(cents.last() == q@[n - 1]);
            assert(is_digit(q@[n - 2]) && is_digit(q@[n - 1]));
            assert(digits_value(seq![q@[n - 2]]) == (q@[n - 2] - 0x30) as nat);
            assert(digits_value(cents) == (q@[n - 2] - 0x30) * 10 + (q@[n - 1] - 0x30));
            assert(two_digits(digits_value(cents)) =~= seq![q@[n - 2], q@[n - 1]]);
        }
        let mut i: usize = z;
        while i < n - 2
            invariant
                z <= i <= n - 2,
                n == q@.len(),
                out@ == signed + q@.subrange(z as int, i as int),
            decreases n - i,
        {
            out.push(q[i]);
            i += 1;
            assert(out@ =~= signed + q@.subrange(z as int, i as int));
        }
        out.push(0x2E);
        out.push(q[n - 2]);
        out.push(q[n - 1]);
        assert(final(out)@ =~= old(out)@ + fixed2_text(self@));
    }

    /// Appends the text `digits e exponent`, with a sign, to `out`.
    pub fn push_scientific(&self, out: &mut Vec<u8>)
        ensures
            final(out)@ == old(out)@ + scientific_text(self@),
    {
        proof {
            use_type_invariant(self);
        }
        if self.negative {
            out.push(0x2D);
        }
        let ghost signed = out@;
        let n = self.digits.len();
        let mut z: usize = 0;
        while z + 1 < n && self.digits[z] == 0x30
            invariant
                z <= n,
                n == self.digits@.len(),
                n > 0 ==> z < n,
                forall|j: int| 0 <= j < z ==> self.digits@[j] == 0x30,
            decreases n - z,
        {
            z += 1;
        }
        if n == 0 {
            out.push(0x30);
            proof {
                assert(nat_digits(0) =~= seq![0x30u8]);
            }
        } else {
            let ghost shown = self.digits@.skip(z as int);
            proof {
                let src = self.digits@;
                lemma_digits_split(src, z as int);
                assert forall|j: int| 0 <= j < z implies is_digit(#[trigger] src.take(z as int)[j]) by {
                    assert(src.take(z as int)[j] == src[j]);
                }
                lemma_digits_zero(src.take(z as int));
                assert(0 * pow10((n - z) as nat) == 0);
                assert forall|j: int| 0 <= j < shown.len() implies is_digit(#[trigger] shown[j]) by {
                    assert(shown[j] == src[z + j]);
                }
                lemma_digits_canonical(shown);
            }
            let mut i: usize = z;
            while i < n
                invariant
                    z <= i <= n,
                    n == self.digits@.len(),
                    out@ == signed + self.digits@.subrange(z as int, i as int),
                decreases n - i,
            {
                out.push(self.digits[i]);
                i += 1;
                assert(out@ =~= signed + self.digits@.subrange(z as int, i as int));
            }
            assert(self.digits@.subrange(z as int, n as int) =~= shown);
        }
        out.push(0x65);
        let ghost before = out@;
        push_int_text(out, self.exponent as i64);
        assert(final(out)@ =~= old(out)@ + scientific_text(self@));
    }
}

} // verus!
