//! Decimal digit runs, integer text and the bridge between strings and bytes.

use vstd::prelude::*;
use vstd::utf8::*;

verus! {

/// `b` is an ASCII decimal digit.
pub open spec fn is_digit(b: u8) -> bool {
    0x30 <= b && b <= 0x39
}

/// Every byte of `s` is an ASCII decimal digit.
pub open spec fn all_digits(s: Seq<u8>) -> bool {
    forall|i: int| 0 <= i < s.len() ==> is_digit(#[trigger] s[i])
}

/// The number that a run of ASCII digits denotes, most significant digit first.
pub open spec fn digits_value(s: Seq<u8>) -> nat
    decreases s.len(),
{
    if s.len() == 0 {
        0
    } else {
        digits_value(s.drop_last()) * 10 + (s.last() - 0x30) as nat
    }
}

/// The shortest run of ASCII digits that denotes `n`.
pub open spec fn nat_digits(n: nat) -> Seq<u8>
    decreases n,
{
    if n < 10 {
        seq![(0x30 + n) as u8]
    } else {
        nat_digits(n / 10).push((0x30 + n % 10) as u8)
    }
}

/// The decimal text of an integer: a minus sign for negative numbers, then the digits.
pub open spec fn int_text(i: int) -> Seq<u8> {
    if i < 0 {
        seq![0x2Du8] + nat_digits((-i) as nat)
    } else {
        nat_digits(i as nat)
    }
}

/// Ten to the power `n`.
pub open spec fn pow10(n: nat) -> nat
    decreases n,
{
    if n == 0 {
        1
    } else {
        10 * pow10((n - 1) as nat)
    }
}

/// What a text denotes as an integer: an optional sign, then one or more digits.
pub open spec fn parse_int_text(s: Seq<u8>) -> Option<int> {
    let signed = s.len() > 0 && (s[0] == 0x2B || s[0] == 0x2D);
    let body = if signed { s.skip(1) } else { s };
    if body.len() > 0 && all_digits(body) {
        if signed && s[0] == 0x2D {
            Some(-(digits_value(body) as int))
        } else {
            Some(digits_value(body) as int)
        }
    } else {
        None
    }
}

/// The lower-case form of an ASCII letter; other bytes are unchanged.
pub open spec fn ascii_lower(b: u8) -> u8 {
    if 0x41 <= b && b <= 0x5A {
        (b + 0x20) as u8
    } else {
        b
    }
}

/// `s` spells `true`, in any mix of upper and lower case.
pub open spec fn is_true_text(s: Seq<u8>) -> bool {
    s.len() == 4 && ascii_lower(s[0]) == 0x74 && ascii_lower(s[1]) == 0x72 && ascii_lower(s[2])
        == 0x75 && ascii_lower(s[3]) == 0x65
}

/// The digits of `n` are digits, at least one, without a leading zero unless
/// `n` is below ten, and they denote `n`.
pub proof fn lemma_nat_digits(n: nat)
    ensures
        nat_digits(n).len() >= 1,
        all_digits(nat_digits(n)),
        digits_value(nat_digits(n)) == n,
        n >= 10 ==> nat_digits(n)[0] != 0x30,
    decreases n,
{
    if n < 10 {
        let s = nat_digits(n);
        assert(s.drop_last() =~= Seq::<u8>::empty());
        assert(digits_value(s.drop_last()) == 0);
    } else {
        lemma_nat_digits(n / 10);
        let p = nat_digits(n / 10);
        let s = nat_digits(n);
        assert(s.drop_last() =~= p);
        assert(s.last() == (0x30 + n % 10) as u8);
        assert forall|i: int| 0 <= i < s.len() implies is_digit(#[trigger] s[i]) by {
            if i < p.len() {
                assert(s[i] == p[i]);
            }
        }
        assert(s[0] == p[0]);
        if n / 10 < 10 {
            assert(p[0] == (0x30 + n / 10) as u8);
        }
    }
}

/// One more digit at the end multiplies by ten and adds the digit.
pub proof fn lemma_digits_value_push(s: Seq<u8>, d: u8)
    ensures
        digits_value(s.push(d)) == digits_value(s) * 10 + (d - 0x30) as nat,
{
    assert(s.push(d).drop_last() =~= s);
}

/// A prefix of a digit run denotes no more than the whole run.
pub proof fn lemma_digits_value_prefix(s: Seq<u8>, k: int)
    requires
        all_digits(s),
        0 <= k <= s.len(),
    ensures
        digits_value(s.take(k)) <= digits_value(s),
    decreases s.len() - k,
{
    if k == s.len() {
        assert(s.take(k) =~= s);
    } else {
        lemma_digits_value_prefix(s, k + 1);
        assert(s.take(k + 1).drop_last() =~= s.take(k));
        assert(is_digit(s[k]));
        assert(s.take(k + 1).last() == s[k]);
    }
}

/// Appends the digits of `n` to `out`.
pub fn push_nat_text(out: &mut Vec<u8>, n: u64)
    ensures
        final(out)@ == old(out)@ + nat_digits(n as nat),
    decreases n,
{
    if n >= 10 {
        push_nat_text(out, n / 10);
    }
    let d: u8 = (n % 10) as u8;
    out.push(0x30 + d);
}

/// Appends the decimal text of `v` to `out`.
pub fn push_int_text(out: &mut Vec<u8>, v: i64)
    ensures
        final(out)@ == old(out)@ + int_text(v as int),
{
    if v < 0 {
        out.push(0x2D);
        let mag: u64 = if v == i64::MIN {
            9223372036854775808u64
        } else {
            (-v) as u64
        };
        push_nat_text(out, mag);
        assert(final(out)@ =~= old(out)@ + int_text(v as int));
    } else {
        push_nat_text(out, v as u64);
    }
}

/// Reads the digit run `b[lo..hi]` as a number, or reports that it does not fit.
pub fn digits_to_u128(b: &[u8], lo: usize, hi: usize) -> (r: Option<u128>)
    requires
        lo <= hi <= b@.len(),
        all_digits(b@.subrange(lo as int, hi as int)),
    ensures
        match r {
            Some(v) => v == digits_value(b@.subrange(lo as int, hi as int)),
            None => digits_value(b@.subrange(lo as int, hi as int)) > u128::MAX,
        },
{
    let ghost run = b@.subrange(lo as int, hi as int);
    let mut acc: u128 = 0;
    let mut i: usize = lo;
    while i < hi
        invariant
            lo <= i <= hi <= b@.len(),
            run == b@.subrange(lo as int, hi as int),
            all_digits(run),
            acc == digits_value(run.take(i - lo)),
        decreases hi - i,
    {
        let c: u8 = b[i];
        proof {
            assert(run[i - lo] == c);
            assert(is_digit(run[i - lo]));
            assert(run.take(i - lo + 1).drop_last() =~= run.take(i - lo));
            assert(run.take(i - lo + 1).last() == c);
        }
        let d: u128 = (c - 0x30) as u128;
        if acc > (u128::MAX - d) / 10 {
            proof {
                lemma_digits_value_prefix(run, i - lo + 1);
            }
            return None;
        }
        acc = acc * 10 + d;
        i += 1;
    }
    proof {
        assert(run.take(hi - lo) =~= run);
    }
    Some(acc)
}

/// The slot index that a text denotes: an optional plus sign, then one or more
/// digits, the number no larger than `usize::MAX`.
pub open spec fn index_of_text(s: Seq<u8>) -> Option<int> {
    let signed = s.len() > 0 && s[0] == 0x2B;
    let body = if signed {
        s.skip(1)
    } else {
        s
    };
    if body.len() > 0 && all_digits(body) && digits_value(body) <= usize::MAX {
        Some(digits_value(body) as int)
    } else {
        None
    }
}

/// What a text denotes as an `isize`, if it is an integer in that range.
pub open spec fn isize_of_text(s: Seq<u8>) -> Option<isize> {
    match parse_int_text(s) {
        Some(v) => if isize::MIN <= v <= isize::MAX {
            Some(v as isize)
        } else {
            None
        },
        None => None,
    }
}

/// Tells whether `b[lo..]` is a run of one or more digits.
fn is_digit_run(b: &[u8], lo: usize) -> (r: bool)
    requires
        lo <= b@.len(),
    ensures
        r == (b@.skip(lo as int).len() > 0 && all_digits(b@.skip(lo as int))),
{
    let n = b.len();
    if lo == n {
        return false;
    }
    let ghost run = b@.skip(lo as int);
    let mut i: usize = lo;
    while i < n
        invariant
            lo <= i <= n,
            n == b@.len(),
            run == b@.skip(lo as int),
            forall|j: int| 0 <= j < i - lo ==> is_digit(#[trigger] run[j]),
        decreases n - i,
    {
        if b[i] < 0x30 || b[i] > 0x39 {
            assert(!is_digit(run[i - lo]));
            return false;
        }
        i += 1;
    }
    true
}

/// Reads a text as an `isize`: an optional sign, then digits.
pub fn parse_isize(b: &[u8]) -> (r: Option<isize>)
    ensures
        r == isize_of_text(b@),
{
    let n = b.len();
    let signed = n > 0 && (b[0] == 0x2B || b[0] == 0x2D);
    let lo: usize = if signed {
        1
    } else {
        0
    };
    proof {
        assert(b@.skip(0) =~= b@);
        assert(b@.subrange(lo as int, n as int) =~= b@.skip(lo as int));
    }
    if !is_digit_run(b, lo) {
        return None;
    }
    match digits_to_u128(b, lo, n) {
        None => None,
        Some(v) => {
            if signed && b[0] == 0x2D {
                if v > isize::MAX as u128 + 1 {
                    None
                } else if v == isize::MAX as u128 + 1 {
                    Some(isize::MIN)
                } else {
                    Some(-(v as isize))
                }
            } else if v > isize::MAX as u128 {
                None
            } else {
                Some(v as isize)
            }
        },
    }
}

/// Reads a text as a slot index: an optional plus sign, then digits.
pub fn parse_index(b: &[u8]) -> (r: Option<usize>)
    ensures
        match r {
            Some(i) => index_of_text(b@) == Some(i as int),
            None => index_of_text(b@) is None,
        },
{
    let n = b.len();
    let signed = n > 0 && b[0] == 0x2B;
    let lo: usize = if signed {
        1
    } else {
        0
    };
    proof {
        assert(b@.skip(0) =~= b@);
        assert(b@.subrange(lo as int, n as int) =~= b@.skip(lo as int));
    }
    if !is_digit_run(b, lo) {
        return None;
    }
    match digits_to_u128(b, lo, n) {
        None => None,
        Some(v) => {
            if v > usize::MAX as u128 {
                None
            } else {
                Some(v as usize)
            }
        },
    }
}

fn lower(b: u8) -> (r: u8)
    ensures
        r == ascii_lower(b),
{
    if 0x41 <= b && b <= 0x5A {
        b + 0x20
    } else {
        b
    }
}

/// Tells whether a text spells `true`, in any mix of upper and lower case.
pub fn is_true(b: &[u8]) -> (r: bool)
    ensures
        r == is_true_text(b@),
{
    b.len() == 4 && lower(b[0]) == 0x74 && lower(b[1]) == 0x72 && lower(b[2]) == 0x75 && lower(
        b[3],
    ) == 0x65
}

/// Tells whether two byte strings are the same.
pub fn bytes_eq(a: &[u8], b: &[u8]) -> (r: bool)
    ensures
        r == (a@ == b@),
{
    if a.len() != b.len() {
        return false;
    }
    let mut i: usize = 0;
    while i < a.len()
        invariant
            a@.len() == b@.len(),
            i <= a@.len(),
            forall|k: int| 0 <= k < i ==> a@[k] == b@[k],
        decreases a.len() - i,
    {
        if a[i] != b[i] {
            return false;
        }
        i += 1;
    }
    assert(a@ =~= b@);
    true
}

/// Two texts have the same UTF-8 bytes exactly when they are the same text.
pub proof fn lemma_encode_utf8_injective(a: Seq<char>, b: Seq<char>)
    ensures
        (encode_utf8(a) == encode_utf8(b)) == (a == b),
{
    encode_utf8_decode_utf8(a);
    encode_utf8_decode_utf8(b);
}

/// Tells whether two texts are the same, byte for byte.
pub fn str_eq(a: &str, b: &str) -> (r: bool)
    ensures
        r == (a@ == b@),
{
    proof {
        lemma_encode_utf8_injective(a@, b@);
    }
    bytes_eq(a.as_bytes(), b.as_bytes())
}

/// Turns UTF-8 bytes into a `String` with `String::from_utf8`: the text that the
/// bytes encode when they are well-formed UTF-8, and nothing when they are not.
#[verifier::external_body]
pub(crate) fn string_from_utf8(bytes: Vec<u8>) -> (r: Option<String>)
    ensures
        r is Some <==> valid_utf8(bytes@),
        r matches Some(s) ==> s@ == decode_utf8(bytes@),
{
    String::from_utf8(bytes).ok()
}

} // verus!
