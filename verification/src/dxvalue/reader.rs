//! The reader's scanning functions: white space, strings, numbers and values.

use vstd::prelude::*;
use vstd::utf8::*;
use crate::dxvalue::decimal::{Decimal, DecimalModel, EXPONENT_LIMIT};
use crate::dxvalue::json::{
    digits_end, elements_at, errJsonReson, errorJson, escape_at, false_text, has_at, hex4,
    hex_value, members_at, number_at, number_shape, skip_ws, string_at, string_body, value_at,
};
use crate::dxvalue::text::{all_digits, digits_to_u128, digits_value, is_digit, string_from_utf8};
use crate::dxvalue::{DxValue, Key_Value, Node, Slots};

verus! {

/// The first offset from `i` on that holds no white space.
pub fn skip_white(b: &[u8], i: usize) -> (r: usize)
    requires
        i <= b@.len(),
    ensures
        r == skip_ws(b@, i as int),
        i <= r <= b@.len(),
{
    let n = b.len();
    let mut j: usize = i;
    while j < n && (b[j] == 0x20 || b[j] == 0x09 || b[j] == 0x0A || b[j] == 0x0D)
        invariant
            i <= j <= n,
            n == b@.len(),
            skip_ws(b@, i as int) == skip_ws(b@, j as int),
        decreases n - j,
    {
        j += 1;
    }
    j
}

/// The first offset from `i` on that holds no digit.
pub fn scan_digits(b: &[u8], i: usize) -> (r: usize)
    requires
        i <= b@.len(),
    ensures
        r == digits_end(b@, i as int),
        i <= r <= b@.len(),
        all_digits(b@.subrange(i as int, r as int)),
        r == b@.len() || !is_digit(b@[r as int]),
{
    let n = b.len();
    let mut j: usize = i;
    while j < n && 0x30 <= b[j] && b[j] <= 0x39
        invariant
            i <= j <= n,
            n == b@.len(),
            digits_end(b@, i as int) == digits_end(b@, j as int),
            forall|k: int| i <= k < j ==> is_digit(#[trigger] b@[k]),
        decreases n - j,
    {
        j += 1;
    }
    assert forall|k: int| 0 <= k < j - i implies is_digit(
        #[trigger] b@.subrange(i as int, j as int)[k],
    ) by {
        assert(is_digit(b@[i + k]));
    }
    j
}

/// Appends `b[lo..hi]` to `out`.
fn copy_range(out: &mut Vec<u8>, b: &[u8], lo: usize, hi: usize)
    requires
        lo <= hi <= b@.len(),
    ensures
        final(out)@ == old(out)@ + b@.subrange(lo as int, hi as int),
{
    let mut k: usize = lo;
    while k < hi
        invariant
            lo <= k <= hi <= b@.len(),
            out@ == old(out)@ + b@.subrange(lo as int, k as int),
        decreases hi - k,
    {
        out.push(b[k]);
        k += 1;
        assert(out@ =~= old(out)@ + b@.subrange(lo as int, k as int));
    }
    assert(out@ =~= old(out)@ + b@.subrange(lo as int, hi as int));
}

fn hex_of(c: u8) -> (r: Option<u32>)
    ensures
        match r {
            Some(v) => hex_value(c) == v && v < 16,
            None => hex_value(c) == -1,
        },
{
    if 0x30 <= c && c <= 0x39 {
        Some((c - 0x30) as u32)
    } else if 0x61 <= c && c <= 0x66 {
        Some((c - 0x57) as u32)
    } else if 0x41 <= c && c <= 0x46 {
        Some((c - 0x37) as u32)
    } else {
        None
    }
}

/// The number that the four hexadecimal digits at `i` spell.
fn read_hex4(b: &[u8], i: usize) -> (r: Option<u32>)
    requires
        i <= b@.len(),
    ensures
        match r {
            Some(v) => hex4(b@, i as int) == v && v <= 0xFFFF,
            None => hex4(b@, i as int) == -1,
        },
{
    if b.len() - i < 4 {
        return None;
    }
    match (hex_of(b[i]), hex_of(b[i + 1]), hex_of(b[i + 2]), hex_of(b[i + 3])) {
        (Some(h0), Some(h1), Some(h2), Some(h3)) => Some(((h0 * 16 + h1) * 16 + h2) * 16 + h3),
        _ => None,
    }
}

/// Appends the UTF-8 encoding of a Unicode scalar value.
fn push_scalar(out: &mut Vec<u8>, c: u32)
    requires
        is_scalar(c),
    ensures
        final(out)@ == old(out)@ + encode_scalar(c),
{
    if c <= 0x7F {
        assert(c & 0x7F <= 0x7F) by (bit_vector);
        out.push((c & 0x7F) as u8);
    } else if c <= 0x7FF {
        assert((c >> 6) & 0x1F <= 0x1F) by (bit_vector);
        assert(c & 0x3F <= 0x3F) by (bit_vector);
        out.push(0xC0 | ((c >> 6) & 0x1F) as u8);
        out.push(0x80 | (c & 0x3F) as u8);
    } else if c <= 0xFFFF {
        assert((c >> 12) & 0x0F <= 0x0F) by (bit_vector);
        assert((c >> 6) & 0x3F <= 0x3F) by (bit_vector);
        assert(c & 0x3F <= 0x3F) by (bit_vector);
        out.push(0xE0 | ((c >> 12) & 0x0F) as u8);
        out.push(0x80 | ((c >> 6) & 0x3F) as u8);
        out.push(0x80 | (c & 0x3F) as u8);
    } else {
        assert((c >> 18) & 0x7 <= 0x7) by (bit_vector);
        assert((c >> 12) & 0x3F <= 0x3F) by (bit_vector);
        assert((c >> 6) & 0x3F <= 0x3F) by (bit_vector);
        assert(c & 0x3F <= 0x3F) by (bit_vector);
        out.push(0xF0 | ((c >> 18) & 0x7) as u8);
        out.push(0x80 | ((c >> 12) & 0x3F) as u8);
        out.push(0x80 | ((c >> 6) & 0x3F) as u8);
        out.push(0x80 | (c & 0x3F) as u8);
    }
    assert(final(out)@ =~= old(out)@ + encode_scalar(c));
}

/// Reads the escape whose backslash is at `i`, appends what it stands for and
/// gives its length.
fn read_escape(b: &[u8], i: usize, out: &mut Vec<u8>) -> (r: Option<usize>)
    requires
        i < b@.len(),
    ensures
        match escape_at(b@, i as int) {
            Some((bytes, used)) => r == Some(used as usize) && final(out)@ == old(out)@ + bytes
                && 2 <= used && i + used <= b@.len(),
            None => r is None,
        },
{
    proof {
        reveal(escape_at);
    }
    let n = b.len();
    if n - i < 2 {
        return None;
    }
    let c = b[i + 1];
    if c == 0x22 || c == 0x5C || c == 0x2F {
        out.push(c);
        Some(2)
    } else if c == 0x62 {
        out.push(0x08);
        Some(2)
    } else if c == 0x66 {
        out.push(0x0C);
        Some(2)
    } else if c == 0x6E {
        out.push(0x0A);
        Some(2)
    } else if c == 0x72 {
        out.push(0x0D);
        Some(2)
    } else if c == 0x74 {
        out.push(0x09);
        Some(2)
    } else if c == 0x75 {
        match read_hex4(b, i + 2) {
            None => None,
            Some(hi) => {
                if 0xDC00 <= hi && hi <= 0xDFFF {
                    None
                } else if 0xD800 <= hi && hi <= 0xDBFF {
                    if n - i < 8 {
                        return None;
                    }
                    if b[i + 6] != 0x5C || b[i + 7] != 0x75 {
                        return None;
                    }
                    match read_hex4(b, i + 8) {
                        None => None,
                        Some(lo) => {
                            if 0xDC00 <= lo && lo <= 0xDFFF {
                                push_scalar(out, 0x10000 + (hi - 0xD800) * 0x400 + (lo - 0xDC00));
                                Some(12)
                            } else {
                                None
                            }
                        },
                    }
                } else {
                    push_scalar(out, hi);
                    Some(6)
                }
            },
        }
    } else {
        None
    }
}

/// Reads the string whose opening quote is at `i`.
pub fn read_string(b: &[u8], i: usize) -> (r: Result<(String, usize), errorJson>)
    requires
        i < b@.len(),
    ensures
        match string_at(b@, i as int) {
            Ok((s, j)) => r matches Ok((text, end)) && text@ == s && end == j && i < j
                <= b@.len(),
            Err(e) => r == Err::<(String, usize), errorJson>(e),
        },
{
    let n = b.len();
    let mut acc: Vec<u8> = Vec::new();
    let mut pos: usize = i + 1;
    loop
        invariant
            i < pos <= n,
            n == b@.len(),
            string_body(b@, i + 1, Seq::empty()) == string_body(b@, pos as int, acc@),
        decreases n - pos,
    {
        if pos >= n {
            return Err(errorJson { errPos: n, reson: errJsonReson::JET_NoStrEnd });
        }
        let c = b[pos];
        if c == 0x22 {
            match string_from_utf8(acc) {
                Some(text) => {
                    return Ok((text, pos + 1));
                },
                None => {
                    return Err(errorJson { errPos: i, reson: errJsonReson::JET_Invalidate });
                },
            }
        } else if c == 0x5C {
            match read_escape(b, pos, &mut acc) {
                Some(used) => {
                    pos = pos + used;
                },
                None => {
                    return Err(errorJson { errPos: pos, reson: errJsonReson::JET_Invalidate });
                },
            }
        } else {
            acc.push(c);
            pos += 1;
        }
    }
}

/// Makes the double `digits * 10^exponent` from the digit runs of a literal.
fn make_double(
    b: &[u8],
    negative: bool,
    int_from: usize,
    int_to: usize,
    frac_from: usize,
    frac_to: usize,
    exponent: i32,
) -> (r: DxValue)
    requires
        int_from <= int_to <= b@.len(),
        frac_from <= frac_to <= b@.len(),
        all_digits(b@.subrange(int_from as int, int_to as int)),
        all_digits(b@.subrange(frac_from as int, frac_to as int)),
        -EXPONENT_LIMIT <= exponent <= EXPONENT_LIMIT,
    ensures
        r@ == Node::Double(
            DecimalModel {
                negative,
                coefficient: digits_value(
                    b@.subrange(int_from as int, int_to as int) + b@.subrange(
                        frac_from as int,
                        frac_to as int,
                    ),
                ),
                exponent: exponent as int,
            },
        ),
{
    let mut digits: Vec<u8> = Vec::new();
    copy_range(&mut digits, b, int_from, int_to);
    copy_range(&mut digits, b, frac_from, frac_to);
    proof {
        let whole = b@.subrange(int_from as int, int_to as int);
        let part = b@.subrange(frac_from as int, frac_to as int);
        assert(digits@ =~= whole + part);
        assert forall|k: int| 0 <= k < digits@.len() implies is_digit(#[trigger] digits@[k]) by {
            if k < whole.len() {
                assert(digits@[k] == whole[k]);
            } else {
                assert(digits@[k] == part[k - whole.len()]);
            }
        }
    }
    match Decimal::new(negative, digits, exponent) {
        Some(d) => DxValue::Double(d),
        None => DxValue::Null,
    }
}

/// Reads the number that begins at `i`.
pub fn read_number(b: &[u8], i: usize) -> (r: Result<(DxValue, usize), errorJson>)
    requires
        i < b@.len(),
        b@[i as int] == 0x2D || is_digit(b@[i as int]),
    ensures
        match number_at(b@, i as int) {
            Ok((node, j)) => r matches Ok((v, end)) && v@ == node && end == j && i < j
                <= b@.len(),
            Err(e) => r == Err::<(DxValue, usize), errorJson>(e),
        },
{
    proof {
        reveal(number_at);
    }
    let n = b.len();
    let ghost shape = number_shape(b@, i as int);
    let negative = b[i] == 0x2D;
    let int_from: usize = if negative {
        i + 1
    } else {
        i
    };
    let int_to = scan_digits(b, int_from);
    if int_to == int_from {
        return Err(errorJson { errPos: int_from, reson: errJsonReson::JET_Invalidate });
    }
    let has_fraction = int_to < n && b[int_to] == 0x2E;
    let frac_from: usize = if has_fraction {
        int_to + 1
    } else {
        int_to
    };
    let frac_to = scan_digits(b, frac_from);
    if has_fraction && frac_to == frac_from {
        return Err(errorJson { errPos: frac_from, reson: errJsonReson::JET_Invalidate });
    }
    let has_exponent = frac_to < n && (b[frac_to] == 0x65 || b[frac_to] == 0x45);
    let mut exponent_negative = false;
    let mut exp_from: usize = frac_to;
    if has_exponent {
        let sign_at = frac_to + 1;
        if sign_at < n && (b[sign_at] == 0x2B || b[sign_at] == 0x2D) {
            exponent_negative = b[sign_at] == 0x2D;
            exp_from = sign_at + 1;
        } else {
            exp_from = sign_at;
        }
    }
    let exp_to = scan_digits(b, exp_from);
    if has_exponent && exp_to == exp_from {
        return Err(errorJson { errPos: exp_from, reson: errJsonReson::JET_Invalidate });
    }
    assert(shape.negative == negative && shape.int_from == int_from && shape.int_to == int_to
        && shape.has_fraction == has_fraction && shape.frac_from == frac_from && shape.frac_to
        == frac_to && shape.has_exponent == has_exponent && shape.exponent_negative
        == exponent_negative && shape.exp_from == exp_from && shape.exp_to == exp_to);
    if !has_fraction && !has_exponent {
        let ghost whole = b@.subrange(int_from as int, int_to as int);
        proof {
            assert(b@.subrange(frac_from as int, frac_to as int) =~= Seq::<u8>::empty());
            assert(whole + b@.subrange(frac_from as int, frac_to as int) =~= whole);
        }
        match digits_to_u128(b, int_from, int_to) {
            Some(v) => {
                if negative {
                    if v <= isize::MAX as u128 {
                        return Ok((DxValue::Int(-(v as isize)), int_to));
                    } else if v == isize::MAX as u128 + 1 {
                        return Ok((DxValue::Int(isize::MIN), int_to));
                    } else if v <= i64::MAX as u128 {
                        return Ok((DxValue::Int64(-(v as i64)), int_to));
                    } else if v == i64::MAX as u128 + 1 {
                        return Ok((DxValue::Int64(i64::MIN), int_to));
                    }
                } else {
                    if v <= isize::MAX as u128 {
                        return Ok((DxValue::Int(v as isize), int_to));
                    } else if v <= i64::MAX as u128 {
                        return Ok((DxValue::Int64(v as i64), int_to));
                    }
                }
            },
            None => {},
        }
        Ok((make_double(b, negative, int_from, int_to, frac_from, frac_to, 0), int_to))
    } else {
        let frac_len: usize = frac_to - frac_from;
        let ghost written = digits_value(b@.subrange(exp_from as int, exp_to as int));
        let exponent: i128 = match digits_to_u128(b, exp_from, exp_to) {
            None => {
                return Err(errorJson { errPos: i, reson: errJsonReson::JET_Invalidate });
            },
            Some(w) => {
                if w > 0x1_0000_0000_0000_0000_0000 {
                    return Err(errorJson { errPos: i, reson: errJsonReson::JET_Invalidate });
                }
                if exponent_negative {
                    -(w as i128) - (frac_len as i128)
                } else {
                    (w as i128) - (frac_len as i128)
                }
            },
        };
        if exponent < -(EXPONENT_LIMIT as i128) || exponent > EXPONENT_LIMIT as i128 {
            return Err(errorJson { errPos: i, reson: errJsonReson::JET_Invalidate });
        }
        Ok((make_double(b, negative, int_from, int_to, frac_from, frac_to, exponent as i32), exp_to))
    }
}

/// Tells whether the four bytes stand at `i`.
fn word4_at(b: &[u8], i: usize, c0: u8, c1: u8, c2: u8, c3: u8) -> (r: bool)
    requires
        i <= b@.len(),
    ensures
        r == has_at(b@, i as int, seq![c0, c1, c2, c3]),
{
    if b.len() - i < 4 {
        return false;
    }
    let r = b[i] == c0 && b[i + 1] == c1 && b[i + 2] == c2 && b[i + 3] == c3;
    proof {
        let t = seq![c0, c1, c2, c3];
        let w = b@.subrange(i as int, i + 4);
        if r {
            assert(w =~= t);
        } else {
            assert(w[0] == b@[i as int] && w[1] == b@[i + 1] && w[2] == b@[i + 2] && w[3] == b@[i
                + 3]);
        }
    }
    r
}

/// Tells whether `false` stands at `i`.
fn false_at(b: &[u8], i: usize) -> (r: bool)
    requires
        i <= b@.len(),
    ensures
        r == has_at(b@, i as int, false_text()),
{
    if b.len() - i < 5 {
        return false;
    }
    let r = b[i] == 0x66 && b[i + 1] == 0x61 && b[i + 2] == 0x6C && b[i + 3] == 0x73 && b[i + 4]
        == 0x65;
    proof {
        let w = b@.subrange(i as int, i + 5);
        if r {
            assert(w =~= false_text());
        } else {
            assert(w[0] == b@[i as int] && w[1] == b@[i + 1] && w[2] == b@[i + 2] && w[3] == b@[i
                + 3] && w[4] == b@[i + 4]);
        }
    }
    r
}

/// Reads the members of an object from the one whose key should begin at
/// `first` to the closing `}`.
fn read_members(b: &[u8], first: usize) -> (r: Result<(DxValue, usize), errorJson>)
    requires
        first < b@.len(),
    ensures
        match members_at(b@, first as int, Seq::empty()) {
            Ok((node, j)) => r matches Ok((v, end)) && v@ == node && end == j && first < j
                <= b@.len(),
            Err(e) => r == Err::<(DxValue, usize), errorJson>(e),
        },
    decreases b@.len() - first, 1int,
{
    let n = b.len();
    let mut slots: Slots<Key_Value> = Slots::new();
    let ghost mut acc: Seq<(Seq<char>, Node)> = Seq::empty();
    let mut j: usize = first;
    loop
        invariant
            first <= j < n,
            n == b@.len(),
            slots.shared_views() == 0,
            acc.len() == slots@.len(),
            forall|k: int| 0 <= k < acc.len() ==> acc[k] == (slots@[k].Key@, slots@[k].Value@),
            members_at(b@, first as int, Seq::empty()) == members_at(b@, j as int, acc),
        decreases n - j,
    {
        if b[j] != 0x22 {
            return Err(errorJson { errPos: j, reson: errJsonReson::JET_NoKeyStart });
        }
        let (key, after_key) = match read_string(b, j) {
            Ok(found) => found,
            Err(e) => {
                return Err(e);
            },
        };
        let colon = skip_white(b, after_key);
        if colon >= n {
            return Err(errorJson { errPos: n, reson: errJsonReson::JET_NoObjBack });
        }
        if b[colon] != 0x3A {
            return Err(errorJson { errPos: colon, reson: errJsonReson::JET_NoKVSplit });
        }
        let at = skip_white(b, colon + 1);
        if at >= n {
            return Err(errorJson { errPos: n, reson: errJsonReson::JET_NoObjBack });
        }
        let (value, after_value) = match parse_value(b, at) {
            Ok(found) => found,
            Err(e) => {
                return Err(e);
            },
        };
        let next = skip_white(b, after_value);
        if next >= n {
            return Err(errorJson { errPos: n, reson: errJsonReson::JET_NoObjBack });
        }
        proof {
            acc = acc.push((key@, value@));
        }
        let _ = slots.push(Key_Value { Key: key, Value: value });
        if b[next] == 0x7D {
            let v = DxValue::Object(slots);
            assert(v@->Object_0 =~= acc);
            return Ok((v, next + 1));
        } else if b[next] == 0x2C {
            let more = skip_white(b, next + 1);
            if more >= n {
                return Err(errorJson { errPos: n, reson: errJsonReson::JET_NoObjBack });
            }
            j = more;
        } else {
            return Err(errorJson { errPos: next, reson: errJsonReson::JET_NoValueSplit });
        }
    }
}

/// Reads the elements of an array from the one that should begin at `first`
/// to the closing `]`.
fn read_elements(b: &[u8], first: usize) -> (r: Result<(DxValue, usize), errorJson>)
    requires
        first < b@.len(),
    ensures
        match elements_at(b@, first as int, Seq::empty()) {
            Ok((node, j)) => r matches Ok((v, end)) && v@ == node && end == j && first < j
                <= b@.len(),
            Err(e) => r == Err::<(DxValue, usize), errorJson>(e),
        },
    decreases b@.len() - first, 1int,
{
    let n = b.len();
    let mut slots: Slots<DxValue> = Slots::new();
    let ghost mut acc: Seq<Node> = Seq::empty();
    let mut j: usize = first;
    loop
        invariant
            first <= j < n,
            n == b@.len(),
            slots.shared_views() == 0,
            acc.len() == slots@.len(),
            forall|k: int| 0 <= k < acc.len() ==> acc[k] == slots@[k]@,
            elements_at(b@, first as int, Seq::empty()) == elements_at(b@, j as int, acc),
        decreases n - j,
    {
        let (value, after_value) = match parse_value(b, j) {
            Ok(found) => found,
            Err(e) => {
                return Err(e);
            },
        };
        let next = skip_white(b, after_value);
        if next >= n {
            return Err(errorJson { errPos: n, reson: errJsonReson::JET_NoArrBack });
        }
        proof {
            acc = acc.push(value@);
        }
        let _ = slots.push(value);
        if b[next] == 0x5D {
            let v = DxValue::Array(slots);
            assert(v@->Array_0 =~= acc);
            return Ok((v, next + 1));
        } else if b[next] == 0x2C {
            let more = skip_white(b, next + 1);
            if more >= n {
                return Err(errorJson { errPos: n, reson: errJsonReson::JET_NoArrBack });
            }
            j = more;
        } else {
            return Err(errorJson { errPos: next, reson: errJsonReson::JET_NoValueSplit });
        }
    }
}

/// Reads the value whose first byte is at `i`.
#[verifier::rlimit(100)]
pub fn parse_value(b: &[u8], i: usize) -> (r: Result<(DxValue, usize), errorJson>)
    requires
        i < b@.len(),
    ensures
        match value_at(b@, i as int) {
            Ok((node, j)) => r matches Ok((v, end)) && v@ == node && end == j && i < j
                <= b@.len(),
            Err(e) => r == Err::<(DxValue, usize), errorJson>(e),
        },
    decreases b@.len() - i, 0int,
{
    let n = b.len();
    let c = b[i];
    if c == 0x7B {
        let first = skip_white(b, i + 1);
        if first >= n {
            return Err(errorJson { errPos: n, reson: errJsonReson::JET_NoObjBack });
        }
        if b[first] == 0x7D {
            let v = DxValue::Object(Slots::new());
            assert(v@->Object_0 =~= Seq::empty());
            return Ok((v, first + 1));
        }
        read_members(b, first)
    } else if c == 0x5B {
        let first = skip_white(b, i + 1);
        if first >= n {
            return Err(errorJson { errPos: n, reson: errJsonReson::JET_NoArrBack });
        }
        if b[first] == 0x5D {
            let v = DxValue::Array(Slots::new());
            assert(v@->Array_0 =~= Seq::empty());
            return Ok((v, first + 1));
        }
        read_elements(b, first)
    } else if c == 0x22 {
        match read_string(b, i) {
            Ok((text, end)) => Ok((DxValue::String(text), end)),
            Err(e) => Err(e),
        }
    } else if c == 0x2D || (0x30 <= c && c <= 0x39) {
        read_number(b, i)
    } else if c == 0x74 {
        if word4_at(b, i, 0x74, 0x72, 0x75, 0x65) {
            Ok((DxValue::Boolean(true), i + 4))
        } else {
            Err(errorJson { errPos: i, reson: errJsonReson::JET_Invalidate })
        }
    } else if c == 0x66 {
        if false_at(b, i) {
            Ok((DxValue::Boolean(false), i + 5))
        } else {
            Err(errorJson { errPos: i, reson: errJsonReson::JET_Invalidate })
        }
    } else if c == 0x6E {
        if word4_at(b, i, 0x6E, 0x75, 0x6C, 0x6C) {
            Ok((DxValue::Null, i + 4))
        } else {
            Err(errorJson { errPos: i, reson: errJsonReson::JET_Invalidate })
        }
    } else if (0x41 <= c && c <= 0x5A) || (0x61 <= c && c <= 0x7A) {
        Err(errorJson { errPos: i, reson: errJsonReson::JET_NoStrStart })
    } else {
        Err(errorJson { errPos: i, reson: errJsonReson::JET_Invalidate })
    }
}

} // verus!
