//! Writing a tree and reading the text back.

use vstd::prelude::*;
use vstd::utf8::*;
use crate::dxvalue::decimal::{
    fixed2_text, hundredths, lemma_digits_split, two_digits, DecimalModel,
};
use crate::dxvalue::json::{
    digits_end, elements_at, elements_bytes, errorJson, escape_at, escape_byte, escape_bytes,
    has_at, has_bom, hex4, hex_digit, hex_value, json_bytes, members_at, members_bytes, number_at,
    number_shape, parse_text, quoted, skip_ws, string_at, string_body, value_at,
};
use crate::dxvalue::text::{
    all_digits, digits_value, int_text, is_digit, lemma_nat_digits, nat_digits, pow10,
};
use crate::dxvalue::Node;

verus! {

/// What reading back the text of a tree gives: the same tree, but with every
/// integer in the narrowest of the two widths that the reader uses, and every
/// floating-point number rounded to hundredths.
pub open spec fn canonical(n: Node) -> Node
    decreases n,
{
    match n {
        Node::Object(m) => Node::Object(
            Seq::new(
                m.len(),
                |i: int|
                    if 0 <= i < m.len() {
                        (m[i].0, canonical(m[i].1))
                    } else {
                        (Seq::<char>::empty(), Node::Null)
                    },
            ),
        ),
        Node::Array(a) => Node::Array(
            Seq::new(
                a.len(),
                |i: int|
                    if 0 <= i < a.len() {
                        canonical(a[i])
                    } else {
                        Node::Null
                    },
            ),
        ),
        Node::Int32(v) => Node::Int(v as isize),
        Node::Int64(v) => if isize::MIN <= v <= isize::MAX {
            Node::Int(v as isize)
        } else {
            Node::Int64(v)
        },
        Node::Float(d) => Node::Double(rounded(d)),
        Node::Double(d) => Node::Double(rounded(d)),
        _ => n,
    }
}

/// A number rounded to hundredths, half to even.
pub open spec fn rounded(d: DecimalModel) -> DecimalModel {
    DecimalModel { negative: d.negative, coefficient: hundredths(d), exponent: -2 }
}

/// No digit, point or exponent mark stands at `j`: a number that ends before
/// `j` ends there. So it is at the end of the text and before `,`, `]`, `}`.
pub open spec fn token_ends(b: Seq<u8>, j: int) -> bool {
    j >= b.len() || b[j] == 0x2C || b[j] == 0x5D || b[j] == 0x7D
}

/// A text that stands at `i` in two parts has the first part at `i` and the
/// second right behind it.
pub proof fn lemma_has_at_split(b: Seq<u8>, i: int, x: Seq<u8>, y: Seq<u8>)
    requires
        has_at(b, i, x + y),
    ensures
        has_at(b, i, x),
        has_at(b, i + x.len(), y),
{
    let w = b.subrange(i, i + (x + y).len());
    assert(b.subrange(i, i + x.len()) =~= x) by {
        assert forall|k: int| 0 <= k < x.len() implies b.subrange(i, i + x.len())[k] == x[k] by {
            assert(w[k] == (x + y)[k]);
        }
    }
    assert(b.subrange(i + x.len(), i + x.len() + y.len()) =~= y) by {
        assert forall|k: int| 0 <= k < y.len() implies b.subrange(
            i + x.len(),
            i + x.len() + y.len(),
        )[k] == y[k] by {
            assert(w[x.len() + k] == (x + y)[x.len() + k]);
        }
    }
}

/// Each byte of a text that stands at `i` is found at its place in the buffer.
pub proof fn lemma_has_at_byte(b: Seq<u8>, i: int, t: Seq<u8>, k: int)
    requires
        has_at(b, i, t),
        0 <= k < t.len(),
    ensures
        b[i + k] == t[k],
{
    assert(b.subrange(i, i + t.len())[k] == t[k]);
}

/// A run of digits that is followed by no digit ends where it ends.
pub proof fn lemma_digits_end(b: Seq<u8>, s: int, d: Seq<u8>)
    requires
        has_at(b, s, d),
        all_digits(d),
        s + d.len() >= b.len() || !is_digit(b[s + d.len()]),
    ensures
        digits_end(b, s) == s + d.len(),
    decreases d.len(),
{
    if d.len() > 0 {
        lemma_has_at_byte(b, s, d, 0);
        assert(is_digit(d[0]));
        let rest = d.drop_first();
        assert(seq![d[0]] + rest =~= d);
        lemma_has_at_split(b, s, seq![d[0]], rest);
        assert forall|k: int| 0 <= k < rest.len() implies is_digit(#[trigger] rest[k]) by {
            assert(rest[k] == d[k + 1]);
        }
        lemma_digits_end(b, s + 1, rest);
    }
}

/// The text of an integer reads back as that integer.
pub proof fn lemma_integer_reads_back(b: Seq<u8>, i: int, v: int)
    requires
        has_at(b, i, int_text(v)),
        token_ends(b, i + int_text(v).len()),
        i64::MIN <= v <= i64::MAX,
    ensures
        number_at(b, i) == Ok::<(Node, int), errorJson>(
            (
                if isize::MIN <= v <= isize::MAX {
                    Node::Int(v as isize)
                } else {
                    Node::Int64(v as i64)
                },
                i + int_text(v).len(),
            ),
        ),
        b[i] == 0x2D || is_digit(b[i]),
{
    reveal(number_at);
    let mag = (if v < 0 {
        -v
    } else {
        v
    }) as nat;
    let d = nat_digits(mag);
    lemma_nat_digits(mag);
    let t = int_text(v);
    let s = if v < 0 {
        i + 1
    } else {
        i
    };
    if v < 0 {
        lemma_has_at_split(b, i, seq![0x2Du8], d);
        lemma_has_at_byte(b, i, seq![0x2Du8], 0);
    } else {
        lemma_has_at_byte(b, i, d, 0);
        assert(is_digit(d[0]));
    }
    let e = s + d.len();
    assert(e == i + t.len());
    lemma_digits_end(b, s, d);
    let shape = number_shape(b, i);
    assert(shape.negative == (v < 0));
    assert(shape.int_from == s);
    assert(shape.int_to == e);
    assert(!shape.has_fraction);
    assert(shape.frac_from == e);
    assert(digits_end(b, e) == e);
    assert(shape.frac_to == e);
    assert(!shape.has_exponent);
    assert(b.subrange(s, e) == d);
}

/// The text with two decimals reads back as the number rounded to hundredths.
pub proof fn lemma_fixed2_reads_back(b: Seq<u8>, i: int, m: DecimalModel)
    requires
        has_at(b, i, fixed2_text(m)),
        token_ends(b, i + fixed2_text(m).len()),
    ensures
        number_at(b, i) == Ok::<(Node, int), errorJson>(
            (Node::Double(rounded(m)), i + fixed2_text(m).len()),
        ),
        b[i] == 0x2D || is_digit(b[i]),
{
    reveal(number_at);
    let q = hundredths(m);
    let whole = nat_digits(q / 100);
    let cents = two_digits(q % 100);
    lemma_nat_digits(q / 100);
    let sign = if m.negative {
        seq![0x2Du8]
    } else {
        Seq::<u8>::empty()
    };
    let t = fixed2_text(m);
    assert(t == sign + whole + seq![0x2Eu8] + cents);
    assert(t =~= sign + (whole + (seq![0x2Eu8] + cents)));
    let s = i + sign.len();
    lemma_has_at_split(b, i, sign, whole + (seq![0x2Eu8] + cents));
    lemma_has_at_split(b, s, whole, seq![0x2Eu8] + cents);
    let p = s + whole.len();
    lemma_has_at_split(b, p, seq![0x2Eu8], cents);
    lemma_has_at_byte(b, p, seq![0x2Eu8], 0);
    lemma_has_at_byte(b, s, whole, 0);
    assert(is_digit(whole[0]));
    if m.negative {
        lemma_has_at_byte(b, i, sign, 0);
    }
    lemma_digits_end(b, s, whole);
    assert(all_digits(cents));
    let e = p + 3;
    assert(e == i + t.len());
    lemma_digits_end(b, p + 1, cents);
    let shape = number_shape(b, i);
    assert(shape.negative == m.negative);
    assert(shape.int_from == s);
    assert(shape.int_to == p);
    assert(shape.has_fraction);
    assert(shape.frac_from == p + 1);
    assert(shape.frac_to == e);
    assert(!shape.has_exponent);
    assert(shape.exp_from == e);
    assert(digits_end(b, e) == e);
    assert(shape.exp_to == e);
    assert(b.subrange(e, e) =~= Seq::<u8>::empty());
    assert(digits_value(b.subrange(e, e)) == 0);
    assert(b.subrange(s, p) == whole);
    assert(b.subrange(p + 1, e) == cents);
    // the digits before and after the point spell the hundredths
    let all = whole + cents;
    assert forall|k: int| 0 <= k < all.len() implies is_digit(#[trigger] all[k]) by {
        if k < whole.len() {
            assert(all[k] == whole[k]);
        } else {
            assert(all[k] == cents[k - whole.len()]);
        }
    }
    lemma_digits_split(all, whole.len() as int);
    assert(all.take(whole.len() as int) =~= whole);
    assert(all.skip(whole.len() as int) =~= cents);
    assert(pow10(2) == 100) by {
        assert(pow10(1) == 10 * pow10(0));
        assert(pow10(2) == 10 * pow10(1));
    }
    assert(cents.drop_last() =~= seq![cents[0]]);
    assert(seq![cents[0]].drop_last() =~= Seq::<u8>::empty());
    assert(digits_value(Seq::<u8>::empty()) == 0);
    assert(digits_value(seq![cents[0]]) == (cents[0] - 0x30) as nat);
    assert(digits_value(cents) == q % 100);
    assert(digits_value(whole) == q / 100);
    assert(all.len() - whole.len() == 2);
    assert(q == (q / 100) * 100 + q % 100);
    assert(digits_value(all) == q);
}

proof fn lemma_low_scalar(c: u32)
    by (bit_vector)
    requires
        c <= 0x7F,
    ensures
        (c & 0x7F) as u8 == c,
{
}

/// What stands for one byte of a string reads back as that byte.
pub proof fn lemma_escape_reads_back(b: Seq<u8>, j: int, r: u8)
    requires
        has_at(b, j, escape_byte(r)),
    ensures
        escape_byte(r).len() == 1 ==> b[j] == r && r != 0x22 && r != 0x5C,
        escape_byte(r).len() > 1 ==> b[j] == 0x5C && escape_at(b, j) == Some(
            (seq![r], escape_byte(r).len() as int),
        ),
{
    reveal(escape_at);
    let e = escape_byte(r);
    lemma_has_at_byte(b, j, e, 0);
    if e.len() > 1 {
        lemma_has_at_byte(b, j, e, 1);
        if e.len() > 2 {
            lemma_has_at_byte(b, j, e, 2);
            lemma_has_at_byte(b, j, e, 3);
            lemma_has_at_byte(b, j, e, 4);
            lemma_has_at_byte(b, j, e, 5);
            assert(r < 0x20);
            assert(hex_value(hex_digit((r / 16) as nat)) == r / 16);
            assert(hex_value(hex_digit((r % 16) as nat)) == r % 16);
            assert(hex4(b, j + 2) == r);
            lemma_low_scalar(r as u32);
            assert(encode_scalar(r as u32) =~= seq![r]);
        }
    }
}

/// The escaped bytes of a string, up to the closing quote, read back as the bytes.
pub proof fn lemma_body_reads_back(b: Seq<u8>, j: int, raw: Seq<u8>, acc: Seq<u8>)
    requires
        has_at(b, j, escape_bytes(raw) + seq![0x22u8]),
    ensures
        string_body(b, j, acc) == Ok::<(Seq<u8>, int), errorJson>(
            (acc + raw, j + escape_bytes(raw).len() + 1),
        ),
    decreases raw.len(),
{
    if raw.len() == 0 {
        assert(escape_bytes(raw) + seq![0x22u8] =~= seq![0x22u8]);
        lemma_has_at_byte(b, j, seq![0x22u8], 0);
        assert(acc + raw =~= acc);
    } else {
        let r = raw[0];
        let rest = raw.drop_first();
        let e = escape_byte(r);
        assert(escape_bytes(raw) + seq![0x22u8] =~= e + (escape_bytes(rest) + seq![0x22u8]));
        lemma_has_at_split(b, j, e, escape_bytes(rest) + seq![0x22u8]);
        lemma_escape_reads_back(b, j, r);
        if e.len() == 1 {
            lemma_body_reads_back(b, j + 1, rest, acc.push(r));
            assert(acc.push(r) + rest =~= acc + raw);
        } else {
            lemma_body_reads_back(b, j + e.len(), rest, acc + seq![r]);
            assert((acc + seq![r]) + rest =~= acc + raw);
        }
    }
}

/// A quoted string reads back as the string.
pub proof fn lemma_string_reads_back(b: Seq<u8>, i: int, s: Seq<char>)
    requires
        has_at(b, i, quoted(s)),
    ensures
        string_at(b, i) == Ok::<(Seq<char>, int), errorJson>((s, i + quoted(s).len())),
        b[i] == 0x22,
{
    let raw = encode_utf8(s);
    assert(quoted(s) =~= seq![0x22u8] + (escape_bytes(raw) + seq![0x22u8]));
    lemma_has_at_split(b, i, seq![0x22u8], escape_bytes(raw) + seq![0x22u8]);
    lemma_has_at_byte(b, i, seq![0x22u8], 0);
    lemma_body_reads_back(b, i + 1, raw, Seq::empty());
    assert(Seq::<u8>::empty() + raw =~= raw);
    encode_utf8_valid_utf8(s);
    encode_utf8_decode_utf8(s);
}

/// A byte with which the text of a value can begin.
pub open spec fn starts_value(c: u8) -> bool {
    c == 0x7B || c == 0x5B || c == 0x22 || c == 0x2D || is_digit(c) || c == 0x74 || c == 0x66
        || c == 0x6E
}

/// The text of a tree is not empty and begins with a byte that begins a value.
pub proof fn lemma_first_byte(n: Node)
    ensures
        json_bytes(n).len() >= 1,
        starts_value(json_bytes(n)[0]),
{
    match n {
        Node::Int(v) => {
            lemma_int_first(v as int);
        },
        Node::Int32(v) => {
            lemma_int_first(v as int);
        },
        Node::Int64(v) => {
            lemma_int_first(v as int);
        },
        Node::Float(d) => {
            lemma_fixed2_first(d);
        },
        Node::Double(d) => {
            lemma_fixed2_first(d);
        },
        _ => {},
    }
}

proof fn lemma_int_first(v: int)
    ensures
        int_text(v).len() >= 1,
        int_text(v)[0] == 0x2D || is_digit(int_text(v)[0]),
{
    if v >= 0 {
        lemma_nat_digits(v as nat);
        assert(is_digit(nat_digits(v as nat)[0]));
    }
}

proof fn lemma_fixed2_first(m: DecimalModel)
    ensures
        fixed2_text(m).len() >= 1,
        fixed2_text(m)[0] == 0x2D || is_digit(fixed2_text(m)[0]),
{
    let q = hundredths(m);
    lemma_nat_digits(q / 100);
    assert(is_digit(nat_digits(q / 100)[0]));
}

/// The elements of `a` from index `from` on, as they read back.
pub open spec fn canonical_from(a: Seq<Node>, from: int) -> Seq<Node> {
    Seq::new((a.len() - from) as nat, |k: int| canonical(a[from + k]))
}

/// The members of `m` from index `from` on, as they read back.
pub open spec fn canonical_members_from(m: Seq<(Seq<char>, Node)>, from: int) -> Seq<
    (Seq<char>, Node),
> {
    Seq::new((m.len() - from) as nat, |k: int| (m[from + k].0, canonical(m[from + k].1)))
}

/// The text of a tree, wherever it stands in a buffer and ends as a token
/// ends, reads back as the canonical tree.
pub proof fn lemma_value_reads_back(b: Seq<u8>, i: int, n: Node)
    requires
        has_at(b, i, json_bytes(n)),
        token_ends(b, i + json_bytes(n).len()),
    ensures
        value_at(b, i) == Ok::<(Node, int), errorJson>((canonical(n), i + json_bytes(n).len())),
    decreases n, 0int,
{
    let t = json_bytes(n);
    lemma_first_byte(n);
    lemma_has_at_byte(b, i, t, 0);
    match n {
        Node::Object(m) => {
            assert(t =~= seq![0x7Bu8] + (members_bytes(m, 0) + seq![0x7Du8]));
            lemma_has_at_split(b, i, seq![0x7Bu8], members_bytes(m, 0) + seq![0x7Du8]);
            if m.len() == 0 {
                assert(members_bytes(m, 0) + seq![0x7Du8] =~= seq![0x7Du8]);
                lemma_has_at_byte(b, i + 1, seq![0x7Du8], 0);
                assert(skip_ws(b, i + 1) == i + 1);
                assert(canonical(n)->Object_0 =~= Seq::empty());
            } else {
                let rest = quoted(m[0].0) + seq![0x3Au8] + json_bytes(m[0].1) + members_bytes(m, 1)
                    + seq![0x7Du8];
                assert(members_bytes(m, 0) + seq![0x7Du8] =~= rest);
                lemma_has_at_byte(b, i + 1, rest, 0);
                assert(rest[0] == 0x22);
                assert(skip_ws(b, i + 1) == i + 1);
                lemma_members_read_back(b, i + 1, m, 0, Seq::empty());
                assert(Seq::<(Seq<char>, Node)>::empty() + canonical_members_from(m, 0)
                    =~= canonical(n)->Object_0);
            }
        },
        Node::Array(a) => {
            assert(t =~= seq![0x5Bu8] + (elements_bytes(a, 0) + seq![0x5Du8]));
            lemma_has_at_split(b, i, seq![0x5Bu8], elements_bytes(a, 0) + seq![0x5Du8]);
            if a.len() == 0 {
                assert(elements_bytes(a, 0) + seq![0x5Du8] =~= seq![0x5Du8]);
                lemma_has_at_byte(b, i + 1, seq![0x5Du8], 0);
                assert(skip_ws(b, i + 1) == i + 1);
                assert(canonical(n)->Array_0 =~= Seq::empty());
            } else {
                let rest = json_bytes(a[0]) + elements_bytes(a, 1) + seq![0x5Du8];
                assert(elements_bytes(a, 0) + seq![0x5Du8] =~= rest);
                lemma_first_byte(a[0]);
                lemma_has_at_byte(b, i + 1, rest, 0);
                assert(rest[0] == json_bytes(a[0])[0]);
                assert(skip_ws(b, i + 1) == i + 1);
                lemma_elements_read_back(b, i + 1, a, 0, Seq::empty());
                assert(Seq::<Node>::empty() + canonical_from(a, 0) =~= canonical(n)->Array_0);
            }
        },
        Node::String(s) => {
            lemma_string_reads_back(b, i, s);
        },
        Node::Int(v) => {
            lemma_integer_reads_back(b, i, v as int);
        },
        Node::Int32(v) => {
            lemma_integer_reads_back(b, i, v as int);
        },
        Node::Int64(v) => {
            lemma_integer_reads_back(b, i, v as int);
        },
        Node::Float(d) => {
            lemma_fixed2_reads_back(b, i, d);
        },
        Node::Double(d) => {
            lemma_fixed2_reads_back(b, i, d);
        },
        Node::Boolean(v) => {},
        Node::Null => {},
    }
}

/// The members of an object from index `from` on, up to the closing `}`,
/// read back as the canonical members.
pub proof fn lemma_members_read_back(
    b: Seq<u8>,
    j: int,
    m: Seq<(Seq<char>, Node)>,
    from: int,
    acc: Seq<(Seq<char>, Node)>,
)
    requires
        0 <= from < m.len(),
        has_at(
            b,
            j,
            quoted(m[from].0) + seq![0x3Au8] + json_bytes(m[from].1) + members_bytes(m, from + 1)
                + seq![0x7Du8],
        ),
    ensures
        members_at(b, j, acc) == Ok::<(Node, int), errorJson>(
            (
                Node::Object(acc + canonical_members_from(m, from)),
                j + (quoted(m[from].0) + seq![0x3Au8] + json_bytes(m[from].1) + members_bytes(
                    m,
                    from + 1,
                ) + seq![0x7Du8]).len(),
            ),
        ),
    decreases m, m.len() - from,
{
    let key = quoted(m[from].0);
    let val = json_bytes(m[from].1);
    let more = members_bytes(m, from + 1) + seq![0x7Du8];
    let t = key + seq![0x3Au8] + val + members_bytes(m, from + 1) + seq![0x7Du8];
    assert(t =~= key + (seq![0x3Au8] + (val + more)));
    lemma_has_at_split(b, j, key, seq![0x3Au8] + (val + more));
    let colon = j + key.len();
    lemma_has_at_split(b, colon, seq![0x3Au8], val + more);
    lemma_has_at_byte(b, colon, seq![0x3Au8], 0);
    let at = colon + 1;
    lemma_has_at_split(b, at, val, more);
    let after = at + val.len();
    lemma_string_reads_back(b, j, m[from].0);
    assert(skip_ws(b, colon) == colon);
    lemma_first_byte(m[from].1);
    lemma_has_at_byte(b, at, val, 0);
    assert(skip_ws(b, at) == at);
    lemma_has_at_byte(b, after, more, 0);
    let grown = acc.push((m[from].0, canonical(m[from].1)));
    if from + 1 == m.len() {
        assert(more =~= seq![0x7Du8]);
        lemma_value_reads_back(b, at, m[from].1);
        assert(skip_ws(b, after) == after);
        assert(grown =~= acc + canonical_members_from(m, from));
    } else {
        let next = quoted(m[from + 1].0) + seq![0x3Au8] + json_bytes(m[from + 1].1)
            + members_bytes(m, from + 2) + seq![0x7Du8];
        assert(more =~= seq![0x2Cu8] + next);
        assert(more[0] == 0x2C);
        lemma_value_reads_back(b, at, m[from].1);
        assert(skip_ws(b, after) == after);
        lemma_has_at_split(b, after, seq![0x2Cu8], next);
        lemma_has_at_byte(b, after + 1, next, 0);
        assert(next[0] == 0x22);
        assert(skip_ws(b, after + 1) == after + 1);
        lemma_members_read_back(b, after + 1, m, from + 1, grown);
        assert(grown + canonical_members_from(m, from + 1) =~= acc + canonical_members_from(
            m,
            from,
        ));
    }
}

/// The elements of an array from index `from` on, up to the closing `]`,
/// read back as the canonical elements.
pub proof fn lemma_elements_read_back(
    b: Seq<u8>,
    j: int,
    a: Seq<Node>,
    from: int,
    acc: Seq<Node>,
)
    requires
        0 <= from < a.len(),
        has_at(b, j, json_bytes(a[from]) + elements_bytes(a, from + 1) + seq![0x5Du8]),
    ensures
        elements_at(b, j, acc) == Ok::<(Node, int), errorJson>(
            (
                Node::Array(acc + canonical_from(a, from)),
                j + (json_bytes(a[from]) + elements_bytes(a, from + 1) + seq![0x5Du8]).len(),
            ),
        ),
    decreases a, a.len() - from,
{
    let val = json_bytes(a[from]);
    let more = elements_bytes(a, from + 1) + seq![0x5Du8];
    assert(val + elements_bytes(a, from + 1) + seq![0x5Du8] =~= val + more);
    lemma_has_at_split(b, j, val, more);
    let after = j + val.len();
    lemma_first_byte(a[from]);
    lemma_has_at_byte(b, after, more, 0);
    let grown = acc.push(canonical(a[from]));
    if from + 1 == a.len() {
        assert(more =~= seq![0x5Du8]);
        lemma_value_reads_back(b, j, a[from]);
        assert(skip_ws(b, after) == after);
        assert(grown =~= acc + canonical_from(a, from));
    } else {
        let next = json_bytes(a[from + 1]) + elements_bytes(a, from + 2) + seq![0x5Du8];
        assert(more =~= seq![0x2Cu8] + next);
        assert(more[0] == 0x2C);
        lemma_value_reads_back(b, j, a[from]);
        assert(skip_ws(b, after) == after);
        lemma_has_at_split(b, after, seq![0x2Cu8], next);
        lemma_first_byte(a[from + 1]);
        lemma_has_at_byte(b, after + 1, next, 0);
        assert(next[0] == json_bytes(a[from + 1])[0]);
        assert(skip_ws(b, after + 1) == after + 1);
        lemma_elements_read_back(b, after + 1, a, from + 1, grown);
        assert(grown + canonical_from(a, from + 1) =~= acc + canonical_from(a, from));
    }
}

/// Reading the text that the writer makes of a tree gives the tree back:
/// exactly but for the widths of its integers and for its floating-point
/// numbers, which come back rounded to hundredths.
pub proof fn law_write_then_read(n: Node)
    ensures
        parse_text(json_bytes(n)) == Ok::<Node, errorJson>(canonical(n)),
{
    let b = json_bytes(n);
    lemma_first_byte(n);
    assert(b.subrange(0, b.len() as int) =~= b);
    lemma_value_reads_back(b, 0, n);
    assert(!has_bom(b));
    assert(skip_ws(b, 0) == 0);
    assert(skip_ws(b, b.len() as int) == b.len());
}

/// Writing what a text read as gives a text that reads as the same tree,
/// canonical: the writer's text of any tree that the reader accepted is
/// accepted again, with the same members, elements and scalars.
pub proof fn law_read_then_write(b: Seq<u8>, n: Node)
    requires
        parse_text(b) == Ok::<Node, errorJson>(n),
    ensures
        parse_text(json_bytes(n)) == Ok::<Node, errorJson>(canonical(n)),
        json_bytes(canonical(n)) == json_bytes(n),
{
    law_write_then_read(n);
    law_canonical_text(n);
}

/// The canonical tree has the text of the tree itself, and is its own
/// canonical tree: after one round trip nothing changes any more.
pub proof fn law_canonical_text(n: Node)
    ensures
        json_bytes(canonical(n)) == json_bytes(n),
        canonical(canonical(n)) == canonical(n),
    decreases n, 0int,
{
    match n {
        Node::Object(m) => {
            let w = canonical(n)->Object_0;
            lemma_canonical_members(m, 0);
            assert forall|i: int| 0 <= i < w.len() implies (w[i].0, canonical(w[i].1)) == w[i] by {
                law_canonical_text(m[i].1);
            }
            assert(canonical(canonical(n))->Object_0 =~= w);
        },
        Node::Array(a) => {
            let w = canonical(n)->Array_0;
            lemma_canonical_elements(a, 0);
            assert forall|i: int| 0 <= i < w.len() implies canonical(w[i]) == w[i] by {
                law_canonical_text(a[i]);
            }
            assert(canonical(canonical(n))->Array_0 =~= w);
        },
        Node::Float(d) => {
            lemma_rounded_text(d);
        },
        Node::Double(d) => {
            lemma_rounded_text(d);
        },
        _ => {},
    }
}

proof fn lemma_rounded_text(d: DecimalModel)
    ensures
        fixed2_text(rounded(d)) == fixed2_text(d),
        rounded(rounded(d)) == rounded(d),
{
    assert(pow10(0) == 1);
    assert(hundredths(d) * 1 == hundredths(d));
}

proof fn lemma_canonical_members(m: Seq<(Seq<char>, Node)>, from: int)
    requires
        0 <= from,
    ensures
        members_bytes(canonical(Node::Object(m))->Object_0, from) == members_bytes(m, from),
    decreases m, m.len() - from,
{
    let w = canonical(Node::Object(m))->Object_0;
    if from < m.len() {
        law_canonical_text(m[from].1);
        lemma_canonical_members(m, from + 1);
    }
}

proof fn lemma_canonical_elements(a: Seq<Node>, from: int)
    requires
        0 <= from,
    ensures
        elements_bytes(canonical(Node::Array(a))->Array_0, from) == elements_bytes(a, from),
    decreases a, a.len() - from,
{
    let w = canonical(Node::Array(a))->Array_0;
    if from < a.len() {
        law_canonical_text(a[from]);
        lemma_canonical_elements(a, from + 1);
    }
}

} // verus!
