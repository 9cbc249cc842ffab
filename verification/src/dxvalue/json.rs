//! JSON text: the canonical compact writer and the reader.

use vstd::prelude::*;
use vstd::slice::slice_subrange;
use vstd::utf8::*;
use crate::dxvalue::reader::{parse_value, skip_white};
use crate::dxvalue::decimal::{fixed2_text, hundredths, two_digits, DecimalModel, EXPONENT_LIMIT};
use crate::dxvalue::text::{
    digits_value, int_text, is_digit, lemma_nat_digits, nat_digits, push_int_text, string_from_utf8,
};
use crate::dxvalue::{DxValue, Key_Value, Node};

verus! {

/// The lower-case hexadecimal digit for a number below sixteen.
pub open spec fn hex_digit(n: nat) -> u8 {
    if n < 10 {
        (0x30 + n) as u8
    } else {
        (0x57 + n) as u8
    }
}

/// How one byte of a string stands between the quotes: the quote, the
/// backslash and the control characters are escaped, every other byte stands
/// for itself.
pub open spec fn escape_byte(b: u8) -> Seq<u8> {
    if b == 0x22 {
        seq![0x5Cu8, 0x22u8]
    } else if b == 0x5C {
        seq![0x5Cu8, 0x5Cu8]
    } else if b == 0x08 {
        seq![0x5Cu8, 0x62u8]
    } else if b == 0x0C {
        seq![0x5Cu8, 0x66u8]
    } else if b == 0x0A {
        seq![0x5Cu8, 0x6Eu8]
    } else if b == 0x0D {
        seq![0x5Cu8, 0x72u8]
    } else if b == 0x09 {
        seq![0x5Cu8, 0x74u8]
    } else if b < 0x20 {
        seq![0x5Cu8, 0x75u8, 0x30u8, 0x30u8, hex_digit((b / 16) as nat), hex_digit((b % 16) as nat)]
    } else {
        seq![b]
    }
}

/// The bytes of a string with each byte escaped as `escape_byte` says.
pub open spec fn escape_bytes(s: Seq<u8>) -> Seq<u8>
    decreases s.len(),
{
    if s.len() == 0 {
        Seq::<u8>::empty()
    } else {
        escape_byte(s[0]) + escape_bytes(s.drop_first())
    }
}

/// A string as JSON text: its escaped UTF-8 bytes between quotes.
pub open spec fn quoted(s: Seq<char>) -> Seq<u8> {
    seq![0x22u8] + escape_bytes(encode_utf8(s)) + seq![0x22u8]
}

/// The text `true`.
pub open spec fn true_text() -> Seq<u8> {
    seq![0x74u8, 0x72u8, 0x75u8, 0x65u8]
}

/// The text `false`.
pub open spec fn false_text() -> Seq<u8> {
    seq![0x66u8, 0x61u8, 0x6Cu8, 0x73u8, 0x65u8]
}

/// The text `null`.
pub open spec fn null_text() -> Seq<u8> {
    seq![0x6Eu8, 0x75u8, 0x6Cu8, 0x6Cu8]
}

/// The canonical compact JSON text of a tree: no white space, members and
/// elements in their order, integers in decimal, floating-point numbers with
/// two decimals.
pub open spec fn json_bytes(n: Node) -> Seq<u8>
    decreases n, 0int,
{
    match n {
        Node::Object(m) => seq![0x7Bu8] + members_bytes(m, 0) + seq![0x7Du8],
        Node::Array(a) => seq![0x5Bu8] + elements_bytes(a, 0) + seq![0x5Du8],
        Node::String(s) => quoted(s),
        Node::Int(v) => int_text(v as int),
        Node::Int32(v) => int_text(v as int),
        Node::Int64(v) => int_text(v as int),
        Node::Float(d) => fixed2_text(d),
        Node::Double(d) => fixed2_text(d),
        Node::Boolean(b) => if b {
            true_text()
        } else {
            false_text()
        },
        Node::Null => null_text(),
    }
}

/// The text of the members from index `from` on, each but the very first after a comma.
pub open spec fn members_bytes(m: Seq<(Seq<char>, Node)>, from: int) -> Seq<u8>
    decreases m, m.len() - from,
{
    if from < 0 || from >= m.len() {
        Seq::<u8>::empty()
    } else {
        (if from > 0 {
            seq![0x2Cu8]
        } else {
            Seq::<u8>::empty()
        }) + quoted(m[from].0) + seq![0x3Au8] + json_bytes(m[from].1) + members_bytes(m, from + 1)
    }
}

/// The text of the elements from index `from` on, each but the very first after a comma.
pub open spec fn elements_bytes(a: Seq<Node>, from: int) -> Seq<u8>
    decreases a, a.len() - from,
{
    if from < 0 || from >= a.len() {
        Seq::<u8>::empty()
    } else {
        (if from > 0 {
            seq![0x2Cu8]
        } else {
            Seq::<u8>::empty()
        }) + json_bytes(a[from]) + elements_bytes(a, from + 1)
    }
}

/// Escaping works byte by byte, so it distributes over concatenation.
pub proof fn lemma_escape_concat(a: Seq<u8>, b: Seq<u8>)
    ensures
        escape_bytes(a + b) == escape_bytes(a) + escape_bytes(b),
    decreases a.len(),
{
    if a.len() == 0 {
        assert(a + b =~= b);
        assert(escape_bytes(a) + escape_bytes(b) =~= escape_bytes(b));
    } else {
        lemma_escape_concat(a.drop_first(), b);
        assert((a + b).drop_first() =~= a.drop_first() + b);
        assert((a + b)[0] == a[0]);
        assert(escape_bytes(a + b) =~= escape_bytes(a) + escape_bytes(b));
    }
}

/// Bytes that need no escape stand for themselves.
pub proof fn lemma_escape_plain(s: Seq<u8>)
    requires
        forall|i: int| 0 <= i < s.len() ==> #[trigger] s[i] >= 0x20 && s[i] != 0x22 && s[i] != 0x5C,
    ensures
        escape_bytes(s) == s,
    decreases s.len(),
{
    if s.len() > 0 {
        let r = s.drop_first();
        assert forall|i: int| 0 <= i < r.len() implies #[trigger] r[i] >= 0x20 && r[i] != 0x22
            && r[i] != 0x5C by {
            assert(r[i] == s[i + 1]);
        }
        lemma_escape_plain(r);
        assert(s[0] >= 0x20);
        assert(escape_bytes(s) =~= s);
    }
}

/// Bytes below 0x80 are well-formed UTF-8.
pub proof fn lemma_ascii_valid(s: Seq<u8>)
    requires
        forall|i: int| 0 <= i < s.len() ==> #[trigger] s[i] < 0x80,
    ensures
        valid_utf8(s),
{
    let chars = Seq::new(s.len(), |i: int| s[i] as char);
    assert(is_ascii_chars(chars)) by {
        assert forall|i: int| 0 <= i < chars.len() implies '\0' <= #[trigger] chars[i]
            <= '\u{7f}' by {
            assert(s[i] < 0x80);
        }
    }
    is_ascii_chars_encode_utf8(chars);
    assert(encode_utf8(chars) =~= s) by {
        assert forall|i: int| 0 <= i < s.len() implies encode_utf8(chars)[i] == s[i] by {
            assert(chars[i] as u8 == encode_utf8(chars)[i]);
            assert(s[i] < 0x80);
        }
    }
    encode_utf8_valid_utf8(chars);
}

proof fn lemma_multibyte_high(c: u32)
    by (bit_vector)
    ensures
        0xC0u8 | ((c >> 6) & 0x1F) as u8 >= 0x80,
        0xE0u8 | ((c >> 12) & 0x0F) as u8 >= 0x80,
        0xF0u8 | ((c >> 18) & 0x7) as u8 >= 0x80,
        0x80u8 | (c & 0x3F) as u8 >= 0x80,
        0x80u8 | ((c >> 6) & 0x3F) as u8 >= 0x80,
        0x80u8 | ((c >> 12) & 0x3F) as u8 >= 0x80,
        c <= 0x7F ==> (c & 0x7F) as u8 == c,
{
}

/// The escaped bytes of a text are well-formed UTF-8.
pub proof fn lemma_escape_valid(chars: Seq<char>)
    ensures
        valid_utf8(escape_bytes(encode_utf8(chars))),
    decreases chars.len(),
{
    if chars.len() == 0 {
    } else {
        let c = chars[0] as u32;
        let first = encode_scalar(c);
        let rest = encode_utf8(chars.drop_first());
        lemma_escape_valid(chars.drop_first());
        lemma_escape_concat(first, rest);
        lemma_multibyte_high(c);
        char_is_scalar(chars[0]);
        if has_width_1_encoding(c) {
            let b = first[0];
            assert(first.drop_first() =~= Seq::<u8>::empty());
            assert(escape_bytes(first.drop_first()) =~= Seq::<u8>::empty());
            assert(escape_bytes(first) =~= escape_byte(b));
            assert(b < 0x80);
            assert forall|i: int| 0 <= i < escape_byte(b).len() implies #[trigger] escape_byte(
                b,
            )[i] < 0x80 by {}
            lemma_ascii_valid(escape_byte(b));
        } else {
            assert forall|i: int| 0 <= i < first.len() implies #[trigger] first[i] >= 0x20
                && first[i] != 0x22 && first[i] != 0x5C by {}
            lemma_escape_plain(first);
            let one = seq![chars[0]];
            assert(one.drop_first() =~= Seq::<char>::empty());
            assert(encode_utf8(one.drop_first()) =~= Seq::<u8>::empty());
            assert(one[0] == chars[0]);
            assert(encode_utf8(one) =~= first);
            encode_utf8_valid_utf8(one);
        }
        valid_utf8_concat(escape_bytes(first), escape_bytes(rest));
    }
}

/// A quoted string is well-formed UTF-8.
pub proof fn lemma_quoted_valid(s: Seq<char>)
    ensures
        valid_utf8(quoted(s)),
{
    lemma_escape_valid(s);
    lemma_ascii_valid(seq![0x22u8]);
    valid_utf8_concat(seq![0x22u8], escape_bytes(encode_utf8(s)));
    valid_utf8_concat(seq![0x22u8] + escape_bytes(encode_utf8(s)), seq![0x22u8]);
}

/// The decimal text of an integer is ASCII.
pub proof fn lemma_int_text_ascii(v: int)
    ensures
        forall|i: int| 0 <= i < int_text(v).len() ==> #[trigger] int_text(v)[i] < 0x80,
{
    if v < 0 {
        lemma_nat_digits((-v) as nat);
        let d = nat_digits((-v) as nat);
        assert forall|i: int| 0 <= i < int_text(v).len() implies #[trigger] int_text(v)[i]
            < 0x80 by {
            if i > 0 {
                assert(int_text(v)[i] == d[i - 1]);
                assert(is_digit(d[i - 1]));
            }
        }
    } else {
        lemma_nat_digits(v as nat);
        let d = nat_digits(v as nat);
        assert forall|i: int| 0 <= i < int_text(v).len() implies #[trigger] int_text(v)[i]
            < 0x80 by {
            assert(is_digit(d[i]));
        }
    }
}

/// The text with two decimals is ASCII.
pub proof fn lemma_fixed2_ascii(m: DecimalModel)
    ensures
        forall|i: int| 0 <= i < fixed2_text(m).len() ==> #[trigger] fixed2_text(m)[i] < 0x80,
{
    let q = hundredths(m);
    lemma_nat_digits(q / 100);
    let sign = if m.negative {
        seq![0x2Du8]
    } else {
        Seq::<u8>::empty()
    };
    let d = nat_digits(q / 100);
    let t = fixed2_text(m);
    assert(t == sign + d + seq![0x2Eu8] + two_digits(q % 100));
    assert forall|i: int| 0 <= i < t.len() implies #[trigger] t[i] < 0x80 by {
        if i < sign.len() {
        } else if i < sign.len() + d.len() {
            assert(t[i] == d[i - sign.len()]);
            assert(is_digit(d[i - sign.len()]));
        } else if i == sign.len() + d.len() {
        } else {
            assert(t[i] == two_digits(q % 100)[i - sign.len() - d.len() - 1]);
        }
    }
}

/// The canonical text of every tree is well-formed UTF-8.
pub proof fn lemma_json_valid(n: Node)
    ensures
        valid_utf8(json_bytes(n)),
    decreases n, 0int,
{
    match n {
        Node::Object(m) => {
            lemma_members_valid(m, 0);
            lemma_ascii_valid(seq![0x7Bu8]);
            lemma_ascii_valid(seq![0x7Du8]);
            valid_utf8_concat(seq![0x7Bu8], members_bytes(m, 0));
            valid_utf8_concat(seq![0x7Bu8] + members_bytes(m, 0), seq![0x7Du8]);
        },
        Node::Array(a) => {
            lemma_elements_valid(a, 0);
            lemma_ascii_valid(seq![0x5Bu8]);
            lemma_ascii_valid(seq![0x5Du8]);
            valid_utf8_concat(seq![0x5Bu8], elements_bytes(a, 0));
            valid_utf8_concat(seq![0x5Bu8] + elements_bytes(a, 0), seq![0x5Du8]);
        },
        Node::String(s) => {
            lemma_quoted_valid(s);
        },
        Node::Int(v) => {
            lemma_int_text_ascii(v as int);
            lemma_ascii_valid(int_text(v as int));
        },
        Node::Int32(v) => {
            lemma_int_text_ascii(v as int);
            lemma_ascii_valid(int_text(v as int));
        },
        Node::Int64(v) => {
            lemma_int_text_ascii(v as int);
            lemma_ascii_valid(int_text(v as int));
        },
        Node::Float(d) => {
            lemma_fixed2_ascii(d);
            lemma_ascii_valid(fixed2_text(d));
        },
        Node::Double(d) => {
            lemma_fixed2_ascii(d);
            lemma_ascii_valid(fixed2_text(d));
        },
        Node::Boolean(b) => {
            lemma_ascii_valid(true_text());
            lemma_ascii_valid(false_text());
        },
        Node::Null => {
            lemma_ascii_valid(null_text());
        },
    }
}

proof fn lemma_members_valid(m: Seq<(Seq<char>, Node)>, from: int)
    ensures
        valid_utf8(members_bytes(m, from)),
    decreases m, m.len() - from,
{
    if from < 0 || from >= m.len() {
    } else {
        let comma = if from > 0 {
            seq![0x2Cu8]
        } else {
            Seq::<u8>::empty()
        };
        lemma_ascii_valid(comma);
        lemma_quoted_valid(m[from].0);
        lemma_ascii_valid(seq![0x3Au8]);
        lemma_json_valid(m[from].1);
        lemma_members_valid(m, from + 1);
        valid_utf8_concat(comma, quoted(m[from].0));
        valid_utf8_concat(comma + quoted(m[from].0), seq![0x3Au8]);
        valid_utf8_concat(comma + quoted(m[from].0) + seq![0x3Au8], json_bytes(m[from].1));
        valid_utf8_concat(
            comma + quoted(m[from].0) + seq![0x3Au8] + json_bytes(m[from].1),
            members_bytes(m, from + 1),
        );
    }
}

proof fn lemma_elements_valid(a: Seq<Node>, from: int)
    ensures
        valid_utf8(elements_bytes(a, from)),
    decreases a, a.len() - from,
{
    if from < 0 || from >= a.len() {
    } else {
        let comma = if from > 0 {
            seq![0x2Cu8]
        } else {
            Seq::<u8>::empty()
        };
        lemma_ascii_valid(comma);
        lemma_json_valid(a[from]);
        lemma_elements_valid(a, from + 1);
        valid_utf8_concat(comma, json_bytes(a[from]));
        valid_utf8_concat(comma + json_bytes(a[from]), elements_bytes(a, from + 1));
    }
}

fn hex_char(n: u8) -> (r: u8)
    requires
        n < 16,
    ensures
        r == hex_digit(n as nat),
{
    if n < 10 {
        0x30 + n
    } else {
        0x57 + n
    }
}

/// Appends one byte of a string, escaped.
fn push_escaped(out: &mut Vec<u8>, b: u8)
    ensures
        final(out)@ == old(out)@ + escape_byte(b),
{
    if b == 0x22 || b == 0x5C {
        out.push(0x5C);
        out.push(b);
    } else if b == 0x08 {
        out.push(0x5C);
        out.push(0x62);
    } else if b == 0x0C {
        out.push(0x5C);
        out.push(0x66);
    } else if b == 0x0A {
        out.push(0x5C);
        out.push(0x6E);
    } else if b == 0x0D {
        out.push(0x5C);
        out.push(0x72);
    } else if b == 0x09 {
        out.push(0x5C);
        out.push(0x74);
    } else if b < 0x20 {
        out.push(0x5C);
        out.push(0x75);
        out.push(0x30);
        out.push(0x30);
        out.push(hex_char(b / 16));
        out.push(hex_char(b % 16));
    } else {
        out.push(b);
    }
    assert(final(out)@ =~= old(out)@ + escape_byte(b));
}

/// Appends a string as JSON text: quotes around its escaped bytes.
pub fn push_quoted(out: &mut Vec<u8>, s: &str)
    ensures
        final(out)@ == old(out)@ + quoted(s@),
{
    let bytes = s.as_bytes();
    out.push(0x22);
    let ghost start = out@;
    let n = bytes.len();
    let mut i: usize = 0;
    assert(bytes@.skip(0) =~= bytes@);
    while i < n
        invariant
            i <= n,
            n == bytes@.len(),
            start + escape_bytes(bytes@) == out@ + escape_bytes(bytes@.skip(i as int)),
        decreases n - i,
    {
        let ghost before = out@;
        push_escaped(out, bytes[i]);
        proof {
            let rest = bytes@.skip(i as int);
            assert(rest.drop_first() =~= bytes@.skip(i + 1));
            assert(rest[0] == bytes@[i as int]);
            assert(before + escape_bytes(rest) =~= out@ + escape_bytes(bytes@.skip(i + 1)));
        }
        i += 1;
    }
    proof {
        assert(bytes@.skip(n as int) =~= Seq::<u8>::empty());
        assert(out@ =~= start + escape_bytes(bytes@));
    }
    out.push(0x22);
    assert(final(out)@ =~= old(out)@ + quoted(s@));
}

impl DxValue {
    /// Appends the canonical compact JSON text of the node to `out`.
    pub fn write_json(&self, out: &mut Vec<u8>)
        ensures
            final(out)@ == old(out)@ + json_bytes(self@),
        decreases self,
    {
        match self {
            DxValue::Object(m) => {
                out.push(0x7B);
                let ghost start = out@;
                let ghost members = self@->Object_0;
                let n = m.len();
                let mut i: usize = 0;
                while i < n
                    invariant
                        i <= n,
                        n == m@.len(),
                        self matches DxValue::Object(mm) && mm == m,
                        members == self@->Object_0,
                        start + members_bytes(members, 0) == out@ + members_bytes(members, i as int),
                    decreases n - i,
                {
                    let ghost before = out@;
                    let member: &Key_Value = m.get(i);
                    proof {
                        m.lemma_slot_decreases(i as int);
                        assert(members[i as int] == (member.Key@, member.Value@));
                    }
                    if i > 0 {
                        out.push(0x2C);
                    }
                    push_quoted(out, member.Key.as_str());
                    out.push(0x3A);
                    member.Value.write_json(out);
                    proof {
                        assert(before + members_bytes(members, i as int) =~= out@ + members_bytes(
                            members,
                            i + 1,
                        ));
                    }
                    i += 1;
                }
                out.push(0x7D);
                assert(final(out)@ =~= old(out)@ + json_bytes(self@));
            },
            DxValue::Array(a) => {
                out.push(0x5B);
                let ghost start = out@;
                let ghost elements = self@->Array_0;
                let n = a.len();
                let mut i: usize = 0;
                while i < n
                    invariant
                        i <= n,
                        n == a@.len(),
                        self matches DxValue::Array(aa) && aa == a,
                        elements == self@->Array_0,
                        start + elements_bytes(elements, 0) == out@ + elements_bytes(
                            elements,
                            i as int,
                        ),
                    decreases n - i,
                {
                    let ghost before = out@;
                    let element: &DxValue = a.get(i);
                    proof {
                        a.lemma_slot_decreases(i as int);
                        assert(elements[i as int] == element@);
                    }
                    if i > 0 {
                        out.push(0x2C);
                    }
                    element.write_json(out);
                    proof {
                        assert(before + elements_bytes(elements, i as int) =~= out@
                            + elements_bytes(elements, i + 1));
                    }
                    i += 1;
                }
                out.push(0x5D);
                assert(final(out)@ =~= old(out)@ + json_bytes(self@));
            },
            DxValue::String(s) => {
                push_quoted(out, s.as_str());
            },
            DxValue::Int(v) => {
                push_int_text(out, *v as i64);
            },
            DxValue::Int32(v) => {
                push_int_text(out, *v as i64);
            },
            DxValue::Int64(v) => {
                push_int_text(out, *v);
            },
            DxValue::Float(d) => {
                d.push_fixed2(out);
            },
            DxValue::Double(d) => {
                d.push_fixed2(out);
            },
            DxValue::Boolean(b) => {
                if *b {
                    out.push(0x74);
                    out.push(0x72);
                    out.push(0x75);
                    out.push(0x65);
                } else {
                    out.push(0x66);
                    out.push(0x61);
                    out.push(0x6C);
                    out.push(0x73);
                    out.push(0x65);
                }
                assert(final(out)@ =~= old(out)@ + json_bytes(self@));
            },
            DxValue::Null => {
                out.push(0x6E);
                out.push(0x75);
                out.push(0x6C);
                out.push(0x6C);
                assert(final(out)@ =~= old(out)@ + json_bytes(self@));
            },
        }
    }
}

/// The text that well-formed UTF-8 bytes encode.
pub fn text_of_bytes(bytes: Vec<u8>) -> (r: String)
    requires
        valid_utf8(bytes@),
    ensures
        encode_utf8(r@) == bytes@,
{
    proof {
        decode_utf8_encode_utf8(bytes@);
    }
    match string_from_utf8(bytes) {
        Some(s) => s,
        None => String::new(),
    }
}

/// Renders a tree as canonical compact JSON text.
pub fn serialize(value: &DxValue) -> (r: String)
    ensures
        encode_utf8(r@) == json_bytes(value@),
{
    let mut out: Vec<u8> = Vec::new();
    value.write_json(&mut out);
    proof {
        lemma_json_valid(value@);
        assert(out@ =~= json_bytes(value@));
    }
    text_of_bytes(out)
}

/// What the reader found wrong.
#[derive(Debug, Clone, Copy, PartialEq, Eq, Structural)]
pub enum errJsonReson {
    /// An object is not closed by `}`.
    JET_NoObjBack,
    /// An array is not closed by `]`.
    JET_NoArrBack,
    /// A member does not begin with the quote of its key.
    JET_NoKeyStart,
    /// A bare word stands where a string would need its opening quote.
    JET_NoStrStart,
    /// A string is not closed by a quote.
    JET_NoStrEnd,
    /// The `:` between a key and its value is missing.
    JET_NoKVSplit,
    /// The `,` between two members or elements is missing.
    JET_NoValueSplit,
    /// A number, `true`, `false`, `null` or an escape is malformed.
    JET_Invalidate,
    /// The text is empty, or something follows its value.
    JET_UnParse,
}

/// A fault of the reader: what was wrong, and the byte offset where.
#[derive(Debug, Clone, Copy, PartialEq, Eq, Structural)]
pub struct errorJson {
    pub errPos: usize,
    pub reson: errJsonReson,
}

/// The fault `reson` at offset `at`.
pub open spec fn fault(reson: errJsonReson, at: int) -> errorJson {
    errorJson { errPos: at as usize, reson }
}

/// Space, tab, line feed or carriage return.
pub open spec fn is_ws(c: u8) -> bool {
    c == 0x20 || c == 0x09 || c == 0x0A || c == 0x0D
}

/// The first offset from `i` on that holds no white space.
pub open spec fn skip_ws(b: Seq<u8>, i: int) -> int
    decreases b.len() - i,
{
    if 0 <= i < b.len() && is_ws(b[i]) {
        skip_ws(b, i + 1)
    } else {
        i
    }
}

/// The first offset from `i` on that holds no digit.
pub open spec fn digits_end(b: Seq<u8>, i: int) -> int
    decreases b.len() - i,
{
    if 0 <= i < b.len() && is_digit(b[i]) {
        digits_end(b, i + 1)
    } else {
        i
    }
}

/// The text `t` stands at offset `i`.
pub open spec fn has_at(b: Seq<u8>, i: int, t: Seq<u8>) -> bool {
    0 <= i && i + t.len() <= b.len() && b.subrange(i, i + t.len()) == t
}

/// An offset after `from`: `to` itself where it lies after it, which it does
/// wherever the grammar goes on behind something it has read. Written so, the
/// grammar's functions plainly move forward.
pub open spec fn fwd(from: int, to: int) -> int {
    if to > from {
        to
    } else {
        from + 1
    }
}

/// The number of a hexadecimal digit, or -1.
pub open spec fn hex_value(c: u8) -> int {
    if 0x30 <= c <= 0x39 {
        c - 0x30
    } else if 0x61 <= c <= 0x66 {
        c - 0x57
    } else if 0x41 <= c <= 0x46 {
        c - 0x37
    } else {
        -1
    }
}

/// The number that the four hexadecimal digits at `i` spell, or -1.
pub open spec fn hex4(b: Seq<u8>, i: int) -> int {
    if 0 <= i && i + 4 <= b.len() && hex_value(b[i]) >= 0 && hex_value(b[i + 1]) >= 0
        && hex_value(b[i + 2]) >= 0 && hex_value(b[i + 3]) >= 0 {
        ((hex_value(b[i]) * 16 + hex_value(b[i + 1])) * 16 + hex_value(b[i + 2])) * 16
            + hex_value(b[i + 3])
    } else {
        -1
    }
}

/// The escape that begins with the backslash at `i`: the bytes it stands for
/// and its length, or nothing when it is none of `\" \\ \/ \b \f \n \r \t`
/// and `\uXXXX`. A `\u` escape of a high surrogate must be followed by one of
/// a low surrogate, and the two stand for one character.
#[verifier::opaque]
pub open spec fn escape_at(b: Seq<u8>, i: int) -> Option<(Seq<u8>, int)> {
    if i < 0 || i + 1 >= b.len() {
        None
    } else {
        let c = b[i + 1];
        if c == 0x22 || c == 0x5C || c == 0x2F {
            Some((seq![c], 2))
        } else if c == 0x62 {
            Some((seq![0x08u8], 2))
        } else if c == 0x66 {
            Some((seq![0x0Cu8], 2))
        } else if c == 0x6E {
            Some((seq![0x0Au8], 2))
        } else if c == 0x72 {
            Some((seq![0x0Du8], 2))
        } else if c == 0x74 {
            Some((seq![0x09u8], 2))
        } else if c == 0x75 {
            let hi = hex4(b, i + 2);
            if hi < 0 || (0xDC00 <= hi <= 0xDFFF) {
                None
            } else if 0xD800 <= hi <= 0xDBFF {
                let lo = hex4(b, i + 8);
                if i + 8 <= b.len() && b[i + 6] == 0x5C && b[i + 7] == 0x75 && 0xDC00 <= lo
                    <= 0xDFFF {
                    Some(
                        (
                            encode_scalar((0x10000 + (hi - 0xD800) * 0x400 + (lo - 0xDC00)) as u32),
                            12,
                        ),
                    )
                } else {
                    None
                }
            } else {
                Some((encode_scalar(hi as u32), 6))
            }
        } else {
            None
        }
    }
}

/// The rest of a string from offset `i`, after the bytes `acc`: the bytes of
/// the string and the offset after its closing quote.
pub open spec fn string_body(b: Seq<u8>, i: int, acc: Seq<u8>) -> Result<(Seq<u8>, int), errorJson>
    decreases b.len() - i,
{
    if i < 0 || i >= b.len() {
        Err(fault(errJsonReson::JET_NoStrEnd, b.len() as int))
    } else if b[i] == 0x22 {
        Ok((acc, i + 1))
    } else if b[i] == 0x5C {
        match escape_at(b, i) {
            Some((bytes, used)) => if i + used <= b.len() {
                string_body(b, fwd(i, i + used), acc + bytes)
            } else {
                Err(fault(errJsonReson::JET_Invalidate, i))
            },
            None => Err(fault(errJsonReson::JET_Invalidate, i)),
        }
    } else {
        string_body(b, i + 1, acc.push(b[i]))
    }
}

/// The string whose opening quote is at `i`: its text and the offset after
/// its closing quote. Its bytes must be well-formed UTF-8.
pub open spec fn string_at(b: Seq<u8>, i: int) -> Result<(Seq<char>, int), errorJson> {
    match string_body(b, i + 1, Seq::empty()) {
        Ok((bytes, j)) => if valid_utf8(bytes) {
            Ok((decode_utf8(bytes), j))
        } else {
            Err(fault(errJsonReson::JET_Invalidate, i))
        },
        Err(e) => Err(e),
    }
}

/// The parts of the number that begins at `i`.
pub struct NumberShape {
    /// a minus sign stands in front
    pub negative: bool,
    /// where the integer digits begin and end
    pub int_from: int,
    pub int_to: int,
    /// whether a point follows, and where the digits after it begin and end
    pub has_fraction: bool,
    pub frac_from: int,
    pub frac_to: int,
    /// whether an exponent follows, its sign, and where its digits begin and end
    pub has_exponent: bool,
    pub exponent_negative: bool,
    pub exp_from: int,
    pub exp_to: int,
}

/// How the number at `i` is laid out:
/// `-? digits (. digits)? ((e|E) (+|-)? digits)?`.
pub open spec fn number_shape(b: Seq<u8>, i: int) -> NumberShape {
    let negative = 0 <= i < b.len() && b[i] == 0x2D;
    let int_from = if negative {
        i + 1
    } else {
        i
    };
    let int_to = digits_end(b, int_from);
    let has_fraction = 0 <= int_to < b.len() && b[int_to] == 0x2E;
    let frac_from = if has_fraction {
        int_to + 1
    } else {
        int_to
    };
    let frac_to = digits_end(b, frac_from);
    let has_exponent = 0 <= frac_to < b.len() && (b[frac_to] == 0x65 || b[frac_to] == 0x45);
    let sign_at = frac_to + 1;
    let exponent_signed = has_exponent && sign_at < b.len() && (b[sign_at] == 0x2B || b[sign_at]
        == 0x2D);
    let exp_from = if !has_exponent {
        frac_to
    } else if exponent_signed {
        sign_at + 1
    } else {
        sign_at
    };
    NumberShape {
        negative,
        int_from,
        int_to,
        has_fraction,
        frac_from,
        frac_to,
        has_exponent,
        exponent_negative: exponent_signed && b[sign_at] == 0x2D,
        exp_from,
        exp_to: digits_end(b, exp_from),
    }
}

/// The number at `i` and the offset after it. A literal without fraction and
/// exponent is a platform-width integer where it fits, a 64-bit integer where
/// it fits that, and a double otherwise. Any other literal is a double, which
/// holds the literal's value exactly; its power of ten must lie within
/// `EXPONENT_LIMIT`. The fault is at the offset where a digit is missing, or
/// at the start of a literal that is out of range.
#[verifier::opaque]
pub open spec fn number_at(b: Seq<u8>, i: int) -> Result<(Node, int), errorJson> {
    let s = number_shape(b, i);
    if s.int_to == s.int_from {
        Err(fault(errJsonReson::JET_Invalidate, s.int_from))
    } else if s.has_fraction && s.frac_to == s.frac_from {
        Err(fault(errJsonReson::JET_Invalidate, s.frac_from))
    } else if s.has_exponent && s.exp_to == s.exp_from {
        Err(fault(errJsonReson::JET_Invalidate, s.exp_from))
    } else if !s.has_fraction && !s.has_exponent {
        let v = digits_value(b.subrange(s.int_from, s.int_to)) as int;
        let signed = if s.negative {
            -v
        } else {
            v
        };
        if isize::MIN <= signed <= isize::MAX {
            Ok((Node::Int(signed as isize), s.int_to))
        } else if i64::MIN <= signed <= i64::MAX {
            Ok((Node::Int64(signed as i64), s.int_to))
        } else {
            Ok(
                (
                    Node::Double(
                        DecimalModel { negative: s.negative, coefficient: v as nat, exponent: 0 },
                    ),
                    s.int_to,
                ),
            )
        }
    } else {
        let written = digits_value(b.subrange(s.exp_from, s.exp_to)) as int;
        let exponent = (if s.exponent_negative {
            -written
        } else {
            written
        }) - (s.frac_to - s.frac_from);
        if -EXPONENT_LIMIT <= exponent <= EXPONENT_LIMIT {
            Ok(
                (
                    Node::Double(
                        DecimalModel {
                            negative: s.negative,
                            coefficient: digits_value(
                                b.subrange(s.int_from, s.int_to) + b.subrange(
                                    s.frac_from,
                                    s.frac_to,
                                ),
                            ),
                            exponent,
                        },
                    ),
                    s.exp_to,
                ),
            )
        } else {
            Err(fault(errJsonReson::JET_Invalidate, i))
        }
    }
}

/// An ASCII letter.
pub open spec fn is_letter(c: u8) -> bool {
    (0x41 <= c <= 0x5A) || (0x61 <= c <= 0x7A)
}

/// The value whose first byte is at `i`, and the offset after it.
pub open spec fn value_at(b: Seq<u8>, i: int) -> Result<(Node, int), errorJson>
    decreases b.len() - i, 0int,
{
    if i < 0 || i >= b.len() {
        Err(fault(errJsonReson::JET_UnParse, b.len() as int))
    } else if b[i] == 0x7B {
        let j = skip_ws(b, i + 1);
        if j >= b.len() {
            Err(fault(errJsonReson::JET_NoObjBack, b.len() as int))
        } else if b[j] == 0x7D {
            Ok((Node::Object(Seq::empty()), j + 1))
        } else {
            members_at(b, fwd(i, j), Seq::empty())
        }
    } else if b[i] == 0x5B {
        let j = skip_ws(b, i + 1);
        if j >= b.len() {
            Err(fault(errJsonReson::JET_NoArrBack, b.len() as int))
        } else if b[j] == 0x5D {
            Ok((Node::Array(Seq::empty()), j + 1))
        } else {
            elements_at(b, fwd(i, j), Seq::empty())
        }
    } else if b[i] == 0x22 {
        match string_at(b, i) {
            Ok((s, j)) => Ok((Node::String(s), j)),
            Err(e) => Err(e),
        }
    } else if b[i] == 0x2D || is_digit(b[i]) {
        number_at(b, i)
    } else if b[i] == 0x74 {
        if has_at(b, i, true_text()) {
            Ok((Node::Boolean(true), i + 4))
        } else {
            Err(fault(errJsonReson::JET_Invalidate, i))
        }
    } else if b[i] == 0x66 {
        if has_at(b, i, false_text()) {
            Ok((Node::Boolean(false), i + 5))
        } else {
            Err(fault(errJsonReson::JET_Invalidate, i))
        }
    } else if b[i] == 0x6E {
        if has_at(b, i, null_text()) {
            Ok((Node::Null, i + 4))
        } else {
            Err(fault(errJsonReson::JET_Invalidate, i))
        }
    } else if is_letter(b[i]) {
        Err(fault(errJsonReson::JET_NoStrStart, i))
    } else {
        Err(fault(errJsonReson::JET_Invalidate, i))
    }
}

/// The members of an object from the one whose key should begin at `j`, after
/// the members `acc`: the object and the offset after its `}`.
pub open spec fn members_at(b: Seq<u8>, j: int, acc: Seq<(Seq<char>, Node)>) -> Result<
    (Node, int),
    errorJson,
>
    decreases b.len() - j, 1int,
{
    if j < 0 || j >= b.len() {
        Err(fault(errJsonReson::JET_NoObjBack, b.len() as int))
    } else if b[j] != 0x22 {
        Err(fault(errJsonReson::JET_NoKeyStart, j))
    } else {
        match string_at(b, j) {
            Err(e) => Err(e),
            Ok((key, after_key)) => {
                let colon = skip_ws(b, after_key);
                if colon >= b.len() {
                    Err(fault(errJsonReson::JET_NoObjBack, b.len() as int))
                } else if b[colon] != 0x3A {
                    Err(fault(errJsonReson::JET_NoKVSplit, colon))
                } else {
                    let at = fwd(j, skip_ws(b, colon + 1));
                    if at >= b.len() {
                        Err(fault(errJsonReson::JET_NoObjBack, b.len() as int))
                    } else {
                        match value_at(b, at) {
                            Err(e) => Err(e),
                            Ok((v, after_value)) => {
                                let next = skip_ws(b, after_value);
                                if next >= b.len() {
                                    Err(fault(errJsonReson::JET_NoObjBack, b.len() as int))
                                } else if b[next] == 0x7D {
                                    Ok((Node::Object(acc.push((key, v))), next + 1))
                                } else if b[next] == 0x2C {
                                    let more = fwd(j, skip_ws(b, next + 1));
                                    if more >= b.len() {
                                        Err(fault(errJsonReson::JET_NoObjBack, b.len() as int))
                                    } else {
                                        members_at(b, more, acc.push((key, v)))
                                    }
                                } else {
                                    Err(fault(errJsonReson::JET_NoValueSplit, next))
                                }
                            },
                        }
                    }
                }
            },
        }
    }
}

/// The elements of an array from the one that should begin at `j`, after the
/// elements `acc`: the array and the offset after its `]`.
pub open spec fn elements_at(b: Seq<u8>, j: int, acc: Seq<Node>) -> Result<(Node, int), errorJson>
    decreases b.len() - j, 1int,
{
    if j < 0 || j >= b.len() {
        Err(fault(errJsonReson::JET_NoArrBack, b.len() as int))
    } else {
        match value_at(b, j) {
            Err(e) => Err(e),
            Ok((v, after_value)) => {
                let next = skip_ws(b, after_value);
                if next >= b.len() {
                    Err(fault(errJsonReson::JET_NoArrBack, b.len() as int))
                } else if b[next] == 0x5D {
                    Ok((Node::Array(acc.push(v)), next + 1))
                } else if b[next] == 0x2C {
                    let more = fwd(j, skip_ws(b, next + 1));
                    if more >= b.len() {
                        Err(fault(errJsonReson::JET_NoArrBack, b.len() as int))
                    } else {
                        elements_at(b, more, acc.push(v))
                    }
                } else {
                    Err(fault(errJsonReson::JET_NoValueSplit, next))
                }
            },
        }
    }
}

/// The text begins with a byte-order mark.
pub open spec fn has_bom(b: Seq<u8>) -> bool {
    b.len() >= 3 && b[0] == 0xEF && b[1] == 0xBB && b[2] == 0xBF
}

/// The tree that a JSON text denotes, or the first fault in it. A byte-order
/// mark in front is passed over; the text must hold one value, with nothing
/// but white space around it. Offsets count from the start of the buffer.
pub open spec fn parse_text(b: Seq<u8>) -> Result<Node, errorJson> {
    let i = skip_ws(
        b,
        if has_bom(b) {
            3
        } else {
            0
        },
    );
    if i >= b.len() {
        Err(fault(errJsonReson::JET_UnParse, b.len() as int))
    } else {
        match value_at(b, i) {
            Err(e) => Err(e),
            Ok((v, j)) => {
                let k = skip_ws(b, j);
                if k < b.len() {
                    Err(fault(errJsonReson::JET_UnParse, k))
                } else {
                    Ok(v)
                }
            },
        }
    }
}

/// Passes over the white space at the start of `b`: what is left of `b`, and
/// how many bytes were passed over.
pub fn skipWB<'a>(b: &'a [u8]) -> (r: (&'a [u8], usize))
    ensures
        r.1 == skip_ws(b@, 0),
        r.1 <= b@.len(),
        r.0@ == b@.skip(r.1 as int),
{
    let skipped = skip_white(b, 0);
    let rest = slice_subrange(b, skipped, b.len());
    assert(rest@ =~= b@.skip(skipped as int));
    (rest, skipped)
}

/// Reads a JSON text into a tree, or reports the first fault in it with its
/// byte offset.
pub fn parseJson(buf: Vec<u8>) -> (r: Result<DxValue, errorJson>)
    ensures
        match parse_text(buf@) {
            Ok(node) => r matches Ok(v) && v@ == node,
            Err(e) => r == Err::<DxValue, errorJson>(e),
        },
{
    let b = buf.as_slice();
    let n = b.len();
    let start: usize = if n >= 3 && b[0] == 0xEF && b[1] == 0xBB && b[2] == 0xBF {
        3
    } else {
        0
    };
    let i = skip_white(b, start);
    if i >= n {
        return Err(errorJson { errPos: n, reson: errJsonReson::JET_UnParse });
    }
    match parse_value(b, i) {
        Err(e) => Err(e),
        Ok((v, j)) => {
            let k = skip_white(b, j);
            if k < n {
                Err(errorJson { errPos: k, reson: errJsonReson::JET_UnParse })
            } else {
                Ok(v)
            }
        },
    }
}

} // verus!
