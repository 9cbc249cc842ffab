//! Reading the tree: lookups by name and by index, and the coercions of a
//! node to an integer, a truth value and a text.

use vstd::prelude::*;
use vstd::utf8::*;
use crate::dxvalue::decimal::{
    clamp_isize, integer_model, is_positive, truncated, Decimal, DecimalModel,
};
use crate::dxvalue::json::{json_bytes, lemma_json_valid, text_of_bytes};
use crate::dxvalue::text::{
    index_of_text, is_true, is_true_text, isize_of_text, parse_index, parse_isize, str_eq,
};
use crate::dxvalue::{DxValue, Key_Value, Node, Slots};

verus! {

/// The index of the first member from `from` on whose key is `key`, or -1.
pub open spec fn key_index_from(m: Seq<(Seq<char>, Node)>, key: Seq<char>, from: int) -> int
    decreases m.len() - from,
{
    if from < 0 || from >= m.len() {
        -1
    } else if m[from].0 == key {
        from
    } else {
        key_index_from(m, key, from + 1)
    }
}

/// What `key_index_from` finds is the first member from `from` on with that
/// key, and -1 says that there is none.
pub proof fn lemma_key_index(m: Seq<(Seq<char>, Node)>, key: Seq<char>, from: int)
    requires
        0 <= from,
    ensures
        ({
            let i = key_index_from(m, key, from);
            &&& i == -1 || (from <= i < m.len() && m[i].0 == key)
            &&& forall|j: int| from <= j < m.len() && (i == -1 || j < i) ==> (#[trigger] m[j]).0 != key
        }),
    decreases m.len() - from,
{
    if from < m.len() && m[from].0 != key {
        lemma_key_index(m, key, from + 1);
    }
}

/// The first member from `from` on with the key is what `key_index_from` finds.
pub proof fn lemma_key_index_is(m: Seq<(Seq<char>, Node)>, key: Seq<char>, from: int, i: int)
    requires
        0 <= from <= i < m.len(),
        m[i].0 == key,
        forall|j: int| from <= j < i ==> (#[trigger] m[j]).0 != key,
    ensures
        key_index_from(m, key, from) == i,
    decreases i - from,
{
    if from < i {
        lemma_key_index_is(m, key, from + 1, i);
    }
}

/// The number of slots of a node: members or elements, none for a scalar.
pub open spec fn node_len(n: Node) -> nat {
    match n {
        Node::Object(m) => m.len(),
        Node::Array(a) => a.len(),
        _ => 0,
    }
}

/// The slot that a name addresses, or -1 when it addresses none: in an object
/// the first member with that key, in an array the element whose index the
/// name spells.
pub open spec fn slot_by_name(n: Node, name: Seq<char>) -> int {
    match n {
        Node::Object(m) => key_index_from(m, name, 0),
        Node::Array(a) => match index_of_text(encode_utf8(name)) {
            Some(i) => if i < a.len() {
                i
            } else {
                -1
            },
            None => -1,
        },
        _ => -1,
    }
}

/// The node in slot `i`.
pub open spec fn child_at(n: Node, i: int) -> Node
    recommends
        0 <= i < node_len(n),
{
    match n {
        Node::Object(m) => m[i].1,
        Node::Array(a) => a[i],
        _ => Node::Null,
    }
}

/// The tree with the node in slot `i` replaced by `c`.
pub open spec fn with_child_at(n: Node, i: int, c: Node) -> Node
    recommends
        0 <= i < node_len(n),
{
    match n {
        Node::Object(m) => Node::Object(m.update(i, (m[i].0, c))),
        Node::Array(a) => Node::Array(a.update(i, c)),
        _ => n,
    }
}

/// The node in slot `i`, if there is such a slot.
pub open spec fn child_by_index(n: Node, i: int) -> Option<Node> {
    if 0 <= i < node_len(n) {
        Some(child_at(n, i))
    } else {
        None
    }
}

/// The node that a name addresses, if it addresses one.
pub open spec fn child_by_name(n: Node, name: Seq<char>) -> Option<Node> {
    child_by_index(n, slot_by_name(n, name))
}

/// A node as an integer: integers as they are (narrowed to the platform
/// width), floating-point numbers without their fraction, booleans as 1 or 0,
/// strings by their text; `default` where there is no integer to have.
pub open spec fn int_or(n: Node, default: isize) -> isize {
    match n {
        Node::Int(v) => v,
        Node::Int32(v) => v as isize,
        Node::Int64(v) => v as isize,
        Node::Float(d) => clamp_isize(truncated(d)) as isize,
        Node::Double(d) => clamp_isize(truncated(d)) as isize,
        Node::Boolean(b) => if b {
            1
        } else {
            0
        },
        Node::String(s) => match isize_of_text(encode_utf8(s)) {
            Some(v) => v,
            None => default,
        },
        _ => default,
    }
}

/// A node as an exact number: integers and floating-point numbers as they
/// are, booleans as 1 or 0; nothing for any other node.
pub open spec fn number_of(n: Node) -> Option<DecimalModel> {
    match n {
        Node::Int(v) => Some(integer_model(v as int)),
        Node::Int32(v) => Some(integer_model(v as int)),
        Node::Int64(v) => Some(integer_model(v as int)),
        Node::Float(d) => Some(d),
        Node::Double(d) => Some(d),
        Node::Boolean(b) => Some(
            integer_model(
                if b {
                    1
                } else {
                    0
                },
            ),
        ),
        _ => None,
    }
}

/// A node as a truth value: an integer other than zero, a floating-point
/// number above zero, a boolean as it is, a string that spells `true`.
pub open spec fn truth_of(n: Node) -> bool {
    match n {
        Node::Int(v) => v != 0,
        Node::Int32(v) => v != 0,
        Node::Int64(v) => v != 0,
        Node::Float(d) => is_positive(d),
        Node::Double(d) => is_positive(d),
        Node::Boolean(b) => b,
        Node::String(s) => is_true_text(encode_utf8(s)),
        _ => false,
    }
}

/// A node as text, in UTF-8: a string as it is, anything else as its JSON text.
pub open spec fn text_of(n: Node) -> Seq<u8> {
    match n {
        Node::String(s) => encode_utf8(s),
        _ => json_bytes(n),
    }
}

/// `after` is `before` with slot `i` holding another node; in an object the
/// member keeps its key.
pub open spec fn differs_at(before: DxValue, after: DxValue, i: int) -> bool {
    match before {
        DxValue::Object(m) => after matches DxValue::Object(w) && 0 <= i < m@.len() && w@.len()
            == m@.len() && w@[i].Key == m@[i].Key && (forall|j: int|
            0 <= j < m@.len() && j != i ==> w@[j] == m@[j]),
        DxValue::Array(a) => after matches DxValue::Array(w) && 0 <= i < a@.len() && w@.len()
            == a@.len() && (forall|j: int| 0 <= j < a@.len() && j != i ==> w@[j] == a@[j]),
        _ => false,
    }
}

/// The node now in slot `i`.
pub open spec fn slot_value(after: DxValue, i: int) -> DxValue {
    match after {
        DxValue::Object(w) => w@[i].Value,
        DxValue::Array(w) => w@[i],
        _ => after,
    }
}

/// Changing what one slot holds changes the model in that slot alone.
pub proof fn lemma_differs_at(before: DxValue, after: DxValue, i: int)
    requires
        differs_at(before, after, i),
    ensures
        after@ == with_child_at(before@, i, slot_value(after, i)@),
{
    match before {
        DxValue::Object(m) => {
            let was = before@->Object_0;
            assert(after@->Object_0 =~= was.update(i, (was[i].0, slot_value(after, i)@)));
        },
        DxValue::Array(a) => {
            let was = before@->Array_0;
            assert(after@->Array_0 =~= was.update(i, slot_value(after, i)@));
        },
        _ => {},
    }
}

impl DxValue {
    /// An object without members.
    pub fn newObject() -> (r: DxValue)
        ensures
            r@ == Node::Object(Seq::empty()),
            r.shared_views() == 0,
    {
        let r = DxValue::Object(Slots::new());
        assert(r@->Object_0 =~= Seq::empty());
        r
    }

    /// An array without elements.
    pub fn newArray() -> (r: DxValue)
        ensures
            r@ == Node::Array(Seq::empty()),
            r.shared_views() == 0,
    {
        let r = DxValue::Array(Slots::new());
        assert(r@->Array_0 =~= Seq::empty());
        r
    }

    /// The number of members or elements; 0 for a scalar.
    pub fn len(&self) -> (n: usize)
        ensures
            n == node_len(self@),
    {
        match self {
            DxValue::Object(m) => m.len(),
            DxValue::Array(a) => a.len(),
            _ => 0,
        }
    }

    /// The slot that `name` addresses.
    pub fn slot_of(&self, name: &str) -> (r: Option<usize>)
        ensures
            match r {
                Some(i) => slot_by_name(self@, name@) == i && i < node_len(self@),
                None => slot_by_name(self@, name@) == -1,
            },
    {
        match self {
            DxValue::Object(m) => {
                let ghost members = self@->Object_0;
                let n = m.len();
                let mut i: usize = 0;
                while i < n
                    invariant
                        i <= n,
                        n == m@.len(),
                        self matches DxValue::Object(mm) && mm == m,
                        members == self@->Object_0,
                        key_index_from(members, name@, 0) == key_index_from(
                            members,
                            name@,
                            i as int,
                        ),
                    decreases n - i,
                {
                    let member: &Key_Value = m.get(i);
                    assert(members[i as int].0 == member.Key@);
                    if str_eq(member.Key.as_str(), name) {
                        return Some(i);
                    }
                    i += 1;
                }
                None
            },
            DxValue::Array(a) => {
                match parse_index(name.as_bytes()) {
                    Some(i) => {
                        if i < a.len() {
                            Some(i)
                        } else {
                            None
                        }
                    },
                    None => None,
                }
            },
            _ => None,
        }
    }

    /// The node in slot `index`, if there is such a slot.
    pub fn peek_byIndex(&self, index: usize) -> (r: Option<&DxValue>)
        ensures
            match r {
                Some(v) => child_by_index(self@, index as int) == Some(v@),
                None => child_by_index(self@, index as int) is None,
            },
    {
        match self {
            DxValue::Object(m) => {
                if index < m.len() {
                    Some(&m.get(index).Value)
                } else {
                    None
                }
            },
            DxValue::Array(a) => {
                if index < a.len() {
                    Some(a.get(index))
                } else {
                    None
                }
            },
            _ => None,
        }
    }

    /// The node that `name` addresses, if it addresses one.
    pub fn peek_byName(&self, name: &str) -> (r: Option<&DxValue>)
        ensures
            match r {
                Some(v) => child_by_name(self@, name@) == Some(v@),
                None => child_by_name(self@, name@) is None,
            },
    {
        match self.slot_of(name) {
            Some(i) => self.peek_byIndex(i),
            None => None,
        }
    }

    /// Exclusive access to the node in slot `index`, if there is such a slot.
    /// Whatever the caller then does to that node, the rest of the tree stays.
    pub fn value_byIndex(&mut self, index: usize) -> (r: Option<&mut DxValue>)
        ensures
            match r {
                Some(v) => child_by_index(old(self)@, index as int) == Some(v@)
                    && final(self)@ == with_child_at(old(self)@, index as int, final(v)@)
                    && final(self).shared_views() == old(self).shared_views(),
                None => child_by_index(old(self)@, index as int) is None
                    && *final(self) == *old(self),
            },
    {
        match self {
            DxValue::Object(m) => {
                if index < m.len() {
                    proof {
                        let before = *old(self);
                        assert forall|after: DxValue| differs_at(before, after, index as int) implies 
                            #[trigger] after@ == with_child_at(
                            before@,
                            index as int,
                            slot_value(after, index as int)@,
                        ) by {
                            lemma_differs_at(before, after, index as int);
                        }
                    }
                    let member = m.get_mut(index);
                    let v = &mut member.Value;
                    Some(v)
                } else {
                    None
                }
            },
            DxValue::Array(a) => {
                if index < a.len() {
                    proof {
                        let before = *old(self);
                        assert forall|after: DxValue| differs_at(before, after, index as int) implies 
                            #[trigger] after@ == with_child_at(
                            before@,
                            index as int,
                            slot_value(after, index as int)@,
                        ) by {
                            lemma_differs_at(before, after, index as int);
                        }
                    }
                    let v = a.get_mut(index);
                    Some(v)
                } else {
                    None
                }
            },
            _ => None,
        }
    }

    /// Exclusive access to the node that `name` addresses, if it addresses one.
    pub fn value_byName(&mut self, name: &str) -> (r: Option<&mut DxValue>)
        ensures
            match r {
                Some(v) => child_by_name(old(self)@, name@) == Some(v@) && final(self)@
                    == with_child_at(old(self)@, slot_by_name(old(self)@, name@), final(v)@)
                    && final(self).shared_views() == old(self).shared_views(),
                None => child_by_name(old(self)@, name@) is None && *final(self) == *old(self),
            },
    {
        match self.slot_of(name) {
            Some(i) => self.value_byIndex(i),
            None => None,
        }
    }

    /// The node as an integer, 0 where it has none.
    pub fn as_int(&self) -> (r: isize)
        ensures
            r == int_or(self@, 0),
    {
        self.int_or(0)
    }

    /// The node as an integer, `default` where it has none.
    pub fn int_or(&self, default: isize) -> (r: isize)
        ensures
            r == int_or(self@, default),
    {
        match self {
            DxValue::Int(v) => *v,
            DxValue::Int32(v) => *v as isize,
            DxValue::Int64(v) => #[verifier::truncate]
            (*v as isize),
            DxValue::Float(d) => d.truncate_isize(),
            DxValue::Double(d) => d.truncate_isize(),
            DxValue::Boolean(b) => if *b {
                1
            } else {
                0
            },
            DxValue::String(s) => match parse_isize(s.as_str().as_bytes()) {
                Some(v) => v,
                None => default,
            },
            _ => default,
        }
    }

    /// The node as an exact number, for the kinds that `number_of` names.
    pub fn as_decimal(&self) -> (r: Option<Decimal>)
        ensures
            match number_of(self@) {
                Some(m) => r matches Some(d) && d@ == m,
                None => r is None,
            },
    {
        match self {
            DxValue::Int(v) => Some(Decimal::from_i64(*v as i64)),
            DxValue::Int32(v) => Some(Decimal::from_i64(*v as i64)),
            DxValue::Int64(v) => Some(Decimal::from_i64(*v)),
            DxValue::Float(d) => Some(d.copy()),
            DxValue::Double(d) => Some(d.copy()),
            DxValue::Boolean(b) => Some(
                Decimal::from_i64(
                    if *b {
                        1
                    } else {
                        0
                    },
                ),
            ),
            _ => None,
        }
    }

    /// The node as a truth value.
    pub fn as_bool(&self) -> (r: bool)
        ensures
            r == truth_of(self@),
    {
        match self {
            DxValue::Int(v) => *v != 0,
            DxValue::Int32(v) => *v != 0,
            DxValue::Int64(v) => *v != 0,
            DxValue::Float(d) => d.is_positive(),
            DxValue::Double(d) => d.is_positive(),
            DxValue::Boolean(b) => *b,
            DxValue::String(s) => is_true(s.as_str().as_bytes()),
            _ => false,
        }
    }

    /// The node as text: a string as it is, anything else as its JSON text.
    pub fn as_String(&self) -> (r: String)
        ensures
            encode_utf8(r@) == text_of(self@),
    {
        match self {
            DxValue::String(s) => s.clone(),
            _ => {
                let mut out: Vec<u8> = Vec::new();
                self.write_json(&mut out);
                proof {
                    lemma_json_valid(self@);
                    assert(out@ =~= json_bytes(self@));
                }
                text_of_bytes(out)
            },
        }
    }

    /// The text of the node that `name` addresses, if it addresses one.
    pub fn text_byName(&self, name: &str) -> (r: Option<String>)
        ensures
            match child_by_name(self@, name@) {
                Some(c) => r matches Some(s) && encode_utf8(s@) == text_of(c),
                None => r is None,
            },
    {
        match self.peek_byName(name) {
            Some(v) => Some(v.as_String()),
            None => None,
        }
    }

    /// The text of the node that `name` addresses, `defValue` when it addresses none.
    pub fn string_byName(&self, name: &str, defValue: &str) -> (r: String)
        ensures
            encode_utf8(r@) == (match child_by_name(self@, name@) {
                Some(c) => text_of(c),
                None => encode_utf8(defValue@),
            }),
    {
        match self.text_byName(name) {
            Some(s) => s,
            None => defValue.to_owned(),
        }
    }

    /// The integer of the node that `name` addresses, `defValue` when it
    /// addresses none or the node has no integer.
    pub fn int_byName(&self, name: &str, defValue: isize) -> (r: isize)
        ensures
            r == (match child_by_name(self@, name@) {
                Some(c) => int_or(c, defValue),
                None => defValue,
            }),
    {
        match self.peek_byName(name) {
            Some(v) => v.int_or(defValue),
            None => defValue,
        }
    }

    /// The truth value of the node that `name` addresses, `defValue` when it addresses none.
    pub fn bool_byName(&self, name: &str, defValue: bool) -> (r: bool)
        ensures
            r == (match child_by_name(self@, name@) {
                Some(c) => truth_of(c),
                None => defValue,
            }),
    {
        match self.peek_byName(name) {
            Some(v) => v.as_bool(),
            None => defValue,
        }
    }

    /// The text of the node in slot `index`, `defValue` when there is no such slot.
    pub fn string_byIndex(&self, index: usize, defValue: String) -> (r: String)
        ensures
            encode_utf8(r@) == (match child_by_index(self@, index as int) {
                Some(c) => text_of(c),
                None => encode_utf8(defValue@),
            }),
    {
        match self.peek_byIndex(index) {
            Some(v) => v.as_String(),
            None => defValue,
        }
    }

    /// The integer of the node in slot `index`, `defValue` when there is no
    /// such slot or the node has no integer.
    pub fn int_byIndex(&self, index: usize, defValue: isize) -> (r: isize)
        ensures
            r == (match child_by_index(self@, index as int) {
                Some(c) => int_or(c, defValue),
                None => defValue,
            }),
    {
        match self.peek_byIndex(index) {
            Some(v) => v.int_or(defValue),
            None => defValue,
        }
    }

    /// The truth value of the node in slot `index`, `defValue` when there is no such slot.
    pub fn bool_byIndex(&self, index: usize, defValue: bool) -> (r: bool)
        ensures
            r == (match child_by_index(self@, index as int) {
                Some(c) => truth_of(c),
                None => defValue,
            }),
    {
        match self.peek_byIndex(index) {
            Some(v) => v.as_bool(),
            None => defValue,
        }
    }
}

} // verus!
