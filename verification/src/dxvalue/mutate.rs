//! Changing the tree: scalar setters that keep a compatible representation,
//! and setters of members and elements.

use vstd::prelude::*;
use vstd::utf8::*;
use crate::dxvalue::access::{
    child_by_index, child_by_name, key_index_from, lemma_key_index, lemma_key_index_is, node_len,
    slot_by_name, with_child_at,
};
use crate::dxvalue::decimal::{Decimal, DecimalModel};
use crate::dxvalue::text::{index_of_text, parse_index};
use crate::dxvalue::{AccessError, DxValue, Key_Value, Node, SetStatus};

verus! {

/// The container with one more slot at its end.
pub open spec fn appended(n: Node, key: Seq<char>, c: Node) -> Node {
    match n {
        Node::Object(m) => Node::Object(m.push((key, c))),
        Node::Array(a) => Node::Array(a.push(c)),
        _ => n,
    }
}

/// The array with one more element at its front.
pub open spec fn front_inserted(n: Node, c: Node) -> Node {
    match n {
        Node::Array(a) => Node::Array(seq![c] + a),
        _ => n,
    }
}

/// What adding a slot comes to: it is added when no shared view is open on the
/// container, and refused, the tree staying as it is, when one is.
pub open spec fn grow(n: Node, shared: nat, grown: Node, how: SetStatus) -> (
    Node,
    Result<SetStatus, AccessError>,
) {
    if shared == 0 {
        (grown, Ok(how))
    } else {
        (n, Err(AccessError::AliasingViolation))
    }
}

/// What setting `c` under `name` makes of a node with `shared` open views, and
/// what it reports. In an object the first member with that key gets the
/// value, and a new last member is made when there is none. In an array the
/// name must spell an index: the element there gets the value, and an index
/// at or past the end appends. Any other node is left alone.
pub open spec fn set_by_name(n: Node, shared: nat, name: Seq<char>, c: Node) -> (
    Node,
    Result<SetStatus, AccessError>,
) {
    match n {
        Node::Object(m) => {
            let i = key_index_from(m, name, 0);
            if i >= 0 {
                (with_child_at(n, i, c), Ok(SetStatus::Replaced))
            } else {
                grow(n, shared, appended(n, name, c), SetStatus::Appended)
            }
        },
        Node::Array(a) => match index_of_text(encode_utf8(name)) {
            Some(i) => if i < a.len() {
                (with_child_at(n, i, c), Ok(SetStatus::Replaced))
            } else {
                grow(n, shared, appended(n, name, c), SetStatus::Appended)
            },
            None => (n, Ok(SetStatus::NotApplicable)),
        },
        _ => (n, Ok(SetStatus::NotApplicable)),
    }
}

/// What setting `c` at index `idx` makes of a node with `shared` open views,
/// and what it reports. In an array an index within the length replaces, one
/// at or past the end appends, a negative one inserts at the front. In an
/// object an index within the length replaces that member's value; no other
/// index does anything. Any other node is left alone.
pub open spec fn set_by_index(n: Node, shared: nat, idx: int, c: Node) -> (
    Node,
    Result<SetStatus, AccessError>,
) {
    match n {
        Node::Object(m) => if 0 <= idx < m.len() {
            (with_child_at(n, idx, c), Ok(SetStatus::Replaced))
        } else {
            (n, Ok(SetStatus::NotApplicable))
        },
        Node::Array(a) => if idx < 0 {
            grow(n, shared, front_inserted(n, c), SetStatus::InsertedFront)
        } else if idx >= a.len() {
            grow(n, shared, appended(n, Seq::empty(), c), SetStatus::Appended)
        } else {
            (with_child_at(n, idx, c), Ok(SetStatus::Replaced))
        },
        _ => (n, Ok(SetStatus::NotApplicable)),
    }
}

/// What `setInt` makes of a node: an integer node keeps its width, the value
/// narrowed or widened to it; any other node becomes a platform-width integer.
pub open spec fn int_set(n: Node, value: isize) -> Node {
    match n {
        Node::Int32(_) => Node::Int32(value as i32),
        Node::Int64(_) => Node::Int64(value as i64),
        _ => Node::Int(value),
    }
}

/// What has just been set under a name is what a lookup by that name finds.
/// In an array the name must spell an index no greater than the length: a
/// greater one appends, and the element then stands at the end.
pub proof fn law_set_then_get_by_name(n: Node, shared: nat, name: Seq<char>, c: Node)
    requires
        set_by_name(n, shared, name, c).1 is Ok,
        set_by_name(n, shared, name, c).1 != Ok::<SetStatus, AccessError>(
            SetStatus::NotApplicable,
        ),
        n is Array ==> index_of_text(encode_utf8(name))->0 <= node_len(n),
    ensures
        child_by_name(set_by_name(n, shared, name, c).0, name) == Some(c),
{
    let after = set_by_name(n, shared, name, c).0;
    match n {
        Node::Object(m) => {
            let i = key_index_from(m, name, 0);
            lemma_key_index(m, name, 0);
            if i >= 0 {
                let w = m.update(i, (m[i].0, c));
                assert forall|j: int| 0 <= j < i implies (#[trigger] w[j]).0 != name by {
                    assert(w[j] == m[j]);
                }
                lemma_key_index_is(w, name, 0, i);
            } else {
                let w = m.push((name, c));
                assert forall|j: int| 0 <= j < m.len() implies (#[trigger] w[j]).0 != name by {
                    assert(w[j] == m[j]);
                }
                lemma_key_index_is(w, name, 0, m.len() as int);
            }
        },
        _ => {},
    }
}

/// What has just been set at an index is what a lookup at that index finds,
/// for an index from 0 to the length. A greater one appends, and the element
/// then stands at the end; a negative one inserts at the front.
pub proof fn law_set_then_get_by_index(n: Node, shared: nat, idx: int, c: Node)
    requires
        set_by_index(n, shared, idx, c).1 is Ok,
        set_by_index(n, shared, idx, c).1 != Ok::<SetStatus, AccessError>(
            SetStatus::NotApplicable,
        ),
        0 <= idx <= node_len(n),
    ensures
        child_by_index(set_by_index(n, shared, idx, c).0, idx) == Some(c),
{
}

/// While a shared view is open on a container, giving an existing slot
/// another value goes through and leaves the number of slots as it is, and
/// adding a slot is refused with the tree untouched.
pub proof fn law_shared_view_keeps_slots(n: Node, shared: nat, name: Seq<char>, c: Node)
    requires
        shared > 0,
        n is Object || n is Array,
    ensures
        slot_by_name(n, name) >= 0 ==> set_by_name(n, shared, name, c).1 == Ok::<
            SetStatus,
            AccessError,
        >(SetStatus::Replaced) && node_len(set_by_name(n, shared, name, c).0) == node_len(n),
        slot_by_name(n, name) < 0 && set_by_name(n, shared, name, c).1 != Ok::<
            SetStatus,
            AccessError,
        >(SetStatus::NotApplicable) ==> set_by_name(n, shared, name, c) == (
            n,
            Err::<SetStatus, AccessError>(AccessError::AliasingViolation),
        ),
{
    match n {
        Node::Object(m) => {
            lemma_key_index(m, name, 0);
        },
        _ => {},
    }
}

/// What `setDouble` and `setFloat` make of a node: a floating-point node
/// keeps its width, any other node becomes one of the setter's width.
pub open spec fn decimal_set(n: Node, value: DecimalModel, double: bool) -> Node {
    match n {
        Node::Float(_) => Node::Float(value),
        Node::Double(_) => Node::Double(value),
        _ => if double {
            Node::Double(value)
        } else {
            Node::Float(value)
        },
    }
}

impl Key_Value {
    /// A member with the given key and node.
    pub fn new_value(key: &str, v: DxValue) -> (r: Key_Value)
        ensures
            r.Key@ == key@,
            r.Value == v,
    {
        Key_Value { Key: key.to_owned(), Value: v }
    }

    /// A member holding a platform-width integer.
    pub fn new_int(key: &str, v: isize) -> (r: Key_Value)
        ensures
            r.Key@ == key@,
            r.Value@ == Node::Int(v),
    {
        Key_Value::new_value(key, DxValue::Int(v))
    }

    /// A member holding a 32-bit integer.
    pub fn new_int32(key: &str, v: i32) -> (r: Key_Value)
        ensures
            r.Key@ == key@,
            r.Value@ == Node::Int32(v),
    {
        Key_Value::new_value(key, DxValue::Int32(v))
    }

    /// A member holding a 64-bit integer.
    pub fn new_int64(key: &str, v: i64) -> (r: Key_Value)
        ensures
            r.Key@ == key@,
            r.Value@ == Node::Int64(v),
    {
        Key_Value::new_value(key, DxValue::Int64(v))
    }

    /// A member holding a string.
    pub fn new_string(key: &str, v: &str) -> (r: Key_Value)
        ensures
            r.Key@ == key@,
            r.Value@ == Node::String(v@),
    {
        Key_Value::new_value(key, DxValue::String(v.to_owned()))
    }

    /// A member holding a boolean.
    pub fn new_bool(key: &str, v: bool) -> (r: Key_Value)
        ensures
            r.Key@ == key@,
            r.Value@ == Node::Boolean(v),
    {
        Key_Value::new_value(key, DxValue::Boolean(v))
    }

    /// A member holding a single-width floating-point number.
    pub fn new_Float(key: &str, v: Decimal) -> (r: Key_Value)
        ensures
            r.Key@ == key@,
            r.Value@ == Node::Float(v@),
    {
        Key_Value::new_value(key, DxValue::Float(v))
    }

    /// A member holding a double-width floating-point number.
    pub fn new_Double(key: &str, v: Decimal) -> (r: Key_Value)
        ensures
            r.Key@ == key@,
            r.Value@ == Node::Double(v@),
    {
        Key_Value::new_value(key, DxValue::Double(v))
    }
}

impl DxValue {
    /// Opens a shared view on the slots of a container, for a traversal during
    /// which they must keep their number and order. It tells whether a view
    /// was opened: none is on a scalar, nor when the counter is at its limit.
    pub fn acquire_shared(&mut self) -> (opened: bool)
        ensures
            final(self)@ == old(self)@,
            opened == ((old(self)@ is Object || old(self)@ is Array) && old(self).shared_views()
                < usize::MAX),
            final(self).shared_views() == old(self).shared_views() + (if opened {
                1nat
            } else {
                0nat
            }),
    {
        match self {
            DxValue::Object(m) => m.acquire_shared(),
            DxValue::Array(a) => a.acquire_shared(),
            _ => false,
        }
    }

    /// Closes a shared view, if one is open.
    pub fn release_shared(&mut self)
        ensures
            final(self)@ == old(self)@,
            final(self).shared_views() == (if old(self).shared_views() > 0 {
                (old(self).shared_views() - 1) as nat
            } else {
                0nat
            }),
    {
        match self {
            DxValue::Object(m) => m.release_shared(),
            DxValue::Array(a) => a.release_shared(),
            _ => {},
        }
    }

    /// Makes the node a string with the given text: a string node gets the new
    /// text, any other node is replaced.
    pub fn setString(&mut self, value: &str)
        ensures
            final(self)@ == Node::String(value@),
    {
        match self {
            DxValue::String(t) => {
                *t = value.to_owned();
            },
            _ => {
                *self = DxValue::String(value.to_owned());
            },
        }
    }

    /// Makes the node hold the integer: an integer node keeps its width, any
    /// other node is replaced by a platform-width integer.
    pub fn setInt(&mut self, value: isize)
        ensures
            final(self)@ == int_set(old(self)@, value),
    {
        match self {
            DxValue::Int(t) => {
                *t = value;
            },
            DxValue::Int32(t) => {
                *t = #[verifier::truncate]
                (value as i32);
            },
            DxValue::Int64(t) => {
                *t = value as i64;
            },
            _ => {
                *self = DxValue::Int(value);
            },
        }
    }

    /// Makes the node hold the number: a floating-point node keeps its width,
    /// any other node is replaced by a single-width one.
    pub fn setFloat(&mut self, value: Decimal)
        ensures
            final(self)@ == decimal_set(old(self)@, value@, false),
    {
        match self {
            DxValue::Float(t) => {
                *t = value;
            },
            DxValue::Double(t) => {
                *t = value;
            },
            _ => {
                *self = DxValue::Float(value);
            },
        }
    }

    /// Makes the node hold the number: a floating-point node keeps its width,
    /// any other node is replaced by a double-width one.
    pub fn setDouble(&mut self, value: Decimal)
        ensures
            final(self)@ == decimal_set(old(self)@, value@, true),
    {
        match self {
            DxValue::Float(t) => {
                *t = value;
            },
            DxValue::Double(t) => {
                *t = value;
            },
            _ => {
                *self = DxValue::Double(value);
            },
        }
    }

    /// Makes the node hold the boolean: a boolean node gets the new value, any
    /// other node is replaced.
    pub fn setBool(&mut self, value: bool)
        ensures
            final(self)@ == Node::Boolean(value),
    {
        match self {
            DxValue::Boolean(t) => {
                *t = value;
            },
            _ => {
                *self = DxValue::Boolean(value);
            },
        }
    }

    /// Puts `value` into slot `i`.
    fn replace_at(&mut self, i: usize, value: DxValue)
        requires
            i < node_len(old(self)@),
        ensures
            final(self)@ == with_child_at(old(self)@, i as int, value@),
            final(self).shared_views() == old(self).shared_views(),
    {
        match self.value_byIndex(i) {
            Some(slot) => {
                *slot = value;
            },
            None => {},
        }
    }

    /// Adds a last slot to a container.
    fn append(&mut self, name: &str, value: DxValue) -> (r: Result<SetStatus, AccessError>)
        requires
            old(self)@ is Object || old(self)@ is Array,
        ensures
            (final(self)@, r) == grow(
                old(self)@,
                old(self).shared_views(),
                appended(old(self)@, name@, value@),
                SetStatus::Appended,
            ),
            final(self).shared_views() == old(self).shared_views(),
    {
        let pushed = match self {
            DxValue::Object(m) => m.push(Key_Value::new_value(name, value)),
            DxValue::Array(a) => a.push(value),
            _ => Ok(()),
        };
        proof {
            if old(self).shared_views() == 0 {
                match *old(self) {
                    DxValue::Object(m) => {
                        assert(final(self)@->Object_0 =~= old(self)@->Object_0.push(
                            (name@, value@),
                        ));
                    },
                    DxValue::Array(a) => {
                        assert(final(self)@->Array_0 =~= old(self)@->Array_0.push(value@));
                    },
                    _ => {},
                }
            } else {
                match *old(self) {
                    DxValue::Object(m) => {
                        assert(final(self)@->Object_0 =~= old(self)@->Object_0);
                    },
                    DxValue::Array(a) => {
                        assert(final(self)@->Array_0 =~= old(self)@->Array_0);
                    },
                    _ => {},
                }
            }
        }
        match pushed {
            Ok(()) => Ok(SetStatus::Appended),
            Err(e) => Err(e),
        }
    }

    /// Sets the node under `name`: see `set_by_name`.
    pub fn setKeyValue(&mut self, name: &str, value: DxValue) -> (r: Result<
        SetStatus,
        AccessError,
    >)
        ensures
            (final(self)@, r) == set_by_name(
                old(self)@,
                old(self).shared_views(),
                name@,
                value@,
            ),
            final(self).shared_views() == old(self).shared_views(),
    {
        match self.slot_of(name) {
            Some(i) => {
                self.replace_at(i, value);
                Ok(SetStatus::Replaced)
            },
            None => {
                let grows = match self {
                    DxValue::Object(_) => true,
                    DxValue::Array(_) => parse_index(name.as_bytes()).is_some(),
                    _ => false,
                };
                if grows {
                    self.append(name, value)
                } else {
                    Ok(SetStatus::NotApplicable)
                }
            },
        }
    }

    /// Sets the string under `name`: see `set_by_name`.
    pub fn setKeyString(&mut self, name: &str, value: &str) -> (r: Result<
        SetStatus,
        AccessError,
    >)
        ensures
            (final(self)@, r) == set_by_name(
                old(self)@,
                old(self).shared_views(),
                name@,
                Node::String(value@),
            ),
            final(self).shared_views() == old(self).shared_views(),
    {
        self.setKeyValue(name, DxValue::String(value.to_owned()))
    }

    /// Sets the node at index `idx`: see `set_by_index`.
    pub fn setIndexValue(&mut self, idx: isize, value: DxValue) -> (r: Result<
        SetStatus,
        AccessError,
    >)
        ensures
            (final(self)@, r) == set_by_index(
                old(self)@,
                old(self).shared_views(),
                idx as int,
                value@,
            ),
            final(self).shared_views() == old(self).shared_views(),
    {
        if idx >= 0 && (idx as usize) < self.len() {
            self.replace_at(idx as usize, value);
            return Ok(SetStatus::Replaced);
        }
        match self {
            DxValue::Array(a) => {
                if idx < 0 {
                    let put = a.insert_front(value);
                    proof {
                        if old(self).shared_views() == 0 {
                            assert(final(self)@->Array_0 =~= seq![value@] + old(self)@->Array_0);
                        } else {
                            assert(final(self)@->Array_0 =~= old(self)@->Array_0);
                        }
                    }
                    match put {
                        Ok(()) => Ok(SetStatus::InsertedFront),
                        Err(e) => Err(e),
                    }
                } else {
                    let put = a.push(value);
                    proof {
                        if old(self).shared_views() == 0 {
                            assert(final(self)@->Array_0 =~= old(self)@->Array_0.push(value@));
                        } else {
                            assert(final(self)@->Array_0 =~= old(self)@->Array_0);
                        }
                    }
                    match put {
                        Ok(()) => Ok(SetStatus::Appended),
                        Err(e) => Err(e),
                    }
                }
            },
            _ => Ok(SetStatus::NotApplicable),
        }
    }
}

} // verus!
