//! The value tree and the operations on it.

pub mod access;
pub mod decimal;
pub mod json;
pub mod mutate;
pub mod reader;
pub mod roundtrip;
pub mod text;

use vstd::prelude::*;
use crate::dxvalue::decimal::{Decimal, DecimalModel};

verus! {

/// Why an operation on a container could not be carried out.
#[derive(Debug, PartialEq, Eq, Clone, Copy, Structural)]
pub enum AccessError {
    /// The container would have to change its length while shared views of it are open.
    AliasingViolation,
}

/// What a setter did to the tree.
#[derive(Debug, PartialEq, Eq, Clone, Copy, Structural)]
pub enum SetStatus {
    /// An existing slot now holds the new value.
    Replaced,
    /// The value was added as the last slot.
    Appended,
    /// The value was added as the first slot.
    InsertedFront,
    /// The node is not of a kind the setter works on; nothing changed.
    NotApplicable,
}

/// The child slots of a container, in order, together with the number of
/// shared views that are open on them. While a shared view is open the slots
/// keep their number and order; what a slot holds may still be replaced.
#[derive(Debug)]
pub struct Slots<T> {
    items: Vec<T>,
    shared: usize,
}

impl<T> View for Slots<T> {
    type V = Seq<T>;

    closed spec fn view(&self) -> Seq<T> {
        self.items@
    }
}

impl<T> Slots<T> {
    /// What a slot holds is smaller than the slots together, so a recursion
    /// into it ends.
    pub proof fn lemma_slot_decreases(self, i: int)
        requires
            0 <= i < self@.len(),
        ensures
            decreases_to!(self => self@[i]),
    {
    }

    /// The number of shared views that are open.
    pub closed spec fn shared_views(&self) -> nat {
        self.shared as nat
    }

    /// No slots, no views.
    pub fn new() -> (r: Slots<T>)
        ensures
            r@ == Seq::<T>::empty(),
            r.shared_views() == 0,
    {
        Slots { items: Vec::new(), shared: 0 }
    }

    /// The number of slots.
    pub fn len(&self) -> (n: usize)
        ensures
            n == self@.len(),
    {
        self.items.len()
    }

    /// What slot `i` holds.
    pub fn get(&self, i: usize) -> (r: &T)
        requires
            i < self@.len(),
        ensures
            *r == self@[i as int],
    {
        &self.items[i]
    }

    /// Exclusive access to what slot `i` holds. The slots themselves stay as they are.
    pub fn get_mut(&mut self, i: usize) -> (r: &mut T)
        requires
            i < old(self)@.len(),
        ensures
            *r == old(self)@[i as int],
            final(self)@ == old(self)@.update(i as int, *final(r)),
            final(self).shared_views() == old(self).shared_views(),
    {
        &mut self.items[i]
    }

    /// Puts `value` into slot `i`. This changes no length, so open views do not matter.
    pub fn replace(&mut self, i: usize, value: T)
        requires
            i < old(self)@.len(),
        ensures
            final(self)@ == old(self)@.update(i as int, value),
            final(self).shared_views() == old(self).shared_views(),
    {
        self.items.set(i, value);
    }

    /// Adds a last slot, unless a shared view is open.
    pub fn push(&mut self, value: T) -> (r: Result<(), AccessError>)
        ensures
            final(self).shared_views() == old(self).shared_views(),
            old(self).shared_views() == 0 ==> r is Ok && final(self)@ == old(self)@.push(value),
            old(self).shared_views() > 0 ==> r == Err::<(), AccessError>(
                AccessError::AliasingViolation,
            ) && final(self)@ == old(self)@,
    {
        if self.shared > 0 {
            return Err(AccessError::AliasingViolation);
        }
        self.items.push(value);
        Ok(())
    }

    /// Adds a first slot, unless a shared view is open.
    pub fn insert_front(&mut self, value: T) -> (r: Result<(), AccessError>)
        ensures
            final(self).shared_views() == old(self).shared_views(),
            old(self).shared_views() == 0 ==> r is Ok && final(self)@ == seq![value] + old(self)@,
            old(self).shared_views() > 0 ==> r == Err::<(), AccessError>(
                AccessError::AliasingViolation,
            ) && final(self)@ == old(self)@,
    {
        if self.shared > 0 {
            return Err(AccessError::AliasingViolation);
        }
        self.items.insert(0, value);
        assert(self.items@ =~= seq![value] + old(self).items@);
        Ok(())
    }

    /// Opens a shared view. It tells whether it did: it cannot when the
    /// counter is at its limit.
    pub fn acquire_shared(&mut self) -> (opened: bool)
        ensures
            final(self)@ == old(self)@,
            opened == (old(self).shared_views() < usize::MAX),
            final(self).shared_views() == old(self).shared_views() + (if opened {
                1nat
            } else {
                0nat
            }),
    {
        if self.shared < usize::MAX {
            self.shared = self.shared + 1;
            true
        } else {
            false
        }
    }

    /// Closes a shared view, if one is open.
    pub fn release_shared(&mut self)
        ensures
            final(self)@ == old(self)@,
            final(self).shared_views() == (if old(self).shared_views() > 0 {
                (old(self).shared_views() - 1) as nat
            } else {
                0nat
            }),
    {
        if self.shared > 0 {
            self.shared = self.shared - 1;
        }
    }
}

/// A member of an object: a key and the node under it.
#[derive(Debug)]
pub struct Key_Value {
    pub Key: String,
    pub Value: DxValue,
}

/// A node of the tree.
#[derive(Debug)]
pub enum DxValue {
    Object(Slots<Key_Value>),
    Array(Slots<DxValue>),
    String(String),
    Int(isize),
    Int32(i32),
    Int64(i64),
    Float(Decimal),
    Double(Decimal),
    Boolean(bool),
    Null,
}

/// The tree as a mathematical value: what a `DxValue` holds, without the
/// bookkeeping of its containers.
pub enum Node {
    Object(Seq<(Seq<char>, Node)>),
    Array(Seq<Node>),
    String(Seq<char>),
    Int(isize),
    Int32(i32),
    Int64(i64),
    Float(DecimalModel),
    Double(DecimalModel),
    Boolean(bool),
    Null,
}

impl DxValue {
    /// The mathematical value of the node.
    pub open spec fn model(self) -> Node
        decreases self,
    {
        match self {
            DxValue::Object(m) => Node::Object(
                Seq::new(
                    m@.len(),
                    |i: int|
                        if 0 <= i < m@.len() {
                            (m@[i].Key@, m@[i].Value.model())
                        } else {
                            (Seq::<char>::empty(), Node::Null)
                        },
                ),
            ),
            DxValue::Array(a) => Node::Array(
                Seq::new(
                    a@.len(),
                    |i: int|
                        if 0 <= i < a@.len() {
                            a@[i].model()
                        } else {
                            Node::Null
                        },
                ),
            ),
            DxValue::String(s) => Node::String(s@),
            DxValue::Int(v) => Node::Int(v),
            DxValue::Int32(v) => Node::Int32(v),
            DxValue::Int64(v) => Node::Int64(v),
            DxValue::Float(d) => Node::Float(d@),
            DxValue::Double(d) => Node::Double(d@),
            DxValue::Boolean(b) => Node::Boolean(b),
            DxValue::Null => Node::Null,
        }
    }

    /// The number of shared views open on this node's own slots; none on a scalar.
    pub open spec fn shared_views(self) -> nat {
        match self {
            DxValue::Object(m) => m.shared_views(),
            DxValue::Array(a) => a.shared_views(),
            _ => 0,
        }
    }
}

impl View for DxValue {
    type V = Node;

    open spec fn view(&self) -> Node {
        self.model()
    }
}

} // verus!
