//! Identifier and value model: actor ids, operation ids and their total
//! order, object handles, property selectors, scalar values and operations.

use vstd::prelude::*;

verus! {

/// Identity of a replica. Pairs with a per-document counter to form
/// globally unique, totally ordered operation ids.
pub type ActorId = u64;

/// Globally unique operation id: ordered by counter first, actor second.
/// This order is the sole arbiter of which concurrent write wins.
#[derive(Clone, Copy, PartialEq, Eq, Structural, Debug, Hash)]
pub struct OpId {
    pub counter: u64,
    pub actor: ActorId,
}

/// Total order on operation ids: counter is the primary key, actor the
/// tie-break.
pub open spec fn opid_le(a: OpId, b: OpId) -> bool {
    a.counter < b.counter || (a.counter == b.counter && a.actor <= b.actor)
}

/// Strict version of [`opid_le`].
pub open spec fn opid_lt(a: OpId, b: OpId) -> bool {
    a.counter < b.counter || (a.counter == b.counter && a.actor < b.actor)
}

impl OpId {
    /// Decides the id order `opid_le`.
    pub fn le(&self, other: &OpId) -> (r: bool)
        ensures
            r == opid_le(*self, *other),
    {
        self.counter < other.counter || (self.counter == other.counter && self.actor
            <= other.actor)
    }
}

/// The kind of a container object.
#[derive(Clone, Copy, PartialEq, Eq, Structural, Debug)]
pub enum ObjType {
    Dict,
    Table,
    List,
    Text,
}

impl ObjType {
    /// Sequence objects are addressed by index, the others by string key.
    pub open spec fn spec_is_sequence(self) -> bool {
        self is List || self is Text
    }

    /// Decides `spec_is_sequence`.
    pub fn is_sequence(&self) -> (r: bool)
        ensures
            r == self.spec_is_sequence(),
    {
        match self {
            ObjType::List | ObjType::Text => true,
            _ => false,
        }
    }
}

/// Stable external handle of an object: the root singleton, or the id of
/// the operation that created the object.
#[derive(Clone, Copy, PartialEq, Eq, Structural, Debug)]
pub enum ExId {
    Root,
    Object(OpId),
}

/// A scalar value held at a key or list element.
#[derive(Debug, PartialEq, Eq)]
pub enum ScalarValue {
    Null,
    Bool(bool),
    Int(i64),
    Uint(u64),
    Counter(i64),
    Str(String),
}

/// Spec-level image of a scalar, with strings as character sequences.
pub enum ScalarModel {
    Null,
    Bool(bool),
    Int(i64),
    Uint(u64),
    Counter(i64),
    Str(Seq<char>),
}

impl View for ScalarValue {
    type V = ScalarModel;

    open spec fn view(&self) -> ScalarModel {
        match self {
            ScalarValue::Null => ScalarModel::Null,
            ScalarValue::Bool(b) => ScalarModel::Bool(*b),
            ScalarValue::Int(n) => ScalarModel::Int(*n),
            ScalarValue::Uint(n) => ScalarModel::Uint(*n),
            ScalarValue::Counter(n) => ScalarModel::Counter(*n),
            ScalarValue::Str(s) => ScalarModel::Str(s@),
        }
    }
}

impl ScalarValue {
    /// Copy of the scalar, equal at the model level.
    pub fn dup(&self) -> (r: ScalarValue)
        ensures
            r@ == self@,
    {
        match self {
            ScalarValue::Null => ScalarValue::Null,
            ScalarValue::Bool(b) => ScalarValue::Bool(*b),
            ScalarValue::Int(n) => ScalarValue::Int(*n),
            ScalarValue::Uint(n) => ScalarValue::Uint(*n),
            ScalarValue::Counter(n) => ScalarValue::Counter(*n),
            ScalarValue::Str(s) => ScalarValue::Str(s.clone()),
        }
    }
}

/// A materialized value: a nested container or a scalar.
#[derive(Debug, PartialEq, Eq)]
pub enum Value {
    Object(ObjType),
    Scalar(ScalarValue),
}

/// Spec-level image of a materialized value.
pub enum ValueModel {
    Object(ObjType),
    Scalar(ScalarModel),
}

impl View for Value {
    type V = ValueModel;

    open spec fn view(&self) -> ValueModel {
        match self {
            Value::Object(t) => ValueModel::Object(*t),
            Value::Scalar(s) => ValueModel::Scalar(s@),
        }
    }
}

/// Caller-facing property selector: a map key or a sequence index.
#[derive(Debug)]
pub enum Prop {
    Key(String),
    Index(usize),
}

/// Spec-level image of a property selector.
pub enum PropModel {
    Key(Seq<char>),
    Index(usize),
}

impl View for Prop {
    type V = PropModel;

    open spec fn view(&self) -> PropModel {
        match self {
            Prop::Key(s) => PropModel::Key(s@),
            Prop::Index(i) => PropModel::Index(*i),
        }
    }
}

impl Prop {
    /// Copy of the selector, equal at the model level.
    pub fn dup(&self) -> (r: Prop)
        ensures
            r@ == self@,
    {
        match self {
            Prop::Key(s) => Prop::Key(s.clone()),
            Prop::Index(i) => Prop::Index(*i),
        }
    }
}

/// Position reference inside a sequence object: the head sentinel, or the
/// id of the element (insertion operation) to the left.
#[derive(Clone, Copy, PartialEq, Eq, Structural, Debug)]
pub enum ElemId {
    Head,
    Id(OpId),
}

/// Storage-level key of an operation: a map key, or the element it targets
/// (for insertions: the anchor element it goes after).
#[derive(Debug)]
pub enum Key {
    Field(String),
    Elem(ElemId),
}

/// Spec-level image of a storage key.
pub enum KeyModel {
    Field(Seq<char>),
    Elem(ElemId),
}

impl View for Key {
    type V = KeyModel;

    open spec fn view(&self) -> KeyModel {
        match self {
            Key::Field(s) => KeyModel::Field(s@),
            Key::Elem(e) => KeyModel::Elem(*e),
        }
    }
}

/// What an operation does at its key.
#[derive(Debug)]
pub enum OpAction {
    Put(ScalarValue),
    Make(ObjType),
    Delete,
    Increment(i64),
}

/// Spec-level image of an operation action.
pub enum ActionModel {
    Put(ScalarModel),
    Make(ObjType),
    Delete,
    Increment(i64),
}

impl View for OpAction {
    type V = ActionModel;

    open spec fn view(&self) -> ActionModel {
        match self {
            OpAction::Put(s) => ActionModel::Put(s@),
            OpAction::Make(t) => ActionModel::Make(*t),
            OpAction::Delete => ActionModel::Delete,
            OpAction::Increment(d) => ActionModel::Increment(*d),
        }
    }
}

/// One operation of the log. `pred` lists the ids of the operations this
/// one supersedes (the values visible at its key when it was created).
#[derive(Debug)]
pub struct Op {
    pub id: OpId,
    pub obj: ExId,
    pub key: Key,
    pub insert: bool,
    pub action: OpAction,
    pub pred: Vec<OpId>,
}

/// Spec-level image of an operation.
pub struct OpModel {
    pub id: OpId,
    pub obj: ExId,
    pub key: KeyModel,
    pub insert: bool,
    pub action: ActionModel,
    pub pred: Seq<OpId>,
}

impl View for Op {
    type V = OpModel;

    open spec fn view(&self) -> OpModel {
        OpModel {
            id: self.id,
            obj: self.obj,
            key: self.key@,
            insert: self.insert,
            action: self.action@,
            pred: self.pred@,
        }
    }
}

impl Key {
    /// Copy of the key, equal at the model level.
    pub fn dup(&self) -> (r: Key)
        ensures
            r@ == self@,
    {
        match self {
            Key::Field(s) => Key::Field(s.clone()),
            Key::Elem(e) => Key::Elem(*e),
        }
    }
}

impl OpAction {
    /// Copy of the action, equal at the model level.
    pub fn dup(&self) -> (r: OpAction)
        ensures
            r@ == self@,
    {
        match self {
            OpAction::Put(s) => OpAction::Put(s.dup()),
            OpAction::Make(t) => OpAction::Make(*t),
            OpAction::Delete => OpAction::Delete,
            OpAction::Increment(d) => OpAction::Increment(*d),
        }
    }
}

/// Copy of an id vector, equal at the view level.
pub fn dup_opids(v: &Vec<OpId>) -> (r: Vec<OpId>)
    ensures
        r@ == v@,
{
    let mut r: Vec<OpId> = Vec::new();
    let mut i: usize = 0;
    while i < v.len()
        invariant
            i <= v.len(),
            r@ == v@.subrange(0, i as int),
        decreases v.len() - i,
    {
        r.push(v[i]);
        i = i + 1;
    }
    assert(v@.subrange(0, v.len() as int) == v@);
    r
}

impl Op {
    /// Copy of the operation, equal at the model level.
    pub fn dup(&self) -> (r: Op)
        ensures
            r@ == self@,
    {
        Op {
            id: self.id,
            obj: self.obj,
            key: self.key.dup(),
            insert: self.insert,
            action: self.action.dup(),
            pred: dup_opids(&self.pred),
        }
    }
}

/// Errors surfaced by mutating and reading calls. All are recoverable:
/// a failed operation is not applied and the caller may retry, continue
/// or roll the transaction back.
#[derive(Clone, Copy, PartialEq, Eq, Structural, Debug)]
pub enum OperationError {
    /// The target handle does not resolve to a live object.
    ObjectNotFound,
    /// The property kind (key vs index) does not match the object's type.
    InvalidProp,
    /// The value kind is incompatible with the operation (for example an
    /// increment on a value that is not a counter).
    TypeMismatch,
    /// An insert, put or splice position lies outside the valid range.
    IndexOutOfBounds,
    /// An ingested change references a parent hash not present in the
    /// history graph.
    MissingDependency,
    /// An ingested change's computed content hash does not match its
    /// claimed identity; the change is rejected rather than repaired.
    HashMismatch,
}

} // verus!
