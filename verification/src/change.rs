//! Committed changes: an immutable bundle of operations with causal parent
//! references, identified by a content hash over a canonical serialization
//! of its metadata and operations.

use vstd::prelude::*;
use vstd::wrapping::u64_specs;

use crate::model::{i64_bits, views};
use crate::types::{
    ActionModel, ActorId, ElemId, ExId, Key, KeyModel, ObjType, Op, OpId, OpModel, ScalarModel,
    ScalarValue,
};

verus! {

/// Content identity of a change: the sole externally meaningful identifier
/// of a node of the history graph.
#[derive(Clone, Copy, PartialEq, Eq, Structural, Debug, Hash)]
pub struct ChangeHash(pub u64);

/// An immutable bundle of operations committed together, with its causal
/// parents (`deps`), actor, per-actor sequence number, the counter of its
/// first operation, and commit metadata.
#[derive(Debug)]
pub struct Change {
    pub actor: ActorId,
    pub seq: u64,
    pub start_op: u64,
    pub time: i64,
    pub message: Option<String>,
    pub deps: Vec<ChangeHash>,
    pub ops: Vec<Op>,
}

/// Spec-level image of a change.
pub struct ChangeModel {
    pub actor: ActorId,
    pub seq: u64,
    pub start_op: u64,
    pub time: i64,
    pub message: Option<Seq<char>>,
    pub deps: Seq<ChangeHash>,
    pub ops: Seq<OpModel>,
}

impl View for Change {
    type V = ChangeModel;

    open spec fn view(&self) -> ChangeModel {
        ChangeModel {
            actor: self.actor,
            seq: self.seq,
            start_op: self.start_op,
            time: self.time,
            message: match self.message {
                Option::None => Option::None,
                Option::Some(s) => Option::Some(s@),
            },
            deps: self.deps@,
            ops: views(self.ops@),
        }
    }
}

/// A change's operations carry the ids its allocation rule dictates:
/// consecutive counters from `start_op`, all under the change's actor.
pub open spec fn change_shape(c: ChangeModel) -> bool {
    &&& c.start_op >= 1
    &&& c.start_op + c.ops.len() <= u64::MAX
    &&& forall|j: int|
        0 <= j < c.ops.len() ==> (#[trigger] c.ops[j]).id == (OpId {
            counter: (c.start_op + j) as u64,
            actor: c.actor,
        })
}

/// Optional metadata consumed at commit time: never affects merge
/// semantics, only the produced change's identity.
#[derive(Debug)]
pub struct CommitOptions {
    pub message: Option<String>,
    pub time: Option<i64>,
}

impl CommitOptions {
    /// Empty options: no message, no timestamp.
    pub fn new() -> (r: CommitOptions)
        ensures
            r.message is None,
            r.time is None,
    {
        CommitOptions { message: None, time: None }
    }

    /// Attach a commit message.
    pub fn with_message(self, message: String) -> (r: CommitOptions)
        ensures
            r.message == Some(message),
            r.time == self.time,
    {
        CommitOptions { message: Some(message), ..self }
    }

    /// Attach a wall-clock timestamp.
    pub fn with_time(self, time: i64) -> (r: CommitOptions)
        ensures
            r.time == Some(time),
            r.message == self.message,
    {
        CommitOptions { time: Some(time), ..self }
    }
}

/// Multiplier of the mixing step.
pub const HASH_PRIME: u64 = 0x100000001b3;

/// Seed of the content hash.
pub const HASH_SEED: u64 = 0xcbf29ce484222325;

/// One mixing step of the content hash.
pub open spec fn mix(h: u64, x: u64) -> u64 {
    u64_specs::wrapping_mul(h ^ x, HASH_PRIME)
}

/// Executes one mixing step.
pub fn mix_step(h: u64, x: u64) -> (r: u64)
    ensures
        r == mix(h, x),
{
    (h ^ x).wrapping_mul(HASH_PRIME)
}

/// Folds a character sequence into the hash.
pub open spec fn hash_chars(h: u64, s: Seq<char>) -> u64
    decreases s.len(),
{
    if s.len() == 0 {
        h
    } else {
        mix(hash_chars(h, s.drop_last()), s.last() as u64)
    }
}

/// Folds a string, length first, into the hash.
pub open spec fn hash_str(h: u64, s: Seq<char>) -> u64 {
    hash_chars(mix(h, s.len() as u64), s)
}

/// Folds an optional message into the hash.
pub open spec fn hash_message(h: u64, m: Option<Seq<char>>) -> u64 {
    match m {
        Option::None => mix(h, 0),
        Option::Some(s) => hash_str(mix(h, 1), s),
    }
}

/// Folds an element reference into the hash.
pub open spec fn hash_elem(h: u64, e: ElemId) -> u64 {
    match e {
        ElemId::Head => mix(h, 0),
        ElemId::Id(id) => mix(mix(mix(h, 1), id.counter), id.actor),
    }
}

/// Folds an object handle into the hash.
pub open spec fn hash_obj(h: u64, o: ExId) -> u64 {
    match o {
        ExId::Root => mix(h, 0),
        ExId::Object(id) => mix(mix(mix(h, 1), id.counter), id.actor),
    }
}

/// Tag of an object type in the canonical serialization.
pub open spec fn obj_type_tag(t: ObjType) -> u64 {
    match t {
        ObjType::Dict => 1,
        ObjType::Table => 2,
        ObjType::List => 3,
        ObjType::Text => 4,
    }
}

/// Folds a scalar value into the hash.
pub open spec fn hash_scalar(h: u64, s: ScalarModel) -> u64 {
    match s {
        ScalarModel::Null => mix(h, 1),
        ScalarModel::Bool(b) => mix(mix(h, 2), if b {
            1
        } else {
            0
        }),
        ScalarModel::Int(n) => mix(mix(h, 3), i64_bits(n)),
        ScalarModel::Uint(n) => mix(mix(h, 4), n),
        ScalarModel::Counter(n) => mix(mix(h, 5), i64_bits(n)),
        ScalarModel::Str(t) => hash_str(mix(h, 6), t),
    }
}

/// Folds a storage key into the hash.
pub open spec fn hash_key(h: u64, k: KeyModel) -> u64 {
    match k {
        KeyModel::Field(s) => hash_str(mix(h, 1), s),
        KeyModel::Elem(e) => hash_elem(mix(h, 2), e),
    }
}

/// Folds an action into the hash.
pub open spec fn hash_action(h: u64, a: ActionModel) -> u64 {
    match a {
        ActionModel::Put(s) => hash_scalar(mix(h, 1), s),
        ActionModel::Make(t) => mix(mix(h, 2), obj_type_tag(t)),
        ActionModel::Delete => mix(h, 3),
        ActionModel::Increment(d) => mix(mix(h, 4), i64_bits(d)),
    }
}

/// Folds a predecessor list into the hash.
pub open spec fn hash_opids(h: u64, s: Seq<OpId>) -> u64
    decreases s.len(),
{
    if s.len() == 0 {
        h
    } else {
        mix(mix(hash_opids(h, s.drop_last()), s.last().counter), s.last().actor)
    }
}

/// Folds one operation into the hash.
pub open spec fn hash_op(h: u64, o: OpModel) -> u64 {
    hash_opids(
        mix(
            hash_action(
                hash_key(hash_obj(mix(mix(h, o.id.counter), o.id.actor), o.obj), o.key),
                o.action,
            ),
            if o.insert {
                1
            } else {
                0
            },
        ),
        o.pred,
    )
}

/// Folds an operation sequence into the hash.
pub open spec fn hash_ops(h: u64, s: Seq<OpModel>) -> u64
    decreases s.len(),
{
    if s.len() == 0 {
        h
    } else {
        hash_op(hash_ops(h, s.drop_last()), s.last())
    }
}

/// Folds a dependency list into the hash.
pub open spec fn hash_deps(h: u64, s: Seq<ChangeHash>) -> u64
    decreases s.len(),
{
    if s.len() == 0 {
        h
    } else {
        mix(hash_deps(h, s.drop_last()), s.last().0)
    }
}

/// Content hash of a change: a pure function of its metadata, parents and
/// operations, so replicas that build the same change agree on its
/// identity.
pub open spec fn spec_change_hash(c: ChangeModel) -> ChangeHash {
    ChangeHash(
        hash_ops(
            mix(
                hash_deps(
                    mix(
                        hash_message(
                            mix(mix(mix(HASH_SEED, c.actor), c.seq), c.start_op),
                            c.message,
                        ),
                        i64_bits(c.time),
                    ),
                    c.deps,
                ),
                c.ops.len() as u64,
            ),
            c.ops,
        ),
    )
}

/// Two's-complement bit image of a signed value, executable form.
pub fn i64_bits_exec(x: i64) -> (r: u64)
    ensures
        r == i64_bits(x),
{
    if x >= 0 {
        x as u64
    } else {
        ((x as i128) + 0x1_0000_0000_0000_0000i128) as u64
    }
}

/// Folds a string into the hash, character by character.
fn hash_str_exec(h: u64, s: &String) -> (r: u64)
    ensures
        r == hash_str(h, s@),
{
    let n = s.as_str().unicode_len();
    let mut acc = mix_step(h, n as u64);
    let mut i: usize = 0;
    while i < n
        invariant
            n == s@.len(),
            i <= n,
            acc == hash_chars(mix(h, n as u64), s@.subrange(0, i as int)),
        decreases n - i,
    {
        let c = s.as_str().get_char(i);
        acc = mix_step(acc, c as u64);
        proof {
            let pre = s@.subrange(0, i as int);
            let post = s@.subrange(0, i + 1 as int);
            assert(post.drop_last() == pre);
            assert(post.last() == s@[i as int]);
        }
        i = i + 1;
    }
    proof {
        assert(s@.subrange(0, n as int) == s@);
    }
    acc
}

/// Folds a predecessor vector into the hash.
fn hash_opids_exec(h: u64, s: &Vec<OpId>) -> (r: u64)
    ensures
        r == hash_opids(h, s@),
{
    let mut acc = h;
    let mut i: usize = 0;
    while i < s.len()
        invariant
            i <= s@.len(),
            acc == hash_opids(h, s@.subrange(0, i as int)),
        decreases s@.len() - i,
    {
        acc = mix_step(mix_step(acc, s[i].counter), s[i].actor);
        proof {
            let post = s@.subrange(0, i + 1 as int);
            assert(post.drop_last() == s@.subrange(0, i as int));
            assert(post.last() == s@[i as int]);
        }
        i = i + 1;
    }
    proof {
        assert(s@.subrange(0, s@.len() as int) == s@);
    }
    acc
}

/// Folds one operation into the hash.
fn hash_op_exec(h: u64, o: &Op) -> (r: u64)
    ensures
        r == hash_op(h, o@),
{
    let mut acc = mix_step(mix_step(h, o.id.counter), o.id.actor);
    acc = match o.obj {
        ExId::Root => mix_step(acc, 0),
        ExId::Object(id) => mix_step(mix_step(mix_step(acc, 1), id.counter), id.actor),
    };
    acc = match &o.key {
        Key::Field(s) => hash_str_exec(mix_step(acc, 1), s),
        Key::Elem(e) => match e {
            ElemId::Head => mix_step(mix_step(acc, 2), 0),
            ElemId::Id(id) => mix_step(
                mix_step(mix_step(mix_step(acc, 2), 1), id.counter),
                id.actor,
            ),
        },
    };
    acc = match &o.action {
        crate::types::OpAction::Put(s) => {
            let t = mix_step(acc, 1);
            match s {
                ScalarValue::Null => mix_step(t, 1),
                ScalarValue::Bool(b) => mix_step(mix_step(t, 2), if *b {
                    1
                } else {
                    0
                }),
                ScalarValue::Int(n) => {
                    let bits = i64_bits_exec(*n);
                    mix_step(mix_step(t, 3), bits)
                },
                ScalarValue::Uint(n) => mix_step(mix_step(t, 4), *n),
                ScalarValue::Counter(n) => {
                    let bits = i64_bits_exec(*n);
                    mix_step(mix_step(t, 5), bits)
                },
                ScalarValue::Str(x) => hash_str_exec(mix_step(t, 6), x),
            }
        },
        crate::types::OpAction::Make(t) => {
            let tag: u64 = match t {
                ObjType::Dict => 1,
                ObjType::Table => 2,
                ObjType::List => 3,
                ObjType::Text => 4,
            };
            mix_step(mix_step(acc, 2), tag)
        },
        crate::types::OpAction::Delete => mix_step(acc, 3),
        crate::types::OpAction::Increment(d) => {
            let bits = i64_bits_exec(*d);
            mix_step(mix_step(acc, 4), bits)
        },
    };
    acc = mix_step(acc, if o.insert {
        1
    } else {
        0
    });
    hash_opids_exec(acc, &o.pred)
}

/// Computes the content hash of a change.
pub fn compute_change_hash(c: &Change) -> (r: ChangeHash)
    ensures
        r == spec_change_hash(c@),
{
    let mut acc = mix_step(mix_step(mix_step(HASH_SEED, c.actor), c.seq), c.start_op);
    acc = match &c.message {
        Option::None => mix_step(acc, 0),
        Option::Some(s) => hash_str_exec(mix_step(acc, 1), s),
    };
    let time_bits = i64_bits_exec(c.time);
    acc = mix_step(acc, time_bits);
    let mut i: usize = 0;
    while i < c.deps.len()
        invariant
            i <= c.deps@.len(),
            acc == hash_deps(
                mix(
                    hash_message(
                        mix(mix(mix(HASH_SEED, c.actor), c.seq), c.start_op),
                        c@.message,
                    ),
                    i64_bits(c.time),
                ),
                c.deps@.subrange(0, i as int),
            ),
        decreases c.deps@.len() - i,
    {
        acc = mix_step(acc, c.deps[i].0);
        proof {
            let post = c.deps@.subrange(0, i + 1 as int);
            assert(post.drop_last() == c.deps@.subrange(0, i as int));
            assert(post.last() == c.deps@[i as int]);
        }
        i = i + 1;
    }
    proof {
        assert(c.deps@.subrange(0, c.deps@.len() as int) == c.deps@);
    }
    acc = mix_step(acc, c.ops.len() as u64);
    let h0: Ghost<u64> = Ghost(acc);
    let mut j: usize = 0;
    while j < c.ops.len()
        invariant
            j <= c.ops@.len(),
            acc == hash_ops(h0@, views(c.ops@).subrange(0, j as int)),
        decreases c.ops@.len() - j,
    {
        acc = hash_op_exec(acc, &c.ops[j]);
        proof {
            let post = views(c.ops@).subrange(0, j + 1 as int);
            assert(post.drop_last() == views(c.ops@).subrange(0, j as int));
            assert(post.last() == views(c.ops@)[j as int]);
        }
        j = j + 1;
    }
    proof {
        assert(views(c.ops@).subrange(0, views(c.ops@).len() as int) == views(c.ops@));
    }
    ChangeHash(acc)
}


/// Copy of a hash vector.
pub fn dup_hashes(v: &Vec<ChangeHash>) -> (r: Vec<ChangeHash>)
    ensures
        r@ == v@,
{
    let mut r: Vec<ChangeHash> = Vec::new();
    let mut i: usize = 0;
    while i < v.len()
        invariant
            i <= v@.len(),
            r@ == v@.subrange(0, i as int),
        decreases v@.len() - i,
    {
        r.push(v[i]);
        i = i + 1;
    }
    proof {
        assert(v@.subrange(0, v@.len() as int) == v@);
    }
    r
}

/// Copy of an operation vector, equal at the model level.
pub fn dup_ops(v: &Vec<Op>) -> (r: Vec<Op>)
    ensures
        views(r@) == views(v@),
{
    let mut r: Vec<Op> = Vec::new();
    let mut i: usize = 0;
    while i < v.len()
        invariant
            i <= v@.len(),
            views(r@) == views(v@.subrange(0, i as int)),
        decreases v@.len() - i,
    {
        r.push(v[i].dup());
        proof {
            let pre = views(v@.subrange(0, i as int));
            let post = views(v@.subrange(0, i + 1 as int));
            assert(post =~= pre.push(v@[i as int]@));
        }
        i = i + 1;
    }
    proof {
        assert(v@.subrange(0, v@.len() as int) == v@);
    }
    r
}

impl Change {
    /// Copy of the change, equal at the model level: relaying a change to
    /// another replica preserves its content hash.
    pub fn dup(&self) -> (r: Change)
        ensures
            r@ == self@,
    {
        Change {
            actor: self.actor,
            seq: self.seq,
            start_op: self.start_op,
            time: self.time,
            message: match &self.message {
                Option::None => None,
                Option::Some(s) => Some(s.clone()),
            },
            deps: dup_hashes(&self.deps),
            ops: dup_ops(&self.ops),
        }
    }
}

} // verus!
