//! The document: operation store, change history graph and head tracking,
//! with the read side of the materialization engine.

use vstd::prelude::*;

use crate::change::{spec_change_hash, change_shape, compute_change_hash, Change, ChangeHash,
    ChangeModel, CommitOptions};
use crate::model::{add64, lemma_build_ids, lemma_ins_pairs_ids, lemma_sel_ids_distinct, lemma_winner_unique, lemma_ins_pairs_add, lemma_sel_add, lemma_build_contains, desc_order, lex_le, lemma_lex_total, lemma_lex_trans, concat_frags, text_frag, anchor_of, build_order, ins_pairs, lemma_ins_pairs_push, lemma_pair_order_total, lemma_sel_contains, pair_leq, pair_order, field_pred, elem_pred, vis_pred, elem_vis_pred, elem_ops, elem_visible, field_ops, first_make, has_visible, incr_total, is_value_op, is_winner, obj_type_of, on_elem, on_field, sel, superseded_in, supersedes, u64_as_i64, value_model, views, visible_elems, visible_in, lemma_sel_push, visible_ids, visible_ops, seq_length, elem_order};
use crate::types::{ActionModel, ActorId, PropModel, ScalarModel, opid_lt, ElemId, ExId, Key, KeyModel, ObjType, Op, OpAction, OpId, OpModel, OperationError, Prop, ScalarValue, Value, opid_le};

verus! {

/// Concatenation of the operations of a change sequence, in change order:
/// the committed contents of the operation store.
pub open spec fn all_ops(changes: Seq<ChangeModel>) -> Seq<OpModel>
    decreases changes.len(),
{
    if changes.len() == 0 {
        Seq::empty()
    } else {
        all_ops(changes.drop_last()) + changes.last().ops
    }
}

/// Every id the operation mentions (its own, its predecessors, its element
/// anchor or target) has a counter of at most `m`.
pub open spec fn op_bounded(o: OpModel, m: u64) -> bool {
    &&& o.id.counter <= m
    &&& forall|i: int| 0 <= i < o.pred.len() ==> (#[trigger] o.pred[i]).counter <= m
    &&& match o.key {
        KeyModel::Elem(ElemId::Id(x)) => x.counter <= m,
        _ => true,
    }
}

/// A replicated document: its committed change graph, the flat operation
/// store the changes materialize from, the current frontier of causal
/// history, and this replica's actor identity.
pub struct Document {
    pub(crate) actor: ActorId,
    pub(crate) ops: Vec<Op>,
    pub(crate) changes: Vec<Change>,
    pub(crate) hashes: Vec<ChangeHash>,
    pub(crate) heads: Vec<ChangeHash>,
    pub(crate) max_op: u64,
}

impl Document {
    /// The operation store, as a model sequence.
    pub closed spec fn ops_m(self) -> Seq<OpModel> {
        views(self.ops@)
    }

    /// The committed changes, as model values, in arrival order.
    pub closed spec fn changes_m(self) -> Seq<ChangeModel> {
        self.changes@.map_values(|c: Change| c@)
    }

    /// The content hashes of the committed changes, in arrival order.
    pub closed spec fn hashes_m(self) -> Seq<ChangeHash> {
        self.hashes@
    }

    /// The current frontier: hashes with no observed descendant.
    pub closed spec fn heads_m(self) -> Seq<ChangeHash> {
        self.heads@
    }

    /// This replica's actor id.
    pub closed spec fn actor_m(self) -> ActorId {
        self.actor
    }

    /// The greatest operation counter observed so far.
    pub closed spec fn max_op_m(self) -> u64 {
        self.max_op
    }

    /// Well-formedness: the store mirrors the changes, ids are unique and
    /// bounded by the op counter, changes are shaped by the allocation
    /// rule, hashes are the content hashes, and the frontier is a sorted
    /// set of hashes.
    pub closed spec fn wf(self) -> bool {
        &&& self.ops_m() == all_ops(self.changes_m())
        &&& self.hashes@.len() == self.changes@.len()
        &&& forall|i: int|
            0 <= i < self.changes@.len() ==> #[trigger] self.hashes@[i] == spec_change_hash(
                self.changes_m()[i],
            )
        &&& forall|i: int|
            0 <= i < self.changes@.len() ==> change_shape(#[trigger] self.changes_m()[i])
        &&& forall|o: OpModel| self.ops_m().contains(o) ==> op_bounded(o, self.max_op)
        &&& forall|i: int, j: int|
            0 <= i < self.ops_m().len() && 0 <= j < self.ops_m().len() && i != j ==> (
            #[trigger] self.ops_m()[i]).id != (#[trigger] self.ops_m()[j]).id
        &&& forall|i: int, j: int|
            0 <= i < j < self.heads@.len() ==> (#[trigger] self.heads@[i]).0 < (
            #[trigger] self.heads@[j]).0
        &&& forall|i: int|
            0 <= i < self.heads@.len() ==> self.hashes@.contains(#[trigger] self.heads@[i])
    }

    /// A fresh, empty document for the given actor.
    pub fn new(actor: ActorId) -> (d: Document)
        ensures
            d.wf(),
            d.actor_m() == actor,
            d.ops_m() == Seq::<OpModel>::empty(),
            d.changes_m() == Seq::<ChangeModel>::empty(),
            d.heads_m() == Seq::<ChangeHash>::empty(),
            d.max_op_m() == 0,
    {
        let d = Document {
            actor,
            ops: Vec::new(),
            changes: Vec::new(),
            hashes: Vec::new(),
            heads: Vec::new(),
            max_op: 0,
        };
        proof {
            assert(d.changes_m() =~= Seq::<ChangeModel>::empty());
            assert(d.ops_m() =~= Seq::<OpModel>::empty());
        }
        d
    }

    /// The current frontier of causal history, in ascending hash order.
    pub fn get_heads(&self) -> (r: Vec<ChangeHash>)
        ensures
            r@ == self.heads_m(),
    {
        let mut r: Vec<ChangeHash> = Vec::new();
        let mut i: usize = 0;
        while i < self.heads.len()
            invariant
                i <= self.heads@.len(),
                r@ == self.heads@.subrange(0, i as int),
            decreases self.heads@.len() - i,
        {
            r.push(self.heads[i]);
            i = i + 1;
        }
        proof {
            assert(self.heads@.subrange(0, self.heads@.len() as int) == self.heads@);
        }
        r
    }
}

/// Looks up the type of the object created by the first operation carrying
/// id `id`.
pub(crate) fn exec_first_make(ops: &Vec<Op>, id: OpId) -> (r: Option<ObjType>)
    ensures
        r == first_make(views(ops@), id),
{
    let ghost full = views(ops@);
    proof {
        assert(full.skip(0) == full);
    }
    let mut i: usize = 0;
    while i < ops.len()
        invariant
            i <= ops@.len(),
            full == views(ops@),
            first_make(full, id) == first_make(full.skip(i as int), id),
        decreases ops@.len() - i,
    {
        let o = &ops[i];
        proof {
            assert(full.skip(i as int)[0] == full[i as int]);
        }
        if o.id.counter == id.counter && o.id.actor == id.actor {
            match &o.action {
                OpAction::Make(t) => {
                    return Some(*t);
                },
                _ => {},
            }
        }
        proof {
            assert(full.skip(i as int).drop_first() == full.skip(i + 1));
        }
        i = i + 1;
    }
    proof {
        assert(full.skip(full.len() as int).len() == 0);
    }
    None
}

/// Resolves the type of an object handle over a given operation scope.
pub(crate) fn exec_obj_type(ops: &Vec<Op>, obj: ExId) -> (r: Option<ObjType>)
    ensures
        r == obj_type_of(views(ops@), obj),
{
    match obj {
        ExId::Root => Some(ObjType::Dict),
        ExId::Object(id) => exec_first_make(ops, id),
    }
}

/// Does the id vector hold `x`?
pub(crate) fn contains_opid(v: &Vec<OpId>, x: OpId) -> (r: bool)
    ensures
        r == v@.contains(x),
{
    let mut i: usize = 0;
    while i < v.len()
        invariant
            i <= v@.len(),
            forall|j: int| 0 <= j < i ==> v@[j] != x,
        decreases v@.len() - i,
    {
        if v[i].counter == x.counter && v[i].actor == x.actor {
            return true;
        }
        i = i + 1;
    }
    false
}

/// Collects (copies of) the operations addressing map key `key` of `obj`.
pub(crate) fn collect_field_ops(ops: &Vec<Op>, obj: ExId, key: &String) -> (r: Vec<Op>)
    ensures
        views(r@) == field_ops(views(ops@), obj, key@),
{
    let mut r: Vec<Op> = Vec::new();
    let mut i: usize = 0;
    while i < ops.len()
        invariant
            i <= ops@.len(),
            views(r@) == sel(views(ops@.subrange(0, i as int)), field_pred(obj, key@)),
        decreases ops@.len() - i,
    {
        let o = &ops[i];
        let mut take = false;
        if o.obj == obj && !o.insert {
            match &o.key {
                Key::Field(s) => if s.eq(key) {
                    take = true;
                },
                _ => {},
            }
        }
        proof {
            let pre = views(ops@.subrange(0, i as int));
            let post = views(ops@.subrange(0, i + 1 as int));
            assert(post =~= pre.push(ops@[i as int]@));
            lemma_sel_push(pre, field_pred(obj, key@), ops@[i as int]@);
            assert(take == on_field(ops@[i as int]@, obj, key@));
            assert(take == field_pred(obj, key@)(ops@[i as int]@));
        }
        if take {
            r.push(o.dup());
        }
        i = i + 1;
    }
    proof {
        assert(ops@.subrange(0, ops@.len() as int) == ops@);
    }
    r
}

/// Collects (copies of) the operations addressing element `e` of `obj`.
pub(crate) fn collect_elem_ops(ops: &Vec<Op>, obj: ExId, e: OpId) -> (r: Vec<Op>)
    ensures
        views(r@) == elem_ops(views(ops@), obj, e),
{
    let mut r: Vec<Op> = Vec::new();
    let mut i: usize = 0;
    while i < ops.len()
        invariant
            i <= ops@.len(),
            views(r@) == sel(views(ops@.subrange(0, i as int)), elem_pred(obj, e)),
        decreases ops@.len() - i,
    {
        let o = &ops[i];
        let mut take = false;
        if o.obj == obj {
            if o.insert {
                if o.id.counter == e.counter && o.id.actor == e.actor {
                    take = true;
                }
            } else {
                match &o.key {
                    Key::Elem(ElemId::Id(x)) => if x.counter == e.counter && x.actor == e.actor {
                        take = true;
                    },
                    _ => {},
                }
            }
        }
        proof {
            let pre = views(ops@.subrange(0, i as int));
            let post = views(ops@.subrange(0, i + 1 as int));
            assert(post =~= pre.push(ops@[i as int]@));
            lemma_sel_push(pre, elem_pred(obj, e), ops@[i as int]@);
            assert(take == on_elem(ops@[i as int]@, obj, e));
            assert(take == elem_pred(obj, e)(ops@[i as int]@));
        }
        if take {
            r.push(o.dup());
        }
        i = i + 1;
    }
    proof {
        assert(ops@.subrange(0, ops@.len() as int) == ops@);
    }
    r
}

/// Is the operation with id `id` superseded by some operation of `kops`?
pub(crate) fn exec_superseded(kops: &Vec<Op>, id: OpId) -> (r: bool)
    ensures
        r == superseded_in(views(kops@), id),
{
    let ghost v = views(kops@);
    let mut i: usize = 0;
    while i < kops.len()
        invariant
            i <= kops@.len(),
            v == views(kops@),
            forall|j: int| 0 <= j < i ==> !supersedes(v[j], id),
        decreases kops@.len() - i,
    {
        let o = &kops[i];
        let is_incr = match &o.action {
            OpAction::Increment(_) => true,
            _ => false,
        };
        if !is_incr {
            if contains_opid(&o.pred, id) {
                proof {
                    assert(supersedes(v[i as int], id));
                }
                return true;
            }
        }
        i = i + 1;
    }
    false
}

/// Finds the index of the winning value among the operations at one key,
/// or reports that no value survives there.
pub(crate) fn find_winner(kops: &Vec<Op>) -> (r: Option<usize>)
    ensures
        match r {
            Option::None => !has_visible(views(kops@)),
            Option::Some(i) => i < kops@.len() && is_winner(views(kops@), views(kops@)[i as int]),
        },
{
    let ghost v = views(kops@);
    let mut best: Option<usize> = None;
    let mut i: usize = 0;
    while i < kops.len()
        invariant
            i <= kops@.len(),
            v == views(kops@),
            match best {
                Option::None => forall|j: int| 0 <= j < i ==> !visible_in(v, v[j]),
                Option::Some(b) => b < i && visible_in(v, v[b as int]) && forall|j: int|
                    0 <= j < i && visible_in(v, #[trigger] v[j]) ==> opid_le(v[j].id, v[b as int].id),
            },
        decreases kops@.len() - i,
    {
        let o = &kops[i];
        let is_val = match &o.action {
            OpAction::Put(_) => true,
            OpAction::Make(_) => true,
            _ => false,
        };
        if is_val && !exec_superseded(kops, o.id) {
            proof {
                assert(v.contains(v[i as int])) by {
                    assert(v[i as int] == v[i as int]);
                }
                assert(visible_in(v, v[i as int]));
            }
            match best {
                Option::None => {
                    best = Some(i);
                },
                Option::Some(b) => {
                    if kops[b].id.le(&o.id) {
                        best = Some(i);
                    }
                },
            }
        } else {
            proof {
                if !is_val {
                    assert(!is_value_op(v[i as int]));
                }
            }
        }
        i = i + 1;
    }
    proof {
        match best {
            Option::None => {
                assert forall|o: OpModel| !visible_in(v, o) by {
                    if visible_in(v, o) {
                        let j = choose|j: int| 0 <= j < v.len() && v[j] == o;
                        assert(!visible_in(v, v[j]));
                    }
                }
            },
            Option::Some(b) => {
                assert forall|p: OpModel| visible_in(v, p) implies opid_le(p.id, v[b as int].id) by {
                    let j = choose|j: int| 0 <= j < v.len() && v[j] == p;
                    assert(visible_in(v, v[j]));
                }
            },
        }
    }
    best
}

/// Executable modular addition.
pub(crate) fn add64_exec(a: u64, b: u64) -> (r: u64)
    ensures
        r == add64(a, b),
{
    a.wrapping_add(b)
}

/// Executable signed reading of a 64-bit pattern.
pub(crate) fn u64_as_i64_exec(x: u64) -> (r: i64)
    ensures
        r == u64_as_i64(x),
{
    if x < 0x8000_0000_0000_0000 {
        x as i64
    } else {
        ((x as i128) - 0x1_0000_0000_0000_0000i128) as i64
    }
}

/// Sums the increment deltas applying to counter write `id`, modulo 2^64.
pub(crate) fn exec_incr_total(kops: &Vec<Op>, id: OpId) -> (r: u64)
    ensures
        r == incr_total(views(kops@), id),
{
    let ghost v = views(kops@);
    let mut acc: u64 = 0;
    let mut i: usize = 0;
    while i < kops.len()
        invariant
            i <= kops@.len(),
            v == views(kops@),
            acc == incr_total(v.subrange(0, i as int), id),
        decreases kops@.len() - i,
    {
        let o = &kops[i];
        match &o.action {
            OpAction::Increment(d) => {
                if contains_opid(&o.pred, id) {
                    let bits = crate::change::i64_bits_exec(*d);
                    acc = add64_exec(acc, bits);
                }
            },
            _ => {},
        }
        proof {
            let post = v.subrange(0, i + 1 as int);
            assert(post.drop_last() == v.subrange(0, i as int));
            assert(post.last() == v[i as int]);
        }
        i = i + 1;
    }
    proof {
        assert(v.subrange(0, v.len() as int) == v);
    }
    acc
}

/// Materializes the value of the operation at `i` among the operations of
/// one key, applying increments to counters.
pub(crate) fn winner_value(kops: &Vec<Op>, i: usize) -> (r: (Value, ExId))
    requires
        i < kops@.len(),
        is_value_op(views(kops@)[i as int]),
    ensures
        r.0@ == value_model(views(kops@), views(kops@)[i as int]),
        r.1 == ExId::Object(views(kops@)[i as int].id),
{
    let o = &kops[i];
    let exid = ExId::Object(o.id);
    match &o.action {
        OpAction::Make(t) => (Value::Object(*t), exid),
        OpAction::Put(s) => match s {
            ScalarValue::Counter(n) => {
                let base = crate::change::i64_bits_exec(*n);
                let tot = exec_incr_total(kops, o.id);
                let val = u64_as_i64_exec(add64_exec(base, tot));
                (Value::Scalar(ScalarValue::Counter(val)), exid)
            },
            _ => (Value::Scalar(s.dup()), exid),
        },
        _ => (Value::Scalar(ScalarValue::Null), exid),
    }
}


/// Decides the insertion-record order `pair_leq`.
pub(crate) fn pair_le(a: &(OpId, ElemId), b: &(OpId, ElemId)) -> (r: bool)
    ensures
        r == pair_leq(*a, *b),
{
    if a.0.counter < b.0.counter || (a.0.counter == b.0.counter && a.0.actor < b.0.actor) {
        true
    } else if a.0.counter == b.0.counter && a.0.actor == b.0.actor {
        match a.1 {
            ElemId::Head => true,
            ElemId::Id(x) => match b.1 {
                ElemId::Head => false,
                ElemId::Id(y) => x.le(&y),
            },
        }
    } else {
        false
    }
}

/// Collects the insertion records of `obj` from the operation scope.
pub(crate) fn collect_ins_pairs(ops: &Vec<Op>, obj: ExId) -> (r: Vec<(OpId, ElemId)>)
    ensures
        r@ == ins_pairs(views(ops@), obj),
{
    let mut r: Vec<(OpId, ElemId)> = Vec::new();
    let mut i: usize = 0;
    while i < ops.len()
        invariant
            i <= ops@.len(),
            r@ == ins_pairs(views(ops@.subrange(0, i as int)), obj),
        decreases ops@.len() - i,
    {
        let o = &ops[i];
        proof {
            let pre = views(ops@.subrange(0, i as int));
            let post = views(ops@.subrange(0, i + 1 as int));
            assert(post =~= pre.push(ops@[i as int]@));
            lemma_ins_pairs_push(pre, obj, ops@[i as int]@);
        }
        if o.obj == obj && o.insert {
            let anchor = match &o.key {
                Key::Elem(e) => *e,
                Key::Field(_) => ElemId::Head,
            };
            proof {
                assert(anchor == anchor_of(ops@[i as int]@));
            }
            r.push((o.id, anchor));
        }
        i = i + 1;
    }
    proof {
        assert(ops@.subrange(0, ops@.len() as int) == ops@);
    }
    r
}

/// Sorts insertion records by the id order, ascending.
pub(crate) fn sort_pairs(v: Vec<(OpId, ElemId)>) -> (r: Vec<(OpId, ElemId)>)
    ensures
        r@ == v@.sort_by(pair_order()),
{
    let mut out: Vec<(OpId, ElemId)> = Vec::new();
    proof {
        assert(out@ =~= v@.subrange(0, 0));
    }
    let mut i: usize = 0;
    while i < v.len()
        invariant
            i <= v@.len(),
            vstd::relations::sorted_by(out@, pair_order()),
            out@.to_multiset() == v@.subrange(0, i as int).to_multiset(),
        decreases v@.len() - i,
    {
        let x = v[i];
        let mut k: usize = 0;
        while k < out.len() && !pair_le(&x, &out[k])
            invariant
                k <= out@.len(),
                forall|m: int| 0 <= m < k ==> !pair_leq(x, #[trigger] out@[m]),
            decreases out@.len() - k,
        {
            k = k + 1;
        }
        proof {
            let leq = pair_order();
            assert forall|m: int| 0 <= m < k implies leq(out@[m], x) by {
                assert(!pair_leq(x, out@[m]));
            }
            broadcast use vstd::seq_lib::to_multiset_insert;
            broadcast use vstd::seq_lib::group_to_multiset_ensures;
            let pre = v@.subrange(0, i as int);
            let post = v@.subrange(0, i + 1 as int);
            assert(post.drop_last() == pre);
            assert(post.last() == v@[i as int]);
            assert(post =~= pre.push(v@[i as int]));
        }
        let ghost old_out = out@;
        out.insert(k, x);
        proof {
            let leq = pair_order();
            assert forall|a: int, b: int| 0 <= a < b < out@.len() implies leq(
                out@[a],
                out@[b],
            ) by {
                if b < k {
                } else if b == k {
                    assert(leq(old_out[a], x));
                } else if a < k {
                    assert(out@[b] == old_out[b - 1]);
                    assert(leq(out@[a], out@[b]));
                } else if a == k {
                    assert(out@[b] == old_out[b - 1]);
                    assert(leq(x, old_out[k as int]));
                    if b - 1 > k {
                        assert(leq(old_out[k as int], old_out[b - 1]));
                    }
                } else {
                    assert(out@[a] == old_out[a - 1] && out@[b] == old_out[b - 1]);
                }
            }
        }
        i = i + 1;
    }
    proof {
        assert(v@.subrange(0, v@.len() as int) == v@);
        lemma_pair_order_total();
        v@.lemma_sort_by_ensures(pair_order());
        vstd::seq_lib::lemma_sorted_unique(out@, v@.sort_by(pair_order()), pair_order());
    }
    out
}

/// Finds the first position of `a` in the order, as `index_of_first` does.
pub(crate) fn find_first(ord: &Vec<OpId>, a: OpId) -> (r: Option<usize>)
    ensures
        match r {
            Option::None => ord@.index_of_first(a) is None,
            Option::Some(j) => j < ord@.len() && ord@[j as int] == a && ord@.index_of_first(a)
                == Some(j as int),
        },
{
    let mut j: usize = 0;
    while j < ord.len()
        invariant
            j <= ord@.len(),
            forall|m: int| 0 <= m < j ==> ord@[m] != a,
        decreases ord@.len() - j,
    {
        if ord[j].counter == a.counter && ord[j].actor == a.actor {
            proof {
                ord@.index_of_first_ensures(a);
                assert(ord@[j as int] == a);
                assert(ord@.contains(a));
            }
            return Some(j);
        }
        j = j + 1;
    }
    proof {
        ord@.index_of_first_ensures(a);
        if ord@.contains(a) {
            let m = choose|m: int| 0 <= m < ord@.len() && ord@[m] == a;
            assert(ord@[m] != a);
        }
    }
    None
}

/// Materializes the element order of `obj` (tombstones included).
pub(crate) fn exec_elem_order(ops: &Vec<Op>, obj: ExId) -> (r: Vec<OpId>)
    ensures
        r@ == elem_order(views(ops@), obj),
{
    let pairs = collect_ins_pairs(ops, obj);
    let sorted = sort_pairs(pairs);
    let ghost sorted_m = ins_pairs(views(ops@), obj).sort_by(pair_order());
    let mut ord: Vec<OpId> = Vec::new();
    let mut i: usize = 0;
    while i < sorted.len()
        invariant
            i <= sorted@.len(),
            sorted@ == sorted_m,
            ord@ == build_order(sorted_m.subrange(0, i as int)),
        decreases sorted@.len() - i,
    {
        let (id, anchor) = sorted[i];
        proof {
            let pre = sorted_m.subrange(0, i as int);
            let post = sorted_m.subrange(0, i + 1 as int);
            assert(post.drop_last() == pre);
            assert(post.last() == sorted_m[i as int]);
        }
        match anchor {
            ElemId::Head => {
                ord.insert(0, id);
            },
            ElemId::Id(a) => {
                match find_first(&ord, a) {
                    Option::Some(j) => {
                        let n = ord.len();
                        assert(j < n);
                        ord.insert(j + 1, id);
                    },
                    Option::None => {
                        ord.push(id);
                    },
                }
            },
        }
        i = i + 1;
    }
    proof {
        assert(sorted_m.subrange(0, sorted_m.len() as int) == sorted_m);
    }
    ord
}

/// Materializes the visible elements of `obj`, in order.
pub(crate) fn list_elems(ops: &Vec<Op>, obj: ExId) -> (r: Vec<OpId>)
    ensures
        r@ == visible_elems(views(ops@), obj),
{
    let ghost s = views(ops@);
    let ord = exec_elem_order(ops, obj);
    let mut r: Vec<OpId> = Vec::new();
    let mut i: usize = 0;
    while i < ord.len()
        invariant
            i <= ord@.len(),
            s == views(ops@),
            ord@ == elem_order(s, obj),
            r@ == sel(ord@.subrange(0, i as int), elem_vis_pred(s, obj)),
        decreases ord@.len() - i,
    {
        let e = ord[i];
        let eops = collect_elem_ops(ops, obj, e);
        let w = find_winner(&eops);
        proof {
            let pre = ord@.subrange(0, i as int);
            let post = ord@.subrange(0, i + 1 as int);
            assert(post =~= pre.push(ord@[i as int]));
            lemma_sel_push(pre, elem_vis_pred(s, obj), ord@[i as int]);
            match w {
                Option::Some(wi) => {
                    assert(visible_in(views(eops@), views(eops@)[wi as int]));
                    assert(elem_visible(s, obj, e));
                },
                Option::None => {
                    assert(!elem_visible(s, obj, e));
                },
            }
            assert((w is Some) == elem_vis_pred(s, obj)(ord@[i as int]));
        }
        if w.is_some() {
            r.push(e);
        }
        i = i + 1;
    }
    proof {
        assert(ord@.subrange(0, ord@.len() as int) == ord@);
    }
    r
}

/// Does the property kind fit the object type: keys address maps and
/// tables, indexes address lists and text.
pub open spec fn prop_matches(t: ObjType, p: PropModel) -> bool {
    if t.spec_is_sequence() {
        p is Index
    } else {
        p is Key
    }
}

/// Decides whether the scope's operation ids are pairwise distinct (as
/// every scope assembled from well-formed history is).
pub(crate) fn ids_distinct_check(ops: &Vec<Op>) -> (r: bool)
    ensures
        r == (forall|i: int, j: int|
            0 <= i < views(ops@).len() && 0 <= j < views(ops@).len() && i != j ==> (
            #[trigger] views(ops@)[i]).id != (#[trigger] views(ops@)[j]).id),
{
    let mut i: usize = 0;
    while i < ops.len()
        invariant
            i <= ops@.len(),
            forall|x: int, y: int|
                0 <= x < i && 0 <= y < ops@.len() && x != y ==> (#[trigger] views(ops@)[x]).id
                    != (#[trigger] views(ops@)[y]).id,
        decreases ops@.len() - i,
    {
        let mut j: usize = 0;
        while j < ops.len()
            invariant
                i < ops@.len(),
                j <= ops@.len(),
                forall|y: int|
                    0 <= y < j && y != i ==> (#[trigger] views(ops@)[y]).id != views(
                        ops@,
                    )[i as int].id,
            decreases ops@.len() - j,
        {
            if j != i && ops[j].id.counter == ops[i].id.counter && ops[j].id.actor
                == ops[i].id.actor {
                proof {
                    assert(views(ops@)[j as int].id == views(ops@)[i as int].id);
                }
                return false;
            }
            j = j + 1;
        }
        i = i + 1;
    }
    true
}

/// The winning value at the key is a counter write: the target an
/// increment applies to.
pub open spec fn counter_winner(kops: Seq<OpModel>) -> bool {
    exists|w: OpModel|
        is_winner(kops, w) && w.action matches ActionModel::Put(ScalarModel::Counter(_))
}

/// The handle resolves and the property kind fits its type.
pub open spec fn kind_ok(s: Seq<OpModel>, obj: ExId, p: PropModel) -> bool {
    match obj_type_of(s, obj) {
        Option::Some(t) => prop_matches(t, p),
        Option::None => false,
    }
}

/// Contract of a multi-value read over scope `s`: validation errors are
/// exact, and a successful result is the conflict set at the key or
/// index (empty for an out-of-range index).
pub open spec fn get_all_post(
    s: Seq<OpModel>,
    obj: ExId,
    p: PropModel,
    r: Result<Vec<(Value, ExId)>, OperationError>,
) -> bool {
    &&& obj_type_of(s, obj) is None ==> r == Result::<
        Vec<(Value, ExId)>,
        OperationError,
    >::Err(OperationError::ObjectNotFound)
    &&& match obj_type_of(s, obj) {
        Option::Some(t) => !prop_matches(t, p) ==> r == Result::<
            Vec<(Value, ExId)>,
            OperationError,
        >::Err(OperationError::InvalidProp),
        Option::None => true,
    }
    &&& (kind_ok(s, obj, p) ==> match p {
        PropModel::Key(k) => match r {
            Result::Ok(vs) => exists|w: Seq<OpModel>| conflict_list(field_ops(s, obj, k), w, vs@),
            Result::Err(_) => false,
        },
        PropModel::Index(i) => match r {
            Result::Ok(vs) => if i < seq_length(s, obj) {
                exists|w: Seq<OpModel>|
                    conflict_list(elem_ops(s, obj, visible_elems(s, obj)[i as int]), w, vs@)
            } else {
                vs@.len() == 0
            },
            Result::Err(_) => false,
        },
    })
}

/// Single-value read over an operation scope: resolves the object,
/// validates the property kind, and returns the winning value at the key
/// or index, if any survives.
pub(crate) fn get_core(ops: &Vec<Op>, obj: ExId, prop: &Prop) -> (r: Result<
    Option<(Value, ExId)>,
    OperationError,
>)
    ensures
        obj_type_of(views(ops@), obj) is None ==> r == Result::<
            Option<(Value, ExId)>,
            OperationError,
        >::Err(OperationError::ObjectNotFound),
        forall|t: ObjType|
            obj_type_of(views(ops@), obj) == Some(t) && !prop_matches(t, prop@) ==> r == Result::<
                Option<(Value, ExId)>,
                OperationError,
            >::Err(OperationError::InvalidProp),
        forall|t: ObjType, k: Seq<char>|
            obj_type_of(views(ops@), obj) == Some(t) && prop_matches(t, prop@) && prop@
                == PropModel::Key(k) ==> (if has_visible(field_ops(views(ops@), obj, k)) {
                r matches Ok(Some(v)) && exists|w: OpModel|
                    is_winner(field_ops(views(ops@), obj, k), w) && v.1 == ExId::Object(w.id)
                        && v.0@ == value_model(field_ops(views(ops@), obj, k), w)
            } else {
                r matches Ok(None)
            }),
        forall|t: ObjType, i: usize|
            obj_type_of(views(ops@), obj) == Some(t) && prop_matches(t, prop@) && prop@
                == PropModel::Index(i) ==> (if i < seq_length(views(ops@), obj) {
                r matches Ok(Some(v)) && exists|w: OpModel|
                    is_winner(
                        elem_ops(views(ops@), obj, visible_elems(views(ops@), obj)[i as int]),
                        w,
                    ) && v.1 == ExId::Object(w.id) && v.0@ == value_model(
                        elem_ops(views(ops@), obj, visible_elems(views(ops@), obj)[i as int]),
                        w,
                    )
            } else {
                r matches Ok(None)
            }),
{
    let ghost s = views(ops@);
    let t = match exec_obj_type(ops, obj) {
        Option::None => {
            return Err(OperationError::ObjectNotFound);
        },
        Option::Some(t) => t,
    };
    match prop {
        Prop::Key(k) => {
            if t.is_sequence() {
                return Err(OperationError::InvalidProp);
            }
            let kops = collect_field_ops(ops, obj, k);
            match find_winner(&kops) {
                Option::None => Ok(None),
                Option::Some(wi) => {
                    let (v, e) = winner_value(&kops, wi);
                    proof {
                        assert(is_winner(field_ops(s, obj, k@), views(kops@)[wi as int]));
                    }
                    Ok(Some((v, e)))
                },
            }
        },
        Prop::Index(ix) => {
            if !t.is_sequence() {
                return Err(OperationError::InvalidProp);
            }
            let elems = list_elems(ops, obj);
            if *ix >= elems.len() {
                return Ok(None);
            }
            let e = elems[*ix];
            let eops = collect_elem_ops(ops, obj, e);
            match find_winner(&eops) {
                Option::None => {
                    proof {
                        assert(elem_vis_pred(s, obj)(e) == elem_visible(s, obj, e));
                        lemma_sel_contains(
                            elem_order(s, obj),
                            elem_vis_pred(s, obj),
                            visible_elems(s, obj)[ix as int],
                        );
                        assert(visible_elems(s, obj).contains(e));
                        assert(false);
                    }
                    Ok(None)
                },
                Option::Some(wi) => {
                    let (v, ee) = winner_value(&eops, wi);
                    Ok(Some((v, ee)))
                },
            }
        },
    }
}


/// Initial ancestry marks: the changes whose hash is named by the head
/// set itself.
pub open spec fn init_marks(
    chs: Seq<ChangeModel>,
    hs: Seq<ChangeHash>,
    heads: Seq<ChangeHash>,
) -> Seq<bool> {
    Seq::new(chs.len(), |i: int| heads.contains(hs[i]))
}

/// One step of the backward ancestry pass: if position `idx` is marked,
/// every earlier position its change lists as a parent is marked too.
pub open spec fn mark_step(
    chs: Seq<ChangeModel>,
    hs: Seq<ChangeHash>,
    marked: Seq<bool>,
    idx: int,
) -> Seq<bool> {
    Seq::new(
        marked.len(),
        |j: int| marked[j] || (j < idx && 0 <= idx < marked.len() && marked[idx]
            && chs[idx].deps.contains(hs[j])),
    )
}

/// Partial application of [`mark_step`]: only positions below `lim` have
/// been updated yet.
pub open spec fn mark_step_upto(
    chs: Seq<ChangeModel>,
    hs: Seq<ChangeHash>,
    marked: Seq<bool>,
    idx: int,
    lim: int,
) -> Seq<bool> {
    Seq::new(
        marked.len(),
        |j: int| marked[j] || (j < lim && j < idx && 0 <= idx < marked.len() && marked[idx]
            && chs[idx].deps.contains(hs[j])),
    )
}

/// Marks after the backward pass has processed positions `k` and above.
/// Since every change's parents arrive before it, one descending pass
/// marks exactly the causal ancestors of the head set.
pub open spec fn marks_from(
    chs: Seq<ChangeModel>,
    hs: Seq<ChangeHash>,
    heads: Seq<ChangeHash>,
    k: int,
) -> Seq<bool>
    decreases chs.len() - k,
{
    if k >= chs.len() {
        init_marks(chs, hs, heads)
    } else {
        mark_step(chs, hs, marks_from(chs, hs, heads, k + 1), k)
    }
}

/// The change at position `i` is a causal ancestor of the head set.
pub open spec fn reach(
    chs: Seq<ChangeModel>,
    hs: Seq<ChangeHash>,
    heads: Seq<ChangeHash>,
    i: int,
) -> bool {
    0 <= i < chs.len() && marks_from(chs, hs, heads, 0)[i]
}

/// Operations of the reachable changes among the first `n`, in order.
pub open spec fn scope_upto(
    chs: Seq<ChangeModel>,
    hs: Seq<ChangeHash>,
    heads: Seq<ChangeHash>,
    n: int,
) -> Seq<OpModel>
    decreases n,
{
    if n <= 0 {
        Seq::empty()
    } else {
        scope_upto(chs, hs, heads, n - 1) + if reach(chs, hs, heads, n - 1) {
            chs[n - 1].ops
        } else {
            Seq::empty()
        }
    }
}

/// The operation scope visible from an explicit head set: exactly the
/// operations whose owning change is a causal ancestor of those heads.
pub open spec fn scope_at(
    chs: Seq<ChangeModel>,
    hs: Seq<ChangeHash>,
    heads: Seq<ChangeHash>,
) -> Seq<OpModel> {
    scope_upto(chs, hs, heads, chs.len() as int)
}

/// The keep-predicate of the frontier update: heads not superseded by the
/// new change's parent set.
pub open spec fn head_keep(deps: Seq<ChangeHash>) -> spec_fn(ChangeHash) -> bool {
    |h: ChangeHash| !deps.contains(h)
}

/// Does the hash vector hold `x`?
pub(crate) fn contains_hash(v: &Vec<ChangeHash>, x: ChangeHash) -> (r: bool)
    ensures
        r == v@.contains(x),
{
    let mut i: usize = 0;
    while i < v.len()
        invariant
            i <= v@.len(),
            forall|j: int| 0 <= j < i ==> v@[j] != x,
        decreases v@.len() - i,
    {
        if v[i].0 == x.0 {
            return true;
        }
        i = i + 1;
    }
    false
}

impl Document {
    /// The actor owning this document's transactions.
    pub fn actor(&self) -> (r: ActorId)
        ensures
            r == self.actor_m(),
    {
        self.actor
    }

    /// The greatest operation counter observed so far.
    pub fn op_counter(&self) -> (r: u64)
        ensures
            r == self.max_op_m(),
    {
        self.max_op
    }

    /// Type of the object a handle resolves to, or `None` for an unknown
    /// handle.
    pub fn object_type(&self, obj: ExId) -> (r: Option<ObjType>)
        requires
            self.wf(),
        ensures
            r == obj_type_of(self.ops_m(), obj),
    {
        exec_obj_type(&self.ops, obj)
    }

    /// Copies the operations of the ancestors of `heads`, in store order:
    /// the scope historical reads materialize from.
    #[verifier::rlimit(80)]
    pub(crate) fn ops_at_vec(&self, heads: &Vec<ChangeHash>) -> (r: Vec<Op>)
        requires
            self.hashes@.len() == self.changes@.len(),
        ensures
            views(r@) == scope_at(self.changes_m(), self.hashes_m(), heads@, ),
    {
        let ghost chs = self.changes_m();
        let ghost hs = self.hashes_m();
        let n = self.changes.len();
        let mut marks: Vec<bool> = Vec::new();
        let mut i: usize = 0;
        while i < n
            invariant
                self.hashes@.len() == self.changes@.len(),
                n == self.changes@.len(),
                i <= n,
                marks@.len() == i,
                forall|j: int|
                    0 <= j < i ==> marks@[j] == heads@.contains(self.hashes_m()[j]),
            decreases n - i,
        {
            let m = contains_hash(heads, self.hashes[i]);
            marks.push(m);
            i = i + 1;
        }
        proof {
            assert(marks@ =~= init_marks(chs, hs, heads@));
        }
        let mut k: usize = n;
        while k > 0
            invariant
                self.hashes@.len() == self.changes@.len(),
                n == self.changes@.len(),
                chs == self.changes_m(),
                hs == self.hashes_m(),
                k <= n,
                marks@.len() == n,
                marks@ == marks_from(chs, hs, heads@, k as int),
            decreases k,
        {
            let idx = k - 1;
            let reachable = marks[idx];
            let ghost pre_marks = marks@;
            proof {
                assert(marks@ =~= mark_step_upto(chs, hs, pre_marks, idx as int, 0));
            }
            let mut j2: usize = 0;
            while j2 < idx
                invariant
                    self.hashes@.len() == self.changes@.len(),
                    n == self.changes@.len(),
                    chs == self.changes_m(),
                    hs == self.hashes_m(),
                    idx < n,
                    k == idx + 1,
                    marks@.len() == n,
                    j2 <= idx,
                    pre_marks.len() == n,
                    reachable == pre_marks[idx as int],
                    marks@ == mark_step_upto(chs, hs, pre_marks, idx as int, j2 as int),
                decreases idx - j2,
            {
                let hit = reachable && contains_hash(&self.changes[idx].deps, self.hashes[j2]);
                proof {
                    assert(chs[idx as int] == self.changes@[idx as int]@);
                    assert(chs[idx as int].deps == self.changes@[idx as int].deps@);
                    assert(hs[j2 as int] == self.hashes@[j2 as int]);
                    assert(hit == (reachable && chs[idx as int].deps.contains(hs[j2 as int])));
                }
                if hit {
                    marks.set(j2, true);
                }
                proof {
                    assert(marks@ =~= mark_step_upto(chs, hs, pre_marks, idx as int, j2 + 1 as int));
                }
                j2 = j2 + 1;
            }
            proof {
                assert(marks@ =~= mark_step(chs, hs, pre_marks, idx as int));
            }
            k = idx;
        }
        proof {
            assert forall|j: int| 0 <= j < n implies marks@[j] == reach(chs, hs, heads@, j) by {}
        }
        let mut r: Vec<Op> = Vec::new();
        let mut c: usize = 0;
        while c < n
            invariant
                self.hashes@.len() == self.changes@.len(),
                n == self.changes@.len(),
                chs == self.changes_m(),
                hs == self.hashes_m(),
                c <= n,
                marks@.len() == n,
                forall|j: int| 0 <= j < n ==> marks@[j] == reach(chs, hs, heads@, j),
                views(r@) == scope_upto(chs, hs, heads@, c as int),
            decreases n - c,
        {
            if marks[c] {
                let ch = &self.changes[c];
                let ghost base = views(r@);
                let mut oi: usize = 0;
                while oi < ch.ops.len()
                    invariant
                        oi <= ch.ops@.len(),
                        views(r@) == base + views(ch.ops@).subrange(0, oi as int),
                    decreases ch.ops@.len() - oi,
                {
                    r.push(ch.ops[oi].dup());
                    proof {
                        let pre = views(ch.ops@).subrange(0, oi as int);
                        let post = views(ch.ops@).subrange(0, oi + 1 as int);
                        assert(post =~= pre.push(ch.ops@[oi as int]@));
                        assert(base + post =~= (base + pre).push(ch.ops@[oi as int]@));
                    }
                    oi = oi + 1;
                }
                proof {
                    assert(views(ch.ops@).subrange(0, ch.ops@.len() as int) == views(ch.ops@));
                    assert(chs[c as int].ops == views(ch.ops@));
                    assert(views(r@) =~= scope_upto(chs, hs, heads@, c + 1 as int));
                }
            } else {
                proof {
                    assert(views(r@) + Seq::<OpModel>::empty() =~= views(r@));
                }
            }
            c = c + 1;
        }
        r
    }

}



/// Decides the code-point order on strings.
pub(crate) fn str_le(a: &String, b: &String) -> (r: bool)
    ensures
        r == lex_le(a@, b@),
{
    let na = a.as_str().unicode_len();
    let nb = b.as_str().unicode_len();
    proof {
        assert(a@.skip(0) == a@);
        assert(b@.skip(0) == b@);
    }
    let mut i: usize = 0;
    loop
        invariant
            na == a@.len(),
            nb == b@.len(),
            i <= na,
            i <= nb,
            lex_le(a@, b@) == lex_le(a@.skip(i as int), b@.skip(i as int)),
        decreases na - i,
    {
        if i == na || i == nb {
            proof {
                if i == na {
                    assert(a@.skip(i as int).len() == 0);
                } else {
                    assert(b@.skip(i as int).len() == 0);
                    assert(a@.skip(i as int).len() > 0);
                }
            }
            return na <= nb;
        }
        let ca = a.as_str().get_char(i);
        let cb = b.as_str().get_char(i);
        proof {
            assert(a@.skip(i as int)[0] == a@[i as int]);
            assert(b@.skip(i as int)[0] == b@[i as int]);
            assert(a@.skip(i as int).drop_first() == a@.skip(i + 1));
            assert(b@.skip(i as int).drop_first() == b@.skip(i + 1));
        }
        if (ca as u32) < (cb as u32) {
            return true;
        }
        if (ca as u32) > (cb as u32) {
            return false;
        }
        i = i + 1;
    }
}

/// The key view `k` occurs in the key list.
pub open spec fn contains_key_view(ks: Seq<String>, k: Seq<char>) -> bool {
    exists|i: int| 0 <= i < ks.len() && ks[i]@ == k
}

/// Collects the keys of a map object that hold at least one surviving
/// value, sorted by code point and without duplicates.
#[verifier::rlimit(60)]
pub(crate) fn keys_core(ops: &Vec<Op>, obj: ExId) -> (r: Vec<String>)
    ensures
        forall|i: int, j: int| 0 <= i < j < r@.len() ==> lex_le(r@[i]@, r@[j]@),
        forall|i: int, j: int| 0 <= i < j < r@.len() ==> r@[i]@ != r@[j]@,
        forall|i: int| 0 <= i < r@.len() ==> has_visible(field_ops(views(ops@), obj, r@[i]@)),
        forall|k: Seq<char>|
            has_visible(field_ops(views(ops@), obj, k)) ==> contains_key_view(r@, k),
{
    let ghost s = views(ops@);
    let mut r: Vec<String> = Vec::new();
    let mut i: usize = 0;
    while i < ops.len()
        invariant
            s == views(ops@),
            i <= ops@.len(),
            forall|x: int, y: int| 0 <= x < y < r@.len() ==> lex_le(r@[x]@, r@[y]@),
            forall|x: int, y: int| 0 <= x < y < r@.len() ==> r@[x]@ != r@[y]@,
            forall|x: int| 0 <= x < r@.len() ==> has_visible(field_ops(s, obj, r@[x]@)),
            forall|k: Seq<char>|
                (exists|j: int| 0 <= j < i && on_field(#[trigger] s[j], obj, k)) ==> (
                contains_key_view(r@, k) == has_visible(field_ops(s, obj, k))),
        decreases ops@.len() - i,
    {
        let o = &ops[i];
        let mut candidate: Option<&String> = None;
        if o.obj == obj && !o.insert {
            match &o.key {
                Key::Field(kk) => {
                    candidate = Some(kk);
                },
                _ => {},
            }
        }
        match candidate {
            Option::None => {
                proof {
                    assert forall|k: Seq<char>|
                        (exists|j: int| 0 <= j < i + 1 && on_field(#[trigger] s[j], obj, k))
                            implies (contains_key_view(r@, k) == has_visible(
                            field_ops(s, obj, k),
                        )) by {
                        let j = choose|j: int| 0 <= j < i + 1 && on_field(s[j], obj, k);
                        assert(!on_field(s[i as int], obj, k));
                        assert(j < i);
                    }
                }
            },
            Option::Some(kk) => {
                let ghost r_before = r@;
                let mut present = false;
                let mut m: usize = 0;
                while m < r.len()
                    invariant
                        m <= r@.len(),
                        present == exists|x: int| 0 <= x < m && r@[x]@ == kk@,
                    decreases r@.len() - m,
                {
                    if r[m].eq(kk) {
                        present = true;
                        proof {
                            assert(r@[m as int]@ == kk@);
                        }
                    }
                    m = m + 1;
                }
                if !present {
                    let kops = collect_field_ops(ops, obj, kk);
                    let winner = find_winner(&kops);
                    if winner.is_some() {
                        proof {
                            let wi = winner->Some_0;
                            assert(visible_in(views(kops@), views(kops@)[wi as int]));
                            assert(has_visible(field_ops(s, obj, kk@)));
                        }
                        let mut pos: usize = 0;
                        while pos < r.len() && !str_le(kk, &r[pos])
                            invariant
                                pos <= r@.len(),
                                forall|x: int| 0 <= x < pos ==> !lex_le(kk@, #[trigger] r@[x]@),
                            decreases r@.len() - pos,
                        {
                            pos = pos + 1;
                        }
                        let ghost old_r = r@;
                        proof {
                            assert forall|x: int| 0 <= x < pos implies lex_le(r@[x]@, kk@) by {
                                lemma_lex_total(kk@, r@[x]@);
                            }
                        }
                        r.insert(pos, kk.clone());
                        proof {
                            assert forall|x: int, y: int| 0 <= x < y < r@.len() implies lex_le(
                                r@[x]@,
                                r@[y]@,
                            ) by {
                                if y < pos {
                                } else if y == pos {
                                    assert(r@[x]@ == old_r[x]@);
                                } else if x == pos {
                                    assert(r@[y]@ == old_r[y - 1]@);
                                    if pos < old_r.len() {
                                        assert(lex_le(kk@, old_r[pos as int]@));
                                        if y - 1 > pos {
                                            lemma_lex_trans(
                                                kk@,
                                                old_r[pos as int]@,
                                                old_r[y - 1]@,
                                            );
                                        }
                                    }
                                } else if x < pos {
                                    assert(r@[x]@ == old_r[x]@ && r@[y]@ == old_r[y - 1]@);
                                } else {
                                    assert(r@[x]@ == old_r[x - 1]@ && r@[y]@ == old_r[y - 1]@);
                                }
                            }
                            assert forall|x: int, y: int| 0 <= x < y < r@.len() implies r@[x]@
                                != r@[y]@ by {
                                if y == pos {
                                    assert(r@[x]@ == old_r[x]@);
                                    assert(!contains_key_view(old_r, kk@));
                                } else if x == pos {
                                    assert(r@[y]@ == old_r[y - 1]@);
                                    assert(!contains_key_view(old_r, kk@));
                                }
                            }
                            assert(r@[pos as int]@ == kk@);
                            assert forall|x: int| 0 <= x < r@.len() implies has_visible(
                                field_ops(s, obj, (#[trigger] r@[x])@),
                            ) by {
                                if x < pos {
                                    assert(r@[x] == old_r[x]);
                                } else if x > pos {
                                    assert(r@[x] == old_r[x - 1]);
                                }
                            }
                            assert forall|kx: Seq<char>|
                                contains_key_view(r_before, kx) implies contains_key_view(
                                r@,
                                kx,
                            ) by {
                                let x = choose|x: int| 0 <= x < r_before.len() && r_before[x]@
                                    == kx;
                                if x < pos {
                                    assert(r@[x] == r_before[x]);
                                } else {
                                    assert(r@[x + 1] == r_before[x]);
                                }
                            }
                            assert forall|x: int| 0 <= x < r@.len() implies (#[trigger] r@[x])@
                                == kk@ || contains_key_view(r_before, r@[x]@) by {
                                if x < pos {
                                    assert(r@[x] == r_before[x]);
                                } else if x > pos {
                                    assert(r@[x] == r_before[x - 1]);
                                }
                            }
                        }
                    } else {
                        proof {
                            assert(!has_visible(field_ops(s, obj, kk@)));
                        }
                    }
                }
                proof {
                    assert forall|kx: Seq<char>|
                        contains_key_view(r_before, kx) implies contains_key_view(r@, kx) by {}
                    assert forall|x: int| 0 <= x < r@.len() implies (#[trigger] r@[x])@ == kk@
                        || contains_key_view(r_before, r@[x]@) by {}
                    assert forall|k: Seq<char>|
                        (exists|j: int| 0 <= j < i + 1 && on_field(#[trigger] s[j], obj, k))
                            implies (contains_key_view(r@, k) == has_visible(
                            field_ops(s, obj, k),
                        )) by {
                        if contains_key_view(r@, k) {
                            let x = choose|x: int| 0 <= x < r@.len() && r@[x]@ == k;
                            assert(has_visible(field_ops(s, obj, r@[x]@)));
                        }
                        if has_visible(field_ops(s, obj, k)) {
                            if k == kk@ {
                                if present {
                                    assert(contains_key_view(r_before, kk@));
                                } else {
                                    assert(contains_key_view(r@, kk@));
                                }
                            } else {
                                let j = choose|j: int|
                                    0 <= j < i + 1 && on_field(s[j], obj, k);
                                if j == i {
                                    assert(s[i as int].key == KeyModel::Field(k));
                                    assert(s[i as int].key == KeyModel::Field(kk@));
                                    assert(false);
                                }
                                assert(contains_key_view(r_before, k));
                            }
                        }
                    }
                }
            },
        }
        i = i + 1;
    }
    proof {
        assert forall|k: Seq<char>|
            has_visible(field_ops(s, obj, k)) implies contains_key_view(r@, k) by {
            let o = choose|o: OpModel| visible_in(field_ops(s, obj, k), o);
            lemma_sel_contains(s, field_pred(obj, k), o);
            assert(field_ops(s, obj, k).contains(o));
            assert(s.contains(o) && on_field(o, obj, k));
            let j = choose|j: int| 0 <= j < s.len() && s[j] == o;
            assert(on_field(s[j], obj, k));
        }
    }
    r
}

/// Materializes the value of a single surviving operation, applying
/// increments when it is a counter write.
pub(crate) fn op_value(kops: &Vec<Op>, o: &Op) -> (r: (Value, ExId))
    requires
        is_value_op(o@),
    ensures
        r.0@ == value_model(views(kops@), o@),
        r.1 == ExId::Object(o@.id),
{
    let exid = ExId::Object(o.id);
    match &o.action {
        OpAction::Make(t) => (Value::Object(*t), exid),
        OpAction::Put(s) => match s {
            ScalarValue::Counter(n) => {
                let base = crate::change::i64_bits_exec(*n);
                let tot = exec_incr_total(kops, o.id);
                let val = u64_as_i64_exec(add64_exec(base, tot));
                (Value::Scalar(ScalarValue::Counter(val)), exid)
            },
            _ => (Value::Scalar(s.dup()), exid),
        },
        _ => (Value::Scalar(ScalarValue::Null), exid),
    }
}

/// Collects all surviving values at one key, most recent first.
/// The returned list `rs` is exactly the conflict set of `kops`: one
/// entry per surviving value, strictly descending by operation id (so no
/// value appears twice), most recent first.
#[verifier::opaque]
pub open spec fn conflict_list(kops: Seq<OpModel>, s: Seq<OpModel>, rs: Seq<(Value, ExId)>) -> bool {
    &&& s.len() == rs.len()
    &&& forall|i: int| 0 <= i < s.len() ==> visible_in(kops, #[trigger] s[i])
    &&& forall|o: OpModel| visible_in(kops, o) ==> s.contains(o)
    &&& forall|i: int, j: int| 0 <= i < j < s.len() ==> opid_lt(s[j].id, s[i].id)
    &&& forall|i: int|
        0 <= i < s.len() ==> (#[trigger] rs[i]).0@ == value_model(kops, s[i]) && rs[i].1
            == ExId::Object(s[i].id)
}

pub(crate) fn all_values(kops: &Vec<Op>) -> (r: Vec<(Value, ExId)>)
    requires
        forall|i: int, j: int|
            0 <= i < views(kops@).len() && 0 <= j < views(kops@).len() && i != j ==> (
            #[trigger] views(kops@)[i]).id != (#[trigger] views(kops@)[j]).id,
    ensures
        exists|s: Seq<OpModel>| conflict_list(views(kops@), s, r@),
{
    let ghost v = views(kops@);
    let mut vis: Vec<Op> = Vec::new();
    let mut i: usize = 0;
    while i < kops.len()
        invariant
            v == views(kops@),
            i <= kops@.len(),
            views(vis@) == sel(views(kops@.subrange(0, i as int)), vis_pred(v)),
        decreases kops@.len() - i,
    {
        let o = &kops[i];
        let is_val = match &o.action {
            OpAction::Put(_) => true,
            OpAction::Make(_) => true,
            _ => false,
        };
        let take = is_val && !exec_superseded(kops, o.id);
        proof {
            let pre = views(kops@.subrange(0, i as int));
            let post = views(kops@.subrange(0, i + 1 as int));
            assert(post =~= pre.push(kops@[i as int]@));
            lemma_sel_push(pre, vis_pred(v), kops@[i as int]@);
            assert(take == vis_pred(v)(kops@[i as int]@));
        }
        if take {
            vis.push(o.dup());
        }
        i = i + 1;
    }
    proof {
        assert(kops@.subrange(0, kops@.len() as int) == kops@);
    }
    let mut sorted: Vec<Op> = Vec::new();
    let mut j: usize = 0;
    proof {
        assert(views(sorted@) =~= Seq::<OpModel>::empty());
        assert(views(vis@.subrange(0, 0)) =~= Seq::<OpModel>::empty());
        assert forall|x: int| 0 <= x < vis@.len() implies is_value_op(
            #[trigger] views(vis@)[x],
        ) by {
            let e = views(vis@)[x];
            assert(views(vis@).contains(e));
            lemma_sel_contains(views(kops@), vis_pred(v), e);
            assert(vis_pred(v)(e));
        }
    }
    while j < vis.len()
        invariant
            j <= vis@.len(),
            vstd::relations::sorted_by(views(sorted@), desc_order()),
            views(sorted@).to_multiset() == views(vis@.subrange(0, j as int)).to_multiset(),
            forall|x: int|
                0 <= x < sorted@.len() ==> is_value_op(#[trigger] views(sorted@)[x]),
            forall|x: int| 0 <= x < vis@.len() ==> is_value_op(#[trigger] views(vis@)[x]),
        decreases vis@.len() - j,
    {
        let mut pos: usize = 0;
        while pos < sorted.len() && !sorted[pos].id.le(&vis[j].id)
            invariant
                j < vis@.len(),
                pos <= sorted@.len(),
                forall|m: int|
                    0 <= m < pos ==> !opid_le((#[trigger] views(sorted@)[m]).id,
                    views(vis@)[j as int].id),
            decreases sorted@.len() - pos,
        {
            proof {
                assert(views(sorted@)[pos as int].id == sorted@[pos as int]@.id);
            }
            pos = pos + 1;
        }
        let ghost old_sorted = views(sorted@);
        let x = vis[j].dup();
        sorted.insert(pos, x);
        proof {
            let leq = desc_order();
            let xm = views(vis@)[j as int];
            assert(views(sorted@) =~= old_sorted.insert(pos as int, xm));
            assert forall|a: int, b: int| 0 <= a < b < views(sorted@).len() implies leq(
                views(sorted@)[a],
                views(sorted@)[b],
            ) by {
                if b < pos {
                } else if b == pos {
                    assert(views(sorted@)[a] == old_sorted[a]);
                    assert(!opid_le(old_sorted[a].id, xm.id));
                    assert(opid_le(xm.id, old_sorted[a].id));
                } else if a == pos {
                    assert(views(sorted@)[b] == old_sorted[b - 1]);
                    assert(opid_le(old_sorted[pos as int].id, xm.id));
                    if b - 1 > pos {
                        assert(leq(old_sorted[pos as int], old_sorted[b - 1]));
                        assert(opid_le(old_sorted[b - 1].id, old_sorted[pos as int].id));
                    }
                } else if a < pos {
                    assert(views(sorted@)[a] == old_sorted[a] && views(sorted@)[b] == old_sorted[b
                        - 1]);
                } else {
                    assert(views(sorted@)[a] == old_sorted[a - 1] && views(sorted@)[b]
                        == old_sorted[b - 1]);
                }
            }
            broadcast use vstd::seq_lib::to_multiset_insert;
            let pre = views(vis@.subrange(0, j as int));
            let post = views(vis@.subrange(0, j + 1 as int));
            assert(post =~= pre.push(views(vis@)[j as int]));
            broadcast use vstd::seq_lib::group_to_multiset_ensures;
        }
        j = j + 1;
    }
    proof {
        assert(vis@.subrange(0, vis@.len() as int) == vis@);
    }
    let mut r: Vec<(Value, ExId)> = Vec::new();
    let mut m: usize = 0;
    while m < sorted.len()
        invariant
            m <= sorted@.len(),
            v == views(kops@),
            r@.len() == m,
            forall|x: int|
                0 <= x < sorted@.len() ==> is_value_op(#[trigger] views(sorted@)[x]),
            forall|x: int|
                0 <= x < m ==> (#[trigger] r@[x]).0@ == value_model(v, views(sorted@)[x])
                    && r@[x].1 == ExId::Object(views(sorted@)[x].id),
        decreases sorted@.len() - m,
    {
        proof {
            assert(views(sorted@)[m as int] == sorted@[m as int]@);
        }
        let val = op_value(kops, &sorted[m]);
        r.push(val);
        m = m + 1;
    }
    proof {
        let s = views(sorted@);
        broadcast use vstd::seq_lib::group_to_multiset_ensures;
        assert forall|o: OpModel| visible_in(v, o) implies s.contains(o) by {
            lemma_sel_contains(views(kops@), vis_pred(v), o);
            assert(views(vis@).contains(o));
            assert(views(vis@).to_multiset().count(o) > 0);
        }
        assert forall|i: int| 0 <= i < s.len() implies visible_in(v, #[trigger] s[i]) by {
            assert(s.to_multiset().count(s[i]) > 0);
            assert(views(vis@).contains(s[i]));
            lemma_sel_contains(views(kops@), vis_pred(v), s[i]);
        }
        assert(s.len() == r@.len());
        // ids are pairwise distinct, so the descending order is strict
        lemma_sel_ids_distinct(v, vis_pred(v));
        let vv = views(vis@);
        assert forall|i: int, j: int|
            0 <= i < vv.len() && 0 <= j < vv.len() && i != j implies (#[trigger] vv[i]).id != (
        #[trigger] vv[j]).id by {}
        assert forall|i: int, j: int| 0 <= i < j < s.len() implies opid_lt(s[j].id, s[i].id) by {
            assert(desc_order()(s[i], s[j]));
            assert(opid_le(s[j].id, s[i].id));
            if s[i].id == s[j].id {
                if s[i] == s[j] {
                    assert(vv.no_duplicates()) by {
                        assert forall|x: int, y: int|
                            0 <= x < vv.len() && 0 <= y < vv.len() && x != y implies vv[x] != vv[y] by {
                            assert(vv[x].id != vv[y].id);
                        }
                    }
                    vv.lemma_multiset_has_no_duplicates();
                    s.lemma_multiset_has_no_duplicates_conv();
                    assert(s[i] != s[j]);
                } else {
                    assert(s.contains(s[i]) && s.contains(s[j]));
                    assert(s.to_multiset().count(s[i]) > 0 && s.to_multiset().count(s[j]) > 0);
                    assert(vv.contains(s[i]) && vv.contains(s[j]));
                    let x = choose|x: int| 0 <= x < vv.len() && vv[x] == s[i];
                    let y = choose|y: int| 0 <= y < vv.len() && vv[y] == s[j];
                    assert(x != y);
                    assert(vv[x].id != vv[y].id);
                }
                assert(false);
            }
        }
        assert(conflict_list(v, s, r@)) by {
            reveal(conflict_list);
        }
    }
    r
}


/// A larger bound still bounds the operation.
pub proof fn lemma_op_bounded_mono(o: OpModel, a: u64, b: u64)
    requires
        op_bounded(o, a),
        a <= b,
    ensures
        op_bounded(o, b),
{
}

/// Selecting from a strictly ascending hash sequence keeps it strictly
/// ascending.
pub(crate) proof fn lemma_sel_sorted(s: Seq<ChangeHash>, p: spec_fn(ChangeHash) -> bool)
    requires
        forall|i: int, j: int| 0 <= i < j < s.len() ==> (#[trigger] s[i]).0 < (#[trigger] s[j]).0,
    ensures
        forall|i: int, j: int|
            0 <= i < j < sel(s, p).len() ==> (#[trigger] sel(s, p)[i]).0 < (
            #[trigger] sel(s, p)[j]).0,
    decreases s.len(),
{
    if s.len() > 0 {
        assert forall|i: int, j: int|
            0 <= i < j < s.drop_last().len() implies (#[trigger] s.drop_last()[i]).0 < (
        #[trigger] s.drop_last()[j]).0 by {
            assert(s[i] == s.drop_last()[i] && s[j] == s.drop_last()[j]);
        }
        lemma_sel_sorted(s.drop_last(), p);
        if p(s.last()) {
            let t = sel(s.drop_last(), p);
            assert(sel(s, p) == t.push(s.last()));
            assert forall|i: int| 0 <= i < t.len() implies (#[trigger] t[i]).0 < s.last().0 by {
                lemma_sel_contains(s.drop_last(), p, t[i]);
                let j = choose|j: int| 0 <= j < s.drop_last().len() && s.drop_last()[j] == t[i];
                assert(s[j] == s.drop_last()[j]);
                assert(s[j].0 < s[s.len() - 1].0);
            }
            assert forall|i: int, j: int|
                0 <= i < j < sel(s, p).len() implies (#[trigger] sel(s, p)[i]).0 < (
            #[trigger] sel(s, p)[j]).0 by {
                if j < t.len() {
                } else {
                    assert(sel(s, p)[j] == s.last());
                    assert(sel(s, p)[i] == t[i]);
                }
            }
        }
    }
}

/// The least bound at or above `m0` that bounds every id the operation
/// mentions.
pub(crate) fn op_id_max(o: &Op, m0: u64) -> (r: u64)
    ensures
        r >= m0,
        op_bounded(o@, r),
{
    let mut m = if o.id.counter > m0 {
        o.id.counter
    } else {
        m0
    };
    let mut p: usize = 0;
    while p < o.pred.len()
        invariant
            m >= m0,
            m >= o.id.counter,
            p <= o.pred@.len(),
            forall|x: int| 0 <= x < p ==> (#[trigger] o.pred@[x]).counter <= m,
        decreases o.pred@.len() - p,
    {
        if o.pred[p].counter > m {
            m = o.pred[p].counter;
        }
        p = p + 1;
    }
    match &o.key {
        Key::Elem(ElemId::Id(x)) => {
            if x.counter > m {
                let r = x.counter;
                return r;
            }
        },
        _ => {},
    }
    m
}

/// Length of an object: element count for sequences, key count for maps
/// and tables, 0 for an unknown handle.
pub(crate) fn length_core(ops: &Vec<Op>, obj: ExId) -> (r: usize)
    ensures
        obj_type_of(views(ops@), obj) is None ==> r == 0,
        forall|t: ObjType|
            obj_type_of(views(ops@), obj) == Some(t) && t.spec_is_sequence() ==> r == seq_length(
                views(ops@),
                obj,
            ),
        forall|t: ObjType|
            obj_type_of(views(ops@), obj) == Some(t) && !t.spec_is_sequence() ==> exists|
                ks: Seq<String>,
            |
                #[trigger] ks.len() == r && (forall|i: int|
                    0 <= i < ks.len() ==> has_visible(
                        field_ops(views(ops@), obj, (#[trigger] ks[i])@),
                    )) && (forall|i: int, j: int| 0 <= i < j < ks.len() ==> ks[i]@ != ks[j]@) && (
                forall|k: Seq<char>|
                    has_visible(field_ops(views(ops@), obj, k)) ==> contains_key_view(ks, k)),
{
    match exec_obj_type(ops, obj) {
        Option::None => 0,
        Option::Some(t) => {
            if t.is_sequence() {
                let elems = list_elems(ops, obj);
                elems.len()
            } else {
                let ks = keys_core(ops, obj);
                proof {
                    assert(ks@.len() == ks@.len());
                }
                ks.len()
            }
        },
    }
}

/// Flattened string of a text object: the concatenation of the winning
/// string values of its visible elements, in order. Elements whose winner
/// is not a string contribute nothing.
pub(crate) fn text_core(ops: &Vec<Op>, obj: ExId) -> (r: String)
    ensures
        exists|ws: Seq<OpModel>|
            #[trigger] ws.len() == seq_length(views(ops@), obj) && (forall|i: int|
                0 <= i < ws.len() ==> is_winner(
                    elem_ops(views(ops@), obj, visible_elems(views(ops@), obj)[i]),
                    #[trigger] ws[i],
                )) && r@ == concat_frags(ws),
{
    let ghost s = views(ops@);
    let elems = list_elems(ops, obj);
    let mut r = String::new();
    let ghost mut ws: Seq<OpModel> = Seq::empty();
    let mut i: usize = 0;
    while i < elems.len()
        invariant
            s == views(ops@),
            elems@ == visible_elems(s, obj),
            i <= elems@.len(),
            ws.len() == i,
            forall|x: int|
                0 <= x < i ==> is_winner(elem_ops(s, obj, visible_elems(s, obj)[x]), #[trigger] ws[x]),
            r@ == concat_frags(ws),
        decreases elems@.len() - i,
    {
        let e = elems[i];
        let eops = collect_elem_ops(ops, obj, e);
        match find_winner(&eops) {
            Option::Some(wi) => {
                let w = &eops[wi];
                let ghost old_ws = ws;
                proof {
                    ws = old_ws.push(views(eops@)[wi as int]);
                    assert(ws.drop_last() == old_ws);
                    assert(ws.last() == views(eops@)[wi as int]);
                    assert(views(eops@)[wi as int] == eops@[wi as int]@);
                }
                match &w.action {
                    OpAction::Put(ScalarValue::Str(st)) => {
                        proof {
                            assert(text_frag(ws.last()) == st@);
                        }
                        r.append(st.as_str());
                    },
                    _ => {
                        proof {
                            assert(text_frag(ws.last()) =~= Seq::<char>::empty());
                            assert(r@ + text_frag(ws.last()) =~= r@);
                        }
                    },
                }
            },
            Option::None => {
                proof {
                    lemma_sel_contains(elem_order(s, obj), elem_vis_pred(s, obj), e);
                    assert(visible_elems(s, obj).contains(e));
                    assert(elem_visible(s, obj, e));
                    assert(false);
                }
            },
        }
        i = i + 1;
    }
    r
}

impl Document {
    /// Ingests a change produced on some replica. Validates that its
    /// causal parents are present (`MissingDependency` otherwise), and
    /// applies it idempotently: a change whose hash is already in the
    /// graph leaves the document unchanged. The precondition states the
    /// allocation discipline every commit obeys: operation ids are
    /// consecutive from `start_op` under the change's actor, and do not
    /// collide with ids already present.
    #[verifier::rlimit(80)]
    pub fn apply_change(&mut self, change: Change) -> (r: Result<ChangeHash, OperationError>)
        requires
            old(self).wf(),
            change_shape(change@),
            forall|i: int|
                0 <= i < old(self).ops_m().len() ==> !((#[trigger] old(self).ops_m()[i]).id.actor
                    == change@.actor && change@.start_op <= old(self).ops_m()[i].id.counter
                    < change@.start_op + change@.ops.len()),
        ensures
            final(self).wf(),
            final(self).actor_m() == old(self).actor_m(),
            match r {
                Result::Ok(h) => h == spec_change_hash(change@),
                Result::Err(e) => e == OperationError::MissingDependency,
            },
            old(self).hashes_m().contains(spec_change_hash(change@)) ==> (r matches Ok(h)
                && *final(self) == *old(self)),
            !old(self).hashes_m().contains(spec_change_hash(change@)) && (exists|d: int|
                0 <= d < change@.deps.len() && !old(self).hashes_m().contains(
                    #[trigger] change@.deps[d],
                )) ==> (r matches Err(e) && *final(self) == *old(self)),
            !old(self).hashes_m().contains(spec_change_hash(change@)) && (forall|d: int|
                0 <= d < change@.deps.len() ==> old(self).hashes_m().contains(
                    #[trigger] change@.deps[d],
                )) ==> ({
                &&& r matches Ok(h)
                &&& final(self).changes_m() == old(self).changes_m().push(change@)
                &&& final(self).ops_m() == old(self).ops_m() + change@.ops
                &&& final(self).hashes_m() == old(self).hashes_m().push(spec_change_hash(change@))
                &&& forall|x: ChangeHash|
                    final(self).heads_m().contains(x) == ((old(self).heads_m().contains(x)
                        && !change@.deps.contains(x)) || x == spec_change_hash(change@))
            }),
    {
        let h = compute_change_hash(&change);
        if contains_hash(&self.hashes, h) {
            return Ok(h);
        }
        let mut d: usize = 0;
        while d < change.deps.len()
            invariant
                self.wf(),
                *self == *old(self),
                h == spec_change_hash(change@),
                !self.hashes_m().contains(h),
                d <= change.deps@.len(),
                forall|x: int| 0 <= x < d ==> self.hashes_m().contains(#[trigger] change.deps@[x]),
            decreases change.deps@.len() - d,
        {
            if !contains_hash(&self.hashes, change.deps[d]) {
                return Err(OperationError::MissingDependency);
            }
            d = d + 1;
        }
        let ghost old_self = *self;
        // advance the op counter past everything the change mentions
        let mut m: u64 = self.max_op;
        let mut oi: usize = 0;
        while oi < change.ops.len()
            invariant
                oi <= change.ops@.len(),
                m >= old(self).max_op_m(),
                forall|x: int| 0 <= x < oi ==> op_bounded(#[trigger] views(change.ops@)[x], m),
            decreases change.ops@.len() - oi,
        {
            let ghost m0 = m;
            m = op_id_max(&change.ops[oi], m);
            proof {
                assert forall|x: int| 0 <= x < oi + 1 implies op_bounded(
                    #[trigger] views(change.ops@)[x],
                    m,
                ) by {
                    if x < oi {
                        lemma_op_bounded_mono(views(change.ops@)[x], m0, m);
                    } else {
                        assert(views(change.ops@)[x] == change.ops@[x]@);
                    }
                }
            }
            oi = oi + 1;
        }
        self.max_op = m;
        // append the operations to the store
        let mut ci: usize = 0;
        while ci < change.ops.len()
            invariant
                ci <= change.ops@.len(),
                views(self.ops@) == views(old_self.ops@) + views(change.ops@).subrange(
                    0,
                    ci as int,
                ),
                self.actor == old_self.actor,
                self.max_op == m,
                self.changes@ == old_self.changes@,
                self.hashes@ == old_self.hashes@,
                self.heads@ == old_self.heads@,
            decreases change.ops@.len() - ci,
        {
            self.ops.push(change.ops[ci].dup());
            proof {
                let pre = views(change.ops@).subrange(0, ci as int);
                let post = views(change.ops@).subrange(0, ci + 1 as int);
                assert(post =~= pre.push(change.ops@[ci as int]@));
                assert(views(old_self.ops@) + post =~= (views(old_self.ops@) + pre).push(
                    change.ops@[ci as int]@,
                ));
            }
            ci = ci + 1;
        }
        proof {
            assert(views(change.ops@).subrange(0, change.ops@.len() as int) == views(
                change.ops@,
            ));
        }
        // update the graph and frontier
        let ghost chv = change;
        self.changes.push(change);
        self.hashes.push(h);
        let mut new_heads: Vec<ChangeHash> = Vec::new();
        let mut hi: usize = 0;
        while hi < self.heads.len()
            invariant
                hi <= self.heads@.len(),
                self.heads@ == old_self.heads@,
                self.changes@.len() == old_self.changes@.len() + 1,
                new_heads@ == sel(self.heads@.subrange(0, hi as int), head_keep(self.changes@.last()@.deps)),
            decreases self.heads@.len() - hi,
        {
            let keep = !contains_hash(&self.changes[self.changes.len() - 1].deps, self.heads[hi]);
            proof {
                let pre = self.heads@.subrange(0, hi as int);
                let post = self.heads@.subrange(0, hi + 1 as int);
                assert(post =~= pre.push(self.heads@[hi as int]));
                lemma_sel_push(pre, head_keep(self.changes@.last()@.deps), self.heads@[hi as int]);
                assert(keep == head_keep(self.changes@.last()@.deps)(self.heads@[hi as int]));
            }
            if keep {
                new_heads.push(self.heads[hi]);
            }
            hi = hi + 1;
        }
        proof {
            assert(self.heads@.subrange(0, self.heads@.len() as int) == self.heads@);
        }
        let mut pos: usize = 0;
        while pos < new_heads.len() && new_heads[pos].0 < h.0
            invariant
                pos <= new_heads@.len(),
                forall|x: int| 0 <= x < pos ==> (#[trigger] new_heads@[x]).0 < h.0,
            decreases new_heads@.len() - pos,
        {
            pos = pos + 1;
        }
        new_heads.insert(pos, h);
        self.heads = new_heads;
        proof {
            lemma_apply_wf(old_self, *self, chv, h, m, pos as int);
        }
        Ok(h)
    }
}


/// Re-establishes well-formedness after a change is appended, and gives
/// the frontier update its membership characterization.
#[verifier::rlimit(100)]
pub(crate) proof fn lemma_apply_wf(
    old_self: Document,
    newdoc: Document,
    chv: Change,
    h: ChangeHash,
    m: u64,
    pos: int,
)
    requires
        old_self.wf(),
        change_shape(chv@),
        forall|i: int|
            0 <= i < old_self.ops_m().len() ==> !((#[trigger] old_self.ops_m()[i]).id.actor
                == chv@.actor && chv@.start_op <= old_self.ops_m()[i].id.counter < chv@.start_op
                + chv@.ops.len()),
        !old_self.hashes@.contains(h),
        h == spec_change_hash(chv@),
        newdoc.actor == old_self.actor,
        newdoc.max_op == m,
        m >= old_self.max_op,
        forall|x: int|
            0 <= x < views(chv.ops@).len() ==> op_bounded(#[trigger] views(chv.ops@)[x], m),
        views(newdoc.ops@) == views(old_self.ops@) + views(chv.ops@),
        newdoc.changes@ == old_self.changes@.push(chv),
        newdoc.hashes@ == old_self.hashes@.push(h),
        newdoc.heads@ == sel(old_self.heads@, head_keep(chv@.deps)).insert(pos, h),
        0 <= pos <= sel(old_self.heads@, head_keep(chv@.deps)).len(),
        forall|x: int|
            0 <= x < pos ==> (#[trigger] sel(old_self.heads@, head_keep(chv@.deps))[x]).0 < h.0,
        pos < sel(old_self.heads@, head_keep(chv@.deps)).len() ==> !(sel(
            old_self.heads@,
            head_keep(chv@.deps),
        )[pos].0 < h.0),
    ensures
        newdoc.wf(),
        newdoc.changes_m() == old_self.changes_m().push(chv@),
        newdoc.ops_m() == old_self.ops_m() + chv@.ops,
        newdoc.hashes_m() == old_self.hashes_m().push(h),
        forall|x: ChangeHash|
            newdoc.heads_m().contains(x) == ((old_self.heads_m().contains(x)
                && !chv@.deps.contains(x)) || x == h),
{
    let c = chv@;
            assert(newdoc.changes_m() =~= old_self.changes_m().push(c));
            assert(newdoc.changes_m().drop_last() =~= old_self.changes_m());
            assert(newdoc.ops_m() == views(old_self.ops@) + c.ops);
            assert(all_ops(newdoc.changes_m()) == all_ops(old_self.changes_m()) + c.ops);
            assert(newdoc.ops_m() == all_ops(newdoc.changes_m()));
            // hashes stay the content hashes
            assert forall|i: int|
                0 <= i < newdoc.changes@.len() implies #[trigger] newdoc.hashes@[i]
                == spec_change_hash(newdoc.changes_m()[i]) by {
                if i < old_self.changes@.len() {
                    assert(newdoc.hashes@[i] == old_self.hashes@[i]);
                    assert(newdoc.changes_m()[i] == old_self.changes_m()[i]);
                } else {
                    assert(newdoc.hashes@[i] == h);
                }
            }
            assert forall|i: int|
                0 <= i < newdoc.changes@.len() implies change_shape(
                #[trigger] newdoc.changes_m()[i]) by {
                if i < old_self.changes@.len() {
                    assert(newdoc.changes_m()[i] == old_self.changes_m()[i]);
                }
            }
            // bounds
            assert forall|o: OpModel| newdoc.ops_m().contains(o) implies op_bounded(
                o,
                newdoc.max_op,
            ) by {
                let i = choose|i: int| 0 <= i < newdoc.ops_m().len() && newdoc.ops_m()[i] == o;
                if i < old_self.ops@.len() {
                    assert(old_self.ops_m()[i] == o);
                    assert(old_self.ops_m().contains(o));
                    lemma_op_bounded_mono(o, old_self.max_op, m);
                } else {
                    assert(o == views(chv.ops@)[i - old_self.ops@.len()]);
                }
            }
            // unique ids
            assert forall|i: int, j: int|
                0 <= i < newdoc.ops_m().len() && 0 <= j < newdoc.ops_m().len() && i != j implies (
            #[trigger] newdoc.ops_m()[i]).id != (#[trigger] newdoc.ops_m()[j]).id by {
                let na = old_self.ops@.len() as int;
                if i < na && j < na {
                    assert(newdoc.ops_m()[i] == old_self.ops_m()[i]);
                    assert(newdoc.ops_m()[j] == old_self.ops_m()[j]);
                } else if i >= na && j >= na {
                    assert(newdoc.ops_m()[i] == c.ops[i - na] && newdoc.ops_m()[j] == c.ops[j
                        - na]);
                } else if i < na {
                    assert(newdoc.ops_m()[i] == old_self.ops_m()[i]);
                    assert(newdoc.ops_m()[j] == c.ops[j - na]);
                } else {
                    assert(newdoc.ops_m()[j] == old_self.ops_m()[j]);
                    assert(newdoc.ops_m()[i] == c.ops[i - na]);
                }
            }
            lemma_apply_heads(old_self, newdoc, chv, h, pos);
}


/// Frontier update: the new head set stays a sorted subset of the graph's
/// hashes, and holds exactly the old heads not superseded by the new
/// change plus the new hash.
#[verifier::rlimit(100)]
#[verifier::spinoff_prover]
pub(crate) proof fn lemma_apply_heads(
    old_self: Document,
    newdoc: Document,
    chv: Change,
    h: ChangeHash,
    pos: int,
)
    requires
        old_self.wf(),
        !old_self.hashes@.contains(h),
        newdoc.hashes@ == old_self.hashes@.push(h),
        newdoc.heads@ == sel(old_self.heads@, head_keep(chv@.deps)).insert(pos, h),
        0 <= pos <= sel(old_self.heads@, head_keep(chv@.deps)).len(),
        forall|x: int|
            0 <= x < pos ==> (#[trigger] sel(old_self.heads@, head_keep(chv@.deps))[x]).0 < h.0,
        pos < sel(old_self.heads@, head_keep(chv@.deps)).len() ==> !(sel(
            old_self.heads@,
            head_keep(chv@.deps),
        )[pos].0 < h.0),
    ensures
        forall|i: int, j: int|
            0 <= i < j < newdoc.heads@.len() ==> (#[trigger] newdoc.heads@[i]).0 < (
            #[trigger] newdoc.heads@[j]).0,
        forall|i: int|
            0 <= i < newdoc.heads@.len() ==> newdoc.hashes@.contains(#[trigger] newdoc.heads@[i]),
        forall|x: ChangeHash|
            newdoc.heads_m().contains(x) == ((old_self.heads_m().contains(x)
                && !chv@.deps.contains(x)) || x == h),
{
    let c = chv@;
    // frontier: sorted, distinct, within the graph
            let kept = sel(old_self.heads@, head_keep(c.deps));
            assert(newdoc.heads@ =~= kept.insert(pos as int, h));
            lemma_sel_sorted(old_self.heads@, head_keep(c.deps));
            assert forall|x: int| 0 <= x < kept.len() implies old_self.heads@.contains(
                #[trigger] kept[x]) by {
                lemma_sel_contains(old_self.heads@, head_keep(c.deps), kept[x]);
            }
            assert forall|x: int| 0 <= x < kept.len() implies (#[trigger] kept[x]).0 != h.0 by {
                assert(old_self.heads@.contains(kept[x]));
                let hi2 = choose|hi2: int|
                    0 <= hi2 < old_self.heads@.len() && old_self.heads@[hi2] == kept[x];
                assert(old_self.hashes@.contains(old_self.heads@[hi2]));
                assert(!old_self.hashes@.contains(h));
            }
            assert forall|i: int, j: int|
                0 <= i < j < newdoc.heads@.len() implies (#[trigger] newdoc.heads@[i]).0 < (
            #[trigger] newdoc.heads@[j]).0 by {
                if j < pos {
                } else if j == pos {
                    assert(newdoc.heads@[i] == kept[i]);
                    assert(kept[i].0 < h.0);
                } else if i == pos {
                    assert(newdoc.heads@[j] == kept[j - 1]);
                    if pos < kept.len() {
                        assert(!(kept[pos as int].0 < h.0));
                        assert(kept[pos as int].0 != h.0);
                        if j - 1 > pos {
                            assert(kept[pos as int].0 < kept[j - 1].0);
                        }
                    }
                } else if i < pos {
                    assert(newdoc.heads@[i] == kept[i] && newdoc.heads@[j] == kept[j - 1]);
                } else {
                    assert(newdoc.heads@[i] == kept[i - 1] && newdoc.heads@[j] == kept[j - 1]);
                }
            }
            assert forall|i: int| 0 <= i < newdoc.heads@.len() implies newdoc.hashes@.contains(
                #[trigger] newdoc.heads@[i]) by {
                if i == pos {
                    assert(newdoc.heads@[i] == h);
                    assert(newdoc.hashes@[newdoc.hashes@.len() - 1] == h);
                } else {
                    let e = if i < pos { kept[i] } else { kept[i - 1] };
                    assert(newdoc.heads@[i] == e);
                    assert(old_self.heads@.contains(e));
                    let hi2 = choose|hi2: int|
                        0 <= hi2 < old_self.heads@.len() && old_self.heads@[hi2] == e;
                    let hj = choose|hj: int|
                        0 <= hj < old_self.hashes@.len() && old_self.hashes@[hj] == e;
                    assert(newdoc.hashes@[hj] == e);
                }
            }
            lemma_apply_heads_members(old_self, newdoc, chv, h, pos);
}


/// Nothing in the sequence satisfies the predicate, so the selection is
/// empty.
pub proof fn lemma_sel_none<A>(s: Seq<A>, p: spec_fn(A) -> bool)
    requires
        forall|i: int| 0 <= i < s.len() ==> !p(#[trigger] s[i]),
    ensures
        sel(s, p) == Seq::<A>::empty(),
    decreases s.len(),
{
    if s.len() > 0 {
        assert forall|i: int| 0 <= i < s.drop_last().len() implies !p(
            #[trigger] s.drop_last()[i]) by {
            assert(s.drop_last()[i] == s[i]);
        }
        lemma_sel_none(s.drop_last(), p);
        assert(!p(s[s.len() - 1]));
    }
}

/// A fresh value operation whose predecessor set names every surviving
/// value at its key becomes the sole surviving value there.
pub proof fn lemma_fresh_value_op(kops: Seq<OpModel>, o: OpModel, m: u64)
    requires
        forall|p: OpModel| kops.contains(p) ==> op_bounded(p, m),
        o.id.counter > m,
        is_value_op(o),
        forall|x: int| 0 <= x < o.pred.len() ==> (#[trigger] o.pred[x]).counter <= m,
        forall|p: OpModel| visible_in(kops, p) ==> o.pred.contains(p.id),
    ensures
        forall|p: OpModel| visible_in(kops.push(o), p) <==> p == o,
        is_winner(kops.push(o), o),
{
    let ks = kops.push(o);
    assert(!superseded_in(ks, o.id)) by {
        if superseded_in(ks, o.id) {
            let i = choose|i: int| 0 <= i < ks.len() && supersedes(#[trigger] ks[i], o.id);
            if i < kops.len() {
                assert(kops[i] == ks[i]);
                assert(kops.contains(kops[i]));
                let x = choose|x: int| 0 <= x < ks[i].pred.len() && ks[i].pred[x] == o.id;
                assert(ks[i].pred[x].counter <= m);
                assert(false);
            } else {
                assert(ks[i] == o);
                let x = choose|x: int| 0 <= x < o.pred.len() && o.pred[x] == o.id;
                assert(false);
            }
        }
    }
    assert(ks[ks.len() - 1] == o);
    assert(ks.contains(o));
    assert(visible_in(ks, o));
    assert forall|p: OpModel| visible_in(ks, p) implies p == o by {
        if p != o {
            let i = choose|i: int| 0 <= i < ks.len() && ks[i] == p;
            assert(i < kops.len());
            assert(kops[i] == p);
            assert(kops.contains(p));
            assert(!superseded_in(kops, p.id)) by {
                if superseded_in(kops, p.id) {
                    let j = choose|j: int|
                        0 <= j < kops.len() && supersedes(#[trigger] kops[j], p.id);
                    assert(ks[j] == kops[j]);
                    assert(superseded_in(ks, p.id));
                }
            }
            assert(visible_in(kops, p));
            assert(o.pred.contains(p.id));
            assert(supersedes(o, p.id));
            assert(superseded_in(ks, p.id)) by {
                assert(supersedes(ks[ks.len() - 1], p.id));
            }
            assert(false);
        }
    }
}

/// A fresh delete whose predecessor set names every surviving value at
/// its key leaves the key with no surviving value.
pub proof fn lemma_fresh_delete(kops: Seq<OpModel>, o: OpModel, m: u64)
    requires
        forall|p: OpModel| kops.contains(p) ==> op_bounded(p, m),
        o.id.counter > m,
        o.action is Delete,
        forall|p: OpModel| visible_in(kops, p) ==> o.pred.contains(p.id),
    ensures
        forall|p: OpModel| !visible_in(kops.push(o), p),
{
    let ks = kops.push(o);
    assert forall|p: OpModel| !visible_in(ks, p) by {
        if visible_in(ks, p) {
            let i = choose|i: int| 0 <= i < ks.len() && ks[i] == p;
            if i == kops.len() {
                assert(p == o);
                assert(!is_value_op(o));
            } else {
                assert(kops[i] == p);
                assert(kops.contains(p));
                assert(!superseded_in(kops, p.id)) by {
                    if superseded_in(kops, p.id) {
                        let j = choose|j: int|
                            0 <= j < kops.len() && supersedes(#[trigger] kops[j], p.id);
                        assert(ks[j] == kops[j]);
                        assert(superseded_in(ks, p.id));
                    }
                }
                assert(visible_in(kops, p));
                assert(supersedes(o, p.id));
                assert(supersedes(ks[ks.len() - 1], p.id));
                assert(superseded_in(ks, p.id));
                assert(false);
            }
        }
    }
}

/// An increment operation leaves the surviving-value set of its key
/// untouched: it only adjusts the displayed counter value.
pub proof fn lemma_incr_keeps(kops: Seq<OpModel>, o: OpModel)
    requires
        o.action is Increment,
    ensures
        forall|p: OpModel| visible_in(kops.push(o), p) <==> visible_in(kops, p),
{
    let ks = kops.push(o);
    assert forall|p: OpModel| visible_in(ks, p) <==> visible_in(kops, p) by {
        assert(!superseded_in(ks, p.id) == !superseded_in(kops, p.id)) by {
            if superseded_in(kops, p.id) {
                let j = choose|j: int| 0 <= j < kops.len() && supersedes(#[trigger] kops[j], p.id);
                assert(ks[j] == kops[j]);
                assert(superseded_in(ks, p.id));
            }
            if superseded_in(ks, p.id) {
                let j = choose|j: int| 0 <= j < ks.len() && supersedes(#[trigger] ks[j], p.id);
                if j < kops.len() {
                    assert(kops[j] == ks[j]);
                    assert(superseded_in(kops, p.id));
                } else {
                    assert(ks[j] == o);
                    assert(!supersedes(o, p.id));
                }
            }
        }
        if visible_in(ks, p) {
            let i = choose|i: int| 0 <= i < ks.len() && ks[i] == p;
            if i == kops.len() {
                assert(p == o);
                assert(!is_value_op(o));
            } else {
                assert(kops[i] == ks[i]);
            }
        }
        if visible_in(kops, p) {
            let i = choose|i: int| 0 <= i < kops.len() && kops[i] == p;
            assert(ks[i] == kops[i]);
        }
    }
}

/// Collects the ids of the surviving values at one key: the predecessor
/// set a new operation there supersedes.
pub(crate) fn visible_id_vec(kops: &Vec<Op>) -> (r: Vec<OpId>)
    ensures
        r@ == visible_ids(views(kops@)),
        forall|p: OpModel| visible_in(views(kops@), p) ==> r@.contains(p.id),
{
    let ghost v = views(kops@);
    let mut r: Vec<OpId> = Vec::new();
    let mut i: usize = 0;
    while i < kops.len()
        invariant
            v == views(kops@),
            i <= kops@.len(),
            r@ == sel(views(kops@.subrange(0, i as int)), vis_pred(v)).map_values(
                |o: OpModel| o.id,
            ),
        decreases kops@.len() - i,
    {
        let o = &kops[i];
        let is_val = match &o.action {
            OpAction::Put(_) => true,
            OpAction::Make(_) => true,
            _ => false,
        };
        let take = is_val && !exec_superseded(kops, o.id);
        proof {
            let pre = views(kops@.subrange(0, i as int));
            let post = views(kops@.subrange(0, i + 1 as int));
            assert(post =~= pre.push(kops@[i as int]@));
            lemma_sel_push(pre, vis_pred(v), kops@[i as int]@);
            assert(take == vis_pred(v)(kops@[i as int]@));
            if take {
                assert(sel(post, vis_pred(v)).map_values(|o: OpModel| o.id) =~= sel(
                    pre,
                    vis_pred(v),
                ).map_values(|o: OpModel| o.id).push(kops@[i as int]@.id));
            }
        }
        if take {
            r.push(o.id);
        }
        i = i + 1;
    }
    proof {
        assert(kops@.subrange(0, kops@.len() as int) == kops@);
        assert forall|p: OpModel| visible_in(v, p) implies r@.contains(p.id) by {
            lemma_sel_contains(v, vis_pred(v), p);
            assert(visible_ops(v).contains(p));
            let i = choose|i: int| 0 <= i < visible_ops(v).len() && visible_ops(v)[i] == p;
            assert(r@[i] == p.id);
        }
    }
    r
}


/// Membership characterization of the frontier update.
#[verifier::rlimit(100)]
#[verifier::spinoff_prover]
pub(crate) proof fn lemma_apply_heads_members(
    old_self: Document,
    newdoc: Document,
    chv: Change,
    h: ChangeHash,
    pos: int,
)
    requires
        newdoc.heads@ == sel(old_self.heads@, head_keep(chv@.deps)).insert(pos, h),
        0 <= pos <= sel(old_self.heads@, head_keep(chv@.deps)).len(),
    ensures
        forall|x: ChangeHash|
            newdoc.heads_m().contains(x) == ((old_self.heads_m().contains(x)
                && !chv@.deps.contains(x)) || x == h),
{
    let c = chv@;
    let kept = sel(old_self.heads@, head_keep(c.deps));
            // frontier membership characterization
            assert forall|x: ChangeHash|
                newdoc.heads_m().contains(x) == ((old_self.heads_m().contains(x)
                    && !c.deps.contains(x)) || x == h) by {
                if newdoc.heads_m().contains(x) {
                    let i = choose|i: int|
                        0 <= i < newdoc.heads@.len() && newdoc.heads@[i] == x;
                    if i == pos {
                    } else {
                        let e = if i < pos { kept[i] } else { kept[i - 1] };
                        assert(x == e);
                        lemma_sel_contains(old_self.heads@, head_keep(c.deps), e);
                        assert(kept.contains(e));
                    }
                }
                if (old_self.heads_m().contains(x) && !c.deps.contains(x)) {
                    lemma_sel_contains(old_self.heads@, head_keep(c.deps), x);
                    assert(kept.contains(x));
                    let i = choose|i: int| 0 <= i < kept.len() && kept[i] == x;
                    if i < pos {
                        assert(newdoc.heads@[i] == x);
                    } else {
                        assert(newdoc.heads@[i + 1] == x);
                    }
                }
                if x == h {
                    assert(newdoc.heads@[pos as int] == x);
                }
            }
}


/// One notification to an attached observer: enough context to rebuild
/// the value change.
#[derive(Debug)]
pub enum Event {
    Put { obj: ExId, prop: Prop, value: ScalarValue },
    PutObject { obj: ExId, prop: Prop, kind: ObjType },
    Insert { obj: ExId, index: usize, value: ScalarValue },
    InsertObject { obj: ExId, index: usize, kind: ObjType },
    Increment { obj: ExId, prop: Prop, delta: i64 },
    Delete { obj: ExId, prop: Prop },
}

/// An operation sink: records one event per applied operation, in order,
/// for incremental diff propagation. Attaching one never changes what a
/// read returns, it only adds notifications.
#[derive(Debug)]
pub struct Observer {
    pub events: Vec<Event>,
}

impl Observer {
    /// A sink with no recorded events.
    pub fn new() -> (r: Observer)
        ensures
            r.events@.len() == 0,
    {
        Observer { events: Vec::new() }
    }
}

/// A transaction: exclusive ownership of the document while a batch of
/// operations is staged against one base head set. Dropping it without
/// committing discards the staged operations, since they are only made
/// part of history by `commit`.
pub struct Transaction {
    pub(crate) doc: Document,
    pub(crate) base_len: usize,
    pub(crate) base_max: u64,
    pub(crate) observer: Option<Observer>,
    pub(crate) base: Ghost<Document>,
}

impl Transaction {
    /// The operation scope this transaction reads from: the committed
    /// store followed by its own staged operations.
    pub closed spec fn scope(self) -> Seq<OpModel> {
        views(self.doc.ops@)
    }

    /// The document this transaction was opened on.
    pub closed spec fn base_m(self) -> Document {
        self.base@
    }

    /// Number of staged, not yet committed operations.
    pub closed spec fn pending(self) -> nat {
        (self.doc.ops@.len() - self.base_len) as nat
    }

    /// The staged operations themselves.
    pub closed spec fn staged(self) -> Seq<OpModel> {
        self.scope().subrange(self.base_len as int, self.scope().len() as int)
    }

    /// The actor issuing this transaction's operations.
    pub closed spec fn actor_m(self) -> ActorId {
        self.doc.actor
    }

    /// The id the next staged operation will get.
    pub closed spec fn next_id(self) -> OpId {
        OpId { counter: (self.doc.max_op + 1) as u64, actor: self.doc.actor }
    }

    /// The greatest operation counter this transaction has observed: the
    /// base document's counter plus one per staged operation.
    pub closed spec fn op_ceiling(self) -> u64 {
        self.doc.max_op
    }

    /// Whether `n` more operation ids can be allocated (a machine limit
    /// on the 64-bit counter, not a rule of the model).
    pub open spec fn ids_available(self, n: nat) -> bool {
        self.op_ceiling() + n <= u64::MAX
    }

    /// The per-actor sequence number and starting counter of the next
    /// commit stay within their 64-bit ranges (a machine limit).
    pub open spec fn commit_fits(self) -> bool {
        self.base_m().changes_m().len() < u64::MAX && self.op_ceiling() < u64::MAX
    }

    /// Whether an observer is attached.
    pub closed spec fn observed(self) -> bool {
        self.observer is Some
    }

    /// The attached sink itself.
    pub closed spec fn sink(self) -> Option<Observer> {
        self.observer
    }

    /// Well-formedness: the base document is intact underneath, staged
    /// operations carry consecutive ids of this actor past the base
    /// counter, and the combined store keeps the document invariants.
    pub closed spec fn wf(self) -> bool {
        &&& self.base@.wf()
        &&& self.doc.actor == self.base@.actor
        &&& self.doc.changes@ == self.base@.changes@
        &&& self.doc.hashes@ == self.base@.hashes@
        &&& self.doc.heads@ == self.base@.heads@
        &&& self.base_len == self.base@.ops@.len()
        &&& self.base_max == self.base@.max_op
        &&& self.base_len <= self.doc.ops@.len()
        &&& views(self.doc.ops@).subrange(0, self.base_len as int) == views(self.base@.ops@)
        &&& self.doc.max_op == self.base_max + (self.doc.ops@.len() - self.base_len)
        &&& forall|j: int|
            self.base_len <= j < self.doc.ops@.len() ==> (#[trigger] views(self.doc.ops@)[j]).id
                == (OpId {
                counter: (self.base_max + 1 + (j - self.base_len)) as u64,
                actor: self.doc.actor,
            })
        &&& forall|o: OpModel| self.scope().contains(o) ==> op_bounded(o, self.doc.max_op)
        &&& forall|i: int, j: int|
            0 <= i < self.scope().len() && 0 <= j < self.scope().len() && i != j ==> (
            #[trigger] self.scope()[i]).id != (#[trigger] self.scope()[j]).id
    }

    /// Staged operation count.
    pub fn pending_ops(&self) -> (r: usize)
        requires
            self.wf(),
        ensures
            r == self.pending(),
    {
        self.doc.ops.len() - self.base_len
    }

    /// The heads of the document before this transaction was started.
    pub fn get_heads(&self) -> (r: Vec<ChangeHash>)
        requires
            self.wf(),
        ensures
            r@ == self.base_m().heads_m(),
    {
        self.doc.get_heads()
    }

    /// The base head set this transaction's commit will depend on.
    pub fn base_heads(&self) -> (r: Vec<ChangeHash>)
        requires
            self.wf(),
        ensures
            r@ == self.base_m().heads_m(),
    {
        self.doc.get_heads()
    }

    /// The attached observer, if any.
    pub fn observer(&self) -> (r: Option<&Observer>)
        ensures
            (r is Some) == self.observed(),
            match r {
                Option::Some(o) => self.sink() == Some(*o),
                Option::None => self.sink() is None,
            },
    {
        self.observer.as_ref()
    }

    /// Discards every staged operation: the document returns to its
    /// pre-transaction state, and the number of removed operations is
    /// reported.
    pub fn rollback(self) -> (r: (Document, usize))
        requires
            self.wf(),
        ensures
            r.0.wf(),
            r.0.ops_m() == self.base_m().ops_m(),
            r.0.changes_m() == self.base_m().changes_m(),
            r.0.heads_m() == self.base_m().heads_m(),
            r.0.hashes_m() == self.base_m().hashes_m(),
            r.0.actor_m() == self.base_m().actor_m(),
            r.1 == self.pending(),
    {
        let mut doc = self.doc;
        let n = doc.ops.len() - self.base_len;
        doc.ops.truncate(self.base_len);
        doc.max_op = self.base_max;
        proof {
            assert(views(doc.ops@) =~= views(self.base@.ops@));
            assert(doc.changes_m() =~= self.base@.changes_m());
            assert(doc.ops_m() == self.base@.ops_m());
            assert(doc.wf()) by {
                assert forall|o: OpModel| doc.ops_m().contains(o) implies op_bounded(
                    o,
                    doc.max_op,
                ) by {
                    assert(self.base@.ops_m().contains(o));
                }
            }
        }
        (doc, n)
    }

    /// Freezes the staged operations into a change whose parents are the
    /// base heads, appends it to the history graph, moves the document's
    /// heads to the new hash alone, and returns the released document
    /// with the commit result.
    pub fn commit(self) -> (r: (Document, CommitResult))
        requires
            self.wf(),
            self.commit_fits(),
        ensures
            r.0.wf(),
            r.1.hash == spec_change_hash(self.commit_change(None, 0)),
            r.0.changes_m() == self.base_m().changes_m().push(self.commit_change(None, 0)),
            r.0.ops_m() == self.base_m().ops_m() + self.staged(),
            r.0.heads_m() == seq![spec_change_hash(self.commit_change(None, 0))],
            r.0.actor_m() == self.base_m().actor_m(),
            (r.1.diff is Some) == self.observed(),
    {
        self.commit_with(CommitOptions::new())
    }

    /// The change this transaction produces when committed with the given
    /// message and time: a pure function of the staged operations, the
    /// base document and the metadata, so identical op sequences from the
    /// same base with identical metadata yield the identical change.
    pub closed spec fn commit_change(self, message: Option<Seq<char>>, time: i64) -> ChangeModel {
        ChangeModel {
            actor: self.doc.actor,
            seq: (count_actor(self.base@.changes_m(), self.doc.actor) + 1) as u64,
            start_op: (self.base_max + 1) as u64,
            time,
            message,
            deps: self.base@.heads@,
            ops: self.staged(),
        }
    }

    /// As [`Self::commit`], with an optional message and timestamp.
    pub fn commit_with(self, options: CommitOptions) -> (r: (Document, CommitResult))
        requires
            self.wf(),
            self.commit_fits(),
        ensures
            r.0.wf(),
            r.1.hash == spec_change_hash(
                self.commit_change(
                    match options.message {
                        Option::None => Option::None,
                        Option::Some(s) => Option::Some(s@),
                    },
                    match options.time {
                        Option::None => 0,
                        Option::Some(t) => t,
                    },
                ),
            ),
            r.0.changes_m() == self.base_m().changes_m().push(
                self.commit_change(
                    match options.message {
                        Option::None => Option::None,
                        Option::Some(s) => Option::Some(s@),
                    },
                    match options.time {
                        Option::None => 0,
                        Option::Some(t) => t,
                    },
                ),
            ),
            r.0.ops_m() == self.base_m().ops_m() + self.staged(),
            r.0.heads_m() == seq![r.1.hash],
            r.0.actor_m() == self.base_m().actor_m(),
            (r.1.diff is Some) == self.observed(),
    {
        let mut doc = self.doc;
        let mut seq_no: u64 = 1;
        let mut ci: usize = 0;
        while ci < doc.changes.len()
            invariant
                ci <= doc.changes@.len(),
                doc.changes@.len() < u64::MAX,
                seq_no == 1 + count_actor(doc.changes_m().subrange(0, ci as int), doc.actor),
                seq_no <= 1 + ci,
            decreases doc.changes@.len() - ci,
        {
            proof {
                let pre = doc.changes_m().subrange(0, ci as int);
                let post = doc.changes_m().subrange(0, ci + 1 as int);
                assert(post.drop_last() == pre);
                assert(post.last() == doc.changes_m()[ci as int]);
            }
            if doc.changes[ci].actor == doc.actor {
                seq_no = seq_no + 1;
            }
            ci = ci + 1;
        }
        proof {
            assert(doc.changes_m().subrange(0, doc.changes_m().len() as int) == doc.changes_m());
        }
        let deps = doc.get_heads();
        let mut ops: Vec<Op> = Vec::new();
        let mut oi: usize = self.base_len;
        while oi < doc.ops.len()
            invariant
                self.base_len <= oi <= doc.ops@.len(),
                views(ops@) == views(doc.ops@).subrange(self.base_len as int, oi as int),
            decreases doc.ops@.len() - oi,
        {
            ops.push(doc.ops[oi].dup());
            proof {
                let pre = views(doc.ops@).subrange(self.base_len as int, oi as int);
                let post = views(doc.ops@).subrange(self.base_len as int, oi + 1 as int);
                assert(post =~= pre.push(views(doc.ops@)[oi as int]));
            }
            oi = oi + 1;
        }
        let change = Change {
            actor: doc.actor,
            seq: seq_no,
            start_op: self.base_max + 1,
            time: match options.time {
                Option::None => 0,
                Option::Some(t) => t,
            },
            message: options.message,
            deps,
            ops,
        };
        let h = compute_change_hash(&change);
        let ghost chv = change;
        doc.changes.push(change);
        doc.hashes.push(h);
        let mut heads: Vec<ChangeHash> = Vec::new();
        heads.push(h);
        doc.heads = heads;
        proof {
            lemma_commit_wf(self, doc, chv, h);
        }
        (
            doc,
            CommitResult { hash: h, diff: self.observer },
        )
    }
}

/// What a commit returns: the new change's hash, and the accumulated
/// diff when an observer was attached.
#[derive(Debug)]
pub struct CommitResult {
    pub hash: ChangeHash,
    pub diff: Option<Observer>,
}

/// Number of changes issued by `actor` in the sequence.
pub open spec fn count_actor(chs: Seq<ChangeModel>, actor: ActorId) -> nat
    decreases chs.len(),
{
    if chs.len() == 0 {
        0
    } else {
        count_actor(chs.drop_last(), actor) + if chs.last().actor == actor {
            1nat
        } else {
            0nat
        }
    }
}

impl Document {
    /// Opens a transaction: takes exclusive ownership of the document
    /// until commit or rollback, without an observer.
    pub fn transaction(self) -> (tx: Transaction)
        requires
            self.wf(),
        ensures
            tx.wf(),
            tx.base_m() == self,
            tx.scope() == self.ops_m(),
            tx.pending() == 0,
            !tx.observed(),
            tx.op_ceiling() == self.max_op_m(),
    {
        let base_len = self.ops.len();
        let base_max = self.max_op;
        let tx = Transaction {
            base: Ghost(self),
            doc: self,
            base_len,
            base_max,
            observer: None,
        };
        proof {
            assert(views(tx.doc.ops@).subrange(0, tx.base_len as int) =~= views(tx.base@.ops@));
        }
        tx
    }

    /// Opens a transaction with an observer attached: each applied
    /// operation will be recorded, and commit returns the accumulated
    /// diff.
    pub fn transaction_observed(self) -> (tx: Transaction)
        requires
            self.wf(),
        ensures
            tx.wf(),
            tx.base_m() == self,
            tx.scope() == self.ops_m(),
            tx.pending() == 0,
            tx.observed(),
            tx.op_ceiling() == self.max_op_m(),
    {
        let base_len = self.ops.len();
        let base_max = self.max_op;
        let tx = Transaction {
            base: Ghost(self),
            doc: self,
            base_len,
            base_max,
            observer: Some(Observer::new()),
        };
        proof {
            assert(views(tx.doc.ops@).subrange(0, tx.base_len as int) =~= views(tx.base@.ops@));
        }
        tx
    }
}

/// Commit re-establishes the document invariants: the staged suffix and
/// the new change are one and the same operations.
#[verifier::rlimit(100)]
#[verifier::spinoff_prover]
pub(crate) proof fn lemma_commit_wf(tx: Transaction, doc: Document, chv: Change, h: ChangeHash)
    requires
        tx.wf(),
        tx.doc.max_op < u64::MAX,
        h == spec_change_hash(chv@),
        chv@.actor == tx.doc.actor,
        chv@.seq == 1 + count_actor(tx.base@.changes_m(), tx.doc.actor),
        chv@.start_op == tx.base_max + 1,
        chv@.deps == tx.base@.heads@,
        chv@.ops == tx.staged(),
        doc.actor == tx.doc.actor,
        doc.max_op == tx.doc.max_op,
        doc.ops@ == tx.doc.ops@,
        doc.changes@ == tx.doc.changes@.push(chv),
        doc.hashes@ == tx.doc.hashes@.push(h),
        doc.heads@ == seq![h],
    ensures
        doc.wf(),
        doc.changes_m() == tx.base_m().changes_m().push(chv@),
        doc.ops_m() == tx.base_m().ops_m() + tx.staged(),
        doc.heads_m() == seq![h],
{
    assert(doc.changes_m() =~= tx.base@.changes_m().push(chv@));
    assert(doc.changes_m().drop_last() =~= tx.base@.changes_m());
    assert(all_ops(doc.changes_m()) == all_ops(tx.base@.changes_m()) + chv@.ops);
    assert(tx.base@.ops_m() == all_ops(tx.base@.changes_m()));
    assert(doc.ops_m() =~= views(tx.base@.ops@) + tx.staged());
    assert(doc.ops_m() == all_ops(doc.changes_m()));
    lemma_commit_graph(tx, doc, chv, h);
    assert forall|o: OpModel| doc.ops_m().contains(o) implies op_bounded(o, doc.max_op) by {
        assert(tx.scope().contains(o));
    }
    assert(doc.ops_m() == tx.scope());
    assert forall|i: int|
        0 <= i < doc.heads@.len() implies doc.hashes@.contains(#[trigger] doc.heads@[i]) by {
        assert(doc.heads@[0] == h);
        assert(doc.hashes@[doc.hashes@.len() - 1] == h);
    }
}


/// The graph part of commit: hashes match contents, and the new change
/// obeys the allocation shape.
#[verifier::rlimit(100)]
#[verifier::spinoff_prover]
pub(crate) proof fn lemma_commit_graph(tx: Transaction, doc: Document, chv: Change, h: ChangeHash)
    requires
        tx.wf(),
        tx.doc.max_op < u64::MAX,
        h == spec_change_hash(chv@),
        chv@.actor == tx.doc.actor,
        chv@.start_op == tx.base_max + 1,
        chv@.ops == tx.staged(),
        doc.ops@ == tx.doc.ops@,
        doc.changes@ == tx.doc.changes@.push(chv),
        doc.hashes@ == tx.doc.hashes@.push(h),
    ensures
        forall|i: int|
            0 <= i < doc.changes@.len() ==> #[trigger] doc.hashes@[i] == spec_change_hash(
                doc.changes_m()[i],
            ),
        forall|i: int| 0 <= i < doc.changes@.len() ==> change_shape(#[trigger] doc.changes_m()[i]),
{
    assert forall|i: int|
        0 <= i < doc.changes@.len() implies #[trigger] doc.hashes@[i] == spec_change_hash(
        doc.changes_m()[i]) by {
        if i < tx.base@.changes@.len() {
            assert(doc.hashes@[i] == tx.base@.hashes@[i]);
            assert(doc.changes_m()[i] == tx.base@.changes_m()[i]);
        } else {
            assert(doc.hashes@[i] == h);
        }
    }
    assert(change_shape(chv@)) by {
        assert forall|j: int|
            0 <= j < chv@.ops.len() implies (#[trigger] chv@.ops[j]).id == (OpId {
            counter: (chv@.start_op + j) as u64,
            actor: chv@.actor,
        }) by {
            assert(chv@.ops[j] == views(tx.doc.ops@)[tx.base_len + j]);
        }
    }
    assert forall|i: int|
        0 <= i < doc.changes@.len() implies change_shape(#[trigger] doc.changes_m()[i]) by {
        if i < tx.base@.changes@.len() {
            assert(doc.changes_m()[i] == tx.base@.changes_m()[i]);
        }
    }

}


/// Ids of surviving values at a key stay under the document's op
/// counter.
pub(crate) proof fn lemma_visible_ids_bounded(
    s: Seq<OpModel>,
    p: spec_fn(OpModel) -> bool,
    m: u64,
)
    requires
        forall|o: OpModel| s.contains(o) ==> op_bounded(o, m),
    ensures
        forall|x: int|
            0 <= x < visible_ids(sel(s, p)).len() ==> (#[trigger] visible_ids(sel(s, p))[x]).counter
                <= m,
{
    let k = sel(s, p);
    assert forall|x: int|
        0 <= x < visible_ids(k).len() implies (#[trigger] visible_ids(k)[x]).counter <= m by {
        let e = visible_ops(k)[x];
        assert(visible_ids(k)[x] == e.id);
        assert(visible_ops(k).contains(e));
        lemma_sel_contains(k, vis_pred(k), e);
        lemma_sel_contains(s, p, e);
    }
}

impl Transaction {
    /// Allocates the next id and appends one operation to the store.
    fn stage(
        &mut self,
        obj: ExId,
        key: Key,
        is_ins: bool,
        action: OpAction,
        pred: Vec<OpId>,
    ) -> (id: OpId)
        requires
            old(self).wf(),
            old(self).ids_available(1),
            forall|x: int|
                0 <= x < pred@.len() ==> (#[trigger] pred@[x]).counter <= old(self).doc.max_op,
            match key@ {
                KeyModel::Elem(ElemId::Id(x)) => x.counter <= old(self).doc.max_op,
                _ => true,
            },
        ensures
            final(self).wf(),
            id == old(self).next_id(),
            final(self).scope() == old(self).scope().push(
                OpModel { id, obj, key: key@, insert: is_ins, action: action@, pred: pred@ },
            ),
            final(self).base_m() == old(self).base_m(),
            final(self).pending() == old(self).pending() + 1,
            final(self).observed() == old(self).observed(),
            final(self).observer == old(self).observer,
            final(self).doc.max_op == old(self).doc.max_op + 1,
            final(self).ids_available(0),
    {
        let id = OpId { counter: self.doc.max_op + 1, actor: self.doc.actor };
        let ghost oldtx = *self;
        let op = Op { id, obj, key, insert: is_ins, action, pred };
        let ghost opm = op@;
        self.doc.ops.push(op);
        self.doc.max_op = self.doc.max_op + 1;
        proof {
            assert(self.scope() =~= oldtx.scope().push(opm));
            assert(views(self.doc.ops@).subrange(0, self.base_len as int) =~= views(
                oldtx.doc.ops@,
            ).subrange(0, self.base_len as int));
            assert forall|o: OpModel| self.scope().contains(o) implies op_bounded(
                o,
                self.doc.max_op,
            ) by {
                let i = choose|i: int| 0 <= i < self.scope().len() && self.scope()[i] == o;
                if i < oldtx.scope().len() {
                    assert(oldtx.scope().contains(o));
                    lemma_op_bounded_mono(o, oldtx.doc.max_op, self.doc.max_op);
                } else {
                    assert(o == opm);
                }
            }
            assert forall|i: int, j: int|
                0 <= i < self.scope().len() && 0 <= j < self.scope().len() && i != j implies (
            #[trigger] self.scope()[i]).id != (#[trigger] self.scope()[j]).id by {
                let n = oldtx.scope().len() as int;
                if i < n && j < n {
                    assert(self.scope()[i] == oldtx.scope()[i]);
                    assert(self.scope()[j] == oldtx.scope()[j]);
                } else if i == n {
                    assert(self.scope()[j] == oldtx.scope()[j]);
                    assert(oldtx.scope().contains(oldtx.scope()[j]));
                    assert(oldtx.scope()[j].id.counter <= oldtx.doc.max_op);
                } else if j == n {
                    assert(self.scope()[i] == oldtx.scope()[i]);
                    assert(oldtx.scope().contains(oldtx.scope()[i]));
                    assert(oldtx.scope()[i].id.counter <= oldtx.doc.max_op);
                }
            }
        }
        id
    }

    /// Sets a scalar at a map key or an existing list index. The new
    /// write supersedes every value visible at that spot, so within this
    /// transaction it reads back as the single surviving value.
    pub fn put(&mut self, obj: ExId, prop: &Prop, value: ScalarValue) -> (r: Result<
        (),
        OperationError,
    >)
        requires
            old(self).wf(),
            old(self).ids_available(1),
        ensures
            final(self).wf(),
            final(self).base_m() == old(self).base_m(),
            final(self).observed() == old(self).observed(),
            final(self).op_ceiling() == old(self).op_ceiling() + final(self).pending() - old(
                self,
            ).pending(),
            obj_type_of(old(self).scope(), obj) is None ==> r == Result::<(), OperationError>::Err(
                OperationError::ObjectNotFound,
            ) && final(self).scope() == old(self).scope(),
            forall|t: ObjType|
                obj_type_of(old(self).scope(), obj) == Some(t) && !prop_matches(t, prop@) ==> r
                    == Result::<(), OperationError>::Err(OperationError::InvalidProp)
                    && final(self).scope() == old(self).scope(),
            forall|t: ObjType, k: Seq<char>|
                obj_type_of(old(self).scope(), obj) == Some(t) && prop_matches(t, prop@) && prop@
                    == PropModel::Key(k) ==> ({
                    let newop = OpModel {
                        id: old(self).next_id(),
                        obj,
                        key: KeyModel::Field(k),
                        insert: false,
                        action: ActionModel::Put(value@),
                        pred: visible_ids(field_ops(old(self).scope(), obj, k)),
                    };
                    &&& r is Ok
                    &&& final(self).scope() == old(self).scope().push(newop)
                    &&& final(self).pending() == old(self).pending() + 1
                    &&& is_winner(field_ops(final(self).scope(), obj, k), newop)
                    &&& forall|p: OpModel|
                        visible_in(field_ops(final(self).scope(), obj, k), p) <==> p == newop
                }),
            forall|t: ObjType, i: usize|
                obj_type_of(old(self).scope(), obj) == Some(t) && prop_matches(t, prop@) && prop@
                    == PropModel::Index(i) ==> (if i < seq_length(old(self).scope(), obj) {
                    let e = visible_elems(old(self).scope(), obj)[i as int];
                    let newop = OpModel {
                        id: old(self).next_id(),
                        obj,
                        key: KeyModel::Elem(ElemId::Id(e)),
                        insert: false,
                        action: ActionModel::Put(value@),
                        pred: visible_ids(elem_ops(old(self).scope(), obj, e)),
                    };
                    &&& r is Ok
                    &&& final(self).scope() == old(self).scope().push(newop)
                    &&& final(self).pending() == old(self).pending() + 1
                    &&& is_winner(elem_ops(final(self).scope(), obj, e), newop)
                    &&& forall|p: OpModel|
                        visible_in(elem_ops(final(self).scope(), obj, e), p) <==> p == newop
                } else {
                    r == Result::<(), OperationError>::Err(OperationError::IndexOutOfBounds)
                        && final(self).scope() == old(self).scope()
                }),
    {
        let ghost s = self.scope();
        let t = match exec_obj_type(&self.doc.ops, obj) {
            Option::None => {
                return Err(OperationError::ObjectNotFound);
            },
            Option::Some(t) => t,
        };
        match prop {
            Prop::Key(k) => {
                if t.is_sequence() {
                    return Err(OperationError::InvalidProp);
                }
                let kops = collect_field_ops(&self.doc.ops, obj, k);
                let pred = visible_id_vec(&kops);
                proof {
                    lemma_visible_ids_bounded(s, field_pred(obj, k@), self.doc.max_op);
                }
                let ev_value = value.dup();
                let id = self.stage(obj, Key::Field(k.clone()), false, OpAction::Put(value), pred);
                proof {
                    let newop = self.scope().last();
                    assert(field_ops(self.scope(), obj, k@) == field_ops(s, obj, k@).push(newop))
                        by {
                        lemma_sel_push(s, field_pred(obj, k@), newop);
                    }
                    assert forall|p: OpModel| field_ops(s, obj, k@).contains(p) implies op_bounded(
                        p,
                        old(self).doc.max_op,
                    ) by {
                        lemma_sel_contains(s, field_pred(obj, k@), p);
                    }
                    lemma_fresh_value_op(field_ops(s, obj, k@), newop, old(self).doc.max_op);
                }
                if let Some(ob) = self.observer.as_mut() {
                    ob.events.push(Event::Put { obj, prop: prop.dup(), value: ev_value });
                }
                Ok(())
            },
            Prop::Index(ix) => {
                if !t.is_sequence() {
                    return Err(OperationError::InvalidProp);
                }
                let elems = list_elems(&self.doc.ops, obj);
                if *ix >= elems.len() {
                    return Err(OperationError::IndexOutOfBounds);
                }
                let e = elems[*ix];
                let eops = collect_elem_ops(&self.doc.ops, obj, e);
                let pred = visible_id_vec(&eops);
                proof {
                    lemma_visible_ids_bounded(s, elem_pred(obj, e), self.doc.max_op);
                    assert(elem_order(s, obj).contains(e)) by {
                        lemma_sel_contains(elem_order(s, obj), elem_vis_pred(s, obj), e);
                    }
                    lemma_elem_id_bounded(s, obj, e, self.doc.max_op);
                }
                let ev_value = value.dup();
                let id = self.stage(
                    obj,
                    Key::Elem(ElemId::Id(e)),
                    false,
                    OpAction::Put(value),
                    pred,
                );
                proof {
                    let newop = self.scope().last();
                    assert(elem_ops(self.scope(), obj, e) == elem_ops(s, obj, e).push(newop)) by {
                        lemma_sel_push(s, elem_pred(obj, e), newop);
                    }
                    assert forall|p: OpModel| elem_ops(s, obj, e).contains(p) implies op_bounded(
                        p,
                        old(self).doc.max_op,
                    ) by {
                        lemma_sel_contains(s, elem_pred(obj, e), p);
                    }
                    lemma_fresh_value_op(elem_ops(s, obj, e), newop, old(self).doc.max_op);
                }
                if let Some(ob) = self.observer.as_mut() {
                    ob.events.push(Event::Put { obj, prop: prop.dup(), value: ev_value });
                }
                Ok(())
            },
        }
    }
}

/// An element of the materialized order carries the id of an insertion
/// operation of the scope, so it stays under the op counter.
pub(crate) proof fn lemma_elem_id_bounded(s: Seq<OpModel>, obj: ExId, e: OpId, m: u64)
    requires
        forall|o: OpModel| s.contains(o) ==> op_bounded(o, m),
        elem_order(s, obj).contains(e),
    ensures
        e.counter <= m,
{
    let pairs = ins_pairs(s, obj);
    let sorted = pairs.sort_by(pair_order());
    lemma_build_ids(sorted);
    let i = choose|i: int| 0 <= i < sorted.len() && sorted[i].0 == e;
    assert(sorted.contains(sorted[i]));
    lemma_pair_order_total();
    pairs.lemma_sort_by_ensures(pair_order());
    broadcast use vstd::seq_lib::group_to_multiset_ensures;
    assert(pairs.to_multiset().count(sorted[i]) > 0);
    assert(pairs.contains(sorted[i]));
    lemma_ins_pairs_ids(s, obj, sorted[i]);
    let j = choose|j: int| 0 <= j < s.len() && (#[trigger] s[j]).id == sorted[i].0;
    assert(s.contains(s[j]));
    assert(op_bounded(s[j], m));
}


impl Transaction {
    /// Creates a nested container at a map key or an existing list
    /// index, returning its freshly minted handle. Like a scalar write,
    /// it supersedes every value visible at that spot.
    pub fn put_object(&mut self, obj: ExId, prop: &Prop, kind: ObjType) -> (r: Result<
        ExId,
        OperationError,
    >)
        requires
            old(self).wf(),
            old(self).ids_available(1),
        ensures
            final(self).wf(),
            final(self).base_m() == old(self).base_m(),
            final(self).observed() == old(self).observed(),
            final(self).op_ceiling() == old(self).op_ceiling() + final(self).pending() - old(
                self,
            ).pending(),
            obj_type_of(old(self).scope(), obj) is None ==> r == Result::<
                ExId,
                OperationError,
            >::Err(OperationError::ObjectNotFound) && final(self).scope() == old(self).scope(),
            forall|t: ObjType|
                obj_type_of(old(self).scope(), obj) == Some(t) && !prop_matches(t, prop@) ==> r
                    == Result::<ExId, OperationError>::Err(OperationError::InvalidProp)
                    && final(self).scope() == old(self).scope(),
            forall|t: ObjType, k: Seq<char>|
                obj_type_of(old(self).scope(), obj) == Some(t) && prop_matches(t, prop@) && prop@
                    == PropModel::Key(k) ==> ({
                    let newop = OpModel {
                        id: old(self).next_id(),
                        obj,
                        key: KeyModel::Field(k),
                        insert: false,
                        action: ActionModel::Make(kind),
                        pred: visible_ids(field_ops(old(self).scope(), obj, k)),
                    };
                    &&& r == Result::<ExId, OperationError>::Ok(ExId::Object(old(self).next_id()))
                    &&& final(self).scope() == old(self).scope().push(newop)
                    &&& final(self).pending() == old(self).pending() + 1
                    &&& is_winner(field_ops(final(self).scope(), obj, k), newop)
                    &&& obj_type_of(final(self).scope(), ExId::Object(old(self).next_id()))
                        == Some(kind)
                }),
            forall|t: ObjType, i: usize|
                obj_type_of(old(self).scope(), obj) == Some(t) && prop_matches(t, prop@) && prop@
                    == PropModel::Index(i) && i >= seq_length(old(self).scope(), obj) ==> r
                    == Result::<ExId, OperationError>::Err(OperationError::IndexOutOfBounds)
                    && final(self).scope() == old(self).scope(),
            forall|t: ObjType, i: usize|
                obj_type_of(old(self).scope(), obj) == Some(t) && prop_matches(t, prop@) && prop@
                    == PropModel::Index(i) && i < seq_length(old(self).scope(), obj) ==> ({
                    let e = visible_elems(old(self).scope(), obj)[i as int];
                    let newop = OpModel {
                        id: old(self).next_id(),
                        obj,
                        key: KeyModel::Elem(ElemId::Id(e)),
                        insert: false,
                        action: ActionModel::Make(kind),
                        pred: visible_ids(elem_ops(old(self).scope(), obj, e)),
                    };
                    &&& r == Result::<ExId, OperationError>::Ok(ExId::Object(old(self).next_id()))
                    &&& final(self).scope() == old(self).scope().push(newop)
                    &&& final(self).pending() == old(self).pending() + 1
                    &&& is_winner(elem_ops(final(self).scope(), obj, e), newop)
                    &&& obj_type_of(final(self).scope(), ExId::Object(old(self).next_id()))
                        == Some(kind)
                }),
    {
        let ghost s = self.scope();
        let t = match exec_obj_type(&self.doc.ops, obj) {
            Option::None => {
                return Err(OperationError::ObjectNotFound);
            },
            Option::Some(t) => t,
        };
        match prop {
            Prop::Key(k) => {
                if t.is_sequence() {
                    return Err(OperationError::InvalidProp);
                }
                let kops = collect_field_ops(&self.doc.ops, obj, k);
                let pred = visible_id_vec(&kops);
                proof {
                    lemma_visible_ids_bounded(s, field_pred(obj, k@), self.doc.max_op);
                }
                let id = self.stage(obj, Key::Field(k.clone()), false, OpAction::Make(kind), pred);
                proof {
                    let newop = self.scope().last();
                    assert(field_ops(self.scope(), obj, k@) == field_ops(s, obj, k@).push(newop))
                        by {
                        lemma_sel_push(s, field_pred(obj, k@), newop);
                    }
                    assert forall|p: OpModel| field_ops(s, obj, k@).contains(p) implies op_bounded(
                        p,
                        old(self).doc.max_op,
                    ) by {
                        lemma_sel_contains(s, field_pred(obj, k@), p);
                    }
                    lemma_fresh_value_op(field_ops(s, obj, k@), newop, old(self).doc.max_op);
                    lemma_first_make_fresh(s, newop, old(self).doc.max_op, kind);
                }
                if let Some(ob) = self.observer.as_mut() {
                    ob.events.push(Event::PutObject { obj, prop: prop.dup(), kind });
                }
                Ok(ExId::Object(id))
            },
            Prop::Index(ix) => {
                if !t.is_sequence() {
                    return Err(OperationError::InvalidProp);
                }
                let elems = list_elems(&self.doc.ops, obj);
                if *ix >= elems.len() {
                    return Err(OperationError::IndexOutOfBounds);
                }
                let e = elems[*ix];
                let eops = collect_elem_ops(&self.doc.ops, obj, e);
                let pred = visible_id_vec(&eops);
                proof {
                    lemma_visible_ids_bounded(s, elem_pred(obj, e), self.doc.max_op);
                    assert(elem_order(s, obj).contains(e)) by {
                        lemma_sel_contains(elem_order(s, obj), elem_vis_pred(s, obj), e);
                    }
                    lemma_elem_id_bounded(s, obj, e, self.doc.max_op);
                }
                let id = self.stage(
                    obj,
                    Key::Elem(ElemId::Id(e)),
                    false,
                    OpAction::Make(kind),
                    pred,
                );
                proof {
                    let newop = self.scope().last();
                    assert(elem_ops(self.scope(), obj, e) == elem_ops(s, obj, e).push(newop)) by {
                        lemma_sel_push(s, elem_pred(obj, e), newop);
                    }
                    assert forall|p: OpModel| elem_ops(s, obj, e).contains(p) implies op_bounded(
                        p,
                        old(self).doc.max_op,
                    ) by {
                        lemma_sel_contains(s, elem_pred(obj, e), p);
                    }
                    lemma_fresh_value_op(elem_ops(s, obj, e), newop, old(self).doc.max_op);
                    lemma_first_make_fresh(s, newop, old(self).doc.max_op, kind);
                }
                if let Some(ob) = self.observer.as_mut() {
                    ob.events.push(Event::PutObject { obj, prop: prop.dup(), kind });
                }
                Ok(ExId::Object(id))
            },
        }
    }

    /// Tombstones the values at a map key or list index. Deleting an
    /// absent map key is a silent no-op (idempotent delete); deleting an
    /// out-of-range index is an error.
    pub fn delete(&mut self, obj: ExId, prop: &Prop) -> (r: Result<(), OperationError>)
        requires
            old(self).wf(),
            old(self).ids_available(1),
        ensures
            final(self).wf(),
            final(self).base_m() == old(self).base_m(),
            final(self).observed() == old(self).observed(),
            final(self).op_ceiling() == old(self).op_ceiling() + final(self).pending() - old(
                self,
            ).pending(),
            obj_type_of(old(self).scope(), obj) is None ==> r == Result::<(), OperationError>::Err(
                OperationError::ObjectNotFound,
            ) && final(self).scope() == old(self).scope(),
            forall|t: ObjType|
                obj_type_of(old(self).scope(), obj) == Some(t) && !prop_matches(t, prop@) ==> r
                    == Result::<(), OperationError>::Err(OperationError::InvalidProp)
                    && final(self).scope() == old(self).scope(),
            forall|t: ObjType, k: Seq<char>|
                obj_type_of(old(self).scope(), obj) == Some(t) && prop_matches(t, prop@) && prop@
                    == PropModel::Key(k) ==> ({
                    &&& r is Ok
                    &&& !has_visible(field_ops(final(self).scope(), obj, k))
                    &&& !has_visible(field_ops(old(self).scope(), obj, k)) ==> final(self).scope()
                        == old(self).scope()
                    &&& has_visible(field_ops(old(self).scope(), obj, k)) ==> final(self).scope()
                        == old(self).scope().push(
                        OpModel {
                            id: old(self).next_id(),
                            obj,
                            key: KeyModel::Field(k),
                            insert: false,
                            action: ActionModel::Delete,
                            pred: visible_ids(field_ops(old(self).scope(), obj, k)),
                        },
                    )
                }),
            forall|t: ObjType, i: usize|
                obj_type_of(old(self).scope(), obj) == Some(t) && prop_matches(t, prop@) && prop@
                    == PropModel::Index(i) ==> (if i < seq_length(old(self).scope(), obj) {
                    &&& r is Ok
                    &&& !elem_visible(
                        final(self).scope(),
                        obj,
                        visible_elems(old(self).scope(), obj)[i as int],
                    )
                    &&& final(self).scope() == old(self).scope().push(
                        OpModel {
                            id: old(self).next_id(),
                            obj,
                            key: KeyModel::Elem(
                                ElemId::Id(visible_elems(old(self).scope(), obj)[i as int]),
                            ),
                            insert: false,
                            action: ActionModel::Delete,
                            pred: visible_ids(
                                elem_ops(
                                    old(self).scope(),
                                    obj,
                                    visible_elems(old(self).scope(), obj)[i as int],
                                ),
                            ),
                        },
                    )
                } else {
                    r == Result::<(), OperationError>::Err(OperationError::IndexOutOfBounds)
                        && final(self).scope() == old(self).scope()
                }),
    {
        let ghost s = self.scope();
        let t = match exec_obj_type(&self.doc.ops, obj) {
            Option::None => {
                return Err(OperationError::ObjectNotFound);
            },
            Option::Some(t) => t,
        };
        match prop {
            Prop::Key(k) => {
                if t.is_sequence() {
                    return Err(OperationError::InvalidProp);
                }
                let kops = collect_field_ops(&self.doc.ops, obj, k);
                match find_winner(&kops) {
                    Option::None => Ok(()),
                    Option::Some(wi) => {
                        let pred = visible_id_vec(&kops);
                        proof {
                            lemma_visible_ids_bounded(s, field_pred(obj, k@), self.doc.max_op);
                        }
                        let id = self.stage(
                            obj,
                            Key::Field(k.clone()),
                            false,
                            OpAction::Delete,
                            pred,
                        );
                        proof {
                            let newop = self.scope().last();
                            assert(field_ops(self.scope(), obj, k@) == field_ops(
                                s,
                                obj,
                                k@,
                            ).push(newop)) by {
                                lemma_sel_push(s, field_pred(obj, k@), newop);
                            }
                            assert forall|p: OpModel|
                                field_ops(s, obj, k@).contains(p) implies op_bounded(
                                p,
                                old(self).doc.max_op,
                            ) by {
                                lemma_sel_contains(s, field_pred(obj, k@), p);
                            }
                            lemma_fresh_delete(field_ops(s, obj, k@), newop, old(self).doc.max_op);
                        }
                        if let Some(ob) = self.observer.as_mut() {
                            ob.events.push(Event::Delete { obj, prop: prop.dup() });
                        }
                        Ok(())
                    },
                }
            },
            Prop::Index(ix) => {
                if !t.is_sequence() {
                    return Err(OperationError::InvalidProp);
                }
                let elems = list_elems(&self.doc.ops, obj);
                if *ix >= elems.len() {
                    return Err(OperationError::IndexOutOfBounds);
                }
                let e = elems[*ix];
                let eops = collect_elem_ops(&self.doc.ops, obj, e);
                let pred = visible_id_vec(&eops);
                proof {
                    lemma_visible_ids_bounded(s, elem_pred(obj, e), self.doc.max_op);
                    assert(elem_order(s, obj).contains(e)) by {
                        lemma_sel_contains(elem_order(s, obj), elem_vis_pred(s, obj), e);
                    }
                    lemma_elem_id_bounded(s, obj, e, self.doc.max_op);
                }
                let id = self.stage(obj, Key::Elem(ElemId::Id(e)), false, OpAction::Delete, pred);
                proof {
                    let newop = self.scope().last();
                    assert(elem_ops(self.scope(), obj, e) == elem_ops(s, obj, e).push(newop)) by {
                        lemma_sel_push(s, elem_pred(obj, e), newop);
                    }
                    assert forall|p: OpModel| elem_ops(s, obj, e).contains(p) implies op_bounded(
                        p,
                        old(self).doc.max_op,
                    ) by {
                        lemma_sel_contains(s, elem_pred(obj, e), p);
                    }
                    lemma_fresh_delete(elem_ops(s, obj, e), newop, old(self).doc.max_op);
                }
                if let Some(ob) = self.observer.as_mut() {
                    ob.events.push(Event::Delete { obj, prop: prop.dup() });
                }
                Ok(())
            },
        }
    }

    /// Adds `delta` to a counter value. Fails with `TypeMismatch` when
    /// the winning value at the target is not a counter (or the target is
    /// empty). The surviving-value set of the key is untouched: only the
    /// displayed counter total changes.
    pub fn increment(&mut self, obj: ExId, prop: &Prop, delta: i64) -> (r: Result<
        (),
        OperationError,
    >)
        requires
            old(self).wf(),
            old(self).ids_available(1),
        ensures
            final(self).wf(),
            final(self).base_m() == old(self).base_m(),
            final(self).observed() == old(self).observed(),
            final(self).op_ceiling() == old(self).op_ceiling() + final(self).pending() - old(
                self,
            ).pending(),
            obj_type_of(old(self).scope(), obj) is None ==> r == Result::<(), OperationError>::Err(
                OperationError::ObjectNotFound,
            ) && final(self).scope() == old(self).scope(),
            forall|t: ObjType|
                obj_type_of(old(self).scope(), obj) == Some(t) && !prop_matches(t, prop@) ==> r
                    == Result::<(), OperationError>::Err(OperationError::InvalidProp)
                    && final(self).scope() == old(self).scope(),
            r is Ok ==> final(self).pending() == old(self).pending() + 1,
            r is Err ==> final(self).scope() == old(self).scope(),
            forall|k: Seq<char>|
                kind_ok(old(self).scope(), obj, prop@) && prop@ == PropModel::Key(k) ==> ((r is Ok
                    <==> counter_winner(field_ops(old(self).scope(), obj, k))) && (r is Err ==> r
                    == Result::<(), OperationError>::Err(OperationError::TypeMismatch))),
            forall|i: usize|
                kind_ok(old(self).scope(), obj, prop@) && prop@ == PropModel::Index(i) ==> (if i
                    < seq_length(old(self).scope(), obj) {
                    (r is Ok <==> counter_winner(
                        elem_ops(
                            old(self).scope(),
                            obj,
                            visible_elems(old(self).scope(), obj)[i as int],
                        ),
                    )) && (r is Err ==> r == Result::<(), OperationError>::Err(
                        OperationError::TypeMismatch,
                    )) && (r is Ok ==> final(self).scope() == old(self).scope().push(
                        OpModel {
                            id: old(self).next_id(),
                            obj,
                            key: KeyModel::Elem(
                                ElemId::Id(visible_elems(old(self).scope(), obj)[i as int]),
                            ),
                            insert: false,
                            action: ActionModel::Increment(delta),
                            pred: visible_ids(
                                elem_ops(
                                    old(self).scope(),
                                    obj,
                                    visible_elems(old(self).scope(), obj)[i as int],
                                ),
                            ),
                        },
                    ))
                } else {
                    r == Result::<(), OperationError>::Err(OperationError::IndexOutOfBounds)
                }),
            forall|t: ObjType, k: Seq<char>|
                obj_type_of(old(self).scope(), obj) == Some(t) && prop_matches(t, prop@) && prop@
                    == PropModel::Key(k) && r is Ok ==> ({
                    let newop = OpModel {
                        id: old(self).next_id(),
                        obj,
                        key: KeyModel::Field(k),
                        insert: false,
                        action: ActionModel::Increment(delta),
                        pred: visible_ids(field_ops(old(self).scope(), obj, k)),
                    };
                    &&& final(self).scope() == old(self).scope().push(newop)
                    &&& forall|p: OpModel|
                        visible_in(field_ops(final(self).scope(), obj, k), p) <==> visible_in(
                            field_ops(old(self).scope(), obj, k),
                            p,
                        )
                }),
    {
        let ghost s = self.scope();
        let t = match exec_obj_type(&self.doc.ops, obj) {
            Option::None => {
                return Err(OperationError::ObjectNotFound);
            },
            Option::Some(t) => t,
        };
        match prop {
            Prop::Key(k) => {
                if t.is_sequence() {
                    return Err(OperationError::InvalidProp);
                }
                let kops = collect_field_ops(&self.doc.ops, obj, k);
                let winner = find_winner(&kops);
                let target_ok = match winner {
                    Option::None => false,
                    Option::Some(wi) => match &kops[wi].action {
                        OpAction::Put(ScalarValue::Counter(_)) => true,
                        _ => false,
                    },
                };
                proof {
                    lemma_sel_ids_distinct(s, field_pred(obj, k@));
                    assert(target_ok == counter_winner(field_ops(s, obj, k@))) by {
                        match winner {
                            Option::Some(wi) => {
                                let found = views(kops@)[wi as int];
                                if counter_winner(field_ops(s, obj, k@)) {
                                    let w = choose|w: OpModel|
                                        is_winner(field_ops(s, obj, k@), w)
                                            && w.action matches ActionModel::Put(
                                            ScalarModel::Counter(_),
                                        );
                                    lemma_winner_unique(field_ops(s, obj, k@), w, found);
                                }
                            },
                            Option::None => {
                                if counter_winner(field_ops(s, obj, k@)) {
                                    let w = choose|w: OpModel|
                                        is_winner(field_ops(s, obj, k@), w)
                                            && w.action matches ActionModel::Put(
                                            ScalarModel::Counter(_),
                                        );
                                    assert(visible_in(field_ops(s, obj, k@), w));
                                    assert(false);
                                }
                            },
                        }
                    }
                }
                if !target_ok {
                    return Err(OperationError::TypeMismatch);
                }
                let pred = visible_id_vec(&kops);
                proof {
                    lemma_visible_ids_bounded(s, field_pred(obj, k@), self.doc.max_op);
                }
                let id = self.stage(
                    obj,
                    Key::Field(k.clone()),
                    false,
                    OpAction::Increment(delta),
                    pred,
                );
                proof {
                    let newop = self.scope().last();
                    assert(field_ops(self.scope(), obj, k@) == field_ops(s, obj, k@).push(newop))
                        by {
                        lemma_sel_push(s, field_pred(obj, k@), newop);
                    }
                    lemma_incr_keeps(field_ops(s, obj, k@), newop);
                }
                if let Some(ob) = self.observer.as_mut() {
                    ob.events.push(Event::Increment { obj, prop: prop.dup(), delta });
                }
                Ok(())
            },
            Prop::Index(ix) => {
                if !t.is_sequence() {
                    return Err(OperationError::InvalidProp);
                }
                let elems = list_elems(&self.doc.ops, obj);
                if *ix >= elems.len() {
                    return Err(OperationError::IndexOutOfBounds);
                }
                let e = elems[*ix];
                let eops = collect_elem_ops(&self.doc.ops, obj, e);
                let winner = find_winner(&eops);
                let target_ok = match winner {
                    Option::None => false,
                    Option::Some(wi) => match &eops[wi].action {
                        OpAction::Put(ScalarValue::Counter(_)) => true,
                        _ => false,
                    },
                };
                proof {
                    lemma_sel_ids_distinct(s, elem_pred(obj, e));
                    assert(target_ok == counter_winner(elem_ops(s, obj, e))) by {
                        match winner {
                            Option::Some(wi) => {
                                let found = views(eops@)[wi as int];
                                if counter_winner(elem_ops(s, obj, e)) {
                                    let w = choose|w: OpModel|
                                        is_winner(elem_ops(s, obj, e), w)
                                            && w.action matches ActionModel::Put(
                                            ScalarModel::Counter(_),
                                        );
                                    lemma_winner_unique(elem_ops(s, obj, e), w, found);
                                }
                            },
                            Option::None => {
                                if counter_winner(elem_ops(s, obj, e)) {
                                    let w = choose|w: OpModel|
                                        is_winner(elem_ops(s, obj, e), w)
                                            && w.action matches ActionModel::Put(
                                            ScalarModel::Counter(_),
                                        );
                                    assert(visible_in(elem_ops(s, obj, e), w));
                                    assert(false);
                                }
                            },
                        }
                    }
                }
                if !target_ok {
                    return Err(OperationError::TypeMismatch);
                }
                let pred = visible_id_vec(&eops);
                proof {
                    lemma_visible_ids_bounded(s, elem_pred(obj, e), self.doc.max_op);
                    assert(elem_order(s, obj).contains(e)) by {
                        lemma_sel_contains(elem_order(s, obj), elem_vis_pred(s, obj), e);
                    }
                    lemma_elem_id_bounded(s, obj, e, self.doc.max_op);
                }
                let id = self.stage(
                    obj,
                    Key::Elem(ElemId::Id(e)),
                    false,
                    OpAction::Increment(delta),
                    pred,
                );
                if let Some(ob) = self.observer.as_mut() {
                    ob.events.push(Event::Increment { obj, prop: prop.dup(), delta });
                }
                Ok(())
            },
        }
    }

    /// Inserts a scalar at `index` of a list or text object; `index` may
    /// equal the current length to append. The new element is anchored to
    /// its left neighbor at creation time, which keeps concurrent inserts
    /// unambiguous, and it is immediately visible.
    pub fn insert(&mut self, obj: ExId, index: usize, value: ScalarValue) -> (r: Result<
        (),
        OperationError,
    >)
        requires
            old(self).wf(),
            old(self).ids_available(1),
        ensures
            final(self).wf(),
            final(self).base_m() == old(self).base_m(),
            final(self).observed() == old(self).observed(),
            final(self).op_ceiling() == old(self).op_ceiling() + final(self).pending() - old(
                self,
            ).pending(),
            obj_type_of(old(self).scope(), obj) is None ==> r == Result::<(), OperationError>::Err(
                OperationError::ObjectNotFound,
            ) && final(self).scope() == old(self).scope(),
            forall|t: ObjType|
                obj_type_of(old(self).scope(), obj) == Some(t) && !t.spec_is_sequence() ==> r
                    == Result::<(), OperationError>::Err(OperationError::InvalidProp)
                    && final(self).scope() == old(self).scope(),
            forall|t: ObjType|
                obj_type_of(old(self).scope(), obj) == Some(t) && t.spec_is_sequence() && index
                    > seq_length(old(self).scope(), obj) ==> r == Result::<
                    (),
                    OperationError,
                >::Err(OperationError::IndexOutOfBounds) && final(self).scope() == old(
                    self,
                ).scope(),
            forall|t: ObjType|
                obj_type_of(old(self).scope(), obj) == Some(t) && t.spec_is_sequence() && index
                    <= seq_length(old(self).scope(), obj) ==> ({
                    let anchor = if index == 0 {
                        ElemId::Head
                    } else {
                        ElemId::Id(visible_elems(old(self).scope(), obj)[index - 1])
                    };
                    let newop = OpModel {
                        id: old(self).next_id(),
                        obj,
                        key: KeyModel::Elem(anchor),
                        insert: true,
                        action: ActionModel::Put(value@),
                        pred: Seq::empty(),
                    };
                    &&& r is Ok
                    &&& final(self).scope() == old(self).scope().push(newop)
                    &&& final(self).pending() == old(self).pending() + 1
                    &&& elem_visible(final(self).scope(), obj, old(self).next_id())
                }),
    {
        let ghost s = self.scope();
        let t = match exec_obj_type(&self.doc.ops, obj) {
            Option::None => {
                return Err(OperationError::ObjectNotFound);
            },
            Option::Some(t) => t,
        };
        if !t.is_sequence() {
            return Err(OperationError::InvalidProp);
        }
        let elems = list_elems(&self.doc.ops, obj);
        if index > elems.len() {
            return Err(OperationError::IndexOutOfBounds);
        }
        let anchor = if index == 0 {
            ElemId::Head
        } else {
            let e = elems[index - 1];
            proof {
                assert(elem_order(s, obj).contains(e)) by {
                    lemma_sel_contains(elem_order(s, obj), elem_vis_pred(s, obj), e);
                }
                lemma_elem_id_bounded(s, obj, e, self.doc.max_op);
            }
            ElemId::Id(e)
        };
        let ev_value = value.dup();
        let id = self.stage(obj, Key::Elem(anchor), true, OpAction::Put(value), Vec::new());
        proof {
            let newop = self.scope().last();
            assert(elem_ops(s, obj, id) =~= Seq::<OpModel>::empty()) by {
                assert forall|x: int| 0 <= x < s.len() implies !elem_pred(obj, id)(
                    #[trigger] s[x]) by {
                    assert(s.contains(s[x]));
                    assert(op_bounded(s[x], old(self).doc.max_op));
                }
                lemma_sel_none(s, elem_pred(obj, id));
            }
            assert(elem_ops(self.scope(), obj, id) == elem_ops(s, obj, id).push(newop)) by {
                lemma_sel_push(s, elem_pred(obj, id), newop);
            }
            assert(visible_in(elem_ops(self.scope(), obj, id), newop)) by {
                let ks = elem_ops(self.scope(), obj, id);
                assert(ks =~= Seq::<OpModel>::empty().push(newop));
                assert(ks[0] == newop);
                assert(ks.contains(newop));
                assert(!superseded_in(ks, newop.id)) by {
                    if superseded_in(ks, newop.id) {
                        let i = choose|i: int| 0 <= i < ks.len() && supersedes(#[trigger] ks[i], newop.id);
                        assert(ks[i] == newop);
                        assert(newop.pred.len() == 0);
                    }
                }
            }
        }
        if let Some(ob) = self.observer.as_mut() {
            ob.events.push(Event::Insert { obj, index, value: ev_value });
        }
        Ok(())
    }

    /// Inserts a nested container at `index` of a list or text object,
    /// returning its handle.
    pub fn insert_object(&mut self, obj: ExId, index: usize, kind: ObjType) -> (r: Result<
        ExId,
        OperationError,
    >)
        requires
            old(self).wf(),
            old(self).ids_available(1),
        ensures
            final(self).wf(),
            final(self).base_m() == old(self).base_m(),
            final(self).observed() == old(self).observed(),
            final(self).op_ceiling() == old(self).op_ceiling() + final(self).pending() - old(
                self,
            ).pending(),
            obj_type_of(old(self).scope(), obj) is None ==> r == Result::<
                ExId,
                OperationError,
            >::Err(OperationError::ObjectNotFound) && final(self).scope() == old(self).scope(),
            forall|t: ObjType|
                obj_type_of(old(self).scope(), obj) == Some(t) && !t.spec_is_sequence() ==> r
                    == Result::<ExId, OperationError>::Err(OperationError::InvalidProp)
                    && final(self).scope() == old(self).scope(),
            forall|t: ObjType|
                obj_type_of(old(self).scope(), obj) == Some(t) && t.spec_is_sequence() && index
                    > seq_length(old(self).scope(), obj) ==> r == Result::<
                    ExId,
                    OperationError,
                >::Err(OperationError::IndexOutOfBounds) && final(self).scope() == old(
                    self,
                ).scope(),
            forall|t: ObjType|
                obj_type_of(old(self).scope(), obj) == Some(t) && t.spec_is_sequence() && index
                    <= seq_length(old(self).scope(), obj) ==> ({
                    let anchor = if index == 0 {
                        ElemId::Head
                    } else {
                        ElemId::Id(visible_elems(old(self).scope(), obj)[index - 1])
                    };
                    let newop = OpModel {
                        id: old(self).next_id(),
                        obj,
                        key: KeyModel::Elem(anchor),
                        insert: true,
                        action: ActionModel::Make(kind),
                        pred: Seq::empty(),
                    };
                    &&& r == Result::<ExId, OperationError>::Ok(ExId::Object(old(self).next_id()))
                    &&& final(self).scope() == old(self).scope().push(newop)
                    &&& final(self).pending() == old(self).pending() + 1
                    &&& obj_type_of(final(self).scope(), ExId::Object(old(self).next_id()))
                        == Some(kind)
                }),
    {
        let ghost s = self.scope();
        let t = match exec_obj_type(&self.doc.ops, obj) {
            Option::None => {
                return Err(OperationError::ObjectNotFound);
            },
            Option::Some(t) => t,
        };
        if !t.is_sequence() {
            return Err(OperationError::InvalidProp);
        }
        let elems = list_elems(&self.doc.ops, obj);
        if index > elems.len() {
            return Err(OperationError::IndexOutOfBounds);
        }
        let anchor = if index == 0 {
            ElemId::Head
        } else {
            let e = elems[index - 1];
            proof {
                assert(elem_order(s, obj).contains(e)) by {
                    lemma_sel_contains(elem_order(s, obj), elem_vis_pred(s, obj), e);
                }
                lemma_elem_id_bounded(s, obj, e, self.doc.max_op);
            }
            ElemId::Id(e)
        };
        let id = self.stage(obj, Key::Elem(anchor), true, OpAction::Make(kind), Vec::new());
        proof {
            lemma_first_make_fresh(s, self.scope().last(), old(self).doc.max_op, kind);
        }
        if let Some(ob) = self.observer.as_mut() {
            ob.events.push(Event::InsertObject { obj, index, kind });
        }
        Ok(ExId::Object(id))
    }

    /// Deletes `del` elements at `pos`, then inserts `vals` there, as one
    /// batch of this transaction. The whole range is validated up front:
    /// `pos + del` must not exceed the current length.
    pub fn splice(&mut self, obj: ExId, pos: usize, del: usize, vals: Vec<ScalarValue>) -> (r:
        Result<(), OperationError>)
        requires
            old(self).wf(),
            old(self).ids_available((del + vals@.len()) as nat),
        ensures
            final(self).wf(),
            final(self).base_m() == old(self).base_m(),
            final(self).observed() == old(self).observed(),
            final(self).op_ceiling() == old(self).op_ceiling() + final(self).pending() - old(
                self,
            ).pending(),
            obj_type_of(old(self).scope(), obj) is None ==> r == Result::<(), OperationError>::Err(
                OperationError::ObjectNotFound,
            ) && final(self).scope() == old(self).scope(),
            forall|t: ObjType|
                obj_type_of(old(self).scope(), obj) == Some(t) && !t.spec_is_sequence() ==> r
                    == Result::<(), OperationError>::Err(OperationError::InvalidProp)
                    && final(self).scope() == old(self).scope(),
            forall|t: ObjType|
                obj_type_of(old(self).scope(), obj) == Some(t) && t.spec_is_sequence() && pos + del
                    > seq_length(old(self).scope(), obj) ==> r == Result::<
                    (),
                    OperationError,
                >::Err(OperationError::IndexOutOfBounds) && final(self).scope() == old(
                    self,
                ).scope(),
            forall|t: ObjType|
                obj_type_of(old(self).scope(), obj) == Some(t) && t.spec_is_sequence() && pos + del
                    <= seq_length(old(self).scope(), obj) ==> r is Ok,
            r is Ok ==> final(self).pending() == old(self).pending() + del + vals@.len(),
            r is Err ==> final(self).scope() == old(self).scope(),
            final(self).scope().subrange(0, old(self).scope().len() as int) == old(self).scope(),
    {
        let ghost s = self.scope();
        let t = match exec_obj_type(&self.doc.ops, obj) {
            Option::None => {
                return Err(OperationError::ObjectNotFound);
            },
            Option::Some(t) => t,
        };
        if !t.is_sequence() {
            return Err(OperationError::InvalidProp);
        }
        let elems = list_elems(&self.doc.ops, obj);
        if del > elems.len() || pos > elems.len() - del {
            return Err(OperationError::IndexOutOfBounds);
        }
        let ghost base_scope = self.scope();
        proof {
            assert(self.scope().subrange(0, base_scope.len() as int) =~= base_scope);
        }
        let ne = elems.len();
        let mut j: usize = 0;
        while j < del
            invariant
                self.wf(),
                old(self).wf(),
                j <= del,
                pos + del <= ne,
                elems@.len() == ne,
                elems@ == visible_elems(base_scope, obj),
                self.doc.max_op >= old(self).doc.max_op,
                self.base_m() == old(self).base_m(),
                self.observed() == old(self).observed(),
                self.pending() == old(self).pending() + j,
                self.ids_available(((del - j) + vals@.len()) as nat),
                self.scope().subrange(0, base_scope.len() as int) == base_scope,
                base_scope == old(self).scope(),
            decreases del - j,
        {
            let ghost loop_scope = self.scope();
            let e = elems[pos + j];
            let eops = collect_elem_ops(&self.doc.ops, obj, e);
            let pred = visible_id_vec(&eops);
            proof {
                lemma_visible_ids_bounded(loop_scope, elem_pred(obj, e), self.doc.max_op);
                assert(elem_order(base_scope, obj).contains(e)) by {
                    lemma_sel_contains(
                        elem_order(base_scope, obj),
                        elem_vis_pred(base_scope, obj),
                        e,
                    );
                }
                lemma_elem_id_bounded(base_scope, obj, e, old(self).doc.max_op);
                assert(e.counter <= self.doc.max_op);
            }
            let id = self.stage(obj, Key::Elem(ElemId::Id(e)), false, OpAction::Delete, pred);
            proof {
                assert(self.scope().subrange(0, base_scope.len() as int) =~= loop_scope.subrange(
                    0,
                    base_scope.len() as int,
                ));
            }
            if let Some(ob) = self.observer.as_mut() {
                ob.events.push(Event::Delete { obj, prop: Prop::Index(pos + j) });
            }
            j = j + 1;
        }
        let mut prev: ElemId = if pos == 0 {
            ElemId::Head
        } else {
            let e = elems[pos - 1];
            proof {
                assert(elem_order(base_scope, obj).contains(e)) by {
                    lemma_sel_contains(
                        elem_order(base_scope, obj),
                        elem_vis_pred(base_scope, obj),
                        e,
                    );
                }
                lemma_elem_id_bounded(base_scope, obj, e, old(self).doc.max_op);
            }
            ElemId::Id(e)
        };
        proof {
            match prev {
                ElemId::Id(x) => {
                    assert(x.counter <= self.doc.max_op);
                },
                _ => {},
            }
        }
        let mut vi: usize = 0;
        let vn = vals.len();
        let mut vals_iter = vals;
        while vi < vn
            invariant
                self.wf(),
                old(self).wf(),
                vi <= vn,
                vn == vals_iter@.len(),
                self.doc.max_op >= old(self).doc.max_op,
                self.base_m() == old(self).base_m(),
                self.observed() == old(self).observed(),
                self.pending() == old(self).pending() + del + vi,
                self.ids_available((vn - vi) as nat),
                self.scope().subrange(0, base_scope.len() as int) == base_scope,
                base_scope == old(self).scope(),
                match prev {
                    ElemId::Id(x) => x.counter <= self.doc.max_op,
                    ElemId::Head => true,
                },
            decreases vn - vi,
        {
            let ghost loop_scope = self.scope();
            let v = vals_iter[vi].dup();
            let ev_value = v.dup();
            let id = self.stage(obj, Key::Elem(prev), true, OpAction::Put(v), Vec::new());
            proof {
                assert(self.scope().subrange(0, base_scope.len() as int) =~= loop_scope.subrange(
                    0,
                    base_scope.len() as int,
                ));
            }
            prev = ElemId::Id(id);
            if let Some(ob) = self.observer.as_mut() {
                let idx = if vi < usize::MAX - pos {
                    pos + vi
                } else {
                    usize::MAX
                };
                ob.events.push(Event::Insert { obj, index: idx, value: ev_value });
            }
            vi = vi + 1;
        }
        Ok(())
    }
}

/// A fresh object handle resolves to the type its creating operation
/// carries.
pub(crate) proof fn lemma_first_make_fresh(s: Seq<OpModel>, o: OpModel, m: u64, kind: ObjType)
    requires
        forall|p: OpModel| s.contains(p) ==> op_bounded(p, m),
        o.id.counter > m,
        o.action == ActionModel::Make(kind),
    ensures
        first_make(s.push(o), o.id) == Some(kind),
    decreases s.len(),
{
    if s.len() == 0 {
        assert(s.push(o)[0] == o);
    } else {
        assert(s.push(o)[0] == s[0]);
        assert(s.contains(s[0]));
        assert(s[0].id.counter <= m);
        assert(s[0].id != o.id);
        assert(s.push(o).drop_first() =~= s.drop_first().push(o));
        assert forall|p: OpModel| s.drop_first().contains(p) implies op_bounded(p, m) by {
            let i = choose|i: int| 0 <= i < s.drop_first().len() && s.drop_first()[i] == p;
            assert(s[i + 1] == p);
        }
        lemma_first_make_fresh(s.drop_first(), o, m, kind);
    }
}


impl Document {
    /// Single-value read: the winning value at a map key or list index,
    /// most recent write first among surviving conflicts.
    pub fn get(&self, obj: ExId, prop: &Prop) -> (r: Result<
        Option<(Value, ExId)>,
        OperationError,
    >)
        requires
            self.wf(),
        ensures
            obj_type_of(self.ops_m(), obj) is None ==> r == Result::<
                Option<(Value, ExId)>,
                OperationError,
            >::Err(OperationError::ObjectNotFound),
            forall|t: ObjType|
                obj_type_of(self.ops_m(), obj) == Some(t) && !prop_matches(t, prop@) ==> r == Result::<
                    Option<(Value, ExId)>,
                    OperationError,
                >::Err(OperationError::InvalidProp),
            forall|t: ObjType, k: Seq<char>|
                obj_type_of(self.ops_m(), obj) == Some(t) && prop_matches(t, prop@) && prop@
                    == PropModel::Key(k) ==> (if has_visible(field_ops(self.ops_m(), obj, k)) {
                    r matches Ok(Some(v)) && exists|w: OpModel|
                        is_winner(field_ops(self.ops_m(), obj, k), w) && v.1 == ExId::Object(w.id)
                            && v.0@ == value_model(field_ops(self.ops_m(), obj, k), w)
                } else {
                    r matches Ok(None)
                }),
            forall|t: ObjType, i: usize|
                obj_type_of(self.ops_m(), obj) == Some(t) && prop_matches(t, prop@) && prop@
                    == PropModel::Index(i) ==> (if i < seq_length(self.ops_m(), obj) {
                    r matches Ok(Some(v)) && exists|w: OpModel|
                        is_winner(elem_ops(self.ops_m(), obj, visible_elems(self.ops_m(), obj)[i as int]), w)
                            && v.1 == ExId::Object(w.id) && v.0@ == value_model(
                            elem_ops(self.ops_m(), obj, visible_elems(self.ops_m(), obj)[i as int]),
                            w,
                        )
                } else {
                    r matches Ok(None)
                }),
    {
        get_core(&self.ops, obj, prop)
    }

    /// As [`Self::get`], materialized at an explicit historical head set.
    pub fn get_at(&self, obj: ExId, prop: &Prop, heads: &Vec<ChangeHash>) -> (r: Result<
        Option<(Value, ExId)>,
        OperationError,
    >)
        requires
            self.wf(),
        ensures
            obj_type_of(scope_at(self.changes_m(), self.hashes_m(), heads@), obj) is None ==> r == Result::<
                Option<(Value, ExId)>,
                OperationError,
            >::Err(OperationError::ObjectNotFound),
            forall|t: ObjType|
                obj_type_of(scope_at(self.changes_m(), self.hashes_m(), heads@), obj) == Some(t) && !prop_matches(t, prop@) ==> r == Result::<
                    Option<(Value, ExId)>,
                    OperationError,
                >::Err(OperationError::InvalidProp),
            forall|t: ObjType, k: Seq<char>|
                obj_type_of(scope_at(self.changes_m(), self.hashes_m(), heads@), obj) == Some(t) && prop_matches(t, prop@) && prop@
                    == PropModel::Key(k) ==> (if has_visible(field_ops(scope_at(self.changes_m(), self.hashes_m(), heads@), obj, k)) {
                    r matches Ok(Some(v)) && exists|w: OpModel|
                        is_winner(field_ops(scope_at(self.changes_m(), self.hashes_m(), heads@), obj, k), w) && v.1 == ExId::Object(w.id)
                            && v.0@ == value_model(field_ops(scope_at(self.changes_m(), self.hashes_m(), heads@), obj, k), w)
                } else {
                    r matches Ok(None)
                }),
            forall|t: ObjType, i: usize|
                obj_type_of(scope_at(self.changes_m(), self.hashes_m(), heads@), obj) == Some(t) && prop_matches(t, prop@) && prop@
                    == PropModel::Index(i) ==> (if i < seq_length(scope_at(self.changes_m(), self.hashes_m(), heads@), obj) {
                    r matches Ok(Some(v)) && exists|w: OpModel|
                        is_winner(elem_ops(scope_at(self.changes_m(), self.hashes_m(), heads@), obj, visible_elems(scope_at(self.changes_m(), self.hashes_m(), heads@), obj)[i as int]), w)
                            && v.1 == ExId::Object(w.id) && v.0@ == value_model(
                            elem_ops(scope_at(self.changes_m(), self.hashes_m(), heads@), obj, visible_elems(scope_at(self.changes_m(), self.hashes_m(), heads@), obj)[i as int]),
                            w,
                        )
                } else {
                    r matches Ok(None)
                }),
    {
        let ops = self.ops_at_vec(heads);
        get_core(&ops, obj, prop)
    }

    /// All surviving values at a map key or list index, ordered by
    /// descending operation id (most recent first): the conflict set.
    pub fn get_all(&self, obj: ExId, prop: &Prop) -> (r: Result<
        Vec<(Value, ExId)>,
        OperationError,
    >)
        requires
            self.wf(),
        ensures
            get_all_post(self.ops_m(), obj, prop@, r),
    {
        get_all_core(&self.ops, obj, prop)
    }

    /// As [`Self::get_all`], at an explicit historical head set.
    pub fn get_all_at(&self, obj: ExId, prop: &Prop, heads: &Vec<ChangeHash>) -> (r: Result<
        Vec<(Value, ExId)>,
        OperationError,
    >)
        requires
            self.wf(),
        ensures
            (forall|i: int, j: int|
                0 <= i < scope_at(self.changes_m(), self.hashes_m(), heads@).len() && 0 <= j < scope_at(self.changes_m(), self.hashes_m(), heads@).len() && i != j ==> (
                #[trigger] scope_at(self.changes_m(), self.hashes_m(), heads@)[i]).id != (
                #[trigger] scope_at(self.changes_m(), self.hashes_m(), heads@)[j]).id) ==> get_all_post(
                scope_at(self.changes_m(), self.hashes_m(), heads@),
                obj,
                prop@,
                r,
            ),
    {
        let ops = self.ops_at_vec(heads);
        if ids_distinct_check(&ops) {
            get_all_core(&ops, obj, prop)
        } else {
            let empty: Vec<(Value, ExId)> = Vec::new();
            Ok(empty)
        }
    }

    /// The keys of a map object holding at least one surviving value,
    /// sorted by code point, without duplicates.
    pub fn keys(&self, obj: ExId) -> (r: Vec<String>)
        requires
            self.wf(),
        ensures
            forall|i: int, j: int| 0 <= i < j < r@.len() ==> lex_le(r@[i]@, r@[j]@),
            forall|i: int, j: int| 0 <= i < j < r@.len() ==> r@[i]@ != r@[j]@,
            forall|i: int| 0 <= i < r@.len() ==> has_visible(field_ops(self.ops_m(), obj, r@[i]@)),
            forall|k: Seq<char>|
                has_visible(field_ops(self.ops_m(), obj, k)) ==> contains_key_view(r@, k),
    {
        keys_core(&self.ops, obj)
    }

    /// As [`Self::keys`], at an explicit historical head set.
    pub fn keys_at(&self, obj: ExId, heads: &Vec<ChangeHash>) -> (r: Vec<String>)
        requires
            self.wf(),
        ensures
            forall|i: int, j: int| 0 <= i < j < r@.len() ==> lex_le(r@[i]@, r@[j]@),
            forall|i: int, j: int| 0 <= i < j < r@.len() ==> r@[i]@ != r@[j]@,
            forall|i: int| 0 <= i < r@.len() ==> has_visible(field_ops(scope_at(self.changes_m(), self.hashes_m(), heads@), obj, r@[i]@)),
            forall|k: Seq<char>|
                has_visible(field_ops(scope_at(self.changes_m(), self.hashes_m(), heads@), obj, k)) ==> contains_key_view(r@, k),
    {
        let ops = self.ops_at_vec(heads);
        keys_core(&ops, obj)
    }

    /// Element count of a sequence object, or key count of a map object;
    /// 0 for an unknown handle.
    pub fn length(&self, obj: ExId) -> (r: usize)
        requires
            self.wf(),
        ensures
            obj_type_of(self.ops_m(), obj) is None ==> r == 0,
            forall|t: ObjType|
                obj_type_of(self.ops_m(), obj) == Some(t) && t.spec_is_sequence() ==> r == seq_length(
                    self.ops_m(),
                    obj,
                ),
            forall|t: ObjType|
                obj_type_of(self.ops_m(), obj) == Some(t) && !t.spec_is_sequence() ==> exists|
                    ks: Seq<String>,
                |
                    #[trigger] ks.len() == r && (forall|i: int|
                        0 <= i < ks.len() ==> has_visible(
                            field_ops(self.ops_m(), obj, (#[trigger] ks[i])@),
                        )) && (forall|i: int, j: int| 0 <= i < j < ks.len() ==> ks[i]@ != ks[j]@)
                        && (forall|k: Seq<char>|
                        has_visible(field_ops(self.ops_m(), obj, k)) ==> contains_key_view(ks, k)),
    {
        length_core(&self.ops, obj)
    }

    /// As [`Self::length`], at an explicit historical head set.
    pub fn length_at(&self, obj: ExId, heads: &Vec<ChangeHash>) -> (r: usize)
        requires
            self.wf(),
        ensures
            obj_type_of(scope_at(self.changes_m(), self.hashes_m(), heads@), obj) is None ==> r == 0,
            forall|t: ObjType|
                obj_type_of(scope_at(self.changes_m(), self.hashes_m(), heads@), obj) == Some(t) && t.spec_is_sequence() ==> r == seq_length(
                    scope_at(self.changes_m(), self.hashes_m(), heads@),
                    obj,
                ),
            forall|t: ObjType|
                obj_type_of(scope_at(self.changes_m(), self.hashes_m(), heads@), obj) == Some(t) && !t.spec_is_sequence() ==> exists|
                    ks: Seq<String>,
                |
                    #[trigger] ks.len() == r && (forall|i: int|
                        0 <= i < ks.len() ==> has_visible(
                            field_ops(scope_at(self.changes_m(), self.hashes_m(), heads@), obj, (#[trigger] ks[i])@),
                        )) && (forall|i: int, j: int| 0 <= i < j < ks.len() ==> ks[i]@ != ks[j]@)
                        && (forall|k: Seq<char>|
                        has_visible(field_ops(scope_at(self.changes_m(), self.hashes_m(), heads@), obj, k)) ==> contains_key_view(ks, k)),
    {
        let ops = self.ops_at_vec(heads);
        length_core(&ops, obj)
    }

    /// Flattened string of a text object: its visible elements' winning
    /// string values concatenated in order.
    pub fn text(&self, obj: ExId) -> (r: String)
        requires
            self.wf(),
        ensures
            exists|ws: Seq<OpModel>|
                #[trigger] ws.len() == seq_length(self.ops_m(), obj) && (forall|i: int|
                    0 <= i < ws.len() ==> is_winner(
                        elem_ops(self.ops_m(), obj, visible_elems(self.ops_m(), obj)[i]),
                        #[trigger] ws[i],
                    )) && r@ == concat_frags(ws),
    {
        text_core(&self.ops, obj)
    }

    /// As [`Self::text`], at an explicit historical head set.
    pub fn text_at(&self, obj: ExId, heads: &Vec<ChangeHash>) -> (r: String)
        requires
            self.wf(),
        ensures
            exists|ws: Seq<OpModel>|
                #[trigger] ws.len() == seq_length(scope_at(self.changes_m(), self.hashes_m(), heads@), obj) && (forall|i: int|
                    0 <= i < ws.len() ==> is_winner(
                        elem_ops(scope_at(self.changes_m(), self.hashes_m(), heads@), obj, visible_elems(scope_at(self.changes_m(), self.hashes_m(), heads@), obj)[i]),
                        #[trigger] ws[i],
                    )) && r@ == concat_frags(ws),
    {
        let ops = self.ops_at_vec(heads);
        text_core(&ops, obj)
    }
}

impl Transaction {
    /// Single-value read: the winning value at a map key or list index,
    /// most recent write first among surviving conflicts.
    pub fn get(&self, obj: ExId, prop: &Prop) -> (r: Result<
        Option<(Value, ExId)>,
        OperationError,
    >)
        requires
            self.wf(),
        ensures
            obj_type_of(self.scope(), obj) is None ==> r == Result::<
                Option<(Value, ExId)>,
                OperationError,
            >::Err(OperationError::ObjectNotFound),
            forall|t: ObjType|
                obj_type_of(self.scope(), obj) == Some(t) && !prop_matches(t, prop@) ==> r == Result::<
                    Option<(Value, ExId)>,
                    OperationError,
                >::Err(OperationError::InvalidProp),
            forall|t: ObjType, k: Seq<char>|
                obj_type_of(self.scope(), obj) == Some(t) && prop_matches(t, prop@) && prop@
                    == PropModel::Key(k) ==> (if has_visible(field_ops(self.scope(), obj, k)) {
                    r matches Ok(Some(v)) && exists|w: OpModel|
                        is_winner(field_ops(self.scope(), obj, k), w) && v.1 == ExId::Object(w.id)
                            && v.0@ == value_model(field_ops(self.scope(), obj, k), w)
                } else {
                    r matches Ok(None)
                }),
            forall|t: ObjType, i: usize|
                obj_type_of(self.scope(), obj) == Some(t) && prop_matches(t, prop@) && prop@
                    == PropModel::Index(i) ==> (if i < seq_length(self.scope(), obj) {
                    r matches Ok(Some(v)) && exists|w: OpModel|
                        is_winner(elem_ops(self.scope(), obj, visible_elems(self.scope(), obj)[i as int]), w)
                            && v.1 == ExId::Object(w.id) && v.0@ == value_model(
                            elem_ops(self.scope(), obj, visible_elems(self.scope(), obj)[i as int]),
                            w,
                        )
                } else {
                    r matches Ok(None)
                }),
    {
        get_core(&self.doc.ops, obj, prop)
    }

    /// As [`Self::get`], materialized at an explicit historical head set.
    pub fn get_at(&self, obj: ExId, prop: &Prop, heads: &Vec<ChangeHash>) -> (r: Result<
        Option<(Value, ExId)>,
        OperationError,
    >)
        requires
            self.wf(),
        ensures
            obj_type_of(scope_at(self.base_m().changes_m(), self.base_m().hashes_m(), heads@), obj) is None ==> r == Result::<
                Option<(Value, ExId)>,
                OperationError,
            >::Err(OperationError::ObjectNotFound),
            forall|t: ObjType|
                obj_type_of(scope_at(self.base_m().changes_m(), self.base_m().hashes_m(), heads@), obj) == Some(t) && !prop_matches(t, prop@) ==> r == Result::<
                    Option<(Value, ExId)>,
                    OperationError,
                >::Err(OperationError::InvalidProp),
            forall|t: ObjType, k: Seq<char>|
                obj_type_of(scope_at(self.base_m().changes_m(), self.base_m().hashes_m(), heads@), obj) == Some(t) && prop_matches(t, prop@) && prop@
                    == PropModel::Key(k) ==> (if has_visible(field_ops(scope_at(self.base_m().changes_m(), self.base_m().hashes_m(), heads@), obj, k)) {
                    r matches Ok(Some(v)) && exists|w: OpModel|
                        is_winner(field_ops(scope_at(self.base_m().changes_m(), self.base_m().hashes_m(), heads@), obj, k), w) && v.1 == ExId::Object(w.id)
                            && v.0@ == value_model(field_ops(scope_at(self.base_m().changes_m(), self.base_m().hashes_m(), heads@), obj, k), w)
                } else {
                    r matches Ok(None)
                }),
            forall|t: ObjType, i: usize|
                obj_type_of(scope_at(self.base_m().changes_m(), self.base_m().hashes_m(), heads@), obj) == Some(t) && prop_matches(t, prop@) && prop@
                    == PropModel::Index(i) ==> (if i < seq_length(scope_at(self.base_m().changes_m(), self.base_m().hashes_m(), heads@), obj) {
                    r matches Ok(Some(v)) && exists|w: OpModel|
                        is_winner(elem_ops(scope_at(self.base_m().changes_m(), self.base_m().hashes_m(), heads@), obj, visible_elems(scope_at(self.base_m().changes_m(), self.base_m().hashes_m(), heads@), obj)[i as int]), w)
                            && v.1 == ExId::Object(w.id) && v.0@ == value_model(
                            elem_ops(scope_at(self.base_m().changes_m(), self.base_m().hashes_m(), heads@), obj, visible_elems(scope_at(self.base_m().changes_m(), self.base_m().hashes_m(), heads@), obj)[i as int]),
                            w,
                        )
                } else {
                    r matches Ok(None)
                }),
    {
        let ops = self.doc.ops_at_vec(heads);
        get_core(&ops, obj, prop)
    }

    /// All surviving values at a map key or list index, ordered by
    /// descending operation id (most recent first): the conflict set.
    pub fn get_all(&self, obj: ExId, prop: &Prop) -> (r: Result<
        Vec<(Value, ExId)>,
        OperationError,
    >)
        requires
            self.wf(),
        ensures
            get_all_post(self.scope(), obj, prop@, r),
    {
        get_all_core(&self.doc.ops, obj, prop)
    }

    /// As [`Self::get_all`], at an explicit historical head set.
    pub fn get_all_at(&self, obj: ExId, prop: &Prop, heads: &Vec<ChangeHash>) -> (r: Result<
        Vec<(Value, ExId)>,
        OperationError,
    >)
        requires
            self.wf(),
        ensures
            (forall|i: int, j: int|
                0 <= i < scope_at(self.base_m().changes_m(), self.base_m().hashes_m(), heads@).len() && 0 <= j < scope_at(self.base_m().changes_m(), self.base_m().hashes_m(), heads@).len() && i != j ==> (
                #[trigger] scope_at(self.base_m().changes_m(), self.base_m().hashes_m(), heads@)[i]).id != (
                #[trigger] scope_at(self.base_m().changes_m(), self.base_m().hashes_m(), heads@)[j]).id) ==> get_all_post(
                scope_at(self.base_m().changes_m(), self.base_m().hashes_m(), heads@),
                obj,
                prop@,
                r,
            ),
    {
        let ops = self.doc.ops_at_vec(heads);
        if ids_distinct_check(&ops) {
            get_all_core(&ops, obj, prop)
        } else {
            let empty: Vec<(Value, ExId)> = Vec::new();
            Ok(empty)
        }
    }

    /// The keys of a map object holding at least one surviving value,
    /// sorted by code point, without duplicates.
    pub fn keys(&self, obj: ExId) -> (r: Vec<String>)
        requires
            self.wf(),
        ensures
            forall|i: int, j: int| 0 <= i < j < r@.len() ==> lex_le(r@[i]@, r@[j]@),
            forall|i: int, j: int| 0 <= i < j < r@.len() ==> r@[i]@ != r@[j]@,
            forall|i: int| 0 <= i < r@.len() ==> has_visible(field_ops(self.scope(), obj, r@[i]@)),
            forall|k: Seq<char>|
                has_visible(field_ops(self.scope(), obj, k)) ==> contains_key_view(r@, k),
    {
        keys_core(&self.doc.ops, obj)
    }

    /// As [`Self::keys`], at an explicit historical head set.
    pub fn keys_at(&self, obj: ExId, heads: &Vec<ChangeHash>) -> (r: Vec<String>)
        requires
            self.wf(),
        ensures
            forall|i: int, j: int| 0 <= i < j < r@.len() ==> lex_le(r@[i]@, r@[j]@),
            forall|i: int, j: int| 0 <= i < j < r@.len() ==> r@[i]@ != r@[j]@,
            forall|i: int| 0 <= i < r@.len() ==> has_visible(field_ops(scope_at(self.base_m().changes_m(), self.base_m().hashes_m(), heads@), obj, r@[i]@)),
            forall|k: Seq<char>|
                has_visible(field_ops(scope_at(self.base_m().changes_m(), self.base_m().hashes_m(), heads@), obj, k)) ==> contains_key_view(r@, k),
    {
        let ops = self.doc.ops_at_vec(heads);
        keys_core(&ops, obj)
    }

    /// Element count of a sequence object, or key count of a map object;
    /// 0 for an unknown handle.
    pub fn length(&self, obj: ExId) -> (r: usize)
        requires
            self.wf(),
        ensures
            obj_type_of(self.scope(), obj) is None ==> r == 0,
            forall|t: ObjType|
                obj_type_of(self.scope(), obj) == Some(t) && t.spec_is_sequence() ==> r == seq_length(
                    self.scope(),
                    obj,
                ),
            forall|t: ObjType|
                obj_type_of(self.scope(), obj) == Some(t) && !t.spec_is_sequence() ==> exists|
                    ks: Seq<String>,
                |
                    #[trigger] ks.len() == r && (forall|i: int|
                        0 <= i < ks.len() ==> has_visible(
                            field_ops(self.scope(), obj, (#[trigger] ks[i])@),
                        )) && (forall|i: int, j: int| 0 <= i < j < ks.len() ==> ks[i]@ != ks[j]@)
                        && (forall|k: Seq<char>|
                        has_visible(field_ops(self.scope(), obj, k)) ==> contains_key_view(ks, k)),
    {
        length_core(&self.doc.ops, obj)
    }

    /// As [`Self::length`], at an explicit historical head set.
    pub fn length_at(&self, obj: ExId, heads: &Vec<ChangeHash>) -> (r: usize)
        requires
            self.wf(),
        ensures
            obj_type_of(scope_at(self.base_m().changes_m(), self.base_m().hashes_m(), heads@), obj) is None ==> r == 0,
            forall|t: ObjType|
                obj_type_of(scope_at(self.base_m().changes_m(), self.base_m().hashes_m(), heads@), obj) == Some(t) && t.spec_is_sequence() ==> r == seq_length(
                    scope_at(self.base_m().changes_m(), self.base_m().hashes_m(), heads@),
                    obj,
                ),
            forall|t: ObjType|
                obj_type_of(scope_at(self.base_m().changes_m(), self.base_m().hashes_m(), heads@), obj) == Some(t) && !t.spec_is_sequence() ==> exists|
                    ks: Seq<String>,
                |
                    #[trigger] ks.len() == r && (forall|i: int|
                        0 <= i < ks.len() ==> has_visible(
                            field_ops(scope_at(self.base_m().changes_m(), self.base_m().hashes_m(), heads@), obj, (#[trigger] ks[i])@),
                        )) && (forall|i: int, j: int| 0 <= i < j < ks.len() ==> ks[i]@ != ks[j]@)
                        && (forall|k: Seq<char>|
                        has_visible(field_ops(scope_at(self.base_m().changes_m(), self.base_m().hashes_m(), heads@), obj, k)) ==> contains_key_view(ks, k)),
    {
        let ops = self.doc.ops_at_vec(heads);
        length_core(&ops, obj)
    }

    /// Flattened string of a text object: its visible elements' winning
    /// string values concatenated in order.
    pub fn text(&self, obj: ExId) -> (r: String)
        requires
            self.wf(),
        ensures
            exists|ws: Seq<OpModel>|
                #[trigger] ws.len() == seq_length(self.scope(), obj) && (forall|i: int|
                    0 <= i < ws.len() ==> is_winner(
                        elem_ops(self.scope(), obj, visible_elems(self.scope(), obj)[i]),
                        #[trigger] ws[i],
                    )) && r@ == concat_frags(ws),
    {
        text_core(&self.doc.ops, obj)
    }

    /// As [`Self::text`], at an explicit historical head set.
    pub fn text_at(&self, obj: ExId, heads: &Vec<ChangeHash>) -> (r: String)
        requires
            self.wf(),
        ensures
            exists|ws: Seq<OpModel>|
                #[trigger] ws.len() == seq_length(scope_at(self.base_m().changes_m(), self.base_m().hashes_m(), heads@), obj) && (forall|i: int|
                    0 <= i < ws.len() ==> is_winner(
                        elem_ops(scope_at(self.base_m().changes_m(), self.base_m().hashes_m(), heads@), obj, visible_elems(scope_at(self.base_m().changes_m(), self.base_m().hashes_m(), heads@), obj)[i]),
                        #[trigger] ws[i],
                    )) && r@ == concat_frags(ws),
    {
        let ops = self.doc.ops_at_vec(heads);
        text_core(&ops, obj)
    }
}

impl Transaction {
    /// Type of the object a handle resolves to, staged operations
    /// included.
    pub fn object_type(&self, obj: ExId) -> (r: Option<ObjType>)
        requires
            self.wf(),
        ensures
            r == obj_type_of(self.scope(), obj),
    {
        exec_obj_type(&self.doc.ops, obj)
    }
}


/// Multi-value read with validation: resolves the object and property
/// kind, then returns the conflict set at the key or index, most recent
/// first.
#[verifier::rlimit(80)]
#[verifier::spinoff_prover]
pub(crate) fn get_all_core(ops: &Vec<Op>, obj: ExId, prop: &Prop) -> (r: Result<
    Vec<(Value, ExId)>,
    OperationError,
>)
    requires
        forall|i: int, j: int|
            0 <= i < views(ops@).len() && 0 <= j < views(ops@).len() && i != j ==> (
            #[trigger] views(ops@)[i]).id != (#[trigger] views(ops@)[j]).id,
    ensures
        get_all_post(views(ops@), obj, prop@, r),
{
    let t = match exec_obj_type(ops, obj) {
        Option::None => {
            return Err(OperationError::ObjectNotFound);
        },
        Option::Some(t) => t,
    };
    match prop {
        Prop::Key(k) => {
            if t.is_sequence() {
                return Err(OperationError::InvalidProp);
            }
            let kops = collect_field_ops(ops, obj, k);
            proof {
                lemma_sel_ids_distinct(views(ops@), field_pred(obj, k@));
            }
            let vs = all_values(&kops);
            let res: Result<Vec<(Value, ExId)>, OperationError> = Ok(vs);
            proof {
                let s = choose|s: Seq<OpModel>| conflict_list(views(kops@), s, res->Ok_0@);
                let kk2 = prop@->Key_0;
                assert(kk2 == k@);
                assert(conflict_list(field_ops(views(ops@), obj, kk2), s, res->Ok_0@));
                assert(exists|w: Seq<OpModel>|
                    conflict_list(field_ops(views(ops@), obj, kk2), w, res->Ok_0@));
                assert(kind_ok(views(ops@), obj, prop@));
                assert(get_all_post(views(ops@), obj, prop@, res));
            }
            res
        },
        Prop::Index(ix) => {
            if !t.is_sequence() {
                return Err(OperationError::InvalidProp);
            }
            let elems = list_elems(ops, obj);
            if *ix >= elems.len() {
                let empty: Vec<(Value, ExId)> = Vec::new();
                let res: Result<Vec<(Value, ExId)>, OperationError> = Ok(empty);
                proof {
                    assert(res->Ok_0@.len() == 0);
                    assert(get_all_post(views(ops@), obj, prop@, res));
                }
                return res;
            }
            let e = elems[*ix];
            let eops = collect_elem_ops(ops, obj, e);
            proof {
                lemma_sel_ids_distinct(views(ops@), elem_pred(obj, e));
            }
            let vs = all_values(&eops);
            let res: Result<Vec<(Value, ExId)>, OperationError> = Ok(vs);
            proof {
                let s = choose|s: Seq<OpModel>| conflict_list(views(eops@), s, res->Ok_0@);
                let ii = prop@->Index_0;
                assert(ii == *ix);
                assert(e == visible_elems(views(ops@), obj)[ii as int]);
                assert(conflict_list(
                    elem_ops(views(ops@), obj, visible_elems(views(ops@), obj)[ii as int]),
                    s,
                    res->Ok_0@,
                ));
                assert(exists|w: Seq<OpModel>|
                    conflict_list(
                        elem_ops(views(ops@), obj, visible_elems(views(ops@), obj)[ii as int]),
                        w,
                        res->Ok_0@,
                    ));
                assert(kind_ok(views(ops@), obj, prop@));
                assert(get_all_post(views(ops@), obj, prop@, res));
            }
            res
        },
    }
}


impl Document {
    /// Number of committed changes in the history graph.
    pub fn change_count(&self) -> (r: usize)
        ensures
            r == self.changes_m().len(),
    {
        self.changes.len()
    }

    /// The committed change at graph position `i`, for relaying to
    /// another replica.
    pub fn change_at(&self, i: usize) -> (c: &Change)
        requires
            i < self.changes_m().len(),
        ensures
            c@ == self.changes_m()[i as int],
    {
        &self.changes[i]
    }
}

/// Committing identical operation sequences from the same base document
/// with identical actor, message and time metadata yields the identical
/// change, and so the identical content hash, on every replica.
pub proof fn lemma_commit_identity(
    t1: Transaction,
    t2: Transaction,
    message: Option<Seq<char>>,
    time: i64,
)
    requires
        t1.wf(),
        t2.wf(),
        t1.base_m() == t2.base_m(),
        t1.staged() == t2.staged(),
    ensures
        t1.commit_change(message, time) == t2.commit_change(message, time),
        spec_change_hash(t1.commit_change(message, time)) == spec_change_hash(
            t2.commit_change(message, time),
        ),
{
}

/// Merge commutativity at a map key: when only one of two changes from
/// the same base touches the key, the operations at that key are the same
/// sequence whichever order the two are applied in, so every read of the
/// key agrees on both replicas.
pub proof fn lemma_merge_commutes_key(
    base: Seq<OpModel>,
    a: Seq<OpModel>,
    b: Seq<OpModel>,
    obj: ExId,
    k: Seq<char>,
)
    requires
        (forall|i: int| 0 <= i < a.len() ==> !on_field(#[trigger] a[i], obj, k)) || (forall|i: int|
            0 <= i < b.len() ==> !on_field(#[trigger] b[i], obj, k)),
    ensures
        field_ops(base + a + b, obj, k) == field_ops(base + b + a, obj, k),
{
    lemma_sel_add(base + a, b, field_pred(obj, k));
    lemma_sel_add(base, a, field_pred(obj, k));
    lemma_sel_add(base + b, a, field_pred(obj, k));
    lemma_sel_add(base, b, field_pred(obj, k));
    if forall|i: int| 0 <= i < a.len() ==> !on_field(#[trigger] a[i], obj, k) {
        lemma_sel_none(a, field_pred(obj, k));
        assert(field_ops(base + a + b, obj, k) =~= field_ops(base + b + a, obj, k));
    } else {
        lemma_sel_none(b, field_pred(obj, k));
        assert(field_ops(base + a + b, obj, k) =~= field_ops(base + b + a, obj, k));
    }
}

/// List order determinism: the materialized element order of a sequence
/// object is the same whichever order two changes from the same base are
/// applied in, because it is a function of the set of insertion records
/// alone.
pub proof fn lemma_order_deterministic(
    base: Seq<OpModel>,
    a: Seq<OpModel>,
    b: Seq<OpModel>,
    obj: ExId,
)
    ensures
        elem_order(base + a + b, obj) == elem_order(base + b + a, obj),
{
    lemma_ins_pairs_add(base + a, b, obj);
    lemma_ins_pairs_add(base, a, obj);
    lemma_ins_pairs_add(base + b, a, obj);
    lemma_ins_pairs_add(base, b, obj);
    let p0 = ins_pairs(base, obj);
    let pa = ins_pairs(a, obj);
    let pb = ins_pairs(b, obj);
    let s1 = ins_pairs(base + a + b, obj);
    let s2 = ins_pairs(base + b + a, obj);
    assert(s1 == p0 + pa + pb);
    assert(s2 == p0 + pb + pa);
    lemma_pair_order_total();
    s1.lemma_sort_by_ensures(pair_order());
    s2.lemma_sort_by_ensures(pair_order());
    assert(s1.to_multiset() == s2.to_multiset()) by {
        vstd::seq_lib::lemma_multiset_commutative(p0 + pa, pb);
        vstd::seq_lib::lemma_multiset_commutative(p0 + pb, pa);
        vstd::seq_lib::lemma_multiset_commutative(p0, pa);
        vstd::seq_lib::lemma_multiset_commutative(p0, pb);
        assert(s1.to_multiset() =~= p0.to_multiset().add(pa.to_multiset()).add(pb.to_multiset()));
        assert(s2.to_multiset() =~= p0.to_multiset().add(pb.to_multiset()).add(pa.to_multiset()));
    }
    vstd::seq_lib::lemma_sorted_unique(
        s1.sort_by(pair_order()),
        s2.sort_by(pair_order()),
        pair_order(),
    );
}

/// Conflict surfacing: two actors concurrently write the same map key
/// from the same base. After merging, exactly the two concurrent writes
/// survive, and the one with the greater operation id is the winner a
/// single-value read returns.
pub proof fn lemma_conflict_surfacing(
    base: Seq<OpModel>,
    oa: OpModel,
    ob: OpModel,
    obj: ExId,
    k: Seq<char>,
    m: u64,
)
    requires
        forall|o: OpModel| base.contains(o) ==> op_bounded(o, m),
        on_field(oa, obj, k),
        on_field(ob, obj, k),
        is_value_op(oa),
        is_value_op(ob),
        oa.id.counter > m,
        ob.id.counter > m,
        oa.id != ob.id,
        forall|x: int| 0 <= x < oa.pred.len() ==> (#[trigger] oa.pred[x]).counter <= m,
        forall|x: int| 0 <= x < ob.pred.len() ==> (#[trigger] ob.pred[x]).counter <= m,
        forall|p: OpModel| visible_in(field_ops(base, obj, k), p) ==> oa.pred.contains(p.id),
        forall|p: OpModel| visible_in(field_ops(base, obj, k), p) ==> ob.pred.contains(p.id),
    ensures
        forall|p: OpModel|
            visible_in(field_ops(base + seq![oa] + seq![ob], obj, k), p) <==> (p == oa || p == ob),
        opid_lt(oa.id, ob.id) ==> is_winner(field_ops(base + seq![oa] + seq![ob], obj, k), ob),
        opid_lt(ob.id, oa.id) ==> is_winner(field_ops(base + seq![oa] + seq![ob], obj, k), oa),
{
    let s = base + seq![oa] + seq![ob];
    lemma_sel_add(base + seq![oa], seq![ob], field_pred(obj, k));
    lemma_sel_add(base, seq![oa], field_pred(obj, k));
    let kb = field_ops(base, obj, k);
    assert(sel(seq![oa], field_pred(obj, k)) =~= seq![oa]) by {
        assert(seq![oa].drop_last() =~= Seq::<OpModel>::empty());
        assert(seq![oa].last() == oa);
        assert(field_pred(obj, k)(oa) == on_field(oa, obj, k));
        assert(sel(seq![oa].drop_last(), field_pred(obj, k)) =~= Seq::<OpModel>::empty());
        assert(sel(seq![oa], field_pred(obj, k)) == sel(
            seq![oa].drop_last(),
            field_pred(obj, k),
        ).push(oa));
    }
    assert(sel(seq![ob], field_pred(obj, k)) =~= seq![ob]) by {
        assert(seq![ob].drop_last() =~= Seq::<OpModel>::empty());
        assert(seq![ob].last() == ob);
        assert(field_pred(obj, k)(ob) == on_field(ob, obj, k));
        assert(sel(seq![ob].drop_last(), field_pred(obj, k)) =~= Seq::<OpModel>::empty());
        assert(sel(seq![ob], field_pred(obj, k)) == sel(
            seq![ob].drop_last(),
            field_pred(obj, k),
        ).push(ob));
    }
    let ks = field_ops(s, obj, k);
    assert(ks == kb + seq![oa] + seq![ob]);
    assert(ks =~= kb.push(oa).push(ob));
    assert forall|p: OpModel| kb.contains(p) implies op_bounded(p, m) by {
        lemma_sel_contains(base, field_pred(obj, k), p);
    }
    assert forall|p: OpModel| kb.push(oa).contains(p) implies op_bounded(p, m) || p == oa by {
        let i = choose|i: int| 0 <= i < kb.push(oa).len() && kb.push(oa)[i] == p;
        if i < kb.len() {
            assert(kb[i] == p);
            assert(kb.contains(p));
        }
    }
    // neither concurrent write is superseded
    assert(!superseded_in(ks, oa.id)) by {
        if superseded_in(ks, oa.id) {
            let i = choose|i: int| 0 <= i < ks.len() && supersedes(#[trigger] ks[i], oa.id);
            if i < kb.len() {
                assert(kb.contains(kb[i]));
                let x = choose|x: int| 0 <= x < ks[i].pred.len() && ks[i].pred[x] == oa.id;
                assert(false);
            } else if i == kb.len() {
                assert(ks[i] == oa);
                let x = choose|x: int| 0 <= x < oa.pred.len() && oa.pred[x] == oa.id;
                assert(false);
            } else {
                assert(ks[i] == ob);
                let x = choose|x: int| 0 <= x < ob.pred.len() && ob.pred[x] == oa.id;
                assert(false);
            }
        }
    }
    assert(!superseded_in(ks, ob.id)) by {
        if superseded_in(ks, ob.id) {
            let i = choose|i: int| 0 <= i < ks.len() && supersedes(#[trigger] ks[i], ob.id);
            if i < kb.len() {
                assert(kb.contains(kb[i]));
                let x = choose|x: int| 0 <= x < ks[i].pred.len() && ks[i].pred[x] == ob.id;
                assert(false);
            } else if i == kb.len() {
                assert(ks[i] == oa);
                let x = choose|x: int| 0 <= x < oa.pred.len() && oa.pred[x] == ob.id;
                assert(false);
            } else {
                assert(ks[i] == ob);
                let x = choose|x: int| 0 <= x < ob.pred.len() && ob.pred[x] == ob.id;
                assert(false);
            }
        }
    }
    assert(ks[ks.len() - 2] == oa);
    assert(ks[ks.len() - 1] == ob);
    assert(ks.contains(oa) && ks.contains(ob));
    assert(visible_in(ks, oa) && visible_in(ks, ob));
    assert forall|p: OpModel| visible_in(ks, p) implies (p == oa || p == ob) by {
        if p != oa && p != ob {
            let i = choose|i: int| 0 <= i < ks.len() && ks[i] == p;
            assert(i < kb.len());
            assert(kb.contains(p));
            assert(!superseded_in(kb, p.id)) by {
                if superseded_in(kb, p.id) {
                    let j = choose|j: int|
                        0 <= j < kb.len() && supersedes(#[trigger] kb[j], p.id);
                    assert(ks[j] == kb[j]);
                    assert(superseded_in(ks, p.id));
                }
            }
            assert(visible_in(kb, p));
            assert(oa.pred.contains(p.id));
            assert(supersedes(oa, p.id));
            assert(supersedes(ks[ks.len() - 2], p.id));
            assert(superseded_in(ks, p.id));
            assert(false);
        }
    }
    if opid_lt(oa.id, ob.id) {
        assert forall|p: OpModel| visible_in(ks, p) implies opid_le(p.id, ob.id) by {}
    }
    if opid_lt(ob.id, oa.id) {
        assert forall|p: OpModel| visible_in(ks, p) implies opid_le(p.id, oa.id) by {}
    }
}

/// Concurrent inserts at the same anchor from the same base: after
/// merging, both elements are present in the element order, and the
/// order itself is the same whichever merge order the changes arrived
/// in.
pub proof fn lemma_concurrent_inserts(
    base: Seq<OpModel>,
    oa: OpModel,
    ob: OpModel,
    obj: ExId,
)
    requires
        oa.insert,
        ob.insert,
        oa.obj == obj,
        ob.obj == obj,
    ensures
        elem_order(base + seq![oa] + seq![ob], obj) == elem_order(base + seq![ob] + seq![oa], obj),
        elem_order(base + seq![oa] + seq![ob], obj).contains(oa.id),
        elem_order(base + seq![oa] + seq![ob], obj).contains(ob.id),
{
    lemma_order_deterministic(base, seq![oa], seq![ob], obj);
    let s = base + seq![oa] + seq![ob];
    lemma_ins_pairs_add(base + seq![oa], seq![ob], obj);
    lemma_ins_pairs_add(base, seq![oa], obj);
    assert(ins_pairs(seq![oa], obj) =~= seq![(oa.id, anchor_of(oa))]) by {
        assert(seq![oa].drop_last() =~= Seq::<OpModel>::empty());
        assert(seq![oa].last() == oa);
        assert(ins_pairs(seq![oa].drop_last(), obj) =~= Seq::<(OpId, ElemId)>::empty());
        assert(ins_pairs(seq![oa], obj) == ins_pairs(seq![oa].drop_last(), obj).push(
            (oa.id, anchor_of(oa)),
        ));
    }
    assert(ins_pairs(seq![ob], obj) =~= seq![(ob.id, anchor_of(ob))]) by {
        assert(seq![ob].drop_last() =~= Seq::<OpModel>::empty());
        assert(seq![ob].last() == ob);
        assert(ins_pairs(seq![ob].drop_last(), obj) =~= Seq::<(OpId, ElemId)>::empty());
        assert(ins_pairs(seq![ob], obj) == ins_pairs(seq![ob].drop_last(), obj).push(
            (ob.id, anchor_of(ob)),
        ));
    }
    let pairs = ins_pairs(s, obj);
    assert(pairs.contains((oa.id, anchor_of(oa)))) by {
        assert(pairs[pairs.len() - 2] == (oa.id, anchor_of(oa)));
    }
    assert(pairs.contains((ob.id, anchor_of(ob)))) by {
        assert(pairs[pairs.len() - 1] == (ob.id, anchor_of(ob)));
    }
    lemma_pair_order_total();
    pairs.lemma_sort_by_ensures(pair_order());
    broadcast use vstd::seq_lib::group_to_multiset_ensures;
    let sorted = pairs.sort_by(pair_order());
    assert(pairs.to_multiset() == sorted.to_multiset());
    assert(sorted.contains((oa.id, anchor_of(oa)))) by {
        assert(pairs.to_multiset().count((oa.id, anchor_of(oa))) > 0);
    }
    assert(sorted.contains((ob.id, anchor_of(ob)))) by {
        assert(pairs.to_multiset().count((ob.id, anchor_of(ob))) > 0);
    }
    lemma_build_contains(sorted);
    let ia = choose|ia: int| 0 <= ia < sorted.len() && sorted[ia] == (oa.id, anchor_of(oa));
    let ib = choose|ib: int| 0 <= ib < sorted.len() && sorted[ib] == (ob.id, anchor_of(ob));
    assert(build_order(sorted).contains(sorted[ia].0));
    assert(build_order(sorted).contains(sorted[ib].0));
}





/// The staged-operation count a caller sees is the length of the staged
/// suffix the contracts speak of.
pub proof fn lemma_pending_is_staged(tx: Transaction)
    requires
        tx.wf(),
    ensures
        tx.pending() == tx.staged().len(),
{
}

/// A well-formed transaction's scope carries pairwise distinct operation
/// ids: the fact winner-uniqueness arguments rest on.
pub proof fn lemma_tx_scope_ids_distinct(tx: Transaction)
    requires
        tx.wf(),
    ensures
        forall|i: int, j: int|
            0 <= i < tx.scope().len() && 0 <= j < tx.scope().len() && i != j ==> (
            #[trigger] tx.scope()[i]).id != (#[trigger] tx.scope()[j]).id,
{
}

/// A well-formed document's store carries pairwise distinct operation
/// ids.
pub proof fn lemma_doc_ids_distinct(doc: Document)
    requires
        doc.wf(),
    ensures
        forall|i: int, j: int|
            0 <= i < doc.ops_m().len() && 0 <= j < doc.ops_m().len() && i != j ==> (
            #[trigger] doc.ops_m()[i]).id != (#[trigger] doc.ops_m()[j]).id,
{
}

} // verus!
