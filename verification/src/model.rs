//! Mathematical model of materialization: which operations are visible at
//! a key, which value wins among concurrent writes, and in what order list
//! elements appear. All document and transaction contracts are stated over
//! these functions.

use vstd::prelude::*;
use vstd::relations::total_ordering;

use crate::types::{ActionModel, ElemId, ExId, Key, KeyModel, ObjType, Op, OpId, OpModel, ScalarModel, ValueModel, opid_le, opid_lt};

verus! {

/// Model image of an operation vector.
pub open spec fn views(ops: Seq<Op>) -> Seq<OpModel> {
    ops.map_values(|o: Op| o@)
}

/// Keep the elements of `s` that satisfy `p`, in order.
pub open spec fn sel<A>(s: Seq<A>, p: spec_fn(A) -> bool) -> Seq<A>
    decreases s.len(),
{
    if s.len() == 0 {
        s
    } else if p(s.last()) {
        sel(s.drop_last(), p).push(s.last())
    } else {
        sel(s.drop_last(), p)
    }
}

/// Selection of a one-longer sequence extends the selection of its prefix.
pub proof fn lemma_sel_push<A>(s: Seq<A>, p: spec_fn(A) -> bool, x: A)
    ensures
        sel(s.push(x), p) == if p(x) {
            sel(s, p).push(x)
        } else {
            sel(s, p)
        },
{
    assert(s.push(x).drop_last() == s);
    assert(s.push(x).last() == x);
}

/// Selection distributes over concatenation.
pub proof fn lemma_sel_add<A>(a: Seq<A>, b: Seq<A>, p: spec_fn(A) -> bool)
    ensures
        sel(a + b, p) == sel(a, p) + sel(b, p),
    decreases b.len(),
{
    if b.len() == 0 {
        assert(a + b == a);
        assert(sel(a, p) + b == sel(a, p));
    } else {
        lemma_sel_add(a, b.drop_last(), p);
        assert((a + b).drop_last() == a + b.drop_last());
        assert((a + b).last() == b.last());
        if p(b.last()) {
            assert(sel(a, p) + sel(b, p) == (sel(a, p) + sel(b.drop_last(), p)).push(b.last()));
        }
    }
}

/// Membership in a selection.
pub proof fn lemma_sel_contains<A>(s: Seq<A>, p: spec_fn(A) -> bool, x: A)
    ensures
        sel(s, p).contains(x) <==> s.contains(x) && p(x),
    decreases s.len(),
{
    if s.len() > 0 {
        lemma_sel_contains(s.drop_last(), p, x);
        assert(s.contains(x) <==> s.drop_last().contains(x) || s.last() == x) by {
            if s.contains(x) {
                let i = choose|i: int| 0 <= i < s.len() && s[i] == x;
                if i < s.len() - 1 {
                    assert(s.drop_last()[i] == x);
                }
            }
            if s.drop_last().contains(x) {
                let i = choose|i: int| 0 <= i < s.drop_last().len() && s.drop_last()[i] == x;
                assert(s[i] == x);
            }
            assert(s[s.len() - 1] == s.last());
        }
        if p(s.last()) {
            assert(sel(s, p).contains(x) <==> sel(s.drop_last(), p).contains(x) || s.last() == x)
                by {
                let t = sel(s.drop_last(), p);
                assert(sel(s, p) == t.push(s.last()));
                if sel(s, p).contains(x) {
                    let i = choose|i: int| 0 <= i < t.push(s.last()).len() && t.push(s.last())[i]
                        == x;
                    if i < t.len() {
                        assert(t[i] == x);
                    }
                }
                if t.contains(x) {
                    let i = choose|i: int| 0 <= i < t.len() && t[i] == x;
                    assert(t.push(s.last())[i] == x);
                }
                assert(t.push(s.last())[t.len() as int] == s.last());
            }
        }
    }
}

/// An operation that lays down a value: a scalar write or the creation of
/// a nested object. Deletes and increments carry no value of their own.
pub open spec fn is_value_op(o: OpModel) -> bool {
    o.action is Put || o.action is Make
}

/// The operation addresses map key `k` of object `obj`.
pub open spec fn on_field(o: OpModel, obj: ExId, k: Seq<char>) -> bool {
    o.obj == obj && !o.insert && o.key == KeyModel::Field(k)
}

/// The operation addresses element `e` of sequence object `obj`: either it
/// is the insertion that created `e`, or a later write keyed to `e`.
pub open spec fn on_elem(o: OpModel, obj: ExId, e: OpId) -> bool {
    o.obj == obj && if o.insert {
        o.id == e
    } else {
        o.key == KeyModel::Elem(ElemId::Id(e))
    }
}

/// The predicate of [`field_ops`], as a named function value.
pub open spec fn field_pred(obj: ExId, k: Seq<char>) -> spec_fn(OpModel) -> bool {
    |o: OpModel| on_field(o, obj, k)
}

/// All operations addressing map key `k` of `obj`, in log order.
pub open spec fn field_ops(ops: Seq<OpModel>, obj: ExId, k: Seq<char>) -> Seq<OpModel> {
    sel(ops, field_pred(obj, k))
}

/// The predicate of [`elem_ops`], as a named function value.
pub open spec fn elem_pred(obj: ExId, e: OpId) -> spec_fn(OpModel) -> bool {
    |o: OpModel| on_elem(o, obj, e)
}

/// All operations addressing element `e` of `obj`, in log order.
pub open spec fn elem_ops(ops: Seq<OpModel>, obj: ExId, e: OpId) -> Seq<OpModel> {
    sel(ops, elem_pred(obj, e))
}

/// `p` supersedes the operation with id `id`: it lists it as predecessor
/// and is itself an overwrite or delete (increments keep their target).
pub open spec fn supersedes(p: OpModel, id: OpId) -> bool {
    !(p.action is Increment) && p.pred.contains(id)
}

/// Some operation of `kops` supersedes `id`.
pub open spec fn superseded_in(kops: Seq<OpModel>, id: OpId) -> bool {
    exists|i: int| 0 <= i < kops.len() && supersedes(#[trigger] kops[i], id)
}

/// `o` is a surviving value at this key: present, value-bearing, and not
/// superseded by any other operation at the key. Concurrent writes all
/// survive, as conflicting values.
pub open spec fn visible_in(kops: Seq<OpModel>, o: OpModel) -> bool {
    kops.contains(o) && is_value_op(o) && !superseded_in(kops, o.id)
}

/// `o` is the winning value: visible, with the greatest operation id.
pub open spec fn is_winner(kops: Seq<OpModel>, o: OpModel) -> bool {
    visible_in(kops, o) && forall|p: OpModel| visible_in(kops, p) ==> opid_le(p.id, o.id)
}

/// The key holds at least one surviving value.
pub open spec fn has_visible(kops: Seq<OpModel>) -> bool {
    exists|o: OpModel| visible_in(kops, o)
}

/// The predicate of [`visible_ops`], as a named function value.
pub open spec fn vis_pred(kops: Seq<OpModel>) -> spec_fn(OpModel) -> bool {
    |o: OpModel| is_value_op(o) && !superseded_in(kops, o.id)
}

/// The surviving values at this key, in log order.
pub open spec fn visible_ops(kops: Seq<OpModel>) -> Seq<OpModel> {
    sel(kops, vis_pred(kops))
}

/// The ids of the surviving values, in log order: the predecessor set a
/// new write at this key supersedes.
pub open spec fn visible_ids(kops: Seq<OpModel>) -> Seq<OpId> {
    visible_ops(kops).map_values(|o: OpModel| o.id)
}

/// Addition modulo 2^64.
pub open spec fn add64(a: u64, b: u64) -> u64 {
    ((a + b) % 0x1_0000_0000_0000_0000) as u64
}

/// Two's-complement image of a signed 64-bit value.
pub open spec fn i64_bits(x: i64) -> u64 {
    if x >= 0 {
        x as u64
    } else {
        (x + 0x1_0000_0000_0000_0000) as u64
    }
}

/// Signed reading of a 64-bit pattern.
pub open spec fn u64_as_i64(x: u64) -> i64 {
    if x < 0x8000_0000_0000_0000 {
        x as i64
    } else {
        (x - 0x1_0000_0000_0000_0000) as i64
    }
}

/// Modular sum of the deltas of all increment operations in `kops` whose
/// predecessor set names `id` (the counter write they apply to).
pub open spec fn incr_total(kops: Seq<OpModel>, id: OpId) -> u64
    decreases kops.len(),
{
    if kops.len() == 0 {
        0
    } else {
        let rest = incr_total(kops.drop_last(), id);
        match kops.last().action {
            ActionModel::Increment(d) => if kops.last().pred.contains(id) {
                add64(rest, i64_bits(d))
            } else {
                rest
            },
            _ => rest,
        }
    }
}

/// Displayed value of a counter written as `base` by operation `id`, after
/// applying all increments at the key. Wraps modulo 2^64.
pub open spec fn counter_value(kops: Seq<OpModel>, base: i64, id: OpId) -> i64 {
    u64_as_i64(add64(i64_bits(base), incr_total(kops, id)))
}

/// The value a surviving operation materializes to, counters included.
pub open spec fn value_model(kops: Seq<OpModel>, o: OpModel) -> ValueModel {
    match o.action {
        ActionModel::Make(t) => ValueModel::Object(t),
        ActionModel::Put(s) => match s {
            ScalarModel::Counter(n) => ValueModel::Scalar(
                ScalarModel::Counter(counter_value(kops, n, o.id)),
            ),
            _ => ValueModel::Scalar(s),
        },
        _ => ValueModel::Scalar(ScalarModel::Null),
    }
}

/// Type of the object created by the first operation with id `id`, if any.
pub open spec fn first_make(ops: Seq<OpModel>, id: OpId) -> Option<ObjType>
    decreases ops.len(),
{
    if ops.len() == 0 {
        None
    } else if ops[0].id == id && ops[0].action is Make {
        Some(ops[0].action->Make_0)
    } else {
        first_make(ops.drop_first(), id)
    }
}

/// Type of the object a handle resolves to: the root is a map; any other
/// handle resolves through its creating operation.
pub open spec fn obj_type_of(ops: Seq<OpModel>, obj: ExId) -> Option<ObjType> {
    match obj {
        ExId::Root => Some(ObjType::Dict),
        ExId::Object(id) => first_make(ops, id),
    }
}


/// Order on element references: the head sentinel first, then by id.
pub open spec fn elem_le(a: ElemId, b: ElemId) -> bool {
    match a {
        ElemId::Head => true,
        ElemId::Id(x) => match b {
            ElemId::Head => false,
            ElemId::Id(y) => opid_le(x, y),
        },
    }
}

/// Order on (id, anchor) insertion records: by id, anchor as tie-break,
/// so that it is total on the type.
pub open spec fn pair_leq(a: (OpId, ElemId), b: (OpId, ElemId)) -> bool {
    opid_lt(a.0, b.0) || (a.0 == b.0 && elem_le(a.1, b.1))
}

/// The insertion-record order as a first-class function.
pub open spec fn pair_order() -> spec_fn((OpId, ElemId), (OpId, ElemId)) -> bool {
    |a: (OpId, ElemId), b: (OpId, ElemId)| pair_leq(a, b)
}

/// The insertion-record order is total.
pub proof fn lemma_pair_order_total()
    ensures
        total_ordering(pair_order()),
{
    let leq = pair_order();
    assert forall|a: (OpId, ElemId), b: (OpId, ElemId)| #[trigger] leq(a, b) && #[trigger] leq(
        b,
        a,
    ) implies a == b by {
        assert(a.0 == b.0 && a.1 == b.1);
    }
    assert forall|a: (OpId, ElemId), b: (OpId, ElemId), c: (OpId, ElemId)| #[trigger] leq(a, b)
        && #[trigger] leq(b, c) implies leq(a, c) by {}
    assert forall|a: (OpId, ElemId), b: (OpId, ElemId)| #[trigger] leq(a, b) || #[trigger] leq(
        b,
        a,
    ) by {}
}

/// The anchor an insertion goes after (its storage key).
pub open spec fn anchor_of(o: OpModel) -> ElemId {
    match o.key {
        KeyModel::Elem(e) => e,
        KeyModel::Field(_) => ElemId::Head,
    }
}

/// The insertion records of sequence object `obj`, in log order.
pub open spec fn ins_pairs(ops: Seq<OpModel>, obj: ExId) -> Seq<(OpId, ElemId)>
    decreases ops.len(),
{
    if ops.len() == 0 {
        Seq::empty()
    } else {
        let rest = ins_pairs(ops.drop_last(), obj);
        if ops.last().obj == obj && ops.last().insert {
            rest.push((ops.last().id, anchor_of(ops.last())))
        } else {
            rest
        }
    }
}

/// Insertion records of a one-longer log extend those of its prefix.
pub proof fn lemma_ins_pairs_push(ops: Seq<OpModel>, obj: ExId, o: OpModel)
    ensures
        ins_pairs(ops.push(o), obj) == if o.obj == obj && o.insert {
            ins_pairs(ops, obj).push((o.id, anchor_of(o)))
        } else {
            ins_pairs(ops, obj)
        },
{
    assert(ops.push(o).drop_last() == ops);
    assert(ops.push(o).last() == o);
}

/// Insertion records distribute over concatenation.
pub proof fn lemma_ins_pairs_add(a: Seq<OpModel>, b: Seq<OpModel>, obj: ExId)
    ensures
        ins_pairs(a + b, obj) == ins_pairs(a, obj) + ins_pairs(b, obj),
    decreases b.len(),
{
    if b.len() == 0 {
        assert(a + b == a);
        assert(ins_pairs(a, obj) + ins_pairs(b, obj) == ins_pairs(a, obj));
    } else {
        lemma_ins_pairs_add(a, b.drop_last(), obj);
        assert((a + b).drop_last() == a + b.drop_last());
        assert((a + b).last() == b.last());
        if b.last().obj == obj && b.last().insert {
            assert(ins_pairs(a, obj) + ins_pairs(b, obj) == (ins_pairs(a, obj) + ins_pairs(
                b.drop_last(),
                obj,
            )).push((b.last().id, anchor_of(b.last()))));
        }
    }
}

/// Place element `id` in the materialized order: directly after its anchor,
/// at the head for the head sentinel, at the end if the anchor is unknown.
pub open spec fn place(order: Seq<OpId>, id: OpId, anchor: ElemId) -> Seq<OpId> {
    match anchor {
        ElemId::Head => order.insert(0, id),
        ElemId::Id(a) => match order.index_of_first(a) {
            Some(j) => order.insert(j + 1, id),
            None => order.push(id),
        },
    }
}

/// Fold the insertion records, in ascending id order, into the element
/// order: processing ids in ascending order places each new element right
/// after its anchor, in front of the anchor's earlier (smaller-id)
/// children, so a later concurrent insert at the same spot sorts nearer
/// the anchor.
pub open spec fn build_order(s: Seq<(OpId, ElemId)>) -> Seq<OpId>
    decreases s.len(),
{
    if s.len() == 0 {
        Seq::empty()
    } else {
        place(build_order(s.drop_last()), s.last().0, s.last().1)
    }
}

/// The full element order (tombstones included) of sequence object `obj`:
/// determined by the set of insertion records alone.
pub open spec fn elem_order(ops: Seq<OpModel>, obj: ExId) -> Seq<OpId> {
    build_order(ins_pairs(ops, obj).sort_by(pair_order()))
}

/// The element still carries at least one surviving value.
pub open spec fn elem_visible(ops: Seq<OpModel>, obj: ExId, e: OpId) -> bool {
    has_visible(elem_ops(ops, obj, e))
}

/// The predicate of [`visible_elems`], as a named function value.
pub open spec fn elem_vis_pred(ops: Seq<OpModel>, obj: ExId) -> spec_fn(OpId) -> bool {
    |e: OpId| elem_visible(ops, obj, e)
}

/// The visible elements of `obj`, in materialized order: the element order
/// with tombstoned elements skipped. Index reads address this sequence.
pub open spec fn visible_elems(ops: Seq<OpModel>, obj: ExId) -> Seq<OpId> {
    sel(elem_order(ops, obj), elem_vis_pred(ops, obj))
}

/// Length of a sequence object: its count of visible elements.
pub open spec fn seq_length(ops: Seq<OpModel>, obj: ExId) -> nat {
    visible_elems(ops, obj).len()
}

/// Lexicographic order on character sequences, by code point.
pub open spec fn lex_le(a: Seq<char>, b: Seq<char>) -> bool
    decreases a.len(),
{
    if a.len() == 0 {
        true
    } else if b.len() == 0 {
        false
    } else if (a[0] as u32) < (b[0] as u32) {
        true
    } else if (a[0] as u32) > (b[0] as u32) {
        false
    } else {
        lex_le(a.drop_first(), b.drop_first())
    }
}


/// The code-point order on character sequences is total.
pub proof fn lemma_lex_total(a: Seq<char>, b: Seq<char>)
    ensures
        lex_le(a, b) || lex_le(b, a),
    decreases a.len(),
{
    if a.len() != 0 && b.len() != 0 && (a[0] as u32) == (b[0] as u32) {
        lemma_lex_total(a.drop_first(), b.drop_first());
    }
}

/// The code-point order is transitive.
pub proof fn lemma_lex_trans(a: Seq<char>, b: Seq<char>, c: Seq<char>)
    requires
        lex_le(a, b),
        lex_le(b, c),
    ensures
        lex_le(a, c),
    decreases a.len(),
{
    if a.len() != 0 && b.len() != 0 && c.len() != 0 {
        if (a[0] as u32) == (b[0] as u32) && (b[0] as u32) == (c[0] as u32) {
            lemma_lex_trans(a.drop_first(), b.drop_first(), c.drop_first());
        }
    }
}

/// Descending id order on operations, for multi-value reads: the most
/// recent write first.
pub open spec fn desc_order() -> spec_fn(OpModel, OpModel) -> bool {
    |a: OpModel, b: OpModel| opid_le(b.id, a.id)
}

/// The text fragment an operation contributes: its string payload, or
/// nothing for any other value.
pub open spec fn text_frag(o: OpModel) -> Seq<char> {
    match o.action {
        ActionModel::Put(ScalarModel::Str(s)) => s,
        _ => Seq::empty(),
    }
}

/// Concatenation of the text fragments of a winner sequence.
pub open spec fn concat_frags(s: Seq<OpModel>) -> Seq<char>
    decreases s.len(),
{
    if s.len() == 0 {
        Seq::empty()
    } else {
        concat_frags(s.drop_last()) + text_frag(s.last())
    }
}


/// Every id in a built order stems from one of the insertion records.
pub proof fn lemma_build_ids(s: Seq<(OpId, ElemId)>)
    ensures
        forall|e: OpId|
            build_order(s).contains(e) ==> exists|i: int| 0 <= i < s.len() && (#[trigger] s[i]).0
                == e,
    decreases s.len(),
{
    if s.len() > 0 {
        lemma_build_ids(s.drop_last());
        assert forall|e: OpId| build_order(s).contains(e) implies exists|i: int|
            0 <= i < s.len() && (#[trigger] s[i]).0 == e by {
            let prev = build_order(s.drop_last());
            let id = s.last().0;
            let anch = s.last().1;
            assert(build_order(s) == place(prev, id, anch));
            let j = choose|j: int| 0 <= j < build_order(s).len() && build_order(s)[j] == e;
            assert(prev.contains(e) || e == id) by {
                match anch {
                    ElemId::Head => {
                        prev.insert_ensures(0, id);
                        if j == 0 {
                        } else {
                            assert(prev[j - 1] == e);
                        }
                    },
                    ElemId::Id(a) => {
                        prev.index_of_first_ensures(a);
                        match prev.index_of_first(a) {
                            Some(fi) => {
                                prev.insert_ensures(fi + 1, id);
                                if j < fi + 1 {
                                    assert(prev[j] == e);
                                } else if j == fi + 1 {
                                } else {
                                    assert(prev[j - 1] == e);
                                }
                            },
                            None => {
                                if j < prev.len() {
                                    assert(prev[j] == e);
                                }
                            },
                        }
                    },
                }
            }
            if prev.contains(e) {
                let i = choose|i: int| 0 <= i < s.drop_last().len() && (#[trigger] s.drop_last()[i]).0 == e;
                assert(s[i].0 == e);
            } else {
                assert(s[s.len() - 1].0 == e);
            }
        }
    }
}

/// Every insertion record carries the id of an operation of the scope.
pub proof fn lemma_ins_pairs_ids(s: Seq<OpModel>, obj: ExId, p: (OpId, ElemId))
    requires
        ins_pairs(s, obj).contains(p),
    ensures
        exists|j: int| 0 <= j < s.len() && (#[trigger] s[j]).id == p.0,
    decreases s.len(),
{
    if s.len() > 0 {
        let rest = ins_pairs(s.drop_last(), obj);
        if s.last().obj == obj && s.last().insert {
            if p == (s.last().id, anchor_of(s.last())) {
                assert(s[s.len() - 1].id == p.0);
            } else {
                assert(rest.contains(p)) by {
                    let i = choose|i: int|
                        0 <= i < ins_pairs(s, obj).len() && ins_pairs(s, obj)[i] == p;
                    assert(ins_pairs(s, obj) == rest.push((s.last().id, anchor_of(s.last()))));
                    if i < rest.len() {
                        assert(rest[i] == p);
                    }
                }
                lemma_ins_pairs_ids(s.drop_last(), obj, p);
                let j = choose|j: int|
                    0 <= j < s.drop_last().len() && (#[trigger] s.drop_last()[j]).id == p.0;
                assert(s[j].id == p.0);
            }
        } else {
            lemma_ins_pairs_ids(s.drop_last(), obj, p);
            let j = choose|j: int|
                0 <= j < s.drop_last().len() && (#[trigger] s.drop_last()[j]).id == p.0;
            assert(s[j].id == p.0);
        }
    }
}


/// Every insertion record's id appears in the built order.
pub proof fn lemma_build_contains(s: Seq<(OpId, ElemId)>)
    ensures
        forall|i: int| 0 <= i < s.len() ==> build_order(s).contains((#[trigger] s[i]).0),
    decreases s.len(),
{
    if s.len() > 0 {
        lemma_build_contains(s.drop_last());
        let prev = build_order(s.drop_last());
        let id = s.last().0;
        let anch = s.last().1;
        assert(build_order(s) == place(prev, id, anch));
        assert forall|i: int| 0 <= i < s.len() implies build_order(s).contains(
            (#[trigger] s[i]).0) by {
            let cur = build_order(s);
            if i == s.len() - 1 {
                match anch {
                    ElemId::Head => {
                        prev.insert_ensures(0, id);
                        assert(cur[0] == id);
                    },
                    ElemId::Id(a) => {
                        prev.index_of_first_ensures(a);
                        match prev.index_of_first(a) {
                            Some(fi) => {
                                prev.insert_ensures(fi + 1, id);
                                assert(cur[fi + 1] == id);
                            },
                            None => {
                                assert(cur[cur.len() - 1] == id);
                            },
                        }
                    },
                }
                assert(cur.contains(id));
            } else {
                assert(s.drop_last()[i] == s[i]);
                assert(prev.contains(s[i].0));
                let j = choose|j: int| 0 <= j < prev.len() && prev[j] == s[i].0;
                match anch {
                    ElemId::Head => {
                        prev.insert_ensures(0, id);
                        assert(cur[j + 1] == prev[j]);
                    },
                    ElemId::Id(a) => {
                        prev.index_of_first_ensures(a);
                        match prev.index_of_first(a) {
                            Some(fi) => {
                                prev.insert_ensures(fi + 1, id);
                                if j < fi + 1 {
                                    assert(cur[j] == prev[j]);
                                } else {
                                    assert(cur[j + 1] == prev[j]);
                                }
                            },
                            None => {
                                assert(cur[j] == prev[j]);
                            },
                        }
                    },
                }
                assert(cur.contains(s[i].0));
            }
        }
    }
}


/// Distinct operation ids survive selection.
pub proof fn lemma_sel_ids_distinct(s: Seq<OpModel>, p: spec_fn(OpModel) -> bool)
    requires
        forall|i: int, j: int|
            0 <= i < s.len() && 0 <= j < s.len() && i != j ==> (#[trigger] s[i]).id != (
            #[trigger] s[j]).id,
    ensures
        forall|i: int, j: int|
            0 <= i < sel(s, p).len() && 0 <= j < sel(s, p).len() && i != j ==> (
            #[trigger] sel(s, p)[i]).id != (#[trigger] sel(s, p)[j]).id,
    decreases s.len(),
{
    if s.len() > 0 {
        assert forall|i: int, j: int|
            0 <= i < s.drop_last().len() && 0 <= j < s.drop_last().len() && i != j implies (
        #[trigger] s.drop_last()[i]).id != (#[trigger] s.drop_last()[j]).id by {
            assert(s[i] == s.drop_last()[i] && s[j] == s.drop_last()[j]);
        }
        lemma_sel_ids_distinct(s.drop_last(), p);
        if p(s.last()) {
            let t = sel(s.drop_last(), p);
            assert(sel(s, p) == t.push(s.last()));
            assert forall|i: int| 0 <= i < t.len() implies (#[trigger] t[i]).id != s.last().id by {
                assert(t.contains(t[i]));
                lemma_sel_contains(s.drop_last(), p, t[i]);
                let k = choose|k: int| 0 <= k < s.drop_last().len() && s.drop_last()[k] == t[i];
                assert(s[k] == s.drop_last()[k]);
                assert(s[k].id != s[s.len() - 1].id);
            }
        }
    }
}

/// With distinct operation ids, the winning value at a key is unique.
pub proof fn lemma_winner_unique(kops: Seq<OpModel>, w1: OpModel, w2: OpModel)
    requires
        forall|i: int, j: int|
            0 <= i < kops.len() && 0 <= j < kops.len() && i != j ==> (#[trigger] kops[i]).id != (
            #[trigger] kops[j]).id,
        is_winner(kops, w1),
        is_winner(kops, w2),
    ensures
        w1 == w2,
{
    assert(opid_le(w1.id, w2.id) && opid_le(w2.id, w1.id));
    assert(w1.id == w2.id);
    let i = choose|i: int| 0 <= i < kops.len() && kops[i] == w1;
    let j = choose|j: int| 0 <= j < kops.len() && kops[j] == w2;
    if i != j {
        assert(kops[i].id != kops[j].id);
    }
}

} // verus!
