use mergecore::change::{Change, ChangeHash, CommitOptions};
use mergecore::doc::Document;
use mergecore::types::{ExId, ObjType, OperationError, Prop, ScalarValue, Value};

fn key(s: &str) -> Prop {
    Prop::Key(s.to_string())
}

fn scalar_of(v: Option<(Value, ExId)>) -> ScalarValue {
    match v.unwrap().0 {
        Value::Scalar(s) => s,
        Value::Object(_) => panic!("expected a scalar"),
    }
}

#[test]
fn round_trip_put_get() {
    let doc = Document::new(1);
    let mut tx = doc.transaction();
    tx.put(ExId::Root, &key("k"), ScalarValue::Int(5)).unwrap();
    let got = tx.get(ExId::Root, &key("k")).unwrap();
    assert_eq!(scalar_of(got), ScalarValue::Int(5));
    let all = tx.get_all(ExId::Root, &key("k")).unwrap();
    assert_eq!(all.len(), 1);
    assert_eq!(tx.pending_ops(), 1);
    let (_doc, result) = tx.commit();
    assert!(result.diff.is_none());
}

#[test]
fn rollback_restores_state() {
    let doc = Document::new(1);
    let mut tx = doc.transaction();
    tx.put(ExId::Root, &key("a"), ScalarValue::Int(1)).unwrap();
    let (doc, _) = tx.commit();
    let heads_before = doc.get_heads();

    let mut tx = doc.transaction();
    tx.put(ExId::Root, &key("a"), ScalarValue::Int(2)).unwrap();
    tx.put(ExId::Root, &key("b"), ScalarValue::Int(3)).unwrap();
    assert_eq!(tx.pending_ops(), 2);
    let (doc, removed) = tx.rollback();
    assert_eq!(removed, 2);
    assert_eq!(scalar_of(doc.get(ExId::Root, &key("a")).unwrap()), ScalarValue::Int(1));
    assert!(doc.get(ExId::Root, &key("b")).unwrap().is_none());
    assert_eq!(doc.get_heads(), heads_before);
}

#[test]
fn historical_read() {
    let doc = Document::new(1);
    let mut tx = doc.transaction();
    tx.put(ExId::Root, &key("k"), ScalarValue::Int(1)).unwrap();
    let (doc, _) = tx.commit();
    let heads_after_c1 = doc.get_heads();

    let mut tx = doc.transaction();
    tx.put(ExId::Root, &key("k"), ScalarValue::Int(2)).unwrap();
    let (doc, _) = tx.commit();

    let old = doc.get_at(ExId::Root, &key("k"), &heads_after_c1).unwrap();
    assert_eq!(scalar_of(old), ScalarValue::Int(1));
    let now = doc.get(ExId::Root, &key("k")).unwrap();
    assert_eq!(scalar_of(now), ScalarValue::Int(2));
}

#[test]
fn commit_identity() {
    let run = || {
        let doc = Document::new(7);
        let mut tx = doc.transaction();
        tx.put(ExId::Root, &key("x"), ScalarValue::Str("v".to_string())).unwrap();
        let opts = CommitOptions::new().with_message("same".to_string()).with_time(123);
        let (_doc, result) = tx.commit_with(opts);
        result.hash
    };
    assert_eq!(run(), run());
}

#[test]
fn commit_metadata_changes_identity() {
    let run = |time: i64| {
        let doc = Document::new(7);
        let mut tx = doc.transaction();
        tx.put(ExId::Root, &key("x"), ScalarValue::Int(1)).unwrap();
        let (_doc, result) = tx.commit_with(CommitOptions::new().with_time(time));
        result.hash
    };
    assert_ne!(run(1), run(2));
}

#[test]
fn merge_commutativity() {
    let mut doc_a = Document::new(1);
    let mut tx = doc_a.transaction();
    tx.put(ExId::Root, &key("a"), ScalarValue::Int(10)).unwrap();
    doc_a = tx.commit().0;
    let change_a = doc_a.change_at(0).dup();

    let mut doc_b = Document::new(2);
    let mut tx = doc_b.transaction();
    tx.put(ExId::Root, &key("b"), ScalarValue::Int(20)).unwrap();
    doc_b = tx.commit().0;
    let change_b = doc_b.change_at(0).dup();

    let mut merged_ab = Document::new(3);
    merged_ab.apply_change(change_a.dup()).unwrap();
    merged_ab.apply_change(change_b.dup()).unwrap();

    let mut merged_ba = Document::new(4);
    merged_ba.apply_change(change_b).unwrap();
    merged_ba.apply_change(change_a).unwrap();

    for k in ["a", "b"] {
        let va = scalar_of(merged_ab.get(ExId::Root, &key(k)).unwrap());
        let vb = scalar_of(merged_ba.get(ExId::Root, &key(k)).unwrap());
        assert_eq!(va, vb);
    }
    assert_eq!(merged_ab.get_heads().len(), 2);
    assert_eq!(merged_ba.get_heads().len(), 2);
}

#[test]
fn conflict_surfacing() {
    let mut doc_a = Document::new(1);
    let mut tx = doc_a.transaction();
    tx.put(ExId::Root, &key("k"), ScalarValue::Str("va".to_string())).unwrap();
    doc_a = tx.commit().0;
    let change_a = doc_a.change_at(0).dup();

    let mut doc_b = Document::new(2);
    let mut tx = doc_b.transaction();
    tx.put(ExId::Root, &key("k"), ScalarValue::Str("vb".to_string())).unwrap();
    doc_b = tx.commit().0;
    let change_b = doc_b.change_at(0).dup();

    for order in 0..2 {
        let mut merged = Document::new(9);
        if order == 0 {
            merged.apply_change(change_a.dup()).unwrap();
            merged.apply_change(change_b.dup()).unwrap();
        } else {
            merged.apply_change(change_b.dup()).unwrap();
            merged.apply_change(change_a.dup()).unwrap();
        }
        let all = merged.get_all(ExId::Root, &key("k")).unwrap();
        assert_eq!(all.len(), 2);
        // same counter, actor 2 wins the tie-break; most recent first
        match (&all[0].0, &all[1].0) {
            (Value::Scalar(ScalarValue::Str(first)), Value::Scalar(ScalarValue::Str(second))) => {
                assert_eq!(first, "vb");
                assert_eq!(second, "va");
            },
            _ => panic!("expected two strings"),
        }
        let winner = scalar_of(merged.get(ExId::Root, &key("k")).unwrap());
        assert_eq!(winner, ScalarValue::Str("vb".to_string()));
    }
}

#[test]
fn list_order_determinism() {
    let mut base = Document::new(1);
    let mut tx = base.transaction();
    let list = tx.put_object(ExId::Root, &key("l"), ObjType::List).unwrap();
    base = tx.commit().0;
    let base_change = base.change_at(0).dup();

    let mut tx = base.transaction();
    tx.insert(list, 0, ScalarValue::Str("x".to_string())).unwrap();
    let doc_a = tx.commit().0;
    let change_a = doc_a.change_at(1).dup();

    let mut doc_b = Document::new(2);
    doc_b.apply_change(base_change.dup()).unwrap();
    let mut tx = doc_b.transaction();
    tx.insert(list, 0, ScalarValue::Str("y".to_string())).unwrap();
    doc_b = tx.commit().0;
    let change_b = doc_b.change_at(1).dup();

    let read = |doc: &Document| {
        let mut out = Vec::new();
        for i in 0..doc.length(list) {
            out.push(scalar_of(doc.get(list, &Prop::Index(i)).unwrap()));
        }
        out
    };

    let mut m1 = Document::new(3);
    m1.apply_change(base_change.dup()).unwrap();
    m1.apply_change(change_a.dup()).unwrap();
    m1.apply_change(change_b.dup()).unwrap();

    let mut m2 = Document::new(4);
    m2.apply_change(base_change).unwrap();
    m2.apply_change(change_b).unwrap();
    m2.apply_change(change_a).unwrap();

    assert_eq!(m1.length(list), 2);
    assert_eq!(m2.length(list), 2);
    assert_eq!(read(&m1), read(&m2));
}

#[test]
fn text_and_splice() {
    let doc = Document::new(1);
    let mut tx = doc.transaction();
    let txt = tx.put_object(ExId::Root, &key("t"), ObjType::Text).unwrap();
    tx.splice(
        txt,
        0,
        0,
        vec![
            ScalarValue::Str("h".to_string()),
            ScalarValue::Str("e".to_string()),
            ScalarValue::Str("y".to_string()),
        ],
    )
    .unwrap();
    assert_eq!(tx.text(txt), "hey");
    assert_eq!(tx.length(txt), 3);
    tx.splice(txt, 1, 1, vec![ScalarValue::Str("o".to_string())]).unwrap();
    assert_eq!(tx.text(txt), "hoy");
    let (doc, _) = tx.commit();
    assert_eq!(doc.text(txt), "hoy");
}

#[test]
fn insert_and_delete_in_list() {
    let doc = Document::new(1);
    let mut tx = doc.transaction();
    let list = tx.put_object(ExId::Root, &key("l"), ObjType::List).unwrap();
    tx.insert(list, 0, ScalarValue::Int(1)).unwrap();
    tx.insert(list, 1, ScalarValue::Int(2)).unwrap();
    tx.insert(list, 1, ScalarValue::Int(3)).unwrap();
    assert_eq!(tx.length(list), 3);
    assert_eq!(scalar_of(tx.get(list, &Prop::Index(1)).unwrap()), ScalarValue::Int(3));
    tx.delete(list, &Prop::Index(1)).unwrap();
    assert_eq!(tx.length(list), 2);
    assert_eq!(scalar_of(tx.get(list, &Prop::Index(1)).unwrap()), ScalarValue::Int(2));
    let err = tx.insert(list, 5, ScalarValue::Int(9)).unwrap_err();
    assert_eq!(err, OperationError::IndexOutOfBounds);
}

#[test]
fn counters_and_increment() {
    let doc = Document::new(1);
    let mut tx = doc.transaction();
    tx.put(ExId::Root, &key("c"), ScalarValue::Counter(1)).unwrap();
    tx.increment(ExId::Root, &key("c"), 2).unwrap();
    assert_eq!(scalar_of(tx.get(ExId::Root, &key("c")).unwrap()), ScalarValue::Counter(3));
    tx.put(ExId::Root, &key("s"), ScalarValue::Str("x".to_string())).unwrap();
    let err = tx.increment(ExId::Root, &key("s"), 1).unwrap_err();
    assert_eq!(err, OperationError::TypeMismatch);
    let err = tx.increment(ExId::Root, &key("absent"), 1).unwrap_err();
    assert_eq!(err, OperationError::TypeMismatch);
}

#[test]
fn keys_are_sorted_and_deletes_are_silent() {
    let doc = Document::new(1);
    let mut tx = doc.transaction();
    tx.put(ExId::Root, &key("b"), ScalarValue::Int(2)).unwrap();
    tx.put(ExId::Root, &key("a"), ScalarValue::Int(1)).unwrap();
    assert_eq!(tx.keys(ExId::Root), vec!["a".to_string(), "b".to_string()]);
    assert_eq!(tx.length(ExId::Root), 2);
    tx.delete(ExId::Root, &key("a")).unwrap();
    assert_eq!(tx.keys(ExId::Root), vec!["b".to_string()]);
    assert!(tx.get(ExId::Root, &key("a")).unwrap().is_none());
    // deleting an absent key is a silent no-op
    let before = tx.pending_ops();
    tx.delete(ExId::Root, &key("never")).unwrap();
    assert_eq!(tx.pending_ops(), before);
}

#[test]
fn unknown_objects_and_bad_props_error() {
    let doc = Document::new(1);
    let mut tx = doc.transaction();
    let bogus = ExId::Object(mergecore::types::OpId { counter: 99, actor: 9 });
    let err = tx.put(bogus, &key("k"), ScalarValue::Int(1)).unwrap_err();
    assert_eq!(err, OperationError::ObjectNotFound);
    let err = tx.put(ExId::Root, &Prop::Index(0), ScalarValue::Int(1)).unwrap_err();
    assert_eq!(err, OperationError::InvalidProp);
    let list = tx.put_object(ExId::Root, &key("l"), ObjType::List).unwrap();
    let err = tx.put(list, &key("k"), ScalarValue::Int(1)).unwrap_err();
    assert_eq!(err, OperationError::InvalidProp);
    assert_eq!(tx.object_type(list), Some(ObjType::List));
    assert_eq!(tx.object_type(ExId::Root), Some(ObjType::Dict));
    assert_eq!(tx.object_type(bogus), None);
}

#[test]
fn missing_dependency_is_rejected() {
    let mut doc = Document::new(1);
    let stranger = Change {
        actor: 5,
        seq: 1,
        start_op: 1,
        time: 0,
        message: None,
        deps: vec![ChangeHash(0xdeadbeef)],
        ops: Vec::new(),
    };
    let err = doc.apply_change(stranger).unwrap_err();
    assert_eq!(err, OperationError::MissingDependency);
    assert_eq!(doc.change_count(), 0);
}

#[test]
fn apply_change_is_idempotent() {
    let mut doc_a = Document::new(1);
    let mut tx = doc_a.transaction();
    tx.put(ExId::Root, &key("k"), ScalarValue::Int(1)).unwrap();
    doc_a = tx.commit().0;
    let change = doc_a.change_at(0).dup();

    let mut doc_b = Document::new(2);
    doc_b.apply_change(change.dup()).unwrap();
    doc_b.apply_change(change).unwrap();
    assert_eq!(doc_b.change_count(), 1);
    assert_eq!(scalar_of(doc_b.get(ExId::Root, &key("k")).unwrap()), ScalarValue::Int(1));
}

#[test]
fn observer_records_events() {
    let doc = Document::new(1);
    let mut tx = doc.transaction_observed();
    tx.put(ExId::Root, &key("k"), ScalarValue::Int(1)).unwrap();
    tx.delete(ExId::Root, &key("k")).unwrap();
    assert!(tx.observer().is_some());
    let (_doc, result) = tx.commit();
    let diff = result.diff.unwrap();
    assert_eq!(diff.events.len(), 2);
}

#[test]
fn commit_message_and_time_are_kept() {
    let doc = Document::new(1);
    let mut tx = doc.transaction();
    tx.put(ExId::Root, &key("k"), ScalarValue::Int(1)).unwrap();
    let (doc, result) = tx.commit_with(
        CommitOptions::new().with_message("note".to_string()).with_time(42),
    );
    assert_eq!(doc.get_heads(), vec![result.hash]);
    let c = doc.change_at(0);
    assert_eq!(c.message.as_deref(), Some("note"));
    assert_eq!(c.time, 42);
    assert_eq!(c.seq, 1);
    assert_eq!(c.start_op, 1);
}
