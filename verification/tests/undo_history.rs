use irl_renamer::undo::{Timestamp, undo_failure_message, undo_steps, RenameOp, UndoManager};

fn op(from: &str, to: &str) -> RenameOp {
    RenameOp { from: from.to_string(), to: to.to_string() }
}

#[test]
fn a_new_history_is_empty() {
    let m = UndoManager::new();
    assert!(m.get_history().is_empty());
    assert_eq!(m.next_id(), 1);
}

#[test]
fn undo_with_nothing_recorded_fails() {
    let mut m = UndoManager::new();
    let e = m.undo_last().unwrap_err();
    assert_eq!(e, "Aucune opération à annuler");
    assert_eq!(m.next_id(), 1);
}

#[test]
fn record_then_undo_gives_the_batch_back() {
    let mut m = UndoManager::new();
    let first = m.record("/photos".to_string(), vec![op("a.jpg", "b.jpg")], at(10));
    let before: Vec<u64> = m.get_history().iter().map(|r| r.id).collect();
    let rec = m.record("/docs".to_string(), vec![op("x", "y"), op("z", "w")], at(42));
    assert_eq!(first.id, 1);
    assert_eq!(rec.id, 2);
    assert_eq!(rec.directory, "/docs");
    assert_eq!(rec.operations.len(), 2);
    let undone = m.undo_last().unwrap();
    assert_eq!(undone.id, 2);
    assert_eq!(undone.directory, "/docs");
    assert_eq!(undone.operations[1].from, "z");
    assert_eq!(undone.timestamp, rec.timestamp);
    assert_eq!(rec.timestamp, at(42));
    let after: Vec<u64> = m.get_history().iter().map(|r| r.id).collect();
    assert_eq!(after, before);
    // ids keep increasing after an undo
    let next = m.record("/again".to_string(), Vec::new(), at(10));
    assert_eq!(next.id, 3);
}

#[test]
fn history_ids_increase() {
    let mut m = UndoManager::new();
    for k in 0..4 {
        m.record(format!("/d{k}"), Vec::new(), at(10));
    }
    let h = m.get_history();
    assert_eq!(h.iter().map(|r| r.id).collect::<Vec<u64>>(), vec![1, 2, 3, 4]);
    assert_eq!(h[2].directory, "/d2");
    assert_eq!(m.next_id(), 5);
}

#[test]
fn undo_steps_reverse_the_batch() {
    let mut m = UndoManager::new();
    let rec = m.record("/d".to_string(), vec![op("a", "b"), op("c", "d"), op("e", "f")], at(10));
    let steps = undo_steps(&rec);
    let pairs: Vec<(String, String)> = steps.iter().map(|s| (s.from.clone(), s.to.clone())).collect();
    assert_eq!(
        pairs,
        vec![
            ("f".to_string(), "e".to_string()),
            ("d".to_string(), "c".to_string()),
            ("b".to_string(), "a".to_string())
        ]
    );
}

#[test]
fn undoing_the_undo_plan_gives_the_batch() {
    let mut m = UndoManager::new();
    let rec = m.record("/d".to_string(), vec![op("a", "b"), op("c", "d")], at(10));
    let steps = undo_steps(&rec);
    let back = m.record("/d".to_string(), steps, at(10));
    let again = undo_steps(&back);
    assert_eq!(again.len(), 2);
    assert_eq!((again[0].from.as_str(), again[0].to.as_str()), ("a", "b"));
    assert_eq!((again[1].from.as_str(), again[1].to.as_str()), ("c", "d"));
}

#[test]
fn undo_failure_text() {
    let m = undo_failure_message(&op("new.txt", "old.txt"), "access denied");
    assert_eq!(m, "Erreur lors de l'annulation de new.txt → old.txt: access denied");
}

fn run(dir: &mut std::collections::BTreeSet<String>, ops: &[RenameOp]) -> bool {
    for o in ops {
        if !dir.contains(&o.from) || dir.contains(&o.to) {
            return false;
        }
        dir.remove(&o.from);
        dir.insert(o.to.clone());
    }
    true
}

#[test]
fn the_undo_plan_restores_a_chain_of_renames() {
    let mut m = UndoManager::new();
    let rec = m.record("/d".to_string(), vec![op("a", "b"), op("b", "c"), op("x", "a")], at(10));
    let original: std::collections::BTreeSet<String> =
        ["a", "x", "keep"].iter().map(|s| s.to_string()).collect();
    let mut dir = original.clone();
    assert!(run(&mut dir, &rec.operations));
    let expected: std::collections::BTreeSet<String> =
        ["c", "a", "keep"].iter().map(|s| s.to_string()).collect();
    assert_eq!(dir, expected);
    let steps = undo_steps(&rec);
    assert!(run(&mut dir, &steps));
    assert_eq!(dir, original);
}

fn at(seconds: i64) -> Timestamp {
    Timestamp { seconds, nanos: 500 }
}
