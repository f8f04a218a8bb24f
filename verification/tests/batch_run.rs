use irl_renamer::batch::{pending_renames, RenameBatch, RenameOutcome};
use irl_renamer::renamer::RenamePreview;
use irl_renamer::undo::{Timestamp, RenameOp, UndoManager};

fn preview(original: &str, renamed: &str) -> RenamePreview {
    RenamePreview {
        original: original.to_string(),
        renamed: renamed.to_string(),
        changed: original != renamed,
    }
}

#[test]
fn only_changed_previews_are_renamed() {
    let previews = vec![preview("a", "b"), preview("same", "same"), preview("c", "d")];
    let plan = pending_renames(&previews);
    assert_eq!(plan.len(), 2);
    assert_eq!((plan[0].from.as_str(), plan[0].to.as_str()), ("a", "b"));
    assert_eq!((plan[1].from.as_str(), plan[1].to.as_str()), ("c", "d"));
}

#[test]
fn outcomes_fill_the_report_and_the_record() {
    let mut history = UndoManager::new();
    history.record("/earlier".to_string(), Vec::new(), at(10));
    let plan = vec![
        RenameOp { from: "a".to_string(), to: "b".to_string() },
        RenameOp { from: "c".to_string(), to: "d".to_string() },
        RenameOp { from: "e".to_string(), to: "f".to_string() },
        RenameOp { from: "g".to_string(), to: "h".to_string() },
    ];
    let outcomes = vec![
        RenameOutcome::Renamed,
        RenameOutcome::TargetExists,
        RenameOutcome::Failed("permission denied".to_string()),
        RenameOutcome::Renamed,
    ];
    let mut batch = RenameBatch::new();
    for (op, outcome) in plan.iter().zip(outcomes) {
        batch.note(op, outcome);
    }
    let result = batch.finish(&mut history, "/dir".to_string(), at(20));
    assert_eq!(result.renamed, 2);
    assert_eq!(result.record_id, 2);
    assert_eq!(
        result.errors,
        vec![
            "c → d : le fichier cible existe déjà".to_string(),
            "e → f : permission denied".to_string()
        ]
    );
    assert_eq!(result.renamed + result.errors.len(), plan.len());
    let h = history.get_history();
    assert_eq!(h.len(), 2);
    assert_eq!(h[1].id, 2);
    assert_eq!(h[1].directory, "/dir");
    assert_eq!(h[1].timestamp, at(20));
    let ops: Vec<(String, String)> =
        h[1].operations.iter().map(|o| (o.from.clone(), o.to.clone())).collect();
    assert_eq!(ops, vec![("a".to_string(), "b".to_string()), ("g".to_string(), "h".to_string())]);
}

#[test]
fn an_empty_batch_is_still_recorded() {
    let mut history = UndoManager::new();
    let result = RenameBatch::new().finish(&mut history, "/x".to_string(), at(30));
    assert_eq!(result.renamed, 0);
    assert!(result.errors.is_empty());
    assert_eq!(result.record_id, 1);
    assert_eq!(history.get_history().len(), 1);
}

fn at(seconds: i64) -> Timestamp {
    Timestamp { seconds, nanos: 500 }
}
