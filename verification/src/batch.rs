//! Carrying out a previewed rename: which previews call for a rename, what
//! each attempt adds to the report, and the report once the batch is
//! recorded in the history.
use vstd::prelude::*;
use crate::renamer::RenamePreview;
use crate::text::string_views;
use crate::undo::{op_views, RecordView, RenameOp, Timestamp, UndoManager};

verus! {

/// How one attempted rename went.
#[derive(Debug)]
pub enum RenameOutcome {
    /// A file already has the new name; nothing was renamed.
    TargetExists,
    /// The file was renamed.
    Renamed,
    /// The rename failed with this error text.
    Failed(String),
}

/// What a batch has gathered so far: the error messages and the renames
/// performed, both in order.
pub type BatchView = (Seq<Seq<char>>, Seq<(Seq<char>, Seq<char>)>);

/// The errors and performed renames of a batch in progress.
pub struct RenameBatch {
    errors: Vec<String>,
    operations: Vec<RenameOp>,
}

impl View for RenameBatch {
    type V = BatchView;

    closed spec fn view(&self) -> BatchView {
        (string_views(self.errors@), op_views(self.operations@))
    }
}

/// The report of a performed batch: how many files were renamed, the error
/// messages, and the id under which the batch was recorded.
#[derive(Debug)]
pub struct RenameResult {
    pub renamed: usize,
    pub errors: Vec<String>,
    pub record_id: u64,
}

/// The renames a list of previews calls for: one per changed preview, from
/// the original name to the new one, in order.
pub open spec fn pending(previews: Seq<(Seq<char>, Seq<char>, bool)>) -> Seq<(Seq<char>, Seq<char>)>
    decreases previews.len(),
{
    if previews.len() == 0 {
        Seq::empty()
    } else {
        let rest = pending(previews.drop_last());
        let p = previews.last();
        if p.2 {
            rest.push((p.0, p.1))
        } else {
            rest
        }
    }
}

/// The view of a preview: original, new name, changed.
pub open spec fn preview_view(p: RenamePreview) -> (Seq<char>, Seq<char>, bool) {
    (p.original@, p.renamed@, p.changed)
}

/// The views of a sequence of previews.
pub open spec fn preview_views(v: Seq<RenamePreview>) -> Seq<(Seq<char>, Seq<char>, bool)> {
    v.map_values(|p: RenamePreview| preview_view(p))
}

/// The message for a rename refused because the new name is taken:
/// `<from> → <to> : le fichier cible existe déjà`.
pub open spec fn taken_message(op: (Seq<char>, Seq<char>)) -> Seq<char> {
    op.0 + " → "@ + op.1 + " : le fichier cible existe déjà"@
}

/// The message for a rename that failed: `<from> → <to> : <error>`.
pub open spec fn failed_message(op: (Seq<char>, Seq<char>), error: Seq<char>) -> Seq<char> {
    op.0 + " → "@ + op.1 + " : "@ + error
}

/// What one attempt adds to a batch: an error message when the target was
/// taken or the rename failed, the rename itself when it was performed.
pub open spec fn batch_step(b: BatchView, op: (Seq<char>, Seq<char>), outcome: RenameOutcome) -> BatchView {
    match outcome {
        RenameOutcome::TargetExists => (b.0.push(taken_message(op)), b.1),
        RenameOutcome::Renamed => (b.0, b.1.push(op)),
        RenameOutcome::Failed(e) => (b.0.push(failed_message(op, e@)), b.1),
    }
}

/// A batch after the attempts `ops` with the outcomes `outcomes`, one each,
/// starting from an empty batch.
pub open spec fn batch_run(ops: Seq<(Seq<char>, Seq<char>)>, outcomes: Seq<RenameOutcome>) -> BatchView
    decreases ops.len(),
{
    if ops.len() == 0 || outcomes.len() != ops.len() {
        (Seq::empty(), Seq::empty())
    } else {
        batch_step(
            batch_run(ops.drop_last(), outcomes.drop_last()),
            ops.last(),
            outcomes.last(),
        )
    }
}

/// Every attempted rename of a batch is either performed or reported as an
/// error: the two counts add up to the number of attempts.
pub proof fn lemma_batch_accounts_for_every_rename(
    ops: Seq<(Seq<char>, Seq<char>)>,
    outcomes: Seq<RenameOutcome>,
)
    requires
        outcomes.len() == ops.len(),
    ensures
        batch_run(ops, outcomes).0.len() + batch_run(ops, outcomes).1.len() == ops.len(),
    decreases ops.len(),
{
    if ops.len() > 0 {
        lemma_batch_accounts_for_every_rename(ops.drop_last(), outcomes.drop_last());
    }
}

/// The performed renames of a batch are exactly the attempts whose outcome
/// was `Renamed`, in order; in particular each is one of the attempts.
pub proof fn lemma_batch_records_performed_renames(
    ops: Seq<(Seq<char>, Seq<char>)>,
    outcomes: Seq<RenameOutcome>,
)
    requires
        outcomes.len() == ops.len(),
    ensures
        forall|k: int|
            0 <= k < batch_run(ops, outcomes).1.len() ==> ops.contains(
                #[trigger] batch_run(ops, outcomes).1[k],
            ),
        (forall|k: int| 0 <= k < outcomes.len() ==> #[trigger] outcomes[k] is Renamed) ==> batch_run(
            ops,
            outcomes,
        ).1 == ops,
    decreases ops.len(),
{
    if ops.len() > 0 {
        let ops0 = ops.drop_last();
        let out0 = outcomes.drop_last();
        lemma_batch_records_performed_renames(ops0, out0);
        let prev = batch_run(ops0, out0);
        assert forall|k: int|
            0 <= k < batch_run(ops, outcomes).1.len() implies ops.contains(
                #[trigger] batch_run(ops, outcomes).1[k],
            ) by {
            if k < prev.1.len() {
                let x = prev.1[k];
                assert(ops0.contains(x));
                let j = choose|j: int| 0 <= j < ops0.len() && ops0[j] == x;
                assert(ops[j] == x);
            } else {
                assert(ops[ops.len() - 1] == ops.last());
            }
        }
        if forall|k: int| 0 <= k < outcomes.len() ==> #[trigger] outcomes[k] is Renamed {
            assert forall|k: int| 0 <= k < out0.len() implies #[trigger] out0[k] is Renamed by {
                assert(out0[k] == outcomes[k]);
            }
            assert(outcomes.last() == outcomes[outcomes.len() - 1]);
            assert(ops0.push(ops.last()) =~= ops);
        }
    } else {
        assert(batch_run(ops, outcomes).1 =~= ops);
    }
}

/// The renames a list of previews calls for (see `pending`).
pub fn pending_renames(previews: &[RenamePreview]) -> (r: Vec<RenameOp>)
    ensures
        op_views(r@) == pending(preview_views(previews@)),
{
    let ghost ps = preview_views(previews@);
    let mut r: Vec<RenameOp> = Vec::new();
    let mut i: usize = 0;
    while i < previews.len()
        invariant
            ps == preview_views(previews@),
            i <= previews@.len(),
            op_views(r@) == pending(ps.take(i as int)),
        decreases previews@.len() - i,
    {
        let p = &previews[i];
        proof {
            assert(ps.take(i + 1).drop_last() =~= ps.take(i as int));
            assert(ps.take(i + 1).last() == preview_view(*p));
        }
        if p.changed {
            let op = RenameOp { from: p.original.clone(), to: p.renamed.clone() };
            proof {
                assert(op_views(r@.push(op)) =~= op_views(r@).push(op@));
            }
            r.push(op);
        }
        i = i + 1;
    }
    assert(ps.take(previews@.len() as int) =~= ps);
    r
}

fn pair_message(op: &RenameOp, tail: &str) -> (r: String)
    ensures
        r@ == op.from@ + " → "@ + op.to@ + tail@,
{
    let mut m = op.from.clone();
    m.append(" → ");
    m.append(op.to.as_str());
    m.append(tail);
    m
}

impl RenameBatch {
    /// A batch with no errors and no performed renames yet.
    pub fn new() -> (b: Self)
        ensures
            b@ == batch_run(Seq::empty(), Seq::empty()),
    {
        let b = RenameBatch { errors: Vec::new(), operations: Vec::new() };
        assert(b@.0 =~= Seq::<Seq<char>>::empty());
        assert(b@.1 =~= Seq::<(Seq<char>, Seq<char>)>::empty());
        b
    }

    /// Adds the outcome of attempting `op` (see `batch_step`).
    pub fn note(&mut self, op: &RenameOp, outcome: RenameOutcome)
        ensures
            final(self)@ == batch_step(old(self)@, op@, outcome),
    {
        let ghost before = self@;
        match outcome {
            RenameOutcome::TargetExists => {
                let m = pair_message(op, " : le fichier cible existe déjà");
                self.errors.push(m);
                assert(string_views(self.errors@) =~= before.0.push(m@));
            },
            RenameOutcome::Renamed => {
                let copy = op.clone();
                self.operations.push(copy);
                assert(op_views(self.operations@) =~= before.1.push(op@));
            },
            RenameOutcome::Failed(e) => {
                let mut m = pair_message(op, " : ");
                m.append(e.as_str());
                self.errors.push(m);
                assert(string_views(self.errors@) =~= before.0.push(m@));
            },
        }
    }

    /// Records the performed renames as one batch in `directory` at
    /// `timestamp` and returns the report: the number of renames, the
    /// errors, and the id the batch got.
    pub fn finish(self, history: &mut UndoManager, directory: String, timestamp: Timestamp) -> (r: RenameResult)
        requires
            old(history).next_record_id() < u64::MAX,
        ensures
            r.renamed == self@.1.len(),
            string_views(r.errors@) == self@.0,
            r.record_id == old(history).next_record_id(),
            final(history).next_record_id() == old(history).next_record_id() + 1,
            final(history)@.len() == old(history)@.len() + 1,
            final(history)@.drop_last() == old(history)@,
            final(history)@.last().0 == r.record_id,
            final(history)@.last().1 == timestamp,
            final(history)@.last().2 == directory@,
            final(history)@.last().3 == self@.1,
    {
        let RenameBatch { errors, operations } = self;
        let renamed = operations.len();
        let record = history.record(directory, operations, timestamp);
        proof {
            let h: Seq<RecordView> = history@;
            assert(h.drop_last() =~= old(history)@);
        }
        RenameResult { renamed, errors, record_id: record.id }
    }
}

} // verus!
