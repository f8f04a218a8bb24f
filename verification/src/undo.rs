//! The history of performed renames, newest last, so that the last batch
//! can be undone. Each batch gets the next id, starting from 1.
use vstd::prelude::*;

verus! {

/// A point in time (UTC) as whole seconds since the Unix epoch and the
/// nanoseconds within that second; a record holds the time it was made,
/// which the caller reads from the clock.
#[derive(Debug, Clone, Copy, PartialEq, Eq, Structural)]
pub struct Timestamp {
    pub seconds: i64,
    pub nanos: u32,
}

/// One performed rename, by file name inside the batch's directory.
#[derive(Debug)]
pub struct RenameOp {
    pub from: String,
    pub to: String,
}

impl View for RenameOp {
    type V = (Seq<char>, Seq<char>);

    open spec fn view(&self) -> (Seq<char>, Seq<char>) {
        (self.from@, self.to@)
    }
}

impl Clone for RenameOp {
    fn clone(&self) -> (r: Self)
        ensures
            r@ == self@,
    {
        RenameOp { from: self.from.clone(), to: self.to.clone() }
    }
}

/// The views of a sequence of rename operations.
pub open spec fn op_views(ops: Seq<RenameOp>) -> Seq<(Seq<char>, Seq<char>)> {
    ops.map_values(|o: RenameOp| o@)
}

/// A batch of renames performed in one directory at one time.
#[derive(Debug)]
pub struct RenameRecord {
    pub id: u64,
    pub timestamp: Timestamp,
    pub directory: String,
    pub operations: Vec<RenameOp>,
}

/// What a record holds: id, time, directory and operations.
pub type RecordView = (u64, Timestamp, Seq<char>, Seq<(Seq<char>, Seq<char>)>);

impl View for RenameRecord {
    type V = RecordView;

    open spec fn view(&self) -> RecordView {
        (self.id, self.timestamp, self.directory@, op_views(self.operations@))
    }
}

/// Copies of the operations.
pub fn clone_ops(ops: &Vec<RenameOp>) -> (r: Vec<RenameOp>)
    ensures
        op_views(r@) == op_views(ops@),
{
    let mut r: Vec<RenameOp> = Vec::new();
    let mut i: usize = 0;
    while i < ops.len()
        invariant
            i <= ops@.len(),
            op_views(r@) == op_views(ops@).take(i as int),
        decreases ops@.len() - i,
    {
        let o = ops[i].clone();
        proof {
            assert(o@ == ops@[i as int]@);
            assert(op_views(r@.push(o)) =~= op_views(r@).push(o@));
            assert(op_views(ops@).take(i + 1) =~= op_views(ops@).take(i as int).push(
                ops@[i as int]@,
            ));
        }
        r.push(o);
        i = i + 1;
    }
    assert(op_views(ops@).take(ops@.len() as int) =~= op_views(ops@));
    r
}

impl Clone for RenameRecord {
    fn clone(&self) -> (r: Self)
        ensures
            r@ == self@,
    {
        RenameRecord {
            id: self.id,
            timestamp: self.timestamp,
            directory: self.directory.clone(),
            operations: clone_ops(&self.operations),
        }
    }
}

/// The views of a sequence of records.
pub open spec fn record_views(records: Seq<RenameRecord>) -> Seq<RecordView> {
    records.map_values(|r: RenameRecord| r@)
}

/// Ids strictly increasing along the history, all below `next_id`.
pub open spec fn ids_ordered(history: Seq<RecordView>, next_id: u64) -> bool {
    &&& forall|i: int, j: int| 0 <= i < j < history.len() ==> history[i].0 < history[j].0
    &&& forall|i: int| 0 <= i < history.len() ==> history[i].0 < next_id
}

/// The rename history: performed batches, newest last, and the id the next
/// batch gets.
pub struct UndoManager {
    history: Vec<RenameRecord>,
    next_id: u64,
}

impl View for UndoManager {
    type V = Seq<RecordView>;

    closed spec fn view(&self) -> Seq<RecordView> {
        record_views(self.history@)
    }
}

impl UndoManager {
    /// The id the next recorded batch gets.
    pub closed spec fn next_record_id(&self) -> u64 {
        self.next_id
    }

    #[verifier::type_invariant]
    spec fn well_ordered(&self) -> bool {
        &&& self.next_id >= 1
        &&& ids_ordered(record_views(self.history@), self.next_id)
    }

    /// An empty history; the first batch gets id 1.
    pub fn new() -> (m: Self)
        ensures
            m@ == Seq::<RecordView>::empty(),
            m.next_record_id() == 1,
    {
        let m = UndoManager { history: Vec::new(), next_id: 1 };
        assert(record_views(m.history@) =~= Seq::<RecordView>::empty());
        m
    }

    /// The id the next recorded batch gets.
    pub fn next_id(&self) -> (r: u64)
        ensures
            r == self.next_record_id(),
    {
        self.next_id
    }

    /// Records a batch performed in `directory` at `timestamp` (the current
    /// time, read by the caller): it gets the next id, is appended to the
    /// history, and a copy is returned.
    pub fn record(
        &mut self,
        directory: String,
        operations: Vec<RenameOp>,
        timestamp: Timestamp,
    ) -> (r: RenameRecord)
        requires
            old(self).next_record_id() < u64::MAX,
        ensures
            r@.0 == old(self).next_record_id(),
            r@.2 == directory@,
            r@.3 == op_views(operations@),
            r.timestamp == timestamp,
            final(self)@ == old(self)@.push(r@),
            final(self).next_record_id() == old(self).next_record_id() + 1,
    {
        proof {
            use_type_invariant(&*self);
        }
        let id = self.next_id;
        let record = RenameRecord { id, timestamp, directory, operations };
        let copy = record.clone();
        let ghost before = record_views(self.history@);
        self.next_id = id + 1;
        let mut history: Vec<RenameRecord> = Vec::new();
        std::mem::swap(&mut history, &mut self.history);
        history.push(copy);
        proof {
            assert(record_views(history@) =~= before.push(record@));
        }
        self.history = history;
        record
    }

    /// Takes the newest batch off the history and returns it; with an empty
    /// history, fails with `Aucune opération à annuler` and changes nothing.
    /// Undoing the renames on disk is the caller's part (see `undo_steps`).
    pub fn undo_last(&mut self) -> (r: Result<RenameRecord, String>)
        ensures
            final(self).next_record_id() == old(self).next_record_id(),
            old(self)@.len() == 0 ==> (r matches Err(e) && e@ == "Aucune opération à annuler"@
                && final(self)@ == old(self)@),
            old(self)@.len() > 0 ==> (r matches Ok(rec) && rec@ == old(self)@.last()
                && final(self)@ == old(self)@.drop_last()),
    {
        proof {
            use_type_invariant(&*self);
        }
        let ghost before = record_views(self.history@);
        let mut history: Vec<RenameRecord> = Vec::new();
        std::mem::swap(&mut history, &mut self.history);
        let popped = history.pop();
        proof {
            if popped is Some {
                assert(record_views(history@) =~= before.drop_last());
            } else {
                assert(record_views(history@) =~= before);
            }
        }
        self.history = history;
        match popped {
            Some(rec) => Ok(rec),
            None => Err(String::from_str("Aucune opération à annuler")),
        }
    }

    /// A copy of the history, oldest first; ids increase along it and stay
    /// below the next id.
    pub fn get_history(&self) -> (r: Vec<RenameRecord>)
        ensures
            record_views(r@) == self@,
            ids_ordered(self@, self.next_record_id()),
    {
        proof {
            use_type_invariant(self);
        }
        let mut r: Vec<RenameRecord> = Vec::new();
        let mut i: usize = 0;
        while i < self.history.len()
            invariant
                i <= self.history@.len(),
                record_views(r@) == record_views(self.history@).take(i as int),
            decreases self.history@.len() - i,
        {
            let c = self.history[i].clone();
            proof {
                assert(c@ == self.history@[i as int]@);
                assert(record_views(r@.push(c)) =~= record_views(r@).push(c@));
                assert(record_views(self.history@).take(i + 1) =~= record_views(
                    self.history@,
                ).take(i as int).push(self.history@[i as int]@));
            }
            r.push(c);
            i = i + 1;
        }
        assert(record_views(self.history@).take(self.history@.len() as int) =~= record_views(
            self.history@,
        ));
        r
    }
}

/// The renames that undo a batch, in the order to perform them: newest
/// first, each from its new name back to its old one.
pub open spec fn undo_plan(ops: Seq<(Seq<char>, Seq<char>)>) -> Seq<(Seq<char>, Seq<char>)> {
    Seq::new(ops.len(), |k: int| (ops[ops.len() - 1 - k].1, ops[ops.len() - 1 - k].0))
}

/// The renames that undo a batch (see `undo_plan`).
pub fn undo_steps(record: &RenameRecord) -> (r: Vec<RenameOp>)
    ensures
        op_views(r@) == undo_plan(record@.3),
{
    let ghost ops = op_views(record.operations@);
    let n = record.operations.len();
    let mut r: Vec<RenameOp> = Vec::new();
    let mut k: usize = 0;
    while k < n
        invariant
            n == record.operations@.len(),
            ops == op_views(record.operations@),
            k <= n,
            op_views(r@) == undo_plan(ops).take(k as int),
        decreases n - k,
    {
        let op = &record.operations[n - 1 - k];
        let step = RenameOp { from: op.to.clone(), to: op.from.clone() };
        proof {
            assert(ops[n - 1 - k] == op@);
            assert(op_views(r@.push(step)) =~= op_views(r@).push(step@));
            assert(undo_plan(ops).take(k + 1) =~= undo_plan(ops).take(k as int).push(
                undo_plan(ops)[k as int],
            ));
        }
        r.push(step);
        k = k + 1;
    }
    assert(undo_plan(ops).take(n as int) =~= undo_plan(ops));
    r
}

/// The message for an undo step (see `undo_steps`) that failed:
/// `Erreur lors de l'annulation de <step.from> → <step.to>: <error>`, that
/// is, from the batch's new name back to its old one.
pub fn undo_failure_message(step: &RenameOp, error: &str) -> (r: String)
    ensures
        r@ == "Erreur lors de l'annulation de "@ + step.from@ + " → "@ + step.to@ + ": "@ + error@,
{
    let mut m = String::from_str("Erreur lors de l'annulation de ");
    m.append(step.from.as_str());
    m.append(" → ");
    m.append(step.to.as_str());
    m.append(": ");
    m.append(error);
    m
}

/// Recording a batch and then undoing the last batch gives that batch back
/// and leaves the history as it was before the recording (`record` appends
/// to the history; `undo_last` takes its last entry off).
pub proof fn lemma_undo_after_record(history: Seq<RecordView>, rec: RecordView)
    ensures
        history.push(rec).len() > 0,
        history.push(rec).last() == rec,
        history.push(rec).drop_last() == history,
{
    assert(history.push(rec).drop_last() =~= history);
}

/// The undo plan of an undo plan is the batch itself: undoing an undo
/// performs the original renames again, in their order.
pub proof fn lemma_undo_plan_twice(ops: Seq<(Seq<char>, Seq<char>)>)
    ensures
        undo_plan(undo_plan(ops)) == ops,
{
    assert(undo_plan(undo_plan(ops)) =~= ops);
}


/// A directory seen as the set of names in it, after renaming `op.0` to
/// `op.1`.
pub open spec fn renamed_in(dir: Set<Seq<char>>, op: (Seq<char>, Seq<char>)) -> Set<Seq<char>> {
    dir.remove(op.0).insert(op.1)
}

/// Performs the renames one after the other on a directory seen as a set
/// of names. Each must find its old name present and its new name free (as
/// a performed rename did); `None` when one does not.
pub open spec fn run_renames(dir: Set<Seq<char>>, ops: Seq<(Seq<char>, Seq<char>)>) -> Option<
    Set<Seq<char>>,
>
    decreases ops.len(),
{
    if ops.len() == 0 {
        Some(dir)
    } else if dir.contains(ops[0].0) && !dir.contains(ops[0].1) {
        run_renames(renamed_in(dir, ops[0]), ops.drop_first())
    } else {
        None
    }
}

proof fn lemma_run_renames_append(
    dir: Set<Seq<char>>,
    a: Seq<(Seq<char>, Seq<char>)>,
    b: Seq<(Seq<char>, Seq<char>)>,
)
    ensures
        run_renames(dir, a + b) == match run_renames(dir, a) {
            Some(mid) => run_renames(mid, b),
            None => None,
        },
    decreases a.len(),
{
    if a.len() > 0 {
        assert((a + b).drop_first() =~= a.drop_first() + b);
        assert((a + b)[0] == a[0]);
        if dir.contains(a[0].0) && !dir.contains(a[0].1) {
            lemma_run_renames_append(renamed_in(dir, a[0]), a.drop_first(), b);
        }
    } else {
        assert(a + b =~= b);
    }
}

/// Undoing restores the directory: when the renames of a batch could be
/// performed one after the other, the renames of its undo plan can be
/// performed on the result, and they give back the directory as it was.
pub proof fn lemma_undo_plan_restores(dir: Set<Seq<char>>, ops: Seq<(Seq<char>, Seq<char>)>)
    requires
        run_renames(dir, ops) is Some,
    ensures
        run_renames(run_renames(dir, ops)->0, undo_plan(ops)) == Some(dir),
    decreases ops.len(),
{
    if ops.len() > 0 {
        let o = ops[0];
        let rest = ops.drop_first();
        let mid = renamed_in(dir, o);
        assert(dir.contains(o.0) && !dir.contains(o.1));
        assert(run_renames(dir, ops) == run_renames(mid, rest));
        lemma_undo_plan_restores(mid, rest);
        let back = (o.1, o.0);
        assert(undo_plan(ops) =~= undo_plan(rest) + seq![back]);
        let after = run_renames(dir, ops)->0;
        lemma_run_renames_append(after, undo_plan(rest), seq![back]);
        assert(o.0 != o.1);
        assert(mid.contains(o.1));
        assert(!mid.contains(o.0));
        assert(renamed_in(mid, back) =~= dir);
        assert(seq![back].drop_first() =~= Seq::<(Seq<char>, Seq<char>)>::empty());
        assert(run_renames(mid, seq![back]) == run_renames(renamed_in(mid, back), seq![back].drop_first()));
        assert(run_renames(mid, seq![back]) == Some(dir));
    } else {
        assert(undo_plan(ops) =~= Seq::<(Seq<char>, Seq<char>)>::empty());
    }
}


/// What one call does to the next id: `record` raises it by one, and
/// `undo_last` keeps it (`nexts[i]` is the next id before call `i`).
pub open spec fn next_id_step(nexts: Seq<u64>, i: int) -> bool {
    nexts[i + 1] == nexts[i] || nexts[i + 1] == nexts[i] + 1
}

proof fn lemma_next_id_never_decreases(nexts: Seq<u64>, from: int, k: int)
    requires
        forall|i: int| 0 <= i < nexts.len() - 1 ==> #[trigger] next_id_step(nexts, i),
        0 <= from <= k < nexts.len(),
    ensures
        nexts[k] >= nexts[from],
    decreases k - from,
{
    if k > from {
        lemma_next_id_never_decreases(nexts, from, k - 1);
        assert(next_id_step(nexts, k - 1));
    }
}

/// Record ids are never reused, even across undos: along a run of calls on
/// one history, where `nexts[i]` is the next id before call `i`, each call
/// a `record` (which gets the id `nexts[i]` and raises it by one) or an
/// `undo_last` (which keeps it), a batch recorded at a later call gets a
/// larger id than the one recorded at call `first`.
pub proof fn lemma_ids_never_reused(nexts: Seq<u64>, first: int, later: int)
    requires
        forall|i: int| 0 <= i < nexts.len() - 1 ==> #[trigger] next_id_step(nexts, i),
        0 <= first < later < nexts.len(),
        nexts[first + 1] == nexts[first] + 1,
    ensures
        nexts[later] > nexts[first],
{
    lemma_next_id_never_decreases(nexts, first + 1, later);
}

} // verus!
