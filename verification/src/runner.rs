//! The migration runner: the engine's state machine for one invocation.
//!
//! One run reconciles the discovered migration files against the history
//! table loaded at the start, decides per file whether to skip or execute
//! it, and records the outcome.  The runner itself performs no I/O: the
//! caller asks it for the next file to execute ([`MigrationRun::next_action`]),
//! executes that file's SQL — isolated, so that one failing script cannot
//! poison the rest of the run (a savepoint per file) — and reports the
//! result back ([`MigrationRun::report_success`], [`MigrationRun::report_failure`]).
//! On success the runner hands back the bookkeeping the history store must
//! mirror: insert a fresh record, or mark an existing one as run.

use vstd::prelude::*;

use crate::policy::{skip_migration, spec_skip_migration};
use crate::record::{
    find_rec, has_name, loaded_table_wf, records_view, FileModel, MigrationFile, MigrationRecord,
    RecordModel, find_record_index,
};

verus! {

/// The models of a sequence of migration files.
pub open spec fn files_model(fs: Seq<MigrationFile>) -> Seq<FileModel> {
    fs.map_values(|f: MigrationFile| f@)
}

/// No two files share a name.  Reconciliation is by name, so two files
/// of one name would fight over one history record; a directory listing
/// cannot produce two entries of the same name.
pub open spec fn file_names_unique(files: Seq<FileModel>) -> bool {
    forall|i: int, j: int| 0 <= i < j < files.len() ==> files[i].name != files[j].name
}

/// The skip decision for one file, taken against the history loaded at
/// the start of the run: a matching record supplies the real `ran` flag,
/// an unmatched file falls back to its own (always false) flag, as in a
/// bootstrap run.
pub open spec fn spec_file_skip(t0: Seq<RecordModel>, f: FileModel, run_test: bool) -> bool {
    match find_rec(t0, f.name) {
        Some(r) => spec_skip_migration(r.ran, f.name, run_test),
        None => spec_skip_migration(f.ran, f.name, run_test),
    }
}

/// The record inserted for a file first executed in this run: the store
/// has not yet assigned its id and timestamp.
pub open spec fn fresh_record(f: FileModel) -> RecordModel {
    RecordModel { id: None, name: f.name, path: f.path, ran: true, timestamp: None }
}

/// Marks a record as run if it bears the given store id.
pub open spec fn mark_one(r: RecordModel, id: u32) -> RecordModel {
    if r.id == Some(id) {
        RecordModel { id: r.id, name: r.name, path: r.path, ran: true, timestamp: r.timestamp }
    } else {
        r
    }
}

/// Marks every record bearing the given store id as run.
pub open spec fn mark_ran_seq(t: Seq<RecordModel>, id: u32) -> Seq<RecordModel> {
    t.map_values(|r: RecordModel| mark_one(r, id))
}

/// How the table changes when one file's SQL has been executed with
/// result `ok`: on success a matched file marks its record as run and an
/// unmatched file inserts a fresh record; on failure the table is left in
/// its prior state.
pub open spec fn step_table(
    t0: Seq<RecordModel>,
    t: Seq<RecordModel>,
    f: FileModel,
    ok: bool,
) -> Seq<RecordModel> {
    if !ok {
        t
    } else {
        match find_rec(t0, f.name) {
            Some(r) => match r.id {
                Some(id) => mark_ran_seq(t, id),
                None => t,
            },
            None => t.push(fresh_record(f)),
        }
    }
}

/// The history table after processing `files` in order against the
/// initially loaded table `t0`, starting from the current table `t`.
/// `oks[i]` tells whether file `i`'s SQL would execute successfully; it
/// is irrelevant for skipped files.
pub open spec fn run_table(
    t0: Seq<RecordModel>,
    t: Seq<RecordModel>,
    files: Seq<FileModel>,
    run_test: bool,
    oks: Seq<bool>,
) -> Seq<RecordModel>
    decreases files.len(),
{
    if files.len() == 0 {
        t
    } else {
        let t1 = if spec_file_skip(t0, files[0], run_test) {
            t
        } else {
            step_table(t0, t, files[0], oks[0])
        };
        run_table(t0, t1, files.drop_first(), run_test, oks.drop_first())
    }
}

/// The per-file outcome of a run, recorded so that callers can act on
/// it: the file was applied, skipped, or failed.
#[derive(Debug, PartialEq, Eq)]
pub enum RunOutcome {
    Applied,
    Skipped,
    Failed(String),
}

/// Model of an outcome; the reason carried by a failure is free-form text
/// from the caller and plays no part in the run's logic.
pub enum OutcomeModel {
    Applied,
    Skipped,
    Failed,
}

impl View for RunOutcome {
    type V = OutcomeModel;

    open spec fn view(&self) -> OutcomeModel {
        match self {
            RunOutcome::Applied => OutcomeModel::Applied,
            RunOutcome::Skipped => OutcomeModel::Skipped,
            RunOutcome::Failed(_) => OutcomeModel::Failed,
        }
    }
}

/// The models of a sequence of outcomes.
pub open spec fn outcomes_model(os: Seq<RunOutcome>) -> Seq<OutcomeModel> {
    os.map_values(|o: RunOutcome| o@)
}

/// The outcome of one file, given the loaded table and its execution
/// result.
pub open spec fn spec_outcome(t0: Seq<RecordModel>, f: FileModel, run_test: bool, ok: bool)
    -> OutcomeModel {
    if spec_file_skip(t0, f, run_test) {
        OutcomeModel::Skipped
    } else if ok {
        OutcomeModel::Applied
    } else {
        OutcomeModel::Failed
    }
}

/// The outcomes of processing `files` in order.
pub open spec fn run_outcomes(
    t0: Seq<RecordModel>,
    files: Seq<FileModel>,
    run_test: bool,
    oks: Seq<bool>,
) -> Seq<OutcomeModel>
    decreases files.len(),
{
    if files.len() == 0 {
        Seq::empty()
    } else {
        seq![spec_outcome(t0, files[0], run_test, oks[0])] + run_outcomes(
            t0,
            files.drop_first(),
            run_test,
            oks.drop_first(),
        )
    }
}

/// What the runner asks the caller to do next: read this file and execute
/// its SQL against the run's transaction, inside a savepoint of its own.
pub struct ExecRequest {
    pub name: String,
    pub path: String,
}

/// The bookkeeping the history store must mirror after a successful
/// execution.
#[derive(Debug, PartialEq, Eq)]
pub enum HistoryAction {
    /// Append a new record for a file executed for the first time.
    Insert { name: String, path: String, ran: bool },
    /// Set `ran = true` on the existing record with this store id.
    MarkRan { id: u32 },
}

/// The decision precomputed for one file: whether to skip it, and the
/// store id to update when a history record matched it.
#[derive(Clone, Copy)]
pub struct PlanEntry {
    pub skip: bool,
    pub id_to_update: Option<u32>,
}

/// The plan entry agrees with the decision the specification takes for
/// this file.
pub open spec fn plan_entry_ok(
    t0: Seq<RecordModel>,
    f: FileModel,
    run_test: bool,
    e: PlanEntry,
) -> bool {
    &&& e.skip == spec_file_skip(t0, f, run_test)
    &&& e.id_to_update == (match find_rec(t0, f.name) {
        Some(r) => r.id,
        None => None::<u32>,
    })
}

/// The state machine of one run.
pub struct MigrationRun {
    /// The files discovered for this run, in discovery order.
    pub files: Vec<MigrationFile>,
    /// The mode flag: widen the run to test migrations.
    pub run_test_migrations: bool,
    /// The decision taken for each file against the loaded history.
    pub plan: Vec<PlanEntry>,
    /// The runner's copy of the history table, kept in step with the
    /// bookkeeping actions it hands out.
    pub table: Vec<MigrationRecord>,
    /// The model of the history table as loaded; every decision is taken
    /// against it.
    pub history0: Ghost<Seq<RecordModel>>,
    /// How many files have been resolved (skipped, applied or failed).
    pub idx: usize,
    /// An execution request has been handed out and not yet reported.
    pub pending: bool,
    /// The outcome of each resolved file.
    pub outcomes: Vec<RunOutcome>,
    /// The reported execution results, one per resolved file (false as a
    /// placeholder for skipped files).
    pub oks: Ghost<Seq<bool>>,
}

impl MigrationRun {
    /// The run's invariant: the plan matches the specification's
    /// decisions, and outcomes and table are exactly what processing the
    /// resolved prefix of the files yields.
    pub open spec fn wf(&self) -> bool {
        let fm = files_model(self.files@);
        let t0 = self.history0@;
        &&& loaded_table_wf(t0)
        &&& forall|i: int| 0 <= i < fm.len() ==> !(#[trigger] fm[i]).ran
        &&& file_names_unique(fm)
        &&& self.plan@.len() == self.files@.len()
        &&& forall|i: int|
            0 <= i < self.plan@.len() ==> plan_entry_ok(
                t0,
                fm[i],
                self.run_test_migrations,
                #[trigger] self.plan@[i],
            )
        &&& self.idx <= self.files@.len()
        &&& self.oks@.len() == self.idx
        &&& self.outcomes@.len() == self.idx
        &&& outcomes_model(self.outcomes@) == run_outcomes(
            t0,
            fm.take(self.idx as int),
            self.run_test_migrations,
            self.oks@,
        )
        &&& records_view(self.table@) == run_table(
            t0,
            t0,
            fm.take(self.idx as int),
            self.run_test_migrations,
            self.oks@,
        )
        &&& self.pending ==> self.idx < self.files@.len() && !spec_file_skip(
            t0,
            fm[self.idx as int],
            self.run_test_migrations,
        )
    }

    /// The run is over: every file has been resolved.
    pub open spec fn spec_done(&self) -> bool {
        self.idx == self.files@.len() && !self.pending
    }

    /// Builds the run: takes the discovered files, the history records
    /// `loadAll` returned, and the mode flag, and decides the fate of
    /// each file against that history.  An empty history makes this a
    /// bootstrap run; the decisions fall out the same way, since no file
    /// can then match a record.
    pub fn new(
        files: Vec<MigrationFile>,
        history: Vec<MigrationRecord>,
        run_test_migrations: bool,
    ) -> (s: MigrationRun)
        requires
            loaded_table_wf(records_view(history@)),
            forall|i: int| 0 <= i < files@.len() ==> !(#[trigger] files@[i])@.ran,
            file_names_unique(files_model(files@)),
        ensures
            s.wf(),
            !s.pending,
            s.idx == 0,
            s.files@ == files@,
            s.run_test_migrations == run_test_migrations,
            s.history0@ == records_view(history@),
            s.table@ == history@,
    {
        let ghost t0 = records_view(history@);
        let ghost fm = files_model(files@);
        let n = files.len();
        let mut plan: Vec<PlanEntry> = Vec::new();
        let mut j: usize = 0;
        while j < n
            invariant
                n == files@.len(),
                j <= n,
                t0 == records_view(history@),
                fm == files_model(files@),
                plan@.len() == j,
                forall|i: int| 0 <= i < fm.len() ==> !(#[trigger] fm[i]).ran,
                forall|i: int|
                    0 <= i < j ==> plan_entry_ok(t0, fm[i], run_test_migrations, #[trigger] plan@[i]),
            decreases n - j,
        {
            let file = &files[j];
            assert(fm[j as int] == file@);
            let entry = match find_record_index(&history, &file.name) {
                Some(k) => {
                    let rec = &history[k];
                    proof {
                        assert(records_view(history@)[k as int] == history@[k as int]@);
                        assert(find_rec(t0, file.name@) == Some(history@[k as int]@));
                    }
                    PlanEntry {
                        skip: skip_migration(rec.ran, file.name.as_str(), run_test_migrations),
                        id_to_update: rec.id,
                    }
                },
                None => {
                    proof {
                        crate::record::lemma_find_rec_has_name(t0, file.name@);
                        assert(find_rec(t0, file.name@) is None);
                    }
                    PlanEntry {
                        skip: skip_migration(file.ran, file.name.as_str(), run_test_migrations),
                        id_to_update: None,
                    }
                },
            };
            assert(plan_entry_ok(t0, fm[j as int], run_test_migrations, entry));
            plan.push(entry);
            j += 1;
        }
        let s = MigrationRun {
            files,
            run_test_migrations,
            plan,
            table: history,
            history0: Ghost(t0),
            idx: 0,
            pending: false,
            outcomes: Vec::new(),
            oks: Ghost(Seq::empty()),
        };
        proof {
            assert(files_model(s.files@).take(0) =~= Seq::<FileModel>::empty());
            assert(outcomes_model(s.outcomes@) =~= Seq::<OutcomeModel>::empty());
            assert(run_outcomes(t0, files_model(s.files@).take(0), run_test_migrations, s.oks@)
                =~= Seq::<OutcomeModel>::empty());
        }
        s
    }

    /// Resolves skipped files and hands out the next file whose SQL must
    /// be executed, or reports the run complete.  While a request is out,
    /// the runner waits for its result before going on.
    pub fn next_action(&mut self) -> (r: Option<ExecRequest>)
        requires
            old(self).wf(),
            !old(self).pending,
        ensures
            final(self).wf(),
            final(self).files@ == old(self).files@,
            final(self).history0@ == old(self).history0@,
            final(self).run_test_migrations == old(self).run_test_migrations,
            final(self).table@ == old(self).table@,
            // the call resolves a (possibly empty) run of skipped files and
            // nothing else: it owes the caller the first pending file
            final(self).idx >= old(self).idx,
            forall|i: int|
                old(self).idx <= i < final(self).idx ==> spec_file_skip(
                    old(self).history0@,
                    files_model(old(self).files@)[i],
                    old(self).run_test_migrations,
                ),
            outcomes_model(final(self).outcomes@) == outcomes_model(old(self).outcomes@)
                + Seq::new(
                (final(self).idx - old(self).idx) as nat,
                (|k: int| OutcomeModel::Skipped),
            ),
            final(self).oks@ == old(self).oks@ + Seq::new(
                (final(self).idx - old(self).idx) as nat,
                (|k: int| false),
            ),
            match r {
                Some(req) => {
                    &&& final(self).pending
                    &&& final(self).idx < final(self).files@.len()
                    &&& req.name@ == final(self).files@[final(self).idx as int]@.name
                    &&& req.path@ == final(self).files@[final(self).idx as int]@.path
                    &&& !spec_file_skip(
                        final(self).history0@,
                        final(self).files@[final(self).idx as int]@,
                        final(self).run_test_migrations,
                    )
                },
                None => {
                    &&& final(self).spec_done()
                    &&& records_view(final(self).table@) == run_table(
                        final(self).history0@,
                        final(self).history0@,
                        files_model(final(self).files@),
                        final(self).run_test_migrations,
                        final(self).oks@,
                    )
                    &&& outcomes_model(final(self).outcomes@) == run_outcomes(
                        final(self).history0@,
                        files_model(final(self).files@),
                        final(self).run_test_migrations,
                        final(self).oks@,
                    )
                },
            },
    {
        let ghost t0 = self.history0@;
        let ghost fm = files_model(self.files@);
        let n = self.files.len();
        proof {
            assert(outcomes_model(self.outcomes@) =~= outcomes_model(old(self).outcomes@)
                + Seq::new(0, |k: int| OutcomeModel::Skipped));
            assert(self.oks@ =~= old(self).oks@ + Seq::new(0, |k: int| false));
        }
        while self.idx < n
            invariant
                self.wf(),
                !self.pending,
                n == self.files@.len(),
                t0 == self.history0@,
                fm == files_model(self.files@),
                self.files@ == old(self).files@,
                self.history0@ == old(self).history0@,
                self.run_test_migrations == old(self).run_test_migrations,
                self.table@ == old(self).table@,
                self.idx >= old(self).idx,
                forall|i: int|
                    old(self).idx <= i < self.idx ==> spec_file_skip(
                        t0,
                        fm[i],
                        self.run_test_migrations,
                    ),
                outcomes_model(self.outcomes@) == outcomes_model(old(self).outcomes@) + Seq::new(
                    (self.idx - old(self).idx) as nat,
                    (|k: int| OutcomeModel::Skipped),
                ),
                self.oks@ == old(self).oks@ + Seq::new(
                    (self.idx - old(self).idx) as nat,
                    (|k: int| false),
                ),
            decreases n - self.idx,
        {
            let e = self.plan[self.idx];
            if e.skip {
                let ghost pre_out = self.outcomes@;
                let ghost pre_oks = self.oks@;
                let ghost pre_idx = self.idx as int;
                proof {
                    assert(plan_entry_ok(t0, fm[pre_idx], self.run_test_migrations, e));
                }
                self.outcomes.push(RunOutcome::Skipped);
                proof {
                    self.oks@ = self.oks@.push(false);
                }
                self.idx = self.idx + 1;
                proof {
                    lemma_resolve_step(t0, fm, self.run_test_migrations, pre_idx, pre_oks, false);
                    assert(outcomes_model(self.outcomes@) =~= outcomes_model(pre_out).push(
                        OutcomeModel::Skipped,
                    ));
                    assert(spec_outcome(t0, fm[pre_idx], self.run_test_migrations, false)
                        == OutcomeModel::Skipped);
                    assert(outcomes_model(self.outcomes@) =~= outcomes_model(old(self).outcomes@)
                        + Seq::new(
                        (self.idx - old(self).idx) as nat,
                        (|k: int| OutcomeModel::Skipped),
                    ));
                    assert(self.oks@ =~= old(self).oks@ + Seq::new(
                        (self.idx - old(self).idx) as nat,
                        (|k: int| false),
                    ));
                }
            } else {
                self.pending = true;
                let f = &self.files[self.idx];
                proof {
                    assert(plan_entry_ok(t0, fm[self.idx as int], self.run_test_migrations, e));
                    assert(fm[self.idx as int] == f@);
                }
                return Some(ExecRequest { name: f.name.clone(), path: f.path.clone() });
            }
        }
        proof {
            assert(fm.take(self.idx as int) =~= fm);
        }
        None
    }

    /// Records a successful execution of the pending file and returns the
    /// bookkeeping the history store must mirror: mark the matched record
    /// as run, or insert a fresh one for a file seen for the first time.
    pub fn report_success(&mut self) -> (a: HistoryAction)
        requires
            old(self).wf(),
            old(self).pending,
        ensures
            final(self).wf(),
            !final(self).pending,
            final(self).files@ == old(self).files@,
            final(self).history0@ == old(self).history0@,
            final(self).run_test_migrations == old(self).run_test_migrations,
            final(self).idx == old(self).idx + 1,
            outcomes_model(final(self).outcomes@) == outcomes_model(old(self).outcomes@).push(
                OutcomeModel::Applied,
            ),
            records_view(final(self).table@) == step_table(
                old(self).history0@,
                records_view(old(self).table@),
                old(self).files@[old(self).idx as int]@,
                true,
            ),
            match a {
                HistoryAction::Insert { name, path, ran } => {
                    &&& name@ == old(self).files@[old(self).idx as int]@.name
                    &&& path@ == old(self).files@[old(self).idx as int]@.path
                    &&& ran
                    &&& !has_name(old(self).history0@, name@)
                },
                HistoryAction::MarkRan { id } => {
                    &&& find_rec(
                        old(self).history0@,
                        old(self).files@[old(self).idx as int]@.name,
                    ) matches Some(r) && r.id == Some(id)
                },
            },
    {
        let ghost t0 = self.history0@;
        let ghost fm = files_model(self.files@);
        let n = self.files.len();
        assert(self.idx < n);
        let e = self.plan[self.idx];
        proof {
            assert(plan_entry_ok(t0, fm[self.idx as int], self.run_test_migrations, e));
            crate::record::lemma_find_rec_has_name(t0, fm[self.idx as int].name);
        }
        self.outcomes.push(RunOutcome::Applied);
        let ghost old_oks = self.oks@;
        let ghost old_idx = self.idx as int;
        let ghost old_table = records_view(self.table@);
        proof {
            self.oks@ = self.oks@.push(true);
        }
        let j = self.idx;
        self.idx = self.idx + 1;
        self.pending = false;
        let a = match e.id_to_update {
            Some(id) => {
                mark_ran_vec(&mut self.table, id);
                HistoryAction::MarkRan { id }
            },
            None => {
                let f = &self.files[j];
                proof {
                    assert(fm[j as int] == f@);
                }
                let rec = MigrationRecord {
                    id: None,
                    name: f.name.clone(),
                    path: f.path.clone(),
                    ran: true,
                    timestamp: None,
                };
                let name = f.name.clone();
                let path = f.path.clone();
                self.table.push(rec);
                proof {
                    assert(records_view(self.table@) =~= old_table.push(fresh_record(fm[j as int])));
                }
                HistoryAction::Insert { name, path, ran: true }
            },
        };
        proof {
            lemma_resolve_step(t0, fm, self.run_test_migrations, old_idx, old_oks, true);
            assert(outcomes_model(self.outcomes@) =~= outcomes_model(
                old(self).outcomes@,
            ).push(OutcomeModel::Applied));
            assert(records_view(self.table@) == step_table(t0, old_table, fm[old_idx], true));
        }
        a
    }

    /// Records a failed execution of the pending file: the run goes on
    /// with the remaining files, the history is left in its prior state,
    /// and the failure is kept with the reason the caller supplies.
    pub fn report_failure(&mut self, reason: String)
        requires
            old(self).wf(),
            old(self).pending,
        ensures
            final(self).wf(),
            !final(self).pending,
            final(self).files@ == old(self).files@,
            final(self).history0@ == old(self).history0@,
            final(self).run_test_migrations == old(self).run_test_migrations,
            final(self).idx == old(self).idx + 1,
            final(self).table@ == old(self).table@,
            outcomes_model(final(self).outcomes@) == outcomes_model(old(self).outcomes@).push(
                OutcomeModel::Failed,
            ),
    {
        let ghost t0 = self.history0@;
        let ghost fm = files_model(self.files@);
        let n = self.files.len();
        assert(self.idx < n);
        self.outcomes.push(RunOutcome::Failed(reason));
        let ghost old_oks = self.oks@;
        let ghost old_idx = self.idx as int;
        proof {
            self.oks@ = self.oks@.push(false);
        }
        self.idx = self.idx + 1;
        self.pending = false;
        proof {
            lemma_resolve_step(t0, fm, self.run_test_migrations, old_idx, old_oks, false);
            assert(outcomes_model(self.outcomes@) =~= outcomes_model(
                old(self).outcomes@,
            ).push(OutcomeModel::Failed));
        }
    }

    /// Every file has been resolved and no execution is outstanding.
    pub fn is_done(&self) -> (r: bool)
        ensures
            r == self.spec_done(),
    {
        self.idx == self.files.len() && !self.pending
    }
}

/// Sets `ran = true` on every record bearing the given store id.
fn mark_ran_vec(table: &mut Vec<MigrationRecord>, id: u32)
    ensures
        records_view(final(table)@) == mark_ran_seq(records_view(old(table)@), id),
{
    let n = table.len();
    let mut j: usize = 0;
    while j < n
        invariant
            n == table@.len(),
            n == old(table)@.len(),
            j <= n,
            forall|k: int| 0 <= k < j ==> (#[trigger] table@[k])@ == mark_one(old(table)@[k]@, id),
            forall|k: int| j <= k < n ==> (#[trigger] table@[k]) == old(table)@[k],
        decreases n - j,
    {
        let matches_id = match table[j].id {
            Some(x) => x == id,
            None => false,
        };
        if matches_id {
            table[j].ran = true;
        }
        assert(table@[j as int]@ == mark_one(old(table)@[j as int]@, id));
        j += 1;
    }
    proof {
        assert(records_view(table@) =~= mark_ran_seq(records_view(old(table)@), id)) by {
            assert forall|k: int| 0 <= k < n implies records_view(table@)[k] == mark_ran_seq(
                records_view(old(table)@),
                id,
            )[k] by {
                assert(table@[k]@ == mark_one(old(table)@[k]@, id));
            }
        }
    }
}

/// Resolving one more file extends the run's outcomes by that file's
/// outcome and steps the table accordingly.
proof fn lemma_resolve_step(
    t0: Seq<RecordModel>,
    fm: Seq<FileModel>,
    run_test: bool,
    i: int,
    oks: Seq<bool>,
    ok: bool,
)
    requires
        0 <= i < fm.len(),
        oks.len() == i,
    ensures
        run_outcomes(t0, fm.take(i + 1), run_test, oks.push(ok)) == run_outcomes(
            t0,
            fm.take(i),
            run_test,
            oks,
        ).push(spec_outcome(t0, fm[i], run_test, ok)),
        run_table(t0, t0, fm.take(i + 1), run_test, oks.push(ok)) == (if spec_file_skip(
            t0,
            fm[i],
            run_test,
        ) {
            run_table(t0, t0, fm.take(i), run_test, oks)
        } else {
            step_table(t0, run_table(t0, t0, fm.take(i), run_test, oks), fm[i], ok)
        }),
{
    assert(fm.take(i + 1) =~= fm.take(i).push(fm[i]));
    lemma_run_outcomes_snoc(t0, fm.take(i), run_test, oks, fm[i], ok);
    lemma_run_table_snoc(t0, t0, fm.take(i), run_test, oks, fm[i], ok);
}

/// Appending one file to a run processes it last.
proof fn lemma_run_outcomes_snoc(
    t0: Seq<RecordModel>,
    files: Seq<FileModel>,
    run_test: bool,
    oks: Seq<bool>,
    f: FileModel,
    ok: bool,
)
    requires
        oks.len() == files.len(),
    ensures
        run_outcomes(t0, files.push(f), run_test, oks.push(ok)) == run_outcomes(
            t0,
            files,
            run_test,
            oks,
        ).push(spec_outcome(t0, f, run_test, ok)),
    decreases files.len(),
{
    if files.len() == 0 {
        assert(files.push(f)[0] == f);
        assert(oks.push(ok)[0] == ok);
        assert(files.push(f).drop_first() =~= Seq::<FileModel>::empty());
        assert(run_outcomes(t0, files.push(f).drop_first(), run_test, oks.push(ok).drop_first())
            =~= Seq::<OutcomeModel>::empty());
        assert(run_outcomes(t0, files.push(f), run_test, oks.push(ok)) =~= run_outcomes(
            t0,
            files,
            run_test,
            oks,
        ).push(spec_outcome(t0, f, run_test, ok)));
    } else {
        assert(files.push(f).drop_first() =~= files.drop_first().push(f));
        assert(oks.push(ok).drop_first() =~= oks.drop_first().push(ok));
        assert(files.push(f)[0] == files[0]);
        assert(oks.push(ok)[0] == oks[0]);
        lemma_run_outcomes_snoc(t0, files.drop_first(), run_test, oks.drop_first(), f, ok);
        assert(run_outcomes(t0, files.push(f), run_test, oks.push(ok)) == seq![
            spec_outcome(t0, files[0], run_test, oks[0]),
        ] + run_outcomes(t0, files.drop_first(), run_test, oks.drop_first()).push(
            spec_outcome(t0, f, run_test, ok),
        ));
        assert(run_outcomes(t0, files.push(f), run_test, oks.push(ok)) =~= run_outcomes(
            t0,
            files,
            run_test,
            oks,
        ).push(spec_outcome(t0, f, run_test, ok)));
    }
}

/// Appending one file to a run steps the resulting table last.
proof fn lemma_run_table_snoc(
    t0: Seq<RecordModel>,
    t: Seq<RecordModel>,
    files: Seq<FileModel>,
    run_test: bool,
    oks: Seq<bool>,
    f: FileModel,
    ok: bool,
)
    requires
        oks.len() == files.len(),
    ensures
        run_table(t0, t, files.push(f), run_test, oks.push(ok)) == (if spec_file_skip(
            t0,
            f,
            run_test,
        ) {
            run_table(t0, t, files, run_test, oks)
        } else {
            step_table(t0, run_table(t0, t, files, run_test, oks), f, ok)
        }),
    decreases files.len(),
{
    if files.len() == 0 {
        assert(files.push(f)[0] == f);
        assert(oks.push(ok)[0] == ok);
        assert(files.push(f).drop_first() =~= Seq::<FileModel>::empty());
        let t1 = if spec_file_skip(t0, f, run_test) {
            t
        } else {
            step_table(t0, t, f, ok)
        };
        assert(run_table(t0, t, files.push(f), run_test, oks.push(ok)) == run_table(
            t0,
            t1,
            files.push(f).drop_first(),
            run_test,
            oks.push(ok).drop_first(),
        ));
        assert(run_table(t0, t, files, run_test, oks) == t);
    } else {
        assert(files.push(f).drop_first() =~= files.drop_first().push(f));
        assert(oks.push(ok).drop_first() =~= oks.drop_first().push(ok));
        assert(files.push(f)[0] == files[0]);
        assert(oks.push(ok)[0] == oks[0]);
        let t1 = if spec_file_skip(t0, files[0], run_test) {
            t
        } else {
            step_table(t0, t, files[0], oks[0])
        };
        lemma_run_table_snoc(t0, t1, files.drop_first(), run_test, oks.drop_first(), f, ok);
    }
}

} // verus!
