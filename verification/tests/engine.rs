use aromatic::record::{sort_migration_files, MigrationFile, MigrationRecord};
use aromatic::runner::{HistoryAction, MigrationRun, RunOutcome};

fn file(name: &str) -> MigrationFile {
    MigrationFile::new(name.to_string(), format!("migrations/{}", name))
}

/// Drives a run to completion, reporting the given result for each
/// executed file, and returns the bookkeeping actions handed out.
fn drive(run: &mut MigrationRun, ok: &dyn Fn(&str) -> bool) -> Vec<HistoryAction> {
    let mut actions = Vec::new();
    while let Some(req) = run.next_action() {
        if ok(&req.name) {
            actions.push(run.report_success());
        } else {
            run.report_failure(format!("SQL error in {}", req.name));
        }
    }
    actions
}

#[test]
fn files_sort_by_name_whatever_the_listing_order() {
    let files = vec![file("0010_z.sql"), file("0002_b.sql"), file("0001_a.sql")];
    let sorted = sort_migration_files(files);
    let names: Vec<&str> = sorted.iter().map(|f| f.name.as_str()).collect();
    assert_eq!(names, vec!["0001_a.sql", "0002_b.sql", "0010_z.sql"]);

    assert!(sort_migration_files(Vec::new()).is_empty());
    let one = sort_migration_files(vec![file("only.sql")]);
    assert_eq!(one.len(), 1);
    assert_eq!(one[0].name, "only.sql");
    assert_eq!(one[0].path, "migrations/only.sql");
}

#[test]
fn bootstrap_skips_test_migration_when_test_mode_off() {
    let files = vec![file("0001_init.sql"), file("0002_test_seed.sql")];
    let mut run = MigrationRun::new(files, Vec::new(), false);

    let req = run.next_action().expect("one file must execute");
    assert_eq!(req.name, "0001_init.sql");
    assert_eq!(req.path, "migrations/0001_init.sql");
    let action = run.report_success();
    assert_eq!(
        action,
        HistoryAction::Insert {
            name: "0001_init.sql".to_string(),
            path: "migrations/0001_init.sql".to_string(),
            ran: true,
        }
    );

    assert!(run.next_action().is_none());
    assert!(run.is_done());
    assert_eq!(run.outcomes, vec![RunOutcome::Applied, RunOutcome::Skipped]);
    assert_eq!(run.table.len(), 1);
    assert_eq!(run.table[0].name, "0001_init.sql");
    assert!(run.table[0].ran);
    assert_eq!(run.table[0].id, None);
}

#[test]
fn bootstrap_runs_test_migration_when_test_mode_on() {
    let files = vec![file("0001_init.sql"), file("0002_test_seed.sql")];
    let mut run = MigrationRun::new(files, Vec::new(), true);
    let actions = drive(&mut run, &|_| true);
    assert_eq!(actions.len(), 2);
    assert_eq!(run.outcomes, vec![RunOutcome::Applied, RunOutcome::Applied]);
    assert_eq!(run.table.len(), 2);
    assert_eq!(run.table[1].name, "0002_test_seed.sql");
    assert!(run.table[1].ran);
}

#[test]
fn failed_migration_is_isolated_and_leaves_no_record() {
    let files = vec![file("0001_bad.sql"), file("0002_good.sql")];
    let mut run = MigrationRun::new(files, Vec::new(), false);
    let actions = drive(&mut run, &|name| name != "0001_bad.sql");
    assert_eq!(actions.len(), 1);
    assert_eq!(
        run.outcomes,
        vec![
            RunOutcome::Failed("SQL error in 0001_bad.sql".to_string()),
            RunOutcome::Applied,
        ]
    );
    assert_eq!(run.table.len(), 1);
    assert_eq!(run.table[0].name, "0002_good.sql");
    assert!(run.table[0].ran);
}

#[test]
fn corrected_migration_succeeds_on_the_next_run() {
    // first run: the only file fails and is not recorded
    let mut run1 = MigrationRun::new(vec![file("0001_broken.sql")], Vec::new(), false);
    drive(&mut run1, &|_| false);
    assert_eq!(run1.outcomes, vec![RunOutcome::Failed("SQL error in 0001_broken.sql".to_string())]);
    assert_eq!(run1.table.len(), 0);

    // second run, file corrected: the history is still empty, so it runs
    let mut run2 = MigrationRun::new(vec![file("0001_broken.sql")], Vec::new(), false);
    let actions = drive(&mut run2, &|_| true);
    assert_eq!(actions.len(), 1);
    assert_eq!(run2.outcomes, vec![RunOutcome::Applied]);
    assert_eq!(run2.table.len(), 1);
    assert!(run2.table[0].ran);
}

#[test]
fn incremental_run_skips_completed_and_inserts_new() {
    // a reloaded history of two completed migrations
    let history = vec![
        MigrationRecord::loaded(
            1,
            "0001_init.sql".to_string(),
            "migrations/0001_init.sql".to_string(),
            true,
            "2024-01-01 00:00:00".to_string(),
        ),
        MigrationRecord::loaded(
            2,
            "0002_data.sql".to_string(),
            "migrations/0002_data.sql".to_string(),
            true,
            "2024-01-01 00:00:01".to_string(),
        ),
    ];
    let files = vec![file("0001_init.sql"), file("0002_data.sql"), file("0003_new.sql")];
    let mut run = MigrationRun::new(files, history.clone(), false);
    let actions = drive(&mut run, &|_| true);
    assert_eq!(
        actions,
        vec![HistoryAction::Insert {
            name: "0003_new.sql".to_string(),
            path: "migrations/0003_new.sql".to_string(),
            ran: true,
        }]
    );
    assert_eq!(
        run.outcomes,
        vec![RunOutcome::Skipped, RunOutcome::Skipped, RunOutcome::Applied]
    );
    // the original records are untouched, ids and all; one row was added
    assert_eq!(run.table.len(), 3);
    assert_eq!(run.table[0], history[0]);
    assert_eq!(run.table[1], history[1]);
    assert_eq!(run.table[2].name, "0003_new.sql");
    assert_eq!(run.table[2].id, None);
    assert!(run.table[2].ran);
}

#[test]
fn incremental_run_marks_unfinished_record_by_id() {
    let history = vec![MigrationRecord::loaded(
        7,
        "0001_init.sql".to_string(),
        "migrations/0001_init.sql".to_string(),
        false,
        "2024-01-01 00:00:00".to_string(),
    )];
    let files = vec![file("0001_init.sql")];
    let mut run = MigrationRun::new(files, history, false);
    let actions = drive(&mut run, &|_| true);
    assert_eq!(actions, vec![HistoryAction::MarkRan { id: 7 }]);
    assert_eq!(run.outcomes, vec![RunOutcome::Applied]);
    assert_eq!(run.table.len(), 1);
    assert_eq!(run.table[0].id, Some(7));
    assert!(run.table[0].ran);
}

#[test]
fn second_run_changes_nothing() {
    let files = || vec![file("0001_init.sql"), file("0002_data.sql"), file("0003_test.sql")];

    // bootstrap run, test mode off: two files applied, the test one skipped
    let mut run1 = MigrationRun::new(files(), Vec::new(), false);
    drive(&mut run1, &|_| true);
    assert_eq!(run1.table.len(), 2);

    // reload the table as the store would hand it back
    let reloaded: Vec<MigrationRecord> = run1
        .table
        .iter()
        .enumerate()
        .map(|(i, r)| {
            MigrationRecord::loaded(
                (i + 1) as u32,
                r.name.clone(),
                r.path.clone(),
                r.ran,
                "2024-01-01 00:00:00".to_string(),
            )
        })
        .collect();

    // the second run skips everything and hands out no bookkeeping
    let mut run2 = MigrationRun::new(files(), reloaded.clone(), false);
    let actions = drive(&mut run2, &|_| true);
    assert!(actions.is_empty());
    assert_eq!(
        run2.outcomes,
        vec![RunOutcome::Skipped, RunOutcome::Skipped, RunOutcome::Skipped]
    );
    assert_eq!(run2.table, reloaded);
}

#[test]
fn unmatched_file_gets_bootstrap_treatment_in_incremental_run() {
    // a non-empty history and a new test-named file: the file matches no
    // record, so the skip policy sees it as pending, and with test mode
    // off its name keeps it from running
    let history = vec![MigrationRecord::loaded(
        1,
        "0001_init.sql".to_string(),
        "migrations/0001_init.sql".to_string(),
        true,
        "2024-01-01 00:00:00".to_string(),
    )];
    let files = vec![file("0001_init.sql"), file("0002_test_seed.sql")];
    let mut run = MigrationRun::new(files, history, false);
    let actions = drive(&mut run, &|_| true);
    assert!(actions.is_empty());
    assert_eq!(run.outcomes, vec![RunOutcome::Skipped, RunOutcome::Skipped]);
    assert_eq!(run.table.len(), 1);
}
