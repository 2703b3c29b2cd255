//! Scenarios driven against a real in-memory SQLite database: the engine
//! decides, this harness executes its requests and mirrors its
//! bookkeeping, exactly as the surrounding program would.

use aromatic::record::{MigrationFile, MigrationRecord};
use aromatic::runner::{HistoryAction, MigrationRun, RunOutcome};
use sqlx::sqlite::SqliteConnection;
use sqlx::{Connection, Row};

const HISTORY_DDL: &str = "CREATE TABLE IF NOT EXISTS migrations (\
    id INTEGER NOT NULL PRIMARY KEY AUTOINCREMENT,\
    name TEXT NOT NULL,\
    path TEXT NOT NULL,\
    ran BOOLEAN NOT NULL,\
    timestamp TIMESTAMP DEFAULT CURRENT_TIMESTAMP)";

fn block_on<F: std::future::Future>(fut: F) -> F::Output {
    tokio::runtime::Builder::new_current_thread()
        .enable_all()
        .build()
        .unwrap()
        .block_on(fut)
}

async fn load_history(conn: &mut SqliteConnection) -> Vec<MigrationRecord> {
    sqlx::query("SELECT id, name, path, ran, timestamp FROM migrations")
        .fetch_all(&mut *conn)
        .await
        .unwrap()
        .iter()
        .map(|r| {
            MigrationRecord::loaded(
                r.get::<i64, _>(0) as u32,
                r.get(1),
                r.get(2),
                r.get(3),
                r.get(4),
            )
        })
        .collect()
}

/// Runs the engine over named SQL snippets, inside one transaction with a
/// savepoint per file, and commits.
async fn run_scripts(
    conn: &mut SqliteConnection,
    scripts: &[(&str, &str)],
    run_test: bool,
) -> MigrationRun {
    sqlx::query(HISTORY_DDL).execute(&mut *conn).await.unwrap();
    let history = load_history(conn).await;
    let files = scripts
        .iter()
        .map(|(name, _)| MigrationFile::new(name.to_string(), name.to_string()))
        .collect();
    let mut run = MigrationRun::new(files, history, run_test);
    let mut tx = conn.begin().await.unwrap();
    while let Some(req) = run.next_action() {
        let sql = scripts.iter().find(|(n, _)| *n == req.name).unwrap().1;
        sqlx::query("SAVEPOINT migration_step").execute(&mut *tx).await.unwrap();
        match sqlx::query(sqlx::AssertSqlSafe(sql.to_string())).execute(&mut *tx).await {
            Ok(_) => {
                sqlx::query("RELEASE SAVEPOINT migration_step")
                    .execute(&mut *tx)
                    .await
                    .unwrap();
                match run.report_success() {
                    HistoryAction::Insert { name, path, ran } => {
                        sqlx::query("INSERT INTO migrations (name, path, ran) VALUES (?, ?, ?)")
                            .bind(name)
                            .bind(path)
                            .bind(ran)
                            .execute(&mut *tx)
                            .await
                            .unwrap();
                    },
                    HistoryAction::MarkRan { id } => {
                        sqlx::query("UPDATE migrations SET ran = true WHERE id = ?")
                            .bind(id)
                            .execute(&mut *tx)
                            .await
                            .unwrap();
                    },
                }
            },
            Err(err) => {
                sqlx::query("ROLLBACK TO SAVEPOINT migration_step")
                    .execute(&mut *tx)
                    .await
                    .unwrap();
                sqlx::query("RELEASE SAVEPOINT migration_step")
                    .execute(&mut *tx)
                    .await
                    .unwrap();
                run.report_failure(err.to_string());
            },
        }
    }
    tx.commit().await.unwrap();
    run
}

async fn count(conn: &mut SqliteConnection, sql: &'static str) -> i64 {
    sqlx::query(sql).fetch_one(&mut *conn).await.unwrap().get(0)
}

#[test]
fn init_runs_and_test_seed_is_skipped_when_test_mode_off() {
    block_on(async {
        let mut conn = SqliteConnection::connect("sqlite::memory:").await.unwrap();
        let scripts = [
            ("0001_init.sql", "CREATE TABLE foo(id INTEGER);"),
            ("0002_test_seed.sql", "INSERT INTO foo VALUES (1);"),
        ];
        let run = run_scripts(&mut conn, &scripts, false).await;
        assert_eq!(run.outcomes, vec![RunOutcome::Applied, RunOutcome::Skipped]);

        let history = load_history(&mut conn).await;
        assert_eq!(history.len(), 1);
        assert_eq!(history[0].name, "0001_init.sql");
        assert!(history[0].ran);
        // foo exists and is empty
        assert_eq!(count(&mut conn, "SELECT COUNT(*) FROM foo").await, 0);
    });
}

#[test]
fn both_run_when_test_mode_on() {
    block_on(async {
        let mut conn = SqliteConnection::connect("sqlite::memory:").await.unwrap();
        let scripts = [
            ("0001_init.sql", "CREATE TABLE foo(id INTEGER);"),
            ("0002_test_seed.sql", "INSERT INTO foo VALUES (1);"),
        ];
        let run = run_scripts(&mut conn, &scripts, true).await;
        assert_eq!(run.outcomes, vec![RunOutcome::Applied, RunOutcome::Applied]);
        assert_eq!(count(&mut conn, "SELECT COUNT(*) FROM foo").await, 1);
        assert_eq!(count(&mut conn, "SELECT COUNT(*) FROM migrations").await, 2);
    });
}

#[test]
fn invalid_sql_fails_in_isolation_and_succeeds_once_corrected() {
    block_on(async {
        let mut conn = SqliteConnection::connect("sqlite::memory:").await.unwrap();
        // a failing migration followed by a normally-succeeding one: the
        // failure is rolled back to its savepoint and the rest of the run
        // commits
        let scripts = [
            ("0001_broken.sql", "CREATE TABLUH oops;"),
            ("0002_good.sql", "CREATE TABLE bar(id INTEGER);"),
        ];
        let run = run_scripts(&mut conn, &scripts, false).await;
        assert!(matches!(run.outcomes[0], RunOutcome::Failed(_)));
        assert_eq!(run.outcomes[1], RunOutcome::Applied);
        let history = load_history(&mut conn).await;
        assert_eq!(history.len(), 1);
        assert_eq!(history[0].name, "0002_good.sql");
        assert_eq!(count(&mut conn, "SELECT COUNT(*) FROM bar").await, 0);

        // corrected, the file runs on the next invocation and is recorded
        let scripts2 = [
            ("0001_broken.sql", "CREATE TABLE fixed(id INTEGER);"),
            ("0002_good.sql", "CREATE TABLE bar(id INTEGER);"),
        ];
        let run2 = run_scripts(&mut conn, &scripts2, false).await;
        assert_eq!(run2.outcomes, vec![RunOutcome::Applied, RunOutcome::Skipped]);
        let history2 = load_history(&mut conn).await;
        assert_eq!(history2.len(), 2);
        assert!(history2.iter().any(|r| r.name == "0001_broken.sql" && r.ran));
    });
}

#[test]
fn second_run_adds_nothing_and_a_new_file_adds_one_row() {
    block_on(async {
        let mut conn = SqliteConnection::connect("sqlite::memory:").await.unwrap();
        let scripts = [
            ("0001_a.sql", "CREATE TABLE a(id INTEGER);"),
            ("0002_b.sql", "CREATE TABLE b(id INTEGER);"),
        ];
        run_scripts(&mut conn, &scripts, false).await;
        let before = load_history(&mut conn).await;
        assert_eq!(before.len(), 2);

        // unchanged directory: the second run executes nothing
        let run2 = run_scripts(&mut conn, &scripts, false).await;
        assert_eq!(run2.outcomes, vec![RunOutcome::Skipped, RunOutcome::Skipped]);
        assert_eq!(load_history(&mut conn).await, before);

        // one new file: exactly one row is added, the others untouched
        let scripts3 = [
            ("0001_a.sql", "CREATE TABLE a(id INTEGER);"),
            ("0002_b.sql", "CREATE TABLE b(id INTEGER);"),
            ("0003_c.sql", "CREATE TABLE c(id INTEGER);"),
        ];
        let run3 = run_scripts(&mut conn, &scripts3, false).await;
        assert_eq!(
            run3.outcomes,
            vec![RunOutcome::Skipped, RunOutcome::Skipped, RunOutcome::Applied]
        );
        let after = load_history(&mut conn).await;
        assert_eq!(after.len(), 3);
        assert_eq!(&after[..2], &before[..]);
        assert!(after[2].name == "0003_c.sql" && after[2].ran);
    });
}
