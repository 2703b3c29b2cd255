use aromatic::policy::{skip_migration, str_contains, str_eq, str_le};

#[test]
fn test_skip_migration_skip_test_migrations() {
    assert!(!skip_migration(false, "migration", false));

    assert!(skip_migration(true, "migration", false));

    assert!(skip_migration(false, "test_migration", false));

    assert!(skip_migration(true, "test_migration", false));
}

#[test]
fn test_skip_migration_run_test_migrations() {
    assert!(!skip_migration(false, "migration", true));

    assert!(skip_migration(true, "migration", true));

    assert!(!skip_migration(false, "test_migration", true));

    assert!(skip_migration(true, "test_migration", true));
}

#[test]
fn skip_marker_found_anywhere_in_name() {
    assert!(skip_migration(false, "0002_test_seed.sql", false));
    assert!(skip_migration(false, "testdata.sql", false));
    assert!(skip_migration(false, "latest_schema.sql", false));
    assert!(!skip_migration(false, "0001_init.sql", false));
    assert!(!skip_migration(false, "", false));
}

#[test]
fn substring_search() {
    assert!(str_contains("abc", ""));
    assert!(str_contains("", ""));
    assert!(!str_contains("", "a"));
    assert!(str_contains("abc", "abc"));
    assert!(str_contains("xabcx", "abc"));
    assert!(!str_contains("abd", "abc"));
    assert!(!str_contains("ab", "abc"));
    assert!(str_contains("aab", "ab"));
}

#[test]
fn lexicographic_order() {
    assert!(str_le("a", "b"));
    assert!(str_le("a", "a"));
    assert!(!str_le("b", "a"));
    assert!(str_le("a", "ab"));
    assert!(!str_le("ab", "a"));
    assert!(str_le("", "a"));
    assert!(str_le("", ""));
    assert!(str_le("0001_init.sql", "0002_data.sql"));
    assert!(!str_le("0010_z.sql", "0002_b.sql"));
}

#[test]
fn string_equality() {
    assert!(str_eq("models.rs", "models.rs"));
    assert!(!str_eq("models.rs", "models_rs"));
    assert!(!str_eq("model", "models"));
    assert!(str_eq("", ""));
}
