//! The skip policy: decides, for one migration, whether this run must
//! execute it.

use vstd::prelude::*;

verus! {

/// `p` occurs in `s` starting at position `i`.
pub open spec fn contains_at(s: Seq<char>, p: Seq<char>, i: int) -> bool {
    0 <= i && i + p.len() <= s.len() && s.subrange(i, i + p.len() as int) == p
}

/// `p` occurs somewhere in `s`.
pub open spec fn contains_seq(s: Seq<char>, p: Seq<char>) -> bool {
    exists|i: int| contains_at(s, p, i)
}

/// `p` matches `s` at position `i`: compares character by character.
fn match_at(s: &str, p: &str, i: usize) -> (r: bool)
    requires
        i + p@.len() <= s@.len(),
        s@.len() <= usize::MAX,
    ensures
        r == contains_at(s@, p@, i as int),
{
    let p_len = p.unicode_len();
    let mut j: usize = 0;
    while j < p_len
        invariant
            j <= p_len,
            p_len == p@.len(),
            i + p@.len() <= s@.len(),
            s@.len() <= usize::MAX,
            forall|k: int| 0 <= k < j ==> s@[i + k] == p@[k],
        decreases p_len - j,
    {
        if s.get_char(i + j) != p.get_char(j) {
            assert(s@.subrange(i as int, i + p@.len()) != p@) by {
                assert(s@.subrange(i as int, i + p@.len())[j as int] == s@[i + j]);
            }
            return false;
        }
        j += 1;
    }
    assert(s@.subrange(i as int, i + p@.len()) =~= p@);
    true
}

/// Substring search: does `s` contain `p`?
pub fn str_contains(s: &str, p: &str) -> (r: bool)
    ensures
        r == contains_seq(s@, p@),
{
    let s_len = s.unicode_len();
    let p_len = p.unicode_len();
    if p_len == 0 {
        assert(contains_at(s@, p@, 0)) by {
            assert(s@.subrange(0, 0) =~= p@);
        }
        return true;
    }
    if p_len > s_len {
        assert(!contains_seq(s@, p@));
        return false;
    }
    let mut i: usize = 0;
    while i <= s_len - p_len
        invariant
            1 <= p_len <= s_len,
            s_len == s@.len(),
            p_len == p@.len(),
            i <= s_len - p_len + 1,
            forall|k: int| 0 <= k < i ==> !contains_at(s@, p@, k),
        decreases s_len - p_len + 1 - i,
    {
        if match_at(s, p, i) {
            return true;
        }
        i += 1;
    }
    assert(forall|k: int| contains_at(s@, p@, k) ==> 0 <= k < i);
    false
}

/// Character-for-character string equality.
pub fn str_eq(a: &str, b: &str) -> (r: bool)
    ensures
        r == (a@ == b@),
{
    let la = a.unicode_len();
    let lb = b.unicode_len();
    if la != lb {
        return false;
    }
    let r = match_at(a, b, 0);
    proof {
        assert(a@.subrange(0, a@.len() as int) =~= a@);
    }
    r
}

/// `a` precedes `b`, or equals it, in lexicographic order by character
/// value, the strings compared from position `i` on.
pub open spec fn lex_le_from(a: Seq<char>, b: Seq<char>, i: int) -> bool
    decreases a.len() - i,
{
    if i >= a.len() {
        true
    } else if i >= b.len() {
        false
    } else if (a[i] as u32) != (b[i] as u32) {
        (a[i] as u32) < (b[i] as u32)
    } else {
        lex_le_from(a, b, i + 1)
    }
}

/// `a` precedes `b`, or equals it, in lexicographic order by character
/// value.
pub open spec fn lex_le(a: Seq<char>, b: Seq<char>) -> bool {
    lex_le_from(a, b, 0)
}

/// Lexicographic order is total.
pub proof fn lemma_lex_le_total(a: Seq<char>, b: Seq<char>, i: int)
    ensures
        lex_le_from(a, b, i) || lex_le_from(b, a, i),
    decreases a.len() - i,
{
    if i >= a.len() {
    } else if i >= b.len() {
    } else if (a[i] as u32) == (b[i] as u32) {
        lemma_lex_le_total(a, b, i + 1);
    }
}

/// Lexicographic order is transitive.
pub proof fn lemma_lex_le_trans(a: Seq<char>, b: Seq<char>, c: Seq<char>, i: int)
    requires
        lex_le_from(a, b, i),
        lex_le_from(b, c, i),
    ensures
        lex_le_from(a, c, i),
    decreases a.len() - i,
{
    if i >= a.len() {
    } else {
        assert(i < b.len());
        assert(i < c.len());
        if (a[i] as u32) == (b[i] as u32) && (b[i] as u32) == (c[i] as u32) {
            lemma_lex_le_trans(a, b, c, i + 1);
        }
    }
}

/// Compares two strings in lexicographic order by character value.
pub fn str_le(a: &str, b: &str) -> (r: bool)
    ensures
        r == lex_le(a@, b@),
{
    let la = a.unicode_len();
    let lb = b.unicode_len();
    str_le_from(a, b, 0, la, lb)
}

/// Compares two strings from position `i` on.
fn str_le_from(a: &str, b: &str, i: usize, la: usize, lb: usize) -> (r: bool)
    requires
        la == a@.len(),
        lb == b@.len(),
        i <= la,
    ensures
        r == lex_le_from(a@, b@, i as int),
    decreases la - i,
{
    if i >= la {
        true
    } else if i >= lb {
        false
    } else {
        let ca = a.get_char(i) as u32;
        let cb = b.get_char(i) as u32;
        if ca != cb {
            ca < cb
        } else {
            str_le_from(a, b, i + 1, la, lb)
        }
    }
}

/// The skip verdict for one migration:
/// a migration that has already run is always skipped; otherwise, in test
/// mode nothing is skipped; otherwise a migration is skipped exactly when
/// its name marks it as a test migration.
pub open spec fn spec_skip_migration(
    migration_has_been_run: bool,
    name: Seq<char>,
    run_test_migrations: bool,
) -> bool {
    if migration_has_been_run {
        true
    } else if run_test_migrations {
        false
    } else {
        contains_seq(name, "test"@)
    }
}

/// Decides whether a migration must be skipped this run.
///
/// The last three `ensures` clauses state the policy's laws one by one:
/// a completed migration is never re-executed, whatever the name and mode;
/// test mode forces every pending migration to run; and outside test mode
/// a pending migration is skipped exactly when its name contains the
/// test-migration marker.
pub fn skip_migration(
    migration_has_been_run: bool,
    name: &str,
    run_test_migrations: bool,
) -> (skip: bool)
    ensures
        skip == spec_skip_migration(migration_has_been_run, name@, run_test_migrations),
        migration_has_been_run ==> skip,
        !migration_has_been_run && run_test_migrations ==> !skip,
        !migration_has_been_run && !run_test_migrations ==> skip == contains_seq(
            name@,
            "test"@,
        ),
{
    if migration_has_been_run {
        true
    } else if run_test_migrations {
        false
    } else {
        str_contains(name, "test")
    }
}

} // verus!
