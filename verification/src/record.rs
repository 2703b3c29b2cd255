//! The data carried through a run: migration files discovered on disk and
//! migration records persisted in the history table.

use vstd::multiset::Multiset;
use vstd::prelude::*;

use crate::policy::{lemma_lex_le_total, lemma_lex_le_trans, lex_le, str_le};

verus! {

/// A migration script discovered in the migrations directory for the
/// current run.  Discarded when the run ends; reconciled with the history
/// table by `name`.
#[derive(Debug, Clone)]
pub struct MigrationFile {
    pub name: String,
    pub ran: bool,
    pub path: String,
}

/// Mathematical model of a [`MigrationFile`].
#[verifier::ext_equal]
pub ghost struct FileModel {
    pub name: Seq<char>,
    pub ran: bool,
    pub path: Seq<char>,
}

impl View for MigrationFile {
    type V = FileModel;

    open spec fn view(&self) -> FileModel {
        FileModel { name: self.name@, ran: self.ran, path: self.path@ }
    }
}

impl MigrationFile {
    /// A freshly discovered file: not yet run in this invocation.
    pub fn new(name: String, path: String) -> (f: MigrationFile)
        ensures
            f@ == (FileModel { name: name@, ran: false, path: path@ }),
    {
        MigrationFile { name, ran: false, path }
    }
}

/// The files stand in lexicographic order by name.
pub open spec fn sorted_by_name(files: Seq<MigrationFile>) -> bool {
    forall|i: int, j: int| 0 <= i < j < files.len() ==> lex_le(files[i]@.name, files[j]@.name)
}

/// Sorts discovered migration files by name, so that the order they run
/// in is fixed by their names rather than by whatever order the directory
/// listing happened to yield.  The result holds exactly the given files.
pub fn sort_migration_files(files: Vec<MigrationFile>) -> (r: Vec<MigrationFile>)
    ensures
        sorted_by_name(r@),
        r@.to_multiset() == files@.to_multiset(),
{
    broadcast use vstd::seq_lib::group_to_multiset_ensures;
    broadcast use vstd::multiset::group_multiset_axioms;

    let ghost orig = files@;
    let mut rest = files;
    let mut out: Vec<MigrationFile> = Vec::new();
    proof {
        assert(out@.to_multiset() =~= Multiset::<MigrationFile>::empty());
        assert(out@.to_multiset().add(rest@.to_multiset()) =~= orig.to_multiset());
    }
    while rest.len() > 0
        invariant
            sorted_by_name(out@),
            out@.to_multiset().add(rest@.to_multiset()) == orig.to_multiset(),
        decreases rest@.len(),
    {
        let ghost pre_out = out@;
        let ghost pre_rest = rest@;
        let f = rest.remove(0);
        let n_out = out.len();
        let mut k: usize = 0;
        while k < n_out && str_le(out[k].name.as_str(), f.name.as_str())
            invariant
                n_out == out@.len(),
                k <= n_out,
                forall|j: int| 0 <= j < k ==> lex_le((#[trigger] out@[j])@.name, f@.name),
            decreases n_out - k,
        {
            k += 1;
        }
        assert forall|j: int| k <= j < n_out implies lex_le(f@.name, (#[trigger] out@[j])@.name) by {
            lemma_lex_le_total(out@[k as int]@.name, f@.name, 0);
            if j > k {
                assert(lex_le(out@[k as int]@.name, out@[j]@.name));
                lemma_lex_le_trans(f@.name, out@[k as int]@.name, out@[j]@.name, 0);
            }
        }
        out.insert(k, f);
        proof {
            pre_out.insert_ensures(k as int, f);
            assert forall|i: int, j: int| 0 <= i < j < out@.len() implies lex_le(
                out@[i]@.name,
                out@[j]@.name,
            ) by {
                if i < k && j < k {
                } else if i < k && j == k {
                    assert(out@[i] == pre_out[i]);
                } else if i == k {
                    assert(out@[j] == pre_out[j - 1]);
                } else if i < k {
                    assert(out@[i] == pre_out[i]);
                    assert(out@[j] == pre_out[j - 1]);
                } else {
                    assert(out@[i] == pre_out[i - 1]);
                    assert(out@[j] == pre_out[j - 1]);
                }
            }
            vstd::seq_lib::to_multiset_insert(pre_out, k as int, f);
            vstd::seq_lib::to_multiset_remove(pre_rest, 0);
            assert(pre_rest[0] == f);
            assert(pre_rest.contains(f));
            vstd::seq_lib::to_multiset_contains(pre_rest, f);
            assert(pre_rest.to_multiset().count(f) > 0);
            assert(out@.to_multiset().add(rest@.to_multiset()) =~= orig.to_multiset());
        }
    }
    proof {
        assert(rest@.to_multiset() =~= Multiset::<MigrationFile>::empty());
        assert(out@.to_multiset() =~= orig.to_multiset());
    }
    out
}

/// One row of the persisted history table.  The surrogate `id` and the
/// `timestamp` are assigned by the store: both are `Some` on a record
/// loaded from the table and `None` on a record this run has inserted but
/// not re-read.
#[derive(Debug, Clone, PartialEq, Eq)]
pub struct MigrationRecord {
    pub id: Option<u32>,
    pub name: String,
    pub path: String,
    pub ran: bool,
    pub timestamp: Option<String>,
}

/// Mathematical model of a [`MigrationRecord`].
#[verifier::ext_equal]
pub ghost struct RecordModel {
    pub id: Option<u32>,
    pub name: Seq<char>,
    pub path: Seq<char>,
    pub ran: bool,
    pub timestamp: Option<Seq<char>>,
}

impl View for MigrationRecord {
    type V = RecordModel;

    open spec fn view(&self) -> RecordModel {
        RecordModel {
            id: self.id,
            name: self.name@,
            path: self.path@,
            ran: self.ran,
            timestamp: match self.timestamp {
                Some(ref t) => Some(t@),
                None => None,
            },
        }
    }
}

impl MigrationRecord {
    /// A record as the store hands it back: every column present.
    pub fn loaded(id: u32, name: String, path: String, ran: bool, timestamp: String) -> (r:
        MigrationRecord)
        ensures
            r@ == (RecordModel {
                id: Some(id),
                name: name@,
                path: path@,
                ran,
                timestamp: Some(timestamp@),
            }),
    {
        MigrationRecord { id: Some(id), name, path, ran, timestamp: Some(timestamp) }
    }
}

/// The view of a whole history table.
pub open spec fn records_view(rs: Seq<MigrationRecord>) -> Seq<RecordModel> {
    rs.map_values(|r: MigrationRecord| r@)
}

/// The first record with the given name, if any.
pub open spec fn find_rec(t: Seq<RecordModel>, name: Seq<char>) -> Option<RecordModel>
    decreases t.len(),
{
    if t.len() == 0 {
        None
    } else if t[0].name == name {
        Some(t[0])
    } else {
        find_rec(t.drop_first(), name)
    }
}

/// Some record in `t` bears this name.
pub open spec fn has_name(t: Seq<RecordModel>, name: Seq<char>) -> bool {
    exists|j: int| 0 <= j < t.len() && t[j].name == name
}

/// No two records in `t` share a name.
pub open spec fn names_unique(t: Seq<RecordModel>) -> bool {
    forall|j: int, k: int| 0 <= j < k < t.len() ==> t[j].name != t[k].name
}

/// No two records in `t` share a surrogate id (among the ids the store
/// has assigned).
pub open spec fn ids_unique(t: Seq<RecordModel>) -> bool {
    forall|j: int, k: int|
        0 <= j < k < t.len() && t[j].id is Some && t[k].id is Some ==> t[j].id != t[k].id
}

/// A table as `loadAll` returns it: every record has its id, ids and
/// names are unique.
pub open spec fn loaded_table_wf(t: Seq<RecordModel>) -> bool {
    &&& forall|j: int| 0 <= j < t.len() ==> (#[trigger] t[j].id) is Some
    &&& ids_unique(t)
    &&& names_unique(t)
}

/// `find_rec` finds a record exactly when one with that name exists.
pub proof fn lemma_find_rec_has_name(t: Seq<RecordModel>, name: Seq<char>)
    ensures
        find_rec(t, name) is Some <==> has_name(t, name),
        find_rec(t, name) matches Some(r) ==> exists|j: int|
            0 <= j < t.len() && t[j] == r && t[j].name == name,
    decreases t.len(),
{
    if t.len() == 0 {
    } else if t[0].name == name {
    } else {
        lemma_find_rec_has_name(t.drop_first(), name);
        if has_name(t, name) {
            let j = choose|j: int| 0 <= j < t.len() && t[j].name == name;
            assert(t.drop_first()[j - 1] == t[j]);
        }
        if find_rec(t.drop_first(), name) is Some {
            let r = find_rec(t.drop_first(), name)->Some_0;
            let j = choose|j: int|
                0 <= j < t.drop_first().len() && t.drop_first()[j] == r && t.drop_first()[j].name
                    == name;
            assert(t[j + 1] == r);
        }
    }
}

/// In a table with unique names, `find_rec` returns the record that any
/// index with that name holds.
pub proof fn lemma_find_rec_unique(t: Seq<RecordModel>, j: int)
    requires
        names_unique(t),
        0 <= j < t.len(),
    ensures
        find_rec(t, t[j].name) == Some(t[j]),
    decreases t.len(),
{
    if j == 0 {
    } else {
        assert(t[0].name != t[j].name);
        lemma_find_rec_unique(t.drop_first(), j - 1);
        assert(t.drop_first()[j - 1] == t[j]);
    }
}

/// Finds the first record with the given name and returns its index.
pub fn find_record_index(records: &Vec<MigrationRecord>, name: &String) -> (r: Option<usize>)
    ensures
        match r {
            Some(j) => {
                &&& j < records@.len()
                &&& records@[j as int]@.name == name@
                &&& find_rec(records_view(records@), name@) == Some(records@[j as int]@)
                &&& forall|k: int| 0 <= k < j ==> records@[k]@.name != name@
            },
            None => !has_name(records_view(records@), name@),
        },
{
    let ghost t = records_view(records@);
    let n = records.len();
    let mut j: usize = 0;
    while j < n
        invariant
            n == records@.len(),
            j <= n,
            t == records_view(records@),
            forall|k: int| 0 <= k < j ==> records@[k]@.name != name@,
        decreases n - j,
    {
        if records[j].name.eq(name) {
            proof {
                assert(t[j as int] == records@[j as int]@);
                lemma_find_first_match(t, name@, j as int);
            }
            return Some(j);
        }
        j += 1;
    }
    proof {
        assert forall|k: int| 0 <= k < t.len() implies t[k].name != name@ by {
            assert(t[k] == records@[k]@);
        }
    }
    None
}

/// If index `j` is the first with this name, `find_rec` returns `t[j]`.
proof fn lemma_find_first_match(t: Seq<RecordModel>, name: Seq<char>, j: int)
    requires
        0 <= j < t.len(),
        t[j].name == name,
        forall|k: int| 0 <= k < j ==> t[k].name != name,
    ensures
        find_rec(t, name) == Some(t[j]),
    decreases t.len(),
{
    if j == 0 {
    } else {
        lemma_find_first_match(t.drop_first(), name, j - 1);
        assert(t.drop_first()[j - 1] == t[j]);
    }
}

} // verus!
