//! The engine's laws, proved over the run model of [`crate::runner`]:
//! a completed run leaves a table that a repeated run does not change,
//! every applied file owns exactly one history record, and a run against
//! an existing history touches nothing but what it newly applies.

use vstd::prelude::*;

use crate::record::{
    find_rec, has_name, loaded_table_wf, lemma_find_rec_has_name, lemma_find_rec_unique,
    names_unique, FileModel, RecordModel,
};
use crate::runner::{
    file_names_unique, fresh_record, mark_one, mark_ran_seq, run_outcomes, run_table,
    spec_file_skip, spec_outcome, step_table, OutcomeModel,
};

verus! {

/// A well-formed set of discovered files: none has run yet in this
/// invocation, and no two share a name.
pub open spec fn files_wf(files: Seq<FileModel>) -> bool {
    &&& forall|i: int| 0 <= i < files.len() ==> !(#[trigger] files[i]).ran
    &&& file_names_unique(files)
}

/// File `i` is executed in this run and its SQL succeeds.
pub open spec fn applied_in(
    t0: Seq<RecordModel>,
    files: Seq<FileModel>,
    flag: bool,
    oks: Seq<bool>,
    i: int,
) -> bool {
    0 <= i < files.len() && !spec_file_skip(t0, files[i], flag) && oks[i]
}

/// Some applied file bears this name.
pub open spec fn name_applied(
    t0: Seq<RecordModel>,
    files: Seq<FileModel>,
    flag: bool,
    oks: Seq<bool>,
    n: Seq<char>,
) -> bool {
    exists|i: int| applied_in(t0, files, flag, oks, i) && files[i].name == n
}

/// Some file bears this name.
pub open spec fn name_in_files(files: Seq<FileModel>, n: Seq<char>) -> bool {
    exists|i: int| 0 <= i < files.len() && (#[trigger] files[i]).name == n
}

/// The two records agree on everything but the `ran` flag.
pub open spec fn same_but_ran(a: RecordModel, b: RecordModel) -> bool {
    a.id == b.id && a.name == b.name && a.path == b.path && a.timestamp == b.timestamp
}

/// A run's outcomes are one per file.
pub proof fn lemma_run_outcomes_len(
    t0: Seq<RecordModel>,
    files: Seq<FileModel>,
    flag: bool,
    oks: Seq<bool>,
)
    ensures
        run_outcomes(t0, files, flag, oks).len() == files.len(),
    decreases files.len(),
{
    if files.len() > 0 {
        lemma_run_outcomes_len(t0, files.drop_first(), flag, oks.drop_first());
    }
}

/// The outcome of file `i` is its own decision and execution result.
pub proof fn lemma_run_outcomes_index(
    t0: Seq<RecordModel>,
    files: Seq<FileModel>,
    flag: bool,
    oks: Seq<bool>,
    i: int,
)
    requires
        oks.len() == files.len(),
        0 <= i < files.len(),
    ensures
        run_outcomes(t0, files, flag, oks)[i] == spec_outcome(t0, files[i], flag, oks[i]),
    decreases files.len(),
{
    lemma_run_outcomes_len(t0, files.drop_first(), flag, oks.drop_first());
    if i > 0 {
        lemma_run_outcomes_index(t0, files.drop_first(), flag, oks.drop_first(), i - 1);
        assert(files.drop_first()[i - 1] == files[i]);
        assert(oks.drop_first()[i - 1] == oks[i]);
    }
}

/// A run in which every file is skipped leaves the table untouched.
pub proof fn lemma_all_skipped(
    t0: Seq<RecordModel>,
    t: Seq<RecordModel>,
    files: Seq<FileModel>,
    flag: bool,
    oks: Seq<bool>,
)
    requires
        oks.len() == files.len(),
        forall|i: int| 0 <= i < files.len() ==> spec_file_skip(t0, #[trigger] files[i], flag),
    ensures
        run_table(t0, t, files, flag, oks) == t,
    decreases files.len(),
{
    if files.len() > 0 {
        assert(spec_file_skip(t0, files[0], flag));
        assert(forall|i: int|
            0 <= i < files.drop_first().len() ==> #[trigger] files.drop_first()[i] == files[i
                + 1]);
        lemma_all_skipped(t0, t, files.drop_first(), flag, oks.drop_first());
    }
}

/// Appending a record extends a name search: an earlier match wins, the
/// new record answers for its own name, and other names stay unmatched.
pub proof fn lemma_find_rec_push(t: Seq<RecordModel>, x: RecordModel, n: Seq<char>)
    ensures
        find_rec(t.push(x), n) == (if find_rec(t, n) is Some {
            find_rec(t, n)
        } else if x.name == n {
            Some(x)
        } else {
            None::<RecordModel>
        }),
    decreases t.len(),
{
    if t.len() == 0 {
        assert(t.push(x)[0] == x);
        assert(t.push(x).drop_first() =~= Seq::<RecordModel>::empty());
    } else {
        assert(t.push(x)[0] == t[0]);
        assert(t.push(x).drop_first() =~= t.drop_first().push(x));
        lemma_find_rec_push(t.drop_first(), x, n);
    }
}

/// Marking by id relabels what a name search finds, record for record.
pub proof fn lemma_find_rec_mark(t: Seq<RecordModel>, id: u32, n: Seq<char>)
    ensures
        find_rec(mark_ran_seq(t, id), n) == (match find_rec(t, n) {
            Some(r) => Some(mark_one(r, id)),
            None => None::<RecordModel>,
        }),
    decreases t.len(),
{
    if t.len() == 0 {
        assert(mark_ran_seq(t, id) =~= Seq::<RecordModel>::empty());
    } else {
        assert(mark_ran_seq(t, id).len() == t.len());
        assert(mark_ran_seq(t, id)[0] == mark_one(t[0], id));
        assert(mark_ran_seq(t, id).drop_first() =~= mark_ran_seq(t.drop_first(), id));
        lemma_find_rec_mark(t.drop_first(), id, n);
    }
}

/// A bootstrap run against an empty history appends one fresh record per
/// file, in discovery order, and reports every file applied.
pub proof fn lemma_bootstrap_run(
    t: Seq<RecordModel>,
    files: Seq<FileModel>,
    flag: bool,
    oks: Seq<bool>,
)
    requires
        oks.len() == files.len(),
        forall|i: int|
            0 <= i < files.len() ==> !spec_file_skip(Seq::empty(), #[trigger] files[i], flag),
        forall|i: int| 0 <= i < oks.len() ==> oks[i],
    ensures
        run_table(Seq::empty(), t, files, flag, oks) == t + files.map_values(
            |f: FileModel| fresh_record(f),
        ),
        forall|i: int|
            0 <= i < files.len() ==> run_outcomes(Seq::empty(), files, flag, oks)[i]
                == OutcomeModel::Applied,
    decreases files.len(),
{
    let fresh = |f: FileModel| fresh_record(f);
    if files.len() == 0 {
        assert(t + files.map_values(fresh) =~= t);
    } else {
        assert(find_rec(Seq::<RecordModel>::empty(), files[0].name) is None);
        assert(step_table(Seq::empty(), t, files[0], oks[0]) == t.push(fresh_record(files[0])));
        assert(forall|i: int|
            0 <= i < files.drop_first().len() ==> #[trigger] files.drop_first()[i] == files[i
                + 1]);
        assert(forall|i: int|
            0 <= i < oks.drop_first().len() ==> #[trigger] oks.drop_first()[i] == oks[i + 1]);
        lemma_bootstrap_run(t.push(fresh_record(files[0])), files.drop_first(), flag,
            oks.drop_first());
        assert(t.push(fresh_record(files[0])) + files.drop_first().map_values(fresh) =~= t
            + files.map_values(fresh));
        assert forall|i: int| 0 <= i < files.len() implies run_outcomes(
            Seq::empty(),
            files,
            flag,
            oks,
        )[i] == OutcomeModel::Applied by {
            lemma_run_outcomes_index(Seq::empty(), files, flag, oks, i);
        }
    }
}

/// Bootstrap, then one new file: a run against the history a bootstrap
/// run left — reloaded, so every record carries its store id and is
/// marked as run — skips every already-applied file, applies only the
/// one new file, and appends exactly one record for it, leaving the
/// existing records untouched, their ids and `ran` flags included.
pub proof fn lemma_incremental_new_file(
    files: Seq<FileModel>,
    f_new: FileModel,
    flag: bool,
    t1: Seq<RecordModel>,
    oks2: Seq<bool>,
)
    requires
        files_wf(files.push(f_new)),
        t1.len() == files.len(),
        forall|j: int|
            0 <= j < t1.len() ==> (#[trigger] t1[j]).name == files[j].name && t1[j].ran,
        !spec_file_skip(t1, f_new, flag),
        oks2.len() == files.len() + 1,
        forall|i: int| 0 <= i < oks2.len() ==> oks2[i],
    ensures
        run_table(t1, t1, files.push(f_new), flag, oks2) == t1.push(fresh_record(f_new)),
        forall|i: int|
            0 <= i < files.len() ==> run_outcomes(t1, files.push(f_new), flag, oks2)[i]
                == OutcomeModel::Skipped,
        run_outcomes(t1, files.push(f_new), flag, oks2)[files.len() as int]
            == OutcomeModel::Applied,
{
    let fs = files.push(f_new);
    assert(names_unique(t1)) by {
        assert forall|j: int, k: int| 0 <= j < k < t1.len() implies t1[j].name != t1[k].name by {
            assert(fs[j] == files[j]);
            assert(fs[k] == files[k]);
        }
    }
    // every old file is matched by its own record, which is marked as run
    assert forall|i: int| 0 <= i < files.len() implies spec_file_skip(t1, fs[i], flag) by {
        assert(fs[i] == files[i]);
        lemma_find_rec_unique(t1, i);
        assert(find_rec(t1, files[i].name) == Some(t1[i]));
    }
    // the new file matches no record
    assert(!has_name(t1, f_new.name)) by {
        assert forall|j: int| 0 <= j < t1.len() implies t1[j].name != f_new.name by {
            assert(fs[j] == files[j]);
            assert(fs[files.len() as int] == f_new);
        }
    }
    lemma_find_rec_has_name(t1, f_new.name);
    lemma_skipped_then_one(t1, t1, fs, flag, oks2);
    assert forall|i: int| 0 <= i < files.len() implies run_outcomes(t1, fs, flag, oks2)[i]
        == OutcomeModel::Skipped by {
        lemma_run_outcomes_index(t1, fs, flag, oks2, i);
    }
    lemma_run_outcomes_index(t1, fs, flag, oks2, files.len() as int);
}

/// Unfolding an applied-name search over the first file.
proof fn lemma_name_applied_unfold(
    t0: Seq<RecordModel>,
    files: Seq<FileModel>,
    flag: bool,
    oks: Seq<bool>,
    n: Seq<char>,
)
    requires
        files.len() > 0,
        oks.len() == files.len(),
    ensures
        name_applied(t0, files, flag, oks, n) == ((applied_in(t0, files, flag, oks, 0)
            && files[0].name == n) || name_applied(
            t0,
            files.drop_first(),
            flag,
            oks.drop_first(),
            n,
        )),
{
    let fs1 = files.drop_first();
    let oks1 = oks.drop_first();
    assert(forall|i: int| 0 <= i < fs1.len() ==> #[trigger] fs1[i] == files[i + 1]);
    assert(forall|i: int| 0 <= i < oks1.len() ==> #[trigger] oks1[i] == oks[i + 1]);
    if name_applied(t0, files, flag, oks, n) {
        let i = choose|i: int| applied_in(t0, files, flag, oks, i) && files[i].name == n;
        if i > 0 {
            assert(applied_in(t0, fs1, flag, oks1, i - 1) && fs1[i - 1].name == n);
        }
    }
    if name_applied(t0, fs1, flag, oks1, n) {
        let i = choose|i: int| applied_in(t0, fs1, flag, oks1, i) && fs1[i].name == n;
        assert(applied_in(t0, files, flag, oks, i + 1) && files[i + 1].name == n);
    }
}

/// A skip decision carries over from the loaded table to any table that
/// evolved from it by marking records as run and appending fresh rows
/// whose names differ from the file's.
proof fn lemma_skip_transfer(t0: Seq<RecordModel>, t: Seq<RecordModel>, f: FileModel, flag: bool)
    requires
        loaded_table_wf(t0),
        names_unique(t),
        t.len() >= t0.len(),
        forall|j: int|
            0 <= j < t0.len() ==> same_but_ran(t0[j], #[trigger] t[j]) && (t0[j].ran
                ==> t[j].ran),
        forall|j: int| t0.len() <= j < t.len() ==> (#[trigger] t[j]).name != f.name,
        spec_file_skip(t0, f, flag),
    ensures
        spec_file_skip(t, f, flag),
{
    lemma_find_rec_has_name(t0, f.name);
    if find_rec(t0, f.name) is Some {
        let r = find_rec(t0, f.name)->Some_0;
        let j0 = choose|j: int| 0 <= j < t0.len() && t0[j] == r && t0[j].name == f.name;
        assert(t[j0].name == f.name);
        lemma_find_rec_unique(t, j0);
        assert(find_rec(t, f.name) == Some(t[j0]));
    } else {
        assert(!has_name(t, f.name)) by {
            if has_name(t, f.name) {
                let j = choose|j: int| 0 <= j < t.len() && t[j].name == f.name;
                if j < t0.len() {
                    assert(t0[j].name == f.name);
                }
            }
        }
        lemma_find_rec_has_name(t, f.name);
    }
}

/// What one run does to the table, in full: records the loaded table
/// already held keep their place, id, name, path and timestamp, and
/// their `ran` flag is raised exactly for the names of applied files;
/// appended rows are exactly the fresh records of applied files the
/// loaded table did not know; names stay unique; every applied file owns
/// a record marked as run; and every file that was skipped or succeeded
/// is skipped by a repeated run against the resulting table.
proof fn lemma_run_effect(
    t0: Seq<RecordModel>,
    t: Seq<RecordModel>,
    files: Seq<FileModel>,
    flag: bool,
    oks: Seq<bool>,
)
    requires
        loaded_table_wf(t0),
        oks.len() == files.len(),
        files_wf(files),
        names_unique(t),
        t.len() >= t0.len(),
        forall|j: int|
            0 <= j < t0.len() ==> same_but_ran(t0[j], #[trigger] t[j]) && (t0[j].ran
                ==> t[j].ran),
        forall|j: int| t0.len() <= j < t.len() ==> (#[trigger] t[j]).id is None && t[j].ran,
        forall|j: int, i: int|
            t0.len() <= j < t.len() && 0 <= i < files.len() ==> (#[trigger] t[j]).name != (
            #[trigger] files[i]).name,
    ensures
        ({
            let rt = run_table(t0, t, files, flag, oks);
            &&& rt.len() >= t.len()
            &&& names_unique(rt)
            &&& forall|j: int|
                0 <= j < t.len() ==> same_but_ran(t[j], #[trigger] rt[j]) && (rt[j].ran <==> (
                t[j].ran || name_applied(t0, files, flag, oks, t[j].name)))
            &&& forall|j: int|
                t.len() <= j < rt.len() ==> (#[trigger] rt[j]).id is None && rt[j].ran
                    && name_applied(t0, files, flag, oks, rt[j].name) && !has_name(
                    t0,
                    rt[j].name,
                )
            &&& forall|i: int|
                applied_in(t0, files, flag, oks, i) ==> exists|j: int|
                    0 <= j < rt.len() && (#[trigger] rt[j]).name == files[i].name && rt[j].ran
            &&& forall|f: FileModel|
                #[trigger] spec_file_skip(t, f, flag) && !name_in_files(files, f.name)
                    ==> spec_file_skip(rt, f, flag)
            &&& forall|i: int|
                0 <= i < files.len() && (spec_file_skip(t0, files[i], flag) || oks[i])
                    ==> spec_file_skip(rt, #[trigger] files[i], flag)
        }),
    decreases files.len(),
{
    let rt = run_table(t0, t, files, flag, oks);
    if files.len() == 0 {
        assert forall|j: int| 0 <= j < t.len() implies same_but_ran(t[j], #[trigger] rt[j]) && (
        rt[j].ran <==> (t[j].ran || name_applied(t0, files, flag, oks, t[j].name))) by {
            if name_applied(t0, files, flag, oks, t[j].name) {
                let i = choose|i: int|
                    applied_in(t0, files, flag, oks, i) && files[i].name == t[j].name;
                assert(false);
            }
        }
    } else {
        let g = files[0];
        let fs1 = files.drop_first();
        let oks1 = oks.drop_first();
        assert(forall|i: int| 0 <= i < fs1.len() ==> #[trigger] fs1[i] == files[i + 1]);
        assert(forall|i: int| 0 <= i < oks1.len() ==> #[trigger] oks1[i] == oks[i + 1]);
        assert(files_wf(fs1));
        let skip0 = spec_file_skip(t0, g, flag);
        let applied0 = applied_in(t0, files, flag, oks, 0);
        let t_next = if skip0 {
            t
        } else {
            step_table(t0, t, g, oks[0])
        };
        assert(rt == run_table(t0, t_next, fs1, flag, oks1));
        if skip0 || !oks[0] {
            assert(t_next == t);
            assert(!applied0);
            lemma_run_effect(t0, t, fs1, flag, oks1);
            assert forall|j: int| 0 <= j < t.len() implies same_but_ran(t[j], #[trigger] rt[j])
                && (rt[j].ran <==> (t[j].ran || name_applied(t0, files, flag, oks, t[j].name))) by {
                lemma_name_applied_unfold(t0, files, flag, oks, t[j].name);
            }
            assert forall|j: int| t.len() <= j < rt.len() implies (#[trigger] rt[j]).id is None
                && rt[j].ran && name_applied(t0, files, flag, oks, rt[j].name) && !has_name(
                t0,
                rt[j].name,
            ) by {
                lemma_name_applied_unfold(t0, files, flag, oks, rt[j].name);
            }
            assert forall|i: int| applied_in(t0, files, flag, oks, i) implies exists|j: int|
                0 <= j < rt.len() && (#[trigger] rt[j]).name == files[i].name && rt[j].ran by {
                assert(i >= 1);
                assert(applied_in(t0, fs1, flag, oks1, i - 1));
                assert(fs1[i - 1].name == files[i].name);
            }
            assert forall|f: FileModel|
                #[trigger] spec_file_skip(t, f, flag) && !name_in_files(files, f.name) implies
                spec_file_skip(rt, f, flag) by {
                assert(!name_in_files(fs1, f.name)) by {
                    if name_in_files(fs1, f.name) {
                        let k = choose|k: int|
                            0 <= k < fs1.len() && (#[trigger] fs1[k]).name == f.name;
                        assert(files[k + 1].name == f.name);
                    }
                }
            }
            assert forall|i: int|
                0 <= i < files.len() && (spec_file_skip(t0, files[i], flag) || oks[i]) implies
                spec_file_skip(rt, #[trigger] files[i], flag) by {
                if i == 0 {
                    assert forall|j: int| t0.len() <= j < t.len() implies (#[trigger] t[j]).name
                        != g.name by {
                        assert(t[j].name != files[0].name);
                    }
                    lemma_skip_transfer(t0, t, g, flag);
                    assert(spec_file_skip(t, g, flag));
                    assert(!name_in_files(fs1, g.name)) by {
                        if name_in_files(fs1, g.name) {
                            let k = choose|k: int|
                                0 <= k < fs1.len() && (#[trigger] fs1[k]).name == g.name;
                            assert(files[k + 1].name == files[0].name);
                        }
                    }
                    assert(spec_file_skip(run_table(t0, t, fs1, flag, oks1), g, flag));
                } else {
                    assert(0 <= i - 1 < fs1.len());
                    assert(spec_file_skip(t0, fs1[i - 1], flag) || oks1[i - 1]);
                    assert(spec_file_skip(run_table(t0, t, fs1, flag, oks1), fs1[i - 1], flag));
                    assert(fs1[i - 1] == files[i]);
                }
            }
        } else if find_rec(t0, g.name) is Some {
            // applied and matched: the matched record is marked as run
            let r = find_rec(t0, g.name)->Some_0;
            lemma_find_rec_has_name(t0, g.name);
            let j0 = choose|j: int| 0 <= j < t0.len() && t0[j] == r && t0[j].name == g.name;
            assert(r.id is Some);
            let id = r.id->0;
            assert(t_next == mark_ran_seq(t, id));
            assert(t_next.len() == t.len());
            assert(forall|j: int|
                0 <= j < t.len() ==> #[trigger] t_next[j] == mark_one(t[j], id));
            assert forall|j: int| 0 <= j < t.len() implies ((#[trigger] t[j]).id == Some(id)) == (
            j == j0) by {
                if j < t0.len() {
                    assert(t[j].id == t0[j].id);
                    assert(t[j0].id == t0[j0].id);
                } else {
                    assert(t[j].id is None);
                }
            }
            assert(names_unique(t_next)) by {
                assert(forall|j: int|
                    0 <= j < t.len() ==> (#[trigger] t_next[j]).name == t[j].name);
            }
            lemma_run_effect(t0, t_next, fs1, flag, oks1);
            assert forall|j: int| 0 <= j < t.len() implies same_but_ran(t[j], #[trigger] rt[j])
                && (rt[j].ran <==> (t[j].ran || name_applied(t0, files, flag, oks, t[j].name))) by {
                lemma_name_applied_unfold(t0, files, flag, oks, t[j].name);
                assert(t_next[j] == mark_one(t[j], id));
                assert(same_but_ran(t_next[j], rt[j]));
                if j == j0 {
                    assert(t[j].name == g.name);
                    assert(t_next[j].ran);
                } else {
                    assert(t_next[j].ran == t[j].ran);
                    if j < t0.len() {
                        assert(t[j].name == t0[j].name);
                        assert(t[j].name != g.name);
                    } else {
                        assert(t[j].name != g.name);
                    }
                }
            }
            assert forall|j: int| t.len() <= j < rt.len() implies (#[trigger] rt[j]).id is None
                && rt[j].ran && name_applied(t0, files, flag, oks, rt[j].name) && !has_name(
                t0,
                rt[j].name,
            ) by {
                lemma_name_applied_unfold(t0, files, flag, oks, rt[j].name);
            }
            assert forall|i: int| applied_in(t0, files, flag, oks, i) implies exists|j: int|
                0 <= j < rt.len() && (#[trigger] rt[j]).name == files[i].name && rt[j].ran by {
                if i == 0 {
                    assert(t_next[j0].name == g.name);
                    assert(t_next[j0].ran);
                    assert(same_but_ran(t_next[j0], rt[j0]));
                    assert(rt[j0].ran <==> (t_next[j0].ran || name_applied(
                        t0,
                        fs1,
                        flag,
                        oks1,
                        t_next[j0].name,
                    )));
                    assert(rt[j0].name == g.name && rt[j0].ran);
                } else {
                    assert(applied_in(t0, fs1, flag, oks1, i - 1));
                    assert(fs1[i - 1].name == files[i].name);
                }
            }
            assert forall|f: FileModel|
                #[trigger] spec_file_skip(t, f, flag) && !name_in_files(files, f.name) implies
                spec_file_skip(rt, f, flag) by {
                lemma_find_rec_mark(t, id, f.name);
                assert(spec_file_skip(t_next, f, flag));
                assert(!name_in_files(fs1, f.name)) by {
                    if name_in_files(fs1, f.name) {
                        let k = choose|k: int|
                            0 <= k < fs1.len() && (#[trigger] fs1[k]).name == f.name;
                        assert(files[k + 1].name == f.name);
                    }
                }
            }
            assert forall|i: int|
                0 <= i < files.len() && (spec_file_skip(t0, files[i], flag) || oks[i]) implies
                spec_file_skip(rt, #[trigger] files[i], flag) by {
                if i == 0 {
                    assert(t_next[j0].name == g.name);
                    lemma_find_rec_unique(t_next, j0);
                    assert(find_rec(t_next, g.name) == Some(t_next[j0]));
                    assert(t_next[j0].ran);
                    assert(spec_file_skip(t_next, g, flag));
                    assert(!name_in_files(fs1, g.name)) by {
                        if name_in_files(fs1, g.name) {
                            let k = choose|k: int|
                                0 <= k < fs1.len() && (#[trigger] fs1[k]).name == g.name;
                            assert(files[k + 1].name == files[0].name);
                        }
                    }
                    assert(spec_file_skip(run_table(t0, t_next, fs1, flag, oks1), g, flag));
                } else {
                    assert(0 <= i - 1 < fs1.len());
                    assert(spec_file_skip(t0, fs1[i - 1], flag) || oks1[i - 1]);
                    assert(spec_file_skip(run_table(t0, t_next, fs1, flag, oks1), fs1[i - 1],
                        flag));
                    assert(fs1[i - 1] == files[i]);
                }
            }
        } else {
            // applied and unmatched: a fresh record is appended
            lemma_find_rec_has_name(t0, g.name);
            assert(!has_name(t0, g.name));
            assert(t_next == t.push(fresh_record(g)));
            assert(!has_name(t, g.name)) by {
                if has_name(t, g.name) {
                    let j = choose|j: int| 0 <= j < t.len() && t[j].name == g.name;
                    if j < t0.len() {
                        assert(t0[j].name == g.name);
                    }
                }
            }
            assert(names_unique(t_next)) by {
                assert(forall|j: int| 0 <= j < t.len() ==> #[trigger] t_next[j] == t[j]);
                assert(t_next[t.len() as int].name == g.name);
            }
            lemma_run_effect(t0, t_next, fs1, flag, oks1);
            assert forall|j: int| 0 <= j < t.len() implies same_but_ran(t[j], #[trigger] rt[j])
                && (rt[j].ran <==> (t[j].ran || name_applied(t0, files, flag, oks, t[j].name))) by {
                lemma_name_applied_unfold(t0, files, flag, oks, t[j].name);
                assert(t_next[j] == t[j]);
                assert(t[j].name != g.name);
            }
            assert forall|j: int| t.len() <= j < rt.len() implies (#[trigger] rt[j]).id is None
                && rt[j].ran && name_applied(t0, files, flag, oks, rt[j].name) && !has_name(
                t0,
                rt[j].name,
            ) by {
                lemma_name_applied_unfold(t0, files, flag, oks, rt[j].name);
                if j == t.len() {
                    assert(t_next[j] == fresh_record(g));
                    assert(same_but_ran(t_next[j], rt[j]));
                    assert(rt[j].ran <==> (t_next[j].ran || name_applied(
                        t0,
                        fs1,
                        flag,
                        oks1,
                        t_next[j].name,
                    )));
                    assert(rt[j].name == g.name);
                }
            }
            assert forall|i: int| applied_in(t0, files, flag, oks, i) implies exists|j: int|
                0 <= j < rt.len() && (#[trigger] rt[j]).name == files[i].name && rt[j].ran by {
                if i == 0 {
                    let j = t.len() as int;
                    assert(t_next[j] == fresh_record(g));
                    assert(same_but_ran(t_next[j], rt[j]));
                    assert(rt[j].ran <==> (t_next[j].ran || name_applied(
                        t0,
                        fs1,
                        flag,
                        oks1,
                        t_next[j].name,
                    )));
                    assert(rt[j].name == g.name && rt[j].ran);
                } else {
                    assert(applied_in(t0, fs1, flag, oks1, i - 1));
                    assert(fs1[i - 1].name == files[i].name);
                }
            }
            assert forall|f: FileModel|
                #[trigger] spec_file_skip(t, f, flag) && !name_in_files(files, f.name) implies
                spec_file_skip(rt, f, flag) by {
                lemma_find_rec_push(t, fresh_record(g), f.name);
                assert(f.name != g.name);
                assert(spec_file_skip(t_next, f, flag));
                assert(!name_in_files(fs1, f.name)) by {
                    if name_in_files(fs1, f.name) {
                        let k = choose|k: int|
                            0 <= k < fs1.len() && (#[trigger] fs1[k]).name == f.name;
                        assert(files[k + 1].name == f.name);
                    }
                }
            }
            assert forall|i: int|
                0 <= i < files.len() && (spec_file_skip(t0, files[i], flag) || oks[i]) implies
                spec_file_skip(rt, #[trigger] files[i], flag) by {
                if i == 0 {
                    lemma_find_rec_has_name(t, g.name);
                    lemma_find_rec_push(t, fresh_record(g), g.name);
                    assert(find_rec(t_next, g.name) == Some(fresh_record(g)));
                    assert(spec_file_skip(t_next, g, flag));
                    assert(!name_in_files(fs1, g.name)) by {
                        if name_in_files(fs1, g.name) {
                            let k = choose|k: int|
                                0 <= k < fs1.len() && (#[trigger] fs1[k]).name == g.name;
                            assert(files[k + 1].name == files[0].name);
                        }
                    }
                } else {
                    assert(spec_file_skip(t0, fs1[i - 1], flag) || oks1[i - 1]);
                }
            }
        }
    }
}

/// One-to-one correspondence: after a run, every migration file that was
/// executed successfully has a history record with its name, marked as
/// run — and, names being unique in the resulting table, exactly one.
pub proof fn lemma_one_to_one(
    t0: Seq<RecordModel>,
    files: Seq<FileModel>,
    flag: bool,
    oks: Seq<bool>,
    i: int,
)
    requires
        loaded_table_wf(t0),
        files_wf(files),
        oks.len() == files.len(),
        0 <= i < files.len(),
        !spec_file_skip(t0, files[i], flag),
        oks[i],
    ensures
        ({
            let tf = run_table(t0, t0, files, flag, oks);
            &&& names_unique(tf)
            &&& exists|j: int|
                0 <= j < tf.len() && (#[trigger] tf[j]).name == files[i].name && tf[j].ran
        }),
{
    lemma_run_effect(t0, t0, files, flag, oks);
    assert(applied_in(t0, files, flag, oks, i));
}

/// A name search answers alike in two tables that agree, record for
/// record, on names and `ran` flags.
proof fn lemma_find_rec_same(a: Seq<RecordModel>, b: Seq<RecordModel>, n: Seq<char>)
    requires
        a.len() == b.len(),
        forall|j: int|
            0 <= j < a.len() ==> (#[trigger] a[j]).name == b[j].name && a[j].ran == b[j].ran,
    ensures
        find_rec(a, n) is Some <==> find_rec(b, n) is Some,
        find_rec(a, n) is Some ==> find_rec(a, n)->Some_0.ran == find_rec(b, n)->Some_0.ran,
    decreases a.len(),
{
    if a.len() == 0 {
    } else if a[0].name == n {
    } else {
        assert(forall|j: int|
            0 <= j < a.drop_first().len() ==> (#[trigger] a.drop_first()[j]).name
                == b.drop_first()[j].name && a.drop_first()[j].ran == b.drop_first()[j].ran);
        lemma_find_rec_same(a.drop_first(), b.drop_first(), n);
    }
}

/// The skip decision reads only names and `ran` flags, so it is the same
/// against any two tables that agree on them.
proof fn lemma_skip_agrees(a: Seq<RecordModel>, b: Seq<RecordModel>, f: FileModel, flag: bool)
    requires
        a.len() == b.len(),
        forall|j: int|
            0 <= j < a.len() ==> (#[trigger] a[j]).name == b[j].name && a[j].ran == b[j].ran,
    ensures
        spec_file_skip(a, f, flag) == spec_file_skip(b, f, flag),
{
    lemma_find_rec_same(a, b, f.name);
}

/// Idempotence against the table as the store hands it back: the second
/// run loads the history afresh, so its records carry store-assigned ids
/// and timestamps; only their names and `ran` flags — which a reload
/// preserves — decide, and the run skips everything and changes nothing.
pub proof fn lemma_idempotent(
    t0: Seq<RecordModel>,
    files: Seq<FileModel>,
    flag: bool,
    oks1: Seq<bool>,
    t1r: Seq<RecordModel>,
    oks2: Seq<bool>,
)
    requires
        loaded_table_wf(t0),
        files_wf(files),
        oks1.len() == files.len(),
        oks2.len() == files.len(),
        forall|i: int|
            0 <= i < files.len() && !spec_file_skip(t0, #[trigger] files[i], flag) ==> oks1[i],
        t1r.len() == run_table(t0, t0, files, flag, oks1).len(),
        forall|j: int|
            0 <= j < t1r.len() ==> (#[trigger] t1r[j]).name == run_table(
                t0,
                t0,
                files,
                flag,
                oks1,
            )[j].name && t1r[j].ran == run_table(t0, t0, files, flag, oks1)[j].ran,
    ensures
        run_table(t1r, t1r, files, flag, oks2) == t1r,
        forall|i: int|
            0 <= i < files.len() ==> run_outcomes(t1r, files, flag, oks2)[i]
                == OutcomeModel::Skipped,
{
    lemma_run_effect(t0, t0, files, flag, oks1);
    let t1 = run_table(t0, t0, files, flag, oks1);
    assert forall|i: int| 0 <= i < files.len() implies spec_file_skip(
        t1r,
        #[trigger] files[i],
        flag,
    ) by {
        assert(spec_file_skip(t0, files[i], flag) || oks1[i]);
        assert(spec_file_skip(t1, files[i], flag));
        assert(forall|j: int|
            0 <= j < t1.len() ==> (#[trigger] t1[j]).name == t1r[j].name && t1[j].ran
                == t1r[j].ran);
        lemma_skip_agrees(t1, t1r, files[i], flag);
    }
    lemma_all_skipped(t1r, t1r, files, flag, oks2);
    assert forall|i: int| 0 <= i < files.len() implies run_outcomes(t1r, files, flag, oks2)[i]
        == OutcomeModel::Skipped by {
        lemma_run_outcomes_index(t1r, files, flag, oks2, i);
    }
}

/// A run whose every file but the last is skipped, and whose last file
/// is new and succeeds, appends exactly one fresh record.
proof fn lemma_skipped_then_one(
    t0: Seq<RecordModel>,
    t: Seq<RecordModel>,
    files: Seq<FileModel>,
    flag: bool,
    oks: Seq<bool>,
)
    requires
        oks.len() == files.len(),
        files.len() >= 1,
        forall|i: int|
            0 <= i < files.len() - 1 ==> spec_file_skip(t0, #[trigger] files[i], flag),
        !spec_file_skip(t0, files.last(), flag),
        find_rec(t0, files.last().name) is None,
        oks.last(),
    ensures
        run_table(t0, t, files, flag, oks) == t.push(fresh_record(files.last())),
    decreases files.len(),
{
    if files.len() == 1 {
        assert(files[0] == files.last());
        assert(oks[0] == oks.last());
        assert(step_table(t0, t, files[0], oks[0]) == t.push(fresh_record(files[0])));
        assert(files.drop_first().len() == 0);
        let t1 = step_table(t0, t, files[0], oks[0]);
        assert(run_table(t0, t1, files.drop_first(), flag, oks.drop_first()) == t1);
    } else {
        assert(spec_file_skip(t0, files[0], flag));
        assert(forall|i: int|
            0 <= i < files.drop_first().len() ==> #[trigger] files.drop_first()[i] == files[i
                + 1]);
        assert(files.drop_first().last() == files.last());
        assert(oks.drop_first().last() == oks.last());
        lemma_skipped_then_one(t0, t, files.drop_first(), flag, oks.drop_first());
    }
}

} // verus!
