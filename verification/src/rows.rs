//! Report rows: per-project accumulators kept in lexicographic order.
//!
//! A report is a vector of rows, one per project, sorted strictly by
//! project name.  `total_of` reads the seconds a report holds for a name
//! (zero when the name is absent), `row_sum` the seconds it holds over all
//! names; `bump_total` and `bump_week` add seconds to one name's row,
//! inserting the row at its sorted position on first use.

use vstd::prelude::*;
use crate::text::{str_lt, str_less, lemma_str_lt_trans, lemma_str_lt_connected,
    lemma_str_lt_irrefl};

verus! {

/// One row of the all-time or daily report.
pub struct ProjectTotal {
    pub project: String,
    pub secs: i64,
}

/// One row of the weekly report: seconds per day, indexed by days before
/// today (0 = today, 6 = six days ago).
pub struct ProjectWeek {
    pub project: String,
    pub days: [i64; 7],
}

/// Rows are strictly sorted by project name.
pub open spec fn totals_sorted(rows: Seq<ProjectTotal>) -> bool {
    forall|i: int, j: int|
        0 <= i < j < rows.len() ==> str_lt(
            #[trigger] rows[i].project@,
            #[trigger] rows[j].project@,
        )
}

/// Rows are strictly sorted by project name.
pub open spec fn weeks_sorted(rows: Seq<ProjectWeek>) -> bool {
    forall|i: int, j: int|
        0 <= i < j < rows.len() ==> str_lt(
            #[trigger] rows[i].project@,
            #[trigger] rows[j].project@,
        )
}

/// The seconds the rows hold for project `p`: the sum over matching rows,
/// which with sorted (hence unique) keys is the one row's value, or zero.
pub open spec fn total_of(rows: Seq<ProjectTotal>, p: Seq<char>) -> int
    decreases rows.len(),
{
    if rows.len() == 0 {
        0
    } else {
        total_of(rows.drop_last(), p) + if rows.last().project@ == p {
            rows.last().secs as int
        } else {
            0
        }
    }
}

/// The seconds the rows hold over all projects.
pub open spec fn row_sum(rows: Seq<ProjectTotal>) -> int
    decreases rows.len(),
{
    if rows.len() == 0 {
        0
    } else {
        row_sum(rows.drop_last()) + rows.last().secs as int
    }
}

/// Whether some row carries project `p`.
pub open spec fn has_project(rows: Seq<ProjectTotal>, p: Seq<char>) -> bool {
    exists|i: int| 0 <= i < rows.len() && (#[trigger] rows[i]).project@ == p
}

/// The seconds the weekly rows hold for project `p` on day `d`.
pub open spec fn week_total_of(rows: Seq<ProjectWeek>, p: Seq<char>, d: int) -> int
    decreases rows.len(),
{
    if rows.len() == 0 {
        0
    } else {
        week_total_of(rows.drop_last(), p, d) + if rows.last().project@ == p {
            rows.last().days@[d] as int
        } else {
            0
        }
    }
}

/// The seconds the weekly rows hold over all projects on day `d`.
pub open spec fn week_row_sum(rows: Seq<ProjectWeek>, d: int) -> int
    decreases rows.len(),
{
    if rows.len() == 0 {
        0
    } else {
        week_row_sum(rows.drop_last(), d) + rows.last().days@[d] as int
    }
}

/// Whether some weekly row carries project `p`.
pub open spec fn has_week(rows: Seq<ProjectWeek>, p: Seq<char>) -> bool {
    exists|i: int| 0 <= i < rows.len() && (#[trigger] rows[i]).project@ == p
}

/// Replacing one row, key unchanged, moves `total_of` by the value change.
proof fn lemma_total_of_update(rows: Seq<ProjectTotal>, k: int, r: ProjectTotal, p: Seq<char>)
    requires
        0 <= k < rows.len(),
        r.project@ == rows[k].project@,
    ensures
        total_of(rows.update(k, r), p) == total_of(rows, p) + if rows[k].project@ == p {
            r.secs - rows[k].secs
        } else {
            0
        },
    decreases rows.len(),
{
    let u = rows.update(k, r);
    if k == rows.len() - 1 {
        assert(u.drop_last() =~= rows.drop_last());
    } else {
        assert(u.last() == rows.last());
        assert(u.drop_last() =~= rows.drop_last().update(k, r));
        lemma_total_of_update(rows.drop_last(), k, r, p);
    }
}

/// Replacing one row moves `row_sum` by the value change.
proof fn lemma_row_sum_update(rows: Seq<ProjectTotal>, k: int, r: ProjectTotal)
    requires
        0 <= k < rows.len(),
    ensures
        row_sum(rows.update(k, r)) == row_sum(rows) + r.secs - rows[k].secs,
    decreases rows.len(),
{
    let u = rows.update(k, r);
    if k == rows.len() - 1 {
        assert(u.drop_last() =~= rows.drop_last());
    } else {
        assert(u.last() == rows.last());
        assert(u.drop_last() =~= rows.drop_last().update(k, r));
        lemma_row_sum_update(rows.drop_last(), k, r);
    }
}

/// Inserting a row adds its value to its key's `total_of`.
proof fn lemma_total_of_insert(rows: Seq<ProjectTotal>, k: int, r: ProjectTotal, p: Seq<char>)
    requires
        0 <= k <= rows.len(),
    ensures
        total_of(rows.insert(k, r), p) == total_of(rows, p) + if r.project@ == p {
            r.secs as int
        } else {
            0
        },
    decreases rows.len(),
{
    let u = rows.insert(k, r);
    if k == rows.len() {
        assert(u.drop_last() =~= rows);
        assert(u.last() == r);
    } else {
        assert(u.last() == rows.last());
        assert(u.drop_last() =~= rows.drop_last().insert(k, r));
        lemma_total_of_insert(rows.drop_last(), k, r, p);
    }
}

/// Inserting a row adds its value to `row_sum`.
proof fn lemma_row_sum_insert(rows: Seq<ProjectTotal>, k: int, r: ProjectTotal)
    requires
        0 <= k <= rows.len(),
    ensures
        row_sum(rows.insert(k, r)) == row_sum(rows) + r.secs,
    decreases rows.len(),
{
    let u = rows.insert(k, r);
    if k == rows.len() {
        assert(u.drop_last() =~= rows);
        assert(u.last() == r);
    } else {
        assert(u.last() == rows.last());
        assert(u.drop_last() =~= rows.drop_last().insert(k, r));
        lemma_row_sum_insert(rows.drop_last(), k, r);
    }
}

/// Rows without project `p` hold nothing for it.
pub proof fn lemma_total_of_absent(rows: Seq<ProjectTotal>, p: Seq<char>)
    requires
        forall|i: int| 0 <= i < rows.len() ==> (#[trigger] rows[i]).project@ != p,
    ensures
        total_of(rows, p) == 0,
    decreases rows.len(),
{
    if rows.len() > 0 {
        lemma_total_of_absent(rows.drop_last(), p);
    }
}

/// With sorted keys, `total_of` a present key reads that row's value.
pub proof fn lemma_total_of_present(rows: Seq<ProjectTotal>, i: int)
    requires
        totals_sorted(rows),
        0 <= i < rows.len(),
    ensures
        total_of(rows, rows[i].project@) == rows[i].secs as int,
    decreases rows.len(),
{
    let p = rows[i].project@;
    if i == rows.len() - 1 {
        assert forall|j: int| 0 <= j < rows.drop_last().len() implies (#[trigger] rows.drop_last()[j]).project@
            != p by {
            assert(str_lt(rows[j].project@, p));
            if rows[j].project@ == p {
                lemma_str_lt_irrefl(p);
            }
        }
        lemma_total_of_absent(rows.drop_last(), p);
    } else {
        assert(str_lt(p, rows.last().project@));
        if rows.last().project@ == p {
            lemma_str_lt_irrefl(p);
        }
        lemma_total_of_present(rows.drop_last(), i);
    }
}

/// Weekly versions of the same facts.
proof fn lemma_week_total_of_update(rows: Seq<ProjectWeek>, k: int, r: ProjectWeek, p: Seq<char>, d: int)
    requires
        0 <= k < rows.len(),
        r.project@ == rows[k].project@,
    ensures
        week_total_of(rows.update(k, r), p, d) == week_total_of(rows, p, d) + if rows[k].project@
            == p {
            r.days@[d] - rows[k].days@[d]
        } else {
            0
        },
    decreases rows.len(),
{
    let u = rows.update(k, r);
    if k == rows.len() - 1 {
        assert(u.drop_last() =~= rows.drop_last());
    } else {
        assert(u.last() == rows.last());
        assert(u.drop_last() =~= rows.drop_last().update(k, r));
        lemma_week_total_of_update(rows.drop_last(), k, r, p, d);
    }
}

proof fn lemma_week_row_sum_update(rows: Seq<ProjectWeek>, k: int, r: ProjectWeek, d: int)
    requires
        0 <= k < rows.len(),
    ensures
        week_row_sum(rows.update(k, r), d) == week_row_sum(rows, d) + r.days@[d] - rows[k].days@[d],
    decreases rows.len(),
{
    let u = rows.update(k, r);
    if k == rows.len() - 1 {
        assert(u.drop_last() =~= rows.drop_last());
    } else {
        assert(u.last() == rows.last());
        assert(u.drop_last() =~= rows.drop_last().update(k, r));
        lemma_week_row_sum_update(rows.drop_last(), k, r, d);
    }
}

proof fn lemma_week_total_of_insert(rows: Seq<ProjectWeek>, k: int, r: ProjectWeek, p: Seq<char>, d: int)
    requires
        0 <= k <= rows.len(),
    ensures
        week_total_of(rows.insert(k, r), p, d) == week_total_of(rows, p, d) + if r.project@ == p {
            r.days@[d] as int
        } else {
            0
        },
    decreases rows.len(),
{
    let u = rows.insert(k, r);
    if k == rows.len() {
        assert(u.drop_last() =~= rows);
        assert(u.last() == r);
    } else {
        assert(u.last() == rows.last());
        assert(u.drop_last() =~= rows.drop_last().insert(k, r));
        lemma_week_total_of_insert(rows.drop_last(), k, r, p, d);
    }
}

proof fn lemma_week_row_sum_insert(rows: Seq<ProjectWeek>, k: int, r: ProjectWeek, d: int)
    requires
        0 <= k <= rows.len(),
    ensures
        week_row_sum(rows.insert(k, r), d) == week_row_sum(rows, d) + r.days@[d],
    decreases rows.len(),
{
    let u = rows.insert(k, r);
    if k == rows.len() {
        assert(u.drop_last() =~= rows);
        assert(u.last() == r);
    } else {
        assert(u.last() == rows.last());
        assert(u.drop_last() =~= rows.drop_last().insert(k, r));
        lemma_week_row_sum_insert(rows.drop_last(), k, r, d);
    }
}

pub proof fn lemma_week_total_of_absent(rows: Seq<ProjectWeek>, p: Seq<char>, d: int)
    requires
        forall|i: int| 0 <= i < rows.len() ==> (#[trigger] rows[i]).project@ != p,
    ensures
        week_total_of(rows, p, d) == 0,
    decreases rows.len(),
{
    if rows.len() > 0 {
        lemma_week_total_of_absent(rows.drop_last(), p, d);
    }
}

/// With sorted keys, `week_total_of` a present key reads that row's value.
pub proof fn lemma_week_total_of_present(rows: Seq<ProjectWeek>, i: int, d: int)
    requires
        weeks_sorted(rows),
        0 <= i < rows.len(),
    ensures
        week_total_of(rows, rows[i].project@, d) == rows[i].days@[d] as int,
    decreases rows.len(),
{
    let p = rows[i].project@;
    if i == rows.len() - 1 {
        assert forall|j: int| 0 <= j < rows.drop_last().len() implies (#[trigger] rows.drop_last()[j]).project@
            != p by {
            assert(str_lt(rows[j].project@, p));
            if rows[j].project@ == p {
                lemma_str_lt_irrefl(p);
            }
        }
        lemma_week_total_of_absent(rows.drop_last(), p, d);
    } else {
        assert(str_lt(p, rows.last().project@));
        if rows.last().project@ == p {
            lemma_str_lt_irrefl(p);
        }
        lemma_week_total_of_present(rows.drop_last(), i, d);
    }
}

/// Add `amount` seconds to `project`'s row, inserting the row at its
/// sorted position if the project has none yet.
pub fn bump_total(rows: &mut Vec<ProjectTotal>, project: &String, amount: i64)
    requires
        totals_sorted(old(rows)@),
        0 <= amount,
        forall|i: int|
            0 <= i < old(rows)@.len() ==> 0 <= (#[trigger] old(rows)@[i]).secs
                && old(rows)@[i].secs + amount <= i64::MAX,
    ensures
        totals_sorted(final(rows)@),
        forall|p: Seq<char>|
            #[trigger] total_of(final(rows)@, p) == total_of(old(rows)@, p) + if p == project@ {
                amount as int
            } else {
                0
            },
        forall|p: Seq<char>|
            #[trigger] has_project(final(rows)@, p) == (has_project(old(rows)@, p) || p
                == project@),
        row_sum(final(rows)@) == row_sum(old(rows)@) + amount,
        forall|i: int| 0 <= i < final(rows)@.len() ==> 0 <= (#[trigger] final(rows)@[i]).secs,
{
    let ghost orig = rows@;
    let mut lo: usize = 0;
    while lo < rows.len() && str_less(rows[lo].project.as_str(), project.as_str())
        invariant
            rows@ == orig,
            lo <= rows@.len(),
            forall|j: int| 0 <= j < lo ==> str_lt((#[trigger] rows@[j]).project@, project@),
        decreases rows@.len() - lo,
    {
        lo = lo + 1;
    }
    if lo < rows.len() && rows[lo].project == *project {
        let updated = ProjectTotal {
            project: rows[lo].project.clone(),
            secs: rows[lo].secs + amount,
        };
        proof {
            assert forall|p: Seq<char>|
                #[trigger] total_of(orig.update(lo as int, updated), p) == total_of(orig, p)
                    + if p == project@ {
                    amount as int
                } else {
                    0
                } by {
                lemma_total_of_update(orig, lo as int, updated, p);
            }
            lemma_row_sum_update(orig, lo as int, updated);
        }
        rows[lo] = updated;
        proof {
            assert forall|p: Seq<char>|
                #[trigger] has_project(rows@, p) == (has_project(orig, p) || p == project@) by {
                if has_project(orig, p) {
                    let i = choose|i: int| 0 <= i < orig.len() && orig[i].project@ == p;
                    assert(rows@[i].project@ == p);
                }
                if has_project(rows@, p) {
                    let i = choose|i: int| 0 <= i < rows@.len() && rows@[i].project@ == p;
                    assert(orig[i].project@ == p);
                }
                if p == project@ {
                    assert(rows@[lo as int].project@ == p);
                }
            }
        }
    } else {
        proof {
            if lo < orig.len() {
                if !str_lt(project@, orig[lo as int].project@) {
                    lemma_str_lt_connected(orig[lo as int].project@, project@);
                }
                assert(str_lt(project@, orig[lo as int].project@));
            }
        }
        let fresh = ProjectTotal { project: project.clone(), secs: amount };
        proof {
            assert forall|p: Seq<char>|
                #[trigger] total_of(orig.insert(lo as int, fresh), p) == total_of(orig, p)
                    + if p == project@ {
                    amount as int
                } else {
                    0
                } by {
                lemma_total_of_insert(orig, lo as int, fresh, p);
            }
            lemma_row_sum_insert(orig, lo as int, fresh);
        }
        rows.insert(lo, fresh);
        proof {
            assert forall|i: int, j: int|
                0 <= i < j < rows@.len() implies str_lt(
                (#[trigger] rows@[i]).project@,
                (#[trigger] rows@[j]).project@,
            ) by {
                if j < lo {
                    assert(rows@[i] == orig[i] && rows@[j] == orig[j]);
                } else if i > lo {
                    assert(rows@[i] == orig[i - 1] && rows@[j] == orig[j - 1]);
                } else if i == lo {
                    assert(rows@[i].project@ == project@ && rows@[j] == orig[j - 1]);
                    assert(str_lt(project@, orig[lo as int].project@));
                    if j - 1 > lo {
                        lemma_str_lt_trans(
                            project@,
                            orig[lo as int].project@,
                            orig[j - 1].project@,
                        );
                    }
                } else if j == lo {
                    assert(rows@[i] == orig[i] && rows@[j].project@ == project@);
                } else {
                    // i < lo < j
                    assert(rows@[i] == orig[i] && rows@[j] == orig[j - 1]);
                    if j - 1 == lo {
                        if lo < orig.len() {
                            assert(str_lt(orig[i].project@, project@));
                        } else {
                            assert(str_lt(orig[i].project@, project@));
                        }
                    } else {
                        assert(str_lt(orig[i].project@, orig[j - 1].project@));
                    }
                }
            }
            assert forall|p: Seq<char>|
                #[trigger] has_project(rows@, p) == (has_project(orig, p) || p == project@) by {
                if has_project(orig, p) {
                    let i = choose|i: int| 0 <= i < orig.len() && orig[i].project@ == p;
                    if i < lo {
                        assert(rows@[i].project@ == p);
                    } else {
                        assert(rows@[i + 1].project@ == p);
                    }
                }
                if p == project@ {
                    assert(rows@[lo as int].project@ == p);
                }
                if has_project(rows@, p) {
                    let i = choose|i: int| 0 <= i < rows@.len() && rows@[i].project@ == p;
                    if i < lo {
                        assert(orig[i].project@ == p);
                    } else if i > lo {
                        assert(orig[i - 1].project@ == p);
                    }
                }
            }
        }
    }
}

/// Add `amount` seconds to day `d` of `project`'s weekly row, inserting a
/// zeroed row at its sorted position if the project has none yet.
pub fn bump_week(rows: &mut Vec<ProjectWeek>, project: &String, amount: i64, d: usize)
    requires
        d < 7,
        weeks_sorted(old(rows)@),
        0 <= amount,
        forall|i: int, dd: int|
            0 <= i < old(rows)@.len() && 0 <= dd < 7 ==> 0 <= #[trigger] old(rows)@[i].days@[dd]
                && old(rows)@[i].days@[dd] + amount <= i64::MAX,
    ensures
        weeks_sorted(final(rows)@),
        forall|p: Seq<char>, dd: int|
            0 <= dd < 7 ==> #[trigger] week_total_of(final(rows)@, p, dd)
                == week_total_of(old(rows)@, p, dd) + if p == project@ && dd == d {
                amount as int
            } else {
                0
            },
        forall|p: Seq<char>|
            #[trigger] has_week(final(rows)@, p) == (has_week(old(rows)@, p) || p == project@),
        forall|dd: int|
            0 <= dd < 7 ==> #[trigger] week_row_sum(final(rows)@, dd)
                == week_row_sum(old(rows)@, dd) + if dd == d {
                amount as int
            } else {
                0
            },
        forall|i: int, dd: int|
            0 <= i < final(rows)@.len() && 0 <= dd < 7 ==> 0 <= #[trigger] final(rows)@[i].days@[dd],
{
    let ghost orig = rows@;
    let mut lo: usize = 0;
    while lo < rows.len() && str_less(rows[lo].project.as_str(), project.as_str())
        invariant
            rows@ == orig,
            lo <= rows@.len(),
            forall|j: int| 0 <= j < lo ==> str_lt((#[trigger] rows@[j]).project@, project@),
        decreases rows@.len() - lo,
    {
        lo = lo + 1;
    }
    if lo < rows.len() && rows[lo].project == *project {
        let mut days = rows[lo].days;
        days[d] = days[d] + amount;
        let updated = ProjectWeek { project: rows[lo].project.clone(), days };
        proof {
            assert(updated.days@ =~= orig[lo as int].days@.update(d as int, updated.days@[d as int]));
            assert forall|p: Seq<char>, dd: int|
                0 <= dd < 7 implies #[trigger] week_total_of(
                orig.update(lo as int, updated),
                p,
                dd,
            ) == week_total_of(orig, p, dd) + if p == project@ && dd == d {
                amount as int
            } else {
                0
            } by {
                lemma_week_total_of_update(orig, lo as int, updated, p, dd);
            }
            assert forall|dd: int|
                0 <= dd < 7 implies #[trigger] week_row_sum(orig.update(lo as int, updated), dd)
                    == week_row_sum(orig, dd) + if dd == d {
                    amount as int
                } else {
                    0
                } by {
                lemma_week_row_sum_update(orig, lo as int, updated, dd);
            }
        }
        rows[lo] = updated;
        proof {
            assert forall|p: Seq<char>|
                #[trigger] has_week(rows@, p) == (has_week(orig, p) || p == project@) by {
                if has_week(orig, p) {
                    let i = choose|i: int| 0 <= i < orig.len() && orig[i].project@ == p;
                    assert(rows@[i].project@ == p);
                }
                if has_week(rows@, p) {
                    let i = choose|i: int| 0 <= i < rows@.len() && rows@[i].project@ == p;
                    assert(orig[i].project@ == p);
                }
                if p == project@ {
                    assert(rows@[lo as int].project@ == p);
                }
            }
        }
    } else {
        proof {
            if lo < orig.len() {
                if !str_lt(project@, orig[lo as int].project@) {
                    lemma_str_lt_connected(orig[lo as int].project@, project@);
                }
                assert(str_lt(project@, orig[lo as int].project@));
            }
        }
        let mut days: [i64; 7] = [0, 0, 0, 0, 0, 0, 0];
        days[d] = amount;
        let fresh = ProjectWeek { project: project.clone(), days };
        proof {
            assert forall|p: Seq<char>, dd: int|
                0 <= dd < 7 implies #[trigger] week_total_of(orig.insert(lo as int, fresh), p, dd)
                    == week_total_of(orig, p, dd) + if p == project@ && dd == d {
                    amount as int
                } else {
                    0
                } by {
                lemma_week_total_of_insert(orig, lo as int, fresh, p, dd);
            }
            assert forall|dd: int|
                0 <= dd < 7 implies #[trigger] week_row_sum(orig.insert(lo as int, fresh), dd)
                    == week_row_sum(orig, dd) + if dd == d {
                    amount as int
                } else {
                    0
                } by {
                lemma_week_row_sum_insert(orig, lo as int, fresh, dd);
            }
        }
        rows.insert(lo, fresh);
        proof {
            assert forall|i: int, j: int|
                0 <= i < j < rows@.len() implies str_lt(
                (#[trigger] rows@[i]).project@,
                (#[trigger] rows@[j]).project@,
            ) by {
                if j < lo {
                    assert(rows@[i] == orig[i] && rows@[j] == orig[j]);
                } else if i > lo {
                    assert(rows@[i] == orig[i - 1] && rows@[j] == orig[j - 1]);
                } else if i == lo {
                    assert(rows@[i].project@ == project@ && rows@[j] == orig[j - 1]);
                    assert(str_lt(project@, orig[lo as int].project@));
                    if j - 1 > lo {
                        lemma_str_lt_trans(
                            project@,
                            orig[lo as int].project@,
                            orig[j - 1].project@,
                        );
                    }
                } else if j == lo {
                    assert(rows@[i] == orig[i] && rows@[j].project@ == project@);
                } else {
                    assert(rows@[i] == orig[i] && rows@[j] == orig[j - 1]);
                    if j - 1 == lo {
                        assert(str_lt(orig[i].project@, project@));
                    } else {
                        assert(str_lt(orig[i].project@, orig[j - 1].project@));
                    }
                }
            }
            assert forall|p: Seq<char>|
                #[trigger] has_week(rows@, p) == (has_week(orig, p) || p == project@) by {
                if has_week(orig, p) {
                    let i = choose|i: int| 0 <= i < orig.len() && orig[i].project@ == p;
                    if i < lo {
                        assert(rows@[i].project@ == p);
                    } else {
                        assert(rows@[i + 1].project@ == p);
                    }
                }
                if p == project@ {
                    assert(rows@[lo as int].project@ == p);
                }
                if has_week(rows@, p) {
                    let i = choose|i: int| 0 <= i < rows@.len() && rows@[i].project@ == p;
                    if i < lo {
                        assert(orig[i].project@ == p);
                    } else if i > lo {
                        assert(orig[i - 1].project@ == p);
                    }
                }
            }
        }
    }
}

} // verus!
