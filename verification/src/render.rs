//! Rendering the day timeline: slots taken two at a time become rows of
//! block glyphs.
//!
//! Each row shows a half-hour unit: blank when both slots are free, a
//! lower or upper half block when one is taken, a full block when both
//! are.  A project label follows the blocks when the occupying project
//! differs from the one shown on the previous row; when the two slots of
//! a row belong to different projects and both are printed, a separator
//! joins the names.  Every fourth row carries a clock label, and the row
//! halfway between labels a light border, as visual guides.

use vstd::prelude::*;
use vstd::string::StrSliceExecFns;
use vstd::string::StringExecFns;
use crate::dates::instant_wf;
use crate::entry::{Entry, entry_wf, log_wf, log_before, log_disjoint};
use crate::text::{two_digits, push_two_digits};
use crate::viz::{MAX_DAY, Slot, covered, covers, any_visible, grid_lo, grid_hi, day_slots,
    visible, slot_lo, slot_hi, first_visible, last_visible_end, lemma_cover_unique,
    lemma_first_visible_is, lemma_last_visible_is, lemma_first_visible_props,
    lemma_last_visible_props};

verus! {

/// The left margin of one row: a clock label on two-hour rows, a light
/// border on the row halfway between them, else blank space.
pub open spec fn row_prefix(i: int) -> Seq<char> {
    if i >= 0 && i % 8 == 0 {
        two_digits((i * 15 / 60) % 24) + ":"@ + two_digits(i * 15 % 60) + " "@
    } else if i >= 0 && i % 8 == 6 {
        "▁▁▁▁▁▁"@
    } else {
        "      "@
    }
}

/// The name of the entry occupying index `i`, if any.
#[verifier::opaque]
pub open spec fn slot_project(s: Seq<Entry>, now: int, date: int, i: int) -> Option<Seq<char>> {
    if covered(s, now, date, i) {
        Some(s[choose|k: int| covers(s, now, date, k, i)].project@)
    } else {
        None
    }
}

/// The glyph run and label of one row, from the two slot occupants and
/// the project remembered from the previous row.
pub open spec fn row_blocks(
    a: Option<Seq<char>>,
    b: Option<Seq<char>>,
    prev: Option<Seq<char>>,
) -> Seq<char> {
    if a is None && b is None {
        Seq::<char>::empty()
    } else if a is None {
        "▄▄▄▄▄▄▄▄"@ + " "@ + b->0
    } else if b is None {
        "▀▀▀▀▀▀▀▀"@ + if prev != a {
            " "@ + a->0
        } else {
            Seq::<char>::empty()
        }
    } else {
        "████████"@ + if prev != a {
            " "@ + a->0 + if a != b {
                " / "@ + b->0
            } else {
                Seq::<char>::empty()
            }
        } else if a != b {
            " "@ + b->0
        } else {
            Seq::<char>::empty()
        }
    }
}

/// The rendered rows for slot indices `i .. hi`, taken two at a time; the
/// second slot's occupant is what the next row remembers.
#[verifier::opaque]
pub open spec fn rows_from(
    s: Seq<Entry>,
    now: int,
    date: int,
    i: int,
    hi: int,
    prev: Option<Seq<char>>,
) -> Seq<Seq<char>>
    decreases (hi - i + 1) / 2,
{
    if i >= hi {
        Seq::<Seq<char>>::empty()
    } else {
        let a = slot_project(s, now, date, i);
        let b = if i + 1 < hi {
            slot_project(s, now, date, i + 1)
        } else {
            None
        };
        seq![row_prefix(i) + row_blocks(a, b, prev)] + rows_from(s, now, date, i + 2, hi, b)
    }
}

/// The full rendering of one day.
pub open spec fn spec_rows(s: Seq<Entry>, now: int, date: int) -> Seq<Seq<char>> {
    if any_visible(s, now, date) {
        rows_from(s, now, date, grid_lo(s, now, date), grid_hi(s, now, date), None)
    } else {
        Seq::<Seq<char>>::empty()
    }
}

/// The character sequences of a vector of lines.
pub open spec fn row_views(rows: Seq<String>) -> Seq<Seq<char>> {
    rows.map_values(|r: String| r@)
}

/// The project name behind an optional entry index.
pub open spec fn name_of(s: Seq<Entry>, o: Option<usize>) -> Option<Seq<char>> {
    match o {
        Some(ix) => Some(s[ix as int].project@),
        None => None,
    }
}

/// Every slot's occupant names the project that `slot_project` gives its
/// index.
proof fn lemma_slot_names(s: Seq<Entry>, now: int, date: int, slots: Seq<Slot>, glo: int)
    requires
        log_wf(s),
        log_disjoint(s),
        log_before(s, now),
        forall|j: int| 0 <= j < slots.len() ==> (#[trigger] slots[j]).index as int == glo + j,
        forall|j: int|
            0 <= j < slots.len() ==> match (#[trigger] slots[j]).entry {
                Some(kk) => covers(s, now, date, kk as int, slots[j].index as int),
                None => !covered(s, now, date, slots[j].index as int),
            },
    ensures
        forall|j: int|
            0 <= j < slots.len() ==> name_of(s, (#[trigger] slots[j]).entry) == slot_project(
                s,
                now,
                date,
                glo + j,
            ),
        forall|j: int|
            0 <= j < slots.len() && (#[trigger] slots[j]).entry is Some ==> (
            slots[j].entry->0 as int) < s.len(),
{
    assert forall|j: int| 0 <= j < slots.len() implies name_of(s, (#[trigger] slots[j]).entry)
        == slot_project(s, now, date, glo + j) && (slots[j].entry is Some ==> (
    slots[j].entry->0 as int) < s.len()) by {
        reveal(slot_project);
        match slots[j].entry {
            Some(kk) => {
                assert(covers(s, now, date, kk as int, glo + j));
                let w = choose|k: int| #[trigger] covers(s, now, date, k, glo + j);
                lemma_cover_unique(s, now, date, w, kk as int, glo + j);
            },
            None => {
            },
        }
    }
}

/// Build one rendered row from a slot pair.
#[verifier::spinoff_prover]
#[verifier::rlimit(100)]
fn make_row(entries: &Vec<Entry>, i: i64, a: Option<usize>, b: Option<usize>, prev: Option<usize>) -> (line:
    String)
    requires
        -2 <= i <= 104,
        match a {
            Some(k) => (k as int) < entries@.len(),
            None => true,
        },
        match b {
            Some(k) => (k as int) < entries@.len(),
            None => true,
        },
        match prev {
            Some(k) => (k as int) < entries@.len(),
            None => true,
        },
    ensures
        line@ == row_prefix(i as int) + row_blocks(
            name_of(entries@, a),
            name_of(entries@, b),
            name_of(entries@, prev),
        ),
{
    let mut line = String::new();
    if i >= 0 && (i as u64) % 8 == 0 {
        let mt = (i as u64) * 15;
        push_two_digits(&mut line, (mt / 60) % 24);
        line.append(":");
        push_two_digits(&mut line, mt % 60);
        line.append(" ");
        proof {
            assert(line@ =~= row_prefix(i as int));
        }
    } else if i >= 0 && (i as u64) % 8 == 6 {
        line.append("▁▁▁▁▁▁");
        proof {
            assert(line@ =~= row_prefix(i as int));
        }
    } else {
        line.append("      ");
        proof {
            assert(line@ =~= row_prefix(i as int));
        }
    }
    let ghost na = name_of(entries@, a);
    let ghost nb = name_of(entries@, b);
    let ghost np = name_of(entries@, prev);
    match (a, b) {
        (None, None) => {
            proof {
                assert(line@ =~= row_prefix(i as int) + row_blocks(na, nb, np));
            }
        },
        (None, Some(k1)) => {
            line.append("▄▄▄▄▄▄▄▄");
            line.append(" ");
            line.append(entries[k1].project.as_str());
            proof {
                assert(line@ =~= row_prefix(i as int) + row_blocks(na, nb, np));
            }
        },
        (Some(k0), None) => {
            line.append("▀▀▀▀▀▀▀▀");
            let same = if let Some(ip) = prev {
                entries[ip].project == entries[k0].project
            } else {
                false
            };
            if !same {
                line.append(" ");
                line.append(entries[k0].project.as_str());
            }
            proof {
                assert(same == (np == na));
                assert(line@ =~= row_prefix(i as int) + row_blocks(na, nb, np));
            }
        },
        (Some(k0), Some(k1)) => {
            line.append("████████");
            let same = if let Some(ip) = prev {
                entries[ip].project == entries[k0].project
            } else {
                false
            };
            let ab_same = entries[k0].project == entries[k1].project;
            if !same {
                line.append(" ");
                line.append(entries[k0].project.as_str());
                if !ab_same {
                    line.append(" / ");
                    line.append(entries[k1].project.as_str());
                }
            } else if !ab_same {
                line.append(" ");
                line.append(entries[k1].project.as_str());
            }
            proof {
                assert(same == (np == na));
                assert(ab_same == (na == nb));
                assert(line@ =~= row_prefix(i as int) + row_blocks(na, nb, np));
            }
        },
    }
    line
}

/// Render one day's timeline as printable rows.
/// Render already-computed day slots as printable rows.
#[verifier::spinoff_prover]
#[verifier::rlimit(100)]
fn render_slots(
    entries: &Vec<Entry>,
    slots: &Vec<Slot>,
    now: i64,
    date: i64,
    Ghost(gglo): Ghost<int>,
    Ghost(gghi): Ghost<int>,
) -> (rows: Vec<String>)
    requires
        gglo == grid_lo(entries@, now as int, date as int),
        gghi == grid_hi(entries@, now as int, date as int),
        !any_visible(entries@, now as int, date as int) ==> slots@.len() == 0,
        any_visible(entries@, now as int, date as int) ==> slots@.len() == gghi - gglo && -2 <= gglo
            < gghi <= 97,
        forall|j: int| 0 <= j < slots@.len() ==> (#[trigger] slots@[j]).index as int == gglo + j,
        forall|j: int|
            0 <= j < slots@.len() ==> name_of(entries@, (#[trigger] slots@[j]).entry)
                == slot_project(entries@, now as int, date as int, gglo + j),
        forall|j: int|
            0 <= j < slots@.len() && (#[trigger] slots@[j]).entry is Some ==> (
            slots@[j].entry->0 as int) < entries@.len(),
    ensures
        row_views(rows@) == spec_rows(entries@, now as int, date as int),
{
    let ghost s = entries@;
    let ghost gnow = now as int;
    let ghost gdate = date as int;
    let mut rows: Vec<String> = Vec::new();
    let mut prev: Option<usize> = None;
    let mut t: usize = 0;
    proof {
        assert(row_views(rows@) =~= Seq::<Seq<char>>::empty());
        if any_visible(s, gnow, gdate) {
            assert(Seq::<Seq<char>>::empty() + rows_from(s, gnow, gdate, gglo, gghi, None) =~= rows_from(
                s,
                gnow,
                gdate,
                gglo,
                gghi,
                None,
            ));
        }
    }
    while t < slots.len()
        invariant
            s == entries@,
            gnow == now as int,
            gdate == date as int,
            !any_visible(s, gnow, gdate) ==> slots@.len() == 0 && rows@.len() == 0,
            any_visible(s, gnow, gdate) ==> slots@.len() == gghi - gglo,
            forall|j: int| 0 <= j < slots@.len() ==> (#[trigger] slots@[j]).index as int == gglo + j,
            forall|j: int|
                0 <= j < slots@.len() ==> name_of(s, (#[trigger] slots@[j]).entry) == slot_project(
                    s,
                    gnow,
                    gdate,
                    gglo + j,
                ),
            forall|j: int|
                0 <= j < slots@.len() && (#[trigger] slots@[j]).entry is Some ==> (
                slots@[j].entry->0 as int) < s.len(),
            any_visible(s, gnow, gdate) ==> -2 <= gglo && gglo + slots@.len() <= 105,
            t % 2 == 0,
            t <= slots@.len() + 1,
            match prev {
                Some(ix) => (ix as int) < s.len(),
                None => true,
            },
            any_visible(s, gnow, gdate) ==> spec_rows(s, gnow, gdate) == row_views(rows@)
                + rows_from(s, gnow, gdate, gglo + t, gghi, name_of(s, prev)),
        decreases slots@.len() + 1 - t,
    {
        let a = slots[t].entry;
        let b = if t + 1 < slots.len() {
            slots[t + 1].entry
        } else {
            None
        };
        let i = slots[t].index;
        let ghost told = t as int;
        let ghost np = name_of(s, prev);
        proof {
            assert(any_visible(s, gnow, gdate)) by {
                assert(slots@.len() > 0);
            }
            assert(i as int == gglo + told);
            assert(-2 <= i as int <= 104);
            assert(name_of(s, a) == slot_project(s, gnow, gdate, gglo + told));
            assert(name_of(s, b) == if gglo + told + 1 < gghi {
                slot_project(s, gnow, gdate, gglo + told + 1)
            } else {
                Option::<Seq<char>>::None
            });
        }
        let line = make_row(entries, i, a, b, prev);
        rows.push(line);
        prev = b;
        proof {
            assert(rows_from(s, gnow, gdate, gglo + told, gghi, np) == seq![
                row_prefix(gglo + told) + row_blocks(name_of(s, a), name_of(s, b), np),
            ] + rows_from(s, gnow, gdate, gglo + told + 2, gghi, name_of(s, b))) by {
                reveal_with_fuel(rows_from, 1);
            }
            assert(row_views(rows@) =~= row_views(rows@.drop_last()).push(line@));
            assert(spec_rows(s, gnow, gdate) =~= row_views(rows@) + rows_from(
                s,
                gnow,
                gdate,
                gglo + told + 2,
                gghi,
                name_of(s, prev),
            ));
        }
        t = t + 2;
    }
    proof {
        if any_visible(s, gnow, gdate) {
            assert(gglo + t >= gghi);
            assert(rows_from(s, gnow, gdate, gglo + t, gghi, name_of(s, prev))
                =~= Seq::<Seq<char>>::empty()) by {
                reveal_with_fuel(rows_from, 1);
            }
            assert(row_views(rows@) =~= row_views(rows@) + Seq::<Seq<char>>::empty());
        } else {
            assert(row_views(rows@) =~= spec_rows(s, gnow, gdate));
        }
    }
    rows
}

/// Render one day's timeline as printable rows.
pub fn render_day(entries: &Vec<Entry>, now: i64, date: i64) -> (rows: Vec<String>)
    requires
        log_wf(entries@),
        log_disjoint(entries@),
        log_before(entries@, now as int),
        instant_wf(now as int),
        0 <= date <= MAX_DAY,
    ensures
        row_views(rows@) == spec_rows(entries@, now as int, date as int),
{
    let ghost gglo = grid_lo(entries@, now as int, date as int);
    let ghost gghi = grid_hi(entries@, now as int, date as int);
    let slots = day_slots(entries, now, date);
    proof {
        lemma_slot_names(entries@, now as int, date as int, slots@, gglo);
    }
    render_slots(entries, &slots, now, date, Ghost(gglo), Ghost(gghi))
}

/// Rows depend only on the per-index slot occupants.
proof fn lemma_rows_from_congruent(
    s1: Seq<Entry>,
    now1: int,
    s2: Seq<Entry>,
    now2: int,
    date: int,
    i: int,
    hi: int,
    prev: Option<Seq<char>>,
)
    requires
        forall|j: int|
            i <= j < hi ==> #[trigger] slot_project(s1, now1, date, j) == slot_project(
                s2,
                now2,
                date,
                j,
            ),
    ensures
        rows_from(s1, now1, date, i, hi, prev) == rows_from(s2, now2, date, i, hi, prev),
    decreases (hi - i + 1) / 2,
{
    reveal_with_fuel(rows_from, 1);
    if i < hi {
        let b1 = if i + 1 < hi {
            slot_project(s1, now1, date, i + 1)
        } else {
            None
        };
        lemma_rows_from_congruent(s1, now1, s2, now2, date, i + 2, hi, b1);
    }
}

/// Once every entry is closed, the rendering does not depend on the
/// clock: the same log and date give the same rows under any two clock
/// readings the log lies before.
#[verifier::spinoff_prover]
#[verifier::rlimit(100)]
pub proof fn lemma_rows_fixed_when_closed(s: Seq<Entry>, date: int, now1: int, now2: int)
    requires
        log_wf(s),
        log_disjoint(s),
        log_before(s, now1),
        log_before(s, now2),
        forall|i: int| 0 <= i < s.len() ==> (#[trigger] s[i]).end is Some,
    ensures
        spec_rows(s, now1, date) == spec_rows(s, now2, date),
{
    assert forall|k: int| 0 <= k < s.len() implies visible(#[trigger] s[k], now1, date) == visible(
        s[k],
        now2,
        date,
    ) && slot_lo(s[k], now1, date) == slot_lo(s[k], now2, date) && slot_hi(s[k], now1, date)
        == slot_hi(s[k], now2, date) by {
        assert(s[k].end is Some);
    }
    if any_visible(s, now1, date) {
        let w = choose|w: int| 0 <= w < s.len() && visible(#[trigger] s[w], now1, date);
        assert(visible(s[w], now2, date));
        assert(any_visible(s, now2, date));
    }
    if any_visible(s, now2, date) {
        let w = choose|w: int| 0 <= w < s.len() && visible(#[trigger] s[w], now2, date);
        assert(visible(s[w], now1, date));
        assert(any_visible(s, now1, date));
    }
    if any_visible(s, now1, date) {
        lemma_first_visible_props(s, now1, date);
        lemma_last_visible_props(s, now1, date);
        let fv = first_visible(s, now1, date);
        let lv = last_visible_end(s, now1, date);
        lemma_first_visible_is(s, now2, date, fv);
        lemma_last_visible_is(s, now2, date, lv - 1);
        assert(grid_lo(s, now1, date) == grid_lo(s, now2, date)) by {
            reveal(grid_lo);
        }
        assert(grid_hi(s, now1, date) == grid_hi(s, now2, date)) by {
            reveal(grid_hi);
        }
        assert forall|i: int| #[trigger] slot_project(s, now1, date, i) == slot_project(
            s,
            now2,
            date,
            i,
        ) by {
            reveal(slot_project);
            if covered(s, now1, date, i) {
                let k1 = choose|k: int| covers(s, now1, date, k, i);
                assert(covers(s, now2, date, k1, i));
                assert(covered(s, now2, date, i));
                let k2 = choose|k: int| covers(s, now2, date, k, i);
                assert(covers(s, now1, date, k2, i));
                lemma_cover_unique(s, now1, date, k1, k2, i);
            } else if covered(s, now2, date, i) {
                let k2 = choose|k: int| covers(s, now2, date, k, i);
                assert(covers(s, now1, date, k2, i));
            }
        }
        lemma_rows_from_congruent(
            s,
            now1,
            s,
            now2,
            date,
            grid_lo(s, now1, date),
            grid_hi(s, now1, date),
            None,
        );
    }
}

/// Removing an entry keeps the log's shape.
proof fn lemma_remove_keeps_log(s: Seq<Entry>, now: int, k: int)
    requires
        log_wf(s),
        log_disjoint(s),
        log_before(s, now),
        0 <= k < s.len(),
    ensures
        log_wf(s.remove(k)),
        log_disjoint(s.remove(k)),
        log_before(s.remove(k), now),
{
    let t = s.remove(k);
    s.remove_ensures(k);
    assert(log_wf(t)) by {
        assert forall|j: int| 0 <= j < t.len() && (#[trigger] t[j]).end is None implies j == t.len()
            - 1 by {
            if j < k {
                assert(t[j] == s[j]);
            } else {
                assert(t[j] == s[j + 1]);
            }
        }
    }
    assert(log_disjoint(t)) by {
        assert forall|j: int| 0 <= j < t.len() - 1 implies match (#[trigger] t[j]).end {
            Some(te) => te <= t[j + 1].start,
            None => false,
        } by {
            if j < k - 1 {
                assert(t[j] == s[j] && t[j + 1] == s[j + 1]);
            } else if j == k - 1 {
                assert(t[j] == s[j] && t[j + 1] == s[j + 2]);
                assert(entry_wf(s[j]));
                assert(s[j + 1].start <= s[j + 2].start);
            } else {
                assert(t[j] == s[j + 1] && t[j + 1] == s[j + 2]);
            }
        }
    }
}

/// Removing an invisible entry leaves every slot's occupant unchanged.
#[verifier::spinoff_prover]
#[verifier::rlimit(100)]
proof fn lemma_remove_invisible_projects(s: Seq<Entry>, now: int, date: int, k: int)
    requires
        log_wf(s),
        log_disjoint(s),
        log_before(s, now),
        0 <= k < s.len(),
        !visible(s[k], now, date),
    ensures
        forall|i: int| #[trigger] slot_project(s.remove(k), now, date, i) == slot_project(
            s,
            now,
            date,
            i,
        ),
{
    let t = s.remove(k);
    s.remove_ensures(k);
    assert forall|i: int| #[trigger] slot_project(t, now, date, i) == slot_project(
        s,
        now,
        date,
        i,
    ) by {
        reveal(slot_project);
        if covered(s, now, date, i) {
            let k1 = choose|kk: int| covers(s, now, date, kk, i);
            assert(k1 != k);
            let k1t: int = if k1 < k {
                k1
            } else {
                k1 - 1
            };
            assert(t[k1t] == s[k1]);
            assert(covers(t, now, date, k1t, i));
            assert(covered(t, now, date, i));
            let k2t = choose|kk: int| covers(t, now, date, kk, i);
            let k2s: int = if k2t < k {
                k2t
            } else {
                k2t + 1
            };
            assert(t[k2t] == s[k2s]);
            assert(covers(s, now, date, k2s, i));
            lemma_cover_unique(s, now, date, k1, k2s, i);
        } else if covered(t, now, date, i) {
            let k2t = choose|kk: int| covers(t, now, date, kk, i);
            let k2s: int = if k2t < k {
                k2t
            } else {
                k2t + 1
            };
            assert(t[k2t] == s[k2s]);
            assert(covers(s, now, date, k2s, i));
        }
    }
}

/// An entry that does not show changes nothing: without it the same rows
/// are rendered, with no slot and no padding for it.
#[verifier::spinoff_prover]
#[verifier::rlimit(100)]
pub proof fn lemma_invisible_entry_ignored(s: Seq<Entry>, now: int, date: int, k: int)
    requires
        log_wf(s),
        log_disjoint(s),
        log_before(s, now),
        0 <= k < s.len(),
        !visible(s[k], now, date),
    ensures
        spec_rows(s.remove(k), now, date) == spec_rows(s, now, date),
{
    let t = s.remove(k);
    s.remove_ensures(k);
    lemma_remove_keeps_log(s, now, k);
    lemma_remove_invisible_projects(s, now, date, k);
    if any_visible(s, now, date) {
        lemma_first_visible_props(s, now, date);
        lemma_last_visible_props(s, now, date);
        let fv = first_visible(s, now, date);
        let lv = last_visible_end(s, now, date);
        assert(fv != k && lv - 1 != k);
        let fvt: int = if fv < k {
            fv
        } else {
            fv - 1
        };
        let lvt: int = if lv - 1 < k {
            lv - 1
        } else {
            lv - 2
        };
        assert(t[fvt] == s[fv]);
        assert(t[lvt] == s[lv - 1]);
        assert(any_visible(t, now, date));
        assert forall|j: int| 0 <= j < fvt implies !visible(#[trigger] t[j], now, date) by {
            if j < k {
                assert(t[j] == s[j]);
            } else {
                assert(t[j] == s[j + 1]);
            }
        }
        lemma_first_visible_is(t, now, date, fvt);
        assert forall|j: int| lvt < j < t.len() implies !visible(#[trigger] t[j], now, date) by {
            if j < k {
                assert(t[j] == s[j]);
            } else {
                assert(t[j] == s[j + 1]);
            }
        }
        lemma_last_visible_is(t, now, date, lvt);
        assert(grid_lo(t, now, date) == grid_lo(s, now, date)) by {
            reveal(grid_lo);
        }
        assert(grid_hi(t, now, date) == grid_hi(s, now, date)) by {
            reveal(grid_hi);
        }
        lemma_rows_from_congruent(
            t,
            now,
            s,
            now,
            date,
            grid_lo(s, now, date),
            grid_hi(s, now, date),
            None,
        );
    } else {
        if any_visible(t, now, date) {
            let w = choose|w: int| 0 <= w < t.len() && visible(#[trigger] t[w], now, date);
            if w < k {
                assert(t[w] == s[w]);
            } else {
                assert(t[w] == s[w + 1]);
            }
        }
    }
}

} // verus!
