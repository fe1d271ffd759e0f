//! The interval log: entries, validated construction, and the shape a log
//! must have before the aggregator or visualizer reads it.

use vstd::prelude::*;
use crate::dates::instant_wf;

verus! {

/// One span of tracked work on a project.  `end` is `None` while the entry
/// is still being tracked; at most the last entry of a log is in that state.
#[derive(Debug, Clone, PartialEq)]
pub struct Entry {
    pub project: String,
    pub start: i64,
    pub end: Option<i64>,
}

/// Why an entry could not be built or closed.
#[derive(Debug, PartialEq, Eq, Structural)]
pub enum InvalidEntry {
    /// The project name was empty.
    EmptyProject,
    /// The start instant lies before the timeline origin.
    StartBeforeEpoch,
    /// The start instant lies after `now`.
    StartInFuture,
    /// The end instant lies after `now`.
    EndInFuture,
    /// The end instant lies before the entry's start.
    EndBeforeStart,
}

/// A well-formed entry: a named project, a bounded start, and an end (when
/// present) bounded and no earlier than the start.
pub open spec fn entry_wf(e: Entry) -> bool {
    &&& e.project@.len() > 0
    &&& instant_wf(e.start as int)
    &&& match e.end {
        Some(t) => instant_wf(t as int) && e.start <= t,
        None => true,
    }
}

/// The instant an entry stops counting: its end, or `now` while ongoing.
pub open spec fn entry_stop(e: Entry, now: int) -> int {
    match e.end {
        Some(t) => t as int,
        None => now,
    }
}

/// A well-formed log: every entry well formed, starts non-decreasing, and
/// only the last entry may be ongoing.
pub open spec fn log_wf(s: Seq<Entry>) -> bool {
    &&& forall|i: int| 0 <= i < s.len() ==> entry_wf(#[trigger] s[i])
    &&& forall|i: int, j: int| 0 <= i < j < s.len() ==> s[i].start <= s[j].start
    &&& forall|i: int| 0 <= i < s.len() && (#[trigger] s[i]).end is None ==> i == s.len() - 1
}

/// Every instant in the log lies at or before `now`.
pub open spec fn log_before(s: Seq<Entry>, now: int) -> bool {
    forall|i: int| 0 <= i < s.len() ==> (#[trigger] s[i]).start <= now && entry_stop(s[i], now)
        <= now
}

/// Entries do not overlap: each closed entry ends no later than the next
/// entry starts.  The tracker stops an entry before starting the next, so a
/// real log has this shape; the visualizer's layout depends on it.
pub open spec fn log_disjoint(s: Seq<Entry>) -> bool {
    forall|i: int|
        0 <= i < s.len() - 1 ==> match (#[trigger] s[i]).end {
            Some(t) => t <= s[i + 1].start,
            None => false,
        }
}

impl Entry {
    /// Validated construction of an ongoing entry with an explicit start.
    /// Succeeds exactly on a named project and a start between the timeline
    /// origin and `now`.
    pub fn start_from(project: String, start: i64, now: i64) -> (r: Result<Entry, InvalidEntry>)
        requires
            instant_wf(now as int),
        ensures
            r == if project@.len() == 0 {
                Err::<Entry, InvalidEntry>(InvalidEntry::EmptyProject)
            } else if start < 0 {
                Err::<Entry, InvalidEntry>(InvalidEntry::StartBeforeEpoch)
            } else if start > now {
                Err::<Entry, InvalidEntry>(InvalidEntry::StartInFuture)
            } else {
                Ok::<Entry, InvalidEntry>(Entry { project, start, end: None })
            },
            r is Ok ==> entry_wf(r->Ok_0),
    {
        if project.as_str().is_empty() {
            Err(InvalidEntry::EmptyProject)
        } else if start < 0 {
            Err(InvalidEntry::StartBeforeEpoch)
        } else if start > now {
            Err(InvalidEntry::StartInFuture)
        } else {
            Ok(Entry { project, start, end: None })
        }
    }

    /// Validated construction of an ongoing entry starting right now.
    pub fn start(project: String, now: i64) -> (r: Result<Entry, InvalidEntry>)
        requires
            instant_wf(now as int),
        ensures
            r == if project@.len() == 0 {
                Err::<Entry, InvalidEntry>(InvalidEntry::EmptyProject)
            } else {
                Ok::<Entry, InvalidEntry>(Entry { project, start: now, end: None })
            },
            r is Ok ==> entry_wf(r->Ok_0),
    {
        Self::start_from(project, now, now)
    }

    /// Close the entry at an explicit end instant.  Succeeds exactly when
    /// the end lies between the entry's start and `now`; on failure the
    /// entry is unchanged.
    pub fn stop_at(&mut self, end: i64, now: i64) -> (r: Result<(), InvalidEntry>)
        requires
            instant_wf(now as int),
            entry_wf(*old(self)),
        ensures
            end > now ==> r == Err::<(), InvalidEntry>(InvalidEntry::EndInFuture) && *final (self)
                == *old(self),
            end <= now && end < old(self).start ==> r == Err::<(), InvalidEntry>(
                InvalidEntry::EndBeforeStart,
            ) && *final (self) == *old(self),
            end <= now && end >= old(self).start ==> r == Ok::<(), InvalidEntry>(())
                && *final (self) == (Entry { end: Some(end), ..*old(self) }),
            r is Ok ==> entry_wf(*final (self)),
    {
        if end > now {
            Err(InvalidEntry::EndInFuture)
        } else if end < self.start {
            Err(InvalidEntry::EndBeforeStart)
        } else {
            self.end = Some(end);
            Ok(())
        }
    }

    /// Close the entry right now.
    pub fn stop(&mut self, now: i64) -> (r: Result<(), InvalidEntry>)
        requires
            instant_wf(now as int),
            entry_wf(*old(self)),
        ensures
            old(self).start <= now ==> r == Ok::<(), InvalidEntry>(()) && *final (self) == (Entry {
                end: Some(now),
                ..*old(self)
            }),
            old(self).start > now ==> r == Err::<(), InvalidEntry>(InvalidEntry::EndBeforeStart)
                && *final (self) == *old(self),
            r is Ok ==> entry_wf(*final (self)),
    {
        self.stop_at(now, now)
    }

    /// Whether the entry is still tracking time.
    pub fn is_ongoing(&self) -> (r: bool)
        ensures
            r == (self.end is None),
    {
        self.end.is_none()
    }
}

} // verus!
