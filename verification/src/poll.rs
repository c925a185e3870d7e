//! The decisions of one polling pass over the log files, and the status
//! shown on the dashboard.
//!
//! A line's offset is committed only once the line is dealt with for good:
//! it was blank, it can never be parsed, or its record was stored. When
//! storing fails the offset stays, the pass stops, and the next pass reads
//! the same line again: the log file itself is the buffer against loss.

use crate::models::ScanRecord;
use crate::parser::{parse_line, spec_parse_line, ParseError};
use crate::state_store::{offset_in, ReadState};
use crate::text::{chars_of, trim, trim_chars};
use crate::watcher::new_lines;
use vstd::prelude::*;

verus! {

/// What the dashboard shows of the station.
#[derive(Debug, Clone)]
pub struct StatusSnapshot {
    pub last_poll_at: Option<String>,
    pub last_mo: Option<String>,
    pub records_sent_total: u64,
    pub last_parse_error: Option<String>,
    pub last_db_error: Option<String>,
    pub db_connected: bool,
}

impl Default for StatusSnapshot {
    fn default() -> (s: Self)
        ensures
            s.last_poll_at is None,
            s.last_mo is None,
            s.records_sent_total == 0,
            s.last_parse_error is None,
            s.last_db_error is None,
            !s.db_connected,
    {
        StatusSnapshot {
            last_poll_at: None,
            last_mo: None,
            records_sent_total: 0,
            last_parse_error: None,
            last_db_error: None,
            db_connected: false,
        }
    }
}

impl StatusSnapshot {
    /// Records a line that could not be read or parsed.
    pub fn note_parse_error(&mut self, message: String)
        ensures
            final(self).last_parse_error == Some(message),
            final(self).last_poll_at == old(self).last_poll_at,
            final(self).last_mo == old(self).last_mo,
            final(self).records_sent_total == old(self).records_sent_total,
            final(self).last_db_error == old(self).last_db_error,
            final(self).db_connected == old(self).db_connected,
    {
        self.last_parse_error = Some(message);
    }

    /// Records a file that could not be read in this pass, as `path: error`.
    /// The file's offset is left alone and the pass goes on with the next
    /// file, so the file is tried again next time.
    pub fn note_read_error(&mut self, path: &str, error: &str)
        ensures
            final(self).last_parse_error matches Some(m) && m@ == path@ + ": "@ + error@,
            final(self).last_poll_at == old(self).last_poll_at,
            final(self).last_mo == old(self).last_mo,
            final(self).records_sent_total == old(self).records_sent_total,
            final(self).last_db_error == old(self).last_db_error,
            final(self).db_connected == old(self).db_connected,
    {
        let mut m = String::from_str(path);
        m.append(": ");
        m.append(error);
        self.last_parse_error = Some(m);
    }

    /// Records a failure to reach or prepare the database before a pass.
    pub fn note_db_error(&mut self, message: String)
        ensures
            final(self).last_db_error == Some(message),
            final(self).last_poll_at == old(self).last_poll_at,
            final(self).last_mo == old(self).last_mo,
            final(self).records_sent_total == old(self).records_sent_total,
            final(self).last_parse_error == old(self).last_parse_error,
            final(self).db_connected == old(self).db_connected,
    {
        self.last_db_error = Some(message);
    }

    /// Records the time a pass ended.
    pub fn note_poll_finished(&mut self, at: String)
        ensures
            final(self).last_poll_at == Some(at),
            final(self).last_mo == old(self).last_mo,
            final(self).records_sent_total == old(self).records_sent_total,
            final(self).last_parse_error == old(self).last_parse_error,
            final(self).last_db_error == old(self).last_db_error,
            final(self).db_connected == old(self).db_connected,
    {
        self.last_poll_at = Some(at);
    }
}

/// What to do with one line read from a log file.
#[derive(Debug)]
pub enum LineStep {
    /// Nothing to store; the offset was committed.
    Committed,
    /// The line can never be parsed; the offset was committed.
    Rejected(ParseError),
    /// The record is to be stored; the offset waits for the outcome.
    Insert(ScanRecord),
}

/// Decides what to do with the line `line` of the file `path_key` that
/// ends at `line_offset`: a blank line and a line that does not parse are
/// done with (their offset is committed); a record waits to be stored.
pub fn plan_line(state: &mut ReadState, path_key: &str, line: &str, line_offset: u64) -> (step:
    LineStep)
    ensures
        trim(line@).len() == 0 ==> step is Committed && final(state)@ == old(state)@.insert(
            path_key@,
            line_offset,
        ),
        trim(line@).len() != 0 ==> match spec_parse_line(line@) {
            Err(e) => step matches LineStep::Rejected(err) && err@ == e && final(state)@ == old(
                state,
            )@.insert(path_key@, line_offset),
            Ok(r) => step matches LineStep::Insert(rec) && rec@ == r && final(state)@ == old(
                state,
            )@,
        },
        planned(old(state)@, path_key@, line@, line_offset, final(state)@),
        step is Insert <==> !settled_without_store(line@),
{
    if trim_chars(&chars_of(line)).len() == 0 {
        state.set_offset(path_key, line_offset);
        return LineStep::Committed;
    }
    match parse_line(line) {
        Err(e) => {
            state.set_offset(path_key, line_offset);
            LineStep::Rejected(e)
        },
        Ok(record) => LineStep::Insert(record),
    }
}

/// Takes in the outcome of storing `record`, read from `path_key` and
/// ending at `line_offset`. On success the offset is committed and the
/// status counts the record; on failure (its message given) the offset
/// stays, the status shows the error, and the pass must stop: the result
/// tells whether it may go on.
pub fn settle_insert(
    state: &mut ReadState,
    status: &mut StatusSnapshot,
    path_key: &str,
    line_offset: u64,
    record: &ScanRecord,
    outcome: Result<(), String>,
) -> (go_on: bool)
    requires
        outcome is Ok ==> old(status).records_sent_total < u64::MAX,
    ensures
        final(status).last_poll_at == old(status).last_poll_at,
        final(status).last_parse_error == old(status).last_parse_error,
        store_settled(old(state)@, path_key@, line_offset, outcome is Ok, final(state)@, go_on),
        match outcome {
            Ok(()) => {
                &&& go_on
                &&& final(state)@ == old(state)@.insert(path_key@, line_offset)
                &&& final(status).records_sent_total == old(status).records_sent_total + 1
                &&& final(status).last_mo matches Some(mo) && mo@ == record.mo@
                &&& final(status).last_db_error is None
                &&& final(status).db_connected
            },
            Err(message) => {
                &&& !go_on
                &&& final(state)@ == old(state)@
                &&& final(status).records_sent_total == old(status).records_sent_total
                &&& final(status).last_mo == old(status).last_mo
                &&& final(status).last_db_error == Some(message)
                &&& !final(status).db_connected
            },
        },
{
    match outcome {
        Ok(()) => {
            state.set_offset(path_key, line_offset);
            status.records_sent_total = status.records_sent_total + 1;
            status.last_mo = Some(record.mo.clone());
            status.last_db_error = None;
            status.db_connected = true;
            true
        },
        Err(message) => {
            status.last_db_error = Some(message);
            status.db_connected = false;
            false
        },
    }
}

/// After a failed store of the `k`-th line of the bytes `b` read at
/// `offset`, with the lines before it committed, the file's recorded
/// offset is the one returned with line `k - 1` (or `offset` itself for
/// the first line); reading again from there gives the failed line first,
/// so it is neither lost nor replaced by a later one.
pub proof fn lemma_failed_line_is_read_again(b: Seq<u8>, offset: int, k: int)
    requires
        0 <= k < new_lines(b, offset).len(),
    ensures
        ({
            let committed = if k == 0 {
                offset
            } else {
                new_lines(b, offset)[k - 1].1
            };
            new_lines(b.skip(committed - offset), committed).len() > 0 && new_lines(
                b.skip(committed - offset),
                committed,
            )[0] == new_lines(b, offset)[k]
        }),
{
    if k == 0 {
        assert(b.skip(0) =~= b);
    } else {
        crate::watcher::lemma_resume_after_line(b, offset, k - 1);
    }
}

/// The line is done with for good without storing anything: it is blank,
/// or it can never be parsed.
pub open spec fn settled_without_store(line: Seq<char>) -> bool {
    trim(line).len() == 0 || spec_parse_line(line) is Err
}

/// Line `k` of a pass is done with: settled without storing, or its
/// record was stored (`stored[k]`).
pub open spec fn line_done(lines: Seq<(Seq<char>, u64)>, stored: Seq<bool>, k: int) -> bool {
    settled_without_store(lines[k].0) || (k < stored.len() && stored[k])
}

/// One pass over the lines `lines` (text, offset just past the line) of
/// the file `key`, starting from the recorded offsets `m`, where `stored[k]`
/// is the outcome of storing the record of line `k`: each line goes
/// through [`plan_line`] and, for a record, [`settle_insert`]. Gives the
/// recorded offsets afterwards and whether the pass may go on.
pub open spec fn pass_over_file(
    m: Map<Seq<char>, u64>,
    key: Seq<char>,
    lines: Seq<(Seq<char>, u64)>,
    stored: Seq<bool>,
) -> (Map<Seq<char>, u64>, bool)
    decreases lines.len(),
{
    if lines.len() == 0 {
        (m, true)
    } else if line_done(lines, stored, 0) {
        pass_over_file(
            m.insert(key, lines[0].1),
            key,
            lines.drop_first(),
            if stored.len() > 0 {
                stored.drop_first()
            } else {
                stored
            },
        )
    } else {
        (m, false)
    }
}

/// No line is lost over a whole pass: afterwards the file's recorded
/// offset is its offset before the pass, or the offset of some line up to
/// which every line was done with; other files keep theirs. A pass that
/// stops does so at the first line not done with, and the recorded offset
/// is then the one just before that line. A pass that does not stop has
/// done with every line and records the offset after the last one.
pub proof fn lemma_pass_loses_no_line(
    m: Map<Seq<char>, u64>,
    key: Seq<char>,
    lines: Seq<(Seq<char>, u64)>,
    stored: Seq<bool>,
)
    ensures
        ({
            let (after, go_on) = pass_over_file(m, key, lines, stored);
            &&& forall|other: Seq<char>|
                other != key ==> #[trigger] offset_in(after, other) == offset_in(m, other)
            &&& (offset_in(after, key) == offset_in(m, key) || exists|j: int|
                0 <= j < lines.len() && offset_in(after, key) == lines[j].1 && forall|i: int|
                    0 <= i <= j ==> #[trigger] line_done(lines, stored, i))
            &&& !go_on ==> exists|f: int|
                0 <= f < lines.len() && !line_done(lines, stored, f) && (forall|i: int|
                    0 <= i < f ==> #[trigger] line_done(lines, stored, i)) && offset_in(after, key)
                    == (if f == 0 {
                    offset_in(m, key)
                } else {
                    lines[f - 1].1
                })
            &&& go_on ==> (forall|i: int| 0 <= i < lines.len() ==> #[trigger] line_done(lines, stored, i))
                && offset_in(after, key) == (if lines.len() == 0 {
                offset_in(m, key)
            } else {
                lines.last().1
            })
        }),
    decreases lines.len(),
{
    if lines.len() > 0 && line_done(lines, stored, 0) {
        let m1 = m.insert(key, lines[0].1);
        let rest = lines.drop_first();
        let st = if stored.len() > 0 {
            stored.drop_first()
        } else {
            stored
        };
        lemma_pass_loses_no_line(m1, key, rest, st);
        let (after, go_on) = pass_over_file(m1, key, rest, st);
        assert(pass_over_file(m, key, lines, stored) == (after, go_on));
        assert forall|i: int| 0 <= i < rest.len() implies #[trigger] line_done(rest, st, i)
            == line_done(lines, stored, i + 1) by {
            assert(rest[i] == lines[i + 1]);
        }
        if offset_in(after, key) == offset_in(m1, key) {
            assert(offset_in(after, key) == lines[0].1);
            assert(forall|i: int| 0 <= i <= 0 ==> #[trigger] line_done(lines, stored, i));
        } else {
            let j = choose|j: int|
                0 <= j < rest.len() && offset_in(after, key) == rest[j].1 && forall|i: int|
                    0 <= i <= j ==> #[trigger] line_done(rest, st, i);
            assert(lines[j + 1] == rest[j]);
            assert forall|i: int| 0 <= i <= j + 1 implies #[trigger] line_done(lines, stored, i) by {
                if i > 0 {
                    assert(line_done(rest, st, i - 1));
                }
            }
        }
        if !go_on {
            let f = choose|f: int|
                0 <= f < rest.len() && !line_done(rest, st, f) && (forall|i: int|
                    0 <= i < f ==> #[trigger] line_done(rest, st, i)) && offset_in(after, key) == (
                if f == 0 {
                    offset_in(m1, key)
                } else {
                    rest[f - 1].1
                });
            assert(!line_done(lines, stored, f + 1));
            assert forall|i: int| 0 <= i < f + 1 implies #[trigger] line_done(lines, stored, i) by {
                if i > 0 {
                    assert(line_done(rest, st, i - 1));
                }
            }
            if f > 0 {
                assert(lines[f] == rest[f - 1]);
            }
        } else {
            assert forall|i: int| 0 <= i < lines.len() implies #[trigger] line_done(lines, stored, i) by {
                if i > 0 {
                    assert(line_done(rest, st, i - 1));
                }
            }
            if rest.len() > 0 {
                assert(rest.last() == lines.last());
            }
        }
    } else if lines.len() > 0 {
        assert(!line_done(lines, stored, 0));
    }
}

/// How [`plan_line`] changes the recorded offsets `before` into `after`:
/// a line settled without storing commits its offset, a record leaves
/// the offsets as they were.
pub open spec fn planned(
    before: Map<Seq<char>, u64>,
    key: Seq<char>,
    line: Seq<char>,
    offset: u64,
    after: Map<Seq<char>, u64>,
) -> bool {
    if settled_without_store(line) {
        after == before.insert(key, offset)
    } else {
        after == before
    }
}

/// How [`settle_insert`] changes the recorded offsets and whether the pass
/// goes on: a stored record commits its offset and the pass goes on; a
/// failed store changes nothing and stops the pass.
pub open spec fn store_settled(
    before: Map<Seq<char>, u64>,
    key: Seq<char>,
    offset: u64,
    stored: bool,
    after: Map<Seq<char>, u64>,
    go_on: bool,
) -> bool {
    if stored {
        after == before.insert(key, offset) && go_on
    } else {
        after == before && !go_on
    }
}

/// The model [`pass_over_file`] takes each line exactly as [`plan_line`]
/// and then, for a record, [`settle_insert`] do: when their contracts hold
/// of the first line (offsets `m` to `m1` by `plan_line`; `m1` to `m2` and
/// `go_on` by `settle_insert` for a record, or nothing more for a settled
/// line), the pass over all lines is the pass over the remaining lines
/// from `m2` when `go_on`, and ends at `m2` otherwise.
pub proof fn lemma_pass_step_is_plan_then_settle(
    m: Map<Seq<char>, u64>,
    m1: Map<Seq<char>, u64>,
    m2: Map<Seq<char>, u64>,
    go_on: bool,
    key: Seq<char>,
    lines: Seq<(Seq<char>, u64)>,
    stored: Seq<bool>,
)
    requires
        lines.len() > 0,
        stored.len() == lines.len(),
        planned(m, key, lines[0].0, lines[0].1, m1),
        settled_without_store(lines[0].0) ==> m2 == m1 && go_on,
        !settled_without_store(lines[0].0) ==> store_settled(
            m1,
            key,
            lines[0].1,
            stored[0],
            m2,
            go_on,
        ),
    ensures
        pass_over_file(m, key, lines, stored) == (if go_on {
            pass_over_file(m2, key, lines.drop_first(), stored.drop_first())
        } else {
            (m2, false)
        }),
{
}

} // verus!
