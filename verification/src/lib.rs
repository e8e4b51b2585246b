//! Capture of structured log messages for inspection by tests.
//!
//! The core of the crate is [`stable_list::StableList`], an append-only list
//! that never moves or drops an element while it is alive, hands values out
//! by index, and supports resumable, optionally bounded iteration. On top of
//! it sits a small capture window, [`CaplogHandle`]: it remembers the list
//! length at its creation as a start offset, can freeze an end offset with
//! [`CaplogHandle::stop_recording`], and answers whether any recorded
//! message in its window contains a given snippet.

pub mod stable_list;

use crate::stable_list::{StableList, StableListIterator};
use vstd::prelude::*;

verus! {

/// Relies on the crate `log` for the type of a message's severity:
/// `log::Level` is a plain five-variant fieldless enum (`Error` through
/// `Trace`). Records only carry a level; nothing of it is inspected here.
#[verifier::external_type_specification]
#[verifier::external_body]
pub struct ExLevel(log::Level);

/// A single log message.
pub struct Record {
    /// The level at which the message was logged.
    pub level: log::Level,
    /// The message formatted as a string.
    pub msg: String,
}

/// Whether `needle` occurs in `hay` as a contiguous run of characters.
pub open spec fn contains_snippet(hay: Seq<char>, needle: Seq<char>) -> bool {
    exists|k: int|
        0 <= k && k + needle.len() <= hay.len() && #[trigger] hay.subrange(k, k + needle.len())
            == needle
}

/// Relies on `str::contains` with a `&str` pattern: it returns true exactly
/// when the pattern matches a contiguous sub-slice of the string.
#[verifier::external_body]
fn str_contains(hay: &str, needle: &str) -> (r: bool)
    ensures
        r == contains_snippet(hay@, needle@),
{
    hay.contains(needle)
}

/// A window onto the records captured in a `StableList`.
///
/// A handle sees the records appended while it is "alive": from the list
/// length at its creation until the length frozen by `stop_recording`, or
/// the list's current end while recording. The handle holds only offsets;
/// each operation is handed the list it was created over.
pub struct CaplogHandle {
    start_idx: usize,
    stop_idx: Option<usize>,
}

impl CaplogHandle {
    /// The index of the first record this handle sees.
    pub closed spec fn start(self) -> int {
        self.start_idx as int
    }

    /// The frozen end of this handle's window, if recording was stopped.
    pub closed spec fn stop(self) -> Option<usize> {
        self.stop_idx
    }

    /// The end of the window against list contents `s`: the frozen end once
    /// recording was stopped, but never past what `s` holds.
    pub open spec fn window_end(self, s: Seq<Record>) -> int {
        match self.stop() {
            Some(e) => if e as int <= s.len() as int {
                e as int
            } else {
                s.len() as int
            },
            None => s.len() as int,
        }
    }

    /// Whether the record at index `i` is visible through this handle
    /// against list contents `s`.
    pub open spec fn sees(self, s: Seq<Record>, i: int) -> bool {
        self.start() <= i < self.window_end(s)
    }

    /// Whether any message visible through this handle against `s` contains
    /// `needle`.
    pub open spec fn window_has(self, s: Seq<Record>, needle: Seq<char>) -> bool {
        exists|i: int| self.sees(s, i) && contains_snippet((#[trigger] s[i]).msg@, needle)
    }

    /// The index of the first record this handle sees.
    pub fn start_index(&self) -> (i: usize)
        ensures
            i as int == self.start(),
    {
        self.start_idx
    }

    /// Returns true iff any log message within the capture window contains
    /// the provided snippet.
    pub fn any_msg_contains(&self, list: &StableList<Record>, snippet: &str) -> (r: bool)
        requires
            list.wf(),
        ensures
            r == self.window_has(list@, snippet@),
    {
        let mut it = list.bounded_iter(self.start_idx, self.stop_idx);
        loop
            invariant
                list.wf(),
                it.wf_for(*list),
                it.bound() == self.stop(),
                self.start() <= it.next_pos(),
                forall|i: int|
                    self.start() <= i < it.next_pos() ==> !contains_snippet(
                        (#[trigger] list@[i]).msg@,
                        snippet@,
                    ),
            decreases list@.len() + 1 - it.next_pos(),
        {
            let ghost prev = it;
            match it.next(list) {
                Some(rec) => {
                    if str_contains(rec.msg.as_str(), snippet) {
                        proof {
                            assert(self.sees(list@, prev.next_pos()));
                            assert(self.window_has(list@, snippet@));
                        }
                        return true;
                    }
                },
                None => {
                    proof {
                        assert(forall|i: int|
                            self.sees(list@, i) ==> !contains_snippet(
                                (#[trigger] list@[i]).msg@,
                                snippet@,
                            ));
                    }
                    return false;
                },
            }
        }
    }

    /// Provides a resumable cursor over the records this handle sees: it
    /// starts at the handle's start offset and is bounded by the frozen end
    /// once recording was stopped.
    pub fn iter(&self, list: &StableList<Record>) -> (it: StableListIterator)
        ensures
            it.next_pos() == self.start(),
            it.bound() == self.stop(),
            it.wf_for(*list),
    {
        list.bounded_iter(self.start_idx, self.stop_idx)
    }

    /// Freezes the window's end at the list's current length: records
    /// appended afterwards are not visible through this handle.
    pub fn stop_recording(&mut self, list: &StableList<Record>)
        ensures
            final(self).start() == old(self).start(),
            (final(self).stop() matches Some(e) && e == list@.len()),
    {
        self.stop_idx = Some(list.len());
    }
}

/// Creates a handle onto the recorded logs in `list`, bounded to viewing
/// the records appended while it is alive: its window starts at the list's
/// current length.
pub fn get_handle(list: &StableList<Record>) -> (h: CaplogHandle)
    ensures
        h.start() == list@.len(),
        h.stop() is None,
{
    CaplogHandle { start_idx: list.len(), stop_idx: None }
}

} // verus!
