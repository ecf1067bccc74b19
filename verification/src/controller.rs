//! The interactive session state machine. A `Session` owns the candidate
//! list, the typed query, the cached match list with its staleness flag,
//! and the selection index. Key events are applied one at a time through
//! `apply_event`; the caller that owns the terminal reads keys, plays back
//! rendered frames, and stops when an event reports a terminal outcome.
//!
//! The selection index is kept inside the bounds of the current match list
//! and the visible-rows budget at every step; a query change resets it to
//! the top. A confirm on an empty match list is ignored and the session
//! stays interactive.
use vstd::prelude::*;
use crate::matching::compute_matches;
use crate::matching::compute_matches_spec;
use crate::matching::views;

verus! {

/// The smaller of two values.
pub open spec fn spec_min(a: int, b: int) -> int {
    if a < b {
        a
    } else {
        b
    }
}

/// One decoded key event. The terminal driver collapses raw byte sequences
/// into this closed set before they reach the session.
#[derive(Clone, Copy, Debug, PartialEq, Eq)]
pub enum Event {
    /// A printable character was typed.
    Char(char),
    /// Remove the last query character.
    Backspace,
    /// Empty the query entirely.
    ClearLine,
    /// Abort the session with no output.
    Cancel,
    /// Move the selection one row up.
    MoveUp,
    /// Move the selection one row down.
    MoveDown,
    /// Confirm the selected match.
    Confirm,
}

/// What applying an event decided.
#[derive(Debug, PartialEq, Eq)]
pub enum Outcome {
    /// The session stays interactive.
    Continue,
    /// The session ended without a selection.
    Cancelled,
    /// The session ended and this line was selected.
    Selected(String),
}

/// Whether the session still accepts events.
#[derive(Clone, Copy, Debug, PartialEq, Eq, Structural)]
pub enum Phase {
    Typing,
    Terminated,
}

/// Appends `c` to the query text.
///
/// Relies on `String::push`: it appends exactly the given character.
#[verifier::external_body]
fn push_char(s: &mut String, c: char)
    ensures
        final(s)@ == old(s)@.push(c),
{
    s.push(c);
}

/// Removes the last character of the query text, if there is one.
///
/// Relies on `String::pop`: it removes and returns the last character of
/// the string, or returns `None` and leaves the string empty as it was.
#[verifier::external_body]
fn pop_char(s: &mut String) -> (r: Option<char>)
    ensures
        old(s)@.len() == 0 ==> final(s)@ == old(s)@ && r is None,
        old(s)@.len() > 0 ==> final(s)@ == old(s)@.drop_last() && r == Option::Some(
            old(s)@.last(),
        ),
{
    s.pop()
}

/// The state of one interactive selection session.
pub struct Session {
    /// The candidate lines, as supplied at startup.
    pub choices: Vec<String>,
    /// The query typed so far.
    pub query: String,
    /// The cached match list for `query`, valid when `stale` is false.
    pub matches: Vec<String>,
    /// Whether `matches` must be recomputed before it is next used.
    pub stale: bool,
    /// The selection offset into the visible part of `matches`.
    pub index: usize,
    /// The visible-rows budget of the viewport; at least one.
    pub visible: usize,
    /// Whether the session still accepts events.
    pub phase: Phase,
}

impl Session {
    /// The cached match list is exactly what the engine returns for the
    /// current query.
    pub open spec fn matches_current(self) -> bool {
        views(self.matches@) == compute_matches_spec(views(self.choices@), self.query@)
    }

    /// The selection index stays inside the current match list and the
    /// visible-rows budget, and sits at the top when there is no match.
    pub open spec fn index_ok(self) -> bool {
        if self.matches@.len() == 0 {
            self.index == 0
        } else {
            (self.index as int) < spec_min(self.visible as int, self.matches@.len() as int)
        }
    }

    /// The session invariant: every constructor establishes it and every
    /// event preserves it.
    pub open spec fn wf(self) -> bool {
        &&& self.visible >= 1
        &&& self.index_ok()
        &&& (self.stale ==> self.index == 0)
        &&& (!self.stale ==> self.matches_current())
    }

    /// Starts a session over `choices` with a seed query and a viewport of
    /// `visible` rows. The match list starts stale and is computed on the
    /// first refresh.
    pub fn new(choices: Vec<String>, initial_query: String, visible: usize) -> (s: Session)
        requires
            visible >= 1,
        ensures
            s.wf(),
            s.choices@ == choices@,
            s.query@ == initial_query@,
            s.matches@.len() == 0,
            s.stale,
            s.index == 0,
            s.visible == visible,
            s.phase == Phase::Typing,
    {
        Session {
            choices,
            query: initial_query,
            matches: Vec::new(),
            stale: true,
            index: 0,
            visible,
            phase: Phase::Typing,
        }
    }

    /// Recomputes the match list when it is stale; afterwards the cache is
    /// exactly the engine's answer for the current query.
    pub fn refresh_matches(&mut self)
        requires
            old(self).wf(),
        ensures
            final(self).wf(),
            !final(self).stale,
            final(self).matches_current(),
            final(self).choices@ == old(self).choices@,
            final(self).query@ == old(self).query@,
            final(self).index == old(self).index,
            final(self).visible == old(self).visible,
            final(self).phase == old(self).phase,
    {
        if self.stale {
            let m = compute_matches(&self.choices, self.query.as_str());
            self.matches = m;
            self.stale = false;
        }
    }

    /// Applies one decoded key event, returning whether the session goes
    /// on, was cancelled, or ended with a selected line.
    ///
    /// Query edits reset the selection to the top and mark the cache
    /// stale. Selection moves clamp against the fresh match list and the
    /// viewport. Confirm recomputes a stale cache first, then selects the
    /// line at the selection index; with no match it is ignored and the
    /// session stays interactive.
    pub fn apply_event(&mut self, ev: Event) -> (out: Outcome)
        requires
            old(self).wf(),
            old(self).phase == Phase::Typing,
        ensures
            final(self).wf(),
            final(self).choices@ == old(self).choices@,
            final(self).visible == old(self).visible,
            (match ev {
                Event::Char(c) => {
                    &&& final(self).query@ == old(self).query@.push(c)
                    &&& final(self).index == 0
                    &&& final(self).stale
                    &&& final(self).matches@ == old(self).matches@
                    &&& final(self).phase == Phase::Typing
                    &&& out == Outcome::Continue
                },
                Event::Backspace => {
                    &&& final(self).query@ == (if old(self).query@.len() > 0 {
                        old(self).query@.drop_last()
                    } else {
                        old(self).query@
                    })
                    &&& final(self).index == 0
                    &&& final(self).stale
                    &&& final(self).matches@ == old(self).matches@
                    &&& final(self).phase == Phase::Typing
                    &&& out == Outcome::Continue
                },
                Event::ClearLine => {
                    &&& final(self).query@ == Seq::<char>::empty()
                    &&& final(self).index == 0
                    &&& final(self).stale
                    &&& final(self).matches@ == old(self).matches@
                    &&& final(self).phase == Phase::Typing
                    &&& out == Outcome::Continue
                },
                Event::Cancel => {
                    &&& final(self).query@ == old(self).query@
                    &&& final(self).matches@ == old(self).matches@
                    &&& final(self).stale == old(self).stale
                    &&& final(self).index == old(self).index
                    &&& final(self).phase == Phase::Terminated
                    &&& out == Outcome::Cancelled
                },
                Event::MoveUp => {
                    &&& final(self).query@ == old(self).query@
                    &&& final(self).matches@ == old(self).matches@
                    &&& final(self).stale == old(self).stale
                    &&& final(self).index == (if old(self).index > 0 {
                        (old(self).index - 1) as usize
                    } else {
                        0usize
                    })
                    &&& final(self).phase == Phase::Typing
                    &&& out == Outcome::Continue
                },
                Event::MoveDown => {
                    &&& final(self).query@ == old(self).query@
                    &&& !final(self).stale
                    &&& final(self).matches_current()
                    &&& (final(self).index as int) == (if final(self).matches@.len() == 0 {
                        0
                    } else {
                        spec_min(
                            old(self).index + 1,
                            spec_min(
                                final(self).visible as int,
                                final(self).matches@.len() as int,
                            ) - 1,
                        )
                    })
                    &&& final(self).phase == Phase::Typing
                    &&& out == Outcome::Continue
                },
                Event::Confirm => {
                    &&& final(self).query@ == old(self).query@
                    &&& !final(self).stale
                    &&& final(self).matches_current()
                    &&& final(self).index == old(self).index
                    &&& (final(self).matches@.len() == 0 ==> final(self).phase == Phase::Typing
                        && out == Outcome::Continue)
                    &&& (final(self).matches@.len() > 0 ==> final(self).phase
                        == Phase::Terminated && (match out {
                        Outcome::Selected(s) => s@ == views(final(self).matches@)[
                            final(self).index as int
                        ],
                        _ => false,
                    }))
                },
            }),
    {
        match ev {
            Event::Char(c) => {
                push_char(&mut self.query, c);
                self.index = 0;
                self.stale = true;
                Outcome::Continue
            }
            Event::Backspace => {
                let _ = pop_char(&mut self.query);
                self.index = 0;
                self.stale = true;
                Outcome::Continue
            }
            Event::ClearLine => {
                self.query = String::new();
                self.index = 0;
                self.stale = true;
                Outcome::Continue
            }
            Event::Cancel => {
                self.phase = Phase::Terminated;
                Outcome::Cancelled
            }
            Event::MoveUp => {
                if self.index > 0 {
                    self.index = self.index - 1;
                }
                Outcome::Continue
            }
            Event::MoveDown => {
                self.refresh_matches();
                let limit = if self.visible < self.matches.len() {
                    self.visible
                } else {
                    self.matches.len()
                };
                if limit > 0 {
                    let next = self.index + 1;
                    self.index = if next < limit {
                        next
                    } else {
                        limit - 1
                    };
                } else {
                    self.index = 0;
                }
                Outcome::Continue
            }
            Event::Confirm => {
                self.refresh_matches();
                if self.matches.len() == 0 {
                    Outcome::Continue
                } else {
                    self.phase = Phase::Terminated;
                    let s = self.matches[self.index].clone();
                    proof {
                        assert(views(self.matches@)[self.index as int] == self.matches@[
                            self.index as int
                        ]@);
                    }
                    Outcome::Selected(s)
                }
            }
        }
    }
}

} // verus!
