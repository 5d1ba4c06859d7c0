//! The registration of watches under the system's ceiling.
//!
//! The registrar makes no call itself. It names the path to register next,
//! the caller registers it and hands back what the call returned.

use crate::error::{ErrorKind, WatchError};
use vstd::prelude::*;

verus! {

/// The state of a registration: the paths to watch, the ceiling on active
/// watches, for each path tried so far whether its watch is active, and the
/// count of the active watches.
pub struct RegistrarView {
    pub paths: Seq<Seq<char>>,
    pub limit: nat,
    pub outcomes: Seq<bool>,
    pub active: nat,
}

/// The paths among the first `outcomes.len()` of `paths` whose outcome is
/// `wanted`, in order.
pub open spec fn paths_with(paths: Seq<Seq<char>>, outcomes: Seq<bool>, wanted: bool) -> Seq<
    Seq<char>,
>
    decreases outcomes.len(),
{
    if outcomes.len() == 0 {
        Seq::empty()
    } else {
        let head = paths_with(paths, outcomes.drop_last(), wanted);
        if outcomes.last() == wanted {
            head.push(paths[outcomes.len() - 1])
        } else {
            head
        }
    }
}

impl RegistrarView {
    /// The registration before any path was tried.
    pub open spec fn initial(paths: Seq<Seq<char>>, limit: nat) -> RegistrarView {
        RegistrarView { paths, limit, outcomes: Seq::empty(), active: 0 }
    }

    /// The paths whose watches are active, in order.
    pub open spec fn active_paths(self) -> Seq<Seq<char>> {
        paths_with(self.paths, self.outcomes, true)
    }

    /// The paths whose registration failed, in order.
    pub open spec fn failed_paths(self) -> Seq<Seq<char>> {
        paths_with(self.paths, self.outcomes, false)
    }

    /// The paths that were not tried, in order.
    pub open spec fn remaining(self) -> Seq<Seq<char>> {
        self.paths.skip(self.outcomes.len() as int)
    }

    /// No path more than there is was tried, the count of active watches is
    /// that of the paths whose watches are active, and it is within the
    /// ceiling.
    pub open spec fn wf(self) -> bool {
        &&& self.outcomes.len() <= self.paths.len()
        &&& self.active == self.active_paths().len()
        &&& self.active <= self.limit
    }

    /// Nothing more is to be tried: every path was, or the ceiling is
    /// reached.
    pub open spec fn finished(self) -> bool {
        self.outcomes.len() >= self.paths.len() || self.active >= self.limit
    }

    /// The ceiling kept some paths from being tried.
    pub open spec fn truncated(self) -> bool {
        self.finished() && self.outcomes.len() < self.paths.len()
    }

    /// The state after the next path was tried with this outcome; a finished
    /// registration stays as it is.
    pub open spec fn recorded(self, success: bool) -> RegistrarView {
        if self.finished() {
            self
        } else {
            RegistrarView {
                outcomes: self.outcomes.push(success),
                active: if success {
                    self.active + 1
                } else {
                    self.active
                },
                ..self
            }
        }
    }
}

/// Every path that was tried is either active or failed, and none is both:
/// the two lists have as many paths as were tried.
pub proof fn lemma_registrar_tracks(v: RegistrarView)
    ensures
        v.active_paths().len() + v.failed_paths().len() == v.outcomes.len(),
    decreases v.outcomes.len(),
{
    if v.outcomes.len() > 0 {
        lemma_registrar_tracks(RegistrarView { outcomes: v.outcomes.drop_last(), ..v });
    }
}

/// A step keeps the registration well formed.
pub proof fn lemma_recorded_wf(v: RegistrarView, success: bool)
    requires
        v.wf(),
    ensures
        v.recorded(success).wf(),
{
    if !v.finished() {
        assert(v.outcomes.push(success).drop_last() =~= v.outcomes);
    }
}

/// When more paths are to be watched than the ceiling allows, and enough of
/// them can be registered to reach it, a finished registration has exactly
/// as many active watches as the ceiling allows, and the paths that remain
/// are all those behind the last one tried.
pub proof fn lemma_truncation(v: RegistrarView)
    requires
        v.wf(),
        v.finished(),
        v.paths.len() > v.limit,
        v.paths.len() - v.failed_paths().len() >= v.limit,
    ensures
        v.active == v.limit,
        v.active_paths().len() == v.limit,
        v.remaining() == v.paths.skip(v.limit as int + v.failed_paths().len()),
        v.failed_paths().len() == 0 ==> v.truncated() && v.remaining() == v.paths.skip(
            v.limit as int,
        ),
{
    lemma_registrar_tracks(v);
}

/// The registration of watches, one path at a time: it names the next path
/// to register, takes the outcome, and stops at the ceiling.
pub struct WatchRegistrar {
    paths: Vec<String>,
    limit: u32,
    outcomes: Vec<bool>,
    active: usize,
}

impl View for WatchRegistrar {
    type V = RegistrarView;

    closed spec fn view(&self) -> RegistrarView {
        RegistrarView {
            paths: self.paths.deep_view(),
            limit: self.limit as nat,
            outcomes: self.outcomes@,
            active: self.active as nat,
        }
    }
}

impl WatchRegistrar {
    /// The registrar is in a state that a registration can be in.
    pub open spec fn wf(&self) -> bool {
        self@.wf()
    }

    /// A registration of `paths`, in their order, with at most `limit`
    /// active watches.
    pub fn new(paths: Vec<String>, limit: u32) -> (r: Self)
        ensures
            r.wf(),
            r@ == RegistrarView::initial(paths.deep_view(), limit as nat),
    {
        WatchRegistrar { paths, limit, outcomes: Vec::new(), active: 0 }
    }

    /// Whether nothing more is to be tried.
    pub fn is_finished(&self) -> (r: bool)
        requires
            self.wf(),
        ensures
            r == self@.finished(),
    {
        self.outcomes.len() >= self.paths.len() || self.active >= self.limit as usize
    }

    /// The path to register next; `None` when the registration is finished.
    pub fn next_path(&self) -> (r: Option<&String>)
        requires
            self.wf(),
        ensures
            match r {
                Some(p) => !self@.finished() && p@ == self@.paths[self@.outcomes.len() as int],
                None => self@.finished(),
            },
    {
        if self.is_finished() {
            None
        } else {
            Some(&self.paths[self.outcomes.len()])
        }
    }

    /// Takes what registering the path that [`Self::next_path`] named
    /// returned: a watch id, or -1 where it failed, with the error code. A
    /// failure is returned as an error of the kind `RegisterFailed` with that
    /// code, and the registration goes on with the next path. A finished
    /// registration stays as it is.
    pub fn record(&mut self, wd: i32, os_error: i32) -> (r: Option<WatchError>)
        requires
            old(self).wf(),
        ensures
            final(self).wf(),
            final(self)@ == old(self)@.recorded(wd != -1),
            r == if !old(self)@.finished() && wd == -1 {
                Some(WatchError { kind: ErrorKind::RegisterFailed, code: os_error })
            } else {
                None
            },
    {
        if self.is_finished() {
            return None;
        }
        let success = wd != -1;
        proof {
            lemma_recorded_wf(self@, success);
            assert(self.outcomes@.push(success).drop_last() =~= self.outcomes@);
        }
        self.outcomes.push(success);
        if success {
            self.active = self.active + 1;
            None
        } else {
            Some(WatchError { kind: ErrorKind::RegisterFailed, code: os_error })
        }
    }

    /// The number of active watches.
    pub fn active_count(&self) -> (r: usize)
        requires
            self.wf(),
        ensures
            r == self@.active,
            r == self@.active_paths().len(),
            r <= self@.limit,
    {
        self.active
    }

    /// The paths whose registration failed, in order.
    pub fn failed_paths(&self) -> (r: Vec<String>)
        requires
            self.wf(),
        ensures
            r.deep_view() == self@.failed_paths(),
    {
        let mut out: Vec<String> = Vec::new();
        let mut i: usize = 0;
        while i < self.outcomes.len()
            invariant
                i <= self.outcomes.len() <= self.paths.len(),
                out.deep_view() == paths_with(
                    self.paths.deep_view(),
                    self.outcomes@.take(i as int),
                    false,
                ),
            decreases self.outcomes.len() - i,
        {
            let ghost before = out.deep_view();
            proof {
                assert(self.outcomes@.take(i + 1).drop_last() =~= self.outcomes@.take(i as int));
            }
            if !self.outcomes[i] {
                out.push(self.paths[i].clone());
                proof {
                    assert(out.deep_view() =~= before.push(self.paths[i as int]@));
                }
            }
            i += 1;
        }
        proof {
            assert(self.outcomes@.take(self.outcomes.len() as int) =~= self.outcomes@);
        }
        out
    }

    /// Whether the ceiling kept some paths from being tried.
    pub fn is_truncated(&self) -> (r: bool)
        requires
            self.wf(),
        ensures
            r == self@.truncated(),
    {
        self.is_finished() && self.outcomes.len() < self.paths.len()
    }

    /// The paths that were not tried, in order: once the registration is
    /// finished, those that the ceiling left without a watch.
    pub fn remaining_paths(&self) -> (r: Vec<String>)
        requires
            self.wf(),
        ensures
            r.deep_view() == self@.remaining(),
    {
        let mut out: Vec<String> = Vec::new();
        let start: usize = self.outcomes.len();
        let mut i: usize = start;
        while i < self.paths.len()
            invariant
                start <= i <= self.paths.len(),
                out.deep_view() == self.paths.deep_view().subrange(start as int, i as int),
            decreases self.paths.len() - i,
        {
            let ghost before = out.deep_view();
            out.push(self.paths[i].clone());
            proof {
                assert(out.deep_view() =~= before.push(self.paths[i as int]@));
                assert(self.paths.deep_view().subrange(start as int, i + 1) =~= before.push(
                    self.paths[i as int]@,
                ));
            }
            i += 1;
        }
        proof {
            assert(self.paths.deep_view().subrange(start as int, self.paths.len() as int)
                =~= self.paths.deep_view().skip(start as int));
        }
        out
    }
}

} // verus!
