//! The watcher of directory trees: what is known at start-up, and the way
//! from there to the walk, the registration and the read loop.

use crate::directory_walker::{DirectoryWalker, WalkView, WALK_DEPTH};
use crate::error::{ErrorKind, WatchError};
use crate::text::{chars_of, decimal_u32, parse_u32, trim, trimmed};
use crate::watch_loop::{LoopView, WatchLoop};
use crate::watch_registrar::{RegistrarView, WatchRegistrar};
use crate::watch_set::strictly_sorted;
use vstd::prelude::*;

verus! {

/// A copy of a list of paths.
pub fn clone_paths(paths: &Vec<String>) -> (r: Vec<String>)
    ensures
        r.deep_view() == paths.deep_view(),
{
    let mut out: Vec<String> = Vec::new();
    let mut i: usize = 0;
    while i < paths.len()
        invariant
            i <= paths.len(),
            out.deep_view() == paths.deep_view().take(i as int),
        decreases paths.len() - i,
    {
        let ghost before = out.deep_view();
        out.push(paths[i].clone());
        proof {
            assert(out.deep_view() =~= before.push(paths[i as int]@));
            assert(paths.deep_view().take(i + 1) =~= before.push(paths[i as int]@));
        }
        i += 1;
    }
    proof {
        assert(paths.deep_view().take(paths.len() as int) =~= paths.deep_view());
    }
    out
}

/// The number that the text of the system's ceiling on watches writes: the
/// text without the white space around it, read in decimal. `None` where
/// there is no text or it writes no such number.
pub open spec fn watch_limit(text: Option<Seq<char>>) -> Option<u32> {
    match text {
        Some(t) => decimal_u32(trim(t)),
        None => None,
    }
}

/// What a watcher holds: the handle of the notification instance, -1 before
/// it is opened; the ceiling on watches; the roots of the last walk; and the
/// directories to watch that it found, sorted.
pub struct WatcherView {
    pub fd: i32,
    pub max_user_watches: u32,
    pub root_directories: Seq<Seq<char>>,
    pub watch_directories: Seq<Seq<char>>,
}

impl WatcherView {
    /// The directories to watch are sorted, each once.
    pub open spec fn wf(self) -> bool {
        strictly_sorted(self.watch_directories)
    }
}

/// The watcher: it holds what is known at start-up and hands out the walk,
/// the registration and the read loop that work with it.
pub struct FileSystemWatcher {
    fd: i32,
    max_user_watches: u32,
    root_directories: Vec<String>,
    watch_directories: Vec<String>,
}

impl View for FileSystemWatcher {
    type V = WatcherView;

    closed spec fn view(&self) -> WatcherView {
        WatcherView {
            fd: self.fd,
            max_user_watches: self.max_user_watches,
            root_directories: self.root_directories.deep_view(),
            watch_directories: self.watch_directories.deep_view(),
        }
    }
}

impl FileSystemWatcher {
    /// A watcher with the ceiling that `limit_text` writes, the text of the
    /// system's setting, or `None` where that could not be read. Without a
    /// ceiling there is no watcher: the error is of the kind
    /// `LimitUnavailable`.
    pub fn new(limit_text: Option<&str>) -> (r: Result<Self, WatchError>)
        ensures
            match watch_limit(
                match limit_text {
                    Some(t) => Some(t@),
                    None => None,
                },
            ) {
                Some(limit) => r is Ok && r->Ok_0@.wf() && r->Ok_0@ == (WatcherView {
                    fd: -1i32,
                    max_user_watches: limit,
                    root_directories: Seq::empty(),
                    watch_directories: Seq::empty(),
                }),
                None => r is Err && r->Err_0 == (WatchError {
                    kind: ErrorKind::LimitUnavailable,
                    code: 0,
                }),
            },
    {
        let parsed = match limit_text {
            Some(t) => parse_u32(&trimmed(&chars_of(t))),
            None => None,
        };
        match parsed {
            Some(limit) => {
                let watcher = FileSystemWatcher {
                    fd: -1,
                    max_user_watches: limit,
                    root_directories: Vec::new(),
                    watch_directories: Vec::new(),
                };
                proof {
                    assert(watcher.root_directories.deep_view() =~= Seq::<Seq<char>>::empty());
                    assert(watcher.watch_directories.deep_view() =~= Seq::<Seq<char>>::empty());
                }
                Ok(watcher)
            },
            None => Err(WatchError { kind: ErrorKind::LimitUnavailable, code: 0 }),
        }
    }

    /// The handle of the notification instance, -1 before it is opened.
    pub fn fd(&self) -> (r: i32)
        ensures
            r == self@.fd,
    {
        self.fd
    }

    /// The ceiling on active watches.
    pub fn max_user_watches(&self) -> (r: u32)
        ensures
            r == self@.max_user_watches,
    {
        self.max_user_watches
    }

    /// The roots of the last walk.
    pub fn root_directories(&self) -> (r: &Vec<String>)
        ensures
            r.deep_view() == self@.root_directories,
    {
        &self.root_directories
    }

    /// The directories to watch, sorted, each once.
    pub fn watch_directories(&self) -> (r: &Vec<String>)
        ensures
            r.deep_view() == self@.watch_directories,
    {
        &self.watch_directories
    }

    /// Begins a walk from `directories`, [`WALK_DEPTH`] levels deep. The
    /// watcher takes them as its roots and forgets what an earlier walk
    /// found.
    pub fn walk_directories(&mut self, directories: Vec<String>) -> (walker: DirectoryWalker)
        ensures
            walker.wf(),
            walker@ == WalkView::initial(directories.deep_view(), WALK_DEPTH as nat),
            final(self)@.wf(),
            final(self)@ == (WatcherView {
                root_directories: directories.deep_view(),
                watch_directories: Seq::empty(),
                ..old(self)@
            }),
    {
        self.root_directories = clone_paths(&directories);
        self.watch_directories = Vec::new();
        proof {
            assert(self.watch_directories.deep_view() =~= Seq::<Seq<char>>::empty());
        }
        DirectoryWalker::new(directories, WALK_DEPTH)
    }

    /// Takes over what a walk has found, once it is done, and returns the
    /// roots that the walk failed on. A walk that is not done is refused
    /// with `None`, and the watcher stays as it is.
    pub fn finish_walk(&mut self, walker: DirectoryWalker) -> (r: Option<Vec<String>>)
        requires
            walker.wf(),
        ensures
            walker@.done() ==> final(self)@.wf(),
            walker@.done() ==> r is Some && r->0.deep_view() == walker@.failed && final(self)@ == (
            WatcherView {
                root_directories: walker@.roots,
                watch_directories: walker@.found,
                ..old(self)@
            }),
            !walker@.done() ==> r is None && final(self)@ == old(self)@,
    {
        if !walker.is_done() {
            return None;
        }
        let (roots, found, failed) = walker.into_parts();
        self.root_directories = roots;
        self.watch_directories = found;
        Some(failed)
    }

    /// Takes what opening the notification instance returned, with the error
    /// code where it returned -1, and begins the registration of the
    /// directories to watch, in their order, under the ceiling. A failed
    /// open gives an error of the kind `OpenFailed` with that code, and
    /// leaves the watcher as it is.
    pub fn add_watch(&mut self, fd: i32, os_error: i32) -> (r: Result<WatchRegistrar, WatchError>)
        ensures
            final(self)@.wf() == old(self)@.wf(),
            fd == -1 ==> r == Err::<WatchRegistrar, WatchError>(
                WatchError { kind: ErrorKind::OpenFailed, code: os_error },
            ) && final(self)@ == old(self)@,
            fd != -1 ==> r is Ok && r->Ok_0.wf() && r->Ok_0@ == RegistrarView::initial(
                old(self)@.watch_directories,
                old(self)@.max_user_watches as nat,
            ) && final(self)@ == (WatcherView { fd, ..old(self)@ }),
    {
        if fd == -1 {
            return Err(WatchError { kind: ErrorKind::OpenFailed, code: os_error });
        }
        self.fd = fd;
        Ok(WatchRegistrar::new(clone_paths(&self.watch_directories), self.max_user_watches))
    }

    /// Hands the watcher's handle over to the read loop, which owns it from
    /// then on.
    pub fn observe(fsw: Self) -> (r: WatchLoop)
        ensures
            r@ == (LoopView { fd: fsw@.fd, pending: Seq::empty(), stopping: false }),
    {
        WatchLoop::new(fsw.fd)
    }
}

} // verus!
