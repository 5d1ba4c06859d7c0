//! The table of running processes that the consumer of change signals keeps.
//!
//! The caller lists the process directory and reads the two text files of a
//! process; this module decides which entries are processes, what their
//! user id and command line are, and what is new in a later listing.

use crate::text::{chars_of, decimal_u32, parse_u32, trim, trimmed};
use std::collections::HashMap;
use vstd::prelude::*;

verus! {

broadcast use vstd::std_specs::hash::group_hash_axioms;

/// One process of the table.
#[derive(Debug, Clone, PartialEq, Eq)]
pub struct Process {
    pub pid: u32,
    pub euid: u32,
    pub cmdline: String,
}

/// A process, with its command line as a sequence of characters.
pub struct ProcessView {
    pub pid: u32,
    pub euid: u32,
    pub cmdline: Seq<char>,
}

impl View for Process {
    type V = ProcessView;

    open spec fn view(&self) -> ProcessView {
        ProcessView { pid: self.pid, euid: self.euid, cmdline: self.cmdline@ }
    }
}

/// What was read of one process: the text of its status file and of its
/// command-line file, each `None` where the file could not be read.
#[derive(Debug, Clone, PartialEq, Eq)]
pub struct ProcessSnapshot {
    pub pid: u32,
    pub status: Option<String>,
    pub cmdline: Option<String>,
}

/// A snapshot, with its texts as sequences of characters.
pub struct ProcessSnapshotView {
    pub pid: u32,
    pub status: Option<Seq<char>>,
    pub cmdline: Option<Seq<char>>,
}

impl View for ProcessSnapshot {
    type V = ProcessSnapshotView;

    open spec fn view(&self) -> ProcessSnapshotView {
        ProcessSnapshotView {
            pid: self.pid,
            status: match self.status {
                Some(s) => Some(s@),
                None => None,
            },
            cmdline: match self.cmdline {
                Some(s) => Some(s@),
                None => None,
            },
        }
    }
}

impl DeepView for ProcessSnapshot {
    type V = ProcessSnapshotView;

    open spec fn deep_view(&self) -> ProcessSnapshotView {
        self@
    }
}

/// What a search of `text` for the regular expression `pattern` finds: `None`
/// where `pattern` is not accepted as a regular expression; else, for each
/// match from left to right, none overlapping another, the part of `text`
/// that the capture group named `group` matched, or `None` where the match
/// has no text for a group of that name.
pub uninterp spec fn group_captures(pattern: Seq<char>, group: Seq<char>, text: Seq<char>) -> Option<
    Seq<Option<Seq<char>>>,
>;

/// The error of `regex::Regex::new`: why a pattern was not accepted.
#[verifier::external_type_specification]
#[verifier::external_body]
pub struct ExRegexError(regex::Error);

/// Compiles `pattern` with `regex::Regex::new`, walks the matches in `text`
/// with `Regex::captures_iter`, and takes from each the text of the group
/// `group` with `Captures::name` and `Match::as_str`. The contract only gives
/// the outcome its name: what is found is not proved here.
#[verifier::external_body]
fn find_group(pattern: &str, group: &str, text: &str) -> (r: Result<
    Vec<Option<String>>,
    regex::Error,
>)
    ensures
        match r {
            Ok(found) => group_captures(pattern@, group@, text@) == Some(found.deep_view()),
            Err(_) => group_captures(pattern@, group@, text@) is None,
        },
{
    let re = regex::Regex::new(pattern)?;
    Ok(re.captures_iter(text).map(|c| c.name(group).map(|m| m.as_str().to_string())).collect())
}

/// The pattern for the line of a status file that holds the user ids; its
/// group `uid` is written for the third number of the line.
pub open spec fn uid_pattern() -> Seq<char> {
    r"Uid:\t\d+\t\d+\t(?P<uid>\d+)"@
}

/// The name of the group of [`uid_pattern`] that holds that number.
pub open spec fn uid_group() -> Seq<char> {
    "uid"@
}

/// The number that one captured text writes.
pub open spec fn uid_of(capture: Option<Seq<char>>) -> Option<u32> {
    match capture {
        Some(t) => decimal_u32(t),
        None => None,
    }
}

/// The user id that a list of captured texts gives: 0 for an empty
/// list, else the number of the last text, provided that every text of the
/// list writes a number that fits `u32`.
pub open spec fn euid_in(captures: Seq<Option<Seq<char>>>) -> Option<u32> {
    if exists|i: int| 0 <= i < captures.len() && uid_of(#[trigger] captures[i]) is None {
        None
    } else if captures.len() == 0 {
        Some(0)
    } else {
        uid_of(captures.last())
    }
}

/// Line feed or carriage return.
pub open spec fn is_line_break(c: char) -> bool {
    c == '\n' || c == '\r'
}

/// `c`, with a space in place of the NUL character.
pub open spec fn nul_to_space(c: char) -> char {
    if c == '\0' {
        ' '
    } else {
        c
    }
}

/// The test for the characters that stay in a command line.
pub open spec fn keep_char() -> spec_fn(char) -> bool {
    |c: char| !is_line_break(c)
}

/// The character as which each character of a command line is shown.
pub open spec fn shown_char() -> spec_fn(char) -> char {
    |c: char| nul_to_space(c)
}

/// The command line as it is shown: the raw text without the white space
/// around it, then without line breaks, with each NUL turned into a space.
pub open spec fn cleaned(raw: Seq<char>) -> Seq<char> {
    trim(raw).filter(keep_char()).map_values(shown_char())
}

/// The command line of a process whose file could not be read.
pub open spec fn unknown_cmdline() -> Seq<char> {
    "???"@
}

/// The command line that a snapshot gives.
pub open spec fn cmdline_of(raw: Option<Seq<char>>) -> Seq<char> {
    match raw {
        Some(t) => cleaned(t),
        None => unknown_cmdline(),
    }
}

/// The status text that a snapshot gives: empty where the file was not read.
pub open spec fn status_of(raw: Option<Seq<char>>) -> Seq<char> {
    match raw {
        Some(t) => t,
        None => Seq::empty(),
    }
}

/// The process that a snapshot and the user-id search of its status text
/// describe, if they describe one.
pub open spec fn process_from(
    s: ProcessSnapshotView,
    found: Option<Seq<Option<Seq<char>>>>,
) -> Option<ProcessView> {
    match found {
        Some(captures) => match euid_in(captures) {
            Some(euid) => Some(ProcessView { pid: s.pid, euid, cmdline: cmdline_of(s.cmdline) }),
            None => None,
        },
        None => None,
    }
}

/// The process that a snapshot describes.
pub open spec fn metadata_of(s: ProcessSnapshotView) -> Option<ProcessView> {
    process_from(s, group_captures(uid_pattern(), uid_group(), status_of(s.status)))
}

/// The process ids among the names of a directory listing: each name that
/// writes a number, in the order of the listing.
pub open spec fn pids_in(names: Seq<Seq<char>>) -> Seq<u32> {
    names.filter_map(|n: Seq<char>| decimal_u32(n))
}

/// The table after the snapshots were entered in order, a later one taking
/// the place of an earlier one with the same id.
pub open spec fn scanned(snapshots: Seq<ProcessSnapshotView>) -> Map<u32, ProcessView>
    decreases snapshots.len(),
{
    if snapshots.len() == 0 {
        Map::empty()
    } else {
        let before = scanned(snapshots.drop_last());
        match metadata_of(snapshots.last()) {
            Some(p) => before.insert(p.pid, p),
            None => before,
        }
    }
}

/// Whether the snapshot adds a process to `table`: its id is not yet there
/// and it describes a process.
pub open spec fn is_new(table: Map<u32, ProcessView>, s: ProcessSnapshotView) -> bool {
    !table.contains_key(s.pid) && metadata_of(s) is Some
}

/// The table after the snapshots of unknown processes were entered in order;
/// what the table holds already stays as it is.
pub open spec fn refreshed(table: Map<u32, ProcessView>, snapshots: Seq<ProcessSnapshotView>) -> Map<
    u32,
    ProcessView,
>
    decreases snapshots.len(),
{
    if snapshots.len() == 0 {
        table
    } else {
        let before = refreshed(table, snapshots.drop_last());
        if is_new(before, snapshots.last()) {
            before.insert(snapshots.last().pid, metadata_of(snapshots.last())->0)
        } else {
            before
        }
    }
}

/// The ids that [`refreshed`] enters, in order.
pub open spec fn added(table: Map<u32, ProcessView>, snapshots: Seq<ProcessSnapshotView>) -> Seq<u32>
    decreases snapshots.len(),
{
    if snapshots.len() == 0 {
        Seq::empty()
    } else {
        let before = added(table, snapshots.drop_last());
        if is_new(refreshed(table, snapshots.drop_last()), snapshots.last()) {
            before.push(snapshots.last().pid)
        } else {
            before
        }
    }
}

/// Reads the user id off the captured texts of a status file.
/// `None` where one of them does not write a number that fits `u32`.
pub fn euid_from_captures(captures: &Vec<Option<String>>) -> (r: Option<u32>)
    ensures
        r == euid_in(captures.deep_view()),
{
    let ghost dv = captures.deep_view();
    let mut euid: u32 = 0;
    let mut i: usize = 0;
    while i < captures.len()
        invariant
            i <= captures.len(),
            dv == captures.deep_view(),
            forall|j: int| 0 <= j < i ==> uid_of(#[trigger] dv[j]) is Some,
            i == 0 ==> euid == 0,
            i > 0 ==> uid_of(dv[i - 1]) == Some(euid),
        decreases captures.len() - i,
    {
        let parsed = match &captures[i] {
            Some(t) => parse_u32(&chars_of(t.as_str())),
            None => None,
        };
        assert(parsed == uid_of(dv[i as int]));
        match parsed {
            Some(v) => {
                euid = v;
            },
            None => {
                return None;
            },
        }
        i += 1;
    }
    Some(euid)
}

/// Prepares the raw text of a command-line file for showing.
pub fn clean_cmdline(raw: &str) -> (r: String)
    ensures
        r@ == cleaned(raw@),
{
    let t = trimmed(&chars_of(raw));
    let mut out = String::new();
    let mut i: usize = 0;
    proof {
        reveal(Seq::filter);
        assert(t@.take(0).filter(keep_char()) =~= Seq::<char>::empty());
    }
    while i < t.len()
        invariant
            i <= t.len(),
            out@ == t@.take(i as int).filter(keep_char()).map_values(shown_char()),
        decreases t.len() - i,
    {
        let c = t[i];
        proof {
            let head = t@.take(i as int);
            assert(t@.take(i + 1) =~= head.push(c));
            head.lemma_filter_push(c, keep_char());
            if !is_line_break(c) {
                assert(head.filter(keep_char()).push(c).map_values(shown_char()) =~= head.filter(
                    keep_char(),
                ).map_values(shown_char()).push(nul_to_space(c)));
            }
        }
        if c == '\n' || c == '\r' {
        } else if c == '\0' {
            out.push(' ');
        } else {
            out.push(c);
        }
        i += 1;
    }
    proof {
        assert(t@.take(t.len() as int) =~= t@);
    }
    out
}

/// The table of known processes, by process id.
pub struct ProcessScanner {
    processes: HashMap<u32, Process>,
}

impl View for ProcessScanner {
    type V = Map<u32, ProcessView>;

    closed spec fn view(&self) -> Map<u32, ProcessView> {
        self.processes@.map_values(|p: Process| p@)
    }
}

impl ProcessScanner {
    /// The table that the snapshots of a first listing give.
    pub fn new(snapshots: &Vec<ProcessSnapshot>) -> (r: Self)
        ensures
            r@ == scanned(snapshots.deep_view()),
    {
        let mut processes: HashMap<u32, Process> = HashMap::new();
        let mut i: usize = 0;
        proof {
            assert(processes@.map_values(|p: Process| p@) =~= Map::<u32, ProcessView>::empty());
            assert(snapshots.deep_view().take(0) =~= Seq::<ProcessSnapshotView>::empty());
        }
        while i < snapshots.len()
            invariant
                i <= snapshots.len(),
                processes@.map_values(|p: Process| p@) == scanned(
                    snapshots.deep_view().take(i as int),
                ),
            decreases snapshots.len() - i,
        {
            let ghost head = snapshots.deep_view().take(i as int);
            let ghost next = snapshots.deep_view().take(i + 1);
            proof {
                assert(next.drop_last() =~= head);
                assert(next.last() == snapshots[i as int]@);
            }
            let ghost before = processes@;
            if let Some(process) = Self::get_process_metadata(&snapshots[i]) {
                let pid = process.pid;
                processes.insert(pid, process);
                proof {
                    assert(processes@.map_values(|p: Process| p@) =~= before.map_values(
                        |p: Process| p@,
                    ).insert(pid, process@));
                }
            }
            i += 1;
        }
        proof {
            assert(snapshots.deep_view().take(snapshots.len() as int) =~= snapshots.deep_view());
        }
        ProcessScanner { processes }
    }

    /// The process ids among the entry names of the process directory.
    pub fn get_pids(names: &Vec<String>) -> (r: Vec<u32>)
        ensures
            r@ == pids_in(names.deep_view()),
    {
        let ghost f = |n: Seq<char>| decimal_u32(n);
        let ghost all = names.deep_view();
        let mut pids: Vec<u32> = Vec::new();
        let mut i: usize = 0;
        while i < names.len()
            invariant
                i <= names.len(),
                all == names.deep_view(),
                f == |n: Seq<char>| decimal_u32(n),
                pids@ == all.take(i as int).filter_map(f),
            decreases names.len() - i,
        {
            proof {
                all.lemma_filter_map_take_succ(f, i as int);
            }
            if let Some(pid) = parse_u32(&chars_of(names[i].as_str())) {
                pids.push(pid);
            }
            i += 1;
        }
        proof {
            assert(all.take(names.len() as int) =~= all);
        }
        pids
    }

    /// Describes one process from what was read of it. Its user id is read
    /// off what a search of the status text for [`uid_pattern`] finds, as
    /// [`euid_in`] says. `None` where the text cannot be searched or what is
    /// found gives no user id.
    pub fn get_process_metadata(snapshot: &ProcessSnapshot) -> (r: Option<Process>)
        ensures
            match r {
                Some(p) => metadata_of(snapshot@) == Some(p@),
                None => metadata_of(snapshot@) is None,
            },
    {
        let searched = match &snapshot.status {
            Some(text) => find_group(r"Uid:\t\d+\t\d+\t(?P<uid>\d+)", "uid", text.as_str()),
            None => find_group(r"Uid:\t\d+\t\d+\t(?P<uid>\d+)", "uid", ""),
        };
        proof {
            reveal_strlit("");
            assert(""@ =~= Seq::<char>::empty());
        }
        let found = match searched {
            Ok(captures) => Some(captures),
            Err(_) => None,
        };
        Self::process_of(snapshot, found)
    }

    /// Describes one process from what was read of it and from the user ids
    /// that the search of its status text found.
    pub fn process_of(snapshot: &ProcessSnapshot, found: Option<Vec<Option<String>>>) -> (r: Option<
        Process,
    >)
        ensures
            match r {
                Some(p) => process_from(snapshot@, found.deep_view()) == Some(p@),
                None => process_from(snapshot@, found.deep_view()) is None,
            },
    {
        match found {
            Some(captures) => match euid_from_captures(&captures) {
                Some(euid) => {
                    let cmdline = match &snapshot.cmdline {
                        Some(raw) => clean_cmdline(raw.as_str()),
                        None => "???".to_string(),
                    };
                    Some(Process { pid: snapshot.pid, euid, cmdline })
                },
                None => None,
            },
            None => None,
        }
    }

    /// Whether the table holds a process with this id.
    pub fn contains(&self, pid: u32) -> (r: bool)
        ensures
            r == self@.contains_key(pid),
    {
        self.processes.contains_key(&pid)
    }

    /// The process with this id.
    pub fn get(&self, pid: u32) -> (r: Option<&Process>)
        ensures
            match r {
                Some(p) => self@.contains_key(pid) && self@[pid] == p@,
                None => !self@.contains_key(pid),
            },
    {
        self.processes.get(&pid)
    }

    /// The table itself, for going through all of it.
    pub fn processes(&self) -> (r: &HashMap<u32, Process>)
        ensures
            r@.map_values(|p: Process| p@) == self@,
    {
        &self.processes
    }

    /// The number of processes in the table.
    pub fn len(&self) -> (r: usize)
        ensures
            r == self@.len(),
    {
        proof {
            assert(self@.dom() =~= self.processes@.dom());
        }
        self.processes.len()
    }

    /// Of the ids of a later listing, those that the table does not hold, in
    /// the order of the listing: the processes whose files are worth reading.
    pub fn unknown_pids(&self, pids: &Vec<u32>) -> (r: Vec<u32>)
        ensures
            r@ == pids@.filter(|pid: u32| !self@.contains_key(pid)),
    {
        let ghost unknown = |pid: u32| !self@.contains_key(pid);
        let mut out: Vec<u32> = Vec::new();
        let mut i: usize = 0;
        proof {
            reveal(Seq::filter);
            assert(pids@.take(0).filter(unknown) =~= Seq::<u32>::empty());
        }
        while i < pids.len()
            invariant
                i <= pids.len(),
                unknown == |pid: u32| !self@.contains_key(pid),
                out@ == pids@.take(i as int).filter(unknown),
            decreases pids.len() - i,
        {
            proof {
                assert(pids@.take(i + 1) =~= pids@.take(i as int).push(pids@[i as int]));
                pids@.take(i as int).lemma_filter_push(pids@[i as int], unknown);
            }
            if !self.contains(pids[i]) {
                out.push(pids[i]);
            }
            i += 1;
        }
        proof {
            assert(pids@.take(pids.len() as int) =~= pids@);
        }
        out
    }

    /// Enters the processes of the snapshots that the table does not know
    /// yet, and returns their ids in the order in which they were entered.
    pub fn refresh(&mut self, snapshots: &Vec<ProcessSnapshot>) -> (r: Vec<u32>)
        ensures
            final(self)@ == refreshed(old(self)@, snapshots.deep_view()),
            r@ == added(old(self)@, snapshots.deep_view()),
    {
        let ghost start = self@;
        let mut fresh: Vec<u32> = Vec::new();
        let mut i: usize = 0;
        proof {
            assert(snapshots.deep_view().take(0) =~= Seq::<ProcessSnapshotView>::empty());
        }
        while i < snapshots.len()
            invariant
                i <= snapshots.len(),
                self@ == refreshed(start, snapshots.deep_view().take(i as int)),
                fresh@ == added(start, snapshots.deep_view().take(i as int)),
            decreases snapshots.len() - i,
        {
            let ghost head = snapshots.deep_view().take(i as int);
            let ghost next = snapshots.deep_view().take(i + 1);
            proof {
                assert(next.drop_last() =~= head);
                assert(next.last() == snapshots[i as int]@);
            }
            let ghost before = self.processes@;
            let pid = snapshots[i].pid;
            if !self.contains(pid) {
                if let Some(process) = Self::get_process_metadata(&snapshots[i]) {
                    self.processes.insert(pid, process);
                    fresh.push(pid);
                    proof {
                        assert(self.processes@.map_values(|p: Process| p@) =~= before.map_values(
                            |p: Process| p@,
                        ).insert(pid, process@));
                    }
                }
            }
            i += 1;
        }
        proof {
            assert(snapshots.deep_view().take(snapshots.len() as int) =~= snapshots.deep_view());
        }
        fresh
    }
}

} // verus!
