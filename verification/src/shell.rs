use crate::decimal::{decimal_numeral, lemma_numeral_round_trip, parse_i32, parse_usize, signed_decimal, unsigned_decimal};
use crate::words::{same_str, split_whitespace, split_ws, str_views};
use std::collections::{BTreeMap, HashMap, HashSet};
use vstd::prelude::*;
use vstd::string::*;

verus! {

/// Reading the first `n` characters of `s`: the pieces ended by `sep` so far,
/// and the characters of the piece being read.
pub open spec fn sep_scan(s: Seq<char>, sep: char, n: nat) -> (Seq<Seq<char>>, Seq<char>)
    decreases n,
{
    if n == 0 {
        (Seq::empty(), Seq::empty())
    } else {
        let (done, cur) = sep_scan(s, sep, (n - 1) as nat);
        if s[n - 1] == sep {
            (done.push(cur), Seq::empty())
        } else {
            (done, cur.push(s[n - 1]))
        }
    }
}

/// The pieces of `s` between the occurrences of `sep`, as `str::split` gives
/// them: one more than the occurrences, empty pieces included.
pub open spec fn split_on(s: Seq<char>, sep: char) -> Seq<Seq<char>> {
    let (done, cur) = sep_scan(s, sep, s.len());
    done.push(cur)
}

/// The number of occurrences of `c` among the first `n` characters of `s`.
pub open spec fn count_char(s: Seq<char>, c: char, n: nat) -> nat
    decreases n,
{
    if n == 0 {
        0
    } else if s[n - 1] == c {
        count_char(s, c, (n - 1) as nat) + 1
    } else {
        count_char(s, c, (n - 1) as nat)
    }
}

proof fn lemma_sep_scan_len(s: Seq<char>, sep: char, n: nat)
    ensures
        sep_scan(s, sep, n).0.len() == count_char(s, sep, n),
    decreases n,
{
    if n > 0 {
        lemma_sep_scan_len(s, sep, (n - 1) as nat);
    }
}

/// A line with `k` separators has `k + 1` pieces: a pipeline has one command
/// more than it has `|`.
pub proof fn lemma_pieces_count(s: Seq<char>, sep: char)
    ensures
        split_on(s, sep).len() == count_char(s, sep, s.len()) + 1,
{
    lemma_sep_scan_len(s, sep, s.len());
}

/// The pieces of `s` between the occurrences of `sep`, as slices of it.
pub fn split_char<'a>(s: &'a str, sep: char) -> (v: Vec<&'a str>)
    ensures
        str_views(v@) == split_on(s@, sep),
{
    let n = s.unicode_len();
    let mut v: Vec<&'a str> = Vec::new();
    let mut start: usize = 0;
    let mut i: usize = 0;
    while i < n
        invariant
            n == s@.len(),
            start <= i <= n,
            str_views(v@) == sep_scan(s@, sep, i as nat).0,
            s@.subrange(start as int, i as int) == sep_scan(s@, sep, i as nat).1,
        decreases n - i,
    {
        let c = s.get_char(i);
        if c == sep {
            let ghost prev = v@;
            let w = s.substring_char(start, i);
            v.push(w);
            assert(str_views(v@) =~= str_views(prev).push(w@));
            start = i + 1;
        } else {
            assert(s@.subrange(start as int, i + 1) =~= s@.subrange(start as int, i as int).push(c));
        }
        i = i + 1;
    }
    let ghost prev = v@;
    let w = s.substring_char(start, n);
    v.push(w);
    assert(str_views(v@) =~= str_views(prev).push(w@));
    v
}

/// A command of the pipeline: the program and its arguments.
pub open spec fn group_command(group: Seq<char>) -> (Seq<char>, Seq<Seq<char>>) {
    (split_ws(group)[0], split_ws(group).drop_first())
}

/// The views of a parsed pipeline.
pub open spec fn commands_view(cmds: Seq<(&str, Vec<&str>)>) -> Seq<(Seq<char>, Seq<Seq<char>>)> {
    cmds.map_values(|c: (&str, Vec<&str>)| (c.0@, str_views(c.1@)))
}

/// Splits a command line into the commands of a pipeline: the line is cut at
/// each `|`, and each piece into words, the first word naming the program.
/// A piece with no word fails with "Empty command group".
pub fn parse_cmd(line: &str) -> (r: Result<Vec<(&str, Vec<&str>)>, &'static str>)
    ensures
        match r {
            Ok(cmds) => {
                &&& forall|k: int|
                    0 <= k < split_on(line@, '|').len() ==> (#[trigger] split_ws(
                        split_on(line@, '|')[k],
                    )).len() > 0
                &&& commands_view(cmds@) == split_on(line@, '|').map_values(
                    |g: Seq<char>| group_command(g),
                )
            },
            Err(e) => {
                &&& e == "Empty command group"
                &&& exists|k: int|
                    0 <= k < split_on(line@, '|').len() && (#[trigger] split_ws(
                        split_on(line@, '|')[k],
                    )).len() == 0
            },
        },
{
    let groups = split_char(line, '|');
    let ghost pieces = split_on(line@, '|');
    let mut cmds: Vec<(&str, Vec<&str>)> = Vec::new();
    let mut i: usize = 0;
    while i < groups.len()
        invariant
            str_views(groups@) == pieces,
            pieces == split_on(line@, '|'),
            i <= groups@.len(),
            forall|k: int| 0 <= k < i ==> (#[trigger] split_ws(pieces[k])).len() > 0,
            commands_view(cmds@) == pieces.take(i as int).map_values(|g: Seq<char>| group_command(g)),
        decreases groups@.len() - i,
    {
        let group = groups[i];
        assert(group@ == pieces[i as int]);
        let words = split_whitespace(group);
        if words.len() == 0 {
            return Err("Empty command group");
        }
        let first = words[0];
        let mut rest: Vec<&str> = Vec::new();
        let mut j: usize = 1;
        while j < words.len()
            invariant
                1 <= j <= words@.len(),
                str_views(rest@) == str_views(words@).subrange(1, j as int),
            decreases words@.len() - j,
        {
            let ghost prev = rest@;
            rest.push(words[j]);
            assert(str_views(rest@) =~= str_views(prev).push(words@[j as int]@));
            assert(str_views(words@).subrange(1, j + 1) =~= str_views(words@).subrange(1, j as int).push(words@[j as int]@));
            j = j + 1;
        }
        let ghost prev = cmds@;
        cmds.push((first, rest));
        proof {
            assert(str_views(rest@) =~= str_views(words@).drop_first());
            assert(commands_view(cmds@) =~= commands_view(prev).push((first@, str_views(rest@))));
            assert(pieces.take(i + 1).map_values(|g: Seq<char>| group_command(g))
                =~= pieces.take(i as int).map_values(|g: Seq<char>| group_command(g)).push(group_command(pieces[i as int])));
        }
        i = i + 1;
    }
    assert(pieces.take(i as int) =~= pieces);
    Ok(cmds)
}

/// Whether a process runs or is stopped.
#[derive(Debug, Clone, Copy, PartialEq, Eq, Structural)]
pub enum ProcState {
    Run,
    Stop,
}

/// What the worker knows of a child process: its state and its process group.
#[derive(Debug, Clone, Copy)]
pub struct ProcInfo {
    pub state: ProcState,
    pub pgid: i32,
}

/// What the worker tells the main loop: read the next line (with the last
/// exit status), or quit with the given exit status.
#[derive(Debug, Clone, Copy, PartialEq, Eq, Structural)]
pub enum ShellMsg {
    Continue(i32),
    Quit(i32),
}

/// How a child process changed, as `waitpid` reports it.
#[derive(Debug, Clone, Copy, PartialEq, Eq, Structural)]
pub enum ChildEvent {
    /// The process ended with the given status.
    Exited(i32, i32),
    /// The process was ended by the given signal (with a core dump or not).
    Signaled(i32, i32, bool),
    /// The process stopped.
    Stopped(i32),
    /// The process runs again.
    Continued(i32),
}

/// The built-in commands.
#[derive(Debug, Clone, Copy, PartialEq, Eq, Structural)]
pub enum BuiltIn {
    Exit,
    Jobs,
    Fg,
    Cd,
}

/// What `exit` decides: refuse while jobs run, refuse an exit status that is
/// not an integer, or quit with the given status.
#[derive(Debug, Clone, Copy, PartialEq, Eq, Structural)]
pub enum ExitDecision {
    JobsRunning,
    NotInteger,
    Quit(i32),
}

/// What `fg` decides: show the usage, report an unknown job, or bring job
/// (number, process group, command line) to the foreground.
#[derive(Debug)]
pub enum FgDecision {
    Usage,
    NotFound,
    Resume(usize, i32, String),
}

/// Why a command line cannot be started.
#[derive(Debug, Clone, Copy, PartialEq, Eq, Structural)]
pub enum SpawnRefusal {
    /// Every job number is in use.
    NoJobId,
    /// Pipelines of more than two commands are not supported.
    TooManyCommands,
}

/// What happened to a job after a change of its processes, as the worker
/// reports it: nothing to report, the foreground job ended, the foreground job
/// stopped, or a background job ended. In the first two cases the terminal
/// goes back to the shell.
#[derive(Debug)]
pub enum JobNotice {
    Unchanged,
    Finished(usize, String),
    Stopped(usize, String),
    BackgroundFinished(usize, String),
}

/// A job notice with the command line as characters.
pub enum Notice {
    Unchanged,
    Finished(usize, Seq<char>),
    Stopped(usize, Seq<char>),
    BackgroundFinished(usize, Seq<char>),
}

impl View for JobNotice {
    type V = Notice;

    open spec fn view(&self) -> Notice {
        match self {
            JobNotice::Unchanged => Notice::Unchanged,
            JobNotice::Finished(j, l) => Notice::Finished(*j, l@),
            JobNotice::Stopped(j, l) => Notice::Stopped(*j, l@),
            JobNotice::BackgroundFinished(j, l) => Notice::BackgroundFinished(*j, l@),
        }
    }
}

/// The tables of the worker as mathematical values.
#[verifier::ext_equal]
pub struct JobTables {
    /// The exit status of the last command.
    pub exit_val: i32,
    /// The process group in the foreground, if it is not the shell.
    pub fg: Option<i32>,
    /// Job id to (process group id, command line).
    pub jobs: Map<usize, (i32, Seq<char>)>,
    /// Process group id to (job id, ids of its processes still alive).
    pub groups: Map<i32, (usize, Set<i32>)>,
    /// Process id to state and group, for the processes started and not yet
    /// seen to end.
    pub procs: Map<i32, ProcInfo>,
    /// The process group of the shell.
    pub shell_pgid: i32,
}

impl JobTables {
    /// Jobs and process groups correspond one to one, and every process of a
    /// group is known with that group.
    pub open spec fn wf(self) -> bool {
        &&& forall|j: usize| #[trigger]
            self.jobs.contains_key(j) ==> {
                &&& self.groups.contains_key(self.jobs[j].0)
                &&& self.groups[self.jobs[j].0].0 == j
            }
        &&& forall|g: i32| #[trigger]
            self.groups.contains_key(g) ==> {
                &&& self.jobs.contains_key(self.groups[g].0)
                &&& self.jobs[self.groups[g].0].0 == g
                &&& self.groups[g].1.finite()
            }
        &&& forall|g: i32, p: i32|
            #![trigger self.groups[g].1.contains(p)]
            self.groups.contains_key(g) && self.groups[g].1.contains(p) ==> {
                &&& self.procs.contains_key(p)
                &&& self.procs[p].pgid == g
            }
    }

    /// No process of group `g` is alive.
    pub open spec fn group_empty(self, g: i32) -> bool {
        self.groups[g].1.is_empty()
    }

    /// The process `pid`, if known, set to `state`.
    pub open spec fn with_state(self, pid: i32, state: ProcState) -> JobTables {
        if self.procs.contains_key(pid) {
            JobTables {
                procs: self.procs.insert(pid, ProcInfo { state, pgid: self.procs[pid].pgid }),
                ..self
            }
        } else {
            self
        }
    }

    /// The job and the group of process `pid`, when both are known.
    pub open spec fn pid_group(self, pid: i32) -> Option<(usize, i32)> {
        if self.procs.contains_key(pid) && self.groups.contains_key(self.procs[pid].pgid) {
            Some((self.groups[self.procs[pid].pgid].0, self.procs[pid].pgid))
        } else {
            None
        }
    }

    /// Process `pid` taken out of the live processes of its group, and its
    /// information deleted; nothing changes when it or its group is unknown.
    pub open spec fn without_pid(self, pid: i32) -> JobTables {
        match self.pid_group(pid) {
            Some((j, g)) => JobTables {
                groups: self.groups.insert(g, (j, self.groups[g].1.remove(pid))),
                procs: self.procs.remove(pid),
                ..self
            },
            None => self,
        }
    }

    /// Job `job_id` and its process group forgotten.
    pub open spec fn without_job(self, job_id: usize) -> JobTables {
        if self.jobs.contains_key(job_id) {
            JobTables {
                jobs: self.jobs.remove(job_id),
                groups: self.groups.remove(self.jobs[job_id].0),
                ..self
            }
        } else {
            self
        }
    }

    /// A new job `job_id` of command line `line`, whose processes `pids`
    /// form group `pgid`.
    pub open spec fn with_job(self, job_id: usize, pgid: i32, pids: Seq<(i32, ProcInfo)>, line: Seq<char>) -> JobTables {
        JobTables {
            jobs: self.jobs.insert(job_id, (pgid, line)),
            groups: self.groups.insert(pgid, (job_id, pid_set(pids))),
            procs: add_procs(self.procs, pids),
            ..self
        }
    }

    /// What happens to job `job_id` of group `pgid` after a change of its
    /// processes: a foreground job whose processes have all ended is
    /// forgotten, and the terminal goes back to the shell; so too when they are
    /// all stopped, the job being kept; a background job whose processes have
    /// all ended is forgotten.
    pub open spec fn managed(self, job_id: usize, pgid: i32) -> (Notice, JobTables) {
        let line = self.jobs[job_id].1;
        if self.fg == Some(pgid) {
            if self.group_empty(pgid) {
                (Notice::Finished(job_id, line), JobTables { fg: None, ..self.without_job(job_id) })
            } else if self.group_stopped(pgid) {
                (Notice::Stopped(job_id, line), JobTables { fg: None, ..self })
            } else {
                (Notice::Unchanged, self)
            }
        } else if self.group_empty(pgid) {
            (Notice::BackgroundFinished(job_id, line), self.without_job(job_id))
        } else {
            (Notice::Unchanged, self)
        }
    }

    /// After process `pid` ended: it leaves its group, and its job is managed.
    pub open spec fn after_exit(self, pid: i32) -> (Notice, JobTables) {
        match self.pid_group(pid) {
            Some((j, g)) => self.without_pid(pid).managed(j, g),
            None => (Notice::Unchanged, self),
        }
    }

    /// After process `pid` stopped: it is marked stopped, and its job is managed.
    pub open spec fn after_stop(self, pid: i32) -> (Notice, JobTables) {
        let t = self.with_state(pid, ProcState::Stop);
        let g = t.procs[pid].pgid;
        t.managed(t.groups[g].0, g)
    }

    /// Every live process of group `g` is stopped.
    pub open spec fn group_stopped(self, g: i32) -> bool {
        forall|p: i32| #[trigger] self.groups[g].1.contains(p) ==> self.procs[p].state == ProcState::Stop
    }

    /// A group counts as stopped exactly when none of its live processes
    /// runs: one running process is enough for the group to count as running.
    pub proof fn lemma_group_stopped_iff_none_runs(self, g: i32)
        ensures
            self.group_stopped(g) <==> !exists|p: i32|
                #[trigger] self.groups[g].1.contains(p) && self.procs[p].state == ProcState::Run,
    {
        if !self.group_stopped(g) {
            let p = choose|p: i32|
                !(#[trigger] self.groups[g].1.contains(p) ==> self.procs[p].state == ProcState::Stop);
            assert(self.groups[g].1.contains(p) && self.procs[p].state == ProcState::Run);
        }
    }

    /// What the end of process `pid` of a known job `j` and group `g` gives.
    /// When it was the last live process of `g`, the job is forgotten and
    /// reported finished, and a foreground job gives the terminal back to the
    /// shell. While another live process of `g` runs, nothing is reported and
    /// nothing but the process's own entries changes. When the others are all
    /// stopped, a foreground job is reported stopped and the terminal goes back
    /// to the shell.
    pub proof fn lemma_after_exit(self, pid: i32)
        requires
            self.wf(),
            self.pid_group(pid) is Some,
        ensures
            ({
                let g = self.procs[pid].pgid;
                let j = self.groups[g].0;
                let line = self.jobs[j].1;
                let rest = self.groups[g].1.remove(pid);
                let (n, t) = self.after_exit(pid);
                &&& t.procs == self.procs.remove(pid)
                &&& rest.is_empty() ==> {
                    &&& n == if self.fg == Some(g) {
                        Notice::Finished(j, line)
                    } else {
                        Notice::BackgroundFinished(j, line)
                    }
                    &&& t.jobs == self.jobs.remove(j)
                    &&& !t.groups.contains_key(g)
                    &&& t.fg == if self.fg == Some(g) {
                        None
                    } else {
                        self.fg
                    }
                }
                &&& (exists|p: i32|
                    #[trigger] rest.contains(p) && self.procs[p].state == ProcState::Run) ==> {
                    &&& n == Notice::Unchanged
                    &&& t.jobs == self.jobs
                    &&& t.fg == self.fg
                    &&& t.groups == self.groups.insert(g, (j, rest))
                }
                &&& self.fg == Some(g) && !rest.is_empty() && (forall|p: i32|
                    #[trigger] rest.contains(p) ==> self.procs[p].state == ProcState::Stop) ==> {
                    &&& n == Notice::Stopped(j, line)
                    &&& t.jobs == self.jobs
                    &&& t.fg is None
                }
            }),
    {
        let g = self.procs[pid].pgid;
        let j = self.groups[g].0;
        let rest = self.groups[g].1.remove(pid);
        let t = self.without_pid(pid);
        assert(t.groups[g] == (j, rest));
        assert(t.jobs == self.jobs);
        if exists|p: i32| #[trigger] rest.contains(p) && self.procs[p].state == ProcState::Run {
            let p = choose|p: i32| #[trigger] rest.contains(p) && self.procs[p].state == ProcState::Run;
            assert(t.procs[p] == self.procs[p]);
            assert(t.groups[g].1.contains(p));
            assert(!t.group_stopped(g));
            assert(!t.group_empty(g));
        }
        if forall|p: i32| #[trigger] rest.contains(p) ==> self.procs[p].state == ProcState::Stop {
            assert forall|p: i32| #[trigger] t.groups[g].1.contains(p) implies t.procs[p].state
                == ProcState::Stop by {
                assert(rest.contains(p));
                assert(t.procs[p] == self.procs[p]);
            }
        }
        if rest.is_empty() {
            assert(t.group_empty(g));
            assert(self.jobs[j].0 == g);
            assert(t.without_job(j).groups == t.groups.remove(g));
        }
    }

    /// What a stop of process `pid` of a known group `g` gives. While another
    /// live process of `g` runs, nothing is reported and the foreground stays
    /// as it was. Once every other live process of a foreground group `g` is
    /// stopped too, the job is reported stopped and the terminal goes back to
    /// the shell. A stop in a background group with live processes is not
    /// reported.
    pub proof fn lemma_after_stop(self, pid: i32)
        requires
            self.pid_group(pid) is Some,
        ensures
            ({
                let g = self.procs[pid].pgid;
                let j = self.groups[g].0;
                let marked = self.with_state(pid, ProcState::Stop);
                &&& (exists|p: i32|
                    #[trigger] self.groups[g].1.contains(p) && p != pid && self.procs[p].state
                        == ProcState::Run) ==> self.after_stop(pid) == (Notice::Unchanged, marked)
                &&& self.fg == Some(g) && !self.groups[g].1.is_empty() && (forall|p: i32|
                    #[trigger] self.groups[g].1.contains(p) && p != pid ==> self.procs[p].state
                        == ProcState::Stop) ==> self.after_stop(pid) == (
                    Notice::Stopped(j, self.jobs[j].1),
                    JobTables { fg: None, ..marked },
                )
                &&& self.fg != Some(g) && !self.groups[g].1.is_empty() ==> self.after_stop(pid) == (
                    Notice::Unchanged,
                    marked,
                )
            }),
    {
        let g = self.procs[pid].pgid;
        let t = self.with_state(pid, ProcState::Stop);
        assert(t.procs[pid] == ProcInfo { state: ProcState::Stop, pgid: g });
        assert(t.groups == self.groups);
        if exists|p: i32|
            #[trigger] self.groups[g].1.contains(p) && p != pid && self.procs[p].state == ProcState::Run {
            let p = choose|p: i32|
                #[trigger] self.groups[g].1.contains(p) && p != pid && self.procs[p].state == ProcState::Run;
            assert(t.procs[p] == self.procs[p]);
            assert(!t.group_stopped(g));
            assert(!t.group_empty(g));
        }
        if forall|p: i32|
            #[trigger] self.groups[g].1.contains(p) && p != pid ==> self.procs[p].state == ProcState::Stop {
            assert forall|p: i32| #[trigger] t.groups[g].1.contains(p) implies t.procs[p].state == ProcState::Stop by {
                if p != pid {
                    assert(t.procs[p] == self.procs[p]);
                }
            }
        }
    }
}

/// The ids of `pids`.
pub open spec fn pid_set(pids: Seq<(i32, ProcInfo)>) -> Set<i32>
    decreases pids.len(),
{
    if pids.len() == 0 {
        Set::empty()
    } else {
        pid_set(pids.drop_last()).insert(pids.last().0)
    }
}

/// `m` with the entries of `pids` added, later ones last.
pub open spec fn add_procs(m: Map<i32, ProcInfo>, pids: Seq<(i32, ProcInfo)>) -> Map<i32, ProcInfo>
    decreases pids.len(),
{
    if pids.len() == 0 {
        m
    } else {
        add_procs(m, pids.drop_last()).insert(pids.last().0, pids.last().1)
    }
}

/// A member of `pid_set(pids)` is the id of one of the entries.
proof fn lemma_pid_set_members(pids: Seq<(i32, ProcInfo)>, p: i32)
    ensures
        pid_set(pids).contains(p) <==> exists|k: int| 0 <= k < pids.len() && (#[trigger] pids[k]).0 == p,
    decreases pids.len(),
{
    if pids.len() > 0 {
        let init = pids.drop_last();
        lemma_pid_set_members(init, p);
        if pid_set(init).contains(p) {
            let k = choose|k: int| 0 <= k < init.len() && (#[trigger] init[k]).0 == p;
            assert(pids[k] == init[k]);
        }
        if exists|k: int| 0 <= k < pids.len() && (#[trigger] pids[k]).0 == p {
            let k = choose|k: int| 0 <= k < pids.len() && (#[trigger] pids[k]).0 == p;
            if k < init.len() {
                assert(init[k] == pids[k]);
            }
        }
    }
}

/// What adding the entries `pids` to `m` gives: the keys of `m` and of
/// `pids`, the old entries kept where `pids` has no entry, and entries of
/// `pids` that all belong to one group when they all do.
proof fn lemma_add_procs(m: Map<i32, ProcInfo>, pids: Seq<(i32, ProcInfo)>, g: i32)
    ensures
        pid_set(pids).finite(),
        forall|p: i32|
            #[trigger] add_procs(m, pids).contains_key(p) <==> m.contains_key(p) || pid_set(
                pids,
            ).contains(p),
        forall|p: i32|
            !pid_set(pids).contains(p) && m.contains_key(p) ==> #[trigger] add_procs(m, pids)[p]
                == m[p],
        (forall|k: int| 0 <= k < pids.len() ==> (#[trigger] pids[k]).1.pgid == g) ==> forall|
            p: i32,
        |
            #[trigger] pid_set(pids).contains(p) ==> add_procs(m, pids)[p].pgid == g,
    decreases pids.len(),
{
    if pids.len() > 0 {
        let init = pids.drop_last();
        lemma_add_procs(m, init, g);
        if forall|k: int| 0 <= k < pids.len() ==> (#[trigger] pids[k]).1.pgid == g {
            assert forall|k: int| 0 <= k < init.len() implies (#[trigger] init[k]).1.pgid == g by {
                assert(init[k] == pids[k]);
            }
            assert(pids[pids.len() - 1].1.pgid == g);
        }
    }
}

/// Which built-in command `cmd` runs: a pipeline of one command named `exit`,
/// `jobs`, `fg` or `cd`; `None` for anything else.
pub fn built_in_kind(cmd: &[(&str, Vec<&str>)]) -> (r: Option<BuiltIn>)
    requires
        cmd@.len() > 0,
    ensures
        r == if cmd@.len() > 1 {
            None
        } else if cmd@[0].0@ == "exit"@ {
            Some(BuiltIn::Exit)
        } else if cmd@[0].0@ == "jobs"@ {
            Some(BuiltIn::Jobs)
        } else if cmd@[0].0@ == "fg"@ {
            Some(BuiltIn::Fg)
        } else if cmd@[0].0@ == "cd"@ {
            Some(BuiltIn::Cd)
        } else {
            None
        },
{
    if cmd.len() > 1 {
        return None;
    }
    let name = cmd[0].0;
    if same_str(name, "exit") {
        Some(BuiltIn::Exit)
    } else if same_str(name, "jobs") {
        Some(BuiltIn::Jobs)
    } else if same_str(name, "fg") {
        Some(BuiltIn::Fg)
    } else if same_str(name, "cd") {
        Some(BuiltIn::Cd)
    } else {
        None
    }
}

/// The face in the prompt: smiling after a command that succeeded (status 0),
/// a skull otherwise.
pub fn prompt_face(prev: i32) -> (c: char)
    ensures
        c == if prev == 0 {
            '\u{1F642}'
        } else {
            '\u{1F480}'
        },
{
    if prev == 0 {
        '\u{1F642}'
    } else {
        '\u{1F480}'
    }
}

/// Where `cd` goes: `None` for the home directory when the argument list has
/// one word, else its second word. An empty argument list is not accepted.
pub fn cd_target<'a>(args: &[&'a str]) -> (r: Option<&'a str>)
    requires
        args@.len() > 0,
    ensures
        r == if args@.len() == 1 {
            None
        } else {
            Some(args@[1])
        },
{
    if args.len() == 1 {
        None
    } else {
        Some(args[1])
    }
}

/// The state of the worker: the last exit status, the foreground process
/// group, the jobs by number, the process groups by id and the processes by id.
pub struct Worker {
    exit_val: i32,
    fg: Option<i32>,
    /// job id -> (process group id, command line)
    jobs: BTreeMap<usize, (i32, String)>,
    /// process group id -> (job id, process ids)
    pgid_to_pids: HashMap<i32, (usize, HashSet<i32>)>,
    pid_to_info: HashMap<i32, ProcInfo>,
    shell_pgid: i32,
}

impl View for Worker {
    type V = JobTables;

    closed spec fn view(&self) -> JobTables {
        JobTables {
            exit_val: self.exit_val,
            fg: self.fg,
            jobs: Map::new(
                |j: usize| self.jobs@.contains_key(j),
                |j: usize| (self.jobs@[j].0, self.jobs@[j].1@),
            ),
            groups: Map::new(
                |g: i32| self.pgid_to_pids@.contains_key(g),
                |g: i32| (self.pgid_to_pids@[g].0, self.pgid_to_pids@[g].1@),
            ),
            procs: self.pid_to_info@,
            shell_pgid: self.shell_pgid,
        }
    }
}

impl Worker {
    /// A worker with no job, for a shell in process group `shell_pgid`.
    pub fn new(shell_pgid: i32) -> (w: Worker)
        ensures
            w@.wf(),
            w@.exit_val == 0,
            w@.fg is None,
            w@.shell_pgid == shell_pgid,
            w@.jobs == Map::<usize, (i32, Seq<char>)>::empty(),
            w@.groups == Map::<i32, (usize, Set<i32>)>::empty(),
            w@.procs == Map::<i32, ProcInfo>::empty(),
    {
        let w = Worker {
            exit_val: 0,
            fg: None,
            jobs: BTreeMap::new(),
            pgid_to_pids: HashMap::new(),
            pid_to_info: HashMap::new(),
            shell_pgid,
        };
        assert(w@.jobs =~= Map::<usize, (i32, Seq<char>)>::empty());
        assert(w@.groups =~= Map::<i32, (usize, Set<i32>)>::empty());
        w
    }

    /// Sets the state of process `pid` and returns its state before; `None`
    /// for an unknown process.
    pub fn set_pid_state(&mut self, pid: i32, state: ProcState) -> (r: Option<ProcState>)
        requires
            old(self)@.wf(),
        ensures
            final(self)@ == old(self)@.with_state(pid, state),
            final(self)@.wf(),
            r == if old(self)@.procs.contains_key(pid) {
                Some(old(self)@.procs[pid].state)
            } else {
                None
            },
    {
        let (prev, pgid) = match self.pid_to_info.get(&pid) {
            Some(info) => (info.state, info.pgid),
            None => {
                return None;
            },
        };
        self.pid_to_info.insert(pid, ProcInfo { state, pgid });
        assert(self@ =~= old(self)@.with_state(pid, state));
        Some(prev)
    }

    /// Deletes the information of process `pid`, takes it out of the live
    /// processes of its group and returns its job and group; `None`, changing
    /// nothing, when it or its group is unknown.
    pub fn remove_pid(&mut self, pid: i32) -> (r: Option<(usize, i32)>)
        requires
            old(self)@.wf(),
        ensures
            final(self)@ == old(self)@.without_pid(pid),
            final(self)@.wf(),
            r == old(self)@.pid_group(pid),
    {
        let pgid = match self.pid_to_info.get(&pid) {
            Some(info) => info.pgid,
            None => {
                return None;
            },
        };
        let (job_id, mut pids) = match self.pgid_to_pids.remove(&pgid) {
            Some(it) => it,
            None => {
                assert(self@ =~= old(self)@);
                return None;
            },
        };
        pids.remove(&pid);
        self.pgid_to_pids.insert(pgid, (job_id, pids));
        self.pid_to_info.remove(&pid);
        assert(self@ =~= old(self)@.without_pid(pid));
        Some((job_id, pgid))
    }

    /// Forgets job `job_id` and its process group, which has no live process.
    pub fn remove_job(&mut self, job_id: usize)
        requires
            old(self)@.wf(),
            old(self)@.jobs.contains_key(job_id) ==> old(self)@.group_empty(
                old(self)@.jobs[job_id].0,
            ),
        ensures
            final(self)@ == old(self)@.without_job(job_id),
            final(self)@.wf(),
    {
        if let Some((pgid, _)) = self.jobs.remove(&job_id) {
            if let Some((_, pids)) = self.pgid_to_pids.remove(&pgid) {
                assert(pids@.is_empty());
            }
        }
        assert(self@ =~= old(self)@.without_job(job_id));
    }

    /// Whether group `pgid` has no live process.
    pub fn is_group_empty(&self, pgid: i32) -> (b: bool)
        requires
            self@.groups.contains_key(pgid),
        ensures
            b == self@.group_empty(pgid),
    {
        self.pgid_to_pids.get(&pgid).unwrap().1.is_empty()
    }

    /// Records a new job `job_id` for command line `line`, whose processes
    /// `pids` form the process group `pgid`. The job number, the group and the
    /// processes must be new, and each process must belong to `pgid`.
    pub fn insert_job(&mut self, job_id: usize, pgid: i32, pids: Vec<(i32, ProcInfo)>, line: &str)
        requires
            old(self)@.wf(),
            !old(self)@.jobs.contains_key(job_id),
            !old(self)@.groups.contains_key(pgid),
            forall|k: int| 0 <= k < pids@.len() ==> (#[trigger] pids@[k]).1.pgid == pgid,
            forall|k: int| 0 <= k < pids@.len() ==> !old(self)@.procs.contains_key(#[trigger] pids@[k].0),
            forall|k1: int, k2: int|
                0 <= k1 < k2 < pids@.len() ==> (#[trigger] pids@[k1]).0 != (#[trigger] pids@[k2]).0,
        ensures
            final(self)@ == old(self)@.with_job(job_id, pgid, pids@, line@),
            final(self)@.wf(),
    {
        self.jobs.insert(job_id, (pgid, line.to_owned()));
        assert(self@.jobs =~= old(self)@.jobs.insert(job_id, (pgid, line@)));
        let mut procs: HashSet<i32> = HashSet::new();
        let mut i: usize = 0;
        while i < pids.len()
            invariant
                i <= pids@.len(),
                procs@ == pid_set(pids@.take(i as int)),
                self.pid_to_info@ == add_procs(old(self).pid_to_info@, pids@.take(i as int)),
                self@.jobs == old(self)@.jobs.insert(job_id, (pgid, line@)),
                self.pgid_to_pids@ == old(self).pgid_to_pids@,
                self.exit_val == old(self).exit_val,
                self.fg == old(self).fg,
                self.shell_pgid == old(self).shell_pgid,
            decreases pids@.len() - i,
        {
            let (pid, info) = pids[i];
            procs.insert(pid);
            self.pid_to_info.insert(pid, info);
            proof {
                let t = pids@.take(i + 1);
                assert(t.drop_last() =~= pids@.take(i as int));
            }
            i = i + 1;
        }
        self.pgid_to_pids.insert(pgid, (job_id, procs));
        assert(pids@.take(pids@.len() as int) =~= pids@);
        assert(self@ =~= old(self)@.with_job(job_id, pgid, pids@, line@));
        proof {
            lemma_add_procs(old(self)@.procs, pids@, pgid);
            let w = self@;
            let o = old(self)@;
            assert forall|p: i32| #[trigger] pid_set(pids@).contains(p) implies !o.procs.contains_key(p) by {
                lemma_pid_set_members(pids@, p);
            }
            assert forall|g: i32, p: i32|
                #![trigger w.groups[g].1.contains(p)]
                w.groups.contains_key(g) && w.groups[g].1.contains(p) implies w.procs.contains_key(p) && w.procs[p].pgid == g by {
                if g != pgid {
                    assert(o.groups[g].1.contains(p));
                }
            }
        }
    }

    /// Whether every live process of group `pgid` is stopped; `None` for an
    /// unknown group.
    pub fn is_group_stop(&self, pgid: i32) -> (r: Option<bool>)
        requires
            self@.wf(),
        ensures
            r == if self@.groups.contains_key(pgid) {
                Some(self@.group_stopped(pgid))
            } else {
                None
            },
            r == Some(true) ==> forall|p: i32|
                #[trigger] self@.groups[pgid].1.contains(p) ==> self@.procs[p].state == ProcState::Stop,
            r == Some(false) ==> exists|p: i32|
                #[trigger] self@.groups[pgid].1.contains(p) && self@.procs[p].state == ProcState::Run,
    {
        proof {
            self@.lemma_group_stopped_iff_none_runs(pgid);
        }
        let group = match self.pgid_to_pids.get(&pgid) {
            Some(it) => it,
            None => {
                return None;
            },
        };
        let ghost members = group.1@;
        for pid in it: group.1.iter()
            invariant
                members == self@.groups[pgid].1,
                self@.wf(),
                self@.groups.contains_key(pgid),
                it.seq().unref().to_set() == members,
                forall|k: int|
                    0 <= k < it.index() ==> self@.procs[*#[trigger] it.seq()[k]].state
                        == ProcState::Stop,
        {
            assert(members.contains(*pid));
            if self.pid_to_info.get(pid).unwrap().state == ProcState::Run {
                return Some(false);
            }
        }
        Some(true)
    }

    /// The exit status of the last command.
    pub fn exit_val(&self) -> (v: i32)
        ensures
            v == self@.exit_val,
    {
        self.exit_val
    }

    /// The process group in the foreground, if it is not the shell.
    pub fn foreground(&self) -> (g: Option<i32>)
        ensures
            g == self@.fg,
    {
        self.fg
    }

    /// The process group of the shell.
    pub fn shell_pgid(&self) -> (g: i32)
        ensures
            g == self@.shell_pgid,
    {
        self.shell_pgid
    }

    /// Records how a child process changed: an exit sets the exit status to
    /// the process's status, an end by a signal to 128 plus the signal number;
    /// an ended or stopped process has its job managed.
    pub fn child_event(&mut self, ev: ChildEvent) -> (r: JobNotice)
        requires
            old(self)@.wf(),
            ev matches ChildEvent::Stopped(pid) ==> old(self)@.pid_group(pid) is Some,
            ev matches ChildEvent::Signaled(_, sig, _) ==> sig <= i32::MAX - 128,
        ensures
            final(self)@.wf(),
            match ev {
                ChildEvent::Exited(pid, status) => (r@, final(self)@) == (JobTables {
                    exit_val: status,
                    ..old(self)@
                }).after_exit(pid),
                ChildEvent::Signaled(pid, sig, _) => (r@, final(self)@) == (JobTables {
                    exit_val: (sig + 128) as i32,
                    ..old(self)@
                }).after_exit(pid),
                ChildEvent::Stopped(pid) => (r@, final(self)@) == old(self)@.after_stop(pid),
                ChildEvent::Continued(pid) => r@ == Notice::Unchanged && final(self)@ == old(
                    self,
                )@.with_state(pid, ProcState::Run),
            },
    {
        match ev {
            ChildEvent::Exited(pid, status) => {
                self.exit_val = status;
                self.process_term(pid)
            },
            ChildEvent::Signaled(pid, sig, _core) => {
                self.exit_val = sig + 128;
                self.process_term(pid)
            },
            ChildEvent::Stopped(pid) => self.process_stop(pid),
            ChildEvent::Continued(pid) => {
                self.process_continue(pid);
                JobNotice::Unchanged
            },
        }
    }

    /// The built-in `exit` with argument list `args`: refused while jobs
    /// exist; otherwise quits with the status written by the second word of
    /// `args`, or with the last status when there is no second word; a second
    /// word that is not an `i32` is refused. A refusal sets the status to 1.
    pub fn run_exit(&mut self, args: &[&str]) -> (r: ExitDecision)
        ensures
            !old(self)@.jobs.is_empty() ==> r == ExitDecision::JobsRunning,
            old(self)@.jobs.is_empty() && args@.len() < 2 ==> r == ExitDecision::Quit(
                old(self)@.exit_val,
            ),
            old(self)@.jobs.is_empty() && args@.len() >= 2 ==> r == match signed_decimal(
                args@[1]@,
            ) {
                Some(v) => if i32::MIN <= v <= i32::MAX {
                    ExitDecision::Quit(v as i32)
                } else {
                    ExitDecision::NotInteger
                },
                None => ExitDecision::NotInteger,
            },
            forall|n: nat|
                old(self)@.jobs.is_empty() && args@.len() >= 2 && n <= i32::MAX && args@[1]@
                    == #[trigger] decimal_numeral(n) ==> r == ExitDecision::Quit(n as i32),
            r is Quit ==> final(self)@ == old(self)@,
            !(r is Quit) ==> final(self)@ == (JobTables { exit_val: 1, ..old(self)@ }),
    {
        proof {
            assert forall|n: nat| args@.len() >= 2 && args@[1]@ == #[trigger] decimal_numeral(n) implies signed_decimal(
                args@[1]@,
            ) == Some(n as int) by {
                lemma_numeral_round_trip(n);
            }
        }
        let no_jobs = self.jobs.is_empty();
        assert(self@.jobs.dom() =~= self.jobs@.dom());
        if !no_jobs {
            self.exit_val = 1;
            return ExitDecision::JobsRunning;
        }
        if args.len() >= 2 {
            if let Some(n) = parse_i32(args[1]) {
                ExitDecision::Quit(n)
            } else {
                self.exit_val = 1;
                ExitDecision::NotInteger
            }
        } else {
            ExitDecision::Quit(self.exit_val)
        }
    }

    /// The built-in `fg` with argument list `args`: the second word of `args`
    /// names the job, which becomes the foreground job. Sets the status to 1.
    pub fn run_fg(&mut self, args: &[&str]) -> (r: FgDecision)
        ensures
            args@.len() < 2 ==> r is Usage,
            args@.len() >= 2 ==> match unsigned_decimal(args@[1]@) {
                Some(n) => if 0 <= n <= usize::MAX && old(self)@.jobs.contains_key(n as usize) {
                    r matches FgDecision::Resume(j, g, c) && j == n && g == old(self)@.jobs[n as usize].0
                        && c@ == old(self)@.jobs[n as usize].1
                } else {
                    r is NotFound
                },
                None => r is NotFound,
            },
            forall|n: usize|
                args@.len() >= 2 && args@[1]@ == decimal_numeral(n as nat) && #[trigger] old(
                    self,
                )@.jobs.contains_key(n) ==> (r matches FgDecision::Resume(j, g, _) && j == n && g
                    == old(self)@.jobs[n].0),
            r matches FgDecision::Resume(_, g, _) ==> final(self)@ == (JobTables {
                exit_val: 1,
                fg: Some(g),
                ..old(self)@
            }),
            !(r is Resume) ==> final(self)@ == (JobTables { exit_val: 1, ..old(self)@ }),
    {
        proof {
            assert forall|n: usize|
                args@.len() >= 2 && args@[1]@ == decimal_numeral(n as nat) implies unsigned_decimal(
                args@[1]@,
            ) == Some(n as int) by {
                lemma_numeral_round_trip(n as nat);
            }
        }
        self.exit_val = 1;
        if args.len() < 2 {
            return FgDecision::Usage;
        }
        if let Some(n) = parse_usize(args[1]) {
            if let Some(entry) = self.jobs.get(&n) {
                let pgid = entry.0;
                let cmd = entry.1.clone();
                self.fg = Some(pgid);
                return FgDecision::Resume(n, pgid, cmd);
            }
        }
        FgDecision::NotFound
    }

    /// The built-in `jobs`: for each job in increasing order of number, its
    /// number, whether all its live processes are stopped, and its command
    /// line. Sets the status to 0.
    pub fn run_jobs(&mut self) -> (r: Vec<(usize, bool, String)>)
        requires
            old(self)@.wf(),
        ensures
            final(self)@ == (JobTables { exit_val: 0, ..old(self)@ }),
            forall|a: int, b: int| 0 <= a < b < r@.len() ==> r@[a].0 < r@[b].0,
            forall|k: int|
                0 <= k < r@.len() ==> {
                    &&& old(self)@.jobs.contains_key(#[trigger] r@[k].0)
                    &&& r@[k].1 == old(self)@.group_stopped(old(self)@.jobs[r@[k].0].0)
                    &&& r@[k].2@ == old(self)@.jobs[r@[k].0].1
                },
            forall|k: int, p: i32|
                0 <= k < r@.len() && #[trigger] old(self)@.groups[old(self)@.jobs[r@[k].0].0].1.contains(p)
                    && old(self)@.procs[p].state == ProcState::Run ==> !(#[trigger] r@[k]).1,
            forall|k: int|
                0 <= k < r@.len() && !(exists|p: i32|
                    #[trigger] old(self)@.groups[old(self)@.jobs[r@[k].0].0].1.contains(p)
                        && old(self)@.procs[p].state == ProcState::Run) ==> (#[trigger] r@[k]).1,
            forall|j: usize| #[trigger]
                old(self)@.jobs.contains_key(j) ==> exists|k: int| 0 <= k < r@.len() && r@[k].0 == j,
    {
        let mut listing: Vec<(usize, bool, String)> = Vec::new();
        let ghost v = vstd::std_specs::iter::IteratorSpec::remaining(
            &vstd::std_specs::btree::spec_btree_map_iter(&self.jobs),
        );
        for entry in it: self.jobs.iter()
            invariant
                self@.wf(),
                self@ == old(self)@,
                it.seq() == v,
                v == vstd::std_specs::iter::IteratorSpec::remaining(
                    &vstd::std_specs::btree::spec_btree_map_iter(&self.jobs),
                ),
                vstd::std_specs::btree::increasing_seq(
                    it.seq().map_values(|kv: (&usize, &(i32, String))| *kv.0),
                ),
                listing@.len() == it.index(),
                forall|k: int|
                    0 <= k < listing@.len() ==> (#[trigger] listing@[k]).0 == *v[k].0,
                forall|k: int|
                    0 <= k < listing@.len() ==> {
                        &&& self@.jobs.contains_key((#[trigger] listing@[k]).0)
                        &&& listing@[k].1 == self@.group_stopped(self@.jobs[listing@[k].0].0)
                        &&& listing@[k].2@ == self@.jobs[listing@[k].0].1
                    },
                forall|a: int, b: int|
                    0 <= a < b < listing@.len() ==> (#[trigger] listing@[a]).0 < (
                    #[trigger] listing@[b]).0,
        {
            let ghost idx = it.index();
            let ghost keys = it.seq().map_values(|kv: (&usize, &(i32, String))| *kv.0);
            assert(entry == it.seq()[idx]);
            let job_id = *entry.0;
            let pgid = (entry.1).0;
            assert(self.jobs@.contains_key(job_id));
            assert(self@.jobs.contains_key(job_id));
            let stopped = self.is_group_stop(pgid).unwrap();
            let ghost prev = listing@;
            listing.push((job_id, stopped, (entry.1).1.clone()));
            proof {
                assert forall|a: int| 0 <= a < idx implies (#[trigger] listing@[a]).0 < job_id by {
                    assert(listing@[a] == prev[a]);
                    assert(keys[a] == listing@[a].0);
                    assert(keys[idx] == job_id);
                    crate::order::lemma_increasing_usize(keys, a, idx);
                }
            }
        }
        proof {
            assert(listing@.len() == v.len());
            assert forall|j: usize| #[trigger] self@.jobs.contains_key(j) implies exists|k: int|
                0 <= k < listing@.len() && listing@[k].0 == j by {
                assert(self.jobs@.contains_key(j));
                assert(v.contains((&j, &self.jobs@[j])));
                let i = choose|i: int| 0 <= i < v.len() && v[i] == (&j, &self.jobs@[j]);
                assert(listing@[i].0 == j);
            }
        }
        self.exit_val = 0;
        listing
    }

    /// Before starting a pipeline of `n_cmds` commands: the job number it
    /// gets, or why it cannot start.
    pub fn spawn_plan(&self, n_cmds: usize) -> (r: Result<usize, SpawnRefusal>)
        requires
            n_cmds != 0,
        ensures
            match r {
                Ok(id) => {
                    &&& n_cmds <= 2
                    &&& !self@.jobs.contains_key(id)
                    &&& forall|k: usize| k < id ==> self@.jobs.contains_key(k)
                },
                Err(SpawnRefusal::NoJobId) => forall|k: usize| self@.jobs.contains_key(k),
                Err(SpawnRefusal::TooManyCommands) => {
                    &&& n_cmds > 2
                    &&& exists|k: usize| !self@.jobs.contains_key(k)
                },
            },
    {
        let job_id = match self.get_new_job_id() {
            Some(id) => id,
            None => {
                return Err(SpawnRefusal::NoJobId);
            },
        };
        if n_cmds > 2 {
            return Err(SpawnRefusal::TooManyCommands);
        }
        Ok(job_id)
    }

    /// After the processes `pids` of job `job_id` have started in group
    /// `pgid`: the job is recorded and put in the foreground.
    pub fn start_job(&mut self, job_id: usize, pgid: i32, pids: Vec<(i32, ProcInfo)>, line: &str)
        requires
            old(self)@.wf(),
            !old(self)@.jobs.contains_key(job_id),
            !old(self)@.groups.contains_key(pgid),
            forall|k: int| 0 <= k < pids@.len() ==> (#[trigger] pids@[k]).1.pgid == pgid,
            forall|k: int| 0 <= k < pids@.len() ==> !old(self)@.procs.contains_key(#[trigger] pids@[k].0),
            forall|k1: int, k2: int|
                0 <= k1 < k2 < pids@.len() ==> (#[trigger] pids@[k1]).0 != (#[trigger] pids@[k2]).0,
        ensures
            final(self)@ == (JobTables { fg: Some(pgid), ..old(self)@ }).with_job(job_id, pgid, pids@, line@),
            final(self)@.wf(),
    {
        self.fg = Some(pgid);
        self.insert_job(job_id, pgid, pids, line);
    }

    /// Records how `cd` ended and returns the message for the main loop.
    pub fn cd_done(&mut self, ok: bool) -> (m: ShellMsg)
        ensures
            final(self)@ == (JobTables { exit_val: if ok { 0 } else { 1 }, ..old(self)@ }),
            m == ShellMsg::Continue(final(self)@.exit_val),
    {
        self.exit_val = if ok { 0 } else { 1 };
        ShellMsg::Continue(self.exit_val)
    }

    /// Gives the terminal back to the shell.
    pub fn set_shell_fg(&mut self)
        ensures
            final(self)@ == (JobTables { fg: None, ..old(self)@ }),
    {
        self.fg = None;
    }

    /// Manages job `job_id` of group `pgid` after a change of its processes;
    /// see `JobTables::managed`.
    pub fn manage_job(&mut self, job_id: usize, pgid: i32) -> (r: JobNotice)
        requires
            old(self)@.wf(),
            old(self)@.jobs.contains_key(job_id),
            old(self)@.groups.contains_key(pgid),
            old(self)@.group_empty(pgid) ==> old(self)@.group_empty(old(self)@.jobs[job_id].0),
        ensures
            (r@, final(self)@) == old(self)@.managed(job_id, pgid),
            final(self)@.wf(),
    {
        let is_fg = match self.fg {
            Some(x) => pgid == x,
            None => false,
        };
        let line = self.jobs.get(&job_id).unwrap().1.clone();
        if is_fg {
            if self.is_group_empty(pgid) {
                self.remove_job(job_id);
                self.set_shell_fg();
                JobNotice::Finished(job_id, line)
            } else if self.is_group_stop(pgid).unwrap() {
                self.set_shell_fg();
                JobNotice::Stopped(job_id, line)
            } else {
                JobNotice::Unchanged
            }
        } else {
            if self.is_group_empty(pgid) {
                self.remove_job(job_id);
                JobNotice::BackgroundFinished(job_id, line)
            } else {
                JobNotice::Unchanged
            }
        }
    }

    /// Process `pid` ended: it leaves its group and its job is managed.
    pub fn process_term(&mut self, pid: i32) -> (r: JobNotice)
        requires
            old(self)@.wf(),
        ensures
            (r@, final(self)@) == old(self)@.after_exit(pid),
            final(self)@.wf(),
    {
        if let Some((job_id, pgid)) = self.remove_pid(pid) {
            self.manage_job(job_id, pgid)
        } else {
            JobNotice::Unchanged
        }
    }

    /// Process `pid`, whose group is known, stopped: it is marked stopped and
    /// its job is managed.
    pub fn process_stop(&mut self, pid: i32) -> (r: JobNotice)
        requires
            old(self)@.wf(),
            old(self)@.pid_group(pid) is Some,
        ensures
            (r@, final(self)@) == old(self)@.after_stop(pid),
            final(self)@.wf(),
            ({
                let g = old(self)@.procs[pid].pgid;
                let j = old(self)@.groups[g].0;
                &&& (exists|p: i32|
                    #[trigger] old(self)@.groups[g].1.contains(p) && p != pid && old(self)@.procs[p].state
                        == ProcState::Run) ==> r@ == Notice::Unchanged && final(self)@.fg == old(self)@.fg
                        && final(self)@.jobs == old(self)@.jobs
                &&& old(self)@.fg == Some(g) && !old(self)@.groups[g].1.is_empty() && (forall|p: i32|
                    #[trigger] old(self)@.groups[g].1.contains(p) && p != pid ==> old(self)@.procs[p].state
                        == ProcState::Stop) ==> r@ == Notice::Stopped(j, old(self)@.jobs[j].1)
                        && final(self)@.fg is None && final(self)@.jobs == old(self)@.jobs
            }),
    {
        proof {
            old(self)@.lemma_after_stop(pid);
        }
        self.set_pid_state(pid, ProcState::Stop);
        let pgid = self.pid_to_info.get(&pid).unwrap().pgid;
        let job_id = self.pgid_to_pids.get(&pgid).unwrap().0;
        self.manage_job(job_id, pgid)
    }

    /// Process `pid` runs again.
    pub fn process_continue(&mut self, pid: i32)
        requires
            old(self)@.wf(),
        ensures
            final(self)@ == old(self)@.with_state(pid, ProcState::Run),
            final(self)@.wf(),
    {
        self.set_pid_state(pid, ProcState::Run);
    }

    /// Whether process `pid` has been recorded.
    pub fn has_proc(&self, pid: i32) -> (b: bool)
        ensures
            b == self@.procs.contains_key(pid),
    {
        self.pid_to_info.contains_key(&pid)
    }

    /// Whether process group `pgid` is recorded.
    pub fn has_group(&self, pgid: i32) -> (b: bool)
        ensures
            b == self@.groups.contains_key(pgid),
    {
        self.pgid_to_pids.contains_key(&pgid)
    }

    /// Whether process `pid` and its group are known.
    pub fn knows_pid(&self, pid: i32) -> (b: bool)
        ensures
            b == self@.pid_group(pid) is Some,
    {
        match self.pid_to_info.get(&pid) {
            Some(info) => self.pgid_to_pids.contains_key(&info.pgid),
            None => false,
        }
    }

    /// The least job number not in use; `None` when every number is in use.
    pub fn get_new_job_id(&self) -> (r: Option<usize>)
        ensures
            match r {
                Some(id) => {
                    &&& !self@.jobs.contains_key(id)
                    &&& forall|k: usize| k < id ==> self@.jobs.contains_key(k)
                },
                None => forall|k: usize| self@.jobs.contains_key(k),
            },
    {
        let mut i: usize = 0;
        loop
            invariant
                forall|k: usize| k < i ==> self@.jobs.contains_key(k),
            decreases usize::MAX - i,
        {
            if !self.jobs.contains_key(&i) {
                return Some(i);
            }
            if i == usize::MAX {
                return None;
            }
            i = i + 1;
        }
    }
}

} // verus!
