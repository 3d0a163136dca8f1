//! What a receiving side does from start to end: directories first, then the
//! files, then the symbolic links, and then it parts.

use vstd::prelude::*;

use crate::pipeline::generator::{find_kind, lemma_next_of, next_of};
use crate::pipeline::receiver::{goodbye_plan, goodbye_steps, GoodbyeStep};
use crate::protocol::types::{entries, FileEntry, FileList, FileType};

verus! {

/// How far a receiving side is: the position in the list, or in the plan of
/// parting, from which it goes on.
#[derive(Clone, Copy, Debug, PartialEq, Eq, Structural)]
pub enum RunStage {
    Dirs(usize),
    Files(usize),
    Links(usize),
    Parting(usize),
    Over,
}

/// What a receiving side does next.
#[derive(Clone, Copy, Debug, PartialEq, Eq, Structural)]
pub enum RunAction {
    /// Make the directory at this position of the list.
    MakeDir(usize),
    /// Look at the file at this position, and ask for it if it is out of date.
    Check(usize),
    /// Make the symbolic link at this position.
    MakeLink(usize),
    /// Take a step of parting.
    Part(GoodbyeStep),
    /// Nothing more.
    Finish,
}

/// The stage after `s` has nothing more to do.
pub open spec fn stage_behind(s: RunStage) -> RunStage {
    match s {
        RunStage::Dirs(_) => RunStage::Files(0),
        RunStage::Files(_) => RunStage::Links(0),
        RunStage::Links(_) => RunStage::Parting(0),
        _ => RunStage::Over,
    }
}

/// How many stages are still to come.
pub open spec fn stages_left(s: RunStage) -> nat {
    match s {
        RunStage::Dirs(_) => 4,
        RunStage::Files(_) => 3,
        RunStage::Links(_) => 2,
        RunStage::Parting(_) => 1,
        RunStage::Over => 0,
    }
}

/// What is done next, and the stage behind it.
pub open spec fn run_next(s: RunStage, fs: Seq<FileEntry>, protocol: u32) -> (RunAction, RunStage)
    decreases stages_left(s),
{
    match s {
        RunStage::Dirs(i) => match next_of(fs, FileType::Dir, i as int) {
            Some(k) => (RunAction::MakeDir(k as usize), RunStage::Dirs((k + 1) as usize)),
            None => run_next(stage_behind(s), fs, protocol),
        },
        RunStage::Files(i) => match next_of(fs, FileType::Regular, i as int) {
            Some(k) => (RunAction::Check(k as usize), RunStage::Files((k + 1) as usize)),
            None => run_next(stage_behind(s), fs, protocol),
        },
        RunStage::Links(i) => match next_of(fs, FileType::Symlink, i as int) {
            Some(k) => (RunAction::MakeLink(k as usize), RunStage::Links((k + 1) as usize)),
            None => run_next(stage_behind(s), fs, protocol),
        },
        RunStage::Parting(j) => if (j as int) < goodbye_steps(protocol).len() {
            (
                RunAction::Part(goodbye_steps(protocol)[j as int]),
                RunStage::Parting((j + 1) as usize),
            )
        } else {
            (RunAction::Finish, RunStage::Over)
        },
        RunStage::Over => (RunAction::Finish, RunStage::Over),
    }
}

/// A receiving side on its way through a list.
#[derive(Debug)]
pub struct ReceiveRun {
    pub stage: RunStage,
    pub protocol: u32,
}

impl ReceiveRun {
    /// A receiving side at its start.
    pub fn new(protocol: u32) -> (r: ReceiveRun)
        ensures
            r.stage == RunStage::Dirs(0),
            r.protocol == protocol,
    {
        ReceiveRun { stage: RunStage::Dirs(0), protocol }
    }

    /// Says what is done next.
    pub fn next(&mut self, list: &FileList) -> (a: RunAction)
        ensures
            (a, final(self).stage) == run_next(
                old(self).stage,
                entries(list.files@),
                old(self).protocol,
            ),
            final(self).protocol == old(self).protocol,
    {
        loop
            invariant
                run_next(self.stage, entries(list.files@), self.protocol) == run_next(
                    old(self).stage,
                    entries(list.files@),
                    old(self).protocol,
                ),
                self.protocol == old(self).protocol,
            decreases stages_left(self.stage),
        {
            match self.stage {
                RunStage::Dirs(i) => match find_kind(list, FileType::Dir, i) {
                    Some(k) => {
                        self.stage = RunStage::Dirs(k + 1);
                        return RunAction::MakeDir(k);
                    },
                    None => {
                        self.stage = RunStage::Files(0);
                    },
                },
                RunStage::Files(i) => match find_kind(list, FileType::Regular, i) {
                    Some(k) => {
                        self.stage = RunStage::Files(k + 1);
                        return RunAction::Check(k);
                    },
                    None => {
                        self.stage = RunStage::Links(0);
                    },
                },
                RunStage::Links(i) => match find_kind(list, FileType::Symlink, i) {
                    Some(k) => {
                        self.stage = RunStage::Links(k + 1);
                        return RunAction::MakeLink(k);
                    },
                    None => {
                        self.stage = RunStage::Parting(0);
                    },
                },
                RunStage::Parting(j) => {
                    let plan: Vec<GoodbyeStep> = goodbye_plan(self.protocol);
                    if j < plan.len() {
                        self.stage = RunStage::Parting(j + 1);
                        return RunAction::Part(plan[j]);
                    }
                    self.stage = RunStage::Over;
                    return RunAction::Finish;
                },
                RunStage::Over => {
                    return RunAction::Finish;
                },
            }
        }
    }
}

// ---------------------------------------------------------------------------
// Laws
// ---------------------------------------------------------------------------

/// The stage after `n` actions, and the actions.
pub open spec fn run_actions(s: RunStage, fs: Seq<FileEntry>, protocol: u32, n: nat) -> (
    Seq<RunAction>,
    RunStage,
)
    decreases n,
{
    if n == 0 {
        (Seq::empty(), s)
    } else {
        let (before, at) = run_actions(s, fs, protocol, (n - 1) as nat);
        let (a, next) = run_next(at, fs, protocol);
        (before.push(a), next)
    }
}

/// Whether an action is about the file at position `k`, as its kind has it.
pub open spec fn serves(a: RunAction, fs: Seq<FileEntry>, k: int) -> bool {
    match fs[k].file_type() {
        FileType::Dir => a == RunAction::MakeDir(k as usize),
        FileType::Regular => a == RunAction::Check(k as usize),
        FileType::Symlink => a == RunAction::MakeLink(k as usize),
        _ => false,
    }
}

/// Whether a stage has passed the position `k` of a file of its kind.
spec fn passed(s: RunStage, kind: FileType, k: int) -> bool {
    match kind {
        FileType::Dir => match s {
            RunStage::Dirs(i) => k < i,
            _ => true,
        },
        FileType::Regular => match s {
            RunStage::Dirs(_) => false,
            RunStage::Files(i) => k < i,
            _ => true,
        },
        FileType::Symlink => match s {
            RunStage::Dirs(_) => false,
            RunStage::Files(_) => false,
            RunStage::Links(i) => k < i,
            _ => true,
        },
        _ => false,
    }
}

proof fn lemma_passed(s: RunStage, fs: Seq<FileEntry>, protocol: u32, k: int)
    requires
        0 <= k < fs.len() <= usize::MAX,
        !passed(s, fs[k].file_type(), k),
        passed(run_next(s, fs, protocol).1, fs[k].file_type(), k),
    ensures
        serves(run_next(s, fs, protocol).0, fs, k),
    decreases stages_left(s),
{
    match s {
        RunStage::Dirs(i) => {
            lemma_next_of(fs, FileType::Dir, i as int);
            if next_of(fs, FileType::Dir, i as int) is None {
                lemma_passed(stage_behind(s), fs, protocol, k);
            }
        },
        RunStage::Files(i) => {
            lemma_next_of(fs, FileType::Regular, i as int);
            if next_of(fs, FileType::Regular, i as int) is None {
                lemma_passed(stage_behind(s), fs, protocol, k);
            }
        },
        RunStage::Links(i) => {
            lemma_next_of(fs, FileType::Symlink, i as int);
            if next_of(fs, FileType::Symlink, i as int) is None {
                lemma_passed(stage_behind(s), fs, protocol, k);
            }
        },
        _ => {},
    }
}

proof fn lemma_served(s: RunStage, fs: Seq<FileEntry>, protocol: u32, n: nat, k: int)
    requires
        0 <= k < fs.len() <= usize::MAX,
        !passed(s, fs[k].file_type(), k),
        passed(run_actions(s, fs, protocol, n).1, fs[k].file_type(), k),
    ensures
        exists|i: int|
            0 <= i < n && serves(#[trigger] run_actions(s, fs, protocol, n).0[i], fs, k),
    decreases n,
{
    if n > 0 {
        let m = (n - 1) as nat;
        let (before, at) = run_actions(s, fs, protocol, m);
        let all = run_actions(s, fs, protocol, n).0;
        lemma_count(s, fs, protocol, m);
        if passed(at, fs[k].file_type(), k) {
            lemma_served(s, fs, protocol, m, k);
            let i = choose|i: int| 0 <= i < m && serves(#[trigger] before[i], fs, k);
            assert(all[i] == before[i]);
        } else {
            lemma_passed(at, fs, protocol, k);
            assert(all[m as int] == run_next(at, fs, protocol).0);
        }
    }
}

proof fn lemma_count(s: RunStage, fs: Seq<FileEntry>, protocol: u32, n: nat)
    ensures
        run_actions(s, fs, protocol, n).0.len() == n,
    decreases n,
{
    if n > 0 {
        lemma_count(s, fs, protocol, (n - 1) as nat);
    }
}

/// A receiving side that is done has served every directory, file and symbolic
/// link of the list.
pub proof fn every_file_is_served(fs: Seq<FileEntry>, protocol: u32, n: nat, k: int)
    requires
        0 <= k < fs.len() <= usize::MAX,
        fs[k].file_type() is Dir || fs[k].file_type() is Regular || fs[k].file_type() is Symlink,
        run_actions(RunStage::Dirs(0), fs, protocol, n).1 == RunStage::Over,
    ensures
        exists|i: int|
            0 <= i < n && serves(
                #[trigger] run_actions(RunStage::Dirs(0), fs, protocol, n).0[i],
                fs,
                k,
            ),
{
    lemma_served(RunStage::Dirs(0), fs, protocol, n, k);
}

} // verus!
