use vstd::prelude::*;

pub mod process;
pub mod redirect;

use crate::context::ShellContext;
use crate::lexer::{lexemes, Lexeme, Token};
use process::{empty_stage, Process, Redirect, Route, Stage};

verus! {

/// Whether the token at position `i` can start its part of a stage: a
/// redirection operator is followed by the literal that names its target, and
/// no token is of the reserved substitution kind.
pub open spec fn token_ok(ts: Seq<Lexeme>, i: int) -> bool {
    match ts[i] {
        Lexeme::Complex(_) => false,
        Lexeme::Write(_) | Lexeme::Append(_) => i + 1 < ts.len() && ts[i + 1] is Literal,
        _ => true,
    }
}

/// A token sequence that a job can be built from.
pub open spec fn well_formed(ts: Seq<Lexeme>) -> bool {
    forall|i: int| 0 <= i < ts.len() ==> #[trigger] token_ok(ts, i)
}

pub open spec fn literal_text(t: Lexeme) -> Seq<char> {
    match t {
        Lexeme::Literal(s) => s,
        _ => Seq::empty(),
    }
}

/// Builds stages from position `i` on, with `cur` the stage being filled and
/// `done` the stages before it.
pub open spec fn build_from(ts: Seq<Lexeme>, i: int, cur: Stage, done: Seq<Stage>) -> Seq<Stage>
    decreases ts.len() - i,
{
    if 0 <= i < ts.len() {
        match ts[i] {
            Lexeme::Literal(a) => build_from(ts, i + 1, Stage { argv: cur.argv.push(a), ..cur }, done),
            Lexeme::Pipe => build_from(ts, i + 1, empty_stage(), done.push(cur)),
            Lexeme::Write(fd) => if i + 2 <= ts.len() {
                let r = Route { fd, target: literal_text(ts[i + 1]), append: false };
                build_from(ts, i + 2, Stage { redirects: cur.redirects.push(r), ..cur }, done)
            } else {
                done.push(cur)
            },
            Lexeme::Append(fd) => if i + 2 <= ts.len() {
                let r = Route { fd, target: literal_text(ts[i + 1]), append: true };
                build_from(ts, i + 2, Stage { redirects: cur.redirects.push(r), ..cur }, done)
            } else {
                done.push(cur)
            },
            Lexeme::Complex(_) => build_from(ts, i + 1, cur, done),
        }
    } else {
        done.push(cur)
    }
}

/// The stages of the job that a token sequence describes.
pub open spec fn build(ts: Seq<Lexeme>) -> Seq<Stage> {
    build_from(ts, 0, empty_stage(), Seq::empty())
}

pub open spec fn stages(v: Seq<Process>) -> Seq<Stage> {
    v.map_values(|p: Process| p@)
}

/// How a job runs.
#[derive(Clone, Copy, Debug, PartialEq, Eq, Structural)]
pub enum ExecMode {
    /// A single builtin, run inside the shell's own process.
    InProcess,
    /// One child process per stage, joined by pipes.
    Pipeline,
}

/// Where a stage of a pipeline reads and writes, before its own redirections.
#[derive(Clone, Copy, Debug, PartialEq, Eq, Structural)]
pub struct StageWiring {
    /// Standard input comes from the pipe that the previous stage writes.
    pub stdin_from_pipe: bool,
    /// Standard output goes into a new pipe that the next stage reads.
    pub stdout_to_pipe: bool,
}

/// Whether stage `i` of `n` reads the pipe of the stage before it.
pub open spec fn reads_pipe(n: int, i: int) -> bool {
    0 < i < n
}

/// Whether stage `i` of `n` writes a pipe for the stage after it.
pub open spec fn writes_pipe(n: int, i: int) -> bool {
    0 <= i < n - 1
}

/// A pipeline.
pub struct Job {
    processes: Vec<Process>,
}

impl View for Job {
    type V = Seq<Stage>;

    closed spec fn view(&self) -> Seq<Stage> {
        stages(self.processes@)
    }
}

impl Job {
    /// Whether a job can be built from `tokens`.
    pub fn accepts(tokens: &Vec<Token>) -> (r: bool)
        ensures
            r == well_formed(lexemes(tokens@)),
    {
        let ghost ts = lexemes(tokens@);
        let n = tokens.len();
        let mut i: usize = 0;
        while i < n
            invariant
                n == ts.len(),
                ts == lexemes(tokens@),
                0 <= i <= n,
                forall|k: int| 0 <= k < i ==> #[trigger] token_ok(ts, k),
            decreases n - i,
        {
            let ok = match &tokens[i] {
                Token::Complex(_) => false,
                Token::Write(_) | Token::Append(_) => i + 1 < n && match &tokens[i + 1] {
                    Token::Literal(_) => true,
                    _ => false,
                },
                _ => true,
            };
            if !ok {
                assert(!token_ok(ts, i as int));
                return false;
            }
            i = i + 1;
        }
        true
    }

    /// Builds the stages of a pipeline from a well-formed token sequence.
    pub fn new(tokens: Vec<Token>) -> (r: Job)
        requires
            well_formed(lexemes(tokens@)),
        ensures
            r@ == build(lexemes(tokens@)),
    {
        let ghost ts = lexemes(tokens@);
        let n = tokens.len();
        let mut processes: Vec<Process> = Vec::new();
        let mut current = Process::new();
        let mut i: usize = 0;
        assert(stages(processes@) =~= Seq::<Stage>::empty());
        while i < n
            invariant
                n == ts.len(),
                ts == lexemes(tokens@),
                well_formed(ts),
                0 <= i <= n,
                build_from(ts, i as int, current@, stages(processes@)) == build(ts),
            decreases n - i,
        {
            assert(token_ok(ts, i as int));
            match &tokens[i] {
                Token::Literal(a) => {
                    current.push_arg(a.clone());
                    i = i + 1;
                },
                Token::Pipe => {
                    let ghost before = processes@;
                    processes.push(current);
                    current = Process::new();
                    assert(stages(processes@) =~= stages(before).push(stages(processes@).last()));
                    i = i + 1;
                },
                Token::Write(fd) => {
                    let target = match &tokens[i + 1] {
                        Token::Literal(t) => t.clone(),
                        _ => String::new(),
                    };
                    current.push_output(Redirect::Write { fd: *fd, target });
                    i = i + 2;
                },
                Token::Append(fd) => {
                    let target = match &tokens[i + 1] {
                        Token::Literal(t) => t.clone(),
                        _ => String::new(),
                    };
                    current.push_output(Redirect::Append { fd: *fd, target });
                    i = i + 2;
                },
                Token::Complex(_) => {
                    i = i + 1;
                },
            }
        }
        let ghost before = processes@;
        processes.push(current);
        assert(stages(processes@) =~= stages(before).push(stages(processes@).last()));
        Job { processes }
    }

    /// The stages, in pipeline order.
    pub fn processes(&self) -> (r: &[Process])
        ensures
            stages(r@) == self@,
    {
        self.processes.as_slice()
    }

    /// Whether the job is one stage whose program is a builtin.
    pub fn is_single_builtin(&self, ctx: &ShellContext) -> (r: bool)
        requires
            ctx.wf(),
        ensures
            r == (self@.len() == 1 && self@[0].argv.len() > 0 && ctx.registry_map().contains_key(
                self@[0].argv[0],
            )),
    {
        self.processes.len() == 1 && self.processes[0].is_builtin(ctx)
    }

    /// How the job runs: a single builtin inside the shell, anything else as a
    /// pipeline of child processes.
    pub fn plan(&self, ctx: &ShellContext) -> (r: ExecMode)
        requires
            ctx.wf(),
        ensures
            r == (if self@.len() == 1 && self@[0].argv.len() > 0
                && ctx.registry_map().contains_key(self@[0].argv[0]) {
                ExecMode::InProcess
            } else {
                ExecMode::Pipeline
            }),
    {
        if self.is_single_builtin(ctx) {
            ExecMode::InProcess
        } else {
            ExecMode::Pipeline
        }
    }

    /// The pipes around stage `i` when the job runs as a pipeline.
    pub fn stage_wiring(&self, i: usize) -> (r: StageWiring)
        requires
            i < self@.len(),
        ensures
            r.stdin_from_pipe == reads_pipe(self@.len() as int, i as int),
            r.stdout_to_pipe == writes_pipe(self@.len() as int, i as int),
    {
        StageWiring { stdin_from_pipe: i > 0, stdout_to_pipe: i < self.processes.len() - 1 }
    }
}

/// What the shell does next while it runs a pipeline.
#[derive(Clone, Copy, Debug, PartialEq, Eq, Structural)]
pub enum PipelineAction {
    /// Start stage `stage` in a child, wired as `wiring` says.
    Spawn { stage: usize, wiring: StageWiring },
    /// Wait for the child `pid` to end.
    Wait { pid: i32 },
    /// Every child that was started has ended.
    Done,
}

/// The progress of a pipeline: how many stages were started and the children
/// they run in, how many of those were waited for, and whether starting one
/// failed (a pipe or a fork), which stops the starting of more.
pub struct PipelineRun {
    stages: usize,
    pids: Vec<i32>,
    waited: usize,
    failed: bool,
}

/// The next action, from the number of stages, the children started, how many
/// of them were waited for, and whether a start failed.
pub open spec fn next_action(stages: nat, pids: Seq<i32>, waited: nat, failed: bool) -> PipelineAction {
    if !failed && pids.len() < stages {
        PipelineAction::Spawn {
            stage: pids.len() as usize,
            wiring: StageWiring {
                stdin_from_pipe: reads_pipe(stages as int, pids.len() as int),
                stdout_to_pipe: writes_pipe(stages as int, pids.len() as int),
            },
        }
    } else if waited < pids.len() {
        PipelineAction::Wait { pid: pids[waited as int] }
    } else {
        PipelineAction::Done
    }
}

impl PipelineRun {
    pub closed spec fn stage_count(&self) -> nat {
        self.stages as nat
    }

    /// The children started so far, in stage order.
    pub closed spec fn started(&self) -> Seq<i32> {
        self.pids@
    }

    pub closed spec fn reaped(&self) -> nat {
        self.waited as nat
    }

    pub closed spec fn stopped(&self) -> bool {
        self.failed
    }

    pub closed spec fn wf(&self) -> bool {
        self.waited <= self.pids@.len() <= self.stages
    }

    pub open spec fn action(&self) -> PipelineAction {
        next_action(self.stage_count(), self.started(), self.reaped(), self.stopped())
    }

    /// The run of `job` before anything has started.
    pub fn new(job: &Job) -> (r: PipelineRun)
        ensures
            r.wf(),
            r.stage_count() == job@.len(),
            r.started() == Seq::<i32>::empty(),
            r.reaped() == 0,
            !r.stopped(),
    {
        PipelineRun { stages: job.processes.len(), pids: Vec::new(), waited: 0, failed: false }
    }

    /// What to do next.
    pub fn next(&self) -> (r: PipelineAction)
        requires
            self.wf(),
        ensures
            r == self.action(),
    {
        if !self.failed && self.pids.len() < self.stages {
            let i = self.pids.len();
            PipelineAction::Spawn {
                stage: i,
                wiring: StageWiring { stdin_from_pipe: i > 0, stdout_to_pipe: i < self.stages - 1 },
            }
        } else if self.waited < self.pids.len() {
            PipelineAction::Wait { pid: self.pids[self.waited] }
        } else {
            PipelineAction::Done
        }
    }

    /// Records that the stage that [`PipelineRun::next`] asked for runs in child `pid`.
    pub fn spawned(&mut self, pid: i32)
        requires
            old(self).wf(),
            old(self).action() is Spawn,
        ensures
            final(self).wf(),
            final(self).started() == old(self).started().push(pid),
            final(self).reaped() == old(self).reaped(),
            final(self).stopped() == old(self).stopped(),
            final(self).stage_count() == old(self).stage_count(),
    {
        self.pids.push(pid);
    }

    /// Records that the stage that [`PipelineRun::next`] asked for could not be
    /// started: no later stage starts.
    pub fn spawn_failed(&mut self)
        requires
            old(self).wf(),
        ensures
            final(self).wf(),
            final(self).started() == old(self).started(),
            final(self).reaped() == old(self).reaped(),
            final(self).stopped(),
            final(self).stage_count() == old(self).stage_count(),
    {
        self.failed = true;
    }

    /// Records that the child that [`PipelineRun::next`] asked to wait for ended.
    pub fn waited(&mut self)
        requires
            old(self).wf(),
            old(self).action() is Wait,
        ensures
            final(self).wf(),
            final(self).started() == old(self).started(),
            final(self).reaped() == old(self).reaped() + 1,
            final(self).stopped() == old(self).stopped(),
            final(self).stage_count() == old(self).stage_count(),
    {
        self.waited = self.waited + 1;
    }
}

/// A pipeline run starts its stages left to right, starts waiting only once
/// every stage is started or a start failed, waits for its children in the
/// order they were started, and is done only when every child it started was
/// waited for.
pub proof fn lemma_done_after_every_child(stages: nat, pids: Seq<i32>, waited: nat, failed: bool)
    requires
        waited <= pids.len() <= stages <= usize::MAX,
    ensures
        next_action(stages, pids, waited, failed) matches PipelineAction::Spawn { stage, .. } ==> stage
            == pids.len() && !failed,
        next_action(stages, pids, waited, failed) matches PipelineAction::Wait { pid } ==> (failed
            || pids.len() == stages) && pid == pids[waited as int],
        next_action(stages, pids, waited, failed) is Done ==> waited == pids.len() && (failed
            || pids.len() == stages),
{
}

/// What stage `i` of an `n`-stage pipeline reads: the shell's input for a stage
/// that reads no pipe, else what the stage before it writes, where `f(k, x)` is
/// what stage `k` writes on reading `x`.
pub open spec fn stage_input(n: int, i: int, input: Seq<u8>, f: spec_fn(int, Seq<u8>) -> Seq<u8>) -> Seq<u8>
    decreases i,
{
    if reads_pipe(n, i) && i > 0 {
        f(i - 1, stage_input(n, i - 1, input, f))
    } else {
        input
    }
}

/// Every stage but the last writes a pipe, and the stage after it reads that
/// pipe; the first stage reads the shell's input and the last writes the shell's
/// output.
pub proof fn lemma_pipes_join_neighbours(n: int)
    requires
        n >= 1,
    ensures
        forall|i: int| 0 <= i < n - 1 ==> writes_pipe(n, i) && #[trigger] reads_pipe(n, i + 1),
        !reads_pipe(n, 0),
        !writes_pipe(n, n - 1),
{
}

/// In a pipeline of stages that pass their input through unchanged, the last
/// stage writes exactly what the first one read.
pub proof fn lemma_pass_through_pipeline(
    n: int,
    input: Seq<u8>,
    f: spec_fn(int, Seq<u8>) -> Seq<u8>,
)
    requires
        n >= 1,
        forall|k: int, x: Seq<u8>| 0 <= k < n ==> #[trigger] f(k, x) == x,
    ensures
        f(n - 1, stage_input(n, n - 1, input, f)) == input,
{
    lemma_pass_through_prefix(n, n - 1, input, f);
}

proof fn lemma_pass_through_prefix(
    n: int,
    i: int,
    input: Seq<u8>,
    f: spec_fn(int, Seq<u8>) -> Seq<u8>,
)
    requires
        0 <= i < n,
        forall|k: int, x: Seq<u8>| 0 <= k < n ==> #[trigger] f(k, x) == x,
    ensures
        stage_input(n, i, input, f) == input,
    decreases i,
{
    if i > 0 {
        lemma_pass_through_prefix(n, i - 1, input, f);
        assert(f(i - 1, stage_input(n, i - 1, input, f)) == stage_input(n, i - 1, input, f));
    }
}

} // verus!
