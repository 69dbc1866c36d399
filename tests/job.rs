use tinysh::context::ShellContext;
use tinysh::job::process::Redirect;
use tinysh::job::redirect::FdGuard;
use tinysh::job::{ExecMode, Job, PipelineAction, PipelineRun, StageWiring};
use tinysh::lexer::{Lexer, Token};

fn tokens(line: &str) -> Vec<Token> {
    let mut lex = Lexer::new();
    lex.push(line);
    lex.tokenize()
}

fn ctx() -> ShellContext {
    ShellContext::new(Vec::new(), "/".to_string())
}

#[test]
fn single_stage_with_redirects() {
    let job = Job::new(tokens("echo hi > out.txt 2>> err.txt"));
    let ps = job.processes();
    assert_eq!(ps.len(), 1);
    assert_eq!(ps[0].name().map(|s| s.as_str()), Some("echo"));
    assert_eq!(ps[0].args().to_vec(), vec!["hi".to_string()]);
    assert_eq!(
        ps[0].redirects(),
        &[
            Redirect::Write { fd: 1, target: "out.txt".to_string() },
            Redirect::Append { fd: 2, target: "err.txt".to_string() },
        ]
    );
}

#[test]
fn three_stage_pipeline() {
    let job = Job::new(tokens("cat f | sort | uniq -c"));
    let ps = job.processes();
    assert_eq!(ps.len(), 3);
    assert_eq!(ps[2].name().map(|s| s.as_str()), Some("uniq"));
    assert_eq!(ps[2].args().to_vec(), vec!["-c".to_string()]);
    assert_eq!(job.stage_wiring(0), StageWiring { stdin_from_pipe: false, stdout_to_pipe: true });
    assert_eq!(job.stage_wiring(1), StageWiring { stdin_from_pipe: true, stdout_to_pipe: true });
    assert_eq!(job.stage_wiring(2), StageWiring { stdin_from_pipe: true, stdout_to_pipe: false });
    assert_eq!(job.plan(&ctx()), ExecMode::Pipeline);
}

#[test]
fn trailing_pipe_gives_an_empty_stage() {
    let job = Job::new(tokens("ls |"));
    let ps = job.processes();
    assert_eq!(ps.len(), 2);
    assert_eq!(ps[1].name(), None);
    assert!(ps[1].args().is_empty());
}

#[test]
fn builtin_alone_runs_in_process() {
    let c = ctx();
    assert_eq!(Job::new(tokens("cd /tmp")).plan(&c), ExecMode::InProcess);
    assert!(Job::new(tokens("pwd > f")).is_single_builtin(&c));
    assert_eq!(Job::new(tokens("ls")).plan(&c), ExecMode::Pipeline);
    assert_eq!(Job::new(tokens("echo a | echo b")).plan(&c), ExecMode::Pipeline);
    assert_eq!(Job::new(tokens("")).plan(&c), ExecMode::Pipeline);
}

#[test]
fn malformed_token_sequences_are_refused() {
    assert!(Job::accepts(&tokens("echo > f")));
    assert!(!Job::accepts(&tokens("echo >")));
    assert!(!Job::accepts(&tokens("echo > | x")));
    assert!(!Job::accepts(&vec![Token::Complex("x".to_string())]));
    assert!(Job::accepts(&Vec::new()));
}

#[test]
fn first_save_wins() {
    let mut g = FdGuard::new();
    assert!(!g.is_saved(1));
    g.save(1, 10);
    g.save(1, 11);
    g.save(2, 12);
    assert!(g.is_saved(1));
    let mut released = g.release();
    released.sort();
    assert_eq!(released, vec![(1, 10), (2, 12)]);
    assert!(!g.is_saved(1));
    assert!(g.release().is_empty());
}

#[test]
fn pipeline_run_spawns_in_order_then_waits_for_all() {
    let job = Job::new(tokens("a | b | c"));
    let mut run = PipelineRun::new(&job);
    let pipe = |i: bool, o: bool| StageWiring { stdin_from_pipe: i, stdout_to_pipe: o };
    assert_eq!(run.next(), PipelineAction::Spawn { stage: 0, wiring: pipe(false, true) });
    run.spawned(100);
    assert_eq!(run.next(), PipelineAction::Spawn { stage: 1, wiring: pipe(true, true) });
    run.spawned(101);
    assert_eq!(run.next(), PipelineAction::Spawn { stage: 2, wiring: pipe(true, false) });
    run.spawned(102);
    assert_eq!(run.next(), PipelineAction::Wait { pid: 100 });
    run.waited();
    assert_eq!(run.next(), PipelineAction::Wait { pid: 101 });
    run.waited();
    assert_eq!(run.next(), PipelineAction::Wait { pid: 102 });
    run.waited();
    assert_eq!(run.next(), PipelineAction::Done);
}

#[test]
fn pipeline_run_stops_starting_after_a_failure() {
    let job = Job::new(tokens("a | b | c"));
    let mut run = PipelineRun::new(&job);
    run.spawned(7);
    run.spawn_failed();
    assert_eq!(run.next(), PipelineAction::Wait { pid: 7 });
    run.waited();
    assert_eq!(run.next(), PipelineAction::Done);
}

#[test]
fn single_external_stage_has_no_pipes() {
    let job = Job::new(tokens("ls -l"));
    let run = PipelineRun::new(&job);
    assert_eq!(
        run.next(),
        PipelineAction::Spawn {
            stage: 0,
            wiring: StageWiring { stdin_from_pipe: false, stdout_to_pipe: false }
        }
    );
}
