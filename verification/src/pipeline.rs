use vstd::prelude::*;

verus! {

/// Why a pipeline cannot run at all, if it cannot.
pub enum PipelineProblem {
    /// There are no stages: "Invalid pipeline: no commands".
    NoCommands,
    /// A stage has no words: "Invalid pipeline: empty command".
    EmptyCommand,
}

/// What the previous stage left for the next one.
pub enum Previous {
    /// Nothing: this is the first stage, or the previous builtin wrote to the terminal.
    Nothing,
    /// The captured output of a builtin.
    Captured,
    /// A running process whose standard output is a pipe.
    Process,
}

/// Where a started program reads its standard input from.
pub enum StdinSource {
    /// The shell's own standard input.
    Inherit,
    /// A pipe fed with the captured output of the previous builtin.
    Captured,
    /// The standard output pipe of the previous process.
    PreviousProcess,
}

/// What to do for one stage of a pipeline.
pub enum StageAction {
    /// Wait for the previous process (when there is one), then run the builtin with its
    /// output captured for the next stage, or written to the terminal for the last stage.
    Builtin { wait_previous: bool, capture: bool },
    /// Start the program reading from `stdin`, with its standard output piped when it is not
    /// the last stage; the previous process, when there is one, is waited for once the new
    /// one started, or killed if it could not start.
    Spawn { stdin: StdinSource, pipe_stdout: bool },
    /// Report "<command>: command not found", kill the previous process when there is one,
    /// and abandon the pipeline.
    NotFound { kill_previous: bool },
}

/// The problem with a pipeline of stages with `lens` words each, if any: no stage at
/// all, or an empty stage.
pub open spec fn pipeline_problem_spec(lens: Seq<nat>) -> Option<PipelineProblem> {
    if lens.len() == 0 {
        Some(PipelineProblem::NoCommands)
    } else if exists|i: int| 0 <= i < lens.len() && lens[i] == 0 {
        Some(PipelineProblem::EmptyCommand)
    } else {
        None
    }
}

/// Checks that a pipeline has stages and that none of them is empty.
pub fn pipeline_problem(commands: &Vec<Vec<String>>) -> (r: Option<PipelineProblem>)
    ensures
        r == pipeline_problem_spec(commands@.map_values(|c: Vec<String>| c@.len())),
{
    let ghost lens = commands@.map_values(|c: Vec<String>| c@.len());
    if commands.len() == 0 {
        return Some(PipelineProblem::NoCommands);
    }
    let mut i: usize = 0;
    while i < commands.len()
        invariant
            lens == commands@.map_values(|c: Vec<String>| c@.len()),
            i <= commands@.len(),
            forall|k: int| 0 <= k < i ==> lens[k] != 0,
        decreases commands@.len() - i,
    {
        if commands[i].len() == 0 {
            assert(lens[i as int] == 0);
            return Some(PipelineProblem::EmptyCommand);
        }
        i += 1;
    }
    None
}

/// The action for a stage, given what the previous stage left, whether this stage is the
/// last, whether its command is a builtin, and whether its program was found.
pub open spec fn stage_action_spec(prev: Previous, is_last: bool, is_builtin: bool, found: bool) -> StageAction {
    if is_builtin {
        StageAction::Builtin { wait_previous: prev is Process, capture: !is_last }
    } else if !found {
        StageAction::NotFound { kill_previous: prev is Process }
    } else {
        StageAction::Spawn {
            stdin: match prev {
                Previous::Nothing => StdinSource::Inherit,
                Previous::Captured => StdinSource::Captured,
                Previous::Process => StdinSource::PreviousProcess,
            },
            pipe_stdout: !is_last,
        }
    }
}

/// What the stage leaves for the next one once it has run.
pub open spec fn previous_after_spec(prev: Previous, is_last: bool, is_builtin: bool) -> Previous {
    if is_last {
        Previous::Nothing
    } else if is_builtin {
        Previous::Captured
    } else {
        Previous::Process
    }
}

/// Decides the action for one stage (see `stage_action_spec`).
pub fn plan_stage(prev: &Previous, is_last: bool, is_builtin: bool, found: bool) -> (a: StageAction)
    ensures
        a == stage_action_spec(*prev, is_last, is_builtin, found),
{
    let is_process = match prev {
        Previous::Process => true,
        _ => false,
    };
    if is_builtin {
        return StageAction::Builtin { wait_previous: is_process, capture: !is_last };
    }
    if !found {
        return StageAction::NotFound { kill_previous: is_process };
    }
    let stdin = match prev {
        Previous::Nothing => StdinSource::Inherit,
        Previous::Captured => StdinSource::Captured,
        Previous::Process => StdinSource::PreviousProcess,
    };
    StageAction::Spawn { stdin, pipe_stdout: !is_last }
}

/// What a stage that ran leaves for the next one (see `previous_after_spec`).
pub fn previous_after(prev: &Previous, is_last: bool, is_builtin: bool) -> (p: Previous)
    ensures
        p == previous_after_spec(*prev, is_last, is_builtin),
{
    if is_last {
        Previous::Nothing
    } else if is_builtin {
        Previous::Captured
    } else {
        Previous::Process
    }
}

} // verus!

verus! {

/// Only the last stage of a pipeline writes to the terminal: every other stage either
/// captures a builtin's output or pipes a program's standard output (or stops the pipeline).
pub proof fn law_only_last_stage_reaches_terminal(prev: Previous, is_builtin: bool, found: bool)
    ensures
        match stage_action_spec(prev, false, is_builtin, found) {
            StageAction::Builtin { capture, .. } => capture,
            StageAction::Spawn { pipe_stdout, .. } => pipe_stdout,
            StageAction::NotFound { .. } => true,
        },
        match stage_action_spec(prev, true, is_builtin, found) {
            StageAction::Builtin { capture, .. } => !capture,
            StageAction::Spawn { pipe_stdout, .. } => !pipe_stdout,
            StageAction::NotFound { .. } => true,
        },
{
}

} // verus!

verus! {

/// A program that is found reads what the stage before it left, whether or not it is the
/// last stage: the pipe of a running previous process, the captured output of a previous
/// builtin, and the shell's own input only when nothing was left.
pub proof fn law_found_program_reads_previous_output(prev: Previous, is_last: bool)
    ensures
        stage_action_spec(prev, is_last, false, true) matches StageAction::Spawn { stdin, pipe_stdout }
            && pipe_stdout == !is_last && ((stdin is PreviousProcess) <==> (prev is Process)) && ((
        stdin is Captured) <==> (prev is Captured)) && ((stdin is Inherit) <==> (prev is Nothing)),
{
}

/// Two consecutive stages are connected: after a program that is not the last stage, the
/// next stage, if it is a program that is found, reads that program's output; after a
/// builtin that is not the last stage, it reads the builtin's captured output.
pub proof fn law_consecutive_stages_connect(prev: Previous, first_is_builtin: bool, is_last: bool)
    ensures
        stage_action_spec(previous_after_spec(prev, false, first_is_builtin), is_last, false, true)
            == (StageAction::Spawn {
            stdin: if first_is_builtin {
                StdinSource::Captured
            } else {
                StdinSource::PreviousProcess
            },
            pipe_stdout: !is_last,
        }),
{
}

} // verus!
