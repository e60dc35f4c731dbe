use rust_shell::builtin::{
    cat_clean_paths, cat_output, cd_error, cd_path, echo_output, history_output, run_builtin, type_lookup, type_message,
    BuiltinAction,
};
use rust_shell::jobs::{clean_command, JobManager, JobStatus};
use rust_shell::pipeline::{plan_stage, previous_after, pipeline_problem, PipelineProblem, Previous, StageAction, StdinSource};
use rust_shell::shell::{entries_to_append, interpret_line, take_redirection, AppendMarks, LineCommand, OutTarget};

fn strings(xs: &[&str]) -> Vec<String> {
    xs.iter().map(|s| s.to_string()).collect()
}

fn written(a: BuiltinAction) -> (String, String) {
    match a {
        BuiltinAction::Write { out, err } => (out, err),
        _ => panic!("expected output"),
    }
}

#[test]
fn builtin_echo() {
    assert_eq!(written(run_builtin("echo", &["hello", "big", "world"], None, "/h")).0, "hello big world\n");
    assert_eq!(written(run_builtin("echo", &[], None, "/h")).0, "\n");
    assert_eq!(echo_output(&["a  b", "c"]), "a  b c\n");
}

#[test]
fn builtin_type_of_builtins() {
    assert_eq!(written(run_builtin("type", &["echo"], None, "/h")).0, "echo is a shell builtin\n");
    assert_eq!(written(run_builtin("type", &["history"], None, "/h")).0, "history is a shell builtin\n");
}

#[test]
fn type_messages() {
    assert_eq!(type_message("ls", Some("/bin/ls".to_string())), "ls is /bin/ls\n");
    assert_eq!(type_message("nosuch", None), "nosuch: not found\n");
    assert_eq!(type_message("cd", Some("/x/cd".to_string())), "cd is a shell builtin\n");
    // `cat` is not among the names `type` calls builtins
    assert_eq!(type_message("cat", None), "cat: not found\n");
}

fn looked_up(a: BuiltinAction) -> String {
    match a {
        BuiltinAction::TypeLookup { name } => name,
        _ => panic!("expected a lookup"),
    }
}

#[test]
fn builtin_type_of_missing_program() {
    let name = looked_up(run_builtin("type", &["surely_no_such_program_xyz", "more"], None, "/h"));
    assert_eq!(name, "surely_no_such_program_xyz");
    assert_eq!(type_lookup(&name), "surely_no_such_program_xyz: not found\n");
}

#[test]
fn builtin_type_without_argument() {
    assert_eq!(looked_up(run_builtin("type", &[], None, "/h")), "");
}

#[test]
fn type_lookup_of_builtin_skips_search() {
    assert_eq!(type_lookup("pwd"), "pwd is a shell builtin\n");
}

#[test]
fn builtin_exit_pwd_unknown() {
    assert!(matches!(run_builtin("exit", &["3"], None, "/h"), BuiltinAction::Exit));
    assert!(matches!(run_builtin("pwd", &[], None, "/h"), BuiltinAction::PrintWorkingDir));
    assert!(matches!(run_builtin("ls", &["-l"], None, "/h"), BuiltinAction::NotBuiltin));
}

#[test]
fn builtin_cd_targets() {
    match run_builtin("cd", &["~/src"], None, "/home/u") {
        BuiltinAction::ChangeDir { path } => assert_eq!(path, "/home/u/src"),
        _ => panic!("expected cd"),
    }
    assert_eq!(cd_path("", "/home/u"), "/home/u");
    assert_eq!(cd_path("/tmp", "/home/u"), "/tmp");
    assert_eq!(cd_path("~", "/home/u"), "/home/u");
    assert_eq!(cd_error("/nope"), "cd: /nope: No such file or directory\n");
}

#[test]
fn builtin_cat() {
    match run_builtin("cat", &["a.txt\n", "b\r\n"], None, "/h") {
        BuiltinAction::Cat { paths } => assert_eq!(paths, strings(&["a.txt", "b"])),
        _ => panic!("expected cat"),
    }
    assert_eq!(cat_clean_paths(&["x\n\r\n"]), strings(&["x"]));
    let (out, err) = cat_output(&strings(&["one", "missing", "two"]), &vec![Some("1\n".to_string()), None, Some("2".to_string())]);
    assert_eq!(out, "1\n2");
    assert_eq!(err, "cat: missing: No such file or directory\n");
}

#[test]
fn builtin_history() {
    let h = strings(&["ls", "pwd", "echo hi"]);
    assert_eq!(written(run_builtin("history", &[], Some(&h), "/h")).0, "  1  ls\n  2  pwd\n  3  echo hi\n");
    assert_eq!(written(run_builtin("history", &["2"], Some(&h), "/h")).0, "  2  pwd\n  3  echo hi\n");
    assert_eq!(history_output(&h, Some("9")), "  1  ls\n  2  pwd\n  3  echo hi\n");
    assert_eq!(history_output(&h, Some("x")), "  1  ls\n  2  pwd\n  3  echo hi\n");
    assert_eq!(history_output(&h, Some("0")), "");
    assert_eq!(written(run_builtin("history", &[], None, "/h")).0, "");
}

#[test]
fn job_command_cleanup() {
    assert_eq!(clean_command("  sleep 5 & "), "sleep 5");
    assert_eq!(clean_command("sleep 5"), "sleep 5");
    assert_eq!(clean_command("\u{3000}x&&"), "x&");
}

#[test]
fn job_ids_reused() {
    let mut m: JobManager<u32> = JobManager::new();
    assert_eq!(m.add_job(10, "sleep 1 &".into()), 1);
    assert_eq!(m.add_job(11, "sleep 2 &".into()), 2);
    assert_eq!(m.add_job(12, "sleep 3 &".into()), 3);
    // job 2 finishes
    let lines = m.reap_and_notify(&vec![false, true, false]);
    assert_eq!(lines, vec![format!("[2]-  {:<24}{}", "Done", "sleep 2")]);
    assert_eq!(m.jobs.len(), 2);
    assert_eq!(m.get_next_id(), 2);
    assert_eq!(m.add_job(13, "vim".into()), 2);
}

#[test]
fn job_listing() {
    let mut m: JobManager<u32> = JobManager::new();
    m.add_job(1, "sleep 10 &".into());
    m.add_job(2, "make &".into());
    let lines = m.list_jobs(&vec![false, true]);
    assert_eq!(
        lines,
        vec![
            format!("[1]-  {:<24}{}", "Running", "sleep 10 &"),
            format!("[2]+  {:<24}{}", "Done", "make"),
        ]
    );
    assert_eq!(m.jobs.len(), 1);
    assert_eq!(m.jobs[0].status, JobStatus::Running);
    assert!(m.reap_and_notify(&vec![false]).is_empty());
}

#[test]
fn interpret_exit_and_history() {
    assert!(matches!(interpret_line(Vec::new()), LineCommand::Empty));
    assert!(matches!(interpret_line(strings(&["exit"])), LineCommand::Exit));
    assert!(!matches!(interpret_line(strings(&["exit", "1"])), LineCommand::Exit));
    match interpret_line(strings(&["history", "-a", "f.txt"])) {
        LineCommand::HistoryAppend(p) => assert_eq!(p, "f.txt"),
        _ => panic!("expected history -a"),
    }
    assert!(matches!(interpret_line(strings(&["history", "-r", "f"])), LineCommand::HistoryRead(_)));
    assert!(matches!(interpret_line(strings(&["history", "-w", "f"])), LineCommand::HistoryWrite(_)));
    assert!(matches!(interpret_line(strings(&["history", "-x", "f"])), LineCommand::Simple { .. }));
}

#[test]
fn interpret_pipelines() {
    match interpret_line(strings(&["cat", "f", "|", "wc", "-l"])) {
        LineCommand::Pipeline { errors, commands } => {
            assert_eq!(errors, 0);
            assert_eq!(commands, vec![strings(&["cat", "f"]), strings(&["wc", "-l"])]);
        }
        _ => panic!("expected a pipeline"),
    }
    match interpret_line(strings(&["|", "ls", "|", "|", "wc"])) {
        LineCommand::Pipeline { errors, commands } => {
            assert_eq!(errors, 2);
            assert_eq!(commands, vec![strings(&["ls"]), strings(&["wc"])]);
        }
        _ => panic!("expected a pipeline"),
    }
    assert!(matches!(interpret_line(strings(&["ls", "|"])), LineCommand::InvalidPipeline { errors: 0 }));
}

#[test]
fn interpret_redirections() {
    match interpret_line(strings(&["echo", "hi", ">", "out.txt", "2>>", "err.log"])) {
        LineCommand::Simple { words, redirections } => {
            assert_eq!(words, strings(&["echo", "hi"]));
            assert!(matches!(redirections.stdout_target(), OutTarget::Create(ref p) if p == "out.txt"));
            assert!(matches!(redirections.stderr_target(), OutTarget::Append(ref p) if p == "err.log"));
        }
        _ => panic!("expected a command"),
    }
    match interpret_line(strings(&["ls", "1>>", "a", "2>", "b"])) {
        LineCommand::Simple { words, redirections } => {
            assert_eq!(words, strings(&["ls"]));
            assert!(matches!(redirections.stdout_target(), OutTarget::Append(ref p) if p == "a"));
            assert!(matches!(redirections.stderr_target(), OutTarget::Create(ref p) if p == "b"));
        }
        _ => panic!("expected a command"),
    }
    // an operator without operand stays a word
    match interpret_line(strings(&["echo", ">"])) {
        LineCommand::Simple { words, redirections } => {
            assert_eq!(words, strings(&["echo", ">"]));
            assert!(matches!(redirections.stdout_target(), OutTarget::Inherit));
        }
        _ => panic!("expected a command"),
    }
    assert!(matches!(interpret_line(strings(&[">", "f"])), LineCommand::Empty));
    let (rest, taken) = take_redirection(strings(&["a", "1>", "x", ">", "y"]), ">", "1>");
    assert_eq!((rest, taken), (strings(&["a", ">", "y"]), Some("x".to_string())));
}

#[test]
fn history_append_marks() {
    let mut marks = AppendMarks::new();
    assert_eq!(marks.get("f"), 0);
    let h1 = strings(&["ls", "pwd"]);
    assert_eq!(entries_to_append(&h1, marks.get("f")), h1);
    marks.set("f".to_string(), h1.len());
    assert_eq!(marks.get("f"), 2);
    assert_eq!(marks.get("g"), 0);
    let h2 = strings(&["ls", "pwd", "echo"]);
    assert_eq!(entries_to_append(&h2, marks.get("f")), strings(&["echo"]));
    marks.set("f".to_string(), 3);
    assert_eq!(marks.get("f"), 3);
    assert!(entries_to_append(&h2, 7).is_empty());
}

#[test]
fn pipeline_checks_and_plans() {
    assert!(matches!(pipeline_problem(&Vec::new()), Some(PipelineProblem::NoCommands)));
    assert!(matches!(pipeline_problem(&vec![strings(&["ls"]), Vec::new()]), Some(PipelineProblem::EmptyCommand)));
    assert!(pipeline_problem(&vec![strings(&["ls"]), strings(&["wc"])]).is_none());
    assert!(matches!(plan_stage(&Previous::Nothing, false, true, false), StageAction::Builtin { wait_previous: false, capture: true }));
    assert!(matches!(plan_stage(&Previous::Process, true, true, true), StageAction::Builtin { wait_previous: true, capture: false }));
    assert!(matches!(
        plan_stage(&Previous::Captured, false, false, true),
        StageAction::Spawn { stdin: StdinSource::Captured, pipe_stdout: true }
    ));
    assert!(matches!(plan_stage(&Previous::Process, false, false, false), StageAction::NotFound { kill_previous: true }));
    assert!(matches!(previous_after(&Previous::Nothing, false, false), Previous::Process));
    assert!(matches!(previous_after(&Previous::Nothing, false, true), Previous::Captured));
}

#[test]
fn builtin_type_searches_path() {
    assert_eq!(looked_up(run_builtin("type", &["sh"], None, "/h")), "sh");
    let out = type_lookup("sh");
    assert!(out == "sh: not found\n" || (out.starts_with("sh is ") && out.ends_with("/sh\n")), "{}", out);
}

#[test]
fn pipeline_stages_rejoin() {
    let words = strings(&["cat", "f", "|", "grep", "x", "|", "wc"]);
    match interpret_line(words.clone()) {
        LineCommand::Pipeline { errors: 0, commands } => {
            let joined: Vec<String> = commands.join(&"|".to_string());
            assert_eq!(joined, words);
        }
        _ => panic!("expected a pipeline"),
    }
}
