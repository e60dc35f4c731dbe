use rust_shell::completer::{
    choose_command_completion, choose_path_completion, complete_path, completion_target, path_dir_to_read,
    path_dirs, BuiltinCompleter, Candidate, CompletionTarget, PathCache,
};
use rust_shell::context::get_completion_context;
use rust_shell::trie::Trie;

fn strings(xs: &[&str]) -> Vec<String> {
    xs.iter().map(|s| s.to_string()).collect()
}

fn pairs(v: &[Candidate]) -> Vec<(String, String)> {
    v.iter().map(|c| (c.display.clone(), c.replacement.clone())).collect()
}

#[test]
fn trie_lists_words_with_prefix() {
    let mut t = Trie::new();
    for w in ["echo", "exit", "exec", "env", "cat", "echo"] {
        t.insert(w);
    }
    let mut e = t.get_words_with_prefix("e");
    e.sort();
    assert_eq!(e, strings(&["echo", "env", "exec", "exit"]));
    let mut ex = t.get_words_with_prefix("ex");
    ex.sort();
    assert_eq!(ex, strings(&["exec", "exit"]));
    assert_eq!(t.get_words_with_prefix("echo"), strings(&["echo"]));
    assert!(t.get_words_with_prefix("z").is_empty());
    assert!(t.get_words_with_prefix("echoes").is_empty());
    let mut all = t.get_words_with_prefix("");
    all.sort();
    assert_eq!(all, strings(&["cat", "echo", "env", "exec", "exit"]));
}

#[test]
fn trie_empty_word() {
    let mut t = Trie::new();
    assert!(t.get_words_with_prefix("").is_empty());
    t.insert("");
    assert_eq!(t.get_words_with_prefix(""), strings(&[""]));
}

#[test]
fn trie_empty_prefix_lists_every_word() {
    let mut t = Trie::new();
    for w in ["ls", "cd", "l"] {
        t.insert(w);
    }
    let mut all = t.get_words_with_prefix("");
    all.sort();
    assert_eq!(all, strings(&["cd", "l", "ls"]));
}

#[test]
fn trie_insert_lists_new_word_keeps_others() {
    let mut t = Trie::new();
    t.insert("grep");
    t.insert("git");
    let mut before = t.get_words_with_prefix("g");
    before.sort();
    assert_eq!(before, strings(&["git", "grep"]));
    t.insert("gzip");
    for p in ["", "g", "gz", "gzip"] {
        assert!(t.get_words_with_prefix(p).contains(&"gzip".to_string()));
    }
    let mut after = t.get_words_with_prefix("g");
    after.sort();
    assert_eq!(after, strings(&["git", "grep", "gzip"]));
    assert_eq!(t.get_words_with_prefix("gr"), strings(&["grep"]));
}

#[test]
fn context_ignores_text_after_cursor() {
    assert_eq!(get_completion_context("echo hello", 4), get_completion_context("echo", 4));
    assert_eq!(get_completion_context("echo hello", 4), (0, vec![], "echo".to_string(), true));
    let line = "cat a\u{e9} b";
    assert_eq!(get_completion_context(line, 7), get_completion_context(&line[..7], 7));
}

#[test]
fn context_of_partial_command() {
    let (start, words, current, cmd) = get_completion_context("ec", 2);
    assert_eq!((start, words.len(), current.as_str(), cmd), (0, 0, "ec", true));
}

#[test]
fn context_after_words() {
    let line = "cd  'my dir'/sub";
    let (start, words, current, cmd) = get_completion_context(line, line.len());
    assert_eq!(start, 4);
    assert_eq!(words, strings(&["cd"]));
    assert_eq!(current, "'my dir'/sub");
    assert!(!cmd);
}

#[test]
fn context_stops_at_cursor_and_counts_bytes() {
    let line = "é echo tail";
    // cursor after "é echo": 'é' takes two bytes
    let (start, words, current, _) = get_completion_context(line, 7);
    assert_eq!(start, 3);
    assert_eq!(words, strings(&["é"]));
    assert_eq!(current, "echo");
}

#[test]
fn context_escaped_blank_stays_in_word() {
    let (start, words, current, cmd) = get_completion_context("ls a\\ b", 7);
    assert_eq!((start, words, current.as_str(), cmd), (3, strings(&["ls"]), "a b", false));
}

#[test]
fn target_command_or_path() {
    match completion_target("ec", 2) {
        CompletionTarget::Command { word_start, fragment } => assert_eq!((word_start, fragment.as_str()), (0, "ec")),
        _ => panic!("expected a command"),
    }
    match completion_target("./sc", 4) {
        CompletionTarget::Path { word_start, fragment, only_dirs } => {
            assert_eq!((word_start, fragment.as_str(), only_dirs), (0, "./sc", false))
        }
        _ => panic!("expected a path"),
    }
    match completion_target("cd sr", 5) {
        CompletionTarget::Path { word_start, fragment, only_dirs } => {
            assert_eq!((word_start, fragment.as_str(), only_dirs), (3, "sr", true))
        }
        _ => panic!("expected a path"),
    }
    match completion_target("cat sr", 6) {
        CompletionTarget::Path { only_dirs, .. } => assert!(!only_dirs),
        _ => panic!("expected a path"),
    }
}

#[test]
fn command_choice_single_match_gets_space() {
    let r = choose_command_completion("ec", &strings(&["echo"]));
    assert_eq!(pairs(&r), vec![("echo".to_string(), "echo ".to_string())]);
}

#[test]
fn command_choice_common_prefix() {
    let r = choose_command_completion("h", &strings(&["histogram", "history"]));
    assert_eq!(pairs(&r), vec![("histo".to_string(), "histo".to_string())]);
}

#[test]
fn command_choice_lists_all_when_nothing_to_add() {
    let r = choose_command_completion("e", &strings(&["echo", "exit"]));
    assert_eq!(
        pairs(&r),
        vec![("echo".to_string(), "echo".to_string()), ("exit".to_string(), "exit".to_string())]
    );
    assert!(choose_command_completion("q", &Vec::new()).is_empty());
}

#[test]
fn path_dir_expansion() {
    assert_eq!(path_dir_to_read("sr", "/home/u"), "./");
    assert_eq!(path_dir_to_read("src/ma", "/home/u"), "src/");
    assert_eq!(path_dir_to_read("~/doc", "/home/u"), "/home/u/");
    assert_eq!(path_dir_to_read("/usr/b", "/home/u"), "/usr/");
}

#[test]
fn path_candidates_filter_and_sort() {
    let entries = vec![
        ("main.rs".to_string(), false),
        (".hidden".to_string(), false),
        ("mod".to_string(), true),
        ("lib.rs".to_string(), false),
        ("mail".to_string(), false),
    ];
    let r = complete_path("src/ma", false, &entries);
    assert_eq!(
        pairs(&r),
        vec![
            ("mail".to_string(), "src/mail".to_string()),
            ("main.rs".to_string(), "src/main.rs".to_string()),
        ]
    );
    let all = complete_path("", false, &entries);
    let reps: Vec<String> = all.iter().map(|c| c.replacement.clone()).collect();
    assert_eq!(reps, strings(&["lib.rs", "mail", "main.rs", "mod/", ".hidden"]));
    let dirs = complete_path("", true, &entries);
    assert_eq!(pairs(&dirs), vec![("mod/".to_string(), "mod/".to_string())]);
}

#[test]
fn path_choice_single_file_and_dir() {
    let file = vec![Candidate { display: "main.rs".into(), replacement: "src/main.rs".into() }];
    assert_eq!(pairs(&choose_path_completion("src/m", &file)), vec![("main.rs".to_string(), "src/main.rs ".to_string())]);
    let dir = vec![Candidate { display: "mod/".into(), replacement: "src/mod/".into() }];
    assert_eq!(pairs(&choose_path_completion("src/m", &dir)), vec![("mod/".to_string(), "src/mod/".to_string())]);
}

#[test]
fn path_choice_common_prefix_or_all() {
    let two = vec![
        Candidate { display: "main.rs".into(), replacement: "src/main.rs".into() },
        Candidate { display: "mail".into(), replacement: "src/mail".into() },
    ];
    assert_eq!(pairs(&choose_path_completion("src/m", &two)), vec![("src/mai".to_string(), "src/mai".to_string())]);
    assert_eq!(pairs(&choose_path_completion("src/mai", &two)).len(), 2);
}

#[test]
fn split_search_path() {
    assert_eq!(path_dirs("/bin:/usr/bin"), strings(&["/bin", "/usr/bin"]));
    assert_eq!(path_dirs(""), strings(&[""]));
    assert_eq!(path_dirs("a::b:"), strings(&["a", "", "b", ""]));
}

#[test]
fn path_cache_refresh_rules() {
    let mut cache = PathCache::new();
    assert!(cache.needs_refresh("", 0));
    let entries = vec![("ls".to_string(), 0o755, true), ("notes".to_string(), 0o644, true), ("bin".to_string(), 0o755, false)];
    cache.get_executables(&["echo"], "/bin", 1_000, &entries);
    assert!(!cache.needs_refresh("/bin", 1_000));
    assert!(!cache.needs_refresh("/bin", 1_000 + 30_000_000_000));
    assert!(cache.needs_refresh("/bin", 1_000 + 30_000_000_001));
    assert!(cache.needs_refresh("/usr/bin", 1_000));
    assert_eq!(cache.sorted_names_with_prefix(""), strings(&["echo", "ls"]));
    // a fresh cache is not rebuilt
    cache.get_executables(&["cat"], "/bin", 2_000, &Vec::new());
    assert_eq!(cache.sorted_names_with_prefix(""), strings(&["echo", "ls"]));
}

#[test]
fn completer_matches_builtins_and_executables() {
    let mut c = BuiltinCompleter::new();
    assert!(c.needs_refresh("/bin", 5));
    let entries = vec![("cargo".to_string(), 0o755, true), ("cal".to_string(), 0o700, true)];
    let m = c.command_matches("ca", "/bin", 5, &entries);
    assert_eq!(m, strings(&["cal", "cargo", "cat"]));
    let offered = choose_command_completion("ca", &m);
    assert_eq!(pairs(&offered).len(), 3);
    let e = c.command_matches("e", "/bin", 6, &Vec::new());
    assert_eq!(e, strings(&["echo", "exit"]));
}
