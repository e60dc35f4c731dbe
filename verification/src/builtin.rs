use vstd::prelude::*;
use crate::number::{decimal, parse_usize, parse_usize_spec, push_decimal};
use crate::parser::trim_line_end;
use crate::text::{chars_of, push_char, str_eq, string_from_chars, starts_with_char};

verus! {

/// What a builtin command does, once decided; the caller performs it.
pub enum BuiltinAction {
    /// The command is not a builtin.
    NotBuiltin,
    /// Leave the shell with status 0.
    Exit,
    /// Write `out` to standard output and `err` to standard error.
    Write { out: String, err: String },
    /// Print the working directory, followed by a line feed.
    PrintWorkingDir,
    /// Change the working directory to `path`; on failure write `cd_error_text(path)`
    /// to standard error.
    ChangeDir { path: String },
    /// Read the files `paths`, then write what `cat_output` makes of them.
    Cat { paths: Vec<String> },
    /// Write what `type_lookup` reports for `name`, a name that is not a builtin.
    TypeLookup { name: String },
}

/// The views of a list of arguments.
pub open spec fn arg_views(args: Seq<&str>) -> Seq<Seq<char>> {
    args.map_values(|a: &str| a@)
}

/// The words joined with single spaces.
pub open spec fn join_spaced(words: Seq<Seq<char>>) -> Seq<char>
    decreases words.len(),
{
    if words.len() == 0 {
        Seq::empty()
    } else if words.len() == 1 {
        words[0]
    } else {
        join_spaced(words.drop_last()).push(' ') + words.last()
    }
}

/// What `echo` writes: its arguments joined with spaces, and a line feed.
pub open spec fn echo_text(args: Seq<Seq<char>>) -> Seq<char> {
    join_spaced(args).push('\n')
}

/// The first argument, or the empty word when there is none.
pub open spec fn first_arg(args: Seq<Seq<char>>) -> Seq<char> {
    if args.len() > 0 {
        args[0]
    } else {
        Seq::empty()
    }
}

/// The names `type` reports as shell builtins.
pub open spec fn is_type_builtin(name: Seq<char>) -> bool {
    name == "echo"@ || name == "type"@ || name == "exit"@ || name == "pwd"@ || name == "cd"@
        || name == "history"@
}

/// What `type` writes for `name`, given what the search of the executable path found.
pub open spec fn type_text(name: Seq<char>, found: Option<Seq<char>>) -> Seq<char> {
    if is_type_builtin(name) {
        name + " is a shell builtin"@ + seq!['\n']
    } else {
        match found {
            Some(path) => name + " is "@ + path + seq!['\n'],
            None => name + ": not found"@ + seq!['\n'],
        }
    }
}

/// The directory `cd` changes to: `home` for no argument (or an empty one), `home` in place
/// of a leading '~', or else the argument itself.
pub open spec fn cd_target(arg: Seq<char>, home: Seq<char>) -> Seq<char> {
    if arg.len() == 0 {
        home
    } else if starts_with_char(arg, '~') {
        home + arg.drop_first()
    } else {
        arg
    }
}

/// What `cd` writes to standard error when it cannot change to `path`.
pub open spec fn cd_error_text(path: Seq<char>) -> Seq<char> {
    "cd: "@ + path + ": No such file or directory"@ + seq!['\n']
}

/// The first history entry `history` lists: the last `n` entries when the argument is a
/// number `n` smaller than the history, otherwise all of them.
pub open spec fn history_start(len: nat, arg: Option<Seq<char>>) -> nat {
    match arg {
        Some(a) => match parse_usize_spec(a) {
            Some(n) => if n < len {
                (len - n) as nat
            } else {
                0
            },
            None => 0,
        },
        None => 0,
    }
}

/// The history listing from entry `from` on: each entry as two spaces, its number counted
/// from 1, two spaces, the entry, and a line feed.
pub open spec fn history_lines(hist: Seq<Seq<char>>, from: int) -> Seq<char>
    decreases hist.len() - from,
{
    if from < 0 || from >= hist.len() {
        Seq::empty()
    } else {
        "  "@ + decimal((from + 1) as nat) + "  "@ + hist[from] + seq!['\n'] + history_lines(
            hist,
            from + 1,
        )
    }
}

/// What `history` writes: nothing without a history, otherwise the listing from
/// `history_start` on.
pub open spec fn history_text(hist: Option<Seq<Seq<char>>>, args: Seq<Seq<char>>) -> Seq<char> {
    match hist {
        None => Seq::empty(),
        Some(h) => history_lines(
            h,
            history_start(h.len(), if args.len() > 0 { Some(args[0]) } else { None }) as int,
        ),
    }
}

/// The paths `cat` reads: its arguments without trailing line ends.
pub open spec fn cat_paths(args: Seq<Seq<char>>) -> Seq<Seq<char>> {
    args.map_values(|a: Seq<char>| trim_line_end(a))
}

/// What `cat` writes for the files `paths[from..]`, given their contents (`None` for a file
/// that could not be read): the contents in order on standard output, and a line per
/// unreadable file on standard error.
pub open spec fn cat_text(paths: Seq<Seq<char>>, contents: Seq<Option<Seq<char>>>, upto: int) -> (Seq<char>, Seq<char>)
    decreases upto,
{
    if upto <= 0 || upto > paths.len() || upto > contents.len() {
        (Seq::empty(), Seq::empty())
    } else {
        let (out, err) = cat_text(paths, contents, upto - 1);
        match contents[upto - 1] {
            Some(c) => (out + c, err),
            None => (out, err + "cat: "@ + paths[upto - 1] + ": No such file or directory"@ + seq!['\n']),
        }
    }
}

/// The views of a history given as strings.
pub open spec fn history_views(h: Option<&[String]>) -> Option<Seq<Seq<char>>> {
    match h {
        Some(v) => Some(v@.map_values(|s: String| s@)),
        None => None,
    }
}

/// The action `run_builtin` decides on for `command` with `args`.
pub open spec fn builtin_action_ok(
    command: Seq<char>,
    args: Seq<Seq<char>>,
    history: Option<Seq<Seq<char>>>,
    home: Seq<char>,
    a: BuiltinAction,
) -> bool {
    if command == "exit"@ {
        a is Exit
    } else if command == "echo"@ {
        a matches BuiltinAction::Write { out, err } && out@ == echo_text(args) && err@.len() == 0
    } else if command == "type"@ {
        if is_type_builtin(first_arg(args)) {
            a matches BuiltinAction::Write { out, err } && out@ == type_text(first_arg(args), None)
                && err@.len() == 0
        } else {
            a matches BuiltinAction::TypeLookup { name } && name@ == first_arg(args)
        }
    } else if command == "pwd"@ {
        a is PrintWorkingDir
    } else if command == "cd"@ {
        a matches BuiltinAction::ChangeDir { path } && path@ == cd_target(first_arg(args), home)
    } else if command == "cat"@ {
        a matches BuiltinAction::Cat { paths } && paths@.len() == args.len() && forall|i: int|
            0 <= i < args.len() ==> (#[trigger] paths@[i])@ == cat_paths(args)[i]
    } else if command == "history"@ {
        a matches BuiltinAction::Write { out, err } && out@ == history_text(history, args)
            && err@.len() == 0
    } else {
        a is NotBuiltin
    }
}

/// `pathsearch::find_executable_in_path`: the first file on the `PATH` search path named
/// `command` that the process may execute, shown as a string.
/// Trusted: pathsearch builds each candidate as `entry.join(command)`, so a path it returns
/// ends with `command` (`Path::join` appends it after a separator, or replaces the entry when
/// `command` is absolute), and `display` alters only invalid bytes, which all lie before it.
/// Whether a path comes back, and which directory it is in, depends on the environment and
/// the file system and is left unsaid.
#[verifier::external_body]
fn find_executable_in_path(command: &str) -> (found: Option<String>)
    ensures
        found matches Some(p) ==> command@.is_suffix_of(p@),
{
    match pathsearch::find_executable_in_path(command) {
        Some(path) => Some(path.display().to_string()),
        None => None,
    }
}

/// Whether `name` is one that `type` calls a shell builtin.
pub fn is_type_builtin_name(name: &str) -> (b: bool)
    ensures
        b == is_type_builtin(name@),
{
    str_eq(name, "echo") || str_eq(name, "type") || str_eq(name, "exit") || str_eq(name, "pwd")
        || str_eq(name, "cd") || str_eq(name, "history")
}

/// What `type` writes for `name`, given the result of the executable search.
pub fn type_message(name: &str, found: Option<String>) -> (s: String)
    ensures
        s@ == type_text(
            name@,
            match found {
                Some(p) => Some(p@),
                None => None,
            },
        ),
{
    let mut s = String::from_str(name);
    if is_type_builtin_name(name) {
        s.append(" is a shell builtin");
    } else {
        match &found {
            Some(path) => {
                s.append(" is ");
                s.append(path.as_str());
            },
            None => {
                s.append(": not found");
            },
        }
    }
    push_char(&mut s, '\n');
    s
}

/// What `type` writes for `name`: a builtin name is reported as a builtin; any other name is
/// searched for on the executable path, and `type_message` reports what the search found.
pub fn type_lookup(name: &str) -> (s: String)
    ensures
        is_type_builtin(name@) ==> s@ == type_text(name@, None),
        exists|found: Option<Seq<char>>|
            (found matches Some(p) ==> name@.is_suffix_of(p)) && s@ == type_text(name@, found),
{
    let found = if is_type_builtin_name(name) {
        None
    } else {
        find_executable_in_path(name)
    };
    let ghost fv: Option<Seq<char>> = match &found {
        Some(p) => Some(p@),
        None => None,
    };
    let s = type_message(name, found);
    assert((fv matches Some(p) ==> name@.is_suffix_of(p)) && s@ == type_text(name@, fv));
    s
}

/// The arguments joined with single spaces, and a line feed.
pub fn echo_output(args: &[&str]) -> (s: String)
    ensures
        s@ == echo_text(arg_views(args@)),
{
    let ghost v = arg_views(args@);
    let mut s = String::new();
    let mut i: usize = 0;
    while i < args.len()
        invariant
            v == arg_views(args@),
            i <= args@.len(),
            s@ == join_spaced(v.take(i as int)),
        decreases args@.len() - i,
    {
        if i > 0 {
            push_char(&mut s, ' ');
        }
        s.append(args[i]);
        proof {
            let t = v.take(i + 1);
            assert(t.drop_last() =~= v.take(i as int));
            assert(t.last() == args@[i as int]@);
            if i == 0 {
                assert(s@ =~= join_spaced(t));
            }
        }
        i += 1;
    }
    assert(v.take(args@.len() as int) =~= v);
    push_char(&mut s, '\n');
    s
}

/// The directory `cd` changes to (see `cd_target`).
pub fn cd_path(arg: &str, home: &str) -> (p: String)
    ensures
        p@ == cd_target(arg@, home@),
{
    let a = chars_of(arg);
    if a.len() == 0 {
        return String::from_str(home);
    }
    if a[0] == '~' {
        let mut p = String::from_str(home);
        let rest = string_from_chars(&a, 1, a.len());
        p.append(rest.as_str());
        assert(a@.drop_first() =~= a@.subrange(1, a@.len() as int));
        return p;
    }
    String::from_str(arg)
}

/// What `cd` writes to standard error when it cannot change to `path`.
pub fn cd_error(path: &str) -> (s: String)
    ensures
        s@ == cd_error_text(path@),
{
    let mut s = String::from_str("cd: ");
    s.append(path);
    s.append(": No such file or directory");
    push_char(&mut s, '\n');
    s
}

/// The history listing `history` writes (see `history_text`).
pub fn history_output(hist: &[String], arg: Option<&str>) -> (s: String)
    ensures
        s@ == history_lines(
            hist@.map_values(|e: String| e@),
            history_start(
                hist@.len(),
                match arg {
                    Some(a) => Some(a@),
                    None => None,
                },
            ) as int,
        ),
{
    let ghost h = hist@.map_values(|e: String| e@);
    let len = hist.len();
    let limit = match arg {
        Some(a) => parse_usize(a),
        None => None,
    };
    let start = match limit {
        Some(n) => if n < len {
            len - n
        } else {
            0
        },
        None => 0,
    };
    let mut s = String::new();
    let mut k: usize = start;
    while k < len
        invariant
            h == hist@.map_values(|e: String| e@),
            len == hist@.len(),
            start <= k <= len,
            s@ + history_lines(h, k as int) == history_lines(h, start as int),
        decreases len - k,
    {
        s.append("  ");
        push_decimal(&mut s, k + 1);
        s.append("  ");
        s.append(hist[k].as_str());
        push_char(&mut s, '\n');
        proof {
            assert(h[k as int] == hist@[k as int]@);
        }
        k += 1;
    }
    assert(s@ + history_lines(h, k as int) =~= s@);
    s
}

/// Strips trailing line ends from each argument of `cat`.
pub fn cat_clean_paths(args: &[&str]) -> (paths: Vec<String>)
    ensures
        paths@.len() == args@.len(),
        forall|i: int| 0 <= i < args@.len() ==> (#[trigger] paths@[i])@ == cat_paths(arg_views(args@))[i],
{
    let mut paths: Vec<String> = Vec::new();
    let mut i: usize = 0;
    while i < args.len()
        invariant
            i <= args@.len(),
            paths@.len() == i,
            forall|k: int| 0 <= k < i ==> (#[trigger] paths@[k])@ == cat_paths(arg_views(args@))[k],
        decreases args@.len() - i,
    {
        let c = chars_of(args[i]);
        let mut n = c.len();
        assert(c@.take(n as int) =~= c@);
        while n > 0 && (c[n - 1] == '\n' || c[n - 1] == '\r')
            invariant
                n <= c@.len(),
                trim_line_end(c@) == trim_line_end(c@.take(n as int)),
            decreases n,
        {
            assert(c@.take(n as int).drop_last() =~= c@.take(n - 1));
            n -= 1;
        }
        paths.push(string_from_chars(&c, 0, n));
        assert(c@.subrange(0, n as int) =~= c@.take(n as int));
        assert(arg_views(args@)[i as int] == args@[i as int]@);
        i += 1;
    }
    paths
}

/// What `cat` writes, given the contents read for each of `paths` (see `cat_text`).
pub fn cat_output(paths: &Vec<String>, contents: &Vec<Option<String>>) -> (r: (String, String))
    requires
        paths@.len() == contents@.len(),
    ensures
        (r.0@, r.1@) == cat_text(
            paths@.map_values(|p: String| p@),
            contents@.map_values(|c: Option<String>| match c {
                Some(t) => Some(t@),
                None => None,
            }),
            paths@.len() as int,
        ),
{
    let ghost ps = paths@.map_values(|p: String| p@);
    let ghost cs = contents@.map_values(|c: Option<String>| match c {
        Some(t) => Some(t@),
        None => None,
    });
    let mut out = String::new();
    let mut err = String::new();
    let mut i: usize = 0;
    while i < paths.len()
        invariant
            paths@.len() == contents@.len(),
            ps == paths@.map_values(|p: String| p@),
            cs == contents@.map_values(|c: Option<String>| match c {
                Some(t) => Some(t@),
                None => None,
            }),
            i <= paths@.len(),
            (out@, err@) == cat_text(ps, cs, i as int),
        decreases paths@.len() - i,
    {
        match &contents[i] {
            Some(text) => {
                out.append(text.as_str());
            },
            None => {
                err.append("cat: ");
                err.append(paths[i].as_str());
                err.append(": No such file or directory");
                push_char(&mut err, '\n');
            },
        }
        assert(ps[i as int] == paths@[i as int]@);
        i += 1;
    }
    (out, err)
}

/// Decides what the builtin `command` does with `args`: `history` is the session's command
/// history when there is one, `home` the home directory for `cd`. For `type` with a name
/// that is not a builtin, the action names what `type_lookup` is to search for.
pub fn run_builtin(command: &str, args: &[&str], history: Option<&[String]>, home: &str) -> (a: BuiltinAction)
    ensures
        builtin_action_ok(command@, arg_views(args@), history_views(history), home@, a),
{
    let ghost av = arg_views(args@);
    if str_eq(command, "exit") {
        return BuiltinAction::Exit;
    }
    if str_eq(command, "echo") {
        return BuiltinAction::Write { out: echo_output(args), err: String::new() };
    }
    if str_eq(command, "type") {
        let phrase: &str = if args.len() > 0 { args[0] } else { "" };
        assert(phrase@ == first_arg(av)) by {
            if args.len() == 0 {
                reveal_strlit("");
            }
        }
        if is_type_builtin_name(phrase) {
            return BuiltinAction::Write { out: type_message(phrase, None), err: String::new() };
        }
        return BuiltinAction::TypeLookup { name: String::from_str(phrase) };
    }
    if str_eq(command, "pwd") {
        return BuiltinAction::PrintWorkingDir;
    }
    if str_eq(command, "cd") {
        let arg: &str = if args.len() > 0 { args[0] } else { "" };
        assert(arg@ == first_arg(av)) by {
            if args.len() == 0 {
                reveal_strlit("");
            }
        }
        return BuiltinAction::ChangeDir { path: cd_path(arg, home) };
    }
    if str_eq(command, "cat") {
        return BuiltinAction::Cat { paths: cat_clean_paths(args) };
    }
    if str_eq(command, "history") {
        let out = match history {
            Some(hist) => {
                let arg: Option<&str> = if args.len() > 0 { Some(args[0]) } else { None };
                history_output(hist, arg)
            },
            None => String::new(),
        };
        return BuiltinAction::Write { out, err: String::new() };
    }

    BuiltinAction::NotBuiltin
}

} // verus!

verus! {

/// `type` reports a builtin name as a builtin whatever the executable search finds.
pub proof fn law_type_builtin_ignores_search(name: Seq<char>, found: Option<Seq<char>>)
    requires
        is_type_builtin(name),
    ensures
        type_text(name, found) == type_text(name, None),
{
}

/// `history <n>`, with `n` written in decimal, lists the last `n` entries when there are
/// more than `n`, and all of them otherwise.
pub proof fn law_history_lists_last_entries(len: nat, n: usize)
    ensures
        history_start(len, Some(crate::number::decimal(n as nat))) == (if (n as nat) < len {
            (len - n) as nat
        } else {
            0
        }),
{
    crate::number::law_decimal_roundtrip(n);
}

} // verus!

verus! {

/// `type` reports exactly `echo`, `type`, `exit`, `pwd`, `cd` and `history` as shell builtins,
/// whatever the search found; any other name is reported by what the search found.
pub proof fn law_type_builtin_names(name: Seq<char>, found: Option<Seq<char>>)
    ensures
        (name == "echo"@ || name == "type"@ || name == "exit"@ || name == "pwd"@ || name == "cd"@
            || name == "history"@) ==> type_text(name, found) == name + " is a shell builtin"@ + seq!['\n'],
        !(name == "echo"@ || name == "type"@ || name == "exit"@ || name == "pwd"@ || name == "cd"@
            || name == "history"@) ==> type_text(name, found) == match found {
            Some(path) => name + " is "@ + path + seq!['\n'],
            None => name + ": not found"@ + seq!['\n'],
        },
{
}

} // verus!
