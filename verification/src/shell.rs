use vstd::prelude::*;
use crate::text::str_eq;

verus! {

/// The views of a list of strings.
pub open spec fn views(v: Seq<String>) -> Seq<Seq<char>> {
    v.map_values(|s: String| s@)
}

/// Where an output stream goes.
pub enum OutTarget {
    /// The shell's own stream.
    Inherit,
    /// The file `path`, created or truncated.
    Create(String),
    /// The end of the file `path`, created if missing.
    Append(String),
}

/// The redirection operands found on a command line.
pub struct Redirections {
    /// After `>` or `1>`.
    pub stdout: Option<String>,
    /// After `>>` or `1>>`.
    pub stdout_append: Option<String>,
    /// After `2>`.
    pub stderr: Option<String>,
    /// After `2>>`.
    pub stderr_append: Option<String>,
}

/// What a command line asks the shell to do.
pub enum LineCommand {
    /// Nothing to run.
    Empty,
    /// `exit` alone: save the history and leave.
    Exit,
    /// `history -r <path>`: read history from `path`.
    HistoryRead(String),
    /// `history -w <path>`: write the history to `path`.
    HistoryWrite(String),
    /// `history -a <path>`: append the new history entries to `path`.
    HistoryAppend(String),
    /// A pipeline; `errors` empty stages before '|' were reported and skipped.
    Pipeline { errors: usize, commands: Vec<Vec<String>> },
    /// A pipeline whose last stage is empty: `errors` empty stages before '|' and the
    /// last one are reported, and nothing runs.
    InvalidPipeline { errors: usize },
    /// A single command with its words and redirections.
    Simple { words: Vec<String>, redirections: Redirections },
}

/// The index of the first word from `i` on that is `a` or `b`, or -1.
pub open spec fn first_match(ts: Seq<Seq<char>>, a: Seq<char>, b: Seq<char>, i: int) -> int
    decreases ts.len() - i,
{
    if i < 0 || i >= ts.len() {
        -1
    } else if ts[i] == a || ts[i] == b {
        i
    } else {
        first_match(ts, a, b, i + 1)
    }
}

/// Takes the first redirection written `a` or `b` out of `ts`: when it has an operand,
/// both words are removed and the operand is returned; otherwise nothing changes.
pub open spec fn take_redirect(ts: Seq<Seq<char>>, a: Seq<char>, b: Seq<char>) -> (Seq<Seq<char>>, Option<Seq<char>>) {
    let p = first_match(ts, a, b, 0);
    if p >= 0 && p + 1 < ts.len() {
        (ts.take(p) + ts.skip(p + 2), Some(ts[p + 1]))
    } else {
        (ts, None)
    }
}

/// The pipeline split of `ts[..n]`: the finished stages, the stage being collected, and how
/// many empty stages before a '|' were reported.
pub open spec fn split_pipeline(ts: Seq<Seq<char>>, n: int) -> (Seq<Seq<Seq<char>>>, Seq<Seq<char>>, nat)
    decreases n,
{
    if n <= 0 || n > ts.len() {
        (Seq::empty(), Seq::empty(), 0)
    } else {
        let (done, cur, errors) = split_pipeline(ts, n - 1);
        if ts[n - 1] == "|"@ {
            if cur.len() == 0 {
                (done, cur, errors + 1)
            } else {
                (done.push(cur), Seq::empty(), errors)
            }
        } else {
            (done, cur.push(ts[n - 1]), errors)
        }
    }
}

/// The words left and the operands taken by the four redirection passes, in order:
/// `>`/`1>`, `>>`/`1>>`, `2>`, `2>>`.
pub open spec fn redirect_passes(ts: Seq<Seq<char>>) -> (Seq<Seq<char>>, Option<Seq<char>>, Option<Seq<char>>, Option<Seq<char>>, Option<Seq<char>>) {
    let (t1, out) = take_redirect(ts, ">"@, "1>"@);
    let (t2, out_app) = take_redirect(t1, ">>"@, "1>>"@);
    let (t3, err) = take_redirect(t2, "2>"@, "2>"@);
    let (t4, err_app) = take_redirect(t3, "2>>"@, "2>>"@);
    (t4, out, out_app, err, err_app)
}

/// The view of an optional string.
pub open spec fn opt_view(o: Option<String>) -> Option<Seq<char>> {
    match o {
        Some(s) => Some(s@),
        None => None,
    }
}

/// `c` is what the command line `ts` asks for.
pub open spec fn interprets(ts: Seq<Seq<char>>, c: LineCommand) -> bool {
    if ts.len() == 0 {
        c is Empty
    } else if ts.len() == 1 && ts[0] == "exit"@ {
        c is Exit
    } else if ts.len() == 3 && ts[0] == "history"@ && ts[1] == "-r"@ {
        c matches LineCommand::HistoryRead(p) && p@ == ts[2]
    } else if ts.len() == 3 && ts[0] == "history"@ && ts[1] == "-w"@ {
        c matches LineCommand::HistoryWrite(p) && p@ == ts[2]
    } else if ts.len() == 3 && ts[0] == "history"@ && ts[1] == "-a"@ {
        c matches LineCommand::HistoryAppend(p) && p@ == ts[2]
    } else if ts.contains("|"@) {
        let (done, cur, errors) = split_pipeline(ts, ts.len() as int);
        if cur.len() == 0 {
            c matches LineCommand::InvalidPipeline { errors: e } && e == errors
        } else {
            c matches LineCommand::Pipeline { errors: e, commands } && e == errors
                && commands@.len() == done.len() + 1 && (forall|i: int|
                0 <= i < commands@.len() ==> views(#[trigger] commands@[i]@) == done.push(cur)[i])
        }
    } else {
        let (rest, out, out_app, err, err_app) = redirect_passes(ts);
        if rest.len() == 0 {
            c is Empty
        } else {
            c matches LineCommand::Simple { words, redirections } && views(words@) == rest
                && opt_view(redirections.stdout) == out && opt_view(redirections.stdout_append)
                == out_app && opt_view(redirections.stderr) == err && opt_view(
                redirections.stderr_append,
            ) == err_app
        }
    }
}

/// Takes the first redirection written `a` or `b` out of `words` (see `take_redirect`).
pub fn take_redirection(words: Vec<String>, a: &str, b: &str) -> (r: (Vec<String>, Option<String>))
    ensures
        (views(r.0@), opt_view(r.1)) == take_redirect(views(words@), a@, b@),
{
    let ghost ts = views(words@);
    let mut words = words;
    let n = words.len();
    let mut p: usize = 0;
    while p < n && !(str_eq(words[p].as_str(), a) || str_eq(words[p].as_str(), b))
        invariant
            n == words@.len(),
            ts == views(words@),
            p <= n,
            first_match(ts, a@, b@, 0) == first_match(ts, a@, b@, p as int),
        decreases n - p,
    {
        p += 1;
    }
    if p < n && p + 1 < n {
        let ghost before = words@;
        let path = words.remove(p + 1);
        words.remove(p);
        assert(views(words@) =~= ts.take(p as int) + ts.skip(p + 2)) by {
            assert(words@ =~= before.take(p as int) + before.skip(p + 2));
        }
        (words, Some(path))
    } else {
        (words, None)
    }
}

/// Splits the words of a pipeline at '|' (see `split_pipeline`): the stages, the stage
/// after the last '|', and the number of empty stages met before a '|'.
pub fn split_pipeline_words(words: &Vec<String>) -> (r: (Vec<Vec<String>>, Vec<String>, usize))
    ensures
        ({
            let (done, cur, errors) = split_pipeline(views(words@), words@.len() as int);
            &&& r.0@.len() == done.len()
            &&& forall|i: int| 0 <= i < done.len() ==> views(#[trigger] r.0@[i]@) == done[i]
            &&& views(r.1@) == cur
            &&& r.2 == errors
        }),
{
    let ghost ts = views(words@);
    let mut done: Vec<Vec<String>> = Vec::new();
    let mut cur: Vec<String> = Vec::new();
    let mut errors: usize = 0;
    let mut i: usize = 0;
    assert(views(cur@) =~= Seq::<Seq<char>>::empty());
    while i < words.len()
        invariant
            ts == views(words@),
            i <= words@.len(),
            errors <= i,
            ({
                let (d, c, e) = split_pipeline(ts, i as int);
                &&& done@.len() == d.len()
                &&& (forall|k: int| 0 <= k < d.len() ==> views(#[trigger] done@[k]@) == d[k])
                &&& views(cur@) == c
                &&& errors == e
            }),
        decreases words@.len() - i,
    {
        assert(ts[i as int] == words@[i as int]@);
        if str_eq(words[i].as_str(), "|") {
            if cur.len() == 0 {
                errors += 1;
            } else {
                let stage = cur;
                cur = Vec::new();
                done.push(stage);
                assert(views(cur@) =~= Seq::<Seq<char>>::empty());
            }
        } else {
            let ghost before = views(cur@);
            cur.push(words[i].clone());
            assert(views(cur@) =~= before.push(ts[i as int]));
        }
        i += 1;
    }
    (done, cur, errors)
}

/// Works out what the command line `words` asks the shell to do.
pub fn interpret_line(words: Vec<String>) -> (c: LineCommand)
    ensures
        interprets(views(words@), c),
{
    let ghost ts = views(words@);
    let n = words.len();
    if n == 0 {
        return LineCommand::Empty;
    }
    assert(ts[0] == words@[0]@);
    if n == 1 && str_eq(words[0].as_str(), "exit") {
        return LineCommand::Exit;
    }
    if n == 3 && str_eq(words[0].as_str(), "history") {
        assert(ts[1] == words@[1]@ && ts[2] == words@[2]@);
        if str_eq(words[1].as_str(), "-r") {
            return LineCommand::HistoryRead(words[2].clone());
        }
        if str_eq(words[1].as_str(), "-w") {
            return LineCommand::HistoryWrite(words[2].clone());
        }
        if str_eq(words[1].as_str(), "-a") {
            return LineCommand::HistoryAppend(words[2].clone());
        }
    }
    let mut has_pipe = false;
    let mut i: usize = 0;
    while i < n
        invariant
            n == words@.len(),
            ts == views(words@),
            i <= n,
            has_pipe == (exists|k: int| 0 <= k < i && ts[k] == "|"@),
        decreases n - i,
    {
        assert(ts[i as int] == words@[i as int]@);
        if str_eq(words[i].as_str(), "|") {
            has_pipe = true;
        }
        i += 1;
    }
    assert(has_pipe == ts.contains("|"@));
    if has_pipe {
        let (mut done, cur, errors) = split_pipeline_words(&words);
        if cur.len() == 0 {
            return LineCommand::InvalidPipeline { errors };
        }
        let ghost d = done@;
        done.push(cur);
        proof {
            let (sd, sc, se) = split_pipeline(ts, n as int);
            assert forall|k: int| 0 <= k < done@.len() implies views(#[trigger] done@[k]@) == sd.push(sc)[k] by {
                if k < d.len() {
                    assert(done@[k] == d[k]);
                }
            }
        }
        return LineCommand::Pipeline { errors, commands: done };
    }
    let (t1, stdout) = take_redirection(words, ">", "1>");
    let (t2, stdout_append) = take_redirection(t1, ">>", "1>>");
    let (t3, stderr) = take_redirection(t2, "2>", "2>");
    let (t4, stderr_append) = take_redirection(t3, "2>>", "2>>");
    if t4.len() == 0 {
        return LineCommand::Empty;
    }
    LineCommand::Simple {
        words: t4,
        redirections: Redirections { stdout, stdout_append, stderr, stderr_append },
    }
}

impl Redirections {
    /// Where standard output goes: a `>` target wins over a `>>` target.
    pub fn stdout_target(&self) -> (t: OutTarget)
        ensures
            match t {
                OutTarget::Create(p) => self.stdout matches Some(q) && p@ == q@,
                OutTarget::Append(p) => self.stdout is None && (self.stdout_append matches Some(q) && p@ == q@),
                OutTarget::Inherit => self.stdout is None && self.stdout_append is None,
            },
    {
        match &self.stdout {
            Some(p) => OutTarget::Create(p.clone()),
            None => match &self.stdout_append {
                Some(p) => OutTarget::Append(p.clone()),
                None => OutTarget::Inherit,
            },
        }
    }

    /// Where standard error goes: a `2>` target wins over a `2>>` target.
    pub fn stderr_target(&self) -> (t: OutTarget)
        ensures
            match t {
                OutTarget::Create(p) => self.stderr matches Some(q) && p@ == q@,
                OutTarget::Append(p) => self.stderr is None && (self.stderr_append matches Some(q) && p@ == q@),
                OutTarget::Inherit => self.stderr is None && self.stderr_append is None,
            },
    {
        match &self.stderr {
            Some(p) => OutTarget::Create(p.clone()),
            None => match &self.stderr_append {
                Some(p) => OutTarget::Append(p.clone()),
                None => OutTarget::Inherit,
            },
        }
    }
}


/// The mark of `path` in `m`: 0 when it has none.
pub open spec fn mark_of(m: Map<Seq<char>, usize>, path: Seq<char>) -> usize {
    if m.contains_key(path) {
        m[path]
    } else {
        0
    }
}

/// For each history file, how many history entries `history -a` has already appended to it.
pub struct AppendMarks {
    marks: Vec<(String, usize)>,
}

impl View for AppendMarks {
    type V = Map<Seq<char>, usize>;

    closed spec fn view(&self) -> Map<Seq<char>, usize> {
        Map::new(
            |p: Seq<char>| exists|i: int| 0 <= i < self.marks@.len() && (#[trigger] self.marks@[i]).0@ == p,
            |p: Seq<char>| {
                let i = choose|i: int| 0 <= i < self.marks@.len() && (#[trigger] self.marks@[i]).0@ == p;
                self.marks@[i].1
            },
        )
    }
}

impl AppendMarks {
    /// No file has a mark.
    pub closed spec fn wf(&self) -> bool {
        forall|i: int, j: int|
            0 <= i < j < self.marks@.len() ==> (#[trigger] self.marks@[i]).0@ != (#[trigger] self.marks@[j]).0@
    }

    /// No marks.
    pub fn new() -> (m: AppendMarks)
        ensures
            m.wf(),
            m@ == Map::<Seq<char>, usize>::empty(),
    {
        let m = AppendMarks { marks: Vec::new() };
        assert(m@ =~= Map::<Seq<char>, usize>::empty());
        m
    }

    /// The position of the mark for `path`, if any.
    fn find(&self, path: &str) -> (r: Option<usize>)
        ensures
            match r {
                Some(i) => i < self.marks@.len() && self.marks@[i as int].0@ == path@,
                None => forall|i: int| 0 <= i < self.marks@.len() ==> (#[trigger] self.marks@[i]).0@ != path@,
            },
    {
        let mut i: usize = 0;
        while i < self.marks.len()
            invariant
                i <= self.marks@.len(),
                forall|k: int| 0 <= k < i ==> (#[trigger] self.marks@[k]).0@ != path@,
            decreases self.marks@.len() - i,
        {
            if str_eq(self.marks[i].0.as_str(), path) {
                return Some(i);
            }
            i += 1;
        }
        None
    }

    /// How many entries were already appended to `path` (0 when none were).
    pub fn get(&self, path: &str) -> (n: usize)
        requires
            self.wf(),
        ensures
            n == mark_of(self@, path@),
    {
        match self.find(path) {
            Some(i) => {
                proof {
                    assert(self@.contains_key(path@));
                    let j = choose|j: int| 0 <= j < self.marks@.len() && (#[trigger] self.marks@[j]).0@ == path@;
                    if j != i {
                        if j < i {
                            assert(self.marks@[j].0@ != self.marks@[i as int].0@);
                        } else {
                            assert(self.marks@[i as int].0@ != self.marks@[j].0@);
                        }
                    }
                }
                self.marks[i].1
            },
            None => 0,
        }
    }

    /// Records that `n` entries have been appended to `path`.
    pub fn set(&mut self, path: String, n: usize)
        requires
            old(self).wf(),
        ensures
            final(self).wf(),
            final(self)@ == old(self)@.insert(path@, n),
    {
        let ghost before = self.marks@;
        let ghost old_view = self@;
        let ghost p = path@;
        match self.find(path.as_str()) {
            Some(i) => {
                self.marks.set(i, (path, n));
                proof {
                    assert forall|a: int, b: int| 0 <= a < b < self.marks@.len() implies (#[trigger] self.marks@[a]).0@
                        != (#[trigger] self.marks@[b]).0@ by {
                        assert(before[a].0@ != before[b].0@);
                    }
                    assert forall|q: Seq<char>| #[trigger] self@.contains_key(q) == old_view.insert(p, n).contains_key(q) by {
                        if old_view.contains_key(q) {
                            let j = choose|j: int| 0 <= j < before.len() && (#[trigger] before[j]).0@ == q;
                            if j != i {
                                assert(self.marks@[j] == before[j]);
                            }
                        }
                        if self@.contains_key(q) {
                            let j = choose|j: int| 0 <= j < self.marks@.len() && (#[trigger] self.marks@[j]).0@ == q;
                            if j != i {
                                assert(self.marks@[j] == before[j]);
                            }
                        }
                    }
                    assert forall|q: Seq<char>| #[trigger] self@.contains_key(q) implies self@[q] == old_view.insert(p, n)[q] by {
                        let j = choose|j: int| 0 <= j < self.marks@.len() && (#[trigger] self.marks@[j]).0@ == q;
                        if q == p {
                            if j != i as int {
                                if j < i {
                                    assert(self.marks@[j].0@ != self.marks@[i as int].0@);
                                } else {
                                    assert(self.marks@[i as int].0@ != self.marks@[j].0@);
                                }
                            }
                        } else {
                            assert(self.marks@[j] == before[j]);
                            let k = choose|k: int| 0 <= k < before.len() && (#[trigger] before[k]).0@ == q;
                            if k != j {
                                if k < j {
                                    assert(before[k].0@ != before[j].0@);
                                } else {
                                    assert(before[j].0@ != before[k].0@);
                                }
                            }
                        }
                    }
                    assert(self@ =~= old_view.insert(p, n));
                }
            },
            None => {
                self.marks.push((path, n));
                proof {
                    let last = before.len() as int;
                    assert forall|a: int, b: int| 0 <= a < b < self.marks@.len() implies (#[trigger] self.marks@[a]).0@
                        != (#[trigger] self.marks@[b]).0@ by {
                        if b < last {
                            assert(before[a].0@ != before[b].0@);
                        } else {
                            assert(before[a].0@ != p);
                        }
                    }
                    assert forall|q: Seq<char>| #[trigger] self@.contains_key(q) == old_view.insert(p, n).contains_key(q) by {
                        if old_view.contains_key(q) {
                            let j = choose|j: int| 0 <= j < before.len() && (#[trigger] before[j]).0@ == q;
                            assert(self.marks@[j] == before[j]);
                        }
                        if q == p {
                            assert(self.marks@[last].0@ == p);
                        }
                        if self@.contains_key(q) {
                            let j = choose|j: int| 0 <= j < self.marks@.len() && (#[trigger] self.marks@[j]).0@ == q;
                            if j < last {
                                assert(self.marks@[j] == before[j]);
                            }
                        }
                    }
                    assert forall|q: Seq<char>| #[trigger] self@.contains_key(q) implies self@[q] == old_view.insert(p, n)[q] by {
                        let j = choose|j: int| 0 <= j < self.marks@.len() && (#[trigger] self.marks@[j]).0@ == q;
                        if q == p {
                            if j < last {
                                assert(before[j].0@ != p);
                            }
                        } else {
                            assert(j < last);
                            assert(self.marks@[j] == before[j]);
                            let k = choose|k: int| 0 <= k < before.len() && (#[trigger] before[k]).0@ == q;
                            if k != j {
                                if k < j {
                                    assert(before[k].0@ != before[j].0@);
                                } else {
                                    assert(before[j].0@ != before[k].0@);
                                }
                            }
                        }
                    }
                    assert(self@ =~= old_view.insert(p, n));
                }
            },
        }
    }
}

/// The history entries `history -a` appends: those from `start` on.
pub fn entries_to_append(history: &[String], start: usize) -> (r: Vec<String>)
    ensures
        views(r@) == views(history@).skip(if start <= history@.len() { start as int } else { history@.len() as int }),
{
    let mut r: Vec<String> = Vec::new();
    let mut i = start;
    let ghost from = if start <= history@.len() { start as int } else { history@.len() as int };
    let ghost h = views(history@);
    assert(views(r@) =~= h.subrange(from, from));
    while i < history.len()
        invariant
            h == views(history@),
            from == (if start <= history@.len() { start as int } else { history@.len() as int }),
            i >= start,
            i < history@.len() ==> from <= i <= history@.len(),
            i < history@.len() ==> views(r@) == h.subrange(from, i as int),
            i >= history@.len() ==> views(r@) == h.subrange(from, history@.len() as int),
        decreases history@.len() - i,
    {
        let ghost before = views(r@);
        r.push(history[i].clone());
        assert(views(r@) =~= before.push(h[i as int]));
        assert(h.subrange(from, i + 1) =~= h.subrange(from, i as int).push(h[i as int]));
        i += 1;
    }
    assert(h.skip(from) =~= h.subrange(from, history@.len() as int));
    r
}


/// Reading a mark gives back what was last set for that file, and setting a mark leaves
/// the marks of other files as they were.
pub proof fn law_marks_read_after_write(
    before: Map<Seq<char>, usize>,
    after: Map<Seq<char>, usize>,
    p: Seq<char>,
    n: usize,
    q: Seq<char>,
)
    requires
        after == before.insert(p, n),
    ensures
        mark_of(after, p) == n,
        q != p ==> mark_of(after, q) == mark_of(before, q),
{
}

/// Appending the history to a file twice, with the mark moved to the end of the history
/// in between, writes every entry after the first mark exactly once and in order, however
/// much the history grew in between.
pub proof fn law_append_covers_history_once(h1: Seq<Seq<char>>, h2: Seq<Seq<char>>, mark: int)
    requires
        0 <= mark <= h1.len(),
        h1.is_prefix_of(h2),
    ensures
        h1.skip(mark) + h2.skip(h1.len() as int) == h2.skip(mark),
{
    assert forall|i: int| 0 <= i < h1.len() implies h1[i] == h2[i] by {
        assert(h2.subrange(0, h1.len() as int)[i] == h2[i]);
    }
    assert(h1.skip(mark) + h2.skip(h1.len() as int) =~= h2.skip(mark));
}

/// The words of pipeline stages put back together with '|' between them.
pub open spec fn join_stages(stages: Seq<Seq<Seq<char>>>) -> Seq<Seq<char>>
    decreases stages.len(),
{
    if stages.len() == 0 {
        Seq::empty()
    } else if stages.len() == 1 {
        stages[0]
    } else {
        join_stages(stages.drop_last()) + seq!["|"@] + stages.last()
    }
}

proof fn lemma_split_join(ts: Seq<Seq<char>>, n: int)
    requires
        0 <= n <= ts.len(),
        split_pipeline(ts, n).2 == 0,
    ensures
        join_stages(split_pipeline(ts, n).0.push(split_pipeline(ts, n).1)) == ts.take(n),
    decreases n,
{
    let (done, cur, errors) = split_pipeline(ts, n);
    if n == 0 {
        assert(done.push(cur) =~= seq![Seq::<Seq<char>>::empty()]);
        assert(ts.take(0) =~= Seq::<Seq<char>>::empty());
    } else {
        let (d0, c0, e0) = split_pipeline(ts, n - 1);
        assert(e0 <= errors);
        lemma_split_join(ts, n - 1);
        let t = ts[n - 1];
        assert(ts.take(n) =~= ts.take(n - 1).push(t));
        if t == "|"@ {
            assert(c0.len() > 0);
            let st = d0.push(c0).push(Seq::<Seq<char>>::empty());
            assert(st.drop_last() =~= d0.push(c0));
            assert(join_stages(st) =~= ts.take(n - 1) + seq!["|"@] + Seq::<Seq<char>>::empty());
        } else {
            let st = d0.push(c0.push(t));
            if d0.len() == 0 {
                assert(d0.push(c0)[0] == c0);
                assert(st[0] == c0.push(t));
            } else {
                assert(st.drop_last() =~= d0);
                assert(d0.push(c0).drop_last() =~= d0);
                assert(join_stages(st) =~= join_stages(d0) + seq!["|"@] + c0.push(t));
            }
        }
    }
}

/// When no stage is empty, the stages of a pipeline, put back together with '|' between
/// them, are the words of the command line.
pub proof fn law_pipeline_split_rejoins(ts: Seq<Seq<char>>)
    requires
        split_pipeline(ts, ts.len() as int).2 == 0,
    ensures
        join_stages(split_pipeline(ts, ts.len() as int).0.push(split_pipeline(ts, ts.len() as int).1)) == ts,
{
    lemma_split_join(ts, ts.len() as int);
    assert(ts.take(ts.len() as int) =~= ts);
}

} // verus!

verus! {

proof fn lemma_first_match_at(ts: Seq<Seq<char>>, a: Seq<char>, b: Seq<char>, j: int, i: int)
    requires
        0 <= j <= i < ts.len(),
        ts[i] == a || ts[i] == b,
        forall|k: int| j <= k < i ==> #[trigger] ts[k] != a && ts[k] != b,
    ensures
        first_match(ts, a, b, j) == i,
    decreases i - j,
{
    if j < i {
        lemma_first_match_at(ts, a, b, j + 1, i);
    }
}

/// `1>` is the same redirection as `>`: writing the first standard-output redirection of a
/// line one way or the other leaves the same words and takes the same operands; its operand
/// is the word after it.
pub proof fn law_stdout_redirect_spellings(ts: Seq<Seq<char>>, i: int)
    requires
        0 <= i,
        i + 1 < ts.len(),
        ts[i] == "1>"@,
        forall|k: int| 0 <= k < i ==> #[trigger] ts[k] != ">"@ && ts[k] != "1>"@,
    ensures
        redirect_passes(ts) == redirect_passes(ts.update(i, ">"@)),
        redirect_passes(ts).1 == Some(ts[i + 1]),
{
    let tu = ts.update(i, ">"@);
    lemma_first_match_at(ts, ">"@, "1>"@, 0, i);
    assert forall|k: int| 0 <= k < i implies #[trigger] tu[k] != ">"@ && tu[k] != "1>"@ by {
        assert(tu[k] == ts[k]);
    }
    lemma_first_match_at(tu, ">"@, "1>"@, 0, i);
    assert(ts.take(i) + ts.skip(i + 2) =~= tu.take(i) + tu.skip(i + 2));
    assert(tu[i + 1] == ts[i + 1]);
}

} // verus!
