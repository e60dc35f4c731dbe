use vstd::prelude::*;
use crate::number::{decimal, push_decimal};
use crate::text::{chars_of, push_char, string_from_chars, ends_with_char};

verus! {

/// Whether a background job is still running.
#[derive(Debug, Clone, Copy, PartialEq, Eq, Structural)]
pub enum JobStatus {
    Running,
    Done,
}

/// A background job: its number, the handle of its process, the command line that started
/// it, and its status.
pub struct Job<C> {
    pub id: usize,
    pub child: C,
    pub command: String,
    pub status: JobStatus,
}

/// The background jobs of the shell, in the order they were started.
pub struct JobManager<C> {
    pub jobs: Vec<Job<C>>,
}

/// `char::is_whitespace`: the characters with the Unicode `White_Space` property.
pub open spec fn is_whitespace(c: char) -> bool {
    ('\u{9}' <= c && c <= '\u{d}') || c == ' ' || c == '\u{85}' || c == '\u{a0}' || c == '\u{1680}'
        || ('\u{2000}' <= c && c <= '\u{200a}') || c == '\u{2028}' || c == '\u{2029}' || c
        == '\u{202f}' || c == '\u{205f}' || c == '\u{3000}'
}

/// `s` without its leading whitespace.
pub open spec fn trim_start(s: Seq<char>) -> Seq<char>
    decreases s.len(),
{
    if s.len() > 0 && is_whitespace(s[0]) {
        trim_start(s.drop_first())
    } else {
        s
    }
}

/// `s` without its trailing whitespace.
pub open spec fn trim_end(s: Seq<char>) -> Seq<char>
    decreases s.len(),
{
    if s.len() > 0 && is_whitespace(s.last()) {
        trim_end(s.drop_last())
    } else {
        s
    }
}

/// `str::trim`: `s` without leading and trailing whitespace.
pub open spec fn trim(s: Seq<char>) -> Seq<char> {
    trim_end(trim_start(s))
}

/// A job's command line as shown: trimmed, without one trailing '&', trimmed again.
pub open spec fn clean_command_spec(s: Seq<char>) -> Seq<char> {
    let t = trim(s);
    trim(if ends_with_char(t, '&') { t.drop_last() } else { t })
}

/// Whether `c` is whitespace (`char::is_whitespace`).
pub fn is_whitespace_char(c: char) -> (b: bool)
    ensures
        b == is_whitespace(c),
{
    ('\u{9}' <= c && c <= '\u{d}') || c == ' ' || c == '\u{85}' || c == '\u{a0}' || c == '\u{1680}'
        || ('\u{2000}' <= c && c <= '\u{200a}') || c == '\u{2028}' || c == '\u{2029}' || c
        == '\u{202f}' || c == '\u{205f}' || c == '\u{3000}'
}

/// The bounds of `trim(v[from..to])` within `v`.
fn trim_bounds(v: &Vec<char>, from: usize, to: usize) -> (r: (usize, usize))
    requires
        from <= to <= v@.len(),
    ensures
        from <= r.0 <= r.1 <= to,
        v@.subrange(r.0 as int, r.1 as int) == trim(v@.subrange(from as int, to as int)),
{
    let mut a = from;
    assert(v@.subrange(from as int, to as int) =~= v@.subrange(a as int, to as int));
    while a < to && is_whitespace_char(v[a])
        invariant
            from <= a <= to <= v@.len(),
            trim_start(v@.subrange(from as int, to as int)) == trim_start(v@.subrange(a as int, to as int)),
        decreases to - a,
    {
        assert(v@.subrange(a as int, to as int).drop_first() =~= v@.subrange(a + 1, to as int));
        a += 1;
    }
    let mut b = to;
    assert(v@.subrange(a as int, to as int) =~= v@.subrange(a as int, b as int));
    while b > a && is_whitespace_char(v[b - 1])
        invariant
            from <= a <= b <= to <= v@.len(),
            trim_end(v@.subrange(a as int, to as int)) == trim_end(v@.subrange(a as int, b as int)),
        decreases b,
    {
        assert(v@.subrange(a as int, b as int).drop_last() =~= v@.subrange(a as int, b - 1));
        b -= 1;
    }
    (a, b)
}

/// A job's command line as shown (see `clean_command_spec`).
pub fn clean_command(command: &str) -> (s: String)
    ensures
        s@ == clean_command_spec(command@),
{
    let v = chars_of(command);
    assert(v@.subrange(0, v@.len() as int) =~= v@);
    let (a, b) = trim_bounds(&v, 0, v.len());
    let ghost t = v@.subrange(a as int, b as int);
    let end = if b > a && v[b - 1] == '&' { b - 1 } else { b };
    assert(v@.subrange(a as int, end as int) =~= (if ends_with_char(t, '&') { t.drop_last() } else { t }));
    let (c, d) = trim_bounds(&v, a, end);
    string_from_chars(&v, c, d)
}

/// The marker after a job's number in listings: '+' for the most recent job, '-' for the
/// one before it.
pub open spec fn job_symbol(idx: int, len: int) -> char {
    if idx == len - 1 {
        '+'
    } else if len >= 2 && idx == len - 2 {
        '-'
    } else {
        ' '
    }
}

/// `w` padded with spaces on the right to `width` characters.
pub open spec fn pad_right(w: Seq<char>, width: nat) -> Seq<char> {
    if w.len() < width {
        w + Seq::new((width - w.len()) as nat, |i: int| ' ')
    } else {
        w
    }
}

/// A job listing line: "[id]" then the marker, two spaces, the status word padded to
/// 24 characters, and the command.
pub open spec fn job_line(id: nat, symbol: char, status: Seq<char>, cmd: Seq<char>) -> Seq<char> {
    seq!['['] + decimal(id) + seq![']', symbol, ' ', ' '] + pad_right(status, 24) + cmd
}

/// The status of a job after polling: a running job whose process has exited is done.
pub open spec fn polled(status: JobStatus, exited: bool) -> JobStatus {
    if status == JobStatus::Running && exited {
        JobStatus::Done
    } else {
        status
    }
}

/// The word shown for a status.
pub open spec fn status_word(s: JobStatus) -> Seq<char> {
    match s {
        JobStatus::Running => "Running"@,
        JobStatus::Done => "Done"@,
    }
}

/// The command shown for a job with a status: a running job shows a trailing " &".
pub open spec fn shown_command(cmd: Seq<char>, s: JobStatus) -> Seq<char> {
    match s {
        JobStatus::Running => clean_command_spec(cmd) + " &"@,
        JobStatus::Done => clean_command_spec(cmd),
    }
}

/// Whether some job in `jobs` has the number `id` and is done.
pub open spec fn id_done<C>(jobs: Seq<Job<C>>, id: usize) -> bool {
    exists|k: int| 0 <= k < jobs.len() && #[trigger] jobs[k].id == id && jobs[k].status == JobStatus::Done
}

/// The jobs among `jobs[..n]` whose number is not that of any done job of `done`.
pub open spec fn kept_jobs<C>(jobs: Seq<Job<C>>, done: Seq<Job<C>>, n: int) -> Seq<Job<C>>
    decreases n,
{
    if n <= 0 || n > jobs.len() {
        Seq::empty()
    } else if id_done(done, jobs[n - 1].id) {
        kept_jobs(jobs, done, n - 1)
    } else {
        kept_jobs(jobs, done, n - 1).push(jobs[n - 1])
    }
}

/// The jobs with their statuses polled: job `i`'s process exited when `exited[i]`.
pub open spec fn polled_jobs<C>(jobs: Seq<Job<C>>, exited: Seq<bool>) -> Seq<Job<C>> {
    Seq::new(
        jobs.len(),
        |i: int| Job { id: jobs[i].id, child: jobs[i].child, command: jobs[i].command, status: polled(jobs[i].status, exited[i]) },
    )
}

/// The listing lines for the jobs `jobs[..n]` that `show` selects.
pub open spec fn job_lines<C>(jobs: Seq<Job<C>>, n: int, done_only: bool) -> Seq<Seq<char>>
    decreases n,
{
    if n <= 0 || n > jobs.len() {
        Seq::empty()
    } else {
        let rest = job_lines(jobs, n - 1, done_only);
        let j = jobs[n - 1];
        if done_only && j.status != JobStatus::Done {
            rest
        } else {
            rest.push(
                job_line(
                    j.id as nat,
                    job_symbol(n - 1, jobs.len() as int),
                    status_word(j.status),
                    shown_command(j.command@, j.status),
                ),
            )
        }
    }
}

/// Appends `w` padded with spaces to `width` characters.
fn push_padded(s: &mut String, w: &str, width: usize)
    ensures
        final(s)@ == old(s)@ + pad_right(w@, width as nat),
{
    let n = chars_of(w).len();
    s.append(w);
    let ghost base = s@;
    if n < width {
        let mut k = n;
        assert(base =~= base + Seq::new(0, |i: int| ' '));
        while k < width
            invariant
                n <= k <= width,
                s@ == base + Seq::new((k - n) as nat, |i: int| ' '),
            decreases width - k,
        {
            let ghost m = (k - n) as nat;
            push_char(s, ' ');
            assert(base + Seq::new(m + 1, |i: int| ' ') =~= (base + Seq::new(m, |i: int| ' ')).push(' '));
            k += 1;
        }
    }
    assert(s@ =~= old(s)@ + pad_right(w@, width as nat));
}

/// The listing line of one job.
fn format_job_line(id: usize, symbol: char, status: JobStatus, command: &str) -> (s: String)
    ensures
        s@ == job_line(id as nat, symbol, status_word(status), shown_command(command@, status)),
{
    let mut s = String::new();
    push_char(&mut s, '[');
    push_decimal(&mut s, id);
    push_char(&mut s, ']');
    push_char(&mut s, symbol);
    push_char(&mut s, ' ');
    push_char(&mut s, ' ');
    match status {
        JobStatus::Running => push_padded(&mut s, "Running", 24),
        JobStatus::Done => push_padded(&mut s, "Done", 24),
    }
    let cmd = clean_command(command);
    s.append(cmd.as_str());
    if status == JobStatus::Running {
        s.append(" &");
    }
    assert(s@ =~= job_line(id as nat, symbol, status_word(status), shown_command(command@, status)));
    s
}


/// `id` is the smallest positive number no job in `jobs` has.
pub open spec fn is_next_id<C>(jobs: Seq<Job<C>>, id: usize) -> bool {
    &&& id >= 1
    &&& forall|k: int| 0 <= k < jobs.len() ==> (#[trigger] jobs[k]).id != id
    &&& forall|x: usize| 1 <= x < id ==> #[trigger] id_in_use(jobs, x)
}

/// Whether some job in `jobs` has the number `x`.
pub open spec fn id_in_use<C>(jobs: Seq<Job<C>>, x: usize) -> bool {
    exists|k: int| 0 <= k < jobs.len() && (#[trigger] jobs[k]).id == x
}

/// The views of a list of strings.
pub open spec fn line_views(v: Seq<String>) -> Seq<Seq<char>> {
    v.map_values(|s: String| s@)
}

/// Whether `id` is among `ids`.
fn contains_id(ids: &Vec<usize>, id: usize) -> (b: bool)
    ensures
        b == ids@.contains(id),
{
    let mut i: usize = 0;
    while i < ids.len()
        invariant
            i <= ids@.len(),
            forall|k: int| 0 <= k < i ==> ids@[k] != id,
        decreases ids@.len() - i,
    {
        if ids[i] == id {
            return true;
        }
        i += 1;
    }
    false
}

impl<C> JobManager<C> {
    /// No jobs.
    pub fn new() -> (m: Self)
        ensures
            m.jobs@.len() == 0,
    {
        JobManager { jobs: Vec::new() }
    }

    /// The smallest positive job number not in use, so that numbers of finished jobs are
    /// used again.
    pub fn get_next_id(&self) -> (id: usize)
        requires
            self.jobs@.len() < usize::MAX,
        ensures
            is_next_id(self.jobs@, id),
    {
        let ghost ids = self.jobs@.map_values(|j: Job<C>| j.id as int);
        let mut id: usize = 1;
        loop
            invariant
                ids == self.jobs@.map_values(|j: Job<C>| j.id as int),
                self.jobs@.len() < usize::MAX,
                1 <= id <= self.jobs@.len() + 1,
                forall|x: usize| 1 <= x < id ==> #[trigger] id_in_use(self.jobs@, x),
            decreases self.jobs@.len() + 1 - id,
        {
            let mut used = false;
            let mut k: usize = 0;
            while k < self.jobs.len()
                invariant
                    k <= self.jobs@.len(),
                    !used ==> forall|m: int| 0 <= m < k ==> (#[trigger] self.jobs@[m]).id != id,
                    used ==> exists|m: int| 0 <= m < self.jobs@.len() && (#[trigger] self.jobs@[m]).id == id,
                decreases self.jobs@.len() - k,
            {
                if self.jobs[k].id == id {
                    used = true;
                }
                k += 1;
            }
            if !used {
                return id;
            }
            assert(id_in_use(self.jobs@, id));
            proof {
                // 1..=id are all in use, so there are at least id jobs
                let range = vstd::set_lib::set_int_range(1, id + 1);
                vstd::set_lib::lemma_int_range(1, id + 1);
                assert forall|x: int| #[trigger] range.contains(x) implies ids.to_set().contains(x) by {
                    let xu = x as usize;
                    if x < id {
                        assert(id_in_use(self.jobs@, xu));
                        let m = choose|m: int| 0 <= m < self.jobs@.len() && (#[trigger] self.jobs@[m]).id == xu;
                        assert(ids[m] == x);
                    } else {
                        let m = choose|m: int| 0 <= m < self.jobs@.len() && (#[trigger] self.jobs@[m]).id == id;
                        assert(ids[m] == x);
                    }
                }
                ids.lemma_cardinality_of_set();
                vstd::seq_lib::seq_to_set_is_finite(ids);
                vstd::set_lib::lemma_len_subset(range, ids.to_set());
            }
            id += 1;
        }
    }

    /// Starts tracking a running job for `child`, numbered by `get_next_id`; returns its number.
    pub fn add_job(&mut self, child: C, command: String) -> (id: usize)
        requires
            old(self).jobs@.len() < usize::MAX,
        ensures
            is_next_id(old(self).jobs@, id),
            final(self).jobs@ == old(self).jobs@.push(Job { id, child, command, status: JobStatus::Running }),
    {
        let id = self.get_next_id();
        self.jobs.push(Job { id, child, command, status: JobStatus::Running });
        id
    }

    /// Polls the jobs (`exited[i]`: job `i`'s process has exited), returns the listing lines
    /// of the jobs that are done, and stops tracking them.
    pub fn reap_and_notify(&mut self, exited: &Vec<bool>) -> (lines: Vec<String>)
        requires
            exited@.len() == old(self).jobs@.len(),
        ensures
            ({
                let p = polled_jobs(old(self).jobs@, exited@);
                &&& line_views(lines@) == job_lines(p, p.len() as int, true)
                &&& final(self).jobs@ == kept_jobs(p, p, p.len() as int)
            }),
    {
        self.poll_and_list(exited, true)
    }

    /// Polls the jobs (`exited[i]`: job `i`'s process has exited), returns the listing lines
    /// of all jobs, and stops tracking those that are done.
    pub fn list_jobs(&mut self, exited: &Vec<bool>) -> (lines: Vec<String>)
        requires
            exited@.len() == old(self).jobs@.len(),
        ensures
            ({
                let p = polled_jobs(old(self).jobs@, exited@);
                &&& line_views(lines@) == job_lines(p, p.len() as int, false)
                &&& final(self).jobs@ == kept_jobs(p, p, p.len() as int)
            }),
    {
        self.poll_and_list(exited, false)
    }

    fn poll_and_list(&mut self, exited: &Vec<bool>, done_only: bool) -> (lines: Vec<String>)
        requires
            exited@.len() == old(self).jobs@.len(),
        ensures
            ({
                let p = polled_jobs(old(self).jobs@, exited@);
                &&& line_views(lines@) == job_lines(p, p.len() as int, done_only)
                &&& final(self).jobs@ == kept_jobs(p, p, p.len() as int)
            }),
    {
        let ghost p = polled_jobs(self.jobs@, exited@);
        let len = self.jobs.len();
        let mut pending: Vec<Job<C>> = Vec::new();
        std::mem::swap(&mut pending, &mut self.jobs);
        let ghost orig = pending@;
        let mut polled: Vec<Job<C>> = Vec::new();
        let mut lines: Vec<String> = Vec::new();
        let mut done_ids: Vec<usize> = Vec::new();
        let mut idx: usize = 0;
        assert(p.take(0) =~= Seq::<Job<C>>::empty());
        while idx < len
            invariant
                len == orig.len(),
                exited@.len() == len,
                p == polled_jobs(orig, exited@),
                idx <= len,
                pending@ == orig.skip(idx as int),
                polled@ == p.take(idx as int),
                line_views(lines@) == job_lines(p, idx as int, done_only),
                forall|id: usize| done_ids@.contains(id) <==> id_done(p.take(idx as int), id),
            decreases len - idx,
        {
            let mut job = pending.remove(0);
            assert(job == orig[idx as int]);
            if job.status == JobStatus::Running && exited[idx] {
                job.status = JobStatus::Done;
            }
            assert(job == p[idx as int]);
            let ghost before_lines = line_views(lines@);
            if !done_only || job.status == JobStatus::Done {
                let symbol = if idx == len - 1 {
                    '+'
                } else if len >= 2 && idx == len - 2 {
                    '-'
                } else {
                    ' '
                };
                let line = format_job_line(job.id, symbol, job.status, job.command.as_str());
                lines.push(line);
                assert(line_views(lines@) =~= before_lines.push(line@));
            } else {
                assert(line_views(lines@) =~= before_lines);
            }
            proof {
                assert(job_lines(p, idx + 1, done_only) == (if done_only && p[idx as int].status
                    != JobStatus::Done {
                    job_lines(p, idx as int, done_only)
                } else {
                    job_lines(p, idx as int, done_only).push(
                        job_line(
                            p[idx as int].id as nat,
                            job_symbol(idx as int, len as int),
                            status_word(p[idx as int].status),
                            shown_command(p[idx as int].command@, p[idx as int].status),
                        ),
                    )
                }));
            }
            let ghost old_ids = done_ids@;
            if job.status == JobStatus::Done {
                done_ids.push(job.id);
            }
            proof {
                let t0 = p.take(idx as int);
                let t1 = p.take(idx + 1);
                assert(t1 =~= t0.push(p[idx as int]));
                assert forall|id: usize| done_ids@.contains(id) <==> id_done(t1, id) by {
                    if id_done(t0, id) {
                        let k = choose|k: int| 0 <= k < t0.len() && #[trigger] t0[k].id == id && t0[k].status == JobStatus::Done;
                        assert(t1[k] == t0[k]);
                        assert(old_ids.contains(id));
                        if job.status == JobStatus::Done {
                            let q = choose|q: int| 0 <= q < old_ids.len() && old_ids[q] == id;
                            assert(done_ids@[q] == id);
                        }
                    }
                    if done_ids@.contains(id) {
                        let q = choose|q: int| 0 <= q < done_ids@.len() && done_ids@[q] == id;
                        if q < old_ids.len() {
                            assert(old_ids[q] == id);
                            assert(old_ids.contains(id));
                        }
                    }
                    if id_done(t1, id) {
                        let k = choose|k: int| 0 <= k < t1.len() && #[trigger] t1[k].id == id && t1[k].status == JobStatus::Done;
                        if k < idx {
                            assert(t0[k] == t1[k]);
                        } else {
                            assert(done_ids@.last() == id);
                        }
                    }
                    if done_ids@.contains(id) && !id_done(t0, id) {
                        assert(t1[idx as int] == p[idx as int]);
                    }
                }
            }
            polled.push(job);
            assert(orig.skip(idx as int).drop_first() =~= orig.skip(idx + 1));
            idx += 1;
        }
        assert(p.take(len as int) =~= p);
        let mut kept: Vec<Job<C>> = Vec::new();
        let mut i: usize = 0;
        assert(kept@ =~= kept_jobs(p, p, 0));
        while i < len
            invariant
                len == p.len(),
                i <= len,
                polled@ == p.skip(i as int),
                kept@ == kept_jobs(p, p, i as int),
                forall|id: usize| done_ids@.contains(id) <==> id_done(p, id),
            decreases len - i,
        {
            let job = polled.remove(0);
            assert(job == p[i as int]);
            if !contains_id(&done_ids, job.id) {
                kept.push(job);
            }
            assert(p.skip(i as int).drop_first() =~= p.skip(i + 1));
            i += 1;
        }
        self.jobs = kept;
        lines
    }
}

} // verus!

verus! {

/// No two jobs have the same number.
pub open spec fn ids_distinct<C>(jobs: Seq<Job<C>>) -> bool {
    forall|a: int, b: int| 0 <= a < b < jobs.len() ==> (#[trigger] jobs[a]).id != (#[trigger] jobs[b]).id
}

/// A job added with the number `get_next_id` chose keeps job numbers distinct.
pub proof fn law_next_id_keeps_ids_distinct<C>(jobs: Seq<Job<C>>, job: Job<C>)
    requires
        ids_distinct(jobs),
        is_next_id(jobs, job.id),
    ensures
        ids_distinct(jobs.push(job)),
{
    let after = jobs.push(job);
    assert forall|a: int, b: int| 0 <= a < b < after.len() implies (#[trigger] after[a]).id != (#[trigger] after[b]).id by {
        if b == jobs.len() {
            assert(after[a] == jobs[a]);
            assert(jobs[a].id != job.id);
        } else {
            assert(after[a] == jobs[a] && after[b] == jobs[b]);
        }
    }
}

proof fn lemma_kept_running<C>(jobs: Seq<Job<C>>, n: int)
    requires
        0 <= n <= jobs.len(),
    ensures
        forall|i: int| 0 <= i < kept_jobs(jobs, jobs, n).len() ==> (#[trigger] kept_jobs(jobs, jobs, n)[i]).status
            == JobStatus::Running,
        forall|i: int| 0 <= i < kept_jobs(jobs, jobs, n).len() ==> exists|k: int| 0 <= k < n && jobs[k] == #[trigger] kept_jobs(jobs, jobs, n)[i],
    decreases n,
{
    if n > 0 {
        lemma_kept_running(jobs, n - 1);
        let j = jobs[n - 1];
        if !id_done(jobs, j.id) {
            let kept = kept_jobs(jobs, jobs, n);
            let prev = kept_jobs(jobs, jobs, n - 1);
            assert(kept == prev.push(j));
            if j.status == JobStatus::Done {
                assert(jobs[n - 1].id == j.id);
                assert(id_done(jobs, j.id));
            }
            assert forall|i: int| 0 <= i < kept.len() implies exists|k: int| 0 <= k < n && jobs[k] == #[trigger] kept[i] by {
                if i < prev.len() {
                    assert(kept[i] == prev[i]);
                    let k = choose|k: int| 0 <= k < n - 1 && jobs[k] == #[trigger] prev[i];
                    assert(jobs[k] == kept[i]);
                } else {
                    assert(jobs[n - 1] == kept[i]);
                }
            }
            assert forall|i: int| 0 <= i < kept.len() implies (#[trigger] kept[i]).status == JobStatus::Running by {
                if i < prev.len() {
                    assert(kept[i] == prev[i]);
                }
            }
        }
    }
}

/// After reaping or listing, every job still tracked is running, and it was one of the
/// polled jobs.
pub proof fn law_no_done_job_is_kept<C>(jobs: Seq<Job<C>>)
    ensures
        forall|i: int|
            0 <= i < kept_jobs(jobs, jobs, jobs.len() as int).len() ==> (#[trigger] kept_jobs(
                jobs,
                jobs,
                jobs.len() as int,
            )[i]).status == JobStatus::Running,
        forall|i: int|
            0 <= i < kept_jobs(jobs, jobs, jobs.len() as int).len() ==> exists|k: int|
                0 <= k < jobs.len() && jobs[k] == #[trigger] kept_jobs(jobs, jobs, jobs.len() as int)[i],
{
    lemma_kept_running(jobs, jobs.len() as int);
}

} // verus!
