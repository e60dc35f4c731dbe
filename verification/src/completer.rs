use vstd::prelude::*;
use crate::context::{completion_scan, get_completion_context};
use crate::lcp::{common_prefix, longest_common_prefix, law_longest_common_prefix, prefix_of_first};
use crate::order::{lex_lt, lemma_lex_asym, lemma_lex_trans, lemma_insert_multiset, lex_less, sort_strings};
use crate::text::{chars_of, chars_start_with, push_char, str_eq, string_from_chars, starts_with_char, ends_with_char};
use crate::trie::Trie;

verus! {

/// A completion offered to the line editor: the text shown in the list, and the text that
/// replaces the word under the cursor.
pub struct Candidate {
    pub display: String,
    pub replacement: String,
}

impl View for Candidate {
    type V = (Seq<char>, Seq<char>);

    open spec fn view(&self) -> (Seq<char>, Seq<char>) {
        (self.display@, self.replacement@)
    }
}

/// The views of a list of candidates.
pub open spec fn candidate_views(v: Seq<Candidate>) -> Seq<(Seq<char>, Seq<char>)> {
    v.map_values(|c: Candidate| c@)
}

/// The views of a list of strings.
pub open spec fn string_views(v: Seq<String>) -> Seq<Seq<char>> {
    v.map_values(|s: String| s@)
}

/// What is offered when the word under the cursor is a command name, given the sorted
/// command names `ms` that begin with `frag`: nothing; the one name followed by a space;
/// every name, when they share no more than `frag`; or else their longest common prefix.
pub open spec fn command_choice(frag: Seq<char>, ms: Seq<Seq<char>>) -> Seq<(Seq<char>, Seq<char>)> {
    if ms.len() == 0 {
        Seq::empty()
    } else if ms.len() == 1 {
        seq![(ms[0], ms[0].push(' '))]
    } else if common_prefix(ms) == frag {
        ms.map_values(|m: Seq<char>| (m, m))
    } else {
        seq![(common_prefix(ms), common_prefix(ms))]
    }
}

/// What is offered when the word under the cursor is a path, given the sorted path
/// candidates `ms`: nothing; the one candidate, followed by a space unless it names a
/// directory; every candidate, when their replacements share no more than `frag`; or else
/// the longest common prefix of their replacements.
pub open spec fn path_choice(
    frag: Seq<char>,
    ms: Seq<(Seq<char>, Seq<char>)>,
) -> Seq<(Seq<char>, Seq<char>)> {
    if ms.len() == 0 {
        Seq::empty()
    } else if ms.len() == 1 {
        if ends_with_char(ms[0].1, '/') {
            seq![ms[0]]
        } else {
            seq![(ms[0].0, ms[0].1.push(' '))]
        }
    } else if common_prefix(ms.map_values(|m: (Seq<char>, Seq<char>)| m.1)) == frag {
        ms
    } else {
        let p = common_prefix(ms.map_values(|m: (Seq<char>, Seq<char>)| m.1));
        seq![(p, p)]
    }
}

/// A candidate whose shown and inserted texts are both `s`.
fn same_candidate(s: &String) -> (c: Candidate)
    ensures
        c@ == (s@, s@),
{
    Candidate { display: s.clone(), replacement: s.clone() }
}

/// Chooses what to offer for a command name, from the sorted names that begin with `fragment`.
pub fn choose_command_completion(fragment: &str, matches: &Vec<String>) -> (r: Vec<Candidate>)
    ensures
        candidate_views(r@) == command_choice(fragment@, string_views(matches@)),
{
    let ghost ms = string_views(matches@);
    if matches.len() == 0 {
        let r: Vec<Candidate> = Vec::new();
        assert(candidate_views(r@) =~= command_choice(fragment@, ms));
        return r;
    }
    let common = longest_common_prefix(matches.as_slice());
    if matches.len() == 1 {
        let m = &matches[0];
        let mut rep = m.clone();
        push_char(&mut rep, ' ');
        let mut r: Vec<Candidate> = Vec::new();
        r.push(Candidate { display: m.clone(), replacement: rep });
        assert(candidate_views(r@) =~= command_choice(fragment@, ms));
        return r;
    }
    if str_eq(common.as_str(), fragment) {
        let mut r: Vec<Candidate> = Vec::new();
        let mut i: usize = 0;
        while i < matches.len()
            invariant
                i <= matches@.len(),
                ms == string_views(matches@),
                r@.len() == i,
                candidate_views(r@) == ms.take(i as int).map_values(|m: Seq<char>| (m, m)),
            decreases matches@.len() - i,
        {
            let ghost before = candidate_views(r@);
            r.push(same_candidate(&matches[i]));
            assert(ms[i as int] == matches@[i as int]@);
            assert(r@[i as int]@ == (ms[i as int], ms[i as int]));
            assert(candidate_views(r@) =~= before.push((ms[i as int], ms[i as int])));
            assert(ms.take(i + 1) =~= ms.take(i as int).push(ms[i as int]));
            assert(candidate_views(r@) =~= ms.take(i + 1).map_values(|m: Seq<char>| (m, m)));
            i += 1;
        }
        assert(ms.take(matches@.len() as int) =~= ms);
        return r;
    }
    let mut r: Vec<Candidate> = Vec::new();
    r.push(same_candidate(&common));
    assert(candidate_views(r@) =~= command_choice(fragment@, ms));
    r
}

/// Chooses what to offer for a path, from the sorted candidates for `fragment`.
pub fn choose_path_completion(fragment: &str, matches: &Vec<Candidate>) -> (r: Vec<Candidate>)
    ensures
        candidate_views(r@) == path_choice(fragment@, candidate_views(matches@)),
{
    let ghost ms = candidate_views(matches@);
    if matches.len() == 0 {
        let r: Vec<Candidate> = Vec::new();
        assert(candidate_views(r@) =~= path_choice(fragment@, ms));
        return r;
    }
    if matches.len() == 1 {
        let m = &matches[0];
        let rep_chars = chars_of(m.replacement.as_str());
        let is_dir = rep_chars.len() > 0 && rep_chars[rep_chars.len() - 1] == '/';
        let mut rep = m.replacement.clone();
        if !is_dir {
            push_char(&mut rep, ' ');
        }
        let mut r: Vec<Candidate> = Vec::new();
        r.push(Candidate { display: m.display.clone(), replacement: rep });
        assert(candidate_views(r@) =~= path_choice(fragment@, ms));
        return r;
    }
    let mut reps: Vec<String> = Vec::new();
    let mut i: usize = 0;
    while i < matches.len()
        invariant
            i <= matches@.len(),
            ms == candidate_views(matches@),
            reps@.len() == i,
            string_views(reps@) == ms.take(i as int).map_values(|m: (Seq<char>, Seq<char>)| m.1),
        decreases matches@.len() - i,
    {
        let ghost before = string_views(reps@);
        reps.push(matches[i].replacement.clone());
        assert(ms[i as int] == matches@[i as int]@);
        assert(reps@[i as int]@ == ms[i as int].1);
        assert(string_views(reps@) =~= before.push(ms[i as int].1));
        assert(ms.take(i + 1) =~= ms.take(i as int).push(ms[i as int]));
        assert(string_views(reps@) =~= ms.take(i + 1).map_values(|m: (Seq<char>, Seq<char>)| m.1));
        i += 1;
    }
    assert(ms.take(matches@.len() as int) =~= ms);
    let common = longest_common_prefix(reps.as_slice());
    if str_eq(common.as_str(), fragment) {
        let mut r: Vec<Candidate> = Vec::new();
        let mut j: usize = 0;
        while j < matches.len()
            invariant
                j <= matches@.len(),
                ms == candidate_views(matches@),
                candidate_views(r@) == ms.take(j as int),
            decreases matches@.len() - j,
        {
            r.push(Candidate {
                display: matches[j].display.clone(),
                replacement: matches[j].replacement.clone(),
            });
            assert(ms.take(j + 1) =~= ms.take(j as int).push(ms[j as int]));
            assert(candidate_views(r@) =~= ms.take(j + 1));
            j += 1;
        }
        return r;
    }
    let mut r: Vec<Candidate> = Vec::new();
    r.push(same_candidate(&common));
    assert(candidate_views(r@) =~= path_choice(fragment@, ms));
    r
}


/// The index of the last '/' in `f`, or -1 when there is none.
pub open spec fn last_slash(f: Seq<char>) -> int
    decreases f.len(),
{
    if f.len() == 0 {
        -1
    } else if f.last() == '/' {
        f.len() - 1
    } else {
        last_slash(f.drop_last())
    }
}

/// The directory part of a path fragment: everything up to and including its last '/'.
pub open spec fn dir_part(f: Seq<char>) -> Seq<char> {
    f.take(last_slash(f) + 1)
}

/// The file-name part of a path fragment: everything after its last '/'.
pub open spec fn name_part(f: Seq<char>) -> Seq<char> {
    f.skip(last_slash(f) + 1)
}

/// The directory to list for a directory part: a leading '~' stands for `home`, and an
/// empty directory part stands for "./".
pub open spec fn dir_to_list(dir: Seq<char>, home: Seq<char>) -> Seq<char> {
    if starts_with_char(dir, '~') {
        home + dir.drop_first()
    } else if dir.len() == 0 {
        seq!['.', '/']
    } else {
        dir
    }
}

proof fn lemma_last_slash(f: Seq<char>)
    ensures
        -1 <= last_slash(f) < f.len(),
        last_slash(f) >= 0 ==> f[last_slash(f)] == '/',
        forall|k: int| last_slash(f) < k < f.len() ==> f[k] != '/',
    decreases f.len(),
{
    if f.len() > 0 && f.last() != '/' {
        lemma_last_slash(f.drop_last());
        assert forall|k: int| last_slash(f) < k < f.len() implies f[k] != '/' by {
            if k < f.len() - 1 {
                assert(f[k] == f.drop_last()[k]);
            }
        }
    }
}

/// The index just past the last '/' of `f` (0 when there is none).
fn split_point(f: &Vec<char>) -> (k: usize)
    ensures
        k == last_slash(f@) + 1,
        k <= f@.len(),
{
    proof { lemma_last_slash(f@); }
    let mut k = f.len();
    assert(f@.take(k as int) =~= f@);
    while k > 0 && f[k - 1] != '/'
        invariant
            k <= f@.len(),
            last_slash(f@) == last_slash(f@.take(k as int)),
        decreases k,
    {
        assert(f@.take(k as int).drop_last() =~= f@.take(k - 1));
        k -= 1;
    }
    if k == 0 {
        assert(f@.take(0).len() == 0);
    } else {
        assert(f@.take(k as int).last() == '/');
    }
    k
}

/// The directory whose entries complete the path fragment `fragment`.
pub fn path_dir_to_read(fragment: &str, home: &str) -> (dir: String)
    ensures
        dir@ == dir_to_list(dir_part(fragment@), home@),
{
    let f = chars_of(fragment);
    let k = split_point(&f);
    proof { lemma_last_slash(f@); }
    if k > 0 && f[0] == '~' {
        let mut d = String::new();
        d.append(home);
        let rest = string_from_chars(&f, 1, k);
        d.append(rest.as_str());
        assert(dir_part(f@).drop_first() =~= f@.subrange(1, k as int));
        return d;
    }
    if k == 0 {
        let mut d = String::new();
        push_char(&mut d, '.');
        push_char(&mut d, '/');
        assert(d@ =~= seq!['.', '/']);
        return d;
    }
    let d = string_from_chars(&f, 0, k);
    assert(d@ =~= dir_part(f@));
    d
}

/// The candidate for a directory entry: its name (with a '/' for a directory), and the
/// directory part followed by that.
pub open spec fn entry_candidate(dir: Seq<char>, name: Seq<char>, is_dir: bool) -> (Seq<char>, Seq<char>) {
    if is_dir {
        (name.push('/'), dir + name.push('/'))
    } else {
        (name, dir + name)
    }
}

/// The candidates for the entries whose names begin with `prefix` (directories only when
/// `only_dirs`), in the order of the entries.
pub open spec fn path_matches(
    dir: Seq<char>,
    prefix: Seq<char>,
    only_dirs: bool,
    entries: Seq<(Seq<char>, bool)>,
) -> Seq<(Seq<char>, Seq<char>)>
    decreases entries.len(),
{
    if entries.len() == 0 {
        Seq::empty()
    } else {
        let rest = path_matches(dir, prefix, only_dirs, entries.drop_last());
        let e = entries.last();
        if prefix.is_prefix_of(e.0) && (!only_dirs || e.1) {
            rest.push(entry_candidate(dir, e.0, e.1))
        } else {
            rest
        }
    }
}

/// The order of path candidates: names that do not begin with '.' first, then by
/// replacement text.
pub open spec fn path_before(a: (Seq<char>, Seq<char>), b: (Seq<char>, Seq<char>)) -> bool {
    (!starts_with_char(a.0, '.') && starts_with_char(b.0, '.')) || (starts_with_char(a.0, '.')
        == starts_with_char(b.0, '.') && lex_lt(a.1, b.1))
}

proof fn lemma_path_before_trans(a: (Seq<char>, Seq<char>), b: (Seq<char>, Seq<char>), c: (Seq<char>, Seq<char>))
    requires
        path_before(a, b),
        path_before(b, c),
    ensures
        path_before(a, c),
{
    if starts_with_char(a.0, '.') == starts_with_char(b.0, '.') && starts_with_char(b.0, '.')
        == starts_with_char(c.0, '.') {
        lemma_lex_trans(a.1, b.1, c.1);
    }
}

proof fn lemma_path_before_asym(a: (Seq<char>, Seq<char>), b: (Seq<char>, Seq<char>))
    ensures
        path_before(a, b) ==> !path_before(b, a),
{
    lemma_lex_asym(a.1, b.1);
}

/// The views of directory entries given as (name, is-directory).
pub open spec fn entry_views(v: Seq<(String, bool)>) -> Seq<(Seq<char>, bool)> {
    v.map_values(|e: (String, bool)| (e.0@, e.1))
}

/// The candidates for completing the path fragment `fragment` from the entries of its
/// directory, sorted with names beginning with '.' last and otherwise by replacement text.
pub fn complete_path(fragment: &str, only_dirs: bool, entries: &Vec<(String, bool)>) -> (r: Vec<Candidate>)
    ensures
        candidate_views(r@).to_multiset() == path_matches(
            dir_part(fragment@),
            name_part(fragment@),
            only_dirs,
            entry_views(entries@),
        ).to_multiset(),
        forall|a: int, b: int|
            0 <= a < b < r@.len() ==> !path_before(#[trigger] r@[b]@, #[trigger] r@[a]@),
{
    let f = chars_of(fragment);
    let k = split_point(&f);
    let dir = string_from_chars(&f, 0, k);
    let prefix = chars_of(string_from_chars(&f, k, f.len()).as_str());
    let ghost d = dir_part(fragment@);
    let ghost pre = name_part(fragment@);
    assert(dir@ =~= d);
    assert(prefix@ =~= pre);
    let ghost ev = entry_views(entries@);
    let mut found: Vec<Candidate> = Vec::new();
    let mut i: usize = 0;
    assert(ev.take(0) =~= Seq::<(Seq<char>, bool)>::empty());
    while i < entries.len()
        invariant
            i <= entries@.len(),
            ev == entry_views(entries@),
            dir@ == d,
            prefix@ == pre,
            candidate_views(found@) == path_matches(d, pre, only_dirs, ev.take(i as int)),
        decreases entries@.len() - i,
    {
        let name = &entries[i].0;
        let is_dir = entries[i].1;
        let name_chars = chars_of(name.as_str());
        assert(ev.take(i + 1).drop_last() =~= ev.take(i as int));
        assert(ev[i as int] == (name@, is_dir));
        if chars_start_with(&name_chars, &prefix) && (!only_dirs || is_dir) {
            let mut display = name.clone();
            if is_dir {
                push_char(&mut display, '/');
            }
            let mut replacement = dir.clone();
            replacement.append(display.as_str());
            let ghost before = candidate_views(found@);
            found.push(Candidate { display, replacement });
            assert(candidate_views(found@) =~= before.push(entry_candidate(d, name@, is_dir)));
        }
        i += 1;
    }
    assert(ev.take(entries@.len() as int) =~= ev);
    sort_candidates(found)
}

/// Whether the candidate's display text begins with '.'.
fn is_hidden(c: &Candidate) -> (h: bool)
    ensures
        h == starts_with_char(c.display@, '.'),
{
    let d = chars_of(c.display.as_str());
    d.len() > 0 && d[0] == '.'
}

/// Sorts candidates by `path_before` (stable).
fn sort_candidates(v: Vec<Candidate>) -> (r: Vec<Candidate>)
    ensures
        candidate_views(r@).to_multiset() == candidate_views(v@).to_multiset(),
        forall|a: int, b: int|
            0 <= a < b < r@.len() ==> !path_before(#[trigger] r@[b]@, #[trigger] r@[a]@),
{
    broadcast use vstd::seq_lib::group_to_multiset_ensures;
    let ghost vv = candidate_views(v@);
    let mut r: Vec<Candidate> = Vec::new();
    let mut i: usize = 0;
    assert(vv.take(0) =~= Seq::<(Seq<char>, Seq<char>)>::empty());
    assert(candidate_views(r@) =~= Seq::<(Seq<char>, Seq<char>)>::empty());
    while i < v.len()
        invariant
            i <= v@.len(),
            vv == candidate_views(v@),
            candidate_views(r@).to_multiset() == vv.take(i as int).to_multiset(),
            forall|a: int, b: int|
                0 <= a < b < r@.len() ==> !path_before(#[trigger] r@[b]@, #[trigger] r@[a]@),
        decreases v@.len() - i,
    {
        let x = Candidate { display: v[i].display.clone(), replacement: v[i].replacement.clone() };
        assert(x@ == vv[i as int]);
        let hx = is_hidden(&x);
        let kx = chars_of(x.replacement.as_str());
        let mut p: usize = 0;
        while p < r.len() && !(
            (!hx && is_hidden(&r[p])) || (hx == is_hidden(&r[p]) && lex_less(&kx, &chars_of(r[p].replacement.as_str())))
        )
            invariant
                p <= r@.len(),
                hx == starts_with_char(x@.0, '.'),
                kx@ == x@.1,
                forall|k: int| 0 <= k < p ==> !path_before(x@, #[trigger] r@[k]@),
            decreases r@.len() - p,
        {
            p += 1;
        }
        let ghost old_r = r@;
        let ghost old_views = candidate_views(r@);
        proof {
            assert forall|b: int| p <= b < old_r.len() implies !path_before(#[trigger] old_r[b]@, x@) by {
                assert(path_before(x@, old_r[p as int]@));
                if path_before(old_r[b]@, x@) {
                    lemma_path_before_trans(old_r[b]@, x@, old_r[p as int]@);
                    if b == p {
                        lemma_path_before_asym(old_r[b]@, old_r[b]@);
                    }
                }
            }
            lemma_insert_multiset(old_views, p as int, x@);
            vstd::seq_lib::to_multiset_build(vv.take(i as int), x@);
            assert(vv.take(i + 1) =~= vv.take(i as int).push(x@));
        }
        let ghost xv = x@;
        r.insert(p, x);
        proof {
            assert(candidate_views(r@) =~= old_views.insert(p as int, xv));
            assert(candidate_views(r@).to_multiset() =~= vv.take(i + 1).to_multiset());
            assert forall|a: int, b: int| 0 <= a < b < r@.len() implies !path_before(
                #[trigger] r@[b]@,
                #[trigger] r@[a]@,
            ) by {
                if b < p {
                    assert(r@[a] == old_r[a] && r@[b] == old_r[b]);
                } else if b == p {
                    assert(r@[a] == old_r[a]);
                } else if a == p {
                    assert(r@[b] == old_r[b - 1]);
                } else if a < p {
                    assert(r@[a] == old_r[a] && r@[b] == old_r[b - 1]);
                } else {
                    assert(r@[a] == old_r[a - 1] && r@[b] == old_r[b - 1]);
                }
            }
        }
        i += 1;
    }
    assert(vv.take(v@.len() as int) =~= vv);
    r
}


/// What the word under the cursor is completed as.
pub enum CompletionTarget {
    /// A command name: builtins and executables on the search path.
    Command { word_start: usize, fragment: String },
    /// A path, restricted to directories when the command is `cd`.
    Path { word_start: usize, fragment: String, only_dirs: bool },
}

/// Whether the word under the cursor is completed as a command name: it is the first word
/// and does not begin with '.', '/' or '~'.
pub open spec fn completes_command(words: Seq<Seq<char>>, frag: Seq<char>) -> bool {
    words.len() == 0 && !starts_with_char(frag, '.') && !starts_with_char(frag, '/')
        && !starts_with_char(frag, '~')
}

/// Whether path completion is restricted to directories: the command is `cd`.
pub open spec fn completes_dirs_only(words: Seq<Seq<char>>) -> bool {
    words.len() > 0 && words[0] == seq!['c', 'd']
}

/// Decides how to complete the word under the cursor at byte `pos` of `line`.
pub fn completion_target(line: &str, pos: usize) -> (t: CompletionTarget)
    requires
        line.is_char_boundary(pos),
    ensures
        ({
            let (ws, words, frag) = completion_scan(line@, pos as int);
            match t {
                CompletionTarget::Command { word_start, fragment } => completes_command(words, frag)
                    && word_start == ws && fragment@ == frag,
                CompletionTarget::Path { word_start, fragment, only_dirs } => !completes_command(
                    words,
                    frag,
                ) && word_start == ws && fragment@ == frag && only_dirs == completes_dirs_only(words),
            }
        }),
{
    let (word_start, words, fragment, is_command_position) = get_completion_context(line, pos);
    let ghost scan = completion_scan(line@, pos as int);
    let f = chars_of(fragment.as_str());
    let special = f.len() > 0 && (f[0] == '.' || f[0] == '/' || f[0] == '~');
    if is_command_position && !special {
        assert(string_views(words@) =~= scan.1);
        return CompletionTarget::Command { word_start, fragment };
    }
    let mut only_dirs = false;
    if words.len() > 0 {
        let w0 = chars_of(words[0].as_str());
        only_dirs = w0.len() == 2 && w0[0] == 'c' && w0[1] == 'd';
        assert(only_dirs == (w0@ =~= seq!['c', 'd']));
    }
    CompletionTarget::Path { word_start, fragment, only_dirs }
}

/// A reordering of a sequence of strings with pairwise different texts has no repeated element.
proof fn lemma_no_duplicate_in_perm(found: Seq<String>, r: Seq<String>)
    requires
        forall|a: int, b: int| 0 <= a < b < found.len() ==> (#[trigger] found[a])@ != (#[trigger] found[b])@,
        r.to_multiset() == found.to_multiset(),
    ensures
        r.no_duplicates(),
{
    assert forall|a: int, b: int| 0 <= a < found.len() && 0 <= b < found.len() && a != b implies found[a]
        != found[b] by {
        if a < b {
            assert(found[a]@ != found[b]@);
        } else {
            assert(found[b]@ != found[a]@);
        }
    }
    assert(found.no_duplicates());
    found.lemma_multiset_has_no_duplicates();
    r.lemma_multiset_has_no_duplicates_conv();
}

/// How long the executable list stays fresh, in nanoseconds.
pub const REFRESH_INTERVAL_NS: u64 = 30_000_000_000;

/// Whether a directory entry with permission bits `mode` is listed as an executable:
/// some execute bit is set and it is a regular file.
pub open spec fn is_executable_entry(mode: u32, is_file: bool) -> bool {
    (mode & 0o111u32) != 0u32 && is_file
}

/// The views of directory entries given as (name, permission bits, is-regular-file).
pub open spec fn exec_entry_views(v: Seq<(String, u32, bool)>) -> Seq<(Seq<char>, u32, bool)> {
    v.map_values(|e: (String, u32, bool)| (e.0@, e.1, e.2))
}

/// The command names a cache built from `builtins` and `entries` holds.
pub open spec fn command_names(builtins: Seq<Seq<char>>, entries: Seq<(Seq<char>, u32, bool)>) -> Set<Seq<char>> {
    Set::new(
        |w: Seq<char>|
            (exists|i: int| 0 <= i < builtins.len() && builtins[i] == w) || (exists|i: int|
                0 <= i < entries.len() && entries[i].0 == w && is_executable_entry(
                    entries[i].1,
                    entries[i].2,
                )),
    )
}

/// The command names found on the search path, with the search path and the time they
/// were gathered.
pub struct PathCache {
    trie: Trie,
    cached_path: String,
    last_updated: Option<u64>,
}

impl PathCache {
    /// The cache is well formed.
    pub closed spec fn wf(&self) -> bool {
        self.trie.wf()
    }

    /// The command names held.
    pub closed spec fn names(&self) -> Set<Seq<char>> {
        self.trie.words()
    }

    /// The search path the names were gathered from.
    pub closed spec fn path(&self) -> Seq<char> {
        self.cached_path@
    }

    /// When the names were gathered, if ever.
    pub closed spec fn stamp(&self) -> Option<u64> {
        self.last_updated
    }

    /// Whether the names must be gathered again at time `now` (nanoseconds on a monotonic
    /// clock) for the search path `path`: the path changed, or they were never gathered, or
    /// more than the refresh interval passed.
    pub open spec fn is_stale(&self, path: Seq<char>, now: u64) -> bool {
        path != self.path() || match self.stamp() {
            None => true,
            Some(t) => now > t && now - t > REFRESH_INTERVAL_NS,
        }
    }

    /// An empty cache that has never been filled.
    pub fn new() -> (c: PathCache)
        ensures
            c.wf(),
            c.names() == Set::<Seq<char>>::empty(),
            c.path() == Seq::<char>::empty(),
            c.stamp() == None::<u64>,
    {
        PathCache { trie: Trie::new(), cached_path: String::new(), last_updated: None }
    }

    /// Whether the names must be gathered again (see `is_stale`).
    pub fn needs_refresh(&self, current_path: &str, now: u64) -> (r: bool)
        ensures
            r == self.is_stale(current_path@, now),
    {
        if !str_eq(current_path, self.cached_path.as_str()) {
            return true;
        }
        match self.last_updated {
            None => true,
            Some(t) => now > t && now - t > REFRESH_INTERVAL_NS,
        }
    }

    /// Brings the names up to date: when stale, they become `builtins` and the executable
    /// entries of the search path (as gathered by the caller), stamped with `path` and `now`;
    /// otherwise nothing changes.
    pub fn get_executables(
        &mut self,
        builtins: &[&str],
        current_path: &str,
        now: u64,
        entries: &Vec<(String, u32, bool)>,
    )
        requires
            old(self).wf(),
        ensures
            final(self).wf(),
            old(self).is_stale(current_path@, now) ==> final(self).names() == command_names(
                builtins@.map_values(|b: &str| b@),
                exec_entry_views(entries@),
            ) && final(self).path() == current_path@ && final(self).stamp() == Some(now),
            !old(self).is_stale(current_path@, now) ==> *final(self) == *old(self),
    {
        if !self.needs_refresh(current_path, now) {
            return;
        }
        let ghost bs = builtins@.map_values(|b: &str| b@);
        let ghost es = exec_entry_views(entries@);
        let mut trie = Trie::new();
        let mut i: usize = 0;
        while i < builtins.len()
            invariant
                bs == builtins@.map_values(|b: &str| b@),
                i <= builtins@.len(),
                trie.wf(),
                trie.words() == command_names(bs.take(i as int), Seq::empty()),
            decreases builtins@.len() - i,
        {
            trie.insert(builtins[i]);
            proof {
                assert(bs[i as int] == builtins@[i as int]@);
                let t1 = bs.take(i + 1);
                let t0 = bs.take(i as int);
                assert forall|w: Seq<char>| #[trigger] trie.words().contains(w) == command_names(
                    t1,
                    Seq::empty(),
                ).contains(w) by {
                    if w == bs[i as int] {
                        assert(t1[i as int] == w);
                    }
                    if exists|k: int| 0 <= k < i + 1 && #[trigger] t1[k] == w {
                        let k = choose|k: int| 0 <= k < i + 1 && #[trigger] t1[k] == w;
                        if k < i {
                            assert(t0[k] == w);
                        }
                    }
                    if exists|k: int| 0 <= k < i && #[trigger] t0[k] == w {
                        let k = choose|k: int| 0 <= k < i && #[trigger] t0[k] == w;
                        assert(t1[k] == w);
                    }
                }
                assert(trie.words() =~= command_names(bs.take(i + 1), Seq::empty()));
            }
            i += 1;
        }
        assert(bs.take(builtins@.len() as int) =~= bs);
        let mut j: usize = 0;
        while j < entries.len()
            invariant
                bs == builtins@.map_values(|b: &str| b@),
                es == exec_entry_views(entries@),
                j <= entries@.len(),
                trie.wf(),
                trie.words() == command_names(bs, es.take(j as int)),
            decreases entries@.len() - j,
        {
            let mode = entries[j].1;
            let is_file = entries[j].2;
            let executable = (mode & 0o111) != 0 && is_file;
            if executable {
                trie.insert(entries[j].0.as_str());
            }
            proof {
                assert(es[j as int] == (entries@[j as int].0@, mode, is_file));
                let t1 = es.take(j + 1);
                let t0 = es.take(j as int);
                assert forall|w: Seq<char>| #[trigger] trie.words().contains(w) == command_names(
                    bs,
                    t1,
                ).contains(w) by {
                    if executable && w == es[j as int].0 {
                        assert(t1[j as int] == es[j as int]);
                    }
                    if exists|k: int|
                        0 <= k < j + 1 && (#[trigger] t1[k]).0 == w && is_executable_entry(t1[k].1, t1[k].2) {
                        let k = choose|k: int|
                            0 <= k < j + 1 && (#[trigger] t1[k]).0 == w && is_executable_entry(t1[k].1, t1[k].2);
                        if k < j {
                            assert(t0[k] == t1[k]);
                        }
                    }
                    if exists|k: int|
                        0 <= k < j && (#[trigger] t0[k]).0 == w && is_executable_entry(t0[k].1, t0[k].2) {
                        let k = choose|k: int|
                            0 <= k < j && (#[trigger] t0[k]).0 == w && is_executable_entry(t0[k].1, t0[k].2);
                        assert(t1[k] == t0[k]);
                    }
                }
                assert(trie.words() =~= command_names(bs, es.take(j + 1)));
            }
            j += 1;
        }
        assert(es.take(entries@.len() as int) =~= es);
        self.trie = trie;
        self.cached_path = String::from_str(current_path);
        self.last_updated = Some(now);
    }

    /// The held names that begin with `prefix`, each once, sorted.
    pub fn sorted_names_with_prefix(&self, prefix: &str) -> (r: Vec<String>)
        requires
            self.wf(),
        ensures
            forall|a: int, b: int|
                0 <= a < b < r@.len() ==> lex_lt(#[trigger] r@[a]@, #[trigger] r@[b]@),
            forall|a: int|
                0 <= a < r@.len() ==> self.names().contains((#[trigger] r@[a])@)
                    && prefix@.is_prefix_of(r@[a]@),
            forall|w: Seq<char>|
                #[trigger] self.names().contains(w) && prefix@.is_prefix_of(w) ==> exists|a: int|
                    0 <= a < r@.len() && (#[trigger] r@[a])@ == w,
    {
        broadcast use vstd::seq_lib::group_to_multiset_ensures;
        let found = self.trie.get_words_with_prefix(prefix);
        let r = sort_strings(found);
        proof {
            assert forall|a: int| 0 <= a < r@.len() implies exists|x: int|
                0 <= x < found@.len() && found@[x] == #[trigger] r@[a] by {
                assert(r@.to_multiset().count(r@[a]) > 0);
                assert(found@.contains(r@[a]));
            }
            assert forall|x: int| 0 <= x < found@.len() implies exists|a: int|
                0 <= a < r@.len() && r@[a] == #[trigger] found@[x] by {
                assert(found@.to_multiset().count(found@[x]) > 0);
                assert(r@.contains(found@[x]));
            }
            assert forall|a: int, b: int| 0 <= a < b < r@.len() implies lex_lt(
                #[trigger] r@[a]@,
                #[trigger] r@[b]@,
            ) by {
                assert(!lex_lt(r@[b]@, r@[a]@));
                crate::order::lemma_lex_total(r@[a]@, r@[b]@);
                if r@[a]@ == r@[b]@ {
                    let xa = choose|x: int| 0 <= x < found@.len() && found@[x] == r@[a];
                    let xb = choose|x: int| 0 <= x < found@.len() && found@[x] == r@[b];
                    if xa == xb {
                        // the same element of `found` cannot appear twice in a permutation
                        lemma_no_duplicate_in_perm(found@, r@);
                        assert(r@[a] != r@[b]);
                    } else if xa < xb {
                        assert(found@[xa]@ != found@[xb]@);
                    } else {
                        assert(found@[xb]@ != found@[xa]@);
                    }
                }
            }
            assert forall|w: Seq<char>|
                #[trigger] self.names().contains(w) && prefix@.is_prefix_of(w) implies exists|a: int|
                0 <= a < r@.len() && (#[trigger] r@[a])@ == w by {
                let x = choose|x: int| 0 <= x < found@.len() && (#[trigger] found@[x])@ == w;
                let a = choose|a: int| 0 <= a < r@.len() && r@[a] == #[trigger] found@[x];
                assert(r@[a]@ == w);
            }
        }
        r
    }
}


/// The pieces of `s` between the separator characters `sep` (`str::split` with a char):
/// there is always at least one piece, and empty pieces are kept.
pub open spec fn split_on(s: Seq<char>, sep: char) -> Seq<Seq<char>>
    decreases s.len(),
{
    if s.len() == 0 {
        seq![Seq::empty()]
    } else {
        let rest = split_on(s.drop_last(), sep);
        if s.last() == sep {
            rest.push(Seq::empty())
        } else {
            rest.update(rest.len() - 1, rest.last().push(s.last()))
        }
    }
}

proof fn lemma_split_on_nonempty(s: Seq<char>, sep: char)
    ensures
        split_on(s, sep).len() >= 1,
    decreases s.len(),
{
    if s.len() > 0 {
        lemma_split_on_nonempty(s.drop_last(), sep);
    }
}

/// The directories of a `PATH` value: the pieces between ':' separators.
pub fn path_dirs(path: &str) -> (dirs: Vec<String>)
    ensures
        dirs@.len() == split_on(path@, ':').len(),
        forall|i: int| 0 <= i < dirs@.len() ==> (#[trigger] dirs@[i])@ == split_on(path@, ':')[i],
{
    let c = chars_of(path);
    let mut dirs: Vec<String> = Vec::new();
    let mut start: usize = 0;
    let mut i: usize = 0;
    assert(c@.take(0) =~= Seq::<char>::empty());
    while i < c.len()
        invariant
            c@ == path@,
            start <= i <= c@.len(),
            split_on(c@.take(i as int), ':').len() == dirs@.len() + 1,
            forall|k: int| 0 <= k < dirs@.len() ==> (#[trigger] dirs@[k])@ == split_on(c@.take(i as int), ':')[k],
            split_on(c@.take(i as int), ':').last() == c@.subrange(start as int, i as int),
        decreases c@.len() - i,
    {
        let ghost t = c@.take(i as int);
        let ghost t1 = c@.take(i + 1);
        assert(t1.drop_last() =~= t);
        assert(t1.last() == c@[i as int]);
        proof { lemma_split_on_nonempty(t, ':'); }
        if c[i] == ':' {
            let piece = string_from_chars(&c, start, i);
            dirs.push(piece);
            start = i + 1;
            assert(c@.subrange(start as int, i + 1) =~= Seq::<char>::empty());
        } else {
            assert(c@.subrange(start as int, i + 1) =~= c@.subrange(start as int, i as int).push(c@[i as int]));
        }
        i += 1;
    }
    assert(c@.take(c@.len() as int) =~= c@);
    dirs.push(string_from_chars(&c, start, c.len()));
    dirs
}

/// The builtin command names offered for completion.
pub open spec fn completion_builtins() -> Seq<Seq<char>> {
    seq!["echo"@, "type"@, "exit"@, "pwd"@, "cd"@, "history"@, "cat"@]
}

/// Completes command names from the builtins and the executables found on the search path.
pub struct BuiltinCompleter {
    cache: PathCache,
}

impl BuiltinCompleter {
    /// The completer is well formed.
    pub closed spec fn wf(&self) -> bool {
        self.cache.wf()
    }

    /// The command names it holds.
    pub closed spec fn names(&self) -> Set<Seq<char>> {
        self.cache.names()
    }

    /// Whether the names are stale at time `now` for the search path `path` (see
    /// `PathCache::is_stale`).
    pub closed spec fn is_stale(&self, path: Seq<char>, now: u64) -> bool {
        self.cache.is_stale(path, now)
    }

    /// A completer whose names have never been gathered.
    pub fn new() -> (c: BuiltinCompleter)
        ensures
            c.wf(),
            c.names() == Set::<Seq<char>>::empty(),
            forall|path: Seq<char>, now: u64| #[trigger] c.is_stale(path, now),
    {
        BuiltinCompleter { cache: PathCache::new() }
    }

    /// Whether the executables on the search path must be gathered again before completing.
    pub fn needs_refresh(&self, current_path: &str, now: u64) -> (r: bool)
        ensures
            r == self.is_stale(current_path@, now),
    {
        self.cache.needs_refresh(current_path, now)
    }

    /// The command names that begin with `fragment`, sorted, each once. When the names are
    /// stale (see `needs_refresh`), they are first rebuilt from the builtins and `entries`,
    /// the entries of the search path's directories as (name, permission bits, is-file).
    pub fn command_matches(
        &mut self,
        fragment: &str,
        current_path: &str,
        now: u64,
        entries: &Vec<(String, u32, bool)>,
    ) -> (r: Vec<String>)
        requires
            old(self).wf(),
        ensures
            final(self).wf(),
            old(self).is_stale(current_path@, now) ==> final(self).names() == command_names(
                completion_builtins(),
                exec_entry_views(entries@),
            ) && !final(self).is_stale(current_path@, now),
            !old(self).is_stale(current_path@, now) ==> *final(self) == *old(self),
            forall|a: int, b: int|
                0 <= a < b < r@.len() ==> lex_lt(#[trigger] r@[a]@, #[trigger] r@[b]@),
            forall|a: int|
                0 <= a < r@.len() ==> final(self).names().contains((#[trigger] r@[a])@)
                    && fragment@.is_prefix_of(r@[a]@),
            forall|w: Seq<char>|
                #[trigger] final(self).names().contains(w) && fragment@.is_prefix_of(w) ==> exists|a: int|
                    0 <= a < r@.len() && (#[trigger] r@[a])@ == w,
    {
        let builtins: [&str; 7] = ["echo", "type", "exit", "pwd", "cd", "history", "cat"];
        let b = builtins.as_slice();
        assert(b@.map_values(|x: &str| x@) =~= completion_builtins());
        self.cache.get_executables(b, current_path, now, entries);
        self.cache.sorted_names_with_prefix(fragment)
    }
}

} // verus!

verus! {

/// Command completion never drops what was typed: when every name offered begins with the
/// fragment, so does every replacement.
pub proof fn law_command_completion_keeps_fragment(frag: Seq<char>, ms: Seq<Seq<char>>)
    requires
        forall|i: int| 0 <= i < ms.len() ==> frag.is_prefix_of(#[trigger] ms[i]),
    ensures
        forall|i: int|
            0 <= i < command_choice(frag, ms).len() ==> frag.is_prefix_of(
                (#[trigger] command_choice(frag, ms)[i]).1,
            ),
{
    if ms.len() == 1 {
        assert(frag.is_prefix_of(ms[0]));
        assert(frag =~= ms[0].push(' ').subrange(0, frag.len() as int));
    } else if ms.len() > 1 && common_prefix(ms) != frag {
        law_longest_common_prefix(ms);
        assert(prefix_of_first(ms, ms.len() as int, frag));
        let p = common_prefix(ms);
        assert(p.is_prefix_of(ms[0]) && frag.is_prefix_of(ms[0]));
        assert(frag =~= p.subrange(0, frag.len() as int)) by {
            assert forall|k: int| 0 <= k < frag.len() implies frag[k] == p[k] by {
                assert(ms[0].subrange(0, frag.len() as int)[k] == ms[0][k]);
                assert(ms[0].subrange(0, p.len() as int)[k] == ms[0][k]);
            }
        }
    }
}

/// Path completion never drops what was typed: when every candidate's replacement begins
/// with the fragment, so does every replacement offered.
pub proof fn law_path_completion_keeps_fragment(frag: Seq<char>, ms: Seq<(Seq<char>, Seq<char>)>)
    requires
        forall|i: int| 0 <= i < ms.len() ==> frag.is_prefix_of((#[trigger] ms[i]).1),
    ensures
        forall|i: int|
            0 <= i < path_choice(frag, ms).len() ==> frag.is_prefix_of((#[trigger] path_choice(frag, ms)[i]).1),
{
    let reps = ms.map_values(|m: (Seq<char>, Seq<char>)| m.1);
    if ms.len() == 1 {
        assert(frag.is_prefix_of(ms[0].1));
        assert(frag =~= ms[0].1.push(' ').subrange(0, frag.len() as int));
    } else if ms.len() > 1 && common_prefix(reps) != frag {
        law_longest_common_prefix(reps);
        assert forall|i: int| 0 <= i < ms.len() implies frag.is_prefix_of(#[trigger] reps[i]) by {
            assert(frag.is_prefix_of(ms[i].1));
        }
        assert(prefix_of_first(reps, reps.len() as int, frag));
        let p = common_prefix(reps);
        assert(p.is_prefix_of(reps[0]) && frag.is_prefix_of(reps[0]));
        assert(frag =~= p.subrange(0, frag.len() as int)) by {
            assert forall|k: int| 0 <= k < frag.len() implies frag[k] == p[k] by {
                assert(reps[0].subrange(0, frag.len() as int)[k] == reps[0][k]);
                assert(reps[0].subrange(0, p.len() as int)[k] == reps[0][k]);
            }
        }
    }
}

/// Every path candidate's replacement begins with the fragment it completes.
pub proof fn law_path_candidates_extend_fragment(f: Seq<char>, only_dirs: bool, entries: Seq<(Seq<char>, bool)>)
    ensures
        forall|i: int|
            0 <= i < path_matches(dir_part(f), name_part(f), only_dirs, entries).len() ==> f.is_prefix_of(
                (#[trigger] path_matches(dir_part(f), name_part(f), only_dirs, entries)[i]).1,
            ),
    decreases entries.len(),
{
    if entries.len() > 0 {
        law_path_candidates_extend_fragment(f, only_dirs, entries.drop_last());
        lemma_last_slash(f);
        let d = dir_part(f);
        let pre = name_part(f);
        assert(f =~= d + pre);
        let e = entries.last();
        if pre.is_prefix_of(e.0) && (!only_dirs || e.1) {
            let c = entry_candidate(d, e.0, e.1);
            let name = if e.1 { e.0.push('/') } else { e.0 };
            assert(c.1 == d + name);
            assert forall|k: int| 0 <= k < pre.len() implies name[k] == pre[k] by {
                assert(e.0.subrange(0, pre.len() as int)[k] == e.0[k]);
            }
            assert(f =~= c.1.subrange(0, f.len() as int));
            let rest = path_matches(d, pre, only_dirs, entries.drop_last());
            let all = path_matches(d, pre, only_dirs, entries);
            assert(all == rest.push(c));
            assert forall|i: int| 0 <= i < all.len() implies f.is_prefix_of((#[trigger] all[i]).1) by {
                if i < rest.len() {
                    assert(all[i] == rest[i]);
                }
            }
        }
    }
}

} // verus!

verus! {

/// A word under the cursor that begins with '.', '/' or '~' is completed as a path, never as
/// a command name, whether or not it is the first word; every later word is completed as a
/// path; a first word that begins otherwise (or is empty) is completed as a command name.
/// Path completion is restricted to directories exactly when the command is `cd`.
pub proof fn law_completion_kind(words: Seq<Seq<char>>, frag: Seq<char>)
    ensures
        frag.len() > 0 && (frag[0] == '.' || frag[0] == '/' || frag[0] == '~') ==> !completes_command(
            words,
            frag,
        ),
        words.len() > 0 ==> !completes_command(words, frag),
        words.len() == 0 && (frag.len() == 0 || (frag[0] != '.' && frag[0] != '/' && frag[0] != '~'))
            ==> completes_command(words, frag),
        completes_dirs_only(words) <==> (words.len() > 0 && words[0] == "cd"@),
{
    reveal_strlit("cd");
    assert("cd"@ =~= seq!['c', 'd']);
}

} // verus!
