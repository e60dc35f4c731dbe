use vstd::prelude::*;
use crate::parser::is_blank;
use crate::text::{chars_of, char_width, string_from_chars, utf8_len, utf8_width, lemma_boundary_step, lemma_utf8_len_push};

verus! {

/// The completion scan over the characters of `s` that start before byte `pos`: `off` is the
/// byte offset of `s[i]`; the state is the finished words, the word being typed, the byte
/// offset where that word starts, the two quoting flags and a pending backslash.
/// The result is (word start, finished words, current word).
pub open spec fn ctx_scan(
    s: Seq<char>,
    i: int,
    off: int,
    pos: int,
    words: Seq<Seq<char>>,
    cur: Seq<char>,
    start: int,
    sq: bool,
    dq: bool,
    esc: bool,
) -> (int, Seq<Seq<char>>, Seq<char>)
    decreases s.len() - i,
{
    if i < 0 || i >= s.len() || off >= pos {
        (start, words, cur)
    } else {
        let c = s[i];
        let next = off + utf8_width(c);
        if esc {
            ctx_scan(s, i + 1, next, pos, words, cur.push(c), start, sq, dq, false)
        } else if c == '\\' && !sq {
            ctx_scan(s, i + 1, next, pos, words, cur, start, sq, dq, true)
        } else if c == '\'' && !dq {
            ctx_scan(s, i + 1, next, pos, words, cur.push(c), start, !sq, dq, false)
        } else if c == '"' && !sq {
            ctx_scan(s, i + 1, next, pos, words, cur.push(c), start, sq, !dq, false)
        } else if is_blank(c) && !sq && !dq {
            if cur.len() > 0 {
                ctx_scan(s, i + 1, next, pos, words.push(cur), Seq::empty(), next, sq, dq, false)
            } else {
                ctx_scan(s, i + 1, next, pos, words, cur, next, sq, dq, false)
            }
        } else {
            ctx_scan(s, i + 1, next, pos, words, cur.push(c), start, sq, dq, false)
        }
    }
}

/// What the completer needs to know of `line[..pos]`: the byte offset where the word under
/// the cursor starts, the words before it, and the word itself (quotes kept, escapes resolved).
pub open spec fn completion_scan(s: Seq<char>, pos: int) -> (int, Seq<Seq<char>>, Seq<char>) {
    ctx_scan(s, 0, 0, pos, Seq::empty(), Seq::empty(), 0, false, false, false)
}

/// Splits the text before the cursor into the finished words and the word being completed.
/// Returns (byte offset where the current word starts, finished words, current word,
/// whether the current word is the command name, i.e. there are no finished words).
pub fn get_completion_context(line: &str, pos: usize) -> (res: (usize, Vec<String>, String, bool))
    requires
        line.is_char_boundary(pos),
    ensures
        res.0 == completion_scan(line@, pos as int).0,
        res.1@.len() == completion_scan(line@, pos as int).1.len(),
        forall|j: int|
            0 <= j < res.1@.len() ==> #[trigger] res.1@[j]@ == completion_scan(line@, pos as int).1[j],
        res.2@ == completion_scan(line@, pos as int).2,
        res.3 == (res.1@.len() == 0),
        res.0 <= pos,
{
    let s = chars_of(line);
    let n = s.len();
    let ghost total = completion_scan(s@, pos as int);
    let mut words: Vec<Vec<char>> = Vec::new();
    let mut cur: Vec<char> = Vec::new();
    let mut word_start: usize = 0;
    let mut sq = false;
    let mut dq = false;
    let mut escaped = false;
    let mut off: usize = 0;
    let mut i: usize = 0;
    assert(words@.map_values(|t: Vec<char>| t@) =~= Seq::<Seq<char>>::empty());
    assert(cur@ =~= Seq::<char>::empty());
    assert(s@.take(0) =~= Seq::<char>::empty());
    assert(vstd::utf8::encode_utf8(Seq::<char>::empty()).len() == 0);
    while i < n && off < pos
        invariant
            n == s@.len(),
            s@ == line@,
            vstd::utf8::is_char_boundary(vstd::utf8::encode_utf8(s@), pos as int),
            i <= n,
            off == utf8_len(s@.take(i as int)),
            off <= pos,
            word_start <= pos,
            ctx_scan(
                s@,
                i as int,
                off as int,
                pos as int,
                words@.map_values(|t: Vec<char>| t@),
                cur@,
                word_start as int,
                sq,
                dq,
                escaped,
            ) == total,
        decreases n - i,
    {
        let ghost toks = words@.map_values(|t: Vec<char>| t@);
        let c = s[i];
        let w = char_width(c);
        proof {
            lemma_boundary_step(s@, pos as int, i as int);
            assert(s@.take(i + 1) =~= s@.take(i as int).push(c));
            lemma_utf8_len_push(s@.take(i as int), c);
        }
        let next = off + w;
        if escaped {
            cur.push(c);
            escaped = false;
        } else if c == '\\' && !sq {
            escaped = true;
        } else if c == '\'' && !dq {
            sq = !sq;
            cur.push(c);
        } else if c == '"' && !sq {
            dq = !dq;
            cur.push(c);
        } else if (c == ' ' || c == '\t') && !sq && !dq {
            if cur.len() > 0 {
                let done = cur;
                words.push(done);
                cur = Vec::new();
                assert(words@.map_values(|t: Vec<char>| t@) =~= toks.push(done@));
                assert(cur@ =~= Seq::<char>::empty());
            }
            word_start = next;
        } else {
            cur.push(c);
        }
        off = next;
        i += 1;
    }
    let ghost toks = words@.map_values(|t: Vec<char>| t@);
    assert(toks == total.1);
    let mut out: Vec<String> = Vec::new();
    let mut j: usize = 0;
    while j < words.len()
        invariant
            j <= words@.len(),
            toks == words@.map_values(|t: Vec<char>| t@),
            out@.len() == j,
            forall|m: int| 0 <= m < j ==> #[trigger] out@[m]@ == toks[m],
        decreases words@.len() - j,
    {
        out.push(string_from_chars(&words[j], 0, words[j].len()));
        assert(words@[j as int]@.subrange(0, words@[j as int]@.len() as int) =~= words@[j as int]@);
        j += 1;
    }
    let current = string_from_chars(&cur, 0, cur.len());
    assert(cur@.subrange(0, cur@.len() as int) =~= cur@);
    let is_command_position = out.len() == 0;
    (word_start, out, current, is_command_position)
}

} // verus!

verus! {

/// Scanning `s` from position `i` up to byte `pos` gives the same as scanning `s.take(k)`,
/// when `pos` is the byte length of `s.take(k)`.
proof fn lemma_scan_cut(
    s: Seq<char>,
    k: int,
    i: int,
    off: int,
    pos: int,
    words: Seq<Seq<char>>,
    cur: Seq<char>,
    start: int,
    sq: bool,
    dq: bool,
    esc: bool,
)
    requires
        0 <= i <= k <= s.len(),
        off == utf8_len(s.take(i)),
        pos == utf8_len(s.take(k)),
    ensures
        ctx_scan(s, i, off, pos, words, cur, start, sq, dq, esc) == ctx_scan(
            s.take(k),
            i,
            off,
            pos,
            words,
            cur,
            start,
            sq,
            dq,
            esc,
        ),
    decreases k - i,
{
    if i < k && off < pos {
        let t = s.take(k);
        let c = s[i];
        assert(t[i] == c);
        assert(s.take(i + 1) =~= s.take(i).push(c));
        lemma_utf8_len_push(s.take(i), c);
        let next = off + utf8_width(c);
        if esc {
            lemma_scan_cut(s, k, i + 1, next, pos, words, cur.push(c), start, sq, dq, false);
        } else if c == '\\' && !sq {
            lemma_scan_cut(s, k, i + 1, next, pos, words, cur, start, sq, dq, true);
        } else if c == '\'' && !dq {
            lemma_scan_cut(s, k, i + 1, next, pos, words, cur.push(c), start, !sq, dq, false);
        } else if c == '"' && !sq {
            lemma_scan_cut(s, k, i + 1, next, pos, words, cur.push(c), start, sq, !dq, false);
        } else if is_blank(c) && !sq && !dq {
            if cur.len() > 0 {
                lemma_scan_cut(s, k, i + 1, next, pos, words.push(cur), Seq::empty(), next, sq, dq, false);
            } else {
                lemma_scan_cut(s, k, i + 1, next, pos, words, cur, next, sq, dq, false);
            }
        } else {
            lemma_scan_cut(s, k, i + 1, next, pos, words, cur.push(c), start, sq, dq, false);
        }
    } else if i == k {
        assert(s.take(i) == s.take(k));
    }
}

/// Only the text before the cursor matters to completion: for the characters `line.take(k)`
/// that fill the first `pos` bytes of `line`, `get_completion_context(line, pos)` and
/// `get_completion_context(&line[..pos], pos)` describe the same scan.
pub proof fn law_context_ignores_text_after_cursor(line: Seq<char>, k: int, pos: int)
    requires
        0 <= k <= line.len(),
        pos == utf8_len(line.take(k)),
    ensures
        completion_scan(line, pos) == completion_scan(line.take(k), pos),
{
    assert(line.take(0) =~= Seq::<char>::empty());
    assert(vstd::utf8::encode_utf8(Seq::<char>::empty()).len() == 0);
    lemma_scan_cut(line, k, 0, 0, pos, Seq::empty(), Seq::empty(), 0, false, false, false);
}

} // verus!
