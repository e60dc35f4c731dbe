use vstd::prelude::*;
use crate::text::{chars_of, string_from_chars};

verus! {

/// Whether `c` separates words outside quotes.
pub open spec fn is_blank(c: char) -> bool {
    c == ' ' || c == '\t'
}

/// The tokenizer as a state machine over the characters of `s`, from position `i`,
/// with the tokens finished so far, the token being built, and the two quoting flags.
/// Its result is the list of tokens once the whole input has been read.
pub open spec fn scan(
    s: Seq<char>,
    i: int,
    toks: Seq<Seq<char>>,
    cur: Seq<char>,
    sq: bool,
    dq: bool,
) -> Seq<Seq<char>>
    decreases s.len() - i,
{
    if i < 0 || i >= s.len() {
        if cur.len() > 0 {
            toks.push(cur)
        } else {
            toks
        }
    } else {
        let c = s[i];
        if c == '\'' && !dq {
            scan(s, i + 1, toks, cur, !sq, dq)
        } else if c == '"' && !sq {
            scan(s, i + 1, toks, cur, sq, !dq)
        } else if c == '\\' && dq {
            if i + 1 < s.len() {
                let n = s[i + 1];
                if n == '"' || n == '\\' {
                    scan(s, i + 2, toks, cur.push(n), sq, dq)
                } else {
                    scan(s, i + 2, toks, cur.push('\\').push(n), sq, dq)
                }
            } else {
                scan(s, i + 1, toks, cur.push('\\'), sq, dq)
            }
        } else if c == '\\' && !sq {
            if i + 1 < s.len() {
                scan(s, i + 2, toks, cur.push(s[i + 1]), sq, dq)
            } else {
                scan(s, i + 1, toks, cur, sq, dq)
            }
        } else if is_blank(c) && !sq && !dq {
            if cur.len() > 0 {
                scan(s, i + 1, toks.push(cur), Seq::empty(), sq, dq)
            } else {
                scan(s, i + 1, toks, cur, sq, dq)
            }
        } else {
            scan(s, i + 1, toks, cur.push(c), sq, dq)
        }
    }
}

/// `t` without its trailing run of line-feed and carriage-return characters.
pub open spec fn trim_line_end(t: Seq<char>) -> Seq<char>
    decreases t.len(),
{
    if t.len() > 0 && (t.last() == '\n' || t.last() == '\r') {
        trim_line_end(t.drop_last())
    } else {
        t
    }
}

/// The tokens of a command line: quoting and escapes resolved, words split at
/// unquoted blanks, trailing line ends removed from each word.
pub open spec fn tokens_of(s: Seq<char>) -> Seq<Seq<char>> {
    scan(s, 0, Seq::empty(), Seq::empty(), false, false).map_values(|t: Seq<char>| trim_line_end(t))
}

/// The length of `v` without its trailing line ends.
fn trailing_line_end_cut(v: &Vec<char>) -> (k: usize)
    ensures
        k <= v@.len(),
        trim_line_end(v@) == v@.take(k as int),
{
    let mut k = v.len();
    assert(v@.take(k as int) =~= v@);
    while k > 0 && (v[k - 1] == '\n' || v[k - 1] == '\r')
        invariant
            k <= v@.len(),
            trim_line_end(v@) == trim_line_end(v@.take(k as int)),
        decreases k,
    {
        assert(v@.take(k as int).drop_last() =~= v@.take(k - 1));
        k -= 1;
    }
    assert(v@.take(k as int).len() == k);
    k
}

/// Splits a command line into words, honouring single quotes, double quotes and
/// backslash escapes, and removes trailing line ends from every word.
pub fn parse_input(input: &str) -> (tokens: Vec<String>)
    ensures
        tokens@.len() == tokens_of(input@).len(),
        forall|j: int| 0 <= j < tokens@.len() ==> #[trigger] tokens@[j]@ == tokens_of(input@)[j],
{
    let s = chars_of(input);
    let n = s.len();
    let ghost total = scan(s@, 0, Seq::empty(), Seq::empty(), false, false);
    let mut raw: Vec<Vec<char>> = Vec::new();
    let mut cur: Vec<char> = Vec::new();
    let mut sq = false;
    let mut dq = false;
    let mut i: usize = 0;
    assert(raw@.map_values(|t: Vec<char>| t@) =~= Seq::<Seq<char>>::empty());
    assert(cur@ =~= Seq::<char>::empty());
    while i < n
        invariant
            n == s@.len(),
            i <= n,
            scan(s@, i as int, raw@.map_values(|t: Vec<char>| t@), cur@, sq, dq) == total,
        decreases n - i,
    {
        let ghost toks = raw@.map_values(|t: Vec<char>| t@);
        let c = s[i];
        if c == '\'' && !dq {
            sq = !sq;
            i += 1;
        } else if c == '"' && !sq {
            dq = !dq;
            i += 1;
        } else if c == '\\' && dq {
            if i + 1 < n {
                let next = s[i + 1];
                if next == '"' || next == '\\' {
                    cur.push(next);
                } else {
                    cur.push('\\');
                    cur.push(next);
                }
                i += 2;
            } else {
                cur.push('\\');
                i += 1;
            }
        } else if c == '\\' && !sq {
            if i + 1 < n {
                cur.push(s[i + 1]);
                i += 2;
            } else {
                i += 1;
            }
        } else if (c == ' ' || c == '\t') && !sq && !dq {
            if cur.len() > 0 {
                let done = cur;
                raw.push(done);
                cur = Vec::new();
                assert(raw@.map_values(|t: Vec<char>| t@) =~= toks.push(done@));
            }
            i += 1;
        } else {
            cur.push(c);
            i += 1;
        }
    }
    if cur.len() > 0 {
        let ghost toks = raw@.map_values(|t: Vec<char>| t@);
        let done = cur;
        raw.push(done);
        assert(raw@.map_values(|t: Vec<char>| t@) =~= toks.push(done@));
    }
    assert(raw@.map_values(|t: Vec<char>| t@) == total);
    let mut tokens: Vec<String> = Vec::new();
    let mut j: usize = 0;
    while j < raw.len()
        invariant
            j <= raw@.len(),
            raw@.map_values(|t: Vec<char>| t@) == total,
            tokens@.len() == j,
            forall|m: int| 0 <= m < j ==> #[trigger] tokens@[m]@ == trim_line_end(total[m]),
        decreases raw@.len() - j,
    {
        let k = trailing_line_end_cut(&raw[j]);
        assert(raw@[j as int]@ == total[j as int]);
        tokens.push(string_from_chars(&raw[j], 0, k));
        assert(raw@[j as int]@.take(k as int) =~= raw@[j as int]@.subrange(0, k as int));
        j += 1;
    }
    tokens
}

} // verus!

verus! {

/// No character of `s` is a quote or a backslash.
pub open spec fn is_plain(s: Seq<char>) -> bool {
    forall|i: int| 0 <= i < s.len() ==> s[i] != '\'' && s[i] != '"' && s[i] != '\\'
}

/// Splitting at blanks: the state is the words finished so far and the word being read;
/// runs of blanks separate words and produce no empty word.
pub open spec fn split_blanks(s: Seq<char>, i: int, toks: Seq<Seq<char>>, cur: Seq<char>) -> Seq<Seq<char>>
    decreases s.len() - i,
{
    if i < 0 || i >= s.len() {
        if cur.len() > 0 {
            toks.push(cur)
        } else {
            toks
        }
    } else if is_blank(s[i]) {
        if cur.len() > 0 {
            split_blanks(s, i + 1, toks.push(cur), Seq::empty())
        } else {
            split_blanks(s, i + 1, toks, cur)
        }
    } else {
        split_blanks(s, i + 1, toks, cur.push(s[i]))
    }
}

proof fn lemma_plain_scan(s: Seq<char>, i: int, toks: Seq<Seq<char>>, cur: Seq<char>)
    requires
        is_plain(s),
        0 <= i,
    ensures
        scan(s, i, toks, cur, false, false) == split_blanks(s, i, toks, cur),
    decreases s.len() - i,
{
    if i < s.len() {
        if is_blank(s[i]) {
            if cur.len() > 0 {
                lemma_plain_scan(s, i + 1, toks.push(cur), Seq::empty());
            } else {
                lemma_plain_scan(s, i + 1, toks, cur);
            }
        } else {
            lemma_plain_scan(s, i + 1, toks, cur.push(s[i]));
        }
    }
}

/// A line without quotes or backslashes splits into its blank-separated words, each
/// without trailing line ends.
pub proof fn law_plain_words(s: Seq<char>)
    requires
        is_plain(s),
    ensures
        tokens_of(s) == split_blanks(s, 0, Seq::empty(), Seq::empty()).map_values(
            |t: Seq<char>| trim_line_end(t),
        ),
{
    lemma_plain_scan(s, 0, Seq::empty(), Seq::empty());
}

/// `trim_line_end` leaves no line end at the end.
pub proof fn lemma_trim_line_end(t: Seq<char>)
    ensures
        trim_line_end(t).len() > 0 ==> trim_line_end(t).last() != '\n' && trim_line_end(t).last() != '\r',
        trim_line_end(t).is_prefix_of(t),
    decreases t.len(),
{
    if t.len() > 0 && (t.last() == '\n' || t.last() == '\r') {
        lemma_trim_line_end(t.drop_last());
        assert(trim_line_end(t).is_prefix_of(t)) by {
            let r = trim_line_end(t);
            assert(r =~= t.drop_last().subrange(0, r.len() as int));
            assert(t.drop_last().subrange(0, r.len() as int) =~= t.subrange(0, r.len() as int));
        }
    } else {
        assert(t =~= t.subrange(0, t.len() as int));
    }
}

/// No token ends with a line feed or a carriage return.
pub proof fn law_tokens_have_no_line_end(s: Seq<char>)
    ensures
        forall|j: int|
            0 <= j < tokens_of(s).len() && #[trigger] tokens_of(s)[j].len() > 0 ==> tokens_of(s)[j].last()
                != '\n' && tokens_of(s)[j].last() != '\r',
{
    let raw = scan(s, 0, Seq::empty(), Seq::empty(), false, false);
    assert forall|j: int|
        0 <= j < tokens_of(s).len() && #[trigger] tokens_of(s)[j].len() > 0 implies tokens_of(s)[j].last()
        != '\n' && tokens_of(s)[j].last() != '\r' by {
        lemma_trim_line_end(raw[j]);
    }
}

} // verus!

verus! {

proof fn lemma_inside_single_quotes(s: Seq<char>, i: int, toks: Seq<Seq<char>>, cur: Seq<char>)
    requires
        0 <= i < s.len(),
        s.last() == '\'',
        forall|k: int| i <= k < s.len() - 1 ==> s[k] != '\'',
    ensures
        scan(s, i, toks, cur, true, false) == scan(s, s.len() as int, toks, cur + s.subrange(i, s.len() - 1), false, false),
    decreases s.len() - i,
{
    if i == s.len() - 1 {
        assert(s.subrange(i, s.len() - 1) =~= Seq::<char>::empty());
        assert(cur + Seq::<char>::empty() =~= cur);
    } else {
        lemma_inside_single_quotes(s, i + 1, toks, cur.push(s[i]));
        assert(cur.push(s[i]) + s.subrange(i + 1, s.len() - 1) =~= cur + s.subrange(i, s.len() - 1));
    }
}

/// Text in single quotes is one word, taken literally: backslashes, double quotes and
/// blanks inside keep their characters.
pub proof fn law_single_quoted_word(t: Seq<char>)
    requires
        t.len() > 0,
        forall|k: int| 0 <= k < t.len() ==> t[k] != '\'',
        t.last() != '\n' && t.last() != '\r',
    ensures
        tokens_of(seq!['\''] + t + seq!['\'']) == seq![t],
{
    let s = seq!['\''] + t + seq!['\''];
    assert(s[0] == '\'');
    assert(s.last() == '\'');
    assert forall|k: int| 1 <= k < s.len() - 1 implies s[k] != '\'' by {
        assert(s[k] == t[k - 1]);
    }
    lemma_inside_single_quotes(s, 1, Seq::empty(), Seq::empty());
    assert(Seq::<char>::empty() + s.subrange(1, s.len() - 1) =~= t);
    let raw = scan(s, 0, Seq::empty(), Seq::empty(), false, false);
    assert(raw == seq![t]);
    assert(trim_line_end(t) == t);
    assert(raw.map_values(|w: Seq<char>| trim_line_end(w)) =~= seq![t]);
}

} // verus!

verus! {

/// Whether `c` stands for itself outside quotes and does not end a word: not a quote, a
/// backslash, a blank or a line end.
pub open spec fn is_word_char(c: char) -> bool {
    c != '\'' && c != '"' && c != '\\' && !is_blank(c) && c != '\n' && c != '\r'
}

proof fn lemma_scan_word_chars(s: Seq<char>, i: int, j: int, toks: Seq<Seq<char>>, cur: Seq<char>)
    requires
        0 <= i <= j <= s.len(),
        forall|k: int| i <= k < j ==> is_word_char(#[trigger] s[k]),
    ensures
        scan(s, i, toks, cur, false, false) == scan(s, j, toks, cur + s.subrange(i, j), false, false),
    decreases j - i,
{
    if i < j {
        lemma_scan_word_chars(s, i + 1, j, toks, cur.push(s[i]));
        assert(cur.push(s[i]) + s.subrange(i + 1, j) =~= cur + s.subrange(i, j));
    } else {
        assert(cur + s.subrange(i, j) =~= cur);
    }
}

/// Outside quotes a backslash escapes the character after it, whatever that is, and only
/// that character is kept: for plain `a` and `b`, the line `a\cb` is the one word `acb`.
pub proof fn law_backslash_escapes_next_char(a: Seq<char>, c: char, b: Seq<char>)
    requires
        forall|k: int| 0 <= k < a.len() ==> is_word_char(#[trigger] a[k]),
        forall|k: int| 0 <= k < b.len() ==> is_word_char(#[trigger] b[k]),
        c != '\n' && c != '\r',
    ensures
        tokens_of(a + seq!['\\', c] + b) == seq![a + seq![c] + b],
{
    let s = a + seq!['\\', c] + b;
    let n = a.len() as int;
    assert forall|k: int| 0 <= k < n implies is_word_char(#[trigger] s[k]) by {
        assert(s[k] == a[k]);
    }
    assert forall|k: int| n + 2 <= k < s.len() implies is_word_char(#[trigger] s[k]) by {
        assert(s[k] == b[k - n - 2]);
    }
    lemma_scan_word_chars(s, 0, n, Seq::empty(), Seq::empty());
    assert(Seq::<char>::empty() + s.subrange(0, n) =~= a);
    assert(s[n] == '\\');
    assert(s[n + 1] == c);
    lemma_scan_word_chars(s, n + 2, s.len() as int, Seq::empty(), a.push(c));
    let w = a.push(c) + s.subrange(n + 2, s.len() as int);
    assert(w =~= a + seq![c] + b);
    let raw = scan(s, 0, Seq::empty(), Seq::empty(), false, false);
    assert(raw == seq![w]);
    if b.len() > 0 {
        assert(w.last() == b[b.len() - 1]);
    } else {
        assert(w.last() == c);
    }
    assert(trim_line_end(w) == w);
    assert(raw.map_values(|t: Seq<char>| trim_line_end(t)) =~= seq![w]);
}

} // verus!
