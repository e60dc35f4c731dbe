use vstd::prelude::*;
use crate::text::{chars_of, string_from_chars};

verus! {

/// The length of the longest common prefix of `a` and `b`.
pub open spec fn common_len(a: Seq<char>, b: Seq<char>) -> nat
    decreases a.len(),
{
    if a.len() == 0 || b.len() == 0 || a[0] != b[0] {
        0
    } else {
        1 + common_len(a.drop_first(), b.drop_first())
    }
}

/// The common prefix of `strings[0..n]`, taken one string at a time from the first.
pub open spec fn common_prefix_upto(strings: Seq<Seq<char>>, n: int) -> Seq<char>
    decreases n,
{
    if n <= 0 {
        Seq::empty()
    } else if n == 1 {
        strings[0]
    } else {
        let p = common_prefix_upto(strings, n - 1);
        p.take(common_len(p, strings[n - 1]) as int)
    }
}

/// The longest common prefix of all the strings (empty for no strings).
pub open spec fn common_prefix(strings: Seq<Seq<char>>) -> Seq<char> {
    common_prefix_upto(strings, strings.len() as int)
}

/// `common_len` is the length of a common prefix, and the next characters (if any) differ.
pub proof fn lemma_common_len(a: Seq<char>, b: Seq<char>)
    ensures
        common_len(a, b) <= a.len(),
        common_len(a, b) <= b.len(),
        a.take(common_len(a, b) as int) == b.take(common_len(a, b) as int),
        common_len(a, b) < a.len() && common_len(a, b) < b.len() ==> a[common_len(a, b) as int]
            != b[common_len(a, b) as int],
    decreases a.len(),
{
    if a.len() == 0 || b.len() == 0 || a[0] != b[0] {
        assert(a.take(0) =~= b.take(0));
    } else {
        let k = common_len(a, b);
        lemma_common_len(a.drop_first(), b.drop_first());
        assert(a.take(k as int) =~= seq![a[0]] + a.drop_first().take(k - 1));
        assert(b.take(k as int) =~= seq![b[0]] + b.drop_first().take(k - 1));
        if k < a.len() && k < b.len() {
            assert(a[k as int] == a.drop_first()[k - 1]);
            assert(b[k as int] == b.drop_first()[k - 1]);
        }
    }
}

/// The longest prefix shared by all of `strings`, compared character by character
/// (empty when there are no strings).
pub fn longest_common_prefix(strings: &[String]) -> (prefix: String)
    ensures
        prefix@ == common_prefix(strings@.map_values(|s: String| s@)),
{
    let ghost views = strings@.map_values(|s: String| s@);
    if strings.len() == 0 {
        return String::new();
    }
    let mut p = chars_of(strings[0].as_str());
    let mut len: usize = p.len();
    let mut i: usize = 1;
    while i < strings.len() && len > 0
        invariant
            views == strings@.map_values(|s: String| s@),
            1 <= i <= strings@.len(),
            len <= p@.len(),
            p@.take(len as int) == common_prefix_upto(views, i as int),
        decreases strings@.len() - i,
    {
        let s = chars_of(strings[i].as_str());
        let ghost cur = p@.take(len as int);
        let mut k: usize = 0;
        assert(cur.skip(0) =~= cur);
        assert(s@.skip(0) =~= s@);
        assert(cur.take(0) =~= s@.take(0));
        while k < len && k < s.len() && p[k] == s[k]
            invariant
                k <= len <= p@.len(),
                k <= s@.len(),
                cur == p@.take(len as int),
                cur.take(k as int) == s@.take(k as int),
                common_len(cur, s@) == k + common_len(cur.skip(k as int), s@.skip(k as int)),
            decreases len - k,
        {
            proof {
                let cs = cur.skip(k as int);
                let ss = s@.skip(k as int);
                assert(cs[0] == p@[k as int]);
                assert(cs.drop_first() =~= cur.skip(k + 1));
                assert(ss.drop_first() =~= s@.skip(k + 1));
                assert(cur.take(k + 1) =~= cur.take(k as int).push(p@[k as int]));
                assert(s@.take(k + 1) =~= s@.take(k as int).push(s@[k as int]));
            }
            k += 1;
        }
        proof {
            assert(common_len(cur.skip(k as int), s@.skip(k as int)) == 0);
            assert(views[i as int] == s@);
            assert(cur.take(k as int) =~= p@.take(k as int));
        }
        len = k;
        i += 1;
    }
    proof {
        if i < strings@.len() {
            assert(p@.take(len as int) =~= Seq::<char>::empty());
            lemma_empty_prefix_stays(views, i as int);
        }
        assert(p@.take(len as int) == common_prefix(views));
    }
    string_from_chars(&p, 0, len)
}

/// Once the running common prefix is empty, it stays empty.
proof fn lemma_empty_prefix_stays(strings: Seq<Seq<char>>, i: int)
    requires
        1 <= i <= strings.len(),
        common_prefix_upto(strings, i) == Seq::<char>::empty(),
    ensures
        common_prefix_upto(strings, strings.len() as int) == Seq::<char>::empty(),
    decreases strings.len() - i,
{
    if i < strings.len() {
        let p = common_prefix_upto(strings, i);
        assert(common_len(p, strings[i]) == 0);
        assert(common_prefix_upto(strings, i + 1) =~= Seq::<char>::empty());
        lemma_empty_prefix_stays(strings, i + 1);
    }
}

} // verus!

verus! {

/// `p` begins every one of `strings[..n]`.
pub open spec fn prefix_of_first(strings: Seq<Seq<char>>, n: int, p: Seq<char>) -> bool {
    forall|i: int| 0 <= i < n ==> p.is_prefix_of(#[trigger] strings[i])
}

/// A prefix of both `a` and `b` is no longer than their common prefix.
proof fn lemma_common_len_max(a: Seq<char>, b: Seq<char>, q: Seq<char>)
    requires
        q.is_prefix_of(a),
        q.is_prefix_of(b),
    ensures
        q.len() <= common_len(a, b),
    decreases a.len(),
{
    if q.len() > 0 {
        assert(a[0] == q[0]) by {
            assert(a.subrange(0, q.len() as int)[0] == a[0]);
        }
        assert(b[0] == q[0]) by {
            assert(b.subrange(0, q.len() as int)[0] == b[0]);
        }
        let q1 = q.drop_first();
        assert(q1 =~= a.drop_first().subrange(0, q1.len() as int));
        assert(q1 =~= b.drop_first().subrange(0, q1.len() as int));
        lemma_common_len_max(a.drop_first(), b.drop_first(), q1);
    }
}

/// Two prefixes of one sequence: the shorter is a prefix of the longer.
proof fn lemma_prefixes_nest(s: Seq<char>, q: Seq<char>, r: Seq<char>)
    requires
        q.is_prefix_of(s),
        r.is_prefix_of(s),
        q.len() <= r.len(),
    ensures
        q.is_prefix_of(r),
{
    assert(q =~= r.subrange(0, q.len() as int));
}

proof fn lemma_common_prefix_upto(strings: Seq<Seq<char>>, n: int)
    requires
        1 <= n <= strings.len(),
    ensures
        prefix_of_first(strings, n, common_prefix_upto(strings, n)),
        forall|q: Seq<char>| #[trigger] prefix_of_first(strings, n, q) ==> q.len() <= common_prefix_upto(strings, n).len(),
    decreases n,
{
    if n == 1 {
        assert(strings[0].is_prefix_of(strings[0])) by {
            assert(strings[0] =~= strings[0].subrange(0, strings[0].len() as int));
        }
        assert forall|q: Seq<char>| prefix_of_first(strings, 1, q) implies q.len() <= common_prefix_upto(strings, 1).len() by {
            assert(q.is_prefix_of(strings[0]));
        }
    } else {
        lemma_common_prefix_upto(strings, n - 1);
        let p = common_prefix_upto(strings, n - 1);
        let s = strings[n - 1];
        let k = common_len(p, s);
        lemma_common_len(p, s);
        let r = p.take(k as int);
        assert forall|i: int| 0 <= i < n implies r.is_prefix_of(#[trigger] strings[i]) by {
            if i < n - 1 {
                assert(p.is_prefix_of(strings[i]));
                assert(r =~= strings[i].subrange(0, r.len() as int));
            } else {
                assert(r =~= s.take(k as int));
                assert(r =~= s.subrange(0, r.len() as int));
            }
        }
        assert forall|q: Seq<char>| prefix_of_first(strings, n, q) implies q.len() <= r.len() by {
            assert(prefix_of_first(strings, n - 1, q));
            assert(q.len() <= p.len());
            assert(q.is_prefix_of(strings[0]));
            assert(p.is_prefix_of(strings[0]));
            lemma_prefixes_nest(strings[0], q, p);
            assert(q.is_prefix_of(s));
            lemma_common_len_max(p, s, q);
        }
    }
}

/// The common prefix of a nonempty list of strings begins every string, and no sequence
/// that begins every string is longer.
pub proof fn law_longest_common_prefix(strings: Seq<Seq<char>>)
    requires
        strings.len() > 0,
    ensures
        forall|i: int| 0 <= i < strings.len() ==> common_prefix(strings).is_prefix_of(#[trigger] strings[i]),
        forall|q: Seq<char>|
            #[trigger] prefix_of_first(strings, strings.len() as int, q) ==> q.len()
                <= common_prefix(strings).len(),
{
    lemma_common_prefix_upto(strings, strings.len() as int);
}

} // verus!
