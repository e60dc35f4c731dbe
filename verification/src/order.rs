use vstd::prelude::*;
use crate::text::chars_of;

verus! {

/// Lexicographic order on character sequences, characters compared by code point
/// (the order of `str`'s `Ord`, since UTF-8 keeps code point order byte-wise).
pub open spec fn lex_lt(a: Seq<char>, b: Seq<char>) -> bool
    decreases a.len(),
{
    if a.len() == 0 {
        b.len() > 0
    } else if b.len() == 0 {
        false
    } else if a[0] != b[0] {
        (a[0] as u32) < (b[0] as u32)
    } else {
        lex_lt(a.drop_first(), b.drop_first())
    }
}

/// `lex_lt` is irreflexive and asymmetric.
pub proof fn lemma_lex_asym(a: Seq<char>, b: Seq<char>)
    ensures
        lex_lt(a, b) ==> !lex_lt(b, a),
        !lex_lt(a, a),
    decreases a.len(),
{
    if a.len() > 0 && b.len() > 0 && a[0] == b[0] {
        lemma_lex_asym(a.drop_first(), b.drop_first());
    }
    if a.len() > 0 {
        lemma_lex_asym(a.drop_first(), a.drop_first());
    }
}

/// `lex_lt` is transitive.
pub proof fn lemma_lex_trans(a: Seq<char>, b: Seq<char>, c: Seq<char>)
    requires
        lex_lt(a, b),
        lex_lt(b, c),
    ensures
        lex_lt(a, c),
    decreases a.len(),
{
    broadcast use vstd::utf8::char_u32_cast;
    if a.len() > 0 && b.len() > 0 && c.len() > 0 && a[0] == b[0] && b[0] == c[0] {
        lemma_lex_trans(a.drop_first(), b.drop_first(), c.drop_first());
    }
}

/// `lex_lt` is total: two different sequences are ordered one way or the other.
pub proof fn lemma_lex_total(a: Seq<char>, b: Seq<char>)
    ensures
        a == b || lex_lt(a, b) || lex_lt(b, a),
    decreases a.len(),
{
    broadcast use vstd::utf8::char_u32_cast;
    if a.len() == 0 {
        if b.len() == 0 {
            assert(a =~= b);
        }
    } else if b.len() > 0 {
        if a[0] == b[0] {
            lemma_lex_total(a.drop_first(), b.drop_first());
            if a.drop_first() == b.drop_first() {
                assert(a =~= seq![a[0]] + a.drop_first());
                assert(b =~= seq![b[0]] + b.drop_first());
            }
        } else {
            if (a[0] as u32) == (b[0] as u32) {
                vstd::utf8::char_u32_cast(a[0], a[0] as u32);
                vstd::utf8::char_u32_cast(b[0], b[0] as u32);
            }
        }
    }
}

/// Whether `a` comes strictly before `b`, by code point lexicographic order.
pub fn lex_less(a: &Vec<char>, b: &Vec<char>) -> (r: bool)
    ensures
        r == lex_lt(a@, b@),
{
    let mut i: usize = 0;
    assert(a@.skip(0) =~= a@);
    assert(b@.skip(0) =~= b@);
    while i < a.len() && i < b.len() && a[i] == b[i]
        invariant
            i <= a@.len(),
            i <= b@.len(),
            lex_lt(a@, b@) == lex_lt(a@.skip(i as int), b@.skip(i as int)),
        decreases a@.len() - i,
    {
        proof {
            assert(a@.skip(i as int).drop_first() =~= a@.skip(i + 1));
            assert(b@.skip(i as int).drop_first() =~= b@.skip(i + 1));
        }
        i += 1;
    }
    if i == a.len() {
        i < b.len()
    } else if i == b.len() {
        false
    } else {
        (a[i] as u32) < (b[i] as u32)
    }
}

/// The sequence with `x` inserted at `p` has the multiset of the sequence plus `x`.
pub proof fn lemma_insert_multiset<T>(s: Seq<T>, p: int, x: T)
    requires
        0 <= p <= s.len(),
    ensures
        s.insert(p, x).to_multiset() == s.to_multiset().insert(x),
{
    broadcast use vstd::seq_lib::group_to_multiset_ensures;
    let left = s.take(p);
    let right = s.skip(p);
    assert(s.insert(p, x) =~= left.push(x) + right);
    assert(s =~= left + right);
    vstd::seq_lib::lemma_multiset_commutative(left.push(x), right);
    vstd::seq_lib::lemma_multiset_commutative(left, right);
}

/// Sorts strings by code point lexicographic order (stable).
pub fn sort_strings(v: Vec<String>) -> (r: Vec<String>)
    ensures
        r@.to_multiset() == v@.to_multiset(),
        forall|a: int, b: int| 0 <= a < b < r@.len() ==> !lex_lt(#[trigger] r@[b]@, #[trigger] r@[a]@),
{
    broadcast use vstd::seq_lib::group_to_multiset_ensures;
    let mut r: Vec<String> = Vec::new();
    let mut keys: Vec<Vec<char>> = Vec::new();
    let mut i: usize = 0;
    assert(v@.take(0) =~= Seq::<String>::empty());
    while i < v.len()
        invariant
            i <= v@.len(),
            keys@.len() == r@.len(),
            forall|k: int| 0 <= k < r@.len() ==> #[trigger] keys@[k]@ == r@[k]@,
            r@.to_multiset() == v@.take(i as int).to_multiset(),
            forall|a: int, b: int| 0 <= a < b < r@.len() ==> !lex_lt(#[trigger] r@[b]@, #[trigger] r@[a]@),
        decreases v@.len() - i,
    {
        let x = v[i].clone();
        let kx = chars_of(x.as_str());
        let mut p: usize = 0;
        while p < r.len() && !lex_less(&kx, &keys[p])
            invariant
                p <= r@.len(),
                keys@.len() == r@.len(),
                forall|k: int| 0 <= k < r@.len() ==> #[trigger] keys@[k]@ == r@[k]@,
                forall|k: int| 0 <= k < p ==> !lex_lt(kx@, #[trigger] r@[k]@),
            decreases r@.len() - p,
        {
            p += 1;
        }
        let ghost old_r = r@;
        proof {
            assert forall|b: int| p <= b < old_r.len() implies !lex_lt(#[trigger] old_r[b]@, kx@) by {
                assert(lex_lt(kx@, old_r[p as int]@));
                if lex_lt(old_r[b]@, kx@) {
                    lemma_lex_trans(old_r[b]@, kx@, old_r[p as int]@);
                    if b == p {
                        lemma_lex_asym(old_r[b]@, old_r[b]@);
                    }
                }
            }
            lemma_insert_multiset(old_r, p as int, x);
            assert(v@.take(i + 1) =~= v@.take(i as int).push(v@[i as int]));
        }
        let ghost xv = x;
        assert(xv == v@[i as int]);
        r.insert(p, x);
        keys.insert(p, kx);
        proof {
            assert(r@ == old_r.insert(p as int, xv));
            vstd::seq_lib::to_multiset_build(v@.take(i as int), xv);
            assert(v@.take(i + 1) == v@.take(i as int).push(xv));
            assert(r@.to_multiset() =~= v@.take(i + 1).to_multiset());
            assert forall|a: int, b: int| 0 <= a < b < r@.len() implies !lex_lt(
                #[trigger] r@[b]@,
                #[trigger] r@[a]@,
            ) by {
                if b < p {
                    assert(r@[a] == old_r[a] && r@[b] == old_r[b]);
                } else if b == p {
                    assert(r@[a] == old_r[a]);
                } else if a == p {
                    assert(r@[b] == old_r[b - 1]);
                } else if a < p {
                    assert(r@[a] == old_r[a] && r@[b] == old_r[b - 1]);
                } else {
                    assert(r@[a] == old_r[a - 1] && r@[b] == old_r[b - 1]);
                }
            }
        }
        i += 1;
    }
    assert(v@.take(v@.len() as int) =~= v@);
    r
}

} // verus!
