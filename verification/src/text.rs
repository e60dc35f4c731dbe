use vstd::prelude::*;

verus! {

/// The characters of `s`, in order.
pub fn chars_of(s: &str) -> (v: Vec<char>)
    ensures
        v@ == s@,
{
    let mut v: Vec<char> = Vec::new();
    for c in it: s.chars()
        invariant
            v@ == it.seq().take(it.index() as int),
            it.seq() == s@,
    {
        v.push(c);
    }
    v
}

/// `String::push`: appends `c` to the end of `s`.
/// Trusted: std documents that `push` appends the given char to the end of the string;
/// the contract claims exactly that, on the character view of the string.
#[verifier::external_body]
pub(crate) fn push_char(s: &mut String, c: char)
    ensures
        final(s)@ == old(s)@.push(c),
{
    s.push(c);
}

/// A `String` holding exactly the characters of `v[from..to]`.
pub fn string_from_chars(v: &Vec<char>, from: usize, to: usize) -> (s: String)
    requires
        from <= to <= v@.len(),
    ensures
        s@ == v@.subrange(from as int, to as int),
{
    let mut s = String::new();
    let mut i = from;
    while i < to
        invariant
            from <= i <= to <= v@.len(),
            s@ == v@.subrange(from as int, i as int),
        decreases to - i,
    {
        push_char(&mut s, v[i]);
        i += 1;
        assert(s@ =~= v@.subrange(from as int, i as int));
    }
    s
}

} // verus!

verus! {

/// The number of bytes of `c` in UTF-8.
pub open spec fn utf8_width(c: char) -> nat {
    vstd::utf8::encode_scalar(c as u32).len()
}

/// The number of bytes of `s` in UTF-8.
pub open spec fn utf8_len(s: Seq<char>) -> nat {
    vstd::utf8::encode_utf8(s).len()
}

/// `char::len_utf8`: the number of bytes that encode `c` in UTF-8.
pub fn char_width(c: char) -> (w: usize)
    ensures
        w == utf8_width(c),
        1 <= w <= 4,
{
    proof {
        vstd::utf8::char_is_scalar(c);
    }
    let v = c as u32;
    if v <= 0x7f {
        1
    } else if v <= 0x7ff {
        2
    } else if v <= 0xffff {
        3
    } else {
        4
    }
}

/// Appending a character adds its UTF-8 width to the UTF-8 length.
pub proof fn lemma_utf8_len_push(s: Seq<char>, c: char)
    ensures
        utf8_len(s.push(c)) == utf8_len(s) + utf8_width(c),
    decreases s.len(),
{
    let e = Seq::<char>::empty();
    assert(vstd::utf8::encode_utf8(e).len() == 0);
    if s.len() == 0 {
        assert(s.push(c).drop_first() =~= e);
        assert(s.push(c)[0] == c);
        assert(s =~= e);
    } else {
        assert(s.push(c).drop_first() =~= s.drop_first().push(c));
        assert(s.push(c)[0] == s[0]);
        lemma_utf8_len_push(s.drop_first(), c);
    }
}

/// If `pos` is a character boundary of `s`'s encoding and a character starts before it,
/// that character also ends at or before it.
pub proof fn lemma_boundary_step(s: Seq<char>, pos: int, i: int)
    requires
        vstd::utf8::is_char_boundary(vstd::utf8::encode_utf8(s), pos),
        0 <= i < s.len(),
        utf8_len(s.take(i)) < pos,
    ensures
        utf8_len(s.take(i + 1)) <= pos,
    decreases s.len(),
{
    broadcast use vstd::utf8::encode_utf8_valid_utf8;
    let bytes = vstd::utf8::encode_utf8(s);
    vstd::utf8::encode_utf8_first_scalar(s);
    assert(vstd::utf8::pop_first_scalar(bytes) =~= vstd::utf8::encode_utf8(s.drop_first()));
    let w0 = utf8_width(s[0]);
    assert(s.take(1).drop_first() =~= Seq::<char>::empty());
    assert(vstd::utf8::encode_utf8(Seq::<char>::empty()).len() == 0);
    assert(s.take(1)[0] == s[0]);
    assert(utf8_len(s.take(1)) == w0);
    if i == 0 {
        assert(s.take(0) =~= Seq::<char>::empty());
        assert(pos > 0);
        assert(vstd::utf8::is_char_boundary(vstd::utf8::encode_utf8(s.drop_first()), pos - w0));
    } else {
        let t = s.drop_first();
        assert(s.take(i).drop_first() =~= t.take(i - 1));
        assert(s.take(i + 1).drop_first() =~= t.take(i));
        assert(s.take(i)[0] == s[0]);
        assert(s.take(i + 1)[0] == s[0]);
        assert(utf8_len(s.take(i)) == w0 + utf8_len(t.take(i - 1)));
        assert(utf8_len(s.take(i + 1)) == w0 + utf8_len(t.take(i)));
        lemma_boundary_step(t, pos - w0, i - 1);
    }
}

} // verus!

verus! {

/// Whether two character vectors hold the same characters.
pub fn chars_eq(a: &Vec<char>, b: &Vec<char>) -> (r: bool)
    ensures
        r == (a@ == b@),
{
    if a.len() != b.len() {
        return false;
    }
    let mut i: usize = 0;
    while i < a.len()
        invariant
            a@.len() == b@.len(),
            i <= a@.len(),
            forall|k: int| 0 <= k < i ==> a@[k] == b@[k],
        decreases a@.len() - i,
    {
        if a[i] != b[i] {
            return false;
        }
        i += 1;
    }
    assert(a@ =~= b@);
    true
}

/// Whether two strings are equal.
pub fn str_eq(a: &str, b: &str) -> (r: bool)
    ensures
        r == (a@ == b@),
{
    chars_eq(&chars_of(a), &chars_of(b))
}

/// Whether `s` begins with `p` (`str::starts_with`).
pub fn chars_start_with(s: &Vec<char>, p: &Vec<char>) -> (r: bool)
    ensures
        r == p@.is_prefix_of(s@),
{
    if p.len() > s.len() {
        return false;
    }
    let mut i: usize = 0;
    while i < p.len()
        invariant
            p@.len() <= s@.len(),
            i <= p@.len(),
            forall|k: int| 0 <= k < i ==> s@[k] == p@[k],
        decreases p@.len() - i,
    {
        if s[i] != p[i] {
            assert(s@.subrange(0, p@.len() as int)[i as int] == s@[i as int]);
            return false;
        }
        i += 1;
    }
    assert(p@ =~= s@.subrange(0, p@.len() as int));
    true
}

/// Whether `s` begins with the character `c`.
pub open spec fn starts_with_char(s: Seq<char>, c: char) -> bool {
    s.len() > 0 && s[0] == c
}

/// Whether `s` ends with the character `c`.
pub open spec fn ends_with_char(s: Seq<char>, c: char) -> bool {
    s.len() > 0 && s.last() == c
}

} // verus!
