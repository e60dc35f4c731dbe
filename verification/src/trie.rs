use vstd::prelude::*;
use std::collections::HashMap;
use vstd::std_specs::iter::IteratorSpec;
use crate::text::{chars_of, string_from_chars};

verus! {

broadcast use vstd::std_specs::hash::group_hash_axioms;

/// A node of a character trie: the edges to its children, keyed by the code of the edge's
/// character, and whether a word ends here. Each entry keeps its character beside the child,
/// so that words can be spelled out again from the keys' entries.
pub struct TrieNode {
    children: HashMap<u32, (char, TrieNode)>,
    is_word: bool,
}

/// Every edge is stored under the code of its own character, at every node.
pub closed spec fn node_wf(node: TrieNode) -> bool
    decreases node,
{
    forall|k: u32| #[trigger] node.children@.contains_key(k) ==> {
        &&& node.children@[k].0 as u32 == k
        &&& node_wf(node.children@[k].1)
    }
}

/// Whether the word `w` is stored below `node`.
pub closed spec fn has_word(node: TrieNode, w: Seq<char>) -> bool
    decreases w.len(),
{
    if w.len() == 0 {
        node.is_word
    } else {
        node.children@.contains_key(w[0] as u32) && has_word(
            node.children@[w[0] as u32].1,
            w.drop_first(),
        )
    }
}

/// Different characters have different codes.
proof fn lemma_code_injective(c: char, d: char)
    requires
        c as u32 == d as u32,
    ensures
        c == d,
{
}

/// A sequence that begins with `p` agrees with `p` at every index of `p`.
proof fn lemma_prefix_index(s: Seq<char>, p: Seq<char>, i: int)
    requires
        p.len() <= s.len(),
        s.take(p.len() as int) == p,
        0 <= i < p.len(),
    ensures
        s[i] == p[i],
{
    assert(s.take(p.len() as int)[i] == s[i]);
}

/// Two non-empty words are equal when their first characters and their rests are.
proof fn lemma_first_and_rest(w: Seq<char>, v: Seq<char>)
    requires
        w.len() > 0,
        v.len() > 0,
        w[0] == v[0],
        w.drop_first() == v.drop_first(),
    ensures
        w == v,
{
    assert(w.drop_first().len() == w.len() - 1);
    assert(v.drop_first().len() == v.len() - 1);
    assert(w.len() == v.len());
    assert forall|x: int| 0 < x < w.len() implies w[x] == v[x] by {
        assert(w[x] == w.drop_first()[x - 1]);
        assert(v[x] == v.drop_first()[x - 1]);
    }
    assert(w =~= v);
}

/// A node with no children that ends no word.
pub closed spec fn is_empty_node(n: TrieNode) -> bool {
    n.children@ == Map::<u32, (char, TrieNode)>::empty() && !n.is_word
}

impl Default for TrieNode {
    fn default() -> (n: TrieNode)
        ensures
            is_empty_node(n),
    {
        TrieNode { children: HashMap::new(), is_word: false }
    }
}

/// An empty node stores nothing.
proof fn lemma_empty_node(n: TrieNode, w: Seq<char>)
    requires
        is_empty_node(n),
    ensures
        !has_word(n, w),
        node_wf(n),
{
}

/// `codes` holds keys of `node`'s children, and every key among them.
closed spec fn enumerates(node: TrieNode, codes: Seq<u32>) -> bool {
    &&& forall|x: int| 0 <= x < codes.len() ==> node.children@.contains_key(#[trigger] codes[x])
    &&& forall|k: u32| #[trigger] node.children@.contains_key(k) ==> exists|x: int|
        0 <= x < codes.len() && #[trigger] codes[x] == k
}

/// The keys of a sequence of map entries.
closed spec fn codes_of(s: Seq<(&u32, &(char, TrieNode))>) -> Seq<u32> {
    s.map_values(|p: (&u32, &(char, TrieNode))| *p.0)
}

/// `r[from..]` lists, each exactly once, the words `prefix + w` for the words `w` stored
/// below `node`.
closed spec fn lists_words(r: Seq<String>, from: int, prefix: Seq<char>, node: TrieNode) -> bool {
    &&& forall|a: int|
        from <= a < r.len() ==> prefix.len() <= (#[trigger] r[a])@.len() && r[a]@.take(
            prefix.len() as int,
        ) == prefix && has_word(node, r[a]@.skip(prefix.len() as int))
    &&& forall|a: int, b: int| from <= a < b < r.len() ==> (#[trigger] r[a])@ != (#[trigger] r[b])@
    &&& forall|w: Seq<char>|
        #[trigger] has_word(node, w) ==> exists|a: int| from <= a < r.len() && (#[trigger] r[a])@ == prefix + w
}

/// The words that are empty or whose first character's code is among `codes[..j]`.
closed spec fn in_first_codes(codes: Seq<u32>, w: Seq<char>, j: int) -> bool {
    w.len() == 0 || exists|x: int| 0 <= x < j && #[trigger] codes[x] == w[0] as u32
}

/// `lists_words`, restricted to the words of `in_first_codes(codes, _, j)`.
closed spec fn lists_words_upto(
    r: Seq<String>,
    from: int,
    prefix: Seq<char>,
    node: TrieNode,
    codes: Seq<u32>,
    j: int,
) -> bool {
    &&& forall|a: int|
        from <= a < r.len() ==> prefix.len() <= (#[trigger] r[a])@.len() && r[a]@.take(
            prefix.len() as int,
        ) == prefix && has_word(node, r[a]@.skip(prefix.len() as int)) && in_first_codes(
            codes,
            r[a]@.skip(prefix.len() as int),
            j,
        )
    &&& forall|a: int, b: int| from <= a < b < r.len() ==> (#[trigger] r[a])@ != (#[trigger] r[b])@
    &&& forall|w: Seq<char>|
        #[trigger] has_word(node, w) && in_first_codes(codes, w, j) ==> exists|a: int|
            from <= a < r.len() && (#[trigger] r[a])@ == prefix + w
}

impl TrieNode {
    /// Adds `word[i..]` below this node.
    fn insert_from(&mut self, word: &Vec<char>, i: usize)
        requires
            node_wf(*old(self)),
            i <= word@.len(),
        ensures
            node_wf(*final(self)),
            forall|w: Seq<char>|
                #![trigger has_word(*final(self), w)]
                #![trigger has_word(*old(self), w)]
                has_word(*final(self), w) <==> (has_word(*old(self), w) || w == word@.skip(i as int)),
        decreases word@.len() - i,
    {
        let ghost before = *self;
        let ghost suffix = word@.skip(i as int);
        if i == word.len() {
            self.is_word = true;
            let ghost after = *self;
            assert(after.children@ == before.children@);
            assert forall|w: Seq<char>| has_word(after, w) <==> (has_word(before, w) || w == suffix) by {
                if w.len() == 0 {
                    assert(suffix =~= w);
                } else {
                    assert(w != suffix);
                }
            }
            return;
        }
        let c = word[i];
        let code: u32 = c as u32;
        assert(suffix.len() > 0 && suffix[0] == c);
        assert(suffix.drop_first() =~= word@.skip(i + 1));
        let removed = self.children.remove(&code);
        let mut child = match removed {
            Some(entry) => entry.1,
            None => TrieNode::default(),
        };
        let ghost old_child = child;
        proof {
            if before.children@.contains_key(code) {
                assert(old_child == before.children@[code].1);
                assert(node_wf(old_child));
            } else {
                lemma_empty_node(old_child, Seq::empty());
            }
        }
        child.insert_from(word, i + 1);
        self.children.insert(code, (c, child));
        let ghost after = *self;
        assert(after.children@ =~= before.children@.insert(code, (c, child)));
        assert forall|w: Seq<char>| has_word(after, w) <==> (has_word(before, w) || w == suffix) by {
            if w.len() > 0 {
                let wr = w.drop_first();
                if w[0] as u32 == code {
                    lemma_code_injective(w[0], c);
                    assert(after.children@[code].1 == child);
                    assert(has_word(after, w) == has_word(child, wr));
                    assert(has_word(child, wr) == (has_word(old_child, wr) || wr == word@.skip(i + 1)));
                    if before.children@.contains_key(code) {
                        assert(has_word(before, w) == has_word(old_child, wr));
                    } else {
                        lemma_empty_node(old_child, wr);
                        assert(!has_word(before, w));
                    }
                    if wr == suffix.drop_first() {
                        lemma_first_and_rest(w, suffix);
                    }
                    if w == suffix {
                        assert(wr == suffix.drop_first());
                    }
                } else {
                    assert(w[0] != suffix[0]);
                }
            } else {
                assert(w != suffix);
            }
        }
        assert forall|k: u32| #[trigger] after.children@.contains_key(k) implies after.children@[k].0 as u32
            == k && node_wf(after.children@[k].1) by {
            if k != code {
                assert(before.children@.contains_key(k));
            }
        }
    }
}

/// `results` lists the words of `words` that begin with `prefix`: each such word once, and
/// nothing else.
pub open spec fn lists_prefix_words(words: Set<Seq<char>>, prefix: Seq<char>, results: Seq<String>) -> bool {
    &&& forall|a: int, b: int|
        0 <= a < b < results.len() ==> (#[trigger] results[a])@ != (#[trigger] results[b])@
    &&& forall|a: int|
        0 <= a < results.len() ==> words.contains((#[trigger] results[a])@) && prefix.is_prefix_of(
            results[a]@,
        )
    &&& forall|w: Seq<char>|
        #[trigger] words.contains(w) && prefix.is_prefix_of(w) ==> exists|a: int|
            0 <= a < results.len() && (#[trigger] results[a])@ == w
}

/// A trie of words.
pub struct Trie {
    root: TrieNode,
}

impl Trie {
    /// The trie is well formed.
    pub closed spec fn wf(&self) -> bool {
        node_wf(self.root)
    }

    /// The set of words stored in the trie.
    pub closed spec fn words(&self) -> Set<Seq<char>> {
        Set::new(|w: Seq<char>| has_word(self.root, w))
    }

    /// An empty trie.
    pub fn new() -> (t: Trie)
        ensures
            t.wf(),
            t.words() == Set::<Seq<char>>::empty(),
    {
        let t = Trie { root: TrieNode::default() };
        assert forall|w: Seq<char>| !has_word(t.root, w) by {
            lemma_empty_node(t.root, w);
        }
        proof {
            lemma_empty_node(t.root, Seq::empty());
        }
        assert(t.words() =~= Set::<Seq<char>>::empty());
        t
    }

    /// Adds `word` to the trie.
    pub fn insert(&mut self, word: &str)
        requires
            old(self).wf(),
        ensures
            final(self).wf(),
            final(self).words() == old(self).words().insert(word@),
    {
        let chars = chars_of(word);
        let ghost before = *self;
        self.root.insert_from(&chars, 0);
        assert(chars@.skip(0) =~= word@);
        assert(self.words() =~= before.words().insert(word@));
    }

    /// All stored words that begin with `prefix`, each once.
    pub fn get_words_with_prefix(&self, prefix: &str) -> (results: Vec<String>)
        requires
            self.wf(),
        ensures
            lists_prefix_words(self.words(), prefix@, results@),
    {
        let p = chars_of(prefix);
        let n = p.len();
        let mut node = &self.root;
        let mut k: usize = 0;
        proof {
            assert forall|w: Seq<char>| has_word(self.root, p@.take(0) + w) == has_word(*node, w) by {
                assert(p@.take(0) + w =~= w);
            }
        }
        while k < n
            invariant
                n == p@.len(),
                p@ == prefix@,
                k <= n,
                self.wf(),
                node_wf(*node),
                forall|w: Seq<char>|
                    #[trigger] has_word(self.root, p@.take(k as int) + w) == has_word(*node, w),
            decreases n - k,
        {
            let c = p[k];
            let code: u32 = c as u32;
            let ghost parent = *node;
            match node.children.get(&code) {
                Some(entry) => {
                    node = &entry.1;
                },
                None => {
                    proof {
                        assert forall|w: Seq<char>|
                            #[trigger] self.words().contains(w) && prefix@.is_prefix_of(w) implies false by {
                            let rest = w.skip(k as int);
                            assert forall|x: int| 0 <= x < n implies w[x] == p@[x] by {
                                assert(w.subrange(0, n as int)[x] == w[x]);
                            }
                            assert(w =~= p@.take(k as int) + rest);
                            assert(has_word(parent, rest));
                            assert(rest[0] == c);
                        }
                    }
                    return Vec::new();
                },
            }
            proof {
                assert(parent.children@.contains_key(code));
                assert(node_wf(*node));
                assert forall|w: Seq<char>|
                    #[trigger] has_word(self.root, p@.take(k + 1) + w) == has_word(*node, w) by {
                    let cw = seq![c] + w;
                    assert(p@.take(k + 1) + w =~= p@.take(k as int) + cw);
                    assert(cw.drop_first() =~= w);
                    assert(has_word(self.root, p@.take(k as int) + cw) == has_word(parent, cw));
                    assert(cw[0] == c);
                }
            }
            k += 1;
        }
        let mut results: Vec<String> = Vec::new();
        let mut current = p;
        self.collect_words(node, &mut current, &mut results);
        proof {
            assert(p@.take(n as int) =~= p@);
            assert(p@ == prefix@);
            assert forall|a: int| 0 <= a < results@.len() implies self.words().contains(
                (#[trigger] results@[a])@,
            ) && prefix@.is_prefix_of(results@[a]@) by {
                let full = results@[a]@;
                let rest = full.skip(n as int);
                assert forall|x: int| 0 <= x < n implies full[x] == p@[x] by {
                    lemma_prefix_index(full, p@, x);
                }
                assert(has_word(self.root, p@.take(n as int) + rest));
                assert(p@ + rest =~= full);
                assert(full.subrange(0, n as int) =~= full.take(n as int));
            }
            assert forall|w: Seq<char>|
                #[trigger] self.words().contains(w) && prefix@.is_prefix_of(w) implies exists|a: int|
                0 <= a < results@.len() && (#[trigger] results@[a])@ == w by {
                let rest = w.skip(n as int);
                assert(w =~= p@.take(n as int) + rest);
                assert(has_word(*node, rest));
                assert(p@ + rest =~= w);
            }
        }
        results
    }

    /// Appends to `results` the words below `node`, each prefixed by `current_word`.
    fn collect_words(&self, node: &TrieNode, current_word: &mut Vec<char>, results: &mut Vec<String>)
        requires
            node_wf(*node),
        ensures
            final(current_word)@ == old(current_word)@,
            final(results)@.len() >= old(results)@.len(),
            final(results)@.take(old(results)@.len() as int) == old(results)@,
            lists_words(final(results)@, old(results)@.len() as int, old(current_word)@, *node),
        decreases node,
    {
        let ghost cur0 = current_word@;
        let ghost r0 = results@;
        let ghost start = results@.len() as int;
        if node.is_word {
            let w = string_from_chars(current_word, 0, current_word.len());
            results.push(w);
            assert(cur0.take(cur0.len() as int) =~= cur0);
            assert(cur0.skip(cur0.len() as int) =~= Seq::<char>::empty());
        }
        let ghost entries = vstd::std_specs::hash::spec_hash_map_iter(&node.children).remaining();
        let ghost codes = codes_of(entries);
        proof {
            assert(results@.take(start) =~= r0);
            assert forall|w: Seq<char>|
                #[trigger] has_word(*node, w) && in_first_codes(codes, w, 0) implies exists|a: int|
                start <= a < results@.len() && (#[trigger] results@[a])@ == cur0 + w by {
                assert(w.len() == 0);
                assert(cur0 + w =~= cur0);
                assert(results@[start]@ == cur0);
            }
            assert forall|kk: u32| #[trigger] node.children@.contains_key(kk) implies exists|x: int|
                0 <= x < codes.len() && #[trigger] codes[x] == kk by {
                assert(entries.contains((&kk, &node.children@[kk])));
                let x = choose|x: int| 0 <= x < entries.len() && entries[x] == (&kk, &node.children@[kk]);
                assert(codes[x] == kk);
            }
            assert forall|x: int| 0 <= x < codes.len() implies node.children@.contains_key(
                #[trigger] codes[x],
            ) by {
                assert(node.children@.contains_key(*entries[x].0));
            }
            assert(enumerates(*node, codes));
        }
        for kv in it: node.children.iter()
            invariant
                node_wf(*node),
                it.seq() == entries,
                entries.no_duplicates(),
                codes == codes_of(entries),
                enumerates(*node, codes),
                current_word@ == cur0,
                0 <= start,
                results@.len() >= start,
                results@.take(start) == r0,
                lists_words_upto(results@, start, cur0, *node, codes, it.index() as int),
        {
            let ghost j = it.index() as int;
            let (key, entry) = kv;
            proof {
                assert(codes[j] == *key);
                assert(node.children@.contains_key(*key));
                assert(node.children@[*key] == *entry);
                assert(decreases_to!(*node => node.children));
                assert(decreases_to!(node.children => node.children@));
                assert(decreases_to!(node.children@ => node.children@[*key]));
                assert(decreases_to!(*node => entry.1));
                assert(node_wf(entry.1));
                assert forall|x: int| 0 <= x < j implies #[trigger] codes[x] != codes[j] by {
                    if codes[x] == codes[j] {
                        assert(node.children@[*entries[x].0] == *entries[x].1);
                        assert(node.children@[*entries[j].0] == *entries[j].1);
                        assert(entries[x] == entries[j]);
                    }
                }
            }
            let c = entry.0;
            let ghost rb = results@;
            current_word.push(c);
            let ghost cur1 = current_word@;
            self.collect_words(&entry.1, current_word, results);
            current_word.pop();
            assert(current_word@ =~= cur0);
            assert(results@.take(start) =~= rb.take(start));
            proof {
                lemma_collect_step(*node, codes, j, cur0, cur1, start, rb, results@);
            }
        }
        proof {
            assert forall|w: Seq<char>| #[trigger] has_word(*node, w) implies exists|a: int|
                start <= a < results@.len() && (#[trigger] results@[a])@ == cur0 + w by {
                if w.len() > 0 {
                    assert(node.children@.contains_key(w[0] as u32));
                    let x = choose|x: int| 0 <= x < codes.len() && #[trigger] codes[x] == w[0] as u32;
                    assert(in_first_codes(codes, w, codes.len() as int));
                }
            }
        }
    }
}

/// One child's words, appended after those of the earlier children, keep
/// `lists_words_upto` true with one more child counted.
proof fn lemma_collect_step(
    node: TrieNode,
    codes: Seq<u32>,
    j: int,
    cur0: Seq<char>,
    cur1: Seq<char>,
    start: int,
    rb: Seq<String>,
    r: Seq<String>,
)
    requires
        node_wf(node),
        enumerates(node, codes),
        0 <= j < codes.len(),
        cur1 == cur0.push(node.children@[codes[j]].0),
        0 <= start <= rb.len() <= r.len(),
        r.take(rb.len() as int) == rb,
        lists_words_upto(rb, start, cur0, node, codes, j),
        lists_words(r, rb.len() as int, cur1, node.children@[codes[j]].1),
        forall|x: int| 0 <= x < j ==> #[trigger] codes[x] != codes[j],
    ensures
        lists_words_upto(r, start, cur0, node, codes, j + 1),
{
    lemma_step_sound(node, codes, j, cur0, cur1, start, rb, r);
    lemma_step_distinct(node, codes, j, cur0, cur1, start, rb, r);
    lemma_step_complete(node, codes, j, cur0, cur1, start, rb, r);
}

proof fn lemma_first_codes_grow(codes: Seq<u32>, w: Seq<char>, j: int)
    requires
        in_first_codes(codes, w, j),
    ensures
        in_first_codes(codes, w, j + 1),
{
    if w.len() > 0 {
        let x = choose|x: int| 0 <= x < j && #[trigger] codes[x] == w[0] as u32;
        assert(codes[x] == w[0] as u32);
    }
}

proof fn lemma_sound_new(node: TrieNode, codes: Seq<u32>, j: int, cur0: Seq<char>, cur1: Seq<char>, full: Seq<char>)
    requires
        node_wf(node),
        enumerates(node, codes),
        0 <= j < codes.len(),
        cur1 == cur0.push(node.children@[codes[j]].0),
        cur1.len() <= full.len(),
        full.take(cur1.len() as int) == cur1,
        has_word(node.children@[codes[j]].1, full.skip(cur1.len() as int)),
    ensures
        cur0.len() <= full.len(),
        full.take(cur0.len() as int) == cur0,
        has_word(node, full.skip(cur0.len() as int)),
        in_first_codes(codes, full.skip(cur0.len() as int), j + 1),
{
    let code = codes[j];
    assert(node.children@.contains_key(code));
    let c = node.children@[code].0;
    assert(c as u32 == code);
    let sfx = full.skip(cur0.len() as int);
    let sfx1 = full.skip(cur1.len() as int);
    assert(full.take(cur0.len() as int) =~= cur1.take(cur0.len() as int));
    assert(cur1.take(cur0.len() as int) =~= cur0);
    lemma_prefix_index(full, cur1, cur0.len() as int);
    assert(sfx[0] == full[cur0.len() as int]);
    assert(sfx[0] == c);
    assert(sfx.drop_first() =~= sfx1);
    assert(has_word(node, sfx));
    assert(codes[j] == sfx[0] as u32);
    assert(in_first_codes(codes, sfx, j + 1));
}

proof fn lemma_step_sound(
    node: TrieNode,
    codes: Seq<u32>,
    j: int,
    cur0: Seq<char>,
    cur1: Seq<char>,
    start: int,
    rb: Seq<String>,
    r: Seq<String>,
)
    requires
        node_wf(node),
        enumerates(node, codes),
        0 <= j < codes.len(),
        cur1 == cur0.push(node.children@[codes[j]].0),
        0 <= start <= rb.len() <= r.len(),
        r.take(rb.len() as int) == rb,
        lists_words_upto(rb, start, cur0, node, codes, j),
        lists_words(r, rb.len() as int, cur1, node.children@[codes[j]].1),
    ensures
        forall|a: int|
            start <= a < r.len() ==> cur0.len() <= (#[trigger] r[a])@.len() && r[a]@.take(
                cur0.len() as int,
            ) == cur0 && has_word(node, r[a]@.skip(cur0.len() as int)) && in_first_codes(
                codes,
                r[a]@.skip(cur0.len() as int),
                j + 1,
            ),
{
    let m = rb.len() as int;
    assert forall|a: int| start <= a < r.len() implies cur0.len() <= (#[trigger] r[a])@.len()
        && r[a]@.take(cur0.len() as int) == cur0 && has_word(node, r[a]@.skip(cur0.len() as int))
        && in_first_codes(codes, r[a]@.skip(cur0.len() as int), j + 1) by {
        if a < m {
            assert(r[a] == r.take(m)[a]);
            assert(r[a] == rb[a]);
            lemma_first_codes_grow(codes, r[a]@.skip(cur0.len() as int), j);
        } else {
            lemma_sound_new(node, codes, j, cur0, cur1, r[a]@);
        }
    }
}

#[verifier::rlimit(50)]
proof fn lemma_step_distinct(
    node: TrieNode,
    codes: Seq<u32>,
    j: int,
    cur0: Seq<char>,
    cur1: Seq<char>,
    start: int,
    rb: Seq<String>,
    r: Seq<String>,
)
    requires
        node_wf(node),
        enumerates(node, codes),
        0 <= j < codes.len(),
        cur1 == cur0.push(node.children@[codes[j]].0),
        0 <= start <= rb.len() <= r.len(),
        r.take(rb.len() as int) == rb,
        lists_words_upto(rb, start, cur0, node, codes, j),
        lists_words(r, rb.len() as int, cur1, node.children@[codes[j]].1),
        forall|x: int| 0 <= x < j ==> #[trigger] codes[x] != codes[j],
    ensures
        forall|a: int, b: int| start <= a < b < r.len() ==> (#[trigger] r[a])@ != (#[trigger] r[b])@,
{
    let code = codes[j];
    assert(node.children@.contains_key(code));
    let c = node.children@[code].0;
    assert(c as u32 == code);
    let m = rb.len() as int;
    assert forall|a: int, b: int| start <= a < b < r.len() implies (#[trigger] r[a])@
        != (#[trigger] r[b])@ by {
        if b < m {
            assert(r[a] == r.take(m)[a] && r[b] == r.take(m)[b]);
            assert(rb[a]@ != rb[b]@);
        } else if a >= m {
        } else {
            assert(r[a] == r.take(m)[a]);
            let fa = r[a]@;
            let fb = r[b]@;
            assert(fa == rb[a]@);
            assert(fb.take(cur1.len() as int) == cur1);
            lemma_prefix_index(fb, cur1, cur0.len() as int);
            assert(fb[cur0.len() as int] == c);
            let sa = fa.skip(cur0.len() as int);
            if fa == fb {
                assert(sa.len() > 0);
                assert(sa[0] == fa[cur0.len() as int]);
                assert(in_first_codes(codes, sa, j));
                let x = choose|x: int| 0 <= x < j && #[trigger] codes[x] == sa[0] as u32;
                assert(codes[x] != codes[j]);
            }
        }
    }
}

proof fn lemma_step_complete(
    node: TrieNode,
    codes: Seq<u32>,
    j: int,
    cur0: Seq<char>,
    cur1: Seq<char>,
    start: int,
    rb: Seq<String>,
    r: Seq<String>,
)
    requires
        node_wf(node),
        enumerates(node, codes),
        0 <= j < codes.len(),
        cur1 == cur0.push(node.children@[codes[j]].0),
        0 <= start <= rb.len() <= r.len(),
        r.take(rb.len() as int) == rb,
        lists_words_upto(rb, start, cur0, node, codes, j),
        lists_words(r, rb.len() as int, cur1, node.children@[codes[j]].1),
    ensures
        forall|w: Seq<char>|
            #[trigger] has_word(node, w) && in_first_codes(codes, w, j + 1) ==> exists|a: int|
                start <= a < r.len() && (#[trigger] r[a])@ == cur0 + w,
{
    let code = codes[j];
    assert(node.children@.contains_key(code));
    let c = node.children@[code].0;
    assert(c as u32 == code);
    let child = node.children@[code].1;
    let m = rb.len() as int;
    assert forall|w: Seq<char>|
        #[trigger] has_word(node, w) && in_first_codes(codes, w, j + 1) implies exists|a: int|
        start <= a < r.len() && (#[trigger] r[a])@ == cur0 + w by {
        if in_first_codes(codes, w, j) {
            let a = choose|a: int| start <= a < rb.len() && (#[trigger] rb[a])@ == cur0 + w;
            assert(r[a] == r.take(m)[a]);
            assert(r[a]@ == cur0 + w);
        } else {
            let x = choose|x: int| 0 <= x < j + 1 && #[trigger] codes[x] == w[0] as u32;
            assert(x == j);
            lemma_code_injective(c, w[0]);
            assert(has_word(child, w.drop_first()));
            let a = choose|a: int| m <= a < r.len() && (#[trigger] r[a])@ == cur1 + w.drop_first();
            assert(cur1 + w.drop_first() =~= cur0 + w);
            assert(r[a]@ == cur0 + w);
        }
    }
}

} // verus!

verus! {

/// For the empty prefix, `get_words_with_prefix` lists exactly the stored words.
pub proof fn law_empty_prefix_lists_all(t: Trie, results: Seq<String>)
    requires
        lists_prefix_words(t.words(), Seq::empty(), results),
    ensures
        forall|w: Seq<char>|
            t.words().contains(w) <==> exists|a: int| 0 <= a < results.len() && (#[trigger] results[a])@ == w,
{
    assert forall|w: Seq<char>| Seq::<char>::empty().is_prefix_of(w) by {
        assert(Seq::<char>::empty() =~= w.subrange(0, 0));
    }
    assert forall|w: Seq<char>|
        (exists|a: int| 0 <= a < results.len() && (#[trigger] results[a])@ == w) implies t.words().contains(w) by {
        let a = choose|a: int| 0 <= a < results.len() && (#[trigger] results[a])@ == w;
        assert(t.words().contains(results[a]@));
    }
}

/// After `insert(w)`, `get_words_with_prefix(p)` lists `w` for each prefix `p` of `w`, and
/// lists any other word exactly when it was stored before and begins with `p`.
pub proof fn law_inserted_word_is_listed(before: Trie, after: Trie, w: Seq<char>, p: Seq<char>, results: Seq<String>)
    requires
        after.words() == before.words().insert(w),
        p.is_prefix_of(w),
        lists_prefix_words(after.words(), p, results),
    ensures
        exists|a: int| 0 <= a < results.len() && (#[trigger] results[a])@ == w,
        forall|v: Seq<char>|
            v != w ==> ((exists|a: int| 0 <= a < results.len() && (#[trigger] results[a])@ == v) <==> (
            before.words().contains(v) && p.is_prefix_of(v))),
{
    assert(after.words().contains(w));
    assert forall|v: Seq<char>|
        v != w implies ((exists|a: int| 0 <= a < results.len() && (#[trigger] results[a])@ == v) <==> (
        before.words().contains(v) && p.is_prefix_of(v))) by {
        if exists|a: int| 0 <= a < results.len() && (#[trigger] results[a])@ == v {
            let a = choose|a: int| 0 <= a < results.len() && (#[trigger] results[a])@ == v;
            assert(after.words().contains(results[a]@));
        }
        if before.words().contains(v) && p.is_prefix_of(v) {
            assert(after.words().contains(v));
        }
    }
}

} // verus!
