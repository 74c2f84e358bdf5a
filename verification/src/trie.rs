//! A prefix tree of command names, used for tab completion.

use vstd::prelude::*;
use std::collections::HashMap;
use vstd::std_specs::iter::IteratorSpec;
use crate::text::{
    push_char, char_code, char_from_code, has_prefix, insert_sorted, lemma_scalar_injective, scalar,
    str_chars, strictly_sorted, string_from_chars, string_views, views,
};

verus! {

broadcast use vstd::std_specs::hash::group_hash_axioms;

/// A node of the trie: its children, keyed by the scalar value of the character
/// that leads to them, and whether the path to this node spells a stored word.
pub struct TrieNode {
    children: HashMap<u32, TrieNode>,
    is_end: bool,
}

/// A prefix tree holding a set of words.
pub struct Trie {
    root: TrieNode,
}

/// `node` accepts `w`: following the characters of `w` from `node` ends at a node
/// that marks the end of a word.
pub closed spec fn accepts(node: TrieNode, w: Seq<char>) -> bool
    decreases w.len(),
{
    if w.len() == 0 {
        node.is_end
    } else {
        let k = w[0] as u32;
        node.children@.contains_key(k) && accepts(node.children@[k], w.drop_first())
    }
}

/// The node reached from `node` by following the characters of `path`, if any.
pub closed spec fn reach(node: TrieNode, path: Seq<char>) -> Option<TrieNode>
    decreases path.len(),
{
    if path.len() == 0 {
        Some(node)
    } else {
        let k = path[0] as u32;
        if node.children@.contains_key(k) {
            reach(node.children@[k], path.drop_first())
        } else {
            None
        }
    }
}

/// Some word passes through `node`.
pub closed spec fn live(node: TrieNode) -> bool {
    exists|w: Seq<char>| #[trigger] accepts(node, w)
}

/// The children of `node` are keyed by scalar values of characters, and each leads to a word.
pub closed spec fn local_ok(node: TrieNode) -> bool {
    forall|k: u32| #[trigger]
        node.children@.contains_key(k) ==> (exists|c: char| #[trigger] scalar(c) == k) && live(
            node.children@[k],
        )
}

/// Every node below `node` is `local_ok`.
pub closed spec fn node_wf(node: TrieNode) -> bool {
    forall|q: Seq<char>| #[trigger]
        reach(node, q) is Some ==> local_ok(reach(node, q).unwrap())
}

impl TrieNode {
    /// This node marks the end of a stored word.
    pub closed spec fn ends_word(self) -> bool {
        self.is_end
    }

    /// The words stored below this node.
    pub closed spec fn words(self) -> Set<Seq<char>> {
        Set::new(|w: Seq<char>| accepts(self, w))
    }

    /// A node with no children that marks no word.
    fn new() -> (n: TrieNode)
        ensures
            n.children@ == Map::<u32, TrieNode>::empty(),
            !n.is_end,
    {
        TrieNode { children: HashMap::new(), is_end: false }
    }
}

impl Trie {
    /// The node reached by following `p` from the root, if any.
    pub closed spec fn node_for(self, p: Seq<char>) -> Option<TrieNode> {
        reach(self.root, p)
    }
}

impl View for Trie {
    type V = Set<Seq<char>>;

    closed spec fn view(&self) -> Set<Seq<char>> {
        self.root.words()
    }
}

proof fn lemma_empty_node(n: TrieNode)
    requires
        n.children@ == Map::<u32, TrieNode>::empty(),
    ensures
        node_wf(n),
        forall|w: Seq<char>| accepts(n, w) <==> (w.len() == 0 && n.is_end),
{
    assert forall|q: Seq<char>| #[trigger] reach(n, q) is Some implies local_ok(reach(n, q).unwrap()) by {
        if q.len() > 0 {
        } else {
            assert(reach(n, q) == Some(n));
        }
    }
}

/// A child of a well-formed node is well formed.
proof fn lemma_child_wf(n: TrieNode, k: u32)
    requires
        node_wf(n),
        n.children@.contains_key(k),
    ensures
        node_wf(n.children@[k]),
        exists|c: char| #[trigger] scalar(c) == k,
{
    assert(reach(n, Seq::<char>::empty()) == Some(n));
    assert(local_ok(n));
    let c = choose|c: char| #[trigger] scalar(c) == k;
    let child = n.children@[k];
    assert forall|q: Seq<char>| #[trigger] reach(child, q) is Some implies local_ok(reach(child, q).unwrap()) by {
        let q2 = seq![c] + q;
        assert(q2.drop_first() == q);
        assert(reach(n, q2) == reach(child, q));
    }
}

/// Adds the suffix `word[i..]` to the words below `node`.
fn insert_suffix(node: &mut TrieNode, word: &Vec<char>, i: usize)
    requires
        i <= word@.len(),
        node_wf(*old(node)),
    ensures
        node_wf(*final(node)),
        forall|w: Seq<char>|
            accepts(*final(node), w) <==> (accepts(*old(node), w) || w == word@.skip(i as int)),
    decreases word@.len() - i,
{
    if i == word.len() {
        node.is_end = true;
        proof {
            assert forall|w: Seq<char>|
                accepts(*final(node), w) <==> (accepts(*old(node), w) || w == word@.skip(
                    i as int,
                )) by {
                if w.len() == 0 {
                    assert(w == word@.skip(i as int));
                }
            }
            assert forall|q: Seq<char>| #[trigger]
                reach(*final(node), q) is Some implies local_ok(reach(*final(node), q).unwrap()) by {
                if q.len() == 0 {
                    assert(reach(*old(node), q) == Some(*old(node)));
                } else {
                    assert(reach(*final(node), q) == reach(*old(node), q));
                }
            }
        }
        return;
    }
    let c = word[i];
    let k = char_code(c);
    let ghost old_node = *node;
    let removed = node.children.remove(&k);
    let mut child = match removed {
        Some(ch) => ch,
        None => TrieNode::new(),
    };
    let ghost old_child = child;
    proof {
        if old_node.children@.contains_key(k) {
            lemma_child_wf(old_node, k);
            assert(old_child == old_node.children@[k]);
        } else {
            lemma_empty_node(old_child);
        }
    }
    insert_suffix(&mut child, word, i + 1);
    node.children.insert(k, child);
    proof {
        let new_node = *node;
        assert(new_node.children@ == old_node.children@.insert(k, child));
        assert(new_node.is_end == old_node.is_end);
        assert forall|w: Seq<char>|
            accepts(new_node, w) <==> (accepts(old_node, w) || w == word@.skip(i as int)) by {
            if w.len() > 0 {
                lemma_scalar_injective(w[0], c);
                if w[0] as u32 == k {
                    assert(accepts(child, w.drop_first()) <==> (accepts(old_child, w.drop_first())
                        || w.drop_first() == word@.skip(i + 1)));
                    if w.drop_first() == word@.skip(i + 1) {
                        assert(w == seq![w[0]] + w.drop_first());
                        assert(word@.skip(i as int) == seq![c] + word@.skip(i + 1));
                    }
                    if w == word@.skip(i as int) {
                        assert(w.drop_first() == word@.skip(i + 1));
                    }
                } else {
                    assert(w != word@.skip(i as int));
                }
            } else {
                assert(w != word@.skip(i as int));
            }
        }
        assert(accepts(child, word@.skip(i + 1)));
        assert(scalar(c) == k);
        assert forall|q: Seq<char>| #[trigger]
            reach(new_node, q) is Some implies local_ok(reach(new_node, q).unwrap()) by {
            if q.len() == 0 {
                assert(reach(new_node, q) == Some(new_node));
                assert(reach(old_node, q) == Some(old_node));
                assert forall|k2: u32| #[trigger]
                    new_node.children@.contains_key(k2) implies (exists|d: char| #[trigger] scalar(d) == k2)
                    && live(new_node.children@[k2]) by {
                    if k2 == k {
                        assert(accepts(new_node.children@[k2], word@.skip(i + 1)));
                    } else {
                        assert(old_node.children@.contains_key(k2));
                    }
                }
            } else {
                let k2 = q[0] as u32;
                if k2 == k {
                    assert(reach(new_node, q) == reach(child, q.drop_first()));
                } else {
                    assert(reach(new_node, q) == reach(old_node, q));
                }
            }
        }
    }
}

/// Following `a + b` from `n` is following `a`, then `b`.
proof fn lemma_reach_append(n: TrieNode, a: Seq<char>, b: Seq<char>)
    ensures
        reach(n, a + b) == (match reach(n, a) {
            Some(m) => reach(m, b),
            None => None,
        }),
    decreases a.len(),
{
    if a.len() > 0 {
        assert((a + b).drop_first() == a.drop_first() + b);
        assert((a + b)[0] == a[0]);
        let k = a[0] as u32;
        if n.children@.contains_key(k) {
            lemma_reach_append(n.children@[k], a.drop_first(), b);
        }
    } else {
        assert(a + b == b);
    }
}

/// `n` accepts `a + b` exactly when the node reached by `a` accepts `b`.
proof fn lemma_accepts_append(n: TrieNode, a: Seq<char>, b: Seq<char>)
    ensures
        accepts(n, a + b) <==> (reach(n, a) is Some && accepts(reach(n, a).unwrap(), b)),
    decreases a.len(),
{
    if a.len() > 0 {
        assert((a + b).drop_first() == a.drop_first() + b);
        assert((a + b)[0] == a[0]);
        let k = a[0] as u32;
        if n.children@.contains_key(k) {
            lemma_accepts_append(n.children@[k], a.drop_first(), b);
        }
    } else {
        assert(a + b == b);
    }
}

/// `t` is `cur` followed by a word that `node` accepts.
pub closed spec fn below(node: TrieNode, cur: Seq<char>, t: Seq<char>) -> bool {
    has_prefix(t, cur) && accepts(node, t.skip(cur.len() as int))
}

/// Unfolds `below` by one character.
proof fn lemma_below_unfold(node: TrieNode, cur: Seq<char>, t: Seq<char>)
    ensures
        below(node, cur, t) <==> ((t == cur && node.is_end) || (t.len() > cur.len() && has_prefix(
            t,
            cur,
        ) && node.children@.contains_key(scalar(t[cur.len() as int])) && accepts(
            node.children@[scalar(t[cur.len() as int])],
            t.skip(cur.len() as int + 1),
        ))),
{
    let n = cur.len() as int;
    let w = t.skip(n);
    if has_prefix(t, cur) {
        if t.len() > n {
            assert(w[0] == t[n]);
            assert(w.drop_first() == t.skip(n + 1));
        } else {
            assert(t == t.take(n));
            assert(w.len() == 0);
        }
    }
    if t == cur {
        assert(t.take(n) == t);
        assert(t.skip(n).len() == 0);
    }
}

/// The words below a child, preceded by `cur` and the child's character.
proof fn lemma_below_child(child: TrieNode, cur: Seq<char>, c: char, t: Seq<char>)
    ensures
        below(child, cur.push(c), t) <==> (t.len() > cur.len() && has_prefix(t, cur) && t[cur.len() as int]
            == c && accepts(child, t.skip(cur.len() as int + 1))),
{
    let n = cur.len() as int;
    let next = cur.push(c);
    if has_prefix(t, next) {
        assert(t.take(n + 1)[n] == t[n]);
        assert(t.take(n) == t.take(n + 1).take(n));
        assert(next.take(n) == cur);
    }
    if t.len() > n && has_prefix(t, cur) && t[n] == c {
        assert(t.take(n + 1) == t.take(n).push(t[n]));
    }
}

/// What a call appended to a list that held `before` and now holds `after`.
spec fn appended(before: Seq<Vec<char>>, after: Seq<Vec<char>>) -> Seq<Seq<char>> {
    views(after).skip(before.len() as int)
}

/// The part of the words below a node that the children with keys in `seen` give,
/// together with the node's own word.
spec fn below_seen(node: TrieNode, cur: Seq<char>, seen: Set<u32>, t: Seq<char>) -> bool {
    let n = cur.len() as int;
    ||| t == cur && node.is_end
    ||| t.len() > n && has_prefix(t, cur) && seen.contains(scalar(t[n]))
        && node.children@.contains_key(scalar(t[n])) && accepts(
        node.children@[scalar(t[n])],
        t.skip(n + 1),
    )
}

/// Appends to `matches` every word below `node`, each preceded by `current` and each
/// once, in the order in which the children are visited; what `matches` held stays in
/// front.
fn collect_matches(node: &TrieNode, current: &Vec<char>, matches: &mut Vec<Vec<char>>)
    ensures
        final(matches)@.len() >= old(matches)@.len(),
        views(final(matches)@).take(old(matches)@.len() as int) == views(old(matches)@),
        appended(old(matches)@, final(matches)@).no_duplicates(),
        forall|t: Seq<char>| #[trigger]
            appended(old(matches)@, final(matches)@).contains(t) <==> below(*node, current@, t),
    decreases node,
{
    let ghost cur = current@;
    let ghost n: int = cur.len() as int;
    let ghost base = views(old(matches)@);
    let ghost b = old(matches)@.len() as int;
    if node.is_end {
        let copy = current.clone();
        assert(copy@ == cur);
        matches.push(copy);
    }
    let ghost mut seen: Set<u32> = Set::empty();
    proof {
        let a = appended(old(matches)@, matches@);
        assert(views(matches@).take(b) =~= base);
        if node.is_end {
            assert(a =~= seq![cur]);
        } else {
            assert(a =~= Seq::<Seq<char>>::empty());
        }
        assert forall|t: Seq<char>| #[trigger] a.contains(t) <==> below_seen(*node, cur, seen, t) by {
            if node.is_end && t == cur {
                assert(a[0] == t);
            }
        }
    }
    let iter = node.children.iter();
    let ghost all = iter.remaining();
    assert(all.no_duplicates());
    for entry in it: iter
        invariant
            it.seq() == all,
            all.no_duplicates(),
            all == vstd::std_specs::hash::spec_hash_map_iter(&node.children).remaining(),
            cur == current@,
            n == cur.len(),
            base == views(old(matches)@),
            b == old(matches)@.len(),
            matches@.len() >= b,
            views(matches@).take(b) == base,
            appended(old(matches)@, matches@).no_duplicates(),
            forall|t: Seq<char>| #[trigger]
                appended(old(matches)@, matches@).contains(t) <==> below_seen(*node, cur, seen, t),
            forall|k: u32| #[trigger]
                seen.contains(k) <==> exists|j: int| 0 <= j < it.index() && *(#[trigger] all[j]).0 == k,
    {
        let (kr, child) = entry;
        let k = *kr;
        let ghost idx = it.index();
        proof {
            assert(all[idx] == (kr, child));
            assert(node.children@.contains_key(k));
            assert(*child == node.children@[k]);
            assert(decreases_to!(node => node.children));
            assert(decreases_to!(node.children => node.children@));
            assert(decreases_to!(node.children@ => node.children@[k]));
            if seen.contains(k) {
                let j = choose|j: int| 0 <= j < idx && *(#[trigger] all[j]).0 == k;
                assert(*all[j].1 == node.children@[k]);
                assert(all[j] == all[idx]);
                assert(false);
            }
        }
        let ghost before = matches@;
        let ghost a0 = appended(old(matches)@, before);
        let ghost new_seen = seen.insert(k);
        match char_from_code(k) {
            Some(c) => {
                let mut next = current.clone();
                next.push(c);
                assert(next@ == cur.push(c));
                collect_matches(child, &next, matches);
                proof {
                    let a2 = appended(before, matches@);
                    let a = appended(old(matches)@, matches@);
                    assert(views(matches@).take(before.len() as int) == views(before));
                    assert(a =~= a0 + a2);
                    assert(views(matches@).take(b) =~= views(matches@).take(before.len() as int).take(b));
                    assert forall|t: Seq<char>| a2.contains(t) implies t.len() > n && has_prefix(t, cur)
                        && scalar(t[n]) == k by {
                        lemma_below_child(*child, cur, c, t);
                    }
                    assert forall|i: int, j: int|
                        0 <= i < a.len() && 0 <= j < a.len() && i != j implies a[i] != a[j] by {
                        if i < a0.len() && j >= a0.len() {
                            assert(a0.contains(a[i]));
                            assert(a2.contains(a[j]));
                        } else if j < a0.len() && i >= a0.len() {
                            assert(a0.contains(a[j]));
                            assert(a2.contains(a[i]));
                        } else if i < a0.len() {
                            assert(a[i] == a0[i] && a[j] == a0[j]);
                        } else {
                            assert(a[i] == a2[i - a0.len()] && a[j] == a2[j - a0.len()]);
                        }
                    }
                    assert forall|t: Seq<char>| #[trigger]
                        a.contains(t) <==> below_seen(*node, cur, new_seen, t) by {
                        assert(a0.contains(t) <==> below_seen(*node, cur, seen, t));
                        assert(a2.contains(t) <==> below(*child, next@, t));
                        lemma_below_child(*child, cur, c, t);
                        if a.contains(t) {
                            let i = choose|i: int| 0 <= i < a.len() && a[i] == t;
                            if i < a0.len() {
                                assert(a0[i] == t);
                            } else {
                                assert(a2[i - a0.len()] == t);
                            }
                        }
                        if a0.contains(t) {
                            let i = choose|i: int| 0 <= i < a0.len() && a0[i] == t;
                            assert(a[i] == t);
                        }
                        if a2.contains(t) {
                            let i = choose|i: int| 0 <= i < a2.len() && a2[i] == t;
                            assert(a[i + a0.len()] == t);
                        }
                        if t.len() > n {
                            lemma_scalar_injective(t[n], c);
                        }
                    }
                }
            },
            None => {
                proof {
                    assert forall|t: Seq<char>| #[trigger]
                        a0.contains(t) <==> below_seen(*node, cur, new_seen, t) by {
                        if t.len() > n {
                            assert(scalar(t[n]) != k);
                        }
                    }
                }
            },
        }
        proof {
            assert forall|k2: u32| #[trigger]
                new_seen.contains(k2) <==> exists|j: int| 0 <= j < idx + 1 && *(#[trigger] all[j]).0 == k2 by {
                if k2 == k {
                    assert(*all[idx].0 == k);
                }
                if exists|j: int| 0 <= j < idx + 1 && *(#[trigger] all[j]).0 == k2 {
                    let j = choose|j: int| 0 <= j < idx + 1 && *(#[trigger] all[j]).0 == k2;
                    if j < idx {
                        assert(seen.contains(k2));
                    }
                }
            }
            seen = new_seen;
        }
    }
    proof {
        let m = node.children;
        let a = appended(old(matches)@, matches@);
        assert forall|k: u32| m@.contains_key(k) implies seen.contains(k) by {
            assert(all.contains((&k, &m@[k])));
            let j = choose|j: int| 0 <= j < all.len() && all[j] == (&k, &m@[k]);
            assert(*all[j].0 == k);
        }
        assert forall|t: Seq<char>| #[trigger] a.contains(t) <==> below(*node, cur, t) by {
            lemma_below_unfold(*node, cur, t);
            assert(a.contains(t) <==> below_seen(*node, cur, seen, t));
            if t.len() > n && node.children@.contains_key(scalar(t[n])) {
                assert(seen.contains(scalar(t[n])));
            }
        }
    }
}

impl Trie {
    #[verifier::type_invariant]
    spec fn wf(self) -> bool {
        node_wf(self.root)
    }

    /// An empty trie.
    pub fn new() -> (t: Trie)
        ensures
            t@ == Set::<Seq<char>>::empty(),
    {
        let root = TrieNode::new();
        proof {
            lemma_empty_node(root);
        }
        let t = Trie { root };
        assert(t@ =~= Set::<Seq<char>>::empty());
        t
    }

    /// Stores `word`.
    pub fn insert(&mut self, word: &str)
        ensures
            final(self)@ == old(self)@.insert(word@),
    {
        proof {
            use_type_invariant(&*self);
        }
        let chars = str_chars(word);
        let mut root = TrieNode::new();
        std::mem::swap(&mut root, &mut self.root);
        proof {
            lemma_empty_node(self.root);
        }
        insert_suffix(&mut root, &chars, 0);
        assert(chars@.skip(0) == chars@);
        self.root = root;
        assert(self@ =~= old(self)@.insert(word@));
    }
}

impl Trie {
    /// The node reached by following `prefix` from the root, if any: there is one exactly
    /// when `prefix` is empty or some stored word begins with it, and it marks the end of
    /// a word exactly when `prefix` is stored.
    pub fn find_node(&self, prefix: &[char]) -> (r: Option<&TrieNode>)
        ensures
            match r {
                Some(n) => self.node_for(prefix@) == Some(*n),
                None => self.node_for(prefix@) is None,
            },
            r is Some <==> (prefix@.len() == 0 || has_match(self@, prefix@)),
            r matches Some(n) ==> (n.ends_word() <==> self@.contains(prefix@)),
    {
        proof {
            use_type_invariant(self);
            lemma_reach_iff_match(self.root, prefix@);
        }
        let mut current = &self.root;
        let mut i: usize = 0;
        assert(prefix@.take(0) == Seq::<char>::empty());
        while i < prefix.len()
            invariant
                i <= prefix@.len(),
                reach(self.root, prefix@.take(i as int)) == Some(*current),
                reach(self.root, prefix@) is Some <==> (prefix@.len() == 0 || has_match(
                    self@,
                    prefix@,
                )),
            decreases prefix@.len() - i,
        {
            let ghost p = prefix@;
            proof {
                lemma_reach_append(self.root, p.take(i as int), seq![p[i as int]]);
                assert(p.take(i as int) + seq![p[i as int]] == p.take(i + 1));
                assert(seq![p[i as int]].drop_first() == Seq::<char>::empty());
            }
            match current.children.get(&char_code(prefix[i])) {
                Some(node) => {
                    proof {
                        assert(seq![p[i as int]][0] == p[i as int]);
                        assert(reach(*node, Seq::<char>::empty()) == Some(*node));
                        assert(reach(*current, seq![p[i as int]]) == Some(*node));
                    }
                    current = node;
                },
                None => {
                    proof {
                        lemma_reach_append(self.root, p.take(i + 1), p.skip(i + 1));
                        assert(p.take(i + 1) + p.skip(i + 1) == p);
                    }
                    return None;
                },
            }
            i = i + 1;
        }
        assert(prefix@.take(prefix@.len() as int) == prefix@);
        Some(current)
    }

    /// The stored words that begin with `prefix`, in increasing order, each once.
    pub fn get_matches(&self, prefix: &str) -> (r: Vec<String>)
        ensures
            strictly_sorted(string_views(r@)),
            forall|t: Seq<char>| #[trigger]
                string_views(r@).contains(t) <==> (self@.contains(t) && has_prefix(t, prefix@)),
    {
        let p = str_chars(prefix);
        let node = match self.find_node(p.as_slice()) {
            Some(n) => n,
            None => {
                proof {
                    assert forall|t: Seq<char>| !(self@.contains(t) && has_prefix(t, prefix@)) by {
                        if has_prefix(t, prefix@) {
                            lemma_accepts_append(self.root, p@, t.skip(p@.len() as int));
                            assert(p@ + t.skip(p@.len() as int) == t);
                        }
                    }
                }
                let empty: Vec<String> = Vec::new();
                assert(string_views(empty@) == Seq::<Seq<char>>::empty());
                return empty;
            },
        };
        let mut found: Vec<Vec<char>> = Vec::new();
        collect_matches(node, &p, &mut found);
        let ghost fv = views(found@);
        assert(appended(Seq::<Vec<char>>::empty(), found@) == fv);
        let mut matches: Vec<Vec<char>> = Vec::new();
        let mut j: usize = 0;
        assert(views(matches@) == Seq::<Seq<char>>::empty());
        while j < found.len()
            invariant
                j <= found@.len(),
                fv == views(found@),
                strictly_sorted(views(matches@)),
                forall|t: Seq<char>| #[trigger]
                    views(matches@).contains(t) <==> fv.take(j as int).contains(t),
            decreases found@.len() - j,
        {
            let w = found[j].clone();
            assert(w@ == fv[j as int]);
            let ghost old_m = views(matches@);
            insert_sorted(&mut matches, w);
            proof {
                assert forall|t: Seq<char>| #[trigger] old_m.contains(t) <==> fv.take(j as int).contains(t) by {}
                assert forall|t: Seq<char>| #[trigger]
                    views(matches@).contains(t) <==> (old_m.contains(t) || t == fv[j as int]) by {}
                assert(fv.take(j + 1) == fv.take(j as int).push(fv[j as int]));
                assert forall|t: Seq<char>| #[trigger]
                    views(matches@).contains(t) <==> fv.take(j + 1).contains(t) by {
                    if t == fv[j as int] {
                        assert(fv.take(j + 1)[j as int] == t);
                    }
                    if fv.take(j + 1).contains(t) && t != fv[j as int] {
                        let i = choose|i: int| 0 <= i < j + 1 && #[trigger] fv.take(j + 1)[i] == t;
                        assert(fv.take(j as int)[i] == t);
                    }
                    if fv.take(j as int).contains(t) {
                        let i = choose|i: int| 0 <= i < j && #[trigger] fv.take(j as int)[i] == t;
                        assert(fv.take(j + 1)[i] == t);
                    }
                }
            }
            j = j + 1;
        }
        assert(fv.take(found@.len() as int) == fv);
        let mut out: Vec<String> = Vec::new();
        let mut i: usize = 0;
        while i < matches.len()
            invariant
                i <= matches@.len(),
                string_views(out@) == views(matches@).take(i as int),
            decreases matches@.len() - i,
        {
            let s = string_from_chars(matches[i].as_slice());
            let ghost before = out@;
            out.push(s);
            proof {
                assert(string_views(out@) =~= string_views(before).push(matches@[i as int]@));
                assert(views(matches@).take(i + 1) =~= views(matches@).take(i as int).push(
                    matches@[i as int]@,
                ));
            }
            i = i + 1;
        }
        proof {
            assert(views(matches@).take(matches@.len() as int) == views(matches@));
            assert forall|t: Seq<char>| #[trigger]
                string_views(out@).contains(t) <==> (self@.contains(t) && has_prefix(t, prefix@)) by {
                assert(fv.contains(t) <==> below(*node, p@, t));
                assert(views(matches@).contains(t) <==> below(*node, p@, t));
                lemma_accepts_append(self.root, p@, t.skip(p@.len() as int));
                if has_prefix(t, prefix@) {
                    assert(p@ + t.skip(p@.len() as int) == t);
                }
            }
        }
        out
    }
}

/// Some stored word begins with `q` followed by `c`.
pub open spec fn continues_with(words: Set<Seq<char>>, q: Seq<char>, c: char) -> bool {
    exists|w: Seq<char>| #[trigger] words.contains(w) && has_prefix(w, q.push(c))
}

/// `c` is the one character that follows `q` in the stored words.
pub open spec fn only_continuation(words: Set<Seq<char>>, q: Seq<char>, c: char) -> bool {
    &&& continues_with(words, q, c)
    &&& forall|d: char| #[trigger] continues_with(words, q, d) ==> d == c
}

/// Some stored word begins with `p`.
pub open spec fn has_match(words: Set<Seq<char>>, p: Seq<char>) -> bool {
    exists|w: Seq<char>| #[trigger] words.contains(w) && has_prefix(w, p)
}

/// `q` is what completing `p` gives: `p` extended one character at a time for as long
/// as the text so far is not a stored word and exactly one character can follow it.
pub open spec fn is_completion(words: Set<Seq<char>>, p: Seq<char>, q: Seq<char>) -> bool {
    &&& has_prefix(q, p)
    &&& forall|i: int|
        p.len() <= i < q.len() ==> !words.contains(#[trigger] q.take(i)) && only_continuation(
            words,
            q.take(i),
            q[i],
        )
    &&& words.contains(q) || !(exists|c: char| #[trigger] only_continuation(words, q, c))
}

/// What the shape of a well-formed trie says about its words at the node for `q`.
proof fn lemma_node_at(root: TrieNode, q: Seq<char>)
    requires
        node_wf(root),
        reach(root, q) is Some,
    ensures
        ({
            let n = reach(root, q).unwrap();
            let words = root.words();
            &&& n.is_end <==> words.contains(q)
            &&& forall|c: char| #[trigger]
                continues_with(words, q, c) <==> n.children@.contains_key(scalar(c))
            &&& forall|k: u32| #[trigger]
                n.children@.contains_key(k) ==> exists|c: char| #[trigger] scalar(c) == k
            &&& live(n) <==> has_match(words, q)
            &&& live(n) <==> (n.is_end || exists|k: u32| #[trigger] n.children@.contains_key(k))
        }),
{
    let n = reach(root, q).unwrap();
    let words = root.words();
    assert(local_ok(n));
    lemma_accepts_append(root, q, Seq::<char>::empty());
    assert(q + Seq::<char>::empty() == q);
    assert forall|c: char| #[trigger]
        continues_with(words, q, c) <==> n.children@.contains_key(scalar(c)) by {
        if continues_with(words, q, c) {
            let w = choose|w: Seq<char>| #[trigger] words.contains(w) && has_prefix(w, q.push(c));
            let rest = w.skip(q.len() as int);
            assert(w.take(q.len() as int + 1).take(q.len() as int) == w.take(q.len() as int));
            assert(q.push(c).take(q.len() as int) == q);
            assert(q + rest =~= w);
            assert(rest[0] == w.take(q.len() as int + 1)[q.len() as int]);
            lemma_accepts_append(root, q, rest);
        }
        if n.children@.contains_key(scalar(c)) {
            let child = n.children@[scalar(c)];
            assert(live(child));
            let w = choose|w: Seq<char>| #[trigger] accepts(child, w);
            let rest = seq![c] + w;
            assert(rest.drop_first() == w);
            assert(accepts(n, rest));
            lemma_accepts_append(root, q, rest);
            assert((q + rest).take(q.len() as int + 1) == q.push(c));
            assert(words.contains(q + rest));
        }
    }
    if live(n) {
        let w = choose|w: Seq<char>| #[trigger] accepts(n, w);
        lemma_accepts_append(root, q, w);
        assert((q + w).take(q.len() as int) == q);
        assert(words.contains(q + w));
        if !n.is_end {
            assert(w.len() > 0);
            assert(n.children@.contains_key(scalar(w[0])));
        }
    }
    if has_match(words, q) {
        let w = choose|w: Seq<char>| #[trigger] words.contains(w) && has_prefix(w, q);
        let rest = w.skip(q.len() as int);
        lemma_accepts_append(root, q, rest);
        assert(q + rest == w);
        assert(accepts(n, rest));
    }
    if exists|k: u32| #[trigger] n.children@.contains_key(k) {
        let k = choose|k: u32| #[trigger] n.children@.contains_key(k);
        let child = n.children@[k];
        assert(live(child));
        let w = choose|w: Seq<char>| #[trigger] accepts(child, w);
        let c = choose|c: char| #[trigger] scalar(c) == k;
        let rest = seq![c] + w;
        assert(rest.drop_first() == w);
        assert(accepts(n, rest));
    }
    if n.is_end {
        assert(accepts(n, Seq::<char>::empty()));
    }
}

/// In a well-formed trie a node is reached by `q` exactly when `q` is empty or begins
/// a stored word, and it marks the end of a word exactly when `q` is stored.
proof fn lemma_reach_iff_match(root: TrieNode, q: Seq<char>)
    requires
        node_wf(root),
    ensures
        reach(root, q) is Some <==> (q.len() == 0 || has_match(root.words(), q)),
        reach(root, q) is Some ==> (reach(root, q).unwrap().is_end <==> root.words().contains(q)),
{
    let words = root.words();
    if reach(root, q) is Some {
        lemma_node_at(root, q);
        if q.len() > 0 {
            let q0 = q.drop_last();
            let c = q.last();
            lemma_reach_append(root, q0, seq![c]);
            assert(q0 + seq![c] == q);
            let m = reach(root, q0).unwrap();
            assert(local_ok(m));
            assert(seq![c].drop_first() == Seq::<char>::empty());
            assert(m.children@.contains_key(scalar(c)));
            assert(reach(m.children@[scalar(c)], Seq::<char>::empty()) == Some(m.children@[scalar(c)]));
            assert(live(reach(root, q).unwrap()));
        }
    } else {
        assert(reach(root, Seq::<char>::empty()) == Some(root));
        if has_match(words, q) {
            let w = choose|w: Seq<char>| #[trigger] words.contains(w) && has_prefix(w, q);
            lemma_accepts_append(root, q, w.skip(q.len() as int));
            assert(q + w.skip(q.len() as int) == w);
        }
    }
}

/// At a node with exactly the children keys `{scalar(c)}`, `c` is the only continuation.
proof fn lemma_single_child(root: TrieNode, q: Seq<char>, c: char)
    requires
        node_wf(root),
        reach(root, q) is Some,
    ensures
        only_continuation(root.words(), q, c) <==> reach(root, q).unwrap().children@.dom() =~= set![
            scalar(c),
        ],
{
    let n = reach(root, q).unwrap();
    let words = root.words();
    lemma_node_at(root, q);
    if only_continuation(words, q, c) {
        assert forall|k: u32| n.children@.contains_key(k) <==> k == scalar(c) by {
            if n.children@.contains_key(k) {
                let d = choose|d: char| #[trigger] scalar(d) == k;
                assert(continues_with(words, q, d));
                assert(d == c);
            }
        }
    }
    if n.children@.dom() =~= set![scalar(c)] {
        assert(n.children@.contains_key(scalar(c)));
        assert forall|d: char| #[trigger] continues_with(words, q, d) implies d == c by {
            assert(n.children@.contains_key(scalar(d)));
            lemma_scalar_injective(d, c);
        }
    }
}

/// The key and child of a node that has exactly one child.
fn only_child(node: &TrieNode) -> (r: Option<(u32, &TrieNode)>)
    requires
        node.children@.dom().len() == 1,
    ensures
        r matches Some(e) && node.children@.contains_key(e.0) && *e.1 == node.children@[e.0],
{
    let ghost all = vstd::std_specs::hash::spec_hash_map_iter(&node.children).remaining();
    for entry in it: node.children.iter()
        invariant
            it.seq() == all,
            it.index() == 0,
            all.len() == 1,
    {
        let (k, child) = entry;
        return Some((*k, child));
    }
    proof {
        assert(false);
    }
    None
}

impl Trie {
    /// Extends `prefix` for as long as it is not a stored word and exactly one character
    /// can follow it; `None` when no stored word begins with `prefix`.
    pub fn autocomplete(&self, prefix: &str) -> (r: Option<String>)
        ensures
            r is None <==> !has_match(self@, prefix@),
            r matches Some(q) ==> is_completion(self@, prefix@, q@),
    {
        proof {
            use_type_invariant(self);
        }
        let p = str_chars(prefix);
        let ghost words = self@;
        let mut result = string_from_chars(p.as_slice());
        let mut current = match self.find_node(p.as_slice()) {
            Some(n) => n,
            None => {
                proof {
                    if has_match(words, p@) {
                        let w = choose|w: Seq<char>| #[trigger] words.contains(w) && has_prefix(w, p@);
                        lemma_accepts_append(self.root, p@, w.skip(p@.len() as int));
                        assert(p@ + w.skip(p@.len() as int) == w);
                    }
                }
                return None;
            },
        };
        let mut grown = false;
        proof {
            lemma_node_at(self.root, p@);
            assert(p@.take(p@.len() as int) == p@);
        }
        while !current.is_end && current.children.len() == 1
            invariant
                node_wf(self.root),
                words == self@,
                reach(self.root, result@) == Some(*current),
                has_prefix(result@, p@),
                grown == (result@.len() > p@.len()),
                grown ==> live(*current),
                forall|i: int|
                    p@.len() <= i < result@.len() ==> !words.contains(#[trigger] result@.take(i))
                        && only_continuation(words, result@.take(i), result@[i]),
            decreases *current,
        {
            let ghost q = result@;
            proof {
                lemma_node_at(self.root, q);
            }
            match only_child(current) {
                Some((k, next)) => {
                    proof {
                        assert(current.children@.contains_key(k));
                        assert(decreases_to!(*current => current.children));
                        assert(decreases_to!(current.children => current.children@));
                        assert(decreases_to!(current.children@ => current.children@[k]));
                    }
                    match char_from_code(k) {
                        Some(c) => {
                            proof {
                                assert(current.children@.dom().len() == 1);
                                assert(current.children@.dom() =~= set![k]) by {
                                    let d = current.children@.dom();
                                    assert(d.contains(k));
                                    assert forall|k2: u32| d.contains(k2) implies k2 == k by {
                                        if k2 != k {
                                            assert(d.remove(k).contains(k2));
                                            assert(d.remove(k).len() == 0);
                                        }
                                    }
                                }
                                lemma_single_child(self.root, q, c);
                                assert(only_continuation(words, q, c));
                                lemma_reach_append(self.root, q, seq![c]);
                                assert(seq![c].drop_first() == Seq::<char>::empty());
                                assert(seq![c][0] == c);
                                assert(q + seq![c] == q.push(c));
                                assert(reach(*next, Seq::<char>::empty()) == Some(*next));
                                assert(local_ok(*current));
                            }
                            push_char(&mut result, c);
                            current = next;
                            grown = true;
                            proof {
                                let q2 = result@;
                                assert(q2 == q.push(c));
                                assert forall|i: int|
                                    p@.len() <= i < q2.len() implies !words.contains(
                                        #[trigger] q2.take(i),
                                    ) && only_continuation(words, q2.take(i), q2[i]) by {
                                    if i < q.len() {
                                        assert(q2.take(i) == q.take(i));
                                    } else {
                                        assert(q2.take(i) == q);
                                    }
                                }
                                assert(q2.take(p@.len() as int) == q.take(p@.len() as int));
                            }
                        },
                        None => {
                            proof {
                                assert(false);
                            }
                            return None;
                        },
                    }
                },
                None => {
                    return None;
                },
            }
        }
        proof {
            lemma_node_at(self.root, result@);
        }
        if !grown && !current.is_end && current.children.is_empty() {
            proof {
                assert(result@ == p@);
                if exists|k: u32| #[trigger] current.children@.contains_key(k) {
                    let k = choose|k: u32| #[trigger] current.children@.contains_key(k);
                    assert(current.children@.dom().contains(k));
                }
            }
            return None;
        }
        proof {
            let q = result@;
            if !current.is_end && current.children@.dom().len() != 1 {
                if exists|c: char| #[trigger] only_continuation(words, q, c) {
                    let c = choose|c: char| #[trigger] only_continuation(words, q, c);
                    lemma_single_child(self.root, q, c);
                }
            }
            if !grown {
                assert(q == p@);
                if current.children@.dom().len() > 0 {
                    let k = current.children@.dom().choose();
                    assert(current.children@.contains_key(k));
                }
            }
            assert(has_match(words, q));
            let w = choose|w: Seq<char>| #[trigger] words.contains(w) && has_prefix(w, q);
            assert(w.take(p@.len() as int) == q.take(p@.len() as int));
        }
        Some(result)
    }
}

/// A stored word that agrees with the completion `q` on its first `i` characters
/// (`i` past the end of `p`) begins with `q`.
proof fn lemma_completion_prefixes_from(
    words: Set<Seq<char>>,
    p: Seq<char>,
    q: Seq<char>,
    w: Seq<char>,
    i: int,
)
    requires
        is_completion(words, p, q),
        words.contains(w),
        p.len() <= i <= q.len(),
        i <= w.len(),
        w.take(i) == q.take(i),
    ensures
        has_prefix(w, q),
    decreases q.len() - i,
{
    if i == q.len() {
        assert(q.take(q.len() as int) == q);
    } else {
        let qi = q.take(i);
        assert(!words.contains(qi));
        assert(only_continuation(words, qi, q[i]));
        if w.len() == i {
            assert(w == w.take(i));
            assert(false);
        }
        assert(w.take(i + 1) == qi.push(w[i]));
        assert(continues_with(words, qi, w[i]));
        assert(w[i] == q[i]);
        assert(q.take(i + 1) == qi.push(q[i]));
        if w.len() == i + 1 && i + 1 < q.len() {
            assert(w == w.take(i + 1));
            assert(w == q.take(i + 1));
            assert(false);
        }
        if i + 1 <= w.len() {
            lemma_completion_prefixes_from(words, p, q, w, i + 1);
        }
    }
}

/// Every stored word that begins with `p` also begins with the completion of `p`.
proof fn lemma_completion_prefixes_matches(words: Set<Seq<char>>, p: Seq<char>, q: Seq<char>, w: Seq<char>)
    requires
        is_completion(words, p, q),
        words.contains(w),
        has_prefix(w, p),
    ensures
        has_prefix(w, q),
{
    assert(q.take(p.len() as int) == p);
    lemma_completion_prefixes_from(words, p, q, w, p.len() as int);
}

/// Completing `p` gives the longest common prefix of the stored words that begin with
/// `p`: each of them begins with the completion, and any text with which all of them
/// begin is a prefix of the completion.
pub proof fn lemma_completion_is_longest_common_prefix(
    words: Set<Seq<char>>,
    p: Seq<char>,
    q: Seq<char>,
)
    requires
        is_completion(words, p, q),
        has_match(words, p),
    ensures
        forall|w: Seq<char>| words.contains(w) && has_prefix(w, p) ==> #[trigger] has_prefix(w, q),
        forall|r: Seq<char>|
            (forall|w: Seq<char>| words.contains(w) && has_prefix(w, p) ==> #[trigger] has_prefix(w, r))
                ==> has_prefix(q, r),
{
    assert forall|w: Seq<char>| words.contains(w) && has_prefix(w, p) implies #[trigger] has_prefix(
        w,
        q,
    ) by {
        lemma_completion_prefixes_matches(words, p, q, w);
    }
    assert forall|r: Seq<char>|
        (forall|w: Seq<char>| words.contains(w) && has_prefix(w, p) ==> #[trigger] has_prefix(w, r))
            implies has_prefix(q, r) by {
        let w0 = choose|w: Seq<char>| #[trigger] words.contains(w) && has_prefix(w, p);
        lemma_completion_prefixes_matches(words, p, q, w0);
        assert(has_prefix(w0, r));
        if r.len() > q.len() {
            let n = q.len() as int;
            let c = r[n];
            if words.contains(q) {
                assert(q.take(p.len() as int) == p);
                assert(has_prefix(q, r));
            } else {
                assert(w0.take(n + 1) == r.take(n + 1));
                assert(r.take(n + 1) == r.take(n).push(c));
                assert(w0.take(n) == q);
                assert(r.take(n) == q);
                assert(continues_with(words, q, c));
                assert forall|d: char| #[trigger] continues_with(words, q, d) implies d == c by {
                    let w = choose|w: Seq<char>| #[trigger] words.contains(w) && has_prefix(
                        w,
                        q.push(d),
                    );
                    assert(w.take(n + 1).take(p.len() as int) == w.take(p.len() as int));
                    assert(q.push(d).take(p.len() as int) == q.take(p.len() as int));
                    assert(has_prefix(w, p));
                    assert(has_prefix(w, r));
                    assert(w.take(n + 1)[n] == d);
                    assert(w.take(r.len() as int)[n] == c);
                }
                assert(only_continuation(words, q, c));
            }
        } else {
            assert(w0.take(r.len() as int) == w0.take(q.len() as int).take(r.len() as int));
        }
    }
}

/// When exactly one stored word begins with `p`, completing `p` gives that word.
pub proof fn lemma_unique_match_completes_fully(
    words: Set<Seq<char>>,
    p: Seq<char>,
    q: Seq<char>,
    w: Seq<char>,
)
    requires
        is_completion(words, p, q),
        words.contains(w),
        has_prefix(w, p),
        forall|v: Seq<char>| words.contains(v) && has_prefix(v, p) ==> v == w,
    ensures
        q == w,
{
    lemma_completion_prefixes_matches(words, p, q, w);
    if q != w {
        let n = q.len() as int;
        assert(q.take(p.len() as int) == p);
        if words.contains(q) {
            assert(false);
        }
        assert(w.len() > n) by {
            if w.len() == n {
                assert(w == w.take(n));
            }
        }
        let c = w[n];
        assert(w.take(n + 1) == q.push(c));
        assert(continues_with(words, q, c));
        assert forall|d: char| #[trigger] continues_with(words, q, d) implies d == c by {
            let v = choose|v: Seq<char>| #[trigger] words.contains(v) && has_prefix(v, q.push(d));
            assert(v.take(n + 1).take(p.len() as int) == v.take(p.len() as int));
            assert(q.push(d).take(p.len() as int) == q.take(p.len() as int));
            assert(has_prefix(v, p));
            assert(v == w);
            assert(v.take(n + 1)[n] == d);
        }
        assert(only_continuation(words, q, c));
    }
}

/// Two completions of `p` that agree on their first `i` characters (`i` at least the
/// length of `p`) are the same.
proof fn lemma_completion_unique_from(
    words: Set<Seq<char>>,
    p: Seq<char>,
    q1: Seq<char>,
    q2: Seq<char>,
    i: int,
)
    requires
        is_completion(words, p, q1),
        is_completion(words, p, q2),
        p.len() <= i <= q1.len(),
        i <= q2.len(),
        q1.take(i) == q2.take(i),
    ensures
        q1 == q2,
    decreases q1.len() - i,
{
    if i == q1.len() && i == q2.len() {
        assert(q1 == q1.take(i));
        assert(q2 == q2.take(i));
    } else if i == q1.len() {
        assert(q1 == q2.take(i));
        assert(!words.contains(q2.take(i)));
        assert(only_continuation(words, q2.take(i), q2[i]));
        assert(q1 == q1.take(i));
    } else if i == q2.len() {
        assert(q2 == q1.take(i));
        assert(!words.contains(q1.take(i)));
        assert(only_continuation(words, q1.take(i), q1[i]));
        assert(q2 == q2.take(i));
    } else {
        let t = q1.take(i);
        assert(only_continuation(words, t, q1[i]));
        assert(only_continuation(words, q2.take(i), q2[i]));
        assert(continues_with(words, t, q2[i]));
        assert(q1[i] == q2[i]);
        assert(q1.take(i + 1) == t.push(q1[i]));
        assert(q2.take(i + 1) == q2.take(i).push(q2[i]));
        lemma_completion_unique_from(words, p, q1, q2, i + 1);
    }
}

/// A text has at most one completion.
pub proof fn lemma_completion_unique(words: Set<Seq<char>>, p: Seq<char>, q1: Seq<char>, q2: Seq<char>)
    requires
        is_completion(words, p, q1),
        is_completion(words, p, q2),
    ensures
        q1 == q2,
{
    assert(q1.take(p.len() as int) == p);
    assert(q2.take(p.len() as int) == p);
    lemma_completion_unique_from(words, p, q1, q2, p.len() as int);
}

/// A stored word is among the matches of each of its prefixes.
pub proof fn lemma_stored_word_matches(words: Set<Seq<char>>, w: Seq<char>, p: Seq<char>)
    requires
        has_prefix(w, p),
    ensures
        words.insert(w).contains(w),
        has_match(words.insert(w), p),
{
    assert(words.insert(w).contains(w));
}

} // verus!
