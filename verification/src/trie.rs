//! Prefix tree over characters, used as the completion index. Nodes live in
//! an arena vector; each node carries its outgoing edges (a character paired
//! with the index of the child node) and a terminal-word flag. A word is in
//! the tree exactly when the path of its characters ends at a node whose
//! terminal flag is set; the tree's view is that set of words.

use vstd::prelude::*;

use crate::strutil::chars_to_string;
use crate::strutil::str_to_chars;
use crate::strutil::string_push_char;

verus! {

use vstd::string::StrSliceExecFns;

/// One node of the prefix tree.
pub struct TrieNode {
    children: Vec<(char, usize)>,
    is_end: bool,
}

/// The target of the first edge labelled `c`, if any.
pub closed spec fn find_child(edges: Seq<(char, usize)>, c: char) -> Option<usize>
    decreases edges.len(),
{
    if edges.len() == 0 {
        None
    } else if edges[0].0 == c {
        Some(edges[0].1)
    } else {
        find_child(edges.drop_first(), c)
    }
}

proof fn lemma_find_child_present(edges: Seq<(char, usize)>, k: int)
    requires
        0 <= k < edges.len(),
        forall|k1: int, k2: int|
            0 <= k1 < k2 < edges.len() ==> (#[trigger] edges[k1]).0 != (#[trigger] edges[k2]).0,
        edges[k].0 == edges[k].0,
    ensures
        find_child(edges, edges[k].0) == Some(edges[k].1),
    decreases edges.len(),
{
    if k == 0 {
    } else {
        assert(edges[0].0 != edges[k].0);
        assert(edges.drop_first()[k - 1] == edges[k]);
        lemma_find_child_present(edges.drop_first(), k - 1);
    }
}

proof fn lemma_find_child_none(edges: Seq<(char, usize)>, c: char)
    requires
        find_child(edges, c) is None,
    ensures
        forall|k: int| 0 <= k < edges.len() ==> (#[trigger] edges[k]).0 != c,
    decreases edges.len(),
{
    if edges.len() > 0 {
        lemma_find_child_none(edges.drop_first(), c);
        assert forall|k: int| 0 <= k < edges.len() implies (#[trigger] edges[k]).0 != c by {
            if k >= 1 {
                assert(edges.drop_first()[k - 1] == edges[k]);
            }
        }
    }
}

proof fn lemma_find_child_some(edges: Seq<(char, usize)>, c: char)
    requires
        find_child(edges, c) is Some,
    ensures
        exists|k: int|
            0 <= k < edges.len() && (#[trigger] edges[k]).0 == c && edges[k].1
                == find_child(edges, c)->Some_0,
    decreases edges.len(),
{
    if edges.len() > 0 {
        if edges[0].0 == c {
        } else {
            lemma_find_child_some(edges.drop_first(), c);
            let k = choose|k: int|
                0 <= k < edges.drop_first().len() && (#[trigger] edges.drop_first()[k]).0 == c
                    && edges.drop_first()[k].1 == find_child(edges.drop_first(), c)->Some_0;
            assert(edges[k + 1] == edges.drop_first()[k]);
        }
    }
}

/// Pushing an edge whose character was absent makes it findable; other
/// lookups are unchanged.
proof fn lemma_find_child_push(edges: Seq<(char, usize)>, e: (char, usize), c: char)
    requires
        find_child(edges, c) is None,
    ensures
        find_child(edges.push(e), c) == if e.0 == c {
            Some(e.1)
        } else {
            None::<usize>
        },
    decreases edges.len(),
{
    if edges.len() == 0 {
        assert(edges.push(e)[0] == e);
        if e.0 == c {
            assert(find_child(edges.push(e), c) == Some(e.1));
        } else {
            assert(edges.push(e).drop_first() =~= Seq::<(char, usize)>::empty());
            assert(find_child(Seq::<(char, usize)>::empty(), c) is None);
            assert(find_child(edges.push(e), c) is None);
        }
    } else {
        assert(edges[0].0 != c);
        assert(edges.push(e)[0] == edges[0]);
        assert(edges.push(e).drop_first() =~= edges.drop_first().push(e));
        lemma_find_child_push(edges.drop_first(), e, c);
        assert(find_child(edges.push(e), c) == find_child(edges.drop_first().push(e), c));
    }
}

/// A prefix of an edge list finds the same children it used to.
proof fn lemma_find_child_of_prefix(short: Seq<(char, usize)>, long: Seq<(char, usize)>, c: char)
    requires
        short.is_prefix_of(long),
        find_child(short, c) is Some,
    ensures
        find_child(long, c) == find_child(short, c),
    decreases short.len(),
{
    if short.len() > 0 {
        assert(long[0] == short[0]);
        if short[0].0 == c {
        } else {
            assert(short.drop_first().is_prefix_of(long.drop_first()));
            lemma_find_child_of_prefix(short.drop_first(), long.drop_first(), c);
        }
    }
}

impl TrieNode {
    /// The node's outgoing edges.
    pub closed spec fn edges(self) -> Seq<(char, usize)> {
        self.children@
    }

    /// Whether a word ends at this node.
    pub closed spec fn terminal(self) -> bool {
        self.is_end
    }

    /// A fresh node: no edges, not the end of any word.
    pub fn new() -> (r: TrieNode)
        ensures
            r.edges().len() == 0,
            !r.terminal(),
    {
        TrieNode { children: Vec::new(), is_end: false }
    }

    /// A node with no outgoing edges.
    pub fn is_leaf(&self) -> (r: bool)
        ensures
            r == (self.edges().len() == 0),
    {
        self.children.len() == 0
    }
}

/// Prefix tree of words; the view is the set of inserted (non-empty) words.
pub struct Trie {
    nodes: Vec<TrieNode>,
}

impl View for Trie {
    type V = Set<Seq<char>>;

    /// The set of words the tree holds.
    closed spec fn view(&self) -> Set<Seq<char>> {
        Set::new(|w: Seq<char>| self.contains_from(0, w))
    }
}

impl Trie {
    /// The node reached from node `i` by following the characters of `p`.
    pub closed spec fn node_at_from(self, i: int, p: Seq<char>) -> Option<int>
        decreases p.len(),
    {
        if !(0 <= i < self.nodes.len()) {
            None
        } else if p.len() == 0 {
            Some(i)
        } else {
            match find_child(self.nodes[i].children@, p[0]) {
                Some(j) => self.node_at_from(j as int, p.drop_first()),
                None => None,
            }
        }
    }

    /// Whether the path of `p`'s characters exists in the tree.
    pub closed spec fn has_path(self, p: Seq<char>) -> bool {
        self.node_at_from(0, p) is Some
    }

    /// Whether, starting from node `i`, the characters of `w` end at a
    /// terminal node.
    pub closed spec fn contains_from(self, i: int, w: Seq<char>) -> bool {
        match self.node_at_from(i, w) {
            Some(j) => self.nodes[j].is_end,
            None => false,
        }
    }

    /// Some word ends at or below node `i`.
    pub closed spec fn subtree_has_word(self, i: int) -> bool {
        exists|s: Seq<char>| #[trigger] self.contains_from(i, s)
    }

    /// Edges of node `i` stay inside the arena, point forward (which makes
    /// the structure acyclic) and carry distinct characters.
    pub closed spec fn node_ok(self, i: int) -> bool {
        let edges = self.nodes[i].children@;
        &&& forall|k: int| 0 <= k < edges.len() ==> i < (#[trigger] edges[k]).1 < self.nodes.len()
        &&& forall|k1: int, k2: int|
            0 <= k1 < k2 < edges.len() ==> (#[trigger] edges[k1]).0 != (#[trigger] edges[k2]).0
    }

    /// No node is the target of two different edges, so paths from the root
    /// are unique.
    pub closed spec fn unique_parent(self) -> bool {
        forall|i1: int, k1: int, i2: int, k2: int|
            #![trigger self.nodes[i1].children[k1], self.nodes[i2].children[k2]]
            0 <= i1 < self.nodes.len() && 0 <= k1 < self.nodes[i1].children.len() && 0 <= i2
                < self.nodes.len() && 0 <= k2 < self.nodes[i2].children.len()
                && self.nodes[i1].children[k1].1 == self.nodes[i2].children[k2].1 ==> i1 == i2
                && k1 == k2
    }

    /// Arena well-formedness: a root that no word ends at, forward edges with
    /// distinct characters, unique parents, and no dead branches (every node
    /// other than the root has a word ending at or below it).
    #[verifier::type_invariant]
    pub closed spec fn wf(self) -> bool {
        &&& self.nodes.len() >= 1
        &&& !self.nodes[0].is_end
        &&& forall|i: int| 0 <= i < self.nodes.len() ==> #[trigger] self.node_ok(i)
        &&& self.unique_parent()
        &&& forall|i: int| 1 <= i < self.nodes.len() ==> #[trigger] self.subtree_has_word(i)
    }

    /// Navigation distributes over concatenation of paths.
    proof fn lemma_node_at_concat(self, i: int, p: Seq<char>, q: Seq<char>)
        ensures
            self.node_at_from(i, p + q) == (match self.node_at_from(i, p) {
                Some(j) => self.node_at_from(j, q),
                None => { None }
            }),
        decreases p.len(),
    {
        if !(0 <= i < self.nodes.len()) {
            if p.len() == 0 {
                assert(p + q =~= q);
            }
        } else if p.len() == 0 {
            assert(p + q =~= q);
        } else {
            assert((p + q)[0] == p[0]);
            match find_child(self.nodes[i].children@, p[0]) {
                Some(j) => {
                    assert((p + q).drop_first() =~= p.drop_first() + q);
                    self.lemma_node_at_concat(j as int, p.drop_first(), q);
                },
                None => {},
            }
        }
    }

    /// A navigation that succeeds ends inside the arena.
    proof fn lemma_node_at_in_range(self, i: int, p: Seq<char>)
        requires
            self.node_at_from(i, p) is Some,
        ensures
            0 <= self.node_at_from(i, p)->Some_0 < self.nodes@.len(),
        decreases p.len(),
    {
        if 0 <= i < self.nodes.len() && p.len() > 0 {
            match find_child(self.nodes[i].children@, p[0]) {
                Some(j) => {
                    self.lemma_node_at_in_range(j as int, p.drop_first());
                },
                None => {},
            }
        }
    }

    /// A navigation that consumes at least one character never ends at the
    /// root, and ends inside the arena.
    proof fn lemma_node_at_positive(self, i: int, p: Seq<char>, j: int)
        requires
            self.wf(),
            self.node_at_from(i, p) == Some(j),
        ensures
            0 <= j < self.nodes.len(),
            p.len() > 0 ==> j >= 1,
            p.len() == 0 ==> j == i,
        decreases p.len(),
    {
        if 0 <= i < self.nodes.len() && p.len() > 0 {
            match find_child(self.nodes[i].children@, p[0]) {
                Some(jj) => {
                    lemma_find_child_some(self.nodes[i].children@, p[0]);
                    assert(self.node_ok(i));
                    self.lemma_node_at_positive(jj as int, p.drop_first(), j);
                    if p.len() == 1 {
                        assert(j == jj);
                    }
                },
                None => {},
            }
        }
    }

    /// An empty tree: a lone root holding no words.
    pub fn new() -> (r: Trie)
        ensures
            r@ == Set::<Seq<char>>::empty(),
    {
        let mut nodes: Vec<TrieNode> = Vec::new();
        nodes.push(TrieNode::new());
        let r = Trie { nodes };
        proof {
            assert forall|w: Seq<char>| !r.contains_from(0, w) by {
                if w.len() > 0 {
                    assert(find_child(r.nodes[0].children@, w[0]) is None);
                }
            }
            assert(r@ =~= Set::<Seq<char>>::empty());
        }
        r
    }

    /// The target of this node's edge labelled `c`, if any.
    fn find_child_exec(node: &TrieNode, c: char) -> (r: Option<usize>)
        ensures
            r == find_child(node.children@, c),
    {
        proof {
            assert(node.children@.skip(0) =~= node.children@);
        }
        let mut k: usize = 0;
        while k < node.children.len()
            invariant
                k <= node.children@.len(),
                find_child(node.children@, c) == find_child(node.children@.skip(k as int), c),
            decreases node.children@.len() - k,
        {
            let (ec, target) = node.children[k];
            if ec == c {
                proof {
                    assert(node.children@.skip(k as int).len() > 0);
                    assert(node.children@.skip(k as int)[0] == node.children@[k as int]);
                    assert(find_child(node.children@.skip(k as int), c) == Some(
                        node.children@.skip(k as int)[0].1,
                    ));
                }
                return Some(target);
            }
            proof {
                assert(node.children@.skip(k as int).drop_first() =~= node.children@.skip(
                    k as int + 1,
                ));
            }
            k = k + 1;
        }
        proof {
            assert(node.children@.skip(k as int).len() == 0);
        }
        None
    }

    /// Walk the path of `p` from the root; shared by the lookup operations.
    fn walk(&self, p: &str) -> (r: Option<usize>)
        ensures
            match r {
                Some(i) => self.node_at_from(0, p@) == Some(i as int) && i < self.nodes@.len(),
                None => self.node_at_from(0, p@) is None,
            },
    {
        proof {
            use_type_invariant(&*self);
        }
        let n = p.unicode_len();
        let mut i: usize = 0;
        let mut pos: usize = 0;
        while pos < n
            invariant
                self.wf(),
                pos <= n,
                n == p@.len(),
                i < self.nodes@.len(),
                self.node_at_from(0, p@.take(pos as int)) == Some(i as int),
            decreases n - pos,
        {
            let c = p.get_char(pos);
            match Self::find_child_exec(&self.nodes[i], c) {
                Some(j) => {
                    proof {
                        assert(self.node_ok(i as int));
                        lemma_find_child_some(self.nodes[i as int].children@, c);
                        assert(0 <= j < self.nodes@.len());
                        self.lemma_node_at_concat(0, p@.take(pos as int), seq![c]);
                        assert(p@.take(pos as int) + seq![c] =~= p@.take(pos as int + 1));
                        assert(seq![c].drop_first() =~= Seq::<char>::empty());
                        assert(self.node_at_from(j as int, seq![c].drop_first()) == Some(
                            j as int,
                        ));
                        assert(self.node_at_from(i as int, seq![c]) == Some(j as int));
                    }
                    i = j;
                    pos = pos + 1;
                },
                None => {
                    proof {
                        self.lemma_node_at_concat(0, p@.take(pos as int), p@.skip(pos as int));
                        assert(p@.take(pos as int) + p@.skip(pos as int) =~= p@);
                        assert(p@.skip(pos as int)[0] == p@[pos as int]);
                        assert(self.node_at_from(i as int, p@.skip(pos as int)) is None);
                    }
                    return None;
                },
            }
        }
        proof {
            assert(p@.take(pos as int) =~= p@);
        }
        Some(i)
    }

    /// Whether `word` is in the tree. The empty string never is.
    pub fn search(&self, word: &str) -> (r: bool)
        ensures
            r == self@.contains(word@),
    {
        proof {
            use_type_invariant(&*self);
        }
        match self.walk(word) {
            Some(i) => self.nodes[i].is_end,
            None => false,
        }
    }

    /// Whether the path of `prefix` exists in the tree. The empty path
    /// always does.
    pub fn starts_with(&self, prefix: &str) -> (r: bool)
        ensures
            r == self.has_path(prefix@),
    {
        match self.walk(prefix) {
            Some(_) => true,
            None => false,
        }
    }

    /// Insert `word` into the tree. Inserting a word twice is the same as
    /// inserting it once; the empty word is ignored.
    pub fn insert(&mut self, word: &str)
        ensures
            word@.len() > 0 ==> final(self)@ == old(self)@.insert(word@),
            word@.len() == 0 ==> final(self)@ == old(self)@,
    {
        proof {
            use_type_invariant(&*self);
        }
        let ghost t0 = *self;
        let n = word.unicode_len();
        if n == 0 {
            return ;
        }
        // walk the existing path as far as it goes
        let mut i: usize = 0;
        let mut pos: usize = 0;
        let mut diverged = false;
        while pos < n && !diverged
            invariant
                t0.wf(),
                *self == t0,
                pos <= n,
                n == word@.len(),
                i < t0.nodes@.len(),
                t0.node_at_from(0, word@.take(pos as int)) == Some(i as int),
                diverged ==> pos < n && find_child(
                    t0.nodes[i as int].children@,
                    word@[pos as int],
                ) is None,
            decreases n - pos, (if diverged {
                0int
            } else {
                1int
            }),
        {
            let c = word.get_char(pos);
            match Self::find_child_exec(&self.nodes[i], c) {
                Some(j) => {
                    proof {
                        assert(t0.node_ok(i as int));
                        lemma_find_child_some(t0.nodes[i as int].children@, c);
                        assert(0 <= j < t0.nodes@.len());
                        t0.lemma_node_at_concat(0, word@.take(pos as int), seq![c]);
                        assert(word@.take(pos as int) + seq![c] =~= word@.take(pos as int + 1));
                        assert(seq![c].drop_first() =~= Seq::<char>::empty());
                        assert(t0.node_at_from(j as int, seq![c].drop_first()) == Some(j as int));
                        assert(t0.node_at_from(i as int, seq![c]) == Some(j as int));
                    }
                    i = j;
                    pos = pos + 1;
                },
                None => {
                    diverged = true;
                },
            }
        }
        // take the arena out to rework it; a lone root stands in meanwhile
        let mut arena: Vec<TrieNode> = Vec::new();
        arena.push(TrieNode { children: Vec::new(), is_end: false });
        proof {
            let lone = Trie { nodes: arena };
            assert(lone.node_ok(0));
            assert(lone.wf());
        }
        core::mem::swap(&mut self.nodes, &mut arena);
        if !diverged {
            // the whole word's path already exists: mark its end node
            proof {
                assert(pos == n);
                assert(word@.take(pos as int) =~= word@);
                t0.lemma_node_at_positive(0, word@, i as int);
            }
            arena[i].is_end = true;
            proof {
                let t1 = Trie { nodes: arena };
                assert forall|k: int|
                    0 <= k < t0.nodes@.len() implies (#[trigger] t1.nodes[k]).children@
                    == t0.nodes[k].children@ by {}
                lemma_mark_end(t0, t1, word@, i as int);
            }
            core::mem::swap(&mut self.nodes, &mut arena);
            return ;
        }
        // append a fresh chain of nodes for the characters from `pos` on
        let first = arena.len();
        let m = n - pos;
        let mut off: usize = 0;
        while off < m
            invariant
                m == n - pos,
                pos < n,
                n == word@.len(),
                off <= m,
                first == t0.nodes@.len(),
                arena@.len() == first + off,
                forall|k: int| 0 <= k < first ==> arena@[k] == t0.nodes@[k],
                forall|q: int|
                    0 <= q < off ==> (#[trigger] arena@[first + q]).children@.len() == 0 && arena@[
                        first + q
                    ].is_end == (q == m - 1),
            decreases m - off,
        {
            arena.push(TrieNode { children: Vec::new(), is_end: off + 1 == m });
            off = off + 1;
        }
        let total = arena.len();
        // wire each chain node to the next
        let mut off2: usize = 0;
        while off2 + 1 < m
            invariant
                m == n - pos,
                pos < n,
                n == word@.len(),
                off2 <= m - 1,
                first == t0.nodes@.len(),
                total == first + m,
                arena@.len() == first + m,
                forall|k: int| 0 <= k < first ==> arena@[k] == t0.nodes@[k],
                forall|q: int|
                    0 <= q < m ==> (#[trigger] arena@[first + q]).is_end == (q == m - 1),
                forall|q: int|
                    0 <= q < off2 ==> (#[trigger] arena@[first + q]).children@.len() == 1
                        && arena@[first + q].children@[0].0 == word@[pos + 1 + q] && arena@[first
                        + q].children@[0].1 as int == first + q + 1,
                forall|q: int|
                    off2 <= q < m ==> (#[trigger] arena@[first + q]).children@.len() == 0,
            decreases m - off2,
        {
            let c = word.get_char(pos + off2 + 1);
            let tgt = first + off2 + 1;
            arena[first + off2].children.push((c, tgt));
            off2 = off2 + 1;
        }
        // finally, hang the chain off the node where the walk stopped
        let c0 = word.get_char(pos);
        arena[i].children.push((c0, first));
        proof {
            let t1 = Trie { nodes: arena };
            let ghost f = first as int;
            let ghost mm = m as int;
            assert(t1.nodes@ == arena@);
            assert(chain_shape(t0, t1, word@, pos as int, i as int)) by {
                assert(t1.nodes@.len() == f + mm);
                assert forall|k: int| 0 <= k < f && k != i as int implies #[trigger] t1.nodes[k]
                    == t0.nodes[k] by {
                    assert(arena@[k] == t0.nodes@[k]);
                }
                assert(t1.nodes[i as int].children@ == t0.nodes[i as int].children@.push(
                    (c0, first),
                ));
                assert(t0.nodes[i as int].children@.is_prefix_of(t1.nodes[i as int].children@))
                    by {
                    assert(t0.nodes[i as int].children@ =~= t1.nodes[i as int].children@.take(
                        t0.nodes[i as int].children@.len() as int,
                    ));
                }
                assert(t1.nodes[i as int].children@.last() == (c0, first));
                assert forall|q: int| 0 <= q < mm - 1 implies {
                    let ch = (#[trigger] t1.nodes[f + q]).children@;
                    ch.len() == 1 && ch[0].0 == word@[pos as int + 1 + q] && ch[0].1 as int == f
                        + q + 1 && !t1.nodes[f + q].is_end
                } by {
                    assert(arena@[first + q].children@.len() == 1 && arena@[first
                        + q].children@[0].0 == word@[pos + 1 + q] && arena@[first
                        + q].children@[0].1 as int == first + q + 1);
                    assert(arena@[first + q].is_end == (q == mm - 1));
                }
                assert(arena@[first + (m - 1)].children@.len() == 0);
                assert(arena@[first + (m - 1)].is_end == (mm - 1 == mm - 1));
                assert(t1.nodes[f + mm - 1].children@.len() == 0);
                assert(t1.nodes[f + mm - 1].is_end);
            }
            lemma_extend_chain(t0, t1, word@, pos as int, i as int);
        }
        core::mem::swap(&mut self.nodes, &mut arena);
    }

    /// Append to `out` every word of the subtree at node `nd`, each spelled
    /// as the path walked so far (`prefix`) plus the word's remaining
    /// characters.
    fn collect_words(&self, nd: usize, prefix: &mut Vec<char>, out: &mut Vec<String>)
        requires
            self.wf(),
            nd < self.nodes@.len(),
        ensures
            final(prefix)@ == old(prefix)@,
            final(out)@.len() >= old(out)@.len(),
            forall|k: int| 0 <= k < old(out)@.len() ==> final(out)@[k] == old(out)@[k],
            forall|k: int|
                old(out)@.len() <= k < final(out)@.len() ==> (#[trigger] final(out)@[k])@.len()
                    >= old(prefix)@.len() && final(out)@[k]@.take(old(prefix)@.len() as int)
                    == old(prefix)@ && self.contains_from(
                    nd as int,
                    final(out)@[k]@.skip(old(prefix)@.len() as int),
                ),
            forall|s: Seq<char>|
                #[trigger] self.contains_from(nd as int, s) ==> exists|k: int|
                    old(out)@.len() <= k < final(out)@.len() && (#[trigger] final(out)@[k])@
                        == old(prefix)@ + s,
            forall|j1: int, j2: int|
                old(out)@.len() <= j1 < j2 < final(out)@.len() ==> (#[trigger] final(out)@[j1])@
                    != (#[trigger] final(out)@[j2])@,
        decreases self.nodes@.len() - nd,
    {
        let ghost prefix0 = prefix@;
        let ghost out0 = out@;
        if self.nodes[nd].is_end {
            let spelled = chars_to_string(prefix);
            out.push(spelled);
            proof {
                assert(self.node_at_from(nd as int, Seq::<char>::empty()) == Some(nd as int));
                assert(spelled@.take(prefix0.len() as int) =~= prefix0);
                assert(spelled@.skip(prefix0.len() as int) =~= Seq::<char>::empty());
                assert(spelled@ =~= prefix0 + Seq::<char>::empty());
            }
        }
        proof {
            assert forall|s: Seq<char>|
                #[trigger] self.contains_from(nd as int, s) && s.len() == 0 implies exists|j: int|
                out0.len() <= j < out@.len() && (#[trigger] out@[j])@ == prefix0 + s by {
                assert(s =~= Seq::<char>::empty());
                assert(self.node_at_from(nd as int, s) == Some(nd as int));
                assert(self.nodes[nd as int].is_end);
                assert(out@[out0.len() as int]@ == prefix0 + s);
            }
        }
        let num = self.nodes[nd].children.len();
        let ghost ch = self.nodes[nd as int].children@;
        let mut k: usize = 0;
        while k < num
            invariant
                self.wf(),
                nd < self.nodes@.len(),
                ch == self.nodes[nd as int].children@,
                num == ch.len(),
                k <= num,
                prefix@ == prefix0,
                out@.len() >= out0.len(),
                forall|j: int| 0 <= j < out0.len() ==> out@[j] == out0[j],
                forall|j: int|
                    out0.len() <= j < out@.len() ==> (#[trigger] out@[j])@.len() >= prefix0.len()
                        && out@[j]@.take(prefix0.len() as int) == prefix0 && self.contains_from(
                        nd as int,
                        out@[j]@.skip(prefix0.len() as int),
                    ),
                forall|s: Seq<char>|
                    #[trigger] self.contains_from(nd as int, s) && (s.len() == 0 || exists|kk: int|
                        0 <= kk < k && (#[trigger] ch[kk]).0 == s[0]) ==> exists|j: int|
                        out0.len() <= j < out@.len() && (#[trigger] out@[j])@ == prefix0 + s,
                forall|j: int|
                    out0.len() <= j < out@.len() ==> ((#[trigger] out@[j])@.skip(
                        prefix0.len() as int,
                    ).len() == 0 || exists|kk: int|
                        0 <= kk < k && (#[trigger] ch[kk]).0 == out@[j]@.skip(
                            prefix0.len() as int,
                        )[0]),
                forall|j1: int, j2: int|
                    out0.len() <= j1 < j2 < out@.len() ==> (#[trigger] out@[j1])@ != (
                    #[trigger] out@[j2])@,
            decreases num - k,
        {
            let (c, child) = self.nodes[nd].children[k];
            proof {
                assert(self.node_ok(nd as int));
                assert(ch[k as int] == (c, child));
                assert(nd < child < self.nodes@.len());
                lemma_find_child_present(ch, k as int);
                assert(find_child(ch, c) == Some(child));
            }
            let ghost out_before = out@;
            prefix.push(c);
            self.collect_words(child, prefix, out);
            prefix.pop();
            proof {
                assert(prefix@ =~= prefix0) by {
                    assert(prefix0.push(c).drop_last() =~= prefix0);
                }
                let pc = prefix0.push(c);
                // words found below the child are words here, one character
                // longer
                assert forall|j: int|
                    out0.len() <= j < out@.len() implies (#[trigger] out@[j])@.len()
                    >= prefix0.len() && out@[j]@.take(prefix0.len() as int) == prefix0
                    && self.contains_from(nd as int, out@[j]@.skip(prefix0.len() as int)) by {
                    if j < out_before.len() {
                        assert(out@[j] == out_before[j]);
                    } else {
                        let e = out@[j]@;
                        assert(e.len() >= pc.len() && e.take(pc.len() as int) == pc
                            && self.contains_from(child as int, e.skip(pc.len() as int)));
                        assert(e.take(prefix0.len() as int) =~= prefix0) by {
                            assert(e.take(pc.len() as int) == pc);
                            assert forall|x: int| 0 <= x < prefix0.len() implies e[x]
                                == prefix0[x] by {
                                assert(e.take(pc.len() as int)[x] == pc[x]);
                            }
                        }
                        let tail = e.skip(prefix0.len() as int);
                        assert(tail[0] == c) by {
                            assert(e.take(pc.len() as int)[prefix0.len() as int] == pc[prefix0.len() as int]);
                        }
                        assert(tail.drop_first() =~= e.skip(pc.len() as int));
                        assert(tail.len() > 0);
                        assert(self.node_at_from(nd as int, tail) == self.node_at_from(
                            child as int,
                            tail.drop_first(),
                        ));
                        assert(self.contains_from(nd as int, tail));
                    }
                }
                // and every word through this child has been spelled out
                assert forall|s: Seq<char>|
                    #[trigger] self.contains_from(nd as int, s) && (s.len() == 0 || exists|kk: int|
                        0 <= kk < k + 1 && (#[trigger] ch[kk]).0 == s[0]) implies exists|j: int|
                    out0.len() <= j < out@.len() && (#[trigger] out@[j])@ == prefix0 + s by {
                    if s.len() == 0 {
                        let j = choose|j: int|
                            out0.len() <= j < out_before.len() && (#[trigger] out_before[j])@
                                == prefix0 + s;
                        assert(out@[j] == out_before[j]);
                    } else {
                        let kk = choose|kk: int|
                            0 <= kk < k + 1 && (#[trigger] ch[kk]).0 == s[0];
                        if kk < k {
                            let j = choose|j: int|
                                out0.len() <= j < out_before.len() && (#[trigger] out_before[j])@
                                    == prefix0 + s;
                            assert(out@[j] == out_before[j]);
                        } else {
                            assert(s[0] == c);
                            assert(self.node_at_from(nd as int, s) == self.node_at_from(
                                child as int,
                                s.drop_first(),
                            ));
                            assert(self.contains_from(child as int, s.drop_first()));
                            let j = choose|j: int|
                                out_before.len() <= j < out@.len() && (#[trigger] out@[j])@ == pc
                                    + s.drop_first();
                            assert(pc + s.drop_first() =~= prefix0 + s);
                            assert(out@[j]@ == prefix0 + s);
                        }
                    }
                }
                // each word found so far continues, after the prefix, with
                // the character of a child already visited
                assert forall|j: int|
                    out0.len() <= j < out@.len() implies ((#[trigger] out@[j])@.skip(
                    prefix0.len() as int,
                ).len() == 0 || exists|kk: int|
                    0 <= kk < k + 1 && (#[trigger] ch[kk]).0 == out@[j]@.skip(
                        prefix0.len() as int,
                    )[0]) by {
                    if j < out_before.len() {
                        assert(out@[j] == out_before[j]);
                    } else {
                        let e = out@[j]@;
                        assert(e.len() >= pc.len() && e.take(pc.len() as int) == pc);
                        let tail = e.skip(prefix0.len() as int);
                        assert(tail.len() > 0);
                        assert(tail[0] == c) by {
                            assert(e.take(pc.len() as int)[prefix0.len() as int] == pc[prefix0.len() as int]);
                        }
                        assert(ch[k as int].0 == tail[0]);
                    }
                }
                // and no word is spelled twice
                assert forall|j1: int, j2: int|
                    out0.len() <= j1 < j2 < out@.len() implies (#[trigger] out@[j1])@ != (
                #[trigger] out@[j2])@ by {
                    if j2 < out_before.len() {
                        assert(out@[j1] == out_before[j1] && out@[j2] == out_before[j2]);
                    } else if j1 >= out_before.len() {
                    } else {
                        assert(out@[j1] == out_before[j1]);
                        let e1 = out@[j1]@;
                        let e2 = out@[j2]@;
                        assert(e2.len() >= pc.len() && e2.take(pc.len() as int) == pc);
                        let tail1 = e1.skip(prefix0.len() as int);
                        let tail2 = e2.skip(prefix0.len() as int);
                        assert(tail2.len() > 0);
                        assert(tail2[0] == c) by {
                            assert(e2.take(pc.len() as int)[prefix0.len() as int] == pc[prefix0.len() as int]);
                        }
                        if e1 == e2 {
                            assert(tail1 == tail2);
                            assert(tail1.len() > 0);
                            let kk = choose|kk: int|
                                0 <= kk < k && (#[trigger] ch[kk]).0 == tail1[0];
                            assert(self.node_ok(nd as int));
                            assert(ch[kk].0 != ch[k as int].0);
                            assert(false);
                        }
                    }
                }
            }
            k = k + 1;
        }
        proof {
            // a word's first character names one of the children
            assert forall|s: Seq<char>| #[trigger] self.contains_from(nd as int, s) implies exists|
                j: int,
            |
                out0.len() <= j < out@.len() && (#[trigger] out@[j])@ == prefix0 + s by {
                if s.len() > 0 {
                    assert(find_child(ch, s[0]) is Some);
                    lemma_find_child_some(ch, s[0]);
                }
            }
        }
    }

    /// All words that extend `prefix`, each exactly once: the empty prefix
    /// has no completions, and a present, non-empty prefix yields exactly the
    /// words it begins.
    pub fn get_completions(&self, prefix: &str) -> (r: Vec<String>)
        ensures
            forall|k: int|
                0 <= k < r@.len() ==> self@.contains((#[trigger] r@[k])@) && prefix@.is_prefix_of(
                    r@[k]@,
                ),
            forall|k1: int, k2: int|
                0 <= k1 < k2 < r@.len() ==> (#[trigger] r@[k1])@ != (#[trigger] r@[k2])@,
            prefix@.len() > 0 ==> forall|w: Seq<char>|
                self@.contains(w) && prefix@.is_prefix_of(w) ==> exists|k: int|
                    0 <= k < r@.len() && (#[trigger] r@[k])@ == w,
            prefix@.len() == 0 ==> r@.len() == 0,
    {
        proof {
            use_type_invariant(&*self);
        }
        if prefix.unicode_len() == 0 {
            let r: Vec<String> = Vec::new();
            return r;
        }
        match self.walk(prefix) {
            Some(nd) => {
                let mut spelled = str_to_chars(prefix);
                let mut out: Vec<String> = Vec::new();
                self.collect_words(nd, &mut spelled, &mut out);
                proof {
                    let p = prefix@;
                    assert forall|k: int| 0 <= k < out@.len() implies self@.contains(
                        (#[trigger] out@[k])@,
                    ) && p.is_prefix_of(out@[k]@) by {
                        let e = out@[k]@;
                        let tail = e.skip(p.len() as int);
                        self.lemma_node_at_concat(0, p, tail);
                        assert(p + tail =~= e);
                        assert(self.contains_from(0, e));
                        assert(p =~= e.take(p.len() as int));
                    }
                    assert forall|w: Seq<char>|
                        self@.contains(w) && p.is_prefix_of(w) implies exists|k: int|
                        0 <= k < out@.len() && (#[trigger] out@[k])@ == w by {
                        let tail = w.skip(p.len() as int);
                        self.lemma_node_at_concat(0, p, tail);
                        assert(p + tail =~= w);
                        assert(self.contains_from(nd as int, tail));
                        let j = choose|j: int|
                            0 <= j < out@.len() && (#[trigger] out@[j])@ == p + tail;
                        assert(out@[j]@ == w);
                    }
                }
                out
            },
            None => {
                proof {
                    let p = prefix@;
                    assert forall|w: Seq<char>|
                        !(self@.contains(w) && p.is_prefix_of(w)) by {
                        if self@.contains(w) && p.is_prefix_of(w) {
                            let tail = w.skip(p.len() as int);
                            self.lemma_node_at_concat(0, p, tail);
                            assert(p + tail =~= w);
                            assert(self.node_at_from(0, w) is Some);
                            assert(false);
                        }
                    }
                }
                let r: Vec<String> = Vec::new();
                r
            },
        }
    }

    /// The path extending `acc` from node `i` for as long as the node has
    /// exactly one child and is not itself the end of a word.
    spec fn lce_from(self, i: int, acc: Seq<char>) -> Seq<char>
        decreases self.nodes@.len() - i,
    {
        if !(0 <= i < self.nodes@.len()) {
            acc
        } else if self.nodes[i].children@.len() == 1 && !self.nodes[i].is_end {
            let e = self.nodes[i].children@[0];
            if i < e.1 < self.nodes@.len() {
                self.lce_from(e.1 as int, acc.push(e.0))
            } else {
                acc
            }
        } else {
            acc
        }
    }

    /// The longest unambiguous extension of `p`: empty when `p` is empty or
    /// absent, otherwise `p` extended along single-child, non-terminal nodes.
    pub closed spec fn lce(self, p: Seq<char>) -> Seq<char> {
        if p.len() == 0 {
            Seq::<char>::empty()
        } else {
            match self.node_at_from(0, p) {
                Some(j) => self.lce_from(j, p),
                None => Seq::<char>::empty(),
            }
        }
    }

    /// The longest common extension of `prefix`: empty when the prefix is
    /// empty or absent; otherwise the prefix extended while there is exactly
    /// one way forward and no complete word has been reached.
    pub fn longest_common_prefix(&self, prefix: &str) -> (r: String)
        ensures
            r@ == self.lce(prefix@),
    {
        proof {
            use_type_invariant(&*self);
        }
        if prefix.unicode_len() == 0 {
            return String::new();
        }
        match self.walk(prefix) {
            None => String::new(),
            Some(nd) => {
                let mut result = prefix.to_owned();
                let mut cur = nd;
                proof {
                    assert(self.lce(prefix@) == self.lce_from(cur as int, result@));
                }
                while self.nodes[cur].children.len() == 1 && !self.nodes[cur].is_end
                    invariant
                        self.wf(),
                        cur < self.nodes@.len(),
                        self.lce(prefix@) == self.lce_from(cur as int, result@),
                    decreases self.nodes@.len() - cur,
                {
                    let (c, child) = self.nodes[cur].children[0];
                    proof {
                        assert(self.node_ok(cur as int));
                        assert(self.nodes[cur as int].children@[0] == (c, child));
                        assert(cur < child < self.nodes@.len());
                        assert(self.lce_from(cur as int, result@) == self.lce_from(
                            child as int,
                            result@.push(c),
                        ));
                    }
                    string_push_char(&mut result, c);
                    cur = child;
                }
                result
            },
        }
    }

    /// Navigating a path of at least one character ends at the target of its
    /// last edge.
    proof fn lemma_node_at_last(self, s: Seq<char>, j: int)
        requires
            self.node_at_from(0, s) == Some(j),
            s.len() > 0,
        ensures
            ({
                let mo = self.node_at_from(0, s.drop_last());
                &&& mo is Some
                &&& 0 <= mo->Some_0 < self.nodes@.len()
                &&& find_child(self.nodes[mo->Some_0].children@, s.last()) is Some
                &&& find_child(self.nodes[mo->Some_0].children@, s.last())->Some_0 as int == j
            }),
    {
        assert(s =~= s.drop_last() + seq![s.last()]);
        self.lemma_node_at_concat(0, s.drop_last(), seq![s.last()]);
        let mo = self.node_at_from(0, s.drop_last());
        assert(mo is Some);
        let m = mo->Some_0;
        assert(self.node_at_from(m, seq![s.last()]) == Some(j));
        assert(0 <= m < self.nodes@.len());
        assert(seq![s.last()].drop_first() =~= Seq::<char>::empty());
        match find_child(self.nodes[m].children@, s.last()) {
            Some(u) => {
                assert(self.node_at_from(u as int, Seq::<char>::empty()) == Some(j));
            },
            None => {
                assert(false);
            },
        }
    }

    /// Paths from the root are unique: two paths that end at the same node
    /// are the same path.
    proof fn lemma_unique_path(self, s1: Seq<char>, s2: Seq<char>, j: int)
        requires
            self.wf(),
            self.node_at_from(0, s1) == Some(j),
            self.node_at_from(0, s2) == Some(j),
        ensures
            s1 == s2,
        decreases s1.len(),
    {
        if s1.len() == 0 {
            assert(j == 0);
            if s2.len() > 0 {
                self.lemma_node_at_last(s2, j);
                let m = self.node_at_from(0, s2.drop_last())->Some_0;
                lemma_find_child_some(self.nodes[m].children@, s2.last());
                assert(self.node_ok(m));
                assert(false);
            }
        } else {
            self.lemma_node_at_positive(0, s1, j);
            assert(j >= 1);
            if s2.len() == 0 {
                assert(j == 0);
                assert(false);
            }
            self.lemma_node_at_last(s1, j);
            self.lemma_node_at_last(s2, j);
            let m1 = self.node_at_from(0, s1.drop_last())->Some_0;
            let m2 = self.node_at_from(0, s2.drop_last())->Some_0;
            lemma_find_child_some(self.nodes[m1].children@, s1.last());
            lemma_find_child_some(self.nodes[m2].children@, s2.last());
            let e1 = self.nodes[m1].children@;
            let e2 = self.nodes[m2].children@;
            let k1 = choose|k: int|
                0 <= k < e1.len() && (#[trigger] e1[k]).0 == s1.last() && e1[k].1 as int == j;
            let k2 = choose|k: int|
                0 <= k < e2.len() && (#[trigger] e2[k]).0 == s2.last() && e2[k].1 as int == j;
            assert(m1 == m2 && k1 == k2);
            assert(s1.last() == s2.last());
            self.lemma_unique_path(s1.drop_last(), s2.drop_last(), m1);
            assert(s1 =~= s1.drop_last().push(s1.last()));
            assert(s2 =~= s2.drop_last().push(s2.last()));
        }
    }
}

/// `t1` extends `t0`: every node of `t0` keeps its edges (possibly gaining
/// more at the end) and keeps its terminal flag (possibly gaining it).
spec fn extends(t0: Trie, t1: Trie) -> bool {
    &&& t0.nodes@.len() <= t1.nodes@.len()
    &&& forall|k: int|
        0 <= k < t0.nodes@.len() ==> (#[trigger] t0.nodes[k]).children@.is_prefix_of(
            t1.nodes[k].children@,
        ) && (t0.nodes[k].is_end ==> t1.nodes[k].is_end)
}

/// Navigation that succeeds in the smaller tree succeeds identically in the
/// extended one.
proof fn lemma_extends_node_at(t0: Trie, t1: Trie, i: int, p: Seq<char>)
    requires
        extends(t0, t1),
        t0.node_at_from(i, p) is Some,
    ensures
        t1.node_at_from(i, p) == t0.node_at_from(i, p),
    decreases p.len(),
{
    if p.len() > 0 {
        match find_child(t0.nodes[i].children@, p[0]) {
            Some(j) => {
                lemma_find_child_of_prefix(t0.nodes[i].children@, t1.nodes[i].children@, p[0]);
                lemma_extends_node_at(t0, t1, j as int, p.drop_first());
            },
            None => {},
        }
    }
}

/// Words survive extension.
proof fn lemma_extends_contains(t0: Trie, t1: Trie, i: int, s: Seq<char>)
    requires
        extends(t0, t1),
        t0.contains_from(i, s),
    ensures
        t1.contains_from(i, s),
{
    lemma_extends_node_at(t0, t1, i, s);
    let j = t0.node_at_from(i, s)->Some_0;
    t0.lemma_node_at_in_range(i, s);
    assert(t1.nodes[j].is_end);
}

/// Two trees with identical edge structure navigate identically.
proof fn lemma_same_structure_node_at(t0: Trie, t1: Trie, i: int, p: Seq<char>)
    requires
        t0.nodes@.len() == t1.nodes@.len(),
        forall|k: int|
            0 <= k < t0.nodes@.len() ==> (#[trigger] t1.nodes[k]).children@
                == t0.nodes[k].children@,
    ensures
        t1.node_at_from(i, p) == t0.node_at_from(i, p),
    decreases p.len(),
{
    if 0 <= i < t0.nodes@.len() && p.len() > 0 {
        match find_child(t0.nodes[i].children@, p[0]) {
            Some(j) => {
                lemma_same_structure_node_at(t0, t1, j as int, p.drop_first());
            },
            None => {},
        }
    }
}

/// Marking the end of an existing path adds exactly that word.
proof fn lemma_mark_end(t0: Trie, t1: Trie, w: Seq<char>, i: int)
    requires
        t0.wf(),
        w.len() > 0,
        t0.node_at_from(0, w) == Some(i),
        t1.nodes@.len() == t0.nodes@.len(),
        forall|k: int|
            0 <= k < t0.nodes@.len() ==> (#[trigger] t1.nodes[k]).children@
                == t0.nodes[k].children@,
        forall|k: int|
            0 <= k < t0.nodes@.len() && k != i ==> (#[trigger] t1.nodes[k]).is_end
                == t0.nodes[k].is_end,
        t1.nodes[i].is_end,
    ensures
        t1.wf(),
        t1@ == t0@.insert(w),
{
    t0.lemma_node_at_positive(0, w, i);
    assert(i >= 1);
    // well-formedness: structure is unchanged, terminal flags only gain
    assert(extends(t0, t1)) by {
        assert(forall|k: int|
            0 <= k < t0.nodes@.len() ==> (#[trigger] t0.nodes[k]).children@.is_prefix_of(
                t1.nodes[k].children@,
            ));
    }
    assert forall|k: int| 0 <= k < t1.nodes@.len() implies #[trigger] t1.node_ok(k) by {
        assert(t0.node_ok(k));
    }
    assert(t1.unique_parent()) by {
        assert(t0.unique_parent());
    }
    assert forall|k: int| 1 <= k < t1.nodes@.len() implies #[trigger] t1.subtree_has_word(k) by {
        assert(t0.subtree_has_word(k));
        let s = choose|s: Seq<char>| #[trigger] t0.contains_from(k, s);
        lemma_extends_contains(t0, t1, k, s);
    }
    assert(t1.wf());
    // the word sets differ by exactly `w`
    assert forall|v: Seq<char>| #[trigger] t1@.contains(v) == t0@.insert(w).contains(v) by {
        lemma_same_structure_node_at(t0, t1, 0, v);
        lemma_same_structure_node_at(t0, t1, 0, w);
        assert(t1@.contains(v) == t1.contains_from(0, v));
        assert(t0@.contains(v) == t0.contains_from(0, v));
        assert(t0@.insert(w).contains(v) == (v == w || t0.contains_from(0, v)));
        if t1.contains_from(0, v) {
            t0.lemma_node_at_in_range(0, v);
            let j = t0.node_at_from(0, v)->Some_0;
            if j == i {
                t0.lemma_unique_path(v, w, i);
                assert(v == w);
            } else {
                assert(t1.nodes[j].is_end == t0.nodes[j].is_end);
                assert(t0.contains_from(0, v));
            }
        }
        if v == w {
            assert(t1.node_at_from(0, v) == Some(i));
            assert(t1.nodes[i].is_end);
            assert(t1.contains_from(0, v));
        }
        if t0.contains_from(0, v) {
            lemma_extends_contains(t0, t1, 0, v);
            assert(t1.contains_from(0, v));
        }
    }
    assert(t1@ =~= t0@.insert(w));
}



/// Shape of a tree `t1` that extends `t0` with a fresh chain of nodes
/// spelling `w[pos..]`, hanging off node `i` where `w[pos]` had no edge.
spec fn chain_shape(t0: Trie, t1: Trie, w: Seq<char>, pos: int, i: int) -> bool {
    let first = t0.nodes@.len() as int;
    let m = w.len() - pos;
    &&& 0 <= pos < w.len()
    &&& 0 <= i < first
    &&& t1.nodes@.len() == first + m
    &&& forall|k: int| 0 <= k < first && k != i ==> #[trigger] t1.nodes[k] == t0.nodes[k]
    &&& t1.nodes[i].children@.len() == t0.nodes[i].children@.len() + 1
    &&& t0.nodes[i].children@.is_prefix_of(t1.nodes[i].children@)
    &&& t1.nodes[i].children@.last().0 == w[pos]
    &&& t1.nodes[i].children@.last().1 as int == first
    &&& t1.nodes[i].is_end == t0.nodes[i].is_end
    &&& forall|q: int|
        0 <= q < m - 1 ==> {
            let ch = (#[trigger] t1.nodes[first + q]).children@;
            ch.len() == 1 && ch[0].0 == w[pos + 1 + q] && ch[0].1 as int == first + q + 1
                && !t1.nodes[first + q].is_end
        }
    &&& t1.nodes[first + m - 1].children@.len() == 0
    &&& t1.nodes[first + m - 1].is_end
}

/// Within the appended chain, exactly the matching suffix of `w` ends at a
/// terminal node.
proof fn lemma_chain_contains(
    t0: Trie,
    t1: Trie,
    w: Seq<char>,
    pos: int,
    i: int,
    k: int,
    s: Seq<char>,
)
    requires
        chain_shape(t0, t1, w, pos, i),
        0 <= k < w.len() - pos,
    ensures
        t1.contains_from(t0.nodes@.len() + k, s) <==> s == w.skip(pos + 1 + k),
    decreases s.len(),
{
    let first = t0.nodes@.len() as int;
    let m = w.len() - pos;
    let node = first + k;
    assert(0 <= node < t1.nodes@.len());
    if s.len() == 0 {
        assert(t1.node_at_from(node, s) == Some(node));
        if k == m - 1 {
            assert(s =~= w.skip(pos + 1 + k));
            assert(t1.contains_from(node, s));
        } else {
            assert(!t1.nodes[node].is_end);
            assert(w.skip(pos + 1 + k).len() > 0);
        }
    } else {
        if k == m - 1 {
            assert(find_child(t1.nodes[node].children@, s[0]) is None);
            assert(!t1.contains_from(node, s));
            assert(w.skip(pos + 1 + k).len() == 0);
        } else {
            let ch = t1.nodes[node].children@;
            assert(ch.len() == 1 && ch[0].0 == w[pos + 1 + k] && ch[0].1 as int == first + k + 1);
            if s[0] == w[pos + 1 + k] {
                assert(find_child(ch, s[0]) == Some(ch[0].1));
                lemma_chain_contains(t0, t1, w, pos, i, k + 1, s.drop_first());
                assert(t1.contains_from(node, s) == t1.contains_from(
                    first + k + 1,
                    s.drop_first(),
                ));
                if s.drop_first() == w.skip(pos + 1 + k + 1) {
                    assert(s =~= w.skip(pos + 1 + k)) by {
                        assert(w.skip(pos + 1 + k).len() == s.len());
                        assert forall|x: int| 0 <= x < s.len() implies s[x] == w.skip(
                            pos + 1 + k,
                        )[x] by {
                            if x > 0 {
                                assert(s[x] == s.drop_first()[x - 1]);
                                assert(s.drop_first()[x - 1] == w.skip(pos + 2 + k)[x - 1]);
                            }
                        }
                    }
                }
                if s == w.skip(pos + 1 + k) {
                    assert(s.drop_first() =~= w.skip(pos + 1 + k + 1));
                }
            } else {
                assert(ch.drop_first() =~= Seq::<(char, usize)>::empty());
                assert(find_child(Seq::<(char, usize)>::empty(), s[0]) is None);
                assert(find_child(ch, s[0]) is None);
                assert(!t1.contains_from(node, s));
                assert(w.skip(pos + 1 + k)[0] == w[pos + 1 + k]);
                assert(s != w.skip(pos + 1 + k));
            }
        }
    }
}

/// A word of the extended tree, read from an old node, is either an old word
/// or runs into the chain and ends with `w`'s remaining characters.
proof fn lemma_extend_no_extra(
    t0: Trie,
    t1: Trie,
    w: Seq<char>,
    pos: int,
    i: int,
    j: int,
    s: Seq<char>,
)
    requires
        t0.wf(),
        chain_shape(t0, t1, w, pos, i),
        find_child(t0.nodes[i].children@, w[pos]) is None,
        0 <= j < t0.nodes@.len(),
        t1.contains_from(j, s),
    ensures
        t0.contains_from(j, s) || (exists|t: int|
            0 <= t <= s.len() && s == s.take(t) + w.skip(pos) && #[trigger] t0.node_at_from(
                j,
                s.take(t),
            ) == Some(i)),
    decreases s.len(),
{
    let first = t0.nodes@.len() as int;
    let e = t1.nodes[i].children@.last();
    assert(t1.nodes[i].children@ =~= t0.nodes[i].children@.push(e));
    if s.len() == 0 {
        assert(t1.nodes[j].is_end == t0.nodes[j].is_end);
        assert(t0.node_at_from(j, s) == Some(j));
        assert(t0.contains_from(j, s));
    } else {
        let c = s[0];
        let fc1 = find_child(t1.nodes[j].children@, c);
        assert(fc1 is Some);
        let u = fc1->Some_0;
        assert(t1.contains_from(u as int, s.drop_first()));
        let old_edge = if j != i {
            true
        } else {
            find_child(t0.nodes[i].children@, c) is Some
        };
        if old_edge {
            assert(find_child(t0.nodes[j].children@, c) == Some(u)) by {
                if j == i {
                    lemma_find_child_of_prefix(t0.nodes[i].children@, t1.nodes[i].children@, c);
                }
            }
            lemma_find_child_some(t0.nodes[j].children@, c);
            assert(t0.node_ok(j));
            assert(j < u < first);
            lemma_extend_no_extra(t0, t1, w, pos, i, u as int, s.drop_first());
            if t0.contains_from(u as int, s.drop_first()) {
                assert(t0.contains_from(j, s));
            } else {
                let t = choose|t: int|
                    0 <= t <= s.drop_first().len() && s.drop_first() == s.drop_first().take(t)
                        + w.skip(pos) && #[trigger] t0.node_at_from(
                        u as int,
                        s.drop_first().take(t),
                    ) == Some(i);
                assert(s.take(t + 1).drop_first() =~= s.drop_first().take(t));
                assert(s.take(t + 1)[0] == c);
                assert(t0.node_at_from(j, s.take(t + 1)) == Some(i));
                assert(seq![c] + s.drop_first() =~= s);
                assert(seq![c] + s.drop_first().take(t) =~= s.take(t + 1));
                assert(seq![c] + (s.drop_first().take(t) + w.skip(pos)) =~= (seq![c]
                    + s.drop_first().take(t)) + w.skip(pos));
                assert(s =~= s.take(t + 1) + w.skip(pos)) by {
                    assert(s =~= seq![c] + (s.drop_first().take(t) + w.skip(pos)));
                }
                assert(0 <= t + 1 <= s.len());
            }
        } else {
            // the new edge out of `i`: it spells w[pos] and enters the chain
            lemma_find_child_push(t0.nodes[i].children@, e, c);
            assert(find_child(t1.nodes[i].children@, c) == if e.0 == c {
                Some(e.1)
            } else {
                None::<usize>
            });
            assert(c == w[pos]);
            assert(u as int == first);
            lemma_chain_contains(t0, t1, w, pos, i, 0, s.drop_first());
            assert(s.drop_first() == w.skip(pos + 1));
            assert(s.take(0) + w.skip(pos) =~= w.skip(pos));
            assert(s =~= w.skip(pos)) by {
                assert(s.len() == w.skip(pos).len());
                assert forall|x: int| 0 <= x < s.len() implies s[x] == w.skip(pos)[x] by {
                    if x > 0 {
                        assert(s[x] == s.drop_first()[x - 1]);
                        assert(s.drop_first()[x - 1] == w.skip(pos + 1)[x - 1]);
                    }
                }
            }
            assert(s == s.take(0) + w.skip(pos));
            assert(t0.node_at_from(j, s.take(0)) == Some(i)) by {
                assert(s.take(0) =~= Seq::<char>::empty());
            }
            assert(0 <= 0 <= s.len() && s == s.take(0) + w.skip(pos) && t0.node_at_from(
                j,
                s.take(0),
            ) == Some(i));
        }
    }
}

/// In the extended tree every edge is an old edge (target below the old
/// length), the one new edge out of `i` (target exactly the old length), or a
/// chain edge (source in the chain, target the next chain node).
proof fn lemma_chain_edge_class(t0: Trie, t1: Trie, w: Seq<char>, pos: int, i: int, x: int, kx: int)
    requires
        t0.wf(),
        chain_shape(t0, t1, w, pos, i),
        0 <= x < t1.nodes@.len(),
        0 <= kx < t1.nodes[x].children@.len(),
    ensures
        ({
            let first = t0.nodes@.len() as int;
            let target = t1.nodes[x].children@[kx].1 as int;
            ||| (x < first && kx < t0.nodes[x].children@.len() && t1.nodes[x].children@[kx]
                == t0.nodes[x].children@[kx] && target < first)
            ||| (x == i && kx == t0.nodes[i].children@.len() && target == first)
            ||| (first <= x && target == x + 1 && kx == 0)
        }),
{
    let first = t0.nodes@.len() as int;
    if x < first {
        if x == i {
            if kx < t0.nodes[i].children@.len() {
                assert(t1.nodes[i].children@[kx] == t0.nodes[i].children@[kx]);
                assert(t0.node_ok(i));
            } else {
                assert(kx == t0.nodes[i].children@.len());
                assert(t1.nodes[i].children@[kx] == t1.nodes[i].children@.last());
            }
        } else {
            assert(t1.nodes[x] == t0.nodes[x]);
            assert(t0.node_ok(x));
        }
    } else {
        let q = x - first;
        let m = w.len() - pos;
        if q < m - 1 {
            assert(t1.nodes[first + q].children@.len() == 1 && t1.nodes[first + q].children@[0].1
                as int == first + q + 1);
            assert(kx == 0);
        } else {
            assert(q == m - 1);
            assert(t1.nodes[first + m - 1].children@.len() == 0);
            assert(false);
        }
    }
}

/// Appending a fresh chain for `w[pos..]` adds exactly the word `w`.
proof fn lemma_extend_chain(t0: Trie, t1: Trie, w: Seq<char>, pos: int, i: int)
    requires
        t0.wf(),
        chain_shape(t0, t1, w, pos, i),
        t0.node_at_from(0, w.take(pos)) == Some(i),
        find_child(t0.nodes[i].children@, w[pos]) is None,
    ensures
        t1.wf(),
        t1@ == t0@.insert(w),
{
    let first = t0.nodes@.len() as int;
    let m = w.len() - pos;
    let e = t1.nodes[i].children@.last();
    assert(t1.nodes[i].children@ =~= t0.nodes[i].children@.push(e));
    // the smaller tree embeds in the larger one
    assert(extends(t0, t1)) by {
        assert forall|k: int|
            0 <= k < first implies (#[trigger] t0.nodes[k]).children@.is_prefix_of(
            t1.nodes[k].children@,
        ) && (t0.nodes[k].is_end ==> t1.nodes[k].is_end) by {}
    }
    // well-formedness of the extended tree
    assert(t1.nodes@.len() >= 1);
    assert(!t1.nodes[0].is_end);
    assert forall|k: int| 0 <= k < t1.nodes@.len() implies #[trigger] t1.node_ok(k) by {
        if k < first {
            assert(t0.node_ok(k));
            if k == i {
                lemma_find_child_none(t0.nodes[i].children@, w[pos]);
                let edges = t1.nodes[i].children@;
                let olde = t0.nodes[i].children@;
                assert forall|k1: int, k2: int|
                    0 <= k1 < k2 < edges.len() implies (#[trigger] edges[k1]).0 != (
                #[trigger] edges[k2]).0 by {
                    if k2 < olde.len() {
                        assert(edges[k1] == olde[k1] && edges[k2] == olde[k2]);
                    } else {
                        assert(edges[k2] == e);
                        assert(edges[k1] == olde[k1]);
                    }
                }
                assert forall|k1: int| 0 <= k1 < edges.len() implies i < (#[trigger] edges[k1]).1
                    < t1.nodes@.len() by {
                    if k1 < olde.len() {
                        assert(edges[k1] == olde[k1]);
                    } else {
                        assert(edges[k1] == e);
                    }
                }
            }
        } else {
            let q = k - first;
            if q < m - 1 {
                assert(t1.nodes[first + q].children@.len() == 1 && t1.nodes[first
                    + q].children@[0].1 as int == first + q + 1);
            } else {
                assert(t1.nodes[first + m - 1].children@.len() == 0);
            }
        }
    }
    assert(t1.unique_parent()) by {
        assert forall|i1: int, k1: int, i2: int, k2: int|
            #![trigger t1.nodes[i1].children[k1], t1.nodes[i2].children[k2]]
            0 <= i1 < t1.nodes@.len() && 0 <= k1 < t1.nodes[i1].children@.len() && 0 <= i2
                < t1.nodes@.len() && 0 <= k2 < t1.nodes[i2].children@.len()
                && t1.nodes[i1].children@[k1].1 == t1.nodes[i2].children@[k2].1 implies i1 == i2
            && k1 == k2 by {
            lemma_chain_edge_class(t0, t1, w, pos, i, i1, k1);
            lemma_chain_edge_class(t0, t1, w, pos, i, i2, k2);
            let v1 = t1.nodes[i1].children@[k1].1 as int;
            if v1 < first {
                assert(t0.nodes[i1].children@[k1] == t1.nodes[i1].children@[k1]);
                assert(t0.nodes[i2].children@[k2] == t1.nodes[i2].children@[k2]);
                assert(t0.unique_parent());
            }
        }
    }
    assert forall|k: int| 1 <= k < t1.nodes@.len() implies #[trigger] t1.subtree_has_word(k) by {
        if k < first {
            assert(t0.subtree_has_word(k));
            let s = choose|s: Seq<char>| #[trigger] t0.contains_from(k, s);
            lemma_extends_contains(t0, t1, k, s);
        } else {
            let q = k - first;
            lemma_chain_contains(t0, t1, w, pos, i, q, w.skip(pos + 1 + q));
            assert(t1.contains_from(k, w.skip(pos + 1 + q)));
        }
    }
    assert(t1.wf());
    // the new tree holds `w`
    assert(t1.contains_from(0, w)) by {
        lemma_extends_node_at(t0, t1, 0, w.take(pos));
        assert(t1.node_at_from(0, w.take(pos)) == Some(i));
        lemma_find_child_push(t0.nodes[i].children@, e, w[pos]);
        assert(find_child(t1.nodes[i].children@, w[pos]) == Some(e.1));
        lemma_chain_contains(t0, t1, w, pos, i, 0, w.skip(pos + 1));
        assert(t1.contains_from(first, w.skip(pos + 1)));
        t1.lemma_node_at_concat(0, w.take(pos), w.skip(pos));
        assert(w.take(pos) + w.skip(pos) =~= w);
        assert(w.skip(pos)[0] == w[pos]);
        assert(w.skip(pos).drop_first() =~= w.skip(pos + 1));
        assert(t1.node_at_from(i, w.skip(pos)) == t1.node_at_from(first, w.skip(pos + 1)));
    }
    // and nothing else beyond the old words
    assert forall|v: Seq<char>| #[trigger] t1@.contains(v) == t0@.insert(w).contains(v) by {
        assert(t1@.contains(v) == t1.contains_from(0, v));
        assert(t0@.insert(w).contains(v) == (v == w || t0.contains_from(0, v)));
        if t1.contains_from(0, v) {
            lemma_extend_no_extra(t0, t1, w, pos, i, 0, v);
            if !t0.contains_from(0, v) {
                let t = choose|t: int|
                    0 <= t <= v.len() && v == v.take(t) + w.skip(pos) && #[trigger] t0.node_at_from(
                        0,
                        v.take(t),
                    ) == Some(i);
                t0.lemma_unique_path(v.take(t), w.take(pos), i);
                assert(v =~= w) by {
                    assert(v == w.take(pos) + w.skip(pos));
                    assert(w.take(pos) + w.skip(pos) =~= w);
                }
            }
        }
        if v == w {
            assert(t1.contains_from(0, v));
        }
        if t0.contains_from(0, v) {
            lemma_extends_contains(t0, t1, 0, v);
        }
    }
    assert(t1@ =~= t0@.insert(w));
}


/// Law: a word in the tree (for instance right after `insert(w)`, whose
/// contract puts `w` in the view) makes `search(w)` return true, and makes
/// `starts_with(p)` return true for every prefix `p` of `w`.
pub proof fn lemma_word_prefixes_live(t: Trie, w: Seq<char>, p: Seq<char>)
    requires
        t@.contains(w),
        p.is_prefix_of(w),
    ensures
        t.has_path(p),
{
    let tail = w.skip(p.len() as int);
    t.lemma_node_at_concat(0, p, tail);
    assert(p + tail =~= w);
    assert(t.node_at_from(0, w) is Some);
}

/// Law: the empty path always exists: `starts_with("")` is true of every
/// tree.
pub proof fn lemma_empty_path_live(t: Trie)
    requires
        t.wf(),
    ensures
        t.has_path(Seq::<char>::empty()),
{
    assert(t.node_at_from(0, Seq::<char>::empty()) == Some(0int));
}

/// Law: the converse of `lemma_word_prefixes_live`. A live non-empty path is
/// extended by some word of the tree, so `starts_with(p)` answers, for
/// non-empty `p`, exactly "some word begins with `p`".
pub proof fn lemma_live_path_has_word(t: Trie, p: Seq<char>)
    requires
        t.wf(),
        p.len() > 0,
        t.has_path(p),
    ensures
        exists|w: Seq<char>| #[trigger] t@.contains(w) && p.is_prefix_of(w),
{
    let j = t.node_at_from(0, p)->Some_0;
    t.lemma_node_at_positive(0, p, j);
    assert(t.subtree_has_word(j));
    let s = choose|s: Seq<char>| #[trigger] t.contains_from(j, s);
    t.lemma_node_at_concat(0, p, s);
    assert(t.contains_from(0, p + s));
    assert(t@.contains(p + s));
    assert(p.is_prefix_of(p + s)) by {
        assert(p =~= (p + s).take(p.len() as int));
    }
}

/// Law: an empty or absent prefix has no extension: the longest common
/// extension is the empty string there.
pub proof fn lemma_lce_of_empty_or_absent(t: Trie, p: Seq<char>)
    requires
        p.len() == 0 || !t.has_path(p),
    ensures
        t.lce(p) == Seq::<char>::empty(),
{
}

/// The walk taken by the longest-common-extension: starting from the node at
/// `acc`, the result extends `acc`, stays a live path, is a prefix of
/// `acc + s` for every word-tail `s` at that node, and stops only at a node
/// that is terminal or does not have exactly one child.
proof fn lemma_lce_from_props(t: Trie, i: int, acc: Seq<char>)
    requires
        t.wf(),
        t.node_at_from(0, acc) == Some(i),
    ensures
        acc.is_prefix_of(t.lce_from(i, acc)),
        t.node_at_from(0, t.lce_from(i, acc)) is Some,
        forall|s: Seq<char>|
            #[trigger] t.contains_from(i, s) ==> t.lce_from(i, acc).is_prefix_of(acc + s),
        ({
            let j = t.node_at_from(0, t.lce_from(i, acc))->Some_0;
            t.nodes[j].children@.len() != 1 || t.nodes[j].is_end
        }),
    decreases t.nodes@.len() - i,
{
    t.lemma_node_at_in_range(0, acc);
    assert(0 <= i < t.nodes@.len());
    let q = t.lce_from(i, acc);
    if t.nodes[i].children@.len() == 1 && !t.nodes[i].is_end {
        let e = t.nodes[i].children@[0];
        assert(t.node_ok(i));
        assert(i < e.1 < t.nodes@.len());
        assert(q == t.lce_from(e.1 as int, acc.push(e.0)));
        assert(find_child(t.nodes[i].children@, e.0) == Some(e.1));
        // one step down the only edge
        t.lemma_node_at_concat(0, acc, seq![e.0]);
        assert(acc + seq![e.0] =~= acc.push(e.0));
        assert(seq![e.0].drop_first() =~= Seq::<char>::empty());
        assert(t.node_at_from(e.1 as int, seq![e.0].drop_first()) == Some(e.1 as int));
        assert(t.node_at_from(i, seq![e.0]) == Some(e.1 as int));
        assert(t.node_at_from(0, acc.push(e.0)) == Some(e.1 as int));
        lemma_lce_from_props(t, e.1 as int, acc.push(e.0));
        // acc is a prefix of the result
        assert(acc.is_prefix_of(q)) by {
            assert(acc.push(e.0) =~= q.take(acc.len() as int + 1));
            assert(acc =~= q.take(acc.len() as int)) by {
                assert forall|x: int| 0 <= x < acc.len() implies acc[x] == q[x] by {
                    assert(acc.push(e.0)[x] == q.take(acc.len() as int + 1)[x]);
                }
            }
        }
        // every word-tail at `i` goes down that same edge
        assert forall|s: Seq<char>| #[trigger] t.contains_from(i, s) implies q.is_prefix_of(
            acc + s,
        ) by {
            assert(s.len() > 0) by {
                if s.len() == 0 {
                    assert(t.node_at_from(i, s) == Some(i));
                    assert(false);
                }
            }
            assert(find_child(t.nodes[i].children@, s[0]) is Some);
            lemma_find_child_some(t.nodes[i].children@, s[0]);
            assert(s[0] == e.0);
            assert(t.node_at_from(i, s) == t.node_at_from(e.1 as int, s.drop_first()));
            assert(t.contains_from(e.1 as int, s.drop_first()));
            assert(q.is_prefix_of(acc.push(e.0) + s.drop_first()));
            assert(acc.push(e.0) + s.drop_first() =~= acc + s);
        }
    } else {
        assert(q == acc);
        assert(acc.is_prefix_of(q)) by {
            assert(acc =~= q.take(acc.len() as int));
        }
        assert forall|s: Seq<char>| #[trigger] t.contains_from(i, s) implies q.is_prefix_of(
            acc + s,
        ) by {
            assert(acc =~= (acc + s).take(acc.len() as int));
        }
    }
}

/// Law: for a present, non-empty prefix `p`, the longest common extension `q`
/// begins with `p`; every word that begins with `p` also begins with `q`; and
/// `q` is maximal in that either `q` is itself a word (the early stop), or
/// two words extend `q` and disagree on the very next character.
pub proof fn lemma_longest_common_extension(t: Trie, p: Seq<char>)
    requires
        t.wf(),
        t.has_path(p),
        p.len() > 0,
    ensures
        p.is_prefix_of(t.lce(p)),
        forall|w: Seq<char>|
            t@.contains(w) && p.is_prefix_of(w) ==> t.lce(p).is_prefix_of(w),
        t@.contains(t.lce(p)) || (exists|w1: Seq<char>, w2: Seq<char>|
            #![trigger t@.contains(w1), t@.contains(w2)]
            t@.contains(w1) && t@.contains(w2) && t.lce(p).is_prefix_of(w1) && t.lce(
                p,
            ).is_prefix_of(w2) && w1.len() > t.lce(p).len() && w2.len() > t.lce(p).len() && w1[
                t.lce(p).len() as int
            ] != w2[t.lce(p).len() as int]),
{
    let j0 = t.node_at_from(0, p)->Some_0;
    let q = t.lce(p);
    assert(q == t.lce_from(j0, p));
    lemma_lce_from_props(t, j0, p);
    // every word extending `p` extends `q`
    assert forall|w: Seq<char>| t@.contains(w) && p.is_prefix_of(w) implies q.is_prefix_of(w) by {
        let tail = w.skip(p.len() as int);
        t.lemma_node_at_concat(0, p, tail);
        assert(p + tail =~= w);
        assert(t.contains_from(j0, tail));
        assert(q.is_prefix_of(p + tail));
    }
    // maximality at the stop node
    let j = t.node_at_from(0, q)->Some_0;
    t.lemma_node_at_in_range(0, q);
    assert(q.len() >= p.len() > 0) by {
        assert(p =~= q.take(p.len() as int));
    }
    t.lemma_node_at_positive(0, q, j);
    assert(j >= 1);
    if t.nodes[j].is_end {
        assert(t.contains_from(0, q));
        assert(t@.contains(q));
    } else {
        let ch = t.nodes[j].children@;
        assert(ch.len() != 1);
        if ch.len() == 0 {
            // a childless, non-terminal node would be a dead branch
            assert(t.subtree_has_word(j));
            let s = choose|s: Seq<char>| #[trigger] t.contains_from(j, s);
            if s.len() == 0 {
                assert(t.node_at_from(j, s) == Some(j));
                assert(false);
            } else {
                assert(find_child(ch, s[0]) is None);
                assert(false);
            }
        } else {
            // at least two children: words diverge right here
            assert(t.node_ok(j));
            let e1 = ch[0];
            let e2 = ch[1];
            assert(e1.0 != e2.0);
            assert(j < e1.1 < t.nodes@.len() && j < e2.1 < t.nodes@.len());
            assert(t.subtree_has_word(e1.1 as int));
            assert(t.subtree_has_word(e2.1 as int));
            let s1 = choose|s: Seq<char>| #[trigger] t.contains_from(e1.1 as int, s);
            let s2 = choose|s: Seq<char>| #[trigger] t.contains_from(e2.1 as int, s);
            lemma_find_child_present(ch, 0);
            lemma_find_child_present(ch, 1);
            let w1 = q + seq![e1.0] + s1;
            let w2 = q + seq![e2.0] + s2;
            lemma_word_through_edge(t, q, j, e1.0, e1.1 as int, s1);
            lemma_word_through_edge(t, q, j, e2.0, e2.1 as int, s2);
            assert(t@.contains(w1) && t@.contains(w2));
            assert(q.is_prefix_of(w1)) by {
                assert(q =~= w1.take(q.len() as int));
            }
            assert(q.is_prefix_of(w2)) by {
                assert(q =~= w2.take(q.len() as int));
            }
            assert(w1[q.len() as int] == e1.0 && w2[q.len() as int] == e2.0);
            assert(w1.len() > q.len() && w2.len() > q.len());
        }
    }
}

/// A word-tail below a child of the node at `q` spells a word of the tree.
proof fn lemma_word_through_edge(t: Trie, q: Seq<char>, j: int, c: char, u: int, s: Seq<char>)
    requires
        t.node_at_from(0, q) == Some(j),
        0 <= j < t.nodes@.len(),
        0 <= u < t.nodes@.len(),
        find_child(t.nodes[j].children@, c) == Some(u as usize),
        u == u as usize as int,
        t.contains_from(u, s),
    ensures
        t@.contains(q + seq![c] + s),
{
    t.lemma_node_at_concat(0, q, seq![c]);
    assert(seq![c].drop_first() =~= Seq::<char>::empty());
    assert(t.node_at_from(u, seq![c].drop_first()) == Some(u));
    assert(t.node_at_from(j, seq![c]) == Some(u));
    assert(t.node_at_from(0, q + seq![c]) == Some(u));
    t.lemma_node_at_concat(0, q + seq![c], s);
    assert(q + seq![c] + s =~= (q + seq![c]) + s);
    assert(t.contains_from(0, (q + seq![c]) + s));
    assert(t@.contains(q + seq![c] + s));
}

} // verus!
