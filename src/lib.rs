//! A prefix tree (trie) of words made of lowercase ASCII letters, with
//! insertion and exact-membership search.
//!
//! A character outside 'a'..='z' is a caller error: `insert` and `search`
//! exclude it by precondition rather than reporting it at run time.
use vstd::prelude::*;

pub mod laws;

verus! {

/// Number of branches below each node, one per lowercase ASCII letter.
pub const ALPHABET_SIZE: usize = 26;

/// A character that the trie accepts: an ASCII lowercase letter.
pub open spec fn is_lower(c: char) -> bool {
    'a' <= c && c <= 'z'
}

/// A word that the trie accepts: every character is an ASCII lowercase letter.
pub open spec fn is_word(w: Seq<char>) -> bool {
    forall|i: int| 0 <= i < w.len() ==> is_lower(#[trigger] w[i])
}

/// The branch that a letter selects: its distance from 'a'.
pub open spec fn branch_of(c: char) -> int {
    c as int - 'a' as int
}

/// Maps a lowercase letter to its branch slot.
pub(crate) fn index_from_char(key: char) -> (r: usize)
    requires
        is_lower(key),
    ensures
        r as int == branch_of(key),
        r < ALPHABET_SIZE,
{
    (key as u32 - 'a' as u32) as usize
}

/// One node of the tree: a slot per letter holding the arena index of the
/// child, and whether a stored word ends here.
#[derive(Clone, Copy)]
struct TrieNode {
    children: [Option<usize>; 26],
    is_end: bool,
}

impl TrieNode {
    /// A node with every branch absent, ending no word.
    fn get_node() -> (r: TrieNode)
        ensures
            !r.is_end,
            forall|k: int| 0 <= k < ALPHABET_SIZE ==> r.children@[k] is None,
    {
        TrieNode { children: [None; 26], is_end: false }
    }
}

/// The node reached from node `i` by the letter `c`, if that branch exists.
spec fn step(nodes: Seq<TrieNode>, i: int, c: char) -> Option<int> {
    if 0 <= i < nodes.len() && is_lower(c) {
        match nodes[i].children@[branch_of(c)] {
            Some(j) => Some(j as int),
            None => None,
        }
    } else {
        None
    }
}

/// The node that spells `w` from the root (node 0), if the whole path exists.
spec fn walk(nodes: Seq<TrieNode>, w: Seq<char>) -> Option<int>
    decreases w.len(),
{
    if w.len() == 0 {
        Some(0)
    } else {
        match walk(nodes, w.drop_last()) {
            Some(i) => step(nodes, i, w.last()),
            None => None,
        }
    }
}

/// Whether the path spelling `w` exists and ends at a node marked as a word's end.
spec fn ends_word(nodes: Seq<TrieNode>, w: Seq<char>) -> bool {
    match walk(nodes, w) {
        Some(i) => nodes[i].is_end,
        None => false,
    }
}

/// A prefix tree of lowercase ASCII words.
///
/// Nodes live in one arena; node 0 is the root, and each branch slot holds the
/// arena index of its child. Each node remembers, as ghost state, the prefix that
/// the path from the root to it spells.
pub struct Trie {
    nodes: Vec<TrieNode>,
    prefixes: Ghost<Seq<Seq<char>>>,
}

impl View for Trie {
    type V = Set<Seq<char>>;

    /// The set of words stored in the trie.
    closed spec fn view(&self) -> Set<Seq<char>> {
        Set::new(|w: Seq<char>| is_word(w) && ends_word(self.nodes@, w))
    }
}

impl Trie {
    /// The arena is a tree rooted at node 0: each child index is in bounds, and
    /// the prefix of a child extends its parent's prefix by the branch's letter.
    pub closed spec fn wf(&self) -> bool {
        let nodes = self.nodes@;
        let prefixes = self.prefixes@;
        &&& nodes.len() >= 1
        &&& prefixes.len() == nodes.len()
        &&& prefixes[0] == Seq::<char>::empty()
        &&& forall|i: int, k: int|
            #![trigger nodes[i].children@[k]]
            0 <= i < nodes.len() && 0 <= k < ALPHABET_SIZE && nodes[i].children@[k] is Some
                ==> {
                let j = nodes[i].children@[k]->0 as int;
                &&& j < nodes.len()
                &&& prefixes[j].len() == prefixes[i].len() + 1
                &&& prefixes[j].drop_last() == prefixes[i]
                &&& is_lower(prefixes[j].last())
                &&& branch_of(prefixes[j].last()) == k
            }
    }

    /// Every path that exists ends at the node whose prefix it spells.
    proof fn lemma_walk_prefix(&self, w: Seq<char>)
        requires
            self.wf(),
        ensures
            walk(self.nodes@, w) matches Some(i) ==> 0 <= i < self.nodes@.len()
                && self.prefixes@[i] == w,
        decreases w.len(),
    {
        if w.len() > 0 {
            self.lemma_walk_prefix(w.drop_last());
            let nodes = self.nodes@;
            if let Some(p) = walk(nodes, w.drop_last()) {
                if let Some(j) = step(nodes, p, w.last()) {
                    let k = branch_of(w.last());
                    assert(nodes[p].children@[k] is Some);
                    let pj = self.prefixes@[j];
                    assert(pj.last() == w.last());
                    assert(pj =~= pj.drop_last().push(pj.last()));
                    assert(w =~= w.drop_last().push(w.last()));
                }
            }
        }
    }

    /// Once a path is missing, every extension of it is missing too.
    proof fn lemma_walk_missing(nodes: Seq<TrieNode>, w: Seq<char>, j: int, m: int)
        requires
            0 <= j <= m <= w.len(),
            walk(nodes, w.take(j)) is None,
        ensures
            walk(nodes, w.take(m)) is None,
        decreases m - j,
    {
        if m > j {
            Self::lemma_walk_missing(nodes, w, j, m - 1);
            assert(w.take(m).drop_last() =~= w.take(m - 1));
        }
    }

    /// Attaching a fresh, childless node `n` at the empty slot `k` of node `p`
    /// keeps every existing path, and every new path ends at `n`.
    proof fn lemma_walk_grow(
        before: Seq<TrieNode>,
        after: Seq<TrieNode>,
        p: int,
        k: int,
        w: Seq<char>,
    )
        requires
            1 <= before.len() <= usize::MAX,
            after.len() == before.len() + 1,
            0 <= p < before.len(),
            0 <= k < ALPHABET_SIZE,
            before[p].children@[k] is None,
            after[p].children@ == before[p].children@.update(k, Some(before.len() as usize)),
            forall|i: int| 0 <= i < before.len() && i != p ==> #[trigger] after[i] == before[i],
            forall|kk: int|
                0 <= kk < ALPHABET_SIZE ==> #[trigger] after[before.len() as int].children@[kk]
                    is None,
            forall|i: int, kk: int|
                #![trigger before[i].children@[kk]]
                0 <= i < before.len() && 0 <= kk < ALPHABET_SIZE && before[i].children@[kk] is Some
                    ==> before[i].children@[kk]->0 < before.len(),
        ensures
            walk(before, w) matches Some(i) ==> 0 <= i < before.len() && walk(after, w) == Some(i),
            walk(after, w) matches Some(i) ==> i == before.len() || walk(before, w) == Some(i),
        decreases w.len(),
    {
        if w.len() > 0 {
            Self::lemma_walk_grow(before, after, p, k, w.drop_last());
            if let Some(i) = walk(before, w.drop_last()) {
                if i == p {
                    assert(after[p].children@.len() == ALPHABET_SIZE);
                    if is_lower(w.last()) && branch_of(w.last()) != k {
                        assert(after[p].children@[branch_of(w.last())]
                            == before[p].children@[branch_of(w.last())]);
                    }
                } else {
                    assert(after[i] == before[i]);
                }
            }
            if let Some(i) = walk(after, w.drop_last()) {
                if i == before.len() as int {
                    if is_lower(w.last()) {
                        assert(after[i].children@[branch_of(w.last())] is None);
                    }
                }
            }
        }
    }

    /// Paths depend only on the children: changing end marks keeps them all.
    proof fn lemma_walk_same_children(before: Seq<TrieNode>, after: Seq<TrieNode>, w: Seq<char>)
        requires
            after.len() == before.len(),
            forall|i: int| 0 <= i < before.len() ==> #[trigger] after[i].children == before[i].children,
        ensures
            walk(after, w) == walk(before, w),
        decreases w.len(),
    {
        if w.len() > 0 {
            Self::lemma_walk_same_children(before, after, w.drop_last());
            if let Some(i) = walk(before, w.drop_last()) {
                if 0 <= i < before.len() {
                    assert(after[i].children == before[i].children);
                }
            }
        }
    }

    /// Creates an empty trie: only the root, which ends no word.
    pub fn new() -> (t: Trie)
        ensures
            t.wf(),
            t@ == Set::<Seq<char>>::empty(),
    {
        let mut nodes: Vec<TrieNode> = Vec::new();
        nodes.push(TrieNode::get_node());
        let ghost prefixes = seq![Seq::<char>::empty()];
        let t = Trie { nodes, prefixes: Ghost(prefixes) };
        assert forall|w: Seq<char>| !#[trigger] t@.contains(w) by {
            if w.len() > 0 {
                assert(w.take(0) =~= Seq::<char>::empty());
                Self::lemma_walk_missing(t.nodes@, w, 1, w.len() as int);
            }
        }
        assert(t@ =~= Set::<Seq<char>>::empty());
        t
    }

    /// Inserts `word`, creating the missing nodes along its path and marking
    /// the last one as the end of a word. Inserting a stored word again
    /// changes nothing. `word` must hold lowercase ASCII letters only.
    pub fn insert(&mut self, word: &str)
        requires
            old(self).wf(),
            is_word(word@),
        ensures
            final(self).wf(),
            final(self)@ == old(self)@.insert(word@),
    {
        let mut cur: usize = 0;
        for ch in it: word.chars()
            invariant
                self.wf(),
                self@ == old(self)@,
                is_word(word@),
                it.seq() == word@,
                walk(self.nodes@, word@.take(it.index() as int)) == Some(cur as int),
        {
            let ghost taken = word@.take(it.index() as int);
            let ghost next_taken = word@.take(it.index() + 1);
            proof {
                self.lemma_walk_prefix(taken);
                assert(next_taken.drop_last() =~= taken);
            }
            let k = index_from_char(ch);
            let node = self.nodes[cur];
            match node.children[k] {
                Some(next) => {
                    cur = next;
                },
                None => {
                    let ghost before = self.nodes@;
                    let ghost old_view = self@;
                    let n = self.nodes.len();
                    let mut parent = node;
                    parent.children[k] = Some(n);
                    self.nodes.set(cur, parent);
                    self.nodes.push(TrieNode::get_node());
                    self.prefixes = Ghost(self.prefixes@.push(next_taken));
                    proof {
                        let after = self.nodes@;
                        assert forall|w: Seq<char>|
                            #![trigger walk(after, w)]
                            #![trigger walk(before, w)]
                            (walk(before, w) matches Some(i) ==> 0 <= i < before.len() && walk(
                                after,
                                w,
                            ) == Some(i)) && (walk(after, w) matches Some(i) ==> i == before.len()
                                || walk(before, w) == Some(i)) by {
                            Self::lemma_walk_grow(before, after, cur as int, k as int, w);
                        }
                        assert forall|w: Seq<char>| #[trigger]
                            self@.contains(w) == old_view.contains(w) by {
                            if let Some(i) = walk(after, w) {
                                if i != before.len() {
                                    assert(after[i].is_end == before[i].is_end);
                                }
                            }
                            if let Some(i) = walk(before, w) {
                                assert(after[i].is_end == before[i].is_end);
                            }
                        }
                        assert(self@ =~= old_view);
                        assert(next_taken.last() == ch);
                        assert(after[cur as int].children@[k as int] == Some(n));
                    }
                    cur = n;
                },
            }
        }
        let ghost before = self.nodes@;
        let ghost old_view = self@;
        proof {
            self.lemma_walk_prefix(word@);
            assert(word@.take(word@.len() as int) =~= word@);
        }
        let mut last = self.nodes[cur];
        last.is_end = true;
        self.nodes.set(cur, last);
        proof {
            let after = self.nodes@;
            assert forall|w: Seq<char>| #[trigger] walk(after, w) == walk(before, w) by {
                Self::lemma_walk_same_children(before, after, w);
            }
            assert forall|w: Seq<char>| #[trigger]
                self@.contains(w) == old_view.insert(word@).contains(w) by {
                self.lemma_walk_prefix(w);
                if let Some(i) = walk(after, w) {
                    if i != cur {
                        assert(after[i] == before[i]);
                    }
                }
            }
            assert(self@ =~= old_view.insert(word@));
        }
    }

    /// Returns whether `word` was inserted (an exact match, not a prefix).
    /// `word` must hold lowercase ASCII letters only.
    pub fn search(&self, word: &str) -> (r: bool)
        requires
            self.wf(),
            is_word(word@),
        ensures
            r == self@.contains(word@),
    {
        let mut cur: usize = 0;
        for ch in it: word.chars()
            invariant
                self.wf(),
                is_word(word@),
                it.seq() == word@,
                walk(self.nodes@, word@.take(it.index() as int)) == Some(cur as int),
        {
            proof {
                self.lemma_walk_prefix(word@.take(it.index() as int));
            }
            let k = index_from_char(ch);
            match self.nodes[cur].children[k] {
                Some(next) => {
                    assert(word@.take(it.index() + 1).drop_last() =~= word@.take(it.index() as int));
                    cur = next;
                },
                None => {
                    proof {
                        assert(word@.take(it.index() + 1).drop_last() =~= word@.take(it.index() as int));
                        Self::lemma_walk_missing(self.nodes@, word@, it.index() + 1, word@.len() as int);
                        assert(word@.take(word@.len() as int) =~= word@);
                    }
                    return false;
                },
            }
        }
        proof {
            self.lemma_walk_prefix(word@);
            assert(word@.take(word@.len() as int) =~= word@);
        }
        self.nodes[cur].is_end
    }
}

} // verus!
