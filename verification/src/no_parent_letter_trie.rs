//! The no-parent build mode of the trie: the same arena-backed tree, run
//! with prefix reconstruction through parent links switched off, so
//! snapshots report the empty prefix. Everything else answers exactly as
//! the base trie does.

use vstd::prelude::*;

use crate::BaseLetterTrie;
use crate::FixedNode;
use crate::TrieError;
use crate::node::{Node, path_in, sub_height, sub_node_count, sub_word_count, walk, word_in};
use crate::text::{lower_of, trim_of};

verus! {

/// A letter trie without parent back-references: a stripped-down build mode
/// of the same tree in which reconstructed prefixes are always empty.
pub struct NoParentLetterTrie {
    core: BaseLetterTrie,
}

impl View for NoParentLetterTrie {
    type V = Seq<Node>;

    closed spec fn view(&self) -> Seq<Node> {
        self.core@
    }
}

impl NoParentLetterTrie {
    /// The trie's invariant: a well-formed arena in no-parent mode, seen
    /// through the same view as the underlying trie.
    pub open spec fn wf(&self) -> bool {
        &&& self.spec_core().wf()
        &&& !self.spec_core().spec_parent_links()
        &&& self@ == self.spec_core()@
        &&& crate::node::wf_nodes(self@)
    }

    /// The underlying arena-backed trie.
    pub closed spec fn spec_core(&self) -> BaseLetterTrie {
        self.core
    }

    /// Constructor: a trie holding only the sentinel root and no words.
    pub fn new() -> (t: NoParentLetterTrie)
        ensures
            t.wf(),
            t@.len() == 1,
            !t@[0].is_frozen,
            forall|p: Seq<char>| path_in(t@, p) <==> p.len() == 0,
            forall|p: Seq<char>| !word_in(t@, p),
    {
        NoParentLetterTrie { core: BaseLetterTrie::new_with_links(false) }
    }

    /// Inserts the word spelled by `v[char_index..]`, exactly as the base
    /// trie does.
    pub fn add_from_vec_chars(&mut self, v: &Vec<char>, v_len: usize, char_index: usize) -> (r:
        Result<(), TrieError>)
        requires
            old(self).wf(),
            v_len == v@.len(),
            old(self)@.len() + v@.len() <= usize::MAX,
        ensures
            final(self).wf(),
            ({
                let w = crate::base_letter_trie::suffix_from(v@, char_index as int);
                &&& w.len() == 0 ==> r is Ok && final(self)@ == old(self)@
                &&& w.len() > 0 && old(self)@[0].is_frozen ==> r == Err::<
                    (),
                    TrieError,
                >(TrieError::FrozenTrieMutation) && final(self)@ == old(self)@
                &&& w.len() > 0 && !old(self)@[0].is_frozen ==> r is Ok && crate::node::grows_by_word(
                    old(self)@,
                    final(self)@,
                    w,
                ) && (word_in(old(self)@, w) ==> final(self)@ == old(self)@)
            }),
    {
        self.core.add_from_vec_chars(v, v_len, char_index)
    }

    /// Inserts one word given as a string: trims, lowercases, adds.
    pub fn insert(&mut self, word: &str) -> (r: Result<(), TrieError>)
        requires
            old(self).wf(),
            old(self)@.len() + lower_of(trim_of(word@)).len() <= usize::MAX,
        ensures
            final(self).wf(),
            ({
                let w = lower_of(trim_of(word@));
                &&& w.len() == 0 ==> r is Ok && final(self)@ == old(self)@
                &&& w.len() > 0 && old(self)@[0].is_frozen ==> r == Err::<
                    (),
                    TrieError,
                >(TrieError::FrozenTrieMutation) && final(self)@ == old(self)@
                &&& w.len() > 0 && !old(self)@[0].is_frozen ==> r is Ok && crate::node::grows_by_word(
                    old(self)@,
                    final(self)@,
                    w,
                ) && (word_in(old(self)@, w) ==> final(self)@ == old(self)@)
            }),
    {
        self.core.insert(word)
    }

    /// Inserts a word after checking at run time that the arena has room
    /// for it; returns `None`, leaving the trie unchanged, when it does
    /// not.
    pub fn try_insert(&mut self, word: &str) -> (r: Option<Result<(), TrieError>>)
        requires
            old(self).wf(),
        ensures
            final(self).wf(),
            r is None ==> old(self)@.len() + lower_of(trim_of(word@)).len() > usize::MAX
                && final(self)@ == old(self)@,
            r matches Some(inner) ==> ({
                let w = lower_of(trim_of(word@));
                &&& old(self)@.len() + w.len() <= usize::MAX
                &&& w.len() == 0 ==> inner is Ok && final(self)@ == old(self)@
                &&& w.len() > 0 && old(self)@[0].is_frozen ==> inner == Err::<
                    (),
                    TrieError,
                >(TrieError::FrozenTrieMutation) && final(self)@ == old(self)@
                &&& w.len() > 0 && !old(self)@[0].is_frozen ==> inner is Ok
                    && crate::node::grows_by_word(old(self)@, final(self)@, w) && (word_in(
                    old(self)@,
                    w,
                ) ==> final(self)@ == old(self)@)
            }),
    {
        self.core.try_insert(word)
    }

    /// Number of nodes in the trie, computed live (equal to the arena
    /// length).
    pub fn node_count(&self) -> (r: usize)
        requires
            self.wf(),
        ensures
            r == sub_node_count(self@, 0),
            r == self@.len(),
    {
        self.core.node_count()
    }

    /// Number of words in the trie, computed live.
    pub fn word_count(&self) -> (r: usize)
        requires
            self.wf(),
        ensures
            r == sub_word_count(self@, 0),
    {
        self.core.word_count()
    }

    /// Height of the trie, the root level included.
    pub fn height(&self) -> (r: usize)
        requires
            self.wf(),
        ensures
            r == sub_height(self@, 0),
    {
        self.core.height()
    }

    /// Given a word or a partial word, find the corresponding node; the
    /// snapshot's prefix is empty because this build mode keeps no parent
    /// links to reconstruct it from.
    pub fn find(&self, prefix: &str) -> (r: Option<FixedNode>)
        requires
            self.wf(),
        ensures
            ({
                let lp = lower_of(prefix@);
                &&& (r is Some <==> lp.len() > 0 && path_in(self@, lp))
                &&& r matches Some(n) ==> (walk(self@, 0, lp) matches Some(j) && {
                    &&& n.c == self@[j as int].c
                    &&& n.prefix@ == Seq::<char>::empty()
                    &&& n.depth == lp.len()
                    &&& n.is_word == word_in(self@, lp)
                    &&& n.child_count == self@[j as int].children@.len()
                    &&& n.node_count == sub_node_count(self@, j as int)
                    &&& n.word_count == sub_word_count(self@, j as int)
                    &&& n.height == sub_height(self@, j as int)
                })
            }),
    {
        self.core.find(prefix)
    }

    /// Whether the trie contains `prefix` as a complete word.
    pub fn is_word_recursive(&self, prefix: &str) -> (r: bool)
        requires
            self.wf(),
        ensures
            r == word_in(self@, lower_of(prefix@)),
    {
        self.core.is_word_recursive(prefix)
    }

    /// The reconstructed prefix of a trie without parent links: a node with
    /// no parent reference contributes the empty string.
    pub fn prefix(&self) -> (r: String)
        ensures
            r@ == Seq::<char>::empty(),
    {
        String::new()
    }

    /// A concrete copy of the root node, describing the whole trie.
    pub fn to_fixed_node(&self) -> (r: FixedNode)
        requires
            self.wf(),
        ensures
            r.c == crate::node::ROOT_CHAR,
            r.prefix@ == Seq::<char>::empty(),
            r.depth == 0,
            !r.is_word,
            r.child_count == self@[0].children@.len(),
            r.node_count == sub_node_count(self@, 0),
            r.word_count == sub_word_count(self@, 0),
            r.height == sub_height(self@, 0),
    {
        self.core.to_fixed_node()
    }
}

} // verus!
