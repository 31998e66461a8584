//! The letter trie proper: an arena of nodes rooted at index 0, with
//! insertion, lookup, freezing and merging.
//!
//! The public contracts speak of three model functions over the arena:
//! `path_in` (a character sequence labels a node), `word_in` (it labels a
//! word-end node) and the subtree aggregates `sub_node_count`,
//! `sub_word_count` and `sub_height`.

use vstd::prelude::*;

use crate::FixedNode;
use crate::TrieError;
use crate::node::{
    Node, ROOT_CHAR, cache_ok, caches_ok, child_entries_ok, child_of, child_search,
    children_sorted, frozen_uniform, grows_by_word, has_child_entry, is_stem_of, merges_sets,
    parent_link_ok, path_in, prefix_of, same_shape, sub_height,
    sub_height_from, sub_node_count, sub_node_count_from, sub_word_count, sub_word_count_from,
    walk, wf_nodes, wf_struct, word_in, words_under, words_under_from,
};
use crate::node_lemmas::{
    lemma_child_search_complete, lemma_child_search_none, lemma_child_search_sound,
    lemma_depth_prefix_len, lemma_node_count_total, lemma_path_iff_prefix, lemma_path_take,
    lemma_prefix_stable, lemma_prefix_walks, lemma_same_shape_sub, lemma_same_shape_walk,
    lemma_same_shape_wf_struct, lemma_sub_height_le_node, lemma_sub_node_count_bound,
    lemma_sub_word_le_node, lemma_walk_app, lemma_walk_prefix, lemma_walk_step,
};
use crate::text::{lower_chars, lower_of, trim_of, trim_str};

verus! {

/// The word that an insertion starting at character position `ci` of `v`
/// actually stores: the suffix of `v` from `ci` on, or nothing when `ci` is
/// out of range.
pub open spec fn suffix_from(v: Seq<char>, ci: int) -> Seq<char> {
    if ci <= v.len() {
        v.skip(ci)
    } else {
        Seq::empty()
    }
}

/// Children entries of a sub-trie node, re-based into a target arena whose
/// length was `delta` when the sub-trie's nodes came in: sub-trie node `j`
/// (never the sub-trie root) lands at index `delta + j - 1`.
pub open spec fn tr_children(delta: int, ch: Seq<(char, usize)>) -> Seq<(char, usize)> {
    ch.map_values(|e: (char, usize)| (e.0, (delta + e.1 - 1) as usize))
}

/// A sub-trie parent link, re-based into the target arena: the sub-trie
/// root becomes the target root.
pub open spec fn tr_parent(delta: int, p: Option<usize>) -> Option<usize> {
    match p {
        None => None,
        Some(pp) => if pp == 0 {
            Some(0usize)
        } else {
            Some((delta + pp - 1) as usize)
        },
    }
}

/// Node `n` is sub-trie node `o` carried over into the target arena: same
/// character, depth and word flag, links re-based, caches clear.
pub open spec fn is_tr_node(delta: int, o: Node, n: Node) -> bool {
    &&& n.c == o.c
    &&& n.depth == o.depth
    &&& n.parent == tr_parent(delta, o.parent)
    &&& n.children@ == tr_children(delta, o.children@)
    &&& n.is_word == o.is_word
    &&& !n.is_frozen
    &&& n.node_count is None
    &&& n.word_count is None
    &&& n.height is None
}

/// Root child entry `k` of a sub-trie, as it appears in the target root's
/// children after a merge that re-based the sub-trie by `d`.
pub open spec fn merged_entry(d: int, ob: Seq<Node>, k: int) -> (char, usize) {
    ((ob[0].children@[k]).0, (d + ob[0].children@[k].1 - 1) as usize)
}

/// The two tries' root children use a common first letter; merging them
/// would collide.
pub open spec fn roots_collide(a: Seq<Node>, b: Seq<Node>) -> bool {
    exists|c: char| child_of(a, 0, c) is Some && #[trigger] child_of(b, 0, c) is Some
}

/// The letter trie. Owns all nodes in a flat arena; the root sits at index
/// 0 and carries a sentinel character that never counts toward any word.
///
/// `parent_links` is the build mode for prefix reconstruction: when it is
/// off, snapshots report the empty prefix, exactly as a trie without parent
/// back-references would.
pub struct BaseLetterTrie {
    nodes: Vec<Node>,
    parent_links: bool,
}

impl View for BaseLetterTrie {
    type V = Seq<Node>;

    closed spec fn view(&self) -> Seq<Node> {
        self.nodes@
    }
}

impl BaseLetterTrie {
    /// The trie's invariant: a well-formed arena.
    pub open spec fn wf(&self) -> bool {
        wf_nodes(self@)
    }

    /// Whether snapshots reconstruct prefixes through parent links.
    pub closed spec fn spec_parent_links(&self) -> bool {
        self.parent_links
    }

    /// Whether the trie is frozen (mirrored from the root node).
    pub open spec fn spec_is_frozen(&self) -> bool {
        self@[0].is_frozen
    }

    pub(crate) fn new_with_links(parent_links: bool) -> (t: BaseLetterTrie)
        ensures
            t.wf(),
            t@.len() == 1,
            !t.spec_is_frozen(),
            t.spec_parent_links() == parent_links,
            forall|p: Seq<char>| path_in(t@, p) <==> p.len() == 0,
            forall|p: Seq<char>| !word_in(t@, p),
    {
        let root = Node {
            c: ROOT_CHAR,
            depth: 0,
            parent: None,
            children: Vec::new(),
            is_word: false,
            is_frozen: false,
            node_count: None,
            word_count: None,
            height: None,
        };
        let mut nodes: Vec<Node> = Vec::new();
        nodes.push(root);
        let t = BaseLetterTrie { nodes, parent_links };
        proof {
            assert forall|i: int| 0 <= i < t@.len() implies #[trigger] child_entries_ok(t@, i)
                && children_sorted(t@, i) && cache_ok(t@, i) by {}
            assert forall|p: Seq<char>| path_in(t@, p) <==> p.len() == 0 by {
                if p.len() > 0 {
                    lemma_child_search_none(t@[0].children@, p[0]);
                }
            }
        }
        t
    }

    /// Constructor: the root of every trie is the same regardless of what
    /// words will be added, so there are no parameters.
    pub fn new() -> (t: BaseLetterTrie)
        ensures
            t.wf(),
            t@.len() == 1,
            !t.spec_is_frozen(),
            t.spec_parent_links(),
            forall|p: Seq<char>| path_in(t@, p) <==> p.len() == 0,
            forall|p: Seq<char>| !word_in(t@, p),
    {
        Self::new_with_links(true)
    }

    /// Whether the trie is frozen; while frozen it is read-only.
    pub fn is_frozen(&self) -> (r: bool)
        requires
            self.wf(),
        ensures
            r == self.spec_is_frozen(),
    {
        self.nodes[0].is_frozen
    }

    /// Number of nodes in the arena (root included).
    pub fn len(&self) -> (r: usize)
        ensures
            r == self@.len(),
    {
        self.nodes.len()
    }

    /// Looks up the child of node `i` for character `c` by scanning the
    /// sorted children list.
    fn child_index(&self, i: usize, c: char) -> (r: Option<usize>)
        requires
            wf_struct(self@),
            i < self@.len(),
        ensures
            r == child_of(self@, i as int, c),
            r matches Some(j) ==> i < j < self@.len() && self@[j as int].c == c
                && self@[j as int].parent == Some(i) && self@[j as int].depth == self@[i as int].depth + 1,
    {
        let ghost ch = self@[i as int].children@;
        let n = self.nodes[i].children.len();
        let mut k: usize = 0;
        proof {
            assert(ch.skip(0) =~= ch);
        }
        while k < n
            invariant
                wf_struct(self@),
                i < self@.len(),
                ch == self@[i as int].children@,
                n == ch.len(),
                k <= n,
                child_search(ch.skip(k as int), c) == child_of(self@, i as int, c),
            decreases n - k,
        {
            let (cc, jj) = self.nodes[i].children[k];
            proof {
                assert(ch.skip(k as int)[0] == ch[k as int]);
            }
            if cc == c {
                proof {
                    assert(child_of(self@, i as int, c) == Some(jj));
                    assert(child_entries_ok(self@, i as int));
                    assert(ch[k as int].1 == jj);
                }
                return Some(jj);
            }
            proof {
                assert(ch.skip(k as int).drop_first() =~= ch.skip(k as int + 1));
            }
            k += 1;
        }
        proof {
            assert(ch.skip(n as int) =~= Seq::<(char, usize)>::empty());
        }
        None
    }

    /// Creates a new leaf for character `c` under node `i` and links it into
    /// `i`'s sorted children list.
    fn append_child(&mut self, i: usize, c: char, word: bool) -> (j: usize)
        requires
            old(self).wf(),
            !old(self).spec_is_frozen(),
            i < old(self)@.len(),
            old(self)@.len() < usize::MAX,
            child_of(old(self)@, i as int, c) is None,
        ensures
            final(self).wf(),
            !final(self).spec_is_frozen(),
            final(self).spec_parent_links() == old(self).spec_parent_links(),
            final(self)@.len() == old(self)@.len() + 1,
            j == old(self)@.len(),
            forall|m: int|
                0 <= m < old(self)@.len() && m != i ==> final(self)@[m] == old(self)@[m],
            final(self)@[i as int].c == old(self)@[i as int].c,
            final(self)@[i as int].depth == old(self)@[i as int].depth,
            final(self)@[i as int].parent == old(self)@[i as int].parent,
            final(self)@[i as int].is_word == old(self)@[i as int].is_word,
            final(self)@[i as int].is_frozen == old(self)@[i as int].is_frozen,
            final(self)@[j as int].c == c,
            final(self)@[j as int].is_word == word,
            child_of(final(self)@, i as int, c) == Some(j),
            forall|m: int|
                0 <= m < old(self)@.len() ==> prefix_of(final(self)@, m) == prefix_of(
                    old(self)@,
                    m,
                ),
            prefix_of(final(self)@, j as int) == prefix_of(old(self)@, i as int).push(c),
            forall|p: Seq<char>|
                path_in(final(self)@, p) <==> path_in(old(self)@, p) || p == prefix_of(old(self)@, i as int).push(c),
            forall|p: Seq<char>|
                word_in(final(self)@, p) <==> word_in(old(self)@, p) || (word && p == prefix_of(old(self)@, i as int).push(c)),
            forall|p: Seq<char>|
                walk(old(self)@, 0, p) is Some ==> walk(final(self)@, 0, p) == walk(
                    old(self)@,
                    0,
                    p,
                ),
    {
        let ghost os = self@;
        let j = self.nodes.len();
        let depth = self.nodes[i].depth;
        proof {
            lemma_depth_prefix_len(os, i as int);
        }
        let leaf = Node {
            c,
            depth: depth + 1,
            parent: Some(i),
            children: Vec::new(),
            is_word: word,
            is_frozen: false,
            node_count: None,
            word_count: None,
            height: None,
        };
        self.nodes.push(leaf);

        // Find the sorted insertion position in i's children list.
        let ghost mid = self@;
        let n = self.nodes[i].children.len();
        let mut pos: usize = 0;
        proof {
            lemma_child_search_none(os[i as int].children@, c);
            assert(mid[i as int] == os[i as int]);
            assert(children_sorted(os, i as int));
            assert forall|k: int| 0 <= k < mid[i as int].children@.len() implies (#[trigger] mid[i as int].children@[k]).0 != c by {
                assert(mid[i as int].children@[k] == os[i as int].children@[k]);
            }
            assert forall|k1: int, k2: int|
                0 <= k1 < k2 < mid[i as int].children@.len() implies (#[trigger] mid[i as int].children@[k1]).0 < (#[trigger] mid[i as int].children@[k2]).0 by {
                assert(mid[i as int].children@[k1] == os[i as int].children@[k1]);
                assert(mid[i as int].children@[k2] == os[i as int].children@[k2]);
            }
        }
        while pos < n && self.nodes[i].children[pos].0 < c
            invariant
                self@ == mid,
                i < self@.len(),
                n == self@[i as int].children@.len(),
                pos <= n,
                forall|k: int|
                    0 <= k < self@[i as int].children@.len() ==> (#[trigger] self@[i as int].children@[k]).0 != c,
                forall|k1: int, k2: int|
                    0 <= k1 < k2 < self@[i as int].children@.len() ==> (#[trigger] self@[i as int].children@[k1]).0 < (#[trigger] self@[i as int].children@[k2]).0,
                forall|k: int|
                    0 <= k < pos ==> (#[trigger] self@[i as int].children@[k]).0 < c,
            decreases n - pos,
        {
            pos += 1;
        }
        proof {
            assert forall|k: int| pos <= k < n implies (#[trigger] self@[i as int].children@[k]).0
                > c by {
                if k > pos {
                    assert(self@[i as int].children@[pos as int].0 < self@[i as int].children@[k].0);
                }
            }
        }
        self.nodes[i].children.insert(pos, (c, j));

        proof {
            let ns = self@;
            let och = os[i as int].children@;
            let nch = ns[i as int].children@;
            assert(nch == och.insert(pos as int, (c, j)));
            assert(forall|k: int| 0 <= k < pos ==> #[trigger] nch[k] == och[k]);
            assert(forall|k: int| pos < k < nch.len() ==> #[trigger] nch[k] == och[k - 1]);
            assert(nch[pos as int] == (c, j));

            assert(ns[j as int] == mid[j as int]);
            assert(forall|m: int| 0 <= m < os.len() && m != i ==> ns[m] == os[m]);

            // Structure is preserved.
            assert forall|m: int| 0 <= m < ns.len() implies #[trigger] children_sorted(ns, m) by {
                if m == i {
                    assert(children_sorted(os, m));
                    assert forall|k1: int, k2: int| 0 <= k1 < k2 < nch.len() implies (
                    #[trigger] nch[k1]).0 < (#[trigger] nch[k2]).0 by {
                        if k1 < pos && k2 < pos {
                            assert(nch[k1] == och[k1] && nch[k2] == och[k2]);
                        } else if k1 < pos && k2 == pos {
                            assert(nch[k1] == och[k1]);
                        } else if k1 < pos && k2 > pos {
                            assert(nch[k1] == och[k1] && nch[k2] == och[k2 - 1]);
                        } else if k1 == pos && k2 > pos {
                            assert(nch[k2] == och[k2 - 1]);
                        } else {
                            assert(nch[k1] == och[k1 - 1] && nch[k2] == och[k2 - 1]);
                        }
                    }
                } else if m == j {
                    assert(ns[m].children@.len() == 0);
                } else {
                    assert(ns[m] == os[m]);
                    assert(children_sorted(os, m));
                    assert forall|k1: int, k2: int|
                        0 <= k1 < k2 < ns[m].children@.len() implies (#[trigger] ns[m].children@[k1]).0 < (#[trigger] ns[m].children@[k2]).0 by {
                        assert(ns[m].children@[k1] == os[m].children@[k1]);
                        assert(ns[m].children@[k2] == os[m].children@[k2]);
                    }
                }
            }
            assert forall|m: int| 0 <= m < ns.len() implies #[trigger] child_entries_ok(
                ns,
                m,
            ) by {
                if m == i {
                    assert(child_entries_ok(os, m));
                    assert forall|k: int| 0 <= k < nch.len() implies {
                        let e = #[trigger] nch[k];
                        &&& i < e.1 < ns.len()
                        &&& ns[e.1 as int].c == e.0
                        &&& ns[e.1 as int].parent == Some(i)
                        &&& ns[e.1 as int].depth == ns[i as int].depth + 1
                    } by {
                        if k < pos {
                            assert(nch[k] == och[k]);
                        } else if k > pos {
                            assert(nch[k] == och[k - 1]);
                        }
                    }
                } else if m == j {
                    assert(ns[m].children@.len() == 0);
                } else {
                    assert(ns[m] == os[m]);
                    assert(child_entries_ok(os, m));
                    assert(children_sorted(os, m));
                    assert forall|k: int| 0 <= k < ns[m].children@.len() implies {
                        let e = #[trigger] ns[m].children@[k];
                        &&& m < e.1 < ns.len()
                        &&& ns[e.1 as int].c == e.0
                        &&& ns[e.1 as int].parent == Some(m as usize)
                        &&& ns[e.1 as int].depth == ns[m].depth + 1
                    } by {
                        assert(ns[m].children@[k] == os[m].children@[k]);
                        let e = os[m].children@[k];
                        assert(e.1 < os.len());
                        assert(ns[e.1 as int].c == os[e.1 as int].c);
                    }
                }
            }
            assert forall|m: int| 1 <= m < ns.len() implies #[trigger] parent_link_ok(ns, m) by {
                if m == j {
                    assert(nch[pos as int] == (c, j));
                } else {
                    assert(parent_link_ok(os, m));
                    let p = os[m].parent->0 as int;
                    let k = choose|k: int|
                        0 <= k < os[p].children@.len() && #[trigger] os[p].children@[k] == (
                        os[m].c,
                        m as usize,
                        );
                    if p == i {
                        if k < pos {
                            assert(nch[k] == (ns[m].c, m as usize));
                        } else {
                            assert(nch[k + 1] == (ns[m].c, m as usize));
                        }
                    } else {
                        assert(ns[p].children@[k] == (ns[m].c, m as usize));
                    }
                }
            }
            assert(wf_struct(ns));
            lemma_child_search_complete(nch, c, pos as int);
            assert(child_of(ns, i as int, c) == Some(j));

            // Caches and the frozen flag: everything is unfrozen with empty
            // caches, as before.
            assert forall|m: int| 0 <= m < ns.len() implies #[trigger] cache_ok(ns, m) by {
                assert(cache_ok(os, 0));
                if m < os.len() {
                    assert(cache_ok(os, m));
                    assert(!os[m].is_frozen);
                }
            }
            assert(frozen_uniform(ns));

            // Prefixes of preexisting nodes are unchanged; the leaf extends
            // its parent's prefix by c.
            assert forall|m: int| 0 <= m < os.len() implies prefix_of(ns, m) == prefix_of(
                os,
                m,
            ) by {
                lemma_prefix_stable(os, ns, os.len() as int, m);
            }
            assert(prefix_of(ns, j as int) == prefix_of(ns, i as int).push(c));

            // The path and word images gain exactly the leaf's prefix.
            let fresh = prefix_of(os, i as int).push(c);
            assert forall|p: Seq<char>| path_in(ns, p) <==> path_in(os, p) || p == fresh by {
                lemma_path_iff_prefix(ns, p);
                lemma_path_iff_prefix(os, p);
                if path_in(ns, p) {
                    let m = choose|m: int| 0 <= m < ns.len() && prefix_of(ns, m) == p;
                    if m < os.len() {
                        assert(prefix_of(os, m) == p);
                    } else {
                        assert(m == j);
                    }
                }
                if path_in(os, p) {
                    let m = choose|m: int| 0 <= m < os.len() && prefix_of(os, m) == p;
                    assert(prefix_of(ns, m) == p);
                }
                if p == fresh {
                    assert(prefix_of(ns, j as int) == p);
                }
            }
            assert forall|p: Seq<char>| word_in(ns, p) <==> word_in(os, p) || (word && p
                == fresh) by {
                lemma_path_iff_prefix(ns, p);
                lemma_path_iff_prefix(os, p);
                if word_in(ns, p) {
                    let m = choose|m: int|
                        0 <= m < ns.len() && prefix_of(ns, m) == p && ns[m].is_word;
                    if m < os.len() {
                        assert(prefix_of(os, m) == p && os[m].is_word);
                    } else {
                        assert(m == j);
                    }
                }
                if word_in(os, p) {
                    let m = choose|m: int|
                        0 <= m < os.len() && prefix_of(os, m) == p && os[m].is_word;
                    assert(prefix_of(ns, m) == p && ns[m].is_word);
                }
                if word && p == fresh {
                    assert(prefix_of(ns, j as int) == p && ns[j as int].is_word);
                }
            }

            // Walks that succeeded before still reach the same node.
            assert forall|p: Seq<char>| walk(os, 0, p) is Some implies walk(ns, 0, p) == walk(
                os,
                0,
                p,
            ) by {
                lemma_walk_prefix(os, 0, p);
                let m = walk(os, 0, p)->0;
                assert(prefix_of(os, 0) + p =~= p);
                assert(prefix_of(ns, m as int) == p);
                lemma_prefix_walks(ns, m);
            }
        }
        j
    }

    /// Marks node `j` as a word end.
    fn set_word_at(&mut self, j: usize)
        requires
            old(self).wf(),
            !old(self).spec_is_frozen(),
            0 < j < old(self)@.len(),
        ensures
            final(self).wf(),
            !final(self).spec_is_frozen(),
            final(self).spec_parent_links() == old(self).spec_parent_links(),
            final(self)@.len() == old(self)@.len(),
            forall|m: int|
                0 <= m < old(self)@.len() ==> prefix_of(final(self)@, m) == prefix_of(
                    old(self)@,
                    m,
                ),
            forall|p: Seq<char>| path_in(final(self)@, p) <==> path_in(old(self)@, p),
            forall|p: Seq<char>|
                word_in(final(self)@, p) <==> word_in(old(self)@, p) || p == prefix_of(old(self)@, j as int),
            forall|p: Seq<char>| walk(final(self)@, 0, p) == walk(old(self)@, 0, p),
            old(self)@[j as int].is_word ==> final(self)@ == old(self)@,
    {
        let ghost os = self@;
        self.nodes[j].is_word = true;
        proof {
            let ns = self@;
            assert(forall|m: int| 0 <= m < os.len() && m != j ==> ns[m] == os[m]);
            assert(ns[j as int].c == os[j as int].c);
            assert(ns[j as int].depth == os[j as int].depth);
            assert(ns[j as int].parent == os[j as int].parent);
            assert(ns[j as int].children == os[j as int].children);
            assert(ns[j as int].is_frozen == os[j as int].is_frozen);
            assert(ns[j as int].node_count == os[j as int].node_count);
            assert(ns[j as int].word_count == os[j as int].word_count);
            assert(ns[j as int].height == os[j as int].height);
            assert(ns[j as int].is_word);
            if os[j as int].is_word {
                assert(ns[j as int] == os[j as int]);
                assert(ns =~= os);
            }
            assert forall|m: int| 0 <= m < ns.len() implies #[trigger] child_entries_ok(
                ns,
                m,
            ) by {
                assert(child_entries_ok(os, m));
                assert forall|k: int| 0 <= k < ns[m].children@.len() implies {
                    let e = #[trigger] ns[m].children@[k];
                    &&& m < e.1 < ns.len()
                    &&& ns[e.1 as int].c == e.0
                    &&& ns[e.1 as int].parent == Some(m as usize)
                    &&& ns[e.1 as int].depth == ns[m].depth + 1
                } by {
                    assert(ns[m].children@[k] == os[m].children@[k]);
                }
            }
            assert forall|m: int| 0 <= m < ns.len() implies #[trigger] children_sorted(ns, m) by {
                assert(children_sorted(os, m));
                assert forall|k1: int, k2: int|
                    0 <= k1 < k2 < ns[m].children@.len() implies (#[trigger] ns[m].children@[k1]).0 < (#[trigger] ns[m].children@[k2]).0 by {
                    assert(ns[m].children@[k1] == os[m].children@[k1]);
                    assert(ns[m].children@[k2] == os[m].children@[k2]);
                }
            }
            assert forall|m: int| 0 <= m < ns.len() implies #[trigger] cache_ok(ns, m) by {
                assert(cache_ok(os, m));
                assert(!os[m].is_frozen);
            }
            assert forall|m: int| 1 <= m < ns.len() implies #[trigger] parent_link_ok(ns, m) by {
                assert(parent_link_ok(os, m));
                let p = os[m].parent->0 as int;
                let k = choose|k: int|
                    0 <= k < os[p].children@.len() && #[trigger] os[p].children@[k] == (
                    os[m].c,
                    m as usize,
                    );
                assert(ns[p].children@[k] == (ns[m].c, m as usize));
            }
            assert(wf_struct(ns));
            assert(frozen_uniform(ns));
            assert forall|m: int| 0 <= m < os.len() implies prefix_of(ns, m) == prefix_of(
                os,
                m,
            ) by {
                lemma_prefix_stable(os, ns, os.len() as int, m);
            }
            assert forall|p: Seq<char>| path_in(ns, p) <==> path_in(os, p) by {
                lemma_path_iff_prefix(ns, p);
                lemma_path_iff_prefix(os, p);
                if path_in(ns, p) {
                    let m = choose|m: int| 0 <= m < ns.len() && prefix_of(ns, m) == p;
                    assert(prefix_of(os, m) == p);
                }
                if path_in(os, p) {
                    let m = choose|m: int| 0 <= m < os.len() && prefix_of(os, m) == p;
                    assert(prefix_of(ns, m) == p);
                }
            }
            assert forall|p: Seq<char>| word_in(ns, p) <==> word_in(os, p) || p == prefix_of(os, j as int) by {
                lemma_path_iff_prefix(ns, p);
                lemma_path_iff_prefix(os, p);
                if word_in(ns, p) {
                    let m = choose|m: int|
                        0 <= m < ns.len() && prefix_of(ns, m) == p && ns[m].is_word;
                    if m != j {
                        assert(prefix_of(os, m) == p && os[m].is_word);
                    }
                }
                if word_in(os, p) {
                    let m = choose|m: int|
                        0 <= m < os.len() && prefix_of(os, m) == p && os[m].is_word;
                    assert(prefix_of(ns, m) == p && ns[m].is_word);
                }
                if p == prefix_of(os, j as int) {
                    assert(prefix_of(ns, j as int) == p && ns[j as int].is_word);
                }
            }
            assert forall|p: Seq<char>| walk(ns, 0, p) == walk(os, 0, p) by {
                if walk(os, 0, p) is Some {
                    lemma_walk_prefix(os, 0, p);
                    let m = walk(os, 0, p)->0;
                    assert(prefix_of(os, 0) + p =~= p);
                    assert(prefix_of(ns, m as int) == p);
                    lemma_prefix_walks(ns, m);
                }
                if walk(ns, 0, p) is Some {
                    lemma_walk_prefix(ns, 0, p);
                    let m = walk(ns, 0, p)->0;
                    assert(prefix_of(ns, 0) + p =~= p);
                    assert(prefix_of(os, m as int) == p);
                    lemma_prefix_walks(os, m);
                }
            }
        }
    }

    /// Inserts the word spelled by `v[char_index..]`, creating one node per
    /// missing character and marking the final node as a word end. Called
    /// once per word; inserting an empty suffix is a no-op, and inserting
    /// into a frozen trie is rejected.
    pub fn add_from_vec_chars(&mut self, v: &Vec<char>, v_len: usize, char_index: usize) -> (r:
        Result<(), TrieError>)
        requires
            old(self).wf(),
            v_len == v@.len(),
            old(self)@.len() + v@.len() <= usize::MAX,
        ensures
            final(self).wf(),
            final(self).spec_parent_links() == old(self).spec_parent_links(),
            final(self).spec_is_frozen() == old(self).spec_is_frozen(),
            ({
                let w = suffix_from(v@, char_index as int);
                &&& w.len() == 0 ==> r is Ok && final(self)@ == old(self)@
                &&& w.len() > 0 && old(self).spec_is_frozen() ==> r == Err::<
                    (),
                    TrieError,
                >(TrieError::FrozenTrieMutation) && final(self)@ == old(self)@
                &&& w.len() > 0 && !old(self).spec_is_frozen() ==> {
                    &&& r is Ok
                    &&& final(self)@.len() >= old(self)@.len()
                    &&& final(self)@.len() <= old(self)@.len() + w.len()
                    &&& grows_by_word(old(self)@, final(self)@, w)
                    &&& (word_in(old(self)@, w) ==> final(self)@ == old(self)@)
                }
            }),
    {
        if v_len == 0 || char_index >= v_len {
            proof {
                assert(suffix_from(v@, char_index as int).len() == 0);
            }
            return Ok(());
        }
        if self.is_frozen() {
            return Err(TrieError::FrozenTrieMutation);
        }
        let ghost os = self@;
        let ghost w = suffix_from(v@, char_index as int);
        let mut cur: usize = 0;
        let mut k: usize = char_index;
        proof {
            assert(w.len() == v_len - char_index);
            assert(prefix_of(self@, 0) =~= Seq::<char>::empty());
            assert(v@.subrange(char_index as int, char_index as int) =~= Seq::<char>::empty());
        }
        while k < v_len
            invariant
                self.wf(),
                !self.spec_is_frozen(),
                self.spec_parent_links() == old(self).spec_parent_links(),
                v_len == v@.len(),
                0 < v_len,
                char_index < v_len,
                char_index <= k <= v_len,
                cur < self@.len(),
                w == suffix_from(v@, char_index as int),
                os.len() + v@.len() <= usize::MAX,
                self@.len() <= os.len() + (k - char_index),
                self@.len() >= os.len(),
                prefix_of(self@, cur as int) == v@.subrange(char_index as int, k as int),
                walk(self@, 0, v@.subrange(char_index as int, k as int)) == Some(cur),
                forall|p: Seq<char>|
                    path_in(self@, p) <==> path_in(os, p) || (is_stem_of(p, w) && p.len() <= k
                        - char_index),
                forall|p: Seq<char>|
                    word_in(self@, p) <==> word_in(os, p) || (p == w && k == v_len),
                (walk(os, 0, v@.subrange(char_index as int, k as int)) is Some && (k == v_len
                    ==> word_in(os, w))) ==> self@ == os,
            decreases v_len - k,
        {
            let c = v[k];
            let last = k == v_len - 1;
            let ghost stem_now = v@.subrange(char_index as int, k as int);
            let ghost stem_next = v@.subrange(char_index as int, k as int + 1);
            proof {
                assert(stem_next =~= stem_now.push(c));
                assert(w.subrange(0, stem_next.len() as int) =~= stem_next);
                assert(is_stem_of(stem_next, w));
                if k + 1 == v_len {
                    assert(stem_next =~= w);
                }
            }
            let nxt_opt = self.child_index(cur, c);
            match nxt_opt {
                Some(nxt) => {
                    proof {
                        lemma_walk_step(self@, stem_now, cur, c, nxt);
                        assert(prefix_of(self@, nxt as int) == prefix_of(
                            self@,
                            cur as int,
                        ).push(c));
                        assert(prefix_of(self@, nxt as int) == stem_next);
                        assert(path_in(self@, stem_next));
                        // A stem that survives one step further in the
                        // pre-insert arena also survived up to here.
                        if walk(os, 0, stem_next) is Some {
                            lemma_path_take(os, stem_next, stem_now.len() as int);
                            assert(stem_next.take(stem_now.len() as int) =~= stem_now);
                        }
                    }
                    if last {
                        proof {
                            if walk(os, 0, stem_now) is Some && word_in(os, w) {
                                assert(self@ == os);
                                assert(walk(os, 0, w) == Some(nxt));
                                assert(self@[nxt as int].is_word);
                            }
                        }
                        self.set_word_at(nxt);
                        proof {
                            assert(walk(self@, 0, stem_next) == Some(nxt));
                            assert(prefix_of(self@, nxt as int) == stem_next);
                        }
                    }
                    cur = nxt;
                },
                None => {
                    proof {
                        assert(self@.len() < usize::MAX);
                        // The stem dies at this step in the pre-insert
                        // arena as well: had it survived there, everything
                        // walked so far would be unchanged, and the missing
                        // child would exist.
                        if walk(os, 0, stem_next) is Some {
                            lemma_path_take(os, stem_next, stem_now.len() as int);
                            assert(stem_next.take(stem_now.len() as int) =~= stem_now);
                            assert(self@ == os);
                            lemma_walk_app(os, 0, stem_now, seq![c]);
                            assert(stem_next =~= stem_now + seq![c]);
                            assert(false);
                        }
                    }
                    let nxt = self.append_child(cur, c, last);
                    proof {
                        assert(walk(self@, 0, stem_now) == Some(cur));
                        lemma_walk_step(self@, stem_now, cur, c, nxt);
                        assert(prefix_of(self@, nxt as int) == stem_next);
                    }
                    cur = nxt;
                },
            }
            k += 1;
            proof {
                assert(v@.subrange(char_index as int, k as int) == stem_next);
                assert forall|p: Seq<char>|
                    is_stem_of(p, w) && p.len() == k - char_index implies p == stem_next by {
                    assert(p == w.subrange(0, p.len() as int));
                }
            }
        }
        proof {
            assert(v@.subrange(char_index as int, v_len as int) =~= w);
            assert(grows_by_word(os, self@, w));
        }
        Ok(())
    }

    /// Inserts one word given as a string: trims it, lowercases it, and adds
    /// the resulting character sequence. Empty or whitespace-only input is a
    /// no-op; inserting into a frozen trie is rejected.
    pub fn insert(&mut self, word: &str) -> (r: Result<(), TrieError>)
        requires
            old(self).wf(),
            old(self)@.len() + lower_of(trim_of(word@)).len() <= usize::MAX,
        ensures
            final(self).wf(),
            final(self).spec_parent_links() == old(self).spec_parent_links(),
            final(self).spec_is_frozen() == old(self).spec_is_frozen(),
            ({
                let w = lower_of(trim_of(word@));
                &&& w.len() == 0 ==> r is Ok && final(self)@ == old(self)@
                &&& w.len() > 0 && old(self).spec_is_frozen() ==> r == Err::<
                    (),
                    TrieError,
                >(TrieError::FrozenTrieMutation) && final(self)@ == old(self)@
                &&& w.len() > 0 && !old(self).spec_is_frozen() ==> {
                    &&& r is Ok
                    &&& grows_by_word(old(self)@, final(self)@, w)
                    &&& (word_in(old(self)@, w) ==> final(self)@ == old(self)@)
                }
            }),
    {
        let trimmed = trim_str(word);
        let chars = lower_chars(trimmed);
        let n = chars.len();
        proof {
            assert(suffix_from(chars@, 0) =~= chars@);
        }
        let r = self.add_from_vec_chars(&chars, n, 0);
        proof {
            assert(suffix_from(chars@, 0) == lower_of(trim_of(word@)));
        }
        r
    }

    /// Inserts a word after checking at run time that the arena has room for
    /// it; returns `None`, leaving the trie unchanged, when it does not.
    pub fn try_insert(&mut self, word: &str) -> (r: Option<Result<(), TrieError>>)
        requires
            old(self).wf(),
        ensures
            final(self).wf(),
            final(self).spec_parent_links() == old(self).spec_parent_links(),
            final(self).spec_is_frozen() == old(self).spec_is_frozen(),
            r is None ==> old(self)@.len() + lower_of(trim_of(word@)).len() > usize::MAX
                && final(self)@ == old(self)@,
            r matches Some(inner) ==> ({
                let w = lower_of(trim_of(word@));
                &&& old(self)@.len() + w.len() <= usize::MAX
                &&& w.len() == 0 ==> inner is Ok && final(self)@ == old(self)@
                &&& w.len() > 0 && old(self).spec_is_frozen() ==> inner == Err::<
                    (),
                    TrieError,
                >(TrieError::FrozenTrieMutation) && final(self)@ == old(self)@
                &&& w.len() > 0 && !old(self).spec_is_frozen() ==> {
                    &&& inner is Ok
                    &&& grows_by_word(old(self)@, final(self)@, w)
                    &&& (word_in(old(self)@, w) ==> final(self)@ == old(self)@)
                }
            }),
    {
        let trimmed = trim_str(word);
        let chars = lower_chars(trimmed);
        let n = chars.len();
        if n > usize::MAX - self.nodes.len() {
            return None;
        }
        proof {
            assert(suffix_from(chars@, 0) =~= chars@);
        }
        let r = self.add_from_vec_chars(&chars, n, 0);
        proof {
            assert(suffix_from(chars@, 0) == lower_of(trim_of(word@)));
        }
        Some(r)
    }

    /// Reconstructs the string spelled by node `j` by walking parent links
    /// up to the root, prepending each character.
    fn prefix_chars(&self, j: usize) -> (r: Vec<char>)
        requires
            wf_struct(self@),
            j < self@.len(),
        ensures
            r@ == prefix_of(self@, j as int),
    {
        let mut out: Vec<char> = Vec::new();
        let mut cur = j;
        proof {
            assert(prefix_of(self@, j as int) + Seq::<char>::empty() =~= prefix_of(
                self@,
                j as int,
            ));
        }
        loop
            invariant
                wf_struct(self@),
                cur < self@.len(),
                j < self@.len(),
                prefix_of(self@, j as int) == prefix_of(self@, cur as int) + out@,
            decreases cur,
        {
            let parent_opt = self.nodes[cur].parent;
            match parent_opt {
                None => {
                    proof {
                        if cur != 0 {
                            assert(parent_link_ok(self@, cur as int));
                        }
                        assert(prefix_of(self@, 0) + out@ =~= out@);
                    }
                    return out;
                },
                Some(p) => {
                    proof {
                        assert(parent_link_ok(self@, cur as int));
                        assert(prefix_of(self@, cur as int) == prefix_of(self@, p as int).push(
                            self@[cur as int].c,
                        ));
                    }
                    let c = self.nodes[cur].c;
                    out.insert(0, c);
                    proof {
                        assert(prefix_of(self@, p as int).push(c) + out@.drop_first()
                            =~= prefix_of(self@, p as int) + out@);
                    }
                    cur = p;
                },
            }
        }
    }

    /// A concrete copy of node `j` with all owned data: character,
    /// reconstructed prefix, depth, word flag, immediate child count, and
    /// the three subtree aggregates (cached while frozen, live otherwise).
    fn to_fixed_node_at(&self, j: usize) -> (r: FixedNode)
        requires
            self.wf(),
            j < self@.len(),
        ensures
            r.c == self@[j as int].c,
            r.prefix@ == if self.spec_parent_links() {
                prefix_of(self@, j as int)
            } else {
                Seq::<char>::empty()
            },
            r.depth == self@[j as int].depth,
            r.is_word == self@[j as int].is_word,
            r.child_count == self@[j as int].children@.len(),
            r.node_count == sub_node_count(self@, j as int),
            r.word_count == sub_word_count(self@, j as int),
            r.height == sub_height(self@, j as int),
    {
        let prefix = if self.parent_links {
            crate::text::chars_to_string(&self.prefix_chars(j))
        } else {
            String::new()
        };
        let (nc, wc, h) = if self.nodes[j].is_frozen {
            proof {
                assert(cache_ok(self@, j as int));
            }
            (
                self.nodes[j].node_count.unwrap(),
                self.nodes[j].word_count.unwrap(),
                self.nodes[j].height.unwrap(),
            )
        } else {
            (self.node_count_at(j), self.word_count_at(j), self.height_at(j))
        };
        FixedNode {
            c: self.nodes[j].c,
            prefix,
            depth: self.nodes[j].depth,
            is_word: self.nodes[j].is_word,
            child_count: self.nodes[j].children.len(),
            node_count: nc,
            word_count: wc,
            height: h,
        }
    }

    /// A concrete copy of the root node, describing the whole trie.
    pub fn to_fixed_node(&self) -> (r: FixedNode)
        requires
            self.wf(),
        ensures
            r.c == ROOT_CHAR,
            r.prefix@ == Seq::<char>::empty(),
            r.depth == 0,
            !r.is_word,
            r.child_count == self@[0].children@.len(),
            r.node_count == sub_node_count(self@, 0),
            r.word_count == sub_word_count(self@, 0),
            r.height == sub_height(self@, 0),
    {
        proof {
            assert(prefix_of(self@, 0) =~= Seq::<char>::empty());
        }
        self.to_fixed_node_at(0)
    }

    /// Descends from node `i` along `v[k..]`; `None` when the suffix is
    /// empty or dies out.
    fn find_node(&self, i: usize, v: &Vec<char>, k: usize) -> (r: Option<usize>)
        requires
            wf_struct(self@),
            i < self@.len(),
        ensures
            k < v@.len() ==> r == walk(self@, i, v@.skip(k as int)),
            k >= v@.len() ==> r is None,
            r matches Some(j) ==> i < j < self@.len(),
        decreases v@.len() - k,
    {
        if k >= v.len() {
            return None;
        }
        let c = v[k];
        proof {
            assert(v@.skip(k as int)[0] == c);
        }
        match self.child_index(i, c) {
            None => None,
            Some(j) => {
                if k == v.len() - 1 {
                    proof {
                        assert(v@.skip(k as int).drop_first() =~= Seq::<char>::empty());
                        assert(walk(self@, j, Seq::<char>::empty()) == Some(j));
                    }
                    Some(j)
                } else {
                    proof {
                        assert(v@.skip(k as int).drop_first() =~= v@.skip(k as int + 1));
                    }
                    let r = self.find_node(j, v, k + 1);
                    r
                }
            },
        }
    }

    /// Given a word or a partial word, find the corresponding node in the
    /// trie if it exists: the lookup lowercases its input and walks children
    /// character by character; an empty prefix finds nothing.
    pub fn find(&self, prefix: &str) -> (r: Option<FixedNode>)
        requires
            self.wf(),
        ensures
            ({
                let lp = lower_of(prefix@);
                &&& (r is Some <==> lp.len() > 0 && path_in(self@, lp))
                &&& r matches Some(n) ==> (walk(self@, 0, lp) matches Some(j) && {
                    &&& n.c == self@[j as int].c
                    &&& n.prefix@ == if self.spec_parent_links() {
                        lp
                    } else {
                        Seq::<char>::empty()
                    }
                    &&& n.depth == lp.len()
                    &&& n.is_word == word_in(self@, lp)
                    &&& n.child_count == self@[j as int].children@.len()
                    &&& n.node_count == sub_node_count(self@, j as int)
                    &&& n.word_count == sub_word_count(self@, j as int)
                    &&& n.height == sub_height(self@, j as int)
                })
            }),
    {
        let chars = lower_chars(prefix);
        proof {
            assert(chars@.skip(0) =~= chars@);
        }
        match self.find_node(0, &chars, 0) {
            None => None,
            Some(j) => {
                proof {
                    lemma_walk_prefix(self@, 0, chars@);
                    assert(prefix_of(self@, 0) + chars@ =~= chars@);
                    lemma_depth_prefix_len(self@, j as int);
                }
                Some(self.to_fixed_node_at(j))
            },
        }
    }

    /// The same lookup as `find`, written as an explicit loop instead of
    /// recursion; the two agree on every input.
    pub fn find_loop(&self, prefix: &str) -> (r: Option<FixedNode>)
        requires
            self.wf(),
        ensures
            ({
                let lp = lower_of(prefix@);
                &&& (r is Some <==> lp.len() > 0 && path_in(self@, lp))
                &&& r matches Some(n) ==> (walk(self@, 0, lp) matches Some(j) && {
                    &&& n.c == self@[j as int].c
                    &&& n.prefix@ == if self.spec_parent_links() {
                        lp
                    } else {
                        Seq::<char>::empty()
                    }
                    &&& n.depth == lp.len()
                    &&& n.is_word == word_in(self@, lp)
                    &&& n.child_count == self@[j as int].children@.len()
                    &&& n.node_count == sub_node_count(self@, j as int)
                    &&& n.word_count == sub_word_count(self@, j as int)
                    &&& n.height == sub_height(self@, j as int)
                })
            }),
    {
        let chars = lower_chars(prefix);
        let n = chars.len();
        if n == 0 {
            return None;
        }
        let mut cur: usize = 0;
        let mut k: usize = 0;
        proof {
            assert(walk(self@, 0, chars@.take(0)) == Some(0usize)) by {
                assert(chars@.take(0) =~= Seq::<char>::empty());
            }
        }
        while k < n
            invariant
                self.wf(),
                chars@ == lower_of(prefix@),
                n == chars@.len(),
                0 < n,
                k <= n,
                cur < self@.len(),
                walk(self@, 0, chars@.take(k as int)) == Some(cur),
            decreases n - k,
        {
            let c = chars[k];
            match self.child_index(cur, c) {
                None => {
                    proof {
                        lemma_walk_app(self@, 0, chars@.take(k as int), chars@.skip(k as int));
                        assert(chars@.take(k as int) + chars@.skip(k as int) =~= chars@);
                        assert(chars@.skip(k as int)[0] == c);
                    }
                    return None;
                },
                Some(nxt) => {
                    proof {
                        lemma_walk_step(self@, chars@.take(k as int), cur, c, nxt);
                        assert(chars@.take(k as int).push(c) =~= chars@.take(k as int + 1));
                    }
                    cur = nxt;
                },
            }
            k += 1;
        }
        proof {
            assert(chars@.take(n as int) =~= chars@);
            lemma_walk_prefix(self@, 0, chars@);
            assert(prefix_of(self@, 0) + chars@ =~= chars@);
            lemma_depth_prefix_len(self@, cur as int);
        }
        Some(self.to_fixed_node_at(cur))
    }

    /// Whether the trie contains `prefix` as a complete word, by the same
    /// recursive descent as `find`. A path that exists but is not a word end
    /// answers false, never an error.
    pub fn is_word_recursive(&self, prefix: &str) -> (r: bool)
        requires
            self.wf(),
        ensures
            r == word_in(self@, lower_of(prefix@)),
    {
        let chars = lower_chars(prefix);
        proof {
            assert(chars@.skip(0) =~= chars@);
        }
        match self.find_node(0, &chars, 0) {
            None => false,
            Some(j) => self.nodes[j].is_word,
        }
    }

    /// Whether the trie contains `prefix` as a complete word. A prefix that
    /// exists as a path but is not itself a word answers false, never an
    /// error.
    pub fn is_word(&self, prefix: &str) -> (r: bool)
        requires
            self.wf(),
        ensures
            r == word_in(self@, lower_of(prefix@)),
    {
        self.is_word_loop(prefix)
    }

    /// Whether the trie contains `prefix` as a complete word, written as an
    /// explicit loop; agrees with `is_word_recursive` on every input.
    pub fn is_word_loop(&self, prefix: &str) -> (r: bool)
        requires
            self.wf(),
        ensures
            r == word_in(self@, lower_of(prefix@)),
    {
        let chars = lower_chars(prefix);
        let n = chars.len();
        if n == 0 {
            return false;
        }
        let mut cur: usize = 0;
        let mut k: usize = 0;
        proof {
            assert(walk(self@, 0, chars@.take(0)) == Some(0usize)) by {
                assert(chars@.take(0) =~= Seq::<char>::empty());
            }
        }
        while k < n
            invariant
                self.wf(),
                chars@ == lower_of(prefix@),
                n == chars@.len(),
                0 < n,
                k <= n,
                cur < self@.len(),
                walk(self@, 0, chars@.take(k as int)) == Some(cur),
            decreases n - k,
        {
            let c = chars[k];
            match self.child_index(cur, c) {
                None => {
                    proof {
                        lemma_walk_app(self@, 0, chars@.take(k as int), chars@.skip(k as int));
                        assert(chars@.take(k as int) + chars@.skip(k as int) =~= chars@);
                        assert(chars@.skip(k as int)[0] == c);
                    }
                    return false;
                },
                Some(nxt) => {
                    proof {
                        lemma_walk_step(self@, chars@.take(k as int), cur, c, nxt);
                        assert(chars@.take(k as int).push(c) =~= chars@.take(k as int + 1));
                    }
                    cur = nxt;
                },
            }
            k += 1;
        }
        proof {
            assert(chars@.take(n as int) =~= chars@);
        }
        self.nodes[cur].is_word
    }

    /// Links one entry into the root's sorted children list; the entry's
    /// character must be new.
    fn insert_root_child(&mut self, c: char, target: usize)
        requires
            old(self)@.len() >= 1,
            forall|k1: int, k2: int|
                0 <= k1 < k2 < old(self)@[0].children@.len() ==> (#[trigger] old(self)@[0].children@[k1]).0 < (#[trigger] old(self)@[0].children@[k2]).0,
            forall|k: int|
                0 <= k < old(self)@[0].children@.len() ==> (#[trigger] old(self)@[0].children@[k]).0 != c,
        ensures
            final(self)@.len() == old(self)@.len(),
            final(self).spec_parent_links() == old(self).spec_parent_links(),
            forall|m: int| 1 <= m < old(self)@.len() ==> final(self)@[m] == old(self)@[m],
            final(self)@[0].c == old(self)@[0].c,
            final(self)@[0].depth == old(self)@[0].depth,
            final(self)@[0].parent == old(self)@[0].parent,
            final(self)@[0].is_word == old(self)@[0].is_word,
            final(self)@[0].is_frozen == old(self)@[0].is_frozen,
            final(self)@[0].node_count == old(self)@[0].node_count,
            final(self)@[0].word_count == old(self)@[0].word_count,
            final(self)@[0].height == old(self)@[0].height,
            forall|k1: int, k2: int|
                0 <= k1 < k2 < final(self)@[0].children@.len() ==> (#[trigger] final(self)@[0].children@[k1]).0 < (#[trigger] final(self)@[0].children@[k2]).0,
            forall|e: (char, usize)|
                final(self)@[0].children@.contains(e) <==> old(self)@[0].children@.contains(e)
                    || e == (c, target),
    {
        let ghost os = self@;
        let ghost och = os[0].children@;
        let n = self.nodes[0].children.len();
        let mut pos: usize = 0;
        while pos < n && self.nodes[0].children[pos].0 < c
            invariant
                self@ == os,
                self@.len() >= 1,
                n == och.len(),
                och == self@[0].children@,
                pos <= n,
                forall|k1: int, k2: int|
                    0 <= k1 < k2 < och.len() ==> (#[trigger] och[k1]).0 < (#[trigger] och[k2]).0,
                forall|k: int| 0 <= k < och.len() ==> (#[trigger] och[k]).0 != c,
                forall|k: int| 0 <= k < pos ==> (#[trigger] och[k]).0 < c,
            decreases n - pos,
        {
            pos += 1;
        }
        proof {
            assert forall|k: int| pos <= k < n implies (#[trigger] och[k]).0 > c by {
                if k > pos {
                    assert(och[pos as int].0 < och[k].0);
                }
            }
        }
        self.nodes[0].children.insert(pos, (c, target));
        proof {
            let ns = self@;
            let nch = ns[0].children@;
            assert(nch == och.insert(pos as int, (c, target)));
            assert(forall|k: int| 0 <= k < pos ==> #[trigger] nch[k] == och[k]);
            assert(forall|k: int| pos < k < nch.len() ==> #[trigger] nch[k] == och[k - 1]);
            assert(nch[pos as int] == (c, target));
            assert forall|k1: int, k2: int| 0 <= k1 < k2 < nch.len() implies (
            #[trigger] nch[k1]).0 < (#[trigger] nch[k2]).0 by {
                if k1 < pos && k2 < pos {
                    assert(nch[k1] == och[k1] && nch[k2] == och[k2]);
                } else if k1 < pos && k2 == pos {
                    assert(nch[k1] == och[k1]);
                } else if k1 < pos && k2 > pos {
                    assert(nch[k1] == och[k1] && nch[k2] == och[k2 - 1]);
                } else if k1 == pos && k2 > pos {
                    assert(nch[k2] == och[k2 - 1]);
                } else {
                    assert(nch[k1] == och[k1 - 1] && nch[k2] == och[k2 - 1]);
                }
            }
            assert forall|e: (char, usize)| nch.contains(e) implies och.contains(e) || e == (
                c,
                target,
            ) by {
                let k = choose|k: int| 0 <= k < nch.len() && nch[k] == e;
                if k < pos {
                    assert(och[k] == e);
                } else if k > pos {
                    assert(och[k - 1] == e);
                }
            }
            assert forall|e: (char, usize)| och.contains(e) || e == (c, target) implies
                nch.contains(e) by {
                if och.contains(e) {
                    let k = choose|k: int| 0 <= k < och.len() && och[k] == e;
                    if k < pos {
                        assert(nch[k] == e);
                    } else {
                        assert(nch[k + 1] == e);
                    }
                } else {
                    assert(nch[pos as int] == e);
                }
            }
        }
    }

    /// Re-parents every first-level child of `other`'s root into this
    /// trie's root, bringing `other`'s nodes along. The two tries' first
    /// letters must be disjoint: a collision means the partitions fed to a
    /// parallel build were not disjoint, so the merge is rejected and the
    /// trie left unchanged.
    pub fn merge(&mut self, other: BaseLetterTrie) -> (r: Result<(), TrieError>)
        requires
            old(self).wf(),
            other.wf(),
            !old(self).spec_is_frozen(),
            !other.spec_is_frozen(),
            old(self)@.len() + other@.len() <= usize::MAX + 1,
        ensures
            final(self).wf(),
            !final(self).spec_is_frozen(),
            final(self).spec_parent_links() == old(self).spec_parent_links(),
            r is Ok <==> !roots_collide(old(self)@, other@),
            r is Ok ==> final(self)@.len() == old(self)@.len() + other@.len() - 1,
            r is Err ==> r == Err::<(), TrieError>(TrieError::MalformedPartition) && final(self)@ == old(self)@,
            r is Ok ==> merges_sets(old(self)@, other@, final(self)@),
    {
        let ghost os = self@;
        let ghost ob = other@;
        let delta = self.nodes.len();
        let ghost d = delta as int;
        let olen = other.nodes.len();

        // Reject a first-letter collision before touching anything.
        let orc_len = other.nodes[0].children.len();
        let mut k: usize = 0;
        while k < orc_len
            invariant
                self@ == os,
                os == old(self)@,
                !os[0].is_frozen,
                self.spec_parent_links() == old(self).spec_parent_links(),
                self.wf(),
                other.wf(),
                other@ == ob,
                orc_len == ob[0].children@.len(),
                k <= orc_len,
                forall|k2: int|
                    0 <= k2 < k ==> child_of(os, 0, (#[trigger] ob[0].children@[k2]).0) is None,
            decreases orc_len - k,
        {
            let (c, _jj) = other.nodes[0].children[k];
            if self.child_index(0, c).is_some() {
                proof {
                    assert(children_sorted(ob, 0));
                    lemma_child_search_complete(ob[0].children@, c, k as int);
                    assert(child_of(ob, 0, c) is Some);
                    assert(roots_collide(os, ob));
                }
                return Err(TrieError::MalformedPartition);
            }
            k += 1;
        }
        proof {
            assert(!roots_collide(os, ob)) by {
                if roots_collide(os, ob) {
                    let c = choose|c: char|
                        child_of(os, 0, c) is Some && #[trigger] child_of(ob, 0, c) is Some;
                    lemma_child_search_sound(ob[0].children@, c);
                    let kk = choose|kk: int|
                        0 <= kk < ob[0].children@.len() && ob[0].children@[kk] == (
                        c,
                        child_of(ob, 0, c)->0,
                        );
                    assert(child_of(os, 0, ob[0].children@[kk].0) is None);
                }
            }
        }

        // Carry the sub-trie's nodes over, re-basing their links.
        let mut j: usize = 1;
        while j < olen
            invariant
                other.wf(),
                other@ == ob,
                !ob[0].is_frozen,
                olen == ob.len(),
                1 <= j <= olen,
                d == delta,
                os.len() == delta,
                1 <= delta,
                os.len() + ob.len() <= usize::MAX + 1,
                self@.len() == d + j - 1,
                self.spec_parent_links() == old(self).spec_parent_links(),
                forall|m: int| 0 <= m < d ==> #[trigger] self@[m] == os[m],
                forall|m: int|
                    d <= m < self@.len() ==> is_tr_node(d, ob[m - d + 1], #[trigger] self@[m]),
            decreases olen - j,
        {
            proof {
                assert(child_entries_ok(ob, j as int));
                assert(parent_link_ok(ob, j as int));
            }
            let och_len = other.nodes[j].children.len();
            let mut ch: Vec<(char, usize)> = Vec::new();
            let mut k2: usize = 0;
            while k2 < och_len
                invariant
                    other.wf(),
                    other@ == ob,
                    1 <= j < ob.len(),
                    och_len == ob[j as int].children@.len(),
                    k2 <= och_len,
                    d == delta,
                    os.len() == delta,
                    os.len() + ob.len() <= usize::MAX + 1,
                    1 <= delta,
                    ch@ == tr_children(d, ob[j as int].children@.take(k2 as int)),
                decreases och_len - k2,
            {
                let (cc, jj) = other.nodes[j].children[k2];
                proof {
                    assert(child_entries_ok(ob, j as int));
                    assert(ob[j as int].children@[k2 as int].1 == jj);
                    assert(j < jj < ob.len());
                }
                ch.push((cc, delta + (jj - 1)));
                proof {
                    assert(ch@ =~= tr_children(d, ob[j as int].children@.take(k2 as int + 1)));
                }
                k2 += 1;
            }
            proof {
                assert(ob[j as int].children@.take(och_len as int) =~= ob[j as int].children@);
            }
            let par = match other.nodes[j].parent {
                None => None,
                Some(p) => {
                    if p == 0 {
                        Some(0usize)
                    } else {
                        proof {
                            assert(parent_link_ok(ob, j as int));
                            assert(p < j);
                        }
                        Some(delta + (p - 1))
                    }
                },
            };
            let node = Node {
                c: other.nodes[j].c,
                depth: other.nodes[j].depth,
                parent: par,
                children: ch,
                is_word: other.nodes[j].is_word,
                is_frozen: false,
                node_count: None,
                word_count: None,
                height: None,
            };
            proof {
                assert(cache_ok(ob, j as int));
                assert(!ob[j as int].is_frozen);
            }
            self.nodes.push(node);
            proof {
                assert(is_tr_node(d, ob[j as int], self@[self@.len() - 1]));
            }
            j += 1;
        }

        // Link the sub-trie's first-level children into the root.
        let ghost mid = self@;
        proof {
            assert(mid[0] == os[0]);
            assert(children_sorted(os, 0));
            assert forall|k1: int, k2a: int|
                0 <= k1 < k2a < self@[0].children@.len() implies (#[trigger] self@[0].children@[k1]).0 < (#[trigger] self@[0].children@[k2a]).0 by {
                assert(self@[0].children@[k1] == os[0].children@[k1]);
                assert(self@[0].children@[k2a] == os[0].children@[k2a]);
            }
        }
        let mut k3: usize = 0;
        while k3 < orc_len
            invariant
                other.wf(),
                other@ == ob,
                orc_len == ob[0].children@.len(),
                k3 <= orc_len,
                d == delta,
                os.len() == delta,
                1 <= delta,
                os.len() + ob.len() <= usize::MAX + 1,
                self@.len() == mid.len(),
                mid.len() == d + ob.len() - 1,
                self.spec_parent_links() == old(self).spec_parent_links(),
                forall|m: int| 1 <= m < self@.len() ==> #[trigger] self@[m] == mid[m],
                forall|m: int| 0 <= m < d ==> #[trigger] mid[m] == os[m],
                forall|m: int|
                    d <= m < mid.len() ==> is_tr_node(d, ob[m - d + 1], #[trigger] mid[m]),
                self@[0].c == os[0].c,
                self@[0].depth == os[0].depth,
                self@[0].parent == os[0].parent,
                self@[0].is_word == os[0].is_word,
                self@[0].is_frozen == os[0].is_frozen,
                self@[0].node_count == os[0].node_count,
                self@[0].word_count == os[0].word_count,
                self@[0].height == os[0].height,
                forall|k1: int, k2a: int|
                    0 <= k1 < k2a < self@[0].children@.len() ==> (#[trigger] self@[0].children@[
                        k1
                    ]).0 < (#[trigger] self@[0].children@[k2a]).0,
                forall|e: (char, usize)|
                    #[trigger] self@[0].children@.contains(e) ==> os[0].children@.contains(e)
                        || exists|k2b: int|
                        0 <= k2b < k3 && e == #[trigger] merged_entry(d, ob, k2b),
                forall|e: (char, usize)|
                    #[trigger] os[0].children@.contains(e) ==> self@[0].children@.contains(e),
                forall|k2b: int|
                    0 <= k2b < k3 ==> self@[0].children@.contains(
                        #[trigger] merged_entry(d, ob, k2b),
                    ),
                forall|k2c: int|
                    0 <= k2c < orc_len ==> child_of(os, 0, (#[trigger] ob[0].children@[k2c]).0)
                        is None,
            decreases orc_len - k3,
        {
            let (c, jj) = other.nodes[0].children[k3];
            proof {
                assert(child_entries_ok(ob, 0));
                assert(ob[0].children@[k3 as int].1 == jj);
                assert(0 < jj < ob.len());
                // The incoming character is new to the root's list.
                assert(child_of(os, 0, ob[0].children@[k3 as int].0) is None);
                lemma_child_search_none(os[0].children@, c);
                assert forall|k: int| 0 <= k < self@[0].children@.len() implies (
                #[trigger] self@[0].children@[k]).0 != c by {
                    let e = self@[0].children@[k];
                    assert(self@[0].children@.contains(e));
                    if os[0].children@.contains(e) {
                        let kk = choose|kk: int|
                            0 <= kk < os[0].children@.len() && os[0].children@[kk] == e;
                        assert(os[0].children@[kk].0 != c);
                    } else {
                        let k2b = choose|k2b: int|
                            0 <= k2b < k3 && e == #[trigger] merged_entry(d, ob, k2b);
                        assert(children_sorted(ob, 0));
                        assert(ob[0].children@[k2b].0 < ob[0].children@[k3 as int].0);
                        assert(e.0 == ob[0].children@[k2b].0);
                    }
                }
            }
            let ghost target = (d + ob[0].children@[k3 as int].1 - 1) as usize;
            let ghost cur = self@;
            proof {
                assert(target == delta + (jj - 1));
            }
            self.insert_root_child(c, delta + (jj - 1));
            proof {
                assert(merged_entry(d, ob, k3 as int) == (c, target));
                assert forall|e: (char, usize)|
                    self@[0].children@.contains(e) implies os[0].children@.contains(e) || exists|
                        k2b: int,
                    |
                        0 <= k2b < k3 + 1 && e == #[trigger] merged_entry(d, ob, k2b) by {
                    if e == (c, target) {
                        assert(0 <= k3 < k3 + 1 && e == merged_entry(d, ob, k3 as int));
                    } else {
                        assert(cur[0].children@.contains(e));
                        if !os[0].children@.contains(e) {
                            let k2b = choose|k2b: int|
                                0 <= k2b < k3 && e == #[trigger] merged_entry(d, ob, k2b);
                            assert(0 <= k2b < k3 + 1 && e == merged_entry(d, ob, k2b));
                        }
                    }
                }
                assert forall|e: (char, usize)|
                    os[0].children@.contains(e) || exists|k2b: int|
                        0 <= k2b < k3 + 1 && e == #[trigger] merged_entry(d, ob, k2b) implies self@[
                    0].children@.contains(e) by {
                    if os[0].children@.contains(e) {
                        assert(cur[0].children@.contains(e));
                    } else {
                        let k2b = choose|k2b: int|
                            0 <= k2b < k3 + 1 && e == #[trigger] merged_entry(d, ob, k2b);
                        if k2b == k3 {
                            assert(e == (c, target));
                        } else {
                            assert(exists|k2c: int|
                                0 <= k2c < k3 && e == #[trigger] merged_entry(d, ob, k2c));
                            assert(cur[0].children@.contains(e));
                        }
                    }
                }
            }
            k3 += 1;
        }

        proof {
            lemma_merge_shape(os, ob, self@, d);
        }
        Ok(())
    }

    /// Collects the words of the subtree rooted at `i` in depth-first order
    /// into `v`, stopping once `v` holds `cap` entries.
    fn get_words_at(&self, i: usize, v: &mut Vec<String>, cap: usize)
        requires
            self.wf(),
            i < self@.len(),
        ensures
            ({
                let ws = words_under(self@, i as int);
                let added = vstd::math::min(
                    ws.len() as int,
                    vstd::math::max(0, cap - old(v)@.len()),
                );
                &&& final(v)@.len() == old(v)@.len() + added
                &&& forall|m: int| 0 <= m < old(v)@.len() ==> final(v)@[m] == old(v)@[m]
                &&& forall|m: int|
                    0 <= m < added ==> (#[trigger] final(v)@[old(v)@.len() + m])@ == ws[m]
            }),
        decreases self@.len() - i,
    {
        let ghost ws = words_under(self@, i as int);
        let ghost base = v@.len() as int;
        if v.len() >= cap {
            return ;
        }
        if self.nodes[i].is_word {
            let word = crate::text::chars_to_string(&self.prefix_chars(i));
            v.push(word);
        }
        let n = self.nodes[i].children.len();
        let mut k: usize = 0;
        proof {
            assert(ws =~= ws.take(ws.len() - words_under_from(self@, i as int, 0).len())
                + words_under_from(self@, i as int, 0));
            if self@[i as int].is_word {
                assert(ws[0] == prefix_of(self@, i as int));
            }
        }
        while k < n
            invariant
                self.wf(),
                i < self@.len(),
                n == self@[i as int].children@.len(),
                k <= n,
                ws == words_under(self@, i as int),
                base == old(v)@.len(),
                base < cap,
                words_under_from(self@, i as int, k as int).len() <= ws.len(),
                ws =~= ws.take(ws.len() - words_under_from(self@, i as int, k as int).len())
                    + words_under_from(self@, i as int, k as int),
                v@.len() == base + vstd::math::min(
                    ws.len() - words_under_from(self@, i as int, k as int).len(),
                    cap - base,
                ),
                forall|m: int| 0 <= m < base ==> #[trigger] v@[m] == old(v)@[m],
                forall|m: int| base <= m < v@.len() ==> (#[trigger] v@[m])@ == ws[m - base],
            decreases n - k,
        {
            let (_c, child) = self.nodes[i].children[k];
            proof {
                assert(child_entries_ok(self@, i as int));
                assert(self@[i as int].children@[k as int].1 == child);
            }
            let ghost before = v@.len() as int;
            self.get_words_at(child, v, cap);
            proof {
                let wc = words_under(self@, child as int);
                let rest = words_under_from(self@, i as int, k as int + 1);
                assert(words_under_from(self@, i as int, k as int) == wc + rest);
                let hl_old = ws.len() - (wc + rest).len();
                let hl_new = ws.len() - rest.len();
                assert(ws =~= ws.take(hl_new) + rest) by {
                    assert(ws.take(hl_new) =~= ws.take(hl_old) + wc);
                }
                assert(hl_new - hl_old == wc.len());
                assert forall|m: int| hl_old <= m < hl_new implies ws[m] == wc[m - hl_old] by {
                    assert(ws[m] == (ws.take(hl_old) + wc + rest)[m]);
                }
                assert forall|m2: int| base <= m2 < v@.len() implies (#[trigger] v@[m2])@ == ws[
                    m2 - base
                ] by {
                    if m2 < before {
                    } else {
                        assert(v@[before + (m2 - before)]@ == wc[m2 - before]);
                        assert(ws[hl_old + (m2 - before)] == wc[m2 - before]);
                    }
                }
            }
            k += 1;
        }
        proof {
            assert(words_under_from(self@, i as int, n as int).len() == 0);
            assert(ws.take(ws.len() as int) =~= ws);
        }
    }

    /// The first words of the trie in depth-first traversal order, at most
    /// `word_count` of them.
    pub fn get_words(&self, word_count: usize) -> (r: Vec<String>)
        requires
            self.wf(),
        ensures
            ({
                let ws = words_under(self@, 0);
                &&& r@.len() == vstd::math::min(ws.len() as int, word_count as int)
                &&& forall|m: int| 0 <= m < r@.len() ==> (#[trigger] r@[m])@ == ws[m]
            }),
    {
        let mut v: Vec<String> = Vec::new();
        self.get_words_at(0, &mut v, word_count);
        proof {
            assert forall|m: int| 0 <= m < v@.len() implies (#[trigger] v@[m])@ == words_under(
                self@,
                0,
            )[m] by {
                assert(v@[0 + m]@ == words_under(self@, 0)[m]);
            }
        }
        v
    }

    /// Live recursive count of the nodes in the subtree rooted at `i`.
    fn node_count_at(&self, i: usize) -> (r: usize)
        requires
            wf_struct(self@),
            i < self@.len(),
        ensures
            r == sub_node_count(self@, i as int),
        decreases self@.len() - i,
    {
        proof {
            lemma_sub_node_count_bound(self@, i as int);
        }
        let n = self.nodes[i].children.len();
        let mut total: usize = 1;
        let mut k: usize = 0;
        while k < n
            invariant
                wf_struct(self@),
                i < self@.len(),
                n == self@[i as int].children@.len(),
                k <= n,
                sub_node_count(self@, i as int) <= self@.len(),
                total + sub_node_count_from(self@, i as int, k as int) == sub_node_count(
                    self@,
                    i as int,
                ),
            decreases n - k,
        {
            let (_cc, child) = self.nodes[i].children[k];
            proof {
                assert(child_entries_ok(self@, i as int));
                assert(self@[i as int].children@[k as int].1 == child);
            }
            let cnt = self.node_count_at(child);
            total = total + cnt;
            k += 1;
        }
        total
    }

    /// Live recursive count of the word ends in the subtree rooted at `i`.
    fn word_count_at(&self, i: usize) -> (r: usize)
        requires
            wf_struct(self@),
            i < self@.len(),
        ensures
            r == sub_word_count(self@, i as int),
        decreases self@.len() - i,
    {
        proof {
            lemma_sub_node_count_bound(self@, i as int);
            lemma_sub_word_le_node(self@, i as int);
        }
        let n = self.nodes[i].children.len();
        let mut total: usize = if self.nodes[i].is_word {
            1
        } else {
            0
        };
        let mut k: usize = 0;
        while k < n
            invariant
                wf_struct(self@),
                i < self@.len(),
                n == self@[i as int].children@.len(),
                k <= n,
                sub_word_count(self@, i as int) <= self@.len(),
                total + sub_word_count_from(self@, i as int, k as int) == sub_word_count(
                    self@,
                    i as int,
                ),
            decreases n - k,
        {
            let (_cc, child) = self.nodes[i].children[k];
            proof {
                assert(child_entries_ok(self@, i as int));
                assert(self@[i as int].children@[k as int].1 == child);
            }
            let cnt = self.word_count_at(child);
            total = total + cnt;
            k += 1;
        }
        total
    }

    /// Live recursive height of the subtree rooted at `i`.
    fn height_at(&self, i: usize) -> (r: usize)
        requires
            wf_struct(self@),
            i < self@.len(),
        ensures
            r == sub_height(self@, i as int),
        decreases self@.len() - i,
    {
        proof {
            lemma_sub_node_count_bound(self@, i as int);
            lemma_sub_height_le_node(self@, i as int);
        }
        let n = self.nodes[i].children.len();
        let mut tallest: usize = 0;
        let mut k: usize = 0;
        while k < n
            invariant
                wf_struct(self@),
                i < self@.len(),
                n == self@[i as int].children@.len(),
                k <= n,
                sub_height(self@, i as int) <= self@.len(),
                tallest <= sub_height_from(self@, i as int, 0),
                vstd::math::max(
                    tallest as int,
                    sub_height_from(self@, i as int, k as int) as int,
                ) == sub_height_from(self@, i as int, 0),
            decreases n - k,
        {
            let (_cc, child) = self.nodes[i].children[k];
            proof {
                assert(child_entries_ok(self@, i as int));
                assert(self@[i as int].children@[k as int].1 == child);
                lemma_sub_height_le_node(self@, child as int);
                lemma_sub_node_count_bound(self@, child as int);
            }
            let h = self.height_at(child);
            if h > tallest {
                tallest = h;
            }
            k += 1;
        }
        tallest + 1
    }

    /// Number of nodes in the trie, the root included: cached while frozen,
    /// computed live otherwise. Always equal to the arena length, because
    /// every node is reachable from the root exactly once.
    pub fn node_count(&self) -> (r: usize)
        requires
            self.wf(),
        ensures
            r == sub_node_count(self@, 0),
            r == self@.len(),
    {
        proof {
            lemma_node_count_total(self@);
        }
        if self.nodes[0].is_frozen {
            proof {
                assert(cache_ok(self@, 0));
            }
            self.nodes[0].node_count.unwrap()
        } else {
            self.node_count_at(0)
        }
    }

    /// Number of words in the trie: cached while frozen, computed live
    /// otherwise.
    pub fn word_count(&self) -> (r: usize)
        requires
            self.wf(),
        ensures
            r == sub_word_count(self@, 0),
    {
        if self.nodes[0].is_frozen {
            proof {
                assert(cache_ok(self@, 0));
            }
            self.nodes[0].word_count.unwrap()
        } else {
            self.word_count_at(0)
        }
    }

    /// Height of the trie, the root level included: cached while frozen,
    /// computed live otherwise. An empty trie has height 1.
    pub fn height(&self) -> (r: usize)
        requires
            self.wf(),
        ensures
            r == sub_height(self@, 0),
    {
        if self.nodes[0].is_frozen {
            proof {
                assert(cache_ok(self@, 0));
            }
            self.nodes[0].height.unwrap()
        } else {
            self.height_at(0)
        }
    }

    /// Freezes the whole trie: one pass that caches `node_count`,
    /// `word_count` and `height` at every node, children before parents, and
    /// marks everything frozen. A frozen trie is read-only until
    /// `unfreeze`.
    pub fn freeze(&mut self)
        requires
            old(self).wf(),
        ensures
            final(self).wf(),
            final(self).spec_is_frozen(),
            final(self).spec_parent_links() == old(self).spec_parent_links(),
            same_shape(old(self)@, final(self)@),
            forall|p: Seq<char>| path_in(final(self)@, p) == path_in(old(self)@, p),
            forall|p: Seq<char>| word_in(final(self)@, p) == word_in(old(self)@, p),
            sub_node_count(final(self)@, 0) == sub_node_count(old(self)@, 0),
            sub_word_count(final(self)@, 0) == sub_word_count(old(self)@, 0),
            sub_height(final(self)@, 0) == sub_height(old(self)@, 0),
            old(self).spec_is_frozen() ==> final(self)@ == old(self)@,
    {
        let ghost os = self@;
        proof {
            lemma_freeze_frame(os, os);
        }
        if self.nodes[0].is_frozen {
            return ;
        }
        let n = self.nodes.len();
        let mut j = n;
        while j > 0
            invariant
                wf_struct(self@),
                caches_ok(self@),
                same_shape(os, self@),
                wf_struct(os),
                self.spec_parent_links() == old(self).spec_parent_links(),
                n == self@.len(),
                j <= n,
                forall|m: int| j <= m < n ==> (#[trigger] self@[m]).is_frozen,
                forall|m: int| 0 <= m < j ==> #[trigger] self@[m] == os[m],
                !os[0].is_frozen,
            decreases j,
        {
            j -= 1;
            let ghost pre = self@;
            proof {
                lemma_sub_node_count_bound(pre, j as int);
                lemma_sub_word_le_node(pre, j as int);
                lemma_sub_height_le_node(pre, j as int);
            }
            let cn = self.nodes[j].children.len();
            let mut nodes_total: usize = 1;
            let mut words_total: usize = if self.nodes[j].is_word {
                1
            } else {
                0
            };
            let mut tallest: usize = 0;
            let mut k: usize = 0;
            while k < cn
                invariant
                    wf_struct(self@),
                    caches_ok(self@),
                    self@ == pre,
                    j < self@.len(),
                    cn == self@[j as int].children@.len(),
                    k <= cn,
                    forall|m: int| j < m < self@.len() ==> (#[trigger] self@[m]).is_frozen,
                    sub_node_count(self@, j as int) <= self@.len(),
                    sub_word_count(self@, j as int) <= self@.len(),
                    sub_height(self@, j as int) <= self@.len(),
                    nodes_total + sub_node_count_from(self@, j as int, k as int)
                        == sub_node_count(self@, j as int),
                    words_total + sub_word_count_from(self@, j as int, k as int)
                        == sub_word_count(self@, j as int),
                    tallest <= sub_height_from(self@, j as int, 0),
                    vstd::math::max(
                        tallest as int,
                        sub_height_from(self@, j as int, k as int) as int,
                    ) == sub_height_from(self@, j as int, 0),
                decreases cn - k,
            {
                let (_cc, child) = self.nodes[j].children[k];
                proof {
                    assert(child_entries_ok(self@, j as int));
                    assert(self@[j as int].children@[k as int].1 == child);
                    assert(cache_ok(self@, child as int));
                }
                let nc = self.nodes[child].node_count.unwrap();
                let wc = self.nodes[child].word_count.unwrap();
                let hc = self.nodes[child].height.unwrap();
                nodes_total = nodes_total + nc;
                words_total = words_total + wc;
                if hc > tallest {
                    tallest = hc;
                }
                k += 1;
            }
            proof {
                lemma_sub_height_le_node(pre, j as int);
            }
            self.nodes[j].node_count = Some(nodes_total);
            self.nodes[j].word_count = Some(words_total);
            self.nodes[j].height = Some(tallest + 1);
            self.nodes[j].is_frozen = true;
            proof {
                let ns = self@;
                assert(forall|m: int| 0 <= m < ns.len() && m != j ==> ns[m] == pre[m]);
                assert(ns[j as int].c == pre[j as int].c);
                assert(ns[j as int].depth == pre[j as int].depth);
                assert(ns[j as int].parent == pre[j as int].parent);
                assert(ns[j as int].children == pre[j as int].children);
                assert(ns[j as int].is_word == pre[j as int].is_word);
                assert(same_shape(pre, ns));
                lemma_same_shape_wf_struct(pre, ns);
                lemma_same_shape_sub(pre, ns, j as int);
                assert forall|m: int| 0 <= m < ns.len() implies #[trigger] cache_ok(ns, m) by {
                    assert(cache_ok(pre, m));
                    lemma_same_shape_sub(pre, ns, m);
                }
            }
        }
        proof {
            lemma_freeze_frame(os, self@);
        }
    }

    /// Unfreezes the whole trie: clears every cached aggregate and frozen
    /// flag, making the trie writable again.
    pub fn unfreeze(&mut self)
        requires
            old(self).wf(),
        ensures
            final(self).wf(),
            !final(self).spec_is_frozen(),
            final(self).spec_parent_links() == old(self).spec_parent_links(),
            same_shape(old(self)@, final(self)@),
            forall|p: Seq<char>| path_in(final(self)@, p) == path_in(old(self)@, p),
            forall|p: Seq<char>| word_in(final(self)@, p) == word_in(old(self)@, p),
            sub_node_count(final(self)@, 0) == sub_node_count(old(self)@, 0),
            sub_word_count(final(self)@, 0) == sub_word_count(old(self)@, 0),
            sub_height(final(self)@, 0) == sub_height(old(self)@, 0),
            !old(self).spec_is_frozen() ==> final(self)@ == old(self)@,
    {
        let ghost os = self@;
        proof {
            lemma_freeze_frame(os, os);
        }
        if !self.nodes[0].is_frozen {
            return ;
        }
        let n = self.nodes.len();
        let mut j: usize = 0;
        while j < n
            invariant
                wf_struct(self@),
                caches_ok(self@),
                same_shape(os, self@),
                wf_struct(os),
                self.spec_parent_links() == old(self).spec_parent_links(),
                n == self@.len(),
                j <= n,
                forall|m: int|
                    0 <= m < j ==> !(#[trigger] self@[m]).is_frozen && self@[m].node_count
                        is None && self@[m].word_count is None && self@[m].height is None,
                forall|m: int| j <= m < n ==> #[trigger] self@[m] == os[m],
            decreases n - j,
        {
            let ghost pre = self@;
            self.nodes[j].node_count = None;
            self.nodes[j].word_count = None;
            self.nodes[j].height = None;
            self.nodes[j].is_frozen = false;
            proof {
                let ns = self@;
                assert(forall|m: int| 0 <= m < ns.len() && m != j ==> ns[m] == pre[m]);
                assert(same_shape(pre, ns));
                lemma_same_shape_wf_struct(pre, ns);
                assert forall|m: int| 0 <= m < ns.len() implies #[trigger] cache_ok(ns, m) by {
                    assert(cache_ok(pre, m));
                    lemma_same_shape_sub(pre, ns, m);
                }
            }
            j += 1;
        }
        proof {
            lemma_freeze_frame(os, self@);
        }
    }
}

/// Walks the trie level by level: the root first, then its children in
/// ascending character order, then theirs. The iterator holds the pending
/// node indices; a fresh one restarts from the root.
pub struct BaseLetterTrieIteratorBreadthFirst {
    queue: Vec<usize>,
}

impl View for BaseLetterTrieIteratorBreadthFirst {
    type V = Seq<usize>;

    closed spec fn view(&self) -> Seq<usize> {
        self.queue@
    }
}

impl BaseLetterTrieIteratorBreadthFirst {
    /// All pending indices point into the trie's arena.
    pub open spec fn valid_for(&self, t: &BaseLetterTrie) -> bool {
        forall|k: int| 0 <= k < self@.len() ==> (#[trigger] self@[k]) < t@.len()
    }

    /// Takes the next node in breadth-first order: a snapshot of the front
    /// of the queue, whose children are appended behind everything already
    /// pending.
    pub fn next(&mut self, t: &BaseLetterTrie) -> (r: Option<FixedNode>)
        requires
            t.wf(),
            old(self).valid_for(t),
        ensures
            final(self).valid_for(t),
            old(self)@.len() == 0 ==> r is None && final(self)@ == old(self)@,
            old(self)@.len() > 0 ==> ({
                let j = old(self)@[0];
                &&& final(self)@ == old(self)@.drop_first() + t@[j as int].children@.map_values(
                    |e: (char, usize)| e.1,
                )
                &&& r matches Some(n) && {
                    &&& n.c == t@[j as int].c
                    &&& n.prefix@ == if t.spec_parent_links() {
                        prefix_of(t@, j as int)
                    } else {
                        Seq::<char>::empty()
                    }
                    &&& n.depth == t@[j as int].depth
                    &&& n.is_word == t@[j as int].is_word
                    &&& n.child_count == t@[j as int].children@.len()
                    &&& n.node_count == sub_node_count(t@, j as int)
                    &&& n.word_count == sub_word_count(t@, j as int)
                    &&& n.height == sub_height(t@, j as int)
                }
            }),
    {
        if self.queue.len() == 0 {
            return None;
        }
        let j = self.queue.remove(0);
        let snapshot = t.to_fixed_node_at(j);
        let n = t.nodes[j].children.len();
        let ghost mid = self.queue@;
        let mut k: usize = 0;
        proof {
            assert(child_entries_ok(t@, j as int));
            assert(self.queue@ =~= mid + t@[j as int].children@.map_values(
                |e: (char, usize)| e.1,
            ).take(0));
        }
        while k < n
            invariant
                t.wf(),
                j < t@.len(),
                n == t@[j as int].children@.len(),
                k <= n,
                self.queue@ == mid + t@[j as int].children@.map_values(
                    |e: (char, usize)| e.1,
                ).take(k as int),
                forall|m: int| 0 <= m < mid.len() ==> (#[trigger] mid[m]) < t@.len(),
            decreases n - k,
        {
            let (_c, child) = t.nodes[j].children[k];
            self.queue.push(child);
            proof {
                assert(child_entries_ok(t@, j as int));
                assert(t@[j as int].children@[k as int].1 == child);
                assert(self.queue@ =~= mid + t@[j as int].children@.map_values(
                    |e: (char, usize)| e.1,
                ).take(k as int + 1));
            }
            k += 1;
        }
        proof {
            assert(t@[j as int].children@.map_values(|e: (char, usize)| e.1).take(n as int)
                =~= t@[j as int].children@.map_values(|e: (char, usize)| e.1));
            assert forall|m: int| 0 <= m < self.queue@.len() implies (#[trigger] self.queue@[m])
                < t@.len() by {
                if m >= mid.len() {
                    assert(child_entries_ok(t@, j as int));
                    assert(self.queue@[m] == t@[j as int].children@[m - mid.len()].1);
                }
            }
        }
        Some(snapshot)
    }
}

/// Walks one prefix through the trie, yielding a snapshot of each node as
/// its outgoing step matches, the root first. A fully matched prefix also
/// yields its final node; a prefix that dies out stops at the first
/// missing child without yielding the node that lacks it.
pub struct BaseLetterTrieIteratorPrefix {
    prefix: Vec<char>,
    prefix_index: usize,
    cur: usize,
    finished: bool,
}

impl BaseLetterTrieIteratorPrefix {
    /// The characters to walk.
    pub closed spec fn spec_prefix(&self) -> Seq<char> {
        self.prefix@
    }

    /// How many characters have been consumed.
    pub closed spec fn spec_index(&self) -> int {
        self.prefix_index as int
    }

    /// The index of the node the walk currently stands on.
    pub closed spec fn spec_cur(&self) -> usize {
        self.cur
    }

    /// Whether the walk has ended, by consuming the whole prefix or by
    /// running out of matching children.
    pub closed spec fn spec_finished(&self) -> bool {
        self.finished
    }

    /// The iterator stands on the node that the consumed part of the prefix
    /// leads to.
    pub open spec fn valid_for(&self, t: &BaseLetterTrie) -> bool {
        &&& self.spec_cur() < t@.len()
        &&& 0 <= self.spec_index() <= self.spec_prefix().len()
        &&& walk(t@, 0, self.spec_prefix().take(self.spec_index())) == Some(self.spec_cur())
    }

    /// Yields a snapshot of the current node and advances one character.
    /// Once the full prefix has been yielded the walk finishes; at a step
    /// whose character has no child it finishes without yielding, so a
    /// prefix that dies out produces one snapshot per matched step only.
    pub fn next(&mut self, t: &BaseLetterTrie) -> (r: Option<FixedNode>)
        requires
            t.wf(),
            old(self).valid_for(t),
        ensures
            final(self).valid_for(t),
            final(self).spec_prefix() == old(self).spec_prefix(),
            old(self).spec_finished() ==> r is None && *final(self) == *old(self),
            r is Some <==> !old(self).spec_finished() && (old(self).spec_index() == old(
                self,
            ).spec_prefix().len() || child_of(
                t@,
                old(self).spec_cur() as int,
                old(self).spec_prefix()[old(self).spec_index()],
            ) is Some),
            r matches Some(n) ==> ({
                let j = old(self).spec_cur();
                &&& n.c == t@[j as int].c
                &&& n.prefix@ == if t.spec_parent_links() {
                    prefix_of(t@, j as int)
                } else {
                    Seq::<char>::empty()
                }
                &&& n.depth == t@[j as int].depth
                &&& n.is_word == t@[j as int].is_word
                &&& n.child_count == t@[j as int].children@.len()
                &&& n.node_count == sub_node_count(t@, j as int)
                &&& n.word_count == sub_word_count(t@, j as int)
                &&& n.height == sub_height(t@, j as int)
            }),
            !old(self).spec_finished() && old(self).spec_index() < old(self).spec_prefix().len()
                && child_of(
                t@,
                old(self).spec_cur() as int,
                old(self).spec_prefix()[old(self).spec_index()],
            ) is Some ==> final(self).spec_index() == old(self).spec_index() + 1 && !final(self).spec_finished(),
            !old(self).spec_finished() && (old(self).spec_index() == old(self).spec_prefix().len() || child_of(
                t@,
                old(self).spec_cur() as int,
                old(self).spec_prefix()[old(self).spec_index()],
            ) is None) ==> final(self).spec_finished(),
    {
        if self.finished {
            return None;
        }
        if self.prefix_index == self.prefix.len() {
            self.finished = true;
            return Some(t.to_fixed_node_at(self.cur));
        }
        let c = self.prefix[self.prefix_index];
        match t.child_index(self.cur, c) {
            Some(nxt) => {
                proof {
                    let consumed = self.spec_prefix().take(self.spec_index());
                    lemma_walk_step(t@, consumed, self.cur, c, nxt);
                    assert(consumed.push(c) =~= self.spec_prefix().take(self.spec_index() + 1));
                }
                let snapshot = t.to_fixed_node_at(self.cur);
                self.cur = nxt;
                self.prefix_index = self.prefix_index + 1;
                Some(snapshot)
            },
            None => {
                self.finished = true;
                None
            },
        }
    }
}

impl BaseLetterTrie {
    /// A breadth-first iterator over the whole trie, starting at the root.
    pub fn iter_breadth_first(&self) -> (it: BaseLetterTrieIteratorBreadthFirst)
        requires
            self.wf(),
        ensures
            it.valid_for(self),
            it@ == seq![0usize],
    {
        let mut queue: Vec<usize> = Vec::new();
        queue.push(0);
        proof {
            assert(queue@ =~= seq![0usize]);
        }
        BaseLetterTrieIteratorBreadthFirst { queue }
    }

    /// An iterator over the nodes along `prefix`, starting at the root; the
    /// prefix is lowercased the same way lookups are.
    pub fn iter_prefix(&self, prefix: &str) -> (it: BaseLetterTrieIteratorPrefix)
        requires
            self.wf(),
        ensures
            it.valid_for(self),
            it.spec_prefix() == lower_of(prefix@),
            it.spec_index() == 0,
            it.spec_cur() == 0,
            !it.spec_finished(),
    {
        let chars = lower_chars(prefix);
        proof {
            assert(chars@.take(0) =~= Seq::<char>::empty());
        }
        BaseLetterTrieIteratorPrefix { prefix: chars, prefix_index: 0, cur: 0, finished: false }
    }
}

/// The prefixes spelled by carried-over sub-trie nodes are exactly the ones
/// they spelled in the sub-trie.
proof fn lemma_merge_prefix(ob: Seq<Node>, ns: Seq<Node>, d: int, o: int)
    requires
        wf_struct(ob),
        wf_struct(ns),
        1 <= d,
        ns.len() == d + ob.len() - 1,
        forall|m: int| d <= m < ns.len() ==> is_tr_node(d, ob[m - d + 1], #[trigger] ns[m]),
        1 <= o < ob.len(),
    ensures
        prefix_of(ns, d + o - 1) == prefix_of(ob, o),
    decreases o,
{
    let m = d + o - 1;
    assert(is_tr_node(d, ob[o], ns[m]));
    assert(parent_link_ok(ob, o));
    let po = ob[o].parent->0;
    if po == 0 {
        assert(ns[m].parent == Some(0usize));
        assert(prefix_of(ns, m) == prefix_of(ns, 0).push(ns[m].c));
        assert(prefix_of(ns, 0) == Seq::<char>::empty());
        assert(prefix_of(ob, 0) == Seq::<char>::empty());
    } else {
        assert(ns[m].parent == Some((d + po - 1) as usize));
        lemma_merge_prefix(ob, ns, d, po as int);
        assert(prefix_of(ns, m) == prefix_of(ns, d + po - 1).push(ns[m].c));
    }
}

/// Assembles the final merge state: the combined arena is well formed and
/// holds exactly the union of the two tries' paths and words.
proof fn lemma_merge_shape(os: Seq<Node>, ob: Seq<Node>, ns: Seq<Node>, d: int)
    requires
        wf_nodes(os),
        wf_nodes(ob),
        !os[0].is_frozen,
        !ob[0].is_frozen,
        os.len() == d,
        1 <= d,
        os.len() + ob.len() <= usize::MAX + 1,
        ns.len() == d + ob.len() - 1,
        forall|m: int| 1 <= m < d ==> #[trigger] ns[m] == os[m],
        ns[0].c == os[0].c,
        ns[0].depth == os[0].depth,
        ns[0].parent == os[0].parent,
        ns[0].is_word == os[0].is_word,
        ns[0].is_frozen == os[0].is_frozen,
        ns[0].node_count == os[0].node_count,
        ns[0].word_count == os[0].word_count,
        ns[0].height == os[0].height,
        forall|m: int| d <= m < ns.len() ==> is_tr_node(d, ob[m - d + 1], #[trigger] ns[m]),
        forall|k1: int, k2: int|
            0 <= k1 < k2 < ns[0].children@.len() ==> (#[trigger] ns[0].children@[k1]).0 < (
            #[trigger] ns[0].children@[k2]).0,
        forall|e: (char, usize)|
            #[trigger] ns[0].children@.contains(e) ==> os[0].children@.contains(e) || exists|
                k: int,
            |
                0 <= k < ob[0].children@.len() && e == #[trigger] merged_entry(d, ob, k),
        forall|e: (char, usize)|
            #[trigger] os[0].children@.contains(e) ==> ns[0].children@.contains(e),
        forall|k: int|
            0 <= k < ob[0].children@.len() ==> ns[0].children@.contains(
                #[trigger] merged_entry(d, ob, k),
            ),
    ensures
        wf_nodes(ns),
        !ns[0].is_frozen,
        merges_sets(os, ob, ns),
{
    // Structure.
    assert forall|m: int| 0 <= m < ns.len() implies #[trigger] child_entries_ok(ns, m) by {
        if m == 0 {
            assert forall|k: int| 0 <= k < ns[0].children@.len() implies {
                let e = #[trigger] ns[0].children@[k];
                &&& 0 < e.1 < ns.len()
                &&& ns[e.1 as int].c == e.0
                &&& ns[e.1 as int].parent == Some(0usize)
                &&& ns[e.1 as int].depth == ns[0].depth + 1
            } by {
                let e = ns[0].children@[k];
                assert(ns[0].children@.contains(e));
                if os[0].children@.contains(e) {
                    let kk = choose|kk: int|
                        0 <= kk < os[0].children@.len() && os[0].children@[kk] == e;
                    assert(child_entries_ok(os, 0));
                    assert(os[0].children@[kk].1 == e.1);
                    assert(0 < e.1 < d);
                    assert(ns[e.1 as int] == os[e.1 as int]);
                } else {
                    let kb = choose|kb: int|
                        0 <= kb < ob[0].children@.len() && e == ((#[trigger] ob[0].children@[
                            kb
                        ]).0, (d + ob[0].children@[kb].1 - 1) as usize);
                    assert(child_entries_ok(ob, 0));
                    let t = ob[0].children@[kb].1;
                    assert(0 < t < ob.len());
                    let m2 = d + t - 1;
                    assert(e.1 == m2);
                    assert(is_tr_node(d, ob[m2 - d + 1], ns[m2]));
                    assert(ob[m2 - d + 1] == ob[t as int]);
                    assert(ob[t as int].parent == Some(0usize));
                }
            }
        } else if m < d {
            assert(ns[m] == os[m]);
            assert(child_entries_ok(os, m));
            assert forall|k: int| 0 <= k < ns[m].children@.len() implies {
                let e = #[trigger] ns[m].children@[k];
                &&& m < e.1 < ns.len()
                &&& ns[e.1 as int].c == e.0
                &&& ns[e.1 as int].parent == Some(m as usize)
                &&& ns[e.1 as int].depth == ns[m].depth + 1
            } by {
                assert(ns[m].children@[k] == os[m].children@[k]);
                let e = os[m].children@[k];
                assert(m < e.1 < d);
                assert(ns[e.1 as int] == os[e.1 as int]);
            }
        } else {
            let o = m - d + 1;
            assert(is_tr_node(d, ob[o], ns[m]));
            assert(child_entries_ok(ob, o));
            assert forall|k: int| 0 <= k < ns[m].children@.len() implies {
                let e = #[trigger] ns[m].children@[k];
                &&& m < e.1 < ns.len()
                &&& ns[e.1 as int].c == e.0
                &&& ns[e.1 as int].parent == Some(m as usize)
                &&& ns[e.1 as int].depth == ns[m].depth + 1
            } by {
                assert(ns[m].children@[k] == (ob[o].children@[k].0, (d + ob[o].children@[k].1
                    - 1) as usize));
                let t = ob[o].children@[k].1;
                assert(o < t < ob.len());
                let m2 = d + t - 1;
                assert(is_tr_node(d, ob[m2 - d + 1], ns[m2]));
                assert(ob[m2 - d + 1] == ob[t as int]);
                assert(ob[t as int].parent == Some(o as usize));
                assert(ns[m2].parent == tr_parent(d, Some(o as usize)));
            }
        }
    }
    assert forall|m: int| 0 <= m < ns.len() implies #[trigger] children_sorted(ns, m) by {
        if m == 0 {
        } else if m < d {
            assert(ns[m] == os[m]);
            assert(children_sorted(os, m));
            assert forall|k1: int, k2: int| 0 <= k1 < k2 < ns[m].children@.len() implies (
            #[trigger] ns[m].children@[k1]).0 < (#[trigger] ns[m].children@[k2]).0 by {
                assert(ns[m].children@[k1] == os[m].children@[k1]);
                assert(ns[m].children@[k2] == os[m].children@[k2]);
            }
        } else {
            let o = m - d + 1;
            assert(is_tr_node(d, ob[o], ns[m]));
            assert(children_sorted(ob, o));
            assert forall|k1: int, k2: int| 0 <= k1 < k2 < ns[m].children@.len() implies (
            #[trigger] ns[m].children@[k1]).0 < (#[trigger] ns[m].children@[k2]).0 by {
                assert(ns[m].children@[k1] == (ob[o].children@[k1].0, (d + ob[o].children@[
                    k1
                ].1 - 1) as usize));
                assert(ns[m].children@[k2] == (ob[o].children@[k2].0, (d + ob[o].children@[
                    k2
                ].1 - 1) as usize));
            }
        }
    }
    assert forall|m: int| 1 <= m < ns.len() implies #[trigger] parent_link_ok(ns, m) by {
        if m < d {
            assert(ns[m] == os[m]);
            assert(parent_link_ok(os, m));
            let p = os[m].parent->0 as int;
            let kk = choose|kk: int|
                0 <= kk < os[p].children@.len() && #[trigger] os[p].children@[kk] == (
                os[m].c,
                m as usize,
                );
            if p == 0 {
                assert(os[0].children@.contains((os[m].c, m as usize)));
                assert(ns[0].children@.contains((ns[m].c, m as usize)));
                let kn = choose|kn: int|
                    0 <= kn < ns[0].children@.len() && ns[0].children@[kn] == (
                    ns[m].c,
                    m as usize,
                    );
                assert(has_child_entry(ns, 0, ns[m].c, m));
            } else {
                assert(ns[p] == os[p]);
                assert(ns[p].children@[kk] == (ns[m].c, m as usize));
            }
        } else {
            let o = m - d + 1;
            assert(is_tr_node(d, ob[o], ns[m]));
            assert(parent_link_ok(ob, o));
            let po = ob[o].parent->0;
            let kk = choose|kk: int|
                0 <= kk < ob[po as int].children@.len() && #[trigger] ob[po as int].children@[
                    kk
                ] == (ob[o].c, o as usize);
            if po == 0 {
                assert(ns[m].parent == Some(0usize));
                assert(ns[0].children@.contains(merged_entry(d, ob, kk)));
                assert((ns[m].c, m as usize) == merged_entry(d, ob, kk));
                assert(ns[0].children@.contains((ns[m].c, m as usize)));
                let kn = choose|kn: int|
                    0 <= kn < ns[0].children@.len() && ns[0].children@[kn] == (
                    ns[m].c,
                    m as usize,
                    );
                assert(has_child_entry(ns, 0, ns[m].c, m));
            } else {
                let mp = d + po - 1;
                assert(ns[m].parent == Some(mp as usize));
                assert(is_tr_node(d, ob[po as int], ns[mp as int]));
                assert(ns[mp as int].children@[kk] == (ob[po as int].children@[kk].0, (d + ob[
                    po as int
                ].children@[kk].1 - 1) as usize));
                assert(ns[mp as int].children@[kk] == (ns[m].c, m as usize));
                assert(has_child_entry(ns, mp, ns[m].c, m));
            }
        }
    }
    assert(wf_struct(ns));

    // Caches and frozen flags: everything stays unfrozen and empty.
    assert forall|m: int| 0 <= m < ns.len() implies #[trigger] cache_ok(ns, m)
        && !ns[m].is_frozen by {
        if m == 0 {
            assert(cache_ok(os, 0));
        } else if m < d {
            assert(cache_ok(os, m));
            assert(!os[m].is_frozen);
        } else {
            assert(is_tr_node(d, ob[m - d + 1], ns[m]));
        }
    }
    assert(frozen_uniform(ns));

    // Prefix correspondence, then the set union.
    assert forall|m: int| 0 <= m < d implies prefix_of(ns, m) == prefix_of(os, m) by {
        lemma_prefix_stable(os, ns, d, m);
    }
    assert forall|m: int| d <= m < ns.len() implies prefix_of(ns, m) == prefix_of(
        ob,
        m - d + 1,
    ) by {
        lemma_merge_prefix(ob, ns, d, m - d + 1);
    }
    assert forall|p: Seq<char>|
        path_in(ns, p) <==> path_in(os, p) || path_in(ob, p) by {
        lemma_path_iff_prefix(ns, p);
        lemma_path_iff_prefix(os, p);
        lemma_path_iff_prefix(ob, p);
        if path_in(ns, p) {
            let m = choose|m: int| 0 <= m < ns.len() && prefix_of(ns, m) == p;
            if m < d {
                assert(prefix_of(os, m) == p);
            } else {
                assert(prefix_of(ob, m - d + 1) == p);
            }
        }
        if path_in(os, p) {
            let m = choose|m: int| 0 <= m < os.len() && prefix_of(os, m) == p;
            assert(prefix_of(ns, m) == p);
        }
        if path_in(ob, p) {
            let o = choose|o: int| 0 <= o < ob.len() && prefix_of(ob, o) == p;
            if o == 0 {
                assert(prefix_of(ob, 0) == Seq::<char>::empty());
                assert(prefix_of(ns, 0) == Seq::<char>::empty());
                assert(prefix_of(os, 0) == Seq::<char>::empty());
                assert(prefix_of(ns, 0) == p);
            } else {
                assert(prefix_of(ns, d + o - 1) == p);
            }
        }
    }
    assert forall|p: Seq<char>|
        word_in(ns, p) <==> word_in(os, p) || word_in(ob, p) by {
        lemma_path_iff_prefix(ns, p);
        lemma_path_iff_prefix(os, p);
        lemma_path_iff_prefix(ob, p);
        if word_in(ns, p) {
            let m = choose|m: int|
                0 <= m < ns.len() && prefix_of(ns, m) == p && ns[m].is_word;
            if m == 0 {
                assert(os[0].is_word);
            } else if m < d {
                assert(prefix_of(os, m) == p && os[m].is_word);
            } else {
                assert(is_tr_node(d, ob[m - d + 1], ns[m]));
                assert(prefix_of(ob, m - d + 1) == p && ob[m - d + 1].is_word);
            }
        }
        if word_in(os, p) {
            let m = choose|m: int|
                0 <= m < os.len() && prefix_of(os, m) == p && os[m].is_word;
            if m == 0 {
            } else {
                assert(prefix_of(ns, m) == p && ns[m].is_word);
            }
        }
        if word_in(ob, p) {
            let o = choose|o: int|
                0 <= o < ob.len() && prefix_of(ob, o) == p && ob[o].is_word;
            if o == 0 {
            } else {
                assert(is_tr_node(d, ob[o], ns[d + o - 1]));
                assert(prefix_of(ns, d + o - 1) == p && ns[d + o - 1].is_word);
            }
        }
    }
}

/// The observable consequences of a shape-preserving pass: paths, words and
/// the root aggregates are untouched.
proof fn lemma_freeze_frame(os: Seq<Node>, ns: Seq<Node>)
    requires
        wf_struct(os),
        wf_struct(ns),
        same_shape(os, ns),
    ensures
        forall|p: Seq<char>| path_in(ns, p) == path_in(os, p),
        forall|p: Seq<char>| word_in(ns, p) == word_in(os, p),
        sub_node_count(ns, 0) == sub_node_count(os, 0),
        sub_word_count(ns, 0) == sub_word_count(os, 0),
        sub_height(ns, 0) == sub_height(os, 0),
{
    assert forall|p: Seq<char>| path_in(ns, p) == path_in(os, p) && word_in(ns, p) == word_in(
        os,
        p,
    ) by {
        lemma_same_shape_walk(os, ns, 0, p);
        if walk(os, 0, p) is Some {
            lemma_walk_prefix(os, 0, p);
        }
    }
    lemma_same_shape_sub(os, ns, 0);
}

} // verus!
