//! The trie's node arena and its mathematical model.
//!
//! Nodes are stored in a flat vector; child and parent links are indices into
//! that vector. The root always sits at index 0 and every child has a larger
//! index than its parent, so walks toward the leaves strictly increase the
//! index and walks toward the root strictly decrease it.
//!
//! The spec functions here define what a well-formed arena is (`wf_struct`,
//! `caches_ok`, `frozen_uniform`), which string each node spells
//! (`prefix_of`), how a character sequence is resolved to a node (`walk`) and
//! what the aggregate statistics of a subtree are (`sub_node_count`,
//! `sub_word_count`, `sub_height`).

use vstd::prelude::*;

verus! {

/// The character that the root node carries; it never counts toward any word.
pub const ROOT_CHAR: char = ' ';

/// One vertex of the trie.
///
/// `children` maps characters to child indices and is kept sorted by
/// character, so iteration over children is always in ascending character
/// order. `parent` is the index of the owning node (`None` only for the
/// root). The three cached aggregates are populated exactly while
/// `is_frozen` is set.
pub struct Node {
    pub c: char,
    pub depth: usize,
    pub parent: Option<usize>,
    pub children: Vec<(char, usize)>,
    pub is_word: bool,
    pub is_frozen: bool,
    pub node_count: Option<usize>,
    pub word_count: Option<usize>,
    pub height: Option<usize>,
}

/// The root node is at index 0, carries the sentinel character, sits at
/// depth 0, has no parent and is never a word end.
pub open spec fn root_ok(nodes: Seq<Node>) -> bool {
    &&& nodes.len() >= 1
    &&& nodes[0].c == ROOT_CHAR
    &&& nodes[0].depth == 0
    &&& nodes[0].parent is None
    &&& !nodes[0].is_word
}

/// Every child entry of node `i` points forward in the arena to a node that
/// carries the entry's character, points back to `i` as its parent and sits
/// one level deeper.
pub open spec fn child_entries_ok(nodes: Seq<Node>, i: int) -> bool {
    forall|k: int|
        0 <= k < nodes[i].children@.len() ==> {
            let e = #[trigger] nodes[i].children@[k];
            &&& i < e.1 < nodes.len()
            &&& nodes[e.1 as int].c == e.0
            &&& nodes[e.1 as int].parent == Some(i as usize)
            &&& nodes[e.1 as int].depth == nodes[i].depth + 1
        }
}

/// The children of node `i` are sorted strictly by character, so each
/// character appears at most once among them.
pub open spec fn children_sorted(nodes: Seq<Node>, i: int) -> bool {
    forall|k1: int, k2: int|
        0 <= k1 < k2 < nodes[i].children@.len() ==> (#[trigger] nodes[i].children@[k1]).0
            < (#[trigger] nodes[i].children@[k2]).0
}

/// Node `p` lists `j` among its children under character `c`.
pub open spec fn has_child_entry(nodes: Seq<Node>, p: int, c: char, j: int) -> bool {
    exists|k: int|
        0 <= k < nodes[p].children@.len() && #[trigger] nodes[p].children@[k] == (c, j as usize)
}

/// Every node except the root has a parent with a smaller index, and that
/// parent lists the node among its children under the node's character.
pub open spec fn parent_link_ok(nodes: Seq<Node>, j: int) -> bool {
    &&& nodes[j].parent is Some
    &&& nodes[j].parent->0 < j
    &&& has_child_entry(nodes, nodes[j].parent->0 as int, nodes[j].c, j)
}

/// Structural well-formedness of the arena: a rooted tree whose edges are
/// consistent in both directions and whose children are sorted by character.
pub open spec fn wf_struct(nodes: Seq<Node>) -> bool {
    &&& nodes.len() <= usize::MAX
    &&& root_ok(nodes)
    &&& forall|i: int| 0 <= i < nodes.len() ==> #[trigger] child_entries_ok(nodes, i)
    &&& forall|i: int| 0 <= i < nodes.len() ==> #[trigger] children_sorted(nodes, i)
    &&& forall|j: int| 1 <= j < nodes.len() ==> #[trigger] parent_link_ok(nodes, j)
}

/// The string spelled by the path from the root down to node `j`; the root
/// spells the empty string and each other node appends its character to its
/// parent's prefix.
pub open spec fn prefix_of(nodes: Seq<Node>, j: int) -> Seq<char>
    decreases j,
        when wf_struct(nodes) && 0 <= j < nodes.len()
{
    match nodes[j].parent {
        None => Seq::empty(),
        Some(p) => {
            proof {
                if 1 <= j {
                    assert(parent_link_ok(nodes, j));
                }
            }
            prefix_of(nodes, p as int).push(nodes[j].c)
        },
    }
}

/// Looks `c` up in a children list.
pub open spec fn child_search(ch: Seq<(char, usize)>, c: char) -> Option<usize>
    decreases ch.len(),
{
    if ch.len() == 0 {
        None
    } else if ch[0].0 == c {
        Some(ch[0].1)
    } else {
        child_search(ch.drop_first(), c)
    }
}

/// The index of node `i`'s child for character `c`, if there is one.
pub open spec fn child_of(nodes: Seq<Node>, i: int, c: char) -> Option<usize> {
    child_search(nodes[i].children@, c)
}

/// Descends from node `i` along the characters of `p`; returns the index of
/// the node the full sequence leads to, or `None` as soon as a character has
/// no child.
pub open spec fn walk(nodes: Seq<Node>, i: usize, p: Seq<char>) -> Option<usize>
    decreases p.len(),
{
    if p.len() == 0 {
        Some(i)
    } else {
        match child_of(nodes, i as int, p[0]) {
            None => None,
            Some(j) => walk(nodes, j, p.drop_first()),
        }
    }
}

/// The character sequence `p` labels a node of the trie.
pub open spec fn path_in(nodes: Seq<Node>, p: Seq<char>) -> bool {
    walk(nodes, 0, p) is Some
}

/// The character sequence `p` is one of the trie's words: it is non-empty,
/// labels a node, and that node is marked as a word end.
pub open spec fn word_in(nodes: Seq<Node>, p: Seq<char>) -> bool {
    match walk(nodes, 0, p) {
        Some(j) => p.len() > 0 && nodes[j as int].is_word,
        None => false,
    }
}

/// Node `i` lies on the parent chain of node `j` (every node is in its own
/// subtree).
pub open spec fn in_subtree(nodes: Seq<Node>, i: int, j: int) -> bool
    decreases j,
        when wf_struct(nodes) && 0 <= j < nodes.len()
{
    if i == j {
        true
    } else {
        match nodes[j].parent {
            None => false,
            Some(p) => {
                proof {
                    if 1 <= j {
                        assert(parent_link_ok(nodes, j));
                    }
                }
                in_subtree(nodes, i, p as int)
            },
        }
    }
}

/// Number of nodes in the subtree rooted at `i`, counting `i` itself.
pub open spec fn sub_node_count(nodes: Seq<Node>, i: int) -> nat
    decreases nodes.len() - i, nodes[i].children@.len() + 1,
        when wf_struct(nodes) && 0 <= i < nodes.len()
{
    1 + sub_node_count_from(nodes, i, 0)
}

/// Sum of the subtree node counts of `i`'s children from child position `k`
/// on.
pub open spec fn sub_node_count_from(nodes: Seq<Node>, i: int, k: int) -> nat
    decreases nodes.len() - i, nodes[i].children@.len() - k,
        when wf_struct(nodes) && 0 <= i < nodes.len() && 0 <= k <= nodes[i].children@.len()
{
    if k == nodes[i].children@.len() {
        0
    } else {
        proof {
            assert(child_entries_ok(nodes, i));
        }
        sub_node_count(nodes, nodes[i].children@[k].1 as int) + sub_node_count_from(
            nodes,
            i,
            k + 1,
        )
    }
}

/// Number of word-end nodes in the subtree rooted at `i`.
pub open spec fn sub_word_count(nodes: Seq<Node>, i: int) -> nat
    decreases nodes.len() - i, nodes[i].children@.len() + 1,
        when wf_struct(nodes) && 0 <= i < nodes.len()
{
    (if nodes[i].is_word {
        1nat
    } else {
        0nat
    }) + sub_word_count_from(nodes, i, 0)
}

/// Sum of the subtree word counts of `i`'s children from child position `k`
/// on.
pub open spec fn sub_word_count_from(nodes: Seq<Node>, i: int, k: int) -> nat
    decreases nodes.len() - i, nodes[i].children@.len() - k,
        when wf_struct(nodes) && 0 <= i < nodes.len() && 0 <= k <= nodes[i].children@.len()
{
    if k == nodes[i].children@.len() {
        0
    } else {
        proof {
            assert(child_entries_ok(nodes, i));
        }
        sub_word_count(nodes, nodes[i].children@[k].1 as int) + sub_word_count_from(
            nodes,
            i,
            k + 1,
        )
    }
}

/// Height of the subtree rooted at `i`: 1 for `i` itself plus the tallest
/// child subtree.
pub open spec fn sub_height(nodes: Seq<Node>, i: int) -> nat
    decreases nodes.len() - i, nodes[i].children@.len() + 1,
        when wf_struct(nodes) && 0 <= i < nodes.len()
{
    1 + sub_height_from(nodes, i, 0)
}

/// Maximum subtree height among `i`'s children from child position `k` on
/// (zero when no children remain).
pub open spec fn sub_height_from(nodes: Seq<Node>, i: int, k: int) -> nat
    decreases nodes.len() - i, nodes[i].children@.len() - k,
        when wf_struct(nodes) && 0 <= i < nodes.len() && 0 <= k <= nodes[i].children@.len()
{
    if k == nodes[i].children@.len() {
        0
    } else {
        proof {
            assert(child_entries_ok(nodes, i));
        }
        vstd::math::max(
            sub_height(nodes, nodes[i].children@[k].1 as int) as int,
            sub_height_from(nodes, i, k + 1) as int,
        ) as nat
    }
}

/// The set of indices of the nodes in the subtree rooted at `i`.
pub open spec fn subtree_set(nodes: Seq<Node>, i: int) -> Set<int> {
    Set::new(|j: int| 0 <= j < nodes.len() && in_subtree(nodes, i, j))
}

/// The set of indices covered by the subtrees of `i`'s children from child
/// position `k` on.
pub open spec fn kids_set(nodes: Seq<Node>, i: int, k: int) -> Set<int> {
    Set::new(
        |j: int|
            0 <= j < nodes.len() && exists|k2: int|
                k <= k2 < nodes[i].children@.len() && in_subtree(
                    nodes,
                    #[trigger] nodes[i].children@[k2].1 as int,
                    j,
                ),
    )
}

/// What merging does to the path and word sets: the merged trie holds
/// exactly the union of the two tries' paths and words.
pub open spec fn merges_sets(a: Seq<Node>, b: Seq<Node>, m: Seq<Node>) -> bool {
    &&& forall|p: Seq<char>| path_in(m, p) <==> path_in(a, p) || path_in(b, p)
    &&& forall|p: Seq<char>| word_in(m, p) <==> word_in(a, p) || word_in(b, p)
}

/// Two arenas with the same tree in them: only cache fields and frozen
/// flags may differ.
pub open spec fn same_shape(a: Seq<Node>, b: Seq<Node>) -> bool {
    &&& a.len() == b.len()
    &&& forall|j: int|
        0 <= j < a.len() ==> {
            &&& (#[trigger] b[j]).c == a[j].c
            &&& b[j].depth == a[j].depth
            &&& b[j].parent == a[j].parent
            &&& b[j].children == a[j].children
            &&& b[j].is_word == a[j].is_word
        }
}

/// The words of the subtree rooted at `i`, in depth-first order: the node's
/// own word first, then each child's words in ascending character order.
pub open spec fn words_under(nodes: Seq<Node>, i: int) -> Seq<Seq<char>>
    decreases nodes.len() - i, nodes[i].children@.len() + 1,
        when wf_struct(nodes) && 0 <= i < nodes.len()
{
    (if nodes[i].is_word {
        seq![prefix_of(nodes, i)]
    } else {
        Seq::empty()
    }) + words_under_from(nodes, i, 0)
}

/// The words of the subtrees of `i`'s children from child position `k` on,
/// concatenated in order.
pub open spec fn words_under_from(nodes: Seq<Node>, i: int, k: int) -> Seq<Seq<char>>
    decreases nodes.len() - i, nodes[i].children@.len() - k,
        when wf_struct(nodes) && 0 <= i < nodes.len() && 0 <= k <= nodes[i].children@.len()
{
    if k == nodes[i].children@.len() {
        Seq::empty()
    } else {
        proof {
            assert(child_entries_ok(nodes, i));
        }
        words_under(nodes, nodes[i].children@[k].1 as int) + words_under_from(nodes, i, k + 1)
    }
}

/// The cached aggregates of node `i` are populated and correct exactly while
/// the node is frozen.
pub open spec fn cache_ok(nodes: Seq<Node>, i: int) -> bool {
    if nodes[i].is_frozen {
        &&& nodes[i].node_count matches Some(n) && n == sub_node_count(nodes, i)
        &&& nodes[i].word_count matches Some(w) && w == sub_word_count(nodes, i)
        &&& nodes[i].height matches Some(h) && h == sub_height(nodes, i)
    } else {
        &&& nodes[i].node_count is None
        &&& nodes[i].word_count is None
        &&& nodes[i].height is None
    }
}

/// Every node's cache is in the state its frozen flag claims.
pub open spec fn caches_ok(nodes: Seq<Node>) -> bool {
    forall|i: int| 0 <= i < nodes.len() ==> #[trigger] cache_ok(nodes, i)
}

/// Freezing is all-or-nothing: every node agrees with the root about whether
/// the trie is frozen.
pub open spec fn frozen_uniform(nodes: Seq<Node>) -> bool {
    forall|i: int| 0 <= i < nodes.len() ==> #[trigger] nodes[i].is_frozen == nodes[0].is_frozen
}

/// Full well-formedness of an arena at rest: structure, caches and the
/// uniform frozen flag.
pub open spec fn wf_nodes(nodes: Seq<Node>) -> bool {
    &&& wf_struct(nodes)
    &&& caches_ok(nodes)
    &&& frozen_uniform(nodes)
}

/// `p` is a non-empty prefix of `w`: the walk that inserts `w` creates or
/// visits exactly the nodes labelled by these sequences.
pub open spec fn is_stem_of(p: Seq<char>, w: Seq<char>) -> bool {
    1 <= p.len() <= w.len() && p == w.subrange(0, p.len() as int)
}

/// What inserting the word `w` does to the trie's path and word sets: the
/// paths grow by exactly the non-empty prefixes of `w`, and the words by
/// exactly `w`.
pub open spec fn grows_by_word(os: Seq<Node>, ns: Seq<Node>, w: Seq<char>) -> bool {
    &&& forall|p: Seq<char>| path_in(ns, p) <==> path_in(os, p) || is_stem_of(p, w)
    &&& forall|p: Seq<char>| word_in(ns, p) <==> word_in(os, p) || p == w
}

} // verus!
