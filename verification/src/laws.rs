//! The library's general laws, stated over the trie model and proved once
//! and for all: idempotent insertion, the prefix-reconstruction round trip,
//! non-membership, the freeze-cache equivalence, and merge correctness.

use vstd::prelude::*;

use crate::builder::trie_of_list;
use crate::node::{
    Node, child_of, children_sorted, grows_by_word, in_subtree, is_stem_of, parent_link_ok,
    path_in, prefix_of, sub_height, sub_node_count, sub_word_count, subtree_set, walk, wf_nodes,
    wf_struct, word_in,
};
use crate::node_lemmas::{
    lemma_all_in_root, lemma_depth_prefix_len, lemma_height_lower, lemma_height_witness,
    lemma_node_count_total, lemma_path_iff_prefix, lemma_prefix_injective, lemma_prefix_walks,
    lemma_sub_word_count_is_card, lemma_subtree_set_finite, lemma_walk_prefix,
};
use vstd::relations::injective_on;
use vstd::set_lib::lemma_map_size;

verus! {

/// Inserting a word makes it a word of the trie, and every later insertion
/// of the same word meets the no-change case of the insert contract:
/// inserting a word more than once leaves node count, word count and the
/// whole tree shape exactly as after the first insertion.
pub proof fn lemma_insert_idempotent(a: Seq<Node>, b: Seq<Node>, w: Seq<char>)
    requires
        grows_by_word(a, b, w),
        w.len() > 0,
    ensures
        word_in(b, w),
        forall|p: Seq<char>| is_stem_of(p, w) ==> path_in(b, p),
{
}

/// The prefix-reconstruction round trip: for every word of the trie, the
/// lookup walk lands on a node whose reconstructed prefix is exactly that
/// word, and that node is marked as a word end at the word's depth.
pub proof fn lemma_prefix_round_trip(nodes: Seq<Node>, w: Seq<char>)
    requires
        wf_struct(nodes),
        word_in(nodes, w),
    ensures
        walk(nodes, 0, w) matches Some(j) && j < nodes.len() && prefix_of(nodes, j as int) == w
            && nodes[j as int].is_word && nodes[j as int].depth == w.len(),
{
    lemma_walk_prefix(nodes, 0, w);
    let j = walk(nodes, 0, w)->0;
    assert(prefix_of(nodes, 0) + w =~= w);
    lemma_depth_prefix_len(nodes, j as int);
}

/// Non-membership: a non-empty string that is not a prefix of any word of
/// the list a trie was built from labels no node, so the lookup finds
/// nothing and the membership test answers false.
pub proof fn lemma_non_membership(nodes: Seq<Node>, ws: Seq<Seq<char>>, p: Seq<char>)
    requires
        trie_of_list(nodes, ws),
        p.len() > 0,
        forall|i: int| 0 <= i < ws.len() ==> !is_stem_of(p, #[trigger] ws[i]),
    ensures
        !path_in(nodes, p),
        !word_in(nodes, p),
{
    if word_in(nodes, p) {
        let i = choose|i: int| 0 <= i < ws.len() && #[trigger] ws[i] == p && p.len() > 0;
        assert(p.subrange(0, p.len() as int) =~= p);
        assert(is_stem_of(p, ws[i]));
    }
}

/// While frozen, every cached root aggregate equals what a live
/// recomputation would produce; together with the freeze and unfreeze
/// contracts, the three statistics read the same before freezing, while
/// frozen, and after unfreezing.
pub proof fn lemma_frozen_cache_is_live(nodes: Seq<Node>)
    requires
        wf_nodes(nodes),
        nodes.len() >= 1,
        nodes[0].is_frozen,
    ensures
        nodes[0].node_count matches Some(n) && n == sub_node_count(nodes, 0),
        nodes[0].word_count matches Some(w) && w == sub_word_count(nodes, 0),
        nodes[0].height matches Some(h) && h == sub_height(nodes, 0),
{
    assert(crate::node::cache_ok(nodes, 0));
}

/// Merge correctness: two tries holding the same paths and the same words
/// are indistinguishable to every query: membership and lookup agree by
/// definition, and the node count, word count and height agree as well.
/// Hence building a trie by partitioned construction and merging gives the
/// same statistics and answers as sequential insertion.
pub proof fn lemma_same_sets_same_aggregates(a: Seq<Node>, b: Seq<Node>)
    requires
        wf_struct(a),
        wf_struct(b),
        forall|p: Seq<char>| path_in(a, p) == path_in(b, p),
        forall|p: Seq<char>| word_in(a, p) == word_in(b, p),
    ensures
        a.len() == b.len(),
        sub_node_count(a, 0) == sub_node_count(b, 0),
        sub_word_count(a, 0) == sub_word_count(b, 0),
        sub_height(a, 0) == sub_height(b, 0),
{
    let pa = Set::new(|p: Seq<char>| path_in(a, p));
    assert(pa =~= Set::new(|p: Seq<char>| path_in(b, p)));
    lemma_len_is_path_card(a);
    lemma_len_is_path_card(b);
    lemma_node_count_total(a);
    lemma_node_count_total(b);

    let wa = Set::new(|p: Seq<char>| word_in(a, p));
    assert(wa =~= Set::new(|p: Seq<char>| word_in(b, p)));
    lemma_word_count_is_word_card(a);
    lemma_word_count_is_word_card(b);

    lemma_height_is_max_path(a);
    lemma_height_is_max_path(b);
    let ja = choose|j: int|
        0 <= j < a.len() && #[trigger] in_subtree(a, 0, j) && sub_height(a, 0) == a[j].depth - a[
            0
        ].depth + 1;
    lemma_depth_prefix_len(a, ja);
    assert(path_in(a, prefix_of(a, ja))) by {
        lemma_prefix_walks(a, ja as usize);
    }
    assert(path_in(b, prefix_of(a, ja)));
    lemma_path_iff_prefix(b, prefix_of(a, ja));
    let jb0 = choose|j: int| 0 <= j < b.len() && prefix_of(b, j) == prefix_of(a, ja);
    lemma_depth_prefix_len(b, jb0);
    lemma_all_in_root(b, jb0);
    lemma_height_lower(b, 0, jb0);
    assert(sub_height(b, 0) >= sub_height(a, 0));
    let jb = choose|j: int|
        0 <= j < b.len() && #[trigger] in_subtree(b, 0, j) && sub_height(b, 0) == b[j].depth - b[
            0
        ].depth + 1;
    lemma_depth_prefix_len(b, jb);
    assert(path_in(b, prefix_of(b, jb))) by {
        lemma_prefix_walks(b, jb as usize);
    }
    assert(path_in(a, prefix_of(b, jb)));
    lemma_path_iff_prefix(a, prefix_of(b, jb));
    let ja0 = choose|j: int| 0 <= j < a.len() && prefix_of(a, j) == prefix_of(b, jb);
    lemma_depth_prefix_len(a, ja0);
    lemma_all_in_root(a, ja0);
    lemma_height_lower(a, 0, ja0);
    assert(sub_height(a, 0) >= sub_height(b, 0));
}

/// Merge correctness, per node: two tries holding the same paths and the
/// same words answer every lookup with the same snapshot. The nodes a
/// common path leads to agree on character, depth, word flag, child count
/// and all three subtree aggregates.
pub proof fn lemma_same_sets_same_snapshots(a: Seq<Node>, b: Seq<Node>, p: Seq<char>)
    requires
        wf_struct(a),
        wf_struct(b),
        forall|q: Seq<char>| path_in(a, q) == path_in(b, q),
        forall|q: Seq<char>| word_in(a, q) == word_in(b, q),
        path_in(a, p),
    ensures
        walk(a, 0, p) is Some,
        walk(b, 0, p) is Some,
        ({
            let ja = walk(a, 0, p)->0 as int;
            let jb = walk(b, 0, p)->0 as int;
            &&& a[ja].c == b[jb].c
            &&& a[ja].depth == b[jb].depth
            &&& a[ja].is_word == b[jb].is_word
            &&& a[ja].children@.len() == b[jb].children@.len()
            &&& sub_node_count(a, ja) == sub_node_count(b, jb)
            &&& sub_word_count(a, ja) == sub_word_count(b, jb)
            &&& sub_height(a, ja) == sub_height(b, jb)
        }),
{
    let ja = walk(a, 0, p)->0;
    let jb = walk(b, 0, p)->0;
    lemma_walk_prefix(a, 0, p);
    lemma_walk_prefix(b, 0, p);
    assert(prefix_of(a, 0) + p =~= p);
    assert(prefix_of(b, 0) + p =~= p);
    assert(prefix_of(a, ja as int) == p);
    assert(prefix_of(b, jb as int) == p);
    lemma_depth_prefix_len(a, ja as int);
    lemma_depth_prefix_len(b, jb as int);
    if p.len() == 0 {
        lemma_prefix_injective(a, ja, 0);
        lemma_prefix_injective(b, jb, 0);
    } else {
        assert(parent_link_ok(a, ja as int));
        assert(prefix_of(a, ja as int) == prefix_of(
            a,
            a[ja as int].parent->0 as int,
        ).push(a[ja as int].c));
        assert(a[ja as int].c == p.last());
        assert(parent_link_ok(b, jb as int));
        assert(prefix_of(b, jb as int) == prefix_of(
            b,
            b[jb as int].parent->0 as int,
        ).push(b[jb as int].c));
        assert(b[jb as int].c == p.last());
        assert(word_in(a, p) == a[ja as int].is_word);
        assert(word_in(b, p) == b[jb as int].is_word);
    }
    lemma_child_count_is_extensions(a, p, ja);
    lemma_child_count_is_extensions(b, p, jb);
    assert(Set::new(|c: char| path_in(a, p.push(c))) =~= Set::new(
        |c: char| path_in(b, p.push(c)),
    ));
    lemma_stats_are_extensions(a, p, ja);
    lemma_stats_are_extensions(b, p, jb);
    assert(Set::new(|q: Seq<char>| path_in(a, q) && p.is_prefix_of(q)) =~= Set::new(
        |q: Seq<char>| path_in(b, q) && p.is_prefix_of(q),
    ));
    assert(Set::new(|q: Seq<char>| word_in(a, q) && p.is_prefix_of(q)) =~= Set::new(
        |q: Seq<char>| word_in(b, q) && p.is_prefix_of(q),
    ));
    // Heights: each trie's witness path bounds the other's height.
    let qa = choose|q: Seq<char>|
        path_in(a, q) && p.is_prefix_of(q) && #[trigger] q.len() == sub_height(a, ja as int)
            + p.len() - 1;
    lemma_extension_bounds_height(b, p, jb, qa);
    let qb = choose|q: Seq<char>|
        path_in(b, q) && p.is_prefix_of(q) && #[trigger] q.len() == sub_height(b, jb as int)
            + p.len() - 1;
    lemma_extension_bounds_height(a, p, ja, qb);
}

/// A node's immediate child count is the number of one-character
/// extensions of its path.
proof fn lemma_child_count_is_extensions(nodes: Seq<Node>, p: Seq<char>, j: usize)
    requires
        wf_struct(nodes),
        walk(nodes, 0, p) == Some(j),
        j < nodes.len(),
    ensures
        Set::new(|c: char| path_in(nodes, p.push(c))).finite(),
        Set::new(|c: char| path_in(nodes, p.push(c))).len() == nodes[j as int].children@.len(),
{
    let cs = Seq::new(nodes[j as int].children@.len(), |k: int| nodes[j as int].children@[k].0);
    assert(cs.no_duplicates()) by {
        assert(children_sorted(nodes, j as int));
        assert forall|k1: int, k2: int|
            0 <= k1 < cs.len() && 0 <= k2 < cs.len() && k1 != k2 implies cs[k1] != cs[k2] by {
            if k1 < k2 {
                assert(nodes[j as int].children@[k1].0 < nodes[j as int].children@[k2].0);
            } else {
                assert(nodes[j as int].children@[k2].0 < nodes[j as int].children@[k1].0);
            }
        }
    }
    cs.unique_seq_to_set();
    assert(cs.to_set() =~= Set::new(|c: char| path_in(nodes, p.push(c)))) by {
        assert forall|c: char| cs.to_set().contains(c) implies path_in(nodes, p.push(c)) by {
            let k = choose|k: int| 0 <= k < cs.len() && cs[k] == c;
            assert(children_sorted(nodes, j as int));
            crate::node_lemmas::lemma_child_search_complete(nodes[j as int].children@, c, k);
            crate::node_lemmas::lemma_walk_step(
                nodes,
                p,
                j,
                c,
                nodes[j as int].children@[k].1,
            );
        }
        assert forall|c: char| path_in(nodes, p.push(c)) implies cs.to_set().contains(c) by {
            assert(p.push(c) =~= p + seq![c]);
            crate::node_lemmas::lemma_walk_app(nodes, 0, p, seq![c]);
            assert(seq![c][0] == c);
            assert(child_of(nodes, j as int, c) is Some);
            crate::node_lemmas::lemma_child_search_sound(nodes[j as int].children@, c);
            let k = choose|k: int|
                0 <= k < nodes[j as int].children@.len() && nodes[j as int].children@[k] == (
                c,
                child_of(nodes, j as int, c)->0,
            );
            assert(cs[k] == c);
        }
    }
}

/// A node's subtree aggregates, read off the set of paths extending its
/// own: the node count is the number of extensions, the word count the
/// number of word extensions, and the height one more than the length of
/// the longest extension beyond the node's own path.
proof fn lemma_stats_are_extensions(nodes: Seq<Node>, p: Seq<char>, j: usize)
    requires
        wf_struct(nodes),
        walk(nodes, 0, p) == Some(j),
        j < nodes.len(),
        prefix_of(nodes, j as int) == p,
    ensures
        Set::new(|q: Seq<char>| path_in(nodes, q) && p.is_prefix_of(q)).finite(),
        sub_node_count(nodes, j as int) == Set::new(
            |q: Seq<char>| path_in(nodes, q) && p.is_prefix_of(q),
        ).len(),
        Set::new(|q: Seq<char>| word_in(nodes, q) && p.is_prefix_of(q)).finite(),
        sub_word_count(nodes, j as int) == Set::new(
            |q: Seq<char>| word_in(nodes, q) && p.is_prefix_of(q),
        ).len(),
        exists|q: Seq<char>|
            path_in(nodes, q) && p.is_prefix_of(q) && #[trigger] q.len() == sub_height(
                nodes,
                j as int,
            ) + p.len() - 1,
        forall|q: Seq<char>|
            path_in(nodes, q) && p.is_prefix_of(q) ==> #[trigger] q.len() < sub_height(
                nodes,
                j as int,
            ) + p.len(),
{
    let f = |m: int| prefix_of(nodes, m);
    let x = subtree_set(nodes, j as int);
    let y = Set::new(|q: Seq<char>| path_in(nodes, q) && p.is_prefix_of(q));
    lemma_subtree_set_finite(nodes, j as int);
    assert(injective_on(f, x)) by {
        assert forall|m1: int, m2: int|
            x.contains(m1) && x.contains(m2) && #[trigger] f(m1) == #[trigger] f(m2) implies m1
                == m2 by {
            lemma_prefix_injective(nodes, m1 as usize, m2 as usize);
        }
    }
    assert forall|m: int| x.contains(m) implies #[trigger] y.contains(f(m)) by {
        lemma_prefix_walks(nodes, m as usize);
        crate::node_lemmas::lemma_subtree_prefix(nodes, j as int, m);
    }
    assert forall|q: Seq<char>| y.contains(q) implies x.map(f).contains(q) by {
        lemma_path_iff_prefix(nodes, q);
        let m = choose|m: int| 0 <= m < nodes.len() && prefix_of(nodes, m) == q;
        assert(q =~= p + q.skip(p.len() as int));
        crate::node_lemmas::lemma_walk_app(nodes, 0, p, q.skip(p.len() as int));
        lemma_prefix_walks(nodes, m as usize);
        crate::node_lemmas::lemma_walk_lands_in_subtree(nodes, j, q.skip(p.len() as int));
        assert(x.contains(m));
        assert(f(m) == q);
    }
    assert(y =~= x.map(f));
    lemma_map_size(x, y, f);
    crate::node_lemmas::lemma_sub_node_count_is_card(nodes, j as int);

    let xw = x.filter(|m: int| nodes[m].is_word);
    let yw = Set::new(|q: Seq<char>| word_in(nodes, q) && p.is_prefix_of(q));
    assert(xw.finite()) by {
        vstd::set_lib::lemma_len_subset(xw, x);
    }
    assert(injective_on(f, xw)) by {
        assert forall|m1: int, m2: int|
            xw.contains(m1) && xw.contains(m2) && #[trigger] f(m1) == #[trigger] f(m2) implies m1
                == m2 by {
            lemma_prefix_injective(nodes, m1 as usize, m2 as usize);
        }
    }
    assert forall|m: int| xw.contains(m) implies #[trigger] yw.contains(f(m)) by {
        lemma_prefix_walks(nodes, m as usize);
        crate::node_lemmas::lemma_subtree_prefix(nodes, j as int, m);
        if m == 0 {
        } else {
            lemma_depth_prefix_len(nodes, m);
            assert(parent_link_ok(nodes, m));
        }
    }
    assert forall|q: Seq<char>| yw.contains(q) implies xw.map(f).contains(q) by {
        lemma_path_iff_prefix(nodes, q);
        let m = choose|m: int|
            0 <= m < nodes.len() && prefix_of(nodes, m) == q && nodes[m].is_word;
        assert(q =~= p + q.skip(p.len() as int));
        crate::node_lemmas::lemma_walk_app(nodes, 0, p, q.skip(p.len() as int));
        lemma_prefix_walks(nodes, m as usize);
        crate::node_lemmas::lemma_walk_lands_in_subtree(nodes, j, q.skip(p.len() as int));
        assert(xw.contains(m));
        assert(f(m) == q);
    }
    assert(yw =~= xw.map(f));
    lemma_map_size(xw, yw, f);
    lemma_sub_word_count_is_card(nodes, j as int);

    lemma_height_witness(nodes, j as int);
    let mh = choose|m: int|
        0 <= m < nodes.len() && #[trigger] in_subtree(nodes, j as int, m) && sub_height(
            nodes,
            j as int,
        ) == nodes[m].depth - nodes[j as int].depth + 1;
    lemma_depth_prefix_len(nodes, mh);
    lemma_depth_prefix_len(nodes, j as int);
    lemma_prefix_walks(nodes, mh as usize);
    crate::node_lemmas::lemma_subtree_prefix(nodes, j as int, mh);
    assert(path_in(nodes, prefix_of(nodes, mh)) && p.is_prefix_of(prefix_of(nodes, mh))
        && prefix_of(nodes, mh).len() == sub_height(nodes, j as int) + p.len() - 1);
    assert forall|q: Seq<char>|
        path_in(nodes, q) && p.is_prefix_of(q) implies #[trigger] q.len() < sub_height(
        nodes,
        j as int,
    ) + p.len() by {
        lemma_path_iff_prefix(nodes, q);
        let m = choose|m: int| 0 <= m < nodes.len() && prefix_of(nodes, m) == q;
        assert(q =~= p + q.skip(p.len() as int));
        crate::node_lemmas::lemma_walk_app(nodes, 0, p, q.skip(p.len() as int));
        lemma_prefix_walks(nodes, m as usize);
        crate::node_lemmas::lemma_walk_lands_in_subtree(nodes, j, q.skip(p.len() as int));
        lemma_height_lower(nodes, j as int, m);
        lemma_depth_prefix_len(nodes, m);
    }
}

/// Any extension of `p` held by the trie keeps the height of the node `p`
/// leads to at least as large as the extension requires.
proof fn lemma_extension_bounds_height(nodes: Seq<Node>, p: Seq<char>, j: usize, q: Seq<char>)
    requires
        wf_struct(nodes),
        walk(nodes, 0, p) == Some(j),
        j < nodes.len(),
        prefix_of(nodes, j as int) == p,
        path_in(nodes, q),
        p.is_prefix_of(q),
    ensures
        sub_height(nodes, j as int) >= q.len() - p.len() + 1,
{
    lemma_path_iff_prefix(nodes, q);
    let m = choose|m: int| 0 <= m < nodes.len() && prefix_of(nodes, m) == q;
    assert(q =~= p + q.skip(p.len() as int));
    crate::node_lemmas::lemma_walk_app(nodes, 0, p, q.skip(p.len() as int));
    lemma_prefix_walks(nodes, m as usize);
    crate::node_lemmas::lemma_walk_lands_in_subtree(nodes, j, q.skip(p.len() as int));
    lemma_height_lower(nodes, j as int, m);
    lemma_depth_prefix_len(nodes, m);
    lemma_depth_prefix_len(nodes, j as int);
}

/// The arena length is the number of distinct paths the trie holds.
proof fn lemma_len_is_path_card(nodes: Seq<Node>)
    requires
        wf_struct(nodes),
    ensures
        Set::new(|p: Seq<char>| path_in(nodes, p)).finite(),
        Set::new(|p: Seq<char>| path_in(nodes, p)).len() == nodes.len(),
{
    let ps = Seq::new(nodes.len(), |j: int| prefix_of(nodes, j));
    assert(ps.no_duplicates()) by {
        assert forall|j1: int, j2: int|
            0 <= j1 < ps.len() && 0 <= j2 < ps.len() && j1 != j2 implies ps[j1] != ps[j2] by {
            if ps[j1] == ps[j2] {
                lemma_prefix_injective(nodes, j1 as usize, j2 as usize);
            }
        }
    }
    ps.unique_seq_to_set();
    assert(ps.to_set() =~= Set::new(|p: Seq<char>| path_in(nodes, p))) by {
        assert forall|p: Seq<char>| ps.to_set().contains(p) implies path_in(nodes, p) by {
            let j = choose|j: int| 0 <= j < ps.len() && ps[j] == p;
            lemma_prefix_walks(nodes, j as usize);
        }
        assert forall|p: Seq<char>| path_in(nodes, p) implies ps.to_set().contains(p) by {
            lemma_path_iff_prefix(nodes, p);
            let j = choose|j: int| 0 <= j < nodes.len() && prefix_of(nodes, j) == p;
            assert(ps[j] == p);
        }
    }
}

/// The subtree word count at the root is the number of distinct words the
/// trie holds.
proof fn lemma_word_count_is_word_card(nodes: Seq<Node>)
    requires
        wf_struct(nodes),
    ensures
        Set::new(|p: Seq<char>| word_in(nodes, p)).finite(),
        Set::new(|p: Seq<char>| word_in(nodes, p)).len() == sub_word_count(nodes, 0),
{
    lemma_sub_word_count_is_card(nodes, 0);
    let x = subtree_set(nodes, 0).filter(|j: int| nodes[j].is_word);
    let y = Set::new(|p: Seq<char>| word_in(nodes, p));
    let f = |j: int| prefix_of(nodes, j);
    lemma_subtree_set_finite(nodes, 0);
    assert(x.finite()) by {
        vstd::set_lib::lemma_len_subset(x, subtree_set(nodes, 0));
    }
    assert(injective_on(f, x)) by {
        assert forall|j1: int, j2: int|
            x.contains(j1) && x.contains(j2) && #[trigger] f(j1) == #[trigger] f(j2) implies j1
                == j2 by {
            lemma_prefix_injective(nodes, j1 as usize, j2 as usize);
        }
    }
    assert(y =~= x.map(f)) by {
        assert forall|p: Seq<char>| y.contains(p) implies x.map(f).contains(p) by {
            lemma_path_iff_prefix(nodes, p);
            let j = choose|j: int|
                0 <= j < nodes.len() && prefix_of(nodes, j) == p && nodes[j].is_word;
            lemma_all_in_root(nodes, j);
            assert(x.contains(j));
            assert(f(j) == p);
        }
        assert forall|p: Seq<char>| x.map(f).contains(p) implies y.contains(p) by {
            let j = choose|j: int| x.contains(j) && #[trigger] f(j) == p;
            lemma_path_iff_prefix(nodes, p);
        }
    }
    lemma_map_size(x, y, f);
}

/// The root height is one more than the longest path the trie holds; shown
/// here through a witness in each direction.
proof fn lemma_height_is_max_path(nodes: Seq<Node>)
    requires
        wf_struct(nodes),
    ensures
        exists|j: int|
            0 <= j < nodes.len() && #[trigger] in_subtree(nodes, 0, j) && sub_height(nodes, 0)
                == nodes[j].depth - nodes[0].depth + 1,
        forall|j: int|
            0 <= j < nodes.len() ==> sub_height(nodes, 0) >= (#[trigger] nodes[j].depth) + 1,
{
    lemma_height_witness(nodes, 0);
    assert forall|j: int|
        0 <= j < nodes.len() implies sub_height(nodes, 0) >= (#[trigger] nodes[j].depth)
        + 1 by {
        lemma_all_in_root(nodes, j);
        lemma_height_lower(nodes, 0, j);
    }
}

} // verus!
