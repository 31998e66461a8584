//! Lemmas about the arena model: soundness and completeness of the child
//! lookup, the correspondence between `walk` and `prefix_of`, and the
//! counting argument that ties `sub_node_count` to the arena length.

use vstd::prelude::*;

use crate::node::{
    Node, child_entries_ok, child_of, child_search, children_sorted, in_subtree,
    kids_set, parent_link_ok, path_in, prefix_of, root_ok, same_shape, sub_height,
    sub_height_from, sub_node_count, sub_node_count_from, sub_word_count, sub_word_count_from,
    subtree_set, walk, wf_struct, word_in,
};
use vstd::set_lib::{lemma_int_range, lemma_len_subset, lemma_set_disjoint_lens, set_int_range};

verus! {

/// A hit of the child lookup really is an entry of the children list.
pub proof fn lemma_child_search_sound(ch: Seq<(char, usize)>, c: char)
    ensures
        child_search(ch, c) matches Some(j) ==> exists|k: int|
            0 <= k < ch.len() && ch[k] == (c, j),
    decreases ch.len(),
{
    if ch.len() == 0 {
    } else if ch[0].0 == c {
        assert(ch[0] == (c, ch[0].1));
    } else {
        lemma_child_search_sound(ch.drop_first(), c);
        if child_search(ch, c) is Some {
            let j = child_search(ch, c)->0;
            let k = choose|k: int| 0 <= k < ch.drop_first().len() && ch.drop_first()[k] == (c, j);
            assert(ch[k + 1] == (c, j));
        }
    }
}

/// Every entry of the children list is found by the child lookup, provided
/// the list is strictly sorted by character.
pub proof fn lemma_child_search_complete(ch: Seq<(char, usize)>, c: char, k: int)
    requires
        forall|k1: int, k2: int| 0 <= k1 < k2 < ch.len() ==> (#[trigger] ch[k1]).0 < (
        #[trigger] ch[k2]).0,
        0 <= k < ch.len(),
        ch[k].0 == c,
    ensures
        child_search(ch, c) == Some(ch[k].1),
    decreases ch.len(),
{
    if k == 0 {
    } else {
        assert(ch[0].0 < ch[k].0);
        assert(ch.drop_first()[k - 1] == ch[k]);
        assert(forall|k1: int, k2: int|
            0 <= k1 < k2 < ch.drop_first().len() ==> (#[trigger] ch.drop_first()[k1]).0 < (
            #[trigger] ch.drop_first()[k2]).0) by {
            assert(forall|k1: int| 0 <= k1 < ch.drop_first().len() ==> #[trigger] ch.drop_first()[
                k1] == ch[k1 + 1]);
        }
        lemma_child_search_complete(ch.drop_first(), c, k - 1);
    }
}

/// A miss of the child lookup means no entry carries the character.
pub proof fn lemma_child_search_none(ch: Seq<(char, usize)>, c: char)
    ensures
        child_search(ch, c) is None <==> forall|k: int|
            0 <= k < ch.len() ==> (#[trigger] ch[k]).0 != c,
    decreases ch.len(),
{
    if ch.len() == 0 {
    } else {
        lemma_child_search_none(ch.drop_first(), c);
        assert(forall|k: int| 0 <= k < ch.drop_first().len() ==> #[trigger] ch.drop_first()[k]
            == ch[k + 1]);
        if ch[0].0 != c && child_search(ch.drop_first(), c) is None {
            assert forall|k: int| 0 <= k < ch.len() implies (#[trigger] ch[k]).0 != c by {
                if k > 0 {
                    assert(ch.drop_first()[k - 1] == ch[k]);
                }
            }
        }
    }
}

/// Walking a concatenation first walks the left part, then the right part
/// from wherever the left part ended.
pub proof fn lemma_walk_app(nodes: Seq<Node>, i: usize, p: Seq<char>, q: Seq<char>)
    ensures
        walk(nodes, i, p + q) == (match walk(nodes, i, p) {
            Some(j) => walk(nodes, j, q),
            None => None::<usize>,
        }),
    decreases p.len(),
{
    if p.len() == 0 {
        assert(p + q =~= q);
        assert(walk(nodes, i, p) == Some(i));
    } else {
        assert((p + q)[0] == p[0]);
        assert((p + q).drop_first() =~= p.drop_first() + q);
        match child_of(nodes, i as int, p[0]) {
            None => {},
            Some(j) => {
                lemma_walk_app(nodes, j, p.drop_first(), q);
            },
        }
    }
}

/// Walking from `i` along `p` lands on a node in range whose prefix extends
/// `i`'s prefix by exactly `p`.
pub proof fn lemma_walk_prefix(nodes: Seq<Node>, i: usize, p: Seq<char>)
    requires
        wf_struct(nodes),
        i < nodes.len(),
    ensures
        walk(nodes, i, p) matches Some(j) ==> i <= j < nodes.len() && prefix_of(nodes, j as int)
            == prefix_of(nodes, i as int) + p,
    decreases p.len(),
{
    if p.len() == 0 {
        assert(prefix_of(nodes, i as int) + p =~= prefix_of(nodes, i as int));
    } else {
        match child_of(nodes, i as int, p[0]) {
            None => {},
            Some(m) => {
                lemma_child_search_sound(nodes[i as int].children@, p[0]);
                let k = choose|k: int|
                    0 <= k < nodes[i as int].children@.len() && nodes[i as int].children@[k] == (
                    p[0],
                    m,
                );
                assert(child_entries_ok(nodes, i as int));
                assert(nodes[i as int].children@[k].1 == m);
                assert(i < m < nodes.len());
                assert(nodes[m as int].parent == Some(i));
                assert(nodes[m as int].c == p[0]);
                assert(prefix_of(nodes, m as int) == prefix_of(nodes, i as int).push(p[0]));
                lemma_walk_prefix(nodes, m, p.drop_first());
                if walk(nodes, m, p.drop_first()) is Some {
                    let j = walk(nodes, m, p.drop_first())->0;
                    assert(prefix_of(nodes, j as int) == prefix_of(nodes, m as int)
                        + p.drop_first());
                    assert(prefix_of(nodes, i as int).push(p[0]) + p.drop_first() =~= prefix_of(
                        nodes,
                        i as int,
                    ) + p);
                }
            },
        }
    }
}

/// Walking from the root along a node's own prefix reaches that node.
pub proof fn lemma_prefix_walks(nodes: Seq<Node>, j: usize)
    requires
        wf_struct(nodes),
        j < nodes.len(),
    ensures
        walk(nodes, 0, prefix_of(nodes, j as int)) == Some(j),
    decreases j,
{
    if j == 0 {
        assert(prefix_of(nodes, 0) =~= Seq::<char>::empty());
    } else {
        assert(parent_link_ok(nodes, j as int));
        let p = nodes[j as int].parent->0;
        lemma_prefix_walks(nodes, p);
        let c = nodes[j as int].c;
        let k = choose|k: int|
            0 <= k < nodes[p as int].children@.len() && #[trigger] nodes[p as int].children@[k]
                == (c, j);
        assert(children_sorted(nodes, p as int));
        lemma_child_search_complete(nodes[p as int].children@, c, k);
        assert(child_of(nodes, p as int, c) == Some(j));
        assert(prefix_of(nodes, j as int) == prefix_of(nodes, p as int).push(c));
        assert(prefix_of(nodes, p as int).push(c) =~= prefix_of(nodes, p as int) + seq![c]);
        lemma_walk_app(nodes, 0, prefix_of(nodes, p as int), seq![c]);
        assert(walk(nodes, p, seq![c]) == walk(nodes, j, seq![c].drop_first()));
        assert(seq![c].drop_first() =~= Seq::<char>::empty());
    }
}

/// Two distinct nodes never spell the same prefix.
pub proof fn lemma_prefix_injective(nodes: Seq<Node>, j1: usize, j2: usize)
    requires
        wf_struct(nodes),
        j1 < nodes.len(),
        j2 < nodes.len(),
        prefix_of(nodes, j1 as int) == prefix_of(nodes, j2 as int),
    ensures
        j1 == j2,
{
    lemma_prefix_walks(nodes, j1);
    lemma_prefix_walks(nodes, j2);
}

/// A sequence labels a node exactly when it is some node's prefix, and it is
/// a word exactly when it is the prefix of a word-end node.
pub proof fn lemma_path_iff_prefix(nodes: Seq<Node>, p: Seq<char>)
    requires
        wf_struct(nodes),
    ensures
        path_in(nodes, p) <==> exists|j: int|
            0 <= j < nodes.len() && prefix_of(nodes, j) == p,
        word_in(nodes, p) <==> exists|j: int|
            0 <= j < nodes.len() && prefix_of(nodes, j) == p && nodes[j].is_word,
{
    lemma_walk_prefix(nodes, 0, p);
    if walk(nodes, 0, p) is Some {
        let j = walk(nodes, 0, p)->0;
        assert(prefix_of(nodes, 0) + p =~= p);
        assert(prefix_of(nodes, j as int) == p);
        if p.len() == 0 {
            lemma_prefix_injective(nodes, j, 0);
            assert(!nodes[0].is_word);
        }
    }
    if exists|j: int| 0 <= j < nodes.len() && prefix_of(nodes, j) == p {
        let j = choose|j: int| 0 <= j < nodes.len() && prefix_of(nodes, j) == p;
        lemma_prefix_walks(nodes, j as usize);
    }
    if exists|j: int| 0 <= j < nodes.len() && prefix_of(nodes, j) == p && nodes[j].is_word {
        let j = choose|j: int|
            0 <= j < nodes.len() && prefix_of(nodes, j) == p && nodes[j].is_word;
        lemma_prefix_walks(nodes, j as usize);
        if p.len() == 0 {
            lemma_prefix_injective(nodes, j as usize, 0);
        }
    }
}

/// Extending a resolved path by one child step resolves to that child.
pub proof fn lemma_walk_step(nodes: Seq<Node>, q: Seq<char>, cur: usize, c: char, nxt: usize)
    requires
        walk(nodes, 0, q) == Some(cur),
        child_of(nodes, cur as int, c) == Some(nxt),
    ensures
        walk(nodes, 0, q.push(c)) == Some(nxt),
{
    assert(q.push(c) =~= q + seq![c]);
    lemma_walk_app(nodes, 0, q, seq![c]);
    assert(seq![c].drop_first() =~= Seq::<char>::empty());
    assert(seq![c][0] == c);
    assert(walk(nodes, nxt, Seq::<char>::empty()) == Some(nxt));
    assert(walk(nodes, cur, seq![c]) == Some(nxt));
}

/// Every leading part of a resolved path is itself a resolved path.
pub proof fn lemma_path_take(nodes: Seq<Node>, p: Seq<char>, m: int)
    requires
        walk(nodes, 0, p) is Some,
        0 <= m <= p.len(),
    ensures
        walk(nodes, 0, p.take(m)) is Some,
{
    assert(p =~= p.take(m) + p.skip(m));
    lemma_walk_app(nodes, 0, p.take(m), p.skip(m));
}

/// A node's stored depth equals the length of the prefix it spells, and is
/// bounded by its own index.
pub proof fn lemma_depth_prefix_len(nodes: Seq<Node>, j: int)
    requires
        wf_struct(nodes),
        0 <= j < nodes.len(),
    ensures
        nodes[j].depth == prefix_of(nodes, j).len(),
        nodes[j].depth <= j,
    decreases j,
{
    if j == 0 {
        assert(prefix_of(nodes, 0) =~= Seq::<char>::empty());
    } else {
        assert(parent_link_ok(nodes, j));
        let p = nodes[j].parent->0 as int;
        lemma_depth_prefix_len(nodes, p);
        let k = choose|k: int|
            0 <= k < nodes[p].children@.len() && #[trigger] nodes[p].children@[k] == (
            nodes[j].c,
            j as usize,
        );
        assert(child_entries_ok(nodes, p));
        assert(nodes[j].depth == nodes[p].depth + 1);
    }
}

/// A subtree only contains nodes with indices at or above its root's.
pub proof fn lemma_in_subtree_le(nodes: Seq<Node>, i: int, j: int)
    requires
        wf_struct(nodes),
        0 <= j < nodes.len(),
        in_subtree(nodes, i, j),
    ensures
        i <= j,
    decreases j,
{
    if i != j {
        assert(parent_link_ok(nodes, j));
        lemma_in_subtree_le(nodes, i, nodes[j].parent->0 as int);
    }
}

/// Every node is in the root's subtree.
pub proof fn lemma_all_in_root(nodes: Seq<Node>, j: int)
    requires
        wf_struct(nodes),
        0 <= j < nodes.len(),
    ensures
        in_subtree(nodes, 0, j),
    decreases j,
{
    if j != 0 {
        assert(parent_link_ok(nodes, j));
        lemma_all_in_root(nodes, nodes[j].parent->0 as int);
    }
}

/// Two subtrees containing a common node are nested one way or the other.
pub proof fn lemma_subtree_linear(nodes: Seq<Node>, a: int, b: int, x: int)
    requires
        wf_struct(nodes),
        0 <= x < nodes.len(),
        in_subtree(nodes, a, x),
        in_subtree(nodes, b, x),
    ensures
        in_subtree(nodes, a, b) || in_subtree(nodes, b, a),
    decreases x,
{
    if x == a {
        assert(in_subtree(nodes, b, a));
    } else if x == b {
        assert(in_subtree(nodes, a, b));
    } else {
        assert(parent_link_ok(nodes, x));
        lemma_subtree_linear(nodes, a, b, nodes[x].parent->0 as int);
    }
}

/// The subtrees of two distinct children of the same node share no node.
pub proof fn lemma_sibling_subtrees_disjoint(nodes: Seq<Node>, i: int, j1: int, j2: int, x: int)
    requires
        wf_struct(nodes),
        0 <= x < nodes.len(),
        0 <= i,
        i < j1 < nodes.len(),
        i < j2 < nodes.len(),
        nodes[j1].parent == Some(i as usize),
        nodes[j2].parent == Some(i as usize),
        j1 != j2,
        in_subtree(nodes, j1, x),
    ensures
        !in_subtree(nodes, j2, x),
{
    if in_subtree(nodes, j2, x) {
        lemma_subtree_linear(nodes, j1, j2, x);
        if in_subtree(nodes, j1, j2) {
            assert(in_subtree(nodes, j1, i));
            lemma_in_subtree_le(nodes, j1, i);
        } else {
            assert(in_subtree(nodes, j2, j1));
            assert(in_subtree(nodes, j2, i));
            lemma_in_subtree_le(nodes, j2, i);
        }
    }
}

/// Any strict descendant of `i` lies in the subtree of one of `i`'s
/// children.
pub proof fn lemma_subtree_step(nodes: Seq<Node>, i: int, x: int)
    requires
        wf_struct(nodes),
        0 <= i < nodes.len(),
        0 <= x < nodes.len(),
        in_subtree(nodes, i, x),
        x != i,
    ensures
        exists|k: int|
            0 <= k < nodes[i].children@.len() && in_subtree(
                nodes,
                #[trigger] nodes[i].children@[k].1 as int,
                x,
            ),
    decreases x,
{
    assert(parent_link_ok(nodes, x));
    let p = nodes[x].parent->0 as int;
    if p == i {
        let k = choose|k: int|
            0 <= k < nodes[i].children@.len() && #[trigger] nodes[i].children@[k] == (
            nodes[x].c,
            x as usize,
        );
        assert(in_subtree(nodes, nodes[i].children@[k].1 as int, x));
    } else {
        lemma_subtree_step(nodes, i, p);
        let k = choose|k: int|
            0 <= k < nodes[i].children@.len() && in_subtree(
                nodes,
                #[trigger] nodes[i].children@[k].1 as int,
                p,
            );
        assert(in_subtree(nodes, nodes[i].children@[k].1 as int, x));
    }
}

/// A node in the subtree of a child of `i` is in the subtree of `i`.
pub proof fn lemma_subtree_extend(nodes: Seq<Node>, i: int, y: int, x: int)
    requires
        wf_struct(nodes),
        0 <= x < nodes.len(),
        0 <= y < nodes.len(),
        nodes[y].parent == Some(i as usize),
        0 <= i < y,
        in_subtree(nodes, y, x),
    ensures
        in_subtree(nodes, i, x),
    decreases x,
{
    if x == y {
        assert(in_subtree(nodes, i, i));
        assert(in_subtree(nodes, i, y));
    } else {
        assert(parent_link_ok(nodes, x));
        lemma_subtree_extend(nodes, i, y, nodes[x].parent->0 as int);
    }
}

/// Within a subtree, the subtree root's prefix starts every member's
/// prefix.
pub proof fn lemma_subtree_prefix(nodes: Seq<Node>, i: int, j: int)
    requires
        wf_struct(nodes),
        0 <= i < nodes.len(),
        0 <= j < nodes.len(),
        in_subtree(nodes, i, j),
    ensures
        prefix_of(nodes, i).is_prefix_of(prefix_of(nodes, j)),
    decreases j,
{
    if i == j {
        assert(prefix_of(nodes, i).subrange(0, prefix_of(nodes, i).len() as int) =~= prefix_of(
            nodes,
            i,
        ));
    } else {
        assert(parent_link_ok(nodes, j));
        let p = nodes[j].parent->0 as int;
        lemma_subtree_prefix(nodes, i, p);
        assert(prefix_of(nodes, j) == prefix_of(nodes, p).push(nodes[j].c));
        let pi = prefix_of(nodes, i);
        assert(prefix_of(nodes, j).subrange(0, pi.len() as int) =~= prefix_of(nodes, p).subrange(
            0,
            pi.len() as int,
        ));
    }
}

/// A walk that starts inside a subtree stays inside it.
pub proof fn lemma_walk_lands_in_subtree(nodes: Seq<Node>, i: usize, q: Seq<char>)
    requires
        wf_struct(nodes),
        i < nodes.len(),
    ensures
        walk(nodes, i, q) matches Some(j) ==> j < nodes.len() && in_subtree(
            nodes,
            i as int,
            j as int,
        ),
    decreases q.len(),
{
    if q.len() == 0 {
        assert(in_subtree(nodes, i as int, i as int));
    } else {
        match child_of(nodes, i as int, q[0]) {
            None => {},
            Some(m) => {
                lemma_child_search_sound(nodes[i as int].children@, q[0]);
                let k = choose|k: int|
                    0 <= k < nodes[i as int].children@.len() && nodes[i as int].children@[k] == (
                    q[0],
                    m,
                );
                assert(child_entries_ok(nodes, i as int));
                assert(nodes[i as int].children@[k].1 == m);
                assert(i < m < nodes.len());
                assert(nodes[m as int].parent == Some(i));
                lemma_walk_lands_in_subtree(nodes, m, q.drop_first());
                if walk(nodes, m, q.drop_first()) is Some {
                    let j = walk(nodes, m, q.drop_first())->0;
                    lemma_subtree_extend(nodes, i as int, m as int, j as int);
                }
            },
        }
    }
}

/// The subtree sets are finite, with at most `nodes.len() - i` members.
pub proof fn lemma_subtree_set_finite(nodes: Seq<Node>, i: int)
    requires
        wf_struct(nodes),
        0 <= i < nodes.len(),
    ensures
        subtree_set(nodes, i).finite(),
        subtree_set(nodes, i).len() <= nodes.len() - i,
{
    lemma_int_range(i, nodes.len() as int);
    assert forall|x: int| subtree_set(nodes, i).contains(x) implies set_int_range(
        i,
        nodes.len() as int,
    ).contains(x) by {
        lemma_in_subtree_le(nodes, i, x);
    }
    lemma_len_subset(subtree_set(nodes, i), set_int_range(i, nodes.len() as int));
}

/// The kids sets are finite.
pub proof fn lemma_kids_set_finite(nodes: Seq<Node>, i: int, k: int)
    requires
        wf_struct(nodes),
        0 <= i < nodes.len(),
    ensures
        kids_set(nodes, i, k).finite(),
        kids_set(nodes, i, k).len() <= nodes.len(),
{
    lemma_int_range(0, nodes.len() as int);
    assert(kids_set(nodes, i, k).subset_of(set_int_range(0, nodes.len() as int)));
    lemma_len_subset(kids_set(nodes, i, k), set_int_range(0, nodes.len() as int));
}

/// The subtree node count of `i` counts exactly the members of `i`'s
/// subtree set.
pub proof fn lemma_sub_node_count_is_card(nodes: Seq<Node>, i: int)
    requires
        wf_struct(nodes),
        0 <= i < nodes.len(),
    ensures
        sub_node_count(nodes, i) == subtree_set(nodes, i).len(),
    decreases nodes.len() - i, nodes[i].children@.len() + 1,
{
    lemma_sub_node_count_from_is_card(nodes, i, 0);
    let s = subtree_set(nodes, i);
    let ks = kids_set(nodes, i, 0);
    assert forall|x: int| s.contains(x) && x != i implies ks.contains(x) by {
        lemma_subtree_step(nodes, i, x);
    }
    assert forall|x: int| ks.contains(x) implies s.contains(x) && x != i by {
        let k2 = choose|k2: int|
            0 <= k2 < nodes[i].children@.len() && in_subtree(
                nodes,
                #[trigger] nodes[i].children@[k2].1 as int,
                x,
            );
        assert(child_entries_ok(nodes, i));
        let y = nodes[i].children@[k2].1 as int;
        lemma_subtree_extend(nodes, i, y, x);
        lemma_in_subtree_le(nodes, y, x);
    }
    assert(s =~= ks.insert(i));
    lemma_kids_set_finite(nodes, i, 0);
    assert(!ks.contains(i));
    assert(s.len() == ks.len() + 1);
}

/// The children sum from position `k` counts exactly the members of the
/// corresponding kids set.
pub proof fn lemma_sub_node_count_from_is_card(nodes: Seq<Node>, i: int, k: int)
    requires
        wf_struct(nodes),
        0 <= i < nodes.len(),
        0 <= k <= nodes[i].children@.len(),
    ensures
        sub_node_count_from(nodes, i, k) == kids_set(nodes, i, k).len(),
    decreases nodes.len() - i, nodes[i].children@.len() - k,
{
    if k == nodes[i].children@.len() {
        assert(kids_set(nodes, i, k) =~= Set::<int>::empty());
    } else {
        assert(child_entries_ok(nodes, i));
        let j = nodes[i].children@[k].1 as int;
        lemma_sub_node_count_is_card(nodes, j);
        lemma_sub_node_count_from_is_card(nodes, i, k + 1);
        let sj = subtree_set(nodes, j);
        let rest = kids_set(nodes, i, k + 1);
        assert forall|x: int| kids_set(nodes, i, k).contains(x) implies (sj + rest).contains(
            x,
        ) by {
            let k2 = choose|k2: int|
                k <= k2 < nodes[i].children@.len() && in_subtree(
                    nodes,
                    #[trigger] nodes[i].children@[k2].1 as int,
                    x,
                );
            if k2 == k {
                assert(sj.contains(x));
            } else {
                assert(rest.contains(x));
            }
        }
        assert forall|x: int| (sj + rest).contains(x) implies kids_set(nodes, i, k).contains(
            x,
        ) by {
            if sj.contains(x) {
                assert(in_subtree(nodes, nodes[i].children@[k].1 as int, x));
            } else {
                let k2 = choose|k2: int|
                    k + 1 <= k2 < nodes[i].children@.len() && in_subtree(
                        nodes,
                        #[trigger] nodes[i].children@[k2].1 as int,
                        x,
                    );
                assert(in_subtree(nodes, nodes[i].children@[k2].1 as int, x));
            }
        }
        assert(kids_set(nodes, i, k) =~= sj + rest);
        assert forall|x: int| sj.contains(x) implies !rest.contains(x) by {
            if rest.contains(x) {
                let k2 = choose|k2: int|
                    k + 1 <= k2 < nodes[i].children@.len() && in_subtree(
                        nodes,
                        #[trigger] nodes[i].children@[k2].1 as int,
                        x,
                    );
                let j2 = nodes[i].children@[k2].1 as int;
                assert(children_sorted(nodes, i));
                assert(nodes[i].children@[k].0 < nodes[i].children@[k2].0);
                assert(j != j2);
                lemma_sibling_subtrees_disjoint(nodes, i, j, j2, x);
            }
        }
        assert(sj.disjoint(rest));
        lemma_subtree_set_finite(nodes, j);
        lemma_kids_set_finite(nodes, i, k + 1);
        lemma_set_disjoint_lens(sj, rest);
    }
}

/// The whole arena is one tree: the root's subtree count equals the arena
/// length.
pub proof fn lemma_node_count_total(nodes: Seq<Node>)
    requires
        wf_struct(nodes),
    ensures
        sub_node_count(nodes, 0) == nodes.len(),
{
    lemma_sub_node_count_is_card(nodes, 0);
    lemma_int_range(0, nodes.len() as int);
    assert forall|x: int| set_int_range(0, nodes.len() as int).contains(x) implies subtree_set(
        nodes,
        0,
    ).contains(x) by {
        lemma_all_in_root(nodes, x);
    }
    assert(subtree_set(nodes, 0) =~= set_int_range(0, nodes.len() as int));
}

/// Subtree node counts are bounded by the arena length.
pub proof fn lemma_sub_node_count_bound(nodes: Seq<Node>, i: int)
    requires
        wf_struct(nodes),
        0 <= i < nodes.len(),
    ensures
        1 <= sub_node_count(nodes, i) <= nodes.len() - i,
{
    lemma_sub_node_count_is_card(nodes, i);
    lemma_subtree_set_finite(nodes, i);
    assert(subtree_set(nodes, i).contains(i));
    if subtree_set(nodes, i).len() == 0 {
        assert(subtree_set(nodes, i) =~= Set::<int>::empty());
    }
}

/// The subtree word count of `i` counts exactly the word-end members of
/// `i`'s subtree set.
pub proof fn lemma_sub_word_count_is_card(nodes: Seq<Node>, i: int)
    requires
        wf_struct(nodes),
        0 <= i < nodes.len(),
    ensures
        sub_word_count(nodes, i) == subtree_set(nodes, i).filter(
            |j: int| nodes[j].is_word,
        ).len(),
    decreases nodes.len() - i, nodes[i].children@.len() + 1,
{
    lemma_sub_word_count_from_is_card(nodes, i, 0);
    let s = subtree_set(nodes, i).filter(|j: int| nodes[j].is_word);
    let ks = kids_set(nodes, i, 0).filter(|j: int| nodes[j].is_word);
    assert forall|x: int| s.contains(x) && x != i implies ks.contains(x) by {
        lemma_subtree_step(nodes, i, x);
    }
    assert forall|x: int| ks.contains(x) implies s.contains(x) && x != i by {
        let k2 = choose|k2: int|
            0 <= k2 < nodes[i].children@.len() && in_subtree(
                nodes,
                #[trigger] nodes[i].children@[k2].1 as int,
                x,
            );
        assert(child_entries_ok(nodes, i));
        let y = nodes[i].children@[k2].1 as int;
        lemma_subtree_extend(nodes, i, y, x);
        lemma_in_subtree_le(nodes, y, x);
    }
    lemma_kids_set_finite(nodes, i, 0);
    lemma_len_subset(ks, kids_set(nodes, i, 0));
    if nodes[i].is_word {
        assert(s =~= ks.insert(i));
        assert(!ks.contains(i));
        assert(s.len() == ks.len() + 1);
    } else {
        assert(s =~= ks);
    }
}

/// The children word sums from position `k` count exactly the word-end
/// members of the corresponding kids set.
pub proof fn lemma_sub_word_count_from_is_card(nodes: Seq<Node>, i: int, k: int)
    requires
        wf_struct(nodes),
        0 <= i < nodes.len(),
        0 <= k <= nodes[i].children@.len(),
    ensures
        sub_word_count_from(nodes, i, k) == kids_set(nodes, i, k).filter(
            |j: int| nodes[j].is_word,
        ).len(),
    decreases nodes.len() - i, nodes[i].children@.len() - k,
{
    if k == nodes[i].children@.len() {
        assert(kids_set(nodes, i, k).filter(|j: int| nodes[j].is_word) =~= Set::<int>::empty());
    } else {
        assert(child_entries_ok(nodes, i));
        let j = nodes[i].children@[k].1 as int;
        lemma_sub_word_count_is_card(nodes, j);
        lemma_sub_word_count_from_is_card(nodes, i, k + 1);
        let f = |j2: int| nodes[j2].is_word;
        let sj = subtree_set(nodes, j).filter(f);
        let rest = kids_set(nodes, i, k + 1).filter(f);
        assert forall|x: int| kids_set(nodes, i, k).filter(f).contains(x) implies (sj
            + rest).contains(x) by {
            let k2 = choose|k2: int|
                k <= k2 < nodes[i].children@.len() && in_subtree(
                    nodes,
                    #[trigger] nodes[i].children@[k2].1 as int,
                    x,
                );
            if k2 == k {
                assert(sj.contains(x));
            } else {
                assert(rest.contains(x));
            }
        }
        assert forall|x: int| (sj + rest).contains(x) implies kids_set(nodes, i, k).filter(
            f,
        ).contains(x) by {
            if sj.contains(x) {
                assert(in_subtree(nodes, nodes[i].children@[k].1 as int, x));
            } else {
                let k2 = choose|k2: int|
                    k + 1 <= k2 < nodes[i].children@.len() && in_subtree(
                        nodes,
                        #[trigger] nodes[i].children@[k2].1 as int,
                        x,
                    );
                assert(in_subtree(nodes, nodes[i].children@[k2].1 as int, x));
            }
        }
        assert(kids_set(nodes, i, k).filter(f) =~= sj + rest);
        assert forall|x: int| sj.contains(x) implies !rest.contains(x) by {
            if rest.contains(x) {
                let k2 = choose|k2: int|
                    k + 1 <= k2 < nodes[i].children@.len() && in_subtree(
                        nodes,
                        #[trigger] nodes[i].children@[k2].1 as int,
                        x,
                    );
                let j2 = nodes[i].children@[k2].1 as int;
                assert(children_sorted(nodes, i));
                assert(nodes[i].children@[k].0 < nodes[i].children@[k2].0);
                assert(j != j2);
                lemma_sibling_subtrees_disjoint(nodes, i, j, j2, x);
            }
        }
        assert(sj.disjoint(rest));
        lemma_subtree_set_finite(nodes, j);
        lemma_len_subset(sj, subtree_set(nodes, j));
        lemma_kids_set_finite(nodes, i, k + 1);
        lemma_len_subset(rest, kids_set(nodes, i, k + 1));
        lemma_set_disjoint_lens(sj, rest);
    }
}

/// Every node of a subtree stays within the subtree's height: its depth
/// exceeds the subtree root's by less than the height.
pub proof fn lemma_height_lower(nodes: Seq<Node>, i: int, j: int)
    requires
        wf_struct(nodes),
        0 <= i < nodes.len(),
        0 <= j < nodes.len(),
        in_subtree(nodes, i, j),
    ensures
        sub_height(nodes, i) >= nodes[j].depth - nodes[i].depth + 1,
    decreases nodes.len() - i,
{
    if j == i {
    } else {
        lemma_subtree_step(nodes, i, j);
        let k = choose|k: int|
            0 <= k < nodes[i].children@.len() && in_subtree(
                nodes,
                #[trigger] nodes[i].children@[k].1 as int,
                j,
            );
        assert(child_entries_ok(nodes, i));
        let y = nodes[i].children@[k].1 as int;
        lemma_height_lower(nodes, y, j);
        lemma_height_from_ge(nodes, i, 0, k);
    }
}

/// The running maximum over children from position `k` dominates every
/// child at or past `k`.
pub proof fn lemma_height_from_ge(nodes: Seq<Node>, i: int, k: int, k2: int)
    requires
        wf_struct(nodes),
        0 <= i < nodes.len(),
        0 <= k <= k2 < nodes[i].children@.len(),
    ensures
        sub_height_from(nodes, i, k) >= sub_height(nodes, nodes[i].children@[k2].1 as int),
    decreases k2 - k,
{
    assert(child_entries_ok(nodes, i));
    if k < k2 {
        lemma_height_from_ge(nodes, i, k + 1, k2);
    }
}

/// Some node of the subtree realizes the subtree's height.
pub proof fn lemma_height_witness(nodes: Seq<Node>, i: int)
    requires
        wf_struct(nodes),
        0 <= i < nodes.len(),
    ensures
        exists|j: int|
            0 <= j < nodes.len() && #[trigger] in_subtree(nodes, i, j) && sub_height(nodes, i)
                == nodes[j].depth - nodes[i].depth + 1,
    decreases nodes.len() - i, nodes[i].children@.len() + 1,
{
    if nodes[i].children@.len() == 0 {
        assert(sub_height_from(nodes, i, 0) == 0);
        assert(in_subtree(nodes, i, i));
        assert(sub_height(nodes, i) == nodes[i].depth - nodes[i].depth + 1);
    } else {
        let k = lemma_height_from_witness(nodes, i, 0);
        assert(child_entries_ok(nodes, i));
        let y = nodes[i].children@[k].1 as int;
        lemma_height_witness(nodes, y);
        let j = choose|j: int|
            0 <= j < nodes.len() && #[trigger] in_subtree(nodes, y, j) && sub_height(nodes, y)
                == nodes[j].depth - nodes[y].depth + 1;
        lemma_subtree_extend(nodes, i, y, j);
        assert(nodes[y].depth == nodes[i].depth + 1);
        assert(sub_height(nodes, i) == 1 + sub_height(nodes, y));
        assert(in_subtree(nodes, i, j));
    }
}

/// Some child at or past position `k` realizes the running maximum, as long
/// as children remain.
pub proof fn lemma_height_from_witness(nodes: Seq<Node>, i: int, k: int) -> (kw: int)
    requires
        wf_struct(nodes),
        0 <= i < nodes.len(),
        0 <= k < nodes[i].children@.len(),
    ensures
        k <= kw < nodes[i].children@.len(),
        sub_height_from(nodes, i, k) == sub_height(nodes, nodes[i].children@[kw].1 as int),
    decreases nodes[i].children@.len() - k,
{
    assert(child_entries_ok(nodes, i));
    if k + 1 == nodes[i].children@.len() {
        assert(sub_height_from(nodes, i, k + 1) == 0);
        lemma_sub_height_le_node(nodes, nodes[i].children@[k].1 as int);
        k
    } else {
        let kw = lemma_height_from_witness(nodes, i, k + 1);
        lemma_sub_height_le_node(nodes, nodes[i].children@[k].1 as int);
        if sub_height(nodes, nodes[i].children@[k].1 as int) >= sub_height_from(
            nodes,
            i,
            k + 1,
        ) {
            k
        } else {
            kw
        }
    }
}

/// A subtree holds at most as many words as nodes.
pub proof fn lemma_sub_word_le_node(nodes: Seq<Node>, i: int)
    requires
        wf_struct(nodes),
        0 <= i < nodes.len(),
    ensures
        sub_word_count(nodes, i) <= sub_node_count(nodes, i),
    decreases nodes.len() - i, nodes[i].children@.len() + 1,
{
    lemma_sub_word_from_le_node(nodes, i, 0);
}

/// Children sums: at most as many words as nodes.
pub proof fn lemma_sub_word_from_le_node(nodes: Seq<Node>, i: int, k: int)
    requires
        wf_struct(nodes),
        0 <= i < nodes.len(),
        0 <= k <= nodes[i].children@.len(),
    ensures
        sub_word_count_from(nodes, i, k) <= sub_node_count_from(nodes, i, k),
    decreases nodes.len() - i, nodes[i].children@.len() - k,
{
    if k < nodes[i].children@.len() {
        assert(child_entries_ok(nodes, i));
        lemma_sub_word_le_node(nodes, nodes[i].children@[k].1 as int);
        lemma_sub_word_from_le_node(nodes, i, k + 1);
    }
}

/// A subtree's height is at most its node count.
pub proof fn lemma_sub_height_le_node(nodes: Seq<Node>, i: int)
    requires
        wf_struct(nodes),
        0 <= i < nodes.len(),
    ensures
        1 <= sub_height(nodes, i) <= sub_node_count(nodes, i),
    decreases nodes.len() - i, nodes[i].children@.len() + 1,
{
    lemma_sub_height_from_le_node(nodes, i, 0);
}

/// Children maxima: the tallest child subtree has at most as many levels as
/// the children together have nodes.
pub proof fn lemma_sub_height_from_le_node(nodes: Seq<Node>, i: int, k: int)
    requires
        wf_struct(nodes),
        0 <= i < nodes.len(),
        0 <= k <= nodes[i].children@.len(),
    ensures
        sub_height_from(nodes, i, k) <= sub_node_count_from(nodes, i, k),
    decreases nodes.len() - i, nodes[i].children@.len() - k,
{
    if k < nodes[i].children@.len() {
        assert(child_entries_ok(nodes, i));
        lemma_sub_height_le_node(nodes, nodes[i].children@[k].1 as int);
        lemma_sub_height_from_le_node(nodes, i, k + 1);
    }
}

/// Structural well-formedness only looks at the tree, never at caches or
/// frozen flags.
pub proof fn lemma_same_shape_wf_struct(a: Seq<Node>, b: Seq<Node>)
    requires
        wf_struct(a),
        same_shape(a, b),
        root_ok(b),
    ensures
        wf_struct(b),
{
    assert forall|i: int| 0 <= i < b.len() implies #[trigger] child_entries_ok(b, i) by {
        assert(child_entries_ok(a, i));
        assert forall|k: int| 0 <= k < b[i].children@.len() implies {
            let e = #[trigger] b[i].children@[k];
            &&& i < e.1 < b.len()
            &&& b[e.1 as int].c == e.0
            &&& b[e.1 as int].parent == Some(i as usize)
            &&& b[e.1 as int].depth == b[i].depth + 1
        } by {
            assert(b[i].children@[k] == a[i].children@[k]);
            let e = a[i].children@[k];
            assert(e.1 < a.len());
            assert(b[e.1 as int].c == a[e.1 as int].c);
        }
    }
    assert forall|i: int| 0 <= i < b.len() implies #[trigger] children_sorted(b, i) by {
        assert(children_sorted(a, i));
        assert forall|k1: int, k2: int| 0 <= k1 < k2 < b[i].children@.len() implies (
        #[trigger] b[i].children@[k1]).0 < (#[trigger] b[i].children@[k2]).0 by {
            assert(b[i].children@[k1] == a[i].children@[k1]);
            assert(b[i].children@[k2] == a[i].children@[k2]);
        }
    }
    assert forall|j: int| 1 <= j < b.len() implies #[trigger] parent_link_ok(b, j) by {
        assert(parent_link_ok(a, j));
        let p = a[j].parent->0 as int;
        let k = choose|k: int|
            0 <= k < a[p].children@.len() && #[trigger] a[p].children@[k] == (a[j].c, j as usize);
        assert(b[p].children@[k] == (b[j].c, j as usize));
    }
}

/// Walks only look at children lists, so arenas of the same shape resolve
/// every path alike.
pub proof fn lemma_same_shape_walk(a: Seq<Node>, b: Seq<Node>, i: usize, p: Seq<char>)
    requires
        wf_struct(a),
        same_shape(a, b),
        i < a.len(),
    ensures
        walk(b, i, p) == walk(a, i, p),
    decreases p.len(),
{
    if p.len() > 0 {
        assert(b[i as int].children == a[i as int].children);
        match child_of(a, i as int, p[0]) {
            None => {},
            Some(j) => {
                lemma_child_search_sound(a[i as int].children@, p[0]);
                let k = choose|k: int|
                    0 <= k < a[i as int].children@.len() && a[i as int].children@[k] == (p[0], j);
                assert(child_entries_ok(a, i as int));
                assert(a[i as int].children@[k].1 == j);
                assert(i < j < a.len());
                lemma_same_shape_walk(a, b, j, p.drop_first());
            },
        }
    }
}

/// The subtree aggregates only look at children lists and word flags, so
/// arenas of the same shape agree on all of them.
pub proof fn lemma_same_shape_sub(a: Seq<Node>, b: Seq<Node>, i: int)
    requires
        wf_struct(a),
        wf_struct(b),
        same_shape(a, b),
        0 <= i < a.len(),
    ensures
        sub_node_count(b, i) == sub_node_count(a, i),
        sub_word_count(b, i) == sub_word_count(a, i),
        sub_height(b, i) == sub_height(a, i),
    decreases a.len() - i, a[i].children@.len() + 1,
{
    lemma_same_shape_sub_from(a, b, i, 0);
}

/// Children sums and maxima agree between arenas of the same shape.
pub proof fn lemma_same_shape_sub_from(a: Seq<Node>, b: Seq<Node>, i: int, k: int)
    requires
        wf_struct(a),
        wf_struct(b),
        same_shape(a, b),
        0 <= i < a.len(),
        0 <= k <= a[i].children@.len(),
    ensures
        sub_node_count_from(b, i, k) == sub_node_count_from(a, i, k),
        sub_word_count_from(b, i, k) == sub_word_count_from(a, i, k),
        sub_height_from(b, i, k) == sub_height_from(a, i, k),
    decreases a.len() - i, a[i].children@.len() - k,
{
    assert(b[i].children == a[i].children);
    if k < a[i].children@.len() {
        assert(child_entries_ok(a, i));
        lemma_same_shape_sub(a, b, a[i].children@[k].1 as int);
        lemma_same_shape_sub_from(a, b, i, k + 1);
    }
}

/// Prefixes only depend on the `parent` and `c` fields, so any arena that
/// keeps those fields of the first `n` nodes intact keeps their prefixes.
pub proof fn lemma_prefix_stable(nodes1: Seq<Node>, nodes2: Seq<Node>, n: int, j: int)
    requires
        wf_struct(nodes1),
        wf_struct(nodes2),
        n <= nodes1.len(),
        n <= nodes2.len(),
        forall|m: int|
            0 <= m < n ==> (#[trigger] nodes2[m]).parent == nodes1[m].parent && nodes2[m].c
                == nodes1[m].c,
        0 <= j < n,
    ensures
        prefix_of(nodes2, j) == prefix_of(nodes1, j),
    decreases j,
{
    if j == 0 {
    } else {
        assert(parent_link_ok(nodes1, j));
        let p = nodes1[j].parent->0 as int;
        lemma_prefix_stable(nodes1, nodes2, n, p);
    }
}

} // verus!
