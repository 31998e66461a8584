//! Building a trie from a word list.
//!
//! The parallel strategy partitions the list into contiguous groups sharing
//! a first character, builds one standalone sub-trie per group, and merges
//! each sub-trie into the target; the groups are disjoint exactly when the
//! list is sorted by first character, and a collision is surfaced as
//! `MalformedPartition` rather than silently overwritten. The sequential
//! strategy inserts the words one by one. Both strategies are proved to
//! produce the same path and word sets, so a harness may run the group
//! builds on worker threads and merge the results in any order.

use vstd::prelude::*;

use crate::BaseLetterTrie;
use crate::TrieError;
use crate::base_letter_trie::roots_collide;
use crate::node::{Node, child_of, grows_by_word, is_stem_of, merges_sets, path_in, walk, word_in};

verus! {

/// The list is sorted by the first character of its entries, the order the
/// contiguous-grouping strategy needs.
pub open spec fn sorted_by_first(ws: Seq<Seq<char>>) -> bool {
    forall|i: int, j: int|
        0 <= i < j < ws.len() ==> (#[trigger] ws[i])[0] <= (#[trigger] ws[j])[0]
}

/// Some entry of the list equals `p` (empty entries never count as words).
pub open spec fn list_word_in(ws: Seq<Seq<char>>, p: Seq<char>) -> bool {
    exists|i: int| 0 <= i < ws.len() && #[trigger] ws[i] == p && p.len() > 0
}

/// `p` is a non-empty prefix of some entry of the list.
pub open spec fn list_stem_in(ws: Seq<Seq<char>>, p: Seq<char>) -> bool {
    exists|i: int| 0 <= i < ws.len() && is_stem_of(p, #[trigger] ws[i])
}

/// A trie holds exactly the words of the list `ws`: its paths are the empty
/// path and the non-empty prefixes of the list's entries, and its words are
/// the list's non-empty entries.
pub open spec fn trie_of_list(nodes: Seq<crate::node::Node>, ws: Seq<Seq<char>>) -> bool {
    &&& forall|p: Seq<char>| path_in(nodes, p) <==> p.len() == 0 || list_stem_in(ws, p)
    &&& forall|p: Seq<char>| word_in(nodes, p) <==> list_word_in(ws, p)
}

/// Total number of characters in the list.
pub open spec fn total_chars(ws: Seq<Seq<char>>) -> nat
    decreases ws.len(),
{
    if ws.len() == 0 {
        0
    } else {
        ws[0].len() + total_chars(ws.drop_first())
    }
}

proof fn lemma_total_chars_take(ws: Seq<Seq<char>>, k: int)
    requires
        0 <= k < ws.len(),
    ensures
        total_chars(ws.take(k + 1)) == total_chars(ws.take(k)) + ws[k].len(),
        total_chars(ws.take(k)) <= total_chars(ws.take(k + 1)),
    decreases k,
{
    if k == 0 {
        assert(ws.take(0) =~= Seq::<Seq<char>>::empty());
        assert(ws.take(1).drop_first() =~= Seq::<Seq<char>>::empty());
        assert(ws.take(1)[0] == ws[0]);
    } else {
        lemma_total_chars_take(ws.drop_first(), k - 1);
        assert(ws.take(k + 1)[0] == ws[0]);
        assert(ws.take(k)[0] == ws[0]);
        assert(ws.take(k + 1).drop_first() =~= ws.drop_first().take(k));
        assert(ws.take(k).drop_first() =~= ws.drop_first().take(k - 1));
        assert(ws.drop_first()[k - 1] == ws[k]);
    }
}

/// Builds a standalone trie containing exactly the words of the list.
pub fn build_sub_trie(words: &Vec<Vec<char>>) -> (t: BaseLetterTrie)
    requires
        1 + total_chars(words@.map_values(|w: Vec<char>| w@)) <= usize::MAX,
    ensures
        t.wf(),
        !t.spec_is_frozen(),
        t.spec_parent_links(),
        trie_of_list(t@, words@.map_values(|w: Vec<char>| w@)),
        t@.len() <= 1 + total_chars(words@.map_values(|w: Vec<char>| w@)),
{
    let ghost ws = words@.map_values(|w: Vec<char>| w@);
    let mut t = BaseLetterTrie::new();
    let n = words.len();
    let mut k: usize = 0;
    proof {
        assert(ws.take(0) =~= Seq::<Seq<char>>::empty());
        assert(total_chars(ws.take(0)) == 0);
    }
    while k < n
        invariant
            t.wf(),
            !t.spec_is_frozen(),
            t.spec_parent_links(),
            n == words@.len(),
            k <= n,
            ws == words@.map_values(|w: Vec<char>| w@),
            1 + total_chars(ws) <= usize::MAX,
            t@.len() <= 1 + total_chars(ws.take(k as int)),
            total_chars(ws.take(k as int)) <= total_chars(ws),
            trie_of_list(t@, ws.take(k as int)),
        decreases n - k,
    {
        let w = &words[k];
        let wlen = w.len();
        let ghost pre = t@;
        proof {
            lemma_total_chars_take(ws, k as int);
            assert(ws[k as int] == w@);
            lemma_total_chars_all_bound(ws, k as int);
            assert(t@.len() + w@.len() <= usize::MAX);
            assert(crate::base_letter_trie::suffix_from(w@, 0) =~= w@);
        }
        let r = t.add_from_vec_chars(w, wlen, 0);
        proof {
            assert(r is Ok);
            assert(ws.take(k as int + 1) =~= ws.take(k as int).push(w@));
            lemma_list_sets_push(pre, t@, ws.take(k as int), w@);
        }
        k += 1;
    }
    proof {
        assert(ws.take(n as int) =~= ws);
    }
    t
}

/// A prefix of the list never has more characters than the whole list.
proof fn lemma_total_chars_all_bound(ws: Seq<Seq<char>>, k: int)
    requires
        0 <= k < ws.len(),
    ensures
        total_chars(ws.take(k)) + ws[k].len() <= total_chars(ws),
    decreases ws.len() - k,
{
    lemma_total_chars_take(ws, k);
    if k + 1 == ws.len() {
        assert(ws.take(k + 1) =~= ws);
    } else {
        lemma_total_chars_all_bound(ws, k + 1);
    }
}

/// Adding one word to a trie that holds a list yields a trie that holds the
/// list extended by that word.
proof fn lemma_list_sets_push(
    pre: Seq<crate::node::Node>,
    post: Seq<crate::node::Node>,
    ws: Seq<Seq<char>>,
    w: Seq<char>,
)
    requires
        trie_of_list(pre, ws),
        w.len() == 0 ==> post == pre,
        w.len() > 0 ==> crate::node::grows_by_word(pre, post, w),
    ensures
        trie_of_list(post, ws.push(w)),
{
    let ws2 = ws.push(w);
    assert forall|p: Seq<char>| path_in(post, p) <==> p.len() == 0 || list_stem_in(ws2, p) by {
        if path_in(post, p) && p.len() > 0 {
            if list_stem_in(ws, p) {
                let i = choose|i: int| 0 <= i < ws.len() && is_stem_of(p, #[trigger] ws[i]);
                assert(is_stem_of(p, ws2[i]));
            } else {
                assert(w.len() > 0 && is_stem_of(p, w));
                assert(is_stem_of(p, ws2[ws.len() as int]));
            }
        }
        if p.len() > 0 && list_stem_in(ws2, p) {
            let i = choose|i: int| 0 <= i < ws2.len() && is_stem_of(p, #[trigger] ws2[i]);
            if i < ws.len() {
                assert(is_stem_of(p, ws[i]));
                assert(list_stem_in(ws, p));
            } else {
                assert(ws2[i] == w);
            }
        }
    }
    assert forall|p: Seq<char>| word_in(post, p) <==> list_word_in(ws2, p) by {
        if word_in(post, p) {
            if list_word_in(ws, p) {
                let i = choose|i: int| 0 <= i < ws.len() && #[trigger] ws[i] == p && p.len() > 0;
                assert(ws2[i] == p);
            } else {
                assert(w.len() > 0 && p == w);
                assert(ws2[ws.len() as int] == p);
            }
        }
        if list_word_in(ws2, p) {
            let i = choose|i: int| 0 <= i < ws2.len() && #[trigger] ws2[i] == p && p.len() > 0;
            if i < ws.len() {
                assert(ws[i] == p);
            } else {
                assert(ws2[i] == w);
            }
        }
    }
}

/// A one-character path exists exactly when the root has a child for that
/// character.
proof fn lemma_single_char_path(nodes: Seq<Node>, c: char)
    ensures
        path_in(nodes, seq![c]) <==> child_of(nodes, 0, c) is Some,
{
    assert(seq![c][0] == c);
    assert(seq![c].drop_first() =~= Seq::<char>::empty());
    if child_of(nodes, 0, c) is Some {
        let j = child_of(nodes, 0, c)->0;
        assert(walk(nodes, j, Seq::<char>::empty()) == Some(j));
    }
}

/// Merging two tries that hold two lists yields a trie that holds their
/// concatenation.
proof fn lemma_list_sets_merge(
    a: Seq<Node>,
    b: Seq<Node>,
    m: Seq<Node>,
    l1: Seq<Seq<char>>,
    l2: Seq<Seq<char>>,
)
    requires
        trie_of_list(a, l1),
        trie_of_list(b, l2),
        merges_sets(a, b, m),
    ensures
        trie_of_list(m, l1 + l2),
{
    let l = l1 + l2;
    assert forall|p: Seq<char>| path_in(m, p) <==> p.len() == 0 || list_stem_in(l, p) by {
        if path_in(m, p) && p.len() > 0 {
            if path_in(a, p) {
                let i = choose|i: int| 0 <= i < l1.len() && is_stem_of(p, #[trigger] l1[i]);
                assert(l[i] == l1[i]);
                assert(list_stem_in(l, p));
            } else {
                let i = choose|i: int| 0 <= i < l2.len() && is_stem_of(p, #[trigger] l2[i]);
                assert(l[l1.len() + i] == l2[i]);
                assert(list_stem_in(l, p));
            }
        }
        if p.len() > 0 && list_stem_in(l, p) {
            let i = choose|i: int| 0 <= i < l.len() && is_stem_of(p, #[trigger] l[i]);
            if i < l1.len() {
                assert(l1[i] == l[i]);
                assert(list_stem_in(l1, p));
            } else {
                assert(l2[i - l1.len()] == l[i]);
                assert(list_stem_in(l2, p));
            }
        }
    }
    assert forall|p: Seq<char>| word_in(m, p) <==> list_word_in(l, p) by {
        if word_in(m, p) {
            if word_in(a, p) {
                let i = choose|i: int| 0 <= i < l1.len() && #[trigger] l1[i] == p && p.len() > 0;
                assert(l[i] == p);
            } else {
                let i = choose|i: int| 0 <= i < l2.len() && #[trigger] l2[i] == p && p.len() > 0;
                assert(l[l1.len() + i] == p);
            }
        }
        if list_word_in(l, p) {
            let i = choose|i: int| 0 <= i < l.len() && #[trigger] l[i] == p && p.len() > 0;
            if i < l1.len() {
                assert(l1[i] == p);
            } else {
                assert(l2[i - l1.len()] == p);
            }
        }
    }
}

/// Builds a trie from a word list. With `parallel` unset, or when the
/// caller cannot assert that the list is sorted by first character, the
/// words are inserted directly. With `parallel` set on a presorted list,
/// the list is cut into contiguous groups sharing a first letter, one
/// standalone sub-trie is built per group, and the sub-tries are merged
/// into one target, exactly as a harness running the group builds on
/// worker threads would; a first-letter collision between groups means the
/// claimed sort order did not hold and aborts the whole build. All
/// strategies yield a trie holding exactly the words of the list.
pub fn build_from_words(
    words: &Vec<Vec<char>>,
    parallel: bool,
    presorted_by_first_char: bool,
) -> (r: Result<BaseLetterTrie, TrieError>)
    requires
        1 + total_chars(words@.map_values(|w: Vec<char>| w@)) <= usize::MAX,
        forall|i: int| 0 <= i < words@.len() ==> (#[trigger] words@[i])@.len() > 0,
    ensures
        ({
            let ws = words@.map_values(|w: Vec<char>| w@);
            &&& r matches Ok(t) ==> t.wf() && !t.spec_is_frozen() && t.spec_parent_links()
                && trie_of_list(t@, ws)
            &&& r is Err ==> r == Err::<BaseLetterTrie, TrieError>(TrieError::MalformedPartition)
                && parallel && presorted_by_first_char
            &&& !(parallel && presorted_by_first_char) ==> r is Ok
            &&& sorted_by_first(ws) ==> r is Ok
        }),
{
    let ghost ws = words@.map_values(|w: Vec<char>| w@);
    if !(parallel && presorted_by_first_char) {
        return Ok(build_sub_trie(words));
    }
    let n = words.len();
    let mut t = BaseLetterTrie::new();
    let mut group: Vec<Vec<char>> = Vec::new();
    let mut gchar: char = ' ';
    let ghost mut done: int = 0;
    let mut k: usize = 0;
    proof {
        lemma_total_ge_len(ws);
        assert(ws.take(0) =~= Seq::<Seq<char>>::empty());
        assert(ws.subrange(0, 0) =~= Seq::<Seq<char>>::empty());
        assert(group@.map_values(|w: Vec<char>| w@) =~= Seq::<Seq<char>>::empty());
        assert(total_chars(ws.take(0)) == 0);
    }
    while k <= n
        invariant
            parallel,
            presorted_by_first_char,
            n == ws.len(),
            n == words@.len(),
            n < usize::MAX,
            k <= n + 1,
            k == n + 1 ==> done == n,
            1 <= k && k <= n ==> done < k,
            ws == words@.map_values(|w: Vec<char>| w@),
            1 + total_chars(ws) <= usize::MAX,
            forall|i: int| 0 <= i < ws.len() ==> (#[trigger] ws[i]).len() > 0,
            t.wf(),
            !t.spec_is_frozen(),
            t.spec_parent_links(),
            0 <= done,
            done <= k,
            done <= n,
            group@.map_values(|w: Vec<char>| w@) == ws.subrange(
                done,
                vstd::math::min(k as int, n as int),
            ),
            trie_of_list(t@, ws.take(done)),
            t@.len() <= 1 + total_chars(ws.take(done)),
            total_chars(ws.take(done)) + total_chars(
                ws.subrange(done, vstd::math::min(k as int, n as int)),
            ) == total_chars(ws.take(vstd::math::min(k as int, n as int))),
            total_chars(ws.take(vstd::math::min(k as int, n as int))) <= total_chars(ws),
            forall|i: int| done <= i < vstd::math::min(k as int, n as int) ==> (#[trigger] ws[
                i
            ])[0] == gchar,
            sorted_by_first(ws) ==> (done < vstd::math::min(k as int, n as int) ==> forall|
                i: int,
            | 0 <= i < done ==> (#[trigger] ws[i])[0] != gchar),
        decreases n + 1 - k,
    {
        let boundary = if k == n {
            true
        } else {
            let wk = &words[k];
            proof {
                assert(ws[k as int] == wk@);
            }
            wk[0] != gchar
        };
        let flush = group.len() > 0 && boundary;
        if flush {
            let ghost gl = group@.map_values(|w: Vec<char>| w@);
            let ghost tpre = t@;
            proof {
                assert(gl.len() > 0);
                lemma_group_chars_bound(ws, done, vstd::math::min(k as int, n as int));
            }
            let sub = build_sub_trie(&group);
            match t.merge(sub) {
                Err(_) => {
                    proof {
                        // A collision pins a first letter shared between an
                        // already-merged word and the current group, which
                        // contradicts a sorted input.
                        assert(roots_collide(t@, sub@));
                        let c = choose|c: char|
                            child_of(t@, 0, c) is Some && #[trigger] child_of(sub@, 0, c)
                                is Some;
                        lemma_single_char_path(t@, c);
                        lemma_single_char_path(sub@, c);
                        assert(list_stem_in(ws.take(done), seq![c]));
                        let i1 = choose|i: int|
                            0 <= i < ws.take(done).len() && is_stem_of(
                                seq![c],
                                #[trigger] ws.take(done)[i],
                            );
                        assert(ws[i1][0] == c);
                        assert(list_stem_in(gl, seq![c]));
                        let i2 = choose|i: int|
                            0 <= i < gl.len() && is_stem_of(seq![c], #[trigger] gl[i]);
                        assert(gl[i2] == ws[done + i2]);
                        assert(ws[done + i2][0] == c);
                        assert(gchar == c);
                        if sorted_by_first(ws) {
                            assert(ws[i1][0] != gchar);
                            assert(false);
                        }
                    }
                    return Err(TrieError::MalformedPartition);
                },
                Ok(_) => {
                    proof {
                        lemma_list_sets_merge(tpre, sub@, t@, ws.take(done), gl);
                    }
                },
            }
            proof {
                assert(ws.take(done) + ws.subrange(done, vstd::math::min(k as int, n as int))
                    =~= ws.take(vstd::math::min(k as int, n as int)));
                done = vstd::math::min(k as int, n as int);
            }
            group = Vec::new();
            proof {
                assert(group@.map_values(|w: Vec<char>| w@) =~= ws.subrange(done, done));
            }
        }
        if k < n {
            let w = &words[k];
            proof {
                assert(ws[k as int] == w@);
            }
            let c = w[0];
            proof {
                if sorted_by_first(ws) {
                    assert forall|i: int| 0 <= i < done implies (#[trigger] ws[i])[0] != c by {
                        if ws[i][0] == c {
                            if done < vstd::math::min(k as int, n as int) {
                                // A still-open group: its character differs
                                // from c only if no flush happened, so the
                                // group continues with character c.
                                assert(ws[done][0] == gchar);
                                lemma_sorted_run(ws, i, done, k as int);
                                assert(ws[done][0] == c);
                                assert(gchar == c);
                            } else {
                                // The group was just flushed at a character
                                // change, yet the run from i would force the
                                // previous word to carry c as well.
                                assert(done == k as int);
                                assert(i < k);
                                if i < k as int - 1 {
                                    lemma_sorted_run(ws, i, k as int - 1, k as int);
                                }
                                assert(ws[k as int - 1][0] == c);
                                assert(false);
                            }
                        }
                    }
                }
            }
            gchar = c;
            let wc = w.clone();
            proof {
                assert forall|i: int| 0 <= i < w@.len() implies wc@[i] == w@[i] by {}
                assert(wc@ =~= w@);
            }
            group.push(wc);
            proof {
                assert(group@.map_values(|w2: Vec<char>| w2@) =~= ws.subrange(
                    done,
                    k as int + 1,
                ));
                lemma_total_chars_push(ws.subrange(done, k as int), w@);
                assert(ws.subrange(done, k as int).push(w@) =~= ws.subrange(done, k as int + 1));
                lemma_total_chars_take(ws, k as int);
                lemma_total_chars_prefix_bound(ws, k as int + 1);
            }
        }
        k += 1;
    }
    proof {
        assert(group@.map_values(|w: Vec<char>| w@).len() == 0);
        assert(done == n);
        assert(ws.take(done) =~= ws);
    }
    Ok(t)
}

/// Characters in a segment are bounded by the list total.
proof fn lemma_group_chars_bound(ws: Seq<Seq<char>>, a: int, b: int)
    requires
        0 <= a <= b <= ws.len(),
    ensures
        total_chars(ws.take(a)) + total_chars(ws.subrange(a, b)) <= total_chars(ws),
{
    lemma_total_chars_split(ws, a, b);
    lemma_total_chars_prefix_bound(ws, b);
}

/// A prefix never has more characters than the whole list.
proof fn lemma_total_chars_prefix_bound(ws: Seq<Seq<char>>, m: int)
    requires
        0 <= m <= ws.len(),
    ensures
        total_chars(ws.take(m)) <= total_chars(ws),
    decreases ws.len() - m,
{
    if m == ws.len() {
        assert(ws.take(m) =~= ws);
    } else {
        lemma_total_chars_take(ws, m);
        lemma_total_chars_prefix_bound(ws, m + 1);
    }
}

/// Splitting a prefix at `a` splits its character total.
proof fn lemma_total_chars_split(ws: Seq<Seq<char>>, a: int, b: int)
    requires
        0 <= a <= b <= ws.len(),
    ensures
        total_chars(ws.take(a)) + total_chars(ws.subrange(a, b)) == total_chars(ws.take(b)),
    decreases b - a,
{
    if a == b {
        assert(ws.subrange(a, a) =~= Seq::<Seq<char>>::empty());
    } else {
        lemma_total_chars_split(ws, a, b - 1);
        lemma_total_chars_push(ws.subrange(a, b - 1), ws[b - 1]);
        assert(ws.subrange(a, b - 1).push(ws[b - 1]) =~= ws.subrange(a, b));
        lemma_total_chars_take(ws, b - 1);
    }
}

/// Appending one word adds its length to the character total.
proof fn lemma_total_chars_push(ws: Seq<Seq<char>>, w: Seq<char>)
    ensures
        total_chars(ws.push(w)) == total_chars(ws) + w.len(),
    decreases ws.len(),
{
    if ws.len() == 0 {
        assert(total_chars(ws) == 0);
        assert(ws.push(w)[0] == w);
        assert(ws.push(w).drop_first() =~= Seq::<Seq<char>>::empty());
        assert(total_chars(Seq::<Seq<char>>::empty()) == 0);
    } else {
        lemma_total_chars_push(ws.drop_first(), w);
        assert(ws.push(w)[0] == ws[0]);
        assert(ws.push(w).drop_first() =~= ws.drop_first().push(w));
    }
}

/// A list of non-empty words has at least one character per word.
proof fn lemma_total_ge_len(ws: Seq<Seq<char>>)
    requires
        forall|i: int| 0 <= i < ws.len() ==> (#[trigger] ws[i]).len() > 0,
    ensures
        total_chars(ws) >= ws.len(),
    decreases ws.len(),
{
    if ws.len() > 0 {
        assert(forall|i: int|
            0 <= i < ws.drop_first().len() ==> #[trigger] ws.drop_first()[i] == ws[i + 1]);
        lemma_total_ge_len(ws.drop_first());
    }
}

/// In a list sorted by first character, equal first characters form one
/// contiguous run.
proof fn lemma_sorted_run(ws: Seq<Seq<char>>, i: int, m: int, j: int)
    requires
        sorted_by_first(ws),
        0 <= i < m <= j < ws.len(),
        ws[i][0] == ws[j][0],
    ensures
        ws[m][0] == ws[i][0],
{
    if i < m {
        assert(ws[i][0] <= ws[m][0]);
    }
    if m < j {
        assert(ws[m][0] <= ws[j][0]);
    }
    if m == j {
    }
}

} // verus!
