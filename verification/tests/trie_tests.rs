//! Tests for the letter trie: the small-vocabulary lookups, the large
//! cross-strategy builds, and the word membership checks, plus the concrete
//! scenarios for insertion, freezing and merging.

use letter_trie::BaseLetterTrie;
use letter_trie::FixedNode;
use letter_trie::NoParentLetterTrie;
use letter_trie::TrieError;
use letter_trie::builder::build_from_words;

fn chars_of(s: &str) -> Vec<char> {
    s.chars().collect()
}

/// Nine words whose trie has 26 nodes, 9 words and height 9.
fn small_words() -> Vec<&'static str> {
    vec![
        "an", "and", "create", "creature", "cross", "crossed", "cricket", "crib", "it",
    ]
}

fn small_tree() -> BaseLetterTrie {
    let mut t = BaseLetterTrie::new();
    for w in small_words() {
        t.insert(w).unwrap();
    }
    t
}

fn small_tree_no_parent() -> NoParentLetterTrie {
    let mut t = NoParentLetterTrie::new();
    for w in small_words() {
        t.insert(w).unwrap();
    }
    t
}

/// All three-letter words over the letters 'a'..='j': 1000 words in sorted
/// order, giving a trie with 1111 nodes and height 4.
fn large_words() -> Vec<Vec<char>> {
    let letters = ['a', 'b', 'c', 'd', 'e', 'f', 'g', 'h', 'i', 'j'];
    let mut words = Vec::new();
    for &a in &letters {
        for &b in &letters {
            for &c in &letters {
                words.push(vec![a, b, c]);
            }
        }
    }
    words
}

fn large_root() -> FixedNode {
    FixedNode {
        c: ' ',
        prefix: "".to_owned(),
        depth: 0,
        is_word: false,
        child_count: 10,
        node_count: 1111,
        word_count: 1000,
        height: 4,
    }
}

fn assert_small_root(n: &FixedNode) {
    assert_eq!(
        *n,
        FixedNode {
            c: ' ',
            prefix: "".to_owned(),
            depth: 0,
            is_word: false,
            child_count: 3,
            node_count: 26,
            word_count: 9,
            height: 9,
        }
    );
}

#[test]
fn base_letter_trie_small_root() {
    let t = small_tree();
    assert_small_root(&t.to_fixed_node());
}

#[test]
fn small_prefix_cross() {
    let t = small_tree();
    assert_eq!(
        t.find("cross"),
        Some(FixedNode {
            c: 's',
            prefix: "cross".to_owned(),
            depth: 5,
            is_word: true,
            child_count: 1,
            node_count: 3,
            word_count: 2,
            height: 3,
        })
    );
}

#[test]
fn small_prefix_creatu() {
    let t = small_tree();
    assert_eq!(
        t.find("creatu"),
        Some(FixedNode {
            c: 'u',
            prefix: "creatu".to_owned(),
            depth: 6,
            is_word: false,
            child_count: 1,
            node_count: 3,
            word_count: 1,
            height: 3,
        })
    );
}

#[test]
fn small_prefix_an() {
    let t = small_tree();
    assert_eq!(
        t.find("an"),
        Some(FixedNode {
            c: 'n',
            prefix: "an".to_owned(),
            depth: 2,
            is_word: true,
            child_count: 1,
            node_count: 2,
            word_count: 2,
            height: 2,
        })
    );
}

#[test]
fn small_prefix_c() {
    let t = small_tree();
    assert_eq!(
        t.find("c"),
        Some(FixedNode {
            c: 'c',
            prefix: "c".to_owned(),
            depth: 1,
            is_word: false,
            child_count: 1,
            node_count: 20,
            word_count: 6,
            height: 8,
        })
    );
}

#[test]
fn small_prefix_not_found() {
    let t = small_tree();
    assert_eq!(t.find("casoun"), None);
}

#[test]
fn base_letter_trie_large_read_vec_fill_root() {
    let words = large_words();
    let t = build_from_words(&words, false, false).unwrap();
    assert_eq!(t.to_fixed_node(), large_root());
}

#[test]
fn base_letter_trie_large_vec_fill_root() {
    let words = large_words();
    let mut t = BaseLetterTrie::new();
    for w in &words {
        let len = w.len();
        t.add_from_vec_chars(w, len, 0).unwrap();
    }
    assert_eq!(t.to_fixed_node(), large_root());
}

#[test]
fn base_letter_trie_large_continuous_root() {
    let words = large_words();
    let mut t = BaseLetterTrie::new();
    for w in &words {
        let s: String = w.iter().collect();
        t.insert(&s).unwrap();
    }
    assert_eq!(t.to_fixed_node(), large_root());
}

#[test]
fn base_letter_trie_large_continuous_parallel_root() {
    let words = large_words();
    let parallel = build_from_words(&words, true, true).unwrap();
    let sequential = build_from_words(&words, false, false).unwrap();
    assert_eq!(parallel.to_fixed_node(), large_root());
    assert_eq!(parallel.to_fixed_node(), sequential.to_fixed_node());
}

#[test]
fn base_letter_trie_is_word_recursive_good_words() {
    let words = large_words();
    let t = build_from_words(&words, true, true).unwrap();
    for w in &words {
        let s: String = w.iter().collect();
        assert_eq!(true, t.is_word_recursive(&s));
    }
}

#[test]
fn is_word_loop_good_words() {
    let words = large_words();
    let t = build_from_words(&words, true, true).unwrap();
    for w in &words {
        let s: String = w.iter().collect();
        assert_eq!(true, t.is_word_loop(&s));
    }
}

#[test]
fn base_letter_trie_is_word_recursive_non_words() {
    let words = large_words();
    let t = build_from_words(&words, true, true).unwrap();
    for w in &words {
        let mut s: String = w.iter().collect();
        s.push('q');
        assert_eq!(false, t.is_word_recursive(&s));
    }
}

#[test]
fn is_word_loop_non_words() {
    let words = large_words();
    let t = build_from_words(&words, true, true).unwrap();
    for w in &words {
        let mut s: String = w.iter().collect();
        s.push('q');
        assert_eq!(false, t.is_word_loop(&s));
    }
}

#[test]
fn no_parent_letter_trie_small_root() {
    let t = small_tree_no_parent();
    assert_eq!(
        t.to_fixed_node(),
        FixedNode {
            c: ' ',
            prefix: "".to_owned(),
            depth: 0,
            is_word: false,
            child_count: 3,
            node_count: 26,
            word_count: 9,
            height: 9,
        }
    );
}

#[test]
fn no_parent_letter_trie_large_read_vec_fill_root() {
    let words = large_words();
    let mut t = NoParentLetterTrie::new();
    for w in &words {
        let len = w.len();
        t.add_from_vec_chars(w, len, 0).unwrap();
    }
    let n = t.to_fixed_node();
    assert_eq!(n.node_count, 1111);
    assert_eq!(n.word_count, 1000);
    assert_eq!(n.height, 4);
    assert_eq!(n.child_count, 10);
    assert_eq!(n.prefix, "");
}

#[test]
fn no_parent_letter_trie_large_vec_fill_root() {
    let words = large_words();
    let mut t = NoParentLetterTrie::new();
    for w in &words {
        let len = w.len();
        t.add_from_vec_chars(w, len, 0).unwrap();
    }
    assert_eq!(t.node_count(), 1111);
    assert_eq!(t.word_count(), 1000);
    assert_eq!(t.height(), 4);
}

#[test]
fn no_parent_letter_trie_large_continuous_root() {
    let words = large_words();
    let mut t = NoParentLetterTrie::new();
    for w in &words {
        let s: String = w.iter().collect();
        t.insert(&s).unwrap();
    }
    assert_eq!(t.node_count(), 1111);
    assert_eq!(t.word_count(), 1000);
    assert_eq!(t.height(), 4);
}

#[test]
fn no_parent_letter_trie_large_continuous_parallel_root() {
    // The no-parent variant loads a parallel-ready list by plain insertion;
    // the result must match the base trie's partitioned build.
    let words = large_words();
    let mut t = NoParentLetterTrie::new();
    for w in &words {
        let len = w.len();
        t.add_from_vec_chars(w, len, 0).unwrap();
    }
    let base = build_from_words(&words, true, true).unwrap();
    assert_eq!(t.node_count(), base.node_count());
    assert_eq!(t.word_count(), base.word_count());
    assert_eq!(t.height(), base.height());
}

#[test]
fn no_parent_letter_trie_is_word_recursive_good_words() {
    let t = small_tree_no_parent();
    for w in small_words() {
        assert_eq!(true, t.is_word_recursive(w));
    }
}

#[test]
fn no_parent_letter_trie_is_word_recursive_non_words() {
    let t = small_tree_no_parent();
    for w in ["cre", "azure", "notfound", "crossq", "a", "i", ""] {
        assert_eq!(false, t.is_word_recursive(w));
    }
}

#[test]
fn insert_scenario() {
    // Inserting {"an", "and", "ant", "cross", "crossed"}.
    let mut t = BaseLetterTrie::new();
    for w in ["an", "and", "ant", "cross", "crossed"] {
        t.insert(w).unwrap();
    }
    let root = t.to_fixed_node();
    assert_eq!(root.child_count, 2);
    let an = t.find("an").unwrap();
    assert_eq!(an.is_word, true);
    assert_eq!(an.depth, 2);
    assert_eq!(an.node_count, 3);
    assert_eq!(an.word_count, 3);
    assert_eq!(t.find("cro").unwrap().is_word, false);
    let crossed = t.find("crossed").unwrap();
    assert_eq!(crossed.is_word, true);
    assert_eq!(crossed.depth, 7);
}

#[test]
fn empty_trie_scenario() {
    // Inserting zero words leaves the root alone.
    let t = BaseLetterTrie::new();
    assert_eq!(t.node_count(), 1);
    assert_eq!(t.word_count(), 0);
    assert_eq!(t.height(), 1);
    assert_eq!(t.find(""), None);
    assert_eq!(t.is_word_recursive(""), false);
}

#[test]
fn merge_scenario() {
    // Merging a sub-trie built from {"bat", "bit"} into a target already
    // containing {"ant"}.
    let mut target = BaseLetterTrie::new();
    target.insert("ant").unwrap();
    let mut sub = BaseLetterTrie::new();
    sub.insert("bat").unwrap();
    sub.insert("bit").unwrap();
    target.merge(sub).unwrap();
    let root = target.to_fixed_node();
    assert_eq!(root.child_count, 2);
    assert_eq!(target.word_count(), 3);
    assert_eq!(target.is_word_recursive("bat"), true);
    assert_eq!(target.is_word_recursive("bit"), true);
    assert_eq!(target.is_word_recursive("ant"), true);
    assert_eq!(target.find("ba").unwrap().prefix, "ba");
}

#[test]
fn merge_collision_is_fatal() {
    let mut target = BaseLetterTrie::new();
    target.insert("ant").unwrap();
    let mut sub = BaseLetterTrie::new();
    sub.insert("and").unwrap();
    assert_eq!(target.merge(sub), Err(TrieError::MalformedPartition));
    // The target is untouched by the failed merge.
    assert_eq!(target.word_count(), 1);
    assert_eq!(target.is_word_recursive("and"), false);
}

#[test]
fn insert_idempotent() {
    // Inserting the same word many times matches inserting it once.
    let mut once = BaseLetterTrie::new();
    once.insert("creature").unwrap();
    let mut many = BaseLetterTrie::new();
    for _ in 0..5 {
        many.insert("creature").unwrap();
    }
    assert_eq!(once.node_count(), many.node_count());
    assert_eq!(once.word_count(), many.word_count());
    assert_eq!(once.to_fixed_node(), many.to_fixed_node());
    assert_eq!(once.find("creature"), many.find("creature"));
    assert_eq!(many.node_count(), 9);
    assert_eq!(many.word_count(), 1);
}

#[test]
fn prefix_round_trip() {
    // Every inserted word is found with its exact prefix reconstructed.
    let t = small_tree();
    for w in small_words() {
        let n = t.find(w).unwrap();
        assert_eq!(n.prefix, w);
        assert_eq!(n.is_word, true);
        assert_eq!(t.is_word_recursive(w), true);
        assert_eq!(t.is_word_loop(w), true);
    }
}

#[test]
fn non_membership() {
    // Strings sharing no prefix path answer None and false, never an error.
    let t = small_tree();
    for probe in ["azure", "notfound", "q", "xyz", "bnd"] {
        assert_eq!(t.find(probe), None);
        assert_eq!(t.find_loop(probe), None);
        assert_eq!(t.is_word_recursive(probe), false);
        assert_eq!(t.is_word_loop(probe), false);
    }
}

#[test]
fn find_and_find_loop_agree() {
    let t = small_tree();
    for probe in [
        "creature", "create", "azure", "notfound", "cross", "cre", "an", "and", "c", "",
    ] {
        assert_eq!(t.find(probe), t.find_loop(probe));
    }
}

#[test]
fn freeze_unfreeze_equivalence() {
    // Live values before freezing equal the cached values while frozen and
    // the live values after unfreezing.
    let mut t = small_tree();
    let before = (t.node_count(), t.word_count(), t.height());
    t.freeze();
    assert!(t.is_frozen());
    let frozen = (t.node_count(), t.word_count(), t.height());
    assert_eq!(before, frozen);
    assert_eq!(t.find("cross"), small_tree().find("cross"));
    t.unfreeze();
    assert!(!t.is_frozen());
    let after = (t.node_count(), t.word_count(), t.height());
    assert_eq!(before, after);
}

#[test]
fn frozen_trie_rejects_insertion() {
    let mut t = small_tree();
    t.freeze();
    assert_eq!(t.insert("more"), Err(TrieError::FrozenTrieMutation));
    // Empty input is a no-op even while frozen.
    assert_eq!(t.insert("   "), Ok(()));
    t.unfreeze();
    assert_eq!(t.insert("more"), Ok(()));
    assert_eq!(t.is_word_recursive("more"), true);
}

#[test]
fn insert_normalizes_case_and_whitespace() {
    // Words are trimmed and lowercased on the way in; lookups lowercase but
    // do not trim.
    let mut t = BaseLetterTrie::new();
    t.insert("  CReature\t").unwrap();
    assert_eq!(t.is_word_recursive("creature"), true);
    assert_eq!(t.is_word_recursive("CREATURE"), true);
    let n = t.find("CreatURE").unwrap();
    assert_eq!(n.prefix, "creature");
    assert_eq!(t.word_count(), 1);
}

#[test]
fn try_insert_matches_insert() {
    let mut t = BaseLetterTrie::new();
    assert_eq!(t.try_insert("an"), Some(Ok(())));
    assert_eq!(t.is_word_recursive("an"), true);
    let mut np = NoParentLetterTrie::new();
    assert_eq!(np.try_insert("an"), Some(Ok(())));
    assert_eq!(np.is_word_recursive("an"), true);
}

#[test]
fn build_from_words_rejects_false_sort_claim() {
    // Claiming a sort order that does not hold makes the partitioned build
    // fail fast instead of silently overwriting.
    let words = vec![chars_of("ant"), chars_of("bat"), chars_of("arc")];
    assert!(matches!(
        build_from_words(&words, true, true),
        Err(TrieError::MalformedPartition)
    ));
    // The same list loads fine without the claim.
    let t = build_from_words(&words, true, false).unwrap();
    assert_eq!(t.word_count(), 3);
}

#[test]
fn counter_records_hits_and_misses() {
    let mut counter = letter_trie::CharGetCounter::new();
    counter.record(true);
    counter.record(true);
    counter.record(false);
    assert_eq!(counter.hit_count, 2);
    assert_eq!(counter.miss_count, 1);
    assert_eq!(counter.total_count(), 3);
    counter.reset();
    assert_eq!(counter.total_count(), 0);
}

#[test]
fn display_options_label() {
    let label = letter_trie::DisplayDetailOptions::get_test_label(
        &letter_trie::Dataset::TestSmallSorted,
        &letter_trie::LoadMethod::Continuous,
        &letter_trie::LetterTrieType::Base,
    );
    assert_eq!(label, "TestSmallSorted; Continuous; Base");
    let opt = letter_trie::DisplayDetailOptions::make_no_display();
    assert_eq!(opt.object_detail_level, 0);
    let opt = letter_trie::DisplayDetailOptions::make_moderate(
        &letter_trie::Dataset::TestSmallSorted,
        &letter_trie::LoadMethod::Continuous,
        &letter_trie::LetterTrieType::Base,
    );
    assert_eq!(opt.object_detail_level, 2);
    assert_eq!(letter_trie::Dataset::TestSmallSorted.is_sorted(), true);
    assert_eq!(letter_trie::Dataset::TestLargeUnsorted.is_sorted(), false);
    assert_eq!(
        letter_trie::Dataset::TestMediumSorted.filename(),
        "words_10_000_sorted.txt"
    );
}

#[test]
fn format_indent_repeats_four_spaces() {
    assert_eq!(letter_trie::format_indent(0, "x"), "x");
    assert_eq!(letter_trie::format_indent(2, "node"), "        node");
}

#[test]
fn get_words_in_traversal_order() {
    let t = small_tree();
    assert_eq!(
        t.get_words(100),
        vec![
            "an", "and", "create", "creature", "crib", "cricket", "cross", "crossed", "it",
        ]
    );
    assert_eq!(t.get_words(4), vec!["an", "and", "create", "creature"]);
    assert_eq!(t.get_words(0), Vec::<String>::new());
}

#[test]
fn iter_breadth_first_visits_level_by_level() {
    let t = small_tree();
    let mut it = t.iter_breadth_first();
    let mut seen = Vec::new();
    while let Some(n) = it.next(&t) {
        seen.push(n);
    }
    assert_eq!(seen.len(), 26);
    assert_eq!(seen[0].prefix, "");
    assert_eq!(seen[1].prefix, "a");
    assert_eq!(seen[2].prefix, "c");
    assert_eq!(seen[3].prefix, "i");
    assert_eq!(seen[4].prefix, "an");
    assert_eq!(seen[5].prefix, "cr");
    assert_eq!(seen[6].prefix, "it");
    // Restarting gives the same sequence, and two equivalent tries agree
    // node by node.
    let words = small_words();
    let mut reversed = BaseLetterTrie::new();
    for w in words.iter().rev() {
        reversed.insert(w).unwrap();
    }
    let mut it1 = t.iter_breadth_first();
    let mut it2 = reversed.iter_breadth_first();
    loop {
        match (it1.next(&t), it2.next(&reversed)) {
            (Some(a), Some(b)) => assert_eq!(a, b),
            (None, None) => break,
            _ => panic!("iterators disagree in length"),
        }
    }
}

#[test]
fn iter_prefix_walks_the_path() {
    let t = small_tree();
    let mut it = t.iter_prefix("and");
    let mut seen = Vec::new();
    while let Some(n) = it.next(&t) {
        seen.push(n.prefix);
    }
    assert_eq!(seen, vec!["", "a", "an", "and"]);
    // A prefix that dies out yields one snapshot per matched step and
    // nothing at the step whose character has no child: for "ax" only the
    // root, whose 'a' step matches.
    let mut it = t.iter_prefix("ax");
    let mut seen = Vec::new();
    while let Some(n) = it.next(&t) {
        seen.push(n.prefix);
    }
    assert_eq!(seen, vec![""]);
    // A prefix that misses at the first character yields nothing at all.
    let mut it = t.iter_prefix("x");
    assert!(it.next(&t).is_none());
}

#[test]
fn build_from_empty_list() {
    let words: Vec<Vec<char>> = Vec::new();
    let t = build_from_words(&words, true, true).unwrap();
    assert_eq!(t.node_count(), 1);
    assert_eq!(t.word_count(), 0);
    assert_eq!(t.height(), 1);
}

#[test]
fn merge_order_does_not_matter() {
    let mut ab = BaseLetterTrie::new();
    ab.insert("ant").unwrap();
    let mut sub_b = BaseLetterTrie::new();
    sub_b.insert("bat").unwrap();
    ab.merge(sub_b).unwrap();

    let mut ba = BaseLetterTrie::new();
    ba.insert("bat").unwrap();
    let mut sub_a = BaseLetterTrie::new();
    sub_a.insert("ant").unwrap();
    ba.merge(sub_a).unwrap();

    assert_eq!(ab.to_fixed_node(), ba.to_fixed_node());
    for probe in ["ant", "bat", "a", "b", "an", "ba", "x"] {
        assert_eq!(ab.find(probe), ba.find(probe));
        assert_eq!(ab.is_word(probe), ba.is_word(probe));
    }
}
