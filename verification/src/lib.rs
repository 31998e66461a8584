//! A letter trie: a tree in which each edge is labelled by one character, so
//! that every path from the root spells a prefix of the stored vocabulary.
//!
//! The trie supports letter-by-letter traversal for word games with branching
//! letter sequences: starting from the root one can follow a candidate
//! sequence one character at a time and stop as soon as the trie runs out of
//! matching nodes.
//!
//! Nodes live in a flat arena owned by the trie; child and parent links are
//! integer indices into that arena, so children are exclusively owned by the
//! tree while parent back-references stay non-owning.

use vstd::prelude::*;

pub mod base_letter_trie;
pub mod builder;
pub mod laws;
pub mod no_parent_letter_trie;
pub mod node;
pub mod node_lemmas;
pub mod text;
pub mod util;

pub use base_letter_trie::BaseLetterTrie;
pub use no_parent_letter_trie::NoParentLetterTrie;
pub use util::format_indent;

verus! {

/// Error conditions surfaced by trie operations.
#[derive(Clone, Copy, PartialEq, Eq, Structural, Debug)]
pub enum TrieError {
    /// An insertion was attempted while the trie was frozen; a frozen trie is
    /// read-only, so this is a contract violation surfaced to the caller.
    FrozenTrieMutation,
    /// A merge found the same first letter in both tries' root children, which
    /// means the partitions fed to the parallel build were not disjoint.
    MalformedPartition,
    /// The word source backing a build could not be read; reported by the
    /// surrounding harness, never produced by the trie itself.
    WordSourceUnavailable,
}

/// A concrete copy of one trie node with all owned data, used for testing and
/// debugging: every implementation and build method can describe a node in
/// this shared shape so results can be compared directly.
#[derive(Debug)]
pub struct FixedNode {
    pub c: char,
    pub prefix: String,
    pub depth: usize,
    pub is_word: bool,
    pub child_count: usize,
    pub node_count: usize,
    pub word_count: usize,
    pub height: usize,
}

impl PartialEq for FixedNode {
    fn eq(&self, other: &FixedNode) -> (r: bool) {
        self.c == other.c && self.prefix == other.prefix && self.depth == other.depth
            && self.is_word == other.is_word && self.child_count == other.child_count
            && self.node_count == other.node_count && self.word_count == other.word_count
            && self.height == other.height
    }
}

impl vstd::std_specs::cmp::PartialEqSpecImpl for FixedNode {
    open spec fn obeys_eq_spec() -> bool {
        true
    }

    open spec fn eq_spec(&self, other: &FixedNode) -> bool {
        self.c == other.c && self.prefix@ == other.prefix@ && self.depth == other.depth
            && self.is_word == other.is_word && self.child_count == other.child_count
            && self.node_count == other.node_count && self.word_count == other.word_count
            && self.height == other.height
    }
}

/// Choice of the collection of words to load into the letter trie. Whether
/// the words are sorted may affect how fast a given load strategy runs, but
/// the resulting trie is identical either way.
#[derive(Clone, Copy, PartialEq, Eq, Structural, Debug)]
pub enum Dataset {
    /// Small file with nine sorted words.
    TestSmallSorted,
    /// Small file with nine unsorted words.
    TestSmallUnsorted,
    /// Medium file with 10,000 sorted words.
    TestMediumSorted,
    /// Medium file with 10,000 unsorted words.
    TestMediumUnsorted,
    /// Large file with 584,983 sorted words.
    TestLargeSorted,
    /// Large file with 584,983 unsorted words.
    TestLargeUnsorted,
}

impl Dataset {
    /// The file name behind each dataset.
    pub open spec fn spec_filename(&self) -> Seq<char> {
        match self {
            Dataset::TestSmallSorted => "words_9_sorted.txt"@,
            Dataset::TestSmallUnsorted => "words_9_unsorted.txt"@,
            Dataset::TestMediumSorted => "words_10_000_sorted.txt"@,
            Dataset::TestMediumUnsorted => "words_10_000_unsorted.txt"@,
            Dataset::TestLargeSorted => "words_584_983_sorted.txt"@,
            Dataset::TestLargeUnsorted => "words_584_983_unsorted.txt"@,
        }
    }

    /// Get the path to the file with this dataset's words.
    pub fn filename(&self) -> (r: &'static str)
        ensures
            r@ == self.spec_filename(),
    {
        match self {
            Dataset::TestSmallSorted => "words_9_sorted.txt",
            Dataset::TestSmallUnsorted => "words_9_unsorted.txt",
            Dataset::TestMediumSorted => "words_10_000_sorted.txt",
            Dataset::TestMediumUnsorted => "words_10_000_unsorted.txt",
            Dataset::TestLargeSorted => "words_584_983_sorted.txt",
            Dataset::TestLargeUnsorted => "words_584_983_unsorted.txt",
        }
    }

    /// Whether the dataset is already in alphabetical order.
    pub fn is_sorted(&self) -> (r: bool)
        ensures
            r == (self == Dataset::TestSmallSorted || self == Dataset::TestMediumSorted || self
                == Dataset::TestLargeSorted),
    {
        match self {
            Dataset::TestSmallSorted | Dataset::TestMediumSorted | Dataset::TestLargeSorted => true,
            Dataset::TestSmallUnsorted
            | Dataset::TestMediumUnsorted
            | Dataset::TestLargeUnsorted => false,
        }
    }

    /// A short display name for build labels.
    pub fn label(&self) -> (r: &'static str)
        ensures
            r@ == self.spec_label(),
    {
        match self {
            Dataset::TestSmallSorted => "TestSmallSorted",
            Dataset::TestSmallUnsorted => "TestSmallUnsorted",
            Dataset::TestMediumSorted => "TestMediumSorted",
            Dataset::TestMediumUnsorted => "TestMediumUnsorted",
            Dataset::TestLargeSorted => "TestLargeSorted",
            Dataset::TestLargeUnsorted => "TestLargeUnsorted",
        }
    }

    /// The display name as a character sequence.
    pub open spec fn spec_label(&self) -> Seq<char> {
        match self {
            Dataset::TestSmallSorted => "TestSmallSorted"@,
            Dataset::TestSmallUnsorted => "TestSmallUnsorted"@,
            Dataset::TestMediumSorted => "TestMediumSorted"@,
            Dataset::TestMediumUnsorted => "TestMediumUnsorted"@,
            Dataset::TestLargeSorted => "TestLargeSorted"@,
            Dataset::TestLargeUnsorted => "TestLargeUnsorted"@,
        }
    }
}

/// The choice of trie variant.
#[derive(Clone, Copy, PartialEq, Eq, Structural, Debug)]
pub enum LetterTrieType {
    /// The baseline variant with parent back-references for prefix
    /// reconstruction.
    Base,
    /// The stripped-down build mode without parent links.
    NoParent,
}

impl LetterTrieType {
    /// A short display name for build labels.
    pub fn label(&self) -> (r: &'static str)
        ensures
            r@ == self.spec_label(),
    {
        match self {
            LetterTrieType::Base => "Base",
            LetterTrieType::NoParent => "NoParent",
        }
    }

    /// The display name as a character sequence.
    pub open spec fn spec_label(&self) -> Seq<char> {
        match self {
            LetterTrieType::Base => "Base"@,
            LetterTrieType::NoParent => "NoParent"@,
        }
    }
}

/// The strategy used to load words into a trie.
#[derive(Clone, Copy, PartialEq, Eq, Structural, Debug)]
pub enum LoadMethod {
    /// Read the whole source into memory, make a vector of words, then fill
    /// the trie.
    ReadVecFill,
    /// Read the source into a vector in one step, then fill the trie.
    VecFill,
    /// Fill the trie while the words are still being read.
    Continuous,
    /// Build one sub-trie per starting letter and merge each into the main
    /// trie as it completes.
    ContinuousParallel,
}

impl LoadMethod {
    /// A short display name for build labels.
    pub fn label(&self) -> (r: &'static str)
        ensures
            r@ == self.spec_label(),
    {
        match self {
            LoadMethod::ReadVecFill => "ReadVecFill",
            LoadMethod::VecFill => "VecFill",
            LoadMethod::Continuous => "Continuous",
            LoadMethod::ContinuousParallel => "ContinuousParallel",
        }
    }

    /// The display name as a character sequence.
    pub open spec fn spec_label(&self) -> Seq<char> {
        match self {
            LoadMethod::ReadVecFill => "ReadVecFill"@,
            LoadMethod::VecFill => "VecFill"@,
            LoadMethod::Continuous => "Continuous"@,
            LoadMethod::ContinuousParallel => "ContinuousParallel"@,
        }
    }
}

/// Options for the amount of detail a harness prints while building a trie.
/// The library only carries the values; all printing happens outside it.
pub struct DisplayDetailOptions {
    /// Print the elapsed time for the whole build.
    pub print_overall_time: bool,
    /// Print the elapsed time for each step of the chosen load method.
    pub print_step_time: bool,
    /// How much of the finished trie to print: 0 nothing, 1 one line for
    /// the root, 2 the root over multiple lines.
    pub object_detail_level: usize,
    /// The label to display with any debugging output.
    pub label: String,
}

impl DisplayDetailOptions {
    /// Options that display nothing.
    pub fn make_no_display() -> (r: DisplayDetailOptions)
        ensures
            !r.print_overall_time,
            !r.print_step_time,
            r.object_detail_level == 0,
            r.label@ == Seq::<char>::empty(),
    {
        DisplayDetailOptions {
            print_overall_time: false,
            print_step_time: false,
            object_detail_level: 0,
            label: String::new(),
        }
    }

    /// Options that display only the overall build time.
    pub fn make_overall_time(
        dataset: &Dataset,
        load_method: &LoadMethod,
        letter_trie_type: &LetterTrieType,
    ) -> (r: DisplayDetailOptions)
        ensures
            r.print_overall_time,
            !r.print_step_time,
            r.object_detail_level == 0,
            r.label@ == spec_test_label(*dataset, *load_method, *letter_trie_type),
    {
        DisplayDetailOptions {
            print_overall_time: true,
            print_step_time: false,
            object_detail_level: 0,
            label: Self::get_test_label(dataset, load_method, letter_trie_type),
        }
    }

    /// Options that display the overall time and the time of each step; a
    /// small trie is then shown whole, a large one by its root alone.
    pub fn make_moderate(
        dataset: &Dataset,
        load_method: &LoadMethod,
        letter_trie_type: &LetterTrieType,
    ) -> (r: DisplayDetailOptions)
        ensures
            r.print_overall_time,
            r.print_step_time,
            r.object_detail_level == (if *dataset == Dataset::TestSmallSorted || *dataset
                == Dataset::TestSmallUnsorted {
                2int
            } else {
                1int
            }),
            r.label@ == spec_test_label(*dataset, *load_method, *letter_trie_type),
    {
        let level: usize = match dataset {
            Dataset::TestSmallSorted | Dataset::TestSmallUnsorted => 2,
            _ => 1,
        };
        DisplayDetailOptions {
            print_overall_time: true,
            print_step_time: true,
            object_detail_level: level,
            label: Self::get_test_label(dataset, load_method, letter_trie_type),
        }
    }

    /// The label shown while building: the chosen dataset, load method and
    /// trie variant, separated by semicolons.
    pub fn get_test_label(
        dataset: &Dataset,
        load_method: &LoadMethod,
        letter_trie_type: &LetterTrieType,
    ) -> (r: String)
        ensures
            r@ == spec_test_label(*dataset, *load_method, *letter_trie_type),
    {
        let mut label = String::new();
        label.append(dataset.label());
        label.append("; ");
        label.append(load_method.label());
        label.append("; ");
        label.append(letter_trie_type.label());
        label
    }
}

/// The build label: dataset, load method and trie variant joined by
/// semicolons.
pub open spec fn spec_test_label(
    dataset: Dataset,
    load_method: LoadMethod,
    letter_trie_type: LetterTrieType,
) -> Seq<char> {
    dataset.spec_label() + "; "@ + load_method.spec_label() + "; "@ + letter_trie_type.spec_label()
}

/// A counter of the node hits and misses seen while building a trie: a hit
/// finds an existing child for the next letter, a miss creates one. The
/// counter is an explicit statistics object scoped to one build, with no
/// ambient global state.
#[derive(Clone, Copy, PartialEq, Eq, Structural, Debug)]
pub struct CharGetCounter {
    pub hit_count: usize,
    pub miss_count: usize,
}

impl CharGetCounter {
    /// A counter starting at zero.
    pub fn new() -> (r: CharGetCounter)
        ensures
            r.hit_count == 0,
            r.miss_count == 0,
    {
        CharGetCounter { hit_count: 0, miss_count: 0 }
    }

    /// Set the counters to zero at the start of a build.
    pub fn reset(&mut self)
        ensures
            final(self).hit_count == 0,
            final(self).miss_count == 0,
    {
        self.hit_count = 0;
        self.miss_count = 0;
    }

    /// Record a single hit or miss.
    pub fn record(&mut self, is_hit: bool)
        requires
            is_hit ==> old(self).hit_count < usize::MAX,
            !is_hit ==> old(self).miss_count < usize::MAX,
        ensures
            final(self).hit_count == old(self).hit_count + (if is_hit {
                1int
            } else {
                0int
            }),
            final(self).miss_count == old(self).miss_count + (if is_hit {
                0int
            } else {
                1int
            }),
    {
        if is_hit {
            self.hit_count = self.hit_count + 1;
        } else {
            self.miss_count = self.miss_count + 1;
        }
    }

    /// The total number of recorded lookups.
    pub fn total_count(&self) -> (r: usize)
        requires
            self.hit_count + self.miss_count <= usize::MAX,
        ensures
            r == self.hit_count + self.miss_count,
    {
        self.hit_count + self.miss_count
    }
}

} // verus!
