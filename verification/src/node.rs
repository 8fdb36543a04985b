//! One ring cell: a payload word beside a packed (safe flag, index) word.

use vstd::prelude::*;
use crate::atomics::polyfill::compare_and_swap_2;
use crate::flag_and_u63::FlagAndU63;
use crate::flag_and_u63::VALUE_MAX;
use crate::flag_and_u63::word_flag;
use crate::flag_and_u63::word_value;

verus! {

/// The payload that marks a cell as holding nothing. It cannot be enqueued.
pub const NODE_VALUE_EMPTY: u64 = 0;

/// What a ring cell stands for.
pub struct NodeView {
    /// The ring position that the cell currently represents.
    pub index: nat,
    /// Whether no consumer has overtaken the cell while it was empty.
    pub safe: bool,
    /// The payload, `NODE_VALUE_EMPTY` when there is none.
    pub value: u64,
}

/// A ring cell. The packed word comes first and the payload second, so that
/// a double-word compare-and-swap covers both.
#[derive(Clone, Copy, Debug)]
pub struct Node {
    index_and_safe: FlagAndU63,
    value: u64,
}

impl View for Node {
    type V = NodeView;

    open spec fn view(&self) -> NodeView {
        NodeView {
            index: word_value(self.words().0) as nat,
            safe: word_flag(self.words().0),
            value: self.words().1,
        }
    }
}

impl Node {
    /// The two words of the cell in memory order: packed word, then payload.
    pub closed spec fn words(self) -> (u64, u64) {
        (self.index_and_safe.repr(), self.value)
    }

    /// Builds a cell. Bit 63 of `index` is not masked off: an `index` above
    /// `VALUE_MAX` marks the cell safe by itself.
    pub fn new(index: u64, value: u64, safe: bool) -> (node: Node)
        ensures
            node@.index == index as nat % (VALUE_MAX as nat + 1),
            index <= VALUE_MAX ==> node@.index == index,
            node@.safe == (safe || index > VALUE_MAX),
            node@.value == value,
    {
        Node { index_and_safe: FlagAndU63::new(safe, index), value: value }
    }

    /// Whether the cell is marked safe.
    pub fn is_safe(&self) -> (safe: bool)
        ensures
            safe == self@.safe,
    {
        self.index_and_safe.is_flag_set()
    }

    /// The ring position that the cell currently represents.
    pub fn index(&self) -> (index: u64)
        ensures
            index == self@.index,
            index <= VALUE_MAX,
    {
        self.index_and_safe.value()
    }

    /// The safe mark and the index, taken from one read of the packed word.
    pub fn safe_and_index(&self) -> (parts: (bool, u64))
        ensures
            parts.0 == self@.safe,
            parts.1 == self@.index,
            parts.1 <= VALUE_MAX,
    {
        self.index_and_safe.flag_and_value()
    }

    /// The payload, `NODE_VALUE_EMPTY` when there is none.
    pub fn value(&self) -> (value: u64)
        ensures
            value == self@.value,
    {
        self.value
    }

    /// Marks the cell safe; index and payload stay.
    pub fn set_safe(&mut self)
        ensures
            final(self)@ == (NodeView { safe: true, ..old(self)@ }),
    {
        self.index_and_safe.set_flag();
    }

    /// Marks the cell unsafe; index and payload stay.
    pub fn set_unsafe(&mut self)
        ensures
            final(self)@ == (NodeView { safe: false, ..old(self)@ }),
    {
        self.index_and_safe.unset_flag();
    }

    /// The cell as the two words a double-word compare-and-swap works on.
    pub fn to_words(&self) -> (words: [u64; 2])
        ensures
            words@ == seq![self.words().0, self.words().1],
    {
        [self.index_and_safe.combined(), self.value]
    }

    /// The cell that two such words stand for.
    pub fn from_words(words: &[u64; 2]) -> (node: Node)
        ensures
            node.words() == (words@[0], words@[1]),
    {
        Node { index_and_safe: FlagAndU63::from_repr(words[0]), value: words[1] }
    }

    /// Double-word compare-and-swap: writes `new_node` over the cell if the
    /// cell holds exactly what `expected` holds, and says whether it did.
    pub fn compare_and_swap(&mut self, expected: &Node, new_node: &Node) -> (swapped: bool)
        ensures
            swapped == (old(self)@ == expected@),
            final(self)@ == if swapped { new_node@ } else { old(self)@ },
    {
        let mut words: [u64; 2] = self.to_words();
        let expected_words: [u64; 2] = expected.to_words();
        let new_words: [u64; 2] = new_node.to_words();
        let swapped: bool = compare_and_swap_2(&mut words, &expected_words, &new_words);
        proof {
            if old(self)@ == expected@ {
                old(self).lemma_view_determines(*expected);
            }
            if swapped {
                assert(old(self).words().0 == expected.words().0) by {
                    assert(seq![old(self).words().0, old(self).words().1][0] == expected_words@[0]);
                }
                assert(old(self).words().1 == expected.words().1) by {
                    assert(seq![old(self).words().0, old(self).words().1][1] == expected_words@[1]);
                }
                old(self).lemma_words_determine(*expected);
            }
        }
        *self = Node::from_words(&words);
        swapped
    }

    /// Cells that stand for the same thing are the same cell.
    pub proof fn lemma_view_determines(self, other: Node)
        requires
            self@ == other@,
        ensures
            self == other,
    {
        self.lemma_words_determine(other);
    }

    /// Cells made of the same two words are the same cell.
    pub proof fn lemma_words_determine(self, other: Node)
        requires
            self.words() == other.words(),
        ensures
            self == other,
    {
        self.index_and_safe.lemma_repr_determines(other.index_and_safe);
    }
}

} // verus!
