//! The rope: a tree of text fragments with its length, its number of leaves
//! and its depth kept at hand.

use vstd::prelude::*;
use crate::error::RopeError;
use crate::model::{
    build, ceil_log2, from_text, lemma_depth_below_leaf_count, lemma_from_text,
    leaf_level, lemma_insert_char, lemma_insert_char_shape, lemma_insert_text, lemma_rebuild,
    lemma_remove_range, Tree,
};
pub use crate::cursor::Cursor;
use crate::node::{ceil_log2_of, lemma_wf_len, shapes, Node};

verus! {

/// A text buffer held as a balanced tree of fragments.
///
/// Indices count characters. The view of a rope is its text.
#[derive(Debug)]
pub struct Rope {
    root: Node,
    length: usize,
    leaves: usize,
    depth: usize,
}

impl Clone for Rope {
    fn clone(&self) -> (res: Self)
        ensures
            res == *self,
    {
        Rope {
            root: self.root.clone(),
            length: self.length,
            leaves: self.leaves,
            depth: self.depth,
        }
    }
}

impl View for Rope {
    type V = Seq<char>;

    open spec fn view(&self) -> Seq<char> {
        self.shape().text()
    }
}

impl Rope {
    /// The tree that holds the text.
    pub closed spec fn shape(&self) -> Tree {
        self.root.shape()
    }

    /// The bookkeeping is right: every weight is the length of the text to
    /// its left, the stored length, leaf count and depth are those of the
    /// tree, and the depth is within the limit for the number of leaves.
    pub closed spec fn wf(&self) -> bool {
        &&& self.root.wf()
        &&& self.length == self.root.shape().len()
        &&& self.leaves == self.root.shape().leaf_count()
        &&& self.depth == self.root.shape().depth()
        &&& self.root.shape().balanced()
    }

    /// What well-formedness gives to every caller.
    pub proof fn lemma_wf(&self)
        requires
            self.wf(),
        ensures
            self.shape().balanced(),
            self@.len() <= usize::MAX,
            self.shape().leaf_count() <= usize::MAX,
            self.shape().depth() <= usize::MAX,
    {
    }

    /// The number of characters in the rope.
    pub fn len(&self) -> (n: usize)
        requires
            self.wf(),
        ensures
            n == self@.len(),
    {
        self.length
    }

    /// The number of leaves of the tree.
    pub fn leaf_count(&self) -> (n: usize)
        requires
            self.wf(),
        ensures
            n == self.shape().leaf_count(),
    {
        self.leaves
    }

    /// The number of internal nodes on the longest way from the root to a
    /// leaf.
    pub fn depth(&self) -> (d: usize)
        requires
            self.wf(),
        ensures
            d == self.shape().depth(),
    {
        self.depth
    }

    /// The rope for a text: one leaf for each fragment, paired up into a
    /// balanced tree.
    pub fn from_string(string: String) -> (rope: Rope)
        ensures
            rope.wf(),
            rope.shape() == from_text(string@),
            rope@ == string@,
    {
        let length = string.as_str().unicode_len();
        let (root, leaves) = Node::from_str(string.as_str());
        let depth = ceil_log2_of(leaves);
        proof {
            lemma_from_text(string@);
        }
        Rope { root, length, leaves, depth }
    }

    /// The rope over a tree that was put together by hand: the tree's
    /// bookkeeping is checked, and the tree is rebuilt as the balanced tree
    /// over its leaves. A tree in which a weight or a leaf's stored length
    /// is wrong, or whose text is too long to index, is refused.
    pub fn from_node(root: Node) -> (res: Result<Rope, RopeError>)
        ensures
            root.wf() ==> res is Ok && res->Ok_0.wf() && res->Ok_0.shape() == build(
                root.shape().leaves(),
            ) && res->Ok_0@ == root.shape().text(),
            !root.wf() ==> res == Err::<Rope, RopeError>(RopeError::InvalidStructure),
    {
        match root.measure() {
            None => Err(RopeError::InvalidStructure),
            Some(length) => {
                proof {
                    lemma_rebuild(root.shape());
                }
                let mut rope = Rope { root, length, leaves: 0, depth: 0 };
                rope.rebuild();
                Ok(rope)
            },
        }
    }

    /// The whole text.
    pub fn collect_string(&self) -> (text: String)
        requires
            self.wf(),
        ensures
            text@ == self@,
    {
        let mut text = String::new();
        self.root.collect_into(&mut text);
        assert(text@ =~= self@);
        text
    }

    /// The characters from index `start` up to, not including, index `end`.
    /// A range that ends before it starts or reaches beyond the text is
    /// refused.
    pub fn substr(&self, start: usize, end: usize) -> (res: Result<String, RopeError>)
        requires
            self.wf(),
        ensures
            start <= end <= self@.len() ==> res is Ok && res->Ok_0@ == self@.subrange(
                start as int,
                end as int,
            ),
            !(start <= end <= self@.len()) ==> res == Err::<String, RopeError>(
                RopeError::OutOfRange,
            ),
    {
        if start > end || end > self.length {
            return Err(RopeError::OutOfRange);
        }
        let mut text = String::new();
        self.root.push_range(start, end, &mut text);
        assert(text@ =~= self@.subrange(start as int, end as int));
        Ok(text)
    }

    /// The character at index `at`; there is none at or beyond the length.
    pub fn char_at(&self, at: usize) -> (res: Result<char, RopeError>)
        requires
            self.wf(),
        ensures
            at < self@.len() ==> res == Ok::<char, RopeError>(self@[at as int]),
            at >= self@.len() ==> res == Err::<char, RopeError>(RopeError::OutOfRange),
    {
        if at >= self.length {
            return Err(RopeError::OutOfRange);
        }
        Ok(self.root.char_at(at))
    }

    /// Rebuilds the tree from its leaves, whatever its depth was.
    fn rebuild(&mut self)
        requires
            old(self).root.wf(),
        ensures
            final(self).wf(),
            final(self).shape() == build(old(self).root.shape().leaves()),
            old(self).root.shape().leaf_count() <= usize::MAX,
    {
        let ghost before = self.root.shape();
        let mut root = Node::Leaf { text: String::new(), length: 0 };
        core::mem::swap(&mut self.root, &mut root);
        let mut level: Vec<Node> = Vec::new();
        root.flatten_into(&mut level);
        proof {
            lemma_wf_len(root);
            lemma_rebuild(before);
            assert(shapes(level@) =~= leaf_level(before.leaves()));
        }
        self.leaves = level.len();
        self.depth = ceil_log2_of(self.leaves);
        self.root = Node::merge(level);
        self.length = self.root.len();
    }

    /// Takes over the leaf count and depth of the tree as it stands, and
    /// rebuilds the tree where it is deeper than its leaf count allows.
    fn settle(&mut self, leaves: u128, depth: u128)
        requires
            old(self).root.wf(),
            leaves == old(self).root.shape().leaf_count(),
            depth == old(self).root.shape().depth(),
        ensures
            final(self).wf(),
            final(self).shape() == old(self).root.shape().settle(),
    {
        proof {
            lemma_depth_below_leaf_count(self.root.shape());
            lemma_wf_len(self.root);
        }
        if leaves > usize::MAX as u128 {
            self.rebuild();
        } else {
            let limit: u128 = 2 * (ceil_log2_of(leaves as usize) as u128);
            if depth > limit {
                self.rebuild();
            } else {
                self.length = self.root.len();
                self.leaves = leaves as usize;
                self.depth = depth as usize;
            }
        }
    }

    /// Joins two ropes: the receiver's tree becomes the left child of a new
    /// root, `next_rope`'s tree the right child. Where that leaves the tree
    /// deeper than its number of leaves allows, it is rebuilt from its
    /// leaves.
    pub fn append(&mut self, next_rope: Rope)
        requires
            old(self).wf(),
            next_rope.wf(),
            old(self)@.len() + next_rope@.len() <= usize::MAX,
        ensures
            final(self).wf(),
            final(self).shape() == Tree::join(old(self).shape(), next_rope.shape()).settle(),
            final(self)@ == old(self)@ + next_rope@,
            final(self)@.len() == old(self)@.len() + next_rope@.len(),
    {
        let leaves: u128 = self.leaves as u128 + next_rope.leaves as u128;
        let depth: u128 = 1 + (if self.depth >= next_rope.depth {
            self.depth
        } else {
            next_rope.depth
        }) as u128;
        let mut left = Node::Leaf { text: String::new(), length: 0 };
        core::mem::swap(&mut self.root, &mut left);
        self.root = Node::join(left, next_rope.root);
        proof {
            lemma_rebuild(self.root.shape());
        }
        self.settle(leaves, depth);
    }

    /// Inserts one character at index `index`, in the leaf that owns the
    /// index; `index == len()` appends. An index beyond the length is refused
    /// and the rope stays as it is.
    pub fn insert_char_at(&mut self, to_insert: char, index: usize) -> (res: Result<
        (),
        RopeError,
    >)
        requires
            old(self).wf(),
            old(self)@.len() < usize::MAX,
        ensures
            final(self).wf(),
            index <= old(self)@.len() ==> res is Ok && final(self).shape() == old(
                self,
            ).shape().insert_char(to_insert, index as int) && final(self)@ == old(self)@.insert(
                index as int,
                to_insert,
            ) && final(self)@.len() == old(self)@.len() + 1,
            index > old(self)@.len() ==> res == Err::<(), RopeError>(RopeError::OutOfRange)
                && *final(self) == *old(self),
    {
        if index > self.length {
            return Err(RopeError::OutOfRange);
        }
        proof {
            lemma_insert_char(self.root.shape(), to_insert, index as int);
            lemma_insert_char_shape(self.root.shape(), to_insert, index as int);
        }
        self.root.insert_char(to_insert, index);
        self.length = self.length + 1;
        Ok(())
    }

    /// Inserts a text at index `index`: the leaf that owns the index gives
    /// way to the trees of its text before the index, of the inserted text
    /// and of its text from the index on. `index == len()` appends. Where
    /// that leaves the tree deeper than its number of leaves allows, it is
    /// rebuilt from its leaves. An index beyond the length is refused and the
    /// rope stays as it is.
    pub fn insert_string_at(&mut self, to_insert: &str, index: usize) -> (res: Result<
        (),
        RopeError,
    >)
        requires
            old(self).wf(),
            old(self)@.len() + to_insert@.len() <= usize::MAX,
        ensures
            final(self).wf(),
            index <= old(self)@.len() ==> res is Ok && final(self).shape() == old(
                self,
            ).shape().insert_text(to_insert@, index as int).settle() && final(self)@ == old(
                self,
            )@.take(index as int) + to_insert@ + old(self)@.skip(index as int) && final(self)@.len()
                == old(self)@.len() + to_insert@.len(),
            index > old(self)@.len() ==> res == Err::<(), RopeError>(RopeError::OutOfRange)
                && *final(self) == *old(self),
    {
        if index > self.length {
            return Err(RopeError::OutOfRange);
        }
        let count = to_insert.unicode_len();
        proof {
            lemma_insert_text(self.root.shape(), to_insert@, index as int);
        }
        let (added, reach) = self.root.insert_text(to_insert, count, index);
        let leaves: u128 = self.leaves as u128 + added;
        let depth: u128 = if self.depth as u128 >= reach {
            self.depth as u128
        } else {
            reach
        };
        proof {
            lemma_rebuild(self.root.shape());
        }
        self.settle(leaves, depth);
        Ok(())
    }

    /// Takes out the characters from index `start` up to, not including,
    /// index `end`. Every leaf loses what it holds of the range; the tree
    /// keeps its leaves and its depth. A range that ends before it starts or
    /// reaches beyond the text is refused and the rope stays as it is.
    pub fn delete_range(&mut self, start: usize, end: usize) -> (res: Result<(), RopeError>)
        requires
            old(self).wf(),
        ensures
            final(self).wf(),
            start <= end <= old(self)@.len() ==> res is Ok && final(self).shape() == old(
                self,
            ).shape().remove_range(start as int, end as int) && final(self)@ == old(self)@.take(
                start as int,
            ) + old(self)@.skip(end as int) && final(self)@.len() == old(self)@.len() - (end
                - start),
            !(start <= end <= old(self)@.len()) ==> res == Err::<(), RopeError>(
                RopeError::OutOfRange,
            ) && *final(self) == *old(self),
    {
        if start > end || end > self.length {
            return Err(RopeError::OutOfRange);
        }
        proof {
            lemma_remove_range(self.root.shape(), start as int, end as int);
        }
        self.root.remove_range(start, end);
        self.length = self.length - (end - start);
        Ok(())
    }

    /// Rebuilds the tree as the balanced tree over its leaves. The text and
    /// the fragments stay as they are.
    pub fn rebalance(&mut self)
        requires
            old(self).wf(),
        ensures
            final(self).wf(),
            final(self).shape() == build(old(self).shape().leaves()),
            final(self).shape().leaves() == old(self).shape().leaves(),
            final(self).shape().depth() == ceil_log2(old(self).shape().leaf_count()),
            final(self)@ == old(self)@,
    {
        proof {
            lemma_rebuild(self.root.shape());
        }
        self.rebuild();
    }
}

} // verus!
