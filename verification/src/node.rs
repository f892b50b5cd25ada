//! The executable tree: leaves own their fragments as strings, internal
//! nodes store the length of their left subtree.

use vstd::prelude::*;
use crate::model::{
    ceil_log2, fragments, from_text, leaf_level, lemma_fragments_count, lemma_fragments_flatten,
    lemma_from_text, lemma_leaf_level_leaves, lemma_level_prefix, lemma_level_push,
    lemma_pair_up_leaves, lemma_remove_nothing, lemma_remove_range, lemma_split_leaf,
    lemma_text_of_leaves, level_text, max_nat, merge, pair_up, split_leaf, Tree,
};

verus! {

/// A node of a rope. A leaf stores its fragment and the fragment's length in
/// characters; an internal node stores its weight, the length of the text
/// under its left child.
#[derive(Debug)]
pub enum Node {
    Leaf { text: String, length: usize },
    Internal { weight: usize, left: Box<Node>, right: Box<Node> },
}

impl Clone for Node {
    fn clone(&self) -> (res: Self)
        ensures
            res == *self,
        decreases self,
    {
        match self {
            Node::Leaf { text, length } => Node::Leaf { text: text.clone(), length: *length },
            Node::Internal { weight, left, right } => Node::Internal {
                weight: *weight,
                left: Box::new((&**left).clone()),
                right: Box::new((&**right).clone()),
            },
        }
    }
}

/// The shapes of a row of nodes.
pub open spec fn shapes(nodes: Seq<Node>) -> Seq<Tree> {
    Seq::new(nodes.len(), |i: int| nodes[i].shape())
}

/// Every node of a row is well-formed.
pub open spec fn all_wf(nodes: Seq<Node>) -> bool {
    forall|i: int| 0 <= i < nodes.len() ==> (#[trigger] nodes[i]).wf()
}

/// Appends one character to a string. Trusted: the body is the standard
/// library's `String::push`, and the contract says what its documentation
/// says, that the character is added at the end and nothing else changes.
#[verifier::external_body]
fn push_char(s: &mut String, c: char)
    ensures
        final(s)@ == old(s)@.push(c),
{
    s.push(c)
}

/// The least `k` with `2^k >= n`, and 0 for `n == 0`.
pub fn ceil_log2_of(n: usize) -> (k: usize)
    ensures
        k == ceil_log2(n as nat),
        k <= n,
{
    let mut k: usize = 0;
    let mut m: usize = n;
    while m > 1
        invariant
            k + ceil_log2(m as nat) == ceil_log2(n as nat),
            k + m <= n || (k == 0 && m == n),
        decreases m,
    {
        m = m / 2 + m % 2;
        k = k + 1;
    }
    k
}

impl Node {
    /// The tree that this node stands for.
    pub open spec fn shape(self) -> Tree
        decreases self,
    {
        match self {
            Node::Leaf { text, length } => Tree::Leaf { text: text@ },
            Node::Internal { weight, left, right } => Tree::join(left.shape(), right.shape()),
        }
    }

    /// Every stored length is the length of the text it speaks of, and the
    /// whole text has a length that fits the machine's index type.
    pub open spec fn wf(self) -> bool
        decreases self,
    {
        match self {
            Node::Leaf { text, length } => length == text@.len(),
            Node::Internal { weight, left, right } => {
                &&& left.wf()
                &&& right.wf()
                &&& weight == left.shape().len()
                &&& left.shape().len() + right.shape().len() <= usize::MAX
            },
        }
    }

    /// The length of the text under this node.
    pub(crate) fn len(&self) -> (n: usize)
        requires
            self.wf(),
        ensures
            n == self.shape().len(),
        decreases self,
    {
        match self {
            Node::Leaf { text, length } => *length,
            Node::Internal { weight, left, right } => *weight + right.len(),
        }
    }

    /// The length of the text under this node where all bookkeeping in the
    /// tree is right, and nothing where some stored length is not.
    pub fn measure(&self) -> (res: Option<usize>)
        ensures
            res is Some <==> self.wf(),
            res matches Some(n) ==> n == self.shape().len(),
        decreases self,
    {
        match self {
            Node::Leaf { text, length } => {
                if text.as_str().unicode_len() == *length {
                    Some(*length)
                } else {
                    None
                }
            },
            Node::Internal { weight, left, right } => {
                match left.measure() {
                    None => None,
                    Some(below_left) => match right.measure() {
                        None => None,
                        Some(below_right) => {
                            if below_left != *weight {
                                None
                            } else {
                                below_left.checked_add(below_right)
                            }
                        },
                    },
                }
            },
        }
    }

    /// A leaf that holds `text`.
    pub(crate) fn leaf(text: String) -> (node: Node)
        ensures
            node.wf(),
            node.shape() == (Tree::Leaf { text: text@ }),
    {
        let length = text.as_str().unicode_len();
        Node::Leaf { text, length }
    }

    /// An internal node over two subtrees.
    pub(crate) fn join(left: Node, right: Node) -> (node: Node)
        requires
            left.wf(),
            right.wf(),
            left.shape().len() + right.shape().len() <= usize::MAX,
        ensures
            node.wf(),
            node.shape() == Tree::join(left.shape(), right.shape()),
    {
        let weight = left.len();
        Node::Internal { weight, left: Box::new(left), right: Box::new(right) }
    }

    /// The leaves for the fragments of `s`.
    pub(crate) fn leaf_level_of(s: &str) -> (level: Vec<Node>)
        ensures
            all_wf(level@),
            shapes(level@) == leaf_level(fragments(s@)),
            level_text(shapes(level@)) == s@,
    {
        let mut done: Vec<Node> = Vec::new();
        let mut current = String::new();
        for c in it: s.chars()
            invariant
                it.seq() == s@,
                all_wf(done@),
                done.len() + 1 == fragments(s@.take(it.index())).len(),
                forall|i: int|
                    0 <= i < done.len() ==> (#[trigger] done[i]).shape() == (Tree::Leaf {
                        text: fragments(s@.take(it.index()))[i],
                    }),
                current@ == fragments(s@.take(it.index())).last(),
        {
            proof {
                assert(s@.take(it.index() + 1).drop_last() =~= s@.take(it.index()));
                assert(s@.take(it.index() + 1).last() == c);
            }
            if c == ' ' {
                done.push(Node::leaf(current));
                current = String::new();
            }
            push_char(&mut current, c);
        }
        assert(s@.take(s@.len() as int) =~= s@);
        done.push(Node::leaf(current));
        proof {
            assert(shapes(done@) =~= leaf_level(fragments(s@)));
            lemma_leaf_level_leaves(fragments(s@));
            lemma_fragments_flatten(s@);
        }
        done
    }

    /// One round of pairing over a row of nodes.
    pub(crate) fn pair_up(level: Vec<Node>) -> (next: Vec<Node>)
        requires
            all_wf(level@),
            level_text(shapes(level@)).len() <= usize::MAX,
        ensures
            all_wf(next@),
            shapes(next@) == pair_up(shapes(level@)),
    {
        let ghost row = shapes(level@);
        let mut next: Vec<Node> = Vec::new();
        let mut pending: Option<Node> = None;
        for node in it: level
            invariant
                it.seq() == level@,
                row == shapes(level@),
                all_wf(level@),
                level_text(row).len() <= usize::MAX,
                all_wf(next@),
                it.index() == 2 * next.len() + if pending is Some { 1int } else { 0 },
                pending matches Some(held) ==> held == level@[it.index() - 1] && held.wf(),
                forall|j: int|
                    0 <= j < next.len() ==> (#[trigger] next[j]).shape() == pair_up(row)[j],
                level_text(shapes(next@)).len() + (match pending {
                    Some(held) => held.shape().len(),
                    None => 0nat,
                }) == level_text(row.take(it.index())).len(),
        {
            proof {
                let i = it.index();
                assert(node == level@[i]);
                assert(node.wf());
                assert(row.take(i + 1) =~= row.take(i).push(row[i]));
                lemma_level_push(row.take(i), row[i]);
                lemma_level_prefix(row, i + 1);
            }
            match pending.take() {
                None => {
                    pending = Some(node);
                },
                Some(held) => {
                    let joined = Node::join(held, node);
                    proof {
                        lemma_level_push(shapes(next@), joined.shape());
                        assert(shapes(next@.push(joined)) =~= shapes(next@).push(joined.shape()));
                    }
                    next.push(joined);
                },
            }
        }
        match pending {
            None => {},
            Some(held) => {
                next.push(held);
            },
        }
        assert(shapes(next@) =~= pair_up(row));
        next
    }

    /// Pairs the nodes of a row round after round until one is left.
    pub(crate) fn merge(level: Vec<Node>) -> (node: Node)
        requires
            level.len() >= 1,
            all_wf(level@),
            level_text(shapes(level@)).len() <= usize::MAX,
        ensures
            node.wf(),
            node.shape() == merge(shapes(level@)),
    {
        let ghost first = shapes(level@);
        let mut level = level;
        while level.len() > 1
            invariant
                level.len() >= 1,
                all_wf(level@),
                level_text(shapes(level@)).len() <= usize::MAX,
                merge(shapes(level@)) == merge(first),
            decreases level.len(),
        {
            proof {
                lemma_pair_up_leaves(shapes(level@));
            }
            level = Node::pair_up(level);
        }
        let ghost last = level@;
        let node = level.pop().unwrap();
        assert(node == last[0]);
        node
    }

    /// The balanced tree for a text, and the number of its leaves.
    pub(crate) fn from_str(s: &str) -> (built: (Node, usize))
        requires
            s@.len() <= usize::MAX,
        ensures
            built.0.wf(),
            built.0.shape() == from_text(s@),
            built.1 == fragments(s@).len(),
    {
        let level = Node::leaf_level_of(s);
        let count = level.len();
        proof {
            lemma_fragments_count(s@);
        }
        (Node::merge(level), count)
    }

    /// Moves the leaves of the tree, left to right, to the end of `out`.
    pub(crate) fn flatten_into(self, out: &mut Vec<Node>)
        requires
            self.wf(),
            all_wf(old(out)@),
        ensures
            all_wf(final(out)@),
            shapes(final(out)@) == shapes(old(out)@) + leaf_level(self.shape().leaves()),
        decreases self,
    {
        match self {
            Node::Leaf { text, length } => {
                out.push(Node::Leaf { text, length });
                assert(shapes(out@) =~= shapes(old(out)@) + leaf_level(self.shape().leaves()));
            },
            Node::Internal { weight, left, right } => {
                let ghost mid = out@;
                (*left).flatten_into(out);
                (*right).flatten_into(out);
                assert(shapes(out@) =~= shapes(old(out)@) + leaf_level(self.shape().leaves()));
            },
        }
    }

    /// Appends the text under this node to `out`.
    pub(crate) fn collect_into(&self, out: &mut String)
        requires
            self.wf(),
        ensures
            final(out)@ == old(out)@ + self.shape().text(),
        decreases self,
    {
        match self {
            Node::Leaf { text, length } => {
                out.append(text.as_str());
            },
            Node::Internal { weight, left, right } => {
                left.collect_into(out);
                right.collect_into(out);
                assert(out@ =~= old(out)@ + self.shape().text());
            },
        }
    }

    /// Appends the characters from index `start` up to index `end` to `out`.
    pub(crate) fn push_range(&self, start: usize, end: usize, out: &mut String)
        requires
            self.wf(),
            start <= end <= self.shape().len(),
        ensures
            final(out)@ == old(out)@ + self.shape().text().subrange(start as int, end as int),
        decreases self,
    {
        match self {
            Node::Leaf { text, length } => {
                out.append(text.as_str().substring_char(start, end));
            },
            Node::Internal { weight, left, right } => {
                if end <= *weight {
                    left.push_range(start, end, out);
                } else if start >= *weight {
                    right.push_range(start - *weight, end - *weight, out);
                } else {
                    left.push_range(start, *weight, out);
                    right.push_range(0, end - *weight, out);
                }
                assert(out@ =~= old(out)@ + self.shape().text().subrange(
                    start as int,
                    end as int,
                ));
            },
        }
    }

    /// The character at index `at`.
    pub(crate) fn char_at(&self, at: usize) -> (c: char)
        requires
            self.wf(),
            at < self.shape().len(),
        ensures
            c == self.shape().text()[at as int],
        decreases self,
    {
        match self {
            Node::Leaf { text, length } => text.as_str().get_char(at),
            Node::Internal { weight, left, right } => {
                if at < *weight {
                    left.char_at(at)
                } else {
                    right.char_at(at - *weight)
                }
            },
        }
    }

    /// Inserts `c` at index `at`, in the leaf that owns the index.
    pub(crate) fn insert_char(&mut self, c: char, at: usize)
        requires
            old(self).wf(),
            at <= old(self).shape().len(),
            old(self).shape().len() < usize::MAX,
        ensures
            final(self).wf(),
            final(self).shape() == old(self).shape().insert_char(c, at as int),
            final(self).shape().len() == old(self).shape().len() + 1,
        decreases *old(self),
    {
        match self {
            Node::Leaf { text, length } => {
                let mut grown = text.as_str().substring_char(0, at).to_owned();
                push_char(&mut grown, c);
                grown.append(text.as_str().substring_char(at, *length));
                assert(grown@ =~= text@.insert(at as int, c));
                *text = grown;
                *length = *length + 1;
            },
            Node::Internal { weight, left, right } => {
                if at < *weight {
                    left.insert_char(c, at);
                    *weight = *weight + 1;
                } else {
                    right.insert_char(c, at - *weight);
                }
            },
        }
    }

    /// Takes out the characters from index `start` up to, not including,
    /// index `end`, from every leaf that holds some of them.
    pub(crate) fn remove_range(&mut self, start: usize, end: usize)
        requires
            old(self).wf(),
            start <= end <= old(self).shape().len(),
        ensures
            final(self).wf(),
            final(self).shape() == old(self).shape().remove_range(start as int, end as int),
            final(self).shape().len() == old(self).shape().len() - (end - start),
        decreases *old(self),
    {
        proof {
            lemma_remove_range(self.shape(), start as int, end as int);
        }
        match self {
            Node::Leaf { text, length } => {
                let mut kept = text.as_str().substring_char(0, start).to_owned();
                kept.append(text.as_str().substring_char(end, *length));
                assert(kept@ =~= text@.take(start as int) + text@.skip(end as int));
                *text = kept;
                *length = *length - (end - start);
            },
            Node::Internal { weight, left, right } => {
                let held = *weight;
                let left_start = if start <= held {
                    start
                } else {
                    held
                };
                let left_end = if end <= held {
                    end
                } else {
                    held
                };
                let right_start = if start >= held {
                    start - held
                } else {
                    0
                };
                let right_end = if end >= held {
                    end - held
                } else {
                    0
                };
                proof {
                    lemma_remove_range(left.shape(), left_start as int, left_end as int);
                    lemma_remove_range(right.shape(), right_start as int, right_end as int);
                    lemma_remove_nothing(left.shape(), left_start as int);
                    lemma_remove_nothing(right.shape(), right_start as int);
                }
                if left_start < left_end {
                    left.remove_range(left_start, left_end);
                    *weight = held - (left_end - left_start);
                }
                if right_start < right_end {
                    right.remove_range(right_start, right_end);
                }
            },
        }
    }

    /// Inserts `t` at index `at`: the leaf that owns the index is replaced by
    /// the trees of what stood before the index, of `t`, and of what stood
    /// behind. Returns by how many leaves the tree grew, and the depth down
    /// to which the new subtree reaches.
    pub(crate) fn insert_text(&mut self, t: &str, t_len: usize, at: usize) -> (grown: (u128, u128))
        requires
            old(self).wf(),
            at <= old(self).shape().len(),
            t_len == t@.len(),
            old(self).shape().len() + t_len <= usize::MAX,
            old(self).shape().depth() <= usize::MAX,
        ensures
            final(self).wf(),
            final(self).shape() == old(self).shape().insert_text(t@, at as int),
            final(self).shape().len() == old(self).shape().len() + t_len,
            final(self).shape().leaf_count() == old(self).shape().leaf_count() + grown.0,
            final(self).shape().depth() == max_nat(old(self).shape().depth(), grown.1 as nat),
            grown.1 <= old(self).shape().depth() + usize::MAX + 2,
            grown.0 <= 3 * usize::MAX,
        decreases *old(self),
    {
        match self {
            Node::Leaf { text, length } => {
                let (before, n_before) = Node::from_str(text.as_str().substring_char(0, at));
                let (middle, n_middle) = Node::from_str(t);
                let (behind, n_behind) = Node::from_str(text.as_str().substring_char(at, *length));
                let d_before = ceil_log2_of(n_before);
                let d_middle = ceil_log2_of(n_middle);
                let d_behind = ceil_log2_of(n_behind);
                proof {
                    lemma_split_leaf(text@, at as int, t@);
                    lemma_from_text(text@.take(at as int));
                    lemma_from_text(t@);
                    lemma_from_text(text@.skip(at as int));
                    let inner = Tree::join(from_text(t@), from_text(text@.skip(at as int)));
                    assert(inner.depth() == 1 + max_nat(d_middle as nat, d_behind as nat));
                    assert(split_leaf(text@, at as int, t@).depth() == 1 + max_nat(
                        d_before as nat,
                        inner.depth(),
                    ));
                }
                let d_right: u128 = 1 + (if d_middle >= d_behind {
                    d_middle
                } else {
                    d_behind
                }) as u128;
                let reach: u128 = 1 + (if d_before as u128 >= d_right {
                    d_before as u128
                } else {
                    d_right
                });
                let added: u128 = n_before as u128 + n_middle as u128 + n_behind as u128 - 1;
                let right = Node::join(middle, behind);
                *self = Node::join(before, right);
                (added, reach)
            },
            Node::Internal { weight, left, right } => {
                if at < *weight {
                    let (added, reach) = left.insert_text(t, t_len, at);
                    *weight = *weight + t_len;
                    (added, reach + 1)
                } else {
                    let (added, reach) = right.insert_text(t, t_len, at - *weight);
                    (added, reach + 1)
                }
            },
        }
    }
}

/// The text under a well-formed node can be indexed, and is the text of its
/// leaves laid out in a row.
pub proof fn lemma_wf_len(node: Node)
    requires
        node.wf(),
    ensures
        node.shape().len() <= usize::MAX,
        level_text(leaf_level(node.shape().leaves())) == node.shape().text(),
{
    lemma_leaf_level_leaves(node.shape().leaves());
    lemma_text_of_leaves(node.shape());
}

} // verus!
