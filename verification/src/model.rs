//! The mathematical model of a rope: a binary tree whose leaves hold text
//! fragments, together with the rules by which such trees are built and
//! edited. Everything here is specification and proof; the executable tree
//! is held to this model by its contracts.

use vstd::prelude::*;
use vstd::arithmetic::power2::{lemma_pow2_unfold, pow2};
use vstd::seq_lib::lemma_flatten_concat;

verus! {

/// The delimiter at which text is cut into fragments.
pub open spec fn delimiter() -> char {
    ' '
}

/// Cuts `s` in front of every delimiter: the first fragment runs up to the
/// first delimiter, every later fragment starts with a delimiter and runs up
/// to the next one. The empty text gives one empty fragment.
pub open spec fn fragments(s: Seq<char>) -> Seq<Seq<char>>
    decreases s.len(),
{
    if s.len() == 0 {
        seq![Seq::<char>::empty()]
    } else {
        let before = fragments(s.drop_last());
        if s.last() == delimiter() {
            before.push(seq![s.last()])
        } else {
            before.drop_last().push(before.last().push(s.last()))
        }
    }
}

/// The smallest `k` with `2^k >= n` (and 0 for `n == 0`).
pub open spec fn ceil_log2(n: nat) -> nat
    decreases n,
{
    if n <= 1 {
        0
    } else {
        1 + ceil_log2((n + 1) / 2)
    }
}

/// The depth a tree of `leaves` leaves may have before it is rebuilt.
pub open spec fn depth_limit(leaves: nat) -> nat {
    2 * ceil_log2(leaves)
}

/// The larger of two numbers.
pub open spec fn max_nat(a: nat, b: nat) -> nat {
    if a >= b {
        a
    } else {
        b
    }
}

/// `a`, or `bound` where `a` lies above it.
pub open spec fn at_most(a: int, bound: int) -> int {
    if a <= bound {
        a
    } else {
        bound
    }
}

/// `a`, or `bound` where `a` lies below it.
pub open spec fn at_least(a: int, bound: int) -> int {
    if a >= bound {
        a
    } else {
        bound
    }
}

/// A rope's shape: a leaf with its fragment, or a branch with two subtrees.
pub enum Tree {
    Leaf { text: Seq<char> },
    Branch { left: Box<Tree>, right: Box<Tree> },
}

impl Tree {
    /// The branch over two trees.
    pub open spec fn join(left: Tree, right: Tree) -> Tree {
        Tree::Branch { left: Box::new(left), right: Box::new(right) }
    }

    /// The text the tree stands for: its fragments, left to right.
    pub open spec fn text(self) -> Seq<char>
        decreases self,
    {
        match self {
            Tree::Leaf { text } => text,
            Tree::Branch { left, right } => left.text() + right.text(),
        }
    }

    /// The number of characters of the text.
    pub open spec fn len(self) -> nat {
        self.text().len()
    }

    /// The fragments in the leaves, left to right.
    pub open spec fn leaves(self) -> Seq<Seq<char>>
        decreases self,
    {
        match self {
            Tree::Leaf { text } => seq![text],
            Tree::Branch { left, right } => left.leaves() + right.leaves(),
        }
    }

    /// The number of leaves.
    pub open spec fn leaf_count(self) -> nat {
        self.leaves().len()
    }

    /// The number of branches on the longest path from the root to a leaf.
    pub open spec fn depth(self) -> nat
        decreases self,
    {
        match self {
            Tree::Leaf { text } => 0,
            Tree::Branch { left, right } => 1 + max_nat(left.depth(), right.depth()),
        }
    }

    /// The tree after `c` was inserted at index `at`. The leaf that owns the
    /// index is found by descending left where the index is below the left
    /// subtree's length, and right, with that length taken off, otherwise.
    pub open spec fn insert_char(self, c: char, at: int) -> Tree
        decreases self,
    {
        match self {
            Tree::Leaf { text } => Tree::Leaf { text: text.insert(at, c) },
            Tree::Branch { left, right } => if at < left.len() {
                Tree::join(left.insert_char(c, at), *right)
            } else {
                Tree::join(*left, right.insert_char(c, at - left.len()))
            },
        }
    }

    /// The tree after `t` was inserted at index `at`: the leaf that owns the
    /// index becomes `split_leaf` of its fragment.
    pub open spec fn insert_text(self, t: Seq<char>, at: int) -> Tree
        decreases self,
    {
        match self {
            Tree::Leaf { text } => split_leaf(text, at, t),
            Tree::Branch { left, right } => if at < left.len() {
                Tree::join(left.insert_text(t, at), *right)
            } else {
                Tree::join(*left, right.insert_text(t, at - left.len()))
            },
        }
    }

    /// The tree after the characters from index `start` up to, not
    /// including, index `end` were taken out: every leaf loses what it holds
    /// of the range, and no leaf leaves the tree.
    pub open spec fn remove_range(self, start: int, end: int) -> Tree
        decreases self,
    {
        match self {
            Tree::Leaf { text } => Tree::Leaf { text: text.take(start) + text.skip(end) },
            Tree::Branch { left, right } => {
                let weight = left.len() as int;
                Tree::join(
                    left.remove_range(at_most(start, weight), at_most(end, weight)),
                    right.remove_range(at_least(start - weight, 0), at_least(end - weight, 0)),
                )
            },
        }
    }

    /// Whether the depth is within the limit for the number of leaves.
    pub open spec fn balanced(self) -> bool {
        self.depth() <= depth_limit(self.leaf_count())
    }

    /// The tree itself where it is balanced, else the tree rebuilt from its
    /// leaves.
    pub open spec fn settle(self) -> Tree {
        if self.balanced() {
            self
        } else {
            build(self.leaves())
        }
    }
}

/// One round of pairing: neighbours `2i` and `2i + 1` are joined; with an odd
/// number of trees the last one is carried over alone.
pub open spec fn pair_up(level: Seq<Tree>) -> Seq<Tree> {
    Seq::new(
        (level.len() + 1) / 2,
        |i: int|
            if 2 * i + 1 < level.len() {
                Tree::join(level[2 * i], level[2 * i + 1])
            } else {
                level[2 * i]
            },
    )
}

/// Pairs the trees of `level` round after round until one is left. No tree
/// at all gives an empty leaf.
pub open spec fn merge(level: Seq<Tree>) -> Tree
    decreases level.len(),
{
    if level.len() == 0 {
        Tree::Leaf { text: Seq::empty() }
    } else if level.len() == 1 {
        level[0]
    } else {
        merge(pair_up(level))
    }
}

/// One leaf for each fragment.
pub open spec fn leaf_level(frags: Seq<Seq<char>>) -> Seq<Tree> {
    Seq::new(frags.len(), |i: int| Tree::Leaf { text: frags[i] })
}

/// The balanced tree over the given fragments.
pub open spec fn build(frags: Seq<Seq<char>>) -> Tree {
    merge(leaf_level(frags))
}

/// The tree that a text is first given.
pub open spec fn from_text(s: Seq<char>) -> Tree {
    build(fragments(s))
}

/// What a leaf with fragment `text` becomes when `t` is inserted at its
/// local index `at`.
pub open spec fn split_leaf(text: Seq<char>, at: int, t: Seq<char>) -> Tree {
    Tree::join(from_text(text.take(at)), Tree::join(from_text(t), from_text(text.skip(at))))
}

/// For each tree of a level, its leaves.
pub open spec fn leaf_lists(level: Seq<Tree>) -> Seq<Seq<Seq<char>>> {
    Seq::new(level.len(), |i: int| level[i].leaves())
}

/// The leaves of all trees of a level, left to right.
pub open spec fn level_leaves(level: Seq<Tree>) -> Seq<Seq<char>> {
    leaf_lists(level).flatten()
}

/// The text of all trees of a level, left to right.
pub open spec fn level_text(level: Seq<Tree>) -> Seq<char> {
    level_leaves(level).flatten()
}

/// A text has at least one fragment, and at most one more than it has
/// characters.
pub proof fn lemma_fragments_count(s: Seq<char>)
    ensures
        1 <= fragments(s).len() <= s.len() + 1,
    decreases s.len(),
{
    if s.len() > 0 {
        lemma_fragments_count(s.drop_last());
    }
}

/// The fragments of a text, put together again, are the text.
pub proof fn lemma_fragments_flatten(s: Seq<char>)
    ensures
        fragments(s).flatten() == s,
    decreases s.len(),
{
    broadcast use Seq::lemma_flatten_push;
    if s.len() == 0 {
        seq![Seq::<char>::empty()].lemma_flatten_one_element();
        assert(fragments(s).flatten() =~= s);
    } else {
        let before = fragments(s.drop_last());
        lemma_fragments_count(s.drop_last());
        lemma_fragments_flatten(s.drop_last());
        assert(before =~= before.drop_last().push(before.last()));
        assert(before.flatten() =~= before.drop_last().flatten() + before.last());
        assert(s =~= s.drop_last().push(s.last()));
        if s.last() == delimiter() {
            assert(fragments(s).flatten() =~= s.drop_last() + seq![s.last()]);
        } else {
            assert(fragments(s).flatten() =~= before.drop_last().flatten() + before.last().push(
                s.last(),
            ));
        }
        assert(fragments(s).flatten() =~= s);
    }
}

/// A delimiter stands at the head of every fragment but the first, and
/// nowhere else.
pub proof fn lemma_fragments_delimited(s: Seq<char>)
    ensures
        forall|k: int|
            0 < k < fragments(s).len() ==> (#[trigger] fragments(s)[k]).len() > 0
                && fragments(s)[k][0] == delimiter(),
        forall|k: int, j: int|
            0 <= k < fragments(s).len() && 0 <= j < fragments(s)[k].len()
                && #[trigger] fragments(s)[k][j] == delimiter() ==> k > 0 && j == 0,
    decreases s.len(),
{
    if s.len() > 0 {
        lemma_fragments_count(s.drop_last());
        lemma_fragments_delimited(s.drop_last());
    }
}

/// A tree's text is its leaves put together.
pub proof fn lemma_text_of_leaves(t: Tree)
    ensures
        t.text() == t.leaves().flatten(),
    decreases t,
{
    match t {
        Tree::Leaf { text } => {
            seq![text].lemma_flatten_one_element();
        },
        Tree::Branch { left, right } => {
            lemma_text_of_leaves(*left);
            lemma_text_of_leaves(*right);
            lemma_flatten_concat(left.leaves(), right.leaves());
        },
    }
}

/// A tree added at the end of a level adds its leaves and its text at the
/// end.
pub proof fn lemma_level_push(level: Seq<Tree>, t: Tree)
    ensures
        level_leaves(level.push(t)) == level_leaves(level) + t.leaves(),
        level_text(level.push(t)) == level_text(level) + t.text(),
{
    broadcast use Seq::lemma_flatten_push;
    assert(leaf_lists(level.push(t)) =~= leaf_lists(level).push(t.leaves()));
    lemma_flatten_concat(level_leaves(level), t.leaves());
    lemma_text_of_leaves(t);
}

/// The first trees of a level hold no more text than the whole level.
pub proof fn lemma_level_prefix(level: Seq<Tree>, n: int)
    requires
        0 <= n <= level.len(),
    ensures
        level_text(level.take(n)).len() <= level_text(level).len(),
    decreases level.len() - n,
{
    if n < level.len() {
        lemma_level_prefix(level, n + 1);
        lemma_level_push(level.take(n), level[n]);
        assert(level.take(n + 1) =~= level.take(n).push(level[n]));
    } else {
        assert(level.take(n) =~= level);
    }
}

/// A tree is less deep than it has leaves.
pub proof fn lemma_depth_below_leaf_count(t: Tree)
    ensures
        t.depth() < t.leaf_count(),
    decreases t,
{
    match t {
        Tree::Leaf { text } => {},
        Tree::Branch { left, right } => {
            lemma_depth_below_leaf_count(*left);
            lemma_depth_below_leaf_count(*right);
        },
    }
}

/// `ceil_log2(n)` is the least exponent whose power of two reaches `n`.
pub proof fn lemma_ceil_log2_bounds(n: nat)
    requires
        n >= 1,
    ensures
        pow2(ceil_log2(n)) >= n,
        n >= 2 ==> ceil_log2(n) >= 1 && pow2((ceil_log2(n) - 1) as nat) < n,
    decreases n,
{
    if n == 1 {
        vstd::arithmetic::power2::lemma2_to64();
    } else {
        let m = (n + 1) / 2;
        lemma_ceil_log2_bounds(m);
        lemma_pow2_unfold(ceil_log2(n));
        if m >= 2 {
            lemma_pow2_unfold(ceil_log2(m));
        } else {
            vstd::arithmetic::power2::lemma2_to64();
        }
    }
}

/// A round of pairing keeps the leaves and their order.
pub proof fn lemma_pair_up_leaves(level: Seq<Tree>)
    ensures
        level_leaves(pair_up(level)) == level_leaves(level),
    decreases level.len(),
{
    let paired = pair_up(level);
    if level.len() < 2 {
        assert(paired =~= level);
    } else {
        let rest = level.skip(2);
        lemma_pair_up_leaves(rest);
        assert(paired.drop_first() =~= pair_up(rest));
        assert(leaf_lists(paired).drop_first() =~= leaf_lists(pair_up(rest)));
        assert(leaf_lists(level).drop_first().drop_first() =~= leaf_lists(rest));
        assert(leaf_lists(level).drop_first().flatten() == level[1].leaves() + leaf_lists(
            rest,
        ).flatten());
        assert(leaf_lists(level).flatten() == level[0].leaves() + leaf_lists(
            level,
        ).drop_first().flatten());
        assert(leaf_lists(paired).flatten() == paired[0].leaves() + leaf_lists(
            pair_up(rest),
        ).flatten());
        assert(level_leaves(paired) =~= level_leaves(level));
    }
}

/// Merging keeps the leaves and their order.
pub proof fn lemma_merge_leaves(level: Seq<Tree>)
    requires
        level.len() >= 1,
    ensures
        merge(level).leaves() == level_leaves(level),
    decreases level.len(),
{
    if level.len() == 1 {
        assert(leaf_lists(level) =~= seq![level[0].leaves()]);
        seq![level[0].leaves()].lemma_flatten_one_element();
    } else {
        lemma_merge_leaves(pair_up(level));
        lemma_pair_up_leaves(level);
    }
}

/// Merging trees of depth at most `k`, the first of them of depth `k`, adds
/// `ceil_log2` of their number to `k`.
pub proof fn lemma_merge_depth(level: Seq<Tree>, k: nat)
    requires
        level.len() >= 1,
        forall|i: int| 0 <= i < level.len() ==> (#[trigger] level[i]).depth() <= k,
        level[0].depth() == k,
    ensures
        merge(level).depth() == k + ceil_log2(level.len()),
    decreases level.len(),
{
    if level.len() >= 2 {
        let paired = pair_up(level);
        assert forall|i: int| 0 <= i < paired.len() implies (#[trigger] paired[i]).depth() <= k
            + 1 by {
            assert(level[2 * i].depth() <= k);
            if 2 * i + 1 < level.len() {
                assert(level[2 * i + 1].depth() <= k);
            }
        }
        assert(level[1].depth() <= k);
        assert(paired[0].depth() == k + 1);
        lemma_merge_depth(paired, k + 1);
    }
}

/// The leaves of a level of leaves are the fragments it was made of.
pub proof fn lemma_leaf_level_leaves(frags: Seq<Seq<char>>)
    ensures
        level_leaves(leaf_level(frags)) == frags,
    decreases frags.len(),
{
    broadcast use Seq::lemma_flatten_push;
    let lists = leaf_lists(leaf_level(frags));
    if frags.len() == 0 {
        assert(lists.flatten() =~= frags);
    } else {
        let init = frags.drop_last();
        lemma_leaf_level_leaves(init);
        assert(lists =~= leaf_lists(leaf_level(init)).push(seq![frags.last()]));
        assert(lists.flatten() =~= init + seq![frags.last()]);
        assert(lists.flatten() =~= frags);
    }
}

/// The balanced tree over some fragments holds exactly these fragments, in
/// their order, and is as shallow as a binary tree over so many leaves can
/// be.
pub proof fn lemma_build(frags: Seq<Seq<char>>)
    requires
        frags.len() >= 1,
    ensures
        build(frags).leaves() == frags,
        build(frags).text() == frags.flatten(),
        build(frags).depth() == ceil_log2(frags.len()),
        build(frags).balanced(),
{
    lemma_merge_leaves(leaf_level(frags));
    lemma_leaf_level_leaves(frags);
    lemma_text_of_leaves(build(frags));
    lemma_merge_depth(leaf_level(frags), 0);
}

/// The tree first given to a text stands for that text.
pub proof fn lemma_from_text(s: Seq<char>)
    ensures
        from_text(s).text() == s,
        from_text(s).leaves() == fragments(s),
        from_text(s).depth() == ceil_log2(fragments(s).len()),
        from_text(s).balanced(),
{
    lemma_fragments_count(s);
    lemma_fragments_flatten(s);
    lemma_build(fragments(s));
}

/// Rebuilding a tree from its leaves keeps its text.
pub proof fn lemma_rebuild(t: Tree)
    ensures
        build(t.leaves()).text() == t.text(),
        build(t.leaves()).leaves() == t.leaves(),
        build(t.leaves()).depth() == ceil_log2(t.leaf_count()),
        t.settle().text() == t.text(),
        t.settle().leaves() == t.leaves(),
        t.settle().balanced(),
{
    lemma_depth_below_leaf_count(t);
    lemma_build(t.leaves());
    lemma_text_of_leaves(t);
}

/// Inserting a character adds no leaf and no level, wherever it lands.
pub proof fn lemma_insert_char_shape(t: Tree, c: char, at: int)
    ensures
        t.insert_char(c, at).leaf_count() == t.leaf_count(),
        t.insert_char(c, at).depth() == t.depth(),
    decreases t,
{
    match t {
        Tree::Leaf { text } => {},
        Tree::Branch { left, right } => {
            if at < left.len() {
                lemma_insert_char_shape(*left, c, at);
            } else {
                lemma_insert_char_shape(*right, c, at - left.len());
            }
        },
    }
}

/// Inserting a character changes the text as `Seq::insert` does.
pub proof fn lemma_insert_char(t: Tree, c: char, at: int)
    requires
        0 <= at <= t.len(),
    ensures
        t.insert_char(c, at).text() == t.text().insert(at, c),
    decreases t,
{
    match t {
        Tree::Leaf { text } => {},
        Tree::Branch { left, right } => {
            if at < left.len() {
                lemma_insert_char(*left, c, at);
            } else {
                lemma_insert_char(*right, c, at - left.len());
            }
            assert(t.insert_char(c, at).text() =~= t.text().insert(at, c));
        },
    }
}

/// A split leaf holds its old text with the new text at the index, in the
/// fragments of the three parts.
pub proof fn lemma_split_leaf(text: Seq<char>, at: int, t: Seq<char>)
    requires
        0 <= at <= text.len(),
    ensures
        split_leaf(text, at, t).text() == text.take(at) + t + text.skip(at),
        split_leaf(text, at, t).leaves() == fragments(text.take(at)) + (fragments(t) + fragments(
            text.skip(at),
        )),
{
    lemma_from_text(text.take(at));
    lemma_from_text(t);
    lemma_from_text(text.skip(at));
    let inner = Tree::join(from_text(t), from_text(text.skip(at)));
    assert(inner.text() == t + text.skip(at));
    assert(inner.leaves() == fragments(t) + fragments(text.skip(at)));
    assert(split_leaf(text, at, t).text() =~= text.take(at) + t + text.skip(at));
}

/// Inserting a text puts it between what stood before the index and what
/// stood from the index on.
pub proof fn lemma_insert_text(tree: Tree, t: Seq<char>, at: int)
    requires
        0 <= at <= tree.len(),
    ensures
        tree.insert_text(t, at).text() == tree.text().take(at) + t + tree.text().skip(at),
    decreases tree,
{
    match tree {
        Tree::Leaf { text } => {
            lemma_split_leaf(text, at, t);
        },
        Tree::Branch { left, right } => {
            if at < left.len() {
                lemma_insert_text(*left, t, at);
            } else {
                lemma_insert_text(*right, t, at - left.len());
            }
            assert(tree.insert_text(t, at).text() =~= tree.text().take(at) + t
                + tree.text().skip(at));
        },
    }
}

/// Taking out a range removes its characters from the text and leaves the
/// shape of the tree alone.
pub proof fn lemma_remove_range(t: Tree, start: int, end: int)
    requires
        0 <= start <= end <= t.len(),
    ensures
        t.remove_range(start, end).text() == t.text().take(start) + t.text().skip(end),
        t.remove_range(start, end).len() == t.len() - (end - start),
        t.remove_range(start, end).leaf_count() == t.leaf_count(),
        t.remove_range(start, end).depth() == t.depth(),
    decreases t,
{
    match t {
        Tree::Leaf { text } => {},
        Tree::Branch { left, right } => {
            let weight = left.len() as int;
            lemma_remove_range(*left, at_most(start, weight), at_most(end, weight));
            lemma_remove_range(*right, at_least(start - weight, 0), at_least(end - weight, 0));
            assert(t.remove_range(start, end).text() =~= t.text().take(start) + t.text().skip(
                end,
            ));
        },
    }
}

/// Taking out an empty range changes nothing.
pub proof fn lemma_remove_nothing(t: Tree, at: int)
    requires
        0 <= at <= t.len(),
    ensures
        t.remove_range(at, at) == t,
    decreases t,
{
    match t {
        Tree::Leaf { text } => {
            assert(text.take(at) + text.skip(at) =~= text);
        },
        Tree::Branch { left, right } => {
            let weight = left.len() as int;
            lemma_remove_nothing(*left, at_most(at, weight));
            lemma_remove_nothing(*right, at_least(at - weight, 0));
        },
    }
}

} // verus!
