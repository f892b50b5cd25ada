//! What holds of every rope, whatever was done to it: statements that tie
//! several operations together, each proved from the model.

use vstd::prelude::*;
use vstd::arithmetic::power2::pow2;
use crate::model::{
    build, ceil_log2, fragments, from_text, lemma_ceil_log2_bounds,
    lemma_depth_below_leaf_count, lemma_fragments_count, lemma_from_text,
    lemma_insert_char_shape, lemma_insert_text, lemma_rebuild, Tree,
};

verus! {

/// A run of single-character insertions, each given by its character and
/// its index, applied one after the other.
pub open spec fn insert_chars(t: Tree, edits: Seq<(char, int)>) -> Tree
    decreases edits.len(),
{
    if edits.len() == 0 {
        t
    } else {
        insert_chars(t, edits.drop_last()).insert_char(edits.last().0, edits.last().1)
    }
}

/// A text that is made into a tree and read back is the text.
pub proof fn law_round_trip(s: Seq<char>)
    ensures
        from_text(s).text() == s,
{
    lemma_from_text(s);
}

/// The range from the start to the length is the whole text.
pub proof fn law_whole_range(text: Seq<char>)
    ensures
        text.subrange(0, text.len() as int) == text,
{
    assert(text.subrange(0, text.len() as int) =~= text);
}

/// After an insertion the text is as long as the old text and the inserted
/// text together, whether or not the tree was rebuilt on the way.
pub proof fn law_insert_length(tree: Tree, t: Seq<char>, at: int)
    requires
        0 <= at <= tree.len(),
    ensures
        tree.insert_text(t, at).settle().text() == tree.text().take(at) + t + tree.text().skip(at),
        tree.insert_text(t, at).settle().len() == tree.len() + t.len(),
{
    lemma_insert_text(tree, t, at);
    lemma_rebuild(tree.insert_text(t, at));
}

/// Single-character insertions add no leaf and no level to a tree.
pub proof fn law_insert_chars_keep_shape(t: Tree, edits: Seq<(char, int)>)
    ensures
        insert_chars(t, edits).leaf_count() == t.leaf_count(),
        insert_chars(t, edits).depth() == t.depth(),
    decreases edits.len(),
{
    if edits.len() > 0 {
        law_insert_chars_keep_shape(t, edits.drop_last());
        lemma_insert_char_shape(
            insert_chars(t, edits.drop_last()),
            edits.last().0,
            edits.last().1,
        );
    }
}

/// However many single characters were inserted into a tree, the tree that
/// rebalancing makes of it is as deep as the logarithm of its number of
/// leaves, rounded up: `2^(depth - 1) < leaves <= 2^depth`.
pub proof fn law_depth_after_rebalance(t: Tree, edits: Seq<(char, int)>)
    ensures
        build(insert_chars(t, edits).leaves()).depth() == ceil_log2(t.leaf_count()),
        t.leaf_count() <= pow2(ceil_log2(t.leaf_count())),
        t.leaf_count() >= 2 ==> pow2((ceil_log2(t.leaf_count()) - 1) as nat) < t.leaf_count(),
{
    law_insert_chars_keep_shape(t, edits);
    lemma_rebuild(insert_chars(t, edits));
    lemma_depth_below_leaf_count(t);
    lemma_ceil_log2_bounds(t.leaf_count());
}

/// A text of `n` characters is first given a tree of at most `n + 1`
/// leaves, of depth at most `ceil_log2(n + 1)`.
pub proof fn law_first_tree_is_shallow(s: Seq<char>)
    ensures
        from_text(s).leaf_count() == fragments(s).len(),
        from_text(s).leaf_count() <= s.len() + 1,
        from_text(s).depth() == ceil_log2(from_text(s).leaf_count()),
{
    lemma_from_text(s);
    lemma_fragments_count(s);
}

} // verus!
