//! Symbols with more than two values: how a flat table of signed bytes spells
//! a binary decision tree, and what a walk through it reads.

use crate::lemmas::{lemma_after_bool_progress, lemma_after_bool_ready};
use crate::model::DecoderState;
use vstd::prelude::*;

verus! {

/// A probability, out of 256, that a decision comes out `false`.
pub type Prob = u8;

/// One decision of a tree, prepared for a walk that needs no signs: each
/// branch is either the index of the next node or, with its top bit set, a
/// leaf that carries a symbol.
#[derive(Clone, Copy)]
pub struct TreeNode {
    /// Where a `false` leads.
    pub left: u8,
    /// Where a `true` leads.
    pub right: u8,
    /// The probability of the decision.
    pub prob: Prob,
    /// The node's own index.
    pub index: u8,
}

/// The prepared form of a table entry: half the entry for a branch, which
/// is the index of the decision pair that it names, and 128 plus the symbol
/// for a leaf.
pub open spec fn branch_of(entry: i8) -> int {
    if entry > 0 {
        entry / 2
    } else {
        128 - entry
    }
}

/// The symbol that a prepared leaf carries: the branch without its top
/// bit.
pub open spec fn symbol_of(branch: u8) -> int {
    branch as int % 128
}

impl TreeNode {
    /// A node that has not been filled in yet: all of its fields are zero.
    pub fn uninit() -> (node: TreeNode)
        ensures
            node == (TreeNode { left: 0, right: 0, prob: 0, index: 0 }),
    {
        TreeNode { left: 0, right: 0, prob: 0, index: 0 }
    }

    /// Prepares one table entry: a positive entry becomes the index of the
    /// pair it points to, any other entry a leaf with the top bit set and its
    /// symbol in the low seven bits.
    ///
    /// The entry -128 is left out: its symbol does not fit beside the top
    /// bit.
    pub fn prepare_branch(t: i8) -> (branch: u8)
        requires
            t > -128,
        ensures
            branch == branch_of(t),
            branch >= 128 <==> t <= 0,
    {
        if t > 0 {
            (t as u8) / 2
        } else {
            let value = -t;
            let symbol: u8 = value as u8;
            assert(0x80u8 | symbol == 128 + symbol) by (bit_vector)
                requires
                    symbol < 128,
            ;
            0x80 | symbol
        }
    }

    /// The symbol of a prepared leaf.
    pub fn value_from_branch(t: u8) -> (symbol: i8)
        ensures
            symbol == symbol_of(t),
    {
        assert(t & !0x80u8 == t % 128) by (bit_vector);
        (t & !0x80) as i8
    }
}

/// Preparing a leaf and reading its symbol back gives the negation of the
/// entry, and a prepared branch is never taken for a leaf: its top bit is
/// clear.
pub proof fn lemma_prepared_leaf_round_trip(entry: i8)
    requires
        entry > -128,
    ensures
        entry <= 0 ==> 128 <= branch_of(entry) <= 255 && symbol_of(branch_of(entry) as u8)
            == -entry,
        entry > 0 ==> 0 <= branch_of(entry) < 128,
{
}

/// The symbol of a leaf entry: its negation. The one leaf whose negation is
/// no `i8`, -128, stands for itself.
pub open spec fn leaf_symbol(entry: i8) -> i8 {
    if entry == -128 {
        -128i8
    } else {
        (-entry) as i8
    }
}

/// Whether every walk that starts at the decision pair `index` reaches a
/// leaf within `depth` decisions without leaving the table: the pair and its
/// probability exist, and each of its two entries is a leaf or the index of
/// a pair of which the same holds with one decision less.
pub open spec fn walk_ends(tree: Seq<i8>, probs: Seq<Prob>, index: int, depth: nat) -> bool
    decreases depth,
{
    &&& depth > 0
    &&& 0 <= index
    &&& index + 1 < tree.len()
    &&& index / 2 < probs.len()
    &&& tree[index] > 0 ==> walk_ends(tree, probs, tree[index] as int, (depth - 1) as nat)
    &&& tree[index + 1] > 0 ==> walk_ends(tree, probs, tree[index + 1] as int, (depth - 1) as nat)
}

/// Whether `tree` with `probs` is a table that can be walked from `start`:
/// every walk reaches a leaf without leaving the table. It then does so
/// before it has taken as many decisions as the table has entries, which is
/// what the definition asks; that walks which end at all end that soon is
/// proved in `validity`.
pub open spec fn table_valid(tree: Seq<i8>, probs: Seq<Prob>, start: int) -> bool {
    walk_ends(tree, probs, start, tree.len())
}

/// A walk of at most `depth` decisions from the pair `index`: the state it
/// ends in and the symbol of the leaf it reaches. Each decision is read with
/// the probability of its pair, and leads to the first entry of the pair if
/// it is `false` and to the second if it is `true`.
pub open spec fn walk(
    s: DecoderState,
    tree: Seq<i8>,
    probs: Seq<Prob>,
    index: int,
    depth: nat,
) -> (DecoderState, i8)
    decreases depth,
{
    if depth == 0 {
        (s, 0i8)
    } else {
        let probability = probs[index / 2];
        let entry = if s.decision(probability) {
            tree[index + 1]
        } else {
            tree[index]
        };
        if entry <= 0 {
            (s.after_bool(probability), leaf_symbol(entry))
        } else {
            walk(s.after_bool(probability), tree, probs, entry as int, (depth - 1) as nat)
        }
    }
}

/// The symbol that a walk from `start` through a valid table reads.
pub open spec fn tree_symbol(s: DecoderState, tree: Seq<i8>, probs: Seq<Prob>, start: int) -> i8 {
    walk(s, tree, probs, start, tree.len()).1
}

/// The state after a walk from `start` through a valid table.
pub open spec fn after_tree(s: DecoderState, tree: Seq<i8>, probs: Seq<Prob>, start: int)
    -> DecoderState {
    walk(s, tree, probs, start, tree.len()).0
}

/// A walk through a table that ends takes a ready state to a ready state.
pub proof fn lemma_walk_ready(
    s: DecoderState,
    tree: Seq<i8>,
    probs: Seq<Prob>,
    index: int,
    depth: nat,
)
    requires
        s.ready(),
    ensures
        walk(s, tree, probs, index, depth).0.ready(),
    decreases depth,
{
    if depth > 0 {
        let probability = probs[index / 2];
        lemma_after_bool_ready(s, probability);
        let entry = if s.decision(probability) {
            tree[index + 1]
        } else {
            tree[index]
        };
        if entry > 0 {
            lemma_walk_ready(s.after_bool(probability), tree, probs, entry as int, (depth - 1) as nat);
        }
    }
}

/// A walk leaves the buffer alone and moves the cursor forward by one byte
/// for each of its decisions at most.
pub proof fn lemma_walk_progress(
    s: DecoderState,
    tree: Seq<i8>,
    probs: Seq<Prob>,
    index: int,
    depth: nat,
)
    requires
        s.ready(),
    ensures
        walk(s, tree, probs, index, depth).0.buffer == s.buffer,
        s.cursor <= walk(s, tree, probs, index, depth).0.cursor <= s.cursor + depth,
    decreases depth,
{
    if depth > 0 {
        let probability = probs[index / 2];
        lemma_after_bool_ready(s, probability);
        lemma_after_bool_progress(s, probability);
        let entry = if s.decision(probability) {
            tree[index + 1]
        } else {
            tree[index]
        };
        if entry > 0 {
            lemma_walk_progress(
                s.after_bool(probability),
                tree,
                probs,
                entry as int,
                (depth - 1) as nat,
            );
        }
    }
}

/// A walk that ends within some number of decisions is the same walk
/// whatever greater number it is allowed: it reads the same symbol and ends
/// in the same state.
pub proof fn lemma_walk_needs_no_more(
    s: DecoderState,
    tree: Seq<i8>,
    probs: Seq<Prob>,
    index: int,
    depth: nat,
    more: nat,
)
    requires
        walk_ends(tree, probs, index, depth),
        depth <= more,
    ensures
        walk(s, tree, probs, index, more) == walk(s, tree, probs, index, depth),
    decreases depth,
{
    let probability = probs[index / 2];
    let entry = if s.decision(probability) {
        tree[index + 1]
    } else {
        tree[index]
    };
    if entry > 0 {
        lemma_walk_needs_no_more(
            s.after_bool(probability),
            tree,
            probs,
            entry as int,
            (depth - 1) as nat,
            (more - 1) as nat,
        );
    }
}

/// A tree of two leaves is a boolean by another name: a walk through the
/// table `[-a, -b]` with the one probability `p` reads one boolean with that
/// probability, and gives `a` if it is `false` and `b` if it is `true`.
pub proof fn lemma_two_leaf_tree(s: DecoderState, a: i8, b: i8, probability: Prob)
    requires
        0 <= a,
        0 <= b,
    ensures
        table_valid(seq![(-a) as i8, (-b) as i8], seq![probability], 0),
        tree_symbol(s, seq![(-a) as i8, (-b) as i8], seq![probability], 0) == if s.decision(
            probability,
        ) {
            b
        } else {
            a
        },
        after_tree(s, seq![(-a) as i8, (-b) as i8], seq![probability], 0) == s.after_bool(
            probability,
        ),
{
    let tree = seq![(-a) as i8, (-b) as i8];
    let probs = seq![probability];
    assert(tree.len() == 2);
    assert(tree[0] == -a && tree[1] == -b);
    assert(probs[0] == probability);
    assert(walk_ends(tree, probs, 0, 2));
    reveal_with_fuel(walk, 2);
}

} // verus!
