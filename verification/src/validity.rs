//! Which tree tables can be walked, and how to tell.

use crate::error::DecodingError;
use crate::tree::{table_valid, walk_ends, Prob};
use vstd::prelude::*;

verus! {

/// A walk that ends starts at a pair inside the table.
pub proof fn lemma_walk_ends_inside(tree: Seq<i8>, probs: Seq<Prob>, index: int, depth: nat)
    requires
        walk_ends(tree, probs, index, depth),
    ensures
        0 <= index,
        index + 1 < tree.len(),
        index / 2 < probs.len(),
{
}

/// Walks that end within some number of decisions end within any greater
/// number.
pub proof fn lemma_walk_ends_monotonic(
    tree: Seq<i8>,
    probs: Seq<Prob>,
    index: int,
    depth: nat,
    more: nat,
)
    requires
        walk_ends(tree, probs, index, depth),
        depth <= more,
    ensures
        walk_ends(tree, probs, index, more),
    decreases depth,
{
    if tree[index] > 0 {
        lemma_walk_ends_monotonic(
            tree,
            probs,
            tree[index] as int,
            (depth - 1) as nat,
            (more - 1) as nat,
        );
    }
    if tree[index + 1] > 0 {
        lemma_walk_ends_monotonic(
            tree,
            probs,
            tree[index + 1] as int,
            (depth - 1) as nat,
            (more - 1) as nat,
        );
    }
}

/// Once a further decision settles no further pair, no number of them does:
/// if the pairs whose walks end within `depth + 1` decisions are those whose
/// walks end within `depth`, they are also those whose walks end within any
/// `more >= depth`.
pub proof fn lemma_walk_ends_settles(tree: Seq<i8>, probs: Seq<Prob>, depth: nat, more: nat)
    requires
        depth <= more,
        forall|i: int|
            #![trigger walk_ends(tree, probs, i, depth)]
            #![trigger walk_ends(tree, probs, i, depth + 1)]
            walk_ends(tree, probs, i, depth) == walk_ends(tree, probs, i, depth + 1),
    ensures
        forall|i: int| #[trigger]
            walk_ends(tree, probs, i, more) == walk_ends(tree, probs, i, depth),
    decreases more - depth,
{
    if depth < more {
        let less = (more - 1) as nat;
        lemma_walk_ends_settles(tree, probs, depth, less);
        assert forall|i: int| #[trigger]
            walk_ends(tree, probs, i, more) == walk_ends(tree, probs, i, depth) by {
            if 0 <= i && i + 1 < tree.len() {
                let first = tree[i] as int;
                let second = tree[i + 1] as int;
                assert(walk_ends(tree, probs, first, less) == walk_ends(tree, probs, first, depth));
                assert(walk_ends(tree, probs, second, less) == walk_ends(
                    tree,
                    probs,
                    second,
                    depth,
                ));
            }
            assert(walk_ends(tree, probs, i, more) == walk_ends(tree, probs, i, depth + 1));
        }
    }
}

/// The pairs from which every walk ends within `depth` decisions.
pub open spec fn settled_pairs(tree: Seq<i8>, probs: Seq<Prob>, depth: nat) -> Set<int> {
    Set::new(|i: int| walk_ends(tree, probs, i, depth))
}

/// Whether, somewhere below `depth`, one more decision settled no further
/// pair.
pub open spec fn stalled_below(tree: Seq<i8>, probs: Seq<Prob>, depth: nat) -> bool
    decreases depth,
{
    depth > 0 && (stalled_below(tree, probs, (depth - 1) as nat) || settled_pairs(
        tree,
        probs,
        (depth - 1) as nat,
    ) == settled_pairs(tree, probs, depth))
}

/// The settled pairs are pairs of the table, so there are fewer of them
/// than the table has entries; and they only grow with the depth.
proof fn lemma_settled_pairs_bounded(tree: Seq<i8>, probs: Seq<Prob>, depth: nat)
    requires
        tree.len() >= 1,
    ensures
        settled_pairs(tree, probs, depth).finite(),
        settled_pairs(tree, probs, depth).len() <= tree.len() - 1,
        settled_pairs(tree, probs, depth).subset_of(settled_pairs(tree, probs, depth + 1)),
{
    let pairs = vstd::set_lib::set_int_range(0, tree.len() - 1);
    vstd::set_lib::lemma_int_range(0, tree.len() - 1);
    assert(settled_pairs(tree, probs, depth).subset_of(pairs));
    vstd::set_lib::lemma_len_subset(settled_pairs(tree, probs, depth), pairs);
    assert forall|i: int| settled_pairs(tree, probs, depth).contains(i) implies settled_pairs(
        tree,
        probs,
        depth + 1,
    ).contains(i) by {
        lemma_walk_ends_monotonic(tree, probs, i, depth, depth + 1);
    }
}

/// As long as each further decision settles a further pair, there are at
/// least as many settled pairs as decisions.
proof fn lemma_settled_pairs_grow(tree: Seq<i8>, probs: Seq<Prob>, depth: nat)
    requires
        tree.len() >= 1,
    ensures
        stalled_below(tree, probs, depth) || settled_pairs(tree, probs, depth).len() >= depth,
    decreases depth,
{
    if depth > 0 {
        let less = (depth - 1) as nat;
        lemma_settled_pairs_grow(tree, probs, less);
        lemma_settled_pairs_bounded(tree, probs, less);
        lemma_settled_pairs_bounded(tree, probs, depth);
        let before = settled_pairs(tree, probs, less);
        let after = settled_pairs(tree, probs, depth);
        vstd::set_lib::lemma_len_subset(before, after);
        if before.len() == after.len() {
            vstd::set_lib::lemma_subset_equality(before, after);
        }
    }
}

/// Where one more decision has settled no further pair below `depth`, the
/// pairs settled within `depth` decisions are all that ever are.
proof fn lemma_stalled_is_final(tree: Seq<i8>, probs: Seq<Prob>, depth: nat, more: nat)
    requires
        stalled_below(tree, probs, depth),
        depth <= more,
    ensures
        forall|i: int| #[trigger]
            walk_ends(tree, probs, i, more) == walk_ends(tree, probs, i, depth),
    decreases depth,
{
    let less = (depth - 1) as nat;
    if stalled_below(tree, probs, less) {
        lemma_stalled_is_final(tree, probs, less, more);
        lemma_stalled_is_final(tree, probs, less, depth);
    } else {
        assert forall|i: int|
            #![trigger walk_ends(tree, probs, i, less)]
            #![trigger walk_ends(tree, probs, i, less + 1)]
            walk_ends(tree, probs, i, less) == walk_ends(tree, probs, i, less + 1) by {
            assert(settled_pairs(tree, probs, less).contains(i) == settled_pairs(
                tree,
                probs,
                depth,
            ).contains(i));
        }
        lemma_walk_ends_settles(tree, probs, less, more);
        lemma_walk_ends_settles(tree, probs, less, depth);
    }
}

/// A table is valid from `start` exactly if every walk from `start` ends:
/// walks that end within any number of decisions end within as many as the
/// table has entries, for a walk that goes on for longer has come to some
/// pair twice and can go round for ever.
pub proof fn lemma_walks_that_end_make_a_valid_table(
    tree: Seq<i8>,
    probs: Seq<Prob>,
    start: int,
    depth: nat,
)
    requires
        walk_ends(tree, probs, start, depth),
    ensures
        table_valid(tree, probs, start),
{
    if depth <= tree.len() {
        lemma_walk_ends_monotonic(tree, probs, start, depth, tree.len());
    } else {
        lemma_settled_pairs_grow(tree, probs, tree.len());
        lemma_settled_pairs_bounded(tree, probs, tree.len());
        lemma_stalled_is_final(tree, probs, tree.len(), depth);
    }
}

/// Whether a walk that comes to `entry` ends, given for each pair of the
/// table whether the walks from it end.
fn entry_settled(entry: i8, settled: &Vec<bool>) -> (good: bool)
    ensures
        good == (entry <= 0 || (entry < settled@.len() && settled@[entry as int])),
{
    if entry <= 0 {
        true
    } else {
        let next: usize = entry as usize;
        next < settled.len() && settled[next]
    }
}

/// Checks a tree table before it is walked from `start`.
///
/// The table is refused unless every walk from `start` stays inside `tree`
/// and `probs` and reaches a leaf, so that `read_with_tree` may be called
/// with it.
pub fn check_table(tree: &[i8], probs: &[Prob], start: isize) -> (outcome: Result<
    (),
    DecodingError,
>)
    ensures
        table_valid(tree@, probs@, start as int) ==> outcome == Ok::<(), DecodingError>(()),
        !table_valid(tree@, probs@, start as int) ==> outcome == Err::<(), DecodingError>(
            DecodingError::BitStreamError,
        ),
{
    let n = tree.len();
    if start < 0 || n < 2 || start as usize > n - 2 {
        return Err(DecodingError::BitStreamError);
    }
    // For each pair, whether every walk from it ends within `depth`
    // decisions: none does within none.
    let mut settled: Vec<bool> = Vec::new();
    while settled.len() < n
        invariant
            settled@.len() <= n,
            forall|i: int| 0 <= i < settled@.len() ==> !settled@[i],
        decreases n - settled@.len(),
    {
        settled.push(false);
    }
    let mut depth: usize = 0;
    let mut changed = true;
    while changed && depth < n
        invariant
            n == tree@.len(),
            settled@.len() == n,
            depth <= n,
            forall|i: int|
                0 <= i < n ==> settled@[i] == #[trigger] walk_ends(tree@, probs@, i, depth as nat),
            !changed ==> depth >= 1 && forall|i: int|
                #![trigger walk_ends(tree@, probs@, i, (depth - 1) as nat)]
                walk_ends(tree@, probs@, i, (depth - 1) as nat) == walk_ends(
                    tree@,
                    probs@,
                    i,
                    depth as nat,
                ),
        decreases
                n - depth + if changed {
                    1int
                } else {
                    0int
                },
    {
        let mut next: Vec<bool> = Vec::new();
        changed = false;
        let mut i: usize = 0;
        while i < n
            invariant
                n == tree@.len(),
                settled@.len() == n,
                depth < n,
                i <= n,
                next@.len() == i,
                forall|j: int|
                    0 <= j < n ==> settled@[j] == #[trigger] walk_ends(
                        tree@,
                        probs@,
                        j,
                        depth as nat,
                    ),
                forall|j: int|
                    0 <= j < i ==> next@[j] == #[trigger] walk_ends(
                        tree@,
                        probs@,
                        j,
                        (depth + 1) as nat,
                    ),
                !changed ==> forall|j: int|
                    0 <= j < i ==> #[trigger] walk_ends(tree@, probs@, j, depth as nat)
                        == walk_ends(tree@, probs@, j, (depth + 1) as nat),
            decreases n - i,
        {
            let good = i + 1 < n && i / 2 < probs.len() && entry_settled(tree[i], &settled)
                && entry_settled(tree[i + 1], &settled);
            proof {
                if i + 1 < n {
                    let first = tree@[i as int] as int;
                    let second = tree@[i + 1] as int;
                    if walk_ends(tree@, probs@, first, depth as nat) {
                        lemma_walk_ends_inside(tree@, probs@, first, depth as nat);
                    }
                    if walk_ends(tree@, probs@, second, depth as nat) {
                        lemma_walk_ends_inside(tree@, probs@, second, depth as nat);
                    }
                }
                assert(good == walk_ends(tree@, probs@, i as int, (depth + 1) as nat));
            }
            if good != settled[i] {
                changed = true;
            }
            next.push(good);
            i += 1;
        }
        settled = next;
        depth += 1;
        assert forall|i: int| 0 <= i < n implies settled@[i] == #[trigger] walk_ends(
            tree@,
            probs@,
            i,
            depth as nat,
        ) by {
            assert(settled@[i] == walk_ends(tree@, probs@, i, (depth - 1 + 1) as nat));
        }
    }
    proof {
        if !changed {
            lemma_walk_ends_settles(tree@, probs@, (depth - 1) as nat, n as nat);
        }
    }
    if settled[start as usize] {
        Ok(())
    } else {
        Err(DecodingError::BitStreamError)
    }
}

} // verus!
