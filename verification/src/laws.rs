//! What holds of every tree that the instructions can build.

use crate::tree::{files_sum, lemma_run, lemma_seek, parent_name, root_name, Step, Tree};
use vstd::prelude::*;

verus! {

/// After any stream of instructions, every directory of the tree holds
/// exactly the sum of its children's sizes: a file counts with its own size,
/// a directory with its cumulative size.
pub proof fn law_directories_balanced(t: Tree, steps: Seq<Step>, i: int)
    requires
        t.wf(),
        t.run(steps).has(i),
        t.run(steps).nodes[i].folder,
    ensures
        t.run(steps).nodes[i].size == t.run(steps).weights(t.run(steps).nodes[i].children),
{
    lemma_run(t, steps);
    assert(t.run(steps).balanced_at(i));
}

/// A stream that runs to its end adds to the root exactly the sizes of the
/// files it lists, however deep they lie. From the empty tree the root
/// therefore ends up with the sum of all listed files.
pub proof fn law_conservation(t: Tree, steps: Seq<Step>)
    requires
        t.wf(),
        !t.fails(steps),
    ensures
        t.run(steps).total() == t.total() + files_sum(steps),
        t == Tree::root() ==> t.run(steps).total() == files_sum(steps),
{
    lemma_run(t, steps);
}

/// The empty tree is well formed, so every stream may start from it.
pub proof fn law_root_wf()
    ensures
        Tree::root().wf(),
{
    let t = Tree::root();
    assert(t.balanced_at(0));
    assert(t.children_sorted(0));
}

/// A move to a name that no child directory of the cursor bears leaves the
/// cursor, and the whole tree, as it was.
pub proof fn law_move_to_missing(t: Tree, target: Seq<char>)
    requires
        target != parent_name(),
        target != root_name(),
        forall|k: int|
            0 <= k < t.nodes[t.cursor].children.len() ==> !(t.nodes[#[trigger] t.nodes[t.cursor].children[k]].folder
                && t.nodes[t.nodes[t.cursor].children[k]].name == target),
    ensures
        t.moved(target).cursor == t.cursor,
        t.moved(target) == t,
{
    lemma_seek(t, target, true, 0);
}

/// A move to the parent from the root stays on the root.
pub proof fn law_parent_of_root(t: Tree)
    requires
        t.shaped(),
        t.cursor == 0,
    ensures
        t.moved(parent_name()).cursor == 0,
{
}

/// At most one entry is the smallest candidate: the selection has one
/// answer, whenever and however often it is asked.
pub proof fn law_smallest_unique(t: Tree, deficit: nat, i: int, j: int)
    requires
        t.is_smallest(deficit, i),
        t.is_smallest(deficit, j),
    ensures
        i == j,
{
    assert(t.candidate(deficit, i));
    assert(t.candidate(deficit, j));
}

/// The root qualifies for removal whenever the space asked for is less than
/// the device holds, so a selection then always has an answer.
pub proof fn law_root_is_candidate(t: Tree, capacity: nat, required: nat)
    requires
        t.shaped(),
        t.total() <= capacity,
        capacity - t.total() <= required,
        required < capacity,
    ensures
        t.candidate(t.deficit(capacity, required), 0),
{
}

/// Listing a file of the same name twice gives two file entries, and the
/// cursor directory grows by the size both times.
pub proof fn law_duplicates_kept(t: Tree, name: Seq<char>, size: nat)
    requires
        t.wf(),
    ensures
        ({
            let u = t.with_file(name, size).with_file(name, size);
            &&& u.nodes.len() == t.nodes.len() + 2
            &&& u.nodes[t.nodes.len() as int] == t.file_entry(name, size)
            &&& u.nodes[t.nodes.len() as int + 1] == t.file_entry(name, size)
            &&& u.nodes[t.cursor].size == t.nodes[t.cursor].size + 2 * size
            &&& u.total() == t.total() + 2 * size
        }),
{
    let v = t.with_file(name, size);
    crate::tree::lemma_with_file_wf(t, name, size);
    crate::tree::lemma_root_is_ancestor(t, t.cursor);
    crate::tree::lemma_root_is_ancestor(v, v.cursor);
    if v.is_ancestor(t.nodes.len() as int, v.cursor) {
        crate::tree::lemma_ancestor_below(v, t.nodes.len() as int, v.cursor);
    }
}

/// The sum of the directories that are no larger than a threshold is at
/// most the threshold times the number of entries: where that product fits
/// the machine's integers, so does the sum.
pub proof fn law_sum_bounded(t: Tree, threshold: nat, n: int)
    requires
        0 <= n,
    ensures
        t.small_sum(threshold, n) <= n * threshold,
    decreases n,
{
    if n > 0 {
        law_sum_bounded(t, threshold, n - 1);
        assert((n - 1) * threshold + threshold == n * threshold) by (nonlinear_arith);
    }
}

/// Nodes are only ever added: a step leaves every entry at its position,
/// with its parent, its kind and its name; a size can only grow and a list
/// of children can only get longer at its end.
pub proof fn law_append_only(t: Tree, step: Step, i: int)
    requires
        t.shaped(),
        t.has(i),
    ensures
        ({
            let u = t.apply(step);
            &&& u.has(i)
            &&& u.nodes[i].parent == t.nodes[i].parent
            &&& u.nodes[i].folder == t.nodes[i].folder
            &&& u.nodes[i].name == t.nodes[i].name
            &&& u.nodes[i].size >= t.nodes[i].size
            &&& t.nodes[i].children.is_prefix_of(u.nodes[i].children)
        }),
{
    let u = t.apply(step);
    assert(t.nodes[i].children.is_prefix_of(u.nodes[i].children)) by {
        assert(t.nodes[i].children =~= t.nodes[i].children.push(t.nodes.len() as int).take(
            t.nodes[i].children.len() as int,
        ));
        assert(t.nodes[i].children =~= t.nodes[i].children.take(
            t.nodes[i].children.len() as int,
        ));
    }
}

} // verus!
