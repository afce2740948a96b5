//! The mathematical model of the directory tree.
//!
//! A tree is a sequence of entries addressed by their position. Position 0 is
//! the root directory; every other entry names its parent, which always sits
//! at a smaller position. All reasoning about the shape of the tree and about
//! cumulative sizes happens here, on plain sequences and integers.

use crate::text::{decimal_text, spaces};
use vstd::prelude::*;

verus! {

/// One node of the model: a file, or a directory with its children.
pub struct Entry {
    /// Position of the parent; `None` only for the root.
    pub parent: Option<int>,
    /// `true` for a directory, `false` for a file.
    pub folder: bool,
    pub name: Seq<char>,
    /// Positions of the children in insertion order; empty for a file.
    pub children: Seq<int>,
    /// A file's own size, or a directory's cumulative size.
    pub size: nat,
}

/// The whole arena together with the position of the current directory.
pub struct Tree {
    pub nodes: Seq<Entry>,
    pub cursor: int,
}

/// The name that moves the cursor to its parent.
pub open spec fn parent_name() -> Seq<char> {
    seq!['.', '.']
}

/// The name that moves the cursor to the root.
pub open spec fn root_name() -> Seq<char> {
    seq!['/']
}

/// One instruction of the stream that builds a tree.
pub enum Step {
    /// Move the cursor to the named directory.
    Cd(Seq<char>),
    /// A listing follows; nothing changes.
    List,
    /// The current directory holds a directory of this name.
    Dir(Seq<char>),
    /// The current directory holds a file of this name and size.
    File(Seq<char>, nat),
}

/// Sum of the sizes of all files that the stream lists.
pub open spec fn files_sum(steps: Seq<Step>) -> nat
    decreases steps.len(),
{
    if steps.len() == 0 {
        0
    } else {
        files_sum(steps.drop_last()) + match steps.last() {
            Step::File(_, size) => size,
            _ => 0,
        }
    }
}

impl Tree {
    pub open spec fn has(self, i: int) -> bool {
        0 <= i < self.nodes.len()
    }

    /// Entry `i` names a directory at a smaller position that lists `i`.
    pub open spec fn parent_ok(self, i: int) -> bool {
        match self.nodes[i].parent {
            Some(p) => 0 <= p < i && self.nodes[p].folder && self.nodes[p].children.contains(i),
            None => false,
        }
    }

    /// The `k`-th child of `i` sits at a larger position and points back at `i`.
    pub open spec fn child_ok(self, i: int, k: int) -> bool {
        let c = self.nodes[i].children[k];
        i < c < self.nodes.len() && self.nodes[c].parent == Some(i)
    }

    /// The children of `i` are listed in strictly increasing order.
    pub open spec fn children_sorted(self, i: int) -> bool {
        forall|j: int, k: int|
            0 <= j < k < self.nodes[i].children.len() ==> self.nodes[i].children[j]
                < self.nodes[i].children[k]
    }

    /// The parent links form a tree rooted at position 0 and agree with the
    /// child lists.
    pub open spec fn shaped(self) -> bool {
        &&& self.nodes.len() > 0
        &&& self.nodes[0].parent is None
        &&& self.nodes[0].folder
        &&& self.has(self.cursor)
        &&& self.nodes[self.cursor].folder
        &&& forall|i: int| 0 < i < self.nodes.len() ==> #[trigger] self.parent_ok(i)
        &&& forall|i: int, k: int|
            self.has(i) && 0 <= k < self.nodes[i].children.len() ==> #[trigger] self.child_ok(i, k)
        &&& forall|i: int| self.has(i) ==> #[trigger] self.children_sorted(i)
        &&& forall|i: int|
            self.has(i) && !self.nodes[i].folder ==> (#[trigger] self.nodes[i].children).len() == 0
    }

    /// Sum of the sizes of the entries at the given positions.
    pub open spec fn weights(self, ids: Seq<int>) -> nat
        decreases ids.len(),
    {
        if ids.len() == 0 {
            0
        } else {
            self.weights(ids.drop_last()) + self.nodes[ids.last()].size
        }
    }

    /// Directory `i` weighs exactly what its children weigh together.
    pub open spec fn balanced_at(self, i: int) -> bool {
        self.nodes[i].folder ==> self.nodes[i].size == self.weights(self.nodes[i].children)
    }

    /// Every directory's cumulative size is the sum of its children's sizes.
    pub open spec fn balanced(self) -> bool {
        forall|i: int| self.has(i) ==> #[trigger] self.balanced_at(i)
    }

    /// The invariant of a tree under construction.
    pub open spec fn wf(self) -> bool {
        self.shaped() && self.balanced()
    }

    /// `a` is `x` itself or lies on the parent chain from `x` to the root.
    pub open spec fn is_ancestor(self, a: int, x: int) -> bool
        decreases x,
    {
        a == x || (0 < x < self.nodes.len() && match self.nodes[x].parent {
            Some(p) => 0 <= p < x && self.is_ancestor(a, p),
            None => false,
        })
    }

    /// The child of `f` through which the parent chain of `x` passes.
    pub open spec fn child_towards(self, f: int, x: int) -> int
        decreases x,
    {
        if 0 < x < self.nodes.len() {
            match self.nodes[x].parent {
                Some(p) => if p == f || !(0 <= p < x) {
                    x
                } else {
                    self.child_towards(f, p)
                },
                None => x,
            }
        } else {
            x
        }
    }

    /// The tree that holds nothing but an empty, unnamed root directory.
    pub open spec fn root() -> Tree {
        Tree {
            nodes: seq![
                Entry { parent: None, folder: true, name: Seq::empty(), children: Seq::empty(), size: 0 },
            ],
            cursor: 0,
        }
    }

    /// The entry of a new file.
    pub open spec fn file_entry(self, name: Seq<char>, size: nat) -> Entry {
        Entry { parent: Some(self.cursor), folder: false, name, children: Seq::empty(), size }
    }

    /// The entry of a new, empty directory.
    pub open spec fn folder_entry(self, name: Seq<char>) -> Entry {
        Entry { parent: Some(self.cursor), folder: true, name, children: Seq::empty(), size: 0 }
    }

    /// Appends `e` to the arena and lists it last under the directory `at`.
    /// No size is propagated.
    pub open spec fn with_entry(self, at: int, e: Entry) -> Tree {
        let dir = self.nodes[at];
        Tree {
            nodes: self.nodes.update(
                at,
                Entry { children: dir.children.push(self.nodes.len() as int), ..dir },
            ).push(e),
            cursor: self.cursor,
        }
    }

    /// The tree after a new empty directory was listed under the cursor.
    pub open spec fn with_folder(self, name: Seq<char>) -> Tree {
        self.with_entry(self.cursor, self.folder_entry(name))
    }

    /// The tree after a new file was listed under the cursor and its size
    /// was added to those ancestors of the cursor that sit above `floor`.
    pub open spec fn with_file_above(self, name: Seq<char>, size: nat, floor: int) -> Tree {
        let n = self.nodes.len() as int;
        Tree {
            nodes: Seq::new(
                (n + 1) as nat,
                |i: int|
                    if i == n {
                        self.file_entry(name, size)
                    } else {
                        let e = self.nodes[i];
                        Entry {
                            children: if i == self.cursor {
                                e.children.push(n)
                            } else {
                                e.children
                            },
                            size: if self.is_ancestor(i, self.cursor) && i > floor {
                                e.size + size
                            } else {
                                e.size
                            },
                            ..e
                        }
                    },
            ),
            cursor: self.cursor,
        }
    }

    /// The tree after a new file was listed under the cursor and its size
    /// was added to the cursor directory and to every ancestor of it.
    pub open spec fn with_file(self, name: Seq<char>, size: nat) -> Tree {
        self.with_file_above(name, size, -1)
    }

    /// The first child of the cursor, from list position `from` on, that has
    /// the given kind and name.
    pub open spec fn seek(self, target: Seq<char>, folder: bool, from: int) -> Option<int>
        decreases self.nodes[self.cursor].children.len() - from,
    {
        let kids = self.nodes[self.cursor].children;
        if from < 0 || from >= kids.len() {
            None
        } else if self.nodes[kids[from]].folder == folder && self.nodes[kids[from]].name == target {
            Some(kids[from])
        } else {
            self.seek(target, folder, from + 1)
        }
    }

    /// A move to `target` names no child directory but a file of the cursor.
    pub open spec fn blocked(self, target: Seq<char>) -> bool {
        &&& target != parent_name()
        &&& target != root_name()
        &&& self.seek(target, true, 0) is None
        &&& self.seek(target, false, 0) is Some
    }

    /// Where the cursor stands after a move to `target`.
    pub open spec fn cursor_after(self, target: Seq<char>) -> int {
        if target == parent_name() {
            match self.nodes[self.cursor].parent {
                Some(p) => p,
                None => 0,
            }
        } else if target == root_name() {
            0
        } else {
            match self.seek(target, true, 0) {
                Some(c) => c,
                None => self.cursor,
            }
        }
    }

    /// The tree after a move to `target`: only the cursor changes.
    pub open spec fn moved(self, target: Seq<char>) -> Tree {
        Tree { nodes: self.nodes, cursor: self.cursor_after(target) }
    }

    /// The step cannot be carried out: it is a move that names a file.
    pub open spec fn refuses(self, step: Step) -> bool {
        match step {
            Step::Cd(target) => self.blocked(target),
            _ => false,
        }
    }

    /// The tree after one step.
    pub open spec fn apply(self, step: Step) -> Tree {
        match step {
            Step::Cd(target) => self.moved(target),
            Step::List => self,
            Step::Dir(name) => self.with_folder(name),
            Step::File(name, size) => self.with_file(name, size),
        }
    }

    /// Some step of the stream is refused by the tree that the steps before
    /// it have built.
    pub open spec fn fails(self, steps: Seq<Step>) -> bool
        decreases steps.len(), 0int,
    {
        steps.len() > 0 && (self.fails(steps.drop_last()) || self.run(steps.drop_last()).refuses(
            steps.last(),
        ))
    }

    /// The tree after the steps of the stream, taken in order up to the
    /// first one that is refused.
    pub open spec fn run(self, steps: Seq<Step>) -> Tree
        decreases steps.len(), 1int,
    {
        if steps.len() == 0 {
            self
        } else if self.fails(steps) {
            self.run(steps.drop_last())
        } else {
            self.run(steps.drop_last()).apply(steps.last())
        }
    }

    /// Sum of the cumulative sizes of those directories among the first `n`
    /// entries that are no larger than `threshold`.
    pub open spec fn small_sum(self, threshold: nat, n: int) -> nat
        decreases n,
    {
        if n <= 0 {
            0
        } else {
            self.small_sum(threshold, n - 1) + (if self.nodes[n - 1].folder && self.nodes[n
                - 1].size <= threshold {
                self.nodes[n - 1].size
            } else {
                0
            })
        }
    }

    /// Sum of the cumulative sizes of all directories that are no larger
    /// than `threshold`.
    pub open spec fn sum_at_most(self, threshold: nat) -> nat {
        self.small_sum(threshold, self.nodes.len() as int)
    }

    /// What must be freed beyond what is free already, on a device of
    /// `capacity` of which `required` is to be free.
    pub open spec fn deficit(self, capacity: nat, required: nat) -> nat {
        (required - (capacity - self.total())) as nat
    }

    /// Entry `i` is a directory whose removal frees more than `deficit`.
    pub open spec fn candidate(self, deficit: nat, i: int) -> bool {
        self.has(i) && self.nodes[i].folder && self.nodes[i].size > deficit
    }

    /// Entry `i` is the smallest candidate, and the first of that size.
    pub open spec fn is_smallest(self, deficit: nat, i: int) -> bool {
        &&& self.candidate(deficit, i)
        &&& forall|j: int| #[trigger]
            self.candidate(deficit, j) ==> self.nodes[i].size <= self.nodes[j].size
        &&& forall|j: int| #[trigger]
            self.candidate(deficit, j) && j < i ==> self.nodes[i].size < self.nodes[j].size
    }

    /// The line that shows entry `i`: the indentation, the name, and the
    /// size, set off as `name: size` for a file and `name/ (size)` for a
    /// directory.
    pub open spec fn line(self, i: int, indent: nat) -> Seq<char> {
        let e = self.nodes[i];
        if e.folder {
            spaces(indent) + e.name + seq!['/', ' ', '('] + decimal_text(e.size) + seq![')', '\n']
        } else {
            spaces(indent) + e.name + seq![':', ' '] + decimal_text(e.size) + seq!['\n']
        }
    }

    /// The lines that show entry `i` and, one step further indented,
    /// everything below it, children in the order of their listing.
    pub open spec fn listing(self, i: int, indent: nat) -> Seq<char>
        decreases self.nodes.len() - i, self.nodes[i].children.len() + 1,
    {
        if self.has(i) {
            self.line(i, indent) + self.below(i, self.nodes[i].children.len() as int, indent + 1)
        } else {
            Seq::empty()
        }
    }

    /// The lines that show the first `k` children of entry `i` with
    /// everything below them.
    pub open spec fn below(self, i: int, k: int, indent: nat) -> Seq<char>
        decreases self.nodes.len() - i, k,
    {
        if self.has(i) && 0 < k <= self.nodes[i].children.len() {
            let c = self.nodes[i].children[k - 1];
            self.below(i, k - 1, indent) + (if i < c < self.nodes.len() {
                self.listing(c, indent)
            } else {
                Seq::empty()
            })
        } else {
            Seq::empty()
        }
    }

    /// Cumulative size of the root directory.
    pub open spec fn total(self) -> nat {
        self.nodes[0].size
    }
}


/// An ancestor never sits at a larger position than its descendant.
pub proof fn lemma_ancestor_below(t: Tree, a: int, x: int)
    requires
        t.is_ancestor(a, x),
    ensures
        a <= x,
    decreases x,
{
    if a != x {
        lemma_ancestor_below(t, a, t.nodes[x].parent->0);
    }
}

/// Every entry of a shaped tree descends from the root.
pub proof fn lemma_root_is_ancestor(t: Tree, x: int)
    requires
        t.shaped(),
        t.has(x),
    ensures
        t.is_ancestor(0, x),
    decreases x,
{
    if x != 0 {
        assert(t.parent_ok(x));
        lemma_root_is_ancestor(t, t.nodes[x].parent->0);
    }
}

/// Everything on the parent chain of a directory is a directory.
pub proof fn lemma_ancestor_is_folder(t: Tree, a: int, x: int)
    requires
        t.shaped(),
        t.has(x),
        t.nodes[x].folder,
        t.is_ancestor(a, x),
    ensures
        t.has(a),
        t.nodes[a].folder,
    decreases x,
{
    if a != x {
        assert(t.parent_ok(x));
        lemma_ancestor_is_folder(t, a, t.nodes[x].parent->0);
    }
}

/// The parent of an ancestor is an ancestor too.
pub proof fn lemma_ancestor_parent(t: Tree, c: int, x: int)
    requires
        t.is_ancestor(c, x),
        0 < c < t.nodes.len(),
        t.nodes[c].parent is Some,
        0 <= t.nodes[c].parent->0 < c,
    ensures
        t.is_ancestor(t.nodes[c].parent->0, x),
    decreases x,
{
    let f = t.nodes[c].parent->0;
    if c == x {
        assert(t.is_ancestor(f, f));
    } else {
        lemma_ancestor_parent(t, c, t.nodes[x].parent->0);
    }
}

/// Two ancestors of one entry lie on a single chain.
pub proof fn lemma_ancestors_chain(t: Tree, a: int, b: int, x: int)
    requires
        t.is_ancestor(a, x),
        t.is_ancestor(b, x),
    ensures
        t.is_ancestor(a, b) || t.is_ancestor(b, a),
    decreases x,
{
    if a != x && b != x {
        lemma_ancestors_chain(t, a, b, t.nodes[x].parent->0);
    }
}

/// A proper ancestor `f` of `x` has a child through which the chain of `x` passes.
pub proof fn lemma_child_towards(t: Tree, f: int, x: int)
    requires
        t.is_ancestor(f, x),
        f != x,
    ensures
        t.has(t.child_towards(f, x)),
        t.nodes[t.child_towards(f, x)].parent == Some(f),
        f < t.child_towards(f, x),
        t.is_ancestor(t.child_towards(f, x), x),
    decreases x,
{
    let p = t.nodes[x].parent->0;
    if p != f {
        lemma_child_towards(t, f, p);
    }
}

/// At most one child of a directory is an ancestor of a given entry.
pub proof fn lemma_one_child_on_chain(t: Tree, f: int, c: int, d: int, x: int)
    requires
        t.has(c),
        t.has(d),
        t.nodes[c].parent == Some(f),
        t.nodes[d].parent == Some(f),
        f < c,
        f < d,
        t.is_ancestor(c, x),
        t.is_ancestor(d, x),
    ensures
        c == d,
{
    lemma_ancestors_chain(t, c, d, x);
    if c != d {
        if t.is_ancestor(c, d) {
            lemma_ancestor_below(t, c, f);
        } else {
            lemma_ancestor_below(t, d, f);
        }
    }
}

/// A list of positions weighs at least as much as each entry it holds.
pub proof fn lemma_weights_cover(t: Tree, ids: Seq<int>, k: int)
    requires
        0 <= k < ids.len(),
    ensures
        t.nodes[ids[k]].size <= t.weights(ids),
    decreases ids.len(),
{
    if k < ids.len() - 1 {
        lemma_weights_cover(t, ids.drop_last(), k);
    }
}

/// In a well-formed tree no entry outweighs any of its ancestors.
pub proof fn lemma_ancestor_outweighs(t: Tree, a: int, x: int)
    requires
        t.wf(),
        t.has(x),
        t.is_ancestor(a, x),
    ensures
        t.nodes[x].size <= t.nodes[a].size,
    decreases x,
{
    if a != x {
        let p = t.nodes[x].parent->0;
        assert(t.parent_ok(x));
        assert(t.balanced_at(p));
        let k = choose|k: int| 0 <= k < t.nodes[p].children.len() && t.nodes[p].children[k] == x;
        lemma_weights_cover(t, t.nodes[p].children, k);
        lemma_ancestor_outweighs(t, a, p);
    }
}

/// If the sizes of two trees differ by `s` at position `hit` only, a strictly
/// increasing list weighs `s` more in the second exactly when it holds `hit`.
pub proof fn lemma_weights_shift(t: Tree, u: Tree, ids: Seq<int>, hit: int, s: nat)
    requires
        forall|j: int, k: int| 0 <= j < k < ids.len() ==> ids[j] < ids[k],
        forall|k: int|
            0 <= k < ids.len() ==> u.nodes[#[trigger] ids[k]].size == t.nodes[ids[k]].size + (if ids[k]
                == hit {
                s
            } else {
                0
            }),
    ensures
        u.weights(ids) == t.weights(ids) + (if ids.contains(hit) {
            s
        } else {
            0
        }),
    decreases ids.len(),
{
    if ids.len() > 0 {
        let front = ids.drop_last();
        lemma_weights_shift(t, u, front, hit, s);
        if ids.last() == hit {
            assert(!front.contains(hit)) by {
                if front.contains(hit) {
                    let k = choose|k: int| 0 <= k < front.len() && front[k] == hit;
                    assert(ids[k] < ids[ids.len() - 1]);
                }
            }
            assert(ids.contains(hit));
        } else {
            assert(ids.contains(hit) == front.contains(hit)) by {
                if ids.contains(hit) {
                    let k = choose|k: int| 0 <= k < ids.len() && ids[k] == hit;
                    assert(front[k] == hit);
                }
                if front.contains(hit) {
                    let k = choose|k: int| 0 <= k < front.len() && front[k] == hit;
                    assert(ids[k] == hit);
                }
            }
        }
    }
}


/// A search that starts at `from` finds nothing if no child from there on has
/// the kind and the name, and otherwise finds a child of the cursor that has both.
pub proof fn lemma_seek(t: Tree, target: Seq<char>, folder: bool, from: int)
    requires
        0 <= from,
    ensures
        match t.seek(target, folder, from) {
            Some(c) => exists|k: int|
                from <= k < t.nodes[t.cursor].children.len() && t.nodes[t.cursor].children[k] == c
                    && t.nodes[c].folder == folder && t.nodes[c].name == target,
            None => forall|k: int|
                from <= k < t.nodes[t.cursor].children.len() ==> !(t.nodes[#[trigger] t.nodes[t.cursor].children[k]].folder
                    == folder && t.nodes[t.nodes[t.cursor].children[k]].name == target),
        },
    decreases t.nodes[t.cursor].children.len() - from,
{
    let kids = t.nodes[t.cursor].children;
    if from < kids.len() {
        if t.nodes[kids[from]].folder == folder && t.nodes[kids[from]].name == target {
            assert(kids[from] == t.seek(target, folder, from)->0);
        } else {
            lemma_seek(t, target, folder, from + 1);
        }
    }
}

/// A move keeps a shaped tree shaped and touches no entry.
pub proof fn lemma_moved_wf(t: Tree, target: Seq<char>)
    requires
        t.shaped(),
    ensures
        t.moved(target).shaped(),
        t.balanced() ==> t.moved(target).balanced(),
{
    let u = t.moved(target);
    if target == parent_name() {
        if t.cursor != 0 {
            assert(t.parent_ok(t.cursor));
        }
    } else if target != root_name() {
        lemma_seek(t, target, true, 0);
        if t.seek(target, true, 0) is Some {
            let c = t.seek(target, true, 0)->0;
            let k = choose|k: int|
                0 <= k < t.nodes[t.cursor].children.len() && t.nodes[t.cursor].children[k] == c
                    && t.nodes[c].folder == true && t.nodes[c].name == target;
            assert(t.child_ok(t.cursor, k));
        }
    }
    assert(u.has(u.cursor) && u.nodes[u.cursor].folder);
    assert forall|i: int| 0 < i < u.nodes.len() implies #[trigger] u.parent_ok(i) by {
        assert(t.parent_ok(i));
    }
    assert forall|i: int, k: int|
        u.has(i) && 0 <= k < u.nodes[i].children.len() implies #[trigger] u.child_ok(i, k) by {
        assert(t.child_ok(i, k));
    }
    assert forall|i: int| u.has(i) implies #[trigger] u.children_sorted(i) by {
        assert(t.children_sorted(i));
    }
    if t.balanced() {
        assert forall|i: int| u.has(i) implies #[trigger] u.balanced_at(i) by {
            assert(t.balanced_at(i));
            lemma_weights_same(t, u, t.nodes[i].children);
        }
    }
}

/// Trees that agree on the sizes weigh every list alike.
pub proof fn lemma_weights_same(t: Tree, u: Tree, ids: Seq<int>)
    requires
        forall|k: int| 0 <= k < ids.len() ==> u.nodes[#[trigger] ids[k]].size == t.nodes[ids[k]].size,
    ensures
        u.weights(ids) == t.weights(ids),
    decreases ids.len(),
{
    if ids.len() > 0 {
        lemma_weights_same(t, u, ids.drop_last());
    }
}


impl Tree {
    /// `u` is `self` with one more entry, listed last under the directory
    /// `at`; sizes and names are left open.
    pub open spec fn grown_to(self, u: Tree, at: int) -> bool {
        let n = self.nodes.len() as int;
        &&& self.has(at)
        &&& self.nodes[at].folder
        &&& u.cursor == self.cursor
        &&& u.nodes.len() == n + 1
        &&& u.nodes[n].parent == Some(at)
        &&& u.nodes[n].children.len() == 0
        &&& forall|i: int|
            0 <= i < n ==> (#[trigger] u.nodes[i]).parent == self.nodes[i].parent && u.nodes[i].folder
                == self.nodes[i].folder && u.nodes[i].children == (if i == at {
                self.nodes[i].children.push(n)
            } else {
                self.nodes[i].children
            })
    }
}

/// Listing one more entry under a directory keeps the tree shaped.
pub proof fn lemma_grown_shaped(t: Tree, u: Tree, at: int)
    requires
        t.shaped(),
        t.grown_to(u, at),
    ensures
        u.shaped(),
{
    let n = t.nodes.len() as int;
    let c = at;
    assert(u.nodes[0].parent is None && u.nodes[0].folder);
    assert(u.nodes[t.cursor].folder);
    assert forall|i: int| 0 < i < u.nodes.len() implies #[trigger] u.parent_ok(i) by {
        if i < n {
            assert(t.parent_ok(i));
            let p = t.nodes[i].parent->0;
            let k = choose|k: int| 0 <= k < t.nodes[p].children.len() && t.nodes[p].children[k] == i;
            assert(u.nodes[p].children[k] == i);
        } else {
            assert(u.nodes[c].children[t.nodes[c].children.len() as int] == n);
        }
    }
    assert forall|i: int, k: int|
        u.has(i) && 0 <= k < u.nodes[i].children.len() implies #[trigger] u.child_ok(i, k) by {
        if i < n && k < t.nodes[i].children.len() {
            assert(t.child_ok(i, k));
            assert(u.nodes[i].children[k] == t.nodes[i].children[k]);
        }
    }
    assert forall|i: int| u.has(i) implies #[trigger] u.children_sorted(i) by {
        if i < n {
            assert(t.children_sorted(i));
            assert forall|j: int, k: int| 0 <= j < k < u.nodes[i].children.len() implies u.nodes[i].children[j]
                < u.nodes[i].children[k] by {
                if k < t.nodes[i].children.len() {
                    assert(t.nodes[i].children[j] < t.nodes[i].children[k]);
                } else {
                    assert(t.child_ok(i, j));
                }
            }
        }
    }
    assert forall|i: int| u.has(i) && !u.nodes[i].folder implies (#[trigger] u.nodes[i].children).len()
        == 0 by {
        if i < n {
            assert(t.nodes[i].children.len() == 0);
        }
    }
}

/// Listing a new empty directory keeps the tree well formed.
pub proof fn lemma_with_folder_wf(t: Tree, name: Seq<char>)
    requires
        t.wf(),
    ensures
        t.with_folder(name).wf(),
{
    let u = t.with_folder(name);
    let n = t.nodes.len() as int;
    lemma_grown_shaped(t, u, t.cursor);
    assert forall|i: int| u.has(i) implies #[trigger] u.balanced_at(i) by {
        if i < n {
            let kids = t.nodes[i].children;
            assert(t.balanced_at(i));
            assert forall|k: int| 0 <= k < kids.len() implies u.nodes[#[trigger] kids[k]].size
                == t.nodes[kids[k]].size by {
                assert(t.child_ok(i, k));
            }
            lemma_weights_same(t, u, kids);
            if i == t.cursor {
                assert(kids.push(n).drop_last() =~= kids);
            }
        }
    }
}

/// Listing a new file and adding its size along the parent chain of the
/// cursor keeps the tree well formed.
pub proof fn lemma_with_file_wf(t: Tree, name: Seq<char>, size: nat)
    requires
        t.wf(),
    ensures
        t.with_file(name, size).wf(),
{
    let u = t.with_file(name, size);
    let n = t.nodes.len() as int;
    let c = t.cursor;
    lemma_grown_shaped(t, u, t.cursor);
    assert forall|i: int| u.has(i) implies #[trigger] u.balanced_at(i) by {
        if i < n && t.nodes[i].folder {
            let kids = t.nodes[i].children;
            let above = t.is_ancestor(i, c) && i != c;
            let hit = if above {
                t.child_towards(i, c)
            } else {
                -1
            };
            assert(t.balanced_at(i));
            assert(t.children_sorted(i));
            if above {
                lemma_child_towards(t, i, c);
            }
            assert forall|k: int| 0 <= k < kids.len() implies u.nodes[#[trigger] kids[k]].size
                == t.nodes[kids[k]].size + (if kids[k] == hit {
                size
            } else {
                0
            }) by {
                assert(t.child_ok(i, k));
                if t.is_ancestor(kids[k], c) {
                    lemma_ancestor_parent(t, kids[k], c);
                    lemma_ancestor_below(t, kids[k], c);
                    lemma_one_child_on_chain(t, i, kids[k], hit, c);
                }
            }
            lemma_weights_shift(t, u, kids, hit, size);
            if above {
                assert(t.parent_ok(hit));
                assert(kids.contains(hit));
            } else {
                assert(!kids.contains(hit)) by {
                    if kids.contains(hit) {
                        let k = choose|k: int| 0 <= k < kids.len() && kids[k] == hit;
                        assert(t.child_ok(i, k));
                    }
                }
                if i == c {
                    assert(kids.push(n).drop_last() =~= kids);
                } else {
                    assert(!t.is_ancestor(i, c));
                }
            }
        }
    }
}


/// A step keeps the tree well formed and adds to the root exactly the size
/// of the file that it lists, if it lists one.
pub proof fn lemma_apply(t: Tree, step: Step)
    requires
        t.wf(),
    ensures
        t.apply(step).wf(),
        t.apply(step).total() == t.total() + files_sum(seq![step]),
{
    assert(seq![step].drop_last() =~= Seq::<Step>::empty());
    assert(files_sum(seq![step].drop_last()) == 0);
    match step {
        Step::Cd(target) => {
            lemma_moved_wf(t, target);
        },
        Step::List => {},
        Step::Dir(name) => {
            lemma_with_folder_wf(t, name);
        },
        Step::File(name, size) => {
            lemma_with_file_wf(t, name, size);
            lemma_root_is_ancestor(t, t.cursor);
        },
    }
}

/// A longer stream lists at least as much as each of its prefixes.
pub proof fn lemma_files_sum_prefix(steps: Seq<Step>, n: int)
    requires
        0 <= n <= steps.len(),
    ensures
        files_sum(steps.take(n)) <= files_sum(steps),
    decreases steps.len(),
{
    if n == steps.len() {
        assert(steps.take(n) =~= steps);
    } else {
        assert(steps.drop_last().take(n) =~= steps.take(n));
        lemma_files_sum_prefix(steps.drop_last(), n);
    }
}

/// Running a stream keeps the tree well formed, and the root never grows by
/// more than the stream lists; it grows by exactly that if no step is refused.
pub proof fn lemma_run(t: Tree, steps: Seq<Step>)
    requires
        t.wf(),
    ensures
        t.run(steps).wf(),
        t.run(steps).total() <= t.total() + files_sum(steps),
        !t.fails(steps) ==> t.run(steps).total() == t.total() + files_sum(steps),
    decreases steps.len(),
{
    if steps.len() > 0 {
        lemma_run(t, steps.drop_last());
        lemma_apply(t.run(steps.drop_last()), steps.last());
        assert(seq![steps.last()].drop_last() =~= Seq::<Step>::empty());
    }
}

/// Once a prefix of the stream has failed, the steps after it change nothing.
pub proof fn lemma_run_stops(t: Tree, steps: Seq<Step>, n: int)
    requires
        0 <= n <= steps.len(),
        t.fails(steps.take(n)),
    ensures
        t.fails(steps),
        t.run(steps) == t.run(steps.take(n)),
    decreases steps.len(),
{
    if n == steps.len() {
        assert(steps.take(n) =~= steps);
    } else {
        assert(steps.drop_last().take(n) =~= steps.take(n));
        lemma_run_stops(t, steps.drop_last(), n);
        assert(t.fails(steps));
        assert(t.run(steps) == t.run(steps.drop_last()));
    }
}


/// The sum over more entries is no smaller.
pub proof fn lemma_small_sum_grows(t: Tree, threshold: nat, m: int, n: int)
    requires
        m <= n,
    ensures
        t.small_sum(threshold, m) <= t.small_sum(threshold, n),
    decreases n - m,
{
    if m < n {
        lemma_small_sum_grows(t, threshold, m, n - 1);
    }
}

} // verus!
