//! An append-only directory tree with running cumulative sizes.
//!
//! Nodes live in one growable arena and are addressed by their position.
//! A cursor names the current directory. Listing a file adds its size to the
//! cursor directory and to every ancestor of it, so that each directory
//! always holds the total size of the files below it.

use crate::text::{decimal_of, same_text, spaces};
use crate::transcript::{read_commands, read_text};
use crate::tree::{
    files_sum, lemma_ancestor_below, lemma_ancestor_is_folder, lemma_ancestor_outweighs,
    lemma_ancestor_parent, lemma_ancestors_chain, lemma_files_sum_prefix, lemma_grown_shaped,
    lemma_moved_wf, lemma_root_is_ancestor, lemma_run, lemma_run_stops, lemma_small_sum_grows,
    lemma_with_file_wf, lemma_with_folder_wf, parent_name, root_name, Entry, Step, Tree,
};
use vstd::prelude::*;
use vstd::string::StringExecFns;

verus! {

/// A size in bytes.
#[derive(Clone, Copy, Debug, PartialEq, Eq, Structural)]
pub struct FileSize(pub usize);

/// The position of a node in the arena.
#[derive(Clone, Copy, Debug, PartialEq, Eq, Structural)]
pub struct ID(pub usize);

/// A directory: its name, its children in insertion order and the total
/// size of the files below it.
#[derive(Debug)]
pub struct Folder {
    pub name: String,
    pub entries: Vec<ID>,
    pub size: FileSize,
}

/// A file: its name and its size.
#[derive(Debug)]
pub struct File {
    pub name: String,
    pub size: FileSize,
}

#[derive(Debug)]
pub enum NodeEntry {
    File(File),
    Folder(Folder),
}

/// A node of the arena. `parent` is `None` for the root only.
#[derive(Debug)]
pub struct Node {
    pub id: ID,
    pub parent: Option<ID>,
    pub value: NodeEntry,
}

/// Why an operation on the tree was refused.
#[derive(Clone, Copy, Debug, PartialEq, Eq, Structural)]
pub enum FsError {
    /// The identifier names no node of the arena.
    NodeNotFound,
    /// The parent named for a new node is missing or is a file.
    InvalidParent,
    /// A move named a file where a directory was expected.
    InvalidCursor,
    /// The capacity is smaller than the space in use.
    InvalidCapacity,
    /// More space is free already than was asked for.
    NegativeDeficit,
    /// No directory is large enough.
    NoCandidate,
    /// A pattern of the transcript grammar was not accepted.
    BadPattern,
    /// A line matched a pattern without the group that holds a name or a size.
    MissingGroup,
    /// The size of a listed file is no number, or too large a one.
    InvalidSize,
}

/// One command of the stream from which a tree is rebuilt.
#[derive(Debug)]
pub enum Command {
    /// Move the cursor: to the parent (`".."`), to the root (`"/"`) or to
    /// the child directory of that name.
    Cd(String),
    /// A listing follows. It changes nothing.
    ListMarker,
    /// The current directory holds a directory of this name.
    Dir(String),
    /// The current directory holds a file of this name and size.
    File(String, FileSize),
}

impl Command {
    pub open spec fn model(&self) -> Step {
        match self {
            Command::Cd(target) => Step::Cd(target@),
            Command::ListMarker => Step::List,
            Command::Dir(name) => Step::Dir(name@),
            Command::File(name, size) => Step::File(name@, size.0 as nat),
        }
    }
}

/// The steps that a list of commands stands for.
pub open spec fn steps(commands: Seq<Command>) -> Seq<Step> {
    commands.map_values(|i: Command| i.model())
}

/// The arena together with the cursor.
#[derive(Debug)]
pub struct FileSystem {
    contents: Vec<Node>,
    active_folder: ID,
}

/// The positions that a list of identifiers names.
pub open spec fn positions(ids: Seq<ID>) -> Seq<int> {
    ids.map_values(|id: ID| id.0 as int)
}

/// The position that an optional identifier names.
pub open spec fn position(id: Option<ID>) -> Option<int> {
    match id {
        Some(id) => Some(id.0 as int),
        None => None,
    }
}

impl Folder {
    /// The model entry `e` is this directory.
    pub open spec fn is_entry(&self, e: Entry) -> bool {
        e.folder && e.name == self.name@ && e.children == positions(self.entries@) && e.size
            == self.size.0
    }
}

impl NodeEntry {
    /// The model of this payload as a child of `parent`.
    pub open spec fn model(&self, parent: Option<int>) -> Entry {
        match self {
            NodeEntry::File(f) => Entry {
                parent,
                folder: false,
                name: f.name@,
                children: Seq::empty(),
                size: f.size.0 as nat,
            },
            NodeEntry::Folder(d) => Entry {
                parent,
                folder: true,
                name: d.name@,
                children: positions(d.entries@),
                size: d.size.0 as nat,
            },
        }
    }

    /// A payload that may be given to a new node: a file, or a directory
    /// that is still empty.
    pub open spec fn fresh(&self) -> bool {
        match self {
            NodeEntry::File(_) => true,
            NodeEntry::Folder(d) => d.entries@.len() == 0,
        }
    }
}

impl Node {
    pub open spec fn model(&self) -> Entry {
        self.value.model(position(self.parent))
    }
}

impl View for FileSystem {
    type V = Tree;

    closed spec fn view(&self) -> Tree {
        Tree {
            nodes: self.contents@.map_values(|n: Node| n.model()),
            cursor: self.active_folder.0 as int,
        }
    }
}

impl FileSystem {
    /// Every node carries its own position as its identifier.
    pub closed spec fn ids_ok(&self) -> bool {
        forall|i: int| 0 <= i < self.contents@.len() ==> (#[trigger] self.contents@[i]).id.0 == i
    }

    /// The parent links and child lists describe a tree; sizes are left open.
    pub open spec fn shaped(&self) -> bool {
        self.ids_ok() && self@.shaped()
    }

    /// The invariant: a tree in which every directory holds the sum of its
    /// children's sizes.
    pub open spec fn wf(&self) -> bool {
        self.ids_ok() && self@.wf()
    }

    /// A tree that holds only the empty, unnamed root directory, with the
    /// cursor on it.
    pub fn new() -> (fs: FileSystem)
        ensures
            fs@ == Tree::root(),
            fs.wf(),
    {
        let id = ID(0);
        let mut contents: Vec<Node> = Vec::new();
        contents.push(
            Node {
                id,
                parent: None,
                value: NodeEntry::Folder(
                    Folder { name: String::new(), entries: Vec::new(), size: FileSize(0) },
                ),
            },
        );
        let fs = FileSystem { contents, active_folder: id };
        proof {
            assert(positions(Seq::<ID>::empty()) =~= Seq::<int>::empty());
            assert(fs@.nodes =~= Tree::root().nodes);
            assert(fs@.balanced_at(0));
            assert(fs@.children_sorted(0));
        }
        fs
    }

    /// The identifier of the current directory.
    pub fn cursor(&self) -> (id: ID)
        ensures
            id.0 == self@.cursor,
    {
        self.active_folder
    }

    /// The number of nodes in the arena.
    pub fn len(&self) -> (n: usize)
        ensures
            n == self@.nodes.len(),
    {
        self.contents.len()
    }

    /// The node with the given identifier, or `NodeNotFound` if the arena
    /// holds no such node.
    pub fn get(&self, id: ID) -> (r: Result<&Node, FsError>)
        ensures
            match r {
                Ok(node) => self@.has(id.0 as int) && node.model() == self@.nodes[id.0 as int] && (
                self.ids_ok() ==> node.id == id),
                Err(e) => e == FsError::NodeNotFound && !self@.has(id.0 as int),
            },
    {
        if id.0 < self.contents.len() {
            Ok(&self.contents[id.0])
        } else {
            Err(FsError::NodeNotFound)
        }
    }

    /// Appends a node with the given payload as the last child of `parent`.
    /// Fails with `InvalidParent`, changing nothing, unless `parent` names
    /// a directory of the arena. No size is propagated.
    pub fn allocate(&mut self, parent: ID, payload: NodeEntry) -> (r: Result<ID, FsError>)
        requires
            old(self).shaped(),
            payload.fresh(),
        ensures
            final(self).shaped(),
            match r {
                Ok(id) => {
                    &&& old(self)@.has(parent.0 as int)
                    &&& old(self)@.nodes[parent.0 as int].folder
                    &&& id.0 == old(self)@.nodes.len()
                    &&& final(self)@ == old(self)@.with_entry(
                        parent.0 as int,
                        payload.model(Some(parent.0 as int)),
                    )
                },
                Err(e) => {
                    &&& e == FsError::InvalidParent
                    &&& !(old(self)@.has(parent.0 as int) && old(self)@.nodes[parent.0 as int].folder)
                    &&& final(self)@ == old(self)@
                },
            },
    {
        let new_id = ID(self.contents.len());
        if parent.0 >= self.contents.len() {
            return Err(FsError::InvalidParent);
        }
        if let NodeEntry::File(_) = &self.contents[parent.0].value {
            return Err(FsError::InvalidParent);
        }
        match &mut self.contents[parent.0].value {
            NodeEntry::Folder(folder) => {
                folder.entries.push(new_id);
            },
            NodeEntry::File(_) => {},
        }
        self.contents.push(Node { id: new_id, parent: Some(parent), value: payload });
        proof {
            let t = old(self)@;
            let u = t.with_entry(parent.0 as int, payload.model(Some(parent.0 as int)));
            let kids = old(self).contents@[parent.0 as int].value->Folder_0.entries@;
            assert(positions(kids.push(new_id)) =~= positions(kids).push(new_id.0 as int));
            assert(positions(Seq::<ID>::empty()) =~= Seq::<int>::empty());
            assert(self@.nodes =~= u.nodes);
            lemma_grown_shaped(t, u, parent.0 as int);
        }
        Ok(new_id)
    }

    /// Appends a node with the given payload as the last child of the
    /// current directory and returns its identifier. No size is propagated.
    pub fn add_node_entry(&mut self, node_entry: NodeEntry) -> (id: ID)
        requires
            old(self).shaped(),
            node_entry.fresh(),
        ensures
            final(self).shaped(),
            id.0 == old(self)@.nodes.len(),
            final(self)@ == old(self)@.with_entry(
                old(self)@.cursor,
                node_entry.model(Some(old(self)@.cursor)),
            ),
    {
        let at = self.active_folder;
        match self.allocate(at, node_entry) {
            Ok(id) => id,
            Err(_) => ID(0),
        }
    }

    /// Lists a new, empty directory under the current directory. The cursor
    /// stays where it is.
    pub fn add_folder(&mut self, name: &str)
        requires
            old(self).wf(),
        ensures
            final(self).wf(),
            final(self)@ == old(self)@.with_folder(name@),
    {
        let folder = Folder { entries: Vec::new(), name: name.to_owned(), size: FileSize(0) };
        proof {
            assert(positions(folder.entries@) =~= Seq::<int>::empty());
            lemma_with_folder_wf(self@, name@);
        }
        self.add_node_entry(NodeEntry::Folder(folder));
    }
    /// Lists a new file under the current directory and adds its size to the
    /// current directory and to every ancestor of it, up to the root.
    pub fn add_file(&mut self, name: &str, size: FileSize)
        requires
            old(self).wf(),
            old(self)@.total() + size.0 <= usize::MAX,
        ensures
            final(self).wf(),
            final(self)@ == old(self)@.with_file(name@, size.0 as nat),
    {
        let ghost pre = self@;
        let file = File { size, name: name.to_owned() };
        self.add_node_entry(NodeEntry::File(file));
        let mut cur: usize = self.active_folder.0;
        proof {
            assert(self@.nodes =~= pre.with_file_above(name@, size.0 as nat, cur as int).nodes) by {
                assert forall|i: int| pre.is_ancestor(i, pre.cursor) implies i <= cur by {
                    lemma_ancestor_below(pre, i, pre.cursor);
                }
            }
        }
        loop
            invariant_except_break
                self@ == pre.with_file_above(name@, size.0 as nat, cur as int),
                pre.is_ancestor(cur as int, pre.cursor),
            invariant
                pre == old(self)@,
                pre.wf(),
                pre.total() + size.0 <= usize::MAX,
                pre.has(cur as int),
                self.ids_ok(),
                self.contents@.len() == pre.nodes.len() + 1,
            ensures
                self@ == pre.with_file(name@, size.0 as nat),
            decreases cur,
        {
            let ghost before = self@;
            let ghost here = self.contents@;
            proof {
                lemma_root_is_ancestor(pre, cur as int);
                lemma_ancestor_outweighs(pre, 0, cur as int);
                lemma_ancestor_is_folder(pre, cur as int, pre.cursor);
                assert(before.nodes[cur as int] == here[cur as int].model());
                assert(here[cur as int].value is Folder);
                assert(here[cur as int].value->Folder_0.size.0 == pre.nodes[cur as int].size);
            }
            match &mut self.contents[cur].value {
                NodeEntry::Folder(folder) => {
                    folder.size = FileSize(folder.size.0 + size.0);
                },
                NodeEntry::File(_) => {},
            }
            proof {
                let goal = pre.with_file_above(name@, size.0 as nat, cur - 1);
                assert forall|i: int| 0 <= i < goal.nodes.len() implies self@.nodes[i]
                    == goal.nodes[i] by {
                    if i != cur {
                        assert(self.contents@[i] == here[i]);
                        assert(before.nodes[i] == here[i].model());
                    }
                }
                assert(self@.nodes =~= goal.nodes);
            }
            match self.contents[cur].parent {
                None => {
                    proof {
                        if cur != 0 {
                            assert(pre.parent_ok(cur as int));
                        }
                    }
                    break ;
                },
                Some(p) => {
                    proof {
                        assert(cur != 0);
                        assert(pre.parent_ok(cur as int));
                        lemma_ancestor_parent(pre, cur as int, pre.cursor);
                        assert forall|i: int|
                            pre.is_ancestor(i, pre.cursor) && i > p.0 implies i > cur - 1 by {
                            lemma_ancestors_chain(pre, i, cur as int, pre.cursor);
                            if i < cur {
                                if pre.is_ancestor(cur as int, i) {
                                    lemma_ancestor_below(pre, cur as int, i);
                                } else {
                                    lemma_ancestor_below(pre, i, p.0 as int);
                                }
                            }
                        }
                        assert(pre.with_file_above(name@, size.0 as nat, cur - 1).nodes
                            =~= pre.with_file_above(name@, size.0 as nat, p.0 as int).nodes);
                    }
                    cur = p.0;
                },
            }
        }
        proof {
            lemma_with_file_wf(pre, name@, size.0 as nat);
        }
    }

    /// The parent of the node `parent_of`, or `None` for the root.
    pub fn get_parent_folder(&self, parent_of: ID) -> (r: Option<&Node>)
        requires
            self.shaped(),
            self@.has(parent_of.0 as int),
        ensures
            match r {
                Some(node) => self@.nodes[parent_of.0 as int].parent == Some(node.id.0 as int)
                    && self@.has(node.id.0 as int) && node.model() == self@.nodes[node.id.0 as int],
                None => self@.nodes[parent_of.0 as int].parent is None,
            },
    {
        match self.contents[parent_of.0].parent {
            None => None,
            Some(parent_id) => {
                proof {
                    if parent_of.0 != 0 {
                        assert(self@.parent_ok(parent_of.0 as int));
                    }
                }
                Some(&self.contents[parent_id.0])
            },
        }
    }
    /// Moves the cursor. `".."` moves to the parent and stays on the root;
    /// `"/"` moves to the root; any other name moves to the first child
    /// directory of that name. Where no child directory has the name the
    /// cursor stays: silently if no file has it either, and with
    /// `InvalidCursor` if the name is that of a file. No node is touched.
    pub fn move_into_folder(&mut self, search_name: &str) -> (r: Result<(), FsError>)
        requires
            old(self).shaped(),
        ensures
            final(self).shaped(),
            old(self).wf() ==> final(self).wf(),
            final(self)@ == old(self)@.moved(search_name@),
            match r {
                Ok(_) => !old(self)@.blocked(search_name@),
                Err(e) => e == FsError::InvalidCursor && old(self)@.blocked(search_name@),
            },
    {
        proof {
            reveal_strlit("..");
            reveal_strlit("/");
            assert(".."@ =~= parent_name());
            assert("/"@ =~= root_name());
            lemma_moved_wf(self@, search_name@);
        }
        if same_text(search_name, "..") {
            let to = match self.contents[self.active_folder.0].parent {
                Some(p) => p,
                None => ID(0),
            };
            self.active_folder = to;
            return Ok(());
        }
        if same_text(search_name, "/") {
            self.active_folder = ID(0);
            return Ok(());
        }
        let ghost t = self@;
        let mut found: Option<ID> = None;
        let mut file_seen = false;
        match &self.contents[self.active_folder.0].value {
            NodeEntry::File(_) => {},
            NodeEntry::Folder(folder) => {
                let entries = &folder.entries;
                let mut k: usize = 0;
                while k < entries.len() && found.is_none()
                    invariant
                        t == self@,
                        self.shaped(),
                        0 <= k <= entries@.len(),
                        positions(entries@) == t.nodes[t.cursor].children,
                        match found {
                            Some(id) => t.seek(search_name@, true, 0) == Some(id.0 as int),
                            None => t.seek(search_name@, true, 0) == t.seek(
                                search_name@,
                                true,
                                k as int,
                            ),
                        },
                        if file_seen {
                            t.seek(search_name@, false, 0) is Some
                        } else {
                            t.seek(search_name@, false, 0) == t.seek(search_name@, false, k as int)
                        },
                    decreases entries@.len() - k + (if found is None { 1int } else { 0int }),
                {
                    let id = entries[k];
                    proof {
                        assert(t.child_ok(t.cursor, k as int));
                        assert(t.nodes[t.cursor].children[k as int] == id.0);
                        assert(t.nodes[id.0 as int] == self.contents@[id.0 as int].model());
                    }
                    match &self.contents[id.0].value {
                        NodeEntry::File(file) => {
                            if same_text(file.name.as_str(), search_name) {
                                file_seen = true;
                            }
                            k = k + 1;
                        },
                        NodeEntry::Folder(child) => {
                            if same_text(child.name.as_str(), search_name) {
                                found = Some(id);
                            } else {
                                k = k + 1;
                            }
                        },
                    }
                }
            },
        }
        match found {
            Some(id) => {
                self.active_folder = id;
                Ok(())
            },
            None => {
                if file_seen {
                    Err(FsError::InvalidCursor)
                } else {
                    Ok(())
                }
            },
        }
    }
    /// Carries out one command. A move that names a file fails with
    /// `InvalidCursor` and changes nothing; nothing else can fail.
    pub fn step(&mut self, command: &Command) -> (r: Result<(), FsError>)
        requires
            old(self).wf(),
            old(self)@.total() + files_sum(seq![command.model()]) <= usize::MAX,
        ensures
            final(self).wf(),
            match r {
                Ok(_) => !old(self)@.refuses(command.model()) && final(self)@ == old(self)@.apply(
                    command.model(),
                ),
                Err(e) => e == FsError::InvalidCursor && old(self)@.refuses(command.model())
                    && final(self)@ == old(self)@,
            },
    {
        proof {
            assert(seq![command.model()].drop_last() =~= Seq::<Step>::empty());
            assert(files_sum(seq![command.model()].drop_last()) == 0);
        }
        match command {
            Command::Cd(target) => self.move_into_folder(target.as_str()),
            Command::ListMarker => Ok(()),
            Command::Dir(name) => {
                self.add_folder(name.as_str());
                Ok(())
            },
            Command::File(name, size) => {
                self.add_file(name.as_str(), *size);
                Ok(())
            },
        }
    }

    /// Carries out the commands in order and stops at the first one
    /// that fails, with its error. What was built up to there stays.
    pub fn execute(&mut self, commands: &Vec<Command>) -> (r: Result<(), FsError>)
        requires
            old(self).wf(),
            old(self)@.total() + files_sum(steps(commands@)) <= usize::MAX,
        ensures
            final(self).wf(),
            final(self)@ == old(self)@.run(steps(commands@)),
            match r {
                Ok(_) => !old(self)@.fails(steps(commands@)),
                Err(e) => e == FsError::InvalidCursor && old(self)@.fails(steps(commands@)),
            },
    {
        let ghost pre = self@;
        let ghost all = steps(commands@);
        let mut i: usize = 0;
        proof {
            assert(all.take(0) =~= Seq::<Step>::empty());
        }
        while i < commands.len()
            invariant
                0 <= i <= commands@.len(),
                all == steps(commands@),
                pre == old(self)@,
                pre.wf(),
                pre.total() + files_sum(all) <= usize::MAX,
                self.wf(),
                self@ == pre.run(all.take(i as int)),
                !pre.fails(all.take(i as int)),
            decreases commands@.len() - i,
        {
            let ghost done = all.take(i as int);
            let ghost next = all.take(i + 1);
            proof {
                assert(next.drop_last() =~= done);
                assert(next.last() == commands@[i as int].model());
                assert(seq![next.last()].drop_last() =~= Seq::<Step>::empty());
                lemma_run(pre, done);
                lemma_files_sum_prefix(all, i + 1);
                let one = seq![commands@[i as int].model()];
                assert(one.drop_last() =~= Seq::<Step>::empty());
                assert(one.last() == next.last());
                assert(files_sum(one.drop_last()) == 0);
                assert(files_sum(next) == files_sum(done) + files_sum(one));
            }
            match self.step(&commands[i]) {
                Ok(_) => {},
                Err(e) => {
                    proof {
                        assert(pre.fails(next));
                        assert(pre.run(next) == pre.run(done));
                        lemma_run_stops(pre, all, i + 1);
                    }
                    return Err(e);
                },
            }
            proof {
                assert(!pre.fails(next));
                assert(pre.run(next) == pre.run(done).apply(next.last()));
            }
            i = i + 1;
        }
        proof {
            assert(all.take(i as int) =~= all);
        }
        Ok(())
    }
    /// Sum of the cumulative sizes of all directories that are no larger
    /// than `max_size`, or `None` if that sum does not fit the machine's
    /// integers. The order of the nodes plays no part.
    pub fn try_sum_folders_with_size_less_than(&self, max_size: usize) -> (r: Option<FileSize>)
        ensures
            match r {
                Some(sum) => sum.0 == self@.sum_at_most(max_size as nat),
                None => self@.sum_at_most(max_size as nat) > usize::MAX,
            },
    {
        let ghost t = self@;
        let mut sum: usize = 0;
        let mut i: usize = 0;
        while i < self.contents.len()
            invariant
                t == self@,
                0 <= i <= self.contents@.len(),
                sum == t.small_sum(max_size as nat, i as int),
            decreases self.contents@.len() - i,
        {
            proof {
                assert(t.nodes[i as int] == self.contents@[i as int].model());
            }
            if let NodeEntry::Folder(folder) = &self.contents[i].value {
                if folder.size.0 <= max_size {
                    if folder.size.0 > usize::MAX - sum {
                        proof {
                            lemma_small_sum_grows(
                                t,
                                max_size as nat,
                                i + 1,
                                t.nodes.len() as int,
                            );
                        }
                        return None;
                    }
                    sum = sum + folder.size.0;
                }
            }
            i = i + 1;
        }
        Some(FileSize(sum))
    }

    /// Sum of the cumulative sizes of all directories that are no larger
    /// than `max_size`; 0 if there is none.
    pub fn sum_folders_with_size_less_than(&self, max_size: usize) -> (sum: FileSize)
        requires
            self@.sum_at_most(max_size as nat) <= usize::MAX,
        ensures
            sum.0 == self@.sum_at_most(max_size as nat),
    {
        match self.try_sum_folders_with_size_less_than(max_size) {
            Some(sum) => sum,
            None => FileSize(0),
        }
    }

    /// The smallest directory whose removal leaves `needed_size` free on a
    /// device of `max_size`; among several of that size, the one created
    /// first. With `used` the cumulative size of the root, a directory
    /// qualifies if it is larger than `needed_size - (max_size - used)`.
    ///
    /// Fails with `InvalidCapacity` if `max_size` is less than `used`, with
    /// `NegativeDeficit` if more than `needed_size` is free already, and
    /// with `NoCandidate` if no directory qualifies.
    pub fn get_smallest_directory_to_delete(&self, max_size: FileSize, needed_size: FileSize) -> (r:
        Result<&Folder, FsError>)
        requires
            self.shaped(),
        ensures
            match r {
                Ok(folder) => {
                    &&& self@.total() <= max_size.0
                    &&& max_size.0 - self@.total() <= needed_size.0
                    &&& exists|i: int|
                        #[trigger] self@.is_smallest(
                            self@.deficit(max_size.0 as nat, needed_size.0 as nat),
                            i,
                        ) && folder.is_entry(self@.nodes[i])
                },
                Err(FsError::InvalidCapacity) => max_size.0 < self@.total(),
                Err(FsError::NegativeDeficit) => self@.total() <= max_size.0 && needed_size.0
                    < max_size.0 - self@.total(),
                Err(FsError::NoCandidate) => {
                    &&& self@.total() <= max_size.0
                    &&& max_size.0 - self@.total() <= needed_size.0
                    &&& forall|i: int|
                        !#[trigger] self@.candidate(
                            self@.deficit(max_size.0 as nat, needed_size.0 as nat),
                            i,
                        )
                },
                Err(_) => false,
            },
    {
        let ghost t = self@;
        proof {
            assert(t.nodes[0] == self.contents@[0].model());
        }
        let used: usize = match &self.contents[0].value {
            NodeEntry::Folder(root) => root.size.0,
            NodeEntry::File(_) => 0,
        };
        if max_size.0 < used {
            return Err(FsError::InvalidCapacity);
        }
        let free_now: usize = max_size.0 - used;
        if needed_size.0 < free_now {
            return Err(FsError::NegativeDeficit);
        }
        let deficit: usize = needed_size.0 - free_now;
        assert(deficit == t.deficit(max_size.0 as nat, needed_size.0 as nat));
        let mut best: Option<&Folder> = None;
        let ghost mut at: int = 0;
        let mut i: usize = 0;
        while i < self.contents.len()
            invariant
                t == self@,
                0 <= i <= self.contents@.len(),
                match best {
                    Some(folder) => {
                        &&& 0 <= at < i
                        &&& t.candidate(deficit as nat, at)
                        &&& folder.is_entry(t.nodes[at])
                        &&& forall|j: int|
                            0 <= j < i && #[trigger] t.candidate(deficit as nat, j) ==> t.nodes[at].size
                                <= t.nodes[j].size
                        &&& forall|j: int|
                            0 <= j < at && #[trigger] t.candidate(deficit as nat, j) ==> t.nodes[at].size
                                < t.nodes[j].size
                    },
                    None => forall|j: int| 0 <= j < i ==> !#[trigger] t.candidate(deficit as nat, j),
                },
            decreases self.contents@.len() - i,
        {
            proof {
                assert(t.nodes[i as int] == self.contents@[i as int].model());
            }
            if let NodeEntry::Folder(folder) = &self.contents[i].value {
                if folder.size.0 > deficit {
                    let smaller = match best {
                        Some(held) => folder.size.0 < held.size.0,
                        None => true,
                    };
                    if smaller {
                        best = Some(folder);
                        proof {
                            at = i as int;
                        }
                    }
                }
            }
            i = i + 1;
        }
        match best {
            Some(folder) => {
                proof {
                    assert(t.is_smallest(deficit as nat, at));
                }
                Ok(folder)
            },
            None => Err(FsError::NoCandidate),
        }
    }
    /// Whether the root can take the sizes of all files that the commands
    /// list without leaving the machine's integers.
    pub fn fits(&self, commands: &Vec<Command>) -> (r: bool)
        requires
            self.shaped(),
        ensures
            r == (self@.total() + files_sum(steps(commands@)) <= usize::MAX),
    {
        let ghost all = steps(commands@);
        proof {
            assert(self@.nodes[0] == self.contents@[0].model());
            assert(all.take(0) =~= Seq::<Step>::empty());
        }
        let used: usize = match &self.contents[0].value {
            NodeEntry::Folder(root) => root.size.0,
            NodeEntry::File(_) => 0,
        };
        let room: usize = usize::MAX - used;
        let mut sum: usize = 0;
        let mut i: usize = 0;
        while i < commands.len()
            invariant
                0 <= i <= commands@.len(),
                all == steps(commands@),
                used == self@.total(),
                room == usize::MAX - used,
                sum == files_sum(all.take(i as int)),
                sum <= room,
            decreases commands@.len() - i,
        {
            proof {
                assert(all.take(i + 1).drop_last() =~= all.take(i as int));
                assert(all.take(i + 1).last() == commands@[i as int].model());
                lemma_files_sum_prefix(all, i + 1);
            }
            if let Command::File(_, size) = &commands[i] {
                if size.0 > room - sum {
                    return false;
                }
                sum = sum + size.0;
            }
            i = i + 1;
        }
        proof {
            assert(all.take(i as int) =~= all);
        }
        true
    }

    /// Reads the transcript and carries out its commands in order, up to
    /// the first that fails. A transcript that cannot be read changes
    /// nothing and gives the error of the reading.
    pub fn execute_instructions(&mut self, input: &str) -> (r: Result<(), FsError>)
        requires
            old(self).wf(),
            match read_text(input@) {
                Ok(steps) => old(self)@.total() + files_sum(steps) <= usize::MAX,
                Err(_) => true,
            },
        ensures
            final(self).wf(),
            match read_text(input@) {
                Ok(steps) => {
                    &&& final(self)@ == old(self)@.run(steps)
                    &&& match r {
                        Ok(_) => !old(self)@.fails(steps),
                        Err(e) => e == FsError::InvalidCursor && old(self)@.fails(steps),
                    }
                },
                Err(e) => r == Err::<(), FsError>(e) && final(self)@ == old(self)@,
            },
    {
        match read_commands(input) {
            Ok(commands) => self.execute(&commands),
            Err(e) => Err(e),
        }
    }

    /// Reads the transcript and carries out its commands as
    /// `execute_instructions` does, unless the sizes of the listed files
    /// would take the root beyond the machine's integers: then nothing
    /// changes and `None` is returned.
    pub fn try_execute_instructions(&mut self, input: &str) -> (r: Option<Result<(), FsError>>)
        requires
            old(self).wf(),
        ensures
            final(self).wf(),
            match (r, read_text(input@)) {
                (None, Ok(steps)) => {
                    &&& old(self)@.total() + files_sum(steps) > usize::MAX
                    &&& final(self)@ == old(self)@
                },
                (None, Err(_)) => false,
                (Some(done), Ok(steps)) => {
                    &&& old(self)@.total() + files_sum(steps) <= usize::MAX
                    &&& final(self)@ == old(self)@.run(steps)
                    &&& match done {
                        Ok(_) => !old(self)@.fails(steps),
                        Err(e) => e == FsError::InvalidCursor && old(self)@.fails(steps),
                    }
                },
                (Some(done), Err(e)) => done == Err::<(), FsError>(e) && final(self)@ == old(self)@,
            },
    {
        match read_commands(input) {
            Ok(commands) => {
                if self.fits(&commands) {
                    Some(self.execute_instructions(input))
                } else {
                    None
                }
            },
            Err(e) => Some(Err(e)),
        }
    }
    /// Appends to `out` the lines that show the node `id` and everything
    /// below it.
    fn print_inner(&self, id: usize, indent: usize, out: &mut String)
        requires
            self.shaped(),
            self@.has(id as int),
            indent <= id,
        ensures
            final(out)@ == old(out)@ + self@.listing(id as int, indent as nat),
        decreases self@.nodes.len() - id,
    {
        let ghost t = self@;
        let ghost start = out@;
        proof {
            reveal_strlit(" ");
            reveal_strlit("/ (");
            reveal_strlit(")\n");
            reveal_strlit(": ");
            reveal_strlit("\n");
            assert(t.nodes[id as int] == self.contents@[id as int].model());
        }
        let mut i: usize = 0;
        while i < indent
            invariant
                0 <= i <= indent,
                " "@ == seq![' '],
                out@ == start + spaces(i as nat),
            decreases indent - i,
        {
            out.append(" ");
            i = i + 1;
            proof {
                assert(out@ =~= start + spaces(i as nat));
            }
        }
        match &self.contents[id].value {
            NodeEntry::File(file) => {
                out.append(file.name.as_str());
                out.append(": ");
                out.append(decimal_of(file.size.0).as_str());
                out.append("\n");
                proof {
                    assert(t.below(id as int, 0, (indent + 1) as nat) =~= Seq::<char>::empty());
                    assert(out@ =~= start + t.listing(id as int, indent as nat));
                }
            },
            NodeEntry::Folder(folder) => {
                out.append(folder.name.as_str());
                out.append("/ (");
                out.append(decimal_of(folder.size.0).as_str());
                out.append(")\n");
                proof {
                    assert(out@ =~= start + t.line(id as int, indent as nat));
                }
                let mut k: usize = 0;
                while k < folder.entries.len()
                    invariant
                        0 <= k <= folder.entries@.len(),
                        t == self@,
                        self.shaped(),
                        t.has(id as int),
                        indent <= id,
                        positions(folder.entries@) == t.nodes[id as int].children,
                        out@ == start + t.line(id as int, indent as nat) + t.below(
                            id as int,
                            k as int,
                            (indent + 1) as nat,
                        ),
                    decreases folder.entries@.len() - k,
                {
                    let child = folder.entries[k];
                    let ghost before = out@;
                    proof {
                        assert(t.child_ok(id as int, k as int));
                        assert(t.nodes[id as int].children[k as int] == child.0);
                    }
                    self.print_inner(child.0, indent + 1, out);
                    k = k + 1;
                    proof {
                        assert(out@ =~= start + t.line(id as int, indent as nat) + t.below(
                            id as int,
                            k as int,
                            (indent + 1) as nat,
                        ));
                    }
                }
                proof {
                    assert(out@ =~= start + t.listing(id as int, indent as nat));
                }
            },
        }
    }

    /// The tree as text, one line for each node: the root first, and below
    /// each directory its children, one step further indented.
    pub fn print(&self) -> (text: String)
        requires
            self.shaped(),
        ensures
            text@ == self@.listing(0, 0),
    {
        let mut out = String::new();
        self.print_inner(0, 0, &mut out);
        proof {
            assert(Seq::<char>::empty() + self@.listing(0, 0) =~= self@.listing(0, 0));
        }
        out
    }
}

} // verus!
