//! The tree itself: directories hold named children, files hold none.

use vstd::prelude::*;
use vstd::string::StringExecFns;

verus! {

/// A node of the tree.
#[derive(Debug)]
pub enum FilesystemNode {
    /// A file, with its size and its modification time (seconds and nanoseconds since
    /// the Unix epoch) where they are known.
    File { size: Option<u64>, modified_time: Option<(u64, u32)> },
    /// A directory, with its children by name.
    Directory { children: Vec<(String, FilesystemNode)> },
}

/// Whether a node is a file or a directory.
#[derive(Debug, Clone, Copy, PartialEq, Eq, Structural)]
pub enum NodeKind {
    File,
    Directory,
}

/// What a node is, with what it holds besides children: a file with its size and its
/// modification time, or a directory.
#[derive(Debug, Clone, Copy, PartialEq, Eq)]
pub enum NodeEntry {
    File { size: Option<u64>, modified_time: Option<(u64, u32)> },
    Directory,
}

/// A file of which neither size nor modification time is known: what inserting a path
/// stores.
pub open spec fn new_file() -> NodeEntry {
    NodeEntry::File { size: None, modified_time: None }
}

/// Whether `entry` is there and is a file.
pub open spec fn is_file(entry: Option<NodeEntry>) -> bool {
    match entry {
        Some(NodeEntry::File { .. }) => true,
        _ => false,
    }
}

/// Why no tree could be built.
#[derive(Debug)]
pub enum FilesystemNodeCreationError {
    /// The current directory could not be determined; `source` is the system's message.
    CurrentDirError { source: String },
}

/// A path could not be inserted because one of its directories is a file in the tree.
#[derive(Debug)]
pub struct CannotInsertIntoFileError {
    path: Vec<String>,
}

impl CannotInsertIntoFileError {
    /// The components of the path that could not be inserted.
    pub closed spec fn spec_path(&self) -> Seq<Seq<char>> {
        self.path.deep_view()
    }

    /// The components of the path that could not be inserted.
    pub fn path(&self) -> (path: &Vec<String>)
        ensures
            path.deep_view() == self.spec_path(),
    {
        &self.path
    }

    /// The error as a sentence.
    pub fn message(&self) -> (text: String)
        ensures
            text@ == "Cannot insert a file into a file"@,
    {
        String::from_str("Cannot insert a file into a file")
    }
}

/// Position of the first child named `name`.
pub open spec fn child_position(children: Seq<(String, FilesystemNode)>, name: Seq<char>) -> Option<int>
    decreases children.len(),
{
    if children.len() == 0 {
        None
    } else if children.last().0@ == name && child_position(children.drop_last(), name) is None {
        Some(children.len() - 1)
    } else {
        child_position(children.drop_last(), name)
    }
}

/// `child_position` finds the first child of that name, and only a child of that name.
pub proof fn lemma_child_position(children: Seq<(String, FilesystemNode)>, name: Seq<char>)
    ensures
        match child_position(children, name) {
            Some(i) => 0 <= i < children.len() && children[i].0@ == name && forall|j: int|
                0 <= j < i ==> (#[trigger] children[j]).0@ != name,
            None => forall|j: int| 0 <= j < children.len() ==> (#[trigger] children[j]).0@ != name,
        },
    decreases children.len(),
{
    if children.len() > 0 {
        let front = children.drop_last();
        lemma_child_position(front, name);
        assert forall|j: int| 0 <= j < front.len() implies front[j] == children[j] by {}
        match child_position(front, name) {
            Some(i) => {
                assert(front[i] == children[i]);
            },
            None => {
                assert forall|j: int| 0 <= j < front.len() implies (#[trigger] children[j]).0@
                    != name by {
                    assert(front[j] == children[j]);
                }
            },
        }
    }
}

/// A position that holds the name, with no earlier position holding it, is the
/// position of the first child of that name.
pub proof fn lemma_child_position_is(children: Seq<(String, FilesystemNode)>, name: Seq<char>, i: int)
    requires
        0 <= i < children.len(),
        children[i].0@ == name,
        forall|j: int| 0 <= j < i ==> (#[trigger] children[j]).0@ != name,
    ensures
        child_position(children, name) == Some(i),
{
    lemma_child_position(children, name);
}

/// Whether `shorter` is the beginning of `longer`, and not all of it.
pub open spec fn is_proper_prefix(shorter: Seq<Seq<char>>, longer: Seq<Seq<char>>) -> bool {
    shorter.len() < longer.len() && longer.subrange(0, shorter.len() as int) == shorter
}

/// All of a path but its first component.
pub open spec fn rest(path: Seq<Seq<char>>) -> Seq<Seq<char>> {
    path.subrange(1, path.len() as int)
}

/// Two paths with the same first component relate as what follows it relates.
pub proof fn lemma_same_first(a: Seq<Seq<char>>, b: Seq<Seq<char>>)
    requires
        a.len() > 0,
        b.len() > 0,
        a[0] == b[0],
    ensures
        (a == b) == (rest(a) == rest(b)),
        is_proper_prefix(a, b) == is_proper_prefix(rest(a), rest(b)),
        is_proper_prefix(b, a) == is_proper_prefix(rest(b), rest(a)),
{
    if rest(a) == rest(b) {
        assert(rest(a).len() == a.len() - 1);
        assert(rest(b).len() == b.len() - 1);
        assert forall|i: int| 0 <= i < a.len() implies a[i] == b[i] by {
            if i > 0 {
                assert(a[i] == rest(a)[i - 1]);
                assert(b[i] == rest(b)[i - 1]);
            }
        }
        assert(a =~= b);
    }
    lemma_prefix_rest(a, b);
    lemma_prefix_rest(b, a);
}

proof fn lemma_prefix_rest(a: Seq<Seq<char>>, b: Seq<Seq<char>>)
    requires
        a.len() > 0,
        b.len() > 0,
        a[0] == b[0],
    ensures
        is_proper_prefix(a, b) == is_proper_prefix(rest(a), rest(b)),
{
    if is_proper_prefix(a, b) {
        assert forall|i: int| 0 <= i < rest(a).len() implies rest(b).subrange(
            0,
            rest(a).len() as int,
        )[i] == rest(a)[i] by {
            assert(b.subrange(0, a.len() as int)[i + 1] == a[i + 1]);
        }
        assert(rest(b).subrange(0, rest(a).len() as int) =~= rest(a));
    }
    if is_proper_prefix(rest(a), rest(b)) {
        assert forall|i: int| 0 <= i < a.len() implies b.subrange(0, a.len() as int)[i] == a[i] by {
            if i > 0 {
                assert(rest(b).subrange(0, rest(a).len() as int)[i - 1] == rest(a)[i - 1]);
            }
        }
        assert(b.subrange(0, a.len() as int) =~= a);
    }
}

/// Two paths with different first components are neither equal nor one the beginning of
/// the other.
pub proof fn lemma_different_first(a: Seq<Seq<char>>, b: Seq<Seq<char>>)
    requires
        a.len() > 0,
        b.len() > 0,
        a[0] != b[0],
    ensures
        a != b,
        !is_proper_prefix(a, b),
        !is_proper_prefix(b, a),
{
    if is_proper_prefix(a, b) {
        assert(b.subrange(0, a.len() as int)[0] == a[0]);
    }
    if is_proper_prefix(b, a) {
        assert(a.subrange(0, b.len() as int)[0] == b[0]);
    }
}

impl FilesystemNode {
    /// Whether the node is a file or a directory.
    pub open spec fn kind(&self) -> NodeKind {
        match *self {
            FilesystemNode::File { .. } => NodeKind::File,
            FilesystemNode::Directory { .. } => NodeKind::Directory,
        }
    }

    /// The node that `path` leads to from this node, one child name per component.
    pub open spec fn node_at(&self, path: Seq<Seq<char>>) -> Option<FilesystemNode>
        decreases path.len(),
    {
        if path.len() == 0 {
            Some(*self)
        } else {
            match *self {
                FilesystemNode::File { .. } => None,
                FilesystemNode::Directory { children } => match child_position(children@, path[0]) {
                    Some(i) => children@[i].1.node_at(rest(path)),
                    None => None,
                },
            }
        }
    }

    /// The kind of the node that `path` leads to, if it leads to one.
    pub open spec fn resolve(&self, path: Seq<Seq<char>>) -> Option<NodeKind> {
        match self.node_at(path) {
            Some(node) => Some(node.kind()),
            None => None,
        }
    }

    /// What the node is, with its size and modification time if it is a file.
    pub open spec fn entry(&self) -> NodeEntry {
        match *self {
            FilesystemNode::File { size, modified_time } => NodeEntry::File { size, modified_time },
            FilesystemNode::Directory { .. } => NodeEntry::Directory,
        }
    }

    /// What `path` leads to, if it leads to a node: a directory, or a file with its
    /// size and modification time.
    pub open spec fn describe(&self, path: Seq<Seq<char>>) -> Option<NodeEntry> {
        match self.node_at(path) {
            Some(node) => Some(node.entry()),
            None => None,
        }
    }

    /// Whether `path` cannot be inserted: one of its beginnings, short of the whole path,
    /// leads to a file.
    pub open spec fn blocks(&self, path: Seq<Seq<char>>) -> bool {
        exists|k: int|
            0 <= k < path.len() && #[trigger] self.resolve(path.subrange(0, k)) == Some(
                NodeKind::File,
            )
    }

    /// What `query` leads to once `path` has been inserted: the path itself is a file of
    /// unknown size and modification time, its beginnings are directories, nothing lies
    /// beneath it, and every other node is as before, a file with the size and the
    /// modification time it had. Inserting the empty path changes nothing.
    pub open spec fn describe_after_insert(
        &self,
        path: Seq<Seq<char>>,
        query: Seq<Seq<char>>,
    ) -> Option<NodeEntry> {
        if path.len() == 0 {
            self.describe(query)
        } else if query == path {
            Some(new_file())
        } else if is_proper_prefix(query, path) {
            Some(NodeEntry::Directory)
        } else if is_proper_prefix(path, query) {
            None
        } else {
            self.describe(query)
        }
    }

    /// The empty directory that a tree starts from.
    pub fn root() -> (node: Self)
        ensures
            node matches FilesystemNode::Directory { children } && children@.len() == 0,
            forall|query: Seq<Seq<char>>| #[trigger]
                node.describe(query) == (if query.len() == 0 {
                    Some(NodeEntry::Directory)
                } else {
                    None
                }),
    {
        FilesystemNode::Directory { children: Vec::new() }
    }

    /// Inserts the file that `path` names, one component per directory level, creating
    /// the directories on the way. The file is stored with neither size nor modification
    /// time; every node that is not on the path or beneath it stays as it is. A file already in the tree where the path needs a
    /// directory is an error, and leaves the tree as it was.
    pub fn try_insert_path(&mut self, path: Vec<String>) -> (res: Result<
        (),
        CannotInsertIntoFileError,
    >)
        ensures
            res is Err == old(self).blocks(path.deep_view()),
            res matches Err(error) ==> error.spec_path() == path.deep_view() && *final(self) == *old(
                self,
            ),
            res is Ok ==> forall|query: Seq<Seq<char>>| #[trigger]
                final(self).describe(query) == old(self).describe_after_insert(
                    path.deep_view(),
                    query,
                ),
    {
        if self.is_blocked(&path) {
            return Err(CannotInsertIntoFileError { path });
        }
        proof {
            assert(path.deep_view().subrange(0, path.deep_view().len() as int) =~= path.deep_view());
        }
        self.insert_from(&path, 0);
        Ok(())
    }

    /// The tree that inserting `paths` in turn builds, starting from the empty directory.
    /// A path that cannot be inserted is passed over.
    pub fn from_paths(paths: Vec<Vec<String>>) -> (tree: Self)
        ensures
            forall|query: Seq<Seq<char>>| #[trigger]
                tree.describe(query) == describe_after_all(paths.deep_view(), paths@.len(), query),
    {
        let ghost all = paths.deep_view();
        let mut tree = Self::root();
        let mut paths = paths;
        let mut i: usize = 0;
        let n = paths.len();
        while i < n
            invariant
                i <= n,
                n == paths@.len(),
                all.len() == n,
                forall|j: int| i <= j < n ==> (#[trigger] paths@[j]).deep_view() == all[j],
                forall|query: Seq<Seq<char>>| #[trigger]
                    tree.describe(query) == describe_after_all(all, i as nat, query),
            decreases n - i,
        {
            let ghost before = tree;
            let ghost path = all[i as int];
            let mut taken: Vec<String> = Vec::new();
            core::mem::swap(&mut taken, &mut paths[i]);
            assert(taken.deep_view() == path);
            proof {
                lemma_blocked_upto(all, i as nat, path, path.len());
                assert(before.blocks(path) == blocked_upto(all, i as nat, path, path.len())) by {
                    if before.blocks(path) {
                        let k = choose|k: int|
                            0 <= k < path.len() && #[trigger] before.resolve(path.subrange(0, k))
                                == Some(NodeKind::File);
                        assert(before.describe(path.subrange(0, k)) == describe_after_all(
                            all,
                            i as nat,
                            path.subrange(0, k),
                        ));
                        assert(is_file(describe_after_all(all, i as nat, path.subrange(0, k))));
                    }
                    if blocked_upto(all, i as nat, path, path.len()) {
                        let k = choose|k: int|
                            0 <= k < path.len() && is_file(
                                #[trigger] describe_after_all(all, i as nat, path.subrange(0, k)),
                            );
                        assert(before.describe(path.subrange(0, k)) == describe_after_all(
                            all,
                            i as nat,
                            path.subrange(0, k),
                        ));
                        assert(before.resolve(path.subrange(0, k)) == Some(NodeKind::File));
                    }
                }
            }
            let outcome = tree.try_insert_path(taken);
            proof {
                let m = (i + 1) as nat;
                assert((m - 1) as nat == i as nat);
                assert(all[m - 1] == path);
                assert forall|query: Seq<Seq<char>>| #[trigger]
                    tree.describe(query) == describe_after_all(all, (i + 1) as nat, query) by {
                    assert(before.describe(query) == describe_after_all(all, i as nat, query));
                    if outcome is Ok {
                        assert(tree.describe(query) == before.describe_after_insert(path, query));
                    } else {
                        assert(tree == before);
                    }
                }
            }
            i += 1;
        }
        tree
    }

    /// The kind of the node that `path` leads to, if it leads to one.
    pub fn kind_at(&self, path: &Vec<String>) -> (res: Option<NodeKind>)
        ensures
            res == self.resolve(path.deep_view()),
    {
        let ghost full = path.deep_view();
        let mut current: &FilesystemNode = self;
        let mut k: usize = 0;
        assert(full.subrange(0, full.len() as int) =~= full);
        while k < path.len()
            invariant
                k <= path.len(),
                full == path.deep_view(),
                self.node_at(full) == current.node_at(full.subrange(k as int, full.len() as int)),
            decreases path.len() - k,
        {
            let ghost remaining = full.subrange(k as int, full.len() as int);
            proof {
                assert(remaining[0] == path@[k as int]@);
                assert(rest(remaining) =~= full.subrange(k + 1, full.len() as int));
            }
            match current {
                FilesystemNode::File { .. } => {
                    return None;
                },
                FilesystemNode::Directory { children } => {
                    match find_child(children, &path[k]) {
                        Some(i) => {
                            current = &children[i].1;
                        },
                        None => {
                            return None;
                        },
                    }
                },
            }
            k += 1;
        }
        proof {
            assert(full.subrange(k as int, full.len() as int) =~= Seq::<Seq<char>>::empty());
        }
        match current {
            FilesystemNode::File { .. } => Some(NodeKind::File),
            FilesystemNode::Directory { .. } => Some(NodeKind::Directory),
        }
    }

    /// Whether `path` cannot be inserted.
    fn is_blocked(&self, path: &Vec<String>) -> (res: bool)
        ensures
            res == self.blocks(path.deep_view()),
    {
        let ghost full = path.deep_view();
        let mut current: &FilesystemNode = self;
        let mut k: usize = 0;
        assert(full.subrange(0, 0) =~= Seq::<Seq<char>>::empty());
        while k < path.len()
            invariant
                k <= path.len(),
                full == path.deep_view(),
                self.node_at(full.subrange(0, k as int)) == Some(*current),
                forall|j: int|
                    0 <= j < k ==> #[trigger] self.resolve(full.subrange(0, j)) != Some(
                        NodeKind::File,
                    ),
            decreases path.len() - k,
        {
            match current {
                FilesystemNode::File { .. } => {
                    assert(self.resolve(full.subrange(0, k as int)) == Some(NodeKind::File));
                    return true;
                },
                FilesystemNode::Directory { children } => {
                    match find_child(children, &path[k]) {
                        Some(i) => {
                            proof {
                                lemma_node_at_extend(self, full.subrange(0, k as int), path@[k as int]@);
                                lemma_node_at_one(current, path@[k as int]@);
                                assert(full.subrange(0, k as int).push(path@[k as int]@)
                                    =~= full.subrange(0, k + 1));
                            }
                            current = &children[i].1;
                        },
                        None => {
                            proof {
                                assert forall|j: int| 0 <= j < full.len() implies #[trigger] self.resolve(
                                    full.subrange(0, j),
                                ) != Some(NodeKind::File) by {
                                    if j > k {
                                        lemma_node_at_one(current, path@[k as int]@);
                                        lemma_node_at_extend(
                                            self,
                                            full.subrange(0, k as int),
                                            path@[k as int]@,
                                        );
                                        assert(full.subrange(0, k as int).push(path@[k as int]@)
                                            =~= full.subrange(0, k + 1));
                                        lemma_node_at_missing(self, full, k + 1, j);
                                    }
                                }
                            }
                            return false;
                        },
                    }
                },
            }
            k += 1;
        }
        false
    }

    /// Inserts the file that the components of `path` from position `from` on name.
    fn insert_from(&mut self, path: &Vec<String>, from: usize)
        requires
            from <= path@.len(),
            !old(self).blocks(path.deep_view().subrange(from as int, path@.len() as int)),
        ensures
            forall|query: Seq<Seq<char>>| #[trigger]
                final(self).describe(query) == old(self).describe_after_insert(
                    path.deep_view().subrange(from as int, path@.len() as int),
                    query,
                ),
        decreases path@.len() - from,
    {
        let ghost before = *self;
        let ghost full = path.deep_view();
        let ghost suffix = full.subrange(from as int, full.len() as int);
        if from >= path.len() {
            return ;
        }
        let ghost name = path@[from as int]@;
        let ghost tail = full.subrange(from + 1, full.len() as int);
        proof {
            assert(suffix[0] == name);
            assert(rest(suffix) =~= tail);
            assert(suffix =~= seq![name] + tail);
            assert(suffix.subrange(0, 0) =~= Seq::<Seq<char>>::empty());
            assert(before.resolve(suffix.subrange(0, 0)) != Some(NodeKind::File));
        }
        match self {
            FilesystemNode::File { .. } => {
                proof {
                    assert(false);
                }
            },
            FilesystemNode::Directory { children } => {
                let ghost old_children = children@;
                let found = find_child(children, &path[from]);
                proof {
                    lemma_child_position(old_children, name);
                }
                if from + 1 == path.len() {
                    let file = FilesystemNode::File { size: None, modified_time: None };
                    let ghost at: int;
                    match found {
                        Some(i) => {
                            children[i] = (path[from].clone(), file);
                            proof {
                                at = i as int;
                            }
                        },
                        None => {
                            children.push((path[from].clone(), file));
                            proof {
                                at = old_children.len() as int;
                            }
                        },
                    }
                    proof {
                        assert(tail =~= Seq::<Seq<char>>::empty());
                        assert(suffix =~= seq![name]);
                        lemma_child_position_is(children@, name, at);
                        lemma_insert_last(old_children, children@, name, at);
                        let after = FilesystemNode::Directory { children: *children };
                        lemma_describe_in(&before);
                        lemma_describe_in(&after);
                        assert forall|query: Seq<Seq<char>>| #[trigger]
                            after.describe(query) == before.describe_after_insert(suffix, query) by {
                            assert(after.describe(query) == describe_in(children@, query));
                            assert(before.describe(query) == describe_in(old_children, query));
                        }
                    }
                } else {
                    let i = match found {
                        Some(i) => i,
                        None => {
                            children.push(
                                (path[from].clone(), FilesystemNode::Directory { children: Vec::new() }),
                            );
                            children.len() - 1
                        },
                    };
                    let ghost entered = children@;
                    let ghost child = entered[i as int].1;
                    proof {
                        lemma_child_position_is(entered, name, i as int);
                        if found is None {
                            lemma_empty_directory(&child);
                        }
                        assert(!child.blocks(tail)) by {
                            if child.blocks(tail) {
                                let k = choose|k: int|
                                    0 <= k < tail.len() && #[trigger] child.resolve(
                                        tail.subrange(0, k),
                                    ) == Some(NodeKind::File);
                                if found is Some {
                                    let longer = suffix.subrange(0, k + 1);
                                    assert(longer[0] == name);
                                    assert(rest(longer) =~= tail.subrange(0, k));
                                    assert(before.node_at(longer) == child.node_at(rest(longer)));
                                    assert(before.resolve(longer) == Some(NodeKind::File));
                                }
                            }
                        }
                    }
                    children[i].1.insert_from(path, from + 1);
                    proof {
                        assert(children@.len() == entered.len());
                        assert forall|j: int| 0 <= j < entered.len() && j != i implies children@[j]
                            == entered[j] by {}
                        assert(children@[i as int].0 == entered[i as int].0);
                        lemma_child_position_is(children@, name, i as int);
                        lemma_insert_deeper(
                            old_children,
                            children@,
                            name,
                            tail,
                            i as int,
                            child,
                        );
                        let after = FilesystemNode::Directory { children: *children };
                        lemma_describe_in(&before);
                        lemma_describe_in(&after);
                        assert forall|query: Seq<Seq<char>>| #[trigger]
                            after.describe(query) == before.describe_after_insert(suffix, query) by {
                            assert(after.describe(query) == describe_in(children@, query));
                            assert(before.describe(query) == describe_in(old_children, query));
                        }
                    }
                }
            },
        }
    }
}

/// Whether one of the first `k` beginnings of `path` leads to a file in the tree that
/// inserting the first `n` of `paths` in turn builds.
pub open spec fn blocked_upto(paths: Seq<Seq<Seq<char>>>, n: nat, path: Seq<Seq<char>>, k: nat) -> bool
    decreases n, k,
{
    if k == 0 || k > path.len() {
        false
    } else {
        is_file(describe_after_all(paths, n, path.subrange(0, k - 1))) || blocked_upto(
            paths,
            n,
            path,
            (k - 1) as nat,
        )
    }
}

/// What `query` leads to in the tree that inserting the first `n` of `paths` in turn
/// builds, a path that cannot be inserted being passed over.
pub open spec fn describe_after_all(paths: Seq<Seq<Seq<char>>>, n: nat, query: Seq<Seq<char>>) -> Option<
    NodeEntry,
>
    decreases n, 0nat,
{
    if n == 0 || n > paths.len() {
        if query.len() == 0 {
            Some(NodeEntry::Directory)
        } else {
            None
        }
    } else {
        let path = paths[n - 1];
        let before = describe_after_all(paths, (n - 1) as nat, query);
        if path.len() == 0 || blocked_upto(paths, (n - 1) as nat, path, path.len()) {
            before
        } else if query == path {
            Some(new_file())
        } else if is_proper_prefix(query, path) {
            Some(NodeEntry::Directory)
        } else if is_proper_prefix(path, query) {
            None
        } else {
            before
        }
    }
}

/// `blocked_upto`, spelled out: one of the first `k` beginnings leads to a file.
proof fn lemma_blocked_upto(paths: Seq<Seq<Seq<char>>>, n: nat, path: Seq<Seq<char>>, k: nat)
    requires
        k <= path.len(),
    ensures
        blocked_upto(paths, n, path, k) == (exists|j: int|
            0 <= j < k && is_file(#[trigger] describe_after_all(paths, n, path.subrange(0, j)))),
    decreases k,
{
    if k > 0 {
        lemma_blocked_upto(paths, n, path, (k - 1) as nat);
        if blocked_upto(paths, n, path, k) {
            if is_file(describe_after_all(paths, n, path.subrange(0, k - 1))) {
            } else {
                let j = choose|j: int|
                    0 <= j < k - 1 && is_file(
                        #[trigger] describe_after_all(paths, n, path.subrange(0, j)),
                    );
                assert(0 <= j < k);
            }
        }
        if exists|j: int|
            0 <= j < k && is_file(#[trigger] describe_after_all(paths, n, path.subrange(0, j))) {
            let j = choose|j: int|
                0 <= j < k && is_file(#[trigger] describe_after_all(paths, n, path.subrange(0, j)));
            if j < k - 1 {
                assert(0 <= j < k - 1);
            }
        }
    }
}

/// A directory leads where its children lead.
proof fn lemma_describe_in(node: &FilesystemNode)
    requires
        *node is Directory,
    ensures
        forall|query: Seq<Seq<char>>| #[trigger]
            node.describe(query) == describe_in(node->children@, query),
{
}

/// An empty directory leads nowhere but to itself.
proof fn lemma_empty_directory(node: &FilesystemNode)
    requires
        *node matches FilesystemNode::Directory { children } && children@.len() == 0,
    ensures
        forall|query: Seq<Seq<char>>| #[trigger]
            node.describe(query) == (if query.len() == 0 {
                Some(NodeEntry::Directory)
            } else {
                None
            }),
        forall|query: Seq<Seq<char>>| #[trigger] node.resolve(query) != Some(NodeKind::File),
{
}

/// What a path of one component leads to.
proof fn lemma_node_at_one(node: &FilesystemNode, name: Seq<char>)
    ensures
        node.node_at(seq![name]) == match *node {
            FilesystemNode::File { .. } => None,
            FilesystemNode::Directory { children } => match child_position(children@, name) {
                Some(i) => Some(children@[i].1),
                None => None,
            },
        },
{
    let one = seq![name];
    assert(one[0] == name);
    assert(rest(one) =~= Seq::<Seq<char>>::empty());
    match *node {
        FilesystemNode::File { .. } => {},
        FilesystemNode::Directory { children } => {
            match child_position(children@, name) {
                Some(i) => {
                    assert(children@[i].1.node_at(rest(one)) == Some(children@[i].1));
                },
                None => {},
            }
        },
    }
}

/// What a directory node with the given children leads to.
pub open spec fn describe_in(children: Seq<(String, FilesystemNode)>, query: Seq<Seq<char>>) -> Option<NodeEntry> {
    if query.len() == 0 {
        Some(NodeEntry::Directory)
    } else {
        match child_position(children, query[0]) {
            Some(i) => children[i].1.describe(rest(query)),
            None => None,
        }
    }
}

/// Whether `after` holds what `before` holds under every name but `name`: the children
/// differ at children named `name` only, and at most by one more such child at the end.
pub open spec fn keeps_other_children(
    before: Seq<(String, FilesystemNode)>,
    after: Seq<(String, FilesystemNode)>,
    name: Seq<char>,
) -> bool {
    &&& before.len() <= after.len() <= before.len() + 1
    &&& forall|j: int|
        0 <= j < before.len() ==> (#[trigger] after[j]).0@ == before[j].0@ && (before[j].0@ != name
            ==> after[j] == before[j])
    &&& after.len() > before.len() ==> after.last().0@ == name
}

/// Storing a file under `name` in a directory inserts the path of that one component.
proof fn lemma_insert_last(
    before: Seq<(String, FilesystemNode)>,
    after: Seq<(String, FilesystemNode)>,
    name: Seq<char>,
    at: int,
)
    requires
        keeps_other_children(before, after, name),
        child_position(after, name) == Some(at),
        0 <= at < after.len(),
        after[at].1.entry() == new_file(),
    ensures
        forall|query: Seq<Seq<char>>| #[trigger]
            describe_in(after, query) == (if query == seq![name] {
                Some(new_file())
            } else if is_proper_prefix(query, seq![name]) {
                Some(NodeEntry::Directory)
            } else if is_proper_prefix(seq![name], query) {
                None
            } else {
                describe_in(before, query)
            }),
{
    let path = seq![name];
    assert(rest(path) =~= Seq::<Seq<char>>::empty());
    assert forall|query: Seq<Seq<char>>| #[trigger]
        describe_in(after, query) == (if query == path {
            Some(new_file())
        } else if is_proper_prefix(query, path) {
            Some(NodeEntry::Directory)
        } else if is_proper_prefix(path, query) {
            None
        } else {
            describe_in(before, query)
        }) by {
        if query.len() == 0 {
            assert(path.subrange(0, 0) =~= query);
        } else if query[0] == name {
            lemma_same_first(query, path);
            if rest(query).len() == 0 {
                assert(rest(query) =~= rest(path));
                assert(after[at].1.node_at(rest(query)) == Some(after[at].1));
            } else {
                assert(rest(query).subrange(0, 0) =~= rest(path));
                assert(after[at].1.node_at(rest(query)) is None);
            }
        } else {
            lemma_different_first(query, path);
            lemma_other_child_kept(before, after, name, query[0]);
        }
    }
}

/// Inserting `tail` beneath the child named `name` inserts the path of `name` followed
/// by `tail`.
proof fn lemma_insert_deeper(
    before: Seq<(String, FilesystemNode)>,
    after: Seq<(String, FilesystemNode)>,
    name: Seq<char>,
    tail: Seq<Seq<char>>,
    at: int,
    child: FilesystemNode,
)
    requires
        tail.len() > 0,
        keeps_other_children(before, after, name),
        child_position(after, name) == Some(at),
        0 <= at < after.len(),
        forall|query: Seq<Seq<char>>| #[trigger]
            after[at].1.describe(query) == child.describe_after_insert(tail, query),
        match child_position(before, name) {
            Some(i) => child == before[i].1,
            None => forall|query: Seq<Seq<char>>| #[trigger]
                child.describe(query) == (if query.len() == 0 {
                    Some(NodeEntry::Directory)
                } else {
                    None
                }),
        },
    ensures
        forall|query: Seq<Seq<char>>| #[trigger]
            describe_in(after, query) == (if query == seq![name] + tail {
                Some(new_file())
            } else if is_proper_prefix(query, seq![name] + tail) {
                Some(NodeEntry::Directory)
            } else if is_proper_prefix(seq![name] + tail, query) {
                None
            } else {
                describe_in(before, query)
            }),
{
    let path = seq![name] + tail;
    assert(path[0] == name);
    assert(rest(path) =~= tail);
    assert forall|query: Seq<Seq<char>>| #[trigger]
        describe_in(after, query) == (if query == path {
            Some(new_file())
        } else if is_proper_prefix(query, path) {
            Some(NodeEntry::Directory)
        } else if is_proper_prefix(path, query) {
            None
        } else {
            describe_in(before, query)
        }) by {
        if query.len() == 0 {
            assert(path.subrange(0, 0) =~= query);
        } else if query[0] == name {
            lemma_same_first(query, path);
            assert(after[at].1.describe(rest(query)) == child.describe_after_insert(tail, rest(query)));
            if child_position(before, name) is None {
                if rest(query).len() == 0 {
                    assert(tail.subrange(0, 0) =~= rest(query));
                }
            }
        } else {
            lemma_different_first(query, path);
            lemma_other_child_kept(before, after, name, query[0]);
        }
    }
}

/// Children that differ only at the first position of `name`, or by one more child of
/// that name at the end, hold the same child under every other name.
proof fn lemma_other_child_kept(
    before: Seq<(String, FilesystemNode)>,
    after: Seq<(String, FilesystemNode)>,
    name: Seq<char>,
    other: Seq<char>,
)
    requires
        other != name,
        keeps_other_children(before, after, name),
    ensures
        child_position(after, other) == child_position(before, other),
        child_position(before, other) matches Some(i) ==> after[i] == before[i],
{
    lemma_child_position(before, other);
    lemma_child_position(after, other);
    match child_position(before, other) {
        Some(i) => {
            assert(after[i].0@ == other);
            match child_position(after, other) {
                Some(j) => {
                    if j < i {
                        assert(before[j].0@ == after[j].0@);
                    }
                    if i < j {
                        assert(after[i].0@ == other);
                    }
                },
                None => {},
            }
        },
        None => {
            match child_position(after, other) {
                Some(j) => {
                    if j < before.len() {
                        assert(before[j].0@ == after[j].0@);
                    }
                },
                None => {},
            }
        },
    }
}

/// Following one more component takes the step from the node reached so far.
proof fn lemma_node_at_extend(node: &FilesystemNode, path: Seq<Seq<char>>, name: Seq<char>)
    ensures
        node.node_at(path.push(name)) == match node.node_at(path) {
            Some(reached) => reached.node_at(seq![name]),
            None => None,
        },
    decreases path.len(),
{
    let longer = path.push(name);
    if path.len() == 0 {
        assert(longer =~= seq![name]);
    } else {
        assert(longer[0] == path[0]);
        assert(rest(longer) =~= rest(path).push(name));
        match *node {
            FilesystemNode::File { .. } => {},
            FilesystemNode::Directory { children } => {
                match child_position(children@, path[0]) {
                    Some(i) => {
                        lemma_node_at_extend(&children@[i].1, rest(path), name);
                    },
                    None => {},
                }
            },
        }
    }
}

/// Beyond a beginning that leads nowhere, every longer beginning leads nowhere.
proof fn lemma_node_at_missing(node: &FilesystemNode, path: Seq<Seq<char>>, n: int, m: int)
    requires
        0 <= n <= m <= path.len(),
        node.node_at(path.subrange(0, n)) is None,
    ensures
        node.node_at(path.subrange(0, m)) is None,
    decreases m - n,
{
    if n < m {
        assert(path.subrange(0, n).push(path[n]) =~= path.subrange(0, n + 1));
        lemma_node_at_extend(node, path.subrange(0, n), path[n]);
        lemma_node_at_missing(node, path, n + 1, m);
    }
}

/// Position of the first child named `name`.
fn find_child(children: &Vec<(String, FilesystemNode)>, name: &String) -> (res: Option<usize>)
    ensures
        match res {
            Some(i) => child_position(children@, name@) == Some(i as int) && i < children@.len(),
            None => child_position(children@, name@) is None,
        },
{
    let mut i: usize = 0;
    while i < children.len()
        invariant
            i <= children.len(),
            forall|j: int| 0 <= j < i ==> (#[trigger] children@[j]).0@ != name@,
        decreases children.len() - i,
    {
        if children[i].0 == *name {
            proof {
                lemma_child_position_is(children@, name@, i as int);
            }
            return Some(i);
        }
        i += 1;
    }
    proof {
        lemma_child_position(children@, name@);
    }
    None
}

} // verus!
