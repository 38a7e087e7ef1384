//! The nodes of the tree: what a node is, and the names a node knows its
//! children by.

use vstd::prelude::*;

verus! {

/// What a node is. It is fixed when the node is made.
#[derive(Debug, Clone, Copy, PartialEq, Eq, Structural)]
pub enum NodeKind {
    Directory,
    File,
}

/// The name of one byte buffer in the file system's store. Every node holds
/// one, and so does every open file; equal handles name the same bytes.
#[derive(Debug, Clone, Copy, PartialEq, Eq, Structural)]
pub struct DataHandle {
    pub id: usize,
}

/// One child of a node: the name it goes by, and where in the node store it
/// lives.
#[derive(Debug)]
pub struct DirEntry {
    pub name: String,
    pub node: usize,
}

/// A node of the tree. A node of either kind holds a buffer handle and may
/// hold children; only the kind tag tells a file from a directory.
#[derive(Debug)]
pub struct FsNode {
    pub kind: NodeKind,
    pub children: Vec<DirEntry>,
    pub data: DataHandle,
}

/// What a path reports of the node it leads to.
#[derive(Debug, Clone, Copy)]
pub struct MemoryMetadata {
    pub kind: NodeKind,
    pub len: u64,
}

impl MemoryMetadata {
    /// True for a directory.
    pub fn is_dir(&self) -> (r: bool)
        ensures
            r == (self.kind == NodeKind::Directory),
    {
        self.kind == NodeKind::Directory
    }

    /// True for a file.
    pub fn is_file(&self) -> (r: bool)
        ensures
            r == (self.kind == NodeKind::File),
    {
        self.kind == NodeKind::File
    }

    /// The length in bytes: that of the content for a file, 0 for a
    /// directory.
    pub fn len(&self) -> (r: u64)
        ensures
            r == self.len,
    {
        self.len
    }
}

/// Where the child called `name` lives, going by the entry added last; none
/// where no entry has that name.
pub open spec fn find(entries: Seq<DirEntry>, name: Seq<char>) -> Option<usize>
    decreases entries.len(),
{
    if entries.len() == 0 {
        None
    } else if entries.last().name@ == name {
        Some(entries.last().node)
    } else {
        find(entries.drop_last(), name)
    }
}

/// The names of the given entries, in order.
pub open spec fn names_of(entries: Seq<DirEntry>) -> Seq<Seq<char>> {
    Seq::new(entries.len(), |i: int| entries[i].name@)
}

/// A name is found exactly when some entry carries it, and what is found is
/// the place of such an entry.
pub proof fn lemma_find(entries: Seq<DirEntry>, name: Seq<char>)
    ensures
        find(entries, name) is Some <==> names_of(entries).contains(name),
        find(entries, name) matches Some(node) ==> exists|i: int|
            0 <= i < entries.len() && (#[trigger] entries[i]).name@ == name && entries[i].node
                == node,
    decreases entries.len(),
{
    if entries.len() > 0 {
        let init = entries.drop_last();
        let last = entries.len() - 1;
        lemma_find(init, name);
        if entries.last().name@ == name {
            assert(names_of(entries)[last] == name);
        } else {
            if names_of(init).contains(name) {
                let i = choose|i: int| 0 <= i < init.len() && names_of(init)[i] == name;
                assert(names_of(entries)[i] == name);
            }
            if names_of(entries).contains(name) {
                let i = choose|i: int| 0 <= i < entries.len() && names_of(entries)[i] == name;
                assert(names_of(init)[i] == name);
            }
            if find(init, name) is Some {
                let i = choose|i: int|
                    0 <= i < init.len() && (#[trigger] init[i]).name@ == name && init[i].node
                        == find(init, name)->0;
                assert(entries[i] == init[i]);
            }
        }
    }
}

impl FsNode {
    /// A directory without children, holding the buffer `data`.
    pub fn new_directory(data: DataHandle) -> (node: FsNode)
        ensures
            node.kind == NodeKind::Directory,
            node.children@ == Seq::<DirEntry>::empty(),
            node.data == data,
    {
        FsNode { kind: NodeKind::Directory, children: Vec::new(), data }
    }

    /// A file without children, holding the buffer `data`.
    pub fn new_file(data: DataHandle) -> (node: FsNode)
        ensures
            node.kind == NodeKind::File,
            node.children@ == Seq::<DirEntry>::empty(),
            node.data == data,
    {
        FsNode { kind: NodeKind::File, children: Vec::new(), data }
    }

    /// The names of this node's children, oldest first.
    pub open spec fn names(&self) -> Seq<Seq<char>> {
        names_of(self.children@)
    }

    /// Where the child called `name` lives.
    pub open spec fn child(&self, name: Seq<char>) -> Option<usize> {
        find(self.children@, name)
    }

    /// Looks the child called `name` up.
    pub fn lookup(&self, name: &String) -> (found: Option<usize>)
        ensures
            found == self.child(name@),
    {
        let mut i: usize = self.children.len();
        assert(self.children@.subrange(0, i as int) =~= self.children@);
        while i > 0
            invariant
                i <= self.children.len(),
                self.child(name@) == find(self.children@.subrange(0, i as int), name@),
            decreases i,
        {
            i -= 1;
            let ghost upto = self.children@.subrange(0, i + 1);
            assert(upto.drop_last() =~= self.children@.subrange(0, i as int));
            if self.children[i].name == *name {
                return Some(self.children[i].node);
            }
        }
        None
    }
}

} // verus!
