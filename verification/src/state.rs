//! The file system as a mathematical value: which nodes exist under which
//! names, and what each buffer holds.

use crate::bytes::write_result;
use crate::node::NodeKind;
use vstd::prelude::*;

verus! {

/// What the tree records of one node: its kind, and which buffer it holds.
pub struct Entry {
    pub kind: NodeKind,
    pub data: nat,
}

/// The state of a file system. A node is known by its key, the names that
/// lead to it from the root; the root's key is empty. Buffers are numbered
/// in the order in which they were made.
pub struct FsState {
    pub entries: Map<Seq<Seq<char>>, Entry>,
    pub buffers: Seq<Seq<u8>>,
}

impl FsState {
    /// The state of a new file system: the root directory and its buffer.
    pub open spec fn initial() -> FsState {
        FsState {
            entries: Map::empty().insert(
                Seq::empty(),
                Entry { kind: NodeKind::Directory, data: 0 },
            ),
            buffers: seq![Seq::empty()],
        }
    }

    /// True where a node has the key `key`.
    pub open spec fn contains(self, key: Seq<Seq<char>>) -> bool {
        self.entries.contains_key(key)
    }

    /// The root is there and is a directory, every other node has its parent,
    /// every node holds a buffer of the store, and no two nodes hold the same.
    pub open spec fn wf(self) -> bool {
        &&& self.contains(Seq::empty())
        &&& self.entries[Seq::empty()].kind == NodeKind::Directory
        &&& forall|key: Seq<Seq<char>>| #[trigger]
            self.contains(key) && key.len() > 0 ==> self.contains(key.drop_last())
        &&& forall|key: Seq<Seq<char>>| #[trigger]
            self.contains(key) ==> self.entries[key].data < self.buffers.len()
        &&& forall|j: Seq<Seq<char>>, k: Seq<Seq<char>>|
            #![trigger self.entries[j], self.entries[k]]
            self.contains(j) && self.contains(k) && self.entries[j].data == self.entries[k].data
                ==> j == k
    }

    /// How many leading names of `key` lead to a node.
    pub open spec fn depth(self, key: Seq<Seq<char>>) -> nat
        decreases key.len(),
    {
        if key.len() == 0 || self.contains(key) {
            key.len()
        } else {
            self.depth(key.drop_last())
        }
    }

    /// The names of the children of the node `key`.
    pub open spec fn children(self, key: Seq<Seq<char>>) -> Set<Seq<char>> {
        Set::new(|name: Seq<char>| self.contains(key.push(name)))
    }

    /// What the buffer `data` holds.
    pub open spec fn content(self, data: nat) -> Seq<u8> {
        self.buffers[data as int]
    }

    /// This state with a node of kind `kind` at `key`, holding a new empty
    /// buffer, unless a node is there already.
    pub open spec fn ensure(self, key: Seq<Seq<char>>, kind: NodeKind) -> FsState {
        if self.contains(key) {
            self
        } else {
            FsState {
                entries: self.entries.insert(key, Entry { kind, data: self.buffers.len() }),
                buffers: self.buffers.push(Seq::empty()),
            }
        }
    }

    /// This state with a directory at each node on the way to `key` that was
    /// missing, made from the root down.
    pub open spec fn mkdir(self, key: Seq<Seq<char>>) -> FsState
        decreases key.len(),
    {
        if key.len() == 0 {
            self
        } else {
            self.mkdir(key.drop_last()).ensure(key, NodeKind::Directory)
        }
    }

    /// This state after a file was created at `key`: a file is there, new
    /// unless a node was there already, and the buffer of the node at `key`
    /// is empty.
    pub open spec fn create(self, key: Seq<Seq<char>>) -> FsState {
        let made = self.ensure(key, NodeKind::File);
        made.with_content(made.entries[key].data, Seq::empty())
    }

    /// The length that the node at `key` reports: none for a directory, that
    /// of its buffer for a file.
    pub open spec fn reported_len(self, key: Seq<Seq<char>>) -> nat {
        if self.entries[key].kind == NodeKind::Directory {
            0
        } else {
            self.content(self.entries[key].data).len()
        }
    }

    /// This state with `bytes` as the content of the buffer `data`.
    pub open spec fn with_content(self, data: nat, bytes: Seq<u8>) -> FsState {
        FsState { entries: self.entries, buffers: self.buffers.update(data as int, bytes) }
    }

    /// This state after `src` has been written to the buffer `data` at
    /// offset `pos`.
    pub open spec fn write(self, data: nat, pos: nat, src: Seq<u8>) -> FsState {
        self.with_content(data, write_result(self.content(data), pos, src))
    }
}

/// In a well-formed state every prefix of a node's key leads to a node.
pub proof fn lemma_prefix_contained(state: FsState, key: Seq<Seq<char>>, n: int)
    requires
        state.wf(),
        state.contains(key),
        0 <= n <= key.len(),
    ensures
        state.contains(key.take(n)),
    decreases key.len(),
{
    if n == key.len() {
        assert(key.take(n) =~= key);
    } else {
        lemma_prefix_contained(state, key.drop_last(), n);
        assert(key.drop_last().take(n) =~= key.take(n));
    }
}

/// Where the first `n` names of `key` lead to a node and the first `n + 1`
/// do not, the depth of `key` is `n`.
pub proof fn lemma_depth(state: FsState, key: Seq<Seq<char>>, n: int)
    requires
        state.wf(),
        0 <= n < key.len(),
        state.contains(key.take(n)),
        !state.contains(key.take(n + 1)),
    ensures
        state.depth(key) == n,
    decreases key.len(),
{
    if state.contains(key) {
        lemma_prefix_contained(state, key, n + 1);
    } else if key.len() == n + 1 {
        assert(state.depth(key.drop_last()) == n);
    } else {
        assert(key.drop_last().take(n) =~= key.take(n));
        assert(key.drop_last().take(n + 1) =~= key.take(n + 1));
        lemma_depth(state, key.drop_last(), n);
    }
}

} // verus!
