//! The node tree and its buffer store, kept in two growing arrays, and the
//! traversals that resolve and create nodes.
//!
//! Node number 0 is the root. A node holds the buffer with its own number,
//! so the two arrays grow together and nothing in them is ever removed.

use crate::bytes::{read_at, read_len, read_result, write_at};
use crate::error::FsError;
use crate::node::{lemma_find, names_of, DataHandle, DirEntry, FsNode, MemoryMetadata, NodeKind};
use crate::pathname::{lemma_non_empty_step, lemma_non_empty_take, non_empty};
use crate::state::{lemma_depth, lemma_prefix_contained, Entry, FsState};
use vstd::prelude::*;

verus! {

/// The nodes and buffers of one file system.
#[derive(Debug)]
pub struct MemoryFSImpl {
    nodes: Vec<FsNode>,
    buffers: Vec<Vec<u8>>,
}

impl View for MemoryFSImpl {
    type V = FsState;

    closed spec fn view(&self) -> FsState {
        FsState {
            entries: Map::new(
                |key: Seq<Seq<char>>| self.walk(key) is Some,
                |key: Seq<Seq<char>>|
                    Entry {
                        kind: self.nodes[self.walk(key)->0 as int].kind,
                        data: self.walk(key)->0 as nat,
                    },
            ),
            buffers: Seq::new(self.buffers.len() as nat, |i: int| self.buffers[i]@),
        }
    }
}

impl MemoryFSImpl {
    /// The number of the node that the names in `key` lead to from the root.
    spec fn walk(&self, key: Seq<Seq<char>>) -> Option<usize>
        decreases key.len(),
    {
        if key.len() == 0 {
            Some(0usize)
        } else {
            match self.walk(key.drop_last()) {
                Some(n) => if n < self.nodes.len() {
                    self.nodes[n as int].child(key.last())
                } else {
                    None
                },
                None => None,
            }
        }
    }

    /// The arrays describe a tree: the root is a directory, node `n` holds
    /// buffer `n`, every child is a node of the store, names are unique
    /// among siblings, and no node is reached by two different keys.
    pub closed spec fn wf(&self) -> bool {
        &&& self.nodes.len() >= 1
        &&& self.nodes.len() == self.buffers.len()
        &&& self.nodes[0].kind == NodeKind::Directory
        &&& forall|n: int| 0 <= n < self.nodes.len() ==> (#[trigger] self.nodes[n]).data.id == n
        &&& forall|n: int, i: int|
            0 <= n < self.nodes.len() && 0 <= i < self.nodes[n].children.len() ==> (
            #[trigger] self.nodes[n].children[i]).node < self.nodes.len()
        &&& forall|n: int, i: int, j: int|
            0 <= n < self.nodes.len() && 0 <= i < j < self.nodes[n].children.len()
                ==> #[trigger] self.nodes[n].children[i].name@
                != #[trigger] self.nodes[n].children[j].name@
        &&& forall|p: Seq<Seq<char>>, q: Seq<Seq<char>>|
            #![trigger self.walk(p), self.walk(q)]
            self.walk(p) is Some && self.walk(p) == self.walk(q) ==> p == q
    }

    /// A key leads to a node of the store or to none.
    proof fn lemma_walk_in_store(&self, key: Seq<Seq<char>>)
        requires
            self.wf(),
        ensures
            self.walk(key) matches Some(n) ==> n < self.nodes.len(),
        decreases key.len(),
    {
        if key.len() > 0 {
            self.lemma_walk_in_store(key.drop_last());
            if let Some(n) = self.walk(key.drop_last()) {
                lemma_find(self.nodes[n as int].children@, key.last());
            }
        }
    }

    /// The state of a well-formed store is a well-formed state.
    pub proof fn lemma_view_wf(&self)
        requires
            self.wf(),
        ensures
            self@.wf(),
    {
        let state = self@;
        assert forall|key: Seq<Seq<char>>| #[trigger] state.contains(key) implies
            state.entries[key].data < state.buffers.len() by {
            self.lemma_walk_in_store(key);
        }
        assert forall|j: Seq<Seq<char>>, k: Seq<Seq<char>>|
            #![trigger state.entries[j], state.entries[k]]
            state.contains(j) && state.contains(k) && state.entries[j].data
                == state.entries[k].data implies j == k by {
            assert(self.walk(j) == self.walk(k));
        }
    }

    /// A store that holds the root directory and nothing else.
    pub fn new() -> (store: MemoryFSImpl)
        ensures
            store.wf(),
            store@ == FsState::initial(),
    {
        let mut nodes: Vec<FsNode> = Vec::new();
        nodes.push(FsNode::new_directory(DataHandle { id: 0 }));
        let mut buffers: Vec<Vec<u8>> = Vec::new();
        buffers.push(Vec::new());
        let store = MemoryFSImpl { nodes, buffers };
        proof {
            assert forall|key: Seq<Seq<char>>| store.walk(key) is Some implies key
                == Seq::<Seq<char>>::empty() by {
                if key.len() > 0 {
                    assert(store.walk(key) is None);
                }
                assert(key =~= Seq::<Seq<char>>::empty());
            }
            assert(store@.entries =~= FsState::initial().entries);
            assert(store@.buffers =~= FsState::initial().buffers);
        }
        store
    }

    /// `after` is `before` with one node more: a childless node of kind
    /// `kind` with a new empty buffer, entered under `name` among the
    /// children of `parent`.
    spec fn grown(
        before: MemoryFSImpl,
        after: MemoryFSImpl,
        parent: usize,
        name: Seq<char>,
        kind: NodeKind,
    ) -> bool {
        let id = before.nodes.len();
        &&& parent < id
        &&& after.nodes.len() == id + 1
        &&& after.buffers.len() == id + 1
        &&& after.buffers[id as int]@ == Seq::<u8>::empty()
        &&& forall|n: int| 0 <= n < id ==> after.buffers[n] == before.buffers[n]
        &&& forall|n: int| 0 <= n < id && n != parent ==> after.nodes[n] == before.nodes[n]
        &&& after.nodes[parent as int].kind == before.nodes[parent as int].kind
        &&& after.nodes[parent as int].data == before.nodes[parent as int].data
        &&& after.nodes[parent as int].children@.len()
            == before.nodes[parent as int].children@.len() + 1
        &&& after.nodes[parent as int].children@.drop_last()
            == before.nodes[parent as int].children@
        &&& after.nodes[parent as int].children@.last().name@ == name
        &&& after.nodes[parent as int].children@.last().node == id
        &&& after.nodes[id as int].kind == kind
        &&& after.nodes[id as int].data.id == id
        &&& after.nodes[id as int].children@.len() == 0
    }

    /// Where a key leads after a node was added: to the new node where it
    /// names the new child of `parent`, and where it led before otherwise.
    proof fn lemma_walk_grown(
        before: MemoryFSImpl,
        after: MemoryFSImpl,
        parent: usize,
        name: Seq<char>,
        kind: NodeKind,
        key: Seq<Seq<char>>,
    )
        requires
            before.wf(),
            Self::grown(before, after, parent, name, kind),
            parent < before.nodes.len(),
            before.nodes[parent as int].child(name) is None,
        ensures
            after.walk(key) == if key.len() > 0 && before.walk(key.drop_last()) == Some(parent)
                && key.last() == name {
                Some(before.nodes.len() as usize)
            } else {
                before.walk(key)
            },
        decreases key.len(),
    {
        if key.len() > 0 {
            let up = key.drop_last();
            Self::lemma_walk_grown(before, after, parent, name, kind, up);
            before.lemma_walk_in_store(up);
            if let Some(n) = after.walk(up) {
                if n == parent {
                    assert(before.walk(up) == Some(parent));
                } else if n == before.nodes.len() {
                    assert(before.walk(up) is None);
                }
            }
        }
    }

    /// A store that has grown by a child of the node that `key` leads to is
    /// well-formed, and its state is the old one with that child added.
    proof fn lemma_grown(
        before: MemoryFSImpl,
        after: MemoryFSImpl,
        parent: usize,
        name: Seq<char>,
        kind: NodeKind,
        key: Seq<Seq<char>>,
    )
        requires
            before.wf(),
            Self::grown(before, after, parent, name, kind),
            before.walk(key) == Some(parent),
            before.nodes[parent as int].child(name) is None,
        ensures
            after.wf(),
            after.walk(key.push(name)) == Some(before.nodes.len() as usize),
            !before@.contains(key.push(name)),
            after@ == before@.ensure(key.push(name), kind),
    {
        let id = before.nodes.len() as usize;
        let added = key.push(name);
        let siblings = before.nodes[parent as int].children@;
        assert(added.drop_last() =~= key);
        Self::lemma_walk_grown(before, after, parent, name, kind, added);

        assert forall|p: Seq<Seq<char>>, q: Seq<Seq<char>>|
            #![trigger after.walk(p), after.walk(q)]
            after.walk(p) is Some && after.walk(p) == after.walk(q) implies p == q by {
            Self::lemma_walk_grown(before, after, parent, name, kind, p);
            Self::lemma_walk_grown(before, after, parent, name, kind, q);
            before.lemma_walk_in_store(p);
            before.lemma_walk_in_store(q);
            if after.walk(p) == Some(id) {
                assert(before.walk(p.drop_last()) == before.walk(q.drop_last()));
                assert(p =~= p.drop_last().push(name));
                assert(q =~= q.drop_last().push(name));
            } else {
                assert(before.walk(p) == before.walk(q));
            }
        }
        lemma_find(siblings, name);
        assert forall|i: int| 0 <= i < siblings.len() implies (#[trigger] siblings[i]).name@
            != name by {
            assert(names_of(siblings)[i] == siblings[i].name@);
        }
        assert forall|n: int, i: int, j: int|
            0 <= n < after.nodes.len() && 0 <= i < j < after.nodes[n].children.len()
                implies #[trigger] after.nodes[n].children[i].name@
            != #[trigger] after.nodes[n].children[j].name@ by {
            if n == parent {
                assert(after.nodes[n].children@.drop_last()[i] == siblings[i]);
                if j < siblings.len() {
                    assert(after.nodes[n].children@.drop_last()[j] == siblings[j]);
                }
            } else if n < id {
                assert(after.nodes[n] == before.nodes[n]);
            }
        }
        assert forall|n: int, i: int|
            0 <= n < after.nodes.len() && 0 <= i < after.nodes[n].children.len() implies (
        #[trigger] after.nodes[n].children[i]).node < after.nodes.len() by {
            if n == parent {
                if i < siblings.len() {
                    assert(after.nodes[n].children@.drop_last()[i] == siblings[i]);
                }
            } else if n < id {
                assert(after.nodes[n] == before.nodes[n]);
            }
        }

        let expected = before@.ensure(added, kind);
        assert forall|q: Seq<Seq<char>>|
            after@.entries.contains_key(q) == expected.entries.contains_key(q) by {
            Self::lemma_walk_grown(before, after, parent, name, kind, q);
            before.lemma_walk_in_store(q);
            if after.walk(q) == Some(id) {
                assert(before.walk(q.drop_last()) == before.walk(key));
                assert(q =~= q.drop_last().push(name));
            }
        }
        assert forall|q: Seq<Seq<char>>| #[trigger]
            after@.entries.contains_key(q) implies after@.entries[q] == expected.entries[q] by {
            Self::lemma_walk_grown(before, after, parent, name, kind, q);
            before.lemma_walk_in_store(q);
        }
        assert(after@.entries =~= expected.entries);
        assert(after@.buffers =~= expected.buffers);
    }

    /// Adds a childless node of kind `kind` under the name `name` to the
    /// children of the node `parent`, which `key` leads to and which has no
    /// child of that name yet, and returns the new node's number.
    fn add_child(
        &mut self,
        parent: usize,
        name: String,
        kind: NodeKind,
        Ghost(key): Ghost<Seq<Seq<char>>>,
    ) -> (id: usize)
        requires
            old(self).wf(),
            old(self).walk(key) == Some(parent),
            parent < old(self).nodes.len(),
            old(self).nodes[parent as int].child(name@) is None,
        ensures
            final(self).wf(),
            id < final(self).nodes.len(),
            final(self).walk(key.push(name@)) == Some(id),
            !old(self)@.contains(key.push(name@)),
            final(self)@ == old(self)@.ensure(key.push(name@), kind),
    {
        let id: usize = self.nodes.len();
        self.buffers.push(Vec::new());
        self.nodes.push(FsNode { kind, children: Vec::new(), data: DataHandle { id } });
        self.nodes[parent].children.push(DirEntry { name, node: id });
        proof {
            assert(self.nodes[parent as int].children@.drop_last() =~= old(
                self,
            ).nodes[parent as int].children@);
            Self::lemma_grown(*old(self), *self, parent, name@, kind, key);
        }
        id
    }

    /// The number of the node that `segments` lead to from the root, empty
    /// segments skipped; or the first segment that names no child.
    fn locate(&self, segments: &Vec<String>) -> (found: Result<usize, FsError>)
        requires
            self.wf(),
        ensures
            match found {
                Ok(n) => self.walk(non_empty(segments.deep_view())) == Some(n) && n
                    < self.nodes.len(),
                Err(FsError::NotFound(name)) => {
                    let key = non_empty(segments.deep_view());
                    &&& self.walk(key) is None
                    &&& self@.depth(key) < key.len()
                    &&& name@ == key[self@.depth(key) as int]
                },
                Err(FsError::InvalidArgument) => false,
            },
    {
        let ghost all = segments.deep_view();
        let mut current: usize = 0;
        let mut i: usize = 0;
        while i < segments.len()
            invariant
                self.wf(),
                all == segments.deep_view(),
                i <= segments.len(),
                current < self.nodes.len(),
                self.walk(non_empty(all.take(i as int))) == Some(current),
            decreases segments.len() - i,
        {
            let segment: &String = &segments[i];
            proof {
                lemma_non_empty_step(all, i as int);
            }
            if !segment.as_str().is_empty() {
                match self.nodes[current].lookup(segment) {
                    Some(child) => {
                        proof {
                            self.lemma_walk_in_store(non_empty(all.take(i + 1)));
                            assert(non_empty(all.take(i + 1)).drop_last() =~= non_empty(
                                all.take(i as int),
                            ));
                        }
                        current = child;
                    },
                    None => {
                        proof {
                            let here = non_empty(all.take(i as int));
                            let next = non_empty(all.take(i + 1));
                            let key = non_empty(all);
                            assert(next.drop_last() =~= here);
                            lemma_non_empty_take(all, i as int);
                            lemma_non_empty_take(all, i + 1);
                            self.lemma_view_wf();
                            lemma_depth(self@, key, here.len() as int);
                            if self.walk(key) is Some {
                                lemma_prefix_contained(self@, key, here.len() as int + 1);
                            }
                        }
                        return Err(FsError::NotFound(segment.clone()));
                    },
                }
            }
            i += 1;
        }
        assert(all.take(i as int) =~= all);
        Ok(current)
    }

    /// Descends from the root along `segments`, skipping empty ones, and
    /// hands out the node that they lead to. A segment that names no child
    /// ends the descent, and the error names it.
    pub fn traverse(&self, segments: &Vec<String>) -> (found: Result<&FsNode, FsError>)
        requires
            self.wf(),
        ensures
            match found {
                Ok(node) => {
                    let key = non_empty(segments.deep_view());
                    &&& self@.contains(key)
                    &&& node.kind == self@.entries[key].kind
                    &&& node.data.id == self@.entries[key].data
                    &&& node.names().to_set() == self@.children(key)
                    &&& node.names().no_duplicates()
                },
                Err(FsError::NotFound(name)) => {
                    let key = non_empty(segments.deep_view());
                    &&& !self@.contains(key)
                    &&& self@.depth(key) < key.len()
                    &&& name@ == key[self@.depth(key) as int]
                },
                Err(FsError::InvalidArgument) => false,
            },
    {
        match self.locate(segments) {
            Ok(n) => {
                let node: &FsNode = &self.nodes[n];
                proof {
                    let key = non_empty(segments.deep_view());
                    assert forall|name: Seq<char>|
                        node.names().to_set().contains(name) == self@.children(key).contains(
                            name,
                        ) by {
                        lemma_find(node.children@, name);
                        assert(key.push(name).drop_last() =~= key);
                    }
                }
                Ok(node)
            },
            Err(e) => Err(e),
        }
    }

    /// Descends like `traverse`, but makes a directory wherever a segment
    /// names no child, and so always arrives. What it descends into may be
    /// a file: the kind of an existing node is not looked at.
    pub fn traverse_mkdir(&mut self, segments: &Vec<String>)
        requires
            old(self).wf(),
        ensures
            final(self).wf(),
            final(self)@ == old(self)@.mkdir(non_empty(segments.deep_view())),
    {
        let ghost all = segments.deep_view();
        let mut current: usize = 0;
        let mut i: usize = 0;
        while i < segments.len()
            invariant
                self.wf(),
                all == segments.deep_view(),
                i <= segments.len(),
                current < self.nodes.len(),
                self.walk(non_empty(all.take(i as int))) == Some(current),
                self@ == old(self)@.mkdir(non_empty(all.take(i as int))),
            decreases segments.len() - i,
        {
            let segment: &String = &segments[i];
            let ghost here = non_empty(all.take(i as int));
            proof {
                lemma_non_empty_step(all, i as int);
                assert(here.push(segment@).drop_last() =~= here);
            }
            if !segment.as_str().is_empty() {
                match self.nodes[current].lookup(segment) {
                    Some(child) => {
                        proof {
                            self.lemma_walk_in_store(here.push(segment@));
                        }
                        current = child;
                    },
                    None => {
                        current =
                        self.add_child(current, segment.clone(), NodeKind::Directory, Ghost(here));
                    },
                }
            }
            i += 1;
        }
        assert(all.take(i as int) =~= all);
    }

    /// Resolves the node that `parent` leads to, as `traverse` does, and
    /// hands out the buffer of its child `name`: that of the node which is
    /// there, whatever its kind, or of a new empty file made under that
    /// name. Without the parent nothing is made.
    pub fn get_or_create_file_under(&mut self, parent: &Vec<String>, name: String) -> (found:
        Result<DataHandle, FsError>)
        requires
            old(self).wf(),
        ensures
            final(self).wf(),
            match found {
                Ok(data) => {
                    let key = non_empty(parent.deep_view()).push(name@);
                    &&& old(self)@.contains(key.drop_last())
                    &&& final(self)@ == old(self)@.ensure(key, NodeKind::File)
                    &&& final(self)@.contains(key)
                    &&& data.id == final(self)@.entries[key].data
                },
                Err(FsError::NotFound(missing)) => {
                    let up = non_empty(parent.deep_view());
                    &&& !old(self)@.contains(up)
                    &&& old(self)@.depth(up) < up.len()
                    &&& missing@ == up[old(self)@.depth(up) as int]
                    &&& final(self)@ == old(self)@
                },
                Err(FsError::InvalidArgument) => false,
            },
    {
        let ghost up = non_empty(parent.deep_view());
        proof {
            assert(up.push(name@).drop_last() =~= up);
        }
        match self.locate(parent) {
            Ok(n) => {
                let id: usize = match self.nodes[n].lookup(&name) {
                    Some(child) => {
                        proof {
                            self.lemma_walk_in_store(up.push(name@));
                        }
                        child
                    },
                    None => self.add_child(n, name, NodeKind::File, Ghost(up)),
                };
                Ok(self.nodes[id].data)
            },
            Err(e) => Err(e),
        }
    }

    /// The kind and the length that the node `node` of this store reports:
    /// no length for a directory, the length of its buffer for a file.
    pub fn metadata(&self, node: &FsNode) -> (meta: MemoryMetadata)
        requires
            self.wf(),
            node.data.id < self@.buffers.len(),
        ensures
            meta.kind == node.kind,
            meta.len == if node.kind == NodeKind::Directory {
                0
            } else {
                self@.content(node.data.id as nat).len()
            },
    {
        let len: usize = match node.kind {
            NodeKind::Directory => 0,
            NodeKind::File => self.buffers[node.data.id].len(),
        };
        MemoryMetadata { kind: node.kind, len: len as u64 }
    }

    /// True where `data` names a buffer of this store.
    pub fn holds(&self, data: DataHandle) -> (r: bool)
        requires
            self.wf(),
        ensures
            r == (data.id < self@.buffers.len()),
    {
        data.id < self.buffers.len()
    }

    /// How many bytes the buffer `data` holds.
    pub fn buffer_len(&self, data: DataHandle) -> (len: usize)
        requires
            self.wf(),
            data.id < self@.buffers.len(),
        ensures
            len == self@.content(data.id as nat).len(),
    {
        self.buffers[data.id].len()
    }

    /// Empties the buffer `data` in place.
    pub fn clear(&mut self, data: DataHandle)
        requires
            old(self).wf(),
            data.id < old(self)@.buffers.len(),
        ensures
            final(self).wf(),
            final(self)@ == old(self)@.with_content(data.id as nat, Seq::empty()),
    {
        self.buffers[data.id].clear();
        proof {
            self.lemma_same_tree(*old(self));
            assert(self@.buffers =~= old(self)@.with_content(data.id as nat, Seq::empty()).buffers);
        }
    }

    /// Copies bytes of the buffer `data` from offset `pos` on into `buf`, as
    /// many as are there and fit, and returns their number.
    pub fn read(&self, data: DataHandle, pos: u64, buf: &mut [u8]) -> (n: usize)
        requires
            self.wf(),
            data.id < self@.buffers.len(),
        ensures
            n == read_len(self@.content(data.id as nat), pos as nat, old(buf)@.len()),
            pos + n <= u64::MAX,
            final(buf)@ == read_result(self@.content(data.id as nat), pos as nat, old(buf)@.len())
                + old(buf)@.subrange(n as int, old(buf)@.len() as int),
    {
        read_at(&self.buffers[data.id], pos, buf)
    }

    /// Writes `src` into the buffer `data` at offset `pos`.
    pub fn write(&mut self, data: DataHandle, pos: usize, src: &[u8])
        requires
            old(self).wf(),
            data.id < old(self)@.buffers.len(),
            pos + src@.len() <= usize::MAX,
        ensures
            final(self).wf(),
            final(self)@ == old(self)@.write(data.id as nat, pos as nat, src@),
    {
        write_at(&mut self.buffers[data.id], pos, src);
        proof {
            self.lemma_same_tree(*old(self));
            assert(self@.buffers =~= old(self)@.write(data.id as nat, pos as nat, src@).buffers);
        }
    }

    /// A store with the same nodes and as many buffers describes the same
    /// tree.
    proof fn lemma_same_tree(&self, before: MemoryFSImpl)
        requires
            before.wf(),
            self.nodes == before.nodes,
            self.buffers.len() == before.buffers.len(),
        ensures
            self.wf(),
            self@.entries == before@.entries,
    {
        assert forall|key: Seq<Seq<char>>| self.walk(key) == before.walk(key) by {
            self.lemma_walk_same(before, key);
        }
    }

    /// With the same nodes a key leads to the same node.
    proof fn lemma_walk_same(&self, before: MemoryFSImpl, key: Seq<Seq<char>>)
        requires
            self.nodes == before.nodes,
        ensures
            self.walk(key) == before.walk(key),
        decreases key.len(),
    {
        if key.len() > 0 {
            self.lemma_walk_same(before, key.drop_last());
        }
    }
}

} // verus!
