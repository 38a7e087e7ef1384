//! What holds of the file system whatever its state and whatever the path:
//! theorems about the states that the operations lead to, for its users to
//! build on.

use crate::bytes::{read_len, read_result, write_result};
use crate::node::NodeKind;
use crate::pathname::{
    components, file_key, file_name_of, has_parent, is_separator, joined, last_separator,
    lemma_last_separator, lemma_split_at_last_separator, lemma_split_len, node_key, non_empty,
    parent_of, split,
};
use crate::state::FsState;
use vstd::prelude::*;

verus! {

/// Adding a node under a node that is there keeps a state well-formed.
pub proof fn lemma_ensure_wf(state: FsState, key: Seq<Seq<char>>, kind: NodeKind)
    requires
        state.wf(),
        key.len() > 0 ==> state.contains(key.drop_last()),
    ensures
        state.ensure(key, kind).wf(),
{
    let after = state.ensure(key, kind);
    if !state.contains(key) {
        assert(key.len() > 0) by {
            if key.len() == 0 {
                assert(key =~= Seq::<Seq<char>>::empty());
            }
        }
        assert forall|k: Seq<Seq<char>>|
            #[trigger] after.contains(k) && k.len() > 0 implies after.contains(k.drop_last()) by {
            if k != key {
                assert(state.contains(k));
            }
        }
        assert forall|k: Seq<Seq<char>>| #[trigger] after.contains(k) implies after.entries[k].data
            < after.buffers.len() by {
            if k != key {
                assert(state.contains(k));
            }
        }
        assert forall|j: Seq<Seq<char>>, k: Seq<Seq<char>>|
            #![trigger after.entries[j], after.entries[k]]
            after.contains(j) && after.contains(k) && after.entries[j].data
                == after.entries[k].data implies j == k by {
            if j != key {
                assert(state.contains(j));
            }
            if k != key {
                assert(state.contains(k));
            }
        }
    }
}

/// Adding a node changes nothing of the nodes and buffers that were there,
/// and the node that it adds holds an empty buffer.
pub proof fn lemma_ensure_keeps(state: FsState, key: Seq<Seq<char>>, kind: NodeKind)
    requires
        state.wf(),
    ensures
        state.ensure(key, kind).contains(key),
        forall|k: Seq<Seq<char>>|
            state.contains(k) ==> #[trigger] state.ensure(key, kind).contains(k) && state.ensure(
                key,
                kind,
            ).entries[k] == state.entries[k],
        forall|k: Seq<Seq<char>>| #[trigger]
            state.ensure(key, kind).contains(k) ==> state.contains(k) || k == key,
        forall|i: int|
            0 <= i < state.buffers.len() ==> #[trigger] state.ensure(key, kind).buffers[i]
                == state.buffers[i],
        !state.contains(key) ==> {
            &&& state.ensure(key, kind).entries[key].kind == kind
            &&& state.ensure(key, kind).content(state.ensure(key, kind).entries[key].data)
                == Seq::<u8>::empty()
        },
{
}

/// In a new file system the root has no children.
pub proof fn lemma_initial_is_empty()
    ensures
        FsState::initial().wf(),
        FsState::initial().children(Seq::empty()) == Set::<Seq<char>>::empty(),
{
    let root = Seq::<Seq<char>>::empty();
    let state = FsState::initial();
    assert forall|name: Seq<char>| !state.children(root).contains(name) by {
        assert(root.push(name).len() == 1);
    }
}

/// A listing grows by exactly what is made: a node added under the name
/// `name` to the children of `dir` adds `name` to that node's children, and
/// leaves the children of every other node as they were.
pub proof fn lemma_ensure_children(
    state: FsState,
    dir: Seq<Seq<char>>,
    name: Seq<char>,
    kind: NodeKind,
    other: Seq<Seq<char>>,
)
    requires
        state.wf(),
        state.contains(dir),
    ensures
        state.ensure(dir.push(name), kind).children(dir) == state.children(dir).insert(name),
        other != dir ==> state.ensure(dir.push(name), kind).children(other) == state.children(
            other,
        ),
{
    let after = state.ensure(dir.push(name), kind);
    assert forall|n: Seq<char>|
        after.children(dir).contains(n) == state.children(dir).insert(name).contains(n) by {
        if dir.push(n) == dir.push(name) {
            assert(dir.push(n).last() == dir.push(name).last());
        }
    }
    if other != dir {
        assert forall|n: Seq<char>|
            after.children(other).contains(n) == state.children(other).contains(n) by {
            if other.push(n) == dir.push(name) {
                assert(other.push(n).drop_last() =~= other);
                assert(dir.push(name).drop_last() =~= dir);
            }
        }
    }
}

/// What `mkdir` does to a state: the result is well-formed and holds every
/// node on the way to `key`; what was there stays as it was, node and
/// buffer; and what is new is an empty directory on the way to `key`.
pub proof fn lemma_mkdir(state: FsState, key: Seq<Seq<char>>)
    requires
        state.wf(),
    ensures
        state.mkdir(key).wf(),
        forall|n: int| 0 <= n <= key.len() ==> state.mkdir(key).contains(#[trigger] key.take(n)),
        forall|k: Seq<Seq<char>>|
            state.contains(k) ==> #[trigger] state.mkdir(key).contains(k) && state.mkdir(
                key,
            ).entries[k] == state.entries[k],
        state.buffers.len() <= state.mkdir(key).buffers.len(),
        forall|i: int|
            0 <= i < state.buffers.len() ==> #[trigger] state.mkdir(key).buffers[i]
                == state.buffers[i],
        forall|k: Seq<Seq<char>>|
            #[trigger] state.mkdir(key).contains(k) && !state.contains(k) ==> {
                &&& k.len() <= key.len()
                &&& k == key.take(k.len() as int)
                &&& state.mkdir(key).entries[k].kind == NodeKind::Directory
                &&& state.mkdir(key).content(state.mkdir(key).entries[k].data)
                    == Seq::<u8>::empty()
            },
    decreases key.len(),
{
    let after = state.mkdir(key);
    if key.len() == 0 {
        assert forall|n: int| 0 <= n <= key.len() implies after.contains(
            #[trigger] key.take(n),
        ) by {
            assert(key.take(n) =~= Seq::<Seq<char>>::empty());
        }
    } else {
        let up = key.drop_last();
        let mid = state.mkdir(up);
        lemma_mkdir(state, up);
        assert(up.take(up.len() as int) =~= up);
        lemma_ensure_wf(mid, key, NodeKind::Directory);
        lemma_ensure_keeps(mid, key, NodeKind::Directory);
        assert forall|n: int| 0 <= n <= key.len() implies after.contains(
            #[trigger] key.take(n),
        ) by {
            if n == key.len() {
                assert(key.take(n) =~= key);
            } else {
                assert(key.take(n) =~= up.take(n));
            }
        }
        assert forall|k: Seq<Seq<char>>|
            #[trigger] after.contains(k) && !state.contains(k) implies {
            &&& k.len() <= key.len()
            &&& k == key.take(k.len() as int)
            &&& after.entries[k].kind == NodeKind::Directory
            &&& after.content(after.entries[k].data) == Seq::<u8>::empty()
        } by {
            if !mid.contains(k) {
                assert(k == key);
            }
        }
    }
}

/// A listing after `mkdir`: the node on the way to `key` whose key is `dir`
/// has the next name of `key` among its children, beside those that it had;
/// the children of any other node are as they were.
pub proof fn lemma_mkdir_children(state: FsState, key: Seq<Seq<char>>, dir: Seq<Seq<char>>)
    requires
        state.wf(),
    ensures
        state.mkdir(key).children(dir) == if dir.len() < key.len() && dir == key.take(
            dir.len() as int,
        ) {
            state.children(dir).insert(key[dir.len() as int])
        } else {
            state.children(dir)
        },
    decreases key.len(),
{
    if key.len() > 0 {
        let up = key.drop_last();
        let mid = state.mkdir(up);
        lemma_mkdir(state, up);
        lemma_mkdir_children(state, up, dir);
        assert(up.take(up.len() as int) =~= up);
        assert(up.push(key.last()) =~= key);
        lemma_ensure_children(mid, up, key.last(), NodeKind::Directory, dir);
        if dir.len() <= up.len() {
            assert(up.take(dir.len() as int) =~= key.take(dir.len() as int));
        }
    }
}

/// After `mkdir` the path leads to a node, and so does every path to a node
/// on the way. Unless a file was there before, that node is a directory and
/// reports the length 0.
pub proof fn lemma_mkdir_then_exists(state: FsState, path: Seq<char>)
    requires
        state.wf(),
    ensures
        state.mkdir(node_key(path)).contains(node_key(path)),
        forall|n: int|
            0 <= n <= node_key(path).len() ==> state.mkdir(node_key(path)).contains(
                #[trigger] node_key(path).take(n),
            ),
        !(state.contains(node_key(path)) && state.entries[node_key(path)].kind == NodeKind::File)
            ==> {
            &&& state.mkdir(node_key(path)).entries[node_key(path)].kind == NodeKind::Directory
            &&& state.mkdir(node_key(path)).reported_len(node_key(path)) == 0
        },
{
    let key = node_key(path);
    lemma_mkdir(state, key);
    assert(key.take(key.len() as int) =~= key);
}

/// A path with a parent and a leaf that is not empty leads to the node that
/// creating a file at it makes or finds.
pub proof fn lemma_file_key(path: Seq<char>)
    requires
        has_parent(path),
        file_name_of(path).len() > 0,
    ensures
        node_key(path) == file_key(path),
{
    let k = last_separator(path);
    let leaf = file_name_of(path);
    lemma_last_separator(path);
    let front = path.subrange(0, k);
    lemma_split_at_last_separator(path);
    lemma_split_len(front);
    assert(split(front).push(leaf).drop_first() =~= split(front).drop_first().push(leaf));
    assert(components(front).push(leaf).drop_last() =~= components(front));
    if k == 0 {
        lemma_root_key();
    }
}

/// The root path leads to the root, and so does the empty path.
pub proof fn lemma_root_key()
    ensures
        node_key(seq!['/']) == Seq::<Seq<char>>::empty(),
        node_key(Seq::empty()) == Seq::<Seq<char>>::empty(),
{
    let root = seq!['/'];
    let nothing = Seq::<char>::empty();
    assert(root.drop_last() =~= nothing);
    assert(split(nothing) =~= seq![nothing]);
    assert(non_empty(components(root).drop_last()) =~= Seq::<Seq<char>>::empty());
}

/// A file that was created and then opened holds nothing, so that a read
/// from it delivers nothing. The path has a parent that is there, and its
/// leaf is not empty.
pub proof fn lemma_create_then_open_is_empty(state: FsState, path: Seq<char>, room: nat)
    requires
        state.wf(),
        has_parent(path),
        file_name_of(path).len() > 0,
        state.contains(file_key(path).drop_last()),
    ensures
        state.create(file_key(path)).wf(),
        state.create(file_key(path)).contains(node_key(path)),
        state.create(file_key(path)).content(
            state.create(file_key(path)).entries[node_key(path)].data,
        ) == Seq::<u8>::empty(),
        read_len(Seq::empty(), 0, room) == 0,
        read_result(Seq::empty(), 0, room) == Seq::<u8>::empty(),
{
    lemma_file_key(path);
    lemma_create(state, file_key(path));
}

/// What `create` does to a state where the parent of `key` is there: the
/// result is well-formed, a node is at `key` and holds an empty buffer, and
/// every other buffer and every node that was there is as it was.
pub proof fn lemma_create(state: FsState, key: Seq<Seq<char>>)
    requires
        state.wf(),
        key.len() > 0 ==> state.contains(key.drop_last()),
    ensures
        state.create(key).wf(),
        state.create(key).contains(key),
        state.create(key).content(state.create(key).entries[key].data) == Seq::<u8>::empty(),
        forall|k: Seq<Seq<char>>|
            state.contains(k) ==> #[trigger] state.create(key).contains(k) && state.create(
                key,
            ).entries[k] == state.entries[k],
        forall|k: Seq<Seq<char>>| #[trigger]
            state.create(key).contains(k) ==> state.contains(k) || k == key,
        forall|i: int|
            0 <= i < state.buffers.len() && i != state.create(key).entries[key].data
                ==> #[trigger] state.create(key).buffers[i] == state.buffers[i],
{
    let made = state.ensure(key, NodeKind::File);
    lemma_ensure_wf(state, key, NodeKind::File);
    lemma_ensure_keeps(state, key, NodeKind::File);
    lemma_with_content_wf(made, made.entries[key].data, Seq::empty());
}

/// A listing after `create`: a file made under the name `name` among the
/// children of `dir` adds `name` to that node's children, and the children
/// of every other node are as they were.
pub proof fn lemma_create_children(
    state: FsState,
    dir: Seq<Seq<char>>,
    name: Seq<char>,
    other: Seq<Seq<char>>,
)
    requires
        state.wf(),
        state.contains(dir),
    ensures
        state.create(dir.push(name)).children(dir) == state.children(dir).insert(name),
        other != dir ==> state.create(dir.push(name)).children(other) == state.children(other),
{
    lemma_ensure_children(state, dir, name, NodeKind::File, other);
    assert(state.create(dir.push(name)).children(dir) =~= state.ensure(
        dir.push(name),
        NodeKind::File,
    ).children(dir));
    assert(state.create(dir.push(name)).children(other) =~= state.ensure(
        dir.push(name),
        NodeKind::File,
    ).children(other));
}

/// New content for a buffer keeps a state well-formed and its tree as it is.
pub proof fn lemma_with_content_wf(state: FsState, data: nat, bytes: Seq<u8>)
    requires
        state.wf(),
        data < state.buffers.len(),
    ensures
        state.with_content(data, bytes).wf(),
        state.with_content(data, bytes).entries == state.entries,
        state.with_content(data, bytes).content(data) == bytes,
        forall|i: int|
            0 <= i < state.buffers.len() && i != data ==> #[trigger] state.with_content(
                data,
                bytes,
            ).buffers[i] == state.buffers[i],
{
    let after = state.with_content(data, bytes);
    assert forall|k: Seq<Seq<char>>|
        #[trigger] after.contains(k) && k.len() > 0 implies after.contains(k.drop_last()) by {
        assert(state.contains(k));
    }
    assert forall|k: Seq<Seq<char>>| #[trigger] after.contains(k) implies after.entries[k].data
        < after.buffers.len() by {
        assert(state.contains(k));
    }
}

/// Creating a file where a node is already empties that node's buffer in
/// place: the node keeps its buffer, so files open on it see it empty, and
/// nothing else changes.
pub proof fn lemma_create_clears_in_place(state: FsState, key: Seq<Seq<char>>)
    requires
        state.wf(),
        state.contains(key),
    ensures
        state.create(key).entries == state.entries,
        state.create(key).content(state.entries[key].data) == Seq::<u8>::empty(),
        state.create(key) == state.with_content(state.entries[key].data, Seq::empty()),
{
}

/// The chunks one after the other.
pub open spec fn concat(chunks: Seq<Seq<u8>>) -> Seq<u8>
    decreases chunks.len(),
{
    if chunks.len() == 0 {
        Seq::empty()
    } else {
        concat(chunks.drop_last()) + chunks.last()
    }
}

/// The state after the chunks were written one after the other to the
/// buffer `data`, the first at offset `pos` and each next one where the one
/// before it ended.
pub open spec fn write_all(state: FsState, data: nat, pos: nat, chunks: Seq<Seq<u8>>) -> FsState
    decreases chunks.len(),
{
    if chunks.len() == 0 {
        state
    } else {
        let before = chunks.drop_last();
        write_all(state, data, pos, before).write(
            data,
            pos + concat(before).len(),
            chunks.last(),
        )
    }
}

/// Writing where the data ends appends.
pub proof fn lemma_write_at_end(data: Seq<u8>, src: Seq<u8>)
    ensures
        write_result(data, data.len(), src) == data + src,
{
}

/// A file opened for appending has its cursor where the data ends, so that
/// what is written through it follows what was there: the content of a file
/// that was there before, or nothing for a file that was just made.
pub proof fn lemma_append_then_write(state: FsState, key: Seq<Seq<char>>, src: Seq<u8>)
    requires
        state.wf(),
        key.len() > 0 ==> state.contains(key.drop_last()),
    ensures
        ({
            let opened = state.ensure(key, NodeKind::File);
            let data = opened.entries[key].data;
            let prior = opened.content(data);
            &&& opened.write(data, prior.len(), src).content(data) == prior + src
            &&& state.contains(key) ==> prior == state.content(state.entries[key].data)
            &&& !state.contains(key) ==> prior == Seq::<u8>::empty()
        }),
{
    let opened = state.ensure(key, NodeKind::File);
    let data = opened.entries[key].data;
    lemma_ensure_wf(state, key, NodeKind::File);
    lemma_ensure_keeps(state, key, NodeKind::File);
    lemma_write_at_end(opened.content(data), src);
}

/// Chunks written one after the other to an empty buffer leave in it their
/// concatenation, and change neither the tree nor any other buffer.
pub proof fn lemma_write_all(state: FsState, data: nat, chunks: Seq<Seq<u8>>)
    requires
        data < state.buffers.len(),
        state.content(data) == Seq::<u8>::empty(),
    ensures
        write_all(state, data, 0, chunks).entries == state.entries,
        write_all(state, data, 0, chunks).buffers.len() == state.buffers.len(),
        write_all(state, data, 0, chunks).content(data) == concat(chunks),
        forall|i: int|
            0 <= i < state.buffers.len() && i != data ==> #[trigger] write_all(
                state,
                data,
                0,
                chunks,
            ).buffers[i] == state.buffers[i],
    decreases chunks.len(),
{
    if chunks.len() > 0 {
        let before = chunks.drop_last();
        lemma_write_all(state, data, before);
        lemma_write_at_end(concat(before), chunks.last());
    }
}

/// Chunks written to a file that was just created are what a file opened
/// at the same path afterwards holds, from its first byte to its last, and
/// a read from its start with room for all of it delivers all of it.
pub proof fn lemma_write_then_read(state: FsState, path: Seq<char>, chunks: Seq<Seq<u8>>)
    requires
        state.wf(),
        has_parent(path),
        file_name_of(path).len() > 0,
        state.contains(file_key(path).drop_last()),
    ensures
        ({
            let created = state.create(file_key(path));
            let data = created.entries[file_key(path)].data;
            let written = write_all(created, data, 0, chunks);
            &&& written.contains(node_key(path))
            &&& written.entries[node_key(path)].data == data
            &&& written.content(data) == concat(chunks)
            &&& read_result(written.content(data), 0, concat(chunks).len()) == concat(chunks)
        }),
{
    let created = state.create(file_key(path));
    let data = created.entries[file_key(path)].data;
    lemma_file_key(path);
    lemma_create(state, file_key(path));
    lemma_write_all(created, data, chunks);
    lemma_read_all(concat(chunks));
}

/// A read from the start with room for all the data delivers all of it.
pub proof fn lemma_read_all(data: Seq<u8>)
    ensures
        read_len(data, 0, data.len()) == data.len(),
        read_result(data, 0, data.len()) == data,
{
}

/// What a write of `src` at an offset `pos` leaves in a buffer that held
/// `data`. Where the write ends inside the data, the length stays and only
/// the bytes under `src` change. Where it ends past the data, the length is
/// the end of the write, and between the old end and `pos` stand zeros.
pub proof fn lemma_write_result(data: Seq<u8>, pos: nat, src: Seq<u8>)
    ensures
        pos + src.len() <= data.len() ==> write_result(data, pos, src).len() == data.len(),
        pos + src.len() > data.len() ==> write_result(data, pos, src).len() == pos + src.len(),
        forall|i: int|
            pos <= i < pos + src.len() ==> #[trigger] write_result(data, pos, src)[i] == src[i
                - pos],
        forall|i: int|
            0 <= i < data.len() && !(pos <= i < pos + src.len()) ==> #[trigger] write_result(
                data,
                pos,
                src,
            )[i] == data[i],
        forall|i: int| data.len() <= i < pos ==> #[trigger] write_result(data, pos, src)[i] == 0,
{
}

/// Pushing the leaf of a path onto its parent gives the path back, where
/// the path has a parent and its last separator does not follow another.
pub proof fn lemma_parent_push_file_name(path: Seq<char>)
    requires
        has_parent(path),
        last_separator(path) == 0 || !is_separator(path[last_separator(path) - 1]),
    ensures
        joined(parent_of(path)->0, file_name_of(path)) == path,
{
    lemma_last_separator(path);
}

} // verus!
