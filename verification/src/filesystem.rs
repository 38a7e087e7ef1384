//! The file system as its users see it: paths that resolve, create and list
//! nodes, and files that read, write and seek.
//!
//! A path and a file are plain values. Each operation that looks at or
//! changes the tree or a buffer is handed the file system it works on.

use crate::bytes::{read_len, read_result};
use crate::error::FsError;
use crate::node::{DataHandle, FsNode, MemoryMetadata, NodeKind};
use crate::pathname::{
    child_path, decompose, file_key, file_name_of, has_parent, is_child_path, is_listing, joined,
    lemma_child_path_injective, node_key, parent_of, path_components, push_segment,
};
use crate::state::FsState;
use crate::tree::MemoryFSImpl;
use vstd::prelude::*;
use vstd::std_specs::convert::FromSpecImpl;
use vstd::string::StringExecFns;

verus! {

/// A path, as the string that was given.
pub type Filename = String;

/// An ephemeral in-memory file system.
#[derive(Debug)]
pub struct MemoryFS {
    handle: MemoryFSImpl,
}

impl View for MemoryFS {
    type V = FsState;

    closed spec fn view(&self) -> FsState {
        self.handle@
    }
}

impl MemoryFS {
    /// What every operation keeps true of a file system.
    pub closed spec fn wf(&self) -> bool {
        self.handle.wf()
    }

    /// The state of a well-formed file system is a well-formed state.
    pub proof fn lemma_view_wf(&self)
        requires
            self.wf(),
        ensures
            self@.wf(),
    {
        self.handle.lemma_view_wf();
    }

    /// A file system that holds the root directory and nothing else.
    pub fn new() -> (fs: MemoryFS)
        ensures
            fs.wf(),
            fs@ == FsState::initial(),
    {
        MemoryFS { handle: MemoryFSImpl::new() }
    }

    /// The path `path`. It need not lead anywhere.
    pub fn path(&self, path: &str) -> (made: MemoryPath)
        ensures
            made.path@ == path@,
    {
        MemoryPath::new(path.to_owned())
    }

    /// True where `data` names a buffer of this file system.
    pub fn holds(&self, data: DataHandle) -> (r: bool)
        requires
            self.wf(),
        ensures
            r == (data.id < self@.buffers.len()),
    {
        self.handle.holds(data)
    }

    /// How many bytes the buffer `data` holds.
    pub fn buffer_len(&self, data: DataHandle) -> (len: usize)
        requires
            self.wf(),
            data.id < self@.buffers.len(),
        ensures
            len == self@.content(data.id as nat).len(),
    {
        self.handle.buffer_len(data)
    }
}

/// Where a seek moves the cursor to.
#[derive(Debug, Clone, Copy)]
pub enum SeekFrom {
    /// So many bytes from the start.
    Start(u64),
    /// So many bytes from the end of the data, backwards where negative.
    End(i64),
    /// So many bytes from where the cursor is, backwards where negative.
    Current(i64),
}

/// The offset that a seek asks for, given the length of the data and where
/// the cursor stands. It may be negative.
pub open spec fn seek_target(len: nat, pos: nat, style: SeekFrom) -> int {
    match style {
        SeekFrom::Start(n) => n as int,
        SeekFrom::End(n) => len + n,
        SeekFrom::Current(n) => pos + n,
    }
}

/// An open file: a buffer of a file system, and a cursor into it. Files on
/// the same buffer see each other's writes; each has a cursor of its own.
#[derive(Debug)]
pub struct MemoryFile {
    pub data: DataHandle,
    pub pos: u64,
}

impl MemoryFile {
    /// Reads from the cursor on into `buf`, as many bytes as are there and
    /// fit, moves the cursor past them and returns their number. At or past
    /// the end of the data that number is 0.
    pub fn read(&mut self, fs: &MemoryFS, buf: &mut [u8]) -> (r: Result<usize, FsError>)
        requires
            fs.wf(),
            old(self).data.id < fs@.buffers.len(),
        ensures
            final(self).data == old(self).data,
            r matches Ok(n) && {
                let content = fs@.content(old(self).data.id as nat);
                &&& n == read_len(content, old(self).pos as nat, old(buf)@.len())
                &&& final(self).pos == old(self).pos + n
                &&& final(buf)@ == read_result(content, old(self).pos as nat, old(buf)@.len())
                    + old(buf)@.subrange(n as int, old(buf)@.len() as int)
            },
    {
        let n: usize = fs.handle.read(self.data, self.pos, buf);
        self.pos = self.pos + n as u64;
        Ok(n)
    }

    /// Writes all of `buf` at the cursor, filling a gap between the end of
    /// the data and the cursor with zeros, moves the cursor past what was
    /// written and returns its length.
    pub fn write(&mut self, fs: &mut MemoryFS, buf: &[u8]) -> (r: Result<usize, FsError>)
        requires
            old(fs).wf(),
            old(self).data.id < old(fs)@.buffers.len(),
            old(self).pos + buf@.len() <= usize::MAX,
        ensures
            final(fs).wf(),
            final(self).data == old(self).data,
            final(self).pos == old(self).pos + buf@.len(),
            final(fs)@ == old(fs)@.write(old(self).data.id as nat, old(self).pos as nat, buf@),
            r == Ok::<usize, FsError>(buf@.len() as usize),
    {
        fs.handle.write(self.data, self.pos as usize, buf);
        self.pos = self.pos + buf.len() as u64;
        Ok(buf.len())
    }

    /// Does nothing: what was written is in the buffer already.
    pub fn flush(&mut self) -> (r: Result<(), FsError>)
        ensures
            *final(self) == *old(self),
            r is Ok,
    {
        Ok(())
    }

    /// Moves the cursor to the offset that `style` asks for and returns it.
    /// The offset may lie past the end of the data. A negative one is
    /// refused, and the cursor stays.
    pub fn seek(&mut self, fs: &MemoryFS, style: SeekFrom) -> (r: Result<u64, FsError>)
        requires
            fs.wf(),
            old(self).data.id < fs@.buffers.len(),
            seek_target(
                fs@.content(old(self).data.id as nat).len(),
                old(self).pos as nat,
                style,
            ) <= u64::MAX,
        ensures
            final(self).data == old(self).data,
            ({
                let target = seek_target(
                    fs@.content(old(self).data.id as nat).len(),
                    old(self).pos as nat,
                    style,
                );
                if target < 0 {
                    r == Err::<u64, FsError>(FsError::InvalidArgument) && final(self).pos == old(
                        self,
                    ).pos
                } else {
                    r == Ok::<u64, FsError>(target as u64) && final(self).pos == target
                }
            }),
    {
        let target: i128 = match style {
            SeekFrom::Start(n) => {
                self.pos = n;
                return Ok(n);
            },
            SeekFrom::End(n) => fs.buffer_len(self.data) as i128 + n as i128,
            SeekFrom::Current(n) => self.pos as i128 + n as i128,
        };
        if target < 0 {
            Err(FsError::InvalidArgument)
        } else {
            self.pos = target as u64;
            Ok(self.pos)
        }
    }
}

/// A location in a file system, given by its path string.
#[derive(Debug)]
pub struct MemoryPath {
    pub path: Filename,
}

impl Clone for MemoryPath {
    fn clone(&self) -> (copy: Self)
        ensures
            copy == *self,
    {
        MemoryPath { path: self.path.clone() }
    }
}

impl PartialEq for MemoryPath {
    fn eq(&self, other: &MemoryPath) -> (r: bool) {
        self.path == other.path
    }
}

impl vstd::std_specs::cmp::PartialEqSpecImpl for MemoryPath {
    open spec fn obeys_eq_spec() -> bool {
        true
    }

    open spec fn eq_spec(&self, other: &MemoryPath) -> bool {
        self.path@ == other.path@
    }
}

impl<'a> From<&'a MemoryPath> for String {
    fn from(path: &'a MemoryPath) -> (text: String) {
        path.path.clone()
    }
}

impl<'a> FromSpecImpl<&'a MemoryPath> for String {
    open spec fn obeys_from_spec() -> bool {
        true
    }

    open spec fn from_spec(path: &'a MemoryPath) -> String {
        path.path
    }
}

impl MemoryPath {
    /// The path with the string `path`.
    pub fn new(path: Filename) -> (made: MemoryPath)
        ensures
            made.path == path,
    {
        MemoryPath { path }
    }

    /// Parent and leaf of this path, as strings.
    pub fn decompose_path(&self) -> (parts: (Option<String>, String))
        ensures
            parts.1@ == file_name_of(self.path@),
            match parts.0 {
                Some(parent) => parent_of(self.path@) == Some(parent@),
                None => parent_of(self.path@) is None,
            },
    {
        decompose(self.path.as_str())
    }

    /// The path of the parent; none for the root path and for a path without
    /// a separator.
    pub fn parent(&self) -> (r: Option<MemoryPath>)
        ensures
            match r {
                Some(parent) => parent_of(self.path@) == Some(parent.path@),
                None => parent_of(self.path@) is None,
            },
    {
        match self.decompose_path().0 {
            Some(parent) => Some(MemoryPath::new(parent)),
            None => None,
        }
    }

    /// The leaf of this path.
    pub fn file_name(&self) -> (r: Option<String>)
        ensures
            r matches Some(name) && name@ == file_name_of(self.path@),
    {
        Some(self.decompose_path().1)
    }

    /// Extends this path by `segment`, with exactly one separator between
    /// what was there and the segment.
    pub fn push(&mut self, segment: &str)
        ensures
            final(self).path@ == joined(old(self).path@, segment@),
    {
        push_segment(&mut self.path, segment);
    }

    /// The node that this path leads to: the segments after the leading
    /// separator are walked from the root, empty ones skipped. A segment
    /// that names no child ends the walk, and the error names it.
    pub fn with_node<'a>(&self, fs: &'a MemoryFS) -> (r: Result<&'a FsNode, FsError>)
        requires
            fs.wf(),
        ensures
            match r {
                Ok(node) => {
                    let key = node_key(self.path@);
                    &&& fs@.contains(key)
                    &&& node.kind == fs@.entries[key].kind
                    &&& node.data.id == fs@.entries[key].data
                    &&& node.data.id < fs@.buffers.len()
                    &&& node.names().to_set() == fs@.children(key)
                    &&& node.names().no_duplicates()
                },
                Err(FsError::NotFound(missing)) => {
                    let key = node_key(self.path@);
                    &&& !fs@.contains(key)
                    &&& fs@.depth(key) < key.len()
                    &&& missing@ == key[fs@.depth(key) as int]
                },
                Err(FsError::InvalidArgument) => false,
            },
    {
        let segments: Vec<String> = path_components(self.path.as_str());
        proof {
            fs.lemma_view_wf();
        }
        fs.handle.traverse(&segments)
    }

    /// Opens what this path leads to, file or not, with the cursor at 0.
    pub fn open(&self, fs: &MemoryFS) -> (r: Result<MemoryFile, FsError>)
        requires
            fs.wf(),
        ensures
            match r {
                Ok(file) => {
                    let key = node_key(self.path@);
                    &&& fs@.contains(key)
                    &&& file.data.id == fs@.entries[key].data
                    &&& file.data.id < fs@.buffers.len()
                    &&& file.pos == 0
                },
                Err(FsError::NotFound(missing)) => {
                    let key = node_key(self.path@);
                    &&& !fs@.contains(key)
                    &&& fs@.depth(key) < key.len()
                    &&& missing@ == key[fs@.depth(key) as int]
                },
                Err(FsError::InvalidArgument) => false,
            },
    {
        match self.with_node(fs) {
            Ok(node) => Ok(MemoryFile { data: node.data, pos: 0 }),
            Err(e) => Err(e),
        }
    }

    /// Opens the file at this path for writing from the start, emptied. The
    /// file is made where the parent has no child of that name; where it has
    /// one, that node's buffer is emptied in place, so that files already
    /// open on it see it empty. The parent must be there.
    pub fn create(&self, fs: &mut MemoryFS) -> (r: Result<MemoryFile, FsError>)
        requires
            old(fs).wf(),
            has_parent(self.path@),
        ensures
            final(fs).wf(),
            match r {
                Ok(file) => {
                    let key = file_key(self.path@);
                    &&& old(fs)@.contains(key.drop_last())
                    &&& final(fs)@ == old(fs)@.create(key)
                    &&& final(fs)@.contains(key)
                    &&& file.data.id == final(fs)@.entries[key].data
                    &&& file.data.id < final(fs)@.buffers.len()
                    &&& file.pos == 0
                },
                Err(FsError::NotFound(missing)) => {
                    let up = node_key(parent_of(self.path@)->0);
                    &&& !old(fs)@.contains(up)
                    &&& old(fs)@.depth(up) < up.len()
                    &&& missing@ == up[old(fs)@.depth(up) as int]
                    &&& final(fs)@ == old(fs)@
                },
                Err(FsError::InvalidArgument) => false,
            },
    {
        let (parent, name) = self.decompose_path();
        let segments: Vec<String> = path_components(parent.unwrap().as_str());
        match fs.handle.get_or_create_file_under(&segments, name) {
            Ok(data) => {
                proof {
                    fs.lemma_view_wf();
                }
                fs.handle.clear(data);
                Ok(MemoryFile { data, pos: 0 })
            },
            Err(e) => Err(e),
        }
    }

    /// Opens the file at this path for writing at its end. The file is made
    /// where the parent has no child of that name; what a node that is
    /// there holds stays. The parent must be there.
    pub fn append(&self, fs: &mut MemoryFS) -> (r: Result<MemoryFile, FsError>)
        requires
            old(fs).wf(),
            has_parent(self.path@),
        ensures
            final(fs).wf(),
            match r {
                Ok(file) => {
                    let key = file_key(self.path@);
                    &&& old(fs)@.contains(key.drop_last())
                    &&& final(fs)@ == old(fs)@.ensure(key, NodeKind::File)
                    &&& final(fs)@.contains(key)
                    &&& file.data.id == final(fs)@.entries[key].data
                    &&& file.data.id < final(fs)@.buffers.len()
                    &&& file.pos == final(fs)@.content(file.data.id as nat).len()
                },
                Err(FsError::NotFound(missing)) => {
                    let up = node_key(parent_of(self.path@)->0);
                    &&& !old(fs)@.contains(up)
                    &&& old(fs)@.depth(up) < up.len()
                    &&& missing@ == up[old(fs)@.depth(up) as int]
                    &&& final(fs)@ == old(fs)@
                },
                Err(FsError::InvalidArgument) => false,
            },
    {
        let (parent, name) = self.decompose_path();
        let segments: Vec<String> = path_components(parent.unwrap().as_str());
        match fs.handle.get_or_create_file_under(&segments, name) {
            Ok(data) => {
                proof {
                    fs.lemma_view_wf();
                }
                let len: usize = fs.buffer_len(data);
                Ok(MemoryFile { data, pos: len as u64 })
            },
            Err(e) => Err(e),
        }
    }

    /// Makes a directory at this path, and at every node on the way to it
    /// that is missing. It cannot fail; a node that is there already stays
    /// what it is.
    pub fn mkdir(&self, fs: &mut MemoryFS) -> (r: Result<(), FsError>)
        requires
            old(fs).wf(),
        ensures
            final(fs).wf(),
            r is Ok,
            final(fs)@ == old(fs)@.mkdir(node_key(self.path@)),
    {
        let segments: Vec<String> = path_components(self.path.as_str());
        fs.handle.traverse_mkdir(&segments);
        Ok(())
    }

    /// True where this path leads to a node.
    pub fn exists_in(&self, fs: &MemoryFS) -> (r: bool)
        requires
            fs.wf(),
        ensures
            r == fs@.contains(node_key(self.path@)),
    {
        self.with_node(fs).is_ok()
    }

    /// Kind and length of the node that this path leads to, as they are now.
    pub fn metadata(&self, fs: &MemoryFS) -> (r: Result<MemoryMetadata, FsError>)
        requires
            fs.wf(),
        ensures
            match r {
                Ok(meta) => {
                    let key = node_key(self.path@);
                    &&& fs@.contains(key)
                    &&& meta.kind == fs@.entries[key].kind
                    &&& meta.len == fs@.reported_len(key)
                },
                Err(FsError::NotFound(missing)) => {
                    let key = node_key(self.path@);
                    &&& !fs@.contains(key)
                    &&& fs@.depth(key) < key.len()
                    &&& missing@ == key[fs@.depth(key) as int]
                },
                Err(FsError::InvalidArgument) => false,
            },
    {
        match self.with_node(fs) {
            Ok(node) => Ok(fs.handle.metadata(node)),
            Err(e) => Err(e),
        }
    }

    /// The paths of the children of the node that this path leads to, each
    /// made of this path, a separator and the child's name. The order is
    /// that in which the children were made; callers should not build on it.
    pub fn read_dir(&self, fs: &MemoryFS) -> (r: Result<Vec<MemoryPath>, FsError>)
        requires
            fs.wf(),
        ensures
            match r {
                Ok(list) => {
                    let key = node_key(self.path@);
                    &&& fs@.contains(key)
                    &&& is_listing(path_strings(list@), self.path@, fs@.children(key))
                },
                Err(FsError::NotFound(missing)) => {
                    let key = node_key(self.path@);
                    &&& !fs@.contains(key)
                    &&& fs@.depth(key) < key.len()
                    &&& missing@ == key[fs@.depth(key) as int]
                },
                Err(FsError::InvalidArgument) => false,
            },
    {
        match self.with_node(fs) {
            Ok(node) => {
                let mut list: Vec<MemoryPath> = Vec::new();
                let mut i: usize = 0;
                while i < node.children.len()
                    invariant
                        i <= node.children.len(),
                        list.len() == i,
                        forall|j: int|
                            0 <= j < i ==> (#[trigger] list[j]).path@ == child_path(
                                self.path@,
                                node.names()[j],
                            ),
                    decreases node.children.len() - i,
                {
                    let mut text: String = self.path.clone();
                    proof {
                        reveal_strlit("/");
                    }
                    text.append("/");
                    text.append(node.children[i].name.as_str());
                    list.push(MemoryPath::new(text));
                    i += 1;
                }
                proof {
                    let key = node_key(self.path@);
                    let paths = path_strings(list@);
                    let names = node.names();
                    assert forall|i: int, j: int|
                        0 <= i < paths.len() && 0 <= j < paths.len() && i != j implies paths[i]
                        != paths[j] by {
                        if paths[i] == paths[j] {
                            lemma_child_path_injective(self.path@, names[i], names[j]);
                        }
                    }
                    assert forall|i: int| 0 <= i < paths.len() implies is_child_path(
                        #[trigger] paths[i],
                        self.path@,
                        fs@.children(key),
                    ) by {
                        assert(names.to_set().contains(names[i]));
                        assert(paths[i] == child_path(self.path@, names[i]));
                    }
                    assert forall|name: Seq<char>|
                        fs@.children(key).contains(name) implies paths.contains(
                        #[trigger] child_path(self.path@, name),
                    ) by {
                        let i = choose|i: int| 0 <= i < names.len() && names[i] == name;
                        assert(paths[i] == child_path(self.path@, name));
                    }
                }
                Ok(list)
            },
            Err(e) => Err(e),
        }
    }
}

/// The strings of the given paths, in order.
pub open spec fn path_strings(paths: Seq<MemoryPath>) -> Seq<Seq<char>> {
    Seq::new(paths.len(), |i: int| paths[i].path@)
}

} // verus!
