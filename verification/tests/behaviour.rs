use memfs::bytes::{read_at, write_at};
use memfs::error::FsError;
use memfs::filesystem::{MemoryFS, MemoryFile, MemoryPath, SeekFrom};
use memfs::node::{DataHandle, FsNode, NodeKind};
use memfs::pathname::{decompose, find_last_separator, path_components, push_segment, split_path};
use memfs::tree::MemoryFSImpl;

fn contents(fs: &MemoryFS, path: &str) -> Vec<u8> {
    let mut file = fs.path(path).open(fs).unwrap();
    let mut bytes: Vec<u8> = Vec::new();
    let mut chunk = [0u8; 3];
    loop {
        let n = file.read(fs, &mut chunk).unwrap();
        if n == 0 {
            break;
        }
        bytes.extend_from_slice(&chunk[..n]);
    }
    bytes
}

fn owned(parts: &[&str]) -> Vec<String> {
    parts.iter().map(|s| s.to_string()).collect()
}

fn missing_segment(error: FsError) -> String {
    match error {
        FsError::NotFound(name) => name,
        FsError::InvalidArgument => panic!("expected a missing segment"),
    }
}

#[test]
fn mkdir_makes_every_ancestor() {
    let mut fs = MemoryFS::new();
    fs.path("/a/b/c").mkdir(&mut fs).unwrap();
    assert!(fs.path("/a").exists_in(&fs));
    assert!(fs.path("/a/b").exists_in(&fs));
    assert!(fs.path("/a/b/c").exists_in(&fs));
    assert!(fs.path("/a").metadata(&fs).unwrap().is_dir());
    assert!(!fs.path("/a/c").exists_in(&fs));
    assert!(!fs.path("/b").exists_in(&fs));
}

#[test]
fn mkdir_twice_changes_nothing() {
    let mut fs = MemoryFS::new();
    fs.path("/a/b").mkdir(&mut fs).unwrap();
    fs.path("/a/b").mkdir(&mut fs).unwrap();
    fs.path("/a").mkdir(&mut fs).unwrap();
    let listed: Vec<String> = fs
        .path("/a")
        .read_dir(&fs)
        .unwrap()
        .iter()
        .map(|p| p.path.clone())
        .collect();
    assert_eq!(listed, vec!["/a/b".to_string()]);
}

#[test]
fn mkdir_skips_empty_segments() {
    let mut fs = MemoryFS::new();
    fs.path("/a//b/").mkdir(&mut fs).unwrap();
    assert!(fs.path("/a//b/").exists_in(&fs));
    assert!(fs.path("/a/b").exists_in(&fs));
    assert!(fs.path("//a///b").exists_in(&fs));
    let listed: Vec<String> = fs
        .path("/a")
        .read_dir(&fs)
        .unwrap()
        .iter()
        .map(|p| p.path.clone())
        .collect();
    assert_eq!(listed, vec!["/a/b".to_string()]);
}

#[test]
fn mkdir_leaves_an_existing_file_a_file() {
    let mut fs = MemoryFS::new();
    let path = fs.path("/f");
    let mut file = path.create(&mut fs).unwrap();
    file.write(&mut fs, b"abc").unwrap();
    assert!(path.mkdir(&mut fs).is_ok());
    let meta = path.metadata(&fs).unwrap();
    assert!(meta.is_file());
    assert_eq!(meta.len(), 3);
}

#[test]
fn mkdir_descends_through_a_file() {
    let mut fs = MemoryFS::new();
    fs.path("/f").create(&mut fs).unwrap();
    fs.path("/f/x").mkdir(&mut fs).unwrap();
    assert!(fs.path("/f/x").exists_in(&fs));
    assert!(fs.path("/f/x").metadata(&fs).unwrap().is_dir());
    assert!(fs.path("/f").metadata(&fs).unwrap().is_file());
}

#[test]
fn root_is_an_empty_directory() {
    let fs = MemoryFS::new();
    let root = fs.path("/");
    assert!(root.exists_in(&fs));
    let meta = root.metadata(&fs).unwrap();
    assert!(meta.is_dir());
    assert!(!meta.is_file());
    assert_eq!(meta.len(), 0);
    assert!(root.read_dir(&fs).unwrap().is_empty());
    assert!(fs.path("").exists_in(&fs));
}

#[test]
fn the_text_before_the_first_separator_is_not_walked() {
    let mut fs = MemoryFS::new();
    fs.path("/b").mkdir(&mut fs).unwrap();
    assert!(fs.path("a/b").exists_in(&fs));
    assert!(fs.path("a").exists_in(&fs));
    assert!(!fs.path("a/c").exists_in(&fs));
}

#[test]
fn open_names_the_first_missing_segment() {
    let mut fs = MemoryFS::new();
    fs.path("/a/b").mkdir(&mut fs).unwrap();
    let error = fs.path("/a/x/y").open(&fs).unwrap_err();
    assert!(matches!(error, FsError::NotFound(_)));
    assert_eq!(missing_segment(error), "x");
    let error = fs.path("/a/b//c/d").open(&fs).unwrap_err();
    assert_eq!(missing_segment(error), "c");
    let error = fs.path("/q").metadata(&fs).unwrap_err();
    assert_eq!(missing_segment(error), "q");
    let error = fs.path("/a/b/z").read_dir(&fs).unwrap_err();
    assert_eq!(missing_segment(error), "z");
}

#[test]
fn create_needs_the_parent_and_makes_nothing_without_it() {
    let mut fs = MemoryFS::new();
    let error = fs.path("/dir/file").create(&mut fs).unwrap_err();
    assert_eq!(missing_segment(error), "dir");
    assert!(!fs.path("/dir").exists_in(&fs));
    assert!(!fs.path("/dir/file").exists_in(&fs));
    let error = fs.path("/dir/sub/file").append(&mut fs).unwrap_err();
    assert_eq!(missing_segment(error), "dir");
    assert!(fs.path("/").read_dir(&fs).unwrap().is_empty());
    fs.path("/dir").mkdir(&mut fs).unwrap();
    assert!(fs.path("/dir/file").create(&mut fs).is_ok());
    assert!(fs.path("/dir/file").metadata(&fs).unwrap().is_file());
}

#[test]
fn create_empties_the_buffer_that_open_files_share() {
    let mut fs = MemoryFS::new();
    let path = fs.path("/shared");
    let mut writer = path.create(&mut fs).unwrap();
    writer.write(&mut fs, b"old content").unwrap();
    let mut reader = path.open(&fs).unwrap();
    let again = path.create(&mut fs).unwrap();
    assert_eq!(again.data, reader.data);
    assert_eq!(again.data, writer.data);
    assert_eq!(again.pos, 0);
    let mut buf = [9u8; 4];
    assert_eq!(reader.read(&fs, &mut buf).unwrap(), 0);
    assert_eq!(buf, [9u8; 4]);
    assert_eq!(path.metadata(&fs).unwrap().len(), 0);
}

#[test]
fn a_stale_cursor_writes_past_a_hole_of_zeros() {
    let mut fs = MemoryFS::new();
    let path = fs.path("/shared");
    let mut writer = path.create(&mut fs).unwrap();
    writer.write(&mut fs, b"abc").unwrap();
    path.create(&mut fs).unwrap();
    assert_eq!(writer.pos, 3);
    writer.write(&mut fs, b"Z").unwrap();
    assert_eq!(contents(&fs, "/shared"), vec![0, 0, 0, b'Z']);
}

#[test]
fn files_on_one_buffer_see_each_others_writes() {
    let mut fs = MemoryFS::new();
    let path = fs.path("/f");
    let mut first = path.create(&mut fs).unwrap();
    let mut second = path.open(&fs).unwrap();
    first.write(&mut fs, b"abcdef").unwrap();
    let mut buf = [0u8; 3];
    assert_eq!(second.read(&fs, &mut buf).unwrap(), 3);
    assert_eq!(&buf, b"abc");
    second.write(&mut fs, b"XY").unwrap();
    assert_eq!(contents(&fs, "/f"), b"abcXYf".to_vec());
    assert_eq!(first.pos, 6);
    assert_eq!(second.pos, 5);
}

#[test]
fn chunks_written_come_back_concatenated() {
    let mut fs = MemoryFS::new();
    let path = fs.path("/chunks");
    let mut file = path.create(&mut fs).unwrap();
    let chunks: [&[u8]; 5] = [b"one", b"", b"two-", b"3", b"four"];
    for chunk in chunks.iter() {
        assert_eq!(file.write(&mut fs, chunk).unwrap(), chunk.len());
    }
    assert_eq!(file.pos, 12);
    assert_eq!(contents(&fs, "/chunks"), b"onetwo-3four".to_vec());
    assert_eq!(path.metadata(&fs).unwrap().len(), 12);
}

#[test]
fn write_inside_the_data_keeps_the_length() {
    let mut fs = MemoryFS::new();
    let path = fs.path("/f");
    let mut file = path.create(&mut fs).unwrap();
    file.write(&mut fs, b"0123456789").unwrap();
    assert_eq!(file.seek(&fs, SeekFrom::Start(3)).unwrap(), 3);
    assert_eq!(file.write(&mut fs, b"abc").unwrap(), 3);
    assert_eq!(file.pos, 6);
    assert_eq!(contents(&fs, "/f"), b"012abc6789".to_vec());
    assert_eq!(file.seek(&fs, SeekFrom::Start(7)).unwrap(), 7);
    file.write(&mut fs, b"xyz").unwrap();
    assert_eq!(contents(&fs, "/f"), b"012abc6xyz".to_vec());
}

#[test]
fn write_across_the_end_grows_the_data() {
    let mut fs = MemoryFS::new();
    let path = fs.path("/f");
    let mut file = path.create(&mut fs).unwrap();
    file.write(&mut fs, b"0123").unwrap();
    file.seek(&fs, SeekFrom::Start(2)).unwrap();
    file.write(&mut fs, b"abcd").unwrap();
    assert_eq!(contents(&fs, "/f"), b"01abcd".to_vec());
    assert_eq!(path.metadata(&fs).unwrap().len(), 6);
}

#[test]
fn write_past_the_end_fills_the_gap_with_zeros() {
    let mut fs = MemoryFS::new();
    let path = fs.path("/f");
    let mut file = path.create(&mut fs).unwrap();
    file.write(&mut fs, b"ab").unwrap();
    assert_eq!(file.seek(&fs, SeekFrom::Start(5)).unwrap(), 5);
    assert_eq!(path.metadata(&fs).unwrap().len(), 2);
    file.write(&mut fs, b"c").unwrap();
    assert_eq!(contents(&fs, "/f"), vec![b'a', b'b', 0, 0, 0, b'c']);
    assert_eq!(file.pos, 6);
}

#[test]
fn an_empty_write_past_the_end_still_fills_the_gap() {
    let mut fs = MemoryFS::new();
    let path = fs.path("/f");
    let mut file = path.create(&mut fs).unwrap();
    file.seek(&fs, SeekFrom::Start(3)).unwrap();
    assert_eq!(file.write(&mut fs, b"").unwrap(), 0);
    assert_eq!(contents(&fs, "/f"), vec![0, 0, 0]);
    assert_eq!(file.pos, 3);
}

#[test]
fn read_delivers_what_is_there_and_fits() {
    let mut fs = MemoryFS::new();
    let path = fs.path("/f");
    let mut file = path.create(&mut fs).unwrap();
    file.write(&mut fs, b"abcde").unwrap();
    let mut file = path.open(&fs).unwrap();
    let mut buf = [b'.'; 3];
    assert_eq!(file.read(&fs, &mut buf).unwrap(), 3);
    assert_eq!(&buf, b"abc");
    assert_eq!(file.pos, 3);
    let mut buf = [b'.'; 4];
    assert_eq!(file.read(&fs, &mut buf).unwrap(), 2);
    assert_eq!(&buf, b"de..");
    assert_eq!(file.pos, 5);
    assert_eq!(file.read(&fs, &mut buf).unwrap(), 0);
    assert_eq!(&buf, b"de..");
    assert_eq!(file.pos, 5);
    let mut none: [u8; 0] = [];
    file.seek(&fs, SeekFrom::Start(0)).unwrap();
    assert_eq!(file.read(&fs, &mut none).unwrap(), 0);
    assert_eq!(file.pos, 0);
}

#[test]
fn read_past_the_end_delivers_nothing() {
    let mut fs = MemoryFS::new();
    let path = fs.path("/f");
    let mut file = path.create(&mut fs).unwrap();
    file.write(&mut fs, b"abc").unwrap();
    assert_eq!(file.seek(&fs, SeekFrom::Start(10)).unwrap(), 10);
    let mut buf = [7u8; 2];
    assert_eq!(file.read(&fs, &mut buf).unwrap(), 0);
    assert_eq!(buf, [7u8; 2]);
    assert_eq!(file.pos, 10);
    assert_eq!(path.metadata(&fs).unwrap().len(), 3);
}

#[test]
fn seek_from_each_origin() {
    let mut fs = MemoryFS::new();
    let path = fs.path("/f");
    let mut file = path.create(&mut fs).unwrap();
    file.write(&mut fs, b"0123456789").unwrap();
    assert_eq!(file.seek(&fs, SeekFrom::Start(4)).unwrap(), 4);
    assert_eq!(file.seek(&fs, SeekFrom::Current(3)).unwrap(), 7);
    assert_eq!(file.seek(&fs, SeekFrom::Current(-7)).unwrap(), 0);
    assert_eq!(file.seek(&fs, SeekFrom::End(0)).unwrap(), 10);
    assert_eq!(file.seek(&fs, SeekFrom::End(-10)).unwrap(), 0);
    assert_eq!(file.seek(&fs, SeekFrom::End(5)).unwrap(), 15);
    assert_eq!(file.pos, 15);
    assert_eq!(file.seek(&fs, SeekFrom::Current(0)).unwrap(), 15);
    assert_eq!(
        file.seek(&fs, SeekFrom::Start(u64::MAX)).unwrap(),
        u64::MAX
    );
    assert_eq!(file.seek(&fs, SeekFrom::Current(i64::MIN)).unwrap(), u64::MAX - (1u64 << 63));
}

#[test]
fn seek_before_the_start_is_refused_and_the_cursor_stays() {
    let mut fs = MemoryFS::new();
    let path = fs.path("/f");
    let mut file = path.create(&mut fs).unwrap();
    file.write(&mut fs, b"0123").unwrap();
    file.seek(&fs, SeekFrom::Start(2)).unwrap();
    let error = file.seek(&fs, SeekFrom::Current(-3)).unwrap_err();
    assert!(matches!(error, FsError::InvalidArgument));
    assert_eq!(file.pos, 2);
    let error = file.seek(&fs, SeekFrom::End(-5)).unwrap_err();
    assert!(matches!(error, FsError::InvalidArgument));
    assert_eq!(file.pos, 2);
    assert_eq!(file.seek(&fs, SeekFrom::End(-4)).unwrap(), 0);
}

#[test]
fn flush_changes_nothing() {
    let mut fs = MemoryFS::new();
    let path = fs.path("/f");
    let mut file = path.create(&mut fs).unwrap();
    file.write(&mut fs, b"abc").unwrap();
    file.flush().unwrap();
    assert_eq!(file.pos, 3);
    assert_eq!(contents(&fs, "/f"), b"abc".to_vec());
}

#[test]
fn append_starts_at_the_end_and_keeps_the_content() {
    let mut fs = MemoryFS::new();
    let path = fs.path("/log");
    let mut file = path.append(&mut fs).unwrap();
    assert_eq!(file.pos, 0);
    file.write(&mut fs, b"A").unwrap();
    let mut file = path.append(&mut fs).unwrap();
    assert_eq!(file.pos, 1);
    file.write(&mut fs, b"B").unwrap();
    assert_eq!(contents(&fs, "/log"), b"AB".to_vec());
    assert_eq!(path.append(&mut fs).unwrap().pos, 2);
}

#[test]
fn open_does_not_tell_a_directory_from_a_file() {
    let mut fs = MemoryFS::new();
    let path = fs.path("/d");
    path.mkdir(&mut fs).unwrap();
    let mut file = path.open(&fs).unwrap();
    assert_eq!(file.pos, 0);
    file.write(&mut fs, b"xyz").unwrap();
    let meta = path.metadata(&fs).unwrap();
    assert!(meta.is_dir());
    assert_eq!(meta.len(), 0);
    let again = path.create(&mut fs).unwrap();
    assert_eq!(again.data, file.data);
    assert!(path.metadata(&fs).unwrap().is_dir());
}

#[test]
fn every_node_has_a_buffer_of_its_own() {
    let mut fs = MemoryFS::new();
    let a = fs.path("/a").create(&mut fs).unwrap();
    let b = fs.path("/b").create(&mut fs).unwrap();
    fs.path("/d").mkdir(&mut fs).unwrap();
    let d = fs.path("/d").open(&fs).unwrap();
    let root = fs.path("/").open(&fs).unwrap();
    assert_ne!(a.data, b.data);
    assert_ne!(a.data, d.data);
    assert_ne!(b.data, d.data);
    assert_ne!(root.data, a.data);
    assert!(fs.holds(a.data) && fs.holds(b.data) && fs.holds(d.data) && fs.holds(root.data));
    assert!(!fs.holds(DataHandle { id: 4 }));
    let mut a = a;
    a.write(&mut fs, b"only a").unwrap();
    assert_eq!(contents(&fs, "/b"), Vec::<u8>::new());
    assert_eq!(contents(&fs, "/a"), b"only a".to_vec());
}

#[test]
fn read_dir_lists_each_child_once() {
    let mut fs = MemoryFS::new();
    fs.path("/d/x").mkdir(&mut fs).unwrap();
    fs.path("/d/y").create(&mut fs).unwrap();
    fs.path("/d/y").create(&mut fs).unwrap();
    fs.path("/d/x/deep").mkdir(&mut fs).unwrap();
    fs.path("/d/z").append(&mut fs).unwrap();
    fs.path("/e").mkdir(&mut fs).unwrap();
    let mut listed: Vec<String> = fs
        .path("/d")
        .read_dir(&fs)
        .unwrap()
        .iter()
        .map(|p| p.path.clone())
        .collect();
    listed.sort();
    assert_eq!(listed, owned(&["/d/x", "/d/y", "/d/z"]));
    let mut at_root: Vec<String> = fs
        .path("/")
        .read_dir(&fs)
        .unwrap()
        .iter()
        .map(|p| p.path.clone())
        .collect();
    at_root.sort();
    assert_eq!(at_root, owned(&["//d", "//e"]));
    for child in fs.path("/").read_dir(&fs).unwrap() {
        assert!(child.exists_in(&fs));
    }
    assert!(fs.path("/d/y").read_dir(&fs).unwrap().is_empty());
}

#[test]
fn with_node_hands_out_the_node() {
    let mut fs = MemoryFS::new();
    fs.path("/d/x").mkdir(&mut fs).unwrap();
    fs.path("/d/y").create(&mut fs).unwrap();
    let path = fs.path("/d");
    let node = path.with_node(&fs).unwrap();
    assert_eq!(node.kind, NodeKind::Directory);
    assert_eq!(node.children.len(), 2);
    assert_eq!(node.children[0].name, "x");
    assert_eq!(node.children[1].name, "y");
    assert_eq!(node.lookup(&"y".to_string()), Some(node.children[1].node));
    assert_eq!(node.lookup(&"z".to_string()), None);
    let file = fs.path("/d/y").with_node(&fs).unwrap();
    assert_eq!(file.kind, NodeKind::File);
    assert!(file.children.is_empty());
    assert!(fs.path("/d/z").with_node(&fs).is_err());
}

#[test]
fn decompose_cuts_at_the_last_separator() {
    let some = |s: &str| Some(s.to_string());
    assert_eq!(decompose("/a/b"), (some("/a"), "b".to_string()));
    assert_eq!(decompose("/a"), (some("/"), "a".to_string()));
    assert_eq!(decompose("/"), (None, "/".to_string()));
    assert_eq!(decompose(""), (None, "".to_string()));
    assert_eq!(decompose("name"), (None, "name".to_string()));
    assert_eq!(decompose("a/b"), (some("a"), "b".to_string()));
    assert_eq!(decompose("/a/"), (some("/a"), "".to_string()));
    assert_eq!(decompose("//"), (some("/"), "".to_string()));
    assert_eq!(decompose("//a"), (some("/"), "a".to_string()));
    assert_eq!(decompose("/a//b.txt"), (some("/a/"), "b.txt".to_string()));
    assert_eq!(
        decompose("/\u{e9}/\u{4e16}\u{754c}"),
        (some("/\u{e9}"), "\u{4e16}\u{754c}".to_string())
    );
    let path = MemoryPath::new("/x/y/z".to_string());
    assert_eq!(path.decompose_path(), (some("/x/y"), "z".to_string()));
    assert_eq!(path.file_name(), some("z"));
    assert_eq!(path.parent().unwrap().path, "/x/y");
    assert_eq!(MemoryPath::new("/".to_string()).file_name(), some("/"));
    assert_eq!(find_last_separator("/a/b"), Some(2));
    assert_eq!(find_last_separator("ab"), None);
    assert_eq!(find_last_separator("\u{e9}/b"), Some(1));
}

#[test]
fn split_keeps_empty_pieces() {
    assert_eq!(split_path(""), owned(&[""]));
    assert_eq!(split_path("/"), owned(&["", ""]));
    assert_eq!(split_path("a"), owned(&["a"]));
    assert_eq!(split_path("/a//b/"), owned(&["", "a", "", "b", ""]));
    assert_eq!(split_path("x/\u{e9}t\u{e9}/z"), owned(&["x", "\u{e9}t\u{e9}", "z"]));
    assert_eq!(path_components("/a//b/"), owned(&["a", "", "b", ""]));
    assert_eq!(path_components("x/y"), owned(&["y"]));
    assert_eq!(path_components(""), Vec::<String>::new());
    assert_eq!(path_components("/"), owned(&[""]));
}

#[test]
fn push_puts_exactly_one_separator() {
    let mut text = String::new();
    push_segment(&mut text, "a");
    assert_eq!(text, "/a");
    push_segment(&mut text, "b");
    assert_eq!(text, "/a/b");
    push_segment(&mut text, "");
    assert_eq!(text, "/a/b/");
    push_segment(&mut text, "c");
    assert_eq!(text, "/a/b/c");
    push_segment(&mut text, "/d");
    assert_eq!(text, "/a/b/c//d");
}

#[test]
fn pushing_the_leaf_onto_the_parent_gives_the_path_back() {
    for text in ["/a", "/a/b", "/a/b/c.txt", "a/b", "/a/", "/\u{e9}/x"] {
        let path = MemoryPath::new(text.to_string());
        let mut parent = path.parent().unwrap();
        parent.push(&path.file_name().unwrap());
        assert_eq!(parent, path);
        assert_eq!(String::from(&parent), text);
    }
    let doubled = MemoryPath::new("//a".to_string());
    let mut parent = doubled.parent().unwrap();
    parent.push(&doubled.file_name().unwrap());
    assert_eq!(parent.path, "/a");
    assert!(parent != doubled);
}

#[test]
fn paths_are_equal_where_their_strings_are() {
    let fs = MemoryFS::new();
    assert_eq!(fs.path("/a/b"), MemoryPath::new("/a/b".to_string()));
    assert!(fs.path("/a/b") != fs.path("/a//b"));
    assert!(fs.path("/a") != fs.path("/a/"));
    let path = fs.path("/a");
    let copy = path.clone();
    assert_eq!(copy, path);
    assert_eq!(copy.path, "/a");
}

#[test]
fn write_at_follows_the_three_cases() {
    let mut data = b"0123456789".to_vec();
    write_at(&mut data, 2, b"ab");
    assert_eq!(data, b"01ab456789".to_vec());
    write_at(&mut data, 8, b"wxyz");
    assert_eq!(data, b"01ab4567wxyz".to_vec());
    write_at(&mut data, 12, b"!");
    assert_eq!(data, b"01ab4567wxyz!".to_vec());
    write_at(&mut data, 15, b"?");
    assert_eq!(data, b"01ab4567wxyz!\0\0?".to_vec());
    write_at(&mut data, 0, b"");
    assert_eq!(data.len(), 16);
    let mut empty: Vec<u8> = Vec::new();
    write_at(&mut empty, 2, b"");
    assert_eq!(empty, vec![0, 0]);
}

#[test]
fn read_at_copies_the_front_of_what_is_left() {
    let data = b"abcdef".to_vec();
    let mut buf = [b'-'; 4];
    assert_eq!(read_at(&data, 0, &mut buf), 4);
    assert_eq!(&buf, b"abcd");
    let mut buf = [b'-'; 4];
    assert_eq!(read_at(&data, 4, &mut buf), 2);
    assert_eq!(&buf, b"ef--");
    assert_eq!(read_at(&data, 6, &mut buf), 0);
    assert_eq!(read_at(&data, u64::MAX, &mut buf), 0);
    assert_eq!(&buf, b"ef--");
}

#[test]
fn new_nodes_have_no_children() {
    let dir = FsNode::new_directory(DataHandle { id: 3 });
    assert_eq!(dir.kind, NodeKind::Directory);
    assert!(dir.children.is_empty());
    assert_eq!(dir.data, DataHandle { id: 3 });
    let file = FsNode::new_file(DataHandle { id: 4 });
    assert_eq!(file.kind, NodeKind::File);
    assert!(file.children.is_empty());
    assert_eq!(file.data.id, 4);
    assert_eq!(file.lookup(&"x".to_string()), None);
}

#[test]
fn the_store_resolves_and_creates() {
    let mut store = MemoryFSImpl::new();
    assert_eq!(store.traverse(&owned(&[])).unwrap().kind, NodeKind::Directory);
    assert_eq!(store.traverse(&owned(&["", ""])).unwrap().data.id, 0);
    let error = store.traverse(&owned(&["a", "b"])).unwrap_err();
    assert_eq!(missing_segment(error), "a");
    store.traverse_mkdir(&owned(&["a", "", "b"]));
    assert_eq!(store.traverse(&owned(&["a"])).unwrap().data.id, 1);
    assert_eq!(store.traverse(&owned(&["a", "b"])).unwrap().data.id, 2);
    let made = store
        .get_or_create_file_under(&owned(&["a"]), "f".to_string())
        .unwrap();
    assert_eq!(made.id, 3);
    let found = store
        .get_or_create_file_under(&owned(&["", "a", ""]), "f".to_string())
        .unwrap();
    assert_eq!(found, made);
    let dir = store
        .get_or_create_file_under(&owned(&["a"]), "b".to_string())
        .unwrap();
    assert_eq!(dir.id, 2);
    assert_eq!(store.traverse(&owned(&["a", "b"])).unwrap().kind, NodeKind::Directory);
    let error = store
        .get_or_create_file_under(&owned(&["a", "nope"]), "f".to_string())
        .unwrap_err();
    assert_eq!(missing_segment(error), "nope");
    assert!(store.holds(made));
    assert!(!store.holds(DataHandle { id: 4 }));
    store.write(made, 1, b"xy");
    assert_eq!(store.buffer_len(made), 3);
    let mut buf = [1u8; 3];
    assert_eq!(store.read(made, 0, &mut buf), 3);
    assert_eq!(buf, [0, b'x', b'y']);
    let node = store.traverse(&owned(&["a", "f"])).unwrap();
    let meta = store.metadata(node);
    assert!(meta.is_file());
    assert_eq!(meta.len(), 3);
    store.clear(made);
    assert_eq!(store.buffer_len(made), 0);
}

#[test]
fn a_file_is_a_plain_value() {
    let mut fs = MemoryFS::new();
    let made = fs.path("/f").create(&mut fs).unwrap();
    let mut other = MemoryFile { data: made.data, pos: 2 };
    other.write(&mut fs, b"!").unwrap();
    assert_eq!(contents(&fs, "/f"), vec![0, 0, b'!']);
}

#[test]
fn buffer_len_follows_the_writes() {
    let mut fs = MemoryFS::new();
    let mut file = fs.path("/f").create(&mut fs).unwrap();
    assert_eq!(fs.buffer_len(file.data), 0);
    file.write(&mut fs, b"abcd").unwrap();
    assert_eq!(fs.buffer_len(file.data), 4);
    file.seek(&fs, SeekFrom::Start(9)).unwrap();
    assert_eq!(fs.buffer_len(file.data), 4);
    file.write(&mut fs, b"e").unwrap();
    assert_eq!(fs.buffer_len(file.data), 10);
}
