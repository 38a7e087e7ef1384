use std::collections::BTreeMap;

use memfs::filesystem::{MemoryFS, MemoryFile, SeekFrom};

/// A plain description of what the file system should hold, kept beside it
/// and asked the same questions.
struct Model {
    nodes: BTreeMap<Vec<String>, (bool, usize)>,
    buffers: Vec<Vec<u8>>,
}

fn key_of(path: &str) -> Vec<String> {
    path.split('/')
        .skip(1)
        .filter(|segment| !segment.is_empty())
        .map(|segment| segment.to_string())
        .collect()
}

fn parent_and_leaf(path: &str) -> Option<(String, String)> {
    if path == "/" {
        return None;
    }
    let cut = path.rfind('/')?;
    let parent = if cut == 0 { "/" } else { &path[..cut] };
    Some((parent.to_string(), path[cut + 1..].to_string()))
}

impl Model {
    fn new() -> Model {
        let mut nodes = BTreeMap::new();
        nodes.insert(Vec::new(), (true, 0));
        Model {
            nodes,
            buffers: vec![Vec::new()],
        }
    }

    fn ensure(&mut self, key: Vec<String>, is_dir: bool) -> usize {
        if let Some(&(_, buffer)) = self.nodes.get(&key) {
            return buffer;
        }
        let buffer = self.buffers.len();
        self.buffers.push(Vec::new());
        self.nodes.insert(key, (is_dir, buffer));
        buffer
    }

    fn mkdir(&mut self, path: &str) {
        let key = key_of(path);
        for n in 1..=key.len() {
            self.ensure(key[..n].to_vec(), true);
        }
    }

    fn file(&mut self, path: &str) -> Option<usize> {
        let (parent, leaf) = parent_and_leaf(path).unwrap();
        let mut key = key_of(&parent);
        if !self.nodes.contains_key(&key) {
            return None;
        }
        key.push(leaf);
        Some(self.ensure(key, false))
    }

    fn write(&mut self, buffer: usize, pos: usize, src: &[u8]) {
        let data = &mut self.buffers[buffer];
        if data.len() < pos {
            data.resize(pos, 0);
        }
        for (i, byte) in src.iter().enumerate() {
            if pos + i < data.len() {
                data[pos + i] = *byte;
            } else {
                data.push(*byte);
            }
        }
    }

    fn children(&self, key: &[String]) -> Vec<String> {
        self.nodes
            .keys()
            .filter(|k| k.len() == key.len() + 1 && k[..key.len()] == *key)
            .map(|k| k[key.len()].clone())
            .collect()
    }
}

struct Random(u64);

impl Random {
    fn next(&mut self, bound: usize) -> usize {
        self.0 = self
            .0
            .wrapping_mul(6364136223846793005)
            .wrapping_add(1442695040888963407);
        ((self.0 >> 33) as usize) % bound
    }
}

const PATHS: [&str; 14] = [
    "/a", "/b", "/a/b", "/a/c", "/a/b/c", "/a//b", "/b/", "/b/x/y", "//a", "/c/d", "/a/b/",
    "/d", "/d/e/f/g", "/a/c/x",
];

fn compare(fs: &MemoryFS, model: &Model) {
    for path in PATHS.iter().chain(["/", "", "/zz", "/a/zz/b"].iter()) {
        let key = key_of(path);
        let here = fs.path(path);
        let expected = model.nodes.get(&key);
        assert_eq!(here.exists_in(fs), expected.is_some(), "exists {}", path);
        match expected {
            None => {
                assert!(here.metadata(fs).is_err());
                assert!(here.open(fs).is_err());
                assert!(here.read_dir(fs).is_err());
            }
            Some(&(is_dir, buffer)) => {
                let meta = here.metadata(fs).unwrap();
                assert_eq!(meta.is_dir(), is_dir, "kind {}", path);
                assert_eq!(meta.is_file(), !is_dir);
                let len = if is_dir { 0 } else { model.buffers[buffer].len() };
                assert_eq!(meta.len(), len as u64, "length {}", path);
                let mut file = here.open(fs).unwrap();
                assert_eq!(file.data.id, buffer, "buffer {}", path);
                let mut content = vec![0u8; model.buffers[buffer].len() + 3];
                let n = file.read(fs, &mut content).unwrap();
                assert_eq!(&content[..n], &model.buffers[buffer][..], "content {}", path);
                let mut listed: Vec<String> = here
                    .read_dir(fs)
                    .unwrap()
                    .iter()
                    .map(|child| child.path.clone())
                    .collect();
                listed.sort();
                let mut names: Vec<String> = model
                    .children(&key)
                    .iter()
                    .map(|name| format!("{}/{}", path, name))
                    .collect();
                names.sort();
                assert_eq!(listed, names, "listing {}", path);
            }
        }
    }
}

fn run(seed: u64, steps: usize) {
    let mut random = Random(seed);
    let mut fs = MemoryFS::new();
    let mut model = Model::new();
    let mut open: Vec<MemoryFile> = Vec::new();
    for step in 0..steps {
        let path = PATHS[random.next(PATHS.len())];
        match random.next(8) {
            0 => {
                fs.path(path).mkdir(&mut fs).unwrap();
                model.mkdir(path);
            }
            1 => {
                let made = fs.path(path).create(&mut fs);
                match model.file(path) {
                    None => assert!(made.is_err()),
                    Some(buffer) => {
                        model.buffers[buffer].clear();
                        let file = made.unwrap();
                        assert_eq!((file.data.id, file.pos), (buffer, 0));
                        open.push(file);
                    }
                }
            }
            2 => {
                let made = fs.path(path).append(&mut fs);
                match model.file(path) {
                    None => assert!(made.is_err()),
                    Some(buffer) => {
                        let file = made.unwrap();
                        let end = model.buffers[buffer].len() as u64;
                        assert_eq!((file.data.id, file.pos), (buffer, end));
                        open.push(file);
                    }
                }
            }
            3 => {
                if let Ok(file) = fs.path(path).open(&fs) {
                    assert_eq!(file.pos, 0);
                    open.push(file);
                }
            }
            4 | 5 => {
                if !open.is_empty() {
                    let which = random.next(open.len());
                    let len = random.next(6);
                    let src: Vec<u8> = (0..len).map(|i| (step + i) as u8 | 1).collect();
                    let file = &mut open[which];
                    let pos = file.pos as usize;
                    assert_eq!(file.write(&mut fs, &src).unwrap(), len);
                    assert_eq!(file.pos as usize, pos + len);
                    model.write(file.data.id, pos, &src);
                }
            }
            6 => {
                if !open.is_empty() {
                    let which = random.next(open.len());
                    let file = &mut open[which];
                    let len = model.buffers[file.data.id].len() as i64;
                    let pos = file.pos as i64;
                    let offset = random.next(13) as i64 - 6;
                    let (style, target) = match random.next(3) {
                        0 => (SeekFrom::Start((offset + 6) as u64), offset + 6),
                        1 => (SeekFrom::End(offset), len + offset),
                        _ => (SeekFrom::Current(offset), pos + offset),
                    };
                    let moved = file.seek(&fs, style);
                    if target < 0 {
                        assert!(moved.is_err());
                        assert_eq!(file.pos as i64, pos);
                    } else {
                        assert_eq!(moved.unwrap() as i64, target);
                        assert_eq!(file.pos as i64, target);
                    }
                }
            }
            _ => {
                if !open.is_empty() {
                    let which = random.next(open.len());
                    let room = random.next(5);
                    let file = &mut open[which];
                    let data = &model.buffers[file.data.id];
                    let pos = file.pos as usize;
                    let expected: &[u8] = if pos >= data.len() {
                        &[]
                    } else {
                        &data[pos..data.len().min(pos + room)]
                    };
                    let mut buf = vec![0xEEu8; room];
                    let n = file.read(&fs, &mut buf).unwrap();
                    assert_eq!(&buf[..n], expected);
                    assert!(buf[n..].iter().all(|byte| *byte == 0xEE));
                    assert_eq!(file.pos as usize, pos + n);
                }
            }
        }
        if open.len() > 12 {
            open.remove(0);
        }
        if step % 16 == 0 {
            compare(&fs, &model);
        }
    }
    compare(&fs, &model);
}

#[test]
fn random_operations_agree_with_a_plain_model() {
    run(1, 1500);
}

#[test]
fn random_operations_agree_with_a_plain_model_on_another_run() {
    run(0x5EED, 1500);
}
