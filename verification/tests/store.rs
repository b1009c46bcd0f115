//! The operations of the store, over a disk in memory.

use fals3::exchange::{Answer, DirEntry, Effect, EntryKind, Operation, Query, Step, Tree};
use fals3::store::{
    AbortMultipartUploadInput, CompleteMultipartUploadInput, CompleteMultipartUploadOutput,
    CompletedPart, CopyObjectInput, CopyObjectOutput, CreateBucketInput,
    CreateMultipartUploadInput, CreateMultipartUploadOutput, DeleteBucketInput, DeleteObjectInput,
    GetObjectInput, GetObjectOutput, HeadBucketInput, HeadObjectInput, IfConditions,
    ListObjectsV2Input, ListObjectsV2Output, ListPartsInput, ListPartsOutput, MetadataDirective,
    PutObjectInput, PutObjectOutput, Store, UploadPartInput, UploadPartOutput,
};
use fals3::upload::UploadMeta;
use fals3::{Fals3Error, ObjectMeta};
use serde_json::Value;
use std::cell::{Cell, RefCell};
use std::collections::{BTreeMap, HashMap};

/// What is at a place of the disk.
#[derive(Clone)]
enum Node {
    Dir,
    File(Vec<u8>),
}

/// A disk in memory, by the names that lead to a place.
struct Disk {
    nodes: RefCell<BTreeMap<Vec<String>, Node>>,
    now: Cell<u64>,
    count: Cell<u64>,
    locks: RefCell<Vec<String>>,
}

fn place(path: &str) -> Vec<String> {
    let mut at: Vec<String> = Vec::new();
    for s in path.split('/') {
        match s {
            "" | "." => {}
            ".." => {
                at.pop();
            }
            _ => at.push(s.to_string()),
        }
    }
    at
}

/// Only a directory can be at such a path.
fn directory_form(path: &str) -> bool {
    path.ends_with('/') || path.ends_with("/.")
}

fn io_error(why: &str) -> Fals3Error {
    Fals3Error::Io(std::io::Error::new(std::io::ErrorKind::Other, why.to_string()))
}

fn text_value(s: &str) -> Value {
    Value::String(s.to_string())
}

fn optional_value(s: &Option<String>) -> Value {
    match s {
        Some(s) => text_value(s),
        None => Value::Null,
    }
}

fn map_value(m: &HashMap<String, String>) -> Value {
    Value::Object(m.iter().map(|(k, v)| (k.clone(), text_value(v))).collect())
}

fn text_in(v: &Value, name: &str) -> String {
    v[name].as_str().unwrap().to_string()
}

fn optional_in(v: &Value, name: &str) -> Option<String> {
    v[name].as_str().map(|s| s.to_string())
}

fn map_in(v: &Value, name: &str) -> HashMap<String, String> {
    v[name]
        .as_object()
        .unwrap()
        .iter()
        .map(|(k, v)| (k.clone(), v.as_str().unwrap().to_string()))
        .collect()
}

fn meta_bytes(m: &ObjectMeta) -> Vec<u8> {
    let mut o = serde_json::Map::new();
    o.insert("etag".into(), text_value(&m.etag));
    o.insert("last_modified".into(), Value::from(m.last_modified));
    o.insert("content_type".into(), optional_value(&m.content_type));
    o.insert("user_metadata".into(), map_value(&m.user_metadata));
    o.insert("content_encoding".into(), optional_value(&m.content_encoding));
    o.insert("storage_class".into(), text_value(&m.storage_class));
    o.insert("size".into(), Value::from(m.size));
    serde_json::to_vec_pretty(&Value::Object(o)).unwrap()
}

fn meta_in(bytes: &[u8]) -> Result<ObjectMeta, Fals3Error> {
    let v: Value = serde_json::from_slice(bytes).map_err(Fals3Error::Json)?;
    Ok(ObjectMeta {
        etag: text_in(&v, "etag"),
        last_modified: v["last_modified"].as_u64().unwrap(),
        content_type: optional_in(&v, "content_type"),
        user_metadata: map_in(&v, "user_metadata"),
        content_encoding: optional_in(&v, "content_encoding"),
        storage_class: text_in(&v, "storage_class"),
        size: v["size"].as_u64().unwrap(),
    })
}

fn upload_bytes(u: &UploadMeta) -> Vec<u8> {
    let mut o = serde_json::Map::new();
    o.insert("bucket".into(), text_value(&u.bucket));
    o.insert("key".into(), text_value(&u.key));
    o.insert("content_type".into(), optional_value(&u.content_type));
    o.insert("user_metadata".into(), map_value(&u.user_metadata));
    o.insert("content_encoding".into(), optional_value(&u.content_encoding));
    o.insert("started_at".into(), Value::from(u.started_at));
    serde_json::to_vec_pretty(&Value::Object(o)).unwrap()
}

fn upload_in(bytes: &[u8]) -> Result<UploadMeta, Fals3Error> {
    let v: Value = serde_json::from_slice(bytes).map_err(Fals3Error::Json)?;
    Ok(UploadMeta {
        bucket: text_in(&v, "bucket"),
        key: text_in(&v, "key"),
        content_type: optional_in(&v, "content_type"),
        user_metadata: map_in(&v, "user_metadata"),
        content_encoding: optional_in(&v, "content_encoding"),
        started_at: v["started_at"].as_u64().unwrap(),
    })
}

impl Disk {
    fn new() -> Disk {
        let mut nodes = BTreeMap::new();
        nodes.insert(vec![], Node::Dir);
        nodes.insert(vec!["base".to_string()], Node::Dir);
        Disk {
            nodes: RefCell::new(nodes),
            now: Cell::new(1_700_000_000),
            count: Cell::new(0),
            locks: RefCell::new(Vec::new()),
        }
    }

    fn is_dir(&self, path: &str) -> bool {
        matches!(self.nodes.borrow().get(&place(path)), Some(Node::Dir))
    }

    fn file(&self, path: &str) -> Option<Vec<u8>> {
        match self.nodes.borrow().get(&place(path)) {
            Some(Node::File(bytes)) if !directory_form(path) => Some(bytes.clone()),
            _ => None,
        }
    }

    fn read(&self, path: &str) -> Result<Vec<u8>, Fals3Error> {
        self.file(path).ok_or_else(|| io_error("no such file"))
    }

    fn children(&self, dir: &[String]) -> Vec<(String, bool)> {
        self.nodes
            .borrow()
            .iter()
            .filter(|(k, _)| k.len() == dir.len() + 1 && k.starts_with(dir))
            .map(|(k, n)| (k[dir.len()].clone(), matches!(n, Node::Dir)))
            .rev()
            .collect()
    }

    fn tree(&self, dir: &[String]) -> Vec<Tree> {
        self.children(dir)
            .into_iter()
            .map(|(name, is_dir)| {
                if is_dir {
                    let mut below = dir.to_vec();
                    below.push(name.clone());
                    Tree::Dir { name, entries: self.tree(&below) }
                } else {
                    Tree::File { name }
                }
            })
            .collect()
    }

    fn write(&self, path: &str, bytes: Vec<u8>) -> Result<(), Fals3Error> {
        let at = place(path);
        let mut nodes = self.nodes.borrow_mut();
        let parent_is_dir = matches!(nodes.get(&at[..at.len() - 1]), Some(Node::Dir));
        let is_dir = matches!(nodes.get(&at), Some(Node::Dir));
        if directory_form(path) || !parent_is_dir || is_dir {
            return Err(io_error("cannot write"));
        }
        nodes.insert(at, Node::File(bytes));
        Ok(())
    }

    fn answer(&self, q: Query) -> Answer {
        match self.try_answer(q) {
            Ok(a) => a,
            Err(e) => Answer::Failed(e),
        }
    }

    fn try_answer(&self, q: Query) -> Result<Answer, Fals3Error> {
        Ok(match q {
            Query::LockShared { bucket } => {
                self.locks.borrow_mut().push(format!("shared {bucket}"));
                Answer::Done
            }
            Query::LockExclusive { bucket } => {
                self.locks.borrow_mut().push(format!("exclusive {bucket}"));
                Answer::Done
            }
            Query::Unlock => {
                self.locks.borrow_mut().push("unlock".to_string());
                Answer::Done
            }
            Query::IsDir { path } => Answer::Flag(self.is_dir(&path)),
            Query::IsFile { path } => Answer::Flag(self.file(&path).is_some()),
            Query::Exists { path } => Answer::Flag(self.is_dir(&path) || self.file(&path).is_some()),
            Query::Resolve { path } => {
                if self.is_dir(&path) || self.file(&path).is_some() {
                    Answer::Path(format!("/{}", place(&path).join("/")))
                } else {
                    return Err(io_error("nothing there"));
                }
            }
            Query::ReadBytes { path } => Answer::Bytes(self.read(&path)?),
            Query::ReadText { path } => Answer::Text(String::from_utf8(self.read(&path)?).unwrap()),
            Query::ReadMeta { path } => Answer::Meta(meta_in(&self.read(&path)?)?),
            Query::ReadUpload { path } => Answer::Upload(upload_in(&self.read(&path)?)?),
            Query::ReadDir { path } => Answer::Entries(
                self.children(&place(&path))
                    .into_iter()
                    .map(|(name, is_dir)| DirEntry {
                        name,
                        kind: if is_dir { EntryKind::Dir } else { EntryKind::File },
                    })
                    .collect(),
            ),
            Query::ReadTree { path } => Answer::Tree(self.tree(&place(&path))),
            Query::Stat { path } => {
                let size = self.read(&path)?.len() as u64;
                Answer::Stat { size, modified: Some(self.now.get()) }
            }
            Query::Now => Answer::Time(self.now.get()),
            Query::Seed => {
                self.count.set(self.count.get() + 1);
                Answer::Seed { nanos: 1_700_000_000_000_000_001, count: self.count.get() }
            }
        })
    }

    fn carry_out(&self, e: Effect) -> Result<(), Fals3Error> {
        match e {
            Effect::CreateDirAll { path } => {
                let at = place(&path);
                for n in 0..=at.len() {
                    let mut nodes = self.nodes.borrow_mut();
                    if matches!(nodes.get(&at[..n]), Some(Node::File(_))) {
                        return Err(io_error("a file is in the way"));
                    }
                    nodes.insert(at[..n].to_vec(), Node::Dir);
                }
                Ok(())
            }
            Effect::Write { path, bytes } => self.write(&path, bytes),
            Effect::WriteMeta { path, meta } => self.write(&path, meta_bytes(&meta)),
            Effect::WriteUpload { path, upload } => self.write(&path, upload_bytes(&upload)),
            Effect::Rename { from, to } => {
                let bytes = self.read(&from)?;
                self.write(&to, bytes)?;
                self.nodes.borrow_mut().remove(&place(&from));
                Ok(())
            }
            Effect::RemoveFile { path } => {
                self.read(&path)?;
                self.nodes.borrow_mut().remove(&place(&path));
                Ok(())
            }
            Effect::RemoveDirAll { path } => {
                if !self.is_dir(&path) {
                    return Err(io_error("no such directory"));
                }
                let at = place(&path);
                self.nodes.borrow_mut().retain(|k, _| !k.starts_with(&at));
                Ok(())
            }
            Effect::DiscardDirAll { path } => {
                let at = place(&path);
                self.nodes.borrow_mut().retain(|k, _| !k.starts_with(&at));
                Ok(())
            }
        }
    }

    fn drive<M>(&self, step: Step<M, M::Output>) -> Result<M::Output, Fals3Error>
    where
        M: Operation,
    {
        let mut step = step;
        loop {
            match step {
                Step::Ask(q, m) => {
                    let a = self.answer(q);
                    assert!(m.can_take(&a), "the operation cannot go on");
                    step = m.resume(a);
                }
                Step::Finish(fx, out) => {
                    for e in fx {
                        self.carry_out(e)?;
                    }
                    return Ok(out);
                }
                Step::Fail(e) => return Err(e),
            }
        }
    }
}

/// A store over a disk in memory.
struct Local {
    store: Store,
    disk: Disk,
}

impl Local {
    fn open() -> Local {
        Local { store: Store::open("/base".to_string()), disk: Disk::new() }
    }

    fn create_bucket(&self, i: CreateBucketInput) -> Result<(), Fals3Error> {
        self.disk.drive(self.store.create_bucket(i))
    }

    fn delete_bucket(&self, i: DeleteBucketInput) -> Result<(), Fals3Error> {
        self.disk.drive(self.store.delete_bucket(i))
    }

    fn head_bucket(&self, i: HeadBucketInput) -> Result<(), Fals3Error> {
        self.disk.drive(self.store.head_bucket(i))
    }

    fn put_object(&self, i: PutObjectInput) -> Result<PutObjectOutput, Fals3Error> {
        self.disk.drive(self.store.put_object(i))
    }

    fn get_object(&self, i: GetObjectInput) -> Result<GetObjectOutput, Fals3Error> {
        self.disk.drive(self.store.get_object(i))
    }

    fn head_object(&self, i: HeadObjectInput) -> Result<ObjectMeta, Fals3Error> {
        self.disk.drive(self.store.head_object(i))
    }

    fn delete_object(&self, i: DeleteObjectInput) -> Result<(), Fals3Error> {
        self.disk.drive(self.store.delete_object(i))
    }

    fn list_objects_v2(&self, i: ListObjectsV2Input) -> Result<ListObjectsV2Output, Fals3Error> {
        self.disk.drive(self.store.list_objects_v2(i))
    }

    fn copy_object(&self, i: CopyObjectInput) -> Result<CopyObjectOutput, Fals3Error> {
        self.disk.drive(self.store.copy_object(i))
    }

    fn create_multipart_upload(
        &self,
        i: CreateMultipartUploadInput,
    ) -> Result<CreateMultipartUploadOutput, Fals3Error> {
        self.disk.drive(self.store.create_multipart_upload(i))
    }

    fn upload_part(&self, i: UploadPartInput) -> Result<UploadPartOutput, Fals3Error> {
        self.disk.drive(self.store.upload_part(i))
    }

    fn complete_multipart_upload(
        &self,
        i: CompleteMultipartUploadInput,
    ) -> Result<CompleteMultipartUploadOutput, Fals3Error> {
        self.disk.drive(self.store.complete_multipart_upload(i))
    }

    fn abort_multipart_upload(&self, i: AbortMultipartUploadInput) -> Result<(), Fals3Error> {
        self.disk.drive(self.store.abort_multipart_upload(i))
    }

    fn list_parts(&self, i: ListPartsInput) -> Result<ListPartsOutput, Fals3Error> {
        self.disk.drive(self.store.list_parts(i))
    }
}

#[test]
fn create_and_head_bucket() {
    let store = Local::open();
    store
        .create_bucket(CreateBucketInput {
            bucket: "my-bucket".into(),
        })
        .unwrap();
    store
        .head_bucket(HeadBucketInput {
            bucket: "my-bucket".into(),
        })
        .unwrap();
}

#[test]
fn create_bucket_already_exists() {
    let store = Local::open();
    store
        .create_bucket(CreateBucketInput {
            bucket: "dup".into(),
        })
        .unwrap();
    let err = store
        .create_bucket(CreateBucketInput {
            bucket: "dup".into(),
        })
        .unwrap_err();
    assert_eq!(err.code(), "BucketAlreadyExists");
}

#[test]
fn create_bucket_invalid_name() {
    let store = Local::open();
    let err = store
        .create_bucket(CreateBucketInput {
            bucket: "BadName".into(),
        })
        .unwrap_err();
    assert_eq!(err.code(), "InvalidBucketName");
}

#[test]
fn head_bucket_missing() {
    let store = Local::open();
    let err = store
        .head_bucket(HeadBucketInput {
            bucket: "missing".into(),
        })
        .unwrap_err();
    assert_eq!(err.code(), "NoSuchBucket");
}

// ---- DeleteBucket ----

#[test]
fn delete_empty_bucket() {
    let store = Local::open();
    store
        .create_bucket(CreateBucketInput {
            bucket: "todel".into(),
        })
        .unwrap();
    store
        .delete_bucket(DeleteBucketInput {
            bucket: "todel".into(),
            force: false,
        })
        .unwrap();
    let err = store
        .head_bucket(HeadBucketInput {
            bucket: "todel".into(),
        })
        .unwrap_err();
    assert_eq!(err.code(), "NoSuchBucket");
}

#[test]
fn delete_nonempty_bucket_without_force_errors() {
    let store = Local::open();
    store
        .create_bucket(CreateBucketInput {
            bucket: "full".into(),
        })
        .unwrap();
    store
        .put_object(PutObjectInput {
            bucket: "full".into(),
            key: "obj.txt".into(),
            body: b"data".to_vec(),
            content_type: None,
            metadata: HashMap::new(),
            content_encoding: None,
            conditions: IfConditions::default(),
        })
        .unwrap();
    let err = store
        .delete_bucket(DeleteBucketInput {
            bucket: "full".into(),
            force: false,
        })
        .unwrap_err();
    assert_eq!(err.code(), "BucketNotEmpty");
}

#[test]
fn delete_nonempty_bucket_with_force() {
    let store = Local::open();
    store
        .create_bucket(CreateBucketInput {
            bucket: "full".into(),
        })
        .unwrap();
    store
        .put_object(PutObjectInput {
            bucket: "full".into(),
            key: "obj.txt".into(),
            body: b"data".to_vec(),
            content_type: None,
            metadata: HashMap::new(),
            content_encoding: None,
            conditions: IfConditions::default(),
        })
        .unwrap();
    store
        .delete_bucket(DeleteBucketInput {
            bucket: "full".into(),
            force: true,
        })
        .unwrap();
}

#[test]
fn delete_missing_bucket() {
    let store = Local::open();
    let err = store
        .delete_bucket(DeleteBucketInput {
            bucket: "ghost".into(),
            force: false,
        })
        .unwrap_err();
    assert_eq!(err.code(), "NoSuchBucket");
}

// ---- PutObject / GetObject / HeadObject ----

#[test]
fn put_get_roundtrip() {
    let store = Local::open();
    store
        .create_bucket(CreateBucketInput {
            bucket: "bkt".into(),
        })
        .unwrap();

    let out = store
        .put_object(PutObjectInput {
            bucket: "bkt".into(),
            key: "hello.txt".into(),
            body: b"hello world".to_vec(),
            content_type: Some("text/plain".into()),
            metadata: HashMap::from([("author".into(), "test".into())]),
            content_encoding: None,
            conditions: IfConditions::default(),
        })
        .unwrap();

    assert!(out.etag.starts_with('"'));

    let got = store
        .get_object(GetObjectInput {
            bucket: "bkt".into(),
            key: "hello.txt".into(),
            range: None,
            conditions: IfConditions::default(),
        })
        .unwrap();

    assert_eq!(got.body, b"hello world");
    assert_eq!(got.meta.etag, out.etag);
    assert_eq!(got.meta.content_type, Some("text/plain".into()));
    assert_eq!(
        got.meta.user_metadata.get("author").map(String::as_str),
        Some("test")
    );
}

#[test]
fn put_nested_key() {
    let store = Local::open();
    store
        .create_bucket(CreateBucketInput {
            bucket: "bkt".into(),
        })
        .unwrap();
    store
        .put_object(PutObjectInput {
            bucket: "bkt".into(),
            key: "users/1/avatar.png".into(),
            body: b"\x89PNG".to_vec(),
            content_type: Some("image/png".into()),
            metadata: HashMap::new(),
            content_encoding: None,
            conditions: IfConditions::default(),
        })
        .unwrap();

    let got = store
        .get_object(GetObjectInput {
            bucket: "bkt".into(),
            key: "users/1/avatar.png".into(),
            range: None,
            conditions: IfConditions::default(),
        })
        .unwrap();
    assert_eq!(&got.body[..4], b"\x89PNG");
}

#[test]
fn get_range() {
    let store = Local::open();
    store
        .create_bucket(CreateBucketInput {
            bucket: "bkt".into(),
        })
        .unwrap();
    store
        .put_object(PutObjectInput {
            bucket: "bkt".into(),
            key: "data.bin".into(),
            body: b"0123456789".to_vec(),
            content_type: None,
            metadata: HashMap::new(),
            content_encoding: None,
            conditions: IfConditions::default(),
        })
        .unwrap();

    let got = store
        .get_object(GetObjectInput {
            bucket: "bkt".into(),
            key: "data.bin".into(),
            range: Some((2, 5)),
            conditions: IfConditions::default(),
        })
        .unwrap();
    assert_eq!(got.body, b"2345");
}

#[test]
fn get_missing_key() {
    let store = Local::open();
    store
        .create_bucket(CreateBucketInput {
            bucket: "bkt".into(),
        })
        .unwrap();
    let err = store
        .get_object(GetObjectInput {
            bucket: "bkt".into(),
            key: "ghost.txt".into(),
            range: None,
            conditions: IfConditions::default(),
        })
        .unwrap_err();
    assert_eq!(err.code(), "NoSuchKey");
}

#[test]
fn head_object() {
    let store = Local::open();
    store
        .create_bucket(CreateBucketInput {
            bucket: "bkt".into(),
        })
        .unwrap();
    store
        .put_object(PutObjectInput {
            bucket: "bkt".into(),
            key: "f.txt".into(),
            body: b"hi".to_vec(),
            content_type: None,
            metadata: HashMap::new(),
            content_encoding: None,
            conditions: IfConditions::default(),
        })
        .unwrap();

    let meta = store
        .head_object(HeadObjectInput {
            bucket: "bkt".into(),
            key: "f.txt".into(),
            conditions: IfConditions::default(),
        })
        .unwrap();
    assert_eq!(meta.size, 2);
}

// ---- DeleteObject ----

#[test]
fn delete_object_idempotent() {
    let store = Local::open();
    store
        .create_bucket(CreateBucketInput {
            bucket: "bkt".into(),
        })
        .unwrap();
    // Delete a key that was never created — should succeed (idempotent).
    store
        .delete_object(DeleteObjectInput {
            bucket: "bkt".into(),
            key: "ghost.txt".into(),
        })
        .unwrap();
}

#[test]
fn delete_object_then_get_returns_no_such_key() {
    let store = Local::open();
    store
        .create_bucket(CreateBucketInput {
            bucket: "bkt".into(),
        })
        .unwrap();
    store
        .put_object(PutObjectInput {
            bucket: "bkt".into(),
            key: "bye.txt".into(),
            body: b"bye".to_vec(),
            content_type: None,
            metadata: HashMap::new(),
            content_encoding: None,
            conditions: IfConditions::default(),
        })
        .unwrap();
    store
        .delete_object(DeleteObjectInput {
            bucket: "bkt".into(),
            key: "bye.txt".into(),
        })
        .unwrap();

    let err = store
        .get_object(GetObjectInput {
            bucket: "bkt".into(),
            key: "bye.txt".into(),
            range: None,
            conditions: IfConditions::default(),
        })
        .unwrap_err();
    assert_eq!(err.code(), "NoSuchKey");
}

#[test]
fn put_on_missing_bucket_errors() {
    let store = Local::open();
    let err = store
        .put_object(PutObjectInput {
            bucket: "no-such".into(),
            key: "f.txt".into(),
            body: vec![],
            content_type: None,
            metadata: HashMap::new(),
            content_encoding: None,
            conditions: IfConditions::default(),
        })
        .unwrap_err();
    assert_eq!(err.code(), "NoSuchBucket");
}

// ---- ListObjectsV2 ----

fn put(store: &Local, bucket: &str, key: &str, body: &[u8]) {
    store
        .put_object(PutObjectInput {
            bucket: bucket.into(),
            key: key.into(),
            body: body.to_vec(),
            content_type: None,
            metadata: HashMap::new(),
            content_encoding: None,
            conditions: IfConditions::default(),
        })
        .unwrap();
}

#[test]
fn list_all_keys() {
    let store = Local::open();
    store
        .create_bucket(CreateBucketInput {
            bucket: "bkt".into(),
        })
        .unwrap();
    put(&store, "bkt", "a.txt", b"a");
    put(&store, "bkt", "b.txt", b"b");
    put(&store, "bkt", "c.txt", b"c");

    let out = store
        .list_objects_v2(ListObjectsV2Input {
            bucket: "bkt".into(),
            prefix: None,
            delimiter: None,
            max_keys: None,
            continuation_token: None,
        })
        .unwrap();

    assert_eq!(out.key_count, 3);
    assert!(!out.is_truncated);
    let keys: Vec<&str> = out.contents.iter().map(|e| e.key.as_str()).collect();
    assert_eq!(keys, vec!["a.txt", "b.txt", "c.txt"]);
}

#[test]
fn list_with_prefix() {
    let store = Local::open();
    store
        .create_bucket(CreateBucketInput {
            bucket: "bkt".into(),
        })
        .unwrap();
    put(&store, "bkt", "imgs/a.png", b"a");
    put(&store, "bkt", "imgs/b.png", b"b");
    put(&store, "bkt", "docs/c.txt", b"c");

    let out = store
        .list_objects_v2(ListObjectsV2Input {
            bucket: "bkt".into(),
            prefix: Some("imgs/".into()),
            delimiter: None,
            max_keys: None,
            continuation_token: None,
        })
        .unwrap();

    assert_eq!(out.key_count, 2);
    let keys: Vec<&str> = out.contents.iter().map(|e| e.key.as_str()).collect();
    assert_eq!(keys, vec!["imgs/a.png", "imgs/b.png"]);
}

#[test]
fn list_with_delimiter_common_prefixes() {
    let store = Local::open();
    store
        .create_bucket(CreateBucketInput {
            bucket: "bkt".into(),
        })
        .unwrap();
    put(&store, "bkt", "a/x.txt", b"x");
    put(&store, "bkt", "a/y.txt", b"y");
    put(&store, "bkt", "b/z.txt", b"z");
    put(&store, "bkt", "root.txt", b"r");

    let out = store
        .list_objects_v2(ListObjectsV2Input {
            bucket: "bkt".into(),
            prefix: None,
            delimiter: Some("/".into()),
            max_keys: None,
            continuation_token: None,
        })
        .unwrap();

    assert!(out.common_prefixes.contains(&"a/".to_string()));
    assert!(out.common_prefixes.contains(&"b/".to_string()));
    assert_eq!(out.contents.len(), 1);
    assert_eq!(out.contents[0].key, "root.txt");
}

#[test]
fn list_pagination() {
    let store = Local::open();
    store
        .create_bucket(CreateBucketInput {
            bucket: "bkt".into(),
        })
        .unwrap();
    for i in 0..5u8 {
        put(&store, "bkt", &format!("obj{i}.txt"), &[i]);
    }

    let page1 = store
        .list_objects_v2(ListObjectsV2Input {
            bucket: "bkt".into(),
            prefix: None,
            delimiter: None,
            max_keys: Some(2),
            continuation_token: None,
        })
        .unwrap();
    assert_eq!(page1.contents.len(), 2);
    assert!(page1.is_truncated);
    assert!(page1.next_continuation_token.is_some());

    let page2 = store
        .list_objects_v2(ListObjectsV2Input {
            bucket: "bkt".into(),
            prefix: None,
            delimiter: None,
            max_keys: Some(2),
            continuation_token: page1.next_continuation_token.clone(),
        })
        .unwrap();
    assert_eq!(page2.contents.len(), 2);

    let page3 = store
        .list_objects_v2(ListObjectsV2Input {
            bucket: "bkt".into(),
            prefix: None,
            delimiter: None,
            max_keys: Some(2),
            continuation_token: page2.next_continuation_token.clone(),
        })
        .unwrap();
    assert_eq!(page3.contents.len(), 1);
    assert!(!page3.is_truncated);

    // Ensure pages are non-overlapping and cover all 5 keys.
    let mut all: Vec<String> = page1
        .contents
        .iter()
        .chain(page2.contents.iter())
        .chain(page3.contents.iter())
        .map(|e| e.key.clone())
        .collect();
    all.sort();
    all.dedup();
    assert_eq!(all.len(), 5);
}

#[test]
fn list_empty_bucket() {
    let store = Local::open();
    store
        .create_bucket(CreateBucketInput {
            bucket: "empty".into(),
        })
        .unwrap();
    let out = store
        .list_objects_v2(ListObjectsV2Input {
            bucket: "empty".into(),
            prefix: None,
            delimiter: None,
            max_keys: None,
            continuation_token: None,
        })
        .unwrap();
    assert_eq!(out.key_count, 0);
    assert!(!out.is_truncated);
}

// ---- CopyObject ----

#[test]
fn copy_same_bucket() {
    let store = Local::open();
    store
        .create_bucket(CreateBucketInput {
            bucket: "bkt".into(),
        })
        .unwrap();
    put(&store, "bkt", "src.txt", b"hello");

    let out = store
        .copy_object(CopyObjectInput {
            src_bucket: "bkt".into(),
            src_key: "src.txt".into(),
            dst_bucket: "bkt".into(),
            dst_key: "dst.txt".into(),
            metadata_directive: None,
            source_conditions: IfConditions::default(),
        })
        .unwrap();
    assert!(!out.etag.is_empty());

    let got = store
        .get_object(GetObjectInput {
            bucket: "bkt".into(),
            key: "dst.txt".into(),
            range: None,
            conditions: IfConditions::default(),
        })
        .unwrap();
    assert_eq!(got.body, b"hello");
}

#[test]
fn copy_cross_bucket() {
    let store = Local::open();
    store
        .create_bucket(CreateBucketInput {
            bucket: "src-bkt".into(),
        })
        .unwrap();
    store
        .create_bucket(CreateBucketInput {
            bucket: "dst-bkt".into(),
        })
        .unwrap();
    put(&store, "src-bkt", "file.txt", b"data");

    store
        .copy_object(CopyObjectInput {
            src_bucket: "src-bkt".into(),
            src_key: "file.txt".into(),
            dst_bucket: "dst-bkt".into(),
            dst_key: "copy.txt".into(),
            metadata_directive: None,
            source_conditions: IfConditions::default(),
        })
        .unwrap();

    let got = store
        .get_object(GetObjectInput {
            bucket: "dst-bkt".into(),
            key: "copy.txt".into(),
            range: None,
            conditions: IfConditions::default(),
        })
        .unwrap();
    assert_eq!(got.body, b"data");
}

#[test]
fn copy_preserves_metadata_by_default() {
    let store = Local::open();
    store
        .create_bucket(CreateBucketInput {
            bucket: "bkt".into(),
        })
        .unwrap();
    store
        .put_object(PutObjectInput {
            bucket: "bkt".into(),
            key: "src.txt".into(),
            body: b"hi".to_vec(),
            content_type: Some("text/plain".into()),
            metadata: HashMap::from([("owner".into(), "alice".into())]),
            content_encoding: None,
            conditions: IfConditions::default(),
        })
        .unwrap();

    store
        .copy_object(CopyObjectInput {
            src_bucket: "bkt".into(),
            src_key: "src.txt".into(),
            dst_bucket: "bkt".into(),
            dst_key: "dst.txt".into(),
            metadata_directive: None,
            source_conditions: IfConditions::default(),
        })
        .unwrap();

    let meta = store
        .head_object(HeadObjectInput {
            bucket: "bkt".into(),
            key: "dst.txt".into(),
            conditions: IfConditions::default(),
        })
        .unwrap();
    assert_eq!(meta.content_type, Some("text/plain".into()));
    assert_eq!(
        meta.user_metadata.get("owner").map(String::as_str),
        Some("alice")
    );
}

#[test]
fn copy_replace_metadata() {
    let store = Local::open();
    store
        .create_bucket(CreateBucketInput {
            bucket: "bkt".into(),
        })
        .unwrap();
    store
        .put_object(PutObjectInput {
            bucket: "bkt".into(),
            key: "src.txt".into(),
            body: b"hi".to_vec(),
            content_type: Some("text/plain".into()),
            metadata: HashMap::from([("owner".into(), "alice".into())]),
            content_encoding: None,
            conditions: IfConditions::default(),
        })
        .unwrap();

    store
        .copy_object(CopyObjectInput {
            src_bucket: "bkt".into(),
            src_key: "src.txt".into(),
            dst_bucket: "bkt".into(),
            dst_key: "dst.txt".into(),
            metadata_directive: Some(MetadataDirective::Replace {
                content_type: Some("application/octet-stream".into()),
                metadata: HashMap::from([("owner".into(), "bob".into())]),
            }),
            source_conditions: IfConditions::default(),
        })
        .unwrap();

    let meta = store
        .head_object(HeadObjectInput {
            bucket: "bkt".into(),
            key: "dst.txt".into(),
            conditions: IfConditions::default(),
        })
        .unwrap();
    assert_eq!(meta.content_type, Some("application/octet-stream".into()));
    assert_eq!(
        meta.user_metadata.get("owner").map(String::as_str),
        Some("bob")
    );
}

#[test]
fn copy_missing_source_key() {
    let store = Local::open();
    store
        .create_bucket(CreateBucketInput {
            bucket: "bkt".into(),
        })
        .unwrap();
    let err = store
        .copy_object(CopyObjectInput {
            src_bucket: "bkt".into(),
            src_key: "ghost.txt".into(),
            dst_bucket: "bkt".into(),
            dst_key: "dst.txt".into(),
            metadata_directive: None,
            source_conditions: IfConditions::default(),
        })
        .unwrap_err();
    assert_eq!(err.code(), "NoSuchKey");
}

// ---- pages ----

#[test]
fn pagination_6_objects_3_pages() {
    let store = Local::open();

    store
        .create_bucket(CreateBucketInput {
            bucket: "test".into(),
        })
        .unwrap();

    let keys = ["a", "b", "c", "d", "e", "f"];
    for key in &keys {
        store
            .put_object(PutObjectInput {
                bucket: "test".into(),
                key: key.to_string(),
                body: b"data".to_vec(),
                content_type: None,
                metadata: HashMap::new(),
                content_encoding: None,
                conditions: IfConditions::default(),
            })
            .unwrap();
    }

    let mut all_seen: Vec<String> = Vec::new();
    let mut token: Option<String> = None;
    let mut page_count = 0;

    loop {
        let out = store
            .list_objects_v2(ListObjectsV2Input {
                bucket: "test".into(),
                prefix: None,
                delimiter: None,
                max_keys: Some(2),
                continuation_token: token,
            })
            .unwrap();

        page_count += 1;
        for entry in &out.contents {
            assert!(
                !all_seen.contains(&entry.key),
                "key {} appeared twice",
                entry.key
            );
            all_seen.push(entry.key.clone());
        }

        if out.is_truncated {
            token = out.next_continuation_token;
            assert!(token.is_some(), "truncated response must have next token");
        } else {
            assert!(
                out.next_continuation_token.is_none(),
                "non-truncated response must not have next token"
            );
            break;
        }
    }

    assert_eq!(page_count, 3, "expected exactly 3 pages");
    assert_eq!(all_seen.len(), 6, "expected 6 keys total");

    // Verify that all keys were returned.
    for key in &keys {
        assert!(all_seen.contains(&key.to_string()), "missing key {key}");
    }
}

// ---- conditions ----

fn cond_store_with_object() -> (Local, String, u64) {
    let store = Local::open();
    store
        .create_bucket(CreateBucketInput {
            bucket: "bkt".into(),
        })
        .unwrap();
    let put = store
        .put_object(PutObjectInput {
            bucket: "bkt".into(),
            key: "k".into(),
            body: b"hello".to_vec(),
            content_type: None,
            metadata: HashMap::new(),
            content_encoding: None,
            conditions: IfConditions::default(),
        })
        .unwrap();
    let meta = store
        .head_object(HeadObjectInput {
            bucket: "bkt".into(),
            key: "k".into(),
            conditions: IfConditions::default(),
        })
        .unwrap();
    (store, put.etag, meta.last_modified)
}

#[test]
fn get_if_match_pass() {
    let (s, etag, _) = cond_store_with_object();
    s.get_object(GetObjectInput {
        bucket: "bkt".into(),
        key: "k".into(),
        range: None,
        conditions: IfConditions {
            if_match: Some(etag),
            ..Default::default()
        },
    })
    .unwrap();
}

#[test]
fn get_if_match_wildcard_pass() {
    let (s, _, _) = cond_store_with_object();
    s.get_object(GetObjectInput {
        bucket: "bkt".into(),
        key: "k".into(),
        range: None,
        conditions: IfConditions {
            if_match: Some("*".into()),
            ..Default::default()
        },
    })
    .unwrap();
}

#[test]
fn get_if_match_fail_returns_precondition_failed() {
    let (s, _, _) = cond_store_with_object();
    let err = s
        .get_object(GetObjectInput {
            bucket: "bkt".into(),
            key: "k".into(),
            range: None,
            conditions: IfConditions {
                if_match: Some("\"deadbeef\"".into()),
                ..Default::default()
            },
        })
        .unwrap_err();
    assert_eq!(err.code(), "PreconditionFailed");
}

#[test]
fn get_if_none_match_returns_not_modified_when_etag_matches() {
    let (s, etag, _) = cond_store_with_object();
    let err = s
        .get_object(GetObjectInput {
            bucket: "bkt".into(),
            key: "k".into(),
            range: None,
            conditions: IfConditions {
                if_none_match: Some(etag),
                ..Default::default()
            },
        })
        .unwrap_err();
    assert_eq!(err.code(), "NotModified");
}

#[test]
fn get_if_none_match_pass_when_etag_differs() {
    let (s, _, _) = cond_store_with_object();
    s.get_object(GetObjectInput {
        bucket: "bkt".into(),
        key: "k".into(),
        range: None,
        conditions: IfConditions {
            if_none_match: Some("\"deadbeef\"".into()),
            ..Default::default()
        },
    })
    .unwrap();
}

#[test]
fn get_if_modified_since_returns_not_modified_when_unchanged() {
    let (s, _, lm) = cond_store_with_object();
    let err = s
        .get_object(GetObjectInput {
            bucket: "bkt".into(),
            key: "k".into(),
            range: None,
            conditions: IfConditions {
                if_modified_since: Some(lm),
                ..Default::default()
            },
        })
        .unwrap_err();
    assert_eq!(err.code(), "NotModified");
}

#[test]
fn get_if_unmodified_since_fail_when_object_is_newer() {
    let (s, _, lm) = cond_store_with_object();
    let err = s
        .get_object(GetObjectInput {
            bucket: "bkt".into(),
            key: "k".into(),
            range: None,
            conditions: IfConditions {
                if_unmodified_since: Some(lm.saturating_sub(1)),
                ..Default::default()
            },
        })
        .unwrap_err();
    assert_eq!(err.code(), "PreconditionFailed");
}

#[test]
fn get_if_match_takes_priority_over_if_none_match() {
    // If-Match (412) wins over If-None-Match (304) when both fire.
    let (s, etag, _) = cond_store_with_object();
    let err = s
        .get_object(GetObjectInput {
            bucket: "bkt".into(),
            key: "k".into(),
            range: None,
            conditions: IfConditions {
                if_match: Some("\"deadbeef\"".into()),
                if_none_match: Some(etag),
                ..Default::default()
            },
        })
        .unwrap_err();
    assert_eq!(err.code(), "PreconditionFailed");
}

#[test]
fn put_if_none_match_star_fails_when_object_exists() {
    let (s, _, _) = cond_store_with_object();
    let err = s
        .put_object(PutObjectInput {
            bucket: "bkt".into(),
            key: "k".into(),
            body: b"new".to_vec(),
            content_type: None,
            metadata: HashMap::new(),
            content_encoding: None,
            conditions: IfConditions {
                if_none_match: Some("*".into()),
                ..Default::default()
            },
        })
        .unwrap_err();
    assert_eq!(err.code(), "PreconditionFailed");
}

#[test]
fn put_if_none_match_star_succeeds_when_object_absent() {
    let s = Local::open();
    s.create_bucket(CreateBucketInput {
        bucket: "bkt".into(),
    })
    .unwrap();
    s.put_object(PutObjectInput {
        bucket: "bkt".into(),
        key: "k".into(),
        body: b"first".to_vec(),
        content_type: None,
        metadata: HashMap::new(),
        content_encoding: None,
        conditions: IfConditions {
            if_none_match: Some("*".into()),
            ..Default::default()
        },
    })
    .unwrap();
}

#[test]
fn put_if_match_succeeds_with_current_etag() {
    let (s, etag, _) = cond_store_with_object();
    s.put_object(PutObjectInput {
        bucket: "bkt".into(),
        key: "k".into(),
        body: b"new".to_vec(),
        content_type: None,
        metadata: HashMap::new(),
        content_encoding: None,
        conditions: IfConditions {
            if_match: Some(etag),
            ..Default::default()
        },
    })
    .unwrap();
}

#[test]
fn put_if_match_fails_with_stale_etag() {
    let (s, _, _) = cond_store_with_object();
    let err = s
        .put_object(PutObjectInput {
            bucket: "bkt".into(),
            key: "k".into(),
            body: b"new".to_vec(),
            content_type: None,
            metadata: HashMap::new(),
            content_encoding: None,
            conditions: IfConditions {
                if_match: Some("\"deadbeef\"".into()),
                ..Default::default()
            },
        })
        .unwrap_err();
    assert_eq!(err.code(), "PreconditionFailed");
}

#[test]
fn put_if_match_fails_when_object_absent() {
    let s = Local::open();
    s.create_bucket(CreateBucketInput {
        bucket: "bkt".into(),
    })
    .unwrap();
    let err = s
        .put_object(PutObjectInput {
            bucket: "bkt".into(),
            key: "k".into(),
            body: b"new".to_vec(),
            content_type: None,
            metadata: HashMap::new(),
            content_encoding: None,
            conditions: IfConditions {
                if_match: Some("\"any\"".into()),
                ..Default::default()
            },
        })
        .unwrap_err();
    assert_eq!(err.code(), "PreconditionFailed");
}

#[test]
fn copy_source_if_match_fail() {
    let (s, _, _) = cond_store_with_object();
    let err = s
        .copy_object(CopyObjectInput {
            src_bucket: "bkt".into(),
            src_key: "k".into(),
            dst_bucket: "bkt".into(),
            dst_key: "dst".into(),
            metadata_directive: None,
            source_conditions: IfConditions {
                if_match: Some("\"deadbeef\"".into()),
                ..Default::default()
            },
        })
        .unwrap_err();
    assert_eq!(err.code(), "PreconditionFailed");
}

#[test]
fn copy_source_if_match_pass() {
    let (s, etag, _) = cond_store_with_object();
    s.copy_object(CopyObjectInput {
        src_bucket: "bkt".into(),
        src_key: "k".into(),
        dst_bucket: "bkt".into(),
        dst_key: "dst".into(),
        metadata_directive: None,
        source_conditions: IfConditions {
            if_match: Some(etag),
            ..Default::default()
        },
    })
    .unwrap();
}

#[test]
fn etag_quote_normalisation_in_if_match() {
    // Provided etag without quotes still matches the stored quoted etag.
    let (s, etag, _) = cond_store_with_object();
    let unquoted = etag.trim_matches('"').to_string();
    s.get_object(GetObjectInput {
        bucket: "bkt".into(),
        key: "k".into(),
        range: None,
        conditions: IfConditions {
            if_match: Some(unquoted),
            ..Default::default()
        },
    })
    .unwrap();
}

// ---- multipart uploads ----

fn mp_store_with_bucket() -> Local {
    let s = Local::open();
    s.create_bucket(CreateBucketInput {
        bucket: "bkt".into(),
    })
    .unwrap();
    s
}

#[test]
fn multipart_full_roundtrip() {
    let s = mp_store_with_bucket();

    let create = s
        .create_multipart_upload(CreateMultipartUploadInput {
            bucket: "bkt".into(),
            key: "big.bin".into(),
            content_type: Some("application/octet-stream".into()),
            metadata: HashMap::from([("k".into(), "v".into())]),
            content_encoding: None,
        })
        .unwrap();
    assert!(!create.upload_id.is_empty());

    let p1 = s
        .upload_part(UploadPartInput {
            upload_id: create.upload_id.clone(),
            part_number: 1,
            body: b"hello ".to_vec(),
        })
        .unwrap();
    let p2 = s
        .upload_part(UploadPartInput {
            upload_id: create.upload_id.clone(),
            part_number: 2,
            body: b"world".to_vec(),
        })
        .unwrap();
    assert_eq!(p1.part_number, 1);
    assert_eq!(p2.part_number, 2);

    let complete = s
        .complete_multipart_upload(CompleteMultipartUploadInput {
            upload_id: create.upload_id.clone(),
            parts: vec![
                CompletedPart {
                    part_number: 1,
                    etag: p1.etag.clone(),
                },
                CompletedPart {
                    part_number: 2,
                    etag: p2.etag.clone(),
                },
            ],
        })
        .unwrap();
    assert!(complete.etag.ends_with("-2\""));

    // Object now readable via standard GET.
    let got = s
        .get_object(GetObjectInput {
            bucket: "bkt".into(),
            key: "big.bin".into(),
            range: None,
            conditions: IfConditions::default(),
        })
        .unwrap();
    assert_eq!(got.body, b"hello world");
    assert_eq!(got.meta.etag, complete.etag);
    assert_eq!(
        got.meta.content_type,
        Some("application/octet-stream".into())
    );
    assert_eq!(
        got.meta.user_metadata.get("k").map(String::as_str),
        Some("v")
    );
    assert_eq!(got.meta.size, 11);
}

#[test]
fn multipart_metadata_preserved_through_complete() {
    let s = mp_store_with_bucket();
    let create = s
        .create_multipart_upload(CreateMultipartUploadInput {
            bucket: "bkt".into(),
            key: "k".into(),
            content_type: Some("image/png".into()),
            metadata: HashMap::from([("uid".into(), "42".into())]),
            content_encoding: Some("gzip".into()),
        })
        .unwrap();
    let p = s
        .upload_part(UploadPartInput {
            upload_id: create.upload_id.clone(),
            part_number: 1,
            body: b"x".to_vec(),
        })
        .unwrap();
    s.complete_multipart_upload(CompleteMultipartUploadInput {
        upload_id: create.upload_id,
        parts: vec![CompletedPart {
            part_number: 1,
            etag: p.etag,
        }],
    })
    .unwrap();

    let meta = s
        .head_object(HeadObjectInput {
            bucket: "bkt".into(),
            key: "k".into(),
            conditions: IfConditions::default(),
        })
        .unwrap();
    assert_eq!(meta.content_type, Some("image/png".into()));
    assert_eq!(meta.content_encoding, Some("gzip".into()));
    assert_eq!(
        meta.user_metadata.get("uid").map(String::as_str),
        Some("42")
    );
}

#[test]
fn upload_part_rejects_unknown_upload_id() {
    let s = mp_store_with_bucket();
    let err = s
        .upload_part(UploadPartInput {
            upload_id: "ghost".into(),
            part_number: 1,
            body: b"x".to_vec(),
        })
        .unwrap_err();
    assert_eq!(err.code(), "NoSuchUpload");
}

#[test]
fn upload_part_rejects_part_number_zero() {
    let s = mp_store_with_bucket();
    let create = s
        .create_multipart_upload(CreateMultipartUploadInput {
            bucket: "bkt".into(),
            key: "k".into(),
            content_type: None,
            metadata: HashMap::new(),
            content_encoding: None,
        })
        .unwrap();
    let err = s
        .upload_part(UploadPartInput {
            upload_id: create.upload_id,
            part_number: 0,
            body: b"x".to_vec(),
        })
        .unwrap_err();
    assert_eq!(err.code(), "InvalidPart");
}

#[test]
fn upload_part_rejects_part_number_above_max() {
    let s = mp_store_with_bucket();
    let create = s
        .create_multipart_upload(CreateMultipartUploadInput {
            bucket: "bkt".into(),
            key: "k".into(),
            content_type: None,
            metadata: HashMap::new(),
            content_encoding: None,
        })
        .unwrap();
    let err = s
        .upload_part(UploadPartInput {
            upload_id: create.upload_id,
            part_number: 10_001,
            body: b"x".to_vec(),
        })
        .unwrap_err();
    assert_eq!(err.code(), "InvalidPart");
}

#[test]
fn complete_rejects_unknown_upload() {
    let s = mp_store_with_bucket();
    let err = s
        .complete_multipart_upload(CompleteMultipartUploadInput {
            upload_id: "ghost".into(),
            parts: vec![CompletedPart {
                part_number: 1,
                etag: "\"x\"".into(),
            }],
        })
        .unwrap_err();
    assert_eq!(err.code(), "NoSuchUpload");
}

#[test]
fn complete_rejects_empty_parts_list() {
    let s = mp_store_with_bucket();
    let create = s
        .create_multipart_upload(CreateMultipartUploadInput {
            bucket: "bkt".into(),
            key: "k".into(),
            content_type: None,
            metadata: HashMap::new(),
            content_encoding: None,
        })
        .unwrap();
    let err = s
        .complete_multipart_upload(CompleteMultipartUploadInput {
            upload_id: create.upload_id,
            parts: vec![],
        })
        .unwrap_err();
    assert_eq!(err.code(), "InvalidPart");
}

#[test]
fn complete_rejects_descending_or_duplicate_part_numbers() {
    let s = mp_store_with_bucket();
    let create = s
        .create_multipart_upload(CreateMultipartUploadInput {
            bucket: "bkt".into(),
            key: "k".into(),
            content_type: None,
            metadata: HashMap::new(),
            content_encoding: None,
        })
        .unwrap();
    let p1 = s
        .upload_part(UploadPartInput {
            upload_id: create.upload_id.clone(),
            part_number: 1,
            body: b"a".to_vec(),
        })
        .unwrap();
    let p2 = s
        .upload_part(UploadPartInput {
            upload_id: create.upload_id.clone(),
            part_number: 2,
            body: b"b".to_vec(),
        })
        .unwrap();

    // Descending
    let err = s
        .complete_multipart_upload(CompleteMultipartUploadInput {
            upload_id: create.upload_id.clone(),
            parts: vec![
                CompletedPart {
                    part_number: 2,
                    etag: p2.etag.clone(),
                },
                CompletedPart {
                    part_number: 1,
                    etag: p1.etag.clone(),
                },
            ],
        })
        .unwrap_err();
    assert_eq!(err.code(), "InvalidPartOrder");

    // Duplicate
    let err = s
        .complete_multipart_upload(CompleteMultipartUploadInput {
            upload_id: create.upload_id,
            parts: vec![
                CompletedPart {
                    part_number: 1,
                    etag: p1.etag.clone(),
                },
                CompletedPart {
                    part_number: 1,
                    etag: p1.etag,
                },
            ],
        })
        .unwrap_err();
    assert_eq!(err.code(), "InvalidPartOrder");
}

#[test]
fn complete_rejects_part_with_wrong_etag() {
    let s = mp_store_with_bucket();
    let create = s
        .create_multipart_upload(CreateMultipartUploadInput {
            bucket: "bkt".into(),
            key: "k".into(),
            content_type: None,
            metadata: HashMap::new(),
            content_encoding: None,
        })
        .unwrap();
    let _ = s
        .upload_part(UploadPartInput {
            upload_id: create.upload_id.clone(),
            part_number: 1,
            body: b"a".to_vec(),
        })
        .unwrap();

    let err = s
        .complete_multipart_upload(CompleteMultipartUploadInput {
            upload_id: create.upload_id,
            parts: vec![CompletedPart {
                part_number: 1,
                etag: "\"deadbeef\"".into(),
            }],
        })
        .unwrap_err();
    assert_eq!(err.code(), "InvalidPart");
}

#[test]
fn complete_rejects_part_that_was_never_uploaded() {
    let s = mp_store_with_bucket();
    let create = s
        .create_multipart_upload(CreateMultipartUploadInput {
            bucket: "bkt".into(),
            key: "k".into(),
            content_type: None,
            metadata: HashMap::new(),
            content_encoding: None,
        })
        .unwrap();
    let p1 = s
        .upload_part(UploadPartInput {
            upload_id: create.upload_id.clone(),
            part_number: 1,
            body: b"a".to_vec(),
        })
        .unwrap();

    let err = s
        .complete_multipart_upload(CompleteMultipartUploadInput {
            upload_id: create.upload_id,
            parts: vec![
                CompletedPart {
                    part_number: 1,
                    etag: p1.etag,
                },
                CompletedPart {
                    part_number: 5,
                    etag: "\"x\"".into(),
                },
            ],
        })
        .unwrap_err();
    assert_eq!(err.code(), "InvalidPart");
}

#[test]
fn abort_removes_upload_state() {
    let s = mp_store_with_bucket();
    let create = s
        .create_multipart_upload(CreateMultipartUploadInput {
            bucket: "bkt".into(),
            key: "k".into(),
            content_type: None,
            metadata: HashMap::new(),
            content_encoding: None,
        })
        .unwrap();
    s.upload_part(UploadPartInput {
        upload_id: create.upload_id.clone(),
        part_number: 1,
        body: b"x".to_vec(),
    })
    .unwrap();
    s.abort_multipart_upload(AbortMultipartUploadInput {
        upload_id: create.upload_id.clone(),
    })
    .unwrap();

    // Subsequent ListParts on the aborted id should return NoSuchUpload.
    let err = s
        .list_parts(ListPartsInput {
            upload_id: create.upload_id,
        })
        .unwrap_err();
    assert_eq!(err.code(), "NoSuchUpload");
}

#[test]
fn abort_unknown_upload_is_idempotent() {
    let s = mp_store_with_bucket();
    s.abort_multipart_upload(AbortMultipartUploadInput {
        upload_id: "ghost".into(),
    })
    .unwrap();
}

#[test]
fn list_parts_returns_uploaded_parts_in_order() {
    let s = mp_store_with_bucket();
    let create = s
        .create_multipart_upload(CreateMultipartUploadInput {
            bucket: "bkt".into(),
            key: "k".into(),
            content_type: None,
            metadata: HashMap::new(),
            content_encoding: None,
        })
        .unwrap();
    let p3 = s
        .upload_part(UploadPartInput {
            upload_id: create.upload_id.clone(),
            part_number: 3,
            body: b"ccc".to_vec(),
        })
        .unwrap();
    let p1 = s
        .upload_part(UploadPartInput {
            upload_id: create.upload_id.clone(),
            part_number: 1,
            body: b"a".to_vec(),
        })
        .unwrap();
    let p2 = s
        .upload_part(UploadPartInput {
            upload_id: create.upload_id.clone(),
            part_number: 2,
            body: b"bb".to_vec(),
        })
        .unwrap();

    let listed = s
        .list_parts(ListPartsInput {
            upload_id: create.upload_id,
        })
        .unwrap();
    assert_eq!(listed.bucket, "bkt");
    assert_eq!(listed.key, "k");
    assert_eq!(listed.parts.len(), 3);
    assert_eq!(listed.parts[0].part_number, 1);
    assert_eq!(listed.parts[1].part_number, 2);
    assert_eq!(listed.parts[2].part_number, 3);
    assert_eq!(listed.parts[0].etag, p1.etag);
    assert_eq!(listed.parts[1].etag, p2.etag);
    assert_eq!(listed.parts[2].etag, p3.etag);
    assert_eq!(listed.parts[0].size, 1);
    assert_eq!(listed.parts[1].size, 2);
    assert_eq!(listed.parts[2].size, 3);
}

#[test]
fn re_upload_same_part_replaces_body_and_etag() {
    let s = mp_store_with_bucket();
    let create = s
        .create_multipart_upload(CreateMultipartUploadInput {
            bucket: "bkt".into(),
            key: "k".into(),
            content_type: None,
            metadata: HashMap::new(),
            content_encoding: None,
        })
        .unwrap();
    let p1a = s
        .upload_part(UploadPartInput {
            upload_id: create.upload_id.clone(),
            part_number: 1,
            body: b"first".to_vec(),
        })
        .unwrap();
    let p1b = s
        .upload_part(UploadPartInput {
            upload_id: create.upload_id.clone(),
            part_number: 1,
            body: b"second-version".to_vec(),
        })
        .unwrap();
    assert_ne!(p1a.etag, p1b.etag);

    // Complete with the new etag — must succeed.
    let complete = s
        .complete_multipart_upload(CompleteMultipartUploadInput {
            upload_id: create.upload_id,
            parts: vec![CompletedPart {
                part_number: 1,
                etag: p1b.etag,
            }],
        })
        .unwrap();
    let got = s
        .get_object(GetObjectInput {
            bucket: "bkt".into(),
            key: "k".into(),
            range: None,
            conditions: IfConditions::default(),
        })
        .unwrap();
    assert_eq!(got.body, b"second-version");
    assert!(complete.etag.ends_with("-1\""));
}

#[test]
fn create_multipart_upload_validates_bucket_and_key() {
    let s = mp_store_with_bucket();
    let err = s
        .create_multipart_upload(CreateMultipartUploadInput {
            bucket: "ghost".into(),
            key: "k".into(),
            content_type: None,
            metadata: HashMap::new(),
            content_encoding: None,
        })
        .unwrap_err();
    assert_eq!(err.code(), "NoSuchBucket");

    let err = s
        .create_multipart_upload(CreateMultipartUploadInput {
            bucket: "bkt".into(),
            key: "../escape".into(),
            content_type: None,
            metadata: HashMap::new(),
            content_encoding: None,
        })
        .unwrap_err();
    assert_eq!(err.code(), "InvalidObjectKey");
}

// ---- sidecars ----

#[test]
fn meta_roundtrip() {
    let disk = Disk::new();
    let sidecar = "/base/obj.fals3-meta.json";

    let original = ObjectMeta::new(
        b"hello world",
        Some("text/plain".into()),
        HashMap::from([("uid".into(), "42".into())]),
        None,
    );
    for e in original.clone().write(sidecar) {
        disk.carry_out(e).unwrap();
    }

    let loaded = match disk.answer(ObjectMeta::read(sidecar)) {
        Answer::Meta(m) => m,
        other => panic!("{other:?}"),
    };
    assert_eq!(loaded.etag, original.etag);
    assert_eq!(loaded.content_type, Some("text/plain".into()));
    assert_eq!(
        loaded.user_metadata.get("uid").map(String::as_str),
        Some("42")
    );
    assert_eq!(loaded.size, 11);
    assert_eq!(loaded.storage_class, "STANDARD");
}

#[test]
fn atomic_write_replaces_existing() {
    let disk = Disk::new();
    let sidecar = "/base/obj.fals3-meta.json";

    let m1 = ObjectMeta::new(b"v1", Some("text/plain".into()), HashMap::new(), None);
    for e in m1.write(sidecar) {
        disk.carry_out(e).unwrap();
    }

    let m2 = ObjectMeta::new(b"version2", None, HashMap::new(), None);
    for e in m2.clone().write(sidecar) {
        disk.carry_out(e).unwrap();
    }

    let loaded = match disk.answer(ObjectMeta::read(sidecar)) {
        Answer::Meta(m) => m,
        other => panic!("{other:?}"),
    };
    assert_eq!(loaded.etag, m2.etag);
    assert_eq!(loaded.size, 8);
}

// ---- what holds of the store as a whole ----

fn with_bucket() -> Local {
    let s = Local::open();
    s.create_bucket(CreateBucketInput { bucket: "bkt".into() }).unwrap();
    s
}

fn get(s: &Local, key: &str) -> Result<GetObjectOutput, Fals3Error> {
    s.get_object(GetObjectInput {
        bucket: "bkt".into(),
        key: key.into(),
        range: None,
        conditions: IfConditions::default(),
    })
}

fn delete(s: &Local, key: &str) -> Result<(), Fals3Error> {
    s.delete_object(DeleteObjectInput { bucket: "bkt".into(), key: key.into() })
}

fn list(s: &Local, prefix: Option<&str>, delimiter: Option<&str>, max: Option<u32>) -> ListObjectsV2Output {
    s.list_objects_v2(ListObjectsV2Input {
        bucket: "bkt".into(),
        prefix: prefix.map(String::from),
        delimiter: delimiter.map(String::from),
        max_keys: max,
        continuation_token: None,
    })
    .unwrap()
}

fn keys_of(out: &ListObjectsV2Output) -> Vec<String> {
    out.contents.iter().map(|e| e.key.clone()).collect()
}

fn paths_on(s: &Local) -> Vec<String> {
    s.disk.nodes.borrow().keys().map(|k| k.join("/")).collect()
}

#[test]
fn get_gives_what_was_put() {
    let s = with_bucket();
    s.disk.now.set(1234);
    s.put_object(PutObjectInput {
        bucket: "bkt".into(),
        key: "a/b".into(),
        body: b"0123456789".to_vec(),
        content_type: Some("t".into()),
        metadata: HashMap::from([("k".into(), "v".into())]),
        content_encoding: Some("gzip".into()),
        conditions: IfConditions::default(),
    })
    .unwrap();
    let got = get(&s, "a/b").unwrap();
    assert_eq!(got.body, b"0123456789");
    assert_eq!(got.meta.last_modified, 1234);
    assert_eq!(got.meta.etag, "\"781e5e245d69b566979b86e28d23f2c7\"");
    assert_eq!(got.meta.content_type, Some("t".to_string()));
    assert_eq!(got.meta.content_encoding, Some("gzip".to_string()));
    assert_eq!(got.meta.storage_class, "STANDARD");
    assert_eq!(got.meta.size, 10);
    assert_eq!(
        paths_on(&s),
        vec!["", "base", "base/bkt", "base/bkt/a", "base/bkt/a/b", "base/bkt/a/b.fals3-meta.json"]
    );
    // The last put wins.
    put(&s, "bkt", "a/b", b"new");
    assert_eq!(get(&s, "a/b").unwrap().body, b"new");
    assert_eq!(get(&s, "a/b").unwrap().meta.content_type, None);
}

#[test]
fn put_leaves_other_objects() {
    let s = with_bucket();
    s.create_bucket(CreateBucketInput { bucket: "other".into() }).unwrap();
    put(&s, "bkt", "k", b"1");
    put(&s, "other", "k", b"2");
    put(&s, "bkt", "k2", b"3");
    put(&s, "bkt", "k", b"4");
    assert_eq!(get(&s, "k2").unwrap().body, b"3");
    let other = s
        .get_object(GetObjectInput {
            bucket: "other".into(),
            key: "k".into(),
            range: None,
            conditions: IfConditions::default(),
        })
        .unwrap();
    assert_eq!(other.body, b"2");
}

#[test]
fn put_needs_room() {
    let s = with_bucket();
    put(&s, "bkt", "a", b"1");
    let code = |key: &str| {
        s.put_object(PutObjectInput {
            bucket: "bkt".into(),
            key: key.into(),
            body: vec![],
            content_type: None,
            metadata: HashMap::new(),
            content_encoding: None,
            conditions: IfConditions::default(),
        })
        .err()
        .map(|e| e.code())
    };
    assert_eq!(code("a/b"), Some("InternalError"));
    assert_eq!(code("dir/"), Some("InternalError"));
    assert_eq!(code("d/k"), None);
    assert_eq!(code("d"), Some("InternalError"));
    assert_eq!(get(&s, "a").unwrap().body, b"1");
}

#[test]
fn deleted_objects_are_gone() {
    let s = with_bucket();
    put(&s, "bkt", "a/b", b"1");
    delete(&s, "a/b").unwrap();
    assert_eq!(get(&s, "a/b").unwrap_err().code(), "NoSuchKey");
    let before = paths_on(&s);
    delete(&s, "a/b").unwrap();
    assert_eq!(paths_on(&s), before);
    assert_eq!(before, vec!["", "base", "base/bkt", "base/bkt/a"]);
    // A directory is no object.
    delete(&s, "a").unwrap();
    assert_eq!(paths_on(&s), before);
}

#[test]
fn a_directory_is_no_object() {
    let s = with_bucket();
    put(&s, "bkt", "a/b", b"1");
    assert_eq!(get(&s, "a").unwrap_err().code(), "NoSuchKey");
    assert_eq!(get(&s, "a/").unwrap_err().code(), "NoSuchKey");
    assert_eq!(get(&s, ".").unwrap_err().code(), "NoSuchKey");
    let head = s.head_object(HeadObjectInput {
        bucket: "bkt".into(),
        key: "a".into(),
        conditions: IfConditions::default(),
    });
    assert_eq!(head.unwrap_err().code(), "NoSuchKey");
    let copy = s.copy_object(CopyObjectInput {
        src_bucket: "bkt".into(),
        src_key: "a".into(),
        dst_bucket: "bkt".into(),
        dst_key: "c".into(),
        metadata_directive: None,
        source_conditions: IfConditions::default(),
    });
    assert_eq!(copy.unwrap_err().code(), "NoSuchKey");
    let before = paths_on(&s);
    delete(&s, "a").unwrap();
    delete(&s, "a/").unwrap();
    assert_eq!(paths_on(&s), before);
    assert_eq!(get(&s, "a/b").unwrap().body, b"1");
}

#[test]
fn refused_operations_change_nothing() {
    let s = with_bucket();
    put(&s, "bkt", "k", b"1");
    let before = paths_on(&s);
    assert!(s.create_bucket(CreateBucketInput { bucket: "bkt".into() }).is_err());
    assert!(s.delete_bucket(DeleteBucketInput { bucket: "bkt".into(), force: false }).is_err());
    assert_eq!(delete(&s, "../x").unwrap_err().code(), "InvalidObjectKey");
    assert_eq!(get(&s, "").unwrap_err().code(), "InvalidObjectKey");
    assert_eq!(paths_on(&s), before);
}

#[test]
fn an_object_that_leads_elsewhere_is_refused() {
    let store = Store::open("/base".to_string());
    let step = store.delete_object(DeleteObjectInput { bucket: "bkt".into(), key: "k".into() });
    let m = match step {
        Step::Ask(Query::IsDir { path }, m) => {
            assert_eq!(path, "/base/bkt");
            m
        }
        _ => panic!("no question"),
    };
    let m = match m.resume(Answer::Flag(true)) {
        Step::Ask(Query::LockExclusive { bucket }, m) => {
            assert_eq!(bucket, "bkt");
            m
        }
        _ => panic!("no lock"),
    };
    let m = match m.resume(Answer::Done) {
        Step::Ask(Query::Resolve { path }, m) => {
            assert_eq!(path, "/base/bkt/k");
            m
        }
        _ => panic!("no question"),
    };
    match m.resume(Answer::Path("/elsewhere/k".to_string())) {
        Step::Fail(Fals3Error::PathEscape { path, base }) => {
            assert_eq!(path, "/base/bkt/k");
            assert_eq!(base, "/base");
        }
        _ => panic!("not refused"),
    }
}

#[test]
fn an_answer_that_does_not_fit_is_an_internal_error() {
    let store = Store::open("/base".to_string());
    let m = match store.head_bucket(HeadBucketInput { bucket: "bkt".into() }) {
        Step::Ask(_, m) => m,
        _ => panic!("no question"),
    };
    match m.resume(Answer::Time(3)) {
        Step::Fail(e) => {
            assert_eq!(e.code(), "InternalError");
            assert_eq!(e.message(), "Internal error: the answer does not fit the question");
        }
        _ => panic!("not refused"),
    }
}

#[test]
fn a_failure_of_the_disk_is_handed_on() {
    let store = Store::open("/base".to_string());
    let m = match store.head_bucket(HeadBucketInput { bucket: "bkt".into() }) {
        Step::Ask(_, m) => m,
        _ => panic!("no question"),
    };
    match m.resume(Answer::Failed(io_error("disk full"))) {
        Step::Fail(e) => assert_eq!(e.message(), "I/O error: disk full"),
        _ => panic!("not refused"),
    }
}

#[test]
fn a_range_must_fit_the_body() {
    let s = with_bucket();
    put(&s, "bkt", "k", b"0123456789");
    put(&s, "bkt", "none", b"");
    let takes = |key: &str, range: (u64, u64)| {
        let mut step = s.store.get_object(GetObjectInput {
            bucket: "bkt".into(),
            key: key.into(),
            range: Some(range),
            conditions: IfConditions::default(),
        });
        loop {
            match step {
                Step::Ask(q, m) => {
                    let a = s.disk.answer(q);
                    if !m.can_take(&a) {
                        return false;
                    }
                    step = m.resume(a);
                }
                _ => return true,
            }
        }
    };
    assert!(takes("k", (0, 9999)));
    assert!(takes("k", (10, 10)));
    assert!(!takes("k", (11, 20)));
    assert!(!takes("k", (5, 3)));
    assert!(takes("none", (0, 0)));
    assert!(!takes("none", (1, 5)));
}

#[test]
fn a_range_of_an_empty_object_is_empty() {
    let s = with_bucket();
    put(&s, "bkt", "none", b"");
    let out = s
        .get_object(GetObjectInput {
            bucket: "bkt".into(),
            key: "none".into(),
            range: Some((0, 9)),
            conditions: IfConditions::default(),
        })
        .unwrap();
    assert_eq!(out.body, b"");
    assert_eq!(out.meta.size, 0);
}

#[test]
fn readers_share_and_writers_do_not() {
    let s = with_bucket();
    s.create_bucket(CreateBucketInput { bucket: "dst".into() }).unwrap();
    s.disk.locks.borrow_mut().clear();
    put(&s, "bkt", "k", b"1");
    get(&s, "k").unwrap();
    list(&s, None, None, None);
    s.copy_object(CopyObjectInput {
        src_bucket: "bkt".into(),
        src_key: "k".into(),
        dst_bucket: "dst".into(),
        dst_key: "k".into(),
        metadata_directive: None,
        source_conditions: IfConditions::default(),
    })
    .unwrap();
    delete(&s, "k").unwrap();
    assert_eq!(
        *s.disk.locks.borrow(),
        vec![
            "exclusive bkt",
            "shared bkt",
            "shared bkt",
            "exclusive bkt",
            "unlock",
            "exclusive dst",
            "exclusive bkt"
        ]
    );
}

#[test]
fn bodies_are_written_before_sidecars() {
    let s = with_bucket();
    let mut step = s.store.put_object(PutObjectInput {
        bucket: "bkt".into(),
        key: "a/k".into(),
        body: b"1".to_vec(),
        content_type: None,
        metadata: HashMap::new(),
        content_encoding: None,
        conditions: IfConditions::default(),
    });
    let fx = loop {
        match step {
            Step::Ask(q, m) => step = m.resume(s.disk.answer(q)),
            Step::Finish(fx, _) => break fx,
            Step::Fail(e) => panic!("{e:?}"),
        }
    };
    assert_eq!(fx.len(), 4);
    assert!(matches!(&fx[0], Effect::CreateDirAll { path } if path == "/base/bkt/a"));
    assert!(matches!(&fx[1], Effect::Write { path, .. } if path == "/base/bkt/a/k"));
    assert!(matches!(&fx[2], Effect::WriteMeta { path, .. } if path == "/base/bkt/a/k.fals3-meta.tmp"));
    assert!(matches!(&fx[3], Effect::Rename { from, to }
        if from == "/base/bkt/a/k.fals3-meta.tmp" && to == "/base/bkt/a/k.fals3-meta.json"));
}

// ---- buckets ----

#[test]
fn deleted_buckets_are_gone_with_their_objects() {
    let s = with_bucket();
    put(&s, "bkt", "a/b", b"1");
    s.delete_bucket(DeleteBucketInput { bucket: "bkt".into(), force: true }).unwrap();
    assert_eq!(paths_on(&s), vec!["", "base"]);
    assert_eq!(get(&s, "a/b").unwrap_err().code(), "NoSuchBucket");
    s.create_bucket(CreateBucketInput { bucket: "bkt".into() }).unwrap();
    assert_eq!(get(&s, "a/b").unwrap_err().code(), "NoSuchKey");
}

#[test]
fn objects_keep_a_bucket_and_directories_do_not() {
    let s = with_bucket();
    let keep = || {
        s.delete_bucket(DeleteBucketInput { bucket: "bkt".into(), force: false })
            .err()
            .map(|e| e.code())
    };
    put(&s, "bkt", "a/b.txt", b"1");
    put(&s, "bkt", "x.fals3-meta.json/y", b"2");
    assert_eq!(keep(), Some("BucketNotEmpty"));
    delete(&s, "a/b.txt").unwrap();
    assert_eq!(keep(), Some("BucketNotEmpty"));
    assert_eq!(get(&s, "x.fals3-meta.json/y").unwrap().body, b"2");
    delete(&s, "x.fals3-meta.json/y").unwrap();
    assert_eq!(keep(), None);
    let head = s.head_bucket(HeadBucketInput { bucket: "bkt".into() });
    assert_eq!(head.unwrap_err().code(), "NoSuchBucket");
}

#[test]
fn a_file_is_no_bucket() {
    let s = Local::open();
    s.disk.write("/base/bkt", b"x".to_vec()).unwrap();
    let gone = s.delete_bucket(DeleteBucketInput { bucket: "bkt".into(), force: true });
    assert_eq!(gone.unwrap_err().code(), "NoSuchBucket");
    let made = s.create_bucket(CreateBucketInput { bucket: "bkt".into() });
    assert_eq!(made.unwrap_err().code(), "BucketAlreadyExists");
    assert_eq!(s.disk.file("/base/bkt").unwrap(), b"x");
}

#[test]
fn a_sidecar_alone_keeps_no_bucket() {
    let s = with_bucket();
    s.disk.write("/base/bkt/k.fals3-meta.json", b"{}".to_vec()).unwrap();
    s.delete_bucket(DeleteBucketInput { bucket: "bkt".into(), force: false }).unwrap();
}

// ---- listings ----

#[test]
fn listings_group_by_the_first_delimiter_after_the_prefix() {
    let s = with_bucket();
    for key in ["a/1", "a/b/2", "a/b/3", "a/c/4", "z"] {
        put(&s, "bkt", key, b"x");
    }
    let out = list(&s, Some("a/"), Some("/"), None);
    assert_eq!(keys_of(&out), vec!["a/1"]);
    assert_eq!(out.common_prefixes, vec!["a/b/", "a/c/"]);
    assert_eq!(out.key_count, 3);
    let out = list(&s, None, Some("b/"), None);
    assert_eq!(out.common_prefixes, vec!["a/b/"]);
    assert_eq!(keys_of(&out), vec!["a/1", "a/c/4", "z"]);
    let out = list(&s, Some("a/"), Some(""), None);
    assert_eq!(out.common_prefixes, vec!["a/"]);
    assert_eq!(keys_of(&out), Vec::<String>::new());
}

#[test]
fn listed_entries_tell_of_their_objects() {
    let s = with_bucket();
    s.disk.now.set(77);
    put(&s, "bkt", "k", b"hello");
    let out = list(&s, None, None, None);
    let e = &out.contents[0];
    assert_eq!(e.key, "k");
    assert_eq!(e.etag, "\"5d41402abc4b2a76b9719d911017c592\"");
    assert_eq!(e.size, 5);
    assert_eq!(e.last_modified, 77);
    assert_eq!(e.storage_class, "STANDARD");
}

#[test]
fn pages_hold_no_more_than_asked_for() {
    let s = with_bucket();
    for key in ["a", "b", "c"] {
        put(&s, "bkt", key, b"x");
    }
    let out = list(&s, None, None, Some(0));
    assert_eq!(out.key_count, 0);
    assert!(!out.is_truncated && out.next_continuation_token.is_none());
    let out = list(&s, None, None, Some(3));
    assert_eq!(out.key_count, 3);
    assert!(!out.is_truncated);
    let out = list(&s, None, None, Some(2));
    assert_eq!(out.next_continuation_token, Some("62".to_string()));
    let out = list(&s, None, None, Some(5000));
    assert_eq!(out.key_count, 3);
}

#[test]
fn pages_of_common_prefixes() {
    let s = with_bucket();
    for key in ["a/1", "b/1", "c/1"] {
        put(&s, "bkt", key, b"x");
    }
    let out = list(&s, None, Some("/"), Some(2));
    assert_eq!(out.common_prefixes, vec!["a/", "b/"]);
    assert!(out.is_truncated);
    // The token names the last key that the page covers.
    assert_eq!(out.next_continuation_token, Some("622f31".to_string()));
}

#[test]
fn a_common_prefix_covers_its_keys() {
    let s = with_bucket();
    put(&s, "bkt", "a/x.txt", b"x");
    let out = list(&s, None, Some("/"), Some(1));
    assert_eq!(out.common_prefixes, vec!["a/"]);
    assert_eq!(keys_of(&out), Vec::<String>::new());
    assert_eq!(out.key_count, 1);
    assert!(!out.is_truncated);
    assert_eq!(out.next_continuation_token, None);
}

/// All pages of a listing, joined.
fn all_pages(s: &Local, delimiter: Option<&str>, max: u32) -> (Vec<String>, Vec<String>, usize) {
    let (mut keys, mut prefixes, mut count) = (Vec::new(), Vec::new(), 0);
    let mut token = None;
    loop {
        let page = s
            .list_objects_v2(ListObjectsV2Input {
                bucket: "bkt".into(),
                prefix: None,
                delimiter: delimiter.map(|d| d.to_string()),
                max_keys: Some(max),
                continuation_token: token,
            })
            .unwrap();
        assert!(page.key_count <= max);
        keys.extend(keys_of(&page));
        prefixes.extend(page.common_prefixes);
        count += 1;
        token = page.next_continuation_token;
        if token.is_none() {
            return (keys, prefixes, count);
        }
    }
}

#[test]
fn pages_with_a_delimiter_show_everything_once() {
    let s = with_bucket();
    for key in ["a", "b/1", "b/2", "b/c/3", "b0", "d/1", "ö", "é/1", "é/2", "z"] {
        put(&s, "bkt", key, b"x");
    }
    for max in 1..9 {
        let (keys, prefixes, count) = all_pages(&s, Some("/"), max);
        assert_eq!(keys, vec!["a", "b0", "z", "ö"]);
        assert_eq!(prefixes, vec!["b/", "d/", "é/"]);
        assert_eq!(count, 7usize.div_ceil(max as usize));
    }
}

#[test]
fn pages_of_keys_in_any_script_show_everything_once() {
    let s = with_bucket();
    let all = ["a", "é", "ö", "日", "語", "\u{1f600}"];
    for key in all {
        put(&s, "bkt", key, b"x");
    }
    for max in 1..7 {
        let (keys, prefixes, count) = all_pages(&s, None, max);
        assert_eq!(keys, all);
        assert!(prefixes.is_empty());
        assert_eq!(count, 6usize.div_ceil(max as usize));
    }
    // There is always one page.
    let empty = with_bucket();
    assert_eq!(all_pages(&empty, None, 3), (vec![], vec![], 1));
}

#[test]
fn keys_with_a_backslash_are_listed_as_they_are() {
    let s = with_bucket();
    put(&s, "bkt", "a\\b", b"x");
    assert_eq!(keys_of(&list(&s, None, None, None)), vec!["a\\b"]);
    assert_eq!(get(&s, "a\\b").unwrap().body, b"x");
}

#[test]
fn pages_together_show_everything_once() {
    let s = with_bucket();
    let all: Vec<String> = (0..23).map(|n| format!("dir{}/k{n}", n % 4)).collect();
    for key in &all {
        put(&s, "bkt", key, b"x");
    }
    let mut seen: Vec<String> = Vec::new();
    let mut token = None;
    loop {
        let page = s
            .list_objects_v2(ListObjectsV2Input {
                bucket: "bkt".into(),
                prefix: None,
                delimiter: None,
                max_keys: Some(5),
                continuation_token: token,
            })
            .unwrap();
        assert!(page.contents.len() <= 5);
        assert_eq!(page.is_truncated, page.next_continuation_token.is_some());
        seen.extend(keys_of(&page));
        token = page.next_continuation_token;
        if token.is_none() {
            break;
        }
    }
    let mut sorted = all.clone();
    sorted.sort();
    assert_eq!(seen, sorted);
}

#[test]
fn a_token_must_be_readable() {
    let s = with_bucket();
    let takes = |token: &str| {
        let mut step = s.store.list_objects_v2(ListObjectsV2Input {
            bucket: "bkt".into(),
            prefix: None,
            delimiter: None,
            max_keys: None,
            continuation_token: Some(token.to_string()),
        });
        loop {
            match step {
                Step::Ask(q, m) => {
                    let a = s.disk.answer(q);
                    if !m.can_take(&a) {
                        return false;
                    }
                    step = m.resume(a);
                }
                _ => return true,
            }
        }
    };
    assert!(takes("6162"));
    assert!(takes("zz"));
    assert!(!takes("616"));
    assert!(!takes("aéb"));
}

#[test]
fn a_listing_of_a_missing_bucket_is_refused() {
    let s = Local::open();
    let code = |bucket: &str| {
        s.list_objects_v2(ListObjectsV2Input {
            bucket: bucket.into(),
            prefix: None,
            delimiter: None,
            max_keys: None,
            continuation_token: None,
        })
        .unwrap_err()
        .code()
    };
    assert_eq!(code("ghost"), "NoSuchBucket");
    assert_eq!(code("G"), "InvalidBucketName");
}

// ---- copies ----

#[test]
fn a_copy_leaves_its_source() {
    let s = with_bucket();
    put(&s, "bkt", "src", b"data");
    let out = s
        .copy_object(CopyObjectInput {
            src_bucket: "bkt".into(),
            src_key: "src".into(),
            dst_bucket: "bkt".into(),
            dst_key: "sub/dst".into(),
            metadata_directive: MetadataDirective::replacing(None, Some(HashMap::new())),
            source_conditions: IfConditions::default(),
        })
        .unwrap();
    assert_eq!(out.last_modified, s.disk.now.get());
    assert_eq!(get(&s, "src").unwrap().body, b"data");
    assert_eq!(get(&s, "sub/dst").unwrap().body, b"data");
    assert_eq!(get(&s, "sub/dst").unwrap().meta.etag, out.etag);
}

#[test]
fn a_copy_is_refused_for_its_names_in_order() {
    let s = with_bucket();
    let code = |sb: &str, sk: &str, db: &str, dk: &str| {
        s.copy_object(CopyObjectInput {
            src_bucket: sb.into(),
            src_key: sk.into(),
            dst_bucket: db.into(),
            dst_key: dk.into(),
            metadata_directive: None,
            source_conditions: IfConditions::default(),
        })
        .unwrap_err()
    };
    assert!(matches!(code("S", "", "D", ""), Fals3Error::InvalidBucketName { name, .. } if name == "S"));
    assert!(matches!(code("bkt", "", "D", ""), Fals3Error::InvalidBucketName { name, .. } if name == "D"));
    assert!(matches!(code("bkt", "/s", "bkt", ""), Fals3Error::InvalidObjectKey { key, .. } if key == "/s"));
    assert!(matches!(code("bkt", "s", "bkt", ""), Fals3Error::InvalidObjectKey { key, .. } if key.is_empty()));
    assert!(matches!(code("ghost", "s", "bkt", "d"), Fals3Error::NoSuchBucket { bucket } if bucket == "ghost"));
    assert!(matches!(code("bkt", "s", "ghost", "d"), Fals3Error::NoSuchBucket { bucket } if bucket == "ghost"));
}

// ---- uploads ----

fn begin(s: &Local) -> String {
    s.create_multipart_upload(CreateMultipartUploadInput {
        bucket: "bkt".into(),
        key: "k".into(),
        content_type: None,
        metadata: HashMap::new(),
        content_encoding: None,
    })
    .unwrap()
    .upload_id
}

fn upload(s: &Local, id: &str, n: u32, body: &[u8]) -> CompletedPart {
    let out = s
        .upload_part(UploadPartInput {
            upload_id: id.into(),
            part_number: n,
            body: body.to_vec(),
        })
        .unwrap();
    CompletedPart { part_number: n, etag: out.etag }
}

#[test]
fn completing_takes_the_upload_away() {
    let s = with_bucket();
    let id = begin(&s);
    let other = begin(&s);
    assert_ne!(id, other);
    let p = upload(&s, &id, 3, b"abc");
    let q = upload(&s, &id, 10_000, b"abc");
    let unquoted = CompletedPart { part_number: 3, etag: p.etag.trim_matches('"').to_string() };
    let out = s
        .complete_multipart_upload(CompleteMultipartUploadInput {
            upload_id: id.clone(),
            parts: vec![unquoted, q],
        })
        .unwrap();
    assert_eq!(out.bucket, "bkt");
    assert_eq!(out.key, "k");
    assert_eq!(get(&s, "k").unwrap().body, b"abcabc");
    let code = s
        .upload_part(UploadPartInput { upload_id: id, part_number: 1, body: vec![] })
        .unwrap_err()
        .code();
    assert_eq!(code, "NoSuchUpload");
    // The other upload is still under way.
    assert!(s.list_parts(ListPartsInput { upload_id: other }).unwrap().parts.is_empty());
}

#[test]
fn an_upload_changes_no_object_before_it_is_complete() {
    let s = with_bucket();
    put(&s, "bkt", "k", b"old");
    let id = begin(&s);
    upload(&s, &id, 1, b"new");
    assert_eq!(get(&s, "k").unwrap().body, b"old");
    assert_eq!(keys_of(&list(&s, None, None, None)), vec!["k"]);
}

#[test]
fn a_body_without_an_etag_is_not_listed() {
    let s = with_bucket();
    let id = begin(&s);
    upload(&s, &id, 1, b"abc");
    s.disk
        .write(&format!("/base/.fals3-uploads/{id}/part-00002.bin"), b"xy".to_vec())
        .unwrap();
    let out = s.list_parts(ListPartsInput { upload_id: id }).unwrap();
    assert_eq!(out.parts.len(), 1);
    assert_eq!(out.parts[0].part_number, 1);
    assert_eq!(out.parts[0].size, 3);
    assert_eq!(out.parts[0].last_modified, s.disk.now.get());
}

#[test]
fn a_part_number_out_of_range_is_refused_on_completing() {
    let s = with_bucket();
    let id = begin(&s);
    let err = s
        .complete_multipart_upload(CompleteMultipartUploadInput {
            upload_id: id,
            parts: vec![CompletedPart { part_number: 0, etag: "x".into() }],
        })
        .unwrap_err();
    assert_eq!(err.code(), "InvalidPart");
}

#[test]
fn completing_needs_the_bucket() {
    let s = with_bucket();
    let id = begin(&s);
    let p = upload(&s, &id, 1, b"abc");
    s.delete_bucket(DeleteBucketInput { bucket: "bkt".into(), force: true }).unwrap();
    let err = s
        .complete_multipart_upload(CompleteMultipartUploadInput { upload_id: id, parts: vec![p] })
        .unwrap_err();
    assert_eq!(err.code(), "NoSuchBucket");
}

#[test]
fn parts_are_written_before_their_etags() {
    let s = with_bucket();
    let id = begin(&s);
    let mut step = s.store.upload_part(UploadPartInput {
        upload_id: id.clone(),
        part_number: 2,
        body: b"hello world".to_vec(),
    });
    let fx = loop {
        match step {
            Step::Ask(q, m) => step = m.resume(s.disk.answer(q)),
            Step::Finish(fx, _) => break fx,
            Step::Fail(e) => panic!("{e:?}"),
        }
    };
    let dir = format!("/base/.fals3-uploads/{id}");
    assert_eq!(fx.len(), 2);
    assert!(matches!(&fx[0], Effect::Write { path, bytes }
        if *path == format!("{dir}/part-00002.bin") && bytes == b"hello world"));
    assert!(matches!(&fx[1], Effect::Write { path, bytes }
        if *path == format!("{dir}/part-00002.etag")
            && bytes == b"\"5eb63bbbe01eeed093cb22bb8f5acdc3\""));
}

#[test]
fn completing_locks_the_bucket_for_writing() {
    let s = with_bucket();
    let id = begin(&s);
    let p = upload(&s, &id, 1, b"abc");
    s.disk.locks.borrow_mut().clear();
    s.complete_multipart_upload(CompleteMultipartUploadInput { upload_id: id, parts: vec![p] })
        .unwrap();
    assert_eq!(*s.disk.locks.borrow(), vec!["exclusive bkt"]);
}

#[test]
fn aborting_leaves_the_rest() {
    let s = with_bucket();
    put(&s, "bkt", "k", b"old");
    let id = begin(&s);
    let other = begin(&s);
    upload(&s, &id, 1, b"abc");
    upload(&s, &other, 4, b"defg");
    s.abort_multipart_upload(AbortMultipartUploadInput { upload_id: id.clone() }).unwrap();
    assert_eq!(s.list_parts(ListPartsInput { upload_id: id }).unwrap_err().code(), "NoSuchUpload");
    let left = s.list_parts(ListPartsInput { upload_id: other }).unwrap().parts;
    assert_eq!(left.len(), 1);
    assert_eq!(left[0].part_number, 4);
    assert_eq!(left[0].size, 4);
    assert_eq!(get(&s, "k").unwrap().body, b"old");
}

#[test]
fn other_buckets_are_left_alone() {
    let s = with_bucket();
    s.create_bucket(CreateBucketInput { bucket: "other".into() }).unwrap();
    put(&s, "bkt", "k", b"1");
    s.delete_bucket(DeleteBucketInput { bucket: "other".into(), force: true }).unwrap();
    s.head_bucket(HeadBucketInput { bucket: "bkt".into() }).unwrap();
    assert_eq!(get(&s, "k").unwrap().body, b"1");
}

#[test]
fn deleted_objects_are_not_found() {
    let s = with_bucket();
    put(&s, "bkt", "a/b", b"1");
    put(&s, "bkt", "c", b"2");
    assert_eq!(keys_of(&list(&s, None, None, None)), vec!["a/b", "c"]);
    delete(&s, "a/b").unwrap();
    assert_eq!(keys_of(&list(&s, None, None, None)), vec!["c"]);
}

#[test]
fn writes_leave_uploads_and_other_objects() {
    let s = with_bucket();
    put(&s, "bkt", "kept", b"kept");
    let id = begin(&s);
    upload(&s, &id, 7, b"part");
    put(&s, "bkt", "a/b", b"1");
    s.create_bucket(CreateBucketInput { bucket: "dst".into() }).unwrap();
    s.copy_object(CopyObjectInput {
        src_bucket: "bkt".into(),
        src_key: "a/b".into(),
        dst_bucket: "dst".into(),
        dst_key: "kept".into(),
        metadata_directive: None,
        source_conditions: IfConditions::default(),
    })
    .unwrap();
    delete(&s, "a/b").unwrap();
    s.delete_bucket(DeleteBucketInput { bucket: "dst".into(), force: true }).unwrap();
    let other = begin(&s);
    let p = upload(&s, &other, 1, b"whole");
    s.complete_multipart_upload(CompleteMultipartUploadInput {
        upload_id: other,
        parts: vec![p],
    })
    .unwrap();
    assert_eq!(get(&s, "kept").unwrap().body, b"kept");
    assert_eq!(get(&s, "k").unwrap().body, b"whole");
    let left = s.list_parts(ListPartsInput { upload_id: id }).unwrap().parts;
    assert_eq!(left.len(), 1);
    assert_eq!(left[0].part_number, 7);
    assert_eq!(left[0].etag, "\"f4c9385f1902f7334b00b9b4ecd164de\"");
}

#[test]
fn an_id_that_is_no_name_is_that_of_no_upload() {
    let s = with_bucket();
    put(&s, "bkt", "k", b"1");
    begin(&s);
    let before = paths_on(&s);
    for id in ["../bkt", "..", ".", "", "/base/bkt", "x/../../bkt", "a/b"] {
        s.abort_multipart_upload(AbortMultipartUploadInput { upload_id: id.into() }).unwrap();
        let up = s.upload_part(UploadPartInput {
            upload_id: id.into(),
            part_number: 1,
            body: vec![],
        });
        assert_eq!(up.unwrap_err().code(), "NoSuchUpload");
        let bad = s.upload_part(UploadPartInput {
            upload_id: id.into(),
            part_number: 0,
            body: vec![],
        });
        assert_eq!(bad.unwrap_err().code(), "InvalidPart");
        let parts = s.list_parts(ListPartsInput { upload_id: id.into() });
        assert_eq!(parts.unwrap_err().code(), "NoSuchUpload");
        let done = s.complete_multipart_upload(CompleteMultipartUploadInput {
            upload_id: id.into(),
            parts: vec![],
        });
        assert_eq!(done.unwrap_err().code(), "NoSuchUpload");
        assert_eq!(paths_on(&s), before);
    }
    s.head_bucket(HeadBucketInput { bucket: "bkt".into() }).unwrap();
    assert_eq!(get(&s, "k").unwrap().body, b"1");
}

#[test]
fn a_new_upload_holds_no_parts() {
    let s = with_bucket();
    put(&s, "bkt", "k", b"old");
    let id = begin(&s);
    let out = s.list_parts(ListPartsInput { upload_id: id }).unwrap();
    assert_eq!(out.bucket, "bkt");
    assert_eq!(out.key, "k");
    assert!(out.parts.is_empty());
    assert_eq!(get(&s, "k").unwrap().body, b"old");
}

#[test]
fn a_refused_completion_can_be_mended() {
    let s = with_bucket();
    put(&s, "bkt", "k", b"old");
    let id = begin(&s);
    let p = upload(&s, &id, 1, b"abc");
    let before = paths_on(&s);
    let complete = |parts| {
        s.complete_multipart_upload(CompleteMultipartUploadInput { upload_id: id.clone(), parts })
    };
    let wrong = CompletedPart { part_number: 1, etag: "other".into() };
    assert_eq!(complete(vec![wrong]).unwrap_err().code(), "InvalidPart");
    assert_eq!(complete(vec![]).unwrap_err().code(), "InvalidPart");
    assert_eq!(paths_on(&s), before);
    assert_eq!(get(&s, "k").unwrap().body, b"old");
    complete(vec![p]).unwrap();
    assert_eq!(get(&s, "k").unwrap().body, b"abc");
}

#[test]
fn begun_uploads_have_their_own_ids_and_leave_listings() {
    let s = with_bucket();
    put(&s, "bkt", "a/b", b"1");
    put(&s, "bkt", "c", b"2");
    let show = || {
        let out = list(&s, None, Some("/"), None);
        (keys_of(&out), out.common_prefixes, out.key_count)
    };
    let before = show();
    // The clock of this disk stands still.
    let mut ids: Vec<String> = (0..20).map(|_| begin(&s)).collect();
    assert!(ids.iter().all(|id| id.len() == 32));
    ids.sort();
    ids.dedup();
    assert_eq!(ids.len(), 20);
    assert_eq!(show(), before);
    assert_eq!(before, (vec!["c".to_string()], vec!["a/".to_string()], 2));
}

#[test]
fn operations_on_uploads_but_completing_take_no_lock() {
    let s = with_bucket();
    s.disk.locks.borrow_mut().clear();
    let id = begin(&s);
    upload(&s, &id, 1, b"abc");
    s.list_parts(ListPartsInput { upload_id: id.clone() }).unwrap();
    s.abort_multipart_upload(AbortMultipartUploadInput { upload_id: id }).unwrap();
    s.head_bucket(HeadBucketInput { bucket: "bkt".into() }).unwrap();
    assert!(s.disk.locks.borrow().is_empty());
}
