//! A model of the disk, and what an operation does on it when it runs alone.
//!
//! The disk is a tree of directories and files without symlinks. Nothing is said of
//! paths that go through `..`: the store asks for none where its base does not.

use crate::error::ErrorView;
use crate::exchange::EntryKind;
use crate::exchange::{AnswerView, EffectView, EntryView, QueryView, Script, TreeView};
use crate::meta::MetaView;
use crate::paths;
use crate::places;
use crate::upload::UploadView;
use vstd::prelude::*;
use vstd::utf8;

verus! {

/// What can be at a place of the disk.
pub enum Node {
    Dir,
    File(Seq<u8>),
}

/// How metadata and records are written to files and read again.
pub struct Codec {
    pub meta_bytes: spec_fn(MetaView) -> Seq<u8>,
    pub meta_in: spec_fn(Seq<u8>) -> Option<MetaView>,
    pub upload_bytes: spec_fn(UploadView) -> Seq<u8>,
    pub upload_in: spec_fn(Seq<u8>) -> Option<UploadView>,
}

impl Codec {
    /// What is written reads back, as far as there is metadata that can be written;
    /// and what is read could have been written.
    pub open spec fn is_faithful(self) -> bool {
        &&& forall|m: MetaView|
            m.user_metadata.dom().finite() ==> (self.meta_in)(#[trigger] (self.meta_bytes)(m))
                == Some(m)
        &&& forall|b: Seq<u8>|
            (#[trigger] (self.meta_in)(b)) matches Some(m) ==> m.user_metadata.dom().finite()
        &&& forall|u: UploadView|
            u.user_metadata.dom().finite() ==> (self.upload_in)(#[trigger] (self.upload_bytes)(u))
                == Some(u)
        &&& forall|b: Seq<u8>|
            (#[trigger] (self.upload_in)(b)) matches Some(u) ==> u.user_metadata.dom().finite()
    }
}

/// The disk, by the names that lead to a place, and all else that an operation
/// learns from outside.
pub struct World {
    pub nodes: Map<Seq<Seq<char>>, Node>,
    pub codec: Codec,
    pub now: u64,
    pub nanos: u128,
    pub count: u64,
    /// The canonical form of a path.
    pub resolved: spec_fn(Seq<char>) -> Seq<char>,
    /// When a file or a directory was changed, where that is known.
    pub modified: spec_fn(Seq<char>) -> Option<u64>,
    /// The size that a directory is said to have.
    pub dir_size: spec_fn(Seq<char>) -> u64,
    /// The entries of a directory, in the order in which they come.
    pub entries: spec_fn(Seq<char>) -> Seq<EntryView>,
    /// What lies under a directory, in the order in which it comes.
    pub trees: spec_fn(Seq<char>) -> Seq<TreeView>,
    /// How a question fails that the disk cannot answer.
    pub fault: spec_fn(QueryView) -> ErrorView,
}

// ---- what is on the disk ----

/// There is a directory at `p`.
pub open spec fn dir_at(nodes: Map<Seq<Seq<char>>, Node>, p: Seq<char>) -> bool {
    let ns = paths::names(p);
    nodes.contains_key(ns) && nodes[ns] is Dir
}

/// The bytes of the file at `p`, if there is one.
pub open spec fn file_at(nodes: Map<Seq<Seq<char>>, Node>, p: Seq<char>) -> Option<Seq<u8>> {
    let ns = paths::names(p);
    if nodes.contains_key(ns) && nodes[ns] is File && !places::directory_form(p) {
        Some(nodes[ns]->File_0)
    } else {
        None
    }
}

/// There is something at `p`.
pub open spec fn there(nodes: Map<Seq<Seq<char>>, Node>, p: Seq<char>) -> bool {
    dir_at(nodes, p) || file_at(nodes, p) is Some
}

/// The nodes are a tree: there is a root, and what is not the root is in a
/// directory. The names on the disk are names that a path can hold.
pub open spec fn is_tree(nodes: Map<Seq<Seq<char>>, Node>) -> bool {
    &&& nodes.contains_key(Seq::empty())
    &&& nodes[Seq::empty()] is Dir
    &&& forall|ns: Seq<Seq<char>>| #[trigger]
        nodes.contains_key(ns) ==> places::plain(ns) && places::nameable(ns) && (ns.len() > 0
            ==> nodes.contains_key(ns.drop_last()) && nodes[ns.drop_last()] is Dir)
}

/// `es` are the entries of the directory with the names `ns`, each once.
pub open spec fn lists(
    nodes: Map<Seq<Seq<char>>, Node>,
    ns: Seq<Seq<char>>,
    es: Seq<EntryView>,
) -> bool {
    &&& forall|i: int, j: int|
        0 <= i < j < es.len() ==> (#[trigger] es[i]).name != (#[trigger] es[j]).name
    &&& forall|i: int|
        0 <= i < es.len() ==> nodes.contains_key(ns.push((#[trigger] es[i]).name)) && es[i].kind == (
        if nodes[ns.push(es[i].name)] is Dir {
            EntryKind::Dir
        } else {
            EntryKind::File
        })
    &&& forall|n: Seq<char>| #[trigger]
        nodes.contains_key(ns.push(n)) ==> exists|i: int|
            0 <= i < es.len() && (#[trigger] es[i]).name == n
}

/// `ts` is what lies under the directory with the names `ns`.
pub open spec fn depicts(
    nodes: Map<Seq<Seq<char>>, Node>,
    ns: Seq<Seq<char>>,
    ts: Seq<TreeView>,
) -> bool
    decreases ts,
{
    &&& forall|i: int, j: int|
        0 <= i < j < ts.len() ==> (#[trigger] ts[i]).name() != (#[trigger] ts[j]).name()
    &&& forall|i: int| 0 <= i < ts.len() ==> depicts_one(nodes, ns, #[trigger] ts[i])
    &&& forall|n: Seq<char>| #[trigger]
        nodes.contains_key(ns.push(n)) ==> exists|i: int|
            0 <= i < ts.len() && (#[trigger] ts[i]).name() == n
}

/// `t` is one entry of the directory with the names `ns`, and what lies under it.
pub open spec fn depicts_one(
    nodes: Map<Seq<Seq<char>>, Node>,
    ns: Seq<Seq<char>>,
    t: TreeView,
) -> bool
    decreases t,
{
    &&& nodes.contains_key(ns.push(t.name()))
    &&& match t {
        TreeView::File { name } => nodes[ns.push(name)] is File,
        TreeView::Dir { name, entries } => nodes[ns.push(name)] is Dir && depicts(
            nodes,
            ns.push(name),
            entries,
        ),
        TreeView::Other { .. } => false,
    }
}

impl World {
    /// The world is consistent: the disk is a tree, it tells the truth about
    /// itself, its failures are failures of input and output, and what is written
    /// reads back.
    pub open spec fn is_valid(self) -> bool {
        &&& is_tree(self.nodes)
        &&& self.codec.is_faithful()
        &&& forall|p: Seq<char>|
            there(self.nodes, p) ==> paths::components(#[trigger] (self.resolved)(p)) == seq![
                "/"@,
            ] + paths::names(p)
        &&& forall|p: Seq<char>|
            dir_at(self.nodes, p) ==> lists(
                self.nodes,
                paths::names(p),
                #[trigger] (self.entries)(p),
            )
        &&& forall|p: Seq<char>|
            dir_at(self.nodes, p) ==> depicts(
                self.nodes,
                paths::names(p),
                #[trigger] (self.trees)(p),
            )
        &&& forall|q: QueryView| (#[trigger] (self.fault)(q)) is Io || (self.fault)(q) is Json
    }

    /// The base directory of a store is there, under its canonical path.
    pub open spec fn has_base(self, base: Seq<char>) -> bool {
        paths::is_absolute(base) && dir_at(self.nodes, base)
    }

    // ---- questions ----

    /// What the disk answers.
    pub open spec fn answer(self, q: QueryView) -> AnswerView {
        let failed = AnswerView::Failed((self.fault)(q));
        match q {
            QueryView::LockShared { .. } => AnswerView::Done,
            QueryView::LockExclusive { .. } => AnswerView::Done,
            QueryView::Unlock => AnswerView::Done,
            QueryView::IsDir { path } => AnswerView::Flag(dir_at(self.nodes, path)),
            QueryView::IsFile { path } => AnswerView::Flag(file_at(self.nodes, path) is Some),
            QueryView::Exists { path } => AnswerView::Flag(there(self.nodes, path)),
            QueryView::Resolve { path } => if there(self.nodes, path) {
                AnswerView::Path((self.resolved)(path))
            } else {
                failed
            },
            QueryView::ReadBytes { path } => match file_at(self.nodes, path) {
                Some(bytes) => AnswerView::Bytes(bytes),
                None => failed,
            },
            QueryView::ReadText { path } => match file_at(self.nodes, path) {
                Some(bytes) => if utf8::valid_utf8(bytes) {
                    AnswerView::Text(utf8::decode_utf8(bytes))
                } else {
                    failed
                },
                None => failed,
            },
            QueryView::ReadMeta { path } => match file_at(self.nodes, path) {
                Some(bytes) => match (self.codec.meta_in)(bytes) {
                    Some(m) => AnswerView::Meta(m),
                    None => failed,
                },
                None => failed,
            },
            QueryView::ReadUpload { path } => match file_at(self.nodes, path) {
                Some(bytes) => match (self.codec.upload_in)(bytes) {
                    Some(u) => AnswerView::Upload(u),
                    None => failed,
                },
                None => failed,
            },
            QueryView::ReadDir { path } => if dir_at(self.nodes, path) {
                AnswerView::Entries((self.entries)(path))
            } else {
                failed
            },
            QueryView::ReadTree { path } => if dir_at(self.nodes, path) {
                AnswerView::Tree((self.trees)(path))
            } else {
                failed
            },
            QueryView::Stat { path } => match file_at(self.nodes, path) {
                Some(bytes) => AnswerView::Stat {
                    size: bytes.len() as u64,
                    modified: (self.modified)(path),
                },
                None => if dir_at(self.nodes, path) {
                    AnswerView::Stat {
                        size: (self.dir_size)(path),
                        modified: (self.modified)(path),
                    }
                } else {
                    failed
                },
            },
            QueryView::Now => AnswerView::Time(self.now),
            QueryView::Seed => AnswerView::Seed { nanos: self.nanos, count: self.count },
        }
    }
}

// ---- effects ----

/// A file can be written at `p`.
pub open spec fn is_writable(nodes: Map<Seq<Seq<char>>, Node>, p: Seq<char>) -> bool {
    let ns = paths::names(p);
    &&& !places::directory_form(p)
    &&& places::plain(ns)
    &&& ns.len() > 0
    &&& nodes.contains_key(ns.drop_last()) && nodes[ns.drop_last()] is Dir
    &&& !(nodes.contains_key(ns) && nodes[ns] is Dir)
}

/// The disk with a file written at `p`.
pub open spec fn written(
    nodes: Map<Seq<Seq<char>>, Node>,
    p: Seq<char>,
    bytes: Seq<u8>,
) -> Option<Map<Seq<Seq<char>>, Node>> {
    if is_writable(nodes, p) {
        Some(nodes.insert(paths::names(p), Node::File(bytes)))
    } else {
        None
    }
}

/// No file stands in the way of a directory with the names `ns`.
pub open spec fn is_clear(nodes: Map<Seq<Seq<char>>, Node>, ns: Seq<Seq<char>>) -> bool {
    forall|q: Seq<Seq<char>>|
        #![trigger nodes.contains_key(q)]
        q.is_prefix_of(ns) && nodes.contains_key(q) ==> nodes[q] is Dir
}

/// The disk with all directories on the way to `ns`.
pub open spec fn with_dirs(nodes: Map<Seq<Seq<char>>, Node>, ns: Seq<Seq<char>>) -> Map<
    Seq<Seq<char>>,
    Node,
> {
    Map::new(
        |q: Seq<Seq<char>>| nodes.contains_key(q) || q.is_prefix_of(ns),
        |q: Seq<Seq<char>>|
            if nodes.contains_key(q) {
                nodes[q]
            } else {
                Node::Dir
            },
    )
}

/// The disk without what is at `ns` and all that lies under it.
pub open spec fn without(nodes: Map<Seq<Seq<char>>, Node>, ns: Seq<Seq<char>>) -> Map<
    Seq<Seq<char>>,
    Node,
> {
    nodes.restrict(Set::new(|q: Seq<Seq<char>>| !ns.is_prefix_of(q)))
}

/// The disk after an effect; nothing where the effect fails.
pub open spec fn affected(
    codec: Codec,
    nodes: Map<Seq<Seq<char>>, Node>,
    e: EffectView,
) -> Option<Map<Seq<Seq<char>>, Node>> {
    match e {
        EffectView::CreateDirAll { path } => {
            let ns = paths::names(path);
            if places::plain(ns) && is_clear(nodes, ns) {
                Some(with_dirs(nodes, ns))
            } else {
                None
            }
        },
        EffectView::Write { path, bytes } => written(nodes, path, bytes),
        EffectView::WriteMeta { path, meta } => written(nodes, path, (codec.meta_bytes)(meta)),
        EffectView::WriteUpload { path, upload } => written(
            nodes,
            path,
            (codec.upload_bytes)(upload),
        ),
        EffectView::Rename { from, to } => match file_at(nodes, from) {
            Some(bytes) => match written(nodes, to, bytes) {
                Some(n) => if paths::names(from) == paths::names(to) {
                    Some(n)
                } else {
                    Some(n.remove(paths::names(from)))
                },
                None => None,
            },
            None => None,
        },
        EffectView::RemoveFile { path } => if file_at(nodes, path) is Some {
            Some(nodes.remove(paths::names(path)))
        } else {
            None
        },
        EffectView::RemoveDirAll { path } => if dir_at(nodes, path) && paths::names(path).len()
            > 0 {
            Some(without(nodes, paths::names(path)))
        } else {
            None
        },
        EffectView::DiscardDirAll { path } => if dir_at(nodes, path) && paths::names(path).len()
            > 0 {
            Some(without(nodes, paths::names(path)))
        } else {
            Some(nodes)
        },
    }
}

/// The disk after a list of effects; nothing where one of them fails.
pub open spec fn carried_out(
    codec: Codec,
    nodes: Map<Seq<Seq<char>>, Node>,
    fx: Seq<EffectView>,
) -> Option<Map<Seq<Seq<char>>, Node>>
    decreases fx.len(),
{
    if fx.len() == 0 {
        Some(nodes)
    } else {
        match affected(codec, nodes, fx[0]) {
            Some(n) => carried_out(codec, n, fx.drop_first()),
            None => None,
        }
    }
}

// ---- runs ----

/// How an operation ends.
#[verifier::reject_recursive_types(T)]
pub enum End<T> {
    /// It succeeded, with this disk and this output.
    Done(Map<Seq<Seq<char>>, Node>, T),
    /// It was refused, and the disk is as before.
    Refused(ErrorView),
    /// The disk failed to carry out an effect.
    Broken,
}

impl World {
    /// How a script ends in this world.
    pub open spec fn run<T>(self, s: Script<T>) -> End<T>
        decreases s,
    {
        match s {
            Script::Ask(q, k) => self.run(k(self.answer(q))),
            Script::Finish(fx, out) => match carried_out(self.codec, self.nodes, fx) {
                Some(nodes) => End::Done(nodes, out),
                None => End::Broken,
            },
            Script::Fail(e) => End::Refused(e),
        }
    }

    /// The disk that a script leaves behind; nothing is known of it where an effect
    /// fails.
    pub open spec fn left_by<T>(self, s: Script<T>) -> Option<Map<Seq<Seq<char>>, Node>> {
        match self.run(s) {
            End::Done(nodes, _) => Some(nodes),
            End::Refused(_) => Some(self.nodes),
            End::Broken => None,
        }
    }
}

} // verus!
