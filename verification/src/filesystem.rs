//! Filesystem: `wasi:filesystem/types`, simulated in memory.
//!
//! - descriptors, directory entries and file stats
//! - open-at, reads and writes through a descriptor's cursor
//! - stat and stat-at, readdir (sorted by name)
//! - create-directory (with parents), unlink, remove-directory, rename
//!
//! The file tree is a vector of nodes; a directory maps entry names to node
//! indices. Paths are split on `/`, empty parts are skipped, and each part
//! is looked up from the directory the walk has reached.

use vstd::prelude::*;
use std::collections::HashMap;
use crate::assoc::{
    keys_distinct, lemma_assoc_len, named_entries, named_get, named_map, named_put, named_remove,
};
use crate::text::{chars_of, owned, push_char, seq_lt};

verus! {

broadcast use vstd::std_specs::hash::group_hash_axioms;

// ═════════════════════════════════════════════════════════════════════
// Types
// ═════════════════════════════════════════════════════════════════════

/// A file descriptor handle.
pub type Descriptor = u32;

/// File types.
#[derive(Debug, Clone, Copy, PartialEq, Eq, Structural)]
pub enum FileType {
    Unknown,
    BlockDevice,
    CharacterDevice,
    Directory,
    RegularFile,
    SymbolicLink,
    SocketStream,
    SocketDgram,
}

/// The text of a file type.
pub open spec fn file_type_text(t: FileType) -> Seq<char> {
    match t {
        FileType::Unknown => "unknown"@,
        FileType::BlockDevice => "block-device"@,
        FileType::CharacterDevice => "character-device"@,
        FileType::Directory => "directory"@,
        FileType::RegularFile => "regular-file"@,
        FileType::SymbolicLink => "symbolic-link"@,
        FileType::SocketStream => "socket-stream"@,
        FileType::SocketDgram => "socket-dgram"@,
    }
}

impl FileType {
    /// The text of this file type.
    pub fn to_string(&self) -> (s: String)
        ensures
            s@ == file_type_text(*self),
    {
        match self {
            FileType::Unknown => owned("unknown"),
            FileType::BlockDevice => owned("block-device"),
            FileType::CharacterDevice => owned("character-device"),
            FileType::Directory => owned("directory"),
            FileType::RegularFile => owned("regular-file"),
            FileType::SymbolicLink => owned("symbolic-link"),
            FileType::SocketStream => owned("socket-stream"),
            FileType::SocketDgram => owned("socket-dgram"),
        }
    }
}

/// File stat information.
#[derive(Debug, Clone, PartialEq)]
pub struct FileStat {
    /// Device number.
    pub device: u64,
    /// Inode number.
    pub inode: u64,
    /// File type.
    pub filetype: FileType,
    /// Number of hard links.
    pub nlink: u64,
    /// File size in bytes.
    pub size: u64,
    /// Last data access timestamp.
    pub data_access_timestamp: u64,
    /// Last data modification timestamp.
    pub data_modification_timestamp: u64,
    /// Last status change timestamp.
    pub status_change_timestamp: u64,
}

/// A directory entry.
#[derive(Debug, Clone, PartialEq)]
pub struct DirectoryEntry {
    /// File type.
    pub filetype: FileType,
    /// Entry name.
    pub name: String,
}

/// Open flags.
#[derive(Debug, Clone, Copy, Default)]
pub struct OpenFlags {
    /// Create the file if it does not exist.
    pub create: bool,
    /// Fail if not a directory (and create a directory with `create`).
    pub directory: bool,
    /// Fail if the file exists.
    pub exclusive: bool,
    /// Truncate the file to zero length.
    pub truncate: bool,
}

/// Descriptor flags (permissions and modes).
#[derive(Debug, Clone, Copy, Default)]
pub struct DescriptorFlags {
    /// Allow reads.
    pub read: bool,
    /// Allow writes.
    pub write: bool,
    /// Synchronous data and metadata integrity.
    pub sync: bool,
    /// Synchronous data integrity.
    pub dsync: bool,
    /// Non-blocking I/O.
    pub nonblock: bool,
    /// Append-only writes.
    pub append: bool,
}

/// Filesystem errors.
#[derive(Debug, Clone, Copy, PartialEq, Eq, Structural)]
pub enum FsError {
    /// Permission denied.
    Access,
    /// Would block.
    WouldBlock,
    /// Already exists.
    Exist,
    /// Invalid argument.
    Invalid,
    /// Too many open files.
    Nfile,
    /// No such file or directory.
    NoEntry,
    /// Not a directory.
    NotDir,
    /// Directory not empty.
    NotEmpty,
    /// Not supported.
    NotSupported,
    /// I/O error.
    Io,
    /// File too large.
    Fbig,
    /// No space left.
    NoSpace,
    /// Is a directory.
    IsDir,
    /// Bad descriptor.
    BadDescriptor,
}

/// The text of a filesystem error.
pub open spec fn fs_error_text(e: FsError) -> Seq<char> {
    match e {
        FsError::Access => "access denied"@,
        FsError::WouldBlock => "would block"@,
        FsError::Exist => "already exists"@,
        FsError::Invalid => "invalid argument"@,
        FsError::Nfile => "too many open files"@,
        FsError::NoEntry => "no such file or directory"@,
        FsError::NotDir => "not a directory"@,
        FsError::NotEmpty => "directory not empty"@,
        FsError::NotSupported => "not supported"@,
        FsError::Io => "I/O error"@,
        FsError::Fbig => "file too large"@,
        FsError::NoSpace => "no space left"@,
        FsError::IsDir => "is a directory"@,
        FsError::BadDescriptor => "bad descriptor"@,
    }
}

impl FsError {
    /// The text of this error.
    pub fn to_string(&self) -> (s: String)
        ensures
            s@ == fs_error_text(*self),
    {
        match self {
            FsError::Access => owned("access denied"),
            FsError::WouldBlock => owned("would block"),
            FsError::Exist => owned("already exists"),
            FsError::Invalid => owned("invalid argument"),
            FsError::Nfile => owned("too many open files"),
            FsError::NoEntry => owned("no such file or directory"),
            FsError::NotDir => owned("not a directory"),
            FsError::NotEmpty => owned("directory not empty"),
            FsError::NotSupported => owned("not supported"),
            FsError::Io => owned("I/O error"),
            FsError::Fbig => owned("file too large"),
            FsError::NoSpace => owned("no space left"),
            FsError::IsDir => owned("is a directory"),
            FsError::BadDescriptor => owned("bad descriptor"),
        }
    }
}

// ═════════════════════════════════════════════════════════════════════
// Paths
// ═════════════════════════════════════════════════════════════════════

/// One character of a path scan: a `/` closes the current part (kept
/// only when non-empty), any other character extends it.
pub open spec fn split_step(acc: (Seq<Seq<char>>, Seq<char>), c: char) -> (
    Seq<Seq<char>>,
    Seq<char>,
) {
    if c == '/' {
        if acc.1.len() > 0 {
            (acc.0.push(acc.1), Seq::empty())
        } else {
            (acc.0, Seq::empty())
        }
    } else {
        (acc.0, acc.1.push(c))
    }
}

/// The closed parts and the open part after scanning `s`.
pub open spec fn split_scan(s: Seq<char>) -> (Seq<Seq<char>>, Seq<char>)
    decreases s.len(),
{
    if s.len() == 0 {
        (Seq::empty(), Seq::empty())
    } else {
        split_step(split_scan(s.drop_last()), s.last())
    }
}

/// The non-empty parts of a path between its `/` separators, in order.
pub open spec fn path_components(s: Seq<char>) -> Seq<Seq<char>> {
    let acc = split_scan(s);
    if acc.1.len() > 0 {
        acc.0.push(acc.1)
    } else {
        acc.0
    }
}

/// The texts of a sequence of strings.
pub open spec fn strs(v: Seq<String>) -> Seq<Seq<char>> {
    v.map_values(|s: String| s@)
}

/// Splits a path into its non-empty parts.
pub fn split_path(path: &str) -> (parts: Vec<String>)
    ensures
        strs(parts@) == path_components(path@),
{
    let cs = chars_of(path);
    let mut done: Vec<String> = Vec::new();
    let mut cur = String::new();
    let mut i: usize = 0;
    while i < cs.len()
        invariant
            i <= cs@.len(),
            cs@ == path@,
            (strs(done@), cur@) == split_scan(cs@.subrange(0, i as int)),
        decreases cs@.len() - i,
    {
        let c = cs[i];
        proof {
            assert(cs@.subrange(0, i + 1).drop_last() =~= cs@.subrange(0, i as int));
        }
        if c == '/' {
            if !cur.as_str().is_empty() {
                let part = cur;
                cur = String::new();
                done.push(part);
                proof {
                    assert(strs(done@) =~= strs(done@.drop_last()).push(part@));
                }
            } else {
                cur = String::new();
            }
        } else {
            push_char(&mut cur, c);
        }
        proof {
            assert(cur@ =~= split_scan(cs@.subrange(0, i + 1)).1);
            assert(strs(done@) =~= split_scan(cs@.subrange(0, i + 1)).0);
        }
        i = i + 1;
    }
    proof {
        assert(cs@.subrange(0, cs@.len() as int) =~= cs@);
    }
    if !cur.as_str().is_empty() {
        let ghost before = done@;
        done.push(cur);
        proof {
            assert(strs(done@) =~= strs(before).push(split_scan(path@).1));
        }
    }
    done
}

// ═════════════════════════════════════════════════════════════════════
// The model
// ═════════════════════════════════════════════════════════════════════

/// What a node of the file tree holds.
pub enum NodeView {
    /// A regular file: its bytes and timestamps.
    File { data: Seq<u8>, created: u64, modified: u64 },
    /// A directory: entry names to node indices, and its creation time.
    Dir { entries: Map<Seq<char>, usize>, created: u64 },
}

/// The state of a filesystem.
pub struct FsView {
    /// The nodes, by index; node 0 is the root directory.
    pub nodes: Seq<NodeView>,
    /// The open descriptors: node index and cursor.
    pub fds: Map<u32, (usize, u64)>,
    /// The descriptor the next open gets.
    pub next_fd: u32,
    /// The simulated clock.
    pub clock: u64,
}

/// Every entry of a directory names a node of the tree.
pub open spec fn entries_in_range(n: NodeView, len: int) -> bool {
    match n {
        NodeView::Dir { entries, .. } => forall|k: Seq<char>|
            #[trigger] entries.contains_key(k) ==> entries[k] < len,
        NodeView::File { .. } => true,
    }
}

/// The invariant of a filesystem state: there is a root, entries and
/// descriptors point at nodes, descriptors are below the next one, and
/// cursors fit in memory.
pub open spec fn fs_wf(s: FsView) -> bool {
    &&& s.nodes.len() >= 1
    &&& forall|i: int| 0 <= i < s.nodes.len() ==> entries_in_range(#[trigger] s.nodes[i], s.nodes.len() as int)
    &&& forall|fd: u32| #[trigger] s.fds.contains_key(fd) ==> {
        &&& fd < s.next_fd
        &&& s.fds[fd].0 < s.nodes.len()
        &&& s.fds[fd].1 <= usize::MAX
    }
}

/// Walks `comps` from node `cur`: each part is looked up in the directory
/// reached so far.
pub open spec fn walk(nodes: Seq<NodeView>, cur: int, comps: Seq<Seq<char>>) -> Result<int, FsError>
    decreases comps.len(),
{
    if comps.len() == 0 {
        Ok(cur)
    } else {
        match nodes[cur] {
            NodeView::Dir { entries, .. } => if entries.contains_key(comps[0]) {
                walk(nodes, entries[comps[0]] as int, comps.drop_first())
            } else {
                Err(FsError::NoEntry)
            },
            NodeView::File { .. } => Err(FsError::NotDir),
        }
    }
}

/// The directory that holds the last part of a path, and that part.
pub open spec fn parent_of(nodes: Seq<NodeView>, dir: int, comps: Seq<Seq<char>>) -> Result<
    (int, Seq<char>),
    FsError,
> {
    if comps.len() == 0 {
        Err(FsError::Invalid)
    } else {
        match walk(nodes, dir, comps.drop_last()) {
            Ok(p) => Ok((p, comps.last())),
            Err(e) => Err(e),
        }
    }
}

/// A node with one more entry (a file is left as it is).
pub open spec fn with_entry(n: NodeView, name: Seq<char>, idx: usize) -> NodeView {
    match n {
        NodeView::Dir { entries, created } => NodeView::Dir { entries: entries.insert(name, idx), created },
        NodeView::File { .. } => n,
    }
}

/// A node without the entry `name` (a file is left as it is).
pub open spec fn without_entry(n: NodeView, name: Seq<char>) -> NodeView {
    match n {
        NodeView::Dir { entries, created } => NodeView::Dir { entries: entries.remove(name), created },
        NodeView::File { .. } => n,
    }
}

// ═════════════════════════════════════════════════════════════════════
// Nodes
// ═════════════════════════════════════════════════════════════════════

#[derive(Debug)]
enum FsNode {
    File { data: Vec<u8>, created: u64, modified: u64 },
    Directory { entries: Vec<(String, usize)>, created: u64 },
}

spec fn node_view(n: FsNode) -> NodeView {
    match n {
        FsNode::File { data, created, modified } => NodeView::File { data: data@, created, modified },
        FsNode::Directory { entries, created } => NodeView::Dir { entries: named_map(entries@), created },
    }
}

spec fn node_ok(n: FsNode) -> bool {
    match n {
        FsNode::Directory { entries, .. } => keys_distinct(named_entries(entries@)),
        FsNode::File { .. } => true,
    }
}

fn node_add_entry(n: &mut FsNode, name: String, idx: usize)
    requires
        node_ok(*old(n)),
    ensures
        node_ok(*final(n)),
        node_view(*final(n)) == with_entry(node_view(*old(n)), name@, idx),
{
    match n {
        FsNode::Directory { entries, .. } => {
            named_put(entries, name, idx);
        },
        FsNode::File { .. } => {},
    }
}

fn node_remove_entry(n: &mut FsNode, name: &str)
    requires
        node_ok(*old(n)),
    ensures
        node_ok(*final(n)),
        node_view(*final(n)) == without_entry(node_view(*old(n)), name@),
{
    match n {
        FsNode::Directory { entries, .. } => {
            named_remove(entries, name);
        },
        FsNode::File { .. } => {},
    }
}


fn overwrite_bytes(data: Vec<u8>, at: usize, bytes: &[u8]) -> (r: Vec<u8>)
    requires
        at + bytes@.len() <= usize::MAX,
    ensures
        r@ == overwrite(data@, at as int, bytes@),
{
    let mut d = data;
    let ghost old_d = d@;
    let end = at + bytes.len();
    while d.len() < end
        invariant
            old_d.len() <= d@.len() <= if end > old_d.len() { end as int } else { old_d.len() as int },
            d@.subrange(0, old_d.len() as int) == old_d,
            forall|i: int| old_d.len() <= i < d@.len() ==> d@[i] == 0u8,
        decreases end - d@.len(),
    {
        d.push(0u8);
        assert(d@.subrange(0, old_d.len() as int) =~= old_d);
    }
    let mut k: usize = 0;
    let ghost len0 = d@.len();
    while k < bytes.len()
        invariant
            end == at + bytes@.len(),
            end <= len0,
            d@.len() == len0,
            len0 == if at + bytes@.len() > old_d.len() { at + bytes@.len() } else { old_d.len() as int },
            k <= bytes@.len(),
            forall|i: int|
                0 <= i < len0 ==> #[trigger] d@[i] == if at <= i < at + k {
                    bytes@[i - at]
                } else if i < old_d.len() {
                    old_d[i]
                } else {
                    0u8
                },
        decreases bytes@.len() - k,
    {
        d.set(at + k, bytes[k]);
        k = k + 1;
    }
    assert(d@ =~= overwrite(old_d, at as int, bytes@));
    d
}

spec fn nodes_ok(ns: Seq<FsNode>) -> bool {
    forall|i: int| 0 <= i < ns.len() ==> node_ok(#[trigger] ns[i])
}

proof fn lemma_in_range_grow(n: NodeView, a: int, b: int)
    requires
        entries_in_range(n, a),
        a <= b,
    ensures
        entries_in_range(n, b),
{
}

// ═════════════════════════════════════════════════════════════════════
// State changes
// ═════════════════════════════════════════════════════════════════════

/// A state with other nodes.
pub open spec fn with_nodes(s: FsView, nodes: Seq<NodeView>) -> FsView {
    FsView { nodes, fds: s.fds, next_fd: s.next_fd, clock: s.clock }
}

/// A new descriptor on `node`, with its cursor at 0.
pub open spec fn alloc_view(s: FsView, node: int) -> FsView {
    FsView {
        nodes: s.nodes,
        fds: s.fds.insert(s.next_fd, (node as usize, 0u64)),
        next_fd: (s.next_fd + 1) as u32,
        clock: s.clock,
    }
}

/// A file emptied of its bytes (timestamps kept); a directory unchanged.
pub open spec fn truncated(n: NodeView) -> NodeView {
    match n {
        NodeView::File { created, modified, .. } => NodeView::File {
            data: Seq::empty(),
            created,
            modified,
        },
        NodeView::Dir { .. } => n,
    }
}

/// A fresh node made at time `ts`: a directory or an empty file.
pub open spec fn fresh_node(directory: bool, ts: u64) -> NodeView {
    if directory {
        NodeView::Dir { entries: Map::empty(), created: ts }
    } else {
        NodeView::File { data: Seq::empty(), created: ts, modified: ts }
    }
}

/// What `open_at` does: the new state and the result.
///
/// An existing path is opened (refused with `exclusive`, or when
/// `directory` asks for a directory and finds a file; emptied first with
/// `truncate`). A missing path with `create` gets a fresh node, linked
/// into the directory that holds its last part.
pub open spec fn open_at_spec(s: FsView, dir_fd: u32, path: Seq<char>, flags: OpenFlags) -> (
    FsView,
    Result<u32, FsError>,
) {
    if !s.fds.contains_key(dir_fd) {
        (s, Err(FsError::BadDescriptor))
    } else {
        let dir = s.fds[dir_fd].0 as int;
        let comps = path_components(path);
        match walk(s.nodes, dir, comps) {
            Ok(n) => if flags.exclusive {
                (s, Err(FsError::Exist))
            } else if flags.directory && s.nodes[n] is File {
                (s, Err(FsError::NotDir))
            } else {
                let s1 = if flags.truncate {
                    with_nodes(s, s.nodes.update(n, truncated(s.nodes[n])))
                } else {
                    s
                };
                (alloc_view(s1, n), Ok(s.next_fd))
            },
            Err(e) => if e == FsError::NoEntry && flags.create {
                let ts = (s.clock + 1) as u64;
                let idx = s.nodes.len() as usize;
                let nodes1 = s.nodes.push(fresh_node(flags.directory, ts));
                match parent_of(s.nodes, dir, comps) {
                    Ok(pn) => {
                        let s2 = FsView {
                            nodes: nodes1.update(pn.0, with_entry(nodes1[pn.0], pn.1, idx)),
                            fds: s.fds,
                            next_fd: s.next_fd,
                            clock: ts,
                        };
                        (alloc_view(s2, idx as int), Ok(s.next_fd))
                    },
                    Err(e2) => (
                        FsView { nodes: nodes1, fds: s.fds, next_fd: s.next_fd, clock: ts },
                        Err(e2),
                    ),
                }
            } else {
                (s, Err(e))
            },
        }
    }
}

/// When a read does not panic: the cursor lies within the file and the
/// end of the requested range fits in memory.
pub open spec fn read_pre(s: FsView, fd: u32, len: u64) -> bool {
    s.fds.contains_key(fd) ==> match s.nodes[s.fds[fd].0 as int] {
        NodeView::File { data, .. } => s.fds[fd].1 <= data.len() && s.fds[fd].1 + len <= usize::MAX,
        NodeView::Dir { .. } => true,
    }
}

/// What `read` does: up to `len` bytes from the cursor, which moves past
/// them.
pub open spec fn read_spec(s: FsView, fd: u32, len: u64) -> (FsView, Result<Seq<u8>, FsError>) {
    if !s.fds.contains_key(fd) {
        (s, Err(FsError::BadDescriptor))
    } else {
        let n = s.fds[fd].0;
        let cur = s.fds[fd].1;
        match s.nodes[n as int] {
            NodeView::File { data, .. } => {
                let end = if cur + len < data.len() {
                    cur + len
                } else {
                    data.len() as int
                };
                (
                    FsView {
                        nodes: s.nodes,
                        fds: s.fds.insert(fd, (n, end as u64)),
                        next_fd: s.next_fd,
                        clock: s.clock,
                    },
                    Ok(data.subrange(cur as int, end)),
                )
            },
            NodeView::Dir { .. } => (s, Err(FsError::IsDir)),
        }
    }
}

/// `data` with `bytes` written at `at`, grown with zeros if needed.
pub open spec fn overwrite(data: Seq<u8>, at: int, bytes: Seq<u8>) -> Seq<u8> {
    let len = if at + bytes.len() > data.len() {
        at + bytes.len()
    } else {
        data.len() as int
    };
    Seq::new(
        len as nat,
        |i: int|
            if at <= i < at + bytes.len() {
                bytes[i - at]
            } else if i < data.len() {
                data[i]
            } else {
                0u8
            },
    )
}

/// When a write does not overflow: the clock can tick and the end of the
/// written range fits in memory.
pub open spec fn write_pre(s: FsView, fd: u32, bytes: Seq<u8>) -> bool {
    s.fds.contains_key(fd) ==> {
        &&& s.clock < u64::MAX
        &&& s.fds[fd].1 + bytes.len() <= usize::MAX
    }
}

/// What `write` does: the bytes go at the cursor, which moves past them;
/// the file's modification time is the new clock.
pub open spec fn write_spec(s: FsView, fd: u32, bytes: Seq<u8>) -> (FsView, Result<u64, FsError>) {
    if !s.fds.contains_key(fd) {
        (s, Err(FsError::BadDescriptor))
    } else {
        let n = s.fds[fd].0;
        let cur = s.fds[fd].1;
        let ts = (s.clock + 1) as u64;
        match s.nodes[n as int] {
            NodeView::File { data, created, .. } => (
                FsView {
                    nodes: s.nodes.update(
                        n as int,
                        NodeView::File { data: overwrite(data, cur as int, bytes), created, modified: ts },
                    ),
                    fds: s.fds.insert(fd, (n, (cur + bytes.len()) as u64)),
                    next_fd: s.next_fd,
                    clock: ts,
                },
                Ok(bytes.len() as u64),
            ),
            NodeView::Dir { .. } => (
                FsView { nodes: s.nodes, fds: s.fds, next_fd: s.next_fd, clock: ts },
                Err(FsError::IsDir),
            ),
        }
    }
}

/// The link count of every directory fits in a `u64`.
pub open spec fn node_links_fit(n: NodeView) -> bool {
    match n {
        NodeView::Dir { entries, .. } => entries.dom().len() + 2 <= u64::MAX,
        NodeView::File { .. } => true,
    }
}

/// The link counts of all directories fit in a `u64`.
pub open spec fn links_fit(s: FsView) -> bool {
    forall|i: int| 0 <= i < s.nodes.len() ==> node_links_fit(#[trigger] s.nodes[i])
}

/// The stat of node `idx`.
pub open spec fn stat_of(n: NodeView, idx: int) -> FileStat {
    match n {
        NodeView::File { data, created, modified } => FileStat {
            device: 0,
            inode: idx as u64,
            filetype: FileType::RegularFile,
            nlink: 1,
            size: data.len() as u64,
            data_access_timestamp: modified,
            data_modification_timestamp: modified,
            status_change_timestamp: created,
        },
        NodeView::Dir { entries, created } => FileStat {
            device: 0,
            inode: idx as u64,
            filetype: FileType::Directory,
            nlink: (entries.dom().len() + 2) as u64,
            size: 0,
            data_access_timestamp: created,
            data_modification_timestamp: created,
            status_change_timestamp: created,
        },
    }
}

/// What `stat_at` returns.
pub open spec fn stat_at_spec(s: FsView, dir_fd: u32, path: Seq<char>) -> Result<FileStat, FsError> {
    if !s.fds.contains_key(dir_fd) {
        Err(FsError::BadDescriptor)
    } else {
        match walk(s.nodes, s.fds[dir_fd].0 as int, path_components(path)) {
            Ok(n) => Ok(stat_of(s.nodes[n], n)),
            Err(e) => Err(e),
        }
    }
}

/// The file type a node shows in a listing.
pub open spec fn kind_of(n: NodeView) -> FileType {
    match n {
        NodeView::File { .. } => FileType::RegularFile,
        NodeView::Dir { .. } => FileType::Directory,
    }
}

/// `v` lists the entries of a directory: each entry once, with the type of
/// its node, in increasing order of names.
pub open spec fn is_listing(v: Seq<DirectoryEntry>, entries: Map<Seq<char>, usize>, nodes: Seq<NodeView>) -> bool {
    &&& forall|i: int|
        0 <= i < v.len() ==> entries.contains_key(#[trigger] v[i].name@) && v[i].filetype == kind_of(
            nodes[entries[v[i].name@] as int],
        )
    &&& forall|k: Seq<char>|
        #[trigger] entries.contains_key(k) ==> exists|i: int| 0 <= i < v.len() && #[trigger] v[i].name@ == k
    &&& forall|i: int, j: int| 0 <= i < j < v.len() ==> seq_lt(#[trigger] v[i].name@, #[trigger] v[j].name@)
}

/// What creating the directories `comps` under node `cur` does: each part
/// that exists must be a directory and is entered; a missing part is
/// created (the clock ticks) and entered.
pub open spec fn mkdirs(s: FsView, cur: int, comps: Seq<Seq<char>>) -> (FsView, Result<(), FsError>)
    decreases comps.len(),
{
    if comps.len() == 0 {
        (s, Ok(()))
    } else {
        let c = comps[0];
        match s.nodes[cur] {
            NodeView::File { .. } => (s, Err(FsError::NotDir)),
            NodeView::Dir { entries, .. } => if entries.contains_key(c) {
                let idx = entries[c] as int;
                if s.nodes[idx] is Dir {
                    mkdirs(s, idx, comps.drop_first())
                } else {
                    (s, Err(FsError::Exist))
                }
            } else {
                let ts = (s.clock + 1) as u64;
                let idx = s.nodes.len() as usize;
                let nodes1 = s.nodes.push(fresh_node(true, ts));
                let s1 = FsView {
                    nodes: nodes1.update(cur, with_entry(nodes1[cur], c, idx)),
                    fds: s.fds,
                    next_fd: s.next_fd,
                    clock: ts,
                };
                mkdirs(s1, idx as int, comps.drop_first())
            },
        }
    }
}

/// Creating directories keeps the descriptors and ticks the clock at most
/// once per part.
pub proof fn lemma_mkdirs_counters(s: FsView, cur: int, comps: Seq<Seq<char>>)
    requires
        s.clock + comps.len() <= u64::MAX,
    ensures
        mkdirs(s, cur, comps).0.fds == s.fds,
        mkdirs(s, cur, comps).0.next_fd == s.next_fd,
        mkdirs(s, cur, comps).0.clock <= s.clock + comps.len(),
    decreases comps.len(),
{
    if comps.len() > 0 {
        let c = comps[0];
        match s.nodes[cur] {
            NodeView::File { .. } => {},
            NodeView::Dir { entries, .. } => if entries.contains_key(c) {
                let idx = entries[c] as int;
                if s.nodes[idx] is Dir {
                    lemma_mkdirs_counters(s, idx, comps.drop_first());
                }
            } else {
                let ts = (s.clock + 1) as u64;
                let idx = s.nodes.len() as usize;
                let nodes1 = s.nodes.push(fresh_node(true, ts));
                let s1 = FsView {
                    nodes: nodes1.update(cur, with_entry(nodes1[cur], c, idx)),
                    fds: s.fds,
                    next_fd: s.next_fd,
                    clock: ts,
                };
                lemma_mkdirs_counters(s1, idx as int, comps.drop_first());
            },
        }
    }
}

/// What `create_directory_at` does.
pub open spec fn create_directory_spec(s: FsView, dir_fd: u32, path: Seq<char>) -> (FsView, Result<(), FsError>) {
    if !s.fds.contains_key(dir_fd) {
        (s, Err(FsError::BadDescriptor))
    } else {
        mkdirs(s, s.fds[dir_fd].0 as int, path_components(path))
    }
}

/// What `unlink_file_at` does: the entry of a file is removed from the
/// directory that holds it.
pub open spec fn unlink_spec(s: FsView, dir_fd: u32, path: Seq<char>) -> (FsView, Result<(), FsError>) {
    if !s.fds.contains_key(dir_fd) {
        (s, Err(FsError::BadDescriptor))
    } else {
        match parent_of(s.nodes, s.fds[dir_fd].0 as int, path_components(path)) {
            Err(e) => (s, Err(e)),
            Ok(pn) => match s.nodes[pn.0] {
                NodeView::Dir { entries, .. } => if !entries.contains_key(pn.1) {
                    (s, Err(FsError::NoEntry))
                } else if s.nodes[entries[pn.1] as int] is Dir {
                    (s, Err(FsError::IsDir))
                } else {
                    (with_nodes(s, s.nodes.update(pn.0, without_entry(s.nodes[pn.0], pn.1))), Ok(()))
                },
                NodeView::File { .. } => (s, Err(FsError::NotDir)),
            },
        }
    }
}

/// What `remove_directory_at` does: the entry of an empty directory is
/// removed from the directory that holds it.
pub open spec fn rmdir_spec(s: FsView, dir_fd: u32, path: Seq<char>) -> (FsView, Result<(), FsError>) {
    if !s.fds.contains_key(dir_fd) {
        (s, Err(FsError::BadDescriptor))
    } else {
        match parent_of(s.nodes, s.fds[dir_fd].0 as int, path_components(path)) {
            Err(e) => (s, Err(e)),
            Ok(pn) => match s.nodes[pn.0] {
                NodeView::Dir { entries, .. } => if !entries.contains_key(pn.1) {
                    (s, Err(FsError::NoEntry))
                } else {
                    match s.nodes[entries[pn.1] as int] {
                        NodeView::Dir { entries: child, .. } => if child.dom().len() != 0 {
                            (s, Err(FsError::NotEmpty))
                        } else {
                            (with_nodes(s, s.nodes.update(pn.0, without_entry(s.nodes[pn.0], pn.1))), Ok(()))
                        },
                        NodeView::File { .. } => (s, Err(FsError::NotDir)),
                    }
                },
                NodeView::File { .. } => (s, Err(FsError::NotDir)),
            },
        }
    }
}

/// What `rename_at` does: the entry moves from the old parent to the new
/// one under the new name. Every check comes before any change, so a
/// rename that fails leaves the filesystem as it was.
pub open spec fn rename_spec(
    s: FsView,
    old_fd: u32,
    old_path: Seq<char>,
    new_fd: u32,
    new_path: Seq<char>,
) -> (FsView, Result<(), FsError>) {
    if !s.fds.contains_key(old_fd) || !s.fds.contains_key(new_fd) {
        (s, Err(FsError::BadDescriptor))
    } else {
        match parent_of(s.nodes, s.fds[old_fd].0 as int, path_components(old_path)) {
            Err(e) => (s, Err(e)),
            Ok(op) => match parent_of(s.nodes, s.fds[new_fd].0 as int, path_components(new_path)) {
                Err(e) => (s, Err(e)),
                Ok(np) => match s.nodes[op.0] {
                    NodeView::File { .. } => (s, Err(FsError::NotDir)),
                    NodeView::Dir { entries, .. } => if !entries.contains_key(op.1) {
                        (s, Err(FsError::NoEntry))
                    } else if s.nodes[np.0] is File {
                        (s, Err(FsError::NotDir))
                    } else {
                        let node = entries[op.1];
                        let nodes1 = s.nodes.update(op.0, without_entry(s.nodes[op.0], op.1));
                        (with_nodes(s, nodes1.update(np.0, with_entry(nodes1[np.0], np.1, node))), Ok(()))
                    },
                },
            },
        }
    }
}

// ═════════════════════════════════════════════════════════════════════
// The filesystem
// ═════════════════════════════════════════════════════════════════════

/// A simulated filesystem, backed by an in-memory tree.
#[derive(Debug)]
pub struct WasiFilesystem {
    nodes: Vec<FsNode>,
    descriptors: HashMap<Descriptor, (usize, u64)>,
    next_fd: Descriptor,
    timestamp: u64,
}

impl View for WasiFilesystem {
    type V = FsView;

    closed spec fn view(&self) -> FsView {
        FsView {
            nodes: self.nodes@.map_values(|n: FsNode| node_view(n)),
            fds: self.descriptors@,
            next_fd: self.next_fd,
            clock: self.timestamp,
        }
    }
}

impl WasiFilesystem {
    /// The invariant: directory names are distinct and the state is
    /// well formed.
    pub closed spec fn wf(&self) -> bool {
        nodes_ok(self.nodes@) && fs_wf(self@)
    }

    /// The state of a new filesystem.
    pub open spec fn new_state() -> FsView {
        FsView {
            nodes: seq![NodeView::Dir { entries: Map::<Seq<char>, usize>::empty(), created: 1 }],
            fds: Map::<u32, (usize, u64)>::empty(),
            next_fd: 3,
            clock: 1000,
        }
    }

    /// The state a new filesystem has, as one value.
    pub proof fn lemma_new_state(fs: WasiFilesystem)
        requires
            fs@.nodes == seq![NodeView::Dir { entries: Map::<Seq<char>, usize>::empty(), created: 1 }],
            fs@.fds == Map::<u32, (usize, u64)>::empty(),
            fs@.next_fd == 3,
            fs@.clock == 1000,
        ensures
            fs@ == Self::new_state(),
    {
    }

    /// A filesystem with an empty root directory; descriptors start at 3.
    pub fn new() -> (fs: Self)
        ensures
            fs.wf(),
            fs@.nodes == seq![NodeView::Dir { entries: Map::<Seq<char>, usize>::empty(), created: 1 }],
            fs@.fds == Map::<u32, (usize, u64)>::empty(),
            fs@.next_fd == 3,
            fs@.clock == 1000,
    {
        let root = FsNode::Directory { entries: Vec::new(), created: 1 };
        let fs = WasiFilesystem {
            nodes: vec![root],
            descriptors: HashMap::new(),
            next_fd: 3,
            timestamp: 1000,
        };
        proof {
            assert(named_map(Seq::<(String, usize)>::empty()) =~= Map::<Seq<char>, usize>::empty());
            assert(fs@.nodes =~= seq![NodeView::Dir { entries: Map::<Seq<char>, usize>::empty(), created: 1 }]);
            assert(keys_distinct(named_entries(Seq::<(String, usize)>::empty())));
        }
        fs
    }

    fn tick(&mut self) -> (t: u64)
        requires
            old(self).wf(),
            old(self)@.clock < u64::MAX,
        ensures
            final(self).wf(),
            t == old(self)@.clock + 1,
            final(self)@ == (FsView { clock: t, ..old(self)@ }),
    {
        self.timestamp = self.timestamp + 1;
        self.timestamp
    }

    fn alloc_fd(&mut self, node_idx: usize) -> (fd: Descriptor)
        requires
            old(self).wf(),
            old(self)@.next_fd < u32::MAX,
            node_idx < old(self)@.nodes.len(),
        ensures
            final(self).wf(),
            fd == old(self)@.next_fd,
            final(self)@ == alloc_view(old(self)@, node_idx as int),
    {
        let fd = self.next_fd;
        self.next_fd = self.next_fd + 1;
        self.descriptors.insert(fd, (node_idx, 0));
        proof {
            assert(self@.fds =~= old(self)@.fds.insert(fd, (node_idx, 0u64)));
        }
        fd
    }

    fn resolve_node(&self, fd: Descriptor) -> (r: Result<usize, FsError>)
        requires
            self.wf(),
        ensures
            match r {
                Ok(i) => self@.fds.contains_key(fd) && i == self@.fds[fd].0 && i < self@.nodes.len(),
                Err(e) => !self@.fds.contains_key(fd) && e == FsError::BadDescriptor,
            },
    {
        match self.descriptors.get(&fd) {
            Some(entry) => Ok(entry.0),
            None => Err(FsError::BadDescriptor),
        }
    }

    /// Walks the first `upto` parts of `comps` from node `start`.
    fn walk_from(&self, start: usize, comps: &Vec<String>, upto: usize) -> (r: Result<usize, FsError>)
        requires
            self.wf(),
            start < self@.nodes.len(),
            upto <= comps@.len(),
        ensures
            match r {
                Ok(i) => walk(self@.nodes, start as int, strs(comps@).take(upto as int)) == Ok::<int, FsError>(i as int)
                    && i < self@.nodes.len(),
                Err(e) => walk(self@.nodes, start as int, strs(comps@).take(upto as int)) == Err::<int, FsError>(e),
            },
    {
        let ghost t = strs(comps@).take(upto as int);
        let ghost nodes = self@.nodes;
        let mut cur = start;
        let mut i: usize = 0;
        proof {
            assert(t.subrange(0, t.len() as int) =~= t);
        }
        while i < upto
            invariant
                self.wf(),
                nodes == self@.nodes,
                t == strs(comps@).take(upto as int),
                upto <= comps@.len(),
                i <= upto,
                cur < nodes.len(),
                walk(nodes, start as int, t) == walk(nodes, cur as int, t.subrange(i as int, upto as int)),
            decreases upto - i,
        {
            let ghost sub = t.subrange(i as int, upto as int);
            proof {
                assert(sub.drop_first() =~= t.subrange(i + 1, upto as int));
                assert(sub[0] == comps@[i as int]@);
                assert(nodes[cur as int] == node_view(self.nodes@[cur as int]));
                assert(node_ok(self.nodes@[cur as int]));
            }
            match &self.nodes[cur] {
                FsNode::Directory { entries, .. } => {
                    match named_get(entries, comps[i].as_str()) {
                        Some(j) => {
                            proof {
                                assert(entries_in_range(nodes[cur as int], nodes.len() as int));
                                assert(named_map(entries@).contains_key(comps@[i as int]@));
                            }
                            cur = *j;
                        },
                        None => {
                            return Err(FsError::NoEntry);
                        },
                    }
                },
                FsNode::File { .. } => {
                    return Err(FsError::NotDir);
                },
            }
            i = i + 1;
        }
        Ok(cur)
    }

    /// The directory holding the last part of `comps`, walked from `start`.
    fn parent_index(&self, start: usize, comps: &Vec<String>) -> (r: Result<usize, FsError>)
        requires
            self.wf(),
            start < self@.nodes.len(),
        ensures
            match r {
                Ok(p) => parent_of(self@.nodes, start as int, strs(comps@)) == Ok::<(int, Seq<char>), FsError>(
                    (p as int, comps@.last()@),
                ) && p < self@.nodes.len() && comps@.len() > 0,
                Err(e) => parent_of(self@.nodes, start as int, strs(comps@)) == Err::<(int, Seq<char>), FsError>(e),
            },
    {
        if comps.len() == 0 {
            return Err(FsError::Invalid);
        }
        proof {
            assert(strs(comps@).take(comps@.len() - 1) =~= strs(comps@).drop_last());
        }
        self.walk_from(start, comps, comps.len() - 1)
    }

    fn add_entry_at(&mut self, p: usize, name: String, idx: usize)
        requires
            old(self).wf(),
            p < old(self)@.nodes.len(),
            idx < old(self)@.nodes.len(),
        ensures
            final(self).wf(),
            final(self)@ == with_nodes(
                old(self)@,
                old(self)@.nodes.update(p as int, with_entry(old(self)@.nodes[p as int], name@, idx)),
            ),
    {
        let ghost name_v = name@;
        let mut tmp = FsNode::File { data: Vec::new(), created: 0, modified: 0 };
        self.nodes.set_and_swap(p, &mut tmp);
        proof {
            assert(node_ok(old(self).nodes@[p as int]));
        }
        node_add_entry(&mut tmp, name, idx);
        self.nodes.set_and_swap(p, &mut tmp);
        proof {
            let ns = old(self)@.nodes.update(p as int, with_entry(old(self)@.nodes[p as int], name_v, idx));
            assert(self@.nodes =~= ns);
            assert forall|i: int| 0 <= i < self.nodes@.len() implies node_ok(#[trigger] self.nodes@[i]) by {
                if i != p {
                    assert(node_ok(old(self).nodes@[i]));
                }
            }
            assert forall|i: int| 0 <= i < ns.len() implies entries_in_range(#[trigger] ns[i], ns.len() as int) by {
                assert(entries_in_range(old(self)@.nodes[i], ns.len() as int));
            }
            assert(nodes_ok(self.nodes@));
            assert(self@.nodes.len() >= 1);
            assert(forall|i: int| 0 <= i < self@.nodes.len() ==> entries_in_range(#[trigger] self@.nodes[i], self@.nodes.len() as int));
            assert(self@.fds == old(self)@.fds);
            assert(fs_wf(self@));
        }
    }

    fn remove_entry_at(&mut self, p: usize, name: &str)
        requires
            old(self).wf(),
            p < old(self)@.nodes.len(),
        ensures
            final(self).wf(),
            final(self)@ == with_nodes(
                old(self)@,
                old(self)@.nodes.update(p as int, without_entry(old(self)@.nodes[p as int], name@)),
            ),
    {
        let mut tmp = FsNode::File { data: Vec::new(), created: 0, modified: 0 };
        self.nodes.set_and_swap(p, &mut tmp);
        proof {
            assert(node_ok(old(self).nodes@[p as int]));
        }
        node_remove_entry(&mut tmp, name);
        self.nodes.set_and_swap(p, &mut tmp);
        proof {
            let ns = old(self)@.nodes.update(p as int, without_entry(old(self)@.nodes[p as int], name@));
            assert(self@.nodes =~= ns);
            assert forall|i: int| 0 <= i < self.nodes@.len() implies node_ok(#[trigger] self.nodes@[i]) by {
                if i != p {
                    assert(node_ok(old(self).nodes@[i]));
                }
            }
            assert forall|i: int| 0 <= i < ns.len() implies entries_in_range(#[trigger] ns[i], ns.len() as int) by {
                assert(entries_in_range(old(self)@.nodes[i], ns.len() as int));
            }
            assert(nodes_ok(self.nodes@));
            assert(self@.nodes.len() >= 1);
            assert(forall|i: int| 0 <= i < self@.nodes.len() ==> entries_in_range(#[trigger] self@.nodes[i], self@.nodes.len() as int));
            assert(self@.fds == old(self)@.fds);
            assert(fs_wf(self@));
        }
    }

    fn push_node(&mut self, node: FsNode)
        requires
            old(self).wf(),
            node_ok(node),
            entries_in_range(node_view(node), old(self)@.nodes.len() + 1int),
        ensures
            final(self).wf(),
            final(self)@ == with_nodes(old(self)@, old(self)@.nodes.push(node_view(node))),
    {
        let ghost nv = node_view(node);
        self.nodes.push(node);
        proof {
            let ns = old(self)@.nodes.push(nv);
            assert(self@.nodes =~= ns);
            assert forall|i: int| 0 <= i < self.nodes@.len() implies node_ok(#[trigger] self.nodes@[i]) by {
                if i < old(self).nodes@.len() {
                    assert(node_ok(old(self).nodes@[i]));
                }
            }
            assert forall|i: int| 0 <= i < ns.len() implies entries_in_range(#[trigger] ns[i], ns.len() as int) by {
                if i < old(self)@.nodes.len() {
                    lemma_in_range_grow(old(self)@.nodes[i], old(self)@.nodes.len() as int, ns.len() as int);
                }
            }
            assert(nodes_ok(self.nodes@));
            assert(self@.nodes.len() >= 1);
            assert(forall|i: int| 0 <= i < self@.nodes.len() ==> entries_in_range(#[trigger] self@.nodes[i], self@.nodes.len() as int));
            assert(self@.fds == old(self)@.fds);
            assert(fs_wf(self@));
        }
    }

    fn truncate_node(&mut self, i: usize)
        requires
            old(self).wf(),
            i < old(self)@.nodes.len(),
        ensures
            final(self).wf(),
            final(self)@ == with_nodes(
                old(self)@,
                old(self)@.nodes.update(i as int, truncated(old(self)@.nodes[i as int])),
            ),
    {
        let mut tmp = FsNode::File { data: Vec::new(), created: 0, modified: 0 };
        self.nodes.set_and_swap(i, &mut tmp);
        match &mut tmp {
            FsNode::File { data, .. } => {
                data.clear();
            },
            FsNode::Directory { .. } => {},
        }
        self.nodes.set_and_swap(i, &mut tmp);
        proof {
            let ns = old(self)@.nodes.update(i as int, truncated(old(self)@.nodes[i as int]));
            assert(self@.nodes =~= ns);
            assert forall|j: int| 0 <= j < self.nodes@.len() implies node_ok(#[trigger] self.nodes@[j]) by {
                assert(node_ok(old(self).nodes@[j]));
            }
            assert forall|j: int| 0 <= j < ns.len() implies entries_in_range(#[trigger] ns[j], ns.len() as int) by {
                assert(entries_in_range(old(self)@.nodes[j], ns.len() as int));
            }
            assert(nodes_ok(self.nodes@));
            assert(self@.nodes.len() >= 1);
            assert(forall|i: int| 0 <= i < self@.nodes.len() ==> entries_in_range(#[trigger] self@.nodes[i], self@.nodes.len() as int));
            assert(self@.fds == old(self)@.fds);
            assert(fs_wf(self@));
        }
    }

    // ── open-at ──

    /// Opens a path relative to a directory descriptor.
    pub fn open_at(
        &mut self,
        dir_fd: Descriptor,
        path: &str,
        flags: OpenFlags,
        _desc_flags: DescriptorFlags,
    ) -> (r: Result<Descriptor, FsError>)
        requires
            old(self).wf(),
            old(self)@.next_fd < u32::MAX,
            old(self)@.clock < u64::MAX,
        ensures
            final(self).wf(),
            (final(self)@, r) == open_at_spec(old(self)@, dir_fd, path@, flags),
    {
        let dir_idx = match self.resolve_node(dir_fd) {
            Ok(i) => i,
            Err(e) => return Err(e),
        };
        let comps = split_path(path);
        proof {
            assert(strs(comps@).take(comps@.len() as int) =~= strs(comps@));
        }
        match self.walk_from(dir_idx, &comps, comps.len()) {
            Ok(node_idx) => {
                if flags.exclusive {
                    return Err(FsError::Exist);
                }
                if flags.directory {
                    match &self.nodes[node_idx] {
                        FsNode::File { .. } => {
                            return Err(FsError::NotDir);
                        },
                        FsNode::Directory { .. } => {},
                    }
                }
                if flags.truncate {
                    self.truncate_node(node_idx);
                }
                Ok(self.alloc_fd(node_idx))
            },
            Err(e) => {
                if e == FsError::NoEntry && flags.create {
                    let parent = self.parent_index(dir_idx, &comps);
                    let ts = self.tick();
                    let node_idx = self.nodes.len();
                    let node = if flags.directory {
                        FsNode::Directory { entries: Vec::new(), created: ts }
                    } else {
                        FsNode::File { data: Vec::new(), created: ts, modified: ts }
                    };
                    proof {
                        assert(named_map(Seq::<(String, usize)>::empty()) =~= Map::<Seq<char>, usize>::empty());
                        assert(keys_distinct(named_entries(Seq::<(String, usize)>::empty())));
                        assert(node_view(node) == fresh_node(flags.directory, ts));
                    }
                    self.push_node(node);
                    match parent {
                        Ok(p) => {
                            let name = comps[comps.len() - 1].clone();
                            self.add_entry_at(p, name, node_idx);
                            Ok(self.alloc_fd(node_idx))
                        },
                        Err(e2) => Err(e2),
                    }
                } else {
                    Err(e)
                }
            },
        }
    }

    /// Opens the root directory.
    pub fn open_root(&mut self) -> (fd: Descriptor)
        requires
            old(self).wf(),
            old(self)@.next_fd < u32::MAX,
        ensures
            final(self).wf(),
            fd == old(self)@.next_fd,
            final(self)@ == alloc_view(old(self)@, 0),
    {
        self.alloc_fd(0)
    }

    /// Closes a descriptor.
    pub fn close(&mut self, fd: Descriptor) -> (r: Result<(), FsError>)
        requires
            old(self).wf(),
        ensures
            final(self).wf(),
            old(self)@.fds.contains_key(fd) ==> r is Ok && final(self)@ == (FsView {
                fds: old(self)@.fds.remove(fd),
                ..old(self)@
            }),
            !old(self)@.fds.contains_key(fd) ==> r == Err::<(), FsError>(FsError::BadDescriptor)
                && final(self)@ == old(self)@,
    {
        match self.descriptors.remove(&fd) {
            Some(_) => {
                proof {
                    assert(self@.fds =~= old(self)@.fds.remove(fd));
                }
                Ok(())
            },
            None => {
                proof {
                    assert(self@.fds =~= old(self)@.fds);
                }
                Err(FsError::BadDescriptor)
            },
        }
    }

    // ── read ──

    /// Reads up to `len` bytes at the descriptor's cursor.
    pub fn read(&mut self, fd: Descriptor, len: u64) -> (r: Result<Vec<u8>, FsError>)
        requires
            old(self).wf(),
            read_pre(old(self)@, fd, len),
        ensures
            final(self).wf(),
            final(self)@ == read_spec(old(self)@, fd, len).0,
            match r {
                Ok(v) => read_spec(old(self)@, fd, len).1 == Ok::<Seq<u8>, FsError>(v@),
                Err(e) => read_spec(old(self)@, fd, len).1 == Err::<Seq<u8>, FsError>(e),
            },
    {
        let entry = match self.descriptors.get(&fd) {
            Some(e) => *e,
            None => return Err(FsError::BadDescriptor),
        };
        let node_idx = entry.0;
        let cursor = entry.1;
        let ghost s = self@;
        proof {
            assert(s.nodes[node_idx as int] == node_view(self.nodes@[node_idx as int]));
        }
        let (bytes, end) = match &self.nodes[node_idx] {
            FsNode::File { data, .. } => {
                let start = cursor as usize;
                let want = start + len as usize;
                let end = if want < data.len() {
                    want
                } else {
                    data.len()
                };
                let mut bytes: Vec<u8> = Vec::new();
                let mut k = start;
                while k < end
                    invariant
                        start <= k <= end,
                        end <= data@.len(),
                        bytes@ == data@.subrange(start as int, k as int),
                    decreases end - k,
                {
                    bytes.push(data[k]);
                    k = k + 1;
                    assert(bytes@ =~= data@.subrange(start as int, k as int));
                }
                (bytes, end)
            },
            FsNode::Directory { .. } => {
                return Err(FsError::IsDir);
            },
        };
        self.descriptors.insert(fd, (node_idx, end as u64));
        proof {
            assert(self@.fds =~= s.fds.insert(fd, (node_idx, end as u64)));
            assert(self@.nodes =~= s.nodes);
            assert(nodes_ok(self.nodes@));
        }
        Ok(bytes)
    }

    // ── write ──

    /// Writes bytes at the descriptor's cursor.
    pub fn write(&mut self, fd: Descriptor, bytes: &[u8]) -> (r: Result<u64, FsError>)
        requires
            old(self).wf(),
            write_pre(old(self)@, fd, bytes@),
        ensures
            final(self).wf(),
            (final(self)@, r) == write_spec(old(self)@, fd, bytes@),
    {
        let entry = match self.descriptors.get(&fd) {
            Some(e) => *e,
            None => return Err(FsError::BadDescriptor),
        };
        let node_idx = entry.0;
        let cursor = entry.1;
        let ts = self.tick();
        let ghost s = self@;
        proof {
            assert(s.nodes[node_idx as int] == node_view(self.nodes@[node_idx as int]));
        }
        let is_file = match &self.nodes[node_idx] {
            FsNode::File { .. } => true,
            FsNode::Directory { .. } => false,
        };
        if !is_file {
            return Err(FsError::IsDir);
        }
        let start = cursor as usize;
        let mut tmp = FsNode::File { data: Vec::new(), created: 0, modified: 0 };
        self.nodes.set_and_swap(node_idx, &mut tmp);
        let mut new_node = match tmp {
            FsNode::File { data, created, .. } => FsNode::File {
                data: overwrite_bytes(data, start, bytes),
                created,
                modified: ts,
            },
            FsNode::Directory { entries, created } => FsNode::Directory { entries, created },
        };
        self.nodes.set_and_swap(node_idx, &mut new_node);
        self.descriptors.insert(fd, (node_idx, (start + bytes.len()) as u64));
        proof {
            let ns = s.nodes.update(node_idx as int, node_view(self.nodes@[node_idx as int]));
            assert(self@.nodes =~= ns);
            assert(self@.fds =~= s.fds.insert(fd, (node_idx, (start + bytes@.len()) as u64)));
            assert forall|i: int| 0 <= i < self.nodes@.len() implies node_ok(#[trigger] self.nodes@[i]) by {
                if i != node_idx {
                    assert(node_ok(old(self).nodes@[i]));
                }
            }
            assert forall|i: int| 0 <= i < ns.len() implies entries_in_range(#[trigger] ns[i], ns.len() as int) by {
                assert(entries_in_range(s.nodes[i], ns.len() as int));
            }
            assert(fs_wf(self@));
        }
        Ok(bytes.len() as u64)
    }

    // ── stat ──

    fn stat_node(&self, idx: usize) -> (st: FileStat)
        requires
            self.wf(),
            links_fit(self@),
            idx < self@.nodes.len(),
        ensures
            st == stat_of(self@.nodes[idx as int], idx as int),
    {
        proof {
            assert(self@.nodes[idx as int] == node_view(self.nodes@[idx as int]));
            assert(node_ok(self.nodes@[idx as int]));
            assert(node_links_fit(self@.nodes[idx as int]));
        }
        match &self.nodes[idx] {
            FsNode::File { data, created, modified } => FileStat {
                device: 0,
                inode: idx as u64,
                filetype: FileType::RegularFile,
                nlink: 1,
                size: data.len() as u64,
                data_access_timestamp: *modified,
                data_modification_timestamp: *modified,
                status_change_timestamp: *created,
            },
            FsNode::Directory { created, entries } => {
                proof {
                    lemma_assoc_len(named_entries(entries@));
                }
                FileStat {
                    device: 0,
                    inode: idx as u64,
                    filetype: FileType::Directory,
                    nlink: entries.len() as u64 + 2,
                    size: 0,
                    data_access_timestamp: *created,
                    data_modification_timestamp: *created,
                    status_change_timestamp: *created,
                }
            },
        }
    }

    /// The stat of the node a descriptor is open on.
    pub fn stat(&self, fd: Descriptor) -> (r: Result<FileStat, FsError>)
        requires
            self.wf(),
            links_fit(self@),
        ensures
            r == (if self@.fds.contains_key(fd) {
                Ok::<FileStat, FsError>(stat_of(self@.nodes[self@.fds[fd].0 as int], self@.fds[fd].0 as int))
            } else {
                Err::<FileStat, FsError>(FsError::BadDescriptor)
            }),
    {
        let node_idx = match self.resolve_node(fd) {
            Ok(i) => i,
            Err(e) => return Err(e),
        };
        Ok(self.stat_node(node_idx))
    }

    /// The stat of the node a path leads to from a directory.
    pub fn stat_at(&self, dir_fd: Descriptor, path: &str) -> (r: Result<FileStat, FsError>)
        requires
            self.wf(),
            links_fit(self@),
        ensures
            r == stat_at_spec(self@, dir_fd, path@),
    {
        let dir_idx = match self.resolve_node(dir_fd) {
            Ok(i) => i,
            Err(e) => return Err(e),
        };
        let comps = split_path(path);
        proof {
            assert(strs(comps@).take(comps@.len() as int) =~= strs(comps@));
        }
        let node_idx = match self.walk_from(dir_idx, &comps, comps.len()) {
            Ok(i) => i,
            Err(e) => return Err(e),
        };
        Ok(self.stat_node(node_idx))
    }

    // ── readdir ──

    /// The entries of a directory, sorted by name.
    pub fn readdir(&self, dir_fd: Descriptor) -> (r: Result<Vec<DirectoryEntry>, FsError>)
        requires
            self.wf(),
        ensures
            !self@.fds.contains_key(dir_fd) ==> r == Err::<Vec<DirectoryEntry>, FsError>(FsError::BadDescriptor),
            self@.fds.contains_key(dir_fd) ==> match self@.nodes[self@.fds[dir_fd].0 as int] {
                NodeView::File { .. } => r == Err::<Vec<DirectoryEntry>, FsError>(FsError::NotDir),
                NodeView::Dir { entries, .. } => r matches Ok(v) && is_listing(v@, entries, self@.nodes),
            },
    {
        let node_idx = match self.resolve_node(dir_fd) {
            Ok(i) => i,
            Err(e) => return Err(e),
        };
        proof {
            assert(self@.nodes[node_idx as int] == node_view(self.nodes@[node_idx as int]));
            assert(node_ok(self.nodes@[node_idx as int]));
            assert(entries_in_range(self@.nodes[node_idx as int], self@.nodes.len() as int));
        }
        match &self.nodes[node_idx] {
            FsNode::Directory { entries, .. } => {
                proof {
                    assert(self@.nodes[node_idx as int]->entries == named_map(entries@));
                }
                let v = self.sorted_listing(entries);
                Ok(v)
            },
            FsNode::File { .. } => Err(FsError::NotDir),
        }
    }

    spec fn listed(src: Seq<int>, j: int) -> bool {
        exists|i: int| 0 <= i < src.len() && src[i] == j
    }

    fn sorted_listing(&self, entries: &Vec<(String, usize)>) -> (v: Vec<DirectoryEntry>)
        requires
            self.wf(),
            keys_distinct(named_entries(entries@)),
            forall|k: Seq<char>| #[trigger] named_map(entries@).contains_key(k) ==> named_map(entries@)[k] < self@.nodes.len(),
        ensures
            is_listing(v@, named_map(entries@), self@.nodes),
    {
        let ghost e = named_entries(entries@);
        let ghost m = named_map(entries@);
        let mut out: Vec<DirectoryEntry> = Vec::new();
        let ghost mut src: Seq<int> = Seq::empty();
        let mut k: usize = 0;
        proof {
            assert forall|j: int| 0 <= j < e.len() implies m.contains_key(#[trigger] e[j].0) && m[e[j].0] == e[j].1 by {
                crate::assoc::lemma_assoc_lookup(e, j);
            }
        }
        while k < entries.len()
            invariant
                self.wf(),
                e == named_entries(entries@),
                m == named_map(entries@),
                keys_distinct(e),
                forall|j: int| 0 <= j < e.len() ==> m.contains_key(#[trigger] e[j].0) && m[e[j].0] == e[j].1,
                forall|q: Seq<char>| #[trigger] m.contains_key(q) ==> m[q] < self@.nodes.len(),
                k <= e.len(),
                src.len() == out@.len(),
                forall|i: int| 0 <= i < out@.len() ==> 0 <= #[trigger] src[i] < k && out@[i].name@ == e[src[i]].0
                    && out@[i].filetype == kind_of(self@.nodes[e[src[i]].1 as int]),
                forall|j: int| 0 <= j < k ==> #[trigger] Self::listed(src, j),
                forall|i: int, j: int| 0 <= i < j < out@.len() ==> seq_lt(#[trigger] out@[i].name@, #[trigger] out@[j].name@),
            decreases e.len() - k,
        {
            let name = &entries[k].0;
            let child = entries[k].1;
            proof {
                assert(e[k as int].0 == name@ && e[k as int].1 == child);
                assert(m.contains_key(e[k as int].0));
                assert(self@.nodes[child as int] == node_view(self.nodes@[child as int]));
            }
            let filetype = match &self.nodes[child] {
                FsNode::File { .. } => FileType::RegularFile,
                FsNode::Directory { .. } => FileType::Directory,
            };
            // the first position whose name is not before this one
            let mut pos: usize = 0;
            while pos < out.len()
                invariant
                    pos <= out@.len(),
                    forall|q: int| 0 <= q < pos ==> seq_lt(#[trigger] out@[q].name@, name@),
                ensures
                    pos <= out@.len(),
                    forall|q: int| 0 <= q < pos ==> seq_lt(#[trigger] out@[q].name@, name@),
                    pos < out@.len() ==> !seq_lt(out@[pos as int].name@, name@),
                decreases out@.len() - pos,
            {
                if !crate::text::str_lt(out[pos].name.as_str(), name.as_str()) {
                    break;
                }
                pos = pos + 1;
            }
            let ghost old_out = out@;
            let ghost old_src = src;
            let ent = DirectoryEntry { filetype, name: name.clone() };
            out.insert(pos, ent);
            proof {
                src = old_src.insert(pos as int, k as int);
                old_out.insert_ensures(pos as int, ent);
                old_src.insert_ensures(pos as int, k as int);
                assert forall|i: int| 0 <= i < out@.len() implies 0 <= #[trigger] src[i] < k + 1 && out@[i].name@ == e[src[i]].0
                    && out@[i].filetype == kind_of(self@.nodes[e[src[i]].1 as int]) by {
                    if i < pos {
                        assert(src[i] == old_src[i] && out@[i] == old_out[i]);
                    } else if i > pos {
                        assert(src[i] == old_src[i - 1] && out@[i] == old_out[i - 1]);
                    }
                }
                assert forall|j: int| 0 <= j < k + 1 implies #[trigger] Self::listed(src, j) by {
                    if j < k {
                        assert(Self::listed(old_src, j));
                        let i0 = choose|i: int| 0 <= i < old_src.len() && old_src[i] == j;
                        if i0 < pos {
                            assert(src[i0] == j);
                        } else {
                            assert(src[i0 + 1] == j);
                        }
                    } else {
                        assert(src[pos as int] == j);
                    }
                }
                // the new name differs from every name already listed
                assert forall|i: int| 0 <= i < old_out.len() implies #[trigger] old_out[i].name@ != name@ by {
                    assert(old_src[i] < k);
                    assert(e[old_src[i]].0 != e[k as int].0);
                }
                if pos < old_out.len() {
                    assert(!seq_lt(old_out[pos as int].name@, name@));
                    crate::text::lemma_seq_lt_total(old_out[pos as int].name@, name@);
                    assert(seq_lt(name@, old_out[pos as int].name@));
                }
                assert forall|i: int, j: int| 0 <= i < j < out@.len() implies seq_lt(#[trigger] out@[i].name@, #[trigger] out@[j].name@) by {
                    if j < pos {
                        assert(out@[i] == old_out[i] && out@[j] == old_out[j]);
                    } else if j == pos {
                        assert(out@[i] == old_out[i]);
                    } else if i == pos {
                        assert(out@[j] == old_out[j - 1]);
                        if j - 1 > pos {
                            crate::text::lemma_seq_lt_transitive(name@, old_out[pos as int].name@, old_out[j - 1].name@);
                        }
                    } else if i < pos {
                        assert(out@[i] == old_out[i] && out@[j] == old_out[j - 1]);
                    } else {
                        assert(out@[i] == old_out[i - 1] && out@[j] == old_out[j - 1]);
                    }
                }
            }
            k = k + 1;
        }
        proof {
            assert forall|q: Seq<char>| #[trigger] m.contains_key(q) implies exists|i: int| 0 <= i < out@.len() && #[trigger] out@[i].name@ == q by {
                crate::assoc::lemma_assoc_dom(e, q);
                let j = choose|j: int| 0 <= j < e.len() && e[j].0 == q;
                assert(Self::listed(src, j));
                let i = choose|i: int| 0 <= i < src.len() && src[i] == j;
                assert(out@[i].name@ == q);
            }
            assert forall|i: int| 0 <= i < out@.len() implies m.contains_key(#[trigger] out@[i].name@)
                && out@[i].filetype == kind_of(self@.nodes[m[out@[i].name@] as int]) by {
                let j = src[i];
                assert(m.contains_key(e[j].0) && m[e[j].0] == e[j].1);
            }
        }
        out
    }

    // ── create-directory ──

    /// Creates a directory, and its missing parents.
    pub fn create_directory_at(&mut self, dir_fd: Descriptor, path: &str) -> (r: Result<(), FsError>)
        requires
            old(self).wf(),
            old(self)@.clock + path_components(path@).len() <= u64::MAX,
        ensures
            final(self).wf(),
            (final(self)@, r) == create_directory_spec(old(self)@, dir_fd, path@),
    {
        let dir_idx = match self.resolve_node(dir_fd) {
            Ok(i) => i,
            Err(e) => return Err(e),
        };
        let comps = split_path(path);
        let ghost all = strs(comps@);
        let ghost s0 = self@;
        let mut cur = dir_idx;
        let mut i: usize = 0;
        proof {
            assert(all.skip(0) =~= all);
        }
        while i < comps.len()
            invariant
                self.wf(),
                all == strs(comps@),
                i <= comps@.len(),
                cur < self@.nodes.len(),
                self@.clock + (comps@.len() - i) <= u64::MAX,
                mkdirs(s0, dir_idx as int, all) == mkdirs(self@, cur as int, all.skip(i as int)),
                s0 == old(self)@,
                all == path_components(path@),
                s0.fds.contains_key(dir_fd),
                dir_idx == s0.fds[dir_fd].0,
            decreases comps@.len() - i,
        {
            let ghost sub = all.skip(i as int);
            proof {
                assert(sub[0] == comps@[i as int]@);
                assert(sub.drop_first() =~= all.skip(i + 1));
                assert(self@.nodes[cur as int] == node_view(self.nodes@[cur as int]));
                assert(node_ok(self.nodes@[cur as int]));
                assert(entries_in_range(self@.nodes[cur as int], self@.nodes.len() as int));
            }
            let found: Option<usize> = match &self.nodes[cur] {
                FsNode::File { .. } => {
                    return Err(FsError::NotDir);
                },
                FsNode::Directory { entries, .. } => match named_get(entries, comps[i].as_str()) {
                    Some(j) => Some(*j),
                    None => None,
                },
            };
            match found {
                Some(j) => {
                    proof {
                        assert(self@.nodes[j as int] == node_view(self.nodes@[j as int]));
                    }
                    let is_dir = match &self.nodes[j] {
                        FsNode::Directory { .. } => true,
                        FsNode::File { .. } => false,
                    };
                    if !is_dir {
                        return Err(FsError::Exist);
                    }
                    cur = j;
                },
                None => {
                    let ts = self.tick();
                    let new_idx = self.nodes.len();
                    let node = FsNode::Directory { entries: Vec::new(), created: ts };
                    proof {
                        assert(named_map(Seq::<(String, usize)>::empty()) =~= Map::<Seq<char>, usize>::empty());
                        assert(keys_distinct(named_entries(Seq::<(String, usize)>::empty())));
                        assert(node_view(node) == fresh_node(true, ts));
                    }
                    self.push_node(node);
                    let name = comps[i].clone();
                    self.add_entry_at(cur, name, new_idx);
                    cur = new_idx;
                },
            }
            i = i + 1;
        }
        Ok(())
    }

    // ── unlink-file / remove-directory ──

    /// Removes the entry of a file.
    pub fn unlink_file_at(&mut self, dir_fd: Descriptor, path: &str) -> (r: Result<(), FsError>)
        requires
            old(self).wf(),
        ensures
            final(self).wf(),
            (final(self)@, r) == unlink_spec(old(self)@, dir_fd, path@),
    {
        let dir_idx = match self.resolve_node(dir_fd) {
            Ok(i) => i,
            Err(e) => return Err(e),
        };
        let comps = split_path(path);
        let parent = match self.parent_index(dir_idx, &comps) {
            Ok(p) => p,
            Err(e) => return Err(e),
        };
        let name = &comps[comps.len() - 1];
        proof {
            assert(self@.nodes[parent as int] == node_view(self.nodes@[parent as int]));
            assert(node_ok(self.nodes@[parent as int]));
            assert(entries_in_range(self@.nodes[parent as int], self@.nodes.len() as int));
        }
        let child: usize = match &self.nodes[parent] {
            FsNode::Directory { entries, .. } => match named_get(entries, name.as_str()) {
                Some(c) => *c,
                None => return Err(FsError::NoEntry),
            },
            FsNode::File { .. } => return Err(FsError::NotDir),
        };
        proof {
            assert(self@.nodes[child as int] == node_view(self.nodes@[child as int]));
        }
        match &self.nodes[child] {
            FsNode::Directory { .. } => return Err(FsError::IsDir),
            FsNode::File { .. } => {},
        }
        self.remove_entry_at(parent, name.as_str());
        Ok(())
    }

    /// Removes the entry of an empty directory.
    pub fn remove_directory_at(&mut self, dir_fd: Descriptor, path: &str) -> (r: Result<(), FsError>)
        requires
            old(self).wf(),
        ensures
            final(self).wf(),
            (final(self)@, r) == rmdir_spec(old(self)@, dir_fd, path@),
    {
        let dir_idx = match self.resolve_node(dir_fd) {
            Ok(i) => i,
            Err(e) => return Err(e),
        };
        let comps = split_path(path);
        let parent = match self.parent_index(dir_idx, &comps) {
            Ok(p) => p,
            Err(e) => return Err(e),
        };
        let name = &comps[comps.len() - 1];
        proof {
            assert(self@.nodes[parent as int] == node_view(self.nodes@[parent as int]));
            assert(node_ok(self.nodes@[parent as int]));
            assert(entries_in_range(self@.nodes[parent as int], self@.nodes.len() as int));
        }
        let child: usize = match &self.nodes[parent] {
            FsNode::Directory { entries, .. } => match named_get(entries, name.as_str()) {
                Some(c) => *c,
                None => return Err(FsError::NoEntry),
            },
            FsNode::File { .. } => return Err(FsError::NotDir),
        };
        proof {
            assert(self@.nodes[child as int] == node_view(self.nodes@[child as int]));
            assert(node_ok(self.nodes@[child as int]));
        }
        match &self.nodes[child] {
            FsNode::Directory { entries, .. } => {
                proof {
                    lemma_assoc_len(named_entries(entries@));
                }
                if entries.len() != 0 {
                    return Err(FsError::NotEmpty);
                }
            },
            FsNode::File { .. } => return Err(FsError::NotDir),
        }
        self.remove_entry_at(parent, name.as_str());
        Ok(())
    }

    // ── rename ──

    /// Moves an entry to a new parent and name.
    pub fn rename_at(
        &mut self,
        old_dir_fd: Descriptor,
        old_path: &str,
        new_dir_fd: Descriptor,
        new_path: &str,
    ) -> (r: Result<(), FsError>)
        requires
            old(self).wf(),
        ensures
            final(self).wf(),
            (final(self)@, r) == rename_spec(old(self)@, old_dir_fd, old_path@, new_dir_fd, new_path@),
    {
        let old_dir_idx = match self.resolve_node(old_dir_fd) {
            Ok(i) => i,
            Err(e) => return Err(e),
        };
        let new_dir_idx = match self.resolve_node(new_dir_fd) {
            Ok(i) => i,
            Err(e) => return Err(e),
        };
        let old_comps = split_path(old_path);
        let new_comps = split_path(new_path);
        let old_parent = match self.parent_index(old_dir_idx, &old_comps) {
            Ok(p) => p,
            Err(e) => return Err(e),
        };
        let new_parent = match self.parent_index(new_dir_idx, &new_comps) {
            Ok(p) => p,
            Err(e) => return Err(e),
        };
        let old_name = &old_comps[old_comps.len() - 1];
        let new_name = new_comps[new_comps.len() - 1].clone();
        proof {
            assert(self@.nodes[old_parent as int] == node_view(self.nodes@[old_parent as int]));
            assert(node_ok(self.nodes@[old_parent as int]));
            assert(entries_in_range(self@.nodes[old_parent as int], self@.nodes.len() as int));
        }
        let node_idx: usize = match &self.nodes[old_parent] {
            FsNode::Directory { entries, .. } => match named_get(entries, old_name.as_str()) {
                Some(c) => *c,
                None => return Err(FsError::NoEntry),
            },
            FsNode::File { .. } => return Err(FsError::NotDir),
        };
        proof {
            assert(self@.nodes[new_parent as int] == node_view(self.nodes@[new_parent as int]));
        }
        let new_is_dir = match &self.nodes[new_parent] {
            FsNode::Directory { .. } => true,
            FsNode::File { .. } => false,
        };
        if !new_is_dir {
            return Err(FsError::NotDir);
        }
        self.remove_entry_at(old_parent, old_name.as_str());
        proof {
            assert(self@.nodes[new_parent as int] == node_view(self.nodes@[new_parent as int]));
        }
        self.add_entry_at(new_parent, new_name, node_idx);
        Ok(())
    }
}

impl Default for WasiFilesystem {
    fn default() -> (fs: Self)
        ensures
            fs.wf(),
            fs@.nodes == seq![NodeView::Dir { entries: Map::<Seq<char>, usize>::empty(), created: 1 }],
            fs@.fds == Map::<u32, (usize, u64)>::empty(),
            fs@.next_fd == 3,
            fs@.clock == 1000,
    {
        Self::new()
    }
}


// ═════════════════════════════════════════════════════════════════════
// Laws
// ═════════════════════════════════════════════════════════════════════

/// A walk whose prefix reaches `p` ends with one step from `p`.
proof fn lemma_walk_split(nodes: Seq<NodeView>, d: int, comps: Seq<Seq<char>>, p: int)
    requires
        comps.len() > 0,
        walk(nodes, d, comps.drop_last()) == Ok::<int, FsError>(p),
    ensures
        walk(nodes, d, comps) == walk(nodes, p, seq![comps.last()]),
    decreases comps.len(),
{
    if comps.len() == 1 {
        assert(comps =~= seq![comps.last()]);
    } else {
        match nodes[d] {
            NodeView::Dir { entries, .. } => {
                assert(comps.drop_last()[0] == comps[0]);
                assert(comps.drop_last().drop_first() =~= comps.drop_first().drop_last());
                lemma_walk_split(nodes, entries[comps[0]] as int, comps.drop_first(), p);
            },
            NodeView::File { .. } => {},
        }
    }
}

/// Removing the entry at the end of a walk makes the walk fail.
proof fn lemma_walk_after_removal(nodes: Seq<NodeView>, d: int, comps: Seq<Seq<char>>, p: int)
    requires
        comps.len() > 0,
        walk(nodes, d, comps.drop_last()) == Ok::<int, FsError>(p),
        0 <= p < nodes.len(),
        0 <= d < nodes.len(),
        forall|i: int| 0 <= i < nodes.len() ==> entries_in_range(#[trigger] nodes[i], nodes.len() as int),
        nodes[p] is Dir,
    ensures
        walk(nodes.update(p, without_entry(nodes[p], comps.last())), d, comps) == Err::<int, FsError>(
            FsError::NoEntry,
        ),
    decreases comps.len(),
{
    let n2 = nodes.update(p, without_entry(nodes[p], comps.last()));
    if comps.len() == 1 {
        assert(d == p);
    } else {
        assert(comps.drop_last()[0] == comps[0]);
        match nodes[d] {
            NodeView::Dir { entries, .. } => {
                let next = entries[comps[0]] as int;
                assert(entries_in_range(nodes[d], nodes.len() as int));
                if d == p && comps[0] == comps.last() {
                } else {
                    assert(comps.drop_last().drop_first() =~= comps.drop_first().drop_last());
                    lemma_walk_after_removal(nodes, next, comps.drop_first(), p);
                    if d == p {
                        assert(n2[d]->entries.contains_key(comps[0]));
                        assert(n2[d]->entries[comps[0]] == entries[comps[0]]);
                    }
                }
            },
            NodeView::File { .. } => {},
        }
    }
}

/// Adding a new entry to a directory keeps every walk that succeeded.
proof fn lemma_walk_after_insert(
    nodes: Seq<NodeView>,
    d: int,
    comps: Seq<Seq<char>>,
    p: int,
    name: Seq<char>,
    idx: usize,
    extra: NodeView,
)
    requires
        walk(nodes, d, comps) is Ok,
        0 <= d < nodes.len(),
        forall|i: int| 0 <= i < nodes.len() ==> entries_in_range(#[trigger] nodes[i], nodes.len() as int),
        0 <= p < nodes.len(),
        nodes[p] is Dir,
        !nodes[p]->entries.contains_key(name),
    ensures
        ({
            let n1 = nodes.push(extra);
            walk(n1.update(p, with_entry(n1[p], name, idx)), d, comps) == walk(nodes, d, comps)
        }),
    decreases comps.len(),
{
    let n1 = nodes.push(extra);
    let n2 = n1.update(p, with_entry(n1[p], name, idx));
    if comps.len() > 0 {
        match nodes[d] {
            NodeView::Dir { entries, .. } => {
                let next = entries[comps[0]] as int;
                assert(entries_in_range(nodes[d], nodes.len() as int));
                lemma_walk_after_insert(nodes, next, comps.drop_first(), p, name, idx, extra);
                if d == p {
                    assert(comps[0] != name);
                    assert(n2[d]->entries.contains_key(comps[0]));
                    assert(n2[d]->entries[comps[0]] == entries[comps[0]]);
                }
            },
            NodeView::File { .. } => {},
        }
    }
}

/// Read after write: bytes written through one descriptor are read back
/// through another descriptor open on the same file at the same cursor.
pub proof fn law_write_then_read(s: FsView, wfd: u32, rfd: u32, bytes: Seq<u8>)
    requires
        fs_wf(s),
        wfd != rfd,
        s.fds.contains_key(wfd),
        s.fds.contains_key(rfd),
        s.fds[wfd] == s.fds[rfd],
        s.nodes[s.fds[wfd].0 as int] is File,
        write_pre(s, wfd, bytes),
    ensures
        write_spec(s, wfd, bytes).1 == Ok::<u64, FsError>(bytes.len() as u64),
        read_pre(write_spec(s, wfd, bytes).0, rfd, bytes.len() as u64),
        read_spec(write_spec(s, wfd, bytes).0, rfd, bytes.len() as u64).1 == Ok::<Seq<u8>, FsError>(bytes),
{
    let s1 = write_spec(s, wfd, bytes).0;
    let n = s.fds[wfd].0 as int;
    let c = s.fds[wfd].1 as int;
    let data = s.nodes[n]->data;
    let d2 = overwrite(data, c, bytes);
    assert(s1.fds[rfd] == s.fds[rfd]);
    assert(s1.nodes[n]->data == d2);
    assert(d2.subrange(c, c + bytes.len()) =~= bytes);
}

/// A closed descriptor can no longer be read.
pub proof fn law_closed_descriptor_unreadable(s: FsView, fd: u32, len: u64)
    requires
        fs_wf(s),
        s.fds.contains_key(fd),
    ensures
        ({
            let s1 = FsView { fds: s.fds.remove(fd), ..s };
            read_spec(s1, fd, len) == (s1, Err::<Seq<u8>, FsError>(FsError::BadDescriptor))
        }),
{
}

/// After a file is unlinked, its path no longer resolves.
pub proof fn law_unlinked_path_is_gone(s: FsView, dir_fd: u32, path: Seq<char>)
    requires
        fs_wf(s),
        unlink_spec(s, dir_fd, path).1 is Ok,
    ensures
        stat_at_spec(unlink_spec(s, dir_fd, path).0, dir_fd, path) == Err::<FileStat, FsError>(FsError::NoEntry),
{
    let comps = path_components(path);
    let d = s.fds[dir_fd].0 as int;
    let pn = parent_of(s.nodes, d, comps)->Ok_0;
    lemma_walk_in_range(s.nodes, d, comps.drop_last());
    lemma_walk_after_removal(s.nodes, d, comps, pn.0);
}

/// After an empty directory is removed, its path no longer resolves.
pub proof fn law_removed_directory_is_gone(s: FsView, dir_fd: u32, path: Seq<char>)
    requires
        fs_wf(s),
        rmdir_spec(s, dir_fd, path).1 is Ok,
    ensures
        stat_at_spec(rmdir_spec(s, dir_fd, path).0, dir_fd, path) == Err::<FileStat, FsError>(FsError::NoEntry),
{
    let comps = path_components(path);
    let d = s.fds[dir_fd].0 as int;
    let pn = parent_of(s.nodes, d, comps)->Ok_0;
    lemma_walk_in_range(s.nodes, d, comps.drop_last());
    lemma_walk_after_removal(s.nodes, d, comps, pn.0);
}

/// A path that `open_at` created resolves afterwards to the node the new
/// descriptor is open on, so opening it again without `create` succeeds.
pub proof fn law_created_path_resolves(s: FsView, dir_fd: u32, path: Seq<char>, flags: OpenFlags)
    requires
        fs_wf(s),
        s.fds.contains_key(dir_fd),
        walk(s.nodes, s.fds[dir_fd].0 as int, path_components(path)) is Err,
        open_at_spec(s, dir_fd, path, flags).1 is Ok,
    ensures
        ({
            let (s1, r) = open_at_spec(s, dir_fd, path, flags);
            &&& walk(s1.nodes, s1.fds[dir_fd].0 as int, path_components(path)) == Ok::<int, FsError>(
                s1.fds[r->Ok_0].0 as int,
            )
            &&& open_at_spec(s1, dir_fd, path, OpenFlags { create: false, directory: false, exclusive: false, truncate: false }).1
                is Ok
        }),
{
    let comps = path_components(path);
    let d = s.fds[dir_fd].0 as int;
    let ts = (s.clock + 1) as u64;
    let idx = s.nodes.len() as usize;
    let pn = parent_of(s.nodes, d, comps)->Ok_0;
    let p = pn.0;
    let nodes1 = s.nodes.push(fresh_node(flags.directory, ts));
    let nodes2 = nodes1.update(p, with_entry(nodes1[p], pn.1, idx));
    assert(walk(s.nodes, d, comps) == Err::<int, FsError>(FsError::NoEntry));
    lemma_walk_split(s.nodes, d, comps, p);
    assert(seq![comps.last()].drop_first() =~= Seq::<Seq<char>>::empty());
    assert(seq![comps.last()][0] == comps.last());
    assert(walk(s.nodes, p, seq![comps.last()]) == Err::<int, FsError>(FsError::NoEntry));
    // the parent is a directory without the last part
    assert(s.nodes[p] is Dir);
    if s.nodes[p]->entries.contains_key(comps.last()) {
        let t = s.nodes[p]->entries[comps.last()] as int;
        assert(walk(s.nodes, t, Seq::<Seq<char>>::empty()) == Ok::<int, FsError>(t));
        assert(false);
    }
    assert(0 <= p < s.nodes.len()) by {
        assert(walk(s.nodes, d, comps.drop_last()) == Ok::<int, FsError>(p));
        lemma_walk_in_range(s.nodes, d, comps.drop_last());
    }
    lemma_walk_after_insert(s.nodes, d, comps.drop_last(), p, comps.last(), idx, fresh_node(flags.directory, ts));
    lemma_walk_split(nodes2, d, comps, p);
    assert(nodes2[p]->entries.contains_key(comps.last()));
    assert(nodes2[p]->entries[comps.last()] == idx);
    assert(walk(nodes2, idx as int, Seq::<Seq<char>>::empty()) == Ok::<int, FsError>(idx as int));
    assert(walk(nodes2, d, comps) == Ok::<int, FsError>(idx as int));
    let (s1, r) = open_at_spec(s, dir_fd, path, flags);
    assert(s1.nodes == nodes2);
    assert(r == Ok::<u32, FsError>(s.next_fd));
    assert(s1.fds[dir_fd] == s.fds[dir_fd]);
    assert(s1.fds[s.next_fd].0 == idx);
}

/// A successful walk from a node of the tree ends at a node of the tree.
proof fn lemma_walk_in_range(nodes: Seq<NodeView>, d: int, comps: Seq<Seq<char>>)
    requires
        0 <= d < nodes.len(),
        forall|i: int| 0 <= i < nodes.len() ==> entries_in_range(#[trigger] nodes[i], nodes.len() as int),
    ensures
        walk(nodes, d, comps) matches Ok(t) ==> 0 <= t < nodes.len(),
    decreases comps.len(),
{
    if comps.len() > 0 {
        match nodes[d] {
            NodeView::Dir { entries, .. } => {
                assert(entries_in_range(nodes[d], nodes.len() as int));
                if entries.contains_key(comps[0]) {
                    lemma_walk_in_range(nodes, entries[comps[0]] as int, comps.drop_first());
                }
            },
            NodeView::File { .. } => {},
        }
    }
}

/// A rename is all or nothing: when it fails, the filesystem is unchanged.
pub proof fn law_rename_atomic(s: FsView, old_fd: u32, old_path: Seq<char>, new_fd: u32, new_path: Seq<char>)
    requires
        rename_spec(s, old_fd, old_path, new_fd, new_path).1 is Err,
    ensures
        rename_spec(s, old_fd, old_path, new_fd, new_path).0 == s,
{
}

/// A rename keeps every file's contents, and the new parent holds the
/// moved node under the new name.
pub proof fn law_rename_keeps_content(
    s: FsView,
    old_fd: u32,
    old_path: Seq<char>,
    new_fd: u32,
    new_path: Seq<char>,
)
    requires
        fs_wf(s),
        rename_spec(s, old_fd, old_path, new_fd, new_path).1 is Ok,
    ensures
        ({
            let s1 = rename_spec(s, old_fd, old_path, new_fd, new_path).0;
            let op = parent_of(s.nodes, s.fds[old_fd].0 as int, path_components(old_path))->Ok_0;
            let np = parent_of(s.nodes, s.fds[new_fd].0 as int, path_components(new_path))->Ok_0;
            &&& s1.nodes.len() == s.nodes.len()
            &&& forall|i: int| 0 <= i < s.nodes.len() && s.nodes[i] is File ==> #[trigger] s1.nodes[i] == s.nodes[i]
            &&& walk(s1.nodes, np.0, seq![np.1]) == Ok::<int, FsError>(s.nodes[op.0]->entries[op.1] as int)
        }),
{
    let s1 = rename_spec(s, old_fd, old_path, new_fd, new_path).0;
    let np = parent_of(s.nodes, s.fds[new_fd].0 as int, path_components(new_path))->Ok_0;
    let op = parent_of(s.nodes, s.fds[old_fd].0 as int, path_components(old_path))->Ok_0;
    lemma_walk_in_range(s.nodes, s.fds[new_fd].0 as int, path_components(new_path).drop_last());
    lemma_walk_in_range(s.nodes, s.fds[old_fd].0 as int, path_components(old_path).drop_last());
    assert(seq![np.1].drop_first() =~= Seq::<Seq<char>>::empty());
    assert(seq![np.1][0] == np.1);
    assert(s1.nodes[np.0] is Dir);
    let node = s.nodes[op.0]->entries[op.1] as int;
    assert(s1.nodes[np.0]->entries.contains_key(np.1));
    assert(s1.nodes[np.0]->entries[np.1] == node);
    assert(walk(s1.nodes, node, Seq::<Seq<char>>::empty()) == Ok::<int, FsError>(node));
    assert(s1.nodes.len() == s.nodes.len());
    assert forall|i: int| 0 <= i < s.nodes.len() && s.nodes[i] is File implies #[trigger] s1.nodes[i] == s.nodes[i] by {
        if i == op.0 || i == np.0 {
        }
    }
}

} // verus!
