//! The in-memory file system. Every node is stored under its path from the
//! root (a list of names); the root directory itself is implicit.
use crate::assoc::{
    assoc, find_first, keep_keys, lemma_assoc_absent, lemma_assoc_first, lemma_find_first,
    lemma_keep_keys_all, lemma_keep_keys_len, lemma_without_key_len, without_key,
};
use crate::paths::{
    base_name, base_name_exec, glob_matches, glob_spec, normalize_path, normalize_spec,
    resolve_abs, resolve_abs_spec, split_path, split_path_spec,
};
use crate::keys::{
    chain_has_prefix, chain_is_child, chain_matches, chain_view, key_name, lemma_root_chain,
    push_key, rebase_key,
    share, share_key, Comps, KeyNode,
};
use crate::fstree::{
    lemma_copy_tree, lemma_create_tree, lemma_move_tree, lemma_remove_all_tree, lemma_remove_tree,
    lemma_write_tree, tree_shaped,
};
use crate::parser::string_views;
use crate::text::{
    chars_eq, chars_of, lit, push_all, sort_lines, sort_spec, split_chars, split_on, string_of,
    subvec, views,
};
use std::rc::Rc;
use vstd::prelude::*;
use vstd::slice::slice_to_vec;

verus! {

// ══════════════════════════════════════════════════════════════════
// Core types
// ══════════════════════════════════════════════════════════════════

pub type NodeId = u64;

/// A file with its content, or a directory.
#[derive(Clone, Debug)]
pub enum Node {
    File { content: Vec<u8> },
    Dir,
}

/// A node as a value: a file's bytes, or a directory.
pub enum NodeView {
    File(Seq<u8>),
    Dir,
}

impl Node {
    pub open spec fn view(&self) -> NodeView {
        match self {
            Node::File { content } => NodeView::File(content@),
            Node::Dir => NodeView::Dir,
        }
    }

    pub fn is_dir(&self) -> (b: bool)
        ensures
            b == (self.view() is Dir),
    {
        match self {
            Node::Dir => true,
            _ => false,
        }
    }
}

#[derive(Clone, Debug)]
pub struct DirEntry {
    pub name: String,
    pub is_dir: bool,
    pub size: u64,
}

/// Resource limits for the in-memory filesystem.
pub struct FsLimits {
    /// Maximum size of a single file in bytes.
    pub max_file_size: usize,
    /// Maximum number of entries in a single directory.
    pub max_dir_entries: usize,
    /// Maximum total nodes (files + dirs) in MemoryFs.
    pub max_total_nodes: usize,
}

impl Default for FsLimits {
    fn default() -> (l: Self)
        ensures
            l == default_limits(),
    {
        FsLimits {
            max_file_size: 100 * 1024 * 1024,
            max_dir_entries: 100_000,
            max_total_nodes: 1_000_000,
        }
    }
}

/// Filesystem operating mode, specified at creation time. Only `Memory` is
/// served by this library; the disk-backed modes name a directory.
pub enum FsMode {
    /// All reads and writes in memory. Nothing touches disk.
    Memory,
    /// Reads fall through to disk; all writes stay in-memory.
    ReadThrough(String),
    /// All reads and writes go to disk.
    Passthrough(String),
}

/// A change made to the file system, with the absolute path(s) involved.
#[derive(Debug, Clone, PartialEq)]
pub enum FsEvent {
    Mkdir { path: String },
    CreateFile { path: String },
    WriteFile { path: String, size: u64 },
    Remove { path: String },
    RemoveAll { path: String },
    Move { src: String, dst: String },
}

pub enum FsEventView {
    Mkdir(Seq<char>),
    CreateFile(Seq<char>),
    WriteFile(Seq<char>, u64),
    Remove(Seq<char>),
    RemoveAll(Seq<char>),
    Move(Seq<char>, Seq<char>),
}

impl FsEvent {
    pub open spec fn view(&self) -> FsEventView {
        match self {
            FsEvent::Mkdir { path } => FsEventView::Mkdir(path@),
            FsEvent::CreateFile { path } => FsEventView::CreateFile(path@),
            FsEvent::WriteFile { path, size } => FsEventView::WriteFile(path@, *size),
            FsEvent::Remove { path } => FsEventView::Remove(path@),
            FsEvent::RemoveAll { path } => FsEventView::RemoveAll(path@),
            FsEvent::Move { src, dst } => FsEventView::Move(src@, dst@),
        }
    }
}

struct Entry {
    key: Rc<KeyNode>,
    node: Node,
}

/// The in-memory file system.
pub struct Fs {
    entries: Vec<Entry>,
    detached: u64,
    limits: FsLimits,
    events: Vec<FsEvent>,
}

/// The in-memory file system under the name of its implementation.
pub type MemoryFs = Fs;

/// The state of a file system: its entries (path from the root and node),
/// the number of nodes that an operation cut loose from the tree (they still
/// count against the node limit), and the events recorded so far.
#[verifier::ext_equal]
pub struct FsView {
    pub entries: Seq<(Seq<Seq<char>>, NodeView)>,
    pub detached: nat,
    pub events: Seq<FsEventView>,
}

spec fn entry_views(v: Seq<Entry>) -> Seq<(Seq<Seq<char>>, NodeView)> {
    Seq::new(v.len(), |i: int| (chain_view(Some(v[i].key)), v[i].node.view()))
}

pub open spec fn event_views(v: Seq<FsEvent>) -> Seq<FsEventView> {
    Seq::new(v.len(), |i: int| v[i].view())
}

// ══════════════════════════════════════════════════════════════════
// Specification of the operations
// ══════════════════════════════════════════════════════════════════

/// The key (path from the root) that an absolute path names: the root is
/// the empty key; otherwise the text after the first character, split at `/`.
pub open spec fn key_of(abs: Seq<char>) -> Seq<Seq<char>> {
    if abs.len() == 0 || abs == seq!['/'] {
        seq![]
    } else {
        split_on(abs.drop_first(), '/')
    }
}

/// The node at a key: the root is a directory; other keys are looked up.
pub open spec fn node_at(es: Seq<(Seq<Seq<char>>, NodeView)>, k: Seq<Seq<char>>) -> Option<NodeView> {
    if k.len() == 0 {
        Some(NodeView::Dir)
    } else if assoc(es).contains_key(k) {
        Some(assoc(es)[k])
    } else {
        None
    }
}

pub open spec fn is_child_key(k: Seq<Seq<char>>, parent: Seq<Seq<char>>) -> bool {
    k.len() == parent.len() + 1 && k.take(parent.len() as int) == parent
}

pub open spec fn has_key_prefix(k: Seq<Seq<char>>, p: Seq<Seq<char>>) -> bool {
    p.len() <= k.len() && k.take(p.len() as int) == p
}

/// The names of the children of a directory, in entry order.
pub open spec fn child_names(es: Seq<(Seq<Seq<char>>, NodeView)>, parent: Seq<Seq<char>>) -> Seq<
    Seq<char>,
>
    decreases es.len(),
{
    if es.len() == 0 {
        seq![]
    } else if is_child_key(es.last().0, parent) {
        child_names(es.drop_last(), parent).push(es.last().0.last())
    } else {
        child_names(es.drop_last(), parent)
    }
}

/// The entries under `p` (`p` included) / the others.
pub open spec fn under(es: Seq<(Seq<Seq<char>>, NodeView)>, p: Seq<Seq<char>>) -> Seq<(Seq<Seq<char>>, NodeView)> {
    keep_keys(es, |k: Seq<Seq<char>>| has_key_prefix(k, p))
}

pub open spec fn outside(es: Seq<(Seq<Seq<char>>, NodeView)>, p: Seq<Seq<char>>) -> Seq<(Seq<Seq<char>>, NodeView)> {
    keep_keys(es, |k: Seq<Seq<char>>| !has_key_prefix(k, p))
}

/// The entries moved from `from` to below `to`.
pub open spec fn rebase(
    es: Seq<(Seq<Seq<char>>, NodeView)>,
    from_len: nat,
    to: Seq<Seq<char>>,
) -> Seq<(Seq<Seq<char>>, NodeView)> {
    Seq::new(es.len(), |i: int| (to + es[i].0.skip(from_len as int), es[i].1))
}

/// A path below a directory: `dir/name` (or `/name` below the root).
pub open spec fn child_path(dir: Seq<char>, name: Seq<char>) -> Seq<char> {
    if dir == seq!['/'] {
        seq!['/'] + name
    } else {
        dir + seq!['/'] + name
    }
}

pub open spec fn node_count(s: FsView) -> nat {
    s.entries.len() + 1 + s.detached
}

/// Where a new node for `abs` goes: the key of its parent and its name.
pub open spec fn parent_of(abs: Seq<char>) -> (Seq<Seq<char>>, Seq<char>) {
    let (pp, name) = split_path_spec(abs);
    (key_of(resolve_abs_spec(pp, seq!['/'])), name)
}

pub open spec fn with_entries(s: FsView, es: Seq<(Seq<Seq<char>>, NodeView)>, ev: Option<FsEventView>) -> FsView {
    FsView {
        entries: es,
        detached: s.detached,
        events: match ev {
            Some(e) => s.events.push(e),
            None => s.events,
        },
    }
}

/// Creating a node (a directory or an empty file) at `abs`: the parent must
/// be a directory without a child of that name and below its entry limit,
/// and the node limit must not be reached.
pub open spec fn create_spec(s: FsView, lim: FsLimits, abs: Seq<char>, node: NodeView, ev: FsEventView) -> (
    bool,
    FsView,
) {
    let (pk, name) = parent_of(abs);
    let ck = pk.push(name);
    match node_at(s.entries, pk) {
        None => (false, s),
        Some(pn) => if node_count(s) >= lim.max_total_nodes {
            (false, s)
        } else if pn is Dir && !assoc(s.entries).contains_key(ck) && child_names(
            s.entries,
            pk,
        ).len() < lim.max_dir_entries {
            (true, with_entries(s, s.entries.push((ck, node)), Some(ev)))
        } else {
            (false, s)
        },
    }
}

pub open spec fn mkdir_spec(s: FsView, lim: FsLimits, path: Seq<char>, cwd: Seq<char>) -> (bool, FsView) {
    let abs = resolve_abs_spec(path, cwd);
    create_spec(s, lim, abs, NodeView::Dir, FsEventView::Mkdir(abs))
}

pub open spec fn create_file_spec(s: FsView, lim: FsLimits, path: Seq<char>, cwd: Seq<char>) -> (
    bool,
    FsView,
) {
    let abs = resolve_abs_spec(path, cwd);
    create_spec(s, lim, abs, NodeView::File(seq![]), FsEventView::CreateFile(abs))
}

/// Whether a path names a node.
pub open spec fn exists_spec(s: FsView, path: Seq<char>, cwd: Seq<char>) -> bool {
    node_at(s.entries, key_of(resolve_abs_spec(path, cwd))) is Some
}

/// Whether a path names a directory.
pub open spec fn is_dir_spec(s: FsView, path: Seq<char>, cwd: Seq<char>) -> bool {
    node_at(s.entries, key_of(resolve_abs_spec(path, cwd))) == Some(NodeView::Dir)
}

pub open spec fn read_spec(s: FsView, path: Seq<char>, cwd: Seq<char>) -> Option<Seq<u8>> {
    match node_at(s.entries, key_of(resolve_abs_spec(path, cwd))) {
        Some(NodeView::File(c)) => Some(c),
        _ => None,
    }
}

/// Writing a file: an existing file gets the new content; otherwise a new
/// file is made in the parent directory (replacing, and cutting loose, a
/// node of that name that the path did not reach).
pub open spec fn write_spec(s: FsView, lim: FsLimits, path: Seq<char>, cwd: Seq<char>, data: Seq<u8>) -> (
    bool,
    FsView,
) {
    let abs = resolve_abs_spec(path, cwd);
    let k = key_of(resolve_abs_spec(abs, seq!['/']));
    let ev = FsEventView::WriteFile(abs, data.len() as u64);
    if data.len() > lim.max_file_size {
        (false, s)
    } else {
        match node_at(s.entries, k) {
            Some(NodeView::File(_)) => (
                true,
                with_entries(
                    s,
                    s.entries.update(find_first(s.entries, k).unwrap(), (k, NodeView::File(data))),
                    Some(ev),
                ),
            ),
            Some(NodeView::Dir) => (false, s),
            None => {
                let (pk, name) = parent_of(abs);
                let ck = pk.push(name);
                match node_at(s.entries, pk) {
                    None => (false, s),
                    Some(pn) => if node_count(s) >= lim.max_total_nodes {
                        (false, s)
                    } else if pn is Dir {
                        if child_names(s.entries, pk).len() >= lim.max_dir_entries {
                            (false, s)
                        } else {
                            (
                                true,
                                FsView {
                                    entries: outside(s.entries, ck).push((ck, NodeView::File(data))),
                                    detached: s.detached + under(s.entries, ck).len(),
                                    events: s.events.push(ev),
                                },
                            )
                        }
                    } else {
                        (false, s)
                    },
                }
            },
        }
    }
}

/// Removing a file (not a directory) from its parent directory.
pub open spec fn remove_spec(s: FsView, path: Seq<char>, cwd: Seq<char>) -> (bool, FsView) {
    let abs = resolve_abs_spec(path, cwd);
    let (pk, name) = parent_of(abs);
    let ck = pk.push(name);
    if node_at(s.entries, pk) == Some(NodeView::Dir) && assoc(s.entries).contains_key(ck) && !(
    assoc(s.entries)[ck] is Dir) {
        (true, with_entries(s, without_key(s.entries, ck), Some(FsEventView::Remove(abs))))
    } else {
        (false, s)
    }
}

/// Removing a node with everything below it (never the root).
pub open spec fn remove_all_spec(s: FsView, path: Seq<char>, cwd: Seq<char>) -> (bool, FsView) {
    let abs = resolve_abs_spec(path, cwd);
    let (pk, name) = parent_of(abs);
    let ck = pk.push(name);
    if abs != seq!['/'] && node_at(s.entries, pk) == Some(NodeView::Dir) && assoc(
        s.entries,
    ).contains_key(ck) {
        (true, with_entries(s, outside(s.entries, ck), Some(FsEventView::RemoveAll(abs))))
    } else {
        (false, s)
    }
}

/// Copying a file: into a directory under its own name, or to the path.
pub open spec fn copy_spec(s: FsView, lim: FsLimits, src: Seq<char>, dst: Seq<char>, cwd: Seq<char>) -> (
    bool,
    FsView,
) {
    let src_abs = resolve_abs_spec(src, cwd);
    match read_spec(s, src_abs, seq!['/']) {
        Some(content) => {
            let dst_abs = resolve_abs_spec(dst, cwd);
            let target = if node_at(s.entries, key_of(resolve_abs_spec(dst_abs, seq!['/'])))
                == Some(NodeView::Dir) {
                child_path(dst_abs, base_name(src_abs))
            } else {
                dst_abs
            };
            write_spec(s, lim, target, seq!['/'], content)
        },
        None => (false, s),
    }
}

/// Moving a node with everything below it. The node leaves its parent
/// first; if the destination cannot take it, it stays cut loose.
pub open spec fn move_spec(s: FsView, src: Seq<char>, dst: Seq<char>, cwd: Seq<char>) -> (bool, FsView) {
    let src_abs = resolve_abs_spec(src, cwd);
    let (spk, sname) = parent_of(src_abs);
    let sk = spk.push(sname);
    if src_abs == seq!['/'] || node_at(s.entries, spk) != Some(NodeView::Dir) || !assoc(
        s.entries,
    ).contains_key(sk) {
        (false, s)
    } else {
        let moving = under(s.entries, sk);
        let es1 = outside(s.entries, sk);
        let dst_abs = resolve_abs_spec(dst, cwd);
        let final_dst = if node_at(es1, key_of(resolve_abs_spec(dst_abs, seq!['/']))) == Some(
            NodeView::Dir,
        ) {
            child_path(dst_abs, sname)
        } else {
            dst_abs
        };
        let (dpk, dname) = parent_of(final_dst);
        let dk = dpk.push(dname);
        if node_at(es1, dpk) == Some(NodeView::Dir) {
            let es2 = if assoc(es1).contains_key(dk) {
                outside(es1, dk)
            } else {
                es1
            };
            (
                true,
                FsView {
                    entries: es2 + rebase(moving, sk.len(), dk),
                    detached: s.detached,
                    events: s.events.push(FsEventView::Move(src_abs, final_dst)),
                },
            )
        } else {
            (
                false,
                FsView { entries: es1, detached: s.detached + moving.len(), events: s.events },
            )
        }
    }
}


/// A name that `ls` hides unless asked: one that starts with a dot.
pub open spec fn hidden(name: Seq<char>) -> bool {
    name.len() > 0 && name[0] == '.'
}

/// The names kept for a listing, in order.
pub open spec fn shown(names: Seq<Seq<char>>, show_hidden: bool) -> Seq<Seq<char>>
    decreases names.len(),
{
    if names.len() == 0 {
        seq![]
    } else if show_hidden || !hidden(names.last()) {
        shown(names.drop_last(), show_hidden).push(names.last())
    } else {
        shown(names.drop_last(), show_hidden)
    }
}

/// A listing line for a child: its name, whether it is a directory, and
/// its size (a file's length in bytes; 0 for a directory).
pub open spec fn entry_of(es: Seq<(Seq<Seq<char>>, NodeView)>, k: Seq<Seq<char>>, name: Seq<char>) -> (
    Seq<char>,
    bool,
    u64,
) {
    match node_at(es, k.push(name)) {
        Some(NodeView::File(c)) => (name, false, c.len() as u64),
        Some(NodeView::Dir) => (name, true, 0),
        None => (name, false, 0),
    }
}

pub open spec fn listing(es: Seq<(Seq<Seq<char>>, NodeView)>, k: Seq<Seq<char>>, names: Seq<Seq<char>>) -> Seq<
    (Seq<char>, bool, u64),
> {
    Seq::new(names.len(), |i: int| entry_of(es, k, names[i]))
}

/// Listing a directory: its children sorted by name, hidden ones left
/// out unless asked for; `None` for a file or a path that names nothing.
pub open spec fn list_spec(s: FsView, path: Seq<char>, cwd: Seq<char>, show_hidden: bool) -> Option<
    Seq<(Seq<char>, bool, u64)>,
> {
    let k = key_of(resolve_abs_spec(path, cwd));
    if node_at(s.entries, k) == Some(NodeView::Dir) {
        Some(listing(s.entries, k, shown(sort_spec(child_names(s.entries, k)), show_hidden)))
    } else {
        None
    }
}

pub open spec fn dir_entry_views(v: Seq<DirEntry>) -> Seq<(Seq<char>, bool, u64)> {
    Seq::new(v.len(), |i: int| (v[i].name@, v[i].is_dir, v[i].size))
}

/// The name that `find` matches for a path (the root is matched as `/`).
pub open spec fn find_name(path: Seq<char>) -> Seq<char> {
    if path == seq!['/'] {
        seq!['/']
    } else {
        base_name(path)
    }
}

/// The paths that `find` reports from a node down, `fuel` levels deep:
/// the node itself if its name matches, then each child in name order.
pub open spec fn find_at(
    es: Seq<(Seq<Seq<char>>, NodeView)>,
    k: Seq<Seq<char>>,
    path: Seq<char>,
    pat: Seq<char>,
    fuel: nat,
) -> Seq<Seq<char>>
    decreases fuel, 0nat,
{
    let own: Seq<Seq<char>> = if glob_spec(pat, find_name(path)) {
        seq![path]
    } else {
        seq![]
    };
    if fuel == 0 {
        seq![]
    } else if node_at(es, k) == Some(NodeView::Dir) {
        own + find_in(es, k, path, sort_spec(child_names(es, k)), pat, (fuel - 1) as nat)
    } else {
        own
    }
}

pub open spec fn find_in(
    es: Seq<(Seq<Seq<char>>, NodeView)>,
    k: Seq<Seq<char>>,
    path: Seq<char>,
    names: Seq<Seq<char>>,
    pat: Seq<char>,
    fuel: nat,
) -> Seq<Seq<char>>
    decreases fuel, names.len(),
{
    if names.len() == 0 {
        seq![]
    } else {
        find_in(es, k, path, names.drop_last(), pat, fuel) + find_at(
            es,
            k.push(names.last()),
            child_path(path, names.last()),
            pat,
            fuel,
        )
    }
}

/// How deep `find` goes below its start.
pub open spec fn find_depth() -> nat {
    101
}

/// `find`: from the normalized start path (`/` when empty), the matching
/// paths, the start first, children in name order, at most 100 levels down.
pub open spec fn find_spec(s: FsView, start: Seq<char>, pat: Seq<char>) -> Seq<Seq<char>> {
    let sp = if start.len() == 0 {
        seq!['/']
    } else {
        start
    };
    let abs0 = normalize_spec(sp);
    let abs = if abs0.len() == 0 {
        seq!['/']
    } else {
        abs0
    };
    let k = key_of(resolve_abs_spec(abs, seq!['/']));
    if node_at(s.entries, k) is Some {
        find_at(s.entries, k, abs, pat, find_depth())
    } else {
        seq![]
    }
}

// ══════════════════════════════════════════════════════════════════
// Helpers
// ══════════════════════════════════════════════════════════════════

/// A fresh file system: the root directory alone, no events.
pub open spec fn fresh_view() -> FsView {
    FsView { entries: seq![], detached: 0, events: seq![] }
}

pub open spec fn default_limits() -> FsLimits {
    FsLimits { max_file_size: 104857600usize, max_dir_entries: 100000usize, max_total_nodes: 1000000usize }
}

/// The node limit as it bounds the count: the root is there in any case.
pub open spec fn node_cap(lim: FsLimits) -> nat {
    if lim.max_total_nodes == 0 {
        1
    } else {
        lim.max_total_nodes as nat
    }
}

fn clone_bytes(b: &Vec<u8>) -> (r: Vec<u8>)
    ensures
        r@ == b@,
{
    let mut r: Vec<u8> = Vec::new();
    let mut i: usize = 0;
    while i < b.len()
        invariant
            i <= b@.len(),
            r@ =~= b@.take(i as int),
        decreases b@.len() - i,
    {
        r.push(b[i]);
        i = i + 1;
    }
    assert(b@.take(b@.len() as int) =~= b@);
    r
}

fn clone_node(n: &Node) -> (r: Node)
    ensures
        r.view() == n.view(),
{
    match n {
        Node::File { content } => Node::File { content: clone_bytes(content) },
        Node::Dir => Node::Dir,
    }
}

fn child_path_exec(dir: &[char], name: &[char]) -> (r: Vec<char>)
    ensures
        r@ == child_path(dir@, name@),
{
    let mut root: Vec<char> = Vec::new();
    root.push('/');
    assert(root@ =~= seq!['/']);
    let mut r: Vec<char> = Vec::new();
    if !chars_eq(dir, root.as_slice()) {
        push_all(&mut r, dir);
    }
    r.push('/');
    push_all(&mut r, name);
    assert(r@ =~= child_path(dir@, name@));
    r
}

proof fn lemma_split_step(
    es: Seq<(Seq<Seq<char>>, NodeView)>,
    i: int,
    p: Seq<Seq<char>>,
)
    requires
        0 <= i < es.len(),
    ensures
        has_key_prefix(es[i].0, p) ==> under(es.take(i + 1), p) == under(es.take(i), p).push(es[i])
            && outside(es.take(i + 1), p) == outside(es.take(i), p),
        !has_key_prefix(es[i].0, p) ==> under(es.take(i + 1), p) == under(es.take(i), p)
            && outside(es.take(i + 1), p) == outside(es.take(i), p).push(es[i]),
{
    let t = es.take(i + 1);
    assert(t.drop_last() =~= es.take(i));
    assert(t.last() == es[i]);
    let fu = |k: Seq<Seq<char>>| has_key_prefix(k, p);
    let fo = |k: Seq<Seq<char>>| !has_key_prefix(k, p);
    assert(under(t, p) == keep_keys(t, fu));
    assert(outside(t, p) == keep_keys(t, fo));
    assert(keep_keys(t, fu) == (if fu(t.last().0) {
        keep_keys(t.drop_last(), fu).push(t.last())
    } else {
        keep_keys(t.drop_last(), fu)
    }));
    assert(keep_keys(t, fo) == (if fo(t.last().0) {
        keep_keys(t.drop_last(), fo).push(t.last())
    } else {
        keep_keys(t.drop_last(), fo)
    }));
}

proof fn lemma_split_len(es: Seq<(Seq<Seq<char>>, NodeView)>, p: Seq<Seq<char>>)
    ensures
        under(es, p).len() + outside(es, p).len() == es.len(),
    decreases es.len(),
{
    if es.len() > 0 {
        let i = es.len() - 1;
        lemma_split_step(es, i, p);
        assert(es.take(i + 1) =~= es);
        lemma_split_len(es.take(i), p);
    }
}

/// Every entry under `p` has `p` as a prefix of its key.
proof fn lemma_under_prefix(es: Seq<(Seq<Seq<char>>, NodeView)>, p: Seq<Seq<char>>)
    ensures
        forall|i: int|
            0 <= i < under(es, p).len() ==> has_key_prefix(#[trigger] under(es, p)[i].0, p),
{
    let fu = |k: Seq<Seq<char>>| has_key_prefix(k, p);
    assert(under(es, p) == keep_keys(es, fu));
    lemma_keep_keys_all(es, fu);
}

proof fn lemma_without_step(es: Seq<(Seq<Seq<char>>, NodeView)>, i: int, k: Seq<Seq<char>>)
    requires
        0 <= i < es.len(),
    ensures
        es[i].0 == k ==> without_key(es.take(i + 1), k) == without_key(es.take(i), k),
        es[i].0 != k ==> without_key(es.take(i + 1), k) == without_key(es.take(i), k).push(es[i]),
{
    let t = es.take(i + 1);
    assert(t.drop_last() =~= es.take(i));
    assert(t.last() == es[i]);
}

/// Where a key stands: the root, an entry (by the position of its first
/// entry), or nowhere.
enum Lookup {
    Root,
    Found(usize),
    Missing,
}

impl Fs {
    /// The state of the file system.
    pub closed spec fn view(&self) -> FsView {
        FsView {
            entries: entry_views(self.entries@),
            detached: self.detached as nat,
            events: event_views(self.events@),
        }
    }

    /// The limits the file system was made with.
    pub closed spec fn limits(&self) -> FsLimits {
        self.limits
    }

    /// The files and directories below the root, by path.
    pub open spec fn tree(&self) -> Map<Seq<Seq<char>>, NodeView> {
        assoc(self.view().entries)
    }

    fn lookup(&self, k: &Comps) -> (r: Lookup)
        ensures
            r is Root <==> k.view().len() == 0,
            r matches Lookup::Found(i) ==> i < self.entries@.len() && find_first(
                self.view().entries,
                k.view(),
            ) == Some(i as int) && self.view().entries[i as int].0 == k.view() && node_at(
                self.view().entries,
                k.view(),
            ) == Some(self.entries@[i as int].node.view()) && assoc(
                self.view().entries,
            ).contains_key(k.view()),
            r is Missing ==> node_at(self.view().entries, k.view()) is None && !assoc(
                self.view().entries,
            ).contains_key(k.view()),
    {
        if k.len() == 0 {
            return Lookup::Root;
        }
        let ghost es = self.view().entries;
        let ghost kv = k.view();
        let mut i: usize = 0;
        while i < self.entries.len()
            invariant
                i <= self.entries@.len(),
                es == self.view().entries,
                kv == k.view(),
                kv.len() > 0,
                forall|j: int| 0 <= j < i ==> (#[trigger] es[j]).0 != kv,
            decreases self.entries@.len() - i,
        {
            if chain_matches(&self.entries[i].key, k) {
                proof {
                    assert(es[i as int].0 == kv);
                    assert(es[i as int].1 == self.entries@[i as int].node.view());
                    lemma_find_first(es, kv, i as int);
                    lemma_assoc_first(es, i as int);
                }
                return Lookup::Found(i);
            }
            i = i + 1;
        }
        proof {
            lemma_assoc_absent(es, kv);
        }
        Lookup::Missing
    }

    /// Whether the key is the root, a directory entry, a file entry (`is_dir`, `found`).
    fn kind_at(&self, k: &Comps) -> (r: (bool, bool))
        ensures
            r.1 == (node_at(self.view().entries, k.view()) is Some),
            r.1 ==> (r.0 == (node_at(self.view().entries, k.view()) == Some(NodeView::Dir))),
            !r.1 ==> !r.0,
    {
        match self.lookup(k) {
            Lookup::Root => (true, true),
            Lookup::Found(i) => (self.entries[i].node.is_dir(), true),
            Lookup::Missing => (false, false),
        }
    }

    /// For a key that names a node: whether it is a directory, and its
    /// stored path (to build the paths of new children on).
    fn stored_at(&self, k: &Comps) -> (r: Option<(bool, Option<Rc<KeyNode>>)>)
        ensures
            r is Some == (node_at(self.view().entries, k.view()) is Some),
            r matches Some((d, ch)) ==> d == (node_at(self.view().entries, k.view()) == Some(
                NodeView::Dir,
            )) && chain_view(ch) == k.view(),
    {
        match self.lookup(k) {
            Lookup::Root => {
                proof {
                    lemma_root_chain();
                }
                assert(k.view() =~= chain_view(None));
                Some((true, None))
            },
            Lookup::Found(i) => Some((self.entries[i].node.is_dir(), share_key(&self.entries[i].key))),
            Lookup::Missing => None,
        }
    }

    fn count_children(&self, pk: &Comps) -> (r: usize)
        ensures
            r == child_names(self.view().entries, pk.view()).len(),
    {
        let ghost es = self.view().entries;
        let mut n: usize = 0;
        let mut i: usize = 0;
        while i < self.entries.len()
            invariant
                i <= self.entries@.len(),
                es == self.view().entries,
                n == child_names(es.take(i as int), pk.view()).len(),
                n <= i,
            decreases self.entries@.len() - i,
        {
            assert(es.take(i + 1).drop_last() =~= es.take(i as int));
            assert(es.take(i + 1).last() == es[i as int]);
            if chain_is_child(&self.entries[i].key, pk) {
                n = n + 1;
            }
            i = i + 1;
        }
        assert(es.take(self.entries@.len() as int) =~= es);
        n
    }

    fn total_nodes_reached(&self) -> (r: bool)
        ensures
            r == (node_count(self.view()) >= self.limits.max_total_nodes),
    {
        (self.entries.len() as u128) + 1 + (self.detached as u128) >= (self.limits.max_total_nodes as u128)
    }

    /// Takes out the entries under `p` and returns them (both in order).
    fn split_under(&mut self, p: &Comps) -> (moved: Vec<Entry>)
        ensures
            final(self).view().entries == outside(old(self).view().entries, p.view()),
            entry_views(moved@) == under(old(self).view().entries, p.view()),
            final(self).detached == old(self).detached,
            final(self).events == old(self).events,
            final(self).limits == old(self).limits,
    {
        let ghost es = self.view().entries;
        let ghost pv = p.view();
        let mut keep: Vec<Entry> = Vec::new();
        let mut moved: Vec<Entry> = Vec::new();
        let mut old_entries: Vec<Entry> = Vec::new();
        std::mem::swap(&mut self.entries, &mut old_entries);
        let mut i: usize = 0;
        while i < old_entries.len()
            invariant
                i <= old_entries@.len(),
                es == entry_views(old_entries@),
                pv == p.view(),
                entry_views(keep@) == outside(es.take(i as int), pv),
                entry_views(moved@) == under(es.take(i as int), pv),
            decreases old_entries@.len() - i,
        {
            assert(es.take(i + 1).drop_last() =~= es.take(i as int));
            assert(es.take(i + 1).last() == es[i as int]);
            let e = Entry { key: share(&old_entries[i].key), node: clone_node(&old_entries[i].node) };
            let ghost ev = (chain_view(Some(e.key)), e.node.view());
            assert(ev == es[i as int]);
            proof {
                lemma_split_step(es, i as int, pv);
            }
            if chain_has_prefix(&old_entries[i].key, p) {
                let ghost before = entry_views(moved@);
                moved.push(e);
                assert(entry_views(moved@) =~= before.push(ev));
            } else {
                let ghost before = entry_views(keep@);
                keep.push(e);
                assert(entry_views(keep@) =~= before.push(ev));
            }
            i = i + 1;
        }
        assert(es.take(old_entries@.len() as int) =~= es);
        self.entries = keep;
        moved
    }

    /// Appends the entries moved from below a key of length `from_len` to
    /// below `to`.
    fn append_rebased(&mut self, moving: &Vec<Entry>, from_len: usize, to: &Rc<KeyNode>)
        requires
            forall|i: int|
                0 <= i < moving@.len() ==> from_len <= chain_view(Some((#[trigger] moving@[i]).key)).len(),
        ensures
            final(self).view().entries == old(self).view().entries + rebase(
                entry_views(moving@),
                from_len as nat,
                chain_view(Some(*to)),
            ),
            final(self).detached == old(self).detached,
            final(self).events == old(self).events,
            final(self).limits == old(self).limits,
    {
        let ghost es0 = self.view().entries;
        let ghost mv = entry_views(moving@);
        let ghost tv = chain_view(Some(*to));
        let mut i: usize = 0;
        while i < moving.len()
            invariant
                i <= moving@.len(),
                mv == entry_views(moving@),
                tv == chain_view(Some(*to)),
                forall|j: int|
                    0 <= j < moving@.len() ==> from_len <= chain_view(Some((#[trigger] moving@[j]).key)).len(),
                self.view().entries == es0 + rebase(mv, from_len as nat, tv).take(i as int),
                self.detached == old(self).detached,
                self.events == old(self).events,
                self.limits == old(self).limits,
            decreases moving@.len() - i,
        {
            let k = rebase_key(to, &moving[i].key, from_len);
            let e = Entry { key: k, node: clone_node(&moving[i].node) };
            let ghost ev = (chain_view(Some(e.key)), e.node.view());
            assert(ev == rebase(mv, from_len as nat, tv)[i as int]);
            let ghost before = self.view().entries;
            self.entries.push(e);
            assert(self.view().entries =~= before.push(ev));
            assert(rebase(mv, from_len as nat, tv).take(i + 1) =~= rebase(
                mv,
                from_len as nat,
                tv,
            ).take(i as int).push(ev));
            i = i + 1;
        }
        assert(rebase(mv, from_len as nat, tv).take(moving@.len() as int) =~= rebase(
            mv,
            from_len as nat,
            tv,
        ));
    }

    /// Takes out the entries with key `k`.
    fn remove_key(&mut self, k: &Comps)
        ensures
            final(self).view().entries == without_key(old(self).view().entries, k.view()),
            final(self).detached == old(self).detached,
            final(self).events == old(self).events,
            final(self).limits == old(self).limits,
    {
        let ghost es = self.view().entries;
        let ghost kv = k.view();
        let mut keep: Vec<Entry> = Vec::new();
        let mut old_entries: Vec<Entry> = Vec::new();
        std::mem::swap(&mut self.entries, &mut old_entries);
        let mut i: usize = 0;
        while i < old_entries.len()
            invariant
                i <= old_entries@.len(),
                es == entry_views(old_entries@),
                kv == k.view(),
                entry_views(keep@) == without_key(es.take(i as int), kv),
            decreases old_entries@.len() - i,
        {
            proof {
                lemma_without_step(es, i as int, kv);
            }
            if !chain_matches(&old_entries[i].key, k) {
                let e = Entry {
                    key: share(&old_entries[i].key),
                    node: clone_node(&old_entries[i].node),
                };
                let ghost ev = (chain_view(Some(e.key)), e.node.view());
                assert(ev == es[i as int]);
                let ghost before = entry_views(keep@);
                keep.push(e);
                assert(entry_views(keep@) =~= before.push(ev));
            }
            i = i + 1;
        }
        assert(es.take(old_entries@.len() as int) =~= es);
        self.entries = keep;
    }
}

impl Fs {
    /// What every file system keeps: the nodes (the root, the entries and
    /// the nodes cut loose) never outnumber the node limit, and it is shaped
    /// as a tree (whatever is stored below the root hangs from stored
    /// directories).
    pub closed spec fn wf(&self) -> bool {
        node_count(self.view()) <= node_cap(self.limits) && tree_shaped(self.view())
    }

    /// A well-formed file system is shaped as a tree.
    pub proof fn lemma_wf_tree(&self)
        requires
            self.wf(),
        ensures
            tree_shaped(self.view()),
    {
    }

    /// A memory file system with the default limits.
    pub fn new() -> (r: Fs)
        ensures
            r.wf(),
            r.view() == fresh_view(),
            r.limits() == default_limits(),
    {
        Fs::with_limits(FsLimits::default())
    }

    /// A memory file system with the given limits.
    pub fn with_limits(limits: FsLimits) -> (r: Fs)
        ensures
            r.wf(),
            r.view() == fresh_view(),
            r.limits() == limits,
    {
        let r = Fs { entries: Vec::new(), detached: 0, limits, events: Vec::new() };
        assert(r.view().entries =~= seq![]);
        assert(r.view().events =~= seq![]);
        r
    }

    /// A file system in the given mode. This library serves the memory
    /// mode; for a disk-backed mode it gives `None`.
    pub fn with_mode(mode: FsMode) -> (r: Option<Fs>)
        ensures
            r is Some <==> mode is Memory,
            (r matches Some(f) ==> f.wf() && f.view() == fresh_view() && f.limits()
                == default_limits()),
    {
        match mode {
            FsMode::Memory => Some(Fs::new()),
            _ => None,
        }
    }

    pub fn normalize(&self, path: &str) -> (r: String)
        ensures
            r@ == normalize_spec(path@),
    {
        let p = chars_of(path);
        let n = normalize_path(p.as_slice());
        string_of(n.as_slice())
    }

    pub fn resolve_abs(&self, path: &str, cwd: &str) -> (r: String)
        ensures
            r@ == resolve_abs_spec(path@, cwd@),
    {
        let p = chars_of(path);
        let c = chars_of(cwd);
        let a = resolve_abs(p.as_slice(), c.as_slice());
        string_of(a.as_slice())
    }

    pub fn split_path(&self, path: &str) -> (r: (String, String))
        ensures
            r.0@ == split_path_spec(path@).0,
            r.1@ == split_path_spec(path@).1,
    {
        let p = chars_of(path);
        let (a, b) = split_path(p.as_slice());
        (string_of(a.as_slice()), string_of(b.as_slice()))
    }

    /// The node a path names: `Some` exactly when it exists.
    pub fn resolve(&self, path: &str, cwd: &str) -> (r: Option<()>)
        ensures
            r is Some <==> node_at(self.view().entries, key_of(resolve_abs_spec(path@, cwd@)))
                is Some,
    {
        if self.path_exists(path, cwd) {
            Some(())
        } else {
            None
        }
    }

    pub(crate) fn kind_of_path(&self, path: &[char], cwd: &[char]) -> (r: (bool, bool))
        ensures
            r.1 == (node_at(self.view().entries, key_of(resolve_abs_spec(path@, cwd@))) is Some),
            r.0 == (node_at(self.view().entries, key_of(resolve_abs_spec(path@, cwd@))) == Some(
                NodeView::Dir,
            )),
    {
        let abs = resolve_abs(path, cwd);
        let k = Comps::of_abs(abs);
        self.kind_at(&k)
    }

    pub fn path_exists(&self, path: &str, cwd: &str) -> (r: bool)
        ensures
            r == (node_at(self.view().entries, key_of(resolve_abs_spec(path@, cwd@))) is Some),
    {
        let p = chars_of(path);
        let c = chars_of(cwd);
        self.kind_of_path(p.as_slice(), c.as_slice()).1
    }

    pub fn is_dir(&self, path: &str, cwd: &str) -> (r: bool)
        ensures
            r == (node_at(self.view().entries, key_of(resolve_abs_spec(path@, cwd@))) == Some(
                NodeView::Dir,
            )),
    {
        let p = chars_of(path);
        let c = chars_of(cwd);
        self.kind_of_path(p.as_slice(), c.as_slice()).0
    }

    pub(crate) fn read_chars(&self, path: &[char], cwd: &[char]) -> (r: Option<Vec<u8>>)
        ensures
            match r {
                Some(v) => read_spec(self.view(), path@, cwd@) == Some(v@),
                None => read_spec(self.view(), path@, cwd@) is None,
            },
    {
        let abs = resolve_abs(path, cwd);
        let k = Comps::of_abs(abs);
        match self.lookup(&k) {
            Lookup::Found(i) => match &self.entries[i].node {
                Node::File { content } => Some(clone_bytes(content)),
                Node::Dir => None,
            },
            _ => None,
        }
    }

    /// The content of the file a path names; `None` for a directory or a
    /// path that names nothing.
    pub fn read_file(&self, path: &str, cwd: &str) -> (r: Option<Vec<u8>>)
        ensures
            match r {
                Some(v) => read_spec(self.view(), path@, cwd@) == Some(v@),
                None => read_spec(self.view(), path@, cwd@) is None,
            },
    {
        let p = chars_of(path);
        let c = chars_of(cwd);
        self.read_chars(p.as_slice(), c.as_slice())
    }

    fn create_at(&mut self, abs: &Vec<char>, node: Node, ev: FsEvent) -> (ok: bool)
        requires
            old(self).wf(),
        ensures
            final(self).wf(),
            final(self).limits() == old(self).limits(),
            ok == create_spec(old(self).view(), old(self).limits(), abs@, node.view(), ev.view()).0,
            final(self).view() == create_spec(
                old(self).view(),
                old(self).limits(),
                abs@,
                node.view(),
                ev.view(),
            ).1,
    {
        let ghost s0 = self.view();
        proof {
            lemma_create_tree(s0, self.limits, abs@, node.view(), ev.view());
        }
        let (pk, name) = Comps::parent_of(abs.as_slice());
        let (pdir, pchain) = match self.stored_at(&pk) {
            Some(x) => x,
            None => {
                return false;
            },
        };
        if self.total_nodes_reached() {
            return false;
        }
        if !pdir {
            return false;
        }
        let ck = pk.with_name(name.as_slice());
        if let Lookup::Found(_) = self.lookup(&ck) {
            return false;
        }
        if self.count_children(&pk) >= self.limits.max_dir_entries {
            return false;
        }
        let ghost ckv = ck.view();
        let ghost nv = node.view();
        let e = Entry { key: push_key(&pchain, name), node };
        self.entries.push(e);
        self.events.push(ev);
        assert(self.view().entries =~= s0.entries.push((ckv, nv)));
        assert(self.view().events =~= s0.events.push(ev.view()));
        true
    }

    pub(crate) fn mkdir_chars(&mut self, path: &[char], cwd: &[char]) -> (ok: bool)
        requires
            old(self).wf(),
        ensures
            final(self).wf(),
            final(self).limits() == old(self).limits(),
            ok == mkdir_spec(old(self).view(), old(self).limits(), path@, cwd@).0,
            final(self).view() == mkdir_spec(old(self).view(), old(self).limits(), path@, cwd@).1,
    {
        let abs = resolve_abs(path, cwd);
        let ev = FsEvent::Mkdir { path: string_of(abs.as_slice()) };
        self.create_at(&abs, Node::Dir, ev)
    }

    /// Makes a directory; false when the parent is missing or not a
    /// directory, the name is taken, or a limit is reached.
    pub fn mkdir(&mut self, path: &str, cwd: &str) -> (ok: bool)
        requires
            old(self).wf(),
        ensures
            final(self).wf(),
            final(self).limits() == old(self).limits(),
            ok == mkdir_spec(old(self).view(), old(self).limits(), path@, cwd@).0,
            final(self).view() == mkdir_spec(old(self).view(), old(self).limits(), path@, cwd@).1,
    {
        let p = chars_of(path);
        let c = chars_of(cwd);
        self.mkdir_chars(p.as_slice(), c.as_slice())
    }

    pub(crate) fn create_file_chars(&mut self, path: &[char], cwd: &[char]) -> (ok: bool)
        requires
            old(self).wf(),
        ensures
            final(self).wf(),
            final(self).limits() == old(self).limits(),
            ok == create_file_spec(old(self).view(), old(self).limits(), path@, cwd@).0,
            final(self).view() == create_file_spec(
                old(self).view(),
                old(self).limits(),
                path@,
                cwd@,
            ).1,
    {
        let abs = resolve_abs(path, cwd);
        let ev = FsEvent::CreateFile { path: string_of(abs.as_slice()) };
        let node = Node::File { content: Vec::new() };
        assert(node.view() == NodeView::File(seq![]));
        self.create_at(&abs, node, ev)
    }

    /// Makes an empty file; false when the parent is missing or not a
    /// directory, the name is taken, or a limit is reached.
    pub fn create_file(&mut self, path: &str, cwd: &str) -> (ok: bool)
        requires
            old(self).wf(),
        ensures
            final(self).wf(),
            final(self).limits() == old(self).limits(),
            ok == create_file_spec(old(self).view(), old(self).limits(), path@, cwd@).0,
            final(self).view() == create_file_spec(
                old(self).view(),
                old(self).limits(),
                path@,
                cwd@,
            ).1,
    {
        let p = chars_of(path);
        let c = chars_of(cwd);
        self.create_file_chars(p.as_slice(), c.as_slice())
    }

    pub(crate) fn write_chars(&mut self, path: &[char], cwd: &[char], data: &[u8]) -> (ok: bool)
        requires
            old(self).wf(),
        ensures
            final(self).wf(),
            final(self).limits() == old(self).limits(),
            ok == write_spec(old(self).view(), old(self).limits(), path@, cwd@, data@).0,
            final(self).view() == write_spec(
                old(self).view(),
                old(self).limits(),
                path@,
                cwd@,
                data@,
            ).1,
    {
        let ghost s0 = self.view();
        proof {
            lemma_write_tree(s0, self.limits, path@, cwd@, data@);
        }
        if data.len() > self.limits.max_file_size {
            return false;
        }
        let abs = resolve_abs(path, cwd);
        let mut root: Vec<char> = Vec::new();
        root.push('/');
        assert(root@ =~= seq!['/']);
        let again = resolve_abs(abs.as_slice(), root.as_slice());
        let k = Comps::of_abs(again);
        let size = data.len() as u64;
        let ev = FsEvent::WriteFile { path: string_of(abs.as_slice()), size };
        assert(ev.view() == FsEventView::WriteFile(abs@, data@.len() as u64));
        match self.lookup(&k) {
            Lookup::Root => {
                return false;
            },
            Lookup::Found(i) => {
                if self.entries[i].node.is_dir() {
                    return false;
                }
                let ghost kv = k.view();
                let e = Entry {
                    key: share(&self.entries[i].key),
                    node: Node::File { content: slice_to_vec(data) },
                };
                assert(e.node.view() == NodeView::File(data@));
                self.entries.set(i, e);
                self.events.push(ev);
                assert(self.view().entries =~= s0.entries.update(
                    i as int,
                    (kv, NodeView::File(data@)),
                ));
                assert(self.view().events =~= s0.events.push(ev.view()));
                return true;
            },
            Lookup::Missing => {},
        }
        let (pk, name) = Comps::parent_of(abs.as_slice());
        let (pdir, pchain) = match self.stored_at(&pk) {
            Some(x) => x,
            None => {
                return false;
            },
        };
        if self.total_nodes_reached() {
            return false;
        }
        if !pdir {
            return false;
        }
        if self.count_children(&pk) >= self.limits.max_dir_entries {
            return false;
        }
        let ck = pk.with_name(name.as_slice());
        let ghost ckv = ck.view();
        proof {
            lemma_split_len(s0.entries, ckv);
        }
        let moved = self.split_under(&ck);
        assert(moved@.len() == under(s0.entries, ckv).len()) by {
            assert(entry_views(moved@).len() == moved@.len());
        }
        self.detached = self.detached + moved.len() as u64;
        let e = Entry { key: push_key(&pchain, name), node: Node::File { content: slice_to_vec(data) } };
        let ghost mid = self.view().entries;
        self.entries.push(e);
        self.events.push(ev);
        assert(self.view().entries =~= mid.push((ckv, NodeView::File(data@))));
        assert(self.view().events =~= s0.events.push(ev.view()));
        true
    }

    /// Writes a file: an existing file gets the new content, otherwise a
    /// new file is made; false for a directory, a missing parent, content
    /// over the size limit, or a full directory or file system.
    pub fn write_file(&mut self, path: &str, cwd: &str, data: &[u8]) -> (ok: bool)
        requires
            old(self).wf(),
        ensures
            final(self).wf(),
            final(self).limits() == old(self).limits(),
            ok == write_spec(old(self).view(), old(self).limits(), path@, cwd@, data@).0,
            final(self).view() == write_spec(
                old(self).view(),
                old(self).limits(),
                path@,
                cwd@,
                data@,
            ).1,
    {
        let p = chars_of(path);
        let c = chars_of(cwd);
        self.write_chars(p.as_slice(), c.as_slice(), data)
    }

    pub(crate) fn remove_chars(&mut self, path: &[char], cwd: &[char]) -> (ok: bool)
        requires
            old(self).wf(),
        ensures
            final(self).wf(),
            final(self).limits() == old(self).limits(),
            ok == remove_spec(old(self).view(), path@, cwd@).0,
            final(self).view() == remove_spec(old(self).view(), path@, cwd@).1,
    {
        let ghost s0 = self.view();
        proof {
            lemma_remove_tree(s0, path@, cwd@);
        }
        let abs = resolve_abs(path, cwd);
        let (pk, name) = Comps::parent_of(abs.as_slice());
        let (pdir, pfound) = self.kind_at(&pk);
        if !(pfound && pdir) {
            return false;
        }
        let ck = pk.with_name(name.as_slice());
        match self.lookup(&ck) {
            Lookup::Found(i) => {
                if self.entries[i].node.is_dir() {
                    return false;
                }
            },
            _ => {
                return false;
            },
        }
        proof {
            lemma_without_key_len(s0.entries, ck.view());
        }
        self.remove_key(&ck);
        let ev = FsEvent::Remove { path: string_of(abs.as_slice()) };
        self.events.push(ev);
        assert(self.view().events =~= s0.events.push(ev.view()));
        true
    }

    /// Removes a file; false for a directory or a path that names nothing.
    pub fn remove(&mut self, path: &str, cwd: &str) -> (ok: bool)
        requires
            old(self).wf(),
        ensures
            final(self).wf(),
            final(self).limits() == old(self).limits(),
            ok == remove_spec(old(self).view(), path@, cwd@).0,
            final(self).view() == remove_spec(old(self).view(), path@, cwd@).1,
    {
        let p = chars_of(path);
        let c = chars_of(cwd);
        self.remove_chars(p.as_slice(), c.as_slice())
    }

    pub(crate) fn remove_all_chars(&mut self, path: &[char], cwd: &[char]) -> (ok: bool)
        requires
            old(self).wf(),
        ensures
            final(self).wf(),
            final(self).limits() == old(self).limits(),
            ok == remove_all_spec(old(self).view(), path@, cwd@).0,
            final(self).view() == remove_all_spec(old(self).view(), path@, cwd@).1,
    {
        let ghost s0 = self.view();
        proof {
            lemma_remove_all_tree(s0, path@, cwd@);
        }
        let abs = resolve_abs(path, cwd);
        let mut root: Vec<char> = Vec::new();
        root.push('/');
        assert(root@ =~= seq!['/']);
        if chars_eq(abs.as_slice(), root.as_slice()) {
            return false;
        }
        let (pk, name) = Comps::parent_of(abs.as_slice());
        let (pdir, pfound) = self.kind_at(&pk);
        if !(pfound && pdir) {
            return false;
        }
        let ck = pk.with_name(name.as_slice());
        match self.lookup(&ck) {
            Lookup::Found(_) => {},
            _ => {
                return false;
            },
        }
        proof {
            lemma_split_len(s0.entries, ck.view());
        }
        let _gone = self.split_under(&ck);
        let ev = FsEvent::RemoveAll { path: string_of(abs.as_slice()) };
        self.events.push(ev);
        assert(self.view().events =~= s0.events.push(ev.view()));
        true
    }

    /// Removes a node and everything below it; false for the root or a path
    /// that names nothing.
    pub fn remove_all(&mut self, path: &str, cwd: &str) -> (ok: bool)
        requires
            old(self).wf(),
        ensures
            final(self).wf(),
            final(self).limits() == old(self).limits(),
            ok == remove_all_spec(old(self).view(), path@, cwd@).0,
            final(self).view() == remove_all_spec(old(self).view(), path@, cwd@).1,
    {
        let p = chars_of(path);
        let c = chars_of(cwd);
        self.remove_all_chars(p.as_slice(), c.as_slice())
    }

    pub(crate) fn copy_chars(&mut self, src: &[char], dst: &[char], cwd: &[char]) -> (ok: bool)
        requires
            old(self).wf(),
        ensures
            final(self).wf(),
            final(self).limits() == old(self).limits(),
            ok == copy_spec(old(self).view(), old(self).limits(), src@, dst@, cwd@).0,
            final(self).view() == copy_spec(old(self).view(), old(self).limits(), src@, dst@, cwd@).1,
    {
        proof {
            lemma_copy_tree(self.view(), self.limits, src@, dst@, cwd@);
        }
        let src_abs = resolve_abs(src, cwd);
        let mut root: Vec<char> = Vec::new();
        root.push('/');
        assert(root@ =~= seq!['/']);
        let content = match self.read_chars(src_abs.as_slice(), root.as_slice()) {
            Some(c) => c,
            None => {
                return false;
            },
        };
        let dst_abs = resolve_abs(dst, cwd);
        let (ddir, _dfound) = self.kind_of_path(dst_abs.as_slice(), root.as_slice());
        let target = if ddir {
            let name = base_name_exec(src_abs.as_slice());
            child_path_exec(dst_abs.as_slice(), name.as_slice())
        } else {
            dst_abs
        };
        self.write_chars(target.as_slice(), root.as_slice(), content.as_slice())
    }

    /// Copies a file: into a directory under its own name, or to the path.
    pub fn copy_file(&mut self, src: &str, dst: &str, cwd: &str) -> (ok: bool)
        requires
            old(self).wf(),
        ensures
            final(self).wf(),
            final(self).limits() == old(self).limits(),
            ok == copy_spec(old(self).view(), old(self).limits(), src@, dst@, cwd@).0,
            final(self).view() == copy_spec(old(self).view(), old(self).limits(), src@, dst@, cwd@).1,
    {
        let s = chars_of(src);
        let d = chars_of(dst);
        let c = chars_of(cwd);
        self.copy_chars(s.as_slice(), d.as_slice(), c.as_slice())
    }

    pub(crate) fn move_chars(&mut self, src: &[char], dst: &[char], cwd: &[char]) -> (ok: bool)
        requires
            old(self).wf(),
        ensures
            final(self).wf(),
            final(self).limits() == old(self).limits(),
            ok == move_spec(old(self).view(), src@, dst@, cwd@).0,
            final(self).view() == move_spec(old(self).view(), src@, dst@, cwd@).1,
    {
        let ghost s0 = self.view();
        proof {
            lemma_move_tree(s0, src@, dst@, cwd@);
        }
        let src_abs = resolve_abs(src, cwd);
        let mut root: Vec<char> = Vec::new();
        root.push('/');
        assert(root@ =~= seq!['/']);
        if chars_eq(src_abs.as_slice(), root.as_slice()) {
            return false;
        }
        let (spk, sname) = Comps::parent_of(src_abs.as_slice());
        let (spdir, spfound) = self.kind_at(&spk);
        if !(spfound && spdir) {
            return false;
        }
        let sk = spk.with_name(sname.as_slice());
        match self.lookup(&sk) {
            Lookup::Found(_) => {},
            _ => {
                return false;
            },
        }
        let ghost skv = sk.view();
        proof {
            lemma_split_len(s0.entries, skv);
            lemma_under_prefix(s0.entries, skv);
        }
        let moving = self.split_under(&sk);
        let from_len = sk.len();
        assert forall|i: int| 0 <= i < moving@.len() implies from_len <= chain_view(
            Some((#[trigger] moving@[i]).key),
        ).len() by {
            assert(entry_views(moving@)[i].0 == chain_view(Some(moving@[i].key)));
            assert(has_key_prefix(under(s0.entries, skv)[i].0, skv));
        }
        assert(moving@.len() == under(s0.entries, skv).len()) by {
            assert(entry_views(moving@).len() == moving@.len());
        }
        let ghost es1 = self.view().entries;
        let dst_abs = resolve_abs(dst, cwd);
        let (ddir, _dfound) = self.kind_of_path(dst_abs.as_slice(), root.as_slice());
        let final_dst = if ddir {
            child_path_exec(dst_abs.as_slice(), sname.as_slice())
        } else {
            dst_abs
        };
        let (dpk, dname) = Comps::parent_of(final_dst.as_slice());
        let dpchain = match self.stored_at(&dpk) {
            Some((true, ch)) => ch,
            _ => {
                self.detached = self.detached + moving.len() as u64;
                return false;
            },
        };
        let dk = dpk.with_name(dname.as_slice());
        if let Lookup::Found(_) = self.lookup(&dk) {
            proof {
                lemma_split_len(es1, dk.view());
            }
            let _replaced = self.split_under(&dk);
        }
        let dkey = push_key(&dpchain, dname);
        self.append_rebased(&moving, from_len, &dkey);
        let ev = FsEvent::Move {
            src: string_of(src_abs.as_slice()),
            dst: string_of(final_dst.as_slice()),
        };
        self.events.push(ev);
        assert(self.view().events =~= s0.events.push(ev.view()));
        true
    }

    /// Moves a node with everything below it: into a directory under its
    /// own name, or to the path (replacing what is there).
    pub fn move_node(&mut self, src: &str, dst: &str, cwd: &str) -> (ok: bool)
        requires
            old(self).wf(),
        ensures
            final(self).wf(),
            final(self).limits() == old(self).limits(),
            ok == move_spec(old(self).view(), src@, dst@, cwd@).0,
            final(self).view() == move_spec(old(self).view(), src@, dst@, cwd@).1,
    {
        let s = chars_of(src);
        let d = chars_of(dst);
        let c = chars_of(cwd);
        self.move_chars(s.as_slice(), d.as_slice(), c.as_slice())
    }

    /// The names of the children of a directory key, in entry order.
    fn child_names_exec(&self, pk: &Comps) -> (r: Vec<Vec<char>>)
        ensures
            views(r@) == child_names(self.view().entries, pk.view()),
    {
        let ghost es = self.view().entries;
        let ghost pv = pk.view();
        let mut r: Vec<Vec<char>> = Vec::new();
        let mut i: usize = 0;
        while i < self.entries.len()
            invariant
                i <= self.entries@.len(),
                es == self.view().entries,
                pv == pk.view(),
                views(r@) == child_names(es.take(i as int), pv),
            decreases self.entries@.len() - i,
        {
            assert(es.take(i + 1).drop_last() =~= es.take(i as int));
            assert(es.take(i + 1).last() == es[i as int]);
            if chain_is_child(&self.entries[i].key, pk) {
                let last = crate::text::clone_chars(key_name(&self.entries[i].key).as_slice());
                assert(last@ == es[i as int].0.last());
                let ghost before = views(r@);
                r.push(last);
                assert(views(r@) =~= before.push(last@));
            }
            i = i + 1;
        }
        assert(es.take(self.entries@.len() as int) =~= es);
        r
    }

    fn entry_of_exec(&self, k: &Comps, name: &Vec<char>) -> (r: DirEntry)
        ensures
            (r.name@, r.is_dir, r.size) == entry_of(self.view().entries, k.view(), name@),
    {
        let ck = k.with_name(name.as_slice());
        let n = crate::text::clone_chars(name.as_slice());
        match self.lookup(&ck) {
            Lookup::Found(j) => match &self.entries[j].node {
                Node::File { content } => DirEntry { name: string_of(n.as_slice()), is_dir: false, size: content.len() as u64 },
                Node::Dir => DirEntry { name: string_of(n.as_slice()), is_dir: true, size: 0 },
            },
            _ => DirEntry { name: string_of(n.as_slice()), is_dir: false, size: 0 },
        }
    }

    pub(crate) fn list_chars(&self, path: &[char], cwd: &[char], show_hidden: bool) -> (r: Option<Vec<DirEntry>>)
        ensures
            match r {
                Some(v) => list_spec(self.view(), path@, cwd@, show_hidden) == Some(dir_entry_views(v@)),
                None => list_spec(self.view(), path@, cwd@, show_hidden) is None,
            },
    {
        let ghost es = self.view().entries;
        let abs = resolve_abs(path, cwd);
        let k = Comps::of_abs(abs);
        let (isdir, _found) = self.kind_at(&k);
        if !isdir {
            return None;
        }
        let ghost kv = k.view();
        let names = self.child_names_exec(&k);
        let sorted = sort_lines(&names);
        let ghost sv = views(sorted@);
        let mut out: Vec<DirEntry> = Vec::new();
        let mut i: usize = 0;
        while i < sorted.len()
            invariant
                i <= sorted@.len(),
                es == self.view().entries,
                kv == k.view(),
                sv == views(sorted@),
                dir_entry_views(out@) == listing(es, kv, shown(sv.take(i as int), show_hidden)),
            decreases sorted@.len() - i,
        {
            let ghost t = sv.take(i + 1);
            assert(t.drop_last() =~= sv.take(i as int));
            assert(t.last() == sorted@[i as int]@);
            let n = &sorted[i];
            let is_hidden = n.len() > 0 && n[0] == '.';
            assert(is_hidden == hidden(n@));
            if show_hidden || !is_hidden {
                let d = self.entry_of_exec(&k, n);
                let ghost before = dir_entry_views(out@);
                let ghost sh = shown(sv.take(i as int), show_hidden);
                let ghost dv = (d.name@, d.is_dir, d.size);
                out.push(d);
                assert(shown(t, show_hidden) == sh.push(n@));
                assert(dir_entry_views(out@) =~= before.push(dv));
                assert(listing(es, kv, sh.push(n@)) =~= listing(es, kv, sh).push(entry_of(es, kv, n@)));
            }
            i = i + 1;
        }
        assert(sv.take(sorted@.len() as int) =~= sv);
        Some(out)
    }

    /// Lists a directory: its children sorted by name, with whether each is
    /// a directory and its size; `None` for a file or a missing path.
    pub fn list_dir(&self, path: &str, cwd: &str, show_hidden: bool) -> (r: Option<Vec<DirEntry>>)
        ensures
            match r {
                Some(v) => list_spec(self.view(), path@, cwd@, show_hidden) == Some(dir_entry_views(v@)),
                None => list_spec(self.view(), path@, cwd@, show_hidden) is None,
            },
    {
        let p = chars_of(path);
        let c = chars_of(cwd);
        self.list_chars(p.as_slice(), c.as_slice(), show_hidden)
    }

    fn find_rec(
        &self,
        k: &Comps,
        path: &Vec<char>,
        pat: &[char],
        depth: usize,
        out: &mut Vec<Vec<char>>,
    )
        requires
            depth <= find_depth(),
        ensures
            views(final(out)@) == views(old(out)@) + find_at(
                self.view().entries,
                k.view(),
                path@,
                pat@,
                (find_depth() - depth) as nat,
            ),
        decreases find_depth() - depth,
    {
        let ghost es = self.view().entries;
        let ghost kv = k.view();
        let ghost fuel = (find_depth() - depth) as nat;
        if depth > 100 {
            assert(views(out@) =~= views(out@) + seq![]);
            return;
        }
        let ghost out0 = views(out@);
        let mut root: Vec<char> = Vec::new();
        root.push('/');
        assert(root@ =~= seq!['/']);
        let name = if chars_eq(path.as_slice(), root.as_slice()) {
            root
        } else {
            base_name_exec(path.as_slice())
        };
        assert(name@ == find_name(path@));
        let ghost own: Seq<Seq<char>> = if glob_spec(pat@, find_name(path@)) {
            seq![path@]
        } else {
            seq![]
        };
        if glob_matches(pat, name.as_slice()) {
            out.push(crate::text::clone_chars(path.as_slice()));
        }
        assert(views(out@) =~= out0 + own);
        let (isdir, _found) = self.kind_at(k);
        if isdir {
            let names = self.child_names_exec(k);
            let sorted = sort_lines(&names);
            let ghost sv = views(sorted@);
            let mut i: usize = 0;
            while i < sorted.len()
                invariant
                    i <= sorted@.len(),
                    depth <= 100,
                    fuel == (find_depth() - depth) as nat,
                    es == self.view().entries,
                    kv == k.view(),
                    sv == views(sorted@),
                    views(out@) == out0 + own + find_in(
                        es,
                        kv,
                        path@,
                        sv.take(i as int),
                        pat@,
                        (fuel - 1) as nat,
                    ),
                decreases sorted@.len() - i,
            {
                let ghost t = sv.take(i + 1);
                assert(t.drop_last() =~= sv.take(i as int));
                assert(t.last() == sorted@[i as int]@);
                let ck = k.with_name(sorted[i].as_slice());
                let cp = child_path_exec(path.as_slice(), sorted[i].as_slice());
                let ghost before = views(out@);
                self.find_rec(&ck, &cp, pat, depth + 1, out);
                assert(views(out@) =~= out0 + own + find_in(es, kv, path@, t, pat@, (fuel - 1) as nat));
                i = i + 1;
            }
            assert(sv.take(sorted@.len() as int) =~= sv);
        } else {
            assert(own =~= own + seq![]);
        }
    }

    pub(crate) fn find_chars(&self, sp0: &[char], pat: &[char]) -> (found: Vec<Vec<char>>)
        ensures
            views(found@) == find_spec(self.view(), sp0@, pat@),
    {
        let mut root: Vec<char> = Vec::new();
        root.push('/');
        assert(root@ =~= seq!['/']);
        let sp = if sp0.len() == 0 {
            crate::text::clone_chars(root.as_slice())
        } else {
            crate::text::clone_chars(sp0)
        };
        let abs0 = normalize_path(sp.as_slice());
        let abs = if abs0.len() == 0 {
            crate::text::clone_chars(root.as_slice())
        } else {
            abs0
        };
        let again = resolve_abs(abs.as_slice(), root.as_slice());
        let k = Comps::of_abs(again);
        let mut found: Vec<Vec<char>> = Vec::new();
        let (_isdir, exists_here) = self.kind_at(&k);
        if exists_here {
            self.find_rec(&k, &abs, pat, 0, &mut found);
        }
        assert(views(found@) =~= find_spec(self.view(), sp0@, pat@));
        found
    }

    /// The paths below a start path (itself included) whose last component
    /// matches a glob pattern.
    pub fn find(&self, start_path: &str, pattern: &str) -> (r: Vec<String>)
        ensures
            string_views(r@) == find_spec(self.view(), start_path@, pattern@),
    {
        let sp0 = chars_of(start_path);
        let pat = chars_of(pattern);
        let found = self.find_chars(sp0.as_slice(), pat.as_slice());
        let mut r: Vec<String> = Vec::new();
        let mut i: usize = 0;
        while i < found.len()
            invariant
                i <= found@.len(),
                string_views(r@) =~= views(found@).take(i as int),
            decreases found@.len() - i,
        {
            let ghost before = string_views(r@);
            r.push(string_of(found[i].as_slice()));
            assert(string_views(r@) =~= before.push(found@[i as int]@));
            assert(views(found@).take(i + 1) =~= views(found@).take(i as int).push(found@[i as int]@));
            i = i + 1;
        }
        assert(views(found@).take(found@.len() as int) =~= views(found@));
        r
    }

    /// The events recorded so far, oldest first.
    pub fn events(&self) -> (r: &Vec<FsEvent>)
        ensures
            event_views(r@) == self.view().events,
    {
        &self.events
    }

    /// Hands out the recorded events and forgets them.
    pub fn take_events(&mut self) -> (r: Vec<FsEvent>)
        ensures
            event_views(r@) == old(self).view().events,
            final(self).view() == (FsView { events: seq![], ..old(self).view() }),
            final(self).limits() == old(self).limits(),
            final(self).wf() == old(self).wf(),
    {
        let mut r: Vec<FsEvent> = Vec::new();
        std::mem::swap(&mut self.events, &mut r);
        assert(self.view().events =~= seq![]);
        r
    }

    /// Forgets the recorded events.
    pub fn clear_events(&mut self)
        ensures
            final(self).view() == (FsView { events: seq![], ..old(self).view() }),
            final(self).limits() == old(self).limits(),
            final(self).wf() == old(self).wf(),
    {
        self.events = Vec::new();
        assert(self.view().events =~= seq![]);
    }
}

impl Default for Fs {
    fn default() -> (r: Fs)
        ensures
            r.wf(),
            r.view() == fresh_view(),
            r.limits() == default_limits(),
    {
        Fs::new()
    }
}

// ══════════════════════════════════════════════════════════════════
// `find` one directory at a time
// ══════════════════════════════════════════════════════════════════

/// Where a `find` walk starts: the normalized start path (`/` when empty).
pub open spec fn find_start_spec(start: Seq<char>) -> Seq<char> {
    let sp = if start.len() == 0 {
        seq!['/']
    } else {
        start
    };
    let abs0 = normalize_spec(sp);
    if abs0.len() == 0 {
        seq!['/']
    } else {
        abs0
    }
}

/// One step of a `find` walk over a file system that is listed one
/// directory at a time: at `path`, `depth` levels below the start, whether
/// the path is reported, and the children to visit next (in the listing's
/// order, one level deeper). Past 100 levels the walk stops.
pub open spec fn find_visit_spec(path: Seq<char>, pat: Seq<char>, depth: nat, listing: Option<Seq<Seq<char>>>) -> (
    bool,
    Seq<(Seq<char>, nat)>,
) {
    if depth > 100 {
        (false, seq![])
    } else {
        (
            glob_spec(pat, find_name(path)),
            match listing {
                Some(ns) => Seq::new(ns.len(), |i: int| (child_path(path, ns[i]), depth + 1)),
                None => seq![],
            },
        )
    }
}

pub open spec fn listing_names(l: Option<Vec<DirEntry>>) -> Option<Seq<Seq<char>>> {
    match l {
        Some(v) => Some(Seq::new(v@.len(), |i: int| v@[i].name@)),
        None => None,
    }
}

/// Where a `find` walk starts.
pub fn find_start(start: &str) -> (r: String)
    ensures
        r@ == find_start_spec(start@),
{
    let mut root: Vec<char> = Vec::new();
    root.push('/');
    assert(root@ =~= seq!['/']);
    let sp0 = chars_of(start);
    let sp = if sp0.len() == 0 {
        crate::text::clone_chars(root.as_slice())
    } else {
        sp0
    };
    let abs0 = normalize_path(sp.as_slice());
    let abs = if abs0.len() == 0 {
        root
    } else {
        abs0
    };
    string_of(abs.as_slice())
}

/// One step of a `find` walk (see `find_visit_spec`); `listing` is what
/// listing `path` gave.
pub fn find_visit(path: &str, pattern: &str, depth: usize, listing: &Option<Vec<DirEntry>>) -> (r: (
    bool,
    Vec<(String, usize)>,
))
    ensures
        r.0 == find_visit_spec(path@, pattern@, depth as nat, listing_names(*listing)).0,
        Seq::new(r.1@.len(), |i: int| (r.1@[i].0@, r.1@[i].1 as nat)) == find_visit_spec(
            path@,
            pattern@,
            depth as nat,
            listing_names(*listing),
        ).1,
{
    let mut next: Vec<(String, usize)> = Vec::new();
    if depth > 100 {
        assert(Seq::new(next@.len(), |i: int| (next@[i].0@, next@[i].1 as nat)) =~= seq![]);
        return (false, next);
    }
    let p = chars_of(path);
    let pat = chars_of(pattern);
    let mut root: Vec<char> = Vec::new();
    root.push('/');
    assert(root@ =~= seq!['/']);
    let name = if chars_eq(p.as_slice(), root.as_slice()) {
        root
    } else {
        base_name_exec(p.as_slice())
    };
    let hit = glob_matches(pat.as_slice(), name.as_slice());
    match listing {
        Some(v) => {
            let ghost ns = Seq::new(v@.len(), |i: int| v@[i].name@);
            let mut i: usize = 0;
            while i < v.len()
                invariant
                    i <= v@.len(),
                    depth <= 100,
                    p@ == path@,
                    ns == Seq::new(v@.len(), |i: int| v@[i].name@),
                    next@.len() == i,
                    forall|j: int|
                        0 <= j < i ==> (#[trigger] next@[j]).0@ == child_path(path@, ns[j]) && next@[j].1 == depth
                            + 1,
                decreases v@.len() - i,
            {
                let nm = chars_of(v[i].name.as_str());
                let c = child_path_exec(p.as_slice(), nm.as_slice());
                next.push((string_of(c.as_slice()), depth + 1));
                i = i + 1;
            }
            assert(Seq::new(next@.len(), |i: int| (next@[i].0@, next@[i].1 as nat)) =~= Seq::new(
                ns.len(),
                |i: int| (child_path(path@, ns[i]), (depth + 1) as nat),
            ));
        },
        None => {
            assert(Seq::new(next@.len(), |i: int| (next@[i].0@, next@[i].1 as nat)) =~= seq![]);
        },
    }
    (hit, next)
}

} // verus!
