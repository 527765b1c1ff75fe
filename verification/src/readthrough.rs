//! The in-memory layer of the read-through file system: files written,
//! directories known (loaded from disk or made), and paths deleted. Reads
//! that the layer cannot answer fall through to the disk. The caller reads
//! the disk first and hands over what it found at the paths involved (see
//! `read_through_paths`); every decision is made here.
use crate::assoc::{find_first, lemma_find_first, lemma_find_first_none, without_key};
use crate::fs::{child_path, DirEntry};
use crate::overlay::{listing_spec, named_views, read_through_list};
use crate::parser::string_views;
use crate::paths::{
    ancestors, ancestors_spec, base_name, base_name_exec, last_index, resolve_abs,
    resolve_abs_spec, split_path, split_path_spec,
};
use crate::text::{chars_eq, chars_of, clone_chars, push_all, split_chars, split_on, string_of, subvec, views};
use vstd::prelude::*;
use vstd::slice::slice_to_vec;

verus! {

// ══════════════════════════════════════════════════════════════════
// What the disk showed
// ══════════════════════════════════════════════════════════════════

/// What the disk shows at a virtual path.
pub struct DiskFact {
    /// The virtual path.
    pub path: String,
    /// It exists and resolves inside the disk root.
    pub inside: bool,
    /// It is a directory.
    pub is_dir: bool,
    /// It is a regular file.
    pub is_file: bool,
    /// Its entries (names, and whether each is a directory), when it is a
    /// directory that could be read.
    pub listing: Option<Vec<(String, bool)>>,
    /// Its bytes, when they were asked for and could be read.
    pub content: Option<Vec<u8>>,
}

pub struct FactView {
    pub path: Seq<char>,
    pub inside: bool,
    pub is_dir: bool,
    pub is_file: bool,
    pub listing: Option<Seq<(Seq<char>, bool)>>,
    pub content: Option<Seq<u8>>,
}

pub open spec fn fact_view(f: DiskFact) -> FactView {
    FactView {
        path: f.path@,
        inside: f.inside,
        is_dir: f.is_dir,
        is_file: f.is_file,
        listing: match f.listing {
            Some(l) => Some(named_views(l@)),
            None => None,
        },
        content: match f.content {
            Some(c) => Some(c@),
            None => None,
        },
    }
}

pub open spec fn fact_views(v: Seq<DiskFact>) -> Seq<FactView> {
    Seq::new(v.len(), |i: int| fact_view(v[i]))
}

/// What the disk showed at `p`: the first fact about it; a path nothing
/// was found about is not on disk.
pub open spec fn fact_at(fs: Seq<FactView>, p: Seq<char>) -> FactView
    decreases fs.len(),
{
    if fs.len() == 0 {
        FactView { path: p, inside: false, is_dir: false, is_file: false, listing: None, content: None }
    } else if fs[0].path == p {
        fs[0]
    } else {
        fact_at(fs.drop_first(), p)
    }
}

// ══════════════════════════════════════════════════════════════════
// The layer
// ══════════════════════════════════════════════════════════════════

/// The in-memory layer: file contents by path, the children of each known
/// directory by path, and the deleted paths.
pub struct RtView {
    pub files: Seq<(Seq<char>, Seq<u8>)>,
    pub dirs: Seq<(Seq<char>, Seq<Seq<char>>)>,
    pub deleted: Seq<Seq<char>>,
}

/// The value stored under a key (its first entry).
pub open spec fn lookup<V>(s: Seq<(Seq<char>, V)>, k: Seq<char>) -> Option<V> {
    match find_first(s, k) {
        Some(i) => Some(s[i].1),
        None => None,
    }
}

/// A key set to a value: its first entry changed, or a new entry.
pub open spec fn put<V>(s: Seq<(Seq<char>, V)>, k: Seq<char>, v: V) -> Seq<(Seq<char>, V)> {
    match find_first(s, k) {
        Some(i) => s.update(i, (k, v)),
        None => s.push((k, v)),
    }
}

/// The names of a listing, each once, in order of first appearance.
pub open spec fn uniq_names(l: Seq<(Seq<char>, bool)>) -> Seq<Seq<char>>
    decreases l.len(),
{
    if l.len() == 0 {
        seq![]
    } else {
        let u = uniq_names(l.drop_last());
        if u.contains(l.last().0) {
            u
        } else {
            u.push(l.last().0)
        }
    }
}

/// A directory loaded from disk into the layer, unless it is known or
/// deleted already.
pub open spec fn populate(st: RtView, fs: Seq<FactView>, p: Seq<char>) -> RtView {
    if lookup(st.dirs, p) is Some || st.deleted.contains(p) {
        st
    } else {
        let f = fact_at(fs, p);
        if !f.inside {
            st
        } else {
            match f.listing {
                Some(l) => RtView { dirs: put(st.dirs, p, uniq_names(l)), ..st },
                None => st,
            }
        }
    }
}

/// Components joined by `/`, the first without one before it (as a text
/// that grows by `/` and a component, but only once it is not empty).
pub open spec fn cur_join(cs: Seq<Seq<char>>) -> Seq<char>
    decreases cs.len(),
{
    if cs.len() == 0 {
        seq![]
    } else {
        let c = cur_join(cs.drop_last());
        if c.len() == 0 {
            cs.last()
        } else {
            c + seq!['/'] + cs.last()
        }
    }
}

/// The components of a path after its first character.
pub open spec fn comps_after_first(p: Seq<char>) -> Seq<Seq<char>> {
    split_on(p.drop_first(), '/')
}

/// The directories that loading the way to `p` loads, in order.
pub open spec fn prefix_parents(p: Seq<char>) -> Seq<Seq<char>> {
    let cs = comps_after_first(p);
    Seq::new(cs.len(), |k: int| cur_join(cs.take(k)))
}

pub open spec fn populate_all(st: RtView, fs: Seq<FactView>, ps: Seq<Seq<char>>) -> RtView
    decreases ps.len(),
{
    if ps.len() == 0 {
        st
    } else {
        populate(populate_all(st, fs, ps.drop_last()), fs, ps.last())
    }
}

/// Loading every directory on the way to `p`.
pub open spec fn ensure_spec(st: RtView, fs: Seq<FactView>, p: Seq<char>) -> RtView {
    if p == seq!['/'] || p.len() == 0 {
        st
    } else {
        populate_all(st, fs, prefix_parents(p))
    }
}

/// Whether the layer alone reaches `p`.
pub open spec fn walk_spec(st: RtView, p: Seq<char>) -> bool {
    if st.deleted.contains(p) {
        false
    } else if p == seq!['/'] {
        lookup(st.dirs, seq!['/']) is Some
    } else {
        let cs = comps_after_first(p);
        forall|k: int|
            0 <= k < cs.len() ==> !st.deleted.contains(#[trigger] cur_join(cs.take(k + 1))) && (
            lookup(st.dirs, cur_join(cs.take(k))) matches Some(e) && e.contains(cs[k]))
    }
}

pub open spec fn is_layer_dir(st: RtView, p: Seq<char>) -> bool {
    lookup(st.dirs, p) is Some && !st.deleted.contains(p)
}

/// A directory on the way to `abs` (or `abs` itself) is deleted.
pub open spec fn hidden_above(st: RtView, abs: Seq<char>) -> bool {
    exists|i: int| 0 <= i < ancestors_spec(abs).len() && st.deleted.contains(#[trigger] ancestors_spec(abs)[i])
}

/// A path whose first character is one byte long (the operations read
/// the path after that character).
pub open spec fn sliceable(p: Seq<char>) -> bool {
    p.len() > 0 && (p[0] as u32) < 0x80
}

// ── Queries ──────────────────────────────────────────────────────

pub open spec fn rt_resolve(st: RtView, fs: Seq<FactView>, abs: Seq<char>) -> bool {
    if hidden_above(st, abs) {
        false
    } else if walk_spec(st, abs) {
        true
    } else {
        fact_at(fs, abs).inside
    }
}

pub open spec fn rt_read(st: RtView, fs: Seq<FactView>, abs: Seq<char>) -> Option<Seq<u8>> {
    if hidden_above(st, abs) || st.deleted.contains(abs) {
        None
    } else if lookup(st.files, abs) is Some {
        lookup(st.files, abs)
    } else if lookup(st.dirs, abs) is Some {
        None
    } else if !fact_at(fs, abs).inside {
        None
    } else {
        fact_at(fs, abs).content
    }
}

pub open spec fn rt_exists(st: RtView, fs: Seq<FactView>, abs: Seq<char>) -> bool {
    if hidden_above(st, abs) || st.deleted.contains(abs) {
        false
    } else {
        lookup(st.files, abs) is Some || lookup(st.dirs, abs) is Some || fact_at(fs, abs).inside
    }
}

pub open spec fn rt_is_dir(st: RtView, fs: Seq<FactView>, abs: Seq<char>) -> bool {
    if hidden_above(st, abs) || st.deleted.contains(abs) {
        false
    } else if lookup(st.dirs, abs) is Some {
        true
    } else if lookup(st.files, abs) is Some {
        false
    } else {
        fact_at(fs, abs).inside && fact_at(fs, abs).is_dir
    }
}

// ── Changes ──────────────────────────────────────────────────────

/// A name added to the children of a known directory (nothing for an
/// unknown one).
pub open spec fn add_child(dirs: Seq<(Seq<char>, Seq<Seq<char>>)>, p: Seq<char>, name: Seq<char>) -> Seq<
    (Seq<char>, Seq<Seq<char>>),
> {
    match find_first(dirs, p) {
        Some(i) => if dirs[i].1.contains(name) {
            dirs
        } else {
            dirs.update(i, (p, dirs[i].1.push(name)))
        },
        None => dirs,
    }
}

pub open spec fn without_name(cs: Seq<Seq<char>>, name: Seq<char>) -> Seq<Seq<char>>
    decreases cs.len(),
{
    if cs.len() == 0 {
        cs
    } else if cs.last() == name {
        without_name(cs.drop_last(), name)
    } else {
        without_name(cs.drop_last(), name).push(cs.last())
    }
}

/// A name taken out of the children of a known directory.
pub open spec fn del_child(dirs: Seq<(Seq<char>, Seq<Seq<char>>)>, p: Seq<char>, name: Seq<char>) -> Seq<
    (Seq<char>, Seq<Seq<char>>),
> {
    match find_first(dirs, p) {
        Some(i) => dirs.update(i, (p, without_name(dirs[i].1, name))),
        None => dirs,
    }
}

pub open spec fn add_deleted(d: Seq<Seq<char>>, p: Seq<char>) -> Seq<Seq<char>> {
    if d.contains(p) {
        d
    } else {
        d.push(p)
    }
}

/// `k` is `abs` or below it.
pub open spec fn at_or_under(k: Seq<char>, abs: Seq<char>) -> bool {
    abs.len() <= k.len() && k.take(abs.len() as int) == abs && (k.len() == abs.len() || k[abs.len() as int]
        == '/')
}

pub open spec fn keep_outside<V>(s: Seq<(Seq<char>, V)>, abs: Seq<char>) -> Seq<(Seq<char>, V)>
    decreases s.len(),
{
    if s.len() == 0 {
        s
    } else if at_or_under(s.last().0, abs) {
        keep_outside(s.drop_last(), abs)
    } else {
        keep_outside(s.drop_last(), abs).push(s.last())
    }
}

/// The disk entries of a directory marked deleted, in order.
pub open spec fn delete_listed(d: Seq<Seq<char>>, abs: Seq<char>, l: Seq<(Seq<char>, bool)>) -> Seq<Seq<char>>
    decreases l.len(),
{
    if l.len() == 0 {
        d
    } else {
        add_deleted(delete_listed(d, abs, l.drop_last()), child_path(abs, l.last().0))
    }
}

/// The way to `p` can be loaded without reading past a first character of
/// more than one byte.
pub open spec fn ensure_ok(p: Seq<char>) -> bool {
    p == seq!['/'] || p.len() == 0 || sliceable(p)
}

pub open spec fn rt_mkdir(st: RtView, fs: Seq<FactView>, path: Seq<char>, cwd: Seq<char>) -> (bool, RtView) {
    let abs = resolve_abs_spec(path, cwd);
    if abs == seq!['/'] {
        (false, st)
    } else {
        let (pp, name) = split_path_spec(abs);
        let s1 = ensure_spec(st, fs, pp);
        let f = fact_at(fs, pp);
        if !is_layer_dir(s1, pp) && (!f.inside || !f.is_dir) {
            (false, s1)
        } else {
            let s2 = if is_layer_dir(s1, pp) {
                s1
            } else {
                populate(s1, fs, pp)
            };
            if (lookup(s2.dirs, pp) matches Some(e) && e.contains(name)) || fact_at(fs, abs).inside {
                (false, s2)
            } else {
                (true, RtView { dirs: add_child(put(s2.dirs, abs, seq![]), pp, name), ..s2 })
            }
        }
    }
}

pub open spec fn rt_create_file(st: RtView, fs: Seq<FactView>, path: Seq<char>, cwd: Seq<char>) -> (
    bool,
    RtView,
) {
    let abs = resolve_abs_spec(path, cwd);
    if abs == seq!['/'] {
        (false, st)
    } else {
        let (pp, name) = split_path_spec(abs);
        let s1 = ensure_spec(st, fs, pp);
        let f = fact_at(fs, pp);
        if !is_layer_dir(s1, pp) && (!f.inside || !f.is_dir) {
            (false, s1)
        } else {
            let s2 = if is_layer_dir(s1, pp) {
                s1
            } else {
                populate(s1, fs, pp)
            };
            if lookup(s2.dirs, pp) matches Some(e) && e.contains(name) {
                (false, s2)
            } else {
                (
                    true,
                    RtView {
                        files: put(s2.files, abs, seq![]),
                        dirs: add_child(s2.dirs, pp, name),
                        ..s2
                    },
                )
            }
        }
    }
}

/// Writing a file: a file of the layer is replaced; otherwise its parent
/// must be a directory of the layer or of the disk.
pub open spec fn rt_write(st: RtView, fs: Seq<FactView>, path: Seq<char>, cwd: Seq<char>, data: Seq<u8>) -> (
    bool,
    RtView,
) {
    let abs = resolve_abs_spec(path, cwd);
    if lookup(st.files, abs) is Some {
        (true, RtView { files: put(st.files, abs, data), ..st })
    } else if is_layer_dir(st, abs) {
        (false, st)
    } else {
        let (pp, name) = split_path_spec(abs);
        let s1 = ensure_spec(st, fs, pp);
        let parent_ok = is_layer_dir(s1, pp) || (fact_at(fs, pp).inside && fact_at(fs, pp).is_dir);
        if !parent_ok {
            (false, s1)
        } else {
            let s2 = populate(RtView { files: put(s1.files, abs, data), ..s1 }, fs, pp);
            (true, RtView { dirs: add_child(s2.dirs, pp, name), ..s2 })
        }
    }
}

pub open spec fn write_ok(st: RtView, path: Seq<char>, cwd: Seq<char>) -> bool {
    let abs = resolve_abs_spec(path, cwd);
    lookup(st.files, abs) is Some || is_layer_dir(st, abs) || ensure_ok(split_path_spec(abs).0)
}

/// Removing a file: one of the layer, or one of the disk (then hidden).
pub open spec fn rt_remove(st: RtView, fs: Seq<FactView>, path: Seq<char>, cwd: Seq<char>) -> (bool, RtView) {
    let abs = resolve_abs_spec(path, cwd);
    if abs == seq!['/'] {
        (false, st)
    } else if lookup(st.files, abs) is Some {
        let (pp, name) = split_path_spec(abs);
        (
            true,
            RtView {
                files: without_key(st.files, abs),
                dirs: del_child(st.dirs, pp, name),
                deleted: add_deleted(st.deleted, abs),
            },
        )
    } else if is_layer_dir(st, abs) {
        (false, st)
    } else if fact_at(fs, abs).inside && fact_at(fs, abs).is_file {
        (true, RtView { deleted: add_deleted(st.deleted, abs), ..st })
    } else {
        (false, st)
    }
}

/// Removing a node and everything below it.
pub open spec fn rt_remove_all(st: RtView, fs: Seq<FactView>, path: Seq<char>, cwd: Seq<char>) -> (
    bool,
    RtView,
) {
    let abs = resolve_abs_spec(path, cwd);
    if abs == seq!['/'] {
        (false, st)
    } else {
        let f = fact_at(fs, abs);
        let d1 = if f.inside && f.listing is Some {
            delete_listed(st.deleted, abs, f.listing.unwrap())
        } else {
            st.deleted
        };
        let (pp, name) = split_path_spec(abs);
        (
            true,
            RtView {
                files: keep_outside(st.files, abs),
                dirs: del_child(keep_outside(st.dirs, abs), pp, name),
                deleted: add_deleted(d1, abs),
            },
        )
    }
}

/// Where a copy or a move lands: below the destination when that is a
/// directory, under the source's name; else the destination.
pub open spec fn landing(st: RtView, fs: Seq<FactView>, src_abs: Seq<char>, dst_abs: Seq<char>) -> Seq<char> {
    if rt_is_dir(st, fs, resolve_abs_spec(dst_abs, seq!['/'])) {
        child_path(dst_abs, base_name(src_abs))
    } else {
        dst_abs
    }
}

pub open spec fn rt_copy(st: RtView, fs: Seq<FactView>, src: Seq<char>, dst: Seq<char>, cwd: Seq<char>) -> (
    bool,
    RtView,
) {
    let src_abs = resolve_abs_spec(src, cwd);
    match rt_read(st, fs, src_abs) {
        None => (false, st),
        Some(content) => {
            let dst_abs = resolve_abs_spec(dst, cwd);
            rt_write(st, fs, landing(st, fs, src_abs, dst_abs), seq!['/'], content)
        },
    }
}

pub open spec fn copy_ok(st: RtView, fs: Seq<FactView>, src: Seq<char>, dst: Seq<char>, cwd: Seq<char>) -> bool {
    let src_abs = resolve_abs_spec(src, cwd);
    let dst_abs = resolve_abs_spec(dst, cwd);
    &&& sliceable(src_abs)
    &&& rt_read(st, fs, src_abs) is Some ==> sliceable(resolve_abs_spec(dst_abs, seq!['/'])) && write_ok(
        st,
        landing(st, fs, src_abs, dst_abs),
        seq!['/'],
    )
}

/// Moving a file: read, removed, and written where it lands.
pub open spec fn rt_move(st: RtView, fs: Seq<FactView>, src: Seq<char>, dst: Seq<char>, cwd: Seq<char>) -> (
    bool,
    RtView,
) {
    let src_abs = resolve_abs_spec(src, cwd);
    match rt_read(st, fs, src_abs) {
        None => (false, st),
        Some(content) => {
            let (ok, s1) = rt_remove(st, fs, src, cwd);
            if !ok {
                (false, s1)
            } else {
                let dst_abs = resolve_abs_spec(dst, cwd);
                rt_write(s1, fs, landing(s1, fs, src_abs, dst_abs), seq!['/'], content)
            }
        },
    }
}

pub open spec fn move_ok(st: RtView, fs: Seq<FactView>, src: Seq<char>, dst: Seq<char>, cwd: Seq<char>) -> bool {
    let src_abs = resolve_abs_spec(src, cwd);
    let dst_abs = resolve_abs_spec(dst, cwd);
    let s1 = rt_remove(st, fs, src, cwd).1;
    &&& sliceable(src_abs)
    &&& (rt_read(st, fs, src_abs) is Some && rt_remove(st, fs, src, cwd).0) ==> sliceable(
        resolve_abs_spec(dst_abs, seq!['/']),
    ) && write_ok(s1, landing(s1, fs, src_abs, dst_abs), seq!['/'])
}

/// The keys of an association list.
pub open spec fn keys<V>(s: Seq<(Seq<char>, V)>) -> Seq<Seq<char>> {
    Seq::new(s.len(), |i: int| s[i].0)
}

/// The listing of a directory: the layer's entries merged with the disk's.
pub open spec fn rt_list(st: RtView, fs: Seq<FactView>, abs: Seq<char>, show_hidden: bool) -> Option<
    Seq<(Seq<char>, bool)>,
> {
    let f = fact_at(fs, abs);
    listing_spec(
        abs,
        st.deleted,
        keys(st.files),
        keys(st.dirs),
        lookup(st.dirs, abs),
        f.inside,
        f.listing,
        f.is_dir,
        show_hidden,
    )
}

/// The paths an operation on `path` looks at on disk: the path, its parent,
/// and the directories on the way to the parent.
pub open spec fn wanted_paths(path: Seq<char>, cwd: Seq<char>) -> Seq<Seq<char>> {
    let abs = resolve_abs_spec(path, cwd);
    let pp = split_path_spec(abs).0;
    seq![abs, pp] + prefix_parents(pp)
}

/// The paths a copy or a move from `src` to `dst` looks at on disk.
pub open spec fn wanted_pair_paths(src: Seq<char>, dst: Seq<char>, cwd: Seq<char>) -> Seq<Seq<char>> {
    let src_abs = resolve_abs_spec(src, cwd);
    let dst_abs = resolve_abs_spec(dst, cwd);
    wanted_paths(src, cwd) + wanted_paths(dst, cwd) + wanted_paths(dst_abs, seq!['/']) + wanted_paths(
        child_path(dst_abs, base_name(src_abs)),
        seq!['/'],
    )
}

// ══════════════════════════════════════════════════════════════════
// The layer in memory
// ══════════════════════════════════════════════════════════════════

/// The in-memory layer of a read-through file system.
pub struct ReadThroughLayer {
    files: Vec<(Vec<char>, Vec<u8>)>,
    dirs: Vec<(Vec<char>, Vec<Vec<char>>)>,
    deleted: Vec<Vec<char>>,
}

spec fn file_views(v: Seq<(Vec<char>, Vec<u8>)>) -> Seq<(Seq<char>, Seq<u8>)> {
    Seq::new(v.len(), |i: int| (v[i].0@, v[i].1@))
}

spec fn dir_views(v: Seq<(Vec<char>, Vec<Vec<char>>)>) -> Seq<(Seq<char>, Seq<Seq<char>>)> {
    Seq::new(v.len(), |i: int| (v[i].0@, views(v[i].1@)))
}

/// The first fact about `p` is at `i`, or there is none.
proof fn lemma_fact_at(fs: Seq<FactView>, p: Seq<char>, i: int)
    requires
        0 <= i <= fs.len(),
        forall|j: int| 0 <= j < i ==> (#[trigger] fs[j]).path != p,
        i < fs.len() ==> fs[i].path == p,
    ensures
        i < fs.len() ==> fact_at(fs, p) == fs[i],
        i == fs.len() ==> fact_at(fs, p) == (FactView {
            path: p,
            inside: false,
            is_dir: false,
            is_file: false,
            listing: None,
            content: None,
        }),
    decreases i,
{
    if i > 0 {
        let t = fs.drop_first();
        assert(fs[0].path != p);
        assert forall|j: int| 0 <= j < i - 1 implies (#[trigger] t[j]).path != p by {
            assert(t[j] == fs[j + 1]);
        }
        if i - 1 < t.len() {
            assert(t[i - 1] == fs[i]);
        }
        lemma_fact_at(t, p, i - 1);
    }
}

/// Where the first fact about `p` is.
fn find_fact(facts: &Vec<DiskFact>, p: &[char]) -> (r: Option<usize>)
    ensures
        match r {
            Some(i) => i < facts@.len() && fact_at(fact_views(facts@), p@) == fact_view(facts@[i as int]),
            None => fact_at(fact_views(facts@), p@) == (FactView {
                path: p@,
                inside: false,
                is_dir: false,
                is_file: false,
                listing: None,
                content: None,
            }),
        },
{
    let ghost fv = fact_views(facts@);
    let mut i: usize = 0;
    while i < facts.len()
        invariant
            i <= facts@.len(),
            fv == fact_views(facts@),
            forall|j: int| 0 <= j < i ==> (#[trigger] fv[j]).path != p@,
        decreases facts@.len() - i,
    {
        let c = chars_of(facts[i].path.as_str());
        if chars_eq(c.as_slice(), p) {
            proof {
                lemma_fact_at(fv, p@, i as int);
            }
            return Some(i);
        }
        i = i + 1;
    }
    proof {
        lemma_fact_at(fv, p@, i as int);
    }
    None
}

/// Whether the disk showed `p` inside the root, as a directory, as a file.
fn fact_flags(facts: &Vec<DiskFact>, p: &[char]) -> (r: (bool, bool, bool))
    ensures
        r.0 == fact_at(fact_views(facts@), p@).inside,
        r.1 == fact_at(fact_views(facts@), p@).is_dir,
        r.2 == fact_at(fact_views(facts@), p@).is_file,
{
    match find_fact(facts, p) {
        Some(i) => (facts[i].inside, facts[i].is_dir, facts[i].is_file),
        None => (false, false, false),
    }
}

/// Whether a list of texts holds `p`.
fn holds_chars(v: &Vec<Vec<char>>, p: &[char]) -> (r: bool)
    ensures
        r == views(v@).contains(p@),
{
    let mut i: usize = 0;
    while i < v.len()
        invariant
            i <= v@.len(),
            forall|k: int| 0 <= k < i ==> views(v@)[k] != p@,
        decreases v@.len() - i,
    {
        if chars_eq(v[i].as_slice(), p) {
            assert(views(v@)[i as int] == p@);
            return true;
        }
        i = i + 1;
    }
    assert forall|k: int| 0 <= k < views(v@).len() implies views(v@)[k] != p@ by {}
    false
}

impl ReadThroughLayer {
    /// The state of the layer.
    pub closed spec fn view(&self) -> RtView {
        RtView { files: file_views(self.files@), dirs: dir_views(self.dirs@), deleted: views(self.deleted@) }
    }

    /// A layer that knows the root directory (with no children yet) and
    /// nothing else.
    pub fn new() -> (r: ReadThroughLayer)
        ensures
            r.view() == (RtView {
                files: seq![],
                dirs: seq![(seq!['/'], Seq::<Seq<char>>::empty())],
                deleted: seq![],
            }),
    {
        let mut dirs: Vec<(Vec<char>, Vec<Vec<char>>)> = Vec::new();
        let mut root: Vec<char> = Vec::new();
        root.push('/');
        dirs.push((root, Vec::new()));
        let r = ReadThroughLayer { files: Vec::new(), dirs, deleted: Vec::new() };
        assert(r.view().files =~= seq![]);
        assert(views(r.dirs@[0].1@) =~= Seq::<Seq<char>>::empty());
        assert(r.view().dirs =~= seq![(seq!['/'], Seq::<Seq<char>>::empty())]);
        assert(r.view().deleted =~= seq![]);
        r
    }

    fn find_file(&self, k: &[char]) -> (r: Option<usize>)
        ensures
            match r {
                Some(i) => i < self.files@.len() && find_first(self.view().files, k@) == Some(i as int),
                None => find_first(self.view().files, k@) is None,
            },
    {
        let ghost fv = self.view().files;
        let mut i: usize = 0;
        while i < self.files.len()
            invariant
                i <= self.files@.len(),
                fv == self.view().files,
                forall|j: int| 0 <= j < i ==> (#[trigger] fv[j]).0 != k@,
            decreases self.files@.len() - i,
        {
            if chars_eq(self.files[i].0.as_slice(), k) {
                proof {
                    lemma_find_first(fv, k@, i as int);
                }
                return Some(i);
            }
            i = i + 1;
        }
        proof {
            lemma_find_first_none(fv, k@);
        }
        None
    }

    fn find_dir(&self, k: &[char]) -> (r: Option<usize>)
        ensures
            match r {
                Some(i) => i < self.dirs@.len() && find_first(self.view().dirs, k@) == Some(i as int),
                None => find_first(self.view().dirs, k@) is None,
            },
    {
        let ghost dv = self.view().dirs;
        let mut i: usize = 0;
        while i < self.dirs.len()
            invariant
                i <= self.dirs@.len(),
                dv == self.view().dirs,
                forall|j: int| 0 <= j < i ==> (#[trigger] dv[j]).0 != k@,
            decreases self.dirs@.len() - i,
        {
            if chars_eq(self.dirs[i].0.as_slice(), k) {
                proof {
                    lemma_find_first(dv, k@, i as int);
                }
                return Some(i);
            }
            i = i + 1;
        }
        proof {
            lemma_find_first_none(dv, k@);
        }
        None
    }

    fn is_deleted(&self, p: &[char]) -> (r: bool)
        ensures
            r == self.view().deleted.contains(p@),
    {
        holds_chars(&self.deleted, p)
    }

    fn has_file(&self, p: &[char]) -> (r: bool)
        ensures
            r == (lookup(self.view().files, p@) is Some),
    {
        self.find_file(p).is_some()
    }

    fn has_dir(&self, p: &[char]) -> (r: bool)
        ensures
            r == (lookup(self.view().dirs, p@) is Some),
    {
        self.find_dir(p).is_some()
    }

    fn is_layer_dir(&self, p: &[char]) -> (r: bool)
        ensures
            r == is_layer_dir(self.view(), p@),
    {
        self.has_dir(p) && !self.is_deleted(p)
    }

    /// Whether the known directory `p` has the child `name`.
    fn has_child(&self, p: &[char], name: &[char]) -> (r: bool)
        ensures
            r == (lookup(self.view().dirs, p@) matches Some(e) && e.contains(name@)),
    {
        match self.find_dir(p) {
            Some(i) => holds_chars(&self.dirs[i].1, name),
            None => false,
        }
    }

    fn put_file(&mut self, p: &[char], data: Vec<u8>)
        ensures
            final(self).view() == (RtView { files: put(old(self).view().files, p@, data@), ..old(self).view() }),
    {
        let ghost fv = self.view().files;
        match self.find_file(p) {
            Some(i) => {
                self.files.set(i, (clone_chars(p), data));
                assert(self.view().files =~= fv.update(i as int, (p@, data@)));
            },
            None => {
                self.files.push((clone_chars(p), data));
                assert(self.view().files =~= fv.push((p@, data@)));
            },
        }
    }

    fn put_dir(&mut self, p: &[char], names: Vec<Vec<char>>)
        ensures
            final(self).view() == (RtView {
                dirs: put(old(self).view().dirs, p@, views(names@)),
                ..old(self).view()
            }),
    {
        let ghost dv = self.view().dirs;
        let ghost nv = views(names@);
        match self.find_dir(p) {
            Some(i) => {
                self.dirs.set(i, (clone_chars(p), names));
                assert(self.view().dirs =~= dv.update(i as int, (p@, nv)));
            },
            None => {
                self.dirs.push((clone_chars(p), names));
                assert(self.view().dirs =~= dv.push((p@, nv)));
            },
        }
    }

    fn add_child(&mut self, p: &[char], name: &[char])
        ensures
            final(self).view() == (RtView {
                dirs: add_child(old(self).view().dirs, p@, name@),
                ..old(self).view()
            }),
    {
        let ghost dv = self.view().dirs;
        match self.find_dir(p) {
            Some(i) => {
                if !holds_chars(&self.dirs[i].1, name) {
                    let mut cs = clone_names(&self.dirs[i].1);
                    cs.push(clone_chars(name));
                    assert(views(cs@) =~= dv[i as int].1.push(name@));
                    self.dirs.set(i, (clone_chars(p), cs));
                    assert(self.view().dirs =~= dv.update(i as int, (p@, dv[i as int].1.push(name@))));
                }
            },
            None => {},
        }
    }

    fn del_child(&mut self, p: &[char], name: &[char])
        ensures
            final(self).view() == (RtView {
                dirs: del_child(old(self).view().dirs, p@, name@),
                ..old(self).view()
            }),
    {
        let ghost dv = self.view().dirs;
        match self.find_dir(p) {
            Some(i) => {
                let cs = names_without(&self.dirs[i].1, name);
                self.dirs.set(i, (clone_chars(p), cs));
                assert(self.view().dirs =~= dv.update(i as int, (p@, without_name(dv[i as int].1, name@))));
            },
            None => {},
        }
    }

    fn add_deleted(&mut self, p: &[char])
        ensures
            final(self).view() == (RtView {
                deleted: add_deleted(old(self).view().deleted, p@),
                ..old(self).view()
            }),
    {
        if !self.is_deleted(p) {
            let ghost dv = self.view().deleted;
            self.deleted.push(clone_chars(p));
            assert(self.view().deleted =~= dv.push(p@));
        }
    }
}

fn clone_names(v: &Vec<Vec<char>>) -> (r: Vec<Vec<char>>)
    ensures
        views(r@) == views(v@),
{
    let mut r: Vec<Vec<char>> = Vec::new();
    let mut i: usize = 0;
    while i < v.len()
        invariant
            i <= v@.len(),
            views(r@) =~= views(v@).take(i as int),
        decreases v@.len() - i,
    {
        let ghost before = views(r@);
        r.push(clone_chars(v[i].as_slice()));
        assert(views(r@) =~= before.push(v@[i as int]@));
        assert(views(v@).take(i + 1) =~= views(v@).take(i as int).push(v@[i as int]@));
        i = i + 1;
    }
    assert(views(v@).take(v@.len() as int) =~= views(v@));
    r
}

fn names_without(v: &Vec<Vec<char>>, name: &[char]) -> (r: Vec<Vec<char>>)
    ensures
        views(r@) == without_name(views(v@), name@),
{
    let ghost vv = views(v@);
    let mut r: Vec<Vec<char>> = Vec::new();
    let mut i: usize = 0;
    while i < v.len()
        invariant
            i <= v@.len(),
            vv == views(v@),
            views(r@) == without_name(vv.take(i as int), name@),
        decreases v@.len() - i,
    {
        assert(vv.take(i + 1).drop_last() =~= vv.take(i as int));
        assert(vv.take(i + 1).last() == v@[i as int]@);
        if !chars_eq(v[i].as_slice(), name) {
            let ghost before = views(r@);
            r.push(clone_chars(v[i].as_slice()));
            assert(views(r@) =~= before.push(v@[i as int]@));
        }
        i = i + 1;
    }
    assert(vv.take(v@.len() as int) =~= vv);
    r
}

fn uniq_names_exec(l: &Vec<(String, bool)>) -> (r: Vec<Vec<char>>)
    ensures
        views(r@) == uniq_names(named_views(l@)),
{
    let ghost lv = named_views(l@);
    let mut r: Vec<Vec<char>> = Vec::new();
    let mut i: usize = 0;
    while i < l.len()
        invariant
            i <= l@.len(),
            lv == named_views(l@),
            views(r@) == uniq_names(lv.take(i as int)),
        decreases l@.len() - i,
    {
        assert(lv.take(i + 1).drop_last() =~= lv.take(i as int));
        assert(lv.take(i + 1).last() == lv[i as int]);
        let n = chars_of(l[i].0.as_str());
        if !holds_chars(&r, n.as_slice()) {
            let ghost before = views(r@);
            r.push(n);
            assert(views(r@) =~= before.push(lv[i as int].0));
        }
        i = i + 1;
    }
    assert(lv.take(l@.len() as int) =~= lv);
    r
}

fn child_path_chars(dir: &[char], name: &[char]) -> (r: Vec<char>)
    ensures
        r@ == child_path(dir@, name@),
{
    let mut r: Vec<char> = Vec::new();
    if !(dir.len() == 1 && dir[0] == '/') {
        push_all(&mut r, dir);
    }
    r.push('/');
    push_all(&mut r, name);
    assert(dir@.len() == 1 && dir@[0] == '/' ==> dir@ =~= seq!['/']);
    assert(r@ =~= child_path(dir@, name@));
    r
}

fn at_or_under_exec(k: &[char], abs: &[char]) -> (r: bool)
    ensures
        r == at_or_under(k@, abs@),
{
    if abs.len() > k.len() {
        return false;
    }
    let head = subvec(k, 0, abs.len());
    if !chars_eq(head.as_slice(), abs) {
        return false;
    }
    k.len() == abs.len() || k[abs.len()] == '/'
}

proof fn lemma_cur_join_step(cs: Seq<Seq<char>>, k: int)
    requires
        0 <= k < cs.len(),
    ensures
        cur_join(cs.take(k + 1)) == (if cur_join(cs.take(k)).len() == 0 {
            cs[k]
        } else {
            cur_join(cs.take(k)) + seq!['/'] + cs[k]
        }),
{
    assert(cs.take(k + 1).drop_last() =~= cs.take(k));
    assert(cs.take(k + 1).last() == cs[k]);
}

impl ReadThroughLayer {
    fn populate(&mut self, facts: &Vec<DiskFact>, p: &[char])
        ensures
            final(self).view() == populate(old(self).view(), fact_views(facts@), p@),
    {
        if self.has_dir(p) || self.is_deleted(p) {
            return;
        }
        match find_fact(facts, p) {
            Some(i) => {
                if facts[i].inside {
                    match &facts[i].listing {
                        Some(l) => {
                            let names = uniq_names_exec(l);
                            self.put_dir(p, names);
                        },
                        None => {},
                    }
                }
            },
            None => {},
        }
    }

    /// Loads every directory on the way to `p`.
    fn ensure(&mut self, facts: &Vec<DiskFact>, p: &[char])
        ensures
            final(self).view() == ensure_spec(old(self).view(), fact_views(facts@), p@),
    {
        if p.len() == 0 || (p.len() == 1 && p[0] == '/') {
            assert(p@.len() == 1 && p@[0] == '/' ==> p@ =~= seq!['/']);
            return;
        }
        assert(p@ != seq!['/']) by {
            if p@.len() == 1 {
                assert(p@[0] != '/');
            }
        }
        let ghost st0 = self.view();
        let ghost fv = fact_views(facts@);
        let rest = subvec(p, 1, p.len());
        assert(rest@ =~= p@.drop_first());
        let cs = split_chars(rest.as_slice(), '/');
        let ghost csv = views(cs@);
        let ghost pps = prefix_parents(p@);
        let mut cur: Vec<char> = Vec::new();
        let mut k: usize = 0;
        assert(pps.take(0) =~= Seq::<Seq<char>>::empty());
        assert(csv.take(0) =~= Seq::<Seq<char>>::empty());
        while k < cs.len()
            invariant
                k <= cs@.len(),
                csv == views(cs@),
                csv == comps_after_first(p@),
                pps == prefix_parents(p@),
                fv == fact_views(facts@),
                cur@ == cur_join(csv.take(k as int)),
                self.view() == populate_all(st0, fv, pps.take(k as int)),
            decreases cs@.len() - k,
        {
            assert(pps[k as int] == cur_join(csv.take(k as int)));
            self.populate(facts, cur.as_slice());
            assert(pps.take(k + 1).drop_last() =~= pps.take(k as int));
            assert(pps.take(k + 1).last() == pps[k as int]);
            proof {
                lemma_cur_join_step(csv, k as int);
            }
            if cur.len() > 0 {
                cur.push('/');
            }
            push_all(&mut cur, cs[k].as_slice());
            assert(cur@ =~= cur_join(csv.take(k + 1)));
            k = k + 1;
        }
        assert(pps.take(cs@.len() as int) =~= pps);
    }

    /// Whether the layer alone reaches `p`.
    fn walk(&self, p: &[char]) -> (r: bool)
        requires
            p@.len() > 0,
        ensures
            r == walk_spec(self.view(), p@),
    {
        if self.is_deleted(p) {
            return false;
        }
        if p.len() == 1 && p[0] == '/' {
            assert(p@ =~= seq!['/']);
            let mut root: Vec<char> = Vec::new();
            root.push('/');
            assert(root@ =~= seq!['/']);
            return self.has_dir(root.as_slice());
        }
        assert(p@ != seq!['/']) by {
            if p@.len() == 1 {
                assert(p@[0] != '/');
            }
        }
        let rest = subvec(p, 1, p.len());
        assert(rest@ =~= p@.drop_first());
        let cs = split_chars(rest.as_slice(), '/');
        let ghost csv = views(cs@);
        let ghost st = self.view();
        let mut cur: Vec<char> = Vec::new();
        let mut k: usize = 0;
        assert(csv.take(0) =~= Seq::<Seq<char>>::empty());
        while k < cs.len()
            invariant
                k <= cs@.len(),
                csv == views(cs@),
                csv == comps_after_first(p@),
                st == self.view(),
                !st.deleted.contains(p@),
                p@ != seq!['/'],
                cur@ == cur_join(csv.take(k as int)),
                forall|j: int|
                    0 <= j < k ==> !st.deleted.contains(#[trigger] cur_join(csv.take(j + 1))) && (lookup(
                        st.dirs,
                        cur_join(csv.take(j)),
                    ) matches Some(e) && e.contains(csv[j])),
            decreases cs@.len() - k,
        {
            let parent = clone_chars(cur.as_slice());
            proof {
                lemma_cur_join_step(csv, k as int);
            }
            if cur.len() > 0 {
                cur.push('/');
            }
            push_all(&mut cur, cs[k].as_slice());
            assert(cur@ =~= cur_join(csv.take(k + 1)));
            if self.is_deleted(cur.as_slice()) {
                assert(st.deleted.contains(cur_join(csv.take(k + 1))));
                return false;
            }
            if !self.has_child(parent.as_slice(), cs[k].as_slice()) {
                assert(!(lookup(st.dirs, cur_join(csv.take(k as int))) matches Some(e) && e.contains(csv[k as int])));
                assert(cur_join(csv.take(k + 1)) == cur@);
                return false;
            }
            assert forall|j: int| 0 <= j < k + 1 implies !st.deleted.contains(
                #[trigger] cur_join(csv.take(j + 1)),
            ) && (lookup(st.dirs, cur_join(csv.take(j))) matches Some(e) && e.contains(csv[j])) by {
                if j == k {
                    assert(parent@ == cur_join(csv.take(k as int)));
                    assert(cs@[k as int]@ == csv[k as int]);
                    assert(cur_join(csv.take(k + 1)) == cur@);
                }
            }
            k = k + 1;
        }
        assert(walk_spec(st, p@));
        true
    }

    /// Whether a directory on the way to `abs` (or `abs`) is deleted.
    fn above_deleted(&self, abs: &[char]) -> (r: bool)
        requires
            sliceable(abs@),
        ensures
            r == hidden_above(self.view(), abs@),
    {
        let s = string_of(abs);
        let anc = ancestors(s.as_str());
        let ghost av = ancestors_spec(abs@);
        let mut i: usize = 0;
        while i < anc.len()
            invariant
                i <= anc@.len(),
                string_views(anc@) == av,
                av == ancestors_spec(abs@),
                forall|k: int| 0 <= k < i ==> !self.view().deleted.contains(#[trigger] av[k]),
            decreases anc@.len() - i,
        {
            let c = chars_of(anc[i].as_str());
            if self.is_deleted(c.as_slice()) {
                assert(self.view().deleted.contains(av[i as int]));
                return true;
            }
            i = i + 1;
        }
        false
    }

    fn remove_file_key(&mut self, p: &[char])
        ensures
            final(self).view() == (RtView { files: without_key(old(self).view().files, p@), ..old(self).view() }),
    {
        let ghost fv = self.view().files;
        let mut old_files: Vec<(Vec<char>, Vec<u8>)> = Vec::new();
        std::mem::swap(&mut self.files, &mut old_files);
        let ghost o1 = self.dirs@;
        let ghost o2 = self.deleted@;
        let mut i: usize = 0;
        while i < old_files.len()
            invariant
                self.dirs@ == o1,
                self.deleted@ == o2,
                i <= old_files@.len(),
                fv == file_views(old_files@),
                file_views(self.files@) == without_key(fv.take(i as int), p@),
            decreases old_files@.len() - i,
        {
            assert(fv.take(i + 1).drop_last() =~= fv.take(i as int));
            assert(fv.take(i + 1).last() == fv[i as int]);
            if !chars_eq(old_files[i].0.as_slice(), p) {
                let ghost before = file_views(self.files@);
                let e = (clone_chars(old_files[i].0.as_slice()), slice_to_vec(old_files[i].1.as_slice()));
                self.files.push(e);
                assert(file_views(self.files@) =~= before.push(fv[i as int]));
            }
            i = i + 1;
        }
        assert(fv.take(old_files@.len() as int) =~= fv);
    }

    fn keep_files_outside(&mut self, abs: &[char])
        ensures
            final(self).view() == (RtView { files: keep_outside(old(self).view().files, abs@), ..old(self).view() }),
    {
        let ghost fv = self.view().files;
        let mut old_files: Vec<(Vec<char>, Vec<u8>)> = Vec::new();
        std::mem::swap(&mut self.files, &mut old_files);
        let ghost o1 = self.dirs@;
        let ghost o2 = self.deleted@;
        let mut i: usize = 0;
        while i < old_files.len()
            invariant
                self.dirs@ == o1,
                self.deleted@ == o2,
                i <= old_files@.len(),
                fv == file_views(old_files@),
                file_views(self.files@) == keep_outside(fv.take(i as int), abs@),
            decreases old_files@.len() - i,
        {
            assert(fv.take(i + 1).drop_last() =~= fv.take(i as int));
            assert(fv.take(i + 1).last() == fv[i as int]);
            if !at_or_under_exec(old_files[i].0.as_slice(), abs) {
                let ghost before = file_views(self.files@);
                let e = (clone_chars(old_files[i].0.as_slice()), slice_to_vec(old_files[i].1.as_slice()));
                self.files.push(e);
                assert(file_views(self.files@) =~= before.push(fv[i as int]));
            }
            i = i + 1;
        }
        assert(fv.take(old_files@.len() as int) =~= fv);
    }

    fn keep_dirs_outside(&mut self, abs: &[char])
        ensures
            final(self).view() == (RtView { dirs: keep_outside(old(self).view().dirs, abs@), ..old(self).view() }),
    {
        let ghost dv = self.view().dirs;
        let mut old_dirs: Vec<(Vec<char>, Vec<Vec<char>>)> = Vec::new();
        std::mem::swap(&mut self.dirs, &mut old_dirs);
        let ghost o1 = self.files@;
        let ghost o2 = self.deleted@;
        let mut i: usize = 0;
        while i < old_dirs.len()
            invariant
                self.files@ == o1,
                self.deleted@ == o2,
                i <= old_dirs@.len(),
                dv == dir_views(old_dirs@),
                dir_views(self.dirs@) == keep_outside(dv.take(i as int), abs@),
            decreases old_dirs@.len() - i,
        {
            assert(dv.take(i + 1).drop_last() =~= dv.take(i as int));
            assert(dv.take(i + 1).last() == dv[i as int]);
            if !at_or_under_exec(old_dirs[i].0.as_slice(), abs) {
                let ghost before = dir_views(self.dirs@);
                let e = (clone_chars(old_dirs[i].0.as_slice()), clone_names(&old_dirs[i].1));
                self.dirs.push(e);
                assert(dir_views(self.dirs@) =~= before.push(dv[i as int]));
            }
            i = i + 1;
        }
        assert(dv.take(old_dirs@.len() as int) =~= dv);
    }

    fn delete_listed(&mut self, abs: &[char], l: &Vec<(String, bool)>)
        ensures
            final(self).view() == (RtView {
                deleted: delete_listed(old(self).view().deleted, abs@, named_views(l@)),
                ..old(self).view()
            }),
    {
        let ghost st0 = self.view();
        let ghost lv = named_views(l@);
        let mut i: usize = 0;
        while i < l.len()
            invariant
                i <= l@.len(),
                lv == named_views(l@),
                self.view() == (RtView { deleted: delete_listed(st0.deleted, abs@, lv.take(i as int)), ..st0 }),
            decreases l@.len() - i,
        {
            assert(lv.take(i + 1).drop_last() =~= lv.take(i as int));
            assert(lv.take(i + 1).last() == lv[i as int]);
            let name = chars_of(l[i].0.as_str());
            let child = child_path_chars(abs, name.as_slice());
            self.add_deleted(child.as_slice());
            i = i + 1;
        }
        assert(lv.take(l@.len() as int) =~= lv);
    }
}

fn string_list(v: &Vec<Vec<char>>) -> (r: Vec<String>)
    ensures
        string_views(r@) == views(v@),
{
    let mut r: Vec<String> = Vec::new();
    let mut i: usize = 0;
    while i < v.len()
        invariant
            i <= v@.len(),
            string_views(r@) =~= views(v@).take(i as int),
        decreases v@.len() - i,
    {
        let ghost before = string_views(r@);
        r.push(string_of(v[i].as_slice()));
        assert(string_views(r@) =~= before.push(v@[i as int]@));
        assert(views(v@).take(i + 1) =~= views(v@).take(i as int).push(v@[i as int]@));
        i = i + 1;
    }
    assert(views(v@).take(v@.len() as int) =~= views(v@));
    r
}

fn push_strings(out: &mut Vec<String>, v: &Vec<Vec<char>>)
    ensures
        string_views(final(out)@) == string_views(old(out)@) + views(v@),
{
    let ghost o = string_views(out@);
    let mut i: usize = 0;
    while i < v.len()
        invariant
            i <= v@.len(),
            string_views(out@) =~= o + views(v@).take(i as int),
        decreases v@.len() - i,
    {
        let ghost before = string_views(out@);
        out.push(string_of(v[i].as_slice()));
        assert(string_views(out@) =~= before.push(v@[i as int]@));
        assert(views(v@).take(i + 1) =~= views(v@).take(i as int).push(v@[i as int]@));
        i = i + 1;
    }
    assert(views(v@).take(v@.len() as int) =~= views(v@));
}

fn prefix_parents_exec(p: &[char]) -> (r: Vec<Vec<char>>)
    requires
        p@.len() > 0,
    ensures
        views(r@) == prefix_parents(p@),
{
    let rest = subvec(p, 1, p.len());
    assert(rest@ =~= p@.drop_first());
    let cs = split_chars(rest.as_slice(), '/');
    let ghost csv = views(cs@);
    let mut r: Vec<Vec<char>> = Vec::new();
    let mut cur: Vec<char> = Vec::new();
    let mut k: usize = 0;
    assert(csv.take(0) =~= Seq::<Seq<char>>::empty());
    while k < cs.len()
        invariant
            k <= cs@.len(),
            csv == views(cs@),
            csv == comps_after_first(p@),
            cur@ == cur_join(csv.take(k as int)),
            views(r@) =~= Seq::new(k as nat, |j: int| cur_join(csv.take(j))),
        decreases cs@.len() - k,
    {
        let ghost before = views(r@);
        r.push(clone_chars(cur.as_slice()));
        assert(views(r@) =~= before.push(cur@));
        proof {
            lemma_cur_join_step(csv, k as int);
        }
        if cur.len() > 0 {
            cur.push('/');
        }
        push_all(&mut cur, cs[k].as_slice());
        assert(cur@ =~= cur_join(csv.take(k + 1)));
        k = k + 1;
    }
    r
}

proof fn lemma_last_index_range(s: Seq<char>, c: char)
    ensures
        last_index(s, c) matches Some(i) ==> 0 <= i < s.len(),
    decreases s.len(),
{
    if s.len() > 0 {
        lemma_last_index_range(s.drop_last(), c);
    }
}

/// The parent that splitting a path gives is never empty.
proof fn lemma_parent_nonempty(p: Seq<char>)
    ensures
        split_path_spec(p).0.len() > 0,
{
    lemma_last_index_range(p, '/');
}

fn wanted_paths_exec(path: &[char], cwd: &[char]) -> (r: Vec<Vec<char>>)
    ensures
        views(r@) == wanted_paths(path@, cwd@),
{
    let abs = resolve_abs(path, cwd);
    let (pp, _name) = split_path(abs.as_slice());
    proof {
        lemma_parent_nonempty(abs@);
    }
    let pps = prefix_parents_exec(pp.as_slice());
    let mut r: Vec<Vec<char>> = Vec::new();
    r.push(abs);
    r.push(clone_chars(pp.as_slice()));
    let ghost two = views(r@);
    let mut i: usize = 0;
    while i < pps.len()
        invariant
            i <= pps@.len(),
            views(r@) =~= two + views(pps@).take(i as int),
        decreases pps@.len() - i,
    {
        let ghost before = views(r@);
        r.push(clone_chars(pps[i].as_slice()));
        assert(views(r@) =~= before.push(pps@[i as int]@));
        assert(views(pps@).take(i + 1) =~= views(pps@).take(i as int).push(pps@[i as int]@));
        i = i + 1;
    }
    assert(views(pps@).take(pps@.len() as int) =~= views(pps@));
    r
}

/// The paths an operation on `path` looks at on disk (the first is the
/// path itself, whose content a read needs).
pub fn read_through_paths(path: &str, cwd: &str) -> (r: Vec<String>)
    ensures
        string_views(r@) == wanted_paths(path@, cwd@),
{
    let p = chars_of(path);
    let c = chars_of(cwd);
    string_list(&wanted_paths_exec(p.as_slice(), c.as_slice()))
}

/// The paths a copy or a move from `src` to `dst` looks at on disk (the
/// first is the source, whose content it needs).
pub fn read_through_pair_paths(src: &str, dst: &str, cwd: &str) -> (r: Vec<String>)
    ensures
        string_views(r@) == wanted_pair_paths(src@, dst@, cwd@),
{
    let sp = chars_of(src);
    let dp = chars_of(dst);
    let c = chars_of(cwd);
    let src_abs = resolve_abs(sp.as_slice(), c.as_slice());
    let dst_abs = resolve_abs(dp.as_slice(), c.as_slice());
    let mut root: Vec<char> = Vec::new();
    root.push('/');
    assert(root@ =~= seq!['/']);
    let child = child_path_chars(dst_abs.as_slice(), base_name_exec(src_abs.as_slice()).as_slice());
    let mut r: Vec<String> = Vec::new();
    push_strings(&mut r, &wanted_paths_exec(sp.as_slice(), c.as_slice()));
    push_strings(&mut r, &wanted_paths_exec(dp.as_slice(), c.as_slice()));
    push_strings(&mut r, &wanted_paths_exec(dst_abs.as_slice(), root.as_slice()));
    push_strings(&mut r, &wanted_paths_exec(child.as_slice(), root.as_slice()));
    assert(string_views(r@) =~= wanted_pair_paths(src@, dst@, cwd@));
    r
}

fn file_key_strings(v: &Vec<(Vec<char>, Vec<u8>)>) -> (r: Vec<String>)
    ensures
        string_views(r@) == keys(file_views(v@)),
{
    let mut r: Vec<String> = Vec::new();
    let mut i: usize = 0;
    while i < v.len()
        invariant
            i <= v@.len(),
            string_views(r@) =~= keys(file_views(v@)).take(i as int),
        decreases v@.len() - i,
    {
        let ghost before = string_views(r@);
        r.push(string_of(v[i].0.as_slice()));
        assert(string_views(r@) =~= before.push(v@[i as int].0@));
        assert(keys(file_views(v@)).take(i + 1) =~= keys(file_views(v@)).take(i as int).push(v@[i as int].0@));
        i = i + 1;
    }
    assert(keys(file_views(v@)).take(v@.len() as int) =~= keys(file_views(v@)));
    r
}

fn dir_key_strings(v: &Vec<(Vec<char>, Vec<Vec<char>>)>) -> (r: Vec<String>)
    ensures
        string_views(r@) == keys(dir_views(v@)),
{
    let mut r: Vec<String> = Vec::new();
    let mut i: usize = 0;
    while i < v.len()
        invariant
            i <= v@.len(),
            string_views(r@) =~= keys(dir_views(v@)).take(i as int),
        decreases v@.len() - i,
    {
        let ghost before = string_views(r@);
        r.push(string_of(v[i].0.as_slice()));
        assert(string_views(r@) =~= before.push(v@[i as int].0@));
        assert(keys(dir_views(v@)).take(i + 1) =~= keys(dir_views(v@)).take(i as int).push(v@[i as int].0@));
        i = i + 1;
    }
    assert(keys(dir_views(v@)).take(v@.len() as int) =~= keys(dir_views(v@)));
    r
}

impl ReadThroughLayer {
    fn read_abs(&self, abs: &[char], facts: &Vec<DiskFact>) -> (r: Option<Vec<u8>>)
        requires
            sliceable(abs@),
        ensures
            match r {
                Some(v) => rt_read(self.view(), fact_views(facts@), abs@) == Some(v@),
                None => rt_read(self.view(), fact_views(facts@), abs@) is None,
            },
    {
        if self.above_deleted(abs) || self.is_deleted(abs) {
            return None;
        }
        match self.find_file(abs) {
            Some(i) => {
                return Some(slice_to_vec(self.files[i].1.as_slice()));
            },
            None => {},
        }
        if self.has_dir(abs) {
            return None;
        }
        match find_fact(facts, abs) {
            Some(i) => {
                if facts[i].inside {
                    match &facts[i].content {
                        Some(c) => Some(slice_to_vec(c.as_slice())),
                        None => None,
                    }
                } else {
                    None
                }
            },
            None => None,
        }
    }

    fn is_dir_abs(&self, abs: &[char], facts: &Vec<DiskFact>) -> (r: bool)
        requires
            sliceable(abs@),
        ensures
            r == rt_is_dir(self.view(), fact_views(facts@), abs@),
    {
        if self.above_deleted(abs) || self.is_deleted(abs) {
            return false;
        }
        if self.has_dir(abs) {
            return true;
        }
        if self.has_file(abs) {
            return false;
        }
        let (inside, isdir, _) = fact_flags(facts, abs);
        inside && isdir
    }

    /// Whether a path resolves: not hidden by a deletion, and known to the
    /// layer or on disk.
    pub fn resolve(&self, path: &str, cwd: &str, facts: &Vec<DiskFact>) -> (r: Option<()>)
        requires
            sliceable(resolve_abs_spec(path@, cwd@)),
        ensures
            r is Some == rt_resolve(self.view(), fact_views(facts@), resolve_abs_spec(path@, cwd@)),
    {
        let abs = resolve_abs(chars_of(path).as_slice(), chars_of(cwd).as_slice());
        if self.above_deleted(abs.as_slice()) {
            return None;
        }
        if self.walk(abs.as_slice()) {
            return Some(());
        }
        let (inside, _, _) = fact_flags(facts, abs.as_slice());
        if inside {
            Some(())
        } else {
            None
        }
    }

    /// The content of a file: of the layer, or of the disk.
    pub fn read_file(&self, path: &str, cwd: &str, facts: &Vec<DiskFact>) -> (r: Option<Vec<u8>>)
        requires
            sliceable(resolve_abs_spec(path@, cwd@)),
        ensures
            match r {
                Some(v) => rt_read(self.view(), fact_views(facts@), resolve_abs_spec(path@, cwd@)) == Some(v@),
                None => rt_read(self.view(), fact_views(facts@), resolve_abs_spec(path@, cwd@)) is None,
            },
    {
        let abs = resolve_abs(chars_of(path).as_slice(), chars_of(cwd).as_slice());
        self.read_abs(abs.as_slice(), facts)
    }

    pub fn is_dir(&self, path: &str, cwd: &str, facts: &Vec<DiskFact>) -> (r: bool)
        requires
            sliceable(resolve_abs_spec(path@, cwd@)),
        ensures
            r == rt_is_dir(self.view(), fact_views(facts@), resolve_abs_spec(path@, cwd@)),
    {
        let abs = resolve_abs(chars_of(path).as_slice(), chars_of(cwd).as_slice());
        self.is_dir_abs(abs.as_slice(), facts)
    }

    pub fn path_exists(&self, path: &str, cwd: &str, facts: &Vec<DiskFact>) -> (r: bool)
        requires
            sliceable(resolve_abs_spec(path@, cwd@)),
        ensures
            r == rt_exists(self.view(), fact_views(facts@), resolve_abs_spec(path@, cwd@)),
    {
        let abs = resolve_abs(chars_of(path).as_slice(), chars_of(cwd).as_slice());
        if self.above_deleted(abs.as_slice()) || self.is_deleted(abs.as_slice()) {
            return false;
        }
        if self.has_file(abs.as_slice()) || self.has_dir(abs.as_slice()) {
            return true;
        }
        let (inside, _, _) = fact_flags(facts, abs.as_slice());
        inside
    }

    /// Lists a directory: the layer's entries merged with the disk's.
    pub fn list_dir(&self, path: &str, cwd: &str, show_hidden: bool, facts: &Vec<DiskFact>) -> (r: Option<
        Vec<DirEntry>,
    >)
        requires
            sliceable(resolve_abs_spec(path@, cwd@)),
        ensures
            ({
                let spec = rt_list(self.view(), fact_views(facts@), resolve_abs_spec(path@, cwd@), show_hidden);
                match r {
                    None => spec is None,
                    Some(v) => spec == Some(Seq::new(v@.len(), |i: int| (v@[i].name@, v@[i].is_dir)))
                        && forall|i: int| 0 <= i < v@.len() ==> (#[trigger] v@[i]).size == 0,
                }
            }),
    {
        let abs = resolve_abs(chars_of(path).as_slice(), chars_of(cwd).as_slice());
        let abs_s = string_of(abs.as_slice());
        let deleted = string_list(&self.deleted);
        let files = file_key_strings(&self.files);
        let dirs = dir_key_strings(&self.dirs);
        let children: Option<Vec<String>> = match self.find_dir(abs.as_slice()) {
            Some(i) => Some(string_list(&self.dirs[i].1)),
            None => None,
        };
        let (inside, isdir, _) = fact_flags(facts, abs.as_slice());
        let listing: Option<&Vec<(String, bool)>> = match find_fact(facts, abs.as_slice()) {
            Some(i) => match &facts[i].listing {
                Some(l) => Some(l),
                None => None,
            },
            None => None,
        };
        read_through_list(
            abs_s.as_str(),
            &deleted,
            &files,
            &dirs,
            children.as_ref(),
            inside,
            listing,
            isdir,
            show_hidden,
        )
    }
}

fn is_root(p: &[char]) -> (r: bool)
    ensures
        r == (p@ == seq!['/']),
{
    let r = p.len() == 1 && p[0] == '/';
    assert(p@.len() == 1 && p@[0] == '/' ==> p@ =~= seq!['/']);
    r
}

impl ReadThroughLayer {
    /// Makes a directory in the layer.
    pub fn mkdir(&mut self, path: &str, cwd: &str, facts: &Vec<DiskFact>) -> (r: bool)
        requires
            ensure_ok(split_path_spec(resolve_abs_spec(path@, cwd@)).0),
        ensures
            (r, final(self).view()) == rt_mkdir(old(self).view(), fact_views(facts@), path@, cwd@),
    {
        let abs = resolve_abs(chars_of(path).as_slice(), chars_of(cwd).as_slice());
        if is_root(abs.as_slice()) {
            return false;
        }
        let (pp, name) = split_path(abs.as_slice());
        self.ensure(facts, pp.as_slice());
        let (inside, isdir, _) = fact_flags(facts, pp.as_slice());
        if !self.is_layer_dir(pp.as_slice()) {
            if !inside || !isdir {
                return false;
            }
            self.populate(facts, pp.as_slice());
        }
        if self.has_child(pp.as_slice(), name.as_slice()) {
            return false;
        }
        let (ainside, _, _) = fact_flags(facts, abs.as_slice());
        if ainside {
            return false;
        }
        let empty: Vec<Vec<char>> = Vec::new();
        assert(views(empty@) =~= Seq::<Seq<char>>::empty());
        self.put_dir(abs.as_slice(), empty);
        self.add_child(pp.as_slice(), name.as_slice());
        true
    }

    /// Makes an empty file in the layer.
    pub fn create_file(&mut self, path: &str, cwd: &str, facts: &Vec<DiskFact>) -> (r: bool)
        requires
            ensure_ok(split_path_spec(resolve_abs_spec(path@, cwd@)).0),
        ensures
            (r, final(self).view()) == rt_create_file(old(self).view(), fact_views(facts@), path@, cwd@),
    {
        let abs = resolve_abs(chars_of(path).as_slice(), chars_of(cwd).as_slice());
        if is_root(abs.as_slice()) {
            return false;
        }
        let (pp, name) = split_path(abs.as_slice());
        self.ensure(facts, pp.as_slice());
        let (inside, isdir, _) = fact_flags(facts, pp.as_slice());
        if !self.is_layer_dir(pp.as_slice()) {
            if !inside || !isdir {
                return false;
            }
            self.populate(facts, pp.as_slice());
        }
        if self.has_child(pp.as_slice(), name.as_slice()) {
            return false;
        }
        self.put_file(abs.as_slice(), Vec::new());
        self.add_child(pp.as_slice(), name.as_slice());
        true
    }

    fn write_chars(&mut self, path: &[char], cwd: &[char], data: &[u8], facts: &Vec<DiskFact>) -> (r: bool)
        requires
            write_ok(old(self).view(), path@, cwd@),
        ensures
            (r, final(self).view()) == rt_write(old(self).view(), fact_views(facts@), path@, cwd@, data@),
    {
        let abs = resolve_abs(path, cwd);
        if self.has_file(abs.as_slice()) {
            self.put_file(abs.as_slice(), slice_to_vec(data));
            return true;
        }
        if self.is_layer_dir(abs.as_slice()) {
            return false;
        }
        let (pp, name) = split_path(abs.as_slice());
        self.ensure(facts, pp.as_slice());
        let (inside, isdir, _) = fact_flags(facts, pp.as_slice());
        let parent_ok = self.is_layer_dir(pp.as_slice()) || (inside && isdir);
        if !parent_ok {
            return false;
        }
        self.put_file(abs.as_slice(), slice_to_vec(data));
        self.populate(facts, pp.as_slice());
        self.add_child(pp.as_slice(), name.as_slice());
        true
    }

    /// Writes a file into the layer.
    pub fn write_file(&mut self, path: &str, cwd: &str, data: &[u8], facts: &Vec<DiskFact>) -> (r: bool)
        requires
            write_ok(old(self).view(), path@, cwd@),
        ensures
            (r, final(self).view()) == rt_write(old(self).view(), fact_views(facts@), path@, cwd@, data@),
    {
        let p = chars_of(path);
        let c = chars_of(cwd);
        self.write_chars(p.as_slice(), c.as_slice(), data, facts)
    }

    fn remove_chars(&mut self, path: &[char], cwd: &[char], facts: &Vec<DiskFact>) -> (r: bool)
        ensures
            (r, final(self).view()) == rt_remove(old(self).view(), fact_views(facts@), path@, cwd@),
    {
        let abs = resolve_abs(path, cwd);
        if is_root(abs.as_slice()) {
            return false;
        }
        if self.has_file(abs.as_slice()) {
            self.remove_file_key(abs.as_slice());
            self.add_deleted(abs.as_slice());
            let (pp, name) = split_path(abs.as_slice());
            self.del_child(pp.as_slice(), name.as_slice());
            return true;
        }
        if self.is_layer_dir(abs.as_slice()) {
            return false;
        }
        let (inside, _, isfile) = fact_flags(facts, abs.as_slice());
        if inside && isfile {
            self.add_deleted(abs.as_slice());
            return true;
        }
        false
    }

    /// Removes a file: one of the layer, or hides one of the disk.
    pub fn remove(&mut self, path: &str, cwd: &str, facts: &Vec<DiskFact>) -> (r: bool)
        ensures
            (r, final(self).view()) == rt_remove(old(self).view(), fact_views(facts@), path@, cwd@),
    {
        let p = chars_of(path);
        let c = chars_of(cwd);
        self.remove_chars(p.as_slice(), c.as_slice(), facts)
    }

    /// Removes a node with everything below it, and hides what the disk
    /// has there.
    pub fn remove_all(&mut self, path: &str, cwd: &str, facts: &Vec<DiskFact>) -> (r: bool)
        ensures
            (r, final(self).view()) == rt_remove_all(old(self).view(), fact_views(facts@), path@, cwd@),
    {
        let abs = resolve_abs(chars_of(path).as_slice(), chars_of(cwd).as_slice());
        if is_root(abs.as_slice()) {
            return false;
        }
        self.keep_files_outside(abs.as_slice());
        self.keep_dirs_outside(abs.as_slice());
        match find_fact(facts, abs.as_slice()) {
            Some(i) => {
                if facts[i].inside {
                    match &facts[i].listing {
                        Some(l) => self.delete_listed(abs.as_slice(), l),
                        None => {},
                    }
                }
            },
            None => {},
        }
        let (pp, name) = split_path(abs.as_slice());
        self.del_child(pp.as_slice(), name.as_slice());
        self.add_deleted(abs.as_slice());
        true
    }

    fn landing_exec(&self, src_abs: &[char], dst_abs: &[char], facts: &Vec<DiskFact>) -> (r: Vec<char>)
        requires
            sliceable(resolve_abs_spec(dst_abs@, seq!['/'])),
        ensures
            r@ == landing(self.view(), fact_views(facts@), src_abs@, dst_abs@),
    {
        let mut root: Vec<char> = Vec::new();
        root.push('/');
        assert(root@ =~= seq!['/']);
        let again = resolve_abs(dst_abs, root.as_slice());
        if self.is_dir_abs(again.as_slice(), facts) {
            let name = base_name_exec(src_abs);
            child_path_chars(dst_abs, name.as_slice())
        } else {
            clone_chars(dst_abs)
        }
    }

    /// Copies a file (of the layer or of the disk) into the layer: into a
    /// directory under its own name, or to the path.
    pub fn copy_file(&mut self, src: &str, dst: &str, cwd: &str, facts: &Vec<DiskFact>) -> (r: bool)
        requires
            copy_ok(old(self).view(), fact_views(facts@), src@, dst@, cwd@),
        ensures
            (r, final(self).view()) == rt_copy(old(self).view(), fact_views(facts@), src@, dst@, cwd@),
    {
        let c = chars_of(cwd);
        let src_abs = resolve_abs(chars_of(src).as_slice(), c.as_slice());
        let content = match self.read_abs(src_abs.as_slice(), facts) {
            Some(v) => v,
            None => {
                return false;
            },
        };
        let dst_abs = resolve_abs(chars_of(dst).as_slice(), c.as_slice());
        let target = self.landing_exec(src_abs.as_slice(), dst_abs.as_slice(), facts);
        let mut root: Vec<char> = Vec::new();
        root.push('/');
        assert(root@ =~= seq!['/']);
        self.write_chars(target.as_slice(), root.as_slice(), content.as_slice(), facts)
    }

    /// Moves a file: read, removed, and written where it lands.
    pub fn move_node(&mut self, src: &str, dst: &str, cwd: &str, facts: &Vec<DiskFact>) -> (r: bool)
        requires
            move_ok(old(self).view(), fact_views(facts@), src@, dst@, cwd@),
        ensures
            (r, final(self).view()) == rt_move(old(self).view(), fact_views(facts@), src@, dst@, cwd@),
    {
        let c = chars_of(cwd);
        let s = chars_of(src);
        let src_abs = resolve_abs(s.as_slice(), c.as_slice());
        let content = match self.read_abs(src_abs.as_slice(), facts) {
            Some(v) => v,
            None => {
                return false;
            },
        };
        if !self.remove_chars(s.as_slice(), c.as_slice(), facts) {
            return false;
        }
        let dst_abs = resolve_abs(chars_of(dst).as_slice(), c.as_slice());
        let target = self.landing_exec(src_abs.as_slice(), dst_abs.as_slice(), facts);
        let mut root: Vec<char> = Vec::new();
        root.push('/');
        assert(root@ =~= seq!['/']);
        self.write_chars(target.as_slice(), root.as_slice(), content.as_slice(), facts)
    }
}

fn sliceable_exec(p: &[char]) -> (r: bool)
    ensures
        r == sliceable(p@),
{
    p.len() > 0 && (p[0] as u32) < 0x80
}

fn ensure_ok_exec(p: &[char]) -> (r: bool)
    ensures
        r == ensure_ok(p@),
{
    is_root(p) || p.len() == 0 || sliceable_exec(p)
}

/// Whether operations on `path` can read it after its first character (its
/// resolved form starts with a one-byte character).
pub fn path_sliceable(path: &str, cwd: &str) -> (r: bool)
    ensures
        r == sliceable(resolve_abs_spec(path@, cwd@)),
{
    let abs = resolve_abs(chars_of(path).as_slice(), chars_of(cwd).as_slice());
    sliceable_exec(abs.as_slice())
}

/// Whether the way to the parent of `path` can be loaded.
pub fn way_loadable(path: &str, cwd: &str) -> (r: bool)
    ensures
        r == ensure_ok(split_path_spec(resolve_abs_spec(path@, cwd@)).0),
{
    let abs = resolve_abs(chars_of(path).as_slice(), chars_of(cwd).as_slice());
    let (pp, _) = split_path(abs.as_slice());
    ensure_ok_exec(pp.as_slice())
}

impl ReadThroughLayer {
    fn duplicate(&self) -> (r: ReadThroughLayer)
        ensures
            r.view() == self.view(),
    {
        let mut files: Vec<(Vec<char>, Vec<u8>)> = Vec::new();
        let mut i: usize = 0;
        while i < self.files.len()
            invariant
                i <= self.files@.len(),
                file_views(files@) =~= file_views(self.files@).take(i as int),
            decreases self.files@.len() - i,
        {
            let ghost before = file_views(files@);
            files.push((clone_chars(self.files[i].0.as_slice()), slice_to_vec(self.files[i].1.as_slice())));
            assert(file_views(files@) =~= before.push(file_views(self.files@)[i as int]));
            assert(file_views(self.files@).take(i + 1) =~= file_views(self.files@).take(i as int).push(
                file_views(self.files@)[i as int],
            ));
            i = i + 1;
        }
        let mut dirs: Vec<(Vec<char>, Vec<Vec<char>>)> = Vec::new();
        let mut j: usize = 0;
        while j < self.dirs.len()
            invariant
                j <= self.dirs@.len(),
                dir_views(dirs@) =~= dir_views(self.dirs@).take(j as int),
            decreases self.dirs@.len() - j,
        {
            let ghost before = dir_views(dirs@);
            dirs.push((clone_chars(self.dirs[j].0.as_slice()), clone_names(&self.dirs[j].1)));
            assert(dir_views(dirs@) =~= before.push(dir_views(self.dirs@)[j as int]));
            assert(dir_views(self.dirs@).take(j + 1) =~= dir_views(self.dirs@).take(j as int).push(
                dir_views(self.dirs@)[j as int],
            ));
            j = j + 1;
        }
        assert(file_views(self.files@).take(self.files@.len() as int) =~= file_views(self.files@));
        assert(dir_views(self.dirs@).take(self.dirs@.len() as int) =~= dir_views(self.dirs@));
        ReadThroughLayer { files, dirs, deleted: clone_names(&self.deleted) }
    }

    fn write_ready_chars(&self, path: &[char], cwd: &[char]) -> (r: bool)
        ensures
            r == write_ok(self.view(), path@, cwd@),
    {
        let abs = resolve_abs(path, cwd);
        let (pp, _) = split_path(abs.as_slice());
        self.has_file(abs.as_slice()) || self.is_layer_dir(abs.as_slice()) || ensure_ok_exec(pp.as_slice())
    }

    /// Whether a write to `path` can run (it loads the way to the parent
    /// only when the path is no file or directory of the layer).
    pub fn write_ready(&self, path: &str, cwd: &str) -> (r: bool)
        ensures
            r == write_ok(self.view(), path@, cwd@),
    {
        self.write_ready_chars(chars_of(path).as_slice(), chars_of(cwd).as_slice())
    }

    /// Whether a copy can run.
    pub fn copy_ready(&self, src: &str, dst: &str, cwd: &str, facts: &Vec<DiskFact>) -> (r: bool)
        ensures
            r == copy_ok(self.view(), fact_views(facts@), src@, dst@, cwd@),
    {
        let c = chars_of(cwd);
        let src_abs = resolve_abs(chars_of(src).as_slice(), c.as_slice());
        if !sliceable_exec(src_abs.as_slice()) {
            return false;
        }
        if self.read_abs(src_abs.as_slice(), facts).is_none() {
            return true;
        }
        let dst_abs = resolve_abs(chars_of(dst).as_slice(), c.as_slice());
        let mut root: Vec<char> = Vec::new();
        root.push('/');
        assert(root@ =~= seq!['/']);
        let again = resolve_abs(dst_abs.as_slice(), root.as_slice());
        if !sliceable_exec(again.as_slice()) {
            return false;
        }
        let target = self.landing_exec(src_abs.as_slice(), dst_abs.as_slice(), facts);
        self.write_ready_chars(target.as_slice(), root.as_slice())
    }

    /// Whether a move can run.
    pub fn move_ready(&self, src: &str, dst: &str, cwd: &str, facts: &Vec<DiskFact>) -> (r: bool)
        ensures
            r == move_ok(self.view(), fact_views(facts@), src@, dst@, cwd@),
    {
        let c = chars_of(cwd);
        let s = chars_of(src);
        let src_abs = resolve_abs(s.as_slice(), c.as_slice());
        if !sliceable_exec(src_abs.as_slice()) {
            return false;
        }
        if self.read_abs(src_abs.as_slice(), facts).is_none() {
            return true;
        }
        let mut after = self.duplicate();
        if !after.remove_chars(s.as_slice(), c.as_slice(), facts) {
            return true;
        }
        let dst_abs = resolve_abs(chars_of(dst).as_slice(), c.as_slice());
        let mut root: Vec<char> = Vec::new();
        root.push('/');
        assert(root@ =~= seq!['/']);
        let again = resolve_abs(dst_abs.as_slice(), root.as_slice());
        if !sliceable_exec(again.as_slice()) {
            return false;
        }
        let target = after.landing_exec(src_abs.as_slice(), dst_abs.as_slice(), facts);
        after.write_ready_chars(target.as_slice(), root.as_slice())
    }
}

} // verus!
