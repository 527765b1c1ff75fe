//! What the file system promises across its operations: what a read gives
//! back after a write, that a made directory is there, that a removed node
//! is gone, and that a copy has the content of its source.
//!
//! The file system finds the parent of a new node by resolving the parent
//! path again, and resolving trims whitespace. So these laws speak of paths
//! that resolve to an absolute path none of whose components ends in
//! whitespace ("settled" paths); for the others the parent it finds can
//! differ from the one the path names.
use crate::assoc::{
    assoc, find_first, has_key, keep_keys, lemma_assoc_append_absent, lemma_assoc_contains,
    lemma_assoc_keep_keys, lemma_assoc_rekey,
    lemma_assoc_push_new, lemma_assoc_update_first, lemma_assoc_without_key, lemma_find_first_some,
    lemma_keep_keys_all,
};
use crate::fs::{
    child_path, copy_spec, create_file_spec, exists_spec, has_key_prefix, is_dir_spec,
    key_of, mkdir_spec, move_spec, node_at, outside, parent_of, read_spec, rebase,
    remove_all_spec, remove_spec, under, write_spec, FsLimits, FsView, NodeView,
};
use crate::fstree::{lemma_assoc_outside, lemma_nothing_below, tree_shaped};
use crate::paths::{
    base_name, clean_comp, clean_comps, free_of, last_index, lemma_normalize_fixed,
    lemma_normalize_shape, lemma_split_join, normalize_spec, resolve_abs_spec, split_path_spec,
    untrimmed_comps,
};
use crate::text::{join_spec, split_on, trim_spec};
use vstd::prelude::*;

verus! {

/// A path that resolves to an absolute path none of whose components ends
/// in whitespace.
pub open spec fn settled(path: Seq<char>, cwd: Seq<char>) -> bool {
    let abs = resolve_abs_spec(path, cwd);
    abs.len() > 0 && abs[0] == '/' && untrimmed_comps(key_of(abs))
}

proof fn lemma_last_index_append_free(s: Seq<char>, t: Seq<char>, c: char)
    requires
        free_of(t, c),
    ensures
        last_index(s + t, c) == last_index(s, c),
    decreases t.len(),
{
    if t.len() == 0 {
        assert(s + t =~= s);
    } else {
        let t0 = t.drop_last();
        assert forall|j: int| 0 <= j < t0.len() implies t0[j] != c by {
            assert(t0[j] == t[j]);
        }
        lemma_last_index_append_free(s, t0, c);
        assert((s + t).drop_last() =~= s + t0);
        assert((s + t).last() == t[t.len() - 1]);
    }
}

/// The key of `/` followed by clean components is those components.
proof fn lemma_key_of_join(cs: Seq<Seq<char>>)
    requires
        clean_comps(cs),
    ensures
        key_of(seq!['/'] + join_spec(cs, seq!['/'])) == cs,
{
    let p = seq!['/'] + join_spec(cs, seq!['/']);
    if cs.len() == 0 {
        assert(p =~= seq!['/']);
    } else {
        assert(clean_comp(cs[0]));
        crate::paths::lemma_join_first(cs);
        assert(p.len() > 1);
        assert(p != seq!['/']);
        assert(p.drop_first() =~= join_spec(cs, seq!['/']));
        assert forall|i: int| 0 <= i < cs.len() implies free_of(#[trigger] cs[i], '/') by {
            assert(clean_comp(cs[i]));
        }
        lemma_split_join(cs);
    }
}

/// Where a new node for `/` followed by settled components goes: the
/// components but the last, and the last.
proof fn lemma_parent_of_join(cs: Seq<Seq<char>>)
    requires
        cs.len() >= 1,
        clean_comps(cs),
        untrimmed_comps(cs),
    ensures
        parent_of(seq!['/'] + join_spec(cs, seq!['/'])) == (cs.drop_last(), cs.last()),
        split_path_spec(seq!['/'] + join_spec(cs, seq!['/'])).1 == cs.last(),
{
    let p = seq!['/'] + join_spec(cs, seq!['/']);
    let t = cs.drop_last();
    let l = cs.last();
    assert(clean_comp(cs[cs.len() - 1]));
    assert forall|i: int| 0 <= i < t.len() implies clean_comp(#[trigger] t[i]) by {
        assert(t[i] == cs[i]);
    }
    assert forall|i: int| 0 <= i < t.len() implies !crate::text::is_ws((#[trigger] t[i]).last()) by {
        assert(t[i] == cs[i]);
    }
    let a: Seq<char> = if cs.len() == 1 {
        seq![]
    } else {
        seq!['/'] + join_spec(t, seq!['/'])
    };
    if cs.len() == 1 {
        assert(p =~= a.push('/') + l);
    } else {
        assert(p =~= a.push('/') + l);
    }
    lemma_last_index_append_free(a.push('/'), l, '/');
    assert(last_index(a.push('/'), '/') == Some(a.len() as int)) by {
        assert(a.push('/').last() == '/');
    }
    assert(p.skip(a.len() + 1 as int) =~= l);
    lemma_normalize_fixed(t);
    if cs.len() == 1 {
        assert(t =~= Seq::<Seq<char>>::empty());
        assert(seq!['/'] + join_spec(t, seq!['/']) =~= seq!['/']);
        assert(resolve_abs_spec(seq!['/'], seq!['/']) == seq!['/']);
        lemma_key_of_join(t);
    } else {
        assert(p.take(a.len() as int) =~= a);
        assert(a[0] == '/');
        lemma_key_of_join(t);
    }
}

/// What a settled path resolves to: `/` and its key's components, which
/// resolve to themselves; a key that is not the root is its parent's key and
/// its name.
pub proof fn lemma_settled(path: Seq<char>, cwd: Seq<char>)
    requires
        settled(path, cwd),
    ensures
        ({
            let abs = resolve_abs_spec(path, cwd);
            let k = key_of(abs);
            &&& clean_comps(k)
            &&& abs == seq!['/'] + join_spec(k, seq!['/'])
            &&& resolve_abs_spec(abs, seq!['/']) == abs
            &&& (k.len() == 0 <==> abs == seq!['/'])
            &&& k.len() > 0 ==> parent_of(abs).0.push(parent_of(abs).1) == k && base_name(abs)
                == k.last() && split_path_spec(abs).1 == k.last()
        }),
{
    let abs = resolve_abs_spec(path, cwd);
    let x = if path.len() > 0 && path[0] == '/' {
        path
    } else {
        (if cwd == seq!['/'] {
            seq![]
        } else {
            cwd
        }) + seq!['/'] + path
    };
    assert(abs == normalize_spec(x));
    lemma_normalize_shape(x);
    let t = trim_spec(x);
    let cs = crate::paths::norm_comps(split_on(t.drop_first(), '/'));
    lemma_key_of_join(cs);
    assert(key_of(abs) == cs);
    lemma_normalize_fixed(cs);
    assert(resolve_abs_spec(abs, seq!['/']) == normalize_spec(abs));
    if cs.len() == 0 {
        assert(abs =~= seq!['/']);
    } else {
        assert(clean_comp(cs[0]));
        crate::paths::lemma_join_first(cs);
        assert(abs.len() > 1);
        lemma_parent_of_join(cs);
        assert(cs.drop_last().push(cs.last()) =~= cs);
    }
}

/// Entries kept outside `p` have no key equal to `p`.
proof fn lemma_outside_no_key(es: Seq<(Seq<Seq<char>>, NodeView)>, p: Seq<Seq<char>>)
    ensures
        !has_key(outside(es, p), p),
{
    let fo = |k: Seq<Seq<char>>| !has_key_prefix(k, p);
    assert(outside(es, p) == keep_keys(es, fo));
    lemma_keep_keys_all(es, fo);
    assert(p.take(p.len() as int) =~= p);
    if has_key(outside(es, p), p) {
        let i = choose|i: int| 0 <= i < outside(es, p).len() && (#[trigger] outside(es, p)[i]).0 == p;
        assert(fo(outside(es, p)[i].0));
    }
}

/// Reading a path after a write to it succeeded gives what was written.
pub proof fn law_write_then_read(s: FsView, lim: FsLimits, path: Seq<char>, cwd: Seq<char>, data: Seq<u8>)
    requires
        settled(path, cwd),
        write_spec(s, lim, path, cwd, data).0,
    ensures
        read_spec(write_spec(s, lim, path, cwd, data).1, path, cwd) == Some(data),
{
    lemma_settled(path, cwd);
    let abs = resolve_abs_spec(path, cwd);
    let k = key_of(abs);
    let es = s.entries;
    let new = write_spec(s, lim, path, cwd, data).1;
    match node_at(es, k) {
        Some(NodeView::File(_)) => {
            assert(k.len() > 0);
            lemma_assoc_contains(es, k);
            lemma_find_first_some(es, k);
            let i = find_first(es, k).unwrap();
            lemma_assoc_update_first(es, i, NodeView::File(data));
            assert(new.entries == es.update(i, (k, NodeView::File(data))));
            assert(es.update(i, (es[i].0, NodeView::File(data))) == es.update(i, (k, NodeView::File(data))));
        },
        Some(NodeView::Dir) => {},
        None => {
            assert(k.len() > 0);
            let (pk, name) = parent_of(abs);
            let ck = pk.push(name);
            assert(ck == k);
            lemma_outside_no_key(es, ck);
            lemma_assoc_push_new(outside(es, ck), ck, NodeView::File(data));
        },
    }
}

/// A write changes nothing but the path written: in a file system shaped
/// as a tree, every other path reads, exists and is a directory exactly as
/// before.
pub proof fn law_write_keeps_others(
    s: FsView,
    lim: FsLimits,
    path: Seq<char>,
    cwd: Seq<char>,
    data: Seq<u8>,
    q: Seq<char>,
    qcwd: Seq<char>,
)
    requires
        tree_shaped(s),
        settled(path, cwd),
        write_spec(s, lim, path, cwd, data).0,
        key_of(resolve_abs_spec(q, qcwd)) != key_of(resolve_abs_spec(path, cwd)),
    ensures
        read_spec(write_spec(s, lim, path, cwd, data).1, q, qcwd) == read_spec(s, q, qcwd),
        exists_spec(write_spec(s, lim, path, cwd, data).1, q, qcwd) == exists_spec(s, q, qcwd),
        is_dir_spec(write_spec(s, lim, path, cwd, data).1, q, qcwd) == is_dir_spec(s, q, qcwd),
{
    lemma_settled(path, cwd);
    let abs = resolve_abs_spec(path, cwd);
    let k = key_of(abs);
    let kq = key_of(resolve_abs_spec(q, qcwd));
    let es = s.entries;
    let m = assoc(es);
    let new = write_spec(s, lim, path, cwd, data).1;
    match node_at(es, k) {
        Some(NodeView::File(_)) => {
            assert(k.len() > 0);
            lemma_assoc_contains(es, k);
            lemma_find_first_some(es, k);
            let i = find_first(es, k).unwrap();
            lemma_assoc_update_first(es, i, NodeView::File(data));
            assert(new.entries == es.update(i, (k, NodeView::File(data))));
            assert(es.update(i, (es[i].0, NodeView::File(data))) == es.update(i, (k, NodeView::File(data))));
            assert(node_at(new.entries, kq) == node_at(es, kq));
        },
        Some(NodeView::Dir) => {},
        None => {
            assert(k.len() > 0);
            let (pk, name) = parent_of(abs);
            let ck = pk.push(name);
            assert(ck == k);
            lemma_outside_no_key(es, ck);
            lemma_assoc_push_new(outside(es, ck), ck, NodeView::File(data));
            lemma_assoc_outside(es, ck);
            if has_key_prefix(kq, ck) {
                lemma_nothing_below(m, ck, kq);
            }
            assert(node_at(new.entries, kq) == node_at(es, kq));
        },
    }
}

/// A directory that `mkdir` made is a directory.
pub proof fn law_mkdir_then_is_dir(s: FsView, lim: FsLimits, path: Seq<char>, cwd: Seq<char>)
    requires
        settled(path, cwd),
        mkdir_spec(s, lim, path, cwd).0,
    ensures
        is_dir_spec(mkdir_spec(s, lim, path, cwd).1, path, cwd),
{
    lemma_settled(path, cwd);
    let abs = resolve_abs_spec(path, cwd);
    let k = key_of(abs);
    let (pk, name) = parent_of(abs);
    let ck = pk.push(name);
    lemma_assoc_contains(s.entries, ck);
    lemma_assoc_push_new(s.entries, ck, NodeView::Dir);
}

/// A file that `create_file` made is there, and empty.
pub proof fn law_create_file_then_read(s: FsView, lim: FsLimits, path: Seq<char>, cwd: Seq<char>)
    requires
        settled(path, cwd),
        resolve_abs_spec(path, cwd) != seq!['/'],
        create_file_spec(s, lim, path, cwd).0,
    ensures
        read_spec(create_file_spec(s, lim, path, cwd).1, path, cwd) == Some(Seq::<u8>::empty()),
{
    lemma_settled(path, cwd);
    let abs = resolve_abs_spec(path, cwd);
    let (pk, name) = parent_of(abs);
    let ck = pk.push(name);
    lemma_assoc_contains(s.entries, ck);
    lemma_assoc_push_new(s.entries, ck, NodeView::File(seq![]));
}

/// A file that `remove` removed is gone.
pub proof fn law_remove_then_gone(s: FsView, path: Seq<char>, cwd: Seq<char>)
    requires
        settled(path, cwd),
        resolve_abs_spec(path, cwd) != seq!['/'],
        remove_spec(s, path, cwd).0,
    ensures
        !exists_spec(remove_spec(s, path, cwd).1, path, cwd),
{
    lemma_settled(path, cwd);
    let abs = resolve_abs_spec(path, cwd);
    let (pk, name) = parent_of(abs);
    let ck = pk.push(name);
    lemma_assoc_without_key(s.entries, ck);
}

/// After `remove_all`, neither the node nor anything below it is there.
pub proof fn law_remove_all_then_gone(s: FsView, path: Seq<char>, cwd: Seq<char>, below: Seq<Seq<char>>)
    requires
        settled(path, cwd),
        remove_all_spec(s, path, cwd).0,
        has_key_prefix(below, key_of(resolve_abs_spec(path, cwd))),
    ensures
        node_at(remove_all_spec(s, path, cwd).1.entries, below) is None,
{
    lemma_settled(path, cwd);
    let abs = resolve_abs_spec(path, cwd);
    let (pk, name) = parent_of(abs);
    let ck = pk.push(name);
    let fo = |k: Seq<Seq<char>>| !has_key_prefix(k, ck);
    assert(outside(s.entries, ck) == keep_keys(s.entries, fo));
    lemma_assoc_keep_keys(s.entries, fo);
    assert(!fo(below));
}

/// A copy to a path that is not a directory: reading the destination
/// afterwards gives the content of the source.
pub proof fn law_copy_then_read(
    s: FsView,
    lim: FsLimits,
    src: Seq<char>,
    dst: Seq<char>,
    cwd: Seq<char>,
)
    requires
        settled(src, cwd),
        settled(dst, cwd),
        !is_dir_spec(s, dst, cwd),
        copy_spec(s, lim, src, dst, cwd).0,
    ensures
        read_spec(copy_spec(s, lim, src, dst, cwd).1, dst, cwd) == read_spec(s, src, cwd),
        read_spec(s, src, cwd) is Some,
{
    lemma_settled(src, cwd);
    lemma_settled(dst, cwd);
    let src_abs = resolve_abs_spec(src, cwd);
    let dst_abs = resolve_abs_spec(dst, cwd);
    assert(read_spec(s, src_abs, seq!['/']) == read_spec(s, src, cwd));
    let content = read_spec(s, src, cwd).unwrap();
    assert(settled(dst_abs, seq!['/']));
    law_write_then_read(s, lim, dst_abs, seq!['/'], content);
}

/// The path of a settled name below a settled directory is settled.
proof fn lemma_child_settled(kd: Seq<Seq<char>>, name: Seq<char>)
    requires
        clean_comps(kd),
        untrimmed_comps(kd),
        clean_comp(name),
        !crate::text::is_ws(name.last()),
    ensures
        child_path(seq!['/'] + join_spec(kd, seq!['/']), name) == seq!['/'] + join_spec(
            kd.push(name),
            seq!['/'],
        ),
        settled(child_path(seq!['/'] + join_spec(kd, seq!['/']), name), seq!['/']),
        key_of(child_path(seq!['/'] + join_spec(kd, seq!['/']), name)) == kd.push(name),
{
    let dir = seq!['/'] + join_spec(kd, seq!['/']);
    let ks = kd.push(name);
    assert(ks.drop_last() =~= kd);
    if kd.len() == 0 {
        assert(dir =~= seq!['/']);
        assert(join_spec(ks, seq!['/']) == ks[0]);
        assert(child_path(dir, name) =~= seq!['/'] + join_spec(ks, seq!['/']));
    } else {
        assert(clean_comp(kd[0]));
        crate::paths::lemma_join_first(kd);
        assert(dir != seq!['/']);
        assert(child_path(dir, name) =~= seq!['/'] + join_spec(ks, seq!['/']));
    }
    assert forall|i: int| 0 <= i < ks.len() implies clean_comp(#[trigger] ks[i]) by {
        if i < kd.len() {
            assert(ks[i] == kd[i]);
        }
    }
    assert forall|i: int| 0 <= i < ks.len() implies !crate::text::is_ws((#[trigger] ks[i]).last()) by {
        if i < kd.len() {
            assert(ks[i] == kd[i]);
        }
    }
    lemma_normalize_fixed(ks);
    lemma_key_of_join(ks);
}

/// A copy into a directory: reading the file of the source's name in that
/// directory afterwards gives the content of the source.
pub proof fn law_copy_into_dir_then_read(
    s: FsView,
    lim: FsLimits,
    src: Seq<char>,
    dst: Seq<char>,
    cwd: Seq<char>,
)
    requires
        settled(src, cwd),
        settled(dst, cwd),
        is_dir_spec(s, dst, cwd),
        copy_spec(s, lim, src, dst, cwd).0,
    ensures
        read_spec(
            copy_spec(s, lim, src, dst, cwd).1,
            child_path(resolve_abs_spec(dst, cwd), base_name(resolve_abs_spec(src, cwd))),
            seq!['/'],
        ) == read_spec(s, src, cwd),
        read_spec(s, src, cwd) is Some,
{
    lemma_settled(src, cwd);
    lemma_settled(dst, cwd);
    let src_abs = resolve_abs_spec(src, cwd);
    let dst_abs = resolve_abs_spec(dst, cwd);
    assert(read_spec(s, src_abs, seq!['/']) == read_spec(s, src, cwd));
    let content = read_spec(s, src, cwd).unwrap();
    let ks = key_of(src_abs);
    assert(ks.len() > 0);
    assert(clean_comp(ks[ks.len() - 1]));
    assert(!crate::text::is_ws(ks[ks.len() - 1].last()));
    lemma_child_settled(key_of(dst_abs), ks.last());
    let target = child_path(dst_abs, base_name(src_abs));
    law_write_then_read(s, lim, target, seq!['/'], content);
}

/// Moving a node to a path that names nothing (and is not above the node):
/// the destination then holds what the source held, and the source is gone.
pub proof fn law_move_then_read(s: FsView, src: Seq<char>, dst: Seq<char>, cwd: Seq<char>)
    requires
        settled(src, cwd),
        settled(dst, cwd),
        !exists_spec(s, dst, cwd),
        !has_key_prefix(key_of(resolve_abs_spec(src, cwd)), key_of(resolve_abs_spec(dst, cwd))),
        move_spec(s, src, dst, cwd).0,
    ensures
        read_spec(move_spec(s, src, dst, cwd).1, dst, cwd) == read_spec(s, src, cwd),
        is_dir_spec(move_spec(s, src, dst, cwd).1, dst, cwd) == is_dir_spec(s, src, cwd),
        !exists_spec(move_spec(s, src, dst, cwd).1, src, cwd),
{
    lemma_settled(src, cwd);
    lemma_settled(dst, cwd);
    let src_abs = resolve_abs_spec(src, cwd);
    let dst_abs = resolve_abs_spec(dst, cwd);
    let es = s.entries;
    let sk = key_of(src_abs);
    let kd = key_of(dst_abs);
    assert(sk.len() > 0);
    assert(kd.len() > 0);
    let fu = |k: Seq<Seq<char>>| has_key_prefix(k, sk);
    let fo = |k: Seq<Seq<char>>| !has_key_prefix(k, sk);
    let moving = under(es, sk);
    let es1 = outside(es, sk);
    assert(moving == keep_keys(es, fu));
    assert(es1 == keep_keys(es, fo));
    lemma_assoc_keep_keys(es, fu);
    lemma_assoc_keep_keys(es, fo);
    lemma_keep_keys_all(es, fu);
    assert(!assoc(es1).contains_key(kd));
    lemma_assoc_contains(es1, kd);
    let n = sk.len();
    let r = rebase(moving, n, kd);
    let new = move_spec(s, src, dst, cwd).1;
    assert(new.entries == es1 + r);
    assert forall|i: int| 0 <= i < moving.len() implies (#[trigger] r[i]).1 == moving[i].1 && (r[i].0
        == kd <==> moving[i].0 == sk) by {
        let m = moving[i].0;
        assert(fu(m));
        assert(r[i].0 == kd + m.skip(n as int));
        if r[i].0 == kd {
            assert((kd + m.skip(n as int)).len() == kd.len());
            assert(m =~= m.take(n as int));
        }
        if m == sk {
            assert(kd + m.skip(n as int) =~= kd);
        }
    }
    lemma_assoc_rekey(moving, r, sk, kd);
    lemma_assoc_append_absent(es1, r, kd);
    assert(fu(sk)) by {
        assert(sk.take(sk.len() as int) =~= sk);
    }
    assert forall|i: int| 0 <= i < (es1 + r).len() implies (#[trigger] (es1 + r)[i]).0 != sk by {
        if i < es1.len() {
            assert((es1 + r)[i] == es1[i]);
            lemma_outside_no_key(es, sk);
            if es1[i].0 == sk {
                assert(has_key(es1, sk));
            }
        } else {
            let j = i - es1.len();
            assert((es1 + r)[i] == r[j]);
            let m = moving[j].0;
            if r[j].0 == sk {
                assert(r[j].0 == kd + m.skip(n as int));
                assert(sk.take(kd.len() as int) =~= kd);
                assert(has_key_prefix(sk, kd));
            }
        }
    }
    crate::assoc::lemma_assoc_absent(es1 + r, sk);
}

} // verus!
