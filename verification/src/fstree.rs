//! The shape of the file system as a tree: every node below the root hangs
//! from directories, so each proper prefix of a stored path is a stored
//! directory. Every operation keeps this shape.
use crate::assoc::{
    assoc, find_first, has_key, keep_keys, lemma_assoc_contains, lemma_assoc_keep_keys,
    lemma_assoc_push_new, lemma_assoc_update_first, lemma_assoc_without_key, lemma_find_first_some,
    lemma_keep_keys_all, without_key,
};
use crate::fs::{
    copy_spec, create_spec, has_key_prefix, key_of, move_spec, node_at, outside, parent_of,
    remove_all_spec, remove_spec, under, rebase, write_spec, FsEventView, FsLimits, FsView, NodeView,
};
use crate::paths::resolve_abs_spec;
use vstd::prelude::*;

verus! {

/// Every proper prefix of a stored path is a stored directory.
pub open spec fn dirs_above(m: Map<Seq<Seq<char>>, NodeView>) -> bool {
    forall|k: Seq<Seq<char>>, j: int|
        #![trigger m.contains_key(k), k.take(j)]
        m.contains_key(k) && 0 < j < k.len() ==> m.contains_key(k.take(j)) && m[k.take(j)] == NodeView::Dir
}

/// A file system shaped as a tree: whatever is stored below the root hangs
/// from stored directories.
pub open spec fn tree_shaped(s: FsView) -> bool {
    dirs_above(assoc(s.entries))
}

/// What `outside` keeps: the keys not at or below `c`, with their values.
pub proof fn lemma_assoc_outside(es: Seq<(Seq<Seq<char>>, NodeView)>, c: Seq<Seq<char>>)
    ensures
        forall|k: Seq<Seq<char>>|
            #[trigger] assoc(outside(es, c)).contains_key(k) == (assoc(es).contains_key(k) && !has_key_prefix(k, c)),
        forall|k: Seq<Seq<char>>|
            #[trigger] assoc(outside(es, c)).contains_key(k) ==> assoc(outside(es, c))[k] == assoc(es)[k],
{
    let fo = |k: Seq<Seq<char>>| !has_key_prefix(k, c);
    assert(outside(es, c) == keep_keys(es, fo));
    lemma_assoc_keep_keys(es, fo);
}

/// A prefix of a key that is not below `c` is not below `c` either.
proof fn lemma_prefix_outside(k: Seq<Seq<char>>, j: int, c: Seq<Seq<char>>)
    requires
        0 <= j <= k.len(),
        !has_key_prefix(k, c),
    ensures
        !has_key_prefix(k.take(j), c),
{
    if has_key_prefix(k.take(j), c) {
        assert(k.take(c.len() as int) =~= k.take(j).take(c.len() as int));
    }
}

/// Keeping only what is not at or below `c` keeps the shape.
pub proof fn lemma_outside_tree(es: Seq<(Seq<Seq<char>>, NodeView)>, c: Seq<Seq<char>>)
    requires
        dirs_above(assoc(es)),
    ensures
        dirs_above(assoc(outside(es, c))),
{
    lemma_assoc_outside(es, c);
    let m = assoc(es);
    let mo = assoc(outside(es, c));
    assert forall|k: Seq<Seq<char>>, j: int| mo.contains_key(k) && 0 < j < k.len() implies mo.contains_key(
        k.take(j),
    ) && mo[k.take(j)] == NodeView::Dir by {
        assert(m.contains_key(k));
        assert(m.contains_key(k.take(j)));
        lemma_prefix_outside(k, j, c);
        assert(mo.contains_key(k.take(j)));
    }
}

/// A new key under a stored directory (or the root) keeps the shape.
pub proof fn lemma_insert_tree(m: Map<Seq<Seq<char>>, NodeView>, pk: Seq<Seq<char>>, name: Seq<char>, v: NodeView)
    requires
        dirs_above(m),
        !m.contains_key(pk.push(name)),
        pk.len() == 0 || (m.contains_key(pk) && m[pk] == NodeView::Dir),
    ensures
        dirs_above(m.insert(pk.push(name), v)),
{
    let ck = pk.push(name);
    let m2 = m.insert(ck, v);
    assert forall|k: Seq<Seq<char>>, j: int| m2.contains_key(k) && 0 < j < k.len() implies m2.contains_key(
        k.take(j),
    ) && m2[k.take(j)] == NodeView::Dir by {
        if k == ck {
            if j == pk.len() {
                assert(k.take(j) =~= pk);
            } else {
                assert(k.take(j) =~= pk.take(j));
                assert(m.contains_key(pk));
                assert(m.contains_key(pk.take(j)) && m[pk.take(j)] == NodeView::Dir);
            }
            assert(k.take(j) != ck);
        } else {
            assert(m.contains_key(k));
            assert(m.contains_key(k.take(j)));
            assert(k.take(j) != ck);
        }
    }
}

/// Changing what a stored non-directory holds keeps the shape.
pub proof fn lemma_replace_tree(m: Map<Seq<Seq<char>>, NodeView>, k0: Seq<Seq<char>>, v: NodeView)
    requires
        dirs_above(m),
        m.contains_key(k0),
        m[k0] != NodeView::Dir,
        v != NodeView::Dir,
    ensures
        dirs_above(m.insert(k0, v)),
{
    let m2 = m.insert(k0, v);
    assert forall|k: Seq<Seq<char>>, j: int| m2.contains_key(k) && 0 < j < k.len() implies m2.contains_key(
        k.take(j),
    ) && m2[k.take(j)] == NodeView::Dir by {
        assert(m.contains_key(k));
        assert(m.contains_key(k.take(j)));
    }
}

/// Taking out a stored non-directory keeps the shape.
pub proof fn lemma_remove_key_tree(m: Map<Seq<Seq<char>>, NodeView>, k0: Seq<Seq<char>>)
    requires
        dirs_above(m),
        m.contains_key(k0) ==> m[k0] != NodeView::Dir,
    ensures
        dirs_above(m.remove(k0)),
{
    let m2 = m.remove(k0);
    assert forall|k: Seq<Seq<char>>, j: int| m2.contains_key(k) && 0 < j < k.len() implies m2.contains_key(
        k.take(j),
    ) && m2[k.take(j)] == NodeView::Dir by {
        assert(m.contains_key(k));
        assert(m.contains_key(k.take(j)));
    }
}

/// Nothing is stored strictly below a path that is not a stored directory.
pub proof fn lemma_nothing_below(m: Map<Seq<Seq<char>>, NodeView>, c: Seq<Seq<char>>, q: Seq<Seq<char>>)
    requires
        dirs_above(m),
        c.len() > 0,
        !(m.contains_key(c) && m[c] == NodeView::Dir),
        has_key_prefix(q, c),
        q != c,
    ensures
        !m.contains_key(q),
{
    if m.contains_key(q) {
        assert(q.len() > c.len()) by {
            if q.len() == c.len() {
                assert(q =~= q.take(c.len() as int));
            }
        }
        assert(m.contains_key(q.take(c.len() as int)));
    }
}

pub proof fn lemma_create_tree(s: FsView, lim: FsLimits, abs: Seq<char>, node: NodeView, ev: FsEventView)
    requires
        tree_shaped(s),
    ensures
        tree_shaped(create_spec(s, lim, abs, node, ev).1),
{
    let (pk, name) = parent_of(abs);
    let ck = pk.push(name);
    if create_spec(s, lim, abs, node, ev).0 {
        lemma_assoc_contains(s.entries, ck);
        lemma_assoc_push_new(s.entries, ck, node);
        lemma_insert_tree(assoc(s.entries), pk, name, node);
    }
}

pub proof fn lemma_write_tree(s: FsView, lim: FsLimits, path: Seq<char>, cwd: Seq<char>, data: Seq<u8>)
    requires
        tree_shaped(s),
    ensures
        tree_shaped(write_spec(s, lim, path, cwd, data).1),
{
    let abs = resolve_abs_spec(path, cwd);
    let k = key_of(resolve_abs_spec(abs, seq!['/']));
    let es = s.entries;
    if write_spec(s, lim, path, cwd, data).0 {
        match node_at(es, k) {
            Some(NodeView::File(_)) => {
                lemma_assoc_contains(es, k);
                lemma_find_first_some(es, k);
                let i = find_first(es, k).unwrap();
                lemma_assoc_update_first(es, i, NodeView::File(data));
                assert(es.update(i, (es[i].0, NodeView::File(data))) == es.update(i, (k, NodeView::File(data))));
                lemma_replace_tree(assoc(es), k, NodeView::File(data));
            },
            Some(NodeView::Dir) => {},
            None => {
                let (pk, name) = parent_of(abs);
                let ck = pk.push(name);
                lemma_outside_tree(es, ck);
                lemma_assoc_outside(es, ck);
                let o = outside(es, ck);
                assert(!assoc(o).contains_key(ck)) by {
                    assert(ck.take(ck.len() as int) =~= ck);
                }
                lemma_assoc_contains(o, ck);
                lemma_assoc_push_new(o, ck, NodeView::File(data));
                if pk.len() > 0 {
                    assert(!has_key_prefix(pk, ck));
                    assert(assoc(o).contains_key(pk));
                }
                lemma_insert_tree(assoc(o), pk, name, NodeView::File(data));
            },
        }
    }
}

pub proof fn lemma_remove_tree(s: FsView, path: Seq<char>, cwd: Seq<char>)
    requires
        tree_shaped(s),
    ensures
        tree_shaped(remove_spec(s, path, cwd).1),
{
    let abs = resolve_abs_spec(path, cwd);
    let (pk, name) = parent_of(abs);
    let ck = pk.push(name);
    if remove_spec(s, path, cwd).0 {
        lemma_assoc_without_key(s.entries, ck);
        lemma_remove_key_tree(assoc(s.entries), ck);
    }
}

pub proof fn lemma_remove_all_tree(s: FsView, path: Seq<char>, cwd: Seq<char>)
    requires
        tree_shaped(s),
    ensures
        tree_shaped(remove_all_spec(s, path, cwd).1),
{
    let abs = resolve_abs_spec(path, cwd);
    let (pk, name) = parent_of(abs);
    let ck = pk.push(name);
    if remove_all_spec(s, path, cwd).0 {
        lemma_outside_tree(s.entries, ck);
    }
}

pub proof fn lemma_copy_tree(s: FsView, lim: FsLimits, src: Seq<char>, dst: Seq<char>, cwd: Seq<char>)
    requires
        tree_shaped(s),
    ensures
        tree_shaped(copy_spec(s, lim, src, dst, cwd).1),
{
    let src_abs = resolve_abs_spec(src, cwd);
    match crate::fs::read_spec(s, src_abs, seq!['/']) {
        Some(content) => {
            let dst_abs = resolve_abs_spec(dst, cwd);
            let target = if node_at(s.entries, key_of(resolve_abs_spec(dst_abs, seq!['/']))) == Some(
                NodeView::Dir,
            ) {
                crate::fs::child_path(dst_abs, crate::paths::base_name(src_abs))
            } else {
                dst_abs
            };
            lemma_write_tree(s, lim, target, seq!['/'], content);
        },
        None => {},
    }
}

/// Entries appended after a list that has key `k` do not change it.
pub proof fn lemma_assoc_append_present<V>(a: Seq<(Seq<Seq<char>>, V)>, b: Seq<(Seq<Seq<char>>, V)>, k: Seq<Seq<char>>)
    requires
        assoc(a).contains_key(k),
    ensures
        assoc(a + b).contains_key(k),
        assoc(a + b)[k] == assoc(a)[k],
    decreases b.len(),
{
    if b.len() == 0 {
        assert(a + b =~= a);
    } else {
        let b0 = b.drop_last();
        lemma_assoc_append_present(a, b0, k);
        assert((a + b).drop_last() =~= a + b0);
        assert((a + b).last() == b.last());
    }
}

/// What `under` keeps: the keys at or below `c`, with their values.
pub proof fn lemma_assoc_under(es: Seq<(Seq<Seq<char>>, NodeView)>, c: Seq<Seq<char>>)
    ensures
        forall|k: Seq<Seq<char>>|
            #[trigger] assoc(under(es, c)).contains_key(k) == (assoc(es).contains_key(k) && has_key_prefix(k, c)),
        forall|k: Seq<Seq<char>>|
            #[trigger] assoc(under(es, c)).contains_key(k) ==> assoc(under(es, c))[k] == assoc(es)[k],
        forall|i: int| 0 <= i < under(es, c).len() ==> has_key_prefix(#[trigger] under(es, c)[i].0, c),
{
    let fu = |k: Seq<Seq<char>>| has_key_prefix(k, c);
    assert(under(es, c) == keep_keys(es, fu));
    lemma_assoc_keep_keys(es, fu);
    lemma_keep_keys_all(es, fu);
}

/// What the moved entries hold at a key below their new place: what was
/// stored at the same place below their old one.
proof fn lemma_rebased(es: Seq<(Seq<Seq<char>>, NodeView)>, sk: Seq<Seq<char>>, dk: Seq<Seq<char>>, kk: Seq<Seq<char>>)
    ensures
        !has_key_prefix(kk, dk) ==> !assoc(rebase(under(es, sk), sk.len(), dk)).contains_key(kk),
        has_key_prefix(kk, dk) ==> assoc(rebase(under(es, sk), sk.len(), dk)).contains_key(kk) == assoc(
            es,
        ).contains_key(sk + kk.skip(dk.len() as int)),
        has_key_prefix(kk, dk) && assoc(es).contains_key(sk + kk.skip(dk.len() as int)) ==> assoc(
            rebase(under(es, sk), sk.len(), dk),
        )[kk] == assoc(es)[sk + kk.skip(dk.len() as int)],
{
    let mv = under(es, sk);
    let rb = rebase(mv, sk.len(), dk);
    lemma_assoc_under(es, sk);
    if !has_key_prefix(kk, dk) {
        assert forall|i: int| 0 <= i < rb.len() implies (#[trigger] rb[i]).0 != kk by {
            assert(rb[i].0.take(dk.len() as int) =~= dk);
        }
        crate::assoc::lemma_assoc_absent(rb, kk);
    } else {
        let u = kk.skip(dk.len() as int);
        let x = sk + u;
        assert(kk =~= dk + u) by {
            assert(kk.take(dk.len() as int) == dk);
        }
        assert forall|i: int| 0 <= i < mv.len() implies (#[trigger] rb[i]).1 == mv[i].1 && (rb[i].0 == kk
            <==> mv[i].0 == x) by {
            let y = mv[i].0;
            assert(has_key_prefix(y, sk));
            assert(y =~= sk + y.skip(sk.len() as int)) by {
                assert(y.take(sk.len() as int) == sk);
            }
            assert(rb[i].0 == dk + y.skip(sk.len() as int));
            if rb[i].0 == kk {
                assert(y.skip(sk.len() as int) =~= (dk + y.skip(sk.len() as int)).skip(dk.len() as int));
                assert(y.skip(sk.len() as int) =~= u);
            }
            if y == x {
                assert(y.skip(sk.len() as int) =~= u);
            }
        }
        crate::assoc::lemma_assoc_rekey(mv, rb, x, kk);
        assert(has_key_prefix(x, sk)) by {
            assert(x.take(sk.len() as int) =~= sk);
        }
    }
}

pub proof fn lemma_move_tree(s: FsView, src: Seq<char>, dst: Seq<char>, cwd: Seq<char>)
    requires
        tree_shaped(s),
    ensures
        tree_shaped(move_spec(s, src, dst, cwd).1),
{
    let es = s.entries;
    let m = assoc(es);
    let src_abs = resolve_abs_spec(src, cwd);
    let (spk, sname) = parent_of(src_abs);
    let sk = spk.push(sname);
    if !(src_abs == seq!['/'] || node_at(es, spk) != Some(NodeView::Dir) || !m.contains_key(sk)) {
        lemma_move_tree_go(s, src, dst, cwd);
    }
}

proof fn lemma_move_tree_go(s: FsView, src: Seq<char>, dst: Seq<char>, cwd: Seq<char>)
    requires
        tree_shaped(s),
        ({
            let src_abs = resolve_abs_spec(src, cwd);
            let sk = parent_of(src_abs).0.push(parent_of(src_abs).1);
            !(src_abs == seq!['/'] || node_at(s.entries, parent_of(src_abs).0) != Some(NodeView::Dir)
                || !assoc(s.entries).contains_key(sk))
        }),
    ensures
        tree_shaped(move_spec(s, src, dst, cwd).1),
{
    let es = s.entries;
    let src_abs = resolve_abs_spec(src, cwd);
    let (spk, sname) = parent_of(src_abs);
    let sk = spk.push(sname);
    let es1 = outside(es, sk);
    lemma_outside_tree(es, sk);
    lemma_assoc_outside(es, sk);
    let dst_abs = resolve_abs_spec(dst, cwd);
    let final_dst = if node_at(es1, key_of(resolve_abs_spec(dst_abs, seq!['/']))) == Some(NodeView::Dir) {
        crate::fs::child_path(dst_abs, sname)
    } else {
        dst_abs
    };
    let dpk = parent_of(final_dst).0;
    if node_at(es1, dpk) == Some(NodeView::Dir) {
        lemma_move_tree_land(s, src, dst, cwd);
    }
}

proof fn lemma_move_tree_land(s: FsView, src: Seq<char>, dst: Seq<char>, cwd: Seq<char>)
    requires
        tree_shaped(s),
        ({
            let src_abs = resolve_abs_spec(src, cwd);
            let sk = parent_of(src_abs).0.push(parent_of(src_abs).1);
            let es1 = outside(s.entries, sk);
            let dst_abs = resolve_abs_spec(dst, cwd);
            let final_dst = if node_at(es1, key_of(resolve_abs_spec(dst_abs, seq!['/']))) == Some(NodeView::Dir) {
                crate::fs::child_path(dst_abs, parent_of(src_abs).1)
            } else {
                dst_abs
            };
            &&& !(src_abs == seq!['/'] || node_at(s.entries, parent_of(src_abs).0) != Some(NodeView::Dir)
                || !assoc(s.entries).contains_key(sk))
            &&& node_at(es1, parent_of(final_dst).0) == Some(NodeView::Dir)
        }),
    ensures
        tree_shaped(move_spec(s, src, dst, cwd).1),
{
    let es = s.entries;
    let m = assoc(es);
    let src_abs = resolve_abs_spec(src, cwd);
    let (spk, sname) = parent_of(src_abs);
    let sk = spk.push(sname);
    let moving = under(es, sk);
    let es1 = outside(es, sk);
    let m1 = assoc(es1);
    lemma_outside_tree(es, sk);
    lemma_assoc_outside(es, sk);
    let dst_abs = resolve_abs_spec(dst, cwd);
    let final_dst = if node_at(es1, key_of(resolve_abs_spec(dst_abs, seq!['/']))) == Some(NodeView::Dir) {
        crate::fs::child_path(dst_abs, sname)
    } else {
        dst_abs
    };
    let (dpk, dname) = parent_of(final_dst);
    let dk = dpk.push(dname);
    let es2 = if m1.contains_key(dk) {
        outside(es1, dk)
    } else {
        es1
    };
    let m2 = assoc(es2);
    lemma_assoc_outside(es1, dk);
    if m1.contains_key(dk) {
        lemma_outside_tree(es1, dk);
    }
    assert(dirs_above(m2));
    // m2 agrees with m1, and holds nothing at or below `dk`.
    assert forall|q: Seq<Seq<char>>| m2.contains_key(q) implies m1.contains_key(q) && m2[q] == m1[q]
        && !has_key_prefix(q, dk) by {
        if !m1.contains_key(dk) {
            if has_key_prefix(q, dk) {
                if q == dk {
                } else {
                    lemma_nothing_below(m1, dk, q);
                }
            }
        }
    }
    // What m1 holds outside `dk`, m2 holds too.
    assert forall|q: Seq<Seq<char>>| m1.contains_key(q) && !has_key_prefix(q, dk) implies #[trigger] m2.contains_key(q) by {}
    let rb = rebase(moving, sk.len(), dk);
    let mm = assoc(es2 + rb);
    assert(m.contains_key(sk) && has_key_prefix(sk, sk)) by {
        assert(sk.take(sk.len() as int) =~= sk);
    }
    assert forall|k: Seq<Seq<char>>, j: int| mm.contains_key(k) && 0 < j < k.len() implies mm.contains_key(
        k.take(j),
    ) && mm[k.take(j)] == NodeView::Dir by {
        let p = k.take(j);
        if m2.contains_key(k) {
            assert(m2.contains_key(p) && m2[p] == NodeView::Dir);
            lemma_assoc_append_present(es2, rb, p);
        } else {
            lemma_assoc_contains(es2, k);
            crate::assoc::lemma_assoc_append_absent(es2, rb, k);
            lemma_rebased(es, sk, dk, k);
            assert(has_key_prefix(k, dk));
            let u = k.skip(dk.len() as int);
            assert(m.contains_key(sk + u));
            if j < dk.len() {
                assert(p =~= dk.take(j)) by {
                    assert(k.take(dk.len() as int) == dk);
                    assert(k.take(j) =~= k.take(dk.len() as int).take(j));
                }
                assert(j <= dpk.len());
                if j == dpk.len() {
                    assert(p =~= dpk);
                    assert(m1.contains_key(dpk) && m1[dpk] == NodeView::Dir);
                } else {
                    assert(p =~= dpk.take(j));
                    assert(m1.contains_key(dpk));
                    assert(m1.contains_key(dpk.take(j)) && m1[dpk.take(j)] == NodeView::Dir);
                }
                assert(!has_key_prefix(p, dk));
                assert(m2.contains_key(p));
                lemma_assoc_append_present(es2, rb, p);
            } else if j == dk.len() {
                assert(p =~= dk) by {
                    assert(k.take(dk.len() as int) == dk);
                }
                assert(!m2.contains_key(dk)) by {
                    assert(dk.take(dk.len() as int) =~= dk);
                }
                lemma_assoc_contains(es2, dk);
                crate::assoc::lemma_assoc_append_absent(es2, rb, dk);
                lemma_rebased(es, sk, dk, dk);
                assert(has_key_prefix(dk, dk)) by {
                    assert(dk.take(dk.len() as int) =~= dk);
                }
                assert(dk.skip(dk.len() as int) =~= Seq::<Seq<char>>::empty());
                assert(sk + dk.skip(dk.len() as int) =~= sk);
                // `sk` holds more below it, so it is a directory.
                let x = sk + u;
                assert(u.len() > 0);
                assert(x.take(sk.len() as int) =~= sk);
                assert(m.contains_key(x.take(sk.len() as int)) && m[x.take(sk.len() as int)] == NodeView::Dir);
            } else {
                let v = p.skip(dk.len() as int);
                assert(has_key_prefix(p, dk)) by {
                    assert(p.take(dk.len() as int) =~= k.take(dk.len() as int));
                }
                assert(!m2.contains_key(p));
                lemma_assoc_contains(es2, p);
                crate::assoc::lemma_assoc_append_absent(es2, rb, p);
                lemma_rebased(es, sk, dk, p);
                let x = sk + u;
                let jj = sk.len() + (j - dk.len());
                assert(sk + v =~= x.take(jj)) by {
                    assert(v =~= u.take(j - dk.len()));
                }
                assert(m.contains_key(x.take(jj)) && m[x.take(jj)] == NodeView::Dir);
            }
        }
    }
}

} // verus!
