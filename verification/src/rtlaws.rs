//! What the read-through layer promises across operations: reads that the
//! layer knows nothing about fall through to the disk, and what was
//! written, made or removed in the layer is what later reads see, whatever
//! the disk shows by then.
use crate::assoc::{find_first, lemma_find_first};
use crate::paths::resolve_abs_spec;
use crate::readthrough::{
    add_child, add_deleted, ensure_spec, fact_at, hidden_above, landing, lookup, populate, populate_all,
    put, rt_copy, rt_exists, rt_is_dir, rt_mkdir, rt_read, rt_remove, rt_remove_all, rt_write, FactView,
    RtView,
};
use vstd::prelude::*;

verus! {

/// What `find_first` finds: the first entry with the key, or none at all.
proof fn lemma_find_first_spec<K, V>(s: Seq<(K, V)>, k: K)
    ensures
        match find_first(s, k) {
            Some(i) => 0 <= i < s.len() && s[i].0 == k && forall|j: int| 0 <= j < i ==> (#[trigger] s[j]).0 != k,
            None => forall|j: int| 0 <= j < s.len() ==> (#[trigger] s[j]).0 != k,
        },
    decreases s.len(),
{
    if s.len() > 0 {
        let t = s.drop_last();
        lemma_find_first_spec(t, k);
        assert forall|j: int| 0 <= j < t.len() implies t[j] == s[j] by {}
        assert(s.last() == s[s.len() - 1]);
    }
}

/// A key that was just set gives the value it was set to.
proof fn lemma_lookup_put<V>(s: Seq<(Seq<char>, V)>, k: Seq<char>, v: V)
    ensures
        lookup(put(s, k, v), k) == Some(v),
{
    lemma_find_first_spec(s, k);
    let u = put(s, k, v);
    match find_first(s, k) {
        Some(i) => {
            assert forall|j: int| 0 <= j < i implies (#[trigger] u[j]).0 != k by {
                assert(u[j] == s[j]);
            }
            lemma_find_first(u, k, i);
        },
        None => {
            assert forall|j: int| 0 <= j < s.len() implies (#[trigger] u[j]).0 != k by {
                assert(u[j] == s[j]);
            }
            lemma_find_first(u, k, s.len() as int);
        },
    }
}

/// Two lists with the same keys in the same places find every key at the
/// same place.
proof fn lemma_find_first_same_keys<V>(a: Seq<(Seq<char>, V)>, b: Seq<(Seq<char>, V)>, k: Seq<char>)
    requires
        a.len() == b.len(),
        forall|i: int| 0 <= i < a.len() ==> (#[trigger] a[i]).0 == b[i].0,
    ensures
        find_first(a, k) == find_first(b, k),
    decreases a.len(),
{
    if a.len() > 0 {
        let (ta, tb) = (a.drop_last(), b.drop_last());
        assert forall|i: int| 0 <= i < ta.len() implies (#[trigger] ta[i]).0 == tb[i].0 by {
            assert(ta[i] == a[i] && tb[i] == b[i]);
        }
        lemma_find_first_same_keys(ta, tb, k);
        assert(a.last().0 == b.last().0) by {
            assert(a.last() == a[a.len() - 1] && b.last() == b[b.len() - 1]);
        }
    }
}

/// Adding a child name keeps every directory of the layer known.
proof fn lemma_add_child_keeps(dirs: Seq<(Seq<char>, Seq<Seq<char>>)>, p: Seq<char>, name: Seq<char>, k: Seq<char>)
    ensures
        (lookup(add_child(dirs, p, name), k) is Some) == (lookup(dirs, k) is Some),
{
    let d2 = add_child(dirs, p, name);
    lemma_find_first_spec(dirs, p);
    assert(d2.len() == dirs.len());
    assert forall|i: int| 0 <= i < d2.len() implies (#[trigger] d2[i]).0 == dirs[i].0 by {}
    lemma_find_first_same_keys(d2, dirs, k);
}

/// Loading a directory from disk changes only the directories the layer
/// knows: its files and deleted paths stay.
proof fn lemma_populate_keeps(st: RtView, fs: Seq<FactView>, p: Seq<char>)
    ensures
        populate(st, fs, p).files == st.files,
        populate(st, fs, p).deleted == st.deleted,
        lookup(st.dirs, p) is Some ==> populate(st, fs, p) == st,
{
}

proof fn lemma_populate_all_keeps(st: RtView, fs: Seq<FactView>, ps: Seq<Seq<char>>)
    ensures
        populate_all(st, fs, ps).files == st.files,
        populate_all(st, fs, ps).deleted == st.deleted,
    decreases ps.len(),
{
    if ps.len() > 0 {
        lemma_populate_all_keeps(st, fs, ps.drop_last());
        lemma_populate_keeps(populate_all(st, fs, ps.drop_last()), fs, ps.last());
    }
}

/// Loading the way to a path keeps the layer's files and deleted paths.
proof fn lemma_ensure_keeps(st: RtView, fs: Seq<FactView>, p: Seq<char>)
    ensures
        ensure_spec(st, fs, p).files == st.files,
        ensure_spec(st, fs, p).deleted == st.deleted,
{
    if !(p == seq!['/'] || p.len() == 0) {
        lemma_populate_all_keeps(st, fs, crate::readthrough::prefix_parents(p));
    }
}

/// A write keeps the deleted paths, and stores the data under the path.
proof fn lemma_write_stores(st: RtView, fs: Seq<FactView>, path: Seq<char>, cwd: Seq<char>, data: Seq<u8>)
    requires
        rt_write(st, fs, path, cwd, data).0,
    ensures
        rt_write(st, fs, path, cwd, data).1.deleted == st.deleted,
        lookup(rt_write(st, fs, path, cwd, data).1.files, resolve_abs_spec(path, cwd)) == Some(data),
{
    let abs = resolve_abs_spec(path, cwd);
    if lookup(st.files, abs) is Some {
        lemma_lookup_put(st.files, abs, data);
    } else {
        let (pp, name) = crate::paths::split_path_spec(abs);
        let s1 = ensure_spec(st, fs, pp);
        lemma_ensure_keeps(st, fs, pp);
        let w = RtView { files: put(s1.files, abs, data), ..s1 };
        lemma_populate_keeps(w, fs, pp);
        lemma_lookup_put(s1.files, abs, data);
    }
}

/// Reads that the layer knows nothing about fall through to the disk: a
/// path the layer holds no file or directory for, and does not hide, reads
/// as what the disk holds there.
pub proof fn law_rt_read_falls_through(st: RtView, fs: Seq<FactView>, abs: Seq<char>)
    requires
        lookup(st.files, abs) is None,
        lookup(st.dirs, abs) is None,
        !hidden_above(st, abs),
        !st.deleted.contains(abs),
    ensures
        rt_read(st, fs, abs) == (if fact_at(fs, abs).inside {
            fact_at(fs, abs).content
        } else {
            None
        }),
        rt_exists(st, fs, abs) == fact_at(fs, abs).inside,
{
}

/// Writes stay in the layer: after a write that went through, the path
/// reads back the data written, whatever the disk shows by then (unless the
/// path or a directory above it had been removed before).
pub proof fn law_rt_write_then_read(
    st: RtView,
    fs: Seq<FactView>,
    path: Seq<char>,
    cwd: Seq<char>,
    data: Seq<u8>,
    later: Seq<FactView>,
)
    requires
        rt_write(st, fs, path, cwd, data).0,
        !hidden_above(st, resolve_abs_spec(path, cwd)),
        !st.deleted.contains(resolve_abs_spec(path, cwd)),
    ensures
        rt_read(rt_write(st, fs, path, cwd, data).1, later, resolve_abs_spec(path, cwd)) == Some(data),
        rt_exists(rt_write(st, fs, path, cwd, data).1, later, resolve_abs_spec(path, cwd)),
{
    lemma_write_stores(st, fs, path, cwd, data);
}

/// A directory made in the layer is a directory afterwards, whatever the
/// disk shows by then (unless it or a directory above it had been removed
/// before).
pub proof fn law_rt_mkdir_then_is_dir(st: RtView, fs: Seq<FactView>, path: Seq<char>, cwd: Seq<char>, later: Seq<FactView>)
    requires
        rt_mkdir(st, fs, path, cwd).0,
        !hidden_above(st, resolve_abs_spec(path, cwd)),
        !st.deleted.contains(resolve_abs_spec(path, cwd)),
    ensures
        rt_is_dir(rt_mkdir(st, fs, path, cwd).1, later, resolve_abs_spec(path, cwd)),
        rt_exists(rt_mkdir(st, fs, path, cwd).1, later, resolve_abs_spec(path, cwd)),
{
    let abs = resolve_abs_spec(path, cwd);
    let (pp, name) = crate::paths::split_path_spec(abs);
    let s1 = ensure_spec(st, fs, pp);
    lemma_ensure_keeps(st, fs, pp);
    let s2 = if crate::readthrough::is_layer_dir(s1, pp) {
        s1
    } else {
        populate(s1, fs, pp)
    };
    lemma_populate_keeps(s1, fs, pp);
    let d = put(s2.dirs, abs, seq![]);
    lemma_lookup_put(s2.dirs, abs, seq![]);
    lemma_add_child_keeps(d, pp, name, abs);
}

/// A removed file is gone from the layer's view, whatever the disk shows
/// by then.
pub proof fn law_rt_remove_then_gone(st: RtView, fs: Seq<FactView>, path: Seq<char>, cwd: Seq<char>, later: Seq<FactView>)
    requires
        rt_remove(st, fs, path, cwd).0,
    ensures
        rt_read(rt_remove(st, fs, path, cwd).1, later, resolve_abs_spec(path, cwd)) is None,
        !rt_exists(rt_remove(st, fs, path, cwd).1, later, resolve_abs_spec(path, cwd)),
{
    let abs = resolve_abs_spec(path, cwd);
    let d = rt_remove(st, fs, path, cwd).1.deleted;
    assert(d == add_deleted(st.deleted, abs));
    if !st.deleted.contains(abs) {
        assert(st.deleted.push(abs)[st.deleted.len() as int] == abs);
    }
}

/// A node removed with everything below it is gone from the layer's view,
/// whatever the disk shows by then.
pub proof fn law_rt_remove_all_then_gone(
    st: RtView,
    fs: Seq<FactView>,
    path: Seq<char>,
    cwd: Seq<char>,
    later: Seq<FactView>,
)
    requires
        rt_remove_all(st, fs, path, cwd).0,
    ensures
        rt_read(rt_remove_all(st, fs, path, cwd).1, later, resolve_abs_spec(path, cwd)) is None,
        !rt_exists(rt_remove_all(st, fs, path, cwd).1, later, resolve_abs_spec(path, cwd)),
        !rt_is_dir(rt_remove_all(st, fs, path, cwd).1, later, resolve_abs_spec(path, cwd)),
{
    let abs = resolve_abs_spec(path, cwd);
    let d = rt_remove_all(st, fs, path, cwd).1.deleted;
    let d1 = if fact_at(fs, abs).inside && fact_at(fs, abs).listing is Some {
        crate::readthrough::delete_listed(st.deleted, abs, fact_at(fs, abs).listing.unwrap())
    } else {
        st.deleted
    };
    assert(d == add_deleted(d1, abs));
    if !d1.contains(abs) {
        assert(d1.push(abs)[d1.len() as int] == abs);
    }
}

/// A copy that went through: where it landed reads as the source read
/// before, whatever the disk shows by then (unless that place or a
/// directory above it had been removed before).
pub proof fn law_rt_copy_then_read(
    st: RtView,
    fs: Seq<FactView>,
    src: Seq<char>,
    dst: Seq<char>,
    cwd: Seq<char>,
    later: Seq<FactView>,
)
    requires
        rt_copy(st, fs, src, dst, cwd).0,
        ({
            let at = resolve_abs_spec(
                landing(st, fs, resolve_abs_spec(src, cwd), resolve_abs_spec(dst, cwd)),
                seq!['/'],
            );
            !hidden_above(st, at) && !st.deleted.contains(at)
        }),
    ensures
        ({
            let at = resolve_abs_spec(
                landing(st, fs, resolve_abs_spec(src, cwd), resolve_abs_spec(dst, cwd)),
                seq!['/'],
            );
            rt_read(rt_copy(st, fs, src, dst, cwd).1, later, at) == rt_read(st, fs, resolve_abs_spec(src, cwd))
        }),
{
    let src_abs = resolve_abs_spec(src, cwd);
    let content = rt_read(st, fs, src_abs).unwrap();
    let to = landing(st, fs, src_abs, resolve_abs_spec(dst, cwd));
    law_rt_write_then_read(st, fs, to, seq!['/'], content, later);
}

} // verus!
