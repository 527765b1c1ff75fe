//! Listing a directory of the read-through file system: what its in-memory
//! layer holds merged with what the disk shows below the same path. The
//! caller reads the disk; this module decides what the listing is.
use crate::fs::{child_path, dir_entry_views, DirEntry};
use crate::parser::string_views;
use crate::paths::{ancestors, ancestors_spec};
use crate::text::{
    chars_eq, chars_of, clone_chars, less_than, lemma_lex_irreflexive, lemma_lex_total,
    lemma_lex_transitive, lex_lt, push_all, string_of,
};
use vstd::prelude::*;

verus! {

/// A listing kept sorted by name, each name once: `n` goes before the first
/// greater name; an entry of the same name is replaced when `replace`, and
/// kept otherwise.
pub open spec fn upsert(s: Seq<(Seq<char>, bool)>, n: Seq<char>, d: bool, replace: bool) -> Seq<
    (Seq<char>, bool),
>
    decreases s.len(),
{
    if s.len() == 0 {
        seq![(n, d)]
    } else if lex_lt(n, s[0].0) {
        seq![(n, d)] + s
    } else if s[0].0 == n {
        if replace {
            seq![(n, d)] + s.drop_first()
        } else {
            s
        }
    } else {
        seq![s[0]] + upsert(s.drop_first(), n, d, replace)
    }
}

/// The in-memory layer's entries of a directory: every name whose path is
/// not deleted, with whether that path is a directory of the layer.
pub open spec fn overlay_fold(
    abs: Seq<char>,
    names: Seq<Seq<char>>,
    deleted: Seq<Seq<char>>,
    dirs: Seq<Seq<char>>,
) -> Seq<(Seq<char>, bool)>
    decreases names.len(),
{
    if names.len() == 0 {
        seq![]
    } else {
        let acc = overlay_fold(abs, names.drop_last(), deleted, dirs);
        let n = names.last();
        let c = child_path(abs, n);
        if deleted.contains(c) {
            acc
        } else {
            upsert(acc, n, dirs.contains(c), true)
        }
    }
}

/// A name that `ls` hides unless asked.
pub open spec fn dot_name(n: Seq<char>) -> bool {
    n.len() > 0 && n[0] == '.'
}

/// The disk's entries added to a listing: hidden names (unless shown) and
/// deleted paths are skipped, and a name already listed keeps its entry.
pub open spec fn disk_fold(
    start: Seq<(Seq<char>, bool)>,
    abs: Seq<char>,
    disk: Seq<(Seq<char>, bool)>,
    deleted: Seq<Seq<char>>,
    show_hidden: bool,
) -> Seq<(Seq<char>, bool)>
    decreases disk.len(),
{
    if disk.len() == 0 {
        start
    } else {
        let acc = disk_fold(start, abs, disk.drop_last(), deleted, show_hidden);
        let (n, d) = disk.last();
        if (!show_hidden && dot_name(n)) || deleted.contains(child_path(abs, n)) {
            acc
        } else {
            upsert(acc, n, d, false)
        }
    }
}

/// The listing of `abs`: none when the path or a directory above it is
/// deleted, when it is a file of the layer, when it does not resolve inside
/// the disk root (`real_ok`), or when nothing lists it as a directory;
/// otherwise the merged entries, sorted by name.
pub open spec fn listing_spec(
    abs: Seq<char>,
    deleted: Seq<Seq<char>>,
    files: Seq<Seq<char>>,
    dirs: Seq<Seq<char>>,
    children: Option<Seq<Seq<char>>>,
    real_ok: bool,
    disk: Option<Seq<(Seq<char>, bool)>>,
    disk_is_dir: bool,
    show_hidden: bool,
) -> Option<Seq<(Seq<char>, bool)>> {
    if exists|i: int| 0 <= i < ancestors_spec(abs).len() && deleted.contains(
        #[trigger] ancestors_spec(abs)[i],
    ) {
        None
    } else if deleted.contains(abs) || files.contains(abs) {
        None
    } else {
        let m1 = match children {
            Some(c) => overlay_fold(abs, c, deleted, dirs),
            None => seq![],
        };
        if !real_ok {
            None
        } else {
            let m2 = match disk {
                Some(d) => disk_fold(m1, abs, d, deleted, show_hidden),
                None => m1,
            };
            if m2.len() == 0 && !dirs.contains(abs) && !disk_is_dir {
                None
            } else {
                Some(m2)
            }
        }
    }
}

pub open spec fn pair_views(v: Seq<(Vec<char>, bool)>) -> Seq<(Seq<char>, bool)> {
    Seq::new(v.len(), |i: int| (v[i].0@, v[i].1))
}

pub open spec fn named_views(v: Seq<(String, bool)>) -> Seq<(Seq<char>, bool)> {
    Seq::new(v.len(), |i: int| (v[i].0@, v[i].1))
}

proof fn lemma_upsert_at(s: Seq<(Seq<char>, bool)>, n: Seq<char>, d: bool, replace: bool, j: int)
    requires
        0 <= j <= s.len(),
        forall|k: int| 0 <= k < j ==> lex_lt((#[trigger] s[k]).0, n),
        j < s.len() ==> !lex_lt(s[j].0, n),
    ensures
        upsert(s, n, d, replace) == (if j < s.len() && s[j].0 == n {
            if replace {
                s.update(j, (n, d))
            } else {
                s
            }
        } else {
            s.insert(j, (n, d))
        }),
    decreases j,
{
    if s.len() == 0 {
        assert(s.insert(j, (n, d)) =~= seq![(n, d)]);
    } else if j == 0 {
        if s[0].0 == n {
            lemma_lex_irreflexive(n);
            assert(s.update(0, (n, d)) =~= seq![(n, d)] + s.drop_first());
        } else {
            lemma_lex_total(n, s[0].0);
            assert(s.insert(0, (n, d)) =~= seq![(n, d)] + s);
        }
    } else {
        assert(lex_lt(s[0].0, n));
        lemma_lex_irreflexive(n);
        if lex_lt(n, s[0].0) {
            lemma_lex_transitive(n, s[0].0, n);
        }
        let t = s.drop_first();
        assert forall|k: int| 0 <= k < j - 1 implies lex_lt((#[trigger] t[k]).0, n) by {
            assert(t[k] == s[k + 1]);
        }
        if j - 1 < t.len() {
            assert(t[j - 1] == s[j]);
        }
        lemma_upsert_at(t, n, d, replace, j - 1);
        if j < s.len() && s[j].0 == n {
            if replace {
                assert(s.update(j, (n, d)) =~= seq![s[0]] + t.update(j - 1, (n, d)));
            } else {
                assert(s =~= seq![s[0]] + t);
            }
        } else {
            assert(s.insert(j, (n, d)) =~= seq![s[0]] + t.insert(j - 1, (n, d)));
        }
    }
}

/// Names strictly increasing: sorted, each name once.
pub open spec fn strictly_sorted(s: Seq<(Seq<char>, bool)>) -> bool {
    forall|i: int, j: int| 0 <= i < j < s.len() ==> lex_lt((#[trigger] s[i]).0, (#[trigger] s[j]).0)
}

spec fn upsert_pos(s: Seq<(Seq<char>, bool)>, n: Seq<char>) -> int
    decreases s.len(),
{
    if s.len() == 0 || !lex_lt(s[0].0, n) {
        0
    } else {
        1 + upsert_pos(s.drop_first(), n)
    }
}

proof fn lemma_upsert_pos(s: Seq<(Seq<char>, bool)>, n: Seq<char>)
    ensures
        0 <= upsert_pos(s, n) <= s.len(),
        forall|k: int| 0 <= k < upsert_pos(s, n) ==> lex_lt((#[trigger] s[k]).0, n),
        upsert_pos(s, n) < s.len() ==> !lex_lt(s[upsert_pos(s, n)].0, n),
    decreases s.len(),
{
    if s.len() > 0 && lex_lt(s[0].0, n) {
        let t = s.drop_first();
        lemma_upsert_pos(t, n);
        assert forall|k: int| 0 <= k < upsert_pos(s, n) implies lex_lt((#[trigger] s[k]).0, n) by {
            if k > 0 {
                assert(s[k] == t[k - 1]);
            }
        }
        if upsert_pos(s, n) < s.len() {
            assert(s[upsert_pos(s, n)] == t[upsert_pos(t, n)]);
        }
    }
}

proof fn lemma_upsert_sorted(s: Seq<(Seq<char>, bool)>, n: Seq<char>, d: bool, replace: bool)
    requires
        strictly_sorted(s),
    ensures
        strictly_sorted(upsert(s, n, d, replace)),
{
    lemma_upsert_pos(s, n);
    let j = upsert_pos(s, n);
    lemma_upsert_at(s, n, d, replace, j);
    if j < s.len() && s[j].0 == n {
        if replace {
            let u = s.update(j, (n, d));
            assert forall|a: int, b: int| 0 <= a < b < u.len() implies lex_lt(
                (#[trigger] u[a]).0,
                (#[trigger] u[b]).0,
            ) by {
                assert(u[a].0 == s[a].0);
                assert(u[b].0 == s[b].0);
            }
        }
    } else {
        if j < s.len() {
            lemma_lex_total(n, s[j].0);
        }
        let u = s.insert(j, (n, d));
        assert forall|a: int, b: int| 0 <= a < b < u.len() implies lex_lt(
            (#[trigger] u[a]).0,
            (#[trigger] u[b]).0,
        ) by {
            if b < j {
                assert(u[a] == s[a] && u[b] == s[b]);
            } else if b == j {
                assert(u[a] == s[a]);
            } else if a == j {
                assert(u[b] == s[b - 1]);
                if b - 1 > j {
                    lemma_lex_transitive(n, s[j].0, s[b - 1].0);
                }
            } else if a < j {
                assert(u[a] == s[a] && u[b] == s[b - 1]);
                if a == b - 1 {
                } else {
                    assert(a < b - 1);
                }
            } else {
                assert(u[a] == s[a - 1] && u[b] == s[b - 1]);
            }
        }
    }
}

proof fn lemma_overlay_sorted(abs: Seq<char>, names: Seq<Seq<char>>, deleted: Seq<Seq<char>>, dirs: Seq<Seq<char>>)
    ensures
        strictly_sorted(overlay_fold(abs, names, deleted, dirs)),
    decreases names.len(),
{
    if names.len() > 0 {
        lemma_overlay_sorted(abs, names.drop_last(), deleted, dirs);
        let acc = overlay_fold(abs, names.drop_last(), deleted, dirs);
        let c = child_path(abs, names.last());
        lemma_upsert_sorted(acc, names.last(), dirs.contains(c), true);
    }
}

proof fn lemma_disk_sorted(
    start: Seq<(Seq<char>, bool)>,
    abs: Seq<char>,
    disk: Seq<(Seq<char>, bool)>,
    deleted: Seq<Seq<char>>,
    show_hidden: bool,
)
    requires
        strictly_sorted(start),
    ensures
        strictly_sorted(disk_fold(start, abs, disk, deleted, show_hidden)),
    decreases disk.len(),
{
    if disk.len() > 0 {
        lemma_disk_sorted(start, abs, disk.drop_last(), deleted, show_hidden);
        let acc = disk_fold(start, abs, disk.drop_last(), deleted, show_hidden);
        lemma_upsert_sorted(acc, disk.last().0, disk.last().1, false);
    }
}

/// A listing of the read-through file system is sorted by name, and lists
/// each name once.
pub proof fn law_listing_sorted(
    abs: Seq<char>,
    deleted: Seq<Seq<char>>,
    files: Seq<Seq<char>>,
    dirs: Seq<Seq<char>>,
    children: Option<Seq<Seq<char>>>,
    real_ok: bool,
    disk: Option<Seq<(Seq<char>, bool)>>,
    disk_is_dir: bool,
    show_hidden: bool,
)
    ensures
        listing_spec(abs, deleted, files, dirs, children, real_ok, disk, disk_is_dir, show_hidden) matches Some(l)
            ==> strictly_sorted(l),
{
    let m1 = match children {
        Some(c) => overlay_fold(abs, c, deleted, dirs),
        None => seq![],
    };
    match children {
        Some(c) => lemma_overlay_sorted(abs, c, deleted, dirs),
        None => {},
    }
    match disk {
        Some(d) => lemma_disk_sorted(m1, abs, d, deleted, show_hidden),
        None => {},
    }
}

fn upsert_exec(v: &mut Vec<(Vec<char>, bool)>, n: &[char], d: bool, replace: bool)
    ensures
        pair_views(final(v)@) == upsert(pair_views(old(v)@), n@, d, replace),
{
    let ghost s = pair_views(v@);
    let mut j: usize = 0;
    while j < v.len() && less_than(v[j].0.as_slice(), n)
        invariant
            j <= v@.len(),
            s == pair_views(v@),
            forall|k: int| 0 <= k < j ==> lex_lt((#[trigger] s[k]).0, n@),
        decreases v@.len() - j,
    {
        j = j + 1;
    }
    proof {
        lemma_upsert_at(s, n@, d, replace, j as int);
    }
    if j < v.len() && chars_eq(v[j].0.as_slice(), n) {
        if replace {
            v.set(j, (clone_chars(n), d));
            assert(pair_views(v@) =~= s.update(j as int, (n@, d)));
        }
    } else {
        v.insert(j, (clone_chars(n), d));
        assert(pair_views(v@) =~= s.insert(j as int, (n@, d)));
    }
}

/// Whether a list of paths holds `p`.
fn holds(v: &Vec<String>, p: &[char]) -> (r: bool)
    ensures
        r == string_views(v@).contains(p@),
{
    let mut i: usize = 0;
    while i < v.len()
        invariant
            i <= v@.len(),
            forall|k: int| 0 <= k < i ==> string_views(v@)[k] != p@,
        decreases v@.len() - i,
    {
        let c = chars_of(v[i].as_str());
        if chars_eq(c.as_slice(), p) {
            assert(string_views(v@)[i as int] == p@);
            return true;
        }
        i = i + 1;
    }
    assert forall|k: int| 0 <= k < string_views(v@).len() implies string_views(v@)[k] != p@ by {}
    false
}

fn child_path_of(abs: &[char], name: &[char]) -> (r: Vec<char>)
    ensures
        r@ == child_path(abs@, name@),
{
    let mut r: Vec<char> = Vec::new();
    if !(abs.len() == 1 && abs[0] == '/') {
        push_all(&mut r, abs);
    }
    r.push('/');
    push_all(&mut r, name);
    assert(abs@.len() == 1 && abs@[0] == '/' ==> abs@ =~= seq!['/']);
    assert(r@ =~= child_path(abs@, name@));
    r
}

/// The listing of a directory of the read-through file system, from the
/// state of its in-memory layer (deleted paths, file paths, directory paths
/// and the entries of this directory) and from what the disk showed: whether
/// the path resolves inside the disk root, the directory's disk entries (if
/// it could be read) with whether each is a directory, and whether the path
/// is a directory on disk.
pub fn read_through_list(
    abs: &str,
    deleted: &Vec<String>,
    files: &Vec<String>,
    dirs: &Vec<String>,
    children: Option<&Vec<String>>,
    real_ok: bool,
    disk: Option<&Vec<(String, bool)>>,
    disk_is_dir: bool,
    show_hidden: bool,
) -> (r: Option<Vec<DirEntry>>)
    requires
        abs@.len() > 0,
        (abs@[0] as u32) < 0x80,
    ensures
        ({
            let spec = listing_spec(
                abs@,
                string_views(deleted@),
                string_views(files@),
                string_views(dirs@),
                match children {
                    Some(c) => Some(string_views(c@)),
                    None => None,
                },
                real_ok,
                match disk {
                    Some(d) => Some(named_views(d@)),
                    None => None,
                },
                disk_is_dir,
                show_hidden,
            );
            match r {
                None => spec is None,
                Some(v) => spec == Some(Seq::new(v@.len(), |i: int| (v@[i].name@, v@[i].is_dir)))
                    && forall|i: int| 0 <= i < v@.len() ==> (#[trigger] v@[i]).size == 0,
            }
        }),
{
    let a = chars_of(abs);
    let ghost dv = string_views(deleted@);
    let ghost fv = string_views(files@);
    let ghost rv = string_views(dirs@);
    let anc = ancestors(abs);
    let ghost av = ancestors_spec(abs@);
    let mut i: usize = 0;
    while i < anc.len()
        invariant
            i <= anc@.len(),
            string_views(anc@) == av,
            av == ancestors_spec(abs@),
            dv == string_views(deleted@),
            forall|k: int| 0 <= k < i ==> !dv.contains(#[trigger] av[k]),
        decreases anc@.len() - i,
    {
        let c = chars_of(anc[i].as_str());
        if holds(deleted, c.as_slice()) {
            assert(dv.contains(av[i as int]));
            assert(dv.contains(ancestors_spec(abs@)[i as int]));
            return None;
        }
        i = i + 1;
    }
    assert(!exists|k: int| 0 <= k < av.len() && dv.contains(#[trigger] av[k]));
    if holds(deleted, a.as_slice()) || holds(files, a.as_slice()) {
        return None;
    }
    let mut merged: Vec<(Vec<char>, bool)> = Vec::new();
    let ghost m1 = match children {
        Some(c) => overlay_fold(abs@, string_views(c@), dv, rv),
        None => seq![],
    };
    match children {
        Some(c) => {
            let ghost cv = string_views(c@);
            let mut k: usize = 0;
            assert(pair_views(merged@) =~= seq![]);
            assert(cv.take(0) =~= Seq::<Seq<char>>::empty());
            while k < c.len()
                invariant
                    k <= c@.len(),
                    cv == string_views(c@),
                    a@ == abs@,
                    dv == string_views(deleted@),
                    rv == string_views(dirs@),
                    pair_views(merged@) == overlay_fold(abs@, cv.take(k as int), dv, rv),
                decreases c@.len() - k,
            {
                let name = chars_of(c[k].as_str());
                let child = child_path_of(a.as_slice(), name.as_slice());
                assert(cv.take(k + 1).drop_last() =~= cv.take(k as int));
                assert(cv.take(k + 1).last() == name@);
                if !holds(deleted, child.as_slice()) {
                    let is_dir = holds(dirs, child.as_slice());
                    upsert_exec(&mut merged, name.as_slice(), is_dir, true);
                }
                k = k + 1;
            }
            assert(cv.take(c@.len() as int) =~= cv);
        },
        None => {
            assert(pair_views(merged@) =~= seq![]);
        },
    }
    assert(pair_views(merged@) == m1);
    if !real_ok {
        return None;
    }
    match disk {
        Some(dl) => {
            let ghost dd = named_views(dl@);
            let mut k: usize = 0;
            assert(dd.take(0) =~= Seq::<(Seq<char>, bool)>::empty());
            while k < dl.len()
                invariant
                    k <= dl@.len(),
                    dd == named_views(dl@),
                    a@ == abs@,
                    dv == string_views(deleted@),
                    pair_views(merged@) == disk_fold(m1, abs@, dd.take(k as int), dv, show_hidden),
                decreases dl@.len() - k,
            {
                let name = chars_of(dl[k].0.as_str());
                let d = dl[k].1;
                assert(dd.take(k + 1).drop_last() =~= dd.take(k as int));
                assert(dd.take(k + 1).last() == (name@, d));
                let hidden = name.len() > 0 && name[0] == '.';
                if !(!show_hidden && hidden) {
                    let child = child_path_of(a.as_slice(), name.as_slice());
                    if !holds(deleted, child.as_slice()) {
                        upsert_exec(&mut merged, name.as_slice(), d, false);
                    }
                }
                k = k + 1;
            }
            assert(dd.take(dl@.len() as int) =~= dd);
        },
        None => {},
    }
    if merged.len() == 0 && !holds(dirs, a.as_slice()) && !disk_is_dir {
        return None;
    }
    let ghost m2 = pair_views(merged@);
    let mut out: Vec<DirEntry> = Vec::new();
    let mut k: usize = 0;
    while k < merged.len()
        invariant
            k <= merged@.len(),
            m2 == pair_views(merged@),
            out@.len() == k,
            forall|j: int| 0 <= j < k ==> (#[trigger] out@[j]).name@ == m2[j].0 && out@[j].is_dir
                == m2[j].1 && out@[j].size == 0,
        decreases merged@.len() - k,
    {
        out.push(DirEntry { name: string_of(merged[k].0.as_slice()), is_dir: merged[k].1, size: 0 });
        k = k + 1;
    }
    assert(Seq::new(out@.len(), |i: int| (out@[i].name@, out@[i].is_dir)) =~= m2);
    Some(out)
}

} // verus!
