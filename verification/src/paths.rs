//! Path helpers shared by the file system and the commands: normalization,
//! resolution against a working directory, splitting off the last
//! component, and glob matching of names.
use crate::text::{
    chars_eq, is_ws, join, join_spec, push_all, split_chars, split_on, split_state, subvec, trim,
    trim_end_spec, trim_spec, trim_start_spec, views,
};
use vstd::prelude::*;

verus! {

/// Folding path components left to right: empty and `.` components vanish,
/// `..` drops the previous component (if any).
pub open spec fn norm_comps(parts: Seq<Seq<char>>) -> Seq<Seq<char>>
    decreases parts.len(),
{
    if parts.len() == 0 {
        seq![]
    } else {
        let acc = norm_comps(parts.drop_last());
        let l = parts.last();
        if l.len() == 0 || l == seq!['.'] {
            acc
        } else if l == seq!['.', '.'] {
            if acc.len() > 0 {
                acc.drop_last()
            } else {
                acc
            }
        } else {
            acc.push(l)
        }
    }
}

/// The normal form of a path: trimmed, `.`/`..`/empty components resolved;
/// an absolute path stays absolute, an empty relative one becomes `.`.
pub open spec fn normalize_spec(p: Seq<char>) -> Seq<char> {
    let t = trim_spec(p);
    let abs = t.len() > 0 && t[0] == '/';
    let rest = if abs {
        t.drop_first()
    } else {
        t
    };
    let cs = norm_comps(split_on(rest, '/'));
    if abs {
        seq!['/'] + join_spec(cs, seq!['/'])
    } else if cs.len() == 0 {
        seq!['.']
    } else {
        join_spec(cs, seq!['/'])
    }
}

/// A path made absolute against `cwd` and normalized.
pub open spec fn resolve_abs_spec(path: Seq<char>, cwd: Seq<char>) -> Seq<char> {
    if path.len() > 0 && path[0] == '/' {
        normalize_spec(path)
    } else {
        let base = if cwd == seq!['/'] {
            seq![]
        } else {
            cwd
        };
        normalize_spec(base + seq!['/'] + path)
    }
}

/// The last position of `c` in `s`.
pub open spec fn last_index(s: Seq<char>, c: char) -> Option<int>
    decreases s.len(),
{
    if s.len() == 0 {
        None
    } else if s.last() == c {
        Some(s.len() - 1)
    } else {
        last_index(s.drop_last(), c)
    }
}

/// The parent and the last component of a path: split at the last `/`
/// (the parent of `/x` is `/`); a path without `/` has parent `.`.
pub open spec fn split_path_spec(p: Seq<char>) -> (Seq<char>, Seq<char>) {
    match last_index(p, '/') {
        Some(i) => (if i == 0 {
            seq!['/']
        } else {
            p.take(i)
        }, p.skip(i + 1)),
        None => (seq!['.'], p),
    }
}

/// The name after the last `/` (the whole path when there is none).
pub open spec fn base_name(p: Seq<char>) -> Seq<char> {
    match last_index(p, '/') {
        Some(i) => p.skip(i + 1),
        None => p,
    }
}

pub fn last_index_exec(s: &[char], c: char) -> (r: Option<usize>)
    ensures
        match r {
            Some(i) => last_index(s@, c) == Some(i as int) && i < s@.len() && s@.len() <= usize::MAX,
            None => last_index(s@, c) is None,
        },
{
    let mut k = s.len();
    assert(s@.take(s@.len() as int) =~= s@);
    while k > 0
        invariant
            k <= s@.len(),
            last_index(s@, c) == last_index(s@.take(k as int), c),
        decreases k,
    {
        assert(s@.take(k as int).drop_last() =~= s@.take(k - 1));
        assert(s@.take(k as int).last() == s@[k - 1]);
        if s[k - 1] == c {
            return Some(k - 1);
        }
        k = k - 1;
    }
    None
}

/// The pieces of `s` that index ranges stand for.
pub open spec fn range_views(s: Seq<char>, rs: Seq<(usize, usize)>) -> Seq<Seq<char>> {
    Seq::new(rs.len(), |i: int| s.subrange(rs[i].0 as int, rs[i].1 as int))
}

pub open spec fn ranges_ok(s: Seq<char>, rs: Seq<(usize, usize)>) -> bool {
    forall|i: int| 0 <= i < rs.len() ==> (#[trigger] rs[i]).0 <= rs[i].1 <= s.len()
}

/// The pieces of `s` from `from` on between separators, as index ranges.
pub fn split_ranges(s: &[char], from: usize, sep: char) -> (r: Vec<(usize, usize)>)
    requires
        from <= s@.len(),
    ensures
        ranges_ok(s@, r@),
        range_views(s@, r@) == split_on(s@.skip(from as int), sep),
{
    let ghost t = s@.skip(from as int);
    let mut done: Vec<(usize, usize)> = Vec::new();
    let mut start: usize = from;
    let mut i: usize = from;
    assert(t.take(0) =~= seq![]);
    while i < s.len()
        invariant
            from <= start <= i <= s@.len(),
            t == s@.skip(from as int),
            ranges_ok(s@, done@),
            range_views(s@, done@) == split_state(t.take(i - from), sep).0,
            s@.subrange(start as int, i as int) == split_state(t.take(i - from), sep).1,
        decreases s@.len() - i,
    {
        let ghost tk = t.take(i - from + 1);
        assert(tk.drop_last() =~= t.take(i - from));
        assert(tk.last() == s@[i as int]);
        let ghost before = range_views(s@, done@);
        if s[i] == sep {
            done.push((start, i));
            assert(range_views(s@, done@) =~= before.push(s@.subrange(start as int, i as int)));
            start = i + 1;
            assert(s@.subrange(start as int, i + 1) =~= seq![]);
        } else {
            assert(range_views(s@, done@) =~= before);
            assert(s@.subrange(start as int, i + 1) =~= s@.subrange(start as int, i as int).push(s@[i as int]));
        }
        i = i + 1;
    }
    assert(t.take(s@.len() - from) =~= t);
    let ghost before = range_views(s@, done@);
    done.push((start, i));
    assert(range_views(s@, done@) =~= before.push(s@.subrange(start as int, i as int)));
    done
}

pub(crate) fn range_is(s: &[char], a: usize, b: usize, lit: &[char]) -> (r: bool)
    requires
        a <= b <= s@.len(),
    ensures
        r == (s@.subrange(a as int, b as int) == lit@),
{
    if b - a != lit.len() {
        assert(s@.subrange(a as int, b as int).len() != lit@.len());
        return false;
    }
    let mut k: usize = 0;
    while k < lit.len()
        invariant
            b - a == lit@.len(),
            a <= b <= s@.len(),
            k <= lit@.len(),
            forall|j: int| 0 <= j < k ==> s@[a + j] == lit@[j],
        decreases lit@.len() - k,
    {
        if s[a + k] != lit[k] {
            assert(s@.subrange(a as int, b as int)[k as int] != lit@[k as int]);
            return false;
        }
        k = k + 1;
    }
    assert(s@.subrange(a as int, b as int) =~= lit@);
    true
}

/// `norm_comps` over index ranges: the ranges of the components kept.
fn norm_ranges(s: &[char], parts: &Vec<(usize, usize)>) -> (r: Vec<(usize, usize)>)
    requires
        ranges_ok(s@, parts@),
    ensures
        ranges_ok(s@, r@),
        range_views(s@, r@) == norm_comps(range_views(s@, parts@)),
{
    let ghost pv = range_views(s@, parts@);
    let mut dot: Vec<char> = Vec::new();
    dot.push('.');
    assert(dot@ =~= seq!['.']);
    let mut dotdot: Vec<char> = Vec::new();
    dotdot.push('.');
    dotdot.push('.');
    assert(dotdot@ =~= seq!['.', '.']);
    let mut comps: Vec<(usize, usize)> = Vec::new();
    let mut i: usize = 0;
    assert(pv.take(0) =~= seq![]);
    assert(range_views(s@, comps@) =~= seq![]);
    while i < parts.len()
        invariant
            i <= parts@.len(),
            ranges_ok(s@, parts@),
            pv == range_views(s@, parts@),
            dot@ == seq!['.'],
            dotdot@ == seq!['.', '.'],
            ranges_ok(s@, comps@),
            range_views(s@, comps@) == norm_comps(pv.take(i as int)),
        decreases parts@.len() - i,
    {
        let (a, b) = parts[i];
        assert(pv.take(i + 1).drop_last() =~= pv.take(i as int));
        assert(pv.take(i + 1).last() == s@.subrange(a as int, b as int));
        let ghost before = range_views(s@, comps@);
        if a == b || range_is(s, a, b, dot.as_slice()) {
            assert(a == b ==> s@.subrange(a as int, b as int).len() == 0);
        } else if range_is(s, a, b, dotdot.as_slice()) {
            if comps.len() > 0 {
                comps.pop();
                assert(range_views(s@, comps@) =~= before.drop_last());
            }
        } else {
            comps.push((a, b));
            assert(range_views(s@, comps@) =~= before.push(s@.subrange(a as int, b as int)));
        }
        i = i + 1;
    }
    assert(pv.take(parts@.len() as int) =~= pv);
    comps
}

/// The pieces that ranges stand for, joined by `sep`.
fn join_ranges(s: &[char], rs: &Vec<(usize, usize)>, sep: char) -> (r: Vec<char>)
    requires
        ranges_ok(s@, rs@),
    ensures
        r@ == join_spec(range_views(s@, rs@), seq![sep]),
{
    let ghost rv = range_views(s@, rs@);
    let mut r: Vec<char> = Vec::new();
    let mut i: usize = 0;
    while i < rs.len()
        invariant
            i <= rs@.len(),
            ranges_ok(s@, rs@),
            rv == range_views(s@, rs@),
            r@ == join_spec(rv.take(i as int), seq![sep]),
        decreases rs@.len() - i,
    {
        let (a, b) = rs[i];
        if i > 0 {
            r.push(sep);
        }
        let ghost mid = r@;
        let mut k = a;
        while k < b
            invariant
                a <= k <= b <= s@.len(),
                r@ =~= mid + s@.subrange(a as int, k as int),
            decreases b - k,
        {
            r.push(s[k]);
            k = k + 1;
        }
        assert(rv.take(i + 1).drop_last() =~= rv.take(i as int));
        assert(rv.take(i + 1).last() == s@.subrange(a as int, b as int));
        i = i + 1;
    }
    assert(rv.take(rs@.len() as int) =~= rv);
    r
}

/// The normalized components of a text split at `/`, joined by `/`, and
/// whether there is any.
pub fn norm_join(rest: &[char]) -> (r: (Vec<char>, bool))
    ensures
        r.0@ == join_spec(norm_comps(split_on(rest@, '/')), seq!['/']),
        r.1 == (norm_comps(split_on(rest@, '/')).len() > 0),
{
    let parts = split_ranges(rest, 0, '/');
    assert(rest@.skip(0) =~= rest@);
    let comps = norm_ranges(rest, &parts);
    let j = join_ranges(rest, &comps, '/');
    (j, comps.len() > 0)
}

/// `/` followed by the normalized components of a text.
pub fn normalize_components_abs(rest: &[char]) -> (r: Vec<char>)
    ensures
        r@ == seq!['/'] + join_spec(norm_comps(split_on(rest@, '/')), seq!['/']),
{
    let (j, _) = norm_join(rest);
    let mut r: Vec<char> = Vec::new();
    r.push('/');
    push_all(&mut r, j.as_slice());
    assert(r@ =~= seq!['/'] + j@);
    r
}

pub fn normalize_path(path: &[char]) -> (r: Vec<char>)
    ensures
        r@ == normalize_spec(path@),
{
    let t = trim(path);
    let abs = t.len() > 0 && t[0] == '/';
    let rest = if abs {
        subvec(t.as_slice(), 1, t.len())
    } else {
        subvec(t.as_slice(), 0, t.len())
    };
    assert(abs ==> rest@ =~= t@.drop_first());
    assert(!abs ==> rest@ =~= t@);
    let (j, nonempty) = norm_join(rest.as_slice());
    if abs {
        let mut r: Vec<char> = Vec::new();
        r.push('/');
        push_all(&mut r, j.as_slice());
        assert(r@ =~= seq!['/'] + j@);
        r
    } else if !nonempty {
        let mut r: Vec<char> = Vec::new();
        r.push('.');
        assert(r@ =~= seq!['.']);
        r
    } else {
        j
    }
}

pub fn resolve_abs(path: &[char], cwd: &[char]) -> (r: Vec<char>)
    ensures
        r@ == resolve_abs_spec(path@, cwd@),
{
    if path.len() > 0 && path[0] == '/' {
        normalize_path(path)
    } else {
        let mut full: Vec<char> = Vec::new();
        let mut root: Vec<char> = Vec::new();
        root.push('/');
        assert(root@ =~= seq!['/']);
        if !chars_eq(cwd, root.as_slice()) {
            push_all(&mut full, cwd);
        }
        full.push('/');
        push_all(&mut full, path);
        assert(full@ =~= (if cwd@ == seq!['/'] {
            seq![]
        } else {
            cwd@
        }) + seq!['/'] + path@);
        normalize_path(full.as_slice())
    }
}

pub fn split_path(p: &[char]) -> (r: (Vec<char>, Vec<char>))
    ensures
        (r.0@, r.1@) == split_path_spec(p@),
{
    match last_index_exec(p, '/') {
        Some(i) => {
            let parent = if i == 0 {
                let mut v: Vec<char> = Vec::new();
                v.push('/');
                assert(v@ =~= seq!['/']);
                v
            } else {
                subvec(p, 0, i)
            };
            let name = subvec(p, i + 1, p.len());
            assert(name@ =~= p@.skip(i + 1));
            assert(i > 0 ==> parent@ =~= p@.take(i as int));
            (parent, name)
        },
        None => {
            let mut v: Vec<char> = Vec::new();
            v.push('.');
            assert(v@ =~= seq!['.']);
            (v, subvec(p, 0, p.len()))
        },
    }
}

pub fn base_name_exec(p: &[char]) -> (r: Vec<char>)
    ensures
        r@ == base_name(p@),
{
    match last_index_exec(p, '/') {
        Some(i) => {
            let name = subvec(p, i + 1, p.len());
            assert(name@ =~= p@.skip(i + 1));
            name
        },
        None => {
            let v = subvec(p, 0, p.len());
            assert(v@ =~= p@);
            v
        },
    }
}

// ── Ancestors ────────────────────────────────────────────────────

/// `/c0/c1/.../ck` for the components given.
pub open spec fn slash_join(cs: Seq<Seq<char>>) -> Seq<char>
    decreases cs.len(),
{
    if cs.len() == 0 {
        seq![]
    } else {
        slash_join(cs.drop_last()) + seq!['/'] + cs.last()
    }
}

/// The root and every path on the way down to an absolute path:
/// `/`, `/a`, `/a/b`, ... for `/a/b/...` (the text after the first
/// character, split at `/`).
pub open spec fn ancestors_spec(p: Seq<char>) -> Seq<Seq<char>> {
    if p == seq!['/'] {
        seq![seq!['/']]
    } else {
        let cs = split_on(p.drop_first(), '/');
        seq![seq!['/']] + Seq::new(cs.len(), |k: int| slash_join(cs.take(k + 1)))
    }
}

/// The root and every path on the way down to `path` (its first character
/// is taken to be the leading `/`).
pub fn ancestors(path: &str) -> (r: Vec<String>)
    requires
        path@.len() > 0,
        (path@[0] as u32) < 0x80,
    ensures
        crate::parser::string_views(r@) == ancestors_spec(path@),
{
    let c = crate::text::chars_of(path);
    let mut out: Vec<String> = Vec::new();
    let mut root: Vec<char> = Vec::new();
    root.push('/');
    out.push(crate::text::string_of(root.as_slice()));
    assert(crate::parser::string_views(out@) =~= seq![seq!['/']]);
    if c.len() == 1 && c[0] == '/' {
        assert(c@ =~= seq!['/']);
        return out;
    }
    assert(c@ != seq!['/']) by {
        if c@.len() == 1 {
            assert(c@[0] != '/');
        }
    }
    let rest = subvec(c.as_slice(), 1, c.len());
    assert(rest@ =~= c@.drop_first());
    let parts = split_chars(rest.as_slice(), '/');
    let ghost cs = views(parts@);
    let mut cur: Vec<char> = Vec::new();
    let mut k: usize = 0;
    assert(cs.take(0) =~= Seq::<Seq<char>>::empty());
    while k < parts.len()
        invariant
            k <= parts@.len(),
            cs == views(parts@),
            cur@ == slash_join(cs.take(k as int)),
            crate::parser::string_views(out@) == seq![seq!['/']] + Seq::new(
                k as nat,
                |j: int| slash_join(cs.take(j + 1)),
            ),
        decreases parts@.len() - k,
    {
        cur.push('/');
        push_all(&mut cur, parts[k].as_slice());
        assert(cs.take(k + 1).drop_last() =~= cs.take(k as int));
        assert(cs.take(k + 1).last() == parts@[k as int]@);
        assert(cur@ =~= slash_join(cs.take(k + 1)));
        let ghost before = crate::parser::string_views(out@);
        out.push(crate::text::string_of(cur.as_slice()));
        assert(crate::parser::string_views(out@) =~= before.push(cur@));
        k = k + 1;
        assert(crate::parser::string_views(out@) =~= seq![seq!['/']] + Seq::new(
            k as nat,
            |j: int| slash_join(cs.take(j + 1)),
        ));
    }
    out
}

// ── Glob matching ────────────────────────────────────────────────

/// The first `]` at or after `k`.
pub open spec fn close_bracket(p: Seq<char>, k: int) -> Option<int>
    decreases p.len() - k,
{
    if k < 0 || k >= p.len() {
        None
    } else if p[k] == ']' {
        Some(k)
    } else {
        close_bracket(p, k + 1)
    }
}

/// Glob matching of `p[pi..]` against `t[ti..]`: `*` takes any run of
/// characters, the empty one too; `?` one character, `[abc]` one of the
/// listed characters; recursion stops (without a match) past a depth of
/// 1000.
pub open spec fn glob_at(p: Seq<char>, t: Seq<char>, pi: int, ti: int, depth: nat) -> bool
    decreases 1001 - depth, 0int,
{
    if depth > 1000 {
        false
    } else if pi == p.len() {
        ti == t.len()
    } else if pi < 0 || pi >= p.len() || ti < 0 || ti > t.len() {
        false
    } else if p[pi] == '*' {
        star_from(p, t, pi, ti, depth)
    } else if ti == t.len() {
        false
    } else if p[pi] == '?' {
        glob_at(p, t, pi + 1, ti + 1, depth + 1)
    } else if p[pi] == '[' {
        match close_bracket(p, pi + 1) {
            Some(e) => p.subrange(pi + 1, e).contains(t[ti]) && glob_at(p, t, e + 1, ti + 1, depth + 1),
            None => t[ti] == '[' && glob_at(p, t, pi + 1, ti + 1, depth + 1),
        }
    } else {
        t[ti] == p[pi] && glob_at(p, t, pi + 1, ti + 1, depth + 1)
    }
}

/// Whether the rest of the pattern after the `*` at `pi` matches from some
/// text position `i` with `ti <= i <= t.len()`.
pub open spec fn star_from(p: Seq<char>, t: Seq<char>, pi: int, i: int, depth: nat) -> bool
    decreases 1000 - depth, t.len() + 1 - i,
{
    if depth > 1000 || i < 0 || i > t.len() {
        false
    } else {
        glob_at(p, t, pi + 1, i, depth + 1) || star_from(p, t, pi, i + 1, depth)
    }
}

pub open spec fn glob_spec(pattern: Seq<char>, text: Seq<char>) -> bool {
    glob_at(pattern, text, 0, 0, 0)
}

fn close_bracket_exec(p: &[char], k: usize) -> (r: Option<usize>)
    ensures
        match r {
            Some(e) => close_bracket(p@, k as int) == Some(e as int) && k <= e < p@.len(),
            None => close_bracket(p@, k as int) is None,
        },
{
    let mut j = k;
    while j < p.len()
        invariant
            k <= j,
            close_bracket(p@, k as int) == close_bracket(p@, j as int),
            forall|m: int| k <= m < j ==> p@[m] != ']',
        decreases p@.len() - j,
    {
        if p[j] == ']' {
            return Some(j);
        }
        j = j + 1;
    }
    None
}

fn contains_char(s: &[char], a: usize, b: usize, c: char) -> (r: bool)
    requires
        a <= b <= s@.len(),
    ensures
        r == s@.subrange(a as int, b as int).contains(c),
{
    let mut j = a;
    while j < b
        invariant
            a <= j <= b <= s@.len(),
            forall|m: int| a <= m < j ==> s@[m] != c,
        decreases b - j,
    {
        if s[j] == c {
            assert(s@.subrange(a as int, b as int)[j - a] == c);
            return true;
        }
        j = j + 1;
    }
    assert forall|m: int| 0 <= m < b - a implies s@.subrange(a as int, b as int)[m] != c by {
        assert(s@.subrange(a as int, b as int)[m] == s@[a + m]);
    }
    false
}

fn glob_inner(p: &[char], t: &[char], pi: usize, ti: usize, depth: usize) -> (r: bool)
    requires
        pi <= p@.len() + 1,
        ti <= t@.len() + 1,
        depth <= 1001,
    ensures
        r == glob_at(p@, t@, pi as int, ti as int, depth as nat),
    decreases 1001 - depth, 0int,
{
    if depth > 1000 {
        return false;
    }
    if pi == p.len() {
        return ti == t.len();
    }
    if pi >= p.len() || ti > t.len() {
        return false;
    }
    if p[pi] == '*' {
        assert(glob_at(p@, t@, pi as int, ti as int, depth as nat) == star_from(
            p@,
            t@,
            pi as int,
            ti as int,
            depth as nat,
        ));
        let mut i = ti;
        while i < t.len()
            invariant
                ti <= i <= t@.len(),
                pi < p@.len() <= usize::MAX,
                t@.len() <= usize::MAX,
                depth <= 1000,
                glob_at(p@, t@, pi as int, ti as int, depth as nat) == star_from(
                    p@,
                    t@,
                    pi as int,
                    ti as int,
                    depth as nat,
                ),
                star_from(p@, t@, pi as int, ti as int, depth as nat) == star_from(
                    p@,
                    t@,
                    pi as int,
                    i as int,
                    depth as nat,
                ),
            decreases t@.len() + 1 - i,
        {
            if glob_inner(p, t, pi + 1, i, depth + 1) {
                return true;
            }
            i = i + 1;
        }
        assert(!star_from(p@, t@, pi as int, i + 1, depth as nat));
        glob_inner(p, t, pi + 1, i, depth + 1)
    } else if ti == t.len() {
        false
    } else if p[pi] == '?' {
        let r = glob_inner(p, t, pi + 1, ti + 1, depth + 1);
        assert(r == glob_at(p@, t@, pi as int, ti as int, depth as nat));
        r
    } else if p[pi] == '[' {
        match close_bracket_exec(p, pi + 1) {
            Some(e) => {
                if contains_char(p, pi + 1, e, t[ti]) {
                    glob_inner(p, t, e + 1, ti + 1, depth + 1)
                } else {
                    false
                }
            },
            None => t[ti] == '[' && glob_inner(p, t, pi + 1, ti + 1, depth + 1),
        }
    } else {
        t[ti] == p[pi] && glob_inner(p, t, pi + 1, ti + 1, depth + 1)
    }
}

/// Whether a name matches a glob pattern.
pub fn glob_matches(pattern: &[char], text: &[char]) -> (r: bool)
    ensures
        r == glob_spec(pattern@, text@),
{
    glob_inner(pattern, text, 0, 0, 0)
}

// ── What glob matching gives ─────────────────────────────────────

proof fn lemma_star_tail(t: Seq<char>, i: int)
    requires
        0 <= i <= t.len(),
    ensures
        star_from(seq!['*'], t, 0, i, 0),
    decreases t.len() - i,
{
    let p = seq!['*'];
    assert(p.len() == 1);
    if i < t.len() {
        lemma_star_tail(t, i + 1);
    } else {
        assert(glob_at(p, t, 1, i, 1));
    }
}

/// `*` alone matches every text, the empty one too.
pub proof fn law_glob_star(t: Seq<char>)
    ensures
        glob_spec(seq!['*'], t),
{
    lemma_star_tail(t, 0);
}

/// Where a pattern closes a bracket does not change when a character other
/// than `]` is added at its end (past what was looked at).
proof fn lemma_close_bracket_push(p: Seq<char>, c: char, k: int)
    requires
        c != ']',
    ensures
        close_bracket(p.push(c), k) == (if k == p.len() {
            None
        } else {
            close_bracket(p, k)
        }),
    decreases p.len() - k,
{
    let q = p.push(c);
    if 0 <= k < p.len() {
        assert(q[k] == p[k]);
        if p[k] != ']' {
            lemma_close_bracket_push(p, c, k + 1);
            if k + 1 == p.len() {
                assert(q[k + 1] == c);
                assert(close_bracket(q, k + 2) is None);
                assert(close_bracket(p, k + 1) is None);
            }
        }
    } else if k == p.len() {
        assert(q[k] == c);
        assert(close_bracket(q, k + 1) is None);
    }
}

/// A match of `p[pi..]` (reached within the depth it has used) stays a
/// match when `*` is added at the end of the pattern.
proof fn lemma_star_suffix(p: Seq<char>, t: Seq<char>, pi: int, ti: int, d: nat)
    requires
        d <= pi <= p.len(),
        p.len() < 1000,
        glob_at(p, t, pi, ti, d),
    ensures
        glob_at(p.push('*'), t, pi, ti, d),
    decreases p.len() - pi, 1int, 0int,
{
    let q = p.push('*');
    if pi == p.len() {
        assert(q[pi] == '*');
        assert(glob_at(q, t, pi + 1, ti, d + 1));
        assert(star_from(q, t, pi, ti, d));
    } else {
        assert(q[pi] == p[pi]);
        if p[pi] == '*' {
            lemma_star_from_suffix(p, t, pi, ti, d);
        } else if p[pi] == '?' {
            lemma_star_suffix(p, t, pi + 1, ti + 1, d + 1);
        } else if p[pi] == '[' {
            lemma_close_bracket_push(p, '*', pi + 1);
            match close_bracket(p, pi + 1) {
                Some(e) => {
                    assert(pi + 1 <= e < p.len()) by {
                        lemma_close_bracket_range(p, pi + 1);
                    }
                    assert(q.subrange(pi + 1, e) =~= p.subrange(pi + 1, e));
                    lemma_star_suffix(p, t, e + 1, ti + 1, d + 1);
                },
                None => {
                    if pi + 1 == p.len() {
                        assert(close_bracket(q, pi + 1) is None);
                    }
                    lemma_star_suffix(p, t, pi + 1, ti + 1, d + 1);
                },
            }
        } else {
            lemma_star_suffix(p, t, pi + 1, ti + 1, d + 1);
        }
    }
}

proof fn lemma_star_from_suffix(p: Seq<char>, t: Seq<char>, pi: int, i: int, d: nat)
    requires
        d <= pi < p.len(),
        p.len() < 1000,
        star_from(p, t, pi, i, d),
    ensures
        star_from(p.push('*'), t, pi, i, d),
    decreases p.len() - pi, 0int, t.len() + 1 - i,
{
    if glob_at(p, t, pi + 1, i, d + 1) {
        lemma_star_suffix(p, t, pi + 1, i, d + 1);
    } else {
        lemma_star_from_suffix(p, t, pi, i + 1, d);
    }
}

/// Where a bracket closes, it closes inside the pattern, at or after `k`.
proof fn lemma_close_bracket_range(p: Seq<char>, k: int)
    ensures
        close_bracket(p, k) matches Some(e) ==> k <= e < p.len(),
    decreases p.len() - k,
{
    if 0 <= k < p.len() && p[k] != ']' {
        lemma_close_bracket_range(p, k + 1);
    }
}

/// `*` also takes the empty text: a pattern (shorter than the matcher's
/// depth) that matches a text still matches it with `*` added at its end.
pub proof fn law_glob_star_suffix(p: Seq<char>, t: Seq<char>)
    requires
        p.len() < 1000,
        glob_spec(p, t),
    ensures
        glob_spec(p.push('*'), t),
{
    lemma_star_suffix(p, t, 0, 0, 0);
}

/// A pattern without `*`, `?` or `[`.
pub open spec fn literal_pattern(p: Seq<char>) -> bool {
    forall|j: int| 0 <= j < p.len() ==> p[j] != '*' && p[j] != '?' && p[j] != '['
}

proof fn lemma_glob_literal(p: Seq<char>, t: Seq<char>, k: int)
    requires
        literal_pattern(p),
        p.len() <= 1000,
        0 <= k <= p.len(),
    ensures
        glob_at(p, t, k, k, k as nat) == (t.len() == p.len() && forall|j: int|
            k <= j < p.len() ==> t[j] == p[j]),
    decreases p.len() - k,
{
    if k < p.len() {
        lemma_glob_literal(p, t, k + 1);
        assert(p[k] != '*' && p[k] != '?' && p[k] != '[');
        let all_k = forall|j: int| k <= j < p.len() ==> t[j] == p[j];
        let all_k1 = forall|j: int| k + 1 <= j < p.len() ==> t[j] == p[j];
        if all_k {
            assert(all_k1);
        }
        if k < t.len() && t[k] == p[k] && all_k1 {
            assert forall|j: int| k <= j < p.len() implies t[j] == p[j] by {
                if j > k {
                    assert(k + 1 <= j);
                }
            }
        }
    }
}

/// A pattern without `*`, `?` or `[` (of at most 1000 characters, the
/// matcher's depth) matches exactly itself.
pub proof fn law_glob_literal(p: Seq<char>, t: Seq<char>)
    requires
        literal_pattern(p),
        p.len() <= 1000,
    ensures
        glob_spec(p, t) == (t == p),
{
    lemma_glob_literal(p, t, 0);
    if t.len() == p.len() && forall|j: int| 0 <= j < p.len() ==> t[j] == p[j] {
        assert(t =~= p);
    }
}

// ── What normalization gives ─────────────────────────────────────

/// No character of `s` is `x`.
pub open spec fn free_of(s: Seq<char>, x: char) -> bool {
    forall|j: int| 0 <= j < s.len() ==> s[j] != x
}

/// A component as normalization leaves it: not empty, not `.` or `..`, and
/// without `/`.
pub open spec fn clean_comp(c: Seq<char>) -> bool {
    c.len() > 0 && c != seq!['.'] && c != seq!['.', '.'] && free_of(c, '/')
}

pub open spec fn clean_comps(cs: Seq<Seq<char>>) -> bool {
    forall|i: int| 0 <= i < cs.len() ==> clean_comp(#[trigger] cs[i])
}

/// No component ends in whitespace (so trimming a path made of them
/// changes nothing).
pub open spec fn untrimmed_comps(cs: Seq<Seq<char>>) -> bool {
    forall|i: int| 0 <= i < cs.len() ==> !is_ws((#[trigger] cs[i]).last())
}

/// The pieces of a split hold no separator.
pub proof fn lemma_split_state_free(s: Seq<char>, sep: char)
    ensures
        forall|i: int|
            0 <= i < split_state(s, sep).0.len() ==> free_of(#[trigger] split_state(s, sep).0[i], sep),
        free_of(split_state(s, sep).1, sep),
    decreases s.len(),
{
    if s.len() > 0 {
        lemma_split_state_free(s.drop_last(), sep);
        let (done, cur) = split_state(s.drop_last(), sep);
        if s.last() == sep {
            assert forall|i: int| 0 <= i < done.push(cur).len() implies free_of(
                #[trigger] done.push(cur)[i],
                sep,
            ) by {
                if i < done.len() {
                    assert(done.push(cur)[i] == done[i]);
                }
            }
        } else {
            assert forall|j: int| 0 <= j < cur.push(s.last()).len() implies cur.push(s.last())[j]
                != sep by {
                if j < cur.len() {
                    assert(cur.push(s.last())[j] == cur[j]);
                }
            }
        }
    }
}

pub proof fn lemma_split_on_free(s: Seq<char>, sep: char)
    ensures
        forall|i: int| 0 <= i < split_on(s, sep).len() ==> free_of(#[trigger] split_on(s, sep)[i], sep),
{
    lemma_split_state_free(s, sep);
    let (done, cur) = split_state(s, sep);
    assert forall|i: int| 0 <= i < split_on(s, sep).len() implies free_of(
        #[trigger] split_on(s, sep)[i],
        sep,
    ) by {
        if i < done.len() {
            assert(split_on(s, sep)[i] == done[i]);
        }
    }
}

/// What normalization keeps is clean.
pub proof fn lemma_norm_clean(parts: Seq<Seq<char>>)
    requires
        forall|i: int| 0 <= i < parts.len() ==> free_of(#[trigger] parts[i], '/'),
    ensures
        clean_comps(norm_comps(parts)),
    decreases parts.len(),
{
    if parts.len() > 0 {
        let t = parts.drop_last();
        assert forall|i: int| 0 <= i < t.len() implies free_of(#[trigger] t[i], '/') by {
            assert(t[i] == parts[i]);
        }
        lemma_norm_clean(t);
        let acc = norm_comps(t);
        let l = parts.last();
        assert(free_of(parts[parts.len() - 1], '/'));
        if l.len() == 0 || l == seq!['.'] {
        } else if l == seq!['.', '.'] {
            if acc.len() > 0 {
                assert forall|i: int| 0 <= i < acc.drop_last().len() implies clean_comp(
                    #[trigger] acc.drop_last()[i],
                ) by {
                    assert(acc.drop_last()[i] == acc[i]);
                }
            }
        } else {
            assert forall|i: int| 0 <= i < acc.push(l).len() implies clean_comp(
                #[trigger] acc.push(l)[i],
            ) by {
                if i < acc.len() {
                    assert(acc.push(l)[i] == acc[i]);
                }
            }
        }
    }
}

/// Clean components are their own normal form.
pub proof fn lemma_norm_id(cs: Seq<Seq<char>>)
    requires
        clean_comps(cs),
    ensures
        norm_comps(cs) == cs,
    decreases cs.len(),
{
    if cs.len() > 0 {
        let t = cs.drop_last();
        assert forall|i: int| 0 <= i < t.len() implies clean_comp(#[trigger] t[i]) by {
            assert(t[i] == cs[i]);
        }
        lemma_norm_id(t);
        assert(clean_comp(cs[cs.len() - 1]));
        assert(t.push(cs.last()) =~= cs);
    }
}

/// Splitting `s + t` where `t` has no separator: `t` extends the last piece.
pub proof fn lemma_split_append_free(s: Seq<char>, t: Seq<char>, sep: char)
    requires
        free_of(t, sep),
    ensures
        split_state(s + t, sep) == (split_state(s, sep).0, split_state(s, sep).1 + t),
    decreases t.len(),
{
    if t.len() == 0 {
        assert(s + t =~= s);
        assert(split_state(s, sep).1 + t =~= split_state(s, sep).1);
    } else {
        let t0 = t.drop_last();
        assert forall|j: int| 0 <= j < t0.len() implies t0[j] != sep by {
            assert(t0[j] == t[j]);
        }
        lemma_split_append_free(s, t0, sep);
        assert((s + t).drop_last() =~= s + t0);
        assert((s + t).last() == t[t.len() - 1]);
        assert((split_state(s, sep).1 + t0).push(t.last()) =~= split_state(s, sep).1 + t);
    }
}

/// Joining components without `/` and splitting again gives them back.
pub proof fn lemma_split_join(cs: Seq<Seq<char>>)
    requires
        cs.len() >= 1,
        forall|i: int| 0 <= i < cs.len() ==> free_of(#[trigger] cs[i], '/'),
    ensures
        split_on(join_spec(cs, seq!['/']), '/') == cs,
    decreases cs.len(),
{
    assert(free_of(cs[0], '/'));
    if cs.len() == 1 {
        lemma_split_append_free(seq![], cs[0], '/');
        assert(seq![] + cs[0] =~= cs[0]);
        assert(seq![].push(cs[0]) =~= cs);
    } else {
        let t = cs.drop_last();
        assert forall|i: int| 0 <= i < t.len() implies free_of(#[trigger] t[i], '/') by {
            assert(t[i] == cs[i]);
        }
        lemma_split_join(t);
        let j = join_spec(t, seq!['/']);
        assert(free_of(cs[cs.len() - 1], '/'));
        lemma_split_append_free(j + seq!['/'], cs.last(), '/');
        assert((j + seq!['/']).drop_last() =~= j);
        assert(split_state(j + seq!['/'], '/') == (split_on(j, '/'), Seq::<char>::empty()));
        assert(Seq::<char>::empty() + cs.last() =~= cs.last());
        assert(t.push(cs.last()) =~= cs);
    }
}

/// The join of components that are not empty is not empty, and it starts
/// with the first component's first character.
pub proof fn lemma_join_first(cs: Seq<Seq<char>>)
    requires
        cs.len() >= 1,
        cs[0].len() > 0,
    ensures
        join_spec(cs, seq!['/']).len() > 0,
        join_spec(cs, seq!['/'])[0] == cs[0][0],
    decreases cs.len(),
{
    if cs.len() > 1 {
        let t = cs.drop_last();
        assert(t[0] == cs[0]);
        lemma_join_first(t);
    }
}

/// The join's last character is the last component's last one.
pub proof fn lemma_join_last(cs: Seq<Seq<char>>)
    requires
        cs.len() >= 1,
        cs.last().len() > 0,
    ensures
        join_spec(cs, seq!['/']).len() > 0,
        join_spec(cs, seq!['/']).last() == cs.last().last(),
{
}

/// Trimming a text that neither starts nor ends with whitespace changes
/// nothing.
pub proof fn lemma_trim_id(s: Seq<char>)
    requires
        s.len() > 0,
        !is_ws(s[0]),
        !is_ws(s.last()),
    ensures
        trim_spec(s) == s,
{
    assert(trim_start_spec(s) == s);
}

/// An absolute path made of clean components none of which ends in
/// whitespace is already normal.
pub proof fn lemma_normalize_fixed(cs: Seq<Seq<char>>)
    requires
        clean_comps(cs),
        untrimmed_comps(cs),
    ensures
        normalize_spec(seq!['/'] + join_spec(cs, seq!['/'])) == seq!['/'] + join_spec(cs, seq!['/']),
{
    let p = seq!['/'] + join_spec(cs, seq!['/']);
    if cs.len() > 0 {
        assert(clean_comp(cs[cs.len() - 1]));
        assert(!is_ws(cs[cs.len() - 1].last()));
        lemma_join_last(cs);
        assert(p.last() == join_spec(cs, seq!['/']).last());
    }
    assert(!is_ws('/')) by {
        assert(('/' as u32) == 0x2f);
    }
    lemma_trim_id(p);
    assert(p.drop_first() =~= join_spec(cs, seq!['/']));
    if cs.len() > 0 {
        assert forall|i: int| 0 <= i < cs.len() implies free_of(#[trigger] cs[i], '/') by {
            assert(clean_comp(cs[i]));
        }
        lemma_split_join(cs);
        lemma_norm_id(cs);
    } else {
        assert(join_spec(cs, seq!['/']) =~= seq![]);
        assert(split_state(Seq::<char>::empty(), '/') == (Seq::<Seq<char>>::empty(), Seq::<char>::empty()));
        assert(split_on(Seq::<char>::empty(), '/') =~= seq![Seq::<char>::empty()]);
        let ps = seq![Seq::<char>::empty()];
        assert(ps.drop_last() =~= Seq::<Seq<char>>::empty());
        assert(norm_comps(ps.drop_last()).len() == 0);
        assert(ps.last().len() == 0);
        assert(norm_comps(ps) == norm_comps(ps.drop_last()));
    }
}

/// What an absolute normal form is made of: `/` and clean components.
pub proof fn lemma_normalize_shape(p: Seq<char>)
    ensures
        ({
            let n = normalize_spec(p);
            let t = trim_spec(p);
            (n.len() > 0 && n[0] == '/') ==> t.len() > 0 && t[0] == '/' && n == seq!['/'] + join_spec(
                norm_comps(split_on(t.drop_first(), '/')),
                seq!['/'],
            ) && clean_comps(norm_comps(split_on(t.drop_first(), '/')))
        }),
{
    let t = trim_spec(p);
    let abs = t.len() > 0 && t[0] == '/';
    let rest = if abs {
        t.drop_first()
    } else {
        t
    };
    lemma_split_on_free(rest, '/');
    lemma_norm_clean(split_on(rest, '/'));
    let cs = norm_comps(split_on(rest, '/'));
    if !abs && cs.len() > 0 {
        assert(clean_comp(cs[0]));
        lemma_join_first(cs);
        assert(cs[0][0] != '/');
    }
}

/// Normalizing is idempotent: a normal form that has no whitespace at its
/// ends is its own normal form.
pub proof fn law_normalize_idempotent(p: Seq<char>)
    requires
        trim_spec(normalize_spec(p)) == normalize_spec(p),
    ensures
        normalize_spec(normalize_spec(p)) == normalize_spec(p),
{
    let n = normalize_spec(p);
    let t = trim_spec(p);
    let abs = t.len() > 0 && t[0] == '/';
    let rest = if abs {
        t.drop_first()
    } else {
        t
    };
    lemma_split_on_free(rest, '/');
    lemma_norm_clean(split_on(rest, '/'));
    let cs = norm_comps(split_on(rest, '/'));
    if cs.len() > 0 {
        assert forall|i: int| 0 <= i < cs.len() implies free_of(#[trigger] cs[i], '/') by {
            assert(clean_comp(cs[i]));
        }
        lemma_split_join(cs);
        lemma_norm_id(cs);
        assert(clean_comp(cs[0]));
        lemma_join_first(cs);
    }
    if abs {
        assert(n[0] == '/');
        assert(n.drop_first() =~= join_spec(cs, seq!['/']));
        if cs.len() == 0 {
            assert(join_spec(cs, seq!['/']) =~= seq![]);
            assert(split_state(Seq::<char>::empty(), '/') == (Seq::<Seq<char>>::empty(), Seq::<char>::empty()));
            assert(split_on(Seq::<char>::empty(), '/') =~= seq![Seq::<char>::empty()]);
            let ps = seq![Seq::<char>::empty()];
            assert(ps.drop_last() =~= Seq::<Seq<char>>::empty());
            assert(norm_comps(ps) == norm_comps(ps.drop_last()));
        }
    } else if cs.len() == 0 {
        let d = seq!['.'];
        assert(n == d);
        assert(d.drop_last() =~= Seq::<char>::empty());
        assert(split_state(Seq::<char>::empty(), '/') == (Seq::<Seq<char>>::empty(), Seq::<char>::empty()));
        assert(Seq::<char>::empty().push('.') =~= d);
        assert(split_state(d, '/') == (Seq::<Seq<char>>::empty(), d));
        let ps = seq![d];
        assert(split_on(d, '/') =~= ps);
        assert(ps.drop_last() =~= Seq::<Seq<char>>::empty());
        assert(ps.last() == d);
        assert(norm_comps(ps) == norm_comps(ps.drop_last()));
    } else {
        assert(n == join_spec(cs, seq!['/']));
        assert(n[0] != '/');
    }
}

/// No character of a text is whitespace.
pub open spec fn no_ws(s: Seq<char>) -> bool {
    forall|i: int| 0 <= i < s.len() ==> !is_ws(#[trigger] s[i])
}

proof fn lemma_split_state_no_ws(s: Seq<char>, sep: char)
    requires
        no_ws(s),
    ensures
        forall|i: int| 0 <= i < split_state(s, sep).0.len() ==> no_ws(#[trigger] split_state(s, sep).0[i]),
        no_ws(split_state(s, sep).1),
    decreases s.len(),
{
    if s.len() > 0 {
        let t = s.drop_last();
        assert forall|i: int| 0 <= i < t.len() implies !is_ws(#[trigger] t[i]) by {
            assert(t[i] == s[i]);
        }
        lemma_split_state_no_ws(t, sep);
        let (done, cur) = split_state(t, sep);
        if s.last() == sep {
            assert forall|i: int| 0 <= i < done.push(cur).len() implies no_ws(#[trigger] done.push(cur)[i]) by {
                if i < done.len() {
                    assert(done.push(cur)[i] == done[i]);
                }
            }
        } else {
            assert(!is_ws(s[s.len() - 1]));
            assert forall|j: int| 0 <= j < cur.push(s.last()).len() implies !is_ws(
                #[trigger] cur.push(s.last())[j],
            ) by {
                if j < cur.len() {
                    assert(cur.push(s.last())[j] == cur[j]);
                }
            }
        }
    }
}

proof fn lemma_norm_no_ws(parts: Seq<Seq<char>>)
    requires
        forall|i: int| 0 <= i < parts.len() ==> no_ws(#[trigger] parts[i]),
    ensures
        forall|i: int| 0 <= i < norm_comps(parts).len() ==> no_ws(#[trigger] norm_comps(parts)[i]),
    decreases parts.len(),
{
    if parts.len() > 0 {
        let t = parts.drop_last();
        assert forall|i: int| 0 <= i < t.len() implies no_ws(#[trigger] t[i]) by {
            assert(t[i] == parts[i]);
        }
        lemma_norm_no_ws(t);
        let acc = norm_comps(t);
        let l = parts.last();
        assert(no_ws(parts[parts.len() - 1]));
        if l.len() == 0 || l == seq!['.'] {
        } else if l == seq!['.', '.'] {
            if acc.len() > 0 {
                assert forall|i: int| 0 <= i < acc.drop_last().len() implies no_ws(
                    #[trigger] acc.drop_last()[i],
                ) by {
                    assert(acc.drop_last()[i] == acc[i]);
                }
            }
        } else {
            assert forall|i: int| 0 <= i < acc.push(l).len() implies no_ws(#[trigger] acc.push(l)[i]) by {
                if i < acc.len() {
                    assert(acc.push(l)[i] == acc[i]);
                }
            }
        }
    }
}

/// The normal form of a path without whitespace: it is its own normal
/// form; it is absolute exactly when the path is; and it is `/`, `.`, or
/// made of components none of which is empty, `.` or `..`.
pub proof fn law_normalize_form(p: Seq<char>)
    requires
        no_ws(p),
    ensures
        ({
            let n = normalize_spec(p);
            &&& normalize_spec(n) == n
            &&& (p.len() > 0 && p[0] == '/') == (n.len() > 0 && n[0] == '/')
            &&& n.len() > 0
            &&& (n == seq!['/'] || n == seq!['.'] || clean_comps(
                split_on(
                    if n[0] == '/' {
                        n.drop_first()
                    } else {
                        n
                    },
                    '/',
                ),
            ))
        }),
{
    let n = normalize_spec(p);
    if p.len() > 0 {
        assert(!is_ws(p[0]) && !is_ws(p[p.len() - 1]));
        lemma_trim_id(p);
    } else {
        assert(trim_start_spec(p) == p);
        assert(trim_end_spec(p) == p);
    }
    let t = trim_spec(p);
    assert(t == p);
    let abs = t.len() > 0 && t[0] == '/';
    let rest = if abs {
        t.drop_first()
    } else {
        t
    };
    assert(no_ws(rest)) by {
        if abs {
            assert forall|i: int| 0 <= i < rest.len() implies !is_ws(#[trigger] rest[i]) by {
                assert(rest[i] == t[i + 1]);
            }
        }
    }
    lemma_split_on_free(rest, '/');
    lemma_norm_clean(split_on(rest, '/'));
    lemma_split_state_no_ws(rest, '/');
    let ps = split_on(rest, '/');
    assert forall|i: int| 0 <= i < ps.len() implies no_ws(#[trigger] ps[i]) by {
        if i < split_state(rest, '/').0.len() {
            assert(ps[i] == split_state(rest, '/').0[i]);
        }
    }
    lemma_norm_no_ws(ps);
    let cs = norm_comps(ps);
    assert(!is_ws('/')) by {
        assert(('/' as u32) == 0x2f);
    }
    assert(!is_ws('.')) by {
        assert(('.' as u32) == 0x2e);
    }
    if cs.len() > 0 {
        assert forall|i: int| 0 <= i < cs.len() implies free_of(#[trigger] cs[i], '/') by {
            assert(clean_comp(cs[i]));
        }
        lemma_split_join(cs);
        assert(clean_comp(cs[0]));
        lemma_join_first(cs);
        assert(clean_comp(cs[cs.len() - 1]));
        lemma_join_last(cs);
        assert(no_ws(cs[0]));
        assert(no_ws(cs[cs.len() - 1]));
        assert(!is_ws(cs[0][0]));
        assert(!is_ws(cs.last().last()));
    }
    if abs {
        assert(n[0] == '/');
        assert(n.drop_first() =~= join_spec(cs, seq!['/']));
        if cs.len() == 0 {
            assert(n =~= seq!['/']);
        } else {
            assert(n.last() == join_spec(cs, seq!['/']).last());
        }
    } else if cs.len() == 0 {
        assert(n == seq!['.']);
    } else {
        assert(n == join_spec(cs, seq!['/']));
    }
    lemma_trim_id(n);
    law_normalize_idempotent(p);
}

} // verus!
