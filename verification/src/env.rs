//! In-memory environment: variables and the current working directory.
use crate::assoc::{
    assoc, has_key, lemma_assoc_absent, lemma_assoc_first, lemma_assoc_push_new,
    lemma_assoc_update_first, lemma_assoc_without_key, without_key,
};
use crate::text::{word_char, chars_of, is_alphanumeric, push_all, string_of, subvec};
use vstd::prelude::*;

verus! {

/// The keys and values of a list of string pairs, as character sequences.
pub open spec fn pair_views(s: Seq<(String, String)>) -> Seq<(Seq<char>, Seq<char>)> {
    Seq::new(s.len(), |i: int| (s[i].0@, s[i].1@))
}

/// The value of a variable, or nothing when it is unset.
pub open spec fn lookup_or_empty(m: Map<Seq<char>, Seq<char>>, k: Seq<char>) -> Seq<char> {
    if m.contains_key(k) {
        m[k]
    } else {
        seq![]
    }
}

/// The variables of a fresh environment.
pub open spec fn default_vars() -> Map<Seq<char>, Seq<char>> {
    Map::<Seq<char>, Seq<char>>::empty().insert("HOME"@, "/home/user"@).insert(
        "USER"@,
        "user"@,
    ).insert("SHELL"@, "/bin/just-bash"@).insert("PATH"@, "/usr/bin:/bin"@).insert(
        "PWD"@,
        "/"@,
    ).insert("?"@, "0"@)
}

/// In-memory environment: variables and current working directory.
pub struct Env {
    vars: Vec<(String, String)>,
    cwd: String,
}

/// Length of the longest prefix made of alphanumeric characters and `_`.
pub open spec fn name_run(t: Seq<char>) -> nat
    decreases t.len(),
{
    if t.len() > 0 && (word_char(t[0]) || t[0] == '_') {
        1 + name_run(t.drop_first())
    } else {
        0
    }
}

/// Position of the first `}` (or the length when there is none).
pub open spec fn brace_end(t: Seq<char>) -> nat
    decreases t.len(),
{
    if t.len() == 0 || t[0] == '}' {
        0
    } else {
        1 + brace_end(t.drop_first())
    }
}

/// What `Env::expand` makes of a text: `$NAME`, `${NAME}`, `$?` and `$!`
/// are replaced by the variable's value (nothing when unset), `$$` becomes
/// `$`, and a `$` before anything else stays as it is.
pub open spec fn env_expand_spec(m: Map<Seq<char>, Seq<char>>, s: Seq<char>) -> Seq<char>
    decreases s.len(),
{
    if s.len() == 0 {
        seq![]
    } else if s[0] != '$' {
        seq![s[0]] + env_expand_spec(m, s.drop_first())
    } else {
        let t = s.drop_first();
        if t.len() == 0 {
            seq!['$']
        } else if t[0] == '{' {
            let u = t.drop_first();
            let e = brace_end(u);
            proof {
                lemma_brace_end_bound(u);
            }
            let rest = if e < u.len() {
                u.skip(e + 1int)
            } else {
                u.skip(e as int)
            };
            lookup_or_empty(m, u.take(e as int)) + env_expand_spec(m, rest)
        } else if t[0] == '?' || t[0] == '!' {
            lookup_or_empty(m, seq![t[0]]) + env_expand_spec(m, t.drop_first())
        } else if t[0] == '$' {
            seq!['$'] + env_expand_spec(m, t.drop_first())
        } else if word_char(t[0]) || t[0] == '_' {
            let r = name_run(t);
            proof {
                lemma_name_run_bound(t);
            }
            lookup_or_empty(m, t.take(r as int)) + env_expand_spec(m, t.skip(r as int))
        } else {
            seq!['$'] + env_expand_spec(m, t)
        }
    }
}

pub proof fn lemma_brace_end_bound(t: Seq<char>)
    ensures
        brace_end(t) <= t.len(),
        brace_end(t) < t.len() ==> t[brace_end(t) as int] == '}',
        forall|j: int| 0 <= j < brace_end(t) ==> t[j] != '}',
    decreases t.len(),
{
    if t.len() > 0 && t[0] != '}' {
        lemma_brace_end_bound(t.drop_first());
        assert forall|j: int| 0 <= j < brace_end(t) implies t[j] != '}' by {
            if j > 0 {
                assert(t[j] == t.drop_first()[j - 1]);
            }
        }
    }
}

pub proof fn lemma_name_run_bound(t: Seq<char>)
    ensures
        name_run(t) <= t.len(),
        name_run(t) < t.len() ==> !(word_char(t[name_run(t) as int]) || t[name_run(t) as int]
            == '_'),
        forall|j: int| 0 <= j < name_run(t) ==> word_char(t[j]) || t[j] == '_',
    decreases t.len(),
{
    if t.len() > 0 && (word_char(t[0]) || t[0] == '_') {
        lemma_name_run_bound(t.drop_first());
        assert forall|j: int| 0 <= j < name_run(t) implies word_char(t[j]) || t[j] == '_' by {
            if j > 0 {
                assert(t[j] == t.drop_first()[j - 1]);
            }
        }
    }
}

/// The first position at or after `i` that holds `}`, or the length.
fn scan_brace(c: &Vec<char>, i: usize) -> (j: usize)
    requires
        i <= c@.len(),
    ensures
        j == i + brace_end(c@.skip(i as int)),
        j <= c@.len(),
{
    let mut j = i;
    proof {
        lemma_brace_end_bound(c@.skip(i as int));
    }
    while j < c.len() && c[j] != '}'
        invariant
            i <= j <= c@.len(),
            brace_end(c@.skip(i as int)) == (j - i) + brace_end(c@.skip(j as int)),
        decreases c@.len() - j,
    {
        assert(c@.skip(j as int).drop_first() =~= c@.skip(j + 1));
        j = j + 1;
    }
    j
}

/// The end of the run of name characters (alphanumeric or `_`) starting at `i`.
fn scan_name(c: &Vec<char>, i: usize) -> (j: usize)
    requires
        i <= c@.len(),
    ensures
        j == i + name_run(c@.skip(i as int)),
        j <= c@.len(),
{
    let mut j = i;
    proof {
        lemma_name_run_bound(c@.skip(i as int));
    }
    while j < c.len() && (is_alphanumeric(c[j]) || c[j] == '_')
        invariant
            i <= j <= c@.len(),
            name_run(c@.skip(i as int)) == (j - i) + name_run(c@.skip(j as int)),
        decreases c@.len() - j,
    {
        assert(c@.skip(j as int).drop_first() =~= c@.skip(j + 1));
        j = j + 1;
    }
    assert(j < c@.len() ==> c@.skip(j as int)[0] == c@[j as int]);
    j
}

impl Env {
    /// The variables, as a map from name to value.
    pub closed spec fn vars_view(&self) -> Map<Seq<char>, Seq<char>> {
        assoc(pair_views(self.vars@))
    }

    /// The current working directory.
    pub closed spec fn cwd_view(&self) -> Seq<char> {
        self.cwd@
    }

    /// Create a new environment with sensible defaults.
    pub fn new() -> (e: Self)
        ensures
            e.vars_view() == default_vars(),
            e.cwd_view() == "/"@,
    {
        let mut e = Env { vars: Vec::new(), cwd: String::from_str("/") };
        assert(e.vars_view() =~= Map::empty());
        e.set("HOME", "/home/user");
        e.set("USER", "user");
        e.set("SHELL", "/bin/just-bash");
        e.set("PATH", "/usr/bin:/bin");
        e.set("PWD", "/");
        e.set("?", "0");
        e
    }

    fn find_var(&self, key: &str) -> (r: Option<usize>)
        ensures
            match r {
                Some(i) => i < self.vars@.len() && self.vars@[i as int].0@ == key@ && forall|j: int|
                    0 <= j < i ==> (#[trigger] self.vars@[j]).0@ != key@,
                None => forall|j: int|
                    0 <= j < self.vars@.len() ==> (#[trigger] self.vars@[j]).0@ != key@,
            },
    {
        let k = key.to_owned();
        let mut i: usize = 0;
        while i < self.vars.len()
            invariant
                i <= self.vars@.len(),
                k@ == key@,
                forall|j: int| 0 <= j < i ==> (#[trigger] self.vars@[j]).0@ != key@,
            decreases self.vars@.len() - i,
        {
            if self.vars[i].0 == k {
                return Some(i);
            }
            i = i + 1;
        }
        None
    }

    /// Get an environment variable.
    pub fn get(&self, key: &str) -> (r: Option<&str>)
        ensures
            match r {
                Some(v) => self.vars_view().contains_key(key@) && v@ == self.vars_view()[key@],
                None => !self.vars_view().contains_key(key@),
            },
    {
        let ghost pv = pair_views(self.vars@);
        match self.find_var(key) {
            Some(i) => {
                proof {
                    assert forall|j: int| 0 <= j < i implies (#[trigger] pv[j]).0 != pv[i as int].0 by {
                        assert(pv[j].0 == self.vars@[j].0@);
                    }
                    lemma_assoc_first(pv, i as int);
                }
                Some(self.vars[i].1.as_str())
            },
            None => {
                proof {
                    assert forall|j: int| 0 <= j < pv.len() implies (#[trigger] pv[j]).0 != key@ by {
                        assert(pv[j].0 == self.vars@[j].0@);
                    }
                    lemma_assoc_absent(pv, key@);
                }
                None
            },
        }
    }

    /// Set an environment variable.
    pub fn set(&mut self, key: &str, value: &str)
        ensures
            final(self).vars_view() == old(self).vars_view().insert(key@, value@),
            final(self).cwd_view() == old(self).cwd_view(),
    {
        let ghost pv = pair_views(self.vars@);
        let k = key.to_owned();
        let v = value.to_owned();
        match self.find_var(key) {
            Some(i) => {
                proof {
                    assert forall|j: int| 0 <= j < i implies (#[trigger] pv[j]).0 != pv[i as int].0 by {
                        assert(pv[j].0 == self.vars@[j].0@);
                    }
                    lemma_assoc_update_first(pv, i as int, value@);
                }
                self.vars.set(i, (k, v));
                assert(pair_views(self.vars@) =~= pv.update(i as int, (key@, value@)));
            },
            None => {
                proof {
                    assert forall|j: int| 0 <= j < pv.len() implies (#[trigger] pv[j]).0 != key@ by {
                        assert(pv[j].0 == self.vars@[j].0@);
                    }
                    if has_key(pv, key@) {
                        let j = choose|j: int| 0 <= j < pv.len() && (#[trigger] pv[j]).0 == key@;
                        assert(false);
                    }
                    lemma_assoc_push_new(pv, key@, value@);
                }
                self.vars.push((k, v));
                assert(pair_views(self.vars@) =~= pv.push((key@, value@)));
            },
        }
    }

    /// Remove an environment variable.
    pub fn remove(&mut self, key: &str)
        ensures
            final(self).vars_view() == old(self).vars_view().remove(key@),
            final(self).cwd_view() == old(self).cwd_view(),
    {
        let ghost pv = pair_views(self.vars@);
        let k = key.to_owned();
        let mut kept: Vec<(String, String)> = Vec::new();
        let mut i: usize = 0;
        while i < self.vars.len()
            invariant
                i <= self.vars@.len(),
                k@ == key@,
                pv == pair_views(self.vars@),
                pair_views(kept@) == without_key(pv.take(i as int), key@),
            decreases self.vars@.len() - i,
        {
            let ghost before = pair_views(kept@);
            assert(pv.take(i + 1).drop_last() =~= pv.take(i as int));
            assert(pv.take(i + 1).last() == pv[i as int]);
            if !(self.vars[i].0 == k) {
                let e = (self.vars[i].0.clone(), self.vars[i].1.clone());
                kept.push(e);
                assert(pair_views(kept@) =~= before.push(pv[i as int]));
            }
            i = i + 1;
        }
        assert(pv.take(self.vars@.len() as int) =~= pv);
        proof {
            lemma_assoc_without_key(pv, key@);
        }
        self.vars = kept;
    }

    /// Get the current working directory.
    pub fn cwd(&self) -> (r: &str)
        ensures
            r@ == self.cwd_view(),
    {
        self.cwd.as_str()
    }

    /// Set the current working directory (and `PWD`).
    pub fn set_cwd(&mut self, path: &str)
        ensures
            final(self).cwd_view() == path@,
            final(self).vars_view() == old(self).vars_view().insert("PWD"@, path@),
    {
        self.cwd = path.to_owned();
        self.set("PWD", path);
    }

    pub(crate) fn lookup_chars(&self, name: &[char]) -> (r: Vec<char>)
        ensures
            r@ == lookup_or_empty(self.vars_view(), name@),
    {
        let s = string_of(name);
        match self.get(s.as_str()) {
            Some(v) => chars_of(v),
            None => Vec::new(),
        }
    }

    /// Expand `$VAR` and `${VAR}` in a string.
    /// Also handles `$?` (last exit status), `$$` (pid), `$!`.
    pub fn expand(&self, input: &str) -> (r: String)
        ensures
            r@ == env_expand_spec(self.vars_view(), input@),
    {
        let c = chars_of(input);
        let ghost m = self.vars_view();
        let mut out: Vec<char> = Vec::new();
        let mut i: usize = 0;
        assert(c@.skip(0) =~= c@);
        while i < c.len()
            invariant
                i <= c@.len(),
                m == self.vars_view(),
                out@ + env_expand_spec(m, c@.skip(i as int)) == env_expand_spec(m, c@),
            decreases c@.len() - i,
        {
            let ghost s = c@.skip(i as int);
            let ghost t = s.drop_first();
            assert(s[0] == c@[i as int]);
            assert(t =~= c@.skip(i + 1));
            if c[i] == '$' {
                i = i + 1;
                if i >= c.len() {
                    out.push('$');
                    assert(c@.skip(i as int) =~= seq![]);
                    assert(out@ + env_expand_spec(m, c@.skip(i as int)) =~= env_expand_spec(m, c@));
                } else if c[i] == '{' {
                    assert(t[0] == c@[i as int]);
                    let start = i + 1;
                    let ghost u = t.drop_first();
                    assert(u =~= c@.skip(start as int));
                    let j = scan_brace(&c, start);
                    let name = subvec(c.as_slice(), start, j);
                    assert(name@ =~= u.take(brace_end(u) as int));
                    let val = self.lookup_chars(name.as_slice());
                    let ghost before = out@;
                    push_all(&mut out, val.as_slice());
                    if j < c.len() {
                        i = j + 1;
                        assert(c@.skip(i as int) =~= u.skip(brace_end(u) + 1int));
                    } else {
                        i = j;
                        assert(c@.skip(i as int) =~= u.skip(brace_end(u) as int));
                    }
                    assert(out@ + env_expand_spec(m, c@.skip(i as int)) =~= before + env_expand_spec(m, s));
                } else if c[i] == '?' || c[i] == '!' {
                    assert(t[0] == c@[i as int]);
                    let mut name: Vec<char> = Vec::new();
                    name.push(c[i]);
                    let val = self.lookup_chars(name.as_slice());
                    let ghost before = out@;
                    push_all(&mut out, val.as_slice());
                    i = i + 1;
                    assert(c@.skip(i as int) =~= t.drop_first());
                    assert(name@ =~= seq![t[0]]);
                    assert(out@ + env_expand_spec(m, c@.skip(i as int)) =~= before + env_expand_spec(m, s));
                } else if c[i] == '$' {
                    assert(t[0] == c@[i as int]);
                    let ghost before = out@;
                    out.push('$');
                    i = i + 1;
                    assert(c@.skip(i as int) =~= t.drop_first());
                    assert(out@ + env_expand_spec(m, c@.skip(i as int)) =~= before + env_expand_spec(m, s));
                } else if is_alphanumeric(c[i]) || c[i] == '_' {
                    assert(t[0] == c@[i as int]);
                    let j = scan_name(&c, i);
                    let name = subvec(c.as_slice(), i, j);
                    assert(name@ =~= t.take(name_run(t) as int));
                    let val = self.lookup_chars(name.as_slice());
                    let ghost before = out@;
                    push_all(&mut out, val.as_slice());
                    i = j;
                    assert(c@.skip(i as int) =~= t.skip(name_run(t) as int));
                    assert(out@ + env_expand_spec(m, c@.skip(i as int)) =~= before + env_expand_spec(m, s));
                } else {
                    assert(t[0] == c@[i as int]);
                    let ghost before = out@;
                    out.push('$');
                    assert(out@ + env_expand_spec(m, c@.skip(i as int)) =~= before + env_expand_spec(m, s));
                }
            } else {
                let ghost before = out@;
                out.push(c[i]);
                i = i + 1;
                assert(out@ + env_expand_spec(m, c@.skip(i as int)) =~= before + env_expand_spec(m, s));
            }
        }
        assert(c@.skip(i as int) =~= seq![]);
        assert(out@ =~= env_expand_spec(m, c@));
        string_of(out.as_slice())
    }
}

impl Default for Env {
    fn default() -> (e: Self)
        ensures
            e.vars_view() == default_vars(),
            e.cwd_view() == "/"@,
    {
        Self::new()
    }
}

// ══════════════════════════════════════════════════════════════════
// Laws
// ══════════════════════════════════════════════════════════════════

/// After `set(key, value)`, `get(key)` gives `value`, and every other
/// variable is as it was.
pub proof fn law_set_then_get(vars: Map<Seq<char>, Seq<char>>, key: Seq<char>, value: Seq<char>, other: Seq<char>)
    requires
        other != key,
    ensures
        vars.insert(key, value).contains_key(key),
        vars.insert(key, value)[key] == value,
        vars.insert(key, value).contains_key(other) == vars.contains_key(other),
        vars.contains_key(other) ==> vars.insert(key, value)[other] == vars[other],
{
}

/// After `remove(key)`, `get(key)` gives nothing, and every other variable
/// is as it was.
pub proof fn law_remove_then_get(vars: Map<Seq<char>, Seq<char>>, key: Seq<char>, other: Seq<char>)
    requires
        other != key,
    ensures
        !vars.remove(key).contains_key(key),
        vars.remove(key).contains_key(other) == vars.contains_key(other),
        vars.contains_key(other) ==> vars.remove(key)[other] == vars[other],
{
}

/// A name made of letters, digits and `_` is read whole by `name_run`.
proof fn lemma_name_run_all(t: Seq<char>)
    requires
        forall|j: int| 0 <= j < t.len() ==> word_char(t[j]) || t[j] == '_',
    ensures
        name_run(t) == t.len(),
    decreases t.len(),
{
    if t.len() > 0 {
        assert(word_char(t[0]) || t[0] == '_');
        let u = t.drop_first();
        assert forall|j: int| 0 <= j < u.len() implies word_char(u[j]) || u[j] == '_' by {
            assert(u[j] == t[j + 1]);
        }
        lemma_name_run_all(u);
    }
}

/// After `set(name, value)`, expanding `$name` gives `value` (for a
/// name made of letters, digits and `_`).
pub proof fn law_set_then_expand(vars: Map<Seq<char>, Seq<char>>, name: Seq<char>, value: Seq<char>)
    requires
        name.len() > 0,
        forall|j: int| 0 <= j < name.len() ==> word_char(name[j]) || name[j] == '_',
    ensures
        env_expand_spec(vars.insert(name, value), seq!['$'] + name) == value,
{
    let m = vars.insert(name, value);
    let s = seq!['$'] + name;
    assert(s.drop_first() =~= name);
    lemma_name_run_all(name);
    assert(name.take(name.len() as int) =~= name);
    assert(name.skip(name.len() as int) =~= Seq::<char>::empty());
    assert(env_expand_spec(m, Seq::<char>::empty()) == Seq::<char>::empty());
    assert(value + Seq::<char>::empty() =~= value);
}

/// After `set(name, value)`, expanding `${name}` gives `value` (for a name
/// without `}`).
pub proof fn law_set_then_expand_braced(vars: Map<Seq<char>, Seq<char>>, name: Seq<char>, value: Seq<char>)
    requires
        forall|j: int| 0 <= j < name.len() ==> name[j] != '}',
    ensures
        env_expand_spec(vars.insert(name, value), seq!['$', '{'] + name + seq!['}']) == value,
{
    let m = vars.insert(name, value);
    let s = seq!['$', '{'] + name + seq!['}'];
    let u = s.drop_first().drop_first();
    assert(s.drop_first()[0] == '{');
    assert(u =~= name.push('}'));
    lemma_brace_end_of(name);
    assert(u.take(name.len() as int) =~= name);
    assert(u.skip(name.len() + 1int) =~= Seq::<char>::empty());
    assert(env_expand_spec(m, Seq::<char>::empty()) == Seq::<char>::empty());
    assert(value + Seq::<char>::empty() =~= value);
}

proof fn lemma_brace_end_of(name: Seq<char>)
    requires
        forall|j: int| 0 <= j < name.len() ==> name[j] != '}',
    ensures
        brace_end(name.push('}')) == name.len(),
    decreases name.len(),
{
    if name.len() > 0 {
        let u = name.drop_first();
        assert forall|j: int| 0 <= j < u.len() implies u[j] != '}' by {
            assert(u[j] == name[j + 1]);
        }
        lemma_brace_end_of(u);
        assert(name.push('}').drop_first() =~= u.push('}'));
        assert(name.push('}')[0] == name[0]);
    }
}

/// A text without `$` expands to itself, whatever the variables.
pub proof fn law_expand_plain(vars: Map<Seq<char>, Seq<char>>, s: Seq<char>)
    requires
        forall|j: int| 0 <= j < s.len() ==> s[j] != '$',
    ensures
        env_expand_spec(vars, s) == s,
    decreases s.len(),
{
    if s.len() > 0 {
        let t = s.drop_first();
        assert forall|j: int| 0 <= j < t.len() implies t[j] != '$' by {
            assert(t[j] == s[j + 1]);
        }
        law_expand_plain(vars, t);
        assert(seq![s[0]] + t =~= s);
    }
}

} // verus!
