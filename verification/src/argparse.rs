//! Command metadata, a standardized argument parser and help formatting.
use crate::assoc::{
    assoc, has_key, lemma_assoc_absent, lemma_assoc_contains, lemma_assoc_first,
    lemma_assoc_push_new, lemma_assoc_update_first,
};
use crate::text::{
    all_digits, chars_eq, chars_of, is_digit, lines, lines_of, push_all, push_str, string_of,
    subvec, views,
};
use vstd::prelude::*;
use vstd::utf8::{encode_scalar, encode_utf8};

verus! {

// ══════════════════════════════════════════════════════════════════
// Metadata types
// ══════════════════════════════════════════════════════════════════

/// How a command uses stdin.
#[derive(Debug, Clone, Copy)]
pub enum StdinBehavior {
    Never,
    Optional,
    Required,
}

/// Definition of a command-line flag.
#[derive(Debug, Clone, Copy)]
pub struct FlagMeta {
    pub short: char,
    pub long: Option<&'static str>,
    pub takes_value: bool,
    pub value_hint: &'static str,
    pub description: &'static str,
}

/// Definition of a positional argument.
#[derive(Debug, Clone, Copy)]
pub struct PositionalMeta {
    pub name: &'static str,
    pub required: bool,
    pub variadic: bool,
    pub description: &'static str,
}

/// Full metadata for a command.
#[derive(Debug, Clone, Copy)]
pub struct CommandMeta {
    pub name: &'static str,
    pub synopsis: &'static str,
    pub description: &'static str,
    pub details: &'static str,
    pub flags: &'static [FlagMeta],
    pub positional: &'static [PositionalMeta],
    pub stdin: StdinBehavior,
}

// ══════════════════════════════════════════════════════════════════
// Parsed result
// ══════════════════════════════════════════════════════════════════

/// Value of a parsed flag.
#[derive(Debug, Clone, PartialEq)]
pub enum FlagValue {
    Bool(bool),
    Value(String),
}

/// A flag value with its text as characters.
pub enum FlagView {
    Bool(bool),
    Value(Seq<char>),
}

impl FlagValue {
    pub open spec fn view(&self) -> FlagView {
        match self {
            FlagValue::Bool(b) => FlagView::Bool(*b),
            FlagValue::Value(v) => FlagView::Value(v@),
        }
    }

    pub fn is_set(&self) -> (r: bool)
        ensures
            r == flag_is_set(self.view()),
    {
        match self {
            FlagValue::Bool(b) => *b,
            FlagValue::Value(_) => true,
        }
    }

    pub fn value(&self) -> (r: Option<&str>)
        ensures
            match self.view() {
                FlagView::Value(v) => r is Some && r.unwrap()@ == v,
                FlagView::Bool(_) => r is None,
            },
    {
        match self {
            FlagValue::Value(v) => Some(v.as_str()),
            _ => None,
        }
    }
}

pub open spec fn flag_is_set(v: FlagView) -> bool {
    match v {
        FlagView::Bool(b) => b,
        FlagView::Value(_) => true,
    }
}

/// Result of parsing command arguments.
#[derive(Debug)]
pub struct ParsedArgs {
    pub flags: Vec<(char, FlagValue)>,
    pub positional: Vec<String>,
    pub errors: Vec<String>,
}

/// Parsed arguments as characters: the flags by their short name, the
/// positional arguments and the error messages.
#[verifier::ext_equal]
pub struct ArgsView {
    pub flags: Map<char, FlagView>,
    pub positional: Seq<Seq<char>>,
    pub errors: Seq<Seq<char>>,
}

pub open spec fn flag_pairs(v: Seq<(char, FlagValue)>) -> Seq<(char, FlagView)> {
    Seq::new(v.len(), |i: int| (v[i].0, v[i].1.view()))
}

pub open spec fn str_views(v: Seq<String>) -> Seq<Seq<char>> {
    Seq::new(v.len(), |i: int| v[i]@)
}

impl ParsedArgs {
    pub closed spec fn flags_view(&self) -> Map<char, FlagView> {
        assoc(flag_pairs(self.flags@))
    }

    fn find(&self, short: char) -> (r: Option<usize>)
        ensures
            match r {
                Some(i) => i < self.flags@.len() && self.flags@[i as int].0 == short && forall|j: int|
                    0 <= j < i ==> (#[trigger] self.flags@[j]).0 != short,
                None => forall|j: int|
                    0 <= j < self.flags@.len() ==> (#[trigger] self.flags@[j]).0 != short,
            },
    {
        let mut i: usize = 0;
        while i < self.flags.len()
            invariant
                i <= self.flags@.len(),
                forall|j: int| 0 <= j < i ==> (#[trigger] self.flags@[j]).0 != short,
            decreases self.flags@.len() - i,
        {
            if self.flags[i].0 == short {
                return Some(i);
            }
            i = i + 1;
        }
        None
    }

    fn get(&self, short: char) -> (r: Option<&FlagValue>)
        ensures
            match r {
                Some(v) => self.flags_view().contains_key(short) && self.flags_view()[short]
                    == v.view(),
                None => !self.flags_view().contains_key(short),
            },
    {
        let ghost pv = flag_pairs(self.flags@);
        match self.find(short) {
            Some(i) => {
                proof {
                    assert forall|j: int| 0 <= j < i implies (#[trigger] pv[j]).0 != pv[i as int].0 by {
                        assert(pv[j].0 == self.flags@[j].0);
                    }
                    lemma_assoc_first(pv, i as int);
                }
                Some(&self.flags[i].1)
            },
            None => {
                proof {
                    assert forall|j: int| 0 <= j < pv.len() implies (#[trigger] pv[j]).0 != short by {
                        assert(pv[j].0 == self.flags@[j].0);
                    }
                    lemma_assoc_absent(pv, short);
                }
                None
            },
        }
    }

    fn contains_key(&self, short: char) -> (r: bool)
        ensures
            r == self.flags_view().contains_key(short),
    {
        match self.get(short) {
            Some(_) => true,
            None => false,
        }
    }

    fn insert(&mut self, short: char, v: FlagValue)
        ensures
            final(self).flags_view() == old(self).flags_view().insert(short, v.view()),
            final(self).positional == old(self).positional,
            final(self).errors == old(self).errors,
    {
        let ghost pv = flag_pairs(self.flags@);
        let ghost vv = v.view();
        match self.find(short) {
            Some(i) => {
                proof {
                    assert forall|j: int| 0 <= j < i implies (#[trigger] pv[j]).0 != pv[i as int].0 by {
                        assert(pv[j].0 == self.flags@[j].0);
                    }
                    lemma_assoc_update_first(pv, i as int, vv);
                }
                self.flags.set(i, (short, v));
                assert(flag_pairs(self.flags@) =~= pv.update(i as int, (short, vv)));
            },
            None => {
                proof {
                    assert forall|j: int| 0 <= j < pv.len() implies (#[trigger] pv[j]).0 != short by {
                        assert(pv[j].0 == self.flags@[j].0);
                    }
                    if has_key(pv, short) {
                        let j = choose|j: int| 0 <= j < pv.len() && (#[trigger] pv[j]).0 == short;
                        assert(false);
                    }
                    lemma_assoc_push_new(pv, short, vv);
                }
                self.flags.push((short, v));
                assert(flag_pairs(self.flags@) =~= pv.push((short, vv)));
            },
        }
    }

    /// Check if a boolean flag is set.
    pub fn has_flag(&self, short: char) -> (r: bool)
        ensures
            r == (self.flags_view().contains_key(short) && flag_is_set(
                self.flags_view()[short],
            )),
    {
        match self.get(short) {
            Some(v) => v.is_set(),
            None => false,
        }
    }

    /// Get the value of a value-bearing flag.
    pub fn flag_value(&self, short: char) -> (r: Option<&str>)
        ensures
            match r {
                Some(s) => self.flags_view().contains_key(short) && self.flags_view()[short]
                    == FlagView::Value(s@),
                None => !(self.flags_view().contains_key(short) && self.flags_view()[short] is Value),
            },
    {
        match self.get(short) {
            Some(v) => v.value(),
            None => None,
        }
    }

    /// Get a boolean flag value (true if set, false otherwise).
    pub fn flag_bool(&self, short: char) -> (r: bool)
        ensures
            r == (self.flags_view().contains_key(short) && flag_is_set(
                self.flags_view()[short],
            )),
    {
        self.has_flag(short)
    }
}


// ══════════════════════════════════════════════════════════════════
// Parser
// ══════════════════════════════════════════════════════════════════

/// The last flag with the given short name (later definitions win).
pub open spec fn find_short(fl: Seq<FlagMeta>, ch: char) -> Option<int>
    decreases fl.len(),
{
    if fl.len() == 0 {
        None
    } else if fl.last().short == ch {
        Some(fl.len() - 1)
    } else {
        find_short(fl.drop_last(), ch)
    }
}

/// The short name of the last flag with the given long name.
pub open spec fn find_long(fl: Seq<FlagMeta>, name: Seq<char>) -> Option<char>
    decreases fl.len(),
{
    if fl.len() == 0 {
        None
    } else if fl.last().long is Some && fl.last().long.unwrap()@ == name {
        Some(fl.last().short)
    } else {
        find_long(fl.drop_last(), name)
    }
}

/// Every boolean flag starts out as `false`.
pub open spec fn initial_flags(fl: Seq<FlagMeta>) -> Map<char, FlagView>
    decreases fl.len(),
{
    if fl.len() == 0 {
        Map::empty()
    } else if !fl.last().takes_value {
        initial_flags(fl.drop_last()).insert(fl.last().short, FlagView::Bool(false))
    } else {
        initial_flags(fl.drop_last())
    }
}

/// The first value-bearing flag that has not been set yet.
pub open spec fn first_unset(fl: Seq<FlagMeta>, m: Map<char, FlagView>) -> Option<int>
    decreases fl.len(),
{
    if fl.len() == 0 {
        None
    } else if fl[0].takes_value && !m.contains_key(fl[0].short) {
        Some(0)
    } else {
        match first_unset(fl.drop_first(), m) {
            Some(k) => Some(k + 1),
            None => None,
        }
    }
}

pub open spec fn with_flag(st: ArgsView, ch: char, v: FlagView) -> ArgsView {
    ArgsView { flags: st.flags.insert(ch, v), positional: st.positional, errors: st.errors }
}

pub open spec fn with_error(st: ArgsView, e: Seq<char>) -> ArgsView {
    ArgsView { flags: st.flags, positional: st.positional, errors: st.errors.push(e) }
}

pub open spec fn with_positional(st: ArgsView, p: Seq<char>) -> ArgsView {
    ArgsView { flags: st.flags, positional: st.positional.push(p), errors: st.errors }
}

/// `-NAME` with more than one byte after the dash and no second dash.
pub open spec fn long_form(arg: Seq<char>) -> bool {
    arg.len() > 0 && arg[0] == '-' && encode_utf8(arg).len() > 2 && !(arg.len() > 1 && arg[1]
        == '-')
}

/// `-X...` with at least one character after the dash and no second dash.
pub open spec fn short_form(arg: Seq<char>) -> bool {
    arg.len() > 1 && arg[0] == '-' && arg[1] != '-'
}

pub open spec fn msg_requires_value(name: Seq<char>, what: Seq<char>) -> Seq<char> {
    name + ": option requires a value: "@ + what
}

pub open spec fn msg_invalid_option(name: Seq<char>, ch: char) -> Seq<char> {
    name + ": invalid option: -"@ + seq![ch]
}

/// Reading a cluster of short flags: boolean flags are set, a value flag
/// takes the rest of the cluster or else the next argument (reported by the
/// second component), unknown letters are errors.
pub open spec fn short_step(
    meta: CommandMeta,
    cs: Seq<char>,
    next: Option<Seq<char>>,
    st: ArgsView,
) -> (ArgsView, bool)
    decreases cs.len(),
{
    if cs.len() == 0 {
        (st, false)
    } else {
        let ch = cs[0];
        match find_short(meta.flags@, ch) {
            Some(k) => if meta.flags@[k].takes_value {
                let rest = cs.drop_first();
                if rest.len() > 0 {
                    (with_flag(st, ch, FlagView::Value(rest)), false)
                } else {
                    match next {
                        Some(n) => (with_flag(st, ch, FlagView::Value(n)), true),
                        None => (
                            with_error(st, msg_requires_value(meta.name@, seq!['-', ch])),
                            false,
                        ),
                    }
                }
            } else {
                short_step(meta, cs.drop_first(), next, with_flag(st, ch, FlagView::Bool(true)))
            },
            None => short_step(
                meta,
                cs.drop_first(),
                next,
                with_error(st, msg_invalid_option(meta.name@, ch)),
            ),
        }
    }
}

/// One argument that is not `--`: the new state and how many arguments it used.
pub open spec fn one_arg(meta: CommandMeta, arg: Seq<char>, r: Seq<Seq<char>>, st: ArgsView) -> (
    ArgsView,
    nat,
) {
    let fl = meta.flags@;
    let long = if long_form(arg) {
        match find_long(fl, arg.drop_first()) {
            Some(short) => match find_short(fl, short) {
                Some(k) => Some((short, k)),
                None => None,
            },
            None => None,
        }
    } else {
        None
    };
    match long {
        Some((short, k)) => if fl[k].takes_value {
            if r.len() > 0 {
                (with_flag(st, short, FlagView::Value(r[0])), 2)
            } else {
                (with_error(st, msg_requires_value(meta.name@, arg)), 1)
            }
        } else {
            (with_flag(st, short, FlagView::Bool(true)), 1)
        },
        None => if short_form(arg) {
            let cs = arg.drop_first();
            let numeric = cs.len() > 1 && all_digits(cs);
            if numeric && first_unset(fl, st.flags) is Some {
                (
                    with_flag(
                        st,
                        fl[first_unset(fl, st.flags).unwrap()].short,
                        FlagView::Value(cs),
                    ),
                    1,
                )
            } else {
                let next = if r.len() > 0 {
                    Some(r[0])
                } else {
                    None
                };
                let (st2, took) = short_step(meta, cs, next, st);
                (st2, if took {
                    2
                } else {
                    1
                })
            }
        } else {
            (with_positional(st, arg), 1)
        },
    }
}

pub proof fn lemma_short_step_took(
    meta: CommandMeta,
    cs: Seq<char>,
    next: Option<Seq<char>>,
    st: ArgsView,
)
    ensures
        short_step(meta, cs, next, st).1 ==> next is Some,
    decreases cs.len(),
{
    if cs.len() > 0 {
        let ch = cs[0];
        match find_short(meta.flags@, ch) {
            Some(k) => if !meta.flags@[k].takes_value {
                lemma_short_step_took(
                    meta,
                    cs.drop_first(),
                    next,
                    with_flag(st, ch, FlagView::Bool(true)),
                );
            },
            None => {
                lemma_short_step_took(
                    meta,
                    cs.drop_first(),
                    next,
                    with_error(st, msg_invalid_option(meta.name@, ch)),
                );
            },
        }
    }
}

pub proof fn lemma_one_arg_len(meta: CommandMeta, arg: Seq<char>, r: Seq<Seq<char>>, st: ArgsView)
    ensures
        1 <= one_arg(meta, arg, r, st).1 <= r.len() + 1,
{
    if short_form(arg) {
        let next = if r.len() > 0 {
            Some(r[0])
        } else {
            None
        };
        lemma_short_step_took(meta, arg.drop_first(), next, st);
    }
}

/// Reading the argument list from left to right; `--` makes all further
/// arguments positional.
pub open spec fn args_step(meta: CommandMeta, rest: Seq<Seq<char>>, st: ArgsView) -> ArgsView
    decreases rest.len(),
{
    if rest.len() == 0 {
        st
    } else if rest[0] == "--"@ {
        ArgsView {
            flags: st.flags,
            positional: st.positional + rest.drop_first(),
            errors: st.errors,
        }
    } else {
        let (st2, n) = one_arg(meta, rest[0], rest.drop_first(), st);
        proof {
            lemma_one_arg_len(meta, rest[0], rest.drop_first(), st);
        }
        args_step(meta, rest.skip(n as int), st2)
    }
}

/// What `parse_args` makes of an argument list.
pub open spec fn parse_args_spec(meta: CommandMeta, args: Seq<Seq<char>>) -> ArgsView {
    args_step(
        meta,
        args,
        ArgsView { flags: initial_flags(meta.flags@), positional: seq![], errors: seq![] },
    )
}

spec fn pview(p: ParsedArgs) -> ArgsView {
    ArgsView {
        flags: p.flags_view(),
        positional: str_views(p.positional@),
        errors: str_views(p.errors@),
    }
}

fn find_short_exec(fl: &[FlagMeta], ch: char) -> (r: Option<usize>)
    ensures
        match r {
            Some(k) => find_short(fl@, ch) == Some(k as int) && k < fl@.len() && fl@[k as int].short
                == ch,
            None => find_short(fl@, ch) is None,
        },
{
    let mut k = fl.len();
    assert(fl@.take(fl@.len() as int) =~= fl@);
    while k > 0
        invariant
            k <= fl@.len(),
            find_short(fl@, ch) == find_short(fl@.take(k as int), ch),
        decreases k,
    {
        assert(fl@.take(k as int).drop_last() =~= fl@.take(k - 1));
        assert(fl@.take(k as int).last() == fl@[k - 1]);
        if fl[k - 1].short == ch {
            return Some(k - 1);
        }
        k = k - 1;
    }
    None
}

fn find_long_exec(fl: &[FlagMeta], name: &[char]) -> (r: Option<char>)
    ensures
        r == find_long(fl@, name@),
{
    let mut k = fl.len();
    assert(fl@.take(fl@.len() as int) =~= fl@);
    while k > 0
        invariant
            k <= fl@.len(),
            find_long(fl@, name@) == find_long(fl@.take(k as int), name@),
        decreases k,
    {
        assert(fl@.take(k as int).drop_last() =~= fl@.take(k - 1));
        assert(fl@.take(k as int).last() == fl@[k - 1]);
        match fl[k - 1].long {
            Some(l) => {
                let lc = chars_of(l);
                if chars_eq(lc.as_slice(), name) {
                    return Some(fl[k - 1].short);
                }
            },
            None => {},
        }
        k = k - 1;
    }
    None
}

fn first_unset_exec(fl: &[FlagMeta], res: &ParsedArgs) -> (r: Option<usize>)
    ensures
        match r {
            Some(k) => first_unset(fl@, res.flags_view()) == Some(k as int) && k < fl@.len(),
            None => first_unset(fl@, res.flags_view()) is None,
        },
{
    let mut k: usize = 0;
    assert(fl@.skip(0) =~= fl@);
    while k < fl.len()
        invariant
            k <= fl@.len(),
            forall|j: int|
                0 <= j < k ==> !((#[trigger] fl@[j]).takes_value && !res.flags_view().contains_key(
                    fl@[j].short,
                )),
        decreases fl@.len() - k,
    {
        if fl[k].takes_value && !res.contains_key(fl[k].short) {
            proof {
                lemma_first_unset_at(fl@, res.flags_view(), k as int);
            }
            return Some(k);
        }
        k = k + 1;
    }
    proof {
        lemma_first_unset_none(fl@, res.flags_view());
    }
    None
}

proof fn lemma_first_unset_at(fl: Seq<FlagMeta>, m: Map<char, FlagView>, k: int)
    requires
        0 <= k < fl.len(),
        fl[k].takes_value && !m.contains_key(fl[k].short),
        forall|j: int|
            0 <= j < k ==> !((#[trigger] fl[j]).takes_value && !m.contains_key(fl[j].short)),
    ensures
        first_unset(fl, m) == Some(k),
    decreases k,
{
    if k > 0 {
        let t = fl.drop_first();
        assert(!(fl[0].takes_value && !m.contains_key(fl[0].short)));
        assert forall|j: int| 0 <= j < k - 1 implies !((#[trigger] t[j]).takes_value
            && !m.contains_key(t[j].short)) by {
            assert(t[j] == fl[j + 1]);
        }
        assert(t[k - 1] == fl[k]);
        lemma_first_unset_at(t, m, k - 1);
    }
}

proof fn lemma_first_unset_none(fl: Seq<FlagMeta>, m: Map<char, FlagView>)
    requires
        forall|j: int|
            0 <= j < fl.len() ==> !((#[trigger] fl[j]).takes_value && !m.contains_key(fl[j].short)),
    ensures
        first_unset(fl, m) is None,
    decreases fl.len(),
{
    if fl.len() > 0 {
        let t = fl.drop_first();
        assert(!(fl[0].takes_value && !m.contains_key(fl[0].short)));
        assert forall|j: int| 0 <= j < t.len() implies !((#[trigger] t[j]).takes_value
            && !m.contains_key(t[j].short)) by {
            assert(t[j] == fl[j + 1]);
        }
        lemma_first_unset_none(t, m);
    }
}

fn msg_value_exec(name: &str, what: &[char]) -> (r: String)
    ensures
        r@ == msg_requires_value(name@, what@),
{
    let mut v = chars_of(name);
    push_str(&mut v, ": option requires a value: ");
    push_all(&mut v, what);
    string_of(v.as_slice())
}

fn msg_invalid_exec(name: &str, ch: char) -> (r: String)
    ensures
        r@ == msg_invalid_option(name@, ch),
{
    let mut v = chars_of(name);
    push_str(&mut v, ": invalid option: -");
    v.push(ch);
    string_of(v.as_slice())
}

fn push_error(res: &mut ParsedArgs, e: String)
    ensures
        pview(*final(res)) == with_error(pview(*old(res)), e@),
{
    let ghost before = str_views(res.errors@);
    res.errors.push(e);
    assert(str_views(res.errors@) =~= before.push(e@));
}

fn set_flag(res: &mut ParsedArgs, ch: char, v: FlagValue)
    ensures
        pview(*final(res)) == with_flag(pview(*old(res)), ch, v.view()),
{
    res.insert(ch, v);
}

fn short_cluster(meta: &CommandMeta, cs: &Vec<char>, next: Option<&String>, res: &mut ParsedArgs) -> (took: bool)
    ensures
        pview(*final(res)) == short_step(
            *meta,
            cs@,
            match next {
                Some(n) => Some(n@),
                None => None,
            },
            pview(*old(res)),
        ).0,
        took == short_step(
            *meta,
            cs@,
            match next {
                Some(n) => Some(n@),
                None => None,
            },
            pview(*old(res)),
        ).1,
{
    let ghost nv = match next {
        Some(n) => Some(n@),
        None => None::<Seq<char>>,
    };
    let ghost goal = short_step(*meta, cs@, nv, pview(*res));
    let mut j: usize = 0;
    let mut fin = false;
    let mut took = false;
    assert(cs@.skip(0) =~= cs@);
    while j < cs.len() && !fin
        invariant
            j <= cs@.len(),
            !fin ==> short_step(*meta, cs@.skip(j as int), nv, pview(*res)) == goal,
            fin ==> pview(*res) == goal.0 && took == goal.1,
            !fin ==> !took,
            nv == match next {
                Some(n) => Some(n@),
                None => None,
            },
        decreases cs@.len() - j,
    {
        let ch = cs[j];
        let ghost t = cs@.skip(j as int);
        assert(t[0] == ch);
        assert(t.drop_first() =~= cs@.skip(j + 1));
        match find_short_exec(meta.flags, ch) {
            Some(k) => {
                if meta.flags[k].takes_value {
                    if j + 1 < cs.len() {
                        let rest = subvec(cs.as_slice(), j + 1, cs.len());
                        assert(rest@ =~= t.drop_first());
                        let sv = string_of(rest.as_slice());
                        let ghost before = pview(*res);
                        set_flag(res, ch, FlagValue::Value(sv));
                        assert(short_step(*meta, t, nv, before).0 == with_flag(before, ch, FlagView::Value(rest@)));
                        assert(pview(*res) == goal.0);
                        fin = true;
                    } else {
                        assert(t.drop_first().len() == 0);
                        match next {
                            Some(n) => {
                                let ghost before = pview(*res);
                                let nc = n.clone();
                                assert(nc@ == n@);
                                set_flag(res, ch, FlagValue::Value(nc));
                                assert(short_step(*meta, t, nv, before).0 == with_flag(before, ch, FlagView::Value(n@)));
                                assert(pview(*res) == goal.0);
                                took = true;
                                fin = true;
                            },
                            None => {
                                let mut w: Vec<char> = Vec::new();
                                w.push('-');
                                w.push(ch);
                                assert(w@ =~= seq!['-', ch]);
                                push_error(res, msg_value_exec(meta.name, w.as_slice()));
                                assert(pview(*res) == goal.0);
                                fin = true;
                            },
                        }
                    }
                } else {
                    set_flag(res, ch, FlagValue::Bool(true));
                }
            },
            None => {
                push_error(res, msg_invalid_exec(meta.name, ch));
            },
        }
        j = j + 1;
    }
    if !fin {
        assert(cs@.skip(j as int) =~= seq![]);
    }
    took
}

/// Parse arguments according to command metadata.
///
/// Handles:
/// - Combined boolean flags: `-la` → sets `l` and `a`
/// - Value flags: `-n 10` → `n` = Value("10")
/// - Numeric shorthand: `-10` → `n` = Value("10") (if command has `-n` with value)
/// - Long flags: `-name PATTERN` (single-dash long form, as in find)
/// - `--` stops flag parsing, rest are positional
pub fn parse_args(meta: &CommandMeta, args: &[String]) -> (r: ParsedArgs)
    ensures
        r.flags_view() == parse_args_spec(*meta, str_views(args@)).flags,
        str_views(r.positional@) == parse_args_spec(*meta, str_views(args@)).positional,
        str_views(r.errors@) == parse_args_spec(*meta, str_views(args@)).errors,
{
    let mut res = ParsedArgs { flags: Vec::new(), positional: Vec::new(), errors: Vec::new() };
    let fl = meta.flags;
    let mut k: usize = 0;
    assert(res.flags_view() =~= Map::empty());
    while k < fl.len()
        invariant
            k <= fl@.len(),
            fl@ == meta.flags@,
            res.flags_view() == initial_flags(fl@.take(k as int)),
            res.positional@.len() == 0,
            res.errors@.len() == 0,
        decreases fl@.len() - k,
    {
        assert(fl@.take(k + 1).drop_last() =~= fl@.take(k as int));
        assert(fl@.take(k + 1).last() == fl@[k as int]);
        if !fl[k].takes_value {
            res.insert(fl[k].short, FlagValue::Bool(false));
        }
        k = k + 1;
    }
    assert(fl@.take(fl@.len() as int) =~= fl@);
    let ghost av = str_views(args@);
    let ghost init = ArgsView {
        flags: initial_flags(meta.flags@),
        positional: seq![],
        errors: seq![],
    };
    assert(pview(res) =~= init);
    let mut i: usize = 0;
    assert(av.skip(0) =~= av);
    let dashdash = chars_of("--");
    while i < args.len()
        invariant
            i <= av.len(),
            av == str_views(args@),
            dashdash@ == "--"@,
            fl@ == meta.flags@,
            args_step(*meta, av.skip(i as int), pview(res)) == parse_args_spec(*meta, av),
        decreases av.len() - i,
    {
        let ghost rest = av.skip(i as int);
        assert(rest[0] == args@[i as int]@);
        assert(rest.drop_first() =~= av.skip(i + 1));
        let arg = chars_of(args[i].as_str());
        if chars_eq(arg.as_slice(), dashdash.as_slice()) {
            let ghost pos0 = str_views(res.positional@);
            let ghost st0 = pview(res);
            let mut j = i + 1;
            while j < args.len()
                invariant
                    i < j <= av.len(),
                    av == str_views(args@),
                    res.flags_view() == st0.flags,
                    str_views(res.errors@) == st0.errors,
                    pos0 == st0.positional,
                    str_views(res.positional@) =~= pos0 + av.subrange(i + 1, j as int),
                decreases av.len() - j,
            {
                let ghost before = str_views(res.positional@);
                res.positional.push(args[j].clone());
                j = j + 1;
                assert(str_views(res.positional@) =~= before.push(av[j - 1]));
            }
            assert(av.subrange(i + 1, av.len() as int) =~= rest.drop_first());
            assert(pview(res) =~= args_step(*meta, rest, st0));
            return res;
        }
        let ghost st = pview(res);
        let ghost r = rest.drop_first();
        let ghost expect = one_arg(*meta, rest[0], r, st);
        assert(arg@ == rest[0]);
        let mut handled = false;
        let mut used: usize = 1;
        let lf = arg.len() > 0 && arg[0] == '-' && (arg.len() >= 3 || (arg.len() == 2 && (arg[1] as u32)
            > 0x7f)) && !(arg.len() > 1 && arg[1] == '-');
        proof {
            if arg@.len() > 0 && arg@[0] == '-' {
                lemma_dash_bytes(arg@);
            }
        }
        assert(lf == long_form(arg@));
        if lf {
            let name = subvec(arg.as_slice(), 1, arg.len());
            assert(name@ =~= arg@.drop_first());
            match find_long_exec(fl, name.as_slice()) {
                Some(short) => match find_short_exec(fl, short) {
                    Some(kk) => {
                        handled = true;
                        if fl[kk].takes_value {
                            if i + 1 < args.len() {
                                assert(r[0] == args@[i + 1]@);
                                let v = args[i + 1].clone();
                                set_flag(&mut res, short, FlagValue::Value(v));
                                used = 2;
                                assert(pview(res) == expect.0);
                            } else {
                                push_error(&mut res, msg_value_exec(meta.name, arg.as_slice()));
                                assert(pview(res) == expect.0);
                            }
                        } else {
                            set_flag(&mut res, short, FlagValue::Bool(true));
                            assert(pview(res) == expect.0);
                        }
                    },
                    None => {},
                },
                None => {},
            }
        }
        if !handled {
            if arg.len() > 1 && arg[0] == '-' && arg[1] != '-' {
                assert(short_form(arg@));
                let cs = subvec(arg.as_slice(), 1, arg.len());
                assert(cs@ =~= arg@.drop_first());
                let numeric = cs.len() > 1 && all_digits_exec(cs.as_slice());
                let fu = if numeric {
                    first_unset_exec(fl, &res)
                } else {
                    None
                };
                match fu {
                    Some(kk) => {
                        set_flag(&mut res, fl[kk].short, FlagValue::Value(string_of(cs.as_slice())));
                        assert(pview(res) == expect.0);
                    },
                    None => {
                        let took = if i + 1 < args.len() {
                            assert(r[0] == args@[i + 1]@);
                            short_cluster(meta, &cs, Some(&args[i + 1]), &mut res)
                        } else {
                            short_cluster(meta, &cs, None, &mut res)
                        };
                        if took {
                            used = 2;
                        }
                        assert(pview(res) == expect.0);
                    },
                }
            } else {
                let ghost before = str_views(res.positional@);
                res.positional.push(args[i].clone());
                assert(str_views(res.positional@) =~= before.push(rest[0]));
                assert(pview(res) == expect.0);
            }
        }
        assert(pview(res) == one_arg(*meta, rest[0], r, st).0);
        assert(used as nat == one_arg(*meta, rest[0], r, st).1);
        proof {
            lemma_one_arg_len(*meta, rest[0], r, st);
        }
        i = i + used;
        assert(rest.skip(used as int) =~= av.skip(i as int));
    }
    assert(av.skip(i as int) =~= seq![]);
    res
}

proof fn lemma_encode_len(s: Seq<char>)
    ensures
        encode_utf8(s).len() >= s.len(),
    decreases s.len(),
{
    if s.len() > 0 {
        lemma_encode_len(s.drop_first());
    }
}

/// A text that starts with `-` takes more than two bytes in UTF-8 exactly
/// when it has three characters or more, or two with a non-ASCII second one.
proof fn lemma_dash_bytes(arg: Seq<char>)
    requires
        arg.len() > 0,
        arg[0] == '-',
    ensures
        (encode_utf8(arg).len() > 2) == (arg.len() >= 3 || (arg.len() == 2 && (arg[1] as u32)
            > 0x7f)),
{
    let rest = arg.drop_first();
    lemma_encode_len(rest);
    assert(encode_scalar('-' as u32).len() == 1);
    if rest.len() >= 1 {
        lemma_encode_len(rest.drop_first());
        assert(encode_utf8(rest).len() == encode_scalar(rest[0] as u32).len() + encode_utf8(
            rest.drop_first(),
        ).len());
        if rest.len() == 1 {
            assert(rest.drop_first().len() == 0);
            assert(encode_utf8(rest.drop_first()).len() == 0);
        }
    }
}

fn all_digits_exec(cs: &[char]) -> (r: bool)
    ensures
        r == all_digits(cs@),
{
    let mut j: usize = 0;
    while j < cs.len()
        invariant
            j <= cs@.len(),
            forall|k: int| 0 <= k < j ==> is_digit(#[trigger] cs@[k]),
        decreases cs@.len() - j,
    {
        if !('0' <= cs[j] && cs[j] <= '9') {
            assert(!is_digit(cs@[j as int]));
            return false;
        }
        j = j + 1;
    }
    true
}


// ══════════════════════════════════════════════════════════════════
// Help formatter
// ══════════════════════════════════════════════════════════════════

pub open spec fn spaces(n: nat) -> Seq<char>
    decreases n,
{
    if n == 0 {
        seq![]
    } else {
        spaces((n - 1) as nat).push(' ')
    }
}

/// Left-aligned in a field of `w` characters (`{:<w}`).
pub open spec fn pad_right(s: Seq<char>, w: nat) -> Seq<char> {
    if s.len() < w {
        s + spaces((w - s.len()) as nat)
    } else {
        s
    }
}

/// The pieces one after the other.
pub open spec fn concat_all(parts: Seq<Seq<char>>) -> Seq<char>
    decreases parts.len(),
{
    if parts.len() == 0 {
        seq![]
    } else {
        concat_all(parts.drop_last()) + parts.last()
    }
}

pub open spec fn flag_label(f: FlagMeta) -> Seq<char> {
    match f.long {
        Some(l) => if f.takes_value {
            seq!['-', f.short] + ", -"@ + l@ + " "@ + f.value_hint@
        } else {
            seq!['-', f.short] + ", -"@ + l@
        },
        None => if f.takes_value {
            seq!['-', f.short] + " "@ + f.value_hint@
        } else {
            seq!['-', f.short]
        },
    }
}

pub open spec fn row(label: Seq<char>, w: nat, text: Seq<char>) -> Seq<char> {
    "  "@ + pad_right(label, w) + " "@ + text + "\n"@
}

pub open spec fn with_newlines(ls: Seq<Seq<char>>) -> Seq<Seq<char>> {
    Seq::new(ls.len(), |i: int| ls[i] + "\n"@)
}

pub open spec fn desc_section(meta: CommandMeta) -> Seq<char> {
    if meta.description@.len() > 0 {
        "\n"@ + meta.description@ + "\n"@
    } else {
        seq![]
    }
}

pub open spec fn details_section(meta: CommandMeta) -> Seq<char> {
    if meta.details@.len() > 0 {
        "\n"@ + concat_all(with_newlines(lines_of(meta.details@)))
    } else {
        seq![]
    }
}

pub open spec fn option_rows(fl: Seq<FlagMeta>) -> Seq<Seq<char>> {
    Seq::new(fl.len(), |i: int| row(flag_label(fl[i]), 20, fl[i].description@))
}

pub open spec fn options_section(meta: CommandMeta) -> Seq<char> {
    if meta.flags@.len() > 0 {
        "\nOptions:\n"@ + concat_all(option_rows(meta.flags@))
    } else {
        seq![]
    }
}

pub open spec fn argument_rows(ps: Seq<PositionalMeta>) -> Seq<Seq<char>> {
    Seq::new(ps.len(), |i: int| row(ps[i].name@, 20, ps[i].description@))
}

pub open spec fn arguments_section(meta: CommandMeta) -> Seq<char> {
    if meta.positional@.len() > 0 {
        "\nArguments:\n"@ + concat_all(argument_rows(meta.positional@))
    } else {
        seq![]
    }
}

pub open spec fn stdin_section(meta: CommandMeta) -> Seq<char> {
    match meta.stdin {
        StdinBehavior::Never => seq![],
        _ => "\nReads from stdin if no file arguments given.\n"@,
    }
}

/// The help text of a command: usage, description, details, options,
/// arguments and whether stdin is read.
pub open spec fn help_spec(meta: CommandMeta) -> Seq<char> {
    "Usage: "@ + meta.synopsis@ + "\n"@ + desc_section(meta) + details_section(meta)
        + options_section(meta) + arguments_section(meta) + stdin_section(meta)
}

fn push_padded(out: &mut Vec<char>, s: &[char], w: usize)
    ensures
        final(out)@ == old(out)@ + pad_right(s@, w as nat),
{
    push_all(out, s);
    if s.len() < w {
        let mut k = s.len();
        let ghost base = out@;
        assert(spaces(0) =~= seq![]);
        assert(out@ =~= base + spaces((k - s@.len()) as nat));
        while k < w
            invariant
                s@.len() <= k <= w,
                out@ == base + spaces((k - s@.len()) as nat),
            decreases w - k,
        {
            out.push(' ');
            k = k + 1;
            assert(out@ =~= base + spaces((k - s@.len()) as nat));
        }
    }
}

fn push_row(out: &mut Vec<char>, label: &[char], w: usize, text: &[char])
    ensures
        final(out)@ == old(out)@ + row(label@, w as nat, text@),
{
    let ghost before = out@;
    push_str(out, "  ");
    push_padded(out, label, w);
    push_str(out, " ");
    push_all(out, text);
    push_str(out, "\n");
    assert(out@ =~= before + row(label@, w as nat, text@));
}

fn flag_label_exec(f: &FlagMeta) -> (r: Vec<char>)
    ensures
        r@ == flag_label(*f),
{
    let mut v: Vec<char> = Vec::new();
    v.push('-');
    v.push(f.short);
    match f.long {
        Some(l) => {
            push_str(&mut v, ", -");
            push_str(&mut v, l);
            if f.takes_value {
                push_str(&mut v, " ");
                push_str(&mut v, f.value_hint);
            }
        },
        None => {
            if f.takes_value {
                push_str(&mut v, " ");
                push_str(&mut v, f.value_hint);
            }
        },
    }
    assert(v@ =~= flag_label(*f));
    v
}

fn push_desc(out: &mut Vec<char>, meta: &CommandMeta)
    ensures
        final(out)@ == old(out)@ + desc_section(*meta),
{
    let ghost before = out@;
    let desc = chars_of(meta.description);
    if desc.len() > 0 {
        push_str(out, "\n");
        push_all(out, desc.as_slice());
        push_str(out, "\n");
    }
    assert(out@ =~= before + desc_section(*meta));
}

fn push_details(out: &mut Vec<char>, meta: &CommandMeta)
    ensures
        final(out)@ == old(out)@ + details_section(*meta),
{
    let ghost before = out@;
    let details = chars_of(meta.details);
    if details.len() > 0 {
        push_str(out, "\n");
        let ls = lines(details.as_slice());
        let ghost base = out@;
        let ghost wl = with_newlines(views(ls@));
        let mut i: usize = 0;
        assert(wl.take(0) =~= seq![]);
        assert(out@ =~= base + concat_all(wl.take(0)));
        while i < ls.len()
            invariant
                i <= ls@.len(),
                wl == with_newlines(views(ls@)),
                out@ == base + concat_all(wl.take(i as int)),
            decreases ls@.len() - i,
        {
            push_all(out, ls[i].as_slice());
            push_str(out, "\n");
            i = i + 1;
            assert(wl.take(i as int).drop_last() =~= wl.take(i - 1));
            assert(out@ =~= base + concat_all(wl.take(i as int)));
        }
        assert(wl.take(ls@.len() as int) =~= wl);
    }
    assert(out@ =~= before + details_section(*meta));
}

fn push_options(out: &mut Vec<char>, meta: &CommandMeta)
    ensures
        final(out)@ == old(out)@ + options_section(*meta),
{
    let ghost before = out@;
    let fl = meta.flags;
    if fl.len() > 0 {
        push_str(out, "\nOptions:\n");
        let ghost base = out@;
        let ghost rows = option_rows(fl@);
        let mut i: usize = 0;
        assert(out@ =~= base + concat_all(rows.take(0)));
        while i < fl.len()
            invariant
                i <= fl@.len(),
                rows == option_rows(fl@),
                out@ == base + concat_all(rows.take(i as int)),
            decreases fl@.len() - i,
        {
            let label = flag_label_exec(&fl[i]);
            let d = chars_of(fl[i].description);
            push_row(out, label.as_slice(), 20, d.as_slice());
            i = i + 1;
            assert(rows.take(i as int).drop_last() =~= rows.take(i - 1));
            assert(out@ =~= base + concat_all(rows.take(i as int)));
        }
        assert(rows.take(fl@.len() as int) =~= rows);
    }
    assert(out@ =~= before + options_section(*meta));
}

fn push_arguments(out: &mut Vec<char>, meta: &CommandMeta)
    ensures
        final(out)@ == old(out)@ + arguments_section(*meta),
{
    let ghost before = out@;
    let ps = meta.positional;
    if ps.len() > 0 {
        push_str(out, "\nArguments:\n");
        let ghost base = out@;
        let ghost rows = argument_rows(ps@);
        let mut i: usize = 0;
        assert(out@ =~= base + concat_all(rows.take(0)));
        while i < ps.len()
            invariant
                i <= ps@.len(),
                rows == argument_rows(ps@),
                out@ == base + concat_all(rows.take(i as int)),
            decreases ps@.len() - i,
        {
            let n = chars_of(ps[i].name);
            let d = chars_of(ps[i].description);
            push_row(out, n.as_slice(), 20, d.as_slice());
            i = i + 1;
            assert(rows.take(i as int).drop_last() =~= rows.take(i - 1));
            assert(out@ =~= base + concat_all(rows.take(i as int)));
        }
        assert(rows.take(ps@.len() as int) =~= rows);
    }
    assert(out@ =~= before + arguments_section(*meta));
}

/// Format help text for a command in a compact help-style format.
pub fn format_help(meta: &CommandMeta) -> (r: String)
    ensures
        r@ == help_spec(*meta),
{
    let mut out = lit_chars("Usage: ");
    push_str(&mut out, meta.synopsis);
    push_str(&mut out, "\n");
    push_desc(&mut out, meta);
    push_details(&mut out, meta);
    push_options(&mut out, meta);
    push_arguments(&mut out, meta);
    let ghost before = out@;
    match meta.stdin {
        StdinBehavior::Never => {},
        _ => {
            push_str(&mut out, "\nReads from stdin if no file arguments given.\n");
        },
    }
    assert(out@ =~= before + stdin_section(*meta));
    assert(out@ =~= help_spec(*meta));
    string_of(out.as_slice())
}

fn lit_chars(s: &str) -> (r: Vec<char>)
    ensures
        r@ == s@,
{
    chars_of(s)
}

/// Inserts a (name, text) pair before the first pair with a greater name.
pub open spec fn insert_by_name(s: Seq<(Seq<char>, Seq<char>)>, x: (Seq<char>, Seq<char>)) -> Seq<
    (Seq<char>, Seq<char>),
>
    decreases s.len(),
{
    if s.len() == 0 {
        seq![x]
    } else if crate::text::lex_lt(x.0, s[0].0) {
        seq![x] + s
    } else {
        seq![s[0]] + insert_by_name(s.drop_first(), x)
    }
}

/// The stable sort of (name, text) pairs by name.
pub open spec fn sort_by_name(s: Seq<(Seq<char>, Seq<char>)>) -> Seq<(Seq<char>, Seq<char>)>
    decreases s.len(),
{
    if s.len() == 0 {
        seq![]
    } else {
        insert_by_name(sort_by_name(s.drop_last()), s.last())
    }
}

/// The pairs are in order of name.
pub open spec fn names_sorted(s: Seq<(Seq<char>, Seq<char>)>) -> bool {
    forall|i: int, j: int| 0 <= i < j < s.len() ==> !crate::text::lex_lt(#[trigger] s[j].0, #[trigger] s[i].0)
}

/// Whether a pair has a given name.
pub open spec fn name_is(n: Seq<char>) -> spec_fn((Seq<char>, Seq<char>)) -> bool {
    |p: (Seq<char>, Seq<char>)| p.0 == n
}

/// The pairs with a given name, in order.
pub open spec fn named(s: Seq<(Seq<char>, Seq<char>)>, n: Seq<char>) -> Seq<(Seq<char>, Seq<char>)> {
    s.filter(name_is(n))
}

/// In pairs sorted by name, none has a name below the first one's.
proof fn lemma_named_empty(s: Seq<(Seq<char>, Seq<char>)>, n: Seq<char>)
    requires
        names_sorted(s),
        s.len() > 0,
        crate::text::lex_lt(n, s[0].0),
    ensures
        named(s, n) == Seq::<(Seq<char>, Seq<char>)>::empty(),
    decreases s.len(),
{
    let pred = name_is(n);
    let t = s.drop_last();
    assert(s == t.push(s.last()));
    t.lemma_filter_push(s.last(), pred);
    if s.last().0 == n {
        if s.len() == 1 {
            crate::text::lemma_lex_irreflexive(n);
        } else {
            assert(!crate::text::lex_lt(s[s.len() - 1].0, s[0].0));
            crate::text::lemma_lex_irreflexive(n);
        }
    }
    if t.len() > 0 {
        assert(t[0] == s[0]);
        lemma_named_empty(t, n);
    } else {
        reveal(Seq::filter);
    }
}

/// Inserting a pair by name into pairs sorted by name keeps them sorted,
/// adds exactly that pair, and puts it after the pairs of the same name.
proof fn lemma_insert_by_name(s: Seq<(Seq<char>, Seq<char>)>, x: (Seq<char>, Seq<char>), n: Seq<char>)
    requires
        names_sorted(s),
    ensures
        names_sorted(insert_by_name(s, x)),
        insert_by_name(s, x).to_multiset() == s.to_multiset().insert(x),
        named(insert_by_name(s, x), n) == (if x.0 == n {
            named(s, n).push(x)
        } else {
            named(s, n)
        }),
    decreases s.len(),
{
    let pred = name_is(n);
    broadcast use vstd::seq_lib::group_to_multiset_ensures;
    let r = insert_by_name(s, x);
    if s.len() == 0 {
        assert(r == seq![x]);
        assert(seq![x] =~= Seq::<(Seq<char>, Seq<char>)>::empty().push(x));
        Seq::<(Seq<char>, Seq<char>)>::empty().lemma_filter_push(x, pred);
        reveal(Seq::filter);
        assert(s.to_multiset() =~= vstd::multiset::Multiset::empty());
    } else if crate::text::lex_lt(x.0, s[0].0) {
        assert(r == seq![x] + s);
        s.lemma_filter_prepend(x, pred);
        assert forall|a: int, b: int| 0 <= a < b < r.len() implies !crate::text::lex_lt(#[trigger] r[b].0, #[trigger] r[a].0) by {
            if a == 0 {
                if crate::text::lex_lt(r[b].0, x.0) {
                    if b - 1 == 0 {
                        crate::text::lemma_lex_transitive(r[b].0, x.0, s[0].0);
                        crate::text::lemma_lex_irreflexive(s[0].0);
                    } else {
                        assert(!crate::text::lex_lt(s[b - 1].0, s[0].0));
                        crate::text::lemma_lex_transitive(r[b].0, x.0, s[0].0);
                    }
                }
            } else {
                assert(r[a] == s[a - 1] && r[b] == s[b - 1]);
            }
        }
        assert(r =~= s.insert(0, x));
        assert(r.to_multiset() =~= s.to_multiset().insert(x)) by {
            assert(r.remove(0) =~= s);
            assert(r[0] == x);
        }
        if x.0 == n {
            lemma_named_empty(s, n);
            assert(seq![x] + Seq::<(Seq<char>, Seq<char>)>::empty() =~= Seq::<(Seq<char>, Seq<char>)>::empty().push(x));
        } else {
            assert(Seq::<(Seq<char>, Seq<char>)>::empty() + named(s, n) =~= named(s, n));
        }
    } else {
        let t = s.drop_first();
        assert forall|i: int, j: int| 0 <= i < j < t.len() implies !crate::text::lex_lt(#[trigger] t[j].0, #[trigger] t[i].0) by {
            assert(t[i] == s[i + 1] && t[j] == s[j + 1]);
        }
        lemma_insert_by_name(t, x, n);
        let r2 = insert_by_name(t, x);
        assert(r == seq![s[0]] + r2);
        assert(s =~= seq![s[0]] + t);
        t.lemma_filter_prepend(s[0], pred);
        r2.lemma_filter_prepend(s[0], pred);
        assert forall|a: int, b: int| 0 <= a < b < r.len() implies !crate::text::lex_lt(#[trigger] r[b].0, #[trigger] r[a].0) by {
            if a == 0 {
                let e = r2[b - 1];
                assert(r2.to_multiset().count(e) > 0);
                assert(t.to_multiset().insert(x).count(e) > 0);
                if e != x {
                    assert(t.to_multiset().count(e) > 0);
                    assert(t.contains(e));
                    let k = choose|k: int| 0 <= k < t.len() && t[k] == e;
                    assert(s[k + 1] == e);
                }
            } else {
                assert(r[a] == r2[a - 1] && r[b] == r2[b - 1]);
            }
        }
        assert(r.to_multiset() =~= s.to_multiset().insert(x)) by {
            assert((seq![s[0]] + r2).to_multiset() =~= r2.to_multiset().insert(s[0])) by {
                assert((seq![s[0]] + r2).drop_first() =~= r2);
                assert((seq![s[0]] + r2) =~= r2.insert(0, s[0]));
            }
            assert((seq![s[0]] + t).to_multiset() =~= t.to_multiset().insert(s[0])) by {
                assert((seq![s[0]] + t) =~= t.insert(0, s[0]));
            }
        }
        if x.0 == n {
            let h: Seq<(Seq<char>, Seq<char>)> = if s[0].0 == n { seq![s[0]] } else { Seq::empty() };
            assert(h + named(t, n).push(x) =~= (h + named(t, n)).push(x));
        }
    }
}

/// `sort_by_name` orders the pairs by name, keeps every pair as often as
/// it came, and keeps the pairs of each name in the order they came in.
pub proof fn law_sort_by_name(s: Seq<(Seq<char>, Seq<char>)>, n: Seq<char>)
    ensures
        names_sorted(sort_by_name(s)),
        sort_by_name(s).to_multiset() == s.to_multiset(),
        named(sort_by_name(s), n) == named(s, n),
    decreases s.len(),
{
    let pred = name_is(n);
    broadcast use vstd::seq_lib::group_to_multiset_ensures;
    if s.len() == 0 {
        assert(sort_by_name(s) =~= s);
    } else {
        let t = s.drop_last();
        law_sort_by_name(t, n);
        lemma_insert_by_name(sort_by_name(t), s.last(), n);
        assert(t.push(s.last()) =~= s);
        t.lemma_filter_push(s.last(), pred);
        assert(s.to_multiset() == t.to_multiset().insert(s.last()));
    }
}

proof fn lemma_insert_by_name_at(s: Seq<(Seq<char>, Seq<char>)>, x: (Seq<char>, Seq<char>), j: int)
    requires
        0 <= j <= s.len(),
        forall|k: int| 0 <= k < j ==> !crate::text::lex_lt(x.0, (#[trigger] s[k]).0),
        j < s.len() ==> crate::text::lex_lt(x.0, s[j].0),
    ensures
        insert_by_name(s, x) == s.insert(j, x),
    decreases j,
{
    if s.len() == 0 {
        assert(s.insert(j, x) =~= seq![x]);
    } else if j == 0 {
        assert(s.insert(0, x) =~= seq![x] + s);
    } else {
        let t = s.drop_first();
        assert forall|k: int| 0 <= k < j - 1 implies !crate::text::lex_lt(x.0, (#[trigger] t[k]).0) by {
            assert(t[k] == s[k + 1]);
        }
        lemma_insert_by_name_at(t, x, j - 1);
        assert(s.insert(j, x) =~= seq![s[0]] + t.insert(j - 1, x));
    }
}

pub open spec fn name_desc(commands: Seq<(&str, &CommandMeta)>) -> Seq<(Seq<char>, Seq<char>)> {
    Seq::new(commands.len(), |i: int| (commands[i].0@, commands[i].1.description@))
}

pub open spec fn pair_views2(v: Seq<(Vec<char>, Vec<char>)>) -> Seq<(Seq<char>, Seq<char>)> {
    Seq::new(v.len(), |i: int| (v[i].0@, v[i].1@))
}

/// The list of commands: one row per command, sorted by name.
pub open spec fn command_list_spec(commands: Seq<(&str, &CommandMeta)>) -> Seq<char> {
    let sorted = sort_by_name(name_desc(commands));
    "Available commands:\n\n"@ + concat_all(
        Seq::new(sorted.len(), |i: int| row(sorted[i].0, 12, sorted[i].1)),
    ) + "\nUse 'man COMMAND' for details.\n"@
}

/// Format a list of all commands with their descriptions.
pub fn format_command_list(commands: &[(&str, &CommandMeta)]) -> (r: String)
    ensures
        r@ == command_list_spec(commands@),
{
    let ghost nd = name_desc(commands@);
    let mut sorted: Vec<(Vec<char>, Vec<char>)> = Vec::new();
    let mut i: usize = 0;
    while i < commands.len()
        invariant
            i <= commands@.len(),
            nd == name_desc(commands@),
            pair_views2(sorted@) == sort_by_name(nd.take(i as int)),
        decreases commands@.len() - i,
    {
        let x = (chars_of(commands[i].0), chars_of(commands[i].1.description));
        let ghost xv = (x.0@, x.1@);
        assert(xv == nd[i as int]);
        let mut j: usize = 0;
        while j < sorted.len() && !crate::text::less_than(x.0.as_slice(), sorted[j].0.as_slice())
            invariant
                j <= sorted@.len(),
                xv == (x.0@, x.1@),
                forall|k: int|
                    0 <= k < j ==> !crate::text::lex_lt(xv.0, (#[trigger] pair_views2(sorted@)[k]).0),
            decreases sorted@.len() - j,
        {
            j = j + 1;
        }
        let ghost before = pair_views2(sorted@);
        proof {
            lemma_insert_by_name_at(before, xv, j as int);
        }
        sorted.insert(j, x);
        assert(pair_views2(sorted@) =~= before.insert(j as int, xv));
        i = i + 1;
        assert(nd.take(i as int).drop_last() =~= nd.take(i - 1));
    }
    assert(nd.take(commands@.len() as int) =~= nd);
    let ghost sv = pair_views2(sorted@);
    let ghost rows = Seq::new(sv.len(), |i: int| row(sv[i].0, 12, sv[i].1));
    let mut out = lit_chars("Available commands:\n\n");
    let ghost base = out@;
    let mut k: usize = 0;
    assert(out@ =~= base + concat_all(rows.take(0)));
    while k < sorted.len()
        invariant
            k <= sorted@.len(),
            sv == pair_views2(sorted@),
            rows == Seq::new(sv.len(), |i: int| row(sv[i].0, 12, sv[i].1)),
            out@ == base + concat_all(rows.take(k as int)),
        decreases sorted@.len() - k,
    {
        push_row(&mut out, sorted[k].0.as_slice(), 12, sorted[k].1.as_slice());
        k = k + 1;
        assert(rows.take(k as int).drop_last() =~= rows.take(k - 1));
        assert(out@ =~= base + concat_all(rows.take(k as int)));
    }
    assert(rows.take(sorted@.len() as int) =~= rows);
    push_str(&mut out, "\nUse 'man COMMAND' for details.\n");
    string_of(out.as_slice())
}

// ══════════════════════════════════════════════════════════════════
// Laws
// ══════════════════════════════════════════════════════════════════

/// A flag without a value that the command knows by its short name.
pub open spec fn bool_flag(meta: CommandMeta, ch: char) -> bool {
    find_short(meta.flags@, ch) matches Some(k) && !meta.flags@[k].takes_value
}

/// Combined flags: `-xy` reads as `-x -y` for two flags without a value
/// (when neither `xy`, `x` nor `y` is also a long option name, and `xy`
/// is not a number, which would be read as a count).
pub proof fn law_combined_flags(meta: CommandMeta, x: char, y: char, rest: Seq<Seq<char>>)
    requires
        bool_flag(meta, x),
        bool_flag(meta, y),
        x != '-',
        y != '-',
        find_long(meta.flags@, seq![x, y]) is None,
        find_long(meta.flags@, seq![x]) is None,
        find_long(meta.flags@, seq![y]) is None,
        !all_digits(seq![x, y]),
    ensures
        parse_args_spec(meta, seq![seq!['-', x, y]] + rest) == parse_args_spec(
            meta,
            seq![seq!['-', x], seq!['-', y]] + rest,
        ),
{
    let st0 = ArgsView { flags: initial_flags(meta.flags@), positional: seq![], errors: seq![] };
    let a = seq!['-', x, y];
    let ax = seq!['-', x];
    let ay = seq!['-', y];
    let l1 = seq![a] + rest;
    let l2 = seq![ax, ay] + rest;
    reveal_strlit("--");
    assert(a != "--"@) by {
        assert(a.len() != 2);
    }
    assert(ax != "--"@) by {
        assert(ax[1] != "--"@[1]);
    }
    assert(ay != "--"@) by {
        assert(ay[1] != "--"@[1]);
    }
    assert(a.drop_first() =~= seq![x, y]);
    assert(ax.drop_first() =~= seq![x]);
    assert(ay.drop_first() =~= seq![y]);
    assert(seq![x, y].drop_first() =~= seq![y]);
    assert(seq![y].drop_first() =~= Seq::<char>::empty());
    assert(seq![x].drop_first() =~= Seq::<char>::empty());
    let sx = with_flag(st0, x, FlagView::Bool(true));
    let sxy = with_flag(sx, y, FlagView::Bool(true));
    let n1 = if rest.len() > 0 { Some(rest[0]) } else { None };
    assert(short_step(meta, Seq::<char>::empty(), n1, sxy) == (sxy, false));
    assert(short_step(meta, seq![y], n1, sx) == (sxy, false));
    assert(short_step(meta, seq![x, y], n1, st0) == (sxy, false));
    assert(one_arg(meta, a, rest, st0) == (sxy, 1nat));
    assert(l1[0] == a);
    assert(l1.drop_first() =~= rest);
    assert(l1.skip(1) =~= rest);
    assert(args_step(meta, l1, st0) == args_step(meta, rest, sxy));
    let n2 = Some(ay);
    assert(short_step(meta, Seq::<char>::empty(), n2, sx) == (sx, false));
    assert(short_step(meta, seq![x], n2, st0) == (sx, false));
    assert(l2[0] == ax);
    assert(l2.drop_first() =~= seq![ay] + rest);
    assert(one_arg(meta, ax, l2.drop_first(), st0) == (sx, 1nat));
    assert(l2.skip(1) =~= seq![ay] + rest);
    let l3 = seq![ay] + rest;
    assert(l3[0] == ay);
    assert(l3.drop_first() =~= rest);
    assert(short_step(meta, Seq::<char>::empty(), n1, sxy) == (sxy, false));
    assert(short_step(meta, seq![y], n1, sx) == (sxy, false));
    assert(one_arg(meta, ay, rest, sx) == (sxy, 1nat));
    assert(l3.skip(1) =~= rest);
    assert(args_step(meta, l3, sx) == args_step(meta, rest, sxy));
    assert(args_step(meta, l2, st0) == args_step(meta, l3, sx));
}

/// A flag that takes a value, known by its short name.
pub open spec fn value_flag(meta: CommandMeta, ch: char) -> bool {
    find_short(meta.flags@, ch) matches Some(k) && meta.flags@[k].takes_value
}

/// Value flags: `-nV` reads as `-n V` (when neither `nV` nor `n` is also a
/// long option name, and the value is not empty).
pub proof fn law_attached_value(meta: CommandMeta, n: char, v: Seq<char>, rest: Seq<Seq<char>>)
    requires
        value_flag(meta, n),
        n != '-',
        v.len() > 0,
        find_long(meta.flags@, seq![n] + v) is None,
        find_long(meta.flags@, seq![n]) is None,
        !all_digits(seq![n] + v),
    ensures
        parse_args_spec(meta, seq![seq!['-', n] + v] + rest) == parse_args_spec(
            meta,
            seq![seq!['-', n], v] + rest,
        ),
{
    let st0 = ArgsView { flags: initial_flags(meta.flags@), positional: seq![], errors: seq![] };
    let a = seq!['-', n] + v;
    let an = seq!['-', n];
    let l1 = seq![a] + rest;
    let l2 = seq![an, v] + rest;
    reveal_strlit("--");
    assert(a != "--"@) by {
        assert(a[1] != "--"@[1]);
    }
    assert(an != "--"@) by {
        assert(an[1] != "--"@[1]);
    }
    assert(a.drop_first() =~= seq![n] + v);
    assert(an.drop_first() =~= seq![n]);
    assert((seq![n] + v).drop_first() =~= v);
    assert(seq![n].drop_first() =~= Seq::<char>::empty());
    let sv = with_flag(st0, n, FlagView::Value(v));
    let n1 = if rest.len() > 0 { Some(rest[0]) } else { None };
    assert((seq![n] + v)[0] == n);
    assert(short_step(meta, seq![n] + v, n1, st0) == (sv, false));
    assert(one_arg(meta, a, rest, st0) == (sv, 1nat));
    assert(l1[0] == a);
    assert(l1.drop_first() =~= rest);
    assert(l1.skip(1) =~= rest);
    assert(args_step(meta, l1, st0) == args_step(meta, rest, sv));
    assert(l2[0] == an);
    assert(l2.drop_first() =~= seq![v] + rest);
    assert(l2.drop_first()[0] == v);
    assert(short_step(meta, seq![n], Some(v), st0) == (sv, true));
    assert(one_arg(meta, an, l2.drop_first(), st0) == (sv, 2nat));
    assert(l2.skip(2) =~= rest);
    assert(args_step(meta, l2, st0) == args_step(meta, rest, sv));
}

/// After `--`, every argument is positional, and nothing before changes.
pub proof fn law_stop_parsing(meta: CommandMeta, rest: Seq<Seq<char>>)
    ensures
        parse_args_spec(meta, seq!["--"@] + rest).positional == rest,
        parse_args_spec(meta, seq!["--"@] + rest).flags == initial_flags(meta.flags@),
        parse_args_spec(meta, seq!["--"@] + rest).errors.len() == 0,
{
    let l = seq!["--"@] + rest;
    assert(l[0] == "--"@);
    assert(l.drop_first() =~= rest);
    assert(Seq::<Seq<char>>::empty() + rest =~= rest);
}

} // verus!
