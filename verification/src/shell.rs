//! Running commands: the dispatch to the built-ins, `man` and `xargs`,
//! pipelines with their redirections, and whole inputs.
use crate::argparse::{
    command_list_spec, format_command_list, format_help, help_spec, parse_args, parse_args_spec,
    str_views, CommandMeta,
};
use crate::commands::{
    failure, flag_on, flag_on_exec, flag_text, flag_text_exec, ov, positional_chars, read_text,
    read_text_exec, success, Builtin, CmdOutput, OutView, Registered, output,
};
use crate::diff::{cmd_diff, diff_spec};
use crate::env::Env;
use crate::fs::{read_spec, write_spec, Fs, FsLimits, FsView};
use crate::fslaws::{law_write_then_read, settled};
use crate::fscmds::{
    cat_spec, cd_spec, cmd_cat, cmd_cd, cmd_cp, cmd_find, cmd_ls, cmd_mkdir, cmd_mv, cmd_pwd,
    cmd_rm, cmd_tee, cmd_touch, cp_spec, find_cmd_spec, ls_spec, mkdir_cmd_spec, mv_spec,
    nonempty, pwd_spec, rm_spec, tee_spec, touch_spec,
};
use crate::parser::{parse, parse_spec, CommandView, Pipeline, PipelineView, opt_view, pipeline_views, string_views};
use crate::sed::{cmd_sed, sed_spec};
use crate::sortcmd::{cmd_sort, sort_cmd_spec};
use crate::text::{
    chars_eq, chars_of, clone_chars, contains_chars, contains_sub, dec, encode_text, join,
    join_spec, lit, parse_usize, parse_usize_spec, push_all, push_str, replace_all,
    replace_all_exec, split_chars, split_on, split_words, string_of, subvec, trim, trim_spec,
    u64_to_text, views, words_of,
};
use crate::textcmds::{
    basename_spec, cmd_basename, cmd_cut, cmd_echo, cmd_grep, cmd_head, cmd_tail, cmd_uniq,
    cmd_wc, cut_spec, echo_spec, grep_spec, head_spec, tail_spec, uniq_spec, wc_spec,
};
use crate::tr::{cmd_tr, tr_spec};
use vstd::prelude::*;
use vstd::utf8::encode_utf8;

verus! {

// ══════════════════════════════════════════════════════════════════
// State and outcome
// ══════════════════════════════════════════════════════════════════

/// What commands see and change: the file system, the variables and the
/// working directory.
#[verifier::ext_equal]
pub struct ShellView {
    pub fs: FsView,
    pub vars: Map<Seq<char>, Seq<char>>,
    pub cwd: Seq<char>,
}

/// What running something gives: its output, its errors, its exit code and
/// the state after it.
#[verifier::ext_equal]
pub struct Ran {
    pub out: Seq<char>,
    pub err: Seq<char>,
    pub code: i32,
    pub st: ShellView,
}

pub open spec fn state_of(fs: FsView, env_vars: Map<Seq<char>, Seq<char>>, cwd: Seq<char>) -> ShellView {
    ShellView { fs, vars: env_vars, cwd }
}

pub open spec fn ran(o: OutView, st: ShellView) -> Ran {
    Ran { out: o.out, err: o.err, code: o.code, st }
}

/// Whether an output, with the file system and environment after it, is
/// the given outcome.
pub open spec fn ran_is(out: Seq<char>, err: Seq<char>, code: i32, fs: FsView, vars: Map<Seq<char>, Seq<char>>, cwd: Seq<char>, r: Ran) -> bool {
    &&& out == r.out
    &&& err == r.err
    &&& code == r.code
    &&& fs == r.st.fs
    &&& vars == r.st.vars
    &&& cwd == r.st.cwd
}

/// The text of an exit code (as `i32::to_string`).
pub open spec fn code_text(c: i32) -> Seq<char> {
    if c < 0 {
        seq!['-'] + dec((-c) as nat)
    } else {
        dec(c as nat)
    }
}

pub fn code_text_exec(c: i32) -> (r: Vec<char>)
    ensures
        r@ == code_text(c),
{
    if c < 0 {
        let m: i64 = -(c as i64);
        let mut r: Vec<char> = Vec::new();
        r.push('-');
        let d = u64_to_text(m as u64);
        push_all(&mut r, d.as_slice());
        assert(r@ =~= seq!['-'] + dec((-c) as nat));
        r
    } else {
        u64_to_text(c as u64)
    }
}

/// The registry position of a command name.
pub open spec fn find_cmd(reg: Seq<Registered>, name: Seq<char>) -> Option<int>
    decreases reg.len(),
{
    if reg.len() == 0 {
        None
    } else {
        match find_cmd(reg.drop_last(), name) {
            Some(i) => Some(i),
            None => if reg.last().name@ == name {
                Some(reg.len() - 1)
            } else {
                None
            },
        }
    }
}

fn find_cmd_exec(reg: &Vec<Registered>, name: &[char]) -> (r: Option<usize>)
    ensures
        match r {
            Some(i) => find_cmd(reg@, name@) == Some(i as int) && i < reg@.len(),
            None => find_cmd(reg@, name@) is None,
        },
{
    let mut i: usize = 0;
    while i < reg.len()
        invariant
            i <= reg@.len(),
            find_cmd(reg@.take(i as int), name@) is None,
        decreases reg@.len() - i,
    {
        let ghost t = reg@.take(i + 1);
        assert(t.drop_last() =~= reg@.take(i as int));
        assert(t.last() == reg@[i as int]);
        let n = chars_of(reg[i].name);
        if chars_eq(n.as_slice(), name) {
            proof {
                lemma_find_cmd_prefix(reg@, i + 1, name@);
            }
            return Some(i);
        }
        i = i + 1;
    }
    assert(reg@.take(reg@.len() as int) =~= reg@);
    None
}

proof fn lemma_find_cmd_prefix(reg: Seq<Registered>, m: int, name: Seq<char>)
    requires
        0 <= m <= reg.len(),
        find_cmd(reg.take(m), name) is Some,
    ensures
        find_cmd(reg, name) == find_cmd(reg.take(m), name),
    decreases reg.len(),
{
    if m == reg.len() {
        assert(reg.take(m) =~= reg);
    } else {
        let t = reg.drop_last();
        assert(t.take(m) =~= reg.take(m));
        lemma_find_cmd_prefix(t, m, name);
    }
}

// ══════════════════════════════════════════════════════════════════
// man
// ══════════════════════════════════════════════════════════════════

pub open spec fn reg_pairs(reg: Seq<Registered>) -> Seq<(&'static str, &'static CommandMeta)> {
    Seq::new(reg.len(), |i: int| (reg[i].name, &reg[i].meta))
}

/// `man`: the list of commands, or one command's help.
pub open spec fn man_spec(reg: Seq<Registered>, args: Seq<Seq<char>>) -> OutView {
    if args.len() == 0 {
        ov(command_list_spec(reg_pairs(reg)), seq![], 0)
    } else {
        match find_cmd(reg, args[0]) {
            Some(i) => ov(help_spec(reg[i].meta), seq![], 0),
            None => ov(seq![], "man: "@ + args[0] + ": command not found\n"@, 1),
        }
    }
}

pub fn cmd_man(reg: &Vec<Registered>, args: &[String]) -> (r: CmdOutput)
    ensures
        r.view() == man_spec(reg@, str_views(args@)),
{
    if args.len() == 0 {
        let mut list: Vec<(&str, &CommandMeta)> = Vec::new();
        let mut i: usize = 0;
        while i < reg.len()
            invariant
                i <= reg@.len(),
                list@ =~= reg_pairs(reg@).take(i as int),
            decreases reg@.len() - i,
        {
            list.push((reg[i].name, &reg[i].meta));
            i = i + 1;
        }
        assert(reg_pairs(reg@).take(reg@.len() as int) =~= reg_pairs(reg@));
        let text = format_command_list(list.as_slice());
        return success(chars_of(text.as_str()));
    }
    let name = chars_of(args[0].as_str());
    assert(str_views(args@)[0] == args@[0]@);
    match find_cmd_exec(reg, name.as_slice()) {
        Some(i) => {
            let text = format_help(&reg[i].meta);
            success(chars_of(text.as_str()))
        },
        None => {
            let mut e = lit("man: ");
            push_all(&mut e, name.as_slice());
            push_str(&mut e, ": command not found\n");
            failure(e, 1)
        },
    }
}

// ══════════════════════════════════════════════════════════════════
// The semantics of running things
// ══════════════════════════════════════════════════════════════════

/// How deeply `xargs` may run commands that run `xargs` in turn: as deep
/// as a `usize` counts, which no run reaches in practice (a command line
/// that makes `xargs` run itself without end exhausts the stack first, as
/// it would with no count at all).
pub open spec fn top_fuel() -> nat {
    usize::MAX as nat
}

/// The longest input (in UTF-8 bytes) that is run.
pub open spec fn max_input() -> nat {
    1048576
}

pub open spec fn with_fs(st: ShellView, fs: FsView) -> ShellView {
    ShellView { fs, ..st }
}

/// The words `xargs` reads: split at NUL (empty ones dropped) with `-0`,
/// else at whitespace.
pub open spec fn xargs_tokens(stdin: Seq<char>, null: bool) -> Seq<Seq<char>> {
    if null {
        nonempty(split_on(stdin, '\0'))
    } else {
        words_of(stdin)
    }
}

/// Consecutive groups of `n` (the last one shorter).
pub open spec fn chunks(t: Seq<Seq<char>>, n: nat) -> Seq<Seq<Seq<char>>>
    decreases t.len(),
{
    if t.len() == 0 || n == 0 {
        seq![]
    } else if t.len() <= n {
        seq![t]
    } else {
        seq![t.take(n as int)] + chunks(t.skip(n as int), n)
    }
}

/// An argument as `xargs` writes it into a command line: in single quotes
/// (with `'` written `'\''`) when it holds a space.
pub open spec fn quote_arg(a: Seq<char>) -> Seq<char> {
    if a.contains(' ') {
        seq!['\''] + replace_all(a, seq!['\''], "'\\''"@) + seq!['\'']
    } else {
        a
    }
}

pub open spec fn xargs_cmd(name: Seq<char>, fixed: Seq<Seq<char>>, batch: Seq<Seq<char>>) -> Seq<char> {
    let parts = seq![name] + fixed + batch;
    join_spec(Seq::new(parts.len(), |i: int| quote_arg(parts[i])), " "@)
}

/// A built-in run with its arguments and stdin.
pub open spec fn run_builtin_spec(
    reg: Seq<Registered>,
    b: Builtin,
    meta: CommandMeta,
    args: Seq<Seq<char>>,
    stdin: Seq<char>,
    st: ShellView,
    lim: FsLimits,
    fuel: nat,
) -> Ran
    decreases fuel, 2nat, 0nat,
{
    match b {
        Builtin::Ls => ran(ls_spec(meta, args, st.fs, st.cwd), st),
        Builtin::Cd => {
            let (o, c) = cd_spec(meta, args, st.fs, st.vars, st.cwd);
            ran(
                o,
                match c {
                    Some(d) => ShellView { fs: st.fs, vars: st.vars.insert("PWD"@, d), cwd: d },
                    None => st,
                },
            )
        },
        Builtin::Pwd => ran(pwd_spec(st.cwd), st),
        Builtin::Cat => ran(cat_spec(args, stdin, st.fs, st.cwd), st),
        Builtin::Touch => {
            let (o, f) = touch_spec(meta, args, st.fs, lim, st.cwd);
            ran(o, with_fs(st, f))
        },
        Builtin::Mkdir => {
            let (o, f) = mkdir_cmd_spec(meta, args, st.fs, lim, st.cwd);
            ran(o, with_fs(st, f))
        },
        Builtin::Echo => ran(echo_spec(meta, args), st),
        Builtin::Grep => ran(grep_spec(meta, args, stdin, st.fs, st.cwd), st),
        Builtin::Wc => ran(wc_spec(meta, args, stdin, st.fs, st.cwd), st),
        Builtin::Rm => {
            let (o, f) = rm_spec(meta, args, st.fs, st.cwd);
            ran(o, with_fs(st, f))
        },
        Builtin::Cp => {
            let (o, f) = cp_spec(meta, args, st.fs, lim, st.cwd);
            ran(o, with_fs(st, f))
        },
        Builtin::Mv => {
            let (o, f) = mv_spec(meta, args, st.fs, st.cwd);
            ran(o, with_fs(st, f))
        },
        Builtin::Head => ran(head_spec(meta, args, stdin, st.fs, st.cwd), st),
        Builtin::Tail => ran(tail_spec(meta, args, stdin, st.fs, st.cwd), st),
        Builtin::Find => ran(find_cmd_spec(meta, args, st.fs, st.cwd), st),
        Builtin::Sort => ran(sort_cmd_spec(meta, args, stdin, st.fs, st.cwd), st),
        Builtin::Uniq => ran(uniq_spec(meta, args, stdin, st.fs, st.cwd), st),
        Builtin::Cut => ran(cut_spec(meta, args, stdin, st.fs, st.cwd), st),
        Builtin::Tr => ran(tr_spec(args, stdin), st),
        Builtin::Sed => ran(sed_spec(args, stdin, st.fs, st.cwd), st),
        Builtin::Basename => ran(basename_spec(meta, args), st),
        Builtin::Tee => {
            let (o, f) = tee_spec(meta, args, stdin, st.fs, lim, st.cwd);
            ran(o, with_fs(st, f))
        },
        Builtin::Xargs => xargs_spec(reg, meta, args, stdin, st, lim, fuel),
        Builtin::Diff => ran(diff_spec(meta, args, st.fs, st.cwd), st),
        Builtin::Man => ran(man_spec(reg, args), st),
    }
}

/// `xargs`: the command (echo by default) with its fixed arguments and the
/// words of stdin (in groups of `-n`), run until one fails; its output and
/// errors are the output.
pub open spec fn xargs_spec(
    reg: Seq<Registered>,
    meta: CommandMeta,
    args: Seq<Seq<char>>,
    stdin: Seq<char>,
    st: ShellView,
    lim: FsLimits,
    fuel: nat,
) -> Ran
    decreases fuel, 1nat, 0nat,
{
    let pa = parse_args_spec(meta, args);
    let max_args: nat = match flag_text(pa, 'n') {
        Some(v) => match parse_usize_spec(v) {
            Some(k) => k as nat,
            None => 0,
        },
        None => 0,
    };
    let name = if pa.positional.len() == 0 {
        "echo"@
    } else {
        pa.positional[0]
    };
    let fixed = if pa.positional.len() == 0 {
        seq![]
    } else {
        pa.positional.drop_first()
    };
    let tokens = xargs_tokens(stdin, flag_on(pa, '0'));
    if tokens.len() == 0 {
        ran(ov(seq![], seq![], 0), st)
    } else if fuel == 0 {
        ran(ov(seq![], "xargs: commands nested too deeply\n"@, 1), st)
    } else {
        let bs = if max_args > 0 && max_args < tokens.len() {
            chunks(tokens, max_args)
        } else {
            seq![tokens]
        };
        let (o, c, s, _stop) = run_batches(reg, name, fixed, bs, st, lim, fuel);
        Ran { out: o, err: seq![], code: c, st: s }
    }
}

/// The batches run one after the other until one fails: the output and
/// errors, the last exit code, the state, whether it stopped.
pub open spec fn run_batches(
    reg: Seq<Registered>,
    name: Seq<char>,
    fixed: Seq<Seq<char>>,
    bs: Seq<Seq<Seq<char>>>,
    st: ShellView,
    lim: FsLimits,
    fuel: nat,
) -> (Seq<char>, i32, ShellView, bool)
    decreases fuel, 0nat, bs.len(),
{
    if bs.len() == 0 {
        (seq![], 0, st, false)
    } else {
        let (o, c, s, stop) = run_batches(reg, name, fixed, bs.drop_last(), st, lim, fuel);
        if stop || fuel == 0 {
            (o, c, s, stop)
        } else {
            let r = exec_string_spec(reg, xargs_cmd(name, fixed, bs.last()), s, lim, (fuel - 1) as nat);
            (o + r.out + r.err, r.code, r.st, r.code != 0)
        }
    }
}

/// A command line run by a command (`xargs`): parsed against the variables
/// and run; `$?` is set to the exit code.
pub open spec fn exec_string_spec(reg: Seq<Registered>, input: Seq<char>, st: ShellView, lim: FsLimits, fuel: nat) -> Ran
    decreases fuel, 6nat, 0nat,
{
    if encode_utf8(input).len() > max_input() {
        ran(ov(seq![], "syntax error: input too long\n"@, 2), st)
    } else {
        match parse_spec(st.vars, input) {
            Err(m) => ran(ov(seq![], "syntax error: "@ + m + "\n"@, 2), st),
            Ok(ps) => {
                let r = pipelines_spec(reg, ps, st, lim, fuel);
                Ran { st: ShellView { vars: r.st.vars.insert("?"@, code_text(r.code)), ..r.st }, ..r }
            },
        }
    }
}

/// Pipelines run one after the other: their outputs and errors joined, the
/// last exit code.
pub open spec fn pipelines_spec(reg: Seq<Registered>, ps: Seq<PipelineView>, st: ShellView, lim: FsLimits, fuel: nat) -> Ran
    decreases fuel, 5nat, ps.len(),
{
    if ps.len() == 0 {
        Ran { out: seq![], err: seq![], code: 0, st }
    } else {
        let r = pipelines_spec(reg, ps.drop_last(), st, lim, fuel);
        let q = pipeline_spec(reg, ps.last(), r.st, lim, fuel);
        Ran { out: r.out + q.out, err: r.err + q.err, code: q.code, st: q.st }
    }
}

/// A pipeline: stdin from the input file (if any), each command's output
/// to the next, the last one's output to the output file (appended with
/// `>>`) or returned. The exit code and errors are the last command's.
pub open spec fn pipeline_spec(reg: Seq<Registered>, p: PipelineView, st: ShellView, lim: FsLimits, fuel: nat) -> Ran
    decreases fuel, 4nat, 0nat,
{
    let input: Option<Seq<char>> = match p.input {
        Some(f) => read_text(st.fs, f, st.cwd),
        None => Some(seq![]),
    };
    match input {
        None => Ran { out: seq![], err: p.input.unwrap() + ": No such file or directory\n"@, code: 1, st },
        Some(t) => {
            let (_cur, r, _stop) = cmds_spec(reg, p.commands, p.commands.len(), t, st, lim, fuel);
            match p.output {
                None => r,
                Some(f) => {
                    let data = encode_utf8(r.out);
                    let content = if p.append {
                        match read_spec(r.st.fs, f, r.st.cwd) {
                            Some(ex) => ex + data,
                            None => data,
                        }
                    } else {
                        data
                    };
                    Ran {
                        out: seq![],
                        st: with_fs(r.st, write_spec(r.st.fs, lim, f, r.st.cwd, content).1),
                        ..r
                    }
                },
            }
        },
    }
}

/// The commands of a pipeline (the first `cs.len()` of `total`): the stdin
/// for the next, the outcome so far, whether an unknown command stopped it.
pub open spec fn cmds_spec(
    reg: Seq<Registered>,
    cs: Seq<CommandView>,
    total: nat,
    stdin0: Seq<char>,
    st: ShellView,
    lim: FsLimits,
    fuel: nat,
) -> (Seq<char>, Ran, bool)
    decreases fuel, 3nat, cs.len(),
{
    if cs.len() == 0 {
        (stdin0, Ran { out: seq![], err: seq![], code: 0, st }, false)
    } else {
        let (cur, r, stop) = cmds_spec(reg, cs.drop_last(), total, stdin0, st, lim, fuel);
        let c = cs.last();
        if stop || c.args.len() == 0 {
            (cur, r, stop)
        } else {
            let name = c.args[0];
            match find_cmd(reg, name) {
                None => (cur, Ran { err: name + ": command not found\n"@, code: 127, ..r }, true),
                Some(k) => {
                    let q = run_builtin_spec(
                        reg,
                        reg[k].builtin,
                        reg[k].meta,
                        c.args.drop_first(),
                        cur,
                        r.st,
                        lim,
                        fuel,
                    );
                    if cs.len() == total {
                        (cur, q, false)
                    } else {
                        (q.out, Ran { out: r.out, ..q }, false)
                    }
                },
            }
        }
    }
}

/// What `Shell::execute` does with an input: trimmed; nothing for an empty
/// one; too long or unparsable ones are errors with exit code 2; otherwise
/// the pipelines run and `$?` is set.
pub open spec fn execute_spec(reg: Seq<Registered>, st: ShellView, lim: FsLimits, input: Seq<char>) -> Ran {
    let t = trim_spec(input);
    if t.len() == 0 {
        ran(ov(seq![], seq![], 0), st)
    } else if encode_utf8(t).len() > max_input() {
        ran(ov(seq![], "syntax error: input too long\n"@, 2), st)
    } else {
        match parse_spec(st.vars, t) {
            Err(m) => ran(ov(seq![], "syntax error: "@ + m + "\n"@, 2), st),
            Ok(ps) => {
                let r = pipelines_spec(reg, ps, st, lim, top_fuel());
                Ran { st: ShellView { vars: r.st.vars.insert("?"@, code_text(r.code)), ..r.st }, ..r }
            },
        }
    }
}

// ══════════════════════════════════════════════════════════════════
// Running things
// ══════════════════════════════════════════════════════════════════

fn nonempty_exec(ps: &Vec<Vec<char>>) -> (r: Vec<Vec<char>>)
    ensures
        views(r@) == nonempty(views(ps@)),
{
    let mut r: Vec<Vec<char>> = Vec::new();
    let mut i: usize = 0;
    while i < ps.len()
        invariant
            i <= ps@.len(),
            views(r@) == nonempty(views(ps@).take(i as int)),
        decreases ps@.len() - i,
    {
        let ghost t = views(ps@).take(i + 1);
        assert(t.drop_last() =~= views(ps@).take(i as int));
        assert(t.last() == ps@[i as int]@);
        if ps[i].len() > 0 {
            let ghost before = views(r@);
            r.push(clone_chars(ps[i].as_slice()));
            assert(views(r@) =~= before.push(ps@[i as int]@));
        }
        i = i + 1;
    }
    assert(views(ps@).take(ps@.len() as int) =~= views(ps@));
    r
}

fn clone_lines(v: &Vec<Vec<char>>, a: usize, b: usize) -> (r: Vec<Vec<char>>)
    requires
        a <= b <= v@.len(),
    ensures
        views(r@) == views(v@).subrange(a as int, b as int),
{
    let mut r: Vec<Vec<char>> = Vec::new();
    let mut i = a;
    while i < b
        invariant
            a <= i <= b <= v@.len(),
            views(r@) =~= views(v@).subrange(a as int, i as int),
        decreases b - i,
    {
        let ghost before = views(r@);
        r.push(clone_chars(v[i].as_slice()));
        assert(views(r@) =~= before.push(v@[i as int]@));
        i = i + 1;
    }
    r
}

pub open spec fn batch_views(v: Seq<Vec<Vec<char>>>) -> Seq<Seq<Seq<char>>> {
    Seq::new(v.len(), |i: int| views(v[i]@))
}

fn chunks_exec(t: &Vec<Vec<char>>, n: usize) -> (r: Vec<Vec<Vec<char>>>)
    requires
        n > 0,
    ensures
        batch_views(r@) == chunks(views(t@), n as nat),
{
    let ghost tv = views(t@);
    let mut r: Vec<Vec<Vec<char>>> = Vec::new();
    let mut i: usize = 0;
    assert(tv.skip(0) =~= tv);
    while i < t.len()
        invariant
            n > 0,
            i <= t@.len(),
            tv == views(t@),
            batch_views(r@) + chunks(tv.skip(i as int), n as nat) == chunks(tv, n as nat),
        decreases t@.len() - i,
    {
        let ghost rest = tv.skip(i as int);
        let end = if t.len() - i <= n { t.len() } else { i + n };
        let b = clone_lines(t, i, end);
        let ghost before = batch_views(r@);
        r.push(b);
        assert(batch_views(r@) =~= before.push(views(b@)));
        if t.len() - i <= n {
            assert(views(b@) =~= rest);
            assert(chunks(rest, n as nat) == seq![rest]);
            assert(tv.skip(end as int) =~= seq![]);
            assert(before.push(views(b@)) + seq![] =~= before + seq![rest]);
        } else {
            assert(views(b@) =~= rest.take(n as int));
            assert(rest.skip(n as int) =~= tv.skip(end as int));
            assert(before.push(views(b@)) + chunks(tv.skip(end as int), n as nat) =~= before + (seq![
                rest.take(n as int),
            ] + chunks(rest.skip(n as int), n as nat)));
        }
        i = end;
    }
    assert(tv.skip(i as int) =~= seq![]);
    assert(batch_views(r@) + seq![] =~= batch_views(r@));
    r
}

fn quote_arg_exec(a: &[char]) -> (r: Vec<char>)
    ensures
        r@ == quote_arg(a@),
{
    let mut sp: Vec<char> = Vec::new();
    sp.push(' ');
    assert(sp@ =~= seq![' ']);
    if contains_chars(a, sp.as_slice()) {
        assert(a@.contains(' ')) by {
            let i = choose|i: int| crate::text::occurs_at(a@, sp@, i);
            assert(a@.subrange(i, i + 1)[0] == a@[i]);
        }
        let mut q: Vec<char> = Vec::new();
        q.push('\'');
        assert(q@ =~= seq!['\'']);
        let esc = lit("'\\''");
        let mut r: Vec<char> = Vec::new();
        r.push('\'');
        let body = replace_all_exec(a, q.as_slice(), esc.as_slice());
        push_all(&mut r, body.as_slice());
        r.push('\'');
        assert(r@ =~= seq!['\''] + body@ + seq!['\'']);
        r
    } else {
        assert(!a@.contains(' ')) by {
            if a@.contains(' ') {
                let i = choose|i: int| 0 <= i < a@.len() && a@[i] == ' ';
                assert(a@.subrange(i, i + 1) =~= sp@);
                assert(crate::text::occurs_at(a@, sp@, i));
            }
        }
        clone_chars(a)
    }
}

fn xargs_cmd_exec(name: &Vec<char>, fixed: &Vec<Vec<char>>, batch: &Vec<Vec<char>>) -> (r: Vec<char>)
    ensures
        r@ == xargs_cmd(name@, views(fixed@), views(batch@)),
{
    let mut all: Vec<Vec<char>> = Vec::new();
    all.push(clone_chars(name.as_slice()));
    let mut i: usize = 0;
    while i < fixed.len()
        invariant
            i <= fixed@.len(),
            views(all@) =~= seq![name@] + views(fixed@).take(i as int),
        decreases fixed@.len() - i,
    {
        let ghost before = views(all@);
        all.push(clone_chars(fixed[i].as_slice()));
        assert(views(all@) =~= before.push(fixed@[i as int]@));
        i = i + 1;
    }
    let mut j: usize = 0;
    while j < batch.len()
        invariant
            j <= batch@.len(),
            views(all@) =~= seq![name@] + views(fixed@) + views(batch@).take(j as int),
        decreases batch@.len() - j,
    {
        let ghost before = views(all@);
        all.push(clone_chars(batch[j].as_slice()));
        assert(views(all@) =~= before.push(batch@[j as int]@));
        j = j + 1;
    }
    let ghost parts = views(all@);
    assert(parts =~= seq![name@] + views(fixed@) + views(batch@));
    let mut q: Vec<Vec<char>> = Vec::new();
    let mut k: usize = 0;
    while k < all.len()
        invariant
            k <= all@.len(),
            parts == views(all@),
            views(q@) =~= Seq::new(parts.len(), |x: int| quote_arg(parts[x])).take(k as int),
        decreases all@.len() - k,
    {
        let ghost before = views(q@);
        q.push(quote_arg_exec(all[k].as_slice()));
        assert(views(q@) =~= before.push(quote_arg(parts[k as int])));
        k = k + 1;
    }
    assert(Seq::new(parts.len(), |x: int| quote_arg(parts[x])).take(parts.len() as int) =~= Seq::new(
        parts.len(),
        |x: int| quote_arg(parts[x]),
    ));
    join(&q, lit(" ").as_slice())
}

fn tail_args(args: &Vec<String>) -> (r: Vec<String>)
    requires
        args@.len() > 0,
    ensures
        str_views(r@) == string_views(args@).drop_first(),
{
    let mut r: Vec<String> = Vec::new();
    let mut i: usize = 1;
    while i < args.len()
        invariant
            1 <= i <= args@.len(),
            str_views(r@) =~= string_views(args@).subrange(1, i as int),
        decreases args@.len() - i,
    {
        let ghost before = str_views(r@);
        r.push(args[i].clone());
        assert(str_views(r@) =~= before.push(args@[i as int]@));
        i = i + 1;
    }
    r
}

/// Runs a built-in.
fn run_builtin(
    reg: &Vec<Registered>,
    b: Builtin,
    meta: &CommandMeta,
    args: &[String],
    stdin: &[char],
    fs: &mut Fs,
    env: &mut Env,
    fuel: usize,
) -> (r: CmdOutput)
    requires
        old(fs).wf(),
    ensures
        final(fs).wf(),
        final(fs).limits() == old(fs).limits(),
        ran_is(
            r.out@,
            r.err@,
            r.code,
            final(fs).view(),
            final(env).vars_view(),
            final(env).cwd_view(),
            run_builtin_spec(
                reg@,
                b,
                *meta,
                str_views(args@),
                stdin@,
                state_of(old(fs).view(), old(env).vars_view(), old(env).cwd_view()),
                old(fs).limits(),
                fuel as nat,
            ),
        ),
    decreases fuel, 1nat,
{
    let cwd = chars_of(env.cwd());
    let c = cwd.as_slice();
    match b {
        Builtin::Ls => cmd_ls(meta, args, fs, c),
        Builtin::Cd => cmd_cd(meta, args, fs, env),
        Builtin::Pwd => cmd_pwd(c),
        Builtin::Cat => cmd_cat(args, stdin, fs, c),
        Builtin::Touch => cmd_touch(meta, args, fs, c),
        Builtin::Mkdir => cmd_mkdir(meta, args, fs, c),
        Builtin::Echo => cmd_echo(meta, args),
        Builtin::Grep => cmd_grep(meta, args, stdin, fs, c),
        Builtin::Wc => cmd_wc(meta, args, stdin, fs, c),
        Builtin::Rm => cmd_rm(meta, args, fs, c),
        Builtin::Cp => cmd_cp(meta, args, fs, c),
        Builtin::Mv => cmd_mv(meta, args, fs, c),
        Builtin::Head => cmd_head(meta, args, stdin, fs, c),
        Builtin::Tail => cmd_tail(meta, args, stdin, fs, c),
        Builtin::Find => cmd_find(meta, args, fs, c),
        Builtin::Sort => cmd_sort(meta, args, stdin, fs, c),
        Builtin::Uniq => cmd_uniq(meta, args, stdin, fs, c),
        Builtin::Cut => cmd_cut(meta, args, stdin, fs, c),
        Builtin::Tr => cmd_tr(args, stdin),
        Builtin::Sed => cmd_sed(args, stdin, fs, c),
        Builtin::Basename => cmd_basename(meta, args),
        Builtin::Tee => cmd_tee(meta, args, stdin, fs, c),
        Builtin::Xargs => cmd_xargs(reg, meta, args, stdin, fs, env, fuel),
        Builtin::Diff => cmd_diff(meta, args, fs, c),
        Builtin::Man => cmd_man(reg, args),
    }
}

/// `xargs`.
#[verifier::spinoff_prover]
#[verifier::rlimit(30)]
fn cmd_xargs(
    reg: &Vec<Registered>,
    meta: &CommandMeta,
    args: &[String],
    stdin: &[char],
    fs: &mut Fs,
    env: &mut Env,
    fuel: usize,
) -> (r: CmdOutput)
    requires
        old(fs).wf(),
    ensures
        final(fs).wf(),
        final(fs).limits() == old(fs).limits(),
        ran_is(
            r.out@,
            r.err@,
            r.code,
            final(fs).view(),
            final(env).vars_view(),
            final(env).cwd_view(),
            xargs_spec(
                reg@,
                *meta,
                str_views(args@),
                stdin@,
                state_of(old(fs).view(), old(env).vars_view(), old(env).cwd_view()),
                old(fs).limits(),
                fuel as nat,
            ),
        ),
    decreases fuel, 0nat,
{
    let ghost st0 = state_of(fs.view(), env.vars_view(), env.cwd_view());
    let ghost lim = fs.limits();
    let pa = parse_args(meta, args);
    let max_args: usize = match flag_text_exec(&pa, 'n') {
        Some(v) => match parse_usize(v.as_slice()) {
            Some(k) => k,
            None => 0,
        },
        None => 0,
    };
    let null = flag_on_exec(&pa, '0');
    let pos = positional_chars(&pa);
    let name = if pos.len() == 0 {
        lit("echo")
    } else {
        assert(views(pos@)[0] == pos@[0]@);
        clone_chars(pos[0].as_slice())
    };
    let fixed = if pos.len() == 0 {
        Vec::new()
    } else {
        clone_lines(&pos, 1, pos.len())
    };
    assert(pos@.len() == 0 ==> views(fixed@) =~= seq![]);
    assert(pos@.len() > 0 ==> views(pos@).subrange(1, pos@.len() as int) =~= views(pos@).drop_first());
    let tokens = if null {
        let pieces = split_chars(stdin, '\0');
        nonempty_exec(&pieces)
    } else {
        split_words(stdin)
    };
    if tokens.len() == 0 {
        return output(Vec::new(), Vec::new(), 0);
    }
    if fuel == 0 {
        return failure(lit("xargs: commands nested too deeply\n"), 1);
    }
    let batches: Vec<Vec<Vec<char>>> = if max_args > 0 && max_args < tokens.len() {
        chunks_exec(&tokens, max_args)
    } else {
        let mut v: Vec<Vec<Vec<char>>> = Vec::new();
        let ghost tv = views(tokens@);
        v.push(tokens);
        assert(batch_views(v@) =~= seq![tv]);
        v
    };
    let ghost bv = batch_views(batches@);
    let mut out: Vec<char> = Vec::new();
    let mut code: i32 = 0;
    let mut stop = false;
    let mut i: usize = 0;
    while i < batches.len()
        invariant
            i <= batches@.len(),
            fuel > 0,
            bv == batch_views(batches@),
            fs.wf(),
            fs.limits() == lim,
            run_batches(reg@, name@, views(fixed@), bv.take(i as int), st0, lim, fuel as nat) == (
                out@,
                code,
                state_of(fs.view(), env.vars_view(), env.cwd_view()),
                stop,
            ),
        decreases batches@.len() - i,
    {
        let ghost t = bv.take(i + 1);
        assert(t.drop_last() =~= bv.take(i as int));
        assert(t.last() == views(batches@[i as int]@));
        if !stop {
            let cmd = xargs_cmd_exec(&name, &fixed, &batches[i]);
            let r = execute_string(reg, cmd.as_slice(), fs, env, fuel - 1);
            push_all(&mut out, r.out.as_slice());
            push_all(&mut out, r.err.as_slice());
            code = r.code;
            stop = r.code != 0;
        }
        i = i + 1;
    }
    assert(bv.take(batches@.len() as int) =~= bv);
    output(out, Vec::new(), code)
}

/// Runs a command line: parsed against the variables, its pipelines one
/// after the other, `$?` set to the exit code.
fn execute_string(reg: &Vec<Registered>, input: &[char], fs: &mut Fs, env: &mut Env, fuel: usize) -> (r: CmdOutput)
    requires
        old(fs).wf(),
    ensures
        final(fs).wf(),
        final(fs).limits() == old(fs).limits(),
        ran_is(
            r.out@,
            r.err@,
            r.code,
            final(fs).view(),
            final(env).vars_view(),
            final(env).cwd_view(),
            exec_string_spec(
                reg@,
                input@,
                state_of(old(fs).view(), old(env).vars_view(), old(env).cwd_view()),
                old(fs).limits(),
                fuel as nat,
            ),
        ),
    decreases fuel, 5nat,
{
    let bytes = encode_text(input);
    if bytes.len() > 1048576 {
        return failure(lit("syntax error: input too long\n"), 2);
    }
    let s = string_of(input);
    match parse(s.as_str(), env) {
        Err(e) => {
            let mut m = chars_of(e.to_string().as_str());
            push_str(&mut m, "\n");
            failure(m, 2)
        },
        Ok(ps) => {
            let r = run_pipelines(reg, &ps, fs, env, fuel);
            let ct = code_text_exec(r.code);
            let cs = string_of(ct.as_slice());
            env.set("?", cs.as_str());
            r
        },
    }
}

/// Runs pipelines one after the other.
pub(crate) fn run_pipelines(reg: &Vec<Registered>, ps: &Vec<Pipeline>, fs: &mut Fs, env: &mut Env, fuel: usize) -> (r: CmdOutput)
    requires
        old(fs).wf(),
    ensures
        final(fs).wf(),
        final(fs).limits() == old(fs).limits(),
        ran_is(
            r.out@,
            r.err@,
            r.code,
            final(fs).view(),
            final(env).vars_view(),
            final(env).cwd_view(),
            pipelines_spec(
                reg@,
                pipeline_views(ps@),
                state_of(old(fs).view(), old(env).vars_view(), old(env).cwd_view()),
                old(fs).limits(),
                fuel as nat,
            ),
        ),
    decreases fuel, 4nat,
{
    let ghost st0 = state_of(fs.view(), env.vars_view(), env.cwd_view());
    let ghost lim = fs.limits();
    let ghost pv = pipeline_views(ps@);
    let mut out: Vec<char> = Vec::new();
    let mut err: Vec<char> = Vec::new();
    let mut code: i32 = 0;
    let mut i: usize = 0;
    while i < ps.len()
        invariant
            i <= ps@.len(),
            pv == pipeline_views(ps@),
            fs.wf(),
            fs.limits() == lim,
            ran_is(
                out@,
                err@,
                code,
                fs.view(),
                env.vars_view(),
                env.cwd_view(),
                pipelines_spec(reg@, pv.take(i as int), st0, lim, fuel as nat),
            ),
        decreases ps@.len() - i,
    {
        let ghost t = pv.take(i + 1);
        assert(t.drop_last() =~= pv.take(i as int));
        assert(t.last() == ps@[i as int].view());
        let r = run_pipeline(reg, &ps[i], fs, env, fuel);
        push_all(&mut out, r.out.as_slice());
        push_all(&mut err, r.err.as_slice());
        code = r.code;
        i = i + 1;
    }
    assert(pv.take(ps@.len() as int) =~= pv);
    output(out, err, code)
}

/// Runs the commands of a pipeline, each one's output the next one's stdin.
fn run_commands(
    reg: &Vec<Registered>,
    p: &Pipeline,
    stdin0: Vec<char>,
    fs: &mut Fs,
    env: &mut Env,
    fuel: usize,
) -> (r: CmdOutput)
    requires
        old(fs).wf(),
    ensures
        final(fs).wf(),
        final(fs).limits() == old(fs).limits(),
        ran_is(
            r.out@,
            r.err@,
            r.code,
            final(fs).view(),
            final(env).vars_view(),
            final(env).cwd_view(),
            cmds_spec(
                reg@,
                p.view().commands,
                p.view().commands.len(),
                stdin0@,
                state_of(old(fs).view(), old(env).vars_view(), old(env).cwd_view()),
                old(fs).limits(),
                fuel as nat,
            ).1,
        ),
    decreases fuel, 2nat,
{
    let ghost st0 = state_of(fs.view(), env.vars_view(), env.cwd_view());
    let ghost lim = fs.limits();
    let ghost t0 = stdin0@;
    let ghost cs = p.view().commands;
    let n = p.commands.len();
    let mut cur = stdin0;
    let mut fout: Vec<char> = Vec::new();
    let mut ferr: Vec<char> = Vec::new();
    let mut code: i32 = 0;
    let mut stop = false;
    let mut i: usize = 0;
    while i < n
        invariant
            i <= n,
            n == p.commands@.len(),
            cs == p.view().commands,
            fs.wf(),
            fs.limits() == lim,
            cmds_spec(reg@, cs.take(i as int), n as nat, t0, st0, lim, fuel as nat).0 == cur@,
            cmds_spec(reg@, cs.take(i as int), n as nat, t0, st0, lim, fuel as nat).2 == stop,
            ran_is(
                fout@,
                ferr@,
                code,
                fs.view(),
                env.vars_view(),
                env.cwd_view(),
                cmds_spec(reg@, cs.take(i as int), n as nat, t0, st0, lim, fuel as nat).1,
            ),
        decreases n - i,
    {
        let ghost t = cs.take(i + 1);
        assert(t.drop_last() =~= cs.take(i as int));
        assert(t.last() == p.commands@[i as int].view());
        let c = &p.commands[i];
        if !stop && c.args.len() > 0 {
            let name = chars_of(c.args[0].as_str());
            assert(string_views(c.args@)[0] == c.args@[0]@);
            match find_cmd_exec(reg, name.as_slice()) {
                None => {
                    let mut e = clone_chars(name.as_slice());
                    push_str(&mut e, ": command not found\n");
                    ferr = e;
                    code = 127;
                    stop = true;
                },
                Some(k) => {
                    let rest = tail_args(&c.args);
                    let meta = reg[k].meta;
                    let r = run_builtin(reg, reg[k].builtin, &meta, rest.as_slice(), cur.as_slice(), fs, env, fuel);
                    code = r.code;
                    ferr = r.err;
                    if i == n - 1 {
                        fout = r.out;
                    } else {
                        cur = r.out;
                    }
                },
            }
        }
        i = i + 1;
    }
    assert(cs.take(n as int) =~= cs);
    output(fout, ferr, code)
}

fn append_bytes(a: Vec<u8>, b: &Vec<u8>) -> (r: Vec<u8>)
    ensures
        r@ == a@ + b@,
{
    let mut d = a;
    let ghost e0 = d@;
    let mut k: usize = 0;
    while k < b.len()
        invariant
            k <= b@.len(),
            d@ =~= e0 + b@.take(k as int),
        decreases b@.len() - k,
    {
        d.push(b[k]);
        k = k + 1;
    }
    assert(b@.take(b@.len() as int) =~= b@);
    d
}

/// Runs a pipeline with its redirections.
fn run_pipeline(reg: &Vec<Registered>, p: &Pipeline, fs: &mut Fs, env: &mut Env, fuel: usize) -> (r: CmdOutput)
    requires
        old(fs).wf(),
    ensures
        final(fs).wf(),
        final(fs).limits() == old(fs).limits(),
        ran_is(
            r.out@,
            r.err@,
            r.code,
            final(fs).view(),
            final(env).vars_view(),
            final(env).cwd_view(),
            pipeline_spec(
                reg@,
                p.view(),
                state_of(old(fs).view(), old(env).vars_view(), old(env).cwd_view()),
                old(fs).limits(),
                fuel as nat,
            ),
        ),
    decreases fuel, 3nat,
{
    let cwd0 = chars_of(env.cwd());
    let stdin0 = match &p.input_redirect {
        Some(f) => {
            let fc = chars_of(f.as_str());
            match read_text_exec(fs, fc.as_slice(), cwd0.as_slice()) {
                Some(t) => t,
                None => {
                    let mut e = clone_chars(fc.as_slice());
                    push_str(&mut e, ": No such file or directory\n");
                    return failure(e, 1);
                },
            }
        },
        None => Vec::new(),
    };
    let r = run_commands(reg, p, stdin0, fs, env, fuel);
    match &p.output_redirect {
        Some(f) => {
            let fc = chars_of(f.as_str());
            let cwd = chars_of(env.cwd());
            let data = encode_text(r.out.as_slice());
            let content = if p.append {
                match fs.read_chars(fc.as_slice(), cwd.as_slice()) {
                    Some(existing) => append_bytes(existing, &data),
                    None => data,
                }
            } else {
                data
            };
            fs.write_chars(fc.as_slice(), cwd.as_slice(), content.as_slice());
            output(Vec::new(), r.err, r.code)
        },
        None => r,
    }
}

// ══════════════════════════════════════════════════════════════════
// Laws
// ══════════════════════════════════════════════════════════════════

/// After a command line that ran (not blank, not too long, and parsed),
/// `$?` holds the text of its exit code.
pub proof fn law_status_after_execute(reg: Seq<Registered>, st: ShellView, lim: FsLimits, input: Seq<char>)
    requires
        trim_spec(input).len() > 0,
        encode_utf8(trim_spec(input)).len() <= max_input(),
        parse_spec(st.vars, trim_spec(input)) is Ok,
    ensures
        execute_spec(reg, st, lim, input).st.vars.contains_key("?"@),
        execute_spec(reg, st, lim, input).st.vars["?"@] == code_text(execute_spec(reg, st, lim, input).code),
{
}

/// A blank command line prints nothing, succeeds, and changes nothing.
pub proof fn law_blank_input(reg: Seq<Registered>, st: ShellView, lim: FsLimits, input: Seq<char>)
    requires
        trim_spec(input).len() == 0,
    ensures
        execute_spec(reg, st, lim, input) == ran(ov(seq![], seq![], 0), st),
{
}

/// Redirecting a pipeline's output to a settled path: when the write goes
/// through, nothing is printed and the file then holds the output (after
/// what it held, with `>>`).
pub proof fn law_redirect_then_read(reg: Seq<Registered>, p: PipelineView, st: ShellView, lim: FsLimits, fuel: nat)
    requires
        p.output is Some,
        ({
            let input: Option<Seq<char>> = match p.input {
                Some(f) => read_text(st.fs, f, st.cwd),
                None => Some(seq![]),
            };
            input is Some
        }),
    ensures
        ({
            let input: Seq<char> = match p.input {
                Some(f) => read_text(st.fs, f, st.cwd).unwrap(),
                None => seq![],
            };
            let r = cmds_spec(reg, p.commands, p.commands.len(), input, st, lim, fuel).1;
            let f = p.output.unwrap();
            let data = encode_utf8(r.out);
            let content = if p.append {
                match read_spec(r.st.fs, f, r.st.cwd) {
                    Some(ex) => ex + data,
                    None => data,
                }
            } else {
                data
            };
            let q = pipeline_spec(reg, p, st, lim, fuel);
            &&& q.out == Seq::<char>::empty()
            &&& (settled(f, r.st.cwd) && write_spec(r.st.fs, lim, f, r.st.cwd, content).0) ==> read_spec(
                q.st.fs,
                f,
                r.st.cwd,
            ) == Some(content)
        }),
{
    let input: Seq<char> = match p.input {
        Some(f) => read_text(st.fs, f, st.cwd).unwrap(),
        None => seq![],
    };
    let r = cmds_spec(reg, p.commands, p.commands.len(), input, st, lim, fuel).1;
    let f = p.output.unwrap();
    let data = encode_utf8(r.out);
    let content = if p.append {
        match read_spec(r.st.fs, f, r.st.cwd) {
            Some(ex) => ex + data,
            None => data,
        }
    } else {
        data
    };
    if settled(f, r.st.cwd) && write_spec(r.st.fs, lim, f, r.st.cwd, content).0 {
        law_write_then_read(r.st.fs, lim, f, r.st.cwd, content);
    }
}

/// A pipe between two known commands: the second reads what the first
/// wrote and sees the state the first left; only the second's output, error
/// text and exit code come out.
pub proof fn law_pipe(reg: Seq<Registered>, p: PipelineView, st: ShellView, lim: FsLimits, fuel: nat)
    requires
        p.input is None,
        p.output is None,
        p.commands.len() == 2,
        p.commands[0].args.len() > 0,
        p.commands[1].args.len() > 0,
        find_cmd(reg, p.commands[0].args[0]) is Some,
        find_cmd(reg, p.commands[1].args[0]) is Some,
    ensures
        ({
            let a = p.commands[0].args;
            let b = p.commands[1].args;
            let ka = find_cmd(reg, a[0]).unwrap();
            let kb = find_cmd(reg, b[0]).unwrap();
            let first = run_builtin_spec(reg, reg[ka].builtin, reg[ka].meta, a.drop_first(), seq![], st, lim, fuel);
            pipeline_spec(reg, p, st, lim, fuel) == run_builtin_spec(
                reg,
                reg[kb].builtin,
                reg[kb].meta,
                b.drop_first(),
                first.out,
                first.st,
                lim,
                fuel,
            )
        }),
{
    let cs = p.commands;
    let one = cs.drop_last();
    assert(one.drop_last().len() == 0);
    assert(one.last() == cs[0]);
    assert(cs.last() == cs[1]);
    reveal_with_fuel(cmds_spec, 3);
}

} // verus!
