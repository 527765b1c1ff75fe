//! The commands that read or change the file system or the working
//! directory: ls, cd, pwd, cat, touch, mkdir, rm, cp, mv, find and tee.
use crate::argparse::{parse_args, parse_args_spec, str_views, CommandMeta};
use crate::commands::{
    error_lines, failure, flag_on, flag_on_exec, flag_text, flag_text_exec, ov, output,
    positional_chars, read_text, read_text_exec, success, CmdOutput, OutView,
};
use crate::env::Env;
use crate::fs::{
    child_path, copy_spec, create_file_spec, dir_entry_views, exists_spec, find_spec,
    is_dir_spec, list_spec, mkdir_spec, move_spec, node_at, key_of, read_spec, remove_all_spec,
    remove_spec, write_spec, DirEntry, Fs, FsLimits, FsView, NodeView,
};
use crate::paths::{base_name, base_name_exec, norm_comps, resolve_abs, resolve_abs_spec};
use crate::text::{
    chars_eq, chars_of, clone_chars, dec, encode_text, join, join_spec, lit, pad_left,
    pad_left_exec, push_all, push_str, split_chars, split_on, string_of, subvec, u64_to_text,
    views,
};
use crate::textcmds::{error_text, strip_quotes, strip_quotes_exec};
use vstd::prelude::*;
use vstd::utf8::encode_utf8;

verus! {

fn root_chars() -> (r: Vec<char>)
    ensures
        r@ == seq!['/'],
{
    let mut r: Vec<char> = Vec::new();
    r.push('/');
    assert(r@ =~= seq!['/']);
    r
}

// ══════════════════════════════════════════════════════════════════
// pwd and cat
// ══════════════════════════════════════════════════════════════════

pub open spec fn pwd_spec(cwd: Seq<char>) -> OutView {
    ov(cwd + "\n"@, seq![], 0)
}

pub fn cmd_pwd(cwd: &[char]) -> (r: CmdOutput)
    ensures
        r.view() == pwd_spec(cwd@),
{
    let mut out = clone_chars(cwd);
    push_str(&mut out, "\n");
    success(out)
}

/// cat over its arguments: the contents one after the other, a message for
/// each that is a directory or missing.
pub open spec fn cat_args(s: FsView, args: Seq<Seq<char>>, cwd: Seq<char>) -> (Seq<char>, Seq<char>, i32)
    decreases args.len(),
{
    if args.len() == 0 {
        (seq![], seq![], 0)
    } else {
        let (o, e, c) = cat_args(s, args.drop_last(), cwd);
        let a = args.last();
        match read_text(s, a, cwd) {
            Some(t) => (o + t, e, c),
            None => if is_dir_spec(s, a, cwd) {
                (o, e + "cat: "@ + a + ": Is a directory\n"@, 1)
            } else {
                (o, e + "cat: "@ + a + ": No such file or directory\n"@, 1)
            },
        }
    }
}

/// `cat`: stdin when there are no arguments, else the files.
pub open spec fn cat_spec(args: Seq<Seq<char>>, stdin: Seq<char>, s: FsView, cwd: Seq<char>) -> OutView {
    if args.len() == 0 {
        ov(stdin, seq![], 0)
    } else {
        let (o, e, c) = cat_args(s, args, cwd);
        ov(o, e, c)
    }
}

pub fn cmd_cat(args: &[String], stdin: &[char], fs: &Fs, cwd: &[char]) -> (r: CmdOutput)
    ensures
        r.view() == cat_spec(str_views(args@), stdin@, fs.view(), cwd@),
{
    if args.len() == 0 {
        return success(clone_chars(stdin));
    }
    let ghost av = str_views(args@);
    let mut out: Vec<char> = Vec::new();
    let mut err: Vec<char> = Vec::new();
    let mut code: i32 = 0;
    let mut i: usize = 0;
    while i < args.len()
        invariant
            i <= args@.len(),
            av == str_views(args@),
            (out@, err@, code) == cat_args(fs.view(), av.take(i as int), cwd@),
        decreases args@.len() - i,
    {
        let ghost t = av.take(i + 1);
        assert(t.drop_last() =~= av.take(i as int));
        assert(t.last() == args@[i as int]@);
        let a = chars_of(args[i].as_str());
        match read_text_exec(fs, a.as_slice(), cwd) {
            Some(text) => push_all(&mut out, text.as_slice()),
            None => {
                let (isdir, _) = fs.kind_of_path(a.as_slice(), cwd);
                push_str(&mut err, "cat: ");
                push_all(&mut err, a.as_slice());
                if isdir {
                    push_str(&mut err, ": Is a directory\n");
                } else {
                    push_str(&mut err, ": No such file or directory\n");
                }
                code = 1;
            },
        }
        i = i + 1;
    }
    assert(av.take(args@.len() as int) =~= av);
    output(out, err, code)
}

// ══════════════════════════════════════════════════════════════════
// ls
// ══════════════════════════════════════════════════════════════════

/// A long listing line: type, permissions, size in ten columns, name.
pub open spec fn ls_entry(e: (Seq<char>, bool, u64)) -> Seq<char> {
    seq![if e.1 { 'd' } else { '-' }] + "rwxr-xr-x"@ + "  "@ + pad_left(dec(e.2 as nat), 10) + "  "@ + e.0
        + "\n"@
}

pub open spec fn ls_entries(es: Seq<(Seq<char>, bool, u64)>) -> Seq<char>
    decreases es.len(),
{
    if es.len() == 0 {
        seq![]
    } else {
        ls_entries(es.drop_last()) + ls_entry(es.last())
    }
}

/// A directory's listing: long lines, or the names on one line.
pub open spec fn format_ls(es: Seq<(Seq<char>, bool, u64)>, long: bool) -> Seq<char> {
    if long {
        ls_entries(es)
    } else {
        join_spec(Seq::new(es.len(), |i: int| es[i].0), "  "@) + "\n"@
    }
}

/// ls over the paths: a directory's listing (under a heading when there
/// are several paths), a file's name (or long line); the first missing
/// path ends it with an error.
pub open spec fn ls_paths(s: FsView, paths: Seq<Seq<char>>, cwd: Seq<char>, long: bool, hidden: bool, multi: bool) -> Result<
    Seq<char>,
    Seq<char>,
>
    decreases paths.len(),
{
    if paths.len() == 0 {
        Ok(seq![])
    } else {
        match ls_paths(s, paths.drop_last(), cwd, long, hidden, multi) {
            Err(e) => Err(e),
            Ok(o) => {
                let p = paths.last();
                if is_dir_spec(s, p, cwd) {
                    let hdr = if multi {
                        p + ":\n"@
                    } else {
                        seq![]
                    };
                    Ok(
                        o + hdr + match list_spec(s, p, cwd, hidden) {
                            Some(es) => format_ls(es, long),
                            None => seq![],
                        },
                    )
                } else if exists_spec(s, p, cwd) {
                    if long {
                        let size: u64 = match read_spec(s, p, cwd) {
                            Some(c) => c.len() as u64,
                            None => 0,
                        };
                        Ok(o + ls_entry((base_name(p), false, size)))
                    } else {
                        Ok(o + base_name(p) + "\n"@)
                    }
                } else {
                    Err("ls: cannot access '"@ + p + "': No such file or directory\n"@)
                }
            },
        }
    }
}

/// `ls [-la] [path...]` (the working directory by default).
pub open spec fn ls_spec(meta: CommandMeta, args: Seq<Seq<char>>, s: FsView, cwd: Seq<char>) -> OutView {
    let pa = parse_args_spec(meta, args);
    let paths = if pa.positional.len() == 0 {
        seq!["."@]
    } else {
        pa.positional
    };
    if pa.errors.len() > 0 {
        ov(seq![], error_lines(pa.errors), 1)
    } else {
        match ls_paths(s, paths, cwd, flag_on(pa, 'l'), flag_on(pa, 'a'), paths.len() > 1) {
            Err(e) => ov(seq![], e, 1),
            Ok(o) => ov(o, seq![], 0),
        }
    }
}

fn push_ls_entry(out: &mut Vec<char>, name: &[char], is_dir: bool, size: u64)
    ensures
        final(out)@ == old(out)@ + ls_entry((name@, is_dir, size)),
{
    let ghost o = out@;
    out.push(if is_dir { 'd' } else { '-' });
    push_str(out, "rwxr-xr-x");
    push_str(out, "  ");
    let num = pad_left_exec(u64_to_text(size).as_slice(), 10);
    push_all(out, num.as_slice());
    push_str(out, "  ");
    push_all(out, name);
    push_str(out, "\n");
    assert(out@ =~= o + ls_entry((name@, is_dir, size)));
}

fn push_format_ls(out: &mut Vec<char>, es: &Vec<DirEntry>, long: bool)
    ensures
        final(out)@ == old(out)@ + format_ls(dir_entry_views(es@), long),
{
    let ghost ev = dir_entry_views(es@);
    let ghost o = out@;
    if long {
        let mut i: usize = 0;
        while i < es.len()
            invariant
                i <= es@.len(),
                ev == dir_entry_views(es@),
                out@ == o + ls_entries(ev.take(i as int)),
            decreases es@.len() - i,
        {
            let ghost t = ev.take(i + 1);
            assert(t.drop_last() =~= ev.take(i as int));
            assert(t.last() == ev[i as int]);
            let name = chars_of(es[i].name.as_str());
            push_ls_entry(out, name.as_slice(), es[i].is_dir, es[i].size);
            i = i + 1;
        }
        assert(ev.take(es@.len() as int) =~= ev);
    } else {
        let mut names: Vec<Vec<char>> = Vec::new();
        let mut i: usize = 0;
        while i < es.len()
            invariant
                i <= es@.len(),
                ev == dir_entry_views(es@),
                views(names@) =~= Seq::new(ev.len(), |k: int| ev[k].0).take(i as int),
            decreases es@.len() - i,
        {
            let ghost before = views(names@);
            names.push(chars_of(es[i].name.as_str()));
            assert(views(names@) =~= before.push(ev[i as int].0));
            i = i + 1;
        }
        let line = join(&names, lit("  ").as_slice());
        push_all(out, line.as_slice());
        push_str(out, "\n");
        assert(Seq::new(ev.len(), |k: int| ev[k].0).take(es@.len() as int) =~= Seq::new(
            ev.len(),
            |k: int| ev[k].0,
        ));
    }
}

pub fn cmd_ls(meta: &CommandMeta, args: &[String], fs: &Fs, cwd: &[char]) -> (r: CmdOutput)
    ensures
        r.view() == ls_spec(*meta, str_views(args@), fs.view(), cwd@),
{
    let pa = parse_args(meta, args);
    if pa.errors.len() > 0 {
        return failure(error_text(&pa), 1);
    }
    let long = flag_on_exec(&pa, 'l');
    let hidden = flag_on_exec(&pa, 'a');
    let paths = if pa.positional.len() == 0 {
        let mut v: Vec<Vec<char>> = Vec::new();
        v.push(lit("."));
        assert(views(v@) =~= seq!["."@]);
        v
    } else {
        positional_chars(&pa)
    };
    let ghost pv = views(paths@);
    let multi = paths.len() > 1;
    let mut out: Vec<char> = Vec::new();
    let mut i: usize = 0;
    while i < paths.len()
        invariant
            i <= paths@.len(),
            pv == views(paths@),
            multi == (pv.len() > 1),
            ({
                let pav = parse_args_spec(*meta, str_views(args@));
                &&& pav.errors.len() == 0
                &&& long == flag_on(pav, 'l')
                &&& hidden == flag_on(pav, 'a')
                &&& pv == (if pav.positional.len() == 0 {
                    seq!["."@]
                } else {
                    pav.positional
                })
            }),
            ls_paths(fs.view(), pv.take(i as int), cwd@, long, hidden, multi) == Ok::<Seq<char>, Seq<char>>(out@),
        decreases paths@.len() - i,
    {
        let ghost t = pv.take(i + 1);
        assert(t.drop_last() =~= pv.take(i as int));
        assert(t.last() == paths@[i as int]@);
        let p = &paths[i];
        let (isdir, found) = fs.kind_of_path(p.as_slice(), cwd);
        let ghost o = out@;
        assert(ls_paths(fs.view(), t.drop_last(), cwd@, long, hidden, multi) == Ok::<Seq<char>, Seq<char>>(o));
        assert(isdir == is_dir_spec(fs.view(), p@, cwd@));
        assert(found == exists_spec(fs.view(), p@, cwd@));
        if isdir {
            if multi {
                push_all(&mut out, p.as_slice());
                push_str(&mut out, ":\n");
            }
            let ghost hdr = if multi {
                p@ + ":\n"@
            } else {
                seq![]
            };
            assert(out@ =~= o + hdr);
            match fs.list_chars(p.as_slice(), cwd, hidden) {
                Some(es) => {
                    let ghost oh = out@;
                    push_format_ls(&mut out, &es, long);
                    assert(out@ =~= o + hdr + format_ls(dir_entry_views(es@), long));
                },
                None => {
                    assert(out@ =~= o + hdr + seq![]);
                },
            }
        } else if found {
            let name = base_name_exec(p.as_slice());
            if long {
                let size: u64 = match fs.read_chars(p.as_slice(), cwd) {
                    Some(c) => c.len() as u64,
                    None => 0,
                };
                push_ls_entry(&mut out, name.as_slice(), false, size);
            } else {
                push_all(&mut out, name.as_slice());
                push_str(&mut out, "\n");
                assert(out@ =~= o + name@ + "\n"@);
            }
        } else {
            let mut e = lit("ls: cannot access '");
            push_all(&mut e, p.as_slice());
            push_str(&mut e, "': No such file or directory\n");
            proof {
                assert(ls_paths(fs.view(), t, cwd@, long, hidden, multi) == Err::<Seq<char>, Seq<char>>(e@));
                lemma_ls_err_prefix(fs.view(), pv, i + 1, cwd@, long, hidden, multi);
                assert(ls_paths(fs.view(), pv, cwd@, long, hidden, multi) == Err::<Seq<char>, Seq<char>>(e@));
            }
            return failure(e, 1);
        }
        i = i + 1;
    }
    assert(pv.take(paths@.len() as int) =~= pv);
    success(out)
}

proof fn lemma_ls_err_prefix(s: FsView, ps: Seq<Seq<char>>, m: int, cwd: Seq<char>, long: bool, hidden: bool, multi: bool)
    requires
        0 <= m <= ps.len(),
        ls_paths(s, ps.take(m), cwd, long, hidden, multi) is Err,
    ensures
        ls_paths(s, ps, cwd, long, hidden, multi) == ls_paths(s, ps.take(m), cwd, long, hidden, multi),
    decreases ps.len(),
{
    if m == ps.len() {
        assert(ps.take(m) =~= ps);
    } else {
        let t = ps.drop_last();
        assert(t.take(m) =~= ps.take(m));
        lemma_ls_err_prefix(s, t, m, cwd, long, hidden, multi);
    }
}

// ══════════════════════════════════════════════════════════════════
// touch
// ══════════════════════════════════════════════════════════════════

/// touch over the files: each that does not exist is created empty.
pub open spec fn touch_files(s: FsView, lim: FsLimits, files: Seq<Seq<char>>, cwd: Seq<char>) -> FsView
    decreases files.len(),
{
    if files.len() == 0 {
        s
    } else {
        let s1 = touch_files(s, lim, files.drop_last(), cwd);
        let f = files.last();
        if exists_spec(s1, f, cwd) {
            s1
        } else {
            create_file_spec(s1, lim, f, cwd).1
        }
    }
}

pub open spec fn touch_spec(meta: CommandMeta, args: Seq<Seq<char>>, s: FsView, lim: FsLimits, cwd: Seq<char>) -> (
    OutView,
    FsView,
) {
    let pa = parse_args_spec(meta, args);
    if pa.positional.len() == 0 {
        (ov(seq![], "touch: missing file operand\n"@, 1), s)
    } else {
        (ov(seq![], seq![], 0), touch_files(s, lim, pa.positional, cwd))
    }
}

pub fn cmd_touch(meta: &CommandMeta, args: &[String], fs: &mut Fs, cwd: &[char]) -> (r: CmdOutput)
    requires
        old(fs).wf(),
    ensures
        final(fs).wf(),
        final(fs).limits() == old(fs).limits(),
        r.view() == touch_spec(*meta, str_views(args@), old(fs).view(), old(fs).limits(), cwd@).0,
        final(fs).view() == touch_spec(*meta, str_views(args@), old(fs).view(), old(fs).limits(), cwd@).1,
{
    let pa = parse_args(meta, args);
    let files = positional_chars(&pa);
    if files.len() == 0 {
        return failure(lit("touch: missing file operand\n"), 1);
    }
    let ghost fv = views(files@);
    let ghost s0 = fs.view();
    let ghost lim = fs.limits();
    let mut i: usize = 0;
    while i < files.len()
        invariant
            i <= files@.len(),
            fv == views(files@),
            fs.wf(),
            fs.limits() == lim,
            fs.view() == touch_files(s0, lim, fv.take(i as int), cwd@),
        decreases files@.len() - i,
    {
        let ghost t = fv.take(i + 1);
        assert(t.drop_last() =~= fv.take(i as int));
        assert(t.last() == files@[i as int]@);
        let (_, found) = fs.kind_of_path(files[i].as_slice(), cwd);
        if !found {
            fs.create_file_chars(files[i].as_slice(), cwd);
        }
        i = i + 1;
    }
    assert(fv.take(files@.len() as int) =~= fv);
    success(Vec::new())
}

// ══════════════════════════════════════════════════════════════════
// mkdir
// ══════════════════════════════════════════════════════════════════

/// The nonempty pieces.
pub open spec fn nonempty(ps: Seq<Seq<char>>) -> Seq<Seq<char>>
    decreases ps.len(),
{
    if ps.len() == 0 {
        seq![]
    } else if ps.last().len() > 0 {
        nonempty(ps.drop_last()).push(ps.last())
    } else {
        nonempty(ps.drop_last())
    }
}

/// `/a/b/c` from `[a, b, c]`.
pub open spec fn slash_path(ps: Seq<Seq<char>>) -> Seq<char>
    decreases ps.len(),
{
    if ps.len() == 0 {
        seq![]
    } else {
        slash_path(ps.drop_last()) + "/"@ + ps.last()
    }
}

/// mkdir -p along the components: each prefix path that does not exist is
/// made a directory.
pub open spec fn mkdir_prefixes(s: FsView, lim: FsLimits, ps: Seq<Seq<char>>) -> FsView
    decreases ps.len(),
{
    if ps.len() == 0 {
        s
    } else {
        let s1 = mkdir_prefixes(s, lim, ps.drop_last());
        let cur = slash_path(ps);
        if exists_spec(s1, cur, seq!['/']) {
            s1
        } else {
            mkdir_spec(s1, lim, cur, seq!['/']).1
        }
    }
}

/// The path made absolute by text (no normalization): as it is when it
/// starts with `/`, else after the working directory.
pub open spec fn joined_path(path: Seq<char>, cwd: Seq<char>) -> Seq<char> {
    if path.len() > 0 && path[0] == '/' {
        path
    } else {
        (if cwd == seq!['/'] {
            seq![]
        } else {
            cwd
        }) + seq!['/'] + path
    }
}

/// `mkdir -p PATH`: every missing directory along the path is made.
pub open spec fn mkdir_p_spec(s: FsView, lim: FsLimits, path: Seq<char>, cwd: Seq<char>) -> FsView {
    let abs = joined_path(path, cwd);
    mkdir_prefixes(s, lim, nonempty(split_on(abs.drop_first(), '/')))
}

/// mkdir over the directories; the first that cannot be made stops it with
/// a message.
pub open spec fn mkdir_dirs(s: FsView, lim: FsLimits, dirs: Seq<Seq<char>>, cwd: Seq<char>, parents: bool) -> (
    Option<Seq<char>>,
    FsView,
)
    decreases dirs.len(),
{
    if dirs.len() == 0 {
        (None, s)
    } else {
        let (e, s1) = mkdir_dirs(s, lim, dirs.drop_last(), cwd, parents);
        if e is Some {
            (e, s1)
        } else {
            let d = dirs.last();
            if parents {
                (None, mkdir_p_spec(s1, lim, d, cwd))
            } else {
                let (ok, s2) = mkdir_spec(s1, lim, d, cwd);
                if ok {
                    (None, s2)
                } else if exists_spec(s2, d, cwd) {
                    (Some("mkdir: cannot create directory '"@ + d + "': File exists\n"@), s2)
                } else {
                    (Some("mkdir: cannot create directory '"@ + d + "': No such file or directory\n"@), s2)
                }
            }
        }
    }
}

pub open spec fn mkdir_cmd_spec(meta: CommandMeta, args: Seq<Seq<char>>, s: FsView, lim: FsLimits, cwd: Seq<char>) -> (
    OutView,
    FsView,
) {
    let pa = parse_args_spec(meta, args);
    if pa.positional.len() == 0 {
        (ov(seq![], "mkdir: missing operand\n"@, 1), s)
    } else {
        match mkdir_dirs(s, lim, pa.positional, cwd, flag_on(pa, 'p')) {
            (Some(m), s2) => (ov(seq![], m, 1), s2),
            (None, s2) => (ov(seq![], seq![], 0), s2),
        }
    }
}

fn mkdir_p_exec(fs: &mut Fs, path: &[char], cwd: &[char])
    requires
        old(fs).wf(),
    ensures
        final(fs).wf(),
        final(fs).limits() == old(fs).limits(),
        final(fs).view() == mkdir_p_spec(old(fs).view(), old(fs).limits(), path@, cwd@),
{
    let ghost s0 = fs.view();
    let ghost lim = fs.limits();
    let root = root_chars();
    let abs = if path.len() > 0 && path[0] == '/' {
        clone_chars(path)
    } else {
        let mut a: Vec<char> = Vec::new();
        if !chars_eq(cwd, root.as_slice()) {
            push_all(&mut a, cwd);
        }
        a.push('/');
        push_all(&mut a, path);
        a
    };
    assert(abs@ =~= joined_path(path@, cwd@));
    let rest = if abs.len() > 0 {
        subvec(abs.as_slice(), 1, abs.len())
    } else {
        Vec::new()
    };
    assert(rest@ =~= abs@.drop_first());
    let pieces = split_chars(rest.as_slice(), '/');
    let ghost pv = views(pieces@);
    let ghost parts = nonempty(pv);
    let mut cur: Vec<char> = Vec::new();
    let ghost mut done: Seq<Seq<char>> = seq![];
    let mut i: usize = 0;
    while i < pieces.len()
        invariant
            i <= pieces@.len(),
            pv == views(pieces@),
            root@ == seq!['/'],
            done == nonempty(pv.take(i as int)),
            cur@ == slash_path(done),
            fs.wf(),
            fs.limits() == lim,
            fs.view() == mkdir_prefixes(s0, lim, done),
            s0 == old(fs).view(),
            lim == old(fs).limits(),
        decreases pieces@.len() - i,
    {
        let ghost t = pv.take(i + 1);
        assert(t.drop_last() =~= pv.take(i as int));
        assert(t.last() == pieces@[i as int]@);
        if pieces[i].len() > 0 {
            push_str(&mut cur, "/");
            push_all(&mut cur, pieces[i].as_slice());
            proof {
                let nd = done.push(pieces@[i as int]@);
                assert(nd.drop_last() =~= done);
                done = nd;
            }
            let (_, found) = fs.kind_of_path(cur.as_slice(), root.as_slice());
            if !found {
                fs.mkdir_chars(cur.as_slice(), root.as_slice());
            }
        }
        i = i + 1;
    }
    assert(pv.take(pieces@.len() as int) =~= pv);
}

pub fn cmd_mkdir(meta: &CommandMeta, args: &[String], fs: &mut Fs, cwd: &[char]) -> (r: CmdOutput)
    requires
        old(fs).wf(),
    ensures
        final(fs).wf(),
        final(fs).limits() == old(fs).limits(),
        r.view() == mkdir_cmd_spec(*meta, str_views(args@), old(fs).view(), old(fs).limits(), cwd@).0,
        final(fs).view() == mkdir_cmd_spec(*meta, str_views(args@), old(fs).view(), old(fs).limits(), cwd@).1,
{
    let pa = parse_args(meta, args);
    let parents = flag_on_exec(&pa, 'p');
    let dirs = positional_chars(&pa);
    if dirs.len() == 0 {
        return failure(lit("mkdir: missing operand\n"), 1);
    }
    let ghost dv = views(dirs@);
    let ghost s0 = fs.view();
    let ghost lim = fs.limits();
    let mut i: usize = 0;
    while i < dirs.len()
        invariant
            i <= dirs@.len(),
            dv == views(dirs@),
            fs.wf(),
            fs.limits() == lim,
            s0 == old(fs).view(),
            lim == old(fs).limits(),
            dv == parse_args_spec(*meta, str_views(args@)).positional,
            dv.len() > 0,
            parents == flag_on(parse_args_spec(*meta, str_views(args@)), 'p'),
            mkdir_dirs(s0, lim, dv.take(i as int), cwd@, parents).0 is None,
            mkdir_dirs(s0, lim, dv.take(i as int), cwd@, parents).1 == fs.view(),
        decreases dirs@.len() - i,
    {
        let ghost t = dv.take(i + 1);
        assert(t.drop_last() =~= dv.take(i as int));
        assert(t.last() == dirs@[i as int]@);
        let d = &dirs[i];
        if parents {
            mkdir_p_exec(fs, d.as_slice(), cwd);
        } else if !fs.mkdir_chars(d.as_slice(), cwd) {
            let (_, found) = fs.kind_of_path(d.as_slice(), cwd);
            let mut e = lit("mkdir: cannot create directory '");
            push_all(&mut e, d.as_slice());
            if found {
                push_str(&mut e, "': File exists\n");
            } else {
                push_str(&mut e, "': No such file or directory\n");
            }
            proof {
                assert(mkdir_dirs(s0, lim, t, cwd@, parents).0 == Some(e@));
                assert(mkdir_dirs(s0, lim, t, cwd@, parents).1 == fs.view());
                lemma_mkdir_err_prefix(s0, lim, dv, i + 1, cwd@, parents);
            }
            return failure(e, 1);
        }
        i = i + 1;
    }
    assert(dv.take(dirs@.len() as int) =~= dv);
    success(Vec::new())
}

proof fn lemma_mkdir_err_prefix(s: FsView, lim: FsLimits, ds: Seq<Seq<char>>, m: int, cwd: Seq<char>, parents: bool)
    requires
        0 <= m <= ds.len(),
        mkdir_dirs(s, lim, ds.take(m), cwd, parents).0 is Some,
    ensures
        mkdir_dirs(s, lim, ds, cwd, parents) == mkdir_dirs(s, lim, ds.take(m), cwd, parents),
    decreases ds.len(),
{
    if m == ds.len() {
        assert(ds.take(m) =~= ds);
    } else {
        let t = ds.drop_last();
        assert(t.take(m) =~= ds.take(m));
        lemma_mkdir_err_prefix(s, lim, t, m, cwd, parents);
    }
}

// ══════════════════════════════════════════════════════════════════
// rm
// ══════════════════════════════════════════════════════════════════

/// After a removal: a failure without `-f` is an error when the path is
/// gone, else it makes the exit code 1.
pub open spec fn rm_after(ok: bool, s2: FsView, p: Seq<char>, cwd: Seq<char>, force: bool, code: i32) -> (
    Option<Seq<char>>,
    i32,
    FsView,
) {
    if !ok && !force {
        if !exists_spec(s2, p, cwd) {
            (Some("rm: cannot remove '"@ + p + "': No such file or directory\n"@), code, s2)
        } else {
            (None, 1, s2)
        }
    } else {
        (None, code, s2)
    }
}

/// rm over the paths: with `-r` each is removed with everything below it;
/// without it a directory is an error (skipped with `-f`) and a file is
/// removed.
pub open spec fn rm_paths(s: FsView, paths: Seq<Seq<char>>, cwd: Seq<char>, recursive: bool, force: bool) -> (
    Option<Seq<char>>,
    i32,
    FsView,
)
    decreases paths.len(),
{
    if paths.len() == 0 {
        (None, 0, s)
    } else {
        let (e, code, s1) = rm_paths(s, paths.drop_last(), cwd, recursive, force);
        if e is Some {
            (e, code, s1)
        } else {
            let p = paths.last();
            if recursive {
                let (ok, s2) = remove_all_spec(s1, p, cwd);
                rm_after(ok, s2, p, cwd, force, code)
            } else if is_dir_spec(s1, p, cwd) {
                if !force {
                    (Some("rm: cannot remove '"@ + p + "': Is a directory\n"@), code, s1)
                } else {
                    (None, code, s1)
                }
            } else {
                let (ok, s2) = remove_spec(s1, p, cwd);
                rm_after(ok, s2, p, cwd, force, code)
            }
        }
    }
}

pub open spec fn rm_spec(meta: CommandMeta, args: Seq<Seq<char>>, s: FsView, cwd: Seq<char>) -> (OutView, FsView) {
    let pa = parse_args_spec(meta, args);
    if pa.positional.len() == 0 {
        (ov(seq![], "rm: missing operand\n"@, 1), s)
    } else {
        let (e, code, s2) = rm_paths(
            s,
            pa.positional,
            cwd,
            flag_on(pa, 'r') || flag_on(pa, 'R'),
            flag_on(pa, 'f'),
        );
        match e {
            Some(m) => (ov(seq![], m, 1), s2),
            None => (ov(seq![], seq![], code), s2),
        }
    }
}

proof fn lemma_rm_err_prefix(s: FsView, ps: Seq<Seq<char>>, m: int, cwd: Seq<char>, recursive: bool, force: bool)
    requires
        0 <= m <= ps.len(),
        rm_paths(s, ps.take(m), cwd, recursive, force).0 is Some,
    ensures
        rm_paths(s, ps, cwd, recursive, force) == rm_paths(s, ps.take(m), cwd, recursive, force),
    decreases ps.len(),
{
    if m == ps.len() {
        assert(ps.take(m) =~= ps);
    } else {
        let t = ps.drop_last();
        assert(t.take(m) =~= ps.take(m));
        lemma_rm_err_prefix(s, t, m, cwd, recursive, force);
    }
}

pub fn cmd_rm(meta: &CommandMeta, args: &[String], fs: &mut Fs, cwd: &[char]) -> (r: CmdOutput)
    requires
        old(fs).wf(),
    ensures
        final(fs).wf(),
        final(fs).limits() == old(fs).limits(),
        r.view() == rm_spec(*meta, str_views(args@), old(fs).view(), cwd@).0,
        final(fs).view() == rm_spec(*meta, str_views(args@), old(fs).view(), cwd@).1,
{
    let pa = parse_args(meta, args);
    let recursive = flag_on_exec(&pa, 'r') || flag_on_exec(&pa, 'R');
    let force = flag_on_exec(&pa, 'f');
    let paths = positional_chars(&pa);
    if paths.len() == 0 {
        return failure(lit("rm: missing operand\n"), 1);
    }
    let ghost pv = views(paths@);
    let ghost s0 = fs.view();
    let ghost lim = fs.limits();
    let mut code: i32 = 0;
    let mut i: usize = 0;
    while i < paths.len()
        invariant
            i <= paths@.len(),
            pv == views(paths@),
            fs.wf(),
            fs.limits() == lim,
            s0 == old(fs).view(),
            lim == old(fs).limits(),
            ({
                let pav = parse_args_spec(*meta, str_views(args@));
                &&& pv == pav.positional
                &&& recursive == (flag_on(pav, 'r') || flag_on(pav, 'R'))
                &&& force == flag_on(pav, 'f')
            }),
            rm_paths(s0, pv.take(i as int), cwd@, recursive, force).0 is None,
            rm_paths(s0, pv.take(i as int), cwd@, recursive, force).1 == code,
            rm_paths(s0, pv.take(i as int), cwd@, recursive, force).2 == fs.view(),
        decreases paths@.len() - i,
    {
        let ghost t = pv.take(i + 1);
        assert(t.drop_last() =~= pv.take(i as int));
        assert(t.last() == paths@[i as int]@);
        let p = &paths[i];
        let ok;
        if recursive {
            ok = fs.remove_all_chars(p.as_slice(), cwd);
        } else {
            let (isdir, _) = fs.kind_of_path(p.as_slice(), cwd);
            if isdir {
                if !force {
                    let mut e = lit("rm: cannot remove '");
                    push_all(&mut e, p.as_slice());
                    push_str(&mut e, "': Is a directory\n");
                    proof {
                        assert(rm_paths(s0, t, cwd@, recursive, force).0 == Some(e@));
                        lemma_rm_err_prefix(s0, pv, i + 1, cwd@, recursive, force);
                    }
                    return failure(e, 1);
                }
                i = i + 1;
                continue;
            }
            ok = fs.remove_chars(p.as_slice(), cwd);
        }
        if !ok && !force {
            let (_, found) = fs.kind_of_path(p.as_slice(), cwd);
            if !found {
                let mut e = lit("rm: cannot remove '");
                push_all(&mut e, p.as_slice());
                push_str(&mut e, "': No such file or directory\n");
                proof {
                    assert(rm_paths(s0, t, cwd@, recursive, force).0 == Some(e@));
                    lemma_rm_err_prefix(s0, pv, i + 1, cwd@, recursive, force);
                }
                return failure(e, 1);
            }
            code = 1;
        }
        i = i + 1;
    }
    assert(pv.take(paths@.len() as int) =~= pv);
    output(Vec::new(), Vec::new(), code)
}

// ══════════════════════════════════════════════════════════════════
// cp
// ══════════════════════════════════════════════════════════════════

/// How deep `cp -r` copies below the source.
pub open spec fn copy_depth() -> nat {
    101
}

/// Copying a directory: the destination is made a directory, then each
/// child (as listed before the copy) is copied, directories recursively,
/// `fuel` levels deep.
pub open spec fn copy_dir_spec(s: FsView, lim: FsLimits, src: Seq<char>, dst: Seq<char>, cwd: Seq<char>, fuel: nat) -> FsView
    decreases fuel, 1nat, 0nat,
{
    if fuel == 0 {
        s
    } else {
        let s1 = mkdir_spec(s, lim, dst, cwd).1;
        match list_spec(s1, src, cwd, true) {
            Some(es) => copy_entries(s1, lim, src, dst, cwd, es, fuel),
            None => s1,
        }
    }
}

pub open spec fn copy_entries(
    s: FsView,
    lim: FsLimits,
    src: Seq<char>,
    dst: Seq<char>,
    cwd: Seq<char>,
    es: Seq<(Seq<char>, bool, u64)>,
    fuel: nat,
) -> FsView
    decreases fuel, 0nat, es.len(),
{
    if es.len() == 0 {
        s
    } else {
        let s1 = copy_entries(s, lim, src, dst, cwd, es.drop_last(), fuel);
        let e = es.last();
        let sc = child_path(src, e.0);
        let dc = child_path(dst, e.0);
        if e.1 {
            if fuel > 0 {
                copy_dir_spec(s1, lim, sc, dc, cwd, (fuel - 1) as nat)
            } else {
                s1
            }
        } else {
            copy_spec(s1, lim, sc, dc, cwd).1
        }
    }
}

/// Whether the destination is the source or lies below it.
pub open spec fn within(dst_abs: Seq<char>, src_abs: Seq<char>) -> bool {
    src_abs.len() <= dst_abs.len() && dst_abs.take(src_abs.len() as int) == src_abs && (dst_abs.len()
        == src_abs.len() || dst_abs[src_abs.len() as int] == '/')
}

pub open spec fn cp_spec(meta: CommandMeta, args: Seq<Seq<char>>, s: FsView, lim: FsLimits, cwd: Seq<char>) -> (OutView, FsView) {
    let pa = parse_args_spec(meta, args);
    let recursive = flag_on(pa, 'r') || flag_on(pa, 'R');
    if pa.positional.len() < 2 {
        (ov(seq![], "cp: missing destination\n"@, 1), s)
    } else {
        let src = pa.positional[0];
        let dst = pa.positional[1];
        if is_dir_spec(s, src, cwd) {
            if !recursive {
                (ov(seq![], "cp: -r not specified; omitting directory '"@ + src + "'\n"@, 1), s)
            } else if within(resolve_abs_spec(dst, cwd), resolve_abs_spec(src, cwd)) {
                (ov(seq![], "cp: cannot copy '"@ + src + "' into itself\n"@, 1), s)
            } else {
                (ov(seq![], seq![], 0), copy_dir_spec(s, lim, src, dst, cwd, copy_depth()))
            }
        } else {
            let (ok, s2) = copy_spec(s, lim, src, dst, cwd);
            if !ok {
                (ov(seq![], "cp: cannot copy '"@ + src + "': No such file or directory\n"@, 1), s2)
            } else {
                (ov(seq![], seq![], 0), s2)
            }
        }
    }
}

fn child_path_chars(dir: &[char], name: &[char]) -> (r: Vec<char>)
    ensures
        r@ == child_path(dir@, name@),
{
    let root = root_chars();
    let mut r: Vec<char> = Vec::new();
    if !chars_eq(dir, root.as_slice()) {
        push_all(&mut r, dir);
    }
    r.push('/');
    push_all(&mut r, name);
    assert(r@ =~= child_path(dir@, name@));
    r
}

fn copy_dir_exec(fs: &mut Fs, src: &[char], dst: &[char], cwd: &[char], depth: usize)
    requires
        old(fs).wf(),
        depth <= copy_depth(),
    ensures
        final(fs).wf(),
        final(fs).limits() == old(fs).limits(),
        final(fs).view() == copy_dir_spec(
            old(fs).view(),
            old(fs).limits(),
            src@,
            dst@,
            cwd@,
            (copy_depth() - depth) as nat,
        ),
    decreases copy_depth() - depth,
{
    if depth > 100 {
        return;
    }
    let ghost lim = fs.limits();
    let ghost fuel = (copy_depth() - depth) as nat;
    fs.mkdir_chars(dst, cwd);
    let ghost s1 = fs.view();
    match fs.list_chars(src, cwd, true) {
        Some(entries) => {
            let ghost ev = dir_entry_views(entries@);
            let mut i: usize = 0;
            while i < entries.len()
                invariant
                    i <= entries@.len(),
                    depth <= 100,
                    fuel == (copy_depth() - depth) as nat,
                    ev == dir_entry_views(entries@),
                    fs.wf(),
                    fs.limits() == lim,
                    fs.view() == copy_entries(s1, lim, src@, dst@, cwd@, ev.take(i as int), fuel),
                decreases entries@.len() - i,
            {
                let ghost t = ev.take(i + 1);
                assert(t.drop_last() =~= ev.take(i as int));
                assert(t.last() == ev[i as int]);
                let name = chars_of(entries[i].name.as_str());
                let sc = child_path_chars(src, name.as_slice());
                let dc = child_path_chars(dst, name.as_slice());
                if entries[i].is_dir {
                    copy_dir_exec(fs, sc.as_slice(), dc.as_slice(), cwd, depth + 1);
                } else {
                    fs.copy_chars(sc.as_slice(), dc.as_slice(), cwd);
                }
                i = i + 1;
            }
            assert(ev.take(entries@.len() as int) =~= ev);
        },
        None => {},
    }
}

pub fn cmd_cp(meta: &CommandMeta, args: &[String], fs: &mut Fs, cwd: &[char]) -> (r: CmdOutput)
    requires
        old(fs).wf(),
    ensures
        final(fs).wf(),
        final(fs).limits() == old(fs).limits(),
        r.view() == cp_spec(*meta, str_views(args@), old(fs).view(), old(fs).limits(), cwd@).0,
        final(fs).view() == cp_spec(*meta, str_views(args@), old(fs).view(), old(fs).limits(), cwd@).1,
{
    let pa = parse_args(meta, args);
    let recursive = flag_on_exec(&pa, 'r') || flag_on_exec(&pa, 'R');
    let paths = positional_chars(&pa);
    if paths.len() < 2 {
        return failure(lit("cp: missing destination\n"), 1);
    }
    assert(views(paths@)[0] == paths@[0]@ && views(paths@)[1] == paths@[1]@);
    let src = &paths[0];
    let dst = &paths[1];
    let (isdir, _) = fs.kind_of_path(src.as_slice(), cwd);
    if isdir {
        if !recursive {
            let mut e = lit("cp: -r not specified; omitting directory '");
            push_all(&mut e, src.as_slice());
            push_str(&mut e, "'\n");
            return failure(e, 1);
        }
        let sa = resolve_abs(src.as_slice(), cwd);
        let da = resolve_abs(dst.as_slice(), cwd);
        let inside = sa.len() <= da.len() && crate::text::matches_at(da.as_slice(), sa.as_slice(), 0) && (
        da.len() == sa.len() || da[sa.len()] == '/');
        assert(sa@.len() <= da@.len() ==> (crate::text::occurs_at(da@, sa@, 0) == (da@.take(
            sa@.len() as int,
        ) == sa@))) by {
            if sa@.len() <= da@.len() {
                assert(da@.subrange(0, sa@.len() as int) =~= da@.take(sa@.len() as int));
            }
        }
        if inside {
            let mut e = lit("cp: cannot copy '");
            push_all(&mut e, src.as_slice());
            push_str(&mut e, "' into itself\n");
            return failure(e, 1);
        }
        copy_dir_exec(fs, src.as_slice(), dst.as_slice(), cwd, 0);
        success(Vec::new())
    } else {
        if !fs.copy_chars(src.as_slice(), dst.as_slice(), cwd) {
            let mut e = lit("cp: cannot copy '");
            push_all(&mut e, src.as_slice());
            push_str(&mut e, "': No such file or directory\n");
            return failure(e, 1);
        }
        success(Vec::new())
    }
}

// ══════════════════════════════════════════════════════════════════
// mv, find, tee
// ══════════════════════════════════════════════════════════════════

pub open spec fn mv_spec(meta: CommandMeta, args: Seq<Seq<char>>, s: FsView, cwd: Seq<char>) -> (OutView, FsView) {
    let pa = parse_args_spec(meta, args);
    if pa.positional.len() < 2 {
        (ov(seq![], "mv: missing destination\n"@, 1), s)
    } else {
        let (ok, s2) = move_spec(s, pa.positional[0], pa.positional[1], cwd);
        if !ok {
            (ov(seq![], "mv: cannot move '"@ + pa.positional[0] + "'\n"@, 1), s2)
        } else {
            (ov(seq![], seq![], 0), s2)
        }
    }
}

pub fn cmd_mv(meta: &CommandMeta, args: &[String], fs: &mut Fs, cwd: &[char]) -> (r: CmdOutput)
    requires
        old(fs).wf(),
    ensures
        final(fs).wf(),
        final(fs).limits() == old(fs).limits(),
        r.view() == mv_spec(*meta, str_views(args@), old(fs).view(), cwd@).0,
        final(fs).view() == mv_spec(*meta, str_views(args@), old(fs).view(), cwd@).1,
{
    let pa = parse_args(meta, args);
    let paths = positional_chars(&pa);
    if paths.len() < 2 {
        return failure(lit("mv: missing destination\n"), 1);
    }
    assert(views(paths@)[0] == paths@[0]@ && views(paths@)[1] == paths@[1]@);
    if !fs.move_chars(paths[0].as_slice(), paths[1].as_slice(), cwd) {
        let mut e = lit("mv: cannot move '");
        push_all(&mut e, paths[0].as_slice());
        push_str(&mut e, "'\n");
        return failure(e, 1);
    }
    success(Vec::new())
}

/// The paths, each on its own line.
pub open spec fn path_lines(ps: Seq<Seq<char>>) -> Seq<char>
    decreases ps.len(),
{
    if ps.len() == 0 {
        seq![]
    } else {
        path_lines(ps.drop_last()) + ps.last() + "\n"@
    }
}

/// `find [path] [-name pattern]`: the paths found below the path (the
/// working directory by default) whose name matches (anything by default).
pub open spec fn find_cmd_spec(meta: CommandMeta, args: Seq<Seq<char>>, s: FsView, cwd: Seq<char>) -> OutView {
    let pa = parse_args_spec(meta, args);
    let start = if pa.positional.len() > 0 {
        pa.positional[0]
    } else {
        cwd
    };
    let pattern = match flag_text(pa, 'n') {
        Some(p) => strip_quotes(p),
        None => "*"@,
    };
    ov(path_lines(find_spec(s, start, pattern)), seq![], 0)
}

pub fn cmd_find(meta: &CommandMeta, args: &[String], fs: &Fs, cwd: &[char]) -> (r: CmdOutput)
    ensures
        r.view() == find_cmd_spec(*meta, str_views(args@), fs.view(), cwd@),
{
    let pa = parse_args(meta, args);
    let pos = positional_chars(&pa);
    let start = if pos.len() > 0 {
        assert(views(pos@)[0] == pos@[0]@);
        clone_chars(pos[0].as_slice())
    } else {
        clone_chars(cwd)
    };
    let pattern = match flag_text_exec(&pa, 'n') {
        Some(p) => strip_quotes_exec(p.as_slice()),
        None => lit("*"),
    };
    let found = fs.find_chars(start.as_slice(), pattern.as_slice());
    let ghost fv = views(found@);
    let mut out: Vec<char> = Vec::new();
    let mut i: usize = 0;
    while i < found.len()
        invariant
            i <= found@.len(),
            fv == views(found@),
            out@ == path_lines(fv.take(i as int)),
        decreases found@.len() - i,
    {
        let ghost t = fv.take(i + 1);
        assert(t.drop_last() =~= fv.take(i as int));
        assert(t.last() == found@[i as int]@);
        push_all(&mut out, found[i].as_slice());
        push_str(&mut out, "\n");
        i = i + 1;
    }
    assert(fv.take(found@.len() as int) =~= fv);
    success(out)
}

/// tee over the files: each gets the data (appended to what it holds with
/// `-a`).
pub open spec fn tee_files(s: FsView, lim: FsLimits, files: Seq<Seq<char>>, cwd: Seq<char>, data: Seq<u8>, append: bool) -> FsView
    decreases files.len(),
{
    if files.len() == 0 {
        s
    } else {
        let s1 = tee_files(s, lim, files.drop_last(), cwd, data, append);
        let f = files.last();
        let content = if append {
            match read_spec(s1, f, cwd) {
                Some(ex) => ex + data,
                None => data,
            }
        } else {
            data
        };
        write_spec(s1, lim, f, cwd, content).1
    }
}

/// `tee [-a] [file...]`: stdin to stdout and to each file.
pub open spec fn tee_spec(meta: CommandMeta, args: Seq<Seq<char>>, stdin: Seq<char>, s: FsView, lim: FsLimits, cwd: Seq<char>) -> (
    OutView,
    FsView,
) {
    let pa = parse_args_spec(meta, args);
    (ov(stdin, seq![], 0), tee_files(s, lim, pa.positional, cwd, encode_utf8(stdin), flag_on(pa, 'a')))
}

pub fn cmd_tee(meta: &CommandMeta, args: &[String], stdin: &[char], fs: &mut Fs, cwd: &[char]) -> (r: CmdOutput)
    requires
        old(fs).wf(),
    ensures
        final(fs).wf(),
        final(fs).limits() == old(fs).limits(),
        r.view() == tee_spec(*meta, str_views(args@), stdin@, old(fs).view(), old(fs).limits(), cwd@).0,
        final(fs).view() == tee_spec(*meta, str_views(args@), stdin@, old(fs).view(), old(fs).limits(), cwd@).1,
{
    let pa = parse_args(meta, args);
    let append = flag_on_exec(&pa, 'a');
    let files = positional_chars(&pa);
    let data = encode_text(stdin);
    let ghost fv = views(files@);
    let ghost s0 = fs.view();
    let ghost lim = fs.limits();
    let mut i: usize = 0;
    while i < files.len()
        invariant
            i <= files@.len(),
            fv == views(files@),
            fs.wf(),
            fs.limits() == lim,
            fs.view() == tee_files(s0, lim, fv.take(i as int), cwd@, data@, append),
        decreases files@.len() - i,
    {
        let ghost t = fv.take(i + 1);
        assert(t.drop_last() =~= fv.take(i as int));
        assert(t.last() == files@[i as int]@);
        let f = &files[i];
        if append {
            match fs.read_chars(f.as_slice(), cwd) {
                Some(existing) => {
                    let mut d = existing;
                    let mut k: usize = 0;
                    let ghost e0 = d@;
                    while k < data.len()
                        invariant
                            k <= data@.len(),
                            d@ =~= e0 + data@.take(k as int),
                        decreases data@.len() - k,
                    {
                        d.push(data[k]);
                        k = k + 1;
                    }
                    assert(data@.take(data@.len() as int) =~= data@);
                    fs.write_chars(f.as_slice(), cwd, d.as_slice());
                },
                None => {
                    fs.write_chars(f.as_slice(), cwd, data.as_slice());
                },
            }
        } else {
            fs.write_chars(f.as_slice(), cwd, data.as_slice());
        }
        i = i + 1;
    }
    assert(fv.take(files@.len() as int) =~= fv);
    success(clone_chars(stdin))
}

// ══════════════════════════════════════════════════════════════════
// cd
// ══════════════════════════════════════════════════════════════════

/// A directory path in normal form: `/` and the components with `.`, empty
/// ones and `..` resolved.
pub open spec fn cd_norm(p: Seq<char>) -> Seq<char> {
    seq!['/'] + join_spec(norm_comps(split_on(p.drop_first(), '/')), seq!['/'])
}

/// `cd [dir]` ($HOME, else `/`, by default): the new working directory, or
/// an error naming the first argument.
pub open spec fn cd_spec(meta: CommandMeta, args: Seq<Seq<char>>, s: FsView, vars: Map<Seq<char>, Seq<char>>, cwd: Seq<char>) -> (
    OutView,
    Option<Seq<char>>,
) {
    let pa = parse_args_spec(meta, args);
    let target = if pa.positional.len() == 0 {
        if vars.contains_key("HOME"@) {
            vars["HOME"@]
        } else {
            seq!['/']
        }
    } else {
        pa.positional[0]
    };
    let new_cwd = if target.len() > 0 && target[0] == '/' {
        target
    } else if cwd == seq!['/'] {
        seq!['/'] + target
    } else {
        cwd + seq!['/'] + target
    };
    let first: Seq<char> = if args.len() > 0 {
        args[0]
    } else {
        seq![]
    };
    match node_at(s.entries, key_of(resolve_abs_spec(new_cwd, seq!['/']))) {
        None => (ov(seq![], "cd: no such file or directory: "@ + first + "\n"@, 1), None),
        Some(NodeView::Dir) => (ov(seq![], seq![], 0), Some(cd_norm(new_cwd))),
        Some(NodeView::File(_)) => (ov(seq![], "cd: not a directory: "@ + first + "\n"@, 1), None),
    }
}

pub fn cmd_cd(meta: &CommandMeta, args: &[String], fs: &Fs, env: &mut Env) -> (r: CmdOutput)
    ensures
        r.view() == cd_spec(*meta, str_views(args@), fs.view(), old(env).vars_view(), old(env).cwd_view()).0,
        match cd_spec(*meta, str_views(args@), fs.view(), old(env).vars_view(), old(env).cwd_view()).1 {
            Some(c) => final(env).cwd_view() == c && final(env).vars_view() == old(env).vars_view().insert(
                "PWD"@,
                c,
            ),
            None => final(env).cwd_view() == old(env).cwd_view() && final(env).vars_view()
                == old(env).vars_view(),
        },
{
    let pa = parse_args(meta, args);
    let pos = positional_chars(&pa);
    let root = root_chars();
    let target = if pos.len() == 0 {
        match env.get("HOME") {
            Some(h) => chars_of(h),
            None => clone_chars(root.as_slice()),
        }
    } else {
        assert(views(pos@)[0] == pos@[0]@);
        clone_chars(pos[0].as_slice())
    };
    let cwd = chars_of(env.cwd());
    let new_cwd = if target.len() > 0 && target[0] == '/' {
        target
    } else if chars_eq(cwd.as_slice(), root.as_slice()) {
        let mut n = clone_chars(root.as_slice());
        push_all(&mut n, target.as_slice());
        n
    } else {
        let mut n = clone_chars(cwd.as_slice());
        n.push('/');
        push_all(&mut n, target.as_slice());
        assert(n@ =~= cwd@ + seq!['/'] + target@);
        n
    };
    let first = if args.len() > 0 {
        chars_of(args[0].as_str())
    } else {
        Vec::new()
    };
    assert(args@.len() > 0 ==> str_views(args@)[0] == args@[0]@);
    let (isdir, found) = fs.kind_of_path(new_cwd.as_slice(), root.as_slice());
    if !found {
        let mut e = lit("cd: no such file or directory: ");
        push_all(&mut e, first.as_slice());
        push_str(&mut e, "\n");
        return failure(e, 1);
    }
    if !isdir {
        let mut e = lit("cd: not a directory: ");
        push_all(&mut e, first.as_slice());
        push_str(&mut e, "\n");
        return failure(e, 1);
    }
    let rest = if new_cwd.len() > 0 {
        subvec(new_cwd.as_slice(), 1, new_cwd.len())
    } else {
        Vec::new()
    };
    assert(rest@ =~= new_cwd@.drop_first());
    let normalized = crate::paths::normalize_components_abs(rest.as_slice());
    let s = string_of(normalized.as_slice());
    env.set_cwd(s.as_str());
    success(Vec::new())
}

} // verus!
