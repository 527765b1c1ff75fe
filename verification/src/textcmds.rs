//! The commands that transform text: echo, basename, head, tail, grep, wc,
//! uniq and cut.
use crate::argparse::{parse_args, parse_args_spec, str_views, ArgsView, CommandMeta, ParsedArgs};
use crate::commands::{
    error_lines, failure, flag_on, flag_on_exec, flag_text, flag_text_exec, output, ov,
    positional_chars, read_text, read_text_exec, success, CmdOutput, OutView,
};
use crate::fs::{Fs, FsView};
use crate::paths::{base_name, base_name_exec};
use crate::text::{
    chars_eq, clone_chars, contains_chars, contains_sub, dec, encode_text, has_suffix, join,
    join_spec, lines, lines_of, lit, lower_text, matches_at, pad_left, pad_left_exec,
    parse_usize, parse_usize_spec, push_all, push_str, replace_all, replace_all_exec,
    split_chars, split_on, split_words, subvec, lower_text_exec, u64_to_text, views, words_of,
    wrap_add, wrap_add_exec,
};
use vstd::prelude::*;
use vstd::utf8::encode_utf8;

verus! {

// ══════════════════════════════════════════════════════════════════
// Shared
// ══════════════════════════════════════════════════════════════════

/// The parse errors joined into one message.
pub fn error_text(pa: &ParsedArgs) -> (r: Vec<char>)
    ensures
        r@ == error_lines(str_views(pa.errors@)),
{
    let mut es: Vec<Vec<char>> = Vec::new();
    let mut i: usize = 0;
    while i < pa.errors.len()
        invariant
            i <= pa.errors@.len(),
            views(es@) =~= str_views(pa.errors@).take(i as int),
        decreases pa.errors@.len() - i,
    {
        let ghost before = views(es@);
        es.push(crate::text::chars_of(pa.errors[i].as_str()));
        assert(views(es@) =~= before.push(pa.errors@[i as int]@));
        i = i + 1;
    }
    assert(str_views(pa.errors@).take(pa.errors@.len() as int) =~= str_views(pa.errors@));
    let mut r = join(&es, lit("\n").as_slice());
    push_str(&mut r, "\n");
    r
}

/// The text a command works on: stdin when no file is named, else the
/// first file; the message names the command when the file cannot be read.
pub open spec fn file_text(pos: Seq<Seq<char>>, stdin: Seq<char>, fs: FsView, cwd: Seq<char>, what: Seq<char>) -> Result<
    Seq<char>,
    Seq<char>,
> {
    if pos.len() == 0 {
        Ok(stdin)
    } else {
        match read_text(fs, pos[0], cwd) {
            Some(t) => Ok(t),
            None => Err(replace_all("cannot read '"@ + pos[0] + "'\n"@, "cannot read"@, what)),
        }
    }
}

pub fn file_text_exec(pos: &Vec<Vec<char>>, stdin: &[char], fs: &Fs, cwd: &[char], what: &str) -> (r: Result<
    Vec<char>,
    Vec<char>,
>)
    ensures
        match r {
            Ok(t) => file_text(views(pos@), stdin@, fs.view(), cwd@, what@) == Ok::<Seq<char>, Seq<char>>(t@),
            Err(e) => file_text(views(pos@), stdin@, fs.view(), cwd@, what@) == Err::<Seq<char>, Seq<char>>(e@),
        },
{
    if pos.len() == 0 {
        return Ok(clone_chars(stdin));
    }
    assert(views(pos@)[0] == pos@[0]@);
    match read_text_exec(fs, pos[0].as_slice(), cwd) {
        Some(t) => Ok(t),
        None => {
            let mut m = lit("cannot read '");
            push_all(&mut m, pos[0].as_slice());
            push_str(&mut m, "'\n");
            let from = lit("cannot read");
            let to = lit(what);
            Err(replace_all_exec(m.as_slice(), from.as_slice(), to.as_slice()))
        },
    }
}

/// The number given to `-n`, or the default when it is missing or not a
/// number.
pub open spec fn count_flag(pa: ArgsView, default: usize) -> usize {
    match flag_text(pa, 'n') {
        Some(v) => match parse_usize_spec(v) {
            Some(k) => k,
            None => default,
        },
        None => default,
    }
}

fn count_flag_exec(pa: &ParsedArgs, default: usize) -> (r: usize)
    ensures
        r == count_flag(
            ArgsView { flags: pa.flags_view(), positional: str_views(pa.positional@), errors: str_views(pa.errors@) },
            default,
        ),
{
    match flag_text_exec(pa, 'n') {
        Some(v) => match parse_usize(v.as_slice()) {
            Some(k) => k,
            None => default,
        },
        None => default,
    }
}

/// The lines joined back, each followed by a newline (an empty list gives a
/// single newline).
pub open spec fn lines_out(ls: Seq<Seq<char>>) -> Seq<char> {
    join_spec(ls, "\n"@) + "\n"@
}

fn lines_out_exec(ls: &Vec<Vec<char>>) -> (r: Vec<char>)
    ensures
        r@ == lines_out(views(ls@)),
{
    let mut r = join(ls, lit("\n").as_slice());
    push_str(&mut r, "\n");
    r
}

fn take_lines(ls: &Vec<Vec<char>>, a: usize, b: usize) -> (r: Vec<Vec<char>>)
    requires
        a <= b <= ls@.len(),
    ensures
        views(r@) == views(ls@).subrange(a as int, b as int),
{
    let mut r: Vec<Vec<char>> = Vec::new();
    let mut i: usize = a;
    while i < b
        invariant
            a <= i <= b <= ls@.len(),
            views(r@) =~= views(ls@).subrange(a as int, i as int),
        decreases b - i,
    {
        let ghost before = views(r@);
        r.push(clone_chars(ls[i].as_slice()));
        assert(views(r@) =~= before.push(ls@[i as int]@));
        i = i + 1;
    }
    r
}

// ══════════════════════════════════════════════════════════════════
// echo
// ══════════════════════════════════════════════════════════════════

/// `echo`: the arguments joined by spaces, with a newline unless `-n`.
pub open spec fn echo_spec(meta: CommandMeta, args: Seq<Seq<char>>) -> OutView {
    let pa = parse_args_spec(meta, args);
    let body = join_spec(pa.positional, " "@);
    ov(if flag_on(pa, 'n') { body } else { body + "\n"@ }, seq![], 0)
}

pub fn cmd_echo(meta: &CommandMeta, args: &[String]) -> (r: CmdOutput)
    ensures
        r.view() == echo_spec(*meta, str_views(args@)),
{
    let pa = parse_args(meta, args);
    let pos = positional_chars(&pa);
    let mut out = join(&pos, lit(" ").as_slice());
    if !flag_on_exec(&pa, 'n') {
        push_str(&mut out, "\n");
    }
    success(out)
}

// ══════════════════════════════════════════════════════════════════
// basename
// ══════════════════════════════════════════════════════════════════

/// `basename`: the last component of the path, without the suffix when it
/// ends with it.
pub open spec fn basename_spec(meta: CommandMeta, args: Seq<Seq<char>>) -> OutView {
    let pa = parse_args_spec(meta, args);
    if pa.positional.len() == 0 {
        ov(seq![], "basename: missing operand\n"@, 1)
    } else {
        let name = base_name(pa.positional[0]);
        let res = if pa.positional.len() > 1 && has_suffix(name, pa.positional[1]) {
            name.take(name.len() - pa.positional[1].len())
        } else {
            name
        };
        ov(res + "\n"@, seq![], 0)
    }
}

pub fn cmd_basename(meta: &CommandMeta, args: &[String]) -> (r: CmdOutput)
    ensures
        r.view() == basename_spec(*meta, str_views(args@)),
{
    let pa = parse_args(meta, args);
    let pos = positional_chars(&pa);
    if pos.len() == 0 {
        return failure(lit("basename: missing operand\n"), 1);
    }
    assert(views(pos@)[0] == pos@[0]@);
    let name = base_name_exec(pos[0].as_slice());
    let mut res = if pos.len() > 1 && pos[1].len() <= name.len() && matches_at(
        name.as_slice(),
        pos[1].as_slice(),
        name.len() - pos[1].len(),
    ) {
        assert(views(pos@)[1] == pos@[1]@);
        subvec(name.as_slice(), 0, name.len() - pos[1].len())
    } else {
        assert(pos@.len() > 1 ==> views(pos@)[1] == pos@[1]@);
        clone_chars(name.as_slice())
    };
    push_str(&mut res, "\n");
    success(res)
}

// ══════════════════════════════════════════════════════════════════
// head and tail
// ══════════════════════════════════════════════════════════════════

/// `head`: the first `-n` lines (10 by default).
pub open spec fn head_spec(meta: CommandMeta, args: Seq<Seq<char>>, stdin: Seq<char>, fs: FsView, cwd: Seq<char>) -> OutView {
    let pa = parse_args_spec(meta, args);
    let n = count_flag(pa, 10);
    match file_text(pa.positional, stdin, fs, cwd, "head: cannot open"@) {
        Err(e) => ov(seq![], e, 1),
        Ok(t) => {
            let ls = lines_of(t);
            let k: int = if n < ls.len() { n as int } else { ls.len() as int };
            ov(lines_out(ls.take(k)), seq![], 0)
        },
    }
}

pub fn cmd_head(meta: &CommandMeta, args: &[String], stdin: &[char], fs: &Fs, cwd: &[char]) -> (r: CmdOutput)
    ensures
        r.view() == head_spec(*meta, str_views(args@), stdin@, fs.view(), cwd@),
{
    let pa = parse_args(meta, args);
    let n = count_flag_exec(&pa, 10);
    let pos = positional_chars(&pa);
    match file_text_exec(&pos, stdin, fs, cwd, "head: cannot open") {
        Err(e) => failure(e, 1),
        Ok(t) => {
            let ls = lines(t.as_slice());
            let k = if n < ls.len() { n } else { ls.len() };
            let part = take_lines(&ls, 0, k);
            assert(views(ls@).subrange(0, k as int) =~= views(ls@).take(k as int));
            success(lines_out_exec(&part))
        },
    }
}

/// `tail`: the last `-n` lines (10 by default).
pub open spec fn tail_spec(meta: CommandMeta, args: Seq<Seq<char>>, stdin: Seq<char>, fs: FsView, cwd: Seq<char>) -> OutView {
    let pa = parse_args_spec(meta, args);
    let n = count_flag(pa, 10);
    match file_text(pa.positional, stdin, fs, cwd, "tail: cannot open"@) {
        Err(e) => ov(seq![], e, 1),
        Ok(t) => {
            let ls = lines_of(t);
            let skip: int = if ls.len() > n { ls.len() - n } else { 0 };
            ov(lines_out(ls.skip(skip)), seq![], 0)
        },
    }
}

pub fn cmd_tail(meta: &CommandMeta, args: &[String], stdin: &[char], fs: &Fs, cwd: &[char]) -> (r: CmdOutput)
    ensures
        r.view() == tail_spec(*meta, str_views(args@), stdin@, fs.view(), cwd@),
{
    let pa = parse_args(meta, args);
    let n = count_flag_exec(&pa, 10);
    let pos = positional_chars(&pa);
    match file_text_exec(&pos, stdin, fs, cwd, "tail: cannot open") {
        Err(e) => failure(e, 1),
        Ok(t) => {
            let ls = lines(t.as_slice());
            let skip = if ls.len() > n { ls.len() - n } else { 0 };
            let part = take_lines(&ls, skip, ls.len());
            assert(views(ls@).subrange(skip as int, ls@.len() as int) =~= views(ls@).skip(skip as int));
            success(lines_out_exec(&part))
        },
    }
}

// ══════════════════════════════════════════════════════════════════
// grep
// ══════════════════════════════════════════════════════════════════

/// A pattern with one pair of surrounding quotes (single or double) taken off.
pub open spec fn strip_quotes(p: Seq<char>) -> Seq<char> {
    if p.len() >= 2 && ((p[0] == '\'' && p.last() == '\'') || (p[0] == '"' && p.last() == '"')) {
        p.subrange(1, p.len() - 1)
    } else {
        p
    }
}

pub fn strip_quotes_exec(p: &[char]) -> (r: Vec<char>)
    ensures
        r@ == strip_quotes(p@),
{
    let n = p.len();
    if n >= 2 && ((p[0] == '\'' && p[n - 1] == '\'') || (p[0] == '"' && p[n - 1] == '"')) {
        subvec(p, 1, n - 1)
    } else {
        clone_chars(p)
    }
}

/// Whether a line matches (lower-cased first when the search ignores case).
pub open spec fn grep_hit(pat: Seq<char>, ci: bool, line: Seq<char>) -> bool {
    contains_sub(if ci { lower_text(line) } else { line }, pat)
}

/// An output line of grep: the file name when several files are searched,
/// the line number when asked, and the line.
pub open spec fn grep_fmt(prefix: Option<Seq<char>>, numbered: bool, i: nat, line: Seq<char>) -> Seq<char> {
    let head = match prefix {
        Some(f) => f + ":"@,
        None => seq![],
    };
    if numbered {
        head + dec(i + 1) + ":"@ + line + "\n"@
    } else {
        head + line + "\n"@
    }
}

/// The matching lines of a text, formatted, and whether there was one.
pub open spec fn grep_lines(ls: Seq<Seq<char>>, pat: Seq<char>, ci: bool, numbered: bool, prefix: Option<Seq<char>>) -> (
    Seq<char>,
    bool,
)
    decreases ls.len(),
{
    if ls.len() == 0 {
        (seq![], false)
    } else {
        let (o, f) = grep_lines(ls.drop_last(), pat, ci, numbered, prefix);
        if grep_hit(pat, ci, ls.last()) {
            (o + grep_fmt(prefix, numbered, (ls.len() - 1) as nat, ls.last()), true)
        } else {
            (o, f)
        }
    }
}

/// grep over the named files, one after the other; a file that cannot be
/// read gives a message on stdout.
pub open spec fn grep_files(
    fs: FsView,
    cwd: Seq<char>,
    files: Seq<Seq<char>>,
    pat: Seq<char>,
    ci: bool,
    numbered: bool,
    multiple: bool,
) -> (Seq<char>, bool)
    decreases files.len(),
{
    if files.len() == 0 {
        (seq![], false)
    } else {
        let (o, f) = grep_files(fs, cwd, files.drop_last(), pat, ci, numbered, multiple);
        let file = files.last();
        match read_text(fs, file, cwd) {
            Some(t) => {
                let (o2, f2) = grep_lines(
                    lines_of(t),
                    pat,
                    ci,
                    numbered,
                    if multiple {
                        Some(file)
                    } else {
                        None
                    },
                );
                (o + o2, f || f2)
            },
            None => (o + "grep: "@ + file + ": No such file or directory\n"@, f),
        }
    }
}

/// `grep`: the lines containing the pattern; exit code 0 when a line
/// matched, 1 when none did.
pub open spec fn grep_spec(meta: CommandMeta, args: Seq<Seq<char>>, stdin: Seq<char>, fs: FsView, cwd: Seq<char>) -> OutView {
    let pa = parse_args_spec(meta, args);
    if pa.errors.len() > 0 {
        ov(seq![], error_lines(pa.errors), 1)
    } else if pa.positional.len() == 0 {
        ov(seq![], "grep: no pattern specified\n"@, 2)
    } else {
        let ci = flag_on(pa, 'i');
        let num = flag_on(pa, 'n');
        let pattern = strip_quotes(pa.positional[0]);
        let pat = if ci {
            lower_text(pattern)
        } else {
            pattern
        };
        let files = pa.positional.drop_first();
        let (o, f) = if files.len() == 0 {
            grep_lines(lines_of(stdin), pat, ci, num, None)
        } else {
            grep_files(fs, cwd, files, pat, ci, num, files.len() > 1)
        };
        ov(o, seq![], if f { 0 } else { 1 })
    }
}

#[verifier::rlimit(30)]
fn grep_lines_exec(
    ls: &Vec<Vec<char>>,
    pat: &[char],
    ci: bool,
    numbered: bool,
    prefix: Option<&Vec<char>>,
    out: &mut Vec<char>,
) -> (found: bool)
    ensures
        final(out)@ == old(out)@ + grep_lines(
            views(ls@),
            pat@,
            ci,
            numbered,
            match prefix {
                Some(p) => Some(p@),
                None => None,
            },
        ).0,
        found == grep_lines(
            views(ls@),
            pat@,
            ci,
            numbered,
            match prefix {
                Some(p) => Some(p@),
                None => None,
            },
        ).1,
{
    let ghost pv = match prefix {
        Some(p) => Some(p@),
        None => None::<Seq<char>>,
    };
    let ghost out0 = out@;
    let mut found = false;
    let mut i: usize = 0;
    while i < ls.len()
        invariant
            i <= ls@.len(),
            pv == (match prefix {
                Some(p) => Some(p@),
                None => None::<Seq<char>>,
            }),
            out@ == out0 + grep_lines(views(ls@).take(i as int), pat@, ci, numbered, pv).0,
            found == grep_lines(views(ls@).take(i as int), pat@, ci, numbered, pv).1,
        decreases ls@.len() - i,
    {
        let ghost t = views(ls@).take(i + 1);
        assert(t.drop_last() =~= views(ls@).take(i as int));
        assert(t.last() == ls@[i as int]@);
        let line = &ls[i];
        let hit = if ci {
            let low = lower_text_exec(line.as_slice());
            contains_chars(low.as_slice(), pat)
        } else {
            contains_chars(line.as_slice(), pat)
        };
        if hit {
            let ghost before = out@;
            match prefix {
                Some(p) => {
                    push_all(out, p.as_slice());
                    push_str(out, ":");
                },
                None => {},
            }
            if numbered {
                let num = u64_to_text((i + 1) as u64);
                push_all(out, num.as_slice());
                push_str(out, ":");
            }
            push_all(out, line.as_slice());
            push_str(out, "\n");
            assert(out@ =~= before + grep_fmt(pv, numbered, i as nat, line@));
            found = true;
        }
        i = i + 1;
    }
    assert(views(ls@).take(ls@.len() as int) =~= views(ls@));
    found
}

pub fn cmd_grep(meta: &CommandMeta, args: &[String], stdin: &[char], fs: &Fs, cwd: &[char]) -> (r: CmdOutput)
    ensures
        r.view() == grep_spec(*meta, str_views(args@), stdin@, fs.view(), cwd@),
{
    let pa = parse_args(meta, args);
    if pa.errors.len() > 0 {
        return failure(error_text(&pa), 1);
    }
    let pos = positional_chars(&pa);
    if pos.len() == 0 {
        return failure(lit("grep: no pattern specified\n"), 2);
    }
    let ci = flag_on_exec(&pa, 'i');
    let num = flag_on_exec(&pa, 'n');
    assert(views(pos@)[0] == pos@[0]@);
    let pattern = strip_quotes_exec(pos[0].as_slice());
    let pat = if ci {
        lower_text_exec(pattern.as_slice())
    } else {
        pattern
    };
    let mut out: Vec<char> = Vec::new();
    let mut found = false;
    if pos.len() == 1 {
        let ls = lines(stdin);
        found = grep_lines_exec(&ls, pat.as_slice(), ci, num, None, &mut out);
        assert(views(pos@).drop_first().len() == 0);
    } else {
        let ghost files = views(pos@).drop_first();
        let multiple = pos.len() > 2;
        let mut k: usize = 1;
        while k < pos.len()
            invariant
                1 <= k <= pos@.len(),
                files == views(pos@).drop_first(),
                multiple == (files.len() > 1),
                (out@, found) == grep_files(fs.view(), cwd@, files.take(k - 1), pat@, ci, num, multiple),
            decreases pos@.len() - k,
        {
            let ghost t = files.take(k as int);
            assert(t.drop_last() =~= files.take(k - 1));
            assert(t.last() == pos@[k as int]@);
            let file = &pos[k];
            match read_text_exec(fs, file.as_slice(), cwd) {
                Some(text) => {
                    let ls = lines(text.as_slice());
                    let f2 = if multiple {
                        grep_lines_exec(&ls, pat.as_slice(), ci, num, Some(file), &mut out)
                    } else {
                        grep_lines_exec(&ls, pat.as_slice(), ci, num, None, &mut out)
                    };
                    found = found || f2;
                },
                None => {
                    push_str(&mut out, "grep: ");
                    push_all(&mut out, file.as_slice());
                    push_str(&mut out, ": No such file or directory\n");
                },
            }
            k = k + 1;
        }
        assert(files.take(files.len() as int) =~= files);
    }
    let code: i32 = if found { 0 } else { 1 };
    success_or(out, code)
}

fn success_or(out: Vec<char>, code: i32) -> (r: CmdOutput)
    ensures
        r.view() == ov(out@, seq![], code),
{
    output(out, Vec::new(), code)
}

// ══════════════════════════════════════════════════════════════════
// wc
// ══════════════════════════════════════════════════════════════════

/// Lines, words and bytes (UTF-8) of a text.
pub open spec fn counts(t: Seq<char>) -> (u64, u64, u64) {
    (lines_of(t).len() as u64, words_of(t).len() as u64, encode_utf8(t).len() as u64)
}

fn counts_exec(t: &[char]) -> (r: (u64, u64, u64))
    ensures
        r == counts(t@),
{
    let ls = lines(t);
    let ws = split_words(t);
    let bs = encode_text(t);
    assert(views(ls@).len() == ls@.len());
    assert(views(ws@).len() == ws@.len());
    (ls.len() as u64, ws.len() as u64, bs.len() as u64)
}

/// A count right-aligned in eight columns (`{:>8}`).
pub open spec fn col8(n: u64) -> Seq<char> {
    pad_left(dec(n as nat), 8)
}

/// A line of wc output: the chosen counts, then the name if any.
pub open spec fn count_line(l: u64, w: u64, b: u64, sl: bool, sw: bool, sb: bool, name: Option<Seq<char>>) -> Seq<char> {
    let parts = (if sl { seq![col8(l)] } else { seq![] }) + (if sw { seq![col8(w)] } else { seq![] }) + (
    if sb {
        seq![col8(b)]
    } else {
        seq![]
    });
    join_spec(parts, " "@) + match name {
        Some(n) => " "@ + n,
        None => seq![],
    } + "\n"@
}

fn count_line_exec(l: u64, w: u64, b: u64, sl: bool, sw: bool, sb: bool, name: Option<&[char]>) -> (r: Vec<char>)
    ensures
        r@ == count_line(
            l,
            w,
            b,
            sl,
            sw,
            sb,
            match name {
                Some(n) => Some(n@),
                None => None,
            },
        ),
{
    let mut parts: Vec<Vec<char>> = Vec::new();
    let ghost p0 = views(parts@);
    if sl {
        parts.push(pad_left_exec(u64_to_text(l).as_slice(), 8));
    }
    let ghost p1 = views(parts@);
    assert(p1 =~= (if sl { seq![col8(l)] } else { seq![] }));
    if sw {
        parts.push(pad_left_exec(u64_to_text(w).as_slice(), 8));
    }
    let ghost p2 = views(parts@);
    assert(p2 =~= p1 + (if sw { seq![col8(w)] } else { seq![] }));
    if sb {
        parts.push(pad_left_exec(u64_to_text(b).as_slice(), 8));
    }
    assert(views(parts@) =~= p2 + (if sb { seq![col8(b)] } else { seq![] }));
    let mut r = join(&parts, lit(" ").as_slice());
    match name {
        Some(n) => {
            push_str(&mut r, " ");
            push_all(&mut r, n);
        },
        None => {},
    }
    push_str(&mut r, "\n");
    r
}

/// wc over the named files: their lines and the running totals.
pub open spec fn wc_files(fs: FsView, cwd: Seq<char>, files: Seq<Seq<char>>, sl: bool, sw: bool, sb: bool) -> (
    Seq<char>,
    u64,
    u64,
    u64,
)
    decreases files.len(),
{
    if files.len() == 0 {
        (seq![], 0, 0, 0)
    } else {
        let (o, tl, tw, tb) = wc_files(fs, cwd, files.drop_last(), sl, sw, sb);
        let file = files.last();
        match read_text(fs, file, cwd) {
            Some(t) => {
                let (l, w, b) = counts(t);
                (
                    o + count_line(l, w, b, sl, sw, sb, Some(file)),
                    wrap_add(tl, l),
                    wrap_add(tw, w),
                    wrap_add(tb, b),
                )
            },
            None => (o + "wc: "@ + file + ": No such file or directory\n"@, tl, tw, tb),
        }
    }
}

/// `wc`: line, word and byte counts (all three unless some are chosen),
/// of stdin or of each file, with a total line for several files.
pub open spec fn wc_spec(meta: CommandMeta, args: Seq<Seq<char>>, stdin: Seq<char>, fs: FsView, cwd: Seq<char>) -> OutView {
    let pa = parse_args_spec(meta, args);
    let (l0, w0, c0) = (flag_on(pa, 'l'), flag_on(pa, 'w'), flag_on(pa, 'c'));
    let all = !l0 && !w0 && !c0;
    let (sl, sw, sb) = (l0 || all, w0 || all, c0 || all);
    let files = pa.positional;
    if files.len() == 0 {
        let (l, w, b) = counts(stdin);
        ov(count_line(l, w, b, sl, sw, sb, None), seq![], 0)
    } else {
        let (o, tl, tw, tb) = wc_files(fs, cwd, files, sl, sw, sb);
        ov(
            o + if files.len() > 1 {
                count_line(tl, tw, tb, sl, sw, sb, Some("total"@))
            } else {
                seq![]
            },
            seq![],
            0,
        )
    }
}

pub fn cmd_wc(meta: &CommandMeta, args: &[String], stdin: &[char], fs: &Fs, cwd: &[char]) -> (r: CmdOutput)
    ensures
        r.view() == wc_spec(*meta, str_views(args@), stdin@, fs.view(), cwd@),
{
    let pa = parse_args(meta, args);
    let l0 = flag_on_exec(&pa, 'l');
    let w0 = flag_on_exec(&pa, 'w');
    let c0 = flag_on_exec(&pa, 'c');
    let all = !l0 && !w0 && !c0;
    let sl = l0 || all;
    let sw = w0 || all;
    let sb = c0 || all;
    let files = positional_chars(&pa);
    if files.len() == 0 {
        let (l, w, b) = counts_exec(stdin);
        return success(count_line_exec(l, w, b, sl, sw, sb, None));
    }
    let ghost fv = views(files@);
    let mut out: Vec<char> = Vec::new();
    let mut tl: u64 = 0;
    let mut tw: u64 = 0;
    let mut tb: u64 = 0;
    let mut k: usize = 0;
    while k < files.len()
        invariant
            k <= files@.len(),
            fv == views(files@),
            (out@, tl, tw, tb) == wc_files(fs.view(), cwd@, fv.take(k as int), sl, sw, sb),
        decreases files@.len() - k,
    {
        let ghost t = fv.take(k + 1);
        assert(t.drop_last() =~= fv.take(k as int));
        assert(t.last() == files@[k as int]@);
        let file = &files[k];
        match read_text_exec(fs, file.as_slice(), cwd) {
            Some(text) => {
                let (l, w, b) = counts_exec(text.as_slice());
                let line = count_line_exec(l, w, b, sl, sw, sb, Some(file.as_slice()));
                push_all(&mut out, line.as_slice());
                tl = wrap_add_exec(tl, l);
                tw = wrap_add_exec(tw, w);
                tb = wrap_add_exec(tb, b);
            },
            None => {
                push_str(&mut out, "wc: ");
                push_all(&mut out, file.as_slice());
                push_str(&mut out, ": No such file or directory\n");
            },
        }
        k = k + 1;
    }
    assert(fv.take(files@.len() as int) =~= fv);
    if files.len() > 1 {
        let total = lit("total");
        let line = count_line_exec(tl, tw, tb, sl, sw, sb, Some(total.as_slice()));
        push_all(&mut out, line.as_slice());
    }
    success(out)
}

// ══════════════════════════════════════════════════════════════════
// uniq
// ══════════════════════════════════════════════════════════════════

/// Runs of equal adjacent lines, each with its length.
pub open spec fn runs(ls: Seq<Seq<char>>) -> Seq<(Seq<char>, nat)>
    decreases ls.len(),
{
    if ls.len() == 0 {
        seq![]
    } else {
        let r = runs(ls.drop_last());
        if r.len() > 0 && r.last().0 == ls.last() {
            r.update(r.len() - 1, (ls.last(), r.last().1 + 1))
        } else {
            r.push((ls.last(), 1))
        }
    }
}

/// The number of lines that runs stand for.
pub open spec fn run_total(rs: Seq<(Seq<char>, nat)>) -> nat
    decreases rs.len(),
{
    if rs.len() == 0 {
        0
    } else {
        run_total(rs.drop_last()) + rs.last().1
    }
}

/// What `uniq` counts: runs next to each other hold different lines, every
/// run holds at least one line, and together they hold every line.
pub proof fn law_runs(ls: Seq<Seq<char>>)
    ensures
        forall|i: int, j: int|
            0 <= i && j == i + 1 && j < runs(ls).len() ==> (#[trigger] runs(ls)[i]).0 != (
            #[trigger] runs(ls)[j]).0,
        forall|i: int| 0 <= i < runs(ls).len() ==> (#[trigger] runs(ls)[i]).1 >= 1,
        run_total(runs(ls)) == ls.len(),
    decreases ls.len(),
{
    if ls.len() > 0 {
        let t = ls.drop_last();
        law_runs(t);
        let r = runs(t);
        let l = ls.last();
        if r.len() > 0 && r.last().0 == l {
            let u = r.update(r.len() - 1, (l, r.last().1 + 1));
            assert(u.drop_last() =~= r.drop_last());
            assert forall|i: int, j: int| 0 <= i && j == i + 1 && j < u.len() implies (
            #[trigger] u[i]).0 != (#[trigger] u[j]).0 by {
                assert(r[i] == u[i] || i == r.len() - 1);
                if j == u.len() - 1 {
                    assert(u[j].0 == r[j].0);
                    assert(u[i] == r[i]);
                } else {
                    assert(u[i] == r[i]);
                    assert(u[j] == r[j]);
                }
            }
            assert forall|i: int| 0 <= i < u.len() implies (#[trigger] u[i]).1 >= 1 by {
                if i < u.len() - 1 {
                    assert(u[i] == r[i]);
                }
            }
        } else {
            let u = r.push((l, 1));
            assert(u.drop_last() =~= r);
            assert forall|i: int, j: int| 0 <= i && j == i + 1 && j < u.len() implies (
            #[trigger] u[i]).0 != (#[trigger] u[j]).0 by {
                assert(u[i] == r[i]);
                if j < r.len() {
                    assert(u[j] == r[j]);
                }
            }
            assert forall|i: int| 0 <= i < u.len() implies (#[trigger] u[i]).1 >= 1 by {
                if i < r.len() {
                    assert(u[i] == r[i]);
                }
            }
        }
    }
}

/// Whether uniq shows a run: `-d` keeps repeated lines, `-u` single ones,
/// both keep nothing.
pub open spec fn uniq_show(count: nat, d: bool, u: bool) -> bool {
    if d && u {
        false
    } else if d {
        count > 1
    } else if u {
        count == 1
    } else {
        true
    }
}

pub open spec fn uniq_out(rs: Seq<(Seq<char>, nat)>, c: bool, d: bool, u: bool) -> Seq<char>
    decreases rs.len(),
{
    if rs.len() == 0 {
        seq![]
    } else {
        let (line, n) = rs.last();
        uniq_out(rs.drop_last(), c, d, u) + if uniq_show(n, d, u) {
            if c {
                dec(n) + " "@ + line + "\n"@
            } else {
                line + "\n"@
            }
        } else {
            seq![]
        }
    }
}

/// `uniq`: each run of equal adjacent lines once, with `-c` counts.
pub open spec fn uniq_spec(meta: CommandMeta, args: Seq<Seq<char>>, stdin: Seq<char>, fs: FsView, cwd: Seq<char>) -> OutView {
    let pa = parse_args_spec(meta, args);
    match file_text(pa.positional, stdin, fs, cwd, "uniq: cannot read"@) {
        Err(e) => ov(seq![], e, 1),
        Ok(t) => ov(
            uniq_out(runs(lines_of(t)), flag_on(pa, 'c'), flag_on(pa, 'd'), flag_on(pa, 'u')),
            seq![],
            0,
        ),
    }
}

fn push_run(out: &mut Vec<char>, line: &[char], n: usize, c: bool, d: bool, u: bool)
    ensures
        final(out)@ == old(out)@ + uniq_out(seq![(line@, n as nat)], c, d, u),
{
    let ghost e = seq![(line@, n as nat)];
    let ghost piece = if uniq_show(n as nat, d, u) {
        if c {
            dec(n as nat) + " "@ + line@ + "\n"@
        } else {
            line@ + "\n"@
        }
    } else {
        seq![]
    };
    assert(e.drop_last() =~= seq![]);
    assert(e.last() == (line@, n as nat));
    assert(uniq_out(e.drop_last(), c, d, u) == Seq::<char>::empty());
    assert(uniq_out(e, c, d, u) == uniq_out(e.drop_last(), c, d, u) + piece);
    assert(uniq_out(e, c, d, u) =~= piece);
    let ghost out0 = out@;
    let show = if d && u {
        false
    } else if d {
        n > 1
    } else if u {
        n == 1
    } else {
        true
    };
    if show {
        if c {
            let num = u64_to_text(n as u64);
            push_all(out, num.as_slice());
            push_str(out, " ");
        }
        push_all(out, line);
        push_str(out, "\n");
    }
    assert(out@ =~= out0 + piece);
}

proof fn lemma_uniq_out_push(rs: Seq<(Seq<char>, nat)>, x: (Seq<char>, nat), c: bool, d: bool, u: bool)
    ensures
        uniq_out(rs.push(x), c, d, u) == uniq_out(rs, c, d, u) + uniq_out(seq![x], c, d, u),
{
    assert(rs.push(x).drop_last() =~= rs);
    assert(seq![x].drop_last() =~= seq![]);
    let piece = uniq_out(seq![x], c, d, u);
    assert(uniq_out(seq![x], c, d, u) == uniq_out(seq![], c, d, u) + piece);
    assert(uniq_out(seq![], c, d, u) + piece =~= piece);
    assert(uniq_out(rs.push(x), c, d, u) =~= uniq_out(rs, c, d, u) + piece);
}

pub fn cmd_uniq(meta: &CommandMeta, args: &[String], stdin: &[char], fs: &Fs, cwd: &[char]) -> (r: CmdOutput)
    ensures
        r.view() == uniq_spec(*meta, str_views(args@), stdin@, fs.view(), cwd@),
{
    let pa = parse_args(meta, args);
    let c = flag_on_exec(&pa, 'c');
    let d = flag_on_exec(&pa, 'd');
    let u = flag_on_exec(&pa, 'u');
    let pos = positional_chars(&pa);
    let t = match file_text_exec(&pos, stdin, fs, cwd, "uniq: cannot read") {
        Err(e) => {
            return failure(e, 1);
        },
        Ok(t) => t,
    };
    let ls = lines(t.as_slice());
    let ghost lv = views(ls@);
    let mut out: Vec<char> = Vec::new();
    if ls.len() == 0 {
        return success(out);
    }
    let mut cur = clone_chars(ls[0].as_slice());
    let mut n: usize = 1;
    let ghost mut done: Seq<(Seq<char>, nat)> = seq![];
    assert(lv.take(1).drop_last() =~= lv.take(0));
    assert(lv.take(1).last() == lv[0]);
    assert(runs(lv.take(0)) == Seq::<(Seq<char>, nat)>::empty());
    assert(runs(lv.take(1)) =~= seq![(lv[0], 1nat)]);
    assert(lv[0] == ls@[0]@);
    let mut i: usize = 1;
    while i < ls.len()
        invariant
            1 <= i <= ls@.len(),
            lv == views(ls@),
            1 <= n <= i,
            runs(lv.take(i as int)) == done.push((cur@, n as nat)),
            out@ == uniq_out(done, c, d, u),
        decreases ls@.len() - i,
    {
        let ghost tk = lv.take(i + 1);
        assert(tk.drop_last() =~= lv.take(i as int));
        assert(tk.last() == ls@[i as int]@);
        if chars_eq(ls[i].as_slice(), cur.as_slice()) {
            n = n + 1;
            assert(runs(tk) =~= done.push((cur@, n as nat)));
        } else {
            proof {
                lemma_uniq_out_push(done, (cur@, n as nat), c, d, u);
            }
            push_run(&mut out, cur.as_slice(), n, c, d, u);
            proof {
                done = done.push((cur@, n as nat));
            }
            cur = clone_chars(ls[i].as_slice());
            n = 1;
            assert(runs(tk) =~= done.push((cur@, 1nat)));
        }
        i = i + 1;
    }
    assert(lv.take(ls@.len() as int) =~= lv);
    proof {
        lemma_uniq_out_push(done, (cur@, n as nat), c, d, u);
    }
    push_run(&mut out, cur.as_slice(), n, c, d, u);
    success(out)
}

// ══════════════════════════════════════════════════════════════════
// cut
// ══════════════════════════════════════════════════════════════════

/// The field numbers of a list such as `1,3`: the pieces that are numbers.
pub open spec fn field_numbers(parts: Seq<Seq<char>>) -> Seq<usize>
    decreases parts.len(),
{
    if parts.len() == 0 {
        seq![]
    } else {
        let f = field_numbers(parts.drop_last());
        match parse_usize_spec(parts.last()) {
            Some(n) => f.push(n),
            None => f,
        }
    }
}

/// The chosen fields of a line (those that exist), in the order asked.
pub open spec fn pick_fields(parts: Seq<Seq<char>>, fields: Seq<usize>) -> Seq<Seq<char>>
    decreases fields.len(),
{
    if fields.len() == 0 {
        seq![]
    } else {
        let p = pick_fields(parts, fields.drop_last());
        let f = fields.last();
        if f > 0 && f <= parts.len() {
            p.push(parts[f - 1])
        } else {
            p
        }
    }
}

pub open spec fn cut_lines(ls: Seq<Seq<char>>, delim: char, fields: Seq<usize>) -> Seq<char>
    decreases ls.len(),
{
    if ls.len() == 0 {
        seq![]
    } else {
        cut_lines(ls.drop_last(), delim, fields) + join_spec(
            pick_fields(split_on(ls.last(), delim), fields),
            seq![delim],
        ) + "\n"@
    }
}

/// `cut`: the chosen fields of each line, split at the delimiter (tab by
/// default) and joined by it.
pub open spec fn cut_spec(meta: CommandMeta, args: Seq<Seq<char>>, stdin: Seq<char>, fs: FsView, cwd: Seq<char>) -> OutView {
    let pa = parse_args_spec(meta, args);
    let delim = match flag_text(pa, 'd') {
        Some(v) => if v.len() > 0 {
            v[0]
        } else {
            '\t'
        },
        None => '\t',
    };
    let fields = match flag_text(pa, 'f') {
        Some(v) => field_numbers(split_on(v, ',')),
        None => seq![],
    };
    if pa.errors.len() > 0 {
        ov(seq![], error_lines(pa.errors), 1)
    } else if fields.len() == 0 {
        ov(seq![], "cut: you must specify a list of fields with -f\n"@, 1)
    } else {
        match file_text(pa.positional, stdin, fs, cwd, "cut: cannot read"@) {
            Err(e) => ov(seq![], e, 1),
            Ok(t) => ov(cut_lines(lines_of(t), delim, fields), seq![], 0),
        }
    }
}

fn field_numbers_exec(parts: &Vec<Vec<char>>) -> (r: Vec<usize>)
    ensures
        r@ == field_numbers(views(parts@)),
{
    let mut r: Vec<usize> = Vec::new();
    let mut i: usize = 0;
    while i < parts.len()
        invariant
            i <= parts@.len(),
            r@ == field_numbers(views(parts@).take(i as int)),
        decreases parts@.len() - i,
    {
        let ghost t = views(parts@).take(i + 1);
        assert(t.drop_last() =~= views(parts@).take(i as int));
        assert(t.last() == parts@[i as int]@);
        match parse_usize(parts[i].as_slice()) {
            Some(n) => r.push(n),
            None => {},
        }
        i = i + 1;
    }
    assert(views(parts@).take(parts@.len() as int) =~= views(parts@));
    r
}

fn pick_fields_exec(parts: &Vec<Vec<char>>, fields: &Vec<usize>) -> (r: Vec<Vec<char>>)
    ensures
        views(r@) == pick_fields(views(parts@), fields@),
{
    let mut r: Vec<Vec<char>> = Vec::new();
    let mut i: usize = 0;
    while i < fields.len()
        invariant
            i <= fields@.len(),
            views(r@) == pick_fields(views(parts@), fields@.take(i as int)),
        decreases fields@.len() - i,
    {
        let ghost t = fields@.take(i + 1);
        assert(t.drop_last() =~= fields@.take(i as int));
        assert(t.last() == fields@[i as int]);
        let f = fields[i];
        if f > 0 && f <= parts.len() {
            let ghost before = views(r@);
            r.push(clone_chars(parts[f - 1].as_slice()));
            assert(views(r@) =~= before.push(parts@[f - 1]@));
        }
        i = i + 1;
    }
    assert(fields@.take(fields@.len() as int) =~= fields@);
    r
}

pub fn cmd_cut(meta: &CommandMeta, args: &[String], stdin: &[char], fs: &Fs, cwd: &[char]) -> (r: CmdOutput)
    ensures
        r.view() == cut_spec(*meta, str_views(args@), stdin@, fs.view(), cwd@),
{
    let pa = parse_args(meta, args);
    if pa.errors.len() > 0 {
        return failure(error_text(&pa), 1);
    }
    let delim = match flag_text_exec(&pa, 'd') {
        Some(v) => if v.len() > 0 {
            v[0]
        } else {
            '\t'
        },
        None => '\t',
    };
    let fields = match flag_text_exec(&pa, 'f') {
        Some(v) => {
            let parts = split_chars(v.as_slice(), ',');
            field_numbers_exec(&parts)
        },
        None => Vec::new(),
    };
    if fields.len() == 0 {
        return failure(lit("cut: you must specify a list of fields with -f\n"), 1);
    }
    let pos = positional_chars(&pa);
    let t = match file_text_exec(&pos, stdin, fs, cwd, "cut: cannot read") {
        Err(e) => {
            return failure(e, 1);
        },
        Ok(t) => t,
    };
    let ls = lines(t.as_slice());
    let ghost lv = views(ls@);
    let mut sep: Vec<char> = Vec::new();
    sep.push(delim);
    assert(sep@ =~= seq![delim]);
    let mut out: Vec<char> = Vec::new();
    let mut i: usize = 0;
    while i < ls.len()
        invariant
            i <= ls@.len(),
            lv == views(ls@),
            sep@ == seq![delim],
            out@ == cut_lines(lv.take(i as int), delim, fields@),
        decreases ls@.len() - i,
    {
        let ghost tk = lv.take(i + 1);
        assert(tk.drop_last() =~= lv.take(i as int));
        assert(tk.last() == ls@[i as int]@);
        let parts = split_chars(ls[i].as_slice(), delim);
        let picked = pick_fields_exec(&parts, &fields);
        let joined = join(&picked, sep.as_slice());
        push_all(&mut out, joined.as_slice());
        push_str(&mut out, "\n");
        i = i + 1;
    }
    assert(lv.take(ls@.len() as int) =~= lv);
    success(out)
}

// ══════════════════════════════════════════════════════════════════
// What tail, grep and wc promise
// ══════════════════════════════════════════════════════════════════

/// `tail` prints the last `min(n, number of lines)` lines of its input, in
/// order, each ending in a newline (`n` is `-n`, 10 by default): an input
/// of at most `n` lines is printed whole.
pub proof fn law_tail_last_lines(meta: CommandMeta, args: Seq<Seq<char>>, stdin: Seq<char>, fs: FsView, cwd: Seq<char>)
    requires
        file_text(parse_args_spec(meta, args).positional, stdin, fs, cwd, "tail: cannot open"@) is Ok,
    ensures
        ({
            let pa = parse_args_spec(meta, args);
            let ls = lines_of(file_text(pa.positional, stdin, fs, cwd, "tail: cannot open"@)->Ok_0);
            let n = count_flag(pa, 10);
            let m: int = if n < ls.len() { n as int } else { ls.len() as int };
            &&& tail_spec(meta, args, stdin, fs, cwd).out == lines_out(ls.subrange(ls.len() - m, ls.len() as int))
            &&& ls.len() <= n ==> tail_spec(meta, args, stdin, fs, cwd).out == lines_out(ls)
            &&& tail_spec(meta, args, stdin, fs, cwd).code == 0
        }),
{
    let pa = parse_args_spec(meta, args);
    let ls = lines_of(file_text(pa.positional, stdin, fs, cwd, "tail: cannot open"@)->Ok_0);
    let n = count_flag(pa, 10);
    let m: int = if n < ls.len() { n as int } else { ls.len() as int };
    let skip: int = if ls.len() > n { ls.len() - n } else { 0 };
    assert(ls.skip(skip) =~= ls.subrange(ls.len() - m, ls.len() as int));
    assert(ls.subrange(0, ls.len() as int) =~= ls);
}

/// Some line of the texts matches.
pub open spec fn some_line_hits(ls: Seq<Seq<char>>, pat: Seq<char>, ci: bool) -> bool {
    exists|j: int| 0 <= j < ls.len() && grep_hit(pat, ci, #[trigger] ls[j])
}

/// Some line of some readable named file matches.
pub open spec fn some_file_hits(fs: FsView, cwd: Seq<char>, files: Seq<Seq<char>>, pat: Seq<char>, ci: bool) -> bool {
    exists|k: int|
        0 <= k < files.len() && #[trigger] read_text(fs, files[k], cwd) is Some && some_line_hits(
            lines_of(read_text(fs, files[k], cwd).unwrap()),
            pat,
            ci,
        )
}

proof fn lemma_grep_lines_found(ls: Seq<Seq<char>>, pat: Seq<char>, ci: bool, numbered: bool, prefix: Option<Seq<char>>)
    ensures
        grep_lines(ls, pat, ci, numbered, prefix).1 == some_line_hits(ls, pat, ci),
    decreases ls.len(),
{
    if ls.len() > 0 {
        let t = ls.drop_last();
        lemma_grep_lines_found(t, pat, ci, numbered, prefix);
        if some_line_hits(t, pat, ci) {
            let j = choose|j: int| 0 <= j < t.len() && grep_hit(pat, ci, #[trigger] t[j]);
            assert(ls[j] == t[j]);
        }
        if some_line_hits(ls, pat, ci) && !grep_hit(pat, ci, ls.last()) {
            let j = choose|j: int| 0 <= j < ls.len() && grep_hit(pat, ci, #[trigger] ls[j]);
            assert(j < ls.len() - 1);
            assert(t[j] == ls[j]);
        }
        if grep_hit(pat, ci, ls.last()) {
            assert(ls[ls.len() - 1] == ls.last());
        }
    }
}

proof fn lemma_grep_files_found(
    fs: FsView,
    cwd: Seq<char>,
    files: Seq<Seq<char>>,
    pat: Seq<char>,
    ci: bool,
    numbered: bool,
    multiple: bool,
)
    ensures
        grep_files(fs, cwd, files, pat, ci, numbered, multiple).1 == some_file_hits(fs, cwd, files, pat, ci),
    decreases files.len(),
{
    if files.len() > 0 {
        let t = files.drop_last();
        lemma_grep_files_found(fs, cwd, t, pat, ci, numbered, multiple);
        let file = files.last();
        let pre = if multiple {
            Some(file)
        } else {
            None
        };
        if read_text(fs, file, cwd) is Some {
            lemma_grep_lines_found(lines_of(read_text(fs, file, cwd).unwrap()), pat, ci, numbered, pre);
        }
        if some_file_hits(fs, cwd, t, pat, ci) {
            let k = choose|k: int|
                0 <= k < t.len() && #[trigger] read_text(fs, t[k], cwd) is Some && some_line_hits(
                    lines_of(read_text(fs, t[k], cwd).unwrap()),
                    pat,
                    ci,
                );
            assert(files[k] == t[k]);
        }
        if some_file_hits(fs, cwd, files, pat, ci) {
            let k = choose|k: int|
                0 <= k < files.len() && #[trigger] read_text(fs, files[k], cwd) is Some && some_line_hits(
                    lines_of(read_text(fs, files[k], cwd).unwrap()),
                    pat,
                    ci,
                );
            if k < files.len() - 1 {
                assert(t[k] == files[k]);
            } else {
                assert(files[k] == file);
            }
        }
        if read_text(fs, file, cwd) is Some && some_line_hits(lines_of(read_text(fs, file, cwd).unwrap()), pat, ci) {
            assert(files[files.len() - 1] == file);
        }
    }
}

/// `grep` exits with 0 exactly when some line of what it searched (stdin,
/// or the files it could read) contains the pattern, and with 1 otherwise.
pub proof fn law_grep_exit_code(meta: CommandMeta, args: Seq<Seq<char>>, stdin: Seq<char>, fs: FsView, cwd: Seq<char>)
    requires
        parse_args_spec(meta, args).errors.len() == 0,
        parse_args_spec(meta, args).positional.len() > 0,
    ensures
        ({
            let pa = parse_args_spec(meta, args);
            let ci = flag_on(pa, 'i');
            let pattern = strip_quotes(pa.positional[0]);
            let pat = if ci {
                lower_text(pattern)
            } else {
                pattern
            };
            let files = pa.positional.drop_first();
            let hit = if files.len() == 0 {
                some_line_hits(lines_of(stdin), pat, ci)
            } else {
                some_file_hits(fs, cwd, files, pat, ci)
            };
            &&& (grep_spec(meta, args, stdin, fs, cwd).code == 0) == hit
            &&& (grep_spec(meta, args, stdin, fs, cwd).code == 1) == !hit
        }),
{
    let pa = parse_args_spec(meta, args);
    let ci = flag_on(pa, 'i');
    let pattern = strip_quotes(pa.positional[0]);
    let pat = if ci {
        lower_text(pattern)
    } else {
        pattern
    };
    let files = pa.positional.drop_first();
    let num = flag_on(pa, 'n');
    lemma_grep_lines_found(lines_of(stdin), pat, ci, num, None);
    lemma_grep_files_found(fs, cwd, files, pat, ci, num, files.len() > 1);
}

/// The sum, over the named files that can be read, of one of their counts
/// (0 lines, 1 words, 2 bytes), each as `wc` counts it for one file.
pub open spec fn count_sum(fs: FsView, cwd: Seq<char>, files: Seq<Seq<char>>, which: int) -> int
    decreases files.len(),
{
    if files.len() == 0 {
        0
    } else {
        count_sum(fs, cwd, files.drop_last(), which) + match read_text(fs, files.last(), cwd) {
            Some(t) => if which == 0 {
                counts(t).0 as int
            } else if which == 1 {
                counts(t).1 as int
            } else {
                counts(t).2 as int
            },
            None => 0,
        }
    }
}

proof fn lemma_wrap_add_mod(a: u64, b: u64, s: int, c: int)
    requires
        a == s % 0x1_0000_0000_0000_0000,
        b == c % 0x1_0000_0000_0000_0000,
        s >= 0,
        c >= 0,
    ensures
        wrap_add(a, b) == (s + c) % 0x1_0000_0000_0000_0000,
{
    vstd::arithmetic::div_mod::lemma_add_mod_noop(s, c, 0x1_0000_0000_0000_0000);
    if a + b > u64::MAX {
        vstd::arithmetic::div_mod::lemma_mod_self_0(0x1_0000_0000_0000_0000);
        vstd::arithmetic::div_mod::lemma_mod_sub_multiples_vanish(a + b, 0x1_0000_0000_0000_0000);
        assert((a + b - 0x1_0000_0000_0000_0000) % 0x1_0000_0000_0000_0000 == (a + b) % 0x1_0000_0000_0000_0000) by {
            vstd::arithmetic::div_mod::lemma_mod_sub_multiples_vanish(a + b, 0x1_0000_0000_0000_0000);
        }
        vstd::arithmetic::div_mod::lemma_small_mod((a + b - 0x1_0000_0000_0000_0000) as nat, 0x1_0000_0000_0000_0000);
    } else {
        vstd::arithmetic::div_mod::lemma_small_mod((a + b) as nat, 0x1_0000_0000_0000_0000);
    }
}

proof fn lemma_wc_totals(fs: FsView, cwd: Seq<char>, files: Seq<Seq<char>>, sl: bool, sw: bool, sb: bool)
    ensures
        wc_files(fs, cwd, files, sl, sw, sb).1 == count_sum(fs, cwd, files, 0) % 0x1_0000_0000_0000_0000,
        wc_files(fs, cwd, files, sl, sw, sb).2 == count_sum(fs, cwd, files, 1) % 0x1_0000_0000_0000_0000,
        wc_files(fs, cwd, files, sl, sw, sb).3 == count_sum(fs, cwd, files, 2) % 0x1_0000_0000_0000_0000,
        count_sum(fs, cwd, files, 0) >= 0,
        count_sum(fs, cwd, files, 1) >= 0,
        count_sum(fs, cwd, files, 2) >= 0,
    decreases files.len(),
{
    if files.len() == 0 {
        vstd::arithmetic::div_mod::lemma_small_mod(0, 0x1_0000_0000_0000_0000);
    } else {
        let t = files.drop_last();
        lemma_wc_totals(fs, cwd, t, sl, sw, sb);
        let (o, tl, tw, tb) = wc_files(fs, cwd, t, sl, sw, sb);
        match read_text(fs, files.last(), cwd) {
            Some(x) => {
                let (l, w, b) = counts(x);
                vstd::arithmetic::div_mod::lemma_small_mod(l as nat, 0x1_0000_0000_0000_0000);
                vstd::arithmetic::div_mod::lemma_small_mod(w as nat, 0x1_0000_0000_0000_0000);
                vstd::arithmetic::div_mod::lemma_small_mod(b as nat, 0x1_0000_0000_0000_0000);
                lemma_wrap_add_mod(tl, l, count_sum(fs, cwd, t, 0), l as int);
                lemma_wrap_add_mod(tw, w, count_sum(fs, cwd, t, 1), w as int);
                lemma_wrap_add_mod(tb, b, count_sum(fs, cwd, t, 2), b as int);
            },
            None => {},
        }
    }
}

/// `wc` over several files ends with a total line whose every column is
/// the sum of that column over the files it could read (as a `u64` that
/// wraps around).
pub proof fn law_wc_total(meta: CommandMeta, args: Seq<Seq<char>>, stdin: Seq<char>, fs: FsView, cwd: Seq<char>)
    requires
        parse_args_spec(meta, args).positional.len() > 1,
    ensures
        ({
            let pa = parse_args_spec(meta, args);
            let (l0, w0, c0) = (flag_on(pa, 'l'), flag_on(pa, 'w'), flag_on(pa, 'c'));
            let all = !l0 && !w0 && !c0;
            let files = pa.positional;
            let per_file = wc_files(fs, cwd, files, l0 || all, w0 || all, c0 || all).0;
            wc_spec(meta, args, stdin, fs, cwd).out == per_file + count_line(
                (count_sum(fs, cwd, files, 0) % 0x1_0000_0000_0000_0000) as u64,
                (count_sum(fs, cwd, files, 1) % 0x1_0000_0000_0000_0000) as u64,
                (count_sum(fs, cwd, files, 2) % 0x1_0000_0000_0000_0000) as u64,
                l0 || all,
                w0 || all,
                c0 || all,
                Some("total"@),
            )
        }),
{
    let pa = parse_args_spec(meta, args);
    let (l0, w0, c0) = (flag_on(pa, 'l'), flag_on(pa, 'w'), flag_on(pa, 'c'));
    let all = !l0 && !w0 && !c0;
    lemma_wc_totals(fs, cwd, pa.positional, l0 || all, w0 || all, c0 || all);
}

/// `head` prints the first `min(n, number of lines)` lines of its input,
/// in order, each ending in a newline (`n` is `-n`, 10 by default): an
/// input of at most `n` lines is printed whole.
pub proof fn law_head_first_lines(meta: CommandMeta, args: Seq<Seq<char>>, stdin: Seq<char>, fs: FsView, cwd: Seq<char>)
    requires
        file_text(parse_args_spec(meta, args).positional, stdin, fs, cwd, "head: cannot open"@) is Ok,
    ensures
        ({
            let pa = parse_args_spec(meta, args);
            let ls = lines_of(file_text(pa.positional, stdin, fs, cwd, "head: cannot open"@)->Ok_0);
            let n = count_flag(pa, 10);
            let m: int = if n < ls.len() { n as int } else { ls.len() as int };
            &&& head_spec(meta, args, stdin, fs, cwd).out == lines_out(ls.subrange(0, m))
            &&& ls.len() <= n ==> head_spec(meta, args, stdin, fs, cwd).out == lines_out(ls)
            &&& head_spec(meta, args, stdin, fs, cwd).code == 0
        }),
{
    let pa = parse_args_spec(meta, args);
    let ls = lines_of(file_text(pa.positional, stdin, fs, cwd, "head: cannot open"@)->Ok_0);
    let n = count_flag(pa, 10);
    let m: int = if n < ls.len() { n as int } else { ls.len() as int };
    assert(ls.take(m) =~= ls.subrange(0, m));
    assert(ls.subrange(0, ls.len() as int) =~= ls);
}

/// Lines, each followed by a newline.
pub open spec fn with_newlines(ls: Seq<Seq<char>>) -> Seq<char>
    decreases ls.len(),
{
    if ls.len() == 0 {
        seq![]
    } else {
        with_newlines(ls.drop_last()) + ls.last() + "\n"@
    }
}

/// Whether a line contains the pattern (as `grep` compares it).
pub open spec fn hit_by(pat: Seq<char>, ci: bool) -> spec_fn(Seq<char>) -> bool {
    |l: Seq<char>| grep_hit(pat, ci, l)
}

proof fn lemma_grep_lines_out(ls: Seq<Seq<char>>, pat: Seq<char>, ci: bool)
    ensures
        grep_lines(ls, pat, ci, false, None).0 == with_newlines(ls.filter(hit_by(pat, ci))),
    decreases ls.len(),
{
    if ls.len() == 0 {
        reveal(Seq::filter);
        assert(ls.filter(hit_by(pat, ci)) =~= Seq::<Seq<char>>::empty());
    } else {
        let t = ls.drop_last();
        lemma_grep_lines_out(t, pat, ci);
        assert(t.push(ls.last()) =~= ls);
        t.lemma_filter_push(ls.last(), hit_by(pat, ci));
        let f = t.filter(hit_by(pat, ci));
        if grep_hit(pat, ci, ls.last()) {
            assert(f.push(ls.last()).drop_last() =~= f);
            assert(grep_fmt(None, false, (ls.len() - 1) as nat, ls.last()) =~= Seq::<char>::empty() + ls.last() + "\n"@);
            assert(with_newlines(t.filter(hit_by(pat, ci))) + (Seq::<char>::empty() + ls.last() + "\n"@) =~= with_newlines(t.filter(hit_by(pat, ci))) + ls.last() + "\n"@);
        }
    }
}

/// `grep` on stdin, without `-n`, prints exactly the lines that contain
/// the pattern, in order, each ending in a newline.
pub proof fn law_grep_prints_matches(meta: CommandMeta, args: Seq<Seq<char>>, stdin: Seq<char>, fs: FsView, cwd: Seq<char>)
    requires
        parse_args_spec(meta, args).errors.len() == 0,
        parse_args_spec(meta, args).positional.len() == 1,
        !flag_on(parse_args_spec(meta, args), 'n'),
    ensures
        ({
            let pa = parse_args_spec(meta, args);
            let ci = flag_on(pa, 'i');
            let pattern = strip_quotes(pa.positional[0]);
            let pat = if ci {
                lower_text(pattern)
            } else {
                pattern
            };
            grep_spec(meta, args, stdin, fs, cwd).out == with_newlines(lines_of(stdin).filter(hit_by(pat, ci)))
        }),
{
    let pa = parse_args_spec(meta, args);
    let ci = flag_on(pa, 'i');
    let pattern = strip_quotes(pa.positional[0]);
    let pat = if ci {
        lower_text(pattern)
    } else {
        pattern
    };
    assert(pa.positional.drop_first().len() == 0);
    lemma_grep_lines_out(lines_of(stdin), pat, ci);
}

} // verus!
