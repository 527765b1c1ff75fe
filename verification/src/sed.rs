//! `sed`: a stream editor with `s`, `d` and `p` commands, line and pattern
//! addresses and ranges.
use crate::commands::{failure, ov, read_text, read_text_exec, success, CmdOutput, OutView};
use crate::fs::{Fs, FsView};
use crate::text::{
    chars_eq, chars_of, clone_chars, contains_chars, contains_sub, is_digit, join, join_spec,
    lines, lines_of, lit, lower_text, matches_at, parse_usize, parse_usize_spec, push_all,
    push_str, replace_all, replace_all_exec, replace_first, replace_first_exec, split_chars,
    split_on, subvec, lower_text_exec, trim, trim_spec, views,
};
use vstd::prelude::*;

verus! {

// ══════════════════════════════════════════════════════════════════
// Commands
// ══════════════════════════════════════════════════════════════════

/// One end of an address: a line number, the last line (`$`), or a
/// pattern (matched without regard to case).
pub enum SedPoint {
    Line(usize),
    Last,
    Pattern(Vec<char>),
}

pub enum SedAddr {
    One(SedPoint),
    Range(SedPoint, SedPoint),
}

pub enum SedCmd {
    Subst { search: Vec<char>, replace: Vec<char>, global: bool, ci: bool, addr: Option<SedAddr> },
    Delete { addr: Option<SedAddr> },
    Print { addr: Option<SedAddr> },
}

pub enum PointView {
    Line(usize),
    Last,
    Pattern(Seq<char>),
}

pub enum AddrView {
    One(PointView),
    Range(PointView, PointView),
}

pub enum CmdView {
    Subst { search: Seq<char>, replace: Seq<char>, global: bool, ci: bool, addr: Option<AddrView> },
    Delete { addr: Option<AddrView> },
    Print { addr: Option<AddrView> },
}

impl SedPoint {
    pub open spec fn view(&self) -> PointView {
        match self {
            SedPoint::Line(n) => PointView::Line(*n),
            SedPoint::Last => PointView::Last,
            SedPoint::Pattern(p) => PointView::Pattern(p@),
        }
    }
}

impl SedAddr {
    pub open spec fn view(&self) -> AddrView {
        match self {
            SedAddr::One(p) => AddrView::One(p.view()),
            SedAddr::Range(a, b) => AddrView::Range(a.view(), b.view()),
        }
    }
}

pub open spec fn addr_opt_view(a: Option<SedAddr>) -> Option<AddrView> {
    match a {
        Some(x) => Some(x.view()),
        None => None,
    }
}

impl SedCmd {
    pub open spec fn view(&self) -> CmdView {
        match self {
            SedCmd::Subst { search, replace, global, ci, addr } => CmdView::Subst {
                search: search@,
                replace: replace@,
                global: *global,
                ci: *ci,
                addr: addr_opt_view(*addr),
            },
            SedCmd::Delete { addr } => CmdView::Delete { addr: addr_opt_view(*addr) },
            SedCmd::Print { addr } => CmdView::Print { addr: addr_opt_view(*addr) },
        }
    }
}

pub open spec fn cmd_views(v: Seq<SedCmd>) -> Seq<CmdView> {
    Seq::new(v.len(), |i: int| v[i].view())
}

pub open spec fn cmd_addr(c: CmdView) -> Option<AddrView> {
    match c {
        CmdView::Subst { addr, .. } => addr,
        CmdView::Delete { addr } => addr,
        CmdView::Print { addr } => addr,
    }
}

// ══════════════════════════════════════════════════════════════════
// Parsing a command
// ══════════════════════════════════════════════════════════════════

/// The text from `i` up to the delimiter (a backslash takes the next
/// character as it is), and the position after the delimiter (or the end).
pub open spec fn read_until(cs: Seq<char>, i: int, d: char) -> (Seq<char>, int)
    decreases cs.len() - i,
{
    if i < 0 || i >= cs.len() {
        (seq![], cs.len() as int)
    } else if cs[i] == '\\' && i + 1 < cs.len() {
        let (r, e) = read_until(cs, i + 2, d);
        (seq![cs[i + 1]] + r, e)
    } else if cs[i] == d {
        (seq![], i + 1)
    } else {
        let (r, e) = read_until(cs, i + 1, d);
        (seq![cs[i]] + r, e)
    }
}

/// The number of digits from `i` on.
pub open spec fn digit_run(cs: Seq<char>, i: int) -> nat
    decreases cs.len() - i,
{
    if 0 <= i < cs.len() && is_digit(cs[i]) {
        1 + digit_run(cs, i + 1)
    } else {
        0
    }
}

/// The number written at `i` (0 when there is none or it is too large) and
/// the position after it.
pub open spec fn read_number(cs: Seq<char>, i: int) -> (usize, int) {
    let n = digit_run(cs, i);
    let v = match parse_usize_spec(cs.subrange(i, i + n)) {
        Some(x) => x,
        None => 0,
    };
    (v, i + n)
}

/// The end of a range after the comma at `p`: a pattern, `$` or a number.
pub open spec fn range_end(cs: Seq<char>, p: int) -> (PointView, int) {
    if p < cs.len() && cs[p] == '/' {
        let (ep, e) = read_until(cs, p + 1, '/');
        (PointView::Pattern(ep), e)
    } else if 0 <= p < cs.len() && cs[p] == '$' {
        (PointView::Last, p + 1)
    } else {
        let (n, e) = read_number(cs, p);
        (PointView::Line(n), e)
    }
}

/// An address at the start of a command, and where the command goes on.
/// `$` stands for the last line.
pub open spec fn parse_addr(cs: Seq<char>) -> (Option<AddrView>, int) {
    if cs.len() == 0 {
        (None, 0)
    } else if cs[0] == '/' {
        let (pat, p1) = read_until(cs, 1, '/');
        if p1 < cs.len() && cs[p1] == ',' {
            let (end, p2) = range_end(cs, p1 + 1);
            (Some(AddrView::Range(PointView::Pattern(pat), end)), p2)
        } else {
            (Some(AddrView::One(PointView::Pattern(pat))), p1)
        }
    } else if is_digit(cs[0]) {
        let (n, p1) = read_number(cs, 0);
        if p1 < cs.len() && cs[p1] == ',' {
            let (end, p2) = range_end(cs, p1 + 1);
            (Some(AddrView::Range(PointView::Line(n), end)), p2)
        } else {
            (Some(AddrView::One(PointView::Line(n))), p1)
        }
    } else if cs[0] == '$' {
        (Some(AddrView::One(PointView::Last)), 1)
    } else {
        (None, 0)
    }
}

/// A command: an optional address, then `s/search/replace/flags` (any
/// delimiter; flags `g` and `i`), `d` or `p`.
pub open spec fn parse_sed_command(cs: Seq<char>) -> Option<CmdView> {
    let (addr, pos) = parse_addr(cs);
    if pos >= cs.len() {
        None
    } else if cs[pos] == 's' {
        if pos + 1 >= cs.len() {
            None
        } else {
            let d = cs[pos + 1];
            let (search, p1) = read_until(cs, pos + 2, d);
            let (replace, p2) = read_until(cs, p1, d);
            let fl = cs.subrange(p2, cs.len() as int);
            Some(
                CmdView::Subst {
                    search,
                    replace,
                    global: fl.contains('g'),
                    ci: fl.contains('i'),
                    addr,
                },
            )
        }
    } else if cs[pos] == 'd' {
        Some(CmdView::Delete { addr })
    } else if cs[pos] == 'p' {
        Some(CmdView::Print { addr })
    } else {
        None
    }
}

fn read_until_exec(cs: &[char], start: usize, d: char) -> (r: (Vec<char>, usize))
    requires
        start <= cs@.len(),
    ensures
        (r.0@, r.1 as int) == read_until(cs@, start as int, d),
{
    let mut res: Vec<char> = Vec::new();
    let mut i = start;
    while i < cs.len()
        invariant
            start <= i <= cs@.len(),
            (res@ + read_until(cs@, i as int, d).0, read_until(cs@, i as int, d).1) == read_until(
                cs@,
                start as int,
                d,
            ),
        decreases cs@.len() - i,
    {
        if cs[i] == '\\' && i + 1 < cs.len() {
            let ghost before = res@;
            res.push(cs[i + 1]);
            assert(before + (seq![cs@[i + 1]] + read_until(cs@, i + 2, d).0) =~= res@ + read_until(
                cs@,
                i + 2,
                d,
            ).0);
            i = i + 2;
        } else if cs[i] == d {
            assert(res@ + seq![] =~= res@);
            return (res, i + 1);
        } else {
            let ghost before = res@;
            res.push(cs[i]);
            assert(before + (seq![cs@[i as int]] + read_until(cs@, i + 1, d).0) =~= res@
                + read_until(cs@, i + 1, d).0);
            i = i + 1;
        }
    }
    assert(res@ + seq![] =~= res@);
    (res, i)
}

fn read_number_exec(cs: &[char], start: usize) -> (r: (usize, usize))
    requires
        start <= cs@.len(),
    ensures
        (r.0, r.1 as int) == read_number(cs@, start as int),
{
    let mut i = start;
    while i < cs.len() && '0' <= cs[i] && cs[i] <= '9'
        invariant
            start <= i <= cs@.len(),
            digit_run(cs@, start as int) == (i - start) + digit_run(cs@, i as int),
        decreases cs@.len() - i,
    {
        assert(digit_run(cs@, i as int) == 1 + digit_run(cs@, i + 1));
        i = i + 1;
    }
    assert(digit_run(cs@, i as int) == 0);
    let ds = subvec(cs, start, i);
    let v = match parse_usize(ds.as_slice()) {
        Some(x) => x,
        None => 0,
    };
    (v, i)
}

fn range_end_exec(cs: &[char], p: usize) -> (r: (SedPoint, usize))
    requires
        p <= cs@.len(),
    ensures
        (r.0.view(), r.1 as int) == range_end(cs@, p as int),
{
    if p < cs.len() && cs[p] == '/' {
        let (ep, e) = read_until_exec(cs, p + 1, '/');
        (SedPoint::Pattern(ep), e)
    } else if p < cs.len() && cs[p] == '$' {
        (SedPoint::Last, p + 1)
    } else {
        let (n, e) = read_number_exec(cs, p);
        (SedPoint::Line(n), e)
    }
}

proof fn lemma_read_until_bound(cs: Seq<char>, i: int, d: char)
    requires
        0 <= i <= cs.len(),
    ensures
        i <= read_until(cs, i, d).1 <= cs.len(),
    decreases cs.len() - i,
{
    if i < cs.len() {
        if cs[i] == '\\' && i + 1 < cs.len() {
            lemma_read_until_bound(cs, i + 2, d);
        } else if cs[i] != d {
            lemma_read_until_bound(cs, i + 1, d);
        }
    }
}

proof fn lemma_digit_run_bound(cs: Seq<char>, i: int)
    requires
        0 <= i <= cs.len(),
    ensures
        i + digit_run(cs, i) <= cs.len(),
    decreases cs.len() - i,
{
    if i < cs.len() && is_digit(cs[i]) {
        lemma_digit_run_bound(cs, i + 1);
    }
}

proof fn lemma_range_end_bound(cs: Seq<char>, p: int)
    requires
        0 <= p <= cs.len(),
    ensures
        p <= range_end(cs, p).1 <= cs.len(),
{
    if p < cs.len() && cs[p] == '/' {
        lemma_read_until_bound(cs, p + 1, '/');
    } else {
        lemma_digit_run_bound(cs, p);
    }
}

fn parse_addr_exec(cs: &[char]) -> (r: (Option<SedAddr>, usize))
    ensures
        (addr_opt_view(r.0), r.1 as int) == parse_addr(cs@),
        r.1 <= cs@.len(),
{
    if cs.len() == 0 {
        return (None, 0);
    }
    if cs[0] == '/' {
        proof {
            lemma_read_until_bound(cs@, 1, '/');
        }
        let (pat, p1) = read_until_exec(cs, 1, '/');
        if p1 < cs.len() && cs[p1] == ',' {
            let (end, p2) = range_end_exec(cs, p1 + 1);
            proof {
                lemma_range_end_bound(cs@, p1 + 1);
            }
            (Some(SedAddr::Range(SedPoint::Pattern(pat), end)), p2)
        } else {
            (Some(SedAddr::One(SedPoint::Pattern(pat))), p1)
        }
    } else if '0' <= cs[0] && cs[0] <= '9' {
        let (n, p1) = read_number_exec(cs, 0);
        proof {
            lemma_digit_run_bound(cs@, 0);
        }
        if p1 < cs.len() && cs[p1] == ',' {
            let (end, p2) = range_end_exec(cs, p1 + 1);
            proof {
                lemma_range_end_bound(cs@, p1 + 1);
            }
            (Some(SedAddr::Range(SedPoint::Line(n), end)), p2)
        } else {
            (Some(SedAddr::One(SedPoint::Line(n))), p1)
        }
    } else if cs[0] == '$' {
        (Some(SedAddr::One(SedPoint::Last)), 1)
    } else {
        (None, 0)
    }
}

fn flags_contain(cs: &[char], from: usize, c: char) -> (r: bool)
    requires
        from <= cs@.len(),
    ensures
        r == cs@.subrange(from as int, cs@.len() as int).contains(c),
{
    let mut i = from;
    while i < cs.len()
        invariant
            from <= i <= cs@.len(),
            forall|k: int| from <= k < i ==> cs@[k] != c,
        decreases cs@.len() - i,
    {
        if cs[i] == c {
            assert(cs@.subrange(from as int, cs@.len() as int)[i - from] == c);
            return true;
        }
        i = i + 1;
    }
    assert forall|k: int| 0 <= k < cs@.subrange(from as int, cs@.len() as int).len() implies cs@.subrange(
        from as int,
        cs@.len() as int,
    )[k] != c by {
        assert(cs@.subrange(from as int, cs@.len() as int)[k] == cs@[from + k]);
    }
    false
}

fn parse_sed_command_exec(cs: &[char]) -> (r: Option<SedCmd>)
    ensures
        match r {
            Some(c) => parse_sed_command(cs@) == Some(c.view()),
            None => parse_sed_command(cs@) is None,
        },
{
    let (addr, pos) = parse_addr_exec(cs);
    if pos >= cs.len() {
        return None;
    }
    let c = cs[pos];
    if c == 's' {
        if pos + 1 >= cs.len() {
            return None;
        }
        let d = cs[pos + 1];
        proof {
            lemma_read_until_bound(cs@, pos + 2, d);
        }
        let (search, p1) = read_until_exec(cs, pos + 2, d);
        proof {
            lemma_read_until_bound(cs@, p1 as int, d);
        }
        let (replace, p2) = read_until_exec(cs, p1, d);
        let global = flags_contain(cs, p2, 'g');
        let ci = flags_contain(cs, p2, 'i');
        Some(SedCmd::Subst { search, replace, global, ci, addr })
    } else if c == 'd' {
        Some(SedCmd::Delete { addr })
    } else if c == 'p' {
        Some(SedCmd::Print { addr })
    } else {
        None
    }
}

// ══════════════════════════════════════════════════════════════════
// Arguments
// ══════════════════════════════════════════════════════════════════

/// What the arguments give, read from position `i` on: `-n` suppresses
/// printing, `-e CMD` adds a command, `-i` is ignored, the first other
/// argument not starting with `-` is the command when none is given yet,
/// and all others are files.
pub open spec fn sed_args(args: Seq<Seq<char>>, i: int, sup: bool, cmds: Seq<Seq<char>>, files: Seq<Seq<char>>) -> (
    bool,
    Seq<Seq<char>>,
    Seq<Seq<char>>,
)
    decreases args.len() - i,
{
    if i < 0 || i >= args.len() {
        (sup, cmds, files)
    } else if args[i] == "-n"@ {
        sed_args(args, i + 1, true, cmds, files)
    } else if args[i] == "-e"@ && i + 1 < args.len() {
        sed_args(args, i + 2, sup, cmds.push(args[i + 1]), files)
    } else if args[i] == "-i"@ {
        sed_args(args, i + 1, sup, cmds, files)
    } else if !(args[i].len() > 0 && args[i][0] == '-') && cmds.len() == 0 {
        sed_args(args, i + 1, sup, cmds.push(args[i]), files)
    } else {
        sed_args(args, i + 1, sup, cmds, files.push(args[i]))
    }
}

/// The commands of a joined command text: split at `;`, trimmed, empty
/// ones dropped.
pub open spec fn command_parts(ps: Seq<Seq<char>>) -> Seq<Seq<char>>
    decreases ps.len(),
{
    if ps.len() == 0 {
        seq![]
    } else {
        let r = command_parts(ps.drop_last());
        let t = trim_spec(ps.last());
        if t.len() > 0 {
            r.push(t)
        } else {
            r
        }
    }
}

/// The parsed commands, or the first part that is no command.
pub open spec fn parse_all(ps: Seq<Seq<char>>) -> Result<Seq<CmdView>, Seq<char>>
    decreases ps.len(),
{
    if ps.len() == 0 {
        Ok(seq![])
    } else {
        match parse_all(ps.drop_last()) {
            Err(e) => Err(e),
            Ok(cs) => match parse_sed_command(ps.last()) {
                Some(c) => Ok(cs.push(c)),
                None => Err(ps.last()),
            },
        }
    }
}

// ══════════════════════════════════════════════════════════════════
// Running the commands
// ══════════════════════════════════════════════════════════════════

/// Whether a point takes line `num` (`last` tells whether it is the last
/// line of the input).
pub open spec fn point_hit(p: PointView, num: nat, last: bool, line: Seq<char>) -> bool {
    match p {
        PointView::Line(n) => num == n,
        PointView::Last => last,
        PointView::Pattern(pat) => contains_sub(lower_text(line), lower_text(pat)),
    }
}

/// Whether an address takes a line, and the range's state (started,
/// finished) after it. A range starts at a line its start takes and takes
/// lines up to and including one its end takes, once.
pub open spec fn addr_step(addr: Option<AddrView>, st: Option<(bool, bool)>, num: nat, last: bool, line: Seq<char>) -> (
    bool,
    Option<(bool, bool)>,
) {
    match addr {
        None => (true, st),
        Some(AddrView::One(p)) => (point_hit(p, num, last, line), st),
        Some(AddrView::Range(a, b)) => {
            let (started, finished) = match st {
                Some(x) => x,
                None => (false, false),
            };
            let started2 = started || point_hit(a, num, last, line);
            if started2 && !finished {
                (true, Some((started2, point_hit(b, num, last, line))))
            } else {
                (false, Some((started2, finished)))
            }
        },
    }
}

/// Case-insensitive match of the search at `i`: the line's characters there,
/// as many as the search has, lower-cased, equal the lower-cased search.
pub open spec fn ci_hit(s: Seq<char>, p: Seq<char>, i: int) -> bool {
    0 <= i && i + p.len() <= s.len() && lower_text(s.subrange(i, i + p.len())) == lower_text(p)
}

pub open spec fn ci_replace(s: Seq<char>, p: Seq<char>, t: Seq<char>, global: bool) -> Seq<char>
    decreases s.len(),
{
    if s.len() == 0 {
        seq![]
    } else if p.len() > 0 && ci_hit(s, p, 0) {
        if global {
            t + ci_replace(s.skip(p.len() as int), p, t, global)
        } else {
            t + s.skip(p.len() as int)
        }
    } else {
        seq![s[0]] + ci_replace(s.drop_first(), p, t, global)
    }
}

/// `s/search/replace/`: the first occurrence replaced (all with `g`),
/// ignoring case with `i`; an empty search changes nothing.
pub open spec fn substitute(line: Seq<char>, search: Seq<char>, repl: Seq<char>, global: bool, ci: bool) -> Seq<char> {
    if search.len() == 0 {
        line
    } else if ci {
        ci_replace(line, search, repl, global)
    } else if global {
        replace_all(line, search, repl)
    } else {
        replace_first(line, search, repl)
    }
}

/// The commands from `k` on applied to one line: the range states, the
/// output, the line as changed, whether it was printed, whether deleted.
pub open spec fn sed_cmds(
    cmds: Seq<CmdView>,
    k: int,
    states: Seq<Option<(bool, bool)>>,
    num: nat,
    last: bool,
    cur: Seq<char>,
    out: Seq<char>,
    printed: bool,
) -> (Seq<Option<(bool, bool)>>, Seq<char>, Seq<char>, bool, bool)
    decreases cmds.len() - k,
{
    if k < 0 || k >= cmds.len() {
        (states, out, cur, printed, false)
    } else {
        let c = cmds[k];
        let (m, st2) = addr_step(cmd_addr(c), states[k], num, last, cur);
        let states2 = states.update(k, st2);
        match c {
            CmdView::Subst { search, replace, global, ci, .. } => sed_cmds(
                cmds,
                k + 1,
                states2,
                num,
                last,
                if m {
                    substitute(cur, search, replace, global, ci)
                } else {
                    cur
                },
                out,
                printed,
            ),
            CmdView::Delete { .. } => if m {
                (states2, out, cur, printed, true)
            } else {
                sed_cmds(cmds, k + 1, states2, num, last, cur, out, printed)
            },
            CmdView::Print { .. } => if m {
                sed_cmds(cmds, k + 1, states2, num, last, cur, out + cur + "\n"@, true)
            } else {
                sed_cmds(cmds, k + 1, states2, num, last, cur, out, printed)
            },
        }
    }
}

/// The first lines of an input of `total` lines run through the commands:
/// each line is printed after them unless deleted, printed by `p`, or
/// printing is suppressed.
pub open spec fn sed_lines(cmds: Seq<CmdView>, ls: Seq<Seq<char>>, sup: bool, total: nat) -> (
    Seq<Option<(bool, bool)>>,
    Seq<char>,
)
    decreases ls.len(),
{
    if ls.len() == 0 {
        (Seq::new(cmds.len(), |i: int| None), seq![])
    } else {
        let (st, o) = sed_lines(cmds, ls.drop_last(), sup, total);
        let (st2, o2, cur, printed, deleted) = sed_cmds(
            cmds,
            0,
            st,
            ls.len(),
            ls.len() == total,
            ls.last(),
            o,
            false,
        );
        if deleted {
            (st2, o2)
        } else if !sup && !printed {
            (st2, o2 + cur + "\n"@)
        } else {
            (st2, o2)
        }
    }
}

/// `sed` over stdin or the first file.
pub open spec fn sed_spec(args: Seq<Seq<char>>, stdin: Seq<char>, fs: FsView, cwd: Seq<char>) -> OutView {
    let (sup, cmds, files) = sed_args(args, 0, false, seq![], seq![]);
    if cmds.len() == 0 {
        ov(seq![], "sed: no command specified\n"@, 1)
    } else {
        match parse_all(command_parts(split_on(join_spec(cmds, ";"@), ';'))) {
            Err(p) => ov(seq![], "sed: invalid command: "@ + p + "\n"@, 1),
            Ok(cs) => {
                let text = if files.len() == 0 {
                    Some(stdin)
                } else {
                    read_text(fs, files[0], cwd)
                };
                match text {
                    None => ov(seq![], "sed: cannot read '"@ + files[0] + "'\n"@, 1),
                    Some(t) => ov(sed_lines(cs, lines_of(t), sup, lines_of(t).len()).1, seq![], 0),
                }
            },
        }
    }
}

proof fn lemma_parts_prefix(s: Seq<Seq<char>>, a: int)
    requires
        0 <= a <= s.len(),
    ensures
        command_parts(s.take(a)).len() <= command_parts(s).len(),
        command_parts(s).take(command_parts(s.take(a)).len() as int) == command_parts(s.take(a)),
    decreases s.len(),
{
    if a == s.len() {
        assert(s.take(a) =~= s);
        assert(command_parts(s).take(command_parts(s).len() as int) =~= command_parts(s));
    } else {
        let t = s.drop_last();
        assert(t.take(a) =~= s.take(a));
        lemma_parts_prefix(t, a);
        let p = command_parts(s.take(a));
        assert(command_parts(s).take(p.len() as int) =~= command_parts(t).take(p.len() as int));
    }
}

proof fn lemma_parse_all_prefix_err(ps: Seq<Seq<char>>, m: int)
    requires
        0 <= m <= ps.len(),
        parse_all(ps.take(m)) is Err,
    ensures
        parse_all(ps) == parse_all(ps.take(m)),
    decreases ps.len(),
{
    if m == ps.len() {
        assert(ps.take(m) =~= ps);
    } else {
        let t = ps.drop_last();
        assert(t.take(m) =~= ps.take(m));
        lemma_parse_all_prefix_err(t, m);
    }
}

fn is_word(a: &[char], w: &str) -> (r: bool)
    ensures
        r == (a@ == w@),
{
    let l = lit(w);
    chars_eq(a, l.as_slice())
}

fn point_hit_exec(p: &SedPoint, num: usize, last: bool, line: &[char]) -> (r: bool)
    ensures
        r == point_hit(p.view(), num as nat, last, line@),
{
    match p {
        SedPoint::Line(n) => num == *n,
        SedPoint::Last => last,
        SedPoint::Pattern(pat) => {
            let l = lower_text_exec(line);
            let q = lower_text_exec(pat.as_slice());
            contains_chars(l.as_slice(), q.as_slice())
        },
    }
}

fn addr_step_exec(addr: &Option<SedAddr>, st: Option<(bool, bool)>, num: usize, last: bool, line: &[char]) -> (r: (
    bool,
    Option<(bool, bool)>,
))
    ensures
        r == addr_step(addr_opt_view(*addr), st, num as nat, last, line@),
{
    match addr {
        None => (true, st),
        Some(SedAddr::One(p)) => (point_hit_exec(p, num, last, line), st),
        Some(SedAddr::Range(a, b)) => {
            let (started, finished) = match st {
                Some(x) => x,
                None => (false, false),
            };
            let started2 = started || point_hit_exec(a, num, last, line);
            if started2 && !finished {
                (true, Some((started2, point_hit_exec(b, num, last, line))))
            } else {
                (false, Some((started2, finished)))
            }
        },
    }
}

fn ci_hit_exec(s: &[char], low_p: &[char], plen: usize, i: usize) -> (r: bool)
    requires
        i <= s@.len(),
    ensures
        forall|p: Seq<char>| p.len() == plen && low_p@ == lower_text(p) ==> r == ci_hit(s@, p, i as int),
{
    if plen > s.len() - i {
        return false;
    }
    let w = subvec(s, i, i + plen);
    let lw = lower_text_exec(w.as_slice());
    chars_eq(lw.as_slice(), low_p)
}

fn ci_replace_exec(s: &[char], p: &[char], t: &[char], global: bool) -> (r: Vec<char>)
    requires
        p@.len() > 0,
    ensures
        r@ == ci_replace(s@, p@, t@, global),
{
    let low_p = lower_text_exec(p);
    let mut r: Vec<char> = Vec::new();
    let mut i: usize = 0;
    assert(s@.skip(0) =~= s@);
    while i < s.len()
        invariant
            i <= s@.len(),
            p@.len() > 0,
            low_p@ == lower_text(p@),
            r@ + ci_replace(s@.skip(i as int), p@, t@, global) == ci_replace(s@, p@, t@, global),
        decreases s@.len() - i,
    {
        let ghost rest = s@.skip(i as int);
        let hit = ci_hit_exec(s, low_p.as_slice(), p.len(), i);
        assert(hit == ci_hit(rest, p@, 0)) by {
            if i + p@.len() <= s@.len() {
                assert(rest.subrange(0, p@.len() as int) =~= s@.subrange(i as int, i + p@.len()));
            }
        }
        if hit {
            let ghost before = r@;
            push_all(&mut r, t);
            assert(rest.skip(p@.len() as int) =~= s@.skip(i + p@.len()));
            if !global {
                let tail = subvec(s, i + p.len(), s.len());
                push_all(&mut r, tail.as_slice());
                assert(r@ =~= before + ci_replace(rest, p@, t@, global));
                assert(s@.skip(s@.len() as int) =~= seq![]);
                assert(r@ + seq![] =~= r@);
                return r;
            }
            i = i + p.len();
        } else {
            r.push(s[i]);
            assert(rest.drop_first() =~= s@.skip(i + 1));
            assert(seq![rest[0]] + ci_replace(rest.drop_first(), p@, t@, global) == ci_replace(
                rest,
                p@,
                t@,
                global,
            ));
            i = i + 1;
        }
    }
    assert(s@.skip(i as int) =~= seq![]);
    assert(r@ + seq![] =~= r@);
    r
}

fn substitute_exec(line: &[char], search: &[char], repl: &[char], global: bool, ci: bool) -> (r: Vec<char>)
    ensures
        r@ == substitute(line@, search@, repl@, global, ci),
{
    if search.len() == 0 {
        clone_chars(line)
    } else if ci {
        ci_replace_exec(line, search, repl, global)
    } else if global {
        replace_all_exec(line, search, repl)
    } else {
        replace_first_exec(line, search, repl)
    }
}

fn cmd_addr_ref(c: &SedCmd) -> (r: &Option<SedAddr>)
    ensures
        addr_opt_view(*r) == cmd_addr(c.view()),
{
    match c {
        SedCmd::Subst { addr, .. } => addr,
        SedCmd::Delete { addr } => addr,
        SedCmd::Print { addr } => addr,
    }
}

/// Runs the commands over one line; returns the line as changed, whether
/// it was printed and whether it was deleted.
fn sed_cmds_exec(
    cmds: &Vec<SedCmd>,
    states: &mut Vec<Option<(bool, bool)>>,
    num: usize,
    last: bool,
    line: &[char],
    out: &mut Vec<char>,
) -> (r: (Vec<char>, bool, bool))
    requires
        old(states)@.len() == cmds@.len(),
    ensures
        final(states)@.len() == old(states)@.len(),
        (final(states)@, final(out)@, r.0@, r.1, r.2) == sed_cmds(
            cmd_views(cmds@),
            0,
            old(states)@,
            num as nat,
            last,
            line@,
            old(out)@,
            false,
        ),
{
    let ghost cv = cmd_views(cmds@);
    let ghost target = sed_cmds(cv, 0, old(states)@, num as nat, last, line@, old(out)@, false);
    let mut cur = clone_chars(line);
    let mut printed = false;
    let mut k: usize = 0;
    let mut deleted = false;
    while k < cmds.len() && !deleted
        invariant
            k <= cmds@.len(),
            states@.len() == cmds@.len(),
            cv == cmd_views(cmds@),
            !deleted ==> sed_cmds(cv, k as int, states@, num as nat, last, cur@, out@, printed) == target,
            deleted ==> (states@, out@, cur@, printed, true) == target,
        decreases cmds@.len() - k + (if deleted { 0int } else { 1int }),
    {
        let c = &cmds[k];
        let ghost cvk = cv[k as int];
        assert(cvk == c.view());
        let (m, st2) = addr_step_exec(cmd_addr_ref(c), states[k], num, last, cur.as_slice());
        states.set(k, st2);
        match c {
            SedCmd::Subst { search, replace, global, ci, .. } => {
                if m {
                    cur = substitute_exec(cur.as_slice(), search.as_slice(), replace.as_slice(), *global, *ci);
                }
            },
            SedCmd::Delete { .. } => {
                if m {
                    deleted = true;
                }
            },
            SedCmd::Print { .. } => {
                if m {
                    push_all(out, cur.as_slice());
                    push_str(out, "\n");
                    printed = true;
                }
            },
        }
        if !deleted {
            k = k + 1;
        }
    }
    (cur, printed, deleted)
}

/// `sed` over stdin or the first file named.
pub fn cmd_sed(args: &[String], stdin: &[char], fs: &Fs, cwd: &[char]) -> (r: CmdOutput)
    ensures
        r.view() == sed_spec(crate::argparse::str_views(args@), stdin@, fs.view(), cwd@),
{
    let ghost av = crate::argparse::str_views(args@);
    let mut sup = false;
    let mut cmds: Vec<Vec<char>> = Vec::new();
    let mut files: Vec<Vec<char>> = Vec::new();
    let mut i: usize = 0;
    assert(views(cmds@) =~= seq![]);
    assert(views(files@) =~= seq![]);
    while i < args.len()
        invariant
            i <= args@.len(),
            av == crate::argparse::str_views(args@),
            sed_args(av, i as int, sup, views(cmds@), views(files@)) == sed_args(
                av,
                0,
                false,
                seq![],
                seq![],
            ),
        decreases args@.len() - i,
    {
        let a = chars_of(args[i].as_str());
        assert(a@ == av[i as int]);
        if is_word(a.as_slice(), "-n") {
            sup = true;
            i = i + 1;
        } else if is_word(a.as_slice(), "-e") && i + 1 < args.len() {
            let ghost before = views(cmds@);
            cmds.push(chars_of(args[i + 1].as_str()));
            assert(views(cmds@) =~= before.push(av[i + 1]));
            i = i + 2;
        } else if is_word(a.as_slice(), "-i") {
            i = i + 1;
        } else if !(a.len() > 0 && a[0] == '-') && cmds.len() == 0 {
            let ghost before = views(cmds@);
            cmds.push(a);
            assert(views(cmds@) =~= before.push(av[i as int]));
            i = i + 1;
        } else {
            let ghost before = views(files@);
            files.push(a);
            assert(views(files@) =~= before.push(av[i as int]));
            i = i + 1;
        }
    }
    assert(sed_args(av, i as int, sup, views(cmds@), views(files@)) == (sup, views(cmds@), views(files@)));
    if cmds.len() == 0 {
        return failure(lit("sed: no command specified\n"), 1);
    }
    let full = join(&cmds, lit(";").as_slice());
    let pieces = split_chars(full.as_slice(), ';');
    let ghost pv = views(pieces@);
    let mut parsed: Vec<SedCmd> = Vec::new();
    let mut parts: Vec<Vec<char>> = Vec::new();
    let mut j: usize = 0;
    assert(views(parts@) =~= seq![]);
    assert(cmd_views(parsed@) =~= seq![]);
    assert(pv.take(0) =~= seq![]);
    while j < pieces.len()
        invariant
            j <= pieces@.len(),
            pv == views(pieces@),
            pv == split_on(join_spec(views(cmds@), ";"@), ';'),
            av == crate::argparse::str_views(args@),
            sed_args(av, 0, false, seq![], seq![]) == (sup, views(cmds@), views(files@)),
            cmds@.len() > 0,
            views(parts@) == command_parts(pv.take(j as int)),
            parse_all(views(parts@)) == Ok::<Seq<CmdView>, Seq<char>>(cmd_views(parsed@)),
        decreases pieces@.len() - j,
    {
        let ghost tk = pv.take(j + 1);
        assert(tk.drop_last() =~= pv.take(j as int));
        assert(tk.last() == pieces@[j as int]@);
        let t = trim(pieces[j].as_slice());
        if t.len() > 0 {
            let ghost before = views(parts@);
            match parse_sed_command_exec(t.as_slice()) {
                Some(c) => {
                    let ghost pb = cmd_views(parsed@);
                    parsed.push(c);
                    assert(cmd_views(parsed@) =~= pb.push(c.view()));
                },
                None => {
                    parts.push(clone_chars(t.as_slice()));
                    assert(views(parts@) =~= before.push(t@));
                    assert(views(parts@).drop_last() =~= before);
                    proof {
                        assert(command_parts(tk) == views(parts@));
                        assert(parse_all(views(parts@)) == Err::<Seq<CmdView>, Seq<char>>(t@));
                        lemma_parts_prefix(pv, j + 1);
                        assert(tk == pv.take(j + 1));
                        assert(command_parts(pv).take(views(parts@).len() as int) == views(parts@));
                        lemma_parse_all_prefix_err(command_parts(pv), views(parts@).len() as int);
                        assert(parse_all(command_parts(pv)) == Err::<Seq<CmdView>, Seq<char>>(t@));
                        assert(pv == split_on(join_spec(views(cmds@), ";"@), ';'));
                    }
                    let mut e = lit("sed: invalid command: ");
                    push_all(&mut e, t.as_slice());
                    push_str(&mut e, "\n");
                    return failure(e, 1);
                },
            }
            parts.push(t);
            assert(views(parts@) =~= before.push(t@));
            assert(views(parts@).drop_last() =~= before);
        }
        j = j + 1;
    }
    assert(pv.take(pieces@.len() as int) =~= pv);
    let text = if files.len() == 0 {
        clone_chars(stdin)
    } else {
        assert(views(files@)[0] == files@[0]@);
        match read_text_exec(fs, files[0].as_slice(), cwd) {
            Some(t) => t,
            None => {
                let mut e = lit("sed: cannot read '");
                push_all(&mut e, files[0].as_slice());
                push_str(&mut e, "'\n");
                return failure(e, 1);
            },
        }
    };
    let ls = lines(text.as_slice());
    let ghost lv = views(ls@);
    let ghost cv = cmd_views(parsed@);
    let mut states: Vec<Option<(bool, bool)>> = Vec::new();
    let mut q: usize = 0;
    while q < parsed.len()
        invariant
            q <= parsed@.len(),
            states@ =~= Seq::new(q as nat, |i: int| None::<(bool, bool)>),
        decreases parsed@.len() - q,
    {
        states.push(None);
        q = q + 1;
    }
    let mut out: Vec<char> = Vec::new();
    let mut n: usize = 0;
    assert(lv.take(0) =~= seq![]);
    while n < ls.len()
        invariant
            n <= ls@.len(),
            lv == views(ls@),
            cv == cmd_views(parsed@),
            states@.len() == parsed@.len(),
            (states@, out@) == sed_lines(cv, lv.take(n as int), sup, lv.len()),
        decreases ls@.len() - n,
    {
        let ghost tk = lv.take(n + 1);
        assert(tk.drop_last() =~= lv.take(n as int));
        assert(tk.last() == ls@[n as int]@);
        let (cur, printed, deleted) = sed_cmds_exec(
            &parsed,
            &mut states,
            n + 1,
            n + 1 == ls.len(),
            ls[n].as_slice(),
            &mut out,
        );
        if !deleted && !sup && !printed {
            push_all(&mut out, cur.as_slice());
            push_str(&mut out, "\n");
        }
        n = n + 1;
    }
    assert(lv.take(ls@.len() as int) =~= lv);
    success(out)
}

// ══════════════════════════════════════════════════════════════════
// What `s///` replaces
// ══════════════════════════════════════════════════════════════════

/// The search text occurs in the line at `i` (compared lower-cased with
/// `i`).
pub open spec fn sub_hit(line: Seq<char>, search: Seq<char>, ci: bool, i: int) -> bool {
    &&& 0 <= i
    &&& i + search.len() <= line.len()
    &&& if ci {
        lower_text(line.subrange(i, i + search.len())) == lower_text(search)
    } else {
        line.subrange(i, i + search.len()) == search
    }
}

proof fn lemma_hit_shift(s: Seq<char>, p: Seq<char>, ci: bool, i: int)
    requires
        s.len() > 0,
        0 <= i,
    ensures
        sub_hit(s.drop_first(), p, ci, i) == sub_hit(s, p, ci, i + 1),
{
    if i + p.len() <= s.len() - 1 {
        assert(s.drop_first().subrange(i, i + p.len()) =~= s.subrange(i + 1, i + 1 + p.len()));
    }
}

proof fn lemma_first_hit(s: Seq<char>, p: Seq<char>, t: Seq<char>, ci: bool, q: int)
    requires
        p.len() > 0,
        sub_hit(s, p, ci, q),
        forall|i: int| 0 <= i < q ==> !sub_hit(s, p, ci, i),
    ensures
        substitute(s, p, t, false, ci) == s.take(q) + t + s.skip(q + p.len()),
    decreases s.len(),
{
    if q == 0 {
        assert(s.take(0) + t =~= t);
        if ci {
            assert(ci_hit(s, p, 0));
        } else {
            assert(crate::text::occurs_at(s, p, 0));
        }
    } else {
        assert(!sub_hit(s, p, ci, 0));
        let u = s.drop_first();
        lemma_hit_shift(s, p, ci, q - 1);
        assert forall|i: int| 0 <= i < q - 1 implies !sub_hit(u, p, ci, i) by {
            lemma_hit_shift(s, p, ci, i);
        }
        lemma_first_hit(u, p, t, ci, q - 1);
        if ci {
            assert(!ci_hit(s, p, 0));
        } else {
            assert(!crate::text::occurs_at(s, p, 0));
        }
        assert(seq![s[0]] + (u.take(q - 1) + t + u.skip(q - 1 + p.len())) =~= s.take(q) + t + s.skip(q + p.len()));
    }
}

proof fn lemma_no_hit(s: Seq<char>, p: Seq<char>, t: Seq<char>, ci: bool)
    requires
        p.len() > 0,
        forall|i: int| 0 <= i ==> !sub_hit(s, p, ci, i),
    ensures
        substitute(s, p, t, false, ci) == s,
    decreases s.len(),
{
    if s.len() > 0 {
        assert(!sub_hit(s, p, ci, 0));
        let u = s.drop_first();
        assert forall|i: int| 0 <= i implies !sub_hit(u, p, ci, i) by {
            lemma_hit_shift(s, p, ci, i);
        }
        lemma_no_hit(u, p, t, ci);
        if ci {
            assert(!ci_hit(s, p, 0));
        } else {
            assert(!crate::text::occurs_at(s, p, 0));
        }
        assert(seq![s[0]] + u =~= s);
    }
}

/// Without the `g` flag, `s/search/repl/` (ignoring case or not) replaces
/// only the first occurrence of the search text: what comes before it and
/// everything after it stay as they were; a line without one is kept.
pub proof fn law_substitute_first_only(line: Seq<char>, search: Seq<char>, repl: Seq<char>, ci: bool, q: int)
    requires
        search.len() > 0,
    ensures
        (forall|i: int| 0 <= i ==> !sub_hit(line, search, ci, i)) ==> substitute(line, search, repl, false, ci)
            == line,
        (sub_hit(line, search, ci, q) && forall|i: int| 0 <= i < q ==> !sub_hit(line, search, ci, i))
            ==> substitute(line, search, repl, false, ci) == line.take(q) + repl + line.skip(q + search.len()),
{
    if forall|i: int| 0 <= i ==> !sub_hit(line, search, ci, i) {
        lemma_no_hit(line, search, repl, ci);
    }
    if sub_hit(line, search, ci, q) && forall|i: int| 0 <= i < q ==> !sub_hit(line, search, ci, i) {
        lemma_first_hit(line, search, repl, ci, q);
    }
}

} // verus!
