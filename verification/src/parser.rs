//! Shell input parsing: statements, pipelines, quoting, redirections and
//! variable expansion.
use crate::env::{brace_end, lemma_brace_end_bound, lookup_or_empty, Env};
use crate::text::{
    word_char, chars_eq, chars_of, is_alphanumeric, lit, push_all, string_of, subvec, trim,
    trim_spec, views,
};
use vstd::prelude::*;

verus! {

// ── Error type ─────────────────────────────────────────────────

#[derive(Debug, Clone, PartialEq)]
pub struct ParseError {
    pub message: String,
}

impl ParseError {
    fn new(msg: &str) -> (e: Self)
        ensures
            e.message@ == msg@,
    {
        ParseError { message: msg.to_owned() }
    }

    /// The error as it is shown to the user: `syntax error: MESSAGE`.
    pub fn to_string(&self) -> (r: String)
        ensures
            r@ == "syntax error: "@ + self.message@,
    {
        let mut v = lit("syntax error: ");
        let m = chars_of(self.message.as_str());
        push_all(&mut v, m.as_slice());
        string_of(v.as_slice())
    }
}

// ── AST types ─────────────────────────────────────────────────────

#[derive(Debug, Clone, PartialEq)]
pub struct SimpleCommand {
    pub args: Vec<String>,
    pub input_redirect: Option<String>,
    pub output_redirect: Option<String>,
    pub append: bool,
}

#[derive(Debug, Clone, PartialEq)]
pub struct Pipeline {
    pub commands: Vec<SimpleCommand>,
    pub input_redirect: Option<String>,
    pub output_redirect: Option<String>,
    pub append: bool,
}

/// A command as character sequences.
#[verifier::ext_equal]
pub struct CommandView {
    pub args: Seq<Seq<char>>,
    pub input: Option<Seq<char>>,
    pub output: Option<Seq<char>>,
    pub append: bool,
}

/// A pipeline as character sequences.
#[verifier::ext_equal]
pub struct PipelineView {
    pub commands: Seq<CommandView>,
    pub input: Option<Seq<char>>,
    pub output: Option<Seq<char>>,
    pub append: bool,
}

pub open spec fn opt_view(o: Option<String>) -> Option<Seq<char>> {
    match o {
        Some(s) => Some(s@),
        None => None,
    }
}

pub open spec fn string_views(v: Seq<String>) -> Seq<Seq<char>> {
    Seq::new(v.len(), |i: int| v[i]@)
}

impl SimpleCommand {
    pub open spec fn view(&self) -> CommandView {
        CommandView {
            args: string_views(self.args@),
            input: opt_view(self.input_redirect),
            output: opt_view(self.output_redirect),
            append: self.append,
        }
    }
}

impl Pipeline {
    pub open spec fn view(&self) -> PipelineView {
        PipelineView {
            commands: Seq::new(self.commands@.len(), |i: int| self.commands@[i].view()),
            input: opt_view(self.input_redirect),
            output: opt_view(self.output_redirect),
            append: self.append,
        }
    }
}

pub open spec fn pipeline_views(v: Seq<Pipeline>) -> Seq<PipelineView> {
    Seq::new(v.len(), |i: int| v[i].view())
}

// ── Statement splitting ───────────────────────────────────────────

/// Splitting at `;` outside quotes; a backslash outside single quotes keeps
/// the next character with it. The pieces keep their quotes and escapes.
pub open spec fn split_at_sep(
    s: Seq<char>,
    sep: char,
    sq: bool,
    dq: bool,
    cur: Seq<char>,
    acc: Seq<Seq<char>>,
) -> Seq<Seq<char>>
    decreases s.len(),
{
    if s.len() == 0 {
        if cur.len() > 0 {
            acc.push(cur)
        } else {
            acc
        }
    } else {
        let c = s[0];
        let r = s.drop_first();
        if c == '\'' && !dq {
            split_at_sep(r, sep, !sq, dq, cur.push(c), acc)
        } else if c == '"' && !sq {
            split_at_sep(r, sep, sq, !dq, cur.push(c), acc)
        } else if c == '\\' && !sq {
            if r.len() > 0 {
                split_at_sep(r.drop_first(), sep, sq, dq, cur.push(c).push(r[0]), acc)
            } else {
                split_at_sep(r, sep, sq, dq, cur.push(c), acc)
            }
        } else if c == sep && !sq && !dq {
            split_at_sep(r, sep, sq, dq, seq![], acc.push(cur))
        } else {
            split_at_sep(r, sep, sq, dq, cur.push(c), acc)
        }
    }
}

/// The statements of an input line.
pub open spec fn statements_of(s: Seq<char>) -> Seq<Seq<char>> {
    split_at_sep(s, ';', false, false, seq![], seq![])
}

/// The parts of a statement between `|` outside quotes, each trimmed.
pub open spec fn pipe_parts_of(s: Seq<char>) -> Seq<Seq<char>> {
    let raw = split_at_sep(s, '|', false, false, seq![], seq![]);
    Seq::new(raw.len(), |i: int| trim_spec(raw[i]))
}

fn split_quoted(input: &Vec<char>, sep: char) -> (r: Vec<Vec<char>>)
    ensures
        views(r@) == split_at_sep(input@, sep, false, false, seq![], seq![]),
{
    let mut acc: Vec<Vec<char>> = Vec::new();
    let mut cur: Vec<char> = Vec::new();
    let mut sq = false;
    let mut dq = false;
    let mut i: usize = 0;
    let ghost s = input@;
    assert(s.skip(0) =~= s);
    assert(views(acc@) =~= seq![]);
    assert(cur@ =~= seq![]);
    while i < input.len()
        invariant
            i <= s.len(),
            s == input@,
            split_at_sep(s.skip(i as int), sep, sq, dq, cur@, views(acc@)) == split_at_sep(
                s,
                sep,
                false,
                false,
                seq![],
                seq![],
            ),
        decreases s.len() - i,
    {
        let c = input[i];
        let ghost t = s.skip(i as int);
        assert(t[0] == c);
        assert(t.drop_first() =~= s.skip(i + 1));
        if c == '\'' && !dq {
            sq = !sq;
            cur.push(c);
            i = i + 1;
        } else if c == '"' && !sq {
            dq = !dq;
            cur.push(c);
            i = i + 1;
        } else if c == '\\' && !sq {
            cur.push(c);
            if i + 1 < input.len() {
                assert(t.drop_first()[0] == s[i + 1]);
                assert(t.drop_first().drop_first() =~= s.skip(i + 2));
                cur.push(input[i + 1]);
                i = i + 2;
            } else {
                i = i + 1;
            }
        } else if c == sep && !sq && !dq {
            let ghost before = views(acc@);
            let ghost old_cur = cur@;
            acc.push(cur);
            cur = Vec::new();
            assert(views(acc@) =~= before.push(old_cur));
            i = i + 1;
        } else {
            cur.push(c);
            i = i + 1;
        }
    }
    assert(s.skip(i as int) =~= seq![]);
    if cur.len() > 0 {
        let ghost before = views(acc@);
        acc.push(cur);
        assert(views(acc@) =~= before.push(cur@));
    }
    acc
}


// ── Tokenizer ─────────────────────────────────────────────────────

pub open spec fn flush(cur: Seq<char>, toks: Seq<Seq<char>>) -> Seq<Seq<char>> {
    if cur.len() > 0 {
        toks.push(cur)
    } else {
        toks
    }
}

/// Tokenizing: quotes group characters and disappear, a backslash takes the
/// next character literally, blanks separate words, and `>`, `>>`, `<` are
/// tokens of their own.
pub open spec fn tok_step(
    s: Seq<char>,
    sq: bool,
    dq: bool,
    cur: Seq<char>,
    toks: Seq<Seq<char>>,
) -> Result<Seq<Seq<char>>, Seq<char>>
    decreases s.len(),
{
    if s.len() == 0 {
        if sq {
            Err("unterminated single quote"@)
        } else if dq {
            Err("unterminated double quote"@)
        } else {
            Ok(flush(cur, toks))
        }
    } else {
        let c = s[0];
        let r = s.drop_first();
        if sq {
            if c == '\'' {
                tok_step(r, false, dq, cur, toks)
            } else {
                tok_step(r, sq, dq, cur.push(c), toks)
            }
        } else if dq {
            if c == '"' {
                tok_step(r, sq, false, cur, toks)
            } else if c == '\\' {
                if r.len() > 0 {
                    tok_step(r.drop_first(), sq, dq, cur.push(r[0]), toks)
                } else {
                    Err("unexpected EOF after '\\'"@)
                }
            } else {
                tok_step(r, sq, dq, cur.push(c), toks)
            }
        } else if c == '\'' {
            tok_step(r, true, dq, cur, toks)
        } else if c == '"' {
            tok_step(r, sq, true, cur, toks)
        } else if c == ' ' || c == '\t' {
            tok_step(r, sq, dq, seq![], flush(cur, toks))
        } else if c == '>' {
            if r.len() > 0 && r[0] == '>' {
                tok_step(r.drop_first(), sq, dq, seq![], flush(cur, toks).push(">>"@))
            } else {
                tok_step(r, sq, dq, seq![], flush(cur, toks).push(">"@))
            }
        } else if c == '<' {
            tok_step(r, sq, dq, seq![], flush(cur, toks).push("<"@))
        } else if c == '\\' {
            if r.len() > 0 {
                tok_step(r.drop_first(), sq, dq, cur.push(r[0]), toks)
            } else {
                Err("unexpected EOF after '\\'"@)
            }
        } else {
            tok_step(r, sq, dq, cur.push(c), toks)
        }
    }
}

pub open spec fn tokenize_spec(s: Seq<char>) -> Result<Seq<Seq<char>>, Seq<char>> {
    tok_step(s, false, false, seq![], seq![])
}

fn flush_exec(cur: &mut Vec<char>, toks: &mut Vec<Vec<char>>)
    ensures
        final(cur)@ == Seq::<char>::empty(),
        views(final(toks)@) == flush(old(cur)@, views(old(toks)@)),
{
    if cur.len() > 0 {
        let ghost before = views(toks@);
        let ghost c = cur@;
        let mut taken: Vec<char> = Vec::new();
        std::mem::swap(cur, &mut taken);
        toks.push(taken);
        assert(views(toks@) =~= before.push(c));
    } else {
        assert(cur@ =~= Seq::<char>::empty());
    }
}

pub fn tokenize(input: &Vec<char>) -> (r: Result<Vec<Vec<char>>, ParseError>)
    ensures
        match r {
            Ok(t) => tokenize_spec(input@) == Ok::<Seq<Seq<char>>, Seq<char>>(views(t@)),
            Err(e) => tokenize_spec(input@) == Err::<Seq<Seq<char>>, Seq<char>>(e.message@),
        },
{
    let mut toks: Vec<Vec<char>> = Vec::new();
    let mut cur: Vec<char> = Vec::new();
    let mut sq = false;
    let mut dq = false;
    let mut i: usize = 0;
    let ghost s = input@;
    assert(s.skip(0) =~= s);
    assert(views(toks@) =~= seq![]);
    assert(cur@ =~= seq![]);
    while i < input.len()
        invariant
            i <= s.len(),
            s == input@,
            tok_step(s.skip(i as int), sq, dq, cur@, views(toks@)) == tokenize_spec(s),
        decreases s.len() - i,
    {
        let c = input[i];
        let ghost t = s.skip(i as int);
        assert(t[0] == c);
        assert(t.drop_first() =~= s.skip(i + 1));
        if i + 1 < input.len() {
            assert(t.drop_first()[0] == s[i + 1]);
            assert(t.drop_first().drop_first() =~= s.skip(i + 2));
        }
        if sq {
            if c == '\'' {
                sq = false;
            } else {
                cur.push(c);
            }
            i = i + 1;
        } else if dq {
            if c == '"' {
                dq = false;
                i = i + 1;
            } else if c == '\\' {
                if i + 1 < input.len() {
                    cur.push(input[i + 1]);
                    i = i + 2;
                } else {
                    return Err(ParseError::new("unexpected EOF after '\\'"));
                }
            } else {
                cur.push(c);
                i = i + 1;
            }
        } else if c == '\'' {
            sq = true;
            i = i + 1;
        } else if c == '"' {
            dq = true;
            i = i + 1;
        } else if c == ' ' || c == '\t' {
            flush_exec(&mut cur, &mut toks);
            i = i + 1;
        } else if c == '>' {
            flush_exec(&mut cur, &mut toks);
            let ghost before = views(toks@);
            if i + 1 < input.len() && input[i + 1] == '>' {
                let op = lit(">>");
                toks.push(op);
                assert(views(toks@) =~= before.push(">>"@));
                i = i + 2;
            } else {
                let op = lit(">");
                toks.push(op);
                assert(views(toks@) =~= before.push(">"@));
                i = i + 1;
            }
        } else if c == '<' {
            flush_exec(&mut cur, &mut toks);
            let ghost before = views(toks@);
            let op = lit("<");
            toks.push(op);
            assert(views(toks@) =~= before.push("<"@));
            i = i + 1;
        } else if c == '\\' {
            if i + 1 < input.len() {
                cur.push(input[i + 1]);
                i = i + 2;
            } else {
                return Err(ParseError::new("unexpected EOF after '\\'"));
            }
        } else {
            cur.push(c);
            i = i + 1;
        }
    }
    assert(s.skip(i as int) =~= seq![]);
    if sq {
        return Err(ParseError::new("unterminated single quote"));
    }
    if dq {
        return Err(ParseError::new("unterminated double quote"));
    }
    flush_exec(&mut cur, &mut toks);
    Ok(toks)
}

// ── SimpleCommand parser ──────────────────────────────────────────

/// Reading a token list: `>` FILE and `>>` FILE set the output (the latter
/// appending), `<` FILE sets the input, other tokens are arguments.
pub open spec fn simple_step(
    toks: Seq<Seq<char>>,
    args: Seq<Seq<char>>,
    inp: Option<Seq<char>>,
    outp: Option<Seq<char>>,
    app: bool,
) -> CommandView
    decreases toks.len(),
{
    if toks.len() == 0 {
        CommandView { args, input: inp, output: outp, append: app }
    } else {
        let t = toks[0];
        let r = toks.drop_first();
        if t == ">"@ {
            if r.len() > 0 {
                simple_step(r.drop_first(), args, inp, Some(r[0]), app)
            } else {
                simple_step(r, args, inp, outp, app)
            }
        } else if t == ">>"@ {
            if r.len() > 0 {
                simple_step(r.drop_first(), args, inp, Some(r[0]), true)
            } else {
                simple_step(r, args, inp, outp, app)
            }
        } else if t == "<"@ {
            if r.len() > 0 {
                simple_step(r.drop_first(), args, Some(r[0]), outp, app)
            } else {
                simple_step(r, args, inp, outp, app)
            }
        } else {
            simple_step(r, args.push(t), inp, outp, app)
        }
    }
}

pub open spec fn simple_command_spec(toks: Seq<Seq<char>>) -> CommandView {
    simple_step(toks, seq![], None, None, false)
}

fn parse_simple_command(tokens: &Vec<Vec<char>>) -> (c: SimpleCommand)
    ensures
        c.view() == simple_command_spec(views(tokens@)),
{
    let mut args: Vec<String> = Vec::new();
    let mut input_redirect: Option<String> = None;
    let mut output_redirect: Option<String> = None;
    let mut append = false;
    let mut i: usize = 0;
    let ghost tv = views(tokens@);
    let gt = lit(">");
    let gg = lit(">>");
    let lt = lit("<");
    assert(tv.skip(0) =~= tv);
    assert(string_views(args@) =~= seq![]);
    while i < tokens.len()
        invariant
            i <= tv.len(),
            tv == views(tokens@),
            gt@ == ">"@,
            gg@ == ">>"@,
            lt@ == "<"@,
            simple_step(
                tv.skip(i as int),
                string_views(args@),
                opt_view(input_redirect),
                opt_view(output_redirect),
                append,
            ) == simple_command_spec(tv),
        decreases tv.len() - i,
    {
        let ghost t = tv.skip(i as int);
        assert(t[0] == tokens@[i as int]@);
        assert(t.drop_first() =~= tv.skip(i + 1));
        if i + 1 < tokens.len() {
            assert(t.drop_first()[0] == tokens@[i + 1]@);
            assert(t.drop_first().drop_first() =~= tv.skip(i + 2));
        }
        let tok = tokens[i].as_slice();
        if chars_eq(tok, gt.as_slice()) {
            if i + 1 < tokens.len() {
                output_redirect = Some(string_of(tokens[i + 1].as_slice()));
                i = i + 2;
            } else {
                i = i + 1;
            }
        } else if chars_eq(tok, gg.as_slice()) {
            if i + 1 < tokens.len() {
                output_redirect = Some(string_of(tokens[i + 1].as_slice()));
                append = true;
                i = i + 2;
            } else {
                i = i + 1;
            }
        } else if chars_eq(tok, lt.as_slice()) {
            if i + 1 < tokens.len() {
                input_redirect = Some(string_of(tokens[i + 1].as_slice()));
                i = i + 2;
            } else {
                i = i + 1;
            }
        } else {
            let ghost before = string_views(args@);
            args.push(string_of(tok));
            assert(string_views(args@) =~= before.push(t[0]));
            i = i + 1;
        }
    }
    assert(tv.skip(i as int) =~= seq![]);
    let c = SimpleCommand { args, input_redirect, output_redirect, append };
    assert(c.view() =~= simple_command_spec(tv));
    c
}


// ── Variable expansion ────────────────────────────────────────────

/// Length of the longest prefix made of alphanumeric characters, `_` and `?`.
pub open spec fn var_run(t: Seq<char>) -> nat
    decreases t.len(),
{
    if t.len() > 0 && (word_char(t[0]) || t[0] == '_' || t[0] == '?') {
        1 + var_run(t.drop_first())
    } else {
        0
    }
}

pub proof fn lemma_var_run_bound(t: Seq<char>)
    ensures
        var_run(t) <= t.len(),
        var_run(t) < t.len() ==> !(word_char(t[var_run(t) as int]) || t[var_run(t) as int]
            == '_' || t[var_run(t) as int] == '?'),
    decreases t.len(),
{
    if t.len() > 0 && (word_char(t[0]) || t[0] == '_' || t[0] == '?') {
        lemma_var_run_bound(t.drop_first());
    }
}

/// Expansion before tokenizing: quotes are removed, single quotes keep `$`
/// literal, a backslash is kept together with the next character, and `$`
/// introduces a variable reference (`${NAME}`, or a run of name characters
/// and `?` after `$`); unset variables expand to nothing.
pub open spec fn expand_step(
    m: Map<Seq<char>, Seq<char>>,
    s: Seq<char>,
    sq: bool,
    dq: bool,
    out: Seq<char>,
) -> Result<Seq<char>, Seq<char>>
    decreases s.len(),
{
    if s.len() == 0 {
        if sq {
            Err("unterminated single quote"@)
        } else if dq {
            Err("unterminated double quote"@)
        } else {
            Ok(out)
        }
    } else {
        let c = s[0];
        let r = s.drop_first();
        if sq {
            if c == '\'' {
                expand_step(m, r, false, dq, out)
            } else {
                expand_step(m, r, sq, dq, out.push(c))
            }
        } else if dq && c == '"' {
            expand_step(m, r, sq, false, out)
        } else if !dq && c == '\'' {
            expand_step(m, r, true, dq, out)
        } else if !dq && c == '"' {
            expand_step(m, r, sq, true, out)
        } else if c == '\\' {
            if r.len() > 0 {
                expand_step(m, r.drop_first(), sq, dq, out.push(c).push(r[0]))
            } else {
                Err("unexpected EOF after '\\'"@)
            }
        } else if c == '$' {
            if r.len() == 0 {
                expand_step(m, r, sq, dq, out.push('$'))
            } else if r[0] == '{' {
                let u = r.drop_first();
                let e = brace_end(u);
                proof {
                    lemma_brace_end_bound(u);
                }
                if e >= u.len() {
                    Err("unterminated ${"@)
                } else {
                    expand_step(m, u.skip(e + 1int), sq, dq, out + lookup_or_empty(m, u.take(e as int)))
                }
            } else if word_char(r[0]) || r[0] == '_' || r[0] == '?' || r[0] == '$' || r[0] == '!' {
                let k = var_run(r);
                proof {
                    lemma_var_run_bound(r);
                }
                expand_step(m, r.skip(k as int), sq, dq, out + lookup_or_empty(m, r.take(k as int)))
            } else {
                expand_step(m, r, sq, dq, out.push('$'))
            }
        } else {
            expand_step(m, r, sq, dq, out.push(c))
        }
    }
}

pub open spec fn expand_spec(m: Map<Seq<char>, Seq<char>>, s: Seq<char>) -> Result<Seq<char>, Seq<char>> {
    expand_step(m, s, false, false, seq![])
}

fn scan_brace_at(c: &Vec<char>, i: usize) -> (j: usize)
    requires
        i <= c@.len(),
    ensures
        j == i + brace_end(c@.skip(i as int)),
        j <= c@.len(),
{
    let mut j = i;
    proof {
        lemma_brace_end_bound(c@.skip(i as int));
    }
    while j < c.len() && c[j] != '}'
        invariant
            i <= j <= c@.len(),
            brace_end(c@.skip(i as int)) == (j - i) + brace_end(c@.skip(j as int)),
        decreases c@.len() - j,
    {
        assert(c@.skip(j as int).drop_first() =~= c@.skip(j + 1));
        j = j + 1;
    }
    j
}

fn scan_var(c: &Vec<char>, i: usize) -> (j: usize)
    requires
        i <= c@.len(),
    ensures
        j == i + var_run(c@.skip(i as int)),
        j <= c@.len(),
{
    let mut j = i;
    proof {
        lemma_var_run_bound(c@.skip(i as int));
    }
    while j < c.len() && (is_alphanumeric(c[j]) || c[j] == '_' || c[j] == '?')
        invariant
            i <= j <= c@.len(),
            var_run(c@.skip(i as int)) == (j - i) + var_run(c@.skip(j as int)),
        decreases c@.len() - j,
    {
        assert(c@.skip(j as int).drop_first() =~= c@.skip(j + 1));
        j = j + 1;
    }
    j
}

pub fn expand_variables(input: &Vec<char>, env: &Env) -> (r: Result<Vec<char>, ParseError>)
    ensures
        match r {
            Ok(t) => expand_spec(env.vars_view(), input@) == Ok::<Seq<char>, Seq<char>>(t@),
            Err(e) => expand_spec(env.vars_view(), input@) == Err::<Seq<char>, Seq<char>>(
                e.message@,
            ),
        },
{
    let ghost m = env.vars_view();
    let ghost s = input@;
    let mut out: Vec<char> = Vec::new();
    let mut sq = false;
    let mut dq = false;
    let mut i: usize = 0;
    assert(s.skip(0) =~= s);
    assert(out@ =~= seq![]);
    while i < input.len()
        invariant
            i <= s.len(),
            s == input@,
            m == env.vars_view(),
            expand_step(m, s.skip(i as int), sq, dq, out@) == expand_spec(m, s),
        decreases s.len() - i,
    {
        let c = input[i];
        let ghost t = s.skip(i as int);
        assert(t[0] == c);
        assert(t.drop_first() =~= s.skip(i + 1));
        if i + 1 < input.len() {
            assert(t.drop_first()[0] == s[i + 1]);
            assert(t.drop_first().drop_first() =~= s.skip(i + 2));
        }
        if sq {
            if c == '\'' {
                sq = false;
            } else {
                out.push(c);
            }
            i = i + 1;
        } else if dq && c == '"' {
            dq = false;
            i = i + 1;
        } else if !dq && c == '\'' {
            sq = true;
            i = i + 1;
        } else if !dq && c == '"' {
            dq = true;
            i = i + 1;
        } else if c == '\\' {
            if i + 1 < input.len() {
                out.push(c);
                out.push(input[i + 1]);
                i = i + 2;
            } else {
                return Err(ParseError::new("unexpected EOF after '\\'"));
            }
        } else if c == '$' {
            if i + 1 >= input.len() {
                out.push('$');
                i = i + 1;
            } else if input[i + 1] == '{' {
                let start = i + 2;
                let ghost u = t.drop_first().drop_first();
                assert(u =~= s.skip(start as int));
                let j = scan_brace_at(input, start);
                if j >= input.len() {
                    return Err(ParseError::new("unterminated ${"));
                }
                let name = subvec(input.as_slice(), start, j);
                assert(name@ =~= u.take(brace_end(u) as int));
                let val = env.lookup_chars(name.as_slice());
                push_all(&mut out, val.as_slice());
                i = j + 1;
                assert(s.skip(i as int) =~= u.skip(brace_end(u) + 1int));
            } else if is_alphanumeric(input[i + 1]) || input[i + 1] == '_' || input[i + 1] == '?'
                || input[i + 1] == '$' || input[i + 1] == '!' {
                let ghost r = t.drop_first();
                let j = scan_var(input, i + 1);
                let name = subvec(input.as_slice(), i + 1, j);
                assert(name@ =~= r.take(var_run(r) as int));
                let val = env.lookup_chars(name.as_slice());
                push_all(&mut out, val.as_slice());
                i = j;
                assert(s.skip(i as int) =~= r.skip(var_run(r) as int));
            } else {
                out.push('$');
                i = i + 1;
            }
        } else {
            out.push(c);
            i = i + 1;
        }
    }
    assert(s.skip(i as int) =~= seq![]);
    if sq {
        return Err(ParseError::new("unterminated single quote"));
    }
    if dq {
        return Err(ParseError::new("unterminated double quote"));
    }
    Ok(out)
}


// ── Statement → Pipeline ──────────────────────────────────────────

/// The commands of a statement's parts, each expanded, tokenized and read;
/// the first error stops the work.
pub open spec fn commands_spec(m: Map<Seq<char>, Seq<char>>, parts: Seq<Seq<char>>) -> Result<
    Seq<CommandView>,
    Seq<char>,
>
    decreases parts.len(),
{
    if parts.len() == 0 {
        Ok(seq![])
    } else {
        match commands_spec(m, parts.drop_last()) {
            Err(e) => Err(e),
            Ok(cs) => match expand_spec(m, parts.last()) {
                Err(e) => Err(e),
                Ok(x) => match tokenize_spec(x) {
                    Err(e) => Err(e),
                    Ok(t) => Ok(cs.push(simple_command_spec(t))),
                },
            },
        }
    }
}

/// The input redirect of the first command and the output redirect of the
/// last become the pipeline's own.
pub open spec fn hoist(cs: Seq<CommandView>) -> PipelineView {
    let has_in = cs.len() > 0 && cs[0].input is Some;
    let cs1 = if has_in {
        cs.update(
            0,
            CommandView { args: cs[0].args, input: None, output: cs[0].output, append: cs[0].append },
        )
    } else {
        cs
    };
    let inp = if has_in {
        cs[0].input
    } else {
        None
    };
    let n = cs1.len();
    if n > 0 && cs1[n - 1].output is Some {
        let l = cs1[n - 1];
        PipelineView {
            commands: cs1.update(
                n - 1,
                CommandView { args: l.args, input: l.input, output: None, append: l.append },
            ),
            input: inp,
            output: l.output,
            append: l.append,
        }
    } else {
        PipelineView { commands: cs1, input: inp, output: None, append: false }
    }
}

pub open spec fn statement_spec(m: Map<Seq<char>, Seq<char>>, s: Seq<char>) -> Result<
    PipelineView,
    Seq<char>,
> {
    match commands_spec(m, pipe_parts_of(s)) {
        Ok(cs) => Ok(hoist(cs)),
        Err(e) => Err(e),
    }
}

/// The pipelines of the statements that are not blank, in order; the first
/// error stops the work.
pub open spec fn parse_step(m: Map<Seq<char>, Seq<char>>, stmts: Seq<Seq<char>>) -> Result<
    Seq<PipelineView>,
    Seq<char>,
>
    decreases stmts.len(),
{
    if stmts.len() == 0 {
        Ok(seq![])
    } else {
        match parse_step(m, stmts.drop_last()) {
            Err(e) => Err(e),
            Ok(ps) => if trim_spec(stmts.last()).len() == 0 {
                Ok(ps)
            } else {
                match statement_spec(m, stmts.last()) {
                    Err(e) => Err(e),
                    Ok(p) => Ok(ps.push(p)),
                }
            },
        }
    }
}

/// What `parse` makes of an input line under the given variables.
pub open spec fn parse_spec(m: Map<Seq<char>, Seq<char>>, s: Seq<char>) -> Result<
    Seq<PipelineView>,
    Seq<char>,
> {
    parse_step(m, statements_of(s))
}

fn split_pipes(input: &Vec<char>) -> (r: Vec<Vec<char>>)
    ensures
        views(r@) == pipe_parts_of(input@),
{
    let raw = split_quoted(input, '|');
    let mut r: Vec<Vec<char>> = Vec::new();
    let mut i: usize = 0;
    while i < raw.len()
        invariant
            i <= raw@.len(),
            views(raw@) == split_at_sep(input@, '|', false, false, seq![], seq![]),
            views(r@) =~= pipe_parts_of(input@).take(i as int),
        decreases raw@.len() - i,
    {
        let t = trim(raw[i].as_slice());
        let ghost before = views(r@);
        r.push(t);
        i = i + 1;
        assert(views(r@) =~= before.push(t@));
    }
    assert(pipe_parts_of(input@).take(raw@.len() as int) =~= pipe_parts_of(input@));
    r
}

fn parse_statement(input: &Vec<char>, env: &Env) -> (r: Result<Pipeline, ParseError>)
    ensures
        match r {
            Ok(p) => statement_spec(env.vars_view(), input@) == Ok::<PipelineView, Seq<char>>(
                p.view(),
            ),
            Err(e) => statement_spec(env.vars_view(), input@) == Err::<PipelineView, Seq<char>>(
                e.message@,
            ),
        },
{
    let ghost m = env.vars_view();
    let parts = split_pipes(input);
    let ghost pv = views(parts@);
    let mut commands: Vec<SimpleCommand> = Vec::new();
    let mut i: usize = 0;
    assert(pv.take(0) =~= seq![]);
    assert(Seq::new(commands@.len(), |k: int| commands@[k].view()) =~= seq![]);
    while i < parts.len()
        invariant
            i <= parts@.len(),
            pv == views(parts@),
            pv == pipe_parts_of(input@),
            m == env.vars_view(),
            commands_spec(m, pv.take(i as int)) == Ok::<Seq<CommandView>, Seq<char>>(
                Seq::new(commands@.len(), |k: int| commands@[k].view()),
            ),
        decreases parts@.len() - i,
    {
        assert(pv.take(i + 1).drop_last() =~= pv.take(i as int));
        assert(pv.take(i + 1).last() == parts@[i as int]@);
        let expanded = match expand_variables(&parts[i], env) {
            Ok(x) => x,
            Err(e) => {
                assert(pipe_parts_of(input@) == pv);
                proof {
                    lemma_commands_err_prefix(m, pv, (i + 1) as int);
                }
                return Err(e);
            },
        };
        let tokens = match tokenize(&expanded) {
            Ok(t) => t,
            Err(e) => {
                proof {
                    lemma_commands_err_prefix(m, pv, (i + 1) as int);
                }
                return Err(e);
            },
        };
        let cmd = parse_simple_command(&tokens);
        let ghost before = Seq::new(commands@.len(), |k: int| commands@[k].view());
        commands.push(cmd);
        assert(Seq::new(commands@.len(), |k: int| commands@[k].view()) =~= before.push(cmd.view()));
        i = i + 1;
    }
    assert(pv.take(parts@.len() as int) =~= pv);
    let ghost cs = Seq::new(commands@.len(), |k: int| commands@[k].view());
    let mut input_redirect: Option<String> = None;
    let mut output_redirect: Option<String> = None;
    let mut append = false;
    let has_in = commands.len() > 0 && commands[0].input_redirect.is_some();
    if has_in {
        let mut first = commands.remove(0);
        input_redirect = first.input_redirect.take();
        commands.insert(0, first);
    }
    let ghost cs1 = Seq::new(commands@.len(), |k: int| commands@[k].view());
    assert(cs1 =~= (if has_in {
        cs.update(
            0,
            CommandView { args: cs[0].args, input: None, output: cs[0].output, append: cs[0].append },
        )
    } else {
        cs
    }));
    let n = commands.len();
    if n > 0 && commands[n - 1].output_redirect.is_some() {
        let mut last = commands.remove(n - 1);
        output_redirect = last.output_redirect.take();
        append = last.append;
        commands.insert(n - 1, last);
    }
    let p = Pipeline { commands, input_redirect, output_redirect, append };
    assert(p.view() =~= hoist(cs));
    Ok(p)
}

proof fn lemma_commands_err_prefix(m: Map<Seq<char>, Seq<char>>, parts: Seq<Seq<char>>, k: int)
    requires
        0 < k <= parts.len(),
        commands_spec(m, parts.take(k)) is Err,
    ensures
        commands_spec(m, parts) == commands_spec(m, parts.take(k)),
    decreases parts.len() - k,
{
    if k < parts.len() {
        assert(parts.take(k + 1).drop_last() =~= parts.take(k));
        lemma_commands_err_prefix(m, parts, k + 1);
    } else {
        assert(parts.take(k) =~= parts);
    }
}

/// Parse a full input line (possibly containing `;`-separated statements)
/// into a list of pipelines, with variables expanded.
pub fn parse(input: &str, env: &Env) -> (r: Result<Vec<Pipeline>, ParseError>)
    ensures
        match r {
            Ok(ps) => parse_spec(env.vars_view(), input@) == Ok::<Seq<PipelineView>, Seq<char>>(
                pipeline_views(ps@),
            ),
            Err(e) => parse_spec(env.vars_view(), input@) == Err::<Seq<PipelineView>, Seq<char>>(
                e.message@,
            ),
        },
{
    let ghost m = env.vars_view();
    let chars = chars_of(input);
    let statements = split_quoted(&chars, ';');
    let ghost sv = views(statements@);
    let mut pipelines: Vec<Pipeline> = Vec::new();
    let mut i: usize = 0;
    assert(sv.take(0) =~= seq![]);
    assert(pipeline_views(pipelines@) =~= seq![]);
    while i < statements.len()
        invariant
            i <= statements@.len(),
            sv == views(statements@),
            sv == statements_of(input@),
            m == env.vars_view(),
            parse_step(m, sv.take(i as int)) == Ok::<Seq<PipelineView>, Seq<char>>(
                pipeline_views(pipelines@),
            ),
        decreases statements@.len() - i,
    {
        assert(sv.take(i + 1).drop_last() =~= sv.take(i as int));
        assert(sv.take(i + 1).last() == statements@[i as int]@);
        let t = trim(statements[i].as_slice());
        if t.len() > 0 {
            match parse_statement(&statements[i], env) {
                Ok(p) => {
                    let ghost before = pipeline_views(pipelines@);
                    pipelines.push(p);
                    assert(pipeline_views(pipelines@) =~= before.push(p.view()));
                },
                Err(e) => {
                    proof {
                        lemma_parse_err_prefix(m, sv, (i + 1) as int);
                    }
                    return Err(e);
                },
            }
        }
        i = i + 1;
    }
    assert(sv.take(statements@.len() as int) =~= sv);
    Ok(pipelines)
}

proof fn lemma_parse_err_prefix(m: Map<Seq<char>, Seq<char>>, stmts: Seq<Seq<char>>, k: int)
    requires
        0 < k <= stmts.len(),
        parse_step(m, stmts.take(k)) is Err,
    ensures
        parse_step(m, stmts) == parse_step(m, stmts.take(k)),
    decreases stmts.len() - k,
{
    if k < stmts.len() {
        assert(stmts.take(k + 1).drop_last() =~= stmts.take(k));
        lemma_parse_err_prefix(m, stmts, k + 1);
    } else {
        assert(stmts.take(k) =~= stmts);
    }
}

} // verus!
