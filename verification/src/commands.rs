//! The built-in commands: their metadata, the registry that names them, and
//! what all of them share (their output, reading a file as text, flags).
use crate::argparse::{
    flag_is_set, parse_args_spec, ArgsView, CommandMeta, FlagMeta, FlagView, ParsedArgs,
    PositionalMeta, StdinBehavior,
};
use crate::fs::{read_spec, Fs, FsView};
use crate::text::{chars_of, decode_lossy, join_spec, lossy_utf8, views};
use vstd::prelude::*;

verus! {

// ══════════════════════════════════════════════════════════════════
// Output of a command
// ══════════════════════════════════════════════════════════════════

/// What a command gives back: its standard output, its standard error and
/// its exit code.
pub struct CmdOutput {
    pub out: Vec<char>,
    pub err: Vec<char>,
    pub code: i32,
}

#[verifier::ext_equal]
pub struct OutView {
    pub out: Seq<char>,
    pub err: Seq<char>,
    pub code: i32,
}

impl CmdOutput {
    pub open spec fn view(&self) -> OutView {
        OutView { out: self.out@, err: self.err@, code: self.code }
    }
}

pub open spec fn ov(out: Seq<char>, err: Seq<char>, code: i32) -> OutView {
    OutView { out, err, code }
}

pub fn output(out: Vec<char>, err: Vec<char>, code: i32) -> (r: CmdOutput)
    ensures
        r.view() == ov(out@, err@, code),
{
    CmdOutput { out, err, code }
}

/// A command that succeeds with the given output and nothing on stderr.
pub fn success(out: Vec<char>) -> (r: CmdOutput)
    ensures
        r.view() == ov(out@, seq![], 0),
{
    let r = CmdOutput { out, err: Vec::new(), code: 0 };
    assert(r.view() =~= ov(out@, seq![], 0));
    r
}

/// A command that fails with a message on stderr.
pub fn failure(err: Vec<char>, code: i32) -> (r: CmdOutput)
    ensures
        r.view() == ov(seq![], err@, code),
{
    let r = CmdOutput { out: Vec::new(), err, code };
    assert(r.view() =~= ov(seq![], err@, code));
    r
}

// ══════════════════════════════════════════════════════════════════
// Shared pieces
// ══════════════════════════════════════════════════════════════════

/// Whether a flag was given.
pub open spec fn flag_on(pa: ArgsView, c: char) -> bool {
    pa.flags.contains_key(c) && flag_is_set(pa.flags[c])
}

/// The value given to a value-taking flag.
pub open spec fn flag_text(pa: ArgsView, c: char) -> Option<Seq<char>> {
    if pa.flags.contains_key(c) {
        match pa.flags[c] {
            FlagView::Value(v) => Some(v),
            FlagView::Bool(_) => None,
        }
    } else {
        None
    }
}

/// The parse errors as one message, a line each.
pub open spec fn error_lines(errors: Seq<Seq<char>>) -> Seq<char> {
    join_spec(errors, "\n"@) + "\n"@
}

/// A file's content read as text (invalid UTF-8 replaced).
pub open spec fn read_text(fs: FsView, path: Seq<char>, cwd: Seq<char>) -> Option<Seq<char>> {
    match read_spec(fs, path, cwd) {
        Some(b) => Some(lossy_utf8(b)),
        None => None,
    }
}

pub fn read_text_exec(fs: &Fs, path: &[char], cwd: &[char]) -> (r: Option<Vec<char>>)
    ensures
        match r {
            Some(t) => read_text(fs.view(), path@, cwd@) == Some(t@),
            None => read_text(fs.view(), path@, cwd@) is None,
        },
{
    match fs.read_chars(path, cwd) {
        Some(b) => Some(decode_lossy(b.as_slice())),
        None => None,
    }
}

pub fn flag_on_exec(pa: &ParsedArgs, c: char) -> (r: bool)
    ensures
        r == (pa.flags_view().contains_key(c) && flag_is_set(pa.flags_view()[c])),
{
    pa.has_flag(c)
}

pub fn flag_text_exec(pa: &ParsedArgs, c: char) -> (r: Option<Vec<char>>)
    ensures
        match r {
            Some(v) => pa.flags_view().contains_key(c) && pa.flags_view()[c] == FlagView::Value(
                v@,
            ),
            None => !(pa.flags_view().contains_key(c) && pa.flags_view()[c] is Value),
        },
{
    match pa.flag_value(c) {
        Some(v) => Some(chars_of(v)),
        None => None,
    }
}

/// The positional arguments as characters.
pub fn positional_chars(pa: &ParsedArgs) -> (r: Vec<Vec<char>>)
    ensures
        views(r@) == crate::argparse::str_views(pa.positional@),
{
    let mut r: Vec<Vec<char>> = Vec::new();
    let mut i: usize = 0;
    while i < pa.positional.len()
        invariant
            i <= pa.positional@.len(),
            views(r@) =~= crate::argparse::str_views(pa.positional@).take(i as int),
        decreases pa.positional@.len() - i,
    {
        let ghost before = views(r@);
        r.push(chars_of(pa.positional[i].as_str()));
        assert(views(r@) =~= before.push(pa.positional@[i as int]@));
        i = i + 1;
    }
    r
}

// ══════════════════════════════════════════════════════════════════
// Registry
// ══════════════════════════════════════════════════════════════════

/// The built-in commands.
#[derive(Clone, Copy, Debug, PartialEq, Eq, Structural)]
pub enum Builtin {
    Ls,
    Cd,
    Pwd,
    Cat,
    Touch,
    Mkdir,
    Echo,
    Grep,
    Wc,
    Rm,
    Cp,
    Mv,
    Head,
    Tail,
    Find,
    Sort,
    Uniq,
    Cut,
    Tr,
    Sed,
    Basename,
    Tee,
    Xargs,
    Diff,
    Man,
}

/// A command as the registry holds it: its name, what runs it, and its
/// metadata.
#[derive(Clone, Copy, Debug)]
pub struct Registered {
    pub name: &'static str,
    pub builtin: Builtin,
    pub meta: CommandMeta,
}

/// The names of the built-in commands, in registry order.
pub open spec fn command_names() -> Seq<Seq<char>> {
    seq![
        "ls"@,
        "cd"@,
        "pwd"@,
        "cat"@,
        "touch"@,
        "mkdir"@,
        "echo"@,
        "grep"@,
        "wc"@,
        "rm"@,
        "cp"@,
        "mv"@,
        "head"@,
        "tail"@,
        "find"@,
        "sort"@,
        "uniq"@,
        "cut"@,
        "tr"@,
        "sed"@,
        "basename"@,
        "tee"@,
        "xargs"@,
        "diff"@,
        "man"@
    ]
}

pub open spec fn command_builtins() -> Seq<Builtin> {
    seq![
        Builtin::Ls,
        Builtin::Cd,
        Builtin::Pwd,
        Builtin::Cat,
        Builtin::Touch,
        Builtin::Mkdir,
        Builtin::Echo,
        Builtin::Grep,
        Builtin::Wc,
        Builtin::Rm,
        Builtin::Cp,
        Builtin::Mv,
        Builtin::Head,
        Builtin::Tail,
        Builtin::Find,
        Builtin::Sort,
        Builtin::Uniq,
        Builtin::Cut,
        Builtin::Tr,
        Builtin::Sed,
        Builtin::Basename,
        Builtin::Tee,
        Builtin::Xargs,
        Builtin::Diff,
        Builtin::Man
    ]
}

/// The metadata of the built-in commands, in registry order.
pub open spec fn command_infos() -> Seq<MetaInfo> {
    seq![
        info_ls(),
        info_cd(),
        info_pwd(),
        info_cat(),
        info_touch(),
        info_mkdir(),
        info_echo(),
        info_grep(),
        info_wc(),
        info_rm(),
        info_cp(),
        info_mv(),
        info_head(),
        info_tail(),
        info_find(),
        info_sort(),
        info_uniq(),
        info_cut(),
        info_tr(),
        info_sed(),
        info_basename(),
        info_tee(),
        info_xargs(),
        info_diff(),
        info_man()
    ]
}

/// Whether a registry is the one `get_commands` builds.
pub open spec fn is_registry(reg: Seq<Registered>) -> bool {
    &&& reg.len() == command_names().len()
    &&& forall|i: int|
        0 <= i < reg.len() ==> (#[trigger] reg[i]).name@ == command_names()[i] && reg[i].builtin
            == command_builtins()[i]
    &&& metas_pinned(reg)
}

/// Every command of a registry carries its own metadata.
#[verifier::opaque]
pub open spec fn metas_pinned(reg: Seq<Registered>) -> bool {
    &&& reg.len() == command_infos().len()
    &&& forall|i: int| 0 <= i < reg.len() ==> meta_info(#[trigger] reg[i].meta) == command_infos()[i]
}

/// The command registry: every built-in with its name and metadata.
pub fn get_commands() -> (r: Vec<Registered>)
    ensures
        is_registry(r@),
{
    let mut r: Vec<Registered> = Vec::new();
    r.push(Registered { name: "ls", builtin: Builtin::Ls, meta: meta_ls() });
    r.push(Registered { name: "cd", builtin: Builtin::Cd, meta: meta_cd() });
    r.push(Registered { name: "pwd", builtin: Builtin::Pwd, meta: meta_pwd() });
    r.push(Registered { name: "cat", builtin: Builtin::Cat, meta: meta_cat() });
    r.push(Registered { name: "touch", builtin: Builtin::Touch, meta: meta_touch() });
    r.push(Registered { name: "mkdir", builtin: Builtin::Mkdir, meta: meta_mkdir() });
    r.push(Registered { name: "echo", builtin: Builtin::Echo, meta: meta_echo() });
    r.push(Registered { name: "grep", builtin: Builtin::Grep, meta: meta_grep() });
    r.push(Registered { name: "wc", builtin: Builtin::Wc, meta: meta_wc() });
    r.push(Registered { name: "rm", builtin: Builtin::Rm, meta: meta_rm() });
    r.push(Registered { name: "cp", builtin: Builtin::Cp, meta: meta_cp() });
    r.push(Registered { name: "mv", builtin: Builtin::Mv, meta: meta_mv() });
    r.push(Registered { name: "head", builtin: Builtin::Head, meta: meta_head() });
    r.push(Registered { name: "tail", builtin: Builtin::Tail, meta: meta_tail() });
    r.push(Registered { name: "find", builtin: Builtin::Find, meta: meta_find() });
    r.push(Registered { name: "sort", builtin: Builtin::Sort, meta: meta_sort() });
    r.push(Registered { name: "uniq", builtin: Builtin::Uniq, meta: meta_uniq() });
    r.push(Registered { name: "cut", builtin: Builtin::Cut, meta: meta_cut() });
    r.push(Registered { name: "tr", builtin: Builtin::Tr, meta: meta_tr() });
    r.push(Registered { name: "sed", builtin: Builtin::Sed, meta: meta_sed() });
    r.push(Registered { name: "basename", builtin: Builtin::Basename, meta: meta_basename() });
    r.push(Registered { name: "tee", builtin: Builtin::Tee, meta: meta_tee() });
    r.push(Registered { name: "xargs", builtin: Builtin::Xargs, meta: meta_xargs() });
    r.push(Registered { name: "diff", builtin: Builtin::Diff, meta: meta_diff() });
    r.push(Registered { name: "man", builtin: Builtin::Man, meta: meta_man() });
    assert(metas_pinned(r@)) by {
        reveal(metas_pinned);
    }
    assert(is_registry(r@));
    r
}

/// A flag's metadata as a value.
#[verifier::ext_equal]
pub struct FlagInfo {
    pub short: char,
    pub long: Option<Seq<char>>,
    pub takes_value: bool,
    pub value_hint: Seq<char>,
    pub description: Seq<char>,
}

/// A positional argument's metadata as a value.
#[verifier::ext_equal]
pub struct PositionalInfo {
    pub name: Seq<char>,
    pub required: bool,
    pub variadic: bool,
    pub description: Seq<char>,
}

/// A command's metadata as a value.
#[verifier::ext_equal]
pub struct MetaInfo {
    pub name: Seq<char>,
    pub synopsis: Seq<char>,
    pub description: Seq<char>,
    pub details: Seq<char>,
    pub flags: Seq<FlagInfo>,
    pub positional: Seq<PositionalInfo>,
    pub stdin: StdinBehavior,
}

/// A command's metadata, every text taken as characters.
pub open spec fn meta_info(m: CommandMeta) -> MetaInfo {
    MetaInfo {
        name: m.name@,
        synopsis: m.synopsis@,
        description: m.description@,
        details: m.details@,
        flags: Seq::new(
            m.flags@.len(),
            |i: int|
                FlagInfo {
                    short: m.flags@[i].short,
                    long: match m.flags@[i].long {
                        Some(l) => Some(l@),
                        None => None,
                    },
                    takes_value: m.flags@[i].takes_value,
                    value_hint: m.flags@[i].value_hint@,
                    description: m.flags@[i].description@,
                },
        ),
        positional: Seq::new(
            m.positional@.len(),
            |i: int|
                PositionalInfo {
                    name: m.positional@[i].name@,
                    required: m.positional@[i].required,
                    variadic: m.positional@[i].variadic,
                    description: m.positional@[i].description@,
                },
        ),
        stdin: m.stdin,
    }
}

/// What `ls` is, as help and parsing read it.
pub open spec fn info_ls() -> MetaInfo {
    MetaInfo {
        name: "ls"@,
        synopsis: "ls [-la] [path...]"@,
        description: "List directory contents"@,
        details: "With no arguments, lists the current directory."@,
        flags: seq![
            FlagInfo {
                short: 'l',
                long: None,
                takes_value: false,
                value_hint: ""@,
                description: "Show long format (permissions, size, name)"@,
            },
            FlagInfo {
                short: 'a',
                long: None,
                takes_value: false,
                value_hint: ""@,
                description: "Show hidden files (starting with .)"@,
            },
        ],
        positional: seq![
            PositionalInfo {
                name: "path"@,
                required: false,
                variadic: true,
                description: "Files or directories to list"@,
            },
        ],
        stdin: StdinBehavior::Never,
    }
}

/// What `cd` is, as help and parsing read it.
pub open spec fn info_cd() -> MetaInfo {
    MetaInfo {
        name: "cd"@,
        synopsis: "cd [directory]"@,
        description: "Change working directory"@,
        details: "Defaults to $HOME if no argument given. Supports ~, .., and absolute/relative paths."@,
        flags: Seq::<FlagInfo>::empty(),
        positional: seq![
            PositionalInfo {
                name: "directory"@,
                required: false,
                variadic: false,
                description: "Target directory"@,
            },
        ],
        stdin: StdinBehavior::Never,
    }
}

/// What `pwd` is, as help and parsing read it.
pub open spec fn info_pwd() -> MetaInfo {
    MetaInfo {
        name: "pwd"@,
        synopsis: "pwd"@,
        description: "Print working directory"@,
        details: ""@,
        flags: Seq::<FlagInfo>::empty(),
        positional: Seq::<PositionalInfo>::empty(),
        stdin: StdinBehavior::Never,
    }
}

/// What `cat` is, as help and parsing read it.
pub open spec fn info_cat() -> MetaInfo {
    MetaInfo {
        name: "cat"@,
        synopsis: "cat [file...]"@,
        description: "Concatenate and print files"@,
        details: "If no files given, reads from stdin."@,
        flags: Seq::<FlagInfo>::empty(),
        positional: seq![
            PositionalInfo {
                name: "file"@,
                required: false,
                variadic: true,
                description: "Files to read"@,
            },
        ],
        stdin: StdinBehavior::Optional,
    }
}

/// What `touch` is, as help and parsing read it.
pub open spec fn info_touch() -> MetaInfo {
    MetaInfo {
        name: "touch"@,
        synopsis: "touch file..."@,
        description: "Create empty files or update timestamps"@,
        details: ""@,
        flags: Seq::<FlagInfo>::empty(),
        positional: seq![
            PositionalInfo {
                name: "file"@,
                required: true,
                variadic: true,
                description: "Files to create"@,
            },
        ],
        stdin: StdinBehavior::Never,
    }
}

/// What `mkdir` is, as help and parsing read it.
pub open spec fn info_mkdir() -> MetaInfo {
    MetaInfo {
        name: "mkdir"@,
        synopsis: "mkdir [-p] directory..."@,
        description: "Create directories"@,
        details: ""@,
        flags: seq![
            FlagInfo {
                short: 'p',
                long: None,
                takes_value: false,
                value_hint: ""@,
                description: "Create parent directories as needed"@,
            },
        ],
        positional: seq![
            PositionalInfo {
                name: "directory"@,
                required: true,
                variadic: true,
                description: "Directories to create"@,
            },
        ],
        stdin: StdinBehavior::Never,
    }
}

/// What `echo` is, as help and parsing read it.
pub open spec fn info_echo() -> MetaInfo {
    MetaInfo {
        name: "echo"@,
        synopsis: "echo [-n] [text...]"@,
        description: "Print text to stdout"@,
        details: ""@,
        flags: seq![
            FlagInfo {
                short: 'n',
                long: None,
                takes_value: false,
                value_hint: ""@,
                description: "Do not output trailing newline"@,
            },
        ],
        positional: seq![
            PositionalInfo {
                name: "text"@,
                required: false,
                variadic: true,
                description: "Text to print"@,
            },
        ],
        stdin: StdinBehavior::Never,
    }
}

/// What `grep` is, as help and parsing read it.
pub open spec fn info_grep() -> MetaInfo {
    MetaInfo {
        name: "grep"@,
        synopsis: "grep [-in] pattern [file...]"@,
        description: "Search for pattern in files or stdin"@,
        details: ""@,
        flags: seq![
            FlagInfo {
                short: 'i',
                long: None,
                takes_value: false,
                value_hint: ""@,
                description: "Case-insensitive matching"@,
            },
            FlagInfo {
                short: 'n',
                long: None,
                takes_value: false,
                value_hint: ""@,
                description: "Show line numbers"@,
            },
        ],
        positional: seq![
            PositionalInfo {
                name: "pattern"@,
                required: true,
                variadic: false,
                description: "Pattern to search for"@,
            },
            PositionalInfo {
                name: "file"@,
                required: false,
                variadic: true,
                description: "Files to search"@,
            },
        ],
        stdin: StdinBehavior::Optional,
    }
}

/// What `wc` is, as help and parsing read it.
pub open spec fn info_wc() -> MetaInfo {
    MetaInfo {
        name: "wc"@,
        synopsis: "wc [-lwc] [file...]"@,
        description: "Count lines, words, and bytes"@,
        details: "Default shows all three counts. If no files given, reads from stdin."@,
        flags: seq![
            FlagInfo {
                short: 'l',
                long: None,
                takes_value: false,
                value_hint: ""@,
                description: "Show line count"@,
            },
            FlagInfo {
                short: 'w',
                long: None,
                takes_value: false,
                value_hint: ""@,
                description: "Show word count"@,
            },
            FlagInfo {
                short: 'c',
                long: None,
                takes_value: false,
                value_hint: ""@,
                description: "Show byte count"@,
            },
        ],
        positional: seq![
            PositionalInfo {
                name: "file"@,
                required: false,
                variadic: true,
                description: "Files to count"@,
            },
        ],
        stdin: StdinBehavior::Optional,
    }
}

/// What `rm` is, as help and parsing read it.
pub open spec fn info_rm() -> MetaInfo {
    MetaInfo {
        name: "rm"@,
        synopsis: "rm [-rf] path..."@,
        description: "Remove files or directories"@,
        details: ""@,
        flags: seq![
            FlagInfo {
                short: 'r',
                long: None,
                takes_value: false,
                value_hint: ""@,
                description: "Remove directories recursively"@,
            },
            FlagInfo {
                short: 'f',
                long: None,
                takes_value: false,
                value_hint: ""@,
                description: "Force removal, ignore nonexistent files"@,
            },
        ],
        positional: seq![
            PositionalInfo {
                name: "path"@,
                required: true,
                variadic: true,
                description: "Files or directories to remove"@,
            },
        ],
        stdin: StdinBehavior::Never,
    }
}

/// What `cp` is, as help and parsing read it.
pub open spec fn info_cp() -> MetaInfo {
    MetaInfo {
        name: "cp"@,
        synopsis: "cp [-r] source dest"@,
        description: "Copy files or directories"@,
        details: ""@,
        flags: seq![
            FlagInfo {
                short: 'r',
                long: None,
                takes_value: false,
                value_hint: ""@,
                description: "Copy directories recursively"@,
            },
        ],
        positional: seq![
            PositionalInfo {
                name: "source"@,
                required: true,
                variadic: false,
                description: "Source file or directory"@,
            },
            PositionalInfo {
                name: "dest"@,
                required: true,
                variadic: false,
                description: "Destination"@,
            },
        ],
        stdin: StdinBehavior::Never,
    }
}

/// What `mv` is, as help and parsing read it.
pub open spec fn info_mv() -> MetaInfo {
    MetaInfo {
        name: "mv"@,
        synopsis: "mv source dest"@,
        description: "Move or rename files"@,
        details: ""@,
        flags: Seq::<FlagInfo>::empty(),
        positional: seq![
            PositionalInfo {
                name: "source"@,
                required: true,
                variadic: false,
                description: "Source file or directory"@,
            },
            PositionalInfo {
                name: "dest"@,
                required: true,
                variadic: false,
                description: "Destination"@,
            },
        ],
        stdin: StdinBehavior::Never,
    }
}

/// What `head` is, as help and parsing read it.
pub open spec fn info_head() -> MetaInfo {
    MetaInfo {
        name: "head"@,
        synopsis: "head [-n NUM] [file]"@,
        description: "Show first lines of a file"@,
        details: "Default is 10 lines. Supports -N shorthand (e.g. head -5)."@,
        flags: seq![
            FlagInfo {
                short: 'n',
                long: None,
                takes_value: true,
                value_hint: "NUM"@,
                description: "Number of lines to show"@,
            },
        ],
        positional: seq![
            PositionalInfo {
                name: "file"@,
                required: false,
                variadic: false,
                description: "File to read"@,
            },
        ],
        stdin: StdinBehavior::Optional,
    }
}

/// What `tail` is, as help and parsing read it.
pub open spec fn info_tail() -> MetaInfo {
    MetaInfo {
        name: "tail"@,
        synopsis: "tail [-n NUM] [file]"@,
        description: "Show last lines of a file"@,
        details: "Default is 10 lines. Supports -N shorthand (e.g. tail -5)."@,
        flags: seq![
            FlagInfo {
                short: 'n',
                long: None,
                takes_value: true,
                value_hint: "NUM"@,
                description: "Number of lines to show"@,
            },
        ],
        positional: seq![
            PositionalInfo {
                name: "file"@,
                required: false,
                variadic: false,
                description: "File to read"@,
            },
        ],
        stdin: StdinBehavior::Optional,
    }
}

/// What `find` is, as help and parsing read it.
pub open spec fn info_find() -> MetaInfo {
    MetaInfo {
        name: "find"@,
        synopsis: "find [path] [-name pattern]"@,
        description: "Find files by name pattern"@,
        details: "Supports glob patterns (*, ?, [abc])."@,
        flags: seq![
            FlagInfo {
                short: 'n',
                long: Some("name"@),
                takes_value: true,
                value_hint: "PATTERN"@,
                description: "Glob pattern to match filenames"@,
            },
        ],
        positional: seq![
            PositionalInfo {
                name: "path"@,
                required: false,
                variadic: false,
                description: "Starting directory (default: current)"@,
            },
        ],
        stdin: StdinBehavior::Never,
    }
}

/// What `sort` is, as help and parsing read it.
pub open spec fn info_sort() -> MetaInfo {
    MetaInfo {
        name: "sort"@,
        synopsis: "sort [-rnu] [file]"@,
        description: "Sort lines of text"@,
        details: "If no file given, reads from stdin."@,
        flags: seq![
            FlagInfo {
                short: 'r',
                long: None,
                takes_value: false,
                value_hint: ""@,
                description: "Reverse sort order"@,
            },
            FlagInfo {
                short: 'n',
                long: None,
                takes_value: false,
                value_hint: ""@,
                description: "Numeric sort"@,
            },
            FlagInfo {
                short: 'u',
                long: None,
                takes_value: false,
                value_hint: ""@,
                description: "Remove duplicate lines"@,
            },
        ],
        positional: seq![
            PositionalInfo {
                name: "file"@,
                required: false,
                variadic: false,
                description: "File to sort"@,
            },
        ],
        stdin: StdinBehavior::Optional,
    }
}

/// What `uniq` is, as help and parsing read it.
pub open spec fn info_uniq() -> MetaInfo {
    MetaInfo {
        name: "uniq"@,
        synopsis: "uniq [-cdu] [file]"@,
        description: "Remove duplicate adjacent lines"@,
        details: "If no file given, reads from stdin."@,
        flags: seq![
            FlagInfo {
                short: 'c',
                long: None,
                takes_value: false,
                value_hint: ""@,
                description: "Show count of each line"@,
            },
            FlagInfo {
                short: 'd',
                long: None,
                takes_value: false,
                value_hint: ""@,
                description: "Show only duplicate lines"@,
            },
            FlagInfo {
                short: 'u',
                long: None,
                takes_value: false,
                value_hint: ""@,
                description: "Show only unique lines"@,
            },
        ],
        positional: seq![
            PositionalInfo {
                name: "file"@,
                required: false,
                variadic: false,
                description: "File to process"@,
            },
        ],
        stdin: StdinBehavior::Optional,
    }
}

/// What `cut` is, as help and parsing read it.
pub open spec fn info_cut() -> MetaInfo {
    MetaInfo {
        name: "cut"@,
        synopsis: "cut [-d DELIM] [-f FIELDS] [file]"@,
        description: "Extract fields from lines"@,
        details: "FIELDS is a comma-separated list of field numbers (1-based).\nDefault delimiter is tab."@,
        flags: seq![
            FlagInfo {
                short: 'd',
                long: None,
                takes_value: true,
                value_hint: "DELIM"@,
                description: "Field delimiter (default: tab)"@,
            },
            FlagInfo {
                short: 'f',
                long: None,
                takes_value: true,
                value_hint: "FIELDS"@,
                description: "Fields to extract (e.g. 1,3,5)"@,
            },
        ],
        positional: seq![
            PositionalInfo {
                name: "file"@,
                required: false,
                variadic: false,
                description: "File to process"@,
            },
        ],
        stdin: StdinBehavior::Optional,
    }
}

/// What `tr` is, as help and parsing read it.
pub open spec fn info_tr() -> MetaInfo {
    MetaInfo {
        name: "tr"@,
        synopsis: "tr [-cds] set1 [set2]"@,
        description: "Translate or delete characters"@,
        details: "set1 and set2 can use ranges (a-z) and POSIX classes ([:upper:]).\nWith -d, only set1 is needed. With set2, translates characters."@,
        flags: seq![
            FlagInfo {
                short: 'c',
                long: None,
                takes_value: false,
                value_hint: ""@,
                description: "Complement set1 (use characters NOT in set1)"@,
            },
            FlagInfo {
                short: 'd',
                long: None,
                takes_value: false,
                value_hint: ""@,
                description: "Delete characters in set1"@,
            },
            FlagInfo {
                short: 's',
                long: None,
                takes_value: false,
                value_hint: ""@,
                description: "Squeeze repeated characters"@,
            },
        ],
        positional: seq![
            PositionalInfo {
                name: "set1"@,
                required: true,
                variadic: false,
                description: "Input character set"@,
            },
            PositionalInfo {
                name: "set2"@,
                required: false,
                variadic: false,
                description: "Output character set (for translation)"@,
            },
        ],
        stdin: StdinBehavior::Required,
    }
}

/// What `sed` is, as help and parsing read it.
pub open spec fn info_sed() -> MetaInfo {
    MetaInfo {
        name: "sed"@,
        synopsis: "sed [-n] [-e CMD] [file]"@,
        description: "Stream editor for text transformation"@,
        details: "Supports s/pattern/replacement/[gi], d (delete), p (print) commands.\nAddresses: /pattern/, N (line number), $ (last), N,M (range).\nMultiple commands via -e or semicolons."@,
        flags: seq![
            FlagInfo {
                short: 'n',
                long: None,
                takes_value: false,
                value_hint: ""@,
                description: "Suppress automatic printing"@,
            },
            FlagInfo {
                short: 'e',
                long: None,
                takes_value: true,
                value_hint: "CMD"@,
                description: "Add command (multiple allowed)"@,
            },
            FlagInfo {
                short: 'i',
                long: None,
                takes_value: false,
                value_hint: ""@,
                description: "In-place editing (ignored)"@,
            },
        ],
        positional: seq![
            PositionalInfo {
                name: "file"@,
                required: false,
                variadic: false,
                description: "File to process"@,
            },
        ],
        stdin: StdinBehavior::Optional,
    }
}

/// What `basename` is, as help and parsing read it.
pub open spec fn info_basename() -> MetaInfo {
    MetaInfo {
        name: "basename"@,
        synopsis: "basename path [suffix]"@,
        description: "Strip directory from path"@,
        details: ""@,
        flags: Seq::<FlagInfo>::empty(),
        positional: seq![
            PositionalInfo {
                name: "path"@,
                required: true,
                variadic: false,
                description: "Path to strip"@,
            },
            PositionalInfo {
                name: "suffix"@,
                required: false,
                variadic: false,
                description: "Suffix to remove"@,
            },
        ],
        stdin: StdinBehavior::Never,
    }
}

/// What `tee` is, as help and parsing read it.
pub open spec fn info_tee() -> MetaInfo {
    MetaInfo {
        name: "tee"@,
        synopsis: "tee [-a] [file...]"@,
        description: "Write stdin to stdout and files"@,
        details: ""@,
        flags: seq![
            FlagInfo {
                short: 'a',
                long: None,
                takes_value: false,
                value_hint: ""@,
                description: "Append to files instead of overwriting"@,
            },
        ],
        positional: seq![
            PositionalInfo {
                name: "file"@,
                required: false,
                variadic: true,
                description: "Files to write to"@,
            },
        ],
        stdin: StdinBehavior::Required,
    }
}

/// What `xargs` is, as help and parsing read it.
pub open spec fn info_xargs() -> MetaInfo {
    MetaInfo {
        name: "xargs"@,
        synopsis: "xargs [-n NUM] [command [args...]]"@,
        description: "Execute command with arguments from stdin"@,
        details: "Reads whitespace-separated tokens from stdin and passes them\nas arguments to the specified command."@,
        flags: seq![
            FlagInfo {
                short: 'n',
                long: None,
                takes_value: true,
                value_hint: "NUM"@,
                description: "Max arguments per invocation"@,
            },
            FlagInfo {
                short: '0',
                long: None,
                takes_value: false,
                value_hint: ""@,
                description: "Input is null-delimited"@,
            },
        ],
        positional: seq![
            PositionalInfo {
                name: "command"@,
                required: false,
                variadic: false,
                description: "Command to execute (default: echo)"@,
            },
            PositionalInfo {
                name: "args"@,
                required: false,
                variadic: true,
                description: "Arguments for command"@,
            },
        ],
        stdin: StdinBehavior::Required,
    }
}

/// What `diff` is, as help and parsing read it.
pub open spec fn info_diff() -> MetaInfo {
    MetaInfo {
        name: "diff"@,
        synopsis: "diff file1 file2"@,
        description: "Compare files line by line"@,
        details: ""@,
        flags: Seq::<FlagInfo>::empty(),
        positional: seq![
            PositionalInfo {
                name: "file1"@,
                required: true,
                variadic: false,
                description: "First file"@,
            },
            PositionalInfo {
                name: "file2"@,
                required: true,
                variadic: false,
                description: "Second file"@,
            },
        ],
        stdin: StdinBehavior::Never,
    }
}

/// What `man` is, as help and parsing read it.
pub open spec fn info_man() -> MetaInfo {
    MetaInfo {
        name: "man"@,
        synopsis: "man [command]"@,
        description: "Show help for a command"@,
        details: "Without arguments, lists all available commands."@,
        flags: Seq::<FlagInfo>::empty(),
        positional: seq![
            PositionalInfo {
                name: "command"@,
                required: false,
                variadic: false,
                description: "Command to show help for"@,
            },
        ],
        stdin: StdinBehavior::Never,
    }
}

/// The metadata of `ls`.
pub fn meta_ls() -> (r: CommandMeta)
    ensures
        meta_info(r) =~~= info_ls(),
{
    CommandMeta {
        name: "ls",
        synopsis: "ls [-la] [path...]",
        description: "List directory contents",
        details: "With no arguments, lists the current directory.",
        flags: &[
            FlagMeta {
                short: 'l',
                long: None,
                takes_value: false,
                value_hint: "",
                description: "Show long format (permissions, size, name)",
            },
            FlagMeta {
                short: 'a',
                long: None,
                takes_value: false,
                value_hint: "",
                description: "Show hidden files (starting with .)",
            },
        ],
        positional: &[PositionalMeta {
            name: "path",
            required: false,
            variadic: true,
            description: "Files or directories to list",
        }],
        stdin: StdinBehavior::Never,
    }
}

/// The metadata of `cd`.
pub fn meta_cd() -> (r: CommandMeta)
    ensures
        meta_info(r) =~~= info_cd(),
{
    CommandMeta {
        name: "cd",
        synopsis: "cd [directory]",
        description: "Change working directory",
        details: "Defaults to $HOME if no argument given. Supports ~, .., and absolute/relative paths.",
        flags: &[],
        positional: &[PositionalMeta {
            name: "directory",
            required: false,
            variadic: false,
            description: "Target directory",
        }],
        stdin: StdinBehavior::Never,
    }
}

/// The metadata of `pwd`.
pub fn meta_pwd() -> (r: CommandMeta)
    ensures
        meta_info(r) =~~= info_pwd(),
{
    CommandMeta {
        name: "pwd",
        synopsis: "pwd",
        description: "Print working directory",
        details: "",
        flags: &[],
        positional: &[],
        stdin: StdinBehavior::Never,
    }
}

/// The metadata of `cat`.
pub fn meta_cat() -> (r: CommandMeta)
    ensures
        meta_info(r) =~~= info_cat(),
{
    CommandMeta {
        name: "cat",
        synopsis: "cat [file...]",
        description: "Concatenate and print files",
        details: "If no files given, reads from stdin.",
        flags: &[],
        positional: &[PositionalMeta {
            name: "file",
            required: false,
            variadic: true,
            description: "Files to read",
        }],
        stdin: StdinBehavior::Optional,
    }
}

/// The metadata of `touch`.
pub fn meta_touch() -> (r: CommandMeta)
    ensures
        meta_info(r) =~~= info_touch(),
{
    CommandMeta {
        name: "touch",
        synopsis: "touch file...",
        description: "Create empty files or update timestamps",
        details: "",
        flags: &[],
        positional: &[PositionalMeta {
            name: "file",
            required: true,
            variadic: true,
            description: "Files to create",
        }],
        stdin: StdinBehavior::Never,
    }
}

/// The metadata of `mkdir`.
pub fn meta_mkdir() -> (r: CommandMeta)
    ensures
        meta_info(r) =~~= info_mkdir(),
{
    CommandMeta {
        name: "mkdir",
        synopsis: "mkdir [-p] directory...",
        description: "Create directories",
        details: "",
        flags: &[FlagMeta {
            short: 'p',
            long: None,
            takes_value: false,
            value_hint: "",
            description: "Create parent directories as needed",
        }],
        positional: &[PositionalMeta {
            name: "directory",
            required: true,
            variadic: true,
            description: "Directories to create",
        }],
        stdin: StdinBehavior::Never,
    }
}

/// The metadata of `echo`.
pub fn meta_echo() -> (r: CommandMeta)
    ensures
        meta_info(r) =~~= info_echo(),
{
    CommandMeta {
        name: "echo",
        synopsis: "echo [-n] [text...]",
        description: "Print text to stdout",
        details: "",
        flags: &[FlagMeta {
            short: 'n',
            long: None,
            takes_value: false,
            value_hint: "",
            description: "Do not output trailing newline",
        }],
        positional: &[PositionalMeta {
            name: "text",
            required: false,
            variadic: true,
            description: "Text to print",
        }],
        stdin: StdinBehavior::Never,
    }
}

/// The metadata of `grep`.
pub fn meta_grep() -> (r: CommandMeta)
    ensures
        meta_info(r) =~~= info_grep(),
{
    CommandMeta {
        name: "grep",
        synopsis: "grep [-in] pattern [file...]",
        description: "Search for pattern in files or stdin",
        details: "",
        flags: &[
            FlagMeta {
                short: 'i',
                long: None,
                takes_value: false,
                value_hint: "",
                description: "Case-insensitive matching",
            },
            FlagMeta {
                short: 'n',
                long: None,
                takes_value: false,
                value_hint: "",
                description: "Show line numbers",
            },
        ],
        positional: &[
            PositionalMeta {
                name: "pattern",
                required: true,
                variadic: false,
                description: "Pattern to search for",
            },
            PositionalMeta {
                name: "file",
                required: false,
                variadic: true,
                description: "Files to search",
            },
        ],
        stdin: StdinBehavior::Optional,
    }
}

/// The metadata of `wc`.
pub fn meta_wc() -> (r: CommandMeta)
    ensures
        meta_info(r) =~~= info_wc(),
{
    CommandMeta {
        name: "wc",
        synopsis: "wc [-lwc] [file...]",
        description: "Count lines, words, and bytes",
        details: "Default shows all three counts. If no files given, reads from stdin.",
        flags: &[
            FlagMeta {
                short: 'l',
                long: None,
                takes_value: false,
                value_hint: "",
                description: "Show line count",
            },
            FlagMeta {
                short: 'w',
                long: None,
                takes_value: false,
                value_hint: "",
                description: "Show word count",
            },
            FlagMeta {
                short: 'c',
                long: None,
                takes_value: false,
                value_hint: "",
                description: "Show byte count",
            },
        ],
        positional: &[PositionalMeta {
            name: "file",
            required: false,
            variadic: true,
            description: "Files to count",
        }],
        stdin: StdinBehavior::Optional,
    }
}

/// The metadata of `rm`.
pub fn meta_rm() -> (r: CommandMeta)
    ensures
        meta_info(r) =~~= info_rm(),
{
    CommandMeta {
        name: "rm",
        synopsis: "rm [-rf] path...",
        description: "Remove files or directories",
        details: "",
        flags: &[
            FlagMeta {
                short: 'r',
                long: None,
                takes_value: false,
                value_hint: "",
                description: "Remove directories recursively",
            },
            FlagMeta {
                short: 'f',
                long: None,
                takes_value: false,
                value_hint: "",
                description: "Force removal, ignore nonexistent files",
            },
        ],
        positional: &[PositionalMeta {
            name: "path",
            required: true,
            variadic: true,
            description: "Files or directories to remove",
        }],
        stdin: StdinBehavior::Never,
    }
}

/// The metadata of `cp`.
pub fn meta_cp() -> (r: CommandMeta)
    ensures
        meta_info(r) =~~= info_cp(),
{
    CommandMeta {
        name: "cp",
        synopsis: "cp [-r] source dest",
        description: "Copy files or directories",
        details: "",
        flags: &[FlagMeta {
            short: 'r',
            long: None,
            takes_value: false,
            value_hint: "",
            description: "Copy directories recursively",
        }],
        positional: &[
            PositionalMeta {
                name: "source",
                required: true,
                variadic: false,
                description: "Source file or directory",
            },
            PositionalMeta {
                name: "dest",
                required: true,
                variadic: false,
                description: "Destination",
            },
        ],
        stdin: StdinBehavior::Never,
    }
}

/// The metadata of `mv`.
pub fn meta_mv() -> (r: CommandMeta)
    ensures
        meta_info(r) =~~= info_mv(),
{
    CommandMeta {
        name: "mv",
        synopsis: "mv source dest",
        description: "Move or rename files",
        details: "",
        flags: &[],
        positional: &[
            PositionalMeta {
                name: "source",
                required: true,
                variadic: false,
                description: "Source file or directory",
            },
            PositionalMeta {
                name: "dest",
                required: true,
                variadic: false,
                description: "Destination",
            },
        ],
        stdin: StdinBehavior::Never,
    }
}

/// The metadata of `head`.
pub fn meta_head() -> (r: CommandMeta)
    ensures
        meta_info(r) =~~= info_head(),
{
    CommandMeta {
        name: "head",
        synopsis: "head [-n NUM] [file]",
        description: "Show first lines of a file",
        details: "Default is 10 lines. Supports -N shorthand (e.g. head -5).",
        flags: &[FlagMeta {
            short: 'n',
            long: None,
            takes_value: true,
            value_hint: "NUM",
            description: "Number of lines to show",
        }],
        positional: &[PositionalMeta {
            name: "file",
            required: false,
            variadic: false,
            description: "File to read",
        }],
        stdin: StdinBehavior::Optional,
    }
}

/// The metadata of `tail`.
pub fn meta_tail() -> (r: CommandMeta)
    ensures
        meta_info(r) =~~= info_tail(),
{
    CommandMeta {
        name: "tail",
        synopsis: "tail [-n NUM] [file]",
        description: "Show last lines of a file",
        details: "Default is 10 lines. Supports -N shorthand (e.g. tail -5).",
        flags: &[FlagMeta {
            short: 'n',
            long: None,
            takes_value: true,
            value_hint: "NUM",
            description: "Number of lines to show",
        }],
        positional: &[PositionalMeta {
            name: "file",
            required: false,
            variadic: false,
            description: "File to read",
        }],
        stdin: StdinBehavior::Optional,
    }
}

/// The metadata of `find`.
pub fn meta_find() -> (r: CommandMeta)
    ensures
        meta_info(r) =~~= info_find(),
{
    CommandMeta {
        name: "find",
        synopsis: "find [path] [-name pattern]",
        description: "Find files by name pattern",
        details: "Supports glob patterns (*, ?, [abc]).",
        flags: &[FlagMeta {
            short: 'n',
            long: Some("name"),
            takes_value: true,
            value_hint: "PATTERN",
            description: "Glob pattern to match filenames",
        }],
        positional: &[PositionalMeta {
            name: "path",
            required: false,
            variadic: false,
            description: "Starting directory (default: current)",
        }],
        stdin: StdinBehavior::Never,
    }
}

/// The metadata of `sort`.
pub fn meta_sort() -> (r: CommandMeta)
    ensures
        meta_info(r) =~~= info_sort(),
{
    CommandMeta {
        name: "sort",
        synopsis: "sort [-rnu] [file]",
        description: "Sort lines of text",
        details: "If no file given, reads from stdin.",
        flags: &[
            FlagMeta {
                short: 'r',
                long: None,
                takes_value: false,
                value_hint: "",
                description: "Reverse sort order",
            },
            FlagMeta {
                short: 'n',
                long: None,
                takes_value: false,
                value_hint: "",
                description: "Numeric sort",
            },
            FlagMeta {
                short: 'u',
                long: None,
                takes_value: false,
                value_hint: "",
                description: "Remove duplicate lines",
            },
        ],
        positional: &[PositionalMeta {
            name: "file",
            required: false,
            variadic: false,
            description: "File to sort",
        }],
        stdin: StdinBehavior::Optional,
    }
}

/// The metadata of `uniq`.
pub fn meta_uniq() -> (r: CommandMeta)
    ensures
        meta_info(r) =~~= info_uniq(),
{
    CommandMeta {
        name: "uniq",
        synopsis: "uniq [-cdu] [file]",
        description: "Remove duplicate adjacent lines",
        details: "If no file given, reads from stdin.",
        flags: &[
            FlagMeta {
                short: 'c',
                long: None,
                takes_value: false,
                value_hint: "",
                description: "Show count of each line",
            },
            FlagMeta {
                short: 'd',
                long: None,
                takes_value: false,
                value_hint: "",
                description: "Show only duplicate lines",
            },
            FlagMeta {
                short: 'u',
                long: None,
                takes_value: false,
                value_hint: "",
                description: "Show only unique lines",
            },
        ],
        positional: &[PositionalMeta {
            name: "file",
            required: false,
            variadic: false,
            description: "File to process",
        }],
        stdin: StdinBehavior::Optional,
    }
}

/// The metadata of `cut`.
pub fn meta_cut() -> (r: CommandMeta)
    ensures
        meta_info(r) =~~= info_cut(),
{
    CommandMeta {
        name: "cut",
        synopsis: "cut [-d DELIM] [-f FIELDS] [file]",
        description: "Extract fields from lines",
        details:
            "FIELDS is a comma-separated list of field numbers (1-based).\nDefault delimiter is tab.",
        flags: &[
            FlagMeta {
                short: 'd',
                long: None,
                takes_value: true,
                value_hint: "DELIM",
                description: "Field delimiter (default: tab)",
            },
            FlagMeta {
                short: 'f',
                long: None,
                takes_value: true,
                value_hint: "FIELDS",
                description: "Fields to extract (e.g. 1,3,5)",
            },
        ],
        positional: &[PositionalMeta {
            name: "file",
            required: false,
            variadic: false,
            description: "File to process",
        }],
        stdin: StdinBehavior::Optional,
    }
}

/// The metadata of `tr`.
pub fn meta_tr() -> (r: CommandMeta)
    ensures
        meta_info(r) =~~= info_tr(),
{
    CommandMeta {
        name: "tr",
        synopsis: "tr [-cds] set1 [set2]",
        description: "Translate or delete characters",
        details: "set1 and set2 can use ranges (a-z) and POSIX classes ([:upper:]).\nWith -d, only set1 is needed. With set2, translates characters.",
        flags: &[
            FlagMeta { short: 'c', long: None, takes_value: false, value_hint: "", description: "Complement set1 (use characters NOT in set1)" },
            FlagMeta { short: 'd', long: None, takes_value: false, value_hint: "", description: "Delete characters in set1" },
            FlagMeta { short: 's', long: None, takes_value: false, value_hint: "", description: "Squeeze repeated characters" },
        ],
        positional: &[
            PositionalMeta { name: "set1", required: true, variadic: false, description: "Input character set" },
            PositionalMeta { name: "set2", required: false, variadic: false, description: "Output character set (for translation)" },
        ],
        stdin: StdinBehavior::Required,
    }
}

/// The metadata of `sed`.
pub fn meta_sed() -> (r: CommandMeta)
    ensures
        meta_info(r) =~~= info_sed(),
{
    CommandMeta {
        name: "sed",
        synopsis: "sed [-n] [-e CMD] [file]",
        description: "Stream editor for text transformation",
        details: "Supports s/pattern/replacement/[gi], d (delete), p (print) commands.\nAddresses: /pattern/, N (line number), $ (last), N,M (range).\nMultiple commands via -e or semicolons.",
        flags: &[
            FlagMeta { short: 'n', long: None, takes_value: false, value_hint: "", description: "Suppress automatic printing" },
            FlagMeta { short: 'e', long: None, takes_value: true, value_hint: "CMD", description: "Add command (multiple allowed)" },
            FlagMeta { short: 'i', long: None, takes_value: false, value_hint: "", description: "In-place editing (ignored)" },
        ],
        positional: &[PositionalMeta { name: "file", required: false, variadic: false, description: "File to process" }],
        stdin: StdinBehavior::Optional,
    }
}

/// The metadata of `basename`.
pub fn meta_basename() -> (r: CommandMeta)
    ensures
        meta_info(r) =~~= info_basename(),
{
    CommandMeta {
        name: "basename",
        synopsis: "basename path [suffix]",
        description: "Strip directory from path",
        details: "",
        flags: &[],
        positional: &[
            PositionalMeta {
                name: "path",
                required: true,
                variadic: false,
                description: "Path to strip",
            },
            PositionalMeta {
                name: "suffix",
                required: false,
                variadic: false,
                description: "Suffix to remove",
            },
        ],
        stdin: StdinBehavior::Never,
    }
}

/// The metadata of `tee`.
pub fn meta_tee() -> (r: CommandMeta)
    ensures
        meta_info(r) =~~= info_tee(),
{
    CommandMeta {
        name: "tee",
        synopsis: "tee [-a] [file...]",
        description: "Write stdin to stdout and files",
        details: "",
        flags: &[FlagMeta {
            short: 'a',
            long: None,
            takes_value: false,
            value_hint: "",
            description: "Append to files instead of overwriting",
        }],
        positional: &[PositionalMeta {
            name: "file",
            required: false,
            variadic: true,
            description: "Files to write to",
        }],
        stdin: StdinBehavior::Required,
    }
}

/// The metadata of `xargs`.
pub fn meta_xargs() -> (r: CommandMeta)
    ensures
        meta_info(r) =~~= info_xargs(),
{
    CommandMeta {
        name: "xargs",
        synopsis: "xargs [-n NUM] [command [args...]]",
        description: "Execute command with arguments from stdin",
        details: "Reads whitespace-separated tokens from stdin and passes them\nas arguments to the specified command.",
        flags: &[
            FlagMeta { short: 'n', long: None, takes_value: true, value_hint: "NUM", description: "Max arguments per invocation" },
            FlagMeta { short: '0', long: None, takes_value: false, value_hint: "", description: "Input is null-delimited" },
        ],
        positional: &[
            PositionalMeta { name: "command", required: false, variadic: false, description: "Command to execute (default: echo)" },
            PositionalMeta { name: "args", required: false, variadic: true, description: "Arguments for command" },
        ],
        stdin: StdinBehavior::Required,
    }
}

/// The metadata of `diff`.
pub fn meta_diff() -> (r: CommandMeta)
    ensures
        meta_info(r) =~~= info_diff(),
{
    CommandMeta {
        name: "diff",
        synopsis: "diff file1 file2",
        description: "Compare files line by line",
        details: "",
        flags: &[],
        positional: &[
            PositionalMeta {
                name: "file1",
                required: true,
                variadic: false,
                description: "First file",
            },
            PositionalMeta {
                name: "file2",
                required: true,
                variadic: false,
                description: "Second file",
            },
        ],
        stdin: StdinBehavior::Never,
    }
}

/// The metadata of `man`.
pub fn meta_man() -> (r: CommandMeta)
    ensures
        meta_info(r) =~~= info_man(),
{
    CommandMeta {
        name: "man",
        synopsis: "man [command]",
        description: "Show help for a command",
        details: "Without arguments, lists all available commands.",
        flags: &[],
        positional: &[PositionalMeta {
            name: "command",
            required: false,
            variadic: false,
            description: "Command to show help for",
        }],
        stdin: StdinBehavior::Never,
    }
}

} // verus!
