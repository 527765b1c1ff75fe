//! An in-memory bash emulator: a shell with a virtual file system,
//! environment variables, pipes, redirections and a set of built-in
//! commands, all of whose behaviour is specified and verified.
pub mod assoc;
pub mod text;
pub mod env;
pub mod parser;
pub mod argparse;
pub mod paths;
pub mod keys;
pub mod fs;
pub mod fslaws;
pub mod fstree;
pub mod overlay;
pub mod readthrough;
pub mod rtlaws;
pub mod diskplan;
pub mod commands;
pub mod textcmds;
pub mod sortcmd;
pub mod tr;
pub mod sed;
pub mod diff;
pub mod fscmds;
pub mod shell;


use crate::commands::{get_commands, is_registry, Registered};
use crate::env::{default_vars, Env};
use crate::fs::{default_limits, fresh_view, Fs, FsLimits, FsMode};
use crate::shell::{code_text_exec, execute_spec, ran_is, state_of, ShellView};
use crate::text::{chars_of, encode_text, string_of, trim};
use vstd::prelude::*;

verus! {

/// Result of executing a shell command.
pub struct ExecuteResult {
    pub stdout: String,
    pub stderr: String,
    pub exit_code: i32,
}

/// In-memory bash emulator.
pub struct Shell {
    fs: Fs,
    env: Env,
    registry: Vec<Registered>,
}

impl Shell {
    /// What every shell keeps: a well-formed file system and the registry
    /// of the built-in commands.
    pub closed spec fn wf(&self) -> bool {
        self.fs.wf() && is_registry(self.registry@)
    }

    /// The file system, the variables and the working directory.
    pub closed spec fn state(&self) -> ShellView {
        state_of(self.fs.view(), self.env.vars_view(), self.env.cwd_view())
    }

    /// The limits of the file system.
    pub closed spec fn limits(&self) -> FsLimits {
        self.fs.limits()
    }

    /// The commands the shell knows.
    pub closed spec fn registry(&self) -> Seq<Registered> {
        self.registry@
    }

    fn from_fs(fs: Fs) -> (s: Shell)
        requires
            fs.wf(),
        ensures
            s.wf(),
            s.state() == state_of(fs.view(), default_vars(), "/"@),
            s.limits() == fs.limits(),
    {
        Shell { fs, env: Env::new(), registry: get_commands() }
    }

    /// Create a new shell with an empty in-memory filesystem and default env.
    pub fn new() -> (s: Shell)
        ensures
            s.wf(),
            s.state() == state_of(fresh_view(), default_vars(), "/"@),
            s.limits() == default_limits(),
    {
        Shell::from_fs(Fs::new())
    }

    /// Create a shell with a specific filesystem mode: the memory mode is
    /// served here; a disk-backed mode gives `None`.
    pub fn with_mode(mode: FsMode) -> (r: Option<Shell>)
        ensures
            r is Some <==> mode is Memory,
            (r matches Some(s) ==> s.wf() && s.state() == state_of(fresh_view(), default_vars(), "/"@)
                && s.limits() == default_limits()),
    {
        match Fs::with_mode(mode) {
            Some(fs) => Some(Shell::from_fs(fs)),
            None => None,
        }
    }

    /// Create a shell with an in-memory filesystem and custom resource limits.
    pub fn with_limits(limits: FsLimits) -> (s: Shell)
        ensures
            s.wf(),
            s.state() == state_of(fresh_view(), default_vars(), "/"@),
            s.limits() == limits,
    {
        Shell::from_fs(Fs::with_limits(limits))
    }

    /// Execute a shell input string (may contain `;`-separated statements,
    /// pipes, redirections, and variable expansion).
    pub fn execute(&mut self, input: &str) -> (r: ExecuteResult)
        requires
            old(self).wf(),
        ensures
            final(self).wf(),
            final(self).limits() == old(self).limits(),
            final(self).registry() == old(self).registry(),
            ran_is(
                r.stdout@,
                r.stderr@,
                r.exit_code,
                final(self).state().fs,
                final(self).state().vars,
                final(self).state().cwd,
                execute_spec(old(self).registry(), old(self).state(), old(self).limits(), input@),
            ),
    {
        let raw = chars_of(input);
        let t = trim(raw.as_slice());
        if t.len() == 0 {
            return ExecuteResult { stdout: String::new(), stderr: String::new(), exit_code: 0 };
        }
        let bytes = encode_text(t.as_slice());
        if bytes.len() > 1048576 {
            return ExecuteResult {
                stdout: String::new(),
                stderr: String::from_str("syntax error: input too long\n"),
                exit_code: 2,
            };
        }
        let ts = string_of(t.as_slice());
        match crate::parser::parse(ts.as_str(), &self.env) {
            Err(e) => {
                let mut m = chars_of(e.to_string().as_str());
                crate::text::push_str(&mut m, "\n");
                ExecuteResult { stdout: String::new(), stderr: string_of(m.as_slice()), exit_code: 2 }
            },
            Ok(ps) => {
                let r = crate::shell::run_pipelines(&self.registry, &ps, &mut self.fs, &mut self.env, usize::MAX);
                let ct = code_text_exec(r.code);
                let cs = string_of(ct.as_slice());
                self.env.set("?", cs.as_str());
                ExecuteResult {
                    stdout: string_of(r.out.as_slice()),
                    stderr: string_of(r.err.as_slice()),
                    exit_code: r.code,
                }
            },
        }
    }

    /// Get a reference to the environment.
    pub fn env(&self) -> (r: &Env)
        ensures
            r.vars_view() == self.state().vars,
            r.cwd_view() == self.state().cwd,
    {
        &self.env
    }

    /// Get a mutable reference to the environment.
    pub fn env_mut(&mut self) -> (r: &mut Env)
        ensures
            r.vars_view() == old(self).state().vars,
            r.cwd_view() == old(self).state().cwd,
            final(self).state() == state_of(old(self).state().fs, final(r).vars_view(), final(r).cwd_view()),
            final(self).wf() == old(self).wf(),
            final(self).limits() == old(self).limits(),
            final(self).registry() == old(self).registry(),
    {
        &mut self.env
    }

    /// Get a reference to the filesystem.
    pub fn fs(&self) -> (r: &Fs)
        ensures
            r.view() == self.state().fs,
            r.limits() == self.limits(),
            self.wf() ==> r.wf(),
    {
        &self.fs
    }

    /// Get a mutable reference to the filesystem.
    pub fn fs_mut(&mut self) -> (r: &mut Fs)
        ensures
            r.view() == old(self).state().fs,
            r.limits() == old(self).limits(),
            old(self).wf() ==> r.wf(),
            final(self).state() == state_of(final(r).view(), old(self).state().vars, old(self).state().cwd),
            final(self).limits() == final(r).limits(),
            final(self).wf() == (final(r).wf() && is_registry(old(self).registry())),
            final(self).registry() == old(self).registry(),
    {
        &mut self.fs
    }

    /// Set an environment variable.
    pub fn set_var(&mut self, key: &str, value: &str)
        ensures
            final(self).state() == state_of(
                old(self).state().fs,
                old(self).state().vars.insert(key@, value@),
                old(self).state().cwd,
            ),
            final(self).wf() == old(self).wf(),
            final(self).limits() == old(self).limits(),
            final(self).registry() == old(self).registry(),
    {
        self.env.set(key, value);
    }

    /// Get an environment variable.
    pub fn get_var(&self, key: &str) -> (r: Option<&str>)
        ensures
            match r {
                Some(v) => self.state().vars.contains_key(key@) && v@ == self.state().vars[key@],
                None => !self.state().vars.contains_key(key@),
            },
    {
        self.env.get(key)
    }

    /// Get the current working directory.
    pub fn cwd(&self) -> (r: &str)
        ensures
            r@ == self.state().cwd,
    {
        self.env.cwd()
    }

    /// Set the current working directory.
    pub fn set_cwd(&mut self, path: &str)
        ensures
            final(self).state() == state_of(
                old(self).state().fs,
                old(self).state().vars.insert("PWD"@, path@),
                path@,
            ),
            final(self).wf() == old(self).wf(),
            final(self).limits() == old(self).limits(),
            final(self).registry() == old(self).registry(),
    {
        self.env.set_cwd(path);
    }
}

impl Default for Shell {
    fn default() -> (s: Shell)
        ensures
            s.wf(),
            s.state() == state_of(fresh_view(), default_vars(), "/"@),
            s.limits() == default_limits(),
    {
        Shell::new()
    }
}

} // verus!
