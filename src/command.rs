use vstd::prelude::*;
use crate::error::Error;
use crate::text::{opt_view, occurs_at, clone_opt, clone_strings, replace, split_whitespace, str_eq, replace_all, tokens};
use crate::vars::{put, put_all, VarMap};

verus! {

/// `${key}`, the token that a variable's value replaces.
pub open spec fn var_token(key: Seq<char>) -> Seq<char> {
    seq!['$', '{'] + key + seq!['}']
}

/// `arg` after the substitution of each pair of `vars`, taken in order.
pub open spec fn substitute(arg: Seq<char>, vars: Seq<(Seq<char>, Seq<char>)>) -> Seq<char>
    decreases vars.len(),
{
    if vars.len() == 0 {
        arg
    } else {
        replace_all(substitute(arg, vars.drop_last()), var_token(vars.last().0), vars.last().1)
    }
}

pub open spec fn windows_shell() -> Seq<char> {
    seq!['c', 'm', 'd', '.', 'e', 'x', 'e']
}

pub open spec fn posix_shell() -> Seq<char> {
    seq!['b', 'a', 's', 'h']
}

/// The shell that runs a task: its own, else the platform's.
pub open spec fn shell_for(shell: Option<String>, windows: bool) -> Seq<char> {
    match shell {
        Some(s) => s@,
        None => if windows {
            windows_shell()
        } else {
            posix_shell()
        },
    }
}

/// The flag that makes `shell` run the text that follows it.
pub open spec fn shell_flag(shell: Seq<char>) -> Seq<char> {
    if shell == windows_shell() {
        seq!['/', 'c']
    } else {
        seq!['-', 'c']
    }
}

/// What the running process tells a task about its surroundings: its working
/// directory, if it has one; for each declaring file that exists, its
/// directory; whether the platform is Windows.
pub struct Host {
    pub current_dir: Option<String>,
    pub source_dirs: VarMap,
    pub windows: bool,
}

/// The working directory of a task: its own, else the process's, else the
/// directory of the file that declared it.
pub open spec fn cwd_for(cwd: Option<String>, host: &Host, source: Seq<char>) -> Option<Seq<char>> {
    if cwd is Some {
        opt_view(cwd)
    } else if host.current_dir is Some {
        opt_view(host.current_dir)
    } else if host.source_dirs@.contains_key(source) {
        Some(host.source_dirs@[source])
    } else {
        None
    }
}

/// The variables that a task is materialized with: its own, then the overrides.
pub open spec fn merged_vars(own: &VarMap, overrides: Option<&VarMap>) -> Seq<
    (Seq<char>, Seq<char>),
> {
    match overrides {
        Some(o) => put_all(own.pairs(), o.pairs()),
        None => own.pairs(),
    }
}

/// `r` is the task `b` materialized with `variables` on `host`.
pub open spec fn materializes(b: CommandBuilder, variables: Option<&VarMap>, host: &Host, r: Command) -> bool {
    &&& r.name@ == b.name@
    &&& r.shell@ == shell_for(b.shell, host.windows)
    &&& r.args@.len() == b.args@.len() + 1
    &&& r.args@[0]@ == shell_flag(r.shell@)
    &&& forall|i: int|
        0 <= i < b.args@.len() ==> #[trigger] r.args@[i + 1]@ == substitute(
            b.args@[i]@,
            merged_vars(&b.variables, variables),
        )
    &&& opt_view(r.cwd) == cwd_for(b.cwd, host, b.source@)
    &&& r.dependencies.deep_view() == b.dependencies.deep_view()
    &&& r.environments.wf()
    &&& r.environments.pairs() == b.environments.pairs()
}

/// The description of one task, before it is materialized.
pub struct CommandBuilder {
    pub cwd: Option<String>,
    pub args: Vec<String>,
    pub name: String,
    pub shell: Option<String>,
    pub hidden: bool,
    pub source: String,
    pub variables: VarMap,
    pub environments: VarMap,
    pub description: Option<String>,
    pub dependencies: Vec<String>,
}

/// A task ready to run: `shell`, run in `cwd` with `environments` set, is handed
/// `args`, the first of which is the shell's flag.
pub struct Command {
    pub name: String,
    pub cwd: Option<String>,
    pub args: Vec<String>,
    pub shell: String,
    pub dependencies: Vec<String>,
    pub environments: VarMap,
}

impl CommandBuilder {
    pub open spec fn wf(&self) -> bool {
        self.variables.wf() && self.environments.wf()
    }

    pub fn new() -> (r: Self)
        ensures
            r.wf(),
            r.name@ == seq!['c', 'o', 'm', 'm', 'a', 'n', 'd'],
            r.args@.len() == 0,
            r.cwd is None,
            r.shell is None,
            !r.hidden,
            r.source@.len() == 0,
            r.variables.pairs().len() == 0,
            r.environments.pairs().len() == 0,
            r.description is None,
            r.dependencies@.len() == 0,
    {
        proof {
            reveal_strlit("command");
        }
        CommandBuilder {
            cwd: None,
            args: Vec::new(),
            name: String::from_str("command"),
            shell: None,
            hidden: false,
            source: String::new(),
            variables: VarMap::new(),
            environments: VarMap::new(),
            description: None,
            dependencies: Vec::new(),
        }
    }

    pub fn with_name(&mut self, name: String) -> (r: &mut Self)
        ensures
            *r == (CommandBuilder { name, ..*old(self) }),
            *final(self) == *final(r),
    {
        self.name = name;
        self
    }

    /// Sets the arguments to the whitespace-separated tokens of `command`:
    /// the program, then its arguments.
    pub fn with_command(&mut self, command: &str) -> (r: &mut Self)
        ensures
            r.args.deep_view() == tokens(command@),
            *r == (CommandBuilder { args: r.args, ..*old(self) }),
            *final(self) == *final(r),
    {
        self.args = split_whitespace(command);
        self
    }

    pub fn with_description(&mut self, description: String) -> (r: &mut Self)
        ensures
            *r == (CommandBuilder { description: Some(description), ..*old(self) }),
            *final(self) == *final(r),
    {
        self.description = Some(description);
        self
    }

    pub fn with_cwd(&mut self, cwd: Option<String>) -> (r: &mut Self)
        ensures
            *r == (CommandBuilder { cwd, ..*old(self) }),
            *final(self) == *final(r),
    {
        self.cwd = cwd;
        self
    }

    pub fn with_source(&mut self, source: String) -> (r: &mut Self)
        ensures
            *r == (CommandBuilder { source, ..*old(self) }),
            *final(self) == *final(r),
    {
        self.source = source;
        self
    }

    pub fn with_hidden(&mut self, hidden: bool) -> (r: &mut Self)
        ensures
            *r == (CommandBuilder { hidden, ..*old(self) }),
            *final(self) == *final(r),
    {
        self.hidden = hidden;
        self
    }

    pub fn with_shell(&mut self, shell: String) -> (r: &mut Self)
        ensures
            *r == (CommandBuilder { shell: Some(shell), ..*old(self) }),
            *final(self) == *final(r),
    {
        self.shell = Some(shell);
        self
    }

    pub fn with_dependency(&mut self, dependency: String) -> (r: &mut Self)
        ensures
            r.dependencies@ == old(self).dependencies@.push(dependency),
            *r == (CommandBuilder { dependencies: r.dependencies, ..*old(self) }),
            *final(self) == *final(r),
    {
        self.dependencies.push(dependency);
        self
    }

    pub fn with_dependencies(&mut self, dependencies: Vec<String>) -> (r: &mut Self)
        ensures
            r.dependencies@ == old(self).dependencies@ + dependencies@,
            *r == (CommandBuilder { dependencies: r.dependencies, ..*old(self) }),
            *final(self) == *final(r),
    {
        let mut more = dependencies;
        self.dependencies.append(&mut more);
        self
    }

    pub fn with_arg(&mut self, arg: String) -> (r: &mut Self)
        ensures
            r.args@ == old(self).args@.push(arg),
            *r == (CommandBuilder { args: r.args, ..*old(self) }),
            *final(self) == *final(r),
    {
        self.args.push(arg);
        self
    }

    pub fn with_args(&mut self, args: Vec<String>) -> (r: &mut Self)
        ensures
            r.args@ == old(self).args@ + args@,
            *r == (CommandBuilder { args: r.args, ..*old(self) }),
            *final(self) == *final(r),
    {
        let mut more = args;
        self.args.append(&mut more);
        self
    }

    pub fn override_args(&mut self, args: Vec<String>) -> (r: &mut Self)
        ensures
            *r == (CommandBuilder { args, ..*old(self) }),
            *final(self) == *final(r),
    {
        self.args = args;
        self
    }

    /// Adds `variables`, which win over the variables already set.
    pub fn with_variables(&mut self, variables: VarMap) -> (r: &mut Self)
        requires
            old(self).variables.wf(),
            variables.wf(),
        ensures
            r.variables.wf(),
            r.variables.pairs() == put_all(old(self).variables.pairs(), variables.pairs()),
            r.variables@ == old(self).variables@.union_prefer_right(variables@),
            *r == (CommandBuilder { variables: r.variables, ..*old(self) }),
            *final(self) == *final(r),
    {
        self.variables.extend(&variables);
        self
    }

    /// Adds `environments`, which win over the entries already set.
    pub fn with_environments(&mut self, environments: VarMap) -> (r: &mut Self)
        requires
            old(self).environments.wf(),
            environments.wf(),
        ensures
            r.environments.wf(),
            r.environments.pairs() == put_all(
                old(self).environments.pairs(),
                environments.pairs(),
            ),
            r.environments@ == old(self).environments@.union_prefer_right(environments@),
            *r == (CommandBuilder { environments: r.environments, ..*old(self) }),
            *final(self) == *final(r),
    {
        self.environments.extend(&environments);
        self
    }

    /// Materializes the task. `variables` win over the task's own variables;
    /// each argument has each `${KEY}` replaced by the value of `KEY`.
    pub fn to_command(&self, variables: Option<&VarMap>, host: &Host) -> (r: Command)
        requires
            self.wf(),
            host.source_dirs.wf(),
            variables matches Some(v) ==> v.wf(),
        ensures
            materializes(*self, variables, host, r),
    {
        let mut vars = self.variables.duplicate();
        match variables {
            Some(v) => {
                vars.extend(v);
            },
            None => {},
        }
        let ghost merged = merged_vars(&self.variables, variables);
        assert(vars.pairs() == merged);

        let shell = match &self.shell {
            Some(s) => s.clone(),
            None => {
                proof {
                    reveal_strlit("cmd.exe");
                    reveal_strlit("bash");
                }
                if host.windows {
                    String::from_str("cmd.exe")
                } else {
                    String::from_str("bash")
                }
            },
        };
        proof {
            reveal_strlit("cmd.exe");
            reveal_strlit("/c");
            reveal_strlit("-c");
        }
        assert("cmd.exe"@ =~= windows_shell());
        let flag = if str_eq(shell.as_str(), "cmd.exe") {
            String::from_str("/c")
        } else {
            String::from_str("-c")
        };

        assert(flag@ =~= shell_flag(shell@));
        let mut args: Vec<String> = Vec::new();
        args.push(flag);
        let mut i: usize = 0;
        while i < self.args.len()
            invariant
                i <= self.args@.len(),
                vars.pairs() == merged,
                args@.len() == i + 1,
                args@[0]@ == shell_flag(shell@),
                forall|j: int|
                    0 <= j < i ==> #[trigger] args@[j + 1]@ == substitute(
                        self.args@[j]@,
                        merged,
                    ),
            decreases self.args@.len() - i,
        {
            let a = substitute_all(&self.args[i], &vars);
            args.push(a);
            i = i + 1;
        }

        let cwd = if self.cwd.is_some() {
            clone_opt(&self.cwd)
        } else if host.current_dir.is_some() {
            clone_opt(&host.current_dir)
        } else {
            match host.source_dirs.get(self.source.as_str()) {
                Some(d) => Some(d.clone()),
                None => None,
            }
        };

        let r = Command {
            name: self.name.clone(),
            cwd,
            args,
            shell,
            dependencies: clone_strings(&self.dependencies),
            environments: self.environments.duplicate(),
        };
        assert(opt_view(r.cwd) == cwd_for(self.cwd, host, self.source@));
        assert(r.shell@ == shell_for(self.shell, host.windows));
        assert(r.args@[0]@ == shell_flag(r.shell@));
        r
    }

    /// A copy of the task, field by field.
    pub fn duplicate(&self) -> (r: Self)
        requires
            self.wf(),
        ensures
            r.wf(),
            r.name@ == self.name@,
            r.args.deep_view() == self.args.deep_view(),
            r.cwd == self.cwd,
            r.shell == self.shell,
            r.hidden == self.hidden,
            r.source@ == self.source@,
            r.variables.pairs() == self.variables.pairs(),
            r.environments.pairs() == self.environments.pairs(),
            r.description == self.description,
            r.dependencies.deep_view() == self.dependencies.deep_view(),
    {
        CommandBuilder {
            cwd: clone_opt(&self.cwd),
            args: clone_strings(&self.args),
            name: self.name.clone(),
            shell: clone_opt(&self.shell),
            hidden: self.hidden,
            source: self.source.clone(),
            variables: self.variables.duplicate(),
            environments: self.environments.duplicate(),
            description: clone_opt(&self.description),
            dependencies: clone_strings(&self.dependencies),
        }
    }

    /// A task whose arguments are the tokens of `s`; an empty `s` is refused.
    pub fn from_str(s: &str) -> (r: Result<CommandBuilder, Error>)
        ensures
            r is Err <==> s@.len() == 0,
            r matches Err(e) ==> e is Command,
            r matches Ok(b) ==> b.wf() && b.args.deep_view() == tokens(s@),
    {
        if s.unicode_len() == 0 {
            return Err(Error::Command(String::from_str("Cannot convert an empty string to command")));
        }
        let mut command = CommandBuilder::new();
        command.with_command(s);
        Ok(command)
    }
}

/// `arg` with each variable of `vars` substituted, in the order of `vars`.
pub fn substitute_all(arg: &String, vars: &VarMap) -> (r: String)
    ensures
        r@ == substitute(arg@, vars.pairs()),
{
    let mut out = arg.clone();
    let mut k: usize = 0;
    assert(vars.pairs().subrange(0, 0) =~= Seq::<(Seq<char>, Seq<char>)>::empty());
    while k < vars.len()
        invariant
            k <= vars.pairs().len(),
            out@ == substitute(arg@, vars.pairs().subrange(0, k as int)),
        decreases vars.pairs().len() - k,
    {
        proof {
            reveal_strlit("${");
            reveal_strlit("}");
        }
        let mut token = String::from_str("${");
        token.append(vars.key_at(k).as_str());
        token.append("}");
        assert(token@ =~= var_token(vars.pairs()[k as int].0));
        out = replace(out.as_str(), token.as_str(), vars.value_at(k).as_str());
        assert(vars.pairs().subrange(0, k + 1).drop_last() =~= vars.pairs().subrange(0, k as int));
        k = k + 1;
    }
    assert(vars.pairs().subrange(0, k as int) =~= vars.pairs());
    out
}

/// `arg` holds no `${`, so no variable token.
pub open spec fn has_no_token(arg: Seq<char>) -> bool {
    forall|i: int| 0 <= i && i + 1 < arg.len() ==> !(arg[i] == '$' && #[trigger] arg[i + 1] == '{')
}

proof fn lemma_replace_absent(s: Seq<char>, pat: Seq<char>, val: Seq<char>)
    requires
        pat.len() > 0,
        forall|i: int| 0 <= i < s.len() ==> !occurs_at(s, pat, i),
    ensures
        replace_all(s, pat, val) == s,
    decreases s.len(),
{
    if s.len() > 0 {
        if pat.is_prefix_of(s) {
            assert(s.subrange(0, pat.len() as int) =~= pat);
            assert(occurs_at(s, pat, 0));
        }
        let t = s.drop_first();
        assert forall|i: int| 0 <= i < t.len() implies !occurs_at(t, pat, i) by {
            assert(!occurs_at(s, pat, i + 1));
            if occurs_at(t, pat, i) {
                assert(s.subrange(i + 1, i + 1 + pat.len()) =~= t.subrange(i, i + pat.len()));
            }
        }
        lemma_replace_absent(t, pat, val);
        assert(seq![s[0]] + t =~= s);
    }
}

/// Substitution leaves an argument without `${` unchanged, whatever the variables.
pub proof fn lemma_substitute_plain(arg: Seq<char>, vars: Seq<(Seq<char>, Seq<char>)>)
    requires
        has_no_token(arg),
    ensures
        substitute(arg, vars) == arg,
    decreases vars.len(),
{
    if vars.len() > 0 {
        lemma_substitute_plain(arg, vars.drop_last());
        let pat = var_token(vars.last().0);
        assert forall|i: int| 0 <= i < arg.len() implies !occurs_at(arg, pat, i) by {
            if occurs_at(arg, pat, i) {
                assert(arg.subrange(i, i + pat.len())[0] == pat[0]);
                assert(arg.subrange(i, i + pat.len())[1] == pat[1]);
                assert(arg[i] == '$' && arg[i + 1] == '{');
            }
        }
        lemma_replace_absent(arg, pat, vars.last().1);
    }
}

/// A task with no variables of its own, materialized with the single override
/// `key = value`, has each argument with every `${key}` replaced by `value`,
/// read left to right, and nothing else changed.
pub proof fn lemma_substitute_single(own: &VarMap, overrides: &VarMap, arg: Seq<char>, key: Seq<char>, value: Seq<char>)
    requires
        own.pairs().len() == 0,
        overrides.pairs() == seq![(key, value)],
    ensures
        substitute(arg, merged_vars(own, Some(overrides))) == replace_all(arg, var_token(key), value),
{
    let m = merged_vars(own, Some(overrides));
    assert(overrides.pairs().drop_last() =~= Seq::<(Seq<char>, Seq<char>)>::empty());
    assert(put_all(own.pairs(), overrides.pairs().drop_last()) == own.pairs());
    assert(m == put(own.pairs(), key, value));
    assert(m =~= seq![(key, value)]);
    assert(m.drop_last() =~= Seq::<(Seq<char>, Seq<char>)>::empty());
    assert(substitute(arg, m.drop_last()) == arg);
    assert(m.last() == (key, value));
}

} // verus!
