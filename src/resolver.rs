use vstd::prelude::*;
use crate::argv::{extract_vars, finish, pattern_rest, scan};
use crate::command::{materializes, merged_vars, substitute, Command, CommandBuilder, Host};
use crate::context::{CommandImported, Context};
use crate::concurrent::ConcurrentBuilder;
use crate::error::Error;
use crate::text::{contains_str, opt_view, slice_of, split_whitespace, str_eq, tokens};
use crate::vars::{put_all, VarMap};

verus! {

/// `wk:`, the mark of a task that runs another task.
pub open spec fn alias_mark() -> Seq<char> {
    seq!['w', 'k', ':']
}

/// The first token of `c` is `wk:` followed by the name of another task.
pub open spec fn is_alias(c: Seq<char>) -> bool {
    tokens(c).len() > 0 && pattern_rest(tokens(c)[0], alias_mark()) is Some
}

/// The tokens of `c`, the first without its `wk:` mark.
pub open spec fn alias_tokens(c: Seq<char>) -> Seq<Seq<char>> {
    if is_alias(c) {
        tokens(c).update(0, tokens(c)[0].skip(3))
    } else {
        tokens(c)
    }
}

/// The positional tokens and the variables of an alias command.
pub open spec fn alias_scan(c: Seq<char>) -> (Seq<Seq<char>>, Seq<(Seq<char>, Seq<char>)>) {
    finish(scan(alias_tokens(c), false))
}

/// The task that an alias command runs: its first positional token.
pub open spec fn alias_target(c: Seq<char>) -> Seq<char> {
    if alias_scan(c).0.len() > 0 {
        alias_scan(c).0[0]
    } else {
        seq![]
    }
}

/// The positional tokens of an alias command after the task it runs.
pub open spec fn alias_rest(c: Seq<char>) -> Seq<Seq<char>> {
    if alias_scan(c).0.len() > 0 {
        alias_scan(c).0.drop_first()
    } else {
        seq![]
    }
}

pub open spec fn opt_strings(o: Option<Vec<String>>) -> Seq<String> {
    match o {
        Some(v) => v@,
        None => seq![],
    }
}

pub open spec fn opt_pairs(o: Option<VarMap>) -> Seq<(Seq<char>, Seq<char>)> {
    match o {
        Some(m) => m.pairs(),
        None => seq![],
    }
}

pub open spec fn opt_wf(o: Option<VarMap>) -> bool {
    match o {
        Some(m) => m.wf(),
        None => true,
    }
}

/// A task as a configuration file describes it.
pub struct CommandDescription {
    pub cwd: Option<String>,
    pub args: Option<Vec<String>>,
    pub shell: Option<String>,
    pub hidden: Option<bool>,
    pub command: String,
    pub depends: Option<Vec<String>>,
    pub variables: Option<VarMap>,
    pub environments: Option<VarMap>,
    pub description: Option<String>,
}

/// A task that takes another task, `extend`, as its base.
pub struct ExtendedCommandDescription {
    pub cwd: Option<String>,
    pub args: Option<Vec<String>>,
    pub shell: Option<String>,
    pub hidden: Option<bool>,
    pub extend: String,
    pub depends: Option<Vec<String>>,
    pub variables: Option<VarMap>,
    pub description: Option<String>,
    pub environments: Option<VarMap>,
}

/// A group as a configuration file describes it.
pub struct ConcurrentDescription {
    pub hidden: Option<bool>,
    pub depends: Option<Vec<String>>,
    pub commands: Vec<String>,
    pub variables: Option<VarMap>,
    pub description: Option<String>,
    pub environments: Option<VarMap>,
}

/// One entry of a configuration file.
pub enum CommandFileDescription {
    StringCommand(String),
    Command(CommandDescription),
    ExtendedCommand(ExtendedCommandDescription),
    Concurrent(ConcurrentDescription),
}

/// A configuration file: the files it extends, its entries in file order, and
/// the variables and environment entries that each of its tasks starts from.
pub struct CommandsFile {
    pub extends: Option<Vec<String>>,
    pub commands: Vec<(String, CommandFileDescription)>,
    pub variables: Option<VarMap>,
    pub environments: Option<VarMap>,
}

impl CommandDescription {
    pub open spec fn wf(&self) -> bool {
        opt_wf(self.variables) && opt_wf(self.environments)
    }

    /// The description of a one-line command: its first token is the command,
    /// the others its arguments; a command that runs another task is kept whole.
    /// A line without a token is refused.
    pub fn from_str(s: &str) -> (r: Result<CommandDescription, Error>)
        ensures
            r is Err <==> tokens(s@).len() == 0,
            r matches Err(e) ==> e is Command,
            r matches Ok(d) ==> {
                &&& d.wf()
                &&& is_alias(s@) ==> d.command@ == s@ && d.args is None
                &&& !is_alias(s@) ==> d.command@ == tokens(s@)[0] && (d.args matches Some(a)
                    && a.deep_view() == tokens(s@).drop_first())
                &&& d.cwd is None && d.shell is None && d.hidden is None && d.depends is None
                &&& d.variables is None && d.environments is None && d.description is None
            },
    {
        let mut args = split_whitespace(s);
        if args.len() == 0 {
            return Err(
                Error::Command(
                    String::from_str("Cannot convert an empty string to command description"),
                ),
            );
        }
        let alias = is_alias_token(args[0].as_str());
        let (command, rest) = if alias {
            (String::from_str(s), None)
        } else {
            let ghost t = args.deep_view();
            let command = args.remove(0);
            assert(args.deep_view() =~= t.drop_first());
            (command, Some(args))
        };
        Ok(
            CommandDescription {
                command,
                args: rest,
                cwd: None,
                shell: None,
                hidden: None,
                depends: None,
                variables: None,
                environments: None,
                description: None,
            },
        )
    }
}

impl ExtendedCommandDescription {
    pub open spec fn wf(&self) -> bool {
        opt_wf(self.variables) && opt_wf(self.environments)
    }

    /// The description of an alias task: it extends the first positional token
    /// of its command, takes the other positional tokens as further arguments,
    /// and the `--var.` options of its command as variables, which win over its
    /// own.
    pub fn from_alias(value: CommandDescription) -> (r: ExtendedCommandDescription)
        requires
            value.wf(),
        ensures
            r.wf(),
            r.extend@ == alias_target(value.command@),
            r.args matches Some(a) && a.deep_view() == opt_strings(value.args).map_values(
                |x: String| x@,
            ) + alias_rest(value.command@),
            r.variables matches Some(v) && v.wf() && v.pairs() == put_all(
                opt_pairs(value.variables),
                alias_scan(value.command@).1,
            ),
            r.cwd == value.cwd,
            r.shell == value.shell,
            r.hidden == value.hidden,
            r.depends == value.depends,
            r.environments == value.environments,
            r.description == value.description,
    {
        let parts = split_command(value.command.as_str());
        let (params, vars) = extract_vars(&parts);
        let mut variables = match value.variables {
            Some(v) => v,
            None => VarMap::new(),
        };
        variables.extend(&vars);
        let mut args: Vec<String> = match value.args {
            Some(a) => a,
            None => Vec::new(),
        };
        let ghost a0 = args.deep_view();
        assert(a0 == opt_strings(value.args).map_values(|x: String| x@));
        let mut extend = String::new();
        let n = params.len();
        if n > 0 {
            extend = params[0].clone();
            let mut i: usize = 1;
            while i < n
                invariant
                    1 <= i <= n,
                    n == params@.len(),
                    args.deep_view() == a0 + params.deep_view().subrange(1, i as int),
                decreases n - i,
            {
                let ghost before = args.deep_view();
                let c = params[i].clone();
                args.push(c);
                assert(args.deep_view() =~= before.push(params@[i as int]@));
                assert(params.deep_view().subrange(1, i + 1) =~= params.deep_view().subrange(
                    1,
                    i as int,
                ).push(params@[i as int]@));
                assert(args.deep_view() =~= a0 + params.deep_view().subrange(1, i + 1));
                i = i + 1;
            }
            assert(params.deep_view().subrange(1, n as int) =~= params.deep_view().drop_first());
        } else {
            assert(a0 + Seq::<Seq<char>>::empty() =~= a0);
        }
        ExtendedCommandDescription {
            extend,
            args: Some(args),
            cwd: value.cwd,
            shell: value.shell,
            hidden: value.hidden,
            depends: value.depends,
            variables: Some(variables),
            environments: value.environments,
            description: value.description,
        }
    }
}

impl ConcurrentDescription {
    pub open spec fn wf(&self) -> bool {
        opt_wf(self.variables) && opt_wf(self.environments)
    }
}

/// Whether `t` is `wk:` followed by a task name.
fn is_alias_token(t: &str) -> (r: bool)
    ensures
        r == (pattern_rest(t@, alias_mark()) is Some),
{
    proof {
        reveal_strlit("wk:");
    }
    crate::argv::match_pattern(t, "wk:").is_some()
}

/// Whether the first token of `c` is `wk:` followed by a task name.
fn is_alias_command(c: &str) -> (r: bool)
    ensures
        r == is_alias(c@),
{
    let t = split_whitespace(c);
    t.len() > 0 && is_alias_token(t[0].as_str())
}

/// Whether `cmd` runs a shell command rather than another task.
pub fn is_shell_task(cmd: &CommandDescription) -> (r: bool)
    ensures
        r == !is_alias(cmd.command@),
{
    !is_alias_command(cmd.command.as_str())
}

/// The tokens of `cmd`, the first without its `wk:` mark.
pub fn split_command(cmd: &str) -> (r: Vec<String>)
    ensures
        r.deep_view() == alias_tokens(cmd@),
{
    let mut t = split_whitespace(cmd);
    if t.len() > 0 && is_alias_token(t[0].as_str()) {
        let ghost before = t.deep_view();
        let n = t[0].as_str().unicode_len();
        let first = slice_of(t[0].as_str(), 3, n);
        t.set(0, first);
        assert(t.deep_view() =~= before.update(0, before[0].skip(3)));
    }
    t
}

impl CommandBuilder {
    /// The task that a full description gives: the tokens of its command, then
    /// its arguments, and the fields that it sets.
    pub fn from_description(value: CommandDescription) -> (r: CommandBuilder)
        requires
            value.wf(),
        ensures
            r.wf(),
            r.args.deep_view() == tokens(value.command@) + opt_strings(value.args).map_values(
                |x: String| x@,
            ),
            r.cwd == value.cwd,
            r.shell == value.shell,
            r.hidden == (value.hidden == Some(true)),
            r.dependencies@ == opt_strings(value.depends),
            r.variables@ == pairs_to_map(opt_pairs(value.variables)),
            r.environments@ == pairs_to_map(opt_pairs(value.environments)),
            r.description == value.description,
            r.name@ == seq!['c', 'o', 'm', 'm', 'a', 'n', 'd'],
            r.source@.len() == 0,
    {
        let mut task = CommandBuilder::new();
        task.with_command(value.command.as_str());
        task.with_cwd(value.cwd);
        let ghost t0 = task.args.deep_view();
        match value.args {
            Some(args) => {
                task.with_args(args);
            },
            None => {},
        }
        assert(task.args.deep_view() =~= t0 + opt_strings(value.args).map_values(|x: String| x@));
        match value.shell {
            Some(shell) => {
                task.with_shell(shell);
            },
            None => {},
        }
        match value.hidden {
            Some(hidden) => {
                task.with_hidden(hidden);
            },
            None => {},
        }
        match value.depends {
            Some(deps) => {
                task.with_dependencies(deps);
            },
            None => {},
        }
        assert(task.dependencies@ =~= opt_strings(value.depends));
        match value.variables {
            Some(vars) => {
                task.with_variables(vars);
            },
            None => {},
        }
        match value.environments {
            Some(envs) => {
                task.with_environments(envs);
            },
            None => {},
        }
        match value.description {
            Some(description) => {
                task.with_description(description);
            },
            None => {},
        }
        proof {
            crate::vars::lemma_put_all(seq![], opt_pairs(value.variables));
            crate::vars::lemma_put_all(seq![], opt_pairs(value.environments));
            assert(pairs_to_map(seq![]) =~= Map::<Seq<char>, Seq<char>>::empty());
            assert(Map::<Seq<char>, Seq<char>>::empty().union_prefer_right(pairs_to_map(opt_pairs(value.variables))) =~= pairs_to_map(opt_pairs(value.variables)));
            assert(Map::<Seq<char>, Seq<char>>::empty().union_prefer_right(pairs_to_map(opt_pairs(value.environments))) =~= pairs_to_map(opt_pairs(value.environments)));
        }
        task
    }
}

pub open spec fn pairs_to_map(s: Seq<(Seq<char>, Seq<char>)>) -> Map<Seq<char>, Seq<char>> {
    crate::vars::pairs_map(s)
}

impl ConcurrentBuilder {
    /// The group that a description gives.
    pub fn from_description(value: ConcurrentDescription) -> (r: ConcurrentBuilder)
        requires
            value.wf(),
        ensures
            r.wf(),
            r.commands == value.commands,
            r.hidden == (value.hidden == Some(true)),
            r.dependencies@ == opt_strings(value.depends),
            r.variables@ == pairs_to_map(opt_pairs(value.variables)),
            r.environments@ == pairs_to_map(opt_pairs(value.environments)),
            r.description == value.description,
            r.name@ == seq!['t', 'a', 's', 'k'],
            r.source@.len() == 0,
    {
        let mut group = ConcurrentBuilder::new();
        group.commands = value.commands;
        match value.hidden {
            Some(hidden) => {
                group.with_hidden(hidden);
            },
            None => {},
        }
        match value.depends {
            Some(deps) => {
                group.with_dependencies(deps);
            },
            None => {},
        }
        assert(group.dependencies@ =~= opt_strings(value.depends));
        match value.description {
            Some(description) => {
                group.with_description(description);
            },
            None => {},
        }
        match value.variables {
            Some(vars) => {
                group.with_variables(vars);
            },
            None => {},
        }
        match value.environments {
            Some(envs) => {
                group.with_environments(envs);
            },
            None => {},
        }
        proof {
            crate::vars::lemma_put_all(seq![], opt_pairs(value.variables));
            crate::vars::lemma_put_all(seq![], opt_pairs(value.environments));
            assert(pairs_to_map(seq![]) =~= Map::<Seq<char>, Seq<char>>::empty());
            assert(Map::<Seq<char>, Seq<char>>::empty().union_prefer_right(pairs_to_map(opt_pairs(value.variables))) =~= pairs_to_map(opt_pairs(value.variables)));
            assert(Map::<Seq<char>, Seq<char>>::empty().union_prefer_right(pairs_to_map(opt_pairs(value.environments))) =~= pairs_to_map(opt_pairs(value.environments)));
        }
        group
    }
}

/// A task taken as the base of another, with the description laid over it.
pub struct ExtendedCommand {
    pub extend: CommandBuilder,
    pub desc: ExtendedCommandDescription,
}

impl CommandBuilder {
    /// The base with the fields that the description sets laid over it: its
    /// arguments and dependencies are appended, its variables and environment
    /// entries win, and each other field it sets replaces the base's.
    pub fn from_extended(value: ExtendedCommand) -> (r: CommandBuilder)
        requires
            value.extend.wf(),
            value.desc.wf(),
        ensures
            ({
                let base = value.extend;
                let desc = value.desc;
                &&& r.name == base.name
                &&& r.source == base.source
                &&& r.cwd == if desc.cwd is Some { desc.cwd } else { base.cwd }
                &&& r.args@ == base.args@ + opt_strings(desc.args)
                &&& r.shell == if desc.shell is Some { desc.shell } else { base.shell }
                &&& r.hidden == match desc.hidden { Some(h) => h, None => base.hidden }
                &&& r.dependencies@ == base.dependencies@ + opt_strings(desc.depends)
                &&& r.description == if desc.description is Some { desc.description } else { base.description }
                &&& extends_with(r, base, desc)
            }),
    {
        let ExtendedCommand { extend: base, desc } = value;
        let mut task = base;
        if desc.cwd.is_some() {
            task.with_cwd(desc.cwd);
        }
        match desc.args {
            Some(args) => {
                task.with_args(args);
            },
            None => {},
        }
        assert(task.args@ =~= base.args@ + opt_strings(desc.args));
        match desc.shell {
            Some(shell) => {
                task.with_shell(shell);
            },
            None => {},
        }
        match desc.hidden {
            Some(hidden) => {
                task.with_hidden(hidden);
            },
            None => {},
        }
        match desc.depends {
            Some(deps) => {
                task.with_dependencies(deps);
            },
            None => {},
        }
        assert(task.dependencies@ =~= base.dependencies@ + opt_strings(desc.depends));
        match desc.variables {
            Some(vars) => {
                task.with_variables(vars);
            },
            None => {},
        }
        match desc.environments {
            Some(envs) => {
                task.with_environments(envs);
            },
            None => {},
        }
        match desc.description {
            Some(description) => {
                task.with_description(description);
            },
            None => {},
        }
        assert(task.args.deep_view() =~= base.args.deep_view() + opt_strings(desc.args).map_values(|x: String| x@));
        assert(task.dependencies.deep_view() =~= base.dependencies.deep_view() + opt_strings(desc.depends).map_values(|x: String| x@));
        task
    }
}

/// What an entry of a configuration file becomes in the first pass.
pub enum EntryClass {
    Invalid,
    Task,
    Group,
    Extend(Seq<char>),
}

pub open spec fn class_of(e: CommandFileDescription) -> EntryClass {
    match e {
        CommandFileDescription::StringCommand(s) => if tokens(s@).len() == 0 {
            EntryClass::Invalid
        } else if is_alias(s@) {
            EntryClass::Extend(alias_target(s@))
        } else {
            EntryClass::Task
        },
        CommandFileDescription::Command(d) => if is_alias(d.command@) {
            EntryClass::Extend(alias_target(d.command@))
        } else {
            EntryClass::Task
        },
        CommandFileDescription::ExtendedCommand(x) => EntryClass::Extend(x.extend@),
        CommandFileDescription::Concurrent(_) => EntryClass::Group,
    }
}

pub open spec fn entries_view(v: Seq<(String, CommandFileDescription)>) -> Seq<(Seq<char>, EntryClass)> {
    Seq::new(v.len(), |i: int| (v[i].0@, class_of(v[i].1)))
}

/// Which names a registry holds, each marked `true` for a task, `false` for a group.
pub open spec fn kinds(c: Context) -> Map<Seq<char>, bool> {
    c@.map_values(|e: CommandImported| e is Command)
}

/// The first pass: tasks and groups are registered in file order, and the
/// tasks that extend another, with the name they extend, are queued; `None`
/// where an entry is an empty one-line command.
pub open spec fn first_pass(entries: Seq<(Seq<char>, EntryClass)>) -> Option<
    (Map<Seq<char>, bool>, Seq<(Seq<char>, Seq<char>)>),
>
    decreases entries.len(),
{
    if entries.len() == 0 {
        Some((Map::empty(), seq![]))
    } else {
        match first_pass(entries.drop_last()) {
            None => None,
            Some(kq) => {
                let (k, q) = kq;
                let n = entries.last().0;
                match entries.last().1 {
                    EntryClass::Invalid => None,
                    EntryClass::Task => Some((k.insert(n, true), q)),
                    EntryClass::Group => Some((k.insert(n, false), q)),
                    EntryClass::Extend(t) => Some((k, q.push((n, t)))),
                }
            },
        }
    }
}

/// The queue taken from its end: a task whose base is a registered task is
/// registered; one whose base is a group fails; one whose base is not there
/// yet is deferred, unless a task of that name was deferred already, which
/// fails. Gives the registry's kinds and the deferred tasks in order.
pub open spec fn first_round(
    k: Map<Seq<char>, bool>,
    q: Seq<(Seq<char>, Seq<char>)>,
    pending: Seq<Seq<char>>,
    deferred: Seq<(Seq<char>, Seq<char>)>,
) -> Option<(Map<Seq<char>, bool>, Seq<(Seq<char>, Seq<char>)>)>
    decreases q.len(),
{
    if q.len() == 0 {
        Some((k, deferred))
    } else {
        let n = q.last().0;
        let t = q.last().1;
        if k.contains_key(t) {
            if k[t] {
                first_round(k.insert(n, true), q.drop_last(), pending, deferred)
            } else {
                None
            }
        } else if pending.contains(n) {
            None
        } else {
            first_round(k, q.drop_last(), pending.push(n), deferred.push((n, t)))
        }
    }
}

/// The deferred tasks in order: each base must be a registered task by then.
pub open spec fn second_round(k: Map<Seq<char>, bool>, d: Seq<(Seq<char>, Seq<char>)>) -> Option<
    Map<Seq<char>, bool>,
>
    decreases d.len(),
{
    if d.len() == 0 {
        Some(k)
    } else if k.contains_key(d[0].1) && k[d[0].1] {
        second_round(k.insert(d[0].0, true), d.drop_first())
    } else {
        None
    }
}

/// The queued tasks resolved against the registry `k`: each base is looked up
/// when its task comes out of the queue, and a task may wait once.
pub open spec fn resolve_queue(k: Map<Seq<char>, bool>, q: Seq<(Seq<char>, Seq<char>)>) -> Option<
    Map<Seq<char>, bool>,
> {
    match first_round(k, q, seq![], seq![]) {
        Some(kd) => second_round(kd.0, kd.1),
        None => None,
    }
}

/// The kinds of the registry that a configuration file resolves to, or `None`
/// where it cannot be resolved.
pub open spec fn resolved(entries: Seq<(Seq<char>, EntryClass)>) -> Option<Map<Seq<char>, bool>> {
    match first_pass(entries) {
        Some(kq) => resolve_queue(kq.0, kq.1),
        None => None,
    }
}

pub open spec fn queue_view(q: Seq<(String, ExtendedCommandDescription)>) -> Seq<(Seq<char>, Seq<char>)> {
    Seq::new(q.len(), |i: int| (q[i].0@, q[i].1.extend@))
}

pub open spec fn queue_wf(q: Seq<(String, ExtendedCommandDescription)>) -> bool {
    forall|i: int| 0 <= i < q.len() ==> #[trigger] q[i].1.wf()
}

pub open spec fn entry_wf(e: CommandFileDescription) -> bool {
    match e {
        CommandFileDescription::StringCommand(_) => true,
        CommandFileDescription::Command(d) => d.wf(),
        CommandFileDescription::ExtendedCommand(x) => x.wf(),
        CommandFileDescription::Concurrent(c) => c.wf(),
    }
}

impl CommandsFile {
    pub open spec fn wf(&self) -> bool {
        &&& opt_wf(self.variables)
        &&& opt_wf(self.environments)
        &&& forall|i: int| 0 <= i < self.commands@.len() ==> entry_wf(#[trigger] self.commands@[i].1)
    }
}

/// `r` is `base` with `desc` laid over it, field by field.
pub open spec fn extends_with(r: CommandBuilder, base: CommandBuilder, desc: ExtendedCommandDescription) -> bool {
    &&& r.wf()
    &&& r.source@ == base.source@
    &&& r.cwd == if desc.cwd is Some { desc.cwd } else { base.cwd }
    &&& r.args.deep_view() == base.args.deep_view() + opt_strings(desc.args).map_values(|x: String| x@)
    &&& r.shell == if desc.shell is Some { desc.shell } else { base.shell }
    &&& r.hidden == match desc.hidden { Some(h) => h, None => base.hidden }
    &&& r.dependencies.deep_view() == base.dependencies.deep_view() + opt_strings(desc.depends).map_values(|x: String| x@)
    &&& r.variables.pairs() == put_all(base.variables.pairs(), opt_pairs(desc.variables))
    &&& r.environments.pairs() == put_all(base.environments.pairs(), opt_pairs(desc.environments))
    &&& r.description == if desc.description is Some { desc.description } else { base.description }
}

/// What one task taken from the queue came to.
pub enum Step {
    Resolved,
    Failed(Error),
    Missing(String, ExtendedCommandDescription),
}

/// Registers `name` as `desc` laid over a copy of the task it extends, where
/// that task is registered.
pub fn extend_step(tasks: &mut Context, name: String, desc: ExtendedCommandDescription) -> (r: Step)
    requires
        old(tasks).wf(),
        desc.wf(),
    ensures
        final(tasks).wf(),
        ({
            let k = kinds(*old(tasks));
            let t = desc.extend@;
            &&& k.contains_key(t) && k[t] ==> r is Resolved && kinds(*final(tasks)) == k.insert(
                name@,
                true,
            ) && final(tasks)@.contains_key(name@) && final(tasks)@[name@] is Command && extends_with(
                final(tasks)@[name@]->Command_0,
                old(tasks)@[t]->Command_0,
                desc,
            ) && final(tasks)@[name@]->Command_0.name@ == name@ && final(tasks)@ == old(
                tasks,
            )@.insert(name@, final(tasks)@[name@])
            &&& k.contains_key(t) && !k[t] ==> (r matches Step::Failed(e) && e is Import)
                && *final(tasks) == *old(tasks)
            &&& !k.contains_key(t) ==> (r matches Step::Missing(n, d) && n == name && d == desc)
                && *final(tasks) == *old(tasks)
        }),
{
    let ghost k = kinds(*tasks);
    let ghost t = desc.extend@;
    let found = tasks.find(desc.extend.as_str());
    match found {
        Some(CommandImported::Command(b)) => {
            let ghost bb = *b;
            assert(tasks.tasks@[tasks.index_of(t)].1.wf());
            let base = b.duplicate();
            let mut task = CommandBuilder::from_extended(ExtendedCommand { extend: base, desc });
            task.with_name(name.clone());
            let ghost tv = task;
            proof {
                assert(tv.args.deep_view() =~= bb.args.deep_view() + opt_strings(desc.args).map_values(|x: String| x@));
                assert(tv.dependencies.deep_view() =~= bb.dependencies.deep_view() + opt_strings(desc.depends).map_values(|x: String| x@));
            }
            tasks.insert(name, CommandImported::Command(task));
            proof {
                assert(kinds(*tasks) =~= k.insert(name@, true));
                assert(tasks@ =~= old(tasks)@.insert(name@, tasks@[name@]));
            }
            Step::Resolved
        },
        Some(CommandImported::Concurrent(_)) => {
            let mut msg = name;
            msg.append(" cannot extend ");
            msg.append(desc.extend.as_str());
            msg.append(".");
            Step::Failed(Error::Import(msg))
        },
        None => Step::Missing(name, desc),
    }
}

/// `Err` where `target`, a file that `source` extends, is `source` itself.
pub fn check_extension(source: &str, target: &str) -> (r: Result<(), Error>)
    ensures
        r is Err <==> source@ == target@,
        r matches Err(e) ==> e is Import,
{
    if str_eq(source, target) {
        let mut msg = String::from_str("Cannot extend ");
        msg.append(target);
        return Err(Error::Import(msg));
    }
    Ok(())
}

proof fn lemma_first_pass_prefix(e: Seq<(Seq<char>, EntryClass)>, i: int)
    requires
        0 <= i <= e.len(),
        first_pass(e.subrange(0, i)) is None,
    ensures
        first_pass(e) is None,
    decreases e.len(),
{
    if i < e.len() {
        assert(e.drop_last().subrange(0, i) =~= e.subrange(0, i));
        lemma_first_pass_prefix(e.drop_last(), i);
    } else {
        assert(e.subrange(0, i) =~= e);
    }
}

fn cannot_extend(name: String, target: &String) -> (r: Error)
    ensures
        r is Import,
{
    let mut msg = name;
    msg.append(" cannot extend ");
    msg.append(target.as_str());
    msg.append(".");
    Error::Import(msg)
}

/// The arguments of the task that a task entry gives: the tokens of its
/// command, then its own arguments.
pub open spec fn entry_args(e: CommandFileDescription) -> Seq<Seq<char>> {
    match e {
        CommandFileDescription::StringCommand(s) => tokens(s@),
        CommandFileDescription::Command(d) => tokens(d.command@) + opt_strings(d.args).map_values(
            |x: String| x@,
        ),
        _ => seq![],
    }
}

pub open spec fn entry_vars(e: CommandFileDescription) -> Map<Seq<char>, Seq<char>> {
    match e {
        CommandFileDescription::Command(d) => pairs_to_map(opt_pairs(d.variables)),
        _ => Map::empty(),
    }
}

pub open spec fn entry_envs(e: CommandFileDescription) -> Map<Seq<char>, Seq<char>> {
    match e {
        CommandFileDescription::Command(d) => pairs_to_map(opt_pairs(d.environments)),
        _ => Map::empty(),
    }
}

/// No entry but the `j`-th carries its name.
pub open spec fn sole_name(cmds: Seq<(String, CommandFileDescription)>, j: int) -> bool {
    forall|k: int| 0 <= k < cmds.len() && k != j ==> #[trigger] cmds[k].0@ != cmds[j].0@
}

/// `b` is the task that the task entry `e` gives in a file read from
/// `source` whose variables are `fv` and environment entries `fe`: the entry's
/// own win over the file's.
pub open spec fn task_of_entry(
    b: CommandBuilder,
    e: CommandFileDescription,
    source: Seq<char>,
    fv: Map<Seq<char>, Seq<char>>,
    fe: Map<Seq<char>, Seq<char>>,
) -> bool {
    &&& b.args.deep_view() == entry_args(e)
    &&& b.source@ == source
    &&& b.variables@ == fv.union_prefer_right(entry_vars(e))
    &&& b.environments@ == fe.union_prefer_right(entry_envs(e))
}

/// The `j`-th entry extends another task and is named `n`.
pub open spec fn extend_at(cmds: Seq<(String, CommandFileDescription)>, j: int, n: Seq<char>) -> bool {
    class_of(cmds[j].1) is Extend && cmds[j].0@ == n
}

/// One of the first `i` entries extends another task and is named `n`.
pub open spec fn extended_before(cmds: Seq<(String, CommandFileDescription)>, i: int, n: Seq<char>) -> bool {
    exists|j: int| 0 <= j < i && #[trigger] extend_at(cmds, j, n)
}

/// `n` is the name of a task in the queue `q`.
pub open spec fn queued_name(q: Seq<(Seq<char>, Seq<char>)>, n: Seq<char>) -> bool {
    exists|k: int| 0 <= k < q.len() && #[trigger] q[k].0 == n
}

/// One configuration file being resolved into a registry.
pub struct Resolver {
    pub source: String,
    pub tasks: Context,
    pub extended_tasks: Vec<(String, ExtendedCommandDescription)>,
    pub commands: Vec<(String, CommandFileDescription)>,
    pub variables: VarMap,
    pub environments: VarMap,
}

impl Resolver {
    pub open spec fn wf(&self) -> bool {
        &&& self.tasks.wf()
        &&& queue_wf(self.extended_tasks@)
        &&& self.variables.wf()
        &&& self.environments.wf()
        &&& forall|i: int| 0 <= i < self.commands@.len() ==> entry_wf(#[trigger] self.commands@[i].1)
    }

    /// A resolver for `file`, read from the path `source`.
    pub fn new(file: CommandsFile, source: String) -> (r: Resolver)
        requires
            file.wf(),
        ensures
            r.wf(),
            r.source == source,
            r.commands == file.commands,
            kinds(r.tasks) == Map::<Seq<char>, bool>::empty(),
            r.extended_tasks@.len() == 0,
            r.variables@ == pairs_to_map(opt_pairs(file.variables)),
            r.environments@ == pairs_to_map(opt_pairs(file.environments)),
    {
        let tasks = Context::new();
        assert(kinds(tasks) =~= Map::<Seq<char>, bool>::empty());
        let variables = match file.variables {
            Some(v) => v,
            None => VarMap::new(),
        };
        let environments = match file.environments {
            Some(v) => v,
            None => VarMap::new(),
        };
        proof {
            assert(pairs_to_map(seq![]) =~= Map::<Seq<char>, Seq<char>>::empty());
        }
        Resolver {
            source,
            tasks,
            extended_tasks: Vec::new(),
            commands: file.commands,
            variables,
            environments,
        }
    }

    /// Registers a task; the file's variables and environment entries come
    /// first and the task's own win over them.
    fn add_command(&mut self, name: String, desc: CommandDescription)
        requires
            old(self).wf(),
            desc.wf(),
        ensures
            final(self).wf(),
            kinds(final(self).tasks) == kinds(old(self).tasks).insert(name@, true),
            final(self).extended_tasks == old(self).extended_tasks,
            final(self).commands == old(self).commands,
            final(self).source == old(self).source,
            final(self).variables == old(self).variables,
            final(self).environments == old(self).environments,
            final(self).tasks@ == old(self).tasks@.insert(name@, final(self).tasks@[name@]),
            final(self).tasks@[name@] matches CommandImported::Command(b) && b.name@ == name@
                && b.source@ == old(self).source@ && b.variables@ == old(self).variables@.union_prefer_right(
                pairs_to_map(opt_pairs(desc.variables)),
            ) && b.environments@ == old(self).environments@.union_prefer_right(
                pairs_to_map(opt_pairs(desc.environments)),
            ) && b.args.deep_view() == tokens(desc.command@) + opt_strings(desc.args).map_values(
                |x: String| x@,
            ),
    {
        let mut task = CommandBuilder::from_description(desc);
        let mut vars = self.variables.duplicate();
        vars.extend(&task.variables);
        let mut envs = self.environments.duplicate();
        envs.extend(&task.environments);
        task.variables = vars;
        task.environments = envs;
        task.with_name(name.clone());
        task.with_source(self.source.clone());
        let ghost k = kinds(self.tasks);
        let ghost n = name@;
        self.tasks.insert(name, CommandImported::Command(task));
        assert(kinds(self.tasks) =~= k.insert(n, true));
        assert(self.tasks@ =~= old(self).tasks@.insert(n, self.tasks@[n]));
    }

    /// Registers a group; the file's variables and environment entries come
    /// first and the group's own win over them.
    fn add_concurrent(&mut self, name: String, conc: ConcurrentBuilder)
        requires
            old(self).wf(),
            conc.wf(),
        ensures
            final(self).wf(),
            kinds(final(self).tasks) == kinds(old(self).tasks).insert(name@, false),
            final(self).extended_tasks == old(self).extended_tasks,
            final(self).commands == old(self).commands,
            final(self).source == old(self).source,
            final(self).variables == old(self).variables,
            final(self).environments == old(self).environments,
            final(self).tasks@ == old(self).tasks@.insert(name@, final(self).tasks@[name@]),
            final(self).tasks@[name@] matches CommandImported::Concurrent(g) && g.name@ == name@
                && g.source@ == old(self).source@ && g.variables@ == old(self).variables@.union_prefer_right(
                conc.variables@,
            ) && g.environments@ == old(self).environments@.union_prefer_right(conc.environments@),
    {
        let mut conc = conc;
        let mut vars = self.variables.duplicate();
        vars.extend(&conc.variables);
        let mut envs = self.environments.duplicate();
        envs.extend(&conc.environments);
        conc.variables = vars;
        conc.environments = envs;
        conc.with_name(name.clone());
        conc.with_source(self.source.clone());
        let ghost k = kinds(self.tasks);
        let ghost n = name@;
        self.tasks.insert(name, CommandImported::Concurrent(conc));
        assert(kinds(self.tasks) =~= k.insert(n, false));
        assert(self.tasks@ =~= old(self).tasks@.insert(n, self.tasks@[n]));
    }

    /// Queues a task that extends another.
    fn add_extend(&mut self, name: String, desc: ExtendedCommandDescription)
        requires
            old(self).wf(),
            desc.wf(),
        ensures
            final(self).wf(),
            final(self).tasks == old(self).tasks,
            final(self).extended_tasks@ == old(self).extended_tasks@.push((name, desc)),
            final(self).commands == old(self).commands,
            final(self).source == old(self).source,
            final(self).variables == old(self).variables,
            final(self).environments == old(self).environments,
    {
        self.extended_tasks.push((name, desc));
    }

    /// Registers a task, or queues it where it runs another task.
    fn add_task(&mut self, name: String, desc: CommandDescription)
        requires
            old(self).wf(),
            desc.wf(),
        ensures
            final(self).wf(),
            final(self).commands == old(self).commands,
            final(self).source == old(self).source,
            final(self).variables == old(self).variables,
            final(self).environments == old(self).environments,
            is_alias(desc.command@) ==> final(self).tasks == old(self).tasks && queue_view(
                final(self).extended_tasks@,
            ) == queue_view(old(self).extended_tasks@).push((name@, alias_target(desc.command@))),
            !is_alias(desc.command@) ==> kinds(final(self).tasks) == kinds(old(self).tasks).insert(
                name@,
                true,
            ) && final(self).extended_tasks == old(self).extended_tasks
                && final(self).tasks@ == old(self).tasks@.insert(name@, final(self).tasks@[name@])
                && (final(self).tasks@[name@] matches CommandImported::Command(b) && b.name@ == name@ && b.source@
                == old(self).source@ && b.variables@ == old(self).variables@.union_prefer_right(
                pairs_to_map(opt_pairs(desc.variables)),
            ) && b.environments@ == old(self).environments@.union_prefer_right(
                pairs_to_map(opt_pairs(desc.environments)),
            ) && b.args.deep_view() == tokens(desc.command@) + opt_strings(desc.args).map_values(
                |x: String| x@,
            )),
    {
        if !is_shell_task(&desc) {
            let ghost q = queue_view(self.extended_tasks@);
            let ext = ExtendedCommandDescription::from_alias(desc);
            let ghost n = name@;
            let ghost t = ext.extend@;
            self.add_extend(name, ext);
            assert(queue_view(self.extended_tasks@) =~= q.push((n, t)));
        } else {
            self.add_command(name, desc);
        }
    }

    /// The first pass over one entry.
    fn add_entry(&mut self, name: String, entry: CommandFileDescription) -> (r: Result<(), Error>)
        requires
            old(self).wf(),
            entry_wf(entry),
        ensures
            final(self).wf(),
            final(self).commands == old(self).commands,
            final(self).source == old(self).source,
            final(self).variables == old(self).variables,
            final(self).environments == old(self).environments,
            r is Err <==> class_of(entry) is Invalid,
            r matches Err(e) ==> e is Command,
            match class_of(entry) {
                EntryClass::Invalid => true,
                EntryClass::Task => kinds(final(self).tasks) == kinds(old(self).tasks).insert(
                    name@,
                    true,
                ) && queue_view(final(self).extended_tasks@) == queue_view(
                    old(self).extended_tasks@,
                ) && final(self).tasks@ == old(self).tasks@.insert(name@, final(self).tasks@[name@])
                    && (final(self).tasks@[name@] matches CommandImported::Command(b) && b.name@
                    == name@ && task_of_entry(
                    b,
                    entry,
                    old(self).source@,
                    old(self).variables@,
                    old(self).environments@,
                )),
                EntryClass::Group => kinds(final(self).tasks) == kinds(old(self).tasks).insert(
                    name@,
                    false,
                ) && queue_view(final(self).extended_tasks@) == queue_view(
                    old(self).extended_tasks@,
                ) && final(self).tasks@ == old(self).tasks@.insert(name@, final(self).tasks@[name@]),
                EntryClass::Extend(t) => kinds(final(self).tasks) == kinds(old(self).tasks)
                    && final(self).tasks == old(self).tasks && queue_view(
                    final(self).extended_tasks@,
                ) == queue_view(old(self).extended_tasks@).push((name@, t)),
            },
    {
        match entry {
            CommandFileDescription::StringCommand(command) => {
                let desc = CommandDescription::from_str(command.as_str())?;
                if is_alias_command(command.as_str()) {
                    let ghost q = queue_view(self.extended_tasks@);
                    let ext = ExtendedCommandDescription::from_alias(desc);
                    let ghost n = name@;
                    let ghost t = ext.extend@;
                    self.add_extend(name, ext);
                    assert(queue_view(self.extended_tasks@) =~= q.push((n, t)));
                } else {
                    let ghost sv = command@;
                    let ghost dargs = desc.args;
                    proof {
                        crate::text::lemma_tokens_no_ws(sv);
                        assert(tokens(sv)[0].len() > 0 && crate::text::no_ws(tokens(sv)[0]));
                        crate::text::lemma_tokens_word(tokens(sv)[0]);
                        let a = dargs->Some_0;
                        assert(opt_strings(dargs).map_values(|x: String| x@) =~= a.deep_view());
                        assert(tokens(desc.command@) + opt_strings(dargs).map_values(|x: String| x@)
                            =~= tokens(sv));
                    }
                    self.add_command(name, desc);
                    proof {
                        let e = CommandFileDescription::StringCommand(command);
                        assert(pairs_to_map(opt_pairs(None)) =~= Map::<Seq<char>, Seq<char>>::empty());
                        assert(old(self).variables@.union_prefer_right(entry_vars(e)) =~= old(self).variables@.union_prefer_right(pairs_to_map(opt_pairs(None))));
                        assert(old(self).environments@.union_prefer_right(entry_envs(e)) =~= old(self).environments@.union_prefer_right(pairs_to_map(opt_pairs(None))));
                    }
                }
            },
            CommandFileDescription::Command(desc) => {
                self.add_task(name, desc);
            },
            CommandFileDescription::Concurrent(desc) => {
                let conc = ConcurrentBuilder::from_description(desc);
                self.add_concurrent(name, conc);
            },
            CommandFileDescription::ExtendedCommand(desc) => {
                let ghost q = queue_view(self.extended_tasks@);
                let ghost n = name@;
                let ghost t = desc.extend@;
                self.add_extend(name, desc);
                assert(queue_view(self.extended_tasks@) =~= q.push((n, t)));
            },
        }
        Ok(())
    }

    /// Resolves the queued tasks against the registry: see `resolve_queue`.
    fn resolve_extends(&mut self) -> (r: Result<(), Error>)
        requires
            old(self).wf(),
        ensures
            final(self).tasks.wf(),
            r is Ok <==> resolve_queue(
                kinds(old(self).tasks),
                queue_view(old(self).extended_tasks@),
            ) is Some,
            r is Ok ==> Some(kinds(final(self).tasks)) == resolve_queue(
                kinds(old(self).tasks),
                queue_view(old(self).extended_tasks@),
            ),
            r matches Err(e) ==> e is Import,
            r is Ok ==> forall|n: Seq<char>|
                !queued_name(queue_view(old(self).extended_tasks@), n) && #[trigger] old(
                    self,
                ).tasks@.contains_key(n) ==> final(self).tasks@.contains_key(n) && final(self).tasks@[n]
                    == old(self).tasks@[n],
    {
        let ghost k0 = kinds(self.tasks);
        let ghost q0 = queue_view(self.extended_tasks@);
        let ghost t0 = self.tasks@;
        let mut pending: Vec<String> = Vec::new();
        let mut deferred: Vec<(String, ExtendedCommandDescription)> = Vec::new();
        assert(pending.deep_view() =~= Seq::<Seq<char>>::empty());
        assert(queue_view(deferred@) =~= Seq::<(Seq<char>, Seq<char>)>::empty());
        while self.extended_tasks.len() > 0
            invariant
                self.tasks.wf(),
                k0 == kinds(old(self).tasks),
                q0 == queue_view(old(self).extended_tasks@),
                queue_wf(self.extended_tasks@),
                queue_wf(deferred@),
                first_round(
                    kinds(self.tasks),
                    queue_view(self.extended_tasks@),
                    pending.deep_view(),
                    queue_view(deferred@),
                ) == first_round(k0, q0, seq![], seq![]),
                t0 == old(self).tasks@,
                forall|k: int|
                    0 <= k < self.extended_tasks@.len() ==> queued_name(
                        q0,
                        #[trigger] queue_view(self.extended_tasks@)[k].0,
                    ),
                forall|k: int|
                    0 <= k < deferred@.len() ==> queued_name(q0, #[trigger] queue_view(deferred@)[k].0),
                forall|n: Seq<char>|
                    !queued_name(q0, n) && #[trigger] t0.contains_key(n) ==> self.tasks@.contains_key(
                        n,
                    ) && self.tasks@[n] == t0[n],
            decreases self.extended_tasks@.len(),
        {
            let ghost q = queue_view(self.extended_tasks@);
            let ghost d0 = queue_view(deferred@);
            let ghost waiting = pending.deep_view();
            let (name, desc) = self.extended_tasks.pop().unwrap();
            assert(queue_view(self.extended_tasks@) =~= q.drop_last());
            assert(q.last() == (name@, desc.extend@));
            assert(queued_name(q0, q[q.len() - 1].0));
            let ghost nm = name@;
            let ghost tb = self.tasks@;
            assert forall|k: int|
                0 <= k < self.extended_tasks@.len() implies queued_name(
                    q0,
                    #[trigger] queue_view(self.extended_tasks@)[k].0,
                ) by {
                assert(queue_view(self.extended_tasks@)[k] == q[k]);
            }
            let already = contains_str(&pending, name.as_str());
            let ghost kk = kinds(self.tasks);
            match extend_step(&mut self.tasks, name, desc) {
                Step::Resolved => {},
                Step::Failed(e) => {
                    assert(first_round(kk, q, waiting, d0) is None);
                    return Err(e);
                },
                Step::Missing(n, d) => {
                    if already {
                        assert(first_round(kk, q, waiting, d0) is None);
                        return Err(cannot_extend(n, &d.extend));
                    }
                    pending.push(n.clone());
                    assert(pending.deep_view() =~= waiting.push(n@));
                    deferred.push((n, d));
                    assert(queue_view(deferred@) =~= d0.push((n@, d.extend@)));
                    assert forall|k: int|
                        0 <= k < deferred@.len() implies queued_name(q0, #[trigger] queue_view(deferred@)[k].0) by {
                        if k < d0.len() {
                            assert(queue_view(deferred@)[k] == d0[k]);
                        }
                    }
                },
            }
            assert forall|x: Seq<char>|
                !queued_name(q0, x) && #[trigger] t0.contains_key(x) implies self.tasks@.contains_key(x)
                    && self.tasks@[x] == t0[x] by {
                assert(x != nm);
                assert(tb.contains_key(x) && tb[x] == t0[x]);
            }
        }
        assert(queue_view(self.extended_tasks@) =~= Seq::<(Seq<char>, Seq<char>)>::empty());
        let ghost k1 = kinds(self.tasks);
        let ghost d1 = queue_view(deferred@);
        while deferred.len() > 0
            invariant
                self.tasks.wf(),
                k0 == kinds(old(self).tasks),
                q0 == queue_view(old(self).extended_tasks@),
                queue_wf(deferred@),
                first_round(k0, q0, seq![], seq![]) == Some((k1, d1)),
                second_round(kinds(self.tasks), queue_view(deferred@)) == second_round(k1, d1),
                t0 == old(self).tasks@,
                forall|k: int|
                    0 <= k < deferred@.len() ==> queued_name(q0, #[trigger] queue_view(deferred@)[k].0),
                forall|n: Seq<char>|
                    !queued_name(q0, n) && #[trigger] t0.contains_key(n) ==> self.tasks@.contains_key(
                        n,
                    ) && self.tasks@[n] == t0[n],
            decreases deferred@.len(),
        {
            let ghost d = queue_view(deferred@);
            let (name, desc) = deferred.remove(0);
            assert(queue_view(deferred@) =~= d.drop_first());
            assert(d[0] == (name@, desc.extend@));
            assert(queued_name(q0, d[0].0));
            let ghost nm = name@;
            let ghost tb = self.tasks@;
            assert forall|k: int|
                0 <= k < deferred@.len() implies queued_name(q0, #[trigger] queue_view(deferred@)[k].0) by {
                assert(queue_view(deferred@)[k] == d[k + 1]);
            }
            let ghost kk = kinds(self.tasks);
            match extend_step(&mut self.tasks, name, desc) {
                Step::Resolved => {},
                Step::Failed(e) => {
                    assert(second_round(kk, d) is None);
                    return Err(e);
                },
                Step::Missing(n, dd) => {
                    assert(second_round(kk, d) is None);
                    return Err(cannot_extend(n, &dd.extend));
                },
            }
            assert forall|x: Seq<char>|
                !queued_name(q0, x) && #[trigger] t0.contains_key(x) implies self.tasks@.contains_key(x)
                    && self.tasks@[x] == t0[x] by {
                assert(x != nm);
                assert(tb.contains_key(x) && tb[x] == t0[x]);
            }
        }
        assert(queue_view(deferred@) =~= Seq::<(Seq<char>, Seq<char>)>::empty());
        Ok(())
    }

    /// Resolves the file: the first pass registers its tasks and groups in
    /// file order and queues the tasks that extend another; then the queue is
    /// resolved. An empty one-line command, a task that extends a group, and a
    /// task whose base is still missing when its turn comes again are errors.
    pub fn resolve(self) -> (r: Result<Context, Error>)
        requires
            self.wf(),
            kinds(self.tasks) == Map::<Seq<char>, bool>::empty(),
            self.extended_tasks@.len() == 0,
        ensures
            r is Ok <==> resolved(entries_view(self.commands@)) is Some,
            r matches Ok(c) ==> c.wf() && Some(kinds(c)) == resolved(entries_view(self.commands@)),
            r matches Ok(c) ==> forall|j: int|
                0 <= j < self.commands@.len() && #[trigger] class_of(self.commands@[j].1) is Task
                    && sole_name(self.commands@, j) ==> c@.contains_key(self.commands@[j].0@) && (c@[self.commands@[j].0@] matches CommandImported::Command(
                    b,
                ) && task_of_entry(
                    b,
                    self.commands@[j].1,
                    self.source@,
                    self.variables@,
                    self.environments@,
                )),
            r matches Err(e) ==> e is Import || e is Command,
    {
        let ghost all = entries_view(self.commands@);
        let mut me = self;
        let mut entries = me.commands.split_off(0);
        let ghost orig = entries@;
        assert(orig == self.commands@);
        let mut i: usize = 0;
        let n = entries.len();
        assert(all.subrange(0, 0) =~= Seq::<(Seq<char>, EntryClass)>::empty());
        assert(queue_view(me.extended_tasks@) =~= Seq::<(Seq<char>, Seq<char>)>::empty());
        assert(orig.skip(0) =~= orig);
        while entries.len() > 0
            invariant
                me.wf(),
                i <= orig.len(),
                orig.len() == n,
                orig == self.commands@,
                all == entries_view(orig),
                entries@ == orig.skip(i as int),
                forall|j: int| 0 <= j < orig.len() ==> entry_wf(#[trigger] orig[j].1),
                first_pass(all.subrange(0, i as int)) == Some(
                    (kinds(me.tasks), queue_view(me.extended_tasks@)),
                ),
                me.source == self.source,
                me.variables == self.variables,
                me.environments == self.environments,
                forall|j: int|
                    0 <= j < i && #[trigger] class_of(orig[j].1) is Task && sole_name(orig, j)
                        ==> me.tasks@.contains_key(orig[j].0@) && (me.tasks@[orig[j].0@] matches CommandImported::Command(
                        b,
                    ) && task_of_entry(b, orig[j].1, self.source@, self.variables@, self.environments@)),
                forall|k: int|
                    0 <= k < me.extended_tasks@.len() ==> extended_before(
                        orig,
                        i as int,
                        #[trigger] queue_view(me.extended_tasks@)[k].0,
                    ),
            decreases entries@.len(),
        {
            let ghost tb = me.tasks@;
            let ghost qb = queue_view(me.extended_tasks@);
            assert(entries@.len() == orig.len() - i);
            let (name, entry) = entries.remove(0);
            assert(orig[i as int] == (name, entry));
            assert(entries@ =~= orig.skip(i + 1));
            assert(all.subrange(0, i + 1).drop_last() =~= all.subrange(0, i as int));
            assert(all.subrange(0, i + 1).last() == (name@, class_of(entry)));
            let ghost nm = name@;
            let res = me.add_entry(name, entry);
            if res.is_err() {
                proof {
                    lemma_first_pass_prefix(all, i + 1);
                }
                return Err(res.unwrap_err());
            }
            proof {
                assert forall|j: int|
                    0 <= j < i + 1 && #[trigger] class_of(orig[j].1) is Task && sole_name(orig, j)
                        implies me.tasks@.contains_key(orig[j].0@) && (me.tasks@[orig[j].0@] matches CommandImported::Command(
                        b,
                    ) && task_of_entry(b, orig[j].1, self.source@, self.variables@, self.environments@)) by {
                    if j < i {
                        assert(orig[i as int].0@ != orig[j].0@);
                        assert(tb.contains_key(orig[j].0@));
                    }
                }
                assert forall|k: int|
                    0 <= k < me.extended_tasks@.len() implies extended_before(
                        orig,
                        i + 1,
                        #[trigger] queue_view(me.extended_tasks@)[k].0,
                    ) by {
                    if k < qb.len() {
                        assert(queue_view(me.extended_tasks@)[k] == qb[k]);
                        assert(extended_before(orig, i as int, qb[k].0));
                        let j = choose|j: int| 0 <= j < i && #[trigger] extend_at(orig, j, qb[k].0);
                        assert(extend_at(orig, j, queue_view(me.extended_tasks@)[k].0));
                    } else {
                        assert(orig[i as int].0@ == nm);
                        match class_of(orig[i as int].1) {
                            EntryClass::Extend(t) => {
                                assert(queue_view(me.extended_tasks@) == qb.push((nm, t)));
                                assert(queue_view(me.extended_tasks@)[k] == (nm, t));
                            },
                            _ => {
                                assert(queue_view(me.extended_tasks@) == qb);
                            },
                        }
                        assert(extend_at(orig, i as int, queue_view(me.extended_tasks@)[k].0));
                    }
                }
            }
            i = i + 1;
        }
        assert(all.subrange(0, i as int) =~= all);
        let ghost t1 = me.tasks@;
        let ghost q1 = queue_view(me.extended_tasks@);
        match me.resolve_extends() {
            Ok(()) => {
                proof {
                    assert forall|j: int|
                        0 <= j < orig.len() && #[trigger] class_of(orig[j].1) is Task && sole_name(orig, j)
                            implies !queued_name(q1, orig[j].0@) by {
                        if queued_name(q1, orig[j].0@) {
                            let k = choose|k: int| 0 <= k < q1.len() && #[trigger] q1[k].0 == orig[j].0@;
                            assert(extended_before(orig, n as int, q1[k].0));
                            let j2 = choose|j2: int| 0 <= j2 < n && #[trigger] extend_at(orig, j2, q1[k].0);
                            assert(j2 != j);
                        }
                    }
                }
                Ok(me.tasks)
            },
            Err(e) => Err(e),
        }
    }
}

/// The registry that `file`, read from the path `source`, describes, before
/// the files it extends are merged into it.
pub fn load(file: CommandsFile, source: String) -> (r: Result<Context, Error>)
    requires
        file.wf(),
    ensures
        r is Ok <==> resolved(entries_view(file.commands@)) is Some,
        r matches Ok(c) ==> c.wf() && Some(kinds(c)) == resolved(entries_view(file.commands@)),
        r matches Ok(c) ==> forall|j: int|
            0 <= j < file.commands@.len() && #[trigger] class_of(file.commands@[j].1) is Task
                && sole_name(file.commands@, j) ==> c@.contains_key(file.commands@[j].0@) && (c@[file.commands@[j].0@] matches CommandImported::Command(
                b,
            ) && task_of_entry(
                b,
                file.commands@[j].1,
                source@,
                pairs_to_map(opt_pairs(file.variables)),
                pairs_to_map(opt_pairs(file.environments)),
            )),
        r matches Err(e) ==> e is Import || e is Command,
{
    let resolver = Resolver::new(file, source);
    resolver.resolve()
}

proof fn lemma_first_round_tasks(
    k: Map<Seq<char>, bool>,
    q: Seq<(Seq<char>, Seq<char>)>,
    p: Seq<Seq<char>>,
    d: Seq<(Seq<char>, Seq<char>)>,
)
    requires
        forall|i: int| 0 <= i < q.len() ==> k.contains_key(#[trigger] q[i].1) && k[q[i].1],
    ensures
        first_round(k, q, p, d) matches Some(kd) && kd.1 == d,
    decreases q.len(),
{
    if q.len() > 0 {
        let n = q.last().0;
        assert(k.contains_key(q[q.len() - 1].1));
        let k2 = k.insert(n, true);
        assert forall|i: int| 0 <= i < q.drop_last().len() implies k2.contains_key(
            #[trigger] q.drop_last()[i].1,
        ) && k2[q.drop_last()[i].1] by {
            assert(q.drop_last()[i] == q[i]);
            assert(k.contains_key(q[i].1));
        }
        lemma_first_round_tasks(k2, q.drop_last(), p, d);
    }
}

/// Tasks may extend tasks declared anywhere in the file, later ones included:
/// where every base named by a queued task is a task of the first pass, the
/// file resolves.
pub proof fn lemma_forward_reference(entries: Seq<(Seq<char>, EntryClass)>)
    requires
        first_pass(entries) matches Some(kq) && forall|i: int|
            0 <= i < kq.1.len() ==> kq.0.contains_key(#[trigger] kq.1[i].1) && kq.0[kq.1[i].1],
    ensures
        resolved(entries) is Some,
{
    let kq = first_pass(entries)->Some_0;
    lemma_first_round_tasks(kq.0, kq.1, seq![], seq![]);
}

proof fn lemma_first_round_missing(
    k: Map<Seq<char>, bool>,
    q: Seq<(Seq<char>, Seq<char>)>,
    p: Seq<Seq<char>>,
    d: Seq<(Seq<char>, Seq<char>)>,
)
    requires
        forall|i: int| 0 <= i < q.len() ==> !k.contains_key(#[trigger] q[i].1),
        forall|i: int| 0 <= i < d.len() ==> !k.contains_key(#[trigger] d[i].1),
    ensures
        first_round(k, q, p, d) matches Some(kd) ==> kd.0 == k && kd.1.len() == d.len() + q.len()
            && forall|i: int| 0 <= i < kd.1.len() ==> !k.contains_key(#[trigger] kd.1[i].1),
    decreases q.len(),
{
    if q.len() > 0 {
        let n = q.last().0;
        let t = q.last().1;
        assert(!k.contains_key(q[q.len() - 1].1));
        if !p.contains(n) {
            let d2 = d.push((n, t));
            assert forall|i: int| 0 <= i < d2.len() implies !k.contains_key(#[trigger] d2[i].1) by {
                if i < d.len() {
                    assert(d2[i] == d[i]);
                }
            }
            assert forall|i: int| 0 <= i < q.drop_last().len() implies !k.contains_key(
                #[trigger] q.drop_last()[i].1,
            ) by {
                assert(q.drop_last()[i] == q[i]);
            }
            lemma_first_round_missing(k, q.drop_last(), p.push(n), d2);
        }
    }
}

/// Tasks that only extend one another cannot be resolved: where the queue is
/// not empty and no base it names was registered by the first pass, as for
/// `A` extending `B` and `B` extending `A`, resolution fails rather than loop.
pub proof fn lemma_unresolvable_cycle(entries: Seq<(Seq<char>, EntryClass)>)
    requires
        first_pass(entries) matches Some(kq) && kq.1.len() > 0 && forall|i: int|
            0 <= i < kq.1.len() ==> !kq.0.contains_key(#[trigger] kq.1[i].1),
    ensures
        resolved(entries) is None,
{
    let kq = first_pass(entries)->Some_0;
    lemma_first_round_missing(kq.0, kq.1, seq![], seq![]);
    match first_round(kq.0, kq.1, seq![], seq![]) {
        Some(kd) => {
            assert(!kq.0.contains_key(kd.1[0].1));
        },
        None => {},
    }
}

/// Extending a task with a description that sets only the working directory
/// gives a task that materializes to the base's arguments, shell and
/// environment entries, in the new working directory.
pub proof fn lemma_extend_cwd_only(
    base: CommandBuilder,
    desc: ExtendedCommandDescription,
    ext: CommandBuilder,
    variables: Option<&VarMap>,
    host: &Host,
    from_base: Command,
    from_ext: Command,
)
    requires
        extends_with(ext, base, desc),
        desc.cwd is Some,
        desc.args is None,
        desc.shell is None,
        desc.hidden is None,
        desc.depends is None,
        desc.variables is None,
        desc.environments is None,
        desc.description is None,
        materializes(base, variables, host, from_base),
        materializes(ext, variables, host, from_ext),
    ensures
        from_ext.args.deep_view() == from_base.args.deep_view(),
        from_ext.shell@ == from_base.shell@,
        from_ext.environments.pairs() == from_base.environments.pairs(),
        opt_view(from_ext.cwd) == opt_view(desc.cwd),
{
    assert(ext.args.deep_view() =~= base.args.deep_view());
    assert(ext.variables.pairs() == base.variables.pairs());
    assert(merged_vars(&ext.variables, variables) == merged_vars(&base.variables, variables));
    assert forall|i: int| 0 <= i < from_ext.args@.len() implies from_ext.args@[i]@ == from_base.args@[i]@ by {
        if i > 0 {
            let j = i - 1;
            assert(ext.args@[j]@ == ext.args.deep_view()[j]);
            assert(base.args@[j]@ == base.args.deep_view()[j]);
            assert(from_ext.args@[j + 1]@ == substitute(ext.args@[j]@, merged_vars(&ext.variables, variables)));
            assert(from_base.args@[j + 1]@ == substitute(base.args@[j]@, merged_vars(&base.variables, variables)));
        }
    }
    assert(from_ext.args.deep_view() =~= from_base.args.deep_view());
}

} // verus!
