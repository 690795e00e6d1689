use vstd::prelude::*;
use crate::command::{materializes, Command, CommandBuilder, Host};
use crate::concurrent::ConcurrentBuilder;
use crate::error::Error;
use crate::text::{contains_str, str_eq};
use crate::vars::VarMap;

verus! {

/// An entry of the registry: a task, or a group of tasks.
pub enum CommandImported {
    Command(CommandBuilder),
    Concurrent(ConcurrentBuilder),
}

impl CommandImported {
    pub open spec fn wf(&self) -> bool {
        match self {
            CommandImported::Command(b) => b.wf(),
            CommandImported::Concurrent(c) => c.wf(),
        }
    }

    /// The entry carries `n` as its name.
    pub open spec fn named(&self, n: Seq<char>) -> bool {
        match self {
            CommandImported::Command(b) => b.name@ == n,
            CommandImported::Concurrent(c) => c.name@ == n,
        }
    }

    /// The names visited before this entry: a task's dependencies, a group's members.
    pub open spec fn children(&self) -> Seq<Seq<char>> {
        match self {
            CommandImported::Command(b) => b.dependencies.deep_view(),
            CommandImported::Concurrent(c) => c.commands.deep_view(),
        }
    }
}

/// The names of a sequence of materialized tasks.
pub open spec fn cmd_names(out: Seq<Command>) -> Seq<Seq<char>> {
    Seq::new(out.len(), |i: int| out[i].name@)
}

/// The registry of tasks and groups, each under its own name; `debug` is 0 to
/// run silently, 1 to print a header before each task, 2 to print tasks instead
/// of running them.
pub struct Context {
    pub tasks: Vec<(String, CommandImported)>,
    pub debug: i32,
}

impl Context {
    pub open spec fn names(&self) -> Seq<Seq<char>> {
        Seq::new(self.tasks@.len(), |i: int| self.tasks@[i].0@)
    }

    pub open spec fn wf(&self) -> bool {
        &&& self.names().no_duplicates()
        &&& forall|i: int|
            0 <= i < self.tasks@.len() ==> #[trigger] self.tasks@[i].1.wf()
                && self.tasks@[i].1.named(self.tasks@[i].0@)
    }

    pub open spec fn has(&self, n: Seq<char>) -> bool {
        self.names().contains(n)
    }

    /// The position of `n` in the registry.
    pub open spec fn index_of(&self, n: Seq<char>) -> int {
        choose|i: int| 0 <= i < self.names().len() && self.names()[i] == n
    }

    pub open spec fn entry(&self, n: Seq<char>) -> CommandImported {
        self.tasks@[self.index_of(n)].1
    }

    pub open spec fn view(&self) -> Map<Seq<char>, CommandImported> {
        Map::new(|n: Seq<char>| self.has(n), |n: Seq<char>| self.entry(n))
    }

    pub open spec fn is_task(&self, n: Seq<char>) -> bool {
        self.has(n) && self.entry(n) is Command
    }

    pub open spec fn children(&self, n: Seq<char>) -> Seq<Seq<char>> {
        self.entry(n).children()
    }

    /// `rank` falls along every edge from an entry to a registered child other
    /// than itself: the registry has no cycle of dependencies.
    pub open spec fn ranked(&self, rank: spec_fn(Seq<char>) -> int) -> bool {
        forall|n: Seq<char>, c: Seq<char>|
            self.has(n) && #[trigger] self.children(n).contains(c) && self.has(c) && c != n
                ==> rank(c) < rank(n)
    }

    /// `out` holds each name once, and each of its items is a registered task
    /// materialized with `variables` on `host`.
    pub open spec fn stack_ok(&self, out: Seq<Command>, variables: Option<&VarMap>, host: &Host) -> bool {
        &&& cmd_names(out).no_duplicates()
        &&& forall|i: int|
            0 <= i < out.len() ==> self.is_task(#[trigger] out[i].name@) && materializes(
                self.entry(out[i].name@)->Command_0,
                variables,
                host,
                out[i],
            )
    }

    /// `p` is a walk along the registry: each name is registered and the next
    /// is one of its children.
    pub open spec fn is_walk(&self, p: Seq<Seq<char>>) -> bool {
        &&& p.len() >= 1
        &&& forall|k: int|
            0 <= k < p.len() - 1 ==> self.has(#[trigger] p[k]) && self.children(p[k]).contains(p[k + 1])
    }

    /// `to` is reached from `from` along children.
    pub open spec fn reaches(&self, from: Seq<char>, to: Seq<char>) -> bool {
        exists|p: Seq<Seq<char>>| #[trigger] self.is_walk(p) && p[0] == from && p.last() == to
    }

    proof fn lemma_reaches_step(&self, from: Seq<char>, mid: Seq<char>, to: Seq<char>)
        requires
            self.has(from),
            self.children(from).contains(mid),
            self.reaches(mid, to),
        ensures
            self.reaches(from, to),
    {
        let p = choose|p: Seq<Seq<char>>| #[trigger] self.is_walk(p) && p[0] == mid && p.last() == to;
        let q = seq![from] + p;
        assert forall|k: int| 0 <= k < q.len() - 1 implies self.has(#[trigger] q[k]) && self.children(q[k]).contains(q[k + 1]) by {
            if k > 0 {
                assert(q[k] == p[k - 1]);
                assert(q[k + 1] == p[k]);
            }
        }
        assert(self.is_walk(q));
        assert(q.last() == p.last());
    }

    proof fn lemma_reaches_self(&self, n: Seq<char>)
        ensures
            self.reaches(n, n),
    {
        let p = seq![n];
        assert(self.is_walk(p));
    }

    /// Every registered task among the children of `out[i]`, but itself, comes before it.
    pub open spec fn deps_before(&self, out: Seq<Command>, i: int) -> bool {
        forall|d: Seq<char>|
            #[trigger] self.children(out[i].name@).contains(d) && self.is_task(d) && d
                != out[i].name@ ==> cmd_names(out).subrange(0, i).contains(d)
    }

    /// Every registered task among the children of `out[i]` is in `out` or in `path`.
    pub open spec fn deps_in(&self, out: Seq<Command>, i: int, path: Seq<Seq<char>>) -> bool {
        forall|d: Seq<char>|
            #[trigger] self.children(out[i].name@).contains(d) && self.is_task(d) ==> cmd_names(
                out,
            ).contains(d) || path.contains(d)
    }

    proof fn lemma_entry_at(&self, i: int)
        requires
            self.wf(),
            0 <= i < self.tasks@.len(),
        ensures
            self.has(self.tasks@[i].0@),
            self.entry(self.tasks@[i].0@) == self.tasks@[i].1,
    {
        let n = self.tasks@[i].0@;
        assert(self.names()[i] == n);
        let j = self.index_of(n);
        assert(self.names()[j] == n);
        if j != i {
            assert(self.names()[j] != self.names()[i]);
        }
    }

    proof fn lemma_path_len(&self, path: Seq<Seq<char>>)
        requires
            self.wf(),
            path.no_duplicates(),
            forall|k: int| 0 <= k < path.len() ==> self.has(path[k]),
        ensures
            path.len() <= self.tasks@.len(),
    {
        path.unique_seq_to_set();
        self.names().lemma_cardinality_of_set();
        assert(path.to_set().subset_of(self.names().to_set())) by {
            assert forall|x: Seq<char>| path.to_set().contains(x) implies self.names().to_set().contains(x) by {
                let k = choose|k: int| 0 <= k < path.len() && path[k] == x;
                assert(self.has(path[k]));
            }
        }
        vstd::set_lib::lemma_len_subset(path.to_set(), self.names().to_set());
    }

    pub fn new() -> (r: Self)
        ensures
            r.wf(),
            r@ == Map::<Seq<char>, CommandImported>::empty(),
            r.debug == 0,
    {
        let r = Context { tasks: Vec::new(), debug: 0 };
        assert(r@ =~= Map::<Seq<char>, CommandImported>::empty());
        r
    }

    /// The position of `name` in the registry.
    fn position(&self, name: &str) -> (r: Option<usize>)
        requires
            self.wf(),
        ensures
            r is None ==> !self.has(name@),
            r matches Some(i) ==> i < self.tasks@.len() && self.tasks@[i as int].0@ == name@
                && self.has(name@) && self.entry(name@) == self.tasks@[i as int].1,
    {
        let mut i: usize = 0;
        while i < self.tasks.len()
            invariant
                self.wf(),
                i <= self.tasks@.len(),
                forall|j: int| 0 <= j < i ==> self.tasks@[j].0@ != name@,
            decreases self.tasks@.len() - i,
        {
            if str_eq(self.tasks[i].0.as_str(), name) {
                proof {
                    self.lemma_entry_at(i as int);
                }
                return Some(i);
            }
            i = i + 1;
        }
        proof {
            if self.has(name@) {
                let k = choose|k: int| 0 <= k < self.names().len() && self.names()[k] == name@;
                assert(self.tasks@[k].0@ == name@);
            }
        }
        None
    }

    /// The entry registered under `name`.
    pub fn find(&self, name: &str) -> (r: Option<&CommandImported>)
        requires
            self.wf(),
        ensures
            r is None <==> !self.has(name@),
            r matches Some(e) ==> *e == self.entry(name@),
    {
        match self.position(name) {
            Some(i) => Some(&self.tasks[i].1),
            None => None,
        }
    }

    /// The task registered under `name`; a group or an absent name gives `None`.
    pub fn find_builder(&self, name: &str) -> (r: Option<&CommandBuilder>)
        requires
            self.wf(),
        ensures
            r is Some <==> self.is_task(name@),
            r matches Some(b) ==> *b == self.entry(name@)->Command_0,
    {
        match self.find(name) {
            Some(CommandImported::Command(b)) => Some(b),
            _ => None,
        }
    }

    /// The task registered under `name`, materialized.
    pub fn create_command(&self, name: &str, variables: Option<&VarMap>, host: &Host) -> (r:
        Option<Command>)
        requires
            self.wf(),
            host.source_dirs.wf(),
            variables matches Some(v) ==> v.wf(),
        ensures
            r is Some <==> self.is_task(name@),
            r matches Some(c) ==> materializes(self.entry(name@)->Command_0, variables, host, c),
    {
        match self.position(name) {
            Some(i) => {
                proof {
                    assert(self.tasks@[i as int].1.wf());
                }
                match &self.tasks[i].1 {
                    CommandImported::Command(b) => Some(b.to_command(variables, host)),
                    _ => None,
                }
            },
            None => None,
        }
    }

    /// Registers `item` under `name`, in place of what was there.
    pub fn insert(&mut self, name: String, item: CommandImported)
        requires
            old(self).wf(),
            item.wf(),
            item.named(name@),
        ensures
            final(self).wf(),
            final(self)@ == old(self)@.insert(name@, item),
            final(self).debug == old(self).debug,
    {
        let ghost n = name@;
        let ghost it = item;
        match self.position(name.as_str()) {
            Some(i) => {
                self.tasks.set(i, (name, item));
                assert(self.names() =~= old(self).names().update(i as int, n));
                proof {
                    assert forall|a: int, b: int|
                        0 <= a < b < self.names().len() implies self.names()[a] != self.names()[b] by {
                        assert(old(self).names()[a] != old(self).names()[b]);
                    }
                    assert forall|x: Seq<char>| #![auto] self.has(x) == old(self)@.insert(n, it).contains_key(x) by {
                        if x != n {
                            if self.has(x) {
                                let k = choose|k: int| 0 <= k < self.names().len() && self.names()[k] == x;
                                assert(old(self).names()[k] == x);
                            }
                            if old(self).has(x) {
                                let k = choose|k: int| 0 <= k < old(self).names().len() && old(self).names()[k] == x;
                                assert(self.names()[k] == x);
                            }
                        } else {
                            assert(self.names()[i as int] == n);
                        }
                    }
                    assert forall|x: Seq<char>| #![auto] self.has(x) implies self.entry(x) == old(self)@.insert(n, it)[x] by {
                        let k = choose|k: int| 0 <= k < self.names().len() && self.names()[k] == x;
                        self.lemma_entry_at(k);
                        if x != n {
                            assert(k != i);
                            assert(old(self).tasks@[k] == self.tasks@[k]);
                            old(self).lemma_entry_at(k);
                        } else {
                            assert(self.names()[i as int] == n);
                            self.lemma_entry_at(i as int);
                        }
                    }
                    assert(self@ =~= old(self)@.insert(n, it));
                }
            },
            None => {
                self.tasks.push((name, item));
                assert(self.names() =~= old(self).names().push(n));
                proof {
                    let len = old(self).tasks@.len() as int;
                    assert forall|a: int, b: int|
                        0 <= a < b < self.names().len() implies self.names()[a] != self.names()[b] by {
                        if b == len {
                            assert(old(self).names().contains(self.names()[a]));
                        }
                    }
                    assert forall|x: Seq<char>| #![auto] self.has(x) == old(self)@.insert(n, it).contains_key(x) by {
                        if self.has(x) && x != n {
                            let k = choose|k: int| 0 <= k < self.names().len() && self.names()[k] == x;
                            assert(old(self).names()[k] == x);
                        }
                        if old(self).has(x) {
                            let k = choose|k: int| 0 <= k < old(self).names().len() && old(self).names()[k] == x;
                            assert(self.names()[k] == x);
                        }
                        if x == n {
                            assert(self.names()[len] == n);
                        }
                    }
                    assert forall|x: Seq<char>| #![auto] self.has(x) implies self.entry(x) == old(self)@.insert(n, it)[x] by {
                        let k = choose|k: int| 0 <= k < self.names().len() && self.names()[k] == x;
                        self.lemma_entry_at(k);
                        if x != n {
                            assert(k != len);
                            assert(old(self).tasks@[k] == self.tasks@[k]);
                            old(self).lemma_entry_at(k);
                        } else {
                            assert(self.names()[len] == n);
                            self.lemma_entry_at(len);
                        }
                    }
                    assert(self@ =~= old(self)@.insert(n, it));
                }
            },
        }
    }

    /// Registers every entry of `context`, which wins on a shared name.
    pub fn extend(&mut self, context: Context)
        requires
            old(self).wf(),
            context.wf(),
        ensures
            final(self).wf(),
            final(self)@ == old(self)@.union_prefer_right(context@),
            final(self).debug == old(self).debug,
    {
        let ghost o = context;
        let mut items = context.tasks;
        while items.len() > 0
            invariant
                self.wf(),
                o.wf(),
                self.debug == old(self).debug,
                items@.len() <= o.tasks@.len(),
                items@ == o.tasks@.subrange(0, items@.len() as int),
                forall|x: Seq<char>| #![auto]
                    self.has(x) <==> (old(self).has(x) || exists|k: int|
                        items@.len() <= k < o.tasks@.len() && o.tasks@[k].0@ == x),
                forall|x: Seq<char>| #![auto]
                    (exists|k: int| items@.len() <= k < o.tasks@.len() && o.tasks@[k].0@ == x)
                        ==> self.entry(x) == o.entry(x),
                forall|x: Seq<char>| #![auto]
                    old(self).has(x) && !(exists|k: int|
                        items@.len() <= k < o.tasks@.len() && o.tasks@[k].0@ == x) ==> self.entry(x)
                        == old(self).entry(x),
            decreases items@.len(),
        {
            let ghost before = *self;
            let ghost m = items@.len() - 1;
            let (name, item) = items.pop().unwrap();
            proof {
                assert(o.tasks@[m] == (name, item));
                assert(o.tasks@[m].1.wf());
                o.lemma_entry_at(m);
            }
            self.insert(name, item);
            proof {
                assert forall|x: Seq<char>| #![auto]
                    self.has(x) <==> (old(self).has(x) || exists|k: int|
                        m <= k < o.tasks@.len() && o.tasks@[k].0@ == x) by {
                    assert(self@.contains_key(x) == before@.insert(name@, item).contains_key(x));
                    if x == name@ {
                        assert(o.tasks@[m].0@ == x);
                    }
                    if exists|k: int| m <= k < o.tasks@.len() && o.tasks@[k].0@ == x {
                        let k = choose|k: int| m <= k < o.tasks@.len() && o.tasks@[k].0@ == x;
                        if k != m {
                            assert(m + 1 <= k);
                        }
                    }
                }
                assert forall|x: Seq<char>| #![auto]
                    (exists|k: int| m <= k < o.tasks@.len() && o.tasks@[k].0@ == x) implies self.entry(x)
                        == o.entry(x) by {
                    assert(self@.contains_key(x));
                    assert(self@[x] == before@.insert(name@, item)[x]);
                    if x != name@ {
                        let k = choose|k: int| m <= k < o.tasks@.len() && o.tasks@[k].0@ == x;
                        assert(k != m);
                    }
                }
                assert forall|x: Seq<char>| #![auto]
                    old(self).has(x) && !(exists|k: int| m <= k < o.tasks@.len() && o.tasks@[k].0@ == x)
                        implies self.entry(x) == old(self).entry(x) by {
                    assert(o.tasks@[m].0@ == name@);
                    assert(x != name@);
                    assert(self@.contains_key(x));
                    assert(self@[x] == before@.insert(name@, item)[x]);
                }
            }
        }
        proof {
            assert forall|x: Seq<char>| #![auto] o.has(x) <==> exists|k: int|
                0 <= k < o.tasks@.len() && o.tasks@[k].0@ == x by {
                if o.has(x) {
                    let k = choose|k: int| 0 <= k < o.names().len() && o.names()[k] == x;
                    assert(o.tasks@[k].0@ == x);
                }
                if exists|k: int| 0 <= k < o.tasks@.len() && o.tasks@[k].0@ == x {
                    let k = choose|k: int| 0 <= k < o.tasks@.len() && o.tasks@[k].0@ == x;
                    assert(o.names()[k] == x);
                }
            }
            assert(self@ =~= old(self)@.union_prefer_right(o@));
        }
    }

    /// Whether a task named `name` is in `out`.
    fn emitted(out: &Vec<Command>, name: &str) -> (r: bool)
        ensures
            r == cmd_names(out@).contains(name@),
    {
        let mut i: usize = 0;
        while i < out.len()
            invariant
                i <= out@.len(),
                forall|j: int| 0 <= j < i ==> out@[j].name@ != name@,
            decreases out@.len() - i,
        {
            if str_eq(out[i].name.as_str(), name) {
                assert(cmd_names(out@)[i as int] == name@);
                return true;
            }
            i = i + 1;
        }
        proof {
            if cmd_names(out@).contains(name@) {
                let k = choose|k: int| 0 <= k < cmd_names(out@).len() && cmd_names(out@)[k] == name@;
                assert(out@[k].name@ == name@);
            }
        }
        false
    }

    /// Emits the tasks that `name` needs, then `name` itself if it is a task;
    /// `path` holds the names being visited, which are not entered again.
    fn visit(
        &self,
        name: &String,
        path: &mut Vec<String>,
        out: &mut Vec<Command>,
        variables: Option<&VarMap>,
        host: &Host,
    )
        requires
            self.wf(),
            host.source_dirs.wf(),
            variables matches Some(v) ==> v.wf(),
            self.has(name@),
            !old(path).deep_view().contains(name@),
            old(path).deep_view().no_duplicates(),
            forall|k: int| 0 <= k < old(path)@.len() ==> self.has(#[trigger] old(path).deep_view()[k]),
            self.stack_ok(old(out)@, variables, host),
        ensures
            final(path).deep_view() == old(path).deep_view(),
            old(out)@.len() <= final(out)@.len(),
            final(out)@.subrange(0, old(out)@.len() as int) == old(out)@,
            self.stack_ok(final(out)@, variables, host),
            self.is_task(name@) ==> cmd_names(final(out)@).contains(name@),
            forall|i: int|
                old(out)@.len() <= i < final(out)@.len() ==> self.reaches(name@, #[trigger] final(out)@[i].name@),
            forall|i: int|
                old(out)@.len() <= i < final(out)@.len() ==> #[trigger] self.deps_in(
                    final(out)@,
                    i,
                    old(path).deep_view(),
                ),
            forall|rank: spec_fn(Seq<char>) -> int|
                #[trigger] self.ranked(rank) && (forall|k: int|
                    0 <= k < old(path)@.len() ==> rank(name@) < rank(old(path).deep_view()[k]))
                    ==> forall|i: int|
                    old(out)@.len() <= i < final(out)@.len() ==> #[trigger] self.deps_before(
                    final(out)@,
                    i,
                ),
        decreases self.tasks@.len() - old(path)@.len(),
    {
        let ghost outer = path.deep_view();
        let ghost o0 = out@;
        assert(path@.len() == outer.len());
        let idx = self.position(name.as_str()).unwrap();
        let item = &self.tasks[idx].1;
        path.push(name.clone());
        let ghost inner = path.deep_view();
        assert(inner =~= outer.push(name@));
        assert(path@.len() == inner.len());
        proof {
            assert forall|a: int, b: int| 0 <= a < b < inner.len() implies inner[a] != inner[b] by {
                if b == outer.len() {
                    assert(outer.contains(inner[a]));
                }
            }
            assert forall|k: int| 0 <= k < inner.len() implies self.has(#[trigger] inner[k]) by {
                if k < outer.len() {
                    assert(self.has(outer[k]));
                }
            }
            self.lemma_path_len(inner);
        }
        let children = match item {
            CommandImported::Command(b) => &b.dependencies,
            CommandImported::Concurrent(g) => &g.commands,
        };
        assert(children.deep_view() == self.children(name@));
        let mut j: usize = 0;
        while j < children.len()
            invariant
                self.wf(),
                host.source_dirs.wf(),
                variables matches Some(v) ==> v.wf(),
                self.has(name@),
                children.deep_view() == self.children(name@),
                j <= children@.len(),
                path.deep_view() == inner,
                path@.len() == inner.len(),
                old(path)@.len() == outer.len(),
                inner == outer.push(name@),
                inner.no_duplicates(),
                inner.len() <= self.tasks@.len(),
                forall|k: int| 0 <= k < inner.len() ==> self.has(#[trigger] inner[k]),
                o0.len() <= out@.len(),
                out@.subrange(0, o0.len() as int) == o0,
                self.stack_ok(out@, variables, host),
                forall|k: int|
                    0 <= k < j ==> self.is_task(#[trigger] children.deep_view()[k]) ==> cmd_names(
                        out@,
                    ).contains(children.deep_view()[k]) || inner.contains(children.deep_view()[k]),
                forall|i: int|
                    o0.len() <= i < out@.len() ==> #[trigger] self.deps_in(out@, i, inner),
                forall|i: int|
                    o0.len() <= i < out@.len() ==> self.reaches(name@, #[trigger] out@[i].name@),
                forall|rank: spec_fn(Seq<char>) -> int|
                    #[trigger] self.ranked(rank) && (forall|k: int|
                        0 <= k < outer.len() ==> rank(name@) < rank(outer[k])) ==> (forall|i: int|
                        o0.len() <= i < out@.len() ==> #[trigger] self.deps_before(out@, i)) && (
                    forall|k: int|
                        0 <= k < j ==> self.is_task(#[trigger] children.deep_view()[k])
                            && children.deep_view()[k] != name@ ==> cmd_names(out@).contains(
                            children.deep_view()[k],
                        )),
            decreases children@.len() - j,
        {
            let d = &children[j];
            let ghost dv = d@;
            assert(children.deep_view()[j as int] == dv);
            let ghost out_before = out@;
            if !str_eq(d.as_str(), name.as_str()) && self.position(d.as_str()).is_some()
                && !Self::emitted(out, d.as_str()) && !contains_str(path, d.as_str()) {
                assert(path@.len() == outer.len() + 1);
                self.visit(d, path, out, variables, host);
                proof {
                    assert(self.is_task(dv) ==> cmd_names(out@).contains(dv));
                    assert(self.children(name@).contains(dv));
                    assert forall|i: int|
                        o0.len() <= i < out@.len() implies self.reaches(name@, #[trigger] out@[i].name@) by {
                        if i < out_before.len() {
                            assert(out@[i] == out_before[i]);
                        } else {
                            self.lemma_reaches_step(name@, dv, out@[i].name@);
                        }
                    }
                    assert forall|k: int|
                        0 <= k < j && self.is_task(#[trigger] children.deep_view()[k]) implies cmd_names(
                        out@,
                    ).contains(children.deep_view()[k]) || inner.contains(children.deep_view()[k]) by {
                        let c = children.deep_view()[k];
                        if cmd_names(out_before).contains(c) {
                            let q = choose|q: int| 0 <= q < out_before.len() && cmd_names(out_before)[q] == c;
                            assert(out@[q] == out_before[q]);
                            assert(cmd_names(out@)[q] == c);
                        }
                    }
                    assert forall|i: int|
                        o0.len() <= i < out@.len() implies #[trigger] self.deps_in(out@, i, inner) by {
                        if i < out_before.len() {
                            assert(out@[i] == out_before[i]);
                            assert forall|dd: Seq<char>|
                                #[trigger] self.children(out@[i].name@).contains(dd) && self.is_task(dd)
                                    implies cmd_names(out@).contains(dd) || inner.contains(dd) by {
                                assert(self.deps_in(out_before, i, inner));
                                if cmd_names(out_before).contains(dd) {
                                    let q = choose|q: int| 0 <= q < out_before.len() && cmd_names(out_before)[q] == dd;
                                    assert(out@[q] == out_before[q]);
                                    assert(cmd_names(out@)[q] == dd);
                                }
                            }
                        }
                    }
                    assert forall|rank: spec_fn(Seq<char>) -> int|
                        #[trigger] self.ranked(rank) && (forall|k: int|
                            0 <= k < outer.len() ==> rank(name@) < rank(outer[k])) implies (forall|i: int|
                            o0.len() <= i < out@.len() ==> #[trigger] self.deps_before(out@, i)) && (
                        forall|k: int|
                            0 <= k < j + 1 ==> self.is_task(#[trigger] children.deep_view()[k])
                                && children.deep_view()[k] != name@ ==> cmd_names(out@).contains(
                                children.deep_view()[k],
                            )) by {
                        assert(self.children(name@).contains(dv));
                        assert(rank(dv) < rank(name@));
                        assert forall|k: int| 0 <= k < inner.len() implies rank(dv) < rank(inner[k]) by {
                            if k < outer.len() {
                                assert(rank(name@) < rank(outer[k]));
                            }
                        }
                        assert forall|i: int|
                            o0.len() <= i < out@.len() implies #[trigger] self.deps_before(out@, i) by {
                            if i < out_before.len() {
                                assert(out@[i] == out_before[i]);
                                assert(self.deps_before(out_before, i));
                                assert(cmd_names(out@).subrange(0, i) =~= cmd_names(out_before).subrange(0, i));
                            }
                        }
                        assert forall|k: int|
                            0 <= k < j + 1 && self.is_task(#[trigger] children.deep_view()[k])
                                && children.deep_view()[k] != name@ implies cmd_names(out@).contains(
                                children.deep_view()[k]) by {
                            let c = children.deep_view()[k];
                            if k < j {
                                if inner.contains(c) && !cmd_names(out_before).contains(c) {
                                    let q = choose|q: int| 0 <= q < inner.len() && inner[q] == c;
                                    if q < outer.len() {
                                        assert(self.children(name@).contains(c));
                                        assert(rank(c) < rank(name@));
                                        assert(rank(name@) < rank(outer[q]));
                                    }
                                }
                                if cmd_names(out_before).contains(c) {
                                    let q = choose|q: int| 0 <= q < out_before.len() && cmd_names(out_before)[q] == c;
                                    assert(out@[q] == out_before[q]);
                                    assert(cmd_names(out@)[q] == c);
                                }
                            }
                        }
                    }
                }
            } else {
                proof {
                    assert(inner[outer.len() as int] == name@);
                    if self.is_task(dv) {
                        assert(self.has(dv));
                    }
                    assert(self.is_task(dv) ==> cmd_names(out@).contains(dv) || inner.contains(dv));
                    assert forall|rank: spec_fn(Seq<char>) -> int|
                        #[trigger] self.ranked(rank) && (forall|k: int|
                            0 <= k < outer.len() ==> rank(name@) < rank(outer[k])) implies (
                        forall|k: int|
                            0 <= k < j + 1 ==> self.is_task(#[trigger] children.deep_view()[k])
                                && children.deep_view()[k] != name@ ==> cmd_names(out@).contains(
                                children.deep_view()[k],
                            )) by {
                        if self.is_task(dv) && dv != name@ && inner.contains(dv) && !cmd_names(out@).contains(dv) {
                            let q = choose|q: int| 0 <= q < inner.len() && inner[q] == dv;
                            if q < outer.len() {
                                assert(self.children(name@).contains(dv));
                                assert(rank(dv) < rank(name@));
                                assert(rank(name@) < rank(outer[q]));
                            }
                        }
                    }
                }
            }
            j = j + 1;
        }
        path.pop();
        assert(path.deep_view() =~= outer) by {
            assert forall|k: int| 0 <= k < outer.len() implies path.deep_view()[k] == outer[k] by {
                assert(inner[k] == outer[k]);
            }
        }
        let ghost out_before = out@;
        match item {
            CommandImported::Command(b) => {
                if !Self::emitted(out, name.as_str()) {
                    assert(self.tasks@[idx as int].1.wf());
                    let c = b.to_command(variables, host);
                    out.push(c);
                    proof {
                        let last = out_before.len() as int;
                        assert(cmd_names(out@) =~= cmd_names(out_before).push(name@));
                        assert(out@.subrange(0, o0.len() as int) =~= o0) by {
                            assert(out_before.subrange(0, o0.len() as int) == o0);
                        }
                        assert forall|a: int, bb: int|
                            0 <= a < bb < cmd_names(out@).len() implies cmd_names(out@)[a]
                                != cmd_names(out@)[bb] by {
                            if bb == last {
                                assert(cmd_names(out_before)[a] == cmd_names(out@)[a]);
                                assert(cmd_names(out_before).contains(cmd_names(out@)[a]));
                            } else {
                                assert(cmd_names(out_before)[a] != cmd_names(out_before)[bb]);
                            }
                        }
                        assert forall|i: int| 0 <= i < out@.len() implies self.is_task(#[trigger] out@[i].name@)
                            && materializes(self.entry(out@[i].name@)->Command_0, variables, host, out@[i]) by {
                            if i < last {
                                assert(out@[i] == out_before[i]);
                            }
                        }
                        assert(cmd_names(out@)[last] == name@);
                        assert forall|i: int|
                            o0.len() <= i < out@.len() implies self.reaches(name@, #[trigger] out@[i].name@) by {
                            if i < last {
                                assert(out@[i] == out_before[i]);
                            } else {
                                self.lemma_reaches_self(name@);
                            }
                        }
                        assert forall|i: int|
                            o0.len() <= i < out@.len() implies #[trigger] self.deps_in(out@, i, outer) by {
                            assert forall|dd: Seq<char>|
                                #[trigger] self.children(out@[i].name@).contains(dd) && self.is_task(dd)
                                    implies cmd_names(out@).contains(dd) || outer.contains(dd) by {
                                if i < last {
                                    assert(out@[i] == out_before[i]);
                                    assert(self.deps_in(out_before, i, inner));
                                    if cmd_names(out_before).contains(dd) {
                                        let q = choose|q: int| 0 <= q < out_before.len() && cmd_names(out_before)[q] == dd;
                                        assert(cmd_names(out@)[q] == dd);
                                    }
                                    if dd == name@ {
                                        assert(cmd_names(out@)[last] == dd);
                                    }
                                } else {
                                    let k = choose|k: int| 0 <= k < children.deep_view().len() && children.deep_view()[k] == dd;
                                    if cmd_names(out_before).contains(dd) {
                                        let q = choose|q: int| 0 <= q < out_before.len() && cmd_names(out_before)[q] == dd;
                                        assert(cmd_names(out@)[q] == dd);
                                    }
                                    if dd == name@ {
                                        assert(cmd_names(out@)[last] == dd);
                                    }
                                }
                            }
                        }
                        assert forall|rank: spec_fn(Seq<char>) -> int|
                            #[trigger] self.ranked(rank) && (forall|k: int|
                                0 <= k < outer.len() ==> rank(name@) < rank(outer[k])) implies forall|i: int|
                                o0.len() <= i < out@.len() ==> #[trigger] self.deps_before(out@, i) by {
                            assert forall|i: int|
                                o0.len() <= i < out@.len() implies #[trigger] self.deps_before(out@, i) by {
                                if i < last {
                                    assert(out@[i] == out_before[i]);
                                    assert(self.deps_before(out_before, i));
                                    assert(cmd_names(out@).subrange(0, i) =~= cmd_names(out_before).subrange(0, i));
                                } else {
                                    assert(cmd_names(out@).subrange(0, i) =~= cmd_names(out_before));
                                    assert forall|dd: Seq<char>|
                                        #[trigger] self.children(out@[i].name@).contains(dd) && self.is_task(dd)
                                            && dd != out@[i].name@ implies cmd_names(out@).subrange(0, i).contains(dd) by {
                                        let k = choose|k: int| 0 <= k < children.deep_view().len() && children.deep_view()[k] == dd;
                                    }
                                }
                            }
                        }
                    }
                } else {
                    proof {
                        assert forall|i: int|
                            o0.len() <= i < out@.len() implies #[trigger] self.deps_in(out@, i, outer) by {
                            assert(self.deps_in(out@, i, inner));
                        }
                    }
                }
            },
            CommandImported::Concurrent(_) => {
                proof {
                    assert forall|i: int|
                        o0.len() <= i < out@.len() implies #[trigger] self.deps_in(out@, i, outer) by {
                        assert(self.deps_in(out@, i, inner));
                        assert forall|dd: Seq<char>|
                            #[trigger] self.children(out@[i].name@).contains(dd) && self.is_task(dd)
                                implies cmd_names(out@).contains(dd) || outer.contains(dd) by {
                            if dd == name@ {
                                assert(!self.is_task(dd));
                            }
                        }
                    }
                }
            },
        }
    }

    /// Appends to `tasks` the tasks that `name` needs, each before the tasks
    /// that depend on it, then `name` itself if it is a task. A name already in
    /// `tasks` is not added again; a group adds its members.
    pub fn create_stack(
        &self,
        name: &str,
        tasks: &mut Vec<Command>,
        variables: Option<&VarMap>,
        host: &Host,
    )
        requires
            self.wf(),
            host.source_dirs.wf(),
            variables matches Some(v) ==> v.wf(),
            self.stack_ok(old(tasks)@, variables, host),
        ensures
            old(tasks)@.len() <= final(tasks)@.len(),
            final(tasks)@.subrange(0, old(tasks)@.len() as int) == old(tasks)@,
            self.stack_ok(final(tasks)@, variables, host),
            !self.has(name@) ==> final(tasks)@ == old(tasks)@,
            self.is_task(name@) ==> cmd_names(final(tasks)@).contains(name@),
            forall|i: int|
                old(tasks)@.len() <= i < final(tasks)@.len() ==> self.reaches(name@, #[trigger] final(tasks)@[i].name@),
            forall|i: int|
                old(tasks)@.len() <= i < final(tasks)@.len() ==> #[trigger] self.deps_in(
                    final(tasks)@,
                    i,
                    seq![],
                ),
            forall|rank: spec_fn(Seq<char>) -> int|
                #[trigger] self.ranked(rank) ==> forall|i: int|
                    old(tasks)@.len() <= i < final(tasks)@.len() ==> #[trigger] self.deps_before(
                        final(tasks)@,
                        i,
                    ),
    {
        if self.position(name).is_none() {
            assert(tasks@.subrange(0, tasks@.len() as int) =~= tasks@);
            return;
        }
        let root = String::from_str(name);
        let mut path: Vec<String> = Vec::new();
        assert(path.deep_view() =~= Seq::<Seq<char>>::empty());
        self.visit(&root, &mut path, tasks, variables, host);
        proof {
            assert(path.deep_view() =~= Seq::<Seq<char>>::empty());
            assert forall|rank: spec_fn(Seq<char>) -> int| #[trigger] self.ranked(rank) implies forall|i: int|
                old(tasks)@.len() <= i < tasks@.len() ==> #[trigger] self.deps_before(tasks@, i) by {
                assert(forall|k: int| 0 <= k < 0 ==> rank(name@) < rank(Seq::<Seq<char>>::empty()[k]));
            }
        }
    }

    /// The tasks to run for `name`, in order: every task that one of them
    /// depends on comes first. A name that is not registered is an error.
    pub fn plan(&self, name: &str, variables: Option<&VarMap>, host: &Host) -> (r: Result<
        Vec<Command>,
        Error,
    >)
        requires
            self.wf(),
            host.source_dirs.wf(),
            variables matches Some(v) ==> v.wf(),
        ensures
            r is Err <==> !self.has(name@),
            r matches Err(e) ==> e is Command,
            r matches Ok(v) ==> {
                &&& self.stack_ok(v@, variables, host)
                &&& self.is_task(name@) ==> cmd_names(v@).contains(name@)
                &&& forall|i: int| 0 <= i < v@.len() ==> self.reaches(name@, #[trigger] v@[i].name@)
                &&& forall|i: int| 0 <= i < v@.len() ==> #[trigger] self.deps_in(v@, i, seq![])
                &&& forall|rank: spec_fn(Seq<char>) -> int|
                    #[trigger] self.ranked(rank) ==> forall|i: int|
                        0 <= i < v@.len() ==> #[trigger] self.deps_before(v@, i)
            },
    {
        if self.position(name).is_none() {
            let mut msg = String::from_str("Command \"");
            msg.append(name);
            msg.append("\" not found");
            return Err(Error::Command(msg));
        }
        let mut tasks: Vec<Command> = Vec::new();
        assert(cmd_names(tasks@) =~= Seq::<Seq<char>>::empty());
        self.create_stack(name, &mut tasks, variables, host);
        Ok(tasks)
    }
}

} // verus!
