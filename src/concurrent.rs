use vstd::prelude::*;
use crate::vars::{put_all, VarMap};

verus! {

/// A named group of other tasks, with no command of its own.
pub struct ConcurrentBuilder {
    pub name: String,
    pub source: String,
    pub hidden: bool,
    pub commands: Vec<String>,
    pub variables: VarMap,
    pub environments: VarMap,
    pub description: Option<String>,
    pub dependencies: Vec<String>,
}

impl ConcurrentBuilder {
    pub open spec fn wf(&self) -> bool {
        self.variables.wf() && self.environments.wf()
    }

    pub fn new() -> (r: Self)
        ensures
            r.wf(),
            r.name@ == seq!['t', 'a', 's', 'k'],
            r.source@.len() == 0,
            !r.hidden,
            r.commands@.len() == 0,
            r.variables.pairs().len() == 0,
            r.environments.pairs().len() == 0,
            r.description is None,
            r.dependencies@.len() == 0,
    {
        proof {
            reveal_strlit("task");
        }
        ConcurrentBuilder {
            name: String::from_str("task"),
            source: String::new(),
            hidden: false,
            commands: Vec::new(),
            variables: VarMap::new(),
            environments: VarMap::new(),
            description: None,
            dependencies: Vec::new(),
        }
    }

    pub fn with_name(&mut self, name: String) -> (r: &mut Self)
        ensures
            *r == (ConcurrentBuilder { name: name, ..*old(self) }),
            *final(self) == *final(r),
    {
        self.name = name;
        self
    }

    pub fn with_description(&mut self, description: String) -> (r: &mut Self)
        ensures
            *r == (ConcurrentBuilder { description: Some(description), ..*old(self) }),
            *final(self) == *final(r),
    {
        self.description = Some(description);
        self
    }

    pub fn with_source(&mut self, source: String) -> (r: &mut Self)
        ensures
            *r == (ConcurrentBuilder { source: source, ..*old(self) }),
            *final(self) == *final(r),
    {
        self.source = source;
        self
    }

    pub fn with_hidden(&mut self, hidden: bool) -> (r: &mut Self)
        ensures
            *r == (ConcurrentBuilder { hidden: hidden, ..*old(self) }),
            *final(self) == *final(r),
    {
        self.hidden = hidden;
        self
    }

    pub fn with_dependency(&mut self, dependency: String) -> (r: &mut Self)
        ensures
            r.dependencies@ == old(self).dependencies@.push(dependency),
            *r == (ConcurrentBuilder { dependencies: r.dependencies, ..*old(self) }),
            *final(self) == *final(r),
    {
        self.dependencies.push(dependency);
        self
    }

    pub fn with_dependencies(&mut self, dependencies: Vec<String>) -> (r: &mut Self)
        ensures
            r.dependencies@ == old(self).dependencies@ + dependencies@,
            *r == (ConcurrentBuilder { dependencies: r.dependencies, ..*old(self) }),
            *final(self) == *final(r),
    {
        let mut more = dependencies;
        self.dependencies.append(&mut more);
        self
    }

    pub fn with_command(&mut self, command: String) -> (r: &mut Self)
        ensures
            r.commands@ == old(self).commands@.push(command),
            *r == (ConcurrentBuilder { commands: r.commands, ..*old(self) }),
            *final(self) == *final(r),
    {
        self.commands.push(command);
        self
    }

    pub fn with_commands(&mut self, commands: Vec<String>) -> (r: &mut Self)
        ensures
            r.commands@ == old(self).commands@ + commands@,
            *r == (ConcurrentBuilder { commands: r.commands, ..*old(self) }),
            *final(self) == *final(r),
    {
        let mut more = commands;
        self.commands.append(&mut more);
        self
    }

    /// Adds `variables`, which win over the variables already set.
    pub fn with_variables(&mut self, variables: VarMap) -> (r: &mut Self)
        requires
            old(self).variables.wf(),
            variables.wf(),
        ensures
            r.variables.wf(),
            r.variables.pairs() == put_all(old(self).variables.pairs(), variables.pairs()),
            r.variables@ == old(self).variables@.union_prefer_right(variables@),
            *r == (ConcurrentBuilder { variables: r.variables, ..*old(self) }),
            *final(self) == *final(r),
    {
        self.variables.extend(&variables);
        self
    }

    /// Adds `environments`, which win over the entries already set.
    pub fn with_environments(&mut self, environments: VarMap) -> (r: &mut Self)
        requires
            old(self).environments.wf(),
            environments.wf(),
        ensures
            r.environments.wf(),
            r.environments.pairs() == put_all(old(self).environments.pairs(), environments.pairs()),
            r.environments@ == old(self).environments@.union_prefer_right(environments@),
            *r == (ConcurrentBuilder { environments: r.environments, ..*old(self) }),
            *final(self) == *final(r),
    {
        self.environments.extend(&environments);
        self
    }
}

} // verus!
