//! What is known of the commands and environments that a document uses.

use vstd::prelude::*;

use crate::text::str_eq;

verus! {

/// How an argument is delimited.
#[derive(Clone, Copy, Debug, PartialEq, Eq, Structural)]
pub enum ArgKind {
    Brace,
    Bracket,
}

/// What an argument holds.
#[derive(Clone, Copy, Debug, PartialEq, Eq, Structural)]
pub enum ContentKind {
    /// Anything: its layout is left alone.
    Opaque,
    /// Running text.
    Prose,
    /// Tokens that mean the same on one line.
    TokenList,
    /// Keys and values, with commas between them.
    Keyval,
}

/// Which mode an argument is read in.
#[derive(Clone, Copy, Debug, PartialEq, Eq, Structural)]
pub enum ArgumentDomain {
    Text,
    Math,
}

/// Where a citation stands in its sentence.
#[derive(Clone, Copy, Debug, PartialEq, Eq, Structural)]
pub enum CitationPlacement {
    /// Behind the sentence.
    Postpositive,
    /// Behind the sentence or in the next one.
    Ambiguous,
    /// In the sentence, as a part of it.
    Textual,
}

/// One declared argument.
#[derive(Clone, Copy, Debug, PartialEq, Eq, Structural)]
pub struct ArgSpec {
    pub kind: ArgKind,
    pub required: bool,
    pub content: ContentKind,
    pub domain: ArgumentDomain,
}

/// What is known of a command.
pub struct CommandSig {
    pub name: String,
    pub args: Vec<ArgSpec>,
    /// It stands in running text.
    pub inline: bool,
    /// It stands on a line of its own.
    pub block: bool,
    /// It draws a rule between table rows.
    pub rule: bool,
    /// It opens a section.
    pub sectioning: bool,
    pub citation: Option<CitationPlacement>,
}

/// What is known of an environment.
pub struct EnvSig {
    pub name: String,
    pub args: Vec<ArgSpec>,
    /// Its body is rows of cells.
    pub align: bool,
    /// Its body is math.
    pub math: bool,
    /// Its body is items.
    pub list: bool,
    /// Its body stands at the margin of the environment.
    pub no_indent: bool,
    /// Its body is statements that end in semicolons.
    pub statement_body: bool,
}

/// The commands and environments that something is known of. Where a name occurs twice, its
/// first entry counts.
pub struct Signatures {
    pub commands: Vec<CommandSig>,
    pub environments: Vec<EnvSig>,
}

/// The position of the first command of that name from `i` on.
pub open spec fn command_index(list: Seq<CommandSig>, name: Seq<char>, i: int) -> Option<int>
    decreases list.len() - i,
{
    if i < 0 || i >= list.len() {
        None
    } else if list[i].name@ == name {
        Some(i)
    } else {
        command_index(list, name, i + 1)
    }
}

/// The position of the first environment of that name from `i` on.
pub open spec fn environment_index(list: Seq<EnvSig>, name: Seq<char>, i: int) -> Option<int>
    decreases list.len() - i,
{
    if i < 0 || i >= list.len() {
        None
    } else if list[i].name@ == name {
        Some(i)
    } else {
        environment_index(list, name, i + 1)
    }
}

impl Signatures {
    /// Nothing is known.
    pub fn empty() -> (r: Signatures)
        ensures
            r.commands@.len() == 0,
            r.environments@.len() == 0,
    {
        Signatures { commands: Vec::new(), environments: Vec::new() }
    }

    /// What is known of the command of that name.
    pub open spec fn of_command(&self, name: Seq<char>) -> Option<CommandSig> {
        match command_index(self.commands@, name, 0) {
            Some(i) => Some(self.commands@[i]),
            None => None,
        }
    }

    /// What is known of the environment of that name.
    pub open spec fn of_environment(&self, name: Seq<char>) -> Option<EnvSig> {
        match environment_index(self.environments@, name, 0) {
            Some(i) => Some(self.environments@[i]),
            None => None,
        }
    }

    /// What is known of the command of that name.
    pub fn command(&self, name: &str) -> (r: Option<&CommandSig>)
        ensures
            r is Some <==> self.of_command(name@) is Some,
            r matches Some(sig) ==> Some(*sig) == self.of_command(name@),
    {
        let mut i: usize = 0;
        while i < self.commands.len()
            invariant
                i <= self.commands@.len(),
                command_index(self.commands@, name@, i as int) == command_index(self.commands@, name@, 0),
            decreases self.commands@.len() - i,
        {
            if str_eq(self.commands[i].name.as_str(), name) {
                return Some(&self.commands[i]);
            }
            i = i + 1;
        }
        None
    }

    /// What is known of the environment of that name.
    pub fn environment(&self, name: &str) -> (r: Option<&EnvSig>)
        ensures
            r is Some <==> self.of_environment(name@) is Some,
            r matches Some(sig) ==> Some(*sig) == self.of_environment(name@),
    {
        let mut i: usize = 0;
        while i < self.environments.len()
            invariant
                i <= self.environments@.len(),
                environment_index(self.environments@, name@, i as int) == environment_index(
                    self.environments@,
                    name@,
                    0,
                ),
            decreases self.environments@.len() - i,
        {
            if str_eq(self.environments[i].name.as_str(), name) {
                return Some(&self.environments[i]);
            }
            i = i + 1;
        }
        None
    }
}

/// What a document's lowering knows: its own definitions, before those that come from elsewhere,
/// before those of the standard commands.
#[derive(Clone, Copy)]
pub struct Scope<'a> {
    /// What the document itself defines.
    pub own: &'a Signatures,
    /// What the packages and declarations of its project define.
    pub external: Option<&'a Signatures>,
    /// What is known of every document.
    pub builtin: &'a Signatures,
}

impl<'a> Scope<'a> {
    /// What the definitions from elsewhere say of the command of that name.
    pub open spec fn external_command(&self, name: Seq<char>) -> Option<CommandSig> {
        match self.external {
            Some(external) => external.of_command(name),
            None => None,
        }
    }

    /// What the definitions from elsewhere say of the environment of that name.
    pub open spec fn external_environment(&self, name: Seq<char>) -> Option<EnvSig> {
        match self.external {
            Some(external) => external.of_environment(name),
            None => None,
        }
    }

    /// What is known of the command of that name.
    pub open spec fn of_command(&self, name: Seq<char>) -> Option<CommandSig> {
        if self.own.of_command(name) is Some {
            self.own.of_command(name)
        } else if self.external_command(name) is Some {
            self.external_command(name)
        } else {
            self.builtin.of_command(name)
        }
    }

    /// What is known of the environment of that name.
    pub open spec fn of_environment(&self, name: Seq<char>) -> Option<EnvSig> {
        if self.own.of_environment(name) is Some {
            self.own.of_environment(name)
        } else if self.external_environment(name) is Some {
            self.external_environment(name)
        } else {
            self.builtin.of_environment(name)
        }
    }

    /// What is known of the command of that name.
    pub fn command(&self, name: &str) -> (r: Option<&'a CommandSig>)
        ensures
            r is Some <==> self.of_command(name@) is Some,
            r matches Some(sig) ==> Some(*sig) == self.of_command(name@),
    {
        let own = self.own.command(name);
        if own.is_some() {
            return own;
        }
        if let Some(external) = self.external {
            let found = external.command(name);
            if found.is_some() {
                return found;
            }
        }
        self.builtin.command(name)
    }

    /// What is known of the environment of that name.
    pub fn environment(&self, name: &str) -> (r: Option<&'a EnvSig>)
        ensures
            r is Some <==> self.of_environment(name@) is Some,
            r matches Some(sig) ==> Some(*sig) == self.of_environment(name@),
    {
        let own = self.own.environment(name);
        if own.is_some() {
            return own;
        }
        if let Some(external) = self.external {
            let found = external.environment(name);
            if found.is_some() {
                return found;
            }
        }
        self.builtin.environment(name)
    }
}

/// What a project's configuration declares.
pub struct ResolvedDeclarations {
    pub commands: Vec<CommandSig>,
    pub environments: Vec<EnvSig>,
}

/// The scope that the declarations of a project make up alone.
pub fn declared_scope(declared: ResolvedDeclarations) -> (r: Signatures)
    ensures
        r.commands == declared.commands,
        r.environments == declared.environments,
{
    Signatures { commands: declared.commands, environments: declared.environments }
}

/// A document's own definition of a command or environment counts, whatever the rest of the
/// scope says of that name.
pub proof fn own_definitions_win(scope: Scope, name: Seq<char>)
    ensures
        scope.own.of_command(name) is Some ==> scope.of_command(name) == scope.own.of_command(name),
        scope.own.of_environment(name) is Some ==> scope.of_environment(name) == scope.own.of_environment(name),
{
}

/// A scope with nothing external in it says what the document and the standard commands say.
pub proof fn empty_scope_adds_nothing(scope: Scope, name: Seq<char>)
    requires
        scope.external matches Some(external) ==> external.commands@.len() == 0 && external.environments@.len() == 0,
    ensures
        scope.of_command(name) == (if scope.own.of_command(name) is Some {
            scope.own.of_command(name)
        } else {
            scope.builtin.of_command(name)
        }),
        scope.of_environment(name) == (if scope.own.of_environment(name) is Some {
            scope.own.of_environment(name)
        } else {
            scope.builtin.of_environment(name)
        }),
{
}

proof fn lemma_command_index(list: Seq<CommandSig>, name: Seq<char>, k: int, i: int)
    requires
        0 <= k <= i < list.len(),
        list[i].name@ == name,
        forall|j: int| k <= j < i ==> (#[trigger] list[j]).name@ != name,
    ensures
        command_index(list, name, k) == Some(i),
    decreases i - k,
{
    if k < i {
        assert(list[k].name@ != name);
        lemma_command_index(list, name, k + 1, i);
    }
}

proof fn lemma_no_command(list: Seq<CommandSig>, name: Seq<char>, k: int)
    requires
        0 <= k <= list.len(),
        forall|j: int| k <= j < list.len() ==> (#[trigger] list[j]).name@ != name,
    ensures
        command_index(list, name, k) is None,
    decreases list.len() - k,
{
    if k < list.len() {
        assert(list[k].name@ != name);
        lemma_no_command(list, name, k + 1);
    }
}

proof fn lemma_environment_index(list: Seq<EnvSig>, name: Seq<char>, k: int, i: int)
    requires
        0 <= k <= i < list.len(),
        list[i].name@ == name,
        forall|j: int| k <= j < i ==> (#[trigger] list[j]).name@ != name,
    ensures
        environment_index(list, name, k) == Some(i),
    decreases i - k,
{
    if k < i {
        assert(list[k].name@ != name);
        lemma_environment_index(list, name, k + 1, i);
    }
}

proof fn lemma_no_environment(list: Seq<EnvSig>, name: Seq<char>, k: int)
    requires
        0 <= k <= list.len(),
        forall|j: int| k <= j < list.len() ==> (#[trigger] list[j]).name@ != name,
    ensures
        environment_index(list, name, k) is None,
    decreases list.len() - k,
{
    if k < list.len() {
        assert(list[k].name@ != name);
        lemma_no_environment(list, name, k + 1);
    }
}

/// What is known of a command is what the first entry of its name says, and nothing where no entry
/// has that name.
pub proof fn the_first_command_of_a_name_counts(known: Signatures, name: Seq<char>, i: int)
    ensures
        0 <= i < known.commands@.len() && known.commands@[i].name@ == name && (forall|j: int|
            0 <= j < i ==> (#[trigger] known.commands@[j]).name@ != name) ==> known.of_command(name) == Some(
            known.commands@[i],
        ),
        (forall|j: int| 0 <= j < known.commands@.len() ==> (#[trigger] known.commands@[j]).name@ != name)
            ==> known.of_command(name) is None,
{
    if 0 <= i < known.commands@.len() && known.commands@[i].name@ == name && (forall|j: int|
        0 <= j < i ==> (#[trigger] known.commands@[j]).name@ != name) {
        lemma_command_index(known.commands@, name, 0, i);
    }
    if forall|j: int| 0 <= j < known.commands@.len() ==> (#[trigger] known.commands@[j]).name@ != name {
        lemma_no_command(known.commands@, name, 0);
    }
}

/// What is known of an environment is what the first entry of its name says, and nothing where no
/// entry has that name.
pub proof fn the_first_environment_of_a_name_counts(known: Signatures, name: Seq<char>, i: int)
    ensures
        0 <= i < known.environments@.len() && known.environments@[i].name@ == name && (forall|j: int|
            0 <= j < i ==> (#[trigger] known.environments@[j]).name@ != name) ==> known.of_environment(name) == Some(
            known.environments@[i],
        ),
        (forall|j: int| 0 <= j < known.environments@.len() ==> (#[trigger] known.environments@[j]).name@ != name)
            ==> known.of_environment(name) is None,
{
    if 0 <= i < known.environments@.len() && known.environments@[i].name@ == name && (forall|j: int|
        0 <= j < i ==> (#[trigger] known.environments@[j]).name@ != name) {
        lemma_environment_index(known.environments@, name, 0, i);
    }
    if forall|j: int| 0 <= j < known.environments@.len() ==> (#[trigger] known.environments@[j]).name@ != name {
        lemma_no_environment(known.environments@, name, 0);
    }
}

/// Definitions from elsewhere come behind those of the document and before the standard ones.
pub proof fn definitions_from_elsewhere_come_second(scope: Scope, external: &Signatures, name: Seq<char>)
    requires
        scope.external == Some(external),
    ensures
        scope.own.of_command(name) is None && external.of_command(name) is Some ==> scope.of_command(name)
            == external.of_command(name),
        scope.own.of_command(name) is None && external.of_command(name) is None ==> scope.of_command(name)
            == scope.builtin.of_command(name),
        scope.own.of_environment(name) is None && external.of_environment(name) is Some ==> scope.of_environment(name)
            == external.of_environment(name),
        scope.own.of_environment(name) is None && external.of_environment(name) is None ==> scope.of_environment(name)
            == scope.builtin.of_environment(name),
{
}

} // verus!
