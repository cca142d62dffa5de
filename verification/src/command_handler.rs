//! A registry of named commands, each a closure that yields a `Result`.

use vstd::prelude::*;
use crate::text::str_eq;

verus! {

/// A command: the name it answers to and the closure it runs.
pub struct Cmd<F> {
    pub name: String,
    pub invocation: F,
}

impl<T, E, F: FnMut() -> Result<T, E>> Cmd<F> {
    /// Makes a command named `invoke_str` that runs `invocation`.
    pub fn new(invoke_str: &str, invocation: F) -> (c: Cmd<F>)
        ensures
            c.name@ == invoke_str@,
            c.invocation == invocation,
    {
        Cmd { name: invoke_str.to_owned(), invocation }
    }

    /// Runs the command's closure once and returns what it returned. The
    /// name stays; the closure may have changed its own captured state.
    pub fn invoke(&mut self) -> (r: Result<T, E>)
        requires
            call_requires(old(self).invocation, ()),
        ensures
            call_ensures(old(self).invocation, (), r),
            final(self).name == old(self).name,
    {
        (self.invocation)()
    }
}

/// The registry: commands in the order they were added.
pub struct Cmdr<F> {
    cmds: Vec<Cmd<F>>,
}

impl<F> View for Cmdr<F> {
    type V = Seq<(Seq<char>, F)>;

    /// Each command as its name and its closure, in the order of `add`.
    closed spec fn view(&self) -> Seq<(Seq<char>, F)> {
        self.cmds@.map_values(|c: Cmd<F>| (c.name@, c.invocation))
    }
}

/// Whether some entry answers to `name`.
pub open spec fn has_command<F>(entries: Seq<(Seq<char>, F)>, name: Seq<char>) -> bool {
    exists|i: int| 0 <= i < entries.len() && #[trigger] entries[i].0 == name
}

/// Whether entry `i` is the earliest one that answers to `name`.
pub open spec fn is_first_named<F>(entries: Seq<(Seq<char>, F)>, name: Seq<char>, i: int) -> bool {
    &&& 0 <= i < entries.len()
    &&& entries[i].0 == name
    &&& forall|j: int| 0 <= j < i ==> #[trigger] entries[j].0 != name
}

/// Whether every closure in the registry may be called with no arguments.
pub open spec fn all_callable<T, E, F: FnMut() -> Result<T, E>>(entries: Seq<(Seq<char>, F)>) -> bool {
    forall|i: int| 0 <= i < entries.len() ==> call_requires(#[trigger] entries[i].1, ())
}

impl<F> Cmdr<F> {
    /// An empty registry.
    pub fn new() -> (c: Cmdr<F>)
        ensures
            c@ == Seq::<(Seq<char>, F)>::empty(),
    {
        Cmdr { cmds: Vec::new() }
    }
}

impl<T, E, F: FnMut() -> Result<T, E>> Cmdr<F> {
    /// Registers `cmd` under `name`, after every command already there.
    pub fn add(&mut self, name: &str, cmd: F)
        ensures
            final(self)@ == old(self)@.push((name@, cmd)),
    {
        self.cmds.push(Cmd::new(name, cmd));
        assert(self@ =~= old(self)@.push((name@, cmd)));
    }

    /// Runs the earliest command named `cmd_name` and returns its result,
    /// or `None` when no command has that name. Every name stays, and every
    /// closure but the one that ran (which may have changed its own captured
    /// state).
    pub fn invoke(&mut self, cmd_name: &str) -> (r: Option<Result<T, E>>)
        requires
            all_callable(old(self)@),
        ensures
            final(self)@.len() == old(self)@.len(),
            forall|j: int| 0 <= j < old(self)@.len() ==> #[trigger] final(self)@[j].0 == old(self)@[j].0,
            r is None ==> final(self)@ == old(self)@,
            r is None <==> !has_command(old(self)@, cmd_name@),
            r matches Some(out) ==> exists|i: int|
                is_first_named(old(self)@, cmd_name@, i) && call_ensures(old(self)@[i].1, (), out)
                    && forall|j: int| 0 <= j < old(self)@.len() && j != i ==> #[trigger] final(self)@[j]
                    == old(self)@[j],
    {
        let n = self.cmds.len();
        let mut i: usize = 0;
        while i < n
            invariant
                n == self.cmds.len(),
                i <= n,
                self@ == old(self)@,
                all_callable(old(self)@),
                forall|j: int| 0 <= j < i ==> #[trigger] old(self)@[j].0 != cmd_name@,
            decreases n - i,
        {
            assert(old(self)@[i as int] == (self.cmds@[i as int].name@, self.cmds@[i as int].invocation));
            assert(call_requires(old(self)@[i as int].1, ()));
            if str_eq(self.cmds[i].name.as_str(), cmd_name) {
                let ghost before = self.cmds@;
                let out = self.cmds[i].invoke();
                assert(self.cmds@.len() == before.len());
                assert(forall|j: int| 0 <= j < before.len() && j != i ==> self.cmds@[j] == before[j]);
                assert(self.cmds@[i as int].name == before[i as int].name);
                assert(forall|j: int| 0 <= j < before.len() && j != i ==> #[trigger] self@[j] == old(self)@[j]);
                assert(self@[i as int].0 == old(self)@[i as int].0);
                assert(is_first_named(old(self)@, cmd_name@, i as int));
                return Some(out);
            }
            i = i + 1;
        }
        assert forall|j: int| 0 <= j < old(self)@.len() implies #[trigger] old(self)@[j].0 != cmd_name@ by {}
        None
    }
}

/// A name just added is always found: `invoke` after `add(name, _)` answers
/// `Some`.
pub proof fn lemma_added_name_is_found<F>(entries: Seq<(Seq<char>, F)>, name: Seq<char>, cmd: F)
    ensures
        has_command(entries.push((name, cmd)), name),
{
    let grown = entries.push((name, cmd));
    assert(grown[entries.len() as int].0 == name);
}

/// Adding a command never changes which command answers a name that was
/// already registered: the earliest registration wins.
pub proof fn lemma_add_keeps_first<F>(
    entries: Seq<(Seq<char>, F)>,
    name: Seq<char>,
    i: int,
    other: (Seq<char>, F),
)
    requires
        is_first_named(entries, name, i),
    ensures
        is_first_named(entries.push(other), name, i),
{
    assert forall|j: int| 0 <= j < i implies #[trigger] entries.push(other)[j].0 != name by {
        assert(entries.push(other)[j] == entries[j]);
    }
}

/// A name that nothing answers to stays unanswered when a command with
/// another name is added: `invoke` keeps answering `None`.
pub proof fn lemma_unknown_name_stays_unknown<F>(
    entries: Seq<(Seq<char>, F)>,
    name: Seq<char>,
    other: (Seq<char>, F),
)
    requires
        !has_command(entries, name),
        other.0 != name,
    ensures
        !has_command(entries.push(other), name),
{
    assert forall|i: int| 0 <= i < entries.push(other).len() implies #[trigger] entries.push(other)[i].0 != name by {
        if i < entries.len() {
            assert(entries.push(other)[i] == entries[i]);
        }
    }
}

/// At most one entry is the earliest one answering a name, so `invoke` runs
/// exactly one command.
pub proof fn lemma_first_named_unique<F>(entries: Seq<(Seq<char>, F)>, name: Seq<char>, i: int, j: int)
    requires
        is_first_named(entries, name, i),
        is_first_named(entries, name, j),
    ensures
        i == j,
{
    if i < j {
        assert(entries[i].0 != name);
    } else if j < i {
        assert(entries[j].0 != name);
    }
}

} // verus!
