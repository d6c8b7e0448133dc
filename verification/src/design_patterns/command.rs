//! The command pattern: database migrations that know how to undo themselves, run in
//! order and rolled back in reverse.
use vstd::prelude::*;

verus! {

/// A schema change together with its undo.
pub trait Migration {
    /// What running the change reports.
    spec fn forward(&self) -> Seq<char>;

    /// What undoing the change reports.
    spec fn backward(&self) -> Seq<char>;

    fn execute(&self) -> (r: &str)
        ensures
            r@ == self.forward(),
    ;

    fn rollback(&self) -> (r: &str)
        ensures
            r@ == self.backward(),
    ;
}

/// Creates a table; undone by dropping it.
pub struct CreateTable;

impl Migration for CreateTable {
    open spec fn forward(&self) -> Seq<char> {
        "create table"@
    }

    open spec fn backward(&self) -> Seq<char> {
        "drop table"@
    }

    fn execute(&self) -> (r: &str) {
        "create table"
    }

    fn rollback(&self) -> (r: &str) {
        "drop table"
    }
}

/// Adds a field; undone by removing it.
pub struct AddField;

impl Migration for AddField {
    open spec fn forward(&self) -> Seq<char> {
        "add field"@
    }

    open spec fn backward(&self) -> Seq<char> {
        "remove field"@
    }

    fn execute(&self) -> (r: &str) {
        "add field"
    }

    fn rollback(&self) -> (r: &str) {
        "remove field"
    }
}

/// Either of the two migrations above, so that a schema can hold both kinds.
pub enum Step {
    CreateTable(CreateTable),
    AddField(AddField),
}

impl Migration for Step {
    open spec fn forward(&self) -> Seq<char> {
        match self {
            Step::CreateTable(m) => m.forward(),
            Step::AddField(m) => m.forward(),
        }
    }

    open spec fn backward(&self) -> Seq<char> {
        match self {
            Step::CreateTable(m) => m.backward(),
            Step::AddField(m) => m.backward(),
        }
    }

    fn execute(&self) -> (r: &str) {
        match self {
            Step::CreateTable(m) => m.execute(),
            Step::AddField(m) => m.execute(),
        }
    }

    fn rollback(&self) -> (r: &str) {
        match self {
            Step::CreateTable(m) => m.rollback(),
            Step::AddField(m) => m.rollback(),
        }
    }
}

/// The migrations of a schema, in the order they were added.
pub struct Schema<M: Migration> {
    commands: Vec<M>,
}

impl<M: Migration> Schema<M> {
    /// The reports of running each migration, in order.
    pub closed spec fn forwards(&self) -> Seq<Seq<char>> {
        Seq::new(self.commands@.len(), |i: int| self.commands@[i].forward())
    }

    /// The reports of undoing each migration, in the order they were added.
    pub closed spec fn backwards(&self) -> Seq<Seq<char>> {
        Seq::new(self.commands@.len(), |i: int| self.commands@[i].backward())
    }

    pub fn new() -> (r: Self)
        ensures
            r.forwards() == Seq::<Seq<char>>::empty(),
            r.backwards() == Seq::<Seq<char>>::empty(),
    {
        Schema { commands: Vec::new() }
    }

    /// Adds a migration after the others.
    pub fn add_migration(&mut self, cmd: M)
        ensures
            final(self).forwards() == old(self).forwards().push(cmd.forward()),
            final(self).backwards() == old(self).backwards().push(cmd.backward()),
    {
        let ghost added = cmd;
        self.commands.push(cmd);
        proof {
            assert(self.forwards() =~= old(self).forwards().push(added.forward()));
            assert(self.backwards() =~= old(self).backwards().push(added.backward()));
        }
    }

    /// Runs every migration in order and returns their reports.
    pub fn execute(&self) -> (r: Vec<&str>)
        ensures
            r@.len() == self.forwards().len(),
            forall|i: int| 0 <= i < r@.len() ==> r@[i]@ == self.forwards()[i],
    {
        let mut out: Vec<&str> = Vec::new();
        let mut i: usize = 0;
        while i < self.commands.len()
            invariant
                i <= self.commands@.len(),
                out@.len() == i,
                forall|k: int| 0 <= k < i ==> out@[k]@ == self.forwards()[k],
            decreases self.commands@.len() - i,
        {
            out.push(self.commands[i].execute());
            i = i + 1;
        }
        out
    }

    /// Undoes every migration, the last added first, and returns their reports.
    pub fn rollback(&self) -> (r: Vec<&str>)
        ensures
            r@.len() == self.backwards().len(),
            forall|i: int| 0 <= i < r@.len() ==> r@[i]@ == self.backwards()[self.backwards().len() - 1 - i],
    {
        let mut out: Vec<&str> = Vec::new();
        let mut i: usize = self.commands.len();
        while i > 0
            invariant
                i <= self.commands@.len(),
                out@.len() == self.commands@.len() - i,
                forall|k: int| 0 <= k < out@.len() ==> out@[k]@ == self.backwards()[self.commands@.len() - 1 - k],
            decreases i,
        {
            i = i - 1;
            out.push(self.commands[i].rollback());
        }
        out
    }
}

} // verus!
