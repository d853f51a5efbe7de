use vstd::prelude::*;
use crate::point::Point;
use crate::stroke::Stroke;

verus! {

/// An undoable action, holding a full copy of the stroke it concerns.
#[derive(Debug)]
pub enum Command {
    AddStroke(Stroke),
    RemoveStroke(Stroke),
}

/// The mathematical value of a `Command`.
pub enum CommandModel {
    Add(Seq<Point>),
    Remove(Seq<Point>),
}

impl View for Command {
    type V = CommandModel;

    open spec fn view(&self) -> CommandModel {
        match self {
            Command::AddStroke(s) => CommandModel::Add(s@),
            Command::RemoveStroke(s) => CommandModel::Remove(s@),
        }
    }
}

pub open spec fn commands_view(cs: Seq<Command>) -> Seq<CommandModel> {
    cs.map_values(|c: Command| c@)
}

/// The undo and redo history.
#[derive(Debug)]
pub struct CommandStack {
    undo_stack: Vec<Command>,
    redo_stack: Vec<Command>,
}

proof fn lemma_push_view(cs: Seq<Command>, c: Command)
    ensures
        commands_view(cs.push(c)) == commands_view(cs).push(c@),
{
    assert(commands_view(cs.push(c)) =~= commands_view(cs).push(c@));
}

proof fn lemma_pop_view(cs: Seq<Command>)
    requires
        cs.len() > 0,
    ensures
        commands_view(cs.drop_last()) == commands_view(cs).drop_last(),
        commands_view(cs).last() == cs.last()@,
{
    assert(commands_view(cs.drop_last()) =~= commands_view(cs).drop_last());
}

impl CommandStack {
    /// The commands that undo takes, the next one last.
    pub closed spec fn undo_view(&self) -> Seq<CommandModel> {
        commands_view(self.undo_stack@)
    }

    /// The commands that redo takes, the next one last.
    pub closed spec fn redo_view(&self) -> Seq<CommandModel> {
        commands_view(self.redo_stack@)
    }

    pub fn new() -> (c: CommandStack)
        ensures
            c.undo_view() == Seq::<CommandModel>::empty(),
            c.redo_view() == Seq::<CommandModel>::empty(),
    {
        let c = CommandStack { undo_stack: Vec::new(), redo_stack: Vec::new() };
        assert(c.undo_view() =~= Seq::<CommandModel>::empty());
        assert(c.redo_view() =~= Seq::<CommandModel>::empty());
        c
    }

    pub fn clear(&mut self)
        ensures
            final(self).undo_view() == Seq::<CommandModel>::empty(),
            final(self).redo_view() == Seq::<CommandModel>::empty(),
    {
        self.undo_stack = Vec::new();
        self.redo_stack = Vec::new();
        assert(self.undo_view() =~= Seq::<CommandModel>::empty());
        assert(self.redo_view() =~= Seq::<CommandModel>::empty());
    }

    pub fn push_undo(&mut self, comm: Command)
        ensures
            final(self).undo_view() == old(self).undo_view().push(comm@),
            final(self).redo_view() == old(self).redo_view(),
    {
        proof {
            lemma_push_view(self.undo_stack@, comm);
        }
        self.undo_stack.push(comm);
    }

    pub fn push_redo(&mut self, comm: Command)
        ensures
            final(self).redo_view() == old(self).redo_view().push(comm@),
            final(self).undo_view() == old(self).undo_view(),
    {
        proof {
            lemma_push_view(self.redo_stack@, comm);
        }
        self.redo_stack.push(comm);
    }

    pub fn pop_undo(&mut self) -> (c: Option<Command>)
        ensures
            old(self).undo_view().len() == 0 ==> c.is_none() && final(self).undo_view() == old(
                self,
            ).undo_view(),
            old(self).undo_view().len() > 0 ==> c.is_some() && c.unwrap()@ == old(
                self,
            ).undo_view().last() && final(self).undo_view() == old(self).undo_view().drop_last(),
            final(self).redo_view() == old(self).redo_view(),
    {
        if self.undo_stack.len() > 0 {
            proof {
                lemma_pop_view(self.undo_stack@);
            }
        }
        self.undo_stack.pop()
    }

    pub fn pop_redo(&mut self) -> (c: Option<Command>)
        ensures
            old(self).redo_view().len() == 0 ==> c.is_none() && final(self).redo_view() == old(
                self,
            ).redo_view(),
            old(self).redo_view().len() > 0 ==> c.is_some() && c.unwrap()@ == old(
                self,
            ).redo_view().last() && final(self).redo_view() == old(self).redo_view().drop_last(),
            final(self).undo_view() == old(self).undo_view(),
    {
        if self.redo_stack.len() > 0 {
            proof {
                lemma_pop_view(self.redo_stack@);
            }
        }
        self.redo_stack.pop()
    }
}

} // verus!
