//! Tasks and the shape of the committee that each of them asks for.

use crate::ident::Identifier;
use crate::node::Role;
use vstd::prelude::*;

verus! {

/// One entry of a committee shape: a role and how many nodes it asks for.
#[derive(Clone, Copy, Debug, PartialEq, Eq, Structural)]
pub struct RoleSlot {
    pub role: Role,
    /// Number of nodes that the role needs.
    pub required: usize,
    /// An exclusive slot shares no node with any other slot of the shape.
    pub exclusive: bool,
}

impl RoleSlot {
    /// An exclusive slot for `required` nodes in `role`.
    pub fn new(role: Role, required: usize) -> (slot: RoleSlot)
        ensures
            slot == (RoleSlot { role, required, exclusive: true }),
    {
        RoleSlot { role, required, exclusive: true }
    }

    /// A slot whose nodes may also sit in other shared slots.
    pub fn shared(role: Role, required: usize) -> (slot: RoleSlot)
        ensures
            slot == (RoleSlot { role, required, exclusive: false }),
    {
        RoleSlot { role, required, exclusive: false }
    }

    /// Two slots are in conflict when either of them is exclusive: no node
    /// may then sit in both.
    pub open spec fn conflicts_with(self, other: RoleSlot) -> bool {
        self.exclusive || other.exclusive
    }
}

/// A unit of work that needs a committee.
#[derive(Debug, PartialEq, Eq)]
pub struct Task {
    pub id: Identifier,
    /// The roles of the committee, in the order in which they are filled.
    pub shape: Vec<RoleSlot>,
}

/// Mathematical value of a [`Task`].
pub struct TaskView {
    pub id: Identifier,
    pub shape: Seq<RoleSlot>,
}

impl View for Task {
    type V = TaskView;

    open spec fn view(&self) -> TaskView {
        TaskView { id: self.id, shape: self.shape@ }
    }
}

/// The values of a sequence of tasks.
pub open spec fn task_views(tasks: Seq<Task>) -> Seq<TaskView> {
    Seq::new(tasks.len(), |i: int| tasks[i]@)
}

impl Clone for Task {
    fn clone(&self) -> (task: Self)
        ensures
            task@ == self@,
    {
        let mut shape: Vec<RoleSlot> = Vec::new();
        let mut i: usize = 0;
        while i < self.shape.len()
            invariant
                i <= self.shape@.len(),
                shape@ == self.shape@.take(i as int),
            decreases self.shape@.len() - i,
        {
            shape.push(self.shape[i]);
            assert(self.shape@.take(i + 1) =~= self.shape@.take(i as int).push(self.shape@[i as int]));
            i += 1;
        }
        assert(self.shape@.take(i as int) =~= self.shape@);
        Task { id: self.id, shape }
    }
}

impl Task {
    /// A task with an empty shape.
    pub fn new(id: Identifier) -> (task: Task)
        ensures
            task@ == (TaskView { id, shape: Seq::empty() }),
    {
        Task { id, shape: Vec::new() }
    }

    /// The same task with one more slot at the end of its shape.
    pub fn with_slot(self, slot: RoleSlot) -> (task: Task)
        ensures
            task@ == (TaskView { id: self.id, shape: self.shape@.push(slot) }),
    {
        let mut shape = self.shape;
        shape.push(slot);
        Task { id: self.id, shape }
    }
}

} // verus!
