//! Committees: the assignment of nodes to the roles of one task at one epoch.

use crate::ident::Identifier;
use crate::node::Role;
use crate::task::RoleSlot;
use vstd::prelude::*;

verus! {

/// The nodes chosen for one slot of a shape.
#[derive(Debug, PartialEq, Eq)]
pub struct RoleAssignment {
    /// The slot that was filled.
    pub slot: RoleSlot,
    /// The chosen nodes, best ranked first.
    pub nodes: Vec<Identifier>,
    /// Set when fewer nodes than the slot requires could be found.
    pub under_quorum: bool,
}

/// Mathematical value of a [`RoleAssignment`].
pub struct AssignmentView {
    pub slot: RoleSlot,
    pub nodes: Seq<Identifier>,
    pub under_quorum: bool,
}

impl View for RoleAssignment {
    type V = AssignmentView;

    open spec fn view(&self) -> AssignmentView {
        AssignmentView { slot: self.slot, nodes: self.nodes@, under_quorum: self.under_quorum }
    }
}

impl Clone for RoleAssignment {
    fn clone(&self) -> (r: Self)
        ensures
            r@ == self@,
    {
        let mut nodes: Vec<Identifier> = Vec::new();
        let mut i: usize = 0;
        while i < self.nodes.len()
            invariant
                i <= self.nodes@.len(),
                nodes@ == self.nodes@.take(i as int),
            decreases self.nodes@.len() - i,
        {
            nodes.push(self.nodes[i]);
            assert(self.nodes@.take(i + 1) =~= self.nodes@.take(i as int).push(self.nodes@[i as int]));
            i += 1;
        }
        assert(self.nodes@.take(i as int) =~= self.nodes@);
        RoleAssignment { slot: self.slot, nodes, under_quorum: self.under_quorum }
    }
}

/// The values of a sequence of assignments.
pub open spec fn assignment_views(groups: Seq<RoleAssignment>) -> Seq<AssignmentView> {
    Seq::new(groups.len(), |i: int| groups[i]@)
}

/// The committee of one task at one epoch.
#[derive(Debug, PartialEq, Eq)]
pub struct Committee {
    /// The task that the committee belongs to.
    pub task: Identifier,
    /// Version of the committee; it grows with every committee of the task.
    pub epoch: u64,
    /// One assignment per slot of the task's shape, in the order of the shape.
    pub groups: Vec<RoleAssignment>,
}

/// Mathematical value of a [`Committee`].
pub struct CommitteeView {
    pub task: Identifier,
    pub epoch: u64,
    pub groups: Seq<AssignmentView>,
}

impl View for Committee {
    type V = CommitteeView;

    open spec fn view(&self) -> CommitteeView {
        CommitteeView {
            task: self.task,
            epoch: self.epoch,
            groups: assignment_views(self.groups@),
        }
    }
}

/// The values of a sequence of committees.
pub open spec fn committee_views(committees: Seq<Committee>) -> Seq<CommitteeView> {
    Seq::new(committees.len(), |i: int| committees[i]@)
}

impl Clone for Committee {
    fn clone(&self) -> (r: Self)
        ensures
            r@ == self@,
    {
        let mut groups: Vec<RoleAssignment> = Vec::new();
        let mut i: usize = 0;
        while i < self.groups.len()
            invariant
                i <= self.groups@.len(),
                assignment_views(groups@) == assignment_views(self.groups@).take(i as int),
            decreases self.groups@.len() - i,
        {
            let g = self.groups[i].clone();
            let ghost before = groups@;
            groups.push(g);
            assert(assignment_views(groups@) =~= assignment_views(before).push(g@));
            assert(assignment_views(self.groups@).take(i + 1) =~= assignment_views(
                self.groups@,
            ).take(i as int).push(self.groups@[i as int]@));
            i += 1;
        }
        assert(assignment_views(self.groups@).take(i as int) =~= assignment_views(self.groups@));
        Committee { task: self.task, epoch: self.epoch, groups }
    }
}

impl CommitteeView {
    /// No node is assigned to any role.
    pub open spec fn is_empty(self) -> bool {
        forall|j: int| 0 <= j < self.groups.len() ==> (#[trigger] self.groups[j]).nodes.len() == 0
    }

    /// Some slot for `role` could not be filled.
    pub open spec fn is_under_quorum(self, role: Role) -> bool {
        exists|j: int|
            0 <= j < self.groups.len() && (#[trigger] self.groups[j]).slot.role == role
                && self.groups[j].under_quorum
    }

    /// Every slot has as many nodes as it requires.
    pub open spec fn is_complete(self) -> bool {
        forall|j: int| 0 <= j < self.groups.len() ==> !(#[trigger] self.groups[j]).under_quorum
    }
}

impl Committee {
    /// A committee of `task` at `epoch` that assigns nobody.
    pub fn empty(task: Identifier, epoch: u64) -> (c: Committee)
        ensures
            c@ == (CommitteeView { task, epoch, groups: Seq::empty() }),
    {
        let c = Committee { task, epoch, groups: Vec::new() };
        assert(c@.groups =~= Seq::empty());
        c
    }

    /// Decides whether no node is assigned to any role.
    pub fn is_empty(&self) -> (r: bool)
        ensures
            r == self@.is_empty(),
    {
        let mut j: usize = 0;
        while j < self.groups.len()
            invariant
                j <= self.groups@.len(),
                forall|k: int| 0 <= k < j ==> (#[trigger] self@.groups[k]).nodes.len() == 0,
            decreases self.groups@.len() - j,
        {
            if self.groups[j].nodes.len() != 0 {
                assert(self@.groups[j as int].nodes.len() != 0);
                return false;
            }
            j += 1;
        }
        true
    }

    /// Decides whether some slot for `role` could not be filled.
    pub fn is_under_quorum(&self, role: Role) -> (r: bool)
        ensures
            r == self@.is_under_quorum(role),
    {
        let mut j: usize = 0;
        while j < self.groups.len()
            invariant
                j <= self.groups@.len(),
                forall|k: int|
                    0 <= k < j ==> !((#[trigger] self@.groups[k]).slot.role == role
                        && self@.groups[k].under_quorum),
            decreases self.groups@.len() - j,
        {
            if self.groups[j].slot.role == role && self.groups[j].under_quorum {
                assert(self@.groups[j as int].slot.role == role && self@.groups[j as int].under_quorum);
                return true;
            }
            j += 1;
        }
        false
    }

    /// Decides whether every slot has as many nodes as it requires.
    pub fn is_complete(&self) -> (r: bool)
        ensures
            r == self@.is_complete(),
    {
        let mut j: usize = 0;
        while j < self.groups.len()
            invariant
                j <= self.groups@.len(),
                forall|k: int| 0 <= k < j ==> !(#[trigger] self@.groups[k]).under_quorum,
            decreases self.groups@.len() - j,
        {
            if self.groups[j].under_quorum {
                assert(self@.groups[j as int].under_quorum);
                return false;
            }
            j += 1;
        }
        true
    }
}

} // verus!
