//! The committee store: for every task the latest committee that was
//! committed, replaced as a whole and only by a committee of a later epoch.

use crate::committee::{committee_views, Committee, CommitteeView};
use crate::ident::Identifier;
use vstd::prelude::*;

verus! {

/// The first place at or after `from` that holds a committee of `task`, or
/// the length of `s` when there is none.
pub open spec fn index_from(s: Seq<CommitteeView>, task: Identifier, from: int) -> int
    decreases s.len() - from,
{
    if from >= s.len() {
        s.len() as int
    } else if s[from].task == task {
        from
    } else {
        index_from(s, task, from + 1)
    }
}

/// The place of the committee of `task` in `s`, or the length of `s`.
pub open spec fn index_of(s: Seq<CommitteeView>, task: Identifier) -> int {
    index_from(s, task, 0)
}

/// The committee that `s` holds for `task`, if any.
pub open spec fn latest(s: Seq<CommitteeView>, task: Identifier) -> Option<CommitteeView> {
    if index_of(s, task) < s.len() {
        Some(s[index_of(s, task)])
    } else {
        None
    }
}

/// No two committees of `s` belong to the same task.
pub open spec fn tasks_distinct(s: Seq<CommitteeView>) -> bool {
    forall|i: int, j: int| 0 <= i < j < s.len() ==> s[i].task != s[j].task
}

/// A store in state `s` applies the write of `c` under `task`: the
/// committee belongs to the task, and the store holds nothing for the task
/// or a committee of an earlier epoch.
pub open spec fn accepts(s: Seq<CommitteeView>, task: Identifier, c: CommitteeView) -> bool {
    c.task == task && match latest(s, task) {
        None => true,
        Some(held) => held.epoch < c.epoch,
    }
}

/// The state of the store after the write of `c` under `task`. A write
/// that is not applied changes nothing.
pub open spec fn after_put(s: Seq<CommitteeView>, task: Identifier, c: CommitteeView) -> Seq<
    CommitteeView,
> {
    if !accepts(s, task, c) {
        s
    } else if index_of(s, task) < s.len() {
        s.update(index_of(s, task), c)
    } else {
        s.push(c)
    }
}

/// What `index_from` finds.
pub proof fn lemma_index_from(s: Seq<CommitteeView>, task: Identifier, from: int)
    requires
        0 <= from <= s.len(),
    ensures
        from <= index_from(s, task, from) <= s.len(),
        forall|k: int| from <= k < index_from(s, task, from) ==> (#[trigger] s[k]).task != task,
        index_from(s, task, from) < s.len() ==> s[index_from(s, task, from)].task == task,
    decreases s.len() - from,
{
    if from < s.len() && s[from].task != task {
        lemma_index_from(s, task, from + 1);
    }
}

/// Where tasks are distinct, the committee of a task sits at its index.
pub proof fn lemma_index_unique(s: Seq<CommitteeView>, i: int)
    requires
        tasks_distinct(s),
        0 <= i < s.len(),
    ensures
        index_of(s, s[i].task) == i,
        latest(s, s[i].task) == Some(s[i]),
{
    lemma_index_from(s, s[i].task, 0);
}

/// The per-task table of latest committees.
pub struct CommitteeStore {
    entries: Vec<Committee>,
}

impl View for CommitteeStore {
    type V = Seq<CommitteeView>;

    /// The committees held, in the order in which their tasks first got one.
    closed spec fn view(&self) -> Seq<CommitteeView> {
        committee_views(self.entries@)
    }
}

impl CommitteeStore {
    /// The store holds at most one committee per task.
    pub open spec fn wf(&self) -> bool {
        tasks_distinct(self@)
    }

    /// A store that holds nothing.
    pub fn new() -> (store: CommitteeStore)
        ensures
            store@ == Seq::<CommitteeView>::empty(),
            store.wf(),
    {
        let store = CommitteeStore { entries: Vec::new() };
        assert(store@ =~= Seq::<CommitteeView>::empty());
        store
    }

    /// Number of tasks that have a committee.
    pub fn len(&self) -> (n: usize)
        ensures
            n == self@.len(),
    {
        self.entries.len()
    }

    /// The committee at place `i`, in the order in which tasks first got one.
    pub fn committee_at(&self, i: usize) -> (c: &Committee)
        requires
            i < self@.len(),
        ensures
            c@ == self@[i as int],
    {
        &self.entries[i]
    }

    fn find(&self, task: &Identifier) -> (i: usize)
        ensures
            i == index_of(self@, *task),
            i <= self@.len(),
    {
        let mut i: usize = 0;
        while i < self.entries.len() && self.entries[i].task != *task
            invariant
                i <= self.entries@.len(),
                index_of(self@, *task) == index_from(self@, *task, i as int),
            decreases self.entries@.len() - i,
        {
            i += 1;
        }
        i
    }

    /// The current committee of `task`, or `None` when the task never got one.
    pub fn get(&self, task: &Identifier) -> (r: Option<&Committee>)
        ensures
            match r {
                Some(c) => latest(self@, *task) == Some(c@),
                None => latest(self@, *task) is None,
            },
    {
        let i: usize = self.find(task);
        if i < self.entries.len() {
            Some(&self.entries[i])
        } else {
            None
        }
    }

    /// Commits `committee` as the current committee of `task`. The write is
    /// applied, and `true` returned, when the committee belongs to `task`
    /// and its epoch is later than that of the committee held for the task,
    /// or none is held. Any other write is stale: it changes nothing and
    /// `false` is returned.
    pub fn put(&mut self, task: &Identifier, committee: Committee) -> (applied: bool)
        requires
            old(self).wf(),
        ensures
            final(self).wf(),
            applied == accepts(old(self)@, *task, committee@),
            final(self)@ == after_put(old(self)@, *task, committee@),
    {
        if committee.task != *task {
            return false;
        }
        let i: usize = self.find(task);
        proof {
            lemma_index_from(self@, *task, 0);
        }
        if i < self.entries.len() {
            if self.entries[i].epoch < committee.epoch {
                let ghost before = self.entries@;
                self.entries[i] = committee;
                assert(self@ =~= committee_views(before).update(i as int, committee@));
                true
            } else {
                false
            }
        } else {
            let ghost before = self.entries@;
            self.entries.push(committee);
            assert(self@ =~= committee_views(before).push(committee@));
            true
        }
    }
}

/// A write keeps the tasks of the store distinct.
pub proof fn lemma_put_keeps_distinct(s: Seq<CommitteeView>, task: Identifier, c: CommitteeView)
    requires
        tasks_distinct(s),
    ensures
        tasks_distinct(after_put(s, task, c)),
{
    lemma_index_from(s, task, 0);
}

/// What a store holds after a write: the written committee for its task when
/// the write was applied, and what it held before for everything else.
pub proof fn lemma_put_latest(
    s: Seq<CommitteeView>,
    task: Identifier,
    c: CommitteeView,
    other: Identifier,
)
    requires
        tasks_distinct(s),
    ensures
        latest(after_put(s, task, c), other) == if accepts(s, task, c) && other == task {
            Some(c)
        } else {
            latest(s, other)
        },
{
    let t = after_put(s, task, c);
    lemma_put_keeps_distinct(s, task, c);
    lemma_index_from(s, task, 0);
    lemma_index_from(s, other, 0);
    lemma_index_from(t, other, 0);
    if accepts(s, task, c) {
        let i = index_of(s, task);
        if other == task {
            if i < s.len() {
                lemma_index_unique(t, i);
            } else {
                lemma_index_unique(t, s.len() as int);
            }
        } else {
            let k = index_of(s, other);
            if k < s.len() {
                assert(t[k] == s[k]);
                lemma_index_unique(t, k);
            } else {
                let m = index_of(t, other);
                if m < t.len() {
                    assert(t[m].task == other);
                    assert(m < s.len() ==> s[m].task == other);
                }
            }
        }
    }
}

/// Monotonicity of one write: the epoch held for a task never goes down, a
/// write that is applied raises the epoch of its task, and a write whose
/// epoch is not later than the epoch held changes nothing.
pub proof fn lemma_put_monotonic(
    s: Seq<CommitteeView>,
    task: Identifier,
    c: CommitteeView,
    other: Identifier,
)
    requires
        tasks_distinct(s),
    ensures
        latest(s, other) matches Some(held) ==> (latest(after_put(s, task, c), other) matches Some(
            now,
        ) && held.epoch <= now.epoch),
        accepts(s, task, c) ==> (latest(s, task) matches Some(held) ==> held.epoch < c.epoch),
        (latest(s, task) matches Some(held) && c.epoch <= held.epoch) ==> after_put(s, task, c)
            == s,
{
    lemma_put_latest(s, task, c, other);
}

/// The epochs of the writes for `task` that a store in state `s` applies,
/// when the writes of `puts` reach it one after the other.
pub open spec fn accepted_epochs(
    s: Seq<CommitteeView>,
    puts: Seq<(Identifier, CommitteeView)>,
    task: Identifier,
) -> Seq<u64>
    decreases puts.len(),
{
    if puts.len() == 0 {
        Seq::empty()
    } else {
        let (t, c) = puts[0];
        let rest = accepted_epochs(after_put(s, t, c), puts.skip(1), task);
        if t == task && accepts(s, t, c) {
            seq![c.epoch] + rest
        } else {
            rest
        }
    }
}

/// Monotonicity of the store: whatever writes arrive in whatever order, the
/// epochs that the store accepts for one task are strictly increasing, and
/// all of them are later than the epoch that the store held at the start.
pub proof fn lemma_accepted_epochs_increase(
    s: Seq<CommitteeView>,
    puts: Seq<(Identifier, CommitteeView)>,
    task: Identifier,
)
    requires
        tasks_distinct(s),
    ensures
        forall|i: int, j: int|
            0 <= i < j < accepted_epochs(s, puts, task).len() ==> accepted_epochs(s, puts, task)[i]
                < accepted_epochs(s, puts, task)[j],
        forall|i: int|
            0 <= i < accepted_epochs(s, puts, task).len() ==> (latest(s, task) matches Some(held)
                ==> held.epoch < #[trigger] accepted_epochs(s, puts, task)[i]),
    decreases puts.len(),
{
    if puts.len() > 0 {
        let (t, c) = puts[0];
        let next = after_put(s, t, c);
        let rest = accepted_epochs(next, puts.skip(1), task);
        lemma_put_keeps_distinct(s, t, c);
        lemma_put_latest(s, t, c, task);
        lemma_accepted_epochs_increase(next, puts.skip(1), task);
        let all = accepted_epochs(s, puts, task);
        if t == task && accepts(s, t, c) {
            assert(all == seq![c.epoch] + rest);
            assert forall|i: int, j: int| 0 <= i < j < all.len() implies all[i] < all[j] by {
                assert(all[j] == rest[j - 1]);
                if i > 0 {
                    assert(all[i] == rest[i - 1]);
                }
            }
            assert forall|i: int| 0 <= i < all.len() implies (latest(s, task) matches Some(held)
                ==> held.epoch < #[trigger] all[i]) by {
                if i > 0 {
                    assert(all[i] == rest[i - 1]);
                }
            }
        } else {
            assert(all == rest);
        }
    }
}

} // verus!
