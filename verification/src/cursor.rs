//! Per-task epoch cursors: for every task the last epoch that was handed on.

use crate::ident::Identifier;
use vstd::prelude::*;

verus! {

/// One entry of a cursor: a task and the last epoch seen for it.
#[derive(Clone, Copy, Debug, PartialEq, Eq, Structural)]
pub struct CursorEntry {
    pub task: Identifier,
    pub epoch: u64,
}

/// The first place at or after `from` that holds an entry of `task`, or the
/// length of `entries` when there is none.
pub open spec fn entry_from(entries: Seq<CursorEntry>, task: Identifier, from: int) -> int
    decreases entries.len() - from,
{
    if from >= entries.len() {
        entries.len() as int
    } else if entries[from].task == task {
        from
    } else {
        entry_from(entries, task, from + 1)
    }
}

/// The map that a list of entries stands for: a task is mapped to the epoch
/// of its first entry.
pub open spec fn entries_map(entries: Seq<CursorEntry>) -> Map<Identifier, u64> {
    Map::new(
        |task: Identifier| entry_from(entries, task, 0) < entries.len(),
        |task: Identifier| entries[entry_from(entries, task, 0)].epoch,
    )
}

proof fn lemma_entry_from(entries: Seq<CursorEntry>, task: Identifier, from: int)
    requires
        0 <= from <= entries.len(),
    ensures
        from <= entry_from(entries, task, from) <= entries.len(),
        forall|k: int|
            from <= k < entry_from(entries, task, from) ==> (#[trigger] entries[k]).task != task,
        entry_from(entries, task, from) < entries.len() ==> entries[entry_from(
            entries,
            task,
            from,
        )].task == task,
    decreases entries.len() - from,
{
    if from < entries.len() && entries[from].task != task {
        lemma_entry_from(entries, task, from + 1);
    }
}

/// The first entry of a task is the only place `p` that holds the task and
/// has no entry of the task before it.
proof fn lemma_entry_is(entries: Seq<CursorEntry>, task: Identifier, p: int)
    requires
        0 <= p <= entries.len(),
        forall|k: int| 0 <= k < p ==> (#[trigger] entries[k]).task != task,
        p < entries.len() ==> entries[p].task == task,
    ensures
        entry_from(entries, task, 0) == p,
{
    lemma_entry_from(entries, task, 0);
}

/// Moving the epoch of the first entry of `task`, or adding an entry when
/// there is none, maps `task` to `epoch` and leaves every other task alone.
proof fn lemma_entries_set(entries: Seq<CursorEntry>, task: Identifier, epoch: u64)
    ensures
        ({
            let p = entry_from(entries, task, 0);
            let e = CursorEntry { task, epoch };
            let after = if p < entries.len() {
                entries.update(p, e)
            } else {
                entries.push(e)
            };
            entries_map(after) == entries_map(entries).insert(task, epoch)
        }),
{
    let p = entry_from(entries, task, 0);
    let e = CursorEntry { task, epoch };
    let after = if p < entries.len() {
        entries.update(p, e)
    } else {
        entries.push(e)
    };
    lemma_entry_from(entries, task, 0);
    let before_map = entries_map(entries);
    let after_map = entries_map(after);
    let want = before_map.insert(task, epoch);
    assert forall|t: Identifier| #[trigger]
        after_map.dom().contains(t) == want.dom().contains(t) && (want.dom().contains(t)
            ==> after_map[t] == want[t]) by {
        lemma_entry_from(entries, t, 0);
        let q = entry_from(entries, t, 0);
        if t == task {
            lemma_entry_is(after, t, p);
            assert(after[p] == e);
        } else if q < entries.len() {
            lemma_entry_is(after, t, q);
            assert(after[q] == entries[q]);
        } else {
            lemma_entry_is(after, t, after.len() as int);
        }
    }
    assert(entries_map(after) =~= entries_map(entries).insert(task, epoch));
}

/// A map from tasks to epochs.
pub struct EpochCursor {
    entries: Vec<CursorEntry>,
}

impl View for EpochCursor {
    type V = Map<Identifier, u64>;

    closed spec fn view(&self) -> Map<Identifier, u64> {
        entries_map(self.entries@)
    }
}

impl EpochCursor {
    /// A cursor that has seen no task.
    pub fn new() -> (cursor: EpochCursor)
        ensures
            cursor@ == Map::<Identifier, u64>::empty(),
    {
        let cursor = EpochCursor { entries: Vec::new() };
        assert(cursor@ =~= Map::<Identifier, u64>::empty());
        cursor
    }

    fn find(&self, task: &Identifier) -> (i: usize)
        ensures
            i == entry_from(self.entries@, *task, 0),
            i <= self.entries@.len(),
    {
        let mut i: usize = 0;
        while i < self.entries.len() && self.entries[i].task != *task
            invariant
                i <= self.entries@.len(),
                entry_from(self.entries@, *task, 0) == entry_from(self.entries@, *task, i as int),
            decreases self.entries@.len() - i,
        {
            i += 1;
        }
        i
    }

    /// The epoch recorded for `task`, if any.
    pub fn get(&self, task: &Identifier) -> (r: Option<u64>)
        ensures
            r == (if self@.contains_key(*task) {
                Some(self@[*task])
            } else {
                None
            }),
    {
        let i: usize = self.find(task);
        if i < self.entries.len() {
            Some(self.entries[i].epoch)
        } else {
            None
        }
    }

    /// Records `epoch` for `task`.
    pub fn set(&mut self, task: Identifier, epoch: u64)
        ensures
            final(self)@ == old(self)@.insert(task, epoch),
    {
        let i: usize = self.find(&task);
        proof {
            lemma_entries_set(self.entries@, task, epoch);
        }
        if i < self.entries.len() {
            self.entries[i] = CursorEntry { task, epoch };
        } else {
            self.entries.push(CursorEntry { task, epoch });
        }
    }

    /// Forgets every task.
    pub fn clear(&mut self)
        ensures
            final(self)@ == Map::<Identifier, u64>::empty(),
    {
        self.entries = Vec::new();
        assert(self@ =~= Map::<Identifier, u64>::empty());
    }
}

} // verus!
