//! The scopes that one task belongs to.
//!
//! A list has one optional root scope and a table of at most ten further
//! scopes, each with the number of times it was added. The table lives inline:
//! it never allocates and never grows.

use crate::id::TaskScopeId;
use vstd::prelude::*;

verus! {

const MAX_SCOPES: u8 = 10;

/// The scopes of one task: its root scope, if it has one, and a bounded table
/// of other scopes with their multiplicities.
pub struct TaskScopeList {
    /// The root scope. It is set by `set_root`, once.
    pub root: Option<TaskScopeId>,
    count: u8,
    list: [(TaskScopeId, usize); 10],
}

/// What `set_root` found.
#[derive(Clone, Copy, PartialEq, Eq, Debug, Structural)]
pub enum SetRootResult {
    /// There was no root; the given scope is the root now.
    New,
    /// The given scope already was the root.
    Existing,
    /// Another scope is the root; nothing was changed.
    AlreadyOtherRoot,
}

/// What `try_add` did.
#[derive(Clone, Copy, PartialEq, Eq, Debug, Structural)]
pub enum AddResult {
    /// The scope is the root; the table was not touched.
    Root,
    /// The scope was in the table; its multiplicity went up by one.
    Existing,
    /// The scope entered the table with multiplicity one.
    New,
    /// The table is full and does not hold the scope; nothing was changed.
    Full,
}

/// What `remove` did.
#[derive(Clone, Copy, PartialEq, Eq, Debug, Structural)]
pub enum RemoveResult {
    /// The scope is the root; the table was not touched.
    Root,
    /// The scope is not in the table.
    NoEntry,
    /// The scope's multiplicity went down by one and is still positive.
    Decreased,
    /// The scope's multiplicity reached zero and it left the table.
    Removed,
}

/// How a list holds a scope.
#[derive(Clone, Copy, PartialEq, Eq, Debug, Structural)]
pub enum ContainsResult {
    /// As its root.
    Root,
    /// As an entry of the table.
    Entry,
    /// Not at all.
    NoEntry,
}

/// The table as a sequence of scopes with their multiplicities, in slot order.
pub type Table = Seq<(TaskScopeId, nat)>;

/// Some slot of `t` holds `id`.
pub open spec fn has_entry(t: Table, id: TaskScopeId) -> bool {
    exists|i: int| 0 <= i < t.len() && (#[trigger] t[i]).0 == id
}

/// A slot of `t` that holds `id`, where there is one.
pub open spec fn index_of(t: Table, id: TaskScopeId) -> int {
    choose|i: int| 0 <= i < t.len() && (#[trigger] t[i]).0 == id
}

/// How many times `id` is counted in `t`: zero when no slot holds it.
pub open spec fn multiplicity(t: Table, id: TaskScopeId) -> nat {
    if has_entry(t, id) {
        t[index_of(t, id)].1
    } else {
        0
    }
}

/// A table within its capacity, in which every multiplicity is positive and
/// no scope has two slots.
pub open spec fn table_wf(t: Table) -> bool {
    &&& t.len() <= 10
    &&& forall|i: int| 0 <= i < t.len() ==> (#[trigger] t[i]).1 >= 1
    &&& forall|i: int, j: int| 0 <= i < j < t.len() ==> (#[trigger] t[i]).0 != (#[trigger] t[j]).0
}

/// The scopes of `t` in slot order.
pub open spec fn scope_ids(t: Table) -> Seq<TaskScopeId> {
    Seq::new(t.len(), |i: int| t[i].0)
}

/// The root, if there is one, followed by the scopes of `t` in slot order.
pub open spec fn all_scope_ids(root: Option<TaskScopeId>, t: Table) -> Seq<TaskScopeId> {
    match root {
        Some(r) => seq![r] + scope_ids(t),
        None => scope_ids(t),
    }
}

/// The answer of `set_root(id)` on a list whose root is `root`.
pub open spec fn set_root_outcome(root: Option<TaskScopeId>, id: TaskScopeId) -> SetRootResult {
    match root {
        None => SetRootResult::New,
        Some(r) => if r == id {
            SetRootResult::Existing
        } else {
            SetRootResult::AlreadyOtherRoot
        },
    }
}

/// The root that `set_root(id)` leaves on a list whose root is `root`: a root
/// that is set stays.
pub open spec fn root_after_set(root: Option<TaskScopeId>, id: TaskScopeId) -> Option<TaskScopeId> {
    match root {
        None => Some(id),
        Some(r) => Some(r),
    }
}

/// The answer of `try_add(id)` on a list with root `root` and table `t`.
pub open spec fn add_outcome(root: Option<TaskScopeId>, t: Table, id: TaskScopeId) -> AddResult {
    if root == Some(id) {
        AddResult::Root
    } else if has_entry(t, id) {
        AddResult::Existing
    } else if t.len() >= 10 {
        AddResult::Full
    } else {
        AddResult::New
    }
}

/// The table that `try_add(id)` leaves.
pub open spec fn table_after_add(root: Option<TaskScopeId>, t: Table, id: TaskScopeId) -> Table {
    match add_outcome(root, t, id) {
        AddResult::Root => t,
        AddResult::Full => t,
        AddResult::Existing => t.update(index_of(t, id), (id, t[index_of(t, id)].1 + 1)),
        AddResult::New => t.push((id, 1)),
    }
}

/// The table `t` without the entry of slot `i`: the entry of the last slot
/// takes its place.
pub open spec fn table_without_slot(t: Table, i: int) -> Table {
    t.update(i, t.last()).drop_last()
}

/// The table that `set_root(id)` leaves. A scope that becomes the root gives
/// up the slot that it had.
pub open spec fn table_after_set_root(root: Option<TaskScopeId>, t: Table, id: TaskScopeId) -> Table {
    if root is None && has_entry(t, id) {
        table_without_slot(t, index_of(t, id))
    } else {
        t
    }
}

/// The answer of `remove(id)` on a list with root `root` and table `t`.
pub open spec fn remove_outcome(root: Option<TaskScopeId>, t: Table, id: TaskScopeId) -> RemoveResult {
    if root == Some(id) {
        RemoveResult::Root
    } else if !has_entry(t, id) {
        RemoveResult::NoEntry
    } else if t[index_of(t, id)].1 > 1 {
        RemoveResult::Decreased
    } else {
        RemoveResult::Removed
    }
}

/// The table that `remove(id)` leaves. An entry that leaves has its slot taken
/// by the entry of the last occupied slot.
pub open spec fn table_after_remove(root: Option<TaskScopeId>, t: Table, id: TaskScopeId) -> Table {
    match remove_outcome(root, t, id) {
        RemoveResult::Root => t,
        RemoveResult::NoEntry => t,
        RemoveResult::Decreased => t.update(
            index_of(t, id),
            (id, (t[index_of(t, id)].1 - 1) as nat),
        ),
        RemoveResult::Removed => table_without_slot(t, index_of(t, id)),
    }
}

/// The answer of `contains(id)` on a list with root `root` and table `t`.
pub open spec fn contains_outcome(root: Option<TaskScopeId>, t: Table, id: TaskScopeId) -> ContainsResult {
    if root == Some(id) {
        ContainsResult::Root
    } else if has_entry(t, id) {
        ContainsResult::Entry
    } else {
        ContainsResult::NoEntry
    }
}

/// The root, if there is one, has no slot in the table.
pub open spec fn root_outside_table(root: Option<TaskScopeId>, t: Table) -> bool {
    match root {
        Some(r) => !has_entry(t, r),
        None => true,
    }
}

/// In a well-formed table the slot that holds a scope is unique, and the
/// scope's multiplicity is the one recorded there.
pub proof fn lemma_slot_is_unique(t: Table, id: TaskScopeId, i: int)
    requires
        table_wf(t),
        0 <= i < t.len(),
        t[i].0 == id,
    ensures
        has_entry(t, id),
        index_of(t, id) == i,
        multiplicity(t, id) == t[i].1,
        multiplicity(t, id) >= 1,
{
    let k = index_of(t, id);
    assert(0 <= k < t.len() && t[k].0 == id);
    if k < i {
        assert(t[k].0 != t[i].0);
    } else if i < k {
        assert(t[i].0 != t[k].0);
    }
}


impl TaskScopeList {
    /// The table of the list: its occupied slots in order.
    pub closed spec fn entries(&self) -> Table {
        Seq::new(self.count as nat, |i: int| (self.list@[i].0, self.list@[i].1 as nat))
    }

    /// The root scope of the list: what its field `root` holds.
    pub closed spec fn root_scope(&self) -> Option<TaskScopeId> {
        self.root
    }

    /// The occupied slots lie within the table.
    pub closed spec fn within_capacity(&self) -> bool {
        self.count <= MAX_SCOPES
    }

    /// The list is well formed: its table is, and the root has no slot in it.
    pub open spec fn wf(&self) -> bool {
        &&& self.within_capacity()
        &&& table_wf(self.entries())
        &&& root_outside_table(self.root_scope(), self.entries())
    }

    /// The root scope, if the list has one.
    pub fn root(&self) -> (r: Option<TaskScopeId>)
        ensures
            r == self.root_scope(),
    {
        self.root
    }

    /// The slot that holds `id`, if there is one.
    fn slot_of(&self, id: TaskScopeId) -> (r: Option<u8>)
        requires
            self.within_capacity(),
        ensures
            match r {
                Some(i) => i < self.entries().len() && self.entries()[i as int].0 == id
                    && self.entries()[i as int].1 == self.list@[i as int].1,
                None => !has_entry(self.entries(), id),
            },
    {
        let mut i: u8 = 0;
        while i < self.count
            invariant
                self.within_capacity(),
                i <= self.count,
                forall|j: int| 0 <= j < i ==> (#[trigger] self.entries()[j]).0 != id,
            decreases self.count - i,
        {
            if self.list[i as usize].0 == id {
                assert(self.entries()[i as int].0 == id);
                return Some(i);
            }
            i += 1;
        }
        None
    }

    /// Takes the entry of slot `i` out: the entry of the last occupied slot
    /// takes its place.
    fn take_out(&mut self, i: u8)
        requires
            old(self).within_capacity(),
            i < old(self).entries().len(),
        ensures
            final(self).within_capacity(),
            final(self).root_scope() == old(self).root_scope(),
            final(self).entries() == table_without_slot(old(self).entries(), i as int),
    {
        let last: u8 = self.count - 1;
        let moved = self.list[last as usize];
        self.list[i as usize] = moved;
        self.count = last;
        proof {
            assert(self.entries() =~= table_without_slot(old(self).entries(), i as int));
        }
    }

    /// Makes `id` the root if the list has none, and says what the root was.
    /// The root, once set, is never changed. A scope that becomes the root
    /// gives up the slot that it had in the table: the root is never counted
    /// there.
    pub fn set_root(&mut self, id: TaskScopeId) -> (r: SetRootResult)
        requires
            old(self).wf(),
        ensures
            final(self).wf(),
            r == set_root_outcome(old(self).root_scope(), id),
            final(self).root_scope() == root_after_set(old(self).root_scope(), id),
            final(self).entries() == table_after_set_root(
                old(self).root_scope(),
                old(self).entries(),
                id,
            ),
            !(r is New) ==> *final(self) == *old(self),
    {
        match self.root {
            Some(existing) => {
                if existing == id {
                    SetRootResult::Existing
                } else {
                    SetRootResult::AlreadyOtherRoot
                }
            },
            None => {
                proof {
                    lemma_set_root_counts(None, self.entries(), id, id);
                }
                match self.slot_of(id) {
                    Some(i) => {
                        proof {
                            lemma_slot_is_unique(self.entries(), id, i as int);
                        }
                        self.take_out(i);
                    },
                    None => {},
                }
                self.root = Some(id);
                SetRootResult::New
            },
        }
    }

    /// Counts `id` once more. The root is not counted; a scope that the table
    /// holds has its multiplicity raised; another scope enters the table with
    /// multiplicity one where a slot is free, and is refused with `Full` where
    /// none is.
    pub fn try_add(&mut self, id: TaskScopeId) -> (r: AddResult)
        requires
            old(self).wf(),
            multiplicity(old(self).entries(), id) < usize::MAX,
        ensures
            final(self).wf(),
            final(self).root_scope() == old(self).root_scope(),
            r == add_outcome(old(self).root_scope(), old(self).entries(), id),
            final(self).entries() == table_after_add(old(self).root_scope(), old(self).entries(), id),
            r is Root || r is Full ==> *final(self) == *old(self),
    {
        proof {
            lemma_add_counts(self.root_scope(), self.entries(), id, id);
            lemma_root_stays_outside(self.root_scope(), self.entries(), id);
        }
        match self.root {
            Some(root) => {
                if root == id {
                    return AddResult::Root;
                }
            },
            None => {},
        }
        match self.slot_of(id) {
            Some(i) => {
                proof {
                    lemma_slot_is_unique(self.entries(), id, i as int);
                }
                let edges = self.list[i as usize].1;
                self.list[i as usize] = (id, edges + 1);
                proof {
                    assert(self.entries() =~= table_after_add(
                        old(self).root_scope(),
                        old(self).entries(),
                        id,
                    ));
                }
                AddResult::Existing
            },
            None => {
                if self.count == MAX_SCOPES {
                    return AddResult::Full;
                }
                self.list[self.count as usize] = (id, 1);
                self.count += 1;
                proof {
                    assert(self.entries() =~= table_after_add(
                        old(self).root_scope(),
                        old(self).entries(),
                        id,
                    ));
                }
                AddResult::New
            },
        }
    }

    /// Counts `id` once less. The root is never removed; a scope that the
    /// table does not hold gives `NoEntry`; a multiplicity above one goes down
    /// by one; an entry of multiplicity one leaves the table, and the entry of
    /// the last occupied slot takes its place.
    pub fn remove(&mut self, id: TaskScopeId) -> (r: RemoveResult)
        requires
            old(self).wf(),
        ensures
            final(self).wf(),
            final(self).root_scope() == old(self).root_scope(),
            r == remove_outcome(old(self).root_scope(), old(self).entries(), id),
            final(self).entries() == table_after_remove(old(self).root_scope(), old(self).entries(), id),
            r is Root || r is NoEntry ==> *final(self) == *old(self),
    {
        proof {
            lemma_remove_counts(self.root_scope(), self.entries(), id, id);
            lemma_root_stays_outside(self.root_scope(), self.entries(), id);
        }
        match self.root {
            Some(root) => {
                if root == id {
                    return RemoveResult::Root;
                }
            },
            None => {},
        }
        match self.slot_of(id) {
            Some(i) => {
                proof {
                    lemma_slot_is_unique(self.entries(), id, i as int);
                }
                let edges = self.list[i as usize].1;
                if edges > 1 {
                    self.list[i as usize] = (id, edges - 1);
                    proof {
                        assert(self.entries() =~= table_after_remove(
                            old(self).root_scope(),
                            old(self).entries(),
                            id,
                        ));
                    }
                    RemoveResult::Decreased
                } else {
                    self.take_out(i);
                    RemoveResult::Removed
                }
            },
            None => RemoveResult::NoEntry,
        }
    }

    /// Says whether the list holds `id` as its root, as an entry of the table,
    /// or not at all. The root is looked at first.
    pub fn contains(&self, id: TaskScopeId) -> (r: ContainsResult)
        requires
            self.wf(),
        ensures
            r == contains_outcome(self.root_scope(), self.entries(), id),
    {
        match self.root {
            Some(root) => {
                if root == id {
                    return ContainsResult::Root;
                }
            },
            None => {},
        }
        match self.slot_of(id) {
            Some(_) => ContainsResult::Entry,
            None => ContainsResult::NoEntry,
        }
    }

    /// How many times the table counts `id`: zero for a scope that it does not
    /// hold.
    pub fn multiplicity_of(&self, id: TaskScopeId) -> (n: usize)
        requires
            self.wf(),
        ensures
            n == multiplicity(self.entries(), id),
    {
        match self.slot_of(id) {
            Some(i) => {
                proof {
                    lemma_slot_is_unique(self.entries(), id, i as int);
                }
                self.list[i as usize].1
            },
            None => 0,
        }
    }

    /// Walks over every scope of the list once: the root first, if there is
    /// one, then the table in slot order.
    pub fn iter<'a>(&'a self) -> (r: TaskScopeListIterator<'a>)
        requires
            self.wf(),
        ensures
            r.wf(),
            r.remaining() == all_scope_ids(self.root_scope(), self.entries()),
    {
        let r = TaskScopeListIterator { root: self.root, i: 0, count: self.count, list: &self.list };
        proof {
            assert(r.rest() =~= scope_ids(self.entries()));
        }
        r
    }

    /// Walks over the table in slot order, leaving the root out.
    pub fn iter_non_root<'a>(&'a self) -> (r: TaskScopeListIterator<'a>)
        requires
            self.wf(),
        ensures
            r.wf(),
            r.remaining() == scope_ids(self.entries()),
    {
        let r = TaskScopeListIterator { root: None, i: 0, count: self.count, list: &self.list };
        proof {
            assert(r.rest() =~= scope_ids(self.entries()));
        }
        r
    }
}

impl Clone for TaskScopeList {
    /// A list with the same root and the same table.
    fn clone(&self) -> (r: Self)
        ensures
            r == *self,
    {
        Self { root: self.root, count: self.count, list: self.list }
    }
}

impl Default for TaskScopeList {
    /// A list without a root and with an empty table.
    fn default() -> (r: Self)
        ensures
            r.wf(),
            r.root_scope() is None,
            r.entries() == Seq::<(TaskScopeId, nat)>::empty(),
    {
        let r = Self { root: None, count: 0, list: [(TaskScopeId { id: 0 }, 0); 10] };
        proof {
            assert(r.entries() =~= Seq::<(TaskScopeId, nat)>::empty());
        }
        r
    }
}

/// A walk over the scopes of a list. It borrows the list's table.
pub struct TaskScopeListIterator<'a> {
    root: Option<TaskScopeId>,
    i: u8,
    count: u8,
    list: &'a [(TaskScopeId, usize); 10],
}

impl<'a> TaskScopeListIterator<'a> {
    /// The walk's position lies within the table.
    pub closed spec fn wf(&self) -> bool {
        self.i <= self.count <= MAX_SCOPES
    }

    /// The scopes of the table that the walk has not reached yet.
    pub closed spec fn rest(&self) -> Seq<TaskScopeId> {
        Seq::new((self.count - self.i) as nat, |k: int| self.list@[self.i + k].0)
    }

    /// The scopes that the walk will still hand out, in order.
    pub closed spec fn remaining(&self) -> Seq<TaskScopeId> {
        match self.root {
            Some(r) => seq![r] + self.rest(),
            None => self.rest(),
        }
    }

    /// Hands out the next scope, or `None` when the walk is over.
    pub fn next(&mut self) -> (r: Option<TaskScopeId>)
        requires
            old(self).wf(),
        ensures
            final(self).wf(),
            old(self).remaining().len() == 0 ==> r is None
                && final(self).remaining() == old(self).remaining(),
            old(self).remaining().len() > 0 ==> r == Some(old(self).remaining()[0])
                && final(self).remaining() == old(self).remaining().skip(1),
    {
        match self.root {
            Some(root) => {
                self.root = None;
                proof {
                    assert(self.remaining() =~= old(self).remaining().skip(1));
                }
                return Some(root);
            },
            None => {},
        }
        if self.i == self.count {
            return None;
        }
        let item = self.list[self.i as usize].0;
        self.i += 1;
        proof {
            assert(self.remaining() =~= old(self).remaining().skip(1));
        }
        Some(item)
    }
}

/// A scope that none of the slots holds has no slot, and is not counted.
pub proof fn lemma_absent(t: Table, id: TaskScopeId)
    requires
        forall|k: int| 0 <= k < t.len() ==> (#[trigger] t[k]).0 != id,
    ensures
        !has_entry(t, id),
        multiplicity(t, id) == 0,
{
}

/// A scope is counted in `after` as it is in `t` where `after` holds in slot
/// `m` the entry that `t` has for it, or where neither has a slot for it.
proof fn lemma_counted_alike(t: Table, after: Table, other: TaskScopeId, m: int)
    requires
        table_wf(t),
        table_wf(after),
        has_entry(t, other) ==> 0 <= m < after.len() && after[m] == t[index_of(t, other)],
        !has_entry(t, other) ==> forall|k: int|
            0 <= k < after.len() ==> (#[trigger] after[k]).0 != other,
    ensures
        multiplicity(after, other) == multiplicity(t, other),
{
    if has_entry(t, other) {
        lemma_slot_is_unique(t, other, index_of(t, other));
        lemma_slot_is_unique(after, other, m);
    } else {
        lemma_absent(after, other);
    }
}

/// A table that holds the scopes of `t` slot by slot, and its multiplicities
/// everywhere but in slot `i`, counts every scope as `t` does but the one of
/// slot `i`.
proof fn lemma_slot_changed(t: Table, after: Table, i: int, other: TaskScopeId)
    requires
        table_wf(t),
        t.len() == after.len(),
        0 <= i < t.len(),
        after[i].0 == t[i].0,
        after[i].1 >= 1,
        forall|j: int| 0 <= j < t.len() && j != i ==> (#[trigger] after[j]) == t[j],
    ensures
        table_wf(after),
        multiplicity(after, t[i].0) == after[i].1,
        other != t[i].0 ==> multiplicity(after, other) == multiplicity(t, other),
{
    assert(forall|j: int| 0 <= j < t.len() ==> (#[trigger] after[j]).0 == t[j].0);
    assert(table_wf(after));
    lemma_slot_is_unique(after, t[i].0, i);
    if other != t[i].0 {
        lemma_counted_alike(t, after, other, index_of(t, other));
    }
}

/// Taking the entry of slot `i` out of a table leaves the scope of that slot
/// uncounted and every other scope counted as before. The table stays well
/// formed.
pub proof fn lemma_slot_taken_out(t: Table, i: int, other: TaskScopeId)
    requires
        table_wf(t),
        0 <= i < t.len(),
    ensures
        table_wf(table_without_slot(t, i)),
        multiplicity(table_without_slot(t, i), other) == if other == t[i].0 {
            0
        } else {
            multiplicity(t, other)
        },
{
    let after = table_without_slot(t, i);
    let last = t.len() - 1;
    assert(forall|j: int|
        0 <= j < after.len() ==> (#[trigger] after[j]) == if j == i {
            t[last]
        } else {
            t[j]
        });
    assert(table_wf(after));
    if other != t[i].0 {
        let k = index_of(t, other);
        lemma_counted_alike(t, after, other, if k == last {
            i
        } else {
            k
        });
    } else {
        lemma_absent(after, other);
    }
}

/// `try_add` acts on the multiplicities as a counter does: where it answers
/// `New` or `Existing` the multiplicity of the added scope goes up by one, and
/// no other multiplicity ever changes. The table stays well formed.
pub proof fn lemma_add_counts(root: Option<TaskScopeId>, t: Table, id: TaskScopeId, other: TaskScopeId)
    requires
        table_wf(t),
    ensures
        table_wf(table_after_add(root, t, id)),
        multiplicity(table_after_add(root, t, id), other) == if other == id && (add_outcome(
            root,
            t,
            id,
        ) is New || add_outcome(root, t, id) is Existing) {
            multiplicity(t, other) + 1
        } else {
            multiplicity(t, other)
        },
{
    let after = table_after_add(root, t, id);
    match add_outcome(root, t, id) {
        AddResult::Root => {},
        AddResult::Full => {},
        AddResult::Existing => {
            let i = index_of(t, id);
            lemma_slot_is_unique(t, id, i);
            lemma_slot_changed(t, after, i, other);
        },
        AddResult::New => {
            assert(forall|j: int| 0 <= j < t.len() ==> (#[trigger] after[j]) == t[j]);
            assert(table_wf(after));
            if other == id {
                lemma_slot_is_unique(after, id, t.len() as int);
            } else {
                lemma_counted_alike(t, after, other, index_of(t, other));
            }
        },
    }
}

/// `remove` acts on the multiplicities as a counter does: where it answers
/// `Decreased` or `Removed` the multiplicity of the removed scope goes down by
/// one, and no other multiplicity ever changes. The table stays well formed.
pub proof fn lemma_remove_counts(
    root: Option<TaskScopeId>,
    t: Table,
    id: TaskScopeId,
    other: TaskScopeId,
)
    requires
        table_wf(t),
    ensures
        table_wf(table_after_remove(root, t, id)),
        multiplicity(table_after_remove(root, t, id), other) == if other == id && (remove_outcome(
            root,
            t,
            id,
        ) is Decreased || remove_outcome(root, t, id) is Removed) {
            multiplicity(t, other) - 1
        } else {
            multiplicity(t, other) as int
        },
{
    let after = table_after_remove(root, t, id);
    match remove_outcome(root, t, id) {
        RemoveResult::Root => {},
        RemoveResult::NoEntry => {},
        RemoveResult::Decreased => {
            let i = index_of(t, id);
            lemma_slot_is_unique(t, id, i);
            lemma_slot_changed(t, after, i, other);
        },
        RemoveResult::Removed => {
            let i = index_of(t, id);
            lemma_slot_is_unique(t, id, i);
            lemma_slot_taken_out(t, i, other);
        },
    }
}

/// `set_root` leaves the scope that becomes the root uncounted in the table,
/// and changes no other multiplicity. The table stays well formed, and the
/// root that it leaves has no slot.
pub proof fn lemma_set_root_counts(
    root: Option<TaskScopeId>,
    t: Table,
    id: TaskScopeId,
    other: TaskScopeId,
)
    requires
        table_wf(t),
        root_outside_table(root, t),
    ensures
        table_wf(table_after_set_root(root, t, id)),
        root_outside_table(root_after_set(root, id), table_after_set_root(root, t, id)),
        multiplicity(table_after_set_root(root, t, id), other) == if root is None && other == id {
            0
        } else {
            multiplicity(t, other)
        },
{
    if root is None && has_entry(t, id) {
        let i = index_of(t, id);
        lemma_slot_is_unique(t, id, i);
        lemma_slot_taken_out(t, i, other);
        lemma_slot_taken_out(t, i, id);
        lemma_counted_iff_slot(table_after_set_root(root, t, id), id);
    }
}

/// In a well-formed table a scope has a slot exactly when it is counted.
pub proof fn lemma_counted_iff_slot(t: Table, id: TaskScopeId)
    requires
        table_wf(t),
    ensures
        has_entry(t, id) <==> multiplicity(t, id) >= 1,
{
    if has_entry(t, id) {
        lemma_slot_is_unique(t, id, index_of(t, id));
    }
}

/// A root that has no slot in the table gets none by `try_add` or `remove`,
/// whatever scope they are called with.
pub proof fn lemma_root_stays_outside(root: Option<TaskScopeId>, t: Table, id: TaskScopeId)
    requires
        table_wf(t),
        root_outside_table(root, t),
    ensures
        root_outside_table(root, table_after_add(root, t, id)),
        root_outside_table(root, table_after_remove(root, t, id)),
{
    match root {
        Some(r) => {
            lemma_add_counts(root, t, id, r);
            lemma_remove_counts(root, t, id, r);
            lemma_counted_iff_slot(t, r);
            lemma_counted_iff_slot(table_after_add(root, t, id), r);
            lemma_counted_iff_slot(table_after_remove(root, t, id), r);
        },
        None => {},
    }
}

} // verus!
