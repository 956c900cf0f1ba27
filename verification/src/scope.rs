//! One scope: its activation counter, the tasks that became dirty while it was
//! inactive, and its child scopes.
//!
//! A scope is active while its counter is positive. Whatever a change of this
//! scope asks of its children is handed to the caller as scope ids, to be
//! applied one scope at a time.

use crate::id::TaskScopeId;
use std::collections::HashMap;
use std::collections::HashSet;
use vstd::prelude::*;
use vstd::std_specs::hash::*;
use vstd::std_specs::iter::IteratorSpec;

verus! {

broadcast use group_hash_axioms;

/// A scope of tasks. Tasks are held by their numbers, child scopes by the
/// numbers of their ids.
pub struct TaskScope {
    /// Number of active parents or tasks. The scope is active while it is not
    /// zero.
    active: usize,
    /// The tasks that became dirty while the scope was inactive. They are
    /// handed out when the scope becomes active.
    pub dirty_tasks: HashSet<usize>,
    /// The child scopes, each with the number of edges that lead to it.
    pub children: HashMap<usize, usize>,
}

/// What a scope holds, as plain values.
pub struct ScopeState {
    /// The activation counter.
    pub active: nat,
    /// The tasks recorded as dirty.
    pub dirty: Set<usize>,
    /// The child scopes with their multiplicities, keyed by the numbers of
    /// their ids. A scope that is no child has no key.
    pub children: Map<usize, nat>,
}

impl ScopeState {
    /// The scope is active: its counter is positive.
    pub open spec fn is_active(self) -> bool {
        self.active > 0
    }

    /// Every child that is recorded has at least one edge.
    pub open spec fn wf(self) -> bool {
        forall|k: usize| #[trigger] self.children.contains_key(k) ==> self.children[k] >= 1
    }

    /// The number of edges to `child`: zero when it is no child.
    pub open spec fn child_multiplicity(self, child: TaskScopeId) -> nat {
        if self.children.contains_key(child.id) {
            self.children[child.id]
        } else {
            0
        }
    }

    /// The scope after one more user was counted. Becoming active empties the
    /// dirty tasks.
    pub open spec fn incremented(self) -> ScopeState {
        ScopeState {
            active: self.active + 1,
            dirty: if self.active == 0 {
                Set::empty()
            } else {
                self.dirty
            },
            children: self.children,
        }
    }

    /// The tasks that counting one more user hands out: the dirty tasks when
    /// the scope becomes active, nothing when it was active already.
    pub open spec fn drained_by_increment(self) -> Option<Set<usize>> {
        if self.active == 0 {
            Some(self.dirty)
        } else {
            None
        }
    }

    /// Counting one more user makes the scope active, so its children have
    /// to follow.
    pub open spec fn increment_reaches_children(self) -> bool {
        self.active == 0
    }

    /// The scope after one user less was counted.
    pub open spec fn decremented(self) -> ScopeState {
        ScopeState { active: (self.active - 1) as nat, dirty: self.dirty, children: self.children }
    }

    /// Counting one user less makes the scope inactive, so its children have
    /// to follow.
    pub open spec fn decrement_reaches_children(self) -> bool {
        self.active == 1
    }

    /// The scope after `times` users less were counted.
    pub open spec fn decremented_by(self, times: nat) -> ScopeState
        decreases times,
    {
        if times == 0 {
            self
        } else {
            self.decremented_by((times - 1) as nat).decremented()
        }
    }

    /// The scope with one more edge to `child`.
    pub open spec fn with_child_added(self, child: TaskScopeId) -> ScopeState {
        ScopeState {
            active: self.active,
            dirty: self.dirty,
            children: self.children.insert(child.id, self.child_multiplicity(child) + 1),
        }
    }

    /// Adding an edge to `child` asks the caller to activate the child: it is
    /// the first edge to it, and the scope is active.
    pub open spec fn add_child_activates(self, child: TaskScopeId) -> bool {
        self.child_multiplicity(child) == 0 && self.is_active()
    }

    /// The scope with one edge to `child` less. The child's key leaves with
    /// its last edge.
    pub open spec fn with_child_removed(self, child: TaskScopeId) -> ScopeState {
        ScopeState {
            active: self.active,
            dirty: self.dirty,
            children: if self.child_multiplicity(child) <= 1 {
                self.children.remove(child.id)
            } else {
                self.children.insert(child.id, (self.child_multiplicity(child) - 1) as nat)
            },
        }
    }

    /// Removing an edge to `child` asks the caller to deactivate the child:
    /// it was the last edge to it, and the scope is active.
    pub open spec fn remove_child_deactivates(self, child: TaskScopeId) -> bool {
        self.child_multiplicity(child) == 1 && self.is_active()
    }
}

/// The scopes of `jobs`, as the numbers of their ids.
pub open spec fn job_numbers(jobs: Seq<TaskScopeId>) -> Seq<usize> {
    Seq::new(jobs.len(), |i: int| jobs[i].id)
}

/// `after` is `before` followed by every key of `children` exactly once, in
/// some order.
pub open spec fn children_appended(
    before: Seq<TaskScopeId>,
    after: Seq<TaskScopeId>,
    children: Map<usize, nat>,
) -> bool {
    &&& before.len() <= after.len()
    &&& after.subrange(0, before.len() as int) == before
    &&& job_numbers(after.subrange(before.len() as int, after.len() as int)).no_duplicates()
    &&& job_numbers(after.subrange(before.len() as int, after.len() as int)).to_set()
        == children.dom()
}

impl View for TaskScope {
    type V = ScopeState;

    closed spec fn view(&self) -> ScopeState {
        ScopeState {
            active: self.active as nat,
            dirty: self.dirty_tasks@,
            children: Map::new(
                |k: usize| self.children@.contains_key(k),
                |k: usize| self.children@[k] as nat,
            ),
        }
    }
}

impl TaskScope {
    /// An inactive scope without tasks or children.
    pub fn new() -> (r: Self)
        ensures
            r@ == (ScopeState { active: 0, dirty: Set::empty(), children: Map::empty() }),
    {
        let r = Self { active: 0, dirty_tasks: HashSet::new(), children: HashMap::new() };
        proof {
            assert(r@.children =~= Map::<usize, nat>::empty());
        }
        r
    }

    /// A scope without tasks or children that is active for one user.
    pub fn new_active() -> (r: Self)
        ensures
            r@ == (ScopeState { active: 1, dirty: Set::empty(), children: Map::empty() }),
    {
        let r = Self { active: 1, dirty_tasks: HashSet::new(), children: HashMap::new() };
        proof {
            assert(r@.children =~= Map::<usize, nat>::empty());
        }
        r
    }

    /// Whether the scope is active.
    pub fn is_active(&self) -> (r: bool)
        ensures
            r == self@.is_active(),
    {
        self.active > 0
    }

    /// The number of users that keep the scope active.
    pub fn active_count(&self) -> (n: usize)
        ensures
            n == self@.active,
    {
        self.active
    }

    /// The number of edges to `child`: zero when it is no child.
    pub fn child_edges(&self, child: TaskScopeId) -> (n: usize)
        ensures
            n == self@.child_multiplicity(child),
    {
        match self.children.get(&child.id) {
            Some(n) => *n,
            None => 0,
        }
    }

    /// Records a task as dirty. The scope must be inactive: the dirty tasks
    /// of an active scope are scheduled, not recorded.
    pub fn mark_dirty(&mut self, task: usize)
        requires
            !old(self)@.is_active(),
        ensures
            final(self)@.dirty == old(self)@.dirty.insert(task),
            final(self)@.active == old(self)@.active,
            final(self)@.children == old(self)@.children,
    {
        self.dirty_tasks.insert(task);
    }

    /// Appends every child of the scope to `more_jobs`, once each.
    fn push_children(&self, more_jobs: &mut Vec<TaskScopeId>)
        ensures
            children_appended(old(more_jobs)@, final(more_jobs)@, self@.children),
    {
        let ghost before = more_jobs@;
        let ghost keys = spec_keys_iter(&self.children).remaining().unref();
        for key in iter: self.children.keys()
            invariant
                iter.seq().unref() == keys,
                more_jobs@.len() == before.len() + iter.index(),
                more_jobs@.subrange(0, before.len() as int) == before,
                forall|i: int|
                    0 <= i < iter.index() ==> (#[trigger] more_jobs@[before.len() + i]).id
                        == keys[i],
        {
            let ghost prev = more_jobs@;
            more_jobs.push(TaskScopeId { id: *key });
            proof {
                assert(more_jobs@.subrange(0, before.len() as int) =~= prev.subrange(
                    0,
                    before.len() as int,
                ));
            }
        }
        proof {
            let added = job_numbers(
                more_jobs@.subrange(before.len() as int, more_jobs@.len() as int),
            );
            assert(added.len() == keys.len());
            assert forall|i: int| 0 <= i < added.len() implies added[i] == keys[i] by {
                assert(more_jobs@[before.len() + i].id == keys[i]);
            }
            assert(added =~= keys);
            assert(self@.children.dom() =~= self.children@.dom());
        }
    }

    /// Counts one more user of the scope. When this makes an inactive scope
    /// active, every child is appended to `more_jobs`, for the caller to
    /// activate in turn, and the dirty tasks are taken out and returned, for
    /// the caller to schedule. On a scope that was active already nothing
    /// else happens and `None` is returned.
    #[must_use]
    pub fn increment_active(&mut self, more_jobs: &mut Vec<TaskScopeId>) -> (r: Option<
        HashSet<usize>,
    >)
        requires
            old(self)@.active < usize::MAX,
        ensures
            final(self)@ == old(self)@.incremented(),
            match old(self)@.drained_by_increment() {
                Some(tasks) => r is Some && r->Some_0@ == tasks,
                None => r is None,
            },
            if old(self)@.increment_reaches_children() {
                children_appended(old(more_jobs)@, final(more_jobs)@, old(self)@.children)
            } else {
                final(more_jobs)@ == old(more_jobs)@
            },
    {
        self.active += 1;
        if self.active == 1 {
            self.push_children(more_jobs);
            let mut taken: HashSet<usize> = HashSet::new();
            std::mem::swap(&mut self.dirty_tasks, &mut taken);
            Some(taken)
        } else {
            None
        }
    }

    /// Counts one user of the scope less. When this makes the scope inactive,
    /// every child is appended to `more_jobs`, for the caller to deactivate in
    /// turn. The scope must be active.
    pub fn decrement_active(&mut self, more_jobs: &mut Vec<TaskScopeId>)
        requires
            old(self)@.is_active(),
        ensures
            final(self)@ == old(self)@.decremented(),
            if old(self)@.decrement_reaches_children() {
                children_appended(old(more_jobs)@, final(more_jobs)@, old(self)@.children)
            } else {
                final(more_jobs)@ == old(more_jobs)@
            },
    {
        self.active -= 1;
        if self.active == 0 {
            self.push_children(more_jobs);
        }
    }

    /// Records one more edge to `child`. Returns true when this is the first
    /// edge to it and the scope is active: the caller must then activate the
    /// child.
    #[must_use]
    pub fn add_child(&mut self, child: TaskScopeId) -> (r: bool)
        requires
            old(self)@.child_multiplicity(child) < usize::MAX,
        ensures
            final(self)@ == old(self)@.with_child_added(child),
            r == old(self)@.add_child_activates(child),
    {
        let edges = self.child_edges(child);
        self.children.insert(child.id, edges + 1);
        proof {
            assert(self@.children =~= old(self)@.with_child_added(child).children);
        }
        edges == 0 && self.active > 0
    }

    /// Takes one edge to `child` away; with its last edge the child leaves the
    /// scope. Returns true when that was the last edge and the scope is
    /// active: the caller must then deactivate the child. There must be an
    /// edge to `child`.
    #[must_use]
    pub fn remove_child(&mut self, child: TaskScopeId) -> (r: bool)
        requires
            old(self)@.child_multiplicity(child) >= 1,
        ensures
            final(self)@ == old(self)@.with_child_removed(child),
            r == old(self)@.remove_child_deactivates(child),
    {
        let edges = self.child_edges(child);
        if edges == 1 {
            self.children.remove(&child.id);
            proof {
                assert(self@.children =~= old(self)@.with_child_removed(child).children);
            }
            self.active > 0
        } else {
            self.children.insert(child.id, edges - 1);
            proof {
                assert(self@.children =~= old(self)@.with_child_removed(child).children);
            }
            false
        }
    }
}

} // verus!
