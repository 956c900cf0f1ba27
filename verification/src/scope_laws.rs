//! What holds of a scope over several calls: which increments and decrements
//! reach the children, and how edges to a child add up.

use crate::id::TaskScopeId;
use crate::scope::ScopeState;
use vstd::prelude::*;

verus! {

/// Activating an inactive scope hands out its dirty tasks and reaches its
/// children; counting a further user right after that hands out nothing,
/// reaches no child and leaves no dirty task behind.
pub proof fn lemma_only_first_increment_propagates(s: ScopeState)
    requires
        !s.is_active(),
    ensures
        s.increment_reaches_children(),
        s.drained_by_increment() == Some(s.dirty),
        s.incremented().active == 1,
        s.incremented().dirty == Set::<usize>::empty(),
        !s.incremented().increment_reaches_children(),
        s.incremented().drained_by_increment() is None,
        s.incremented().incremented().active == 2,
        s.incremented().incremented().dirty == Set::<usize>::empty(),
        s.incremented().incremented().children == s.children,
{
}

/// Counting one more user of an active scope hands out nothing, reaches no
/// child and leaves the dirty tasks and the children as they are; the scope
/// then stays active through as many decrements as it had users before, and
/// is inactive after one more.
pub proof fn lemma_increment_of_active(s: ScopeState, done: nat)
    requires
        s.is_active(),
        done <= s.active,
    ensures
        s.drained_by_increment() is None,
        !s.increment_reaches_children(),
        s.incremented().active == s.active + 1,
        s.incremented().dirty == s.dirty,
        s.incremented().children == s.children,
        s.incremented().decremented_by(done).is_active(),
        !s.incremented().decremented_by(s.active + 1).is_active(),
{
    lemma_only_last_decrement_propagates(s.incremented(), done);
    lemma_only_last_decrement_propagates(s.incremented(), s.active);
}

/// Of the decrements that take a scope from `s.active` users down, the one
/// that leaves none is the only one that reaches the children; every one of
/// them lowers the counter by one and leaves the children and the dirty tasks
/// as they were.
pub proof fn lemma_only_last_decrement_propagates(s: ScopeState, done: nat)
    requires
        done < s.active,
    ensures
        s.decremented_by(done).active == s.active - done,
        s.decremented_by(done).children == s.children,
        s.decremented_by(done).dirty == s.dirty,
        s.decremented_by(done).is_active(),
        s.decremented_by(done).decrement_reaches_children() <==> done + 1 == s.active,
        s.decremented_by(done + 1) == s.decremented_by(done).decremented(),
    decreases done,
{
    if done > 0 {
        lemma_only_last_decrement_propagates(s, (done - 1) as nat);
    }
}

/// The first edge to a child asks for the child's activation exactly when the
/// scope is active; a second edge never does, and brings the multiplicity to
/// two.
pub proof fn lemma_add_child_twice(s: ScopeState, child: TaskScopeId)
    requires
        s.child_multiplicity(child) == 0,
    ensures
        s.add_child_activates(child) == s.is_active(),
        s.with_child_added(child).child_multiplicity(child) == 1,
        !s.with_child_added(child).add_child_activates(child),
        s.with_child_added(child).with_child_added(child).child_multiplicity(child) == 2,
{
}

/// An edge added to a scope is an edge more to that child and to no other,
/// and the scope stays well formed.
pub proof fn lemma_add_child_counts(s: ScopeState, child: TaskScopeId, other: TaskScopeId)
    requires
        s.wf(),
    ensures
        s.with_child_added(child).wf(),
        s.with_child_added(child).child_multiplicity(other) == if other == child {
            s.child_multiplicity(other) + 1
        } else {
            s.child_multiplicity(other)
        },
{
}

/// An edge removed from a scope is an edge less to that child and to no
/// other, and the scope stays well formed.
pub proof fn lemma_remove_child_counts(s: ScopeState, child: TaskScopeId, other: TaskScopeId)
    requires
        s.wf(),
        s.child_multiplicity(child) >= 1,
    ensures
        s.with_child_removed(child).wf(),
        s.with_child_removed(child).child_multiplicity(other) == if other == child {
            s.child_multiplicity(other) - 1
        } else {
            s.child_multiplicity(other) as int
        },
{
}

/// Two edges to a new child of an active scope, taken away again: the first
/// removal leaves one edge and asks for nothing, the second asks for the
/// child's deactivation and leaves the children as they were at the start.
pub proof fn lemma_remove_child_twice(s: ScopeState, child: TaskScopeId)
    requires
        s.wf(),
        s.is_active(),
        s.child_multiplicity(child) == 0,
    ensures
        ({
            let two = s.with_child_added(child).with_child_added(child);
            let one = two.with_child_removed(child);
            &&& two.child_multiplicity(child) == 2
            &&& !two.remove_child_deactivates(child)
            &&& one.child_multiplicity(child) == 1
            &&& one.remove_child_deactivates(child)
            &&& one.with_child_removed(child).child_multiplicity(child) == 0
            &&& one.with_child_removed(child) == s
        }),
{
    let two = s.with_child_added(child).with_child_added(child);
    let one = two.with_child_removed(child);
    assert(one.with_child_removed(child).children =~= s.children);
}

} // verus!
