//! What holds of a list over several calls: its multiplicities against plain
//! counters, its capacity, and its root.

use crate::id::TaskScopeId;
use crate::list::{
    add_outcome, all_scope_ids, contains_outcome, has_entry, index_of, lemma_absent,
    lemma_add_counts, lemma_counted_iff_slot, lemma_remove_counts, lemma_set_root_counts,
    lemma_slot_is_unique,
    multiplicity, remove_outcome, root_after_set, root_outside_table, scope_ids,
    set_root_outcome, table_after_add, table_after_remove, table_after_set_root, table_wf,
    AddResult, RemoveResult, Table,
};
use vstd::prelude::*;

verus! {

/// One step of a history of a list: a scope is added, or removed.
pub enum ListOp {
    Add(TaskScopeId),
    Remove(TaskScopeId),
}

/// The table that a history leaves in a list without root that started empty.
pub open spec fn table_after(ops: Seq<ListOp>) -> Table
    decreases ops.len(),
{
    if ops.len() == 0 {
        Seq::empty()
    } else {
        match ops.last() {
            ListOp::Add(id) => table_after_add(None, table_after(ops.drop_last()), id),
            ListOp::Remove(id) => table_after_remove(None, table_after(ops.drop_last()), id),
        }
    }
}

/// A plain counter for `id` run over a history: up by one with each addition
/// of `id`, down by one with each removal of it, never below zero.
pub open spec fn counter_after(ops: Seq<ListOp>, id: TaskScopeId) -> nat
    decreases ops.len(),
{
    if ops.len() == 0 {
        0
    } else {
        let before = counter_after(ops.drop_last(), id);
        match ops.last() {
            ListOp::Add(x) => if x == id {
                before + 1
            } else {
                before
            },
            ListOp::Remove(x) => if x == id && before > 0 {
                (before - 1) as nat
            } else {
                before
            },
        }
    }
}

/// What an addition answers to a counter that stands at `counted`.
pub open spec fn counter_add_outcome(counted: nat) -> AddResult {
    if counted == 0 {
        AddResult::New
    } else {
        AddResult::Existing
    }
}

/// What a removal answers to a counter that stands at `counted`.
pub open spec fn counter_remove_outcome(counted: nat) -> RemoveResult {
    if counted == 0 {
        RemoveResult::NoEntry
    } else if counted == 1 {
        RemoveResult::Removed
    } else {
        RemoveResult::Decreased
    }
}

/// No addition of the history was refused for want of a free slot.
pub open spec fn never_full(ops: Seq<ListOp>) -> bool {
    forall|k: int|
        0 <= k < ops.len() ==> (#[trigger] ops[k] matches ListOp::Add(id) ==> !(add_outcome(
            None,
            table_after(ops.take(k)),
            id,
        ) is Full))
}

/// Where no addition of a history was refused for want of a free slot, none
/// was in any of its beginnings.
pub proof fn lemma_prefix_never_full(ops: Seq<ListOp>, k: int)
    requires
        never_full(ops),
        0 <= k <= ops.len(),
    ensures
        never_full(ops.take(k)),
{
    let earlier = ops.take(k);
    assert forall|j: int| 0 <= j < earlier.len() implies (#[trigger] earlier[j] matches ListOp::Add(
        x,
    ) ==> !(add_outcome(None, table_after(earlier.take(j)), x) is Full)) by {
        assert(earlier.take(j) =~= ops.take(j));
        assert(earlier[j] == ops[j]);
    }
}

/// On a well-formed table of a list without root, `try_add` and `remove`
/// answer as a counter at the scope's multiplicity would, but for the
/// addition that finds no free slot.
pub proof fn lemma_outcomes_follow_multiplicity(t: Table, id: TaskScopeId)
    requires
        table_wf(t),
    ensures
        add_outcome(None, t, id) is Full || add_outcome(None, t, id) == counter_add_outcome(
            multiplicity(t, id),
        ),
        add_outcome(None, t, id) is Full ==> multiplicity(t, id) == 0 && t.len() == 10,
        remove_outcome(None, t, id) == counter_remove_outcome(multiplicity(t, id)),
{
    lemma_counted_iff_slot(t, id);
}

/// A list without root that starts empty keeps, through any history in which
/// no addition is refused for want of a free slot, for every scope the
/// multiplicity that a plain counter would show; so the next `try_add` and
/// the next `remove` of any scope answer as that counter would.
pub proof fn lemma_history_matches_counters(ops: Seq<ListOp>, id: TaskScopeId)
    requires
        never_full(ops),
    ensures
        table_wf(table_after(ops)),
        multiplicity(table_after(ops), id) == counter_after(ops, id),
        add_outcome(None, table_after(ops), id) is Full || add_outcome(None, table_after(ops), id)
            == counter_add_outcome(counter_after(ops, id)),
        remove_outcome(None, table_after(ops), id) == counter_remove_outcome(
            counter_after(ops, id),
        ),
    decreases ops.len(),
{
    if ops.len() == 0 {
        lemma_absent(table_after(ops), id);
    } else {
        let earlier = ops.drop_last();
        assert(earlier =~= ops.take(ops.len() - 1));
        lemma_prefix_never_full(ops, ops.len() - 1);
        let t = table_after(earlier);
        assert(ops.take(ops.len() - 1) =~= earlier);
        match ops.last() {
            ListOp::Add(x) => {
                lemma_history_matches_counters(earlier, id);
                lemma_history_matches_counters(earlier, x);
                assert(ops[ops.len() - 1] == ListOp::Add(x));
                assert(!(add_outcome(None, t, x) is Full));
                lemma_add_counts(None, t, x, id);
            },
            ListOp::Remove(x) => {
                lemma_history_matches_counters(earlier, id);
                lemma_history_matches_counters(earlier, x);
                lemma_outcomes_follow_multiplicity(t, x);
                lemma_remove_counts(None, t, x, id);
            },
        }
    }
    lemma_outcomes_follow_multiplicity(table_after(ops), id);
}

/// In a history of a list without root that starts empty, in which no
/// addition is refused for want of a free slot, every step answers as a plain
/// counter for its scope would at that point.
pub proof fn lemma_every_step_matches_counter(ops: Seq<ListOp>, k: int)
    requires
        never_full(ops),
        0 <= k < ops.len(),
    ensures
        match ops[k] {
            ListOp::Add(id) => add_outcome(None, table_after(ops.take(k)), id)
                == counter_add_outcome(counter_after(ops.take(k), id)),
            ListOp::Remove(id) => remove_outcome(None, table_after(ops.take(k)), id)
                == counter_remove_outcome(counter_after(ops.take(k), id)),
        },
{
    let earlier = ops.take(k);
    lemma_prefix_never_full(ops, k);
    match ops[k] {
        ListOp::Add(id) => {
            lemma_history_matches_counters(earlier, id);
        },
        ListOp::Remove(id) => {
            lemma_history_matches_counters(earlier, id);
        },
    }
}

/// A set root answers `Existing` to the same scope and `AlreadyOtherRoot` to
/// any other, and neither call changes the root.
pub proof fn lemma_set_root_again(root: Option<TaskScopeId>, id: TaskScopeId, other: TaskScopeId)
    requires
        !(set_root_outcome(root, id) is AlreadyOtherRoot),
    ensures
        root_after_set(root, id) == Some(id),
        set_root_outcome(root_after_set(root, id), id) is Existing,
        root_after_set(root_after_set(root, id), id) == root_after_set(root, id),
        other != id ==> set_root_outcome(root_after_set(root, id), other) is AlreadyOtherRoot,
        root_after_set(root_after_set(root, id), other) == root_after_set(root, id),
        forall|t: Table| table_after_set_root(root_after_set(root, id), t, other) == t,
{
}

/// The table that holds the scopes `ids`, each once, in their order.
pub open spec fn table_of_singles(ids: Seq<TaskScopeId>) -> Table {
    Seq::new(ids.len(), |i: int| (ids[i], 1nat))
}

/// The table that adding the scopes `ids` one after the other leaves, from
/// the table `t`.
pub open spec fn table_after_adds(root: Option<TaskScopeId>, t: Table, ids: Seq<TaskScopeId>) -> Table
    decreases ids.len(),
{
    if ids.len() == 0 {
        t
    } else {
        table_after_add(root, table_after_adds(root, t, ids.drop_last()), ids.last())
    }
}

/// Among different scopes, the table of those before the scope `k` has no
/// slot for the scope `k`.
proof fn lemma_later_scope_is_absent(ids: Seq<TaskScopeId>, k: int)
    requires
        ids.no_duplicates(),
        0 <= k < ids.len(),
    ensures
        !has_entry(table_of_singles(ids.take(k)), ids[k]),
{
    let t = table_of_singles(ids.take(k));
    assert forall|j: int| 0 <= j < t.len() implies (#[trigger] t[j]).0 != ids[k] by {
        assert(ids.take(k)[j] == ids[j]);
    }
    lemma_absent(t, ids[k]);
}

/// Up to ten different scopes, none of them the root, added to an empty
/// table one after the other: every one of these additions answers `New`.
pub proof fn lemma_distinct_adds_are_new(root: Option<TaskScopeId>, ids: Seq<TaskScopeId>, k: int)
    requires
        ids.no_duplicates(),
        ids.len() <= 10,
        forall|i: int| 0 <= i < ids.len() ==> root != Some(#[trigger] ids[i]),
        0 <= k < ids.len(),
    ensures
        add_outcome(root, table_after_adds(root, Seq::empty(), ids.take(k)), ids[k]) is New,
{
    let head = ids.take(k);
    lemma_adds_of_singles(root, head);
    let t = table_of_singles(head);
    lemma_later_scope_is_absent(ids, k);
}

/// After ten different scopes, none of them the root, were added to an empty
/// table, the addition of one more scope answers `Full` and leaves the table
/// as it is.
pub proof fn lemma_eleventh_add_is_refused(
    root: Option<TaskScopeId>,
    ids: Seq<TaskScopeId>,
    next: TaskScopeId,
)
    requires
        ids.no_duplicates(),
        ids.len() == 10,
        forall|i: int| 0 <= i < ids.len() ==> root != Some(#[trigger] ids[i]),
        root != Some(next),
        !ids.contains(next),
    ensures
        add_outcome(root, table_after_adds(root, Seq::empty(), ids), next) is Full,
        table_after_add(root, table_after_adds(root, Seq::empty(), ids), next)
            == table_after_adds(root, Seq::empty(), ids),
{
    lemma_adds_of_singles(root, ids);
    let full = table_of_singles(ids);
    assert forall|j: int| 0 <= j < full.len() implies (#[trigger] full[j]).0 != next by {
        assert(ids[j] != next);
    }
    lemma_absent(full, next);
}

/// A table in which all ten slots are taken refuses every scope that it does
/// not hold and that is not the root, and stays as it is.
pub proof fn lemma_full_table_refuses(root: Option<TaskScopeId>, t: Table, id: TaskScopeId)
    requires
        t.len() == 10,
        root != Some(id),
        !has_entry(t, id),
    ensures
        add_outcome(root, t, id) is Full,
        table_after_add(root, t, id) == t,
{
}

/// Different scopes, none of them the root and no more than ten, added to an
/// empty table one after the other, stand in it in their order, each once.
pub proof fn lemma_adds_of_singles(root: Option<TaskScopeId>, ids: Seq<TaskScopeId>)
    requires
        ids.no_duplicates(),
        ids.len() <= 10,
        forall|i: int| 0 <= i < ids.len() ==> root != Some(#[trigger] ids[i]),
    ensures
        table_after_adds(root, Seq::empty(), ids) == table_of_singles(ids),
        table_wf(table_of_singles(ids)),
    decreases ids.len(),
{
    let full = table_of_singles(ids);
    if ids.len() == 0 {
        assert(table_after_adds(root, Seq::empty(), ids) =~= full);
    } else {
        let head = ids.drop_last();
        lemma_adds_of_singles(root, head);
        let t = table_of_singles(head);
        assert(head =~= ids.take(ids.len() - 1));
        lemma_later_scope_is_absent(ids, ids.len() - 1);
        assert(table_after_add(root, t, ids.last()) =~= full);
    }
    assert(table_wf(full));
}

/// Once `set_root(id)` has answered `New` or `Existing`, the scope has no slot
/// in the table; `try_add(id)` then answers `Root` and leaves the table as it
/// is, and `contains(id)` answers `Root`: the root is never counted in the
/// table.
pub proof fn lemma_root_is_not_counted(root: Option<TaskScopeId>, t: Table, id: TaskScopeId)
    requires
        table_wf(t),
        root_outside_table(root, t),
        !(set_root_outcome(root, id) is AlreadyOtherRoot),
    ensures
        ({
            let r = root_after_set(root, id);
            let u = table_after_set_root(root, t, id);
            &&& r == Some(id)
            &&& !has_entry(u, id)
            &&& multiplicity(u, id) == 0
            &&& add_outcome(r, u, id) is Root
            &&& table_after_add(r, u, id) == u
            &&& contains_outcome(r, table_after_add(r, u, id), id) is Root
        }),
{
    lemma_set_root_counts(root, t, id, id);
}

/// Of a well-formed list the walk without the root hands out the scopes for
/// which `contains` answers `Entry`, each once and never the root; the walk
/// with the root hands out the root first and then the same scopes, so every
/// scope that `contains` knows, each once.
pub proof fn lemma_walks(root: Option<TaskScopeId>, t: Table, id: TaskScopeId)
    requires
        table_wf(t),
        root_outside_table(root, t),
    ensures
        scope_ids(t).no_duplicates(),
        all_scope_ids(root, t).no_duplicates(),
        scope_ids(t).contains(id) <==> contains_outcome(root, t, id) is Entry,
        all_scope_ids(root, t).contains(id) <==> !(contains_outcome(root, t, id) is NoEntry),
        root == Some(id) ==> !scope_ids(t).contains(id),
        all_scope_ids(root, t) == (match root {
            Some(r) => seq![r] + scope_ids(t),
            None => scope_ids(t),
        }),
{
    let ids = scope_ids(t);
    assert forall|i: int, j: int| 0 <= i < ids.len() && 0 <= j < ids.len() && i != j implies ids[i]
        != ids[j] by {
        if i < j {
            assert(t[i].0 != t[j].0);
        } else {
            assert(t[j].0 != t[i].0);
        }
    }
    if has_entry(t, id) {
        assert(ids[index_of(t, id)] == id);
    }
    if ids.contains(id) {
        let i = choose|i: int| 0 <= i < ids.len() && ids[i] == id;
        assert(t[i].0 == id);
    }
    match root {
        Some(r) => {
            let all = all_scope_ids(root, t);
            assert(all[0] == r);
            assert forall|i: int| 0 < i < all.len() implies all[i] == #[trigger] ids[i - 1] by {}
            assert forall|i: int, j: int| 0 <= i < all.len() && 0 <= j < all.len() && i != j implies all[i]
                != all[j] by {
                if i > 0 {
                    assert(t[i - 1].0 == all[i]);
                }
                if j > 0 {
                    assert(t[j - 1].0 == all[j]);
                }
                if i > 0 && j > 0 {
                    assert(ids[i - 1] != ids[j - 1]);
                }
            }
            if ids.contains(id) {
                let i = choose|i: int| 0 <= i < ids.len() && ids[i] == id;
                assert(all[i + 1] == id);
            }
            if all.contains(id) {
                let i = choose|i: int| 0 <= i < all.len() && all[i] == id;
                if i > 0 {
                    assert(ids[i - 1] == id);
                }
            }
        },
        None => {},
    }
}

/// The table after `times` removals of `id`, one after the other.
pub open spec fn table_after_removes(
    root: Option<TaskScopeId>,
    t: Table,
    id: TaskScopeId,
    times: nat,
) -> Table
    decreases times,
{
    if times == 0 {
        t
    } else {
        table_after_remove(root, table_after_removes(root, t, id, (times - 1) as nat), id)
    }
}

/// The addition of a scope that the table holds answers `Existing`, counts
/// that scope once more and leaves the scopes of the table, slot by slot, as
/// they are.
pub proof fn lemma_existing_add_keeps_scopes(root: Option<TaskScopeId>, t: Table, id: TaskScopeId)
    requires
        table_wf(t),
        root != Some(id),
        multiplicity(t, id) >= 1,
    ensures
        add_outcome(root, t, id) is Existing,
        multiplicity(table_after_add(root, t, id), id) == multiplicity(t, id) + 1,
        scope_ids(table_after_add(root, t, id)) == scope_ids(t),
{
    lemma_counted_iff_slot(t, id);
    lemma_add_counts(root, t, id, id);
    lemma_slot_is_unique(t, id, index_of(t, id));
    assert(scope_ids(table_after_add(root, t, id)) =~= scope_ids(t));
}

/// A scope that the table counts `m` times is removed `m` times before it is
/// gone: each removal but the last answers `Decreased`, the last answers
/// `Removed`, and each lowers the multiplicity by one.
pub proof fn lemma_removes_count_down(
    root: Option<TaskScopeId>,
    t: Table,
    id: TaskScopeId,
    done: nat,
)
    requires
        table_wf(t),
        root != Some(id),
        done < multiplicity(t, id),
    ensures
        table_wf(table_after_removes(root, t, id, done)),
        multiplicity(table_after_removes(root, t, id, done), id) == multiplicity(t, id) - done,
        remove_outcome(root, table_after_removes(root, t, id, done), id) == if done + 1
            == multiplicity(t, id) {
            RemoveResult::Removed
        } else {
            RemoveResult::Decreased
        },
        multiplicity(table_after_removes(root, t, id, done + 1), id) == multiplicity(t, id) - done
            - 1,
    decreases done,
{
    if done > 0 {
        lemma_removes_count_down(root, t, id, (done - 1) as nat);
    }
    let now = table_after_removes(root, t, id, done);
    lemma_counted_iff_slot(now, id);
    lemma_slot_is_unique(now, id, index_of(now, id));
    lemma_remove_counts(root, now, id, id);
}

} // verus!
