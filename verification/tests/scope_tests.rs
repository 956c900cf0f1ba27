use std::collections::HashSet;
use task_scope::id::TaskScopeId;
use task_scope::scope::TaskScope;

fn id(n: usize) -> TaskScopeId {
    TaskScopeId::from(n)
}

fn sorted(jobs: &Vec<TaskScopeId>) -> Vec<usize> {
    let mut numbers: Vec<usize> = jobs.iter().map(|job| job.id).collect();
    numbers.sort();
    numbers
}

#[test]
fn new_scope_is_inactive() {
    let scope = TaskScope::new();
    assert!(!scope.is_active());
    assert!(scope.dirty_tasks.is_empty());
    assert!(scope.children.is_empty());
}

#[test]
fn new_active_scope_is_active_once() {
    let mut scope = TaskScope::new_active();
    assert!(scope.is_active());
    let mut jobs = Vec::new();
    scope.decrement_active(&mut jobs);
    assert!(!scope.is_active());
    assert!(jobs.is_empty());
}

#[test]
fn first_increment_hands_out_children_and_dirty_tasks() {
    let mut scope = TaskScope::new();
    assert!(!scope.add_child(id(1)));
    assert!(!scope.add_child(id(2)));
    assert!(!scope.add_child(id(2)));
    scope.dirty_tasks.insert(10);
    scope.dirty_tasks.insert(11);
    let mut jobs = vec![id(99)];
    let drained = scope.increment_active(&mut jobs);
    assert_eq!(jobs[0], id(99));
    assert_eq!(sorted(&jobs), vec![1, 2, 99]);
    let expected: HashSet<usize> = [10, 11].into_iter().collect();
    assert_eq!(drained, Some(expected));
    assert!(scope.dirty_tasks.is_empty());
    assert!(scope.is_active());

    let mut more = Vec::new();
    let again = scope.increment_active(&mut more);
    assert_eq!(again, None);
    assert!(more.is_empty());
    assert!(scope.is_active());
}

#[test]
fn last_decrement_hands_out_children() {
    let mut scope = TaskScope::new_active();
    let mut jobs = Vec::new();
    assert!(scope.add_child(id(4)));
    assert!(scope.add_child(id(5)));
    assert_eq!(scope.increment_active(&mut jobs), None);
    assert!(jobs.is_empty());
    scope.decrement_active(&mut jobs);
    assert!(jobs.is_empty());
    assert!(scope.is_active());
    scope.decrement_active(&mut jobs);
    assert_eq!(sorted(&jobs), vec![4, 5]);
    assert!(!scope.is_active());
    assert_eq!(scope.children.len(), 2);
}

#[test]
fn add_child_signals_first_edge_of_active_scope_only() {
    let mut inactive = TaskScope::new();
    assert!(!inactive.add_child(id(3)));
    assert!(!inactive.add_child(id(3)));
    assert_eq!(inactive.children.get(&3), Some(&2));

    let mut active = TaskScope::new_active();
    assert!(active.add_child(id(3)));
    assert!(!active.add_child(id(3)));
    assert_eq!(active.children.get(&3), Some(&2));
    assert!(active.add_child(id(4)));
    assert_eq!(active.children.get(&4), Some(&1));
}

#[test]
fn remove_child_signals_last_edge_of_active_scope() {
    let mut scope = TaskScope::new_active();
    assert!(scope.add_child(id(3)));
    assert!(!scope.add_child(id(3)));
    assert!(!scope.remove_child(id(3)));
    assert_eq!(scope.children.get(&3), Some(&1));
    assert!(scope.remove_child(id(3)));
    assert_eq!(scope.children.get(&3), None);
    assert!(scope.children.is_empty());
    assert!(scope.add_child(id(3)));
}

#[test]
fn remove_child_of_inactive_scope_signals_nothing() {
    let mut scope = TaskScope::new();
    assert!(!scope.add_child(id(3)));
    assert!(!scope.remove_child(id(3)));
    assert!(scope.children.is_empty());
    let mut jobs = Vec::new();
    let drained = scope.increment_active(&mut jobs);
    assert_eq!(drained, Some(HashSet::new()));
    assert!(jobs.is_empty());
}

#[test]
fn activation_reaches_child_added_while_inactive() {
    let mut parent = TaskScope::new();
    let mut child = TaskScope::new();
    let child_id = id(2);
    child.dirty_tasks.insert(77);

    assert!(!parent.add_child(child_id));
    assert!(!child.is_active());

    let mut jobs = Vec::new();
    let drained = parent.increment_active(&mut jobs);
    assert_eq!(jobs, vec![child_id]);
    assert_eq!(drained, Some(HashSet::new()));
    assert!(parent.is_active());

    let next = jobs.pop();
    assert_eq!(next, Some(child_id));
    let drained = child.increment_active(&mut jobs);
    let expected: HashSet<usize> = [77].into_iter().collect();
    assert_eq!(drained, Some(expected));
    assert!(jobs.is_empty());
    assert!(child.is_active());
    assert!(child.dirty_tasks.is_empty());

    parent.decrement_active(&mut jobs);
    assert_eq!(jobs, vec![child_id]);
    jobs.clear();
    child.decrement_active(&mut jobs);
    assert!(jobs.is_empty());
    assert!(!parent.is_active());
    assert!(!child.is_active());
}

#[test]
fn counters_can_be_read() {
    let mut scope = TaskScope::new();
    assert_eq!(scope.active_count(), 0);
    assert_eq!(scope.child_edges(id(6)), 0);
    assert!(!scope.add_child(id(6)));
    assert!(!scope.add_child(id(6)));
    assert_eq!(scope.child_edges(id(6)), 2);
    let mut jobs = Vec::new();
    assert!(scope.increment_active(&mut jobs).is_some());
    assert!(scope.increment_active(&mut jobs).is_none());
    assert_eq!(scope.active_count(), 2);
    assert_eq!(jobs, vec![id(6)]);
    scope.decrement_active(&mut jobs);
    assert_eq!(scope.active_count(), 1);
    assert!(!scope.remove_child(id(6)));
    assert!(scope.remove_child(id(6)));
    assert_eq!(scope.child_edges(id(6)), 0);
    assert_eq!(TaskScope::new_active().active_count(), 1);
}

#[test]
fn marked_tasks_are_handed_out_on_activation() {
    let mut scope = TaskScope::new();
    scope.mark_dirty(3);
    scope.mark_dirty(4);
    scope.mark_dirty(3);
    assert_eq!(scope.dirty_tasks.len(), 2);
    assert!(!scope.is_active());
    let mut jobs = Vec::new();
    let drained = scope.increment_active(&mut jobs);
    let expected: HashSet<usize> = [3, 4].into_iter().collect();
    assert_eq!(drained, Some(expected));
    assert!(scope.dirty_tasks.is_empty());
    scope.decrement_active(&mut jobs);
    scope.mark_dirty(9);
    let expected: HashSet<usize> = [9].into_iter().collect();
    assert_eq!(scope.increment_active(&mut jobs), Some(expected));
}

#[test]
fn active_scope_stays_active_for_each_user() {
    let mut scope = TaskScope::new_active();
    let mut jobs = Vec::new();
    assert!(scope.add_child(id(1)));
    assert_eq!(scope.increment_active(&mut jobs), None);
    assert_eq!(scope.increment_active(&mut jobs), None);
    assert!(jobs.is_empty());
    assert_eq!(scope.active_count(), 3);
    scope.decrement_active(&mut jobs);
    assert!(scope.is_active());
    scope.decrement_active(&mut jobs);
    assert!(scope.is_active());
    assert!(jobs.is_empty());
    scope.decrement_active(&mut jobs);
    assert!(!scope.is_active());
    assert_eq!(jobs, vec![id(1)]);
}
