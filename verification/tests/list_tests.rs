use task_scope::id::TaskScopeId;
use task_scope::list::{
    AddResult, ContainsResult, RemoveResult, SetRootResult, TaskScopeList, TaskScopeListIterator,
};

fn id(n: usize) -> TaskScopeId {
    TaskScopeId::from(n)
}

fn collect(mut walk: TaskScopeListIterator<'_>) -> Vec<usize> {
    let mut seen = Vec::new();
    while let Some(scope) = walk.next() {
        seen.push(scope.id);
    }
    seen
}

#[test]
fn id_from_number_keeps_the_number() {
    assert_eq!(TaskScopeId::from(42).id, 42);
    assert_eq!(TaskScopeId::from(42), TaskScopeId { id: 42 });
    assert_ne!(TaskScopeId::from(42), TaskScopeId::from(43));
    assert!(TaskScopeId::from(1) < TaskScopeId::from(2));
}

#[test]
fn fresh_list_is_empty() {
    let list = TaskScopeList::default();
    assert_eq!(list.root, None);
    assert_eq!(collect(list.iter()), Vec::<usize>::new());
    assert_eq!(collect(list.iter_non_root()), Vec::<usize>::new());
    assert_eq!(list.contains(id(0)), ContainsResult::NoEntry);
}

#[test]
fn set_root_new_then_existing_then_other() {
    let mut list = TaskScopeList::default();
    assert_eq!(list.set_root(id(5)), SetRootResult::New);
    assert_eq!(list.root, Some(id(5)));
    assert_eq!(list.set_root(id(5)), SetRootResult::Existing);
    assert_eq!(list.root, Some(id(5)));
    assert_eq!(list.set_root(id(6)), SetRootResult::AlreadyOtherRoot);
    assert_eq!(list.root, Some(id(5)));
    assert_eq!(collect(list.iter()), vec![5]);
    assert_eq!(collect(list.iter_non_root()), Vec::<usize>::new());
}

#[test]
fn add_and_remove_follow_a_counter() {
    let mut list = TaskScopeList::default();
    assert_eq!(list.remove(id(3)), RemoveResult::NoEntry);
    assert_eq!(list.try_add(id(3)), AddResult::New);
    assert_eq!(list.try_add(id(3)), AddResult::Existing);
    assert_eq!(list.try_add(id(3)), AddResult::Existing);
    assert_eq!(list.try_add(id(4)), AddResult::New);
    assert_eq!(list.remove(id(3)), RemoveResult::Decreased);
    assert_eq!(list.remove(id(3)), RemoveResult::Decreased);
    assert_eq!(list.contains(id(3)), ContainsResult::Entry);
    assert_eq!(list.remove(id(3)), RemoveResult::Removed);
    assert_eq!(list.contains(id(3)), ContainsResult::NoEntry);
    assert_eq!(list.remove(id(3)), RemoveResult::NoEntry);
    assert_eq!(list.contains(id(4)), ContainsResult::Entry);
    assert_eq!(list.remove(id(4)), RemoveResult::Removed);
    assert_eq!(list.remove(id(4)), RemoveResult::NoEntry);
    assert_eq!(list.try_add(id(3)), AddResult::New);
    assert_eq!(collect(list.iter()), vec![3]);
}

#[test]
fn eleventh_scope_is_refused() {
    let mut list = TaskScopeList::default();
    for n in 0..10 {
        assert_eq!(list.try_add(id(100 + n)), AddResult::New);
    }
    let before = collect(list.iter());
    assert_eq!(before, vec![100, 101, 102, 103, 104, 105, 106, 107, 108, 109]);
    assert_eq!(list.try_add(id(200)), AddResult::Full);
    assert_eq!(collect(list.iter()), before);
    assert_eq!(list.contains(id(200)), ContainsResult::NoEntry);
    assert_eq!(list.try_add(id(105)), AddResult::Existing);
    assert_eq!(list.remove(id(105)), RemoveResult::Decreased);
    assert_eq!(collect(list.iter()), before);
}

#[test]
fn full_table_gives_a_slot_back() {
    let mut list = TaskScopeList::default();
    for n in 0..10 {
        assert_eq!(list.try_add(id(n)), AddResult::New);
    }
    assert_eq!(list.remove(id(2)), RemoveResult::Removed);
    assert_eq!(collect(list.iter()), vec![0, 1, 9, 3, 4, 5, 6, 7, 8]);
    assert_eq!(list.remove(id(8)), RemoveResult::Removed);
    assert_eq!(collect(list.iter()), vec![0, 1, 9, 3, 4, 5, 6, 7]);
    assert_eq!(list.try_add(id(50)), AddResult::New);
    assert_eq!(list.try_add(id(51)), AddResult::New);
    assert_eq!(list.try_add(id(52)), AddResult::Full);
    assert_eq!(collect(list.iter()), vec![0, 1, 9, 3, 4, 5, 6, 7, 50, 51]);
}

#[test]
fn root_is_never_counted_in_the_table() {
    let mut list = TaskScopeList::default();
    assert_eq!(list.set_root(id(9)), SetRootResult::New);
    assert_eq!(list.try_add(id(9)), AddResult::Root);
    assert_eq!(list.contains(id(9)), ContainsResult::Root);
    assert_eq!(collect(list.iter_non_root()), Vec::<usize>::new());
    assert_eq!(list.remove(id(9)), RemoveResult::Root);
    assert_eq!(list.contains(id(9)), ContainsResult::Root);
    assert_eq!(list.root, Some(id(9)));
}

#[test]
fn iter_gives_root_first_then_table() {
    let mut list = TaskScopeList::default();
    assert_eq!(list.try_add(id(1)), AddResult::New);
    assert_eq!(list.try_add(id(2)), AddResult::New);
    assert_eq!(list.try_add(id(1)), AddResult::Existing);
    assert_eq!(list.set_root(id(7)), SetRootResult::New);
    assert_eq!(collect(list.iter()), vec![7, 1, 2]);
    assert_eq!(collect(list.iter_non_root()), vec![1, 2]);
    assert_eq!(collect(list.iter()), vec![7, 1, 2]);
    let mut walk = list.iter();
    assert_eq!(walk.next(), Some(id(7)));
    assert_eq!(walk.next(), Some(id(1)));
    assert_eq!(walk.next(), Some(id(2)));
    assert_eq!(walk.next(), None);
    assert_eq!(walk.next(), None);
}

#[test]
fn removed_slot_is_taken_by_the_last_entry() {
    let mut list = TaskScopeList::default();
    assert_eq!(list.try_add(id(1)), AddResult::New);
    assert_eq!(list.try_add(id(2)), AddResult::New);
    assert_eq!(list.try_add(id(3)), AddResult::New);
    assert_eq!(list.try_add(id(3)), AddResult::Existing);
    assert_eq!(list.remove(id(1)), RemoveResult::Removed);
    assert_eq!(collect(list.iter()), vec![3, 2]);
    assert_eq!(list.remove(id(3)), RemoveResult::Decreased);
    assert_eq!(list.remove(id(2)), RemoveResult::Removed);
    assert_eq!(collect(list.iter()), vec![3]);
    assert_eq!(list.remove(id(3)), RemoveResult::Removed);
    assert_eq!(collect(list.iter()), Vec::<usize>::new());
}

#[test]
fn clone_keeps_root_and_table() {
    let mut list = TaskScopeList::default();
    assert_eq!(list.set_root(id(1)), SetRootResult::New);
    assert_eq!(list.try_add(id(2)), AddResult::New);
    let mut copy = list.clone();
    assert_eq!(collect(copy.iter()), vec![1, 2]);
    assert_eq!(copy.try_add(id(2)), AddResult::Existing);
    assert_eq!(copy.remove(id(2)), RemoveResult::Decreased);
    assert_eq!(list.remove(id(2)), RemoveResult::Removed);
    assert_eq!(copy.contains(id(2)), ContainsResult::Entry);
}

#[test]
fn multiplicity_counts_additions_and_removals() {
    let mut list = TaskScopeList::default();
    assert_eq!(list.set_root(id(1)), SetRootResult::New);
    assert_eq!(list.multiplicity_of(id(1)), 0);
    assert_eq!(list.multiplicity_of(id(2)), 0);
    assert_eq!(list.try_add(id(2)), AddResult::New);
    assert_eq!(list.multiplicity_of(id(2)), 1);
    assert_eq!(list.try_add(id(2)), AddResult::Existing);
    assert_eq!(list.try_add(id(2)), AddResult::Existing);
    assert_eq!(list.multiplicity_of(id(2)), 3);
    assert_eq!(list.try_add(id(1)), AddResult::Root);
    assert_eq!(list.multiplicity_of(id(1)), 0);
    assert_eq!(list.remove(id(2)), RemoveResult::Decreased);
    assert_eq!(list.multiplicity_of(id(2)), 2);
    assert_eq!(list.remove(id(2)), RemoveResult::Decreased);
    assert_eq!(list.remove(id(2)), RemoveResult::Removed);
    assert_eq!(list.multiplicity_of(id(2)), 0);
}

#[test]
fn scope_that_becomes_root_leaves_the_table() {
    let mut list = TaskScopeList::default();
    assert_eq!(list.try_add(id(4)), AddResult::New);
    assert_eq!(list.try_add(id(4)), AddResult::Existing);
    assert_eq!(list.set_root(id(4)), SetRootResult::New);
    assert_eq!(list.root(), Some(id(4)));
    assert_eq!(list.contains(id(4)), ContainsResult::Root);
    assert_eq!(list.multiplicity_of(id(4)), 0);
    assert_eq!(collect(list.iter()), vec![4]);
    assert_eq!(collect(list.iter_non_root()), Vec::<usize>::new());
    assert_eq!(list.try_add(id(4)), AddResult::Root);
    assert_eq!(list.remove(id(4)), RemoveResult::Root);
    assert_eq!(collect(list.iter()), vec![4]);
}

#[test]
fn new_root_gives_its_slot_to_the_last_entry() {
    let mut list = TaskScopeList::default();
    assert_eq!(list.try_add(id(1)), AddResult::New);
    assert_eq!(list.try_add(id(2)), AddResult::New);
    assert_eq!(list.try_add(id(2)), AddResult::Existing);
    assert_eq!(list.try_add(id(3)), AddResult::New);
    assert_eq!(list.set_root(id(1)), SetRootResult::New);
    assert_eq!(collect(list.iter_non_root()), vec![3, 2]);
    assert_eq!(collect(list.iter()), vec![1, 3, 2]);
    assert_eq!(list.multiplicity_of(id(2)), 2);
    assert_eq!(list.multiplicity_of(id(3)), 1);
    assert_eq!(list.contains(id(1)), ContainsResult::Root);
    assert_eq!(list.contains(id(3)), ContainsResult::Entry);
}

#[test]
fn refused_root_leaves_the_table_alone() {
    let mut list = TaskScopeList::default();
    assert_eq!(list.set_root(id(1)), SetRootResult::New);
    assert_eq!(list.try_add(id(2)), AddResult::New);
    assert_eq!(list.set_root(id(2)), SetRootResult::AlreadyOtherRoot);
    assert_eq!(list.root(), Some(id(1)));
    assert_eq!(list.contains(id(2)), ContainsResult::Entry);
    assert_eq!(collect(list.iter()), vec![1, 2]);
    assert_eq!(list.set_root(id(1)), SetRootResult::Existing);
    assert_eq!(collect(list.iter()), vec![1, 2]);
}

#[test]
fn root_reads_the_root() {
    let mut list = TaskScopeList::default();
    assert_eq!(list.root(), None);
    assert_eq!(list.set_root(id(8)), SetRootResult::New);
    assert_eq!(list.root(), Some(id(8)));
    assert_eq!(list.root, Some(id(8)));
}

#[test]
fn walk_without_root_gives_the_entries_once() {
    let mut list = TaskScopeList::default();
    assert_eq!(list.set_root(id(1)), SetRootResult::New);
    assert_eq!(list.try_add(id(2)), AddResult::New);
    assert_eq!(list.try_add(id(3)), AddResult::New);
    assert_eq!(list.try_add(id(2)), AddResult::Existing);
    assert_eq!(list.try_add(id(1)), AddResult::Root);
    let walk = collect(list.iter_non_root());
    assert_eq!(walk, vec![2, 3]);
    for n in 0..5 {
        let entry = list.contains(id(n)) == ContainsResult::Entry;
        assert_eq!(walk.contains(&n), entry);
    }
    let mut all = vec![1];
    all.extend(walk);
    assert_eq!(collect(list.iter()), all);
}
