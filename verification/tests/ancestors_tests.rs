use nix_output_monitor::ancestors::{collect_parents_fast, update_parents, ParentNode};

fn pnode(parents: Vec<usize>, irrelevant: bool) -> ParentNode {
    ParentNode { parents, irrelevant }
}

fn sorted(mut v: Vec<usize>) -> Vec<usize> {
    v.sort();
    v
}

// 0 is an input of 1, 1 of 2; 3 is an input of both 1 and 2.
fn chain(irrelevant_one: bool) -> Vec<ParentNode> {
    vec![
        pnode(vec![1], false),
        pnode(vec![2], irrelevant_one),
        pnode(vec![], false),
        pnode(vec![1, 2], false),
    ]
}

#[test]
fn walk_up_reaches_every_ancestor_once() {
    let (visited, collected) = collect_parents_fast(&chain(false), false, &vec![0, 3, 0]);
    assert_eq!(visited, vec![true, true, true, true]);
    assert_eq!(sorted(collected), vec![0, 1, 2, 3]);
}

#[test]
fn walk_up_stops_at_irrelevant_derivations() {
    let (visited, collected) = collect_parents_fast(&chain(true), true, &vec![0]);
    assert_eq!(visited, vec![true, false, false, false]);
    assert_eq!(collected, vec![0]);
    let (visited, _) = collect_parents_fast(&chain(true), false, &vec![0]);
    assert_eq!(visited, vec![true, true, true, false]);
}

#[test]
fn walk_up_ignores_unknown_indices() {
    let (visited, collected) = collect_parents_fast(&chain(false), false, &vec![9]);
    assert_eq!(visited, vec![false, false, false, false]);
    assert!(collected.is_empty());
}

#[test]
fn parent_updates_follow_relevant_derivations() {
    let plan = update_parents(&chain(false), false, &vec![0]);
    assert_eq!(sorted(plan.update), vec![0, 1, 2]);
    assert!(plan.clear.is_empty());
    assert_eq!(sorted(plan.touched), vec![0, 1, 2]);
}

#[test]
fn parent_updates_clear_what_only_irrelevant_derivations_lead_to() {
    let plan = update_parents(&chain(true), false, &vec![0]);
    assert_eq!(plan.update, vec![0]);
    assert_eq!(sorted(plan.clear), vec![1, 2]);
    assert_eq!(sorted(plan.touched), vec![0, 1, 2]);
}

#[test]
fn parent_updates_force_the_direct_parents() {
    let mut nodes = chain(false);
    nodes[0].irrelevant = true;
    let plan = update_parents(&nodes, false, &vec![0]);
    assert!(plan.update.is_empty());
    assert_eq!(sorted(plan.clear), vec![0, 1, 2]);
    let plan = update_parents(&nodes, true, &vec![0]);
    assert_eq!(plan.update, vec![0]);
    assert_eq!(sorted(plan.clear), vec![1, 2]);
    assert_eq!(sorted(plan.touched), vec![0, 1, 2]);
}

#[test]
fn parent_updates_without_direct_parents_change_nothing() {
    let plan = update_parents(&chain(false), true, &vec![]);
    assert!(plan.update.is_empty() && plan.clear.is_empty() && plan.touched.is_empty());
}
