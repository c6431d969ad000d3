use nix_output_monitor::render::selection::{select_derivations_to_show, SelectNode};

fn node(parents: Vec<usize>, inputs: Vec<usize>, active_build: bool, summary_empty: bool, rank: usize) -> SelectNode {
    SelectNode { parents, inputs, active_build, summary_empty, rank }
}

fn shown(selected: &[bool]) -> Vec<usize> {
    selected.iter().enumerate().filter(|(_, &s)| s).map(|(i, _)| i).collect()
}

#[test]
fn selection_for_no_rows_is_empty() {
    let nodes = vec![node(vec![], vec![1], false, false, 0), node(vec![0], vec![], true, false, 0)];
    let selected = select_derivations_to_show(&nodes, &vec![0], &vec![], 0);
    assert_eq!(selected, vec![false, false]);
}

#[test]
fn selection_without_active_walks_level_by_level() {
    // 0 takes 1, 2 and 3; 1 takes 4 and 5. Everything shows something and
    // nothing is active, so three rows take the root and its first two inputs.
    let nodes = vec![
        node(vec![], vec![1, 2, 3], false, false, 0),
        node(vec![0], vec![4, 5], false, false, 0),
        node(vec![0], vec![], false, false, 0),
        node(vec![0], vec![], false, false, 0),
        node(vec![1], vec![], false, false, 0),
        node(vec![1], vec![], false, false, 0),
    ];
    assert_eq!(shown(&select_derivations_to_show(&nodes, &vec![0], &vec![], 3)), vec![0, 1, 2]);
    assert_eq!(shown(&select_derivations_to_show(&nodes, &vec![0], &vec![], 5)), vec![0, 1, 2, 3, 4]);
    assert_eq!(shown(&select_derivations_to_show(&nodes, &vec![0], &vec![], 50)), vec![0, 1, 2, 3, 4, 5]);
}

#[test]
fn selection_without_active_keeps_roots_beyond_the_window() {
    let nodes = vec![
        node(vec![], vec![2], false, false, 0),
        node(vec![], vec![], false, false, 0),
        node(vec![0], vec![], false, false, 0),
    ];
    assert_eq!(shown(&select_derivations_to_show(&nodes, &vec![0, 1], &vec![], 1)), vec![0, 1]);
}

#[test]
fn selection_fills_left_rows_by_rank() {
    // 1 is active (named by the summary); 2, 3 and 4 are the other inputs of
    // the root, ranked 5, 1 and 3. Two rows are left after the root and 1.
    let nodes = vec![
        node(vec![], vec![1, 2, 3, 4], false, false, 0),
        node(vec![0], vec![], false, false, 0),
        node(vec![0], vec![], false, false, 5),
        node(vec![0], vec![], false, false, 1),
        node(vec![0], vec![], false, false, 3),
    ];
    assert_eq!(shown(&select_derivations_to_show(&nodes, &vec![0], &vec![1], 4)), vec![0, 1, 3, 4]);
    assert_eq!(shown(&select_derivations_to_show(&nodes, &vec![0], &vec![1], 3)), vec![0, 1, 3]);
    assert_eq!(shown(&select_derivations_to_show(&nodes, &vec![0], &vec![1], 2)), vec![0, 1]);
}

#[test]
fn selection_breaks_rank_ties_in_the_order_met() {
    let nodes = vec![
        node(vec![], vec![1, 2, 3], false, false, 0),
        node(vec![0], vec![], true, false, 0),
        node(vec![0], vec![], false, false, 4),
        node(vec![0], vec![], false, false, 4),
    ];
    assert_eq!(shown(&select_derivations_to_show(&nodes, &vec![0], &vec![], 3)), vec![0, 1, 2]);
}

#[test]
fn selection_keeps_the_whole_active_chain_past_the_window() {
    // A chain 0 <- 1 <- 2 <- 3 with 3 failing: all four stay in one row.
    let nodes = vec![
        node(vec![], vec![1], false, false, 0),
        node(vec![0], vec![2], false, false, 0),
        node(vec![1], vec![3], false, false, 0),
        node(vec![2], vec![], true, false, 0),
    ];
    assert_eq!(shown(&select_derivations_to_show(&nodes, &vec![0], &vec![], 1)), vec![0, 1, 2, 3]);
}

#[test]
fn selection_skips_inputs_that_show_nothing() {
    // The root's inputs 2 and 3 show nothing; only 4 fills the left row.
    let nodes = vec![
        node(vec![], vec![1, 2, 3, 4], false, false, 0),
        node(vec![0], vec![], false, false, 0),
        node(vec![0], vec![], false, true, 0),
        node(vec![0], vec![], false, true, 0),
        node(vec![0], vec![], false, false, 9),
    ];
    assert_eq!(shown(&select_derivations_to_show(&nodes, &vec![0], &vec![1], 10)), vec![0, 1, 4]);
}
