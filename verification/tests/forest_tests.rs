use nix_output_monitor::render::forest::{build_display_forest, ShownNode, TreeSource};

fn src(inputs: Vec<usize>, selected: bool, inert: bool, summary_empty: bool) -> TreeSource {
    TreeSource { inputs, selected, inert, summary_empty }
}

fn show(t: &ShownNode) -> String {
    if t.children.is_empty() {
        t.id.to_string()
    } else {
        let inner: Vec<String> = t.children.iter().map(show).collect();
        format!("{}({})", t.id, inner.join(","))
    }
}

fn shown(forest: &[ShownNode]) -> String {
    forest.iter().map(show).collect::<Vec<_>>().join(" ")
}

#[test]
fn shared_input_appears_once_under_its_first_parent() {
    let nodes = vec![
        src(vec![1, 2], true, false, false),
        src(vec![3], true, false, false),
        src(vec![3], true, false, false),
        src(vec![], true, false, false),
    ];
    assert_eq!(shown(&build_display_forest(&nodes, &vec![0])), "0(1(3),2)");
}

#[test]
fn unselected_derivations_and_what_is_below_them_are_left_out() {
    let nodes = vec![
        src(vec![1, 2], true, false, false),
        src(vec![3], false, false, false),
        src(vec![], true, false, false),
        src(vec![], true, false, false),
    ];
    assert_eq!(shown(&build_display_forest(&nodes, &vec![0])), "0(2)");
}

#[test]
fn inert_leaves_are_pruned() {
    // 1 is inert and has nothing below it; 2 is inert, has a subtree but
    // nothing to show; 3 is inert with a subtree and something to show.
    let nodes = vec![
        src(vec![1, 2, 3], true, false, false),
        src(vec![], true, true, false),
        src(vec![4], true, true, true),
        src(vec![5], true, true, false),
        src(vec![], true, false, false),
        src(vec![], true, false, false),
    ];
    assert_eq!(shown(&build_display_forest(&nodes, &vec![0])), "0(3(5))");
}

#[test]
fn roots_are_walked_in_order_and_share_what_they_met() {
    let nodes = vec![
        src(vec![2], true, false, false),
        src(vec![2, 3], true, false, false),
        src(vec![], true, false, false),
        src(vec![], true, false, false),
    ];
    assert_eq!(shown(&build_display_forest(&nodes, &vec![0, 1])), "0(2) 1(3)");
    assert_eq!(shown(&build_display_forest(&nodes, &vec![1, 0])), "1(2,3) 0");
}

#[test]
fn a_root_met_below_another_root_is_not_repeated() {
    let nodes = vec![
        src(vec![1], true, false, false),
        src(vec![], true, false, false),
    ];
    assert_eq!(shown(&build_display_forest(&nodes, &vec![0, 1])), "0(1)");
}
