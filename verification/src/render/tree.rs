//! Drawing a forest as indented rows with box-drawing branches.
use vstd::prelude::*;
use crate::text::{chars_of, string_of};

verus! {

pub struct TreeNode<T> {
    pub label: String,
    pub extra: T,
    pub children: Vec<TreeNode<T>>,
}

pub const BRANCH_LAST: &'static str = "\x1b[34m┌─ \x1b[0m";
pub const BRANCH_MID: &'static str = "\x1b[34m├─ \x1b[0m";
pub const CONT_LAST: &'static str = "   ";
pub const CONT_MID: &'static str = "\x1b[34m│  \x1b[0m";

pub open spec fn branch(is_last: bool) -> Seq<char> {
    if is_last {
        BRANCH_LAST@
    } else {
        BRANCH_MID@
    }
}

pub open spec fn continuation(is_last: bool) -> Seq<char> {
    if is_last {
        CONT_LAST@
    } else {
        CONT_MID@
    }
}

/// The rows of a subtree, top-down: the node behind its branch, then its
/// children under the continued prefix, the last child with the closing branch.
pub open spec fn subtree_rows<T>(node: TreeNode<T>, prefix: Seq<char>, is_last: bool) -> Seq<(Seq<char>, T)>
    decreases node, 0nat,
{
    seq![(prefix + branch(is_last) + node.label@, node.extra)] + children_rows(
        node.children@,
        node.children@.len(),
        prefix + continuation(is_last),
    )
}

/// The rows of the first `k` of the children `cs`.
pub open spec fn children_rows<T>(cs: Seq<TreeNode<T>>, k: nat, prefix: Seq<char>) -> Seq<(Seq<char>, T)>
    decreases cs, k,
{
    if k == 0 || k > cs.len() {
        Seq::empty()
    } else {
        children_rows(cs, (k - 1) as nat, prefix) + subtree_rows(
            cs[k - 1],
            prefix,
            k == cs.len(),
        )
    }
}

/// The rows of the first `k` roots of a forest, top-down: each root's label
/// as it is, then its children.
pub open spec fn forest_rows<T>(forest: Seq<TreeNode<T>>, k: nat) -> Seq<(Seq<char>, T)>
    decreases k,
{
    if k == 0 || k > forest.len() {
        Seq::empty()
    } else {
        let node = forest[k - 1];
        forest_rows(forest, (k - 1) as nat) + seq![(node.label@, node.extra)] + children_rows(
            node.children@,
            node.children@.len(),
            Seq::empty(),
        )
    }
}

/// `out` holds `rows` in order, each label exactly and each extra as a clone.
pub open spec fn holds_rows<T: Clone>(out: Seq<(String, T)>, rows: Seq<(Seq<char>, T)>) -> bool {
    &&& out.len() == rows.len()
    &&& forall|i: int|
        0 <= i < out.len() ==> (#[trigger] out[i]).0@ == rows[i].0 && cloned(rows[i].1, out[i].1)
}

fn append_chars(prefix: &Vec<char>, s: &str) -> (r: Vec<char>)
    ensures
        r@ == prefix@ + s@,
{
    let mut r = crate::text::sub_chars(prefix, 0, prefix.len());
    let cs = chars_of(s);
    let mut i: usize = 0;
    assert(prefix@.subrange(0, prefix@.len() as int) =~= prefix@);
    while i < cs.len()
        invariant
            i <= cs.len(),
            r@ == prefix@ + cs@.take(i as int),
        decreases cs.len() - i,
    {
        r.push(cs[i]);
        assert(cs@.take(i + 1) == cs@.take(i as int).push(cs@[i as int]));
        i += 1;
    }
    assert(cs@.take(cs.len() as int) == cs@);
    r
}

fn render_subtree<T: Clone>(node: &TreeNode<T>, prefix: &Vec<char>, is_last: bool, out: &mut Vec<(String, T)>)
    ensures
        final(out)@.len() == old(out)@.len() + subtree_rows(*node, prefix@, is_last).len(),
        final(out)@.take(old(out)@.len() as int) == old(out)@,
        holds_rows(final(out)@.skip(old(out)@.len() as int), subtree_rows(*node, prefix@, is_last)),
    decreases node,
{
    let ghost start = out@.len();
    let row_prefix = append_chars(prefix, if is_last { BRANCH_LAST } else { BRANCH_MID });
    let label = chars_of(node.label.as_str());
    let mut row: Vec<char> = row_prefix;
    let mut i: usize = 0;
    let ghost rp = row@;
    while i < label.len()
        invariant
            i <= label.len(),
            row@ == rp + label@.take(i as int),
        decreases label.len() - i,
    {
        row.push(label[i]);
        assert(label@.take(i + 1) == label@.take(i as int).push(label@[i as int]));
        i += 1;
    }
    assert(label@.take(label.len() as int) == label@);
    let row_str = string_of(&row, 0, row.len());
    assert(row@.subrange(0, row@.len() as int) =~= row@);
    out.push((row_str, node.extra.clone()));
    let child_prefix = append_chars(prefix, if is_last { CONT_LAST } else { CONT_MID });
    let num_children = node.children.len();
    let mut k: usize = 0;
    while k < num_children
        invariant
            k <= num_children == node.children@.len(),
            out@.len() == start + 1 + children_rows(node.children@, k as nat, child_prefix@).len(),
            out@.take(start as int) == old(out)@,
            start == old(out)@.len(),
            holds_rows(out@.skip(start as int), seq![(prefix@ + branch(is_last) + node.label@, node.extra)] + children_rows(node.children@, k as nat, child_prefix@)),
            child_prefix@ == prefix@ + continuation(is_last),
        decreases num_children - k,
    {
        let ghost before = out@;
        let child = &node.children[k];
        render_subtree(child, &child_prefix, k + 1 == num_children, out);
        proof {
            let sr = subtree_rows(*child, child_prefix@, k + 1 == num_children);
            let prev_rows = seq![(prefix@ + branch(is_last) + node.label@, node.extra)] + children_rows(node.children@, k as nat, child_prefix@);
            assert(children_rows(node.children@, (k + 1) as nat, child_prefix@) == children_rows(node.children@, k as nat, child_prefix@) + sr);
            assert(out@.take(start as int) =~= old(out)@) by {
                assert(out@.take(before.len() as int) == before);
            }
            assert forall|j: int| 0 <= j < out@.skip(start as int).len() implies (#[trigger] out@.skip(start as int)[j]).0@ == (prev_rows + sr)[j].0 && cloned((prev_rows + sr)[j].1, out@.skip(start as int)[j].1) by {
                if j < prev_rows.len() {
                    assert(out@.skip(start as int)[j] == before.skip(start as int)[j]);
                    assert(out@.take(before.len() as int) == before);
                    assert(out@[start + j] == before[start + j]);
                } else {
                    assert(out@.skip(start as int)[j] == out@.skip(before.len() as int)[j - prev_rows.len()]);
                }
            }
        }
        k += 1;
    }
}

/// The rows of a forest, bottom-up: each root's label, then its subtrees
/// with branches, in reverse order so that roots come last.
pub fn show_forest<T: Clone>(forest: &[TreeNode<T>]) -> (r: Vec<(String, T)>)
    ensures
        holds_rows(r@, forest_rows(forest@, forest@.len()).reverse()),
{
    let mut rows: Vec<(String, T)> = Vec::new();
    let empty: Vec<char> = Vec::new();
    let mut n: usize = 0;
    while n < forest.len()
        invariant
            n <= forest@.len(),
            empty@ == Seq::<char>::empty(),
            holds_rows(rows@, forest_rows(forest@, n as nat)),
        decreases forest.len() - n,
    {
        let node = &forest[n];
        let ghost before = rows@;
        rows.push((node.label.clone(), node.extra.clone()));
        let ghost after_root = rows@;
        assert(holds_rows(rows@, forest_rows(forest@, n as nat) + seq![(node.label@, node.extra)])) by {
            assert forall|i: int| 0 <= i < rows@.len() implies (#[trigger] rows@[i]).0@ == (forest_rows(forest@, n as nat) + seq![(node.label@, node.extra)])[i].0 && cloned((forest_rows(forest@, n as nat) + seq![(node.label@, node.extra)])[i].1, rows@[i].1) by {
                if i < before.len() {
                    assert(rows@[i] == before[i]);
                }
            }
        }
        let num_children = node.children.len();
        let mut k: usize = 0;
        while k < num_children
            invariant
                k <= num_children == node.children@.len(),
                n < forest@.len(),
                node == forest@[n as int],
                empty@ == Seq::<char>::empty(),
                holds_rows(rows@, forest_rows(forest@, n as nat) + seq![(node.label@, node.extra)] + children_rows(node.children@, k as nat, Seq::empty())),
            decreases num_children - k,
        {
            let ghost b = rows@;
            let ghost prev_rows = forest_rows(forest@, n as nat) + seq![(node.label@, node.extra)] + children_rows(node.children@, k as nat, Seq::empty());
            let child = &node.children[k];
            render_subtree(child, &empty, k + 1 == num_children, &mut rows);
            proof {
                let sr = subtree_rows(*child, Seq::empty(), k + 1 == num_children);
                assert(children_rows(node.children@, (k + 1) as nat, Seq::empty()) == children_rows(node.children@, k as nat, Seq::empty()) + sr);
                assert(prev_rows + sr =~= forest_rows(forest@, n as nat) + seq![(node.label@, node.extra)] + children_rows(node.children@, (k + 1) as nat, Seq::empty()));
                assert forall|i: int| 0 <= i < rows@.len() implies (#[trigger] rows@[i]).0@ == (prev_rows + sr)[i].0 && cloned((prev_rows + sr)[i].1, rows@[i].1) by {
                    if i < b.len() {
                        assert(rows@.take(b.len() as int) == b);
                        assert(rows@[i] == b[i]);
                    } else {
                        assert(rows@[i] == rows@.skip(b.len() as int)[i - b.len()]);
                    }
                }
            }
            k += 1;
        }
        proof {
            assert(forest_rows(forest@, (n + 1) as nat) == forest_rows(forest@, n as nat) + seq![(node.label@, node.extra)] + children_rows(node.children@, node.children@.len(), Seq::empty()));
        }
        n += 1;
    }
    let ghost fr = forest_rows(forest@, forest@.len());
    let ghost orig = rows@;
    let mut result: Vec<(String, T)> = Vec::new();
    while rows.len() > 0
        invariant
            holds_rows(orig, fr),
            rows@ == orig.take(rows@.len() as int),
            rows@.len() <= orig.len(),
            result@.len() == orig.len() - rows@.len(),
            forall|i: int| 0 <= i < result@.len() ==> #[trigger] result@[i] == orig[orig.len() - 1 - i],
        decreases rows.len(),
    {
        let ghost b = rows@;
        let item = rows.pop().unwrap();
        assert(item == orig[b.len() - 1]);
        assert(rows@ =~= orig.take(rows@.len() as int));
        result.push(item);
    }
    assert forall|i: int| 0 <= i < result@.len() implies (#[trigger] result@[i]).0@ == fr.reverse()[i].0 && cloned(fr.reverse()[i].1, result@[i].1) by {
        assert(result@[i] == orig[orig.len() - 1 - i]);
    }
    result
}

} // verus!
