use pytrace::clause::{vec_union, Clause, Primitive};
use pytrace::tree::{Construct, InterTree, Interaction};

fn prim(id: usize) -> Primitive {
    Primitive { id }
}

fn leaf(id: usize) -> InterTree {
    InterTree::Item(prim(id))
}

fn ids(v: &Vec<Primitive>) -> Vec<usize> {
    v.iter().map(|p| p.id).collect()
}

fn shape(form: &Vec<Clause>) -> Vec<(Vec<usize>, Vec<usize>)> {
    form.iter().map(|c| (ids(&c.inside), ids(&c.outside))).collect()
}

#[test]
fn leaf_identity() {
    let form = leaf(7).canonical();
    assert_eq!(shape(&form), vec![(vec![7], vec![])]);
    let c = prim(7).extract();
    assert_eq!(ids(&c.inside), vec![7]);
    assert!(c.outside.is_empty());
}

#[test]
fn union_concatenates_clauses() {
    let a = leaf(0).diff(leaf(1));
    let b = leaf(2).inter(leaf(3));
    let ab = a.union(b).canonical();
    assert_eq!(shape(&ab), vec![(vec![0], vec![1]), (vec![2, 3], vec![])]);
    let ba = leaf(2).inter(leaf(3)).union(leaf(0).diff(leaf(1))).canonical();
    let mut x = shape(&ab);
    let mut y = shape(&ba);
    x.sort();
    y.sort();
    assert_eq!(x, y);
}

#[test]
fn union_regrouping_gives_same_clauses() {
    let left = leaf(0).union(leaf(1)).union(leaf(2)).canonical();
    let right = leaf(0).union(leaf(1).union(leaf(2))).canonical();
    assert_eq!(shape(&left), shape(&right));
    assert_eq!(shape(&left), vec![(vec![0], vec![]), (vec![1], vec![]), (vec![2], vec![])]);
}

#[test]
fn intersection_clause_count() {
    let a = leaf(0).union(leaf(1)).union(leaf(2));
    let b = leaf(3).union(leaf(4));
    let form = a.inter(b).canonical();
    assert_eq!(form.len(), 6);
    assert_eq!(
        shape(&form),
        vec![
            (vec![0, 3], vec![]),
            (vec![0, 4], vec![]),
            (vec![1, 3], vec![]),
            (vec![1, 4], vec![]),
            (vec![2, 3], vec![]),
            (vec![2, 4], vec![]),
        ]
    );
}

#[test]
fn intersection_of_two_leaves() {
    let form = leaf(1).inter(leaf(2)).canonical();
    assert_eq!(shape(&form), vec![(vec![1, 2], vec![])]);
}

#[test]
fn intersection_merges_outside_lists() {
    let form = leaf(0).diff(leaf(1)).inter(leaf(2).diff(leaf(3))).canonical();
    assert_eq!(shape(&form), vec![(vec![0, 2], vec![1, 3])]);
}

#[test]
fn difference_single_out() {
    // A = 0, C = 1, D = 2
    let y = leaf(1).diff(leaf(2));
    assert_eq!(shape(&y.canonical()), vec![(vec![1], vec![2])]);
    let form = leaf(0).diff(y).canonical();
    assert_eq!(shape(&form), vec![(vec![0], vec![1]), (vec![0, 2], vec![])]);
}

#[test]
fn difference_multi_out_folds_outside_list() {
    // A = 0, C = 1, D1 = 2, D2 = 3
    let y = leaf(1).diff(leaf(2).union(leaf(3)));
    assert_eq!(shape(&y.canonical()), vec![(vec![1], vec![2, 3])]);
    let form = leaf(0).diff(y).canonical();
    assert_eq!(shape(&form), vec![(vec![0], vec![1]), (vec![0, 2, 3], vec![])]);
}

#[test]
fn difference_folds_each_subtrahend_clause() {
    // 2 \ (0 | 1): the clauses of 0 | 1 are taken away one after the other
    let form = leaf(2).diff(leaf(0).union(leaf(1))).canonical();
    assert_eq!(shape(&form), vec![(vec![2], vec![0, 1])]);
}

#[test]
fn construct_operations_keep_operands() {
    let a = prim(0).wrap();
    let b = prim(1).wrap();
    let i = a.inter(&b);
    let u = a.union(&b);
    let d = a.diff(&b);
    assert_eq!(shape(&i.canonical()), vec![(vec![0, 1], vec![])]);
    assert_eq!(shape(&u.canonical()), vec![(vec![0], vec![]), (vec![1], vec![])]);
    assert_eq!(shape(&d.canonical()), vec![(vec![0], vec![1])]);
    assert_eq!(shape(&a.canonical()), vec![(vec![0], vec![])]);
    assert_eq!(shape(&b.canonical()), vec![(vec![1], vec![])]);
    match &d.contents {
        InterTree::Node(op, _, _) => assert_eq!(*op, Interaction::Diff),
        InterTree::Item(_) => panic!("expected a node"),
    }
}

#[test]
fn shared_subtree_is_used_twice() {
    let s = leaf(0).union(leaf(1));
    let c = Construct { contents: s };
    let both = c.inter(&c);
    assert_eq!(both.canonical().len(), 4);
    let wrapped = leaf(5).wrap();
    assert_eq!(shape(&wrapped.canonical()), vec![(vec![5], vec![])]);
}

#[test]
fn vec_union_keeps_order() {
    let a = vec![prim(3), prim(1)];
    let b = vec![prim(2)];
    assert_eq!(ids(&vec_union(&a, &b)), vec![3, 1, 2]);
    assert_eq!(ids(&vec_union(&Vec::new(), &b)), vec![2]);
}

#[test]
fn clause_duplicate_is_equal() {
    let c = Clause { inside: vec![prim(1), prim(2)], outside: vec![prim(3)] };
    let d = c.duplicate();
    assert_eq!(ids(&d.inside), vec![1, 2]);
    assert_eq!(ids(&d.outside), vec![3]);
}
