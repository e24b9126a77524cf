use closet::zdd::{combinations, combinations_iter, combinations_with, intersect, mk, offset,
    onset, product, restrict, subset, subset_all, subset_not, summarize, union, Node, Status};

fn singleton(p: usize) -> Node {
    Node::Branch(p, Box::new(Node::Never), Box::new(Node::Always))
}

fn pair(p: usize, q: usize) -> Node {
    // {p, q} with p < q
    let inner = Node::Branch(q, Box::new(Node::Never), Box::new(Node::Always));
    Node::Branch(p, Box::new(Node::Never), Box::new(inner))
}

#[test]
fn union_of_disjoint_singletons_keeps_both() {
    let a = singleton(1);
    let b = singleton(2);
    let u = union(&a, &b);
    let expected = Node::Branch(
        1,
        Box::new(Node::Branch(2, Box::new(Node::Never), Box::new(Node::Always))),
        Box::new(Node::Always),
    );
    assert_eq!(expected, u);
}

#[test]
fn union_with_never_is_identity() {
    let a = pair(1, 2);
    assert_eq!(a, union(&a, &Node::Never));
    assert_eq!(a, union(&Node::Never, &a));
}

#[test]
fn union_with_always_adds_the_empty_set() {
    let a = singleton(3);
    let u = union(&a, &Node::Always);
    let expected = Node::Branch(3, Box::new(Node::Always), Box::new(Node::Always));
    assert_eq!(expected, u);
}

#[test]
fn intersect_of_disjoint_families_is_never() {
    let a = pair(1, 2);
    let b = pair(2, 3);
    assert_eq!(Node::Never, intersect(&a, &b));
}

#[test]
fn intersect_of_equal_families_is_identity() {
    let a = pair(1, 2);
    let b = pair(1, 2);
    assert_eq!(a, intersect(&a, &b));
}

#[test]
fn intersect_with_never_is_never() {
    let a = singleton(7);
    assert_eq!(Node::Never, intersect(&a, &Node::Never));
}

#[test]
fn mk_suppresses_an_empty_high_branch() {
    let lo = singleton(5);
    let collapsed = mk(4, lo.clone(), Node::Never);
    assert_eq!(lo, collapsed);
}

#[test]
fn recursive_and_iterative_enumeration_agree() {
    // the family {{1,2},{2,3}}
    let f = union(&pair(1, 2), &pair(2, 3));
    let rec = combinations(&f);
    let iter = combinations_iter(&f);
    assert_eq!(rec, iter);
    assert_eq!(vec![vec![2usize, 3], vec![1, 2]], rec);
}

#[test]
fn subset_keeps_only_sets_with_the_element() {
    let f = union(&pair(1, 2), &pair(2, 3));
    let with_one = subset(f.clone(), 1);
    assert_eq!(vec![vec![1usize, 2]], combinations(&with_one));
    let with_two = subset(f.clone(), 2);
    // the filtered diagram enumerates its low side first
    assert_eq!(vec![vec![2usize, 3], vec![1, 2]], combinations(&with_two));
    let with_nine = subset(f, 9);
    assert_eq!(Node::Never, with_nine);
}

#[test]
fn subset_all_intersects_the_element_filters() {
    let f = union(&union(&pair(1, 2), &pair(2, 3)), &singleton(2));
    let both = subset_all(f.clone(), &[2, 3]);
    assert_eq!(vec![vec![2usize, 3]], combinations(&both));
    let none = subset_all(f, &[]);
    assert_eq!(3, combinations(&none).len());
}

#[test]
fn subset_not_drops_sets_with_the_element() {
    let f = union(&pair(1, 2), &pair(2, 3));
    let without_one = subset_not(f.clone(), 1);
    assert_eq!(vec![vec![2usize, 3]], combinations(&without_one));
    let without_two = subset_not(f.clone(), 2);
    assert_eq!(Node::Never, without_two);
    let without_nine = subset_not(f.clone(), 9);
    assert_eq!(f, without_nine);
}

#[test]
fn offset_keeps_sets_avoiding_every_element() {
    // the family {{1,2},{2,3}} from a two-set build
    let f = union(&pair(1, 2), &pair(2, 3));
    assert_eq!(vec![vec![2usize, 3]], combinations(&offset(f.clone(), &[1])));
    assert_eq!(0, combinations(&offset(f, &[2])).len());
}

#[test]
fn combinations_with_filters_by_inclusions_and_exclusions() {
    let f = union(&union(&pair(1, 2), &pair(2, 3)), &singleton(4));
    assert_eq!(
        vec![vec![2usize, 3], vec![1, 2]],
        combinations_with(&f, &[2], &[])
    );
    assert_eq!(vec![vec![1usize, 2]], combinations_with(&f, &[2], &[3]));
    assert_eq!(vec![vec![4usize]], combinations_with(&f, &[], &[2]));
    assert_eq!(0, combinations_with(&f, &[2, 4], &[]).len());
}

#[test]
fn summarize_classifies_every_priority() {
    let f = union(&union(&pair(1, 2), &pair(2, 3)), &singleton(4));
    let report = summarize(&f, &[1, 2, 3, 4], &[1], &[]);
    assert_eq!(
        vec![
            (1usize, Status::Selected),
            (2, Status::Required),
            (3, Status::Excluded),
            (4, Status::Excluded),
        ],
        report
    );
    let report = summarize(&f, &[1, 2, 3, 4], &[], &[]);
    assert_eq!(
        vec![
            (1usize, Status::Available),
            (2, Status::Available),
            (3, Status::Available),
            (4, Status::Available),
        ],
        report
    );
}

#[test]
fn product_forms_all_pairwise_unions() {
    // {{1},{2}} x {{3}} == {{1,3},{2,3}}
    let left = union(&singleton(1), &singleton(2));
    let right = singleton(3);
    let prod = product(&left, &right);
    assert_eq!(vec![vec![2usize, 3], vec![1, 3]], combinations(&prod));

    // the unit family is the identity; the empty family annihilates
    assert_eq!(left, product(&left, &Node::Always));
    assert_eq!(Node::Never, product(&left, &Node::Never));

    // overlapping members collapse: {{1,2}} x {{1}} == {{1,2}}
    let overlap = product(&pair(1, 2), &singleton(1));
    assert_eq!(vec![vec![1usize, 2]], combinations(&overlap));
}

#[test]
fn onset_keeps_supersets_and_strips_them() {
    // {{1,2},{2,3}}: onset on 1 keeps {1,2} and strips 1 from it
    let f = union(&pair(1, 2), &pair(2, 3));
    assert_eq!(vec![vec![2usize]], combinations(&onset(f.clone(), &[1])));
    assert_eq!(
        vec![vec![3usize], vec![1]],
        combinations(&onset(f.clone(), &[2]))
    );
    assert_eq!(0, combinations(&onset(f, &[4])).len());
}

#[test]
fn restrict_conditions_the_family() {
    let f = union(&union(&pair(1, 2), &pair(2, 3)), &singleton(4));
    let kept = restrict(f.clone(), &[2], &[3]);
    assert_eq!(vec![vec![1usize, 2]], combinations(&kept));
    let unconstrained = restrict(f, &[], &[]);
    assert_eq!(3, combinations(&unconstrained).len());
}
