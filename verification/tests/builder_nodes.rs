use closet::bdd::Node;
use closet::closet_builder::ClosetBuilder;
use closet::items::{Family, Item};

#[test]
fn two_families_with_one_item_each() {
    let blue = Item::new("shirts:blue");
    let jeans = Item::new("pants:jeans");

    let shirts = Family::new("shirts");
    let pants = Family::new("pants");

    let closet_builder = ClosetBuilder::new()
        .add_item(&shirts, &blue)
        .add_item(&pants, &jeans);

    let closet = closet_builder.must_build();

    let expected_cousin_node = {
        let high_branch = Node::positive_branch(&blue);
        let parent_branch = Node::branch(&jeans, Node::false_leaf(), high_branch);

        parent_branch
    };

    assert_eq!(&expected_cousin_node, closet.root());

    let both_selected = {
        let closet = closet.select_item(&jeans);
        closet.select_item(&blue)
    };
    assert_eq!(&Node::true_leaf(), both_selected.root());

    let expected = Node::positive_branch(&jeans);
    let blue_selected = closet.select_item(&blue);
    assert_eq!(&expected, blue_selected.root());

    let expected = Node::positive_branch(&blue);
    let jeans_selected = closet.select_item(&jeans);
    assert_eq!(&expected, jeans_selected.root());
}

#[test]
fn one_family_with_two_items() {
    let blue = Item::new("shirts:blue");
    let red = Item::new("shirts:red");

    let shirts = Family::new("shirts");

    let closet_builder = ClosetBuilder::new()
        .add_item(&shirts, &red)
        .add_item(&shirts, &blue);

    let closet = closet_builder.must_build();

    let expected_sibling_node = {
        let low_branch = Node::positive_branch(&red);
        let high_branch = Node::negative_branch(&red);
        let parent_branch = Node::branch(&blue, low_branch, high_branch);

        parent_branch
    };
    assert_eq!(&expected_sibling_node, closet.root());

    let expected = Node::negative_branch(&blue);
    let red_selected = closet.select_item(&red);
    assert_eq!(&expected, red_selected.root());

    let expected = Node::negative_branch(&red);
    let blue_selected = closet.select_item(&blue);
    assert_eq!(&expected, blue_selected.root());
}

#[test]
fn two_families_with_two_items() {
    let blue = Item::new("shirts:blue");
    let red = Item::new("shirts:red");

    let jeans = Item::new("pants:jeans");
    let slacks = Item::new("pants:slacks");

    let shirts = Family::new("shirts");
    let pants = Family::new("pants");

    let closet_builder = ClosetBuilder::new()
        .add_item(&shirts, &red)
        .add_item(&shirts, &blue)
        .add_item(&pants, &jeans)
        .add_item(&pants, &slacks);

    let closet = closet_builder.must_build();

    let blue_low_branch = Node::positive_branch(&red);
    let blue_high_branch = Node::negative_branch(&red);
    let blue_branch = Node::branch(&blue, blue_low_branch, blue_high_branch);

    let jeans_low_branch = Node::branch(&slacks, Node::false_leaf(), blue_branch.clone());
    let jeans_high_branch = Node::branch(&slacks, blue_branch.clone(), Node::false_leaf());
    let jeans_branch = Node::branch(&jeans, jeans_low_branch, jeans_high_branch);

    let expected_sibling_node = jeans_branch;
    assert_eq!(&expected_sibling_node, closet.root());

    let red_selected = closet.select_item(&red);
    let expected = {
        let jeans_low_branch =
            Node::positive_branch(&slacks).and(&Node::negative_branch(&blue));
        let jeans_high_branch =
            Node::negative_branch(&slacks).and(&Node::negative_branch(&blue));

        Node::branch(&jeans, jeans_low_branch, jeans_high_branch)
    };
    assert_eq!(&expected, red_selected.root());

    let blue_selected = closet.select_item(&blue);
    let expected = {
        let jeans_low_branch = Node::positive_branch(&slacks).and(&Node::negative_branch(&red));
        let jeans_high_branch =
            Node::negative_branch(&slacks).and(&Node::negative_branch(&red));

        Node::branch(&jeans, jeans_low_branch, jeans_high_branch)
    };
    assert_eq!(&expected, blue_selected.root());
}

#[test]
fn one_families_with_three_items() {
    let blue = Item::new("shirts:blue");
    let red = Item::new("shirts:red");
    let black = Item::new("shirts:black");

    let shirts = Family::new("shirts");

    let closet_builder = ClosetBuilder::new()
        .add_item(&shirts, &red)
        .add_item(&shirts, &blue)
        .add_item(&shirts, &black);

    let closet = closet_builder.must_build();

    let blue_low_branch = Node::positive_branch(&red);
    let blue_high_branch = Node::negative_branch(&red);
    let black_low_branch = Node::branch(&blue, blue_low_branch, blue_high_branch.clone());
    let black_high_branch = Node::branch(&blue, blue_high_branch, Node::false_leaf());

    let black_branch = Node::branch(&black, black_low_branch, black_high_branch);

    let expected_sibling_node = black_branch;
    assert_eq!(&expected_sibling_node, closet.root());
}

#[test]
fn one_families_with_four_items() {
    let blue = Item::new("shirts:blue");
    let red = Item::new("shirts:red");
    let black = Item::new("shirts:black");
    let grey = Item::new("shirts:grey");

    let shirts = Family::new("shirts");

    let closet_builder = ClosetBuilder::new()
        .add_item(&shirts, &red)
        .add_item(&shirts, &blue)
        .add_item(&shirts, &black)
        .add_item(&shirts, &grey);

    let closet = closet_builder.must_build();

    let grey_low_branch = Node::positive_branch(&red);
    let grey_high_branch = Node::negative_branch(&red);
    let blue_low_branch = Node::branch(&grey, grey_low_branch, grey_high_branch.clone());
    let blue_high_branch = Node::branch(&grey, grey_high_branch, Node::false_leaf());
    let black_low_branch = Node::branch(&blue, blue_low_branch, blue_high_branch.clone());
    let black_high_branch = Node::branch(&blue, blue_high_branch, Node::false_leaf());

    let black_branch = Node::branch(&black, black_low_branch, black_high_branch);

    let expected_sibling_node = black_branch;
    assert_eq!(&expected_sibling_node, closet.root());
}

#[test]
fn one_families_with_five_items() {
    let blue = Item::new("shirts:blue");
    let red = Item::new("shirts:red");
    let black = Item::new("shirts:black");
    let grey = Item::new("shirts:grey");
    let green = Item::new("shirts:green");

    let shirts = Family::new("shirts");

    let closet_builder = ClosetBuilder::new()
        .add_item(&shirts, &red)
        .add_item(&shirts, &blue)
        .add_item(&shirts, &black)
        .add_item(&shirts, &grey)
        .add_item(&shirts, &green);

    let closet = closet_builder.must_build();

    let grey_low_branch = Node::positive_branch(&red);
    let grey_high_branch = Node::negative_branch(&red);
    let green_low_branch = Node::branch(&grey, grey_low_branch, grey_high_branch.clone());
    let green_high_branch = Node::branch(&grey, grey_high_branch, Node::false_leaf());
    let blue_low_branch = Node::branch(&green, green_low_branch, green_high_branch.clone());
    let blue_high_branch = Node::branch(&green, green_high_branch, Node::false_leaf());
    let black_low_branch = Node::branch(&blue, blue_low_branch, blue_high_branch.clone());
    let black_high_branch = Node::branch(&blue, blue_high_branch, Node::false_leaf());

    let black_branch = Node::branch(&black, black_low_branch, black_high_branch);

    let expected_sibling_node = black_branch;
    assert_eq!(&expected_sibling_node, closet.root());
}

#[test]
fn exclusion_rule_produces_expected_bdd() {
    let blue = Item::new("shirts:blue");
    let red = Item::new("shirts:red");

    let jeans = Item::new("pants:jeans");
    let slacks = Item::new("pants:slacks");

    let shirts = Family::new("shirts");
    let pants = Family::new("pants");

    let closet_builder = ClosetBuilder::new()
        .add_item(&shirts, &red)
        .add_item(&shirts, &blue)
        .add_item(&pants, &slacks)
        .add_item(&pants, &jeans)
        .add_exclusion_rule(&red, &jeans);

    let closet = closet_builder.must_build();

    let expected = {
        let shirts_branch = Node::positive_branch(&red).xor(&Node::positive_branch(&blue));
        let pants_branch = Node::positive_branch(&slacks).xor(&Node::positive_branch(&jeans));

        let exclusion = Node::negative_branch(&red).or(&Node::negative_branch(&jeans));
        let root = shirts_branch.and(&pants_branch);

        root.and(&exclusion)
    };
    assert_eq!(&expected, closet.root());
}

#[test]
fn selecting_red_disallows_selecting_jeans() {
    let blue = Item::new("shirts:blue");
    let red = Item::new("shirts:red");

    let jeans = Item::new("pants:jeans");
    let slacks = Item::new("pants:slacks");

    let shirts = Family::new("shirts");
    let pants = Family::new("pants");

    let closet_builder = ClosetBuilder::new()
        .add_item(&shirts, &red)
        .add_item(&shirts, &blue)
        .add_item(&pants, &slacks)
        .add_item(&pants, &jeans)
        .add_exclusion_rule(&red, &jeans);

    let closet = closet_builder.must_build();

    let red_and_jeans_selected = closet.select_item(&red);

    let expected = Node::negative_branch(&jeans)
        .and(&Node::positive_branch(&slacks))
        .and(&Node::negative_branch(&blue));
    assert_eq!(&expected, red_and_jeans_selected.root());
}

#[test]
fn inclusion_rule_produces_expected_bdd() {
    let blue = Item::new("shirts:blue");
    let red = Item::new("shirts:red");

    let jeans = Item::new("pants:jeans");
    let slacks = Item::new("pants:slacks");

    let shirts = Family::new("shirts");
    let pants = Family::new("pants");

    let closet_builder = ClosetBuilder::new()
        .add_item(&shirts, &red)
        .add_item(&shirts, &blue)
        .add_item(&pants, &slacks)
        .add_item(&pants, &jeans)
        .add_inclusion_rule(&red, &jeans);

    let closet = closet_builder.must_build();

    let expected = {
        let shirts_branch = Node::positive_branch(&red).xor(&Node::positive_branch(&blue));
        let pants_branch = Node::positive_branch(&slacks).xor(&Node::positive_branch(&jeans));

        let inclusion = Node::negative_branch(&red).or(&Node::positive_branch(&jeans));
        let root = shirts_branch.and(&pants_branch);

        root.and(&inclusion)
    };
    assert_eq!(&expected, closet.root());
}

#[test]
fn selecting_red_requires_selecting_jeans() {
    let blue = Item::new("shirts:blue");
    let red = Item::new("shirts:red");

    let jeans = Item::new("pants:jeans");
    let slacks = Item::new("pants:slacks");

    let shirts = Family::new("shirts");
    let pants = Family::new("pants");

    let closet_builder = ClosetBuilder::new()
        .add_item(&shirts, &red)
        .add_item(&shirts, &blue)
        .add_item(&pants, &slacks)
        .add_item(&pants, &jeans)
        .add_inclusion_rule(&red, &jeans);

    let closet = closet_builder.must_build();

    let red_and_jeans_selected = closet.select_item(&red);

    let expected = Node::negative_branch(&slacks)
        .and(&Node::positive_branch(&jeans))
        .and(&Node::negative_branch(&blue));
    assert_eq!(&expected, red_and_jeans_selected.root());
}

#[test]
fn builder_reports_conflicting_families() {
    let blue = Item::new("shirts:blue");

    let shirts = Family::new("shirts");
    let pants = Family::new("pants");

    let builder = ClosetBuilder::new()
        .add_item(&shirts, &blue)
        .add_item(&pants, &blue);

    match builder.build() {
        Err(closet::closet_builder::Error::ConflictingFamilies(v)) => {
            assert_eq!(1, v.len());
            assert!(v[0].0 == blue);
            assert!(v[0].1 == vec![shirts, pants]);
        },
        other => panic!("expected conflicting families, got {:?}", other),
    }
}

#[test]
fn builder_reports_illegal_rules() {
    let blue = Item::new("shirts:blue");
    let red = Item::new("shirts:red");

    let shirts = Family::new("shirts");

    let builder = ClosetBuilder::new()
        .add_item(&shirts, &blue)
        .add_item(&shirts, &red)
        .add_inclusion_rule(&red, &blue)
        .add_inclusion_rule(&red, &blue);

    match builder.build() {
        Err(closet::closet_builder::Error::InclusionError(v)) => {
            // the duplicate rule collapses to one report
            assert_eq!(1, v.len());
            assert!(v[0].0 == shirts);
            assert!(v[0].1 == vec![blue.clone(), red.clone()]);
        },
        other => panic!("expected an inclusion error, got {:?}", other),
    }

    let builder = ClosetBuilder::new()
        .add_item(&shirts, &blue)
        .add_item(&shirts, &red)
        .add_exclusion_rule(&red, &blue);

    match builder.build() {
        Err(closet::closet_builder::Error::ExclusionError(v)) => {
            assert_eq!(1, v.len());
            assert!(v[0].0 == shirts);
            assert!(v[0].1 == vec![blue, red]);
        },
        other => panic!("expected an exclusion error, got {:?}", other),
    }
}

#[test]
fn reduce_is_a_no_op_on_built_closets() {
    let blue = Item::new("shirts:blue");
    let jeans = Item::new("pants:jeans");

    let shirts = Family::new("shirts");
    let pants = Family::new("pants");

    let closet = ClosetBuilder::new()
        .add_item(&shirts, &blue)
        .add_item(&pants, &jeans)
        .must_build();

    let reduced = closet.reduce();
    assert_eq!(closet.root(), reduced.root());
}
