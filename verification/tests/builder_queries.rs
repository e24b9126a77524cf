use closet::bdd::Node;
use closet::closet_builder::ClosetBuilder;
use closet::items::{Family, Item};

#[test]
fn selecting_jeans_does_not_allow_selecting_red() {
    let blue = Item::new("shirts:blue");
    let red = Item::new("shirts:red");

    let jeans = Item::new("pants:jeans");
    let slacks = Item::new("pants:slacks");

    let shirts = Family::new("shirts");
    let pants = Family::new("pants");

    let closet_builder = ClosetBuilder::new()
        .add_item(&shirts, &red)
        .add_item(&shirts, &blue)
        .add_item(&pants, &slacks)
        .add_item(&pants, &jeans)
        .add_exclusion_rule(&red, &jeans);

    let closet = closet_builder.must_build();

    let red_and_jeans_selected = closet.select_item(&jeans);

    let expected = Node::positive_branch(&blue)
        .and(&Node::negative_branch(&red))
        .and(&Node::negative_branch(&slacks));
    assert_eq!(&expected, red_and_jeans_selected.root());
}

#[test]
fn selecting_slacks_does_not_exclude_any_selection() {
    let blue = Item::new("shirts:blue");
    let red = Item::new("shirts:red");

    let jeans = Item::new("pants:jeans");
    let slacks = Item::new("pants:slacks");

    let shirts = Family::new("shirts");
    let pants = Family::new("pants");

    let closet_builder = ClosetBuilder::new()
        .add_item(&shirts, &red)
        .add_item(&shirts, &blue)
        .add_item(&pants, &slacks)
        .add_item(&pants, &jeans)
        .add_exclusion_rule(&red, &jeans);

    let closet = closet_builder.must_build();

    let red_and_jeans_selected = closet.select_item(&slacks);

    let expected = (Node::positive_branch(&blue).xor(&Node::positive_branch(&red))).and(
        &Node::negative_branch(&jeans),
    );
    assert_eq!(&expected, red_and_jeans_selected.root());
}

#[test]
fn selecting_jeans_does_not_require_any_selection() {
    let blue = Item::new("shirts:blue");
    let red = Item::new("shirts:red");

    let jeans = Item::new("pants:jeans");
    let slacks = Item::new("pants:slacks");

    let shirts = Family::new("shirts");
    let pants = Family::new("pants");

    let closet_builder = ClosetBuilder::new()
        .add_item(&shirts, &red)
        .add_item(&shirts, &blue)
        .add_item(&pants, &slacks)
        .add_item(&pants, &jeans)
        .add_inclusion_rule(&red, &jeans);

    let closet = closet_builder.must_build();

    let red_and_jeans_selected = closet.select_item(&jeans);

    let expected = (Node::positive_branch(&blue).xor(&Node::positive_branch(&red))).and(
        &Node::negative_branch(&slacks),
    );
    assert_eq!(&expected, red_and_jeans_selected.root());
}

#[test]
fn selecting_slacks_does_not_require_any_selection() {
    let blue = Item::new("shirts:blue");
    let red = Item::new("shirts:red");

    let jeans = Item::new("pants:jeans");
    let slacks = Item::new("pants:slacks");

    let shirts = Family::new("shirts");
    let pants = Family::new("pants");

    let closet_builder = ClosetBuilder::new()
        .add_item(&shirts, &red)
        .add_item(&shirts, &blue)
        .add_item(&pants, &slacks)
        .add_item(&pants, &jeans)
        .add_inclusion_rule(&red, &jeans);

    let closet = closet_builder.must_build();

    let red_and_jeans_selected = closet.select_item(&slacks);

    let expected = Node::positive_branch(&blue)
        .and(&Node::negative_branch(&red))
        .and(&Node::negative_branch(&jeans));
    assert_eq!(&expected, red_and_jeans_selected.root());
}

// The catalogs below use bare item names, so the diagram's variable order
// (ascending by name) differs from the declaration order; the expected
// structures are the canonical forms under that order.

#[test]
fn closet_builder_two_families_with_one_item_each() {
    let blue = Item::new("blue");
    let jeans = Item::new("jeans");

    let shirts = Family::new("shirts");
    let pants = Family::new("pants");

    let closet_builder = ClosetBuilder::new()
        .add_item(&shirts, &blue)
        .add_item(&pants, &jeans);

    let closet = closet_builder.must_build();

    let expected_cousin_node = {
        let high_branch = Node::branch(&jeans, Node::false_leaf(), Node::true_leaf());
        let parent_branch = Node::branch(&blue, Node::false_leaf(), high_branch);

        parent_branch
    };

    assert_eq!(&expected_cousin_node, closet.root());

    let both_selected = {
        let closet = closet.select_item(&jeans);
        closet.select_item(&blue)
    };
    assert_eq!(&Node::true_leaf(), both_selected.root());

    let blue_selected = {
        let closet = closet.select_item(&blue);
        closet.exclude_item(&jeans)
    };
    assert_eq!(&Node::false_leaf(), blue_selected.root());

    let jeans_selected = {
        let closet = closet.select_item(&jeans);
        closet.exclude_item(&blue)
    };
    assert_eq!(&Node::false_leaf(), jeans_selected.root());
}

#[test]
fn one_families_with_two_items() {
    let blue = Item::new("blue");
    let red = Item::new("red");

    let shirts = Family::new("shirts");

    let closet_builder = ClosetBuilder::new()
        .add_item(&shirts, &red)
        .add_item(&shirts, &blue);

    let closet = closet_builder.must_build();

    let expected_sibling_node = {
        let low_branch = Node::branch(&red, Node::false_leaf(), Node::true_leaf());
        let high_branch = Node::branch(&red, Node::true_leaf(), Node::false_leaf());
        let parent_branch = Node::branch(&blue, low_branch, high_branch);

        parent_branch
    };
    assert_eq!(&expected_sibling_node, closet.root());

    let red_selected = {
        let closet = closet.select_item(&red);
        closet.exclude_item(&blue)
    };
    assert_eq!(&Node::true_leaf(), red_selected.root());

    let blue_selected = {
        let closet = closet.select_item(&blue);
        closet.exclude_item(&red)
    };
    assert_eq!(&Node::true_leaf(), blue_selected.root());

    let both_selected = {
        let closet = closet.select_item(&blue);
        closet.select_item(&red)
    };
    assert_eq!(&Node::false_leaf(), both_selected.root());
}

#[test]
fn closet_builder_two_families_with_two_items() {
    let blue = Item::new("blue");
    let red = Item::new("red");

    let jeans = Item::new("jeans");
    let slacks = Item::new("slacks");

    let shirts = Family::new("shirts");
    let pants = Family::new("pants");

    let closet_builder = ClosetBuilder::new()
        .add_item(&shirts, &red)
        .add_item(&shirts, &blue)
        .add_item(&pants, &jeans)
        .add_item(&pants, &slacks);

    let closet = closet_builder.must_build();

    let red_selected = {
        let closet = closet.exclude_item(&blue);
        closet.select_item(&red)
    };
    let expected = Node::branch(
        &jeans,
        Node::positive_branch(&slacks),
        Node::negative_branch(&slacks),
    );
    assert_eq!(&expected, red_selected.root());

    let blue_selected = {
        let closet = closet.select_item(&blue);
        closet.exclude_item(&red)
    };
    assert_eq!(&expected, blue_selected.root());

    let both_selected = {
        let closet = closet.select_item(&blue);
        closet.select_item(&red)
    };
    assert_eq!(&Node::false_leaf(), both_selected.root());
}

#[test]
fn two_families_with_two_items_and_an_exclusion() {
    let blue = Item::new("blue");
    let red = Item::new("red");

    let jeans = Item::new("jeans");
    let slacks = Item::new("slacks");

    let shirts = Family::new("shirts");
    let pants = Family::new("pants");

    let closet_builder = ClosetBuilder::new()
        .add_item(&shirts, &red)
        .add_item(&shirts, &blue)
        .add_item(&pants, &jeans)
        .add_item(&pants, &slacks)
        .add_exclusion_rule(&red, &jeans);

    let closet = closet_builder.must_build();

    let red_selected = {
        let closet = closet.exclude_item(&blue);
        closet.select_item(&red)
    };
    let expected = Node::branch(&jeans, Node::positive_branch(&slacks), Node::false_leaf());
    assert_eq!(&expected, red_selected.root());

    let blue_selected = {
        let closet = closet.select_item(&blue);
        closet.exclude_item(&red)
    };
    let expected = Node::branch(
        &jeans,
        Node::positive_branch(&slacks),
        Node::negative_branch(&slacks),
    );
    assert_eq!(&expected, blue_selected.root());

    let jeans_selected = {
        let closet = closet.exclude_item(&blue);
        closet.select_item(&jeans)
    };
    assert_eq!(&Node::false_leaf(), jeans_selected.root());

    let both_selected = {
        let closet = closet.select_item(&blue);
        closet.select_item(&red)
    };
    assert_eq!(&Node::false_leaf(), both_selected.root());
}
