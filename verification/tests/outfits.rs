use closet::closet::{Closet, OutfitError};
use closet::closet_builder::ClosetBuilder;
use closet::items::{Family, Item, Outfit};

fn ok_outfit(r: Result<Outfit, OutfitError>) -> Outfit {
    match r {
        Ok(outfit) => outfit,
        Err(e) => panic!("expected an outfit, got {:?}", e),
    }
}

fn unknown_items(r: Result<Outfit, OutfitError>) -> Vec<Item> {
    match r {
        Err(OutfitError::UnknownItems(items)) => items,
        other => panic!("expected unknown items, got {:?}", other),
    }
}

fn multiple_items(r: Result<Outfit, OutfitError>) -> Vec<(Family, Vec<Item>)> {
    match r {
        Err(OutfitError::MultipleItemsPerFamily(m)) => m,
        other => panic!("expected multiple items per family, got {:?}", other),
    }
}

fn incompatible(r: Result<Outfit, OutfitError>) -> Vec<Item> {
    match r {
        Err(OutfitError::IncompatibleSelections(items)) => items,
        other => panic!("expected incompatible selections, got {:?}", other),
    }
}

#[test]
fn no_rules_no_selections() {
    let blue = Item::new("shirts:blue");
    let red = Item::new("shirts:red");
    let grey = Item::new("shirts:grey");

    let jeans = Item::new("pants:jeans");
    let slacks = Item::new("pants:slacks");

    let shirts = Family::new("shirts");
    let pants = Family::new("pants");

    let closet_builder = ClosetBuilder::new()
        .add_item(&shirts, &blue)
        .add_item(&shirts, &red)
        .add_item(&shirts, &grey)
        .add_item(&pants, &jeans)
        .add_item(&pants, &slacks);
    let closet: Closet = closet_builder.must_build();

    let expected = Outfit::new(vec![jeans, blue]);
    assert_eq!(expected, ok_outfit(closet.complete_outfit(vec![])));
}

#[test]
fn no_rules_one_selection() {
    let blue = Item::new("shirts:blue");
    let red = Item::new("shirts:red");

    let jeans = Item::new("pants:jeans");
    let slacks = Item::new("pants:slacks");

    let shirts = Family::new("shirts");
    let pants = Family::new("pants");

    let closet_builder = ClosetBuilder::new()
        .add_item(&shirts, &blue)
        .add_item(&shirts, &red)
        .add_item(&pants, &jeans)
        .add_item(&pants, &slacks);
    let closet = closet_builder.must_build();

    let expected = Outfit::new(vec![jeans, red.clone()]);
    assert_eq!(expected, ok_outfit(closet.complete_outfit(vec![red])));
}

#[test]
fn no_rules_selection_for_each_family() {
    let blue = Item::new("shirts:blue");
    let red = Item::new("shirts:red");

    let jeans = Item::new("pants:jeans");
    let slacks = Item::new("pants:slacks");

    let shirts = Family::new("shirts");
    let pants = Family::new("pants");

    let closet_builder = ClosetBuilder::new()
        .add_item(&shirts, &blue)
        .add_item(&shirts, &red)
        .add_item(&pants, &jeans)
        .add_item(&pants, &slacks);
    let closet = closet_builder.must_build();

    let expected = Outfit::new(vec![slacks.clone(), blue.clone()]);
    assert_eq!(expected, ok_outfit(closet.complete_outfit(vec![slacks, blue])));
}

#[test]
fn no_rules_unknown_selection() {
    let blue = Item::new("shirts:blue");
    let red = Item::new("shirts:red");
    let black = Item::new("shirts:black");

    let jeans = Item::new("pants:jeans");
    let slacks = Item::new("pants:slacks");

    let shirts = Family::new("shirts");
    let pants = Family::new("pants");

    let closet_builder = ClosetBuilder::new()
        .add_item(&shirts, &blue)
        .add_item(&shirts, &red)
        .add_item(&pants, &jeans)
        .add_item(&pants, &slacks);
    let closet = closet_builder.must_build();

    let expected = vec![black.clone()];
    assert_eq!(expected, unknown_items(closet.complete_outfit(vec![jeans, black])));
}

#[test]
fn no_rules_more_selections_than_families() {
    let blue = Item::new("shirts:blue");
    let red = Item::new("shirts:red");

    let jeans = Item::new("pants:jeans");
    let slacks = Item::new("pants:slacks");

    let shirts = Family::new("shirts");
    let pants = Family::new("pants");

    let closet_builder = ClosetBuilder::new()
        .add_item(&shirts, &blue)
        .add_item(&shirts, &red)
        .add_item(&pants, &jeans)
        .add_item(&pants, &slacks);
    let closet = closet_builder.must_build();

    let expected = vec![(pants, vec![jeans.clone(), slacks.clone()])];
    assert_eq!(
        expected,
        multiple_items(closet.complete_outfit(vec![jeans, blue, slacks]))
    );
}

#[test]
fn exclusion_rule_with_one_selection() {
    let blue = Item::new("shirts:blue");
    let red = Item::new("shirts:red");

    let jeans = Item::new("pants:jeans");
    let slacks = Item::new("pants:slacks");

    let shirts = Family::new("shirts");
    let pants = Family::new("pants");

    let closet_builder = ClosetBuilder::new()
        .add_item(&shirts, &blue)
        .add_item(&shirts, &red)
        .add_item(&pants, &jeans)
        .add_item(&pants, &slacks)
        .add_exclusion_rule(&blue, &jeans);
    let closet = closet_builder.must_build();

    let expected = Outfit::new(vec![slacks, blue.clone()]);
    assert_eq!(expected, ok_outfit(closet.complete_outfit(vec![blue])));

    let expected = Outfit::new(vec![jeans.clone(), red]);
    assert_eq!(expected, ok_outfit(closet.complete_outfit(vec![jeans])));
}

#[test]
fn exclusion_rule_with_conflicting_selection() {
    let blue = Item::new("shirts:blue");
    let red = Item::new("shirts:red");

    let jeans = Item::new("pants:jeans");
    let slacks = Item::new("pants:slacks");

    let shirts = Family::new("shirts");
    let pants = Family::new("pants");

    let closet_builder = ClosetBuilder::new()
        .add_item(&shirts, &blue)
        .add_item(&shirts, &red)
        .add_item(&pants, &jeans)
        .add_item(&pants, &slacks)
        .add_exclusion_rule(&blue, &jeans);
    let closet = closet_builder.must_build();

    // the conflict is reported in selection order
    let expected = vec![blue.clone(), jeans.clone()];
    assert_eq!(expected, incompatible(closet.complete_outfit(vec![blue, jeans])));
}

#[test]
fn exclusion_rules_with_impossible_selection() {
    let blue = Item::new("shirts:blue");
    let red = Item::new("shirts:red");

    let jeans = Item::new("pants:jeans");
    let slacks = Item::new("pants:slacks");

    let shirts = Family::new("shirts");
    let pants = Family::new("pants");

    let closet_builder = ClosetBuilder::new()
        .add_item(&shirts, &blue)
        .add_item(&shirts, &red)
        .add_item(&pants, &jeans)
        .add_item(&pants, &slacks)
        .add_exclusion_rule(&blue, &jeans)
        .add_exclusion_rule(&blue, &slacks);
    let closet = closet_builder.must_build();

    let expected = vec![blue.clone()];
    assert_eq!(expected, incompatible(closet.complete_outfit(vec![blue])));
}

#[test]
fn inclusion_rule_with_one_selection() {
    let blue = Item::new("shirts:blue");
    let red = Item::new("shirts:red");

    let jeans = Item::new("pants:jeans");
    let slacks = Item::new("pants:slacks");

    let shirts = Family::new("shirts");
    let pants = Family::new("pants");

    let closet_builder = ClosetBuilder::new()
        .add_item(&shirts, &blue)
        .add_item(&shirts, &red)
        .add_item(&pants, &jeans)
        .add_item(&pants, &slacks);
    let closet = closet_builder.must_build();

    let expected = Outfit::new(vec![jeans.clone(), blue.clone()]);
    assert_eq!(expected, ok_outfit(closet.complete_outfit(vec![])));

    let closet_builder = ClosetBuilder::new()
        .add_item(&shirts, &blue)
        .add_item(&shirts, &red)
        .add_item(&pants, &jeans)
        .add_item(&pants, &slacks)
        .add_inclusion_rule(&jeans, &red);
    let closet = closet_builder.must_build();

    let expected = Outfit::new(vec![jeans, red]);
    assert_eq!(expected, ok_outfit(closet.complete_outfit(vec![])));
}

#[test]
fn inclusion_rule_is_one_way() {
    let blue = Item::new("shirts:blue");
    let red = Item::new("shirts:red");

    let jeans = Item::new("pants:jeans");
    let slacks = Item::new("pants:slacks");

    let shirts = Family::new("shirts");
    let pants = Family::new("pants");

    let closet_builder = ClosetBuilder::new()
        .add_item(&shirts, &blue)
        .add_item(&shirts, &red)
        .add_item(&pants, &jeans)
        .add_item(&pants, &slacks)
        .add_inclusion_rule(&red, &slacks);
    let closet = closet_builder.must_build();

    let expected = Outfit::new(vec![slacks.clone(), blue]);
    assert_eq!(expected, ok_outfit(closet.complete_outfit(vec![slacks])));
}

#[test]
fn three_families_eight_items() {
    let blue = Item::new("shirts:blue");
    let red = Item::new("shirts:red");
    let grey = Item::new("shirts:grey");

    let jeans = Item::new("pants:jeans");
    let slacks = Item::new("pants:slacks");

    let sneakers = Item::new("shoes:sneakers");
    let birkenstocks = Item::new("shoes:birkenstocks");
    let topsiders = Item::new("shoes:topsiders");

    let shirts = Family::new("shirts");
    let pants = Family::new("pants");
    let shoes = Family::new("shoes");

    let closet_builder = ClosetBuilder::new()
        .add_item(&shirts, &blue)
        .add_item(&shirts, &red)
        .add_item(&shirts, &grey)
        .add_item(&pants, &jeans)
        .add_item(&pants, &slacks)
        .add_item(&shoes, &birkenstocks)
        .add_item(&shoes, &sneakers)
        .add_item(&shoes, &topsiders);
    let closet = closet_builder.must_build();

    let expected = Outfit::new(vec![jeans.clone(), blue.clone(), birkenstocks.clone()]);
    assert_eq!(expected, ok_outfit(closet.complete_outfit(vec![])));
}

#[test]
fn selection_survives_select_and_exclude_queries() {
    let blue = Item::new("shirts:blue");
    let red = Item::new("shirts:red");
    let jeans = Item::new("pants:jeans");
    let slacks = Item::new("pants:slacks");

    let shirts = Family::new("shirts");
    let pants = Family::new("pants");

    let closet = ClosetBuilder::new()
        .add_item(&shirts, &blue)
        .add_item(&shirts, &red)
        .add_item(&pants, &jeans)
        .add_item(&pants, &slacks)
        .must_build();

    // selecting and excluding the same item twice changes nothing further
    let once = closet.select_item(&blue);
    let twice = once.select_item(&blue);
    assert_eq!(once.root(), twice.root());

    let once = closet.exclude_item(&jeans);
    let twice = once.exclude_item(&jeans);
    assert_eq!(once.root(), twice.root());

    // fixing two items commutes
    let ab = closet.select_item(&blue).select_item(&jeans);
    let ba = closet.select_item(&jeans).select_item(&blue);
    assert_eq!(ab.root(), ba.root());
}

#[test]
fn get_family_reports_the_home_family() {
    let blue = Item::new("shirts:blue");
    let jeans = Item::new("pants:jeans");
    let black = Item::new("shirts:black");

    let shirts = Family::new("shirts");
    let pants = Family::new("pants");

    let closet = ClosetBuilder::new()
        .add_item(&shirts, &blue)
        .add_item(&pants, &jeans)
        .must_build();

    assert_eq!(Some(&shirts), closet.get_family(&blue));
    assert_eq!(Some(&pants), closet.get_family(&jeans));
    assert!(closet.get_family(&black).is_none());
}
