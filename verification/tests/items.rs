use lootr::item::Item;
use lootr::item::Props;

#[test]
fn success_item() {
    let item = Item::from(
        "crown",
        Props::from([("strength", "10"), ("charisma", "+100")]),
    );

    assert_eq!(item.has_prop("strength"), true);
    assert_eq!(item.get_prop("strength").unwrap(), "10");
}

#[test]
fn success_item_display() {
    let item = Item::from(
        "crown",
        Props::from([("strength", "10"), ("charisma", "+100")]),
    );
    let output = item.render();
    assert_eq!(
        output == "crown{strength=10,charisma=+100}"
            || output == "crown{charisma=+100,strength=10}",
        true
    );
}

#[test]
fn item_without_props_renders_empty_braces() {
    let item = Item::a("Staff");
    assert_eq!(item.render(), "Staff{}");
    assert_eq!(item.has_prop("anything"), false);
    assert_eq!(item.get_prop("anything"), None);
}

#[test]
fn props_later_pair_wins() {
    let p = Props::from([("size", "small"), ("size", "large")]);
    let item = Item::from("hat", p);
    assert_eq!(item.get_prop("size"), Some("large"));
}

#[test]
fn extend_merges_and_overrides() {
    let hat = Item::from("hat", Props::from([("color", "black"), ("size", "large")]));
    let cap = hat.extend("cap", Props::from([("size", "small")]));

    assert_eq!(cap.name, "cap");
    assert_eq!(cap.get_prop("color"), Some("black"));
    assert_eq!(cap.get_prop("size"), Some("small"));
    assert_eq!(hat.get_prop("size"), Some("large"));
}

#[test]
fn set_prop_replaces_and_adds() {
    let mut hat = Item::from("hat", Props::from([("color", "black"), ("size", "small")]));
    hat.set_prop("fancy", "yes");
    hat.set_prop("size", "large");

    assert_eq!(hat.get_prop("fancy"), Some("yes"));
    assert_eq!(hat.get_prop("size"), Some("large"));
    assert_eq!(hat.get_prop("color"), Some("black"));
}
