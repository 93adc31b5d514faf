use lootr::Item;
use lootr::Lootr;

fn stuffed() -> Lootr {
    let mut loot = Lootr::from(vec![Item::a("Staff")]);

    loot.add_branch(
        "weapons",
        Lootr::from(vec![Item::a("Bat"), Item::an("Uzi")]),
    );

    loot.add_branch(
        "equipment",
        Lootr::from(vec![Item::a("Gloves"), Item::a("Boots")]),
    );

    loot.branch_mut("equipment").unwrap().add_branch(
        "leather",
        Lootr::from(vec![Item::a("Jacket"), Item::a("Pads")]),
    );

    loot.branch_mut("equipment/leather").unwrap().add_branch(
        "Scraps",
        Lootr::from(vec![Item::a("ArmBand"), Item::a("Patch")]),
    );

    loot
}

fn named_with(name: &str, props: &[(&str, &str)]) -> Item {
    let mut item = Item::named(name);
    for &(key, value) in props {
        item.set_prop(key, value);
    }
    item
}

#[test]
fn success_from() {
    let loot = Lootr::from(vec![Item::a("Staff"), Item::an("Uzi")]);
    assert_eq!(loot.items().len(), 2);
    assert_eq!(loot.self_count(), 2);
}

#[test]
fn success_bag_macro() {
    let mut loot = Lootr::new();
    loot.add(Item::named("test"));

    let mut weapons = Lootr::new();
    weapons.add(named_with("Knife", &[("attack", "1"), ("desc", "A simple knife")]));

    let mut wooden = Lootr::new();
    wooden.add(named_with(
        "BarkShield",
        &[
            ("attack", "0"),
            ("magic_power", "10"),
            ("desc", "A wooden shield reinforced with bark, providing magic power"),
        ],
    ));
    let mut staffs = Lootr::new();
    staffs.add(named_with(
        "WoodenStaff",
        &[
            ("attack", "5"),
            ("magic_power", "10"),
            ("desc", "A wooden staff imbued with magic power"),
        ],
    ));
    staffs.add(named_with(
        "CrystalStaff",
        &[
            ("attack", "8"),
            ("magic_power", "15"),
            ("ice_damage", "10"),
            ("desc", "A crystal staff with ice elemental damage"),
        ],
    ));
    staffs.add(named_with(
        "ElementalStaff",
        &[
            ("attack", "12"),
            ("magic_power", "20"),
            ("thunder_damage", "15"),
            ("desc", "An elemental staff with thunder elemental damage"),
        ],
    ));
    let mut bows = Lootr::new();
    bows.add(named_with(
        "ShortBow",
        &[
            ("attack", "10"),
            ("accuracy", "10"),
            ("desc", "A short bow with high accuracy"),
        ],
    ));
    bows.add(named_with(
        "LongBow",
        &[
            ("attack", "20"),
            ("accuracy", "20"),
            ("ice_damage", "10"),
            ("desc", "A long bow with ice elemental damage"),
        ],
    ));
    wooden.add_branch("Staffs", staffs);
    wooden.add_branch("Bows", bows);

    let mut swords = Lootr::new();
    swords.add(named_with(
        "ShortSword",
        &[
            ("attack", "10"),
            ("critical", "5"),
            ("desc", "A short sword with increased critical hit rate"),
        ],
    ));
    swords.add(named_with(
        "LongSword",
        &[
            ("attack", "15"),
            ("critical", "10"),
            ("desc", "A long sword with a high critical hit rate"),
        ],
    ));
    swords.add(named_with(
        "TwoHandedSword",
        &[
            ("attack", "20"),
            ("critical", "15"),
            ("desc", "A two-handed sword with a very high critical hit rate"),
        ],
    ));

    let mut axes = Lootr::new();
    axes.add(named_with(
        "BattleAxe",
        &[
            ("attack", "12"),
            ("critical", "8"),
            ("desc", "A battle axe with increased critical hit rate"),
        ],
    ));
    axes.add(named_with(
        "WarAxe",
        &[
            ("attack", "14"),
            ("critical", "9"),
            ("desc", "A war axe with a high critical hit rate"),
        ],
    ));

    let mut mace = Lootr::new();
    mace.add(named_with(
        "MorningStar",
        &[
            ("attack", "13"),
            ("critical", "7"),
            ("desc", "A mace with increased critical hit rate"),
        ],
    ));
    mace.add(named_with(
        "Flail",
        &[
            ("attack", "16"),
            ("critical", "11"),
            ("desc", "A flail with a very high critical hit rate"),
        ],
    ));

    weapons.add_branch("Wooden", wooden);
    weapons.add_branch("Swords", swords);
    weapons.add_branch("Axes", axes);
    weapons.add_branch("Mace", mace);

    let mut armors = Lootr::new();
    armors.add(named_with("Shirt", &[("defense", "0"), ("desc", "A simple shirt")]));
    let mut light = Lootr::new();
    light.add(named_with(
        "LeatherArmor",
        &[
            ("defense", "5"),
            ("agility", "2"),
            ("desc", "Armor made of leather with increased agility"),
        ],
    ));
    light.add(named_with(
        "Chainmail",
        &[
            ("defense", "8"),
            ("agility", "1"),
            ("desc", "Armor made of interlocking rings with moderate agility"),
        ],
    ));
    let mut heavy = Lootr::new();
    heavy.add(named_with(
        "PlateArmor",
        &[
            ("defense", "10"),
            ("agility", "-2"),
            ("desc", "Heavy armor made of plates with decreased agility"),
        ],
    ));
    heavy.add(named_with(
        "FullPlateArmor",
        &[
            ("defense", "15"),
            ("agility", "-5"),
            ("desc", "Very heavy armor made of plates with greatly decreased agility"),
        ],
    ));
    armors.add_branch("LightArmor", light);
    armors.add_branch("HeavyArmor", heavy);

    let mut consumables = Lootr::new();
    consumables.add(named_with("Water", &[("healing", "2"), ("desc", "Just water")]));
    let mut potion = Lootr::new();
    potion.add(named_with(
        "HealthPotion",
        &[
            ("healing", "20"),
            ("desc", "A potion that restores a small amount of health"),
        ],
    ));
    potion.add(named_with(
        "GreaterHealthPotion",
        &[
            ("healing", "40"),
            ("desc", "A potion that restores a moderate amount of health"),
        ],
    ));
    potion.add(named_with(
        "ManaPotion",
        &[
            ("mana_restoration", "20"),
            ("desc", "A potion that restores a small amount of mana"),
        ],
    ));
    potion.add(named_with(
        "GreaterManaPotion",
        &[
            ("mana_restoration", "40"),
            ("desc", "A potion that restores a moderate amount of mana"),
        ],
    ));
    let mut elixirs = Lootr::new();
    elixirs.add(named_with(
        "ElixirOfStrength",
        &[("strength_boost", "5"), ("desc", "An elixir that boosts strength")],
    ));
    elixirs.add(named_with(
        "GreaterElixirOfStrength",
        &[("strength_boost", "10"), ("desc", "An elixir that greatly boosts strength")],
    ));
    elixirs.add(named_with(
        "ElixirOfAgility",
        &[("agility_boost", "5"), ("desc", "An elixir that boosts agility")],
    ));
    elixirs.add(named_with(
        "GreaterElixirOfAgility",
        &[("agility_boost", "10"), ("desc", "An elixir that greatly boosts agility")],
    ));
    consumables.add_branch("Potion", potion);
    consumables.add_branch("Elixirs", elixirs);

    loot.add_branch("Weapons", weapons);
    loot.add_branch("Armors", armors);
    loot.add_branch("Consumables", consumables);

    println!("{}", loot.render());
    assert_eq!(loot.all_count(), 29);
}

#[test]
fn success_branch_display() {
    let output = stuffed().render();
    assert_eq!(output.split("─").count(), 10);
}

#[test]
fn success_add_item() {
    let mut loot = Lootr::new();

    loot.add(Item::a("Staff"));

    assert_eq!(loot.self_count(), 1);
}

#[test]
fn success_add_branch() {
    let mut loot = Lootr::new();

    loot.add_branch(
        "weapons",
        Lootr::from(vec![Item::a("Staff"), Item::an("Uzi")]),
    );

    loot.branch_mut("weapons").unwrap().add_branch(
        "leather",
        Lootr::from(vec![Item::a("Boots"), Item::a("Cap")]),
    );
}

#[test]
fn success_get_branch() {
    let mut loot = Lootr::new();
    let mut weapons = Lootr::new();
    let mut deadly = Lootr::new();
    let mut fire = Lootr::new();

    fire.add(Item::an("Uzi"));

    deadly.add_branch("fire", fire);
    weapons.add_branch("deadly", deadly);
    loot.add_branch("weapons", weapons);

    let fire_branch = loot.branch_mut("weapons/deadly/fire");
    assert_eq!(fire_branch.unwrap().self_count(), 1);
}

#[test]
fn success_add_item_in_branch() {
    let mut loot = Lootr::new();

    let weapons = Lootr::new();
    loot.add_branch("weapons", weapons);

    loot.add_in(Item::an("Uzi"), "weapons");

    assert_eq!(loot.all_items().len(), 1);
    assert_eq!(loot.all_count(), 1);
}

#[test]
fn success_get_all_items() {
    let mut loot = Lootr::from(vec![Item::a("Staff")]);

    loot.add_branch(
        "weapons",
        Lootr::from(vec![Item::a("Bat"), Item::an("Uzi")]),
    );

    assert_eq!(loot.all_items().len(), 3);
}

#[test]
fn literal_branch_name_wins_over_nested_path() {
    let mut loot = Lootr::new();

    let mut a = Lootr::new();
    a.add_branch("b", Lootr::from(vec![Item::a("Nested")]));
    loot.add_branch("a", a);
    loot.add_branch("a/b", Lootr::from(vec![Item::a("Literal")]));

    let found = loot.branch("a/b").unwrap();
    assert_eq!(found.items()[0].name, "Literal");

    let nested = loot.branch("a").unwrap().branch("b").unwrap();
    assert_eq!(nested.items()[0].name, "Nested");
}

#[test]
fn branch_missing_single_name_is_none() {
    let mut loot = Lootr::new();
    loot.add_branch("weapons", Lootr::new());

    assert!(loot.branch("armor").is_none());
    assert!(loot.branch_mut("armor").is_none());
}

#[test]
fn branch_ignores_extra_separators() {
    let mut loot = Lootr::new();
    let mut weapons = Lootr::new();
    weapons.add_branch("deadly", Lootr::from(vec![Item::a("Axe")]));
    loot.add_branch("weapons", weapons);

    let found = loot.branch("/weapons//deadly/").unwrap();
    assert_eq!(found.items()[0].name, "Axe");
}

#[test]
fn replacing_a_branch_discards_the_old_subtree() {
    let mut loot = Lootr::new();
    loot.add_branch("weapons", Lootr::from(vec![Item::a("Bat")]));
    loot.add_branch("weapons", Lootr::from(vec![Item::a("Uzi"), Item::a("Axe")]));

    assert_eq!(loot.all_count(), 2);
    assert_eq!(loot.branch("weapons").unwrap().items()[0].name, "Uzi");
}
