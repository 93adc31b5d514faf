use std::collections::HashMap;

use lootr::drops::Drop;
use lootr::drops::DropBuilder;
use lootr::item::Item;
use lootr::item::Props;
use lootr::LootRng;
use lootr::Lootr;
use lootr::Modifier;
use lootr::ROOT;

fn stuffed() -> Lootr {
    let mut loot = Lootr::from(vec![Item::a("Staff")]);

    loot.add_branch(
        "weapons",
        Lootr::from(vec![Item::a("Bat"), Item::an("Uzi")]),
    );

    loot.add_branch(
        "equipment",
        Lootr::from(vec![Item::a("Gloves"), Item::a("Boots")]),
    );

    loot.branch_mut("equipment").unwrap().add_branch(
        "leather",
        Lootr::from(vec![Item::a("Jacket"), Item::a("Pads")]),
    );

    loot.branch_mut("equipment/leather").unwrap().add_branch(
        "Scraps",
        Lootr::from(vec![Item::a("ArmBand"), Item::a("Patch")]),
    );

    loot
}

#[test]
fn success_loot_any() {
    let loot = stuffed();

    let drops = [
        Drop {
            path: ROOT,
            luck: 100,
            depth: 1,
            stack_low: 1,
            stack_high: 1,
            modify: false,
        },
        DropBuilder::new().path("equipment").luck(100).build(),
        DropBuilder::new().path("weapons").luck(100).build(),
    ];

    let rewards = loot.loot(&drops);

    assert_eq!(rewards.len() >= 3, true, "Should reward at least 3 items");
}

#[test]
fn success_loot_stats() {
    let loot = stuffed();

    let luck_for_equipment = 30;
    let luck_for_weapons = 80;
    let drops = [
        DropBuilder::new()
            .path("equipment")
            .luck(luck_for_equipment)
            .anydepth()
            .build(),
        DropBuilder::new()
            .path("weapons")
            .luck(luck_for_weapons)
            .anydepth()
            .build(),
    ];

    let rolls = 100_000;
    let f_rolls: f64 = Into::<f64>::into(rolls);
    let mut overall_count = 0;
    let mut overall_rewards = HashMap::<String, i32>::new();

    (0..rolls).for_each(|_| {
        loot.loot(&drops).iter().for_each(|r| {
            let current = match overall_rewards.get(r.name.as_str()) {
                Some(number) => number.clone(),
                None => 0,
            };
            overall_rewards.insert(r.name.clone(), current + 1);
            overall_count += 1;
        })
    });

    let gloves = overall_rewards.get("Gloves");
    let boots = overall_rewards.get("Boots");
    let jacket = overall_rewards.get("Jacket");
    let pads = overall_rewards.get("Pads");
    let armband = overall_rewards.get("ArmBand");
    let patch = overall_rewards.get("Patch");
    let bat = overall_rewards.get("Bat");
    let uzi = overall_rewards.get("Uzi");

    assert_ne!(gloves, None, "There should be some Gloves");
    assert_ne!(boots, None, "There should be some Boots");
    assert_ne!(jacket, None, "There should be some Jacket");
    assert_ne!(pads, None, "There should be some Pads");
    assert_ne!(armband, None, "There should be some ArmBand");
    assert_ne!(patch, None, "There should be some Patch");
    assert_ne!(bat, None, "There should be some Bat");
    assert_ne!(uzi, None, "There should be some Uzi");

    let zero = &0;
    let equipment = 0
        + overall_rewards.get("Gloves").unwrap_or(zero)
        + overall_rewards.get("Boots").unwrap_or(zero)
        + overall_rewards.get("Jacket").unwrap_or(zero)
        + overall_rewards.get("Pads").unwrap_or(zero)
        + overall_rewards.get("ArmBand").unwrap_or(zero)
        + overall_rewards.get("Patch").unwrap_or(zero);

    let weapons = 0
        + overall_rewards.get("Bat").unwrap_or(zero)
        + overall_rewards.get("Uzi").unwrap_or(zero);

    assert_eq!(equipment + weapons, overall_count);

    let theory = f_rolls * (Into::<f64>::into(luck_for_equipment) / 100.0);
    let expected_equipment = (theory * 0.7)..(theory * 1.6);

    let theory = f_rolls * (Into::<f64>::into(luck_for_weapons) / 100.0);
    let expected_weapons = (theory * 0.7)..(theory * 1.6);

    assert_eq!(
        expected_equipment.contains(&equipment.into()),
        true,
        "There should be enough equipment"
    );
    assert_eq!(
        expected_weapons.contains(&weapons.into()),
        true,
        "There should be enough weapons"
    );
}

#[test]
fn success_loot_seeded() {
    let loot = stuffed();
    let drops = [
        DropBuilder::new().path("equipment").anydepth().build(),
        DropBuilder::new().path("weapons").anydepth().build(),
    ];

    let rewards = loot.loot_seeded(&drops, &mut LootRng::seed_from_u64(123));

    (0..10).for_each(|_| {
        let nloot = stuffed();
        let nrewards = nloot.loot_seeded(&drops, &mut LootRng::seed_from_u64(123));

        nrewards.iter().enumerate().for_each(|(i, r)| {
            assert_eq!(
                r.name,
                rewards.get(i).unwrap().name,
                "Should return same elements"
            )
        });
    });
}

struct WithStrength;

impl Modifier for WithStrength {
    fn modify(&self, source: Item) -> Item {
        let name = source.name.clone();
        source.extend(name.as_str(), Props::from([("strength", "+10")]))
    }
}

#[test]
fn success_loot_simple_modifier() {
    let mut loot = Lootr::new();

    loot.add_modifier(Box::new(WithStrength)).add(Item::a("crown"));

    let picked = loot.loot(&[
        Drop {
            path: ROOT,
            luck: 100,
            depth: 1,
            stack_low: 1,
            stack_high: 1,
            modify: false,
        },
        Drop {
            path: ROOT,
            luck: 100,
            depth: 1,
            stack_low: 1,
            stack_high: 1,
            modify: true,
        },
    ]);

    let first = &picked.first().unwrap().clone();
    let last = &picked.last().unwrap().clone();

    assert_eq!(first.has_prop("strength"), false);

    assert_eq!(last.has_prop("strength"), true);
    assert_eq!(last.get_prop("strength").unwrap().to_owned(), "+10");
}

#[test]
fn stack_counts_stay_in_range() {
    let loot = Lootr::from(vec![Item::a("Coin")]);
    let drops = [DropBuilder::new().luck(100).stack(2, 4).build()];

    for seed in 0..200u64 {
        let rewards = loot.loot_seeded(&drops, &mut LootRng::seed_from_u64(seed));
        assert!(rewards.len() >= 2 && rewards.len() <= 4);
        for r in &rewards {
            assert_eq!(r.name, "Coin");
        }
    }
}

#[test]
fn every_copy_of_a_modifying_drop_is_modified() {
    let mut loot = Lootr::new();
    loot.add_modifier(Box::new(WithStrength)).add(Item::a("crown"));

    let drops = [
        Drop {
            path: ROOT,
            luck: 100,
            depth: 1,
            stack_low: 3,
            stack_high: 3,
            modify: true,
        },
        Drop {
            path: ROOT,
            luck: 100,
            depth: 1,
            stack_low: 3,
            stack_high: 3,
            modify: false,
        },
    ];
    for seed in 0..50u64 {
        let rewards = loot.loot_seeded(&drops, &mut LootRng::seed_from_u64(seed));
        assert_eq!(rewards.len(), 6);
        for r in &rewards[0..3] {
            assert_eq!(r.get_prop("strength"), Some("+10"));
        }
        for r in &rewards[3..6] {
            assert_eq!(r.has_prop("strength"), false);
        }
    }
}

#[test]
fn loot_on_a_missing_pick_contributes_nothing() {
    let mut loot = Lootr::new();
    loot.add_branch("empty", Lootr::new());

    let drops = [DropBuilder::new().path("empty").luck(100).anydepth().build()];
    for seed in 0..50u64 {
        let rewards = loot.loot_seeded(&drops, &mut LootRng::seed_from_u64(seed));
        assert_eq!(rewards.len(), 0);
    }
}
