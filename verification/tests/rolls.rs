use lootr::Item;
use lootr::LootRng;
use lootr::Lootr;
use lootr::ROOT;

fn stuffed() -> Lootr {
    let mut loot = Lootr::from(vec![Item::a("Staff")]);

    loot.add_branch(
        "weapons",
        Lootr::from(vec![Item::a("Bat"), Item::an("Uzi")]),
    );

    loot.add_branch(
        "equipment",
        Lootr::from(vec![Item::a("Gloves"), Item::a("Boots")]),
    );

    loot.branch_mut("equipment").unwrap().add_branch(
        "leather",
        Lootr::from(vec![Item::a("Jacket"), Item::a("Pads")]),
    );

    loot.branch_mut("equipment/leather").unwrap().add_branch(
        "Scraps",
        Lootr::from(vec![Item::a("ArmBand"), Item::a("Patch")]),
    );

    loot
}

#[test]
fn success_roll_root() {
    let loot = stuffed();

    assert_eq!(
        loot.roll(ROOT, 0, 100).unwrap().name,
        "Staff",
        "Should return the only element of root"
    );
}

#[test]
fn success_roll_any() {
    let loot = stuffed();
    let picked = loot.roll_any().unwrap();

    let expected = ["Staff", "Bat", "Uzi", "Gloves", "Boots", "Jacket", "Pads"];
    assert_eq!(
        expected.contains(&picked.name.as_str()),
        true,
        "Should return any element"
    );
}

#[test]
fn success_roll_any_seeded() {
    (1..9).for_each(|i| {
        let loot = stuffed();
        let first_picked = loot
            .roll_seeded(ROOT, i16::MAX, 100, &mut LootRng::seed_from_u64(123 * i))
            .unwrap();

        (1..9).for_each(|_| {
            let nloot = stuffed();
            let picked = nloot
                .roll_seeded(ROOT, i16::MAX, 100, &mut LootRng::seed_from_u64(123 * i))
                .unwrap();

            assert_eq!(
                &picked.name, &first_picked.name,
                "Should return the same elements"
            );
        });
    })
}

#[test]
fn success_roll_any_depth1() {
    let loot = stuffed();
    let picked = loot.roll(ROOT, 1, 100).unwrap();

    let expected = ["Staff", "Bat", "Uzi", "Gloves", "Boots"];
    assert_eq!(
        expected.contains(&picked.name.as_str()),
        true,
        "Should return a depth1 element"
    );
}

#[test]
fn success_roll_any_depth1_branched() {
    let loot = stuffed();
    let picked = loot.roll(Some("/equipment/leather"), 0, 100).unwrap();

    let expected = ["Jacket", "Pads"];
    assert_eq!(
        expected.contains(&picked.name.as_str()),
        true,
        "Should return a depth1 element"
    );
}

#[test]
fn roll_depth_zero_never_descends() {
    let loot = stuffed();
    for seed in 0..200u64 {
        let picked = loot
            .roll_seeded(ROOT, 0, 100, &mut LootRng::seed_from_u64(seed))
            .unwrap();
        assert_eq!(picked.name, "Staff");
    }
}

#[test]
fn roll_on_empty_subtree_is_none() {
    let mut loot = Lootr::new();
    loot.add_branch("weapons", Lootr::new());
    loot.branch_mut("weapons")
        .unwrap()
        .add_branch("deadly", Lootr::new());

    assert!(loot.roll_any().is_none());
    for seed in 0..50u64 {
        assert!(loot
            .roll_seeded(ROOT, i16::MAX, 100, &mut LootRng::seed_from_u64(seed))
            .is_none());
    }
}

#[test]
fn roll_zero_luck_yields_nothing() {
    let loot = stuffed();
    for seed in 0..50u64 {
        assert!(loot
            .roll_seeded(ROOT, 0, 0, &mut LootRng::seed_from_u64(seed))
            .is_none());
    }
}

#[test]
fn decay_draw_happens_even_without_descent() {
    // A branch consumes one decay draw per visit, also when the depth
    // budget forbids descending. With the same seed, a catalog with a
    // branch must therefore part ways with a branchless one on a later
    // draw; some seed makes that visible in a two-item pick.
    let build_with_branch = || {
        let mut loot = Lootr::from(vec![Item::a("A"), Item::a("B")]);
        loot.add_branch("empty", Lootr::new());
        loot
    };
    let build_without = || Lootr::from(vec![Item::a("A"), Item::a("B")]);

    let mut differed = false;
    for seed in 0..1000u64 {
        let with_branch = build_with_branch();
        let without = build_without();
        let mut rng1 = LootRng::seed_from_u64(seed);
        let mut rng2 = LootRng::seed_from_u64(seed);
        let drops = [lootr::drops::Drop {
            path: ROOT,
            depth: 0,
            luck: 100,
            stack_low: 1,
            stack_high: 1,
            modify: false,
        }; 2];
        let r1 = with_branch.loot_seeded(&drops, &mut rng1);
        let r2 = without.loot_seeded(&drops, &mut rng2);
        assert_eq!(r1.len(), 2);
        assert_eq!(r2.len(), 2);
        if r1[1].name != r2[1].name {
            differed = true;
            break;
        }
    }
    assert!(differed, "the decay draw should shift the stream");
}
