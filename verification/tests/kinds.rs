use sim::kinds::{all, gatherable, info, Resource, GAZELLE, GOLD_MINE, HOUSE, STOREHOUSE, TOWN_CENTER, TREE, VILLAGER};
#[test]
fn kinds_table_is_consistent() {
    for k in all() {
        assert_eq!(info(k.id).id, k.id);
        assert_eq!(
            k.mobile,
            k.footprint == 0,
            "{}: mobile kinds have no footprint",
            k.name
        );
        assert_eq!(
            k.mobile,
            k.speed_per_second.is_positive(),
            "{}: mobile kinds move",
            k.name
        );
        assert!(k.max_health > 0);
        if k.buildable {
            assert!(
                k.build_seconds > 0 && k.cost.iter().any(|&c| c > 0),
                "{}",
                k.name
            );
        }
    }
    assert_eq!(info(9999).name, "Unknown");
    assert_eq!(info(TOWN_CENTER).footprint, 3);
    assert_eq!(info(TREE).resource, Some((Resource::Wood, 75)));
    assert!(info(GAZELLE).mobile && info(GAZELLE).resource.is_some());
    assert!(info(TOWN_CENTER).dropoff && info(STOREHOUSE).dropoff && !info(HOUSE).dropoff);
    assert_eq!(info(HOUSE).cost, [0, 30, 0, 0]);
    assert_eq!(info(VILLAGER).build_ticks(), 25 * 20);
    assert_eq!(info(VILLAGER).pop_cost, 1);
    assert_eq!(info(HOUSE).pop_provided, 5);
    assert!(info(HOUSE).buildable && !info(TREE).buildable && !info(VILLAGER).buildable);
    assert!(
        gatherable(TREE) && gatherable(GOLD_MINE) && !gatherable(GAZELLE) && !gatherable(HOUSE)
    );
    for r in Resource::ALL() {
        assert_eq!(Resource::from_index(r.index()), r);
        assert!(r.gather_rate().is_positive());
    }
}

#[test]
fn ids_are_unique() {
    let mut ids: Vec<_> = all().iter().map(|k| k.id).collect();
    ids.sort_unstable();
    ids.dedup();
    assert_eq!(ids.len(), all().len());
}
