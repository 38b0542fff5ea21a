use sim::kinds;
use sim::tech::{age_advance, all, at_building, info, Age, AGE_IRON, AGE_TOOL};

#[test]
fn ages_chain() {
    assert_eq!(Age::Stone.next(), Some(Age::Tool));
    assert_eq!(Age::Iron.next(), None);
    for a in Age::ALL() {
        assert_eq!(Age::from_index(a.index()), a);
    }
    assert!(Age::Stone < Age::Iron);
    assert_eq!(Age::default(), Age::Stone);
}

#[test]
fn tech_table_is_consistent() {
    let table = all();
    let mut ids: Vec<_> = table.iter().map(|t| t.id).collect();
    ids.sort_unstable();
    ids.dedup();
    assert_eq!(ids.len(), table.len(), "ids are unique");
    for t in &table {
        assert!(t.seconds > 0 && t.cost.iter().any(|&c| c > 0), "{}", t.name);
        assert!(!t.effects.is_empty(), "{}", t.name);
        assert!(
            kinds::info(t.building).buildable || t.building == kinds::TOWN_CENTER,
            "{}: researched somewhere real",
            t.name
        );
        for r in t.requires.iter() {
            assert!(info(*r).is_some(), "{}: requires unknown tech {r}", t.name);
            assert!(
                info(*r).unwrap().age <= t.age,
                "{}: prerequisite from a later age",
                t.name
            );
        }
        if let Some(a) = t.advances_age() {
            assert_eq!(
                t.age.next(),
                Some(a),
                "{}: advances to the next age",
                t.name
            );
        }
    }
    assert_eq!(age_advance(Age::Stone).map(|t| t.id), Some(AGE_TOOL));
    assert_eq!(age_advance(Age::Bronze).map(|t| t.id), Some(AGE_IRON));
    assert!(age_advance(Age::Iron).is_none());
    assert_eq!(at_building(kinds::STOREHOUSE).len(), 4);
    assert_eq!(info(AGE_TOOL).unwrap().ticks(), 1200);
    assert!(info(999).is_none());
}
