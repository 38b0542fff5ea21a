use sim::formation::{assign, offsets, place, ACROSS, BACK, WING_GAP};
use sim::fx::Fx;
use sim::orders::Formation;
use sim::vec2::Vec2Fx;

#[test]
fn shapes_have_one_slot_per_unit_and_the_right_proportions() {
    for f in Formation::ALL() {
        for n in [1, 2, 5, 8, 17, 40] {
            let o = offsets(f, n);
            if f == Formation::Spread {
                assert!(o.is_empty());
                continue;
            }
            assert_eq!(o.len(), n, "{f:?} {n}");
            let mut sorted = o.clone();
            sorted.sort_unstable();
            sorted.dedup();
            assert_eq!(sorted.len(), n, "{f:?} {n}: slots are distinct");
        }
    }
    // A line of 8 is one rank wide; a box of 8 is three ranks.
    let line = offsets(Formation::Line, 8);
    assert!(
        line.iter().all(|&(_, b)| b == 0) || line.iter().filter(|&&(_, b)| b == 0).count() >= 4
    );
    let boxed = offsets(Formation::Box, 9);
    assert_eq!(boxed.iter().filter(|&&(_, b)| b == 0).count(), 3);
    // A flank has a gap in the middle of its front rank.
    let flank = offsets(Formation::Flank, 8);
    let front: Vec<i32> = flank
        .iter()
        .filter(|&&(_, b)| b == 0)
        .map(|&(a, _)| a)
        .collect();
    assert!(
        front.iter().any(|&a| a < -WING_GAP / 2) && front.iter().any(|&a| a > WING_GAP / 2)
    );
    assert!(!front.contains(&0));
    // Staggered ranks alternate their half-step.
    let stag = offsets(Formation::Staggered, 12);
    let odd: Vec<i32> = stag
        .iter()
        .filter(|&&(_, b)| b > 0 && b < BACK * 3)
        .map(|&(a, _)| a)
        .collect();
    assert!(
        odd.iter().all(|a| (a - ACROSS / 2) % ACROSS == 0),
        "{odd:?}"
    );
}

#[test]
fn placement_faces_the_way_the_group_walks() {
    let o = offsets(Formation::Line, 3);
    // Walking +x: the rank runs along y, front at the target.
    let p = place(Vec2Fx::from_int(10, 10), Vec2Fx::from_int(1, 0), &o);
    assert!(p.iter().all(|q| q.x == Fx::from_int(10)));
    let mut ys: Vec<i32> = p.iter().map(|q| q.y.raw()).collect();
    ys.sort_unstable();
    assert_eq!(ys[1], Fx::from_int(10).raw());
    // Walking +y, the rank runs along x.
    let p = place(Vec2Fx::from_int(10, 10), Vec2Fx::from_int(0, 1), &o);
    assert!(p.iter().all(|q| q.y == Fx::from_int(10)));
    // A second rank stands behind the front, against the direction.
    let o = offsets(Formation::Box, 4);
    let p = place(Vec2Fx::from_int(10, 10), Vec2Fx::from_int(0, 1), &o);
    assert!(p.iter().any(|q| q.y < Fx::from_int(10)));
}

#[test]
fn assignment_keeps_left_on_the_left() {
    let units = [
        Vec2Fx::from_int(0, 5),
        Vec2Fx::from_int(0, 0),
        Vec2Fx::from_int(0, 9),
    ];
    // Walking +x: across is +y... the unit at y=0 gets the first slot.
    let s = assign(&units, Vec2Fx::from_int(1, 0), 3);
    assert_eq!(s, vec![1, 0, 2]);
}
