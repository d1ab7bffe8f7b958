use minigames::orbit::History;
use minigames::orbit::initialization_plan;

#[test]
fn history_starts_with_the_initial_state() {
    let h: History<i64> = History::new(7);
    assert_eq!(h.len(), 1);
    assert_eq!(*h.at(0), 7);
}

#[test]
fn history_appends_without_moving_earlier_samples() {
    let mut h: History<i64> = History::new(0);
    for t in 1..=5i64 {
        h.append(t * 10);
    }
    assert_eq!(h.len(), 6);
    for t in 0..=5usize {
        assert_eq!(*h.at(t), t as i64 * 10);
    }
}

#[test]
fn history_reset_discards_accumulated_samples() {
    let mut h: History<i64> = History::new(1);
    h.append(2);
    h.append(3);
    h.reset(9);
    assert_eq!(h.len(), 1);
    assert_eq!(*h.at(0), 9);
}

#[test]
fn plan_puts_each_moon_before_its_planet() {
    // Planet 0 with moons 1 and 2, then planet 3 without moons.
    let bodies = vec![(0usize, vec![1usize, 2]), (3, vec![])];
    let plan = initialization_plan(&bodies);
    assert_eq!(plan, vec![(1, Some(0)), (2, Some(0)), (0, None), (3, None)]);
}

#[test]
fn plan_references_the_actual_parent() {
    let bodies = vec![(4usize, vec![7usize]), (5, vec![8, 9]), (6, vec![])];
    let plan = initialization_plan(&bodies);
    assert_eq!(plan.len(), 6);
    for (planet, moons) in &bodies {
        let planet_pos = plan.iter().position(|s| s.0 == *planet).unwrap();
        assert_eq!(plan[planet_pos].1, None);
        for moon in moons {
            let moon_pos = plan.iter().position(|s| s.0 == *moon).unwrap();
            // The moon's reference is its own planet, and it comes first.
            assert_eq!(plan[moon_pos].1, Some(*planet));
            assert!(moon_pos < planet_pos);
        }
    }
}
