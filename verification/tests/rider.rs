use fair_routes::rider::Rider;

#[test]
fn sum_tips() {
    let mut rider = Rider::new(0);
    rider.add_tip(0, 9);
    rider.add_tip(1, 10);

    assert_eq!(rider.sum_tips(), 19);
}

#[test]
fn sum_tips_override_tip() {
    let mut rider = Rider::new(0);
    rider.add_tip(0, 9);
    rider.add_tip(0, 8);
    rider.add_tip(1, 10);

    assert_eq!(rider.sum_tips(), 18);
}

#[test]
fn partial_ord() {
    let mut rider_1 = Rider::new(0);
    rider_1.add_tip(0, 9);
    rider_1.add_tip(1, 10);

    let mut rider_2 = Rider::new(1);
    rider_2.add_tip(0, 5);
    rider_2.add_tip(1, 10);

    assert_eq!(rider_2 < rider_1, true);
    assert_eq!(rider_1 > rider_2, true);
    assert_eq!(rider_1 == rider_2, false);
}

#[test]
fn new_rider_is_empty() {
    let rider = Rider::new(7);
    assert_eq!(rider.id(), 7);
    assert_eq!(rider.sum_tips(), 0);
    assert!(rider.orders().is_empty());
    assert!(rider.route().is_empty());
}

#[test]
fn add_tip_keeps_the_place_of_a_known_location() {
    let mut rider = Rider::new(0);
    rider.add_tip(4, 1);
    rider.add_tip(2, 3);
    rider.add_tip(4, 6);
    assert_eq!(rider.orders(), &vec![(4, 6), (2, 3)]);
}

#[test]
fn sum_tips_does_not_overflow_on_large_tips() {
    let mut rider = Rider::new(0);
    rider.add_tip(0, u64::MAX);
    rider.add_tip(1, u64::MAX);
    assert_eq!(rider.sum_tips(), 2 * (u64::MAX as u128));
}

#[test]
fn riders_with_equal_sums_are_equal() {
    let mut rider_1 = Rider::new(0);
    rider_1.add_tip(0, 4);
    let mut rider_2 = Rider::new(1);
    rider_2.add_tip(5, 1);
    rider_2.add_tip(6, 3);
    assert!(rider_1 == rider_2);
    assert!(!(rider_1 < rider_2));
    assert!(rider_1 <= rider_2);
}
