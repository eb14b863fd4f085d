use omegaflow::ephemeris::{gravity_body_ids, ids_with_flag};

#[test]
fn flags_name_their_positions() {
    assert_eq!(ids_with_flag(&[false, true, true, false, true]), vec![1, 2, 4]);
    assert_eq!(ids_with_flag(&[]), Vec::<i32>::new());
}

#[test]
fn empty_almanac_has_no_gravity_bodies() {
    let almanac = anise::almanac::Almanac::default();
    assert!(gravity_body_ids(&almanac).is_empty());
}

#[test]
fn flagged_ids_increase() {
    let flags: Vec<bool> = (0..1000).map(|i| i % 7 == 3 || i == 10).collect();
    let ids = ids_with_flag(&flags);
    assert!(ids.windows(2).all(|w| w[0] < w[1]));
    assert!(ids.iter().all(|&i| (0..1000).contains(&i) && flags[i as usize]));
    assert_eq!(ids.len(), flags.iter().filter(|&&f| f).count());
}
