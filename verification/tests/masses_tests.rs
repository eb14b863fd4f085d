use omegaflow::masses::{keeps, mass_limit, select_masses, sort_by_gm_desc, MassCandidate, SUN_ID};

fn c(id: i32, gm_key: u64, beyond_reach: bool) -> MassCandidate {
    MassCandidate { id, gm_key, beyond_reach }
}

fn ids(v: &[MassCandidate]) -> Vec<i32> {
    v.iter().map(|m| m.id).collect()
}

#[test]
fn limits_by_tier() {
    assert_eq!(mass_limit(1), 15);
    assert_eq!(mass_limit(7), 15);
    assert_eq!(mass_limit(0), 5);
    assert_eq!(mass_limit(-3), 5);
}

#[test]
fn sun_is_kept_however_far() {
    assert!(keeps(&c(SUN_ID, 1, true)));
    assert!(!keeps(&c(399, 1, true)));
    assert!(keeps(&c(399, 1, false)));
}

#[test]
fn sort_is_descending_and_stable() {
    let v = vec![c(1, 5, false), c(2, 9, false), c(3, 5, false), c(4, 7, false), c(5, 9, false)];
    assert_eq!(ids(&sort_by_gm_desc(&v)), vec![2, 5, 4, 1, 3]);
}

#[test]
fn sort_matches_std_stable_sort() {
    let mut v = Vec::new();
    for i in 0..60 {
        v.push(c(i, ((i * 37) % 11) as u64, false));
    }
    let mut expected = v.clone();
    expected.sort_by(|a, b| b.gm_key.cmp(&a.gm_key));
    assert_eq!(ids(&sort_by_gm_desc(&v)), ids(&expected));
}

#[test]
fn gm_bits_order_like_gm() {
    let gms = [1.327e20f64, 3.986e14, 1.267e17, 4.903e12];
    let v: Vec<MassCandidate> =
        gms.iter().enumerate().map(|(i, g)| c(i as i32, g.to_bits(), false)).collect();
    assert_eq!(ids(&sort_by_gm_desc(&v)), vec![0, 2, 1, 3]);
}

#[test]
fn selection_drops_far_bodies_and_cuts_to_limit() {
    let mut v = Vec::new();
    for i in 0..20 {
        v.push(c(100 + i, i as u64, i % 3 == 0));
    }
    v.push(c(SUN_ID, 1000, true));
    let sel = select_masses(&v, 0);
    assert_eq!(ids(&sel), vec![SUN_ID, 119, 117, 116, 114]);
    let sel = select_masses(&v, 1);
    assert_eq!(sel.len(), 14);
    assert!(sel.iter().all(|m| !m.beyond_reach || m.id == SUN_ID));
}

#[test]
fn selection_of_nothing_is_empty() {
    assert!(select_masses(&Vec::new(), 1).is_empty());
    assert!(select_masses(&vec![c(3, 1, true)], 1).is_empty());
}

#[test]
fn sorting_sorted_bodies_changes_nothing() {
    let v = vec![c(1, 9, false), c(2, 9, false), c(3, 4, false), c(4, 1, false)];
    let once = sort_by_gm_desc(&v);
    assert_eq!(ids(&once), vec![1, 2, 3, 4]);
    assert_eq!(ids(&sort_by_gm_desc(&once)), ids(&once));
}

#[test]
fn widening_the_view_never_lowers_a_rank() {
    let near: Vec<MassCandidate> =
        (0..12).map(|i| c(200 + i, ((i * 7) % 5) as u64 * 10 + i as u64, i % 2 == 0)).collect();
    let wide: Vec<MassCandidate> = near.iter().map(|m| c(m.id, m.gm_key, m.beyond_reach && m.id % 4 == 0)).collect();
    for tier in [0, 1] {
        let a = select_masses(&near, tier);
        let b = select_masses(&wide, tier);
        assert!(a.len() <= b.len());
        for i in 0..a.len() {
            assert!(b[i].gm_key >= a[i].gm_key);
        }
    }
}
