use accrete::dust::{DustBand, DustBandTable};

fn band(inner: u64, outer: u64, dust_present: bool, gas_present: bool) -> DustBand {
    DustBand { inner, outer, dust_present, gas_present }
}

fn assert_well_formed(t: &DustBandTable) {
    let bands = t.bands();
    for b in bands.iter() {
        assert!(b.inner < b.outer, "zero or negative width: {:?}", b);
    }
    for w in bands.windows(2) {
        assert_eq!(w[0].outer, w[1].inner, "gap or overlap: {:?}", w);
        assert!(
            (w[0].dust_present, w[0].gas_present) != (w[1].dust_present, w[1].gas_present),
            "unmerged neighbours: {:?}",
            w
        );
    }
}

#[test]
fn new_table_is_one_full_band() {
    let t = DustBandTable::new(0, 100);
    assert_eq!(t.bands().clone(), vec![band(0, 100, true, true)]);
    assert!(t.dust_available(0, 100));
    assert!(t.dust_available(99, 1000));
    assert!(!t.dust_available(100, 200));
}

#[test]
fn empty_interval_gives_empty_table() {
    let t = DustBandTable::new(10, 10);
    assert_eq!(t.len(), 0);
    assert!(!t.dust_available(0, u64::MAX));
    let t = DustBandTable::new(20, 10);
    assert_eq!(t.len(), 0);
}

#[test]
fn sweep_splits_a_band() {
    let mut t = DustBandTable::new(0, 100);
    t.sweep(20, 50, true);
    assert_eq!(
        t.bands().clone(),
        vec![band(0, 20, true, true), band(20, 50, false, true), band(50, 100, true, true)]
    );
    assert_well_formed(&t);
}

#[test]
fn sweep_clears_gas_unless_it_remains() {
    let mut t = DustBandTable::new(0, 100);
    t.sweep(20, 50, false);
    assert_eq!(
        t.bands().clone(),
        vec![band(0, 20, true, true), band(20, 50, false, false), band(50, 100, true, true)]
    );
}

#[test]
fn sweep_merges_neighbours_with_equal_flags() {
    let mut t = DustBandTable::new(0, 100);
    t.sweep(20, 50, true);
    t.sweep(50, 80, true);
    assert_eq!(
        t.bands().clone(),
        vec![band(0, 20, true, true), band(20, 80, false, true), band(80, 100, true, true)]
    );
    t.sweep(0, 20, true);
    t.sweep(80, 100, true);
    assert_eq!(t.bands().clone(), vec![band(0, 100, false, true)]);
    assert!(!t.dust_available(0, 100));
}

#[test]
fn sweep_beyond_the_table_changes_nothing() {
    let mut t = DustBandTable::new(10, 100);
    t.sweep(0, 10, false);
    t.sweep(100, 200, false);
    t.sweep(60, 40, false);
    assert_eq!(t.bands().clone(), vec![band(10, 100, true, true)]);
}

#[test]
fn cleared_flags_stay_cleared() {
    let mut t = DustBandTable::new(0, 100);
    t.sweep(10, 90, false);
    t.sweep(0, 100, true);
    assert_eq!(t.bands().clone(), vec![band(0, 10, false, true), band(10, 90, false, false), band(90, 100, false, true)]);
}

#[test]
fn dust_available_edges() {
    let mut t = DustBandTable::new(0, 100);
    t.sweep(0, 50, true);
    assert!(!t.dust_available(0, 50));
    assert!(t.dust_available(49, 51));
    assert!(t.dust_available(50, 51));
    assert!(!t.dust_available(50, 50));
    assert!(!t.dust_available(70, 60));
}

#[test]
fn table_stays_well_formed_over_many_sweeps() {
    let mut t = DustBandTable::new(0, 10_000);
    let mut state: u64 = 12345;
    for step in 0..500u64 {
        state = state.wrapping_mul(6364136223846793005).wrapping_add(1442695040888963407);
        let lo = (state >> 33) % 10_500;
        let width = (state >> 13) % 300;
        t.sweep(lo, lo + width, step % 3 != 0);
        assert_well_formed(&t);
        assert_eq!(t.bands()[0].inner, 0);
        assert_eq!(t.bands()[t.len() - 1].outer, 10_000);
    }
}

#[test]
fn same_sweeps_give_same_table() {
    let mut a = DustBandTable::new(0, 1000);
    let mut b = DustBandTable::new(0, 1000);
    for (lo, hi, g) in [(10u64, 40u64, true), (300, 500, false), (35, 310, true)] {
        a.sweep(lo, hi, g);
        b.sweep(lo, hi, g);
    }
    assert_eq!(a.bands().clone(), b.bands().clone());
}

#[test]
fn float_keys_keep_their_order() {
    let mut t = DustBandTable::new(0.0f64.to_bits(), 200.0f64.to_bits());
    t.sweep(0.5f64.to_bits(), 1.5f64.to_bits(), true);
    assert!(t.dust_available(0.1f64.to_bits(), 0.6f64.to_bits()));
    assert!(!t.dust_available(0.6f64.to_bits(), 1.4f64.to_bits()));
    assert_eq!(t.len(), 3);
}
