use accrete::accretion::{keep_growing, AccretionLoop, LoopStep};
use accrete::dust::DustBandTable;

#[test]
fn degenerate_limits_end_at_once() {
    let mut dust = DustBandTable::new(0, 50);
    let mut l = AccretionLoop::new(1000, 80, 50);
    assert_eq!(l.next(&mut dust), LoopStep::NoRoom);
    assert_eq!(l.iterations(), 0);
    let mut l = AccretionLoop::new(1000, 50, 50);
    assert_eq!(l.next(&mut dust), LoopStep::NoRoom);
}

#[test]
fn no_room_clears_the_dust_left() {
    let mut dust = DustBandTable::new(0, 50);
    dust.sweep(10, 20, true);
    assert!(dust.dust_available(0, 50));
    let mut l = AccretionLoop::new(1000, 80, 50);
    assert_eq!(l.next(&mut dust), LoopStep::NoRoom);
    assert!(!dust.dust_available(0, 50));
    assert_eq!(dust.len(), 1);
    assert!(!dust.bands()[0].dust_present && !dust.bands()[0].gas_present);
    assert_eq!(l.cap(), 1000);
}

#[test]
fn draws_while_dust_is_left() {
    let mut dust = DustBandTable::new(0, 100);
    let mut l = AccretionLoop::new(1000, 3, 100);
    assert_eq!(l.next(&mut dust), LoopStep::Draw);
    assert_eq!(l.iterations(), 1);
    dust.sweep(0, 60, true);
    assert_eq!(l.next(&mut dust), LoopStep::Draw);
    dust.sweep(60, 100, false);
    assert_eq!(l.next(&mut dust), LoopStep::Exhausted);
    assert_eq!(l.iterations(), 2);
    assert!(!dust.dust_available(0, 100));
}

#[test]
fn cap_ends_the_loop() {
    let mut dust = DustBandTable::new(0, 100);
    let mut l = AccretionLoop::new(2, 3, 100);
    assert_eq!(l.next(&mut dust), LoopStep::Draw);
    assert_eq!(l.next(&mut dust), LoopStep::Draw);
    assert_eq!(l.next(&mut dust), LoopStep::CapReached);
    assert_eq!(l.iterations(), 2);
}

#[test]
fn growth_stops_on_convergence_or_cap() {
    assert!(keep_growing(0, 100, 50, 10));
    assert!(keep_growing(99, 100, 10, 10));
    assert!(!keep_growing(100, 100, 50, 10));
    assert!(!keep_growing(3, 100, 9, 10));
}
