use spotter::geo::Position;
use spotter::ident::Icao;
use spotter::registry::{LookupError, Registry};
use spotter::track::DecodedReport;

fn obs() -> Position {
    Position { lat_micro: 0, lon_micro: 0 }
}

fn report(code: u32) -> DecodedReport {
    DecodedReport {
        icao: Icao { code },
        position: None,
        altitude: None,
        ground_speed: None,
        heading: None,
    }
}

fn report_at(code: u32, lat: i64, lon: i64) -> DecodedReport {
    DecodedReport {
        icao: Icao { code },
        position: Some(Position { lat_micro: lat, lon_micro: lon }),
        altitude: None,
        ground_speed: None,
        heading: None,
    }
}

#[test]
fn merge_is_field_wise_last_write_wins() {
    let mut reg = Registry::new(obs(), 1_000_000);
    let id = Icao { code: 0xABCDE };

    let mut r1 = report(0xABCDE);
    r1.altitude = Some(30_000);
    reg.upsert(&r1, 10);

    let mut r2 = report_at(0xABCDE, 70, 30);
    r2.ground_speed = Some(450);
    reg.upsert(&r2, 20);

    let mut r3 = report(0xABCDE);
    r3.altitude = Some(31_000);
    r3.heading = Some(90);
    reg.upsert(&r3, 30);

    let e = reg.get(id).unwrap();
    // Each field holds the last value any report carried for it.
    assert_eq!(e.altitude, Some(31_000));
    assert_eq!(e.position, Some(Position { lat_micro: 70, lon_micro: 30 }));
    assert_eq!(e.ground_speed, Some(450));
    assert_eq!(e.heading, Some(90));
    assert_eq!(e.distance, Some(100));
    assert_eq!(e.last_update, 30);
}

#[test]
fn upsert_touches_only_its_identifier() {
    let mut reg = Registry::new(obs(), 1_000_000);
    reg.upsert(&report_at(1, 5, 5), 10);
    reg.upsert(&report_at(2, 7, 7), 20);
    let e1 = reg.get(Icao { code: 1 }).unwrap();
    assert_eq!(e1.position, Some(Position { lat_micro: 5, lon_micro: 5 }));
    assert_eq!(e1.last_update, 10);
    assert_eq!(reg.len(), 2);
}

#[test]
fn eviction_removes_stale_keeps_fresh() {
    let mut reg = Registry::new(obs(), 1_000_000);
    reg.upsert(&report(1), 0);
    reg.upsert(&report(2), 100);
    reg.evict(150, 120);
    // Entity 1 is 150 ticks old (over the threshold? 0 + 120 < 150): gone.
    assert!(reg.get(Icao { code: 1 }).is_none());
    // Entity 2 is 50 ticks old: present.
    assert!(reg.get(Icao { code: 2 }).is_some());
    assert_eq!(reg.len(), 1);
}

#[test]
fn eviction_boundary_is_inclusive() {
    let mut reg = Registry::new(obs(), 1_000_000);
    reg.upsert(&report(1), 30);
    // Exactly at the threshold: 30 + 120 == 150, still fresh.
    reg.evict(150, 120);
    assert!(reg.get(Icao { code: 1 }).is_some());
    // One tick later it is stale.
    reg.evict(151, 120);
    assert!(reg.get(Icao { code: 1 }).is_none());
}

#[test]
fn eviction_is_irrevocable() {
    let mut reg = Registry::new(obs(), 1_000_000);
    reg.upsert(&report_at(9, 40, 2), 0);
    reg.evict(500, 120);
    assert!(reg.get(Icao { code: 9 }).is_none());
    // A later report creates a blank record; the old position is not resurrected.
    reg.upsert(&report(9), 600);
    let e = reg.get(Icao { code: 9 }).unwrap();
    assert_eq!(e.position, None);
    assert_eq!(e.distance, None);
    assert_eq!(e.last_update, 600);
}

#[test]
fn distance_undefined_until_position_then_deterministic() {
    let mut reg = Registry::new(obs(), 1_000_000);
    let mut r = report(5);
    r.altitude = Some(12_000);
    reg.upsert(&r, 1);
    let e = reg.get(Icao { code: 5 }).unwrap();
    assert_eq!(e.distance, None);

    reg.upsert(&report_at(5, 300, 400), 2);
    let e = reg.get(Icao { code: 5 }).unwrap();
    // Grid distance from (0,0): |300| + |400|.
    assert_eq!(e.distance, Some(700));

    // A position-free report afterwards leaves the distance defined.
    reg.upsert(&report(5), 3);
    let e = reg.get(Icao { code: 5 }).unwrap();
    assert_eq!(e.distance, Some(700));
}

#[test]
fn out_of_range_position_is_discarded() {
    let mut reg = Registry::new(obs(), 500);
    reg.upsert(&report_at(7, 400, 200), 1);
    // 600 distance units from the observer is beyond the sanity bound.
    let e = reg.get(Icao { code: 7 }).unwrap();
    assert_eq!(e.position, None);
    assert_eq!(e.distance, None);
    // The record still exists and was refreshed.
    assert_eq!(e.last_update, 1);
}

#[test]
fn nearest_and_farthest_select_extremes() {
    let mut reg = Registry::new(obs(), 1_000_000);
    reg.upsert(&report_at(3, 0, 50), 1);
    reg.upsert(&report_at(1, 0, 10), 1);
    reg.upsert(&report_at(2, 0, 30), 1);
    reg.upsert(&report(4), 1);

    let (id, e) = reg.nearest().unwrap();
    assert_eq!(id.code, 1);
    assert_eq!(e.distance, Some(10));

    let (id, e) = reg.farthest().unwrap();
    assert_eq!(id.code, 3);
    assert_eq!(e.distance, Some(50));
}

#[test]
fn nearest_and_farthest_none_without_distances() {
    let mut reg = Registry::new(obs(), 1_000_000);
    assert!(reg.nearest().is_none());
    assert!(reg.farthest().is_none());
    // Entities without a defined distance do not make a result appear.
    reg.upsert(&report(1), 1);
    reg.upsert(&report(2), 1);
    assert!(reg.nearest().is_none());
    assert!(reg.farthest().is_none());
}

#[test]
fn ties_go_to_the_lowest_identifier() {
    let mut reg = Registry::new(obs(), 1_000_000);
    reg.upsert(&report_at(20, 0, 10), 1);
    reg.upsert(&report_at(10, 10, 0), 1);
    reg.upsert(&report_at(30, 5, 5), 1);
    // All three sit at distance 10.
    let (id, _) = reg.nearest().unwrap();
    assert_eq!(id.code, 10);
    let (id, _) = reg.farthest().unwrap();
    assert_eq!(id.code, 10);
}

#[test]
fn by_id_reports_each_failure_distinctly() {
    let mut reg = Registry::new(obs(), 1_000_000);
    reg.upsert(&report_at(0xC0FFEE, 1, 2), 1);

    // Present, well-formed identifier.
    let e = reg.by_id("c0ffee").unwrap();
    assert_eq!(e.distance, Some(3));
    // Case-insensitive hex.
    assert!(reg.by_id("C0FFEE").is_ok());

    // Well-formed but absent.
    assert_eq!(reg.by_id("abc123"), Err(LookupError::NotFound));

    // Malformed: wrong length or non-hex characters.
    assert_eq!(reg.by_id(""), Err(LookupError::InvalidIdentifier));
    assert_eq!(reg.by_id("c0ffe"), Err(LookupError::InvalidIdentifier));
    assert_eq!(reg.by_id("c0ffee7"), Err(LookupError::InvalidIdentifier));
    assert_eq!(reg.by_id("c0ffeg"), Err(LookupError::InvalidIdentifier));
}

#[test]
fn snapshot_lists_every_entity_once() {
    let mut reg = Registry::new(obs(), 1_000_000);
    reg.upsert(&report_at(1, 0, 10), 1);
    reg.upsert(&report(2), 2);
    reg.upsert(&report_at(1, 0, 20), 3);

    let snap = reg.snapshot();
    assert_eq!(snap.len(), 2);
    let mut saw1 = false;
    let mut saw2 = false;
    for (k, e) in snap.iter() {
        if *k == 1 {
            assert_eq!(e.distance, Some(20));
            saw1 = true;
        }
        if *k == 2 {
            assert_eq!(e.distance, None);
            saw2 = true;
        }
    }
    assert!(saw1 && saw2);
}

#[test]
fn end_to_end_observer_at_origin() {
    // Observer at (0,0); A has a position 10 units away, B 50 units away,
    // C reports no position.
    let mut reg = Registry::new(obs(), 1_000_000);
    reg.upsert(&report_at(0xA, 0, 10), 1);
    reg.upsert(&report_at(0xB, 0, 50), 1);
    reg.upsert(&report(0xC), 1);

    assert_eq!(reg.snapshot().len(), 3);
    assert_eq!(reg.len(), 3);

    let (id, e) = reg.nearest().unwrap();
    assert_eq!((id.code, e.distance), (0xA, Some(10)));

    let (id, e) = reg.farthest().unwrap();
    assert_eq!((id.code, e.distance), (0xB, Some(50)));

    let c = reg.by_id("00000c").unwrap();
    assert_eq!(c.distance, None);
}
