use spotter::geo::Position;
use spotter::ident::Icao;
use spotter::ingest::{apply_report, extract_payload, EVICT_SECONDS};
use spotter::registry::Registry;
use spotter::track::DecodedReport;

#[test]
fn extract_payload_decodes_a_framed_line() {
    let line = b"*8D4840D6202CC371C32CE0576098;\n";
    let bytes = extract_payload(line).unwrap();
    assert_eq!(
        bytes,
        vec![0x8D, 0x48, 0x40, 0xD6, 0x20, 0x2C, 0xC3, 0x71, 0xC3, 0x2C, 0xE0, 0x57, 0x60, 0x98]
    );
}

#[test]
fn extract_payload_accepts_mixed_case_hex() {
    let bytes = extract_payload(b"*8d48F0aB;\n").unwrap();
    assert_eq!(bytes, vec![0x8D, 0x48, 0xF0, 0xAB]);
}

#[test]
fn extract_payload_skips_empty_after_stripping() {
    assert!(extract_payload(b"").is_none());
    assert!(extract_payload(b"\n").is_none());
    assert!(extract_payload(b"*;\n").is_none());
}

#[test]
fn extract_payload_skips_malformed_hex() {
    // Odd number of digits.
    assert!(extract_payload(b"*8D4;\n").is_none());
    // A character outside the hex alphabet.
    assert!(extract_payload(b"*8G;\n").is_none());
}

#[test]
fn extract_payload_skips_the_all_zero_idle_marker() {
    assert!(extract_payload(b"*0000;\n").is_none());
    assert!(extract_payload(b"*00;\n").is_none());
    // A payload with any nonzero byte is not the idle marker.
    assert!(extract_payload(b"*0001;\n").is_some());
}

#[test]
fn apply_report_merges_and_sweeps() {
    let mut reg = Registry::new(Position { lat_micro: 0, lon_micro: 0 }, 1_000_000);
    let old = DecodedReport {
        icao: Icao { code: 1 },
        position: None,
        altitude: Some(100),
        ground_speed: None,
        heading: None,
    };
    apply_report(&mut reg, &old, 10);
    assert_eq!(reg.len(), 1);

    // The next successful decode both merges its report and evicts entity 1,
    // whose record is now older than the threshold.
    let fresh = DecodedReport {
        icao: Icao { code: 2 },
        position: None,
        altitude: None,
        ground_speed: None,
        heading: None,
    };
    apply_report(&mut reg, &fresh, 10 + EVICT_SECONDS + 1);
    assert!(reg.get(Icao { code: 1 }).is_none());
    assert!(reg.get(Icao { code: 2 }).is_some());
    assert_eq!(reg.len(), 1);
}
