use epc_explorer::rfid::{ScanResult, ScanSettings, Tid};
use epc_explorer::scan::{
    antenna_detail, antenna_detection, bulk_detections, needs_xtid, next_antenna, next_settings, serial_read,
    sweep_or_empty, tag_details, tid_from_read, tid_read, xtid_read, ScanState,
};

fn tid(xtid: bool) -> Tid {
    Tid { xtid, security: false, file: false, mdid: 0x6, tmid: 0x893 }
}

#[test]
fn antenna_rotation_wraps_at_four() {
    assert_eq!(next_antenna(0), 1);
    assert_eq!(next_antenna(2), 3);
    assert_eq!(next_antenna(3), 0);
}

#[test]
fn latest_settings_win() {
    let cur = ScanSettings::default();
    let off = ScanSettings { detailed_scan: false };
    assert!(!next_settings(cur, Some(off)).detailed_scan);
    assert!(next_settings(cur, None).detailed_scan);
}

#[test]
fn memory_read_ranges() {
    assert_eq!((tid_read().start, tid_read().count), (0, 2));
    assert_eq!((xtid_read().start, xtid_read().count), (2, 1));
    assert_eq!((serial_read().start, serial_read().count), (2, 3));
}

#[test]
fn xtid_read_only_when_announced() {
    assert!(needs_xtid(Some(tid(true))));
    assert!(!needs_xtid(Some(tid(false))));
    assert!(!needs_xtid(None));
}

#[test]
fn tid_bytes_decode_most_significant_bit_first() {
    let t = tid_from_read(&Some(vec![0xE2, 0x80, 0x11, 0x05])).unwrap();
    assert!(t.xtid && !t.security && !t.file);
    assert_eq!(t.mdid, 1);
    assert_eq!(t.tmid, 0x105);
    assert!(tid_from_read(&Some(vec![0xE3, 0x80, 0x11, 0x05])).is_none());
    assert!(tid_from_read(&Some(vec![0xE2, 0x80, 0x11])).is_none());
    assert!(tid_from_read(&None).is_none());
}

#[test]
fn details_decode_header_only_when_announced() {
    let tag = ScanResult::from_epc(vec![1, 2], 500);
    let plain_tid = Some(vec![0xE2, 0x00, 0x34, 0x12]);
    let xtid_tid = Some(vec![0xE2, 0x80, 0x11, 0x05]);
    let header = Some(vec![0x00, 0x22]);
    let r = tag_details(&tag, &plain_tid, &header, Some(vec![8, 8, 8]));
    assert!(r.tid == Some(Tid { xtid: false, security: false, file: false, mdid: 3, tmid: 0x412 }));
    assert!(r.xtid_header.is_none());
    assert_eq!(r.serial, Some(vec![8, 8, 8]));
    assert_eq!(r.epc, vec![1, 2]);
    let r = tag_details(&tag, &xtid_tid, &header, None);
    let h = r.xtid_header.unwrap();
    assert!(!h.extended_header && h.user_memory_permalock && !h.blockwrite_blockerase);
    assert!(!h.optional_command_support);
    assert_eq!(h.serial_size, 64);
    assert!(r.serial.is_none());
    assert_eq!(r.last_seen, 500);
    let r = tag_details(&tag, &None, &header, None);
    assert!(r.tid.is_none() && r.xtid_header.is_none());
}

#[test]
fn sweep_detection_carries_signal_and_antenna() {
    let r = antenna_detection(vec![3], -61, 2, 42);
    assert_eq!(r.rssi, Some(-61));
    assert_eq!(r.antenna, Some(2));
    assert_eq!(r.last_seen, 42);
    let d = antenna_detail(vec![3], &vec![0xE2, 0x00, 0x34, 0x12], 1, 43);
    assert!(d.tid == Some(Tid { xtid: false, security: false, file: false, mdid: 3, tmid: 0x412 }));
    assert_eq!(d.antenna, Some(1));
    assert!(d.rssi.is_none());
    let bad = antenna_detail(vec![3], &vec![0x00], 1, 43);
    assert!(bad.tid.is_none());
}

#[test]
fn failed_sweep_counts_as_empty() {
    assert!(sweep_or_empty(None).is_empty());
    assert_eq!(sweep_or_empty(Some(vec![ScanResult::from_epc(vec![1], 0)])).len(), 1);
}

#[test]
fn scan_state_rotates_only_after_detail_pass() {
    let mut st = ScanState::new();
    assert!(st.begin_cycle(None));
    st.end_cycle();
    assert_eq!(st.detail_antenna, 1);
    assert!(!st.begin_cycle(Some(ScanSettings { detailed_scan: false })));
    st.end_cycle();
    assert_eq!(st.detail_antenna, 1);
    assert!(!st.begin_cycle(None));
    assert!(st.begin_cycle(Some(ScanSettings { detailed_scan: true })));
    st.end_cycle();
    st.end_cycle();
    st.end_cycle();
    assert_eq!(st.detail_antenna, 0);
}

#[test]
fn bulk_inventory_becomes_fresh_detections() {
    let r = bulk_detections(&vec![vec![1, 2], vec![3]], 77);
    assert_eq!(r.len(), 2);
    assert_eq!(r[0].epc, vec![1, 2]);
    assert_eq!(r[1].epc, vec![3]);
    assert_eq!(r[1].last_seen, 77);
    assert!(r[0].rssi.is_none() && r[0].antenna.is_none());
    assert!(bulk_detections(&vec![], 1).is_empty());
}
