use epc_explorer::app::{compare_bytes, same_bytes, App, INACTIVE_AGE};
use epc_explorer::rfid::{ScanResult, ScanSettings, Tid, XtidHeader};

fn tid(xtid: bool, mdid: u16, tmid: u16) -> Tid {
    Tid { xtid, security: false, file: false, mdid, tmid }
}

fn detection(epc: u8, now: u64) -> ScanResult {
    ScanResult::from_epc(vec![epc], now)
}

fn epcs(app: &App, now: u64) -> Vec<Vec<u8>> {
    app.get_items(now).iter().map(|r| r.epc.clone()).collect()
}

#[test]
fn default_settings_scan_in_detail() {
    assert!(ScanSettings::default().detailed_scan);
}

#[test]
fn merge_with_itself_changes_nothing() {
    let mut a = ScanResult::from_epc(vec![1, 2, 3], 700);
    a.tid = Some(tid(true, 6, 0x890));
    a.serial = Some(vec![9, 9]);
    a.rssi = Some(-40);
    a.antenna = Some(2);
    let b = a.duplicate();
    a.update(b.duplicate());
    assert!(a.epc == b.epc && a.tid == b.tid && a.serial == b.serial);
    assert!(a.rssi == b.rssi && a.antenna == b.antenna && a.last_seen == b.last_seen);
}

#[test]
fn merge_keeps_known_fields_and_takes_antenna_and_time() {
    let mut e1 = ScanResult::from_epc(vec![7], 100);
    e1.tid = Some(tid(false, 1, 2));
    e1.antenna = Some(3);
    e1.rssi = Some(-50);
    let e2 = ScanResult::from_epc(vec![7], 200);
    e1.update(e2);
    assert!(e1.tid == Some(tid(false, 1, 2)));
    assert_eq!(e1.rssi, Some(-50));
    assert_eq!(e1.antenna, None);
    assert_eq!(e1.last_seen, 200);

    let mut e3 = ScanResult::from_epc(vec![7], 300);
    e3.tid = Some(tid(true, 4, 5));
    e3.xtid_header = Some(XtidHeader {
        extended_header: false,
        user_memory_permalock: false,
        blockwrite_blockerase: true,
        optional_command_support: false,
        serial_size: 80,
    });
    e3.antenna = Some(1);
    e1.update(e3);
    assert!(e1.tid == Some(tid(true, 4, 5)));
    assert!(e1.xtid_header.is_some());
    assert_eq!(e1.antenna, Some(1));
    assert_eq!(e1.last_seen, 300);
}

#[test]
fn byte_order_is_lexicographic() {
    assert_eq!(compare_bytes(&vec![1, 2], &vec![1, 3]), -1);
    assert_eq!(compare_bytes(&vec![1, 2], &vec![1, 2]), 0);
    assert_eq!(compare_bytes(&vec![1, 2, 0], &vec![1, 2]), 1);
    assert_eq!(compare_bytes(&vec![], &vec![0]), -1);
    assert!(same_bytes(&vec![4, 5], &vec![4, 5]));
    assert!(!same_bytes(&vec![4, 5], &vec![4]));
}

#[test]
fn ingest_merges_by_tag_id() {
    let mut app = App::new();
    let mut first = detection(0xAA, 1000);
    first.tid = Some(tid(false, 1, 1));
    app.update_items(vec![first, detection(0xBB, 1000), detection(0xAA, 2000)], 2000);
    assert_eq!(app.items.len(), 2);
    let aa = app.items.iter().find(|r| r.epc == vec![0xAA]).unwrap();
    assert_eq!(aa.last_seen, 2000);
    assert!(aa.tid == Some(tid(false, 1, 1)));
}

#[test]
fn view_lists_each_tag_once() {
    let mut app = App::new();
    app.update_items(vec![detection(3, 10), detection(1, 10), detection(3, 20), detection(2, 15)], 20);
    assert_eq!(epcs(&app, 20), vec![vec![1], vec![2], vec![3]]);
}

#[test]
fn view_orders_fresh_by_id_and_stale_by_age() {
    let mut app = App::new();
    app.show_inactive = true;
    app.update_items(vec![detection(9, 0), detection(5, 3000), detection(7, 4000), detection(1, 9000)], 10000);
    // ages: 9 -> 10000, 5 -> 7000, 7 -> 6000, 1 -> 1000 (clamped to 5000)
    assert_eq!(epcs(&app, 10000), vec![vec![1], vec![7], vec![5], vec![9]]);
}

#[test]
fn hidden_inactive_entries_stay_in_the_map() {
    let mut app = App::new();
    app.update_items(vec![detection(1, 0), detection(2, 5000)], 5000 + INACTIVE_AGE - 1);
    assert_eq!(epcs(&app, 5000 + INACTIVE_AGE - 1), vec![vec![2]]);
    assert_eq!(app.items.len(), 2);
    app.toggle_show_inactive();
    assert_eq!(epcs(&app, 5000 + INACTIVE_AGE - 1), vec![vec![2], vec![1]]);
}

#[test]
fn selection_wraps_both_ways() {
    let mut app = App::new();
    app.update_items(vec![detection(1, 100), detection(2, 100), detection(3, 100)], 100);
    assert_eq!(app.selected, Some(vec![1]));
    app.update_selected(true, 100);
    assert_eq!(app.selected, Some(vec![3]));
    app.update_selected(false, 100);
    assert_eq!(app.selected, Some(vec![1]));
    app.update_selected(false, 100);
    assert_eq!(app.selected, Some(vec![2]));
}

#[test]
fn selection_on_empty_view_stays_unset() {
    let mut app = App::new();
    app.update_selected(false, 0);
    assert_eq!(app.selected, None);
}

#[test]
fn unlisted_selection_counts_as_head() {
    let mut app = App::new();
    app.update_items(vec![detection(1, 100), detection(2, 100)], 100);
    app.selected = Some(vec![0x77]);
    app.update_selected(false, 100);
    assert_eq!(app.selected, Some(vec![2]));
}

#[test]
fn first_detection_is_selected() {
    let mut app = App::new();
    app.update_items(vec![detection(0x41, 50)], 60);
    assert_eq!(app.selected, Some(vec![0x41]));
}

#[test]
fn same_time_tags_select_lower_id_then_cycle() {
    let mut app = App::new();
    app.update_items(vec![detection(0xBB, 1000), detection(0xAA, 1000)], 1000);
    assert_eq!(app.selected, Some(vec![0xAA]));
    app.update_selected(false, 1000);
    assert_eq!(app.selected, Some(vec![0xBB]));
    app.update_selected(false, 1000);
    assert_eq!(app.selected, Some(vec![0xAA]));
}

#[test]
fn stale_only_entry_clears_selection() {
    let mut app = App::new();
    app.update_items(vec![detection(0xAA, 1000)], 1000);
    assert_eq!(app.selected, Some(vec![0xAA]));
    app.update_items(vec![], 7000);
    assert_eq!(app.selected, None);
    assert_eq!(app.items.len(), 1);
}

#[test]
fn existing_selection_is_kept_on_ingest() {
    let mut app = App::new();
    app.update_items(vec![detection(5, 100)], 100);
    app.update_items(vec![detection(1, 200)], 200);
    assert_eq!(app.selected, Some(vec![5]));
}

#[test]
fn activity_ends_at_the_threshold() {
    let r = ScanResult::from_epc(vec![1], 1000);
    assert!(r.active(1000 + INACTIVE_AGE - 1));
    assert!(!r.active(1000 + INACTIVE_AGE));
    assert!(r.active(500));
}
