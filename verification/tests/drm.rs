use terra_wm::drm::{
    pick_gpu, preferred_mode_index, primary_device_index, scan_actions, ConnectorAction, ScanEvent,
    ScanEventKind,
};
use terra_wm::grab::{grab_released, BTN_LEFT};

#[test]
fn preferred_mode_or_first() {
    assert_eq!(preferred_mode_index(&vec![false, true, true]), 1);
    assert_eq!(preferred_mode_index(&vec![false, false]), 0);
}

#[test]
fn primary_device_by_node_or_gpu() {
    assert_eq!(primary_device_index(&vec![5, 7, 9], Some(9), 7), Some(1));
    assert_eq!(primary_device_index(&vec![5, 9], Some(9), 7), Some(1));
    assert_eq!(primary_device_index(&vec![5], None, 7), None);
}

#[test]
fn gpu_falls_back_to_first_usable() {
    assert_eq!(pick_gpu(Some(3), &vec![Some(1)]), Some(3));
    assert_eq!(pick_gpu(None, &vec![None, Some(4), Some(5)]), Some(4));
    assert_eq!(pick_gpu(None, &vec![None]), None);
}

#[test]
fn scan_events_become_actions() {
    let events = vec![
        ScanEvent { kind: ScanEventKind::Connected, crtc: Some(40) },
        ScanEvent { kind: ScanEventKind::Connected, crtc: None },
        ScanEvent { kind: ScanEventKind::Other, crtc: Some(41) },
        ScanEvent { kind: ScanEventKind::Disconnected, crtc: Some(42) },
    ];
    assert_eq!(
        scan_actions(&events),
        vec![
            ConnectorAction::Connect { event: 0, crtc: 40 },
            ConnectorAction::Disconnect { event: 3, crtc: 42 },
        ]
    );
}

#[test]
fn grab_ends_when_left_button_released() {
    assert!(!grab_released(&vec![BTN_LEFT]));
    assert!(!grab_released(&vec![0x111, 0x110]));
    assert!(grab_released(&vec![0x111]));
    assert!(grab_released(&vec![]));
}
