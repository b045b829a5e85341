use thearf::actions::{bind_to_cmd, pointer_button_action, ButtonAction, CommandAction};
use thearf::drm::{Drm, DrmNode};
use thearf::layout::Rect;
use thearf::order::{drop_in_master, swap_windows};

#[test]
fn swap_moves_window_to_target() {
    let mut order = vec!["a", "b", "c", "d"];
    swap_windows(&mut order, 2, 0);
    assert_eq!(order, vec!["c", "b", "a", "d"]);
    swap_windows(&mut order, 2, 0);
    assert_eq!(order, vec!["a", "b", "c", "d"]);
    swap_windows(&mut order, 1, 3);
    assert_eq!(order, vec!["a", "d", "c", "b"]);
    swap_windows(&mut order, 2, 2);
    assert_eq!(order, vec!["a", "d", "c", "b"]);
}

#[test]
fn master_drop_zone() {
    let screen = Rect { x: 100, y: 0, w: 800, h: 600 };
    assert!(drop_in_master(299, screen));
    assert!(!drop_in_master(300, screen));
    assert!(drop_in_master(-50, screen));
}

#[test]
fn commands_of_bindings() {
    assert_eq!(bind_to_cmd("close_win", true, 2), CommandAction::CloseWindow);
    assert_eq!(bind_to_cmd("close_win", true, 0), CommandAction::Ignore);
    assert_eq!(bind_to_cmd("refresh", true, 0), CommandAction::Retile);
    assert_eq!(bind_to_cmd("alacritty", true, 1), CommandAction::Spawn);
    assert_eq!(bind_to_cmd("refresh", false, 3), CommandAction::Ignore);
    assert_eq!(bind_to_cmd("alacritty", false, 3), CommandAction::Ignore);
}

#[test]
fn pointer_buttons() {
    assert_eq!(pointer_button_action(true, false, true), ButtonAction::Focus);
    assert_eq!(pointer_button_action(true, false, false), ButtonAction::ClearFocus);
    assert_eq!(pointer_button_action(true, true, true), ButtonAction::Forward);
    assert_eq!(pointer_button_action(false, false, true), ButtonAction::Forward);
}

#[test]
fn device_added_keeps_nothing() {
    let drm = Drm { seat: "seat0".to_string(), primary_gpu: DrmNode { dev_id: 226 }, all_gpus: vec![] };
    Drm::device_added(DrmNode { dev_id: 227 }, "/dev/dri/card1".to_string());
    assert_eq!(drm.all_gpus.len(), 0);
    assert_eq!(drm.primary_gpu.dev_id, 226);
}
