use iris::gui::{Gui, WindowRegistry};

#[test]
fn test_gui_operations() {
    let mut reg = WindowRegistry::new();
    let win = "Test Window";
    Gui::named_window(&mut reg, win).unwrap();
    Gui::set_window_title(&mut reg, win, "New Title").unwrap();
    Gui::resize_window(&mut reg, win, 800, 600).unwrap();

    Gui::create_trackbar(&mut reg, "bar", win, 10, 100).unwrap();
    let pos = Gui::get_trackbar_pos(&reg, "bar", win).unwrap();
    assert_eq!(pos, 10);

    Gui::set_trackbar_pos(&mut reg, "bar", win, 25).unwrap();
    let pos_new = Gui::get_trackbar_pos(&reg, "bar", win).unwrap();
    assert_eq!(pos_new, 25);

    reg.show_frame(win, 8, 8, vec![127u8; 8 * 8 * 3]);

    Gui::destroy_window(&mut reg, win).unwrap();
    Gui::destroy_all_windows(&mut reg).unwrap();
}

#[test]
fn trackbar_is_capped_at_its_maximum() {
    let mut reg = WindowRegistry::new();
    reg.named_window("w");
    reg.create_trackbar("t", "w", 3, 10);
    reg.set_trackbar_pos("t", "w", 99);
    assert_eq!(reg.get_trackbar_pos("t", "w"), 10);
    reg.set_trackbar_pos("t", "w", -4);
    assert_eq!(reg.get_trackbar_pos("t", "w"), -4);
}

#[test]
fn trackbar_needs_its_window() {
    let mut reg = WindowRegistry::new();
    reg.create_trackbar("t", "missing", 3, 10);
    assert_eq!(reg.get_trackbar_pos("t", "missing"), 0);
    reg.named_window("w");
    assert_eq!(reg.get_trackbar_pos("t", "w"), 0);
    reg.create_trackbar("t", "w", 7, 10);
    assert_eq!(reg.get_trackbar_pos("t", "w"), 7);
    reg.destroy_window("w");
    assert_eq!(reg.get_trackbar_pos("t", "w"), 0);
}

#[test]
fn trackbars_move_independently() {
    let mut reg = WindowRegistry::new();
    reg.named_window("a");
    reg.named_window("b");
    reg.create_trackbar("t", "a", 1, 50);
    reg.create_trackbar("t", "b", 2, 50);
    reg.create_trackbar("u", "a", 3, 50);
    reg.set_trackbar_pos("t", "a", 40);
    assert_eq!(reg.get_trackbar_pos("t", "a"), 40);
    assert_eq!(reg.get_trackbar_pos("t", "b"), 2);
    assert_eq!(reg.get_trackbar_pos("u", "a"), 3);
}

#[test]
fn recreating_a_window_resets_its_trackbars() {
    let mut reg = WindowRegistry::new();
    reg.named_window("w");
    reg.create_trackbar("t", "w", 5, 10);
    reg.named_window("w");
    assert_eq!(reg.get_trackbar_pos("t", "w"), 0);
    reg.create_trackbar("t", "w", 5, 10);
    reg.destroy_all_windows();
    assert_eq!(reg.get_trackbar_pos("t", "w"), 0);
}

#[test]
fn window_presence() {
    let mut reg = WindowRegistry::new();
    assert!(!reg.has_window("w"));
    reg.named_window("w");
    assert!(reg.has_window("w"));
    reg.show_frame("v", 2, 2, vec![0u8; 12]);
    assert!(reg.has_window("v"));
    reg.destroy_window("w");
    assert!(!reg.has_window("w"));
    assert!(reg.has_window("v"));
}
